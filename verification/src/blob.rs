//! The file versions that git stores, between raw blob bytes and texts in `\n` lines.
//!
//! A blob is read as UTF-8 (lossily; code files are UTF-8) with its newlines normalized,
//! and written back with the line endings of the blob that it replaces.

use vstd::prelude::*;
use vstd::utf8::{decode_utf8, encode_scalar, encode_utf8, valid_utf8};

use crate::diff::{
    law_crlf_normalizes_back, law_normalize_keeps_lf, normalize_newlines, normalized, with_crlf,
};

verus! {

/// The characters of `bytes` that are not all UTF-8, with replacement characters.
pub uninterp spec fn lossy_utf8(bytes: Seq<u8>) -> Seq<char>;

/// The characters of `bytes` read as UTF-8.
pub open spec fn read_utf8(bytes: Seq<u8>) -> Seq<char> {
    if valid_utf8(bytes) {
        decode_utf8(bytes)
    } else {
        lossy_utf8(bytes)
    }
}

/// `String::from_utf8_lossy`. Valid UTF-8 is decoded as it is; where replacement
/// characters stand in any other text is left to the name [`lossy_utf8`].
#[verifier::external_body]
fn text_from_utf8_lossy(bytes: &[u8]) -> (r: String)
    ensures
        r@ == if valid_utf8(bytes@) {
            decode_utf8(bytes@)
        } else {
            lossy_utf8(bytes@)
        },
{
    String::from_utf8_lossy(bytes).into_owned()
}

/// A blob's content with its newlines normalized (non-UTF-8 is read lossily).
pub fn blob_text(content: &[u8]) -> (r: String)
    ensures
        r@ == normalized(read_utf8(content@)),
{
    let text = text_from_utf8_lossy(content);
    normalize_newlines(text.as_str())
}

/// The text of a blob that may be missing.
pub open spec fn text_of(blob: Option<&[u8]>) -> Option<Seq<char>> {
    match blob {
        Some(content) => Some(normalized(read_utf8(content@))),
        None => None,
    }
}

/// The characters of a text that may be missing.
pub open spec fn opt_view(s: Option<String>) -> Option<Seq<char>> {
    match s {
        Some(t) => Some(t@),
        None => None,
    }
}

fn opt_blob_text(blob: Option<&[u8]>) -> (r: Option<String>)
    ensures
        opt_view(r) == text_of(blob),
{
    match blob {
        Some(content) => Some(blob_text(content)),
        None => None,
    }
}

/// The HEAD and index (stage 0) versions of a file as `(head, index)` texts, given the
/// two blobs. Either is `None` when the file is not there (an untracked file, no commit
/// yet, no repository). The editor uses HEAD as the diff base, falling back to the index
/// before the first commit, and both together to tell what is staged.
pub fn git_texts(head_blob: Option<&[u8]>, index_blob: Option<&[u8]>) -> (r: (
    Option<String>,
    Option<String>,
))
    ensures
        opt_view(r.0) == text_of(head_blob),
        opt_view(r.1) == text_of(index_blob),
{
    (opt_blob_text(head_blob), opt_blob_text(index_blob))
}

/// The index (stage 0) version of a file as a text.
pub fn git_base(index_blob: Option<&[u8]>) -> (r: Option<String>)
    ensures
        opt_view(r) == text_of(index_blob),
{
    git_texts(None, index_blob).1
}

/// Whether a CR byte with an LF byte right after it starts at `i`.
pub open spec fn crlf_at(bytes: Seq<u8>, i: int) -> bool {
    0 <= i && i + 1 < bytes.len() && bytes[i] == 13 && bytes[i + 1] == 10
}

/// Whether a blob has CRLF line endings, at least one.
pub open spec fn has_crlf(bytes: Seq<u8>) -> bool {
    exists|i: int| crlf_at(bytes, i)
}

/// Whether a blob has CRLF line endings, at least one.
pub fn uses_crlf(bytes: &[u8]) -> (r: bool)
    ensures
        r == has_crlf(bytes@),
        r <==> exists|i: int|
            0 <= i < bytes@.len() - 1 && #[trigger] bytes@[i] == 0x0d && bytes@[i + 1] == 0x0a,
{
    let n: usize = bytes.len();
    let mut i: usize = 1;
    while i < n
        invariant
            1 <= i,
            n == bytes@.len(),
            forall|k: int| 0 <= k < i - 1 ==> !crlf_at(bytes@, k),
        decreases n - i,
    {
        if bytes[i - 1] == 13 && bytes[i] == 10 {
            assert(crlf_at(bytes@, i - 1));
            assert(bytes@[i - 1] == 0x0d && bytes@[i - 1 + 1] == 0x0a);
            return true;
        }
        i += 1;
    }
    assert forall|k: int| 0 <= k < bytes@.len() - 1 implies !(#[trigger] bytes@[k] == 0x0d
        && bytes@[k + 1] == 0x0a) by {
        assert(!crlf_at(bytes@, k));
    }
    false
}

/// `content` with every `\n` written as `\r\n`.
fn to_crlf(content: &str) -> (r: String)
    ensures
        r@ == with_crlf(content@),
{
    let mut out = String::new();
    for c in it: content.chars()
        invariant
            it.seq() == content@,
            out@ == with_crlf(content@.take(it.index() as int)),
    {
        let ghost k = it.index() as int;
        assert(content@.take(k + 1).drop_last() == content@.take(k));
        assert(content@.take(k + 1).last() == c);
        if c == '\n' {
            out.push('\r');
        }
        out.push(c);
    }
    assert(content@.take(content@.len() as int) == content@);
    out
}

/// The bytes of the blob that holds `content` in place of `existing`.
pub open spec fn staged_bytes(existing: Option<&[u8]>, content: Seq<char>) -> Seq<u8> {
    encode_utf8(
        if existing is Some && has_crlf(existing->0@) {
            with_crlf(content)
        } else {
            content
        },
    )
}

/// The bytes to write as the new index blob of a file whose text is to be `content_lf`
/// (in `\n` lines), given the content of its current index blob, if that can be read.
/// The blob keeps the line endings of the current one.
pub fn stage_blob(existing: Option<&[u8]>, content_lf: &str) -> (r: Vec<u8>)
    ensures
        r@ == staged_bytes(existing, content_lf@),
        // Reading the blob gives back the content.
        !content_lf@.contains('\r') ==> normalized(read_utf8(r@)) == content_lf@,
{
    let crlf = match existing {
        Some(content) => uses_crlf(content),
        None => false,
    };
    proof {
        if !content_lf@.contains('\r') {
            law_staged_blob_reads_back(existing, content_lf@);
        }
    }
    if crlf {
        let text = to_crlf(content_lf);
        text.as_str().as_bytes_vec()
    } else {
        content_lf.as_bytes_vec()
    }
}

/// What is staged is what is read back: reading the new index blob as a text gives the
/// staged content, whatever line endings it was written with.
pub proof fn law_staged_blob_reads_back(existing: Option<&[u8]>, content: Seq<char>)
    requires
        !content.contains('\r'),
    ensures
        normalized(read_utf8(staged_bytes(existing, content))) == content,
{
    broadcast use vstd::utf8::encode_utf8_valid_utf8, vstd::utf8::encode_utf8_decode_utf8;

    law_crlf_normalizes_back(content);
    law_normalize_keeps_lf(content);
}

/// Staging keeps the line endings: the new index blob has CRLF line endings exactly when
/// the current one has, as far as the content has lines to end.
pub proof fn law_staging_keeps_line_endings(existing: Option<&[u8]>, content: Seq<char>)
    requires
        !content.contains('\r'),
    ensures
        has_crlf(staged_bytes(existing, content)) <==> existing is Some && has_crlf(existing->0@)
            && content.contains('\n'),
{
    lemma_cr_byte(content);
    if existing is Some && has_crlf(existing->0@) {
        if content.contains('\n') {
            let k = choose|k: int| 0 <= k < content.len() && content[k] == '\n';
            lemma_with_crlf_at(content, k);
        } else {
            lemma_with_crlf_same(content);
            assert(!has_crlf(encode_utf8(content)));
        }
    } else {
        assert(!has_crlf(encode_utf8(content)));
    }
}

/// A CR byte in UTF-8 is a `\r`.
proof fn lemma_cr_byte(s: Seq<char>)
    ensures
        encode_utf8(s).contains(13u8) ==> s.contains('\r'),
        has_crlf(encode_utf8(s)) ==> encode_utf8(s).contains(13u8),
    decreases s.len(),
{
    let bytes = encode_utf8(s);
    if has_crlf(bytes) {
        let i = choose|i: int| crlf_at(bytes, i);
        assert(bytes[i] == 13);
    }
    if s.len() > 0 {
        lemma_cr_byte(s.drop_first());
        let c = s[0] as u32;
        let (head, tail) = (encode_scalar(c), encode_utf8(s.drop_first()));
        assert(0xC0u8 | ((c >> 6) & 0x1F) as u8 >= 0xC0 && 0xE0u8 | ((c >> 12) & 0x0F) as u8 >= 0xE0
            && 0xF0u8 | ((c >> 18) & 0x7) as u8 >= 0xF0 && 0x80u8 | (c & 0x3F) as u8 >= 0x80 && 0x80u8
            | ((c >> 6) & 0x3F) as u8 >= 0x80 && 0x80u8 | ((c >> 12) & 0x3F) as u8 >= 0x80 && (c
            <= 0x7F ==> (c & 0x7F) as u8 == c)) by (bit_vector);
        if bytes.contains(13u8) {
            let i = choose|i: int| 0 <= i < bytes.len() && bytes[i] == 13u8;
            if i < head.len() {
                assert(head[i] == 13u8);
                vstd::utf8::char_is_scalar(s[0]);
                assert(c == 13u32);
                vstd::utf8::char_u32_cast(s[0], c);
                assert(s[0] == '\r');
            } else {
                assert(tail[i - head.len()] == 13u8);
                assert(tail.contains(13u8));
                let k = choose|k: int| 0 <= k < s.drop_first().len() && s.drop_first()[k] == '\r';
                assert(s[k + 1] == '\r');
            }
        }
    }
}

/// UTF-8 encodes character by character.
pub proof fn lemma_encode_concat(a: Seq<char>, b: Seq<char>)
    ensures
        encode_utf8(a + b) == encode_utf8(a) + encode_utf8(b),
    decreases a.len(),
{
    if a.len() == 0 {
        assert(a + b == b);
    } else {
        lemma_encode_concat(a.drop_first(), b);
        assert((a + b).drop_first() == a.drop_first() + b);
    }
}

/// A text without `\n` is its own CRLF form.
proof fn lemma_with_crlf_same(s: Seq<char>)
    requires
        !s.contains('\n'),
    ensures
        with_crlf(s) == s,
    decreases s.len(),
{
    if s.len() > 0 {
        assert forall|i: int| 0 <= i < s.drop_last().len() implies s.drop_last()[i] != '\n' by {
            assert(s.contains(s[i]));
        }
        lemma_with_crlf_same(s.drop_last());
        assert(s.contains(s.last()));
        assert(s == s.drop_last().push(s.last()));
    }
}

/// The CRLF form of a text with a `\n` has a CR byte and an LF byte in a row.
proof fn lemma_with_crlf_at(s: Seq<char>, k: int)
    requires
        0 <= k < s.len(),
        s[k] == '\n',
    ensures
        has_crlf(encode_utf8(with_crlf(s))),
    decreases s.len(),
{
    let w = with_crlf(s.drop_last());
    if k == s.len() - 1 {
        let nl = seq!['\r', '\n'];
        assert(with_crlf(s) == w + nl);
        lemma_encode_concat(w, nl);
        assert(vstd::utf8::is_ascii_chars(nl));
        vstd::utf8::is_ascii_chars_encode_utf8(nl);
        assert(nl[0] as u8 == 13 && nl[1] as u8 == 10);
        let n = encode_utf8(w).len() as int;
        assert(crlf_at(encode_utf8(with_crlf(s)), n));
    } else {
        lemma_with_crlf_at(s.drop_last(), k);
        let i = choose|i: int| crlf_at(encode_utf8(w), i);
        let rest = with_crlf(s).skip(w.len() as int);
        assert(with_crlf(s) == w + rest);
        lemma_encode_concat(w, rest);
        assert(crlf_at(encode_utf8(with_crlf(s)), i));
    }
}

/// `s` with every backslash turned into a slash.
pub open spec fn slashed(s: Seq<char>) -> Seq<char> {
    s.map_values(
        |c: char|
            if c == '\\' {
                '/'
            } else {
                c
            },
    )
}

/// The path by which git keys a file, given its path relative to the working directory.
pub fn forward_slashed(rel: &str) -> (r: String)
    ensures
        r@ == slashed(rel@),
{
    let mut out = String::new();
    for c in it: rel.chars()
        invariant
            it.seq() == rel@,
            out@ == slashed(rel@).take(it.index() as int),
    {
        let ghost k = it.index() as int;
        if c == '\\' {
            out.push('/');
        } else {
            out.push(c);
        }
        assert(slashed(rel@).take(k + 1) == slashed(rel@).take(k).push(slashed(rel@)[k]));
    }
    assert(slashed(rel@).take(rel@.len() as int) == slashed(rel@));
    out
}

/// A text is written as its UTF-8, where the blob that it replaces has no CRLF or there is
/// none; else as the UTF-8 of its CRLF form.
pub proof fn law_blob_is_utf8(existing: Option<&[u8]>, content: Seq<char>)
    ensures
        existing is None ==> staged_bytes(existing, content) == encode_utf8(content),
        existing is Some && (forall|i: int|
            0 <= i < existing->0@.len() - 1 ==> !(#[trigger] existing->0@[i] == 0x0d
                && existing->0@[i + 1] == 0x0a)) ==> staged_bytes(existing, content) == encode_utf8(
            content,
        ),
        existing is Some && (exists|i: int|
            0 <= i < existing->0@.len() - 1 && #[trigger] existing->0@[i] == 0x0d
                && existing->0@[i + 1] == 0x0a) ==> staged_bytes(existing, content) == encode_utf8(
            with_crlf(content),
        ),
{
    if existing is Some {
        let bytes = existing->0@;
        if has_crlf(bytes) {
            let i = choose|i: int| crlf_at(bytes, i);
            assert(bytes[i] == 0x0d);
        }
        if exists|i: int|
            0 <= i < bytes.len() - 1 && #[trigger] bytes[i] == 0x0d && bytes[i + 1] == 0x0a {
            let i = choose|i: int|
                0 <= i < bytes.len() - 1 && #[trigger] bytes[i] == 0x0d && bytes[i + 1] == 0x0a;
            assert(crlf_at(bytes, i));
        }
    }
}

/// A blob that holds the UTF-8 of a text is read as that text, with its newlines normalized.
pub proof fn law_utf8_is_read_back(text: Seq<char>)
    ensures
        read_utf8(encode_utf8(text)) == text,
{
    broadcast use vstd::utf8::encode_utf8_valid_utf8, vstd::utf8::encode_utf8_decode_utf8;

}

/// Every backslash of a path becomes a slash, and every other character stays in its place.
pub proof fn law_only_backslashes_change(s: Seq<char>, i: int)
    requires
        0 <= i < s.len(),
    ensures
        slashed(s).len() == s.len(),
        s[i] == '\\' ==> slashed(s)[i] == '/',
        s[i] != '\\' ==> slashed(s)[i] == s[i],
{
}

/// Every blob that is there has a text, and one that is missing has none.
pub proof fn law_every_blob_has_a_text(content: &[u8])
    ensures
        text_of(Some(content)) == Some(normalized(read_utf8(content@))),
        text_of(None) is None,
{
}

/// A text that may be missing is missing or has its characters.
pub proof fn law_text_may_be_missing(t: String)
    ensures
        opt_view(Some(t)) == Some(t@),
        opt_view(None) is None,
{
}

} // verus!
