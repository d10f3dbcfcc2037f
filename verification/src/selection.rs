//! Text selection over the blocks that are laid out in the agent panel.
//!
//! A caret is a byte offset into the text of a block. Offsets come from hit tests and may
//! be stale, so they are clamped to character boundaries before text is taken.

use vstd::prelude::*;
use vstd::utf8::{decode_utf8, encode_utf8, is_char_boundary, valid_utf8};

use crate::text::{join_with, texts};

verus! {

/// A caret position: byte offset into the text of block `block`.
#[derive(Clone, Copy, Debug, PartialEq, Eq, Structural)]
pub struct TextPos {
    pub block: usize,
    pub offset: usize,
}

/// Whether `a` is not after `b`.
pub open spec fn pos_le(a: TextPos, b: TextPos) -> bool {
    a.block < b.block || (a.block == b.block && a.offset <= b.offset)
}

impl TextPos {
    /// Whether this position is not after `o`.
    pub fn le(self, o: TextPos) -> (r: bool)
        ensures
            r == pos_le(self, o),
    {
        self.block < o.block || (self.block == o.block && self.offset <= o.offset)
    }
}

/// The ends of a selection in order.
pub open spec fn in_order(sel: (TextPos, TextPos)) -> (TextPos, TextPos) {
    if pos_le(sel.0, sel.1) {
        sel
    } else {
        (sel.1, sel.0)
    }
}

/// The last character boundary of UTF-8 `bytes` at or below `i`.
pub open spec fn floor_boundary(bytes: Seq<u8>, i: int) -> int
    decreases i,
{
    if i >= bytes.len() {
        bytes.len() as int
    } else if i <= 0 {
        0
    } else if is_char_boundary(bytes, i) {
        i
    } else {
        floor_boundary(bytes, i - 1)
    }
}

/// Clamp a byte index to the nearest character boundary at or below it.
pub fn clamp_boundary(s: &str, i: usize) -> (r: usize)
    ensures
        r == floor_boundary(encode_utf8(s@), i as int),
        r <= i,
        r <= encode_utf8(s@).len(),
        is_char_boundary(encode_utf8(s@), r as int),
{
    broadcast use vstd::utf8::encode_utf8_valid_utf8, vstd::utf8::is_char_boundary_start_end_of_seq;

    let n: usize = s.as_bytes().len();
    let ghost bytes = encode_utf8(s@);
    assert(is_char_boundary(bytes, bytes.len() as int));
    assert(is_char_boundary(bytes, 0));
    if i >= n {
        return n;
    }
    let mut k: usize = i;
    while k > 0 && !s.is_char_boundary(k)
        invariant
            k <= i,
            k < n,
            n == bytes.len(),
            bytes == encode_utf8(s@),
            floor_boundary(bytes, i as int) == floor_boundary(bytes, k as int),
        decreases k,
    {
        k -= 1;
    }
    k
}

/// The last boundary is a boundary, and there is none between it and `i`.
pub proof fn law_floor_is_nearest(bytes: Seq<u8>, i: int)
    requires
        valid_utf8(bytes),
        0 <= i,
    ensures
        0 <= floor_boundary(bytes, i) <= i,
        floor_boundary(bytes, i) <= bytes.len(),
        is_char_boundary(bytes, floor_boundary(bytes, i)),
        forall|k: int|
            floor_boundary(bytes, i) < k <= i && k <= bytes.len() ==> !#[trigger] is_char_boundary(
                bytes,
                k,
            ),
    decreases i,
{
    broadcast use vstd::utf8::is_char_boundary_start_end_of_seq;

    assert(is_char_boundary(bytes, bytes.len() as int));
    assert(is_char_boundary(bytes, 0));
    if 0 < i < bytes.len() && !is_char_boundary(bytes, i) {
        law_floor_is_nearest(bytes, i - 1);
    }
}

/// The part of a text between two byte offsets, clamped to character boundaries.
pub open spec fn text_between(text: Seq<char>, from: int, to: int) -> Seq<char> {
    let bytes = encode_utf8(text);
    let start = floor_boundary(bytes, from);
    let end = floor_boundary(
        bytes,
        if to > start {
            to
        } else {
            start
        },
    );
    decode_utf8(bytes.subrange(start, end))
}

/// The rest of UTF-8 after a boundary has its boundaries where the whole has them.
proof fn lemma_boundary_in_rest(bytes: Seq<u8>, s: int, e: int)
    requires
        valid_utf8(bytes),
        0 <= s <= e <= bytes.len(),
        is_char_boundary(bytes, s),
        is_char_boundary(bytes, e),
    ensures
        valid_utf8(bytes.subrange(s, bytes.len() as int)),
        is_char_boundary(bytes.subrange(s, bytes.len() as int), e - s),
{
    broadcast use vstd::utf8::is_char_boundary_start_end_of_seq;

    let rest = bytes.subrange(s, bytes.len() as int);
    vstd::utf8::valid_utf8_split(bytes, s);
    if e < bytes.len() {
        vstd::utf8::is_char_boundary_iff_not_is_continuation_byte(bytes, e);
        vstd::utf8::is_char_boundary_iff_not_is_continuation_byte(rest, e - s);
        assert(rest[e - s] == bytes[e]);
    } else {
        assert(is_char_boundary(rest, rest.len() as int));
    }
}

/// The part of a text between two byte offsets, clamped to character boundaries.
pub fn slice_text(text: &str, from: usize, to: usize) -> (r: String)
    ensures
        r@ == text_between(text@, from as int, to as int),
{
    broadcast use vstd::utf8::encode_utf8_valid_utf8, vstd::utf8::encode_utf8_decode_utf8;

    let ghost bytes = encode_utf8(text@);
    let start = clamp_boundary(text, from);
    let end = clamp_boundary(
        text,
        if to > start {
            to
        } else {
            start
        },
    );
    proof {
        law_floor_is_nearest(
            bytes,
            if to > start {
                to as int
            } else {
                start as int
            },
        );
        assert(start <= end);
        lemma_boundary_in_rest(bytes, start as int, end as int);
    }
    let (_, rest) = text.split_at(start);
    let (part, _) = rest.split_at(end - start);
    assert(encode_utf8(part@) == bytes.subrange(start as int, end as int));
    part.to_owned()
}

/// The whole of a text is what is between its ends.
pub proof fn law_whole_text(text: Seq<char>)
    ensures
        text_between(text, 0, encode_utf8(text).len() as int) == text,
{
    broadcast use vstd::utf8::encode_utf8_decode_utf8;

    let bytes = encode_utf8(text);
    assert(bytes.subrange(0, bytes.len() as int) == bytes);
}

/// Where the selection `lo` to `hi` starts in block `b`.
pub open spec fn start_in(lo: TextPos, b: int) -> int {
    if b == lo.block {
        lo.offset as int
    } else {
        0
    }
}

/// Where the selection `lo` to `hi` ends in block `b`, whose text is `len` bytes long.
pub open spec fn end_in(hi: TextPos, b: int, len: int) -> int {
    if b == hi.block {
        hi.offset as int
    } else {
        len
    }
}

/// The selected part of block `b`.
pub open spec fn part_in(blocks: Seq<Seq<char>>, lo: TextPos, hi: TextPos, b: int) -> Seq<char> {
    text_between(
        blocks[b],
        start_in(lo, b),
        end_in(hi, b, encode_utf8(blocks[b]).len() as int),
    )
}

/// The last block of a selection that ends at `hi`.
pub open spec fn last_block(hi: TextPos, count: int) -> int {
    if hi.block >= count {
        if count == 0 {
            0
        } else {
            count - 1
        }
    } else {
        hi.block as int
    }
}

/// How many blocks the selection `lo` to `hi` reaches into.
pub open spec fn blocks_in(lo: TextPos, hi: TextPos, count: int) -> nat {
    if lo.block <= last_block(hi, count) {
        (last_block(hi, count) - lo.block + 1) as nat
    } else {
        0
    }
}

/// The selected text, with newlines between blocks; empty when there is no selection.
pub open spec fn selected(blocks: Seq<Seq<char>>, sel: Option<(TextPos, TextPos)>) -> Seq<char> {
    match sel {
        None => Seq::empty(),
        Some(ends) => {
            let (lo, hi) = in_order(ends);
            if lo == hi {
                Seq::empty()
            } else {
                join_with(
                    Seq::new(
                        blocks_in(lo, hi, blocks.len() as int),
                        |k: int| part_in(blocks, lo, hi, lo.block + k),
                    ),
                    '\n',
                )
            }
        },
    }
}

/// Whether the selection can be read from `count` blocks: one that starts in the first
/// block needs that block.
pub open spec fn readable(sel: Option<(TextPos, TextPos)>, count: nat) -> bool {
    match sel {
        None => true,
        Some(ends) => {
            let (lo, hi) = in_order(ends);
            lo == hi || lo.block > 0 || count > 0
        },
    }
}

/// The selected text of `blocks`, with newlines between them; empty when there is no
/// selection.
pub fn selected_of(blocks: &[String], sel: Option<(TextPos, TextPos)>) -> (r: String)
    requires
        readable(sel, blocks@.len()),
    ensures
        r@ == selected(texts(blocks@), sel),
{
    let (a, b) = match sel {
        Some(ends) => ends,
        None => {
            return String::new();
        },
    };
    let (lo, hi) = if a.le(b) {
        (a, b)
    } else {
        (b, a)
    };
    if lo == hi {
        return String::new();
    }
    let count: usize = blocks.len();
    let last: usize = if hi.block >= count {
        if count == 0 {
            0
        } else {
            count - 1
        }
    } else {
        hi.block
    };
    let ghost all = Seq::new(
        blocks_in(lo, hi, count as int),
        |k: int| part_in(texts(blocks@), lo, hi, lo.block + k),
    );
    let mut out = String::new();
    if lo.block > last {
        assert(all == Seq::<Seq<char>>::empty());
        return out;
    }
    let n: usize = last - lo.block;
    let mut k: usize = 0;
    assert(all.take(0) == Seq::<Seq<char>>::empty());
    loop
        invariant_except_break
            out@ == join_with(all.take(k as int), '\n'),
        invariant
            k <= n,
            n == last - lo.block,
            last < count,
            count == blocks@.len(),
            all.len() == n + 1,
            forall|j: int|
                0 <= j < all.len() ==> #[trigger] all[j] == part_in(
                    texts(blocks@),
                    lo,
                    hi,
                    lo.block + j,
                ),
        ensures
            out@ == join_with(all, '\n'),
        decreases n - k,
    {
        let bi: usize = lo.block + k;
        let t = blocks[bi].as_str();
        let start: usize = if bi == lo.block {
            lo.offset
        } else {
            0
        };
        let end: usize = if bi == hi.block {
            hi.offset
        } else {
            t.as_bytes().len()
        };
        let part = slice_text(t, start, end);
        proof {
            assert(texts(blocks@)[bi as int] == t@);
            assert(all[k as int] == part@);
            assert(all.take(k + 1).drop_last() == all.take(k as int));
            assert(all.take(k + 1).last() == part@);
            assert(all.take(1)[0] == all[0]);
        }
        if k > 0 {
            out.push('\n');
        }
        out.append(part.as_str());
        assert(out@ == join_with(all.take(k + 1), '\n'));
        if k == n {
            assert(all.take(k + 1) == all);
            break;
        }
        k += 1;
    }
    out
}

/// A selection is the same text whichever end it was started from.
pub proof fn law_selection_has_no_direction(blocks: Seq<Seq<char>>, a: TextPos, b: TextPos)
    ensures
        selected(blocks, Some((a, b))) == selected(blocks, Some((b, a))),
{
}

/// A caret without extent selects nothing.
pub proof fn law_caret_selects_nothing(blocks: Seq<Seq<char>>, a: TextPos)
    ensures
        selected(blocks, Some((a, a))) == Seq::<char>::empty(),
{
}

/// From the start of the first block to the end of the last one is all the text.
pub proof fn law_select_all_is_all_text(blocks: Seq<Seq<char>>, lo: TextPos, hi: TextPos)
    requires
        blocks.len() > 0,
        lo.block == 0 && lo.offset == 0,
        hi.block == blocks.len() - 1,
        hi.offset == encode_utf8(blocks.last()).len(),
    ensures
        selected(blocks, Some((lo, hi))) == join_with(blocks, '\n'),
{
    broadcast use vstd::utf8::encode_utf8_decode_utf8;

    if lo == hi {
        assert(blocks.len() == 1);
        let bytes = encode_utf8(blocks[0]);
        assert(bytes == encode_utf8(Seq::<char>::empty()));
        assert(decode_utf8(bytes) == Seq::<char>::empty());
    } else {
        let parts = Seq::new(
            blocks_in(lo, hi, blocks.len() as int),
            |k: int| part_in(blocks, lo, hi, lo.block + k),
        );
        assert forall|k: int| 0 <= k < parts.len() implies #[trigger] parts[k] == blocks[k] by {
            law_whole_text(blocks[k]);
        }
        assert(parts == blocks);
    }
}

/// The end of a text is a boundary of any text that goes on after it.
proof fn lemma_boundary_after(a: Seq<char>, b: Seq<char>)
    ensures
        encode_utf8(a + b) == encode_utf8(a) + encode_utf8(b),
        is_char_boundary(encode_utf8(a + b), encode_utf8(a).len() as int),
    decreases a.len(),
{
    broadcast use vstd::utf8::encode_utf8_valid_utf8;

    crate::blob::lemma_encode_concat(a, b);
    let bytes = encode_utf8(a + b);
    assert(valid_utf8(bytes));
    if a.len() > 0 {
        let rest = a.drop_first();
        lemma_boundary_after(rest, b);
        vstd::utf8::encode_utf8_first_scalar(a + b);
        assert((a + b).drop_first() == rest + b);
        assert(vstd::utf8::pop_first_scalar(bytes) == encode_utf8(rest + b));
    }
}

/// What lies between two offsets is the part of the text that is written there: of `a`, `m`
/// and `b` after each other, what lies between the end of `a` and the start of `b` is `m`.
pub proof fn law_text_between_is_the_part(a: Seq<char>, m: Seq<char>, b: Seq<char>)
    ensures
        text_between(
            a + m + b,
            encode_utf8(a).len() as int,
            (encode_utf8(a).len() + encode_utf8(m).len()) as int,
        ) == m,
{
    broadcast use vstd::utf8::encode_utf8_decode_utf8, vstd::utf8::encode_utf8_valid_utf8;

    let text = a + m + b;
    let bytes = encode_utf8(text);
    let i = encode_utf8(a).len() as int;
    let j = i + encode_utf8(m).len();
    lemma_boundary_after(a, m + b);
    assert(a + (m + b) == text);
    lemma_boundary_after(a + m, b);
    crate::blob::lemma_encode_concat(a, m);
    assert(encode_utf8(a + m).len() == j);
    law_floor_is_nearest(bytes, i);
    law_floor_is_nearest(bytes, j);
    assert(floor_boundary(bytes, i) == i);
    assert(floor_boundary(bytes, j) == j);
    assert(bytes == encode_utf8(a) + encode_utf8(m) + encode_utf8(b));
    assert(bytes.subrange(i, j) == encode_utf8(m));
}

/// An offset inside of a character stands for the start of that character, and an end before
/// the start takes nothing.
pub proof fn law_offsets_are_clamped(text: Seq<char>, from: int, to: int)
    requires
        0 <= from,
        0 <= to,
    ensures
        from <= to ==> text_between(text, from, to) == text_between(
            text,
            floor_boundary(encode_utf8(text), from),
            floor_boundary(encode_utf8(text), to),
        ),
        to <= floor_boundary(encode_utf8(text), from) ==> text_between(text, from, to) == Seq::<
            char,
        >::empty(),
{
    broadcast use vstd::utf8::encode_utf8_valid_utf8;

    let bytes = encode_utf8(text);
    let (s, e) = (floor_boundary(bytes, from), floor_boundary(bytes, to));
    law_floor_is_nearest(bytes, from);
    law_floor_is_nearest(bytes, to);
    law_floor_is_nearest(bytes, s);
    law_floor_is_nearest(bytes, e);
    assert(floor_boundary(bytes, s) == s);
    assert(floor_boundary(bytes, e) == e);
    if to <= s {
        assert(bytes.subrange(s, s).len() == 0);
        assert(decode_utf8(bytes.subrange(s, s)) == Seq::<char>::empty());
    }
    if from <= to {
        if e < s {
            assert(is_char_boundary(bytes, s));
            assert(false);
        }
    }
}

/// A position is not after another in a later block, or further on in the same block, and
/// after any other.
pub proof fn law_positions_are_in_reading_order(a: TextPos, b: TextPos)
    ensures
        a.block < b.block ==> pos_le(a, b) && !pos_le(b, a),
        a.block == b.block ==> (pos_le(a, b) <==> a.offset <= b.offset),
        a.block < b.block || (a.block == b.block && a.offset < b.offset) ==> in_order((a, b)) == (
            a,
            b,
        ) && in_order((b, a)) == (a, b),
{
}

/// A selection within one block is the part of its text between the two positions.
pub proof fn law_selection_within_a_block(
    blocks: Seq<Seq<char>>,
    lo: TextPos,
    hi: TextPos,
    a: Seq<char>,
    m: Seq<char>,
    b: Seq<char>,
)
    requires
        lo.block == hi.block < blocks.len(),
        blocks[lo.block as int] == a + m + b,
        lo.offset == encode_utf8(a).len(),
        hi.offset == encode_utf8(a).len() + encode_utf8(m).len(),
    ensures
        selected(blocks, Some((lo, hi))) == m,
{
    broadcast use vstd::utf8::encode_utf8_decode_utf8;

    if lo == hi {
        assert(encode_utf8(m) == Seq::<u8>::empty());
        assert(decode_utf8(encode_utf8(m)) == Seq::<char>::empty());
    } else {
        law_text_between_is_the_part(a, m, b);
        let parts = Seq::new(
            blocks_in(lo, hi, blocks.len() as int),
            |k: int| part_in(blocks, lo, hi, lo.block + k),
        );
        assert(parts == seq![m]);
    }
}

/// A selection over several blocks is the rest of the first one from its start, the blocks in
/// between, and the beginning of the last one up to its end, each on lines of its own.
pub proof fn law_selection_across_blocks(
    blocks: Seq<Seq<char>>,
    lo: TextPos,
    hi: TextPos,
    a: Seq<char>,
    b: Seq<char>,
    c: Seq<char>,
    d: Seq<char>,
)
    requires
        lo.block < hi.block < blocks.len(),
        blocks[lo.block as int] == a + b,
        blocks[hi.block as int] == c + d,
        lo.offset == encode_utf8(a).len(),
        hi.offset == encode_utf8(c).len(),
    ensures
        selected(blocks, Some((lo, hi))) == join_with(
            seq![b] + blocks.subrange(lo.block + 1, hi.block as int) + seq![c],
            '\n',
        ),
{
    let e = Seq::<char>::empty();
    law_text_between_is_the_part(a, b, e);
    assert(a + b + e == a + b);
    crate::blob::lemma_encode_concat(a, b);
    law_text_between_is_the_part(e, c, d);
    assert(e + c + d == c + d);
    assert(encode_utf8(e).len() == 0);
    let parts = Seq::new(
        blocks_in(lo, hi, blocks.len() as int),
        |k: int| part_in(blocks, lo, hi, lo.block + k),
    );
    let all = seq![b] + blocks.subrange(lo.block + 1, hi.block as int) + seq![c];
    assert(parts.len() == all.len());
    assert forall|k: int| 0 <= k < parts.len() implies #[trigger] parts[k] == all[k] by {
        if 0 < k < parts.len() - 1 {
            law_whole_text(blocks[lo.block + k]);
        }
    }
    assert(parts == all);
}

/// A selection that ends in a block that is not there any more goes to the end of the text.
pub proof fn law_selection_past_the_end(
    blocks: Seq<Seq<char>>,
    lo: TextPos,
    hi: TextPos,
    a: Seq<char>,
    b: Seq<char>,
)
    requires
        lo.block < blocks.len() <= hi.block,
        blocks[lo.block as int] == a + b,
        lo.offset == encode_utf8(a).len(),
    ensures
        selected(blocks, Some((lo, hi))) == join_with(
            seq![b] + blocks.subrange(lo.block + 1, blocks.len() as int),
            '\n',
        ),
{
    let e = Seq::<char>::empty();
    law_text_between_is_the_part(a, b, e);
    assert(a + b + e == a + b);
    crate::blob::lemma_encode_concat(a, b);
    let parts = Seq::new(
        blocks_in(lo, hi, blocks.len() as int),
        |k: int| part_in(blocks, lo, hi, lo.block + k),
    );
    let all = seq![b] + blocks.subrange(lo.block + 1, blocks.len() as int);
    assert(parts.len() == all.len());
    assert forall|k: int| 0 <= k < parts.len() implies #[trigger] parts[k] == all[k] by {
        if 0 < k {
            law_whole_text(blocks[lo.block + k]);
        }
    }
    assert(parts == all);
}

/// In its first block a selection starts at its start and in the others at the beginning; in
/// its last block it ends at its end and in the others at the end of the text.
pub proof fn law_selection_in_each_block(lo: TextPos, hi: TextPos, b: int, len: int)
    ensures
        b == lo.block ==> start_in(lo, b) == lo.offset,
        b != lo.block ==> start_in(lo, b) == 0,
        b == hi.block ==> end_in(hi, b, len) == hi.offset,
        b != hi.block ==> end_in(hi, b, len) == len,
{
}

} // verus!
