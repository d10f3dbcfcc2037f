//! Text as sequences of characters: splitting on and joining with a separator.

use vstd::prelude::*;

verus! {

/// `String::push` appends the character to the end of the string.
pub assume_specification[ String::push ](s: &mut String, c: char)
    ensures
        final(s)@ == old(s)@.push(c),
;

/// The characters of each string of `v`.
pub open spec fn texts(v: Seq<String>) -> Seq<Seq<char>> {
    Seq::new(v.len(), |i: int| v[i]@)
}

/// The pieces of `s` between occurrences of `sep`; one more than there are separators.
pub open spec fn split_on(s: Seq<char>, sep: char) -> Seq<Seq<char>>
    decreases s.len(),
{
    if s.len() == 0 {
        seq![Seq::<char>::empty()]
    } else {
        let rest = split_on(s.drop_last(), sep);
        if s.last() == sep {
            rest.push(Seq::empty())
        } else {
            rest.drop_last().push(rest.last().push(s.last()))
        }
    }
}

/// The pieces of `parts` with one `sep` between neighbours.
pub open spec fn join_with(parts: Seq<Seq<char>>, sep: char) -> Seq<char>
    decreases parts.len(),
{
    if parts.len() == 0 {
        Seq::empty()
    } else if parts.len() == 1 {
        parts[0]
    } else {
        join_with(parts.drop_last(), sep).push(sep) + parts.last()
    }
}

/// The lines of a text whose line ends are `\n`.
pub open spec fn lines_of(s: Seq<char>) -> Seq<Seq<char>> {
    split_on(s, '\n')
}

/// `s` with its ASCII letters in lower case.
pub open spec fn ascii_lower(s: Seq<char>) -> Seq<char> {
    s.map_values(
        |c: char|
            if 'A' <= c <= 'Z' {
                (c as u32 + 32) as char
            } else {
                c
            },
    )
}

/// The characters of `s`, in order.
pub fn chars_of(s: &str) -> (r: Vec<char>)
    ensures
        r@ == s@,
{
    let mut out: Vec<char> = Vec::new();
    for c in it: s.chars()
        invariant
            out@ == it.seq().take(it.index() as int),
            it.seq() == s@,
    {
        out.push(c);
    }
    assert(s@.take(s@.len() as int) == s@);
    out
}

/// The characters `chars[from..to]` as a string.
pub fn string_from(chars: &[char], from: usize, to: usize) -> (r: String)
    requires
        from <= to <= chars@.len(),
    ensures
        r@ == chars@.subrange(from as int, to as int),
{
    let mut out = String::new();
    let mut i: usize = from;
    while i < to
        invariant
            from <= i <= to <= chars@.len(),
            out@ == chars@.subrange(from as int, i as int),
        decreases to - i,
    {
        out.push(chars[i]);
        i += 1;
        assert(chars@.subrange(from as int, i as int) == chars@.subrange(from as int, i - 1).push(
            chars@[i - 1],
        ));
    }
    out
}

/// Whether the two strings hold the same characters.
pub fn same_text(a: &str, b: &str) -> (r: bool)
    ensures
        r == (a@ == b@),
{
    let x = chars_of(a);
    let y = chars_of(b);
    if x.len() != y.len() {
        return false;
    }
    let mut i: usize = 0;
    while i < x.len()
        invariant
            i <= x@.len(),
            x@.len() == y@.len(),
            x@ == a@,
            y@ == b@,
            x@.take(i as int) == y@.take(i as int),
        decreases x@.len() - i,
    {
        if x[i] != y[i] {
            return false;
        }
        i += 1;
        assert(x@.take(i as int) == x@.take(i - 1).push(x@[i - 1]));
        assert(y@.take(i as int) == y@.take(i - 1).push(y@[i - 1]));
    }
    assert(x@.take(i as int) == x@);
    assert(y@.take(i as int) == y@);
    true
}

/// Splits `s` on `sep`.
pub fn split(s: &str, sep: char) -> (r: Vec<String>)
    ensures
        texts(r@) == split_on(s@, sep),
        r@.len() > 0,
{
    let mut done: Vec<String> = Vec::new();
    let mut cur = String::new();
    for c in it: s.chars()
        invariant
            it.seq() == s@,
            split_on(s@.take(it.index() as int), sep) == texts(done@).push(cur@),
    {
        let ghost k = it.index() as int;
        assert(s@.take(k + 1).drop_last() == s@.take(k));
        let ghost before = texts(done@).push(cur@);
        assert(before.drop_last() == texts(done@));
        if c == sep {
            let ghost d0 = done@;
            let ghost c0 = cur@;
            done.push(cur);
            cur = String::new();
            assert(texts(done@) == texts(d0).push(c0));
        } else {
            cur.push(c);
        }
    }
    assert(s@.take(s@.len() as int) == s@);
    let ghost d0 = done@;
    let ghost c0 = cur@;
    done.push(cur);
    assert(texts(done@) == texts(d0).push(c0));
    done
}

/// Joins `parts` with `sep`.
pub fn join(parts: &[String], sep: char) -> (r: String)
    ensures
        r@ == join_with(texts(parts@), sep),
{
    let mut out = String::new();
    let mut i: usize = 0;
    while i < parts.len()
        invariant
            i <= parts@.len(),
            out@ == join_with(texts(parts@).take(i as int), sep),
        decreases parts@.len() - i,
    {
        if i > 0 {
            out.push(sep);
        }
        out.append(parts[i].as_str());
        let ghost all = texts(parts@);
        assert(all.take(i + 1).drop_last() == all.take(i as int));
        i += 1;
    }
    assert(texts(parts@).take(i as int) == texts(parts@));
    out
}

/// Splitting never yields an empty list, and no piece holds the separator.
pub proof fn lemma_split_pieces(s: Seq<char>, sep: char)
    ensures
        split_on(s, sep).len() > 0,
        forall|i: int| 0 <= i < split_on(s, sep).len() ==> !(#[trigger] split_on(s, sep)[i]).contains(sep),
    decreases s.len(),
{
    if s.len() > 0 {
        lemma_split_pieces(s.drop_last(), sep);
        let rest = split_on(s.drop_last(), sep);
        assert forall|i: int| 0 <= i < split_on(s, sep).len() implies !(
        #[trigger] split_on(s, sep)[i]).contains(sep) by {
            if s.last() != sep && i == rest.len() - 1 {
                let p = rest.last().push(s.last());
                assert(split_on(s, sep)[i] == p);
                assert(!rest[i].contains(sep));
                if p.contains(sep) {
                    let k = choose|k: int| 0 <= k < p.len() && p[k] == sep;
                    assert(rest.last()[k] == sep);
                }
            } else if i < rest.len() {
                assert(split_on(s, sep)[i] == rest[i]);
            }
        }
    }
}

/// Joining the pieces of a text with the separator they were split on gives the text back.
pub proof fn law_join_undoes_split(s: Seq<char>, sep: char)
    ensures
        join_with(split_on(s, sep), sep) == s,
    decreases s.len(),
{
    if s.len() > 0 {
        let rest = split_on(s.drop_last(), sep);
        lemma_split_pieces(s.drop_last(), sep);
        law_join_undoes_split(s.drop_last(), sep);
        if s.last() == sep {
            assert(rest.push(Seq::empty()).drop_last() == rest);
            assert(join_with(rest, sep).push(sep) + Seq::<char>::empty() == s);
        } else {
            let p = rest.last().push(s.last());
            let all = rest.drop_last().push(p);
            assert(all.drop_last() == rest.drop_last());
            if rest.len() == 1 {
                assert(p == s);
            } else {
                assert(join_with(rest.drop_last(), sep).push(sep) + p == (join_with(
                    rest.drop_last(),
                    sep,
                ).push(sep) + rest.last()).push(s.last()));
                assert(s.drop_last().push(s.last()) == s);
            }
        }
    }
}

/// Appending a piece without separators extends the last piece of the split.
proof fn lemma_split_append(s: Seq<char>, p: Seq<char>, sep: char)
    requires
        !p.contains(sep),
    ensures
        split_on(s + p, sep) == split_on(s, sep).drop_last().push(split_on(s, sep).last() + p),
    decreases p.len(),
{
    lemma_split_pieces(s, sep);
    let pieces = split_on(s, sep);
    if p.len() == 0 {
        assert(s + p == s);
        assert(pieces.last() + p == pieces.last());
        assert(pieces.drop_last().push(pieces.last()) == pieces);
    } else {
        let q = p.drop_last();
        assert forall|k: int| 0 <= k < q.len() implies q[k] != sep by {
            assert(p[k] != sep);
        }
        lemma_split_append(s, q, sep);
        assert((s + p).drop_last() == s + q);
        assert(p[p.len() - 1] != sep);
        let mid = pieces.drop_last().push(pieces.last() + q);
        assert(mid.drop_last() == pieces.drop_last());
        assert((pieces.last() + q).push(p.last()) == pieces.last() + p);
    }
}

/// Splitting a joined list gives the list back, when it is not empty and no piece of
/// it holds the separator.
pub proof fn law_split_undoes_join(parts: Seq<Seq<char>>, sep: char)
    requires
        parts.len() > 0,
        forall|i: int| 0 <= i < parts.len() ==> !(#[trigger] parts[i]).contains(sep),
    ensures
        split_on(join_with(parts, sep), sep) == parts,
    decreases parts.len(),
{
    if parts.len() == 1 {
        lemma_split_append(Seq::empty(), parts[0], sep);
        assert(Seq::<char>::empty() + parts[0] == parts[0]);
        let e = seq![Seq::<char>::empty()];
        assert(e.drop_last().push(e.last() + parts[0]) == parts);
    } else {
        let init = parts.drop_last();
        assert forall|i: int| 0 <= i < init.len() implies !(#[trigger] init[i]).contains(sep) by {
            assert(!parts[i].contains(sep));
        }
        law_split_undoes_join(init, sep);
        let j = join_with(init, sep).push(sep);
        assert(j.drop_last() == join_with(init, sep));
        assert(split_on(j, sep) == init.push(Seq::empty()));
        assert(!parts[parts.len() - 1].contains(sep));
        lemma_split_append(j, parts.last(), sep);
        let s = init.push(Seq::<char>::empty());
        assert(s.drop_last() == init);
        assert(s.last() + parts.last() == parts.last());
        assert(init.push(parts.last()) == parts);
    }
}

/// Joining texts that lack a character, with another separator, gives one that lacks it.
pub proof fn lemma_joined_lacks(parts: Seq<Seq<char>>, sep: char, c: char)
    requires
        forall|i: int| 0 <= i < parts.len() ==> !(#[trigger] parts[i]).contains(c),
        sep != c,
    ensures
        !join_with(parts, sep).contains(c),
    decreases parts.len(),
{
    if parts.len() == 1 {
        assert(!parts[0].contains(c));
    } else if parts.len() > 1 {
        let init = parts.drop_last();
        assert forall|i: int| 0 <= i < init.len() implies !(#[trigger] init[i]).contains(c) by {
            assert(!parts[i].contains(c));
        }
        lemma_joined_lacks(init, sep, c);
        let (a, b) = (join_with(init, sep), parts.last());
        assert(!parts[parts.len() - 1].contains(c));
        let t = join_with(parts, sep);
        assert forall|k: int| 0 <= k < t.len() implies t[k] != c by {
            if k < a.len() {
                assert(a.contains(a[k]));
            } else if k > a.len() {
                assert(t[k] == b[k - a.len() - 1]);
                assert(b.contains(b[k - a.len() - 1]));
            }
        }
    }
}

/// The pieces of a text that lacks a character lack it too.
pub proof fn lemma_split_lacks(s: Seq<char>, sep: char, c: char)
    requires
        !s.contains(c),
    ensures
        forall|i: int| 0 <= i < split_on(s, sep).len() ==> !(#[trigger] split_on(s, sep)[i]).contains(c),
    decreases s.len(),
{
    if s.len() > 0 {
        let init = s.drop_last();
        assert forall|k: int| 0 <= k < init.len() implies init[k] != c by {
            assert(s.contains(s[k]));
        }
        lemma_split_lacks(init, sep, c);
        lemma_split_pieces(init, sep);
        let rest = split_on(init, sep);
        assert(s.contains(s.last()));
        assert forall|i: int| 0 <= i < split_on(s, sep).len() implies !(
        #[trigger] split_on(s, sep)[i]).contains(c) by {
            let p = split_on(s, sep)[i];
            if s.last() != sep && i == rest.len() - 1 {
                assert(!rest[i].contains(c));
                assert forall|k: int| 0 <= k < p.len() implies p[k] != c by {
                    if k < rest[i].len() {
                        assert(rest[i].contains(rest[i][k]));
                    }
                }
            } else if i < rest.len() {
                assert(p == rest[i]);
            }
        }
    }
}

/// A joined list is what its two halves join to, with one separator between. A single piece
/// is joined to itself, and nothing to nothing.
pub proof fn law_join_is_halves(a: Seq<Seq<char>>, b: Seq<Seq<char>>, p: Seq<char>, sep: char)
    ensures
        join_with(Seq::empty(), sep) == Seq::<char>::empty(),
        join_with(seq![p], sep) == p,
        a.len() > 0 && b.len() > 0 ==> join_with(a + b, sep) == join_with(a, sep) + seq![sep]
            + join_with(b, sep),
    decreases b.len(),
{
    if a.len() > 0 && b.len() > 0 {
        let init = b.drop_last();
        assert((a + b).drop_last() == a + init);
        if b.len() == 1 {
            assert(a + init == a);
            assert(join_with(a, sep).push(sep) + b[0] == join_with(a, sep) + seq![sep] + b[0]);
        } else {
            law_join_is_halves(a, init, p, sep);
            assert((join_with(a, sep) + seq![sep] + join_with(init, sep)).push(sep) + b.last()
                == join_with(a, sep) + seq![sep] + (join_with(init, sep).push(sep) + b.last()));
        }
    }
}

/// A separator parts the pieces: those of the text before it come first, then those of the
/// text after it. A text without a separator is its only piece.
pub proof fn law_split_at_separator(a: Seq<char>, b: Seq<char>, sep: char)
    ensures
        split_on(a + seq![sep] + b, sep) == split_on(a, sep) + split_on(b, sep),
        !a.contains(sep) ==> split_on(a, sep) == seq![a],
    decreases b.len(),
{
    lemma_split_pieces(a, sep);
    lemma_split_pieces(b, sep);
    let s = a + seq![sep] + b;
    if b.len() == 0 {
        assert(s.drop_last() == a);
        assert(split_on(a, sep).push(Seq::empty()) == split_on(a, sep) + split_on(b, sep));
    } else {
        let c = b.drop_last();
        law_split_at_separator(a, c, sep);
        lemma_split_pieces(c, sep);
        assert(s.drop_last() == a + seq![sep] + c);
        let (x, y) = (split_on(a, sep), split_on(c, sep));
        if b.last() == sep {
            assert((x + y).push(Seq::empty()) == x + y.push(Seq::empty()));
        } else {
            assert((x + y).drop_last().push((x + y).last().push(b.last())) == x
                + y.drop_last().push(y.last().push(b.last())));
        }
    }
    if !a.contains(sep) {
        lemma_split_append(Seq::empty(), a, sep);
        assert(Seq::<char>::empty() + a == a);
        assert(split_on(a, sep) == seq![a]);
    }
}

/// Lower case changes the letters `A` to `Z`, each to the letter 32 places on, and nothing
/// else.
pub proof fn law_lower_case_of_ascii(s: Seq<char>, i: int)
    requires
        0 <= i < s.len(),
    ensures
        ascii_lower(s).len() == s.len(),
        65 <= s[i] as int <= 90 ==> ascii_lower(s)[i] as int == s[i] as int + 32,
        !(65 <= s[i] as int <= 90) ==> ascii_lower(s)[i] == s[i],
{
}

/// The texts of strings are their characters, one text for each string.
pub proof fn law_texts_are_the_characters(v: Seq<String>, i: int)
    requires
        0 <= i < v.len(),
    ensures
        texts(v).len() == v.len(),
        texts(v)[i] == v[i]@,
{
}

/// A newline ends a line and starts another: the lines of the text before it come first, then
/// those of the text after it. A text without newlines is one line, even if it is empty.
pub proof fn law_newlines_part_lines(a: Seq<char>, b: Seq<char>)
    ensures
        lines_of(a + seq!['\n'] + b) == lines_of(a) + lines_of(b),
        !a.contains('\n') ==> lines_of(a) == seq![a],
        join_with(lines_of(a), '\n') == a,
{
    law_split_at_separator(a, b, '\n');
    law_join_undoes_split(a, '\n');
}

} // verus!
