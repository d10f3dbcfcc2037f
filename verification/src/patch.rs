//! New index contents for staging and unstaging one hunk, like `git add -p` and
//! `git restore --staged -p`.

use vstd::prelude::*;

use crate::diff::{
    aligned, any_old_touches, hunks, hunks_between, lemma_aligned_extend, lemma_block_bounds,
    new_touches, old_touches, ranges_touch, Hunk,
};
use crate::sort::{sort_by_line, sorted_by_line, ByLine};
use crate::text::{join, join_with, lines_of, split, texts};

verus! {

/// The lines `start..end` of a text give way to `lines`.
pub struct Replacement {
    pub start: usize,
    pub end: usize,
    pub lines: Vec<String>,
}

impl View for Replacement {
    type V = (int, int, Seq<Seq<char>>);

    open spec fn view(&self) -> (int, int, Seq<Seq<char>>) {
        (self.start as int, self.end as int, texts(self.lines@))
    }
}

impl ByLine for Replacement {
    open spec fn line_key(&self) -> (int, int) {
        (self.start as int, 0)
    }

    fn not_after(&self, other: &Self) -> (b: bool) {
        self.start <= other.start
    }
}

/// The views of a list of replacements.
pub open spec fn views(reps: Seq<Replacement>) -> Seq<(int, int, Seq<Seq<char>>)> {
    Seq::new(reps.len(), |i: int| reps[i]@)
}

/// `x` kept between `lo` and `hi`; `lo` where the bounds cross.
pub open spec fn clamped(x: int, lo: int, hi: int) -> int {
    let y = if x < hi {
        x
    } else {
        hi
    };
    if y < lo {
        lo
    } else {
        y
    }
}

/// `lines` with one range given way; what lies past the end is cut off.
pub open spec fn splice(
    lines: Seq<Seq<char>>,
    rep: (int, int, Seq<Seq<char>>),
) -> Seq<Seq<char>> {
    let s = clamped(rep.0, 0, lines.len() as int);
    let e = clamped(rep.1, s, lines.len() as int);
    lines.take(s) + rep.2 + lines.skip(e)
}

/// `lines` with all of `reps` carried out, the last one first.
pub open spec fn spliced(
    lines: Seq<Seq<char>>,
    reps: Seq<(int, int, Seq<Seq<char>>)>,
) -> Seq<Seq<char>>
    decreases reps.len(),
{
    if reps.len() == 0 {
        lines
    } else {
        spliced(splice(lines, reps.last()), reps.drop_last())
    }
}

/// Replaces line ranges of `text` with new lines, from the bottom up so that earlier
/// coordinates stay valid.
pub fn apply_replacements(text: &str, reps: Vec<Replacement>) -> (r: String)
    ensures
        r@ == join_with(spliced(lines_of(text@), views(sorted_by_line(reps@))), '\n'),
        spliced(lines_of(text@), views(sorted_by_line(reps@))).len() <= usize::MAX,
{
    let mut lines = split(text, '\n');
    let mut todo = sort_by_line(reps);
    let ghost goal = spliced(lines_of(text@), views(todo@));
    while todo.len() > 0
        invariant
            spliced(texts(lines@), views(todo@)) == goal,
        decreases todo@.len(),
    {
        let ghost before = todo@;
        match todo.pop() {
            Some(rep) => {
                let ghost old_lines = lines@;
                assert(views(before).last() == rep@);
                assert(views(before).drop_last() == views(todo@));
                let Replacement { start, end, lines: new_lines } = rep;
                let mut insert = new_lines;
                let len = lines.len();
                let s: usize = if start < len {
                    start
                } else {
                    len
                };
                let e0: usize = if end < len {
                    end
                } else {
                    len
                };
                let e: usize = if e0 < s {
                    s
                } else {
                    e0
                };
                let ghost ins = insert@;
                let mut tail = lines.split_off(s);
                let mut rest = tail.split_off(e - s);
                lines.append(&mut insert);
                lines.append(&mut rest);
                proof {
                    let a = texts(old_lines);
                    assert(texts(lines@) == a.take(s as int) + texts(ins) + a.skip(e as int));
                    assert(texts(lines@) == splice(a, rep@));
                }
            },
            None => {},
        }
    }
    assert(texts(lines@).len() == lines.len());
    join(lines.as_slice(), '\n')
}

/// `old` with the blocks of `hs` that `sel` picks as they are in `new`.
pub open spec fn patched(
    hs: Seq<Hunk>,
    sel: spec_fn(Hunk) -> bool,
    old: Seq<Seq<char>>,
    new: Seq<Seq<char>>,
) -> Seq<Seq<char>>
    decreases hs.len(),
{
    if hs.len() == 0 {
        old
    } else {
        let h = hs.last();
        let block = if sel(h) {
            new.subrange(h.new_start as int, h.new_end())
        } else {
            old.subrange(h.old_start as int, h.old_end())
        };
        patched(hs.drop_last(), sel, old.take(h.old_start as int), new.take(h.new_start as int))
            + block + old.skip(h.old_end())
    }
}

/// With every block picked, the result is the new side.
pub proof fn law_patch_all(
    hs: Seq<Hunk>,
    sel: spec_fn(Hunk) -> bool,
    old: Seq<Seq<char>>,
    new: Seq<Seq<char>>,
)
    requires
        aligned(hs, old, new),
        forall|i: int| 0 <= i < hs.len() ==> sel(#[trigger] hs[i]),
    ensures
        patched(hs, sel, old, new) == new,
    decreases hs.len(),
{
    if hs.len() > 0 {
        let h = hs.last();
        assert(sel(hs[hs.len() - 1]));
        assert forall|i: int| 0 <= i < hs.len() - 1 implies sel(#[trigger] hs.drop_last()[i]) by {
            assert(sel(hs[i]));
        }
        law_patch_all(
            hs.drop_last(),
            sel,
            old.take(h.old_start as int),
            new.take(h.new_start as int),
        );
        assert(new.take(h.new_start as int) + new.subrange(h.new_start as int, h.new_end())
            + new.skip(h.new_end()) == new);
    }
}

/// With no block picked, the result is the old side.
pub proof fn law_patch_none(
    hs: Seq<Hunk>,
    sel: spec_fn(Hunk) -> bool,
    old: Seq<Seq<char>>,
    new: Seq<Seq<char>>,
)
    requires
        aligned(hs, old, new),
        forall|i: int| 0 <= i < hs.len() ==> !sel(#[trigger] hs[i]),
    ensures
        patched(hs, sel, old, new) == old,
    decreases hs.len(),
{
    if hs.len() > 0 {
        let h = hs.last();
        assert(!sel(hs[hs.len() - 1]));
        assert forall|i: int| 0 <= i < hs.len() - 1 implies !sel(#[trigger] hs.drop_last()[i]) by {
            assert(!sel(hs[i]));
        }
        law_patch_none(
            hs.drop_last(),
            sel,
            old.take(h.old_start as int),
            new.take(h.new_start as int),
        );
        assert(old.take(h.old_start as int) + old.subrange(h.old_start as int, h.old_end())
            + old.skip(h.old_end()) == old);
    }
}

/// The picked blocks of `hs`, as differences between `old` and the patched lines.
pub open spec fn carried_out(
    hs: Seq<Hunk>,
    sel: spec_fn(Hunk) -> bool,
    old: Seq<Seq<char>>,
    new: Seq<Seq<char>>,
) -> Seq<Hunk>
    decreases hs.len(),
{
    if hs.len() == 0 {
        Seq::empty()
    } else {
        let h = hs.last();
        let (p, q) = (old.take(h.old_start as int), new.take(h.new_start as int));
        let init = carried_out(hs.drop_last(), sel, p, q);
        if sel(h) {
            let at = patched(hs.drop_last(), sel, p, q).len() as usize;
            init.push(Hunk { new_start: at, ..h })
        } else {
            init
        }
    }
}

/// The other blocks of `hs`, as differences between the patched lines and `new`.
pub open spec fn left_over(
    hs: Seq<Hunk>,
    sel: spec_fn(Hunk) -> bool,
    old: Seq<Seq<char>>,
    new: Seq<Seq<char>>,
) -> Seq<Hunk>
    decreases hs.len(),
{
    if hs.len() == 0 {
        Seq::empty()
    } else {
        let h = hs.last();
        let (p, q) = (old.take(h.old_start as int), new.take(h.new_start as int));
        let init = left_over(hs.drop_last(), sel, p, q);
        if sel(h) {
            init
        } else {
            let at = patched(hs.drop_last(), sel, p, q).len() as usize;
            init.push(Hunk { old_start: at, ..h })
        }
    }
}

/// Only the picked blocks move: they are what the patched lines change of the old side,
/// and the other blocks are what still differs from the new side.
pub proof fn law_patch_moves_picked(
    hs: Seq<Hunk>,
    sel: spec_fn(Hunk) -> bool,
    old: Seq<Seq<char>>,
    new: Seq<Seq<char>>,
)
    requires
        aligned(hs, old, new),
        patched(hs, sel, old, new).len() <= usize::MAX,
    ensures
        aligned(carried_out(hs, sel, old, new), old, patched(hs, sel, old, new)),
        aligned(left_over(hs, sel, old, new), patched(hs, sel, old, new), new),
    decreases hs.len(),
{
    if hs.len() > 0 {
        let h = hs.last();
        let init = hs.drop_last();
        let (p, q) = (old.take(h.old_start as int), new.take(h.new_start as int));
        let front = patched(init, sel, p, q);
        let all = patched(hs, sel, old, new);
        let tail = old.skip(h.old_end());
        law_patch_moves_picked(init, sel, p, q);
        let n = front.len() as int;
        assert(all.take(n) == front);
        if sel(h) {
            let block = new.subrange(h.new_start as int, h.new_end());
            let done = carried_out(hs, sel, old, new);
            assert(done.drop_last() == carried_out(init, sel, p, q));
            assert(all.skip(n + h.new_len) == tail);
            assert(all.skip(n) == block + tail);
            assert(new.skip(h.new_start as int) == block + new.skip(h.new_end()));
            lemma_aligned_extend(left_over(init, sel, p, q), all, new, n, h.new_start as int);
        } else {
            let block = old.subrange(h.old_start as int, h.old_end());
            let left = left_over(hs, sel, old, new);
            assert(left.drop_last() == left_over(init, sel, p, q));
            assert(all.skip(n + h.old_len) == tail);
            assert(all.skip(n) == block + tail);
            assert(old.skip(h.old_start as int) == block + tail);
            lemma_aligned_extend(carried_out(init, sel, p, q), old, all, h.old_start as int, n);
        }
    }
}

/// The replacements that put the picked blocks of `new` in place of those of the old side.
pub open spec fn picked(
    hs: Seq<Hunk>,
    sel: spec_fn(Hunk) -> bool,
    new: Seq<Seq<char>>,
) -> Seq<(int, int, Seq<Seq<char>>)>
    decreases hs.len(),
{
    if hs.len() == 0 {
        Seq::empty()
    } else {
        let h = hs.last();
        let init = picked(hs.drop_last(), sel, new);
        if sel(h) {
            init.push(
                (h.old_start as int, h.old_end(), new.subrange(h.new_start as int, h.new_end())),
            )
        } else {
            init
        }
    }
}

/// Replacements that follow one another and end by `bound`.
spec fn apart(reps: Seq<(int, int, Seq<Seq<char>>)>, bound: int) -> bool
    decreases reps.len(),
{
    if reps.len() == 0 {
        0 <= bound
    } else {
        &&& 0 <= reps.last().0 <= reps.last().1 <= bound
        &&& apart(reps.drop_last(), reps.last().0)
    }
}

proof fn lemma_apart_weaken(reps: Seq<(int, int, Seq<Seq<char>>)>, a: int, b: int)
    requires
        apart(reps, a),
        a <= b,
    ensures
        apart(reps, b),
{
}

/// Lines after the last replaced range are carried along.
proof fn lemma_splice_front(
    a: Seq<Seq<char>>,
    b: Seq<Seq<char>>,
    reps: Seq<(int, int, Seq<Seq<char>>)>,
)
    requires
        apart(reps, a.len() as int),
    ensures
        spliced(a + b, reps) == spliced(a, reps) + b,
    decreases reps.len(),
{
    if reps.len() > 0 {
        let r = reps.last();
        assert(splice(a + b, r) == splice(a, r) + b);
        assert(splice(a, r).len() >= r.0);
        lemma_apart_weaken(reps.drop_last(), r.0, splice(a, r).len() as int);
        lemma_splice_front(splice(a, r), b, reps.drop_last());
    }
}

proof fn lemma_picked_apart(
    hs: Seq<Hunk>,
    sel: spec_fn(Hunk) -> bool,
    old: Seq<Seq<char>>,
    new: Seq<Seq<char>>,
    lines: Seq<Seq<char>>,
)
    requires
        aligned(hs, old, new),
    ensures
        apart(picked(hs, sel, lines), old.len() as int),
    decreases hs.len(),
{
    if hs.len() > 0 {
        let h = hs.last();
        lemma_picked_apart(
            hs.drop_last(),
            sel,
            old.take(h.old_start as int),
            new.take(h.new_start as int),
            lines,
        );
        let init = picked(hs.drop_last(), sel, lines);
        if sel(h) {
            assert(picked(hs, sel, lines).drop_last() == init);
        } else {
            lemma_apart_weaken(init, h.old_start as int, old.len() as int);
        }
    }
}

/// Only the lines up to the last block matter to the replacements.
proof fn lemma_picked_front(
    hs: Seq<Hunk>,
    sel: spec_fn(Hunk) -> bool,
    old: Seq<Seq<char>>,
    new: Seq<Seq<char>>,
    k: int,
)
    requires
        0 <= k <= new.len(),
        aligned(hs, old, new.take(k)),
    ensures
        picked(hs, sel, new.take(k)) == picked(hs, sel, new),
    decreases hs.len(),
{
    if hs.len() > 0 {
        let h = hs.last();
        let p = new.take(k);
        assert(p.take(h.new_start as int) == new.take(h.new_start as int));
        lemma_picked_front(
            hs.drop_last(),
            sel,
            old.take(h.old_start as int),
            new,
            h.new_start as int,
        );
        lemma_picked_front(
            hs.drop_last(),
            sel,
            old.take(h.old_start as int),
            p,
            h.new_start as int,
        );
        assert(p.subrange(h.new_start as int, h.new_end()) == new.subrange(
            h.new_start as int,
            h.new_end(),
        ));
    }
}

/// Replacing the picked blocks from the bottom up gives the patched lines.
proof fn lemma_splice_is_patch(
    hs: Seq<Hunk>,
    sel: spec_fn(Hunk) -> bool,
    old: Seq<Seq<char>>,
    new: Seq<Seq<char>>,
)
    requires
        aligned(hs, old, new),
    ensures
        spliced(old, picked(hs, sel, new)) == patched(hs, sel, old, new),
    decreases hs.len(),
{
    if hs.len() > 0 {
        let h = hs.last();
        let init = hs.drop_last();
        let p = old.take(h.old_start as int);
        let q = new.take(h.new_start as int);
        lemma_splice_is_patch(init, sel, p, q);
        lemma_picked_front(init, sel, p, new, h.new_start as int);
        lemma_picked_apart(init, sel, p, q, new);
        let reps = picked(init, sel, new);
        let block = if sel(h) {
            new.subrange(h.new_start as int, h.new_end())
        } else {
            old.subrange(h.old_start as int, h.old_end())
        };
        let b = block + old.skip(h.old_end());
        lemma_splice_front(p, b, reps);
        assert(spliced(p, reps) + b == patched(hs, sel, old, new));
        if sel(h) {
            let all = picked(hs, sel, new);
            assert(all.drop_last() == reps);
            assert(splice(old, all.last()) == p + b);
        } else {
            assert(old == p + b);
        }
    }
}

/// `h` seen from the other side.
pub open spec fn flip(h: Hunk) -> Hunk {
    Hunk { old_start: h.new_start, old_len: h.new_len, new_start: h.old_start, new_len: h.old_len }
}

/// All of `hs` seen from the other side.
pub open spec fn flipped(hs: Seq<Hunk>) -> Seq<Hunk> {
    Seq::new(hs.len(), |i: int| flip(hs[i]))
}

proof fn lemma_aligned_flipped(hs: Seq<Hunk>, old: Seq<Seq<char>>, new: Seq<Seq<char>>)
    requires
        aligned(hs, old, new),
    ensures
        aligned(flipped(hs), new, old),
    decreases hs.len(),
{
    if hs.len() > 0 {
        let h = hs.last();
        lemma_aligned_flipped(
            hs.drop_last(),
            old.take(h.old_start as int),
            new.take(h.new_start as int),
        );
        assert(flipped(hs).drop_last() == flipped(hs.drop_last()));
    }
}

/// Taking the picked blocks back is the same as keeping the others.
pub proof fn law_patch_back(
    hs: Seq<Hunk>,
    sel: spec_fn(Hunk) -> bool,
    old: Seq<Seq<char>>,
    new: Seq<Seq<char>>,
)
    requires
        aligned(hs, old, new),
    ensures
        patched(flipped(hs), |f: Hunk| sel(flip(f)), new, old) == patched(
            hs,
            |h: Hunk| !sel(h),
            old,
            new,
        ),
    decreases hs.len(),
{
    if hs.len() > 0 {
        let h = hs.last();
        law_patch_back(
            hs.drop_last(),
            sel,
            old.take(h.old_start as int),
            new.take(h.new_start as int),
        );
        assert(flipped(hs).drop_last() == flipped(hs.drop_last()));
        assert(flip(flip(h)) == h);
    }
}

/// The lines `lines[from..to]`, copied.
fn copy_lines(lines: &[String], from: usize, to: usize) -> (r: Vec<String>)
    requires
        from <= to <= lines@.len(),
    ensures
        texts(r@) == texts(lines@).subrange(from as int, to as int),
{
    let mut out: Vec<String> = Vec::new();
    let mut i: usize = from;
    while i < to
        invariant
            from <= i <= to <= lines@.len(),
            texts(out@) == texts(lines@).subrange(from as int, i as int),
        decreases to - i,
    {
        let ghost before = out@;
        out.push(lines[i].clone());
        assert(texts(out@) == texts(before).push(lines@[i as int]@));
        i += 1;
        assert(texts(lines@).subrange(from as int, i as int) == texts(lines@).subrange(
            from as int,
            i - 1,
        ).push(lines@[i - 1]@));
    }
    out
}

/// Replacements that follow one another are in line order already.
proof fn lemma_apart_in_order(reps: Seq<Replacement>, bound: int)
    requires
        apart(views(reps), bound),
    ensures
        sorted_by_line(reps) == reps,
{
    lemma_apart_starts(views(reps), bound);
    assert forall|i: int, j: int| 0 <= i <= j < reps.len() implies crate::sort::key_le(
        (#[trigger] reps[i]).line_key(),
        (#[trigger] reps[j]).line_key(),
    ) by {
        assert(views(reps)[i].0 <= views(reps)[j].0);
    }
    crate::sort::law_sort_leaves_ordered(reps);
}

proof fn lemma_apart_starts(reps: Seq<(int, int, Seq<Seq<char>>)>, bound: int)
    requires
        apart(reps, bound),
    ensures
        forall|i: int, j: int|
            0 <= i <= j < reps.len() ==> (#[trigger] reps[i]).0 <= (#[trigger] reps[j]).0 <= bound,
    decreases reps.len(),
{
    if reps.len() > 0 {
        let init = reps.drop_last();
        lemma_apart_starts(init, reps.last().0);
        assert forall|i: int, j: int| 0 <= i <= j < reps.len() implies (#[trigger] reps[i]).0
            <= (#[trigger] reps[j]).0 <= bound by {
            if i < reps.len() - 1 {
                assert(init[i] == reps[i]);
                assert(init[i].0 <= init[i].0 <= reps.last().0);
            }
            if j < reps.len() - 1 {
                assert(init[j] == reps[j]);
            }
        }
    }
}

/// Whether the buffer side of any of `hs` touches `range`.
pub open spec fn any_new_touches(hs: Seq<Hunk>, range: (usize, usize)) -> bool {
    exists|i: int| 0 <= i < hs.len() && new_touches(#[trigger] hs[i], range)
}

proof fn lemma_any_new_step(hs: Seq<Hunk>, i: int, range: (usize, usize))
    requires
        0 <= i < hs.len(),
    ensures
        any_new_touches(hs.take(i + 1), range) == (any_new_touches(hs.take(i), range)
            || new_touches(hs[i], range)),
{
    let (a, b) = (hs.take(i), hs.take(i + 1));
    if any_new_touches(a, range) {
        let k = choose|k: int| 0 <= k < a.len() && new_touches(#[trigger] a[k], range);
        assert(b[k] == a[k]);
    }
    if any_new_touches(b, range) {
        let k = choose|k: int| 0 <= k < b.len() && new_touches(#[trigger] b[k], range);
        if k < i {
            assert(a[k] == b[k]);
        }
    }
    assert(b[i] == hs[i]);
}

proof fn lemma_any_old_step(hs: Seq<Hunk>, i: int, range: (usize, usize))
    requires
        0 <= i < hs.len(),
    ensures
        any_old_touches(hs.take(i + 1), range) == (any_old_touches(hs.take(i), range)
            || old_touches(hs[i], range)),
{
    let (a, b) = (hs.take(i), hs.take(i + 1));
    if any_old_touches(a, range) {
        let k = choose|k: int| 0 <= k < a.len() && old_touches(#[trigger] a[k], range);
        assert(b[k] == a[k]);
    }
    if any_old_touches(b, range) {
        let k = choose|k: int| 0 <= k < b.len() && old_touches(#[trigger] b[k], range);
        if k < i {
            assert(a[k] == b[k]);
        }
    }
    assert(b[i] == hs[i]);
}

/// The index text with the blocks of `hs` that touch `range` as in the buffer, when there
/// are any.
pub open spec fn staged_with(
    hs: Seq<Hunk>,
    index: Seq<char>,
    cur: Seq<char>,
    range: (usize, usize),
) -> Option<Seq<char>> {
    if any_new_touches(hs, range) {
        Some(
            join_with(
                patched(hs, |h: Hunk| new_touches(h, range), lines_of(index), lines_of(cur)),
                '\n',
            ),
        )
    } else {
        None
    }
}

/// The index text with the blocks that touch `range` as in the buffer, when there are any.
pub open spec fn staged_text(
    index: Seq<char>,
    cur: Seq<char>,
    range: (usize, usize),
) -> Option<Seq<char>> {
    staged_with(hunks_between(index, cur), index, cur, range)
}

/// The index text with the blocks of `hs` that touch `range` as in HEAD, when there are
/// any.
pub open spec fn unstaged_with(
    hs: Seq<Hunk>,
    head: Seq<char>,
    index: Seq<char>,
    range: (usize, usize),
) -> Option<Seq<char>> {
    if any_old_touches(hs, range) {
        Some(
            join_with(
                patched(hs, |h: Hunk| !old_touches(h, range), lines_of(head), lines_of(index)),
                '\n',
            ),
        )
    } else {
        None
    }
}

/// The index text with the blocks that touch `range` as in HEAD, when there are any.
pub open spec fn unstaged_text(
    head: Seq<char>,
    index: Seq<char>,
    range: (usize, usize),
) -> Option<Seq<char>> {
    unstaged_with(hunks_between(head, index), head, index, range)
}

/// Whether none of the blocks is without lines on both sides.
pub open spec fn all_filled(hs: Seq<Hunk>) -> bool {
    forall|i: int| 0 <= i < hs.len() ==> (#[trigger] hs[i]).is_filled()
}

/// Whether only the picked ones of the differences `hs` from one text to another are moved in
/// `text`: they are what it changes of the first text, and the other blocks are what still
/// differs from the second.
pub open spec fn moves_picked(
    hs: Seq<Hunk>,
    sel: spec_fn(Hunk) -> bool,
    from: Seq<char>,
    to: Seq<char>,
    text: Seq<char>,
) -> bool {
    let (old, new) = (lines_of(from), lines_of(to));
    &&& aligned(carried_out(hs, sel, old, new), old, lines_of(text))
    &&& aligned(left_over(hs, sel, old, new), lines_of(text), new)
}

/// Whether `text` changes of the index what touches `range`, and leaves the other blocks to
/// the buffer.
pub open spec fn moves_touching(
    hs: Seq<Hunk>,
    index: Seq<char>,
    cur: Seq<char>,
    range: (usize, usize),
    text: Seq<char>,
) -> bool {
    moves_picked(hs, |h: Hunk| new_touches(h, range), index, cur, text)
}

/// Whether `text` still changes of HEAD what does not touch `range`, and only that.
pub open spec fn keeps_untouched(
    hs: Seq<Hunk>,
    head: Seq<char>,
    index: Seq<char>,
    range: (usize, usize),
    text: Seq<char>,
) -> bool {
    moves_picked(hs, |h: Hunk| !old_touches(h, range), head, index, text)
}

/// Patched lines are lines of either side.
proof fn lemma_patched_lines(
    hs: Seq<Hunk>,
    sel: spec_fn(Hunk) -> bool,
    old: Seq<Seq<char>>,
    new: Seq<Seq<char>>,
)
    requires
        aligned(hs, old, new),
    ensures
        forall|i: int|
            0 <= i < patched(hs, sel, old, new).len() ==> old.contains(
                #[trigger] patched(hs, sel, old, new)[i],
            ) || new.contains(patched(hs, sel, old, new)[i]),
    decreases hs.len(),
{
    let all = patched(hs, sel, old, new);
    if hs.len() > 0 {
        let h = hs.last();
        let (p, q) = (old.take(h.old_start as int), new.take(h.new_start as int));
        lemma_patched_lines(hs.drop_last(), sel, p, q);
        let front = patched(hs.drop_last(), sel, p, q);
        let n = front.len() as int;
        let m = if sel(h) {
            h.new_len as int
        } else {
            h.old_len as int
        };
        assert forall|i: int| 0 <= i < all.len() implies old.contains(#[trigger] all[i])
            || new.contains(all[i]) by {
            if i < n {
                assert(all[i] == front[i]);
                if p.contains(front[i]) {
                    let k = choose|k: int| 0 <= k < p.len() && p[k] == front[i];
                    assert(old[k] == front[i]);
                } else {
                    let k = choose|k: int| 0 <= k < q.len() && q[k] == front[i];
                    assert(new[k] == front[i]);
                }
            } else if i < n + m {
                if sel(h) {
                    assert(all[i] == new[h.new_start + (i - n)]);
                } else {
                    assert(all[i] == old[h.old_start + (i - n)]);
                }
            } else {
                assert(all[i] == old[h.old_end() + (i - n - m)]);
            }
        }
    }
}

/// The lines of a patched text are the patched lines.
proof fn lemma_patched_text_lines(
    hs: Seq<Hunk>,
    sel: spec_fn(Hunk) -> bool,
    from: Seq<char>,
    to: Seq<char>,
)
    requires
        aligned(hs, lines_of(from), lines_of(to)),
        0 < patched(hs, sel, lines_of(from), lines_of(to)).len(),
    ensures
        lines_of(join_with(patched(hs, sel, lines_of(from), lines_of(to)), '\n')) == patched(
            hs,
            sel,
            lines_of(from),
            lines_of(to),
        ),
{
    let (old, new) = (lines_of(from), lines_of(to));
    let lines = patched(hs, sel, old, new);
    crate::text::lemma_split_pieces(from, '\n');
    crate::text::lemma_split_pieces(to, '\n');
    lemma_patched_lines(hs, sel, old, new);
    assert forall|i: int| 0 <= i < lines.len() implies !(#[trigger] lines[i]).contains('\n') by {
        if old.contains(lines[i]) {
            let k = choose|k: int| 0 <= k < old.len() && old[k] == lines[i];
            assert(!old[k].contains('\n'));
        } else {
            let k = choose|k: int| 0 <= k < new.len() && new[k] == lines[i];
            assert(!new[k].contains('\n'));
        }
    }
    crate::text::law_split_undoes_join(lines, '\n');
}

/// Only the picked changes move in the text that is patched from one text towards another,
/// as long as it has lines.
pub proof fn law_patched_text_moves_picked(
    hs: Seq<Hunk>,
    sel: spec_fn(Hunk) -> bool,
    from: Seq<char>,
    to: Seq<char>,
)
    requires
        aligned(hs, lines_of(from), lines_of(to)),
        0 < patched(hs, sel, lines_of(from), lines_of(to)).len() <= usize::MAX,
    ensures
        moves_picked(
            hs,
            sel,
            from,
            to,
            join_with(patched(hs, sel, lines_of(from), lines_of(to)), '\n'),
        ),
{
    lemma_patched_text_lines(hs, sel, from, to);
    law_patch_moves_picked(hs, sel, lines_of(from), lines_of(to));
}

/// How many lines block `k` has when it is as in the new text, or else as in the old one.
pub open spec fn piece_len(hs: Seq<Hunk>, moved: Seq<bool>, k: int) -> int {
    if moved[k] {
        hs[k].new_len as int
    } else {
        hs[k].old_len as int
    }
}

/// Whether block `k` stands in `lines` at `at[k]`, with its new lines if it is moved and else
/// with its old ones, and before it the same lines as in the old text, back to the block
/// before.
pub open spec fn piece_in_place(
    lines: Seq<Seq<char>>,
    old: Seq<Seq<char>>,
    new: Seq<Seq<char>>,
    hs: Seq<Hunk>,
    moved: Seq<bool>,
    at: Seq<int>,
    k: int,
) -> bool {
    let h = hs[k];
    let (e, f) = if k == 0 {
        (0, 0)
    } else {
        (hs[k - 1].old_start + hs[k - 1].old_len, at[k - 1] + piece_len(hs, moved, k - 1))
    };
    &&& 0 <= f <= at[k]
    &&& at[k] - f == h.old_start - e
    &&& at[k] + piece_len(hs, moved, k) <= lines.len()
    &&& lines.subrange(f, at[k]) == old.subrange(e, h.old_start as int)
    &&& moved[k] ==> lines.subrange(at[k], at[k] + h.new_len) == new.subrange(
        h.new_start as int,
        h.new_start + h.new_len,
    )
    &&& !moved[k] ==> lines.subrange(at[k], at[k] + h.old_len) == old.subrange(
        h.old_start as int,
        h.old_start + h.old_len,
    )
}

/// Whether `lines` are those of the old text with each block of `hs` that is moved as in the
/// new text, given where in `lines` each block stands.
pub open spec fn pieced_together(
    lines: Seq<Seq<char>>,
    old: Seq<Seq<char>>,
    new: Seq<Seq<char>>,
    hs: Seq<Hunk>,
    moved: Seq<bool>,
    at: Seq<int>,
) -> bool {
    &&& at.len() == hs.len()
    &&& forall|k: int|
        0 <= k < hs.len() ==> #[trigger] piece_in_place(lines, old, new, hs, moved, at, k)
    &&& hs.len() == 0 ==> lines == old
    &&& hs.len() > 0 ==> lines.skip(at.last() + piece_len(hs, moved, hs.len() - 1)) == old.skip(
        hs.last().old_start + hs.last().old_len,
    )
}

/// Which blocks reach the lines `range` of the new text: those that neither end before it
/// starts nor start after it ends.
pub open spec fn reach_new(hs: Seq<Hunk>, range: (usize, usize)) -> Seq<bool> {
    Seq::new(
        hs.len(),
        |k: int|
            !(hs[k].new_start + hs[k].new_len < range.0 || range.1 < hs[k].new_start),
    )
}

/// Which blocks do not reach the lines `range` of the old text: those that end before it
/// starts or start after it ends.
pub open spec fn miss_old(hs: Seq<Hunk>, range: (usize, usize)) -> Seq<bool> {
    Seq::new(
        hs.len(),
        |k: int| hs[k].old_start + hs[k].old_len < range.0 || range.1 < hs[k].old_start,
    )
}

/// Where in the patched lines each block stands.
spec fn places(
    hs: Seq<Hunk>,
    sel: spec_fn(Hunk) -> bool,
    old: Seq<Seq<char>>,
    new: Seq<Seq<char>>,
) -> Seq<int>
    decreases hs.len(),
{
    if hs.len() == 0 {
        Seq::empty()
    } else {
        let h = hs.last();
        let (p, q) = (old.take(h.old_start as int), new.take(h.new_start as int));
        places(hs.drop_last(), sel, p, q).push(
            patched(hs.drop_last(), sel, p, q).len() as int,
        )
    }
}

proof fn lemma_patched_pieced(
    hs: Seq<Hunk>,
    sel: spec_fn(Hunk) -> bool,
    old: Seq<Seq<char>>,
    new: Seq<Seq<char>>,
    moved: Seq<bool>,
)
    requires
        aligned(hs, old, new),
        moved.len() >= hs.len(),
        forall|k: int| 0 <= k < hs.len() ==> moved[k] == sel(#[trigger] hs[k]),
    ensures
        pieced_together(
            patched(hs, sel, old, new),
            old,
            new,
            hs,
            moved,
            places(hs, sel, old, new),
        ),
    decreases hs.len(),
{
    let all = patched(hs, sel, old, new);
    let at = places(hs, sel, old, new);
    if hs.len() > 0 {
        let h = hs.last();
        let n = hs.len() - 1;
        let init = hs.drop_last();
        let (p, q) = (old.take(h.old_start as int), new.take(h.new_start as int));
        assert forall|k: int| 0 <= k < init.len() implies moved[k] == sel(#[trigger] init[k]) by {
            assert(init[k] == hs[k]);
        }
        lemma_patched_pieced(init, sel, p, q, moved);
        let front = patched(init, sel, p, q);
        let b = places(init, sel, p, q);
        assert(at == b.push(front.len() as int));
        assert(moved[n] == sel(hs[n]));
        let m = piece_len(hs, moved, n);
        assert(all.take(front.len() as int) == front);
        assert(all.skip(at[n] + m) == old.skip(h.old_end()));
        assert forall|k: int| 0 <= k < hs.len() implies #[trigger] piece_in_place(
            all,
            old,
            new,
            hs,
            moved,
            at,
            k,
        ) by {
            if k < n {
                assert(piece_in_place(front, p, q, init, moved, b, k));
                assert(init[k] == hs[k] && at[k] == b[k]);
                if k > 0 {
                    assert(init[k - 1] == hs[k - 1] && at[k - 1] == b[k - 1]);
                }
                lemma_block_bounds(init, p, q, k);
                let (e, f) = if k == 0 {
                    (0, 0)
                } else {
                    (hs[k - 1].old_end(), at[k - 1] + piece_len(hs, moved, k - 1))
                };
                let len = piece_len(hs, moved, k);
                assert(all.subrange(f, at[k]) == front.subrange(f, at[k]));
                assert(old.subrange(e, hs[k].old_start as int) == p.subrange(
                    e,
                    hs[k].old_start as int,
                ));
                assert(all.subrange(at[k], at[k] + len) == front.subrange(at[k], at[k] + len));
                assert(new.subrange(hs[k].new_start as int, hs[k].new_end()) == q.subrange(
                    hs[k].new_start as int,
                    hs[k].new_end(),
                ));
                assert(old.subrange(hs[k].old_start as int, hs[k].old_end()) == p.subrange(
                    hs[k].old_start as int,
                    hs[k].old_end(),
                ));
            } else {
                let (e, f) = if k == 0 {
                    (0, 0)
                } else {
                    (hs[k - 1].old_end(), at[k - 1] + piece_len(hs, moved, k - 1))
                };
                if k > 0 {
                    assert(piece_in_place(front, p, q, init, moved, b, k - 1));
                    assert(init[k - 1] == hs[k - 1] && at[k - 1] == b[k - 1]);
                    lemma_block_bounds(init, p, q, k - 1);
                    assert(front.skip(f) == p.skip(e));
                    assert(front.skip(f).len() == front.len() - f);
                    assert(p.skip(e).len() == p.len() - e);
                    assert(all.subrange(f, at[k]) == front.skip(f));
                    assert(old.subrange(e, h.old_start as int) == p.skip(e));
                } else {
                    assert(front == p);
                    assert(all.subrange(0, at[k]) == front);
                    assert(old.subrange(0, h.old_start as int) == p);
                }
                if sel(h) {
                    assert(all.subrange(at[k], at[k] + h.new_len) == new.subrange(
                        h.new_start as int,
                        h.new_end(),
                    ));
                } else {
                    assert(all.subrange(at[k], at[k] + h.old_len) == old.subrange(
                        h.old_start as int,
                        h.old_end(),
                    ));
                }
            }
        }
    }
}

/// The patched lines are the old ones, with exactly the picked blocks as in the new text.
pub proof fn law_patch_replaces_picked_blocks(
    hs: Seq<Hunk>,
    sel: spec_fn(Hunk) -> bool,
    old: Seq<Seq<char>>,
    new: Seq<Seq<char>>,
    moved: Seq<bool>,
)
    requires
        aligned(hs, old, new),
        moved.len() == hs.len(),
        forall|k: int| 0 <= k < hs.len() ==> moved[k] == sel(#[trigger] hs[k]),
    ensures
        exists|at: Seq<int>| #[trigger]
            pieced_together(patched(hs, sel, old, new), old, new, hs, moved, at),
{
    lemma_patched_pieced(hs, sel, old, new, moved);
}

/// Whether two blocks follow one another without lines in between, in either order.
spec fn abut(a: Hunk, b: Hunk) -> bool {
    ||| a.old_end() == b.old_start && a.new_end() == b.new_start
    ||| b.old_end() == a.old_start && b.new_end() == a.new_start
}

/// The patched lines are not empty, where a picked deletion always comes with the insertions
/// next to it.
proof fn lemma_patched_has_lines(
    hs: Seq<Hunk>,
    sel: spec_fn(Hunk) -> bool,
    old: Seq<Seq<char>>,
    new: Seq<Seq<char>>,
)
    requires
        aligned(hs, old, new),
        all_filled(hs),
        forall|d: Hunk, i: Hunk| #[trigger]
            abut(d, i) && d.new_len == 0 && i.old_len == 0 && sel(d) ==> sel(i),
        old.len() > 0,
        new.len() > 0,
    ensures
        patched(hs, sel, old, new).len() > 0,
    decreases hs.len(),
{
    if hs.len() > 0 && patched(hs, sel, old, new).len() == 0 {
        let h = hs.last();
        let init = hs.drop_last();
        let (p, q) = (old.take(h.old_start as int), new.take(h.new_start as int));
        assert(hs[hs.len() - 1].is_filled());
        assert(all_filled(init)) by {
            assert forall|i: int| 0 <= i < init.len() implies (#[trigger] init[i]).is_filled() by {
                assert(hs[i].is_filled());
            }
        }
        assert(aligned(init, p, q));
        assert(patched(init, sel, p, q).len() == 0);
        assert(old.skip(h.old_end()).len() == 0);
        assert(new.skip(h.new_end()).len() == 0);
        if p.len() > 0 && q.len() > 0 {
            lemma_patched_has_lines(init, sel, p, q);
        } else if init.len() > 0 {
            let g = init.last();
            assert(init[init.len() - 1].is_filled());
            assert(p.skip(g.old_end()).len() == 0);
            assert(q.skip(g.new_end()).len() == 0);
            assert(abut(g, h) && abut(h, g));
        }
    }
}

/// The index content with those of the differences `hs` between index and buffer that touch
/// `buf_range` applied. `None` when none of them does.
pub fn stage_hunks(hs: &[Hunk], index: &str, cur: &str, buf_range: (usize, usize)) -> (r: Option<
    String,
>)
    requires
        aligned(hs@, lines_of(index@), lines_of(cur@)),
        forall|i: int| 0 <= i < hs@.len() ==> (#[trigger] hs@[i]).fits(),
    ensures
        match r {
            Some(text) => staged_with(hs@, index@, cur@, buf_range) == Some(text@),
            None => staged_with(hs@, index@, cur@, buf_range) is None,
        },
        r is Some && all_filled(hs@) ==> moves_touching(hs@, index@, cur@, buf_range, r->0@),
        r is Some <==> exists|k: int|
            0 <= k < hs@.len() && !((#[trigger] hs@[k]).new_start + hs@[k].new_len < buf_range.0
                || buf_range.1 < hs@[k].new_start),
        r is Some && all_filled(hs@) ==> exists|at: Seq<int>| #[trigger]
            pieced_together(
                lines_of(r->0@),
                lines_of(index@),
                lines_of(cur@),
                hs@,
                reach_new(hs@, buf_range),
                at,
            ),
{
    let cl = split(cur, '\n');
    let ghost old = lines_of(index@);
    let ghost new = lines_of(cur@);
    let ghost sel = |h: Hunk| new_touches(h, buf_range);
    let mut reps: Vec<Replacement> = Vec::new();
    let mut i: usize = 0;
    while i < hs.len()
        invariant
            i <= hs@.len(),
            aligned(hs@, old, new),
            forall|k: int| 0 <= k < hs@.len() ==> (#[trigger] hs@[k]).fits(),
            texts(cl@) == new,
            sel == |h: Hunk| new_touches(h, buf_range),
            views(reps@) == picked(hs@.take(i as int), sel, new),
            reps@.len() > 0 <==> any_new_touches(hs@.take(i as int), buf_range),
        decreases hs@.len() - i,
    {
        let h = hs[i];
        proof {
            lemma_block_bounds(hs@, old, new, i as int);
            assert(hs@.take(i + 1).drop_last() == hs@.take(i as int));
            assert(hs@.take(i + 1).last() == h);
            lemma_any_new_step(hs@, i as int, buf_range);
        }
        assert(texts(cl@).len() == cl@.len());
        let ghost before = reps@;
        if ranges_touch((h.new_start, h.new_start + h.new_len), buf_range) {
            let lines = copy_lines(cl.as_slice(), h.new_start, h.new_start + h.new_len);
            reps.push(Replacement { start: h.old_start, end: h.old_start + h.old_len, lines });
            assert(views(reps@) == views(before).push(reps@.last()@));
        }
        i += 1;
    }
    assert(hs@.take(i as int) == hs@);
    if reps.len() == 0 {
        return None;
    }
    proof {
        lemma_splice_is_patch(hs@, sel, old, new);
        lemma_picked_apart(hs@, sel, old, new, new);
        lemma_apart_in_order(reps@, old.len() as int);
    }
    let text = apply_replacements(index, reps);
    proof {
        if all_filled(hs@) {
            crate::text::lemma_split_pieces(index@, '\n');
            crate::text::lemma_split_pieces(cur@, '\n');
            lemma_patched_has_lines(hs@, sel, old, new);
            law_patched_text_moves_picked(hs@, sel, index@, cur@);
            lemma_patched_text_lines(hs@, sel, index@, cur@);
            law_patch_replaces_picked_blocks(hs@, sel, old, new, reach_new(hs@, buf_range));
        }
    }
    Some(text)
}

/// The new index content that stages the buffer's change at `buf_range` (a hunk's
/// `[new_start, new_start + new_len]` from the HEAD diff): the current index with just the
/// touching blocks of its diff against the buffer applied, so that blocks staged earlier
/// are kept. `None` when there is nothing to stage there.
pub fn stage_apply(index: &str, cur: &str, buf_range: (usize, usize)) -> (r: Option<String>)
    ensures
        match r {
            Some(text) => staged_text(index@, cur@, buf_range) == Some(text@),
            None => staged_text(index@, cur@, buf_range) is None,
        },
        // There is something to stage exactly when a block neither ends before the range nor
        // starts after it; such blocks are then as in the buffer, and all else is as it was.
        r is Some <==> exists|k: int|
            0 <= k < hunks_between(index@, cur@).len() && !((#[trigger] hunks_between(
                index@,
                cur@,
            )[k]).new_start + hunks_between(index@, cur@)[k].new_len < buf_range.0 || buf_range.1
                < hunks_between(index@, cur@)[k].new_start),
        r is Some ==> exists|at: Seq<int>| #[trigger]
            pieced_together(
                lines_of(r->0@),
                lines_of(index@),
                lines_of(cur@),
                hunks_between(index@, cur@),
                reach_new(hunks_between(index@, cur@), buf_range),
                at,
            ),
        // What was staged before is kept, and nothing else of the buffer is staged.
        r is Some ==> moves_touching(
            hunks_between(index@, cur@),
            index@,
            cur@,
            buf_range,
            r->0@,
        ),
        // Staging the whole buffer makes the index equal to it.
        index@.len() > 0 && index@ != cur@ && buf_range.0 == 0 && buf_range.1 >= lines_of(
            cur@,
        ).len() ==> r is Some && r->0@ == cur@,
        index@ == cur@ ==> r is None,
{
    let hs = hunks(index, cur);
    if hs.len() == 0 {
        return None;
    }
    proof {
        let (old, new) = (lines_of(index@), lines_of(cur@));
        if buf_range.0 == 0 && buf_range.1 >= new.len() {
            let sel = |h: Hunk| new_touches(h, buf_range);
            assert forall|k: int| 0 <= k < hs@.len() implies sel(#[trigger] hs@[k]) by {
                lemma_block_bounds(hs@, old, new, k);
            }
            assert(sel(hs@[0]));
            law_patch_all(hs@, sel, old, new);
            crate::text::law_join_undoes_split(cur@, '\n');
        }
    }
    stage_hunks(hs.as_slice(), index, cur, buf_range)
}

/// The index content with those of the differences `hs` between HEAD and index that touch
/// `head_range` put back to their HEAD lines. `None` when none of them does.
pub fn unstage_hunks(
    hs: &[Hunk],
    head: &str,
    index: &str,
    head_range: (usize, usize),
) -> (r: Option<String>)
    requires
        aligned(hs@, lines_of(head@), lines_of(index@)),
        forall|i: int| 0 <= i < hs@.len() ==> (#[trigger] hs@[i]).fits(),
    ensures
        match r {
            Some(text) => unstaged_with(hs@, head@, index@, head_range) == Some(text@),
            None => unstaged_with(hs@, head@, index@, head_range) is None,
        },
        r is Some && all_filled(hs@) ==> keeps_untouched(hs@, head@, index@, head_range, r->0@),
        r is Some <==> exists|k: int|
            0 <= k < hs@.len() && !((#[trigger] hs@[k]).old_start + hs@[k].old_len < head_range.0
                || head_range.1 < hs@[k].old_start),
        r is Some && all_filled(hs@) ==> exists|at: Seq<int>| #[trigger]
            pieced_together(
                lines_of(r->0@),
                lines_of(head@),
                lines_of(index@),
                hs@,
                miss_old(hs@, head_range),
                at,
            ),
{
    let hl = split(head, '\n');
    let ghost old = lines_of(head@);
    let ghost new = lines_of(index@);
    let ghost sel = |f: Hunk| old_touches(flip(f), head_range);
    let mut reps: Vec<Replacement> = Vec::new();
    let mut i: usize = 0;
    while i < hs.len()
        invariant
            i <= hs@.len(),
            aligned(hs@, old, new),
            forall|k: int| 0 <= k < hs@.len() ==> (#[trigger] hs@[k]).fits(),
            texts(hl@) == old,
            sel == |f: Hunk| old_touches(flip(f), head_range),
            views(reps@) == picked(flipped(hs@.take(i as int)), sel, old),
            reps@.len() > 0 <==> any_old_touches(hs@.take(i as int), head_range),
        decreases hs@.len() - i,
    {
        let h = hs[i];
        proof {
            lemma_block_bounds(hs@, old, new, i as int);
            let fs = flipped(hs@.take(i + 1));
            assert(fs.drop_last() == flipped(hs@.take(i as int)));
            assert(fs.last() == flip(h));
            assert(flip(flip(h)) == h);
            lemma_any_old_step(hs@, i as int, head_range);
        }
        assert(texts(hl@).len() == hl@.len());
        let ghost before = reps@;
        if ranges_touch((h.old_start, h.old_start + h.old_len), head_range) {
            let lines = copy_lines(hl.as_slice(), h.old_start, h.old_start + h.old_len);
            reps.push(Replacement { start: h.new_start, end: h.new_start + h.new_len, lines });
            assert(views(reps@) == views(before).push(reps@.last()@));
        }
        i += 1;
    }
    assert(hs@.take(i as int) == hs@);
    if reps.len() == 0 {
        return None;
    }
    proof {
        let fs = flipped(hs@);
        lemma_aligned_flipped(hs@, old, new);
        lemma_splice_is_patch(fs, sel, new, old);
        lemma_picked_apart(fs, sel, new, old, old);
        lemma_apart_in_order(reps@, new.len() as int);
        let touched = |h: Hunk| old_touches(h, head_range);
        let keep = |h: Hunk| !old_touches(h, head_range);
        law_patch_back(hs@, touched, old, new);
        assert((|f: Hunk| touched(flip(f))) == sel);
        assert((|h: Hunk| !touched(h)) == keep);
    }
    let text = apply_replacements(index, reps);
    proof {
        if all_filled(hs@) {
            let keep = |h: Hunk| !old_touches(h, head_range);
            crate::text::lemma_split_pieces(head@, '\n');
            crate::text::lemma_split_pieces(index@, '\n');
            lemma_patched_has_lines(hs@, keep, old, new);
            law_patched_text_moves_picked(hs@, keep, head@, index@);
            lemma_patched_text_lines(hs@, keep, head@, index@);
            law_patch_replaces_picked_blocks(hs@, keep, old, new, miss_old(hs@, head_range));
        }
    }
    Some(text)
}

/// The new index content that unstages the change at `head_range` (a hunk's
/// `[old_start, old_start + old_len]` from the HEAD diff): the index with the touching
/// blocks of its diff against HEAD put back to their HEAD lines. `None` when nothing is
/// staged there.
pub fn unstage_apply(head: &str, index: &str, head_range: (usize, usize)) -> (r: Option<String>)
    ensures
        match r {
            Some(text) => unstaged_text(head@, index@, head_range) == Some(text@),
            None => unstaged_text(head@, index@, head_range) is None,
        },
        // There is something to unstage exactly when a block neither ends before the range
        // nor starts after it; such blocks are then as in HEAD, and all others are as in the
        // index.
        r is Some <==> exists|k: int|
            0 <= k < hunks_between(head@, index@).len() && !((#[trigger] hunks_between(
                head@,
                index@,
            )[k]).old_start + hunks_between(head@, index@)[k].old_len < head_range.0
                || head_range.1 < hunks_between(head@, index@)[k].old_start),
        r is Some ==> exists|at: Seq<int>| #[trigger]
            pieced_together(
                lines_of(r->0@),
                lines_of(head@),
                lines_of(index@),
                hunks_between(head@, index@),
                miss_old(hunks_between(head@, index@), head_range),
                at,
            ),
        // What else is staged is kept.
        r is Some ==> keeps_untouched(
            hunks_between(head@, index@),
            head@,
            index@,
            head_range,
            r->0@,
        ),
        // Unstaging everything makes the index equal to HEAD.
        head@.len() > 0 && head@ != index@ && head_range.0 == 0 && head_range.1 >= lines_of(
            head@,
        ).len() ==> r is Some && r->0@ == head@,
        head@ == index@ ==> r is None,
{
    let hs = hunks(head, index);
    if hs.len() == 0 {
        return None;
    }
    proof {
        let (old, new) = (lines_of(head@), lines_of(index@));
        if head_range.0 == 0 && head_range.1 >= old.len() {
            let keep = |h: Hunk| !old_touches(h, head_range);
            assert forall|k: int| 0 <= k < hs@.len() implies !keep(#[trigger] hs@[k]) by {
                lemma_block_bounds(hs@, old, new, k);
            }
            assert(!keep(hs@[0]));
            law_patch_none(hs@, keep, old, new);
            crate::text::law_join_undoes_split(head@, '\n');
        }
    }
    unstage_hunks(hs.as_slice(), head, index, head_range)
}

/// An unstage at a range has something to do exactly where a staged block touches it.
pub proof fn law_overlap_is_unstageable(
    head: Seq<char>,
    index: Seq<char>,
    range: (usize, usize),
)
    ensures
        any_old_touches(hunks_between(head, index), range) <==> unstaged_text(
            head,
            index,
            range,
        ) is Some,
{
}

/// What is staged or unstaged has no `\r` when neither text has: it is read back from the
/// blob that it is written to as it is.
pub proof fn law_patched_text_has_no_cr(
    hs: Seq<Hunk>,
    sel: spec_fn(Hunk) -> bool,
    from: Seq<char>,
    to: Seq<char>,
)
    requires
        aligned(hs, lines_of(from), lines_of(to)),
        !from.contains('\r'),
        !to.contains('\r'),
    ensures
        !join_with(patched(hs, sel, lines_of(from), lines_of(to)), '\n').contains('\r'),
{
    let (old, new) = (lines_of(from), lines_of(to));
    let lines = patched(hs, sel, old, new);
    crate::text::lemma_split_lacks(from, '\n', '\r');
    crate::text::lemma_split_lacks(to, '\n', '\r');
    lemma_patched_lines(hs, sel, old, new);
    assert forall|i: int| 0 <= i < lines.len() implies !(#[trigger] lines[i]).contains('\r') by {
        if old.contains(lines[i]) {
            let k = choose|k: int| 0 <= k < old.len() && old[k] == lines[i];
            assert(!old[k].contains('\r'));
        } else {
            let k = choose|k: int| 0 <= k < new.len() && new[k] == lines[i];
            assert(!new[k].contains('\r'));
        }
    }
    crate::text::lemma_joined_lacks(lines, '\n', '\r');
}

/// One replacement puts its lines where its range was, and keeps the lines before and after.
/// A range that goes past the end of the text is cut off there, and one that ends before it
/// starts takes nothing away.
pub proof fn law_one_replacement(lines: Seq<Seq<char>>, s: int, e: int, x: Seq<Seq<char>>)
    requires
        0 <= s,
    ensures
        s <= e <= lines.len() ==> spliced(lines, seq![(s, e, x)]) == lines.subrange(0, s) + x
            + lines.subrange(e, lines.len() as int),
        s <= lines.len() < e ==> spliced(lines, seq![(s, e, x)]) == lines.subrange(0, s) + x,
        lines.len() < s ==> spliced(lines, seq![(s, e, x)]) == lines + x,
        e < s <= lines.len() ==> spliced(lines, seq![(s, e, x)]) == lines.subrange(0, s) + x
            + lines.subrange(s, lines.len() as int),
        spliced(lines, Seq::empty()) == lines,
{
    let reps = seq![(s, e, x)];
    assert(reps.drop_last() == Seq::<(int, int, Seq<Seq<char>>)>::empty());
    assert(spliced(splice(lines, (s, e, x)), reps.drop_last()) == splice(lines, (s, e, x)));
    assert(reps.last() == (s, e, x));
    assert(spliced(lines, reps) == splice(lines, (s, e, x)));
    let r = splice(lines, (s, e, x));
    if s <= e <= lines.len() {
        assert(r == lines.subrange(0, s) + x + lines.subrange(e, lines.len() as int));
    } else if s <= lines.len() < e {
        assert(r == lines.subrange(0, s) + x);
    } else if lines.len() < s {
        assert(r == lines + x);
    } else {
        assert(r == lines.subrange(0, s) + x + lines.subrange(s, lines.len() as int));
    }
}

/// Ranges by so many lines further up.
pub open spec fn raised(reps: Seq<(int, int, Seq<Seq<char>>)>, by: int) -> Seq<
    (int, int, Seq<Seq<char>>),
> {
    Seq::new(reps.len(), |i: int| (reps[i].0 - by, reps[i].1 - by, reps[i].2))
}

/// Replacements of ranges that follow one another do not disturb each other: the first one
/// puts its lines in place of its range, and the others are carried out in the lines after
/// it.
pub proof fn law_replacements_are_independent(
    lines: Seq<Seq<char>>,
    r: (int, int, Seq<Seq<char>>),
    rest: Seq<(int, int, Seq<Seq<char>>)>,
)
    requires
        0 <= r.0 <= r.1 <= lines.len(),
        forall|i: int|
            0 <= i < rest.len() ==> r.1 <= (#[trigger] rest[i]).0 <= rest[i].1 <= lines.len(),
        forall|i: int, j: int|
            0 <= i < j < rest.len() ==> (#[trigger] rest[i]).1 <= (#[trigger] rest[j]).0,
    ensures
        spliced(lines, seq![r] + rest) == lines.subrange(0, r.0) + r.2 + spliced(
            lines.subrange(r.1, lines.len() as int),
            raised(rest, r.1),
        ),
    decreases rest.len(),
{
    let tail = lines.subrange(r.1, lines.len() as int);
    if rest.len() == 0 {
        assert(seq![r] + rest == seq![r]);
        assert(raised(rest, r.1) == Seq::<(int, int, Seq<Seq<char>>)>::empty());
        law_one_replacement(lines, r.0, r.1, r.2);
        assert((r.0, r.1, r.2) == r);
    } else {
        let l = rest.last();
        let init = rest.drop_last();
        let all = seq![r] + rest;
        assert(rest[rest.len() - 1] == l);
        assert(all.drop_last() == seq![r] + init);
        assert(all.last() == l);
        let next = splice(lines, l);
        assert forall|i: int| 0 <= i < init.len() implies r.1 <= (#[trigger] init[i]).0 <= init[i].1
            <= next.len() by {
            assert(rest[i] == init[i]);
            assert(rest[i].1 <= rest[rest.len() - 1].0);
        }
        assert forall|i: int, j: int| 0 <= i < j < init.len() implies (#[trigger] init[i]).1 <= (
        #[trigger] init[j]).0 by {
            assert(rest[i].1 <= rest[j].0);
        }
        law_replacements_are_independent(next, r, init);
        let up = raised(rest, r.1);
        assert(up.drop_last() == raised(init, r.1));
        assert(up.last() == (l.0 - r.1, l.1 - r.1, l.2));
        assert(next.subrange(0, r.0) == lines.subrange(0, r.0));
        assert(next.subrange(r.1, next.len() as int) == splice(tail, up.last()));
    }
}

} // verus!
