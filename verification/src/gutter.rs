//! What the editor gutter draws: a marker byte per line, and the hunks to display.

use vstd::prelude::*;

use crate::diff::{
    aligned, hunks, hunks_between, lemma_block_bounds, ranges_touch, staged_flags, staged_in, touch,
    Hunk,
};
use crate::sort::{in_line_order, law_sort_orders_and_keeps, sort_by_line, sorted_by_line, ByLine};
use crate::text::{lines_of, split, texts};

verus! {

/// The line was added.
pub const ADDED: u8 = 1;

/// The line was modified.
pub const MODIFIED: u8 = 2;

/// Lines were removed from the base immediately before this line.
pub const DELETED_ABOVE: u8 = 4;

/// Lines were removed at the end of the file, after the last line (drawn below it).
pub const DELETED_BELOW: u8 = 8;

/// The line's added or modified hunk is staged (its bar draws hollow).
pub const STAGED: u8 = 16;

/// The deletion at this line's boundary is staged (its wedge draws hollow).
pub const STAGED_DEL: u8 = 32;

/// Whether line `i` of a buffer of `n` lines shows hunk `h`: the lines of the hunk, or
/// for a pure deletion the line below the removed text, or the last line when the text
/// fell off the end.
pub open spec fn shows(h: Hunk, n: int, i: int) -> bool {
    if h.new_len > 0 {
        h.new_start <= i < h.new_end()
    } else if h.new_start < n {
        i == h.new_start
    } else {
        i == n - 1
    }
}

/// The marker bit of the lines that show `h` in a buffer of `n` lines.
pub open spec fn mark_bit(h: Hunk, n: int) -> u8 {
    if h.new_len > 0 {
        if h.old_len > 0 {
            MODIFIED
        } else {
            ADDED
        }
    } else if h.new_start < n {
        DELETED_ABOVE
    } else {
        DELETED_BELOW
    }
}

/// The staged bit of the lines that show `h`.
pub open spec fn staged_bit(h: Hunk) -> u8 {
    if h.new_len > 0 {
        STAGED
    } else {
        STAGED_DEL
    }
}

/// The marker bits of line `i`, of all hunks together.
pub open spec fn marks_at(hs: Seq<Hunk>, n: int, i: int) -> u8
    decreases hs.len(),
{
    if hs.len() == 0 {
        0
    } else {
        let before = marks_at(hs.drop_last(), n, i);
        if shows(hs.last(), n, i) {
            before | mark_bit(hs.last(), n)
        } else {
            before
        }
    }
}

/// `mark` with the staged bits of line `i` added, for those of the hunks that `staged`
/// tells to be staged.
pub open spec fn staged_marks_at(mark: u8, hs: Seq<Hunk>, staged: Seq<bool>, n: int, i: int) -> u8
    decreases hs.len(),
{
    if hs.len() == 0 || staged.len() < hs.len() {
        mark
    } else {
        let k = hs.len() - 1;
        let before = staged_marks_at(mark, hs.drop_last(), staged, n, i);
        if staged[k] && shows(hs[k], n, i) {
            before | staged_bit(hs[k])
        } else {
            before
        }
    }
}

/// ORs `bit` into the lines that show `h`.
fn or_into(marks: &mut [u8], h: Hunk, bit: u8)
    requires
        h.new_end() <= usize::MAX,
    ensures
        final(marks)@.len() == old(marks)@.len(),
        forall|i: int|
            0 <= i < final(marks)@.len() ==> #[trigger] final(marks)@[i] == if shows(
                h,
                old(marks)@.len() as int,
                i,
            ) {
                old(marks)@[i] | bit
            } else {
                old(marks)@[i]
            },
{
    let n = marks.len();
    let ghost before = marks@;
    if h.new_len > 0 {
        let end = h.new_start + h.new_len;
        let stop: usize = if end < n {
            end
        } else {
            n
        };
        let mut i: usize = h.new_start;
        while i < stop
            invariant
                n == before.len(),
                marks@.len() == n,
                stop == if end < n {
                    end
                } else {
                    n
                },
                end == h.new_end(),
                h.new_len > 0,
                h.new_start <= i,
                i <= stop || i == h.new_start,
                forall|k: int|
                    0 <= k < n ==> #[trigger] marks@[k] == if h.new_start <= k < i {
                        before[k] | bit
                    } else {
                        before[k]
                    },
            decreases stop - i,
        {
            let m = marks[i];
            marks[i] = m | bit;
            i += 1;
        }
    } else if h.new_start < n {
        let m = marks[h.new_start];
        marks[h.new_start] = m | bit;
    } else if n > 0 {
        let m = marks[n - 1];
        marks[n - 1] = m | bit;
    }
}

/// The marker byte of each line of a buffer of `n` lines.
pub fn markers_from_hunks(hunks: &[Hunk], n: usize) -> (r: Vec<u8>)
    requires
        forall|k: int| 0 <= k < hunks@.len() ==> (#[trigger] hunks@[k]).new_end() <= usize::MAX,
    ensures
        r@.len() == n,
        forall|i: int| 0 <= i < n ==> #[trigger] r@[i] == marks_at(hunks@, n as int, i),
{
    let mut marks: Vec<u8> = vec![0u8; n];
    let mut k: usize = 0;
    while k < hunks.len()
        invariant
            k <= hunks@.len(),
            marks@.len() == n,
            forall|j: int| 0 <= j < hunks@.len() ==> (#[trigger] hunks@[j]).new_end() <= usize::MAX,
            forall|i: int|
                0 <= i < n ==> #[trigger] marks@[i] == marks_at(
                    hunks@.take(k as int),
                    n as int,
                    i,
                ),
        decreases hunks@.len() - k,
    {
        let h = hunks[k];
        let bit = if h.new_len > 0 {
            if h.old_len > 0 {
                MODIFIED
            } else {
                ADDED
            }
        } else if h.new_start < n {
            DELETED_ABOVE
        } else {
            DELETED_BELOW
        };
        assert(hunks@.take(k + 1).drop_last() == hunks@.take(k as int));
        or_into(marks.as_mut_slice(), h, bit);
        k += 1;
    }
    assert(hunks@.take(k as int) == hunks@);
    marks
}

/// ORs [`STAGED`] and [`STAGED_DEL`] into `marks` for each staged hunk, at the same lines
/// as [`markers_from_hunks`].
pub fn apply_staged_bits(marks: &mut [u8], hunks: &[Hunk], staged: &[bool])
    requires
        forall|k: int|
            0 <= k < hunks@.len() && k < staged@.len() && staged@[k] ==> (
            #[trigger] hunks@[k]).new_end() <= usize::MAX,
    ensures
        final(marks)@.len() == old(marks)@.len(),
        forall|i: int|
            0 <= i < final(marks)@.len() ==> #[trigger] final(marks)@[i] == staged_marks_at(
                old(marks)@[i],
                hunks@.take(
                    if hunks@.len() < staged@.len() {
                        hunks@.len() as int
                    } else {
                        staged@.len() as int
                    },
                ),
                staged@,
                old(marks)@.len() as int,
                i,
            ),
{
    let ghost before = marks@;
    let ghost n = marks@.len() as int;
    let mut k: usize = 0;
    while k < hunks.len() && k < staged.len()
        invariant
            k <= hunks@.len(),
            k <= staged@.len(),
            n == before.len(),
            marks@.len() == n,
            forall|j: int|
                0 <= j < hunks@.len() && j < staged@.len() && staged@[j] ==> (
                #[trigger] hunks@[j]).new_end() <= usize::MAX,
            forall|i: int|
                0 <= i < n ==> #[trigger] marks@[i] == staged_marks_at(
                    before[i],
                    hunks@.take(k as int),
                    staged@,
                    n,
                    i,
                ),
        decreases hunks@.len() - k,
    {
        let h = hunks[k];
        assert(hunks@.take(k + 1).drop_last() == hunks@.take(k as int));
        assert(hunks@.take(k + 1)[k as int] == h);
        if staged[k] {
            let bit = if h.new_len > 0 {
                STAGED
            } else {
                STAGED_DEL
            };
            or_into(marks, h, bit);
        }
        k += 1;
    }
}

/// The marker byte of each line of `cur`, diffing `base` against it.
pub fn line_markers(base: &str, cur: &str) -> (r: Vec<u8>)
    ensures
        r@.len() == lines_of(cur@).len(),
        forall|i: int|
            0 <= i < r@.len() ==> #[trigger] r@[i] == marks_at(
                hunks_between(base@, cur@),
                r@.len() as int,
                i,
            ),
        base@.len() == 0 || base@ == cur@ ==> forall|i: int| 0 <= i < r@.len() ==> r@[i] == 0,
{
    let lines = split(cur, '\n');
    assert(texts(lines@).len() == lines@.len());
    let hs = hunks(base, cur);
    markers_from_hunks(hs.as_slice(), lines.len())
}

/// Whether some hunk with marker bit `bit` shows on line `i`.
pub open spec fn some_shows(hs: Seq<Hunk>, n: int, i: int, bit: u8) -> bool {
    exists|k: int| 0 <= k < hs.len() && shows(#[trigger] hs[k], n, i) && mark_bit(hs[k], n) == bit
}

/// Each of the four marker bits is on a line exactly when a hunk of its sort shows there,
/// and no other bit is.
pub proof fn law_marks_mean(hs: Seq<Hunk>, n: int, i: int)
    ensures
        marks_at(hs, n, i) & ADDED != 0 <==> some_shows(hs, n, i, ADDED),
        marks_at(hs, n, i) & MODIFIED != 0 <==> some_shows(hs, n, i, MODIFIED),
        marks_at(hs, n, i) & DELETED_ABOVE != 0 <==> some_shows(hs, n, i, DELETED_ABOVE),
        marks_at(hs, n, i) & DELETED_BELOW != 0 <==> some_shows(hs, n, i, DELETED_BELOW),
        marks_at(hs, n, i) <= ADDED | MODIFIED | DELETED_ABOVE | DELETED_BELOW,
    decreases hs.len(),
{
    assert(1u8 | 2 | 4 | 8 == 15) by (bit_vector);
    assert(0u8 & 1 == 0 && 0u8 & 2 == 0 && 0u8 & 4 == 0 && 0u8 & 8 == 0) by (bit_vector);
    if hs.len() > 0 {
        let init = hs.drop_last();
        law_marks_mean(init, n, i);
        let x = marks_at(init, n, i);
        let y = mark_bit(hs.last(), n);
        assert(x <= 15 && (y == 1 || y == 2 || y == 4 || y == 8) ==> {
            &&& (x | y) & 1 != 0 <==> x & 1 != 0 || y == 1
            &&& (x | y) & 2 != 0 <==> x & 2 != 0 || y == 2
            &&& (x | y) & 4 != 0 <==> x & 4 != 0 || y == 4
            &&& (x | y) & 8 != 0 <==> x & 8 != 0 || y == 8
            &&& (x | y) <= 15
        }) by (bit_vector);
        lemma_some_shows_step(hs, n, i, ADDED);
        lemma_some_shows_step(hs, n, i, MODIFIED);
        lemma_some_shows_step(hs, n, i, DELETED_ABOVE);
        lemma_some_shows_step(hs, n, i, DELETED_BELOW);
    }
}

proof fn lemma_some_shows_step(hs: Seq<Hunk>, n: int, i: int, bit: u8)
    requires
        hs.len() > 0,
    ensures
        some_shows(hs, n, i, bit) == (some_shows(hs.drop_last(), n, i, bit) || (shows(
            hs.last(),
            n,
            i,
        ) && mark_bit(hs.last(), n) == bit)),
{
    let init = hs.drop_last();
    if some_shows(init, n, i, bit) {
        let k = choose|k: int|
            0 <= k < init.len() && shows(#[trigger] init[k], n, i) && mark_bit(init[k], n) == bit;
        assert(hs[k] == init[k]);
    }
    if some_shows(hs, n, i, bit) {
        let k = choose|k: int|
            0 <= k < hs.len() && shows(#[trigger] hs[k], n, i) && mark_bit(hs[k], n) == bit;
        if k < init.len() {
            assert(init[k] == hs[k]);
        }
    }
    assert(hs[hs.len() - 1] == hs.last());
}

/// Whether some staged hunk with staged bit `bit` shows on line `i`.
pub open spec fn some_staged_shows(
    hs: Seq<Hunk>,
    staged: Seq<bool>,
    n: int,
    i: int,
    bit: u8,
) -> bool {
    exists|k: int|
        0 <= k < hs.len() && staged[k] && shows(#[trigger] hs[k], n, i) && staged_bit(hs[k]) == bit
}

/// Adding the staged bits leaves the marker bits as they are, and puts each staged bit on
/// exactly the lines where a staged hunk of its sort shows.
pub proof fn law_staged_bits_mean(mark: u8, hs: Seq<Hunk>, staged: Seq<bool>, n: int, i: int)
    requires
        hs.len() <= staged.len(),
    ensures
        staged_marks_at(mark, hs, staged, n, i) & 15 == mark & 15,
        staged_marks_at(mark, hs, staged, n, i) & STAGED != 0 <==> mark & STAGED != 0
            || some_staged_shows(hs, staged, n, i, STAGED),
        staged_marks_at(mark, hs, staged, n, i) & STAGED_DEL != 0 <==> mark & STAGED_DEL != 0
            || some_staged_shows(hs, staged, n, i, STAGED_DEL),
    decreases hs.len(),
{
    if hs.len() > 0 {
        let init = hs.drop_last();
        let k = hs.len() - 1;
        law_staged_bits_mean(mark, init, staged, n, i);
        let x = staged_marks_at(mark, init, staged, n, i);
        let y = staged_bit(hs[k]);
        assert(y == 16 || y == 32 ==> {
            &&& (x | y) & 15 == x & 15
            &&& (x | y) & 16 != 0 <==> x & 16 != 0 || y == 16
            &&& (x | y) & 32 != 0 <==> x & 32 != 0 || y == 32
        }) by (bit_vector);
        lemma_some_staged_step(hs, staged, n, i, STAGED);
        lemma_some_staged_step(hs, staged, n, i, STAGED_DEL);
    }
}

proof fn lemma_some_staged_step(hs: Seq<Hunk>, staged: Seq<bool>, n: int, i: int, bit: u8)
    requires
        hs.len() > 0,
    ensures
        some_staged_shows(hs, staged, n, i, bit) == (some_staged_shows(
            hs.drop_last(),
            staged,
            n,
            i,
            bit,
        ) || (staged[hs.len() - 1] && shows(hs.last(), n, i) && staged_bit(hs.last()) == bit)),
{
    let init = hs.drop_last();
    if some_staged_shows(init, staged, n, i, bit) {
        let k = choose|k: int|
            0 <= k < init.len() && staged[k] && shows(#[trigger] init[k], n, i) && staged_bit(
                init[k],
            ) == bit;
        assert(hs[k] == init[k]);
    }
    if some_staged_shows(hs, staged, n, i, bit) {
        let k = choose|k: int|
            0 <= k < hs.len() && staged[k] && shows(#[trigger] hs[k], n, i) && staged_bit(hs[k])
                == bit;
        if k < init.len() {
            assert(init[k] == hs[k]);
        }
    }
    assert(hs[hs.len() - 1] == hs.last());
}

/// When every hunk that has lines in the buffer is staged, each line that is marked added
/// or modified carries the staged bit.
pub proof fn law_staged_bars_are_hollow(hs: Seq<Hunk>, staged: Seq<bool>, n: int, i: int)
    requires
        hs.len() <= staged.len(),
        forall|k: int| 0 <= k < hs.len() && (#[trigger] hs[k]).new_len > 0 ==> staged[k],
        marks_at(hs, n, i) & (ADDED | MODIFIED) != 0,
    ensures
        staged_marks_at(marks_at(hs, n, i), hs, staged, n, i) & STAGED != 0,
{
    let m = marks_at(hs, n, i);
    law_marks_mean(hs, n, i);
    law_staged_bits_mean(m, hs, staged, n, i);
    assert(m & (1u8 | 2u8) != 0 ==> m & 1 != 0 || m & 2 != 0) by (bit_vector);
    let bit = if m & ADDED != 0 {
        ADDED
    } else {
        MODIFIED
    };
    let k = choose|k: int|
        0 <= k < hs.len() && shows(#[trigger] hs[k], n, i) && mark_bit(hs[k], n) == bit;
    assert(staged[k] && shows(hs[k], n, i) && staged_bit(hs[k]) == STAGED);
}

/// A line that carries neither the added nor the modified bit is a line of the base.
pub proof fn law_unmarked_lines_are_base_lines(
    hs: Seq<Hunk>,
    old: Seq<Seq<char>>,
    new: Seq<Seq<char>>,
    i: int,
)
    requires
        aligned(hs, old, new),
        0 <= i < new.len(),
        marks_at(hs, new.len() as int, i) & ADDED == 0,
        marks_at(hs, new.len() as int, i) & MODIFIED == 0,
    ensures
        old.contains(new[i]),
{
    law_marks_mean(hs, new.len() as int, i);
    assert forall|k: int| 0 <= k < hs.len() implies !((#[trigger] hs[k]).new_start <= i
        < hs[k].new_end()) by {
        if hs[k].new_len > 0 {
            assert(mark_bit(hs[k], new.len() as int) == ADDED || mark_bit(hs[k], new.len() as int)
                == MODIFIED);
        }
    }
    lemma_outside_hunks(hs, old, new, i);
}

proof fn lemma_outside_hunks(hs: Seq<Hunk>, old: Seq<Seq<char>>, new: Seq<Seq<char>>, i: int)
    requires
        aligned(hs, old, new),
        0 <= i < new.len(),
        forall|k: int|
            0 <= k < hs.len() ==> !((#[trigger] hs[k]).new_start <= i < hs[k].new_end()),
    ensures
        old.contains(new[i]),
    decreases hs.len(),
{
    if hs.len() > 0 {
        let h = hs.last();
        assert(!(hs[hs.len() - 1].new_start <= i < h.new_end()));
        let init = hs.drop_last();
        let (p, q) = (old.take(h.old_start as int), new.take(h.new_start as int));
        if i >= h.new_end() {
            let (s, t) = (old.skip(h.old_end()), new.skip(h.new_end()));
            let k = i - h.new_end();
            assert(s == t);
            assert(s.len() == old.len() - h.old_end() && t.len() == new.len() - h.new_end());
            assert(t[k] == new[i]);
            assert(old[h.old_end() + k] == s[k]);
        } else {
            assert forall|k: int| 0 <= k < init.len() implies !((#[trigger] init[k]).new_start <= i
                < init[k].new_end()) by {
                assert(init[k] == hs[k]);
            }
            lemma_outside_hunks(init, p, q, i);
            let k = choose|k: int| 0 <= k < p.len() && p[k] == q[i];
            assert(old[k] == new[i]);
        }
    } else {
        assert(old[i] == new[i]);
    }
}

/// One hunk for the gutter to display: a buffer change against HEAD, or a change that
/// exists only in the index (staged, then reverted in the buffer or never present there).
pub struct DisplayHunk {
    /// Base line space on the old side, buffer line space on the new side. For a
    /// staged-only hunk the buffer range holds the unchanged HEAD lines that the staged
    /// change targets.
    pub hunk: Hunk,
    pub staged: bool,
    /// `Some((start, len))` into the index's lines for a staged-only hunk.
    pub index_new: Option<(usize, usize)>,
}

impl ByLine for DisplayHunk {
    open spec fn line_key(&self) -> (int, int) {
        (self.hunk.new_start as int, self.hunk.new_len as int)
    }

    fn not_after(&self, other: &Self) -> (b: bool) {
        self.hunk.new_start < other.hunk.new_start || (self.hunk.new_start == other.hunk.new_start
            && self.hunk.new_len <= other.hunk.new_len)
    }
}

/// The buffer hunks with their staged flags.
pub open spec fn buffer_display(hs: Seq<Hunk>, staged: Seq<bool>) -> Seq<DisplayHunk> {
    Seq::new(hs.len(), |i: int| DisplayHunk { hunk: hs[i], staged: staged[i], index_new: None })
}

/// Whether the HEAD side of `ih` touches that of none of `hs`.
pub open spec fn clear_of(ih: Hunk, hs: Seq<Hunk>) -> bool {
    forall|i: int|
        0 <= i < hs.len() ==> !touch(
            ((#[trigger] hs[i]).old_start as int, hs[i].old_end()),
            (ih.old_start as int, ih.old_end()),
        )
}

/// By how many lines the hunks of `hs` that end at or above the base line `line` move it.
pub open spec fn shift(hs: Seq<Hunk>, line: int) -> int
    decreases hs.len(),
{
    if hs.len() == 0 {
        0
    } else {
        let h = hs.last();
        shift(hs.drop_last(), line) + if h.old_end() <= line {
            h.new_len - h.old_len
        } else {
            0
        }
    }
}

/// The display hunk for a change that only the index holds.
pub open spec fn staged_only(ih: Hunk, hs: Seq<Hunk>) -> DisplayHunk {
    let at = ih.old_start + shift(hs, ih.old_start as int);
    DisplayHunk {
        hunk: Hunk {
            old_start: ih.old_start,
            old_len: ih.old_len,
            new_start: if at < 0 {
                0
            } else {
                at as usize
            },
            new_len: ih.old_len,
        },
        staged: true,
        index_new: Some((ih.new_start, ih.new_len)),
    }
}

/// The display hunks for all changes that only the index holds, in its order.
pub open spec fn staged_only_all(ihs: Seq<Hunk>, hs: Seq<Hunk>) -> Seq<DisplayHunk>
    decreases ihs.len(),
{
    if ihs.len() == 0 {
        Seq::empty()
    } else {
        let init = staged_only_all(ihs.drop_last(), hs);
        if clear_of(ihs.last(), hs) {
            init.push(staged_only(ihs.last(), hs))
        } else {
            init
        }
    }
}

/// Whether `hs` are in order and apart on both sides, and end by the given lines.
pub open spec fn orderly(hs: Seq<Hunk>, old_end: int, new_end: int) -> bool
    decreases hs.len(),
{
    if hs.len() == 0 {
        0 <= old_end && 0 <= new_end
    } else {
        let h = hs.last();
        &&& h.old_end() <= old_end
        &&& h.new_end() <= new_end
        &&& orderly(hs.drop_last(), h.old_start as int, h.new_start as int)
    }
}

proof fn lemma_aligned_orderly(hs: Seq<Hunk>, old: Seq<Seq<char>>, new: Seq<Seq<char>>)
    requires
        aligned(hs, old, new),
    ensures
        orderly(hs, old.len() as int, new.len() as int),
    decreases hs.len(),
{
    if hs.len() > 0 {
        let h = hs.last();
        lemma_aligned_orderly(
            hs.drop_last(),
            old.take(h.old_start as int),
            new.take(h.new_start as int),
        );
    }
}

/// The first hunks of an orderly list are orderly.
proof fn lemma_orderly_take(hs: Seq<Hunk>, old_end: int, new_end: int, k: int)
    requires
        orderly(hs, old_end, new_end),
        0 <= k <= hs.len(),
    ensures
        orderly(hs.take(k), old_end, new_end),
    decreases hs.len(),
{
    if k == hs.len() {
        assert(hs.take(k) == hs);
    } else {
        let h = hs.last();
        lemma_orderly_take(hs.drop_last(), h.old_start as int, h.new_start as int, k);
        assert(hs.drop_last().take(k) == hs.take(k));
    }
}

/// A shift takes away no more lines than the base has, and adds no more than the buffer has.
proof fn lemma_shift_bounds(hs: Seq<Hunk>, line: int, old_end: int, new_end: int)
    requires
        orderly(hs, old_end, new_end),
    ensures
        -old_end <= shift(hs, line) <= new_end,
    decreases hs.len(),
{
    if hs.len() > 0 {
        let h = hs.last();
        lemma_shift_bounds(hs.drop_last(), line, h.old_start as int, h.new_start as int);
    }
}

/// Whether the HEAD side of `ih` touches none of `hs`.
fn is_clear_of(ih: Hunk, hs: &[Hunk]) -> (r: bool)
    requires
        ih.fits_old(),
        forall|i: int| 0 <= i < hs@.len() ==> (#[trigger] hs@[i]).fits_old(),
    ensures
        r == clear_of(ih, hs@),
{
    let mut i: usize = 0;
    while i < hs.len()
        invariant
            i <= hs@.len(),
            ih.fits_old(),
            forall|k: int| 0 <= k < hs@.len() ==> (#[trigger] hs@[k]).fits_old(),
            forall|k: int|
                0 <= k < i ==> !touch(
                    ((#[trigger] hs@[k]).old_start as int, hs@[k].old_end()),
                    (ih.old_start as int, ih.old_end()),
                ),
        decreases hs@.len() - i,
    {
        let h = hs[i];
        if ranges_touch(
            (h.old_start, h.old_start + h.old_len),
            (ih.old_start, ih.old_start + ih.old_len),
        ) {
            assert(hs@[i as int] == h);
            return false;
        }
        i += 1;
    }
    true
}

/// The buffer line where the HEAD line `line` stands, by the net line delta of the
/// hunks that end at or above it.
fn moved_line(hs: &[Hunk], line: usize, Ghost(new_end): Ghost<int>) -> (r: usize)
    requires
        orderly(hs@, usize::MAX as int, new_end),
        new_end <= usize::MAX,
        line + shift(hs@, line as int) <= usize::MAX,
    ensures
        r == if line + shift(hs@, line as int) < 0 {
            0
        } else {
            line + shift(hs@, line as int)
        },
{
    let mut offset: i128 = 0;
    let mut i: usize = 0;
    while i < hs.len()
        invariant
            i <= hs@.len(),
            orderly(hs@, usize::MAX as int, new_end),
            new_end <= usize::MAX,
            offset == shift(hs@.take(i as int), line as int),
            -usize::MAX <= offset <= usize::MAX,
        decreases hs@.len() - i,
    {
        let h = hs[i];
        proof {
            assert(hs@.take(i + 1).drop_last() == hs@.take(i as int));
            lemma_orderly_take(hs@, usize::MAX as int, new_end, i + 1);
            lemma_shift_bounds(hs@.take(i + 1), line as int, usize::MAX as int, new_end);
            assert(hs@.take(i + 1).last() == h);
        }
        if h.old_start + h.old_len <= line {
            offset = offset + (h.new_len as i128 - h.old_len as i128);
        }
        i += 1;
    }
    assert(hs@.take(i as int) == hs@);
    proof {
        lemma_shift_bounds(hs@, line as int, usize::MAX as int, new_end);
    }
    let at: i128 = line as i128 + offset;
    if at < 0 {
        0
    } else {
        at as usize
    }
}

/// The first buffer line after all of `hs`.
pub open spec fn buffer_end(hs: Seq<Hunk>) -> int {
    if hs.len() == 0 {
        0
    } else {
        hs.last().new_end()
    }
}

/// What the gutter displays, given the buffer hunks, their staged flags, and the index
/// hunks when there are both a HEAD and an index text.
pub open spec fn display(
    cur_hunks: Seq<Hunk>,
    staged: Seq<bool>,
    index_hunks: Option<Seq<Hunk>>,
) -> Seq<DisplayHunk> {
    match index_hunks {
        Some(ihs) => sorted_by_line(
            buffer_display(cur_hunks, staged) + staged_only_all(ihs, cur_hunks),
        ),
        None => buffer_display(cur_hunks, staged),
    }
}

/// Whether the lines of the index hunks `ihs`, and the buffer lines where those that
/// touch none of `hs` are displayed, are machine numbers.
pub open spec fn placeable(ihs: Seq<Hunk>, hs: Seq<Hunk>) -> bool {
    forall|i: int|
        0 <= i < ihs.len() ==> (#[trigger] ihs[i]).fits_old() && (clear_of(ihs[i], hs)
            ==> ihs[i].old_start + shift(hs, ihs[i].old_start as int) <= usize::MAX)
}

/// Everything the gutter should mark, from the hunks of both diffs: the buffer hunks with
/// their staged flags, and with `index_hunks` also a hunk for each index change that
/// touches none of them, sorted by buffer line.
pub fn display_from_hunks(
    cur_hunks: &[Hunk],
    staged: &[bool],
    index_hunks: Option<&[Hunk]>,
) -> (r: Vec<DisplayHunk>)
    requires
        cur_hunks@.len() == staged@.len(),
        index_hunks is Some ==> orderly(cur_hunks@, usize::MAX as int, buffer_end(cur_hunks@))
            && buffer_end(cur_hunks@) <= usize::MAX,
        index_hunks is Some ==> placeable(index_hunks->0@, cur_hunks@),
    ensures
        r@ == display(
            cur_hunks@,
            staged@,
            match index_hunks {
                Some(ihs) => Some(ihs@),
                None => None,
            },
        ),
{
    let mut out: Vec<DisplayHunk> = Vec::new();
    let mut i: usize = 0;
    while i < cur_hunks.len()
        invariant
            i <= cur_hunks@.len(),
            cur_hunks@.len() == staged@.len(),
            out@ == buffer_display(cur_hunks@, staged@).take(i as int),
        decreases cur_hunks@.len() - i,
    {
        out.push(DisplayHunk { hunk: cur_hunks[i], staged: staged[i], index_new: None });
        i += 1;
        assert(buffer_display(cur_hunks@, staged@).take(i as int) == buffer_display(
            cur_hunks@,
            staged@,
        ).take(i - 1).push(buffer_display(cur_hunks@, staged@)[i - 1]));
    }
    let ghost shown = buffer_display(cur_hunks@, staged@);
    assert(shown.take(i as int) == shown);
    match index_hunks {
        Some(ihs) => {
            let ghost end = buffer_end(cur_hunks@);
            proof {
                lemma_orderly_fits(cur_hunks@, usize::MAX as int, end);
            }
            let mut k: usize = 0;
            assert(shown + Seq::<DisplayHunk>::empty() == shown);
            while k < ihs.len()
                invariant
                    k <= ihs@.len(),
                    end == buffer_end(cur_hunks@),
                    end <= usize::MAX,
                    orderly(cur_hunks@, usize::MAX as int, end),
                    forall|j: int| 0 <= j < cur_hunks@.len() ==> (#[trigger] cur_hunks@[j]).fits(),
                    placeable(ihs@, cur_hunks@),
                    out@ == shown + staged_only_all(ihs@.take(k as int), cur_hunks@),
                decreases ihs@.len() - k,
            {
                let ih = ihs[k];
                let ghost before = out@;
                assert(ihs@[k as int].fits_old());
                assert(ihs@.take(k + 1).drop_last() == ihs@.take(k as int));
                assert(ihs@.take(k + 1).last() == ih);
                if is_clear_of(ih, cur_hunks) {
                    let new_start = moved_line(cur_hunks, ih.old_start, Ghost(end));
                    let d = DisplayHunk {
                        hunk: Hunk {
                            old_start: ih.old_start,
                            old_len: ih.old_len,
                            new_start,
                            new_len: ih.old_len,
                        },
                        staged: true,
                        index_new: Some((ih.new_start, ih.new_len)),
                    };
                    out.push(d);
                    assert(d == staged_only(ih, cur_hunks@));
                    assert(out@ == before.push(d));
                    assert(out@ == shown + staged_only_all(ihs@.take(k as int), cur_hunks@).push(d));
                }
                k += 1;
            }
            assert(ihs@.take(k as int) == ihs@);
            sort_by_line(out)
        },
        None => out,
    }
}

proof fn lemma_orderly_fits(hs: Seq<Hunk>, old_end: int, new_end: int)
    requires
        orderly(hs, old_end, new_end),
    ensures
        forall|i: int|
            0 <= i < hs.len() ==> (#[trigger] hs[i]).old_end() <= old_end && hs[i].new_end()
                <= new_end,
    decreases hs.len(),
{
    if hs.len() > 0 {
        let h = hs.last();
        let init = hs.drop_last();
        lemma_orderly_fits(init, h.old_start as int, h.new_start as int);
        assert forall|i: int| 0 <= i < hs.len() implies (#[trigger] hs[i]).old_end() <= old_end
            && hs[i].new_end() <= new_end by {
            if i < init.len() {
                assert(init[i] == hs[i]);
            }
        }
    }
}

/// The characters of a text that may be missing.
pub open spec fn opt_text(s: Option<&str>) -> Option<Seq<char>> {
    match s {
        Some(t) => Some(t@),
        None => None,
    }
}

/// Which of the buffer hunks are staged, given the index text.
pub open spec fn flags_of(
    index: Seq<char>,
    index_hunks: Seq<Hunk>,
    cur: Seq<char>,
    cur_hunks: Seq<Hunk>,
) -> Seq<bool> {
    Seq::new(
        cur_hunks.len(),
        |i: int| staged_in(lines_of(index), index_hunks, lines_of(cur), cur_hunks[i]),
    )
}

/// What the gutter displays for a buffer, given the HEAD and index texts.
pub open spec fn displayed(
    head: Option<Seq<char>>,
    index: Option<Seq<char>>,
    index_hunks: Seq<Hunk>,
    cur: Seq<char>,
) -> Seq<DisplayHunk> {
    match (head, index) {
        (Some(h), Some(ix)) => {
            let hs = hunks_between(h, cur);
            display(hs, flags_of(ix, index_hunks, cur, hs), Some(index_hunks))
        },
        (Some(base), None) | (None, Some(base)) => {
            let hs = hunks_between(base, cur);
            display(hs, Seq::new(hs.len(), |i: int| false), None)
        },
        (None, None) => Seq::empty(),
    }
}

/// Whether each of the index hunks `ihs` lies within `head_lines` lines of HEAD, or at
/// least so far from the machine limit that `cur_lines` buffer lines cannot carry it there.
pub open spec fn in_line_range(ihs: Seq<Hunk>, head_lines: nat, cur_lines: nat) -> bool {
    forall|i: int|
        0 <= i < ihs.len() ==> (#[trigger] ihs[i]).fits_old() && (ihs[i].old_end() <= head_lines
            || ihs[i].old_start + cur_lines <= isize::MAX)
}

/// Everything the gutter should mark, the union of both diffs: the hunks of the diff from
/// HEAD (or the index, before the first commit) to the buffer with their staged flags,
/// and a staged-only hunk for each index change whose buffer region is back at HEAD.
/// Without these a staged change whose edit was reverted would vanish from the editor
/// while `git diff --cached` still shows it. Sorted by buffer line.
pub fn display_hunks(
    head: Option<&str>,
    index: Option<&str>,
    index_hunks: &[Hunk],
    cur: &str,
) -> (r: Vec<DisplayHunk>)
    requires
        head is Some && index is Some ==> in_line_range(
            index_hunks@,
            lines_of(head->0@).len(),
            lines_of(cur@).len(),
        ),
    ensures
        r@ == displayed(opt_text(head), opt_text(index), index_hunks@, cur@),
        // The buffer lines of a staged-only hunk are the HEAD lines that it targets.
        head is Some && head->0@.len() > 0 ==> forall|i: int|
            0 <= i < r@.len() && (#[trigger] r@[i]).index_new is Some && r@[i].hunk.old_end()
                <= lines_of(head->0@).len() ==> at_head(
                r@[i].hunk,
                lines_of(head->0@),
                lines_of(cur@),
            ),
{
    let base: &str = match head {
        Some(h) => h,
        None => match index {
            Some(ix) => ix,
            None => {
                return Vec::new();
            },
        },
    };
    let cur_hunks = hunks(base, cur);
    let mut plain = true;
    let mut staged: Vec<bool> = vec![false; cur_hunks.len()];
    if let (Some(_), Some(ix)) = (head, index) {
        staged = staged_flags(ix, index_hunks, cur, cur_hunks.as_slice());
        plain = false;
    }
    let ghost hs = cur_hunks@;
    let ghost n = lines_of(cur@).len() as int;
    proof {
        if hs.len() > 0 {
            lemma_block_bounds(hs, lines_of(base@), lines_of(cur@), hs.len() - 1);
            lemma_aligned_orderly(hs, lines_of(base@), lines_of(cur@));
        }
        assert(buffer_end(hs) <= n);
        if hs.len() > 0 {
            assert(hs[hs.len() - 1].fits());
        }
        match (opt_text(head), opt_text(index)) {
            (Some(h), Some(ix)) => {
                assert(staged@ == flags_of(ix, index_hunks@, cur@, hs));
            },
            _ => {
                assert(staged@ == Seq::new(hs.len(), |i: int| false));
            },
        }
    }
    if plain {
        let r = display_from_hunks(cur_hunks.as_slice(), staged.as_slice(), None);
        r
    } else {
        proof {
            lemma_in_range_placeable(index_hunks@, hs, lines_of(base@), lines_of(cur@), base@.len() > 0);
            if head->0@.len() > 0 {
                lemma_displayed_at_head(
                    hs,
                    staged@,
                    index_hunks@,
                    lines_of(head->0@),
                    lines_of(cur@),
                );
            }
        }
        display_from_hunks(cur_hunks.as_slice(), staged.as_slice(), Some(index_hunks))
    }
}

/// Whether the buffer lines of `h` are its base lines.
pub open spec fn at_head(h: Hunk, head: Seq<Seq<char>>, cur: Seq<Seq<char>>) -> bool {
    &&& h.new_end() <= cur.len()
    &&& h.new_len == h.old_len
    &&& cur.subrange(h.new_start as int, h.new_end()) == head.subrange(
        h.old_start as int,
        h.old_end(),
    )
}

/// All hunks of a diff together move the end of the last one from its base line to its
/// buffer line.
proof fn lemma_shift_all(hs: Seq<Hunk>, old: Seq<Seq<char>>, new: Seq<Seq<char>>, line: int)
    requires
        aligned(hs, old, new),
        old.len() <= line,
    ensures
        shift(hs, line) == new.len() - old.len(),
    decreases hs.len(),
{
    if hs.len() > 0 {
        let h = hs.last();
        let (p, q) = (old.take(h.old_start as int), new.take(h.new_start as int));
        lemma_shift_all(hs.drop_last(), p, q, line);
        assert(old.skip(h.old_end()).len() == new.skip(h.new_end()).len());
    }
}

/// HEAD lines that touch no change stand unchanged in the buffer, moved by the changes
/// above them.
proof fn lemma_unchanged_lines(
    hs: Seq<Hunk>,
    old: Seq<Seq<char>>,
    new: Seq<Seq<char>>,
    ih: Hunk,
)
    requires
        aligned(hs, old, new),
        clear_of(ih, hs),
        ih.old_end() <= old.len(),
    ensures
        0 <= ih.old_start + shift(hs, ih.old_start as int),
        ih.old_start + shift(hs, ih.old_start as int) + ih.old_len <= new.len(),
        new.subrange(
            ih.old_start + shift(hs, ih.old_start as int),
            ih.old_start + shift(hs, ih.old_start as int) + ih.old_len,
        ) == old.subrange(ih.old_start as int, ih.old_end()),
    decreases hs.len(),
{
    let line = ih.old_start as int;
    if hs.len() > 0 {
        let h = hs.last();
        let init = hs.drop_last();
        let (p, q) = (old.take(h.old_start as int), new.take(h.new_start as int));
        assert(!touch((hs[hs.len() - 1].old_start as int, h.old_end()), (line, ih.old_end())));
        if h.old_end() < line {
            lemma_shift_all(init, p, q, line);
            let at = line + shift(hs, line);
            let (s, t) = (old.skip(h.old_end()), new.skip(h.new_end()));
            assert(s == t);
            assert(s.len() == old.len() - h.old_end() && t.len() == new.len() - h.new_end());
            assert(at == line - h.old_end() + h.new_end());
            assert(old.subrange(line, ih.old_end()) == s.subrange(
                line - h.old_end(),
                ih.old_end() - h.old_end(),
            ));
            assert(new.subrange(at, at + ih.old_len) == t.subrange(
                at - h.new_end(),
                at + ih.old_len - h.new_end(),
            ));
        } else {
            assert forall|i: int| 0 <= i < init.len() implies !touch(
                ((#[trigger] init[i]).old_start as int, init[i].old_end()),
                (line, ih.old_end()),
            ) by {
                assert(init[i] == hs[i]);
            }
            lemma_unchanged_lines(init, p, q, ih);
            let at = line + shift(init, line);
            assert(old.subrange(line, ih.old_end()) == p.subrange(line, ih.old_end()));
            assert(new.subrange(at, at + ih.old_len) == q.subrange(at, at + ih.old_len));
        }
    }
}

/// Index hunks in range can be displayed.
proof fn lemma_in_range_placeable(
    ihs: Seq<Hunk>,
    hs: Seq<Hunk>,
    head: Seq<Seq<char>>,
    cur: Seq<Seq<char>>,
    diffed: bool,
)
    requires
        in_line_range(ihs, head.len(), cur.len()),
        diffed ==> aligned(hs, head, cur) && cur.len() <= usize::MAX,
        !diffed ==> hs.len() == 0,
    ensures
        placeable(ihs, hs),
{
    assert forall|i: int| 0 <= i < ihs.len() && clear_of(#[trigger] ihs[i], hs) implies ihs[i].old_start
        + shift(hs, ihs[i].old_start as int) <= usize::MAX by {
        let line = ihs[i].old_start as int;
        if diffed {
            lemma_aligned_orderly(hs, head, cur);
            lemma_shift_bounds(hs, line, head.len() as int, cur.len() as int);
            if ihs[i].old_end() <= head.len() {
                lemma_unchanged_lines(hs, head, cur, ihs[i]);
            }
        }
    }
}

proof fn lemma_staged_only_at_head(
    ihs: Seq<Hunk>,
    hs: Seq<Hunk>,
    head: Seq<Seq<char>>,
    cur: Seq<Seq<char>>,
    i: int,
)
    requires
        aligned(hs, head, cur),
        placeable(ihs, hs),
        0 <= i < staged_only_all(ihs, hs).len(),
        staged_only_all(ihs, hs)[i].hunk.old_end() <= head.len(),
    ensures
        at_head(staged_only_all(ihs, hs)[i].hunk, head, cur),
    decreases ihs.len(),
{
    let init = staged_only_all(ihs.drop_last(), hs);
    assert(ihs[ihs.len() - 1].fits_old());
    assert(placeable(ihs.drop_last(), hs)) by {
        assert forall|k: int| 0 <= k < ihs.drop_last().len() implies (
        #[trigger] ihs.drop_last()[k]) == ihs[k] by {}
    }
    if i < init.len() {
        lemma_staged_only_at_head(ihs.drop_last(), hs, head, cur, i);
    } else {
        lemma_unchanged_lines(hs, head, cur, ihs.last());
    }
}

proof fn lemma_displayed_at_head(
    hs: Seq<Hunk>,
    staged: Seq<bool>,
    ihs: Seq<Hunk>,
    head: Seq<Seq<char>>,
    cur: Seq<Seq<char>>,
)
    requires
        aligned(hs, head, cur),
        placeable(ihs, hs),
    ensures
        forall|i: int|
            0 <= i < display(hs, staged, Some(ihs)).len() && (#[trigger] display(
                hs,
                staged,
                Some(ihs),
            )[i]).index_new is Some && display(hs, staged, Some(ihs))[i].hunk.old_end()
                <= head.len() ==> at_head(display(hs, staged, Some(ihs))[i].hunk, head, cur),
{
    broadcast use vstd::seq_lib::group_to_multiset_ensures;

    let all = buffer_display(hs, staged) + staged_only_all(ihs, hs);
    let shown = display(hs, staged, Some(ihs));
    law_sort_orders_and_keeps(all);
    assert forall|i: int|
        0 <= i < shown.len() && (#[trigger] shown[i]).index_new is Some
            && shown[i].hunk.old_end() <= head.len() implies at_head(shown[i].hunk, head, cur) by {
        assert(shown.contains(shown[i]));
        assert(shown.to_multiset().count(shown[i]) > 0);
        assert(all.contains(shown[i]));
        let k = choose|k: int| 0 <= k < all.len() && all[k] == shown[i];
        if k < hs.len() {
            assert(all[k] == buffer_display(hs, staged)[k]);
        } else {
            assert(all[k] == staged_only_all(ihs, hs)[k - hs.len()]);
            lemma_staged_only_at_head(ihs, hs, head, cur, k - hs.len());
        }
    }
}

/// The display is the union of both diffs, in line order. Every buffer hunk is in it with
/// its flag. So is every index hunk that touches no buffer hunk, as a staged-only hunk;
/// and there is nothing else.
pub proof fn law_display_is_union(hs: Seq<Hunk>, staged: Seq<bool>, ihs: Seq<Hunk>)
    ensures
        in_line_order(display(hs, staged, Some(ihs))),
        display(hs, staged, Some(ihs)).to_multiset() == buffer_display(hs, staged).to_multiset().add(
            staged_only_all(ihs, hs).to_multiset(),
        ),
        forall|i: int|
            0 <= i < hs.len() ==> display(hs, staged, Some(ihs)).contains(
                #[trigger] buffer_display(hs, staged)[i],
            ),
        forall|i: int|
            0 <= i < ihs.len() && clear_of(#[trigger] ihs[i], hs) ==> display(
                hs,
                staged,
                Some(ihs),
            ).contains(staged_only(ihs[i], hs)),
{
    broadcast use vstd::seq_lib::group_to_multiset_ensures;

    let (mine, theirs) = (buffer_display(hs, staged), staged_only_all(ihs, hs));
    let shown = display(hs, staged, Some(ihs));
    law_sort_orders_and_keeps(mine + theirs);
    vstd::seq_lib::lemma_multiset_commutative(mine, theirs);
    assert forall|i: int| 0 <= i < hs.len() implies shown.contains(#[trigger] mine[i]) by {
        assert((mine + theirs)[i] == mine[i]);
        assert((mine + theirs).contains(mine[i]));
        assert(shown.to_multiset().count(mine[i]) > 0);
    }
    assert forall|i: int| 0 <= i < ihs.len() && clear_of(#[trigger] ihs[i], hs) implies shown.contains(
        staged_only(ihs[i], hs),
    ) by {
        lemma_staged_only_listed(ihs, hs, i);
        let k = choose|k: int| 0 <= k < theirs.len() && theirs[k] == staged_only(ihs[i], hs);
        assert((mine + theirs)[hs.len() + k] == theirs[k]);
        assert((mine + theirs).contains(theirs[k]));
        assert(shown.to_multiset().count(theirs[k]) > 0);
    }
}

proof fn lemma_staged_only_listed(ihs: Seq<Hunk>, hs: Seq<Hunk>, i: int)
    requires
        0 <= i < ihs.len(),
        clear_of(ihs[i], hs),
    ensures
        staged_only_all(ihs, hs).contains(staged_only(ihs[i], hs)),
    decreases ihs.len(),
{
    let init = staged_only_all(ihs.drop_last(), hs);
    let all = staged_only_all(ihs, hs);
    if i < ihs.len() - 1 {
        lemma_staged_only_listed(ihs.drop_last(), hs, i);
        let k = choose|k: int| 0 <= k < init.len() && init[k] == staged_only(ihs[i], hs);
        assert(all[k] == init[k]);
    } else {
        assert(all[all.len() - 1] == staged_only(ihs[i], hs));
    }
}

/// When the buffer is back at HEAD, every staged change is still displayed, over its own
/// HEAD lines.
pub proof fn law_reverted_buffer_shows_index(ihs: Seq<Hunk>)
    ensures
        staged_only_all(ihs, Seq::empty()).len() == ihs.len(),
        forall|i: int|
            0 <= i < ihs.len() ==> (#[trigger] staged_only_all(ihs, Seq::empty())[i]) == (DisplayHunk {
                hunk: Hunk {
                    old_start: ihs[i].old_start,
                    old_len: ihs[i].old_len,
                    new_start: ihs[i].old_start,
                    new_len: ihs[i].old_len,
                },
                staged: true,
                index_new: Some((ihs[i].new_start, ihs[i].new_len)),
            }),
    decreases ihs.len(),
{
    if ihs.len() > 0 {
        law_reverted_buffer_shows_index(ihs.drop_last());
    }
}

/// What the marker bits of line `i` say: bit 1 is on in the lines of an addition, bit 2 in
/// those of a modification, bit 4 on the line below removed lines, and bit 8 on the last line
/// when lines were removed at the end. No other bit is on.
pub proof fn law_marks_by_line_numbers(hs: Seq<Hunk>, n: int, i: int)
    ensures
        marks_at(hs, n, i) & 1u8 != 0 <==> exists|k: int|
            0 <= k < hs.len() && (#[trigger] hs[k]).old_len == 0 && hs[k].new_len > 0
                && hs[k].new_start <= i < hs[k].new_start + hs[k].new_len,
        marks_at(hs, n, i) & 2u8 != 0 <==> exists|k: int|
            0 <= k < hs.len() && (#[trigger] hs[k]).old_len > 0 && hs[k].new_len > 0
                && hs[k].new_start <= i < hs[k].new_start + hs[k].new_len,
        marks_at(hs, n, i) & 4u8 != 0 <==> exists|k: int|
            0 <= k < hs.len() && (#[trigger] hs[k]).new_len == 0 && hs[k].new_start < n && i
                == hs[k].new_start,
        marks_at(hs, n, i) & 8u8 != 0 <==> exists|k: int|
            0 <= k < hs.len() && (#[trigger] hs[k]).new_len == 0 && hs[k].new_start >= n && i == n
                - 1,
        marks_at(hs, n, i) <= 15,
{
    assert(1u8 | 2 | 4 | 8 == 15) by (bit_vector);
    law_marks_mean(hs, n, i);
    if some_shows(hs, n, i, ADDED) {
        let k = choose|k: int|
            0 <= k < hs.len() && shows(#[trigger] hs[k], n, i) && mark_bit(hs[k], n) == ADDED;
        assert(hs[k].old_len == 0);
    }
    if some_shows(hs, n, i, MODIFIED) {
        let k = choose|k: int|
            0 <= k < hs.len() && shows(#[trigger] hs[k], n, i) && mark_bit(hs[k], n) == MODIFIED;
        assert(hs[k].old_len > 0);
    }
    if some_shows(hs, n, i, DELETED_ABOVE) {
        let k = choose|k: int|
            0 <= k < hs.len() && shows(#[trigger] hs[k], n, i) && mark_bit(hs[k], n)
                == DELETED_ABOVE;
        assert(hs[k].new_len == 0);
    }
    if some_shows(hs, n, i, DELETED_BELOW) {
        let k = choose|k: int|
            0 <= k < hs.len() && shows(#[trigger] hs[k], n, i) && mark_bit(hs[k], n)
                == DELETED_BELOW;
        assert(hs[k].new_len == 0);
    }
}

/// What the staged bits of line `i` say, beyond what was on before: bit 16 is on in the lines
/// of a staged hunk, and bit 32 where a staged deletion is marked. All other bits stay.
pub proof fn law_staged_bits_by_line_numbers(
    mark: u8,
    hs: Seq<Hunk>,
    staged: Seq<bool>,
    n: int,
    i: int,
)
    requires
        hs.len() <= staged.len(),
    ensures
        staged_marks_at(mark, hs, staged, n, i) & 16u8 != 0 <==> mark & 16u8 != 0 || exists|k: int|
            0 <= k < hs.len() && staged[k] && (#[trigger] hs[k]).new_len > 0 && hs[k].new_start <= i
                < hs[k].new_start + hs[k].new_len,
        staged_marks_at(mark, hs, staged, n, i) & 32u8 != 0 <==> mark & 32u8 != 0 || exists|k: int|
            0 <= k < hs.len() && staged[k] && (#[trigger] hs[k]).new_len == 0 && i == if hs[k].new_start
                < n {
                hs[k].new_start as int
            } else {
                n - 1
            },
        staged_marks_at(mark, hs, staged, n, i) & 0xcfu8 == mark & 0xcfu8,
{
    law_staged_bits_mean(mark, hs, staged, n, i);
    lemma_other_bits_stay(mark, hs, staged, n, i);
    if some_staged_shows(hs, staged, n, i, STAGED) {
        let k = choose|k: int|
            0 <= k < hs.len() && staged[k] && shows(#[trigger] hs[k], n, i) && staged_bit(hs[k])
                == STAGED;
        assert(hs[k].new_len > 0);
    }
    if some_staged_shows(hs, staged, n, i, STAGED_DEL) {
        let k = choose|k: int|
            0 <= k < hs.len() && staged[k] && shows(#[trigger] hs[k], n, i) && staged_bit(hs[k])
                == STAGED_DEL;
        assert(hs[k].new_len == 0);
    }
}

proof fn lemma_other_bits_stay(mark: u8, hs: Seq<Hunk>, staged: Seq<bool>, n: int, i: int)
    ensures
        staged_marks_at(mark, hs, staged, n, i) & 0xcfu8 == mark & 0xcfu8,
    decreases hs.len(),
{
    if hs.len() > 0 && staged.len() >= hs.len() {
        lemma_other_bits_stay(mark, hs.drop_last(), staged, n, i);
        let x = staged_marks_at(mark, hs.drop_last(), staged, n, i);
        assert((x | 16u8) & 0xcfu8 == x & 0xcfu8 && (x | 32u8) & 0xcfu8 == x & 0xcfu8) by (bit_vector);
    }
}

/// A hunk of a diff ends before the next ones start.
proof fn lemma_hunks_in_order(
    hs: Seq<Hunk>,
    old: Seq<Seq<char>>,
    new: Seq<Seq<char>>,
    i: int,
    j: int,
)
    requires
        aligned(hs, old, new),
        0 <= i < j < hs.len(),
    ensures
        hs[i].old_end() <= hs[j].old_start,
        hs[i].new_end() <= hs[j].new_start,
    decreases hs.len(),
{
    let h = hs.last();
    let init = hs.drop_last();
    let (p, q) = (old.take(h.old_start as int), new.take(h.new_start as int));
    if j == hs.len() - 1 {
        lemma_block_bounds(init, p, q, i);
    } else {
        lemma_hunks_in_order(init, p, q, i, j);
    }
}

/// The hunks above a base line move it as far as the last of them moves its end.
proof fn lemma_shift_of_last_above(
    hs: Seq<Hunk>,
    old: Seq<Seq<char>>,
    new: Seq<Seq<char>>,
    line: int,
    k: int,
)
    requires
        aligned(hs, old, new),
        -1 <= k < hs.len(),
        k >= 0 ==> hs[k].old_end() <= line,
        k + 1 < hs.len() ==> line < hs[k + 1].old_end(),
    ensures
        shift(hs, line) == if k < 0 {
            0
        } else {
            hs[k].new_end() - hs[k].old_end()
        },
    decreases hs.len(),
{
    if hs.len() > 0 {
        let h = hs.last();
        let init = hs.drop_last();
        let (p, q) = (old.take(h.old_start as int), new.take(h.new_start as int));
        if k == hs.len() - 1 {
            lemma_shift_all(init, p, q, line);
        } else {
            if k + 1 < hs.len() - 1 {
                lemma_hunks_in_order(hs, old, new, k + 1, hs.len() - 1);
            }
            lemma_shift_of_last_above(init, p, q, line, k);
        }
    }
}

/// Whether the HEAD lines of `ih` end before those of `h` start, or start after they end.
pub open spec fn lies_apart(ih: Hunk, h: Hunk) -> bool {
    ih.old_start + ih.old_len < h.old_start || h.old_start + h.old_len < ih.old_start
}

/// Every hunk of the buffer is displayed as it is, with its flag.
pub proof fn law_buffer_hunks_are_displayed(
    hs: Seq<Hunk>,
    staged: Seq<bool>,
    ihs: Seq<Hunk>,
    i: int,
)
    requires
        0 <= i < hs.len(),
    ensures
        display(hs, staged, Some(ihs)).contains(
            DisplayHunk { hunk: hs[i], staged: staged[i], index_new: None },
        ),
        display(hs, staged, None).len() == hs.len(),
        display(hs, staged, None)[i] == (DisplayHunk {
            hunk: hs[i],
            staged: staged[i],
            index_new: None,
        }),
{
    law_display_is_union(hs, staged, ihs);
    assert(display(hs, staged, Some(ihs)).contains(buffer_display(hs, staged)[i]));
}

/// An index hunk that lies apart from every buffer hunk is displayed as staged, over the
/// buffer lines where its HEAD lines stand: as far down as the last buffer hunk above it, the
/// one with number `k`, has moved them, or where they were if there is none.
pub proof fn law_staged_only_hunks_are_displayed(
    hs: Seq<Hunk>,
    staged: Seq<bool>,
    ihs: Seq<Hunk>,
    head: Seq<Seq<char>>,
    cur: Seq<Seq<char>>,
    i: int,
    k: int,
    at: usize,
)
    requires
        aligned(hs, head, cur),
        0 <= i < ihs.len(),
        ihs[i].old_start + ihs[i].old_len <= head.len(),
        forall|j: int| 0 <= j < hs.len() ==> lies_apart(ihs[i], #[trigger] hs[j]),
        -1 <= k < hs.len(),
        k >= 0 ==> hs[k].old_start + hs[k].old_len <= ihs[i].old_start,
        k + 1 < hs.len() ==> ihs[i].old_start < hs[k + 1].old_start + hs[k + 1].old_len,
        at == ihs[i].old_start + if k < 0 {
            0
        } else {
            hs[k].new_start + hs[k].new_len - (hs[k].old_start + hs[k].old_len)
        },
    ensures
        display(hs, staged, Some(ihs)).contains(
            DisplayHunk {
                hunk: Hunk {
                    old_start: ihs[i].old_start,
                    old_len: ihs[i].old_len,
                    new_start: at,
                    new_len: ihs[i].old_len,
                },
                staged: true,
                index_new: Some((ihs[i].new_start, ihs[i].new_len)),
            },
        ),
{
    law_display_is_union(hs, staged, ihs);
    assert(clear_of(ihs[i], hs)) by {
        assert forall|j: int| 0 <= j < hs.len() implies !touch(
            ((#[trigger] hs[j]).old_start as int, hs[j].old_end()),
            (ihs[i].old_start as int, ihs[i].old_end()),
        ) by {
            assert(lies_apart(ihs[i], hs[j]));
        }
    }
    lemma_shift_of_last_above(hs, head, cur, ihs[i].old_start as int, k);
    assert(display(hs, staged, Some(ihs)).contains(staged_only(ihs[i], hs)));
}

proof fn lemma_staged_only_from(ihs: Seq<Hunk>, hs: Seq<Hunk>, i: int) -> (k: int)
    requires
        0 <= i < staged_only_all(ihs, hs).len(),
    ensures
        0 <= k < ihs.len(),
        clear_of(ihs[k], hs),
        staged_only_all(ihs, hs)[i] == staged_only(ihs[k], hs),
    decreases ihs.len(),
{
    let init = staged_only_all(ihs.drop_last(), hs);
    if i < init.len() {
        let k = lemma_staged_only_from(ihs.drop_last(), hs, i);
        assert(ihs.drop_last()[k] == ihs[k]);
        k
    } else {
        ihs.len() - 1
    }
}

/// Nothing else is displayed: what is displayed is a buffer hunk with its flag, or a staged
/// change over its HEAD lines that lies apart from every buffer hunk. In order, the first
/// buffer line never goes down, and where it stays the number of lines never does.
pub proof fn law_nothing_else_is_displayed(
    hs: Seq<Hunk>,
    staged: Seq<bool>,
    ihs: Seq<Hunk>,
    d: int,
)
    requires
        0 <= d < display(hs, staged, Some(ihs)).len(),
    ensures
        ({
            let shown = display(hs, staged, Some(ihs));
            &&& shown[d].index_new is None ==> exists|i: int|
                0 <= i < hs.len() && #[trigger] hs[i] == shown[d].hunk && staged[i] == shown[d].staged
            &&& shown[d].index_new is Some ==> shown[d].staged && shown[d].hunk.new_len
                == shown[d].hunk.old_len && exists|i: int|
                {
                    &&& 0 <= i < ihs.len()
                    &&& (#[trigger] ihs[i]).old_start == shown[d].hunk.old_start
                    &&& ihs[i].old_len == shown[d].hunk.old_len
                    &&& shown[d].index_new == Some((ihs[i].new_start, ihs[i].new_len))
                    &&& forall|j: int| 0 <= j < hs.len() ==> lies_apart(ihs[i], #[trigger] hs[j])
                }
            &&& d > 0 ==> shown[d - 1].hunk.new_start < shown[d].hunk.new_start || (shown[d
                - 1].hunk.new_start == shown[d].hunk.new_start && shown[d - 1].hunk.new_len
                <= shown[d].hunk.new_len)
        }),
{
    broadcast use vstd::seq_lib::group_to_multiset_ensures;

    let (mine, theirs) = (buffer_display(hs, staged), staged_only_all(ihs, hs));
    let all = mine + theirs;
    let shown = display(hs, staged, Some(ihs));
    law_sort_orders_and_keeps(all);
    if d > 0 {
        crate::sort::law_sort_is_by_first_then_second(all, d - 1, d);
    }
    assert(shown.contains(shown[d]));
    assert(shown.to_multiset().count(shown[d]) > 0);
    assert(all.contains(shown[d]));
    let k = choose|k: int| 0 <= k < all.len() && all[k] == shown[d];
    if k < hs.len() {
        assert(all[k] == mine[k]);
        assert(hs[k] == shown[d].hunk);
    } else {
        assert(all[k] == theirs[k - hs.len()]);
        let i = lemma_staged_only_from(ihs, hs, k - hs.len());
        assert(ihs[i].old_start == shown[d].hunk.old_start);
        assert forall|j: int| 0 <= j < hs.len() implies lies_apart(ihs[i], #[trigger] hs[j]) by {
            assert(!touch(
                (hs[j].old_start as int, hs[j].old_end()),
                (ihs[i].old_start as int, ihs[i].old_end()),
            ));
        }
    }
}

/// The display has one entry for each buffer hunk and one for each index hunk that lies apart
/// from all of these.
pub proof fn law_display_has_one_entry_each(hs: Seq<Hunk>, staged: Seq<bool>, ihs: Seq<Hunk>)
    ensures
        display(hs, staged, Some(ihs)).len() == hs.len() + ihs.filter(
            |ih: Hunk| forall|j: int| 0 <= j < hs.len() ==> lies_apart(ih, #[trigger] hs[j]),
        ).len(),
{
    law_sort_orders_and_keeps(buffer_display(hs, staged) + staged_only_all(ihs, hs));
    lemma_staged_only_count(ihs, hs);
}

proof fn lemma_staged_only_count(ihs: Seq<Hunk>, hs: Seq<Hunk>)
    ensures
        staged_only_all(ihs, hs).len() == ihs.filter(
            |ih: Hunk| forall|j: int| 0 <= j < hs.len() ==> lies_apart(ih, #[trigger] hs[j]),
        ).len(),
    decreases ihs.len(),
{
    let f = |ih: Hunk| forall|j: int| 0 <= j < hs.len() ==> lies_apart(ih, #[trigger] hs[j]);
    reveal(Seq::filter);
    if ihs.len() > 0 {
        lemma_staged_only_count(ihs.drop_last(), hs);
        let ih = ihs.last();
        if f(ih) {
            assert forall|j: int| 0 <= j < hs.len() implies !touch(
                ((#[trigger] hs[j]).old_start as int, hs[j].old_end()),
                (ih.old_start as int, ih.old_end()),
            ) by {
                assert(lies_apart(ih, hs[j]));
            }
        }
        if clear_of(ih, hs) {
            assert forall|j: int| 0 <= j < hs.len() implies lies_apart(ih, #[trigger] hs[j]) by {
                assert(!touch(
                    (hs[j].old_start as int, hs[j].old_end()),
                    (ih.old_start as int, ih.old_end()),
                ));
            }
        }
    }
}

/// With both a HEAD and an index text, the buffer is compared with HEAD, and the flags tell
/// what the index has of it. With only one of them that is the base, and nothing is staged;
/// with none there is nothing to display.
pub proof fn law_display_compares_with_head(
    head: Seq<char>,
    index: Seq<char>,
    ihs: Seq<Hunk>,
    cur: Seq<char>,
    i: int,
)
    requires
        0 <= i < hunks_between(head, cur).len(),
    ensures
        displayed(Some(head), Some(index), ihs, cur).contains(
            DisplayHunk {
                hunk: hunks_between(head, cur)[i],
                staged: staged_in(
                    lines_of(index),
                    ihs,
                    lines_of(cur),
                    hunks_between(head, cur)[i],
                ),
                index_new: None,
            },
        ),
        displayed(Some(head), None, ihs, cur).len() == hunks_between(head, cur).len(),
        displayed(Some(head), None, ihs, cur)[i] == (DisplayHunk {
            hunk: hunks_between(head, cur)[i],
            staged: false,
            index_new: None,
        }),
        displayed(None, Some(head), ihs, cur) == displayed(Some(head), None, ihs, cur),
        displayed(None, None, ihs, cur).len() == 0,
{
    let hs = hunks_between(head, cur);
    law_buffer_hunks_are_displayed(hs, flags_of(index, ihs, cur, hs), ihs, i);
}

/// A text that may be missing is missing or has its characters.
pub proof fn law_text_is_there_or_not(t: &str)
    ensures
        opt_text(Some(t)) == Some(t@),
        opt_text(None) is None,
{
}

/// With both a HEAD and an index text, what is staged and apart from every change of the
/// buffer is displayed too, over its HEAD lines as they stand in the buffer; and there is one
/// entry for each of these and of the changes of the buffer.
pub proof fn law_display_shows_what_is_staged(
    head: Seq<char>,
    index: Seq<char>,
    ihs: Seq<Hunk>,
    cur: Seq<char>,
    i: int,
    k: int,
    at: usize,
)
    requires
        aligned(hunks_between(head, cur), lines_of(head), lines_of(cur)),
        0 <= i < ihs.len(),
        ihs[i].old_start + ihs[i].old_len <= lines_of(head).len(),
        forall|j: int|
            0 <= j < hunks_between(head, cur).len() ==> lies_apart(
                ihs[i],
                #[trigger] hunks_between(head, cur)[j],
            ),
        -1 <= k < hunks_between(head, cur).len(),
        ({
            let hs = hunks_between(head, cur);
            &&& k >= 0 ==> hs[k].old_start + hs[k].old_len <= ihs[i].old_start
            &&& k + 1 < hs.len() ==> ihs[i].old_start < hs[k + 1].old_start + hs[k + 1].old_len
            &&& at == ihs[i].old_start + if k < 0 {
                0
            } else {
                hs[k].new_start + hs[k].new_len - (hs[k].old_start + hs[k].old_len)
            }
        }),
    ensures
        displayed(Some(head), Some(index), ihs, cur).contains(
            DisplayHunk {
                hunk: Hunk {
                    old_start: ihs[i].old_start,
                    old_len: ihs[i].old_len,
                    new_start: at,
                    new_len: ihs[i].old_len,
                },
                staged: true,
                index_new: Some((ihs[i].new_start, ihs[i].new_len)),
            },
        ),
        displayed(Some(head), Some(index), ihs, cur).len() == hunks_between(head, cur).len()
            + ihs.filter(
            |ih: Hunk|
                forall|j: int|
                    0 <= j < hunks_between(head, cur).len() ==> lies_apart(
                        ih,
                        #[trigger] hunks_between(head, cur)[j],
                    ),
        ).len(),
{
    let hs = hunks_between(head, cur);
    let staged = flags_of(index, ihs, cur, hs);
    law_staged_only_hunks_are_displayed(
        hs,
        staged,
        ihs,
        lines_of(head),
        lines_of(cur),
        i,
        k,
        at,
    );
    law_display_has_one_entry_each(hs, staged, ihs);
}

} // verus!
