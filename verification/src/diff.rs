//! Line diffs for the editor gutter, modeled on VS Code and Zed.
//!
//! The gutter diffs the buffer against HEAD, so a change stays marked until it is
//! committed. Which of its hunks are staged comes from comparing the diff HEAD to index
//! with the diff HEAD to buffer. All texts are in `\n` line space (see
//! [`normalize_newlines`]).

use similar::{capture_diff_slices, Algorithm, DiffOp};
use vstd::prelude::*;

use crate::text::{lines_of, split, texts};

verus! {

/// One changed block between the base and the current buffer, in both line spaces.
/// `old_len == 0` is a pure addition; `new_len == 0` is a pure deletion, whose removed
/// lines sat at the `new_start` boundary of the current buffer.
#[derive(Clone, Copy, Debug, PartialEq, Eq, Structural)]
pub struct Hunk {
    pub old_start: usize,
    pub old_len: usize,
    pub new_start: usize,
    pub new_len: usize,
}

impl Hunk {
    /// The line of the base after the block.
    pub open spec fn old_end(self) -> int {
        self.old_start + self.old_len
    }

    /// The line of the buffer after the block.
    pub open spec fn new_end(self) -> int {
        self.new_start + self.new_len
    }

    /// Whether the block has lines, on one side at least.
    pub open spec fn is_filled(self) -> bool {
        self.old_len + self.new_len > 0
    }

    /// Whether the base end of the block is a machine number.
    pub open spec fn fits_old(self) -> bool {
        self.old_end() <= usize::MAX
    }

    /// Whether the buffer end of the block is a machine number.
    pub open spec fn fits_new(self) -> bool {
        self.new_end() <= usize::MAX
    }

    /// Whether both ends of the block are machine numbers.
    pub open spec fn fits(self) -> bool {
        self.fits_old() && self.fits_new()
    }
}

/// One step of an edit script from an old list of lines to a new one.
#[derive(Clone, Copy, Debug, PartialEq, Eq, Structural)]
pub enum LineOp {
    Equal { old_index: usize, new_index: usize, len: usize },
    Insert { old_index: usize, new_index: usize, new_len: usize },
    Delete { old_index: usize, old_len: usize, new_index: usize },
    Replace { old_index: usize, old_len: usize, new_index: usize, new_len: usize },
}

impl LineOp {
    /// The lines that the step takes up, on both sides.
    pub open spec fn block(self) -> Hunk {
        match self {
            LineOp::Equal { old_index, new_index, len } => Hunk {
                old_start: old_index,
                old_len: len,
                new_start: new_index,
                new_len: len,
            },
            LineOp::Insert { old_index, new_index, new_len } => Hunk {
                old_start: old_index,
                old_len: 0,
                new_start: new_index,
                new_len,
            },
            LineOp::Delete { old_index, old_len, new_index } => Hunk {
                old_start: old_index,
                old_len,
                new_start: new_index,
                new_len: 0,
            },
            LineOp::Replace { old_index, old_len, new_index, new_len } => Hunk {
                old_start: old_index,
                old_len,
                new_start: new_index,
                new_len,
            },
        }
    }
}

/// Whether `ops`, in order, part both lists into blocks, where the lines of an equal
/// block are the same on both sides.
pub open spec fn edit_script(ops: Seq<LineOp>, old: Seq<Seq<char>>, new: Seq<Seq<char>>) -> bool
    decreases ops.len(),
{
    if ops.len() == 0 {
        old.len() == 0 && new.len() == 0
    } else {
        let b = ops.last().block();
        &&& b.old_end() == old.len()
        &&& b.new_end() == new.len()
        &&& ops.last() is Equal ==> old.skip(b.old_start as int) == new.skip(b.new_start as int)
        &&& edit_script(ops.drop_last(), old.take(b.old_start as int), new.take(b.new_start as int))
    }
}

/// The changed blocks of an edit script.
pub open spec fn changed(ops: Seq<LineOp>) -> Seq<Hunk>
    decreases ops.len(),
{
    if ops.len() == 0 {
        Seq::empty()
    } else if ops.last() is Equal {
        changed(ops.drop_last())
    } else {
        changed(ops.drop_last()).push(ops.last().block())
    }
}

/// Whether `hs` are the differences between `old` and `new`: in order, apart from each
/// other, and with the same lines on both sides before, between and after them.
pub open spec fn aligned(hs: Seq<Hunk>, old: Seq<Seq<char>>, new: Seq<Seq<char>>) -> bool
    decreases hs.len(),
{
    if hs.len() == 0 {
        old == new
    } else {
        let h = hs.last();
        &&& h.old_end() <= old.len()
        &&& h.new_end() <= new.len()
        &&& old.skip(h.old_end()) == new.skip(h.new_end())
        &&& aligned(hs.drop_last(), old.take(h.old_start as int), new.take(h.new_start as int))
    }
}

/// The edit script that Myers' algorithm finds between two lists of lines.
pub uninterp spec fn myers_ops(old: Seq<Seq<char>>, new: Seq<Seq<char>>) -> Seq<LineOp>;

/// `similar::capture_diff_slices` with `Algorithm::Myers`, on whole lines. Which of the
/// possible edit scripts it finds is left to the name [`myers_ops`]; what is claimed of
/// it is that its operations, in order, cover both lists without gaps or overlaps, that
/// equal operations stand for equal lines, that equal lists have no other operation, and
/// that no operation is without lines on both sides.
#[verifier::external_body]
fn diff_lines(old: &[String], new: &[String]) -> (ops: Vec<LineOp>)
    ensures
        ops@ == myers_ops(texts(old@), texts(new@)),
        edit_script(ops@, texts(old@), texts(new@)),
        texts(old@) == texts(new@) ==> forall|i: int| 0 <= i < ops@.len() ==> ops@[i] is Equal,
        forall|i: int| 0 <= i < ops@.len() ==> (#[trigger] ops@[i]).block().is_filled(),
{
    capture_diff_slices(Algorithm::Myers, old, new).into_iter().map(|op| match op {
        DiffOp::Equal { old_index, new_index, len } => LineOp::Equal { old_index, new_index, len },
        DiffOp::Insert { old_index, new_index, new_len } => {
            LineOp::Insert { old_index, new_index, new_len }
        },
        DiffOp::Delete { old_index, old_len, new_index } => {
            LineOp::Delete { old_index, old_len, new_index }
        },
        DiffOp::Replace { old_index, old_len, new_index, new_len } => {
            LineOp::Replace { old_index, old_len, new_index, new_len }
        },
    }).collect()
}

/// The changed blocks that an edit script holds.
pub fn hunks_from_ops(ops: &[LineOp]) -> (r: Vec<Hunk>)
    ensures
        r@ == changed(ops@),
{
    let mut out: Vec<Hunk> = Vec::new();
    let mut i: usize = 0;
    while i < ops.len()
        invariant
            i <= ops@.len(),
            out@ == changed(ops@.take(i as int)),
        decreases ops@.len() - i,
    {
        let ghost before = ops@.take(i + 1);
        assert(before.drop_last() == ops@.take(i as int));
        match ops[i] {
            LineOp::Equal { .. } => {},
            LineOp::Insert { old_index, new_index, new_len } => {
                out.push(Hunk { old_start: old_index, old_len: 0, new_start: new_index, new_len });
            },
            LineOp::Delete { old_index, old_len, new_index } => {
                out.push(Hunk { old_start: old_index, old_len, new_start: new_index, new_len: 0 });
            },
            LineOp::Replace { old_index, old_len, new_index, new_len } => {
                out.push(Hunk { old_start: old_index, old_len, new_start: new_index, new_len });
            },
        }
        i += 1;
    }
    assert(ops@.take(i as int) == ops@);
    out
}

/// The changed blocks between two texts; none when there is no base.
pub open spec fn hunks_between(base: Seq<char>, cur: Seq<char>) -> Seq<Hunk> {
    if base.len() == 0 {
        Seq::empty()
    } else {
        changed(myers_ops(lines_of(base), lines_of(cur)))
    }
}

/// Whether the lines between `h`, which is number `i` of `hs`, and the hunk before it are the
/// same on both sides.
pub open spec fn same_gap_before(
    h: Hunk,
    hs: Seq<Hunk>,
    i: int,
    old: Seq<Seq<char>>,
    new: Seq<Seq<char>>,
) -> bool {
    let (a, c) = if i == 0 {
        (0, 0)
    } else {
        (hs[i - 1].old_start + hs[i - 1].old_len, hs[i - 1].new_start + hs[i - 1].new_len)
    };
    &&& a <= h.old_start
    &&& c <= h.new_start
    &&& old.subrange(a, h.old_start as int) == new.subrange(c, h.new_start as int)
}

/// The changed blocks diffing `base` (HEAD, or the index when there is no commit yet)
/// against `cur` (the live buffer). An empty `base` has no hunks (untracked, diff off);
/// otherwise the hunks are exactly where the texts differ. No hunk is without lines on both
/// sides.
pub fn hunks(base: &str, cur: &str) -> (r: Vec<Hunk>)
    ensures
        r@ == hunks_between(base@, cur@),
        base@.len() > 0 ==> aligned(r@, lines_of(base@), lines_of(cur@)),
        r@.len() == 0 <==> base@.len() == 0 || base@ == cur@,
        forall|i: int|
            0 <= i < r@.len() ==> (#[trigger] r@[i]).old_end() <= lines_of(base@).len() <= usize::MAX
                && r@[i].new_end() <= lines_of(cur@).len(),
        forall|i: int| 0 <= i < r@.len() ==> (#[trigger] r@[i]).is_filled(),
        // A line that the edit script keeps is in no hunk.
        base@.len() > 0 ==> forall|k: int, i: int|
            #![trigger myers_ops(lines_of(base@), lines_of(cur@))[k], r@[i]]
            0 <= k < myers_ops(lines_of(base@), lines_of(cur@)).len() && 0 <= i < r@.len() ==> (
            myers_ops(lines_of(base@), lines_of(cur@))[k] matches LineOp::Equal {
                old_index,
                new_index,
                len,
            } ==> (r@[i].old_start + r@[i].old_len <= old_index || old_index + len
                <= r@[i].old_start) && (r@[i].new_start + r@[i].new_len <= new_index || new_index
                + len <= r@[i].new_start)),
        // Before, between and after the hunks the lines are the same on both sides.
        base@.len() > 0 && r@.len() == 0 ==> lines_of(base@) == lines_of(cur@),
        base@.len() > 0 ==> forall|i: int|
            0 <= i < r@.len() ==> same_gap_before(#[trigger] r@[i], r@, i, lines_of(base@), lines_of(cur@)),
        r@.len() > 0 ==> lines_of(base@).skip(r@.last().old_start + r@.last().old_len) == lines_of(
            cur@,
        ).skip(r@.last().new_start + r@.last().new_len),
        base@.len() > 0 ==> lines_of(cur@).len() <= usize::MAX,
{
    if base.is_empty() {
        return Vec::new();
    }
    let base_lines = split(base, '\n');
    let cur_lines = split(cur, '\n');
    let ops = diff_lines(base_lines.as_slice(), cur_lines.as_slice());
    proof {
        lemma_script_aligned(ops@, lines_of(base@), lines_of(cur@));
        lemma_no_change(ops@);
        lemma_changed_filled(ops@);
        crate::text::law_join_undoes_split(base@, '\n');
        crate::text::law_join_undoes_split(cur@, '\n');
        let hs = changed(ops@);
        assert(texts(base_lines@).len() == base_lines.len());
        assert(texts(cur_lines@).len() == cur_lines.len());
        assert forall|i: int| 0 <= i < hs.len() implies (#[trigger] hs[i]).old_end()
            <= lines_of(base@).len() && hs[i].new_end() <= lines_of(cur@).len() by {
            lemma_block_bounds(hs, lines_of(base@), lines_of(cur@), i);
        }
        assert forall|k: int, i: int|
            #![trigger ops@[k], hs[i]]
            0 <= k < ops@.len() && 0 <= i < hs.len() implies (ops@[k] matches LineOp::Equal {
            old_index,
            new_index,
            len,
        } ==> (hs[i].old_start + hs[i].old_len <= old_index || old_index + len <= hs[i].old_start)
            && (hs[i].new_start + hs[i].new_len <= new_index || new_index + len
            <= hs[i].new_start)) by {
            law_kept_lines_are_in_no_hunk(ops@, lines_of(base@), lines_of(cur@), k, i);
        }
        assert forall|i: int| 0 <= i < hs.len() implies same_gap_before(
            #[trigger] hs[i],
            hs,
            i,
            lines_of(base@),
            lines_of(cur@),
        ) by {
            law_lines_between_hunks(hs, lines_of(base@), lines_of(cur@), i);
        }
    }
    hunks_from_ops(ops.as_slice())
}

/// An equal block at the end leaves the differences before it as they are.
pub proof fn lemma_aligned_extend(
    hs: Seq<Hunk>,
    old: Seq<Seq<char>>,
    new: Seq<Seq<char>>,
    i: int,
    j: int,
)
    requires
        0 <= i <= old.len(),
        0 <= j <= new.len(),
        old.skip(i) == new.skip(j),
        aligned(hs, old.take(i), new.take(j)),
    ensures
        aligned(hs, old, new),
{
    assert(old == old.take(i) + old.skip(i));
    assert(new == new.take(j) + new.skip(j));
    if hs.len() > 0 {
        let h = hs.last();
        let (p, q) = (old.take(i), new.take(j));
        assert(old.skip(h.old_end()) == p.skip(h.old_end()) + old.skip(i));
        assert(new.skip(h.new_end()) == q.skip(h.new_end()) + new.skip(j));
        assert(old.take(h.old_start as int) == p.take(h.old_start as int));
        assert(new.take(h.new_start as int) == q.take(h.new_start as int));
    }
}

/// A block of a diff lies within both texts.
pub proof fn lemma_block_bounds(hs: Seq<Hunk>, old: Seq<Seq<char>>, new: Seq<Seq<char>>, i: int)
    requires
        aligned(hs, old, new),
        0 <= i < hs.len(),
    ensures
        hs[i].old_end() <= old.len(),
        hs[i].new_end() <= new.len(),
    decreases hs.len(),
{
    let h = hs.last();
    if i < hs.len() - 1 {
        lemma_block_bounds(
            hs.drop_last(),
            old.take(h.old_start as int),
            new.take(h.new_start as int),
            i,
        );
    }
}

/// The changed blocks of an edit script are the differences between its two lists.
proof fn lemma_script_aligned(ops: Seq<LineOp>, old: Seq<Seq<char>>, new: Seq<Seq<char>>)
    requires
        edit_script(ops, old, new),
    ensures
        aligned(changed(ops), old, new),
    decreases ops.len(),
{
    if ops.len() == 0 {
        assert(old == new);
    } else {
        let b = ops.last().block();
        let init = ops.drop_last();
        lemma_script_aligned(init, old.take(b.old_start as int), new.take(b.new_start as int));
        if ops.last() is Equal {
            lemma_aligned_extend(
                changed(init),
                old,
                new,
                b.old_start as int,
                b.new_start as int,
            );
        } else {
            let hs = changed(init).push(b);
            assert(hs.drop_last() == changed(init));
            assert(old.skip(b.old_end()) == new.skip(b.new_end()));
        }
    }
}

/// A script of equal operations only changes nothing.
proof fn lemma_no_change(ops: Seq<LineOp>)
    ensures
        (forall|i: int| 0 <= i < ops.len() ==> ops[i] is Equal) ==> changed(ops).len() == 0,
    decreases ops.len(),
{
    if ops.len() > 0 && (forall|i: int| 0 <= i < ops.len() ==> ops[i] is Equal) {
        lemma_no_change(ops.drop_last());
        assert(ops[ops.len() - 1] is Equal);
    }
}

/// The changed blocks of a script without empty operations have lines.
proof fn lemma_changed_filled(ops: Seq<LineOp>)
    requires
        forall|i: int| 0 <= i < ops.len() ==> (#[trigger] ops[i]).block().is_filled(),
    ensures
        forall|i: int| 0 <= i < changed(ops).len() ==> (#[trigger] changed(ops)[i]).is_filled(),
    decreases ops.len(),
{
    if ops.len() > 0 {
        let init = ops.drop_last();
        assert forall|i: int| 0 <= i < init.len() implies (#[trigger] init[i]).block().is_filled() by {
            assert(ops[i].block().is_filled());
        }
        lemma_changed_filled(init);
        assert(ops[ops.len() - 1].block().is_filled());
        assert forall|i: int| 0 <= i < changed(ops).len() implies (
        #[trigger] changed(ops)[i]).is_filled() by {
            if i < changed(init).len() {
                assert(changed(ops)[i] == changed(init)[i]);
            }
        }
    }
}

/// Whether two line ranges overlap or abut; an empty range is a boundary point.
pub open spec fn touch(a: (int, int), b: (int, int)) -> bool {
    a.0 <= b.1 && b.0 <= a.1
}

/// Whether the base side of `h` touches `range`.
pub open spec fn old_touches(h: Hunk, range: (usize, usize)) -> bool {
    touch((h.old_start as int, h.old_end()), (range.0 as int, range.1 as int))
}

/// Whether the buffer side of `h` touches `range`.
pub open spec fn new_touches(h: Hunk, range: (usize, usize)) -> bool {
    touch((h.new_start as int, h.new_end()), (range.0 as int, range.1 as int))
}

/// Inclusive interval touch: true when `a` and `b` overlap or abut. Erring toward touch
/// means that a click on a hunk stages the whole contiguous change even when the diff
/// split it into adjacent blocks.
pub fn ranges_touch(a: (usize, usize), b: (usize, usize)) -> (r: bool)
    ensures
        r == touch((a.0 as int, a.1 as int), (b.0 as int, b.1 as int)),
        // Ranges with a line between them never touch, and all others do.
        r <==> !(a.1 < b.0 || b.1 < a.0),
{
    a.0 <= b.1 && b.0 <= a.1
}

/// Whether the base side of any of `hs` touches `range`.
pub open spec fn any_old_touches(hs: Seq<Hunk>, range: (usize, usize)) -> bool {
    exists|i: int| 0 <= i < hs.len() && old_touches(#[trigger] hs[i], range)
}

/// Whether any staged block (diff HEAD to index) touches `head_range`. True also for a
/// region whose staged version was edited further in the buffer, where unstaging would
/// still drop the staged version.
pub fn overlaps_staged(index_hunks: &[Hunk], head_range: (usize, usize)) -> (r: bool)
    requires
        forall|j: int|
            0 <= j < index_hunks@.len() && !any_old_touches(index_hunks@.take(j), head_range)
                ==> (#[trigger] index_hunks@[j]).old_end() <= usize::MAX,
    ensures
        r == any_old_touches(index_hunks@, head_range),
        r <==> exists|j: int|
            0 <= j < index_hunks@.len() && !((#[trigger] index_hunks@[j]).old_start
                + index_hunks@[j].old_len < head_range.0 || head_range.1
                < index_hunks@[j].old_start),
{
    let mut i: usize = 0;
    while i < index_hunks.len()
        invariant
            i <= index_hunks@.len(),
            !any_old_touches(index_hunks@.take(i as int), head_range),
            forall|j: int|
                0 <= j < index_hunks@.len() && !any_old_touches(index_hunks@.take(j), head_range)
                    ==> (#[trigger] index_hunks@[j]).old_end() <= usize::MAX,
        decreases index_hunks@.len() - i,
    {
        let h = index_hunks[i];
        assert(index_hunks@[i as int].old_end() <= usize::MAX);
        if ranges_touch((h.old_start, h.old_start + h.old_len), head_range) {
            assert(old_touches(index_hunks@[i as int], head_range));
            assert(!(index_hunks@[i as int].old_start + index_hunks@[i as int].old_len
                < head_range.0 || head_range.1 < index_hunks@[i as int].old_start));
            return true;
        }
        i += 1;
        assert forall|k: int| 0 <= k < i implies !old_touches(
            #[trigger] index_hunks@.take(i as int)[k],
            head_range,
        ) by {
            if k < i - 1 {
                assert(index_hunks@.take(i - 1)[k] == index_hunks@[k]);
            }
        }
    }
    assert(index_hunks@.take(i as int) == index_hunks@);
    assert forall|j: int| 0 <= j < index_hunks@.len() implies (#[trigger] index_hunks@[j]).old_start
        + index_hunks@[j].old_len < head_range.0 || head_range.1 < index_hunks@[j].old_start by {
        assert(!old_touches(index_hunks@[j], head_range));
    }
    false
}

/// The lines `start..start + len`, when there are that many.
pub open spec fn window(lines: Seq<Seq<char>>, start: int, len: int) -> Option<Seq<Seq<char>>> {
    if start + len <= lines.len() {
        Some(lines.subrange(start, start + len))
    } else {
        None
    }
}

/// Whether `ih` makes the same change to HEAD in the index as `h` makes in the buffer.
pub open spec fn same_change(
    index: Seq<Seq<char>>,
    ih: Hunk,
    cur: Seq<Seq<char>>,
    h: Hunk,
) -> bool {
    &&& ih.old_start == h.old_start
    &&& ih.old_len == h.old_len
    &&& ih.new_len == h.new_len
    &&& window(index, ih.new_start as int, ih.new_len as int) == window(
        cur,
        h.new_start as int,
        h.new_len as int,
    )
}

/// Whether the change that `h` makes in the buffer is in the index.
pub open spec fn staged_in(
    index: Seq<Seq<char>>,
    index_hunks: Seq<Hunk>,
    cur: Seq<Seq<char>>,
    h: Hunk,
) -> bool {
    exists|j: int| 0 <= j < index_hunks.len() && same_change(index, #[trigger] index_hunks[j], cur, h)
}

/// Compares `len` lines of `a` from `i` with those of `b` from `j`; where one side has
/// too few lines, the windows are the same only if the other side has too few as well.
fn same_window(a: &[String], i: usize, b: &[String], j: usize, len: usize) -> (r: bool)
    ensures
        r == (window(texts(a@), i as int, len as int) == window(texts(b@), j as int, len as int)),
{
    let a_has = i <= a.len() && len <= a.len() - i;
    let b_has = j <= b.len() && len <= b.len() - j;
    if !a_has || !b_has {
        return a_has == b_has;
    }
    let ghost x = texts(a@).subrange(i as int, i + len);
    let ghost y = texts(b@).subrange(j as int, j + len);
    let mut k: usize = 0;
    while k < len
        invariant
            k <= len,
            i + len <= a@.len() <= usize::MAX,
            j + len <= b@.len() <= usize::MAX,
            x == texts(a@).subrange(i as int, i + len),
            y == texts(b@).subrange(j as int, j + len),
            forall|q: int| 0 <= q < k ==> x[q] == y[q],
        decreases len - k,
    {
        if a[i + k] != b[j + k] {
            assert(x[k as int] != y[k as int]);
            return false;
        }
        k += 1;
    }
    assert(x == y);
    true
}

/// Which of `cur_hunks` (diff HEAD to buffer) are already staged: a hunk is staged when
/// the index holds the exact same change, that is an entry of `index_hunks` (diff HEAD to
/// index) with the same HEAD range whose index lines equal the buffer lines. A hunk that
/// was edited further after staging reads as unstaged again.
pub fn staged_flags(
    index: &str,
    index_hunks: &[Hunk],
    cur: &str,
    cur_hunks: &[Hunk],
) -> (r: Vec<bool>)
    ensures
        r@.len() == cur_hunks@.len(),
        forall|i: int|
            0 <= i < r@.len() ==> #[trigger] r@[i] == staged_in(
                lines_of(index@),
                index_hunks@,
                lines_of(cur@),
                cur_hunks@[i],
            ),
        // Each flag tells whether the index has a hunk over the same HEAD lines that puts the
        // same lines there, wherever these stand in either text.
        forall|i: int|
            0 <= i < r@.len() && cur_hunks@[i].new_end() <= lines_of(cur@).len() ==> (#[trigger] r@[i]
                <==> exists|j: int|
                0 <= j < index_hunks@.len() && (#[trigger] index_hunks@[j]).old_start
                    == cur_hunks@[i].old_start && index_hunks@[j].old_len == cur_hunks@[i].old_len
                    && index_hunks@[j].new_start + index_hunks@[j].new_len <= lines_of(index@).len()
                    && lines_of(index@).subrange(
                    index_hunks@[j].new_start as int,
                    index_hunks@[j].new_start + index_hunks@[j].new_len,
                ) == lines_of(cur@).subrange(
                    cur_hunks@[i].new_start as int,
                    cur_hunks@[i].new_start + cur_hunks@[i].new_len,
                )),
{
    let il = split(index, '\n');
    let cl = split(cur, '\n');
    let mut out: Vec<bool> = Vec::new();
    let mut i: usize = 0;
    while i < cur_hunks.len()
        invariant
            i <= cur_hunks@.len(),
            texts(il@) == lines_of(index@),
            texts(cl@) == lines_of(cur@),
            out@.len() == i,
            forall|k: int|
                0 <= k < i ==> #[trigger] out@[k] == staged_in(
                    lines_of(index@),
                    index_hunks@,
                    lines_of(cur@),
                    cur_hunks@[k],
                ),
        decreases cur_hunks@.len() - i,
    {
        let h = cur_hunks[i];
        let mut found = false;
        let mut j: usize = 0;
        while j < index_hunks.len() && !found
            invariant
                j <= index_hunks@.len(),
                texts(il@) == lines_of(index@),
                texts(cl@) == lines_of(cur@),
                found == exists|q: int|
                    0 <= q < j && same_change(
                        lines_of(index@),
                        #[trigger] index_hunks@[q],
                        lines_of(cur@),
                        h,
                    ),
            decreases index_hunks@.len() - j,
        {
            let ih = index_hunks[j];
            if ih.old_start == h.old_start && ih.old_len == h.old_len && ih.new_len == h.new_len
                && same_window(il.as_slice(), ih.new_start, cl.as_slice(), h.new_start, h.new_len) {
                assert(same_change(lines_of(index@), index_hunks@[j as int], lines_of(cur@), h));
                found = true;
            }
            j += 1;
        }
        out.push(found);
        i += 1;
    }
    proof {
        assert forall|k: int|
            0 <= k < out@.len() && cur_hunks@[k].new_end() <= lines_of(cur@).len() implies (
        #[trigger] out@[k] <==> exists|j: int|
            0 <= j < index_hunks@.len() && (#[trigger] index_hunks@[j]).old_start
                == cur_hunks@[k].old_start && index_hunks@[j].old_len == cur_hunks@[k].old_len
                && index_hunks@[j].new_start + index_hunks@[j].new_len <= lines_of(index@).len()
                && lines_of(index@).subrange(
                index_hunks@[j].new_start as int,
                index_hunks@[j].new_start + index_hunks@[j].new_len,
            ) == lines_of(cur@).subrange(
                cur_hunks@[k].new_start as int,
                cur_hunks@[k].new_start + cur_hunks@[k].new_len,
            )) by {
            law_staged_is_the_same_change(
                lines_of(index@),
                index_hunks@,
                lines_of(cur@),
                cur_hunks@[k],
            );
        }
    }
    out
}

/// A buffer whose text is in the index has all its hunks staged.
pub proof fn law_indexed_buffer_is_staged(head: Seq<char>, cur: Seq<char>, i: int)
    requires
        0 <= i < hunks_between(head, cur).len(),
    ensures
        staged_in(
            lines_of(cur),
            hunks_between(head, cur),
            lines_of(cur),
            hunks_between(head, cur)[i],
        ),
{
    let hs = hunks_between(head, cur);
    assert(same_change(lines_of(cur), hs[i], lines_of(cur), hs[i]));
}

/// A hunk that reads as staged has its buffer lines in the index, at the place of an
/// index hunk for the same HEAD lines; editing them further makes it unstaged.
pub proof fn law_staged_means_same_lines(
    index: Seq<Seq<char>>,
    index_hunks: Seq<Hunk>,
    cur: Seq<Seq<char>>,
    h: Hunk,
)
    requires
        h.new_end() <= cur.len(),
    ensures
        staged_in(index, index_hunks, cur, h) ==> exists|j: int|
            {
                &&& 0 <= j < index_hunks.len()
                &&& (#[trigger] index_hunks[j]).old_start == h.old_start
                &&& index_hunks[j].old_len == h.old_len
                &&& index_hunks[j].new_end() <= index.len()
                &&& index.subrange(index_hunks[j].new_start as int, index_hunks[j].new_end())
                    == cur.subrange(h.new_start as int, h.new_end())
            },
{
}

/// `s` with every `\r\n` and every other `\r` turned into `\n`.
pub open spec fn normalized(s: Seq<char>) -> Seq<char>
    decreases s.len(),
{
    if s.len() == 0 {
        s
    } else {
        let init = normalized(s.drop_last());
        if s.last() == '\n' && s.len() > 1 && s[s.len() - 2] == '\r' {
            init
        } else if s.last() == '\r' {
            init.push('\n')
        } else {
            init.push(s.last())
        }
    }
}

/// CRLF and CR to LF, as the host normalizes a file on load, so that a file checked out
/// with CRLF does not show every line as modified.
pub fn normalize_newlines(s: &str) -> (r: String)
    ensures
        r@ == normalized(s@),
{
    let mut out = String::new();
    let mut after_cr = false;
    for c in it: s.chars()
        invariant
            it.seq() == s@,
            out@ == normalized(s@.take(it.index() as int)),
            after_cr == (it.index() > 0 && s@[it.index() - 1] == '\r'),
    {
        let ghost k = it.index() as int;
        assert(s@.take(k + 1).drop_last() == s@.take(k));
        assert(s@.take(k + 1).last() == c);
        if c == '\r' {
            out.push('\n');
        } else if !(c == '\n' && after_cr) {
            out.push(c);
        }
        after_cr = c == '\r';
    }
    assert(s@.take(s@.len() as int) == s@);
    out
}

/// A normalized text has no `\r`.
pub proof fn law_normalized_has_no_cr(s: Seq<char>)
    ensures
        !normalized(s).contains('\r'),
    decreases s.len(),
{
    if s.len() > 0 {
        law_normalized_has_no_cr(s.drop_last());
        assert forall|i: int| 0 <= i < normalized(s).len() implies normalized(s)[i] != '\r' by {
            let init = normalized(s.drop_last());
            if i < init.len() {
                assert(init[i] == normalized(s)[i]);
                assert(init.contains(init[i]));
            }
        }
    }
}

/// A text without `\r` is normalized already.
pub proof fn law_normalize_keeps_lf(s: Seq<char>)
    requires
        !s.contains('\r'),
    ensures
        normalized(s) == s,
    decreases s.len(),
{
    if s.len() > 0 {
        assert forall|i: int| 0 <= i < s.drop_last().len() implies s.drop_last()[i] != '\r' by {
            assert(s.contains(s[i]));
        }
        law_normalize_keeps_lf(s.drop_last());
        assert(s.contains(s.last()));
        assert(s.len() > 1 ==> s.contains(s[s.len() - 2]));
        assert(s == s.drop_last().push(s.last()));
    }
}

/// Normalizing twice is normalizing once.
pub proof fn law_normalize_twice(s: Seq<char>)
    ensures
        normalized(normalized(s)) == normalized(s),
{
    law_normalized_has_no_cr(s);
    law_normalize_keeps_lf(normalized(s));
}

/// `s` with every `\n` written as `\r\n`.
pub open spec fn with_crlf(s: Seq<char>) -> Seq<char>
    decreases s.len(),
{
    if s.len() == 0 {
        s
    } else if s.last() == '\n' {
        with_crlf(s.drop_last()).push('\r').push('\n')
    } else {
        with_crlf(s.drop_last()).push(s.last())
    }
}

/// A text without `\r` comes back from its CRLF form.
pub proof fn law_crlf_normalizes_back(s: Seq<char>)
    requires
        !s.contains('\r'),
    ensures
        normalized(with_crlf(s)) == s,
    decreases s.len(),
{
    if s.len() > 0 {
        let init = s.drop_last();
        assert forall|i: int| 0 <= i < init.len() implies init[i] != '\r' by {
            assert(s.contains(s[i]));
        }
        law_crlf_normalizes_back(init);
        let w = with_crlf(init);
        assert(s.contains(s.last()));
        assert(s == init.push(s.last()));
        if s.last() == '\n' {
            assert(w.push('\r').drop_last() == w);
            assert(w.push('\r').push('\n').drop_last() == w.push('\r'));
            assert(normalized(w.push('\r')) == normalized(w).push('\n'));
        } else {
            assert(w.push(s.last()).drop_last() == w);
        }
    }
}

/// The changes of two scripts after each other are the changes of the first, then those of
/// the second.
pub proof fn law_changes_of_parts(a: Seq<LineOp>, b: Seq<LineOp>)
    ensures
        changed(a + b) == changed(a) + changed(b),
    decreases b.len(),
{
    if b.len() == 0 {
        assert(a + b == a);
        assert(changed(a) + changed(b) == changed(a));
    } else {
        law_changes_of_parts(a, b.drop_last());
        assert((a + b).drop_last() == a + b.drop_last());
        assert((a + b).last() == b.last());
        assert(changed(a + b) == changed(a) + changed(b));
    }
}

/// A kept block is no change; an insertion, a deletion and a replacement are one change each,
/// with exactly their lines.
pub proof fn law_change_of_one_step(i: usize, j: usize, n: usize, m: usize)
    ensures
        changed(seq![LineOp::Equal { old_index: i, new_index: j, len: n }]) == Seq::<Hunk>::empty(),
        changed(seq![LineOp::Insert { old_index: i, new_index: j, new_len: m }]) == seq![
            Hunk { old_start: i, old_len: 0, new_start: j, new_len: m },
        ],
        changed(seq![LineOp::Delete { old_index: i, old_len: n, new_index: j }]) == seq![
            Hunk { old_start: i, old_len: n, new_start: j, new_len: 0 },
        ],
        changed(
            seq![LineOp::Replace { old_index: i, old_len: n, new_index: j, new_len: m }],
        ) == seq![Hunk { old_start: i, old_len: n, new_start: j, new_len: m }],
{
    reveal_with_fuel(changed, 2);
    assert(changed(Seq::<LineOp>::empty()) == Seq::<Hunk>::empty());
    assert(seq![LineOp::Equal { old_index: i, new_index: j, len: n }].drop_last() == Seq::<
        LineOp,
    >::empty());
    assert(seq![LineOp::Insert { old_index: i, new_index: j, new_len: m }].drop_last() == Seq::<
        LineOp,
    >::empty());
    assert(seq![LineOp::Delete { old_index: i, old_len: n, new_index: j }].drop_last() == Seq::<
        LineOp,
    >::empty());
    assert(seq![LineOp::Replace { old_index: i, old_len: n, new_index: j, new_len: m }].drop_last()
        == Seq::<LineOp>::empty());
}

/// The steps of a script lie within its two lists.
proof fn lemma_step_bounds(ops: Seq<LineOp>, old: Seq<Seq<char>>, new: Seq<Seq<char>>, k: int)
    requires
        edit_script(ops, old, new),
        0 <= k < ops.len(),
    ensures
        ops[k].block().old_end() <= old.len(),
        ops[k].block().new_end() <= new.len(),
    decreases ops.len(),
{
    if k < ops.len() - 1 {
        let b = ops.last().block();
        lemma_step_bounds(
            ops.drop_last(),
            old.take(b.old_start as int),
            new.take(b.new_start as int),
            k,
        );
    }
}

/// A line that an edit script keeps is in no hunk, neither on the old side nor on the new
/// one.
pub proof fn law_kept_lines_are_in_no_hunk(
    ops: Seq<LineOp>,
    old: Seq<Seq<char>>,
    new: Seq<Seq<char>>,
    k: int,
    i: int,
)
    requires
        edit_script(ops, old, new),
        0 <= k < ops.len(),
        0 <= i < changed(ops).len(),
    ensures
        ops[k] matches LineOp::Equal { old_index, new_index, len } ==> {
            let h = changed(ops)[i];
            &&& h.old_start + h.old_len <= old_index || old_index + len <= h.old_start
            &&& h.new_start + h.new_len <= new_index || new_index + len <= h.new_start
        },
    decreases ops.len(),
{
    let b = ops.last().block();
    let init = ops.drop_last();
    let (p, q) = (old.take(b.old_start as int), new.take(b.new_start as int));
    lemma_script_aligned(init, p, q);
    if i < changed(init).len() {
        assert(changed(ops)[i] == changed(init)[i]);
        if k < ops.len() - 1 {
            law_kept_lines_are_in_no_hunk(init, p, q, k, i);
        } else {
            lemma_block_bounds(changed(init), p, q, i);
        }
    } else if k < ops.len() - 1 {
        lemma_step_bounds(init, p, q, k);
    }
}

/// Before, between and after the hunks of a diff the lines are the same on both sides. The
/// gap with number `i` is the one before hunk `i`; the last one is after all hunks.
pub proof fn law_lines_between_hunks(
    hs: Seq<Hunk>,
    old: Seq<Seq<char>>,
    new: Seq<Seq<char>>,
    i: int,
)
    requires
        aligned(hs, old, new),
        0 <= i <= hs.len(),
    ensures
        ({
            let (a, c) = if i == 0 {
                (0, 0)
            } else {
                (hs[i - 1].old_start + hs[i - 1].old_len, hs[i - 1].new_start + hs[i - 1].new_len)
            };
            let (b, d) = if i == hs.len() {
                (old.len() as int, new.len() as int)
            } else {
                (hs[i].old_start as int, hs[i].new_start as int)
            };
            &&& a <= b <= old.len()
            &&& c <= d <= new.len()
            &&& old.subrange(a, b) == new.subrange(c, d)
        }),
    decreases hs.len(),
{
    if hs.len() == 0 {
        assert(old.subrange(0, old.len() as int) == old);
        assert(new.subrange(0, new.len() as int) == new);
    } else {
        let h = hs.last();
        if i == hs.len() {
            assert(old.subrange(h.old_end(), old.len() as int) == old.skip(h.old_end()));
            assert(new.subrange(h.new_end(), new.len() as int) == new.skip(h.new_end()));
        } else {
            let (p, q) = (old.take(h.old_start as int), new.take(h.new_start as int));
            let init = hs.drop_last();
            law_lines_between_hunks(init, p, q, i);
            let (a, c) = if i == 0 {
                (0, 0)
            } else {
                (hs[i - 1].old_start + hs[i - 1].old_len, hs[i - 1].new_start + hs[i - 1].new_len)
            };
            assert(i > 0 ==> init[i - 1] == hs[i - 1]);
            assert(i < init.len() ==> init[i] == hs[i]);
            let (b, d) = (hs[i].old_start as int, hs[i].new_start as int);
            assert(p.subrange(a, b) == old.subrange(a, b));
            assert(q.subrange(c, d) == new.subrange(c, d));
        }
    }
}

/// Ranges touch exactly when neither ends before the other starts. The order of the two does
/// not matter.
pub proof fn law_ranges_apart_do_not_touch(a: (int, int), b: (int, int))
    ensures
        touch(a, b) <==> !(a.1 < b.0 || b.1 < a.0),
        touch(a, b) <==> touch(b, a),
{
}

/// A hunk touches a range on a side exactly when its lines there neither end before the range
/// starts nor start after it ends.
pub proof fn law_hunks_touch_by_line_numbers(h: Hunk, range: (usize, usize))
    ensures
        old_touches(h, range) <==> !(h.old_start + h.old_len < range.0 || range.1 < h.old_start),
        new_touches(h, range) <==> !(h.new_start + h.new_len < range.0 || range.1 < h.new_start),
{
}

/// A hunk whose lines are in the buffer is staged exactly when the index has a hunk over the
/// same HEAD lines that puts the same lines there. Where these stand in either text does not
/// matter.
pub proof fn law_staged_is_the_same_change(
    index: Seq<Seq<char>>,
    index_hunks: Seq<Hunk>,
    cur: Seq<Seq<char>>,
    h: Hunk,
)
    requires
        h.new_start + h.new_len <= cur.len(),
    ensures
        staged_in(index, index_hunks, cur, h) <==> exists|j: int|
            {
                &&& 0 <= j < index_hunks.len()
                &&& (#[trigger] index_hunks[j]).old_start == h.old_start
                &&& index_hunks[j].old_len == h.old_len
                &&& index_hunks[j].new_start + index_hunks[j].new_len <= index.len()
                &&& index.subrange(
                    index_hunks[j].new_start as int,
                    index_hunks[j].new_start + index_hunks[j].new_len,
                ) == cur.subrange(h.new_start as int, h.new_start + h.new_len)
            },
{
    if exists|j: int|
        {
            &&& 0 <= j < index_hunks.len()
            &&& (#[trigger] index_hunks[j]).old_start == h.old_start
            &&& index_hunks[j].old_len == h.old_len
            &&& index_hunks[j].new_start + index_hunks[j].new_len <= index.len()
            &&& index.subrange(
                index_hunks[j].new_start as int,
                index_hunks[j].new_start + index_hunks[j].new_len,
            ) == cur.subrange(h.new_start as int, h.new_start + h.new_len)
        } {
        let j = choose|j: int|
            {
                &&& 0 <= j < index_hunks.len()
                &&& (#[trigger] index_hunks[j]).old_start == h.old_start
                &&& index_hunks[j].old_len == h.old_len
                &&& index_hunks[j].new_start + index_hunks[j].new_len <= index.len()
                &&& index.subrange(
                    index_hunks[j].new_start as int,
                    index_hunks[j].new_start + index_hunks[j].new_len,
                ) == cur.subrange(h.new_start as int, h.new_start + h.new_len)
            };
        let g = index_hunks[j];
        assert(index.subrange(g.new_start as int, g.new_end()).len() == g.new_len);
        assert(cur.subrange(h.new_start as int, h.new_end()).len() == h.new_len);
        assert(same_change(index, g, cur, h));
    }
    if staged_in(index, index_hunks, cur, h) {
        let j = choose|j: int|
            0 <= j < index_hunks.len() && same_change(index, #[trigger] index_hunks[j], cur, h);
        assert(index_hunks[j].old_start == h.old_start);
    }
}

/// The newlines of two texts are normalized each on their own, unless a `\r\n` stands across
/// the place where they meet.
pub proof fn law_newlines_by_parts(a: Seq<char>, b: Seq<char>)
    requires
        !(a.len() > 0 && b.len() > 0 && a.last() == '\r' && b[0] == '\n'),
    ensures
        normalized(a + b) == normalized(a) + normalized(b),
    decreases b.len(),
{
    if b.len() == 0 {
        assert(a + b == a);
        assert(normalized(a) + normalized(b) == normalized(a));
    } else {
        let c = b.drop_last();
        law_newlines_by_parts(a, c);
        let s = a + b;
        assert(s.drop_last() == a + c);
        assert(s.last() == b.last());
        if b.len() > 1 {
            assert(s[s.len() - 2] == b[b.len() - 2]);
        } else if a.len() > 0 {
            assert(s[s.len() - 2] == a.last());
        }
        assert(normalized(s) == normalized(a) + normalized(b));
    }
}

/// `\r\n` and a `\r` on its own both become one `\n`, and any other character stays.
pub proof fn law_newline_forms(c: char)
    ensures
        normalized(seq!['\r', '\n']) == seq!['\n'],
        normalized(seq!['\r']) == seq!['\n'],
        c != '\r' ==> normalized(seq![c]) == seq![c],
{
    reveal_with_fuel(normalized, 3);
    assert(seq!['\r', '\n'].drop_last() == seq!['\r']);
    assert(seq!['\r'].drop_last() == Seq::<char>::empty());
    assert(seq![c].drop_last() == Seq::<char>::empty());
    assert(normalized(seq!['\r']) == seq!['\n']);
}

/// The CRLF form is made character by character: a `\n` becomes `\r\n`, and any other
/// character stays.
pub proof fn law_crlf_by_parts(a: Seq<char>, b: Seq<char>, c: char)
    ensures
        with_crlf(a + b) == with_crlf(a) + with_crlf(b),
        with_crlf(seq!['\n']) == seq!['\r', '\n'],
        c != '\n' ==> with_crlf(seq![c]) == seq![c],
    decreases b.len(),
{
    reveal_with_fuel(with_crlf, 2);
    assert(seq!['\n'].drop_last() == Seq::<char>::empty());
    assert(seq![c].drop_last() == Seq::<char>::empty());
    assert(with_crlf(seq!['\n']) == seq!['\r', '\n']);
    if b.len() == 0 {
        assert(a + b == a);
        assert(with_crlf(a) + with_crlf(b) == with_crlf(a));
    } else {
        law_crlf_by_parts(a, b.drop_last(), c);
        assert((a + b).drop_last() == a + b.drop_last());
        assert((a + b).last() == b.last());
        assert(with_crlf(a + b) == with_crlf(a) + with_crlf(b));
    }
}

/// A block ends as many lines after its start as it has, on each side, and it has lines when
/// it has any on one side.
pub proof fn law_block_ends(h: Hunk)
    ensures
        h.old_end() == h.old_start + h.old_len,
        h.new_end() == h.new_start + h.new_len,
        h.is_filled() <==> h.old_len > 0 || h.new_len > 0,
{
}

} // verus!
