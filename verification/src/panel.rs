//! The agent panel without its pixels: what is selected, what a point hits, and how the
//! action buttons are packed into rows.
//!
//! Measuring and drawing work in floating point and stay with the renderer; it reports
//! what it measured as plain values and reads from here what to draw.

use vstd::prelude::*;
use vstd::utf8::encode_utf8;

use crate::selection::{end_in, in_order, readable, selected, selected_of, start_in, TextPos};
use crate::text::{join_with, texts};

verus! {

/// The state of the panel.
pub struct PanelState {
    width: u32,
    height: u32,
    /// Action buttons (such as permission options).
    buttons: Vec<String>,
    /// The texts of the blocks from the last render, for hit tests and selection.
    laid: Vec<String>,
    /// The active text selection (anchor, focus).
    sel: Option<(TextPos, TextPos)>,
}

/// What a [`PanelState`] holds.
#[verifier::ext_equal]
pub struct PanelView {
    pub width: u32,
    pub height: u32,
    pub buttons: Seq<Seq<char>>,
    pub laid: Seq<Seq<char>>,
    pub sel: Option<(TextPos, TextPos)>,
}

impl View for PanelState {
    type V = PanelView;

    closed spec fn view(&self) -> PanelView {
        PanelView {
            width: self.width,
            height: self.height,
            buttons: texts(self.buttons@),
            laid: texts(self.laid@),
            sel: self.sel,
        }
    }
}

/// A pixel size that a render target can have.
pub open spec fn at_least_one(n: u32) -> u32 {
    if n == 0 {
        1
    } else {
        n
    }
}

impl PanelState {
    /// An empty panel of at least one pixel.
    pub fn new(width: u32, height: u32) -> (r: Self)
        ensures
            r@ == (PanelView {
                width: at_least_one(width),
                height: at_least_one(height),
                buttons: Seq::empty(),
                laid: Seq::empty(),
                sel: None,
            }),
    {
        let r = PanelState {
            width: if width == 0 {
                1
            } else {
                width
            },
            height: if height == 0 {
                1
            } else {
                height
            },
            buttons: Vec::new(),
            laid: Vec::new(),
            sel: None,
        };
        assert(r@ =~= (PanelView {
            width: at_least_one(width),
            height: at_least_one(height),
            buttons: Seq::empty(),
            laid: Seq::empty(),
            sel: None,
        }));
        r
    }

    /// The width in physical pixels.
    pub fn width(&self) -> (r: u32)
        ensures
            r == self@.width,
    {
        self.width
    }

    /// The height in physical pixels.
    pub fn height(&self) -> (r: u32)
        ensures
            r == self@.height,
    {
        self.height
    }

    /// The labels of the action buttons.
    pub fn buttons(&self) -> (r: &Vec<String>)
        ensures
            texts(r@) == self@.buttons,
    {
        &self.buttons
    }

    /// Set the action buttons (empty is none).
    pub fn set_buttons(&mut self, labels: Vec<String>)
        ensures
            final(self)@ == (PanelView { buttons: texts(labels@), ..old(self)@ }),
    {
        self.buttons = labels;
    }

    /// Set the texts of the blocks that were laid out. The selection stays as it is.
    pub fn lay(&mut self, blocks: Vec<String>)
        ensures
            final(self)@ == (PanelView { laid: texts(blocks@), ..old(self)@ }),
    {
        self.laid = blocks;
    }

    /// Take a new size, of at least one pixel. Returns whether it differs from the current
    /// one, so that a new render target is needed.
    pub fn resize(&mut self, width: u32, height: u32) -> (changed: bool)
        ensures
            final(self)@ == (PanelView {
                width: at_least_one(width),
                height: at_least_one(height),
                ..old(self)@
            }),
            changed == (old(self)@.width != at_least_one(width) || old(self)@.height
                != at_least_one(height)),
    {
        let width: u32 = if width == 0 {
            1
        } else {
            width
        };
        let height: u32 = if height == 0 {
            1
        } else {
            height
        };
        if width == self.width && height == self.height {
            return false;
        }
        self.width = width;
        self.height = height;
        true
    }

    /// Begin a selection at the text position that was hit; hitting none clears it.
    pub fn selection_begin(&mut self, hit: Option<TextPos>)
        ensures
            final(self)@ == (PanelView {
                sel: match hit {
                    Some(p) => Some((p, p)),
                    None => None,
                },
                ..old(self)@
            }),
    {
        self.sel = match hit {
            Some(p) => Some((p, p)),
            None => None,
        };
    }

    /// Extend the active selection to the text position that was hit, if any.
    pub fn selection_update(&mut self, hit: Option<TextPos>)
        ensures
            final(self)@ == (PanelView {
                sel: match (old(self)@.sel, hit) {
                    (Some(ends), Some(p)) => Some((ends.0, p)),
                    _ => old(self)@.sel,
                },
                ..old(self)@
            }),
    {
        if let (Some(ends), Some(p)) = (self.sel, hit) {
            self.sel = Some((ends.0, p));
        }
    }

    /// Drop the selection.
    pub fn selection_clear(&mut self)
        ensures
            final(self)@ == (PanelView { sel: None, ..old(self)@ }),
    {
        self.sel = None;
    }

    /// Whether anything is selected (a caret without extent is not).
    pub fn has_selection(&self) -> (r: bool)
        ensures
            r == match self@.sel {
                Some(ends) => ends.0 != ends.1,
                None => false,
            },
    {
        match self.sel {
            Some((a, b)) => a != b,
            None => false,
        }
    }

    /// Select everything. Without blocks that is nothing.
    pub fn select_all(&mut self)
        ensures
            old(self)@.laid.len() == 0 ==> final(self)@ == (PanelView { sel: None, ..old(self)@ }),
            old(self)@.laid.len() > 0 ==> {
                &&& final(self)@.sel is Some
                &&& (final(self)@.sel->0).0 == (TextPos { block: 0, offset: 0 })
                &&& (final(self)@.sel->0).1.block == old(self)@.laid.len() - 1
                &&& (final(self)@.sel->0).1.offset == encode_utf8(old(self)@.laid.last()).len()
                &&& final(self)@ == (PanelView { sel: final(self)@.sel, ..old(self)@ })
            },
            // What is then selected is all the text.
            selected(final(self)@.laid, final(self)@.sel) == join_with(old(self)@.laid, '\n'),
    {
        let n: usize = self.laid.len();
        let ghost blocks = texts(self.laid@);
        if n == 0 {
            self.sel = None;
            assert(join_with(blocks, '\n') == Seq::<char>::empty());
            return;
        }
        let offset: usize = self.laid[n - 1].as_str().as_bytes().len();
        let lo = TextPos { block: 0, offset: 0 };
        let hi = TextPos { block: n - 1, offset };
        assert(blocks.last() == self.laid@[n - 1]@);
        self.sel = Some((lo, hi));
        proof {
            crate::selection::law_select_all_is_all_text(blocks, lo, hi);
        }
    }

    /// Whether the selected text can be read: a selection that starts in the first block
    /// needs that block.
    pub fn selection_readable(&self) -> (r: bool)
        ensures
            r == readable(self@.sel, self@.laid.len()),
    {
        match self.sel {
            Some((a, b)) => {
                let lo = if a.le(b) {
                    a
                } else {
                    b
                };
                a == b || lo.block > 0 || self.laid.len() > 0
            },
            None => true,
        }
    }

    /// The selected text, with newlines between blocks; empty when nothing is selected.
    pub fn selected_text(&self) -> (r: String)
        requires
            readable(self@.sel, self@.laid.len()),
        ensures
            r@ == selected(self@.laid, self@.sel),
    {
        selected_of(self.laid.as_slice(), self.sel)
    }

    /// The byte range of the selection in block `b`, when it reaches into it.
    pub fn block_selection(&self, b: usize) -> (r: Option<(usize, usize)>)
        requires
            b < self@.laid.len(),
        ensures
            match self@.sel {
                None => r is None,
                Some(ends) => {
                    let (lo, hi) = in_order(ends);
                    &&& r is Some <==> lo != hi && lo.block <= b <= hi.block
                    &&& r is Some ==> (r->0).0 == start_in(lo, b as int) && (r->0).1 == end_in(
                        hi,
                        b as int,
                        encode_utf8(self@.laid[b as int]).len() as int,
                    )
                },
            },
            // A block between those of the two ends is selected whole, one outside of them
            // not at all, and within one block the selection is from the lower to the higher
            // offset.
            match self@.sel {
                Some((x, y)) => {
                    let len = encode_utf8(self@.laid[b as int]).len();
                    &&& x == y ==> r is None
                    &&& b < x.block && b < y.block || x.block < b && y.block < b ==> r is None
                    &&& x.block < b < y.block || y.block < b < x.block ==> r is Some && (r->0).0 == 0
                        && (r->0).1 == len
                    &&& x.block == b && b < y.block ==> r is Some && (r->0).0 == x.offset && (
                    r->0).1 == len
                    &&& y.block == b && b < x.block ==> r is Some && (r->0).0 == y.offset && (
                    r->0).1 == len
                    &&& x.block == b && y.block < b ==> r == Some((0usize, x.offset))
                    &&& y.block == b && x.block < b ==> r == Some((0usize, y.offset))
                    &&& x.block == b && y.block == b && x.offset < y.offset ==> r == Some(
                        (x.offset, y.offset),
                    )
                    &&& x.block == b && y.block == b && y.offset < x.offset ==> r == Some(
                        (y.offset, x.offset),
                    )
                },
                None => true,
            },
    {
        let (a, c) = match self.sel {
            Some(ends) => ends,
            None => {
                return None;
            },
        };
        let (lo, hi) = if a.le(c) {
            (a, c)
        } else {
            (c, a)
        };
        if lo == hi || b < lo.block || hi.block < b {
            return None;
        }
        let start: usize = if b == lo.block {
            lo.offset
        } else {
            0
        };
        let end: usize = if b == hi.block {
            hi.offset
        } else {
            self.laid[b].as_str().as_bytes().len()
        };
        Some((start, end))
    }

    /// The caret position in block `block` at a point. `cursor` is the line and byte index
    /// that the layout found there; where it found none, the point is to the left of the
    /// text (its start) or not (its end). `line_lens` are the byte lengths of the lines of
    /// the layout.
    pub fn hit_text(
        &self,
        block: usize,
        cursor: Option<(usize, usize)>,
        left_of_text: bool,
        line_lens: &[usize],
    ) -> (r: TextPos)
        requires
            block < self@.laid.len(),
            line_start(line_lens@, line_lens@.len() as int) <= usize::MAX,
            cursor is Some ==> cursor_offset(line_lens@, (cursor->0).0 as int, (cursor->0).1 as int)
                <= usize::MAX,
        ensures
            r.block == block,
            r.offset <= encode_utf8(self@.laid[block as int]).len(),
            r.offset == {
                let len = encode_utf8(self@.laid[block as int]).len() as int;
                let at = match cursor {
                    Some(c) => cursor_offset(line_lens@, c.0 as int, c.1 as int),
                    None => if left_of_text {
                        0
                    } else {
                        len
                    },
                };
                if at < len {
                    at
                } else {
                    len
                }
            },
    {
        let len: usize = self.laid[block].as_str().as_bytes().len();
        let at: usize = match cursor {
            Some((line, index)) => cursor_to_offset(line_lens, line, index),
            None => if left_of_text {
                0
            } else {
                len
            },
        };
        TextPos {
            block,
            offset: if at < len {
                at
            } else {
                len
            },
        }
    }
}

/// Which block a point is in, given for each block whether the point is at or below its
/// top: the last such block, or the first block for a point above all of it.
pub open spec fn block_under(reached: Seq<bool>) -> int
    decreases reached.len(),
{
    if reached.len() <= 1 || !reached[0] {
        0
    } else if reached.last() {
        reached.len() - 1
    } else {
        block_under(reached.drop_last())
    }
}

/// The block that a point hits, given for each block whether the point is at or below its
/// top (clamped to the ends); none when there are no blocks.
pub fn block_at(reached: &[bool]) -> (r: Option<usize>)
    ensures
        reached@.len() == 0 ==> r is None,
        reached@.len() > 0 ==> r is Some && r->0 == block_under(reached@) && r->0 < reached@.len(),
{
    let n: usize = reached.len();
    if n == 0 {
        return None;
    }
    let mut k: usize = n;
    assert(reached@.take(n as int) == reached@);
    while k > 1 && reached[0] && !reached[k - 1]
        invariant
            1 <= k <= n,
            n == reached@.len(),
            block_under(reached@) == block_under(reached@.take(k as int)),
        decreases k,
    {
        assert(reached@.take(k as int).drop_last() == reached@.take(k - 1));
        k -= 1;
    }
    if reached[0] {
        Some(k - 1)
    } else {
        Some(0)
    }
}

/// A point is in the block that it is at or below the top of, unless it is below the top
/// of a later one; above the first top it is in the first block.
pub proof fn law_point_is_in_last_block_reached(reached: Seq<bool>)
    requires
        reached.len() > 0,
    ensures
        0 <= block_under(reached) < reached.len(),
        reached[0] ==> reached[block_under(reached)],
        reached[0] ==> forall|i: int| block_under(reached) < i < reached.len() ==> !reached[i],
        !reached[0] ==> block_under(reached) == 0,
    decreases reached.len(),
{
    if reached.len() > 1 && reached[0] && !reached.last() {
        law_point_is_in_last_block_reached(reached.drop_last());
        assert forall|i: int| block_under(reached) < i < reached.len() implies !reached[i] by {
            if i < reached.len() - 1 {
                assert(reached.drop_last()[i] == reached[i]);
            }
        }
    }
}

/// The byte offset where line `i` starts, for lines of the given byte lengths with one
/// newline after each.
pub open spec fn line_start(lens: Seq<usize>, i: int) -> int
    decreases i,
{
    if i <= 0 {
        0
    } else {
        line_start(lens, i - 1) + lens[i - 1] + 1
    }
}

proof fn lemma_line_start_grows(lens: Seq<usize>, i: int, j: int)
    requires
        0 <= i <= j,
    ensures
        0 <= line_start(lens, i) <= line_start(lens, j),
    decreases j,
{
    if j > i {
        lemma_line_start_grows(lens, i, j - 1);
    } else if i > 0 {
        lemma_line_start_grows(lens, i - 1, i - 1);
    }
}

/// The byte offset in the full text where each line of a layout starts.
pub fn line_starts(lens: &[usize]) -> (r: Vec<usize>)
    requires
        line_start(lens@, lens@.len() as int) <= usize::MAX,
    ensures
        r@.len() == lens@.len(),
        forall|i: int| 0 <= i < r@.len() ==> #[trigger] r@[i] == line_start(lens@, i),
{
    let n: usize = lens.len();
    let mut starts: Vec<usize> = Vec::new();
    let mut off: usize = 0;
    let mut i: usize = 0;
    while i < n
        invariant
            i <= n,
            n == lens@.len(),
            line_start(lens@, n as int) <= usize::MAX,
            off == line_start(lens@, i as int),
            starts@.len() == i,
            forall|k: int| 0 <= k < i ==> #[trigger] starts@[k] == line_start(lens@, k),
        decreases n - i,
    {
        starts.push(off);
        proof {
            lemma_line_start_grows(lens@, i + 1, n as int);
        }
        off = off + lens[i] + 1;
        i += 1;
    }
    starts
}

/// The byte offset of a cursor; a line that there is not counts as the first one.
pub open spec fn cursor_offset(lens: Seq<usize>, line: int, index: int) -> int {
    (if line < lens.len() {
        line_start(lens, line)
    } else {
        0
    }) + index
}

/// The byte offset in the full text of a cursor in a layout.
pub fn cursor_to_offset(lens: &[usize], line: usize, index: usize) -> (r: usize)
    requires
        line_start(lens@, lens@.len() as int) <= usize::MAX,
        cursor_offset(lens@, line as int, index as int) <= usize::MAX,
    ensures
        r == cursor_offset(lens@, line as int, index as int),
{
    let starts = line_starts(lens);
    if line < starts.len() {
        starts[line] + index
    } else {
        index
    }
}

/// The bytes of a line stand in the full text where the line is said to start.
pub proof fn law_lines_are_where_they_start(lines: Seq<Seq<char>>, lens: Seq<usize>, i: int)
    requires
        lens.len() == lines.len(),
        forall|k: int|
            0 <= k < lens.len() ==> #[trigger] lens[k] == encode_utf8(lines[k]).len(),
        0 <= i < lines.len(),
    ensures
        0 <= line_start(lens, i),
        line_start(lens, i) + lens[i] <= encode_utf8(join_with(lines, '\n')).len(),
        encode_utf8(join_with(lines, '\n')).subrange(
            line_start(lens, i),
            line_start(lens, i) + lens[i],
        ) == encode_utf8(lines[i]),
    decreases lines.len(),
{
    let n = lines.len() as int;
    let bytes = encode_utf8(join_with(lines, '\n'));
    lemma_line_start_grows(lens, i, i);
    lemma_joined_len(lines, lens);
    if n == 1 {
        assert(bytes.subrange(0, bytes.len() as int) == bytes);
    } else {
        let init = lines.drop_last();
        let before = join_with(init, '\n').push('\n');
        crate::blob::lemma_encode_concat(before, lines.last());
        crate::blob::lemma_encode_concat(join_with(init, '\n'), seq!['\n']);
        assert(join_with(init, '\n').push('\n') == join_with(init, '\n') + seq!['\n']);
        lemma_joined_len(init, lens.drop_last());
        lemma_newline_byte();
        lemma_line_start_prefix(lens, n - 1);
        if i == n - 1 {
            assert(bytes.subrange(line_start(lens, i), line_start(lens, i) + lens[i])
                == encode_utf8(lines.last()));
        } else {
            law_lines_are_where_they_start(init, lens.drop_last(), i);
            lemma_line_start_prefix(lens, i);
            let inner = encode_utf8(join_with(init, '\n'));
            assert(bytes.subrange(line_start(lens, i), line_start(lens, i) + lens[i])
                == inner.subrange(line_start(lens, i), line_start(lens, i) + lens[i]));
        }
    }
}

proof fn lemma_newline_byte()
    ensures
        encode_utf8(seq!['\n']).len() == 1,
{
    let nl = seq!['\n'];
    assert(vstd::utf8::is_ascii_chars(nl));
    vstd::utf8::is_ascii_chars_encode_utf8(nl);
}

proof fn lemma_line_start_prefix(lens: Seq<usize>, i: int)
    requires
        0 <= i < lens.len(),
    ensures
        line_start(lens.drop_last(), i) == line_start(lens, i),
    decreases i,
{
    if i > 0 {
        lemma_line_start_prefix(lens, i - 1);
    }
}

/// Joined lines are as long as the lines and the newlines between them.
proof fn lemma_joined_len(lines: Seq<Seq<char>>, lens: Seq<usize>)
    requires
        lines.len() > 0,
        lens.len() == lines.len(),
        forall|k: int|
            0 <= k < lens.len() ==> #[trigger] lens[k] == encode_utf8(lines[k]).len(),
    ensures
        encode_utf8(join_with(lines, '\n')).len() + 1 == line_start(lens, lens.len() as int),
    decreases lines.len(),
{
    let n = lines.len() as int;
    if n == 1 {
        assert(line_start(lens, 0) == 0);
        assert(line_start(lens, 1) == lens[0] + 1);
    } else {
        let init = lines.drop_last();
        let before = join_with(init, '\n').push('\n');
        lemma_joined_len(init, lens.drop_last());
        crate::blob::lemma_encode_concat(before, lines.last());
        crate::blob::lemma_encode_concat(join_with(init, '\n'), seq!['\n']);
        assert(join_with(init, '\n').push('\n') == join_with(init, '\n') + seq!['\n']);
        lemma_newline_byte();
        lemma_line_start_prefix(lens, n - 1);
        assert(lens.drop_last().len() == n - 1);
    }
}

/// Whether a glyph, at the bytes `start` to `end` of a line that begins at byte `line_off`,
/// lies in the selected byte range.
pub fn glyph_selected(line_off: usize, start: usize, end: usize, sel: (usize, usize)) -> (r: bool)
    requires
        line_off + start <= usize::MAX,
        line_off + end <= usize::MAX,
    ensures
        r == (sel.0 < line_off + end && line_off + start < sel.1),
        !r <==> line_off + end <= sel.0 || sel.1 <= line_off + start,
{
    line_off + end > sel.0 && line_off + start < sel.1
}

/// The first index that is marked, or the length when none is.
pub open spec fn first_marked(marks: Seq<bool>) -> int
    decreases marks.len(),
{
    if marks.len() == 0 || marks[0] {
        0
    } else {
        1 + first_marked(marks.drop_first())
    }
}

proof fn lemma_first_marked(marks: Seq<bool>, k: int)
    requires
        0 <= k <= marks.len(),
        forall|i: int| 0 <= i < k ==> !marks[i],
        k < marks.len() ==> marks[k],
    ensures
        first_marked(marks) == k,
    decreases marks.len(),
{
    if k > 0 {
        assert forall|i: int| 0 <= i < k - 1 implies !marks.drop_first()[i] by {
            assert(marks.drop_first()[i] == marks[i + 1]);
        }
        lemma_first_marked(marks.drop_first(), k - 1);
    }
}

/// The first index that is marked, if any. This is which code block consumes a horizontal
/// scroll, given whether each can scroll and has the point in its bounds.
pub fn first_hit(marks: &[bool]) -> (r: Option<usize>)
    ensures
        match r {
            Some(i) => i < marks@.len() && i == first_marked(marks@),
            None => first_marked(marks@) == marks@.len(),
        },
{
    let n: usize = marks.len();
    let mut i: usize = 0;
    while i < n
        invariant
            i <= n,
            n == marks@.len(),
            forall|k: int| 0 <= k < i ==> !marks@[k],
        decreases n - i,
    {
        if marks[i] {
            proof {
                lemma_first_marked(marks@, i as int);
            }
            return Some(i);
        }
        i += 1;
    }
    proof {
        lemma_first_marked(marks@, n as int);
    }
    None
}

/// The index of the button at a point, or -1, given for each button whether the point is
/// in its bounds.
pub fn hit_button(inside: &[bool]) -> (r: i32)
    ensures
        r == if first_marked(inside@) < inside@.len() {
            first_marked(inside@) as i32
        } else {
            -1i32
        },
{
    match first_hit(inside) {
        Some(i) => #[verifier::truncate]
        (i as i32),
        None => -1,
    }
}

/// What is first marked is marked, and nothing before it is.
pub proof fn law_first_marked_is_first(marks: Seq<bool>)
    ensures
        0 <= first_marked(marks) <= marks.len(),
        first_marked(marks) < marks.len() ==> marks[first_marked(marks)],
        forall|i: int| 0 <= i < first_marked(marks) ==> !marks[i],
    decreases marks.len(),
{
    if marks.len() > 0 && !marks[0] {
        let rest = marks.drop_first();
        law_first_marked_is_first(rest);
        assert forall|i: int| 0 <= i < first_marked(marks) implies !marks[i] by {
            if i > 0 {
                assert(rest[i - 1] == marks[i]);
            }
        }
    }
}

/// The numbers `from` to `to`, without `to`.
pub open spec fn counted(from: int, to: int) -> Seq<usize> {
    Seq::new(
        if from < to {
            (to - from) as nat
        } else {
            0
        },
        |i: int| (from + i) as usize,
    )
}

/// The rows in which buttons are packed, given for each whether it overflows the row that
/// it would be put in. A button that overflows starts a new row, unless the row is empty.
pub open spec fn packed(overflows: Seq<bool>) -> Seq<Seq<usize>>
    decreases overflows.len(),
{
    if overflows.len() == 0 {
        Seq::empty()
    } else {
        let rows = packed(overflows.drop_last());
        let i = (overflows.len() - 1) as usize;
        if rows.len() == 0 || overflows.last() {
            rows.push(seq![i])
        } else {
            rows.drop_last().push(rows.last().push(i))
        }
    }
}

/// The views of rows.
pub open spec fn row_views(rows: Seq<Vec<usize>>) -> Seq<Seq<usize>> {
    rows.map_values(|r: Vec<usize>| r@)
}

/// Packs the action buttons into rows that fit the width, so that a narrow panel wraps
/// them instead of overflowing.
pub struct ButtonRows {
    rows: Vec<Vec<usize>>,
    placed: usize,
    overflows: Ghost<Seq<bool>>,
}

impl ButtonRows {
    /// What the buttons that were placed said of overflowing.
    pub closed spec fn said(&self) -> Seq<bool> {
        self.overflows@
    }

    /// Whether the rows are those of the buttons that were placed.
    pub closed spec fn wf(&self) -> bool {
        self.placed == self.overflows@.len() && row_views(self.rows@) == packed(self.overflows@)
    }

    /// No buttons yet.
    pub fn new() -> (r: Self)
        ensures
            r.wf(),
            r.said() == Seq::<bool>::empty(),
    {
        let r = ButtonRows { rows: Vec::new(), placed: 0, overflows: Ghost(Seq::empty()) };
        assert(row_views(r.rows@) == Seq::<Seq<usize>>::empty());
        r
    }

    /// Whether the next button is the first of the first row, where it has no gap to its
    /// left.
    pub fn is_empty(&self) -> (r: bool)
        requires
            self.wf(),
        ensures
            r == (self.said().len() == 0),
    {
        self.placed == 0
    }

    /// Place the next button, given whether it overflows the current row. Returns whether
    /// it starts a row.
    pub fn place(&mut self, overflows: bool) -> (starts: bool)
        requires
            old(self).wf(),
            old(self).said().len() < usize::MAX,
        ensures
            final(self).wf(),
            final(self).said() == old(self).said().push(overflows),
            starts == (overflows || old(self).said().len() == 0),
    {
        let i: usize = self.placed;
        let ghost before = self.rows@;
        let ghost said = self.overflows@;
        let ghost all = said.push(overflows);
        proof {
            law_rows_hold_every_button(said);
            assert(all.drop_last() =~= said);
            assert(row_views(before).len() == before.len());
        }
        self.placed = i + 1;
        self.overflows = Ghost(all);
        match self.rows.pop() {
            None => {
                let row: Vec<usize> = vec![i];
                self.rows.push(row);
                assert(row@ == seq![i]);
                assert(row_views(self.rows@) == row_views(before).push(row@));
                true
            },
            Some(mut row) => {
                if overflows {
                    self.rows.push(row);
                    let next: Vec<usize> = vec![i];
                    self.rows.push(next);
                    assert(next@ == seq![i]);
                    assert(row_views(self.rows@) == row_views(before).push(next@));
                    true
                } else {
                    let ghost was = row@;
                    row.push(i);
                    self.rows.push(row);
                    assert(row_views(before).last() == was);
                    assert(row_views(self.rows@) == row_views(before).drop_last().push(
                        was.push(i),
                    ));
                    false
                }
            },
        }
    }

    /// The rows, each a list of button indices.
    pub fn finish(self) -> (r: Vec<Vec<usize>>)
        requires
            self.wf(),
        ensures
            row_views(r@) == packed(self.said()),
    {
        self.rows
    }
}

/// The rows hold every button once and in order, and no row is empty.
pub proof fn law_rows_hold_every_button(overflows: Seq<bool>)
    ensures
        packed(overflows).flatten() == counted(0, overflows.len() as int),
        forall|i: int| 0 <= i < packed(overflows).len() ==> (#[trigger] packed(overflows)[i]).len() > 0,
        packed(overflows).len() == 0 <==> overflows.len() == 0,
    decreases overflows.len(),
{
    let n = overflows.len() as int;
    if n == 0 {
        assert(packed(overflows).flatten() == Seq::<usize>::empty());
        assert(counted(0, 0) == Seq::<usize>::empty());
    } else {
        let init = overflows.drop_last();
        law_rows_hold_every_button(init);
        let rows = packed(init);
        let i = (n - 1) as usize;
        assert(counted(0, n) == counted(0, n - 1).push(i));
        if rows.len() == 0 || overflows.last() {
            rows.lemma_flatten_push(seq![i]);
            assert(rows.flatten() + seq![i] == rows.flatten().push(i));
        } else {
            let head = rows.drop_last();
            head.lemma_flatten_push(rows.last());
            head.lemma_flatten_push(rows.last().push(i));
            assert(head.push(rows.last()) == rows);
            assert(head.flatten() + rows.last().push(i) == (head.flatten() + rows.last()).push(i));
        }
        assert forall|k: int| 0 <= k < packed(overflows).len() implies (
        #[trigger] packed(overflows)[k]).len() > 0 by {
            if k < rows.len() {
                assert(rows[k].len() > 0);
            }
        }
    }
}

/// The family to use for a style after fonts were set: an empty path keeps the current
/// family, any other path takes what loading it gave.
pub fn family_after(current: Option<String>, path: &str, loaded: Option<String>) -> (r: Option<
    String,
>)
    ensures
        r == if path@.len() == 0 {
            current
        } else {
            loaded
        },
{
    if path.is_empty() {
        current
    } else {
        loaded
    }
}

/// A size of zero becomes one pixel, and any other size stays.
pub proof fn law_sizes_are_not_zero(n: u32)
    ensures
        at_least_one(n) > 0,
        n > 0 ==> at_least_one(n) == n,
        n == 0 ==> at_least_one(n) == 1,
{
}

/// The first line starts at the beginning, and each other line after the line before and a
/// newline. A cursor is so far into its line, or into the text where there is no such line.
pub proof fn law_lines_follow_each_other(lens: Seq<usize>, i: int, index: int)
    requires
        0 <= i,
    ensures
        line_start(lens, 0) == 0,
        line_start(lens, i + 1) == line_start(lens, i) + lens[i] + 1,
        i < lens.len() ==> cursor_offset(lens, i, index) == line_start(lens, i) + index,
        i >= lens.len() ==> cursor_offset(lens, i, index) == index,
{
}

/// The rows hold the buttons `0`, `1` and so on in this order. Of the buttons that do not
/// come first of all, exactly those that overflow start a row.
pub proof fn law_rows_break_at_overflows(overflows: Seq<bool>)
    requires
        overflows.len() <= usize::MAX,
    ensures
        packed(overflows).flatten().len() == overflows.len(),
        forall|i: int| 0 <= i < overflows.len() ==> #[trigger] packed(overflows).flatten()[i] == i,
        forall|r: int, c: int|
            0 <= r < packed(overflows).len() && 0 <= c < packed(overflows)[r].len() ==> (
            #[trigger] packed(overflows)[r][c]) < overflows.len() && (r > 0 && c == 0
                ==> overflows[packed(overflows)[r][c] as int]) && (c > 0
                ==> !overflows[packed(overflows)[r][c] as int]),
    decreases overflows.len(),
{
    law_rows_hold_every_button(overflows);
    let all = packed(overflows);
    if overflows.len() > 0 {
        let init = overflows.drop_last();
        law_rows_break_at_overflows(init);
        law_rows_hold_every_button(init);
        let rows = packed(init);
        let n = overflows.len() - 1;
        assert forall|r: int, c: int| 0 <= r < all.len() && 0 <= c < all[r].len() implies (
        #[trigger] all[r][c]) < overflows.len() && (r > 0 && c == 0 ==> overflows[all[r][c] as int])
            && (c > 0 ==> !overflows[all[r][c] as int]) by {
            if r < rows.len() && c < rows[r].len() {
                assert(all[r][c] == rows[r][c]);
                assert(rows[r][c] < init.len());
                assert(init[rows[r][c] as int] == overflows[rows[r][c] as int]);
            } else {
                assert(all[r][c] == n);
            }
        }
    }
}

} // verus!
