//! The completion popup without its window: which rows it shows and with what text, when
//! its window is made, shown and hidden, and how a frame is acquired.
//!
//! The popup is display-only; the host drives the selection. Its items are lines, each a
//! kind character and a label.

use vstd::prelude::*;

use crate::text::{chars_of, lines_of, split, texts};

verus! {

/// How many rows are visible; the list scrolls past this.
pub const MAX_ROWS: usize = 10;

/// The part of the list that is visible.
#[derive(Clone, Copy, Debug, PartialEq, Eq, Structural)]
pub struct Window {
    /// The first visible row.
    pub top: usize,
    /// How many rows are visible.
    pub visible: usize,
}

/// How many of `total` rows are visible.
pub open spec fn visible_of(total: int) -> int {
    if total < MAX_ROWS {
        total
    } else {
        MAX_ROWS as int
    }
}

/// The first visible row of `total`, scrolled down by `scroll` rows, but never past the
/// end.
pub open spec fn top_of(total: int, scroll: int) -> int {
    if scroll < total - visible_of(total) {
        scroll
    } else {
        total - visible_of(total)
    }
}

/// The rows of a list of `total` that are visible when it is scrolled down by `scroll`.
pub fn window(total: usize, scroll: usize) -> (r: Window)
    ensures
        r.visible == visible_of(total as int),
        r.top == top_of(total as int, scroll as int),
        r.top + r.visible <= total,
{
    let visible: usize = if total < MAX_ROWS {
        total
    } else {
        MAX_ROWS
    };
    let top: usize = if scroll < total - visible {
        scroll
    } else {
        total - visible
    };
    Window { top, visible }
}

/// The row of the window that shows the selected item, if it is visible.
pub fn selected_row(win: Window, selected: usize) -> (r: Option<usize>)
    requires
        win.top + win.visible <= usize::MAX,
    ensures
        r == if win.top <= selected < win.top + win.visible {
            Some((selected - win.top) as usize)
        } else {
            None
        },
        r is Some ==> r->0 < win.visible && win.top + r->0 == selected,
        r is None ==> selected < win.top || win.top + win.visible <= selected,
{
    if selected >= win.top && selected < win.top + win.visible {
        Some(selected - win.top)
    } else {
        None
    }
}

/// The window is full whenever there are rows enough, lies within the list, and does not
/// scroll at all when everything fits.
pub proof fn law_window_is_full(total: int, scroll: int)
    requires
        0 <= total,
        0 <= scroll,
    ensures
        0 <= top_of(total, scroll) <= scroll,
        top_of(total, scroll) + visible_of(total) <= total,
        total >= MAX_ROWS ==> visible_of(total) == MAX_ROWS,
        total <= MAX_ROWS ==> visible_of(total) == total && top_of(total, scroll) == 0,
{
}

/// Every row can be scrolled into the window, and stays visible from there.
pub proof fn law_every_row_can_be_seen(total: int, row: int)
    requires
        0 <= row < total,
    ensures
        top_of(total, row) <= row < top_of(total, row) + visible_of(total),
{
}

/// The badge letter of a kind.
pub open spec fn badge_of(kind: char) -> char {
    if kind == 'X' {
        'M'
    } else if kind == 'A' || kind == 'L' {
        'v'
    } else if kind == ' ' {
        '\u{b7}'
    } else {
        kind
    }
}

/// The badge letter of a kind.
pub fn kind_badge(kind: char) -> (r: char)
    ensures
        r == badge_of(kind),
{
    match kind {
        'X' => 'M',
        'A' | 'L' => 'v',
        ' ' => '\u{b7}',
        k => k,
    }
}

/// The kind of a line: its first character (a space when it is empty).
pub open spec fn kind_of(line: Seq<char>) -> char {
    if line.len() == 0 {
        ' '
    } else {
        line[0]
    }
}

/// The label of a line: what follows its kind.
pub open spec fn label_of(line: Seq<char>) -> Seq<char> {
    if line.len() == 0 {
        line
    } else {
        line.drop_first()
    }
}

/// A line as it is shown: its badge, a space and its label.
pub open spec fn row_text(line: Seq<char>) -> Seq<char> {
    seq![badge_of(kind_of(line)), ' '] + label_of(line)
}

/// The text of the rows that show `lines`.
pub open spec fn rows_text(lines: Seq<Seq<char>>) -> Seq<char>
    decreases lines.len(),
{
    if lines.len() == 0 {
        Seq::empty()
    } else if lines.len() == 1 {
        row_text(lines[0])
    } else {
        rows_text(lines.drop_last()).push('\n') + row_text(lines.last())
    }
}

/// The text of the rows that show `lines`.
pub proof fn law_rows_are_lines(lines: Seq<Seq<char>>)
    ensures
        rows_text(lines) == crate::text::join_with(
            lines.map_values(|l: Seq<char>| row_text(l)),
            '\n',
        ),
    decreases lines.len(),
{
    let rows = lines.map_values(|l: Seq<char>| row_text(l));
    if lines.len() > 1 {
        law_rows_are_lines(lines.drop_last());
        assert(rows.drop_last() == lines.drop_last().map_values(|l: Seq<char>| row_text(l)));
    }
}

/// The text and the kinds of the rows of `lines` that are in the window.
pub fn visible_rows(lines: &[String], win: Window) -> (r: (String, Vec<char>))
    requires
        win.top + win.visible <= lines@.len(),
    ensures
        (r.0)@ == rows_text(texts(lines@).subrange(win.top as int, win.top + win.visible)),
        (r.1)@.len() == win.visible,
        forall|i: int|
            0 <= i < win.visible ==> #[trigger] (r.1)@[i] == kind_of(texts(lines@)[win.top + i]),
{
    let n: usize = lines.len();
    let ghost shown = texts(lines@).subrange(win.top as int, win.top + win.visible);
    let mut joined = String::new();
    let mut kinds: Vec<char> = Vec::new();
    let mut i: usize = 0;
    assert(shown.take(0) == Seq::<Seq<char>>::empty());
    while i < win.visible
        invariant
            i <= win.visible,
            win.top + win.visible <= n,
            n == lines@.len(),
            shown == texts(lines@).subrange(win.top as int, win.top + win.visible),
            joined@ == rows_text(shown.take(i as int)),
            kinds@.len() == i,
            forall|k: int|
                0 <= k < i ==> #[trigger] kinds@[k] == kind_of(texts(lines@)[win.top + k]),
        decreases win.visible - i,
    {
        let line = lines[win.top + i].as_str();
        let chars = chars_of(line);
        let kind = if chars.len() == 0 {
            ' '
        } else {
            chars[0]
        };
        proof {
            assert(shown[i as int] == line@);
            assert(shown.take(i + 1).drop_last() == shown.take(i as int));
            assert(shown.take(i + 1).last() == line@);
            assert(shown.take(1)[0] == shown[0]);
        }
        kinds.push(kind);
        if i > 0 {
            joined.push('\n');
        }
        let ghost before = joined@;
        joined.push(kind_badge(kind));
        joined.push(' ');
        if chars.len() > 0 {
            let label = crate::text::string_from(chars.as_slice(), 1, chars.len());
            joined.append(label.as_str());
        }
        assert(joined@ == before + row_text(line@));
        assert(joined@ == rows_text(shown.take(i + 1)));
        i += 1;
    }
    assert(shown.take(i as int) == shown);
    (joined, kinds)
}

/// The number of characters of the widest of `lines`.
pub open spec fn widest(lines: Seq<Seq<char>>) -> nat
    decreases lines.len(),
{
    if lines.len() == 0 {
        0
    } else {
        let w = widest(lines.drop_last());
        if lines.last().len() > w {
            lines.last().len()
        } else {
            w
        }
    }
}

/// The size of the popup in cells: the characters of its widest line (8 when there is no
/// line) and its visible rows.
pub fn list_cells(lines: &[String]) -> (r: (usize, usize))
    ensures
        r.0 == if lines@.len() == 0 {
            8
        } else {
            widest(texts(lines@))
        },
        r.1 == visible_of(lines@.len() as int),
{
    let n: usize = lines.len();
    let win = window(n, 0);
    if n == 0 {
        return (8, win.visible);
    }
    let mut w: usize = 0;
    let mut i: usize = 0;
    while i < n
        invariant
            i <= n,
            n == lines@.len(),
            w == widest(texts(lines@).take(i as int)),
        decreases n - i,
    {
        let chars = chars_of(lines[i].as_str());
        assert(texts(lines@).take(i + 1).drop_last() == texts(lines@).take(i as int));
        assert(texts(lines@).take(i + 1).last() == chars@);
        if chars.len() > w {
            w = chars.len();
        }
        i += 1;
    }
    assert(texts(lines@).take(i as int) == texts(lines@));
    (w, win.visible)
}

/// The width fits every line.
pub proof fn law_width_fits_lines(lines: Seq<Seq<char>>, i: int)
    requires
        0 <= i < lines.len(),
    ensures
        lines[i].len() <= widest(lines),
    decreases lines.len(),
{
    if i < lines.len() - 1 {
        law_width_fits_lines(lines.drop_last(), i);
    }
}

/// What is to be done to show some items.
#[derive(Debug)]
pub enum ShowAction {
    /// There is nothing to show: hide the popup.
    Hide,
    /// Make the window, if `create` is set, and draw these lines in it.
    Draw { create: bool, lines: Vec<String> },
}

/// Whether the popup has a window, and whether that is revealed.
#[derive(Clone, Copy, Debug, PartialEq, Eq, Structural)]
pub struct Popup {
    pub alive: bool,
    pub shown: bool,
    /// The size that the surface is configured for.
    pub w: u32,
    pub h: u32,
}

impl Popup {
    /// No window yet.
    pub fn new() -> (r: Self)
        ensures
            r == (Popup { alive: false, shown: false, w: 0, h: 0 }),
    {
        Popup { alive: false, shown: false, w: 0, h: 0 }
    }

    /// Show or refresh the popup with `\n`-joined items. The window is made on first use.
    pub fn show(&self, items: &str) -> (r: ShowAction)
        ensures
            r is Hide <==> items@.len() == 0,
            r matches ShowAction::Draw { create, lines } ==> create == !self.alive && texts(lines@)
                == lines_of(items@) && lines@.len() > 0,
    {
        if items.is_empty() {
            ShowAction::Hide
        } else {
            ShowAction::Draw { create: !self.alive, lines: split(items, '\n') }
        }
    }

    /// The outcome of making the window, which starts out hidden and without a size.
    pub fn created(&mut self, ok: bool)
        ensures
            *final(self) == (Popup { alive: ok, shown: false, w: 0, h: 0 }),
    {
        self.alive = ok;
        self.shown = false;
        self.w = 0;
        self.h = 0;
    }

    /// Take the size to draw at. Returns whether the surface is to be configured anew.
    pub fn configure(&mut self, w: u32, h: u32) -> (changed: bool)
        ensures
            *final(self) == (Popup { w, h, ..*old(self) }),
            changed == (old(self).w != w || old(self).h != h),
    {
        if self.w == w && self.h == h {
            return false;
        }
        self.w = w;
        self.h = h;
        true
    }

    /// The size to configure the surface with: at least one pixel.
    pub fn surface_size(&self) -> (r: (u32, u32))
        ensures
            r.0 == if self.w == 0 {
                1
            } else {
                self.w
            },
            r.1 == if self.h == 0 {
                1
            } else {
                self.h
            },
    {
        (
            if self.w == 0 {
                1
            } else {
                self.w
            },
            if self.h == 0 {
                1
            } else {
                self.h
            },
        )
    }

    /// After drawing: returns whether the window is to be revealed, which is when a frame
    /// was presented in a hidden window.
    pub fn drawn(&mut self, presented: bool) -> (reveal: bool)
        ensures
            reveal == (presented && !old(self).shown),
            *final(self) == (Popup { shown: old(self).shown || presented, ..*old(self) }),
    {
        if presented && !self.shown {
            self.shown = true;
            true
        } else {
            false
        }
    }

    /// Hide the popup. Its window stays alive, so that the next show is cheap. Returns
    /// whether there is a window to hide.
    pub fn hide_window(&mut self) -> (r: bool)
        ensures
            r == old(self).alive,
            *final(self) == (Popup {
                shown: old(self).shown && !old(self).alive,
                ..*old(self)
            }),
    {
        if self.alive {
            self.shown = false;
        }
        self.alive
    }

    /// After a GPU error the popup is disabled: the window is dropped, and the next show
    /// makes a new one.
    pub fn gpu_error(&mut self)
        ensures
            *final(self) == (Popup { alive: false, shown: false, w: 0, h: 0 }),
    {
        self.alive = false;
        self.shown = false;
        self.w = 0;
        self.h = 0;
    }
}

/// What asking for the next frame of the surface gave.
#[derive(Clone, Copy, Debug, PartialEq, Eq, Structural)]
pub enum Acquired {
    /// A frame, if not an ideal one.
    Frame,
    /// The surface does not fit its window any more, or was lost.
    Outdated,
    /// No frame: the window is occluded, it took too long, or something else went wrong.
    Unavailable,
}

/// What to do next to get a frame.
#[derive(Clone, Copy, Debug, PartialEq, Eq, Structural)]
pub enum AcquireStep {
    /// Draw and present the frame.
    Draw,
    /// Configure the surface anew and ask once more.
    Retry,
    /// Leave the stale frame as it is.
    Skip,
}

/// What to do after the first (or, with `retried`, the second) attempt to get a frame.
pub fn acquire_step(retried: bool, got: Acquired) -> (r: AcquireStep)
    ensures
        r == match got {
            Acquired::Frame => AcquireStep::Draw,
            Acquired::Outdated => if retried {
                AcquireStep::Skip
            } else {
                AcquireStep::Retry
            },
            Acquired::Unavailable => AcquireStep::Skip,
        },
        retried ==> r != AcquireStep::Retry,
{
    match got {
        Acquired::Frame => AcquireStep::Draw,
        Acquired::Outdated => if retried {
            AcquireStep::Skip
        } else {
            AcquireStep::Retry
        },
        Acquired::Unavailable => AcquireStep::Skip,
    }
}

/// Which of the offered modes to take, given which are preferred: the first preferred one,
/// else the first one; none when nothing is offered.
pub fn pick_preferred(preferred: &[bool]) -> (r: Option<usize>)
    ensures
        preferred@.len() == 0 ==> r is None,
        preferred@.len() > 0 ==> r == Some(
            if crate::panel::first_marked(preferred@) < preferred@.len() {
                crate::panel::first_marked(preferred@) as usize
            } else {
                0
            },
        ),
{
    proof {
        crate::panel::law_first_marked_is_first(preferred@);
    }
    match crate::panel::first_hit(preferred) {
        Some(i) => Some(i),
        None => if preferred.len() == 0 {
            None
        } else {
            Some(0)
        },
    }
}

/// All rows of a short list are visible, and ten of a longer one. The window starts at the
/// row that it is scrolled to, as long as it is full there, and else ends with the list.
pub proof fn law_window_in_numbers(total: int, scroll: int)
    requires
        0 <= total,
        0 <= scroll,
    ensures
        total <= 10 ==> visible_of(total) == total,
        total >= 10 ==> visible_of(total) == 10,
        scroll + visible_of(total) <= total ==> top_of(total, scroll) == scroll,
        scroll + visible_of(total) > total ==> top_of(total, scroll) + visible_of(total) == total,
{
}

/// A row shows the badge of its kind, a space and its label. The badge is `M` for the kind
/// `X`, `v` for `A` and `L`, a dot for no kind, and else the kind itself.
pub proof fn law_row_shows_badge_and_label(kind: char, label: Seq<char>, badge: char)
    requires
        kind == 'X' ==> badge == 'M',
        kind == 'A' || kind == 'L' ==> badge == 'v',
        kind == ' ' ==> badge == '\u{b7}',
        kind != 'X' && kind != 'A' && kind != 'L' && kind != ' ' ==> badge == kind,
    ensures
        row_text(seq![kind] + label) == seq![badge, ' '] + label,
        kind_of(seq![kind] + label) == kind,
        row_text(Seq::empty()) == seq!['\u{b7}', ' '],
        kind_of(Seq::empty()) == ' ',
{
    assert((seq![kind] + label).drop_first() == label);
    assert(row_text(Seq::empty()) == seq!['\u{b7}', ' ']);
}

/// The width is that of one of the lines.
pub proof fn law_width_is_of_a_line(lines: Seq<Seq<char>>)
    requires
        lines.len() > 0,
    ensures
        exists|i: int| 0 <= i < lines.len() && (#[trigger] lines[i]).len() == widest(lines),
    decreases lines.len(),
{
    let init = lines.drop_last();
    assert(init.len() == 0 ==> widest(init) == 0);
    if init.len() == 0 || lines.last().len() > widest(init) {
        assert(lines[lines.len() - 1].len() == widest(lines));
    } else {
        law_width_is_of_a_line(init);
        let i = choose|i: int| 0 <= i < init.len() && (#[trigger] init[i]).len() == widest(init);
        assert(lines[i].len() == widest(lines));
    }
}

} // verus!
