//! Markdown as a flat list of styled blocks, for the agent panel.
//!
//! Only what a chat transcript needs is modeled: paragraphs, headings, fenced and
//! indented code blocks (flagged when the language is `diff`), list items, block quotes
//! and horizontal rules, with inline bold, italic, code and link styling carried per text
//! span. The parsing itself is done by `pulldown-cmark`.

use pulldown_cmark::CodeBlockKind::Fenced;
use pulldown_cmark::Event::{Code, End, HardBreak, Rule, SoftBreak, Start, Text};
use pulldown_cmark::TagEnd::{
    BlockQuote, CodeBlock, Emphasis, Heading, Item, Link, List, Paragraph, Strong,
};
use pulldown_cmark::{Parser, Tag};
use vstd::prelude::*;
use vstd::utf8::is_ascii_chars;

use self::MdEvent::{
    Close, HardLine, Open, OpenFence, OpenList, Ruler, Skipped, SoftLine, Verbatim, Words,
};
use self::MdTag::{
    Bold, CodeBox, Hyperlink, Italic, ListBox, ListEntry, Misc, Para, Quotation, Title,
};
use crate::text::{ascii_lower, chars_of, same_text, string_from};

verus! {

/// A run of text with uniform inline styling.
#[derive(Debug)]
pub struct Span {
    pub text: String,
    pub bold: bool,
    pub italic: bool,
    pub code: bool,
    pub link: bool,
}

/// What a [`Span`] holds.
#[verifier::ext_equal]
pub struct SpanView {
    pub text: Seq<char>,
    pub bold: bool,
    pub italic: bool,
    pub code: bool,
    pub link: bool,
}

impl View for Span {
    type V = SpanView;

    open spec fn view(&self) -> SpanView {
        SpanView {
            text: self.text@,
            bold: self.bold,
            italic: self.italic,
            code: self.code,
            link: self.link,
        }
    }
}

impl Clone for Span {
    fn clone(&self) -> (r: Self)
        ensures
            r@ == self@,
    {
        Span {
            text: self.text.clone(),
            bold: self.bold,
            italic: self.italic,
            code: self.code,
            link: self.link,
        }
    }
}

impl Default for Span {
    fn default() -> (r: Self)
        ensures
            r@ == (SpanView {
                text: Seq::empty(),
                bold: false,
                italic: false,
                code: false,
                link: false,
            }),
    {
        Span { text: String::new(), bold: false, italic: false, code: false, link: false }
    }
}

/// What spans hold.
pub open spec fn span_views(spans: Seq<Span>) -> Seq<SpanView> {
    spans.map_values(|s: Span| s@)
}

/// A block-level element.
#[derive(Debug)]
pub enum Block {
    Paragraph(Vec<Span>),
    Heading { level: u8, spans: Vec<Span> },
    Code { text: String, lang: Option<String>, diff: bool },
    ListItem { depth: u8, marker: String, spans: Vec<Span> },
    Quote(Vec<Span>),
    Rule,
}

/// What a [`Block`] holds.
#[verifier::ext_equal]
pub enum BlockView {
    Paragraph(Seq<SpanView>),
    Heading { level: u8, spans: Seq<SpanView> },
    Code { text: Seq<char>, lang: Option<Seq<char>>, diff: bool },
    ListItem { depth: u8, marker: Seq<char>, spans: Seq<SpanView> },
    Quote(Seq<SpanView>),
    Rule,
}

/// What a language that may be missing holds.
pub open spec fn lang_view(lang: Option<String>) -> Option<Seq<char>> {
    match lang {
        Some(l) => Some(l@),
        None => None,
    }
}

impl View for Block {
    type V = BlockView;

    open spec fn view(&self) -> BlockView {
        match *self {
            Block::Paragraph(spans) => BlockView::Paragraph(span_views(spans@)),
            Block::Heading { level, spans } => BlockView::Heading {
                level,
                spans: span_views(spans@),
            },
            Block::Code { text, lang, diff } => BlockView::Code {
                text: text@,
                lang: lang_view(lang),
                diff,
            },
            Block::ListItem { depth, marker, spans } => BlockView::ListItem {
                depth,
                marker: marker@,
                spans: span_views(spans@),
            },
            Block::Quote(spans) => BlockView::Quote(span_views(spans@)),
            Block::Rule => BlockView::Rule,
        }
    }
}

/// What blocks hold.
pub open spec fn block_views(blocks: Seq<Block>) -> Seq<BlockView> {
    blocks.map_values(|b: Block| b@)
}

/// The kinds of elements that are told apart.
#[derive(Clone, Copy, Debug, PartialEq, Eq, Structural)]
pub enum MdTag {
    Bold,
    Italic,
    Hyperlink,
    CodeBox,
    ListEntry,
    Para,
    /// A heading with its level.
    Title(u8),
    ListBox,
    Quotation,
    /// Any other element.
    Misc,
}

/// A parsing event.
#[derive(Debug)]
pub enum MdEvent {
    /// A list starts, with the number of its first item when it is ordered.
    OpenList(Option<u64>),
    /// A fenced code block starts, with the text after its fence.
    OpenFence(String),
    /// Any other element starts.
    Open(MdTag),
    /// An element ends.
    Close(MdTag),
    /// Text.
    Words(String),
    /// Inline code.
    Verbatim(String),
    SoftLine,
    HardLine,
    /// A horizontal rule.
    Ruler,
    /// Anything else.
    Skipped,
}

/// What an [`MdEvent`] holds.
#[verifier::ext_equal]
pub enum EventView {
    OpenList(Option<u64>),
    OpenFence(Seq<char>),
    Open(MdTag),
    Close(MdTag),
    Words(Seq<char>),
    Verbatim(Seq<char>),
    SoftLine,
    HardLine,
    Ruler,
    Skipped,
}

impl View for MdEvent {
    type V = EventView;

    open spec fn view(&self) -> EventView {
        match *self {
            MdEvent::OpenList(first) => EventView::OpenList(first),
            MdEvent::OpenFence(info) => EventView::OpenFence(info@),
            MdEvent::Open(tag) => EventView::Open(tag),
            MdEvent::Close(tag) => EventView::Close(tag),
            MdEvent::Words(t) => EventView::Words(t@),
            MdEvent::Verbatim(t) => EventView::Verbatim(t@),
            MdEvent::SoftLine => EventView::SoftLine,
            MdEvent::HardLine => EventView::HardLine,
            MdEvent::Ruler => EventView::Ruler,
            MdEvent::Skipped => EventView::Skipped,
        }
    }
}

/// What events hold.
pub open spec fn event_views(events: Seq<MdEvent>) -> Seq<EventView> {
    events.map_values(|e: MdEvent| e@)
}

/// The parsing events of a Markdown text.
pub uninterp spec fn markdown_events(md: Seq<char>) -> Seq<EventView>;

/// The events of `pulldown_cmark::Parser::new`, without extensions. Which events a text
/// has is left to the name [`markdown_events`]; what is claimed of them is that starts and
/// ends of elements pair up, and that no code block starts inside another.
#[verifier::external_body]
fn parse_events(md: &str) -> (r: Vec<MdEvent>)
    ensures
        event_views(r@) == markdown_events(md@),
        balanced(event_views(r@), Seq::empty()),
        code_in_turn(event_views(r@), false),
{
    let tag = |end| match end {
        Strong => Bold, Emphasis => Italic, Link => Hyperlink, CodeBlock => CodeBox,
        Item => ListEntry, Paragraph => Para, Heading(level) => Title(level as u8),
        List(_) => ListBox, BlockQuote(_) => Quotation, _ => Misc,
    };
    Parser::new(md).map(|event| match event {
        Start(Tag::List(first)) => OpenList(first),
        Start(Tag::CodeBlock(Fenced(info))) => OpenFence(info.to_string()),
        Start(start) => Open(tag(start.to_end())),
        End(end) => Close(tag(end)),
        Text(t) => Words(t.to_string()),
        Code(t) => Verbatim(t.to_string()),
        SoftBreak => SoftLine, HardBreak => HardLine, Rule => Ruler, _ => Skipped,
    }).collect()
}

/// Whether a character is white space in Unicode.
pub open spec fn is_white_space(c: char) -> bool {
    let n = c as int;
    ||| 0x09 <= n <= 0x0d
    ||| n == 0x20
    ||| n == 0x85
    ||| n == 0xa0
    ||| n == 0x1680
    ||| 0x2000 <= n <= 0x200a
    ||| n == 0x2028
    ||| n == 0x2029
    ||| n == 0x202f
    ||| n == 0x205f
    ||| n == 0x3000
}

/// Whether a character is white space in Unicode.
pub fn white_space(c: char) -> (r: bool)
    ensures
        r == is_white_space(c),
{
    let n: u32 = c as u32;
    (0x09 <= n && n <= 0x0d) || n == 0x20 || n == 0x85 || n == 0xa0 || n == 0x1680 || (0x2000 <= n
        && n <= 0x200a) || n == 0x2028 || n == 0x2029 || n == 0x202f || n == 0x205f || n == 0x3000
}

/// How many characters at the start of `s` are white space.
pub open spec fn leading_space(s: Seq<char>) -> nat
    decreases s.len(),
{
    if s.len() > 0 && is_white_space(s[0]) {
        1 + leading_space(s.drop_first())
    } else {
        0
    }
}

/// How many characters at the start of `s` are not white space.
pub open spec fn leading_word(s: Seq<char>) -> nat
    decreases s.len(),
{
    if s.len() > 0 && !is_white_space(s[0]) {
        1 + leading_word(s.drop_first())
    } else {
        0
    }
}

/// The first word of `s` (empty when there is none).
pub open spec fn first_word(s: Seq<char>) -> Seq<char> {
    let rest = s.skip(leading_space(s) as int);
    rest.take(leading_word(rest) as int)
}

proof fn lemma_leading_space(s: Seq<char>, k: int)
    requires
        0 <= k <= s.len(),
        forall|i: int| 0 <= i < k ==> is_white_space(#[trigger] s[i]),
        k < s.len() ==> !is_white_space(s[k]),
    ensures
        leading_space(s) == k,
    decreases s.len(),
{
    if k > 0 {
        assert(is_white_space(s[0]));
        assert forall|i: int| 0 <= i < k - 1 implies is_white_space(#[trigger] s.drop_first()[i]) by {
            assert(s.drop_first()[i] == s[i + 1]);
        }
        lemma_leading_space(s.drop_first(), k - 1);
    }
}

proof fn lemma_leading_word(s: Seq<char>, k: int)
    requires
        0 <= k <= s.len(),
        forall|i: int| 0 <= i < k ==> !is_white_space(#[trigger] s[i]),
        k < s.len() ==> is_white_space(s[k]),
    ensures
        leading_word(s) == k,
    decreases s.len(),
{
    if k > 0 {
        assert(!is_white_space(s[0]));
        assert forall|i: int| 0 <= i < k - 1 implies !is_white_space(#[trigger] s.drop_first()[i]) by {
            assert(s.drop_first()[i] == s[i + 1]);
        }
        lemma_leading_word(s.drop_first(), k - 1);
    }
}

fn word_of(s: &str) -> (r: String)
    ensures
        r@ == first_word(s@),
{
    let chars = chars_of(s);
    let mut from: usize = 0;
    while from < chars.len() && white_space(chars[from])
        invariant
            from <= chars@.len(),
            forall|i: int| 0 <= i < from ==> is_white_space(#[trigger] chars@[i]),
        decreases chars@.len() - from,
    {
        from += 1;
    }
    let mut to: usize = from;
    while to < chars.len() && !white_space(chars[to])
        invariant
            from <= to <= chars@.len(),
            forall|i: int| from <= i < to ==> !is_white_space(#[trigger] chars@[i]),
        decreases chars@.len() - to,
    {
        to += 1;
    }
    proof {
        lemma_leading_space(s@, from as int);
        let rest = s@.skip(from as int);
        assert forall|i: int| 0 <= i < to - from implies !is_white_space(#[trigger] rest[i]) by {
            assert(rest[i] == chars@[from + i]);
        }
        lemma_leading_word(rest, to - from);
        assert(rest.take(to - from) == s@.subrange(from as int, to as int));
    }
    string_from(chars.as_slice(), from, to)
}

/// The Unicode lower case of a text.
pub uninterp spec fn unicode_lower(s: Seq<char>) -> Seq<char>;

/// The lower case of a text.
pub open spec fn lower_case(s: Seq<char>) -> Seq<char> {
    if is_ascii_chars(s) {
        ascii_lower(s)
    } else {
        unicode_lower(s)
    }
}

/// `str::to_lowercase`. An ASCII text has its letters `A` to `Z` in lower case; what
/// Unicode says of any other text is left to the name [`unicode_lower`].
#[verifier::external_body]
fn to_lowercase(s: &str) -> (r: String)
    ensures
        r@ == if is_ascii_chars(s@) {
            ascii_lower(s@)
        } else {
            unicode_lower(s@)
        },
{
    s.to_lowercase()
}

/// The decimal digits of a number.
pub open spec fn decimal_text(n: nat) -> Seq<char>
    decreases n,
{
    if n < 10 {
        seq![(48 + n) as char]
    } else {
        decimal_text(n / 10).push((48 + n % 10) as char)
    }
}

fn digit(n: u8) -> (c: char)
    requires
        n < 10,
    ensures
        c == (48 + n) as char,
{
    (48 + n) as char
}

/// The decimal digits of a number.
fn decimal(n: u128) -> (r: String)
    ensures
        r@ == decimal_text(n as nat),
    decreases n,
{
    if n < 10 {
        let mut out = String::new();
        out.push(digit(n as u8));
        out
    } else {
        let mut out = decimal(n / 10);
        out.push(digit((n % 10) as u8));
        out
    }
}

/// What is known after some of the events.
#[verifier::ext_equal]
pub struct Progress {
    /// The finished blocks.
    pub out: Seq<BlockView>,
    /// The spans of the block that is being read.
    pub spans: Seq<SpanView>,
    /// How many bold, italic and link elements are open, so that nested styles add up.
    pub bold: nat,
    pub italic: nat,
    pub link: nat,
    /// The open lists: whether each is ordered, and the number of its next item.
    pub lists: Seq<(bool, int)>,
    /// The marker of the current list item.
    pub marker: Seq<char>,
    pub heading: Option<u8>,
    /// How many block quotes are open.
    pub quote: nat,
    pub in_code: bool,
    pub code_text: Seq<char>,
    pub code_lang: Option<Seq<char>>,
    pub code_diff: bool,
}

/// The state before the first event.
pub open spec fn nothing_read() -> Progress {
    Progress {
        out: Seq::empty(),
        spans: Seq::empty(),
        bold: 0,
        italic: 0,
        link: 0,
        lists: Seq::empty(),
        marker: Seq::empty(),
        heading: None,
        quote: 0,
        in_code: false,
        code_text: Seq::empty(),
        code_lang: None,
        code_diff: false,
    }
}

/// One less, but not below zero.
pub open spec fn less_one(n: nat) -> nat {
    if n == 0 {
        0
    } else {
        (n - 1) as nat
    }
}

/// `spans` with a span of the current style; empty text makes no span.
pub open spec fn with_span(p: Progress, text: Seq<char>, code: bool) -> Progress {
    if text.len() == 0 {
        p
    } else {
        Progress {
            spans: p.spans.push(
                SpanView { text, bold: p.bold > 0, italic: p.italic > 0, code, link: p.link > 0 },
            ),
            ..p
        }
    }
}

/// `p` with a finished block and its spans taken.
pub open spec fn with_block(p: Progress, b: BlockView) -> Progress {
    Progress { out: p.out.push(b), spans: Seq::empty(), ..p }
}

/// The language after a fence: its first word, in lower case.
pub open spec fn fence_lang(info: Seq<char>) -> Option<Seq<char>> {
    let word = lower_case(first_word(info));
    if word.len() == 0 {
        None
    } else {
        Some(word)
    }
}

/// `p` at the start of a code block.
pub open spec fn in_code_block(p: Progress, lang: Option<Seq<char>>) -> Progress {
    Progress {
        in_code: true,
        code_text: Seq::empty(),
        code_lang: lang,
        code_diff: lang == Some("diff"@),
        ..p
    }
}

/// `s` without the newlines at its end.
pub open spec fn trim_newlines(s: Seq<char>) -> Seq<char>
    decreases s.len(),
{
    if s.len() > 0 && s.last() == '\n' {
        trim_newlines(s.drop_last())
    } else {
        s
    }
}

/// The depth of an item in `n` open lists, as a byte.
pub open spec fn item_depth(n: nat) -> u8 {
    if n == 0 {
        1
    } else {
        (n % 256) as u8
    }
}

/// The step at the start of an element.
pub open spec fn opened(p: Progress, tag: MdTag) -> Progress {
    match tag {
        MdTag::Bold => Progress { bold: p.bold + 1, ..p },
        MdTag::Italic => Progress { italic: p.italic + 1, ..p },
        MdTag::Hyperlink => Progress { link: p.link + 1, ..p },
        MdTag::Title(level) => Progress { heading: Some(level), spans: Seq::empty(), ..p },
        MdTag::CodeBox => in_code_block(p, None),
        MdTag::ListEntry => {
            if p.lists.len() > 0 && p.lists.last().0 {
                let n = p.lists.last().1;
                Progress {
                    spans: Seq::empty(),
                    marker: decimal_text(n as nat).push('.'),
                    lists: p.lists.update(p.lists.len() - 1, (true, n + 1)),
                    ..p
                }
            } else {
                Progress { spans: Seq::empty(), marker: seq!['\u{2022}'], ..p }
            }
        },
        MdTag::Quotation => Progress { quote: p.quote + 1, spans: Seq::empty(), ..p },
        MdTag::ListBox | MdTag::Para | MdTag::Misc => p,
    }
}

/// The step at the end of an element.
pub open spec fn closed(p: Progress, tag: MdTag) -> Progress {
    match tag {
        MdTag::Bold => Progress { bold: less_one(p.bold), ..p },
        MdTag::Italic => Progress { italic: less_one(p.italic), ..p },
        MdTag::Hyperlink => Progress { link: less_one(p.link), ..p },
        MdTag::Title(_) => {
            let level = match p.heading {
                Some(l) => l,
                None => 1u8,
            };
            with_block(
                Progress { heading: None, ..p },
                BlockView::Heading { level, spans: p.spans },
            )
        },
        MdTag::CodeBox => Progress {
            in_code: false,
            out: p.out.push(
                BlockView::Code {
                    text: trim_newlines(p.code_text),
                    lang: p.code_lang,
                    diff: p.code_diff,
                },
            ),
            code_lang: None,
            code_text: Seq::empty(),
            ..p
        },
        MdTag::ListEntry => with_block(
            Progress { marker: Seq::empty(), ..p },
            BlockView::ListItem {
                depth: item_depth(p.lists.len()),
                marker: p.marker,
                spans: p.spans,
            },
        ),
        MdTag::ListBox => if p.lists.len() == 0 {
            p
        } else {
            Progress { lists: p.lists.drop_last(), ..p }
        },
        MdTag::Quotation => with_block(
            Progress { quote: less_one(p.quote), ..p },
            BlockView::Quote(p.spans),
        ),
        // A paragraph in a list item or quote keeps its spans for the end of that
        // container; a top-level one is its own block.
        MdTag::Para => if p.heading is None && p.lists.len() == 0 && p.quote == 0 {
            with_block(p, BlockView::Paragraph(p.spans))
        } else {
            p
        },
        MdTag::Misc => p,
    }
}

/// The step at some text, which goes to the code block or becomes a span.
pub open spec fn read_text(p: Progress, code: Seq<char>, text: Seq<char>) -> Progress {
    if p.in_code {
        Progress { code_text: p.code_text + code, ..p }
    } else {
        with_span(p, text, false)
    }
}

/// What is known after one more event.
pub open spec fn step(p: Progress, e: EventView) -> Progress {
    match e {
        EventView::OpenList(first) => Progress {
            lists: p.lists.push(
                match first {
                    Some(n) => (true, n as int),
                    None => (false, 1),
                },
            ),
            ..p
        },
        EventView::OpenFence(info) => in_code_block(p, fence_lang(info)),
        EventView::Open(tag) => opened(p, tag),
        EventView::Close(tag) => closed(p, tag),
        EventView::Words(t) => read_text(p, t, t),
        EventView::Verbatim(t) => if p.in_code {
            p
        } else {
            with_span(p, t, true)
        },
        EventView::SoftLine => read_text(p, seq!['\n'], seq![' ']),
        EventView::HardLine => read_text(p, seq!['\n'], seq!['\n']),
        EventView::Ruler => Progress { out: p.out.push(BlockView::Rule), ..p },
        EventView::Skipped => p,
    }
}

/// What is known after all of `events`.
pub open spec fn progress(events: Seq<EventView>) -> Progress
    decreases events.len(),
{
    if events.len() == 0 {
        nothing_read()
    } else {
        step(progress(events.drop_last()), events.last())
    }
}

struct Builder {
    out: Vec<Block>,
    spans: Vec<Span>,
    bold: usize,
    italic: usize,
    link: usize,
    lists: Vec<(bool, u128)>,
    marker: String,
    heading: Option<u8>,
    quote: usize,
    in_code: bool,
    code_text: String,
    code_lang: Option<String>,
    code_diff: bool,
}

/// The open lists, by the numbers that they count.
spec fn list_views(lists: Seq<(bool, u128)>) -> Seq<(bool, int)> {
    lists.map_values(|l: (bool, u128)| (l.0, l.1 as int))
}

impl View for Builder {
    type V = Progress;

    closed spec fn view(&self) -> Progress {
        Progress {
            out: block_views(self.out@),
            spans: span_views(self.spans@),
            bold: self.bold as nat,
            italic: self.italic as nat,
            link: self.link as nat,
            lists: list_views(self.lists@),
            marker: self.marker@,
            heading: self.heading,
            quote: self.quote as nat,
            in_code: self.in_code,
            code_text: self.code_text@,
            code_lang: lang_view(self.code_lang),
            code_diff: self.code_diff,
        }
    }
}

/// Whether all counts are what `n` events can bring about.
spec fn bounded(p: Progress, n: int) -> bool {
    &&& p.bold <= n
    &&& p.italic <= n
    &&& p.link <= n
    &&& p.quote <= n
    &&& forall|i: int| 0 <= i < p.lists.len() ==> 0 <= (#[trigger] p.lists[i]).1 <= u64::MAX + n
}

impl Builder {
    fn new() -> (r: Self)
        ensures
            r@ == nothing_read(),
    {
        let r = Builder {
            out: Vec::new(),
            spans: Vec::new(),
            bold: 0,
            italic: 0,
            link: 0,
            lists: Vec::new(),
            marker: String::new(),
            heading: None,
            quote: 0,
            in_code: false,
            code_text: String::new(),
            code_lang: None,
            code_diff: false,
        };
        assert(r@ =~= nothing_read());
        r
    }

    fn push_block(&mut self, b: Block)
        ensures
            final(self)@ == (Progress { out: old(self)@.out.push(b@), ..old(self)@ }),
    {
        self.out.push(b);
        assert(block_views(self.out@) == block_views(old(self).out@).push(b@));
    }

    fn push_span(&mut self, text: String, code: bool)
        ensures
            final(self)@ == with_span(old(self)@, text@, code),
    {
        if text.as_str().is_empty() {
            return;
        }
        let s = Span {
            text,
            bold: self.bold > 0,
            italic: self.italic > 0,
            code,
            link: self.link > 0,
        };
        self.spans.push(s);
        assert(span_views(self.spans@) == span_views(old(self).spans@).push(s@));
    }

    fn take_spans(&mut self) -> (r: Vec<Span>)
        ensures
            span_views(r@) == old(self)@.spans,
            final(self)@ == (Progress { spans: Seq::empty(), ..old(self)@ }),
    {
        let mut r: Vec<Span> = Vec::new();
        std::mem::swap(&mut r, &mut self.spans);
        assert(span_views(self.spans@) == Seq::<SpanView>::empty());
        r
    }

    fn clear_spans(&mut self)
        ensures
            final(self)@ == (Progress { spans: Seq::empty(), ..old(self)@ }),
    {
        self.spans = Vec::new();
        assert(span_views(self.spans@) == Seq::<SpanView>::empty());
    }

    fn open_code(&mut self, lang: Option<String>)
        ensures
            final(self)@ == in_code_block(old(self)@, lang_view(lang)),
    {
        self.in_code = true;
        self.code_text = String::new();
        self.code_diff = match &lang {
            Some(l) => same_text(l.as_str(), "diff"),
            None => false,
        };
        self.code_lang = lang;
    }

    fn open_item(&mut self)
        requires
            forall|i: int|
                0 <= i < old(self)@.lists.len() ==> (#[trigger] old(self)@.lists[i]).1 < u128::MAX,
        ensures
            final(self)@ == opened(old(self)@, MdTag::ListEntry),
    {
        self.clear_spans();
        let n = self.lists.len();
        let ghost before = self.lists@;
        if n > 0 && self.lists[n - 1].0 {
            let number: u128 = self.lists[n - 1].1;
            assert(list_views(before)[n - 1].1 == number);
            let mut marker = decimal(number);
            marker.push('.');
            self.marker = marker;
            self.lists.pop();
            self.lists.push((true, number + 1));
            assert(list_views(self.lists@) == list_views(before).update(
                n - 1,
                (true, number + 1),
            ));
        } else {
            let mut marker = String::new();
            marker.push('\u{2022}');
            self.marker = marker;
            assert(self.marker@ == seq!['\u{2022}']);
        }
        assert(self@ == opened(old(self)@, MdTag::ListEntry));
    }

    fn open(&mut self, tag: MdTag)
        requires
            bounded(old(self)@, usize::MAX - 1),
        ensures
            final(self)@ == opened(old(self)@, tag),
    {
        match tag {
            MdTag::Bold => {
                self.bold += 1;
            },
            MdTag::Italic => {
                self.italic += 1;
            },
            MdTag::Hyperlink => {
                self.link += 1;
            },
            MdTag::Title(level) => {
                self.heading = Some(level);
                self.clear_spans();
            },
            MdTag::CodeBox => {
                self.open_code(None);
            },
            MdTag::ListEntry => {
                self.open_item();
            },
            MdTag::Quotation => {
                self.quote += 1;
                self.clear_spans();
            },
            MdTag::ListBox | MdTag::Para | MdTag::Misc => {},
        }
    }

    fn close_code(&mut self)
        ensures
            final(self)@ == closed(old(self)@, MdTag::CodeBox),
    {
        self.in_code = false;
        let text = trimmed(self.code_text.as_str());
        let mut lang: Option<String> = None;
        std::mem::swap(&mut lang, &mut self.code_lang);
        let diff = self.code_diff;
        self.push_block(Block::Code { text, lang, diff });
        self.code_text = String::new();
    }

    fn close_item(&mut self)
        ensures
            final(self)@ == closed(old(self)@, MdTag::ListEntry),
    {
        let depth = depth_byte(self.lists.len());
        let mut marker = String::new();
        std::mem::swap(&mut marker, &mut self.marker);
        assert(list_views(self.lists@).len() == self.lists@.len());
        let spans = self.take_spans();
        self.push_block(Block::ListItem { depth, marker, spans });
    }

    fn close(&mut self, tag: MdTag)
        ensures
            final(self)@ == closed(old(self)@, tag),
    {
        match tag {
            MdTag::Bold => {
                if self.bold > 0 {
                    self.bold -= 1;
                }
            },
            MdTag::Italic => {
                if self.italic > 0 {
                    self.italic -= 1;
                }
            },
            MdTag::Hyperlink => {
                if self.link > 0 {
                    self.link -= 1;
                }
            },
            MdTag::Title(_) => {
                let level: u8 = match self.heading {
                    Some(l) => l,
                    None => 1,
                };
                self.heading = None;
                let spans = self.take_spans();
                self.push_block(Block::Heading { level, spans });
            },
            MdTag::CodeBox => {
                self.close_code();
            },
            MdTag::ListEntry => {
                self.close_item();
            },
            MdTag::ListBox => {
                let ghost before = self.lists@;
                self.lists.pop();
                assert(before.len() > 0 ==> list_views(self.lists@) == list_views(
                    before,
                ).drop_last());
                assert(before.len() == 0 ==> list_views(self.lists@) == list_views(before));
            },
            MdTag::Quotation => {
                if self.quote > 0 {
                    self.quote -= 1;
                }
                let spans = self.take_spans();
                self.push_block(Block::Quote(spans));
            },
            MdTag::Para => {
                assert(list_views(self.lists@).len() == self.lists@.len());
                if self.heading.is_none() && self.lists.len() == 0 && self.quote == 0 {
                    let spans = self.take_spans();
                    self.push_block(Block::Paragraph(spans));
                }
            },
            MdTag::Misc => {},
        }
    }

    fn line_break(&mut self, c: char)
        ensures
            final(self)@ == read_text(old(self)@, seq!['\n'], seq![c]),
    {
        if self.in_code {
            self.code_text.push('\n');
            assert(self.code_text@ == old(self).code_text@ + seq!['\n']);
        } else {
            let mut text = String::new();
            text.push(c);
            assert(text@ == seq![c]);
            self.push_span(text, false);
        }
    }

    fn read(&mut self, e: &MdEvent)
        requires
            bounded(old(self)@, usize::MAX - 1),
        ensures
            final(self)@ == step(old(self)@, e@),
    {
        match e {
            MdEvent::OpenList(first) => {
                let entry: (bool, u128) = match first {
                    Some(n) => (true, *n as u128),
                    None => (false, 1),
                };
                let ghost before = self.lists@;
                self.lists.push(entry);
                assert(list_views(self.lists@) == list_views(before).push(
                    (entry.0, entry.1 as int),
                ));
            },
            MdEvent::OpenFence(info) => {
                let word = word_of(info.as_str());
                let lang = to_lowercase(word.as_str());
                if lang.as_str().is_empty() {
                    self.open_code(None);
                } else {
                    self.open_code(Some(lang));
                }
            },
            MdEvent::Open(tag) => {
                self.open(*tag);
            },
            MdEvent::Close(tag) => {
                self.close(*tag);
            },
            MdEvent::Words(t) => {
                if self.in_code {
                    self.code_text.append(t.as_str());
                } else {
                    self.push_span(t.clone(), false);
                }
            },
            MdEvent::Verbatim(t) => {
                if !self.in_code {
                    self.push_span(t.clone(), true);
                }
            },
            MdEvent::SoftLine => {
                self.line_break(' ');
            },
            MdEvent::HardLine => {
                self.line_break('\n');
            },
            MdEvent::Ruler => {
                self.push_block(Block::Rule);
            },
            MdEvent::Skipped => {},
        }
    }
}

/// `s` without the newlines at its end.
fn trimmed(s: &str) -> (r: String)
    ensures
        r@ == trim_newlines(s@),
{
    let chars = chars_of(s);
    let mut n: usize = chars.len();
    assert(s@.take(n as int) == s@);
    while n > 0 && chars[n - 1] == '\n'
        invariant
            n <= chars@.len(),
            chars@ == s@,
            trim_newlines(s@) == trim_newlines(s@.take(n as int)),
        decreases n,
    {
        assert(s@.take(n as int).drop_last() == s@.take(n - 1));
        n -= 1;
    }
    assert(s@.take(n as int) == s@.subrange(0, n as int));
    string_from(chars.as_slice(), 0, n)
}

/// The depth of an item in `n` open lists, as a byte.
fn depth_byte(n: usize) -> (r: u8)
    ensures
        r == item_depth(n as nat),
{
    if n == 0 {
        1
    } else {
        (n % 256) as u8
    }
}

/// The styled blocks that parsing events make up.
pub fn blocks_from_events(events: &[MdEvent]) -> (r: Vec<Block>)
    ensures
        block_views(r@) == progress(event_views(events@)).out,
{
    let n: usize = events.len();
    let mut b = Builder::new();
    let mut i: usize = 0;
    while i < n
        invariant
            i <= n,
            n == events@.len(),
            b@ == progress(event_views(events@).take(i as int)),
            bounded(b@, i as int),
        decreases n - i,
    {
        let ghost before = b@;
        b.read(&events[i]);
        proof {
            let seen = event_views(events@).take(i + 1);
            assert(seen.drop_last() == event_views(events@).take(i as int));
            assert(seen.last() == events@[i as int]@);
            lemma_bounded_step(before, events@[i as int]@, i as int);
        }
        i += 1;
    }
    assert(event_views(events@).take(n as int) == event_views(events@));
    b.out
}

proof fn lemma_bounded_step(p: Progress, e: EventView, n: int)
    requires
        bounded(p, n),
        0 <= n,
    ensures
        bounded(step(p, e), n + 1),
{
    let q = step(p, e);
    assert forall|i: int| 0 <= i < q.lists.len() implies 0 <= (#[trigger] q.lists[i]).1 <= u64::MAX
        + n + 1 by {
        if i < p.lists.len() {
            assert(0 <= p.lists[i].1 <= u64::MAX + n);
        }
    }
}

/// Whether a code block is flagged as a diff exactly when its language is `diff`.
pub open spec fn diff_flag_right(b: BlockView) -> bool {
    b matches BlockView::Code { lang, diff, .. } ==> diff == (lang == Some("diff"@))
}

/// Parse Markdown into a flat list of styled blocks.
pub fn parse(md: &str) -> (r: Vec<Block>)
    ensures
        block_views(r@) == progress(markdown_events(md@)).out,
        forall|i: int| 0 <= i < r@.len() ==> diff_flag_right(#[trigger] r@[i]@),
        // The events are such as the laws on whole documents ask for.
        balanced(markdown_events(md@), Seq::empty()),
        code_in_turn(markdown_events(md@), false),
{
    let events = parse_events(md);
    let blocks = blocks_from_events(events.as_slice());
    proof {
        law_diff_flag(markdown_events(md@), false);
        assert forall|i: int| 0 <= i < blocks@.len() implies diff_flag_right(
            #[trigger] blocks@[i]@,
        ) by {
            assert(block_views(blocks@)[i] == blocks@[i]@);
        }
    }
    blocks
}

/// Whether no span of a block is empty.
pub open spec fn spans_filled(spans: Seq<SpanView>) -> bool {
    forall|i: int| 0 <= i < spans.len() ==> (#[trigger] spans[i]).text.len() > 0
}

/// The spans of a block.
pub open spec fn spans_of(b: BlockView) -> Seq<SpanView> {
    match b {
        BlockView::Paragraph(spans) => spans,
        BlockView::Heading { spans, .. } => spans,
        BlockView::ListItem { spans, .. } => spans,
        BlockView::Quote(spans) => spans,
        BlockView::Code { .. } | BlockView::Rule => Seq::empty(),
    }
}

/// No block has an empty span.
pub proof fn law_no_empty_spans(events: Seq<EventView>)
    ensures
        spans_filled(progress(events).spans),
        forall|i: int|
            0 <= i < progress(events).out.len() ==> spans_filled(
                spans_of(#[trigger] progress(events).out[i]),
            ),
    decreases events.len(),
{
    if events.len() > 0 {
        law_no_empty_spans(events.drop_last());
        let (p, q) = (progress(events.drop_last()), progress(events));
        assert forall|i: int| 0 <= i < q.out.len() implies spans_filled(
            spans_of(#[trigger] q.out[i]),
        ) by {
            if i < p.out.len() {
                assert(q.out[i] == p.out[i]);
            }
        }
    }
}

/// A code block has no newline at its end.
pub proof fn law_code_is_trimmed(events: Seq<EventView>, i: int)
    requires
        0 <= i < progress(events).out.len(),
    ensures
        progress(events).out[i] matches BlockView::Code { text, .. } ==> text.len() == 0
            || text.last() != '\n',
    decreases events.len(),
{
    let (p, q) = (progress(events.drop_last()), progress(events));
    if i < p.out.len() {
        law_code_is_trimmed(events.drop_last(), i);
        assert(q.out[i] == p.out[i]);
    } else {
        lemma_trimmed(p.code_text);
    }
}

proof fn lemma_trimmed(s: Seq<char>)
    ensures
        trim_newlines(s).len() == 0 || trim_newlines(s).last() != '\n',
    decreases s.len(),
{
    if s.len() > 0 && s.last() == '\n' {
        lemma_trimmed(s.drop_last());
    }
}

/// The blocks of a beginning of the events are a beginning of the blocks: what is shown
/// of a growing text changes only at its end.
pub proof fn law_blocks_grow(events: Seq<EventView>, k: int)
    requires
        0 <= k <= events.len(),
    ensures
        progress(events.take(k)).out.is_prefix_of(progress(events).out),
    decreases events.len(),
{
    if k == events.len() {
        assert(events.take(k) == events);
    } else {
        law_blocks_grow(events.drop_last(), k);
        assert(events.drop_last().take(k) == events.take(k));
        let (a, b) = (progress(events.take(k)).out, progress(events.drop_last()).out);
        assert(b.is_prefix_of(progress(events).out));
        assert(a == b.take(a.len() as int));
    }
}

/// Whether an event ends a block.
pub open spec fn ends_block(p: Progress, e: EventView) -> bool {
    match e {
        EventView::Ruler => true,
        EventView::Close(MdTag::Title(_))
        | EventView::Close(MdTag::CodeBox)
        | EventView::Close(MdTag::ListEntry)
        | EventView::Close(MdTag::Quotation) => true,
        EventView::Close(MdTag::Para) => p.heading is None && p.lists.len() == 0 && p.quote == 0,
        _ => false,
    }
}

/// A rule, and the end of a heading, code block, list item, quote or top-level paragraph,
/// make exactly one block each; no other event makes one.
pub proof fn law_one_block_per_end(p: Progress, e: EventView)
    ensures
        step(p, e).out.len() == p.out.len() + if ends_block(p, e) {
            1int
        } else {
            0
        },
        step(p, e).out.take(p.out.len() as int) == p.out,
{
}

/// Whether code blocks start and end in turn, when one is open at the end or not.
pub open spec fn code_in_turn(events: Seq<EventView>, open: bool) -> bool
    decreases events.len(),
{
    if events.len() == 0 {
        !open
    } else {
        let init = events.drop_last();
        match events.last() {
            EventView::OpenFence(_) | EventView::Open(MdTag::CodeBox) => open && code_in_turn(
                init,
                false,
            ),
            EventView::Close(MdTag::CodeBox) => !open && code_in_turn(init, true),
            _ => code_in_turn(init, open),
        }
    }
}

/// A code block is flagged as a diff exactly when its language is `diff`.
pub proof fn law_diff_flag(events: Seq<EventView>, open: bool)
    requires
        code_in_turn(events, open),
    ensures
        progress(events).in_code == open,
        open ==> progress(events).code_diff == (progress(events).code_lang == Some("diff"@)),
        forall|i: int|
            0 <= i < progress(events).out.len() ==> diff_flag_right(
                #[trigger] progress(events).out[i],
            ),
    decreases events.len(),
{
    if events.len() > 0 {
        let init = events.drop_last();
        let was_open = match events.last() {
            EventView::OpenFence(_) | EventView::Open(MdTag::CodeBox) => false,
            EventView::Close(MdTag::CodeBox) => true,
            _ => open,
        };
        law_diff_flag(init, was_open);
        let (p, q) = (progress(init), progress(events));
        assert forall|i: int| 0 <= i < q.out.len() implies diff_flag_right(
            #[trigger] q.out[i],
        ) by {
            if i < p.out.len() {
                assert(q.out[i] == p.out[i]);
            }
        }
    }
}

/// An item of an ordered list takes the next number of that list; an item of another list
/// has a bullet and takes none.
pub proof fn law_items_are_numbered(p: Progress)
    requires
        p.lists.len() > 0,
    ensures
        p.lists.last().0 ==> {
            let q = opened(p, MdTag::ListEntry);
            &&& q.marker == decimal_text(p.lists.last().1 as nat).push('.')
            &&& q.lists == p.lists.drop_last().push((true, p.lists.last().1 + 1))
        },
        !p.lists.last().0 ==> opened(p, MdTag::ListEntry).marker == seq!['\u{2022}'] && opened(
            p,
            MdTag::ListEntry,
        ).lists == p.lists,
{
}

/// The number that decimal digits stand for.
pub open spec fn decimal_value(s: Seq<char>) -> int
    decreases s.len(),
{
    if s.len() == 0 {
        0
    } else {
        decimal_value(s.drop_last()) * 10 + (s.last() as int - 48)
    }
}

/// Decimal digits stand for the number that they were made from.
pub proof fn law_decimal_text_is_the_number(n: nat)
    ensures
        decimal_value(decimal_text(n)) == n,
    decreases n,
{
    if n < 10 {
        assert(seq![(48 + n) as char].drop_last() == Seq::<char>::empty());
        assert(decimal_value(Seq::<char>::empty()) == 0);
    } else {
        law_decimal_text_is_the_number(n / 10);
        let d = (48 + n % 10) as char;
        assert(decimal_text(n / 10).push(d).drop_last() == decimal_text(n / 10));
    }
}

/// Styles that are open add up: text read inside them carries all of them, and an element
/// that is opened and closed leaves the styles as they were.
pub proof fn law_styles_nest(p: Progress, tag: MdTag)
    requires
        tag is Bold || tag is Italic || tag is Hyperlink,
    ensures
        closed(opened(p, tag), tag) == p,
        opened(p, tag).bold > 0 <==> tag is Bold || p.bold > 0,
        opened(p, tag).italic > 0 <==> tag is Italic || p.italic > 0,
        opened(p, tag).link > 0 <==> tag is Hyperlink || p.link > 0,
{
}

/// The element that an event starts, if any.
pub open spec fn starts(e: EventView) -> Option<MdTag> {
    match e {
        EventView::OpenList(_) => Some(MdTag::ListBox),
        EventView::OpenFence(_) => Some(MdTag::CodeBox),
        EventView::Open(MdTag::ListBox) => None,
        EventView::Open(tag) => Some(tag),
        _ => None,
    }
}

/// Whether the starts and ends of elements pair up, innermost first, and leave the elements
/// `open` open.
pub open spec fn balanced(events: Seq<EventView>, open: Seq<MdTag>) -> bool
    decreases events.len(),
{
    if events.len() == 0 {
        open.len() == 0
    } else {
        let init = events.drop_last();
        match events.last() {
            EventView::Close(tag) => balanced(init, open.push(tag)),
            e => match starts(e) {
                Some(tag) => open.len() > 0 && open.last() == tag && balanced(
                    init,
                    open.drop_last(),
                ),
                None => balanced(init, open),
            },
        }
    }
}

/// How often `tag` is among `open`.
pub open spec fn count_of(open: Seq<MdTag>, tag: MdTag) -> nat
    decreases open.len(),
{
    if open.len() == 0 {
        0
    } else {
        count_of(open.drop_last(), tag) + if open.last() == tag {
            1nat
        } else {
            0nat
        }
    }
}

/// Styles and containers are open as often as they were started and not ended; so nothing
/// leaks out of an element, and at the end of balanced events all are closed.
pub proof fn law_elements_are_counted(events: Seq<EventView>, open: Seq<MdTag>)
    requires
        balanced(events, open),
    ensures
        progress(events).bold == count_of(open, MdTag::Bold),
        progress(events).italic == count_of(open, MdTag::Italic),
        progress(events).link == count_of(open, MdTag::Hyperlink),
        progress(events).quote == count_of(open, MdTag::Quotation),
        progress(events).lists.len() == count_of(open, MdTag::ListBox),
    decreases events.len(),
{
    if events.len() > 0 {
        let init = events.drop_last();
        match events.last() {
            EventView::Close(tag) => {
                let more = open.push(tag);
                law_elements_are_counted(init, more);
                assert(more.drop_last() == open);
            },
            e => match starts(e) {
                Some(tag) => {
                    law_elements_are_counted(init, open.drop_last());
                },
                None => {
                    law_elements_are_counted(init, open);
                },
            },
        }
    }
}

/// What one more event does.
proof fn lemma_one_more(events: Seq<EventView>, e: EventView)
    ensures
        progress(events.push(e)) == step(progress(events), e),
{
    assert(events.push(e).drop_last() == events);
}

proof fn lemma_count_means(open: Seq<MdTag>, tag: MdTag)
    ensures
        count_of(open, tag) > 0 <==> open.contains(tag),
        count_of(open, tag) == open.filter(|t: MdTag| t == tag).len(),
    decreases open.len(),
{
    reveal(Seq::filter);
    if open.len() > 0 {
        let init = open.drop_last();
        lemma_count_means(init, tag);
        if init.contains(tag) {
            let k = choose|k: int| 0 <= k < init.len() && init[k] == tag;
            assert(open[k] == tag);
        }
        if open.contains(tag) && open.last() != tag {
            let k = choose|k: int| 0 <= k < open.len() && open[k] == tag;
            assert(init[k] == tag);
        }
        assert(open.last() == tag ==> open[open.len() - 1] == tag);
    }
}

/// Text outside of code becomes one span that carries exactly the styles that are open,
/// whatever lists, quotes or headings are: a text and inline code their own characters, a
/// soft line break a space and a hard one a newline. Only inline code is marked as code.
pub proof fn law_text_carries_open_styles(
    events: Seq<EventView>,
    open: Seq<MdTag>,
    e: EventView,
    text: Seq<char>,
)
    requires
        balanced(events, open),
        code_in_turn(events, false),
        e == EventView::Words(text) || e == EventView::Verbatim(text) || (e == EventView::SoftLine
            && text == seq![' ']) || (e == EventView::HardLine && text == seq!['\n']),
    ensures
        text.len() > 0 ==> progress(events.push(e)) == (Progress {
            spans: progress(events).spans.push(
                SpanView {
                    text,
                    bold: open.contains(MdTag::Bold),
                    italic: open.contains(MdTag::Italic),
                    code: e is Verbatim,
                    link: open.contains(MdTag::Hyperlink),
                },
            ),
            ..progress(events)
        }),
        text.len() == 0 ==> progress(events.push(e)) == progress(events),
{
    lemma_one_more(events, e);
    law_diff_flag(events, false);
    law_elements_are_counted(events, open);
    lemma_count_means(open, MdTag::Bold);
    lemma_count_means(open, MdTag::Italic);
    lemma_count_means(open, MdTag::Hyperlink);
}

/// Whether an event only writes text, or starts or ends a style or an element that is not
/// told apart.
pub open spec fn is_inline(e: EventView) -> bool {
    match e {
        EventView::Words(_)
        | EventView::Verbatim(_)
        | EventView::SoftLine
        | EventView::HardLine
        | EventView::Skipped => true,
        EventView::Open(tag) | EventView::Close(tag) => tag is Bold || tag is Italic
            || tag is Hyperlink || tag is Misc,
        _ => false,
    }
}

/// Whether all of the events are inline, but for paragraphs.
pub open spec fn all_flow(events: Seq<EventView>) -> bool {
    forall|i: int|
        0 <= i < events.len() ==> is_inline(#[trigger] events[i]) || events[i] == EventView::Open(
            MdTag::Para,
        ) || events[i] == EventView::Close(MdTag::Para)
}

/// Whether all of the events are inline.
pub open spec fn all_inline(events: Seq<EventView>) -> bool {
    forall|i: int| 0 <= i < events.len() ==> is_inline(#[trigger] events[i])
}

/// The text that events show outside of code.
pub open spec fn shown_text(events: Seq<EventView>) -> Seq<char>
    decreases events.len(),
{
    if events.len() == 0 {
        Seq::empty()
    } else {
        shown_text(events.drop_last()) + match events.last() {
            EventView::Words(t) => t,
            EventView::Verbatim(t) => t,
            EventView::SoftLine => seq![' '],
            EventView::HardLine => seq!['\n'],
            _ => Seq::empty(),
        }
    }
}

/// The text of spans after each other.
pub open spec fn spans_text(spans: Seq<SpanView>) -> Seq<char>
    decreases spans.len(),
{
    if spans.len() == 0 {
        Seq::empty()
    } else {
        spans_text(spans.drop_last()) + spans.last().text
    }
}

/// Inline events add their text to the spans and leave all blocks, lists and quotes alone.
proof fn lemma_flow_run(pre: Seq<EventView>, mid: Seq<EventView>)
    requires
        !progress(pre).in_code,
        all_flow(mid),
        all_inline(mid) || progress(pre).lists.len() > 0 || progress(pre).quote > 0,
    ensures
        progress(pre + mid).out == progress(pre).out,
        progress(pre + mid).lists == progress(pre).lists,
        progress(pre + mid).marker == progress(pre).marker,
        progress(pre + mid).heading == progress(pre).heading,
        progress(pre + mid).quote == progress(pre).quote,
        !progress(pre + mid).in_code,
        spans_text(progress(pre + mid).spans) == spans_text(progress(pre).spans) + shown_text(mid),
    decreases mid.len(),
{
    if mid.len() == 0 {
        assert(pre + mid == pre);
        assert(spans_text(progress(pre).spans) + shown_text(mid) == spans_text(
            progress(pre).spans,
        ));
    } else {
        let init = mid.drop_last();
        let e = mid.last();
        assert(mid[mid.len() - 1] == e);
        assert(all_flow(init)) by {
            assert forall|i: int| 0 <= i < init.len() implies is_inline(#[trigger] init[i])
                || init[i] == EventView::Open(MdTag::Para) || init[i] == EventView::Close(
                MdTag::Para,
            ) by {
                assert(init[i] == mid[i]);
            }
        }
        if all_inline(mid) {
            assert forall|i: int| 0 <= i < init.len() implies is_inline(#[trigger] init[i]) by {
                assert(init[i] == mid[i]);
            }
        }
        lemma_flow_run(pre, init);
        assert(pre + mid == (pre + init).push(e));
        lemma_one_more(pre + init, e);
        let (p, q) = (progress(pre + init), progress(pre + mid));
        if q.spans != p.spans {
            assert(q.spans.drop_last() == p.spans);
        }
        assert(spans_text(q.spans) == spans_text(progress(pre).spans) + shown_text(mid));
    }
}

/// What is between the start and the end of a heading is one block with that level and that
/// text.
pub proof fn law_heading_is_one_block(pre: Seq<EventView>, mid: Seq<EventView>, level: u8, end: u8)
    requires
        code_in_turn(pre, false),
        all_inline(mid),
    ensures
        ({
            let p = progress(pre);
            let q = progress(
                (pre.push(EventView::Open(MdTag::Title(level))) + mid).push(
                    EventView::Close(MdTag::Title(end)),
                ),
            );
            &&& q.out.drop_last() == p.out
            &&& q.out.len() == p.out.len() + 1
            &&& q.out.last() matches BlockView::Heading { level: l, spans } && l == level
                && spans_text(spans) == shown_text(mid) && spans == progress(
                pre.push(EventView::Open(MdTag::Title(level))) + mid,
            ).spans
            &&& q.spans.len() == 0
        }),
{
    law_diff_flag(pre, false);
    let e = EventView::Open(MdTag::Title(level));
    lemma_one_more(pre, e);
    lemma_flow_run(pre.push(e), mid);
    lemma_one_more(pre.push(e) + mid, EventView::Close(MdTag::Title(end)));
    assert(spans_text(Seq::empty()) + shown_text(mid) == shown_text(mid));
    let (p, q) = (progress(pre.push(e) + mid), progress(
        (pre.push(e) + mid).push(EventView::Close(MdTag::Title(end))),
    ));
    assert(q.out.drop_last() == p.out);
}

/// A heading is open only as long as its element is.
proof fn lemma_heading_is_open(events: Seq<EventView>, open: Seq<MdTag>)
    requires
        balanced(events, open),
        progress(events).heading is Some,
    ensures
        exists|k: int| 0 <= k < open.len() && #[trigger] open[k] is Title,
    decreases events.len(),
{
    if events.len() > 0 {
        let init = events.drop_last();
        match events.last() {
            EventView::Close(tag) => {
                lemma_heading_is_open(init, open.push(tag));
                let k = choose|k: int|
                    0 <= k < open.push(tag).len() && #[trigger] open.push(tag)[k] is Title;
                assert(open[k] is Title);
            },
            e => match starts(e) {
                Some(tag) => {
                    if tag is Title {
                        assert(open[open.len() - 1] is Title);
                    } else {
                        lemma_heading_is_open(init, open.drop_last());
                        let k = choose|k: int|
                            0 <= k < open.drop_last().len() && #[trigger] open.drop_last()[k] is Title;
                        assert(open[k] is Title);
                    }
                },
                None => {
                    lemma_heading_is_open(init, open);
                },
            },
        }
    }
}

/// A paragraph outside of all other elements is one block with its text, after what text was
/// left before it.
pub proof fn law_paragraph_is_one_block(pre: Seq<EventView>, mid: Seq<EventView>)
    requires
        balanced(pre, Seq::empty()),
        code_in_turn(pre, false),
        all_inline(mid),
    ensures
        ({
            let p = progress(pre);
            let q = progress(
                (pre.push(EventView::Open(MdTag::Para)) + mid).push(EventView::Close(MdTag::Para)),
            );
            &&& q.out.drop_last() == p.out
            &&& q.out.len() == p.out.len() + 1
            &&& q.out.last() matches BlockView::Paragraph(spans) && spans_text(spans) == spans_text(
                p.spans,
            ) + shown_text(mid) && spans == progress(pre.push(EventView::Open(MdTag::Para)) + mid).spans
            &&& q.spans.len() == 0
        }),
{
    law_diff_flag(pre, false);
    law_elements_are_counted(pre, Seq::empty());
    if progress(pre).heading is Some {
        lemma_heading_is_open(pre, Seq::empty());
    }
    let e = EventView::Open(MdTag::Para);
    lemma_one_more(pre, e);
    lemma_flow_run(pre.push(e), mid);
    lemma_one_more(pre.push(e) + mid, EventView::Close(MdTag::Para));
    let (p, q) = (progress(pre.push(e) + mid), progress(
        (pre.push(e) + mid).push(EventView::Close(MdTag::Para)),
    ));
    assert(q.out.drop_last() == p.out);
}

/// A paragraph in a list or a quote is no block of its own: its text is left to the element
/// around it.
pub proof fn law_inner_paragraph_is_no_block(events: Seq<EventView>, open: Seq<MdTag>)
    requires
        balanced(events, open),
        open.contains(MdTag::ListBox) || open.contains(MdTag::Quotation),
    ensures
        progress(events.push(EventView::Close(MdTag::Para))) == progress(events),
        progress(events.push(EventView::Open(MdTag::Para))) == progress(events),
{
    law_elements_are_counted(events, open);
    lemma_count_means(open, MdTag::ListBox);
    lemma_count_means(open, MdTag::Quotation);
    lemma_one_more(events, EventView::Close(MdTag::Para));
    lemma_one_more(events, EventView::Open(MdTag::Para));
}

/// A quote is one block with its text, that of all its paragraphs.
pub proof fn law_quote_is_one_block(pre: Seq<EventView>, mid: Seq<EventView>)
    requires
        code_in_turn(pre, false),
        all_flow(mid),
    ensures
        ({
            let p = progress(pre);
            let q = progress(
                (pre.push(EventView::Open(MdTag::Quotation)) + mid).push(
                    EventView::Close(MdTag::Quotation),
                ),
            );
            &&& q.out.drop_last() == p.out
            &&& q.out.len() == p.out.len() + 1
            &&& q.out.last() matches BlockView::Quote(spans) && spans_text(spans) == shown_text(mid)
                && spans == progress(pre.push(EventView::Open(MdTag::Quotation)) + mid).spans
            &&& q.spans.len() == 0
        }),
{
    law_diff_flag(pre, false);
    let e = EventView::Open(MdTag::Quotation);
    lemma_one_more(pre, e);
    lemma_flow_run(pre.push(e), mid);
    lemma_one_more(pre.push(e) + mid, EventView::Close(MdTag::Quotation));
    assert(spans_text(Seq::empty()) + shown_text(mid) == shown_text(mid));
    let (p, q) = (progress(pre.push(e) + mid), progress(
        (pre.push(e) + mid).push(EventView::Close(MdTag::Quotation)),
    ));
    assert(q.out.drop_last() == p.out);
}

/// An item of a list is one block with its text and marker. Its depth is the number of lists
/// that are open.
pub proof fn law_list_item_is_one_block(
    pre: Seq<EventView>,
    open: Seq<MdTag>,
    mid: Seq<EventView>,
)
    requires
        balanced(pre, open),
        code_in_turn(pre, false),
        open.contains(MdTag::ListBox),
        open.filter(|t: MdTag| t == MdTag::ListBox).len() < 256,
        all_flow(mid),
    ensures
        ({
            let p = progress(pre);
            let q = progress(
                (pre.push(EventView::Open(MdTag::ListEntry)) + mid).push(
                    EventView::Close(MdTag::ListEntry),
                ),
            );
            &&& q.out.drop_last() == p.out
            &&& q.out.len() == p.out.len() + 1
            &&& q.out.last() matches BlockView::ListItem { depth, marker, spans } && depth
                == open.filter(|t: MdTag| t == MdTag::ListBox).len() && marker == progress(
                pre.push(EventView::Open(MdTag::ListEntry)),
            ).marker && spans_text(spans) == shown_text(mid) && spans == progress(
                pre.push(EventView::Open(MdTag::ListEntry)) + mid,
            ).spans
            &&& q.spans.len() == 0
        }),
{
    law_diff_flag(pre, false);
    law_elements_are_counted(pre, open);
    lemma_count_means(open, MdTag::ListBox);
    let e = EventView::Open(MdTag::ListEntry);
    lemma_one_more(pre, e);
    lemma_flow_run(pre.push(e), mid);
    lemma_one_more(pre.push(e) + mid, EventView::Close(MdTag::ListEntry));
    assert(spans_text(Seq::empty()) + shown_text(mid) == shown_text(mid));
    let (p, q) = (progress(pre.push(e) + mid), progress(
        (pre.push(e) + mid).push(EventView::Close(MdTag::ListEntry)),
    ));
    assert(q.out.drop_last() == p.out);
}

/// The items of a list, given the events in each.
pub open spec fn items_of(bodies: Seq<Seq<EventView>>) -> Seq<EventView>
    decreases bodies.len(),
{
    if bodies.len() == 0 {
        Seq::empty()
    } else {
        items_of(bodies.drop_last()) + seq![EventView::Open(MdTag::ListEntry)] + bodies.last()
            + seq![EventView::Close(MdTag::ListEntry)]
    }
}

/// Whether a block is item `k` of a list at the given depth, with the text of `body`. Where
/// the list starts with a number the marker is the number of the item and a dot, else a
/// bullet.
pub open spec fn is_item(
    b: BlockView,
    first: Option<u64>,
    k: int,
    depth: nat,
    body: Seq<EventView>,
) -> bool {
    &&& b matches BlockView::ListItem { depth: d, marker, spans } && d == depth && spans_text(spans)
        == shown_text(body) && match first {
        Some(n) => marker.len() > 1 && marker.last() == '.' && marker.drop_last() == decimal_text(
            (n + k) as nat,
        ),
        None => marker == seq!['\u{2022}'],
    }
}

/// A list makes one block for each item, in order. In an ordered list they are numbered from
/// its first number on; in any other they have bullets.
pub proof fn law_list_numbers_its_items(
    pre: Seq<EventView>,
    first: Option<u64>,
    bodies: Seq<Seq<EventView>>,
    k: int,
)
    requires
        code_in_turn(pre, false),
        progress(pre).lists.len() < 255,
        forall|i: int| 0 <= i < bodies.len() ==> all_flow(#[trigger] bodies[i]),
    ensures
        ({
            let p = progress(pre);
            let q = progress(pre.push(EventView::OpenList(first)) + items_of(bodies));
            &&& q.out.len() == p.out.len() + bodies.len()
            &&& q.out.take(p.out.len() as int) == p.out
            &&& 0 <= k < bodies.len() ==> is_item(
                q.out[p.out.len() + k],
                first,
                k,
                p.lists.len() + 1,
                bodies[k],
            )
        }),
{
    law_diff_flag(pre, false);
    lemma_items(pre, first, bodies, k);
}

proof fn lemma_items(
    pre: Seq<EventView>,
    first: Option<u64>,
    bodies: Seq<Seq<EventView>>,
    k: int,
)
    requires
        !progress(pre).in_code,
        progress(pre).lists.len() < 255,
        forall|i: int| 0 <= i < bodies.len() ==> all_flow(#[trigger] bodies[i]),
    ensures
        ({
            let p = progress(pre);
            let q = progress(pre.push(EventView::OpenList(first)) + items_of(bodies));
            &&& q.out.len() == p.out.len() + bodies.len()
            &&& q.out.take(p.out.len() as int) == p.out
            &&& 0 <= k < bodies.len() ==> is_item(
                q.out[p.out.len() + k],
                first,
                k,
                p.lists.len() + 1,
                bodies[k],
            )
            &&& !q.in_code
            &&& q.lists.len() == p.lists.len() + 1
            &&& q.lists.drop_last() == p.lists
            &&& q.lists.last().0 == (first is Some)
            &&& first is Some ==> q.lists.last().1 == first->0 + bodies.len()
        }),
    decreases bodies.len(),
{
    let base = pre.push(EventView::OpenList(first));
    lemma_one_more(pre, EventView::OpenList(first));
    let p = progress(pre);
    if bodies.len() == 0 {
        assert(base + items_of(bodies) == base);
        assert(p.out.take(p.out.len() as int) == p.out);
        assert(progress(base).lists.drop_last() == p.lists);
    } else {
        let init = bodies.drop_last();
        let body = bodies.last();
        let n = bodies.len() - 1;
        assert(all_flow(bodies[n]));
        assert forall|i: int| 0 <= i < init.len() implies all_flow(#[trigger] init[i]) by {
            assert(init[i] == bodies[i]);
        }
        lemma_items(pre, first, init, k);
        let a = base + items_of(init);
        let start = EventView::Open(MdTag::ListEntry);
        let end = EventView::Close(MdTag::ListEntry);
        let b = a.push(start);
        lemma_one_more(a, start);
        let (pa, pb) = (progress(a), progress(b));
        assert(pb.lists.drop_last() == pa.lists.drop_last());
        lemma_flow_run(b, body);
        lemma_one_more(b + body, end);
        assert(base + items_of(bodies) == (b + body).push(end));
        let q = progress(base + items_of(bodies));
        assert(spans_text(Seq::empty()) + shown_text(body) == shown_text(body));
        assert(q.out == pa.out.push(q.out.last()));
        assert(q.out.take(p.out.len() as int) == pa.out.take(p.out.len() as int));
        if first is Some {
            let number = decimal_text((first->0 + n) as nat);
            assert(number.push('.').drop_last() == number);
            law_decimal_text_is_plain((first->0 + n) as nat);
        }
        assert(is_item(q.out[p.out.len() + n], first, n, p.lists.len() + 1, body));
        if 0 <= k < n {
            assert(q.out[p.out.len() + k] == pa.out[p.out.len() + k]);
            assert(init[k] == bodies[k]);
        }
    }
}

/// Decimal digits are the characters `0` to `9`, at least one, and the first is `0` only for
/// zero.
pub proof fn law_decimal_text_is_plain(n: nat)
    ensures
        decimal_text(n).len() > 0,
        forall|i: int| 0 <= i < decimal_text(n).len() ==> '0' <= #[trigger] decimal_text(n)[i] <= '9',
        decimal_text(n)[0] == '0' ==> n == 0,
    decreases n,
{
    if n >= 10 {
        law_decimal_text_is_plain(n / 10);
        let init = decimal_text(n / 10);
        assert forall|i: int| 0 <= i < decimal_text(n).len() implies '0'
            <= #[trigger] decimal_text(n)[i] <= '9' by {
            if i < init.len() {
                assert(decimal_text(n)[i] == init[i]);
            }
        }
        assert(decimal_text(n)[0] == init[0]);
    }
}

/// Lists that were open before a list keep their place and their count, as long as it is
/// open.
proof fn lemma_outer_lists_stay(
    pre: Seq<EventView>,
    first: Option<u64>,
    inner: Seq<EventView>,
    open: Seq<MdTag>,
)
    requires
        balanced(inner, open),
    ensures
        ({
            let p = progress(pre);
            let q = progress(pre.push(EventView::OpenList(first)) + inner);
            &&& q.lists.len() == p.lists.len() + 1 + count_of(open, MdTag::ListBox)
            &&& q.lists.take(p.lists.len() as int) == p.lists
        }),
    decreases inner.len(),
{
    let base = pre.push(EventView::OpenList(first));
    let p = progress(pre);
    if inner.len() == 0 {
        lemma_one_more(pre, EventView::OpenList(first));
        assert(base + inner == base);
        assert(progress(base).lists.take(p.lists.len() as int) == p.lists);
    } else {
        let init = inner.drop_last();
        let e = inner.last();
        assert(base + inner == (base + init).push(e));
        lemma_one_more(base + init, e);
        let (a, b) = (progress(base + init), progress(base + inner));
        match e {
            EventView::Close(tag) => {
                lemma_outer_lists_stay(pre, first, init, open.push(tag));
                assert(open.push(tag).drop_last() == open);
            },
            _ => match starts(e) {
                Some(tag) => {
                    lemma_outer_lists_stay(pre, first, init, open.drop_last());
                },
                None => {
                    lemma_outer_lists_stay(pre, first, init, open);
                },
            },
        }
        assert(b.lists.take(p.lists.len() as int) == a.lists.take(p.lists.len() as int));
    }
}

/// A list inside of another leaves the outer one as it was: its items go on with the number
/// that was next.
pub proof fn law_inner_list_leaves_the_outer_one(
    pre: Seq<EventView>,
    first: Option<u64>,
    inner: Seq<EventView>,
)
    requires
        balanced(inner, Seq::empty()),
    ensures
        progress(
            (pre.push(EventView::OpenList(first)) + inner).push(EventView::Close(MdTag::ListBox)),
        ).lists == progress(pre).lists,
{
    lemma_outer_lists_stay(pre, first, inner, Seq::empty());
    let a = pre.push(EventView::OpenList(first)) + inner;
    lemma_one_more(a, EventView::Close(MdTag::ListBox));
    let lists = progress(a).lists;
    assert(lists.drop_last() == lists.take(progress(pre).lists.len() as int));
}

/// The text that events write into a code block.
pub open spec fn code_written(events: Seq<EventView>) -> Seq<char>
    decreases events.len(),
{
    if events.len() == 0 {
        Seq::empty()
    } else {
        code_written(events.drop_last()) + match events.last() {
            EventView::Words(t) => t,
            EventView::SoftLine | EventView::HardLine => seq!['\n'],
            _ => Seq::empty(),
        }
    }
}

proof fn lemma_code_run(pre: Seq<EventView>, mid: Seq<EventView>)
    requires
        progress(pre).in_code,
        all_inline(mid),
    ensures
        ({
            let (p, q) = (progress(pre), progress(pre + mid));
            &&& q.out == p.out
            &&& q.spans == p.spans
            &&& q.in_code
            &&& q.code_text == p.code_text + code_written(mid)
            &&& q.code_lang == p.code_lang
            &&& q.code_diff == p.code_diff
        }),
    decreases mid.len(),
{
    if mid.len() == 0 {
        assert(pre + mid == pre);
        assert(progress(pre).code_text + code_written(mid) == progress(pre).code_text);
    } else {
        let init = mid.drop_last();
        let e = mid.last();
        assert(mid[mid.len() - 1] == e);
        assert forall|i: int| 0 <= i < init.len() implies is_inline(#[trigger] init[i]) by {
            assert(init[i] == mid[i]);
        }
        lemma_code_run(pre, init);
        assert(pre + mid == (pre + init).push(e));
        lemma_one_more(pre + init, e);
        assert(progress(pre + mid).code_text == progress(pre).code_text + code_written(mid));
    }
}

/// A code block is one block. Its text is what was written into it, up to the newlines at its
/// end; its language is that of its fence, and it is a diff exactly when that is `diff`. An
/// indented one has no language. Spans that were read before are left as they are.
pub proof fn law_code_is_one_block(
    pre: Seq<EventView>,
    start: EventView,
    mid: Seq<EventView>,
    lang: Option<Seq<char>>,
)
    requires
        all_inline(mid),
        (start == EventView::Open(MdTag::CodeBox) && lang is None) || (start matches EventView::OpenFence(
            info,
        ) && lang == fence_lang(info)),
    ensures
        ({
            let p = progress(pre);
            let q = progress((pre.push(start) + mid).push(EventView::Close(MdTag::CodeBox)));
            &&& q.out.drop_last() == p.out
            &&& q.out.len() == p.out.len() + 1
            &&& q.out.last() matches BlockView::Code { text, lang: l, diff } && l == lang && diff == (
            lang == Some("diff"@)) && text.is_prefix_of(code_written(mid)) && (text.len() == 0
                || text.last() != '\n') && forall|i: int|
                text.len() <= i < code_written(mid).len() ==> #[trigger] code_written(mid)[i] == '\n'
            &&& q.spans == p.spans
            &&& !q.in_code
        }),
{
    lemma_one_more(pre, start);
    lemma_code_run(pre.push(start), mid);
    lemma_one_more(pre.push(start) + mid, EventView::Close(MdTag::CodeBox));
    assert(Seq::<char>::empty() + code_written(mid) == code_written(mid));
    law_trim_takes_only_newlines(code_written(mid));
    let q = progress((pre.push(start) + mid).push(EventView::Close(MdTag::CodeBox)));
    assert(q.out.drop_last() == progress(pre).out);
}

/// Trimming keeps the beginning of a text, up to the last character that is not a newline.
pub proof fn law_trim_takes_only_newlines(s: Seq<char>)
    ensures
        trim_newlines(s).is_prefix_of(s),
        trim_newlines(s).len() == 0 || trim_newlines(s).last() != '\n',
        forall|i: int| trim_newlines(s).len() <= i < s.len() ==> #[trigger] s[i] == '\n',
    decreases s.len(),
{
    if s.len() > 0 && s.last() == '\n' {
        let init = s.drop_last();
        law_trim_takes_only_newlines(init);
        assert(trim_newlines(s) == trim_newlines(init));
        assert(trim_newlines(s) == s.take(trim_newlines(s).len() as int));
        assert forall|i: int| trim_newlines(s).len() <= i < s.len() implies #[trigger] s[i] == '\n' by {
            if i < s.len() - 1 {
                assert(init[i] == s[i]);
            }
        }
    } else {
        assert(s == s.take(s.len() as int));
    }
}

/// The language after a fence is the first word there, in lower case, whatever white space is
/// before it and whatever follows after white space.
pub proof fn law_fence_language_is_first_word(
    space: Seq<char>,
    word: Seq<char>,
    rest: Seq<char>,
)
    requires
        forall|i: int| 0 <= i < space.len() ==> is_white_space(#[trigger] space[i]),
        forall|i: int| 0 <= i < word.len() ==> !is_white_space(#[trigger] word[i]),
        rest.len() > 0 ==> is_white_space(rest[0]),
        word.len() == 0 ==> rest.len() == 0,
        is_ascii_chars(word),
    ensures
        word.len() > 0 ==> fence_lang(space + word + rest) == Some(ascii_lower(word)),
        word.len() == 0 ==> fence_lang(space + word + rest) is None,
{
    lemma_first_word(space, word, rest);
    assert(ascii_lower(word).len() == word.len());
}

proof fn lemma_first_word(space: Seq<char>, word: Seq<char>, rest: Seq<char>)
    requires
        forall|i: int| 0 <= i < space.len() ==> is_white_space(#[trigger] space[i]),
        forall|i: int| 0 <= i < word.len() ==> !is_white_space(#[trigger] word[i]),
        rest.len() > 0 ==> is_white_space(rest[0]),
        word.len() == 0 ==> rest.len() == 0,
    ensures
        first_word(space + word + rest) == word,
{
    let s = space + word + rest;
    let (n, m) = (space.len() as int, word.len() as int);
    assert forall|i: int| 0 <= i < n implies is_white_space(#[trigger] s[i]) by {
        assert(s[i] == space[i]);
    }
    if n < s.len() {
        assert(s[n] == word[0]);
    }
    lemma_leading_space(s, n);
    let t = s.skip(n);
    assert forall|i: int| 0 <= i < m implies !is_white_space(#[trigger] t[i]) by {
        assert(t[i] == word[i]);
    }
    if m < t.len() {
        assert(t[m] == rest[0]);
    }
    lemma_leading_word(t, m);
    assert(t.take(m) == word);
    assert(first_word(s) == word);
}

/// A rule is a block, and changes nothing else. What is not told apart changes nothing at
/// all, and a style or a list makes no block.
pub proof fn law_rules_and_the_rest(events: Seq<EventView>, first: Option<u64>)
    ensures
        progress(events.push(EventView::Ruler)) == (Progress {
            out: progress(events).out.push(BlockView::Rule),
            ..progress(events)
        }),
        progress(events.push(EventView::Skipped)) == progress(events),
        progress(events.push(EventView::Open(MdTag::Misc))) == progress(events),
        progress(events.push(EventView::Close(MdTag::Misc))) == progress(events),
        progress(events.push(EventView::OpenList(first))).out == progress(events).out,
        progress(events.push(EventView::OpenList(first))).spans == progress(events).spans,
        progress(events.push(EventView::Close(MdTag::ListBox))).out == progress(events).out,
        progress(events.push(EventView::Close(MdTag::ListBox))).spans == progress(events).spans,
{
    lemma_one_more(events, EventView::Ruler);
    lemma_one_more(events, EventView::Skipped);
    lemma_one_more(events, EventView::Open(MdTag::Misc));
    lemma_one_more(events, EventView::Close(MdTag::Misc));
    lemma_one_more(events, EventView::OpenList(first));
    lemma_one_more(events, EventView::Close(MdTag::ListBox));
}

/// The language after a fence that is not ASCII is its Unicode lower case.
pub proof fn law_fence_language_in_unicode(space: Seq<char>, word: Seq<char>, rest: Seq<char>)
    requires
        forall|i: int| 0 <= i < space.len() ==> is_white_space(#[trigger] space[i]),
        forall|i: int| 0 <= i < word.len() ==> !is_white_space(#[trigger] word[i]),
        rest.len() > 0 ==> is_white_space(rest[0]),
        word.len() > 0,
        !is_ascii_chars(word),
    ensures
        unicode_lower(word).len() > 0 ==> fence_lang(space + word + rest) == Some(
            unicode_lower(word),
        ),
        unicode_lower(word).len() == 0 ==> fence_lang(space + word + rest) is None,
{
    lemma_first_word(space, word, rest);
}

/// What a span, a block and an event hold is what is in their fields.
pub proof fn law_views_are_the_fields(s: Span, b: Block, e: MdEvent)
    ensures
        s@.text == s.text@,
        s@.bold == s.bold,
        s@.italic == s.italic,
        s@.code == s.code,
        s@.link == s.link,
        b matches Block::Paragraph(spans) ==> b@ == BlockView::Paragraph(
            Seq::new(spans@.len(), |i: int| spans@[i]@),
        ),
        b matches Block::Heading { level, spans } ==> b@ == (BlockView::Heading {
            level,
            spans: Seq::new(spans@.len(), |i: int| spans@[i]@),
        }),
        b matches Block::Code { text, lang, diff } ==> b@ == (BlockView::Code {
            text: text@,
            lang: if lang is Some {
                Some((lang->0)@)
            } else {
                None
            },
            diff,
        }),
        b matches Block::ListItem { depth, marker, spans } ==> b@ == (BlockView::ListItem {
            depth,
            marker: marker@,
            spans: Seq::new(spans@.len(), |i: int| spans@[i]@),
        }),
        b matches Block::Quote(spans) ==> b@ == BlockView::Quote(
            Seq::new(spans@.len(), |i: int| spans@[i]@),
        ),
        b is Rule ==> b@ is Rule,
        e matches MdEvent::OpenList(first) ==> e@ == EventView::OpenList(first),
        e matches MdEvent::OpenFence(info) ==> e@ == EventView::OpenFence(info@),
        e matches MdEvent::Open(tag) ==> e@ == EventView::Open(tag),
        e matches MdEvent::Close(tag) ==> e@ == EventView::Close(tag),
        e matches MdEvent::Words(t) ==> e@ == EventView::Words(t@),
        e matches MdEvent::Verbatim(t) ==> e@ == EventView::Verbatim(t@),
        e is SoftLine ==> e@ is SoftLine,
        e is HardLine ==> e@ is HardLine,
        e is Ruler ==> e@ is Ruler,
        e is Skipped ==> e@ is Skipped,
{
    match b {
        Block::Paragraph(spans)
        | Block::Quote(spans)
        | Block::Heading { spans, .. }
        | Block::ListItem { spans, .. } => {
            assert(span_views(spans@) =~= Seq::new(spans@.len(), |i: int| spans@[i]@));
        },
        _ => {},
    }
}

} // verus!
