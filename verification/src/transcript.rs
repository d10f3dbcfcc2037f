//! The role-tagged transcript of the agent panel.
//!
//! A transcript is a list of blocks, each its role's tag, a unit separator and the text of
//! the block, with a record separator between them. Plain text with neither separator is
//! a single agent block.

use vstd::prelude::*;

use crate::text::{chars_of, join_with, law_split_undoes_join, split, split_on, string_from, texts};

verus! {

/// The record separator, between blocks.
pub const RS: char = '\u{1e}';

/// The unit separator, between the tag of a block and its text.
pub const US: char = '\u{1f}';

/// Who a block is from.
#[derive(Clone, Copy, Debug, PartialEq, Eq, Structural)]
pub enum Role {
    User,
    Agent,
    Thought,
    Tool,
}

/// The role of a tag; anything unknown is from the agent.
pub open spec fn role_of(tag: char) -> Role {
    if tag == 'u' {
        Role::User
    } else if tag == 't' {
        Role::Thought
    } else if tag == 'x' {
        Role::Tool
    } else {
        Role::Agent
    }
}

/// The tag of a role.
pub open spec fn tag_of(role: Role) -> char {
    match role {
        Role::User => 'u',
        Role::Thought => 't',
        Role::Tool => 'x',
        Role::Agent => 'a',
    }
}

impl Role {
    /// The role of a tag; anything unknown is from the agent.
    pub fn from_tag(c: char) -> (r: Role)
        ensures
            r == role_of(c),
    {
        match c {
            'u' => Role::User,
            't' => Role::Thought,
            'x' => Role::Tool,
            _ => Role::Agent,
        }
    }

    /// Whether the block gets a card background.
    pub fn carded(self) -> (r: bool)
        ensures
            r == (self is User || self is Tool),
    {
        match self {
            Role::User | Role::Tool => true,
            Role::Agent | Role::Thought => false,
        }
    }

    /// How opaque the card background is, in percent (0 is no card).
    pub fn card_percent(self) -> (r: u8)
        ensures
            r == match self {
                Role::User => 10u8,
                Role::Tool => 6,
                Role::Agent | Role::Thought => 0,
            },
            r > 0 <==> (self is User || self is Tool),
    {
        match self {
            Role::User => 10,
            Role::Tool => 6,
            Role::Agent | Role::Thought => 0,
        }
    }

    /// The text color of a block, given the panel's: thoughts and tool lines are dimmed by
    /// their alpha.
    pub fn text_color(self, rgba: (u8, u8, u8, u8)) -> (r: (u8, u8, u8, u8))
        ensures
            r == match self {
                Role::Thought => (rgba.0, rgba.1, rgba.2, 150u8),
                Role::Tool => (rgba.0, rgba.1, rgba.2, 205u8),
                Role::User | Role::Agent => rgba,
            },
    {
        match self {
            Role::Thought => (rgba.0, rgba.1, rgba.2, 150),
            Role::Tool => (rgba.0, rgba.1, rgba.2, 205),
            Role::User | Role::Agent => rgba,
        }
    }
}

/// A block of the transcript.
#[derive(Debug)]
pub struct Block {
    pub role: Role,
    pub text: String,
}

/// What a [`Block`] holds.
#[verifier::ext_equal]
pub struct BlockView {
    pub role: Role,
    pub text: Seq<char>,
}

impl View for Block {
    type V = BlockView;

    open spec fn view(&self) -> BlockView {
        BlockView { role: self.role, text: self.text@ }
    }
}

/// What blocks hold.
pub open spec fn block_views(blocks: Seq<Block>) -> Seq<BlockView> {
    blocks.map_values(|b: Block| b@)
}

/// What follows the first `sep` in `s` (nothing when there is none).
pub open spec fn after_first(s: Seq<char>, sep: char) -> Seq<char>
    decreases s.len(),
{
    if s.len() == 0 {
        s
    } else if s[0] == sep {
        s.drop_first()
    } else {
        after_first(s.drop_first(), sep)
    }
}

/// The block of a chunk between record separators: its tag is the first character, its
/// text what follows the first unit separator.
pub open spec fn chunk_block(chunk: Seq<char>) -> BlockView {
    BlockView {
        role: if chunk[0] == US {
            Role::Agent
        } else {
            role_of(chunk[0])
        },
        text: after_first(chunk, US),
    }
}

/// The blocks of `chunks`; empty chunks are left out.
pub open spec fn chunk_blocks(chunks: Seq<Seq<char>>) -> Seq<BlockView>
    decreases chunks.len(),
{
    if chunks.len() == 0 {
        Seq::empty()
    } else if chunks.last().len() == 0 {
        chunk_blocks(chunks.drop_last())
    } else {
        chunk_blocks(chunks.drop_last()).push(chunk_block(chunks.last()))
    }
}

/// The blocks of a transcript.
pub open spec fn parsed(text: Seq<char>) -> Seq<BlockView> {
    if !text.contains(RS) && !text.contains(US) {
        if text.len() == 0 {
            Seq::empty()
        } else {
            seq![BlockView { role: Role::Agent, text }]
        }
    } else {
        chunk_blocks(split_on(text, RS))
    }
}

fn has_char(chars: &Vec<char>, c: char) -> (r: bool)
    ensures
        r == chars@.contains(c),
{
    let mut i: usize = 0;
    while i < chars.len()
        invariant
            i <= chars@.len(),
            forall|k: int| 0 <= k < i ==> chars@[k] != c,
        decreases chars@.len() - i,
    {
        if chars[i] == c {
            return true;
        }
        i += 1;
    }
    false
}

proof fn lemma_after_first(s: Seq<char>, sep: char, k: int)
    requires
        0 <= k <= s.len(),
        forall|i: int| 0 <= i < k ==> s[i] != sep,
        k < s.len() ==> s[k] == sep,
    ensures
        after_first(s, sep) == if k < s.len() {
            s.skip(k + 1)
        } else {
            Seq::empty()
        },
    decreases s.len(),
{
    if s.len() > 0 {
        if k == 0 {
            assert(s.drop_first() == s.skip(1));
        } else {
            lemma_after_first(s.drop_first(), sep, k - 1);
            if k < s.len() {
                assert(s.drop_first().skip(k) == s.skip(k + 1));
            }
        }
    } else {
        assert(s == Seq::<char>::empty());
    }
}

fn block_of(chunk: &str) -> (r: Block)
    requires
        chunk@.len() > 0,
    ensures
        r@ == chunk_block(chunk@),
{
    let chars = chars_of(chunk);
    let n: usize = chars.len();
    let mut k: usize = 0;
    while k < n && chars[k] != US
        invariant
            k <= n,
            n == chars@.len(),
            forall|i: int| 0 <= i < k ==> chars@[i] != US,
        decreases n - k,
    {
        k += 1;
    }
    proof {
        lemma_after_first(chunk@, US, k as int);
    }
    let role = if k == 0 {
        Role::Agent
    } else {
        Role::from_tag(chars[0])
    };
    let text = if k < n {
        assert(chunk@.subrange(k + 1, n as int) == chunk@.skip(k + 1));
        string_from(chars.as_slice(), k + 1, n)
    } else {
        String::new()
    };
    Block { role, text }
}

/// The blocks of a transcript.
pub fn parse_blocks(text: &str) -> (r: Vec<Block>)
    ensures
        block_views(r@) == parsed(text@),
{
    let chars = chars_of(text);
    let mut out: Vec<Block> = Vec::new();
    assert(block_views(out@) == Seq::<BlockView>::empty());
    if !has_char(&chars, RS) && !has_char(&chars, US) {
        if text.is_empty() {
            return out;
        }
        out.push(Block { role: Role::Agent, text: text.to_owned() });
        assert(block_views(out@) == parsed(text@));
        return out;
    }
    let chunks = split(text, RS);
    let mut i: usize = 0;
    while i < chunks.len()
        invariant
            i <= chunks@.len(),
            block_views(out@) == chunk_blocks(texts(chunks@).take(i as int)),
        decreases chunks@.len() - i,
    {
        let ghost before = out@;
        assert(texts(chunks@).take(i + 1).drop_last() == texts(chunks@).take(i as int));
        assert(texts(chunks@).take(i + 1).last() == chunks@[i as int]@);
        if !chunks[i].as_str().is_empty() {
            let b = block_of(chunks[i].as_str());
            out.push(b);
            assert(block_views(out@) == block_views(before).push(b@));
        }
        i += 1;
    }
    assert(texts(chunks@).take(i as int) == texts(chunks@));
    out
}

/// A block as a chunk of a transcript.
pub open spec fn tagged(b: BlockView) -> Seq<char> {
    seq![tag_of(b.role), US] + b.text
}

/// The transcript of some blocks.
pub open spec fn transcript_of(blocks: Seq<BlockView>) -> Seq<char> {
    join_with(blocks.map_values(|b: BlockView| tagged(b)), RS)
}

/// Parsing a transcript gives back the blocks that it was made of, when no text of them
/// holds a record separator.
pub proof fn law_transcript_parses_back(blocks: Seq<BlockView>)
    requires
        forall|i: int| 0 <= i < blocks.len() ==> !(#[trigger] blocks[i]).text.contains(RS),
    ensures
        parsed(transcript_of(blocks)) == blocks,
{
    let chunks = blocks.map_values(|b: BlockView| tagged(b));
    let text = transcript_of(blocks);
    if blocks.len() == 0 {
        assert(text == Seq::<char>::empty());
        assert(parsed(text) == Seq::<BlockView>::empty());
    } else {
        assert forall|i: int| 0 <= i < chunks.len() implies !(#[trigger] chunks[i]).contains(RS) by {
            let b = blocks[i];
            assert(!b.text.contains(RS));
            assert forall|k: int| 0 <= k < tagged(b).len() implies tagged(b)[k] != RS by {
                if k >= 2 {
                    assert(tagged(b)[k] == b.text[k - 2]);
                    assert(b.text.contains(b.text[k - 2]));
                }
            }
        }
        law_split_undoes_join(chunks, RS);
        lemma_chunks_parse_back(blocks);
        assert(chunks[0][1] == US);
        lemma_joined_has(chunks, RS, US);
    }
}

/// A joined list has a character that its first piece has.
proof fn lemma_joined_has(parts: Seq<Seq<char>>, sep: char, c: char)
    requires
        parts.len() > 0,
        parts[0].contains(c),
    ensures
        join_with(parts, sep).contains(c),
    decreases parts.len(),
{
    if parts.len() > 1 {
        lemma_joined_has(parts.drop_last(), sep, c);
        let init = join_with(parts.drop_last(), sep);
        let k = choose|k: int| 0 <= k < init.len() && init[k] == c;
        assert(join_with(parts, sep)[k] == c);
    }
}

proof fn lemma_chunks_parse_back(blocks: Seq<BlockView>)
    ensures
        chunk_blocks(blocks.map_values(|b: BlockView| tagged(b))) == blocks,
    decreases blocks.len(),
{
    let chunks = blocks.map_values(|b: BlockView| tagged(b));
    if blocks.len() > 0 {
        let init = blocks.drop_last();
        lemma_chunks_parse_back(init);
        assert(chunks.drop_last() == init.map_values(|b: BlockView| tagged(b)));
        let b = blocks.last();
        let chunk = tagged(b);
        lemma_after_first(chunk, US, 1);
        assert(chunk.skip(2) == b.text);
        assert(chunk_block(chunk) == b);
        assert(init.push(b) == blocks);
    }
}

/// Text without separators is one agent block, and no text is no block.
pub proof fn law_plain_text_is_from_agent(text: Seq<char>)
    requires
        !text.contains(RS),
        !text.contains(US),
    ensures
        text.len() > 0 ==> parsed(text) == seq![BlockView { role: Role::Agent, text }],
        text.len() == 0 ==> parsed(text) == Seq::<BlockView>::empty(),
{
}

/// A role comes back from its tag.
pub proof fn law_tags_name_roles(role: Role)
    ensures
        role_of(tag_of(role)) == role,
{
}

/// The tags `u`, `t` and `x` are the user, a thought and a tool; any other is the agent.
pub proof fn law_roles_of_tags(tag: char)
    ensures
        role_of(tag) is User <==> tag == 'u',
        role_of(tag) is Thought <==> tag == 't',
        role_of(tag) is Tool <==> tag == 'x',
        role_of(tag) is Agent <==> tag != 'u' && tag != 't' && tag != 'x',
{
}

/// A record is one block. Its role is that of the first character before the first unit
/// separator, or the agent where there is none, and its text is all that follows the
/// separator.
pub proof fn law_record_is_one_block(tag: Seq<char>, text: Seq<char>)
    requires
        !tag.contains(US),
        !tag.contains(RS),
        !text.contains(RS),
    ensures
        parsed(tag + seq![US] + text) == seq![
            BlockView {
                role: if tag.len() == 0 {
                    Role::Agent
                } else {
                    role_of(tag[0])
                },
                text,
            },
        ],
{
    let s = tag + seq![US] + text;
    let n = tag.len() as int;
    assert(s[n] == US);
    assert(s.contains(US));
    assert forall|k: int| 0 <= k < s.len() implies s[k] != RS by {
        if k < n {
            assert(s[k] == tag[k]);
            assert(tag.contains(tag[k]));
        } else if k > n {
            assert(s[k] == text[k - n - 1]);
            assert(text.contains(text[k - n - 1]));
        }
    }
    crate::text::law_split_at_separator(s, Seq::empty(), RS);
    assert forall|k: int| 0 <= k < n implies s[k] != US by {
        assert(s[k] == tag[k]);
        assert(tag.contains(tag[k]));
    }
    lemma_after_first(s, US, n);
    assert(s.skip(n + 1) == text);
    lemma_one_chunk(s);
    if n > 0 {
        assert(s[0] == tag[0]);
        assert(tag.contains(tag[0]));
    }
}

proof fn lemma_one_chunk(s: Seq<char>)
    ensures
        chunk_blocks(seq![s]) == if s.len() == 0 {
            Seq::empty()
        } else {
            seq![chunk_block(s)]
        },
{
    assert(seq![s].drop_last() == Seq::<Seq<char>>::empty());
    assert(chunk_blocks(Seq::<Seq<char>>::empty()) == Seq::<BlockView>::empty());
    assert(Seq::<BlockView>::empty().push(chunk_block(s)) == seq![chunk_block(s)]);
}

proof fn lemma_chunks_of_parts(a: Seq<Seq<char>>, b: Seq<Seq<char>>)
    ensures
        chunk_blocks(a + b) == chunk_blocks(a) + chunk_blocks(b),
    decreases b.len(),
{
    if b.len() == 0 {
        assert(a + b == a);
        assert(chunk_blocks(a) + chunk_blocks(b) == chunk_blocks(a));
    } else {
        lemma_chunks_of_parts(a, b.drop_last());
        assert((a + b).drop_last() == a + b.drop_last());
        assert((a + b).last() == b.last());
        assert(chunk_blocks(a + b) == chunk_blocks(a) + chunk_blocks(b));
    }
}

/// Whether a text has a separator of either sort.
pub open spec fn is_tagged(s: Seq<char>) -> bool {
    s.contains(RS) || s.contains(US)
}

/// Transcripts with a record separator between them are parsed each on its own. An empty
/// record is no block, and one without a unit separator is a block without text.
pub proof fn law_records_are_parsed_apart(a: Seq<char>, b: Seq<char>)
    requires
        is_tagged(a),
    ensures
        is_tagged(b) ==> parsed(a + seq![RS] + b) == parsed(a) + parsed(b),
        is_tagged(b) ==> parsed(b + seq![RS] + a) == parsed(b) + parsed(a),
        b.len() == 0 ==> parsed(a + seq![RS] + b) == parsed(a) && parsed(b + seq![RS] + a) == parsed(
            a,
        ),
        b.len() > 0 && !is_tagged(b) ==> parsed(a + seq![RS] + b) == parsed(a).push(
            BlockView { role: role_of(b[0]), text: Seq::empty() },
        ),
        b.len() > 0 && !is_tagged(b) ==> parsed(b + seq![RS] + a) == seq![
            BlockView { role: role_of(b[0]), text: Seq::<char>::empty() },
        ] + parsed(a),
{
    let (s, t) = (a + seq![RS] + b, b + seq![RS] + a);
    assert(s[a.len() as int] == RS && t[b.len() as int] == RS);
    assert(s.contains(RS) && t.contains(RS));
    crate::text::law_split_at_separator(a, b, RS);
    crate::text::law_split_at_separator(b, a, RS);
    lemma_chunks_of_parts(split_on(a, RS), split_on(b, RS));
    lemma_chunks_of_parts(split_on(b, RS), split_on(a, RS));
    if !is_tagged(b) {
        lemma_one_chunk(b);
        if b.len() > 0 {
            assert(b.contains(b[0]));
            lemma_after_first(b, US, b.len() as int);
            assert(parsed(a) + seq![chunk_block(b)] == parsed(a).push(chunk_block(b)));
        } else {
            assert(parsed(a) + Seq::<BlockView>::empty() == parsed(a));
            assert(Seq::<BlockView>::empty() + parsed(a) == parsed(a));
        }
    }
}

/// What a block holds is what is in its fields.
pub proof fn law_block_view_is_the_fields(b: Block)
    ensures
        b@.role == b.role,
        b@.text == b.text@,
{
}

} // verus!
