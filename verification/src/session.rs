//! The texts that the host polls of an agent session.
//!
//! Each is handed over NUL-terminated, so none of them may hold a NUL.

use vstd::prelude::*;

use crate::text::{join, join_with, law_split_undoes_join, lemma_joined_lacks, split_on, texts};
use crate::transcript::{RS, US};

verus! {

/// `s` without its NUL characters.
pub open spec fn without_nul(s: Seq<char>) -> Seq<char>
    decreases s.len(),
{
    if s.len() == 0 {
        s
    } else if s.last() == '\0' {
        without_nul(s.drop_last())
    } else {
        without_nul(s.drop_last()).push(s.last())
    }
}

/// `s` without its NUL characters, so that it can be NUL-terminated.
pub fn clean(s: &str) -> (r: String)
    ensures
        r@ == without_nul(s@),
        !r@.contains('\0'),
{
    let mut out = String::new();
    for c in it: s.chars()
        invariant
            it.seq() == s@,
            out@ == without_nul(s@.take(it.index() as int)),
    {
        let ghost k = it.index() as int;
        assert(s@.take(k + 1).drop_last() == s@.take(k));
        assert(s@.take(k + 1).last() == c);
        if c != '\0' {
            out.push(c);
        }
    }
    assert(s@.take(s@.len() as int) == s@);
    proof {
        law_clean_has_no_nul(s@);
    }
    out
}

/// A cleaned text has no NUL.
pub proof fn law_clean_has_no_nul(s: Seq<char>)
    ensures
        !without_nul(s).contains('\0'),
    decreases s.len(),
{
    if s.len() > 0 {
        law_clean_has_no_nul(s.drop_last());
        let init = without_nul(s.drop_last());
        assert forall|i: int| 0 <= i < without_nul(s).len() implies without_nul(s)[i] != '\0' by {
            if i < init.len() {
                assert(init.contains(init[i]));
            }
        }
    }
}

/// A text without NUL is clean already.
pub proof fn law_clean_keeps_text(s: Seq<char>)
    requires
        !s.contains('\0'),
    ensures
        without_nul(s) == s,
    decreases s.len(),
{
    if s.len() > 0 {
        let init = s.drop_last();
        assert forall|i: int| 0 <= i < init.len() implies init[i] != '\0' by {
            assert(s.contains(s[i]));
        }
        law_clean_keeps_text(init);
        assert(s.contains(s.last()));
        assert(init.push(s.last()) == s);
    }
}

/// The session to take up again, if any: an empty id is none, and starts a fresh session.
pub fn resumed(resume: Option<&str>) -> (r: Option<&str>)
    ensures
        r == match resume {
            Some(id) => if id@.len() > 0 {
                Some(id)
            } else {
                None
            },
            None => None,
        },
{
    match resume {
        Some(id) => if id.is_empty() {
            None
        } else {
            Some(id)
        },
        None => None,
    }
}

/// The worker status, or why the worker could not be started.
pub fn status_text(status: Option<&str>, fail: &str) -> (r: String)
    ensures
        r@ == without_nul(
            match status {
                Some(s) => s@,
                None => "spawn failed: "@ + fail@,
            },
        ),
        !r@.contains('\0'),
{
    match status {
        Some(s) => clean(s),
        None => {
            let mut text = "spawn failed: ".to_owned();
            text.append(fail);
            clean(text.as_str())
        },
    }
}

/// A text of the worker (the transcript, the agent's name or the session id), or nothing
/// when there is no worker.
pub fn snapshot_text(text: Option<&str>) -> (r: String)
    ensures
        r@ == match text {
            Some(s) => without_nul(s@),
            None => Seq::empty(),
        },
        !r@.contains('\0'),
{
    match text {
        Some(s) => clean(s),
        None => String::new(),
    }
}

/// The permission options, as identifier (which is also the kind) and label.
pub open spec fn options() -> Seq<(Seq<char>, Seq<char>)> {
    seq![
        ("allow_once"@, "Allow"@),
        ("allow_always"@, "Always allow"@),
        ("reject_once"@, "Deny"@),
        ("reject_always"@, "Always deny"@),
    ]
}

/// A permission option: identifier, label and kind.
pub open spec fn option_text(id: Seq<char>, name: Seq<char>) -> Seq<char> {
    id.push(US) + name.push(US) + id
}

/// A pending permission: its title and the options, with record separators between.
pub open spec fn pending_parts(title: Seq<char>) -> Seq<Seq<char>> {
    seq![title] + options().map_values(|o: (Seq<char>, Seq<char>)| option_text(o.0, o.1))
}

fn option_of(id: &str, name: &str) -> (r: String)
    ensures
        r@ == option_text(id@, name@),
{
    let mut text = id.to_owned();
    text.push(US);
    text.append(name);
    text.push(US);
    text.append(id);
    assert(text@ == option_text(id@, name@));
    text
}

/// The pending permission with the options that are offered for it, or nothing when none
/// is pending.
pub fn pending_text(title: Option<&str>) -> (r: String)
    ensures
        r@ == match title {
            Some(t) => without_nul(join_with(pending_parts(t@), RS)),
            None => Seq::empty(),
        },
        !r@.contains('\0'),
{
    match title {
        Some(t) => {
            let parts: Vec<String> = vec![
                t.to_owned(),
                option_of("allow_once", "Allow"),
                option_of("allow_always", "Always allow"),
                option_of("reject_once", "Deny"),
                option_of("reject_always", "Always deny"),
            ];
            assert(texts(parts@) == pending_parts(t@));
            let text = join(parts.as_slice(), RS);
            clean(text.as_str())
        },
        None => String::new(),
    }
}

/// Whether a text holds no separator and no NUL.
pub open spec fn is_plain(s: Seq<char>) -> bool {
    !s.contains(RS) && !s.contains(US) && !s.contains('\0')
}

proof fn lemma_options_plain(i: int)
    requires
        0 <= i < options().len(),
    ensures
        is_plain(options()[i].0),
        is_plain(options()[i].1),
{
    reveal_strlit("allow_once");
    reveal_strlit("Allow");
    reveal_strlit("allow_always");
    reveal_strlit("Always allow");
    reveal_strlit("reject_once");
    reveal_strlit("Deny");
    reveal_strlit("reject_always");
    reveal_strlit("Always deny");
}

proof fn lemma_option_lacks(id: Seq<char>, name: Seq<char>, c: char)
    requires
        !id.contains(c),
        !name.contains(c),
        c != US,
    ensures
        !option_text(id, name).contains(c),
{
    let t = option_text(id, name);
    let (n, m) = (id.len() as int, name.len() as int);
    assert forall|k: int| 0 <= k < t.len() implies t[k] != c by {
        if k < n {
            assert(t[k] == id[k]);
            assert(id.contains(id[k]));
        } else if n < k <= n + m {
            assert(t[k] == name[k - n - 1]);
            assert(name.contains(name[k - n - 1]));
        } else if k > n + m + 1 {
            assert(t[k] == id[k - n - m - 2]);
            assert(id.contains(id[k - n - m - 2]));
        }
    }
}

/// The host gets back from a pending text what was put in: its parts at the record
/// separators are the title and the options, and the parts of an option at the unit
/// separators are its identifier, label and kind.
pub proof fn law_pending_text_splits_back(title: Seq<char>)
    requires
        !title.contains(RS),
        !title.contains('\0'),
    ensures
        split_on(without_nul(join_with(pending_parts(title), RS)), RS) == pending_parts(title),
        forall|i: int|
            0 <= i < options().len() ==> split_on(
                option_text((#[trigger] options()[i]).0, options()[i].1),
                US,
            ) == seq![options()[i].0, options()[i].1, options()[i].0],
{
    let parts = pending_parts(title);
    assert forall|i: int| 0 <= i < parts.len() implies !(#[trigger] parts[i]).contains(RS)
        && !parts[i].contains('\0') by {
        if i > 0 {
            lemma_options_plain(i - 1);
            let o = options()[i - 1];
            assert(parts[i] == option_text(o.0, o.1));
            lemma_option_lacks(o.0, o.1, RS);
            lemma_option_lacks(o.0, o.1, '\0');
        }
    }
    lemma_joined_lacks(parts, RS, '\0');
    law_clean_keeps_text(join_with(parts, RS));
    law_split_undoes_join(parts, RS);
    assert forall|i: int| 0 <= i < options().len() implies split_on(
        option_text((#[trigger] options()[i]).0, options()[i].1),
        US,
    ) == seq![options()[i].0, options()[i].1, options()[i].0] by {
        let o = options()[i];
        lemma_options_plain(i);
        let fields = seq![o.0, o.1, o.0];
        assert(fields.drop_last() == seq![o.0, o.1]);
        assert(fields.drop_last().drop_last() == seq![o.0]);
        assert(join_with(seq![o.0], US) == o.0);
        assert(join_with(seq![o.0, o.1], US) == o.0.push(US) + o.1);
        assert(join_with(fields, US) == (o.0.push(US) + o.1).push(US) + o.0);
        assert(option_text(o.0, o.1) == join_with(fields, US));
        law_split_undoes_join(fields, US);
    }
}

/// What is cleaned away of a text is its NULs, one by one, and nothing else.
pub proof fn law_clean_drops_only_nul(a: Seq<char>, b: Seq<char>, c: char)
    ensures
        without_nul(a + b) == without_nul(a) + without_nul(b),
        without_nul(seq!['\0']) == Seq::<char>::empty(),
        c != '\0' ==> without_nul(seq![c]) == seq![c],
    decreases b.len(),
{
    reveal_with_fuel(without_nul, 2);
    assert(seq!['\0'].drop_last() == Seq::<char>::empty());
    assert(seq![c].drop_last() == Seq::<char>::empty());
    if b.len() == 0 {
        assert(a + b == a);
        assert(without_nul(a) + without_nul(b) == without_nul(a));
    } else {
        law_clean_drops_only_nul(a, b.drop_last(), c);
        assert((a + b).drop_last() == a + b.drop_last());
        assert((a + b).last() == b.last());
        assert(without_nul(a + b) == without_nul(a) + without_nul(b));
    }
}

/// A pending text has the title first, then the four options: to allow once or always, and to
/// deny once or always. Each option names its identifier, its label and its kind, which is
/// the identifier.
pub proof fn law_pending_text_offers_four_options(title: Seq<char>)
    requires
        !title.contains(RS),
        !title.contains('\0'),
    ensures
        ({
            let parts = split_on(without_nul(join_with(pending_parts(title), RS)), RS);
            &&& parts.len() == 5
            &&& parts[0] == title
            &&& split_on(parts[1], US) == seq!["allow_once"@, "Allow"@, "allow_once"@]
            &&& split_on(parts[2], US) == seq!["allow_always"@, "Always allow"@, "allow_always"@]
            &&& split_on(parts[3], US) == seq!["reject_once"@, "Deny"@, "reject_once"@]
            &&& split_on(parts[4], US) == seq!["reject_always"@, "Always deny"@, "reject_always"@]
        }),
{
    law_pending_text_splits_back(title);
    let parts = pending_parts(title);
    assert(parts[0] == title);
    assert(parts[1] == option_text(options()[0].0, options()[0].1));
    assert(parts[2] == option_text(options()[1].0, options()[1].1));
    assert(parts[3] == option_text(options()[2].0, options()[2].1));
    assert(parts[4] == option_text(options()[3].0, options()[3].1));
}

} // verus!
