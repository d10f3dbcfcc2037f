//! The shell command that is started on a pseudo-terminal, and its environment.

use portable_pty::CommandBuilder;
use vstd::prelude::*;
use vstd::utf8::is_ascii_chars;

use crate::text::{ascii_lower, same_text, texts};

verus! {

/// `portable_pty::CommandBuilder`: a command to be started on a pseudo-terminal.
#[verifier::external_type_specification]
#[verifier::external_body]
pub struct ExCommandBuilder(CommandBuilder);

/// The environment of a command: what each name is set to, as far as that is text, and
/// whether it was set on the command, as opposed to being there from the start. Names are
/// looked up as the platform does, which may be without regard to case.
pub uninterp spec fn env_of(cmd: CommandBuilder) -> Map<Seq<char>, (Seq<char>, bool)>;

/// The program of a command and its arguments.
pub uninterp spec fn argv_of(cmd: CommandBuilder) -> Seq<Seq<char>>;

/// The directory that a command is started in, when one is set: at most one item.
pub uninterp spec fn cwd_of(cmd: CommandBuilder) -> Seq<Seq<char>>;

/// Whether a name has no letter K.
pub open spec fn no_k(name: Seq<char>) -> bool {
    !name.contains('k') && !name.contains('K')
}

/// Whether two names are different variables on every platform, be it that names are
/// compared as they are or in lower case. In lower case, a name that is not all ASCII still
/// is not, unless only Kelvin signs make it so, which become a `k`.
pub open spec fn names_apart(a: Seq<char>, b: Seq<char>) -> bool {
    if is_ascii_chars(a) && is_ascii_chars(b) {
        ascii_lower(a) != ascii_lower(b)
    } else {
        (is_ascii_chars(a) && no_k(a)) || (is_ascii_chars(b) && no_k(b))
    }
}

/// Whether the variable `k` is in `after` as it is in `before`.
pub open spec fn kept(
    before: Map<Seq<char>, (Seq<char>, bool)>,
    after: Map<Seq<char>, (Seq<char>, bool)>,
    k: Seq<char>,
) -> bool {
    &&& after.contains_key(k) == before.contains_key(k)
    &&& before.contains_key(k) ==> after[k] == before[k]
}

/// Whether the variable `k` was set on the command, to `value`.
pub open spec fn is_set(
    env: Map<Seq<char>, (Seq<char>, bool)>,
    k: Seq<char>,
    value: Seq<char>,
) -> bool {
    env.contains_key(k) && env[k] == (value, true)
}

/// Whether the variable `k` was set on the command, to whatever value.
pub open spec fn is_given(env: Map<Seq<char>, (Seq<char>, bool)>, k: Seq<char>) -> bool {
    env.contains_key(k) && env[k].1
}

/// `CommandBuilder::new`: a command with that program, no further arguments and no
/// directory. Its environment is that of the process, of which nothing is said but that
/// none of it was set on the command.
#[verifier::external_body]
fn command_new(program: &str) -> (r: CommandBuilder)
    ensures
        argv_of(r) == seq![program@],
        cwd_of(r) == Seq::<Seq<char>>::empty(),
        forall|k: Seq<char>| !#[trigger] is_given(env_of(r), k),
{
    CommandBuilder::new(program)
}

/// `CommandBuilder::arg`: appends an argument. It panics on a command without a program.
#[verifier::external_body]
fn command_arg(cmd: &mut CommandBuilder, arg: &str)
    requires
        argv_of(*old(cmd)).len() > 0,
    ensures
        argv_of(*final(cmd)) == argv_of(*old(cmd)).push(arg@),
        env_of(*final(cmd)) == env_of(*old(cmd)),
        cwd_of(*final(cmd)) == cwd_of(*old(cmd)),
{
    cmd.arg(arg)
}

/// `CommandBuilder::cwd`: sets the directory.
#[verifier::external_body]
fn command_cwd(cmd: &mut CommandBuilder, dir: &str)
    ensures
        cwd_of(*final(cmd)) == seq![dir@],
        env_of(*final(cmd)) == env_of(*old(cmd)),
        argv_of(*final(cmd)) == argv_of(*old(cmd)),
{
    cmd.cwd(dir)
}

/// `CommandBuilder::get_env`: what the name is set to, if that is text.
#[verifier::external_body]
fn command_get_env(cmd: &CommandBuilder, name: &str) -> (r: Option<String>)
    ensures
        match r {
            Some(value) => env_of(*cmd).contains_key(name@) && env_of(*cmd)[name@].0 == value@,
            None => !env_of(*cmd).contains_key(name@),
        },
{
    cmd.get_env(name).and_then(|value| value.to_str()).map(|value| value.to_string())
}

/// `CommandBuilder::env`: sets one variable and keeps all others. Whether names that differ
/// only in case are the same variable depends on the platform, and is not said.
#[verifier::external_body]
fn command_env(cmd: &mut CommandBuilder, name: &str, value: &str)
    ensures
        is_set(env_of(*final(cmd)), name@, value@),
        forall|k: Seq<char>|
            #[trigger] kept(env_of(*old(cmd)), env_of(*final(cmd)), k) || (!names_apart(k, name@)
                && is_set(env_of(*final(cmd)), k, value@)),
        argv_of(*final(cmd)) == argv_of(*old(cmd)),
        cwd_of(*final(cmd)) == cwd_of(*old(cmd)),
{
    cmd.env(name, value)
}

/// `CommandBuilder::env_remove`: unsets one variable and keeps all others. Whether names
/// that differ only in case are the same variable depends on the platform, and is not said.
#[verifier::external_body]
fn command_env_remove(cmd: &mut CommandBuilder, name: &str)
    ensures
        !env_of(*final(cmd)).contains_key(name@),
        forall|k: Seq<char>|
            #[trigger] kept(env_of(*old(cmd)), env_of(*final(cmd)), k) || (!names_apart(k, name@)
                && !env_of(*final(cmd)).contains_key(k)),
        argv_of(*final(cmd)) == argv_of(*old(cmd)),
        cwd_of(*final(cmd)) == cwd_of(*old(cmd)),
{
    cmd.env_remove(name)
}

/// Whether `k` is another variable than `name`, and not only in another case.
pub open spec fn is_other(k: Seq<char>, name: Seq<char>) -> bool {
    is_ascii_chars(k) ==> ascii_lower(k) != ascii_lower(name)
}

/// Whether the variable `k` is none of those that a terminal environment sets or unsets.
pub open spec fn not_terminal(k: Seq<char>, apple: bool) -> bool {
    &&& is_other(k, "TERM"@)
    &&& is_other(k, "COLORTERM"@)
    &&& is_other(k, "NO_COLOR"@)
    &&& apple ==> is_other(k, "TERM_PROGRAM"@)
}

/// What the environment of a terminal has in common, whatever it was before.
pub open spec fn terminal_env(env: Map<Seq<char>, (Seq<char>, bool)>, apple: bool) -> bool {
    &&& is_set(env, "TERM"@, "xterm-256color"@)
    &&& is_set(env, "COLORTERM"@, "truecolor"@)
    &&& apple ==> is_set(env, "TERM_PROGRAM"@, "Apple_Terminal"@)
}

/// Whether the host is not interactive.
pub open spec fn is_dumb(env: Map<Seq<char>, (Seq<char>, bool)>) -> bool {
    env.contains_key("TERM"@) && env["TERM"@].0 == "dumb"@
}

/// How a variable is in a terminal environment when it is not as it was: set or unset under
/// one of the terminal's names, or under another case of it.
pub open spec fn terminal_change(
    before: Map<Seq<char>, (Seq<char>, bool)>,
    after: Map<Seq<char>, (Seq<char>, bool)>,
    apple: bool,
    k: Seq<char>,
) -> bool {
    ||| !is_other(k, "TERM"@) && is_set(after, k, "xterm-256color"@)
    ||| !is_other(k, "COLORTERM"@) && is_set(after, k, "truecolor"@)
    ||| !is_other(k, "NO_COLOR"@) && is_dumb(before) && !after.contains_key(k)
    ||| !is_other(k, "TERM_PROGRAM"@) && apple && is_set(after, k, "Apple_Terminal"@)
}

/// Whether `after` is `before` made the environment of a terminal: the terminal's variables
/// are set, `NO_COLOR` is unset exactly when the host was not interactive, and every other
/// variable is as it was.
pub open spec fn configured(
    before: Map<Seq<char>, (Seq<char>, bool)>,
    after: Map<Seq<char>, (Seq<char>, bool)>,
    apple: bool,
) -> bool {
    &&& terminal_env(after, apple)
    &&& is_dumb(before) ==> !after.contains_key("NO_COLOR"@)
    &&& !is_dumb(before) ==> kept(before, after, "NO_COLOR"@)
    &&& forall|k: Seq<char>| not_terminal(k, apple) ==> #[trigger] kept(before, after, k)
    &&& forall|k: Seq<char>|
        #[trigger] kept(before, after, k) || terminal_change(before, after, apple, k)
}

/// The names are plain, and different variables on every platform.
proof fn lemma_names()
    ensures
        is_plain_name("TERM"@),
        is_plain_name("COLORTERM"@),
        is_plain_name("NO_COLOR"@),
        is_plain_name("TERM_PROGRAM"@),
        is_plain_name("LANG"@),
        ascii_lower("TERM"@) != ascii_lower("COLORTERM"@),
        ascii_lower("TERM"@) != ascii_lower("NO_COLOR"@),
        ascii_lower("TERM"@) != ascii_lower("TERM_PROGRAM"@),
        ascii_lower("TERM"@) != ascii_lower("LANG"@),
        ascii_lower("COLORTERM"@) != ascii_lower("NO_COLOR"@),
        ascii_lower("COLORTERM"@) != ascii_lower("TERM_PROGRAM"@),
        ascii_lower("COLORTERM"@) != ascii_lower("LANG"@),
        ascii_lower("NO_COLOR"@) != ascii_lower("TERM_PROGRAM"@),
        ascii_lower("NO_COLOR"@) != ascii_lower("LANG"@),
        ascii_lower("TERM_PROGRAM"@) != ascii_lower("LANG"@),
{
    reveal_strlit("NO_COLOR");
    reveal_strlit("TERM");
    reveal_strlit("COLORTERM");
    reveal_strlit("TERM_PROGRAM");
    reveal_strlit("LANG");
    assert(ascii_lower("NO_COLOR"@).len() == 8);
    assert(ascii_lower("TERM"@).len() == 4);
    assert(ascii_lower("COLORTERM"@).len() == 9);
    assert(ascii_lower("TERM_PROGRAM"@).len() == 12);
    assert(ascii_lower("LANG"@).len() == 4);
    assert(ascii_lower("TERM"@)[0] == 't');
    assert(ascii_lower("LANG"@)[0] == 'l');
}

/// Whether a name is ASCII without a letter K, so that no other name has it as its lower
/// case but those that differ from it in case.
pub open spec fn is_plain_name(name: Seq<char>) -> bool {
    is_ascii_chars(name) && no_k(name)
}

/// What differs from a plain name in more than case is another variable on every platform.
pub proof fn law_plain_names_have_only_their_cases(k: Seq<char>, name: Seq<char>)
    requires
        is_plain_name(name),
    ensures
        names_apart(k, name) <==> is_other(k, name),
{
}

proof fn lemma_apart(k: Seq<char>)
    ensures
        names_apart(k, "TERM"@) == is_other(k, "TERM"@),
        names_apart(k, "COLORTERM"@) == is_other(k, "COLORTERM"@),
        names_apart(k, "NO_COLOR"@) == is_other(k, "NO_COLOR"@),
        names_apart(k, "TERM_PROGRAM"@) == is_other(k, "TERM_PROGRAM"@),
        names_apart(k, "LANG"@) == is_other(k, "LANG"@),
{
    lemma_names();
    law_plain_names_have_only_their_cases(k, "TERM"@);
    law_plain_names_have_only_their_cases(k, "COLORTERM"@);
    law_plain_names_have_only_their_cases(k, "NO_COLOR"@);
    law_plain_names_have_only_their_cases(k, "TERM_PROGRAM"@);
    law_plain_names_have_only_their_cases(k, "LANG"@);
}

/// Make a command's environment that of a color-capable terminal.
///
/// The host process can be launched from a non-interactive agent or build environment that
/// disables color globally; that preference is not leaked into the interactive shell. An
/// explicit `NO_COLOR` inherited from a real terminal is kept, where it can represent the
/// user's preference. With `apple` the shell is also told that it runs in an Apple
/// terminal, so that it reports its working directory at every prompt.
pub fn configure_terminal_environment(cmd: &mut CommandBuilder, apple: bool)
    ensures
        configured(env_of(*old(cmd)), env_of(*final(cmd)), apple),
        argv_of(*final(cmd)) == argv_of(*old(cmd)),
        cwd_of(*final(cmd)) == cwd_of(*old(cmd)),
{
    let ghost e0 = env_of(*cmd);
    let noninteractive = match command_get_env(cmd, "TERM") {
        Some(term) => same_text(term.as_str(), "dumb"),
        None => false,
    };
    if noninteractive {
        command_env_remove(cmd, "NO_COLOR");
    }
    let ghost e1 = env_of(*cmd);
    command_env(cmd, "TERM", "xterm-256color");
    let ghost e2 = env_of(*cmd);
    command_env(cmd, "COLORTERM", "truecolor");
    let ghost e3 = env_of(*cmd);
    if apple {
        command_env(cmd, "TERM_PROGRAM", "Apple_Terminal");
    }
    proof {
        let e4 = env_of(*cmd);
        lemma_names();
        assert forall|k: Seq<char>|
            #[trigger] kept(e0, e4, k) || terminal_change(e0, e4, apple, k) by {
            lemma_apart(k);
            assert(kept(e0, e1, k) || (!is_other(k, "NO_COLOR"@) && is_dumb(e0)
                && !e1.contains_key(k)));
            assert(kept(e1, e2, k) || (!is_other(k, "TERM"@) && is_set(e2, k, "xterm-256color"@)));
            assert(kept(e2, e3, k) || (!is_other(k, "COLORTERM"@) && is_set(e3, k, "truecolor"@)));
            assert(kept(e3, e4, k) || (!is_other(k, "TERM_PROGRAM"@) && apple && is_set(
                e4,
                k,
                "Apple_Terminal"@,
            )));
        }
        lemma_apart("NO_COLOR"@);
        assert(kept(e1, e2, "NO_COLOR"@));
        assert(kept(e2, e3, "NO_COLOR"@));
        assert(kept(e3, e4, "NO_COLOR"@));
        lemma_apart("TERM"@);
        assert(kept(e2, e3, "TERM"@));
        assert(kept(e3, e4, "TERM"@));
        lemma_apart("COLORTERM"@);
        assert(kept(e3, e4, "COLORTERM"@));
        assert forall|k: Seq<char>| not_terminal(k, apple) implies #[trigger] kept(e0, e4, k) by {
            assert(kept(e0, e4, k) || terminal_change(e0, e4, apple, k));
        }
    }
}

/// Doing it again changes nothing: the terminal's variables and `NO_COLOR` are as they were,
/// and so is every other variable.
pub proof fn law_configuring_twice_is_once(
    before: Map<Seq<char>, (Seq<char>, bool)>,
    once: Map<Seq<char>, (Seq<char>, bool)>,
    twice: Map<Seq<char>, (Seq<char>, bool)>,
    apple: bool,
)
    requires
        configured(before, once, apple),
        configured(once, twice, apple),
    ensures
        kept(once, twice, "TERM"@),
        kept(once, twice, "COLORTERM"@),
        kept(once, twice, "NO_COLOR"@),
        kept(once, twice, "TERM_PROGRAM"@),
        forall|k: Seq<char>| not_terminal(k, apple) ==> #[trigger] kept(once, twice, k),
{
    lemma_names();
    reveal_strlit("dumb");
    reveal_strlit("xterm-256color");
    assert("dumb"@.len() == 4 && "xterm-256color"@.len() == 14);
    assert(!apple ==> not_terminal("TERM_PROGRAM"@, apple));
}

/// The characters of a locale name in upper case, without dashes.
pub open spec fn folded(name: Seq<char>) -> Seq<char>
    decreases name.len(),
{
    if name.len() == 0 {
        name
    } else {
        let init = folded(name.drop_last());
        let c = name.last();
        if c == '-' {
            init
        } else if 'a' <= c <= 'z' {
            init.push((c as u32 - 32) as char)
        } else {
            init.push(c)
        }
    }
}

/// Whether `UTF8` stands in `s` at `i`.
pub open spec fn utf8_at(s: Seq<char>, i: int) -> bool {
    &&& 0 <= i
    &&& i + 4 <= s.len()
    &&& s[i] == 'U'
    &&& s[i + 1] == 'T'
    &&& s[i + 2] == 'F'
    &&& s[i + 3] == '8'
}

/// Whether a locale name is for UTF-8, in any spelling.
pub open spec fn utf8_locale(name: Seq<char>) -> bool {
    exists|i: int| utf8_at(folded(name), i)
}

/// Whether a locale name is for UTF-8: in upper case and without dashes it contains
/// `UTF8`.
pub fn is_utf8_locale(name: &str) -> (r: bool)
    ensures
        r == utf8_locale(name@),
{
    let mut up: Vec<char> = Vec::new();
    for c in it: name.chars()
        invariant
            it.seq() == name@,
            up@ == folded(name@.take(it.index() as int)),
    {
        let ghost k = it.index() as int;
        assert(name@.take(k + 1).drop_last() == name@.take(k));
        assert(name@.take(k + 1).last() == c);
        if c != '-' {
            if 'a' <= c && c <= 'z' {
                up.push(upper(c));
            } else {
                up.push(c);
            }
        }
    }
    assert(name@.take(name@.len() as int) == name@);
    let n: usize = up.len();
    let mut i: usize = 3;
    while i < n
        invariant
            3 <= i,
            n == up@.len(),
            up@ == folded(name@),
            forall|k: int| 0 <= k < i - 3 ==> !utf8_at(folded(name@), k),
        decreases n - i,
    {
        if up[i - 3] == 'U' && up[i - 2] == 'T' && up[i - 1] == 'F' && up[i] == '8' {
            assert(utf8_at(folded(name@), i - 3));
            return true;
        }
        i += 1;
    }
    false
}

fn upper(c: char) -> (r: char)
    requires
        'a' <= c <= 'z',
    ensures
        r == (c as u32 - 32) as char,
{
    let n: u8 = (c as u32 - 32) as u8;
    n as char
}

/// Whether none of the locale names is for UTF-8.
pub open spec fn no_utf8(names: Seq<Seq<char>>) -> bool {
    forall|i: int| 0 <= i < names.len() ==> !utf8_locale(#[trigger] names[i])
}

/// Whether the shell has to be given a UTF-8 locale: when none of the host's locale names
/// is for UTF-8. Without one the shell's line editor would garble multibyte input.
pub fn needs_lang(names: &[String]) -> (r: bool)
    ensures
        r == no_utf8(texts(names@)),
{
    let mut i: usize = 0;
    while i < names.len()
        invariant
            i <= names@.len(),
            forall|k: int| 0 <= k < i ==> !utf8_locale(#[trigger] texts(names@)[k]),
        decreases names@.len() - i,
    {
        if is_utf8_locale(names[i].as_str()) {
            assert(utf8_locale(texts(names@)[i as int]));
            return false;
        }
        i += 1;
    }
    true
}

/// The locale that is given to a shell without one is for UTF-8.
pub proof fn law_given_locale_is_utf8()
    ensures
        utf8_locale("en_US.UTF-8"@),
{
    reveal_strlit("en_US.UTF-8");
    let s = "en_US.UTF-8"@;
    let (head, tail) = (s.take(6), s.skip(6));
    assert(head + tail == s);
    assert(tail =~= seq!['U', 'T', 'F', '-', '8']);
    lemma_folded_concat(head, tail);
    lemma_fold_utf8(tail);
    assert(utf8_at(folded(s), folded(head).len() as int));
}

proof fn lemma_fold_utf8(s: Seq<char>)
    requires
        s == seq!['U', 'T', 'F', '-', '8'],
    ensures
        folded(s) == seq!['U', 'T', 'F', '8'],
{
    reveal_with_fuel(folded, 6);
    let s4 = s.drop_last();
    let s3 = s4.drop_last();
    let s2 = s3.drop_last();
    let s1 = s2.drop_last();
    assert(s1.drop_last() == Seq::<char>::empty());
    assert(folded(s1) == seq!['U']);
    assert(folded(s2) == seq!['U', 'T']);
    assert(folded(s3) == seq!['U', 'T', 'F']);
    assert(folded(s4) == seq!['U', 'T', 'F']);
}

proof fn lemma_folded_concat(a: Seq<char>, b: Seq<char>)
    ensures
        folded(a + b) == folded(a) + folded(b),
    decreases b.len(),
{
    if b.len() == 0 {
        assert(a + b == a);
        assert(folded(a) + folded(b) == folded(a));
    } else {
        lemma_folded_concat(a, b.drop_last());
        assert((a + b).drop_last() == a + b.drop_last());
    }
}

/// A locale name is for UTF-8 whatever stands around the part that says so.
pub proof fn law_utf8_may_stand_anywhere(a: Seq<char>, name: Seq<char>, b: Seq<char>)
    requires
        utf8_locale(name),
    ensures
        utf8_locale(a + name + b),
{
    lemma_folded_concat(a + name, b);
    lemma_folded_concat(a, name);
    let i = choose|i: int| utf8_at(folded(name), i);
    assert(utf8_at(folded(a + name + b), folded(a).len() + i));
}

/// Whether the shell is to be given a UTF-8 locale: where the host has locale names, and
/// none of them is for UTF-8.
pub open spec fn lacks_utf8(locale: Option<&[String]>) -> bool {
    locale is Some && no_utf8(texts(locale->0@))
}

/// Whether `after` is `before` made the environment of a shell in a terminal, with a UTF-8
/// locale where `lang` tells so.
pub open spec fn prepared(
    before: Map<Seq<char>, (Seq<char>, bool)>,
    after: Map<Seq<char>, (Seq<char>, bool)>,
    apple: bool,
    lang: bool,
) -> bool {
    &&& terminal_env(after, apple)
    &&& is_dumb(before) ==> !after.contains_key("NO_COLOR"@)
    &&& !is_dumb(before) ==> kept(before, after, "NO_COLOR"@)
    &&& lang ==> is_set(after, "LANG"@, "en_US.UTF-8"@)
    &&& !lang ==> kept(before, after, "LANG"@)
    &&& forall|k: Seq<char>|
        not_terminal(k, apple) && (lang ==> is_other(k, "LANG"@)) ==> #[trigger] kept(
            before,
            after,
            k,
        )
    &&& forall|k: Seq<char>|
        #[trigger] kept(before, after, k) || terminal_change(before, after, apple, k) || (lang
            && !is_other(k, "LANG"@) && is_set(after, k, "en_US.UTF-8"@))
}

/// Give a command its arguments, directory and terminal environment.
///
/// `cwd` is used only if it is a directory (`cwd_is_dir`): a stale path would otherwise fail
/// the start, and inheriting the host's directory keeps the terminal alive. `locale` are
/// the host's locale names, where it has any such setting.
pub fn prepare_command(
    cmd: &mut CommandBuilder,
    args: &[String],
    cwd: &str,
    cwd_is_dir: bool,
    apple: bool,
    locale: Option<&[String]>,
)
    requires
        argv_of(*old(cmd)).len() > 0,
    ensures
        argv_of(*final(cmd)) == argv_of(*old(cmd)) + texts(args@),
        cwd_of(*final(cmd)) == if cwd@.len() > 0 && cwd_is_dir {
            seq![cwd@]
        } else {
            cwd_of(*old(cmd))
        },
        prepared(env_of(*old(cmd)), env_of(*final(cmd)), apple, lacks_utf8(locale)),
{
    let ghost c0 = *cmd;
    let mut i: usize = 0;
    assert(argv_of(c0) + texts(args@).take(0) == argv_of(c0));
    while i < args.len()
        invariant
            i <= args@.len(),
            argv_of(c0).len() > 0,
            argv_of(*cmd) == argv_of(c0) + texts(args@).take(i as int),
            cwd_of(*cmd) == cwd_of(c0),
            env_of(*cmd) == env_of(c0),
        decreases args@.len() - i,
    {
        command_arg(cmd, args[i].as_str());
        assert(texts(args@).take(i + 1) == texts(args@).take(i as int).push(args@[i as int]@));
        assert(argv_of(*cmd) == argv_of(c0) + texts(args@).take(i + 1));
        i += 1;
    }
    assert(texts(args@).take(i as int) == texts(args@));
    if !cwd.is_empty() && cwd_is_dir {
        command_cwd(cmd, cwd);
    }
    let ghost e0 = env_of(*cmd);
    configure_terminal_environment(cmd, apple);
    let ghost e1 = env_of(*cmd);
    if let Some(names) = locale {
        if needs_lang(names) {
            command_env(cmd, "LANG", "en_US.UTF-8");
        }
    }
    proof {
        let e2 = env_of(*cmd);
        let lang = lacks_utf8(locale);
        lemma_names();
        lemma_apart("TERM"@);
        assert(kept(e1, e2, "TERM"@));
        lemma_apart("COLORTERM"@);
        assert(kept(e1, e2, "COLORTERM"@));
        lemma_apart("TERM_PROGRAM"@);
        assert(kept(e1, e2, "TERM_PROGRAM"@));
        lemma_apart("NO_COLOR"@);
        assert(kept(e1, e2, "NO_COLOR"@));
        assert(not_terminal("LANG"@, apple));
        assert(kept(e0, e1, "LANG"@));
        assert(!lang ==> kept(e1, e2, "LANG"@));
        assert forall|k: Seq<char>|
            #[trigger] kept(e0, e2, k) || terminal_change(e0, e2, apple, k) || (lang && !is_other(
                k,
                "LANG"@,
            ) && is_set(e2, k, "en_US.UTF-8"@)) by {
            lemma_apart(k);
            assert(kept(e0, e1, k) || terminal_change(e0, e1, apple, k));
            assert(kept(e1, e2, k) || (lang && !is_other(k, "LANG"@) && is_set(
                e2,
                k,
                "en_US.UTF-8"@,
            )));
        }
        assert forall|k: Seq<char>|
            not_terminal(k, apple) && (lang ==> is_other(k, "LANG"@)) implies #[trigger] kept(
            e0,
            e2,
            k,
        ) by {
            assert(kept(e0, e2, k) || terminal_change(e0, e2, apple, k) || (lang && !is_other(
                k,
                "LANG"@,
            ) && is_set(e2, k, "en_US.UTF-8"@)));
        }
    }
}

/// Whether the variables that were set on a command are those of a terminal, and `LANG`
/// exactly where `lang` tells so; another case of one of these names may be set with it.
pub open spec fn only_terminal_given(
    env: Map<Seq<char>, (Seq<char>, bool)>,
    apple: bool,
    lang: bool,
) -> bool {
    &&& is_given(env, "LANG"@) <==> lang
    &&& is_given(env, "TERM_PROGRAM"@) <==> apple
    &&& !is_given(env, "NO_COLOR"@)
    &&& forall|k: Seq<char>| #[trigger]
        is_given(env, k) ==> {
            ||| !is_other(k, "TERM"@)
            ||| !is_other(k, "COLORTERM"@)
            ||| apple && !is_other(k, "TERM_PROGRAM"@)
            ||| lang && !is_other(k, "LANG"@)
        }
}

/// A command on which nothing was set has, once it is prepared, only the terminal's
/// variables set, and `LANG` exactly where the shell is to be given a locale.
pub proof fn law_fresh_command_is_given_terminal_only(
    before: Map<Seq<char>, (Seq<char>, bool)>,
    after: Map<Seq<char>, (Seq<char>, bool)>,
    apple: bool,
    lang: bool,
)
    requires
        forall|k: Seq<char>| !#[trigger] is_given(before, k),
        prepared(before, after, apple, lang),
    ensures
        only_terminal_given(after, apple, lang),
{
    lemma_names();
    assert forall|k: Seq<char>| #[trigger] is_given(after, k) implies {
        ||| !is_other(k, "TERM"@)
        ||| !is_other(k, "COLORTERM"@)
        ||| apple && !is_other(k, "TERM_PROGRAM"@)
        ||| lang && !is_other(k, "LANG"@)
    } by {
        assert(!is_given(before, k));
        assert(!kept(before, after, k));
    }
    assert(!is_given(before, "NO_COLOR"@));
}

/// The command that runs `shell` with `args` in a terminal, as [`prepare_command`] makes it
/// of a fresh command. What was not set on it is as in the process, but for `NO_COLOR`,
/// which is unset where the process is not interactive.
pub fn build_command(
    shell: &str,
    args: &[String],
    cwd: &str,
    cwd_is_dir: bool,
    apple: bool,
    locale: Option<&[String]>,
) -> (r: CommandBuilder)
    ensures
        argv_of(r) == seq![shell@] + texts(args@),
        cwd_of(r) == if cwd@.len() > 0 && cwd_is_dir {
            seq![cwd@]
        } else {
            Seq::empty()
        },
        terminal_env(env_of(r), apple),
        lacks_utf8(locale) ==> is_set(env_of(r), "LANG"@, "en_US.UTF-8"@),
        only_terminal_given(env_of(r), apple, lacks_utf8(locale)),
{
    let mut cmd = command_new(shell);
    let ghost before = env_of(cmd);
    prepare_command(&mut cmd, args, cwd, cwd_is_dir, apple, locale);
    proof {
        law_fresh_command_is_given_terminal_only(
            before,
            env_of(cmd),
            apple,
            lacks_utf8(locale),
        );
    }
    cmd
}

/// The size of the terminal in cells, as `(cols, rows)`: at least one of each.
pub fn pty_size(cols: u16, rows: u16) -> (r: (u16, u16))
    ensures
        r.0 == if cols == 0 {
            1
        } else {
            cols
        },
        r.1 == if rows == 0 {
            1
        } else {
            rows
        },
        r.0 > 0 && r.1 > 0,
        cols > 0 ==> r.0 == cols,
        rows > 0 ==> r.1 == rows,
        r.0 <= 1 || r.0 == cols,
        r.1 <= 1 || r.1 == rows,
{
    (
        if cols == 0 {
            1
        } else {
            cols
        },
        if rows == 0 {
            1
        } else {
            rows
        },
    )
}

/// A dash anywhere in a locale name makes no difference to whether it is for UTF-8.
pub proof fn law_dashes_make_no_difference(a: Seq<char>, b: Seq<char>)
    ensures
        utf8_locale(a + seq!['-'] + b) <==> utf8_locale(a + b),
{
    lemma_folded_concat(a, b);
    lemma_folded_concat(a + seq!['-'], b);
    lemma_folded_concat(a, seq!['-']);
    assert(seq!['-'].drop_last() == Seq::<char>::empty());
    assert(folded(Seq::<char>::empty()) == Seq::<char>::empty());
    assert(folded(seq!['-']) == Seq::<char>::empty());
    assert(folded(a) + Seq::<char>::empty() + folded(b) == folded(a) + folded(b));
}

/// The case of a letter in a locale name makes no difference to whether it is for UTF-8.
pub proof fn law_case_makes_no_difference(a: Seq<char>, lower: char, upper: char, b: Seq<char>)
    requires
        'a' <= lower <= 'z',
        upper as int == lower as int - 32,
    ensures
        utf8_locale(a + seq![lower] + b) <==> utf8_locale(a + seq![upper] + b),
{
    lemma_folded_concat(a + seq![lower], b);
    lemma_folded_concat(a, seq![lower]);
    lemma_folded_concat(a + seq![upper], b);
    lemma_folded_concat(a, seq![upper]);
    let e = Seq::<char>::empty();
    assert(seq![lower].drop_last() == e);
    assert(seq![upper].drop_last() == e);
    assert(folded(e) == e);
    assert(folded(seq![lower]) == seq![upper]);
    assert(folded(seq![upper]) == seq![upper]);
}

/// A locale name in capitals and without dashes is for UTF-8 exactly when `UTF8` stands in it.
pub proof fn law_utf8_is_in_the_name(name: Seq<char>)
    requires
        forall|i: int|
            0 <= i < name.len() ==> #[trigger] name[i] != '-' && !('a' <= name[i] <= 'z'),
    ensures
        utf8_locale(name) <==> exists|i: int|
            0 <= i && i + 4 <= name.len() && #[trigger] name.subrange(i, i + 4) == seq![
                'U',
                'T',
                'F',
                '8',
            ],
{
    lemma_folded_same(name);
    let want = seq!['U', 'T', 'F', '8'];
    if utf8_locale(name) {
        let i = choose|i: int| utf8_at(folded(name), i);
        assert(name.subrange(i, i + 4) == want);
    }
    if exists|i: int| 0 <= i && i + 4 <= name.len() && #[trigger] name.subrange(i, i + 4) == want {
        let i = choose|i: int|
            0 <= i && i + 4 <= name.len() && #[trigger] name.subrange(i, i + 4) == want;
        let part = name.subrange(i, i + 4);
        assert(part[0] == 'U' && part[1] == 'T' && part[2] == 'F' && part[3] == '8');
        assert(utf8_at(folded(name), i));
    }
}

proof fn lemma_folded_same(name: Seq<char>)
    requires
        forall|i: int|
            0 <= i < name.len() ==> #[trigger] name[i] != '-' && !('a' <= name[i] <= 'z'),
    ensures
        folded(name) == name,
    decreases name.len(),
{
    if name.len() > 0 {
        let init = name.drop_last();
        assert forall|i: int| 0 <= i < init.len() implies #[trigger] init[i] != '-' && !('a'
            <= init[i] <= 'z') by {
            assert(init[i] == name[i]);
        }
        lemma_folded_same(init);
        assert(name[name.len() - 1] != '-');
        assert(init.push(name.last()) == name);
    }
}

/// A shell has to be given a locale exactly when there are locale names and none of them is
/// for UTF-8.
pub proof fn law_locale_is_lacking(names: Seq<Seq<char>>)
    ensures
        no_utf8(names) <==> !(exists|i: int| 0 <= i < names.len() && utf8_locale(#[trigger] names[i])),
{
}

/// The names in lower case.
proof fn lemma_lower_names()
    ensures
        ascii_lower("TERM"@) == "term"@,
        ascii_lower("COLORTERM"@) == "colorterm"@,
        ascii_lower("NO_COLOR"@) == "no_color"@,
        ascii_lower("TERM_PROGRAM"@) == "term_program"@,
        ascii_lower("LANG"@) == "lang"@,
{
    reveal_strlit("NO_COLOR");
    reveal_strlit("TERM");
    reveal_strlit("COLORTERM");
    reveal_strlit("TERM_PROGRAM");
    reveal_strlit("LANG");
    reveal_strlit("no_color");
    reveal_strlit("term");
    reveal_strlit("colorterm");
    reveal_strlit("term_program");
    reveal_strlit("lang");
    assert(ascii_lower("TERM"@) =~= "term"@);
    assert(ascii_lower("COLORTERM"@) =~= "colorterm"@);
    assert(ascii_lower("NO_COLOR"@) =~= "no_color"@);
    assert(ascii_lower("TERM_PROGRAM"@) =~= "term_program"@);
    assert(ascii_lower("LANG"@) =~= "lang"@);
}

/// What it means to configure an environment: `TERM` and `COLORTERM` tell of a terminal with
/// colors, with `apple` also `TERM_PROGRAM`; `NO_COLOR` is gone where `TERM` was `dumb` and as
/// it was elsewhere; and a variable of any other name, whatever its case, is as it was.
pub proof fn law_configured_in_words(
    before: Map<Seq<char>, (Seq<char>, bool)>,
    after: Map<Seq<char>, (Seq<char>, bool)>,
    apple: bool,
    k: Seq<char>,
)
    requires
        configured(before, after, apple),
    ensures
        after.contains_key("TERM"@) && after["TERM"@].0 == "xterm-256color"@,
        after.contains_key("COLORTERM"@) && after["COLORTERM"@].0 == "truecolor"@,
        apple ==> after.contains_key("TERM_PROGRAM"@) && after["TERM_PROGRAM"@].0
            == "Apple_Terminal"@,
        before.contains_key("TERM"@) && before["TERM"@].0 == "dumb"@ ==> !after.contains_key(
            "NO_COLOR"@,
        ),
        !(before.contains_key("TERM"@) && before["TERM"@].0 == "dumb"@) ==> (after.contains_key(
            "NO_COLOR"@,
        ) <==> before.contains_key("NO_COLOR"@)) && (before.contains_key("NO_COLOR"@)
            ==> after["NO_COLOR"@] == before["NO_COLOR"@]),
        !is_ascii_chars(k) || (ascii_lower(k) != "term"@ && ascii_lower(k) != "colorterm"@
            && ascii_lower(k) != "no_color"@ && (apple ==> ascii_lower(k) != "term_program"@)) ==> (
        after.contains_key(k) <==> before.contains_key(k)) && (before.contains_key(k) ==> after[k]
            == before[k]),
{
    lemma_lower_names();
    if !is_ascii_chars(k) || (ascii_lower(k) != "term"@ && ascii_lower(k) != "colorterm"@
        && ascii_lower(k) != "no_color"@ && (apple ==> ascii_lower(k) != "term_program"@)) {
        assert(not_terminal(k, apple));
        assert(kept(before, after, k));
    }
}

/// What it means to prepare an environment: it is configured, and `LANG` is set to a UTF-8
/// locale where `lang` tells so and as it was elsewhere.
pub proof fn law_prepared_in_words(
    before: Map<Seq<char>, (Seq<char>, bool)>,
    after: Map<Seq<char>, (Seq<char>, bool)>,
    apple: bool,
    lang: bool,
    k: Seq<char>,
)
    requires
        prepared(before, after, apple, lang),
    ensures
        after.contains_key("TERM"@) && after["TERM"@].0 == "xterm-256color"@,
        after.contains_key("COLORTERM"@) && after["COLORTERM"@].0 == "truecolor"@,
        apple ==> after.contains_key("TERM_PROGRAM"@) && after["TERM_PROGRAM"@].0
            == "Apple_Terminal"@,
        before.contains_key("TERM"@) && before["TERM"@].0 == "dumb"@ ==> !after.contains_key(
            "NO_COLOR"@,
        ),
        !(before.contains_key("TERM"@) && before["TERM"@].0 == "dumb"@) ==> (after.contains_key(
            "NO_COLOR"@,
        ) <==> before.contains_key("NO_COLOR"@)) && (before.contains_key("NO_COLOR"@)
            ==> after["NO_COLOR"@] == before["NO_COLOR"@]),
        lang ==> after.contains_key("LANG"@) && after["LANG"@].0 == "en_US.UTF-8"@,
        !is_ascii_chars(k) || (ascii_lower(k) != "term"@ && ascii_lower(k) != "colorterm"@
            && ascii_lower(k) != "no_color"@ && (apple ==> ascii_lower(k) != "term_program"@) && (
        lang ==> ascii_lower(k) != "lang"@)) ==> (after.contains_key(k) <==> before.contains_key(k))
            && (before.contains_key(k) ==> after[k] == before[k]),
{
    lemma_lower_names();
    if !is_ascii_chars(k) || (ascii_lower(k) != "term"@ && ascii_lower(k) != "colorterm"@
        && ascii_lower(k) != "no_color"@ && (apple ==> ascii_lower(k) != "term_program"@) && (lang
        ==> ascii_lower(k) != "lang"@)) {
        assert(not_terminal(k, apple) && (lang ==> is_other(k, "LANG"@)));
        assert(kept(before, after, k));
    }
}

/// On a command that was given only what a terminal needs, no variable of another name was
/// set, whatever its case.
pub proof fn law_given_in_words(
    env: Map<Seq<char>, (Seq<char>, bool)>,
    apple: bool,
    lang: bool,
    k: Seq<char>,
)
    requires
        only_terminal_given(env, apple, lang),
    ensures
        lang <==> env.contains_key("LANG"@) && env["LANG"@].1,
        apple <==> env.contains_key("TERM_PROGRAM"@) && env["TERM_PROGRAM"@].1,
        !is_ascii_chars(k) || (ascii_lower(k) != "term"@ && ascii_lower(k) != "colorterm"@
            && ascii_lower(k) != "term_program"@ && ascii_lower(k) != "lang"@) ==> !(
        env.contains_key(k) && env[k].1),
{
    lemma_lower_names();
    assert(is_given(env, k) == (env.contains_key(k) && env[k].1));
}

} // verus!
