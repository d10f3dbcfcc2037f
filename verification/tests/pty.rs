use portable_pty::CommandBuilder;
use unterm::pty::{
    build_command, configure_terminal_environment, is_utf8_locale, needs_lang, prepare_command,
    pty_size,
};

fn env(cmd: &CommandBuilder, name: &str) -> Option<String> {
    cmd.get_env(name).and_then(|v| v.to_str()).map(|v| v.to_string())
}

#[test]
fn terminal_environment_enables_color_when_host_disables_it() {
    // Arrange
    let mut cmd = CommandBuilder::new("dummy");
    cmd.env("TERM", "dumb");
    cmd.env("COLORTERM", "");
    cmd.env("NO_COLOR", "1");

    // Act
    configure_terminal_environment(&mut cmd, false);

    // Assert
    assert_eq!(env(&cmd, "TERM").as_deref(), Some("xterm-256color"));
    assert_eq!(env(&cmd, "COLORTERM").as_deref(), Some("truecolor"));
    assert_eq!(env(&cmd, "NO_COLOR"), None);
}

#[test]
fn terminal_environment_preserves_explicit_no_color_from_interactive_host() {
    // Arrange
    let mut cmd = CommandBuilder::new("dummy");
    cmd.env("TERM", "xterm-256color");
    cmd.env("NO_COLOR", "1");

    // Act
    configure_terminal_environment(&mut cmd, false);

    // Assert
    assert_eq!(env(&cmd, "NO_COLOR").as_deref(), Some("1"));
}

#[test]
fn other_variables_are_kept() {
    let mut cmd = CommandBuilder::new("dummy");
    cmd.env("TERM", "dumb");
    cmd.env("EDITOR", "vi");
    cmd.env_remove("TERM_PROGRAM");
    configure_terminal_environment(&mut cmd, false);
    assert_eq!(env(&cmd, "EDITOR").as_deref(), Some("vi"));
    assert_eq!(env(&cmd, "TERM_PROGRAM"), None);
    configure_terminal_environment(&mut cmd, true);
    assert_eq!(env(&cmd, "TERM_PROGRAM").as_deref(), Some("Apple_Terminal"));
    assert_eq!(cmd.get_argv().len(), 1);
}

#[test]
fn locales_in_any_spelling() {
    for name in ["en_US.UTF-8", "C.utf8", "ja_JP.Utf-8", "UTF-8", "u-t-f-8"] {
        assert!(is_utf8_locale(name), "{name}");
    }
    for name in ["C", "", "POSIX", "en_US.ISO-8859-1", "utf"] {
        assert!(!is_utf8_locale(name), "{name}");
    }
    assert!(needs_lang(&[]));
    assert!(needs_lang(&["C".to_string(), "POSIX".to_string()]));
    assert!(!needs_lang(&["C".to_string(), "de_DE.UTF-8".to_string()]));
}

#[test]
fn commands_are_put_together() {
    let args = ["-lic".to_string(), "exec vim".to_string()];
    let none: [String; 0] = [];
    let cmd = build_command("/bin/zsh", &args, "/tmp", true, true, Some(&none));
    let argv: Vec<&str> = cmd.get_argv().iter().filter_map(|a| a.to_str()).collect();
    assert_eq!(argv, vec!["/bin/zsh", "-lic", "exec vim"]);
    assert_eq!(cmd.get_cwd().and_then(|d| d.to_str()), Some("/tmp"));
    assert_eq!(env(&cmd, "LANG").as_deref(), Some("en_US.UTF-8"));
    assert_eq!(env(&cmd, "TERM").as_deref(), Some("xterm-256color"));
    assert_eq!(env(&cmd, "TERM_PROGRAM").as_deref(), Some("Apple_Terminal"));
    let plain = build_command("sh", &[], "/gone", false, false, None);
    assert_eq!(plain.get_cwd(), None);
    assert_eq!(plain.get_argv().len(), 1);
    assert_eq!(build_command("sh", &[], "", true, false, None).get_cwd(), None);
}

#[test]
fn terminals_have_at_least_one_cell() {
    assert_eq!(pty_size(0, 0), (1, 1));
    assert_eq!(pty_size(80, 24), (80, 24));
}

#[test]
fn preparing_keeps_what_it_does_not_set() {
    let mut cmd = CommandBuilder::new("sh");
    cmd.env("TERM", "dumb");
    cmd.env("NO_COLOR", "1");
    cmd.env("LANG", "ja_JP.UTF-8");
    cmd.env("PAGER", "less");
    cmd.cwd("/var");
    let utf8 = ["ja_JP.UTF-8".to_string()];
    prepare_command(&mut cmd, &["-l".to_string()], "", false, false, Some(&utf8));
    assert_eq!(env(&cmd, "LANG").as_deref(), Some("ja_JP.UTF-8"));
    assert_eq!(env(&cmd, "PAGER").as_deref(), Some("less"));
    assert_eq!(env(&cmd, "NO_COLOR"), None);
    assert_eq!(cmd.get_cwd().and_then(|d| d.to_str()), Some("/var"));
    assert_eq!(cmd.get_argv().len(), 2);
    let plain = ["C".to_string()];
    prepare_command(&mut cmd, &[], "/tmp", true, false, Some(&plain));
    assert_eq!(env(&cmd, "LANG").as_deref(), Some("en_US.UTF-8"));
    assert_eq!(cmd.get_cwd().and_then(|d| d.to_str()), Some("/tmp"));
}

#[test]
fn names_that_are_not_ascii_are_kept() {
    let mut cmd = CommandBuilder::new("sh");
    cmd.env("TERM", "dumb");
    for name in ["T\u{c9}RM", "\u{212a}TERM", "LANG\u{e9}", "\u{130}", "\u{5909}\u{6570}"] {
        cmd.env(name, name);
    }
    prepare_command(&mut cmd, &[], "", false, true, Some(&[]));
    for name in ["T\u{c9}RM", "\u{212a}TERM", "LANG\u{e9}", "\u{130}", "\u{5909}\u{6570}"] {
        assert_eq!(env(&cmd, name).as_deref(), Some(name));
    }
}

#[test]
fn only_a_kelvin_sign_is_ascii_in_lower_case() {
    for n in 0x80..=0x10ffffu32 {
        if let Some(c) = char::from_u32(n) {
            let lower = c.to_string().to_lowercase();
            assert_eq!(lower.is_ascii(), c == '\u{212a}', "{n:x}");
        }
    }
    assert_eq!("\u{212a}".to_lowercase(), "k");
}

#[test]
fn configuring_again_changes_nothing() {
    for (term, no_color) in [("dumb", "1"), ("xterm", "1"), ("", "")] {
        let mut cmd = CommandBuilder::new("sh");
        cmd.env("TERM", term);
        cmd.env("NO_COLOR", no_color);
        configure_terminal_environment(&mut cmd, true);
        let once = cmd.clone();
        configure_terminal_environment(&mut cmd, true);
        assert_eq!(cmd, once);
    }
}

#[test]
fn only_the_terminal_variables_are_set_on_a_fresh_command() {
    let given = |cmd: &CommandBuilder| {
        let mut names: Vec<String> =
            cmd.iter_extra_env_as_str().map(|(name, _)| name.to_string()).collect();
        names.sort();
        names
    };
    let utf8 = ["C".to_string(), "de_DE.UTF-8".to_string()];
    let plain = ["C".to_string()];
    let cmd = build_command("sh", &[], "", false, false, Some(&utf8));
    assert_eq!(given(&cmd), vec!["COLORTERM", "TERM"]);
    assert_eq!(given(&build_command("sh", &[], "", false, false, None)), given(&cmd));
    let cmd = build_command("sh", &[], "", false, false, Some(&plain));
    assert_eq!(given(&cmd), vec!["COLORTERM", "LANG", "TERM"]);
    let cmd = build_command("sh", &[], "", false, true, Some(&[]));
    assert_eq!(given(&cmd), vec!["COLORTERM", "LANG", "TERM", "TERM_PROGRAM"]);
}
