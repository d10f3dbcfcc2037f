use unterm::blob::{blob_text, forward_slashed, git_base, git_texts, stage_blob, uses_crlf};

#[test]
fn stage_blob_updates_index_and_keeps_crlf() {
    let blob = "a\r\nb\r\nc\r\n".as_bytes();
    // Staging new LF content re-applies CRLF to match the blob.
    let raw = stage_blob(Some(blob), "a\nB\nc\n");
    assert_eq!(
        raw, b"a\r\nB\r\nc\r\n",
        "line endings preserved in the index blob"
    );
    assert_eq!(git_base(Some(&raw)).as_deref(), Some("a\nB\nc\n")); // LF-normalized read
}

#[test]
fn git_texts_reads_head_and_index() {
    // Staged but no commit yet: head None, index Some.
    assert_eq!(git_texts(None, Some(b"one\n")), (None, Some("one\n".into())));
    // A different version staged: head and index diverge.
    let staged = stage_blob(Some(b"one\n"), "two\n");
    assert_eq!(
        git_texts(Some(b"one\n"), Some(&staged)),
        (Some("one\n".into()), Some("two\n".into()))
    );
    assert_eq!(git_texts(None, None), (None, None));
}

#[test]
fn git_base_reads_staged_blob() {
    assert_eq!(
        git_base(Some(b"one\r\ntwo\r\nthree\r\n")).as_deref(),
        Some("one\ntwo\nthree\n")
    );
    assert_eq!(git_base(None), None);
}

#[test]
fn invalid_utf8_is_read_lossily() {
    assert_eq!(blob_text(&[b'a', 0xff, b'\r', b'b']), "a\u{fffd}\nb");
    assert_eq!(blob_text("h\u{e9}\r\n".as_bytes()), "h\u{e9}\n");
}

#[test]
fn crlf_needs_both_bytes_in_a_row() {
    assert!(uses_crlf(b"a\r\nb"));
    assert!(!uses_crlf(b"a\rb\n"));
    assert!(!uses_crlf(b"\n\r"));
    assert!(!uses_crlf(b"\r"));
    assert!(!uses_crlf(b""));
}

#[test]
fn line_endings_follow_the_current_blob() {
    assert_eq!(stage_blob(Some(b"x\n"), "a\nb"), b"a\nb");
    assert_eq!(stage_blob(None, "a\nb"), b"a\nb");
    assert_eq!(stage_blob(Some(b"\r\n"), "no lines"), b"no lines");
    let back = stage_blob(Some(b"\r\n"), "\u{1f600}\n\n");
    assert_eq!(blob_text(&back), "\u{1f600}\n\n");
    assert!(uses_crlf(&back));
}

#[test]
fn paths_are_forward_slashed() {
    assert_eq!(forward_slashed("Assets\\Scripts\\A b.cs"), "Assets/Scripts/A b.cs");
    assert_eq!(forward_slashed("already/fine"), "already/fine");
}
