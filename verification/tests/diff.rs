use unterm::diff::{
    hunks, hunks_from_ops, normalize_newlines, overlaps_staged, ranges_touch, staged_flags, Hunk,
    LineOp,
};
use unterm::gutter::{
    apply_staged_bits, display_from_hunks, display_hunks, line_markers, markers_from_hunks, ADDED, DELETED_ABOVE,
    DELETED_BELOW, MODIFIED, STAGED, STAGED_DEL,
};
use unterm::patch::{stage_apply, stage_hunks, unstage_apply, unstage_hunks};

#[test]
fn no_change_no_markers() {
    assert_eq!(line_markers("a\nb\nc", "a\nb\nc"), vec![0, 0, 0]);
}

#[test]
fn empty_base_is_off() {
    // Untracked / no base: never light up every line.
    assert_eq!(line_markers("", "a\nb"), vec![0, 0]);
}

#[test]
fn added_lines() {
    // Insert "x" between b and c.
    let m = line_markers("a\nb\nc", "a\nb\nx\nc");
    assert_eq!(m, vec![0, 0, ADDED, 0]);
}

#[test]
fn appended_lines_at_eof() {
    let m = line_markers("a\nb", "a\nb\nc\nd");
    assert_eq!(m, vec![0, 0, ADDED, ADDED]);
}

#[test]
fn modified_line() {
    let m = line_markers("a\nb\nc", "a\nB\nc");
    assert_eq!(m, vec![0, MODIFIED, 0]);
}

#[test]
fn deleted_interior_marks_boundary() {
    // Remove "b": the gap sits above the line that was "c" (now index 1).
    let m = line_markers("a\nb\nc", "a\nc");
    assert_eq!(m, vec![0, DELETED_ABOVE]);
}

#[test]
fn deleted_at_eof_marks_below_last() {
    let m = line_markers("a\nb\nc", "a\nb");
    assert_eq!(m, vec![0, DELETED_BELOW]);
}

#[test]
fn crlf_base_matches_lf_buffer() {
    // A CRLF index blob normalized to LF must not read as all-modified.
    let base = normalize_newlines("a\r\nb\r\nc");
    assert_eq!(line_markers(&base, "a\nb\nc"), vec![0, 0, 0]);
}

#[test]
fn hunks_expose_old_range_for_peek() {
    // Modified line: the old line is recoverable for a peek.
    let base = "a\nb\nc";
    let cur = "a\nB\nc";
    let hs = hunks(base, cur);
    assert_eq!(
        hs,
        vec![Hunk {
            old_start: 1,
            old_len: 1,
            new_start: 1,
            new_len: 1
        }]
    );
    let old: Vec<&str> = base.split('\n').collect();
    assert_eq!(
        &old[hs[0].old_start..hs[0].old_start + hs[0].old_len],
        &["b"]
    );

    // Pure deletion: new_len 0, boundary at the line the removed text sat above.
    let hs = hunks("a\nb\nc", "a\nc");
    assert_eq!(
        hs,
        vec![Hunk {
            old_start: 1,
            old_len: 1,
            new_start: 1,
            new_len: 0
        }]
    );

    // Pure addition: nothing removed (old_len 0), so no peek content.
    let hs = hunks("a\nc", "a\nb\nc");
    assert_eq!(
        hs,
        vec![Hunk {
            old_start: 1,
            old_len: 0,
            new_start: 1,
            new_len: 1
        }]
    );
}

#[test]
fn markers_match_the_direct_path() {
    // markers_from_hunks(hunks(..)) is what line_markers is built on.
    for (b, c) in [
        ("a\nb\nc", "a\nB\nc"),
        ("a\nb", "a\nb\nc\nd"),
        ("a\nb\nc", "a\nb"),
    ] {
        assert_eq!(
            line_markers(b, c),
            markers_from_hunks(&hunks(b, c), c.split('\n').count())
        );
    }
}

#[test]
fn stage_apply_stages_one_hunk_and_keeps_earlier_staged() {
    // HEAD: a b c d e. Buffer changes b→B and d→D (two hunks vs HEAD).
    let head = "a\nb\nc\nd\ne";
    let cur = "a\nB\nc\nD\ne";
    let hs = hunks(head, cur);
    assert_eq!(hs.len(), 2);

    // Stage the first hunk: index starts equal to HEAD.
    let idx1 = stage_apply(
        head,
        cur,
        (hs[0].new_start, hs[0].new_start + hs[0].new_len),
    )
    .unwrap();
    assert_eq!(idx1, "a\nB\nc\nd\ne", "only the b→B hunk staged");

    // Stage the second hunk against the UPDATED index: B must be preserved
    // (this is the clobber the index-space diff avoids).
    let idx2 = stage_apply(
        &idx1,
        cur,
        (hs[1].new_start, hs[1].new_start + hs[1].new_len),
    )
    .unwrap();
    assert_eq!(
        idx2, "a\nB\nc\nD\ne",
        "second stage keeps the earlier staged hunk"
    );

    // Pure deletion: buffer removed "b"; staging drops it from the index.
    let head = "a\nb\nc";
    let cur = "a\nc";
    let hd = hunks(head, cur);
    let idx = stage_apply(
        head,
        cur,
        (hd[0].new_start, hd[0].new_start + hd[0].new_len),
    )
    .unwrap();
    assert_eq!(idx, "a\nc");

    // Nothing to stage (buffer == index) → None.
    assert_eq!(stage_apply("a\nb", "a\nb", (0, 1)), None);
}

#[test]
fn unstage_apply_reverts_one_staged_hunk() {
    // HEAD: a b c d e. Index has both hunks staged; unstage only the first.
    let head = "a\nb\nc\nd\ne";
    let index = "a\nB\nc\nD\ne";
    let sh = hunks(head, index);
    assert_eq!(sh.len(), 2);
    let idx = unstage_apply(
        head,
        index,
        (sh[0].old_start, sh[0].old_start + sh[0].old_len),
    )
    .unwrap();
    assert_eq!(idx, "a\nb\nc\nD\ne", "only the first hunk reverted to HEAD");

    // Unstaging a staged deletion restores the removed line.
    let idx = unstage_apply("a\nb\nc", "a\nc", (1, 2)).unwrap();
    assert_eq!(idx, "a\nb\nc");

    // Nothing staged there → None.
    assert_eq!(unstage_apply("a\nb", "a\nb", (0, 1)), None);
}

#[test]
fn staged_flags_match_exact_index_change() {
    let head = "a\nb\nc\nd\ne";
    let cur = "a\nB\nc\nD\ne";
    let cur_hunks = hunks(head, cur);

    // Index has only the b→B hunk staged.
    let index = "a\nB\nc\nd\ne";
    let index_hunks = hunks(head, index);
    let flags = staged_flags(index, &index_hunks, cur, &cur_hunks);
    assert_eq!(flags, vec![true, false]);

    // Editing the staged region further makes it read unstaged again.
    let cur2 = "a\nBB\nc\nD\ne";
    let cur2_hunks = hunks(head, cur2);
    let flags2 = staged_flags(index, &index_hunks, cur2, &cur2_hunks);
    assert_eq!(flags2, vec![false, false]);

    // A staged pure deletion matches by ranges (no content to compare).
    let head = "a\nb\nc";
    let cur = "a\nc";
    let index = "a\nc";
    let flags3 = staged_flags(index, &hunks(head, index), cur, &hunks(head, cur));
    assert_eq!(flags3, vec![true]);
}

#[test]
fn display_hunks_synthesizes_staged_only() {
    // Staged b→B, but the buffer is back at HEAD: the editor must still show a
    // staged hunk there (matching `git diff --cached`), peeking the index lines.
    let head = "a\nb\nc";
    let index = "a\nB\nc";
    let ih = hunks(head, index);
    let cur = head; // buffer == HEAD
    let ds = display_hunks(Some(head), Some(index), &ih, cur);
    assert_eq!(ds.len(), 1);
    let d = &ds[0];
    assert!(d.staged);
    assert_eq!(d.index_new, Some((1, 1)));
    assert_eq!(
        d.hunk,
        Hunk {
            old_start: 1,
            old_len: 1,
            new_start: 1,
            new_len: 1
        }
    );

    // Unstaging it from the synthesized hunk's HEAD range restores the index.
    let restored = unstage_apply(
        head,
        index,
        (d.hunk.old_start, d.hunk.old_start + d.hunk.old_len),
    )
    .unwrap();
    assert_eq!(restored, head);
}

#[test]
fn display_hunks_maps_staged_only_past_buffer_edits() {
    // A buffer insertion ABOVE the staged-only region shifts its buffer lines.
    let head = "a\nb\nc\nd";
    let index = "a\nb\nC\nd"; // staged c→C
    let ih = hunks(head, index);
    let cur = "X\na\nb\nc\nd"; // unsaved insertion at top; c is now buffer line 3
    let ds = display_hunks(Some(head), Some(index), &ih, cur);
    let so: Vec<_> = ds.iter().filter(|d| d.index_new.is_some()).collect();
    assert_eq!(so.len(), 1);
    assert_eq!(
        so[0].hunk.new_start, 3,
        "staged-only hunk mapped past the insertion"
    );

    // And the ordinary insertion hunk is still there, unstaged.
    assert!(ds.iter().any(|d| d.index_new.is_none() && !d.staged));
}

#[test]
fn display_hunks_skips_staged_only_when_region_reedited() {
    // The staged region was edited again in the buffer: show ONE unstaged buffer
    // hunk there, not a duplicate staged-only hunk.
    let head = "a\nb\nc";
    let index = "a\nB\nc"; // staged b→B
    let ih = hunks(head, index);
    let cur = "a\nBB\nc"; // buffer re-edited the same line
    let ds = display_hunks(Some(head), Some(index), &ih, cur);
    assert_eq!(ds.len(), 1);
    assert!(ds[0].index_new.is_none());
    assert!(!ds[0].staged);
}

#[test]
fn editing_a_staged_hunk_reads_unstaged_then_restages() {
    // Stage b→B, then edit the same line further in the buffer (B→BB, unsaved).
    let head = "a\nb\nc";
    let index = "a\nB\nc"; // the staged version
    let ih = hunks(head, index);
    let cur = "a\nBB\nc"; // edited beyond what's staged

    // 1. The hunk reads UNSTAGED again (solid marker), shown once (no duplicate
    //    staged-only hunk), and the index is untouched by the edit.
    let ds = display_hunks(Some(head), Some(index), &ih, cur);
    assert_eq!(ds.len(), 1);
    assert!(
        !ds[0].staged,
        "further-edited staged hunk must read unstaged"
    );
    assert!(ds[0].index_new.is_none(), "no duplicate staged-only hunk");

    // 2. Re-staging replaces the old staged version with the current content.
    let h = ds[0].hunk;
    let restaged = stage_apply(index, cur, (h.new_start, h.new_start + h.new_len)).unwrap();
    assert_eq!(restaged, "a\nBB\nc");

    // 3. The region still reads "has staged content" (partially staged), so the
    //    menu offers Unstage alongside Stage — and unstage_apply drops the old
    //    staged version wholesale.
    assert!(overlaps_staged(&ih, (h.old_start, h.old_start + h.old_len)));
    assert!(
        !overlaps_staged(&ih, (10, 12)),
        "untouched region has nothing staged"
    );
    let dropped = unstage_apply(head, index, (h.old_start, h.old_start + h.old_len)).unwrap();
    assert_eq!(dropped, head);
}

#[test]
fn apply_staged_bits_marks_lines_and_boundaries() {
    let head = "a\nb\nc\nd";
    let cur = "a\nB\nd"; // b→B (staged), c deleted (unstaged)
    let hs = hunks(head, cur);
    let n = cur.split('\n').count();
    let mut marks = markers_from_hunks(&hs, n);
    // hunks: one Replace (b,c → B)? Depends on Myers; compute flags directly.
    let staged: Vec<bool> = hs.iter().map(|h| h.new_len > 0).collect();
    apply_staged_bits(&mut marks, &hs, &staged);
    for (i, m) in marks.iter().enumerate() {
        if m & (ADDED | MODIFIED) != 0 {
            assert_ne!(m & STAGED, 0, "line {i} bar should carry STAGED");
        }
    }
}

#[test]
fn staged_deletions_draw_hollow_wedges() {
    let above = Hunk { old_start: 1, old_len: 1, new_start: 1, new_len: 0 };
    let below = Hunk { old_start: 3, old_len: 1, new_start: 2, new_len: 0 };
    let mut marks = markers_from_hunks(&[above, below], 2);
    assert_eq!(marks, vec![0, DELETED_ABOVE | DELETED_BELOW]);
    apply_staged_bits(&mut marks, &[above, below], &[true, false]);
    assert_eq!(marks, vec![0, DELETED_ABOVE | DELETED_BELOW | STAGED_DEL]);
    let mut plain = markers_from_hunks(&[below], 2);
    apply_staged_bits(&mut plain, &[below], &[true]);
    assert_eq!(plain, vec![0, DELETED_BELOW | STAGED_DEL]);
}

#[test]
fn a_line_can_carry_several_bits() {
    let hs = [
        Hunk { old_start: 0, old_len: 2, new_start: 0, new_len: 0 },
        Hunk { old_start: 2, old_len: 1, new_start: 0, new_len: 1 },
    ];
    assert_eq!(markers_from_hunks(&hs, 2), vec![DELETED_ABOVE | MODIFIED, 0]);
    assert_eq!(markers_from_hunks(&hs, 0), Vec::<u8>::new());
}

#[test]
fn markers_stop_at_the_last_line() {
    let h = Hunk { old_start: 0, old_len: 0, new_start: 1, new_len: 9 };
    assert_eq!(markers_from_hunks(&[h], 3), vec![0, ADDED, ADDED]);
}

#[test]
fn touching_ranges_overlap_or_abut() {
    assert!(ranges_touch((0, 2), (2, 5)));
    assert!(ranges_touch((3, 3), (3, 3)));
    assert!(ranges_touch((1, 9), (4, 5)));
    assert!(!ranges_touch((0, 2), (3, 5)));
    assert!(!ranges_touch((3, 5), (0, 2)));
}

#[test]
fn newlines_are_normalized() {
    assert_eq!(normalize_newlines("a\r\nb\rc\nd"), "a\nb\nc\nd");
    assert_eq!(normalize_newlines("\r\r\n\n\r"), "\n\n\n\n");
    assert_eq!(normalize_newlines(""), "");
    let once = normalize_newlines("x\r\r\ny");
    assert_eq!(normalize_newlines(&once), once);
}

#[test]
fn without_head_the_index_is_the_base() {
    let ds = display_hunks(None, Some("a\nb"), &[], "a\nB");
    assert_eq!(ds.len(), 1);
    assert!(!ds[0].staged);
    assert_eq!(ds[0].index_new, None);
    assert!(display_hunks(None, None, &[], "a").is_empty());
    assert_eq!(display_hunks(Some("a\nb"), None, &[], "a\nB").len(), 1);
}

#[test]
fn a_fully_staged_buffer_is_all_staged() {
    let head = "a\nb\nc\nd\ne\nf";
    let cur = "a\nB\nc\nX\nY\nd\nf";
    let hs = hunks(head, cur);
    assert!(hs.len() > 1);
    assert!(staged_flags(cur, &hs, cur, &hs).iter().all(|f| *f));
    assert!(!staged_flags(head, &hunks(head, head), cur, &hs).iter().any(|f| *f));
}

#[test]
fn display_is_sorted_by_buffer_line() {
    let head = "a\nb\nc\nd\ne\nf\ng";
    let index = "A\nb\nc\nd\ne\nf\nG";
    let cur = "a\nb\nc\nX\ne\nf\ng";
    let ds = display_hunks(Some(head), Some(index), &hunks(head, index), cur);
    let at: Vec<(usize, bool)> = ds.iter().map(|d| (d.hunk.new_start, d.staged)).collect();
    assert_eq!(at, vec![(0, true), (3, false), (6, true)]);
}

/// Rebuild the new lines from the old ones and the hunks, checking that the hunks are in
/// order and apart.
fn rebuild(base: &str, cur: &str) -> String {
    let old: Vec<&str> = base.split('\n').collect();
    let new: Vec<&str> = cur.split('\n').collect();
    let mut out: Vec<&str> = Vec::new();
    let mut at = 0;
    for h in hunks(base, cur) {
        assert!(h.old_len + h.new_len > 0);
        assert!(at <= h.old_start);
        out.extend(&old[at..h.old_start]);
        assert_eq!(out.len(), h.new_start);
        out.extend(&new[h.new_start..h.new_start + h.new_len]);
        at = h.old_start + h.old_len;
    }
    out.extend(&old[at..]);
    out.join("\n")
}

fn all_texts(lines: usize) -> Vec<String> {
    let mut all = Vec::new();
    for n in 1..=lines {
        for code in 0..3usize.pow(n as u32) {
            let mut c = code;
            let mut parts = Vec::new();
            for _ in 0..n {
                parts.push(["a", "b", ""][c % 3]);
                c /= 3;
            }
            all.push(parts.join("\n"));
        }
    }
    all
}

#[test]
fn small_diffs_are_edit_scripts() {
    let all = all_texts(5);
    for base in &all {
        for cur in &all {
            if base.is_empty() {
                assert!(hunks(base, cur).is_empty());
            } else {
                assert_eq!(&rebuild(base, cur), cur);
                assert_eq!(hunks(base, cur).is_empty(), base == cur);
            }
        }
    }
}

#[test]
fn large_diffs_are_edit_scripts() {
    let mut seed: u64 = 7;
    let mut next = |n: u64| {
        seed = seed.wrapping_mul(6364136223846793005).wrapping_add(1442695040888963407);
        (seed >> 33) % n
    };
    for round in 0..40 {
        let kinds = 2 + round % 7;
        let text = |n: u64, next: &mut dyn FnMut(u64) -> u64| {
            let lines: Vec<String> = (0..n).map(|_| format!("line {}", next(kinds))).collect();
            lines.join("\n")
        };
        let base = text(150, &mut next);
        let cur = text(120, &mut next);
        assert_eq!(rebuild(&base, &cur), cur);
        assert_eq!(stage_apply(&base, &cur, (0, usize::MAX)), Some(cur.clone()));
        assert_eq!(unstage_apply(&base, &cur, (0, usize::MAX)), Some(base.clone()));
        let hs = hunks(&base, &cur);
        let mid = hs[hs.len() / 2];
        let staged = stage_apply(&base, &cur, (mid.new_start, mid.new_start + mid.new_len)).unwrap();
        assert_eq!(stage_apply(&staged, &cur, (0, usize::MAX)).unwrap_or(staged), cur);
    }
}

#[test]
fn staging_all_then_unstaging_all_is_the_head() {
    let all = all_texts(4);
    for head in &all {
        for cur in &all {
            if head.is_empty() || head == cur {
                continue;
            }
            let staged = stage_apply(head, cur, (0, 100)).unwrap();
            assert_eq!(&staged, cur);
            assert_eq!(unstage_apply(head, &staged, (0, 100)).as_ref(), Some(head));
        }
    }
}

/// How many lines the changed blocks have, on both sides together.
fn changes(base: &str, cur: &str) -> usize {
    hunks(base, cur).iter().map(|h| h.old_len + h.new_len).sum()
}

#[test]
fn staging_moves_only_what_it_touches() {
    let all = all_texts(4);
    for index in &all {
        for cur in &all {
            for h in hunks(index, cur) {
                let range = (h.new_start, h.new_start + h.new_len);
                let staged = stage_apply(index, cur, range).unwrap();
                // What is staged and what is left are no more than the whole change.
                let touched: usize = hunks(index, cur)
                    .iter()
                    .filter(|g| ranges_touch((g.new_start, g.new_start + g.new_len), range))
                    .map(|g| g.old_len + g.new_len)
                    .sum();
                if !staged.is_empty() {
                    assert!(changes(index, &staged) <= touched);
                    assert!(changes(&staged, cur) <= changes(index, cur) - touched);
                }
                let range = (h.old_start, h.old_start + h.old_len);
                let unstaged = unstage_apply(index, cur, range).unwrap();
                let touched: usize = hunks(index, cur)
                    .iter()
                    .filter(|g| ranges_touch((g.old_start, g.old_start + g.old_len), range))
                    .map(|g| g.old_len + g.new_len)
                    .sum();
                assert!(changes(index, &unstaged) <= changes(index, cur) - touched);
            }
        }
    }
}

#[test]
fn staged_only_hunks_show_head_lines() {
    let all = all_texts(3);
    for head in &all {
        for index in &all {
            for cur in &all {
                if head.is_empty() {
                    continue;
                }
                let old: Vec<&str> = head.split('\n').collect();
                let new: Vec<&str> = cur.split('\n').collect();
                let ih = hunks(head, index);
                for d in display_hunks(Some(head.as_str()), Some(index.as_str()), &ih, cur) {
                    let h = d.hunk;
                    if d.index_new.is_some() {
                        assert!(d.staged);
                        assert_eq!(
                            &old[h.old_start..h.old_start + h.old_len],
                            &new[h.new_start..h.new_start + h.new_len]
                        );
                    }
                }
            }
        }
    }
}

#[test]
fn staging_outside_a_change_does_nothing() {
    assert_eq!(stage_apply("a\nb\nc\nd\ne", "a\nb\nc\nd\nE", (0, 1)), None);
    assert_eq!(unstage_apply("a\nb\nc\nd\ne", "a\nb\nc\nd\nE", (0, 1)), None);
    assert_eq!(stage_apply("", "a\nb", (0, 9)), None);
}

#[test]
fn given_hunks_are_staged_and_unstaged() {
    // a b c d against a X c: b became X and d went away, as two given blocks.
    let hs = [
        Hunk { old_start: 1, old_len: 1, new_start: 1, new_len: 1 },
        Hunk { old_start: 3, old_len: 1, new_start: 3, new_len: 0 },
    ];
    let (old, new) = ("a\nb\nc\nd", "a\nX\nc");
    assert_eq!(stage_hunks(&hs, old, new, (1, 2)).as_deref(), Some("a\nX\nc\nd"));
    assert_eq!(stage_hunks(&hs, old, new, (3, 3)).as_deref(), Some("a\nb\nc"));
    assert_eq!(stage_hunks(&hs, old, new, (0, 9)).as_deref(), Some(new));
    assert_eq!(stage_hunks(&hs, old, new, (0, 0)), None);
    assert_eq!(unstage_hunks(&hs, old, new, (1, 2)).as_deref(), Some("a\nb\nc"));
    assert_eq!(unstage_hunks(&hs, old, new, (3, 4)).as_deref(), Some("a\nX\nc\nd"));
    assert_eq!(unstage_hunks(&hs, old, new, (0, 9)).as_deref(), Some(old));
    assert_eq!(unstage_hunks(&hs, old, new, (9, 9)), None);
}

#[test]
fn given_hunks_are_displayed() {
    let cur = [Hunk { old_start: 2, old_len: 1, new_start: 2, new_len: 3 }];
    let index = [
        Hunk { old_start: 0, old_len: 1, new_start: 0, new_len: 2 },
        Hunk { old_start: 3, old_len: 1, new_start: 4, new_len: 1 },
        Hunk { old_start: 6, old_len: 2, new_start: 7, new_len: 0 },
    ];
    let ds = display_from_hunks(&cur, &[false], Some(&index));
    let got: Vec<(usize, usize, bool)> =
        ds.iter().map(|d| (d.hunk.new_start, d.hunk.new_len, d.staged)).collect();
    // The second index hunk abuts the buffer hunk and is not shown on its own.
    assert_eq!(got, vec![(0, 1, true), (2, 3, false), (8, 2, true)]);
    assert_eq!(ds[2].index_new, Some((7, 0)));
    assert_eq!(display_from_hunks(&cur, &[true], None).len(), 1);
}

#[test]
fn changed_blocks_come_from_operations() {
    let ops = [
        LineOp::Equal { old_index: 0, new_index: 0, len: 2 },
        LineOp::Insert { old_index: 2, new_index: 2, new_len: 1 },
        LineOp::Delete { old_index: 2, old_len: 4, new_index: 3 },
        LineOp::Replace { old_index: 6, old_len: 1, new_index: 3, new_len: 2 },
    ];
    assert_eq!(
        hunks_from_ops(&ops),
        vec![
            Hunk { old_start: 2, old_len: 0, new_start: 2, new_len: 1 },
            Hunk { old_start: 2, old_len: 4, new_start: 3, new_len: 0 },
            Hunk { old_start: 6, old_len: 1, new_start: 3, new_len: 2 },
        ]
    );
}

#[test]
fn unmarked_lines_are_base_lines() {
    let all = all_texts(4);
    for base in &all {
        if base.is_empty() {
            continue;
        }
        for cur in &all {
            let old: Vec<&str> = base.split('\n').collect();
            for (line, m) in cur.split('\n').zip(line_markers(base, cur)) {
                assert!(m & (ADDED | MODIFIED) != 0 || old.contains(&line));
            }
        }
    }
}
