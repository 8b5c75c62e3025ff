use jterm1::terminal::alt::{is_pager_chrome_line, normalize_pager_snapshot, pick_frame};

#[test]
fn filters_less_status_lines() {
    let snapshot = normalize_pager_snapshot("\ncommit a\nAuthor: me\n:\n");
    assert_eq!(snapshot, "commit a\nAuthor: me");
}

#[test]
fn drops_mid_render_skipping_frames() {
    // `less` paints `...skipping...` on the next status line while it is
    // still emitting the new page; a snapshot taken at that instant is
    // partial and would otherwise pollute the recorded block.
    let snapshot =
        normalize_pager_snapshot("commit a\nAuthor: me\n:...skipping...\ncommit b\n");
    assert_eq!(snapshot, "");
}

#[test]
fn chrome_lines_are_told_apart() {
    assert!(is_pager_chrome_line(":"));
    assert!(is_pager_chrome_line("(END)"));
    assert!(!is_pager_chrome_line("commit a"));
}

#[test]
fn the_fuller_frame_is_picked() {
    let picked = pick_frame("one\ntwo".to_string(), String::new());
    assert_eq!(picked, "one\ntwo");
}

#[test]
fn normalized_frames_stay() {
    let frames = [
        "\n  a  \r\n:\n\n b\t\n(END)\n\n",
        "x\n...skipping...\n",
        " \n\n",
        "one\n\n\ntwo",
    ];
    for frame in frames {
        let r = normalize_pager_snapshot(frame);
        assert_eq!(normalize_pager_snapshot(&r), r);
    }
    assert_eq!(normalize_pager_snapshot(frames[0]), "  a\n\n b");
}
