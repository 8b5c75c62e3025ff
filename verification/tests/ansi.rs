use jterm1::terminal::ansi::{
    ansi256_to_rgb, ansi_tag_name, ansi_text_runs, buffer_spans, char_offset_after_lines,
    count_lines, encode_sgr, tag_look, truncate_runs, Rgb, TagInk, UnderlineStyle,
};

fn palette() -> [Rgb; 16] {
    let mut p = [Rgb { r: 0, g: 0, b: 0 }; 16];
    p[1] = Rgb { r: 200, g: 1, b: 2 };
    p
}

fn text_of(runs: &[jterm1::terminal::ansi::AnsiTextRun]) -> String {
    runs.iter().map(|r| r.text.as_str()).collect()
}

#[test]
fn palette_cube_and_greys() {
    assert_eq!(ansi256_to_rgb(1, &palette()), (200, 1, 2));
    assert_eq!(ansi256_to_rgb(16, &palette()), (0, 0, 0));
    assert_eq!(ansi256_to_rgb(231, &palette()), (255, 255, 255));
    assert_eq!(ansi256_to_rgb(232, &palette()), (8, 8, 8));
    assert_eq!(ansi256_to_rgb(196, &palette()), (255, 0, 0));
}

#[test]
fn styles_are_read() {
    let runs = ansi_text_runs("\x1b[1;31mred\x1b[0m plain", &palette());
    assert_eq!(text_of(&runs), "red plain");
    assert!(runs[0].style.bold);
    assert_eq!(runs[0].style.foreground, Some(Rgb { r: 200, g: 1, b: 2 }));
    assert!(!runs[1].style.bold);
    assert_eq!(runs[1].style.foreground, None);
    let runs = ansi_text_runs("\x1b[4:3;38;2;1;2;3mx", &palette());
    assert_eq!(runs[0].style.underline_style, UnderlineStyle::Curly);
    assert_eq!(runs[0].style.foreground, Some(Rgb { r: 1, g: 2, b: 3 }));
}

#[test]
fn encoded_styles_read_back() {
    let source = "\x1b[1;3;4:2;7;9;53;38;2;9;8;7;48;5;196mx";
    let runs = ansi_text_runs(source, &palette());
    let code = encode_sgr(&runs[0].style);
    let again = ansi_text_runs(&format!("{code}x"), &palette());
    assert!(again[0].style.same(&runs[0].style));
    assert_eq!(again[0].text, "x");
}

#[test]
fn redrawn_lines_collapse() {
    assert_eq!(text_of(&ansi_text_runs("10%\r50%\r100%", &palette())), "100%");
    assert_eq!(text_of(&ansi_text_runs("a\r\nb", &palette())), "a\nb");
}

#[test]
fn links_are_kept() {
    let runs = ansi_text_runs("\x1b]8;;http://x\x07link\x1b]8;;\x07 end", &palette());
    assert_eq!(text_of(&runs), "link end");
    assert_eq!(runs[0].style.hyperlink.as_deref(), Some("http://x"));
    assert_eq!(runs[1].style.hyperlink, None);
}

#[test]
fn runs_are_cut_and_counted() {
    let runs = ansi_text_runs("ab\n\x1b[1mcd\nef", &palette());
    assert_eq!(count_lines(&runs), 2);
    assert_eq!(char_offset_after_lines(&runs, 2), 6);
    assert_eq!(char_offset_after_lines(&runs, 1), 3);
    assert_eq!(char_offset_after_lines(&runs, 0), 0);
    assert_eq!(char_offset_after_lines(&runs, 9), 8);
    assert_eq!(text_of(&truncate_runs(&runs, 4)), "ab\nc");
    assert_eq!(
        buffer_spans(10, &runs),
        vec![(10, 12), (12, 13), (13, 15), (15, 16), (16, 18)]
    );
}

#[test]
fn tags_have_names_and_looks() {
    let runs = ansi_text_runs("a\x1b[1;2;31mb", &palette());
    assert_eq!(ansi_tag_name(&runs[0].style), None);
    let name = ansi_tag_name(&runs[1].style).unwrap();
    assert!(!name.is_empty());
    let look = tag_look(&runs[1].style);
    assert!(look.bold);
    assert_eq!(look.ink, Some(TagInk::Dim(Rgb { r: 200, g: 1, b: 2 })));
}
