use jterm1::terminal::kitty_graphics::{
    decode_base64, parse_keys, png_outcome, rgba_pixels, Assembler, Outcome, PngOutcome,
};

#[test]
fn base64_round_trip() {
    let cases: &[(&[u8], &[u8])] = &[
        (b"", b""),
        (b"f", b"Zg=="),
        (b"fo", b"Zm8="),
        (b"foo", b"Zm9v"),
        (b"foob", b"Zm9vYg=="),
        (b"hello world", b"aGVsbG8gd29ybGQ="),
    ];
    for (plain, encoded) in cases {
        let got = decode_base64(encoded).expect("valid base64");
        assert_eq!(&got, plain);
    }
}

#[test]
fn base64_rejects_garbage() {
    assert!(decode_base64(b"!!!!").is_none());
}

#[test]
fn base64_rejects_wrong_padding() {
    assert!(decode_base64(b"Zg=").is_none());
    assert!(decode_base64(b"Zm8==").is_none());
    assert!(decode_base64(b"Zm9v=").is_none());
    assert!(decode_base64(b"Z===").is_none());
    assert!(decode_base64(b"Z=g=").is_none());
    // Padding may be left out.
    assert_eq!(decode_base64(b"Zg"), Some(b"f".to_vec()));
    assert_eq!(decode_base64(b"Zm8"), Some(b"fo".to_vec()));
}

#[test]
fn key_parser_handles_whitespace_and_empty() {
    let m = parse_keys(b"a=T,f=100,i=42,m=1");
    assert_eq!(m.get("a"), Some("T"));
    assert_eq!(m.get("f"), Some("100"));
    assert_eq!(m.get("i"), Some("42"));
    assert_eq!(m.get("m"), Some("1"));
    assert_eq!(m.get("q"), None);
}

#[test]
fn rejects_non_g_payload() {
    let mut a = Assembler::new();
    assert!(matches!(a.feed(b""), Outcome::Invalid));
    assert!(matches!(a.feed(b"X"), Outcome::Invalid));
}

#[test]
fn unsupported_action_is_skipped() {
    let mut a = Assembler::new();
    assert!(matches!(a.feed(b"Ga=q,i=1;Zm9v"), Outcome::Skipped));
    assert!(matches!(a.feed(b"Ga=d,i=1;"), Outcome::Skipped));
}

#[test]
fn file_transport_is_skipped() {
    let mut a = Assembler::new();
    assert!(matches!(a.feed(b"Ga=T,t=f;L3RtcC9hLnBuZw=="), Outcome::Skipped));
}

#[test]
fn chunked_assembly_accumulates_then_decodes_rgb_pixel() {
    let mut a = Assembler::new();
    // 1×1 red pixel as raw RGB (f=24): bytes 0xFF 0x00 0x00 -> "/wAA"
    // Split across two chunks via m=1 / m=0.
    let first = a.feed(b"Ga=T,f=24,s=1,v=1,i=7,m=1;/w");
    assert!(matches!(first, Outcome::Pending));
    let second = a.feed(b"Ga=T,i=7,m=0;AA");
    match second {
        Outcome::Complete { .. } => {}
        _ => panic!("expected complete texture"),
    }
    // Assembler state cleared after completion.
    assert!(a.in_flight.is_empty());
    assert!(a.anon.is_none());
}

#[test]
fn pixels_come_out_with_alpha() {
    let mut a = Assembler::new();
    match a.feed(b"Ga=T,f=24,s=1,v=1;/wAA") {
        Outcome::Complete { width, height, rgba } => {
            assert_eq!((width, height), (1, 1));
            assert_eq!(rgba, vec![255, 0, 0, 255]);
        }
        other => panic!("unexpected: {other:?}"),
    }
    assert_eq!(rgba_pixels(1, 1, &[1, 2, 3, 4], true), Some(vec![1, 2, 3, 4]));
    assert_eq!(rgba_pixels(2, 1, &[1, 2, 3], false), None);
}

#[test]
fn png_data_is_handed_on() {
    let mut a = Assembler::new();
    match a.feed(b"Ga=T,f=100;Zm9v") {
        Outcome::Png { data, display } => {
            assert_eq!(data, b"foo");
            assert!(display);
        }
        other => panic!("unexpected: {other:?}"),
    }
}

#[test]
fn transmission_without_display() {
    let mut a = Assembler::new();
    assert!(matches!(a.feed(b"Ga=t,f=24,s=1,v=1;/wAA"), Outcome::CompleteTransmitOnly));
}

#[test]
fn uploads_do_not_interfere() {
    let mut a = Assembler::new();
    assert!(matches!(a.feed(b"Ga=T,f=24,s=1,v=1,i=1,m=1;/w"), Outcome::Pending));
    assert!(matches!(a.feed(b"Ga=T,f=24,s=1,v=1,i=2,m=1;AA"), Outcome::Pending));
    match a.feed(b"Gi=1,m=0;AA") {
        Outcome::Complete { rgba, .. } => assert_eq!(rgba, vec![255, 0, 0, 255]),
        other => panic!("unexpected: {other:?}"),
    }
    assert_eq!(a.in_flight.len(), 1);
    a.reset();
    assert!(a.in_flight.is_empty());
}

#[test]
fn decoded_pngs_are_shown_on_request() {
    assert!(matches!(png_outcome(true, false), PngOutcome::Invalid));
}
