use terminal_sprite_pet::terminal::{
    clear_frame, clear_sixel_area, contains_any, detect_protocol, kitty_delete, kitty_file,
    kitty_chunks, kitty_inline, parse_u64, render_frame, resolve_protocol, version_at_least, wrap_tmux,
    DetectError, ImageProtocol, ProtocolSelection, TerminalEnv,
};

fn env() -> TerminalEnv {
    TerminalEnv {
        tmux: false,
        tmux_pane: false,
        zellij: false,
        zellij_session_name: false,
        zellij_version: false,
        kitty_window_id: false,
        wezterm_executable: false,
        wezterm_version: false,
        wt_session: false,
        term_program: String::new(),
        term: String::new(),
        term_program_version: None,
    }
}

#[test]
fn matches_terminal_names_ignoring_case() {
    assert!(contains_any("XTerm-KITTY", &["kitty"]));
    assert!(contains_any("foot-extra", &["kitty", "foot"]));
    assert!(!contains_any("alacritty", &["kitty", "ghostty"]));
    assert!(contains_any("anything", &[""]));
    assert!(!contains_any("anything", &[]));
}

#[test]
fn parses_numbers_as_rust_does() {
    assert_eq!(parse_u64(b"42"), Some(42));
    assert_eq!(parse_u64(b"+7"), Some(7));
    assert_eq!(parse_u64(b"+"), None);
    assert_eq!(parse_u64(b""), None);
    assert_eq!(parse_u64(b"-1"), None);
    assert_eq!(parse_u64(b"18446744073709551615"), Some(u64::MAX));
    assert_eq!(parse_u64(b"18446744073709551616"), None);
    assert_eq!(parse_u64(b"1a"), None);
}

#[test]
fn compares_versions() {
    let min = (3, 6, 0);
    assert!(version_at_least(Some("3.6"), min));
    assert!(version_at_least(Some("3.6.0"), min));
    assert!(version_at_least(Some("4"), min));
    assert!(version_at_least(Some("+3.7"), min));
    assert!(version_at_least(Some("3.6.beta"), min));
    assert!(!version_at_least(Some("3.5.20"), min));
    assert!(!version_at_least(Some("3"), min));
    assert!(!version_at_least(Some("3.x"), min));
    assert!(!version_at_least(Some("3.6.0.1"), min));
    assert!(!version_at_least(Some(""), min));
    assert!(!version_at_least(None, min));
}

#[test]
fn detects_protocols() {
    let mut e = env();
    assert_eq!(detect_protocol(&e), Err(DetectError::NoProtocol));
    e.wt_session = true;
    assert_eq!(detect_protocol(&e), Ok(ImageProtocol::Sixel));
    e.term = "xterm-ghostty".to_string();
    assert_eq!(detect_protocol(&e), Ok(ImageProtocol::Kitty));
    e.term_program = "iTerm.app".to_string();
    assert_eq!(detect_protocol(&e), Err(DetectError::ITermTooOld));
    e.term_program_version = Some("3.6.1".to_string());
    assert_eq!(detect_protocol(&e), Ok(ImageProtocol::KittyFile));
    e.wezterm_version = true;
    assert_eq!(detect_protocol(&e), Ok(ImageProtocol::Kitty));
    e.zellij_session_name = true;
    assert_eq!(detect_protocol(&e), Err(DetectError::InZellij));
    e.tmux_pane = true;
    assert_eq!(detect_protocol(&e), Err(DetectError::InTmux));
    assert_eq!(resolve_protocol(ProtocolSelection::Sixel, &e), Ok(ImageProtocol::Sixel));
    assert_eq!(resolve_protocol(ProtocolSelection::Kitty, &e), Ok(ImageProtocol::Kitty));
    assert_eq!(resolve_protocol(ProtocolSelection::Auto, &e), Err(DetectError::InTmux));
    let mut f = env();
    f.term = "foot".to_string();
    assert_eq!(resolve_protocol(ProtocolSelection::Auto, &f), Ok(ImageProtocol::Sixel));
}

#[test]
fn wraps_commands_for_tmux() {
    assert_eq!(wrap_tmux(b"\x1bX\x1b", false), b"\x1bX\x1b".to_vec());
    assert_eq!(wrap_tmux(b"\x1bX\x1b", true), b"\x1bPtmux;\x1b\x1bX\x1b\x1b\x1b\\".to_vec());
}

#[test]
fn deletes_the_pet_image() {
    assert_eq!(kitty_delete(false), b"\x1b_Ga=d,d=I,i=49374,q=2;\x1b\\".to_vec());
    assert_eq!(
        kitty_delete(true),
        b"\x1bPtmux;\x1b\x1b_Ga=d,d=I,i=49374,q=2;\x1b\x1b\\\x1b\\".to_vec()
    );
}

#[test]
fn sends_png_inline_in_chunks() {
    assert_eq!(
        kitty_inline(&[1, 2, 3], 10, 5, false),
        b"\x1b_Ga=T,t=d,f=100,c=10,r=5,q=2,i=49374,m=0;AQID\x1b\\".to_vec()
    );
    let exact = kitty_inline(&vec![0u8; 3072], 1, 1, false);
    assert_eq!(exact.len(), b"\x1b_Ga=T,t=d,f=100,c=1,r=1,q=2,i=49374,m=0;".len() + 4096 + 2);
    let split = kitty_inline(&vec![0u8; 3073], 1, 1, false);
    let head = b"\x1b_Ga=T,t=d,f=100,c=1,r=1,q=2,i=49374,m=1;";
    assert_eq!(&split[..head.len()], head);
    let tail = b"\x1b_Gm=0;AA==\x1b\\";
    assert_eq!(&split[split.len() - tail.len()..], tail);
    assert_eq!(split.len(), head.len() + 4096 + 2 + tail.len());
}

#[test]
fn sends_png_files_by_path() {
    assert_eq!(
        kitty_file(b"/tmp/a.png", 3, 2, false),
        b"\x1b_Ga=T,t=f,f=100,c=3,r=2,q=2,i=49374;L3RtcC9hLnBuZw==\x1b\\".to_vec()
    );
}

#[test]
fn clears_sixel_lines() {
    assert_eq!(clear_sixel_area(0), Vec::<u8>::new());
    assert_eq!(clear_sixel_area(1), b"\x1b[2K".to_vec());
    assert_eq!(clear_sixel_area(2), b"\x1b[2K\x1b[1B\r\x1b[2K".to_vec());
}

#[test]
fn draws_and_clears_frames() {
    assert_eq!(
        render_frame(ImageProtocol::Sixel, b"SIX", 4, 1, false),
        b"\x1b7\x1b[2K\x1b8\x1b7SIX\x1b8".to_vec()
    );
    assert_eq!(
        render_frame(ImageProtocol::Kitty, &[1, 2, 3], 10, 5, false),
        b"\x1b7\x1b_Ga=d,d=I,i=49374,q=2;\x1b\\\x1b_Ga=T,t=d,f=100,c=10,r=5,q=2,i=49374,m=0;AQID\x1b\\\x1b8".to_vec()
    );
    assert_eq!(
        render_frame(ImageProtocol::KittyFile, b"/tmp/a.png", 3, 2, false),
        b"\x1b7\x1b_Ga=d,d=I,i=49374,q=2;\x1b\\\x1b_Ga=T,t=f,f=100,c=3,r=2,q=2,i=49374;L3RtcC9hLnBuZw==\x1b\\\x1b8".to_vec()
    );
    assert_eq!(clear_frame(ImageProtocol::Sixel, 2, false), b"\x1b7\x1b[2K\x1b[1B\r\x1b[2K\x1b8".to_vec());
    assert_eq!(clear_frame(ImageProtocol::KittyFile, 2, false), b"\x1b7\x1b_Ga=d,d=I,i=49374,q=2;\x1b\\\x1b8".to_vec());
}

#[test]
fn splits_a_payload_into_chunks() {
    assert!(kitty_chunks(b"", 1, 1).is_empty());
    let payload = vec![b'A'; 4097];
    let commands = kitty_chunks(&payload, 2, 3);
    let mut expected = b"\x1b_Ga=T,t=d,f=100,c=2,r=3,q=2,i=49374,m=1;".to_vec();
    expected.extend(vec![b'A'; 4096]);
    expected.extend(b"\x1b\\\x1b_Gm=0;A\x1b\\");
    assert_eq!(commands, expected);
}
