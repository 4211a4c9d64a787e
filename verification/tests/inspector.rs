use dwm_monitor::inspector::is_target_name;

#[test]
fn exact_name_matches() {
    assert!(is_target_name(b"dwm.exe"));
}

#[test]
fn case_is_ignored() {
    assert!(is_target_name(b"DWM.EXE"));
    assert!(is_target_name(b"Dwm.Exe"));
}

#[test]
fn trailing_nul_padding_is_ignored() {
    assert!(is_target_name(b"dwm.exe\0\0\0"));
    assert!(is_target_name(b"DWM.exe\0"));
}

#[test]
fn other_names_do_not_match() {
    assert!(!is_target_name(b"explorer.exe"));
    assert!(!is_target_name(b"dwm.exe2"));
    assert!(!is_target_name(b"dwm.ex"));
    assert!(!is_target_name(b"adwm.exe"));
    assert!(!is_target_name(b""));
    assert!(!is_target_name(b"\0\0"));
    // a NUL inside the name is not padding
    assert!(!is_target_name(b"dwm.exe\0x"));
}
