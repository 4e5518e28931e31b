use wmp_modern::smtc::{normalize_aumid, normalize_exe, pick_session, set_smtc_target_exe, target_exe, TargetExe};
use wmp_modern::text::{string_from_chars, trim};

#[test]
fn aumid_of_desktop_app_normalizes_to_base_name() {
    assert_eq!(normalize_aumid("Spotify.exe"), "spotify");
}

#[test]
fn aumid_of_packaged_app_keeps_part_before_bang() {
    assert_eq!(normalize_aumid("Microsoft.Edge_8wekyb3d8bbwe!App"), "microsoft.edge_8wekyb3d8bbwe");
    assert_eq!(normalize_aumid("!App"), "");
    assert_eq!(normalize_aumid("A!B!C"), "a");
    assert_eq!(normalize_aumid("CHROME.EXE"), "chrome");
}

#[test]
fn chosen_exe_is_trimmed_lowered_and_stripped() {
    assert_eq!(normalize_exe("  Spotify.EXE \t"), "spotify");
    assert_eq!(normalize_exe("firefox"), "firefox");
    assert_eq!(normalize_exe("\u{3000}VLC.exe\u{a0}"), "vlc");
    assert_eq!(normalize_exe(".exe"), "");
}

#[test]
fn trim_uses_unicode_white_space() {
    assert_eq!(trim(" \u{2003}a b\n"), "a b");
    assert_eq!(trim("   "), "");
    assert_eq!(trim("x"), "x");
    assert_eq!(trim(" a"), "a");
    assert_eq!(trim("\u{85}\u{1680}b\u{202f}\u{205f}"), "b");
    assert_eq!(trim("\u{200b}c"), "\u{200b}c");
}

#[test]
fn white_space_matches_std() {
    for c in (0u32..0x3100).filter_map(char::from_u32) {
        assert_eq!(wmp_modern::text::is_whitespace(c), c.is_whitespace(), "{:?}", c);
    }
}

#[test]
fn aumid_suffix_after_bang_is_ignored() {
    assert_eq!(normalize_aumid("Spotify.exe!Anything!else"), normalize_aumid("Spotify.exe"));
}

#[test]
fn chars_become_a_string() {
    assert_eq!(string_from_chars(&['h', 'é', '!']), "hé!");
    assert_eq!(string_from_chars(&[]), "");
}

#[test]
fn target_starts_unset_and_reads_back_normalized() {
    let mut t = TargetExe::new();
    assert_eq!(target_exe(&t), None);
    set_smtc_target_exe(&mut t, Some(" Spotify.exe".to_string()));
    assert_eq!(target_exe(&t), Some("spotify".to_string()));
    set_smtc_target_exe(&mut t, None);
    assert_eq!(target_exe(&t), None);
}

#[test]
fn pick_session_finds_first_matching_session() {
    let mut t = TargetExe::new();
    set_smtc_target_exe(&mut t, Some("Spotify.exe".to_string()));
    let aumids = vec![
        Some("Microsoft.Edge_8wekyb3d8bbwe!App".to_string()),
        None,
        Some("SPOTIFY.EXE".to_string()),
        Some("Spotify.exe".to_string()),
    ];
    assert_eq!(pick_session(&t, &aumids), Some(2));
}

#[test]
fn pick_session_falls_back_when_nothing_matches() {
    let mut t = TargetExe::new();
    set_smtc_target_exe(&mut t, Some("foobar2000.exe".to_string()));
    let aumids = vec![Some("Spotify.exe".to_string()), None];
    assert_eq!(pick_session(&t, &aumids), None);
}

#[test]
fn pick_session_follows_current_without_target() {
    let t = TargetExe::new();
    let aumids = vec![Some("Spotify.exe".to_string())];
    assert_eq!(pick_session(&t, &aumids), None);
}

#[test]
fn exe_picked_from_session_list_selects_its_session() {
    let mut t = TargetExe::new();
    set_smtc_target_exe(&mut t, Some("Chrome.exe".to_string()));
    let aumids = vec![Some("Spotify.exe".to_string()), Some("Chrome.exe".to_string())];
    assert_eq!(pick_session(&t, &aumids), Some(1));
}

#[test]
fn target_copy_reads_the_same() {
    let mut t = TargetExe::new();
    set_smtc_target_exe(&mut t, Some("Discord.exe".to_string()));
    assert_eq!(target_exe(&t.copy()), Some("discord".to_string()));
}
