use wmp_modern::audio::{collect_sessions, display_name, is_system_process, AudioSession, SessionRecord};

fn rec(pid: u32, exe: Option<&str>, is_active: bool) -> SessionRecord {
    SessionRecord { pid, exe: exe.map(|s| s.to_string()), is_active }
}

fn summary(v: &[AudioSession]) -> Vec<(u32, String, String, bool)> {
    v.iter().map(|s| (s.pid, s.exe.clone(), s.display.clone(), s.is_active)).collect()
}

#[test]
fn system_process_ignores_ascii_case() {
    assert!(is_system_process("explorer.exe"));
    assert!(is_system_process("EXPLORER.EXE"));
    assert!(is_system_process("runtimebroker.exe"));
    assert!(is_system_process("wmp-modern.exe"));
    assert!(is_system_process("SMSS.exe"));
}

#[test]
fn ordinary_apps_are_not_system_processes() {
    assert!(!is_system_process("Spotify.exe"));
    assert!(!is_system_process("explorer"));
    assert!(!is_system_process("explorer.exe "));
    assert!(!is_system_process(""));
    assert!(!is_system_process("chrome.exe"));
}

#[test]
fn display_name_drops_exe_extension() {
    assert_eq!(display_name("Spotify.exe"), "Spotify");
    assert_eq!(display_name("APP.EXE"), "APP");
    assert_eq!(display_name("app.Exe"), "app.Exe");
    assert_eq!(display_name("noext"), "noext");
    assert_eq!(display_name(".exe"), "");
    assert_eq!(display_name("a.exe.exe"), "a.exe");
}

#[test]
fn filtered_records_are_dropped() {
    let records = vec![
        rec(0, Some("Spotify.exe"), true),
        rec(10, None, true),
        rec(11, Some("svchost.exe"), true),
        rec(12, Some("Discord.exe"), false),
    ];
    let out = collect_sessions(&records);
    assert_eq!(summary(&out), vec![(12, "Discord.exe".to_string(), "Discord".to_string(), false)]);
}

#[test]
fn duplicate_pids_merge_to_most_active() {
    let records = vec![
        rec(7, Some("chrome.exe"), false),
        rec(7, Some("chrome.exe"), true),
        rec(7, Some("chrome.exe"), false),
        rec(8, Some("vlc.exe"), false),
        rec(8, Some("other.exe"), false),
    ];
    let out = collect_sessions(&records);
    assert_eq!(
        summary(&out),
        vec![
            (7, "chrome.exe".to_string(), "chrome".to_string(), true),
            (8, "vlc.exe".to_string(), "vlc".to_string(), false),
        ]
    );
}

#[test]
fn active_sessions_first_then_case_insensitive_names() {
    let records = vec![
        rec(1, Some("chrome.exe"), false),
        rec(2, Some("Brave.exe"), false),
        rec(3, Some("zoom.exe"), true),
        rec(4, Some("Audacity.EXE"), true),
        rec(5, Some("apple.exe"), false),
    ];
    let out = collect_sessions(&records);
    let pids: Vec<u32> = out.iter().map(|s| s.pid).collect();
    assert_eq!(pids, vec![4, 3, 5, 2, 1]);
    assert_eq!(out[0].display, "Audacity");
}

#[test]
fn no_records_give_no_sessions() {
    assert!(collect_sessions(&Vec::new()).is_empty());
}

fn session(pid: u32, display: &str, is_active: bool) -> AudioSession {
    AudioSession { pid, exe: format!("{display}.exe"), display: display.to_string(), is_active }
}

#[test]
fn order_by_given_keys_is_active_first_then_key_then_stable() {
    let m = vec![
        session(1, "b", false),
        session(2, "a", false),
        session(3, "z", true),
        session(4, "b2", false),
        session(5, "y", true),
    ];
    let keys: Vec<Vec<char>> = vec![
        "b".chars().collect(),
        "a".chars().collect(),
        "z".chars().collect(),
        "b".chars().collect(),
        "y".chars().collect(),
    ];
    assert_eq!(wmp_modern::audio::sort_order_by_keys(&m, &keys), vec![4, 2, 1, 0, 3]);
}

#[test]
fn sessions_with_equal_lowercase_names_keep_first_appearance_order() {
    let records = vec![rec(9, Some("VLC.exe"), false), rec(3, Some("vlc.exe"), false)];
    let out = collect_sessions(&records);
    let pids: Vec<u32> = out.iter().map(|s| s.pid).collect();
    assert_eq!(pids, vec![9, 3]);
}
