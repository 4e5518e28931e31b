use wmp_modern::now_playing::{
    build_now_playing, filetime_to_unix_ms, get_now_playing, hresult_message, status_label,
    thumbnail_data_url, ticks_to_ms, MediaProperties, NowPlaying, NowPlayingCache, PlaybackStatus,
    PollOutcome, ThumbnailError, DEFAULT_PLAYBACK_RATE_BITS, FILETIME_TO_UNIX_TICKS,
};

fn sample() -> NowPlaying {
    NowPlaying {
        title: "Song".to_string(),
        artist: "Band".to_string(),
        album: "Record".to_string(),
        status: "playing".to_string(),
        position_ms: 1000,
        duration_ms: 200000,
        playback_rate_bits: 1.0f64.to_bits(),
        last_updated_unix_ms: 5,
        source_app: "Spotify.exe".to_string(),
        thumbnail: None,
    }
}

#[test]
fn status_words() {
    assert_eq!(status_label(Some(PlaybackStatus::Playing)), "playing");
    assert_eq!(status_label(Some(PlaybackStatus::Paused)), "paused");
    assert_eq!(status_label(Some(PlaybackStatus::Stopped)), "stopped");
    assert_eq!(status_label(Some(PlaybackStatus::Changing)), "changing");
    assert_eq!(status_label(Some(PlaybackStatus::Opened)), "opened");
    assert_eq!(status_label(Some(PlaybackStatus::Closed)), "closed");
    assert_eq!(status_label(None), "unknown");
}

#[test]
fn ticks_become_milliseconds_toward_zero() {
    assert_eq!(ticks_to_ms(1_234_567_890), 123_456);
    assert_eq!(ticks_to_ms(9_999), 0);
    assert_eq!(ticks_to_ms(-15_000), -1);
    assert_eq!(ticks_to_ms(0), 0);
}

#[test]
fn filetime_becomes_unix_milliseconds() {
    assert_eq!(filetime_to_unix_ms(FILETIME_TO_UNIX_TICKS), 0);
    assert_eq!(filetime_to_unix_ms(FILETIME_TO_UNIX_TICKS + 12_345_678), 1_234);
    assert_eq!(filetime_to_unix_ms(133_000_000_000_000_000), 1_655_526_400_000);
    assert_eq!(filetime_to_unix_ms(0), -11_644_473_600_000);
}

#[test]
fn missing_properties_take_defaults() {
    let np = build_now_playing(MediaProperties {
        title: None,
        artist: Some("Band".to_string()),
        album: None,
        status: None,
        playback_rate_bits: None,
        position_ticks: None,
        end_ticks: Some(1_800_000_000),
        last_updated_ticks: None,
        source_app: None,
        thumbnail: None,
    });
    assert_eq!(np.title, "");
    assert_eq!(np.artist, "Band");
    assert_eq!(np.status, "unknown");
    assert_eq!(np.position_ms, 0);
    assert_eq!(np.duration_ms, 180_000);
    assert_eq!(np.playback_rate_bits, DEFAULT_PLAYBACK_RATE_BITS);
    assert_eq!(f64::from_bits(np.playback_rate_bits), 1.0);
    assert_eq!(np.last_updated_unix_ms, -11_644_473_600_000);
    assert_eq!(np.source_app, "");
}

#[test]
fn present_properties_are_kept() {
    let np = build_now_playing(MediaProperties {
        title: Some("T".to_string()),
        artist: Some("A".to_string()),
        album: Some("L".to_string()),
        status: Some(PlaybackStatus::Paused),
        playback_rate_bits: Some(1.5f64.to_bits()),
        position_ticks: Some(25_000),
        end_ticks: Some(0),
        last_updated_ticks: Some(FILETIME_TO_UNIX_TICKS + 20_000),
        source_app: Some("Spotify.exe".to_string()),
        thumbnail: Some("data:image/png;base64,AQ==".to_string()),
    });
    assert_eq!(np.album, "L");
    assert_eq!(np.status, "paused");
    assert_eq!(f64::from_bits(np.playback_rate_bits), 1.5);
    assert_eq!(np.position_ms, 2);
    assert_eq!(np.last_updated_unix_ms, 2);
    assert_eq!(np.source_app, "Spotify.exe");
    assert_eq!(np.thumbnail.as_deref(), Some("data:image/png;base64,AQ=="));
}

#[test]
fn hresult_text_has_eight_hex_digits() {
    assert_eq!(hresult_message(-2147467259, "Unspecified error"), "HRESULT=0x80004005 Unspecified error");
    assert_eq!(hresult_message(5, "x"), "HRESULT=0x00000005 x");
    assert_eq!(hresult_message(-1, ""), "HRESULT=0xFFFFFFFF ");
    assert_eq!(hresult_message(0x0ABC_DEF0, "m"), format!("HRESULT=0x{:08X} {}", 0x0ABC_DEF0i32, "m"));
}

#[test]
fn cache_starts_with_not_started_error() {
    let c = NowPlayingCache::new();
    assert!(c.current.is_none());
    assert_eq!(c.error.as_deref(), Some("poller has not started yet"));
}

#[test]
fn fetched_poll_replaces_record_and_clears_error() {
    let mut c = NowPlayingCache::new();
    c.record_poll(PollOutcome::Fetched(Some(sample())));
    let s = get_now_playing(&c, 1_500);
    assert_eq!(s.current.as_ref().map(|n| n.title.clone()), Some("Song".to_string()));
    assert!(s.error.is_none());
    assert_eq!(s.poll_age_ms, 1_500);
}

#[test]
fn failed_poll_clears_record_and_sets_error() {
    let mut c = NowPlayingCache::new();
    c.record_poll(PollOutcome::Fetched(Some(sample())));
    c.record_poll(PollOutcome::Failed { code: -2147024891, message: "Access is denied.".to_string() });
    let s = get_now_playing(&c, 0);
    assert!(s.current.is_none());
    assert_eq!(s.error.as_deref(), Some("HRESULT=0x80070005 Access is denied."));
}

#[test]
fn empty_fetch_clears_record() {
    let mut c = NowPlayingCache::new();
    c.record_poll(PollOutcome::Fetched(Some(sample())));
    c.record_poll(PollOutcome::Fetched(None));
    let s = get_now_playing(&c, 7);
    assert!(s.current.is_none());
    assert!(s.error.is_none());
}

#[test]
fn poll_age_wraps_like_as_u64() {
    let c = NowPlayingCache::new();
    let s = get_now_playing(&c, (1u128 << 64) + 5);
    assert_eq!(s.poll_age_ms, 5);
}

#[test]
fn thumbnail_becomes_data_url() {
    assert_eq!(thumbnail_data_url("", b"Man").as_deref(), Ok("data:image/jpeg;base64,TWFu"));
    assert_eq!(thumbnail_data_url("image/png", &[1]).as_deref(), Ok("data:image/png;base64,AQ=="));
    assert_eq!(thumbnail_data_url("image/png", &[]), Err(ThumbnailError::Empty));
}

#[test]
fn thumbnail_base64_covers_padding_cases() {
    assert_eq!(thumbnail_data_url("image/jpeg", &[0xFF, 0xD8, 0xFF]).as_deref(), Ok("data:image/jpeg;base64,/9j/"));
    assert_eq!(thumbnail_data_url("x", &[0xFB, 0xEF]).as_deref(), Ok("data:x;base64,++8="));
    assert_eq!(thumbnail_data_url("x", b"hello world").as_deref(), Ok("data:x;base64,aGVsbG8gd29ybGQ="));
    assert_eq!(thumbnail_data_url("x", &[0, 0, 0, 0]).as_deref(), Ok("data:x;base64,AAAAAA=="));
}
