//! The "now playing" record built from a media session's properties, the poller's
//! cache of it, and the snapshot that the user interface reads.

use vstd::prelude::*;
use crate::text::push_char;
use base64::Engine;

verus! {

/// Ticks (100 ns) from 1601-01-01, the FILETIME epoch, to 1970-01-01, the Unix epoch.
pub const FILETIME_TO_UNIX_TICKS: i64 = 116_444_736_000_000_000;

/// Ticks (100 ns) in one millisecond.
pub const TICKS_PER_MS: i64 = 10_000;

/// The IEEE 754 bits of a playback rate of 1.0, assumed when a session reports none.
pub const DEFAULT_PLAYBACK_RATE_BITS: u64 = 0x3FF0_0000_0000_0000;

/// The playback state that a media session reports.
#[derive(PartialEq, Eq, Structural, Clone, Copy, Debug)]
pub enum PlaybackStatus {
    Closed,
    Opened,
    Changing,
    Stopped,
    Playing,
    Paused,
}

/// What is playing in the followed media session.
pub struct NowPlaying {
    pub title: String,
    pub artist: String,
    pub album: String,
    /// "playing", "paused", "stopped", "changing", "opened", "closed" or "unknown".
    pub status: String,
    pub position_ms: i64,
    pub duration_ms: i64,
    /// The IEEE 754 bits of the playback rate.
    pub playback_rate_bits: u64,
    /// When the timeline was last updated, in milliseconds since the Unix epoch.
    pub last_updated_unix_ms: i64,
    /// The application user model id of the session's owner.
    pub source_app: String,
    /// The cover art as a data URL.
    pub thumbnail: Option<String>,
}

/// The properties read from a media session; `None` where a read failed.
pub struct MediaProperties {
    pub title: Option<String>,
    pub artist: Option<String>,
    pub album: Option<String>,
    /// `None` also when the status is none of the known ones.
    pub status: Option<PlaybackStatus>,
    /// The IEEE 754 bits of the playback rate.
    pub playback_rate_bits: Option<u64>,
    /// Timeline position, in ticks.
    pub position_ticks: Option<i64>,
    /// Timeline end, in ticks.
    pub end_ticks: Option<i64>,
    /// Time of the last timeline update, in ticks since the FILETIME epoch.
    pub last_updated_ticks: Option<i64>,
    pub source_app: Option<String>,
    /// The cover art as a data URL, `None` when there is none or it could not be read.
    pub thumbnail: Option<String>,
}

/// The characters of an optional text, empty when it is absent.
pub open spec fn text_or_empty(s: Option<String>) -> Seq<char> {
    match s {
        Some(t) => t@,
        None => Seq::empty(),
    }
}

/// The value of an optional number, `default` when it is absent.
pub open spec fn int_or(v: Option<i64>, default: int) -> int {
    match v {
        Some(x) => x as int,
        None => default,
    }
}

/// The word that stands for a playback status.
pub open spec fn status_label_spec(s: Option<PlaybackStatus>) -> Seq<char> {
    match s {
        Some(PlaybackStatus::Playing) => "playing"@,
        Some(PlaybackStatus::Paused) => "paused"@,
        Some(PlaybackStatus::Stopped) => "stopped"@,
        Some(PlaybackStatus::Changing) => "changing"@,
        Some(PlaybackStatus::Opened) => "opened"@,
        Some(PlaybackStatus::Closed) => "closed"@,
        None => "unknown"@,
    }
}

/// Integer division rounding toward zero, as Rust's `/` on integers does.
pub open spec fn div_toward_zero(x: int, d: int) -> int {
    if x >= 0 {
        x / d
    } else {
        -((-x) / d)
    }
}

/// Ticks converted to whole milliseconds, rounded toward zero.
pub open spec fn ticks_to_ms_spec(ticks: int) -> int {
    div_toward_zero(ticks, TICKS_PER_MS as int)
}

/// A FILETIME in ticks converted to milliseconds since the Unix epoch, rounded toward zero.
pub open spec fn filetime_to_unix_ms_spec(ticks: int) -> int {
    div_toward_zero(ticks - FILETIME_TO_UNIX_TICKS, TICKS_PER_MS as int)
}

/// A FILETIME converts without leaving the range of `i64`.
pub open spec fn filetime_in_range(ticks: int) -> bool {
    ticks - FILETIME_TO_UNIX_TICKS >= i64::MIN
}

/// Rounding toward zero: the quotient times `d` lies on the zero side of `x`, less
/// than one `d` away.
pub proof fn lemma_div_toward_zero(x: int, d: int)
    requires
        d > 0,
    ensures
        x >= 0 ==> d * div_toward_zero(x, d) <= x < d * div_toward_zero(x, d) + d,
        x < 0 ==> d * div_toward_zero(x, d) - d < x <= d * div_toward_zero(x, d),
        x >= 0 ==> div_toward_zero(x, d) >= 0,
        x < 0 ==> div_toward_zero(x, d) <= 0,
{
    if x >= 0 {
        assert(d * (x / d) <= x < d * (x / d) + d && x / d >= 0) by (nonlinear_arith)
            requires
                d > 0,
                x >= 0,
        ;
    } else {
        let y = -x;
        assert(d * (y / d) <= y < d * (y / d) + d && y / d >= 0) by (nonlinear_arith)
            requires
                d > 0,
                y > 0,
        ;
        assert(d * (-(y / d)) == -(d * (y / d))) by (nonlinear_arith);
    }
}

/// Ticks become whole milliseconds of 10,000 ticks each, rounded toward zero, over the
/// whole range of `i64`.
pub proof fn lemma_ticks_to_ms(t: i64)
    ensures
        t >= 0 ==> 10_000 * ticks_to_ms_spec(t as int) <= t < 10_000 * ticks_to_ms_spec(t as int)
            + 10_000,
        t < 0 ==> 10_000 * ticks_to_ms_spec(t as int) - 10_000 < t <= 10_000 * ticks_to_ms_spec(
            t as int,
        ),
{
    lemma_div_toward_zero(t as int, 10_000);
}

/// A FILETIME becomes milliseconds since 1970-01-01: the ticks after the Unix epoch,
/// in whole milliseconds rounded toward zero.
pub proof fn lemma_filetime_to_unix_ms(t: i64)
    ensures
        t >= FILETIME_TO_UNIX_TICKS ==> 10_000 * filetime_to_unix_ms_spec(t as int) <= t
            - 116_444_736_000_000_000 < 10_000 * filetime_to_unix_ms_spec(t as int) + 10_000,
        t < FILETIME_TO_UNIX_TICKS ==> 10_000 * filetime_to_unix_ms_spec(t as int) - 10_000 < t
            - 116_444_736_000_000_000 <= 10_000 * filetime_to_unix_ms_spec(t as int),
{
    lemma_div_toward_zero(t - 116_444_736_000_000_000, 10_000);
}

/// A present text is kept as it is; an absent one is empty.
pub proof fn lemma_text_or_empty(s: Option<String>)
    ensures
        s matches Some(t) ==> text_or_empty(s) == t@,
        s is None ==> text_or_empty(s).len() == 0,
{
}

/// A present number is itself; an absent one is the default.
pub proof fn lemma_int_or(v: Option<i64>, default: int)
    ensures
        v matches Some(x) ==> int_or(v, default) == x,
        v is None ==> int_or(v, default) == default,
{
}

/// The default playback rate bits encode 1.0: sign 0, biased exponent 1023, fraction 0.
pub proof fn lemma_default_rate_is_one()
    ensures
        DEFAULT_PLAYBACK_RATE_BITS / 0x10_0000_0000_0000 == 1023,
        DEFAULT_PLAYBACK_RATE_BITS % 0x10_0000_0000_0000 == 0,
{
}

/// The word that stands for a playback status; "unknown" when there is none.
pub fn status_label(s: Option<PlaybackStatus>) -> (r: String)
    ensures
        r@ == status_label_spec(s),
{
    match s {
        Some(PlaybackStatus::Playing) => "playing".to_owned(),
        Some(PlaybackStatus::Paused) => "paused".to_owned(),
        Some(PlaybackStatus::Stopped) => "stopped".to_owned(),
        Some(PlaybackStatus::Changing) => "changing".to_owned(),
        Some(PlaybackStatus::Opened) => "opened".to_owned(),
        Some(PlaybackStatus::Closed) => "closed".to_owned(),
        None => "unknown".to_owned(),
    }
}

/// A duration in ticks as whole milliseconds, rounded toward zero.
pub fn ticks_to_ms(ticks: i64) -> (r: i64)
    ensures
        r == ticks_to_ms_spec(ticks as int),
        ticks >= 0 ==> 10_000 * r <= ticks < 10_000 * r + 10_000,
        ticks < 0 ==> 10_000 * r - 10_000 < ticks <= 10_000 * r,
{
    proof {
        lemma_ticks_to_ms(ticks);
    }
    ticks / TICKS_PER_MS
}

/// A FILETIME in ticks as milliseconds since the Unix epoch, rounded toward zero.
pub fn filetime_to_unix_ms(ticks: i64) -> (r: i64)
    requires
        filetime_in_range(ticks as int),
    ensures
        r == filetime_to_unix_ms_spec(ticks as int),
{
    (ticks - FILETIME_TO_UNIX_TICKS) / TICKS_PER_MS
}

fn text_or_empty_exec(s: Option<String>) -> (r: String)
    ensures
        r@ == text_or_empty(s),
        s matches Some(t) ==> r@ == t@,
        s is None ==> r@.len() == 0,
{
    match s {
        Some(t) => t,
        None => String::new(),
    }
}

/// The "now playing" record for a media session's properties: missing texts are
/// empty, missing times are 0, a missing playback rate is 1.0, times become
/// milliseconds (the last update relative to the Unix epoch).
pub fn build_now_playing(props: MediaProperties) -> (np: NowPlaying)
    requires
        filetime_in_range(int_or(props.last_updated_ticks, 0)),
    ensures
        np.title@ == text_or_empty(props.title),
        props.title matches Some(t) ==> np.title@ == t@,
        props.artist matches Some(t) ==> np.artist@ == t@,
        props.album matches Some(t) ==> np.album@ == t@,
        props.source_app matches Some(t) ==> np.source_app@ == t@,
        props.title is None ==> np.title@.len() == 0,
        props.artist is None ==> np.artist@.len() == 0,
        props.album is None ==> np.album@.len() == 0,
        props.source_app is None ==> np.source_app@.len() == 0,
        np.artist@ == text_or_empty(props.artist),
        np.album@ == text_or_empty(props.album),
        np.status@ == status_label_spec(props.status),
        np.position_ms == ticks_to_ms_spec(int_or(props.position_ticks, 0)),
        np.duration_ms == ticks_to_ms_spec(int_or(props.end_ticks, 0)),
        np.playback_rate_bits == match props.playback_rate_bits {
            Some(b) => b,
            None => DEFAULT_PLAYBACK_RATE_BITS,
        },
        np.last_updated_unix_ms == filetime_to_unix_ms_spec(int_or(props.last_updated_ticks, 0)),
        np.source_app@ == text_or_empty(props.source_app),
        np.thumbnail == props.thumbnail,
{
    let position = match props.position_ticks {
        Some(t) => t,
        None => 0,
    };
    let end = match props.end_ticks {
        Some(t) => t,
        None => 0,
    };
    let updated = match props.last_updated_ticks {
        Some(t) => t,
        None => 0,
    };
    let rate = match props.playback_rate_bits {
        Some(b) => b,
        None => DEFAULT_PLAYBACK_RATE_BITS,
    };
    NowPlaying {
        title: text_or_empty_exec(props.title),
        artist: text_or_empty_exec(props.artist),
        album: text_or_empty_exec(props.album),
        status: status_label(props.status),
        position_ms: ticks_to_ms(position),
        duration_ms: ticks_to_ms(end),
        playback_rate_bits: rate,
        last_updated_unix_ms: filetime_to_unix_ms(updated),
        source_app: text_or_empty_exec(props.source_app),
        thumbnail: props.thumbnail,
    }
}


/// The upper-case hexadecimal digit for `d`, which is below 16.
pub open spec fn hex_digit(d: int) -> char {
    if d < 10 {
        (('0' as int) + d) as char
    } else {
        (('A' as int) + d - 10) as char
    }
}

/// The last `n` upper-case hexadecimal digits of `x`, most significant first.
pub open spec fn hex_digits(x: nat, n: nat) -> Seq<char>
    decreases n,
{
    if n == 0 {
        Seq::empty()
    } else {
        hex_digits(x / 16, (n - 1) as nat).push(hex_digit((x % 16) as int))
    }
}

/// The text recorded for a failed poll: "HRESULT=0x", the error code's 32 bits as
/// eight upper-case hexadecimal digits, a space, and the error's message.
pub open spec fn hresult_message_spec(code: i32, message: Seq<char>) -> Seq<char> {
    "HRESULT=0x"@ + hex_digits((code as u32) as nat, 8) + " "@ + message
}

/// The 32 bits of an error code as an unsigned number: the code itself, or the code
/// plus 2^32 when it is negative.
pub open spec fn code_bits(code: i32) -> int {
    if code >= 0 {
        code as int
    } else {
        code as int + 0x1_0000_0000
    }
}

/// The error text of a failed poll reads "HRESULT=0x", then eight hexadecimal digits
/// whose value is the code's 32 bits, then a space and the message.
pub proof fn lemma_hresult_message(code: i32, message: Seq<char>)
    ensures
        hresult_message_spec(code, message).len() == 19 + message.len(),
        hresult_message_spec(code, message).take(10) == "HRESULT=0x"@,
        hresult_message_spec(code, message)[18] == ' ',
        hresult_message_spec(code, message).skip(19) == message,
        forall|k: int|
            0 <= k < 8 ==> hex_value(#[trigger] hresult_message_spec(code, message)[10 + k]) == (
            code_bits(code) / (pow16((7 - k) as nat) as int)) % 16,
{
    let u = code as u32;
    assert(code >= 0 ==> (code as u32) as i64 == code as i64) by (bit_vector);
    assert(code < 0 ==> (code as u32) as i64 == (code as i64) + 0x1_0000_0000i64) by (bit_vector);
    assert(u as int == code_bits(code));
    reveal_strlit("HRESULT=0x");
    reveal_strlit(" ");
    let h = hex_digits(u as nat, 8);
    lemma_hex_digits_width(u as nat, 8);
    let msg = hresult_message_spec(code, message);
    assert(msg == "HRESULT=0x"@ + h + " "@ + message);
    assert(msg.take(10) =~= "HRESULT=0x"@);
    assert(msg.skip(19) =~= message);
    assert forall|k: int| 0 <= k < 8 implies hex_value(#[trigger] msg[10 + k]) == (code_bits(code) / (
    pow16((7 - k) as nat) as int)) % 16 by {
        assert(msg[10 + k] == h[k]);
        lemma_hex_digits_value(u as nat, 8, k);
    }
}

fn hex_digit_exec(d: u32) -> (c: char)
    requires
        d < 16,
    ensures
        c == hex_digit(d as int),
{
    let b = d as u8;
    if b < 10 {
        (48u8 + b) as char
    } else {
        (55u8 + b) as char
    }
}

/// The text recorded for a failed poll, as `format!("HRESULT=0x{:08X} {}", code, message)`
/// writes it.
pub fn hresult_message(code: i32, message: &str) -> (r: String)
    ensures
        r@ == hresult_message_spec(code, message@),
{
    let x = code as u32;
    let mut rest: u32 = x;
    let mut digits: Vec<char> = Vec::new();
    let mut i: usize = 0;
    while i < 8
        invariant
            0 <= i <= 8,
            x == code as u32,
            hex_digits(x as nat, 8) == hex_digits(rest as nat, (8 - i) as nat) + digits@,
        decreases 8 - i,
    {
        let c = hex_digit_exec(rest % 16);
        proof {
            let m = (8 - i) as nat;
            assert(hex_digits(rest as nat, m) == hex_digits((rest / 16) as nat, (m - 1) as nat).push(
                hex_digit((rest % 16) as int),
            ));
            assert(hex_digits(rest as nat, m) + digits@ =~= hex_digits(
                (rest / 16) as nat,
                (m - 1) as nat,
            ) + digits@.insert(0, c));
        }
        digits.insert(0, c);
        rest = rest / 16;
        i = i + 1;
    }
    assert(hex_digits(rest as nat, 0) + digits@ =~= digits@);
    let mut r = "HRESULT=0x".to_owned();
    let mut k: usize = 0;
    while k < digits.len()
        invariant
            0 <= k <= digits.len(),
            r@ == "HRESULT=0x"@ + digits@.take(k as int),
        decreases digits.len() - k,
    {
        push_char(&mut r, digits[k]);
        proof {
            assert(digits@.take(k + 1) =~= digits@.take(k as int).push(digits@[k as int]));
        }
        k = k + 1;
    }
    assert(digits@.take(digits@.len() as int) =~= digits@);
    r.append(" ");
    r.append(message);
    r
}

/// A copy of `np`.
pub fn clone_now_playing(np: &NowPlaying) -> (r: NowPlaying)
    ensures
        r == *np,
{
    NowPlaying {
        title: np.title.clone(),
        artist: np.artist.clone(),
        album: np.album.clone(),
        status: np.status.clone(),
        position_ms: np.position_ms,
        duration_ms: np.duration_ms,
        playback_rate_bits: np.playback_rate_bits,
        last_updated_unix_ms: np.last_updated_unix_ms,
        source_app: np.source_app.clone(),
        thumbnail: match &np.thumbnail {
            Some(t) => Some(t.clone()),
            None => None,
        },
    }
}

/// The outcome of one poll of the media sessions.
pub enum PollOutcome {
    /// The properties of the followed session, `None` when no session is open.
    Fetched(Option<NowPlaying>),
    /// The poll failed with this error code and message.
    Failed { code: i32, message: String },
}

/// What the poller last learned: the record, or the error of the last poll.
pub struct NowPlayingCache {
    pub current: Option<NowPlaying>,
    pub error: Option<String>,
}

/// What the user interface reads: the cache's content and how long ago, in
/// milliseconds, the poller last wrote it (which tells whether polling is alive).
pub struct NowPlayingSnapshot {
    pub current: Option<NowPlaying>,
    pub error: Option<String>,
    pub poll_age_ms: u64,
}

impl NowPlayingCache {
    /// The cache before the first poll: nothing playing, and the error
    /// "poller has not started yet".
    pub fn new() -> (c: NowPlayingCache)
        ensures
            c.current is None,
            c.error matches Some(e) && e@ == "poller has not started yet"@,
    {
        NowPlayingCache { current: None, error: Some("poller has not started yet".to_owned()) }
    }

    /// Records a poll: a fetched record replaces the current one and clears the error;
    /// a failure clears the record and sets the error text.
    pub fn record_poll(&mut self, outcome: PollOutcome)
        ensures
            match outcome {
                PollOutcome::Fetched(np) => final(self).current == np && final(self).error is None,
                PollOutcome::Failed { code, message } => final(self).current is None
                    && (final(self).error matches Some(e) && e@ == hresult_message_spec(code, message@)),
            },
    {
        match outcome {
            PollOutcome::Fetched(np) => {
                self.current = np;
                self.error = None;
            },
            PollOutcome::Failed { code, message } => {
                self.current = None;
                self.error = Some(hresult_message(code, message.as_str()));
            },
        }
    }
}

/// A snapshot of the cache, given the time since the last poll in milliseconds
/// (kept modulo 2^64, as `as u64` does).
pub fn get_now_playing(cache: &NowPlayingCache, elapsed_ms: u128) -> (s: NowPlayingSnapshot)
    ensures
        s.current == cache.current,
        s.error == cache.error,
        s.poll_age_ms == elapsed_ms as u64,
{
    NowPlayingSnapshot {
        current: match &cache.current {
            Some(np) => Some(clone_now_playing(np)),
            None => None,
        },
        error: match &cache.error {
            Some(e) => Some(e.clone()),
            None => None,
        },
        poll_age_ms: elapsed_ms as u64,
    }
}

/// The character of the standard Base64 alphabet for a 6-bit value `i`:
/// A-Z, a-z, 0-9, '+', '/'.
pub open spec fn base64_char(i: int) -> char {
    if i < 26 {
        (('A' as int) + i) as char
    } else if i < 52 {
        (('a' as int) + i - 26) as char
    } else if i < 62 {
        (('0' as int) + i - 52) as char
    } else if i == 62 {
        '+'
    } else {
        '/'
    }
}

/// Standard Base64 with padding: each group of three bytes becomes four characters
/// of six bits each; a last group of one or two bytes is filled with zero bits and
/// padded with '=' to four characters.
pub open spec fn base64_standard(d: Seq<u8>) -> Seq<char>
    decreases d.len(),
{
    if d.len() == 0 {
        Seq::empty()
    } else {
        let b0 = d[0] as int;
        let b1 = if d.len() > 1 { d[1] as int } else { 0 };
        let b2 = if d.len() > 2 { d[2] as int } else { 0 };
        let c0 = base64_char(b0 / 4);
        let c1 = base64_char((b0 % 4) * 16 + b1 / 16);
        let c2 = base64_char((b1 % 16) * 4 + b2 / 64);
        let c3 = base64_char(b2 % 64);
        if d.len() == 1 {
            seq![c0, c1, '=', '=']
        } else if d.len() == 2 {
            seq![c0, c1, c2, '=']
        } else {
            seq![c0, c1, c2, c3] + base64_standard(d.skip(3))
        }
    }
}

/// The 6-bit value of a Base64 character: 'A'-'Z' are 0-25, 'a'-'z' 26-51, '0'-'9'
/// 52-61, '+' 62 and '/' 63; anything else has none (-1).
pub open spec fn base64_value(c: char) -> int {
    if 'A' <= c && c <= 'Z' {
        (c as int) - ('A' as int)
    } else if 'a' <= c && c <= 'z' {
        (c as int) - ('a' as int) + 26
    } else if '0' <= c && c <= '9' {
        (c as int) - ('0' as int) + 52
    } else if c == '+' {
        62
    } else if c == '/' {
        63
    } else {
        -1
    }
}

proof fn lemma_base64_char_value(i: int)
    requires
        0 <= i < 64,
    ensures
        base64_value(base64_char(i)) == i,
        base64_char(i) != '=',
{
}

/// Base64 turns every three bytes into four characters whose 6-bit values, read as one
/// 24-bit number, are the three bytes; a last one or two bytes become two or three
/// characters carrying them, with zero bits filled in, and '=' padding to four.
pub proof fn lemma_base64_standard(d: Seq<u8>)
    ensures
        base64_standard(d).len() == 4 * ((d.len() + 2) / 3),
        d.len() >= 3 ==> {
            let e = base64_standard(d);
            &&& base64_value(e[0]) * 262144 + base64_value(e[1]) * 4096 + base64_value(e[2]) * 64
                + base64_value(e[3]) == d[0] * 65536 + d[1] * 256 + d[2]
            &&& e.skip(4) == base64_standard(d.skip(3))
        },
        d.len() == 2 ==> {
            let e = base64_standard(d);
            &&& base64_value(e[0]) * 4096 + base64_value(e[1]) * 64 + base64_value(e[2]) == (d[0]
                * 256 + d[1]) * 4
            &&& e[3] == '='
        },
        d.len() == 1 ==> {
            let e = base64_standard(d);
            &&& base64_value(e[0]) * 64 + base64_value(e[1]) == d[0] * 16
            &&& e[2] == '=' && e[3] == '='
        },
    decreases d.len(),
{
    if d.len() > 0 {
        let b0 = d[0] as int;
        let b1 = if d.len() > 1 { d[1] as int } else { 0 };
        let b2 = if d.len() > 2 { d[2] as int } else { 0 };
        assert(0 <= b0 < 256 && 0 <= b1 < 256 && 0 <= b2 < 256);
        lemma_base64_char_value(b0 / 4);
        lemma_base64_char_value((b0 % 4) * 16 + b1 / 16);
        lemma_base64_char_value((b1 % 16) * 4 + b2 / 64);
        lemma_base64_char_value(b2 % 64);
        assert((b0 / 4) * 262144 + ((b0 % 4) * 16 + b1 / 16) * 4096 + ((b1 % 16) * 4 + b2 / 64) * 64
            + b2 % 64 == b0 * 65536 + b1 * 256 + b2) by (nonlinear_arith)
            requires
                0 <= b0 < 256,
                0 <= b1 < 256,
                0 <= b2 < 256,
        {
            assert(b0 == 4 * (b0 / 4) + b0 % 4);
            assert(b1 == 16 * (b1 / 16) + b1 % 16);
            assert(b2 == 64 * (b2 / 64) + b2 % 64);
        }
        if d.len() >= 3 {
            lemma_base64_standard(d.skip(3));
            let e = base64_standard(d);
            assert(e.skip(4) =~= base64_standard(d.skip(3)));
            assert((d.len() + 2) / 3 == (d.skip(3).len() + 2) / 3 + 1);
        }
    }
}

/// Calls `base64::engine::general_purpose::STANDARD.encode`, the standard alphabet
/// with padding, which produces `base64_standard` of the bytes.
#[verifier::external_body]
fn encode_base64(data: &[u8]) -> (r: String)
    ensures
        r@ == base64_standard(data@),
{
    base64::engine::general_purpose::STANDARD.encode(data)
}

/// Why no data URL was made for cover art.
#[derive(PartialEq, Eq, Structural, Clone, Copy, Debug)]
pub enum ThumbnailError {
    /// The image has no bytes.
    Empty,
}

/// The media type used for cover art: the reported content type, or "image/jpeg"
/// when none is reported.
pub open spec fn thumbnail_mime(content_type: Seq<char>) -> Seq<char> {
    if content_type.len() == 0 {
        "image/jpeg"@
    } else {
        content_type
    }
}

/// Cover art as a data URL: "data:", the media type, ";base64," and the Base64 text of
/// the bytes; an empty image is refused.
pub fn thumbnail_data_url(content_type: &str, data: &[u8]) -> (r: Result<String, ThumbnailError>)
    ensures
        data@.len() == 0 ==> r == Err::<String, ThumbnailError>(ThumbnailError::Empty),
        data@.len() > 0 ==> (r matches Ok(u) && u@ == "data:"@ + thumbnail_mime(content_type@)
            + ";base64,"@ + base64_standard(data@)),
{
    if data.len() == 0 {
        return Err(ThumbnailError::Empty);
    }
    let encoded = encode_base64(data);
    let mut url = "data:".to_owned();
    if content_type.is_empty() {
        url.append("image/jpeg");
    } else {
        url.append(content_type);
    }
    url.append(";base64,");
    url.append(encoded.as_str());
    Ok(url)
}

/// 16 to the power `n`.
pub open spec fn pow16(n: nat) -> nat
    decreases n,
{
    if n == 0 {
        1
    } else {
        16 * pow16((n - 1) as nat)
    }
}

/// The value of a hexadecimal digit character: '0'-'9' are 0-9, 'A'-'F' are 10-15.
pub open spec fn hex_value(c: char) -> int {
    if '0' <= c && c <= '9' {
        (c as int) - ('0' as int)
    } else {
        (c as int) - ('A' as int) + 10
    }
}

/// Digit `k` of `hex_digits(x, n)`, counted from the most significant, is the base-16
/// digit of `x` worth `16^(n - 1 - k)`.
pub proof fn lemma_hex_digits_value(x: nat, n: nat, k: int)
    requires
        0 <= k < n,
    ensures
        hex_value(hex_digits(x, n)[k]) == (x / pow16((n - 1 - k) as nat)) % 16,
    decreases n,
{
    let m = (n - 1) as nat;
    lemma_hex_digits_width(x / 16, m);
    assert(hex_digits(x, n) == hex_digits(x / 16, m).push(hex_digit((x % 16) as int)));
    if k == m {
        assert(pow16(0) == 1);
        assert(x / 1 == x);
        let d = (x % 16) as int;
        assert(0 <= d < 16);
        assert(hex_value(hex_digit(d)) == d);
        assert(hex_digits(x, n)[k] == hex_digit(d));
    } else {
        assert(hex_digits(x, n)[k] == hex_digits(x / 16, m)[k]);
        lemma_hex_digits_width(x / 16, m);
        lemma_hex_digits_value(x / 16, m, k);
        let p = pow16((m - 1 - k) as nat);
        assert(pow16((n - 1 - k) as nat) == 16 * p);
        lemma_pow16_positive((m - 1 - k) as nat);
        assert(x / 16 / p == x / (16 * p)) by (nonlinear_arith)
            requires
                p > 0,
                x >= 0,
        {
            let q = x / 16;
            let r = x % 16;
            let q2 = q / p;
            let r2 = q % p;
            assert(x == 16 * q + r && 0 <= r < 16);
            assert(q == p * q2 + r2 && 0 <= r2 < p);
            assert(x == (16 * p) * q2 + (16 * r2 + r));
            assert(0 <= 16 * r2 + r < 16 * p);
        }
    }
}

proof fn lemma_pow16_positive(n: nat)
    ensures
        pow16(n) > 0,
    decreases n,
{
    if n > 0 {
        lemma_pow16_positive((n - 1) as nat);
    }
}

/// `hex_digits(x, n)` is exactly `n` characters, each a digit or an upper-case letter A to F
/// (so a failed poll's text always shows eight of them).
pub proof fn lemma_hex_digits_width(x: nat, n: nat)
    ensures
        hex_digits(x, n).len() == n,
        forall|k: int| 0 <= k < n ==> {
            let c = #[trigger] hex_digits(x, n)[k];
            ('0' <= c && c <= '9') || ('A' <= c && c <= 'F')
        },
    decreases n,
{
    if n > 0 {
        lemma_hex_digits_width(x / 16, (n - 1) as nat);
        let d = (x % 16) as int;
        assert(0 <= d < 16);
        let c = hex_digit(d);
        assert(('0' <= c && c <= '9') || ('A' <= c && c <= 'F'));
    }
}

} // verus!
