//! The list of audio sessions offered as capture sources: which processes are
//! shown, under what name, how duplicates merge, and in what order they come.

use vstd::prelude::*;
use crate::text::{
    chars_of, eq_ignore_ascii_case, lemma_lex_lt_irreflexive, lemma_strip_suffix, lemma_lex_lt_total, lemma_lex_lt_transitive, lex_less,
    to_lowercase, eq_ignore_ascii_case_spec, lex_lt, lowercase, remove_suffix,
    string_from_chars, strip_suffix, strip_suffix_spec, without_suffix,
};

verus! {

/// An application that holds an audio session on the default render device.
pub struct AudioSession {
    /// Process id.
    pub pid: u32,
    /// Executable file name, e.g. "Spotify.exe".
    pub exe: String,
    /// Name shown to the user, e.g. "Spotify".
    pub display: String,
    /// Whether the session is currently producing audio.
    pub is_active: bool,
}

/// One audio session as the device reports it, before filtering and merging.
pub struct SessionRecord {
    /// Process id of the session's owner.
    pub pid: u32,
    /// Executable file name of the owner, `None` when it could not be found.
    pub exe: Option<String>,
    /// Whether the session was in the active state.
    pub is_active: bool,
}

/// The mathematical value of an [`AudioSession`].
pub struct SessionView {
    pub pid: u32,
    pub exe: Seq<char>,
    pub display: Seq<char>,
    pub is_active: bool,
}

impl View for AudioSession {
    type V = SessionView;

    open spec fn view(&self) -> SessionView {
        SessionView { pid: self.pid, exe: self.exe@, display: self.display@, is_active: self.is_active }
    }
}

/// Executables that hold audio sessions but are not what a user means by an app
/// playing music: this program itself and Windows shell and system processes.
pub open spec fn system_process_names() -> Seq<Seq<char>> {
    seq![
        "wmp-modern.exe"@,
        "explorer.exe"@,
        "audiodg.exe"@,
        "dwm.exe"@,
        "svchost.exe"@,
        "taskhostw.exe"@,
        "RuntimeBroker.exe"@,
        "SearchHost.exe"@,
        "StartMenuExperienceHost.exe"@,
        "ShellExperienceHost.exe"@,
        "TextInputHost.exe"@,
        "ApplicationFrameHost.exe"@,
        "winlogon.exe"@,
        "csrss.exe"@,
        "fontdrvhost.exe"@,
        "smss.exe"@,
    ]
}

/// `exe` names a system process, ASCII case ignored.
pub open spec fn is_system_process_spec(exe: Seq<char>) -> bool {
    exists|i: int|
        0 <= i < system_process_names().len()
            && eq_ignore_ascii_case_spec(#[trigger] system_process_names()[i], exe)
}

/// The name shown for an executable: without a trailing ".exe", else without a trailing ".EXE".
pub open spec fn display_name_spec(exe: Seq<char>) -> Seq<char> {
    match strip_suffix_spec(exe, ".exe"@) {
        Some(t) => t,
        None => without_suffix(exe, ".EXE"@),
    }
}

/// A record is listed: it has a process id other than 0 (system sounds), its
/// executable is known, and it is not a system process.
pub open spec fn record_listed(r: SessionRecord) -> bool {
    &&& r.pid != 0
    &&& r.exe is Some
    &&& !is_system_process_spec(r.exe->0@)
}

/// The session that a listed record stands for on its own.
pub open spec fn record_session(r: SessionRecord) -> SessionView {
    SessionView {
        pid: r.pid,
        exe: r.exe->0@,
        display: display_name_spec(r.exe->0@),
        is_active: r.is_active,
    }
}

/// Some session in `s` has process id `pid`.
pub open spec fn has_pid(s: Seq<SessionView>, pid: u32) -> bool {
    exists|i: int| 0 <= i < s.len() && (#[trigger] s[i]).pid == pid
}

/// `s` with the sessions of process `pid` marked active when `active` holds.
pub open spec fn mark_active(s: Seq<SessionView>, pid: u32, active: bool) -> Seq<SessionView> {
    s.map_values(
        |v: SessionView|
            if v.pid == pid {
                SessionView { is_active: v.is_active || active, ..v }
            } else {
                v
            },
    )
}

/// The listed sessions of `rs`, one per process id, in order of first appearance:
/// a process keeps the executable of its first listed record and is active when
/// any of its listed records is.
pub open spec fn merge_sessions(rs: Seq<SessionRecord>) -> Seq<SessionView>
    decreases rs.len(),
{
    if rs.len() == 0 {
        Seq::empty()
    } else {
        let prev = merge_sessions(rs.drop_last());
        let r = rs.last();
        if !record_listed(r) {
            prev
        } else if has_pid(prev, r.pid) {
            mark_active(prev, r.pid, r.is_active)
        } else {
            prev.push(record_session(r))
        }
    }
}

/// `a` is listed before `b`: active sessions first, then by lower-cased display name.
pub open spec fn listed_before(a: SessionView, b: SessionView) -> bool {
    ||| a.is_active && !b.is_active
    ||| a.is_active == b.is_active && lex_lt(lowercase(a.display), lowercase(b.display))
}

/// No session of `s` is listed before one that precedes it.
pub open spec fn sessions_sorted(s: Seq<SessionView>) -> bool {
    forall|i: int, j: int| 0 <= i < j < s.len() ==> !listed_before(#[trigger] s[j], #[trigger] s[i])
}

/// The executables never offered as sources are exactly these sixteen, ASCII case
/// ignored: this program, the Windows shell and Windows system processes.
pub proof fn lemma_system_process_denylist(e: Seq<char>)
    ensures
        is_system_process_spec(e) <==> ({
            ||| eq_ignore_ascii_case_spec("wmp-modern.exe"@, e)
            ||| eq_ignore_ascii_case_spec("explorer.exe"@, e)
            ||| eq_ignore_ascii_case_spec("audiodg.exe"@, e)
            ||| eq_ignore_ascii_case_spec("dwm.exe"@, e)
            ||| eq_ignore_ascii_case_spec("svchost.exe"@, e)
            ||| eq_ignore_ascii_case_spec("taskhostw.exe"@, e)
            ||| eq_ignore_ascii_case_spec("RuntimeBroker.exe"@, e)
            ||| eq_ignore_ascii_case_spec("SearchHost.exe"@, e)
            ||| eq_ignore_ascii_case_spec("StartMenuExperienceHost.exe"@, e)
            ||| eq_ignore_ascii_case_spec("ShellExperienceHost.exe"@, e)
            ||| eq_ignore_ascii_case_spec("TextInputHost.exe"@, e)
            ||| eq_ignore_ascii_case_spec("ApplicationFrameHost.exe"@, e)
            ||| eq_ignore_ascii_case_spec("winlogon.exe"@, e)
            ||| eq_ignore_ascii_case_spec("csrss.exe"@, e)
            ||| eq_ignore_ascii_case_spec("fontdrvhost.exe"@, e)
            ||| eq_ignore_ascii_case_spec("smss.exe"@, e)
        }),
{
    let names = system_process_names();
    assert(names.len() == 16);
    assert(names[0] == "wmp-modern.exe"@);
    assert(names[1] == "explorer.exe"@);
    assert(names[2] == "audiodg.exe"@);
    assert(names[3] == "dwm.exe"@);
    assert(names[4] == "svchost.exe"@);
    assert(names[5] == "taskhostw.exe"@);
    assert(names[6] == "RuntimeBroker.exe"@);
    assert(names[7] == "SearchHost.exe"@);
    assert(names[8] == "StartMenuExperienceHost.exe"@);
    assert(names[9] == "ShellExperienceHost.exe"@);
    assert(names[10] == "TextInputHost.exe"@);
    assert(names[11] == "ApplicationFrameHost.exe"@);
    assert(names[12] == "winlogon.exe"@);
    assert(names[13] == "csrss.exe"@);
    assert(names[14] == "fontdrvhost.exe"@);
    assert(names[15] == "smss.exe"@);
    if is_system_process_spec(e) {
        let i = choose|i: int|
            0 <= i < names.len() && eq_ignore_ascii_case_spec(#[trigger] names[i], e);
        assert(0 <= i < 16);
    }
}

/// An executable's display name is the name before a final ".exe"; failing that, the
/// name before a final ".EXE"; failing both, the whole name.
pub proof fn lemma_display_name(exe: Seq<char>, t: Seq<char>)
    ensures
        t + ".exe"@ == exe ==> display_name_spec(exe) == t,
        (forall|u: Seq<char>| u + ".exe"@ != exe) && t + ".EXE"@ == exe ==> display_name_spec(exe) == t,
        (forall|u: Seq<char>| u + ".exe"@ != exe && u + ".EXE"@ != exe) ==> display_name_spec(exe) == exe,
{
    lemma_strip_suffix(exe, ".exe"@, t);
    lemma_strip_suffix(exe, ".EXE"@, t);
}

/// Whether `exe` is a system process that is not offered as a source (ASCII case ignored).
pub fn is_system_process(exe: &str) -> (r: bool)
    ensures
        r == is_system_process_spec(exe@),
{
    let denylist: [&str; 16] = [
        "wmp-modern.exe",
        "explorer.exe",
        "audiodg.exe",
        "dwm.exe",
        "svchost.exe",
        "taskhostw.exe",
        "RuntimeBroker.exe",
        "SearchHost.exe",
        "StartMenuExperienceHost.exe",
        "ShellExperienceHost.exe",
        "TextInputHost.exe",
        "ApplicationFrameHost.exe",
        "winlogon.exe",
        "csrss.exe",
        "fontdrvhost.exe",
        "smss.exe",
    ];
    assert(denylist@.map_values(|d: &str| d@) =~= system_process_names());
    let mut i: usize = 0;
    while i < 16
        invariant
            0 <= i <= 16,
            denylist@.map_values(|d: &str| d@) == system_process_names(),
            forall|j: int|
                0 <= j < i ==> !eq_ignore_ascii_case_spec(#[trigger] system_process_names()[j], exe@),
        decreases 16 - i,
    {
        assert(denylist@.map_values(|d: &str| d@)[i as int] == denylist[i as int]@);
        if eq_ignore_ascii_case(denylist[i], exe) {
            return true;
        }
        i = i + 1;
    }
    false
}


/// The values of a sequence of sessions.
pub open spec fn session_views(s: Seq<AudioSession>) -> Seq<SessionView> {
    s.map_values(|a: AudioSession| a@)
}

/// No two sessions of `s` share a process id.
pub open spec fn pids_distinct(s: Seq<SessionView>) -> bool {
    forall|i: int, j: int| 0 <= i < j < s.len() ==> (#[trigger] s[i]).pid != (#[trigger] s[j]).pid
}

/// The name shown for an executable: ".exe" (or else ".EXE") removed from its end.
pub fn display_name(exe: &str) -> (r: String)
    ensures
        r@ == display_name_spec(exe@),
{
    let e = chars_of(exe);
    let lower_ext = chars_of(".exe");
    match strip_suffix(e.as_slice(), lower_ext.as_slice()) {
        Some(v) => string_from_chars(v.as_slice()),
        None => {
            let upper_ext = chars_of(".EXE");
            let v = remove_suffix(e.as_slice(), upper_ext.as_slice());
            string_from_chars(v.as_slice())
        },
    }
}

/// Whether a record is listed, with its executable name when it is.
fn listed_exe(r: &SessionRecord) -> (res: Option<&String>)
    ensures
        record_listed(*r) <==> res is Some,
        res matches Some(e) ==> r.exe == Some(*e),
{
    if r.pid == 0 {
        return None;
    }
    match &r.exe {
        None => None,
        Some(e) => {
            if is_system_process(e.as_str()) {
                None
            } else {
                Some(e)
            }
        },
    }
}

/// The listed sessions of `records`, merged per process id in order of first appearance.
///
/// The merged sessions are kept in a vector searched by process id rather than in a
/// hash map: a hash map would hand its values back in an order that depends on its
/// per-process hasher seed, whereas first-appearance order is fixed, so the merged
/// list is a function of the records alone and the contract can state it exactly.
/// The final order comes from `sort_sessions` either way.
pub fn merge_records(records: &[SessionRecord]) -> (m: Vec<AudioSession>)
    ensures
        session_views(m@) == merge_sessions(records@),
        pids_distinct(session_views(m@)),
{
    let mut m: Vec<AudioSession> = Vec::new();
    let mut i: usize = 0;
    while i < records.len()
        invariant
            0 <= i <= records.len(),
            session_views(m@) == merge_sessions(records@.take(i as int)),
            pids_distinct(session_views(m@)),
        decreases records.len() - i,
    {
        let ghost prev = session_views(m@);
        proof {
            assert(records@.take(i + 1).drop_last() =~= records@.take(i as int));
            assert(records@.take(i + 1).last() == records@[i as int]);
        }
        let r = &records[i];
        match listed_exe(r) {
            None => {},
            Some(e) => {
                let mut k: usize = 0;
                while k < m.len() && m[k].pid != r.pid
                    invariant
                        0 <= k <= m.len(),
                        session_views(m@) == prev,
                        forall|j: int| 0 <= j < k ==> (#[trigger] m@[j]).pid != r.pid,
                    decreases m.len() - k,
                {
                    k = k + 1;
                }
                let found = k < m.len();
                if found {
                    assert(prev[k as int].pid == r.pid);
                    assert(has_pid(prev, r.pid));
                    let active = m[k].is_active || r.is_active;
                    m[k].is_active = active;
                    proof {
                        assert(session_views(m@) =~= mark_active(prev, r.pid, r.is_active));
                    }
                } else {
                    assert(!has_pid(prev, r.pid)) by {
                        if has_pid(prev, r.pid) {
                            let j = choose|j: int| 0 <= j < prev.len() && (#[trigger] prev[j]).pid == r.pid;
                            assert(prev[j] == m@[j]@);
                            assert(m@[j].pid == r.pid);
                        }
                    }
                    let display = display_name(e.as_str());
                    let s = AudioSession {
                        pid: r.pid,
                        exe: e.clone(),
                        display,
                        is_active: r.is_active,
                    };
                    m.push(s);
                    proof {
                        assert(session_views(m@) =~= prev.push(record_session(*r)));
                    }
                }
            },
        }
        i = i + 1;
    }
    proof {
        assert(records@.take(records@.len() as int) =~= records@);
    }
    m
}


/// No session is listed before itself.
pub proof fn lemma_listed_before_irreflexive(a: SessionView)
    ensures
        !listed_before(a, a),
{
    lemma_lex_lt_irreflexive(lowercase(a.display));
}

/// The listing order is transitive.
pub proof fn lemma_listed_before_transitive(a: SessionView, b: SessionView, c: SessionView)
    requires
        listed_before(a, b),
        listed_before(b, c),
    ensures
        listed_before(a, c),
{
    if a.is_active == b.is_active && b.is_active == c.is_active {
        lemma_lex_lt_transitive(lowercase(a.display), lowercase(b.display), lowercase(c.display));
    }
}

/// `a` with sort key `ka` comes before `b` with sort key `kb`: active sessions first,
/// then by key.
pub open spec fn keyed_before(a: SessionView, ka: Seq<char>, b: SessionView, kb: Seq<char>) -> bool {
    ||| a.is_active && !b.is_active
    ||| a.is_active == b.is_active && lex_lt(ka, kb)
}

/// Session `x` of `m`, with key `keys[x]`, comes before session `y`.
pub open spec fn before_at(m: Seq<AudioSession>, keys: Seq<Vec<char>>, x: int, y: int) -> bool {
    keyed_before(m[x]@, keys[x]@, m[y]@, keys[y]@)
}

/// `order` lists indices of `m` so that no session comes before one listed earlier,
/// and sessions that tie keep their order in `m`.
pub open spec fn order_sorted(m: Seq<AudioSession>, keys: Seq<Vec<char>>, order: Seq<usize>) -> bool {
    forall|q: int, r: int|
        0 <= q < r < order.len() ==> !before_at(m, keys, #[trigger] order[r] as int, #[trigger] order[q] as int)
            && (!before_at(m, keys, order[q] as int, order[r] as int) ==> order[q] < order[r])
}

proof fn lemma_keyed_irreflexive(a: SessionView, ka: Seq<char>)
    ensures
        !keyed_before(a, ka, a, ka),
{
    lemma_lex_lt_irreflexive(ka);
}

proof fn lemma_keyed_transitive(
    a: SessionView,
    ka: Seq<char>,
    b: SessionView,
    kb: Seq<char>,
    c: SessionView,
    kc: Seq<char>,
)
    requires
        keyed_before(a, ka, b, kb),
        keyed_before(b, kb, c, kc),
    ensures
        keyed_before(a, ka, c, kc),
{
    if a.is_active == b.is_active && b.is_active == c.is_active {
        lemma_lex_lt_transitive(ka, kb, kc);
    }
}

/// If `a` comes before `b` and `c` does not, then `a` comes before `c`.
proof fn lemma_keyed_negative_transitive(
    a: SessionView,
    ka: Seq<char>,
    b: SessionView,
    kb: Seq<char>,
    c: SessionView,
    kc: Seq<char>,
)
    requires
        keyed_before(a, ka, b, kb),
        !keyed_before(c, kc, b, kb),
    ensures
        keyed_before(a, ka, c, kc),
{
    if a.is_active == b.is_active && lex_lt(ka, kb) && c.is_active == b.is_active {
        lemma_lex_lt_total(kc, kb);
        if lex_lt(kb, kc) {
            lemma_lex_lt_transitive(ka, kb, kc);
        }
    }
}

/// Whether `m[a]` comes before `m[b]` with sort keys `keys`.
fn before_exec(m: &Vec<AudioSession>, keys: &Vec<Vec<char>>, a: usize, b: usize) -> (r: bool)
    requires
        a < m.len(),
        b < m.len(),
        keys.len() == m.len(),
    ensures
        r == before_at(m@, keys@, a as int, b as int),
{
    let x = &m[a];
    let y = &m[b];
    if x.is_active && !y.is_active {
        true
    } else if x.is_active == y.is_active {
        lex_less(keys[a].as_slice(), keys[b].as_slice())
    } else {
        false
    }
}

/// The order in which to list the sessions `m` given their sort keys `keys`: every
/// index once, active sessions first, then by key, ties in their order in `m`
/// (a stable insertion sort).
pub fn sort_order_by_keys(m: &Vec<AudioSession>, keys: &Vec<Vec<char>>) -> (order: Vec<usize>)
    requires
        keys.len() == m.len(),
    ensures
        order.len() == m.len(),
        forall|q: int| 0 <= q < order.len() ==> #[trigger] order@[q] < m.len(),
        forall|q: int, r: int| 0 <= q < r < order.len() ==> #[trigger] order@[q] != #[trigger] order@[r],
        forall|k: int| 0 <= k < m.len() ==> #[trigger] order@.contains(k as usize),
        order_sorted(m@, keys@, order@),
{
    let n = m.len();
    let mut order: Vec<usize> = Vec::new();
    let mut i: usize = 0;
    while i < n
        invariant
            n == m.len(),
            keys.len() == n,
            0 <= i <= n,
            order.len() == i,
            forall|q: int| 0 <= q < i ==> #[trigger] order@[q] < i,
            forall|q: int, r: int| 0 <= q < r < i ==> #[trigger] order@[q] != #[trigger] order@[r],
            forall|k: int| 0 <= k < i ==> #[trigger] order@.contains(k as usize),
            order_sorted(m@, keys@, order@),
        decreases n - i,
    {
        let mut p: usize = 0;
        while p < order.len() && !before_exec(m, keys, i, order[p])
            invariant
                n == m.len(),
                i < n,
                keys.len() == n,
                order.len() == i,
                forall|q: int| 0 <= q < i ==> #[trigger] order@[q] < i,
                0 <= p <= order.len(),
                forall|q: int| 0 <= q < p ==> !before_at(m@, keys@, i as int, #[trigger] order@[q] as int),
            decreases order.len() - p,
        {
            p = p + 1;
        }
        let ghost old_order = order@;
        let ghost ms = m@;
        let ghost ks = keys@;
        proof {
            assert forall|q: int| p <= q < i implies before_at(ms, ks, i as int, #[trigger] old_order[q] as int)
                && !before_at(ms, ks, old_order[q] as int, i as int) by {
                let sp = old_order[p as int] as int;
                let e = old_order[q] as int;
                if q > p {
                    assert(!before_at(ms, ks, e, sp));
                    lemma_keyed_negative_transitive(
                        ms[i as int]@, ks[i as int]@, ms[sp]@, ks[sp]@, ms[e]@, ks[e]@,
                    );
                }
                if before_at(ms, ks, e, i as int) {
                    lemma_keyed_transitive(ms[e]@, ks[e]@, ms[i as int]@, ks[i as int]@, ms[e]@, ks[e]@);
                    lemma_keyed_irreflexive(ms[e]@, ks[e]@);
                }
            }
        }
        order.insert(p, i);
        proof {
            assert forall|k: int| 0 <= k < i + 1 implies #[trigger] order@.contains(k as usize) by {
                if k == i {
                    assert(order@[p as int] == i);
                } else {
                    assert(old_order.contains(k as usize));
                    let q = choose|q: int| 0 <= q < old_order.len() && old_order[q] == k as usize;
                    if q < p {
                        assert(order@[q] == k as usize);
                    } else {
                        assert(order@[q + 1] == k as usize);
                    }
                }
            }
            assert forall|q: int, r: int| 0 <= q < r < i + 1 implies #[trigger] order@[q] != #[trigger] order@[r] by {
                if r < p {
                    assert(order@[r] == old_order[r] && order@[q] == old_order[q]);
                } else if r == p {
                    assert(order@[q] == old_order[q]);
                } else if q < p {
                    assert(order@[r] == old_order[r - 1] && order@[q] == old_order[q]);
                } else if q == p {
                    assert(order@[r] == old_order[r - 1]);
                } else {
                    assert(order@[r] == old_order[r - 1] && order@[q] == old_order[q - 1]);
                }
            }
            assert forall|q: int, r: int| 0 <= q < r < order@.len() implies !before_at(
                ms,
                ks,
                #[trigger] order@[r] as int,
                #[trigger] order@[q] as int,
            ) && (!before_at(ms, ks, order@[q] as int, order@[r] as int) ==> order@[q] < order@[r]) by {
                if r < p {
                    assert(order@[r] == old_order[r] && order@[q] == old_order[q]);
                } else if r == p {
                    assert(order@[q] == old_order[q]);
                } else if q < p {
                    assert(order@[r] == old_order[r - 1] && order@[q] == old_order[q]);
                } else if q == p {
                    assert(order@[r] == old_order[r - 1]);
                } else {
                    assert(order@[r] == old_order[r - 1] && order@[q] == old_order[q - 1]);
                }
            }
        }
        i = i + 1;
    }
    order
}

/// `m` reordered so that active sessions come first, then by lower-cased display name,
/// sessions that tie keeping their order in `m`.
pub fn sort_sessions(m: &Vec<AudioSession>) -> (out: Vec<AudioSession>)
    ensures
        out.len() == m.len(),
        sessions_sorted(session_views(out@)),
        forall|j: int| 0 <= j < out.len() ==> session_views(m@).contains(#[trigger] out@[j]@),
        forall|k: int|
            0 <= k < m.len() ==> session_views(out@).contains(#[trigger] session_views(m@)[k]),
        pids_distinct(session_views(m@)) ==> pids_distinct(session_views(out@)),
{
    let n = m.len();
    let mut keys: Vec<Vec<char>> = Vec::new();
    let mut i: usize = 0;
    while i < n
        invariant
            n == m.len(),
            0 <= i <= n,
            keys.len() == i,
            forall|k: int| 0 <= k < i ==> (#[trigger] keys@[k])@ == lowercase(m@[k].display@),
        decreases n - i,
    {
        let lower = to_lowercase(m[i].display.as_str());
        keys.push(chars_of(lower.as_str()));
        i = i + 1;
    }
    let order = sort_order_by_keys(m, &keys);
    let mut out: Vec<AudioSession> = Vec::new();
    let mut j: usize = 0;
    while j < n
        invariant
            n == m.len(),
            order.len() == n,
            forall|q: int| 0 <= q < n ==> #[trigger] order@[q] < n,
            0 <= j <= n,
            out.len() == j,
            forall|q: int| 0 <= q < j ==> (#[trigger] out@[q])@ == m@[order@[q] as int]@,
        decreases n - j,
    {
        let src = &m[order[j]];
        out.push(AudioSession {
            pid: src.pid,
            exe: src.exe.clone(),
            display: src.display.clone(),
            is_active: src.is_active,
        });
        j = j + 1;
    }
    proof {
        assert forall|q: int, r: int| 0 <= q < r < out.len() implies !listed_before(
            #[trigger] session_views(out@)[r],
            #[trigger] session_views(out@)[q],
        ) by {
            assert(out@[q]@ == m@[order@[q] as int]@);
            assert(out@[r]@ == m@[order@[r] as int]@);
            assert(!before_at(m@, keys@, order@[r] as int, order@[q] as int));
            assert(keys@[order@[q] as int]@ == lowercase(m@[order@[q] as int].display@));
            assert(keys@[order@[r] as int]@ == lowercase(m@[order@[r] as int].display@));
        }
        assert forall|j: int| 0 <= j < out.len() implies session_views(m@).contains(#[trigger] out@[j]@) by {
            assert(session_views(m@)[order@[j] as int] == out@[j]@);
        }
        assert forall|k: int| 0 <= k < m.len() implies session_views(out@).contains(
            #[trigger] session_views(m@)[k],
        ) by {
            assert(order@.contains(k as usize));
            let q = choose|q: int| 0 <= q < order@.len() && order@[q] == k as usize;
            assert(session_views(out@)[q] == session_views(m@)[k]);
        }
        if pids_distinct(session_views(m@)) {
            assert forall|q: int, r: int| 0 <= q < r < out.len() implies
                (#[trigger] session_views(out@)[q]).pid != (#[trigger] session_views(out@)[r]).pid by {
                let a = order@[q] as int;
                let b = order@[r] as int;
                assert(out@[q]@ == m@[a]@);
                assert(out@[r]@ == m@[b]@);
                if a < b {
                    assert(session_views(m@)[a].pid != session_views(m@)[b].pid);
                } else {
                    assert(session_views(m@)[b].pid != session_views(m@)[a].pid);
                }
            }
        }
    }
    out
}


/// Record `i` of `rs` is listed and belongs to process `pid`.
pub open spec fn listed_with_pid(rs: Seq<SessionRecord>, i: int, pid: u32) -> bool {
    0 <= i < rs.len() && record_listed(rs[i]) && rs[i].pid == pid
}

/// Record `i` is the first listed record of process `pid`.
pub open spec fn first_listed(rs: Seq<SessionRecord>, i: int, pid: u32) -> bool {
    listed_with_pid(rs, i, pid) && forall|j: int| 0 <= j < i ==> !#[trigger] listed_with_pid(rs, j, pid)
}

/// What a merged session says of the records it came from: it is not a system process
/// and not process 0, it carries the executable of its process's first listed record
/// and the display name of that executable, and it is active exactly when one of its
/// process's listed records is.
pub open spec fn merged_from(rs: Seq<SessionRecord>, v: SessionView) -> bool {
    &&& v.pid != 0
    &&& !is_system_process_spec(v.exe)
    &&& v.display == display_name_spec(v.exe)
    &&& exists|i: int| #[trigger] first_listed(rs, i, v.pid) && rs[i].exe->0@ == v.exe
    &&& v.is_active <==> exists|i: int| #[trigger] listed_with_pid(rs, i, v.pid) && rs[i].is_active
}

/// A process's first listed record, and its executable, stay the same when a record
/// is appended.
proof fn lemma_first_listed_kept(rs: Seq<SessionRecord>, pid: u32, exe: Seq<char>)
    requires
        rs.len() > 0,
        exists|i: int| #[trigger] first_listed(rs.drop_last(), i, pid) && rs.drop_last()[i].exe->0@ == exe,
    ensures
        exists|i: int| #[trigger] first_listed(rs, i, pid) && rs[i].exe->0@ == exe,
{
    let pre = rs.drop_last();
    let w = choose|i: int| #[trigger] first_listed(pre, i, pid) && pre[i].exe->0@ == exe;
    assert forall|j: int| 0 <= j < w implies !#[trigger] listed_with_pid(rs, j, pid) by {
        assert(!listed_with_pid(pre, j, pid));
        assert(pre[j] == rs[j]);
    }
    assert(rs[w] == pre[w]);
    assert(first_listed(rs, w, pid));
}

/// Merging lists each process that has a listed record exactly once, and each merged
/// session is what its process's listed records make of it.
pub proof fn lemma_merge_sessions(rs: Seq<SessionRecord>)
    ensures
        pids_distinct(merge_sessions(rs)),
        forall|k: int|
            0 <= k < merge_sessions(rs).len() ==> merged_from(rs, #[trigger] merge_sessions(rs)[k]),
        forall|i: int|
            0 <= i < rs.len() && record_listed(#[trigger] rs[i]) ==> has_pid(merge_sessions(rs), rs[i].pid),
    decreases rs.len(),
{
    if rs.len() == 0 {
        return;
    }
    let pre = rs.drop_last();
    let n = pre.len() as int;
    let r = rs.last();
    let prev = merge_sessions(pre);
    let m = merge_sessions(rs);
    lemma_merge_sessions(pre);
    assert forall|i: int, p: u32| 0 <= i < n implies
        (#[trigger] listed_with_pid(pre, i, p) <==> listed_with_pid(rs, i, p)) by {
        assert(pre[i] == rs[i]);
    }
    if !record_listed(r) {
        assert(m == prev);
        assert forall|k: int| 0 <= k < m.len() implies merged_from(rs, #[trigger] m[k]) by {
            let v = m[k];
            assert(merged_from(pre, v));
            lemma_first_listed_kept(rs, v.pid, v.exe);
            if v.is_active {
                let a = choose|i: int| #[trigger] listed_with_pid(pre, i, v.pid) && pre[i].is_active;
                assert(listed_with_pid(rs, a, v.pid) && rs[a].is_active);
            }
            if exists|i: int| #[trigger] listed_with_pid(rs, i, v.pid) && rs[i].is_active {
                let a = choose|i: int| #[trigger] listed_with_pid(rs, i, v.pid) && rs[i].is_active;
                assert(a < n);
                assert(listed_with_pid(pre, a, v.pid) && pre[a].is_active);
            }
        }
        assert forall|i: int| 0 <= i < rs.len() && record_listed(#[trigger] rs[i]) implies has_pid(m, rs[i].pid) by {
            assert(i < n);
            assert(pre[i] == rs[i]);
        }
    } else if has_pid(prev, r.pid) {
        assert(m == mark_active(prev, r.pid, r.is_active));
        assert forall|k: int| 0 <= k < m.len() implies merged_from(rs, #[trigger] m[k]) by {
            let u = prev[k];
            let v = m[k];
            assert(merged_from(pre, u));
            lemma_first_listed_kept(rs, u.pid, u.exe);
            if u.is_active {
                let a = choose|i: int| #[trigger] listed_with_pid(pre, i, u.pid) && pre[i].is_active;
                assert(listed_with_pid(rs, a, v.pid) && rs[a].is_active);
            }
            if v.pid == r.pid && r.is_active {
                assert(listed_with_pid(rs, n, v.pid) && rs[n].is_active);
            }
            if exists|i: int| #[trigger] listed_with_pid(rs, i, v.pid) && rs[i].is_active {
                let a = choose|i: int| #[trigger] listed_with_pid(rs, i, v.pid) && rs[i].is_active;
                if a < n {
                    assert(listed_with_pid(pre, a, v.pid) && pre[a].is_active);
                }
            }
        }
        assert forall|a: int, b: int| 0 <= a < b < m.len() implies (#[trigger] m[a]).pid != (#[trigger] m[b]).pid by {
            assert(m[a].pid == prev[a].pid && m[b].pid == prev[b].pid);
        }
        assert forall|i: int| 0 <= i < rs.len() && record_listed(#[trigger] rs[i]) implies has_pid(m, rs[i].pid) by {
            if i < n {
                assert(pre[i] == rs[i]);
                assert(has_pid(prev, rs[i].pid));
                let k = choose|k: int| 0 <= k < prev.len() && (#[trigger] prev[k]).pid == rs[i].pid;
                assert(m[k].pid == rs[i].pid);
            } else {
                let k = choose|k: int| 0 <= k < prev.len() && (#[trigger] prev[k]).pid == r.pid;
                assert(m[k].pid == r.pid);
            }
        }
    } else {
        assert(m == prev.push(record_session(r)));
        assert forall|j: int| 0 <= j < n implies !#[trigger] listed_with_pid(rs, j, r.pid) by {
            if listed_with_pid(rs, j, r.pid) {
                assert(pre[j] == rs[j]);
                assert(record_listed(pre[j]));
            }
        }
        assert forall|k: int| 0 <= k < m.len() implies merged_from(rs, #[trigger] m[k]) by {
            let v = m[k];
            if k == prev.len() {
                assert(first_listed(rs, n, v.pid));
                if exists|i: int| #[trigger] listed_with_pid(rs, i, v.pid) && rs[i].is_active {
                    let a = choose|i: int| #[trigger] listed_with_pid(rs, i, v.pid) && rs[i].is_active;
                    assert(a == n);
                }
                if v.is_active {
                    assert(listed_with_pid(rs, n, v.pid) && rs[n].is_active);
                }
            } else {
                assert(v == prev[k]);
                assert(merged_from(pre, v));
                assert(v.pid != r.pid);
                lemma_first_listed_kept(rs, v.pid, v.exe);
                if v.is_active {
                    let a = choose|i: int| #[trigger] listed_with_pid(pre, i, v.pid) && pre[i].is_active;
                    assert(listed_with_pid(rs, a, v.pid) && rs[a].is_active);
                }
                if exists|i: int| #[trigger] listed_with_pid(rs, i, v.pid) && rs[i].is_active {
                    let a = choose|i: int| #[trigger] listed_with_pid(rs, i, v.pid) && rs[i].is_active;
                    assert(a < n);
                    assert(listed_with_pid(pre, a, v.pid) && pre[a].is_active);
                }
            }
        }
        assert forall|a: int, b: int| 0 <= a < b < m.len() implies (#[trigger] m[a]).pid != (#[trigger] m[b]).pid by {
            if b == prev.len() {
                assert(m[a] == prev[a]);
            } else {
                assert(m[a] == prev[a] && m[b] == prev[b]);
            }
        }
        assert forall|i: int| 0 <= i < rs.len() && record_listed(#[trigger] rs[i]) implies has_pid(m, rs[i].pid) by {
            if i < n {
                assert(pre[i] == rs[i]);
                assert(has_pid(prev, rs[i].pid));
                let k = choose|k: int| 0 <= k < prev.len() && (#[trigger] prev[k]).pid == rs[i].pid;
                assert(m[k] == prev[k]);
            } else {
                assert(m[prev.len() as int].pid == r.pid);
            }
        }
    }
}


/// The sessions offered as capture sources, built from the sessions the device reports:
/// records of process 0, of an unknown executable or of a system process are left out;
/// each remaining process appears once, with the executable of its first record, the
/// display name of that executable, and active when any of its records is; active
/// sessions come first, then sessions by lower-cased display name. Sessions that tie
/// in that order come in no promised order.
pub fn collect_sessions(records: &Vec<SessionRecord>) -> (out: Vec<AudioSession>)
    ensures
        out.len() == merge_sessions(records@).len(),
        sessions_sorted(session_views(out@)),
        pids_distinct(session_views(out@)),
        forall|j: int|
            0 <= j < out.len() ==> merge_sessions(records@).contains(#[trigger] out@[j]@),
        forall|k: int|
            0 <= k < merge_sessions(records@).len() ==> session_views(out@).contains(
                #[trigger] merge_sessions(records@)[k],
            ),
        forall|j: int| 0 <= j < out.len() ==> merged_from(records@, #[trigger] out@[j]@),
        forall|i: int|
            0 <= i < records.len() && record_listed(#[trigger] records@[i]) ==> exists|j: int|
                0 <= j < out.len() && (#[trigger] out@[j]).pid == records@[i].pid,
{
    let merged = merge_records(records.as_slice());
    let out = sort_sessions(&merged);
    proof {
        let ms = merge_sessions(records@);
        lemma_merge_sessions(records@);
        assert forall|j: int| 0 <= j < out.len() implies merged_from(records@, #[trigger] out@[j]@) by {
            assert(ms.contains(out@[j]@));
            let k = choose|k: int| 0 <= k < ms.len() && ms[k] == out@[j]@;
            assert(merged_from(records@, ms[k]));
        }
        assert forall|i: int| 0 <= i < records.len() && record_listed(#[trigger] records@[i]) implies exists|j: int|
            0 <= j < out.len() && (#[trigger] out@[j]).pid == records@[i].pid by {
            assert(has_pid(ms, records@[i].pid));
            let k = choose|k: int| 0 <= k < ms.len() && (#[trigger] ms[k]).pid == records@[i].pid;
            assert(session_views(merged@)[k] == ms[k]);
            assert(session_views(out@).contains(ms[k]));
            let j = choose|j: int| 0 <= j < out.len() && session_views(out@)[j] == ms[k];
            assert(out@[j].pid == records@[i].pid);
        }
    }
    out
}


/// In a sorted session list every active session comes before every inactive one, and
/// sessions of equal activity come in order of their lower-cased display names.
pub proof fn lemma_sorted_sessions_order(s: Seq<SessionView>, i: int, j: int)
    requires
        sessions_sorted(s),
        0 <= i < j < s.len(),
    ensures
        s[j].is_active ==> s[i].is_active,
        s[i].is_active == s[j].is_active ==> !lex_lt(lowercase(s[j].display), lowercase(s[i].display)),
{
    assert(!listed_before(s[j], s[i]));
}

} // verus!
