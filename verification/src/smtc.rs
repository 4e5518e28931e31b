//! "Now playing" bookkeeping: which media session is followed, how its properties
//! become a [`NowPlaying`] record, and how the poller's cache is updated and read.

use vstd::prelude::*;
use crate::text::{
    before_first, chars_of, remove_suffix, split_first, string_from_chars, to_lowercase, trim,
    lemma_before_first_absent, lemma_before_first_prefix, lemma_trim_unpadded, lowercase, trim_spec, white_space,
    without_suffix,
};

verus! {

/// An application user model id reduced to what is compared with a chosen executable:
/// the part before the first '!', lower-cased, without a trailing ".exe".
pub open spec fn normalize_aumid_spec(aumid: Seq<char>) -> Seq<char> {
    without_suffix(lowercase(before_first(aumid, '!')), ".exe"@)
}

/// An executable name as the user picks it, reduced the same way: white space trimmed,
/// lower-cased, without a trailing ".exe".
pub open spec fn normalize_exe_spec(exe: Seq<char>) -> Seq<char> {
    without_suffix(lowercase(trim_spec(exe)), ".exe"@)
}

/// Reduces an application user model id to a lower-case base name,
/// e.g. "Spotify.exe" to "spotify" and "Microsoft.Edge_8wekyb3d8bbwe!App" to
/// "microsoft.edge_8wekyb3d8bbwe".
pub fn normalize_aumid(aumid: &str) -> (r: String)
    ensures
        r@ == normalize_aumid_spec(aumid@),
{
    let chars = chars_of(aumid);
    let head = split_first(chars.as_slice(), '!');
    let head_str = string_from_chars(head.as_slice());
    let lower = to_lowercase(head_str.as_str());
    let lower_chars = chars_of(lower.as_str());
    let ext = chars_of(".exe");
    let base = remove_suffix(lower_chars.as_slice(), ext.as_slice());
    string_from_chars(base.as_slice())
}

/// Reduces a chosen executable name to the form that [`normalize_aumid`] produces.
pub fn normalize_exe(exe: &str) -> (r: String)
    ensures
        r@ == normalize_exe_spec(exe@),
{
    let trimmed = trim(exe);
    let lower = to_lowercase(trimmed.as_str());
    let lower_chars = chars_of(lower.as_str());
    let ext = chars_of(".exe");
    let base = remove_suffix(lower_chars.as_slice(), ext.as_slice());
    string_from_chars(base.as_slice())
}

/// The application whose media session the user wants to follow, as a normalized base
/// name; `None` follows the session that the system calls current.
pub struct TargetExe {
    exe: Option<String>,
}

impl View for TargetExe {
    type V = Option<Seq<char>>;

    closed spec fn view(&self) -> Option<Seq<char>> {
        match self.exe {
            Some(s) => Some(s@),
            None => None,
        }
    }
}

impl TargetExe {
    /// No application chosen.
    pub fn new() -> (t: TargetExe)
        ensures
            t@ is None,
    {
        TargetExe { exe: None }
    }

    /// A copy of this choice.
    pub fn copy(&self) -> (r: TargetExe)
        ensures
            r@ == self@,
    {
        TargetExe { exe: target_exe(self) }
    }
}

/// The chosen application's normalized name, `None` when none is chosen.
pub fn target_exe(t: &TargetExe) -> (r: Option<String>)
    ensures
        r is Some <==> t@ is Some,
        r matches Some(s) ==> t@ == Some(s@),
{
    match &t.exe {
        Some(s) => Some(s.clone()),
        None => None,
    }
}

/// Chooses the application to follow: `exe` normalized as [`normalize_exe`] does, or
/// none.
pub fn set_smtc_target_exe(t: &mut TargetExe, exe: Option<String>)
    ensures
        final(t)@ == match exe {
            Some(s) => Some(normalize_exe_spec(s@)),
            None => None,
        },
{
    let normalized = match exe {
        Some(s) => Some(normalize_exe(s.as_str())),
        None => None,
    };
    t.exe = normalized;
}

/// Session `i` of `aumids` belongs to the application `target`.
pub open spec fn session_matches(aumids: Seq<Option<String>>, i: int, target: Seq<char>) -> bool {
    0 <= i < aumids.len() && aumids[i] is Some && normalize_aumid_spec(aumids[i]->0@) == target
}

/// Every session is eligible: session `i` matches exactly when its id is present and
/// normalizes to the target, whatever its position.
pub proof fn lemma_session_matches(aumids: Seq<Option<String>>, i: int, target: Seq<char>)
    ensures
        session_matches(aumids, i, target) <==> (0 <= i < aumids.len() && (aumids[i] matches Some(a)
            && normalize_aumid_spec(a@) == target)),
{
}

/// The session to show, given the user model ids of the open media sessions in order
/// (`None` where one could not be read): the first whose id normalizes to the chosen
/// application, or `None` for the system's current session when no application is
/// chosen or no session matches.
pub fn pick_session(t: &TargetExe, aumids: &Vec<Option<String>>) -> (r: Option<usize>)
    ensures
        t@ is None ==> r is None,
        t@ matches Some(target) ==> match r {
            Some(i) => session_matches(aumids@, i as int, target) && forall|j: int|
                0 <= j < i ==> !#[trigger] session_matches(aumids@, j, target),
            None => forall|j: int| !#[trigger] session_matches(aumids@, j, target),
        },
        t@ matches Some(target) ==> forall|i: int|
            0 <= i < aumids@.len() && #[trigger] aumids@[i] is Some && normalize_aumid_spec(
                aumids@[i]->0@,
            ) == target ==> (r matches Some(j) && j <= i),
        r matches Some(j) ==> j < aumids@.len() && (aumids@[j as int] matches Some(a) && t@ == Some(
            normalize_aumid_spec(a@),
        )),
{
    let target = match target_exe(t) {
        Some(s) => s,
        None => return None,
    };
    let mut i: usize = 0;
    while i < aumids.len()
        invariant
            0 <= i <= aumids.len(),
            t@ == Some(target@),
            forall|j: int| 0 <= j < i ==> !#[trigger] session_matches(aumids@, j, target@),
        decreases aumids.len() - i,
    {
        match &aumids[i] {
            Some(aumid) => {
                let base = normalize_aumid(aumid.as_str());
                if base == target {
                    proof {
                        assert forall|k: int|
                            0 <= k < aumids@.len() && #[trigger] aumids@[k] is Some
                                && normalize_aumid_spec(aumids@[k]->0@) == target@ implies k >= i by {
                            if k < i {
                                assert(session_matches(aumids@, k, target@));
                            }
                        }
                    }
                    return Some(i);
                }
            },
            None => {},
        }
        i = i + 1;
    }
    proof {
        assert forall|k: int|
            0 <= k < aumids@.len() && #[trigger] aumids@[k] is Some && normalize_aumid_spec(
                aumids@[k]->0@,
            ) == target@ implies false by {
            assert(session_matches(aumids@, k, target@));
        }
    }
    None
}


/// Picking an application by its executable name follows that application's media
/// session when the session's user model id is that same name: for a name without
/// '!' that neither starts nor ends with white space, the chosen target and the
/// session's normalized id agree.
pub proof fn lemma_exe_selects_own_session(exe: Seq<char>)
    requires
        !exe.contains('!'),
        exe.len() > 0 ==> !white_space(exe[0]) && !white_space(exe.last()),
    ensures
        normalize_exe_spec(exe) == normalize_aumid_spec(exe),
{
    lemma_before_first_absent(exe, '!');
    lemma_trim_unpadded(exe);
}


/// Everything from the first '!' of a user model id on is ignored: an id and the same
/// id followed by '!' and any text normalize alike.
pub proof fn lemma_aumid_ignores_after_bang(a: Seq<char>, b: Seq<char>)
    requires
        !a.contains('!'),
    ensures
        normalize_aumid_spec(a + seq!['!'] + b) == normalize_aumid_spec(a),
{
    let s = a + seq!['!'] + b;
    assert forall|j: int| 0 <= j < a.len() implies s[j] != '!' by {
        assert(s[j] == a[j]);
    }
    lemma_before_first_prefix(s, '!', a.len() as int);
    assert(s.take(a.len() as int) =~= a);
    assert(s.skip(a.len() as int)[0] == '!');
    assert(before_first(s.skip(a.len() as int), '!') =~= Seq::<char>::empty());
    assert(before_first(s, '!') =~= a);
    lemma_before_first_absent(a, '!');
}

} // verus!
