//! The coarse service status and the pure classifier that turns raw
//! diagnostic text into one.

use vstd::prelude::*;
use vstd::string::*;

verus! {

/// Operational state of one watched service. `Unknown` is the implicit
/// initial value of a newly discovered service, before its first probe
/// result is classified.
#[derive(Clone, Copy, Debug, PartialEq, Eq, Structural)]
pub enum Status {
    Online,
    Offline,
    Errored,
    Unknown,
}

/// `needle` occurs in `hay` starting at position `i`.
pub open spec fn has_substr_at(hay: Seq<char>, needle: Seq<char>, i: int) -> bool {
    &&& 0 <= i
    &&& i + needle.len() <= hay.len()
    &&& hay.subrange(i, i + needle.len() as int) == needle
}

/// `needle` occurs somewhere in `hay`.
pub open spec fn has_substr(hay: Seq<char>, needle: Seq<char>) -> bool {
    exists|i: int| has_substr_at(hay, needle, i)
}

/// What the classifier returns: text mentioning an active unit is `Online`,
/// text mentioning an inactive unit is `Offline`, anything else (failed
/// unit, unrecognized text) is `Errored`. The active check comes first, so
/// text holding both markers classifies as `Online`.
pub open spec fn spec_classify(text: Seq<char>) -> Status {
    if has_substr(text, "Active: active"@) {
        Status::Online
    } else if has_substr(text, "Active: inactive"@) {
        Status::Offline
    } else {
        Status::Errored
    }
}

/// `needle` occurs in `hay` at position `i` (character-wise comparison).
fn matches_at(hay: &str, needle: &str, i: usize) -> (r: bool)
    requires
        i + needle@.len() <= hay@.len(),
    ensures
        r == has_substr_at(hay@, needle@, i as int),
{
    let hay_len = hay.unicode_len();
    let needle_len = needle.unicode_len();
    let mut j: usize = 0;
    while j < needle_len
        invariant
            i + needle_len <= hay_len,
            hay_len == hay@.len(),
            needle_len == needle@.len(),
            j <= needle_len,
            forall|k: int| 0 <= k < j ==> hay@[i + k] == needle@[k],
        decreases needle_len - j,
    {
        if hay.get_char(i + j) != needle.get_char(j) {
            proof {
                assert(!has_substr_at(hay@, needle@, i as int)) by {
                    if hay@.subrange(i as int, i + needle@.len() as int) == needle@ {
                        assert(hay@.subrange(i as int, i + needle@.len() as int)[j as int]
                            == hay@[i + j]);
                    }
                }
            }
            return false;
        }
        j += 1;
    }
    proof {
        assert(hay@.subrange(i as int, i + needle@.len() as int) =~= needle@);
    }
    true
}

/// True exactly when `needle` occurs as a contiguous substring of `hay`.
pub fn contains_substr(hay: &str, needle: &str) -> (r: bool)
    ensures
        r == has_substr(hay@, needle@),
{
    let hay_len = hay.unicode_len();
    let needle_len = needle.unicode_len();
    if needle_len > hay_len {
        proof {
            assert(forall|i: int| !has_substr_at(hay@, needle@, i));
        }
        return false;
    }
    if needle_len == 0 {
        proof {
            assert(hay@.subrange(0, 0) =~= needle@);
            assert(has_substr_at(hay@, needle@, 0));
        }
        return true;
    }
    let mut i: usize = 0;
    while i <= hay_len - needle_len
        invariant
            1 <= needle_len <= hay_len,
            hay_len == hay@.len(),
            needle_len == needle@.len(),
            i <= hay_len - needle_len + 1,
            forall|k: int| 0 <= k < i ==> !has_substr_at(hay@, needle@, k),
        decreases hay_len - needle_len + 1 - i,
    {
        if matches_at(hay, needle, i) {
            return true;
        }
        i += 1;
    }
    proof {
        assert(forall|k: int| has_substr_at(hay@, needle@, k) ==> 0 <= k <= hay@.len() - needle@.len());
    }
    false
}

/// Classifies raw status text captured from the service manager into a
/// coarse `Status`, by substring search as `spec_classify` states.
pub fn systemctl_capture_to_status(capture: String) -> (s: Status)
    ensures
        s == spec_classify(capture@),
{
    if contains_substr(capture.as_str(), "Active: active") {
        Status::Online
    } else if contains_substr(capture.as_str(), "Active: inactive") {
        Status::Offline
    } else {
        Status::Errored
    }
}

/// The remote operation name that actuates a given status: `Online` maps to
/// `setOnline`; `Offline` and `Errored` both map to `setOffline`; `Unknown`
/// maps to `setUndefined`.
pub open spec fn spec_status_fn(status: Status) -> Seq<char> {
    match status {
        Status::Online => "setOnline"@,
        Status::Offline => "setOffline"@,
        Status::Errored => "setOffline"@,
        Status::Unknown => "setUndefined"@,
    }
}

/// Returns the remote operation name for a status, as `spec_status_fn`
/// states.
pub fn get_status_fn(status: &Status) -> (r: String)
    ensures
        r@ == spec_status_fn(*status),
{
    match status {
        Status::Online => "setOnline".to_owned(),
        Status::Offline => "setOffline".to_owned(),
        Status::Errored => "setOffline".to_owned(),
        Status::Unknown => "setUndefined".to_owned(),
    }
}

} // verus!
