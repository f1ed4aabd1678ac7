//! The update decision: whether a newer version than the configured one is
//! available, by semantic-version order where both versions parse, by plain
//! string inequality otherwise.
use vstd::prelude::*;

verus! {

/// What comparing two version strings under semantic-version rules yields:
/// `Some(true)` when the second is strictly newer, `Some(false)` when it is
/// not, `None` when either string is not a semantic version. A function of
/// the two strings alone.
pub uninterp spec fn sem_newer(current: Seq<char>, latest: Seq<char>) -> Option<bool>;

/// Relies on `semver::Version::parse` and the `Ord` order of
/// `semver::Version`: parses both strings and compares them; both results
/// depend on the characters alone.
#[verifier::external_body]
fn compare_semver(current: &str, latest: &str) -> (r: Option<bool>)
    ensures
        r == sem_newer(current@, latest@),
{
    let c = semver::Version::parse(current).ok();
    let l = semver::Version::parse(latest).ok();
    match (c, l) {
        (Some(c), Some(l)) => Some(l > c),
        _ => None,
    }
}

/// The version string with one leading `v` removed.
pub open spec fn strip_v(s: Seq<char>) -> Seq<char> {
    if s.len() > 0 && s[0] == 'v' {
        s.skip(1)
    } else {
        s
    }
}

fn strip_v_exec(s: &str) -> (r: String)
    ensures
        r@ == strip_v(s@),
{
    let cs = crate::text::str_to_chars(s);
    if cs.len() > 0 && cs[0] == 'v' {
        let rest = crate::text::copy_range(cs.as_slice(), 1, cs.len());
        proof {
            assert(rest@ =~= s@.skip(1));
        }
        crate::text::chars_to_string(&rest)
    } else {
        let whole = crate::text::copy_range(cs.as_slice(), 0, cs.len());
        proof {
            assert(whole@ =~= s@);
        }
        crate::text::chars_to_string(&whole)
    }
}

/// Whether the latest version the repository offers counts as an update
/// over the configured one: by semantic-version order after dropping a
/// leading `v` from each, and by plain inequality of the raw strings when
/// either does not parse.
pub fn is_update_available(current: &str, latest: &str) -> (r: bool)
    ensures
        r == match sem_newer(strip_v(current@), strip_v(latest@)) {
            Some(newer) => newer,
            None => current@ != latest@,
        },
{
    let c = strip_v_exec(current);
    let l = strip_v_exec(latest);
    match compare_semver(c.as_str(), l.as_str()) {
        Some(newer) => newer,
        None => !crate::text::str_eq(current, latest),
    }
}

} // verus!
