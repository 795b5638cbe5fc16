use vstd::prelude::*;

verus! {

/// Number of whole hours between a commit's timestamp and the present
/// moment, both given in seconds since the epoch. This is the quantity
/// the repository index sorts by; it truncates toward zero, as a signed
/// duration expressed in whole hours does.
pub fn num_hours_between(commit_secs: i64, now_secs: i64) -> (hours: i64)
    requires
        i64::MIN < now_secs - commit_secs <= i64::MAX,
    ensures
        now_secs >= commit_secs ==> hours == (now_secs - commit_secs) / 3600,
        now_secs < commit_secs ==> hours == -((commit_secs - now_secs) / 3600),
{
    if now_secs >= commit_secs {
        let diff: i64 = now_secs - commit_secs;
        diff / 3600
    } else {
        let diff: i64 = commit_secs - now_secs;
        -(diff / 3600)
    }
}

} // verus!
