//! The remote synchronization policy: compare the local report against the
//! remote copy and decide, last-writer-wins by timestamps, which side is
//! overwritten. Contents are compared with surrounding whitespace trimmed.

use crate::report::Report;
use crate::text::trim_chars;
use vstd::prelude::*;
use vstd::string::StrSliceExecFns;

verus! {

/// The outcome of one sync pass.
#[derive(Debug, Clone, Copy, PartialEq, Eq, Structural)]
pub enum SyncDecision {
    /// Trimmed contents already agree: neither side is written.
    AlreadyConsistent,
    /// The remote copy wins: persist it locally.
    TakeRemote,
    /// The local copy wins: push it to the remote side.
    PushLocal,
}

/// Local wins unless it is missing or strictly older than the remote copy.
pub open spec fn remote_wins(local_last_updated: Option<i64>, remote_last_updated: i64) -> bool {
    match local_last_updated {
        None => true,
        Some(lm) => lm < remote_last_updated,
    }
}

/// The full sync policy over trimmed report texts and timestamps.
pub open spec fn sync_decision(
    local: Seq<char>,
    local_last_updated: Option<i64>,
    remote: Seq<char>,
    remote_last_updated: i64,
) -> SyncDecision {
    if trim_chars(local) == trim_chars(remote) {
        SyncDecision::AlreadyConsistent
    } else if remote_wins(local_last_updated, remote_last_updated) {
        SyncDecision::TakeRemote
    } else {
        SyncDecision::PushLocal
    }
}

/// A missing local report, or one whose modification time lies strictly
/// before the remote update time, is overwritten from the remote copy.
pub fn should_update_local_file_from_gist(
    local_last_updated: Option<i64>,
    gist_last_updated: i64,
) -> (r: bool)
    ensures
        r == remote_wins(local_last_updated, gist_last_updated),
{
    match local_last_updated {
        None => true,
        Some(lm) => lm < gist_last_updated,
    }
}

/// Whether two equally long char ranges of `a` and `b` hold the same
/// characters.
fn range_eq(
    a: &str,
    na: usize,
    a0: usize,
    a1: usize,
    b: &str,
    nb: usize,
    b0: usize,
    b1: usize,
) -> (r: bool)
    requires
        na == a@.len(),
        nb == b@.len(),
        a0 <= a1 <= na,
        b0 <= b1 <= nb,
        a1 - a0 == b1 - b0,
    ensures
        r == (a@.subrange(a0 as int, a1 as int) == b@.subrange(b0 as int, b1 as int)),
{
    let ghost ta = a@.subrange(a0 as int, a1 as int);
    let ghost tb = b@.subrange(b0 as int, b1 as int);
    let len = a1 - a0;
    let mut i: usize = 0;
    while i < len
        invariant
            0 <= i <= len,
            a0 <= a1 <= na == a@.len(),
            b0 <= b1 <= nb == b@.len(),
            len == a1 - a0 == b1 - b0,
            ta == a@.subrange(a0 as int, a1 as int),
            tb == b@.subrange(b0 as int, b1 as int),
            forall|j: int| 0 <= j < i ==> #[trigger] ta[j] == tb[j],
        decreases len - i,
    {
        let ca = a.get_char(a0 + i);
        let cb = b.get_char(b0 + i);
        proof {
            assert(ta[i as int] == a@[a0 + i]);
            assert(tb[i as int] == b@[b0 + i]);
        }
        if ca != cb {
            proof {
                assert(ta[i as int] != tb[i as int]);
            }
            return false;
        }
        i = i + 1;
    }
    proof {
        assert(ta =~= tb);
    }
    true
}

/// Whether `a` and `b` are equal after trimming ASCII whitespace from both
/// ends.
pub fn trimmed_eq(a: &str, b: &str) -> (r: bool)
    ensures
        r == (trim_chars(a@) == trim_chars(b@)),
{
    let na = a.unicode_len();
    let nb = b.unicode_len();
    proof {
        assert(a@.subrange(0, na as int) =~= a@);
        assert(b@.subrange(0, nb as int) =~= b@);
    }
    let (a0, a1) = crate::text::trim_range(a, na, 0, na);
    let (b0, b1) = crate::text::trim_range(b, nb, 0, nb);
    let ghost ta = a@.subrange(a0 as int, a1 as int);
    let ghost tb = b@.subrange(b0 as int, b1 as int);
    if a1 - a0 != b1 - b0 {
        proof {
            assert(ta.len() != tb.len());
        }
        return false;
    }
    range_eq(a, na, a0, a1, b, nb, b0, b1)
}

/// Decides one sync pass for the local report (with its optional
/// modification time) against the remote report (with its update time).
pub fn decide_sync(
    local: &Report,
    local_last_updated: Option<i64>,
    remote: &Report,
    remote_last_updated: i64,
) -> (r: SyncDecision)
    ensures
        r == sync_decision(local.0@, local_last_updated, remote.0@, remote_last_updated),
{
    if trimmed_eq(local.0.as_str(), remote.0.as_str()) {
        SyncDecision::AlreadyConsistent
    } else if should_update_local_file_from_gist(local_last_updated, remote_last_updated) {
        SyncDecision::TakeRemote
    } else {
        SyncDecision::PushLocal
    }
}

/// Sync direction: trimmed-equal contents are left alone; otherwise a
/// missing or strictly older local copy is overwritten from the remote, and
/// in every other case the local copy is pushed to the remote.
pub proof fn lemma_sync_direction(
    local: Seq<char>,
    local_last_updated: Option<i64>,
    remote: Seq<char>,
    remote_last_updated: i64,
)
    ensures
        trim_chars(local) == trim_chars(remote) ==> sync_decision(
            local,
            local_last_updated,
            remote,
            remote_last_updated,
        ) == SyncDecision::AlreadyConsistent,
        trim_chars(local) != trim_chars(remote) && local_last_updated is None ==> sync_decision(
            local,
            local_last_updated,
            remote,
            remote_last_updated,
        ) == SyncDecision::TakeRemote,
        trim_chars(local) != trim_chars(remote) && local_last_updated is Some
            && local_last_updated.unwrap() < remote_last_updated ==> sync_decision(
            local,
            local_last_updated,
            remote,
            remote_last_updated,
        ) == SyncDecision::TakeRemote,
        trim_chars(local) != trim_chars(remote) && local_last_updated is Some
            && local_last_updated.unwrap() >= remote_last_updated ==> sync_decision(
            local,
            local_last_updated,
            remote,
            remote_last_updated,
        ) == SyncDecision::PushLocal,
{
}

} // verus!
