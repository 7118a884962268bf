//! The merge of the local overlay with the remote range, as one sequence.
//! Both sides arrive in emission order (ascending or descending by the keys'
//! big-endian integer value); the merge emits whichever head is more extreme
//! for the requested direction, prefers the local entry on a tie, and never
//! emits one key twice: a key present on both sides is emitted once, with the
//! local value.

use vstd::prelude::*;

use crate::keys::key_int;
use crate::local_storage::AbsEntry;

verus! {

/// `a` comes strictly before `b` in emission order.
pub open spec fn ahead(a: Seq<u8>, b: Seq<u8>, reverse: bool) -> bool {
    if reverse {
        key_int(b) < key_int(a)
    } else {
        key_int(a) < key_int(b)
    }
}

/// The stable merge of the local and remote sequences: the head more extreme
/// for the direction is emitted first; a key present on both sides is emitted
/// once with the local value; a tie on the integer value prefers the local
/// entry.
pub open spec fn merged(local: Seq<AbsEntry>, remote: Seq<AbsEntry>, reverse: bool) -> Seq<
    AbsEntry,
>
    decreases local.len() + remote.len(),
{
    if local.len() == 0 {
        remote
    } else if remote.len() == 0 {
        local
    } else if remote[0].0 == local[0].0 {
        seq![local[0]] + merged(local.drop_first(), remote.drop_first(), reverse)
    } else if ahead(remote[0].0, local[0].0, reverse) {
        seq![remote[0]] + merged(local, remote.drop_first(), reverse)
    } else {
        seq![local[0]] + merged(local.drop_first(), remote, reverse)
    }
}

/// Some entry of `s` carries the key `k`.
pub open spec fn has_key(s: Seq<AbsEntry>, k: Seq<u8>) -> bool {
    exists|m: int| 0 <= m < s.len() && (#[trigger] s[m]).0 == k
}

/// Keys strictly advance in emission order.
pub open spec fn emission_sorted(s: Seq<AbsEntry>, reverse: bool) -> bool {
    forall|i: int, j: int|
        0 <= i < j < s.len() ==> ahead(#[trigger] s[i].0, #[trigger] s[j].0, reverse)
}

/// No two entries carry the same key.
pub open spec fn distinct_keys(s: Seq<AbsEntry>) -> bool {
    forall|i: int, j: int| 0 <= i < j < s.len() ==> (#[trigger] s[i].0) != (#[trigger] s[j].0)
}

/// A key of a tail is a key of the whole.
proof fn lemma_has_key_tail(s: Seq<AbsEntry>, k: Seq<u8>)
    requires
        s.len() > 0,
        has_key(s.drop_first(), k),
    ensures
        has_key(s, k),
{
    let m = choose|m: int| 0 <= m < s.drop_first().len() && (#[trigger] s.drop_first()[m]).0 == k;
    assert(s[m + 1].0 == k);
}

/// Every key of the merge comes from one of the sides.
pub proof fn lemma_merged_keys(local: Seq<AbsEntry>, remote: Seq<AbsEntry>, reverse: bool)
    ensures
        forall|j: int|
            0 <= j < merged(local, remote, reverse).len() ==> has_key(
                local,
                (#[trigger] merged(local, remote, reverse)[j]).0,
            ) || has_key(remote, merged(local, remote, reverse)[j].0),
    decreases local.len() + remote.len(),
{
    let r = merged(local, remote, reverse);
    if local.len() == 0 {
        assert forall|j: int| 0 <= j < r.len() implies has_key(local, (#[trigger] r[j]).0)
            || has_key(remote, r[j].0) by {
            assert(remote[j].0 == r[j].0);
        }
    } else if remote.len() == 0 {
        assert forall|j: int| 0 <= j < r.len() implies has_key(local, (#[trigger] r[j]).0)
            || has_key(remote, r[j].0) by {
            assert(local[j].0 == r[j].0);
        }
    } else if remote[0].0 == local[0].0 {
        lemma_merged_keys(local.drop_first(), remote.drop_first(), reverse);
        let t = merged(local.drop_first(), remote.drop_first(), reverse);
        assert(r == seq![local[0]] + t);
        assert forall|j: int| 0 <= j < r.len() implies has_key(local, (#[trigger] r[j]).0)
            || has_key(remote, r[j].0) by {
            if j == 0 {
                assert(local[0].0 == r[0].0);
            } else {
                assert(r[j] == t[j - 1]);
                if has_key(local.drop_first(), t[j - 1].0) {
                    lemma_has_key_tail(local, t[j - 1].0);
                }
                if has_key(remote.drop_first(), t[j - 1].0) {
                    lemma_has_key_tail(remote, t[j - 1].0);
                }
            }
        }
    } else if ahead(remote[0].0, local[0].0, reverse) {
        lemma_merged_keys(local, remote.drop_first(), reverse);
        let t = merged(local, remote.drop_first(), reverse);
        assert(r == seq![remote[0]] + t);
        assert forall|j: int| 0 <= j < r.len() implies has_key(local, (#[trigger] r[j]).0)
            || has_key(remote, r[j].0) by {
            if j == 0 {
                assert(remote[0].0 == r[0].0);
            } else {
                assert(r[j] == t[j - 1]);
                if has_key(remote.drop_first(), t[j - 1].0) {
                    lemma_has_key_tail(remote, t[j - 1].0);
                }
            }
        }
    } else {
        lemma_merged_keys(local.drop_first(), remote, reverse);
        let t = merged(local.drop_first(), remote, reverse);
        assert(r == seq![local[0]] + t);
        assert forall|j: int| 0 <= j < r.len() implies has_key(local, (#[trigger] r[j]).0)
            || has_key(remote, r[j].0) by {
            if j == 0 {
                assert(local[0].0 == r[0].0);
            } else {
                assert(r[j] == t[j - 1]);
                if has_key(local.drop_first(), t[j - 1].0) {
                    lemma_has_key_tail(local, t[j - 1].0);
                }
            }
        }
    }
}

/// In an emission-sorted sequence, every key of the tail is strictly behind
/// the head.
proof fn lemma_sorted_tail_behind(s: Seq<AbsEntry>, k: Seq<u8>, reverse: bool)
    requires
        emission_sorted(s, reverse),
        s.len() > 0,
        has_key(s.drop_first(), k),
    ensures
        ahead(s[0].0, k, reverse),
{
    let m = choose|m: int| 0 <= m < s.drop_first().len() && (#[trigger] s.drop_first()[m]).0 == k;
    assert(s[m + 1].0 == k);
    assert(ahead(s[0].0, s[m + 1].0, reverse));
}

/// The merge of two emission-sorted sequences never steps backwards in the
/// emission order, and never repeats a key.
pub proof fn lemma_merged_sorted_distinct(
    local: Seq<AbsEntry>,
    remote: Seq<AbsEntry>,
    reverse: bool,
)
    requires
        emission_sorted(local, reverse),
        emission_sorted(remote, reverse),
    ensures
        distinct_keys(merged(local, remote, reverse)),
        forall|i: int, j: int|
            0 <= i < j < merged(local, remote, reverse).len() ==> !ahead(
                (#[trigger] merged(local, remote, reverse)[j]).0,
                (#[trigger] merged(local, remote, reverse)[i]).0,
                reverse,
            ),
    decreases local.len() + remote.len(),
{
    let r = merged(local, remote, reverse);
    if local.len() == 0 || remote.len() == 0 {
    } else {
        let l0 = local[0];
        let r0 = remote[0];
        let head = if ahead(r0.0, l0.0, reverse) && r0.0 != l0.0 {
            r0
        } else {
            l0
        };
        let t = if r0.0 == l0.0 {
            merged(local.drop_first(), remote.drop_first(), reverse)
        } else if ahead(r0.0, l0.0, reverse) {
            merged(local, remote.drop_first(), reverse)
        } else {
            merged(local.drop_first(), remote, reverse)
        };
        if r0.0 == l0.0 {
            lemma_merged_sorted_distinct(local.drop_first(), remote.drop_first(), reverse);
            lemma_merged_keys(local.drop_first(), remote.drop_first(), reverse);
        } else if ahead(r0.0, l0.0, reverse) {
            lemma_merged_sorted_distinct(local, remote.drop_first(), reverse);
            lemma_merged_keys(local, remote.drop_first(), reverse);
        } else {
            lemma_merged_sorted_distinct(local.drop_first(), remote, reverse);
            lemma_merged_keys(local.drop_first(), remote, reverse);
        }
        assert(r == seq![head] + t);
        assert forall|j: int| 0 <= j < t.len() implies t[j].0 != head.0 && !ahead(
            t[j].0,
            head.0,
            reverse,
        ) by {
            let q = t[j].0;
            if r0.0 == l0.0 {
                assert(has_key(local.drop_first(), q) || has_key(remote.drop_first(), q));
                if has_key(local.drop_first(), q) {
                    lemma_sorted_tail_behind(local, q, reverse);
                } else {
                    lemma_sorted_tail_behind(remote, q, reverse);
                }
            } else if ahead(r0.0, l0.0, reverse) {
                assert(has_key(local, q) || has_key(remote.drop_first(), q));
                if has_key(local, q) {
                    let m = choose|m: int| 0 <= m < local.len() && (#[trigger] local[m]).0 == q;
                    if m > 0 {
                        assert(ahead(local[0].0, local[m].0, reverse));
                    }
                } else {
                    lemma_sorted_tail_behind(remote, q, reverse);
                }
            } else {
                assert(has_key(local.drop_first(), q) || has_key(remote, q));
                if has_key(local.drop_first(), q) {
                    lemma_sorted_tail_behind(local, q, reverse);
                } else {
                    let m = choose|m: int| 0 <= m < remote.len() && (#[trigger] remote[m]).0 == q;
                    if m > 0 {
                        assert(ahead(remote[0].0, remote[m].0, reverse));
                    }
                }
            }
        }
        assert forall|i: int, j: int| 0 <= i < j < r.len() implies ((#[trigger] r[i]).0
            != (#[trigger] r[j]).0 && !ahead(r[j].0, r[i].0, reverse)) by {
            if i == 0 {
                assert(r[j] == t[j - 1]);
            } else {
                assert(r[i] == t[i - 1] && r[j] == t[j - 1]);
            }
        }
    }
}

} // verus!
