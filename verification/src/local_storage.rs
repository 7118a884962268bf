//! The call-scoped local store: an association list of raw storage entries
//! kept strictly sorted by the storage key order.  It backs the overlay of
//! the forked storage and the keeper's canonical storage.

use vstd::prelude::*;

use crate::keys::key_eq;
use crate::keys::key_less;
use crate::keys::key_lt;
use crate::keys::lemma_key_lt_irrefl;
use crate::keys::lemma_key_lt_total;
use crate::keys::lemma_key_lt_trans;

verus! {

/// One raw storage entry, key and value.
pub type RawEntry = (Vec<u8>, Vec<u8>);

/// An abstract storage entry.
pub type AbsEntry = (Seq<u8>, Seq<u8>);

/// The keys of `s` are strictly ascending in the storage order.
pub open spec fn sorted(s: Seq<AbsEntry>) -> bool {
    forall|i: int, j: int| 0 <= i < j < s.len() ==> key_lt(#[trigger] s[i].0, #[trigger] s[j].0)
}

/// The value stored under `k`, if any (first match).
pub open spec fn lookup(s: Seq<AbsEntry>, k: Seq<u8>) -> Option<Seq<u8>>
    decreases s.len(),
{
    if s.len() == 0 {
        None
    } else if s[0].0 == k {
        Some(s[0].1)
    } else {
        lookup(s.drop_first(), k)
    }
}

/// `s` with `v` stored under `k`, keeping the sort order.
pub open spec fn store(s: Seq<AbsEntry>, k: Seq<u8>, v: Seq<u8>) -> Seq<AbsEntry>
    decreases s.len(),
{
    if s.len() == 0 {
        seq![(k, v)]
    } else if s[0].0 == k {
        seq![(k, v)] + s.drop_first()
    } else if key_lt(k, s[0].0) {
        seq![(k, v)] + s
    } else {
        seq![s[0]] + store(s.drop_first(), k, v)
    }
}

/// `s` with any entry under `k` removed.
pub open spec fn erase(s: Seq<AbsEntry>, k: Seq<u8>) -> Seq<AbsEntry>
    decreases s.len(),
{
    if s.len() == 0 {
        s
    } else if s[0].0 == k {
        s.drop_first()
    } else {
        seq![s[0]] + erase(s.drop_first(), k)
    }
}

/// Whether `k` lies in the half-open range `[lo, hi)` of the storage order;
/// a missing bound is unbounded on that side.
pub open spec fn in_rng(k: Seq<u8>, lo: Option<Seq<u8>>, hi: Option<Seq<u8>>) -> bool {
    &&& match lo {
        Some(l) => !key_lt(k, l),
        None => true,
    }
    &&& match hi {
        Some(h) => key_lt(k, h),
        None => true,
    }
}

/// The entries of `s` whose keys lie in `[lo, hi)`, in the order of `s`.
pub open spec fn rng(s: Seq<AbsEntry>, lo: Option<Seq<u8>>, hi: Option<Seq<u8>>) -> Seq<AbsEntry>
    decreases s.len(),
{
    if s.len() == 0 {
        s
    } else if in_rng(s[0].0, lo, hi) {
        seq![s[0]] + rng(s.drop_first(), lo, hi)
    } else {
        rng(s.drop_first(), lo, hi)
    }
}

/// The view of an optional owned value.
pub open spec fn opt_value(o: Option<Vec<u8>>) -> Option<Seq<u8>> {
    match o {
        Some(v) => Some(v@),
        None => None,
    }
}

/// The view of an optional borrowed key.
pub open spec fn opt_key(o: Option<&[u8]>) -> Option<Seq<u8>> {
    match o {
        Some(k) => Some(k@),
        None => None,
    }
}

/// Each element of the deep view of an entry vector is the pair of views of
/// the element's fields.
pub proof fn lemma_deep_view_entries(v: &Vec<RawEntry>)
    ensures
        v.deep_view().len() == v@.len(),
        forall|i: int| 0 <= i < v@.len() ==> #[trigger] v.deep_view()[i] == (v@[i].0@, v@[i].1@),
{
    assert forall|i: int| 0 <= i < v@.len() implies #[trigger] v.deep_view()[i] == (
        v@[i].0@,
        v@[i].1@,
    ) by {
        assert(v.deep_view()[i].0 =~= v@[i].0@);
        assert(v.deep_view()[i].1 =~= v@[i].1@);
    }
}

/// An owned copy of a borrowed byte string.
pub fn copy_slice(s: &[u8]) -> (r: Vec<u8>)
    ensures
        r@ == s@,
{
    let mut out: Vec<u8> = Vec::new();
    let mut i: usize = 0;
    while i < s.len()
        invariant
            i <= s.len(),
            out@ =~= s@.take(i as int),
        decreases s.len() - i,
    {
        out.push(s[i]);
        proof {
            assert(out@ =~= s@.take(i + 1));
        }
        i += 1;
    }
    assert(out@ =~= s@);
    out
}

/// An owned copy of a byte string.
pub fn clone_bytes(v: &Vec<u8>) -> (r: Vec<u8>)
    ensures
        r@ == v@,
{
    copy_slice(v.as_slice())
}

/// An owned copy of an entry.
pub fn clone_entry(e: &RawEntry) -> (r: RawEntry)
    ensures
        r.0@ == e.0@,
        r.1@ == e.1@,
{
    (clone_bytes(&e.0), clone_bytes(&e.1))
}

/// A raw key-value store sorted strictly by the storage key order.
pub struct LocalStorage {
    entries: Vec<RawEntry>,
}

impl View for LocalStorage {
    type V = Seq<AbsEntry>;

    closed spec fn view(&self) -> Seq<AbsEntry> {
        self.entries.deep_view()
    }
}

impl LocalStorage {
    /// The sort invariant.
    pub open spec fn wf(&self) -> bool {
        sorted(self@)
    }

    /// An empty store.
    pub fn new() -> (r: LocalStorage)
        ensures
            r.wf(),
            r@ =~= Seq::<AbsEntry>::empty(),
    {
        let r = LocalStorage { entries: Vec::new() };
        proof {
            lemma_deep_view_entries(&r.entries);
        }
        r
    }

    /// The value stored under `key`, if any.
    pub fn get(&self, key: &[u8]) -> (r: Option<Vec<u8>>)
        ensures
            opt_value(r) == lookup(self@, key@),
    {
        let s = Ghost(self@);
        proof {
            lemma_deep_view_entries(&self.entries);
            assert(s@.skip(0) =~= s@);
        }
        let mut i: usize = 0;
        while i < self.entries.len()
            invariant
                i <= self.entries.len(),
                s@ == self@,
                self.entries@.len() == s@.len(),
                forall|j: int|
                    0 <= j < s@.len() ==> #[trigger] s@[j] == (
                        self.entries@[j].0@,
                        self.entries@[j].1@,
                    ),
                lookup(s@, key@) == lookup(s@.skip(i as int), key@),
            decreases self.entries.len() - i,
        {
            proof {
                assert(s@.skip(i as int)[0] == s@[i as int]);
                assert(s@.skip(i as int).drop_first() =~= s@.skip(i + 1));
            }
            if key_eq(self.entries[i].0.as_slice(), key) {
                return Some(clone_bytes(&self.entries[i].1));
            }
            i += 1;
        }
        assert(s@.skip(i as int).len() == 0);
        None
    }

    /// Stores `value` under `key`, replacing any earlier value.
    pub fn set(&mut self, key: &[u8], value: &[u8])
        requires
            old(self).wf(),
        ensures
            final(self).wf(),
            final(self)@ == store(old(self)@, key@, value@),
    {
        let ghost s = self@;
        proof {
            lemma_deep_view_entries(&self.entries);
        }
        let mut i: usize = 0;
        while i < self.entries.len() && key_less(self.entries[i].0.as_slice(), key)
            invariant
                i <= self.entries.len(),
                s == self@,
                self.entries@.len() == s.len(),
                forall|j: int|
                    0 <= j < s.len() ==> #[trigger] s[j] == (
                        self.entries@[j].0@,
                        self.entries@[j].1@,
                    ),
                forall|j: int| 0 <= j < i ==> key_lt(#[trigger] s[j].0, key@),
            decreases self.entries.len() - i,
        {
            i += 1;
        }
        proof {
            lemma_store_at(s, key@, value@, i as int);
        }
        if i < self.entries.len() && key_eq(self.entries[i].0.as_slice(), key) {
            let _old_entry = self.entries.remove(i);
            self.entries.insert(i, (copy_slice(key), copy_slice(value)));
            proof {
                lemma_deep_view_entries(&self.entries);
                assert(self@ =~= s.take(i as int) + seq![(key@, value@)] + s.skip(i + 1));
            }
        } else {
            proof {
                if i < s.len() {
                    lemma_key_lt_total(s[i as int].0, key@);
                }
            }
            self.entries.insert(i, (copy_slice(key), copy_slice(value)));
            proof {
                lemma_deep_view_entries(&self.entries);
                assert(self@ =~= s.take(i as int) + seq![(key@, value@)] + s.skip(i as int));
            }
        }
        proof {
            lemma_store_sorted(s, key@, value@);
        }
    }

    /// Removes any entry stored under `key`.
    pub fn remove(&mut self, key: &[u8])
        requires
            old(self).wf(),
        ensures
            final(self).wf(),
            final(self)@ == erase(old(self)@, key@),
    {
        let ghost s = self@;
        proof {
            lemma_deep_view_entries(&self.entries);
        }
        let mut i: usize = 0;
        while i < self.entries.len() && !key_eq(self.entries[i].0.as_slice(), key)
            invariant
                i <= self.entries.len(),
                s == self@,
                self.entries@.len() == s.len(),
                forall|j: int|
                    0 <= j < s.len() ==> #[trigger] s[j] == (
                        self.entries@[j].0@,
                        self.entries@[j].1@,
                    ),
                forall|j: int| 0 <= j < i ==> (#[trigger] s[j].0) != key@,
            decreases self.entries.len() - i,
        {
            i += 1;
        }
        proof {
            lemma_erase_at(s, key@, i as int);
        }
        if i < self.entries.len() {
            let _old_entry = self.entries.remove(i);
            proof {
                lemma_deep_view_entries(&self.entries);
                assert(self@ =~= s.take(i as int) + s.skip(i + 1));
            }
        } else {
            proof {
                assert(self@ =~= s.take(i as int));
            }
        }
        proof {
            lemma_erase_sorted(s, key@);
        }
    }

    /// The entries whose keys lie in `[start, end)`, ascending, or descending
    /// when `descending` is set.
    pub fn range(&self, start: Option<&[u8]>, end: Option<&[u8]>, descending: bool) -> (r: Vec<
        RawEntry,
    >)
        ensures
            r.deep_view() == if descending {
                rng(self@, opt_key(start), opt_key(end)).reverse()
            } else {
                rng(self@, opt_key(start), opt_key(end))
            },
    {
        let s = Ghost(self@);
        let ghost lo = opt_key(start);
        let ghost hi = opt_key(end);
        let mut out: Vec<RawEntry> = Vec::new();
        let mut i: usize = 0;
        proof {
            lemma_deep_view_entries(&self.entries);
            lemma_deep_view_entries(&out);
            assert(s@.skip(0) =~= s@);
            assert(out.deep_view() + rng(s@, lo, hi) =~= rng(s@, lo, hi));
        }
        while i < self.entries.len()
            invariant
                i <= self.entries.len(),
                s@ == self@,
                self.entries@.len() == s@.len(),
                forall|j: int|
                    0 <= j < s@.len() ==> #[trigger] s@[j] == (
                        self.entries@[j].0@,
                        self.entries@[j].1@,
                    ),
                lo == opt_key(start),
                hi == opt_key(end),
                out.deep_view() + rng(s@.skip(i as int), lo, hi) == rng(s@, lo, hi),
            decreases self.entries.len() - i,
        {
            let in_lo = match start {
                Some(l) => !key_less(self.entries[i].0.as_slice(), l),
                None => true,
            };
            let in_hi = match end {
                Some(h) => key_less(self.entries[i].0.as_slice(), h),
                None => true,
            };
            proof {
                assert(s@.skip(i as int)[0] == s@[i as int]);
                assert(s@.skip(i as int).drop_first() =~= s@.skip(i + 1));
                assert(s@[i as int].0 == self.entries@[i as int].0@);
                match start {
                    Some(l) => {
                        assert(lo == Some(l@));
                        assert(in_lo == !key_lt(self.entries@[i as int].0@, l@));
                    },
                    None => {
                        assert(lo is None);
                        assert(in_lo);
                    },
                }
                match end {
                    Some(h) => {
                        assert(hi == Some(h@));
                        assert(in_hi == key_lt(self.entries@[i as int].0@, h@));
                    },
                    None => {
                        assert(hi is None);
                        assert(in_hi);
                    },
                }
                assert((in_lo && in_hi) == in_rng(s@[i as int].0, lo, hi));
            }
            if in_lo && in_hi {
                assert(in_rng(s@[i as int].0, lo, hi));
                let ghost odv = out.deep_view();
                let e = clone_entry(&self.entries[i]);
                out.push(e);
                proof {
                    lemma_deep_view_entries(&out);
                    assert(out.deep_view() =~= odv.push((s@[i as int].0, s@[i as int].1)));
                    assert(out.deep_view() + rng(s@.skip(i + 1), lo, hi) =~= rng(s@, lo, hi));
                }
            } else {
                assert(!in_rng(s@[i as int].0, lo, hi));
            }
            i += 1;
        }
        assert(s@.skip(i as int).len() == 0);
        assert(out.deep_view() =~= rng(s@, lo, hi));
        if descending {
            let rev = reverse_entries(out);
            rev
        } else {
            out
        }
    }

    /// Every entry, in ascending key order.
    pub fn all_entries(&self) -> (r: Vec<RawEntry>)
        ensures
            r.deep_view() == rng(self@, None, None),
    {
        self.range(None, None, false)
    }
}

/// The entries of `v` in reverse order.
pub fn reverse_entries(v: Vec<RawEntry>) -> (r: Vec<RawEntry>)
    ensures
        r.deep_view() == v.deep_view().reverse(),
{
    let ghost dv = v.deep_view();
    let mut out: Vec<RawEntry> = Vec::new();
    let mut i: usize = v.len();
    proof {
        lemma_deep_view_entries(&v);
        lemma_deep_view_entries(&out);
        assert(out.deep_view() =~= dv.skip(i as int).reverse());
    }
    while i > 0
        invariant
            i <= v.len(),
            dv == v.deep_view(),
            v@.len() == dv.len(),
            forall|j: int| 0 <= j < dv.len() ==> #[trigger] dv[j] == (v@[j].0@, v@[j].1@),
            out.deep_view() == dv.skip(i as int).reverse(),
        decreases i,
    {
        i -= 1;
        let ghost odv = out.deep_view();
        let e = clone_entry(&v[i]);
        out.push(e);
        proof {
            lemma_deep_view_entries(&out);
            assert(out.deep_view() =~= odv.push(dv[i as int]));
            assert(out.deep_view() =~= dv.skip(i as int).reverse());
        }
    }
    assert(dv.skip(0) =~= dv);
    out
}

/// Where the scan in `set` stops, `store` splits the sequence there.
proof fn lemma_store_at(s: Seq<AbsEntry>, k: Seq<u8>, v: Seq<u8>, i: int)
    requires
        sorted(s),
        0 <= i <= s.len(),
        forall|j: int| 0 <= j < i ==> key_lt(#[trigger] s[j].0, k),
        i < s.len() ==> !key_lt(s[i].0, k),
    ensures
        store(s, k, v) == if i < s.len() && s[i].0 == k {
            s.take(i) + seq![(k, v)] + s.skip(i + 1)
        } else {
            s.take(i) + seq![(k, v)] + s.skip(i)
        },
    decreases i,
{
    if i == 0 {
        if s.len() == 0 {
            assert(store(s, k, v) =~= s.take(0) + seq![(k, v)] + s.skip(0));
        } else if s[0].0 == k {
            assert(store(s, k, v) =~= s.take(0) + seq![(k, v)] + s.skip(1));
        } else {
            lemma_key_lt_total(k, s[0].0);
            assert(store(s, k, v) =~= s.take(0) + seq![(k, v)] + s.skip(0));
        }
    } else {
        lemma_key_lt_irrefl(k);
        assert(key_lt(s[0].0, k));
        assert(s[0].0 != k);
        assert(!key_lt(k, s[0].0)) by {
            lemma_key_lt_total(k, s[0].0);
        }
        let t = s.drop_first();
        assert(forall|j: int| 0 <= j < i - 1 ==> key_lt(#[trigger] t[j].0, k));
        assert(i - 1 < t.len() ==> !key_lt(t[i - 1].0, k));
        lemma_store_at(t, k, v, i - 1);
        if i < s.len() && s[i].0 == k {
            assert(t[i - 1].0 == k);
            assert(store(s, k, v) == seq![s[0]] + store(t, k, v));
            assert(seq![s[0]] + (t.take(i - 1) + seq![(k, v)] + t.skip(i)) =~= s.take(i) + seq![
                (k, v),
            ] + s.skip(i + 1));
        } else {
            assert(store(s, k, v) == seq![s[0]] + store(t, k, v));
            assert(i - 1 < t.len() ==> t[i - 1].0 != k);
            assert(seq![s[0]] + (t.take(i - 1) + seq![(k, v)] + t.skip(i - 1)) =~= s.take(i)
                + seq![(k, v)] + s.skip(i));
        }
    }
}

/// `store` keeps the sort order.
proof fn lemma_store_sorted(s: Seq<AbsEntry>, k: Seq<u8>, v: Seq<u8>)
    requires
        sorted(s),
    ensures
        sorted(store(s, k, v)),
    decreases s.len(),
{
    if s.len() == 0 {
    } else if s[0].0 == k {
        let r = seq![(k, v)] + s.drop_first();
        assert forall|i: int, j: int| 0 <= i < j < r.len() implies key_lt(
            #[trigger] r[i].0,
            #[trigger] r[j].0,
        ) by {
            if i == 0 {
                assert(key_lt(s[0].0, s[j].0));
            } else {
                assert(key_lt(s[i].0, s[j].0));
            }
        }
    } else if key_lt(k, s[0].0) {
        let r = seq![(k, v)] + s;
        assert forall|i: int, j: int| 0 <= i < j < r.len() implies key_lt(
            #[trigger] r[i].0,
            #[trigger] r[j].0,
        ) by {
            if i == 0 {
                if j > 1 {
                    lemma_key_lt_trans(k, s[0].0, s[j - 1].0);
                }
            } else {
                assert(key_lt(s[i - 1].0, s[j - 1].0));
            }
        }
    } else {
        let t = s.drop_first();
        lemma_store_sorted(t, k, v);
        lemma_key_lt_total(k, s[0].0);
        let r = seq![s[0]] + store(t, k, v);
        lemma_store_keys(t, k, v);
        assert forall|i: int, j: int| 0 <= i < j < r.len() implies key_lt(
            #[trigger] r[i].0,
            #[trigger] r[j].0,
        ) by {
            if i == 0 {
                let kj = store(t, k, v)[j - 1].0;
                if kj == k {
                    assert(key_lt(s[0].0, k));
                } else {
                    let m = choose|m: int| 0 <= m < t.len() && t[m].0 == kj;
                    assert(key_lt(s[0].0, s[m + 1].0));
                }
            } else {
                assert(sorted(store(t, k, v)));
                assert(key_lt(store(t, k, v)[i - 1].0, store(t, k, v)[j - 1].0));
            }
        }
    }
}

/// Every key of `store(s, k, v)` is `k` or a key of `s`.
proof fn lemma_store_keys(s: Seq<AbsEntry>, k: Seq<u8>, v: Seq<u8>)
    ensures
        forall|j: int|
            0 <= j < store(s, k, v).len() ==> (#[trigger] store(s, k, v)[j].0 == k || exists|m: int|
                0 <= m < s.len() && s[m].0 == store(s, k, v)[j].0),
    decreases s.len(),
{
    if s.len() == 0 {
    } else if s[0].0 == k {
        assert forall|j: int| 0 <= j < store(s, k, v).len() implies (#[trigger] store(s, k, v)[j].0
            == k || exists|m: int| 0 <= m < s.len() && s[m].0 == store(s, k, v)[j].0) by {
            if j > 0 {
                let m = j;
                assert(s[m].0 == store(s, k, v)[j].0);
            }
        }
    } else if key_lt(k, s[0].0) {
        assert forall|j: int| 0 <= j < store(s, k, v).len() implies (#[trigger] store(s, k, v)[j].0
            == k || exists|m: int| 0 <= m < s.len() && s[m].0 == store(s, k, v)[j].0) by {
            if j > 0 {
                let m = j - 1;
                assert(s[m].0 == store(s, k, v)[j].0);
            }
        }
    } else {
        let t = s.drop_first();
        lemma_store_keys(t, k, v);
        assert forall|j: int| 0 <= j < store(s, k, v).len() implies (#[trigger] store(s, k, v)[j].0
            == k || exists|m: int| 0 <= m < s.len() && s[m].0 == store(s, k, v)[j].0) by {
            if j > 0 {
                let e = store(t, k, v)[j - 1];
                assert(store(s, k, v)[j] == e);
                if e.0 != k {
                    let m = choose|m: int| 0 <= m < t.len() && t[m].0 == e.0;
                    assert(s[m + 1].0 == e.0);
                }
            }
        }
    }
}

/// Where the scan in `remove` stops, `erase` splits the sequence there.
proof fn lemma_erase_at(s: Seq<AbsEntry>, k: Seq<u8>, i: int)
    requires
        0 <= i <= s.len(),
        forall|j: int| 0 <= j < i ==> (#[trigger] s[j].0) != k,
        i < s.len() ==> s[i].0 == k,
    ensures
        erase(s, k) == if i < s.len() {
            s.take(i) + s.skip(i + 1)
        } else {
            s.take(i)
        },
    decreases i,
{
    if i == 0 {
        if s.len() == 0 {
            assert(erase(s, k) =~= s.take(0));
        } else {
            assert(erase(s, k) =~= s.take(0) + s.skip(1));
        }
    } else {
        let t = s.drop_first();
        assert(forall|j: int| 0 <= j < i - 1 ==> (#[trigger] t[j].0) != k);
        assert(i - 1 < t.len() ==> t[i - 1].0 == k);
        lemma_erase_at(t, k, i - 1);
        assert(s[0].0 != k);
        assert(erase(s, k) == seq![s[0]] + erase(t, k));
        if i < s.len() {
            assert(seq![s[0]] + (t.take(i - 1) + t.skip(i)) =~= s.take(i) + s.skip(i + 1));
        } else {
            assert(seq![s[0]] + t.take(i - 1) =~= s.take(i));
        }
    }
}

/// `erase` keeps the sort order.
proof fn lemma_erase_sorted(s: Seq<AbsEntry>, k: Seq<u8>)
    requires
        sorted(s),
    ensures
        sorted(erase(s, k)),
    decreases s.len(),
{
    if s.len() == 0 {
    } else if s[0].0 == k {
    } else {
        let t = s.drop_first();
        lemma_erase_sorted(t, k);
        lemma_erase_keys(t, k);
        let r = seq![s[0]] + erase(t, k);
        assert forall|i: int, j: int| 0 <= i < j < r.len() implies key_lt(
            #[trigger] r[i].0,
            #[trigger] r[j].0,
        ) by {
            if i == 0 {
                let kj = erase(t, k)[j - 1].0;
                let m = choose|m: int| 0 <= m < t.len() && t[m].0 == kj;
                assert(key_lt(s[0].0, s[m + 1].0));
            } else {
                assert(key_lt(erase(t, k)[i - 1].0, erase(t, k)[j - 1].0));
            }
        }
    }
}

/// Every key of `erase(s, k)` is a key of `s`.
proof fn lemma_erase_keys(s: Seq<AbsEntry>, k: Seq<u8>)
    ensures
        forall|j: int|
            0 <= j < erase(s, k).len() ==> exists|m: int|
                0 <= m < s.len() && s[m].0 == #[trigger] erase(s, k)[j].0,
    decreases s.len(),
{
    if s.len() == 0 {
    } else if s[0].0 == k {
        assert forall|j: int| 0 <= j < erase(s, k).len() implies exists|m: int|
            0 <= m < s.len() && s[m].0 == #[trigger] erase(s, k)[j].0 by {
            let m = j + 1;
            assert(s[m].0 == erase(s, k)[j].0);
        }
    } else {
        let t = s.drop_first();
        lemma_erase_keys(t, k);
        assert forall|j: int| 0 <= j < erase(s, k).len() implies exists|m: int|
            0 <= m < s.len() && s[m].0 == #[trigger] erase(s, k)[j].0 by {
            if j == 0 {
                assert(s[0].0 == erase(s, k)[0].0);
            } else {
                let e = erase(t, k)[j - 1];
                assert(erase(s, k)[j] == e);
                let m = choose|m: int| 0 <= m < t.len() && t[m].0 == e.0;
                assert(s[m + 1].0 == e.0);
            }
        }
    }
}

/// After `store`, `k` maps to `v` and every other key is unchanged.
pub proof fn lemma_lookup_store(s: Seq<AbsEntry>, k: Seq<u8>, v: Seq<u8>, q: Seq<u8>)
    ensures
        lookup(store(s, k, v), q) == if q == k {
            Some(v)
        } else {
            lookup(s, q)
        },
    decreases s.len(),
{
    if s.len() == 0 {
        let r = store(s, k, v);
        assert(r[0] == (k, v));
        assert(r.drop_first() =~= Seq::<AbsEntry>::empty());
    } else if s[0].0 == k {
        let r = seq![(k, v)] + s.drop_first();
        assert(store(s, k, v) == r);
        assert(r[0] == (k, v));
        assert(r.drop_first() =~= s.drop_first());
    } else if key_lt(k, s[0].0) {
        let r = seq![(k, v)] + s;
        assert(store(s, k, v) == r);
        assert(r[0] == (k, v));
        assert(r.drop_first() =~= s);
    } else {
        let r = seq![s[0]] + store(s.drop_first(), k, v);
        assert(store(s, k, v) == r);
        assert(r[0] == s[0]);
        assert(r.drop_first() =~= store(s.drop_first(), k, v));
        lemma_lookup_store(s.drop_first(), k, v, q);
    }
}

/// After `erase`, `k` is absent and every other key is unchanged.
pub proof fn lemma_lookup_erase(s: Seq<AbsEntry>, k: Seq<u8>, q: Seq<u8>)
    requires
        sorted(s),
    ensures
        lookup(erase(s, k), q) == if q == k {
            None::<Seq<u8>>
        } else {
            lookup(s, q)
        },
    decreases s.len(),
{
    if s.len() == 0 {
    } else if s[0].0 == k {
        if q == k {
            let t = s.drop_first();
            assert forall|j: int| 0 <= j < t.len() implies key_lt(k, #[trigger] t[j].0) by {
                assert(key_lt(s[0].0, s[j + 1].0));
            }
            lemma_key_lt_irrefl(k);
            lemma_sorted_lookup_absent(t, k, k);
        }
    } else {
        let r = seq![s[0]] + erase(s.drop_first(), k);
        assert(erase(s, k) == r);
        assert(r[0] == s[0]);
        assert(r.drop_first() =~= erase(s.drop_first(), k));
        lemma_lookup_erase(s.drop_first(), k, q);
    }
}

/// In a sequence whose keys all exceed `bound`, a key that does not exceed
/// `bound` is absent.
proof fn lemma_sorted_lookup_absent(s: Seq<AbsEntry>, q: Seq<u8>, bound: Seq<u8>)
    requires
        forall|j: int| 0 <= j < s.len() ==> key_lt(bound, #[trigger] s[j].0),
        !key_lt(bound, q),
    ensures
        lookup(s, q) == None::<Seq<u8>>,
    decreases s.len(),
{
    if s.len() > 0 {
        if s[0].0 == q {
            assert(key_lt(bound, q));
        }
        let t = s.drop_first();
        assert forall|j: int| 0 <= j < t.len() implies key_lt(bound, #[trigger] t[j].0) by {
            assert(key_lt(bound, s[j + 1].0));
        }
        lemma_sorted_lookup_absent(t, q, bound);
    }
}

} // verus!
