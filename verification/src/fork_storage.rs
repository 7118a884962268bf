//! Per-contract forked storage: an overlay of local writes and tombstones
//! over the remote chain's raw contract state.  Point reads answer from the
//! overlay first; a tombstoned key is never satisfied remotely.  Range scans
//! merge the overlay with the lazily paginated remote range; the remote side
//! is surfaced as page requests that the caller fulfils and feeds back, so
//! the merge itself is independent of how the transport pages the data.

use vstd::prelude::*;

use crate::keys::key_eq;
use crate::keys::key_int_lt;
use crate::local_storage::clone_bytes;
use crate::local_storage::copy_slice;
use crate::local_storage::erase;
use crate::local_storage::lemma_deep_view_entries;
use crate::local_storage::lemma_lookup_erase;
use crate::local_storage::lemma_lookup_store;
use crate::local_storage::lookup;
use crate::local_storage::opt_key;
use crate::local_storage::opt_value;
use crate::local_storage::rng;
use crate::local_storage::sorted;
use crate::local_storage::store;
use crate::local_storage::AbsEntry;
use crate::local_storage::LocalStorage;
use crate::local_storage::RawEntry;
use crate::merge::ahead;
use crate::merge::merged;
use crate::model::ChainDescriptor;

verus! {

/// How many entries one remote page may carry at most.
pub const PAGE_LIMIT: u64 = 5;

/// Failure of an iterator operation.
#[derive(Debug, PartialEq, Eq, Structural, Clone, Copy)]
pub enum IterError {
    /// The iterator id is unknown.
    IteratorNotFound(u32),
}

/// What a point probe of the local state alone can tell.
#[derive(Debug, Clone, PartialEq, Eq)]
pub enum LocalProbe {
    /// The key is tombstoned: absent, whatever the remote chain holds.
    Removed,
    /// The overlay holds this value for the key.
    Present(Vec<u8>),
    /// The local state does not decide; the remote chain must be asked.
    Unknown,
}

/// Abstract view of a probe.
pub enum AbsProbe {
    Removed,
    Present(Seq<u8>),
    Unknown,
}

impl View for LocalProbe {
    type V = AbsProbe;

    open spec fn view(&self) -> AbsProbe {
        match self {
            LocalProbe::Removed => AbsProbe::Removed,
            LocalProbe::Present(v) => AbsProbe::Present(v@),
            LocalProbe::Unknown => AbsProbe::Unknown,
        }
    }
}

/// A request for one more page of remote raw state.
#[derive(Debug, Clone, PartialEq, Eq)]
pub struct PageRequest {
    /// Continuation key to resume from.
    pub start_key: Vec<u8>,
    /// Upper bound on the number of entries to return.
    pub limit: u64,
    /// Whether the scan runs descending.
    pub reverse: bool,
}

/// One step of a merge iterator.
#[derive(Debug, Clone, PartialEq, Eq)]
pub enum NextStep {
    /// The next merged entry.
    Emit(Vec<u8>, Vec<u8>),
    /// The remote buffer is exhausted but a continuation remains: fetch the
    /// requested page and feed it back before stepping again.
    NeedPage(PageRequest),
    /// Both sides are exhausted.
    Done,
}

/// Abstract view of a step.
pub enum AbsStep {
    Emit(AbsEntry),
    NeedPage(Seq<u8>, u64, bool),
    Done,
}

impl View for NextStep {
    type V = AbsStep;

    open spec fn view(&self) -> AbsStep {
        match self {
            NextStep::Emit(k, v) => AbsStep::Emit((k@, v@)),
            NextStep::NeedPage(p) => AbsStep::NeedPage(p.start_key@, p.limit, p.reverse),
            NextStep::Done => AbsStep::Done,
        }
    }
}

/// A merge iterator over the overlay snapshot and the remote range.
pub struct MergeIter {
    local: Vec<RawEntry>,
    lpos: usize,
    remote: Vec<RawEntry>,
    rpos: usize,
    cursor: Option<Vec<u8>>,
    reverse: bool,
}

/// Abstract view of a merge iterator.
#[verifier::ext_equal]
pub struct AbsIter {
    /// Overlay entries of the scanned range, in emission order.
    pub local: Seq<AbsEntry>,
    /// How many overlay entries were consumed.
    pub lpos: int,
    /// Remote entries buffered so far, in emission order.
    pub remote: Seq<AbsEntry>,
    /// How many buffered remote entries were consumed.
    pub rpos: int,
    /// Continuation key of the remote range, if more pages may remain.
    pub cursor: Option<Seq<u8>>,
    /// Whether the scan runs descending.
    pub reverse: bool,
}

impl View for MergeIter {
    type V = AbsIter;

    closed spec fn view(&self) -> AbsIter {
        AbsIter {
            local: self.local.deep_view(),
            lpos: self.lpos as int,
            remote: self.remote.deep_view(),
            rpos: self.rpos as int,
            cursor: match self.cursor {
                Some(c) => Some(c@),
                None => None,
            },
            reverse: self.reverse,
        }
    }
}

/// The transition a merge iterator makes on `next`: either it asks for one
/// more remote page, or it emits the head more extreme for the direction
/// (preferring the local entry on a tie, and consuming both heads when they
/// carry the same key), or it is done.
pub open spec fn spec_next(v: AbsIter) -> (AbsIter, AbsStep) {
    if v.rpos == v.remote.len() && v.cursor is Some {
        (v, AbsStep::NeedPage(v.cursor->0, PAGE_LIMIT, v.reverse))
    } else if v.lpos < v.local.len() && v.rpos < v.remote.len() {
        let le = v.local[v.lpos];
        let re = v.remote[v.rpos];
        if re.0 == le.0 {
            (AbsIter { lpos: v.lpos + 1, rpos: v.rpos + 1, ..v }, AbsStep::Emit(le))
        } else if ahead(re.0, le.0, v.reverse) {
            (AbsIter { rpos: v.rpos + 1, ..v }, AbsStep::Emit(re))
        } else {
            (AbsIter { lpos: v.lpos + 1, ..v }, AbsStep::Emit(le))
        }
    } else if v.lpos < v.local.len() {
        (AbsIter { lpos: v.lpos + 1, ..v }, AbsStep::Emit(v.local[v.lpos]))
    } else if v.rpos < v.remote.len() {
        (AbsIter { rpos: v.rpos + 1, ..v }, AbsStep::Emit(v.remote[v.rpos]))
    } else {
        (v, AbsStep::Done)
    }
}

/// Whether some tombstone equals `k`.
pub open spec fn tombstoned(ts: Seq<Seq<u8>>, k: Seq<u8>) -> bool {
    ts.contains(k)
}

/// The tombstones with every record of `k` dropped.
pub open spec fn without(ts: Seq<Seq<u8>>, k: Seq<u8>) -> Seq<Seq<u8>>
    decreases ts.len(),
{
    if ts.len() == 0 {
        ts
    } else if ts[0] == k {
        without(ts.drop_first(), k)
    } else {
        seq![ts[0]] + without(ts.drop_first(), k)
    }
}

/// The tombstones with `k` recorded.
pub open spec fn with_key(ts: Seq<Seq<u8>>, k: Seq<u8>) -> Seq<Seq<u8>> {
    if ts.contains(k) {
        ts
    } else {
        ts.push(k)
    }
}

/// What a probe of tombstones and overlay alone answers for `k`.
pub open spec fn spec_probe(ts: Seq<Seq<u8>>, overlay: Seq<AbsEntry>, k: Seq<u8>) -> AbsProbe {
    if tombstoned(ts, k) {
        AbsProbe::Removed
    } else {
        match lookup(overlay, k) {
            Some(v) => AbsProbe::Present(v),
            None => AbsProbe::Unknown,
        }
    }
}

/// The final value of a point read, given the probe and what the remote
/// chain answered (`None` also when the remote fetch failed: a failed point
/// read degrades to absent).
pub open spec fn spec_resolve(probe: AbsProbe, remote: Option<Seq<u8>>) -> Option<Seq<u8>> {
    match probe {
        AbsProbe::Removed => None,
        AbsProbe::Present(v) => Some(v),
        AbsProbe::Unknown => remote,
    }
}

/// `init` written into an empty overlay, in order; later entries win.
pub open spec fn store_all(s: Seq<AbsEntry>, init: Seq<AbsEntry>) -> Seq<AbsEntry>
    decreases init.len(),
{
    if init.len() == 0 {
        s
    } else {
        store_all(store(s, init[0].0, init[0].1), init.drop_first())
    }
}

/// A well-formed local state: the overlay is sorted, and no tombstoned key
/// is in the overlay (a key is either overwritten or removed, never both).
pub open spec fn wf_views(ov: Seq<AbsEntry>, ts: Seq<Seq<u8>>) -> bool {
    &&& sorted(ov)
    &&& forall|j: int| 0 <= j < ts.len() ==> lookup(ov, #[trigger] ts[j]) is None
}

/// Per-contract storage forking the remote chain: local overlay, tombstones
/// and the open merge iterators.
pub struct ForkedStorage {
    chain: ChainDescriptor,
    contract_addr: Vec<u8>,
    overlay: LocalStorage,
    tombstones: Vec<Vec<u8>>,
    iters: Vec<MergeIter>,
}

impl ForkedStorage {
    /// The chain this fork reads from.
    pub closed spec fn chain_view(&self) -> crate::model::AbsChainDescriptor {
        self.chain@
    }

    /// The contract whose namespace this fork covers.
    pub closed spec fn addr_view(&self) -> Seq<u8> {
        self.contract_addr@
    }

    /// The chain this fork reads from.
    pub fn chain(&self) -> (r: &ChainDescriptor)
        ensures
            r@ == self.chain_view(),
    {
        &self.chain
    }

    /// The contract whose namespace this fork covers.
    pub fn contract_address(&self) -> (r: &Vec<u8>)
        ensures
            r@ == self.addr_view(),
    {
        &self.contract_addr
    }

    /// The overlay of this call's local writes.
    pub closed spec fn overlay_view(&self) -> Seq<AbsEntry> {
        self.overlay@
    }

    /// The keys removed locally.
    pub closed spec fn tombstones_view(&self) -> Seq<Seq<u8>> {
        self.tombstones.deep_view()
    }

    /// The open iterators; the id of the iterator at index `i` is `i + 1`.
    pub closed spec fn iters_view(&self) -> Seq<AbsIter> {
        Seq::new(self.iters@.len() as nat, |i: int| self.iters@[i]@)
    }

    /// `id` names an open iterator.
    pub open spec fn valid_iter(&self, id: u32) -> bool {
        1 <= id <= self.iters_view().len()
    }

    /// Well-formed: the overlay is sorted and no tombstoned key is in the
    /// overlay (a key is either overwritten or removed, never both).
    pub open spec fn wf(&self) -> bool {
        wf_views(self.overlay_view(), self.tombstones_view())
    }

    /// A fresh fork seeded with this call's initial storage.
    pub fn new(chain: ChainDescriptor, contract_addr: Vec<u8>, init: Vec<RawEntry>) -> (r:
        ForkedStorage)
        ensures
            r.wf(),
            r.chain_view() == chain@,
            r.addr_view() == contract_addr@,
            r.overlay_view() == store_all(Seq::<AbsEntry>::empty(), init.deep_view()),
            r.tombstones_view() =~= Seq::<Seq<u8>>::empty(),
            r.iters_view().len() == 0,
    {
        let ghost dv = init.deep_view();
        let mut overlay = LocalStorage::new();
        let mut i: usize = 0;
        proof {
            lemma_deep_view_entries(&init);
            assert(dv.skip(0) =~= dv);
        }
        while i < init.len()
            invariant
                i <= init.len(),
                dv == init.deep_view(),
                init@.len() == dv.len(),
                forall|j: int| 0 <= j < dv.len() ==> #[trigger] dv[j] == (init@[j].0@, init@[j].1@),
                overlay.wf(),
                store_all(Seq::<AbsEntry>::empty(), dv) == store_all(
                    overlay@,
                    dv.skip(i as int),
                ),
            decreases init.len() - i,
        {
            proof {
                assert(dv.skip(i as int)[0] == dv[i as int]);
                assert(dv.skip(i as int).drop_first() =~= dv.skip(i + 1));
            }
            overlay.set(init[i].0.as_slice(), init[i].1.as_slice());
            i += 1;
        }
        assert(dv.skip(i as int).len() == 0);
        let r = ForkedStorage {
            chain,
            contract_addr,
            overlay,
            tombstones: Vec::new(),
            iters: Vec::new(),
        };
        proof {
            assert(r.tombstones_view() =~= Seq::<Seq<u8>>::empty());
        }
        r
    }

    /// Probe the local state for `key`: tombstoned, overlaid, or unknown.
    pub fn get_local(&self, key: &[u8]) -> (r: LocalProbe)
        ensures
            r@ == spec_probe(self.tombstones_view(), self.overlay_view(), key@),
    {
        if self.key_tombstoned(key) {
            LocalProbe::Removed
        } else {
            match self.overlay.get(key) {
                Some(v) => LocalProbe::Present(v),
                None => LocalProbe::Unknown,
            }
        }
    }

    /// Whether `key` is tombstoned.
    fn key_tombstoned(&self, key: &[u8]) -> (r: bool)
        ensures
            r == tombstoned(self.tombstones_view(), key@),
    {
        let ghost ts = self.tombstones_view();
        proof {
            lemma_deep_view_keys(&self.tombstones);
        }
        let mut i: usize = 0;
        while i < self.tombstones.len()
            invariant
                i <= self.tombstones.len(),
                ts == self.tombstones_view(),
                self.tombstones@.len() == ts.len(),
                forall|j: int| 0 <= j < ts.len() ==> #[trigger] ts[j] == self.tombstones@[j]@,
                forall|j: int| 0 <= j < i ==> #[trigger] ts[j] != key@,
            decreases self.tombstones.len() - i,
        {
            if key_eq(self.tombstones[i].as_slice(), key) {
                assert(ts[i as int] == key@);
                return true;
            }
            i += 1;
        }
        assert(!ts.contains(key@)) by {
            if ts.contains(key@) {
                let j = choose|j: int| 0 <= j < ts.len() && ts[j] == key@;
            }
        }
        false
    }

    /// Combine a local probe with the remote answer: a tombstone is final, an
    /// overlay value is final, and only an unknown key takes the remote value.
    pub fn resolve_get(probe: LocalProbe, remote: Option<Vec<u8>>) -> (r: Option<Vec<u8>>)
        ensures
            opt_value(r) == spec_resolve(probe@, opt_value(remote)),
    {
        match probe {
            LocalProbe::Removed => None,
            LocalProbe::Present(v) => Some(v),
            LocalProbe::Unknown => remote,
        }
    }

    /// Write `value` under `key`; clears any tombstone for it.
    pub fn set(&mut self, key: &[u8], value: &[u8])
        requires
            old(self).wf(),
        ensures
            final(self).wf(),
            final(self).overlay_view() == store(old(self).overlay_view(), key@, value@),
            final(self).tombstones_view() == without(old(self).tombstones_view(), key@),
            final(self).iters_view() == old(self).iters_view(),
            final(self).chain_view() == old(self).chain_view(),
            final(self).addr_view() == old(self).addr_view(),
    {
        let ghost ts = self.tombstones_view();
        proof {
            lemma_deep_view_keys(&self.tombstones);
        }
        let mut kept: Vec<Vec<u8>> = Vec::new();
        let mut i: usize = 0;
        proof {
            lemma_deep_view_keys(&kept);
            assert(ts.skip(0) =~= ts);
            assert(kept.deep_view() + without(ts, key@) =~= without(ts, key@));
        }
        while i < self.tombstones.len()
            invariant
                i <= self.tombstones.len(),
                ts == self.tombstones_view(),
                self.tombstones@.len() == ts.len(),
                forall|j: int| 0 <= j < ts.len() ==> #[trigger] ts[j] == self.tombstones@[j]@,
                kept.deep_view() + without(ts.skip(i as int), key@) == without(ts, key@),
            decreases self.tombstones.len() - i,
        {
            proof {
                assert(ts.skip(i as int)[0] == ts[i as int]);
                assert(ts.skip(i as int).drop_first() =~= ts.skip(i + 1));
            }
            if !key_eq(self.tombstones[i].as_slice(), key) {
                let ghost kdv = kept.deep_view();
                let t = clone_bytes(&self.tombstones[i]);
                kept.push(t);
                proof {
                    lemma_deep_view_keys(&kept);
                    assert(kept.deep_view() =~= kdv.push(ts[i as int]));
                    assert(kept.deep_view() + without(ts.skip(i + 1), key@) =~= without(
                        ts,
                        key@,
                    ));
                }
            }
            i += 1;
        }
        assert(ts.skip(i as int).len() == 0);
        assert(kept.deep_view() =~= without(ts, key@));
        self.tombstones = kept;
        self.overlay.set(key, value);
        proof {
            lemma_without_absent(ts, key@);
            let nts = self.tombstones_view();
            assert forall|j: int| 0 <= j < nts.len() implies lookup(
                self.overlay_view(),
                #[trigger] nts[j],
            ) is None by {
                let k = nts[j];
                assert(nts.contains(k));
                lemma_without_sub(ts, key@, k);
                assert(k != key@);
                let m = choose|m: int| 0 <= m < ts.len() && ts[m] == k;
                assert(lookup(old(self).overlay_view(), ts[m]) is None);
                lemma_lookup_store(old(self).overlay_view(), key@, value@, k);
            }
            assert(self.iters_view() =~= old(self).iters_view());
        }
    }

    /// Tombstone `key`: remove it locally and suppress remote fallback.
    pub fn remove(&mut self, key: &[u8])
        requires
            old(self).wf(),
        ensures
            final(self).wf(),
            final(self).overlay_view() == erase(old(self).overlay_view(), key@),
            final(self).tombstones_view() == with_key(old(self).tombstones_view(), key@),
            final(self).iters_view() == old(self).iters_view(),
            final(self).chain_view() == old(self).chain_view(),
            final(self).addr_view() == old(self).addr_view(),
    {
        let ghost ts = self.tombstones_view();
        let already = self.key_tombstoned(key);
        if !already {
            let k = copy_slice(key);
            self.tombstones.push(k);
        }
        self.overlay.remove(key);
        proof {
            lemma_deep_view_keys(&self.tombstones);
            if already {
                assert(self.tombstones_view() =~= with_key(ts, key@));
            } else {
                assert(self.tombstones_view() =~= ts.push(key@));
            }
            let nts = self.tombstones_view();
            assert forall|j: int| 0 <= j < nts.len() implies lookup(
                self.overlay_view(),
                #[trigger] nts[j],
            ) is None by {
                let k = nts[j];
                lemma_lookup_erase(old(self).overlay_view(), key@, k);
                if k != key@ {
                    assert(j < ts.len() && ts[j] == k);
                    assert(lookup(old(self).overlay_view(), ts[j]) is None);
                }
            }
            assert(self.iters_view() =~= old(self).iters_view());
        }
    }

    /// Open a merge iterator over `[start, end)` in the requested direction.
    /// The overlay part is snapshotted now; the remote side starts with an
    /// empty buffer and a continuation seeded at `start`.
    pub fn scan(&mut self, start: Option<&[u8]>, end: Option<&[u8]>, descending: bool) -> (r: u32)
        requires
            old(self).wf(),
            old(self).iters_view().len() < 0xFFFF_FFFF,
        ensures
            final(self).wf(),
            final(self).overlay_view() == old(self).overlay_view(),
            final(self).tombstones_view() == old(self).tombstones_view(),
            final(self).chain_view() == old(self).chain_view(),
            final(self).addr_view() == old(self).addr_view(),
            r == old(self).iters_view().len() + 1,
            final(self).iters_view().len() == old(self).iters_view().len() + 1,
            forall|j: int|
                0 <= j < old(self).iters_view().len() ==> final(self).iters_view()[j] == old(
                    self,
                ).iters_view()[j],
            final(self).iters_view().last() == (AbsIter {
                local: if descending {
                    rng(old(self).overlay_view(), opt_key(start), opt_key(end)).reverse()
                } else {
                    rng(old(self).overlay_view(), opt_key(start), opt_key(end))
                },
                lpos: 0,
                remote: Seq::<AbsEntry>::empty(),
                rpos: 0,
                cursor: Some(
                    match start {
                        Some(s) => s@,
                        None => Seq::<u8>::empty(),
                    },
                ),
                reverse: descending,
            }),
            final(self).valid_iter(r),
    {
        let local = self.overlay.range(start, end, descending);
        let seed: Vec<u8> = match start {
            Some(s) => copy_slice(s),
            None => Vec::new(),
        };
        let it = MergeIter {
            local,
            lpos: 0,
            remote: Vec::new(),
            rpos: 0,
            cursor: Some(seed),
            reverse: descending,
        };
        proof {
            assert(it@.remote =~= Seq::<AbsEntry>::empty());
        }
        self.iters.push(it);
        let id = self.iters.len() as u32;
        proof {
            assert forall|j: int|
                0 <= j < old(self).iters_view().len() implies self.iters_view()[j] == old(
                self,
            ).iters_view()[j] by {
                assert(self.iters@[j] == old(self).iters@[j]);
            }
            match start {
                Some(s) => {
                    assert(self.iters_view().last().cursor == Some(s@));
                },
                None => {
                    assert(self.iters_view().last().cursor == Some(Seq::<u8>::empty()));
                },
            }
        }
        id
    }

    /// Step the iterator `id`: emit the next merged entry, ask for one more
    /// remote page, or report exhaustion.  An unknown id fails and changes
    /// nothing.
    pub fn next(&mut self, id: u32) -> (r: Result<NextStep, IterError>)
        ensures
            final(self).overlay_view() == old(self).overlay_view(),
            final(self).tombstones_view() == old(self).tombstones_view(),
            final(self).chain_view() == old(self).chain_view(),
            final(self).addr_view() == old(self).addr_view(),
            final(self).wf() == old(self).wf(),
            final(self).iters_view().len() == old(self).iters_view().len(),
            !old(self).valid_iter(id) ==> r == Err::<NextStep, IterError>(
                IterError::IteratorNotFound(id),
            ) && final(self).iters_view() == old(self).iters_view(),
            old(self).valid_iter(id) ==> {
                let (v2, step) = spec_next(old(self).iters_view()[id - 1]);
                &&& final(self).iters_view()[id - 1] == v2
                &&& forall|j: int|
                    0 <= j < old(self).iters_view().len() && j != id - 1
                        ==> final(self).iters_view()[j] == old(self).iters_view()[j]
                &&& r matches Ok(s) && s@ == step
            },
    {
        if id == 0 || (id as usize) > self.iters.len() {
            proof {
                assert(self.iters_view() =~= old(self).iters_view());
            }
            return Err(IterError::IteratorNotFound(id));
        }
        let idx = (id - 1) as usize;
        let ghost v = self.iters_view()[idx as int];
        let mut it = self.iters.remove(idx);
        let ghost itv = it@;
        assert(itv == v);
        let step: NextStep;
        if it.rpos == it.remote.len() && it.cursor.is_some() {
            let ck = match &it.cursor {
                Some(c) => clone_bytes(c),
                None => Vec::new(),
            };
            step = NextStep::NeedPage(
                PageRequest { start_key: ck, limit: PAGE_LIMIT, reverse: it.reverse },
            );
        } else {
            proof {
                lemma_deep_view_entries(&it.local);
                lemma_deep_view_entries(&it.remote);
            }
            let has_local = it.lpos < it.local.len();
            let has_remote = it.rpos < it.remote.len();
            if has_local && has_remote {
                let le_key_eq = key_eq(
                    it.local[it.lpos].0.as_slice(),
                    it.remote[it.rpos].0.as_slice(),
                );
                if le_key_eq {
                    let e = &it.local[it.lpos];
                    step = NextStep::Emit(clone_bytes(&e.0), clone_bytes(&e.1));
                    it.lpos = it.lpos + 1;
                    it.rpos = it.rpos + 1;
                } else if remote_ahead(&it.remote[it.rpos].0, &it.local[it.lpos].0, it.reverse) {
                    let e = &it.remote[it.rpos];
                    step = NextStep::Emit(clone_bytes(&e.0), clone_bytes(&e.1));
                    it.rpos = it.rpos + 1;
                } else {
                    let e = &it.local[it.lpos];
                    step = NextStep::Emit(clone_bytes(&e.0), clone_bytes(&e.1));
                    it.lpos = it.lpos + 1;
                }
            } else if has_local {
                let e = &it.local[it.lpos];
                step = NextStep::Emit(clone_bytes(&e.0), clone_bytes(&e.1));
                it.lpos = it.lpos + 1;
            } else if has_remote {
                let e = &it.remote[it.rpos];
                step = NextStep::Emit(clone_bytes(&e.0), clone_bytes(&e.1));
                it.rpos = it.rpos + 1;
            } else {
                step = NextStep::Done;
            }
        }
        proof {
            assert(it@ == spec_next(v).0 || it@ == v);
        }
        self.iters.insert(idx, it);
        proof {
            assert(self.iters_view()[id - 1] == spec_next(v).0);
            assert forall|j: int|
                0 <= j < old(self).iters_view().len() && j != id - 1 implies self.iters_view()[j]
                == old(self).iters_view()[j] by {
                assert(self.iters@[j] == old(self).iters@[j]);
            }
        }
        Ok(step)
    }

    /// Feed one remote page into the iterator `id`: the entries extend the
    /// buffer in order; the continuation replaces the cursor, `None` ending
    /// the remote side.
    pub fn feed_page(
        &mut self,
        id: u32,
        page: Vec<RawEntry>,
        next_cursor: Option<Vec<u8>>,
    ) -> (r: Result<(), IterError>)
        ensures
            final(self).overlay_view() == old(self).overlay_view(),
            final(self).tombstones_view() == old(self).tombstones_view(),
            final(self).chain_view() == old(self).chain_view(),
            final(self).addr_view() == old(self).addr_view(),
            final(self).wf() == old(self).wf(),
            final(self).iters_view().len() == old(self).iters_view().len(),
            !old(self).valid_iter(id) ==> r == Err::<(), IterError>(IterError::IteratorNotFound(id))
                && final(self).iters_view() == old(self).iters_view(),
            old(self).valid_iter(id) ==> {
                let v = old(self).iters_view()[id - 1];
                &&& r == Ok::<(), IterError>(())
                &&& final(self).iters_view()[id - 1] == AbsIter {
                    remote: v.remote + page.deep_view(),
                    cursor: match next_cursor {
                        Some(c) => Some(c@),
                        None => None,
                    },
                    ..v
                }
                &&& forall|j: int|
                    0 <= j < old(self).iters_view().len() && j != id - 1
                        ==> final(self).iters_view()[j] == old(self).iters_view()[j]
            },
    {
        if id == 0 || (id as usize) > self.iters.len() {
            proof {
                assert(self.iters_view() =~= old(self).iters_view());
            }
            return Err(IterError::IteratorNotFound(id));
        }
        let idx = (id - 1) as usize;
        let ghost v = self.iters_view()[idx as int];
        let mut it = self.iters.remove(idx);
        assert(it@ == v);
        let ghost old_remote = it.remote.deep_view();
        let mut page = page;
        let mut i: usize = 0;
        proof {
            lemma_deep_view_entries(&page);
            assert(page.deep_view().skip(0) =~= page.deep_view());
        }
        let ghost pdv = page.deep_view();
        while i < page.len()
            invariant
                i <= page.len(),
                pdv == page.deep_view(),
                page@.len() == pdv.len(),
                forall|j: int|
                    0 <= j < pdv.len() ==> #[trigger] pdv[j] == (page@[j].0@, page@[j].1@),
                it.remote.deep_view() =~= old_remote + pdv.take(i as int),
                old_remote == v.remote,
                it@.local == v.local,
                it@.lpos == v.lpos,
                it@.rpos == v.rpos,
                it@.reverse == v.reverse,
                it@.cursor == v.cursor,
            decreases page.len() - i,
        {
            let ghost rdv = it.remote.deep_view();
            let e = crate::local_storage::clone_entry(&page[i]);
            it.remote.push(e);
            proof {
                lemma_deep_view_entries(&it.remote);
                assert(it.remote.deep_view() =~= rdv.push(pdv[i as int]));
                assert(it.remote.deep_view() =~= old_remote + pdv.take(i + 1));
            }
            i += 1;
        }
        proof {
            assert(pdv.take(i as int) =~= pdv);
        }
        it.cursor = next_cursor;
        self.iters.insert(idx, it);
        proof {
            let w = self.iters_view()[id - 1];
            assert(w.remote =~= v.remote + pdv);
            assert(w.local =~= v.local);
            assert(w.lpos == v.lpos);
            assert(w.rpos == v.rpos);
            assert(w.reverse == v.reverse);
            assert(w.cursor == (match next_cursor {
                Some(c) => Some(c@),
                None => None,
            }));
            assert(w =~= (AbsIter {
                remote: v.remote + pdv,
                cursor: match next_cursor {
                    Some(c) => Some(c@),
                    None => None,
                },
                ..v
            }));
            assert forall|j: int|
                0 <= j < old(self).iters_view().len() && j != id - 1 implies self.iters_view()[j]
                == old(self).iters_view()[j] by {
                assert(self.iters@[j] == old(self).iters@[j]);
            }
        }
        Ok(())
    }
}

/// 1 while a continuation remains, 0 after.
pub open spec fn cursor_flag(c: Option<Seq<u8>>) -> int {
    if c is Some {
        1
    } else {
        0
    }
}

/// A remote range served page by page: the model of the chain's paginated
/// raw-state endpoint, used by tests and by the in-process driver.  The page
/// size is the transport's choice and, by `drain_scan`'s contract, cannot
/// influence what a scan returns.
pub struct RemotePager {
    entries: Vec<RawEntry>,
    served: usize,
    page_size: usize,
}

impl RemotePager {
    /// The remote range, in emission order.
    pub closed spec fn entries_view(&self) -> Seq<AbsEntry> {
        self.entries.deep_view()
    }

    /// How many entries were served so far.
    pub closed spec fn served_count(&self) -> int {
        self.served as int
    }

    /// How many entries one page carries at most.
    pub closed spec fn page_len(&self) -> int {
        self.page_size as int
    }

    /// A pager over `entries` serving pages of at most `page_size`.
    pub fn new(entries: Vec<RawEntry>, page_size: usize) -> (r: RemotePager)
        requires
            page_size >= 1,
        ensures
            r.entries_view() == entries.deep_view(),
            r.served_count() == 0,
            r.page_len() == page_size,
    {
        RemotePager { entries, served: 0, page_size }
    }

    /// Serve the next page: up to `page_len` further entries, and a
    /// continuation exactly when entries remain after them.
    pub fn next_page(&mut self) -> (r: (Vec<RawEntry>, Option<Vec<u8>>))
        requires
            old(self).served_count() <= old(self).entries_view().len(),
        ensures
            final(self).entries_view() == old(self).entries_view(),
            final(self).page_len() == old(self).page_len(),
            final(self).served_count() == if old(self).served_count() + old(self).page_len() <= old(
                self,
            ).entries_view().len() {
                old(self).served_count() + old(self).page_len()
            } else {
                old(self).entries_view().len() as int
            },
            r.0.deep_view() == old(self).entries_view().subrange(
                old(self).served_count(),
                final(self).served_count(),
            ),
            (r.1 is Some) == (final(self).served_count() < final(self).entries_view().len()),
    {
        let ghost dv = self.entries.deep_view();
        proof {
            lemma_deep_view_entries(&self.entries);
        }
        let remaining = self.entries.len() - self.served;
        let k = if remaining < self.page_size {
            remaining
        } else {
            self.page_size
        };
        let stop = self.served + k;
        let mut page: Vec<RawEntry> = Vec::new();
        let mut i: usize = self.served;
        proof {
            assert(page.deep_view() =~= dv.subrange(self.served as int, i as int));
        }
        while i < stop
            invariant
                self.served <= i <= stop <= self.entries.len(),
                dv == self.entries.deep_view(),
                self.entries@.len() == dv.len(),
                forall|j: int| 0 <= j < dv.len() ==> #[trigger] dv[j] == (
                    self.entries@[j].0@,
                    self.entries@[j].1@,
                ),
                page.deep_view() =~= dv.subrange(self.served as int, i as int),
            decreases stop - i,
        {
            let ghost odv = page.deep_view();
            let e = crate::local_storage::clone_entry(&self.entries[i]);
            page.push(e);
            proof {
                lemma_deep_view_entries(&page);
                assert(page.deep_view() =~= odv.push(dv[i as int]));
                assert(page.deep_view() =~= dv.subrange(self.served as int, i + 1));
            }
            i += 1;
        }
        self.served = stop;
        let cursor = if stop < self.entries.len() {
            Some(clone_bytes(&self.entries[stop].0))
        } else {
            None
        };
        (page, cursor)
    }
}

impl ForkedStorage {
    /// Drain the iterator `id` against a paged remote range: the result is
    /// the merge of the iterator's overlay snapshot with the remote range,
    /// whatever page size the pager serves.
    pub fn drain_scan(&mut self, id: u32, pager: &mut RemotePager) -> (r: Vec<RawEntry>)
        requires
            old(self).valid_iter(id),
            old(self).iters_view()[id - 1].lpos == 0,
            old(self).iters_view()[id - 1].rpos == 0,
            old(self).iters_view()[id - 1].remote.len() == 0,
            old(self).iters_view()[id - 1].cursor is Some,
            old(pager).served_count() == 0,
            old(pager).page_len() >= 1,
            old(pager).served_count() <= old(pager).entries_view().len(),
        ensures
            r.deep_view() == merged(
                old(self).iters_view()[id - 1].local,
                old(pager).entries_view(),
                old(self).iters_view()[id - 1].reverse,
            ),
            final(self).overlay_view() == old(self).overlay_view(),
            final(self).tombstones_view() == old(self).tombstones_view(),
            final(self).chain_view() == old(self).chain_view(),
            final(self).addr_view() == old(self).addr_view(),
            final(self).wf() == old(self).wf(),
            final(self).iters_view().len() == old(self).iters_view().len(),
    {
        let ghost l = old(self).iters_view()[id - 1].local;
        let ghost e = old(pager).entries_view();
        let ghost rev = old(self).iters_view()[id - 1].reverse;
        let mut out: Vec<RawEntry> = Vec::new();
        proof {
            lemma_deep_view_entries(&out);
            assert(l.skip(0) =~= l);
            assert(e.skip(0) =~= e);
            assert(out.deep_view() + merged(l, e, rev) =~= merged(l, e, rev));
            assert(old(self).iters_view()[id - 1].remote =~= e.take(0));
        }
        loop
            invariant
                self.valid_iter(id),
                self.iters_view().len() == old(self).iters_view().len(),
                self.overlay_view() == old(self).overlay_view(),
                self.tombstones_view() == old(self).tombstones_view(),
                self.chain_view() == old(self).chain_view(),
                self.addr_view() == old(self).addr_view(),
                self.wf() == old(self).wf(),
                l == old(self).iters_view()[id - 1].local,
                e == old(pager).entries_view(),
                rev == old(self).iters_view()[id - 1].reverse,
                pager.entries_view() == e,
                pager.page_len() >= 1,
                0 <= pager.served_count() <= e.len(),
                self.iters_view()[id - 1].local == l,
                self.iters_view()[id - 1].reverse == rev,
                0 <= self.iters_view()[id - 1].lpos <= l.len(),
                self.iters_view()[id - 1].remote == e.take(pager.served_count()),
                0 <= self.iters_view()[id - 1].rpos <= pager.served_count(),
                self.iters_view()[id - 1].cursor is None ==> pager.served_count() == e.len(),
                out.deep_view() + merged(
                    l.skip(self.iters_view()[id - 1].lpos),
                    e.skip(self.iters_view()[id - 1].rpos),
                    rev,
                ) == merged(l, e, rev),
            decreases
                    e.len() - pager.served_count() + cursor_flag(
                        self.iters_view()[id - 1].cursor,
                    ),
                    l.len() - self.iters_view()[id - 1].lpos + e.len() - self.iters_view()[id
                        - 1].rpos,
        {
            let ghost w = self.iters_view()[id - 1];
            let ghost lrest = l.skip(w.lpos);
            let ghost rrest = e.skip(w.rpos);
            let step = match self.next(id) {
                Ok(s) => s,
                Err(_) => {
                    proof {
                        assert(false);
                    }
                    return Vec::new();
                },
            };
            match step {
                NextStep::NeedPage(_req) => {
                    proof {
                        assert(w.rpos == w.remote.len());
                    }
                    let (page, cur) = pager.next_page();
                    let ghost served0 = old(pager).entries_view();
                    let fed = self.feed_page(id, page, cur);
                    proof {
                        assert(fed is Ok);
                        assert(self.iters_view()[id - 1].remote =~= e.take(
                            pager.served_count(),
                        ));
                    }
                },
                NextStep::Emit(k, v) => {
                    let ghost odv = out.deep_view();
                    out.push((k, v));
                    proof {
                        lemma_deep_view_entries(&out);
                        let w2 = self.iters_view()[id - 1];
                        assert(lrest.len() > 0 || rrest.len() > 0);
                        if w.lpos < l.len() && w.rpos < w.remote.len() {
                            assert(lrest[0] == l[w.lpos]);
                            assert(rrest[0] == e[w.rpos]);
                            assert(lrest.drop_first() =~= l.skip(w.lpos + 1));
                            assert(rrest.drop_first() =~= e.skip(w.rpos + 1));
                            if e[w.rpos].0 == l[w.lpos].0 {
                                assert(out.deep_view() =~= odv.push(l[w.lpos]));
                                assert(merged(lrest, rrest, rev) == seq![l[w.lpos]] + merged(
                                    l.skip(w.lpos + 1),
                                    e.skip(w.rpos + 1),
                                    rev,
                                ));
                            } else if ahead(e[w.rpos].0, l[w.lpos].0, rev) {
                                assert(out.deep_view() =~= odv.push(e[w.rpos]));
                                assert(merged(lrest, rrest, rev) == seq![e[w.rpos]] + merged(
                                    lrest,
                                    e.skip(w.rpos + 1),
                                    rev,
                                ));
                            } else {
                                assert(out.deep_view() =~= odv.push(l[w.lpos]));
                                assert(merged(lrest, rrest, rev) == seq![l[w.lpos]] + merged(
                                    l.skip(w.lpos + 1),
                                    rrest,
                                    rev,
                                ));
                            }
                        } else if w.lpos < l.len() {
                            assert(w.rpos == w.remote.len());
                            assert(w.cursor is None);
                            assert(w.rpos == e.len());
                            assert(rrest.len() == 0);
                            assert(lrest[0] == l[w.lpos]);
                            assert(lrest.drop_first() =~= l.skip(w.lpos + 1));
                            assert(out.deep_view() =~= odv.push(l[w.lpos]));
                            assert(merged(lrest, rrest, rev) == lrest);
                            assert(lrest =~= seq![l[w.lpos]] + l.skip(w.lpos + 1));
                            assert(merged(l.skip(w.lpos + 1), rrest, rev) == l.skip(
                                w.lpos + 1,
                            ));
                        } else {
                            assert(w.rpos < w.remote.len());
                            assert(lrest.len() == 0);
                            assert(rrest[0] == e[w.rpos]);
                            assert(rrest.drop_first() =~= e.skip(w.rpos + 1));
                            assert(out.deep_view() =~= odv.push(e[w.rpos]));
                            assert(merged(lrest, rrest, rev) == rrest);
                            assert(rrest =~= seq![e[w.rpos]] + e.skip(w.rpos + 1));
                            assert(merged(lrest, e.skip(w.rpos + 1), rev) == e.skip(
                                w.rpos + 1,
                            ));
                        }
                        assert(out.deep_view() + merged(
                            l.skip(self.iters_view()[id - 1].lpos),
                            e.skip(self.iters_view()[id - 1].rpos),
                            rev,
                        ) =~= merged(l, e, rev));
                    }
                },
                NextStep::Done => {
                    proof {
                        assert(lrest.len() == 0);
                        assert(w.rpos == w.remote.len());
                        assert(w.cursor is None);
                        assert(rrest.len() == 0);
                        assert(out.deep_view() =~= merged(l, e, rev));
                        assert(out.deep_view() == merged(
                            old(self).iters_view()[id - 1].local,
                            old(pager).entries_view(),
                            old(self).iters_view()[id - 1].reverse,
                        ));
                    }
                    return out;
                },
            }
        }
    }
}

impl ForkedStorage {
    /// The storage delta of a finished call: the full resulting overlay, and
    /// the keys explicitly removed (the tombstones, not a diff against the
    /// remote baseline).
    pub fn changes(&self) -> (r: crate::model::StorageChanges)
        ensures
            r@.current_keys == rng(self.overlay_view(), None, None),
            r@.removed_keys == self.tombstones_view(),
    {
        let current_keys = self.overlay.all_entries();
        let mut removed_keys: Vec<Vec<u8>> = Vec::new();
        let mut i: usize = 0;
        proof {
            lemma_deep_view_keys(&self.tombstones);
            lemma_deep_view_keys(&removed_keys);
            assert(removed_keys.deep_view() =~= self.tombstones_view().take(0));
        }
        while i < self.tombstones.len()
            invariant
                i <= self.tombstones@.len(),
                self.tombstones@.len() == self.tombstones_view().len(),
                forall|j: int|
                    0 <= j < self.tombstones@.len() ==> #[trigger] self.tombstones_view()[j]
                        == self.tombstones@[j]@,
                removed_keys.deep_view() =~= self.tombstones_view().take(i as int),
            decreases self.tombstones@.len() - i,
        {
            let ghost odv = removed_keys.deep_view();
            let k = clone_bytes(&self.tombstones[i]);
            removed_keys.push(k);
            proof {
                lemma_deep_view_keys(&removed_keys);
                assert(removed_keys.deep_view() =~= odv.push(self.tombstones_view()[i as int]));
                assert(removed_keys.deep_view() =~= self.tombstones_view().take(i + 1));
            }
            i += 1;
        }
        proof {
            assert(self.tombstones_view().take(self.tombstones_view().len() as int)
                =~= self.tombstones_view());
        }
        let r = crate::model::StorageChanges { current_keys, removed_keys };
        proof {
            assert(r@.current_keys =~= rng(self.overlay_view(), None, None));
        }
        r
    }
}

/// The remote key is strictly ahead of the local key for the direction.
fn remote_ahead(remote_key: &Vec<u8>, local_key: &Vec<u8>, reverse: bool) -> (r: bool)
    ensures
        r == ahead(remote_key@, local_key@, reverse),
{
    if reverse {
        key_int_lt(local_key.as_slice(), remote_key.as_slice())
    } else {
        key_int_lt(remote_key.as_slice(), local_key.as_slice())
    }
}

/// Each element of the deep view of a key vector is the view of the element.
pub proof fn lemma_deep_view_keys(v: &Vec<Vec<u8>>)
    ensures
        v.deep_view().len() == v@.len(),
        forall|i: int| 0 <= i < v@.len() ==> #[trigger] v.deep_view()[i] == v@[i]@,
{
    assert forall|i: int| 0 <= i < v@.len() implies #[trigger] v.deep_view()[i] == v@[i]@ by {
        assert(v.deep_view()[i] =~= v@[i]@);
    }
}

/// `without` removes every record of `k`.
pub proof fn lemma_without_absent(ts: Seq<Seq<u8>>, k: Seq<u8>)
    ensures
        !without(ts, k).contains(k),
    decreases ts.len(),
{
    if ts.len() > 0 {
        lemma_without_absent(ts.drop_first(), k);
        if ts[0] != k {
            let r = seq![ts[0]] + without(ts.drop_first(), k);
            assert(without(ts, k) == r);
            if r.contains(k) {
                let j = choose|j: int| 0 <= j < r.len() && r[j] == k;
                assert(j > 0);
                assert(without(ts.drop_first(), k)[j - 1] == k);
                assert(without(ts.drop_first(), k).contains(k));
            }
        }
    }
}

/// A key recorded in `without(ts, k)` is recorded in `ts`.
pub proof fn lemma_without_sub(ts: Seq<Seq<u8>>, k: Seq<u8>, q: Seq<u8>)
    ensures
        without(ts, k).contains(q) ==> ts.contains(q),
    decreases ts.len(),
{
    if ts.len() > 0 {
        lemma_without_sub(ts.drop_first(), k, q);
        if without(ts, k).contains(q) {
            if ts[0] == k {
                assert(without(ts.drop_first(), k).contains(q));
                let j = choose|j: int|
                    0 <= j < ts.drop_first().len() && ts.drop_first()[j] == q;
                assert(ts[j + 1] == q);
            } else {
                let r = seq![ts[0]] + without(ts.drop_first(), k);
                assert(without(ts, k) == r);
                let j = choose|j: int| 0 <= j < r.len() && r[j] == q;
                if j == 0 {
                    assert(ts[0] == q);
                } else {
                    assert(without(ts.drop_first(), k)[j - 1] == q);
                    assert(without(ts.drop_first(), k).contains(q));
                    let m = choose|m: int|
                        0 <= m < ts.drop_first().len() && ts.drop_first()[m] == q;
                    assert(ts[m + 1] == q);
                }
            }
        }
    }
}

/// Writing a key and then reading it back gives the written value, whatever
/// the remote chain holds: the overlay takes precedence.
pub proof fn lemma_overlay_precedence(
    ts: Seq<Seq<u8>>,
    overlay: Seq<AbsEntry>,
    k: Seq<u8>,
    v: Seq<u8>,
    remote: Option<Seq<u8>>,
)
    ensures
        spec_resolve(spec_probe(without(ts, k), store(overlay, k, v), k), remote) == Some(v),
{
    lemma_without_absent(ts, k);
    lemma_lookup_store(overlay, k, v, k);
}

/// Removing a key and then reading it back gives absent, whatever the remote
/// chain holds: the tombstone suppresses remote fallback.
pub proof fn lemma_tombstone_precedence(
    ts: Seq<Seq<u8>>,
    overlay: Seq<AbsEntry>,
    k: Seq<u8>,
    remote: Option<Seq<u8>>,
)
    ensures
        spec_resolve(spec_probe(with_key(ts, k), erase(overlay, k), k), remote)
            is None,
{
    if ts.contains(k) {
    } else {
        assert(with_key(ts, k).contains(k)) by {
            assert(with_key(ts, k)[ts.len() as int] == k);
        }
    }
}

} // verus!
