//! Inspection of a call-scoped snapshot: per-contract storage and bank
//! balances, read out of one captured querier snapshot.

use vstd::prelude::*;

use crate::model::BankStorage;
use crate::model::Coin;
use crate::model::QuerierStorage;
use crate::querier::assoc;

verus! {

/// Reads one captured snapshot of the local state.
pub struct StateAnalyzer {
    /// The captured snapshot.
    pub storage: QuerierStorage,
}

impl StateAnalyzer {
    /// An analyzer over one captured snapshot.
    pub fn new(storage: QuerierStorage) -> (r: StateAnalyzer)
        ensures
            r.storage@ == storage@,
    {
        StateAnalyzer { storage }
    }

    /// The bank side of the snapshot.
    pub fn get_bank_data(&self) -> (r: &BankStorage)
        ensures
            r@ == self.storage@.bank,
    {
        &self.storage.bank
    }

    /// The balances of one address in the snapshot; an unlisted address
    /// holds nothing.
    pub fn get_balance(&self, addr: &Vec<u8>) -> (r: Vec<Coin>)
        ensures
            r.deep_view() == (match assoc(self.storage@.bank.storage, addr@) {
                Some(coins) => coins,
                None => Seq::empty(),
            }),
    {
        let ghost dv = self.storage.bank.storage.deep_view();
        proof {
            crate::model::lemma_dv_bank_rows(&self.storage.bank.storage);
            assert(dv.skip(0) =~= dv);
        }
        let rows = &self.storage.bank.storage;
        let mut i: usize = 0;
        while i < rows.len()
            invariant
                i <= rows@.len(),
                dv == rows.deep_view(),
                dv == self.storage@.bank.storage,
                rows@.len() == dv.len(),
                forall|j: int|
                    0 <= j < dv.len() ==> #[trigger] dv[j] == (
                        rows@[j].0@,
                        rows@[j].1.deep_view(),
                    ),
                assoc(dv, addr@) == assoc(dv.skip(i as int), addr@),
            decreases rows@.len() - i,
        {
            proof {
                assert(dv.skip(i as int)[0] == dv[i as int]);
                assert(dv.skip(i as int).drop_first() =~= dv.skip(i + 1));
            }
            if crate::keys::key_eq(rows[i].0.as_slice(), addr.as_slice()) {
                return crate::model::clone_coins(&rows[i].1);
            }
            i += 1;
        }
        proof {
            assert(dv.skip(i as int).len() == 0);
        }
        let empty: Vec<Coin> = Vec::new();
        proof {
            assert(empty.deep_view() =~= Seq::<crate::model::AbsCoin>::empty());
        }
        empty
    }

    /// The storage of one contract in the snapshot, with the namespace
    /// prefix stripped.
    pub fn get_contract_storage(&self, contract_addr: &Vec<u8>) -> (r: Vec<(Vec<u8>, Vec<u8>)>)
        requires
            contract_addr@.len() + 14 <= 0xFFFF,
        ensures
            r.deep_view() == crate::querier::spec_namespace_entries(
                self.storage@.wasm.storage,
                crate::querier::spec_storage_namespace(contract_addr@),
            ),
    {
        crate::querier::get_contract_storage(&self.storage.wasm.storage, contract_addr)
    }
}

} // verus!
