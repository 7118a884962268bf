//! Querier emulation: contract, bank and staking queries are answered from
//! the call-scoped local snapshot first; only a miss falls back to the remote
//! chain, surfaced as a request value the caller fulfils.  A smart query
//! against a contract resolves its bytecode and asks for a full nested
//! execution of the target's query entry point — a real re-entrant run, not a
//! cached remote answer.

use vstd::prelude::*;

use crate::local_storage::clone_bytes;
use crate::model::clone_coins;
use crate::model::AbsCoin;
use crate::model::AbsContractData;
use crate::model::AbsDelegation;
use crate::model::AbsValidator;
use crate::model::AbsWasmContract;
use crate::model::ChainDescriptor;
use crate::model::Coin;
use crate::model::ContractData;
use crate::model::Delegation;
use crate::model::DistantCodeId;
use crate::model::DistantContract;
use crate::model::Env;
use crate::model::QuerierStorage;
use crate::model::Validator;
use crate::model::WasmContract;

verus! {

/// First-match lookup in an association list keyed by byte strings.
pub open spec fn assoc<V>(s: Seq<(Seq<u8>, V)>, k: Seq<u8>) -> Option<V>
    decreases s.len(),
{
    if s.len() == 0 {
        None
    } else if s[0].0 == k {
        Some(s[0].1)
    } else {
        assoc(s.drop_first(), k)
    }
}

/// First-match lookup in an association list keyed by numbers.
pub open spec fn assoc_u64<V>(s: Seq<(u64, V)>, k: u64) -> Option<V>
    decreases s.len(),
{
    if s.len() == 0 {
        None
    } else if s[0].0 == k {
        Some(s[0].1)
    } else {
        assoc_u64(s.drop_first(), k)
    }
}

/// A wasm-module query, as a contract poses it.
#[derive(Debug, Clone, PartialEq, Eq)]
pub enum WasmQueryMsg {
    /// Metadata of a contract.
    ContractInfo { contract_addr: Vec<u8> },
    /// One raw storage value of a contract.
    Raw { contract_addr: Vec<u8>, key: Vec<u8> },
    /// A smart query: run the target's query entry point on `msg`.
    Smart { contract_addr: Vec<u8>, msg: Vec<u8> },
}

/// The two-byte big-endian length prefix of a namespace.
pub open spec fn be16(n: nat) -> Seq<u8> {
    seq![(n / 256) as u8, (n % 256) as u8]
}

/// One namespace, length-prefixed.
pub open spec fn length_prefixed(ns: Seq<u8>) -> Seq<u8> {
    be16(ns.len()) + ns
}

/// Nested namespaces, each length-prefixed, concatenated.
pub open spec fn spec_length_prefixed_nested(nss: Seq<Seq<u8>>) -> Seq<u8>
    decreases nss.len(),
{
    if nss.len() == 0 {
        Seq::empty()
    } else {
        length_prefixed(nss[0]) + spec_length_prefixed_nested(nss.drop_first())
    }
}

/// The namespace all wasm-module state sits under.
pub open spec fn spec_wasm_namespace() -> Seq<u8> {
    seq![119u8, 97u8, 115u8, 109u8]
}

/// The per-contract storage prefix: `contract_data/` followed by the address.
pub open spec fn spec_contract_data_prefix(addr: Seq<u8>) -> Seq<u8> {
    seq![
        99u8,
        111u8,
        110u8,
        116u8,
        114u8,
        97u8,
        99u8,
        116u8,
        95u8,
        100u8,
        97u8,
        116u8,
        97u8,
        47u8,
    ] + addr
}

/// The raw key prefix of one contract's namespaced storage.
pub open spec fn spec_storage_namespace(addr: Seq<u8>) -> Seq<u8> {
    spec_length_prefixed_nested(
        seq![spec_wasm_namespace(), spec_contract_data_prefix(addr)],
    )
}

/// Encodes the length of a namespace as a two-byte big-endian integer.
pub fn encode_length(namespace: &[u8]) -> (r: [u8; 2])
    requires
        namespace@.len() <= 0xFFFF,
    ensures
        r@ == be16(namespace@.len()),
{
    let len = namespace.len() as u16;
    let r = [(len / 256) as u8, (len % 256) as u8];
    proof {
        assert(r@ =~= be16(namespace@.len()));
    }
    r
}

/// Calculates the raw key prefix for a given nested namespace: each
/// namespace is length-prefixed, and the results are concatenated.
pub fn to_length_prefixed_nested(namespaces: &Vec<Vec<u8>>) -> (r: Vec<u8>)
    requires
        forall|i: int| 0 <= i < namespaces@.len() ==> (#[trigger] namespaces@[i])@.len() <= 0xFFFF,
    ensures
        r@ == spec_length_prefixed_nested(namespaces.deep_view()),
{
    let ghost dv = namespaces.deep_view();
    let mut out: Vec<u8> = Vec::new();
    let mut i: usize = 0;
    proof {
        crate::fork_storage::lemma_deep_view_keys(namespaces);
        assert(dv.skip(0) =~= dv);
        assert(out@ + spec_length_prefixed_nested(dv) =~= spec_length_prefixed_nested(dv));
    }
    while i < namespaces.len()
        invariant
            i <= namespaces@.len(),
            dv == namespaces.deep_view(),
            namespaces@.len() == dv.len(),
            forall|j: int| 0 <= j < dv.len() ==> #[trigger] dv[j] == namespaces@[j]@,
            forall|j: int|
                0 <= j < namespaces@.len() ==> (#[trigger] namespaces@[j])@.len() <= 0xFFFF,
            out@ + spec_length_prefixed_nested(dv.skip(i as int)) == spec_length_prefixed_nested(
                dv,
            ),
        decreases namespaces@.len() - i,
    {
        proof {
            assert(dv.skip(i as int)[0] == dv[i as int]);
            assert(dv.skip(i as int).drop_first() =~= dv.skip(i + 1));
        }
        let ghost before = out@;
        let ns = &namespaces[i];
        let pre = encode_length(ns.as_slice());
        out.push(pre[0]);
        out.push(pre[1]);
        let mut j: usize = 0;
        while j < ns.len()
            invariant
                j <= ns@.len(),
                out@ =~= before + be16(ns@.len()) + ns@.take(j as int),
            decreases ns@.len() - j,
        {
            out.push(ns[j]);
            proof {
                assert(out@ =~= before + be16(ns@.len()) + ns@.take(j + 1));
            }
            j += 1;
        }
        proof {
            assert(ns@.take(ns@.len() as int) =~= ns@);
            assert(out@ =~= before + length_prefixed(dv[i as int]));
            assert(out@ + spec_length_prefixed_nested(dv.skip(i + 1))
                =~= spec_length_prefixed_nested(dv));
        }
        i += 1;
    }
    proof {
        assert(spec_length_prefixed_nested(dv.skip(dv.len() as int)).len() == 0);
        assert(out@ =~= spec_length_prefixed_nested(dv));
    }
    out
}

/// The raw key prefix of one contract's namespaced storage.
pub fn contract_storage_namespace(address: &Vec<u8>) -> (r: Vec<u8>)
    requires
        address@.len() + 14 <= 0xFFFF,
    ensures
        r@ == spec_storage_namespace(address@),
{
    let mut namespace: Vec<u8> = Vec::new();
    namespace.push(99);
    namespace.push(111);
    namespace.push(110);
    namespace.push(116);
    namespace.push(114);
    namespace.push(97);
    namespace.push(99);
    namespace.push(116);
    namespace.push(95);
    namespace.push(100);
    namespace.push(97);
    namespace.push(116);
    namespace.push(97);
    namespace.push(47);
    let mut k: usize = 0;
    let ghost head = namespace@;
    proof {
        assert(head =~= seq![
            99u8,
            111u8,
            110u8,
            116u8,
            114u8,
            97u8,
            99u8,
            116u8,
            95u8,
            100u8,
            97u8,
            116u8,
            97u8,
            47u8,
        ]);
    }
    while k < address.len()
        invariant
            k <= address@.len(),
            namespace@ =~= head + address@.take(k as int),
        decreases address@.len() - k,
    {
        namespace.push(address[k]);
        proof {
            assert(namespace@ =~= head + address@.take(k + 1));
        }
        k += 1;
    }
    proof {
        assert(address@.take(address@.len() as int) =~= address@);
        assert(namespace@ =~= spec_contract_data_prefix(address@));
    }
    let mut wasm_ns: Vec<u8> = Vec::new();
    wasm_ns.push(119);
    wasm_ns.push(97);
    wasm_ns.push(115);
    wasm_ns.push(109);
    proof {
        assert(wasm_ns@ =~= spec_wasm_namespace());
    }
    let mut nss: Vec<Vec<u8>> = Vec::new();
    nss.push(wasm_ns);
    nss.push(namespace);
    let r = to_length_prefixed_nested(&nss);
    proof {
        crate::fork_storage::lemma_deep_view_keys(&nss);
        assert(nss.deep_view() =~= seq![
            spec_wasm_namespace(),
            spec_contract_data_prefix(address@),
        ]);
    }
    r
}

/// The entries of one contract's namespace, with the prefix stripped.
pub open spec fn spec_namespace_entries(
    entries: Seq<(Seq<u8>, Seq<u8>)>,
    ns: Seq<u8>,
) -> Seq<(Seq<u8>, Seq<u8>)>
    decreases entries.len(),
{
    if entries.len() == 0 {
        entries
    } else {
        let rest = spec_namespace_entries(entries.drop_first(), ns);
        if entries[0].0.len() >= ns.len() && entries[0].0.take(ns.len() as int) == ns {
            seq![(entries[0].0.skip(ns.len() as int), entries[0].1)] + rest
        } else {
            rest
        }
    }
}

/// The storage of one contract, extracted from the flat namespaced snapshot:
/// the entries under the contract's prefix, with the prefix stripped.
pub fn get_contract_storage(
    storage: &Vec<(Vec<u8>, Vec<u8>)>,
    contract_addr: &Vec<u8>,
) -> (r: Vec<(Vec<u8>, Vec<u8>)>)
    requires
        contract_addr@.len() + 14 <= 0xFFFF,
    ensures
        r.deep_view() == spec_namespace_entries(
            storage.deep_view(),
            spec_storage_namespace(contract_addr@),
        ),
{
    let ns = contract_storage_namespace(contract_addr);
    let ghost dv = storage.deep_view();
    let ghost nsv = ns@;
    let mut out: Vec<(Vec<u8>, Vec<u8>)> = Vec::new();
    let mut i: usize = 0;
    proof {
        crate::local_storage::lemma_deep_view_entries(storage);
        crate::local_storage::lemma_deep_view_entries(&out);
        assert(dv.skip(0) =~= dv);
        assert(out.deep_view() + spec_namespace_entries(dv, nsv) =~= spec_namespace_entries(
            dv,
            nsv,
        ));
    }
    while i < storage.len()
        invariant
            i <= storage@.len(),
            dv == storage.deep_view(),
            storage@.len() == dv.len(),
            nsv == ns@,
            forall|j: int|
                0 <= j < dv.len() ==> #[trigger] dv[j] == (storage@[j].0@, storage@[j].1@),
            out.deep_view() + spec_namespace_entries(dv.skip(i as int), nsv)
                == spec_namespace_entries(dv, nsv),
        decreases storage@.len() - i,
    {
        proof {
            assert(dv.skip(i as int)[0] == dv[i as int]);
            assert(dv.skip(i as int).drop_first() =~= dv.skip(i + 1));
        }
        let key = &storage[i].0;
        if key.len() >= ns.len() && starts_with(key.as_slice(), ns.as_slice()) {
            let ghost odv = out.deep_view();
            let stripped = tail_from(key.as_slice(), ns.len());
            let value = clone_bytes(&storage[i].1);
            out.push((stripped, value));
            proof {
                crate::local_storage::lemma_deep_view_entries(&out);
                assert(out.deep_view() =~= odv.push(
                    (dv[i as int].0.skip(nsv.len() as int), dv[i as int].1),
                ));
                assert(out.deep_view() + spec_namespace_entries(dv.skip(i + 1), nsv)
                    =~= spec_namespace_entries(dv, nsv));
            }
        }
        i += 1;
    }
    proof {
        assert(spec_namespace_entries(dv.skip(dv.len() as int), nsv).len() == 0);
        assert(out.deep_view() =~= spec_namespace_entries(dv, nsv));
    }
    out
}

/// Whether `s` begins with `prefix`.
pub fn starts_with(s: &[u8], prefix: &[u8]) -> (r: bool)
    requires
        prefix@.len() <= s@.len(),
    ensures
        r == (s@.take(prefix@.len() as int) == prefix@),
{
    let mut i: usize = 0;
    while i < prefix.len()
        invariant
            i <= prefix@.len(),
            prefix@.len() <= s@.len(),
            forall|j: int| 0 <= j < i ==> s@[j] == prefix@[j],
        decreases prefix@.len() - i,
    {
        if s[i] != prefix[i] {
            assert(s@.take(prefix@.len() as int)[i as int] != prefix@[i as int]);
            return false;
        }
        i += 1;
    }
    assert(s@.take(prefix@.len() as int) =~= prefix@);
    true
}

/// The bytes of `s` from position `from` on.
pub fn tail_from(s: &[u8], from: usize) -> (r: Vec<u8>)
    requires
        from <= s@.len(),
    ensures
        r@ == s@.skip(from as int),
{
    let mut out: Vec<u8> = Vec::new();
    let mut i: usize = from;
    proof {
        assert(out@ =~= s@.subrange(from as int, from as int));
    }
    while i < s.len()
        invariant
            from <= i <= s@.len(),
            out@ =~= s@.subrange(from as int, i as int),
        decreases s@.len() - i,
    {
        out.push(s[i]);
        proof {
            assert(out@ =~= s@.subrange(from as int, i + 1));
        }
        i += 1;
    }
    assert(out@ =~= s@.skip(from as int));
    out
}

/// Contract metadata as a query answers it.
#[derive(Debug, Clone, PartialEq, Eq)]
pub struct ContractInfoAnswer {
    pub code_id: u64,
    pub creator: Vec<u8>,
    pub admin: Option<Vec<u8>>,
}

/// What the local snapshot alone can answer for a wasm query; a miss carries
/// the exact remote request or nested execution the caller must perform.
#[derive(Debug, Clone, PartialEq, Eq)]
pub enum WasmQueryOutcome {
    /// Contract metadata, answered from the local registry.
    Info(ContractInfoAnswer),
    /// The registry misses: fetch the contract's metadata remotely.
    NeedRemoteInfo { contract_addr: Vec<u8> },
    /// A raw value, answered from the local snapshot.
    RawValue(Vec<u8>),
    /// The snapshot misses: fetch the raw value remotely.
    NeedRemoteRaw { contract_addr: Vec<u8>, key: Vec<u8> },
    /// A smart query: run the resolved contract's query entry point with the
    /// synthetic environment and the target's local storage.
    RunQuery { contract: WasmContract, env: Env, msg: Vec<u8>, init_storage: Vec<(Vec<u8>, Vec<u8>)> },
}

/// The bytecode reference a smart query resolves to: the local code table
/// entry when the registry and the table know the contract, the chain by code
/// id when only the registry does, and the chain by address otherwise.
pub open spec fn spec_resolve_smart(
    wasm: crate::model::AbsWasmStorage,
    chain: crate::model::AbsChainDescriptor,
    addr: Seq<u8>,
) -> AbsWasmContract {
    match assoc(wasm.contracts, addr) {
        Some(data) => match assoc_u64(wasm.codes, data.code_id) {
            Some(code) => code,
            None => AbsWasmContract::DistantCodeId(data.code_id, chain),
        },
        None => AbsWasmContract::DistantContract(addr, chain),
    }
}

/// The synthetic environment a nested smart query runs under: fixed block
/// metadata carrying the target contract's address.
pub fn synthetic_env(contract_addr: Vec<u8>) -> (r: Env)
    ensures
        r.block_height == 12345,
        r.block_time_nanos == 1571797419879305533,
        r.transaction_index == Some(3u64),
        r.contract_addr@ == contract_addr@,
        r.chain_id@ =~= seq![
            99u8,
            111u8,
            115u8,
            109u8,
            111u8,
            115u8,
            45u8,
            116u8,
            101u8,
            115u8,
            116u8,
            110u8,
            101u8,
            116u8,
            45u8,
            49u8,
            52u8,
            48u8,
            48u8,
            50u8,
        ],
{
    let mut chain_id: Vec<u8> = Vec::new();
    chain_id.push(99);
    chain_id.push(111);
    chain_id.push(115);
    chain_id.push(109);
    chain_id.push(111);
    chain_id.push(115);
    chain_id.push(45);
    chain_id.push(116);
    chain_id.push(101);
    chain_id.push(115);
    chain_id.push(116);
    chain_id.push(110);
    chain_id.push(101);
    chain_id.push(116);
    chain_id.push(45);
    chain_id.push(49);
    chain_id.push(52);
    chain_id.push(48);
    chain_id.push(48);
    chain_id.push(50);
    Env {
        block_height: 12345,
        block_time_nanos: 1571797419879305533,
        chain_id,
        contract_addr,
        transaction_index: Some(3),
    }
}


/// What a wasm query must answer, given the snapshot and the chain: the
/// local registry, code table and raw storage first; a miss owes exactly one
/// remote fetch; a smart query owes one nested execution of the resolved
/// target over its local storage and the synthetic environment.
pub open spec fn wasm_query_post(
    snapshot: crate::model::AbsQuerierStorage,
    chain: crate::model::AbsChainDescriptor,
    request: WasmQueryMsg,
    r: WasmQueryOutcome,
) -> bool {
    match request {
        WasmQueryMsg::ContractInfo { contract_addr } => match assoc(
            snapshot.wasm.contracts,
            contract_addr@,
        ) {
            Some(data) => r matches WasmQueryOutcome::Info(a) && a.code_id == data.code_id
                && a.creator@ == data.creator && crate::codec::opt_bytes_view(&a.admin)
                == data.admin,
            None => r matches WasmQueryOutcome::NeedRemoteInfo { contract_addr: a } && a@
                == contract_addr@,
        },
        WasmQueryMsg::Raw { contract_addr, key } => {
            let total_key = spec_storage_namespace(contract_addr@) + key@;
            match assoc(snapshot.wasm.storage, total_key) {
                Some(v) => r matches WasmQueryOutcome::RawValue(b) && b@ == v,
                None => r matches WasmQueryOutcome::NeedRemoteRaw { contract_addr: a, key: k }
                    && a@ == contract_addr@ && k@ == key@,
            }
        },
        WasmQueryMsg::Smart { contract_addr, msg } => r matches WasmQueryOutcome::RunQuery {
            contract,
            env,
            msg: m,
            init_storage,
        } && contract@ == spec_resolve_smart(snapshot.wasm, chain, contract_addr@)
            && env.contract_addr@ == contract_addr@ && m@ == msg@ && init_storage.deep_view()
            == spec_namespace_entries(
            snapshot.wasm.storage,
            spec_storage_namespace(contract_addr@),
        ),
    }
}

/// What a bank query must answer, given the ledger: a listed address
/// answers locally — a denomination it does not hold answers zero — and only
/// an unlisted address owes one live remote balance query.  Local and remote
/// are alternatives, never summed.
pub open spec fn bank_query_post(
    balances: Seq<(Seq<u8>, Seq<AbsCoin>)>,
    request: BankQueryMsg,
    r: BankQueryOutcome,
) -> bool {
    match request {
        BankQueryMsg::Balance { address, denom } => match assoc(balances, address@) {
            Some(coins) => r matches BankQueryOutcome::Balance(c) && c.denom@ == denom@
                && c.amount == (match coin_amount(coins, denom@) {
                Some(a) => a,
                None => 0,
            }),
            None => r matches BankQueryOutcome::NeedRemoteBalance { address: a, denom: d } && a@
                == address@ && (d matches Some(dd) && dd@ == denom@),
        },
        BankQueryMsg::AllBalances { address } => match assoc(balances, address@) {
            Some(coins) => r matches BankQueryOutcome::AllBalances(v) && v.deep_view() == coins,
            None => r matches BankQueryOutcome::NeedRemoteBalance { address: a, denom: d } && a@
                == address@ && d is None,
        },
    }
}

/// What a staking query must answer, given the seeded snapshot; staking
/// state is never forked from the remote chain.
pub open spec fn staking_query_post(
    denom: Seq<u8>,
    validators: Seq<AbsValidator>,
    delegations: Seq<AbsDelegation>,
    request: StakingQueryMsg,
    r: StakingAnswer,
) -> bool {
    match request {
        StakingQueryMsg::BondedDenom => r matches StakingAnswer::BondedDenom(d) && d@ == denom,
        StakingQueryMsg::AllValidators => r matches StakingAnswer::Validators(v) && v.deep_view()
            == validators,
        StakingQueryMsg::Validator { address } => r matches StakingAnswer::MaybeValidator(v) && (
        match v {
            Some(x) => find_validator(validators, address@) == Some(x@),
            None => find_validator(validators, address@) is None,
        }),
        StakingQueryMsg::AllDelegations { delegator } => r matches StakingAnswer::Delegations(d)
            && d.deep_view() == delegations_of(delegations, delegator@),
        StakingQueryMsg::Delegation { delegator, validator } => r matches
            StakingAnswer::MaybeDelegation(d) && (match d {
            Some(x) => find_delegation(delegations, delegator@, validator@) == Some(x@),
            None => find_delegation(delegations, delegator@, validator@) is None,
        }),
    }
}

/// Resolves the bytecode reference a smart query targets: the local code
/// table entry when the registry and the table know the contract, the chain
/// by code id when only the registry does, the chain by address otherwise.
pub fn resolve_smart(
    wasm: &crate::model::WasmStorage,
    chain: &ChainDescriptor,
    contract_addr: &Vec<u8>,
) -> (r: WasmContract)
    ensures
        r@ == spec_resolve_smart(wasm@, chain@, contract_addr@),
{
    match lookup_contract(&wasm.contracts, contract_addr) {
        Some(data) => {
            match lookup_code(&wasm.codes, data.code_id) {
                Some(code) => code,
                None => WasmContract::DistantCodeId(
                    DistantCodeId { code_id: data.code_id, chain: chain.dup() },
                ),
            }
        },
        None => WasmContract::DistantContract(
            DistantContract { contract_addr: clone_bytes(contract_addr), chain: chain.dup() },
        ),
    }
}

/// Answers wasm queries from the call-scoped snapshot, falling back to the
/// remote chain on a miss.
pub struct WasmQuerier {
    chain: ChainDescriptor,
    current_storage: QuerierStorage,
}

impl WasmQuerier {
    /// The chain queried on a miss.
    pub closed spec fn chain_view(&self) -> crate::model::AbsChainDescriptor {
        self.chain@
    }

    /// The call-scoped snapshot answered from.
    pub closed spec fn storage_view(&self) -> crate::model::AbsQuerierStorage {
        self.current_storage@
    }

    /// A querier over the given snapshot; without one, over an empty
    /// snapshot.
    pub fn new(chain: ChainDescriptor, storage: Option<QuerierStorage>) -> (r: WasmQuerier)
        ensures
            r.chain_view() == chain@,
            match storage {
                Some(s) => r.storage_view() == s@,
                None => r.storage_view().wasm.contracts.len() == 0
                    && r.storage_view().wasm.codes.len() == 0 && r.storage_view().wasm.storage.len()
                    == 0 && r.storage_view().bank.storage.len() == 0,
            },
    {
        let current_storage = match storage {
            Some(s) => s,
            None => QuerierStorage {
                wasm: crate::model::WasmStorage {
                    contracts: Vec::new(),
                    codes: Vec::new(),
                    storage: Vec::new(),
                },
                bank: crate::model::BankStorage { storage: Vec::new() },
            },
        };
        let r = WasmQuerier { chain, current_storage };
        proof {
            if storage is None {
                crate::model::lemma_dv_contract_rows(&r.current_storage.wasm.contracts);
                crate::model::lemma_dv_code_rows(&r.current_storage.wasm.codes);
                crate::local_storage::lemma_deep_view_entries(&r.current_storage.wasm.storage);
                crate::model::lemma_dv_bank_rows(&r.current_storage.bank.storage);
            }
        }
        r
    }

    /// An owned copy of the snapshot, for nested executions.
    pub fn snapshot(&self) -> (r: QuerierStorage)
        ensures
            r@ == self.storage_view(),
    {
        self.current_storage.dup()
    }

    /// Answer a wasm query local-first: contract info and raw reads consult
    /// the snapshot and fall back to one remote fetch; a smart query resolves
    /// the target's bytecode and asks for one nested query execution over the
    /// target's local storage and the synthetic environment.
    pub fn query(&self, request: &WasmQueryMsg) -> (r: WasmQueryOutcome)
        requires
            match request {
                WasmQueryMsg::Raw { contract_addr, .. } => contract_addr@.len() + 14 <= 0xFFFF,
                WasmQueryMsg::Smart { contract_addr, .. } => contract_addr@.len() + 14 <= 0xFFFF,
                _ => true,
            },
        ensures
            wasm_query_post(self.storage_view(), self.chain_view(), *request, r),
    {
        match request {
            WasmQueryMsg::ContractInfo { contract_addr } => {
                match lookup_contract(&self.current_storage.wasm.contracts, contract_addr) {
                    Some(data) => WasmQueryOutcome::Info(
                        ContractInfoAnswer {
                            code_id: data.code_id,
                            creator: data.creator,
                            admin: data.admin,
                        },
                    ),
                    None => WasmQueryOutcome::NeedRemoteInfo {
                        contract_addr: clone_bytes(contract_addr),
                    },
                }
            },
            WasmQueryMsg::Raw { contract_addr, key } => {
                let mut total_key = contract_storage_namespace(contract_addr);
                let mut i: usize = 0;
                let ghost nsv = total_key@;
                while i < key.len()
                    invariant
                        i <= key@.len(),
                        total_key@ =~= nsv + key@.take(i as int),
                    decreases key@.len() - i,
                {
                    total_key.push(key[i]);
                    proof {
                        assert(total_key@ =~= nsv + key@.take(i + 1));
                    }
                    i += 1;
                }
                proof {
                    assert(key@.take(key@.len() as int) =~= key@);
                    assert(total_key@ =~= spec_storage_namespace(contract_addr@) + key@);
                }
                match lookup_entry(&self.current_storage.wasm.storage, &total_key) {
                    Some(v) => WasmQueryOutcome::RawValue(v),
                    None => WasmQueryOutcome::NeedRemoteRaw {
                        contract_addr: clone_bytes(contract_addr),
                        key: clone_bytes(key),
                    },
                }
            },
            WasmQueryMsg::Smart { contract_addr, msg } => {
                let contract = resolve_smart(&self.current_storage.wasm, &self.chain, contract_addr);
                let init_storage = get_contract_storage(
                    &self.current_storage.wasm.storage,
                    contract_addr,
                );
                let env = synthetic_env(clone_bytes(contract_addr));
                WasmQueryOutcome::RunQuery { contract, env, msg: clone_bytes(msg), init_storage }
            },
        }
    }
}

/// First-match lookup of a contract record by address.
fn lookup_contract(rows: &Vec<(Vec<u8>, ContractData)>, addr: &Vec<u8>) -> (r: Option<
    ContractData,
>)
    ensures
        match r {
            Some(v) => assoc(rows.deep_view(), addr@) == Some(v@),
            None => assoc(rows.deep_view(), addr@) is None,
        },
{
    let ghost dv = rows.deep_view();
    proof {
        crate::model::lemma_dv_contract_rows(rows);
        assert(dv.skip(0) =~= dv);
    }
    let mut i: usize = 0;
    while i < rows.len()
        invariant
            i <= rows@.len(),
            dv == rows.deep_view(),
            rows@.len() == dv.len(),
            forall|j: int| 0 <= j < dv.len() ==> #[trigger] dv[j] == (rows@[j].0@, rows@[j].1@),
            assoc(dv, addr@) == assoc(dv.skip(i as int), addr@),
        decreases rows@.len() - i,
    {
        proof {
            assert(dv.skip(i as int)[0] == dv[i as int]);
            assert(dv.skip(i as int).drop_first() =~= dv.skip(i + 1));
        }
        if crate::keys::key_eq(rows[i].0.as_slice(), addr.as_slice()) {
            return Some(rows[i].1.dup());
        }
        i += 1;
    }
    assert(dv.skip(i as int).len() == 0);
    None
}

/// First-match lookup of a code table entry by code id.
fn lookup_code(rows: &Vec<(u64, WasmContract)>, code_id: u64) -> (r: Option<WasmContract>)
    ensures
        match r {
            Some(v) => assoc_u64(rows.deep_view(), code_id) == Some(v@),
            None => assoc_u64(rows.deep_view(), code_id) is None,
        },
{
    let ghost dv = rows.deep_view();
    proof {
        crate::model::lemma_dv_code_rows(rows);
        assert(dv.skip(0) =~= dv);
    }
    let mut i: usize = 0;
    while i < rows.len()
        invariant
            i <= rows@.len(),
            dv == rows.deep_view(),
            rows@.len() == dv.len(),
            forall|j: int| 0 <= j < dv.len() ==> #[trigger] dv[j] == (rows@[j].0, rows@[j].1@),
            assoc_u64(dv, code_id) == assoc_u64(dv.skip(i as int), code_id),
        decreases rows@.len() - i,
    {
        proof {
            assert(dv.skip(i as int)[0] == dv[i as int]);
            assert(dv.skip(i as int).drop_first() =~= dv.skip(i + 1));
        }
        if rows[i].0 == code_id {
            return Some(rows[i].1.dup());
        }
        i += 1;
    }
    assert(dv.skip(i as int).len() == 0);
    None
}

/// First-match lookup of a raw storage entry by key.
fn lookup_entry(rows: &Vec<(Vec<u8>, Vec<u8>)>, key: &Vec<u8>) -> (r: Option<Vec<u8>>)
    ensures
        match r {
            Some(v) => assoc(rows.deep_view(), key@) == Some(v@),
            None => assoc(rows.deep_view(), key@) is None,
        },
{
    let ghost dv = rows.deep_view();
    proof {
        crate::local_storage::lemma_deep_view_entries(rows);
        assert(dv.skip(0) =~= dv);
    }
    let mut i: usize = 0;
    while i < rows.len()
        invariant
            i <= rows@.len(),
            dv == rows.deep_view(),
            rows@.len() == dv.len(),
            forall|j: int| 0 <= j < dv.len() ==> #[trigger] dv[j] == (rows@[j].0@, rows@[j].1@),
            assoc(dv, key@) == assoc(dv.skip(i as int), key@),
        decreases rows@.len() - i,
    {
        proof {
            assert(dv.skip(i as int)[0] == dv[i as int]);
            assert(dv.skip(i as int).drop_first() =~= dv.skip(i + 1));
        }
        if crate::keys::key_eq(rows[i].0.as_slice(), key.as_slice()) {
            return Some(clone_bytes(&rows[i].1));
        }
        i += 1;
    }
    assert(dv.skip(i as int).len() == 0);
    None
}

/// First-match lookup of a bank ledger row by address.
fn lookup_bank(rows: &Vec<(Vec<u8>, Vec<Coin>)>, addr: &Vec<u8>) -> (r: Option<Vec<Coin>>)
    ensures
        match r {
            Some(v) => assoc(rows.deep_view(), addr@) == Some(v.deep_view()),
            None => assoc(rows.deep_view(), addr@) is None,
        },
{
    let ghost dv = rows.deep_view();
    proof {
        crate::model::lemma_dv_bank_rows(rows);
        assert(dv.skip(0) =~= dv);
    }
    let mut i: usize = 0;
    while i < rows.len()
        invariant
            i <= rows@.len(),
            dv == rows.deep_view(),
            rows@.len() == dv.len(),
            forall|j: int|
                0 <= j < dv.len() ==> #[trigger] dv[j] == (rows@[j].0@, rows@[j].1.deep_view()),
            assoc(dv, addr@) == assoc(dv.skip(i as int), addr@),
        decreases rows@.len() - i,
    {
        proof {
            assert(dv.skip(i as int)[0] == dv[i as int]);
            assert(dv.skip(i as int).drop_first() =~= dv.skip(i + 1));
        }
        if crate::keys::key_eq(rows[i].0.as_slice(), addr.as_slice()) {
            return Some(clone_coins(&rows[i].1));
        }
        i += 1;
    }
    assert(dv.skip(i as int).len() == 0);
    None
}

/// A bank query, as a contract poses it.
#[derive(Debug, Clone, PartialEq, Eq)]
pub enum BankQueryMsg {
    /// One denomination's balance of one address.
    Balance { address: Vec<u8>, denom: Vec<u8> },
    /// All balances of one address.
    AllBalances { address: Vec<u8> },
}

/// What the local ledger alone can answer for a bank query: the answer, or
/// the exact remote balance query to perform.  Local and remote are
/// alternatives, never summed.
#[derive(Debug, Clone, PartialEq, Eq)]
pub enum BankQueryOutcome {
    /// One balance, answered from the local ledger.
    Balance(Coin),
    /// All balances of the address, answered from the local ledger.
    AllBalances(Vec<Coin>),
    /// The ledger has no entry for the address (or none of the denomination):
    /// ask the remote chain; `denom` limits the query to one denomination.
    NeedRemoteBalance { address: Vec<u8>, denom: Option<Vec<u8>> },
}

/// The amount of one denomination among coins, if present.
pub open spec fn coin_amount(coins: Seq<AbsCoin>, denom: Seq<u8>) -> Option<u128>
    decreases coins.len(),
{
    if coins.len() == 0 {
        None
    } else if coins[0].denom == denom {
        Some(coins[0].amount)
    } else {
        coin_amount(coins.drop_first(), denom)
    }
}

/// Answers bank queries from the local ledger, falling back to a live
/// remote balance query only for an address the ledger does not list.
pub struct BankQuerier {
    chain: ChainDescriptor,
    balances: Vec<(Vec<u8>, Vec<Coin>)>,
}

impl BankQuerier {
    /// The chain queried on a miss.
    pub closed spec fn chain_view(&self) -> crate::model::AbsChainDescriptor {
        self.chain@
    }

    /// The local ledger.
    pub closed spec fn balances_view(&self) -> Seq<(Seq<u8>, Seq<AbsCoin>)> {
        self.balances.deep_view()
    }

    /// A querier over the given initial ledger.
    pub fn new(chain: ChainDescriptor, init: Option<Vec<(Vec<u8>, Vec<Coin>)>>) -> (r: BankQuerier)
        ensures
            r.chain_view() == chain@,
            match init {
                Some(b) => r.balances_view() == b.deep_view(),
                None => r.balances_view().len() == 0,
            },
    {
        let balances = match init {
            Some(b) => b,
            None => Vec::new(),
        };
        let r = BankQuerier { chain, balances };
        proof {
            if init is None {
                crate::model::lemma_dv_bank_rows(&r.balances);
            }
        }
        r
    }

    /// Set the balances of one address; returns the old balances, if any.
    pub fn update_balance(&mut self, addr: Vec<u8>, balance: Vec<Coin>) -> (r: Option<Vec<Coin>>)
        ensures
            match r {
                Some(v) => assoc(old(self).balances_view(), addr@) == Some(v.deep_view()),
                None => assoc(old(self).balances_view(), addr@) is None,
            },
            final(self).chain_view() == old(self).chain_view(),
            assoc(final(self).balances_view(), addr@) == Some(balance.deep_view()),
            forall|a: Seq<u8>|
                a != addr@ ==> #[trigger] assoc(final(self).balances_view(), a) == assoc(
                    old(self).balances_view(),
                    a,
                ),
    {
        let old_balance = lookup_bank(&self.balances, &addr);
        let ghost dv = self.balances.deep_view();
        proof {
            crate::model::lemma_dv_bank_rows(&self.balances);
        }
        self.balances.insert(0, (addr, balance));
        proof {
            crate::model::lemma_dv_bank_rows(&self.balances);
            let ndv = self.balances.deep_view();
            assert(ndv.drop_first() =~= dv);
            assert forall|a: Seq<u8>| true implies assoc(ndv, a) == (if a == ndv[0].0 {
                Some(ndv[0].1)
            } else {
                assoc(dv, a)
            }) by {}
        }
        old_balance
    }

    /// Answer a bank query from the ledger: a listed address answers
    /// locally — a denomination it does not hold answers zero — and only an
    /// unlisted address falls back to one live remote balance query.  Local
    /// and remote are alternatives, never summed.
    pub fn query(&self, request: &BankQueryMsg) -> (r: BankQueryOutcome)
        ensures
            bank_query_post(self.balances_view(), *request, r),
    {
        match request {
            BankQueryMsg::Balance { address, denom } => {
                match lookup_bank(&self.balances, address) {
                    Some(coins) => {
                        let amount = match find_coin(&coins, denom) {
                            Some(a) => a,
                            None => 0,
                        };
                        BankQueryOutcome::Balance(Coin { denom: clone_bytes(denom), amount })
                    },
                    None => BankQueryOutcome::NeedRemoteBalance {
                        address: clone_bytes(address),
                        denom: Some(clone_bytes(denom)),
                    },
                }
            },
            BankQueryMsg::AllBalances { address } => {
                match lookup_bank(&self.balances, address) {
                    Some(coins) => BankQueryOutcome::AllBalances(coins),
                    None => BankQueryOutcome::NeedRemoteBalance {
                        address: clone_bytes(address),
                        denom: None,
                    },
                }
            },
        }
    }
}

/// The amount of one denomination among owned coins, if present.
fn find_coin(coins: &Vec<Coin>, denom: &Vec<u8>) -> (r: Option<u128>)
    ensures
        r == coin_amount(coins.deep_view(), denom@),
{
    let ghost dv = coins.deep_view();
    proof {
        assert(dv.skip(0) =~= dv);
    }
    let mut i: usize = 0;
    while i < coins.len()
        invariant
            i <= coins@.len(),
            dv == coins.deep_view(),
            coins@.len() == dv.len(),
            coin_amount(dv, denom@) == coin_amount(dv.skip(i as int), denom@),
        decreases coins@.len() - i,
    {
        proof {
            assert(dv.skip(i as int)[0] == dv[i as int]);
            assert(dv.skip(i as int).drop_first() =~= dv.skip(i + 1));
            assert(dv[i as int] == coins@[i as int]@);
        }
        if crate::keys::key_eq(coins[i].denom.as_slice(), denom.as_slice()) {
            return Some(coins[i].amount);
        }
        i += 1;
    }
    assert(dv.skip(i as int).len() == 0);
    None
}


/// A staking query, as a contract poses it.
#[derive(Debug, Clone, PartialEq, Eq)]
pub enum StakingQueryMsg {
    /// The chain's bonded denomination.
    BondedDenom,
    /// All known validators.
    AllValidators,
    /// One validator, by address.
    Validator { address: Vec<u8> },
    /// All delegations of one delegator.
    AllDelegations { delegator: Vec<u8> },
    /// One delegation, by delegator and validator.
    Delegation { delegator: Vec<u8>, validator: Vec<u8> },
}

/// The answer to a staking query; staking state is never forked from the
/// remote chain, so every answer is local.
#[derive(Debug, Clone, PartialEq, Eq)]
pub enum StakingAnswer {
    BondedDenom(Vec<u8>),
    Validators(Vec<Validator>),
    MaybeValidator(Option<Validator>),
    Delegations(Vec<Delegation>),
    MaybeDelegation(Option<Delegation>),
}

/// The first validator with the address, if any.
pub open spec fn find_validator(vs: Seq<AbsValidator>, address: Seq<u8>) -> Option<AbsValidator>
    decreases vs.len(),
{
    if vs.len() == 0 {
        None
    } else if vs[0].address == address {
        Some(vs[0])
    } else {
        find_validator(vs.drop_first(), address)
    }
}

/// The delegations of one delegator, in order.
pub open spec fn delegations_of(ds: Seq<AbsDelegation>, delegator: Seq<u8>) -> Seq<AbsDelegation>
    decreases ds.len(),
{
    if ds.len() == 0 {
        ds
    } else {
        let rest = delegations_of(ds.drop_first(), delegator);
        if ds[0].delegator == delegator {
            seq![ds[0]] + rest
        } else {
            rest
        }
    }
}

/// The first delegation of the delegator with the validator, if any.
pub open spec fn find_delegation(
    ds: Seq<AbsDelegation>,
    delegator: Seq<u8>,
    validator: Seq<u8>,
) -> Option<AbsDelegation>
    decreases ds.len(),
{
    if ds.len() == 0 {
        None
    } else if ds[0].delegator == delegator && ds[0].validator == validator {
        Some(ds[0])
    } else {
        find_delegation(ds.drop_first(), delegator, validator)
    }
}

/// Answers staking queries entirely from a locally seeded snapshot.
pub struct StakingQuerier {
    denom: Vec<u8>,
    validators: Vec<Validator>,
    delegations: Vec<Delegation>,
}

impl StakingQuerier {
    /// The bonded denomination.
    pub closed spec fn denom_view(&self) -> Seq<u8> {
        self.denom@
    }

    /// The seeded validators.
    pub closed spec fn validators_view(&self) -> Seq<AbsValidator> {
        self.validators.deep_view()
    }

    /// The seeded delegations.
    pub closed spec fn delegations_view(&self) -> Seq<AbsDelegation> {
        self.delegations.deep_view()
    }

    /// A querier seeded with the given staking state.
    pub fn new(denom: Vec<u8>, validators: Vec<Validator>, delegations: Vec<Delegation>) -> (r:
        StakingQuerier)
        ensures
            r.denom_view() == denom@,
            r.validators_view() == validators.deep_view(),
            r.delegations_view() == delegations.deep_view(),
    {
        StakingQuerier { denom, validators, delegations }
    }

    /// Answer a staking query from the seeded snapshot alone.
    pub fn query(&self, request: &StakingQueryMsg) -> (r: StakingAnswer)
        ensures
            staking_query_post(
                self.denom_view(),
                self.validators_view(),
                self.delegations_view(),
                *request,
                r,
            ),
    {
        match request {
            StakingQueryMsg::BondedDenom => StakingAnswer::BondedDenom(clone_bytes(&self.denom)),
            StakingQueryMsg::AllValidators => StakingAnswer::Validators(
                clone_validators(&self.validators),
            ),
            StakingQueryMsg::Validator { address } => {
                let ghost dv = self.validators.deep_view();
                let mut i: usize = 0;
                proof {
                    assert(dv.skip(0) =~= dv);
                }
                while i < self.validators.len()
                    invariant
                        i <= self.validators@.len(),
                        dv == self.validators.deep_view(),
                        self.validators@.len() == dv.len(),
                        find_validator(dv, address@) == find_validator(
                            dv.skip(i as int),
                            address@,
                        ),
                        request matches StakingQueryMsg::Validator { address: aa } && aa@
                            == address@,
                    decreases self.validators@.len() - i,
                {
                    proof {
                        assert(dv.skip(i as int)[0] == dv[i as int]);
                        assert(dv.skip(i as int).drop_first() =~= dv.skip(i + 1));
                        assert(dv[i as int] == self.validators@[i as int]@);
                    }
                    if crate::keys::key_eq(
                        self.validators[i].address.as_slice(),
                        address.as_slice(),
                    ) {
                        proof {
                            assert(dv[i as int].address == address@);
                            assert(find_validator(dv.skip(i as int), address@) == Some(
                                dv[i as int],
                            ));
                        }
                        return StakingAnswer::MaybeValidator(Some(self.validators[i].dup()));
                    }
                    i += 1;
                }
                assert(dv.skip(i as int).len() == 0);
                StakingAnswer::MaybeValidator(None)
            },
            StakingQueryMsg::AllDelegations { delegator } => {
                let ghost dv = self.delegations.deep_view();
                let mut out: Vec<Delegation> = Vec::new();
                let mut i: usize = 0;
                proof {
                    assert(dv.skip(0) =~= dv);
                    assert(out.deep_view() + delegations_of(dv, delegator@) =~= delegations_of(
                        dv,
                        delegator@,
                    ));
                }
                while i < self.delegations.len()
                    invariant
                        i <= self.delegations@.len(),
                        dv == self.delegations.deep_view(),
                        self.delegations@.len() == dv.len(),
                        out.deep_view() + delegations_of(dv.skip(i as int), delegator@)
                            == delegations_of(dv, delegator@),
                    decreases self.delegations@.len() - i,
                {
                    proof {
                        assert(dv.skip(i as int)[0] == dv[i as int]);
                        assert(dv.skip(i as int).drop_first() =~= dv.skip(i + 1));
                        assert(dv[i as int] == self.delegations@[i as int]@);
                    }
                    if crate::keys::key_eq(
                        self.delegations[i].delegator.as_slice(),
                        delegator.as_slice(),
                    ) {
                        let ghost odv = out.deep_view();
                        let d = self.delegations[i].dup();
                        out.push(d);
                        proof {
                            assert(out.deep_view() =~= odv.push(dv[i as int]));
                            assert(out.deep_view() + delegations_of(dv.skip(i + 1), delegator@)
                                =~= delegations_of(dv, delegator@));
                        }
                    }
                    i += 1;
                }
                proof {
                    assert(delegations_of(dv.skip(dv.len() as int), delegator@).len() == 0);
                    assert(out.deep_view() =~= delegations_of(dv, delegator@));
                }
                StakingAnswer::Delegations(out)
            },
            StakingQueryMsg::Delegation { delegator, validator } => {
                let ghost dv = self.delegations.deep_view();
                let mut i: usize = 0;
                proof {
                    assert(dv.skip(0) =~= dv);
                }
                while i < self.delegations.len()
                    invariant
                        i <= self.delegations@.len(),
                        dv == self.delegations.deep_view(),
                        self.delegations@.len() == dv.len(),
                        find_delegation(dv, delegator@, validator@) == find_delegation(
                            dv.skip(i as int),
                            delegator@,
                            validator@,
                        ),
                        request matches StakingQueryMsg::Delegation {
                            delegator: ddg,
                            validator: vvd,
                        } && ddg@ == delegator@ && vvd@ == validator@,
                    decreases self.delegations@.len() - i,
                {
                    proof {
                        assert(dv.skip(i as int)[0] == dv[i as int]);
                        assert(dv.skip(i as int).drop_first() =~= dv.skip(i + 1));
                        assert(dv[i as int] == self.delegations@[i as int]@);
                    }
                    if crate::keys::key_eq(
                        self.delegations[i].delegator.as_slice(),
                        delegator.as_slice(),
                    ) && crate::keys::key_eq(
                        self.delegations[i].validator.as_slice(),
                        validator.as_slice(),
                    ) {
                        proof {
                            assert(dv[i as int].delegator == delegator@);
                            assert(dv[i as int].validator == validator@);
                            assert(find_delegation(dv.skip(i as int), delegator@, validator@)
                                == Some(dv[i as int]));
                        }
                        return StakingAnswer::MaybeDelegation(Some(self.delegations[i].dup()));
                    }
                    i += 1;
                }
                assert(dv.skip(i as int).len() == 0);
                StakingAnswer::MaybeDelegation(None)
            },
        }
    }
}

/// An owned copy of a validator list.
fn clone_validators(v: &Vec<Validator>) -> (r: Vec<Validator>)
    ensures
        r.deep_view() == v.deep_view(),
{
    let mut out: Vec<Validator> = Vec::new();
    let mut i: usize = 0;
    proof {
        assert(out.deep_view() =~= v.deep_view().take(0));
    }
    while i < v.len()
        invariant
            i <= v@.len(),
            v@.len() == v.deep_view().len(),
            out.deep_view() =~= v.deep_view().take(i as int),
        decreases v@.len() - i,
    {
        let ghost odv = out.deep_view();
        let e = v[i].dup();
        out.push(e);
        proof {
            assert(out.deep_view() =~= odv.push(v.deep_view()[i as int]));
            assert(out.deep_view() =~= v.deep_view().take(i + 1));
        }
        i += 1;
    }
    proof {
        assert(v.deep_view().take(v.deep_view().len() as int) =~= v.deep_view());
    }
    out
}

/// One in-contract query request, dispatched by module.
#[derive(Debug, Clone, PartialEq, Eq)]
pub enum QueryRequest {
    Bank(BankQueryMsg),
    Staking(StakingQueryMsg),
    Wasm(WasmQueryMsg),
    /// A raw module query by path; not supported by the emulation.
    Stargate { path: Vec<u8> },
}

/// The outcome of dispatching one query request.
#[derive(Debug, Clone, PartialEq, Eq)]
pub enum QueryOutcome {
    Bank(BankQueryOutcome),
    Staking(StakingAnswer),
    Wasm(WasmQueryOutcome),
    /// The request kind is not supported by the emulation.
    Unsupported,
}

/// The in-process querier handed to a contract instance: bank, staking and
/// wasm emulation over one call-scoped snapshot.
pub struct MockQuerier {
    /// Bank queries, local ledger first.
    pub bank: BankQuerier,
    /// Staking queries, entirely local.
    pub staking: StakingQuerier,
    /// Wasm queries, local snapshot first.
    pub wasm: WasmQuerier,
}

impl MockQuerier {
    /// A querier over the given snapshot: the bank ledger and the wasm
    /// snapshot come from it; staking state starts empty.
    pub fn new(chain: &ChainDescriptor, storage: Option<QuerierStorage>) -> (r: MockQuerier)
        ensures
            r.wasm.chain_view() == chain@,
            r.bank.chain_view() == chain@,
            match storage {
                Some(s) => r.wasm.storage_view() == s@ && r.bank.balances_view()
                    == s.bank.storage.deep_view(),
                None => r.bank.balances_view().len() == 0,
            },
            r.staking.denom_view().len() == 0,
            r.staking.validators_view().len() == 0,
            r.staking.delegations_view().len() == 0,
    {
        let bank_init: Option<Vec<(Vec<u8>, Vec<Coin>)>> = match &storage {
            Some(s) => Some(crate::model::clone_bank_rows(&s.bank.storage)),
            None => None,
        };
        let bank = BankQuerier::new(chain.dup(), bank_init);
        let staking = StakingQuerier::new(Vec::new(), Vec::new(), Vec::new());
        let wasm = WasmQuerier::new(chain.dup(), storage);
        MockQuerier { bank, staking, wasm }
    }

    /// Dispatch one query request to the module that answers it, handing
    /// back exactly that module's answer; a raw module query is unsupported.
    pub fn handle_query(&self, request: &QueryRequest) -> (r: QueryOutcome)
        requires
            match request {
                QueryRequest::Wasm(w) => match w {
                    WasmQueryMsg::Raw { contract_addr, .. } => contract_addr@.len() + 14 <= 0xFFFF,
                    WasmQueryMsg::Smart { contract_addr, .. } => contract_addr@.len() + 14
                        <= 0xFFFF,
                    _ => true,
                },
                _ => true,
            },
        ensures
            match request {
                QueryRequest::Bank(q) => r matches QueryOutcome::Bank(o) && bank_query_post(
                    self.bank.balances_view(),
                    *q,
                    o,
                ),
                QueryRequest::Staking(q) => r matches QueryOutcome::Staking(o)
                    && staking_query_post(
                    self.staking.denom_view(),
                    self.staking.validators_view(),
                    self.staking.delegations_view(),
                    *q,
                    o,
                ),
                QueryRequest::Wasm(q) => r matches QueryOutcome::Wasm(o) && wasm_query_post(
                    self.wasm.storage_view(),
                    self.wasm.chain_view(),
                    *q,
                    o,
                ),
                QueryRequest::Stargate { .. } => r is Unsupported,
            },
    {
        match request {
            QueryRequest::Bank(q) => QueryOutcome::Bank(self.bank.query(q)),
            QueryRequest::Staking(q) => QueryOutcome::Staking(self.staking.query(q)),
            QueryRequest::Wasm(q) => QueryOutcome::Wasm(self.wasm.query(q)),
            QueryRequest::Stargate { .. } => QueryOutcome::Unsupported,
        }
    }
}

/// The sum of the bytes of `s`.
pub open spec fn spec_digit_sum(s: Seq<u8>) -> nat
    decreases s.len(),
{
    if s.len() == 0 {
        0
    } else {
        s[0] as nat + spec_digit_sum(s.drop_first())
    }
}

/// The digit sum is bounded by 255 per byte.
pub proof fn lemma_digit_sum_bound(s: Seq<u8>)
    ensures
        spec_digit_sum(s) <= s.len() * 255,
    decreases s.len(),
{
    if s.len() > 0 {
        lemma_digit_sum_bound(s.drop_first());
    }
}

/// The sum of the bytes of `input`.
pub fn digit_sum(input: &[u8]) -> (r: usize)
    requires
        input@.len() * 255 <= usize::MAX,
    ensures
        r == spec_digit_sum(input@),
{
    proof {
        assert(input@.skip(0) =~= input@);
    }
    let mut sum: usize = 0;
    let mut i: usize = 0;
    while i < input.len()
        invariant
            i <= input@.len(),
            input@.len() * 255 <= usize::MAX,
            sum + spec_digit_sum(input@.skip(i as int)) == spec_digit_sum(input@),
            sum <= i * 255,
        decreases input@.len() - i,
    {
        proof {
            assert(input@.skip(i as int)[0] == input@[i as int]);
            assert(input@.skip(i as int).drop_first() =~= input@.skip(i + 1));
            lemma_digit_sum_bound(input@.skip(i as int));
            assert((i + 1) * 255 <= input@.len() * 255) by (nonlinear_arith)
                requires
                    i + 1 <= input@.len(),
            ;
            assert(i * 255 + 255 == (i + 1) * 255) by (nonlinear_arith);
        }
        sum = sum + (input[i] as usize);
        i += 1;
    }
    assert(input@.skip(i as int).len() == 0);
    sum
}

/// An attribute built without the reserved-key validation, to mirror what a
/// real chain reports back.
pub fn mock_wasmd_attr(key: Vec<u8>, value: Vec<u8>) -> (r: crate::model::Attribute)
    ensures
        r.key@ == key@,
        r.value@ == value@,
{
    crate::model::Attribute { key, value }
}

/// The payload of a finished nested query: exactly the value the nested
/// execution computed, and only for a query output.
pub fn smart_answer(output: crate::model::WasmOutput) -> (r: Result<Vec<u8>, QueryFault>)
    ensures
        match output {
            crate::model::WasmOutput::Query(bin) => r matches Ok(b) && b@ == bin@,
            _ => r is Err,
        },
{
    match output {
        crate::model::WasmOutput::Query(bin) => Ok(bin),
        _ => Err(QueryFault::WrongOutputKind),
    }
}

/// Failure of the querier emulation.
#[derive(Debug, PartialEq, Eq, Structural, Clone, Copy)]
pub enum QueryFault {
    /// A nested execution answered with an output of the wrong entry point.
    WrongOutputKind,
}

} // verus!
