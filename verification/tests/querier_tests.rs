use fork_multi_test::contract::CodeFetch;
use fork_multi_test::model::BankStorage;
use fork_multi_test::model::ChainDescriptor;
use fork_multi_test::model::Coin;
use fork_multi_test::model::ContractData;
use fork_multi_test::model::Delegation;
use fork_multi_test::model::QuerierStorage;
use fork_multi_test::model::Validator;
use fork_multi_test::model::WasmContract;
use fork_multi_test::model::WasmOutput;
use fork_multi_test::model::WasmStorage;
use fork_multi_test::querier::contract_storage_namespace;
use fork_multi_test::querier::digit_sum;
use fork_multi_test::querier::mock_wasmd_attr;
use fork_multi_test::querier::smart_answer;
use fork_multi_test::querier::BankQuerier;
use fork_multi_test::querier::BankQueryMsg;
use fork_multi_test::querier::BankQueryOutcome;
use fork_multi_test::querier::StakingAnswer;
use fork_multi_test::querier::StakingQuerier;
use fork_multi_test::querier::StakingQueryMsg;
use fork_multi_test::querier::WasmQuerier;
use fork_multi_test::querier::WasmQueryMsg;
use fork_multi_test::querier::WasmQueryOutcome;

fn chain() -> ChainDescriptor {
    ChainDescriptor {
        chain_id: b"juno-1".to_vec(),
        grpc_url: b"http://grpc.example:9090".to_vec(),
        bech32_prefix: b"juno".to_vec(),
    }
}

fn snapshot_with(addr: &[u8], record: ContractData) -> QuerierStorage {
    QuerierStorage {
        wasm: WasmStorage {
            contracts: vec![(addr.to_vec(), record)],
            codes: vec![],
            storage: vec![],
        },
        bank: BankStorage { storage: vec![] },
    }
}

fn record(code_id: u64) -> ContractData {
    ContractData {
        code_id,
        creator: b"juno1creator".to_vec(),
        admin: None,
        label: b"test".to_vec(),
        created: 1,
    }
}

#[test]
fn contract_info_answers_from_local_registry() {
    let q = WasmQuerier::new(chain(), Some(snapshot_with(b"juno1abc", record(9))));
    match q.query(&WasmQueryMsg::ContractInfo { contract_addr: b"juno1abc".to_vec() }) {
        WasmQueryOutcome::Info(info) => {
            assert_eq!(info.code_id, 9);
            assert_eq!(info.creator, b"juno1creator".to_vec());
            assert_eq!(info.admin, None);
        }
        _ => panic!("a registered contract must answer locally"),
    }
}

#[test]
fn contract_info_falls_back_to_remote_on_miss() {
    let q = WasmQuerier::new(chain(), None);
    match q.query(&WasmQueryMsg::ContractInfo { contract_addr: b"juno1missing".to_vec() }) {
        WasmQueryOutcome::NeedRemoteInfo { contract_addr } => {
            assert_eq!(contract_addr, b"juno1missing".to_vec());
        }
        _ => panic!("an unregistered contract owes a remote fetch"),
    }
}

#[test]
fn raw_query_reads_the_namespaced_snapshot() {
    let ns = contract_storage_namespace(&b"juno1abc".to_vec());
    let mut total_key = ns.clone();
    total_key.extend_from_slice(b"count");
    let snapshot = QuerierStorage {
        wasm: WasmStorage {
            contracts: vec![],
            codes: vec![],
            storage: vec![(total_key, b"41".to_vec())],
        },
        bank: BankStorage { storage: vec![] },
    };
    let q = WasmQuerier::new(chain(), Some(snapshot));
    match q.query(&WasmQueryMsg::Raw {
        contract_addr: b"juno1abc".to_vec(),
        key: b"count".to_vec(),
    }) {
        WasmQueryOutcome::RawValue(v) => assert_eq!(v, b"41".to_vec()),
        _ => panic!("a locally held raw key must answer locally"),
    }
    match q.query(&WasmQueryMsg::Raw {
        contract_addr: b"juno1abc".to_vec(),
        key: b"other".to_vec(),
    }) {
        WasmQueryOutcome::NeedRemoteRaw { contract_addr, key } => {
            assert_eq!(contract_addr, b"juno1abc".to_vec());
            assert_eq!(key, b"other".to_vec());
        }
        _ => panic!("a missing raw key owes a remote fetch"),
    }
}

#[test]
fn scenario_smart_query_on_absent_contract_resolves_then_runs() {
    // a smart query against a contract absent from the local registry:
    // exactly one bytecode resolution (address, then code id, then bytes)
    // followed by one nested query execution whose value passes through
    let q = WasmQuerier::new(chain(), None);
    let outcome = q.query(&WasmQueryMsg::Smart {
        contract_addr: b"juno1faraway".to_vec(),
        msg: b"{\"count\":{}}".to_vec(),
    });
    let (contract, env, msg, init_storage) = match outcome {
        WasmQueryOutcome::RunQuery { contract, env, msg, init_storage } => {
            (contract, env, msg, init_storage)
        }
        _ => panic!("a smart query must ask for one nested execution"),
    };
    assert_eq!(env.contract_addr, b"juno1faraway".to_vec());
    assert_eq!(msg, b"{\"count\":{}}".to_vec());
    assert_eq!(init_storage, vec![]);
    // step one: the absent contract resolves by address
    let step1 = contract.resolve_code();
    let addr = match step1 {
        CodeFetch::NeedContractInfo { contract_addr } => contract_addr,
        _ => panic!("an address-bound contract owes a metadata fetch first"),
    };
    assert_eq!(addr, b"juno1faraway".to_vec());
    // step two: the fetched metadata turns into exactly one bytecode fetch
    let info = record(77);
    match WasmContract::resolve_code_with_info(&info) {
        CodeFetch::NeedCodeBytes { code_id } => assert_eq!(code_id, 77),
        _ => panic!("metadata must resolve to the code id"),
    }
    // the nested execution's own answer is returned, not a cached value
    let computed = smart_answer(WasmOutput::Query(b"{\"count\":41}".to_vec())).unwrap();
    assert_eq!(computed, b"{\"count\":41}".to_vec());
    assert!(smart_answer(WasmOutput::Query(b"other".to_vec())).unwrap() != computed);
}

#[test]
fn smart_query_prefers_local_code_table() {
    let mut snapshot = snapshot_with(b"juno1abc", record(9));
    snapshot.wasm.codes = vec![(
        9,
        WasmContract::DistantCodeId(fork_multi_test::model::DistantCodeId {
            code_id: 9,
            chain: chain(),
        }),
    )];
    let q = WasmQuerier::new(chain(), Some(snapshot));
    match q.query(&WasmQueryMsg::Smart {
        contract_addr: b"juno1abc".to_vec(),
        msg: b"{}".to_vec(),
    }) {
        WasmQueryOutcome::RunQuery { contract, .. } => match contract {
            WasmContract::DistantCodeId(c) => assert_eq!(c.code_id, 9),
            _ => panic!("the local code table entry must be used"),
        },
        _ => panic!("a smart query must ask for one nested execution"),
    }
}

#[test]
fn bank_balance_answers_from_local_ledger() {
    let ledger = vec![(
        b"juno1alice".to_vec(),
        vec![Coin { denom: b"ujuno".to_vec(), amount: 500 }],
    )];
    let q = BankQuerier::new(chain(), Some(ledger));
    match q.query(&BankQueryMsg::Balance {
        address: b"juno1alice".to_vec(),
        denom: b"ujuno".to_vec(),
    }) {
        BankQueryOutcome::Balance(c) => {
            assert_eq!(c.denom, b"ujuno".to_vec());
            assert_eq!(c.amount, 500);
        }
        _ => panic!("a listed address must answer locally"),
    }
}

#[test]
fn listed_address_answers_zero_for_a_missing_denomination() {
    // the address is in the local ledger, so the local view answers —
    // a denomination it does not hold is zero, never a remote fallback
    let ledger = vec![(
        b"juno1alice".to_vec(),
        vec![Coin { denom: b"ujuno".to_vec(), amount: 500 }],
    )];
    let q = BankQuerier::new(chain(), Some(ledger));
    match q.query(&BankQueryMsg::Balance {
        address: b"juno1alice".to_vec(),
        denom: b"uatom".to_vec(),
    }) {
        BankQueryOutcome::Balance(c) => {
            assert_eq!(c.denom, b"uatom".to_vec());
            assert_eq!(c.amount, 0);
        }
        _ => panic!("a listed address must answer locally"),
    }
}

#[test]
fn bank_balance_falls_back_to_remote_on_miss() {
    let q = BankQuerier::new(chain(), None);
    match q.query(&BankQueryMsg::Balance {
        address: b"juno1bob".to_vec(),
        denom: b"ujuno".to_vec(),
    }) {
        BankQueryOutcome::NeedRemoteBalance { address, denom } => {
            assert_eq!(address, b"juno1bob".to_vec());
            assert_eq!(denom, Some(b"ujuno".to_vec()));
        }
        _ => panic!("an unlisted address owes a live remote query"),
    }
}

#[test]
fn bank_all_balances_local_and_remote() {
    let ledger = vec![(
        b"juno1alice".to_vec(),
        vec![Coin { denom: b"ujuno".to_vec(), amount: 500 }],
    )];
    let q = BankQuerier::new(chain(), Some(ledger));
    match q.query(&BankQueryMsg::AllBalances { address: b"juno1alice".to_vec() }) {
        BankQueryOutcome::AllBalances(coins) => {
            assert_eq!(coins.len(), 1);
            assert_eq!(coins[0].amount, 500);
        }
        _ => panic!("a listed address must answer locally"),
    }
    match q.query(&BankQueryMsg::AllBalances { address: b"juno1bob".to_vec() }) {
        BankQueryOutcome::NeedRemoteBalance { denom, .. } => assert_eq!(denom, None),
        _ => panic!("an unlisted address owes a live remote query"),
    }
}

#[test]
fn bank_update_balance_returns_old_and_sets_new() {
    let mut q = BankQuerier::new(chain(), None);
    let old = q.update_balance(
        b"juno1alice".to_vec(),
        vec![Coin { denom: b"ujuno".to_vec(), amount: 5 }],
    );
    assert!(old.is_none());
    let old2 = q.update_balance(
        b"juno1alice".to_vec(),
        vec![Coin { denom: b"ujuno".to_vec(), amount: 9 }],
    );
    let old2 = old2.expect("the earlier balance must be handed back");
    assert_eq!(old2[0].amount, 5);
    match q.query(&BankQueryMsg::Balance {
        address: b"juno1alice".to_vec(),
        denom: b"ujuno".to_vec(),
    }) {
        BankQueryOutcome::Balance(c) => assert_eq!(c.amount, 9),
        _ => panic!("the updated balance must answer locally"),
    }
}

fn staking() -> StakingQuerier {
    StakingQuerier::new(
        b"ujuno".to_vec(),
        vec![Validator {
            address: b"junovaloper1a".to_vec(),
            commission: 5,
            max_commission: 10,
            max_change_rate: 1,
        }],
        vec![
            Delegation {
                delegator: b"juno1alice".to_vec(),
                validator: b"junovaloper1a".to_vec(),
                amount: Coin { denom: b"ujuno".to_vec(), amount: 100 },
                can_redelegate: Coin { denom: b"ujuno".to_vec(), amount: 100 },
                accumulated_rewards: vec![],
            },
            Delegation {
                delegator: b"juno1bob".to_vec(),
                validator: b"junovaloper1a".to_vec(),
                amount: Coin { denom: b"ujuno".to_vec(), amount: 7 },
                can_redelegate: Coin { denom: b"ujuno".to_vec(), amount: 7 },
                accumulated_rewards: vec![],
            },
        ],
    )
}

#[test]
fn staking_is_answered_entirely_locally() {
    let q = staking();
    match q.query(&StakingQueryMsg::BondedDenom) {
        StakingAnswer::BondedDenom(d) => assert_eq!(d, b"ujuno".to_vec()),
        _ => panic!("the bonded denomination is seeded locally"),
    }
    match q.query(&StakingQueryMsg::AllValidators) {
        StakingAnswer::Validators(v) => assert_eq!(v.len(), 1),
        _ => panic!("validators are seeded locally"),
    }
    match q.query(&StakingQueryMsg::Validator { address: b"junovaloper1a".to_vec() }) {
        StakingAnswer::MaybeValidator(Some(v)) => assert_eq!(v.commission, 5),
        _ => panic!("a seeded validator must be found"),
    }
    match q.query(&StakingQueryMsg::Validator { address: b"junovaloper1x".to_vec() }) {
        StakingAnswer::MaybeValidator(None) => {}
        _ => panic!("an unknown validator must be absent"),
    }
    match q.query(&StakingQueryMsg::AllDelegations { delegator: b"juno1alice".to_vec() }) {
        StakingAnswer::Delegations(d) => {
            assert_eq!(d.len(), 1);
            assert_eq!(d[0].amount.amount, 100);
        }
        _ => panic!("delegations filter by delegator"),
    }
    match q.query(&StakingQueryMsg::Delegation {
        delegator: b"juno1bob".to_vec(),
        validator: b"junovaloper1a".to_vec(),
    }) {
        StakingAnswer::MaybeDelegation(Some(d)) => assert_eq!(d.amount.amount, 7),
        _ => panic!("a seeded delegation must be found"),
    }
}

#[test]
fn digit_sum_adds_bytes() {
    assert_eq!(digit_sum(&[]), 0);
    assert_eq!(digit_sum(&[1, 2, 3]), 6);
    assert_eq!(digit_sum(&[255, 255]), 510);
}

#[test]
fn mock_attr_bypasses_reserved_key_validation() {
    let a = mock_wasmd_attr(b"_contract_addr".to_vec(), b"juno1abc".to_vec());
    assert_eq!(a.key, b"_contract_addr".to_vec());
    assert_eq!(a.value, b"juno1abc".to_vec());
}
