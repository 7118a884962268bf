use fork_multi_test::keeper::absorb_call_result;
use fork_multi_test::keeper::apply_storage_changes;
use fork_multi_test::keeper::build_app_response;
use fork_multi_test::keeper::build_reply;
use fork_multi_test::keeper::execute_response;
use fork_multi_test::keeper::instantiate_response;
use fork_multi_test::keeper::local_contract_addr;
use fork_multi_test::keeper::migrate_record;
use fork_multi_test::keeper::plan_wasm_msg;
use fork_multi_test::keeper::registry_key;
use fork_multi_test::keeper::reply_expected;
use fork_multi_test::keeper::trim_bytes;
use fork_multi_test::keeper::update_admin_record;
use fork_multi_test::keeper::verify_attributes;
use fork_multi_test::keeper::verify_response;
use fork_multi_test::keeper::ContractLookup;
use fork_multi_test::keeper::KeeperError;
use fork_multi_test::keeper::WasmKeeper;
use fork_multi_test::keeper::WasmMsgPlan;
use fork_multi_test::local_storage::LocalStorage;
use fork_multi_test::model::Attribute;
use fork_multi_test::model::ChainDescriptor;
use fork_multi_test::model::ContractData;
use fork_multi_test::model::ContractResponse;
use fork_multi_test::model::Event;
use fork_multi_test::model::ReplyOn;
use fork_multi_test::model::StorageChanges;
use fork_multi_test::model::SubMsgResponse;
use fork_multi_test::model::SubMsgResult;
use fork_multi_test::model::WasmContract;
use fork_multi_test::model::WasmMsg;
use fork_multi_test::model::WasmOutput;
use fork_multi_test::model::WasmRunnerOutput;

fn chain() -> ChainDescriptor {
    ChainDescriptor {
        chain_id: b"juno-1".to_vec(),
        grpc_url: b"http://grpc.example:9090".to_vec(),
        bech32_prefix: b"juno".to_vec(),
    }
}

fn attr(k: &[u8], v: &[u8]) -> Attribute {
    Attribute { key: k.to_vec(), value: v.to_vec() }
}

fn record(admin: Option<&[u8]>) -> ContractData {
    ContractData {
        code_id: 3,
        creator: b"juno1creator".to_vec(),
        admin: admin.map(|a| a.to_vec()),
        label: b"counter".to_vec(),
        created: 10,
    }
}

#[test]
fn trim_strips_blanks_on_both_sides() {
    assert_eq!(trim_bytes(&b"  key\t ".to_vec()), b"key".to_vec());
    assert_eq!(trim_bytes(&b"\n\r".to_vec()), Vec::<u8>::new());
    assert_eq!(trim_bytes(&b"a b".to_vec()), b"a b".to_vec());
}

#[test]
fn attributes_are_validated() {
    assert!(verify_attributes(&vec![attr(b"action", b"go")]).is_ok());
    assert_eq!(
        verify_attributes(&vec![attr(b"  ", b"go")]),
        Err(KeeperError::EmptyAttributeKey)
    );
    assert_eq!(
        verify_attributes(&vec![attr(b"action", b" ")]),
        Err(KeeperError::EmptyAttributeValue)
    );
    assert_eq!(
        verify_attributes(&vec![attr(b"_reserved", b"x")]),
        Err(KeeperError::ReservedAttributeKey)
    );
}

#[test]
fn response_event_types_must_be_long_enough() {
    let resp = ContractResponse {
        messages: vec![],
        attributes: vec![],
        events: vec![Event { ty: b"x".to_vec(), attributes: vec![] }],
        data: None,
    };
    assert_eq!(verify_response(&resp), Err(KeeperError::EventTypeTooShort));
    let ok = ContractResponse {
        messages: vec![],
        attributes: vec![attr(b"k", b"v")],
        events: vec![Event { ty: b"mint".to_vec(), attributes: vec![attr(b"a", b"b")] }],
        data: None,
    };
    assert!(verify_response(&ok).is_ok());
}

#[test]
fn app_response_events_follow_the_chain_conventions() {
    let resp = ContractResponse {
        messages: vec![],
        attributes: vec![attr(b"action", b"transfer")],
        events: vec![Event { ty: b"minted".to_vec(), attributes: vec![attr(b"amount", b"3")] }],
        data: Some(b"payload".to_vec()),
    };
    let custom = Event {
        ty: b"execute".to_vec(),
        attributes: vec![attr(b"_contract_addr", b"juno1abc")],
    };
    let (app, msgs) = build_app_response(&b"juno1abc".to_vec(), custom, resp);
    assert!(msgs.is_empty());
    assert_eq!(app.data, Some(b"payload".to_vec()));
    assert_eq!(app.events.len(), 3);
    assert_eq!(app.events[0].ty, b"execute".to_vec());
    // the module event carries the response attributes behind the reserved one
    assert_eq!(app.events[1].ty, b"wasm".to_vec());
    assert_eq!(app.events[1].attributes[0].key, b"_contract_addr".to_vec());
    assert_eq!(app.events[1].attributes[0].value, b"juno1abc".to_vec());
    assert_eq!(app.events[1].attributes[1].key, b"action".to_vec());
    // the contract's own events get the module prefix
    assert_eq!(app.events[2].ty, b"wasm-minted".to_vec());
    assert_eq!(app.events[2].attributes[0].key, b"_contract_addr".to_vec());
    assert_eq!(app.events[2].attributes[1].key, b"amount".to_vec());
}

#[test]
fn app_response_without_attributes_skips_the_module_event() {
    let resp = ContractResponse { messages: vec![], attributes: vec![], events: vec![], data: None };
    let custom = Event { ty: b"sudo".to_vec(), attributes: vec![] };
    let (app, _) = build_app_response(&b"juno1abc".to_vec(), custom, resp);
    assert_eq!(app.events.len(), 1);
    assert_eq!(app.events[0].ty, b"sudo".to_vec());
}

#[test]
fn reply_policy_truth_table() {
    assert!(reply_expected(ReplyOn::Always, true));
    assert!(reply_expected(ReplyOn::Always, false));
    assert!(reply_expected(ReplyOn::Success, true));
    assert!(!reply_expected(ReplyOn::Success, false));
    assert!(!reply_expected(ReplyOn::Error, true));
    assert!(reply_expected(ReplyOn::Error, false));
    assert!(!reply_expected(ReplyOn::Never, true));
    assert!(!reply_expected(ReplyOn::Never, false));
}

#[test]
fn reply_payload_carries_outcome() {
    let ok = build_reply(7, Ok(SubMsgResponse { events: vec![], data: Some(b"d".to_vec()) }));
    assert_eq!(ok.id, 7);
    match ok.result {
        SubMsgResult::Success(r) => assert_eq!(r.data, Some(b"d".to_vec())),
        _ => panic!("a successful sub-message replies with its response"),
    }
    let err = build_reply(8, Err(b"boom".to_vec()));
    match err.result {
        SubMsgResult::Failure(e) => assert_eq!(e, b"boom".to_vec()),
        _ => panic!("a failing sub-message replies with its error"),
    }
}

#[test]
fn only_the_admin_updates_or_migrates() {
    let data = record(Some(b"juno1admin"));
    let ok = update_admin_record(&data, &b"juno1admin".to_vec(), None).unwrap();
    assert_eq!(ok.admin, None);
    assert_eq!(ok.code_id, 3);
    assert_eq!(
        update_admin_record(&data, &b"juno1mallory".to_vec(), None),
        Err(KeeperError::Unauthorized)
    );
    let migrated = migrate_record(&data, &b"juno1admin".to_vec(), 9).unwrap();
    assert_eq!(migrated.code_id, 9);
    assert_eq!(migrated.admin, Some(b"juno1admin".to_vec()));
    assert_eq!(
        migrate_record(&record(None), &b"juno1admin".to_vec(), 9),
        Err(KeeperError::Unauthorized)
    );
}

#[test]
fn instantiation_requires_a_label() {
    let msg = WasmMsg::Instantiate {
        admin: None,
        code_id: 1,
        msg: b"{}".to_vec(),
        funds: vec![],
        label: vec![],
    };
    assert_eq!(plan_wasm_msg(msg), Err(KeeperError::LabelRequired));
    let msg = WasmMsg::Instantiate {
        admin: None,
        code_id: 1,
        msg: b"{}".to_vec(),
        funds: vec![],
        label: b"counter".to_vec(),
    };
    match plan_wasm_msg(msg).unwrap() {
        WasmMsgPlan::RunInstantiate { code_id, label, .. } => {
            assert_eq!(code_id, 1);
            assert_eq!(label, b"counter".to_vec());
        }
        _ => panic!("an instantiation must plan a registration and a call"),
    }
}

#[test]
fn clear_admin_plans_an_admin_removal() {
    match plan_wasm_msg(WasmMsg::ClearAdmin { contract_addr: b"juno1abc".to_vec() }).unwrap() {
        WasmMsgPlan::RunUpdateAdmin { contract_addr, admin } => {
            assert_eq!(contract_addr, b"juno1abc".to_vec());
            assert_eq!(admin, None);
        }
        _ => panic!("clearing the admin must plan an admin update"),
    }
}

#[test]
fn store_code_continues_the_local_sequence() {
    let mut keeper = WasmKeeper::new();
    let c = WasmContract::DistantCodeId(fork_multi_test::model::DistantCodeId {
        code_id: 1,
        chain: chain(),
    });
    let id1 = keeper.store_code(c);
    assert_eq!(id1, 5000001);
    let c2 = WasmContract::DistantCodeId(fork_multi_test::model::DistantCodeId {
        code_id: 2,
        chain: chain(),
    });
    let id2 = keeper.store_code(c2);
    assert_eq!(id2, 5000002);
    match keeper.code_for(5000002, &chain()) {
        WasmContract::DistantCodeId(c) => assert_eq!(c.code_id, 2),
        _ => panic!("a stored code id must answer from the table"),
    }
    match keeper.code_for(77, &chain()) {
        WasmContract::DistantCodeId(c) => assert_eq!(c.code_id, 77),
        _ => panic!("an unknown code id falls back to the chain"),
    }
}

#[test]
fn contract_records_round_trip_through_canonical_storage() {
    let keeper = WasmKeeper::new();
    let mut storage = LocalStorage::new();
    let data = record(Some(b"juno1admin"));
    keeper.save_contract(&mut storage, &b"juno1abc".to_vec(), &data);
    match keeper.load_contract(&storage, &b"juno1abc".to_vec()).unwrap() {
        ContractLookup::Found(d) => {
            assert_eq!(d.code_id, 3);
            assert_eq!(d.creator, b"juno1creator".to_vec());
            assert_eq!(d.admin, Some(b"juno1admin".to_vec()));
            assert_eq!(d.label, b"counter".to_vec());
            assert_eq!(d.created, 10);
        }
        _ => panic!("a saved record must load back"),
    }
    match keeper.load_contract(&storage, &b"juno1other".to_vec()).unwrap() {
        ContractLookup::NeedRemote { contract_addr } => {
            assert_eq!(contract_addr, b"juno1other".to_vec());
        }
        _ => panic!("an unregistered contract owes a remote fetch"),
    }
}

#[test]
fn corrupt_records_are_a_fatal_fault() {
    let keeper = WasmKeeper::new();
    let mut storage = LocalStorage::new();
    let key = registry_key(&b"juno1abc".to_vec());
    storage.set(&key, b"garbage");
    assert_eq!(
        keeper.load_contract(&storage, &b"juno1abc".to_vec()),
        Err(KeeperError::CorruptRecord)
    );
}

#[test]
fn registration_uses_the_deterministic_local_address() {
    let keeper = WasmKeeper::new();
    let mut storage = LocalStorage::new();
    let (addr, info) = keeper.register_contract(
        &mut storage,
        0,
        7,
        b"juno1creator".to_vec(),
        None,
        b"counter".to_vec(),
        55,
    );
    assert_eq!(addr, b"contract0".to_vec());
    assert_eq!(info.code_id, 7);
    assert_eq!(local_contract_addr(12), b"contract12".to_vec());
    match keeper.load_contract(&storage, &addr).unwrap() {
        ContractLookup::Found(d) => assert_eq!(d.created, 55),
        _ => panic!("a registered contract must load back"),
    }
}

#[test]
fn query_raw_reads_the_contract_namespace() {
    let keeper = WasmKeeper::new();
    let mut storage = LocalStorage::new();
    let mut total_key =
        fork_multi_test::querier::contract_storage_namespace(&b"juno1abc".to_vec());
    total_key.extend_from_slice(b"count");
    storage.set(&total_key, b"41");
    assert_eq!(
        keeper.query_raw(&b"juno1abc".to_vec(), &storage, &b"count".to_vec()),
        b"41".to_vec()
    );
    assert_eq!(
        keeper.query_raw(&b"juno1abc".to_vec(), &storage, &b"missing".to_vec()),
        Vec::<u8>::new()
    );
}

#[test]
fn snapshot_gathers_storage_registry_and_code_table() {
    let mut keeper = WasmKeeper::new();
    let code = WasmContract::DistantCodeId(fork_multi_test::model::DistantCodeId {
        code_id: 4,
        chain: chain(),
    });
    let id = keeper.store_code(code);
    let mut storage = LocalStorage::new();
    storage.set(b"bank/alice", b"100");
    keeper.save_contract(&mut storage, &b"juno1abc".to_vec(), &record(None));
    let ws = keeper.snapshot(&storage).expect("a clean registry must assemble");
    // every canonical entry is in the snapshot
    assert_eq!(ws.storage.len(), 2);
    // the registry row decodes back out of its stored frame
    assert_eq!(ws.contracts.len(), 1);
    assert_eq!(ws.contracts[0].0, b"juno1abc".to_vec());
    assert_eq!(ws.contracts[0].1.code_id, 3);
    // the code table is carried along
    assert_eq!(ws.codes.len(), 1);
    assert_eq!(ws.codes[0].0, id);
}

#[test]
fn snapshot_rejects_a_corrupt_registry_record() {
    let keeper = WasmKeeper::new();
    let mut storage = LocalStorage::new();
    let key = registry_key(&b"juno1abc".to_vec());
    storage.set(&key, b"garbage");
    assert_eq!(keeper.snapshot(&storage), Err(KeeperError::CorruptRecord));
}

#[test]
fn scenario_trapping_execute_leaves_canonical_storage_identical() {
    // an Execute call whose contract traps leaves canonical local storage
    // byte-for-byte identical to its pre-call state
    let mut storage = LocalStorage::new();
    storage.set(b"wasm/contract_data/x/count", b"1");
    storage.set(b"bank/alice", b"100");
    let before = storage.all_entries();
    let trapped: Result<StorageChanges, WasmRunnerOutput> = Err(WasmRunnerOutput {
        wasm: WasmOutput::Query(b"unused".to_vec()),
        storage: StorageChanges { current_keys: vec![], removed_keys: vec![] },
    });
    let committed = absorb_call_result(&mut storage, &trapped);
    assert!(!committed);
    assert_eq!(storage.all_entries(), before);
}

#[test]
fn successful_call_commits_its_whole_delta() {
    let mut storage = LocalStorage::new();
    storage.set(b"old", b"1");
    storage.set(b"dead", b"x");
    let outcome: Result<StorageChanges, WasmRunnerOutput> = Ok(StorageChanges {
        current_keys: vec![(b"new".to_vec(), b"2".to_vec())],
        removed_keys: vec![b"dead".to_vec()],
    });
    let committed = absorb_call_result(&mut storage, &outcome);
    assert!(committed);
    assert_eq!(storage.get(b"new"), Some(b"2".to_vec()));
    assert_eq!(storage.get(b"dead"), None);
    assert_eq!(storage.get(b"old"), Some(b"1".to_vec()));
}

#[test]
fn apply_writes_then_removes() {
    let mut storage = LocalStorage::new();
    let changes = StorageChanges {
        current_keys: vec![(b"k".to_vec(), b"v".to_vec())],
        removed_keys: vec![b"k".to_vec()],
    };
    apply_storage_changes(&mut storage, &changes);
    assert_eq!(storage.get(b"k"), None);
}

#[test]
fn instantiate_reply_data_is_length_delimited() {
    let r = instantiate_response(Some(vec![7, 8]), &b"contract0".to_vec());
    let mut expected = vec![10u8, 9];
    expected.extend_from_slice(b"contract0");
    expected.extend_from_slice(&[18, 2, 7, 8]);
    assert_eq!(r, expected);
    // empty fields are omitted
    let r2 = instantiate_response(None, &b"contract0".to_vec());
    let mut expected2 = vec![10u8, 9];
    expected2.extend_from_slice(b"contract0");
    assert_eq!(r2, expected2);
}

#[test]
fn execute_reply_data_is_length_delimited() {
    assert_eq!(execute_response(None), None);
    assert_eq!(execute_response(Some(vec![])), Some(vec![]));
    assert_eq!(execute_response(Some(vec![5])), Some(vec![10, 1, 5]));
}
