use fork_multi_test::codec::decode_request;
use fork_multi_test::codec::decode_response;
use fork_multi_test::codec::encode_request;
use fork_multi_test::codec::encode_response;
use fork_multi_test::model::Attribute;
use fork_multi_test::model::BankMsg;
use fork_multi_test::model::BankStorage;
use fork_multi_test::model::ChainDescriptor;
use fork_multi_test::model::Coin;
use fork_multi_test::model::ContractData;
use fork_multi_test::model::ContractResponse;
use fork_multi_test::model::CosmosMsg;
use fork_multi_test::model::DistantCodeId;
use fork_multi_test::model::Env;
use fork_multi_test::model::Event;
use fork_multi_test::model::ExecuteArgs;
use fork_multi_test::model::InstanceArguments;
use fork_multi_test::model::MessageInfo;
use fork_multi_test::model::QuerierStorage;
use fork_multi_test::model::ReplyOn;
use fork_multi_test::model::StorageChanges;
use fork_multi_test::model::SubMsg;
use fork_multi_test::model::WasmContract;
use fork_multi_test::model::WasmFunction;
use fork_multi_test::model::WasmOutput;
use fork_multi_test::model::WasmRunnerOutput;
use fork_multi_test::model::WasmStorage;

fn chain() -> ChainDescriptor {
    ChainDescriptor {
        chain_id: b"phoenix-1".to_vec(),
        grpc_url: b"http://grpc.example:9090".to_vec(),
        bech32_prefix: b"terra".to_vec(),
    }
}

fn sample_env() -> Env {
    Env {
        block_height: 1234567,
        block_time_nanos: 1571797419879305533,
        chain_id: b"phoenix-1".to_vec(),
        contract_addr: b"terra1contract".to_vec(),
        transaction_index: Some(3),
    }
}

fn sample_request() -> InstanceArguments {
    InstanceArguments {
        function: WasmFunction::Execute(ExecuteArgs {
            env: sample_env(),
            info: MessageInfo {
                sender: b"terra1sender".to_vec(),
                funds: vec![
                    Coin { denom: b"uluna".to_vec(), amount: 1_000_000 },
                    Coin { denom: b"uusd".to_vec(), amount: 7 },
                ],
            },
            msg: b"{\"transfer\":{}}".to_vec(),
        }),
        init_storage: vec![
            (b"balance/alice".to_vec(), b"100".to_vec()),
            (b"config".to_vec(), vec![0, 1, 2, 255]),
        ],
        querier_storage: QuerierStorage {
            wasm: WasmStorage {
                contracts: vec![(
                    b"terra1contract".to_vec(),
                    ContractData {
                        code_id: 42,
                        creator: b"terra1creator".to_vec(),
                        admin: Some(b"terra1admin".to_vec()),
                        label: b"cw20".to_vec(),
                        created: 999,
                    },
                )],
                codes: vec![(
                    42,
                    WasmContract::DistantCodeId(DistantCodeId { code_id: 42, chain: chain() }),
                )],
                storage: vec![(b"k".to_vec(), b"v".to_vec())],
            },
            bank: BankStorage {
                storage: vec![(
                    b"terra1sender".to_vec(),
                    vec![Coin { denom: b"uluna".to_vec(), amount: 5 }],
                )],
            },
        },
    }
}

#[test]
fn request_envelope_round_trips_field_for_field() {
    let req = sample_request();
    let bytes = encode_request(&req);
    let back = decode_request(&bytes).expect("an encoded request must decode");
    match (&back.function, &req.function) {
        (WasmFunction::Execute(b), WasmFunction::Execute(a)) => {
            assert_eq!(b.env.block_height, a.env.block_height);
            assert_eq!(b.env.block_time_nanos, a.env.block_time_nanos);
            assert_eq!(b.env.chain_id, a.env.chain_id);
            assert_eq!(b.env.contract_addr, a.env.contract_addr);
            assert_eq!(b.env.transaction_index, a.env.transaction_index);
            assert_eq!(b.info.sender, a.info.sender);
            assert_eq!(b.info.funds.len(), a.info.funds.len());
            assert_eq!(b.info.funds[0].denom, a.info.funds[0].denom);
            assert_eq!(b.info.funds[0].amount, a.info.funds[0].amount);
            assert_eq!(b.info.funds[1].denom, a.info.funds[1].denom);
            assert_eq!(b.info.funds[1].amount, a.info.funds[1].amount);
            assert_eq!(b.msg, a.msg);
        }
        _ => panic!("the entry point tag must survive the round trip"),
    }
    assert_eq!(back.init_storage, req.init_storage);
    assert_eq!(
        back.querier_storage.wasm.storage,
        req.querier_storage.wasm.storage
    );
    assert_eq!(back.querier_storage.wasm.contracts.len(), 1);
    let (addr, data) = &back.querier_storage.wasm.contracts[0];
    assert_eq!(addr, &b"terra1contract".to_vec());
    assert_eq!(data.code_id, 42);
    assert_eq!(data.creator, b"terra1creator".to_vec());
    assert_eq!(data.admin, Some(b"terra1admin".to_vec()));
    assert_eq!(data.label, b"cw20".to_vec());
    assert_eq!(data.created, 999);
    match &back.querier_storage.wasm.codes[0] {
        (42, WasmContract::DistantCodeId(c)) => {
            assert_eq!(c.code_id, 42);
            assert_eq!(c.chain.chain_id, b"phoenix-1".to_vec());
            assert_eq!(c.chain.bech32_prefix, b"terra".to_vec());
        }
        _ => panic!("the code table row must survive the round trip"),
    }
    let (baddr, coins) = &back.querier_storage.bank.storage[0];
    assert_eq!(baddr, &b"terra1sender".to_vec());
    assert_eq!(coins[0].denom, b"uluna".to_vec());
    assert_eq!(coins[0].amount, 5);
}

#[test]
fn response_envelope_round_trips_field_for_field() {
    let resp = WasmRunnerOutput {
        wasm: WasmOutput::Execute(ContractResponse {
            messages: vec![SubMsg {
                id: 7,
                msg: CosmosMsg::Bank(BankMsg::Send {
                    to_address: b"terra1dest".to_vec(),
                    amount: vec![Coin { denom: b"uluna".to_vec(), amount: 3 }],
                }),
                gas_limit: Some(100000),
                reply_on: ReplyOn::Success,
            }],
            attributes: vec![Attribute { key: b"action".to_vec(), value: b"transfer".to_vec() }],
            events: vec![Event {
                ty: b"custom".to_vec(),
                attributes: vec![Attribute { key: b"k".to_vec(), value: b"v".to_vec() }],
            }],
            data: Some(vec![1, 2, 3]),
        }),
        storage: StorageChanges {
            current_keys: vec![(b"a".to_vec(), b"1".to_vec())],
            removed_keys: vec![b"dead".to_vec()],
        },
    };
    let bytes = encode_response(&resp);
    let back = decode_response(&bytes).expect("an encoded response must decode");
    match back.wasm {
        WasmOutput::Execute(r) => {
            assert_eq!(r.messages.len(), 1);
            assert_eq!(r.messages[0].id, 7);
            assert_eq!(r.messages[0].gas_limit, Some(100000));
            assert!(matches!(r.messages[0].reply_on, ReplyOn::Success));
            match &r.messages[0].msg {
                CosmosMsg::Bank(BankMsg::Send { to_address, amount }) => {
                    assert_eq!(to_address, &b"terra1dest".to_vec());
                    assert_eq!(amount[0].amount, 3);
                }
                _ => panic!("the routed message must survive the round trip"),
            }
            assert_eq!(r.attributes[0].key, b"action".to_vec());
            assert_eq!(r.events[0].ty, b"custom".to_vec());
            assert_eq!(r.events[0].attributes[0].value, b"v".to_vec());
            assert_eq!(r.data, Some(vec![1, 2, 3]));
        }
        _ => panic!("the entry point tag must survive the round trip"),
    }
    assert_eq!(back.storage.current_keys, vec![(b"a".to_vec(), b"1".to_vec())]);
    assert_eq!(back.storage.removed_keys, vec![b"dead".to_vec()]);
}

#[test]
fn garbage_does_not_decode() {
    assert!(decode_request(&vec![]).is_err());
    assert!(decode_request(&vec![0xAB, 0xCD, 0xEF]).is_err());
    assert!(decode_response(&vec![0x00]).is_err());
}

#[test]
fn wrong_version_byte_is_a_mismatch() {
    let mut bytes = encode_request(&sample_request());
    bytes[0] = 2;
    assert!(decode_request(&bytes).is_err());
}

#[test]
fn truncated_envelope_is_a_mismatch() {
    let bytes = encode_request(&sample_request());
    let truncated = bytes[..bytes.len() - 1].to_vec();
    assert!(decode_request(&truncated).is_err());
}

#[test]
fn trailing_bytes_are_a_mismatch() {
    let mut bytes = encode_request(&sample_request());
    bytes.push(0);
    assert!(decode_request(&bytes).is_err());
}
