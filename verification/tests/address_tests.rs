use fork_multi_test::address::bytes_from_bech32;
use fork_multi_test::address::AddressError;
use fork_multi_test::address::RealApi;
use fork_multi_test::contract::ContractError;
use fork_multi_test::model::ChainDescriptor;
use fork_multi_test::model::WasmContract;
use fork_multi_test::text::decimal_bytes;

fn chain() -> ChainDescriptor {
    ChainDescriptor {
        chain_id: b"juno-1".to_vec(),
        grpc_url: b"http://grpc.example:9090".to_vec(),
        bech32_prefix: b"juno".to_vec(),
    }
}

#[test]
fn prefix_round_trips_through_the_api() {
    let api = RealApi::new("juno");
    assert_eq!(api.get_prefix(), "juno".to_string());
    assert_eq!(api.prefix1, Some('j'));
    assert_eq!(api.prefix5, None);
    let long = RealApi::new("osmosis");
    // only the first six characters are kept
    assert_eq!(long.get_prefix(), "osmosi".to_string());
}

#[test]
fn canonical_and_human_addresses_are_inverses() {
    let api = RealApi::new("juno");
    let canon: Vec<u8> = (0u8..20).collect();
    let human = api.human_address(&canon).expect("a 20-byte canon must encode");
    assert!(human.starts_with("juno1"));
    let back = api.canonical_address(&human).expect("the encoded address must decode");
    assert_eq!(back, canon);
}

#[test]
fn long_canonical_addresses_encode_too() {
    let api = RealApi::new("terra");
    let canon = vec![7u8; 32];
    let human = api.human_address(&canon).unwrap();
    let back = api.canonical_address(&human).unwrap();
    assert_eq!(back, canon);
}

#[test]
fn wrong_canonical_length_is_a_validation_error() {
    let api = RealApi::new("juno");
    assert_eq!(
        api.human_address(&[1u8; 21]),
        Err(AddressError::WrongCanonicalLength)
    );
    assert_eq!(api.human_address(&[]), Err(AddressError::WrongCanonicalLength));
}

#[test]
fn decoded_payload_must_be_a_canonical_length() {
    // a perfectly decodable address whose payload is 5 bytes is a
    // validation error, not a success
    let api = RealApi::new("juno");
    let short_payload = [1u8, 2, 3, 4, 5];
    let human = bech32::encode(
        "juno",
        bech32::ToBase32::to_base32(&short_payload.to_vec()),
        bech32::Variant::Bech32,
    )
    .unwrap();
    assert_eq!(
        api.canonical_address(&human),
        Err(AddressError::WrongCanonicalLength)
    );
    assert_eq!(
        bytes_from_bech32(&human, "juno"),
        Err(AddressError::WrongCanonicalLength)
    );
}

#[test]
fn empty_and_malformed_addresses_are_rejected() {
    let api = RealApi::new("juno");
    assert_eq!(api.canonical_address(""), Err(AddressError::EmptyAddress));
    assert_eq!(
        api.canonical_address("notbech32!!!"),
        Err(AddressError::InvalidEncoding)
    );
}

#[test]
fn the_expected_prefix_is_validated() {
    let osmo = RealApi::new("osmo");
    let juno = RealApi::new("juno");
    let human = osmo.human_address(&[9u8; 20]).unwrap();
    assert_eq!(juno.canonical_address(&human), Err(AddressError::WrongPrefix));
    assert_eq!(
        bytes_from_bech32(&human, "osmo").unwrap(),
        vec![9u8; 20]
    );
    assert_eq!(bytes_from_bech32(&human, "juno"), Err(AddressError::WrongPrefix));
    assert_eq!(bytes_from_bech32("", "juno"), Err(AddressError::EmptyAddress));
}

#[test]
fn mock_addresses_are_deterministic() {
    let api = RealApi::new("juno");
    let a1 = api.next_address(4).unwrap();
    let a2 = api.next_address(4).unwrap();
    assert_eq!(a1, a2);
    let b = api.next_address(5).unwrap();
    assert_ne!(a1, b);
    let c1 = api.next_contract_address(4).unwrap();
    // account and contract schemes use different canonical lengths
    assert_ne!(a1, c1);
    // the mock address is a real decodable address of the short length
    assert_eq!(api.canonical_address(&a1).unwrap().len(), 20);
    assert_eq!(api.canonical_address(&c1).unwrap().len(), 32);
}

#[test]
fn decimal_rendering_is_exact() {
    assert_eq!(decimal_bytes(0), b"0".to_vec());
    assert_eq!(decimal_bytes(7), b"7".to_vec());
    assert_eq!(decimal_bytes(1048576), b"1048576".to_vec());
    assert_eq!(
        decimal_bytes(u128::MAX),
        b"340282366920938463463374607431768211455".to_vec()
    );
}

#[test]
fn invalid_bytecode_is_rejected_at_construction() {
    // plainly not a wasm module: the capability check must refuse it
    let r = WasmContract::new_local(b"not a wasm module".to_vec(), chain());
    assert_eq!(r, Err(ContractError::ModuleInvalid));
}

#[test]
fn distant_references_keep_their_identity() {
    let c = WasmContract::new_distant_contract(b"juno1abc".to_vec(), chain());
    match &c {
        WasmContract::DistantContract(d) => {
            assert_eq!(d.contract_addr, b"juno1abc".to_vec());
            assert_eq!(d.chain.bech32_prefix, b"juno".to_vec());
        }
        _ => panic!("an address-bound reference must stay address-bound"),
    }
    assert_eq!(c.get_chain().chain_id, b"juno-1".to_vec());
    let by_id = WasmContract::new_distant_code_id(12, chain());
    match by_id {
        WasmContract::DistantCodeId(d) => assert_eq!(d.code_id, 12),
        _ => panic!("an id-bound reference must stay id-bound"),
    }
}
