//! The contract-bytecode resolver.  Bytecode comes from one of three
//! sources: bytes embedded locally, the chain by contract address, or the
//! chain by code id.  Embedded bytecode is validated at construction against
//! the capability allow-list; an invalid module is a fatal construction
//! error.  Remote resolution is deterministic and surfaced as fetch steps the
//! caller performs: an address resolves to a code id, a code id to the bytes.

use vstd::prelude::*;

use crate::local_storage::clone_bytes;
use crate::model::ChainDescriptor;
use crate::model::ContractData;
use crate::model::DistantCodeId;
use crate::model::DistantContract;
use crate::model::LocalContract;
use crate::model::WasmContract;

verus! {

/// Whether the bytecode passes the virtual machine's static check under the
/// capability allow-list.
pub uninterp spec fn module_valid(code: Seq<u8>) -> bool;

/// Relies on `cosmwasm_vm::internals::check_wasm` with the `iterator`
/// capability: whether bytecode passes the static capability check is a
/// function of the bytes alone.
#[verifier::external_body]
fn check_module(code: &Vec<u8>) -> (r: bool)
    ensures
        r == module_valid(code@),
{
    let caps = std::collections::HashSet::from(["iterator".to_string()]);
    cosmwasm_vm::internals::check_wasm(code, &caps).is_ok()
}

/// Failure to construct or resolve a contract.
#[derive(Debug, PartialEq, Eq, Structural, Clone, Copy)]
pub enum ContractError {
    /// The embedded bytecode fails the static capability check.
    ModuleInvalid,
}

/// One step of bytecode resolution: the bytes are ready, or one exact remote
/// fetch is owed.
#[derive(Debug, Clone, PartialEq, Eq)]
pub enum CodeFetch {
    /// The bytecode itself.
    Ready(Vec<u8>),
    /// Fetch the contract's metadata to learn its code id.
    NeedContractInfo { contract_addr: Vec<u8> },
    /// Fetch the bytecode of this code id.
    NeedCodeBytes { code_id: u64 },
}

impl WasmContract {
    /// Embedded bytecode, validated now against the capability allow-list;
    /// invalid bytecode is rejected, never stored.
    pub fn new_local(code: Vec<u8>, chain: ChainDescriptor) -> (r: Result<
        WasmContract,
        ContractError,
    >)
        ensures
            module_valid(code@) <==> r is Ok,
            r matches Ok(c) ==> c@ == crate::model::AbsWasmContract::Local(code@, chain@),
    {
        if check_module(&code) {
            Ok(WasmContract::Local(LocalContract { code, chain }))
        } else {
            Err(ContractError::ModuleInvalid)
        }
    }

    /// A contract resolved remotely by its on-chain address.
    pub fn new_distant_contract(contract_addr: Vec<u8>, chain: ChainDescriptor) -> (r:
        WasmContract)
        ensures
            r@ == crate::model::AbsWasmContract::DistantContract(contract_addr@, chain@),
    {
        WasmContract::DistantContract(DistantContract { contract_addr, chain })
    }

    /// A contract resolved remotely by its code id.
    pub fn new_distant_code_id(code_id: u64, chain: ChainDescriptor) -> (r: WasmContract)
        ensures
            r@ == crate::model::AbsWasmContract::DistantCodeId(code_id, chain@),
    {
        WasmContract::DistantCodeId(DistantCodeId { code_id, chain })
    }

    /// The chain this contract is tested against.
    pub fn get_chain(&self) -> (r: ChainDescriptor)
        ensures
            r@ == (match self@ {
                crate::model::AbsWasmContract::Local(_, chain) => chain,
                crate::model::AbsWasmContract::DistantContract(_, chain) => chain,
                crate::model::AbsWasmContract::DistantCodeId(_, chain) => chain,
            }),
    {
        match self {
            WasmContract::Local(c) => c.chain.dup(),
            WasmContract::DistantContract(c) => c.chain.dup(),
            WasmContract::DistantCodeId(c) => c.chain.dup(),
        }
    }

    /// The first resolution step of this reference: embedded bytes are ready
    /// at once; a distant contract owes a metadata fetch; a distant code id
    /// owes a bytecode fetch.
    pub fn resolve_code(&self) -> (r: CodeFetch)
        ensures
            match self@ {
                crate::model::AbsWasmContract::Local(code, _) => r matches CodeFetch::Ready(b)
                    && b@ == code,
                crate::model::AbsWasmContract::DistantContract(addr, _) => r matches
                    CodeFetch::NeedContractInfo { contract_addr } && contract_addr@ == addr,
                crate::model::AbsWasmContract::DistantCodeId(code_id, _) => r matches
                    CodeFetch::NeedCodeBytes { code_id: c } && c == code_id,
            },
    {
        match self {
            WasmContract::Local(c) => CodeFetch::Ready(clone_bytes(&c.code)),
            WasmContract::DistantContract(c) => CodeFetch::NeedContractInfo {
                contract_addr: clone_bytes(&c.contract_addr),
            },
            WasmContract::DistantCodeId(c) => CodeFetch::NeedCodeBytes { code_id: c.code_id },
        }
    }

    /// The resolution step after the owed metadata fetch answered: the code
    /// id learnt from the chain now owes the bytecode fetch.  Exactly the
    /// address-to-code-id-to-bytes chain, one step each.
    pub fn resolve_code_with_info(info: &ContractData) -> (r: CodeFetch)
        ensures
            r matches CodeFetch::NeedCodeBytes { code_id } && code_id == info.code_id,
    {
        CodeFetch::NeedCodeBytes { code_id: info.code_id }
    }
}

/// The entry point an output must answer for, matched by tag: a call through
/// one entry point must come back tagged with the same entry point; any other
/// pairing is a protocol fault.
pub open spec fn output_matches(
    function: crate::model::AbsWasmFunction,
    output: crate::model::AbsWasmOutput,
) -> bool {
    match function {
        crate::model::AbsWasmFunction::Execute(..) => output is Execute,
        crate::model::AbsWasmFunction::Instantiate(..) => output is Instantiate,
        crate::model::AbsWasmFunction::Query(..) => output is Query,
        crate::model::AbsWasmFunction::Sudo(..) => output is Sudo,
        crate::model::AbsWasmFunction::Reply(..) => output is Reply,
        crate::model::AbsWasmFunction::Migrate(..) => output is Migrate,
    }
}

/// Whether the output answers the dispatched entry point.
pub fn check_output(
    function: &crate::model::WasmFunction,
    output: &crate::model::WasmOutput,
) -> (r: bool)
    ensures
        r == output_matches(function@, output@),
{
    match (function, output) {
        (crate::model::WasmFunction::Execute(_), crate::model::WasmOutput::Execute(_)) => true,
        (crate::model::WasmFunction::Instantiate(_), crate::model::WasmOutput::Instantiate(_)) => true,
        (crate::model::WasmFunction::Query(_), crate::model::WasmOutput::Query(_)) => true,
        (crate::model::WasmFunction::Sudo(_), crate::model::WasmOutput::Sudo(_)) => true,
        (crate::model::WasmFunction::Reply(_), crate::model::WasmOutput::Reply(_)) => true,
        (crate::model::WasmFunction::Migrate(_), crate::model::WasmOutput::Migrate(_)) => true,
        _ => false,
    }
}


/// The registry record built from remotely fetched contract metadata: the
/// chain reports a missing admin as an empty string, which becomes an
/// absent admin.
pub fn record_from_remote_info(
    code_id: u64,
    creator: Vec<u8>,
    admin: Vec<u8>,
    label: Vec<u8>,
    created: u64,
) -> (r: ContractData)
    ensures
        r@.code_id == code_id,
        r@.creator == creator@,
        r@.admin == (if admin@.len() == 0 {
            None::<Seq<u8>>
        } else {
            Some(admin@)
        }),
        r@.label == label@,
        r@.created == created,
{
    let admin = if admin.len() == 0 {
        None
    } else {
        Some(admin)
    };
    ContractData { code_id, creator, admin, label, created }
}

} // verus!
