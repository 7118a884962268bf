//! Plain-value data model.  Chain identity, coins, contract metadata and the
//! call envelopes are held as integers and byte strings, so that every rule
//! about them can be stated and checked; the network client and the virtual
//! machine convert at the boundary.  Each type has an abstract view over
//! sequences, used by the contracts and the wire-format proofs.

use vstd::prelude::*;

verus! {

/// Identity of the remote chain a fork reads from: chain id, gRPC endpoint
/// and the human-readable address prefix.  Immutable per fork.
#[derive(Debug, Clone, PartialEq, Eq)]
pub struct ChainDescriptor {
    pub chain_id: Vec<u8>,
    pub grpc_url: Vec<u8>,
    pub bech32_prefix: Vec<u8>,
}

/// Abstract view of a chain descriptor.
#[verifier::ext_equal]
pub struct AbsChainDescriptor {
    pub chain_id: Seq<u8>,
    pub grpc_url: Seq<u8>,
    pub bech32_prefix: Seq<u8>,
}

/// One native coin amount of one denomination.
#[derive(Debug, Clone, PartialEq, Eq)]
pub struct Coin {
    pub denom: Vec<u8>,
    pub amount: u128,
}

/// Abstract view of a coin.
#[verifier::ext_equal]
pub struct AbsCoin {
    pub denom: Seq<u8>,
    pub amount: u128,
}

/// Metadata of an instantiated contract, as the chain keeps it.
#[derive(Debug, Clone, PartialEq, Eq)]
pub struct ContractData {
    /// Identifier of the stored contract code.
    pub code_id: u64,
    /// Account that instantiated the contract.
    pub creator: Vec<u8>,
    /// Account allowed to migrate the contract, if any.
    pub admin: Option<Vec<u8>>,
    /// Label given at instantiation.
    pub label: Vec<u8>,
    /// Block height at instantiation.
    pub created: u64,
}

/// Abstract view of contract metadata.
#[verifier::ext_equal]
pub struct AbsContractData {
    pub code_id: u64,
    pub creator: Seq<u8>,
    pub admin: Option<Seq<u8>>,
    pub label: Seq<u8>,
    pub created: u64,
}

/// Bytecode held locally, tied to the chain it is tested against.
#[derive(Debug, Clone, PartialEq, Eq)]
pub struct LocalContract {
    pub code: Vec<u8>,
    pub chain: ChainDescriptor,
}

/// A contract resolved remotely by its on-chain address.
#[derive(Debug, Clone, PartialEq, Eq)]
pub struct DistantContract {
    pub contract_addr: Vec<u8>,
    pub chain: ChainDescriptor,
}

/// A contract resolved remotely by its code id.
#[derive(Debug, Clone, PartialEq, Eq)]
pub struct DistantCodeId {
    pub code_id: u64,
    pub chain: ChainDescriptor,
}

/// Where a contract's bytecode comes from: embedded bytes, the chain by
/// contract address, or the chain by code id.
#[derive(Debug, Clone, PartialEq, Eq)]
pub enum WasmContract {
    Local(LocalContract),
    DistantContract(DistantContract),
    DistantCodeId(DistantCodeId),
}

/// Abstract view of a bytecode reference.
#[verifier::ext_equal]
pub enum AbsWasmContract {
    Local(Seq<u8>, AbsChainDescriptor),
    DistantContract(Seq<u8>, AbsChainDescriptor),
    DistantCodeId(u64, AbsChainDescriptor),
}

/// The block and contract environment an entry point runs under.
#[derive(Debug, Clone, PartialEq, Eq)]
pub struct Env {
    pub block_height: u64,
    pub block_time_nanos: u64,
    pub chain_id: Vec<u8>,
    pub contract_addr: Vec<u8>,
    pub transaction_index: Option<u64>,
}

/// Abstract view of an environment.
#[verifier::ext_equal]
pub struct AbsEnv {
    pub block_height: u64,
    pub block_time_nanos: u64,
    pub chain_id: Seq<u8>,
    pub contract_addr: Seq<u8>,
    pub transaction_index: Option<u64>,
}

/// Sender and funds of a message.
#[derive(Debug, Clone, PartialEq, Eq)]
pub struct MessageInfo {
    pub sender: Vec<u8>,
    pub funds: Vec<Coin>,
}

/// Abstract view of message info.
#[verifier::ext_equal]
pub struct AbsMessageInfo {
    pub sender: Seq<u8>,
    pub funds: Seq<AbsCoin>,
}

/// One key/value attribute of an event.
#[derive(Debug, Clone, PartialEq, Eq)]
pub struct Attribute {
    pub key: Vec<u8>,
    pub value: Vec<u8>,
}

/// Abstract view of an attribute.
#[verifier::ext_equal]
pub struct AbsAttribute {
    pub key: Seq<u8>,
    pub value: Seq<u8>,
}

/// One event emitted by a contract or the keeper.
#[derive(Debug, Clone, PartialEq, Eq)]
pub struct Event {
    pub ty: Vec<u8>,
    pub attributes: Vec<Attribute>,
}

/// Abstract view of an event.
#[verifier::ext_equal]
pub struct AbsEvent {
    pub ty: Seq<u8>,
    pub attributes: Seq<AbsAttribute>,
}

/// What a finished sub-message execution reports back on success.
#[derive(Debug, Clone, PartialEq, Eq)]
pub struct SubMsgResponse {
    pub events: Vec<Event>,
    pub data: Option<Vec<u8>>,
}

/// Abstract view of a sub-message response.
#[verifier::ext_equal]
pub struct AbsSubMsgResponse {
    pub events: Seq<AbsEvent>,
    pub data: Option<Seq<u8>>,
}

/// Result handed to a `reply` entry point.
#[derive(Debug, Clone, PartialEq, Eq)]
pub enum SubMsgResult {
    Success(SubMsgResponse),
    Failure(Vec<u8>),
}

/// Abstract view of a sub-message result.
#[verifier::ext_equal]
pub enum AbsSubMsgResult {
    Success(AbsSubMsgResponse),
    Failure(Seq<u8>),
}

/// The payload of a `reply` entry point call.
#[derive(Debug, Clone, PartialEq, Eq)]
pub struct Reply {
    pub id: u64,
    pub result: SubMsgResult,
}

/// Abstract view of a reply.
#[verifier::ext_equal]
pub struct AbsReply {
    pub id: u64,
    pub result: AbsSubMsgResult,
}

/// When the keeper calls `reply` after a sub-message.
#[derive(Clone, Copy, PartialEq, Eq, Structural, Debug)]
pub enum ReplyOn {
    Always,
    Error,
    Success,
    Never,
}

impl View for ReplyOn {
    type V = ReplyOn;

    open spec fn view(&self) -> ReplyOn {
        *self
    }
}

/// A bank operation a contract may emit.
#[derive(Debug, Clone, PartialEq, Eq)]
pub enum BankMsg {
    Send { to_address: Vec<u8>, amount: Vec<Coin> },
    Burn { amount: Vec<Coin> },
}

/// Abstract view of a bank message.
#[verifier::ext_equal]
pub enum AbsBankMsg {
    Send { to_address: Seq<u8>, amount: Seq<AbsCoin> },
    Burn { amount: Seq<AbsCoin> },
}

/// A wasm operation a contract may emit.
#[derive(Debug, Clone, PartialEq, Eq)]
pub enum WasmMsg {
    Execute { contract_addr: Vec<u8>, msg: Vec<u8>, funds: Vec<Coin> },
    Instantiate {
        admin: Option<Vec<u8>>,
        code_id: u64,
        msg: Vec<u8>,
        funds: Vec<Coin>,
        label: Vec<u8>,
    },
    Migrate { contract_addr: Vec<u8>, new_code_id: u64, msg: Vec<u8> },
    UpdateAdmin { contract_addr: Vec<u8>, admin: Vec<u8> },
    ClearAdmin { contract_addr: Vec<u8> },
}

/// Abstract view of a wasm message.
#[verifier::ext_equal]
pub enum AbsWasmMsg {
    Execute { contract_addr: Seq<u8>, msg: Seq<u8>, funds: Seq<AbsCoin> },
    Instantiate {
        admin: Option<Seq<u8>>,
        code_id: u64,
        msg: Seq<u8>,
        funds: Seq<AbsCoin>,
        label: Seq<u8>,
    },
    Migrate { contract_addr: Seq<u8>, new_code_id: u64, msg: Seq<u8> },
    UpdateAdmin { contract_addr: Seq<u8>, admin: Seq<u8> },
    ClearAdmin { contract_addr: Seq<u8> },
}

/// A message a contract hands back for the keeper to route.
#[derive(Debug, Clone, PartialEq, Eq)]
pub enum CosmosMsg {
    Bank(BankMsg),
    Wasm(WasmMsg),
}

/// Abstract view of a routed message.
#[verifier::ext_equal]
pub enum AbsCosmosMsg {
    Bank(AbsBankMsg),
    Wasm(AbsWasmMsg),
}

/// A sub-message: a routed message plus its reply policy.
#[derive(Debug, Clone, PartialEq, Eq)]
pub struct SubMsg {
    pub id: u64,
    pub msg: CosmosMsg,
    pub gas_limit: Option<u64>,
    pub reply_on: ReplyOn,
}

/// Abstract view of a sub-message.
#[verifier::ext_equal]
pub struct AbsSubMsg {
    pub id: u64,
    pub msg: AbsCosmosMsg,
    pub gas_limit: Option<u64>,
    pub reply_on: ReplyOn,
}

/// What an entry point returns: sub-messages to route, attributes and events
/// to record, and an optional data payload.
#[derive(Debug, Clone, PartialEq, Eq)]
pub struct ContractResponse {
    pub messages: Vec<SubMsg>,
    pub attributes: Vec<Attribute>,
    pub events: Vec<Event>,
    pub data: Option<Vec<u8>>,
}

/// Abstract view of a contract response.
#[verifier::ext_equal]
pub struct AbsContractResponse {
    pub messages: Seq<AbsSubMsg>,
    pub attributes: Seq<AbsAttribute>,
    pub events: Seq<AbsEvent>,
    pub data: Option<Seq<u8>>,
}

impl View for ChainDescriptor {
    type V = AbsChainDescriptor;

    open spec fn view(&self) -> AbsChainDescriptor {
        AbsChainDescriptor {
            chain_id: self.chain_id@,
            grpc_url: self.grpc_url@,
            bech32_prefix: self.bech32_prefix@,
        }
    }
}

impl DeepView for ChainDescriptor {
    type V = AbsChainDescriptor;

    open spec fn deep_view(&self) -> AbsChainDescriptor {
        self@
    }
}

impl View for Coin {
    type V = AbsCoin;

    open spec fn view(&self) -> AbsCoin {
        AbsCoin { denom: self.denom@, amount: self.amount }
    }
}

impl DeepView for Coin {
    type V = AbsCoin;

    open spec fn deep_view(&self) -> AbsCoin {
        self@
    }
}

impl View for ContractData {
    type V = AbsContractData;

    open spec fn view(&self) -> AbsContractData {
        AbsContractData {
            code_id: self.code_id,
            creator: self.creator@,
            admin: match self.admin {
                Some(ref a) => Some(a@),
                None => None,
            },
            label: self.label@,
            created: self.created,
        }
    }
}

impl DeepView for ContractData {
    type V = AbsContractData;

    open spec fn deep_view(&self) -> AbsContractData {
        self@
    }
}

impl View for WasmContract {
    type V = AbsWasmContract;

    open spec fn view(&self) -> AbsWasmContract {
        match self {
            WasmContract::Local(c) => AbsWasmContract::Local(c.code@, c.chain@),
            WasmContract::DistantContract(c) => AbsWasmContract::DistantContract(
                c.contract_addr@,
                c.chain@,
            ),
            WasmContract::DistantCodeId(c) => AbsWasmContract::DistantCodeId(c.code_id, c.chain@),
        }
    }
}

impl DeepView for WasmContract {
    type V = AbsWasmContract;

    open spec fn deep_view(&self) -> AbsWasmContract {
        self@
    }
}

impl View for Env {
    type V = AbsEnv;

    open spec fn view(&self) -> AbsEnv {
        AbsEnv {
            block_height: self.block_height,
            block_time_nanos: self.block_time_nanos,
            chain_id: self.chain_id@,
            contract_addr: self.contract_addr@,
            transaction_index: self.transaction_index,
        }
    }
}

impl View for MessageInfo {
    type V = AbsMessageInfo;

    open spec fn view(&self) -> AbsMessageInfo {
        AbsMessageInfo { sender: self.sender@, funds: self.funds.deep_view() }
    }
}

impl View for Attribute {
    type V = AbsAttribute;

    open spec fn view(&self) -> AbsAttribute {
        AbsAttribute { key: self.key@, value: self.value@ }
    }
}

impl DeepView for Attribute {
    type V = AbsAttribute;

    open spec fn deep_view(&self) -> AbsAttribute {
        self@
    }
}

impl View for Event {
    type V = AbsEvent;

    open spec fn view(&self) -> AbsEvent {
        AbsEvent { ty: self.ty@, attributes: self.attributes.deep_view() }
    }
}

impl DeepView for Event {
    type V = AbsEvent;

    open spec fn deep_view(&self) -> AbsEvent {
        self@
    }
}

impl View for SubMsgResponse {
    type V = AbsSubMsgResponse;

    open spec fn view(&self) -> AbsSubMsgResponse {
        AbsSubMsgResponse {
            events: self.events.deep_view(),
            data: match self.data {
                Some(ref d) => Some(d@),
                None => None,
            },
        }
    }
}

impl View for SubMsgResult {
    type V = AbsSubMsgResult;

    open spec fn view(&self) -> AbsSubMsgResult {
        match self {
            SubMsgResult::Success(r) => AbsSubMsgResult::Success(r@),
            SubMsgResult::Failure(e) => AbsSubMsgResult::Failure(e@),
        }
    }
}

impl View for Reply {
    type V = AbsReply;

    open spec fn view(&self) -> AbsReply {
        AbsReply { id: self.id, result: self.result@ }
    }
}

impl View for BankMsg {
    type V = AbsBankMsg;

    open spec fn view(&self) -> AbsBankMsg {
        match self {
            BankMsg::Send { to_address, amount } => AbsBankMsg::Send {
                to_address: to_address@,
                amount: amount.deep_view(),
            },
            BankMsg::Burn { amount } => AbsBankMsg::Burn { amount: amount.deep_view() },
        }
    }
}

impl View for WasmMsg {
    type V = AbsWasmMsg;

    open spec fn view(&self) -> AbsWasmMsg {
        match self {
            WasmMsg::Execute { contract_addr, msg, funds } => AbsWasmMsg::Execute {
                contract_addr: contract_addr@,
                msg: msg@,
                funds: funds.deep_view(),
            },
            WasmMsg::Instantiate { admin, code_id, msg, funds, label } => AbsWasmMsg::Instantiate {
                admin: match admin {
                    Some(a) => Some(a@),
                    None => None,
                },
                code_id: *code_id,
                msg: msg@,
                funds: funds.deep_view(),
                label: label@,
            },
            WasmMsg::Migrate { contract_addr, new_code_id, msg } => AbsWasmMsg::Migrate {
                contract_addr: contract_addr@,
                new_code_id: *new_code_id,
                msg: msg@,
            },
            WasmMsg::UpdateAdmin { contract_addr, admin } => AbsWasmMsg::UpdateAdmin {
                contract_addr: contract_addr@,
                admin: admin@,
            },
            WasmMsg::ClearAdmin { contract_addr } => AbsWasmMsg::ClearAdmin {
                contract_addr: contract_addr@,
            },
        }
    }
}

impl View for CosmosMsg {
    type V = AbsCosmosMsg;

    open spec fn view(&self) -> AbsCosmosMsg {
        match self {
            CosmosMsg::Bank(m) => AbsCosmosMsg::Bank(m@),
            CosmosMsg::Wasm(m) => AbsCosmosMsg::Wasm(m@),
        }
    }
}

impl View for SubMsg {
    type V = AbsSubMsg;

    open spec fn view(&self) -> AbsSubMsg {
        AbsSubMsg {
            id: self.id,
            msg: self.msg@,
            gas_limit: self.gas_limit,
            reply_on: self.reply_on,
        }
    }
}

impl DeepView for SubMsg {
    type V = AbsSubMsg;

    open spec fn deep_view(&self) -> AbsSubMsg {
        self@
    }
}

impl View for ContractResponse {
    type V = AbsContractResponse;

    open spec fn view(&self) -> AbsContractResponse {
        AbsContractResponse {
            messages: self.messages.deep_view(),
            attributes: self.attributes.deep_view(),
            events: self.events.deep_view(),
            data: match self.data {
                Some(ref d) => Some(d@),
                None => None,
            },
        }
    }
}

/// One validator of the staking module, as seeded locally.
#[derive(Debug, Clone, PartialEq, Eq)]
pub struct Validator {
    pub address: Vec<u8>,
    /// Commission rates, in units of one part per 10^18.
    pub commission: u128,
    pub max_commission: u128,
    pub max_change_rate: u128,
}

/// Abstract view of a validator.
#[verifier::ext_equal]
pub struct AbsValidator {
    pub address: Seq<u8>,
    pub commission: u128,
    pub max_commission: u128,
    pub max_change_rate: u128,
}

impl View for Validator {
    type V = AbsValidator;

    open spec fn view(&self) -> AbsValidator {
        AbsValidator {
            address: self.address@,
            commission: self.commission,
            max_commission: self.max_commission,
            max_change_rate: self.max_change_rate,
        }
    }
}

impl DeepView for Validator {
    type V = AbsValidator;

    open spec fn deep_view(&self) -> AbsValidator {
        self@
    }
}

/// One delegation of the staking module, as seeded locally.
#[derive(Debug, Clone, PartialEq, Eq)]
pub struct Delegation {
    pub delegator: Vec<u8>,
    pub validator: Vec<u8>,
    pub amount: Coin,
    pub can_redelegate: Coin,
    pub accumulated_rewards: Vec<Coin>,
}

/// Abstract view of a delegation.
#[verifier::ext_equal]
pub struct AbsDelegation {
    pub delegator: Seq<u8>,
    pub validator: Seq<u8>,
    pub amount: AbsCoin,
    pub can_redelegate: AbsCoin,
    pub accumulated_rewards: Seq<AbsCoin>,
}

impl View for Delegation {
    type V = AbsDelegation;

    open spec fn view(&self) -> AbsDelegation {
        AbsDelegation {
            delegator: self.delegator@,
            validator: self.validator@,
            amount: self.amount@,
            can_redelegate: self.can_redelegate@,
            accumulated_rewards: self.accumulated_rewards.deep_view(),
        }
    }
}

impl DeepView for Delegation {
    type V = AbsDelegation;

    open spec fn deep_view(&self) -> AbsDelegation {
        self@
    }
}

/// Arguments of an `execute` entry point call.
#[derive(Debug, Clone, PartialEq, Eq)]
pub struct ExecuteArgs {
    pub env: Env,
    pub info: MessageInfo,
    pub msg: Vec<u8>,
}

/// Arguments of an `instantiate` entry point call.
#[derive(Debug, Clone, PartialEq, Eq)]
pub struct InstantiateArgs {
    pub env: Env,
    pub info: MessageInfo,
    pub msg: Vec<u8>,
}

/// Arguments of a `query` entry point call.
#[derive(Debug, Clone, PartialEq, Eq)]
pub struct QueryArgs {
    pub env: Env,
    pub msg: Vec<u8>,
}

/// Arguments of a `sudo` entry point call.
#[derive(Debug, Clone, PartialEq, Eq)]
pub struct SudoArgs {
    pub env: Env,
    pub msg: Vec<u8>,
}

/// Arguments of a `reply` entry point call.
#[derive(Debug, Clone, PartialEq, Eq)]
pub struct ReplyArgs {
    pub env: Env,
    pub reply: Reply,
}

/// Arguments of a `migrate` entry point call.
#[derive(Debug, Clone, PartialEq, Eq)]
pub struct MigrateArgs {
    pub env: Env,
    pub msg: Vec<u8>,
}

/// The entry point to dispatch, with its arguments.
#[derive(Debug, Clone, PartialEq, Eq)]
pub enum WasmFunction {
    Execute(ExecuteArgs),
    Instantiate(InstantiateArgs),
    Query(QueryArgs),
    Sudo(SudoArgs),
    Reply(ReplyArgs),
    Migrate(MigrateArgs),
}

/// Abstract view of an entry point call.
#[verifier::ext_equal]
pub enum AbsWasmFunction {
    Execute(AbsEnv, AbsMessageInfo, Seq<u8>),
    Instantiate(AbsEnv, AbsMessageInfo, Seq<u8>),
    Query(AbsEnv, Seq<u8>),
    Sudo(AbsEnv, Seq<u8>),
    Reply(AbsEnv, AbsReply),
    Migrate(AbsEnv, Seq<u8>),
}

impl View for WasmFunction {
    type V = AbsWasmFunction;

    open spec fn view(&self) -> AbsWasmFunction {
        match self {
            WasmFunction::Execute(a) => AbsWasmFunction::Execute(a.env@, a.info@, a.msg@),
            WasmFunction::Instantiate(a) => AbsWasmFunction::Instantiate(a.env@, a.info@, a.msg@),
            WasmFunction::Query(a) => AbsWasmFunction::Query(a.env@, a.msg@),
            WasmFunction::Sudo(a) => AbsWasmFunction::Sudo(a.env@, a.msg@),
            WasmFunction::Reply(a) => AbsWasmFunction::Reply(a.env@, a.reply@),
            WasmFunction::Migrate(a) => AbsWasmFunction::Migrate(a.env@, a.msg@),
        }
    }
}

impl WasmFunction {
    /// The contract address the call is directed at.
    pub open spec fn spec_address(&self) -> Seq<u8> {
        match self {
            WasmFunction::Execute(a) => a.env.contract_addr@,
            WasmFunction::Instantiate(a) => a.env.contract_addr@,
            WasmFunction::Query(a) => a.env.contract_addr@,
            WasmFunction::Sudo(a) => a.env.contract_addr@,
            WasmFunction::Reply(a) => a.env.contract_addr@,
            WasmFunction::Migrate(a) => a.env.contract_addr@,
        }
    }

    /// The contract address the call is directed at.
    pub fn get_address(&self) -> (r: Vec<u8>)
        ensures
            r@ == self.spec_address(),
    {
        match self {
            WasmFunction::Execute(a) => crate::local_storage::clone_bytes(&a.env.contract_addr),
            WasmFunction::Instantiate(a) => crate::local_storage::clone_bytes(
                &a.env.contract_addr,
            ),
            WasmFunction::Query(a) => crate::local_storage::clone_bytes(&a.env.contract_addr),
            WasmFunction::Sudo(a) => crate::local_storage::clone_bytes(&a.env.contract_addr),
            WasmFunction::Reply(a) => crate::local_storage::clone_bytes(&a.env.contract_addr),
            WasmFunction::Migrate(a) => crate::local_storage::clone_bytes(&a.env.contract_addr),
        }
    }
}

/// The local wasm side of a querier snapshot: the contract registry, the
/// code table and the raw namespaced storage.
#[derive(Debug, Clone, PartialEq, Eq)]
pub struct WasmStorage {
    pub contracts: Vec<(Vec<u8>, ContractData)>,
    pub codes: Vec<(u64, WasmContract)>,
    pub storage: Vec<(Vec<u8>, Vec<u8>)>,
}

/// Abstract view of the wasm snapshot.
#[verifier::ext_equal]
pub struct AbsWasmStorage {
    pub contracts: Seq<(Seq<u8>, AbsContractData)>,
    pub codes: Seq<(u64, AbsWasmContract)>,
    pub storage: Seq<(Seq<u8>, Seq<u8>)>,
}

impl View for WasmStorage {
    type V = AbsWasmStorage;

    open spec fn view(&self) -> AbsWasmStorage {
        AbsWasmStorage {
            contracts: self.contracts.deep_view(),
            codes: self.codes.deep_view(),
            storage: self.storage.deep_view(),
        }
    }
}

/// The local bank side of a querier snapshot: per-address coin balances.
#[derive(Debug, Clone, PartialEq, Eq)]
pub struct BankStorage {
    pub storage: Vec<(Vec<u8>, Vec<Coin>)>,
}

/// Abstract view of the bank snapshot.
#[verifier::ext_equal]
pub struct AbsBankStorage {
    pub storage: Seq<(Seq<u8>, Seq<AbsCoin>)>,
}

impl View for BankStorage {
    type V = AbsBankStorage;

    open spec fn view(&self) -> AbsBankStorage {
        AbsBankStorage { storage: self.storage.deep_view() }
    }
}

/// The immutable, call-scoped local view a querier answers from before any
/// remote fallback.
#[derive(Debug, Clone, PartialEq, Eq)]
pub struct QuerierStorage {
    pub wasm: WasmStorage,
    pub bank: BankStorage,
}

/// Abstract view of a querier snapshot.
#[verifier::ext_equal]
pub struct AbsQuerierStorage {
    pub wasm: AbsWasmStorage,
    pub bank: AbsBankStorage,
}

impl View for QuerierStorage {
    type V = AbsQuerierStorage;

    open spec fn view(&self) -> AbsQuerierStorage {
        AbsQuerierStorage { wasm: self.wasm@, bank: self.bank@ }
    }
}

/// The request that crosses the isolation boundary: the entry point with its
/// arguments, the initial contract storage, and the querier snapshot.
#[derive(Debug, Clone, PartialEq, Eq)]
pub struct InstanceArguments {
    pub function: WasmFunction,
    pub init_storage: Vec<(Vec<u8>, Vec<u8>)>,
    pub querier_storage: QuerierStorage,
}

/// Abstract view of a request envelope.
#[verifier::ext_equal]
pub struct AbsInstanceArguments {
    pub function: AbsWasmFunction,
    pub init_storage: Seq<(Seq<u8>, Seq<u8>)>,
    pub querier_storage: AbsQuerierStorage,
}

impl View for InstanceArguments {
    type V = AbsInstanceArguments;

    open spec fn view(&self) -> AbsInstanceArguments {
        AbsInstanceArguments {
            function: self.function@,
            init_storage: self.init_storage.deep_view(),
            querier_storage: self.querier_storage@,
        }
    }
}

/// What an entry point produced, tagged by the entry point.
#[derive(Debug, Clone, PartialEq, Eq)]
pub enum WasmOutput {
    Execute(ContractResponse),
    Instantiate(ContractResponse),
    Query(Vec<u8>),
    Sudo(ContractResponse),
    Reply(ContractResponse),
    Migrate(ContractResponse),
}

/// Abstract view of an entry point's output.
#[verifier::ext_equal]
pub enum AbsWasmOutput {
    Execute(AbsContractResponse),
    Instantiate(AbsContractResponse),
    Query(Seq<u8>),
    Sudo(AbsContractResponse),
    Reply(AbsContractResponse),
    Migrate(AbsContractResponse),
}

impl View for WasmOutput {
    type V = AbsWasmOutput;

    open spec fn view(&self) -> AbsWasmOutput {
        match self {
            WasmOutput::Execute(r) => AbsWasmOutput::Execute(r@),
            WasmOutput::Instantiate(r) => AbsWasmOutput::Instantiate(r@),
            WasmOutput::Query(b) => AbsWasmOutput::Query(b@),
            WasmOutput::Sudo(r) => AbsWasmOutput::Sudo(r@),
            WasmOutput::Reply(r) => AbsWasmOutput::Reply(r@),
            WasmOutput::Migrate(r) => AbsWasmOutput::Migrate(r@),
        }
    }
}

/// The storage delta a finished call reports: the full resulting local
/// entries, and the keys it explicitly removed.
#[derive(Debug, Clone, PartialEq, Eq)]
pub struct StorageChanges {
    pub current_keys: Vec<(Vec<u8>, Vec<u8>)>,
    pub removed_keys: Vec<Vec<u8>>,
}

/// Abstract view of a storage delta.
#[verifier::ext_equal]
pub struct AbsStorageChanges {
    pub current_keys: Seq<(Seq<u8>, Seq<u8>)>,
    pub removed_keys: Seq<Seq<u8>>,
}

impl View for StorageChanges {
    type V = AbsStorageChanges;

    open spec fn view(&self) -> AbsStorageChanges {
        AbsStorageChanges {
            current_keys: self.current_keys.deep_view(),
            removed_keys: self.removed_keys.deep_view(),
        }
    }
}

/// The response that crosses the isolation boundary back: the entry point's
/// output and the storage delta.
#[derive(Debug, Clone, PartialEq, Eq)]
pub struct WasmRunnerOutput {
    pub wasm: WasmOutput,
    pub storage: StorageChanges,
}

/// Abstract view of a response envelope.
#[verifier::ext_equal]
pub struct AbsWasmRunnerOutput {
    pub wasm: AbsWasmOutput,
    pub storage: AbsStorageChanges,
}

impl View for WasmRunnerOutput {
    type V = AbsWasmRunnerOutput;

    open spec fn view(&self) -> AbsWasmRunnerOutput {
        AbsWasmRunnerOutput { wasm: self.wasm@, storage: self.storage@ }
    }
}

impl ChainDescriptor {
    /// An owned copy.
    pub fn dup(&self) -> (r: ChainDescriptor)
        ensures
            r@ == self@,
    {
        ChainDescriptor {
            chain_id: crate::local_storage::clone_bytes(&self.chain_id),
            grpc_url: crate::local_storage::clone_bytes(&self.grpc_url),
            bech32_prefix: crate::local_storage::clone_bytes(&self.bech32_prefix),
        }
    }
}


impl Coin {
    /// An owned copy.
    pub fn dup(&self) -> (r: Coin)
        ensures
            r@ == self@,
    {
        Coin { denom: crate::local_storage::clone_bytes(&self.denom), amount: self.amount }
    }
}

impl Attribute {
    /// An owned copy.
    pub fn dup(&self) -> (r: Attribute)
        ensures
            r@ == self@,
    {
        Attribute {
            key: crate::local_storage::clone_bytes(&self.key),
            value: crate::local_storage::clone_bytes(&self.value),
        }
    }
}

/// An owned copy of an optional byte string.
pub fn clone_opt_bytes(v: &Option<Vec<u8>>) -> (r: Option<Vec<u8>>)
    ensures
        crate::codec::opt_bytes_view(&r) == crate::codec::opt_bytes_view(v),
{
    match v {
        Some(b) => Some(crate::local_storage::clone_bytes(b)),
        None => None,
    }
}

impl ContractData {
    /// An owned copy.
    pub fn dup(&self) -> (r: ContractData)
        ensures
            r@ == self@,
    {
        ContractData {
            code_id: self.code_id,
            creator: crate::local_storage::clone_bytes(&self.creator),
            admin: clone_opt_bytes(&self.admin),
            label: crate::local_storage::clone_bytes(&self.label),
            created: self.created,
        }
    }
}

impl WasmContract {
    /// An owned copy.
    pub fn dup(&self) -> (r: WasmContract)
        ensures
            r@ == self@,
    {
        match self {
            WasmContract::Local(c) => WasmContract::Local(
                LocalContract {
                    code: crate::local_storage::clone_bytes(&c.code),
                    chain: c.chain.dup(),
                },
            ),
            WasmContract::DistantContract(c) => WasmContract::DistantContract(
                DistantContract {
                    contract_addr: crate::local_storage::clone_bytes(&c.contract_addr),
                    chain: c.chain.dup(),
                },
            ),
            WasmContract::DistantCodeId(c) => WasmContract::DistantCodeId(
                DistantCodeId { code_id: c.code_id, chain: c.chain.dup() },
            ),
        }
    }
}

impl Env {
    /// An owned copy.
    pub fn dup(&self) -> (r: Env)
        ensures
            r@ == self@,
    {
        Env {
            block_height: self.block_height,
            block_time_nanos: self.block_time_nanos,
            chain_id: crate::local_storage::clone_bytes(&self.chain_id),
            contract_addr: crate::local_storage::clone_bytes(&self.contract_addr),
            transaction_index: self.transaction_index,
        }
    }
}

impl Validator {
    /// An owned copy.
    pub fn dup(&self) -> (r: Validator)
        ensures
            r@ == self@,
    {
        Validator {
            address: crate::local_storage::clone_bytes(&self.address),
            commission: self.commission,
            max_commission: self.max_commission,
            max_change_rate: self.max_change_rate,
        }
    }
}

/// Each element of the deep view of a registry row vector is the pair of the
/// element's views.
pub proof fn lemma_dv_contract_rows(v: &Vec<(Vec<u8>, ContractData)>)
    ensures
        v.deep_view().len() == v@.len(),
        forall|i: int| 0 <= i < v@.len() ==> #[trigger] v.deep_view()[i] == (v@[i].0@, v@[i].1@),
{
    assert forall|i: int| 0 <= i < v@.len() implies #[trigger] v.deep_view()[i] == (
        v@[i].0@,
        v@[i].1@,
    ) by {
        assert(v.deep_view()[i].0 =~= v@[i].0@);
    }
}

/// Each element of the deep view of a code row vector is the pair of the
/// element's views.
pub proof fn lemma_dv_code_rows(v: &Vec<(u64, WasmContract)>)
    ensures
        v.deep_view().len() == v@.len(),
        forall|i: int| 0 <= i < v@.len() ==> #[trigger] v.deep_view()[i] == (v@[i].0, v@[i].1@),
{
    assert forall|i: int| 0 <= i < v@.len() implies #[trigger] v.deep_view()[i] == (
        v@[i].0,
        v@[i].1@,
    ) by {}
}

/// Each element of the deep view of a ledger row vector is the pair of the
/// element's views.
pub proof fn lemma_dv_bank_rows(v: &Vec<(Vec<u8>, Vec<Coin>)>)
    ensures
        v.deep_view().len() == v@.len(),
        forall|i: int|
            0 <= i < v@.len() ==> #[trigger] v.deep_view()[i] == (v@[i].0@, v@[i].1.deep_view()),
{
    assert forall|i: int| 0 <= i < v@.len() implies #[trigger] v.deep_view()[i] == (
        v@[i].0@,
        v@[i].1.deep_view(),
    ) by {
        assert(v.deep_view()[i].0 =~= v@[i].0@);
    }
}

/// An owned copy of a coin list.
pub fn clone_coins(v: &Vec<Coin>) -> (r: Vec<Coin>)
    ensures
        r.deep_view() == v.deep_view(),
{
    let mut out: Vec<Coin> = Vec::new();
    let mut i: usize = 0;
    proof {
        
        assert(out.deep_view() =~= v.deep_view().take(0));
    }
    while i < v.len()
        invariant
            i <= v@.len(),
            v@.len() == v.deep_view().len(),
            forall|j: int| 0 <= j < v@.len() ==> #[trigger] v.deep_view()[j] == v@[j]@,
            out.deep_view() =~= v.deep_view().take(i as int),
        decreases v@.len() - i,
    {
        let ghost odv = out.deep_view();
        let e = v[i].dup();
        out.push(e);
        proof {
            
            assert(out.deep_view() =~= odv.push(v.deep_view()[i as int]));
            assert(out.deep_view() =~= v.deep_view().take(i + 1));
        }
        i += 1;
    }
    proof {
        assert(v.deep_view().take(v.deep_view().len() as int) =~= v.deep_view());
    }
    out
}

/// An owned copy of an attribute list.
pub fn clone_attrs(v: &Vec<Attribute>) -> (r: Vec<Attribute>)
    ensures
        r.deep_view() == v.deep_view(),
{
    let mut out: Vec<Attribute> = Vec::new();
    let mut i: usize = 0;
    proof {
        
        assert(out.deep_view() =~= v.deep_view().take(0));
    }
    while i < v.len()
        invariant
            i <= v@.len(),
            v@.len() == v.deep_view().len(),
            forall|j: int| 0 <= j < v@.len() ==> #[trigger] v.deep_view()[j] == v@[j]@,
            out.deep_view() =~= v.deep_view().take(i as int),
        decreases v@.len() - i,
    {
        let ghost odv = out.deep_view();
        let e = v[i].dup();
        out.push(e);
        proof {
            
            assert(out.deep_view() =~= odv.push(v.deep_view()[i as int]));
            assert(out.deep_view() =~= v.deep_view().take(i + 1));
        }
        i += 1;
    }
    proof {
        assert(v.deep_view().take(v.deep_view().len() as int) =~= v.deep_view());
    }
    out
}

/// An owned copy of an event list.
pub fn clone_events(v: &Vec<Event>) -> (r: Vec<Event>)
    ensures
        r.deep_view() == v.deep_view(),
{
    let mut out: Vec<Event> = Vec::new();
    let mut i: usize = 0;
    proof {
        
        assert(out.deep_view() =~= v.deep_view().take(0));
    }
    while i < v.len()
        invariant
            i <= v@.len(),
            v@.len() == v.deep_view().len(),
            forall|j: int| 0 <= j < v@.len() ==> #[trigger] v.deep_view()[j] == v@[j]@,
            out.deep_view() =~= v.deep_view().take(i as int),
        decreases v@.len() - i,
    {
        let ghost odv = out.deep_view();
        let e = v[i].dup();
        out.push(e);
        proof {
            
            assert(out.deep_view() =~= odv.push(v.deep_view()[i as int]));
            assert(out.deep_view() =~= v.deep_view().take(i + 1));
        }
        i += 1;
    }
    proof {
        assert(v.deep_view().take(v.deep_view().len() as int) =~= v.deep_view());
    }
    out
}

/// An owned copy of the contract registry rows.
pub fn clone_contract_rows(v: &Vec<(Vec<u8>, ContractData)>) -> (r: Vec<(Vec<u8>, ContractData)>)
    ensures
        r.deep_view() == v.deep_view(),
{
    let mut out: Vec<(Vec<u8>, ContractData)> = Vec::new();
    let mut i: usize = 0;
    proof {
        lemma_dv_contract_rows(v);
        assert(out.deep_view() =~= v.deep_view().take(0));
    }
    while i < v.len()
        invariant
            i <= v@.len(),
            v@.len() == v.deep_view().len(),
            forall|j: int| 0 <= j < v@.len() ==> #[trigger] v.deep_view()[j] == (v@[j].0@, v@[j].1@),
            out.deep_view() =~= v.deep_view().take(i as int),
        decreases v@.len() - i,
    {
        let ghost odv = out.deep_view();
        let e = (crate::local_storage::clone_bytes(&v[i].0), v[i].1.dup());
        out.push(e);
        proof {
            lemma_dv_contract_rows(&out);
            assert(out.deep_view() =~= odv.push(v.deep_view()[i as int]));
            assert(out.deep_view() =~= v.deep_view().take(i + 1));
        }
        i += 1;
    }
    proof {
        assert(v.deep_view().take(v.deep_view().len() as int) =~= v.deep_view());
    }
    out
}

/// An owned copy of the code table rows.
pub fn clone_code_rows(v: &Vec<(u64, WasmContract)>) -> (r: Vec<(u64, WasmContract)>)
    ensures
        r.deep_view() == v.deep_view(),
{
    let mut out: Vec<(u64, WasmContract)> = Vec::new();
    let mut i: usize = 0;
    proof {
        lemma_dv_code_rows(v);
        assert(out.deep_view() =~= v.deep_view().take(0));
    }
    while i < v.len()
        invariant
            i <= v@.len(),
            v@.len() == v.deep_view().len(),
            forall|j: int| 0 <= j < v@.len() ==> #[trigger] v.deep_view()[j] == (v@[j].0, v@[j].1@),
            out.deep_view() =~= v.deep_view().take(i as int),
        decreases v@.len() - i,
    {
        let ghost odv = out.deep_view();
        let e = (v[i].0, v[i].1.dup());
        out.push(e);
        proof {
            lemma_dv_code_rows(&out);
            assert(out.deep_view() =~= odv.push(v.deep_view()[i as int]));
            assert(out.deep_view() =~= v.deep_view().take(i + 1));
        }
        i += 1;
    }
    proof {
        assert(v.deep_view().take(v.deep_view().len() as int) =~= v.deep_view());
    }
    out
}

/// An owned copy of the bank ledger rows.
pub fn clone_bank_rows(v: &Vec<(Vec<u8>, Vec<Coin>)>) -> (r: Vec<(Vec<u8>, Vec<Coin>)>)
    ensures
        r.deep_view() == v.deep_view(),
{
    let mut out: Vec<(Vec<u8>, Vec<Coin>)> = Vec::new();
    let mut i: usize = 0;
    proof {
        lemma_dv_bank_rows(v);
        assert(out.deep_view() =~= v.deep_view().take(0));
    }
    while i < v.len()
        invariant
            i <= v@.len(),
            v@.len() == v.deep_view().len(),
            forall|j: int| 0 <= j < v@.len() ==> #[trigger] v.deep_view()[j] == (v@[j].0@, v@[j].1.deep_view()),
            out.deep_view() =~= v.deep_view().take(i as int),
        decreases v@.len() - i,
    {
        let ghost odv = out.deep_view();
        let e = (crate::local_storage::clone_bytes(&v[i].0), clone_coins(&v[i].1));
        out.push(e);
        proof {
            lemma_dv_bank_rows(&out);
            assert(out.deep_view() =~= odv.push(v.deep_view()[i as int]));
            assert(out.deep_view() =~= v.deep_view().take(i + 1));
        }
        i += 1;
    }
    proof {
        assert(v.deep_view().take(v.deep_view().len() as int) =~= v.deep_view());
    }
    out
}

impl Event {
    /// An owned copy.
    pub fn dup(&self) -> (r: Event)
        ensures
            r@ == self@,
    {
        let r = Event {
            ty: crate::local_storage::clone_bytes(&self.ty),
            attributes: clone_attrs(&self.attributes),
        };
        proof {
            assert(r@ =~= self@);
        }
        r
    }
}

impl Delegation {
    /// An owned copy.
    pub fn dup(&self) -> (r: Delegation)
        ensures
            r@ == self@,
    {
        let r = Delegation {
            delegator: crate::local_storage::clone_bytes(&self.delegator),
            validator: crate::local_storage::clone_bytes(&self.validator),
            amount: self.amount.dup(),
            can_redelegate: self.can_redelegate.dup(),
            accumulated_rewards: clone_coins(&self.accumulated_rewards),
        };
        proof {
            assert(r@ =~= self@);
        }
        r
    }
}

impl WasmStorage {
    /// An owned copy.
    pub fn dup(&self) -> (r: WasmStorage)
        ensures
            r@ == self@,
    {
        let r = WasmStorage {
            contracts: clone_contract_rows(&self.contracts),
            codes: clone_code_rows(&self.codes),
            storage: crate::model::clone_entries(&self.storage),
        };
        proof {
            assert(r@ =~= self@);
        }
        r
    }
}

/// An owned copy of raw storage entries.
pub fn clone_entries(v: &Vec<(Vec<u8>, Vec<u8>)>) -> (r: Vec<(Vec<u8>, Vec<u8>)>)
    ensures
        r.deep_view() == v.deep_view(),
{
    let mut out: Vec<(Vec<u8>, Vec<u8>)> = Vec::new();
    let mut i: usize = 0;
    proof {
        crate::local_storage::lemma_deep_view_entries(v);
        assert(out.deep_view() =~= v.deep_view().take(0));
    }
    while i < v.len()
        invariant
            i <= v@.len(),
            v@.len() == v.deep_view().len(),
            forall|j: int|
                0 <= j < v@.len() ==> #[trigger] v.deep_view()[j] == (v@[j].0@, v@[j].1@),
            out.deep_view() =~= v.deep_view().take(i as int),
        decreases v@.len() - i,
    {
        let ghost odv = out.deep_view();
        let e = crate::local_storage::clone_entry(&v[i]);
        out.push(e);
        proof {
            crate::local_storage::lemma_deep_view_entries(&out);
            assert(out.deep_view() =~= odv.push(v.deep_view()[i as int]));
            assert(out.deep_view() =~= v.deep_view().take(i + 1));
        }
        i += 1;
    }
    proof {
        assert(v.deep_view().take(v.deep_view().len() as int) =~= v.deep_view());
    }
    out
}

impl BankStorage {
    /// An owned copy.
    pub fn dup(&self) -> (r: BankStorage)
        ensures
            r@ == self@,
    {
        let r = BankStorage { storage: clone_bank_rows(&self.storage) };
        proof {
            assert(r@ =~= self@);
        }
        r
    }
}

impl QuerierStorage {
    /// An owned copy.
    pub fn dup(&self) -> (r: QuerierStorage)
        ensures
            r@ == self@,
    {
        let r = QuerierStorage { wasm: self.wasm.dup(), bank: self.bank.dup() };
        proof {
            assert(r@ =~= self@);
        }
        r
    }
}

} // verus!
