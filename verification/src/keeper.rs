//! The wasm keeper: the local code table and contract registry in canonical
//! storage, validation of contract responses, the event envelope around each
//! call, the sub-message reply policy, and the commit/discard rule: a failing
//! call's storage delta is discarded whole, never partially applied.

use vstd::prelude::*;

use crate::codec::enc_contract_data;
use crate::codec::enc_len;
use crate::local_storage::clone_bytes;
use crate::local_storage::erase;
use crate::local_storage::lookup;
use crate::local_storage::store;
use crate::local_storage::AbsEntry;
use crate::local_storage::LocalStorage;
use crate::model::clone_attrs;
use crate::model::AbsAttribute;
use crate::model::AbsContractData;
use crate::model::AbsEvent;
use crate::model::Attribute;
use crate::model::ChainDescriptor;
use crate::model::ContractData;
use crate::model::ContractResponse;
use crate::model::Event;
use crate::model::Reply;
use crate::model::ReplyOn;
use crate::model::StorageChanges;
use crate::model::SubMsg;
use crate::model::SubMsgResponse;
use crate::model::SubMsgResult;
use crate::model::WasmContract;
use crate::model::WasmMsg;
use crate::querier::assoc_u64;
use crate::text::spec_decimal;

verus! {

/// The offset local code ids start at, so they never collide with ids the
/// remote chain handed out.
pub const LOCAL_CODE_OFFSET: u64 = 5000000;

/// Failure of a keeper operation.
#[derive(Debug, PartialEq, Eq, Structural, Clone, Copy)]
pub enum KeeperError {
    /// An attribute key is empty after trimming.
    EmptyAttributeKey,
    /// An attribute value is empty after trimming.
    EmptyAttributeValue,
    /// Attribute keys starting with an underscore are reserved.
    ReservedAttributeKey,
    /// An event type shorter than two characters after trimming.
    EventTypeTooShort,
    /// A label is required on all contracts.
    LabelRequired,
    /// Only the admin can perform this operation.
    Unauthorized,
    /// A stored contract record does not decode.
    CorruptRecord,
    /// This message kind is not supported.
    UnsupportedMsg,
}

/// Whether a byte is blank for attribute trimming.
pub open spec fn is_blank(b: u8) -> bool {
    b == 32 || b == 9 || b == 10 || b == 13
}

/// `s` without leading blanks.
pub open spec fn trim_front(s: Seq<u8>) -> Seq<u8>
    decreases s.len(),
{
    if s.len() > 0 && is_blank(s[0]) {
        trim_front(s.drop_first())
    } else {
        s
    }
}

/// `s` without trailing blanks.
pub open spec fn trim_back(s: Seq<u8>) -> Seq<u8>
    decreases s.len(),
{
    if s.len() > 0 && is_blank(s.last()) {
        trim_back(s.drop_last())
    } else {
        s
    }
}

/// `s` without leading and trailing blanks.
pub open spec fn spec_trim(s: Seq<u8>) -> Seq<u8> {
    trim_back(trim_front(s))
}

/// The byte string without leading and trailing blanks.
pub fn trim_bytes(s: &Vec<u8>) -> (r: Vec<u8>)
    ensures
        r@ == spec_trim(s@),
{
    let mut lo: usize = 0;
    proof {
        assert(s@.skip(0) =~= s@);
    }
    while lo < s.len() && is_blank_byte(s[lo])
        invariant
            lo <= s@.len(),
            trim_front(s@) == trim_front(s@.skip(lo as int)),
        decreases s@.len() - lo,
    {
        proof {
            assert(s@.skip(lo as int)[0] == s@[lo as int]);
            assert(s@.skip(lo as int).drop_first() =~= s@.skip(lo + 1));
        }
        lo += 1;
    }
    proof {
        if lo < s@.len() {
            assert(s@.skip(lo as int)[0] == s@[lo as int]);
        }
        assert(trim_front(s@) == s@.skip(lo as int));
    }
    let mut hi: usize = s.len();
    while hi > lo && is_blank_byte(s[hi - 1])
        invariant
            lo <= hi <= s@.len(),
            trim_front(s@) == s@.skip(lo as int),
            trim_back(s@.skip(lo as int)) == trim_back(s@.subrange(lo as int, hi as int)),
        decreases hi,
    {
        proof {
            let t = s@.subrange(lo as int, hi as int);
            assert(t.last() == s@[hi - 1]);
            assert(t.drop_last() =~= s@.subrange(lo as int, hi - 1));
        }
        hi -= 1;
    }
    proof {
        let t = s@.subrange(lo as int, hi as int);
        if hi > lo {
            assert(t.last() == s@[hi - 1]);
        }
        assert(trim_back(t) == t);
    }
    let mut out: Vec<u8> = Vec::new();
    let mut i: usize = lo;
    proof {
        assert(out@ =~= s@.subrange(lo as int, lo as int));
    }
    while i < hi
        invariant
            lo <= i <= hi <= s@.len(),
            out@ =~= s@.subrange(lo as int, i as int),
        decreases hi - i,
    {
        out.push(s[i]);
        proof {
            assert(out@ =~= s@.subrange(lo as int, i + 1));
        }
        i += 1;
    }
    proof {
        assert(out@ =~= s@.subrange(lo as int, hi as int));
    }
    out
}

/// Whether a byte is blank for attribute trimming.
fn is_blank_byte(b: u8) -> (r: bool)
    ensures
        r == is_blank(b),
{
    b == 32 || b == 9 || b == 10 || b == 13
}

/// A well-formed attribute: key and value non-blank, and the key not
/// reserved (no leading underscore).
pub open spec fn attr_ok(a: AbsAttribute) -> bool {
    &&& spec_trim(a.key).len() > 0
    &&& spec_trim(a.value).len() > 0
    &&& spec_trim(a.key)[0] != 95
}

/// Validates attributes: every key and value must be non-blank and no key
/// may start with the reserved underscore.
pub fn verify_attributes(attributes: &Vec<Attribute>) -> (r: Result<(), KeeperError>)
    ensures
        (r is Ok) == (forall|i: int|
            0 <= i < attributes.deep_view().len() ==> attr_ok(#[trigger] attributes.deep_view()[i])),
{
    let ghost dv = attributes.deep_view();
    let mut i: usize = 0;
    while i < attributes.len()
        invariant
            i <= attributes@.len(),
            dv == attributes.deep_view(),
            attributes@.len() == dv.len(),
            forall|j: int| 0 <= j < i ==> attr_ok(#[trigger] dv[j]),
        decreases attributes@.len() - i,
    {
        proof {
            assert(dv[i as int] == attributes@[i as int]@);
        }
        let key = trim_bytes(&attributes[i].key);
        let value = trim_bytes(&attributes[i].value);
        if key.len() == 0 {
            return Err(KeeperError::EmptyAttributeKey);
        }
        if value.len() == 0 {
            return Err(KeeperError::EmptyAttributeValue);
        }
        if key[0] == 95 {
            return Err(KeeperError::ReservedAttributeKey);
        }
        i += 1;
    }
    Ok(())
}

/// A well-formed event: valid attributes and a type of at least two bytes
/// after trimming.
pub open spec fn event_ok(e: AbsEvent) -> bool {
    &&& spec_trim(e.ty).len() >= 2
    &&& forall|i: int| 0 <= i < e.attributes.len() ==> attr_ok(#[trigger] e.attributes[i])
}

/// Validates a contract response: its attributes and every event must be
/// well-formed.
pub fn verify_response(response: &ContractResponse) -> (r: Result<(), KeeperError>)
    ensures
        (r is Ok) == ((forall|i: int|
            0 <= i < response@.attributes.len() ==> attr_ok(#[trigger] response@.attributes[i]))
            && (forall|i: int|
            0 <= i < response@.events.len() ==> event_ok(#[trigger] response@.events[i]))),
{
    proof {
        assert(response@.attributes == response.attributes.deep_view());
        assert(response@.events == response.events.deep_view());
    }
    match verify_attributes(&response.attributes) {
        Ok(_) => {},
        Err(e) => {
            return Err(e);
        },
    }
    let ghost ev = response.events.deep_view();
    let mut i: usize = 0;
    while i < response.events.len()
        invariant
            i <= response.events@.len(),
            ev == response.events.deep_view(),
            response.events@.len() == ev.len(),
            forall|j: int| 0 <= j < i ==> event_ok(#[trigger] ev[j]),
            forall|j: int|
                0 <= j < response@.attributes.len() ==> attr_ok(#[trigger] response@.attributes[j]),
            response@.events == ev,
        decreases response.events@.len() - i,
    {
        proof {
            assert(ev[i as int] == response.events@[i as int]@);
        }
        match verify_attributes(&response.events[i].attributes) {
            Ok(_) => {},
            Err(e) => {
                proof {
                    assert(ev[i as int].attributes == response.events@[i as int].attributes.deep_view());
                    assert(!event_ok(ev[i as int]));
                }
                return Err(e);
            },
        }
        let ty = trim_bytes(&response.events[i].ty);
        if ty.len() < 2 {
            return Err(KeeperError::EventTypeTooShort);
        }
        i += 1;
    }
    Ok(())
}

/// What the keeper reports for one finished call: the events recorded, and
/// the data payload, if any.
#[derive(Debug, Clone, PartialEq, Eq)]
pub struct AppResponse {
    pub events: Vec<Event>,
    pub data: Option<Vec<u8>>,
}

/// The reserved attribute naming the called contract.
pub open spec fn spec_contract_attr(contract: Seq<u8>) -> AbsAttribute {
    AbsAttribute {
        key: seq![95u8, 99u8, 111u8, 110u8, 116u8, 114u8, 97u8, 99u8, 116u8, 95u8, 97u8, 100u8, 100u8, 114u8],
        value: contract,
    }
}

/// The reserved attribute naming the called contract.
pub fn contract_attr(contract: &Vec<u8>) -> (r: Attribute)
    ensures
        r@ == spec_contract_attr(contract@),
{
    let mut key: Vec<u8> = Vec::new();
    key.push(95);
    key.push(99);
    key.push(111);
    key.push(110);
    key.push(116);
    key.push(114);
    key.push(97);
    key.push(99);
    key.push(116);
    key.push(95);
    key.push(97);
    key.push(100);
    key.push(100);
    key.push(114);
    let r = Attribute { key, value: clone_bytes(contract) };
    proof {
        assert(r@.key =~= spec_contract_attr(contract@).key);
    }
    r
}

/// A contract event as the keeper records it: the type gets the module
/// prefix, and the reserved contract attribute is put first.
pub open spec fn spec_wasm_event(contract: Seq<u8>, e: AbsEvent) -> AbsEvent {
    AbsEvent {
        ty: seq![119u8, 97u8, 115u8, 109u8, 45u8] + e.ty,
        attributes: seq![spec_contract_attr(contract)] + e.attributes,
    }
}

/// The events the keeper records for one call: the entry-point event first;
/// then, only when the response carries attributes, the module event holding
/// them behind the reserved contract attribute; then each contract event,
/// prefixed and attributed.
pub open spec fn spec_app_events(
    contract: Seq<u8>,
    custom_event: AbsEvent,
    response: crate::model::AbsContractResponse,
) -> Seq<AbsEvent> {
    let head = if response.attributes.len() > 0 {
        seq![custom_event, AbsEvent {
            ty: seq![119u8, 97u8, 115u8, 109u8],
            attributes: seq![spec_contract_attr(contract)] + response.attributes,
        }]
    } else {
        seq![custom_event]
    };
    head + Seq::new(response.events.len(), |i: int| spec_wasm_event(contract, response.events[i]))
}

/// Captures a finished call's events and data: the entry-point event, the
/// module event around the response's attributes, and the contract's own
/// events under the module prefix; the response's sub-messages are handed
/// back for routing.
pub fn build_app_response(
    contract: &Vec<u8>,
    custom_event: Event,
    response: ContractResponse,
) -> (r: (AppResponse, Vec<SubMsg>))
    ensures
        r.0.events.deep_view() == spec_app_events(contract@, custom_event@, response@),
        crate::codec::opt_bytes_view(&r.0.data) == (match response.data {
            Some(d) => Some(d@),
            None => None,
        }),
        r.1.deep_view() == response@.messages,
{
    let ContractResponse { messages, attributes, events, data } = response;
    let ghost respv = crate::model::AbsContractResponse {
        messages: messages.deep_view(),
        attributes: attributes.deep_view(),
        events: events.deep_view(),
        data: crate::codec::opt_bytes_view(&data),
    };
    let mut app_events: Vec<Event> = Vec::new();
    app_events.push(custom_event);
    if attributes.len() > 0 {
        let mut wasm_ty: Vec<u8> = Vec::new();
        wasm_ty.push(119);
        wasm_ty.push(97);
        wasm_ty.push(115);
        wasm_ty.push(109);
        let mut attrs: Vec<Attribute> = Vec::new();
        attrs.push(contract_attr(contract));
        let mut i: usize = 0;
        proof {
            assert(attrs.deep_view() =~= seq![spec_contract_attr(contract@)]
                + attributes.deep_view().take(0));
        }
        while i < attributes.len()
            invariant
                i <= attributes@.len(),
                attributes@.len() == attributes.deep_view().len(),
                attrs.deep_view() =~= seq![spec_contract_attr(contract@)]
                    + attributes.deep_view().take(i as int),
            decreases attributes@.len() - i,
        {
            let ghost odv = attrs.deep_view();
            let a = attributes[i].dup();
            proof {
                assert(attributes.deep_view()[i as int] == attributes@[i as int]@);
            }
            attrs.push(a);
            proof {
                assert(attrs.deep_view() =~= odv.push(attributes.deep_view()[i as int]));
                assert(attrs.deep_view() =~= seq![spec_contract_attr(contract@)]
                    + attributes.deep_view().take(i + 1));
            }
            i += 1;
        }
        proof {
            assert(attributes.deep_view().take(attributes.deep_view().len() as int)
                =~= attributes.deep_view());
        }
        proof {
            assert(wasm_ty@ =~= seq![119u8, 97u8, 115u8, 109u8]);
        }
        let wasm_event = Event { ty: wasm_ty, attributes: attrs };
        let ghost aev = app_events.deep_view();
        app_events.push(wasm_event);
        proof {
            assert(app_events.deep_view() =~= aev.push(AbsEvent {
                ty: seq![119u8, 97u8, 115u8, 109u8],
                attributes: seq![spec_contract_attr(contract@)] + attributes.deep_view(),
            }));
        }
    }
    let ghost head = app_events.deep_view();
    proof {
        if attributes.deep_view().len() > 0 {
            assert(head =~= seq![custom_event@, AbsEvent {
                ty: seq![119u8, 97u8, 115u8, 109u8],
                attributes: seq![spec_contract_attr(contract@)] + attributes.deep_view(),
            }]);
        } else {
            assert(head =~= seq![custom_event@]);
        }
    }
    let mut i: usize = 0;
    proof {
        assert(app_events.deep_view() =~= head + Seq::new(0, |j: int| spec_wasm_event(
            contract@,
            events.deep_view()[j],
        )));
    }
    while i < events.len()
        invariant
            i <= events@.len(),
            events@.len() == events.deep_view().len(),
            app_events.deep_view() =~= head + Seq::new(i as nat, |j: int| spec_wasm_event(
                contract@,
                events.deep_view()[j],
            )),
        decreases events@.len() - i,
    {
        proof {
            assert(events.deep_view()[i as int] == events@[i as int]@);
        }
        let mut ty: Vec<u8> = Vec::new();
        ty.push(119);
        ty.push(97);
        ty.push(115);
        ty.push(109);
        ty.push(45);
        let ghost typref = ty@;
        let mut k: usize = 0;
        while k < events[i].ty.len()
            invariant
                i < events@.len(),
                k <= events@[i as int].ty@.len(),
                ty@ =~= typref + events@[i as int].ty@.take(k as int),
                typref == seq![119u8, 97u8, 115u8, 109u8, 45u8],
            decreases events@[i as int].ty@.len() - k,
        {
            ty.push(events[i].ty[k]);
            proof {
                assert(ty@ =~= typref + events@[i as int].ty@.take(k + 1));
            }
            k += 1;
        }
        proof {
            assert(events@[i as int].ty@.take(events@[i as int].ty@.len() as int)
                =~= events@[i as int].ty@);
        }
        let mut attrs: Vec<Attribute> = Vec::new();
        attrs.push(contract_attr(contract));
        let src_attrs = clone_attrs(&events[i].attributes);
        let mut k2: usize = 0;
        proof {
            assert(attrs.deep_view() =~= seq![spec_contract_attr(contract@)]
                + src_attrs.deep_view().take(0));
        }
        while k2 < src_attrs.len()
            invariant
                k2 <= src_attrs@.len(),
                src_attrs@.len() == src_attrs.deep_view().len(),
                attrs.deep_view() =~= seq![spec_contract_attr(contract@)]
                    + src_attrs.deep_view().take(k2 as int),
            decreases src_attrs@.len() - k2,
        {
            let ghost odv = attrs.deep_view();
            let a = src_attrs[k2].dup();
            proof {
                assert(src_attrs.deep_view()[k2 as int] == src_attrs@[k2 as int]@);
            }
            attrs.push(a);
            proof {
                assert(attrs.deep_view() =~= odv.push(src_attrs.deep_view()[k2 as int]));
                assert(attrs.deep_view() =~= seq![spec_contract_attr(contract@)]
                    + src_attrs.deep_view().take(k2 + 1));
            }
            k2 += 1;
        }
        proof {
            assert(src_attrs.deep_view().take(src_attrs.deep_view().len() as int)
                =~= src_attrs.deep_view());
        }
        let ghost before = app_events.deep_view();
        let e = Event { ty, attributes: attrs };
        app_events.push(e);
        proof {
            assert(e@ =~= spec_wasm_event(contract@, events.deep_view()[i as int]));
            assert(app_events.deep_view() =~= before.push(
                spec_wasm_event(contract@, events.deep_view()[i as int]),
            ));
            assert(app_events.deep_view() =~= head + Seq::new((i + 1) as nat, |j: int|
                spec_wasm_event(contract@, events.deep_view()[j])));
        }
        i += 1;
    }
    let app = AppResponse { events: app_events, data };
    proof {
        assert(app.events.deep_view() =~= spec_app_events(contract@, custom_event@, respv));
    }
    (app, messages)
}

/// Whether the keeper calls `reply` after a sub-message with this policy and
/// outcome.
pub fn reply_expected(reply_on: ReplyOn, success: bool) -> (r: bool)
    ensures
        r == (reply_on is Always || (success && reply_on is Success) || (!success && reply_on
            is Error)),
{
    match reply_on {
        ReplyOn::Always => true,
        ReplyOn::Success => success,
        ReplyOn::Error => !success,
        ReplyOn::Never => false,
    }
}

/// The reply payload for a finished sub-message: its id, and either the
/// events and data of the success or the error text of the failure.
pub fn build_reply(id: u64, outcome: Result<SubMsgResponse, Vec<u8>>) -> (r: Reply)
    ensures
        r.id == id,
        match outcome {
            Ok(resp) => r.result matches SubMsgResult::Success(x) && x@ == resp@,
            Err(e) => r.result matches SubMsgResult::Failure(x) && x@ == e@,
        },
{
    match outcome {
        Ok(resp) => Reply { id, result: SubMsgResult::Success(resp) },
        Err(e) => Reply { id, result: SubMsgResult::Failure(e) },
    }
}

/// A new contract record with the admin replaced, allowed to the current
/// admin alone.
pub fn update_admin_record(
    data: &ContractData,
    sender: &Vec<u8>,
    new_admin: Option<Vec<u8>>,
) -> (r: Result<ContractData, KeeperError>)
    ensures
        (r is Ok) == (data@.admin == Some(sender@)),
        r matches Ok(d) ==> d@ == (AbsContractData {
            admin: crate::codec::opt_bytes_view(&new_admin),
            ..data@
        }),
        r is Err ==> (r matches Err(e) && e == KeeperError::Unauthorized),
{
    let authorized = match &data.admin {
        Some(a) => crate::keys::key_eq(a.as_slice(), sender.as_slice()),
        None => false,
    };
    if !authorized {
        return Err(KeeperError::Unauthorized);
    }
    let d = ContractData {
        code_id: data.code_id,
        creator: clone_bytes(&data.creator),
        admin: new_admin,
        label: clone_bytes(&data.label),
        created: data.created,
    };
    proof {
        assert(d@ =~= (AbsContractData {
            admin: crate::codec::opt_bytes_view(&d.admin),
            ..data@
        }));
    }
    Ok(d)
}

/// A new contract record with the code id replaced, allowed to the current
/// admin alone.
pub fn migrate_record(data: &ContractData, sender: &Vec<u8>, new_code_id: u64) -> (r: Result<
    ContractData,
    KeeperError,
>)
    ensures
        (r is Ok) == (data@.admin == Some(sender@)),
        r matches Ok(d) ==> d@ == (AbsContractData { code_id: new_code_id, ..data@ }),
        r is Err ==> (r matches Err(e) && e == KeeperError::Unauthorized),
{
    let authorized = match &data.admin {
        Some(a) => crate::keys::key_eq(a.as_slice(), sender.as_slice()),
        None => false,
    };
    if !authorized {
        return Err(KeeperError::Unauthorized);
    }
    let d = ContractData {
        code_id: new_code_id,
        creator: clone_bytes(&data.creator),
        admin: crate::model::clone_opt_bytes(&data.admin),
        label: clone_bytes(&data.label),
        created: data.created,
    };
    proof {
        assert(d@ =~= (AbsContractData { code_id: new_code_id, ..data@ }));
    }
    Ok(d)
}

/// Validates an instantiation's label: it is required on all contracts.
pub fn check_label(label: &Vec<u8>) -> (r: Result<(), KeeperError>)
    ensures
        (r is Ok) == (label@.len() > 0),
        r is Err ==> (r matches Err(e) && e == KeeperError::LabelRequired),
{
    if label.len() == 0 {
        Err(KeeperError::LabelRequired)
    } else {
        Ok(())
    }
}

/// The registry key of a contract: the registry namespace, then the address.
pub open spec fn spec_registry_key(addr: Seq<u8>) -> Seq<u8> {
    crate::querier::length_prefixed(seq![119u8, 97u8, 115u8, 109u8]) + crate::querier::length_prefixed(
        seq![99u8, 111u8, 110u8, 116u8, 114u8, 97u8, 99u8, 116u8, 115u8],
    ) + addr
}

/// The registry key of a contract.
pub fn registry_key(addr: &Vec<u8>) -> (r: Vec<u8>)
    ensures
        r@ == spec_registry_key(addr@),
{
    let mut out: Vec<u8> = Vec::new();
    out.push(0);
    out.push(4);
    out.push(119);
    out.push(97);
    out.push(115);
    out.push(109);
    out.push(0);
    out.push(9);
    out.push(99);
    out.push(111);
    out.push(110);
    out.push(116);
    out.push(114);
    out.push(97);
    out.push(99);
    out.push(116);
    out.push(115);
    let ghost head = out@;
    proof {
        assert(head =~= spec_registry_key(Seq::<u8>::empty()));
        assert(crate::querier::length_prefixed(seq![119u8, 97u8, 115u8, 109u8])
            =~= seq![0u8, 4u8, 119u8, 97u8, 115u8, 109u8]);
        assert(crate::querier::length_prefixed(
            seq![99u8, 111u8, 110u8, 116u8, 114u8, 97u8, 99u8, 116u8, 115u8],
        ) =~= seq![0u8, 9u8, 99u8, 111u8, 110u8, 116u8, 114u8, 97u8, 99u8, 116u8, 115u8]);
    }
    let mut i: usize = 0;
    while i < addr.len()
        invariant
            i <= addr@.len(),
            out@ =~= head + addr@.take(i as int),
        decreases addr@.len() - i,
    {
        out.push(addr[i]);
        proof {
            assert(out@ =~= head + addr@.take(i + 1));
        }
        i += 1;
    }
    proof {
        assert(addr@.take(addr@.len() as int) =~= addr@);
        assert(out@ =~= spec_registry_key(addr@));
    }
    out
}

/// What loading a contract record finds: a decoded record, a miss owing a
/// remote fetch, or stored bytes that do not decode.
#[derive(Debug, Clone, PartialEq, Eq)]
pub enum ContractLookup {
    /// The locally registered record.
    Found(ContractData),
    /// Not registered locally: fetch the record from the remote chain.
    NeedRemote { contract_addr: Vec<u8> },
}

/// The deterministic local contract address for registration number `count`.
pub open spec fn spec_local_contract_addr(count: nat) -> Seq<u8> {
    seq![99u8, 111u8, 110u8, 116u8, 114u8, 97u8, 99u8, 116u8] + spec_decimal(count)
}

/// The deterministic local contract address for registration number `count`.
pub fn local_contract_addr(count: u64) -> (r: Vec<u8>)
    ensures
        r@ == spec_local_contract_addr(count as nat),
{
    let mut out: Vec<u8> = Vec::new();
    out.push(99);
    out.push(111);
    out.push(110);
    out.push(116);
    out.push(114);
    out.push(97);
    out.push(99);
    out.push(116);
    let ghost head = out@;
    let digits = crate::text::decimal_bytes(count as u128);
    let mut i: usize = 0;
    while i < digits.len()
        invariant
            i <= digits@.len(),
            out@ =~= head + digits@.take(i as int),
        decreases digits@.len() - i,
    {
        out.push(digits[i]);
        proof {
            assert(out@ =~= head + digits@.take(i + 1));
        }
        i += 1;
    }
    proof {
        assert(digits@.take(digits@.len() as int) =~= digits@);
        assert(head =~= seq![99u8, 111u8, 110u8, 116u8, 114u8, 97u8, 99u8, 116u8]);
        assert(out@ =~= spec_local_contract_addr(count as nat));
    }
    out
}

/// The wasm keeper: the in-memory code table and the chain the fork reads
/// from.  Contract records live in the canonical local storage handed to
/// each operation.
pub struct WasmKeeper {
    codes: Vec<(u64, WasmContract)>,
    chain: Option<ChainDescriptor>,
}

impl WasmKeeper {
    /// The code table, in insertion order.
    pub closed spec fn codes_view(&self) -> Seq<(u64, crate::model::AbsWasmContract)> {
        self.codes.deep_view()
    }

    /// Whether a chain was set to fall back to.
    pub closed spec fn has_chain(&self) -> bool {
        self.chain is Some
    }

    /// The chain set, when one is.
    pub closed spec fn chain_view(&self) -> Option<crate::model::AbsChainDescriptor> {
        match self.chain {
            Some(ref c) => Some(c@),
            None => None,
        }
    }

    /// A keeper with an empty code table and no chain.
    pub fn new() -> (r: WasmKeeper)
        ensures
            r.codes_view().len() == 0,
            !r.has_chain(),
    {
        let r = WasmKeeper { codes: Vec::new(), chain: None };
        proof {
            crate::model::lemma_dv_code_rows(&r.codes);
        }
        r
    }

    /// Sets the chain this keeper tests against.
    pub fn set_chain(&mut self, chain: ChainDescriptor)
        ensures
            final(self).has_chain(),
            final(self).chain_view() == Some(chain@),
            final(self).codes_view() == old(self).codes_view(),
    {
        self.chain = Some(chain);
    }

    /// Stores bytecode in the local code table; the new id continues the
    /// local sequence above the offset, so it collides with no remote id.
    pub fn store_code(&mut self, code: WasmContract) -> (r: u64)
        requires
            old(self).codes_view().len() + 1 + LOCAL_CODE_OFFSET <= u64::MAX,
        ensures
            r == old(self).codes_view().len() + 1 + LOCAL_CODE_OFFSET,
            final(self).codes_view() == old(self).codes_view().push((r, code@)),
            final(self).has_chain() == old(self).has_chain(),
            final(self).chain_view() == old(self).chain_view(),
    {
        let idx = (self.codes.len() as u64) + 1 + LOCAL_CODE_OFFSET;
        proof {
            crate::model::lemma_dv_code_rows(&self.codes);
        }
        self.codes.push((idx, code));
        proof {
            crate::model::lemma_dv_code_rows(&self.codes);
            assert(self.codes_view() =~= old(self).codes_view().push(
                (idx, self.codes@.last().1@),
            ));
        }
        idx
    }

    /// The bytecode reference for a stored code id: the table's entry, or
    /// the chain by code id when the table misses.
    pub fn code_for(&self, code_id: u64, chain: &ChainDescriptor) -> (r: WasmContract)
        ensures
            match assoc_u64(self.codes_view(), code_id) {
                Some(c) => r@ == c,
                None => r@ == crate::model::AbsWasmContract::DistantCodeId(code_id, chain@),
            },
    {
        let ghost dv = self.codes_view();
        proof {
            crate::model::lemma_dv_code_rows(&self.codes);
            assert(dv.skip(0) =~= dv);
        }
        let mut i: usize = 0;
        while i < self.codes.len()
            invariant
                i <= self.codes@.len(),
                dv == self.codes_view(),
                self.codes@.len() == dv.len(),
                forall|j: int|
                    0 <= j < dv.len() ==> #[trigger] dv[j] == (
                        self.codes@[j].0,
                        self.codes@[j].1@,
                    ),
                assoc_u64(dv, code_id) == assoc_u64(dv.skip(i as int), code_id),
            decreases self.codes@.len() - i,
        {
            proof {
                assert(dv.skip(i as int)[0] == dv[i as int]);
                assert(dv.skip(i as int).drop_first() =~= dv.skip(i + 1));
            }
            if self.codes[i].0 == code_id {
                return self.codes[i].1.dup();
            }
            i += 1;
        }
        assert(dv.skip(i as int).len() == 0);
        crate::model::WasmContract::DistantCodeId(
            crate::model::DistantCodeId { code_id, chain: chain.dup() },
        )
    }

    /// Saves a contract record in canonical storage, under the registry key,
    /// framed in the library's record encoding.
    pub fn save_contract(
        &self,
        storage: &mut LocalStorage,
        address: &Vec<u8>,
        contract: &ContractData,
    )
        requires
            old(storage).wf(),
        ensures
            final(storage).wf(),
            final(storage)@ == store(
                old(storage)@,
                spec_registry_key(address@),
                enc_contract_data(contract@),
            ),
    {
        let key = registry_key(address);
        let mut value: Vec<u8> = Vec::new();
        crate::codec::enc_contract_data_push(&mut value, contract);
        proof {
            assert(value@ =~= enc_contract_data(contract@));
        }
        storage.set(key.as_slice(), value.as_slice());
    }

    /// Loads a contract record from canonical storage: the decoded local
    /// record, or the owed remote fetch when none is registered.  Stored
    /// bytes that do not decode are a fatal protocol fault.
    pub fn load_contract(&self, storage: &LocalStorage, address: &Vec<u8>) -> (r: Result<
        ContractLookup,
        KeeperError,
    >)
        ensures
            match lookup(storage@, spec_registry_key(address@)) {
                Some(bytes) => match r {
                    Ok(ContractLookup::Found(d)) => crate::codec::sdec_contract_data(bytes)
                        matches Some((v, rest)) && v == d@ && rest.len() == 0,
                    Ok(ContractLookup::NeedRemote { .. }) => false,
                    Err(e) => e == KeeperError::CorruptRecord && !(
                    crate::codec::sdec_contract_data(bytes) matches Some((v, rest)) && rest.len()
                        == 0),
                },
                None => r matches Ok(ContractLookup::NeedRemote { contract_addr }) &&
                    contract_addr@ == address@,
            },
    {
        let key = registry_key(address);
        match storage.get(key.as_slice()) {
            Some(bytes) => {
                proof {
                    assert(bytes@.skip(0) =~= bytes@);
                }
                match crate::codec::dec_contract_data_at(&bytes, 0) {
                    Ok((d, p)) => {
                        if p == bytes.len() {
                            proof {
                                assert(bytes@.skip(p as int).len() == 0);
                            }
                            Ok(ContractLookup::Found(d))
                        } else {
                            proof {
                                assert(bytes@.skip(p as int).len() != 0);
                            }
                            Err(KeeperError::CorruptRecord)
                        }
                    },
                    Err(_) => Err(KeeperError::CorruptRecord),
                }
            },
            None => Ok(ContractLookup::NeedRemote { contract_addr: clone_bytes(address) }),
        }
    }

    /// Registers a new contract: the deterministic local address for this
    /// registration number, with its record saved in canonical storage.
    pub fn register_contract(
        &self,
        storage: &mut LocalStorage,
        count: u64,
        code_id: u64,
        creator: Vec<u8>,
        admin: Option<Vec<u8>>,
        label: Vec<u8>,
        created: u64,
    ) -> (r: (Vec<u8>, ContractData))
        requires
            old(storage).wf(),
        ensures
            final(storage).wf(),
            r.0@ == spec_local_contract_addr(count as nat),
            r.1@ == (AbsContractData {
                code_id,
                creator: creator@,
                admin: crate::codec::opt_bytes_view(&admin),
                label: label@,
                created,
            }),
            final(storage)@ == store(
                old(storage)@,
                spec_registry_key(spec_local_contract_addr(count as nat)),
                enc_contract_data(r.1@),
            ),
    {
        let addr = local_contract_addr(count);
        let info = ContractData { code_id, creator, admin, label, created };
        proof {
            assert(info@ =~= (AbsContractData {
                code_id,
                creator: info.creator@,
                admin: crate::codec::opt_bytes_view(&info.admin),
                label: info.label@,
                created,
            }));
        }
        self.save_contract(storage, &addr, &info);
        (addr, info)
    }

    /// One raw read of a contract's namespaced storage; an absent key reads
    /// as empty bytes.
    pub fn query_raw(&self, address: &Vec<u8>, storage: &LocalStorage, key: &Vec<u8>) -> (r: Vec<
        u8,
    >)
        requires
            address@.len() + 14 <= 0xFFFF,
        ensures
            r@ == (match lookup(
                storage@,
                crate::querier::spec_storage_namespace(address@) + key@,
            ) {
                Some(v) => v,
                None => Seq::<u8>::empty(),
            }),
    {
        let mut total_key = crate::querier::contract_storage_namespace(address);
        let ghost nsv = total_key@;
        let mut i: usize = 0;
        while i < key.len()
            invariant
                i <= key@.len(),
                total_key@ =~= nsv + key@.take(i as int),
            decreases key@.len() - i,
        {
            total_key.push(key[i]);
            proof {
                assert(total_key@ =~= nsv + key@.take(i + 1));
            }
            i += 1;
        }
        proof {
            assert(key@.take(key@.len() as int) =~= key@);
            assert(total_key@ =~= crate::querier::spec_storage_namespace(address@) + key@);
        }
        match storage.get(total_key.as_slice()) {
            Some(v) => v,
            None => Vec::new(),
        }
    }
}


/// Whether a canonical-storage key lies in the contract registry.
pub open spec fn is_registry_entry(k: Seq<u8>) -> bool {
    k.len() >= spec_registry_key(Seq::empty()).len() && k.take(
        spec_registry_key(Seq::empty()).len() as int,
    ) == spec_registry_key(Seq::empty())
}

/// The address a registry key names.
pub open spec fn registry_addr_of(k: Seq<u8>) -> Seq<u8> {
    k.skip(spec_registry_key(Seq::empty()).len() as int)
}

/// The registry rows held among canonical-storage entries, decoded in
/// order; `None` when some stored record does not decode exactly.
pub open spec fn spec_registry_rows(s: Seq<AbsEntry>) -> Option<
    Seq<(Seq<u8>, AbsContractData)>,
>
    decreases s.len(),
{
    if s.len() == 0 {
        Some(Seq::empty())
    } else {
        let rest = spec_registry_rows(s.drop_first());
        if is_registry_entry(s[0].0) {
            match crate::codec::sdec_contract_data(s[0].1) {
                Some((d, tail)) => if tail.len() == 0 {
                    match rest {
                        Some(t) => Some(seq![(registry_addr_of(s[0].0), d)] + t),
                        None => None,
                    }
                } else {
                    None
                },
                None => None,
            }
        } else {
            rest
        }
    }
}

impl WasmKeeper {
    /// The call-scoped wasm snapshot a querier answers from: every
    /// canonical-storage entry, the registry rows decoded out of them, and
    /// the in-memory code table.  A stored record that does not decode is a
    /// fatal protocol fault.
    pub fn snapshot(&self, storage: &LocalStorage) -> (r: Result<
        crate::model::WasmStorage,
        KeeperError,
    >)
        ensures
            match spec_registry_rows(crate::local_storage::rng(storage@, None, None)) {
                Some(rows) => r matches Ok(ws) && ws@.contracts == rows && ws@.codes
                    == self.codes_view() && ws@.storage == crate::local_storage::rng(
                    storage@,
                    None,
                    None,
                ),
                None => r == Err::<crate::model::WasmStorage, KeeperError>(
                    KeeperError::CorruptRecord,
                ),
            },
    {
        let all = storage.all_entries();
        let ghost dv = all.deep_view();
        let empty_addr: Vec<u8> = Vec::new();
        let ns = registry_key(&empty_addr);
        proof {
            assert(empty_addr@ =~= Seq::<u8>::empty());
            crate::local_storage::lemma_deep_view_entries(&all);
            assert(dv.skip(0) =~= dv);
        }
        let mut contracts: Vec<(Vec<u8>, ContractData)> = Vec::new();
        let mut i: usize = 0;
        proof {
            crate::model::lemma_dv_contract_rows(&contracts);
            assert(contracts.deep_view() =~= Seq::<(Seq<u8>, AbsContractData)>::empty());
            assert forall|t: Seq<(Seq<u8>, AbsContractData)>| true implies contracts.deep_view()
                + t =~= t by {}
        }
        while i < all.len()
            invariant
                i <= all@.len(),
                dv == all.deep_view(),
                dv == crate::local_storage::rng(storage@, None, None),
                all@.len() == dv.len(),
                ns@ == spec_registry_key(Seq::empty()),
                forall|j: int|
                    0 <= j < dv.len() ==> #[trigger] dv[j] == (all@[j].0@, all@[j].1@),
                spec_registry_rows(dv) == (match spec_registry_rows(dv.skip(i as int)) {
                    Some(t) => Some(contracts.deep_view() + t),
                    None => None::<Seq<(Seq<u8>, AbsContractData)>>,
                }),
            decreases all@.len() - i,
        {
            proof {
                assert(dv.skip(i as int)[0] == dv[i as int]);
                assert(dv.skip(i as int).drop_first() =~= dv.skip(i + 1));
            }
            let key = &all[i].0;
            if key.len() >= ns.len() && crate::querier::starts_with(key.as_slice(), ns.as_slice())
             {
                assert(is_registry_entry(dv[i as int].0));
                let value = &all[i].1;
                proof {
                    assert(value@.skip(0) =~= value@);
                }
                let (record, consumed) = match crate::codec::dec_contract_data_at(value, 0) {
                    Ok(x) => x,
                    Err(_) => {
                        return Err(KeeperError::CorruptRecord);
                    },
                };
                if consumed != value.len() {
                    proof {
                        assert(value@.skip(consumed as int).len() != 0);
                    }
                    return Err(KeeperError::CorruptRecord);
                }
                proof {
                    assert(value@.skip(consumed as int).len() == 0);
                }
                let addr = crate::querier::tail_from(key.as_slice(), ns.len());
                let ghost odv = contracts.deep_view();
                contracts.push((addr, record));
                proof {
                    crate::model::lemma_dv_contract_rows(&contracts);
                    assert(contracts.deep_view() =~= odv.push(
                        (registry_addr_of(dv[i as int].0), record@),
                    ));
                    assert forall|t: Seq<(Seq<u8>, AbsContractData)>| true implies odv + (seq![
                        (registry_addr_of(dv[i as int].0), record@),
                    ] + t) =~= contracts.deep_view() + t by {}
                }
            } else {
                assert(!is_registry_entry(dv[i as int].0));
            }
            i += 1;
        }
        proof {
            assert(spec_registry_rows(dv.skip(dv.len() as int)) == Some(
                Seq::<(Seq<u8>, AbsContractData)>::empty(),
            ));
            assert forall|t: Seq<(Seq<u8>, AbsContractData)>|
                t.len() == 0 implies contracts.deep_view() + t =~= contracts.deep_view() by {}
        }
        let codes = crate::model::clone_code_rows(&self.codes);
        let ws = crate::model::WasmStorage { contracts, codes, storage: all };
        proof {
            assert(ws@.contracts =~= ws.contracts.deep_view());
        }
        Ok(ws)
    }
}

/// Every entry of `changes.removed_keys` erased after every entry of
/// `changes.current_keys` stored.
pub open spec fn spec_applied(
    s: Seq<AbsEntry>,
    current: Seq<AbsEntry>,
    removed: Seq<Seq<u8>>,
) -> Seq<AbsEntry> {
    erase_all(crate::fork_storage::store_all(s, current), removed)
}

/// Every key of `ks` erased, in order.
pub open spec fn erase_all(s: Seq<AbsEntry>, ks: Seq<Seq<u8>>) -> Seq<AbsEntry>
    decreases ks.len(),
{
    if ks.len() == 0 {
        s
    } else {
        erase_all(erase(s, ks[0]), ks.drop_first())
    }
}

/// Applies a finished call's storage delta to canonical storage: the
/// resulting entries are written, then the removed keys erased.
pub fn apply_storage_changes(storage: &mut LocalStorage, changes: &StorageChanges)
    requires
        old(storage).wf(),
    ensures
        final(storage).wf(),
        final(storage)@ == spec_applied(
            old(storage)@,
            changes@.current_keys,
            changes@.removed_keys,
        ),
{
    let ghost cur = changes@.current_keys;
    let ghost rem = changes@.removed_keys;
    let mut i: usize = 0;
    proof {
        crate::local_storage::lemma_deep_view_entries(&changes.current_keys);
        assert(cur.skip(0) =~= cur);
    }
    while i < changes.current_keys.len()
        invariant
            i <= changes.current_keys@.len(),
            cur == changes@.current_keys,
            changes.current_keys@.len() == cur.len(),
            forall|j: int|
                0 <= j < cur.len() ==> #[trigger] cur[j] == (
                    changes.current_keys@[j].0@,
                    changes.current_keys@[j].1@,
                ),
            storage.wf(),
            crate::fork_storage::store_all(old(storage)@, cur) == crate::fork_storage::store_all(
                storage@,
                cur.skip(i as int),
            ),
        decreases changes.current_keys@.len() - i,
    {
        proof {
            assert(cur.skip(i as int)[0] == cur[i as int]);
            assert(cur.skip(i as int).drop_first() =~= cur.skip(i + 1));
        }
        storage.set(
            changes.current_keys[i].0.as_slice(),
            changes.current_keys[i].1.as_slice(),
        );
        i += 1;
    }
    proof {
        assert(crate::fork_storage::store_all(storage@, cur.skip(i as int)) == storage@);
    }
    let mut k: usize = 0;
    let ghost mid = storage@;
    proof {
        crate::fork_storage::lemma_deep_view_keys(&changes.removed_keys);
        assert(rem.skip(0) =~= rem);
    }
    while k < changes.removed_keys.len()
        invariant
            k <= changes.removed_keys@.len(),
            rem == changes@.removed_keys,
            changes.removed_keys@.len() == rem.len(),
            forall|j: int|
                0 <= j < rem.len() ==> #[trigger] rem[j] == changes.removed_keys@[j]@,
            storage.wf(),
            erase_all(mid, rem) == erase_all(storage@, rem.skip(k as int)),
        decreases changes.removed_keys@.len() - k,
    {
        proof {
            assert(rem.skip(k as int)[0] == rem[k as int]);
            assert(rem.skip(k as int).drop_first() =~= rem.skip(k + 1));
        }
        storage.remove(changes.removed_keys[k].as_slice());
        k += 1;
    }
    proof {
        assert(erase_all(storage@, rem.skip(k as int)) == storage@);
    }
}

/// Commits a finished call into canonical storage, or discards a failed one:
/// a successful call's delta is applied whole; a failing call leaves
/// canonical storage exactly as it was — no partial commit ever lands.
pub fn absorb_call_result(
    storage: &mut LocalStorage,
    outcome: &Result<StorageChanges, crate::model::WasmRunnerOutput>,
) -> (r: bool)
    requires
        old(storage).wf(),
    ensures
        final(storage).wf(),
        match outcome {
            Ok(changes) => r && final(storage)@ == spec_applied(
                old(storage)@,
                changes@.current_keys,
                changes@.removed_keys,
            ),
            Err(_) => !r && final(storage)@ == old(storage)@,
        },
{
    match outcome {
        Ok(changes) => {
            apply_storage_changes(storage, changes);
            true
        },
        Err(_) => false,
    }
}

/// The protobuf rendering of an instantiation's reply data: the new address
/// as field one, the inner data as field two, each omitted when empty.
pub open spec fn spec_instantiate_response(addr: Seq<u8>, data: Seq<u8>) -> Seq<u8> {
    (if addr.len() == 0 {
        Seq::<u8>::empty()
    } else {
        seq![10u8] + enc_len(addr.len()) + addr
    }) + (if data.len() == 0 {
        Seq::<u8>::empty()
    } else {
        seq![18u8] + enc_len(data.len()) + data
    })
}

/// Renders an instantiation's reply data in the chain's wire form: the
/// address and the inner data as two length-delimited protobuf fields.
pub fn instantiate_response(data: Option<Vec<u8>>, contract_address: &Vec<u8>) -> (r: Vec<u8>)
    ensures
        r@ == spec_instantiate_response(
            contract_address@,
            match data {
                Some(d) => d@,
                None => Seq::<u8>::empty(),
            },
        ),
{
    let inner: Vec<u8> = match data {
        Some(d) => d,
        None => Vec::new(),
    };
    let mut out: Vec<u8> = Vec::new();
    if contract_address.len() > 0 {
        crate::codec::enc_u8_push(&mut out, 10);
        crate::codec::enc_len_push(&mut out, contract_address.len());
        let ghost mid = out@;
        let mut i: usize = 0;
        while i < contract_address.len()
            invariant
                i <= contract_address@.len(),
                out@ =~= mid + contract_address@.take(i as int),
            decreases contract_address@.len() - i,
        {
            out.push(contract_address[i]);
            proof {
                assert(out@ =~= mid + contract_address@.take(i + 1));
            }
            i += 1;
        }
        proof {
            assert(contract_address@.take(contract_address@.len() as int) =~= contract_address@);
        }
    }
    let ghost head = out@;
    if inner.len() > 0 {
        crate::codec::enc_u8_push(&mut out, 18);
        crate::codec::enc_len_push(&mut out, inner.len());
        let ghost mid = out@;
        let mut i: usize = 0;
        while i < inner.len()
            invariant
                i <= inner@.len(),
                out@ =~= mid + inner@.take(i as int),
            decreases inner@.len() - i,
        {
            out.push(inner[i]);
            proof {
                assert(out@ =~= mid + inner@.take(i + 1));
            }
            i += 1;
        }
        proof {
            assert(inner@.take(inner@.len() as int) =~= inner@);
        }
    }
    proof {
        assert(out@ =~= spec_instantiate_response(
            contract_address@,
            match data {
                Some(d) => d@,
                None => Seq::<u8>::empty(),
            },
        ));
    }
    out
}

/// The protobuf rendering of an execution's reply data: the inner data as
/// field one, omitted when empty; absent data stays absent.
pub open spec fn spec_execute_response(data: Option<Seq<u8>>) -> Option<Seq<u8>> {
    match data {
        Some(d) => Some(
            if d.len() == 0 {
                Seq::<u8>::empty()
            } else {
                seq![10u8] + enc_len(d.len()) + d
            },
        ),
        None => None,
    }
}

/// Renders an execution's reply data in the chain's wire form.
pub fn execute_response(data: Option<Vec<u8>>) -> (r: Option<Vec<u8>>)
    ensures
        crate::codec::opt_bytes_view(&r) == spec_execute_response(
            match data {
                Some(ref d) => Some(d@),
                None => None,
            },
        ),
{
    match data {
        Some(d) => {
            let mut out: Vec<u8> = Vec::new();
            if d.len() > 0 {
                crate::codec::enc_u8_push(&mut out, 10);
                crate::codec::enc_len_push(&mut out, d.len());
                let ghost mid = out@;
                let mut i: usize = 0;
                while i < d.len()
                    invariant
                        i <= d@.len(),
                        out@ =~= mid + d@.take(i as int),
                    decreases d@.len() - i,
                {
                    out.push(d[i]);
                    proof {
                        assert(out@ =~= mid + d@.take(i + 1));
                    }
                    i += 1;
                }
                proof {
                    assert(d@.take(d@.len() as int) =~= d@);
                }
            }
            proof {
                if d@.len() > 0 {
                    assert(out@ =~= seq![10u8] + enc_len(d@.len()) + d@);
                } else {
                    assert(out@ =~= Seq::<u8>::empty());
                }
            }
            Some(out)
        },
        None => None,
    }
}

/// The plan one wasm message resolves to before any contract runs: what is
/// validated, whose funds move, and which entry point is called.
#[derive(Debug, Clone, PartialEq, Eq)]
pub enum WasmMsgPlan {
    /// Move the funds to the contract, then call `execute`.
    RunExecute { contract_addr: Vec<u8>, msg: Vec<u8>, funds: Vec<crate::model::Coin> },
    /// Register the contract, move the funds, then call `instantiate`.
    RunInstantiate {
        admin: Option<Vec<u8>>,
        code_id: u64,
        msg: Vec<u8>,
        funds: Vec<crate::model::Coin>,
        label: Vec<u8>,
    },
    /// Update the record's code id (admin only), then call `migrate`.
    RunMigrate { contract_addr: Vec<u8>, new_code_id: u64, msg: Vec<u8> },
    /// Replace or clear the record's admin (admin only); no contract runs.
    RunUpdateAdmin { contract_addr: Vec<u8>, admin: Option<Vec<u8>> },
}

/// Resolves one wasm message to its plan; an instantiation without a label
/// is rejected before anything runs.
pub fn plan_wasm_msg(msg: WasmMsg) -> (r: Result<WasmMsgPlan, KeeperError>)
    ensures
        match msg {
            WasmMsg::Execute { ref contract_addr, ref msg, ref funds } => r matches Ok(
                WasmMsgPlan::RunExecute { contract_addr: a, msg: m, funds: f },
            ) && a@ == contract_addr@ && m@ == msg@ && f.deep_view() == funds.deep_view(),
            WasmMsg::Instantiate { ref admin, code_id, ref msg, ref funds, ref label } => {
                if label@.len() == 0 {
                    r == Err::<WasmMsgPlan, KeeperError>(KeeperError::LabelRequired)
                } else {
                    r matches Ok(
                        WasmMsgPlan::RunInstantiate { admin: ad, code_id: c, msg: m, funds: f, label: l },
                    ) && crate::codec::opt_bytes_view(&ad) == crate::codec::opt_bytes_view(admin)
                        && c == code_id && m@ == msg@ && f.deep_view() == funds.deep_view() && l@
                        == label@
                }
            },
            WasmMsg::Migrate { ref contract_addr, new_code_id, ref msg } => r matches Ok(
                WasmMsgPlan::RunMigrate { contract_addr: a, new_code_id: c, msg: m },
            ) && a@ == contract_addr@ && c == new_code_id && m@ == msg@,
            WasmMsg::UpdateAdmin { ref contract_addr, ref admin } => r matches Ok(
                WasmMsgPlan::RunUpdateAdmin { contract_addr: a, admin: ad },
            ) && a@ == contract_addr@ && (ad matches Some(x) && x@ == admin@),
            WasmMsg::ClearAdmin { ref contract_addr } => r matches Ok(
                WasmMsgPlan::RunUpdateAdmin { contract_addr: a, admin: ad },
            ) && a@ == contract_addr@ && ad is None,
        },
{
    match msg {
        WasmMsg::Execute { contract_addr, msg, funds } => Ok(
            WasmMsgPlan::RunExecute { contract_addr, msg, funds },
        ),
        WasmMsg::Instantiate { admin, code_id, msg, funds, label } => {
            if label.len() == 0 {
                Err(KeeperError::LabelRequired)
            } else {
                Ok(WasmMsgPlan::RunInstantiate { admin, code_id, msg, funds, label })
            }
        },
        WasmMsg::Migrate { contract_addr, new_code_id, msg } => Ok(
            WasmMsgPlan::RunMigrate { contract_addr, new_code_id, msg },
        ),
        WasmMsg::UpdateAdmin { contract_addr, admin } => Ok(
            WasmMsgPlan::RunUpdateAdmin { contract_addr, admin: Some(admin) },
        ),
        WasmMsg::ClearAdmin { contract_addr } => Ok(
            WasmMsgPlan::RunUpdateAdmin { contract_addr, admin: None },
        ),
    }
}

} // verus!
