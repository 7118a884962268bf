//! The binary envelope crossing the isolation boundary.  A versioned,
//! length-prefixed format: integers little-endian at fixed width, lengths and
//! counts as base-128 varints, structures as field concatenations, enums as a
//! one-byte tag and the variant's fields.  Encoding is specified exactly;
//! decoding is specified as the inverse and proved to reproduce any encoded
//! envelope field for field.  A byte string that does not decode is a
//! protocol mismatch, never partially interpreted.

use vstd::prelude::*;

use crate::model::AbsBankMsg;
use crate::model::AbsBankStorage;
use crate::model::AbsChainDescriptor;
use crate::model::AbsCoin;
use crate::model::AbsContractData;
use crate::model::AbsContractResponse;
use crate::model::AbsCosmosMsg;
use crate::model::AbsEnv;
use crate::model::AbsEvent;
use crate::model::AbsAttribute;
use crate::model::AbsInstanceArguments;
use crate::model::AbsMessageInfo;
use crate::model::AbsQuerierStorage;
use crate::model::AbsReply;
use crate::model::AbsStorageChanges;
use crate::model::AbsSubMsg;
use crate::model::AbsSubMsgResponse;
use crate::model::AbsSubMsgResult;
use crate::model::AbsWasmContract;
use crate::model::AbsWasmFunction;
use crate::model::AbsWasmMsg;
use crate::model::AbsWasmOutput;
use crate::model::AbsWasmRunnerOutput;
use crate::model::AbsWasmStorage;
use crate::model::Attribute;
use crate::model::BankMsg;
use crate::model::BankStorage;
use crate::model::ChainDescriptor;
use crate::model::Coin;
use crate::model::ContractData;
use crate::model::ContractResponse;
use crate::model::CosmosMsg;
use crate::model::DistantCodeId;
use crate::model::DistantContract;
use crate::model::Env;
use crate::model::Event;
use crate::model::ExecuteArgs;
use crate::model::InstanceArguments;
use crate::model::InstantiateArgs;
use crate::model::LocalContract;
use crate::model::MessageInfo;
use crate::model::MigrateArgs;
use crate::model::QuerierStorage;
use crate::model::QueryArgs;
use crate::model::Reply;
use crate::model::ReplyArgs;
use crate::model::ReplyOn;
use crate::model::StorageChanges;
use crate::model::SubMsg;
use crate::model::SubMsgResponse;
use crate::model::SubMsgResult;
use crate::model::SudoArgs;
use crate::model::WasmContract;
use crate::model::WasmFunction;
use crate::model::WasmMsg;
use crate::model::WasmOutput;
use crate::model::WasmRunnerOutput;
use crate::model::WasmStorage;


verus! {

/// Failure to decode an envelope: the bytes do not follow the format.
#[derive(Debug, PartialEq, Eq, Structural, Clone, Copy)]
pub enum CodecError {
    ProtocolMismatch,
}

/// `n` in base 256, little-endian, `len` bytes.
pub open spec fn enc_le(n: nat, len: nat) -> Seq<u8>
    decreases len,
{
    if len == 0 {
        Seq::empty()
    } else {
        seq![(n % 256) as u8] + enc_le(n / 256, (len - 1) as nat)
    }
}

/// The number the little-endian bytes `s` denote.
pub open spec fn dec_le(s: Seq<u8>) -> nat
    decreases s.len(),
{
    if s.len() == 0 {
        0
    } else {
        s[0] as nat + 256 * dec_le(s.drop_first())
    }
}

/// 256 to the `k`.
pub open spec fn pow256(k: nat) -> nat
    decreases k,
{
    if k == 0 {
        1
    } else {
        256 * pow256((k - 1) as nat)
    }
}

/// `pow256` grows with its exponent.
pub proof fn lemma_pow256_mono(a: nat, b: nat)
    requires
        a <= b,
    ensures
        pow256(a) <= pow256(b),
    decreases b,
{
    if a < b {
        lemma_pow256_mono(a, (b - 1) as nat);
        assert(pow256(b) == 256 * pow256((b - 1) as nat));
    }
}

/// The powers bounding the fixed-width integers.
pub proof fn lemma_pow256_vals()
    ensures
        pow256(8) == 0x1_0000_0000_0000_0000,
        pow256(16) == 0x1_0000_0000_0000_0000_0000_0000_0000_0000,
{
    reveal_with_fuel(pow256, 17);
}

/// `enc_le` emits exactly `len` bytes.
pub proof fn lemma_enc_le_len(n: nat, len: nat)
    ensures
        enc_le(n, len).len() == len,
    decreases len,
{
    if len > 0 {
        lemma_enc_le_len(n / 256, (len - 1) as nat);
    }
}

/// Reading back `len` little-endian bytes of `n` gives `n`, for `n` in range.
pub proof fn lemma_dec_enc_le(n: nat, len: nat)
    requires
        n < pow256(len),
    ensures
        dec_le(enc_le(n, len)) == n,
    decreases len,
{
    if len > 0 {
        let e = enc_le(n, len);
        assert(e.drop_first() =~= enc_le(n / 256, (len - 1) as nat));
        assert(n / 256 < pow256((len - 1) as nat)) by {
            assert(n < 256 * pow256((len - 1) as nat));
        }
        lemma_dec_enc_le(n / 256, (len - 1) as nat);
    }
}

/// A length or count, base-128 varint: low 7 bits per byte, high bit set
/// while more digits follow.
pub open spec fn enc_len(n: nat) -> Seq<u8>
    decreases n,
{
    if n < 128 {
        seq![n as u8]
    } else {
        seq![(128 + (n % 128)) as u8] + enc_len(n / 128)
    }
}

/// Decode a varint, returning the number and the rest.
pub open spec fn sdec_len(s: Seq<u8>) -> Option<(nat, Seq<u8>)>
    decreases s.len(),
{
    if s.len() == 0 {
        None
    } else if s[0] < 128 {
        Some((s[0] as nat, s.drop_first()))
    } else {
        match sdec_len(s.drop_first()) {
            Some((m, r)) => Some(((s[0] - 128) as nat + 128 * m, r)),
            None => None,
        }
    }
}

/// A varint takes at least one byte.
pub proof fn lemma_enc_len_min(n: nat)
    ensures
        enc_len(n).len() >= 1,
{
}

/// Reading back a varint gives the number and leaves the rest.
pub proof fn lemma_rt_len(n: nat, rest: Seq<u8>)
    ensures
        sdec_len(enc_len(n) + rest) == Some((n, rest)),
    decreases n,
{
    let s = enc_len(n) + rest;
    if n < 128 {
        assert(s[0] == n as u8);
        assert(s.drop_first() =~= rest);
    } else {
        assert(s[0] == (128 + (n % 128)) as u8);
        assert(s[0] >= 128);
        assert(s.drop_first() =~= enc_len(n / 128) + rest);
        lemma_rt_len(n / 128, rest);
        assert((s[0] - 128) as nat + 128 * (n / 128) == n);
    }
}

/// A `u64`, 8 bytes little-endian.
pub open spec fn enc_u64(v: u64) -> Seq<u8> {
    enc_le(v as nat, 8)
}

/// Decode a `u64`, returning the value and the rest.
pub open spec fn sdec_u64(s: Seq<u8>) -> Option<(u64, Seq<u8>)> {
    if s.len() >= 8 {
        Some(((dec_le(s.take(8)) as u64), s.skip(8)))
    } else {
        None
    }
}

/// Reading back an encoded `u64` gives the value and leaves the rest.
pub proof fn lemma_rt_u64(v: u64, rest: Seq<u8>)
    ensures
        sdec_u64(enc_u64(v) + rest) == Some((v, rest)),
{
    let s = enc_u64(v) + rest;
    lemma_enc_le_len(v as nat, 8);
    assert(s.take(8) =~= enc_u64(v));
    assert(s.skip(8) =~= rest);
    assert((v as nat) < pow256(8)) by {
        lemma_pow256_vals();
    }
    lemma_dec_enc_le(v as nat, 8);
}

/// A `u128`, 16 bytes little-endian.
pub open spec fn enc_u128(v: u128) -> Seq<u8> {
    enc_le(v as nat, 16)
}

/// Decode a `u128`, returning the value and the rest.
pub open spec fn sdec_u128(s: Seq<u8>) -> Option<(u128, Seq<u8>)> {
    if s.len() >= 16 {
        Some(((dec_le(s.take(16)) as u128), s.skip(16)))
    } else {
        None
    }
}

/// Reading back an encoded `u128` gives the value and leaves the rest.
pub proof fn lemma_rt_u128(v: u128, rest: Seq<u8>)
    ensures
        sdec_u128(enc_u128(v) + rest) == Some((v, rest)),
{
    let s = enc_u128(v) + rest;
    lemma_enc_le_len(v as nat, 16);
    assert(s.take(16) =~= enc_u128(v));
    assert(s.skip(16) =~= rest);
    assert((v as nat) < pow256(16)) by {
        lemma_pow256_vals();
    }
    lemma_dec_enc_le(v as nat, 16);
}

/// A byte string: its length as a varint, then the bytes.
pub open spec fn enc_bytes(b: Seq<u8>) -> Seq<u8> {
    enc_len(b.len()) + b
}

/// Decode a byte string, returning it and the rest.
pub open spec fn sdec_bytes(s: Seq<u8>) -> Option<(Seq<u8>, Seq<u8>)> {
    match sdec_len(s) {
        Some((n, r)) => if r.len() >= n {
            Some((r.take(n as int), r.skip(n as int)))
        } else {
            None
        },
        None => None,
    }
}

/// Reading back an encoded byte string gives it and leaves the rest.
pub proof fn lemma_rt_bytes(b: Seq<u8>, rest: Seq<u8>)
    ensures
        sdec_bytes(enc_bytes(b) + rest) == Some((b, rest)),
{
    assert(enc_bytes(b) + rest =~= enc_len(b.len()) + (b + rest));
    lemma_rt_len(b.len(), b + rest);
    assert((b + rest).take(b.len() as int) =~= b);
    assert((b + rest).skip(b.len() as int) =~= rest);
}

/// Append the varint of `n`.
pub fn enc_len_push(out: &mut Vec<u8>, n: usize)
    ensures
        final(out)@ == old(out)@ + enc_len(n as nat),
{
    let mut x = n;
    let ghost start = out@;
    while x >= 128
        invariant
            start + enc_len(n as nat) =~= out@ + enc_len(x as nat),
        decreases x,
    {
        out.push((128 + (x % 128) as u8) as u8);
        proof {
            assert(out@ + enc_len((x / 128) as nat) =~= out@.drop_last() + enc_len(x as nat));
        }
        x = x / 128;
    }
    out.push(x as u8);
    proof {
        assert(out@ =~= out@.drop_last() + enc_len(x as nat));
        assert(out@ =~= start + enc_len(n as nat));
    }
}

/// Read a varint at `pos`.  A value too large for the input to possibly
/// hold is rejected.
pub fn dec_len_at(s: &Vec<u8>, pos: usize) -> (r: Result<(usize, usize), CodecError>)
    requires
        pos <= s@.len(),
    ensures
        match r {
            Ok((n, p2)) => pos <= p2 <= s@.len() && sdec_len(s@.skip(pos as int)) == Some(
                (n as nat, s@.skip(p2 as int)),
            ),
            Err(_) => sdec_len(s@.skip(pos as int)) matches Some((n, _)) ==> n > s@.len(),
        },
    decreases s@.len() - pos,
{
    if pos >= s.len() {
        return Err(CodecError::ProtocolMismatch);
    }
    let b = s[pos];
    proof {
        assert(s@.skip(pos as int)[0] == s@[pos as int]);
        assert(s@.skip(pos as int).drop_first() =~= s@.skip(pos + 1));
    }
    if b < 128 {
        return Ok((b as usize, pos + 1));
    }
    let d = (b - 128) as usize;
    match dec_len_at(s, pos + 1) {
        Ok((m, p2)) => {
            if m > (usize::MAX - d) / 128 {
                proof {
                    let n = d as nat + 128 * (m as nat);
                    assert(n > usize::MAX as nat);
                    assert(s@.len() <= usize::MAX as nat);
                }
                Err(CodecError::ProtocolMismatch)
            } else {
                Ok((d + 128 * m, p2))
            }
        },
        Err(e) => {
            proof {
                if sdec_len(s@.skip(pos as int)) is Some {
                    let m = match sdec_len(s@.skip(pos + 1)) {
                        Some((m, _)) => m,
                        None => 0,
                    };
                    assert(m > s@.len());
                    let n = match sdec_len(s@.skip(pos as int)) {
                        Some((n, _)) => n,
                        None => 0,
                    };
                    assert(n == d as nat + 128 * m);
                    assert(128 * m >= m) by (nonlinear_arith)
                        requires
                            m >= 0,
                    ;
                }
            }
            Err(e)
        },
    }
}


/// The value little-endian bytes denote is below the base power of their
/// length.
pub proof fn lemma_dec_le_bound(s: Seq<u8>)
    ensures
        dec_le(s) < pow256(s.len()),
    decreases s.len(),
{
    if s.len() > 0 {
        lemma_dec_le_bound(s.drop_first());
    }
}

/// The rest a varint leaves is strictly shorter than its input.
pub proof fn lemma_sdec_len_rest(s: Seq<u8>)
    ensures
        sdec_len(s) matches Some((n, r)) ==> r.len() < s.len(),
    decreases s.len(),
{
    if s.len() > 0 && s[0] >= 128 {
        lemma_sdec_len_rest(s.drop_first());
    }
}

/// Append one byte.
pub fn enc_u8_push(out: &mut Vec<u8>, b: u8)
    ensures
        final(out)@ == old(out)@ + seq![b],
{
    out.push(b);
    proof {
        assert(out@ =~= old(out)@ + seq![b]);
    }
}

/// Decode one byte.
pub open spec fn sdec_u8(s: Seq<u8>) -> Option<(u8, Seq<u8>)> {
    if s.len() >= 1 {
        Some((s[0], s.drop_first()))
    } else {
        None
    }
}

/// Reading back one byte gives it and leaves the rest.
pub proof fn lemma_rt_u8(b: u8, rest: Seq<u8>)
    ensures
        sdec_u8(seq![b] + rest) == Some((b, rest)),
{
    assert((seq![b] + rest).drop_first() =~= rest);
}

/// Read one byte at `pos`.
pub fn dec_u8_at(s: &Vec<u8>, pos: usize) -> (r: Result<(u8, usize), CodecError>)
    requires
        pos <= s@.len(),
    ensures
        match r {
            Ok((v, p2)) => pos <= p2 <= s@.len() && sdec_u8(s@.skip(pos as int)) == Some(
                (v, s@.skip(p2 as int)),
            ),
            Err(_) => sdec_u8(s@.skip(pos as int)) is None,
        },
{
    if pos >= s.len() {
        return Err(CodecError::ProtocolMismatch);
    }
    proof {
        assert(s@.skip(pos as int)[0] == s@[pos as int]);
        assert(s@.skip(pos as int).drop_first() =~= s@.skip(pos + 1));
    }
    Ok((s[pos], pos + 1))
}

/// Append a `u64`, 8 bytes little-endian.
pub fn enc_u64_push(out: &mut Vec<u8>, v: u64)
    ensures
        final(out)@ == old(out)@ + enc_u64(v),
{
    let ghost start = out@;
    let mut x = v;
    let mut i: usize = 0;
    proof {
        assert(start + enc_le(v as nat, 8) =~= out@ + enc_le(x as nat, (8 - i) as nat));
    }
    while i < 8
        invariant
            i <= 8,
            start + enc_le(v as nat, 8) =~= out@ + enc_le(x as nat, (8 - i) as nat),
        decreases 8 - i,
    {
        out.push((x % 256) as u8);
        proof {
            assert(out@ + enc_le((x / 256) as nat, (8 - (i + 1)) as nat) =~= out@.drop_last()
                + enc_le(x as nat, (8 - i) as nat));
        }
        x = x / 256;
        i += 1;
    }
    proof {
        assert(out@ + enc_le(x as nat, 0) =~= out@);
    }
}

/// Read a `u64` at `pos`.
pub fn dec_u64_at(s: &Vec<u8>, pos: usize) -> (r: Result<(u64, usize), CodecError>)
    requires
        pos <= s@.len(),
    ensures
        match r {
            Ok((v, p2)) => pos <= p2 <= s@.len() && sdec_u64(s@.skip(pos as int)) == Some(
                (v, s@.skip(p2 as int)),
            ),
            Err(_) => sdec_u64(s@.skip(pos as int)) is None,
        },
{
    let slen = s.len();
    if slen - pos < 8 {
        return Err(CodecError::ProtocolMismatch);
    }
    let ghost t = s@.skip(pos as int).take(8);
    let mut acc: u64 = 0;
    let mut i: usize = 8;
    proof {
        assert(t.subrange(8, 8) =~= Seq::<u8>::empty());
        lemma_pow256_vals();
    }
    while i > 0
        invariant
            i <= 8,
            pos + 8 <= slen,
            slen == s@.len(),
            t == s@.skip(pos as int).take(8),
            t.len() == 8,
            acc as nat == dec_le(t.subrange(i as int, 8)),
            (acc as nat) < pow256((8 - i) as nat),
        decreases i,
    {
        i -= 1;
        proof {
            assert(t.subrange(i as int, 8)[0] == t[i as int]);
            assert(t.subrange(i as int, 8).drop_first() =~= t.subrange(i + 1, 8));
            lemma_dec_le_bound(t.subrange(i + 1, 8));
            lemma_pow256_vals();
            lemma_pow256_mono((8 - i) as nat, 8);
            assert(pow256((8 - i) as nat) == 256 * pow256((8 - (i + 1)) as nat));
            assert((acc as nat) * 256 + 256 <= pow256((8 - i) as nat));
            assert(t[i as int] == s@[pos + i]);
        }
        acc = acc * 256 + (s[pos + i] as u64);
    }
    proof {
        assert(t.subrange(0, 8) =~= t);
    }
    Ok((acc, pos + 8))
}

/// Append a `u128`, 16 bytes little-endian.
pub fn enc_u128_push(out: &mut Vec<u8>, v: u128)
    ensures
        final(out)@ == old(out)@ + enc_u128(v),
{
    let ghost start = out@;
    let mut x = v;
    let mut i: usize = 0;
    proof {
        assert(start + enc_le(v as nat, 16) =~= out@ + enc_le(x as nat, (16 - i) as nat));
    }
    while i < 16
        invariant
            i <= 16,
            start + enc_le(v as nat, 16) =~= out@ + enc_le(x as nat, (16 - i) as nat),
        decreases 16 - i,
    {
        out.push((x % 256) as u8);
        proof {
            assert(out@ + enc_le((x / 256) as nat, (16 - (i + 1)) as nat) =~= out@.drop_last()
                + enc_le(x as nat, (16 - i) as nat));
        }
        x = x / 256;
        i += 1;
    }
    proof {
        assert(out@ + enc_le(x as nat, 0) =~= out@);
    }
}

/// Read a `u128` at `pos`.
pub fn dec_u128_at(s: &Vec<u8>, pos: usize) -> (r: Result<(u128, usize), CodecError>)
    requires
        pos <= s@.len(),
    ensures
        match r {
            Ok((v, p2)) => pos <= p2 <= s@.len() && sdec_u128(s@.skip(pos as int)) == Some(
                (v, s@.skip(p2 as int)),
            ),
            Err(_) => sdec_u128(s@.skip(pos as int)) is None,
        },
{
    let slen = s.len();
    if slen - pos < 16 {
        return Err(CodecError::ProtocolMismatch);
    }
    let ghost t = s@.skip(pos as int).take(16);
    let mut acc: u128 = 0;
    let mut i: usize = 16;
    proof {
        assert(t.subrange(16, 16) =~= Seq::<u8>::empty());
        lemma_pow256_vals();
    }
    while i > 0
        invariant
            i <= 16,
            pos + 16 <= slen,
            slen == s@.len(),
            t == s@.skip(pos as int).take(16),
            t.len() == 16,
            acc as nat == dec_le(t.subrange(i as int, 16)),
            (acc as nat) < pow256((16 - i) as nat),
        decreases i,
    {
        i -= 1;
        proof {
            assert(t.subrange(i as int, 16)[0] == t[i as int]);
            assert(t.subrange(i as int, 16).drop_first() =~= t.subrange(i + 1, 16));
            lemma_dec_le_bound(t.subrange(i + 1, 16));
            lemma_pow256_vals();
            lemma_pow256_mono((16 - i) as nat, 16);
            assert(pow256((16 - i) as nat) == 256 * pow256((16 - (i + 1)) as nat));
            assert((acc as nat) * 256 + 256 <= pow256((16 - i) as nat));
            assert(t[i as int] == s@[pos + i]);
        }
        acc = acc * 256 + (s[pos + i] as u128);
    }
    proof {
        assert(t.subrange(0, 16) =~= t);
    }
    Ok((acc, pos + 16))
}

/// Append a byte string: varint length, then the bytes.
pub fn enc_bytes_push(out: &mut Vec<u8>, b: &Vec<u8>)
    ensures
        final(out)@ == old(out)@ + enc_bytes(b@),
{
    enc_len_push(out, b.len());
    let ghost mid = out@;
    let mut i: usize = 0;
    while i < b.len()
        invariant
            i <= b@.len(),
            out@ =~= mid + b@.take(i as int),
        decreases b@.len() - i,
    {
        out.push(b[i]);
        proof {
            assert(out@ =~= mid + b@.take(i + 1));
        }
        i += 1;
    }
    proof {
        assert(b@.take(b@.len() as int) =~= b@);
        assert(out@ =~= old(out)@ + (enc_len(b@.len()) + b@));
    }
}

/// Read a byte string at `pos`.
pub fn dec_bytes_at(s: &Vec<u8>, pos: usize) -> (r: Result<(Vec<u8>, usize), CodecError>)
    requires
        pos <= s@.len(),
    ensures
        match r {
            Ok((v, p2)) => pos <= p2 <= s@.len() && sdec_bytes(s@.skip(pos as int)) == Some(
                (v@, s@.skip(p2 as int)),
            ),
            Err(_) => sdec_bytes(s@.skip(pos as int)) is None,
        },
{
    let ghost tail = s@.skip(pos as int);
    let (n, p1) = match dec_len_at(s, pos) {
        Ok(x) => x,
        Err(e) => {
            proof {
                lemma_sdec_len_rest(tail);
            }
            return Err(e);
        },
    };
    let slen = s.len();
    if n > slen - p1 {
        return Err(CodecError::ProtocolMismatch);
    }
    let mut v: Vec<u8> = Vec::new();
    let mut i: usize = 0;
    while i < n
        invariant
            i <= n,
            pos <= p1,
            p1 + n <= slen,
            slen == s@.len(),
            v@ =~= s@.subrange(p1 as int, p1 + i),
        decreases n - i,
    {
        v.push(s[p1 + i]);
        proof {
            assert(v@ =~= s@.subrange(p1 as int, p1 + i + 1));
        }
        i += 1;
    }
    proof {
        assert(s@.skip(p1 as int).take(n as int) =~= s@.subrange(p1 as int, p1 + n));
        assert(s@.skip(p1 as int).skip(n as int) =~= s@.skip(p1 + n));
    }
    Ok((v, p1 + n))
}

/// An optional byte string: presence byte, then the bytes when present.
pub open spec fn enc_opt_bytes(b: Option<Seq<u8>>) -> Seq<u8> {
    match b {
        Some(v) => seq![1u8] + enc_bytes(v),
        None => seq![0u8],
    }
}

/// Decode an optional byte string.
pub open spec fn sdec_opt_bytes(s: Seq<u8>) -> Option<(Option<Seq<u8>>, Seq<u8>)> {
    match sdec_u8(s) {
        Some((tag, r)) => if tag == 0 {
            Some((None, r))
        } else if tag == 1 {
            match sdec_bytes(r) {
                Some((v, r2)) => Some((Some(v), r2)),
                None => None,
            }
        } else {
            None
        },
        None => None,
    }
}

/// Reading back an optional byte string gives it and leaves the rest.
pub proof fn lemma_rt_opt_bytes(b: Option<Seq<u8>>, rest: Seq<u8>)
    ensures
        sdec_opt_bytes(enc_opt_bytes(b) + rest) == Some((b, rest)),
{
    match b {
        Some(v) => {
            assert(enc_opt_bytes(b) + rest =~= seq![1u8] + (enc_bytes(v) + rest));
            lemma_rt_u8(1u8, enc_bytes(v) + rest);
            lemma_rt_bytes(v, rest);
        },
        None => {
            lemma_rt_u8(0u8, rest);
        },
    }
}

/// Append an optional byte string.
pub fn enc_opt_bytes_push(out: &mut Vec<u8>, b: &Option<Vec<u8>>)
    ensures
        final(out)@ == old(out)@ + enc_opt_bytes(
            match b {
                Some(v) => Some(v@),
                None => None,
            },
        ),
{
    match b {
        Some(v) => {
            enc_u8_push(out, 1);
            enc_bytes_push(out, v);
            proof {
                assert(out@ =~= old(out)@ + (seq![1u8] + enc_bytes(v@)));
            }
        },
        None => {
            enc_u8_push(out, 0);
        },
    }
}

/// Read an optional byte string at `pos`.
pub fn dec_opt_bytes_at(s: &Vec<u8>, pos: usize) -> (r: Result<
    (Option<Vec<u8>>, usize),
    CodecError,
>)
    requires
        pos <= s@.len(),
    ensures
        match r {
            Ok((v, p2)) => pos <= p2 <= s@.len() && sdec_opt_bytes(s@.skip(pos as int)) == Some(
                (
                    match v {
                        Some(b) => Some(b@),
                        None => None,
                    },
                    s@.skip(p2 as int),
                ),
            ),
            Err(_) => sdec_opt_bytes(s@.skip(pos as int)) is None,
        },
{
    let (tag, p1) = match dec_u8_at(s, pos) {
        Ok(x) => x,
        Err(e) => {
            return Err(e);
        },
    };
    if tag == 0 {
        Ok((None, p1))
    } else if tag == 1 {
        let (v, p2) = match dec_bytes_at(s, p1) {
            Ok(x) => x,
            Err(e) => {
                return Err(e);
            },
        };
        Ok((Some(v), p2))
    } else {
        Err(CodecError::ProtocolMismatch)
    }
}

/// An optional `u64`: presence byte, then the value when present.
pub open spec fn enc_opt_u64(v: Option<u64>) -> Seq<u8> {
    match v {
        Some(x) => seq![1u8] + enc_u64(x),
        None => seq![0u8],
    }
}

/// Decode an optional `u64`.
pub open spec fn sdec_opt_u64(s: Seq<u8>) -> Option<(Option<u64>, Seq<u8>)> {
    match sdec_u8(s) {
        Some((tag, r)) => if tag == 0 {
            Some((None, r))
        } else if tag == 1 {
            match sdec_u64(r) {
                Some((v, r2)) => Some((Some(v), r2)),
                None => None,
            }
        } else {
            None
        },
        None => None,
    }
}

/// Reading back an optional `u64` gives it and leaves the rest.
pub proof fn lemma_rt_opt_u64(v: Option<u64>, rest: Seq<u8>)
    ensures
        sdec_opt_u64(enc_opt_u64(v) + rest) == Some((v, rest)),
{
    match v {
        Some(x) => {
            assert(enc_opt_u64(v) + rest =~= seq![1u8] + (enc_u64(x) + rest));
            lemma_rt_u8(1u8, enc_u64(x) + rest);
            lemma_rt_u64(x, rest);
        },
        None => {
            lemma_rt_u8(0u8, rest);
        },
    }
}

/// Append an optional `u64`.
pub fn enc_opt_u64_push(out: &mut Vec<u8>, v: &Option<u64>)
    ensures
        final(out)@ == old(out)@ + enc_opt_u64(*v),
{
    match v {
        Some(x) => {
            enc_u8_push(out, 1);
            enc_u64_push(out, *x);
            proof {
                assert(out@ =~= old(out)@ + (seq![1u8] + enc_u64(*x)));
            }
        },
        None => {
            enc_u8_push(out, 0);
        },
    }
}

/// Read an optional `u64` at `pos`.
pub fn dec_opt_u64_at(s: &Vec<u8>, pos: usize) -> (r: Result<(Option<u64>, usize), CodecError>)
    requires
        pos <= s@.len(),
    ensures
        match r {
            Ok((v, p2)) => pos <= p2 <= s@.len() && sdec_opt_u64(s@.skip(pos as int)) == Some(
                (v, s@.skip(p2 as int)),
            ),
            Err(_) => sdec_opt_u64(s@.skip(pos as int)) is None,
        },
{
    let (tag, p1) = match dec_u8_at(s, pos) {
        Ok(x) => x,
        Err(e) => {
            return Err(e);
        },
    };
    if tag == 0 {
        Ok((None, p1))
    } else if tag == 1 {
        let (v, p2) = match dec_u64_at(s, p1) {
            Ok(x) => x,
            Err(e) => {
                return Err(e);
            },
        };
        Ok((Some(v), p2))
    } else {
        Err(CodecError::ProtocolMismatch)
    }
}



/// Encoding of a coin: its fields in order.
#[verifier::opaque]
pub open spec fn enc_coin(v: AbsCoin) -> Seq<u8> {
    enc_bytes(v.denom) + enc_u128(v.amount)
}

/// Decode a coin, returning it and the rest.
#[verifier::opaque]
pub open spec fn sdec_coin(s: Seq<u8>) -> Option<(AbsCoin, Seq<u8>)> {
    match sdec_bytes(s) {
        Some((denom, r1)) => match sdec_u128(r1) {
        Some((amount, r2)) => Some((AbsCoin { denom: denom, amount: amount }, r2)),
        None => None,
    },
        None => None,
    }
}

/// Reading back an encoded coin gives it and leaves the rest.
pub proof fn lemma_rt_coin(v: AbsCoin, rest: Seq<u8>)
    ensures
        sdec_coin(enc_coin(v) + rest) == Some((v, rest)),
{
    reveal(enc_coin);
    reveal(sdec_coin);
    assert(enc_coin(v) + rest =~= enc_bytes(v.denom) + (enc_u128(v.amount) + (rest)));
    lemma_rt_bytes(v.denom, enc_u128(v.amount) + (rest));
    lemma_rt_u128(v.amount, rest);
    assert((AbsCoin { denom: v.denom, amount: v.amount }) =~= v);
}

/// Append an encoded coin.
pub fn enc_coin_push(out: &mut Vec<u8>, v: &Coin)
    ensures
        final(out)@ == old(out)@ + enc_coin(v@),
{
    enc_bytes_push(out, &v.denom);
    enc_u128_push(out, v.amount);
    proof {
        reveal(enc_coin);
        assert(out@ =~= old(out)@ + enc_coin(v@));
    }
}

/// Read a coin at `pos`.
pub fn dec_coin_at(s: &Vec<u8>, pos: usize) -> (r: Result<(Coin, usize), CodecError>)
    requires
        pos <= s@.len(),
    ensures
        match r {
            Ok((v, p2)) => pos <= p2 <= s@.len() && sdec_coin(s@.skip(pos as int)) == Some(
                (v@, s@.skip(p2 as int)),
            ),
            Err(_) => sdec_coin(s@.skip(pos as int)) is None,
        },
{
    proof {
        reveal(sdec_coin);
    }
    let (denom, p1) = match dec_bytes_at(s, pos) {
        Ok(x) => x,
        Err(e) => {
            return Err(e);
        },
    };
    let (amount, p2) = match dec_u128_at(s, p1) {
        Ok(x) => x,
        Err(e) => {
            return Err(e);
        },
    };
    let v = Coin { denom: denom, amount: amount };
    proof {
        assert(v@ =~= (AbsCoin { denom: denom@, amount: amount }));
    }
    Ok((v, p2))
}


/// Encoding of a attribute: its fields in order.
#[verifier::opaque]
pub open spec fn enc_attr(v: AbsAttribute) -> Seq<u8> {
    enc_bytes(v.key) + enc_bytes(v.value)
}

/// Decode a attribute, returning it and the rest.
#[verifier::opaque]
pub open spec fn sdec_attr(s: Seq<u8>) -> Option<(AbsAttribute, Seq<u8>)> {
    match sdec_bytes(s) {
        Some((key, r1)) => match sdec_bytes(r1) {
        Some((value, r2)) => Some((AbsAttribute { key: key, value: value }, r2)),
        None => None,
    },
        None => None,
    }
}

/// Reading back an encoded attribute gives it and leaves the rest.
pub proof fn lemma_rt_attr(v: AbsAttribute, rest: Seq<u8>)
    ensures
        sdec_attr(enc_attr(v) + rest) == Some((v, rest)),
{
    reveal(enc_attr);
    reveal(sdec_attr);
    assert(enc_attr(v) + rest =~= enc_bytes(v.key) + (enc_bytes(v.value) + (rest)));
    lemma_rt_bytes(v.key, enc_bytes(v.value) + (rest));
    lemma_rt_bytes(v.value, rest);
    assert((AbsAttribute { key: v.key, value: v.value }) =~= v);
}

/// Append an encoded attribute.
pub fn enc_attr_push(out: &mut Vec<u8>, v: &Attribute)
    ensures
        final(out)@ == old(out)@ + enc_attr(v@),
{
    enc_bytes_push(out, &v.key);
    enc_bytes_push(out, &v.value);
    proof {
        reveal(enc_attr);
        assert(out@ =~= old(out)@ + enc_attr(v@));
    }
}

/// Read a attribute at `pos`.
pub fn dec_attr_at(s: &Vec<u8>, pos: usize) -> (r: Result<(Attribute, usize), CodecError>)
    requires
        pos <= s@.len(),
    ensures
        match r {
            Ok((v, p2)) => pos <= p2 <= s@.len() && sdec_attr(s@.skip(pos as int)) == Some(
                (v@, s@.skip(p2 as int)),
            ),
            Err(_) => sdec_attr(s@.skip(pos as int)) is None,
        },
{
    proof {
        reveal(sdec_attr);
    }
    let (key, p1) = match dec_bytes_at(s, pos) {
        Ok(x) => x,
        Err(e) => {
            return Err(e);
        },
    };
    let (value, p2) = match dec_bytes_at(s, p1) {
        Ok(x) => x,
        Err(e) => {
            return Err(e);
        },
    };
    let v = Attribute { key: key, value: value };
    proof {
        assert(v@ =~= (AbsAttribute { key: key@, value: value@ }));
    }
    Ok((v, p2))
}


/// Encoding of a chain descriptor: its fields in order.
#[verifier::opaque]
pub open spec fn enc_chain(v: AbsChainDescriptor) -> Seq<u8> {
    enc_bytes(v.chain_id) + enc_bytes(v.grpc_url) + enc_bytes(v.bech32_prefix)
}

/// Decode a chain descriptor, returning it and the rest.
#[verifier::opaque]
pub open spec fn sdec_chain(s: Seq<u8>) -> Option<(AbsChainDescriptor, Seq<u8>)> {
    match sdec_bytes(s) {
        Some((chain_id, r1)) => match sdec_bytes(r1) {
        Some((grpc_url, r2)) => match sdec_bytes(r2) {
        Some((bech32_prefix, r3)) => Some((AbsChainDescriptor { chain_id: chain_id, grpc_url: grpc_url, bech32_prefix: bech32_prefix }, r3)),
        None => None,
    },
        None => None,
    },
        None => None,
    }
}

/// Reading back an encoded chain descriptor gives it and leaves the rest.
pub proof fn lemma_rt_chain(v: AbsChainDescriptor, rest: Seq<u8>)
    ensures
        sdec_chain(enc_chain(v) + rest) == Some((v, rest)),
{
    reveal(enc_chain);
    reveal(sdec_chain);
    assert(enc_chain(v) + rest =~= enc_bytes(v.chain_id) + (enc_bytes(v.grpc_url) + (enc_bytes(v.bech32_prefix) + (rest))));
    lemma_rt_bytes(v.chain_id, enc_bytes(v.grpc_url) + (enc_bytes(v.bech32_prefix) + (rest)));
    lemma_rt_bytes(v.grpc_url, enc_bytes(v.bech32_prefix) + (rest));
    lemma_rt_bytes(v.bech32_prefix, rest);
    assert((AbsChainDescriptor { chain_id: v.chain_id, grpc_url: v.grpc_url, bech32_prefix: v.bech32_prefix }) =~= v);
}

/// Append an encoded chain descriptor.
pub fn enc_chain_push(out: &mut Vec<u8>, v: &ChainDescriptor)
    ensures
        final(out)@ == old(out)@ + enc_chain(v@),
{
    enc_bytes_push(out, &v.chain_id);
    enc_bytes_push(out, &v.grpc_url);
    enc_bytes_push(out, &v.bech32_prefix);
    proof {
        reveal(enc_chain);
        assert(out@ =~= old(out)@ + enc_chain(v@));
    }
}

/// Read a chain descriptor at `pos`.
pub fn dec_chain_at(s: &Vec<u8>, pos: usize) -> (r: Result<(ChainDescriptor, usize), CodecError>)
    requires
        pos <= s@.len(),
    ensures
        match r {
            Ok((v, p2)) => pos <= p2 <= s@.len() && sdec_chain(s@.skip(pos as int)) == Some(
                (v@, s@.skip(p2 as int)),
            ),
            Err(_) => sdec_chain(s@.skip(pos as int)) is None,
        },
{
    proof {
        reveal(sdec_chain);
    }
    let (chain_id, p1) = match dec_bytes_at(s, pos) {
        Ok(x) => x,
        Err(e) => {
            return Err(e);
        },
    };
    let (grpc_url, p2) = match dec_bytes_at(s, p1) {
        Ok(x) => x,
        Err(e) => {
            return Err(e);
        },
    };
    let (bech32_prefix, p3) = match dec_bytes_at(s, p2) {
        Ok(x) => x,
        Err(e) => {
            return Err(e);
        },
    };
    let v = ChainDescriptor { chain_id: chain_id, grpc_url: grpc_url, bech32_prefix: bech32_prefix };
    proof {
        assert(v@ =~= (AbsChainDescriptor { chain_id: chain_id@, grpc_url: grpc_url@, bech32_prefix: bech32_prefix@ }));
    }
    Ok((v, p3))
}


/// Encoding of a contract record: its fields in order.
#[verifier::opaque]
pub open spec fn enc_contract_data(v: AbsContractData) -> Seq<u8> {
    enc_u64(v.code_id) + enc_bytes(v.creator) + enc_opt_bytes(v.admin) + enc_bytes(v.label) + enc_u64(v.created)
}

/// Decode a contract record, returning it and the rest.
#[verifier::opaque]
pub open spec fn sdec_contract_data(s: Seq<u8>) -> Option<(AbsContractData, Seq<u8>)> {
    match sdec_u64(s) {
        Some((code_id, r1)) => match sdec_bytes(r1) {
        Some((creator, r2)) => match sdec_opt_bytes(r2) {
        Some((admin, r3)) => match sdec_bytes(r3) {
        Some((label, r4)) => match sdec_u64(r4) {
        Some((created, r5)) => Some((AbsContractData { code_id: code_id, creator: creator, admin: admin, label: label, created: created }, r5)),
        None => None,
    },
        None => None,
    },
        None => None,
    },
        None => None,
    },
        None => None,
    }
}

/// Reading back an encoded contract record gives it and leaves the rest.
pub proof fn lemma_rt_contract_data(v: AbsContractData, rest: Seq<u8>)
    ensures
        sdec_contract_data(enc_contract_data(v) + rest) == Some((v, rest)),
{
    reveal(enc_contract_data);
    reveal(sdec_contract_data);
    assert(enc_contract_data(v) + rest =~= enc_u64(v.code_id) + (enc_bytes(v.creator) + (enc_opt_bytes(v.admin) + (enc_bytes(v.label) + (enc_u64(v.created) + (rest))))));
    lemma_rt_u64(v.code_id, enc_bytes(v.creator) + (enc_opt_bytes(v.admin) + (enc_bytes(v.label) + (enc_u64(v.created) + (rest)))));
    lemma_rt_bytes(v.creator, enc_opt_bytes(v.admin) + (enc_bytes(v.label) + (enc_u64(v.created) + (rest))));
    lemma_rt_opt_bytes(v.admin, enc_bytes(v.label) + (enc_u64(v.created) + (rest)));
    lemma_rt_bytes(v.label, enc_u64(v.created) + (rest));
    lemma_rt_u64(v.created, rest);
    assert((AbsContractData { code_id: v.code_id, creator: v.creator, admin: v.admin, label: v.label, created: v.created }) =~= v);
}

/// Append an encoded contract record.
pub fn enc_contract_data_push(out: &mut Vec<u8>, v: &ContractData)
    ensures
        final(out)@ == old(out)@ + enc_contract_data(v@),
{
    enc_u64_push(out, v.code_id);
    enc_bytes_push(out, &v.creator);
    enc_opt_bytes_push(out, &v.admin);
    enc_bytes_push(out, &v.label);
    enc_u64_push(out, v.created);
    proof {
        reveal(enc_contract_data);
        assert(out@ =~= old(out)@ + enc_contract_data(v@));
    }
}

/// Read a contract record at `pos`.
pub fn dec_contract_data_at(s: &Vec<u8>, pos: usize) -> (r: Result<(ContractData, usize), CodecError>)
    requires
        pos <= s@.len(),
    ensures
        match r {
            Ok((v, p2)) => pos <= p2 <= s@.len() && sdec_contract_data(s@.skip(pos as int)) == Some(
                (v@, s@.skip(p2 as int)),
            ),
            Err(_) => sdec_contract_data(s@.skip(pos as int)) is None,
        },
{
    proof {
        reveal(sdec_contract_data);
    }
    let (code_id, p1) = match dec_u64_at(s, pos) {
        Ok(x) => x,
        Err(e) => {
            return Err(e);
        },
    };
    let (creator, p2) = match dec_bytes_at(s, p1) {
        Ok(x) => x,
        Err(e) => {
            return Err(e);
        },
    };
    let (admin, p3) = match dec_opt_bytes_at(s, p2) {
        Ok(x) => x,
        Err(e) => {
            return Err(e);
        },
    };
    let (label, p4) = match dec_bytes_at(s, p3) {
        Ok(x) => x,
        Err(e) => {
            return Err(e);
        },
    };
    let (created, p5) = match dec_u64_at(s, p4) {
        Ok(x) => x,
        Err(e) => {
            return Err(e);
        },
    };
    let v = ContractData { code_id: code_id, creator: creator, admin: admin, label: label, created: created };
    proof {
        assert(v@ =~= (AbsContractData { code_id: code_id, creator: creator@, admin: opt_bytes_view(&admin), label: label@, created: created }));
    }
    Ok((v, p5))
}


/// Encoding of a environment: its fields in order.
#[verifier::opaque]
pub open spec fn enc_env(v: AbsEnv) -> Seq<u8> {
    enc_u64(v.block_height) + enc_u64(v.block_time_nanos) + enc_bytes(v.chain_id) + enc_bytes(v.contract_addr) + enc_opt_u64(v.transaction_index)
}

/// Decode a environment, returning it and the rest.
#[verifier::opaque]
pub open spec fn sdec_env(s: Seq<u8>) -> Option<(AbsEnv, Seq<u8>)> {
    match sdec_u64(s) {
        Some((block_height, r1)) => match sdec_u64(r1) {
        Some((block_time_nanos, r2)) => match sdec_bytes(r2) {
        Some((chain_id, r3)) => match sdec_bytes(r3) {
        Some((contract_addr, r4)) => match sdec_opt_u64(r4) {
        Some((transaction_index, r5)) => Some((AbsEnv { block_height: block_height, block_time_nanos: block_time_nanos, chain_id: chain_id, contract_addr: contract_addr, transaction_index: transaction_index }, r5)),
        None => None,
    },
        None => None,
    },
        None => None,
    },
        None => None,
    },
        None => None,
    }
}

/// Reading back an encoded environment gives it and leaves the rest.
pub proof fn lemma_rt_env(v: AbsEnv, rest: Seq<u8>)
    ensures
        sdec_env(enc_env(v) + rest) == Some((v, rest)),
{
    reveal(enc_env);
    reveal(sdec_env);
    assert(enc_env(v) + rest =~= enc_u64(v.block_height) + (enc_u64(v.block_time_nanos) + (enc_bytes(v.chain_id) + (enc_bytes(v.contract_addr) + (enc_opt_u64(v.transaction_index) + (rest))))));
    lemma_rt_u64(v.block_height, enc_u64(v.block_time_nanos) + (enc_bytes(v.chain_id) + (enc_bytes(v.contract_addr) + (enc_opt_u64(v.transaction_index) + (rest)))));
    lemma_rt_u64(v.block_time_nanos, enc_bytes(v.chain_id) + (enc_bytes(v.contract_addr) + (enc_opt_u64(v.transaction_index) + (rest))));
    lemma_rt_bytes(v.chain_id, enc_bytes(v.contract_addr) + (enc_opt_u64(v.transaction_index) + (rest)));
    lemma_rt_bytes(v.contract_addr, enc_opt_u64(v.transaction_index) + (rest));
    lemma_rt_opt_u64(v.transaction_index, rest);
    assert((AbsEnv { block_height: v.block_height, block_time_nanos: v.block_time_nanos, chain_id: v.chain_id, contract_addr: v.contract_addr, transaction_index: v.transaction_index }) =~= v);
}

/// Append an encoded environment.
pub fn enc_env_push(out: &mut Vec<u8>, v: &Env)
    ensures
        final(out)@ == old(out)@ + enc_env(v@),
{
    enc_u64_push(out, v.block_height);
    enc_u64_push(out, v.block_time_nanos);
    enc_bytes_push(out, &v.chain_id);
    enc_bytes_push(out, &v.contract_addr);
    enc_opt_u64_push(out, &v.transaction_index);
    proof {
        reveal(enc_env);
        assert(out@ =~= old(out)@ + enc_env(v@));
    }
}

/// Read a environment at `pos`.
pub fn dec_env_at(s: &Vec<u8>, pos: usize) -> (r: Result<(Env, usize), CodecError>)
    requires
        pos <= s@.len(),
    ensures
        match r {
            Ok((v, p2)) => pos <= p2 <= s@.len() && sdec_env(s@.skip(pos as int)) == Some(
                (v@, s@.skip(p2 as int)),
            ),
            Err(_) => sdec_env(s@.skip(pos as int)) is None,
        },
{
    proof {
        reveal(sdec_env);
    }
    let (block_height, p1) = match dec_u64_at(s, pos) {
        Ok(x) => x,
        Err(e) => {
            return Err(e);
        },
    };
    let (block_time_nanos, p2) = match dec_u64_at(s, p1) {
        Ok(x) => x,
        Err(e) => {
            return Err(e);
        },
    };
    let (chain_id, p3) = match dec_bytes_at(s, p2) {
        Ok(x) => x,
        Err(e) => {
            return Err(e);
        },
    };
    let (contract_addr, p4) = match dec_bytes_at(s, p3) {
        Ok(x) => x,
        Err(e) => {
            return Err(e);
        },
    };
    let (transaction_index, p5) = match dec_opt_u64_at(s, p4) {
        Ok(x) => x,
        Err(e) => {
            return Err(e);
        },
    };
    let v = Env { block_height: block_height, block_time_nanos: block_time_nanos, chain_id: chain_id, contract_addr: contract_addr, transaction_index: transaction_index };
    proof {
        assert(v@ =~= (AbsEnv { block_height: block_height, block_time_nanos: block_time_nanos, chain_id: chain_id@, contract_addr: contract_addr@, transaction_index: transaction_index }));
    }
    Ok((v, p5))
}


/// Encoding of a event: its fields in order.
#[verifier::opaque]
pub open spec fn enc_event(v: AbsEvent) -> Seq<u8> {
    enc_bytes(v.ty) + enc_attr_list(v.attributes)
}

/// Decode a event, returning it and the rest.
#[verifier::opaque]
pub open spec fn sdec_event(s: Seq<u8>) -> Option<(AbsEvent, Seq<u8>)> {
    match sdec_bytes(s) {
        Some((ty, r1)) => match sdec_attr_list(r1) {
        Some((attributes, r2)) => Some((AbsEvent { ty: ty, attributes: attributes }, r2)),
        None => None,
    },
        None => None,
    }
}

/// Reading back an encoded event gives it and leaves the rest.
pub proof fn lemma_rt_event(v: AbsEvent, rest: Seq<u8>)
    ensures
        sdec_event(enc_event(v) + rest) == Some((v, rest)),
{
    reveal(enc_event);
    reveal(sdec_event);
    assert(enc_event(v) + rest =~= enc_bytes(v.ty) + (enc_attr_list(v.attributes) + (rest)));
    lemma_rt_bytes(v.ty, enc_attr_list(v.attributes) + (rest));
    lemma_rt_attr_list(v.attributes, rest);
    assert((AbsEvent { ty: v.ty, attributes: v.attributes }) =~= v);
}

/// Append an encoded event.
pub fn enc_event_push(out: &mut Vec<u8>, v: &Event)
    ensures
        final(out)@ == old(out)@ + enc_event(v@),
{
    enc_bytes_push(out, &v.ty);
    enc_attr_list_push(out, &v.attributes);
    proof {
        reveal(enc_event);
        assert(out@ =~= old(out)@ + enc_event(v@));
    }
}

/// Read a event at `pos`.
pub fn dec_event_at(s: &Vec<u8>, pos: usize) -> (r: Result<(Event, usize), CodecError>)
    requires
        pos <= s@.len(),
    ensures
        match r {
            Ok((v, p2)) => pos <= p2 <= s@.len() && sdec_event(s@.skip(pos as int)) == Some(
                (v@, s@.skip(p2 as int)),
            ),
            Err(_) => sdec_event(s@.skip(pos as int)) is None,
        },
{
    proof {
        reveal(sdec_event);
    }
    let (ty, p1) = match dec_bytes_at(s, pos) {
        Ok(x) => x,
        Err(e) => {
            return Err(e);
        },
    };
    let (attributes, p2) = match dec_attr_list_at(s, p1) {
        Ok(x) => x,
        Err(e) => {
            return Err(e);
        },
    };
    let v = Event { ty: ty, attributes: attributes };
    proof {
        assert(v@ =~= (AbsEvent { ty: ty@, attributes: attributes.deep_view() }));
    }
    Ok((v, p2))
}


/// Encoding of a message info: its fields in order.
#[verifier::opaque]
pub open spec fn enc_msginfo(v: AbsMessageInfo) -> Seq<u8> {
    enc_bytes(v.sender) + enc_coin_list(v.funds)
}

/// Decode a message info, returning it and the rest.
#[verifier::opaque]
pub open spec fn sdec_msginfo(s: Seq<u8>) -> Option<(AbsMessageInfo, Seq<u8>)> {
    match sdec_bytes(s) {
        Some((sender, r1)) => match sdec_coin_list(r1) {
        Some((funds, r2)) => Some((AbsMessageInfo { sender: sender, funds: funds }, r2)),
        None => None,
    },
        None => None,
    }
}

/// Reading back an encoded message info gives it and leaves the rest.
pub proof fn lemma_rt_msginfo(v: AbsMessageInfo, rest: Seq<u8>)
    ensures
        sdec_msginfo(enc_msginfo(v) + rest) == Some((v, rest)),
{
    reveal(enc_msginfo);
    reveal(sdec_msginfo);
    assert(enc_msginfo(v) + rest =~= enc_bytes(v.sender) + (enc_coin_list(v.funds) + (rest)));
    lemma_rt_bytes(v.sender, enc_coin_list(v.funds) + (rest));
    lemma_rt_coin_list(v.funds, rest);
    assert((AbsMessageInfo { sender: v.sender, funds: v.funds }) =~= v);
}

/// Append an encoded message info.
pub fn enc_msginfo_push(out: &mut Vec<u8>, v: &MessageInfo)
    ensures
        final(out)@ == old(out)@ + enc_msginfo(v@),
{
    enc_bytes_push(out, &v.sender);
    enc_coin_list_push(out, &v.funds);
    proof {
        reveal(enc_msginfo);
        assert(out@ =~= old(out)@ + enc_msginfo(v@));
    }
}

/// Read a message info at `pos`.
pub fn dec_msginfo_at(s: &Vec<u8>, pos: usize) -> (r: Result<(MessageInfo, usize), CodecError>)
    requires
        pos <= s@.len(),
    ensures
        match r {
            Ok((v, p2)) => pos <= p2 <= s@.len() && sdec_msginfo(s@.skip(pos as int)) == Some(
                (v@, s@.skip(p2 as int)),
            ),
            Err(_) => sdec_msginfo(s@.skip(pos as int)) is None,
        },
{
    proof {
        reveal(sdec_msginfo);
    }
    let (sender, p1) = match dec_bytes_at(s, pos) {
        Ok(x) => x,
        Err(e) => {
            return Err(e);
        },
    };
    let (funds, p2) = match dec_coin_list_at(s, p1) {
        Ok(x) => x,
        Err(e) => {
            return Err(e);
        },
    };
    let v = MessageInfo { sender: sender, funds: funds };
    proof {
        assert(v@ =~= (AbsMessageInfo { sender: sender@, funds: funds.deep_view() }));
    }
    Ok((v, p2))
}


/// Encoding of a sub-message response: its fields in order.
#[verifier::opaque]
pub open spec fn enc_submsg_response(v: AbsSubMsgResponse) -> Seq<u8> {
    enc_event_list(v.events) + enc_opt_bytes(v.data)
}

/// Decode a sub-message response, returning it and the rest.
#[verifier::opaque]
pub open spec fn sdec_submsg_response(s: Seq<u8>) -> Option<(AbsSubMsgResponse, Seq<u8>)> {
    match sdec_event_list(s) {
        Some((events, r1)) => match sdec_opt_bytes(r1) {
        Some((data, r2)) => Some((AbsSubMsgResponse { events: events, data: data }, r2)),
        None => None,
    },
        None => None,
    }
}

/// Reading back an encoded sub-message response gives it and leaves the rest.
pub proof fn lemma_rt_submsg_response(v: AbsSubMsgResponse, rest: Seq<u8>)
    ensures
        sdec_submsg_response(enc_submsg_response(v) + rest) == Some((v, rest)),
{
    reveal(enc_submsg_response);
    reveal(sdec_submsg_response);
    assert(enc_submsg_response(v) + rest =~= enc_event_list(v.events) + (enc_opt_bytes(v.data) + (rest)));
    lemma_rt_event_list(v.events, enc_opt_bytes(v.data) + (rest));
    lemma_rt_opt_bytes(v.data, rest);
    assert((AbsSubMsgResponse { events: v.events, data: v.data }) =~= v);
}

/// Append an encoded sub-message response.
pub fn enc_submsg_response_push(out: &mut Vec<u8>, v: &SubMsgResponse)
    ensures
        final(out)@ == old(out)@ + enc_submsg_response(v@),
{
    enc_event_list_push(out, &v.events);
    enc_opt_bytes_push(out, &v.data);
    proof {
        reveal(enc_submsg_response);
        assert(out@ =~= old(out)@ + enc_submsg_response(v@));
    }
}

/// Read a sub-message response at `pos`.
pub fn dec_submsg_response_at(s: &Vec<u8>, pos: usize) -> (r: Result<(SubMsgResponse, usize), CodecError>)
    requires
        pos <= s@.len(),
    ensures
        match r {
            Ok((v, p2)) => pos <= p2 <= s@.len() && sdec_submsg_response(s@.skip(pos as int)) == Some(
                (v@, s@.skip(p2 as int)),
            ),
            Err(_) => sdec_submsg_response(s@.skip(pos as int)) is None,
        },
{
    proof {
        reveal(sdec_submsg_response);
    }
    let (events, p1) = match dec_event_list_at(s, pos) {
        Ok(x) => x,
        Err(e) => {
            return Err(e);
        },
    };
    let (data, p2) = match dec_opt_bytes_at(s, p1) {
        Ok(x) => x,
        Err(e) => {
            return Err(e);
        },
    };
    let v = SubMsgResponse { events: events, data: data };
    proof {
        assert(v@ =~= (AbsSubMsgResponse { events: events.deep_view(), data: opt_bytes_view(&data) }));
    }
    Ok((v, p2))
}


/// Encoding of a reply payload: its fields in order.
#[verifier::opaque]
pub open spec fn enc_reply(v: AbsReply) -> Seq<u8> {
    enc_u64(v.id) + enc_submsg_result(v.result)
}

/// Decode a reply payload, returning it and the rest.
#[verifier::opaque]
pub open spec fn sdec_reply(s: Seq<u8>) -> Option<(AbsReply, Seq<u8>)> {
    match sdec_u64(s) {
        Some((id, r1)) => match sdec_submsg_result(r1) {
        Some((result, r2)) => Some((AbsReply { id: id, result: result }, r2)),
        None => None,
    },
        None => None,
    }
}

/// Reading back an encoded reply payload gives it and leaves the rest.
pub proof fn lemma_rt_reply(v: AbsReply, rest: Seq<u8>)
    ensures
        sdec_reply(enc_reply(v) + rest) == Some((v, rest)),
{
    reveal(enc_reply);
    reveal(sdec_reply);
    assert(enc_reply(v) + rest =~= enc_u64(v.id) + (enc_submsg_result(v.result) + (rest)));
    lemma_rt_u64(v.id, enc_submsg_result(v.result) + (rest));
    lemma_rt_submsg_result(v.result, rest);
    assert((AbsReply { id: v.id, result: v.result }) =~= v);
}

/// Append an encoded reply payload.
pub fn enc_reply_push(out: &mut Vec<u8>, v: &Reply)
    ensures
        final(out)@ == old(out)@ + enc_reply(v@),
{
    enc_u64_push(out, v.id);
    enc_submsg_result_push(out, &v.result);
    proof {
        reveal(enc_reply);
        assert(out@ =~= old(out)@ + enc_reply(v@));
    }
}

/// Read a reply payload at `pos`.
pub fn dec_reply_at(s: &Vec<u8>, pos: usize) -> (r: Result<(Reply, usize), CodecError>)
    requires
        pos <= s@.len(),
    ensures
        match r {
            Ok((v, p2)) => pos <= p2 <= s@.len() && sdec_reply(s@.skip(pos as int)) == Some(
                (v@, s@.skip(p2 as int)),
            ),
            Err(_) => sdec_reply(s@.skip(pos as int)) is None,
        },
{
    proof {
        reveal(sdec_reply);
    }
    let (id, p1) = match dec_u64_at(s, pos) {
        Ok(x) => x,
        Err(e) => {
            return Err(e);
        },
    };
    let (result, p2) = match dec_submsg_result_at(s, p1) {
        Ok(x) => x,
        Err(e) => {
            return Err(e);
        },
    };
    let v = Reply { id: id, result: result };
    proof {
        assert(v@ =~= (AbsReply { id: id, result: result@ }));
    }
    Ok((v, p2))
}


/// Encoding of a sub-message: its fields in order.
#[verifier::opaque]
pub open spec fn enc_submsg(v: AbsSubMsg) -> Seq<u8> {
    enc_u64(v.id) + enc_cosmos_msg(v.msg) + enc_opt_u64(v.gas_limit) + enc_reply_on(v.reply_on)
}

/// Decode a sub-message, returning it and the rest.
#[verifier::opaque]
pub open spec fn sdec_submsg(s: Seq<u8>) -> Option<(AbsSubMsg, Seq<u8>)> {
    match sdec_u64(s) {
        Some((id, r1)) => match sdec_cosmos_msg(r1) {
        Some((msg, r2)) => match sdec_opt_u64(r2) {
        Some((gas_limit, r3)) => match sdec_reply_on(r3) {
        Some((reply_on, r4)) => Some((AbsSubMsg { id: id, msg: msg, gas_limit: gas_limit, reply_on: reply_on }, r4)),
        None => None,
    },
        None => None,
    },
        None => None,
    },
        None => None,
    }
}

/// Reading back an encoded sub-message gives it and leaves the rest.
#[verifier::spinoff_prover]
#[verifier::rlimit(50)]
pub proof fn lemma_rt_submsg(v: AbsSubMsg, rest: Seq<u8>)
    ensures
        sdec_submsg(enc_submsg(v) + rest) == Some((v, rest)),
{
    reveal(enc_submsg);
    reveal(sdec_submsg);
    assert(enc_submsg(v) + rest =~= enc_u64(v.id) + (enc_cosmos_msg(v.msg) + (enc_opt_u64(v.gas_limit) + (enc_reply_on(v.reply_on) + (rest)))));
    lemma_rt_u64(v.id, enc_cosmos_msg(v.msg) + (enc_opt_u64(v.gas_limit) + (enc_reply_on(v.reply_on) + (rest))));
    lemma_rt_cosmos_msg(v.msg, enc_opt_u64(v.gas_limit) + (enc_reply_on(v.reply_on) + (rest)));
    lemma_rt_opt_u64(v.gas_limit, enc_reply_on(v.reply_on) + (rest));
    lemma_rt_reply_on(v.reply_on, rest);
    assert((AbsSubMsg { id: v.id, msg: v.msg, gas_limit: v.gas_limit, reply_on: v.reply_on }) =~= v);
}

/// Append an encoded sub-message.
pub fn enc_submsg_push(out: &mut Vec<u8>, v: &SubMsg)
    ensures
        final(out)@ == old(out)@ + enc_submsg(v@),
{
    enc_u64_push(out, v.id);
    enc_cosmos_msg_push(out, &v.msg);
    enc_opt_u64_push(out, &v.gas_limit);
    enc_reply_on_push(out, &v.reply_on);
    proof {
        reveal(enc_submsg);
        assert(out@ =~= old(out)@ + enc_submsg(v@));
    }
}

/// Read a sub-message at `pos`.
pub fn dec_submsg_at(s: &Vec<u8>, pos: usize) -> (r: Result<(SubMsg, usize), CodecError>)
    requires
        pos <= s@.len(),
    ensures
        match r {
            Ok((v, p2)) => pos <= p2 <= s@.len() && sdec_submsg(s@.skip(pos as int)) == Some(
                (v@, s@.skip(p2 as int)),
            ),
            Err(_) => sdec_submsg(s@.skip(pos as int)) is None,
        },
{
    proof {
        reveal(sdec_submsg);
    }
    let (id, p1) = match dec_u64_at(s, pos) {
        Ok(x) => x,
        Err(e) => {
            return Err(e);
        },
    };
    let (msg, p2) = match dec_cosmos_msg_at(s, p1) {
        Ok(x) => x,
        Err(e) => {
            return Err(e);
        },
    };
    let (gas_limit, p3) = match dec_opt_u64_at(s, p2) {
        Ok(x) => x,
        Err(e) => {
            return Err(e);
        },
    };
    let (reply_on, p4) = match dec_reply_on_at(s, p3) {
        Ok(x) => x,
        Err(e) => {
            return Err(e);
        },
    };
    let v = SubMsg { id: id, msg: msg, gas_limit: gas_limit, reply_on: reply_on };
    proof {
        assert(v@ =~= (AbsSubMsg { id: id, msg: msg@, gas_limit: gas_limit, reply_on: reply_on }));
    }
    Ok((v, p4))
}


/// Encoding of a contract response: its fields in order.
#[verifier::opaque]
pub open spec fn enc_response(v: AbsContractResponse) -> Seq<u8> {
    enc_submsg_list(v.messages) + enc_attr_list(v.attributes) + enc_event_list(v.events) + enc_opt_bytes(v.data)
}

/// Decode a contract response, returning it and the rest.
#[verifier::opaque]
pub open spec fn sdec_response(s: Seq<u8>) -> Option<(AbsContractResponse, Seq<u8>)> {
    match sdec_submsg_list(s) {
        Some((messages, r1)) => match sdec_attr_list(r1) {
        Some((attributes, r2)) => match sdec_event_list(r2) {
        Some((events, r3)) => match sdec_opt_bytes(r3) {
        Some((data, r4)) => Some((AbsContractResponse { messages: messages, attributes: attributes, events: events, data: data }, r4)),
        None => None,
    },
        None => None,
    },
        None => None,
    },
        None => None,
    }
}

/// Reading back an encoded contract response gives it and leaves the rest.
pub proof fn lemma_rt_response(v: AbsContractResponse, rest: Seq<u8>)
    ensures
        sdec_response(enc_response(v) + rest) == Some((v, rest)),
{
    reveal(enc_response);
    reveal(sdec_response);
    assert(enc_response(v) + rest =~= enc_submsg_list(v.messages) + (enc_attr_list(v.attributes) + (enc_event_list(v.events) + (enc_opt_bytes(v.data) + (rest)))));
    lemma_rt_submsg_list(v.messages, enc_attr_list(v.attributes) + (enc_event_list(v.events) + (enc_opt_bytes(v.data) + (rest))));
    lemma_rt_attr_list(v.attributes, enc_event_list(v.events) + (enc_opt_bytes(v.data) + (rest)));
    lemma_rt_event_list(v.events, enc_opt_bytes(v.data) + (rest));
    lemma_rt_opt_bytes(v.data, rest);
    assert((AbsContractResponse { messages: v.messages, attributes: v.attributes, events: v.events, data: v.data }) =~= v);
}

/// Append an encoded contract response.
pub fn enc_response_push(out: &mut Vec<u8>, v: &ContractResponse)
    ensures
        final(out)@ == old(out)@ + enc_response(v@),
{
    enc_submsg_list_push(out, &v.messages);
    enc_attr_list_push(out, &v.attributes);
    enc_event_list_push(out, &v.events);
    enc_opt_bytes_push(out, &v.data);
    proof {
        reveal(enc_response);
        assert(out@ =~= old(out)@ + enc_response(v@));
    }
}

/// Read a contract response at `pos`.
pub fn dec_response_at(s: &Vec<u8>, pos: usize) -> (r: Result<(ContractResponse, usize), CodecError>)
    requires
        pos <= s@.len(),
    ensures
        match r {
            Ok((v, p2)) => pos <= p2 <= s@.len() && sdec_response(s@.skip(pos as int)) == Some(
                (v@, s@.skip(p2 as int)),
            ),
            Err(_) => sdec_response(s@.skip(pos as int)) is None,
        },
{
    proof {
        reveal(sdec_response);
    }
    let (messages, p1) = match dec_submsg_list_at(s, pos) {
        Ok(x) => x,
        Err(e) => {
            return Err(e);
        },
    };
    let (attributes, p2) = match dec_attr_list_at(s, p1) {
        Ok(x) => x,
        Err(e) => {
            return Err(e);
        },
    };
    let (events, p3) = match dec_event_list_at(s, p2) {
        Ok(x) => x,
        Err(e) => {
            return Err(e);
        },
    };
    let (data, p4) = match dec_opt_bytes_at(s, p3) {
        Ok(x) => x,
        Err(e) => {
            return Err(e);
        },
    };
    let v = ContractResponse { messages: messages, attributes: attributes, events: events, data: data };
    proof {
        assert(v@ =~= (AbsContractResponse { messages: messages.deep_view(), attributes: attributes.deep_view(), events: events.deep_view(), data: opt_bytes_view(&data) }));
    }
    Ok((v, p4))
}


/// Encoding of a wasm snapshot: its fields in order.
#[verifier::opaque]
pub open spec fn enc_wasm_snapshot(v: AbsWasmStorage) -> Seq<u8> {
    enc_contract_row_list(v.contracts) + enc_code_row_list(v.codes) + enc_kv_list(v.storage)
}

/// Decode a wasm snapshot, returning it and the rest.
#[verifier::opaque]
pub open spec fn sdec_wasm_snapshot(s: Seq<u8>) -> Option<(AbsWasmStorage, Seq<u8>)> {
    match sdec_contract_row_list(s) {
        Some((contracts, r1)) => match sdec_code_row_list(r1) {
        Some((codes, r2)) => match sdec_kv_list(r2) {
        Some((storage, r3)) => Some((AbsWasmStorage { contracts: contracts, codes: codes, storage: storage }, r3)),
        None => None,
    },
        None => None,
    },
        None => None,
    }
}

/// Reading back an encoded wasm snapshot gives it and leaves the rest.
pub proof fn lemma_rt_wasm_snapshot(v: AbsWasmStorage, rest: Seq<u8>)
    ensures
        sdec_wasm_snapshot(enc_wasm_snapshot(v) + rest) == Some((v, rest)),
{
    reveal(enc_wasm_snapshot);
    reveal(sdec_wasm_snapshot);
    assert(enc_wasm_snapshot(v) + rest =~= enc_contract_row_list(v.contracts) + (enc_code_row_list(v.codes) + (enc_kv_list(v.storage) + (rest))));
    lemma_rt_contract_row_list(v.contracts, enc_code_row_list(v.codes) + (enc_kv_list(v.storage) + (rest)));
    lemma_rt_code_row_list(v.codes, enc_kv_list(v.storage) + (rest));
    lemma_rt_kv_list(v.storage, rest);
    assert((AbsWasmStorage { contracts: v.contracts, codes: v.codes, storage: v.storage }) =~= v);
}

/// Append an encoded wasm snapshot.
pub fn enc_wasm_snapshot_push(out: &mut Vec<u8>, v: &WasmStorage)
    ensures
        final(out)@ == old(out)@ + enc_wasm_snapshot(v@),
{
    enc_contract_row_list_push(out, &v.contracts);
    enc_code_row_list_push(out, &v.codes);
    enc_kv_list_push(out, &v.storage);
    proof {
        reveal(enc_wasm_snapshot);
        assert(out@ =~= old(out)@ + enc_wasm_snapshot(v@));
    }
}

/// Read a wasm snapshot at `pos`.
pub fn dec_wasm_snapshot_at(s: &Vec<u8>, pos: usize) -> (r: Result<(WasmStorage, usize), CodecError>)
    requires
        pos <= s@.len(),
    ensures
        match r {
            Ok((v, p2)) => pos <= p2 <= s@.len() && sdec_wasm_snapshot(s@.skip(pos as int)) == Some(
                (v@, s@.skip(p2 as int)),
            ),
            Err(_) => sdec_wasm_snapshot(s@.skip(pos as int)) is None,
        },
{
    proof {
        reveal(sdec_wasm_snapshot);
    }
    let (contracts, p1) = match dec_contract_row_list_at(s, pos) {
        Ok(x) => x,
        Err(e) => {
            return Err(e);
        },
    };
    let (codes, p2) = match dec_code_row_list_at(s, p1) {
        Ok(x) => x,
        Err(e) => {
            return Err(e);
        },
    };
    let (storage, p3) = match dec_kv_list_at(s, p2) {
        Ok(x) => x,
        Err(e) => {
            return Err(e);
        },
    };
    let v = WasmStorage { contracts: contracts, codes: codes, storage: storage };
    proof {
        assert(v@ =~= (AbsWasmStorage { contracts: contracts.deep_view(), codes: codes.deep_view(), storage: storage.deep_view() }));
    }
    Ok((v, p3))
}


/// Encoding of a bank snapshot: its fields in order.
#[verifier::opaque]
pub open spec fn enc_bank_snapshot(v: AbsBankStorage) -> Seq<u8> {
    enc_bank_row_list(v.storage)
}

/// Decode a bank snapshot, returning it and the rest.
#[verifier::opaque]
pub open spec fn sdec_bank_snapshot(s: Seq<u8>) -> Option<(AbsBankStorage, Seq<u8>)> {
    match sdec_bank_row_list(s) {
        Some((storage, r1)) => Some((AbsBankStorage { storage: storage }, r1)),
        None => None,
    }
}

/// Reading back an encoded bank snapshot gives it and leaves the rest.
pub proof fn lemma_rt_bank_snapshot(v: AbsBankStorage, rest: Seq<u8>)
    ensures
        sdec_bank_snapshot(enc_bank_snapshot(v) + rest) == Some((v, rest)),
{
    reveal(enc_bank_snapshot);
    reveal(sdec_bank_snapshot);
    assert(enc_bank_snapshot(v) + rest =~= enc_bank_row_list(v.storage) + (rest));
    lemma_rt_bank_row_list(v.storage, rest);
    assert((AbsBankStorage { storage: v.storage }) =~= v);
}

/// Append an encoded bank snapshot.
pub fn enc_bank_snapshot_push(out: &mut Vec<u8>, v: &BankStorage)
    ensures
        final(out)@ == old(out)@ + enc_bank_snapshot(v@),
{
    enc_bank_row_list_push(out, &v.storage);
    proof {
        reveal(enc_bank_snapshot);
        assert(out@ =~= old(out)@ + enc_bank_snapshot(v@));
    }
}

/// Read a bank snapshot at `pos`.
pub fn dec_bank_snapshot_at(s: &Vec<u8>, pos: usize) -> (r: Result<(BankStorage, usize), CodecError>)
    requires
        pos <= s@.len(),
    ensures
        match r {
            Ok((v, p2)) => pos <= p2 <= s@.len() && sdec_bank_snapshot(s@.skip(pos as int)) == Some(
                (v@, s@.skip(p2 as int)),
            ),
            Err(_) => sdec_bank_snapshot(s@.skip(pos as int)) is None,
        },
{
    proof {
        reveal(sdec_bank_snapshot);
    }
    let (storage, p1) = match dec_bank_row_list_at(s, pos) {
        Ok(x) => x,
        Err(e) => {
            return Err(e);
        },
    };
    let v = BankStorage { storage: storage };
    proof {
        assert(v@ =~= (AbsBankStorage { storage: storage.deep_view() }));
    }
    Ok((v, p1))
}


/// Encoding of a querier snapshot: its fields in order.
#[verifier::opaque]
pub open spec fn enc_querier(v: AbsQuerierStorage) -> Seq<u8> {
    enc_wasm_snapshot(v.wasm) + enc_bank_snapshot(v.bank)
}

/// Decode a querier snapshot, returning it and the rest.
#[verifier::opaque]
pub open spec fn sdec_querier(s: Seq<u8>) -> Option<(AbsQuerierStorage, Seq<u8>)> {
    match sdec_wasm_snapshot(s) {
        Some((wasm, r1)) => match sdec_bank_snapshot(r1) {
        Some((bank, r2)) => Some((AbsQuerierStorage { wasm: wasm, bank: bank }, r2)),
        None => None,
    },
        None => None,
    }
}

/// Reading back an encoded querier snapshot gives it and leaves the rest.
pub proof fn lemma_rt_querier(v: AbsQuerierStorage, rest: Seq<u8>)
    ensures
        sdec_querier(enc_querier(v) + rest) == Some((v, rest)),
{
    reveal(enc_querier);
    reveal(sdec_querier);
    assert(enc_querier(v) + rest =~= enc_wasm_snapshot(v.wasm) + (enc_bank_snapshot(v.bank) + (rest)));
    lemma_rt_wasm_snapshot(v.wasm, enc_bank_snapshot(v.bank) + (rest));
    lemma_rt_bank_snapshot(v.bank, rest);
    assert((AbsQuerierStorage { wasm: v.wasm, bank: v.bank }) =~= v);
}

/// Append an encoded querier snapshot.
pub fn enc_querier_push(out: &mut Vec<u8>, v: &QuerierStorage)
    ensures
        final(out)@ == old(out)@ + enc_querier(v@),
{
    enc_wasm_snapshot_push(out, &v.wasm);
    enc_bank_snapshot_push(out, &v.bank);
    proof {
        reveal(enc_querier);
        assert(out@ =~= old(out)@ + enc_querier(v@));
    }
}

/// Read a querier snapshot at `pos`.
pub fn dec_querier_at(s: &Vec<u8>, pos: usize) -> (r: Result<(QuerierStorage, usize), CodecError>)
    requires
        pos <= s@.len(),
    ensures
        match r {
            Ok((v, p2)) => pos <= p2 <= s@.len() && sdec_querier(s@.skip(pos as int)) == Some(
                (v@, s@.skip(p2 as int)),
            ),
            Err(_) => sdec_querier(s@.skip(pos as int)) is None,
        },
{
    proof {
        reveal(sdec_querier);
    }
    let (wasm, p1) = match dec_wasm_snapshot_at(s, pos) {
        Ok(x) => x,
        Err(e) => {
            return Err(e);
        },
    };
    let (bank, p2) = match dec_bank_snapshot_at(s, p1) {
        Ok(x) => x,
        Err(e) => {
            return Err(e);
        },
    };
    let v = QuerierStorage { wasm: wasm, bank: bank };
    proof {
        assert(v@ =~= (AbsQuerierStorage { wasm: wasm@, bank: bank@ }));
    }
    Ok((v, p2))
}


/// Encoding of a storage delta: its fields in order.
#[verifier::opaque]
pub open spec fn enc_storage_changes(v: AbsStorageChanges) -> Seq<u8> {
    enc_kv_list(v.current_keys) + enc_key_list(v.removed_keys)
}

/// Decode a storage delta, returning it and the rest.
#[verifier::opaque]
pub open spec fn sdec_storage_changes(s: Seq<u8>) -> Option<(AbsStorageChanges, Seq<u8>)> {
    match sdec_kv_list(s) {
        Some((current_keys, r1)) => match sdec_key_list(r1) {
        Some((removed_keys, r2)) => Some((AbsStorageChanges { current_keys: current_keys, removed_keys: removed_keys }, r2)),
        None => None,
    },
        None => None,
    }
}

/// Reading back an encoded storage delta gives it and leaves the rest.
pub proof fn lemma_rt_storage_changes(v: AbsStorageChanges, rest: Seq<u8>)
    ensures
        sdec_storage_changes(enc_storage_changes(v) + rest) == Some((v, rest)),
{
    reveal(enc_storage_changes);
    reveal(sdec_storage_changes);
    assert(enc_storage_changes(v) + rest =~= enc_kv_list(v.current_keys) + (enc_key_list(v.removed_keys) + (rest)));
    lemma_rt_kv_list(v.current_keys, enc_key_list(v.removed_keys) + (rest));
    lemma_rt_key_list(v.removed_keys, rest);
    assert((AbsStorageChanges { current_keys: v.current_keys, removed_keys: v.removed_keys }) =~= v);
}

/// Append an encoded storage delta.
pub fn enc_storage_changes_push(out: &mut Vec<u8>, v: &StorageChanges)
    ensures
        final(out)@ == old(out)@ + enc_storage_changes(v@),
{
    enc_kv_list_push(out, &v.current_keys);
    enc_key_list_push(out, &v.removed_keys);
    proof {
        reveal(enc_storage_changes);
        assert(out@ =~= old(out)@ + enc_storage_changes(v@));
    }
}

/// Read a storage delta at `pos`.
pub fn dec_storage_changes_at(s: &Vec<u8>, pos: usize) -> (r: Result<(StorageChanges, usize), CodecError>)
    requires
        pos <= s@.len(),
    ensures
        match r {
            Ok((v, p2)) => pos <= p2 <= s@.len() && sdec_storage_changes(s@.skip(pos as int)) == Some(
                (v@, s@.skip(p2 as int)),
            ),
            Err(_) => sdec_storage_changes(s@.skip(pos as int)) is None,
        },
{
    proof {
        reveal(sdec_storage_changes);
    }
    let (current_keys, p1) = match dec_kv_list_at(s, pos) {
        Ok(x) => x,
        Err(e) => {
            return Err(e);
        },
    };
    let (removed_keys, p2) = match dec_key_list_at(s, p1) {
        Ok(x) => x,
        Err(e) => {
            return Err(e);
        },
    };
    let v = StorageChanges { current_keys: current_keys, removed_keys: removed_keys };
    proof {
        assert(v@ =~= (AbsStorageChanges { current_keys: current_keys.deep_view(), removed_keys: removed_keys.deep_view() }));
    }
    Ok((v, p2))
}

/// Encoding of a bytecode reference: a tag byte, then the variant's fields.
#[verifier::opaque]
pub open spec fn enc_wasm_contract(v: AbsWasmContract) -> Seq<u8> {
    match v {
        AbsWasmContract::Local(code, chain) => seq![0u8] + enc_bytes(code) + enc_chain(chain),
        AbsWasmContract::DistantContract(addr, chain) => seq![1u8] + enc_bytes(addr) + enc_chain(chain),
        AbsWasmContract::DistantCodeId(code_id, chain) => seq![2u8] + enc_u64(code_id) + enc_chain(chain),
    }
}

/// Decode a bytecode reference, returning it and the rest.
#[verifier::opaque]
pub open spec fn sdec_wasm_contract(s: Seq<u8>) -> Option<(AbsWasmContract, Seq<u8>)> {
    match sdec_u8(s) {
        Some((tag, r0)) => if tag == 0 {
        match sdec_bytes(r0) {
            Some((code, r1)) => match sdec_chain(r1) {
            Some((chain, r2)) => Some((AbsWasmContract::Local(code, chain), r2)),
            None => None,
        },
            None => None,
        }
    } else { if tag == 1 {
        match sdec_bytes(r0) {
            Some((addr, r1)) => match sdec_chain(r1) {
            Some((chain, r2)) => Some((AbsWasmContract::DistantContract(addr, chain), r2)),
            None => None,
        },
            None => None,
        }
    } else { if tag == 2 {
        match sdec_u64(r0) {
            Some((code_id, r1)) => match sdec_chain(r1) {
            Some((chain, r2)) => Some((AbsWasmContract::DistantCodeId(code_id, chain), r2)),
            None => None,
        },
            None => None,
        }
    } else { None } } },
        None => None,
    }
}

/// Reading back an encoded bytecode reference gives it and leaves the rest.
pub proof fn lemma_rt_wasm_contract(v: AbsWasmContract, rest: Seq<u8>)
    ensures
        sdec_wasm_contract(enc_wasm_contract(v) + rest) == Some((v, rest)),
{
    reveal(enc_wasm_contract);
    reveal(sdec_wasm_contract);
    match v {
        AbsWasmContract::Local(code, chain) => {
            assert(enc_wasm_contract(v) + rest =~= seq![0u8] + (enc_bytes(code) + (enc_chain(chain) + (rest))));
            lemma_rt_u8(0u8, enc_bytes(code) + (enc_chain(chain) + (rest)));
            lemma_rt_bytes(code, enc_chain(chain) + (rest));
            lemma_rt_chain(chain, rest);
        },
        AbsWasmContract::DistantContract(addr, chain) => {
            assert(enc_wasm_contract(v) + rest =~= seq![1u8] + (enc_bytes(addr) + (enc_chain(chain) + (rest))));
            lemma_rt_u8(1u8, enc_bytes(addr) + (enc_chain(chain) + (rest)));
            lemma_rt_bytes(addr, enc_chain(chain) + (rest));
            lemma_rt_chain(chain, rest);
        },
        AbsWasmContract::DistantCodeId(code_id, chain) => {
            assert(enc_wasm_contract(v) + rest =~= seq![2u8] + (enc_u64(code_id) + (enc_chain(chain) + (rest))));
            lemma_rt_u8(2u8, enc_u64(code_id) + (enc_chain(chain) + (rest)));
            lemma_rt_u64(code_id, enc_chain(chain) + (rest));
            lemma_rt_chain(chain, rest);
        },
    }
}

/// Append an encoded bytecode reference.
pub fn enc_wasm_contract_push(out: &mut Vec<u8>, v: &WasmContract)
    ensures
        final(out)@ == old(out)@ + enc_wasm_contract(v@),
{
    match v {
        WasmContract::Local(c) => {
            enc_u8_push(out, 0);
            enc_bytes_push(out, &c.code);
            enc_chain_push(out, &c.chain);
            proof {
                reveal(enc_wasm_contract);
                assert(out@ =~= old(out)@ + enc_wasm_contract(v@));
            }
        },
        WasmContract::DistantContract(c) => {
            enc_u8_push(out, 1);
            enc_bytes_push(out, &c.contract_addr);
            enc_chain_push(out, &c.chain);
            proof {
                reveal(enc_wasm_contract);
                assert(out@ =~= old(out)@ + enc_wasm_contract(v@));
            }
        },
        WasmContract::DistantCodeId(c) => {
            enc_u8_push(out, 2);
            enc_u64_push(out, c.code_id);
            enc_chain_push(out, &c.chain);
            proof {
                reveal(enc_wasm_contract);
                assert(out@ =~= old(out)@ + enc_wasm_contract(v@));
            }
        },
    }
}

/// Read a bytecode reference at `pos`.
pub fn dec_wasm_contract_at(s: &Vec<u8>, pos: usize) -> (r: Result<(WasmContract, usize), CodecError>)
    requires
        pos <= s@.len(),
    ensures
        match r {
            Ok((v, p2)) => pos <= p2 <= s@.len() && sdec_wasm_contract(s@.skip(pos as int)) == Some(
                (v@, s@.skip(p2 as int)),
            ),
            Err(_) => sdec_wasm_contract(s@.skip(pos as int)) is None,
        },
{
    proof {
        reveal(sdec_wasm_contract);
    }
    let (tag, p0) = match dec_u8_at(s, pos) {
        Ok(x) => x,
        Err(e) => {
            return Err(e);
        },
    };
    if tag == 0 {
        let (code, p1) = match dec_bytes_at(s, p0) {
            Ok(x) => x,
            Err(e) => {
                return Err(e);
            },
        };
        let (chain, p2) = match dec_chain_at(s, p1) {
            Ok(x) => x,
            Err(e) => {
                return Err(e);
            },
        };
        let v = WasmContract::Local(LocalContract { code, chain });
        proof {
            assert(v@ =~= (AbsWasmContract::Local(code@, chain@)));
        }
        Ok((v, p2))
    } else
    if tag == 1 {
        let (addr, p1) = match dec_bytes_at(s, p0) {
            Ok(x) => x,
            Err(e) => {
                return Err(e);
            },
        };
        let (chain, p2) = match dec_chain_at(s, p1) {
            Ok(x) => x,
            Err(e) => {
                return Err(e);
            },
        };
        let v = WasmContract::DistantContract(DistantContract { contract_addr: addr, chain });
        proof {
            assert(v@ =~= (AbsWasmContract::DistantContract(addr@, chain@)));
        }
        Ok((v, p2))
    } else
    if tag == 2 {
        let (code_id, p1) = match dec_u64_at(s, p0) {
            Ok(x) => x,
            Err(e) => {
                return Err(e);
            },
        };
        let (chain, p2) = match dec_chain_at(s, p1) {
            Ok(x) => x,
            Err(e) => {
                return Err(e);
            },
        };
        let v = WasmContract::DistantCodeId(DistantCodeId { code_id, chain });
        proof {
            assert(v@ =~= (AbsWasmContract::DistantCodeId(code_id, chain@)));
        }
        Ok((v, p2))
    } else {
        Err(CodecError::ProtocolMismatch)
    }
}


/// Encoding of a sub-message result: a tag byte, then the variant's fields.
#[verifier::opaque]
pub open spec fn enc_submsg_result(v: AbsSubMsgResult) -> Seq<u8> {
    match v {
        AbsSubMsgResult::Success(resp) => seq![0u8] + enc_submsg_response(resp),
        AbsSubMsgResult::Failure(err) => seq![1u8] + enc_bytes(err),
    }
}

/// Decode a sub-message result, returning it and the rest.
#[verifier::opaque]
pub open spec fn sdec_submsg_result(s: Seq<u8>) -> Option<(AbsSubMsgResult, Seq<u8>)> {
    match sdec_u8(s) {
        Some((tag, r0)) => if tag == 0 {
        match sdec_submsg_response(r0) {
            Some((resp, r1)) => Some((AbsSubMsgResult::Success(resp), r1)),
            None => None,
        }
    } else { if tag == 1 {
        match sdec_bytes(r0) {
            Some((err, r1)) => Some((AbsSubMsgResult::Failure(err), r1)),
            None => None,
        }
    } else { None } },
        None => None,
    }
}

/// Reading back an encoded sub-message result gives it and leaves the rest.
pub proof fn lemma_rt_submsg_result(v: AbsSubMsgResult, rest: Seq<u8>)
    ensures
        sdec_submsg_result(enc_submsg_result(v) + rest) == Some((v, rest)),
{
    reveal(enc_submsg_result);
    reveal(sdec_submsg_result);
    match v {
        AbsSubMsgResult::Success(resp) => {
            assert(enc_submsg_result(v) + rest =~= seq![0u8] + (enc_submsg_response(resp) + (rest)));
            lemma_rt_u8(0u8, enc_submsg_response(resp) + (rest));
            lemma_rt_submsg_response(resp, rest);
        },
        AbsSubMsgResult::Failure(err) => {
            assert(enc_submsg_result(v) + rest =~= seq![1u8] + (enc_bytes(err) + (rest)));
            lemma_rt_u8(1u8, enc_bytes(err) + (rest));
            lemma_rt_bytes(err, rest);
        },
    }
}

/// Append an encoded sub-message result.
pub fn enc_submsg_result_push(out: &mut Vec<u8>, v: &SubMsgResult)
    ensures
        final(out)@ == old(out)@ + enc_submsg_result(v@),
{
    match v {
        SubMsgResult::Success(x) => {
            enc_u8_push(out, 0);
            enc_submsg_response_push(out, &x);
            proof {
                reveal(enc_submsg_result);
                assert(out@ =~= old(out)@ + enc_submsg_result(v@));
            }
        },
        SubMsgResult::Failure(x) => {
            enc_u8_push(out, 1);
            enc_bytes_push(out, &x);
            proof {
                reveal(enc_submsg_result);
                assert(out@ =~= old(out)@ + enc_submsg_result(v@));
            }
        },
    }
}

/// Read a sub-message result at `pos`.
pub fn dec_submsg_result_at(s: &Vec<u8>, pos: usize) -> (r: Result<(SubMsgResult, usize), CodecError>)
    requires
        pos <= s@.len(),
    ensures
        match r {
            Ok((v, p2)) => pos <= p2 <= s@.len() && sdec_submsg_result(s@.skip(pos as int)) == Some(
                (v@, s@.skip(p2 as int)),
            ),
            Err(_) => sdec_submsg_result(s@.skip(pos as int)) is None,
        },
{
    proof {
        reveal(sdec_submsg_result);
    }
    let (tag, p0) = match dec_u8_at(s, pos) {
        Ok(x) => x,
        Err(e) => {
            return Err(e);
        },
    };
    if tag == 0 {
        let (resp, p1) = match dec_submsg_response_at(s, p0) {
            Ok(x) => x,
            Err(e) => {
                return Err(e);
            },
        };
        let v = SubMsgResult::Success(resp);
        proof {
            assert(v@ =~= (AbsSubMsgResult::Success(resp@)));
        }
        Ok((v, p1))
    } else
    if tag == 1 {
        let (err, p1) = match dec_bytes_at(s, p0) {
            Ok(x) => x,
            Err(e) => {
                return Err(e);
            },
        };
        let v = SubMsgResult::Failure(err);
        proof {
            assert(v@ =~= (AbsSubMsgResult::Failure(err@)));
        }
        Ok((v, p1))
    } else {
        Err(CodecError::ProtocolMismatch)
    }
}


/// Encoding of a bank message: a tag byte, then the variant's fields.
#[verifier::opaque]
pub open spec fn enc_bank_msg(v: AbsBankMsg) -> Seq<u8> {
    match v {
        AbsBankMsg::Send { to_address, amount } => seq![0u8] + enc_bytes(to_address) + enc_coin_list(amount),
        AbsBankMsg::Burn { amount } => seq![1u8] + enc_coin_list(amount),
    }
}

/// Decode a bank message, returning it and the rest.
#[verifier::opaque]
pub open spec fn sdec_bank_msg(s: Seq<u8>) -> Option<(AbsBankMsg, Seq<u8>)> {
    match sdec_u8(s) {
        Some((tag, r0)) => if tag == 0 {
        match sdec_bytes(r0) {
            Some((to_address, r1)) => match sdec_coin_list(r1) {
            Some((amount, r2)) => Some((AbsBankMsg::Send { to_address, amount }, r2)),
            None => None,
        },
            None => None,
        }
    } else { if tag == 1 {
        match sdec_coin_list(r0) {
            Some((amount, r1)) => Some((AbsBankMsg::Burn { amount }, r1)),
            None => None,
        }
    } else { None } },
        None => None,
    }
}

/// Reading back an encoded bank message gives it and leaves the rest.
pub proof fn lemma_rt_bank_msg(v: AbsBankMsg, rest: Seq<u8>)
    ensures
        sdec_bank_msg(enc_bank_msg(v) + rest) == Some((v, rest)),
{
    reveal(enc_bank_msg);
    reveal(sdec_bank_msg);
    match v {
        AbsBankMsg::Send { to_address, amount } => {
            assert(enc_bank_msg(v) + rest =~= seq![0u8] + (enc_bytes(to_address) + (enc_coin_list(amount) + (rest))));
            lemma_rt_u8(0u8, enc_bytes(to_address) + (enc_coin_list(amount) + (rest)));
            lemma_rt_bytes(to_address, enc_coin_list(amount) + (rest));
            lemma_rt_coin_list(amount, rest);
        },
        AbsBankMsg::Burn { amount } => {
            assert(enc_bank_msg(v) + rest =~= seq![1u8] + (enc_coin_list(amount) + (rest)));
            lemma_rt_u8(1u8, enc_coin_list(amount) + (rest));
            lemma_rt_coin_list(amount, rest);
        },
    }
}

/// Append an encoded bank message.
pub fn enc_bank_msg_push(out: &mut Vec<u8>, v: &BankMsg)
    ensures
        final(out)@ == old(out)@ + enc_bank_msg(v@),
{
    match v {
        BankMsg::Send { to_address, amount } => {
            enc_u8_push(out, 0);
            enc_bytes_push(out, &to_address);
            enc_coin_list_push(out, &amount);
            proof {
                reveal(enc_bank_msg);
                assert(out@ =~= old(out)@ + enc_bank_msg(v@));
            }
        },
        BankMsg::Burn { amount } => {
            enc_u8_push(out, 1);
            enc_coin_list_push(out, &amount);
            proof {
                reveal(enc_bank_msg);
                assert(out@ =~= old(out)@ + enc_bank_msg(v@));
            }
        },
    }
}

/// Read a bank message at `pos`.
pub fn dec_bank_msg_at(s: &Vec<u8>, pos: usize) -> (r: Result<(BankMsg, usize), CodecError>)
    requires
        pos <= s@.len(),
    ensures
        match r {
            Ok((v, p2)) => pos <= p2 <= s@.len() && sdec_bank_msg(s@.skip(pos as int)) == Some(
                (v@, s@.skip(p2 as int)),
            ),
            Err(_) => sdec_bank_msg(s@.skip(pos as int)) is None,
        },
{
    proof {
        reveal(sdec_bank_msg);
    }
    let (tag, p0) = match dec_u8_at(s, pos) {
        Ok(x) => x,
        Err(e) => {
            return Err(e);
        },
    };
    if tag == 0 {
        let (to_address, p1) = match dec_bytes_at(s, p0) {
            Ok(x) => x,
            Err(e) => {
                return Err(e);
            },
        };
        let (amount, p2) = match dec_coin_list_at(s, p1) {
            Ok(x) => x,
            Err(e) => {
                return Err(e);
            },
        };
        let v = BankMsg::Send { to_address, amount };
        proof {
            assert(v@ =~= (AbsBankMsg::Send { to_address: to_address@, amount: amount.deep_view() }));
        }
        Ok((v, p2))
    } else
    if tag == 1 {
        let (amount, p1) = match dec_coin_list_at(s, p0) {
            Ok(x) => x,
            Err(e) => {
                return Err(e);
            },
        };
        let v = BankMsg::Burn { amount };
        proof {
            assert(v@ =~= (AbsBankMsg::Burn { amount: amount.deep_view() }));
        }
        Ok((v, p1))
    } else {
        Err(CodecError::ProtocolMismatch)
    }
}


/// Encoding of a wasm message: a tag byte, then the variant's fields.
#[verifier::opaque]
pub open spec fn enc_wasm_msg(v: AbsWasmMsg) -> Seq<u8> {
    match v {
        AbsWasmMsg::Execute { contract_addr, msg, funds } => seq![0u8] + enc_bytes(contract_addr) + enc_bytes(msg) + enc_coin_list(funds),
        AbsWasmMsg::Instantiate { admin, code_id, msg, funds, label } => seq![1u8] + enc_opt_bytes(admin) + enc_u64(code_id) + enc_bytes(msg) + enc_coin_list(funds) + enc_bytes(label),
        AbsWasmMsg::Migrate { contract_addr, new_code_id, msg } => seq![2u8] + enc_bytes(contract_addr) + enc_u64(new_code_id) + enc_bytes(msg),
        AbsWasmMsg::UpdateAdmin { contract_addr, admin } => seq![3u8] + enc_bytes(contract_addr) + enc_bytes(admin),
        AbsWasmMsg::ClearAdmin { contract_addr } => seq![4u8] + enc_bytes(contract_addr),
    }
}

/// Decode a wasm message, returning it and the rest.
#[verifier::opaque]
pub open spec fn sdec_wasm_msg(s: Seq<u8>) -> Option<(AbsWasmMsg, Seq<u8>)> {
    match sdec_u8(s) {
        Some((tag, r0)) => if tag == 0 {
        match sdec_bytes(r0) {
            Some((contract_addr, r1)) => match sdec_bytes(r1) {
            Some((msg, r2)) => match sdec_coin_list(r2) {
            Some((funds, r3)) => Some((AbsWasmMsg::Execute { contract_addr, msg, funds }, r3)),
            None => None,
        },
            None => None,
        },
            None => None,
        }
    } else { if tag == 1 {
        match sdec_opt_bytes(r0) {
            Some((admin, r1)) => match sdec_u64(r1) {
            Some((code_id, r2)) => match sdec_bytes(r2) {
            Some((msg, r3)) => match sdec_coin_list(r3) {
            Some((funds, r4)) => match sdec_bytes(r4) {
            Some((label, r5)) => Some((AbsWasmMsg::Instantiate { admin, code_id, msg, funds, label }, r5)),
            None => None,
        },
            None => None,
        },
            None => None,
        },
            None => None,
        },
            None => None,
        }
    } else { if tag == 2 {
        match sdec_bytes(r0) {
            Some((contract_addr, r1)) => match sdec_u64(r1) {
            Some((new_code_id, r2)) => match sdec_bytes(r2) {
            Some((msg, r3)) => Some((AbsWasmMsg::Migrate { contract_addr, new_code_id, msg }, r3)),
            None => None,
        },
            None => None,
        },
            None => None,
        }
    } else { if tag == 3 {
        match sdec_bytes(r0) {
            Some((contract_addr, r1)) => match sdec_bytes(r1) {
            Some((admin, r2)) => Some((AbsWasmMsg::UpdateAdmin { contract_addr, admin }, r2)),
            None => None,
        },
            None => None,
        }
    } else { if tag == 4 {
        match sdec_bytes(r0) {
            Some((contract_addr, r1)) => Some((AbsWasmMsg::ClearAdmin { contract_addr }, r1)),
            None => None,
        }
    } else { None } } } } },
        None => None,
    }
}

/// Reading back an encoded wasm message gives it and leaves the rest.
#[verifier::spinoff_prover]
#[verifier::rlimit(50)]
pub proof fn lemma_rt_wasm_msg(v: AbsWasmMsg, rest: Seq<u8>)
    ensures
        sdec_wasm_msg(enc_wasm_msg(v) + rest) == Some((v, rest)),
{
    reveal(enc_wasm_msg);
    reveal(sdec_wasm_msg);
    match v {
        AbsWasmMsg::Execute { contract_addr, msg, funds } => {
            assert(enc_wasm_msg(v) + rest =~= seq![0u8] + (enc_bytes(contract_addr) + (enc_bytes(msg) + (enc_coin_list(funds) + (rest)))));
            lemma_rt_u8(0u8, enc_bytes(contract_addr) + (enc_bytes(msg) + (enc_coin_list(funds) + (rest))));
            lemma_rt_bytes(contract_addr, enc_bytes(msg) + (enc_coin_list(funds) + (rest)));
            lemma_rt_bytes(msg, enc_coin_list(funds) + (rest));
            lemma_rt_coin_list(funds, rest);
        },
        AbsWasmMsg::Instantiate { admin, code_id, msg, funds, label } => {
            assert(enc_wasm_msg(v) + rest =~= seq![1u8] + (enc_opt_bytes(admin) + (enc_u64(code_id) + (enc_bytes(msg) + (enc_coin_list(funds) + (enc_bytes(label) + (rest)))))));
            lemma_rt_u8(1u8, enc_opt_bytes(admin) + (enc_u64(code_id) + (enc_bytes(msg) + (enc_coin_list(funds) + (enc_bytes(label) + (rest))))));
            lemma_rt_opt_bytes(admin, enc_u64(code_id) + (enc_bytes(msg) + (enc_coin_list(funds) + (enc_bytes(label) + (rest)))));
            lemma_rt_u64(code_id, enc_bytes(msg) + (enc_coin_list(funds) + (enc_bytes(label) + (rest))));
            lemma_rt_bytes(msg, enc_coin_list(funds) + (enc_bytes(label) + (rest)));
            lemma_rt_coin_list(funds, enc_bytes(label) + (rest));
            lemma_rt_bytes(label, rest);
        },
        AbsWasmMsg::Migrate { contract_addr, new_code_id, msg } => {
            assert(enc_wasm_msg(v) + rest =~= seq![2u8] + (enc_bytes(contract_addr) + (enc_u64(new_code_id) + (enc_bytes(msg) + (rest)))));
            lemma_rt_u8(2u8, enc_bytes(contract_addr) + (enc_u64(new_code_id) + (enc_bytes(msg) + (rest))));
            lemma_rt_bytes(contract_addr, enc_u64(new_code_id) + (enc_bytes(msg) + (rest)));
            lemma_rt_u64(new_code_id, enc_bytes(msg) + (rest));
            lemma_rt_bytes(msg, rest);
        },
        AbsWasmMsg::UpdateAdmin { contract_addr, admin } => {
            assert(enc_wasm_msg(v) + rest =~= seq![3u8] + (enc_bytes(contract_addr) + (enc_bytes(admin) + (rest))));
            lemma_rt_u8(3u8, enc_bytes(contract_addr) + (enc_bytes(admin) + (rest)));
            lemma_rt_bytes(contract_addr, enc_bytes(admin) + (rest));
            lemma_rt_bytes(admin, rest);
        },
        AbsWasmMsg::ClearAdmin { contract_addr } => {
            assert(enc_wasm_msg(v) + rest =~= seq![4u8] + (enc_bytes(contract_addr) + (rest)));
            lemma_rt_u8(4u8, enc_bytes(contract_addr) + (rest));
            lemma_rt_bytes(contract_addr, rest);
        },
    }
}

/// Append an encoded wasm message.
pub fn enc_wasm_msg_push(out: &mut Vec<u8>, v: &WasmMsg)
    ensures
        final(out)@ == old(out)@ + enc_wasm_msg(v@),
{
    match v {
        WasmMsg::Execute { contract_addr, msg, funds } => {
            enc_u8_push(out, 0);
            enc_bytes_push(out, &contract_addr);
            enc_bytes_push(out, &msg);
            enc_coin_list_push(out, &funds);
            proof {
                reveal(enc_wasm_msg);
                assert(out@ =~= old(out)@ + enc_wasm_msg(v@));
            }
        },
        WasmMsg::Instantiate { admin, code_id, msg, funds, label } => {
            enc_u8_push(out, 1);
            enc_opt_bytes_push(out, &admin);
            enc_u64_push(out, *code_id);
            enc_bytes_push(out, &msg);
            enc_coin_list_push(out, &funds);
            enc_bytes_push(out, &label);
            proof {
                reveal(enc_wasm_msg);
                assert(out@ =~= old(out)@ + enc_wasm_msg(v@));
            }
        },
        WasmMsg::Migrate { contract_addr, new_code_id, msg } => {
            enc_u8_push(out, 2);
            enc_bytes_push(out, &contract_addr);
            enc_u64_push(out, *new_code_id);
            enc_bytes_push(out, &msg);
            proof {
                reveal(enc_wasm_msg);
                assert(out@ =~= old(out)@ + enc_wasm_msg(v@));
            }
        },
        WasmMsg::UpdateAdmin { contract_addr, admin } => {
            enc_u8_push(out, 3);
            enc_bytes_push(out, &contract_addr);
            enc_bytes_push(out, &admin);
            proof {
                reveal(enc_wasm_msg);
                assert(out@ =~= old(out)@ + enc_wasm_msg(v@));
            }
        },
        WasmMsg::ClearAdmin { contract_addr } => {
            enc_u8_push(out, 4);
            enc_bytes_push(out, &contract_addr);
            proof {
                reveal(enc_wasm_msg);
                assert(out@ =~= old(out)@ + enc_wasm_msg(v@));
            }
        },
    }
}

/// Read a wasm message at `pos`.
pub fn dec_wasm_msg_at(s: &Vec<u8>, pos: usize) -> (r: Result<(WasmMsg, usize), CodecError>)
    requires
        pos <= s@.len(),
    ensures
        match r {
            Ok((v, p2)) => pos <= p2 <= s@.len() && sdec_wasm_msg(s@.skip(pos as int)) == Some(
                (v@, s@.skip(p2 as int)),
            ),
            Err(_) => sdec_wasm_msg(s@.skip(pos as int)) is None,
        },
{
    proof {
        reveal(sdec_wasm_msg);
    }
    let (tag, p0) = match dec_u8_at(s, pos) {
        Ok(x) => x,
        Err(e) => {
            return Err(e);
        },
    };
    if tag == 0 {
        let (contract_addr, p1) = match dec_bytes_at(s, p0) {
            Ok(x) => x,
            Err(e) => {
                return Err(e);
            },
        };
        let (msg, p2) = match dec_bytes_at(s, p1) {
            Ok(x) => x,
            Err(e) => {
                return Err(e);
            },
        };
        let (funds, p3) = match dec_coin_list_at(s, p2) {
            Ok(x) => x,
            Err(e) => {
                return Err(e);
            },
        };
        let v = WasmMsg::Execute { contract_addr, msg, funds };
        proof {
            assert(v@ =~= (AbsWasmMsg::Execute { contract_addr: contract_addr@, msg: msg@, funds: funds.deep_view() }));
        }
        Ok((v, p3))
    } else
    if tag == 1 {
        let (admin, p1) = match dec_opt_bytes_at(s, p0) {
            Ok(x) => x,
            Err(e) => {
                return Err(e);
            },
        };
        let (code_id, p2) = match dec_u64_at(s, p1) {
            Ok(x) => x,
            Err(e) => {
                return Err(e);
            },
        };
        let (msg, p3) = match dec_bytes_at(s, p2) {
            Ok(x) => x,
            Err(e) => {
                return Err(e);
            },
        };
        let (funds, p4) = match dec_coin_list_at(s, p3) {
            Ok(x) => x,
            Err(e) => {
                return Err(e);
            },
        };
        let (label, p5) = match dec_bytes_at(s, p4) {
            Ok(x) => x,
            Err(e) => {
                return Err(e);
            },
        };
        let v = WasmMsg::Instantiate { admin, code_id, msg, funds, label };
        proof {
            assert(v@ =~= (AbsWasmMsg::Instantiate { admin: opt_bytes_view(&admin), code_id: code_id, msg: msg@, funds: funds.deep_view(), label: label@ }));
        }
        Ok((v, p5))
    } else
    if tag == 2 {
        let (contract_addr, p1) = match dec_bytes_at(s, p0) {
            Ok(x) => x,
            Err(e) => {
                return Err(e);
            },
        };
        let (new_code_id, p2) = match dec_u64_at(s, p1) {
            Ok(x) => x,
            Err(e) => {
                return Err(e);
            },
        };
        let (msg, p3) = match dec_bytes_at(s, p2) {
            Ok(x) => x,
            Err(e) => {
                return Err(e);
            },
        };
        let v = WasmMsg::Migrate { contract_addr, new_code_id, msg };
        proof {
            assert(v@ =~= (AbsWasmMsg::Migrate { contract_addr: contract_addr@, new_code_id: new_code_id, msg: msg@ }));
        }
        Ok((v, p3))
    } else
    if tag == 3 {
        let (contract_addr, p1) = match dec_bytes_at(s, p0) {
            Ok(x) => x,
            Err(e) => {
                return Err(e);
            },
        };
        let (admin, p2) = match dec_bytes_at(s, p1) {
            Ok(x) => x,
            Err(e) => {
                return Err(e);
            },
        };
        let v = WasmMsg::UpdateAdmin { contract_addr, admin };
        proof {
            assert(v@ =~= (AbsWasmMsg::UpdateAdmin { contract_addr: contract_addr@, admin: admin@ }));
        }
        Ok((v, p2))
    } else
    if tag == 4 {
        let (contract_addr, p1) = match dec_bytes_at(s, p0) {
            Ok(x) => x,
            Err(e) => {
                return Err(e);
            },
        };
        let v = WasmMsg::ClearAdmin { contract_addr };
        proof {
            assert(v@ =~= (AbsWasmMsg::ClearAdmin { contract_addr: contract_addr@ }));
        }
        Ok((v, p1))
    } else {
        Err(CodecError::ProtocolMismatch)
    }
}


/// Encoding of a routed message: a tag byte, then the variant's fields.
#[verifier::opaque]
pub open spec fn enc_cosmos_msg(v: AbsCosmosMsg) -> Seq<u8> {
    match v {
        AbsCosmosMsg::Bank(m) => seq![0u8] + enc_bank_msg(m),
        AbsCosmosMsg::Wasm(m) => seq![1u8] + enc_wasm_msg(m),
    }
}

/// Decode a routed message, returning it and the rest.
#[verifier::opaque]
pub open spec fn sdec_cosmos_msg(s: Seq<u8>) -> Option<(AbsCosmosMsg, Seq<u8>)> {
    match sdec_u8(s) {
        Some((tag, r0)) => if tag == 0 {
        match sdec_bank_msg(r0) {
            Some((m, r1)) => Some((AbsCosmosMsg::Bank(m), r1)),
            None => None,
        }
    } else { if tag == 1 {
        match sdec_wasm_msg(r0) {
            Some((m, r1)) => Some((AbsCosmosMsg::Wasm(m), r1)),
            None => None,
        }
    } else { None } },
        None => None,
    }
}

/// Reading back an encoded routed message gives it and leaves the rest.
#[verifier::spinoff_prover]
#[verifier::rlimit(50)]
pub proof fn lemma_rt_cosmos_msg(v: AbsCosmosMsg, rest: Seq<u8>)
    ensures
        sdec_cosmos_msg(enc_cosmos_msg(v) + rest) == Some((v, rest)),
{
    reveal(enc_cosmos_msg);
    reveal(sdec_cosmos_msg);
    match v {
        AbsCosmosMsg::Bank(m) => {
            assert(enc_cosmos_msg(v) + rest =~= seq![0u8] + (enc_bank_msg(m) + (rest)));
            lemma_rt_u8(0u8, enc_bank_msg(m) + (rest));
            lemma_rt_bank_msg(m, rest);
        },
        AbsCosmosMsg::Wasm(m) => {
            assert(enc_cosmos_msg(v) + rest =~= seq![1u8] + (enc_wasm_msg(m) + (rest)));
            lemma_rt_u8(1u8, enc_wasm_msg(m) + (rest));
            lemma_rt_wasm_msg(m, rest);
        },
    }
}

/// Append an encoded routed message.
pub fn enc_cosmos_msg_push(out: &mut Vec<u8>, v: &CosmosMsg)
    ensures
        final(out)@ == old(out)@ + enc_cosmos_msg(v@),
{
    match v {
        CosmosMsg::Bank(m) => {
            enc_u8_push(out, 0);
            enc_bank_msg_push(out, &m);
            proof {
                reveal(enc_cosmos_msg);
                assert(out@ =~= old(out)@ + enc_cosmos_msg(v@));
            }
        },
        CosmosMsg::Wasm(m) => {
            enc_u8_push(out, 1);
            enc_wasm_msg_push(out, &m);
            proof {
                reveal(enc_cosmos_msg);
                assert(out@ =~= old(out)@ + enc_cosmos_msg(v@));
            }
        },
    }
}

/// Read a routed message at `pos`.
pub fn dec_cosmos_msg_at(s: &Vec<u8>, pos: usize) -> (r: Result<(CosmosMsg, usize), CodecError>)
    requires
        pos <= s@.len(),
    ensures
        match r {
            Ok((v, p2)) => pos <= p2 <= s@.len() && sdec_cosmos_msg(s@.skip(pos as int)) == Some(
                (v@, s@.skip(p2 as int)),
            ),
            Err(_) => sdec_cosmos_msg(s@.skip(pos as int)) is None,
        },
{
    proof {
        reveal(sdec_cosmos_msg);
    }
    let (tag, p0) = match dec_u8_at(s, pos) {
        Ok(x) => x,
        Err(e) => {
            return Err(e);
        },
    };
    if tag == 0 {
        let (m, p1) = match dec_bank_msg_at(s, p0) {
            Ok(x) => x,
            Err(e) => {
                return Err(e);
            },
        };
        let v = CosmosMsg::Bank(m);
        proof {
            assert(v@ =~= (AbsCosmosMsg::Bank(m@)));
        }
        Ok((v, p1))
    } else
    if tag == 1 {
        let (m, p1) = match dec_wasm_msg_at(s, p0) {
            Ok(x) => x,
            Err(e) => {
                return Err(e);
            },
        };
        let v = CosmosMsg::Wasm(m);
        proof {
            assert(v@ =~= (AbsCosmosMsg::Wasm(m@)));
        }
        Ok((v, p1))
    } else {
        Err(CodecError::ProtocolMismatch)
    }
}


/// Encoding of a reply policy: a tag byte, then the variant's fields.
#[verifier::opaque]
pub open spec fn enc_reply_on(v: ReplyOn) -> Seq<u8> {
    match v {
        ReplyOn::Always => seq![0u8],
        ReplyOn::Error => seq![1u8],
        ReplyOn::Success => seq![2u8],
        ReplyOn::Never => seq![3u8],
    }
}

/// Decode a reply policy, returning it and the rest.
#[verifier::opaque]
pub open spec fn sdec_reply_on(s: Seq<u8>) -> Option<(ReplyOn, Seq<u8>)> {
    match sdec_u8(s) {
        Some((tag, r0)) => if tag == 0 {
        Some((ReplyOn::Always, r0))
    } else { if tag == 1 {
        Some((ReplyOn::Error, r0))
    } else { if tag == 2 {
        Some((ReplyOn::Success, r0))
    } else { if tag == 3 {
        Some((ReplyOn::Never, r0))
    } else { None } } } },
        None => None,
    }
}

/// Reading back an encoded reply policy gives it and leaves the rest.
pub proof fn lemma_rt_reply_on(v: ReplyOn, rest: Seq<u8>)
    ensures
        sdec_reply_on(enc_reply_on(v) + rest) == Some((v, rest)),
{
    reveal(enc_reply_on);
    reveal(sdec_reply_on);
    match v {
        ReplyOn::Always => {
            assert(enc_reply_on(v) + rest =~= seq![0u8] + (rest));
            lemma_rt_u8(0u8, rest);
        },
        ReplyOn::Error => {
            assert(enc_reply_on(v) + rest =~= seq![1u8] + (rest));
            lemma_rt_u8(1u8, rest);
        },
        ReplyOn::Success => {
            assert(enc_reply_on(v) + rest =~= seq![2u8] + (rest));
            lemma_rt_u8(2u8, rest);
        },
        ReplyOn::Never => {
            assert(enc_reply_on(v) + rest =~= seq![3u8] + (rest));
            lemma_rt_u8(3u8, rest);
        },
    }
}

/// Append an encoded reply policy.
pub fn enc_reply_on_push(out: &mut Vec<u8>, v: &ReplyOn)
    ensures
        final(out)@ == old(out)@ + enc_reply_on(v@),
{
    match v {
        ReplyOn::Always => {
            enc_u8_push(out, 0);
            proof {
                reveal(enc_reply_on);
                assert(out@ =~= old(out)@ + enc_reply_on(v@));
            }
        },
        ReplyOn::Error => {
            enc_u8_push(out, 1);
            proof {
                reveal(enc_reply_on);
                assert(out@ =~= old(out)@ + enc_reply_on(v@));
            }
        },
        ReplyOn::Success => {
            enc_u8_push(out, 2);
            proof {
                reveal(enc_reply_on);
                assert(out@ =~= old(out)@ + enc_reply_on(v@));
            }
        },
        ReplyOn::Never => {
            enc_u8_push(out, 3);
            proof {
                reveal(enc_reply_on);
                assert(out@ =~= old(out)@ + enc_reply_on(v@));
            }
        },
    }
}

/// Read a reply policy at `pos`.
pub fn dec_reply_on_at(s: &Vec<u8>, pos: usize) -> (r: Result<(ReplyOn, usize), CodecError>)
    requires
        pos <= s@.len(),
    ensures
        match r {
            Ok((v, p2)) => pos <= p2 <= s@.len() && sdec_reply_on(s@.skip(pos as int)) == Some(
                (v@, s@.skip(p2 as int)),
            ),
            Err(_) => sdec_reply_on(s@.skip(pos as int)) is None,
        },
{
    proof {
        reveal(sdec_reply_on);
    }
    let (tag, p0) = match dec_u8_at(s, pos) {
        Ok(x) => x,
        Err(e) => {
            return Err(e);
        },
    };
    if tag == 0 {
        let v = ReplyOn::Always;
        proof {
            assert(v@ =~= (ReplyOn::Always));
        }
        Ok((v, p0))
    } else
    if tag == 1 {
        let v = ReplyOn::Error;
        proof {
            assert(v@ =~= (ReplyOn::Error));
        }
        Ok((v, p0))
    } else
    if tag == 2 {
        let v = ReplyOn::Success;
        proof {
            assert(v@ =~= (ReplyOn::Success));
        }
        Ok((v, p0))
    } else
    if tag == 3 {
        let v = ReplyOn::Never;
        proof {
            assert(v@ =~= (ReplyOn::Never));
        }
        Ok((v, p0))
    } else {
        Err(CodecError::ProtocolMismatch)
    }
}


/// Encoding of a entry point call: a tag byte, then the variant's fields.
#[verifier::opaque]
pub open spec fn enc_wasm_function(v: AbsWasmFunction) -> Seq<u8> {
    match v {
        AbsWasmFunction::Execute(env, info, msg) => seq![0u8] + enc_env(env) + enc_msginfo(info) + enc_bytes(msg),
        AbsWasmFunction::Instantiate(env, info, msg) => seq![1u8] + enc_env(env) + enc_msginfo(info) + enc_bytes(msg),
        AbsWasmFunction::Query(env, msg) => seq![2u8] + enc_env(env) + enc_bytes(msg),
        AbsWasmFunction::Sudo(env, msg) => seq![3u8] + enc_env(env) + enc_bytes(msg),
        AbsWasmFunction::Reply(env, reply) => seq![4u8] + enc_env(env) + enc_reply(reply),
        AbsWasmFunction::Migrate(env, msg) => seq![5u8] + enc_env(env) + enc_bytes(msg),
    }
}

/// Decode a entry point call, returning it and the rest.
#[verifier::opaque]
pub open spec fn sdec_wasm_function(s: Seq<u8>) -> Option<(AbsWasmFunction, Seq<u8>)> {
    match sdec_u8(s) {
        Some((tag, r0)) => if tag == 0 {
        match sdec_env(r0) {
            Some((env, r1)) => match sdec_msginfo(r1) {
            Some((info, r2)) => match sdec_bytes(r2) {
            Some((msg, r3)) => Some((AbsWasmFunction::Execute(env, info, msg), r3)),
            None => None,
        },
            None => None,
        },
            None => None,
        }
    } else { if tag == 1 {
        match sdec_env(r0) {
            Some((env, r1)) => match sdec_msginfo(r1) {
            Some((info, r2)) => match sdec_bytes(r2) {
            Some((msg, r3)) => Some((AbsWasmFunction::Instantiate(env, info, msg), r3)),
            None => None,
        },
            None => None,
        },
            None => None,
        }
    } else { if tag == 2 {
        match sdec_env(r0) {
            Some((env, r1)) => match sdec_bytes(r1) {
            Some((msg, r2)) => Some((AbsWasmFunction::Query(env, msg), r2)),
            None => None,
        },
            None => None,
        }
    } else { if tag == 3 {
        match sdec_env(r0) {
            Some((env, r1)) => match sdec_bytes(r1) {
            Some((msg, r2)) => Some((AbsWasmFunction::Sudo(env, msg), r2)),
            None => None,
        },
            None => None,
        }
    } else { if tag == 4 {
        match sdec_env(r0) {
            Some((env, r1)) => match sdec_reply(r1) {
            Some((reply, r2)) => Some((AbsWasmFunction::Reply(env, reply), r2)),
            None => None,
        },
            None => None,
        }
    } else { if tag == 5 {
        match sdec_env(r0) {
            Some((env, r1)) => match sdec_bytes(r1) {
            Some((msg, r2)) => Some((AbsWasmFunction::Migrate(env, msg), r2)),
            None => None,
        },
            None => None,
        }
    } else { None } } } } } },
        None => None,
    }
}

/// Reading back an encoded entry point call gives it and leaves the rest.
#[verifier::spinoff_prover]
#[verifier::rlimit(50)]
pub proof fn lemma_rt_wasm_function(v: AbsWasmFunction, rest: Seq<u8>)
    ensures
        sdec_wasm_function(enc_wasm_function(v) + rest) == Some((v, rest)),
{
    reveal(enc_wasm_function);
    reveal(sdec_wasm_function);
    match v {
        AbsWasmFunction::Execute(env, info, msg) => {
            assert(enc_wasm_function(v) + rest =~= seq![0u8] + (enc_env(env) + (enc_msginfo(info) + (enc_bytes(msg) + (rest)))));
            lemma_rt_u8(0u8, enc_env(env) + (enc_msginfo(info) + (enc_bytes(msg) + (rest))));
            lemma_rt_env(env, enc_msginfo(info) + (enc_bytes(msg) + (rest)));
            lemma_rt_msginfo(info, enc_bytes(msg) + (rest));
            lemma_rt_bytes(msg, rest);
        },
        AbsWasmFunction::Instantiate(env, info, msg) => {
            assert(enc_wasm_function(v) + rest =~= seq![1u8] + (enc_env(env) + (enc_msginfo(info) + (enc_bytes(msg) + (rest)))));
            lemma_rt_u8(1u8, enc_env(env) + (enc_msginfo(info) + (enc_bytes(msg) + (rest))));
            lemma_rt_env(env, enc_msginfo(info) + (enc_bytes(msg) + (rest)));
            lemma_rt_msginfo(info, enc_bytes(msg) + (rest));
            lemma_rt_bytes(msg, rest);
        },
        AbsWasmFunction::Query(env, msg) => {
            assert(enc_wasm_function(v) + rest =~= seq![2u8] + (enc_env(env) + (enc_bytes(msg) + (rest))));
            lemma_rt_u8(2u8, enc_env(env) + (enc_bytes(msg) + (rest)));
            lemma_rt_env(env, enc_bytes(msg) + (rest));
            lemma_rt_bytes(msg, rest);
        },
        AbsWasmFunction::Sudo(env, msg) => {
            assert(enc_wasm_function(v) + rest =~= seq![3u8] + (enc_env(env) + (enc_bytes(msg) + (rest))));
            lemma_rt_u8(3u8, enc_env(env) + (enc_bytes(msg) + (rest)));
            lemma_rt_env(env, enc_bytes(msg) + (rest));
            lemma_rt_bytes(msg, rest);
        },
        AbsWasmFunction::Reply(env, reply) => {
            assert(enc_wasm_function(v) + rest =~= seq![4u8] + (enc_env(env) + (enc_reply(reply) + (rest))));
            lemma_rt_u8(4u8, enc_env(env) + (enc_reply(reply) + (rest)));
            lemma_rt_env(env, enc_reply(reply) + (rest));
            lemma_rt_reply(reply, rest);
        },
        AbsWasmFunction::Migrate(env, msg) => {
            assert(enc_wasm_function(v) + rest =~= seq![5u8] + (enc_env(env) + (enc_bytes(msg) + (rest))));
            lemma_rt_u8(5u8, enc_env(env) + (enc_bytes(msg) + (rest)));
            lemma_rt_env(env, enc_bytes(msg) + (rest));
            lemma_rt_bytes(msg, rest);
        },
    }
}

/// Append an encoded entry point call.
pub fn enc_wasm_function_push(out: &mut Vec<u8>, v: &WasmFunction)
    ensures
        final(out)@ == old(out)@ + enc_wasm_function(v@),
{
    match v {
        WasmFunction::Execute(a) => {
            enc_u8_push(out, 0);
            enc_env_push(out, &a.env);
            enc_msginfo_push(out, &a.info);
            enc_bytes_push(out, &a.msg);
            proof {
                reveal(enc_wasm_function);
                assert(out@ =~= old(out)@ + enc_wasm_function(v@));
            }
        },
        WasmFunction::Instantiate(a) => {
            enc_u8_push(out, 1);
            enc_env_push(out, &a.env);
            enc_msginfo_push(out, &a.info);
            enc_bytes_push(out, &a.msg);
            proof {
                reveal(enc_wasm_function);
                assert(out@ =~= old(out)@ + enc_wasm_function(v@));
            }
        },
        WasmFunction::Query(a) => {
            enc_u8_push(out, 2);
            enc_env_push(out, &a.env);
            enc_bytes_push(out, &a.msg);
            proof {
                reveal(enc_wasm_function);
                assert(out@ =~= old(out)@ + enc_wasm_function(v@));
            }
        },
        WasmFunction::Sudo(a) => {
            enc_u8_push(out, 3);
            enc_env_push(out, &a.env);
            enc_bytes_push(out, &a.msg);
            proof {
                reveal(enc_wasm_function);
                assert(out@ =~= old(out)@ + enc_wasm_function(v@));
            }
        },
        WasmFunction::Reply(a) => {
            enc_u8_push(out, 4);
            enc_env_push(out, &a.env);
            enc_reply_push(out, &a.reply);
            proof {
                reveal(enc_wasm_function);
                assert(out@ =~= old(out)@ + enc_wasm_function(v@));
            }
        },
        WasmFunction::Migrate(a) => {
            enc_u8_push(out, 5);
            enc_env_push(out, &a.env);
            enc_bytes_push(out, &a.msg);
            proof {
                reveal(enc_wasm_function);
                assert(out@ =~= old(out)@ + enc_wasm_function(v@));
            }
        },
    }
}

/// Read a entry point call at `pos`.
pub fn dec_wasm_function_at(s: &Vec<u8>, pos: usize) -> (r: Result<(WasmFunction, usize), CodecError>)
    requires
        pos <= s@.len(),
    ensures
        match r {
            Ok((v, p2)) => pos <= p2 <= s@.len() && sdec_wasm_function(s@.skip(pos as int)) == Some(
                (v@, s@.skip(p2 as int)),
            ),
            Err(_) => sdec_wasm_function(s@.skip(pos as int)) is None,
        },
{
    proof {
        reveal(sdec_wasm_function);
    }
    let (tag, p0) = match dec_u8_at(s, pos) {
        Ok(x) => x,
        Err(e) => {
            return Err(e);
        },
    };
    if tag == 0 {
        let (env, p1) = match dec_env_at(s, p0) {
            Ok(x) => x,
            Err(e) => {
                return Err(e);
            },
        };
        let (info, p2) = match dec_msginfo_at(s, p1) {
            Ok(x) => x,
            Err(e) => {
                return Err(e);
            },
        };
        let (msg, p3) = match dec_bytes_at(s, p2) {
            Ok(x) => x,
            Err(e) => {
                return Err(e);
            },
        };
        let v = WasmFunction::Execute(ExecuteArgs { env, info, msg });
        proof {
            assert(v@ =~= (AbsWasmFunction::Execute(env@, info@, msg@)));
        }
        Ok((v, p3))
    } else
    if tag == 1 {
        let (env, p1) = match dec_env_at(s, p0) {
            Ok(x) => x,
            Err(e) => {
                return Err(e);
            },
        };
        let (info, p2) = match dec_msginfo_at(s, p1) {
            Ok(x) => x,
            Err(e) => {
                return Err(e);
            },
        };
        let (msg, p3) = match dec_bytes_at(s, p2) {
            Ok(x) => x,
            Err(e) => {
                return Err(e);
            },
        };
        let v = WasmFunction::Instantiate(InstantiateArgs { env, info, msg });
        proof {
            assert(v@ =~= (AbsWasmFunction::Instantiate(env@, info@, msg@)));
        }
        Ok((v, p3))
    } else
    if tag == 2 {
        let (env, p1) = match dec_env_at(s, p0) {
            Ok(x) => x,
            Err(e) => {
                return Err(e);
            },
        };
        let (msg, p2) = match dec_bytes_at(s, p1) {
            Ok(x) => x,
            Err(e) => {
                return Err(e);
            },
        };
        let v = WasmFunction::Query(QueryArgs { env, msg });
        proof {
            assert(v@ =~= (AbsWasmFunction::Query(env@, msg@)));
        }
        Ok((v, p2))
    } else
    if tag == 3 {
        let (env, p1) = match dec_env_at(s, p0) {
            Ok(x) => x,
            Err(e) => {
                return Err(e);
            },
        };
        let (msg, p2) = match dec_bytes_at(s, p1) {
            Ok(x) => x,
            Err(e) => {
                return Err(e);
            },
        };
        let v = WasmFunction::Sudo(SudoArgs { env, msg });
        proof {
            assert(v@ =~= (AbsWasmFunction::Sudo(env@, msg@)));
        }
        Ok((v, p2))
    } else
    if tag == 4 {
        let (env, p1) = match dec_env_at(s, p0) {
            Ok(x) => x,
            Err(e) => {
                return Err(e);
            },
        };
        let (reply, p2) = match dec_reply_at(s, p1) {
            Ok(x) => x,
            Err(e) => {
                return Err(e);
            },
        };
        let v = WasmFunction::Reply(ReplyArgs { env, reply });
        proof {
            assert(v@ =~= (AbsWasmFunction::Reply(env@, reply@)));
        }
        Ok((v, p2))
    } else
    if tag == 5 {
        let (env, p1) = match dec_env_at(s, p0) {
            Ok(x) => x,
            Err(e) => {
                return Err(e);
            },
        };
        let (msg, p2) = match dec_bytes_at(s, p1) {
            Ok(x) => x,
            Err(e) => {
                return Err(e);
            },
        };
        let v = WasmFunction::Migrate(MigrateArgs { env, msg });
        proof {
            assert(v@ =~= (AbsWasmFunction::Migrate(env@, msg@)));
        }
        Ok((v, p2))
    } else {
        Err(CodecError::ProtocolMismatch)
    }
}


/// Encoding of a entry point output: a tag byte, then the variant's fields.
#[verifier::opaque]
pub open spec fn enc_wasm_output(v: AbsWasmOutput) -> Seq<u8> {
    match v {
        AbsWasmOutput::Execute(resp) => seq![0u8] + enc_response(resp),
        AbsWasmOutput::Instantiate(resp) => seq![1u8] + enc_response(resp),
        AbsWasmOutput::Query(data) => seq![2u8] + enc_bytes(data),
        AbsWasmOutput::Sudo(resp) => seq![3u8] + enc_response(resp),
        AbsWasmOutput::Reply(resp) => seq![4u8] + enc_response(resp),
        AbsWasmOutput::Migrate(resp) => seq![5u8] + enc_response(resp),
    }
}

/// Decode a entry point output, returning it and the rest.
#[verifier::opaque]
pub open spec fn sdec_wasm_output(s: Seq<u8>) -> Option<(AbsWasmOutput, Seq<u8>)> {
    match sdec_u8(s) {
        Some((tag, r0)) => if tag == 0 {
        match sdec_response(r0) {
            Some((resp, r1)) => Some((AbsWasmOutput::Execute(resp), r1)),
            None => None,
        }
    } else { if tag == 1 {
        match sdec_response(r0) {
            Some((resp, r1)) => Some((AbsWasmOutput::Instantiate(resp), r1)),
            None => None,
        }
    } else { if tag == 2 {
        match sdec_bytes(r0) {
            Some((data, r1)) => Some((AbsWasmOutput::Query(data), r1)),
            None => None,
        }
    } else { if tag == 3 {
        match sdec_response(r0) {
            Some((resp, r1)) => Some((AbsWasmOutput::Sudo(resp), r1)),
            None => None,
        }
    } else { if tag == 4 {
        match sdec_response(r0) {
            Some((resp, r1)) => Some((AbsWasmOutput::Reply(resp), r1)),
            None => None,
        }
    } else { if tag == 5 {
        match sdec_response(r0) {
            Some((resp, r1)) => Some((AbsWasmOutput::Migrate(resp), r1)),
            None => None,
        }
    } else { None } } } } } },
        None => None,
    }
}

/// Reading back an encoded entry point output gives it and leaves the rest.
#[verifier::spinoff_prover]
#[verifier::rlimit(50)]
pub proof fn lemma_rt_wasm_output(v: AbsWasmOutput, rest: Seq<u8>)
    ensures
        sdec_wasm_output(enc_wasm_output(v) + rest) == Some((v, rest)),
{
    reveal(enc_wasm_output);
    reveal(sdec_wasm_output);
    match v {
        AbsWasmOutput::Execute(resp) => {
            assert(enc_wasm_output(v) + rest =~= seq![0u8] + (enc_response(resp) + (rest)));
            lemma_rt_u8(0u8, enc_response(resp) + (rest));
            lemma_rt_response(resp, rest);
        },
        AbsWasmOutput::Instantiate(resp) => {
            assert(enc_wasm_output(v) + rest =~= seq![1u8] + (enc_response(resp) + (rest)));
            lemma_rt_u8(1u8, enc_response(resp) + (rest));
            lemma_rt_response(resp, rest);
        },
        AbsWasmOutput::Query(data) => {
            assert(enc_wasm_output(v) + rest =~= seq![2u8] + (enc_bytes(data) + (rest)));
            lemma_rt_u8(2u8, enc_bytes(data) + (rest));
            lemma_rt_bytes(data, rest);
        },
        AbsWasmOutput::Sudo(resp) => {
            assert(enc_wasm_output(v) + rest =~= seq![3u8] + (enc_response(resp) + (rest)));
            lemma_rt_u8(3u8, enc_response(resp) + (rest));
            lemma_rt_response(resp, rest);
        },
        AbsWasmOutput::Reply(resp) => {
            assert(enc_wasm_output(v) + rest =~= seq![4u8] + (enc_response(resp) + (rest)));
            lemma_rt_u8(4u8, enc_response(resp) + (rest));
            lemma_rt_response(resp, rest);
        },
        AbsWasmOutput::Migrate(resp) => {
            assert(enc_wasm_output(v) + rest =~= seq![5u8] + (enc_response(resp) + (rest)));
            lemma_rt_u8(5u8, enc_response(resp) + (rest));
            lemma_rt_response(resp, rest);
        },
    }
}

/// Append an encoded entry point output.
pub fn enc_wasm_output_push(out: &mut Vec<u8>, v: &WasmOutput)
    ensures
        final(out)@ == old(out)@ + enc_wasm_output(v@),
{
    match v {
        WasmOutput::Execute(x) => {
            enc_u8_push(out, 0);
            enc_response_push(out, &x);
            proof {
                reveal(enc_wasm_output);
                assert(out@ =~= old(out)@ + enc_wasm_output(v@));
            }
        },
        WasmOutput::Instantiate(x) => {
            enc_u8_push(out, 1);
            enc_response_push(out, &x);
            proof {
                reveal(enc_wasm_output);
                assert(out@ =~= old(out)@ + enc_wasm_output(v@));
            }
        },
        WasmOutput::Query(x) => {
            enc_u8_push(out, 2);
            enc_bytes_push(out, &x);
            proof {
                reveal(enc_wasm_output);
                assert(out@ =~= old(out)@ + enc_wasm_output(v@));
            }
        },
        WasmOutput::Sudo(x) => {
            enc_u8_push(out, 3);
            enc_response_push(out, &x);
            proof {
                reveal(enc_wasm_output);
                assert(out@ =~= old(out)@ + enc_wasm_output(v@));
            }
        },
        WasmOutput::Reply(x) => {
            enc_u8_push(out, 4);
            enc_response_push(out, &x);
            proof {
                reveal(enc_wasm_output);
                assert(out@ =~= old(out)@ + enc_wasm_output(v@));
            }
        },
        WasmOutput::Migrate(x) => {
            enc_u8_push(out, 5);
            enc_response_push(out, &x);
            proof {
                reveal(enc_wasm_output);
                assert(out@ =~= old(out)@ + enc_wasm_output(v@));
            }
        },
    }
}

/// Read a entry point output at `pos`.
pub fn dec_wasm_output_at(s: &Vec<u8>, pos: usize) -> (r: Result<(WasmOutput, usize), CodecError>)
    requires
        pos <= s@.len(),
    ensures
        match r {
            Ok((v, p2)) => pos <= p2 <= s@.len() && sdec_wasm_output(s@.skip(pos as int)) == Some(
                (v@, s@.skip(p2 as int)),
            ),
            Err(_) => sdec_wasm_output(s@.skip(pos as int)) is None,
        },
{
    proof {
        reveal(sdec_wasm_output);
    }
    let (tag, p0) = match dec_u8_at(s, pos) {
        Ok(x) => x,
        Err(e) => {
            return Err(e);
        },
    };
    if tag == 0 {
        let (resp, p1) = match dec_response_at(s, p0) {
            Ok(x) => x,
            Err(e) => {
                return Err(e);
            },
        };
        let v = WasmOutput::Execute(resp);
        proof {
            assert(v@ =~= (AbsWasmOutput::Execute(resp@)));
        }
        Ok((v, p1))
    } else
    if tag == 1 {
        let (resp, p1) = match dec_response_at(s, p0) {
            Ok(x) => x,
            Err(e) => {
                return Err(e);
            },
        };
        let v = WasmOutput::Instantiate(resp);
        proof {
            assert(v@ =~= (AbsWasmOutput::Instantiate(resp@)));
        }
        Ok((v, p1))
    } else
    if tag == 2 {
        let (data, p1) = match dec_bytes_at(s, p0) {
            Ok(x) => x,
            Err(e) => {
                return Err(e);
            },
        };
        let v = WasmOutput::Query(data);
        proof {
            assert(v@ =~= (AbsWasmOutput::Query(data@)));
        }
        Ok((v, p1))
    } else
    if tag == 3 {
        let (resp, p1) = match dec_response_at(s, p0) {
            Ok(x) => x,
            Err(e) => {
                return Err(e);
            },
        };
        let v = WasmOutput::Sudo(resp);
        proof {
            assert(v@ =~= (AbsWasmOutput::Sudo(resp@)));
        }
        Ok((v, p1))
    } else
    if tag == 4 {
        let (resp, p1) = match dec_response_at(s, p0) {
            Ok(x) => x,
            Err(e) => {
                return Err(e);
            },
        };
        let v = WasmOutput::Reply(resp);
        proof {
            assert(v@ =~= (AbsWasmOutput::Reply(resp@)));
        }
        Ok((v, p1))
    } else
    if tag == 5 {
        let (resp, p1) = match dec_response_at(s, p0) {
            Ok(x) => x,
            Err(e) => {
                return Err(e);
            },
        };
        let v = WasmOutput::Migrate(resp);
        proof {
            assert(v@ =~= (AbsWasmOutput::Migrate(resp@)));
        }
        Ok((v, p1))
    } else {
        Err(CodecError::ProtocolMismatch)
    }
}

/// Items of raw entries, concatenated.
#[verifier::opaque]
pub open spec fn enc_kv_items(xs: Seq<(Seq<u8>, Seq<u8>)>) -> Seq<u8>
    decreases xs.len(),
{
    if xs.len() == 0 {
        Seq::empty()
    } else {
        enc_kv(xs[0]) + enc_kv_items(xs.drop_first())
    }
}

/// A counted list of raw entries.
#[verifier::opaque]
pub open spec fn enc_kv_list(xs: Seq<(Seq<u8>, Seq<u8>)>) -> Seq<u8> {
    enc_len(xs.len()) + enc_kv_items(xs)
}

/// Decode `n` items of raw entries.
#[verifier::opaque]
pub open spec fn sdec_kv_items(s: Seq<u8>, n: nat) -> Option<(Seq<(Seq<u8>, Seq<u8>)>, Seq<u8>)>
    decreases n,
{
    if n == 0 {
        Some((Seq::empty(), s))
    } else if n > s.len() {
        None
    } else {
        match sdec_kv(s) {
            Some((v, r)) => match sdec_kv_items(r, (n - 1) as nat) {
                Some((vs, r2)) => Some((seq![v] + vs, r2)),
                None => None,
            },
            None => None,
        }
    }
}

/// Decode a counted list of raw entries.
#[verifier::opaque]
pub open spec fn sdec_kv_list(s: Seq<u8>) -> Option<(Seq<(Seq<u8>, Seq<u8>)>, Seq<u8>)> {
    match sdec_len(s) {
        Some((n, r)) => sdec_kv_items(r, n),
        None => None,
    }
}

/// The items take at least one byte each.
proof fn lemma_enc_kv_items_len(xs: Seq<(Seq<u8>, Seq<u8>)>)
    ensures
        enc_kv_items(xs).len() >= xs.len(),
    decreases xs.len(),
{
    reveal(enc_kv_items);
    if xs.len() > 0 {
        lemma_enc_kv_min(xs[0]);
        lemma_enc_kv_items_len(xs.drop_first());
    }
}

/// Reading back encoded items gives them and leaves the rest.
#[verifier::spinoff_prover]
#[verifier::rlimit(50)]
proof fn lemma_rt_kv_items(xs: Seq<(Seq<u8>, Seq<u8>)>, rest: Seq<u8>)
    ensures
        sdec_kv_items(enc_kv_items(xs) + rest, xs.len()) == Some((xs, rest)),
    decreases xs.len(),
{
    reveal(enc_kv_items);
    reveal(sdec_kv_items);
    if xs.len() == 0 {
        assert(enc_kv_items(xs) + rest =~= rest);
    } else {
        let t = xs.drop_first();
        let s = enc_kv_items(xs) + rest;
        lemma_enc_kv_items_len(xs);
        assert(s =~= enc_kv(xs[0]) + (enc_kv_items(t) + rest));
        lemma_rt_kv(xs[0], enc_kv_items(t) + rest);
        lemma_rt_kv_items(t, rest);
        assert(seq![xs[0]] + t =~= xs);
    }
}

/// Reading back an encoded list gives it and leaves the rest.
pub proof fn lemma_rt_kv_list(xs: Seq<(Seq<u8>, Seq<u8>)>, rest: Seq<u8>)
    ensures
        sdec_kv_list(enc_kv_list(xs) + rest) == Some((xs, rest)),
{
    reveal(enc_kv_list);
    reveal(sdec_kv_list);
    assert(enc_kv_list(xs) + rest =~= enc_len(xs.len()) + (enc_kv_items(xs) + rest));
    lemma_rt_len(xs.len(), enc_kv_items(xs) + rest);
    lemma_rt_kv_items(xs, rest);
}

/// Append a counted list of raw entries.
pub fn enc_kv_list_push(out: &mut Vec<u8>, xs: &Vec<(Vec<u8>, Vec<u8>)>)
    ensures
        final(out)@ == old(out)@ + enc_kv_list(xs.deep_view()),
{
    let ghost dv = xs.deep_view();
    enc_len_push(out, xs.len());
    let ghost start = out@;
    proof {
        crate::local_storage::lemma_deep_view_entries(xs);
        reveal(enc_kv_items);
        assert(dv.skip(0) =~= dv);
        assert(start + enc_kv_items(dv) =~= out@ + enc_kv_items(dv.skip(0)));
    }
    let mut i: usize = 0;
    while i < xs.len()
        invariant
            i <= xs@.len(),
            dv == xs.deep_view(),
            xs@.len() == dv.len(),
            forall|j: int| 0 <= j < dv.len() ==> #[trigger] dv[j] == (xs@[j].0@, xs@[j].1@),
            start + enc_kv_items(dv) =~= out@ + enc_kv_items(dv.skip(i as int)),
        decreases xs@.len() - i,
    {
        proof {
            reveal(enc_kv_items);
            assert(dv.skip(i as int)[0] == dv[i as int]);
            assert(dv.skip(i as int).drop_first() =~= dv.skip(i + 1));
        }
        enc_kv_push(out, &xs[i]);
        i += 1;
    }
    proof {
        reveal(enc_kv_items);
        reveal(enc_kv_list);
        assert(enc_kv_items(dv.skip(dv.len() as int)).len() == 0);
        assert(start + enc_kv_items(dv) =~= out@);
        assert(out@ =~= old(out)@ + enc_kv_list(dv));
    }
}

/// Read a counted list of raw entries at `pos`.
pub fn dec_kv_list_at(s: &Vec<u8>, pos: usize) -> (r: Result<(Vec<(Vec<u8>, Vec<u8>)>, usize), CodecError>)
    requires
        pos <= s@.len(),
    ensures
        match r {
            Ok((v, p2)) => pos <= p2 <= s@.len() && sdec_kv_list(s@.skip(pos as int)) == Some(
                (v.deep_view(), s@.skip(p2 as int)),
            ),
            Err(_) => sdec_kv_list(s@.skip(pos as int)) is None,
        },
{
    proof {
        reveal(sdec_kv_list);
    }
    let slen = s.len();
    let (n, p1) = match dec_len_at(s, pos) {
        Ok(x) => x,
        Err(e) => {
            proof {
                reveal(sdec_kv_list);
                reveal(sdec_kv_items);
                if sdec_len(s@.skip(pos as int)) matches Some((nn, r)) {
                    lemma_sdec_len_rest(s@.skip(pos as int));
                }
                assert(sdec_kv_list(s@.skip(pos as int)) is None);
            }
            return Err(e);
        },
    };
    let mut acc: Vec<(Vec<u8>, Vec<u8>)> = Vec::new();
    let mut i: usize = 0;
    let mut p = p1;
    proof {
        crate::local_storage::lemma_deep_view_entries(&acc);
        reveal(sdec_kv_items);
        assert(acc.deep_view() =~= Seq::<(Seq<u8>, Seq<u8>)>::empty());
        assert forall|vs: Seq<(Seq<u8>, Seq<u8>)>| true implies acc.deep_view() + vs =~= vs by {}
    }
    while i < n
        invariant
            i <= n,
            pos <= p <= slen,
            slen == s@.len(),
            pos <= p1 <= slen,
            sdec_len(s@.skip(pos as int)) == Some((n as nat, s@.skip(p1 as int))),
            acc.deep_view().len() == i,
            sdec_kv_items(s@.skip(p1 as int), n as nat) == (match sdec_kv_items(
                s@.skip(p as int),
                (n - i) as nat,
            ) {
                Some((vs, r)) => Some((acc.deep_view() + vs, r)),
                None => None,
            }),
        decreases n - i,
    {
        if n - i > slen - p {
            proof {
                reveal(sdec_kv_list);
                reveal(sdec_kv_items);
                assert(sdec_kv_items(s@.skip(p as int), (n - i) as nat) is None);
                assert(sdec_kv_list(s@.skip(pos as int)) is None);
            }
            return Err(CodecError::ProtocolMismatch);
        }
        let ghost accdv = acc.deep_view();
        let (v, p2) = match dec_kv_at(s, p) {
            Ok(x) => x,
            Err(e) => {
                proof {
                    reveal(sdec_kv_list);
                    reveal(sdec_kv_items);
                    assert(sdec_kv_items(s@.skip(p as int), (n - i) as nat) is None);
                    assert(sdec_kv_list(s@.skip(pos as int)) is None);
                }
                return Err(e);
            },
        };
        proof {
            reveal(sdec_kv_items);
            assert(sdec_kv_items(s@.skip(p as int), (n - i) as nat) == (match
                sdec_kv_items(s@.skip(p2 as int), (n - (i + 1)) as nat) {
                Some((vs, r)) => Some((seq![(v.0@, v.1@)] + vs, r)),
                None => None,
            }));
        }
        acc.push(v);
        proof {
            crate::local_storage::lemma_deep_view_entries(&acc);
            assert(acc.deep_view() =~= accdv.push((v.0@, v.1@)));
            assert forall|vs: Seq<(Seq<u8>, Seq<u8>)>| true implies accdv + (seq![(v.0@, v.1@)] + vs)
                =~= acc.deep_view() + vs by {}
        }
        p = p2;
        i += 1;
    }
    proof {
        reveal(sdec_kv_list);
        reveal(sdec_kv_items);
        assert(sdec_kv_items(s@.skip(p as int), 0) == Some(
            (Seq::<(Seq<u8>, Seq<u8>)>::empty(), s@.skip(p as int)),
        ));
        assert(acc.deep_view() + Seq::<(Seq<u8>, Seq<u8>)>::empty() =~= acc.deep_view());
        assert(sdec_kv_list(s@.skip(pos as int)) == Some((acc.deep_view(), s@.skip(p as int))));
    }
    Ok((acc, p))
}


/// Items of keys, concatenated.
#[verifier::opaque]
pub open spec fn enc_key_items(xs: Seq<Seq<u8>>) -> Seq<u8>
    decreases xs.len(),
{
    if xs.len() == 0 {
        Seq::empty()
    } else {
        enc_bytes(xs[0]) + enc_key_items(xs.drop_first())
    }
}

/// A counted list of keys.
#[verifier::opaque]
pub open spec fn enc_key_list(xs: Seq<Seq<u8>>) -> Seq<u8> {
    enc_len(xs.len()) + enc_key_items(xs)
}

/// Decode `n` items of keys.
#[verifier::opaque]
pub open spec fn sdec_key_items(s: Seq<u8>, n: nat) -> Option<(Seq<Seq<u8>>, Seq<u8>)>
    decreases n,
{
    if n == 0 {
        Some((Seq::empty(), s))
    } else if n > s.len() {
        None
    } else {
        match sdec_bytes(s) {
            Some((v, r)) => match sdec_key_items(r, (n - 1) as nat) {
                Some((vs, r2)) => Some((seq![v] + vs, r2)),
                None => None,
            },
            None => None,
        }
    }
}

/// Decode a counted list of keys.
#[verifier::opaque]
pub open spec fn sdec_key_list(s: Seq<u8>) -> Option<(Seq<Seq<u8>>, Seq<u8>)> {
    match sdec_len(s) {
        Some((n, r)) => sdec_key_items(r, n),
        None => None,
    }
}

/// The items take at least one byte each.
proof fn lemma_enc_key_items_len(xs: Seq<Seq<u8>>)
    ensures
        enc_key_items(xs).len() >= xs.len(),
    decreases xs.len(),
{
    reveal(enc_key_items);
    if xs.len() > 0 {
        lemma_enc_bytes_min(xs[0]);
        lemma_enc_key_items_len(xs.drop_first());
    }
}

/// Reading back encoded items gives them and leaves the rest.
#[verifier::spinoff_prover]
#[verifier::rlimit(50)]
proof fn lemma_rt_key_items(xs: Seq<Seq<u8>>, rest: Seq<u8>)
    ensures
        sdec_key_items(enc_key_items(xs) + rest, xs.len()) == Some((xs, rest)),
    decreases xs.len(),
{
    reveal(enc_key_items);
    reveal(sdec_key_items);
    if xs.len() == 0 {
        assert(enc_key_items(xs) + rest =~= rest);
    } else {
        let t = xs.drop_first();
        let s = enc_key_items(xs) + rest;
        lemma_enc_key_items_len(xs);
        assert(s =~= enc_bytes(xs[0]) + (enc_key_items(t) + rest));
        lemma_rt_bytes(xs[0], enc_key_items(t) + rest);
        lemma_rt_key_items(t, rest);
        assert(seq![xs[0]] + t =~= xs);
    }
}

/// Reading back an encoded list gives it and leaves the rest.
pub proof fn lemma_rt_key_list(xs: Seq<Seq<u8>>, rest: Seq<u8>)
    ensures
        sdec_key_list(enc_key_list(xs) + rest) == Some((xs, rest)),
{
    reveal(enc_key_list);
    reveal(sdec_key_list);
    assert(enc_key_list(xs) + rest =~= enc_len(xs.len()) + (enc_key_items(xs) + rest));
    lemma_rt_len(xs.len(), enc_key_items(xs) + rest);
    lemma_rt_key_items(xs, rest);
}

/// Append a counted list of keys.
pub fn enc_key_list_push(out: &mut Vec<u8>, xs: &Vec<Vec<u8>>)
    ensures
        final(out)@ == old(out)@ + enc_key_list(xs.deep_view()),
{
    let ghost dv = xs.deep_view();
    enc_len_push(out, xs.len());
    let ghost start = out@;
    proof {
        crate::fork_storage::lemma_deep_view_keys(xs);
        reveal(enc_key_items);
        assert(dv.skip(0) =~= dv);
        assert(start + enc_key_items(dv) =~= out@ + enc_key_items(dv.skip(0)));
    }
    let mut i: usize = 0;
    while i < xs.len()
        invariant
            i <= xs@.len(),
            dv == xs.deep_view(),
            xs@.len() == dv.len(),
            forall|j: int| 0 <= j < dv.len() ==> #[trigger] dv[j] == xs@[j]@,
            start + enc_key_items(dv) =~= out@ + enc_key_items(dv.skip(i as int)),
        decreases xs@.len() - i,
    {
        proof {
            reveal(enc_key_items);
            assert(dv.skip(i as int)[0] == dv[i as int]);
            assert(dv.skip(i as int).drop_first() =~= dv.skip(i + 1));
        }
        enc_bytes_push(out, &xs[i]);
        i += 1;
    }
    proof {
        reveal(enc_key_items);
        reveal(enc_key_list);
        assert(enc_key_items(dv.skip(dv.len() as int)).len() == 0);
        assert(start + enc_key_items(dv) =~= out@);
        assert(out@ =~= old(out)@ + enc_key_list(dv));
    }
}

/// Read a counted list of keys at `pos`.
pub fn dec_key_list_at(s: &Vec<u8>, pos: usize) -> (r: Result<(Vec<Vec<u8>>, usize), CodecError>)
    requires
        pos <= s@.len(),
    ensures
        match r {
            Ok((v, p2)) => pos <= p2 <= s@.len() && sdec_key_list(s@.skip(pos as int)) == Some(
                (v.deep_view(), s@.skip(p2 as int)),
            ),
            Err(_) => sdec_key_list(s@.skip(pos as int)) is None,
        },
{
    proof {
        reveal(sdec_key_list);
    }
    let slen = s.len();
    let (n, p1) = match dec_len_at(s, pos) {
        Ok(x) => x,
        Err(e) => {
            proof {
                reveal(sdec_key_list);
                reveal(sdec_key_items);
                if sdec_len(s@.skip(pos as int)) matches Some((nn, r)) {
                    lemma_sdec_len_rest(s@.skip(pos as int));
                }
                assert(sdec_key_list(s@.skip(pos as int)) is None);
            }
            return Err(e);
        },
    };
    let mut acc: Vec<Vec<u8>> = Vec::new();
    let mut i: usize = 0;
    let mut p = p1;
    proof {
        crate::fork_storage::lemma_deep_view_keys(&acc);
        reveal(sdec_key_items);
        assert(acc.deep_view() =~= Seq::<Seq<u8>>::empty());
        assert forall|vs: Seq<Seq<u8>>| true implies acc.deep_view() + vs =~= vs by {}
    }
    while i < n
        invariant
            i <= n,
            pos <= p <= slen,
            slen == s@.len(),
            pos <= p1 <= slen,
            sdec_len(s@.skip(pos as int)) == Some((n as nat, s@.skip(p1 as int))),
            acc.deep_view().len() == i,
            sdec_key_items(s@.skip(p1 as int), n as nat) == (match sdec_key_items(
                s@.skip(p as int),
                (n - i) as nat,
            ) {
                Some((vs, r)) => Some((acc.deep_view() + vs, r)),
                None => None,
            }),
        decreases n - i,
    {
        if n - i > slen - p {
            proof {
                reveal(sdec_key_list);
                reveal(sdec_key_items);
                assert(sdec_key_items(s@.skip(p as int), (n - i) as nat) is None);
                assert(sdec_key_list(s@.skip(pos as int)) is None);
            }
            return Err(CodecError::ProtocolMismatch);
        }
        let ghost accdv = acc.deep_view();
        let (v, p2) = match dec_bytes_at(s, p) {
            Ok(x) => x,
            Err(e) => {
                proof {
                    reveal(sdec_key_list);
                    reveal(sdec_key_items);
                    assert(sdec_key_items(s@.skip(p as int), (n - i) as nat) is None);
                    assert(sdec_key_list(s@.skip(pos as int)) is None);
                }
                return Err(e);
            },
        };
        proof {
            reveal(sdec_key_items);
            assert(sdec_key_items(s@.skip(p as int), (n - i) as nat) == (match
                sdec_key_items(s@.skip(p2 as int), (n - (i + 1)) as nat) {
                Some((vs, r)) => Some((seq![v@] + vs, r)),
                None => None,
            }));
        }
        acc.push(v);
        proof {
            crate::fork_storage::lemma_deep_view_keys(&acc);
            assert(acc.deep_view() =~= accdv.push(v@));
            assert forall|vs: Seq<Seq<u8>>| true implies accdv + (seq![v@] + vs)
                =~= acc.deep_view() + vs by {}
        }
        p = p2;
        i += 1;
    }
    proof {
        reveal(sdec_key_list);
        reveal(sdec_key_items);
        assert(sdec_key_items(s@.skip(p as int), 0) == Some(
            (Seq::<Seq<u8>>::empty(), s@.skip(p as int)),
        ));
        assert(acc.deep_view() + Seq::<Seq<u8>>::empty() =~= acc.deep_view());
        assert(sdec_key_list(s@.skip(pos as int)) == Some((acc.deep_view(), s@.skip(p as int))));
    }
    Ok((acc, p))
}


/// Items of coins, concatenated.
#[verifier::opaque]
pub open spec fn enc_coin_items(xs: Seq<AbsCoin>) -> Seq<u8>
    decreases xs.len(),
{
    if xs.len() == 0 {
        Seq::empty()
    } else {
        enc_coin(xs[0]) + enc_coin_items(xs.drop_first())
    }
}

/// A counted list of coins.
#[verifier::opaque]
pub open spec fn enc_coin_list(xs: Seq<AbsCoin>) -> Seq<u8> {
    enc_len(xs.len()) + enc_coin_items(xs)
}

/// Decode `n` items of coins.
#[verifier::opaque]
pub open spec fn sdec_coin_items(s: Seq<u8>, n: nat) -> Option<(Seq<AbsCoin>, Seq<u8>)>
    decreases n,
{
    if n == 0 {
        Some((Seq::empty(), s))
    } else if n > s.len() {
        None
    } else {
        match sdec_coin(s) {
            Some((v, r)) => match sdec_coin_items(r, (n - 1) as nat) {
                Some((vs, r2)) => Some((seq![v] + vs, r2)),
                None => None,
            },
            None => None,
        }
    }
}

/// Decode a counted list of coins.
#[verifier::opaque]
pub open spec fn sdec_coin_list(s: Seq<u8>) -> Option<(Seq<AbsCoin>, Seq<u8>)> {
    match sdec_len(s) {
        Some((n, r)) => sdec_coin_items(r, n),
        None => None,
    }
}

/// The items take at least one byte each.
proof fn lemma_enc_coin_items_len(xs: Seq<AbsCoin>)
    ensures
        enc_coin_items(xs).len() >= xs.len(),
    decreases xs.len(),
{
    reveal(enc_coin_items);
    if xs.len() > 0 {
        lemma_enc_coin_min(xs[0]);
        lemma_enc_coin_items_len(xs.drop_first());
    }
}

/// Reading back encoded items gives them and leaves the rest.
#[verifier::spinoff_prover]
#[verifier::rlimit(50)]
proof fn lemma_rt_coin_items(xs: Seq<AbsCoin>, rest: Seq<u8>)
    ensures
        sdec_coin_items(enc_coin_items(xs) + rest, xs.len()) == Some((xs, rest)),
    decreases xs.len(),
{
    reveal(enc_coin_items);
    reveal(sdec_coin_items);
    if xs.len() == 0 {
        assert(enc_coin_items(xs) + rest =~= rest);
    } else {
        let t = xs.drop_first();
        let s = enc_coin_items(xs) + rest;
        lemma_enc_coin_items_len(xs);
        assert(s =~= enc_coin(xs[0]) + (enc_coin_items(t) + rest));
        lemma_rt_coin(xs[0], enc_coin_items(t) + rest);
        lemma_rt_coin_items(t, rest);
        assert(seq![xs[0]] + t =~= xs);
    }
}

/// Reading back an encoded list gives it and leaves the rest.
pub proof fn lemma_rt_coin_list(xs: Seq<AbsCoin>, rest: Seq<u8>)
    ensures
        sdec_coin_list(enc_coin_list(xs) + rest) == Some((xs, rest)),
{
    reveal(enc_coin_list);
    reveal(sdec_coin_list);
    assert(enc_coin_list(xs) + rest =~= enc_len(xs.len()) + (enc_coin_items(xs) + rest));
    lemma_rt_len(xs.len(), enc_coin_items(xs) + rest);
    lemma_rt_coin_items(xs, rest);
}

/// Append a counted list of coins.
pub fn enc_coin_list_push(out: &mut Vec<u8>, xs: &Vec<Coin>)
    ensures
        final(out)@ == old(out)@ + enc_coin_list(xs.deep_view()),
{
    let ghost dv = xs.deep_view();
    enc_len_push(out, xs.len());
    let ghost start = out@;
    proof {
        
        reveal(enc_coin_items);
        assert(dv.skip(0) =~= dv);
        assert(start + enc_coin_items(dv) =~= out@ + enc_coin_items(dv.skip(0)));
    }
    let mut i: usize = 0;
    while i < xs.len()
        invariant
            i <= xs@.len(),
            dv == xs.deep_view(),
            xs@.len() == dv.len(),
            forall|j: int| 0 <= j < dv.len() ==> #[trigger] dv[j] == xs@[j]@,
            start + enc_coin_items(dv) =~= out@ + enc_coin_items(dv.skip(i as int)),
        decreases xs@.len() - i,
    {
        proof {
            reveal(enc_coin_items);
            assert(dv.skip(i as int)[0] == dv[i as int]);
            assert(dv.skip(i as int).drop_first() =~= dv.skip(i + 1));
        }
        enc_coin_push(out, &xs[i]);
        i += 1;
    }
    proof {
        reveal(enc_coin_items);
        reveal(enc_coin_list);
        assert(enc_coin_items(dv.skip(dv.len() as int)).len() == 0);
        assert(start + enc_coin_items(dv) =~= out@);
        assert(out@ =~= old(out)@ + enc_coin_list(dv));
    }
}

/// Read a counted list of coins at `pos`.
pub fn dec_coin_list_at(s: &Vec<u8>, pos: usize) -> (r: Result<(Vec<Coin>, usize), CodecError>)
    requires
        pos <= s@.len(),
    ensures
        match r {
            Ok((v, p2)) => pos <= p2 <= s@.len() && sdec_coin_list(s@.skip(pos as int)) == Some(
                (v.deep_view(), s@.skip(p2 as int)),
            ),
            Err(_) => sdec_coin_list(s@.skip(pos as int)) is None,
        },
{
    proof {
        reveal(sdec_coin_list);
    }
    let slen = s.len();
    let (n, p1) = match dec_len_at(s, pos) {
        Ok(x) => x,
        Err(e) => {
            proof {
                reveal(sdec_coin_list);
                reveal(sdec_coin_items);
                if sdec_len(s@.skip(pos as int)) matches Some((nn, r)) {
                    lemma_sdec_len_rest(s@.skip(pos as int));
                }
                assert(sdec_coin_list(s@.skip(pos as int)) is None);
            }
            return Err(e);
        },
    };
    let mut acc: Vec<Coin> = Vec::new();
    let mut i: usize = 0;
    let mut p = p1;
    proof {
        
        reveal(sdec_coin_items);
        assert(acc.deep_view() =~= Seq::<AbsCoin>::empty());
        assert forall|vs: Seq<AbsCoin>| true implies acc.deep_view() + vs =~= vs by {}
    }
    while i < n
        invariant
            i <= n,
            pos <= p <= slen,
            slen == s@.len(),
            pos <= p1 <= slen,
            sdec_len(s@.skip(pos as int)) == Some((n as nat, s@.skip(p1 as int))),
            acc.deep_view().len() == i,
            sdec_coin_items(s@.skip(p1 as int), n as nat) == (match sdec_coin_items(
                s@.skip(p as int),
                (n - i) as nat,
            ) {
                Some((vs, r)) => Some((acc.deep_view() + vs, r)),
                None => None,
            }),
        decreases n - i,
    {
        if n - i > slen - p {
            proof {
                reveal(sdec_coin_list);
                reveal(sdec_coin_items);
                assert(sdec_coin_items(s@.skip(p as int), (n - i) as nat) is None);
                assert(sdec_coin_list(s@.skip(pos as int)) is None);
            }
            return Err(CodecError::ProtocolMismatch);
        }
        let ghost accdv = acc.deep_view();
        let (v, p2) = match dec_coin_at(s, p) {
            Ok(x) => x,
            Err(e) => {
                proof {
                    reveal(sdec_coin_list);
                    reveal(sdec_coin_items);
                    assert(sdec_coin_items(s@.skip(p as int), (n - i) as nat) is None);
                    assert(sdec_coin_list(s@.skip(pos as int)) is None);
                }
                return Err(e);
            },
        };
        proof {
            reveal(sdec_coin_items);
            assert(sdec_coin_items(s@.skip(p as int), (n - i) as nat) == (match
                sdec_coin_items(s@.skip(p2 as int), (n - (i + 1)) as nat) {
                Some((vs, r)) => Some((seq![v@] + vs, r)),
                None => None,
            }));
        }
        acc.push(v);
        proof {
            
            assert(acc.deep_view() =~= accdv.push(v@));
            assert forall|vs: Seq<AbsCoin>| true implies accdv + (seq![v@] + vs)
                =~= acc.deep_view() + vs by {}
        }
        p = p2;
        i += 1;
    }
    proof {
        reveal(sdec_coin_list);
        reveal(sdec_coin_items);
        assert(sdec_coin_items(s@.skip(p as int), 0) == Some(
            (Seq::<AbsCoin>::empty(), s@.skip(p as int)),
        ));
        assert(acc.deep_view() + Seq::<AbsCoin>::empty() =~= acc.deep_view());
        assert(sdec_coin_list(s@.skip(pos as int)) == Some((acc.deep_view(), s@.skip(p as int))));
    }
    Ok((acc, p))
}


/// Items of attributes, concatenated.
#[verifier::opaque]
pub open spec fn enc_attr_items(xs: Seq<AbsAttribute>) -> Seq<u8>
    decreases xs.len(),
{
    if xs.len() == 0 {
        Seq::empty()
    } else {
        enc_attr(xs[0]) + enc_attr_items(xs.drop_first())
    }
}

/// A counted list of attributes.
#[verifier::opaque]
pub open spec fn enc_attr_list(xs: Seq<AbsAttribute>) -> Seq<u8> {
    enc_len(xs.len()) + enc_attr_items(xs)
}

/// Decode `n` items of attributes.
#[verifier::opaque]
pub open spec fn sdec_attr_items(s: Seq<u8>, n: nat) -> Option<(Seq<AbsAttribute>, Seq<u8>)>
    decreases n,
{
    if n == 0 {
        Some((Seq::empty(), s))
    } else if n > s.len() {
        None
    } else {
        match sdec_attr(s) {
            Some((v, r)) => match sdec_attr_items(r, (n - 1) as nat) {
                Some((vs, r2)) => Some((seq![v] + vs, r2)),
                None => None,
            },
            None => None,
        }
    }
}

/// Decode a counted list of attributes.
#[verifier::opaque]
pub open spec fn sdec_attr_list(s: Seq<u8>) -> Option<(Seq<AbsAttribute>, Seq<u8>)> {
    match sdec_len(s) {
        Some((n, r)) => sdec_attr_items(r, n),
        None => None,
    }
}

/// The items take at least one byte each.
proof fn lemma_enc_attr_items_len(xs: Seq<AbsAttribute>)
    ensures
        enc_attr_items(xs).len() >= xs.len(),
    decreases xs.len(),
{
    reveal(enc_attr_items);
    if xs.len() > 0 {
        lemma_enc_attr_min(xs[0]);
        lemma_enc_attr_items_len(xs.drop_first());
    }
}

/// Reading back encoded items gives them and leaves the rest.
#[verifier::spinoff_prover]
#[verifier::rlimit(50)]
proof fn lemma_rt_attr_items(xs: Seq<AbsAttribute>, rest: Seq<u8>)
    ensures
        sdec_attr_items(enc_attr_items(xs) + rest, xs.len()) == Some((xs, rest)),
    decreases xs.len(),
{
    reveal(enc_attr_items);
    reveal(sdec_attr_items);
    if xs.len() == 0 {
        assert(enc_attr_items(xs) + rest =~= rest);
    } else {
        let t = xs.drop_first();
        let s = enc_attr_items(xs) + rest;
        lemma_enc_attr_items_len(xs);
        assert(s =~= enc_attr(xs[0]) + (enc_attr_items(t) + rest));
        lemma_rt_attr(xs[0], enc_attr_items(t) + rest);
        lemma_rt_attr_items(t, rest);
        assert(seq![xs[0]] + t =~= xs);
    }
}

/// Reading back an encoded list gives it and leaves the rest.
pub proof fn lemma_rt_attr_list(xs: Seq<AbsAttribute>, rest: Seq<u8>)
    ensures
        sdec_attr_list(enc_attr_list(xs) + rest) == Some((xs, rest)),
{
    reveal(enc_attr_list);
    reveal(sdec_attr_list);
    assert(enc_attr_list(xs) + rest =~= enc_len(xs.len()) + (enc_attr_items(xs) + rest));
    lemma_rt_len(xs.len(), enc_attr_items(xs) + rest);
    lemma_rt_attr_items(xs, rest);
}

/// Append a counted list of attributes.
pub fn enc_attr_list_push(out: &mut Vec<u8>, xs: &Vec<Attribute>)
    ensures
        final(out)@ == old(out)@ + enc_attr_list(xs.deep_view()),
{
    let ghost dv = xs.deep_view();
    enc_len_push(out, xs.len());
    let ghost start = out@;
    proof {
        
        reveal(enc_attr_items);
        assert(dv.skip(0) =~= dv);
        assert(start + enc_attr_items(dv) =~= out@ + enc_attr_items(dv.skip(0)));
    }
    let mut i: usize = 0;
    while i < xs.len()
        invariant
            i <= xs@.len(),
            dv == xs.deep_view(),
            xs@.len() == dv.len(),
            forall|j: int| 0 <= j < dv.len() ==> #[trigger] dv[j] == xs@[j]@,
            start + enc_attr_items(dv) =~= out@ + enc_attr_items(dv.skip(i as int)),
        decreases xs@.len() - i,
    {
        proof {
            reveal(enc_attr_items);
            assert(dv.skip(i as int)[0] == dv[i as int]);
            assert(dv.skip(i as int).drop_first() =~= dv.skip(i + 1));
        }
        enc_attr_push(out, &xs[i]);
        i += 1;
    }
    proof {
        reveal(enc_attr_items);
        reveal(enc_attr_list);
        assert(enc_attr_items(dv.skip(dv.len() as int)).len() == 0);
        assert(start + enc_attr_items(dv) =~= out@);
        assert(out@ =~= old(out)@ + enc_attr_list(dv));
    }
}

/// Read a counted list of attributes at `pos`.
pub fn dec_attr_list_at(s: &Vec<u8>, pos: usize) -> (r: Result<(Vec<Attribute>, usize), CodecError>)
    requires
        pos <= s@.len(),
    ensures
        match r {
            Ok((v, p2)) => pos <= p2 <= s@.len() && sdec_attr_list(s@.skip(pos as int)) == Some(
                (v.deep_view(), s@.skip(p2 as int)),
            ),
            Err(_) => sdec_attr_list(s@.skip(pos as int)) is None,
        },
{
    proof {
        reveal(sdec_attr_list);
    }
    let slen = s.len();
    let (n, p1) = match dec_len_at(s, pos) {
        Ok(x) => x,
        Err(e) => {
            proof {
                reveal(sdec_attr_list);
                reveal(sdec_attr_items);
                if sdec_len(s@.skip(pos as int)) matches Some((nn, r)) {
                    lemma_sdec_len_rest(s@.skip(pos as int));
                }
                assert(sdec_attr_list(s@.skip(pos as int)) is None);
            }
            return Err(e);
        },
    };
    let mut acc: Vec<Attribute> = Vec::new();
    let mut i: usize = 0;
    let mut p = p1;
    proof {
        
        reveal(sdec_attr_items);
        assert(acc.deep_view() =~= Seq::<AbsAttribute>::empty());
        assert forall|vs: Seq<AbsAttribute>| true implies acc.deep_view() + vs =~= vs by {}
    }
    while i < n
        invariant
            i <= n,
            pos <= p <= slen,
            slen == s@.len(),
            pos <= p1 <= slen,
            sdec_len(s@.skip(pos as int)) == Some((n as nat, s@.skip(p1 as int))),
            acc.deep_view().len() == i,
            sdec_attr_items(s@.skip(p1 as int), n as nat) == (match sdec_attr_items(
                s@.skip(p as int),
                (n - i) as nat,
            ) {
                Some((vs, r)) => Some((acc.deep_view() + vs, r)),
                None => None,
            }),
        decreases n - i,
    {
        if n - i > slen - p {
            proof {
                reveal(sdec_attr_list);
                reveal(sdec_attr_items);
                assert(sdec_attr_items(s@.skip(p as int), (n - i) as nat) is None);
                assert(sdec_attr_list(s@.skip(pos as int)) is None);
            }
            return Err(CodecError::ProtocolMismatch);
        }
        let ghost accdv = acc.deep_view();
        let (v, p2) = match dec_attr_at(s, p) {
            Ok(x) => x,
            Err(e) => {
                proof {
                    reveal(sdec_attr_list);
                    reveal(sdec_attr_items);
                    assert(sdec_attr_items(s@.skip(p as int), (n - i) as nat) is None);
                    assert(sdec_attr_list(s@.skip(pos as int)) is None);
                }
                return Err(e);
            },
        };
        proof {
            reveal(sdec_attr_items);
            assert(sdec_attr_items(s@.skip(p as int), (n - i) as nat) == (match
                sdec_attr_items(s@.skip(p2 as int), (n - (i + 1)) as nat) {
                Some((vs, r)) => Some((seq![v@] + vs, r)),
                None => None,
            }));
        }
        acc.push(v);
        proof {
            
            assert(acc.deep_view() =~= accdv.push(v@));
            assert forall|vs: Seq<AbsAttribute>| true implies accdv + (seq![v@] + vs)
                =~= acc.deep_view() + vs by {}
        }
        p = p2;
        i += 1;
    }
    proof {
        reveal(sdec_attr_list);
        reveal(sdec_attr_items);
        assert(sdec_attr_items(s@.skip(p as int), 0) == Some(
            (Seq::<AbsAttribute>::empty(), s@.skip(p as int)),
        ));
        assert(acc.deep_view() + Seq::<AbsAttribute>::empty() =~= acc.deep_view());
        assert(sdec_attr_list(s@.skip(pos as int)) == Some((acc.deep_view(), s@.skip(p as int))));
    }
    Ok((acc, p))
}


/// Items of events, concatenated.
#[verifier::opaque]
pub open spec fn enc_event_items(xs: Seq<AbsEvent>) -> Seq<u8>
    decreases xs.len(),
{
    if xs.len() == 0 {
        Seq::empty()
    } else {
        enc_event(xs[0]) + enc_event_items(xs.drop_first())
    }
}

/// A counted list of events.
#[verifier::opaque]
pub open spec fn enc_event_list(xs: Seq<AbsEvent>) -> Seq<u8> {
    enc_len(xs.len()) + enc_event_items(xs)
}

/// Decode `n` items of events.
#[verifier::opaque]
pub open spec fn sdec_event_items(s: Seq<u8>, n: nat) -> Option<(Seq<AbsEvent>, Seq<u8>)>
    decreases n,
{
    if n == 0 {
        Some((Seq::empty(), s))
    } else if n > s.len() {
        None
    } else {
        match sdec_event(s) {
            Some((v, r)) => match sdec_event_items(r, (n - 1) as nat) {
                Some((vs, r2)) => Some((seq![v] + vs, r2)),
                None => None,
            },
            None => None,
        }
    }
}

/// Decode a counted list of events.
#[verifier::opaque]
pub open spec fn sdec_event_list(s: Seq<u8>) -> Option<(Seq<AbsEvent>, Seq<u8>)> {
    match sdec_len(s) {
        Some((n, r)) => sdec_event_items(r, n),
        None => None,
    }
}

/// The items take at least one byte each.
proof fn lemma_enc_event_items_len(xs: Seq<AbsEvent>)
    ensures
        enc_event_items(xs).len() >= xs.len(),
    decreases xs.len(),
{
    reveal(enc_event_items);
    if xs.len() > 0 {
        lemma_enc_event_min(xs[0]);
        lemma_enc_event_items_len(xs.drop_first());
    }
}

/// Reading back encoded items gives them and leaves the rest.
#[verifier::spinoff_prover]
#[verifier::rlimit(50)]
proof fn lemma_rt_event_items(xs: Seq<AbsEvent>, rest: Seq<u8>)
    ensures
        sdec_event_items(enc_event_items(xs) + rest, xs.len()) == Some((xs, rest)),
    decreases xs.len(),
{
    reveal(enc_event_items);
    reveal(sdec_event_items);
    if xs.len() == 0 {
        assert(enc_event_items(xs) + rest =~= rest);
    } else {
        let t = xs.drop_first();
        let s = enc_event_items(xs) + rest;
        lemma_enc_event_items_len(xs);
        assert(s =~= enc_event(xs[0]) + (enc_event_items(t) + rest));
        lemma_rt_event(xs[0], enc_event_items(t) + rest);
        lemma_rt_event_items(t, rest);
        assert(seq![xs[0]] + t =~= xs);
    }
}

/// Reading back an encoded list gives it and leaves the rest.
pub proof fn lemma_rt_event_list(xs: Seq<AbsEvent>, rest: Seq<u8>)
    ensures
        sdec_event_list(enc_event_list(xs) + rest) == Some((xs, rest)),
{
    reveal(enc_event_list);
    reveal(sdec_event_list);
    assert(enc_event_list(xs) + rest =~= enc_len(xs.len()) + (enc_event_items(xs) + rest));
    lemma_rt_len(xs.len(), enc_event_items(xs) + rest);
    lemma_rt_event_items(xs, rest);
}

/// Append a counted list of events.
pub fn enc_event_list_push(out: &mut Vec<u8>, xs: &Vec<Event>)
    ensures
        final(out)@ == old(out)@ + enc_event_list(xs.deep_view()),
{
    let ghost dv = xs.deep_view();
    enc_len_push(out, xs.len());
    let ghost start = out@;
    proof {
        
        reveal(enc_event_items);
        assert(dv.skip(0) =~= dv);
        assert(start + enc_event_items(dv) =~= out@ + enc_event_items(dv.skip(0)));
    }
    let mut i: usize = 0;
    while i < xs.len()
        invariant
            i <= xs@.len(),
            dv == xs.deep_view(),
            xs@.len() == dv.len(),
            forall|j: int| 0 <= j < dv.len() ==> #[trigger] dv[j] == xs@[j]@,
            start + enc_event_items(dv) =~= out@ + enc_event_items(dv.skip(i as int)),
        decreases xs@.len() - i,
    {
        proof {
            reveal(enc_event_items);
            assert(dv.skip(i as int)[0] == dv[i as int]);
            assert(dv.skip(i as int).drop_first() =~= dv.skip(i + 1));
        }
        enc_event_push(out, &xs[i]);
        i += 1;
    }
    proof {
        reveal(enc_event_items);
        reveal(enc_event_list);
        assert(enc_event_items(dv.skip(dv.len() as int)).len() == 0);
        assert(start + enc_event_items(dv) =~= out@);
        assert(out@ =~= old(out)@ + enc_event_list(dv));
    }
}

/// Read a counted list of events at `pos`.
pub fn dec_event_list_at(s: &Vec<u8>, pos: usize) -> (r: Result<(Vec<Event>, usize), CodecError>)
    requires
        pos <= s@.len(),
    ensures
        match r {
            Ok((v, p2)) => pos <= p2 <= s@.len() && sdec_event_list(s@.skip(pos as int)) == Some(
                (v.deep_view(), s@.skip(p2 as int)),
            ),
            Err(_) => sdec_event_list(s@.skip(pos as int)) is None,
        },
{
    proof {
        reveal(sdec_event_list);
    }
    let slen = s.len();
    let (n, p1) = match dec_len_at(s, pos) {
        Ok(x) => x,
        Err(e) => {
            proof {
                reveal(sdec_event_list);
                reveal(sdec_event_items);
                if sdec_len(s@.skip(pos as int)) matches Some((nn, r)) {
                    lemma_sdec_len_rest(s@.skip(pos as int));
                }
                assert(sdec_event_list(s@.skip(pos as int)) is None);
            }
            return Err(e);
        },
    };
    let mut acc: Vec<Event> = Vec::new();
    let mut i: usize = 0;
    let mut p = p1;
    proof {
        
        reveal(sdec_event_items);
        assert(acc.deep_view() =~= Seq::<AbsEvent>::empty());
        assert forall|vs: Seq<AbsEvent>| true implies acc.deep_view() + vs =~= vs by {}
    }
    while i < n
        invariant
            i <= n,
            pos <= p <= slen,
            slen == s@.len(),
            pos <= p1 <= slen,
            sdec_len(s@.skip(pos as int)) == Some((n as nat, s@.skip(p1 as int))),
            acc.deep_view().len() == i,
            sdec_event_items(s@.skip(p1 as int), n as nat) == (match sdec_event_items(
                s@.skip(p as int),
                (n - i) as nat,
            ) {
                Some((vs, r)) => Some((acc.deep_view() + vs, r)),
                None => None,
            }),
        decreases n - i,
    {
        if n - i > slen - p {
            proof {
                reveal(sdec_event_list);
                reveal(sdec_event_items);
                assert(sdec_event_items(s@.skip(p as int), (n - i) as nat) is None);
                assert(sdec_event_list(s@.skip(pos as int)) is None);
            }
            return Err(CodecError::ProtocolMismatch);
        }
        let ghost accdv = acc.deep_view();
        let (v, p2) = match dec_event_at(s, p) {
            Ok(x) => x,
            Err(e) => {
                proof {
                    reveal(sdec_event_list);
                    reveal(sdec_event_items);
                    assert(sdec_event_items(s@.skip(p as int), (n - i) as nat) is None);
                    assert(sdec_event_list(s@.skip(pos as int)) is None);
                }
                return Err(e);
            },
        };
        proof {
            reveal(sdec_event_items);
            assert(sdec_event_items(s@.skip(p as int), (n - i) as nat) == (match
                sdec_event_items(s@.skip(p2 as int), (n - (i + 1)) as nat) {
                Some((vs, r)) => Some((seq![v@] + vs, r)),
                None => None,
            }));
        }
        acc.push(v);
        proof {
            
            assert(acc.deep_view() =~= accdv.push(v@));
            assert forall|vs: Seq<AbsEvent>| true implies accdv + (seq![v@] + vs)
                =~= acc.deep_view() + vs by {}
        }
        p = p2;
        i += 1;
    }
    proof {
        reveal(sdec_event_list);
        reveal(sdec_event_items);
        assert(sdec_event_items(s@.skip(p as int), 0) == Some(
            (Seq::<AbsEvent>::empty(), s@.skip(p as int)),
        ));
        assert(acc.deep_view() + Seq::<AbsEvent>::empty() =~= acc.deep_view());
        assert(sdec_event_list(s@.skip(pos as int)) == Some((acc.deep_view(), s@.skip(p as int))));
    }
    Ok((acc, p))
}


/// Items of registry rows, concatenated.
#[verifier::opaque]
pub open spec fn enc_contract_row_items(xs: Seq<(Seq<u8>, AbsContractData)>) -> Seq<u8>
    decreases xs.len(),
{
    if xs.len() == 0 {
        Seq::empty()
    } else {
        enc_contract_row(xs[0]) + enc_contract_row_items(xs.drop_first())
    }
}

/// A counted list of registry rows.
#[verifier::opaque]
pub open spec fn enc_contract_row_list(xs: Seq<(Seq<u8>, AbsContractData)>) -> Seq<u8> {
    enc_len(xs.len()) + enc_contract_row_items(xs)
}

/// Decode `n` items of registry rows.
#[verifier::opaque]
pub open spec fn sdec_contract_row_items(s: Seq<u8>, n: nat) -> Option<(Seq<(Seq<u8>, AbsContractData)>, Seq<u8>)>
    decreases n,
{
    if n == 0 {
        Some((Seq::empty(), s))
    } else if n > s.len() {
        None
    } else {
        match sdec_contract_row(s) {
            Some((v, r)) => match sdec_contract_row_items(r, (n - 1) as nat) {
                Some((vs, r2)) => Some((seq![v] + vs, r2)),
                None => None,
            },
            None => None,
        }
    }
}

/// Decode a counted list of registry rows.
#[verifier::opaque]
pub open spec fn sdec_contract_row_list(s: Seq<u8>) -> Option<(Seq<(Seq<u8>, AbsContractData)>, Seq<u8>)> {
    match sdec_len(s) {
        Some((n, r)) => sdec_contract_row_items(r, n),
        None => None,
    }
}

/// The items take at least one byte each.
proof fn lemma_enc_contract_row_items_len(xs: Seq<(Seq<u8>, AbsContractData)>)
    ensures
        enc_contract_row_items(xs).len() >= xs.len(),
    decreases xs.len(),
{
    reveal(enc_contract_row_items);
    if xs.len() > 0 {
        lemma_enc_contract_row_min(xs[0]);
        lemma_enc_contract_row_items_len(xs.drop_first());
    }
}

/// Reading back encoded items gives them and leaves the rest.
#[verifier::spinoff_prover]
#[verifier::rlimit(50)]
proof fn lemma_rt_contract_row_items(xs: Seq<(Seq<u8>, AbsContractData)>, rest: Seq<u8>)
    ensures
        sdec_contract_row_items(enc_contract_row_items(xs) + rest, xs.len()) == Some((xs, rest)),
    decreases xs.len(),
{
    reveal(enc_contract_row_items);
    reveal(sdec_contract_row_items);
    if xs.len() == 0 {
        assert(enc_contract_row_items(xs) + rest =~= rest);
    } else {
        let t = xs.drop_first();
        let s = enc_contract_row_items(xs) + rest;
        lemma_enc_contract_row_items_len(xs);
        assert(s =~= enc_contract_row(xs[0]) + (enc_contract_row_items(t) + rest));
        lemma_rt_contract_row(xs[0], enc_contract_row_items(t) + rest);
        lemma_rt_contract_row_items(t, rest);
        assert(seq![xs[0]] + t =~= xs);
    }
}

/// Reading back an encoded list gives it and leaves the rest.
pub proof fn lemma_rt_contract_row_list(xs: Seq<(Seq<u8>, AbsContractData)>, rest: Seq<u8>)
    ensures
        sdec_contract_row_list(enc_contract_row_list(xs) + rest) == Some((xs, rest)),
{
    reveal(enc_contract_row_list);
    reveal(sdec_contract_row_list);
    assert(enc_contract_row_list(xs) + rest =~= enc_len(xs.len()) + (enc_contract_row_items(xs) + rest));
    lemma_rt_len(xs.len(), enc_contract_row_items(xs) + rest);
    lemma_rt_contract_row_items(xs, rest);
}

/// Append a counted list of registry rows.
pub fn enc_contract_row_list_push(out: &mut Vec<u8>, xs: &Vec<(Vec<u8>, ContractData)>)
    ensures
        final(out)@ == old(out)@ + enc_contract_row_list(xs.deep_view()),
{
    let ghost dv = xs.deep_view();
    enc_len_push(out, xs.len());
    let ghost start = out@;
    proof {
        lemma_contract_row_views(xs);
        reveal(enc_contract_row_items);
        assert(dv.skip(0) =~= dv);
        assert(start + enc_contract_row_items(dv) =~= out@ + enc_contract_row_items(dv.skip(0)));
    }
    let mut i: usize = 0;
    while i < xs.len()
        invariant
            i <= xs@.len(),
            dv == xs.deep_view(),
            xs@.len() == dv.len(),
            forall|j: int| 0 <= j < dv.len() ==> #[trigger] dv[j] == (xs@[j].0@, xs@[j].1@),
            start + enc_contract_row_items(dv) =~= out@ + enc_contract_row_items(dv.skip(i as int)),
        decreases xs@.len() - i,
    {
        proof {
            reveal(enc_contract_row_items);
            assert(dv.skip(i as int)[0] == dv[i as int]);
            assert(dv.skip(i as int).drop_first() =~= dv.skip(i + 1));
        }
        enc_contract_row_push(out, &xs[i]);
        i += 1;
    }
    proof {
        reveal(enc_contract_row_items);
        reveal(enc_contract_row_list);
        assert(enc_contract_row_items(dv.skip(dv.len() as int)).len() == 0);
        assert(start + enc_contract_row_items(dv) =~= out@);
        assert(out@ =~= old(out)@ + enc_contract_row_list(dv));
    }
}

/// Read a counted list of registry rows at `pos`.
pub fn dec_contract_row_list_at(s: &Vec<u8>, pos: usize) -> (r: Result<(Vec<(Vec<u8>, ContractData)>, usize), CodecError>)
    requires
        pos <= s@.len(),
    ensures
        match r {
            Ok((v, p2)) => pos <= p2 <= s@.len() && sdec_contract_row_list(s@.skip(pos as int)) == Some(
                (v.deep_view(), s@.skip(p2 as int)),
            ),
            Err(_) => sdec_contract_row_list(s@.skip(pos as int)) is None,
        },
{
    proof {
        reveal(sdec_contract_row_list);
    }
    let slen = s.len();
    let (n, p1) = match dec_len_at(s, pos) {
        Ok(x) => x,
        Err(e) => {
            proof {
                reveal(sdec_contract_row_list);
                reveal(sdec_contract_row_items);
                if sdec_len(s@.skip(pos as int)) matches Some((nn, r)) {
                    lemma_sdec_len_rest(s@.skip(pos as int));
                }
                assert(sdec_contract_row_list(s@.skip(pos as int)) is None);
            }
            return Err(e);
        },
    };
    let mut acc: Vec<(Vec<u8>, ContractData)> = Vec::new();
    let mut i: usize = 0;
    let mut p = p1;
    proof {
        lemma_contract_row_views(&acc);
        reveal(sdec_contract_row_items);
        assert(acc.deep_view() =~= Seq::<(Seq<u8>, AbsContractData)>::empty());
        assert forall|vs: Seq<(Seq<u8>, AbsContractData)>| true implies acc.deep_view() + vs =~= vs by {}
    }
    while i < n
        invariant
            i <= n,
            pos <= p <= slen,
            slen == s@.len(),
            pos <= p1 <= slen,
            sdec_len(s@.skip(pos as int)) == Some((n as nat, s@.skip(p1 as int))),
            acc.deep_view().len() == i,
            sdec_contract_row_items(s@.skip(p1 as int), n as nat) == (match sdec_contract_row_items(
                s@.skip(p as int),
                (n - i) as nat,
            ) {
                Some((vs, r)) => Some((acc.deep_view() + vs, r)),
                None => None,
            }),
        decreases n - i,
    {
        if n - i > slen - p {
            proof {
                reveal(sdec_contract_row_list);
                reveal(sdec_contract_row_items);
                assert(sdec_contract_row_items(s@.skip(p as int), (n - i) as nat) is None);
                assert(sdec_contract_row_list(s@.skip(pos as int)) is None);
            }
            return Err(CodecError::ProtocolMismatch);
        }
        let ghost accdv = acc.deep_view();
        let (v, p2) = match dec_contract_row_at(s, p) {
            Ok(x) => x,
            Err(e) => {
                proof {
                    reveal(sdec_contract_row_list);
                    reveal(sdec_contract_row_items);
                    assert(sdec_contract_row_items(s@.skip(p as int), (n - i) as nat) is None);
                    assert(sdec_contract_row_list(s@.skip(pos as int)) is None);
                }
                return Err(e);
            },
        };
        proof {
            reveal(sdec_contract_row_items);
            assert(sdec_contract_row_items(s@.skip(p as int), (n - i) as nat) == (match
                sdec_contract_row_items(s@.skip(p2 as int), (n - (i + 1)) as nat) {
                Some((vs, r)) => Some((seq![(v.0@, v.1@)] + vs, r)),
                None => None,
            }));
        }
        acc.push(v);
        proof {
            lemma_contract_row_views(&acc);
            assert(acc.deep_view() =~= accdv.push((v.0@, v.1@)));
            assert forall|vs: Seq<(Seq<u8>, AbsContractData)>| true implies accdv + (seq![(v.0@, v.1@)] + vs)
                =~= acc.deep_view() + vs by {}
        }
        p = p2;
        i += 1;
    }
    proof {
        reveal(sdec_contract_row_list);
        reveal(sdec_contract_row_items);
        assert(sdec_contract_row_items(s@.skip(p as int), 0) == Some(
            (Seq::<(Seq<u8>, AbsContractData)>::empty(), s@.skip(p as int)),
        ));
        assert(acc.deep_view() + Seq::<(Seq<u8>, AbsContractData)>::empty() =~= acc.deep_view());
        assert(sdec_contract_row_list(s@.skip(pos as int)) == Some((acc.deep_view(), s@.skip(p as int))));
    }
    Ok((acc, p))
}


/// Items of code rows, concatenated.
#[verifier::opaque]
pub open spec fn enc_code_row_items(xs: Seq<(u64, AbsWasmContract)>) -> Seq<u8>
    decreases xs.len(),
{
    if xs.len() == 0 {
        Seq::empty()
    } else {
        enc_code_row(xs[0]) + enc_code_row_items(xs.drop_first())
    }
}

/// A counted list of code rows.
#[verifier::opaque]
pub open spec fn enc_code_row_list(xs: Seq<(u64, AbsWasmContract)>) -> Seq<u8> {
    enc_len(xs.len()) + enc_code_row_items(xs)
}

/// Decode `n` items of code rows.
#[verifier::opaque]
pub open spec fn sdec_code_row_items(s: Seq<u8>, n: nat) -> Option<(Seq<(u64, AbsWasmContract)>, Seq<u8>)>
    decreases n,
{
    if n == 0 {
        Some((Seq::empty(), s))
    } else if n > s.len() {
        None
    } else {
        match sdec_code_row(s) {
            Some((v, r)) => match sdec_code_row_items(r, (n - 1) as nat) {
                Some((vs, r2)) => Some((seq![v] + vs, r2)),
                None => None,
            },
            None => None,
        }
    }
}

/// Decode a counted list of code rows.
#[verifier::opaque]
pub open spec fn sdec_code_row_list(s: Seq<u8>) -> Option<(Seq<(u64, AbsWasmContract)>, Seq<u8>)> {
    match sdec_len(s) {
        Some((n, r)) => sdec_code_row_items(r, n),
        None => None,
    }
}

/// The items take at least one byte each.
proof fn lemma_enc_code_row_items_len(xs: Seq<(u64, AbsWasmContract)>)
    ensures
        enc_code_row_items(xs).len() >= xs.len(),
    decreases xs.len(),
{
    reveal(enc_code_row_items);
    if xs.len() > 0 {
        lemma_enc_code_row_min(xs[0]);
        lemma_enc_code_row_items_len(xs.drop_first());
    }
}

/// Reading back encoded items gives them and leaves the rest.
proof fn lemma_rt_code_row_items(xs: Seq<(u64, AbsWasmContract)>, rest: Seq<u8>)
    ensures
        sdec_code_row_items(enc_code_row_items(xs) + rest, xs.len()) == Some((xs, rest)),
    decreases xs.len(),
{
    reveal(enc_code_row_items);
    reveal(sdec_code_row_items);
    if xs.len() == 0 {
        assert(enc_code_row_items(xs) + rest =~= rest);
    } else {
        let t = xs.drop_first();
        let s = enc_code_row_items(xs) + rest;
        lemma_enc_code_row_items_len(xs);
        assert(s =~= enc_code_row(xs[0]) + (enc_code_row_items(t) + rest));
        lemma_rt_code_row(xs[0], enc_code_row_items(t) + rest);
        lemma_rt_code_row_items(t, rest);
        assert(seq![xs[0]] + t =~= xs);
    }
}

/// Reading back an encoded list gives it and leaves the rest.
pub proof fn lemma_rt_code_row_list(xs: Seq<(u64, AbsWasmContract)>, rest: Seq<u8>)
    ensures
        sdec_code_row_list(enc_code_row_list(xs) + rest) == Some((xs, rest)),
{
    reveal(enc_code_row_list);
    reveal(sdec_code_row_list);
    assert(enc_code_row_list(xs) + rest =~= enc_len(xs.len()) + (enc_code_row_items(xs) + rest));
    lemma_rt_len(xs.len(), enc_code_row_items(xs) + rest);
    lemma_rt_code_row_items(xs, rest);
}

/// Append a counted list of code rows.
pub fn enc_code_row_list_push(out: &mut Vec<u8>, xs: &Vec<(u64, WasmContract)>)
    ensures
        final(out)@ == old(out)@ + enc_code_row_list(xs.deep_view()),
{
    let ghost dv = xs.deep_view();
    enc_len_push(out, xs.len());
    let ghost start = out@;
    proof {
        lemma_code_row_views(xs);
        reveal(enc_code_row_items);
        assert(dv.skip(0) =~= dv);
        assert(start + enc_code_row_items(dv) =~= out@ + enc_code_row_items(dv.skip(0)));
    }
    let mut i: usize = 0;
    while i < xs.len()
        invariant
            i <= xs@.len(),
            dv == xs.deep_view(),
            xs@.len() == dv.len(),
            forall|j: int| 0 <= j < dv.len() ==> #[trigger] dv[j] == (xs@[j].0, xs@[j].1@),
            start + enc_code_row_items(dv) =~= out@ + enc_code_row_items(dv.skip(i as int)),
        decreases xs@.len() - i,
    {
        proof {
            reveal(enc_code_row_items);
            assert(dv.skip(i as int)[0] == dv[i as int]);
            assert(dv.skip(i as int).drop_first() =~= dv.skip(i + 1));
        }
        enc_code_row_push(out, &xs[i]);
        i += 1;
    }
    proof {
        reveal(enc_code_row_items);
        reveal(enc_code_row_list);
        assert(enc_code_row_items(dv.skip(dv.len() as int)).len() == 0);
        assert(start + enc_code_row_items(dv) =~= out@);
        assert(out@ =~= old(out)@ + enc_code_row_list(dv));
    }
}

/// Read a counted list of code rows at `pos`.
pub fn dec_code_row_list_at(s: &Vec<u8>, pos: usize) -> (r: Result<(Vec<(u64, WasmContract)>, usize), CodecError>)
    requires
        pos <= s@.len(),
    ensures
        match r {
            Ok((v, p2)) => pos <= p2 <= s@.len() && sdec_code_row_list(s@.skip(pos as int)) == Some(
                (v.deep_view(), s@.skip(p2 as int)),
            ),
            Err(_) => sdec_code_row_list(s@.skip(pos as int)) is None,
        },
{
    proof {
        reveal(sdec_code_row_list);
    }
    let slen = s.len();
    let (n, p1) = match dec_len_at(s, pos) {
        Ok(x) => x,
        Err(e) => {
            proof {
                reveal(sdec_code_row_list);
                reveal(sdec_code_row_items);
                if sdec_len(s@.skip(pos as int)) matches Some((nn, r)) {
                    lemma_sdec_len_rest(s@.skip(pos as int));
                }
                assert(sdec_code_row_list(s@.skip(pos as int)) is None);
            }
            return Err(e);
        },
    };
    let mut acc: Vec<(u64, WasmContract)> = Vec::new();
    let mut i: usize = 0;
    let mut p = p1;
    proof {
        lemma_code_row_views(&acc);
        reveal(sdec_code_row_items);
        assert(acc.deep_view() =~= Seq::<(u64, AbsWasmContract)>::empty());
        assert forall|vs: Seq<(u64, AbsWasmContract)>| true implies acc.deep_view() + vs =~= vs by {}
    }
    while i < n
        invariant
            i <= n,
            pos <= p <= slen,
            slen == s@.len(),
            pos <= p1 <= slen,
            sdec_len(s@.skip(pos as int)) == Some((n as nat, s@.skip(p1 as int))),
            acc.deep_view().len() == i,
            sdec_code_row_items(s@.skip(p1 as int), n as nat) == (match sdec_code_row_items(
                s@.skip(p as int),
                (n - i) as nat,
            ) {
                Some((vs, r)) => Some((acc.deep_view() + vs, r)),
                None => None,
            }),
        decreases n - i,
    {
        if n - i > slen - p {
            proof {
                reveal(sdec_code_row_list);
                reveal(sdec_code_row_items);
                assert(sdec_code_row_items(s@.skip(p as int), (n - i) as nat) is None);
                assert(sdec_code_row_list(s@.skip(pos as int)) is None);
            }
            return Err(CodecError::ProtocolMismatch);
        }
        let ghost accdv = acc.deep_view();
        let (v, p2) = match dec_code_row_at(s, p) {
            Ok(x) => x,
            Err(e) => {
                proof {
                    reveal(sdec_code_row_list);
                    reveal(sdec_code_row_items);
                    assert(sdec_code_row_items(s@.skip(p as int), (n - i) as nat) is None);
                    assert(sdec_code_row_list(s@.skip(pos as int)) is None);
                }
                return Err(e);
            },
        };
        proof {
            reveal(sdec_code_row_items);
            assert(sdec_code_row_items(s@.skip(p as int), (n - i) as nat) == (match
                sdec_code_row_items(s@.skip(p2 as int), (n - (i + 1)) as nat) {
                Some((vs, r)) => Some((seq![(v.0, v.1@)] + vs, r)),
                None => None,
            }));
        }
        acc.push(v);
        proof {
            lemma_code_row_views(&acc);
            assert(acc.deep_view() =~= accdv.push((v.0, v.1@)));
            assert forall|vs: Seq<(u64, AbsWasmContract)>| true implies accdv + (seq![(v.0, v.1@)] + vs)
                =~= acc.deep_view() + vs by {}
        }
        p = p2;
        i += 1;
    }
    proof {
        reveal(sdec_code_row_list);
        reveal(sdec_code_row_items);
        assert(sdec_code_row_items(s@.skip(p as int), 0) == Some(
            (Seq::<(u64, AbsWasmContract)>::empty(), s@.skip(p as int)),
        ));
        assert(acc.deep_view() + Seq::<(u64, AbsWasmContract)>::empty() =~= acc.deep_view());
        assert(sdec_code_row_list(s@.skip(pos as int)) == Some((acc.deep_view(), s@.skip(p as int))));
    }
    Ok((acc, p))
}


/// Items of ledger rows, concatenated.
#[verifier::opaque]
pub open spec fn enc_bank_row_items(xs: Seq<(Seq<u8>, Seq<AbsCoin>)>) -> Seq<u8>
    decreases xs.len(),
{
    if xs.len() == 0 {
        Seq::empty()
    } else {
        enc_bank_row(xs[0]) + enc_bank_row_items(xs.drop_first())
    }
}

/// A counted list of ledger rows.
#[verifier::opaque]
pub open spec fn enc_bank_row_list(xs: Seq<(Seq<u8>, Seq<AbsCoin>)>) -> Seq<u8> {
    enc_len(xs.len()) + enc_bank_row_items(xs)
}

/// Decode `n` items of ledger rows.
#[verifier::opaque]
pub open spec fn sdec_bank_row_items(s: Seq<u8>, n: nat) -> Option<(Seq<(Seq<u8>, Seq<AbsCoin>)>, Seq<u8>)>
    decreases n,
{
    if n == 0 {
        Some((Seq::empty(), s))
    } else if n > s.len() {
        None
    } else {
        match sdec_bank_row(s) {
            Some((v, r)) => match sdec_bank_row_items(r, (n - 1) as nat) {
                Some((vs, r2)) => Some((seq![v] + vs, r2)),
                None => None,
            },
            None => None,
        }
    }
}

/// Decode a counted list of ledger rows.
#[verifier::opaque]
pub open spec fn sdec_bank_row_list(s: Seq<u8>) -> Option<(Seq<(Seq<u8>, Seq<AbsCoin>)>, Seq<u8>)> {
    match sdec_len(s) {
        Some((n, r)) => sdec_bank_row_items(r, n),
        None => None,
    }
}

/// The items take at least one byte each.
proof fn lemma_enc_bank_row_items_len(xs: Seq<(Seq<u8>, Seq<AbsCoin>)>)
    ensures
        enc_bank_row_items(xs).len() >= xs.len(),
    decreases xs.len(),
{
    reveal(enc_bank_row_items);
    if xs.len() > 0 {
        lemma_enc_bank_row_min(xs[0]);
        lemma_enc_bank_row_items_len(xs.drop_first());
    }
}

/// Reading back encoded items gives them and leaves the rest.
#[verifier::spinoff_prover]
#[verifier::rlimit(50)]
proof fn lemma_rt_bank_row_items(xs: Seq<(Seq<u8>, Seq<AbsCoin>)>, rest: Seq<u8>)
    ensures
        sdec_bank_row_items(enc_bank_row_items(xs) + rest, xs.len()) == Some((xs, rest)),
    decreases xs.len(),
{
    reveal(enc_bank_row_items);
    reveal(sdec_bank_row_items);
    if xs.len() == 0 {
        assert(enc_bank_row_items(xs) + rest =~= rest);
    } else {
        let t = xs.drop_first();
        let s = enc_bank_row_items(xs) + rest;
        lemma_enc_bank_row_items_len(xs);
        assert(s =~= enc_bank_row(xs[0]) + (enc_bank_row_items(t) + rest));
        lemma_rt_bank_row(xs[0], enc_bank_row_items(t) + rest);
        lemma_rt_bank_row_items(t, rest);
        assert(seq![xs[0]] + t =~= xs);
    }
}

/// Reading back an encoded list gives it and leaves the rest.
pub proof fn lemma_rt_bank_row_list(xs: Seq<(Seq<u8>, Seq<AbsCoin>)>, rest: Seq<u8>)
    ensures
        sdec_bank_row_list(enc_bank_row_list(xs) + rest) == Some((xs, rest)),
{
    reveal(enc_bank_row_list);
    reveal(sdec_bank_row_list);
    assert(enc_bank_row_list(xs) + rest =~= enc_len(xs.len()) + (enc_bank_row_items(xs) + rest));
    lemma_rt_len(xs.len(), enc_bank_row_items(xs) + rest);
    lemma_rt_bank_row_items(xs, rest);
}

/// Append a counted list of ledger rows.
pub fn enc_bank_row_list_push(out: &mut Vec<u8>, xs: &Vec<(Vec<u8>, Vec<Coin>)>)
    ensures
        final(out)@ == old(out)@ + enc_bank_row_list(xs.deep_view()),
{
    let ghost dv = xs.deep_view();
    enc_len_push(out, xs.len());
    let ghost start = out@;
    proof {
        lemma_bank_row_views(xs);
        reveal(enc_bank_row_items);
        assert(dv.skip(0) =~= dv);
        assert(start + enc_bank_row_items(dv) =~= out@ + enc_bank_row_items(dv.skip(0)));
    }
    let mut i: usize = 0;
    while i < xs.len()
        invariant
            i <= xs@.len(),
            dv == xs.deep_view(),
            xs@.len() == dv.len(),
            forall|j: int| 0 <= j < dv.len() ==> #[trigger] dv[j] == (xs@[j].0@, xs@[j].1.deep_view()),
            start + enc_bank_row_items(dv) =~= out@ + enc_bank_row_items(dv.skip(i as int)),
        decreases xs@.len() - i,
    {
        proof {
            reveal(enc_bank_row_items);
            assert(dv.skip(i as int)[0] == dv[i as int]);
            assert(dv.skip(i as int).drop_first() =~= dv.skip(i + 1));
        }
        enc_bank_row_push(out, &xs[i]);
        i += 1;
    }
    proof {
        reveal(enc_bank_row_items);
        reveal(enc_bank_row_list);
        assert(enc_bank_row_items(dv.skip(dv.len() as int)).len() == 0);
        assert(start + enc_bank_row_items(dv) =~= out@);
        assert(out@ =~= old(out)@ + enc_bank_row_list(dv));
    }
}

/// Read a counted list of ledger rows at `pos`.
pub fn dec_bank_row_list_at(s: &Vec<u8>, pos: usize) -> (r: Result<(Vec<(Vec<u8>, Vec<Coin>)>, usize), CodecError>)
    requires
        pos <= s@.len(),
    ensures
        match r {
            Ok((v, p2)) => pos <= p2 <= s@.len() && sdec_bank_row_list(s@.skip(pos as int)) == Some(
                (v.deep_view(), s@.skip(p2 as int)),
            ),
            Err(_) => sdec_bank_row_list(s@.skip(pos as int)) is None,
        },
{
    proof {
        reveal(sdec_bank_row_list);
    }
    let slen = s.len();
    let (n, p1) = match dec_len_at(s, pos) {
        Ok(x) => x,
        Err(e) => {
            proof {
                reveal(sdec_bank_row_list);
                reveal(sdec_bank_row_items);
                if sdec_len(s@.skip(pos as int)) matches Some((nn, r)) {
                    lemma_sdec_len_rest(s@.skip(pos as int));
                }
                assert(sdec_bank_row_list(s@.skip(pos as int)) is None);
            }
            return Err(e);
        },
    };
    let mut acc: Vec<(Vec<u8>, Vec<Coin>)> = Vec::new();
    let mut i: usize = 0;
    let mut p = p1;
    proof {
        lemma_bank_row_views(&acc);
        reveal(sdec_bank_row_items);
        assert(acc.deep_view() =~= Seq::<(Seq<u8>, Seq<AbsCoin>)>::empty());
        assert forall|vs: Seq<(Seq<u8>, Seq<AbsCoin>)>| true implies acc.deep_view() + vs =~= vs by {}
    }
    while i < n
        invariant
            i <= n,
            pos <= p <= slen,
            slen == s@.len(),
            pos <= p1 <= slen,
            sdec_len(s@.skip(pos as int)) == Some((n as nat, s@.skip(p1 as int))),
            acc.deep_view().len() == i,
            sdec_bank_row_items(s@.skip(p1 as int), n as nat) == (match sdec_bank_row_items(
                s@.skip(p as int),
                (n - i) as nat,
            ) {
                Some((vs, r)) => Some((acc.deep_view() + vs, r)),
                None => None,
            }),
        decreases n - i,
    {
        if n - i > slen - p {
            proof {
                reveal(sdec_bank_row_list);
                reveal(sdec_bank_row_items);
                assert(sdec_bank_row_items(s@.skip(p as int), (n - i) as nat) is None);
                assert(sdec_bank_row_list(s@.skip(pos as int)) is None);
            }
            return Err(CodecError::ProtocolMismatch);
        }
        let ghost accdv = acc.deep_view();
        let (v, p2) = match dec_bank_row_at(s, p) {
            Ok(x) => x,
            Err(e) => {
                proof {
                    reveal(sdec_bank_row_list);
                    reveal(sdec_bank_row_items);
                    assert(sdec_bank_row_items(s@.skip(p as int), (n - i) as nat) is None);
                    assert(sdec_bank_row_list(s@.skip(pos as int)) is None);
                }
                return Err(e);
            },
        };
        proof {
            reveal(sdec_bank_row_items);
            assert(sdec_bank_row_items(s@.skip(p as int), (n - i) as nat) == (match
                sdec_bank_row_items(s@.skip(p2 as int), (n - (i + 1)) as nat) {
                Some((vs, r)) => Some((seq![(v.0@, v.1.deep_view())] + vs, r)),
                None => None,
            }));
        }
        acc.push(v);
        proof {
            lemma_bank_row_views(&acc);
            assert(acc.deep_view() =~= accdv.push((v.0@, v.1.deep_view())));
            assert forall|vs: Seq<(Seq<u8>, Seq<AbsCoin>)>| true implies accdv + (seq![(v.0@, v.1.deep_view())] + vs)
                =~= acc.deep_view() + vs by {}
        }
        p = p2;
        i += 1;
    }
    proof {
        reveal(sdec_bank_row_list);
        reveal(sdec_bank_row_items);
        assert(sdec_bank_row_items(s@.skip(p as int), 0) == Some(
            (Seq::<(Seq<u8>, Seq<AbsCoin>)>::empty(), s@.skip(p as int)),
        ));
        assert(acc.deep_view() + Seq::<(Seq<u8>, Seq<AbsCoin>)>::empty() =~= acc.deep_view());
        assert(sdec_bank_row_list(s@.skip(pos as int)) == Some((acc.deep_view(), s@.skip(p as int))));
    }
    Ok((acc, p))
}


/// Items of sub-messages, concatenated.
#[verifier::opaque]
pub open spec fn enc_submsg_items(xs: Seq<AbsSubMsg>) -> Seq<u8>
    decreases xs.len(),
{
    if xs.len() == 0 {
        Seq::empty()
    } else {
        enc_submsg(xs[0]) + enc_submsg_items(xs.drop_first())
    }
}

/// A counted list of sub-messages.
#[verifier::opaque]
pub open spec fn enc_submsg_list(xs: Seq<AbsSubMsg>) -> Seq<u8> {
    enc_len(xs.len()) + enc_submsg_items(xs)
}

/// Decode `n` items of sub-messages.
#[verifier::opaque]
pub open spec fn sdec_submsg_items(s: Seq<u8>, n: nat) -> Option<(Seq<AbsSubMsg>, Seq<u8>)>
    decreases n,
{
    if n == 0 {
        Some((Seq::empty(), s))
    } else if n > s.len() {
        None
    } else {
        match sdec_submsg(s) {
            Some((v, r)) => match sdec_submsg_items(r, (n - 1) as nat) {
                Some((vs, r2)) => Some((seq![v] + vs, r2)),
                None => None,
            },
            None => None,
        }
    }
}

/// Decode a counted list of sub-messages.
#[verifier::opaque]
pub open spec fn sdec_submsg_list(s: Seq<u8>) -> Option<(Seq<AbsSubMsg>, Seq<u8>)> {
    match sdec_len(s) {
        Some((n, r)) => sdec_submsg_items(r, n),
        None => None,
    }
}

/// The items take at least one byte each.
proof fn lemma_enc_submsg_items_len(xs: Seq<AbsSubMsg>)
    ensures
        enc_submsg_items(xs).len() >= xs.len(),
    decreases xs.len(),
{
    reveal(enc_submsg_items);
    if xs.len() > 0 {
        lemma_enc_submsg_min(xs[0]);
        lemma_enc_submsg_items_len(xs.drop_first());
    }
}

/// Reading back encoded items gives them and leaves the rest.
#[verifier::spinoff_prover]
#[verifier::rlimit(50)]
proof fn lemma_rt_submsg_items(xs: Seq<AbsSubMsg>, rest: Seq<u8>)
    ensures
        sdec_submsg_items(enc_submsg_items(xs) + rest, xs.len()) == Some((xs, rest)),
    decreases xs.len(),
{
    reveal(enc_submsg_items);
    reveal(sdec_submsg_items);
    if xs.len() == 0 {
        assert(enc_submsg_items(xs) + rest =~= rest);
    } else {
        let t = xs.drop_first();
        let s = enc_submsg_items(xs) + rest;
        lemma_enc_submsg_items_len(xs);
        assert(s =~= enc_submsg(xs[0]) + (enc_submsg_items(t) + rest));
        lemma_rt_submsg(xs[0], enc_submsg_items(t) + rest);
        lemma_rt_submsg_items(t, rest);
        assert(seq![xs[0]] + t =~= xs);
    }
}

/// Reading back an encoded list gives it and leaves the rest.
pub proof fn lemma_rt_submsg_list(xs: Seq<AbsSubMsg>, rest: Seq<u8>)
    ensures
        sdec_submsg_list(enc_submsg_list(xs) + rest) == Some((xs, rest)),
{
    reveal(enc_submsg_list);
    reveal(sdec_submsg_list);
    assert(enc_submsg_list(xs) + rest =~= enc_len(xs.len()) + (enc_submsg_items(xs) + rest));
    lemma_rt_len(xs.len(), enc_submsg_items(xs) + rest);
    lemma_rt_submsg_items(xs, rest);
}

/// Append a counted list of sub-messages.
pub fn enc_submsg_list_push(out: &mut Vec<u8>, xs: &Vec<SubMsg>)
    ensures
        final(out)@ == old(out)@ + enc_submsg_list(xs.deep_view()),
{
    let ghost dv = xs.deep_view();
    enc_len_push(out, xs.len());
    let ghost start = out@;
    proof {
        
        reveal(enc_submsg_items);
        assert(dv.skip(0) =~= dv);
        assert(start + enc_submsg_items(dv) =~= out@ + enc_submsg_items(dv.skip(0)));
    }
    let mut i: usize = 0;
    while i < xs.len()
        invariant
            i <= xs@.len(),
            dv == xs.deep_view(),
            xs@.len() == dv.len(),
            forall|j: int| 0 <= j < dv.len() ==> #[trigger] dv[j] == xs@[j]@,
            start + enc_submsg_items(dv) =~= out@ + enc_submsg_items(dv.skip(i as int)),
        decreases xs@.len() - i,
    {
        proof {
            reveal(enc_submsg_items);
            assert(dv.skip(i as int)[0] == dv[i as int]);
            assert(dv.skip(i as int).drop_first() =~= dv.skip(i + 1));
        }
        enc_submsg_push(out, &xs[i]);
        i += 1;
    }
    proof {
        reveal(enc_submsg_items);
        reveal(enc_submsg_list);
        assert(enc_submsg_items(dv.skip(dv.len() as int)).len() == 0);
        assert(start + enc_submsg_items(dv) =~= out@);
        assert(out@ =~= old(out)@ + enc_submsg_list(dv));
    }
}

/// Read a counted list of sub-messages at `pos`.
pub fn dec_submsg_list_at(s: &Vec<u8>, pos: usize) -> (r: Result<(Vec<SubMsg>, usize), CodecError>)
    requires
        pos <= s@.len(),
    ensures
        match r {
            Ok((v, p2)) => pos <= p2 <= s@.len() && sdec_submsg_list(s@.skip(pos as int)) == Some(
                (v.deep_view(), s@.skip(p2 as int)),
            ),
            Err(_) => sdec_submsg_list(s@.skip(pos as int)) is None,
        },
{
    proof {
        reveal(sdec_submsg_list);
    }
    let slen = s.len();
    let (n, p1) = match dec_len_at(s, pos) {
        Ok(x) => x,
        Err(e) => {
            proof {
                reveal(sdec_submsg_list);
                reveal(sdec_submsg_items);
                if sdec_len(s@.skip(pos as int)) matches Some((nn, r)) {
                    lemma_sdec_len_rest(s@.skip(pos as int));
                }
                assert(sdec_submsg_list(s@.skip(pos as int)) is None);
            }
            return Err(e);
        },
    };
    let mut acc: Vec<SubMsg> = Vec::new();
    let mut i: usize = 0;
    let mut p = p1;
    proof {
        
        reveal(sdec_submsg_items);
        assert(acc.deep_view() =~= Seq::<AbsSubMsg>::empty());
        assert forall|vs: Seq<AbsSubMsg>| true implies acc.deep_view() + vs =~= vs by {}
    }
    while i < n
        invariant
            i <= n,
            pos <= p <= slen,
            slen == s@.len(),
            pos <= p1 <= slen,
            sdec_len(s@.skip(pos as int)) == Some((n as nat, s@.skip(p1 as int))),
            acc.deep_view().len() == i,
            sdec_submsg_items(s@.skip(p1 as int), n as nat) == (match sdec_submsg_items(
                s@.skip(p as int),
                (n - i) as nat,
            ) {
                Some((vs, r)) => Some((acc.deep_view() + vs, r)),
                None => None,
            }),
        decreases n - i,
    {
        if n - i > slen - p {
            proof {
                reveal(sdec_submsg_list);
                reveal(sdec_submsg_items);
                assert(sdec_submsg_items(s@.skip(p as int), (n - i) as nat) is None);
                assert(sdec_submsg_list(s@.skip(pos as int)) is None);
            }
            return Err(CodecError::ProtocolMismatch);
        }
        let ghost accdv = acc.deep_view();
        let (v, p2) = match dec_submsg_at(s, p) {
            Ok(x) => x,
            Err(e) => {
                proof {
                    reveal(sdec_submsg_list);
                    reveal(sdec_submsg_items);
                    assert(sdec_submsg_items(s@.skip(p as int), (n - i) as nat) is None);
                    assert(sdec_submsg_list(s@.skip(pos as int)) is None);
                }
                return Err(e);
            },
        };
        proof {
            reveal(sdec_submsg_items);
            assert(sdec_submsg_items(s@.skip(p as int), (n - i) as nat) == (match
                sdec_submsg_items(s@.skip(p2 as int), (n - (i + 1)) as nat) {
                Some((vs, r)) => Some((seq![v@] + vs, r)),
                None => None,
            }));
        }
        acc.push(v);
        proof {
            
            assert(acc.deep_view() =~= accdv.push(v@));
            assert forall|vs: Seq<AbsSubMsg>| true implies accdv + (seq![v@] + vs)
                =~= acc.deep_view() + vs by {}
        }
        p = p2;
        i += 1;
    }
    proof {
        reveal(sdec_submsg_list);
        reveal(sdec_submsg_items);
        assert(sdec_submsg_items(s@.skip(p as int), 0) == Some(
            (Seq::<AbsSubMsg>::empty(), s@.skip(p as int)),
        ));
        assert(acc.deep_view() + Seq::<AbsSubMsg>::empty() =~= acc.deep_view());
        assert(sdec_submsg_list(s@.skip(pos as int)) == Some((acc.deep_view(), s@.skip(p as int))));
    }
    Ok((acc, p))
}

/// The view of an optional owned byte string.
pub open spec fn opt_bytes_view(o: &Option<Vec<u8>>) -> Option<Seq<u8>> {
    match o {
        Some(v) => Some(v@),
        None => None,
    }
}

/// An encoded byte string takes at least one byte.
proof fn lemma_enc_bytes_min(b: Seq<u8>)
    ensures
        enc_bytes(b).len() >= 1,
{
    lemma_enc_len_min(b.len());
}

/// An encoded coin takes at least one byte.
proof fn lemma_enc_coin_min(v: AbsCoin)
    ensures
        enc_coin(v).len() >= 1,
{
    reveal(enc_coin);
    lemma_enc_bytes_min(v.denom);
}

/// An encoded attribute takes at least one byte.
proof fn lemma_enc_attr_min(v: AbsAttribute)
    ensures
        enc_attr(v).len() >= 1,
{
    reveal(enc_attr);
    lemma_enc_bytes_min(v.key);
}

/// An encoded event takes at least one byte.
proof fn lemma_enc_event_min(v: AbsEvent)
    ensures
        enc_event(v).len() >= 1,
{
    reveal(enc_event);
    lemma_enc_bytes_min(v.ty);
}

/// An encoded sub-message takes at least one byte.
proof fn lemma_enc_submsg_min(v: AbsSubMsg)
    ensures
        enc_submsg(v).len() >= 1,
{
    reveal(enc_submsg);
    lemma_enc_le_len(v.id as nat, 8);
}

/// Encoding of a raw storage entry: key, then value.
#[verifier::opaque]
pub open spec fn enc_kv(e: (Seq<u8>, Seq<u8>)) -> Seq<u8> {
    enc_bytes(e.0) + enc_bytes(e.1)
}

/// Decode a raw storage entry, returning it and the rest.
#[verifier::opaque]
pub open spec fn sdec_kv(s: Seq<u8>) -> Option<((Seq<u8>, Seq<u8>), Seq<u8>)> {
    match sdec_bytes(s) {
        Some((k, r1)) => match sdec_bytes(r1) {
            Some((v, r2)) => Some(((k, v), r2)),
            None => None,
        },
        None => None,
    }
}

/// Reading back an encoded raw entry gives it and leaves the rest.
pub proof fn lemma_rt_kv(e: (Seq<u8>, Seq<u8>), rest: Seq<u8>)
    ensures
        sdec_kv(enc_kv(e) + rest) == Some((e, rest)),
{
    reveal(enc_kv);
    reveal(sdec_kv);
    assert(enc_kv(e) + rest =~= enc_bytes(e.0) + (enc_bytes(e.1) + rest));
    lemma_rt_bytes(e.0, enc_bytes(e.1) + rest);
    lemma_rt_bytes(e.1, rest);
}

/// An encoded raw entry takes at least one byte.
proof fn lemma_enc_kv_min(e: (Seq<u8>, Seq<u8>))
    ensures
        enc_kv(e).len() >= 1,
{
    reveal(enc_kv);
    lemma_enc_bytes_min(e.0);
}

/// Append an encoded raw entry.
pub fn enc_kv_push(out: &mut Vec<u8>, e: &(Vec<u8>, Vec<u8>))
    ensures
        final(out)@ == old(out)@ + enc_kv((e.0@, e.1@)),
{
    enc_bytes_push(out, &e.0);
    enc_bytes_push(out, &e.1);
    proof {
        reveal(enc_kv);
        assert(out@ =~= old(out)@ + enc_kv((e.0@, e.1@)));
    }
}

/// Read a raw storage entry at `pos`.
pub fn dec_kv_at(s: &Vec<u8>, pos: usize) -> (r: Result<((Vec<u8>, Vec<u8>), usize), CodecError>)
    requires
        pos <= s@.len(),
    ensures
        match r {
            Ok((v, p2)) => pos <= p2 <= s@.len() && sdec_kv(s@.skip(pos as int)) == Some(
                ((v.0@, v.1@), s@.skip(p2 as int)),
            ),
            Err(_) => sdec_kv(s@.skip(pos as int)) is None,
        },
{
    proof {
        reveal(sdec_kv);
    }
    let (k, p1) = match dec_bytes_at(s, pos) {
        Ok(x) => x,
        Err(e) => {
            return Err(e);
        },
    };
    let (v, p2) = match dec_bytes_at(s, p1) {
        Ok(x) => x,
        Err(e) => {
            return Err(e);
        },
    };
    Ok(((k, v), p2))
}

/// Encoding of a contract registry row: address, then record.
#[verifier::opaque]
pub open spec fn enc_contract_row(e: (Seq<u8>, AbsContractData)) -> Seq<u8> {
    enc_bytes(e.0) + enc_contract_data(e.1)
}

/// Decode a contract registry row, returning it and the rest.
#[verifier::opaque]
pub open spec fn sdec_contract_row(s: Seq<u8>) -> Option<((Seq<u8>, AbsContractData), Seq<u8>)> {
    match sdec_bytes(s) {
        Some((k, r1)) => match sdec_contract_data(r1) {
            Some((v, r2)) => Some(((k, v), r2)),
            None => None,
        },
        None => None,
    }
}

/// Reading back an encoded registry row gives it and leaves the rest.
pub proof fn lemma_rt_contract_row(e: (Seq<u8>, AbsContractData), rest: Seq<u8>)
    ensures
        sdec_contract_row(enc_contract_row(e) + rest) == Some((e, rest)),
{
    reveal(enc_contract_row);
    reveal(sdec_contract_row);
    assert(enc_contract_row(e) + rest =~= enc_bytes(e.0) + (enc_contract_data(e.1) + rest));
    lemma_rt_bytes(e.0, enc_contract_data(e.1) + rest);
    lemma_rt_contract_data(e.1, rest);
}

/// An encoded registry row takes at least one byte.
proof fn lemma_enc_contract_row_min(e: (Seq<u8>, AbsContractData))
    ensures
        enc_contract_row(e).len() >= 1,
{
    reveal(enc_contract_row);
    lemma_enc_bytes_min(e.0);
}

/// Append an encoded registry row.
pub fn enc_contract_row_push(out: &mut Vec<u8>, e: &(Vec<u8>, ContractData))
    ensures
        final(out)@ == old(out)@ + enc_contract_row((e.0@, e.1@)),
{
    enc_bytes_push(out, &e.0);
    enc_contract_data_push(out, &e.1);
    proof {
        reveal(enc_contract_row);
        assert(out@ =~= old(out)@ + enc_contract_row((e.0@, e.1@)));
    }
}

/// Read a contract registry row at `pos`.
pub fn dec_contract_row_at(s: &Vec<u8>, pos: usize) -> (r: Result<
    ((Vec<u8>, ContractData), usize),
    CodecError,
>)
    requires
        pos <= s@.len(),
    ensures
        match r {
            Ok((v, p2)) => pos <= p2 <= s@.len() && sdec_contract_row(s@.skip(pos as int)) == Some(
                ((v.0@, v.1@), s@.skip(p2 as int)),
            ),
            Err(_) => sdec_contract_row(s@.skip(pos as int)) is None,
        },
{
    proof {
        reveal(sdec_contract_row);
    }
    let (k, p1) = match dec_bytes_at(s, pos) {
        Ok(x) => x,
        Err(e) => {
            return Err(e);
        },
    };
    let (v, p2) = match dec_contract_data_at(s, p1) {
        Ok(x) => x,
        Err(e) => {
            return Err(e);
        },
    };
    Ok(((k, v), p2))
}

/// Encoding of a code table row: code id, then bytecode reference.
#[verifier::opaque]
pub open spec fn enc_code_row(e: (u64, AbsWasmContract)) -> Seq<u8> {
    enc_u64(e.0) + enc_wasm_contract(e.1)
}

/// Decode a code table row, returning it and the rest.
#[verifier::opaque]
pub open spec fn sdec_code_row(s: Seq<u8>) -> Option<((u64, AbsWasmContract), Seq<u8>)> {
    match sdec_u64(s) {
        Some((k, r1)) => match sdec_wasm_contract(r1) {
            Some((v, r2)) => Some(((k, v), r2)),
            None => None,
        },
        None => None,
    }
}

/// Reading back an encoded code row gives it and leaves the rest.
pub proof fn lemma_rt_code_row(e: (u64, AbsWasmContract), rest: Seq<u8>)
    ensures
        sdec_code_row(enc_code_row(e) + rest) == Some((e, rest)),
{
    reveal(enc_code_row);
    reveal(sdec_code_row);
    assert(enc_code_row(e) + rest =~= enc_u64(e.0) + (enc_wasm_contract(e.1) + rest));
    lemma_rt_u64(e.0, enc_wasm_contract(e.1) + rest);
    lemma_rt_wasm_contract(e.1, rest);
}

/// An encoded code row takes at least one byte.
proof fn lemma_enc_code_row_min(e: (u64, AbsWasmContract))
    ensures
        enc_code_row(e).len() >= 1,
{
    reveal(enc_code_row);
    lemma_enc_le_len(e.0 as nat, 8);
}

/// Append an encoded code row.
pub fn enc_code_row_push(out: &mut Vec<u8>, e: &(u64, WasmContract))
    ensures
        final(out)@ == old(out)@ + enc_code_row((e.0, e.1@)),
{
    enc_u64_push(out, e.0);
    enc_wasm_contract_push(out, &e.1);
    proof {
        reveal(enc_code_row);
        assert(out@ =~= old(out)@ + enc_code_row((e.0, e.1@)));
    }
}

/// Read a code table row at `pos`.
pub fn dec_code_row_at(s: &Vec<u8>, pos: usize) -> (r: Result<
    ((u64, WasmContract), usize),
    CodecError,
>)
    requires
        pos <= s@.len(),
    ensures
        match r {
            Ok((v, p2)) => pos <= p2 <= s@.len() && sdec_code_row(s@.skip(pos as int)) == Some(
                ((v.0, v.1@), s@.skip(p2 as int)),
            ),
            Err(_) => sdec_code_row(s@.skip(pos as int)) is None,
        },
{
    proof {
        reveal(sdec_code_row);
    }
    let (k, p1) = match dec_u64_at(s, pos) {
        Ok(x) => x,
        Err(e) => {
            return Err(e);
        },
    };
    let (v, p2) = match dec_wasm_contract_at(s, p1) {
        Ok(x) => x,
        Err(e) => {
            return Err(e);
        },
    };
    Ok(((k, v), p2))
}

/// Encoding of a bank ledger row: address, then balances.
#[verifier::opaque]
pub open spec fn enc_bank_row(e: (Seq<u8>, Seq<AbsCoin>)) -> Seq<u8> {
    enc_bytes(e.0) + enc_coin_list(e.1)
}

/// Decode a bank ledger row, returning it and the rest.
#[verifier::opaque]
pub open spec fn sdec_bank_row(s: Seq<u8>) -> Option<((Seq<u8>, Seq<AbsCoin>), Seq<u8>)> {
    match sdec_bytes(s) {
        Some((k, r1)) => match sdec_coin_list(r1) {
            Some((v, r2)) => Some(((k, v), r2)),
            None => None,
        },
        None => None,
    }
}

/// Reading back an encoded ledger row gives it and leaves the rest.
pub proof fn lemma_rt_bank_row(e: (Seq<u8>, Seq<AbsCoin>), rest: Seq<u8>)
    ensures
        sdec_bank_row(enc_bank_row(e) + rest) == Some((e, rest)),
{
    reveal(enc_bank_row);
    reveal(sdec_bank_row);
    assert(enc_bank_row(e) + rest =~= enc_bytes(e.0) + (enc_coin_list(e.1) + rest));
    lemma_rt_bytes(e.0, enc_coin_list(e.1) + rest);
    lemma_rt_coin_list(e.1, rest);
}

/// An encoded ledger row takes at least one byte.
proof fn lemma_enc_bank_row_min(e: (Seq<u8>, Seq<AbsCoin>))
    ensures
        enc_bank_row(e).len() >= 1,
{
    reveal(enc_bank_row);
    lemma_enc_bytes_min(e.0);
}

/// Append an encoded ledger row.
pub fn enc_bank_row_push(out: &mut Vec<u8>, e: &(Vec<u8>, Vec<Coin>))
    ensures
        final(out)@ == old(out)@ + enc_bank_row((e.0@, e.1.deep_view())),
{
    enc_bytes_push(out, &e.0);
    enc_coin_list_push(out, &e.1);
    proof {
        reveal(enc_bank_row);
        assert(out@ =~= old(out)@ + enc_bank_row((e.0@, e.1.deep_view())));
    }
}

/// Read a bank ledger row at `pos`.
pub fn dec_bank_row_at(s: &Vec<u8>, pos: usize) -> (r: Result<
    ((Vec<u8>, Vec<Coin>), usize),
    CodecError,
>)
    requires
        pos <= s@.len(),
    ensures
        match r {
            Ok((v, p2)) => pos <= p2 <= s@.len() && sdec_bank_row(s@.skip(pos as int)) == Some(
                ((v.0@, v.1.deep_view()), s@.skip(p2 as int)),
            ),
            Err(_) => sdec_bank_row(s@.skip(pos as int)) is None,
        },
{
    proof {
        reveal(sdec_bank_row);
    }
    let (k, p1) = match dec_bytes_at(s, pos) {
        Ok(x) => x,
        Err(e) => {
            return Err(e);
        },
    };
    let (v, p2) = match dec_coin_list_at(s, p1) {
        Ok(x) => x,
        Err(e) => {
            return Err(e);
        },
    };
    Ok(((k, v), p2))
}

/// Each element of the deep view of a registry row vector is the pair of
/// views of the element's halves.
proof fn lemma_contract_row_views(v: &Vec<(Vec<u8>, ContractData)>)
    ensures
        v.deep_view().len() == v@.len(),
        forall|i: int| 0 <= i < v@.len() ==> #[trigger] v.deep_view()[i] == (v@[i].0@, v@[i].1@),
{
    assert forall|i: int| 0 <= i < v@.len() implies #[trigger] v.deep_view()[i] == (
        v@[i].0@,
        v@[i].1@,
    ) by {
        assert(v.deep_view()[i].0 =~= v@[i].0@);
    }
}

/// Each element of the deep view of a code row vector is the pair of views
/// of the element's halves.
proof fn lemma_code_row_views(v: &Vec<(u64, WasmContract)>)
    ensures
        v.deep_view().len() == v@.len(),
        forall|i: int| 0 <= i < v@.len() ==> #[trigger] v.deep_view()[i] == (v@[i].0, v@[i].1@),
{
    assert forall|i: int| 0 <= i < v@.len() implies #[trigger] v.deep_view()[i] == (
        v@[i].0,
        v@[i].1@,
    ) by {}
}

/// Each element of the deep view of a ledger row vector is the pair of views
/// of the element's halves.
proof fn lemma_bank_row_views(v: &Vec<(Vec<u8>, Vec<Coin>)>)
    ensures
        v.deep_view().len() == v@.len(),
        forall|i: int|
            0 <= i < v@.len() ==> #[trigger] v.deep_view()[i] == (v@[i].0@, v@[i].1.deep_view()),
{
    assert forall|i: int| 0 <= i < v@.len() implies #[trigger] v.deep_view()[i] == (
        v@[i].0@,
        v@[i].1.deep_view(),
    ) by {
        assert(v.deep_view()[i].0 =~= v@[i].0@);
    }
}

/// Encoding of a request envelope body: its fields in order.
pub open spec fn enc_instance_args(v: AbsInstanceArguments) -> Seq<u8> {
    enc_wasm_function(v.function) + enc_kv_list(v.init_storage) + enc_querier(v.querier_storage)
}

/// Decode a request envelope body.
pub open spec fn sdec_instance_args(s: Seq<u8>) -> Option<(AbsInstanceArguments, Seq<u8>)> {
    match sdec_wasm_function(s) {
        Some((function, r1)) => match sdec_kv_list(r1) {
            Some((init_storage, r2)) => match sdec_querier(r2) {
                Some((querier_storage, r3)) => Some(
                    (AbsInstanceArguments { function, init_storage, querier_storage }, r3),
                ),
                None => None,
            },
            None => None,
        },
        None => None,
    }
}

/// Reading back an encoded request body gives it and leaves the rest.
pub proof fn lemma_rt_instance_args(v: AbsInstanceArguments, rest: Seq<u8>)
    ensures
        sdec_instance_args(enc_instance_args(v) + rest) == Some((v, rest)),
{
    assert(enc_instance_args(v) + rest =~= enc_wasm_function(v.function) + (enc_kv_list(
        v.init_storage,
    ) + (enc_querier(v.querier_storage) + rest)));
    lemma_rt_wasm_function(v.function, enc_kv_list(v.init_storage) + (enc_querier(
        v.querier_storage,
    ) + rest));
    lemma_rt_kv_list(v.init_storage, enc_querier(v.querier_storage) + rest);
    lemma_rt_querier(v.querier_storage, rest);
    assert((AbsInstanceArguments {
        function: v.function,
        init_storage: v.init_storage,
        querier_storage: v.querier_storage,
    }) =~= v);
}

/// Encoding of a response envelope body: its fields in order.
pub open spec fn enc_runner_output(v: AbsWasmRunnerOutput) -> Seq<u8> {
    enc_wasm_output(v.wasm) + enc_storage_changes(v.storage)
}

/// Decode a response envelope body.
pub open spec fn sdec_runner_output(s: Seq<u8>) -> Option<(AbsWasmRunnerOutput, Seq<u8>)> {
    match sdec_wasm_output(s) {
        Some((wasm, r1)) => match sdec_storage_changes(r1) {
            Some((storage, r2)) => Some((AbsWasmRunnerOutput { wasm, storage }, r2)),
            None => None,
        },
        None => None,
    }
}

/// Reading back an encoded response body gives it and leaves the rest.
pub proof fn lemma_rt_runner_output(v: AbsWasmRunnerOutput, rest: Seq<u8>)
    ensures
        sdec_runner_output(enc_runner_output(v) + rest) == Some((v, rest)),
{
    assert(enc_runner_output(v) + rest =~= enc_wasm_output(v.wasm) + (enc_storage_changes(
        v.storage,
    ) + rest));
    lemma_rt_wasm_output(v.wasm, enc_storage_changes(v.storage) + rest);
    lemma_rt_storage_changes(v.storage, rest);
    assert((AbsWasmRunnerOutput { wasm: v.wasm, storage: v.storage }) =~= v);
}

/// The version byte every envelope starts with.
pub const ENVELOPE_VERSION: u8 = 1;

/// Encoding of a full request envelope: version byte, then the body.
pub open spec fn enc_request(v: AbsInstanceArguments) -> Seq<u8> {
    seq![ENVELOPE_VERSION] + enc_instance_args(v)
}

/// What a full request byte string decodes to: the body after the version
/// byte, with nothing left over; anything else is a mismatch.
pub open spec fn spec_decode_request(s: Seq<u8>) -> Option<AbsInstanceArguments> {
    match sdec_u8(s) {
        Some((tag, r)) => if tag == ENVELOPE_VERSION {
            match sdec_instance_args(r) {
                Some((v, r2)) => if r2.len() == 0 {
                    Some(v)
                } else {
                    None
                },
                None => None,
            }
        } else {
            None
        },
        None => None,
    }
}

/// Encoding of a full response envelope: version byte, then the body.
pub open spec fn enc_response_envelope(v: AbsWasmRunnerOutput) -> Seq<u8> {
    seq![ENVELOPE_VERSION] + enc_runner_output(v)
}

/// What a full response byte string decodes to.
pub open spec fn spec_decode_response(s: Seq<u8>) -> Option<AbsWasmRunnerOutput> {
    match sdec_u8(s) {
        Some((tag, r)) => if tag == ENVELOPE_VERSION {
            match sdec_runner_output(r) {
                Some((v, r2)) => if r2.len() == 0 {
                    Some(v)
                } else {
                    None
                },
                None => None,
            }
        } else {
            None
        },
        None => None,
    }
}

/// Encoding then decoding a request envelope reproduces it field for field.
pub proof fn lemma_request_round_trip(v: AbsInstanceArguments)
    ensures
        spec_decode_request(enc_request(v)) == Some(v),
{
    let rest = Seq::<u8>::empty();
    assert(enc_request(v) =~= seq![ENVELOPE_VERSION] + (enc_instance_args(v) + rest));
    lemma_rt_u8(ENVELOPE_VERSION, enc_instance_args(v) + rest);
    lemma_rt_instance_args(v, rest);
}

/// Encoding then decoding a response envelope reproduces it field for field.
pub proof fn lemma_response_round_trip(v: AbsWasmRunnerOutput)
    ensures
        spec_decode_response(enc_response_envelope(v)) == Some(v),
{
    let rest = Seq::<u8>::empty();
    assert(enc_response_envelope(v) =~= seq![ENVELOPE_VERSION] + (enc_runner_output(v) + rest));
    lemma_rt_u8(ENVELOPE_VERSION, enc_runner_output(v) + rest);
    lemma_rt_runner_output(v, rest);
}

/// Serialize a request envelope.
pub fn encode_request(v: &InstanceArguments) -> (r: Vec<u8>)
    ensures
        r@ == enc_request(v@),
{
    let mut out: Vec<u8> = Vec::new();
    enc_u8_push(&mut out, ENVELOPE_VERSION);
    enc_wasm_function_push(&mut out, &v.function);
    enc_kv_list_push(&mut out, &v.init_storage);
    enc_querier_push(&mut out, &v.querier_storage);
    proof {
        assert(out@ =~= enc_request(v@));
    }
    out
}

/// Parse a request envelope; a version or format mismatch is fatal and
/// nothing is partially interpreted.
pub fn decode_request(s: &Vec<u8>) -> (r: Result<InstanceArguments, CodecError>)
    ensures
        match r {
            Ok(v) => spec_decode_request(s@) == Some(v@),
            Err(_) => spec_decode_request(s@) is None,
        },
{
    proof {
        assert(s@.skip(0) =~= s@);
    }
    let (tag, p0) = match dec_u8_at(s, 0) {
        Ok(x) => x,
        Err(e) => {
            return Err(e);
        },
    };
    if tag != ENVELOPE_VERSION {
        return Err(CodecError::ProtocolMismatch);
    }
    let (function, p1) = match dec_wasm_function_at(s, p0) {
        Ok(x) => x,
        Err(e) => {
            return Err(e);
        },
    };
    let (init_storage, p2) = match dec_kv_list_at(s, p1) {
        Ok(x) => x,
        Err(e) => {
            return Err(e);
        },
    };
    let (querier_storage, p3) = match dec_querier_at(s, p2) {
        Ok(x) => x,
        Err(e) => {
            return Err(e);
        },
    };
    if p3 != s.len() {
        return Err(CodecError::ProtocolMismatch);
    }
    let v = InstanceArguments { function, init_storage, querier_storage };
    proof {
        assert(s@.skip(p3 as int).len() == 0);
        assert(v@ =~= (AbsInstanceArguments {
            function: function@,
            init_storage: init_storage.deep_view(),
            querier_storage: querier_storage@,
        }));
    }
    Ok(v)
}

/// Serialize a response envelope.
pub fn encode_response(v: &WasmRunnerOutput) -> (r: Vec<u8>)
    ensures
        r@ == enc_response_envelope(v@),
{
    let mut out: Vec<u8> = Vec::new();
    enc_u8_push(&mut out, ENVELOPE_VERSION);
    enc_wasm_output_push(&mut out, &v.wasm);
    enc_storage_changes_push(&mut out, &v.storage);
    proof {
        assert(out@ =~= enc_response_envelope(v@));
    }
    out
}

/// Parse a response envelope; a version or format mismatch is fatal and
/// nothing is partially interpreted.
pub fn decode_response(s: &Vec<u8>) -> (r: Result<WasmRunnerOutput, CodecError>)
    ensures
        match r {
            Ok(v) => spec_decode_response(s@) == Some(v@),
            Err(_) => spec_decode_response(s@) is None,
        },
{
    proof {
        assert(s@.skip(0) =~= s@);
    }
    let (tag, p0) = match dec_u8_at(s, 0) {
        Ok(x) => x,
        Err(e) => {
            return Err(e);
        },
    };
    if tag != ENVELOPE_VERSION {
        return Err(CodecError::ProtocolMismatch);
    }
    let (wasm, p1) = match dec_wasm_output_at(s, p0) {
        Ok(x) => x,
        Err(e) => {
            return Err(e);
        },
    };
    let (storage, p2) = match dec_storage_changes_at(s, p1) {
        Ok(x) => x,
        Err(e) => {
            return Err(e);
        },
    };
    if p2 != s.len() {
        return Err(CodecError::ProtocolMismatch);
    }
    let v = WasmRunnerOutput { wasm, storage };
    proof {
        assert(s@.skip(p2 as int).len() == 0);
        assert(v@ =~= (AbsWasmRunnerOutput { wasm: wasm@, storage: storage@ }));
    }
    Ok(v)
}

} // verus!
