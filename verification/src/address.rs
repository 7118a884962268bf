//! Address translation: between human-readable Bech32 addresses and
//! canonical binary addresses, chain-accurate first, and a deterministic
//! mock scheme for contracts that exist only in the local test.  A canonical
//! address must be exactly 20 or 32 bytes; any other length is a validation
//! error.

use vstd::prelude::*;

use crate::text::spec_decimal;

verus! {

/// The short canonical address length.
pub const SHORT_CANON_LEN: usize = 20;

/// The long canonical address length.
pub const LONG_CANON_LEN: usize = 32;

/// Whether the string is a valid Bech32 encoding whose data part converts to
/// bytes.
pub uninterp spec fn bech32_ok(s: Seq<char>) -> bool;

/// The human-readable part of a valid Bech32 string.
pub uninterp spec fn bech32_hrp(s: Seq<char>) -> Seq<char>;

/// The data bytes of a valid Bech32 string.
pub uninterp spec fn bech32_bytes(s: Seq<char>) -> Seq<u8>;

/// Whether a human-readable part can head a Bech32 encoding.
pub uninterp spec fn bech32_enc_ok(hrp: Seq<char>) -> bool;

/// The Bech32 encoding of data bytes under a human-readable part.
pub uninterp spec fn bech32_enc(hrp: Seq<char>, data: Seq<u8>) -> Seq<char>;

/// Relies on `bech32::decode` and `Vec::<u8>::from_base32`: whether a string
/// decodes, its human-readable part and its data bytes are functions of the
/// string alone.
#[verifier::external_body]
fn decode_bech32(address: &str) -> (r: Option<(String, Vec<u8>)>)
    ensures
        (r is Some) == bech32_ok(address@),
        r matches Some((hrp, data)) ==> hrp@ == bech32_hrp(address@) && data@ == bech32_bytes(
            address@,
        ),
{
    match bech32::decode(address) {
        Ok((hrp, data, _variant)) => {
            match <Vec<u8> as bech32::FromBase32>::from_base32(&data) {
                Ok(bytes) => Some((hrp, bytes)),
                Err(_) => None,
            }
        },
        Err(_) => None,
    }
}

/// No upper-case ASCII letter anywhere: decoding hands the human-readable
/// part back in lower case, so only such a part survives a round trip
/// unchanged.
pub open spec fn lowercase_part(s: Seq<char>) -> bool {
    forall|i: int| 0 <= i < s.len() ==> !('A' <= #[trigger] s[i] <= 'Z')
}

/// Relies on `bech32::encode` with the `Bech32` variant and `ToBase32`:
/// success depends on the human-readable part alone, and the result on the
/// part and the data bytes alone.  An encoded string is never empty (it
/// carries the separator and the six-character checksum) and decodes back to
/// its part and bytes (`bech32::decode` returns the part in lower case, so
/// this is stated for a part with no upper-case letter).
#[verifier::external_body]
fn encode_bech32(hrp: &str, data: &[u8]) -> (r: Option<String>)
    ensures
        (r is Some) == bech32_enc_ok(hrp@),
        r matches Some(s) ==> s@ == bech32_enc(hrp@, data@),
        r matches Some(s) ==> s@.len() > 0,
        r matches Some(s) ==> (lowercase_part(hrp@) ==> bech32_ok(s@) && bech32_hrp(s@) == hrp@
            && bech32_bytes(s@) == data@),
{
    match bech32::encode(hrp, bech32::ToBase32::to_base32(&data), bech32::Variant::Bech32) {
        Ok(s) => Some(s),
        Err(_) => None,
    }
}

/// Relies on `str::chars`: the characters of the string, in order.
#[verifier::external_body]
fn chars_of(s: &str) -> (r: Vec<char>)
    ensures
        r@ == s@,
{
    s.chars().collect()
}

/// Relies on `String::push`: appends the character to the end.
#[verifier::external_body]
fn push_char(s: &mut String, c: char)
    ensures
        final(s)@ == old(s)@ + seq![c],
{
    s.push(c);
}

/// Failure of address translation.
#[derive(Debug, PartialEq, Eq, Structural, Clone, Copy)]
pub enum AddressError {
    /// An empty address string is not allowed.
    EmptyAddress,
    /// The string is not a valid Bech32 encoding.
    InvalidEncoding,
    /// The human-readable part is not the expected prefix.
    WrongPrefix,
    /// A canonical address must be exactly 20 or 32 bytes.
    WrongCanonicalLength,
    /// The prefix cannot head a Bech32 encoding.
    InvalidPrefix,
}

/// Decodes a Bech32 address and validates it: empty strings, undecodable
/// strings, wrong prefixes and data of any length other than 20 or 32 bytes
/// are each rejected with their own error; a valid address yields exactly
/// its data bytes.
pub fn bytes_from_bech32(address: &str, prefix: &str) -> (r: Result<Vec<u8>, AddressError>)
    ensures
        (r is Ok) == (address@.len() > 0 && bech32_ok(address@) && bech32_hrp(address@)
            == prefix@ && (bech32_bytes(address@).len() == 20 || bech32_bytes(address@).len()
            == 32)),
        r matches Ok(b) ==> b@ == bech32_bytes(address@),
        r == (if address@.len() == 0 {
            Err::<Vec<u8>, AddressError>(AddressError::EmptyAddress)
        } else if !bech32_ok(address@) {
            Err::<Vec<u8>, AddressError>(AddressError::InvalidEncoding)
        } else if bech32_hrp(address@) != prefix@ {
            Err::<Vec<u8>, AddressError>(AddressError::WrongPrefix)
        } else if !(bech32_bytes(address@).len() == 20 || bech32_bytes(address@).len() == 32) {
            Err::<Vec<u8>, AddressError>(AddressError::WrongCanonicalLength)
        } else {
            r
        }),
{
    if address.is_empty() {
        return Err(AddressError::EmptyAddress);
    }
    match decode_bech32(address) {
        Some((hrp, data)) => {
            let expected = String::from_str(prefix);
            if hrp == expected {
                if data.len() != SHORT_CANON_LEN && data.len() != LONG_CANON_LEN {
                    return Err(AddressError::WrongCanonicalLength);
                }
                Ok(data)
            } else {
                Err(AddressError::WrongPrefix)
            }
        },
        None => Err(AddressError::InvalidEncoding),
    }
}

/// The characters of a prefix held by an api value, in order.
pub open spec fn api_prefix_chars(api: RealApi) -> Seq<char> {
    opt_char(api.prefix1) + opt_char(api.prefix2) + opt_char(api.prefix3) + opt_char(api.prefix4)
        + opt_char(api.prefix5) + opt_char(api.prefix6)
}

/// The character at position `i`, when the prefix is that long.
pub open spec fn nth_char(s: Seq<char>, i: int) -> Option<char> {
    if i < s.len() {
        Some(s[i])
    } else {
        None
    }
}

/// A one-character sequence, or empty.
pub open spec fn opt_char(c: Option<char>) -> Seq<char> {
    match c {
        Some(ch) => seq![ch],
        None => Seq::empty(),
    }
}

/// The chain-accurate address codec.  The prefix is held as up to six
/// characters, so the value stays plain data.
#[derive(Clone, Copy)]
pub struct RealApi {
    pub prefix1: Option<char>,
    pub prefix2: Option<char>,
    pub prefix3: Option<char>,
    pub prefix4: Option<char>,
    pub prefix5: Option<char>,
    pub prefix6: Option<char>,
}

impl RealApi {
    /// An api for the given prefix: its first six characters, in order;
    /// positions past the prefix's end stay empty.
    pub fn new(prefix: &str) -> (r: RealApi)
        ensures
            r.prefix1 == nth_char(prefix@, 0),
            r.prefix2 == nth_char(prefix@, 1),
            r.prefix3 == nth_char(prefix@, 2),
            r.prefix4 == nth_char(prefix@, 3),
            r.prefix5 == nth_char(prefix@, 4),
            r.prefix6 == nth_char(prefix@, 5),
            api_prefix_chars(r) == if prefix@.len() <= 6 {
                prefix@
            } else {
                prefix@.take(6)
            },
    {
        let cs = chars_of(prefix);
        let r = RealApi {
            prefix1: if cs.len() > 0 {
                Some(cs[0])
            } else {
                None
            },
            prefix2: if cs.len() > 1 {
                Some(cs[1])
            } else {
                None
            },
            prefix3: if cs.len() > 2 {
                Some(cs[2])
            } else {
                None
            },
            prefix4: if cs.len() > 3 {
                Some(cs[3])
            } else {
                None
            },
            prefix5: if cs.len() > 4 {
                Some(cs[4])
            } else {
                None
            },
            prefix6: if cs.len() > 5 {
                Some(cs[5])
            } else {
                None
            },
        };
        proof {
            if prefix@.len() <= 6 {
                assert(api_prefix_chars(r) =~= prefix@);
            } else {
                assert(api_prefix_chars(r) =~= prefix@.take(6));
            }
        }
        r
    }

    /// The prefix as a string.
    pub fn get_prefix(&self) -> (r: String)
        ensures
            r@ == api_prefix_chars(*self),
    {
        let mut s = String::new();
        match self.prefix1 {
            Some(c) => push_char(&mut s, c),
            None => (),
        }
        match self.prefix2 {
            Some(c) => push_char(&mut s, c),
            None => (),
        }
        match self.prefix3 {
            Some(c) => push_char(&mut s, c),
            None => (),
        }
        match self.prefix4 {
            Some(c) => push_char(&mut s, c),
            None => (),
        }
        match self.prefix5 {
            Some(c) => push_char(&mut s, c),
            None => (),
        }
        match self.prefix6 {
            Some(c) => push_char(&mut s, c),
            None => (),
        }
        proof {
            assert(s@ =~= api_prefix_chars(*self));
        }
        s
    }

    /// The canonical form of a human-readable address: its Bech32 data
    /// bytes, under this api's prefix.  Empty, undecodable and wrong-prefix
    /// addresses are each rejected, and so is a decoded payload of any
    /// length other than 20 or 32 bytes.
    pub fn canonical_address(&self, address: &str) -> (r: Result<Vec<u8>, AddressError>)
        ensures
            (r is Ok) == (address@.len() > 0 && bech32_ok(address@) && bech32_hrp(address@)
                == api_prefix_chars(*self) && (bech32_bytes(address@).len() == 20 || bech32_bytes(
                address@,
            ).len() == 32)),
            r matches Ok(b) ==> b@ == bech32_bytes(address@),
            r == (if address@.len() == 0 {
                Err::<Vec<u8>, AddressError>(AddressError::EmptyAddress)
            } else if !bech32_ok(address@) {
                Err::<Vec<u8>, AddressError>(AddressError::InvalidEncoding)
            } else if bech32_hrp(address@) != api_prefix_chars(*self) {
                Err::<Vec<u8>, AddressError>(AddressError::WrongPrefix)
            } else if !(bech32_bytes(address@).len() == 20 || bech32_bytes(address@).len()
                == 32) {
                Err::<Vec<u8>, AddressError>(AddressError::WrongCanonicalLength)
            } else {
                r
            }),
    {
        if address.is_empty() {
            return Err(AddressError::EmptyAddress);
        }
        let prefix = self.get_prefix();
        match decode_bech32(address) {
            Some((hrp, data)) => {
                if hrp == prefix {
                    if data.len() != SHORT_CANON_LEN && data.len() != LONG_CANON_LEN {
                        return Err(AddressError::WrongCanonicalLength);
                    }
                    Ok(data)
                } else {
                    Err(AddressError::WrongPrefix)
                }
            },
            None => Err(AddressError::InvalidEncoding),
        }
    }

    /// The human-readable form of a canonical address: its Bech32 encoding
    /// under this api's prefix.  A canonical address of any length other
    /// than 20 or 32 bytes is a validation error.
    pub fn human_address(&self, canon: &[u8]) -> (r: Result<String, AddressError>)
        ensures
            (r is Ok) == ((canon@.len() == 20 || canon@.len() == 32) && bech32_enc_ok(
                api_prefix_chars(*self),
            )),
            r matches Ok(s) ==> s@ == bech32_enc(api_prefix_chars(*self), canon@),
            r matches Ok(s) ==> (lowercase_part(api_prefix_chars(*self)) ==> bech32_ok(s@)
                && bech32_hrp(s@) == api_prefix_chars(*self) && bech32_bytes(s@) == canon@
                && s@.len() > 0),
            !(canon@.len() == 20 || canon@.len() == 32) ==> r == Err::<String, AddressError>(
                AddressError::WrongCanonicalLength,
            ),
    {
        if canon.len() != SHORT_CANON_LEN && canon.len() != LONG_CANON_LEN {
            return Err(AddressError::WrongCanonicalLength);
        }
        let prefix = self.get_prefix();
        match encode_bech32(prefix.as_str(), canon) {
            Some(s) => Ok(s),
            None => Err(AddressError::InvalidPrefix),
        }
    }

    /// The deterministic mock address for local account number `count`: the
    /// mock canonical bytes of the short length, encoded under this api's
    /// prefix.
    pub fn next_address(&self, count: u64) -> (r: Result<String, AddressError>)
        ensures
            (r is Ok) == bech32_enc_ok(api_prefix_chars(*self)),
            r matches Ok(s) ==> s@ == bech32_enc(
                api_prefix_chars(*self),
                spec_mock_canon(count as nat, 20),
            ),
    {
        let canon = mock_canon(count, SHORT_CANON_LEN);
        self.human_address(canon.as_slice())
    }

    /// The deterministic mock address for local contract number `count`: the
    /// mock canonical bytes of the long length, encoded under this api's
    /// prefix.
    pub fn next_contract_address(&self, count: u64) -> (r: Result<String, AddressError>)
        ensures
            (r is Ok) == bech32_enc_ok(api_prefix_chars(*self)),
            r matches Ok(s) ==> s@ == bech32_enc(
                api_prefix_chars(*self),
                spec_mock_canon(count as nat, 32),
            ),
    {
        let canon = mock_canon(count, LONG_CANON_LEN);
        self.human_address(canon.as_slice())
    }
}

/// The mock canonical bytes for a local account: the marker, the number in
/// decimal, and zero padding or truncation to the length.
pub open spec fn spec_mock_canon(count: nat, len: nat) -> Seq<u8> {
    let base = spec_contract_marker() + spec_decimal(count);
    if base.len() >= len {
        base.take(len as int)
    } else {
        base + Seq::new((len - base.len()) as nat, |i: int| 0u8)
    }
}

/// The marker the mock canonical bytes start with.
pub open spec fn spec_contract_marker() -> Seq<u8> {
    seq![67u8, 79u8, 78u8, 84u8, 82u8, 65u8, 67u8, 84u8, 95u8]
}

/// Builds the mock canonical bytes of one local account.
pub fn mock_canon(count: u64, len: usize) -> (r: Vec<u8>)
    ensures
        r@ == spec_mock_canon(count as nat, len as nat),
{
    let mut base: Vec<u8> = Vec::new();
    base.push(67);
    base.push(79);
    base.push(78);
    base.push(84);
    base.push(82);
    base.push(65);
    base.push(67);
    base.push(84);
    base.push(95);
    proof {
        assert(base@ =~= spec_contract_marker());
    }
    let digits = crate::text::decimal_bytes(count as u128);
    let ghost head = base@;
    let mut i: usize = 0;
    while i < digits.len()
        invariant
            i <= digits@.len(),
            base@ =~= head + digits@.take(i as int),
        decreases digits@.len() - i,
    {
        base.push(digits[i]);
        proof {
            assert(base@ =~= head + digits@.take(i + 1));
        }
        i += 1;
    }
    proof {
        assert(digits@.take(digits@.len() as int) =~= digits@);
        assert(base@ =~= spec_contract_marker() + spec_decimal(count as nat));
    }
    let ghost full = base@;
    if base.len() >= len {
        let mut out: Vec<u8> = Vec::new();
        let mut j: usize = 0;
        proof {
            assert(out@ =~= full.take(0));
        }
        while j < len
            invariant
                j <= len,
                len <= full.len(),
                full == base@,
                out@ =~= full.take(j as int),
            decreases len - j,
        {
            out.push(base[j]);
            proof {
                assert(out@ =~= full.take(j + 1));
            }
            j += 1;
        }
        out
    } else {
        let mut out = base;
        let ghost pad = Seq::new((len - full.len()) as nat, |i: int| 0u8);
        let mut j: usize = out.len();
        while j < len
            invariant
                full.len() <= j <= len,
                out@ =~= full + Seq::new((j - full.len()) as nat, |i: int| 0u8),
            decreases len - j,
        {
            out.push(0);
            proof {
                assert(out@ =~= full + Seq::new((j + 1 - full.len()) as nat, |i: int| 0u8));
            }
            j += 1;
        }
        out
    }
}


} // verus!

