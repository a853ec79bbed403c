//! Account addresses: parsing a hexadecimal wallet address out of its
//! textual form, with or without the customary prefix.

use vstd::prelude::*;

use vstd::slice::{slice_index_get, slice_subrange};

verus! {

/// True iff the byte is an ASCII hexadecimal digit.
pub open spec fn is_hex_digit(b: u8) -> bool {
    (0x30 <= b <= 0x39) || (0x41 <= b <= 0x46) || (0x61 <= b <= 0x66)
}

/// The value of one hexadecimal digit.
pub open spec fn hex_val(b: u8) -> u8 {
    if 0x30 <= b <= 0x39 {
        (b - 0x30) as u8
    } else if 0x41 <= b <= 0x46 {
        (b - 0x41 + 10) as u8
    } else {
        (b - 0x61 + 10) as u8
    }
}

pub open spec fn all_hex_digits(s: Seq<u8>) -> bool {
    forall|i: int| 0 <= i < s.len() ==> is_hex_digit(#[trigger] s[i])
}

/// The bytes an even-length string of hexadecimal digits decodes to: each
/// digit pair becomes one byte, high digit first.
pub open spec fn spec_hex_decode(s: Seq<u8>) -> Seq<u8> {
    Seq::new(s.len() / 2, |i: int| (hex_val(s[2 * i]) * 16 + hex_val(s[2 * i + 1])) as u8)
}

/// Relies on hex::decode: it succeeds exactly on even-length input made of
/// hexadecimal digits (either case), pairing the digits into bytes, high
/// digit first.
#[verifier::external_body]
fn hex_decode(s: &[u8]) -> (r: Option<Vec<u8>>)
    ensures
        match r {
            Some(v) => s@.len() % 2 == 0 && all_hex_digits(s@) && v@ == spec_hex_decode(s@),
            None => s@.len() % 2 != 0 || !all_hex_digits(s@),
        },
{
    hex::decode(s).ok()
}

/// A 20-byte account address.
pub struct EthAddress {
    pub bytes: Vec<u8>,
}

impl EthAddress {
    pub open spec fn wf(self) -> bool {
        self.bytes@.len() == 20
    }
}

/// The input with every leading `0x` marker stripped.
pub open spec fn strip_markers(s: Seq<u8>) -> Seq<u8>
    decreases s.len(),
{
    if s.len() >= 2 && s[0] == 0x30 && s[1] == 0x78 {
        strip_markers(s.skip(2))
    } else {
        s
    }
}

/// Parse an account address from its textual bytes: any number of leading
/// `0x` markers followed by exactly 40 hexadecimal digits.  Anything else
/// is rejected.
pub fn as_h160(s: &[u8]) -> (r: Option<EthAddress>)
    ensures
        match r {
            Some(a) => {
                &&& strip_markers(s@).len() == 40
                &&& all_hex_digits(strip_markers(s@))
                &&& a.wf()
                &&& a.bytes@ == spec_hex_decode(strip_markers(s@))
            }
            None => !(strip_markers(s@).len() == 40 && all_hex_digits(strip_markers(s@))),
        },
{
    let n = s.len();
    let mut start: usize = 0;
    proof {
        assert(s@.skip(0) =~= s@);
    }
    while n - start >= 2 && *slice_index_get(s, start) == 0x30 && *slice_index_get(s, start + 1) == 0x78
        invariant
            n == s@.len(),
            start <= n,
            strip_markers(s@) == strip_markers(s@.skip(start as int)),
        decreases n - start,
    {
        proof {
            assert(s@.skip(start as int).len() >= 2);
            assert(s@.skip(start as int)[0] == 0x30 && s@.skip(start as int)[1] == 0x78);
            assert(s@.skip(start as int).skip(2) =~= s@.skip(start as int + 2));
            assert(strip_markers(s@.skip(start as int))
                == strip_markers(s@.skip(start as int).skip(2)));
            assert(strip_markers(s@.skip(start as int))
                == strip_markers(s@.skip(start as int + 2)));
        }
        start = start + 2;
    }
    let stripped: &[u8] = slice_subrange(s, start, n);
    proof {
        let rest = s@.skip(start as int);
        assert(!(rest.len() >= 2 && rest[0] == 0x30 && rest[1] == 0x78));
        assert(strip_markers(rest) == rest);
        assert(stripped@ =~= strip_markers(s@));
    }
    match hex_decode(stripped) {
        Some(bytes) => {
            if bytes.len() == 20 {
                Some(EthAddress { bytes })
            } else {
                None
            }
        }
        None => None,
    }
}

} // verus!
