//! The 256-bit transaction hash and its canonical text, `0x` and 64
//! lower-case hexadecimal digits.

use vstd::prelude::*;
use vstd::utf8::encode_utf8;

use crate::text::{
    all_hex_digits, ascii_chars, ascii_string, hex_decoded, hex_digit, hex_text, is_ascii_bytes,
    lemma_hex_round_trip, write_hex,
};

verus! {

/// A 256-bit digest, most significant byte first.
#[derive(Clone, Copy, Debug, PartialEq, Eq, Hash)]
pub struct Hash256 {
    pub bytes: [u8; 32],
}

impl View for Hash256 {
    type V = Seq<u8>;

    open spec fn view(&self) -> Seq<u8> {
        self.bytes@
    }
}

/// The hexadecimal digits of a hash's text: what follows an optional `0x`.
pub open spec fn hash_digits(s: Seq<u8>) -> Seq<u8> {
    if s.len() >= 2 && s[0] == 48 && s[1] == 120 {
        s.skip(2)
    } else {
        s
    }
}

/// The bytes that a hash's text spells: an optional `0x`, then exactly 64
/// hexadecimal digits in either case. `None` for any other text.
pub open spec fn hash_from_text(s: Seq<u8>) -> Option<Seq<u8>> {
    let d = hash_digits(s);
    if d.len() == 64 && all_hex_digits(d) {
        Some(hex_decoded(d))
    } else {
        None
    }
}

/// The canonical text of a hash: `0x`, then two lower-case digits a byte.
pub open spec fn hash_text(h: Seq<u8>) -> Seq<u8> {
    seq![48u8, 120u8] + hex_text(h)
}

/// A hash's canonical text reads back as the same hash.
pub proof fn lemma_hash_round_trip(h: Seq<u8>)
    requires
        h.len() == 32,
    ensures
        hash_from_text(hash_text(h)) == Some(h),
        is_ascii_bytes(hash_text(h)),
{
    lemma_hex_round_trip(h);
    let t = hash_text(h);
    assert(hash_digits(t) =~= hex_text(h));
    assert forall|i: int| 0 <= i < t.len() implies #[trigger] t[i] < 128 by {
        if i >= 2 {
            assert(t[i] == hex_text(h)[i - 2]);
            assert(all_hex_digits(hex_text(h)));
            assert(crate::text::hex_digit_value(hex_text(h)[i - 2]) is Some);
        }
    }
}

impl Hash256 {
    /// Reads a hash from its text, as bytes.
    pub fn parse_bytes(s: &[u8]) -> (r: Option<Hash256>)
        ensures
            r is Some <==> hash_from_text(s@) is Some,
            r matches Some(h) ==> hash_from_text(s@) == Some(h@),
    {
        let start: usize = if s.len() >= 2 && s[0] == 48 && s[1] == 120 {
            2
        } else {
            0
        };
        let ghost d = hash_digits(s@);
        assert(d =~= s@.skip(start as int));
        if s.len() - start != 64 {
            return None;
        }
        let mut bytes: [u8; 32] = [0u8; 32];
        let mut i: usize = 0;
        while i < 32
            invariant
                s.len() == start + 64,
                d == hash_digits(s@),
                d =~= s@.skip(start as int),
                i <= 32,
                forall|j: int| 0 <= j < 2 * i ==> #[trigger] crate::text::hex_digit_value(d[j]) is Some,
                forall|k: int| 0 <= k < i ==> #[trigger] bytes@[k] == hex_decoded(d)[k],
            decreases 32 - i,
        {
            let hi = hex_digit(s[start + 2 * i]);
            let lo = hex_digit(s[start + 2 * i + 1]);
            match (hi, lo) {
                (Some(h), Some(l)) => {
                    bytes[i] = h * 16 + l;
                    proof {
                        assert forall|j: int| 0 <= j < 2 * (i + 1) implies
                            #[trigger] crate::text::hex_digit_value(d[j]) is Some by {
                            if j == 2 * i || j == 2 * i + 1 {
                            }
                        }
                    }
                },
                _ => {
                    proof {
                        if hi is None {
                            assert(crate::text::hex_digit_value(d[2 * i as int]) is None);
                        } else {
                            assert(crate::text::hex_digit_value(d[2 * i + 1]) is None);
                        }
                    }
                    return None;
                },
            }
            i = i + 1;
        }
        let r = Hash256 { bytes };
        assert(r@ =~= hex_decoded(d));
        Some(r)
    }

    /// Reads a hash from its text.
    pub fn parse(s: &str) -> (r: Option<Hash256>)
        ensures
            r is Some <==> hash_from_text(encode_utf8(s@)) is Some,
            r matches Some(h) ==> hash_from_text(encode_utf8(s@)) == Some(h@),
    {
        Hash256::parse_bytes(s.as_bytes())
    }

    /// Appends the canonical text of this hash to `out`.
    pub fn write_text(&self, out: &mut Vec<u8>)
        ensures
            final(out)@ == old(out)@ + hash_text(self@),
    {
        out.push(48);
        out.push(120);
        write_hex(self.bytes.as_slice(), out);
        assert(final(out)@ =~= old(out)@ + hash_text(self@));
    }

    /// The canonical text of this hash.
    pub fn to_text(&self) -> (r: String)
        ensures
            r@ == ascii_chars(hash_text(self@)),
    {
        let mut out: Vec<u8> = Vec::new();
        self.write_text(&mut out);
        proof {
            lemma_hash_round_trip(self@);
            assert(out@ =~= hash_text(self@));
        }
        ascii_string(out)
    }
}

} // verus!
