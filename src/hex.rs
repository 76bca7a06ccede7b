//! Hexadecimal text to bytes, two digits for each byte, high digit first.
use vstd::prelude::*;

verus! {

/// The value of the hexadecimal digit `c`, of either case.
pub open spec fn hex_digit(c: u8) -> Option<u8> {
    if 0x30 <= c <= 0x39 {
        Some((c - 0x30) as u8)
    } else if 0x61 <= c <= 0x66 {
        Some((c - 0x61 + 10) as u8)
    } else if 0x41 <= c <= 0x46 {
        Some((c - 0x41 + 10) as u8)
    } else {
        None
    }
}

/// `s` is an even number of hexadecimal digits.
pub open spec fn is_hex(s: Seq<u8>) -> bool {
    &&& s.len() % 2 == 0
    &&& forall|i: int| 0 <= i < s.len() ==> #[trigger] hex_digit(s[i]) is Some
}

/// The bytes that the digit pairs of `s` spell.
pub open spec fn hex_decoded(s: Seq<u8>) -> Seq<u8> {
    Seq::new(
        s.len() / 2,
        |i: int| (hex_digit(s[2 * i])->Some_0 * 16 + hex_digit(s[2 * i + 1])->Some_0) as u8,
    )
}

fn digit(c: u8) -> (r: Option<u8>)
    ensures
        r == hex_digit(c),
{
    if 0x30 <= c && c <= 0x39 {
        Some(c - 0x30)
    } else if 0x61 <= c && c <= 0x66 {
        Some(c - 0x61 + 10)
    } else if 0x41 <= c && c <= 0x46 {
        Some(c - 0x41 + 10)
    } else {
        None
    }
}

/// The bytes spelled by the hexadecimal text `s`; `None` where `s` has an odd
/// length or a character that is not a hexadecimal digit.
pub fn read_hex(s: &[u8]) -> (r: Option<Vec<u8>>)
    ensures
        r is Some <==> is_hex(s@),
        r is Some ==> r->Some_0@ == hex_decoded(s@),
{
    if s.len() % 2 != 0 {
        return None;
    }
    let mut out: Vec<u8> = Vec::new();
    let mut i: usize = 0;
    while i < s.len() / 2
        invariant
            s@.len() % 2 == 0,
            i <= s@.len() / 2,
            forall|j: int| 0 <= j < 2 * i ==> #[trigger] hex_digit(s@[j]) is Some,
            out@ == hex_decoded(s@).take(i as int),
        decreases s@.len() / 2 - i,
    {
        let hi = match digit(s[2 * i]) {
            Some(d) => d,
            None => return None,
        };
        let lo = match digit(s[2 * i + 1]) {
            Some(d) => d,
            None => return None,
        };
        out.push(hi * 16 + lo);
        i = i + 1;
        assert(out@ =~= hex_decoded(s@).take(i as int));
    }
    assert(out@ =~= hex_decoded(s@));
    Some(out)
}

} // verus!
