//! Decoding of channel data: a run of two-character slots, each naming a
//! keysound / image / BPM id in base 36 (or hex for a few channels).

use vstd::prelude::*;

verus! {

/// Value of an ASCII byte as a digit in `radix`.
pub open spec fn byte_digit(b: u8, radix: nat) -> Option<nat> {
    let v: int = if '0' as u8 <= b && b <= '9' as u8 {
        b - '0' as u8
    } else if 'a' as u8 <= b && b <= 'z' as u8 {
        b - 'a' as u8 + 10
    } else if 'A' as u8 <= b && b <= 'Z' as u8 {
        b - 'A' as u8 + 10
    } else {
        99
    };
    if v < radix {
        Some(v as nat)
    } else {
        None
    }
}

/// Value of one two-byte slot: the pair read as a `radix` number by
/// `u32::from_str_radix` (which also takes a leading `'+'`), or 0 when the
/// pair is not such a number.
pub open spec fn slot_value(b0: u8, b1: u8, radix: nat) -> nat {
    if b0 == '+' as u8 {
        match byte_digit(b1, radix) {
            Some(d) => d,
            None => 0,
        }
    } else {
        match (byte_digit(b0, radix), byte_digit(b1, radix)) {
            (Some(a), Some(d)) => a * radix + d,
            _ => 0,
        }
    }
}

/// The slots of a data field's bytes: one per complete pair, a trailing odd
/// byte ignored.
pub open spec fn slots_of(bytes: Seq<u8>, radix: nat) -> Seq<u32> {
    Seq::new(bytes.len() / 2, |k: int| slot_value(bytes[2 * k], bytes[2 * k + 1], radix) as u32)
}

fn byte_digit_exec(b: u8, radix: u32) -> (r: Option<u32>)
    requires
        2 <= radix <= 36,
    ensures
        match byte_digit(b, radix as nat) {
            Some(v) => r == Some(v as u32),
            None => r is None,
        },
{
    let v: u32 = if 48u8 <= b && b <= 57u8 {
        (b - 48u8) as u32
    } else if 97u8 <= b && b <= 122u8 {
        (b - 97u8) as u32 + 10
    } else if 65u8 <= b && b <= 90u8 {
        (b - 65u8) as u32 + 10
    } else {
        99
    };
    if v < radix {
        Some(v)
    } else {
        None
    }
}

fn slot_value_exec(b0: u8, b1: u8, radix: u32) -> (r: u32)
    requires
        2 <= radix <= 36,
    ensures
        r == slot_value(b0, b1, radix as nat),
        r < radix * radix,
{
    assert(radix * radix >= 4) by (nonlinear_arith)
        requires radix >= 2;
    if b0 == 43u8 {
        match byte_digit_exec(b1, radix) {
            Some(d) => {
                assert(d < radix * radix) by (nonlinear_arith)
                    requires d < radix, radix >= 2;
                d
            },
            None => 0,
        }
    } else {
        match (byte_digit_exec(b0, radix), byte_digit_exec(b1, radix)) {
            (Some(a), Some(d)) => {
                assert(a * radix + d < radix * radix && a * radix <= 36 * 36) by (nonlinear_arith)
                    requires a < radix, d < radix, radix >= 2, radix <= 36;
                a * radix + d
            },
            _ => 0,
        }
    }
}

fn parse_slots_radix(data: &str, radix: u32) -> (r: Vec<u32>)
    requires
        2 <= radix <= 36,
    ensures
        r@ == slots_of(vstd::utf8::encode_utf8(data@), radix as nat),
{
    let bytes = data.as_bytes();
    let m = bytes.len();
    let n = m / 2;
    let mut out: Vec<u32> = Vec::new();
    let mut k: usize = 0;
    while k < n
        invariant
            m == bytes@.len(),
            n == m / 2,
            bytes@ == vstd::utf8::encode_utf8(data@),
            2 <= radix <= 36,
            k <= n,
            out@ == slots_of(bytes@, radix as nat).take(k as int),
        decreases n - k,
    {
        assert(2 * k + 1 < bytes@.len());
        let v = slot_value_exec(bytes[2 * k], bytes[2 * k + 1], radix);
        out.push(v);
        k = k + 1;
        assert(out@ =~= slots_of(bytes@, radix as nat).take(k as int));
    }
    assert(slots_of(bytes@, radix as nat).take(n as int) =~= slots_of(bytes@, radix as nat));
    out
}

/// Slots of a data field in base 36 (keysound, image, BPM and STOP ids).
pub fn parse_slots(data: &str) -> (r: Vec<u32>)
    ensures
        r@ == slots_of(vstd::utf8::encode_utf8(data@), 36),
        forall|k: int| 0 <= k < r@.len() ==> r@[k] < 1296,
{
    parse_slots_radix(data, 36)
}

/// Slots of a data field in hexadecimal (direct BPM values, mine damage).
pub fn parse_slots_hex(data: &str) -> (r: Vec<u32>)
    ensures
        r@ == slots_of(vstd::utf8::encode_utf8(data@), 16),
        forall|k: int| 0 <= k < r@.len() ==> r@[k] < 256,
{
    parse_slots_radix(data, 16)
}

} // verus!
