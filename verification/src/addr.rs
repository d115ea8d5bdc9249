//! IPv4 addresses as 32-bit values, and the dotted-quad text form.
//!
//! An address is held as one `u32` in network order, so that the numeric
//! ascending order required of every answer list is the ordinary integer
//! order. The text parser accepts exactly four dot-separated decimal
//! octets, each without leading zeros, as a hosts line carries them.

use vstd::prelude::*;
use crate::name::DOT;

verus! {

/// The numeric value of the four octets `a.b.c.d`.
pub open spec fn ipv4_value(a: u8, b: u8, c: u8, d: u8) -> u32 {
    ((a as u32) * 0x1000000 + (b as u32) * 0x10000 + (c as u32) * 0x100 + (d as u32)) as u32
}

/// ASCII decimal digit.
pub open spec fn is_digit(b: u8) -> bool {
    48 <= b && b <= 57
}

/// Every byte of `s` is a decimal digit.
pub open spec fn all_digits(s: Seq<u8>) -> bool {
    forall|i: int| 0 <= i < s.len() ==> is_digit(#[trigger] s[i])
}

/// The number the digit string `s` denotes.
pub open spec fn digits_value(s: Seq<u8>) -> int
    decreases s.len(),
{
    if s.len() == 0 {
        0
    } else {
        digits_value(s.drop_last()) * 10 + (s.last() - 48)
    }
}

/// A valid octet field: one to three digits, no leading zero, value at
/// most 255.
pub open spec fn valid_octet(s: Seq<u8>) -> bool {
    1 <= s.len() <= 3 && all_digits(s) && (s.len() == 1 || s[0] != 48) && digits_value(s) <= 255
}

/// The position of the first dot at or after `i`, or the length when none.
pub open spec fn find_dot(s: Seq<u8>, i: int) -> int
    decreases s.len() - i when 0 <= i <= s.len()
{
    if i >= s.len() {
        i
    } else if s[i] == DOT {
        i
    } else {
        find_dot(s, i + 1)
    }
}

/// What a dotted-quad text parse yields: the address if `s` is exactly
/// four valid octets separated by dots, otherwise nothing.
pub open spec fn spec_parse_ipv4(s: Seq<u8>) -> Option<u32> {
    let i1 = find_dot(s, 0);
    let i2 = find_dot(s, i1 + 1);
    let i3 = find_dot(s, i2 + 1);
    if i1 >= s.len() || i2 >= s.len() || i3 >= s.len() || find_dot(s, i3 + 1) < s.len() {
        None
    } else {
        let o1 = s.subrange(0, i1);
        let o2 = s.subrange(i1 + 1, i2);
        let o3 = s.subrange(i2 + 1, i3);
        let o4 = s.subrange(i3 + 1, s.len() as int);
        if valid_octet(o1) && valid_octet(o2) && valid_octet(o3) && valid_octet(o4) {
            Some(
                ipv4_value(
                    digits_value(o1) as u8,
                    digits_value(o2) as u8,
                    digits_value(o3) as u8,
                    digits_value(o4) as u8,
                ),
            )
        } else {
            None
        }
    }
}

/// Combine four octets into one address value.
pub fn ipv4_from_octets(a: u8, b: u8, c: u8, d: u8) -> (r: u32)
    ensures
        r == ipv4_value(a, b, c, d),
{
    (a as u32) * 0x1000000 + (b as u32) * 0x10000 + (c as u32) * 0x100 + (d as u32)
}

/// Split an address value back into its four octets.
pub fn ipv4_octets(ip: u32) -> (r: (u8, u8, u8, u8))
    ensures
        ipv4_value(r.0, r.1, r.2, r.3) == ip,
{
    proof {
        assert(ip >> 24 <= 255 && (ip >> 16) & 0xff <= 255 && (ip >> 8) & 0xff <= 255 && ip & 0xff
            <= 255) by (bit_vector);
        assert(((ip >> 24) as u8 as u32) * 0x1000000 + (((ip >> 16) & 0xff) as u8 as u32) * 0x10000
            + (((ip >> 8) & 0xff) as u8 as u32) * 0x100 + ((ip & 0xff) as u8 as u32)
            == ip) by (bit_vector);
    }
    let a = (ip >> 24) as u8;
    let b = ((ip >> 16) & 0xff) as u8;
    let c = ((ip >> 8) & 0xff) as u8;
    let d = (ip & 0xff) as u8;
    (a, b, c, d)
}

/// Position of the first dot in `s` at or after `from`, or the length.
fn find_dot_from(s: &Vec<u8>, from: usize) -> (r: usize)
    requires
        from <= s@.len(),
    ensures
        r == find_dot(s@, from as int),
        from <= r <= s@.len(),
{
    let mut i = from;
    while i < s.len()
        invariant
            from <= i <= s.len(),
            find_dot(s@, from as int) == find_dot(s@, i as int),
        decreases s.len() - i,
    {
        if s[i] == DOT {
            return i;
        }
        i = i + 1;
    }
    i
}

/// Parse the field `s[from..to]` as one octet: its value when valid,
/// nothing otherwise.
fn parse_octet(s: &Vec<u8>, from: usize, to: usize) -> (r: Option<u8>)
    requires
        from <= to <= s@.len(),
    ensures
        match r {
            Some(v) => valid_octet(s@.subrange(from as int, to as int)) && v == digits_value(
                s@.subrange(from as int, to as int),
            ),
            None => !valid_octet(s@.subrange(from as int, to as int)),
        },
{
    let ghost field = s@.subrange(from as int, to as int);
    let len = to - from;
    if len == 0 || len > 3 {
        return None;
    }
    if len > 1 && s[from] == 48 {
        assert(field[0] == 48);
        return None;
    }
    let mut val: u32 = 0;
    let mut i: usize = 0;
    while i < len
        invariant
            i <= len,
            len == to - from,
            from + len <= s@.len(),
            len <= 3,
            field == s@.subrange(from as int, to as int),
            all_digits(field.subrange(0, i as int)),
            val == digits_value(field.subrange(0, i as int)),
            i == 0 ==> val == 0,
            i == 1 ==> val < 10,
            i == 2 ==> val < 100,
            i == 3 ==> val < 1000,
        decreases len - i,
    {
        let b = s[from + i];
        if !(48 <= b && b <= 57) {
            assert(field[i as int] == b);
            return None;
        }
        proof {
            assert(field.subrange(0, i + 1 as int).drop_last() =~= field.subrange(0, i as int));
            assert(field.subrange(0, i + 1 as int).last() == b);
        }
        val = val * 10 + ((b - 48) as u32);
        i = i + 1;
    }
    proof {
        assert(field.subrange(0, len as int) =~= field);
    }
    if val > 255 {
        return None;
    }
    Some(val as u8)
}

/// Parse a dotted-quad IPv4 text field, exactly as a hosts line carries
/// it: four decimal octets, dots between, no other shape accepted.
pub fn parse_ipv4(s: &Vec<u8>) -> (r: Option<u32>)
    ensures
        r == spec_parse_ipv4(s@),
{
    let i1 = find_dot_from(s, 0);
    if i1 >= s.len() {
        return None;
    }
    let i2 = find_dot_from(s, i1 + 1);
    if i2 >= s.len() {
        return None;
    }
    let i3 = find_dot_from(s, i2 + 1);
    if i3 >= s.len() {
        return None;
    }
    let i4 = find_dot_from(s, i3 + 1);
    if i4 < s.len() {
        return None;
    }
    let o1 = parse_octet(s, 0, i1);
    let o2 = parse_octet(s, i1 + 1, i2);
    let o3 = parse_octet(s, i2 + 1, i3);
    let o4 = parse_octet(s, i3 + 1, s.len());
    match (o1, o2, o3, o4) {
        (Some(a), Some(b), Some(c), Some(d)) => Some(ipv4_from_octets(a, b, c, d)),
        _ => None,
    }
}

} // verus!
