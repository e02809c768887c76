//! Dotted-quad IPv4 addresses: parsing from text, the private-range
//! (RFC 1918) classification, and a numeric ordering key.
//!
//! An address is accepted exactly when it is four decimal octets joined by
//! `.`, each octet at most 255 and written without a leading zero (so
//! `192.168.01.1` is rejected, as the strict dotted-quad grammar demands).

use vstd::prelude::*;

use crate::text::{spec_split, split_char};

verus! {

/// A decimal digit.
pub open spec fn is_digit(c: char) -> bool {
    48 <= c as u32 <= 57
}

/// The value of a decimal digit.
pub open spec fn digit_val(c: char) -> int {
    c as u32 - 48
}

/// The decimal value of a run of at most three digits.
pub open spec fn spec_octet_val(t: Seq<char>) -> int {
    if t.len() == 1 {
        digit_val(t[0])
    } else if t.len() == 2 {
        10 * digit_val(t[0]) + digit_val(t[1])
    } else {
        100 * digit_val(t[0]) + 10 * digit_val(t[1]) + digit_val(t[2])
    }
}

/// A well-formed octet: one to three decimal digits, no leading zero,
/// value at most 255.
pub open spec fn is_octet(t: Seq<char>) -> bool {
    &&& 1 <= t.len() <= 3
    &&& (forall|i: int| 0 <= i < t.len() ==> is_digit(#[trigger] t[i]))
    &&& (t.len() > 1 ==> t[0] != '0')
    &&& spec_octet_val(t) <= 255
}

/// The digit value of `c`, or `None` if `c` is not a decimal digit.
fn char_digit(c: char) -> (r: Option<u8>)
    ensures
        r == (if is_digit(c) {
            Some(digit_val(c) as u8)
        } else {
            None::<u8>
        }),
{
    let u = c as u32;
    if 48 <= u && u <= 57 {
        Some((u - 48) as u8)
    } else {
        None
    }
}

/// Parses one octet of a dotted-quad address.
pub fn parse_octet(t: &str) -> (r: Option<u8>)
    ensures
        r == (if is_octet(t@) {
            Some(spec_octet_val(t@) as u8)
        } else {
            None::<u8>
        }),
{
    let n: usize = t.unicode_len();
    if n == 0 || n > 3 {
        return None;
    }
    let d0 = match char_digit(t.get_char(0)) {
        Some(d) => d,
        None => {
            return None;
        },
    };
    if n == 1 {
        return Some(d0);
    }
    if t.get_char(0) == '0' {
        return None;
    }
    let d1 = match char_digit(t.get_char(1)) {
        Some(d) => d,
        None => {
            return None;
        },
    };
    if n == 2 {
        return Some(10 * d0 + d1);
    }
    let d2 = match char_digit(t.get_char(2)) {
        Some(d) => d,
        None => {
            return None;
        },
    };
    let val: u32 = 100 * (d0 as u32) + 10 * (d1 as u32) + (d2 as u32);
    if val <= 255 {
        Some(val as u8)
    } else {
        None
    }
}

/// The four octets of a dotted-quad address, or `None` where the text is
/// not one.
pub open spec fn spec_parse_ipv4(s: Seq<char>) -> Option<(u8, u8, u8, u8)> {
    let parts = spec_split(s, '.');
    if parts.len() == 4 && is_octet(parts[0]) && is_octet(parts[1]) && is_octet(parts[2])
        && is_octet(parts[3]) {
        Some(
            (
                spec_octet_val(parts[0]) as u8,
                spec_octet_val(parts[1]) as u8,
                spec_octet_val(parts[2]) as u8,
                spec_octet_val(parts[3]) as u8,
            ),
        )
    } else {
        None
    }
}

/// Parses a dotted-quad IPv4 address.
pub fn parse_ipv4(ip: &str) -> (r: Option<(u8, u8, u8, u8)>)
    ensures
        r == spec_parse_ipv4(ip@),
{
    let parts = split_char(ip, '.');
    if parts.len() != 4 {
        return None;
    }
    let a = match parse_octet(parts[0].as_str()) {
        Some(v) => v,
        None => {
            return None;
        },
    };
    let b = match parse_octet(parts[1].as_str()) {
        Some(v) => v,
        None => {
            return None;
        },
    };
    let c = match parse_octet(parts[2].as_str()) {
        Some(v) => v,
        None => {
            return None;
        },
    };
    let d = match parse_octet(parts[3].as_str()) {
        Some(v) => v,
        None => {
            return None;
        },
    };
    Some((a, b, c, d))
}

/// The RFC 1918 private blocks: 10.0.0.0/8, 172.16.0.0/12, 192.168.0.0/16.
pub open spec fn is_private_quad(q: (u8, u8, u8, u8)) -> bool {
    ||| q.0 == 10
    ||| (q.0 == 172 && 16 <= q.1 <= 31)
    ||| (q.0 == 192 && q.1 == 168)
}

/// Whether the text is a dotted-quad address in a private range; text that
/// is no address at all is not private.
pub open spec fn spec_is_private_ip(s: Seq<char>) -> bool {
    match spec_parse_ipv4(s) {
        Some(q) => is_private_quad(q),
        None => false,
    }
}

/// Decides [`spec_is_private_ip`].
pub fn is_private_ip(ip: &str) -> (r: bool)
    ensures
        r == spec_is_private_ip(ip@),
{
    match parse_ipv4(ip) {
        Some((a, b, _, _)) => a == 10 || (a == 172 && 16 <= b && b <= 31) || (a == 192 && b
            == 168),
        None => false,
    }
}

/// A numeric key that orders addresses octet by octet, left to right;
/// text that is no address keys below every address.
pub open spec fn spec_ip_key(s: Seq<char>) -> int {
    match spec_parse_ipv4(s) {
        Some(q) => q.0 as int * 0x1000000 + q.1 as int * 0x10000 + q.2 as int * 0x100 + q.3 as int,
        None => -1,
    }
}

/// Computes [`spec_ip_key`].
pub fn ip_key(ip: &str) -> (k: i64)
    ensures
        k == spec_ip_key(ip@),
{
    match parse_ipv4(ip) {
        Some((a, b, c, d)) => (a as i64) * 0x1000000 + (b as i64) * 0x10000 + (c as i64) * 0x100
            + (d as i64),
        None => -1,
    }
}

} // verus!
