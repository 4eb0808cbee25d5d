//! IPv4 addresses as four octets.
use vstd::prelude::*;

use crate::text::{
    all_digits, digits_value, fmt_decimal, index_in, index_of, parse_uint, parse_uint_in, push_char,
    spec_decimal,
};

verus! {

/// An IPv4 address, most significant octet first.
#[derive(Debug, Clone, Copy, PartialEq, Eq, Structural)]
pub struct Ipv4Addr {
    pub a: u8,
    pub b: u8,
    pub c: u8,
    pub d: u8,
}

impl Ipv4Addr {
    pub fn new(a: u8, b: u8, c: u8, d: u8) -> (r: Ipv4Addr)
        ensures
            r == (Ipv4Addr { a, b, c, d }),
    {
        Ipv4Addr { a, b, c, d }
    }

    /// `0.0.0.0`.
    pub fn unspecified() -> (r: Ipv4Addr)
        ensures
            r == (Ipv4Addr { a: 0, b: 0, c: 0, d: 0 }),
    {
        Ipv4Addr { a: 0, b: 0, c: 0, d: 0 }
    }

    pub open spec fn spec_is_unspecified(self) -> bool {
        self.a == 0 && self.b == 0 && self.c == 0 && self.d == 0
    }

    /// Whether this is `0.0.0.0`.
    pub fn is_unspecified(&self) -> (r: bool)
        ensures
            r == self.spec_is_unspecified(),
    {
        self.a == 0 && self.b == 0 && self.c == 0 && self.d == 0
    }

    /// The dotted-quad rendering, as `Display` for `std::net::Ipv4Addr`
    /// writes it.
    pub open spec fn spec_dotted(self) -> Seq<char> {
        spec_decimal(self.a as nat) + seq!['.'] + spec_decimal(self.b as nat) + seq!['.']
            + spec_decimal(self.c as nat) + seq!['.'] + spec_decimal(self.d as nat)
    }

    /// Dotted-quad rendering.
    pub fn to_dotted(&self) -> (r: String)
        ensures
            r@ == self.spec_dotted(),
    {
        let mut s = fmt_decimal(self.a as u64);
        push_char(&mut s, '.');
        s.append(fmt_decimal(self.b as u64).as_str());
        push_char(&mut s, '.');
        s.append(fmt_decimal(self.c as u64).as_str());
        push_char(&mut s, '.');
        s.append(fmt_decimal(self.d as u64).as_str());
        s
    }
}

/// One dotted-quad octet as `Ipv4Addr`'s `FromStr` accepts it: one to three
/// decimal digits, no leading zero unless the octet is `0`, at most 255.
pub open spec fn spec_octet(d: Seq<char>) -> Option<u8> {
    if 1 <= d.len() <= 3 && all_digits(d, 10) && (d.len() == 1 || d[0] != '0') && digits_value(d, 10)
        <= 255 {
        Some(digits_value(d, 10) as u8)
    } else {
        None
    }
}

/// `Ipv4Addr`'s `FromStr`: exactly four octets separated by dots.
pub open spec fn spec_parse_ipv4(s: Seq<char>) -> Option<Ipv4Addr> {
    match index_of(s, '.') {
        None => None,
        Some(i) => {
            let r1 = s.skip(i + 1);
            match index_of(r1, '.') {
                None => None,
                Some(j) => {
                    let r2 = r1.skip(j + 1);
                    match index_of(r2, '.') {
                        None => None,
                        Some(k) => {
                            let r3 = r2.skip(k + 1);
                            match (spec_octet(s.take(i)), spec_octet(r1.take(j)), spec_octet(r2.take(k)), spec_octet(r3)) {
                                (Some(a), Some(b), Some(c), Some(d)) => Some(Ipv4Addr { a, b, c, d }),
                                _ => None,
                            }
                        },
                    }
                },
            }
        },
    }
}

fn parse_octet(cs: &[char], from: usize, to: usize) -> (r: Option<u8>)
    requires
        from <= to <= cs@.len(),
    ensures
        r == spec_octet(cs@.subrange(from as int, to as int)),
{
    let ghost d = cs@.subrange(from as int, to as int);
    if to - from < 1 || to - from > 3 {
        return None;
    }
    if cs[from] == '+' {
        assert(d[0] == '+');
        assert(crate::text::digit_value(d[0], 10) is None);
        return None;
    }
    if to - from > 1 && cs[from] == '0' {
        assert(d[0] == '0');
        return None;
    }
    match parse_uint_in(cs, from, to, 10, 255) {
        Some(v) => {
            assert(d[0] != '+');
            Some(v as u8)
        },
        None => {
            assert(d[0] != '+');
            None
        },
    }
}

/// Parse `cs[from..to]` as a dotted-quad IPv4 address.
pub fn parse_ipv4_in(cs: &[char], from: usize, to: usize) -> (r: Option<Ipv4Addr>)
    requires
        from <= to <= cs@.len(),
    ensures
        r == spec_parse_ipv4(cs@.subrange(from as int, to as int)),
{
    let ghost s = cs@.subrange(from as int, to as int);
    let i = match index_in(cs, from, to, '.') {
        None => return None,
        Some(i) => i,
    };
    assert(s.skip(i - from + 1) =~= cs@.subrange(i + 1, to as int));
    assert(s.take(i - from) =~= cs@.subrange(from as int, i as int));
    assert(index_of(s, '.') == Some(i - from));
    let ghost r1 = cs@.subrange(i + 1, to as int);
    assert(s.skip(i - from + 1) == r1);
    let j = match index_in(cs, i + 1, to, '.') {
        None => {
            assert(index_of(r1, '.') is None);
            return None;
        },
        Some(j) => j,
    };
    assert(r1.skip(j - (i + 1) + 1) =~= cs@.subrange(j + 1, to as int));
    assert(r1.take(j - (i + 1)) =~= cs@.subrange(i + 1, j as int));
    assert(index_of(r1, '.') == Some(j - (i + 1)));
    let ghost r2 = cs@.subrange(j + 1, to as int);
    assert(r1.skip(j - (i + 1) + 1) == r2);
    let k = match index_in(cs, j + 1, to, '.') {
        None => {
            assert(index_of(r2, '.') is None);
            return None;
        },
        Some(k) => k,
    };
    assert(index_of(r2, '.') == Some(k - (j + 1)));
    assert(r2.skip(k - (j + 1) + 1) =~= cs@.subrange(k + 1, to as int));
    assert(r2.take(k - (j + 1)) =~= cs@.subrange(j + 1, k as int));
    let a = parse_octet(cs, from, i);
    let b = parse_octet(cs, i + 1, j);
    let c = parse_octet(cs, j + 1, k);
    let d = parse_octet(cs, k + 1, to);
    match (a, b, c, d) {
        (Some(a), Some(b), Some(c), Some(d)) => Some(Ipv4Addr { a, b, c, d }),
        _ => None,
    }
}

/// Parse a dotted-quad IPv4 address.
pub fn parse_ipv4(s: &str) -> (r: Option<Ipv4Addr>)
    ensures
        r == spec_parse_ipv4(s@),
{
    let cs = crate::text::chars_of(s);
    assert(cs@.subrange(0, cs@.len() as int) =~= s@);
    parse_ipv4_in(cs.as_slice(), 0, cs.len())
}

} // verus!
