//! IPv4 addresses in dotted decimal.

use crate::text;
use vstd::prelude::*;

verus! {

/// The four numbers of `octets` in decimal, separated by dots.
pub open spec fn ipv4_text(octets: Seq<u8>) -> Seq<char> {
    text::decimal(octets[0] as nat) + seq!['.'] + text::decimal(octets[1] as nat) + seq!['.'] + text::decimal(
        octets[2] as nat,
    ) + seq!['.'] + text::decimal(octets[3] as nat)
}

/// Where the parts of a dotted text stand when its first part is the decimal text of `n`.
proof fn lemma_part(s: Seq<char>, at: int, n: nat, rest: Seq<char>)
    requires
        0 <= at <= s.len(),
        s.skip(at) == text::decimal(n) + seq!['.'] + rest,
    ensures
        text::first_of(s.skip(at), '.') == text::decimal(n).len(),
        at + text::decimal(n).len() < s.len(),
        s.subrange(at, (at + text::decimal(n).len()) as int) == text::decimal(n),
        s.skip((at + text::decimal(n).len() + 1) as int) == rest,
{
    let p = text::equals('.');
    let d = text::decimal(n);
    let tail = s.skip(at);
    text::lemma_decimal(n);
    assert forall|j: int| 0 <= j < d.len() implies !p(#[trigger] tail[j]) by {
        assert(tail[j] == d[j]);
        assert(text::is_digit(d[j]));
    }
    assert(tail[d.len() as int] == '.');
    text::lemma_first_where(tail, p, d.len() as int);
    assert forall|j: int| 0 <= j < d.len() implies s[at + j] == d[j] by {
        assert(tail[j] == s[at + j]);
    }
    assert(s.subrange(at, (at + d.len()) as int) =~= d);
    assert(s.skip((at + d.len() + 1) as int) =~= tail.skip((d.len() + 1) as int));
    assert(tail.skip((d.len() + 1) as int) =~= rest);
}

/// Different addresses have different texts.
pub proof fn law_ipv4_text_tells_addresses_apart(a: Seq<u8>, b: Seq<u8>)
    requires
        a.len() == 4,
        b.len() == 4,
        ipv4_text(a) == ipv4_text(b),
    ensures
        a == b,
{
    lemma_octets_of(a);
    lemma_octets_of(b);
}

/// What is left of the text of `octets` after its first, second and third part.
proof fn lemma_parts(octets: Seq<u8>) -> (rest: (Seq<char>, Seq<char>, Seq<char>))
    requires
        octets.len() == 4,
    ensures
        ipv4_text(octets) == text::decimal(octets[0] as nat) + seq!['.'] + rest.0,
        rest.0 == text::decimal(octets[1] as nat) + seq!['.'] + rest.1,
        rest.0.skip(0) == rest.0,
        rest.1 == text::decimal(octets[2] as nat) + seq!['.'] + rest.2,
        rest.1.skip(0) == rest.1,
        rest.2 == text::decimal(octets[3] as nat),
{
    let r2 = text::decimal(octets[3] as nat);
    let r1 = text::decimal(octets[2] as nat) + seq!['.'] + r2;
    let r0 = text::decimal(octets[1] as nat) + seq!['.'] + r1;
    assert(ipv4_text(octets) =~= text::decimal(octets[0] as nat) + seq!['.'] + r0);
    assert(r0.skip(0) =~= r0);
    assert(r1.skip(0) =~= r1);
    (r0, r1, r2)
}

/// The address in dotted decimal.
pub fn format_ipv4(octets: [u8; 4]) -> (r: String)
    ensures
        r@ == ipv4_text(octets@),
{
    proof {
        reveal_strlit(".");
    }
    let mut s = text::decimal_text(octets[0] as u64);
    s.append(".");
    s.append(text::decimal_text(octets[1] as u64).as_str());
    s.append(".");
    s.append(text::decimal_text(octets[2] as u64).as_str());
    s.append(".");
    s.append(text::decimal_text(octets[3] as u64).as_str());
    assert("."@ =~= seq!['.']);
    assert(s@ =~= ipv4_text(octets@));
    s
}

/// Where the next dot of `s` stands from position `at` on.
spec fn next_dot(s: Seq<char>, at: int) -> int {
    at + text::first_of(s.skip(at), '.')
}

/// The numbers before, between and after the first three dots of `s`, if each of them is an
/// octet.
spec fn octets_of(s: Seq<char>) -> Option<Seq<u8>> {
    let dot1 = next_dot(s, 0);
    let dot2 = next_dot(s, dot1 + 1);
    let dot3 = next_dot(s, dot2 + 1);
    if dot1 < s.len() && dot2 < s.len() && dot3 < s.len() {
        match (
            text::unsigned_value(s.subrange(0, dot1), 255),
            text::unsigned_value(s.subrange(dot1 + 1, dot2), 255),
            text::unsigned_value(s.subrange(dot2 + 1, dot3), 255),
            text::unsigned_value(s.subrange(dot3 + 1, s.len() as int), 255),
        ) {
            (Some(a), Some(b), Some(c), Some(d)) => Some(seq![a as u8, b as u8, c as u8, d as u8]),
            _ => None,
        }
    } else {
        None
    }
}

/// The text of an address read back.
proof fn lemma_octets_of(octets: Seq<u8>)
    requires
        octets.len() == 4,
    ensures
        octets_of(ipv4_text(octets)) == Some(octets),
{
    let s = ipv4_text(octets);
    let rest = lemma_parts(octets);
    assert(s.skip(0) == s);
    lemma_part(s, 0, octets[0] as nat, rest.0);
    let at1 = next_dot(s, 0) + 1;
    lemma_part(s, at1, octets[1] as nat, rest.1);
    let at2 = next_dot(s, at1) + 1;
    lemma_part(s, at2, octets[2] as nat, rest.2);
    let at3 = next_dot(s, at2) + 1;
    assert(s.subrange(at3, s.len() as int) =~= s.skip(at3));
    text::law_decimal_reads_back(octets[0] as nat, 255);
    text::law_decimal_reads_back(octets[1] as nat, 255);
    text::law_decimal_reads_back(octets[2] as nat, 255);
    text::law_decimal_reads_back(octets[3] as nat, 255);
    assert(seq![octets[0], octets[1], octets[2], octets[3]] =~= octets);
}

/// The numbers before, between and after the first three dots of `s`, if each of them is an
/// octet.
fn read_octets(s: &str) -> (r: Option<[u8; 4]>)
    ensures
        match r {
            Some(a) => octets_of(s@) == Some(a@),
            None => octets_of(s@) is None,
        },
{
    let v = text::chars_of(s);
    let dot1 = text::index_of(&v, 0, '.');
    if dot1 == v.len() {
        return None;
    }
    let dot2 = text::index_of(&v, dot1 + 1, '.');
    if dot2 == v.len() {
        return None;
    }
    let dot3 = text::index_of(&v, dot2 + 1, '.');
    if dot3 == v.len() {
        return None;
    }
    let a = text::parse_unsigned(&v, 0, dot1, 255);
    let b = text::parse_unsigned(&v, dot1 + 1, dot2, 255);
    let c = text::parse_unsigned(&v, dot2 + 1, dot3, 255);
    let d = text::parse_unsigned(&v, dot3 + 1, v.len(), 255);
    match (a, b, c, d) {
        (Some(a), Some(b), Some(c), Some(d)) => {
            let r: [u8; 4] = [a as u8, b as u8, c as u8, d as u8];
            assert(r@ =~= seq![a as u8, b as u8, c as u8, d as u8]);
            Some(r)
        },
        _ => None,
    }
}

/// The address that `s` writes in dotted decimal, if it writes one.
pub open spec fn ipv4_of(s: Seq<char>) -> Option<Seq<u8>> {
    if exists|o: Seq<u8>| o.len() == 4 && s == #[trigger] ipv4_text(o) {
        Some(choose|o: Seq<u8>| o.len() == 4 && s == #[trigger] ipv4_text(o))
    } else {
        None
    }
}

/// An address is read back from its text.
pub proof fn law_ipv4_reads_back(octets: Seq<u8>)
    requires
        octets.len() == 4,
    ensures
        ipv4_of(ipv4_text(octets)) == Some(octets),
{
    let s = ipv4_text(octets);
    assert(ipv4_text(octets) == s);
    let o = choose|o: Seq<u8>| o.len() == 4 && s == #[trigger] ipv4_text(o);
    law_ipv4_text_tells_addresses_apart(o, octets);
}

/// The address that `s` writes in dotted decimal: four numbers of at most 255, none with a
/// leading zero.
pub fn parse_ipv4(s: &str) -> (r: Option<[u8; 4]>)
    ensures
        match r {
            Some(a) => s@ == ipv4_text(a@) && ipv4_of(s@) == Some(a@),
            None => ipv4_of(s@) is None,
        },
{
    proof {
        assert forall|o: Seq<u8>| o.len() == 4 && s@ == #[trigger] ipv4_text(o) implies octets_of(
            s@,
        ) == Some(o) by {
            lemma_octets_of(o);
        }
    }
    match read_octets(s) {
        Some(a) => {
            if text::same_text(format_ipv4(a).as_str(), s) {
                proof {
                    law_ipv4_reads_back(a@);
                }
                Some(a)
            } else {
                None
            }
        },
        None => None,
    }
}

/// The text of an address is made of four numbers without leading zeros, with dots between them:
/// the octets, in order.
pub proof fn law_ipv4_text_holds_the_octets(octets: Seq<u8>)
    requires
        octets.len() == 4,
    ensures
        exists|a: Seq<char>, b: Seq<char>, c: Seq<char>, d: Seq<char>|
            {
                &&& ipv4_text(octets) == #[trigger] dotted(a, b, c, d)
                &&& denotes(a, octets[0])
                &&& denotes(b, octets[1])
                &&& denotes(c, octets[2])
                &&& denotes(d, octets[3])
            },
{
    let a = text::decimal(octets[0] as nat);
    let b = text::decimal(octets[1] as nat);
    let c = text::decimal(octets[2] as nat);
    let d = text::decimal(octets[3] as nat);
    text::lemma_decimal(octets[0] as nat);
    text::lemma_decimal(octets[1] as nat);
    text::lemma_decimal(octets[2] as nat);
    text::lemma_decimal(octets[3] as nat);
    assert(ipv4_text(octets) =~= dotted(a, b, c, d));
}

/// Four texts with dots between them.
pub open spec fn dotted(a: Seq<char>, b: Seq<char>, c: Seq<char>, d: Seq<char>) -> Seq<char> {
    a + seq!['.'] + b + seq!['.'] + c + seq!['.'] + d
}

/// Whether a text is a number without leading zeros, and that number is `octet`.
pub open spec fn denotes(s: Seq<char>, octet: u8) -> bool {
    &&& text::all_digits(s)
    &&& text::digits_value(s) == octet
    &&& s.len() > 1 ==> s[0] != '0'
}

} // verus!
