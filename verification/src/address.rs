//! Network and hardware addresses and their textual forms.

use vstd::arithmetic::div_mod::{
    lemma_fundamental_div_mod_converse_div,
    lemma_fundamental_div_mod_converse_mod,
};
use vstd::prelude::*;

use crate::text::{chars_of, is_word, string_of};

verus! {

/// Four octets are the base-256 digits of the number that they spell.
proof fn lemma_base_256_digits(a: int, b: int, c: int, d: int)
    requires
        0 <= a < 256,
        0 <= b < 256,
        0 <= c < 256,
        0 <= d < 256,
    ensures
        ({
            let v = a * 16777216 + b * 65536 + c * 256 + d;
            &&& 0 <= v < 4294967296
            &&& v / 16777216 == a
            &&& (v / 65536) % 256 == b
            &&& (v / 256) % 256 == c
            &&& v % 256 == d
        }),
{
    let v = a * 16777216 + b * 65536 + c * 256 + d;
    lemma_fundamental_div_mod_converse_div(v, 16777216, a, b * 65536 + c * 256 + d);
    lemma_fundamental_div_mod_converse_div(v, 65536, a * 256 + b, c * 256 + d);
    lemma_fundamental_div_mod_converse_mod(a * 256 + b, 256, a, b);
    lemma_fundamental_div_mod_converse_div(v, 256, a * 65536 + b * 256 + c, d);
    lemma_fundamental_div_mod_converse_mod(a * 65536 + b * 256 + c, 256, a * 256 + b, c);
    lemma_fundamental_div_mod_converse_mod(v, 256, a * 65536 + b * 256 + c, d);
}

/// The character of a decimal or hexadecimal digit, letters in upper case.
pub open spec fn digit_char(d: int) -> char {
    if d < 10 {
        ((48 + d) as u8) as char
    } else {
        ((55 + d) as u8) as char
    }
}

/// The decimal numeral of an octet, without leading zeros.
pub open spec fn decimal_text(n: int) -> Seq<char> {
    if n < 10 {
        seq![digit_char(n)]
    } else if n < 100 {
        seq![digit_char(n / 10), digit_char(n % 10)]
    } else {
        seq![digit_char(n / 100), digit_char((n / 10) % 10), digit_char(n % 10)]
    }
}

/// The two upper-case hexadecimal digits of an octet.
pub open spec fn hex_text(n: int) -> Seq<char> {
    seq![digit_char(n / 16), digit_char(n % 16)]
}

/// An IPv4 address, held as the number that its four octets spell in
/// big-endian order. Addresses are ordered by that number.
#[derive(Clone, Copy, Debug, PartialEq, Eq, PartialOrd, Ord, Hash, Structural)]
pub struct NetworkAddress {
    pub value: u32,
}

impl NetworkAddress {
    /// The four octets, most significant first.
    pub open spec fn octets_spec(self) -> Seq<u8> {
        seq![
            (self.value / 16777216) as u8,
            ((self.value / 65536) % 256) as u8,
            ((self.value / 256) % 256) as u8,
            (self.value % 256) as u8,
        ]
    }

    /// The address that four octets spell.
    pub open spec fn of_octets(a: u8, b: u8, c: u8, d: u8) -> NetworkAddress {
        NetworkAddress { value: (a * 16777216 + b * 65536 + c * 256 + d) as u32 }
    }

    /// Dotted-decimal notation.
    pub open spec fn text(self) -> Seq<char> {
        let o = self.octets_spec();
        decimal_text(o[0] as int) + seq!['.'] + decimal_text(o[1] as int) + seq!['.']
            + decimal_text(o[2] as int) + seq!['.'] + decimal_text(o[3] as int)
    }

    /// The address `a.b.c.d`.
    pub fn new(a: u8, b: u8, c: u8, d: u8) -> (r: NetworkAddress)
        ensures
            r == Self::of_octets(a, b, c, d),
            r.octets_spec() == seq![a, b, c, d],
    {
        let value: u32 = (a as u32) * 16777216 + (b as u32) * 65536 + (c as u32) * 256 + (d as u32);
        let r = NetworkAddress { value };
        proof {
            lemma_base_256_digits(a as int, b as int, c as int, d as int);
        }
        assert(r.octets_spec() =~= seq![a, b, c, d]);
        r
    }

    /// The four octets, most significant first.
    pub fn octets(&self) -> (o: [u8; 4])
        ensures
            o@ == self.octets_spec(),
    {
        let v: u32 = self.value;
        let o: [u8; 4] = [
            (v / 16777216) as u8,
            ((v / 65536) % 256) as u8,
            ((v / 256) % 256) as u8,
            (v % 256) as u8,
        ];
        assert(o@ =~= self.octets_spec());
        o
    }
}

/// The octets of an address spell that address.
pub proof fn lemma_octets_spell_address(a: NetworkAddress)
    ensures
        NetworkAddress::of_octets(
            a.octets_spec()[0],
            a.octets_spec()[1],
            a.octets_spec()[2],
            a.octets_spec()[3],
        ) == a,
{
}

/// A 48-bit link-layer address, octet by octet in transmission order.
#[derive(Clone, Copy, Debug, PartialEq, Eq, Hash, Structural)]
pub struct HardwareAddress(pub u8, pub u8, pub u8, pub u8, pub u8, pub u8);

impl HardwareAddress {
    /// The six octets, in transmission order.
    pub open spec fn octets_spec(self) -> Seq<u8> {
        seq![self.0, self.1, self.2, self.3, self.4, self.5]
    }

    /// The canonical textual form: six pairs of upper-case hexadecimal
    /// digits, separated by colons.
    pub open spec fn text(self) -> Seq<char> {
        hex_text(self.0 as int) + seq![':'] + hex_text(self.1 as int) + seq![':'] + hex_text(
            self.2 as int,
        ) + seq![':'] + hex_text(self.3 as int) + seq![':'] + hex_text(self.4 as int) + seq![':']
            + hex_text(self.5 as int)
    }

    /// The six octets, in transmission order.
    pub fn octets(&self) -> (o: [u8; 6])
        ensures
            o@ == self.octets_spec(),
    {
        let o: [u8; 6] = [self.0, self.1, self.2, self.3, self.4, self.5];
        assert(o@ =~= self.octets_spec());
        o
    }
}

/// Whether a character is a decimal digit.
pub open spec fn is_digit(c: char) -> bool {
    '0' <= c <= '9'
}

/// The text that is the dotted-decimal notation of an address, read back:
/// the address that is written so, if there is one.
pub open spec fn parse_address(s: Seq<char>) -> Option<NetworkAddress> {
    if exists|a: NetworkAddress| a.text() == s {
        Some(choose|a: NetworkAddress| a.text() == s)
    } else {
        None
    }
}

/// The value of the digit at position `i`, or -1 where none stands there.
spec fn digit_at(s: Seq<char>, i: int) -> int {
    if 0 <= i < s.len() && is_digit(s[i]) {
        s[i] as int - 48
    } else {
        -1
    }
}

/// The octet whose numeral begins at `i`, with the position behind it. At
/// most three digits are taken; a numeral with a leading zero, or above
/// 255, is none.
#[verifier::opaque]
spec fn octet_read(s: Seq<char>, i: int) -> Option<(int, int)> {
    let d0 = digit_at(s, i);
    let d1 = digit_at(s, i + 1);
    let d2 = digit_at(s, i + 2);
    if d0 < 0 {
        None
    } else if d1 < 0 {
        Some((d0, i + 1))
    } else if d0 == 0 {
        None
    } else if d2 < 0 {
        Some((10 * d0 + d1, i + 2))
    } else if 100 * d0 + 10 * d1 + d2 > 255 {
        None
    } else {
        Some((100 * d0 + 10 * d1 + d2, i + 3))
    }
}

/// Whether a full stop stands at `i`.
spec fn dot_at(s: Seq<char>, i: int) -> bool {
    0 <= i < s.len() && s[i] == '.'
}

/// Four numerals with full stops between them, and nothing else.
spec fn address_read(s: Seq<char>) -> Option<NetworkAddress> {
    match octet_read(s, 0) {
        None => None,
        Some((v0, e0)) => match octet_read(s, e0 + 1) {
            None => None,
            Some((v1, e1)) => match octet_read(s, e1 + 1) {
                None => None,
                Some((v2, e2)) => match octet_read(s, e2 + 1) {
                    None => None,
                    Some((v3, e3)) => if dot_at(s, e0) && dot_at(s, e1) && dot_at(s, e2) && e3
                        == s.len() {
                        Some(NetworkAddress::of_octets(v0 as u8, v1 as u8, v2 as u8, v3 as u8))
                    } else {
                        None
                    },
                },
            },
        },
    }
}

/// The numeral of an octet has one to three characters, all digits.
proof fn lemma_decimal_text_shape(n: int)
    requires
        0 <= n <= 255,
    ensures
        1 <= decimal_text(n).len() <= 3,
        forall|k: int| 0 <= k < decimal_text(n).len() ==> is_digit(#[trigger] decimal_text(n)[k]),
{
}

/// What is read at `i` is the numeral of an octet, and stands there.
proof fn lemma_octet_read_sound(s: Seq<char>, i: int)
    requires
        0 <= i,
        octet_read(s, i) is Some,
    ensures
        ({
            let (v, e) = octet_read(s, i)->0;
            &&& 0 <= v <= 255
            &&& i < e <= s.len()
            &&& s.subrange(i, e) == decimal_text(v)
        }),
{
    reveal(octet_read);
    let (v, e) = octet_read(s, i)->0;
    assert(s.subrange(i, e) =~= decimal_text(v));
}

/// The numeral of an octet that stands at `i`, with no digit behind it, is
/// read as that octet.
proof fn lemma_octet_read_complete(s: Seq<char>, i: int, n: int)
    requires
        0 <= i,
        0 <= n <= 255,
        i + decimal_text(n).len() <= s.len(),
        s.subrange(i, i + decimal_text(n).len()) == decimal_text(n),
        digit_at(s, i + decimal_text(n).len()) < 0,
    ensures
        octet_read(s, i) == Some((n, i + decimal_text(n).len())),
{
    reveal(octet_read);
    let t = decimal_text(n);
    assert forall|k: int| 0 <= k < t.len() implies s[i + k] == #[trigger] t[k] by {
        assert(s.subrange(i, i + t.len())[k] == s[i + k]);
    }
    assert(t[0] == s[i]);
    if n >= 10 {
        assert(t[1] == s[i + 1]);
    }
    if n >= 100 {
        assert(t[2] == s[i + 2]);
    }
}

/// Reading is the inverse of writing.
proof fn lemma_address_read(s: Seq<char>)
    ensures
        address_read(s) == parse_address(s),
{
    if address_read(s) is Some {
        let a = address_read(s)->0;
        lemma_address_read_sound(s);
        assert(a.text() == s);
        let b = choose|b: NetworkAddress| b.text() == s;
        lemma_address_read_complete(b);
    } else {
        if exists|a: NetworkAddress| a.text() == s {
            let a = choose|a: NetworkAddress| a.text() == s;
            lemma_address_read_complete(a);
        }
    }
}

/// What is read is the address that is written so.
proof fn lemma_address_read_sound(s: Seq<char>)
    requires
        address_read(s) is Some,
    ensures
        (address_read(s)->0).text() == s,
{
    let (v0, e0) = octet_read(s, 0)->0;
    lemma_octet_read_sound(s, 0);
    let (v1, e1) = octet_read(s, e0 + 1)->0;
    lemma_octet_read_sound(s, e0 + 1);
    let (v2, e2) = octet_read(s, e1 + 1)->0;
    lemma_octet_read_sound(s, e1 + 1);
    let (v3, e3) = octet_read(s, e2 + 1)->0;
    lemma_octet_read_sound(s, e2 + 1);
    let a = address_read(s)->0;
    lemma_base_256_digits(v0, v1, v2, v3);
    assert(a.octets_spec() =~= seq![v0 as u8, v1 as u8, v2 as u8, v3 as u8]);
    assert(s =~= s.subrange(0, e0) + seq!['.'] + s.subrange(e0 + 1, e1) + seq!['.'] + s.subrange(
        e1 + 1,
        e2,
    ) + seq!['.'] + s.subrange(e2 + 1, e3));
}

/// The notation of an address is read as that address.
proof fn lemma_address_read_complete(a: NetworkAddress)
    ensures
        address_read(a.text()) == Some(a),
{
    let s = a.text();
    let o = a.octets_spec();
    let t0 = decimal_text(o[0] as int);
    let t1 = decimal_text(o[1] as int);
    let t2 = decimal_text(o[2] as int);
    let t3 = decimal_text(o[3] as int);
    lemma_decimal_text_shape(o[0] as int);
    lemma_decimal_text_shape(o[1] as int);
    lemma_decimal_text_shape(o[2] as int);
    lemma_decimal_text_shape(o[3] as int);
    let e0 = t0.len() as int;
    let e1 = e0 + 1 + t1.len();
    let e2 = e1 + 1 + t2.len();
    let e3 = e2 + 1 + t3.len();
    assert(s.len() == e3);
    assert(s[e0] == '.');
    assert(s[e1] == '.');
    assert(s[e2] == '.');
    assert(s.subrange(0, e0) =~= t0);
    assert(s.subrange(e0 + 1, e1) =~= t1);
    assert(s.subrange(e1 + 1, e2) =~= t2);
    assert(s.subrange(e2 + 1, e3) =~= t3);
    lemma_octet_read_complete(s, 0, o[0] as int);
    lemma_octet_read_complete(s, e0 + 1, o[1] as int);
    lemma_octet_read_complete(s, e1 + 1, o[2] as int);
    lemma_octet_read_complete(s, e2 + 1, o[3] as int);
    lemma_octets_spell_address(a);
}

/// An address is read back from its notation, which has 7 to 15 characters.
pub proof fn lemma_parse_text(a: NetworkAddress)
    ensures
        parse_address(a.text()) == Some(a),
        7 <= a.text().len() <= 15,
{
    lemma_address_read_complete(a);
    lemma_address_read(a.text());
    let o = a.octets_spec();
    lemma_decimal_text_shape(o[0] as int);
    lemma_decimal_text_shape(o[1] as int);
    lemma_decimal_text_shape(o[2] as int);
    lemma_decimal_text_shape(o[3] as int);
}

/// The notation of an address is one word.
pub proof fn lemma_text_is_word(a: NetworkAddress)
    ensures
        is_word(a.text()),
        forall|i: int| 0 <= i < a.text().len() ==> is_digit(#[trigger] a.text()[i]) || a.text()[i] == '.',
{
    let o = a.octets_spec();
    let t0 = decimal_text(o[0] as int);
    let t1 = decimal_text(o[1] as int);
    let t2 = decimal_text(o[2] as int);
    let t3 = decimal_text(o[3] as int);
    lemma_decimal_text_shape(o[0] as int);
    lemma_decimal_text_shape(o[1] as int);
    lemma_decimal_text_shape(o[2] as int);
    lemma_decimal_text_shape(o[3] as int);
    let s = a.text();
    let e0 = t0.len() as int;
    let e1 = e0 + 1 + t1.len();
    let e2 = e1 + 1 + t2.len();
    assert forall|i: int| 0 <= i < s.len() implies is_digit(#[trigger] s[i]) || s[i] == '.' by {
        if i < e0 {
            assert(s[i] == t0[i]);
        } else if i == e0 {
        } else if i < e1 {
            assert(s[i] == t1[i - e0 - 1]);
        } else if i == e1 {
        } else if i < e2 {
            assert(s[i] == t2[i - e1 - 1]);
        } else if i == e2 {
        } else {
            assert(s[i] == t3[i - e2 - 1]);
        }
    }
}

/// The character of a digit below 16.
fn digit_of(d: u8) -> (c: char)
    requires
        d < 16,
    ensures
        c == digit_char(d as int),
{
    if d < 10 {
        (48 + d) as char
    } else {
        (55 + d) as char
    }
}

/// Appends the decimal numeral of `n`.
fn push_decimal(v: &mut Vec<char>, n: u8)
    ensures
        final(v)@ == old(v)@ + decimal_text(n as int),
{
    if n >= 100 {
        v.push(digit_of(n / 100));
    }
    if n >= 10 {
        v.push(digit_of((n / 10) % 10));
    }
    v.push(digit_of(n % 10));
    assert(v@ =~= old(v)@ + decimal_text(n as int));
}

/// Appends the two hexadecimal digits of `n`.
fn push_hex(v: &mut Vec<char>, n: u8)
    ensures
        final(v)@ == old(v)@ + hex_text(n as int),
{
    v.push(digit_of(n / 16));
    v.push(digit_of(n % 16));
    assert(v@ =~= old(v)@ + hex_text(n as int));
}

/// The value of the digit at `i`, if one stands there.
fn read_digit(s: &Vec<char>, i: usize) -> (d: Option<u8>)
    ensures
        match d {
            Some(v) => digit_at(s@, i as int) == v as int,
            None => digit_at(s@, i as int) < 0,
        },
{
    if i < s.len() && s[i] >= '0' && s[i] <= '9' {
        Some((s[i] as u32 - 48) as u8)
    } else {
        None
    }
}

/// The octet whose numeral begins at `i`, with the position behind it.
fn read_octet(s: &Vec<char>, i: usize) -> (r: Option<(u8, usize)>)
    requires
        i <= s.len(),
    ensures
        match r {
            Some((v, e)) => octet_read(s@, i as int) == Some((v as int, e as int)) && e
                <= s.len(),
            None => octet_read(s@, i as int) is None,
        },
{
    proof {
        reveal(octet_read);
    }
    let d0: u8 = match read_digit(s, i) {
        None => {
            return None;
        },
        Some(d) => d,
    };
    let d1: u8 = match read_digit(s, i + 1) {
        None => {
            return Some((d0, i + 1));
        },
        Some(d) => d,
    };
    if d0 == 0 {
        return None;
    }
    let d2: u8 = match read_digit(s, i + 2) {
        None => {
            return Some((10 * d0 + d1, i + 2));
        },
        Some(d) => d,
    };
    let n: u16 = 100 * (d0 as u16) + 10 * (d1 as u16) + (d2 as u16);
    if n > 255 {
        None
    } else {
        Some((n as u8, i + 3))
    }
}

/// Whether a full stop stands at `i`.
fn read_dot(s: &Vec<char>, i: usize) -> (b: bool)
    ensures
        b == dot_at(s@, i as int),
{
    i < s.len() && s[i] == '.'
}

impl NetworkAddress {
    /// The characters of the dotted-decimal notation.
    pub fn to_chars(&self) -> (v: Vec<char>)
        ensures
            v@ == self.text(),
    {
        let o = self.octets();
        let mut v: Vec<char> = Vec::new();
        push_decimal(&mut v, o[0]);
        v.push('.');
        push_decimal(&mut v, o[1]);
        v.push('.');
        push_decimal(&mut v, o[2]);
        v.push('.');
        push_decimal(&mut v, o[3]);
        assert(v@ =~= self.text());
        v
    }

    /// The dotted-decimal notation.
    pub fn to_text(&self) -> (s: String)
        ensures
            s@ == self.text(),
    {
        let v = self.to_chars();
        let s = string_of(&v, 0, v.len());
        assert(v@.subrange(0, v.len() as int) == v@);
        s
    }

    /// Reads dotted-decimal notation: four decimal numerals of at most 255,
    /// without leading zeros, with full stops between them.
    pub fn parse_chars(s: &Vec<char>) -> (r: Option<NetworkAddress>)
        ensures
            r == parse_address(s@),
    {
        proof {
            lemma_address_read(s@);
        }
        let (v0, e0) = match read_octet(s, 0) {
            None => {
                return None;
            },
            Some(p) => p,
        };
        if !read_dot(s, e0) {
            return None;
        }
        let (v1, e1) = match read_octet(s, e0 + 1) {
            None => {
                return None;
            },
            Some(p) => p,
        };
        if !read_dot(s, e1) {
            return None;
        }
        let (v2, e2) = match read_octet(s, e1 + 1) {
            None => {
                return None;
            },
            Some(p) => p,
        };
        if !read_dot(s, e2) {
            return None;
        }
        let (v3, e3) = match read_octet(s, e2 + 1) {
            None => {
                return None;
            },
            Some(p) => p,
        };
        if e3 != s.len() {
            return None;
        }
        Some(NetworkAddress::new(v0, v1, v2, v3))
    }

    /// Reads dotted-decimal notation from a string.
    pub fn parse(s: &str) -> (r: Option<NetworkAddress>)
        ensures
            r == parse_address(s@),
    {
        let v = chars_of(s);
        Self::parse_chars(&v)
    }
}

impl HardwareAddress {
    /// The characters of the canonical textual form.
    pub fn to_chars(&self) -> (v: Vec<char>)
        ensures
            v@ == self.text(),
    {
        let mut v: Vec<char> = Vec::new();
        push_hex(&mut v, self.0);
        v.push(':');
        push_hex(&mut v, self.1);
        v.push(':');
        push_hex(&mut v, self.2);
        v.push(':');
        push_hex(&mut v, self.3);
        v.push(':');
        push_hex(&mut v, self.4);
        v.push(':');
        push_hex(&mut v, self.5);
        assert(v@ =~= self.text());
        v
    }

    /// The canonical textual form.
    pub fn to_text(&self) -> (s: String)
        ensures
            s@ == self.text(),
    {
        let v = self.to_chars();
        let s = string_of(&v, 0, v.len());
        assert(v@.subrange(0, v.len() as int) == v@);
        s
    }
}

} // verus!
