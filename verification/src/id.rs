//! Identifier generation: short random tokens a person can type.

use vstd::prelude::*;

use crate::text;

verus! {

/// A lowercase hexadecimal digit.
pub open spec fn is_hex_digit(c: char) -> bool {
    ('0' <= c && c <= '9') || ('a' <= c && c <= 'f')
}

/// The lowercase hexadecimal digit character for `d`.
pub open spec fn hex_char(d: int) -> char {
    if d == 0 {
        '0'
    } else if d == 1 {
        '1'
    } else if d == 2 {
        '2'
    } else if d == 3 {
        '3'
    } else if d == 4 {
        '4'
    } else if d == 5 {
        '5'
    } else if d == 6 {
        '6'
    } else if d == 7 {
        '7'
    } else if d == 8 {
        '8'
    } else if d == 9 {
        '9'
    } else if d == 10 {
        'a'
    } else if d == 11 {
        'b'
    } else if d == 12 {
        'c'
    } else if d == 13 {
        'd'
    } else if d == 14 {
        'e'
    } else {
        'f'
    }
}

/// The identifier that renders `n`: `jt-` then `n`'s four hex digits, most
/// significant first.
pub open spec fn id_text(n: int) -> Seq<char> {
    seq![
        'j',
        't',
        '-',
        hex_char(n / 4096),
        hex_char((n / 256) % 16),
        hex_char((n / 16) % 16),
        hex_char(n % 16),
    ]
}

/// An identifier as generated: `jt-` then four lowercase hex digits.
pub open spec fn valid_id(s: Seq<char>) -> bool {
    &&& s.len() == 7
    &&& s[0] == 'j'
    &&& s[1] == 't'
    &&& s[2] == '-'
    &&& forall|i: int| 3 <= i < 7 ==> is_hex_digit(#[trigger] s[i])
}

/// Every rendering is a well-shaped identifier.
pub proof fn lemma_id_text_valid(n: int)
    requires
        0 <= n < 65536,
    ensures
        valid_id(id_text(n)),
{
    assert(is_hex_digit(hex_char(n / 4096)));
    assert(is_hex_digit(hex_char((n / 256) % 16)));
    assert(is_hex_digit(hex_char((n / 16) % 16)));
    assert(is_hex_digit(hex_char(n % 16)));
}

/// Relies on `rand::random`: a fresh value on every call; nothing is
/// assumed about which one comes back.
#[verifier::external_body]
fn random_u16() -> u16 {
    rand::random::<u16>()
}

fn hex_digit(d: u16) -> (c: char)
    requires
        d < 16,
    ensures
        c == hex_char(d as int),
{
    if d == 0 {
        '0'
    } else if d == 1 {
        '1'
    } else if d == 2 {
        '2'
    } else if d == 3 {
        '3'
    } else if d == 4 {
        '4'
    } else if d == 5 {
        '5'
    } else if d == 6 {
        '6'
    } else if d == 7 {
        '7'
    } else if d == 8 {
        '8'
    } else if d == 9 {
        '9'
    } else if d == 10 {
        'a'
    } else if d == 11 {
        'b'
    } else if d == 12 {
        'c'
    } else if d == 13 {
        'd'
    } else if d == 14 {
        'e'
    } else {
        'f'
    }
}

/// The identifier for the value `n`: exactly `jt-` and `n` in four hex
/// digits.
pub fn render_id(n: u16) -> (r: String)
    ensures
        r@ == id_text(n as int),
        valid_id(r@),
{
    let mut v: Vec<char> = Vec::new();
    v.push('j');
    v.push('t');
    v.push('-');
    let c1 = hex_digit(n / 4096);
    v.push(c1);
    let c2 = hex_digit((n / 256) % 16);
    v.push(c2);
    let c3 = hex_digit((n / 16) % 16);
    v.push(c3);
    let c4 = hex_digit(n % 16);
    v.push(c4);
    proof {
        assert(v@ =~= id_text(n as int));
        lemma_id_text_valid(n as int);
    }
    text::string_of(&v)
}

/// A fresh identifier: the rendering of one random 16-bit value. The shape
/// is all that can be promised of a chance draw; `render_id` pins what each
/// drawn value becomes.
pub fn generate() -> (r: String)
    ensures
        valid_id(r@),
{
    let n = random_u16();
    render_id(n)
}

} // verus!
