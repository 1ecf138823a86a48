//! Profile identifiers: fresh 128-bit values and their canonical text
//! form, the usual hyphenated lowercase-hexadecimal rendering.  The
//! rendering is proved injective, so two distinct identifiers never share
//! a text form.

use vstd::arithmetic::div_mod::{lemma_mod_breakdown, lemma_small_mod};
use vstd::prelude::*;

verus! {

/// Relies on uuid::Uuid::new_v4 (uuid crate): a fresh random version-4
/// UUID, drawn from the crate's cryptographically strong source;
/// `as_u128` converts it to its big-endian 128-bit value.  The result is
/// random, so nothing is promised of it.
#[verifier::external_body]
pub(crate) fn fresh_id_bits() -> u128 {
    uuid::Uuid::new_v4().as_u128()
}

/// Relies on String's FromIterator impl over char (std): collecting an
/// iterator of characters yields the string of exactly those characters,
/// in order.
#[verifier::external_body]
pub(crate) fn chars_to_string(chars: &Vec<char>) -> (r: String)
    ensures
        r@ == chars@,
{
    chars.iter().collect()
}

/// The lowercase hexadecimal digit for a value below sixteen.
pub open spec fn hex_char(v: u8) -> char {
    if v == 0 {
        '0'
    } else if v == 1 {
        '1'
    } else if v == 2 {
        '2'
    } else if v == 3 {
        '3'
    } else if v == 4 {
        '4'
    } else if v == 5 {
        '5'
    } else if v == 6 {
        '6'
    } else if v == 7 {
        '7'
    } else if v == 8 {
        '8'
    } else if v == 9 {
        '9'
    } else if v == 10 {
        'a'
    } else if v == 11 {
        'b'
    } else if v == 12 {
        'c'
    } else if v == 13 {
        'd'
    } else if v == 14 {
        'e'
    } else {
        'f'
    }
}

/// The value of a lowercase hexadecimal digit.
pub open spec fn hex_val(c: char) -> u8 {
    if c == '0' {
        0
    } else if c == '1' {
        1
    } else if c == '2' {
        2
    } else if c == '3' {
        3
    } else if c == '4' {
        4
    } else if c == '5' {
        5
    } else if c == '6' {
        6
    } else if c == '7' {
        7
    } else if c == '8' {
        8
    } else if c == '9' {
        9
    } else if c == 'a' {
        10
    } else if c == 'b' {
        11
    } else if c == 'c' {
        12
    } else if c == 'd' {
        13
    } else if c == 'e' {
        14
    } else {
        15
    }
}

proof fn lemma_hex_char_val(v: u8)
    requires
        v < 16,
    ensures
        hex_val(hex_char(v)) == v,
{
}

/// The last `n` hexadecimal digits of `x`, most significant first.
pub open spec fn spec_hex_digits(x: u128, n: nat) -> Seq<char>
    decreases n,
{
    if n == 0 {
        Seq::empty()
    } else {
        spec_hex_digits(x / 16, (n - 1) as nat).push(hex_char((x % 16) as u8))
    }
}

proof fn lemma_hex_digits_len(x: u128, n: nat)
    ensures
        spec_hex_digits(x, n).len() == n,
    decreases n,
{
    if n > 0 {
        lemma_hex_digits_len(x / 16, (n - 1) as nat);
    }
}

/// The canonical text form: thirty-two digits in five hyphen-separated
/// groups of 8, 4, 4, 4 and 12.
pub open spec fn spec_id_string(bits: u128) -> Seq<char> {
    let d = spec_hex_digits(bits, 32);
    d.subrange(0, 8) + seq!['-'] + d.subrange(8, 12) + seq!['-'] + d.subrange(12, 16) + seq!['-']
        + d.subrange(16, 20) + seq!['-'] + d.subrange(20, 32)
}

/// The numeric value of a digit string, most significant digit first.
pub open spec fn spec_hex_value(s: Seq<char>) -> int
    decreases s.len(),
{
    if s.len() == 0 {
        0
    } else {
        spec_hex_value(s.drop_last()) * 16 + hex_val(s.last())
    }
}

/// Sixteen to the `n`.
pub open spec fn pow16(n: nat) -> int
    decreases n,
{
    if n == 0 {
        1
    } else {
        16 * pow16((n - 1) as nat)
    }
}

proof fn lemma_pow16_pos(n: nat)
    ensures
        pow16(n) >= 1,
    decreases n,
{
    if n > 0 {
        lemma_pow16_pos((n - 1) as nat);
    }
}

/// Reading the digits back recovers the value modulo `16^n`.
proof fn lemma_hex_digits_value(x: u128, n: nat)
    ensures
        spec_hex_value(spec_hex_digits(x, n)) == (x as int) % pow16(n),
    decreases n,
{
    if n == 0 {
        lemma_small_mod(0, 1);
        assert((x as int) % 1 == 0) by {
            lemma_mod_breakdown(x as int, 1, 1);
        }
    } else {
        let d = spec_hex_digits(x, n);
        let low = (x % 16) as u8;
        assert(d.drop_last() =~= spec_hex_digits(x / 16, (n - 1) as nat));
        assert(d.last() == hex_char(low));
        lemma_hex_char_val(low);
        lemma_hex_digits_value(x / 16, (n - 1) as nat);
        lemma_pow16_pos((n - 1) as nat);
        lemma_mod_breakdown(x as int, 16, pow16((n - 1) as nat));
        assert((x / 16) as int == (x as int) / 16);
        assert((x % 16) as int == (x as int) % 16);
    }
}

proof fn lemma_pow16_32()
    ensures
        pow16(32) == 0x1_0000_0000_0000_0000_0000_0000_0000_0000,
{
    assert(pow16(0) == 1);
    assert(pow16(1) == 16);
    assert(pow16(2) == 0x100);
    assert(pow16(3) == 0x1000);
    assert(pow16(4) == 0x1_0000);
    assert(pow16(5) == 0x10_0000);
    assert(pow16(6) == 0x100_0000);
    assert(pow16(7) == 0x1000_0000);
    assert(pow16(8) == 0x1_0000_0000);
    assert(pow16(9) == 0x10_0000_0000);
    assert(pow16(10) == 0x100_0000_0000);
    assert(pow16(11) == 0x1000_0000_0000);
    assert(pow16(12) == 0x1_0000_0000_0000);
    assert(pow16(13) == 0x10_0000_0000_0000);
    assert(pow16(14) == 0x100_0000_0000_0000);
    assert(pow16(15) == 0x1000_0000_0000_0000);
    assert(pow16(16) == 0x1_0000_0000_0000_0000);
    assert(pow16(17) == 0x10_0000_0000_0000_0000);
    assert(pow16(18) == 0x100_0000_0000_0000_0000);
    assert(pow16(19) == 0x1000_0000_0000_0000_0000);
    assert(pow16(20) == 0x1_0000_0000_0000_0000_0000);
    assert(pow16(21) == 0x10_0000_0000_0000_0000_0000);
    assert(pow16(22) == 0x100_0000_0000_0000_0000_0000);
    assert(pow16(23) == 0x1000_0000_0000_0000_0000_0000);
    assert(pow16(24) == 0x1_0000_0000_0000_0000_0000_0000);
    assert(pow16(25) == 0x10_0000_0000_0000_0000_0000_0000);
    assert(pow16(26) == 0x100_0000_0000_0000_0000_0000_0000);
    assert(pow16(27) == 0x1000_0000_0000_0000_0000_0000_0000);
    assert(pow16(28) == 0x1_0000_0000_0000_0000_0000_0000_0000);
    assert(pow16(29) == 0x10_0000_0000_0000_0000_0000_0000_0000);
    assert(pow16(30) == 0x100_0000_0000_0000_0000_0000_0000_0000);
    assert(pow16(31) == 0x1000_0000_0000_0000_0000_0000_0000_0000);
    assert(pow16(32) == 0x1_0000_0000_0000_0000_0000_0000_0000_0000);
}

/// Two identifiers with the same canonical text form are the same: the
/// text form never collides.
pub proof fn lemma_id_string_injective(a: u128, b: u128)
    requires
        spec_id_string(a) == spec_id_string(b),
    ensures
        a == b,
{
    let da = spec_hex_digits(a, 32);
    let db = spec_hex_digits(b, 32);
    lemma_hex_digits_len(a, 32);
    lemma_hex_digits_len(b, 32);
    let sa = spec_id_string(a);
    let sb = spec_id_string(b);
    assert forall|j: int| 0 <= j < 32 implies da[j] == db[j] by {
        if j < 8 {
            assert(sa[j] == da[j]);
            assert(sb[j] == db[j]);
        } else if j < 12 {
            assert(sa[j + 1] == da[j]);
            assert(sb[j + 1] == db[j]);
        } else if j < 16 {
            assert(sa[j + 2] == da[j]);
            assert(sb[j + 2] == db[j]);
        } else if j < 20 {
            assert(sa[j + 3] == da[j]);
            assert(sb[j + 3] == db[j]);
        } else {
            assert(sa[j + 4] == da[j]);
            assert(sb[j + 4] == db[j]);
        }
    }
    assert(da =~= db);
    lemma_hex_digits_value(a, 32);
    lemma_hex_digits_value(b, 32);
    lemma_pow16_32();
    lemma_small_mod(a as nat, pow16(32) as nat);
    lemma_small_mod(b as nat, pow16(32) as nat);
}

fn hex_char_of(v: u8) -> (c: char)
    requires
        v < 16,
    ensures
        c == hex_char(v),
{
    match v {
        0 => '0',
        1 => '1',
        2 => '2',
        3 => '3',
        4 => '4',
        5 => '5',
        6 => '6',
        7 => '7',
        8 => '8',
        9 => '9',
        10 => 'a',
        11 => 'b',
        12 => 'c',
        13 => 'd',
        14 => 'e',
        _ => 'f',
    }
}

fn push_hex_digits(out: &mut Vec<char>, x: u128, n: u8)
    ensures
        final(out)@ == old(out)@ + spec_hex_digits(x, n as nat),
    decreases n,
{
    if n > 0 {
        push_hex_digits(out, x / 16, n - 1);
        let d = (x % 16) as u8;
        out.push(hex_char_of(d));
        proof {
            assert(out@ =~= old(out)@ + spec_hex_digits(x, n as nat));
        }
    } else {
        proof {
            assert(out@ =~= old(out)@ + spec_hex_digits(x, 0));
        }
    }
}

#[verifier::loop_isolation(false)]
fn push_range(out: &mut Vec<char>, d: &Vec<char>, from: usize, to: usize)
    requires
        from <= to <= d@.len(),
    ensures
        final(out)@ == old(out)@ + d@.subrange(from as int, to as int),
{
    let mut i = from;
    proof {
        assert(out@ =~= old(out)@ + d@.subrange(from as int, from as int));
    }
    while i < to
        invariant
            from <= i <= to,
            out@ == old(out)@ + d@.subrange(from as int, i as int),
        decreases to - i,
    {
        out.push(d[i]);
        proof {
            assert(d@.subrange(from as int, i as int).push(d@[i as int]) =~= d@.subrange(
                from as int,
                i as int + 1,
            ));
            assert(out@ =~= old(out)@ + d@.subrange(from as int, i as int + 1));
        }
        i = i + 1;
    }
}

/// The canonical text form of an identifier.
pub fn id_to_string(bits: u128) -> (r: String)
    ensures
        r@ == spec_id_string(bits),
{
    let mut digits: Vec<char> = Vec::new();
    push_hex_digits(&mut digits, bits, 32);
    proof {
        lemma_hex_digits_len(bits, 32);
        assert(digits@ =~= spec_hex_digits(bits, 32));
    }
    let mut out: Vec<char> = Vec::new();
    push_range(&mut out, &digits, 0, 8);
    out.push('-');
    push_range(&mut out, &digits, 8, 12);
    out.push('-');
    push_range(&mut out, &digits, 12, 16);
    out.push('-');
    push_range(&mut out, &digits, 16, 20);
    out.push('-');
    push_range(&mut out, &digits, 20, 32);
    proof {
        assert(out@ =~= spec_id_string(bits));
    }
    chars_to_string(&out)
}

} // verus!
