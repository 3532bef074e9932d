//! Base-64 numerals with the digit alphabet `0-9 A-Z _ a-z ~`.

use vstd::prelude::*;
use vstd::string::StringSliceAdditionalSpecFns;
use vstd::utf8::*;
use crate::text::string_push;

verus! {

broadcast use vstd::string::group_string_axioms, vstd::utf8::group_utf8_lib;

/// The character that stands for digit `d` (`0 <= d < 64`).
pub open spec fn b64_digit(d: nat) -> char {
    if d < 10 {
        (48 + d) as char
    } else if d < 36 {
        (55 + d) as char
    } else if d == 36 {
        '_'
    } else if d < 63 {
        (60 + d) as char
    } else {
        '~'
    }
}

/// The numeral of `n`: its base-64 digits, most significant first, without
/// leading zeros (so `0` is written `"0"`).
pub open spec fn b64_digits(n: nat) -> Seq<char>
    decreases n,
{
    if n < 64 {
        seq![b64_digit(n)]
    } else {
        b64_digits(n / 64).push(b64_digit(n % 64))
    }
}

/// The digit value of an ASCII code (`c < 128`), or 255 where `c` is no digit.
pub open spec fn b64_code_value(c: int) -> int {
    if 48 <= c <= 57 {
        c - 48
    } else if 65 <= c <= 90 {
        c - 55
    } else if c == 95 {
        36
    } else if 97 <= c <= 122 {
        c - 60
    } else if c == 126 {
        63
    } else {
        255
    }
}

/// The digit value that a byte is read as: only its low seven bits count.
pub open spec fn b64_byte_value(b: u8) -> int {
    b64_code_value(b as int % 128)
}

/// Reads digits from the front of `s` into the accumulator `acc`, stopping at
/// the first byte that is no digit; each digit shifts the accumulator six bits
/// to the left within 32 bits and adds the digit.
pub open spec fn b64_scan(s: Seq<u8>, acc: nat) -> nat
    decreases s.len(),
{
    if s.len() == 0 || b64_byte_value(s[0]) == 255 {
        acc
    } else {
        b64_scan(s.drop_first(), (acc * 64) % 0x1_0000_0000 + b64_byte_value(s[0]) as nat)
    }
}

/// The number that a byte string is read as.
pub open spec fn b64_value(s: Seq<u8>) -> nat {
    b64_scan(s, 0)
}

fn digit_char(d: u32) -> (c: char)
    requires
        d < 64,
    ensures
        c == b64_digit(d as nat),
{
    if d < 10 {
        ((48 + d) as u8) as char
    } else if d < 36 {
        ((55 + d) as u8) as char
    } else if d == 36 {
        '_'
    } else if d < 63 {
        ((60 + d) as u8) as char
    } else {
        '~'
    }
}

fn push_digits(s: &mut String, m: u32)
    ensures
        final(s)@ == old(s)@ + b64_digits(m as nat),
    decreases m,
{
    if m >= 64 {
        push_digits(s, m / 64);
    }
    let c = digit_char(m % 64);
    string_push(s, c);
    proof {
        if m >= 64 {
            assert(b64_digits(m as nat) == b64_digits((m / 64) as nat).push(b64_digit((m % 64) as nat)));
        } else {
            assert(m % 64 == m);
        }
    }
}

/// Converts an integer to its base-64 numeral.
pub fn b64str(n: u32) -> (res: String)
    ensures
        res@ == b64_digits(n as nat),
        positional_value(res@) == n,
        n > 0 ==> res@[0] != '0',
{
    proof {
        b64_digits_are_expansion(n as nat);
    }
    let mut res = String::new();
    push_digits(&mut res, n);
    res
}

fn code_value(c: u8) -> (v: u8)
    requires
        c < 128,
    ensures
        v == b64_code_value(c as int),
{
    if 48 <= c && c <= 57 {
        c - 48
    } else if 65 <= c && c <= 90 {
        c - 55
    } else if c == 95 {
        36
    } else if 97 <= c && c <= 122 {
        c - 60
    } else if c == 126 {
        63
    } else {
        255
    }
}

/// Reads a base-64 numeral: digits are taken from the front up to the first
/// byte that is no digit, and the value is kept within 32 bits.
pub fn b64int(a: &str) -> (res: u32)
    ensures
        res == b64_value(a.spec_bytes()),
{
    let bytes = a.as_bytes();
    let mut res: u32 = 0;
    let mut i: usize = 0;
    assert(bytes@.skip(0) == bytes@);
    while i < bytes.len()
        invariant
            i <= bytes@.len(),
            bytes@ == a.spec_bytes(),
            b64_value(bytes@) == b64_scan(bytes@.skip(i as int), res as nat),
        decreases bytes@.len() - i,
    {
        let b = bytes[i];
        assert(b & 127 == b % 128 && b & 127 < 128) by (bit_vector);
        let k = code_value(b & 127);
        assert(bytes@.skip(i as int)[0] == b);
        if k == 255 {
            return res;
        }
        assert(res << 6 == (res as nat * 64) % 0x1_0000_0000) by (bit_vector);
        assert(res << 6 <= 0xffff_ffc0) by (bit_vector);
        assert(bytes@.skip(i as int).drop_first() == bytes@.skip(i + 1));
        res = (res << 6) + (k as u32);
        i = i + 1;
    }
    res
}


proof fn lemma_digit_char(d: nat)
    requires
        d < 64,
    ensures
        (b64_digit(d) as int) < 128,
        b64_code_value(b64_digit(d) as int) == d,
        b64_byte_value(b64_digit(d) as u8) == d,
{
    let c = b64_digit(d);
    assert((c as int) < 128);
    assert(b64_code_value(c as int) == d);
    assert((c as u8) as int == c as int);
}


/// The bytes of the numeral of `n`, one per digit.
spec fn b64_digit_bytes(n: nat) -> Seq<u8> {
    b64_digits(n).map_values(|c: char| c as u8)
}

proof fn lemma_digits_ascii(n: nat)
    ensures
        is_ascii_chars(b64_digits(n)),
        encode_utf8(b64_digits(n)) == b64_digit_bytes(n),
    decreases n,
{
    let ds = b64_digits(n);
    if n < 64 {
        lemma_digit_char(n);
    } else {
        lemma_digits_ascii(n / 64);
        lemma_digit_char(n % 64);
        assert forall|i: int| 0 <= i < ds.len() implies '\0' <= #[trigger] ds[i] <= '\u{7f}' by {
            if i < ds.len() - 1 {
                assert(ds[i] == b64_digits(n / 64)[i]);
            }
        }
    }
    is_ascii_chars_encode_utf8(ds);
    assert(encode_utf8(ds) =~= b64_digit_bytes(n));
}

proof fn lemma_scan_digits(n: nat, t: Seq<u8>)
    requires
        n < 0x1_0000_0000,
    ensures
        b64_scan(b64_digit_bytes(n) + t, 0) == b64_scan(t, n),
    decreases n,
{
    if n < 64 {
        lemma_digit_char(n);
        let s = b64_digit_bytes(n) + t;
        assert(s[0] == b64_digit(n) as u8);
        assert(s.drop_first() =~= t);
    } else {
        let x = b64_digit(n % 64) as u8;
        lemma_digit_char(n % 64);
        assert(b64_digit_bytes(n) =~= b64_digit_bytes(n / 64).push(x));
        assert(b64_digit_bytes(n) + t =~= b64_digit_bytes(n / 64) + (seq![x] + t));
        lemma_scan_digits(n / 64, seq![x] + t);
        assert((seq![x] + t)[0] == x);
        assert((seq![x] + t).drop_first() =~= t);
        assert((n / 64) * 64 + n % 64 == n) by (nonlinear_arith);
        assert(((n / 64) * 64) % 0x1_0000_0000 == (n / 64) * 64);
    }
}

/// Reading back the numeral that `b64str` writes for `n` gives `n`.
pub proof fn b64_roundtrip(n: u32)
    ensures
        b64_value(encode_utf8(b64_digits(n as nat))) == n,
{
    lemma_digits_ascii(n as nat);
    lemma_scan_digits(n as nat, Seq::empty());
    assert(b64_digit_bytes(n as nat) + Seq::<u8>::empty() =~= b64_digit_bytes(n as nat));
}

/// The digits in order of value: digit `d` is the `d`-th character.
pub open spec fn b64_alphabet() -> Seq<char> {
    seq!['0', '1', '2', '3', '4', '5', '6', '7', '8', '9', 'A', 'B', 'C', 'D', 'E', 'F', 'G', 'H', 'I', 'J', 'K', 'L', 'M', 'N', 'O', 'P', 'Q', 'R', 'S', 'T', 'U', 'V', 'W', 'X', 'Y', 'Z', '_', 'a', 'b', 'c', 'd', 'e', 'f', 'g', 'h', 'i', 'j', 'k', 'l', 'm', 'n', 'o', 'p', 'q', 'r', 's', 't', 'u', 'v', 'w', 'x', 'y', 'z', '~']
}

/// Digit `d` is written as the `d`-th character of the alphabet
/// `0-9 A-Z _ a-z ~`, and that character is read back as `d`.
pub proof fn b64_digits_follow_alphabet(d: nat)
    requires
        d < 64,
    ensures
        b64_digit(d) == b64_alphabet()[d as int],
        b64_code_value(b64_alphabet()[d as int] as int) == d,
{
    assert(b64_alphabet().len() == 64);
    lemma_digit_char(d);
        if d == 0 {
            assert(b64_alphabet()[0] == '0');
        } else if d == 1 {
            assert(b64_alphabet()[1] == '1');
        } else if d == 2 {
            assert(b64_alphabet()[2] == '2');
        } else if d == 3 {
            assert(b64_alphabet()[3] == '3');
        } else if d == 4 {
            assert(b64_alphabet()[4] == '4');
        } else if d == 5 {
            assert(b64_alphabet()[5] == '5');
        } else if d == 6 {
            assert(b64_alphabet()[6] == '6');
        } else if d == 7 {
            assert(b64_alphabet()[7] == '7');
        } else if d == 8 {
            assert(b64_alphabet()[8] == '8');
        } else if d == 9 {
            assert(b64_alphabet()[9] == '9');
        } else if d == 10 {
            assert(b64_alphabet()[10] == 'A');
        } else if d == 11 {
            assert(b64_alphabet()[11] == 'B');
        } else if d == 12 {
            assert(b64_alphabet()[12] == 'C');
        } else if d == 13 {
            assert(b64_alphabet()[13] == 'D');
        } else if d == 14 {
            assert(b64_alphabet()[14] == 'E');
        } else if d == 15 {
            assert(b64_alphabet()[15] == 'F');
        } else if d == 16 {
            assert(b64_alphabet()[16] == 'G');
        } else if d == 17 {
            assert(b64_alphabet()[17] == 'H');
        } else if d == 18 {
            assert(b64_alphabet()[18] == 'I');
        } else if d == 19 {
            assert(b64_alphabet()[19] == 'J');
        } else if d == 20 {
            assert(b64_alphabet()[20] == 'K');
        } else if d == 21 {
            assert(b64_alphabet()[21] == 'L');
        } else if d == 22 {
            assert(b64_alphabet()[22] == 'M');
        } else if d == 23 {
            assert(b64_alphabet()[23] == 'N');
        } else if d == 24 {
            assert(b64_alphabet()[24] == 'O');
        } else if d == 25 {
            assert(b64_alphabet()[25] == 'P');
        } else if d == 26 {
            assert(b64_alphabet()[26] == 'Q');
        } else if d == 27 {
            assert(b64_alphabet()[27] == 'R');
        } else if d == 28 {
            assert(b64_alphabet()[28] == 'S');
        } else if d == 29 {
            assert(b64_alphabet()[29] == 'T');
        } else if d == 30 {
            assert(b64_alphabet()[30] == 'U');
        } else if d == 31 {
            assert(b64_alphabet()[31] == 'V');
        } else if d == 32 {
            assert(b64_alphabet()[32] == 'W');
        } else if d == 33 {
            assert(b64_alphabet()[33] == 'X');
        } else if d == 34 {
            assert(b64_alphabet()[34] == 'Y');
        } else if d == 35 {
            assert(b64_alphabet()[35] == 'Z');
        } else if d == 36 {
            assert(b64_alphabet()[36] == '_');
        } else if d == 37 {
            assert(b64_alphabet()[37] == 'a');
        } else if d == 38 {
            assert(b64_alphabet()[38] == 'b');
        } else if d == 39 {
            assert(b64_alphabet()[39] == 'c');
        } else if d == 40 {
            assert(b64_alphabet()[40] == 'd');
        } else if d == 41 {
            assert(b64_alphabet()[41] == 'e');
        } else if d == 42 {
            assert(b64_alphabet()[42] == 'f');
        } else if d == 43 {
            assert(b64_alphabet()[43] == 'g');
        } else if d == 44 {
            assert(b64_alphabet()[44] == 'h');
        } else if d == 45 {
            assert(b64_alphabet()[45] == 'i');
        } else if d == 46 {
            assert(b64_alphabet()[46] == 'j');
        } else if d == 47 {
            assert(b64_alphabet()[47] == 'k');
        } else if d == 48 {
            assert(b64_alphabet()[48] == 'l');
        } else if d == 49 {
            assert(b64_alphabet()[49] == 'm');
        } else if d == 50 {
            assert(b64_alphabet()[50] == 'n');
        } else if d == 51 {
            assert(b64_alphabet()[51] == 'o');
        } else if d == 52 {
            assert(b64_alphabet()[52] == 'p');
        } else if d == 53 {
            assert(b64_alphabet()[53] == 'q');
        } else if d == 54 {
            assert(b64_alphabet()[54] == 'r');
        } else if d == 55 {
            assert(b64_alphabet()[55] == 's');
        } else if d == 56 {
            assert(b64_alphabet()[56] == 't');
        } else if d == 57 {
            assert(b64_alphabet()[57] == 'u');
        } else if d == 58 {
            assert(b64_alphabet()[58] == 'v');
        } else if d == 59 {
            assert(b64_alphabet()[59] == 'w');
        } else if d == 60 {
            assert(b64_alphabet()[60] == 'x');
        } else if d == 61 {
            assert(b64_alphabet()[61] == 'y');
        } else if d == 62 {
            assert(b64_alphabet()[62] == 'z');
        } else if d == 63 {
            assert(b64_alphabet()[63] == '~');
        }
}

/// A character code that is no character of the alphabet is read as no
/// digit; one that is, is read as its position in the alphabet.
pub proof fn b64_codes_follow_alphabet(c: int)
    requires
        0 <= c < 128,
    ensures
        b64_code_value(c) == 255 || (0 <= b64_code_value(c) < 64 && b64_alphabet()[b64_code_value(
            c,
        )] as int == c),
        (exists|d: int| 0 <= d < 64 && b64_alphabet()[d] as int == c) ==> b64_code_value(c) != 255,
{
    let v = b64_code_value(c);
    if v != 255 {
        b64_digits_follow_alphabet(v as nat);
        assert(b64_digit(v as nat) as int == c);
    }
    if exists|d: int| 0 <= d < 64 && b64_alphabet()[d] as int == c {
        let d = choose|d: int| 0 <= d < 64 && b64_alphabet()[d] as int == c;
        b64_digits_follow_alphabet(d as nat);
    }
}

/// The number that a numeral of digits denotes in plain positional notation
/// in base 64, each character counting with its digit value.
pub open spec fn positional_value(s: Seq<char>) -> int
    decreases s.len(),
{
    if s.len() == 0 {
        0
    } else {
        positional_value(s.drop_last()) * 64 + b64_code_value(s.last() as int)
    }
}

/// The numeral of `n` is its base-64 expansion: every character is a digit
/// of the alphabet, the leading one is not `0` unless `n` is 0, and the digit
/// values weighted by powers of 64 add up to exactly `n`.
pub proof fn b64_digits_are_expansion(n: nat)
    ensures
        forall|i: int|
            0 <= i < b64_digits(n).len() ==> 0 <= #[trigger] b64_code_value(b64_digits(n)[i] as int)
                < 64,
        n > 0 ==> b64_digits(n)[0] != '0',
        positional_value(b64_digits(n)) == n,
    decreases n,
{
    let ds = b64_digits(n);
    lemma_digit_char(n % 64);
    if n < 64 {
        assert(ds.drop_last() =~= Seq::<char>::empty());
        assert(positional_value(ds.drop_last()) == 0);
        if n > 0 {
            b64_digits_follow_alphabet(n);
            b64_digits_follow_alphabet(0);
        }
    } else {
        let hi = b64_digits(n / 64);
        b64_digits_are_expansion(n / 64);
        assert(ds.drop_last() =~= hi);
        assert forall|i: int| 0 <= i < ds.len() implies 0 <= #[trigger] b64_code_value(ds[i] as int)
            < 64 by {
            if i < ds.len() - 1 {
                assert(ds[i] == hi[i]);
            }
        }
        assert(ds[0] == hi[0]);
        assert((n / 64) * 64 + n % 64 == n) by (nonlinear_arith);
    }
}

} // verus!
