//! Conversion between 32-character hexadecimal strings and 16-byte values.
use vstd::arithmetic::div_mod::lemma_fundamental_div_mod_converse;
use vstd::prelude::*;

use crate::error::Memo128Error;
use crate::memo::Memo128;
use crate::text::{chars_of, push_char};

verus! {

/// Whether `c` is a hexadecimal digit (either case).
pub open spec fn is_hex_digit(c: char) -> bool {
    ||| ('0' <= c && c <= '9')
    ||| ('a' <= c && c <= 'f')
    ||| ('A' <= c && c <= 'F')
}

/// Whether `c` is a lowercase hexadecimal digit.
pub open spec fn is_lower_hex_digit(c: char) -> bool {
    ('0' <= c && c <= '9') || ('a' <= c && c <= 'f')
}

/// The value of the hexadecimal digit `c`.
pub open spec fn hex_digit_value(c: char) -> int {
    if '0' <= c && c <= '9' {
        c as int - '0' as int
    } else if 'a' <= c && c <= 'f' {
        c as int - 'a' as int + 10
    } else {
        c as int - 'A' as int + 10
    }
}

/// Whether `s` is a valid encoding input: exactly 32 hexadecimal digits.
pub open spec fn valid_hex_input(s: Seq<char>) -> bool {
    &&& s.len() == 32
    &&& forall|i: int| 0 <= i < 32 ==> #[trigger] is_hex_digit(s[i])
}

/// The bytes written by the hexadecimal digits `s`, two digits per byte,
/// high digit first.
pub open spec fn hex_bytes(s: Seq<char>) -> Seq<u8> {
    Seq::new(
        (s.len() / 2) as nat,
        |i: int| (hex_digit_value(s[2 * i]) * 16 + hex_digit_value(s[2 * i + 1])) as u8,
    )
}

/// The lowercase hexadecimal digit for `n` (below 16).
pub open spec fn lower_hex_digit(n: int) -> char {
    if n < 10 {
        (48 + n) as char
    } else {
        (97 + n - 10) as char
    }
}

/// The lowercase hexadecimal text of `b`: two digits per byte, high digit
/// first.
pub open spec fn hex_encoding(b: Seq<u8>) -> Seq<char> {
    Seq::new(
        2 * b.len(),
        |i: int|
            if i % 2 == 0 {
                lower_hex_digit(b[i / 2] as int / 16)
            } else {
                lower_hex_digit(b[i / 2] as int % 16)
            },
    )
}

/// The value of `c` if it is a hexadecimal digit.
fn hex_digit(c: char) -> (r: Option<u8>)
    ensures
        match r {
            Some(v) => is_hex_digit(c) && v == hex_digit_value(c) && v < 16,
            None => !is_hex_digit(c),
        },
{
    let u = c as u32;
    if 48 <= u && u <= 57 {
        Some((u - 48) as u8)
    } else if 97 <= u && u <= 102 {
        Some((u - 97 + 10) as u8)
    } else if 65 <= u && u <= 70 {
        Some((u - 65 + 10) as u8)
    } else {
        None
    }
}

/// The lowercase hexadecimal digit for `n`.
fn lower_hex_char(n: u8) -> (r: char)
    requires
        n < 16,
    ensures
        r == lower_hex_digit(n as int),
        is_lower_hex_digit(r),
{
    if n < 10 {
        (48u8 + n) as char
    } else {
        (97u8 + n - 10) as char
    }
}

impl Memo128 {
    /// Converts a 32-character hexadecimal string to 16 bytes.
    ///
    /// Fails with `InvalidHexInput` when the input is not exactly 32
    /// characters long or holds a character that is not a hexadecimal digit.
    pub fn hex_to_bytes(hex: &str) -> (r: Result<Vec<u8>, Memo128Error>)
        ensures
            match r {
                Ok(bytes) => valid_hex_input(hex@) && bytes@ == hex_bytes(hex@),
                Err(e) => !valid_hex_input(hex@) && e is InvalidHexInput,
            },
    {
        let chars = chars_of(hex);
        if chars.len() != 32 {
            return Err(
                Memo128Error::InvalidHexInput(String::from_str("Hex string must be 32 characters long")),
            );
        }
        let mut bytes: Vec<u8> = Vec::with_capacity(16);
        let mut i: usize = 0;
        while i < 16
            invariant
                chars@ == hex@,
                chars@.len() == 32,
                i <= 16,
                forall|k: int| 0 <= k < 2 * i ==> #[trigger] is_hex_digit(hex@[k]),
                bytes@ =~= hex_bytes(hex@).take(i as int),
            decreases 16 - i,
        {
            let c1 = chars[2 * i];
            let c2 = chars[2 * i + 1];
            match (hex_digit(c1), hex_digit(c2)) {
                (Some(hi), Some(lo)) => {
                    bytes.push(hi * 16 + lo);
                    assert forall|k: int| 0 <= k < 2 * (i + 1) implies #[trigger] is_hex_digit(
                        hex@[k],
                    ) by {
                        if k == 2 * i || k == 2 * i + 1 {
                        }
                    }
                },
                _ => {
                    let mut m = String::from_str("Invalid hex characters: ");
                    push_char(&mut m, c1);
                    push_char(&mut m, c2);
                    return Err(Memo128Error::InvalidHexInput(m));
                },
            }
            i = i + 1;
        }
        assert(hex_bytes(hex@).take(16) =~= hex_bytes(hex@));
        Ok(bytes)
    }

    /// Converts bytes to lowercase hexadecimal text, two digits per byte.
    pub fn bytes_to_hex(bytes: &[u8]) -> (r: String)
        ensures
            r@ == hex_encoding(bytes@),
    {
        let n = bytes.len();
        let mut result = String::new();
        let mut i: usize = 0;
        while i < n
            invariant
                n == bytes@.len(),
                i <= n,
                result@ =~= hex_encoding(bytes@.take(i as int)),
            decreases n - i,
        {
            let b = bytes[i];
            push_char(&mut result, lower_hex_char(b / 16));
            push_char(&mut result, lower_hex_char(b % 16));
            assert(hex_encoding(bytes@.take(i + 1)) =~= hex_encoding(bytes@.take(i as int)).push(
                lower_hex_digit(b as int / 16),
            ).push(lower_hex_digit(b as int % 16)));
            i = i + 1;
        }
        assert(bytes@.take(n as int) =~= bytes@);
        result
    }
}

proof fn lemma_digit_value_of_lower(n: int)
    requires
        0 <= n < 16,
    ensures
        is_lower_hex_digit(lower_hex_digit(n)),
        is_hex_digit(lower_hex_digit(n)),
        hex_digit_value(lower_hex_digit(n)) == n,
{
}

proof fn lemma_lower_of_digit_value(c: char)
    requires
        is_lower_hex_digit(c),
    ensures
        0 <= hex_digit_value(c) < 16,
        lower_hex_digit(hex_digit_value(c)) == c,
{
}

/// Reading back the hexadecimal text of 16 bytes gives the bytes.
pub proof fn lemma_hex_bytes_of_encoding(b: Seq<u8>)
    requires
        b.len() == 16,
    ensures
        valid_hex_input(hex_encoding(b)),
        hex_bytes(hex_encoding(b)) == b,
        forall|i: int| 0 <= i < 32 ==> #[trigger] is_lower_hex_digit(hex_encoding(b)[i]),
{
    let h = hex_encoding(b);
    assert forall|i: int| 0 <= i < 32 implies #[trigger] is_lower_hex_digit(h[i]) && is_hex_digit(
        h[i],
    ) by {
        lemma_digit_value_of_lower(b[i / 2] as int / 16);
        lemma_digit_value_of_lower(b[i / 2] as int % 16);
    }
    assert forall|i: int| 0 <= i < 16 implies #[trigger] hex_bytes(h)[i] == b[i] by {
        let x = b[i] as int;
        assert((2 * i) % 2 == 0 && (2 * i) / 2 == i);
        assert((2 * i + 1) % 2 == 1 && (2 * i + 1) / 2 == i);
        lemma_digit_value_of_lower(x / 16);
        lemma_digit_value_of_lower(x % 16);
        lemma_fundamental_div_mod_converse(x, 16, x / 16, x % 16);
    }
    assert(hex_bytes(h) =~= b);
}

/// The hexadecimal text of the bytes that a lowercase hexadecimal string
/// writes is that string.
pub proof fn lemma_encoding_of_hex_bytes(s: Seq<char>)
    requires
        valid_hex_input(s),
        forall|i: int| 0 <= i < 32 ==> #[trigger] is_lower_hex_digit(s[i]),
    ensures
        hex_encoding(hex_bytes(s)) == s,
{
    let b = hex_bytes(s);
    assert forall|i: int| 0 <= i < 32 implies #[trigger] hex_encoding(b)[i] == s[i] by {
        let j = i / 2;
        let hi = s[2 * j];
        let lo = s[2 * j + 1];
        assert(is_lower_hex_digit(hi) && is_lower_hex_digit(lo));
        lemma_lower_of_digit_value(hi);
        lemma_lower_of_digit_value(lo);
        let x = hex_digit_value(hi) * 16 + hex_digit_value(lo);
        lemma_fundamental_div_mod_converse(x, 16, hex_digit_value(hi), hex_digit_value(lo));
        assert(b[j] as int == x);
    }
    assert(hex_encoding(b) =~= s);
}

} // verus!
