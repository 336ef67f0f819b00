//! Hexadecimal addresses as strings of binary digits.
use vstd::prelude::*;

verus! {

/// A digit that the trace format accepts in an address: `0-9`, `a-f`, `A-F`.
pub open spec fn is_hex_digit(c: char) -> bool {
    ('0' <= c && c <= '9') || ('a' <= c && c <= 'f') || ('A' <= c && c <= 'F')
}

/// The value of a hexadecimal digit, case-insensitive.
pub open spec fn hex_value(c: char) -> int {
    if '0' <= c && c <= '9' {
        c as int - '0' as int
    } else if 'a' <= c && c <= 'f' {
        c as int - 'a' as int + 10
    } else {
        c as int - 'A' as int + 10
    }
}

/// The binary digit for a bit value.
pub open spec fn bit_char(v: int) -> char {
    if v == 0 { '0' } else { '1' }
}

/// The four binary digits of a value below 16, most significant first.
pub open spec fn nibble_bits(v: int) -> Seq<char> {
    seq![bit_char((v / 8) % 2), bit_char((v / 4) % 2), bit_char((v / 2) % 2), bit_char(v % 2)]
}

/// The binary digits of one character: four for a hexadecimal digit, none otherwise.
pub open spec fn digit_bits(c: char) -> Seq<char> {
    if is_hex_digit(c) { nibble_bits(hex_value(c)) } else { Seq::empty() }
}

/// The binary digits of a string, digit by digit, in order.
pub open spec fn hex_to_bits(s: Seq<char>) -> Seq<char>
    decreases s.len(),
{
    if s.len() == 0 {
        Seq::empty()
    } else {
        hex_to_bits(s.drop_last()) + digit_bits(s.last())
    }
}

/// Every character is a hexadecimal digit.
pub open spec fn all_hex(s: Seq<char>) -> bool {
    forall|i: int| 0 <= i < s.len() ==> #[trigger] is_hex_digit(s[i])
}

/// Every character is `0` or `1`.
pub open spec fn all_binary(s: Seq<char>) -> bool {
    forall|i: int| 0 <= i < s.len() ==> #[trigger] s[i] == '0' || s[i] == '1'
}

/// Each hexadecimal digit has a value below 16 and converts to exactly four
/// binary digits.
pub proof fn lemma_digit_bits_shape(c: char)
    requires
        is_hex_digit(c),
    ensures
        0 <= hex_value(c) < 16,
        digit_bits(c).len() == 4,
        all_binary(digit_bits(c)),
{
}

/// The conversion of a digit loses nothing: two digits with the same binary
/// digits have the same value.
pub proof fn lemma_digit_bits_lossless(c1: char, c2: char)
    requires
        is_hex_digit(c1),
        is_hex_digit(c2),
        digit_bits(c1) == digit_bits(c2),
    ensures
        hex_value(c1) == hex_value(c2),
{
    let v1 = hex_value(c1);
    let v2 = hex_value(c2);
    assert(digit_bits(c1)[0] == digit_bits(c2)[0]);
    assert(digit_bits(c1)[1] == digit_bits(c2)[1]);
    assert(digit_bits(c1)[2] == digit_bits(c2)[2]);
    assert(digit_bits(c1)[3] == digit_bits(c2)[3]);
    assert(v1 == 8 * ((v1 / 8) % 2) + 4 * ((v1 / 4) % 2) + 2 * ((v1 / 2) % 2) + v1 % 2);
    assert(v2 == 8 * ((v2 / 8) % 2) + 4 * ((v2 / 4) % 2) + 2 * ((v2 / 2) % 2) + v2 % 2);
}

/// Conversion keeps the order of the digits: the binary digits of two strings
/// one after the other are those of the first followed by those of the second.
pub proof fn lemma_hex_to_bits_concat(a: Seq<char>, b: Seq<char>)
    ensures
        hex_to_bits(a + b) == hex_to_bits(a) + hex_to_bits(b),
    decreases b.len(),
{
    if b.len() == 0 {
        assert(a + b =~= a);
        assert(hex_to_bits(a) + hex_to_bits(b) =~= hex_to_bits(a));
    } else {
        assert((a + b).drop_last() =~= a + b.drop_last());
        assert((a + b).last() == b.last());
        lemma_hex_to_bits_concat(a, b.drop_last());
        assert(hex_to_bits(a + b) =~= hex_to_bits(a) + hex_to_bits(b));
    }
}

/// A string of hexadecimal digits converts to four binary digits per digit,
/// and digit `i` becomes binary digits `4 * i` to `4 * i + 3`.
pub proof fn lemma_hex_to_bits_digits(s: Seq<char>)
    requires
        all_hex(s),
    ensures
        hex_to_bits(s).len() == 4 * s.len(),
        all_binary(hex_to_bits(s)),
        forall|i: int| 0 <= i < s.len() ==> hex_to_bits(s).subrange(4 * i, 4 * i + 4) == #[trigger] digit_bits(s[i]),
    decreases s.len(),
{
    if s.len() > 0 {
        let init = s.drop_last();
        lemma_hex_to_bits_digits(init);
        lemma_digit_bits_shape(s.last());
        let bits = hex_to_bits(s);
        assert forall|i: int| 0 <= i < s.len() implies bits.subrange(4 * i, 4 * i + 4) == #[trigger] digit_bits(s[i]) by {
            if i < s.len() - 1 {
                assert(init[i] == s[i]);
                assert(bits.subrange(4 * i, 4 * i + 4) =~= hex_to_bits(init).subrange(4 * i, 4 * i + 4));
            } else {
                assert(bits.subrange(4 * i, 4 * i + 4) =~= digit_bits(s.last()));
            }
        }
        assert forall|i: int| 0 <= i < bits.len() implies #[trigger] bits[i] == '0' || bits[i] == '1' by {
            if i < hex_to_bits(init).len() {
                assert(bits[i] == hex_to_bits(init)[i]);
            } else {
                assert(bits[i] == digit_bits(s.last())[i - hex_to_bits(init).len()]);
            }
        }
    }
}

/// Two strings of hexadecimal digits with the same binary digits have the
/// same length and the same digit values, position by position.
pub proof fn lemma_hex_to_bits_lossless(a: Seq<char>, b: Seq<char>)
    requires
        all_hex(a),
        all_hex(b),
        hex_to_bits(a) == hex_to_bits(b),
    ensures
        a.len() == b.len(),
        forall|i: int| 0 <= i < a.len() ==> hex_value(#[trigger] a[i]) == hex_value(b[i]),
{
    lemma_hex_to_bits_digits(a);
    lemma_hex_to_bits_digits(b);
    assert forall|i: int| 0 <= i < a.len() implies hex_value(#[trigger] a[i]) == hex_value(b[i]) by {
        assert(digit_bits(a[i]) == hex_to_bits(a).subrange(4 * i, 4 * i + 4));
        assert(digit_bits(b[i]) == hex_to_bits(b).subrange(4 * i, 4 * i + 4));
        lemma_digit_bits_lossless(a[i], b[i]);
    }
}

/// The binary digits of a single character.
fn to_binary(c: char) -> (r: &'static str)
    ensures
        r@ == digit_bits(c),
{
    match c {
        '0' => {
            proof {
                reveal_strlit("0000");
            }
            assert("0000"@ =~= digit_bits(c));
            "0000"
        },
        '1' => {
            proof {
                reveal_strlit("0001");
            }
            assert("0001"@ =~= digit_bits(c));
            "0001"
        },
        '2' => {
            proof {
                reveal_strlit("0010");
            }
            assert("0010"@ =~= digit_bits(c));
            "0010"
        },
        '3' => {
            proof {
                reveal_strlit("0011");
            }
            assert("0011"@ =~= digit_bits(c));
            "0011"
        },
        '4' => {
            proof {
                reveal_strlit("0100");
            }
            assert("0100"@ =~= digit_bits(c));
            "0100"
        },
        '5' => {
            proof {
                reveal_strlit("0101");
            }
            assert("0101"@ =~= digit_bits(c));
            "0101"
        },
        '6' => {
            proof {
                reveal_strlit("0110");
            }
            assert("0110"@ =~= digit_bits(c));
            "0110"
        },
        '7' => {
            proof {
                reveal_strlit("0111");
            }
            assert("0111"@ =~= digit_bits(c));
            "0111"
        },
        '8' => {
            proof {
                reveal_strlit("1000");
            }
            assert("1000"@ =~= digit_bits(c));
            "1000"
        },
        '9' => {
            proof {
                reveal_strlit("1001");
            }
            assert("1001"@ =~= digit_bits(c));
            "1001"
        },
        'A' => {
            proof {
                reveal_strlit("1010");
            }
            assert("1010"@ =~= digit_bits(c));
            "1010"
        },
        'B' => {
            proof {
                reveal_strlit("1011");
            }
            assert("1011"@ =~= digit_bits(c));
            "1011"
        },
        'C' => {
            proof {
                reveal_strlit("1100");
            }
            assert("1100"@ =~= digit_bits(c));
            "1100"
        },
        'D' => {
            proof {
                reveal_strlit("1101");
            }
            assert("1101"@ =~= digit_bits(c));
            "1101"
        },
        'E' => {
            proof {
                reveal_strlit("1110");
            }
            assert("1110"@ =~= digit_bits(c));
            "1110"
        },
        'F' => {
            proof {
                reveal_strlit("1111");
            }
            assert("1111"@ =~= digit_bits(c));
            "1111"
        },
        'a' => {
            proof {
                reveal_strlit("1010");
            }
            assert("1010"@ =~= digit_bits(c));
            "1010"
        },
        'b' => {
            proof {
                reveal_strlit("1011");
            }
            assert("1011"@ =~= digit_bits(c));
            "1011"
        },
        'c' => {
            proof {
                reveal_strlit("1100");
            }
            assert("1100"@ =~= digit_bits(c));
            "1100"
        },
        'd' => {
            proof {
                reveal_strlit("1101");
            }
            assert("1101"@ =~= digit_bits(c));
            "1101"
        },
        'e' => {
            proof {
                reveal_strlit("1110");
            }
            assert("1110"@ =~= digit_bits(c));
            "1110"
        },
        'f' => {
            proof {
                reveal_strlit("1111");
            }
            assert("1111"@ =~= digit_bits(c));
            "1111"
        },
        _ => {
            proof {
                reveal_strlit("");
            }
            assert(""@ =~= digit_bits(c));
            ""
        },
    }
}

/// Returns the binary representation of a hexadecimal string: four binary
/// digits for each hexadecimal digit, most significant first, in the order of
/// the digits. A character that is not a hexadecimal digit contributes nothing.
pub fn convert_to_binary_from_hex(hex: &str) -> (r: String)
    ensures
        r@ == hex_to_bits(hex@),
{
    let n = hex.unicode_len();
    let mut out = String::new();
    let mut i: usize = 0;
    while i < n
        invariant
            n == hex@.len(),
            i <= n,
            out@ == hex_to_bits(hex@.subrange(0, i as int)),
        decreases n - i,
    {
        let c = hex.get_char(i);
        out.append(to_binary(c));
        proof {
            let next = hex@.subrange(0, i + 1);
            assert(next.drop_last() =~= hex@.subrange(0, i as int));
        }
        i = i + 1;
    }
    assert(hex@.subrange(0, n as int) =~= hex@);
    out
}

} // verus!
