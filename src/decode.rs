//! Decoding one trace line into an operation code, a tag and a set index.
use vstd::prelude::*;

use crate::hex::{convert_to_binary_from_hex, hex_to_bits, is_hex_digit};

verus! {

/// An operation code of a data access: load, modify or store.
pub open spec fn is_code(c: char) -> bool {
    c == 'L' || c == 'M' || c == 'S'
}

pub open spec fn is_decimal_digit(c: char) -> bool {
    '0' <= c && c <= '9'
}

/// `line` is a data access ` C ADDR,SIZE` whose comma stands at `k`: a space,
/// a code, a space, one or more hexadecimal digits, a comma and one or more
/// decimal digits.
pub open spec fn data_line_split(line: Seq<char>, k: int) -> bool {
    &&& 4 <= k < line.len() - 1
    &&& line[0] == ' '
    &&& is_code(line[1])
    &&& line[2] == ' '
    &&& forall|i: int| 3 <= i < k ==> #[trigger] is_hex_digit(line[i])
    &&& line[k] == ','
    &&& forall|i: int| k < i < line.len() ==> #[trigger] is_decimal_digit(line[i])
}

/// `line` is a well-formed data access.
pub open spec fn is_data_line(line: Seq<char>) -> bool {
    exists|k: int| data_line_split(line, k)
}

/// The address of a data access: the digits between the code and the comma.
pub open spec fn address_field(line: Seq<char>) -> Seq<char> {
    line.subrange(3, choose|k: int| data_line_split(line, k))
}

/// `line` records an instruction fetch.
pub open spec fn is_fetch_line(line: Seq<char>) -> bool {
    line.len() > 0 && line[0] == 'I'
}

/// Why a trace line cannot be decoded.
#[derive(Debug, Clone, Copy, PartialEq, Eq, Structural)]
pub enum LineError {
    /// The line is neither an instruction fetch nor a data access.
    MalformedLine,
    /// The address has no bits left for a tag once `b` offset bits and `s`
    /// set-index bits are taken from its `address_bits` bits.
    AddressTooShort { s: i32, b: i32, address_bits: usize },
}

/// The decoded line: an instruction fetch gives three empty strings (nothing
/// to access); a data access gives its code, its tag (the leading
/// `total - b - s` bits of its address) and its set index (the `s` bits after
/// them), where `total` is the address's number of bits.
pub open spec fn decode(line: Seq<char>, s: i32, b: i32) -> Result<(Seq<char>, Seq<char>, Seq<char>), LineError> {
    if is_fetch_line(line) {
        Ok((Seq::empty(), Seq::empty(), Seq::empty()))
    } else if !is_data_line(line) {
        Err(LineError::MalformedLine)
    } else {
        let bits = hex_to_bits(address_field(line));
        let n = bits.len() as int;
        if b + s > n || b == n {
            Err(LineError::AddressTooShort { s, b, address_bits: n as usize })
        } else {
            Ok((seq![line[1]], bits.subrange(0, n - b - s), bits.subrange(n - b - s, n - b)))
        }
    }
}

/// A decoded data access partitions its address: the tag, the set index and
/// the `b` offset bits together are all of its bits, and the tag followed by
/// the set index is the address without its offset bits.
pub proof fn lemma_decode_partitions_address(line: Seq<char>, s: i32, b: i32)
    requires
        s >= 1,
        b >= 1,
        decode(line, s, b) is Ok,
        !is_fetch_line(line),
    ensures
        ({
            let (code, tag, set_index) = decode(line, s, b)->Ok_0;
            let bits = hex_to_bits(address_field(line));
            &&& tag.len() + set_index.len() + b == bits.len()
            &&& tag + set_index == bits.subrange(0, bits.len() - b)
        }),
{
    let bits = hex_to_bits(address_field(line));
    let n = bits.len() as int;
    assert(bits.subrange(0, n - b - s) + bits.subrange(n - b - s, n - b) =~= bits.subrange(0, n - b));
}

/// An address whose bits are all taken by the offset (`b` equal to its
/// length), or too few for the offset and the set index together, is
/// rejected as too short rather than cut.
pub proof fn lemma_short_address_rejected(line: Seq<char>, s: i32, b: i32)
    requires
        !is_fetch_line(line),
        is_data_line(line),
        b == hex_to_bits(address_field(line)).len() || b + s > hex_to_bits(address_field(line)).len(),
    ensures
        decode(line, s, b) == Err::<(Seq<char>, Seq<char>, Seq<char>), LineError>(
            LineError::AddressTooShort { s, b, address_bits: hex_to_bits(address_field(line)).len() as usize },
        ),
{
}

proof fn lemma_comma_unique(line: Seq<char>, j: int, k: int)
    requires
        data_line_split(line, j),
        data_line_split(line, k),
    ensures
        j == k,
{
    if j < k {
        assert(is_hex_digit(line[j]));
    } else if k < j {
        assert(is_hex_digit(line[k]));
    }
}

/// Relies on regex::Regex::new and Regex::captures: the pattern
/// `^ ([LMS]) ([0-9a-fA-F]+),[0-9]+$` matches a whole line exactly when it is
/// a data access, with the code in its first group and the address in its
/// second.
#[verifier::external_body]
fn match_data_line(line: &str) -> (r: Option<(String, String)>)
    ensures
        r.is_some() == is_data_line(line@),
        r matches Some((code, address)) ==> {
            &&& code@ == seq![line@[1]]
            &&& data_line_split(line@, 3 + address@.len() as int)
            &&& address@ == line@.subrange(3, 3 + address@.len() as int)
        },
{
    let re = regex::Regex::new(r"^ ([LMS]) ([0-9a-fA-F]+),[0-9]+$").unwrap();
    re.captures(line).map(|c| (c[1].to_string(), c[2].to_string()))
}

/// Returns the code, tag and set index of a trace line, for `s` set-index bits
/// and `b` block-offset bits; for an instruction fetch, three empty strings.
pub fn preprocess_line(line: &String, s: &i32, b: &i32) -> (r: Result<(String, String, String), LineError>)
    requires
        *s >= 1,
        *b >= 1,
    ensures
        match r {
            Ok((code, tag, set_index)) => decode(line@, *s, *b) == Ok::<_, LineError>((code@, tag@, set_index@)),
            Err(err) => decode(line@, *s, *b) == Err::<(Seq<char>, Seq<char>, Seq<char>), _>(err),
        },
{
    let text = line.as_str();
    let len = text.unicode_len();
    if len > 0 && text.get_char(0) == 'I' {
        return Ok((String::new(), String::new(), String::new()));
    }
    match match_data_line(text) {
        None => Err(LineError::MalformedLine),
        Some((code, address)) => {
            proof {
                let k = choose|k: int| data_line_split(line@, k);
                lemma_comma_unique(line@, k, 3 + address@.len() as int);
                assert(address@ == address_field(line@));
            }
            let bits = convert_to_binary_from_hex(address.as_str());
            let total = bits.as_str().unicode_len();
            let bu = *b as usize;
            let su = *s as usize;
            if bu > total || su > total - bu || bu == total {
                return Err(LineError::AddressTooShort { s: *s, b: *b, address_bits: total });
            }
            let tag_end = total - bu - su;
            let set_end = total - bu;
            let tag = bits.as_str().substring_char(0, tag_end).to_owned();
            let set_index = bits.as_str().substring_char(tag_end, set_end).to_owned();
            proof {
                assert(tag@ + set_index@ =~= bits@.subrange(0, set_end as int));
            }
            Ok((code, tag, set_index))
        },
    }
}

} // verus!
