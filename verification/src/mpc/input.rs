//! Conversion of input lines to field elements.
use crate::field;
use crate::field::LargeField;
use vstd::prelude::*;
use vstd::string::*;

verus! {

/// Why input lines were rejected.
#[derive(Debug, Clone, Copy, PartialEq, Eq, Structural)]
pub enum InputError {
    /// This line, counted from one, is too long.
    Unrepresentable { line: usize },
    /// There are fewer lines than were asked for.
    Insufficient,
}

/// The bytes of a text.
pub open spec fn text_bytes(text: Seq<char>) -> Seq<u8> {
    vstd::utf8::encode_utf8(text)
}

/// Converts a line of text: its bytes are read as one big-endian integer.
/// Lines of more than 32 bytes are rejected.
pub fn convert_string_to_large_field(input: &str) -> (r: Option<LargeField>)
    ensures
        r is Some <==> text_bytes(input@).len() <= 32,
        r is Some <==> vstd::utf8::encode_utf8(input@).len() <= 32,
        r matches Some(x) ==> x@ == field::be_value(text_bytes(input@)) % field::p(),
{
    let bytes = input.as_bytes();
    if bytes.len() > 32 {
        return None;
    }
    let n: usize = bytes.len();
    let mut padded: Vec<u8> = Vec::new();
    let ghost zeros = Seq::new((32 - n) as nat, |i: int| 0u8);
    for i in 0..32 - n
        invariant
            n <= 32,
            padded@ == Seq::new(i as nat, |i: int| 0u8),
    {
        padded.push(0);
        assert(padded@ =~= Seq::new((i + 1) as nat, |i: int| 0u8));
    }
    padded.extend_from_slice(bytes);
    proof {
        assert(padded@ =~= zeros + bytes@);
        field::lemma_be_value_leading_zeros((32 - n) as nat, bytes@);
    }
    Some(LargeField::from_be_digits(padded.as_slice()))
}

/// Whether line `i` can be converted.
pub open spec fn line_fits(lines: Seq<String>, i: int) -> bool {
    text_bytes(lines[i]@).len() <= 32
}

/// The elements of the first `k` lines. The first line that is too long is
/// reported; if all given lines fit, too few of them are reported.
pub fn read_input_lines(lines: &Vec<String>, k: usize) -> (r: Result<Vec<LargeField>, InputError>)
    ensures
        r is Ok <==> k <= lines@.len() && forall|i: int|
            0 <= i < k ==> #[trigger] line_fits(lines@, i),
        r matches Ok(v) ==> v@.len() == k && forall|i: int|
            0 <= i < k ==> (#[trigger] v@[i])@ == field::be_value(
                text_bytes(lines@[i]@),
            ) % field::p(),
        r matches Err(InputError::Unrepresentable { line }) ==> {
            &&& 1 <= line <= lines@.len()
            &&& line <= k
            &&& !line_fits(lines@, line - 1)
            &&& forall|i: int| 0 <= i < line - 1 ==> #[trigger] line_fits(lines@, i)
        },
        r is Ok ==> forall|i: int|
            0 <= i < k ==> vstd::utf8::encode_utf8((#[trigger] lines@[i])@).len() <= 32,
        r matches Err(InputError::Unrepresentable { line }) ==> vstd::utf8::encode_utf8(
            lines@[line - 1]@,
        ).len() > 32,
        r matches Err(InputError::Insufficient) ==> lines@.len() < k && forall|i: int|
            0 <= i < lines@.len() ==> #[trigger] line_fits(lines@, i),
{
    let mut out: Vec<LargeField> = Vec::new();
    let n: usize = if lines.len() <= k {
        lines.len()
    } else {
        k
    };
    for i in 0..n
        invariant
            n <= lines@.len(),
            n <= k,
            out@.len() == i,
            forall|j: int| 0 <= j < i ==> #[trigger] line_fits(lines@, j),
            forall|j: int|
                0 <= j < i ==> (#[trigger] out@[j])@ == field::be_value(
                    text_bytes(lines@[j]@),
                ) % field::p(),
    {
        match convert_string_to_large_field(lines[i].as_str()) {
            Some(x) => {
                assert(line_fits(lines@, i as int));
                out.push(x);
            },
            None => {
                assert(!line_fits(lines@, i as int));
                return Err(InputError::Unrepresentable { line: i + 1 });
            },
        }
    }
    if n < k {
        return Err(InputError::Insufficient);
    }
    proof {
        assert forall|i: int| 0 <= i < k implies vstd::utf8::encode_utf8(
            (#[trigger] lines@[i])@,
        ).len() <= 32 by {
            assert(line_fits(lines@, i));
        }
    }
    Ok(out)
}

} // verus!
