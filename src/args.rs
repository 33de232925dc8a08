use vstd::prelude::*;
use crate::CliMode;

verus! {

/// What the command line asks for.
pub struct Args {
    pub prefix: u32,
    pub number_of_sentences: u32,
    pub mode: CliMode,
    pub books_path: String,
}

/// The value of the decimal digits `s`.
pub open spec fn digits_value(s: Seq<char>) -> nat
    decreases s.len(),
{
    if s.len() == 0 {
        0
    } else {
        (digits_value(s.drop_last()) * 10 + (s.last() as int - '0' as int)) as nat
    }
}

/// Whether `s` is an optional `+` followed by one or more decimal digits whose
/// value fits in a `u32`.
pub open spec fn is_u32_text(s: Seq<char>) -> bool {
    let digits = if s.len() > 0 && s[0] == '+' {
        s.drop_first()
    } else {
        s
    };
    &&& digits.len() > 0
    &&& forall|i: int| 0 <= i < digits.len() ==> '0' <= #[trigger] digits[i] <= '9'
    &&& digits_value(digits) <= u32::MAX
}

/// Relies on `str::parse::<u32>`: it accepts an optional `+` followed by decimal
/// digits whose value fits in a `u32`, and nothing else.
#[verifier::external_body]
fn parse_u32(s: &str) -> (r: Option<u32>)
    ensures
        r is Some <==> is_u32_text(s@),
{
    s.parse::<u32>().ok()
}

/// Accepts a command-line value that is a natural number that fits in a `u32`.
pub fn is_natural_number(v: String) -> (r: Result<(), String>)
    ensures
        r is Ok <==> is_u32_text(v@),
{
    match parse_u32(v.as_str()) {
        Some(_) => Ok(()),
        None => Err(String::from_str("Should be a natural number")),
    }
}

} // verus!
