//! Conversion of numbers between arbitrary caller-supplied digit alphabets.
//!
//! A numeral base is given as an ordered string of distinct characters, where
//! the character at position `i` denotes digit value `i`. Values may be far
//! larger than any machine integer: an arbitrary-precision magnitude carries
//! them between the two alphabets.
//!
//! Running time is quadratic in the input length in the worst case: each of
//! the input's digits touches a limb sequence that grows with the digits
//! consumed so far, and rendering behaves symmetrically in the output
//! length. That is inherent to the algorithm, not a defect; very large
//! inputs (many thousands of digits) simply take correspondingly longer.

pub mod alphabet;
pub mod big_int;
pub mod codec;
pub mod converter;
pub mod errors;
pub mod laws;
pub mod limb_seq;
pub mod numeral;

pub use big_int::BigInt;
pub use codec::bigint_to_dst_table;
pub use codec::parse_to_bigint;
pub use converter::Converter;
pub use errors::ConvertError;
pub use errors::TableKind;
pub use errors::TableRule;

use crate::alphabet::valid_table;
use crate::codec::convert_result;
use vstd::prelude::*;

verus! {

/// Binary base character table (base 2).
pub const BIN: &'static str = "01";

/// Octal base character table (base 8).
pub const OCT: &'static str = "01234567";

/// Decimal base character table (base 10).
pub const DEC: &'static str = "0123456789";

/// Hexadecimal base character table (base 16).
pub const HEX: &'static str = "0123456789abcdef";

/// Stateless convenience entry point: validate the two alphabets, then
/// convert `input` from the source alphabet to the destination alphabet.
pub fn convert_base(input: &str, src_table: &str, dst_table: &str) -> (r: Result<
    String,
    ConvertError,
>)
    ensures
        src_table@.len() == 0 ==> r == Err::<String, ConvertError>(
            ConvertError::InvalidTable { table: TableKind::Source, rule: TableRule::Empty },
        ),
        src_table@.len() > 0 && !src_table@.no_duplicates() ==> r == Err::<String, ConvertError>(
            ConvertError::InvalidTable { table: TableKind::Source, rule: TableRule::Duplicate },
        ),
        valid_table(src_table@) && dst_table@.len() == 0 ==> r == Err::<String, ConvertError>(
            ConvertError::InvalidTable { table: TableKind::Destination, rule: TableRule::Empty },
        ),
        valid_table(src_table@) && dst_table@.len() > 0 && !dst_table@.no_duplicates() ==> r
            == Err::<String, ConvertError>(
            ConvertError::InvalidTable {
                table: TableKind::Destination,
                rule: TableRule::Duplicate,
            },
        ),
        valid_table(src_table@) && valid_table(dst_table@) ==> match r {
            Ok(out) => convert_result(src_table@, dst_table@, input@) == Ok::<
                Seq<char>,
                ConvertError,
            >(out@),
            Err(e) => convert_result(src_table@, dst_table@, input@) == Err::<
                Seq<char>,
                ConvertError,
            >(e),
        },
{
    match Converter::new(src_table, dst_table) {
        Ok(c) => c.convert(input),
        Err(e) => Err(e),
    }
}

} // verus!
