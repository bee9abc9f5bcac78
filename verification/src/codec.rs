//! The two passes of a conversion: parse a digit string into a magnitude,
//! and render a magnitude as a digit string.
use crate::alphabet::all_in_table;
use crate::alphabet::check_table;
use crate::alphabet::digit_of;
use crate::alphabet::find_digit;
use crate::alphabet::first_invalid;
use crate::alphabet::lemma_digit_of_contains;
use crate::alphabet::lemma_first_invalid_at;
use crate::alphabet::str_chars;
use crate::alphabet::string_from_chars;
use crate::alphabet::valid_table;
use crate::big_int::BigInt;
use crate::errors::ConvertError;
use crate::errors::TableKind;
use crate::errors::TableRule;
use crate::numeral::render_digits;
use crate::numeral::render_full;
use crate::numeral::value_of;
use vstd::arithmetic::div_mod::lemma_div_decreases;
use vstd::prelude::*;

verus! {

/// The outcome a conversion owes its caller once both tables are valid: the
/// first input character outside the source table is reported; a non-zero
/// value owed to a one-character destination cannot be written; everything
/// else renders.
pub open spec fn convert_result(src: Seq<char>, dst: Seq<char>, s: Seq<char>) -> Result<
    Seq<char>,
    ConvertError,
>
    recommends
        valid_table(src),
        valid_table(dst),
{
    if !all_in_table(src, s) {
        Err(
            ConvertError::InvalidDigit {
                ch: s[first_invalid(src, s)],
                pos: first_invalid(src, s) as usize,
            },
        )
    } else if dst.len() == 1 && value_of(src, s) != 0 {
        Err(ConvertError::NotRepresentable)
    } else {
        Ok(render_full(dst, value_of(src, s)))
    }
}

/// Parse: accumulate the input left to right by Horner's method over a
/// validated source table.
pub(crate) fn parse_chars(input: &Vec<char>, table: &Vec<char>) -> (r: Result<
    BigInt,
    ConvertError,
>)
    requires
        valid_table(table@),
    ensures
        all_in_table(table@, input@) ==> (r matches Ok(b) && b.wf() && b.value() == value_of(
            table@,
            input@,
        )),
        !all_in_table(table@, input@) ==> r == Err::<BigInt, ConvertError>(
            ConvertError::InvalidDigit {
                ch: input@[first_invalid(table@, input@)],
                pos: first_invalid(table@, input@) as usize,
            },
        ),
{
    let mut big = BigInt::zero();
    let base = table.len();
    let n = input.len();
    let mut i: usize = 0;
    proof {
        assert(input@.take(0) =~= Seq::<char>::empty());
        assert(value_of(table@, Seq::<char>::empty()) == 0);
    }
    while i < n
        invariant
            valid_table(table@),
            base == table@.len(),
            i <= n == input@.len(),
            big.wf(),
            big.value() == value_of(table@, input@.take(i as int)),
            forall|j: int| 0 <= j < i ==> table@.contains(input@[j]),
        decreases n - i,
    {
        let ch = input[i];
        match find_digit(table, ch) {
            Some(d) => {
                proof {
                    assert(table@.contains(ch));
                    lemma_digit_of_contains(table@, ch);
                    let dd = digit_of(table@, ch);
                    if d != dd {
                        assert(table@[d as int] == table@[dd]);
                        assert(false);
                    }
                }
                big.mul_small(base);
                big.add_small(d);
                i += 1;
                proof {
                    assert(input@.take(i as int).drop_last() =~= input@.take(i - 1));
                    assert(input@.take(i as int).last() == input@[i - 1]);
                }
            },
            None => {
                proof {
                    lemma_first_invalid_at(table@, input@, i as int);
                }
                return Err(ConvertError::InvalidDigit { ch, pos: i });
            },
        }
    }
    proof {
        assert(input@.take(n as int) =~= input@);
    }
    Ok(big)
}

/// Render: extract digits least significant first by repeated division,
/// then emit them in most-significant-first order.
pub(crate) fn render_chars(big: BigInt, table: &Vec<char>) -> (r: Result<Vec<char>, ConvertError>)
    requires
        big.wf(),
        table@.len() >= 1,
    ensures
        table@.len() >= 2 || big.value() == 0 ==> (r matches Ok(out) && out@ == render_full(
            table@,
            big.value(),
        )),
        table@.len() == 1 && big.value() != 0 ==> r == Err::<Vec<char>, ConvertError>(
            ConvertError::NotRepresentable,
        ),
{
    let mut big = big;
    if big.is_zero() {
        let mut out: Vec<char> = Vec::new();
        out.push(table[0]);
        proof {
            assert(out@ =~= seq![table@[0]]);
        }
        return Ok(out);
    }
    if table.len() == 1 {
        return Err(ConvertError::NotRepresentable);
    }
    let base = table.len();
    let ghost v0 = big.value();
    let mut rev_digits: Vec<char> = Vec::new();
    proof {
        assert(rev_digits@.reverse() =~= Seq::<char>::empty());
        assert(render_digits(table@, big.value()) + rev_digits@.reverse() =~= render_digits(
            table@,
            v0,
        ));
    }
    while !big.is_zero()
        invariant
            big.wf(),
            2 <= base == table@.len(),
            render_digits(table@, big.value()) + rev_digits@.reverse() == render_digits(
                table@,
                v0,
            ),
        decreases big.value(),
    {
        let ghost v = big.value();
        let ghost digits0 = rev_digits@;
        let rem = match big.div_mod_small(base) {
            Ok(rm) => rm,
            Err(e) => {
                return Err(e);
            },
        };
        rev_digits.push(table[rem]);
        proof {
            lemma_div_decreases(v as int, base as int);
            assert(render_digits(table@, v) == render_digits(table@, big.value()) + seq![
                table@[rem as int],
            ]);
            assert(rev_digits@.reverse() =~= seq![table@[rem as int]] + digits0.reverse());
            assert(render_digits(table@, big.value()) + rev_digits@.reverse() =~= render_digits(
                table@,
                v,
            ) + digits0.reverse());
        }
    }
    proof {
        assert(render_digits(table@, big.value()) =~= Seq::<char>::empty());
        assert(rev_digits@.reverse() =~= render_digits(table@, v0));
    }
    let m = rev_digits.len();
    let mut out: Vec<char> = Vec::new();
    let mut i: usize = m;
    while i > 0
        invariant
            i <= m == rev_digits@.len(),
            out@.len() == m - i,
            forall|j: int| 0 <= j < out@.len() ==> out@[j] == rev_digits@[m - 1 - j],
        decreases i,
    {
        i -= 1;
        out.push(rev_digits[i]);
    }
    proof {
        assert(out@ =~= rev_digits@.reverse());
    }
    Ok(out)
}

/// Parse a digit string over a source table into a magnitude, validating
/// the table first.
pub fn parse_to_bigint(input: &str, src_table: &str) -> (r: Result<BigInt, ConvertError>)
    ensures
        src_table@.len() == 0 ==> r == Err::<BigInt, ConvertError>(
            ConvertError::InvalidTable { table: TableKind::Source, rule: TableRule::Empty },
        ),
        src_table@.len() > 0 && !src_table@.no_duplicates() ==> r == Err::<BigInt, ConvertError>(
            ConvertError::InvalidTable { table: TableKind::Source, rule: TableRule::Duplicate },
        ),
        valid_table(src_table@) && all_in_table(src_table@, input@) ==> (r matches Ok(b)
            && b.wf() && b.value() == value_of(src_table@, input@)),
        valid_table(src_table@) && !all_in_table(src_table@, input@) ==> r == Err::<
            BigInt,
            ConvertError,
        >(
            ConvertError::InvalidDigit {
                ch: input@[first_invalid(src_table@, input@)],
                pos: first_invalid(src_table@, input@) as usize,
            },
        ),
{
    let table = str_chars(src_table);
    match check_table(&table) {
        Some(rule) => Err(ConvertError::InvalidTable { table: TableKind::Source, rule }),
        None => {
            let chars = str_chars(input);
            parse_chars(&chars, &table)
        },
    }
}

/// Render a magnitude over a destination table, rejecting an empty table
/// and a non-zero value that a one-character table cannot write.
pub fn bigint_to_dst_table(big: BigInt, dst_table: &str) -> (r: Result<String, ConvertError>)
    requires
        big.wf(),
    ensures
        dst_table@.len() == 0 ==> r == Err::<String, ConvertError>(
            ConvertError::InvalidTable { table: TableKind::Destination, rule: TableRule::Empty },
        ),
        dst_table@.len() == 1 && big.value() != 0 ==> r == Err::<String, ConvertError>(
            ConvertError::NotRepresentable,
        ),
        dst_table@.len() >= 2 || (dst_table@.len() == 1 && big.value() == 0) ==> (r matches Ok(
        out) && out@ == render_full(dst_table@, big.value())),
{
    let table = str_chars(dst_table);
    if table.len() == 0 {
        return Err(
            ConvertError::InvalidTable { table: TableKind::Destination, rule: TableRule::Empty },
        );
    }
    match render_chars(big, &table) {
        Ok(out) => Ok(string_from_chars(&out)),
        Err(e) => Err(e),
    }
}

} // verus!
