//! A converter holding one validated source and one validated destination
//! alphabet, immutable after construction.
use crate::alphabet::check_table;
use crate::alphabet::str_chars;
use crate::alphabet::string_from_chars;
use crate::alphabet::valid_table;
use crate::codec::convert_result;
use crate::codec::parse_chars;
use crate::codec::render_chars;
use crate::errors::ConvertError;
use crate::errors::TableKind;
use crate::errors::TableRule;
use vstd::prelude::*;

verus! {

/// Converts digit strings from a source alphabet to a destination alphabet.
///
/// Construction validates both alphabets eagerly, so an instance is either
/// fully valid or never observable; it holds no other state, and `convert`
/// mutates nothing, so one instance serves any number of conversions.
pub struct Converter {
    src_table: String,
    dst_table: String,
    src_chars: Vec<char>,
    dst_chars: Vec<char>,
}

impl Converter {
    /// The source alphabet, as the characters it was built from.
    pub closed spec fn src(&self) -> Seq<char> {
        self.src_chars@
    }

    /// The destination alphabet, as the characters it was built from.
    pub closed spec fn dst(&self) -> Seq<char> {
        self.dst_chars@
    }

    #[verifier::type_invariant]
    closed spec fn valid(&self) -> bool {
        &&& valid_table(self.src_chars@)
        &&& valid_table(self.dst_chars@)
        &&& self.src_table@ == self.src_chars@
        &&& self.dst_table@ == self.dst_chars@
    }

    /// Build a converter from the two alphabets, validating each eagerly:
    /// the source table is checked first, emptiness before duplicates.
    pub fn new(src_table: &str, dst_table: &str) -> (r: Result<Converter, ConvertError>)
        ensures
            src_table@.len() == 0 ==> r == Err::<Converter, ConvertError>(
                ConvertError::InvalidTable { table: TableKind::Source, rule: TableRule::Empty },
            ),
            src_table@.len() > 0 && !src_table@.no_duplicates() ==> r == Err::<
                Converter,
                ConvertError,
            >(
                ConvertError::InvalidTable {
                    table: TableKind::Source,
                    rule: TableRule::Duplicate,
                },
            ),
            valid_table(src_table@) && dst_table@.len() == 0 ==> r == Err::<
                Converter,
                ConvertError,
            >(
                ConvertError::InvalidTable {
                    table: TableKind::Destination,
                    rule: TableRule::Empty,
                },
            ),
            valid_table(src_table@) && dst_table@.len() > 0 && !dst_table@.no_duplicates() ==> r
                == Err::<Converter, ConvertError>(
                ConvertError::InvalidTable {
                    table: TableKind::Destination,
                    rule: TableRule::Duplicate,
                },
            ),
            valid_table(src_table@) && valid_table(dst_table@) ==> (r matches Ok(c) && c.src()
                == src_table@ && c.dst() == dst_table@),
    {
        let src_chars = str_chars(src_table);
        if let Some(rule) = check_table(&src_chars) {
            return Err(ConvertError::InvalidTable { table: TableKind::Source, rule });
        }
        let dst_chars = str_chars(dst_table);
        if let Some(rule) = check_table(&dst_chars) {
            return Err(ConvertError::InvalidTable { table: TableKind::Destination, rule });
        }
        Ok(
            Converter {
                src_table: src_table.to_owned(),
                dst_table: dst_table.to_owned(),
                src_chars,
                dst_chars,
            },
        )
    }

    /// A fresh, independently validated converter with the two alphabets
    /// swapped; the receiver is left untouched.
    pub fn inverse(&self) -> (r: Result<Converter, ConvertError>)
        ensures
            r matches Ok(c) && c.src() == self.dst() && c.dst() == self.src(),
    {
        proof {
            use_type_invariant(&*self);
        }
        Converter::new(self.dst_table.as_str(), self.src_table.as_str())
    }

    /// Convert `input` from the source alphabet to the destination alphabet.
    pub fn convert(&self, input: &str) -> (r: Result<String, ConvertError>)
        ensures
            match r {
                Ok(out) => convert_result(self.src(), self.dst(), input@) == Ok::<
                    Seq<char>,
                    ConvertError,
                >(out@),
                Err(e) => convert_result(self.src(), self.dst(), input@) == Err::<
                    Seq<char>,
                    ConvertError,
                >(e),
            },
    {
        proof {
            use_type_invariant(&*self);
        }
        let chars = str_chars(input);
        match parse_chars(&chars, &self.src_chars) {
            Ok(big) => match render_chars(big, &self.dst_chars) {
                Ok(out) => Ok(string_from_chars(&out)),
                Err(e) => Err(e),
            },
            Err(e) => Err(e),
        }
    }

    /// The source character table.
    pub fn src_table(&self) -> (r: &str)
        ensures
            r@ == self.src(),
    {
        proof {
            use_type_invariant(&*self);
        }
        self.src_table.as_str()
    }

    /// The destination character table.
    pub fn dst_table(&self) -> (r: &str)
        ensures
            r@ == self.dst(),
    {
        proof {
            use_type_invariant(&*self);
        }
        self.dst_table.as_str()
    }

    /// The size of the source base: the source table's character count.
    pub fn src_base(&self) -> (r: usize)
        ensures
            r == self.src().len(),
    {
        self.src_chars.len()
    }

    /// The size of the destination base: the destination table's character
    /// count.
    pub fn dst_base(&self) -> (r: usize)
        ensures
            r == self.dst().len(),
    {
        self.dst_chars.len()
    }
}

} // verus!
