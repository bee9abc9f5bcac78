//! The library's general laws, stated over the same spec functions the
//! executable contracts use and proved once and for all.
use crate::alphabet::all_in_table;
use crate::alphabet::valid_table;
use crate::codec::convert_result;
use crate::errors::ConvertError;
use crate::numeral::lemma_render_strips_zeros;
use crate::numeral::lemma_render_value_of;
use crate::numeral::lemma_value_of_all_zeros;
use crate::numeral::lemma_value_of_render;
use crate::numeral::lemma_value_of_unary;
use crate::numeral::render_full;
use crate::numeral::strip_leading_zeros;
use crate::numeral::value_of;
use vstd::prelude::*;

verus! {

/// Round trip: a string over alphabet `a` that does not begin with a zero
/// digit (or is the zero digit alone) converts to alphabet `b` and back to
/// exactly itself.
///
/// A one-character destination is excluded unless the value is zero: every
/// string over such an alphabet denotes zero, so no rendering of a non-zero
/// value exists to come back from.
pub proof fn lemma_round_trip(a: Seq<char>, b: Seq<char>, s: Seq<char>)
    requires
        valid_table(a),
        valid_table(b),
        all_in_table(a, s),
        s.len() >= 1,
        s.len() > 1 ==> s[0] != a[0],
        b.len() >= 2 || value_of(a, s) == 0,
    ensures
        convert_result(a, b, s) matches Ok(mid) && convert_result(b, a, mid) == Ok::<
            Seq<char>,
            ConvertError,
        >(s),
{
    let v = value_of(a, s);
    if s[0] == a[0] && s.len() == 1 {
        assert(forall|i: int| 0 <= i < s.len() ==> s[i] == a[0]);
        lemma_value_of_all_zeros(a, s);
    } else {
        assert(s[0] != a[0]);
        lemma_render_value_of(a, s);
    }
    let mid = render_full(b, v);
    assert(convert_result(a, b, s) == Ok::<Seq<char>, ConvertError>(mid));
    if v == 0 {
        assert(mid =~= seq![b[0]]);
        assert(forall|i: int| 0 <= i < mid.len() ==> mid[i] == b[0]);
        assert(all_in_table(b, mid)) by {
            assert(b.contains(b[0]));
        }
        lemma_value_of_all_zeros(b, mid);
        assert(s[0] == a[0]) by {
            if s[0] != a[0] {
                lemma_render_value_of(a, s);
            }
        }
        assert(s =~= seq![a[0]]);
        assert(render_full(a, 0) == seq![a[0]]);
    } else {
        lemma_value_of_render(b, v);
        assert(value_of(b, mid) == v);
        if a.len() == 1 {
            lemma_value_of_unary(a, s);
        }
        assert(render_full(a, v) == s);
    }
    assert(convert_result(b, a, mid) == Ok::<Seq<char>, ConvertError>(s));
}

/// Zero canonicalization: a string of one or more zero digits of `a`
/// converts to exactly the single zero digit of `b`, whatever its length.
pub proof fn lemma_zero_canonicalization(a: Seq<char>, b: Seq<char>, s: Seq<char>)
    requires
        valid_table(a),
        valid_table(b),
        s.len() >= 1,
        forall|i: int| 0 <= i < s.len() ==> s[i] == a[0],
    ensures
        convert_result(a, b, s) == Ok::<Seq<char>, ConvertError>(seq![b[0]]),
{
    assert(all_in_table(a, s)) by {
        assert(a.contains(a[0]));
    }
    lemma_value_of_all_zeros(a, s);
}

/// Self-conversion strips leading zero digits and preserves the rest, or
/// yields the single zero digit when nothing else remains.
pub proof fn lemma_self_conversion_strips(t: Seq<char>, s: Seq<char>)
    requires
        valid_table(t),
        all_in_table(t, s),
    ensures
        convert_result(t, t, s) == Ok::<Seq<char>, ConvertError>(strip_leading_zeros(t, s)),
{
    lemma_render_strips_zeros(t, s);
    if t.len() == 1 {
        lemma_value_of_unary(t, s);
    }
}

} // verus!
