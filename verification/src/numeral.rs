//! Positional notation over a digit alphabet.
//!
//! `value_of` reads a digit string as a number (Horner's method, most
//! significant digit first); `render_digits` writes a non-zero number as the
//! digit string repeated division produces; `render_full` adds the one
//! convention on top: the value zero is a single zero digit. The lemmas here
//! show that the two directions invert each other.
use crate::alphabet::all_in_table;
use crate::alphabet::digit_of;
use crate::alphabet::lemma_digit_of_contains;
use crate::alphabet::lemma_digit_of_index;
use crate::alphabet::valid_table;
use vstd::arithmetic::div_mod::lemma_div_decreases;
use vstd::arithmetic::div_mod::lemma_fundamental_div_mod;
use vstd::arithmetic::div_mod::lemma_fundamental_div_mod_converse;
use vstd::arithmetic::div_mod::lemma_small_mod;
use vstd::prelude::*;

verus! {

/// The value a digit string denotes over a table: Horner's accumulation,
/// most significant digit first. Meaningful when every character of `s` is
/// in the table.
pub open spec fn value_of(table: Seq<char>, s: Seq<char>) -> nat
    decreases s.len(),
{
    if s.len() == 0 {
        0
    } else {
        (value_of(table, s.drop_last()) * table.len() + digit_of(table, s.last())) as nat
    }
}

/// The digit string of `v` over a table, least significant digit extracted
/// first by repeated division and appended at the end; empty exactly for
/// zero. A one-character table writes no digits: every string over it
/// denotes zero, so only zero has a rendering.
pub open spec fn render_digits(table: Seq<char>, v: nat) -> Seq<char>
    decreases v,
    via render_digits_decreases
{
    if v == 0 || table.len() < 2 {
        Seq::empty()
    } else {
        render_digits(table, v / table.len()) + seq![table[(v % table.len()) as int]]
    }
}

#[via_fn]
proof fn render_digits_decreases(table: Seq<char>, v: nat) {
    if !(v == 0 || table.len() < 2) {
        lemma_div_decreases(v as int, table.len() as int);
    }
}

/// What a conversion renders for value `v`: exactly one zero digit for the
/// value zero, else the digits of `v` most significant first, with no
/// leading zero digit.
pub open spec fn render_full(table: Seq<char>, v: nat) -> Seq<char> {
    if v == 0 {
        seq![table[0]]
    } else {
        render_digits(table, v)
    }
}

/// How many zero-digit characters `s` begins with.
pub open spec fn leading_zeros(table: Seq<char>, s: Seq<char>) -> int
    decreases s.len(),
{
    if s.len() == 0 {
        0
    } else if s[0] != table[0] {
        0
    } else {
        1 + leading_zeros(table, s.drop_first())
    }
}

/// `s` with its leading zero-digit characters removed, or the zero digit
/// alone when nothing else remains.
pub open spec fn strip_leading_zeros(table: Seq<char>, s: Seq<char>) -> Seq<char> {
    if leading_zeros(table, s) == s.len() {
        seq![table[0]]
    } else {
        s.skip(leading_zeros(table, s))
    }
}

/// Every digit of a rendering comes from the table, and reading the
/// rendering back yields the value it was rendered from.
pub proof fn lemma_value_of_render(table: Seq<char>, v: nat)
    requires
        valid_table(table),
        table.len() >= 2 || v == 0,
    ensures
        all_in_table(table, render_digits(table, v)),
        value_of(table, render_digits(table, v)) == v,
    decreases v,
{
    let b = table.len() as int;
    if v == 0 {
        assert(render_digits(table, v) =~= Seq::<char>::empty());
    } else {
        lemma_div_decreases(v as int, b);
        lemma_value_of_render(table, v / (b as nat));
        let rd = render_digits(table, v);
        let q = render_digits(table, v / (b as nat));
        let d = (v % (b as nat)) as int;
        assert(0 <= d < b) by {
            lemma_fundamental_div_mod(v as int, b);
        }
        assert(rd == q + seq![table[d]]);
        assert(rd.drop_last() =~= q);
        assert(rd.last() == table[d]);
        assert forall|i: int| 0 <= i < rd.len() implies table.contains(rd[i]) by {
            if i < q.len() {
                assert(table.contains(q[i]));
            } else {
                assert(rd[i] == table[d]);
                assert(table.contains(table[d]));
            }
        }
        lemma_digit_of_index(table, d);
        assert(digit_of(table, rd.last()) == d);
        let q_val = value_of(table, q) as int;
        assert(value_of(table, rd) == (q_val * b + d) as nat);
        lemma_fundamental_div_mod(v as int, b);
        assert(v == b * (v as int / b) + v as int % b);
        assert(q_val == v as int / b);
        assert(q_val * b == b * q_val) by (nonlinear_arith);
        assert(value_of(table, rd) == v);
    }
}

/// Reading a digit string and rendering the result reproduces the string,
/// provided it does not begin with a zero digit.
pub proof fn lemma_render_value_of(table: Seq<char>, s: Seq<char>)
    requires
        valid_table(table),
        all_in_table(table, s),
        s.len() >= 1,
        s[0] != table[0],
    ensures
        value_of(table, s) != 0,
        render_digits(table, value_of(table, s)) == s,
    decreases s.len(),
{
    let b = table.len() as int;
    assert(table.contains(s[0]));
    lemma_digit_of_contains(table, s[0]);
    lemma_digit_of_index(table, 0);
    assert(digit_of(table, s[0]) != 0);
    assert(b >= 2);
    assert(table.contains(s.last()));
    lemma_digit_of_contains(table, s.last());
    let dl = digit_of(table, s.last());
    if s.len() == 1 {
        let v = value_of(table, s);
        assert(s.drop_last() =~= Seq::<char>::empty());
        assert(value_of(table, Seq::<char>::empty()) == 0);
        assert(value_of(table, s.drop_last()) == 0);
        assert(s.last() == s[0]);
        assert(v == (0 * table.len() + dl) as nat);
        assert(v == dl);
        assert(1 <= v < b);
        assert(v as int / b == 0) by {
            lemma_fundamental_div_mod_converse(v as int, b, 0, v as int);
        }
        lemma_small_mod(v, b as nat);
        assert(render_digits(table, (v as int / b) as nat) =~= Seq::<char>::empty());
        assert(render_digits(table, v) =~= seq![table[dl]]);
        assert(seq![table[dl]] =~= s);
    } else {
        let d = s.drop_last();
        assert(d[0] == s[0]);
        assert(all_in_table(table, d)) by {
            assert(forall|i: int| 0 <= i < d.len() ==> d[i] == s[i] && table.contains(s[i]));
        }
        lemma_render_value_of(table, d);
        let vd = value_of(table, d) as int;
        let v = value_of(table, s);
        assert(v == vd * b + dl);
        assert(v > 0) by (nonlinear_arith)
            requires
                vd >= 1,
                b >= 2,
                dl >= 0,
                v == vd * b + dl,
        ;
        lemma_fundamental_div_mod_converse(v as int, b, vd, dl);
        assert(render_digits(table, v) == render_digits(table, vd as nat) + seq![table[dl]]);
        assert(render_digits(table, v) =~= d + seq![table[dl]]);
        assert(d + seq![table[dl]] =~= s);
    }
}

/// A leading zero digit does not change the value a string denotes.
pub proof fn lemma_value_of_leading_zero(table: Seq<char>, s: Seq<char>)
    requires
        valid_table(table),
        s.len() >= 1,
        s[0] == table[0],
    ensures
        value_of(table, s) == value_of(table, s.drop_first()),
    decreases s.len(),
{
    lemma_digit_of_index(table, 0);
    assert(digit_of(table, table[0]) == 0);
    if s.len() == 1 {
        assert(s.drop_last() =~= Seq::<char>::empty());
        assert(value_of(table, Seq::<char>::empty()) == 0);
        assert(value_of(table, s.drop_last()) == 0);
        assert(s.last() == s[0]);
        assert(digit_of(table, s.last()) == 0);
        assert(value_of(table, s) == (0 * table.len() + 0) as nat);
        assert(s.drop_first() =~= Seq::<char>::empty());
    } else {
        let d = s.drop_last();
        assert(d[0] == s[0]);
        lemma_value_of_leading_zero(table, d);
        assert(s.drop_first().drop_last() =~= d.drop_first());
        assert(s.drop_first().last() == s.last());
        assert(s.drop_first().len() == s.len() - 1 >= 1);
    }
}

/// Dropping all leading zero digits does not change the value.
pub proof fn lemma_value_of_skip_zeros(table: Seq<char>, s: Seq<char>)
    requires
        valid_table(table),
    ensures
        0 <= leading_zeros(table, s) <= s.len(),
        value_of(table, s) == value_of(table, s.skip(leading_zeros(table, s))),
    decreases s.len(),
{
    if s.len() == 0 {
        assert(s.skip(0) =~= s);
    } else if s[0] != table[0] {
        assert(s.skip(0) =~= s);
    } else {
        lemma_value_of_leading_zero(table, s);
        lemma_value_of_skip_zeros(table, s.drop_first());
        let k = leading_zeros(table, s.drop_first());
        assert(s.skip(1 + k) =~= s.drop_first().skip(k));
    }
}

/// A string consisting only of zero digits denotes zero.
pub proof fn lemma_value_of_all_zeros(table: Seq<char>, s: Seq<char>)
    requires
        valid_table(table),
        forall|i: int| 0 <= i < s.len() ==> s[i] == table[0],
    ensures
        value_of(table, s) == 0,
    decreases s.len(),
{
    lemma_digit_of_index(table, 0);
    if s.len() == 0 {
    } else {
        let d = s.drop_last();
        assert(forall|i: int| 0 <= i < d.len() ==> d[i] == s[i]);
        lemma_value_of_all_zeros(table, d);
        assert(s.last() == table[0]);
        assert(digit_of(table, s.last()) == 0);
        assert(value_of(table, s) == (value_of(table, d) * table.len() + digit_of(
            table,
            s.last(),
        )) as nat);
        assert(value_of(table, s) == (0 * table.len() + 0) as nat);
    }
}

/// Over a one-character table every string denotes zero.
pub proof fn lemma_value_of_unary(table: Seq<char>, s: Seq<char>)
    requires
        valid_table(table),
        table.len() == 1,
        all_in_table(table, s),
    ensures
        value_of(table, s) == 0,
{
    assert forall|i: int| 0 <= i < s.len() implies s[i] == table[0] by {
        assert(table.contains(s[i]));
        let j = choose|j: int| 0 <= j < table.len() && table[j] == s[i];
        assert(j == 0);
    }
    lemma_value_of_all_zeros(table, s);
}

/// Rendering the value a string denotes yields the string with its leading
/// zero digits stripped (or the zero digit alone, for the value zero).
pub proof fn lemma_render_strips_zeros(table: Seq<char>, s: Seq<char>)
    requires
        valid_table(table),
        all_in_table(table, s),
    ensures
        render_full(table, value_of(table, s)) == strip_leading_zeros(table, s),
{
    lemma_value_of_skip_zeros(table, s);
    let k = leading_zeros(table, s);
    let t = s.skip(k);
    if k == s.len() {
        assert(t =~= Seq::<char>::empty());
        assert(value_of(table, s) == 0);
    } else {
        assert(t.len() >= 1);
        assert(t[0] == s[k]);
        assert(s[k] != table[0]) by {
            lemma_leading_zeros_stops(table, s);
        }
        assert(all_in_table(table, t)) by {
            assert(forall|i: int| 0 <= i < t.len() ==> t[i] == s[i + k] && table.contains(
                s[i + k],
            ));
        }
        lemma_render_value_of(table, t);
    }
}

/// The count of leading zero digits never exceeds the string's length.
pub proof fn lemma_leading_zeros_bounds(table: Seq<char>, s: Seq<char>)
    ensures
        0 <= leading_zeros(table, s) <= s.len(),
    decreases s.len(),
{
    if s.len() == 0 {
    } else if s[0] != table[0] {
    } else {
        lemma_leading_zeros_bounds(table, s.drop_first());
    }
}

/// The character right after the leading zero digits is not the zero digit.
proof fn lemma_leading_zeros_stops(table: Seq<char>, s: Seq<char>)
    requires
        0 <= leading_zeros(table, s) < s.len(),
    ensures
        s[leading_zeros(table, s)] != table[0],
    decreases s.len(),
{
    if s.len() == 0 {
    } else if s[0] != table[0] {
    } else {
        let d = s.drop_first();
        lemma_leading_zeros_bounds(table, d);
        lemma_leading_zeros_stops(table, d);
        let k = leading_zeros(table, d);
        assert(s[1 + k] == d[k]);
    }
}

} // verus!
