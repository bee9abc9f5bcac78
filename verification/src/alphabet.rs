//! Digit alphabets: ordered tables of distinct characters.
//!
//! The character at position `i` of a table denotes digit value `i`; the
//! digit-value base of a table is its character count. Inputs and tables are
//! indexed by Unicode scalar value, never by encoded byte length.
use crate::errors::TableRule;
use vstd::prelude::*;
use vstd::std_specs::iter::IteratorSpec;

verus! {

broadcast use vstd::string::group_string_axioms;

/// A usable digit alphabet: at least one character, none repeated, so that
/// position is a bijection between characters and digit values.
pub open spec fn valid_table(table: Seq<char>) -> bool {
    table.len() >= 1 && table.no_duplicates()
}

/// The digit value a character denotes: its position in the table.
/// Meaningful only when the table contains the character.
pub open spec fn digit_of(table: Seq<char>, ch: char) -> int {
    table.index_of(ch)
}

/// Every character of `s` has an entry in the table.
pub open spec fn all_in_table(table: Seq<char>, s: Seq<char>) -> bool {
    forall|i: int| 0 <= i < s.len() ==> table.contains(s[i])
}

/// The position of the first character of `s` with no entry in the table.
/// Meaningful only when some character of `s` is missing from it.
pub open spec fn first_invalid(table: Seq<char>, s: Seq<char>) -> int
    decreases s.len(),
{
    if s.len() == 0 {
        0
    } else if !table.contains(s[0]) {
        0
    } else {
        1 + first_invalid(table, s.drop_first())
    }
}

/// When the characters before `i` are all in the table and the one at `i`
/// is not, `i` is exactly the first invalid position.
pub proof fn lemma_first_invalid_at(table: Seq<char>, s: Seq<char>, i: int)
    requires
        0 <= i < s.len(),
        !table.contains(s[i]),
        forall|j: int| 0 <= j < i ==> table.contains(s[j]),
    ensures
        first_invalid(table, s) == i,
    decreases i,
{
    if i == 0 {
    } else {
        let d = s.drop_first();
        assert(forall|j: int| 0 <= j < i - 1 ==> d[j] == s[j + 1] && table.contains(s[j + 1]));
        lemma_first_invalid_at(table, d, i - 1);
    }
}

/// The digit value of a table's own character is its position.
pub proof fn lemma_digit_of_index(table: Seq<char>, i: int)
    requires
        table.no_duplicates(),
        0 <= i < table.len(),
    ensures
        digit_of(table, table[i]) == i,
{
    assert(table.contains(table[i]));
    let d = digit_of(table, table[i]);
    assert(0 <= d < table.len() && table[d] == table[i]);
}

/// A contained character's digit value is a position holding it.
pub proof fn lemma_digit_of_contains(table: Seq<char>, ch: char)
    requires
        table.contains(ch),
    ensures
        0 <= digit_of(table, ch) < table.len(),
        table[digit_of(table, ch)] == ch,
{
}

/// Look a character up in a table by linear scan, returning the first
/// position holding it.
pub fn find_digit(table: &Vec<char>, ch: char) -> (r: Option<usize>)
    ensures
        match r {
            Some(d) => {
                &&& d < table@.len()
                &&& table@[d as int] == ch
                &&& forall|j: int| 0 <= j < d ==> table@[j] != ch
            },
            None => !table@.contains(ch),
        },
{
    let n = table.len();
    let mut i: usize = 0;
    while i < n
        invariant
            i <= n == table@.len(),
            forall|j: int| 0 <= j < i ==> table@[j] != ch,
        decreases n - i,
    {
        if table[i] == ch {
            return Some(i);
        }
        i += 1;
    }
    None
}

/// Validate a table: report emptiness, then the first repeated character.
pub fn check_table(table: &Vec<char>) -> (r: Option<TableRule>)
    ensures
        table@.len() == 0 ==> r == Some(TableRule::Empty),
        table@.len() > 0 && !table@.no_duplicates() ==> r == Some(TableRule::Duplicate),
        valid_table(table@) ==> r is None,
{
    let n = table.len();
    if n == 0 {
        return Some(TableRule::Empty);
    }
    let mut i: usize = 0;
    while i < n
        invariant
            i <= n == table@.len(),
            forall|a: int, b: int| 0 <= a < b < n && a < i ==> table@[a] != table@[b],
        decreases n - i,
    {
        let mut j: usize = i + 1;
        while j < n
            invariant
                i < j <= n == table@.len(),
                forall|b: int| i < b < j ==> table@[i as int] != table@[b],
            decreases n - j,
        {
            if table[i] == table[j] {
                return Some(TableRule::Duplicate);
            }
            j += 1;
        }
        i += 1;
    }
    proof {
        assert forall|a: int, b: int|
            0 <= a < table@.len() && 0 <= b < table@.len() && a != b implies table@[a]
            != table@[b] by {
            if a < b {
                assert(table@[a] != table@[b]);
            } else {
                assert(table@[b] != table@[a]);
            }
        }
    }
    None
}

/// The characters of a string, in order, as a vector.
pub fn str_chars(s: &str) -> (r: Vec<char>)
    ensures
        r@ == s@,
{
    let mut it = s.chars();
    let mut v: Vec<char> = Vec::new();
    loop
        invariant
            it.obeys_prophetic_iter_laws(),
            it.decrease() is Some,
            v@ + it.remaining() == s@,
        ensures
            v@ == s@,
        decreases it.decrease()->0,
    {
        let ghost pre = it;
        let ghost vv = v@;
        match it.next() {
            Some(ch) => {
                v.push(ch);
                proof {
                    assert(v@ + it.remaining() =~= vv + pre.remaining());
                }
            },
            None => {
                proof {
                    assert(v@ + it.remaining() =~= v@);
                }
                break ;
            },
        }
    }
    v
}

/// Relies on `String::push`: appends the given character to the end of the
/// string.
#[verifier::external_body]
fn push_char(s: &mut String, ch: char)
    ensures
        final(s)@ == old(s)@.push(ch),
{
    s.push(ch);
}

/// Collect a vector of characters into a string, in order.
pub fn string_from_chars(v: &Vec<char>) -> (r: String)
    ensures
        r@ == v@,
{
    let mut s = String::new();
    let n = v.len();
    proof {
        assert(s@ =~= v@.take(0));
    }
    let mut i: usize = 0;
    while i < n
        invariant
            i <= n == v@.len(),
            s@ == v@.take(i as int),
        decreases n - i,
    {
        push_char(&mut s, v[i]);
        i += 1;
        proof {
            assert(v@.take(i as int) =~= v@.take(i - 1).push(v@[i - 1]));
        }
    }
    proof {
        assert(v@.take(n as int) =~= v@);
    }
    s
}

} // verus!
