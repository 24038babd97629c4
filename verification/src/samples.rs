//! Sample data sets for exercising the engine on larger inputs.

use vstd::prelude::*;
use crate::text::chars_to_string;

verus! {

/// The digit character for `d`.
pub open spec fn digit_char(d: int) -> char {
    if d == 0 {
        '0'
    } else if d == 1 {
        '1'
    } else if d == 2 {
        '2'
    } else if d == 3 {
        '3'
    } else if d == 4 {
        '4'
    } else if d == 5 {
        '5'
    } else if d == 6 {
        '6'
    } else if d == 7 {
        '7'
    } else if d == 8 {
        '8'
    } else {
        '9'
    }
}

/// The decimal digits of `n`, most significant first.
pub open spec fn decimal_chars(n: int) -> Seq<char>
    decreases n,
{
    if n < 10 {
        seq![digit_char(n)]
    } else {
        decimal_chars(n / 10).push(digit_char(n % 10))
    }
}

/// The digit character for `d`.
fn digit_of(d: usize) -> (c: char)
    requires
        d < 10,
    ensures
        c == digit_char(d as int),
{
    match d {
        0 => '0',
        1 => '1',
        2 => '2',
        3 => '3',
        4 => '4',
        5 => '5',
        6 => '6',
        7 => '7',
        8 => '8',
        _ => '9',
    }
}

/// Append the decimal digits of `n` to `out`.
fn push_decimal(n: usize, out: &mut Vec<char>)
    ensures
        final(out)@ == old(out)@ + decimal_chars(n as int),
    decreases n,
{
    if n < 10 {
        out.push(digit_of(n));
        proof {
            assert(final(out)@ =~= old(out)@ + decimal_chars(n as int));
        }
    } else {
        proof {
            assert(n / 10 < n) by (nonlinear_arith)
                requires
                    n >= 10,
            ;
        }
        push_decimal(n / 10, out);
        out.push(digit_of(n % 10));
        proof {
            assert(final(out)@ =~= old(out)@ + decimal_chars(n as int));
        }
    }
}

/// The label of the `i`-th plain sample item.
pub open spec fn item_label(i: int) -> Seq<char> {
    seq!['i', 't', 'e', 'm', '_'] + decimal_chars(i)
}

/// The label of the `i`-th diacritics sample item: every other entry
/// carries an accented `e`.
pub open spec fn cafe_label(i: int) -> Seq<char> {
    if i % 2 == 0 {
        seq!['c', 'a', 'f', '\u{e9}', '_'] + decimal_chars(i)
    } else {
        seq!['c', 'a', 'f', 'e', '_'] + decimal_chars(i)
    }
}

/// Generate a data set of `n` numbered items.
pub fn generate_items(n: usize) -> (r: Vec<String>)
    ensures
        r@.len() == n,
        forall|i: int| 0 <= i < n ==> (#[trigger] r@[i])@ == item_label(i),
{
    let mut r: Vec<String> = Vec::new();
    let mut i: usize = 0;
    while i < n
        invariant
            i <= n,
            r@.len() == i,
            forall|j: int| 0 <= j < i ==> (#[trigger] r@[j])@ == item_label(j),
        decreases n - i,
    {
        let mut cs: Vec<char> = Vec::new();
        cs.push('i');
        cs.push('t');
        cs.push('e');
        cs.push('m');
        cs.push('_');
        proof {
            assert(cs@ =~= seq!['i', 't', 'e', 'm', '_']);
        }
        push_decimal(i, &mut cs);
        r.push(chars_to_string(&cs));
        i += 1;
    }
    r
}

/// Generate a data set of `n` items where every other entry carries a
/// diacritic.
pub fn generate_diacritics_items(n: usize) -> (r: Vec<String>)
    ensures
        r@.len() == n,
        forall|i: int| 0 <= i < n ==> (#[trigger] r@[i])@ == cafe_label(i),
{
    let mut r: Vec<String> = Vec::new();
    let mut i: usize = 0;
    while i < n
        invariant
            i <= n,
            r@.len() == i,
            forall|j: int| 0 <= j < i ==> (#[trigger] r@[j])@ == cafe_label(j),
        decreases n - i,
    {
        let mut cs: Vec<char> = Vec::new();
        cs.push('c');
        cs.push('a');
        cs.push('f');
        if i % 2 == 0 {
            cs.push('\u{e9}');
        } else {
            cs.push('e');
        }
        cs.push('_');
        proof {
            if i % 2 == 0 {
                assert(cs@ =~= seq!['c', 'a', 'f', '\u{e9}', '_']);
            } else {
                assert(cs@ =~= seq!['c', 'a', 'f', 'e', '_']);
            }
        }
        push_decimal(i, &mut cs);
        r.push(chars_to_string(&cs));
        i += 1;
    }
    r
}

} // verus!
