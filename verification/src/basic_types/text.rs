//! Texts: how numbers, variables, predicates and inequalities are written
//! out.

use itertools::Itertools;
use vstd::prelude::*;
use vstd::string::StringExecFns;
use crate::basic_types::domain_id::DomainId;
use crate::basic_types::predicate::Predicate;

verus! {

/// The character of a decimal digit.
pub open spec fn digit_char(d: int) -> char {
    if d == 0 {
        '0'
    } else if d == 1 {
        '1'
    } else if d == 2 {
        '2'
    } else if d == 3 {
        '3'
    } else if d == 4 {
        '4'
    } else if d == 5 {
        '5'
    } else if d == 6 {
        '6'
    } else if d == 7 {
        '7'
    } else if d == 8 {
        '8'
    } else {
        '9'
    }
}

/// The decimal digits of a natural number, without leading zeros.
pub open spec fn digits(n: nat) -> Seq<char>
    decreases n,
{
    if n < 10 {
        seq![digit_char(n as int)]
    } else {
        digits(n / 10).push(digit_char((n % 10) as int))
    }
}

/// An integer in decimal, with a minus sign where it is negative.
pub open spec fn decimal(value: int) -> Seq<char> {
    if value < 0 {
        seq!['-'] + digits((-value) as nat)
    } else {
        digits(value as nat)
    }
}

/// The parts with `separator` between each two.
pub open spec fn joined(parts: Seq<Seq<char>>, separator: Seq<char>) -> Seq<char>
    decreases parts.len(),
{
    if parts.len() == 0 {
        Seq::empty()
    } else if parts.len() == 1 {
        parts[0]
    } else {
        joined(parts.drop_last(), separator) + separator + parts.last()
    }
}

/// The parts one after the other.
pub open spec fn concatenated(parts: Seq<Seq<char>>) -> Seq<char>
    decreases parts.len(),
{
    if parts.len() == 0 {
        Seq::empty()
    } else {
        concatenated(parts.drop_last()) + parts.last()
    }
}

/// The texts of the strings.
pub open spec fn texts(parts: Seq<String>) -> Seq<Seq<char>> {
    Seq::new(parts.len(), |i: int| parts[i]@)
}

/// Writes an integer with std's `format!`, whose `{}` gives an integer in
/// decimal, without leading zeros, a negative one behind a minus sign.
#[verifier::external_body]
pub(crate) fn decimal_text(value: i128) -> (r: String)
    ensures
        r@ == decimal(value as int),
{
    format!("{}", value)
}

/// Joins strings with itertools' `join`, which writes the items one after
/// the other with the separator between each two, and nothing for no item.
#[verifier::external_body]
pub(crate) fn join_texts(parts: &Vec<String>, separator: &str) -> (r: String)
    ensures
        r@ == joined(texts(parts@), separator@),
{
    parts.iter().join(separator)
}

/// A variable is written as `x` and its number.
pub open spec fn variable_text(x: DomainId) -> Seq<char> {
    "x"@ + decimal(x.id as int)
}

/// A predicate is written between square brackets, as the variable, the
/// relation and the value; the constants as their names.
pub open spec fn predicate_text(predicate: Predicate) -> Seq<char> {
    match predicate {
        Predicate::LowerBound { domain_id, lower_bound } => "["@ + variable_text(domain_id) + " >= "@
            + decimal(lower_bound as int) + "]"@,
        Predicate::UpperBound { domain_id, upper_bound } => "["@ + variable_text(domain_id) + " <= "@
            + decimal(upper_bound as int) + "]"@,
        Predicate::NotEqual { domain_id, not_equal_constant } => "["@ + variable_text(domain_id)
            + " != "@ + decimal(not_equal_constant as int) + "]"@,
        Predicate::Equal { domain_id, equality_constant } => "["@ + variable_text(domain_id) + " == "@
            + decimal(equality_constant as int) + "]"@,
        Predicate::True => "[True]"@,
        Predicate::False => "[False]"@,
    }
}

/// The text of a variable.
pub fn variable_to_text(x: DomainId) -> (r: String)
    ensures
        r@ == variable_text(x),
{
    let mut text = String::from_str("x");
    let number = decimal_text(x.id as i128);
    text.append(number.as_str());
    text
}

/// The text of a predicate.
pub fn predicate_to_text(predicate: &Predicate) -> (r: String)
    ensures
        r@ == predicate_text(*predicate),
{
    match predicate {
        Predicate::LowerBound { domain_id, lower_bound } => relation_text(
            *domain_id,
            " >= ",
            *lower_bound,
        ),
        Predicate::UpperBound { domain_id, upper_bound } => relation_text(
            *domain_id,
            " <= ",
            *upper_bound,
        ),
        Predicate::NotEqual { domain_id, not_equal_constant } => relation_text(
            *domain_id,
            " != ",
            *not_equal_constant,
        ),
        Predicate::Equal { domain_id, equality_constant } => relation_text(
            *domain_id,
            " == ",
            *equality_constant,
        ),
        Predicate::True => String::from_str("[True]"),
        Predicate::False => String::from_str("[False]"),
    }
}

/// `[`, the variable, the relation, the value, `]`.
fn relation_text(x: DomainId, relation: &str, value: i32) -> (r: String)
    ensures
        r@ == "["@ + variable_text(x) + relation@ + decimal(value as int) + "]"@,
{
    let mut text = String::from_str("[");
    let variable = variable_to_text(x);
    text.append(variable.as_str());
    text.append(relation);
    let number = decimal_text(value as i128);
    text.append(number.as_str());
    text.append("]");
    text
}

/// The texts of the predicates, with `; ` between each two.
pub fn conjunction_to_text(predicates: &Vec<Predicate>) -> (r: String)
    ensures
        r@ == joined(Seq::new(predicates@.len(), |i: int| predicate_text(predicates@[i])), "; "@),
{
    let mut parts: Vec<String> = Vec::new();
    let mut i: usize = 0;
    while i < predicates.len()
        invariant
            i <= predicates@.len(),
            parts@.len() == i,
            forall|k: int| 0 <= k < i ==> (#[trigger] parts@[k])@ == predicate_text(predicates@[k]),
        decreases predicates.len() - i,
    {
        parts.push(predicate_to_text(&predicates[i]));
        i += 1;
    }
    proof {
        assert(texts(parts@) =~= Seq::new(predicates@.len(), |i: int| predicate_text(predicates@[i])));
    }
    join_texts(&parts, "; ")
}

} // verus!
