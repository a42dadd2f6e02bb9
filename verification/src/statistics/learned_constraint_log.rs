//! The log of learned constraints: what was learned or propagated, and
//! after how many conflicts.

use vstd::prelude::*;
use vstd::string::StringExecFns;
use crate::basic_types::domain_id::DomainId;
use crate::basic_types::linear_less_or_equal::LinearLessOrEqual;
use crate::basic_types::linear_less_or_equal::inequality_text;
use crate::basic_types::predicate::Predicate;
use crate::basic_types::text::concatenated;
use crate::basic_types::text::conjunction_to_text;
use crate::basic_types::text::decimal;
use crate::basic_types::text::decimal_text;
use crate::basic_types::text::join_texts;
use crate::basic_types::text::joined;
use crate::basic_types::text::predicate_text;
use crate::basic_types::text::texts;
use crate::basic_types::text::variable_text;
use crate::basic_types::text::variable_to_text;

verus! {

/// The bounds of some variables.
#[derive(Clone, Debug)]
pub struct VariableDomains(pub Vec<(DomainId, (i32, i32))>);

#[derive(Debug)]
pub enum LearnedConstraintLogItem {
    ConflictResult { learned_constraint: LinearLessOrEqual, learned_nogoods: Vec<Predicate> },
    NewPropagator { propagator_id: u32, learned_constraint: LinearLessOrEqual },
    NewNogood { nogood_id: u32, learned_constraint: LinearLessOrEqual },
    ConstraintPropagation {
        propagator_id: u32,
        propagated_var: DomainId,
        domains_at_propagation: VariableDomains,
    },
    NogoodPropagation { nogood_id: u32, propagated_var: DomainId, domains_at_propagation: VariableDomains },
    ConstraintError { propagator_id: u32, domains_at_error: VariableDomains },
}

#[derive(Debug, Default)]
pub struct LearnedConstraintLog {
    items: Vec<(u64, LearnedConstraintLogItem)>,
    num_conflicts: u64,
}

/// The bounds of one variable are written as its number, a colon, and the
/// two bounds in parentheses.
pub open spec fn domain_text(entry: (DomainId, (i32, i32))) -> Seq<char> {
    decimal(entry.0.id as int) + ":("@ + decimal(entry.1.0 as int) + ","@ + decimal(entry.1.1 as int)
        + ")"@
}

/// The bounds of the variables, with a blank between each two.
pub open spec fn domains_text(domains: Seq<(DomainId, (i32, i32))>) -> Seq<char> {
    joined(Seq::new(domains.len(), |i: int| domain_text(domains[i])), " "@)
}

/// The predicates, with `; ` between each two.
pub open spec fn conjunction_text(predicates: Seq<Predicate>) -> Seq<char> {
    joined(Seq::new(predicates.len(), |i: int| predicate_text(predicates[i])), "; "@)
}

/// An item is written as the short name of its kind and its parts, with
/// `|` between them.
pub open spec fn item_text(item: LearnedConstraintLogItem) -> Seq<char> {
    match item {
        LearnedConstraintLogItem::ConflictResult { learned_constraint, learned_nogoods } => "CR|"@
            + inequality_text(learned_constraint.lhs@, learned_constraint.rhs as int) + "|"@
            + conjunction_text(learned_nogoods@),
        LearnedConstraintLogItem::NewPropagator { propagator_id, learned_constraint } => "NP|"@
            + decimal(propagator_id as int) + "|"@ + inequality_text(
            learned_constraint.lhs@,
            learned_constraint.rhs as int,
        ),
        LearnedConstraintLogItem::NewNogood { nogood_id, learned_constraint } => "NNG|"@ + decimal(
            nogood_id as int,
        ) + "|"@ + inequality_text(learned_constraint.lhs@, learned_constraint.rhs as int),
        LearnedConstraintLogItem::ConstraintPropagation {
            propagator_id,
            propagated_var,
            domains_at_propagation,
        } => "CP|"@ + decimal(propagator_id as int) + "|"@ + domains_text(domains_at_propagation.0@)
            + "|"@ + variable_text(propagated_var),
        LearnedConstraintLogItem::NogoodPropagation {
            nogood_id,
            propagated_var,
            domains_at_propagation,
        } => "NGP|"@ + decimal(nogood_id as int) + "|"@ + domains_text(domains_at_propagation.0@)
            + "|"@ + variable_text(propagated_var),
        LearnedConstraintLogItem::ConstraintError { propagator_id, domains_at_error } => "CE|"@
            + decimal(propagator_id as int) + "|"@ + domains_text(domains_at_error.0@),
    }
}

/// A line of the log: the number of conflicts, `|`, the item, and a line
/// feed.
pub open spec fn line_text(entry: (u64, LearnedConstraintLogItem)) -> Seq<char> {
    decimal(entry.0 as int) + "|"@ + item_text(entry.1) + "\n"@
}

impl VariableDomains {
    /// The bounds as a text.
    pub fn to_text(&self) -> (r: String)
        ensures
            r@ == domains_text(self.0@),
    {
        let mut parts: Vec<String> = Vec::new();
        let mut i: usize = 0;
        while i < self.0.len()
            invariant
                i <= self.0@.len(),
                parts@.len() == i,
                forall|k: int| 0 <= k < i ==> (#[trigger] parts@[k])@ == domain_text(self.0@[k]),
            decreases self.0.len() - i,
        {
            let entry = self.0[i];
            let mut text = decimal_text(entry.0.id as i128);
            text.append(":(");
            let lower = decimal_text(entry.1.0 as i128);
            text.append(lower.as_str());
            text.append(",");
            let upper = decimal_text(entry.1.1 as i128);
            text.append(upper.as_str());
            text.append(")");
            parts.push(text);
            i += 1;
        }
        proof {
            assert(texts(parts@) =~= Seq::new(self.0@.len(), |i: int| domain_text(self.0@[i])));
        }
        join_texts(&parts, " ")
    }
}

/// `name`, the number, `|`, and `rest`.
fn numbered_text(name: &str, number: u32, rest: &String) -> (r: String)
    ensures
        r@ == name@ + decimal(number as int) + "|"@ + rest@,
{
    let mut text = String::from_str(name);
    let digits = decimal_text(number as i128);
    text.append(digits.as_str());
    text.append("|");
    text.append(rest.as_str());
    text
}

impl LearnedConstraintLogItem {
    /// The item as a text.
    pub fn to_text(&self) -> (r: String)
        ensures
            r@ == item_text(*self),
    {
        match self {
            LearnedConstraintLogItem::ConflictResult { learned_constraint, learned_nogoods } => {
                let mut text = String::from_str("CR|");
                let constraint = learned_constraint.to_text();
                text.append(constraint.as_str());
                text.append("|");
                let nogoods = conjunction_to_text(learned_nogoods);
                text.append(nogoods.as_str());
                text
            },
            LearnedConstraintLogItem::NewPropagator { propagator_id, learned_constraint } => {
                let constraint = learned_constraint.to_text();
                numbered_text("NP|", *propagator_id, &constraint)
            },
            LearnedConstraintLogItem::NewNogood { nogood_id, learned_constraint } => {
                let constraint = learned_constraint.to_text();
                numbered_text("NNG|", *nogood_id, &constraint)
            },
            LearnedConstraintLogItem::ConstraintPropagation {
                propagator_id,
                propagated_var,
                domains_at_propagation,
            } => {
                let mut rest = domains_at_propagation.to_text();
                rest.append("|");
                let variable = variable_to_text(*propagated_var);
                rest.append(variable.as_str());
                numbered_text("CP|", *propagator_id, &rest)
            },
            LearnedConstraintLogItem::NogoodPropagation {
                nogood_id,
                propagated_var,
                domains_at_propagation,
            } => {
                let mut rest = domains_at_propagation.to_text();
                rest.append("|");
                let variable = variable_to_text(*propagated_var);
                rest.append(variable.as_str());
                numbered_text("NGP|", *nogood_id, &rest)
            },
            LearnedConstraintLogItem::ConstraintError { propagator_id, domains_at_error } => {
                let rest = domains_at_error.to_text();
                numbered_text("CE|", *propagator_id, &rest)
            },
        }
    }
}

impl LearnedConstraintLog {
    /// The items logged, each with the number of conflicts there had been.
    pub closed spec fn entries(&self) -> Seq<(u64, LearnedConstraintLogItem)> {
        self.items@
    }

    /// The number of conflicts that the next item is logged with.
    pub closed spec fn conflicts(&self) -> u64 {
        self.num_conflicts
    }

    pub fn new() -> (r: LearnedConstraintLog)
        ensures
            r.entries().len() == 0,
            r.conflicts() == 0,
    {
        LearnedConstraintLog { items: Vec::new(), num_conflicts: 0 }
    }

    pub fn update_num_conflicts(&mut self, num_conflicts: u64)
        ensures
            final(self).conflicts() == num_conflicts,
            final(self).entries() == old(self).entries(),
    {
        self.num_conflicts = num_conflicts;
    }

    pub fn log_item(&mut self, item: LearnedConstraintLogItem)
        ensures
            final(self).conflicts() == old(self).conflicts(),
            final(self).entries() == old(self).entries().push((old(self).conflicts(), item)),
    {
        self.items.push((self.num_conflicts, item))
    }

    pub fn num_items(&self) -> (r: usize)
        ensures
            r == self.entries().len(),
    {
        self.items.len()
    }

    /// The log as a text, one line for each item.
    pub fn to_text(&self) -> (r: String)
        ensures
            r@ == concatenated(Seq::new(self.entries().len(), |i: int| line_text(self.entries()[i]))),
    {
        let mut text = String::new();
        let ghost lines = Seq::new(self.items@.len(), |i: int| line_text(self.items@[i]));
        let mut i: usize = 0;
        while i < self.items.len()
            invariant
                i <= self.items@.len(),
                lines == Seq::new(self.items@.len(), |i: int| line_text(self.items@[i])),
                text@ == concatenated(lines.take(i as int)),
            decreases self.items.len() - i,
        {
            let count = decimal_text(self.items[i].0 as i128);
            let item = self.items[i].1.to_text();
            proof {
                assert(lines.take(i + 1).drop_last() =~= lines.take(i as int));
                assert(lines.take(i + 1).last() == line_text(self.items@[i as int]));
            }
            text.append(count.as_str());
            text.append("|");
            text.append(item.as_str());
            text.append("\n");
            i += 1;
        }
        proof {
            assert(lines.take(lines.len() as int) =~= lines);
        }
        text
    }
}

} // verus!
