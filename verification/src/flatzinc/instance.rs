//! The outputs of an instance.

use vstd::prelude::*;
use vstd::string::StringExecFns;
use crate::basic_types::domain_id::DomainId;
use crate::basic_types::predicate::Predicate;
use crate::basic_types::text::concatenated;
use crate::basic_types::text::decimal;
use crate::basic_types::text::decimal_text;
use crate::basic_types::text::join_texts;
use crate::basic_types::text::joined;
use crate::basic_types::text::texts;

verus! {

#[derive(Default)]
pub struct FlatZincInstance {
    pub outputs: Vec<Output>,
}

/// Something to print of a solution.
#[derive(Clone, Debug, PartialEq, Eq)]
pub enum Output {
    Bool(VariableOutput<Predicate>),
    Int(VariableOutput<DomainId>),
    ArrayOfBool(ArrayOutput<Predicate>),
    ArrayOfInt(ArrayOutput<DomainId>),
}

/// A variable to print under the name `id`.
#[derive(Clone, Debug, PartialEq, Eq)]
pub struct VariableOutput<T> {
    pub id: String,
    pub variable: T,
}

/// An array to print under the name `id`.
#[derive(Clone, Debug, PartialEq, Eq)]
pub struct ArrayOutput<T> {
    pub id: String,
    /// The index sets of the array, one for each dimension, each given by
    /// its least and its greatest index.
    pub shape: Vec<(i32, i32)>,
    /// The elements, in row-major order.
    pub contents: Vec<T>,
}

impl FlatZincInstance {
    pub fn new() -> (r: FlatZincInstance)
        ensures
            r.outputs@.len() == 0,
    {
        FlatZincInstance { outputs: Vec::new() }
    }

    /// The outputs, in the order in which they are to be printed.
    pub fn outputs(&self) -> (r: &Vec<Output>)
        ensures
            r == &self.outputs,
    {
        &self.outputs
    }
}

impl Output {
    pub fn bool(id: String, literal: Predicate) -> (r: Output)
        ensures
            r == Output::Bool(VariableOutput { id, variable: literal }),
    {
        Output::Bool(VariableOutput { id, variable: literal })
    }

    pub fn array_of_bool(id: String, shape: Vec<(i32, i32)>, contents: Vec<Predicate>) -> (r: Output)
        ensures
            r == Output::ArrayOfBool(ArrayOutput { id, shape, contents }),
    {
        Output::ArrayOfBool(ArrayOutput { id, shape, contents })
    }

    pub fn integer(id: String, domain_id: DomainId) -> (r: Output)
        ensures
            r == Output::Int(VariableOutput { id, variable: domain_id }),
    {
        Output::Int(VariableOutput { id, variable: domain_id })
    }

    pub fn array_of_int(id: String, shape: Vec<(i32, i32)>, contents: Vec<DomainId>) -> (r: Output)
        ensures
            r == Output::ArrayOfInt(ArrayOutput { id, shape, contents }),
    {
        Output::ArrayOfInt(ArrayOutput { id, shape, contents })
    }
}

/// An index set is written as its two ends with two dots between, and a
/// comma and a blank behind.
pub open spec fn index_set_text(range: (i32, i32)) -> Seq<char> {
    decimal(range.0 as int) + ".."@ + decimal(range.1 as int) + ", "@
}

impl<T> VariableOutput<T> {
    /// The line that prints the variable with the value `value`:
    /// `name = value;`.
    pub fn to_text(&self, value: &str) -> (r: String)
        ensures
            r@ == self.id@ + " = "@ + value@ + ";"@,
    {
        let mut text = String::from_str(self.id.as_str());
        text.append(" = ");
        text.append(value);
        text.append(";");
        text
    }
}

impl<T> ArrayOutput<T> {
    /// The line that prints the array with the element values `values`,
    /// taken in row-major order:
    /// `name = arrayNd(lo1..hi1, ..., [v1, v2, ...]);`.
    pub fn to_text(&self, values: &Vec<String>) -> (r: String)
        ensures
            r@ == self.id@ + " = array"@ + decimal(self.shape@.len() as int) + "d("@ + concatenated(
                Seq::new(self.shape@.len(), |i: int| index_set_text(self.shape@[i])),
            ) + "["@ + joined(texts(values@), ", "@) + "]);"@,
    {
        let mut shape_buf = String::new();
        let ghost sets = Seq::new(self.shape@.len(), |i: int| index_set_text(self.shape@[i]));
        let mut i: usize = 0;
        while i < self.shape.len()
            invariant
                i <= self.shape@.len(),
                sets == Seq::new(self.shape@.len(), |i: int| index_set_text(self.shape@[i])),
                shape_buf@ == concatenated(sets.take(i as int)),
            decreases self.shape.len() - i,
        {
            let range = self.shape[i];
            let min = decimal_text(range.0 as i128);
            let max = decimal_text(range.1 as i128);
            proof {
                assert(sets.take(i + 1).drop_last() =~= sets.take(i as int));
                assert(sets.take(i + 1).last() == index_set_text(self.shape@[i as int]));
            }
            shape_buf.append(min.as_str());
            shape_buf.append("..");
            shape_buf.append(max.as_str());
            shape_buf.append(", ");
            i += 1;
        }
        proof {
            assert(sets.take(sets.len() as int) =~= sets);
        }
        let array_buf = join_texts(values, ", ");
        let num_dimensions = decimal_text(self.shape.len() as i128);
        let mut text = String::from_str(self.id.as_str());
        text.append(" = array");
        text.append(num_dimensions.as_str());
        text.append("d(");
        text.append(shape_buf.as_str());
        text.append("[");
        text.append(array_buf.as_str());
        text.append("]);");
        text
    }
}

} // verus!
