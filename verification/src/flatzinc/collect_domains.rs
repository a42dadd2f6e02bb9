//! Which variables of a model are to be printed.

use vstd::prelude::*;
use vstd::string::StringExecFns;

verus! {

/// Whether a variable with these annotations is to be printed: whether one
/// of them is `output_var`.
pub fn is_output_variable(annotations: &Vec<String>) -> (r: bool)
    ensures
        r == exists|i: int| 0 <= i < annotations@.len() && (#[trigger] annotations@[i])@ == "output_var"@,
{
    let marker = String::from_str("output_var");
    let mut i: usize = 0;
    while i < annotations.len()
        invariant
            marker@ == "output_var"@,
            i <= annotations@.len(),
            forall|k: int| 0 <= k < i ==> (#[trigger] annotations@[k])@ != "output_var"@,
        decreases annotations.len() - i,
    {
        if annotations[i] == marker {
            return true;
        }
        i += 1;
    }
    false
}

} // verus!
