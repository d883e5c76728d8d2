//! The parsed options of one invocation: the two line-sets and the selected
//! operation, and the report for a file that could not be read.

use vstd::prelude::*;

use crate::lineset::from_content;
use crate::lineset::line_set_of;
use crate::lineset::LineSet;
use crate::text::str_eq;

verus! {

/// The operation to perform on the two sets.
pub enum Operation {
    Intersect(),
    SubsetTest(),
}

/// Which operation a command-line selector token names, if any.
pub open spec fn op_of_token(t: Seq<char>) -> Option<Operation> {
    if t == "intersect"@ {
        Some(Operation::Intersect())
    } else if t == "subset-test"@ {
        Some(Operation::SubsetTest())
    } else {
        None
    }
}

impl Operation {
    /// Parse an operation selector token.
    pub fn from_token(token: &str) -> (r: Option<Operation>)
        ensures
            r == op_of_token(token@),
    {
        if str_eq(token, "intersect") {
            Some(Operation::Intersect())
        } else if str_eq(token, "subset-test") {
            Some(Operation::SubsetTest())
        } else {
            None
        }
    }
}

/// Everything one invocation needs: the two line-sets and the operation.
pub struct Options {
    pub left: LineSet,
    pub right: LineSet,
    pub operation: Operation,
}

impl Options {
    /// Both sets are well-formed.
    pub open spec fn wf(&self) -> bool {
        self.left.wf() && self.right.wf()
    }

    /// Build the options of one invocation from the operation selector token
    /// and the contents of the two files. Reading the command line and the
    /// files is the caller's concern; a selector outside the enumerated set
    /// is a programming error and is ruled out here rather than handled.
    pub fn from_stdin(operation: &str, left_content: &str, right_content: &str) -> (r: Options)
        requires
            op_of_token(operation@).is_some(),
        ensures
            r.wf(),
            Some(r.operation) == op_of_token(operation@),
            r.left.set() == line_set_of(left_content@),
            r.right.set() == line_set_of(right_content@),
    {
        let operation = match Operation::from_token(operation) {
            Some(op) => op,
            None => vstd::pervasive::unreached(),
        };
        Options { left: from_content(left_content), right: from_content(right_content), operation }
    }
}

/// The report for a file that could not be read, carrying the offending path
/// and the underlying cause.
pub fn read_error_message(path: &str, cause: &str) -> (r: String)
    ensures
        r@ == "Cannot read file '"@ + path@ + "': "@ + cause@,
{
    let mut m = String::from_str("Cannot read file '");
    m.append(path);
    m.append("': ");
    m.append(cause);
    m
}

} // verus!
