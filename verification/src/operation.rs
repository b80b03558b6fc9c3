//! The text tool's command set: which transformation a typed command
//! names, and a command paired with its argument.

use vstd::prelude::*;
use vstd::string::StringExecFns;

use crate::strutil::str_eq;

verus! {

/// One text transformation.
#[derive(Debug, PartialEq, Eq, Structural, Clone, Copy)]
pub enum Operation {
    Lowercase,
    Uppercase,
    Slugify,
    NoSpaces,
    Len,
    Reverse,
    Csv,
    Exit,
}

/// The operation a command name denotes. `Exit` has no name: it is
/// produced only by an empty input line.
pub open spec fn spec_operation_of(s: Seq<char>) -> Option<Operation> {
    if s == "lowercase"@ {
        Some(Operation::Lowercase)
    } else if s == "uppercase"@ {
        Some(Operation::Uppercase)
    } else if s == "slugify"@ {
        Some(Operation::Slugify)
    } else if s == "no-spaces"@ {
        Some(Operation::NoSpaces)
    } else if s == "len"@ {
        Some(Operation::Len)
    } else if s == "reverse"@ {
        Some(Operation::Reverse)
    } else if s == "csv"@ {
        Some(Operation::Csv)
    } else {
        None
    }
}

impl Operation {
    /// Parses a command name; anything unknown is an error.
    pub fn from_name(s: &str) -> (r: Result<Operation, String>)
        ensures
            match r {
                Ok(op) => spec_operation_of(s@) == Some(op),
                Err(_) => spec_operation_of(s@) == None::<Operation>,
            },
    {
        if str_eq(s, "lowercase") {
            Ok(Operation::Lowercase)
        } else if str_eq(s, "uppercase") {
            Ok(Operation::Uppercase)
        } else if str_eq(s, "slugify") {
            Ok(Operation::Slugify)
        } else if str_eq(s, "no-spaces") {
            Ok(Operation::NoSpaces)
        } else if str_eq(s, "len") {
            Ok(Operation::Len)
        } else if str_eq(s, "reverse") {
            Ok(Operation::Reverse)
        } else if str_eq(s, "csv") {
            Ok(Operation::Csv)
        } else {
            Err(String::from_str("unknown operation"))
        }
    }
}

impl core::str::FromStr for Operation {
    type Err = String;

    fn from_str(s: &str) -> Result<Self, String> {
        Operation::from_name(s)
    }
}

/// A command together with the argument it works on.
#[derive(Debug)]
pub struct OperationWithParam {
    pub operation: Operation,
    pub param: String,
}

impl OperationWithParam {
    /// The request to stop: the exit command with an empty argument.
    pub fn exit() -> (r: Self)
        ensures
            r.operation == Operation::Exit,
            r.param@ == Seq::<char>::empty(),
    {
        Self::new(Operation::Exit, String::new())
    }

    /// Pairs a command with its argument.
    pub fn new(operation: Operation, param: String) -> (r: Self)
        ensures
            r.operation == operation,
            r.param == param,
    {
        Self { operation, param }
    }
}

} // verus!
