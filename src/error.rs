use vstd::prelude::*;
use crate::text::{chars_of, string_of};

verus! {

/// Why a document was refused, and where: a line and a column, both counted from one.
#[derive(Debug, PartialEq)]
pub enum ParseError {
    Generic { line: usize, column: usize, message: String },
}

/// Writing a document failed.
#[derive(Debug, PartialEq)]
pub enum DumpError {
    TooDeep,
}

/// The message of a document refused for a tab.
pub open spec fn tab_message() -> Seq<char> {
    "tabs are not allowed; use spaces for indentation"@
}

impl ParseError {
    pub open spec fn line(&self) -> int {
        match self {
            ParseError::Generic { line, .. } => *line as int,
        }
    }

    pub open spec fn column(&self) -> int {
        match self {
            ParseError::Generic { column, .. } => *column as int,
        }
    }

    pub open spec fn message(&self) -> Seq<char> {
        match self {
            ParseError::Generic { message, .. } => message@,
        }
    }

    /// The line, the column and the message.
    pub open spec fn place(&self) -> (nat, nat, Seq<char>) {
        match self {
            ParseError::Generic { line, column, message } => (*line as nat, *column as nat, message@),
        }
    }

    pub fn new(line: usize, column: usize, message: &str) -> (r: ParseError)
        ensures
            r.line() == line,
            r.column() == column,
            r.message() == message@,
            r.place() == (line as nat, column as nat, message@),
    {
        ParseError::Generic { line, column, message: message.to_string() }
    }

    /// An error whose message is `prefix` followed by `name`.
    pub fn named(line: usize, column: usize, prefix: &str, name: &[char]) -> (r: ParseError)
        ensures
            r.line() == line,
            r.column() == column,
            r.message() == prefix@ + name@,
            r.place() == (line as nat, column as nat, prefix@ + name@),
    {
        let mut m = chars_of(prefix);
        let mut i: usize = 0;
        while i < name.len()
            invariant
                i <= name@.len(),
                m@ == prefix@ + name@.subrange(0, i as int),
            decreases name.len() - i,
        {
            m.push(name[i]);
            i = i + 1;
            assert(prefix@ + name@.subrange(0, i as int) =~= (prefix@ + name@.subrange(0, i - 1)).push(name@[i - 1]));
        }
        assert(name@.subrange(0, i as int) =~= name@);
        ParseError::Generic { line, column, message: string_of(&m) }
    }

    pub fn tab_error(line: usize) -> (r: ParseError)
        ensures
            r.line() == line,
            r.column() == 1,
            r.place() == (line as nat, 1nat, tab_message()),
    {
        ParseError::new(line, 1, "tabs are not allowed; use spaces for indentation")
    }
}

} // verus!
