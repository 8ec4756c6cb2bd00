//! Where a list is read from.

use crate::error::RoaError;
use vstd::prelude::*;
use vstd::string::*;

verus! {

/// The source of the input: the standard input, or a file.
#[derive(Debug, Clone)]
pub enum Input {
    /// The standard input.
    StdIn,
    /// The file at this path.
    File(String),
}

/// The name of the standard input, as five characters.
pub open spec fn stdin_name() -> Seq<char> {
    seq!['S', 'T', 'D', 'I', 'N']
}

impl Input {
    /// Whether an argument names the standard input: it is `-` or `STDIN`.
    pub open spec fn names_stdin(s: Seq<char>) -> bool {
        s == seq!['-'] || s == stdin_name()
    }

    /// Reads the source from an argument. `-` and `STDIN` name the standard
    /// input; any other argument is the path of a file.
    pub fn from_str(s: &str) -> (r: Result<Input, RoaError>)
        ensures
            match r {
                Ok(Input::StdIn) => Input::names_stdin(s@),
                Ok(Input::File(path)) => !Input::names_stdin(s@) && path@ == s@,
                Err(_) => false,
            },
    {
        let n: usize = s.unicode_len();
        let dash: bool = n == 1 && s.get_char(0) == '-';
        let name: bool = n == 5 && s.get_char(0) == 'S' && s.get_char(1) == 'T' && s.get_char(2)
            == 'D' && s.get_char(3) == 'I' && s.get_char(4) == 'N';
        proof {
            if dash {
                assert(s@ =~= seq!['-']);
            }
            if name {
                assert(s@ =~= stdin_name());
            }
        }
        if dash || name {
            Ok(Input::StdIn)
        } else {
            Ok(Input::File(String::from_str(s)))
        }
    }

    /// The argument that names the source: `STDIN`, or the path of the file.
    pub fn to_string(&self) -> (text: String)
        ensures
            match self {
                Input::StdIn => text@ == stdin_name(),
                Input::File(path) => text@ == path@,
            },
    {
        match self {
            Input::StdIn => {
                proof {
                    reveal_strlit("STDIN");
                    assert("STDIN"@ =~= stdin_name());
                }
                String::from_str("STDIN")
            },
            Input::File(path) => path.clone(),
        }
    }
}

impl core::str::FromStr for Input {
    type Err = RoaError;

    /// Reads the source from an argument, as the function of the same name
    /// of the type does.
    fn from_str(s: &str) -> (r: Result<Input, RoaError>)
        ensures
            match r {
                Ok(Input::StdIn) => Input::names_stdin(s@),
                Ok(Input::File(path)) => !Input::names_stdin(s@) && path@ == s@,
                Err(_) => false,
            },
    {
        Input::from_str(s)
    }
}

} // verus!
