use vstd::prelude::*;

pub mod decimal;
pub mod digits;
pub mod errors;
pub mod fields;
pub mod parser;
pub mod types;
pub mod validator;

verus! {

/// Usage text shown by the command-line front end.
pub fn help_message() -> (s: String) {
    " \nThe options are as follow : \n        -f <path>       The path for a file of tickets to parse and load\n                        to database\n\n        --initial       Restart the entire database\n                        drop database, and cretate it again, used this\n                        option when you use the tool for first time.\n    ".to_owned()
}

} // verus!
