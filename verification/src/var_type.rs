//! The built-in data types of the language.
use vstd::prelude::*;
use vstd::string::StringExecFns;

verus! {

/// The two built-in data types of the language.
#[derive(Debug, Clone, Copy, PartialEq, Eq, Structural)]
pub enum VarType {
    INTEGER,
    REAL,
}

impl VarType {
    /// The reserved word that denotes this type in source text.
    pub open spec fn spec_name(self) -> Seq<char> {
        match self {
            VarType::INTEGER => "INTEGER"@,
            VarType::REAL => "REAL"@,
        }
    }

    /// The reserved word that denotes this type in source text.
    pub fn name(&self) -> (r: String)
        ensures
            r@ == self.spec_name(),
    {
        match self {
            VarType::INTEGER => String::from_str("INTEGER"),
            VarType::REAL => String::from_str("REAL"),
        }
    }
}

} // verus!
