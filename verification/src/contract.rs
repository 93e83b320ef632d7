//! The contract vocabulary this library reports in: a refusal, a contract's
//! descriptor, and the issues a validation finds.
use vstd::prelude::*;

verus! {

/// Why a contract could not be built or applied.
#[derive(Debug)]
pub struct ContractError {
    pub message: String,
}

/// A contract's identifier.
#[derive(Debug)]
pub struct ContractId(pub String);

/// What a contract is: its identifier, version and the representation it reads.
#[derive(Debug)]
pub struct ContractDescriptor {
    pub id: ContractId,
    pub version: String,
    pub representation: String,
}


/// An issue as the model sees it: a code, a message, and where it was found.
pub struct SpecIssue {
    pub code: Seq<char>,
    pub message: Seq<char>,
    pub path: Option<Seq<char>>,
}

/// One departure a validation found.
#[derive(Debug)]
pub struct ValidationIssue {
    pub code: String,
    pub message: String,
    pub path: Option<String>,
}

impl View for ValidationIssue {
    type V = SpecIssue;

    open spec fn view(&self) -> SpecIssue {
        SpecIssue {
            code: self.code@,
            message: self.message@,
            path: match self.path {
                Some(p) => Some(p@),
                None => None,
            },
        }
    }
}

impl ValidationIssue {
    /// An issue with a code and message, found at `path`.
    pub fn at(code: &str, message: &str, path: &str) -> (r: Self)
        ensures
            r@ == (SpecIssue { code: code@, message: message@, path: Some(path@) }),
    {
        ValidationIssue {
            code: code.to_owned(),
            message: message.to_owned(),
            path: Some(path.to_owned()),
        }
    }
}

/// The issues `v` as the model sees them.
pub open spec fn issues_view(v: Seq<ValidationIssue>) -> Seq<SpecIssue> {
    v.map_values(|i: ValidationIssue| i@)
}

/// What a validation found: the issues, and whether there were none.
#[derive(Debug)]
pub struct ValidationResult {
    pub valid: bool,
    pub issues: Vec<ValidationIssue>,
}

impl ValidationResult {
    /// The result that reports `issues`: valid exactly when there are none.
    pub fn of(issues: Vec<ValidationIssue>) -> (r: Self)
        ensures
            r.valid == (issues@.len() == 0),
            r.issues@ == issues@,
    {
        let valid = issues.len() == 0;
        ValidationResult { valid, issues }
    }
}

} // verus!
