pub mod conformance;
pub mod contract;
pub mod copybook;
pub mod laws;
pub mod text;

use vstd::prelude::*;
use vstd::string::StringSliceAdditionalSpecFns;
use vstd::utf8::{decode_utf8, encode_utf8_decode_utf8, valid_utf8};

use crate::conformance::{check_record, conformance, records_issues, records_of};
use crate::contract::{
    issues_view, ContractDescriptor, ContractError, ContractId, SpecIssue, ValidationIssue,
    ValidationResult,
};
use crate::copybook::{layout_of, refused, Layout, SpecLayout};
use crate::text::{
    chars_of, decimal, decimal_of, extend, string_of, trim, trimmed, utf8_error_text, utf8_text,
    utf8_error_message, utf8_valid_up_to, valid_prefix, Utf8Failure,
};

verus! {

/// The fixed-width contract as the model sees it: its identifier, and the
/// layout bound, if any.
pub struct SpecFixedWidth {
    pub id: Seq<char>,
    pub layout: Option<SpecLayout>,
}

/// The fixed-width contract, bare or bound to a layout.
pub struct FixedWidth {
    descriptor: ContractDescriptor,
    layout: Option<Layout>,
}

impl View for FixedWidth {
    type V = SpecFixedWidth;

    closed spec fn view(&self) -> SpecFixedWidth {
        SpecFixedWidth {
            id: self.descriptor.id.0@,
            layout: match self.layout {
                Some(l) => Some(l@),
                None => None,
            },
        }
    }
}

/// The descriptor of the contract named `id`.
fn descriptor(id: &[char]) -> (d: ContractDescriptor)
    ensures
        d.id.0@ == id@,
        d.version@ == "1"@,
        d.representation@ == "text/plain"@,
{
    ContractDescriptor {
        id: ContractId(string_of(id)),
        version: "1".to_owned(),
        representation: "text/plain".to_owned(),
    }
}

/// The issue a text that is not UTF-8 gets, given what the decoding error
/// says and how many bytes were valid before it.
pub fn malformed_issue(detail: &str, valid_up_to: usize) -> (i: ValidationIssue)
    ensures
        i@ == (SpecIssue {
            code: "malformed"@,
            message: "not UTF-8 text: "@ + detail@,
            path: Some("byte "@ + decimal(valid_up_to as nat)),
        }),
{
    let mut message = chars_of("not UTF-8 text: ");
    extend(&mut message, chars_of(detail).as_slice());
    let mut path = chars_of("byte ");
    extend(&mut path, decimal_of(valid_up_to).as_slice());
    let m = string_of(message.as_slice());
    let p = string_of(path.as_slice());
    ValidationIssue::at("malformed", m.as_str(), p.as_str())
}

/// The issue the failed decoding `e` gets.
fn malformed(e: &Utf8Failure) -> (i: ValidationIssue)
    ensures
        i@.code == "malformed"@,
        i@.message == "not UTF-8 text: "@ + utf8_error_message(e.input()),
        i@.path matches Some(p) && exists|n: nat|
            valid_prefix(e.input(), n) && p == "byte "@ + decimal(n),
{
    let detail = utf8_error_text(e);
    let at = utf8_valid_up_to(e);
    malformed_issue(detail.as_str(), at)
}

impl FixedWidth {
    /// Every fixed-width contract is version 1 and reads plain text.
    #[verifier::type_invariant]
    spec fn described(self) -> bool {
        &&& self.descriptor.version@ == "1"@
        &&& self.descriptor.representation@ == "text/plain"@
    }

    /// Text only.
    pub fn new() -> (r: Self)
        ensures
            r@.id == "fixed-width"@,
            r@.layout is None,
    {
        FixedWidth { descriptor: descriptor(chars_of("fixed-width").as_slice()), layout: None }
    }

    /// Text laid out by the copybook `text`.
    ///
    /// # Errors
    /// The copybook must be within the subset [`copybook`] documents.
    pub fn with_copybook(text: &str) -> (r: Result<Self, ContractError>)
        ensures
            match r {
                Ok(bound) => layout_of(text@) matches Ok(l) && bound@.layout == Some(l)
                    && bound@.id == "fixed-width:"@ + l.record_name,
                Err(e) => refused(e, layout_of(text@)),
            },
    {
        let layout = match Layout::parse(text) {
            Ok(l) => l,
            Err(e) => {
                return Err(e);
            },
        };
        let mut id = chars_of("fixed-width:");
        extend(&mut id, chars_of(layout.record_name()).as_slice());
        Ok(FixedWidth { descriptor: descriptor(id.as_slice()), layout: Some(layout) })
    }

    /// Whether a layout is bound.
    pub fn is_bound(&self) -> (r: bool)
        ensures
            r == self@.layout is Some,
    {
        self.layout.is_some()
    }

    /// What this contract is.
    pub fn descriptor(&self) -> (r: &ContractDescriptor)
        ensures
            r.id.0@ == self@.id,
            r.version@ == "1"@,
            r.representation@ == "text/plain"@,
    {
        proof {
            use_type_invariant(self);
        }
        &self.descriptor
    }

    /// Whether the contract claims the bytes: whether they are text. A layout
    /// narrows nothing here, so a wrong-length file is reported by `validate`
    /// rather than silently unclaimed.
    pub fn identify(&self, bytes: &[u8]) -> (r: Result<bool, ContractError>)
        ensures
            r == Ok::<bool, ContractError>(valid_utf8(bytes@)),
    {
        Ok(utf8_text(bytes).is_ok())
    }

    /// Holds the bytes to the contract: text that is not UTF-8 gets one
    /// `malformed` issue; text held to a bound layout gets an issue for every
    /// record of another length and for every field value that departs from
    /// its picture, in record order.
    pub fn validate(&self, bytes: &[u8]) -> (r: Result<ValidationResult, ContractError>)
        ensures
            r matches Ok(result) && {
                &&& result.valid == (result.issues@.len() == 0)
                &&& valid_utf8(bytes@) ==> issues_view(result.issues@) == conformance(
                    self@.layout,
                    decode_utf8(bytes@),
                )
                &&& !valid_utf8(bytes@) ==> {
                    &&& result.issues@.len() == 1
                    &&& result.issues@[0]@.code == "malformed"@
                    &&& result.issues@[0]@.message == "not UTF-8 text: "@ + utf8_error_message(
                        bytes@,
                    )
                    &&& result.issues@[0]@.path matches Some(p) && exists|n: nat|
                        valid_prefix(bytes@, n) && p == "byte "@ + decimal(n)
                }
            },
    {
        let text = match utf8_text(bytes) {
            Ok(text) => text,
            Err(error) => {
                let mut issues: Vec<ValidationIssue> = Vec::new();
                issues.push(malformed(&error));
                return Ok(ValidationResult::of(issues));
            },
        };
        proof {
            encode_utf8_decode_utf8(text@);
        }
        let layout = match &self.layout {
            Some(l) => l,
            None => {
                let issues: Vec<ValidationIssue> = Vec::new();
                assert(issues_view(issues@) =~= Seq::<SpecIssue>::empty());
                return Ok(ValidationResult::of(issues));
            },
        };
        let chars = chars_of(text);
        let recs = records_of(chars.as_slice(), layout.record_length());
        let ghost rv = recs.deep_view();
        let mut issues: Vec<ValidationIssue> = Vec::new();
        let n = recs.len();
        assert(rv.take(0) =~= Seq::<Seq<char>>::empty());
        assert(issues_view(issues@) =~= Seq::<SpecIssue>::empty());
        for k in 0..n
            invariant
                n == rv.len(),
                rv == recs.deep_view(),
                issues_view(issues@) == records_issues(layout@, rv.take(k as int)),
        {
            assert(recs@[k as int].deep_view() =~= recs@[k as int]@);
            let ghost before = issues_view(issues@);
            check_record(layout, recs[k].as_slice(), k + 1, &mut issues);
            assert(rv.take(k + 1).drop_last() =~= rv.take(k as int));
            assert(rv.take(k + 1).last() == rv[k as int]);
        }
        assert(rv.take(n as int) =~= rv);
        Ok(ValidationResult::of(issues))
    }
}

impl Default for FixedWidth {
    fn default() -> (r: Self)
        ensures
            r@.id == "fixed-width"@,
            r@.layout is None,
    {
        Self::new()
    }
}

/// Loads the contract a Location names: an empty reference is the bare
/// contract, anything else is the path of a copybook file, which the caller
/// reads.
pub struct FixedWidthFactory;

impl FixedWidthFactory {
    /// The technology this factory loads.
    pub fn technology(&self) -> (r: &'static str)
        ensures
            r@ == "fixed-width"@,
    {
        "fixed-width"
    }

    /// Whether a reference names the bare contract: it is blank.
    pub fn is_bare(reference: &str) -> (r: bool)
        ensures
            r == (trim(reference@).len() == 0),
    {
        let c = chars_of(reference);
        trimmed(c.as_slice()).len() == 0
    }

    /// The contract a reference loads, given the copybook text read from it
    /// when it is not bare.
    ///
    /// # Errors
    /// The copybook must be within the subset [`copybook`] documents.
    pub fn load_text(&self, reference: &str, text: &str) -> (r: Result<FixedWidth, ContractError>)
        ensures
            trim(reference@).len() == 0 ==> (r matches Ok(bare) && bare@.id == "fixed-width"@
                && bare@.layout is None),
            trim(reference@).len() != 0 ==> match r {
                Ok(bound) => layout_of(text@) matches Ok(l) && bound@.layout == Some(l)
                    && bound@.id == "fixed-width:"@ + l.record_name,
                Err(e) => refused(e, layout_of(text@)),
            },
    {
        if Self::is_bare(reference) {
            Ok(FixedWidth::new())
        } else {
            FixedWidth::with_copybook(text)
        }
    }

    /// The refusal for a copybook file that could not be read.
    pub fn unreadable(reference: &str, error: &str) -> (e: ContractError)
        ensures
            e.message@ == "cannot read copybook "@ + reference@ + ": "@ + error@,
    {
        let mut m = chars_of("cannot read copybook ");
        extend(&mut m, chars_of(reference).as_slice());
        extend(&mut m, chars_of(": ").as_slice());
        extend(&mut m, chars_of(error).as_slice());
        ContractError { message: string_of(m.as_slice()) }
    }
}

} // verus!
