//! Holding text to a layout: the records a text is cut into, and the
//! departures of each record from the layout, by length and by field.
use vstd::prelude::*;

use crate::contract::{issues_view, SpecIssue, ValidationIssue};
use crate::copybook::{fields_view, Field, Layout, SpecField, SpecLayout};
use crate::laws::within;
use crate::text::{
    chars_of, copy_of, debug_text, debug_text_of, decimal, decimal_of, extend, is_digit,
    keep_non_empty, lines, lines_of, non_empty, slice_of, string_of, strip_cr, trim, trimmed,
    without_cr,
};

verus! {

// ---------------------------------------------------------------------------
// Records
// ---------------------------------------------------------------------------

/// `text` cut into consecutive slices of `length` characters, the last one
/// shorter when the text runs out. A length of zero cuts one empty record per
/// character.
pub open spec fn slices(text: Seq<char>, length: nat) -> Seq<Seq<char>>
    decreases text.len(),
{
    if text.len() == 0 {
        Seq::<Seq<char>>::empty()
    } else {
        let first = text.take(
            if length < text.len() {
                length as int
            } else {
                text.len() as int
            },
        );
        let step: nat = if length == 0 {
            1
        } else {
            length
        };
        if step >= text.len() {
            seq![first]
        } else {
            seq![first] + slices(text.skip(step as int), length)
        }
    }
}

/// The records of a text: its non-empty lines, without a trailing carriage
/// return, when it has line breaks; else consecutive slices of the record
/// length.
pub open spec fn records(text: Seq<char>, length: nat) -> Seq<Seq<char>> {
    if text.contains('\n') {
        non_empty(lines(text).map_values(|l: Seq<char>| strip_cr(l)))
    } else {
        slices(text, length)
    }
}

fn has_line_break(text: &[char]) -> (b: bool)
    ensures
        b == text@.contains('\n'),
{
    let n = text.len();
    for i in 0..n
        invariant
            n == text@.len(),
            forall|j: int| 0 <= j < i ==> text@[j] != '\n',
    {
        if text[i] == '\n' {
            assert(text@[i as int] == '\n');
            return true;
        }
    }
    false
}

fn slices_of(text: &[char], length: usize) -> (r: Vec<Vec<char>>)
    ensures
        r.deep_view() == slices(text@, length as nat),
{
    let n = text.len();
    let step: usize = if length == 0 {
        1
    } else {
        length
    };
    let mut out: Vec<Vec<char>> = Vec::new();
    let mut start: usize = 0;
    assert(text@.skip(0) =~= text@);
    assert(out.deep_view() + slices(text@.skip(0), length as nat) =~= slices(text@, length as nat));
    while start < n
        invariant
            n == text@.len(),
            start <= n,
            step == (if length == 0 {
                1
            } else {
                length
            }),
            out.deep_view() + slices(text@.skip(start as int), length as nat) == slices(
                text@,
                length as nat,
            ),
        decreases n - start,
    {
        let ghost rest = text@.skip(start as int);
        let end = if length < n - start {
            start + length
        } else {
            n
        };
        let record = slice_of(text, start, end);
        assert(record@ =~= rest.take(
            if length < rest.len() {
                length as int
            } else {
                rest.len() as int
            },
        ));
        let ghost before = out.deep_view();
        assert(record.deep_view() =~= record@);
        out.push(record);
        assert(out.deep_view() =~= before.push(record@));
        if step >= n - start {
            assert(slices(rest, length as nat) == seq![record@]);
            assert(text@.skip(n as int) =~= Seq::<char>::empty());
            assert(out.deep_view() + slices(text@.skip(n as int), length as nat) =~= before + seq![
                record@,
            ]);
            start = n;
        } else {
            assert(rest.skip(step as int) =~= text@.skip(start + step));
            assert(before + slices(rest, length as nat) =~= before.push(record@) + slices(
                text@.skip(start + step),
                length as nat,
            ));
            start = start + step;
        }
    }
    assert(text@.skip(start as int) =~= Seq::<char>::empty());
    assert(out.deep_view() + Seq::<Seq<char>>::empty() =~= out.deep_view());
    out
}

/// The records of a text.
pub fn records_of(text: &[char], length: usize) -> (r: Vec<Vec<char>>)
    ensures
        r.deep_view() == records(text@, length as nat),
{
    if has_line_break(text) {
        let ls = lines_of(text);
        let ghost lv = ls.deep_view();
        let mut stripped: Vec<Vec<char>> = Vec::new();
        let n = ls.len();
        for i in 0..n
            invariant
                n == lv.len(),
                ls.deep_view() == lv,
                stripped.deep_view() =~= lv.take(i as int).map_values(
                    |l: Seq<char>| strip_cr(l),
                ),
        {
            assert(ls@[i as int].deep_view() =~= ls@[i as int]@);
            let l = without_cr(copy_of(ls[i].as_slice()));
            let ghost before = stripped.deep_view();
            assert(l.deep_view() =~= l@);
            stripped.push(l);
            assert(stripped.deep_view() =~= before.push(strip_cr(lv[i as int])));
            assert(lv.take(i + 1) =~= lv.take(i as int).push(lv[i as int]));
        }
        assert(lv.take(n as int) =~= lv);
        keep_non_empty(stripped)
    } else {
        slices_of(text, length)
    }
}

// ---------------------------------------------------------------------------
// Departures
// ---------------------------------------------------------------------------

pub open spec fn is_sign(c: char) -> bool {
    c == '+' || c == '-'
}

/// `s` without its leading signs.
pub open spec fn trim_start_signs(s: Seq<char>) -> Seq<char>
    decreases s.len(),
{
    if s.len() > 0 && is_sign(s[0]) {
        trim_start_signs(s.drop_first())
    } else {
        s
    }
}

/// `s` without its trailing signs.
pub open spec fn trim_end_signs(s: Seq<char>) -> Seq<char>
    decreases s.len(),
{
    if s.len() > 0 && is_sign(s.last()) {
        trim_end_signs(s.drop_last())
    } else {
        s
    }
}

/// A digit, a decimal point or a comma.
pub open spec fn is_numeral(c: char) -> bool {
    is_digit(c) || c == '.' || c == ','
}

/// Why a value does not fit its field, or `None` when it does. Only numeric
/// fields are checked, and a blank value always fits (an unused occurrence
/// is blank). A numeric value carries at most one sign, at either end, and
/// only when the picture is signed; the rest is digits, points and commas.
pub open spec fn departure(field: SpecField, value: Seq<char>) -> Option<Seq<char>> {
    if !field.numeric {
        None
    } else {
        let trimmed = trim(value);
        if trimmed.len() == 0 {
            None
        } else {
            let digits = trim_end_signs(trim_start_signs(trimmed));
            let signs = trimmed.len() - digits.len();
            if signs > 1 || (signs == 1 && !field.signed) {
                Some(debug_text(trimmed) + " carries a sign the picture does not"@)
            } else if !(forall|i: int| 0 <= i < digits.len() ==> is_numeral(#[trigger] digits[i])) {
                Some(debug_text(trimmed) + " is not numeric"@)
            } else {
                None
            }
        }
    }
}

proof fn lemma_trim_start_signs_len(s: Seq<char>)
    ensures
        trim_start_signs(s).len() <= s.len(),
    decreases s.len(),
{
    if s.len() > 0 && is_sign(s[0]) {
        lemma_trim_start_signs_len(s.drop_first());
    }
}

proof fn lemma_trim_end_signs_len(s: Seq<char>)
    ensures
        trim_end_signs(s).len() <= s.len(),
    decreases s.len(),
{
    if s.len() > 0 && is_sign(s.last()) {
        lemma_trim_end_signs_len(s.drop_last());
    }
}

fn numerals(s: &[char]) -> (b: bool)
    ensures
        b == forall|q: int| 0 <= q < s@.len() ==> is_numeral(#[trigger] s@[q]),
{
    let d = s.len();
    for k in 0..d
        invariant
            d == s@.len(),
            forall|q: int| 0 <= q < k ==> is_numeral(#[trigger] s@[q]),
    {
        let c = s[k];
        if !((c >= '0' && c <= '9') || c == '.' || c == ',') {
            assert(!is_numeral(s@[k as int]));
            return false;
        }
    }
    true
}

/// Why `value` does not fit `field`, or `None`.
pub fn departure_of(field: &Field, value: &[char]) -> (r: Option<Vec<char>>)
    ensures
        match r {
            Some(m) => departure(field@, value@) == Some(m@),
            None => departure(field@, value@) is None,
        },
{
    if !field.numeric {
        return None;
    }
    let t = trimmed(value);
    if t.len() == 0 {
        return None;
    }
    let n = t.len();
    let mut i: usize = 0;
    assert(t@.skip(0) =~= t@);
    while i < n && (t[i] == '+' || t[i] == '-')
        invariant
            n == t@.len(),
            i <= n,
            trim_start_signs(t@) == trim_start_signs(t@.skip(i as int)),
        decreases n - i,
    {
        assert(t@.skip(i as int).drop_first() =~= t@.skip(i + 1));
        i = i + 1;
    }
    let ghost front = t@.skip(i as int);
    let mut j: usize = n;
    assert(front.take(front.len() as int) =~= front);
    while j > i && (t[j - 1] == '+' || t[j - 1] == '-')
        invariant
            n == t@.len(),
            i <= j <= n,
            front == t@.skip(i as int),
            trim_end_signs(front) == trim_end_signs(front.take(j - i)),
        decreases j,
    {
        assert(front.take(j - i).drop_last() =~= front.take(j - 1 - i));
        assert(front.take(j - i).last() == t@[j - 1]);
        j = j - 1;
    }
    let digits = slice_of(t.as_slice(), i, j);
    assert(digits@ =~= front.take(j - i));
    let signs = n - digits.len();
    if signs > 1 || (signs == 1 && !field.signed) {
        let mut m = debug_text_of(t.as_slice());
        extend(&mut m, chars_of(" carries a sign the picture does not").as_slice());
        return Some(m);
    }
    if !numerals(digits.as_slice()) {
        let mut m = debug_text_of(t.as_slice());
        extend(&mut m, chars_of(" is not numeric").as_slice());
        return Some(m);
    }
    None
}

// ---------------------------------------------------------------------------
// Record issues
// ---------------------------------------------------------------------------

/// Where a record is: `record 3`.
pub open spec fn record_path(ordinal: nat) -> Seq<char> {
    "record "@ + decimal(ordinal)
}

/// The departures of `record` from `fields`, in field order, each naming the
/// record and the field.
pub open spec fn field_issues(fields: Seq<SpecField>, record: Seq<char>, at: Seq<char>) -> Seq<
    SpecIssue,
>
    decreases fields.len(),
{
    if fields.len() == 0 {
        Seq::<SpecIssue>::empty()
    } else {
        let field = fields.last();
        let earlier = field_issues(fields.drop_last(), record, at);
        match departure(field, record.subrange(field.offset as int, (field.offset + field.length) as int)) {
            None => earlier,
            Some(message) => earlier.push(
                SpecIssue { code: "value"@, message, path: Some(at + " / "@ + field.name) },
            ),
        }
    }
}

/// The issues of the `ordinal`-th record: one for a length other than the
/// layout's, else one for each field whose value departs.
pub open spec fn record_issues(layout: SpecLayout, record: Seq<char>, ordinal: nat) -> Seq<
    SpecIssue,
> {
    if record.len() != layout.record_length {
        seq![
            SpecIssue {
                code: "length"@,
                message: "is "@ + decimal(record.len()) + " characters, the layout is "@ + decimal(
                    layout.record_length,
                ),
                path: Some(record_path(ordinal)),
            },
        ]
    } else {
        field_issues(layout.fields, record, record_path(ordinal))
    }
}

/// The issues of the records `recs`, numbered from 1, in order.
pub open spec fn records_issues(layout: SpecLayout, recs: Seq<Seq<char>>) -> Seq<SpecIssue>
    decreases recs.len(),
{
    if recs.len() == 0 {
        Seq::<SpecIssue>::empty()
    } else {
        records_issues(layout, recs.drop_last()) + record_issues(layout, recs.last(), recs.len())
    }
}

/// The issues of a text held to a layout, or none when no layout is bound.
pub open spec fn conformance(layout: Option<SpecLayout>, text: Seq<char>) -> Seq<SpecIssue> {
    match layout {
        None => Seq::<SpecIssue>::empty(),
        Some(l) => records_issues(l, records(text, l.record_length)),
    }
}

fn issue(code: &str, message: &[char], path: &[char]) -> (r: ValidationIssue)
    ensures
        r@ == (SpecIssue { code: code@, message: message@, path: Some(path@) }),
{
    let m = string_of(message);
    let p = string_of(path);
    ValidationIssue::at(code, m.as_str(), p.as_str())
}

/// Holds one record, the `ordinal`-th, to the layout, appending its issues.
pub fn check_record(
    layout: &Layout,
    record: &[char],
    ordinal: usize,
    out: &mut Vec<ValidationIssue>,
)
    ensures
        issues_view(final(out)@) == issues_view(old(out)@) + record_issues(
            layout@,
            record@,
            ordinal as nat,
        ),
{
    let mut at = chars_of("record ");
    extend(&mut at, decimal_of(ordinal).as_slice());
    let ghost out0 = issues_view(out@);
    let length = layout.record_length();
    if record.len() != length {
        let mut message = chars_of("is ");
        extend(&mut message, decimal_of(record.len()).as_slice());
        extend(&mut message, chars_of(" characters, the layout is ").as_slice());
        extend(&mut message, decimal_of(length).as_slice());
        let i = issue("length", message.as_slice(), at.as_slice());
        out.push(i);
        assert(issues_view(out@) =~= out0 + seq![i@]);
        return;
    }
    let fields = layout.fields();
    let ghost fv = fields_view(fields@);
    let n = fields.len();
    assert(fv.take(0) =~= Seq::<SpecField>::empty());
    assert(issues_view(out@) =~= out0 + Seq::<SpecIssue>::empty());
    for i in 0..n
        invariant
            n == fv.len(),
            fv == fields_view(fields@),
            fv == layout@.fields,
            within(fv, 0, length as int),
            record@.len() == length,
            at@ == record_path(ordinal as nat),
            issues_view(out@) == out0 + field_issues(fv.take(i as int), record@, at@),
    {
        let field = &fields[i];
        assert(fv[i as int] == field@);
        assert(field.offset + field.length <= length);
        let value = slice_of(record, field.offset, field.offset + field.length);
        assert(fv.take(i + 1).drop_last() =~= fv.take(i as int));
        assert(fv.take(i + 1).last() == field@);
        let ghost before = issues_view(out@);
        match departure_of(field, value.as_slice()) {
            Some(message) => {
                let mut path = copy_of(at.as_slice());
                extend(&mut path, chars_of(" / ").as_slice());
                extend(&mut path, chars_of(field.name.as_str()).as_slice());
                let it = issue("value", message.as_slice(), path.as_slice());
                out.push(it);
                assert(issues_view(out@) =~= before.push(it@));
            },
            None => {},
        }
    }
    assert(fv.take(n as int) =~= fv);
}

} // verus!
