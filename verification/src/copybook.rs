//! The COBOL copybook subset this contract binds, and the record layout it
//! becomes.
//!
//! Read: level numbers 01 to 49 and 77; group items and elementary items;
//! `PIC` / `PICTURE` with `X`, `A`, `9`, `S`, `V`, `Z`, `*`, `-`, `+`, `.`,
//! `,` and `(n)` repeats; `OCCURS n TIMES`; `REDEFINES`, which shares its
//! target's offset; `FILLER`; `USAGE DISPLAY`; `VALUE` and `JUSTIFIED`,
//! ignored; level 88 condition names and level 66 renames, ignored; `*`
//! comment lines; the six-column sequence area of fixed-format source. A
//! statement ends at a full stop, but for one within a picture string that
//! more of the string follows, as in `PIC ZZ9.99.`
//!
//! Refused, by name: `USAGE` other than `DISPLAY` (`COMP`, `COMP-3`,
//! `BINARY`, `PACKED-DECIMAL`), because those fields are not text; `OCCURS
//! DEPENDING ON`, `SIGN SEPARATE`, and `COPY` inside a copybook; any other
//! level, picture symbol or clause word. A layout whose offsets do not fit
//! in a `usize` is refused as well.
//!
//! A field's name in an issue is its own name, with the occurrence when it
//! repeats: `ORDER-LINE(2).QTY`.
use vstd::prelude::*;

use crate::contract::ContractError;
use crate::laws::{lemma_fields_within_record, lemma_lay_out_bounds, lemma_lay_out_next, within};
use crate::text::{
    chars_of, copy_of, decimal, decimal_of, digit, is_digit, is_space, keep_non_empty, lines, lines_of, non_empty, same,
    skip_blanks, space, to_upper_all, trim_start, upper_all, words, words_of, debug_char, debug_char_of, debug_text, debug_text_of, extend,
    parse_unsigned, parse_unsigned_of, slice_of, string_of, to_upper, trim, trimmed, upper,
};

verus! {

// ---------------------------------------------------------------------------
// The model
// ---------------------------------------------------------------------------

/// A data item as the copybook declares it.
pub struct SpecItem {
    pub level: nat,
    pub name: Seq<char>,
    pub picture: Option<Seq<char>>,
    pub occurs: nat,
    pub redefines: Option<Seq<char>>,
}

/// An elementary field: where it lies in the record and what it holds.
pub struct SpecField {
    pub name: Seq<char>,
    pub offset: nat,
    pub length: nat,
    pub numeric: bool,
    pub signed: bool,
}

/// A record layout: the record's name, its length, and its fields in the
/// order the copybook declares them.
pub struct SpecLayout {
    pub record_name: Seq<char>,
    pub record_length: nat,
    pub fields: Seq<SpecField>,
}

/// Why a copybook is refused.
pub enum Refusal {
    NoDataItem,
    UnknownRedefines { name: Seq<char>, target: Seq<char> },
    BadRepeat { picture: Seq<char> },
    UnsupportedSymbol { symbol: char },
    CannotRead { statement: Seq<char> },
    CannotReadLevel { statement: Seq<char> },
    Level { level: Seq<char> },
    Clause { word: Seq<char>, name: Seq<char> },
    PicWithoutPicture,
    PicIsWithoutPicture,
    OccursWithoutCount,
    NotACount { count: Seq<char> },
    DependingOn,
    RedefinesWithoutName,
    Usage { word: Seq<char>, name: Seq<char> },
    SignSeparate,
    CopyInside,
    TooLarge,
}

/// The reason a refusal gives.
pub open spec fn reason(r: Refusal) -> Seq<char> {
    match r {
        Refusal::NoDataItem => "no data item"@,
        Refusal::UnknownRedefines { name, target } => name + " REDEFINES unknown "@ + target,
        Refusal::BadRepeat { picture } => "picture "@ + debug_text(picture) + " has a bad repeat"@,
        Refusal::UnsupportedSymbol { symbol } => "picture symbol "@ + debug_char(symbol)
            + " is not supported"@,
        Refusal::CannotRead { statement } => "cannot read "@ + debug_text(statement),
        Refusal::CannotReadLevel { statement } => "cannot read level in "@ + debug_text(
            statement,
        ),
        Refusal::Level { level } => "level "@ + level + " is not supported"@,
        Refusal::Clause { word, name } => word + " in "@ + name + " is not supported"@,
        Refusal::PicWithoutPicture => "PIC without a picture"@,
        Refusal::PicIsWithoutPicture => "PIC IS without a picture"@,
        Refusal::OccursWithoutCount => "OCCURS without a count"@,
        Refusal::NotACount { count } => "OCCURS "@ + count + " is not a count"@,
        Refusal::DependingOn => "OCCURS DEPENDING ON is not supported"@,
        Refusal::RedefinesWithoutName => "REDEFINES without a name"@,
        Refusal::Usage { word, name } => word + " in "@ + name + ": only DISPLAY usage is text"@,
        Refusal::SignSeparate => "SIGN SEPARATE is not supported"@,
        Refusal::CopyInside => "COPY inside a copybook is not supported"@,
        Refusal::TooLarge => "the layout does not fit in memory"@,
    }
}

/// The message a refusal carries.
pub open spec fn refusal_message(r: Refusal) -> Seq<char> {
    "copybook refused: "@ + reason(r)
}

/// Whether `e` is the refusal the outcome `s` names, carrying its message.
pub open spec fn refused<T>(e: ContractError, s: Result<T, Refusal>) -> bool {
    s matches Err(why) && e.message@ == refusal_message(why)
}

/// The refusal whose reason reads `reason`.
fn refuse(reason: Vec<char>) -> (e: ContractError)
    ensures
        e.message@ == "copybook refused: "@ + reason@,
{
    let mut m = chars_of("copybook refused: ");
    extend(&mut m, reason.as_slice());
    ContractError { message: string_of(m.as_slice()) }
}

/// The characters of `a`, then `b`, then `c`.
fn join3(a: &[char], b: &[char], c: &[char]) -> (r: Vec<char>)
    ensures
        r@ == a@ + b@ + c@,
{
    let mut r = copy_of(a);
    extend(&mut r, b);
    extend(&mut r, c);
    r
}

fn too_large() -> (e: ContractError)
    ensures
        e.message@ == refusal_message(Refusal::TooLarge),
{
    refuse(chars_of("the layout does not fit in memory"))
}

// ---------------------------------------------------------------------------
// Pictures
// ---------------------------------------------------------------------------

/// The first `)` at or after `from`, or the end of `p`.
pub open spec fn close_paren(p: Seq<char>, from: nat) -> nat
    decreases p.len() - from,
{
    if from >= p.len() {
        p.len()
    } else if p[from as int] == ')' {
        from
    } else {
        close_paren(p, from + 1)
    }
}

/// The symbols that take storage and keep a picture numeric.
pub open spec fn is_numeric_symbol(u: char) -> bool {
    u == '9' || u == 'Z' || u == '*' || u == '.' || u == ',' || u == '-' || u == '+'
}

/// Reads `picture` from position `i` on, with the storage length, numeric
/// and signed flags found so far. A symbol followed by `(n)` counts `n`
/// times; the repeat runs to the next `)` or the end, and is read blank-trimmed.
pub open spec fn measure_from(
    picture: Seq<char>,
    i: nat,
    length: nat,
    numeric: bool,
    signed: bool,
) -> Result<(nat, bool, bool), Refusal>
    decreases picture.len() - i,
{
    if i >= picture.len() {
        Ok((length, numeric, signed))
    } else {
        let grouped = i + 1 < picture.len() && picture[i + 1 as int] == '(';
        let close = close_paren(picture, i + 2);
        let repeat = if grouped {
            parse_unsigned(trim(picture.subrange(i + 2 as int, close as int)), usize::MAX as nat)
        } else {
            Some(1nat)
        };
        let next: nat = if grouped {
            if close < picture.len() {
                close + 1
            } else {
                picture.len()
            }
        } else {
            i + 1
        };
        proof {
            lemma_close_paren(picture, i + 2);
        }
        match repeat {
            None => Err(Refusal::BadRepeat { picture }),
            Some(r) => {
                let u = upper(picture[i as int]);
                if u == 'X' || u == 'A' {
                    if length + r > usize::MAX {
                        Err(Refusal::TooLarge)
                    } else {
                        measure_from(picture, next, length + r, false, signed)
                    }
                } else if is_numeric_symbol(u) {
                    if length + r > usize::MAX {
                        Err(Refusal::TooLarge)
                    } else {
                        measure_from(picture, next, length + r, numeric, signed)
                    }
                } else if u == 'S' {
                    measure_from(picture, next, length, numeric, true)
                } else if u == 'V' {
                    measure_from(picture, next, length, numeric, signed)
                } else {
                    Err(Refusal::UnsupportedSymbol { symbol: u })
                }
            },
        }
    }
}

/// A picture's storage length, and whether it is numeric and signed.
pub open spec fn storage_of(picture: Seq<char>) -> Result<(nat, bool, bool), Refusal> {
    measure_from(picture, 0, 0, true, false)
}

pub proof fn lemma_close_paren(p: Seq<char>, from: nat)
    ensures
        from <= p.len() ==> from <= close_paren(p, from) <= p.len(),
        close_paren(p, from) < p.len() ==> p[close_paren(p, from) as int] == ')',
        forall|k: int| from <= k < close_paren(p, from) ==> p[k] != ')',
    decreases p.len() - from,
{
    if from < p.len() && p[from as int] != ')' {
        lemma_close_paren(p, from + 1);
    }
}

/// Measures a picture given as characters.
pub fn measure_chars(picture: &[char]) -> (r: Result<(usize, bool, bool), ContractError>)
    ensures
        match r {
            Ok((length, numeric, signed)) => storage_of(picture@) == Ok::<(nat, bool, bool), Refusal>(
                (length as nat, numeric, signed),
            ),
            Err(e) => refused(e, storage_of(picture@)),
        },
{
    let n = picture.len();
    let mut i: usize = 0;
    let mut length: usize = 0;
    let mut numeric = true;
    let mut signed = false;
    while i < n
        invariant
            n == picture@.len(),
            i <= n,
            storage_of(picture@) == measure_from(picture@, i as nat, length as nat, numeric, signed),
        decreases n - i,
    {
        let grouped = i + 1 < n && picture[i + 1] == '(';
        let mut repeat: usize = 1;
        let mut next: usize = i + 1;
        proof {
            lemma_close_paren(picture@, (i + 2) as nat);
        }
        if grouped {
            let mut close: usize = i + 2;
            while close < n && picture[close] != ')'
                invariant
                    i + 2 <= close <= n,
                    n == picture@.len(),
                    close_paren(picture@, (i + 2) as nat) == close_paren(picture@, close as nat),
                decreases n - close,
            {
                close = close + 1;
            }
            let digits = trimmed(slice_of(picture, i + 2, close).as_slice());
            match parse_unsigned_of(digits.as_slice(), usize::MAX) {
                Some(r) => {
                    repeat = r;
                },
                None => {
                    let reason = join3(
                        chars_of("picture ").as_slice(),
                        debug_text_of(picture).as_slice(),
                        chars_of(" has a bad repeat").as_slice(),
                    );
                    return Err(refuse(reason));
                },
            }
            next = if close < n {
                close + 1
            } else {
                n
            };
        }
        let u = to_upper(picture[i]);
        if u == 'X' || u == 'A' {
            if repeat > usize::MAX - length {
                return Err(too_large());
            }
            length = length + repeat;
            numeric = false;
        } else if u == '9' || u == 'Z' || u == '*' || u == '.' || u == ',' || u == '-' || u == '+' {
            if repeat > usize::MAX - length {
                return Err(too_large());
            }
            length = length + repeat;
        } else if u == 'S' {
            signed = true;
        } else if u == 'V' {
        } else {
            let reason = join3(
                chars_of("picture symbol ").as_slice(),
                debug_char_of(u).as_slice(),
                chars_of(" is not supported").as_slice(),
            );
            return Err(refuse(reason));
        }
        i = next;
    }
    Ok((length, numeric, signed))
}

/// A picture's storage length, and whether it is numeric and signed.
///
/// # Errors
/// A symbol outside the subset, a repeat that is not a count, or a length
/// that does not fit in a `usize`.
pub fn measure(picture: &str) -> (r: Result<(usize, bool, bool), ContractError>)
    ensures
        match r {
            Ok((length, numeric, signed)) => storage_of(picture@) == Ok::<(nat, bool, bool), Refusal>(
                (length as nat, numeric, signed),
            ),
            Err(e) => refused(e, storage_of(picture@)),
        },
{
    let p = chars_of(picture);
    measure_chars(p.as_slice())
}


// ---------------------------------------------------------------------------
// Statements and items
// ---------------------------------------------------------------------------

/// Fixed-format source carries a six-column sequence area and an indicator
/// column; free-format does not. A line whose first six characters are
/// digits or spaces followed by a space or `*` is fixed-format. (Those seven
/// characters are ASCII, one byte each.)
pub open spec fn fixed_format(line: Seq<char>) -> bool {
    &&& line.len() > 6
    &&& forall|k: int| 0 <= k < 6 ==> is_digit(#[trigger] line[k]) || line[k] == ' '
    &&& (line[6] == ' ' || line[6] == '*')
}

/// A line without its sequence area, when it has one.
pub open spec fn sequence_stripped(line: Seq<char>) -> Seq<char> {
    if fixed_format(line) {
        line.skip(6)
    } else {
        line
    }
}

/// A line is read unless it is blank or its first non-blank character is `*`.
pub open spec fn is_read(line: Seq<char>) -> bool {
    let t = trim_start(line);
    t.len() > 0 && t[0] != '*'
}

/// The source the statements are cut from: every line that is read, without
/// its sequence area, each followed by a space.
pub open spec fn source_of(lines: Seq<Seq<char>>) -> Seq<char>
    decreases lines.len(),
{
    if lines.len() == 0 {
        Seq::<char>::empty()
    } else {
        let line = sequence_stripped(lines.last());
        source_of(lines.drop_last()) + if is_read(line) {
            line.push(' ')
        } else {
            Seq::<char>::empty()
        }
    }
}

/// Where the run of non-blank characters that ends at `i` starts.
pub open spec fn word_start(s: Seq<char>, i: int) -> int
    decreases i,
{
    if i <= 0 || i > s.len() {
        0
    } else if is_space(s[i - 1]) {
        i
    } else {
        word_start(s, i - 1)
    }
}

/// Where the last non-blank character at or before `e` ends: `e` with the
/// blanks before it skipped.
pub open spec fn skip_back(s: Seq<char>, e: int) -> int
    decreases e,
{
    if e <= 0 || e > s.len() {
        0
    } else if is_space(s[e - 1]) {
        skip_back(s, e - 1)
    } else {
        e
    }
}

/// The blank-separated word that ends at `e`.
pub open spec fn word_ending(s: Seq<char>, e: int) -> Seq<char> {
    s.subrange(word_start(s, e), e)
}

/// `PIC` or `PICTURE`, in any case.
pub open spec fn is_picture_keyword(w: Seq<char>) -> bool {
    upper_all(w) == "PIC"@ || upper_all(w) == "PICTURE"@
}

/// Whether position `i` stands in a picture string: in the word after `PIC`,
/// `PICTURE`, `PIC IS` or `PICTURE IS`.
pub open spec fn in_picture(s: Seq<char>, i: int) -> bool {
    let e1 = skip_back(s, word_start(s, i));
    let w1 = word_ending(s, e1);
    let e2 = skip_back(s, word_start(s, e1));
    let w2 = word_ending(s, e2);
    is_picture_keyword(w1) || (upper_all(w1) == "IS"@ && is_picture_keyword(w2))
}

/// Whether the character at `i` ends a statement: a full stop, unless it
/// stands within a picture string and more of the string follows it, as the
/// first full stop of `PIC ZZ9.99.` does.
pub open spec fn is_stop(s: Seq<char>, i: int) -> bool {
    s[i] == '.' && (i + 1 == s.len() || is_space(s[i + 1]) || !in_picture(s, i))
}

fn word_start_of(s: &[char], i: usize) -> (r: usize)
    requires
        i <= s.len(),
    ensures
        r as int == word_start(s@, i as int),
        r <= i,
{
    let mut k = i;
    while k > 0 && !space(s[k - 1])
        invariant
            k <= i <= s.len(),
            word_start(s@, i as int) == word_start(s@, k as int),
        decreases k,
    {
        k = k - 1;
    }
    k
}

fn skip_back_of(s: &[char], e: usize) -> (r: usize)
    requires
        e <= s.len(),
    ensures
        r as int == skip_back(s@, e as int),
        r <= e,
{
    let mut k = e;
    while k > 0 && space(s[k - 1])
        invariant
            k <= e <= s.len(),
            skip_back(s@, e as int) == skip_back(s@, k as int),
        decreases k,
    {
        k = k - 1;
    }
    k
}

fn picture_keyword(s: &[char], from: usize, to: usize) -> (b: bool)
    requires
        from <= to <= s.len(),
    ensures
        b == is_picture_keyword(s@.subrange(from as int, to as int)),
{
    let w = to_upper_all(slice_of(s, from, to).as_slice());
    is_word(w.as_slice(), "PIC") || is_word(w.as_slice(), "PICTURE")
}

fn in_picture_of(s: &[char], i: usize) -> (b: bool)
    requires
        i <= s.len(),
    ensures
        b == in_picture(s@, i as int),
{
    let e1 = skip_back_of(s, word_start_of(s, i));
    let b1 = word_start_of(s, e1);
    if picture_keyword(s, b1, e1) {
        return true;
    }
    let w1 = to_upper_all(slice_of(s, b1, e1).as_slice());
    if !is_word(w1.as_slice(), "IS") {
        return false;
    }
    let e2 = skip_back_of(s, b1);
    let b2 = word_start_of(s, e2);
    picture_keyword(s, b2, e2)
}

/// The first `n` characters of `s` cut at the full stops that end
/// statements: `k` such stops make `k + 1` pieces.
pub open spec fn cut(s: Seq<char>, n: nat) -> Seq<Seq<char>>
    decreases n,
{
    if n == 0 || n > s.len() {
        seq![Seq::<char>::empty()]
    } else {
        let p = cut(s, (n - 1) as nat);
        if is_stop(s, n - 1) {
            p.push(Seq::<char>::empty())
        } else {
            p.update(p.len() - 1, p.last().push(s[n - 1]))
        }
    }
}

pub proof fn lemma_cut_nonempty(s: Seq<char>, n: nat)
    ensures
        cut(s, n).len() >= 1,
    decreases n,
{
    if n > 0 && n <= s.len() {
        lemma_cut_nonempty(s, (n - 1) as nat);
    }
}

/// The statements of a copybook: the source cut at the full stops that end
/// statements, each trimmed, the empty ones dropped.
pub open spec fn statements(text: Seq<char>) -> Seq<Seq<char>> {
    let source = source_of(lines(text));
    non_empty(cut(source, source.len()).map_values(|p: Seq<char>| trim(p)))
}

/// The source cut at the full stops that end statements.
fn cut_of(s: &[char]) -> (r: Vec<Vec<char>>)
    ensures
        r.deep_view() == cut(s@, s@.len()),
{
    let mut done: Vec<Vec<char>> = Vec::new();
    let mut cur: Vec<char> = Vec::new();
    let n = s.len();
    for i in 0..n
        invariant
            n == s@.len(),
            done.deep_view().push(cur@) =~= cut(s@, i as nat),
    {
        let c = s[i];
        let stop = c == '.' && (i + 1 == n || space(s[i + 1]) || !in_picture_of(s, i));
        assert(stop == is_stop(s@, i as int));
        let ghost old_done = done.deep_view();
        let ghost old_cur = cur@;
        proof {
            lemma_cut_nonempty(s@, i as nat);
        }
        if stop {
            assert(cur.deep_view() =~= cur@);
            done.push(cur);
            assert(done.deep_view() =~= old_done.push(old_cur));
            cur = Vec::new();
        } else {
            cur.push(c);
        }
        assert(done.deep_view().push(cur@) =~= cut(s@, (i + 1) as nat));
    }
    let ghost old_done = done.deep_view();
    assert(cur.deep_view() =~= cur@);
    done.push(cur);
    assert(done.deep_view() =~= old_done.push(cur@));
    done
}

/// The usages that are not text.
pub open spec fn is_binary_usage(w: Seq<char>) -> bool {
    ||| w == "COMP"@
    ||| w == "COMP-1"@
    ||| w == "COMP-2"@
    ||| w == "COMP-3"@
    ||| w == "COMP-4"@
    ||| w == "COMP-5"@
    ||| w == "COMPUTATIONAL"@
    ||| w == "COMPUTATIONAL-3"@
    ||| w == "BINARY"@
    ||| w == "PACKED-DECIMAL"@
    ||| w == "POINTER"@
    ||| w == "INDEX"@
}

/// Words a clause of the subset may hold that change nothing: `USAGE IS
/// DISPLAY`, `OCCURS n TIMES`, `JUSTIFIED RIGHT`.
pub open spec fn is_ignored_word(w: Seq<char>) -> bool {
    ||| w == "TIMES"@
    ||| w == "USAGE"@
    ||| w == "IS"@
    ||| w == "DISPLAY"@
    ||| w == "JUSTIFIED"@
    ||| w == "JUST"@
    ||| w == "RIGHT"@
}

/// The words of a sign clause: `SIGN IS LEADING`, `TRAILING`.
pub open spec fn is_sign_word(w: Seq<char>) -> bool {
    w == "SIGN"@ || w == "IS"@ || w == "LEADING"@ || w == "TRAILING"@
}

/// Whether the sign clause that starts at `clauses[i]` goes on to `SEPARATE`.
pub open spec fn sign_separate(clauses: Seq<Seq<char>>, i: int) -> bool
    decreases clauses.len() - i,
{
    if i < 0 || i >= clauses.len() {
        false
    } else if clauses[i] == "SEPARATE"@ {
        true
    } else if is_sign_word(clauses[i]) {
        sign_separate(clauses, i + 1)
    } else {
        false
    }
}

/// The index after the first word from `clauses[i]` on that ends with the
/// quote `q`, or the end.
pub open spec fn quote_close(clauses: Seq<Seq<char>>, i: int, q: char) -> int
    decreases clauses.len() - i,
{
    if i < 0 || i >= clauses.len() {
        clauses.len() as int
    } else if clauses[i].len() > 0 && clauses[i].last() == q {
        i + 1
    } else {
        quote_close(clauses, i + 1, q)
    }
}

/// The index after the literal that starts at `clauses[i]`: a quoted literal
/// runs to the word that closes its quote, any other is one word.
pub open spec fn literal_end(clauses: Seq<Seq<char>>, i: int) -> int {
    let w = clauses[i];
    if w.len() > 0 && (w[0] == '\'' || w[0] == '"') {
        if w.len() >= 2 && w.last() == w[0] {
            i + 1
        } else {
            quote_close(clauses, i + 1, w[0])
        }
    } else {
        i + 1
    }
}

/// Reads the clause that starts at `clauses[i]` into `item`: gives the index
/// after it and the item, or the refusal of a clause outside the subset,
/// which names it.
pub open spec fn clause_step(clauses: Seq<Seq<char>>, i: int, item: SpecItem) -> Result<
    (int, SpecItem),
    Refusal,
> {
    let word = clauses[i];
    if word == "PIC"@ || word == "PICTURE"@ {
        if i + 1 >= clauses.len() {
            Err(Refusal::PicWithoutPicture)
        } else if clauses[i + 1] == "IS"@ {
            if i + 2 >= clauses.len() {
                Err(Refusal::PicIsWithoutPicture)
            } else {
                Ok((i + 3, SpecItem { picture: Some(clauses[i + 2]), ..item }))
            }
        } else {
            Ok((i + 2, SpecItem { picture: Some(clauses[i + 1]), ..item }))
        }
    } else if word == "OCCURS"@ {
        if i + 1 >= clauses.len() {
            Err(Refusal::OccursWithoutCount)
        } else {
            match parse_unsigned(clauses[i + 1], usize::MAX as nat) {
                None => Err(Refusal::NotACount { count: clauses[i + 1] }),
                Some(count) => if i + 2 < clauses.len() && clauses[i + 2] == "TO"@ {
                    Err(Refusal::DependingOn)
                } else {
                    Ok((i + 2, SpecItem { occurs: count, ..item }))
                },
            }
        }
    } else if word == "DEPENDING"@ {
        Err(Refusal::DependingOn)
    } else if word == "REDEFINES"@ {
        if i + 1 >= clauses.len() {
            Err(Refusal::RedefinesWithoutName)
        } else {
            Ok((i + 2, SpecItem { redefines: Some(clauses[i + 1]), ..item }))
        }
    } else if word == "VALUE"@ {
        let j = if i + 1 < clauses.len() && clauses[i + 1] == "IS"@ {
            i + 2
        } else {
            i + 1
        };
        let k = if j < clauses.len() && clauses[j] == "ALL"@ {
            j + 1
        } else {
            j
        };
        if k >= clauses.len() {
            Ok((clauses.len() as int, item))
        } else {
            Ok((literal_end(clauses, k), item))
        }
    } else if is_binary_usage(word) {
        Err(Refusal::Usage { word, name: item.name })
    } else if word == "SEPARATE"@ {
        Err(Refusal::SignSeparate)
    } else if word == "SIGN"@ || word == "LEADING"@ || word == "TRAILING"@ {
        if sign_separate(clauses, i) {
            Err(Refusal::SignSeparate)
        } else {
            Err(Refusal::Clause { word, name: item.name })
        }
    } else if word == "COPY"@ {
        Err(Refusal::CopyInside)
    } else if is_ignored_word(word) {
        Ok((i + 1, item))
    } else {
        Err(Refusal::Clause { word, name: item.name })
    }
}

/// Reads the clauses of an item from `clauses[i]` on, one clause at a time,
/// stopping at the first refusal.
pub open spec fn read_clauses(clauses: Seq<Seq<char>>, i: int, item: SpecItem) -> Result<
    SpecItem,
    Refusal,
>
    decreases clauses.len() - i,
{
    if i < 0 || i >= clauses.len() {
        Ok(item)
    } else {
        match clause_step(clauses, i, item) {
            Err(e) => Err(e),
            Ok((next, it)) => if i < next <= clauses.len() {
                read_clauses(clauses, next, it)
            } else {
                Ok(it)
            },
        }
    }
}

/// A level the subset reads: 01 to 49, and 77.
pub open spec fn is_level(level: nat) -> bool {
    (1 <= level && level <= 49) || level == 77
}

/// Reads one statement: a level, a name and clauses. Level 88 condition names
/// and level 66 renames declare no storage and give no item.
pub open spec fn read_item(statement: Seq<char>) -> Result<Option<SpecItem>, Refusal> {
    let w = words(statement);
    if w.len() < 2 {
        Err(Refusal::CannotRead { statement })
    } else {
        match parse_unsigned(w[0], 255) {
            None => Err(Refusal::CannotReadLevel { statement }),
            Some(level) => if level == 88 || level == 66 {
                Ok(None)
            } else if !is_level(level) {
                Err(Refusal::Level { level: w[0] })
            } else {
                let item = SpecItem {
                    level,
                    name: upper_all(w[1]),
                    picture: None,
                    occurs: 1,
                    redefines: None,
                };
                match read_clauses(w.skip(2).map_values(|x: Seq<char>| upper_all(x)), 0, item) {
                    Err(e) => Err(e),
                    Ok(item) => Ok(Some(item)),
                }
            },
        }
    }
}

/// Reads the statements in order, stopping at the first refusal.
pub open spec fn read_items(statements: Seq<Seq<char>>) -> Result<Seq<SpecItem>, Refusal>
    decreases statements.len(),
{
    if statements.len() == 0 {
        Ok(Seq::<SpecItem>::empty())
    } else {
        match read_items(statements.drop_last()) {
            Err(e) => Err(e),
            Ok(items) => match read_item(statements.last()) {
                Err(e) => Err(e),
                Ok(None) => Ok(items),
                Ok(Some(item)) => Ok(items.push(item)),
            },
        }
    }
}

/// The data items a copybook declares.
pub open spec fn items_of(text: Seq<char>) -> Result<Seq<SpecItem>, Refusal> {
    read_items(statements(text))
}

struct Item {
    level: u8,
    name: Vec<char>,
    picture: Option<Vec<char>>,
    occurs: usize,
    redefines: Option<Vec<char>>,
}

spec fn opt_view(o: Option<Vec<char>>) -> Option<Seq<char>> {
    match o {
        Some(v) => Some(v@),
        None => None,
    }
}

impl View for Item {
    type V = SpecItem;

    closed spec fn view(&self) -> SpecItem {
        SpecItem {
            level: self.level as nat,
            name: self.name@,
            picture: opt_view(self.picture),
            occurs: self.occurs as nat,
            redefines: opt_view(self.redefines),
        }
    }
}

spec fn views(items: Seq<Item>) -> Seq<SpecItem> {
    items.map_values(|i: Item| i@)
}

/// Whether the characters `w` spell `kw`.
fn is_word(w: &[char], kw: &str) -> (b: bool)
    ensures
        b == (w@ == kw@),
{
    let k = chars_of(kw);
    same(w, k.as_slice())
}

fn binary_usage(w: &[char]) -> (b: bool)
    ensures
        b == is_binary_usage(w@),
{
    is_word(w, "COMP") || is_word(w, "COMP-1") || is_word(w, "COMP-2") || is_word(w, "COMP-3")
        || is_word(w, "COMP-4") || is_word(w, "COMP-5") || is_word(w, "COMPUTATIONAL") || is_word(
        w,
        "COMPUTATIONAL-3",
    ) || is_word(w, "BINARY") || is_word(w, "PACKED-DECIMAL") || is_word(w, "POINTER")
        || is_word(w, "INDEX")
}

fn fixed(line: &[char]) -> (b: bool)
    ensures
        b == fixed_format(line@),
{
    if line.len() <= 6 {
        return false;
    }
    for k in 0..6
        invariant
            line@.len() > 6,
            forall|j: int| 0 <= j < k ==> is_digit(#[trigger] line@[j]) || line@[j] == ' ',
    {
        let c = line[k];
        if !(digit(c) || c == ' ') {
            assert(!(is_digit(line@[k as int]) || line@[k as int] == ' '));
            return false;
        }
    }
    let c = line[6];
    c == ' ' || c == '*'
}

fn strip_sequence(line: &[char]) -> (r: Vec<char>)
    ensures
        r@ == sequence_stripped(line@),
{
    if fixed(line) {
        let r = slice_of(line, 6, line.len());
        assert(r@ =~= line@.skip(6));
        r
    } else {
        copy_of(line)
    }
}

fn read(line: &[char]) -> (b: bool)
    ensures
        b == is_read(line@),
{
    let i = skip_blanks(line);
    i < line.len() && line[i] != '*'
}

/// The statements of a copybook.
fn statements_of(text: &[char]) -> (r: Vec<Vec<char>>)
    ensures
        r.deep_view() == statements(text@),
{
    let lines = lines_of(text);
    let ghost lv = lines.deep_view();
    let mut source: Vec<char> = Vec::new();
    let n = lines.len();
    for i in 0..n
        invariant
            n == lv.len(),
            lines.deep_view() == lv,
            source@ == source_of(lv.take(i as int)),
    {
        assert(lines@[i as int].deep_view() =~= lines@[i as int]@);
        let line = strip_sequence(lines[i].as_slice());
        assert(lv.take(i + 1).drop_last() =~= lv.take(i as int));
        if read(line.as_slice()) {
            extend(&mut source, line.as_slice());
            source.push(' ');
            assert(source@ =~= source_of(lv.take(i as int)) + line@.push(' '));
        } else {
            assert(source@ =~= source_of(lv.take(i as int)) + Seq::<char>::empty());
        }
    }
    assert(lv.take(n as int) =~= lv);
    let p = cut_of(source.as_slice());
    let ghost pv = p.deep_view();
    let mut t: Vec<Vec<char>> = Vec::new();
    let m = p.len();
    for i in 0..m
        invariant
            m == pv.len(),
            p.deep_view() == pv,
            t.deep_view() =~= pv.take(i as int).map_values(|q: Seq<char>| trim(q)),
    {
        assert(p@[i as int].deep_view() =~= p@[i as int]@);
        let piece = trimmed(p[i].as_slice());
        let ghost before = t.deep_view();
        assert(piece.deep_view() =~= piece@);
        t.push(piece);
        assert(t.deep_view() =~= before.push(trim(pv[i as int])));
        assert(pv.take(i + 1) =~= pv.take(i as int).push(pv[i as int]));
    }
    assert(pv.take(m as int) =~= pv);
    keep_non_empty(t)
}

/// Whether the sign clause from `clauses[i]` on goes on to `SEPARATE`.
fn sign_separate_of(clauses: &Vec<Vec<char>>, i: usize) -> (b: bool)
    ensures
        b == sign_separate(clauses.deep_view(), i as int),
{
    let ghost cl = clauses.deep_view();
    let n = clauses.len();
    let mut k = i;
    while k < n
        invariant
            n == cl.len(),
            cl == clauses.deep_view(),
            i <= k,
            sign_separate(cl, i as int) == sign_separate(cl, k as int),
        decreases n - k,
    {
        assert(clauses@[k as int].deep_view() =~= clauses@[k as int]@);
        let w = clauses[k].as_slice();
        if is_word(w, "SEPARATE") {
            return true;
        }
        if !(is_word(w, "SIGN") || is_word(w, "IS") || is_word(w, "LEADING") || is_word(
            w,
            "TRAILING",
        )) {
            return false;
        }
        k = k + 1;
    }
    false
}

/// The index after the first word from `clauses[i]` on that ends with `q`.
fn quote_close_of(clauses: &Vec<Vec<char>>, i: usize, q: char) -> (r: usize)
    ensures
        r == quote_close(clauses.deep_view(), i as int, q),
        r <= clauses.len(),
{
    let ghost cl = clauses.deep_view();
    let n = clauses.len();
    let mut k = i;
    while k < n
        invariant
            n == cl.len(),
            cl == clauses.deep_view(),
            i <= k,
            quote_close(cl, i as int, q) == quote_close(cl, k as int, q),
        decreases n - k,
    {
        assert(clauses@[k as int].deep_view() =~= clauses@[k as int]@);
        let w = &clauses[k];
        if w.len() > 0 && w[w.len() - 1] == q {
            return k + 1;
        }
        k = k + 1;
    }
    n
}

/// The index after the literal that starts at `clauses[i]`.
fn literal_end_of(clauses: &Vec<Vec<char>>, i: usize) -> (r: usize)
    requires
        i < clauses.len(),
    ensures
        r as int == literal_end(clauses.deep_view(), i as int),
        i < r <= clauses.len(),
{
    proof {
        lemma_quote_close_bounds(clauses.deep_view(), i + 1, ' ');
    }
    assert(clauses@[i as int].deep_view() =~= clauses@[i as int]@);
    let w = &clauses[i];
    if w.len() > 0 && (w[0] == '\'' || w[0] == '"') {
        if w.len() >= 2 && w[w.len() - 1] == w[0] {
            i + 1
        } else {
            proof {
                lemma_quote_close_bounds(clauses.deep_view(), i + 1, w@[0]);
            }
            quote_close_of(clauses, i + 1, w[0])
        }
    } else {
        i + 1
    }
}

proof fn lemma_quote_close_bounds(clauses: Seq<Seq<char>>, i: int, q: char)
    requires
        0 <= i <= clauses.len(),
    ensures
        i <= quote_close(clauses, i, q) <= clauses.len(),
    decreases clauses.len() - i,
{
    if i < clauses.len() {
        lemma_quote_close_bounds(clauses, i + 1, q);
    }
}

/// Reads the clause that starts at `clauses[i]` into `item`.
fn clause_step_of(clauses: &Vec<Vec<char>>, i: usize, item: &mut Item) -> (r: Result<
    usize,
    ContractError,
>)
    requires
        i < clauses.len(),
    ensures
        match r {
            Ok(next) => clause_step(clauses.deep_view(), i as int, old(item)@) == Ok::<
                (int, SpecItem),
                Refusal,
            >((next as int, final(item)@)) && i < next <= clauses.len(),
            Err(e) => refused(e, clause_step(clauses.deep_view(), i as int, old(item)@)),
        },
{
    let ghost cl = clauses.deep_view();
    let n = clauses.len();
    assert(forall|k: int| 0 <= k < n ==> #[trigger] clauses@[k].deep_view() =~= clauses@[k]@);
    let word = clauses[i].as_slice();
    if is_word(word, "PIC") || is_word(word, "PICTURE") {
        if i + 1 >= n {
            return Err(refuse(chars_of("PIC without a picture")));
        }
        if is_word(clauses[i + 1].as_slice(), "IS") {
            if i + 2 >= n {
                return Err(refuse(chars_of("PIC IS without a picture")));
            }
            item.picture = Some(copy_of(clauses[i + 2].as_slice()));
            Ok(i + 3)
        } else {
            item.picture = Some(copy_of(clauses[i + 1].as_slice()));
            Ok(i + 2)
        }
    } else if is_word(word, "OCCURS") {
        if i + 1 >= n {
            return Err(refuse(chars_of("OCCURS without a count")));
        }
        match parse_unsigned_of(clauses[i + 1].as_slice(), usize::MAX) {
            None => {
                let reason = join3(
                    chars_of("OCCURS ").as_slice(),
                    clauses[i + 1].as_slice(),
                    chars_of(" is not a count").as_slice(),
                );
                Err(refuse(reason))
            },
            Some(count) => {
                if i + 2 < n && is_word(clauses[i + 2].as_slice(), "TO") {
                    return Err(refuse(chars_of("OCCURS DEPENDING ON is not supported")));
                }
                item.occurs = count;
                Ok(i + 2)
            },
        }
    } else if is_word(word, "DEPENDING") {
        Err(refuse(chars_of("OCCURS DEPENDING ON is not supported")))
    } else if is_word(word, "REDEFINES") {
        if i + 1 >= n {
            return Err(refuse(chars_of("REDEFINES without a name")));
        }
        item.redefines = Some(copy_of(clauses[i + 1].as_slice()));
        Ok(i + 2)
    } else if is_word(word, "VALUE") {
        let j = if i + 1 < n && is_word(clauses[i + 1].as_slice(), "IS") {
            i + 2
        } else {
            i + 1
        };
        let k = if j < n && is_word(clauses[j].as_slice(), "ALL") {
            j + 1
        } else {
            j
        };
        if k >= n {
            return Ok(n);
        }
        Ok(literal_end_of(clauses, k))
    } else if binary_usage(word) {
        let mut reason = join3(word, chars_of(" in ").as_slice(), item.name.as_slice());
        extend(&mut reason, chars_of(": only DISPLAY usage is text").as_slice());
        Err(refuse(reason))
    } else if is_word(word, "SEPARATE") {
        Err(refuse(chars_of("SIGN SEPARATE is not supported")))
    } else if is_word(word, "SIGN") || is_word(word, "LEADING") || is_word(word, "TRAILING") {
        if sign_separate_of(clauses, i) {
            Err(refuse(chars_of("SIGN SEPARATE is not supported")))
        } else {
            Err(refuse(unsupported(word, item.name.as_slice())))
        }
    } else if is_word(word, "COPY") {
        Err(refuse(chars_of("COPY inside a copybook is not supported")))
    } else if is_word(word, "TIMES") || is_word(word, "USAGE") || is_word(word, "IS") || is_word(
        word,
        "DISPLAY",
    ) || is_word(word, "JUSTIFIED") || is_word(word, "JUST") || is_word(word, "RIGHT") {
        Ok(i + 1)
    } else {
        Err(refuse(unsupported(word, item.name.as_slice())))
    }
}

/// The reason a clause word outside the subset is refused for.
fn unsupported(word: &[char], name: &[char]) -> (r: Vec<char>)
    ensures
        r@ == reason(Refusal::Clause { word: word@, name: name@ }),
{
    let mut r = join3(word, chars_of(" in ").as_slice(), name);
    extend(&mut r, chars_of(" is not supported").as_slice());
    r
}

/// Reads the clauses into `first`.
fn clauses_into(clauses: &Vec<Vec<char>>, first: Item) -> (r: Result<Item, ContractError>)
    ensures
        match r {
            Ok(it) => read_clauses(clauses.deep_view(), 0, first@) == Ok::<SpecItem, Refusal>(it@),
            Err(e) => refused(e, read_clauses(clauses.deep_view(), 0, first@)),
        },
{
    let ghost cl = clauses.deep_view();
    let ghost start = first@;
    let mut item = first;
    let n = clauses.len();
    let mut i: usize = 0;
    while i < n
        invariant
            n == cl.len(),
            cl == clauses.deep_view(),
            start == first@,
            i <= n,
            read_clauses(cl, 0, start) == read_clauses(cl, i as int, item@),
        decreases n - i,
    {
        match clause_step_of(clauses, i, &mut item) {
            Ok(next) => {
                i = next;
            },
            Err(e) => {
                return Err(e);
            },
        }
    }
    Ok(item)
}

spec fn opt_item_view(o: Option<Item>) -> Option<SpecItem> {
    match o {
        Some(i) => Some(i@),
        None => None,
    }
}

/// The characters of `a` then `b`.
fn join2(a: &[char], b: &[char]) -> (r: Vec<char>)
    ensures
        r@ == a@ + b@,
{
    let mut r = copy_of(a);
    extend(&mut r, b);
    r
}

/// Reads one statement.
fn item_of(statement: &[char]) -> (r: Result<Option<Item>, ContractError>)
    ensures
        match r {
            Ok(o) => read_item(statement@) == Ok::<Option<SpecItem>, Refusal>(opt_item_view(o)),
            Err(e) => refused(e, read_item(statement@)),
        },
{
    let w = words_of(statement);
    let ghost wv = w.deep_view();
    if w.len() < 2 {
        let reason = join2(chars_of("cannot read ").as_slice(), debug_text_of(statement).as_slice());
        return Err(refuse(reason));
    }
    assert(w@[0].deep_view() =~= w@[0]@);
    assert(w@[1].deep_view() =~= w@[1]@);
    let level = match parse_unsigned_of(w[0].as_slice(), 255) {
        None => {
            let reason = join2(
                chars_of("cannot read level in ").as_slice(),
                debug_text_of(statement).as_slice(),
            );
            return Err(refuse(reason));
        },
        Some(level) => level,
    };
    if level == 88 || level == 66 {
        return Ok(None);
    }
    if !((1 <= level && level <= 49) || level == 77) {
        let reason = join3(
            chars_of("level ").as_slice(),
            w[0].as_slice(),
            chars_of(" is not supported").as_slice(),
        );
        return Err(refuse(reason));
    }
    let name = to_upper_all(w[1].as_slice());
    let mut clauses: Vec<Vec<char>> = Vec::new();
    let n = w.len();
    let ghost rest = wv.skip(2).map_values(|x: Seq<char>| upper_all(x));
    for k in 2..n
        invariant
            n == wv.len(),
            wv == w.deep_view(),
            rest == wv.skip(2).map_values(|x: Seq<char>| upper_all(x)),
            clauses.deep_view() =~= rest.take(k - 2),
    {
        assert(w@[k as int].deep_view() =~= w@[k as int]@);
        let u = to_upper_all(w[k].as_slice());
        let ghost before = clauses.deep_view();
        assert(u.deep_view() =~= u@);
        clauses.push(u);
        assert(clauses.deep_view() =~= before.push(rest[k - 2]));
        assert(rest.take(k + 1 - 2) =~= rest.take(k - 2).push(rest[k - 2]));
    }
    assert(rest.take(n - 2) =~= rest);
    let item = Item { level: level as u8, name, picture: None, occurs: 1, redefines: None };
    assert(level <= 255);
    assert(opt_view(None) == None::<Seq<char>>);
    assert(item@ == SpecItem {
        level: level as nat,
        name: upper_all(wv[1]),
        picture: None,
        occurs: 1,
        redefines: None,
    });
    match clauses_into(&clauses, item) {
        Ok(it) => Ok(Some(it)),
        Err(e) => Err(e),
    }
}

/// The data items of a copybook.
fn items(text: &[char]) -> (r: Result<Vec<Item>, ContractError>)
    ensures
        match r {
            Ok(v) => items_of(text@) == Ok::<Seq<SpecItem>, Refusal>(views(v@)),
            Err(e) => refused(e, items_of(text@)),
        },
{
    let st = statements_of(text);
    let ghost sv = st.deep_view();
    let mut out: Vec<Item> = Vec::new();
    let n = st.len();
    assert(sv.take(0) =~= Seq::<Seq<char>>::empty());
    assert(views(out@) =~= Seq::<SpecItem>::empty());
    for i in 0..n
        invariant
            n == sv.len(),
            sv == st.deep_view(),
            sv == statements(text@),
            read_items(sv.take(i as int)) == Ok::<Seq<SpecItem>, Refusal>(views(out@)),
    {
        assert(st@[i as int].deep_view() =~= st@[i as int]@);
        assert(sv.take(i + 1).drop_last() =~= sv.take(i as int));
        match item_of(st[i].as_slice()) {
            Err(e) => {
                proof {
                    lemma_read_items_stops(sv, i + 1);
                }
                return Err(e);
            },
            Ok(None) => {},
            Ok(Some(it)) => {
                let ghost before = out@;
                out.push(it);
                assert(views(out@) =~= views(before).push(it@));
            },
        }
    }
    assert(sv.take(n as int) =~= sv);
    Ok(out)
}

/// Once a prefix of the statements is refused, so are all of them, for the
/// same reason.
proof fn lemma_read_items_stops(s: Seq<Seq<char>>, k: int)
    requires
        0 <= k <= s.len(),
        read_items(s.take(k)) is Err,
    ensures
        read_items(s) == read_items(s.take(k)),
    decreases s.len(),
{
    if k == s.len() {
        assert(s.take(k) =~= s);
    } else {
        assert(s.drop_last().take(k) =~= s.take(k));
        lemma_read_items_stops(s.drop_last(), k);
    }
}


// ---------------------------------------------------------------------------
// Layout
// ---------------------------------------------------------------------------

/// An item's name under the name of the group it belongs to.
pub open spec fn qualified(prefix: Seq<char>, name: Seq<char>) -> Seq<char> {
    if prefix.len() == 0 {
        name
    } else {
        prefix + seq!['.'] + name
    }
}

/// The name of the `k`-th occurrence of an item that occurs `occurs` times:
/// `NAME(k)` when it repeats, `NAME` when it does not.
pub open spec fn occurrence_name(name: Seq<char>, occurs: nat, k: nat) -> Seq<char> {
    if occurs > 1 {
        name + seq!['('] + decimal(k) + seq![')']
    } else {
        name
    }
}

/// Where the first item laid out so far under the name `target` starts.
pub open spec fn origin_of(placed: Seq<(Seq<char>, nat)>, target: Seq<char>) -> Option<nat>
    decreases placed.len(),
{
    if placed.len() == 0 {
        None
    } else if placed[0].0 == target {
        Some(placed[0].1)
    } else {
        origin_of(placed.drop_first(), target)
    }
}

/// `fields` followed by what the outcome `r` lays out.
pub open spec fn after_fields(fields: Seq<SpecField>, r: Result<(nat, int, Seq<SpecField>), Refusal>) -> Result<
    (nat, int, Seq<SpecField>),
    Refusal,
> {
    match r {
        Err(e) => Err(e),
        Ok((end, next, more)) => Ok((end, next, fields + more)),
    }
}

/// Lays out the items from `index` on that stand at `level`, starting at
/// `offset`, under `prefix`, where `placed` holds the names and origins of
/// the items already laid out at this level (what `REDEFINES` can name).
/// Gives the offset after them, the index of the first item not consumed,
/// and the elementary fields, in order.
///
/// Each item takes the offset where the last one ended, or its target's
/// origin when it redefines one; a redefinition never pulls the offset back.
/// An item occurring `n` times takes `n` times the length of its last
/// occurrence.
pub open spec fn lay_out(
    items: Seq<SpecItem>,
    index: int,
    level: nat,
    offset: nat,
    prefix: Seq<char>,
    placed: Seq<(Seq<char>, nat)>,
) -> Result<(nat, int, Seq<SpecField>), Refusal>
    decreases (items.len() - index) as nat, 2nat, 0nat,
{
    if 0 <= index < items.len() && items[index].level == level {
        let item = items[index];
        let name = qualified(prefix, item.name);
        let origin = match item.redefines {
            Some(target) => origin_of(placed, target),
            None => Some(offset),
        };
        match origin {
            None => Err(
                Refusal::UnknownRedefines {
                    name: item.name,
                    target: match item.redefines {
                        Some(target) => target,
                        None => Seq::<char>::empty(),
                    },
                },
            ),
            Some(origin) => match lay_out_occurrences(
                items,
                index,
                level,
                prefix,
                name,
                origin,
                1,
                0,
                index + 1,
            ) {
                Err(e) => Err(e),
                Ok((one, next, fields)) => {
                    let length = one * item.occurs;
                    let end = origin + length;
                    if length > usize::MAX || end > usize::MAX {
                        Err(Refusal::TooLarge)
                    } else {
                        let after: nat = if item.redefines is None || offset < end {
                            end
                        } else {
                            offset
                        };
                        // `next` is always past `index` and within the items.
                        if index < next <= items.len() {
                            after_fields(
                                fields,
                                lay_out(items, next, level, after, prefix, placed.push((item.name, origin))),
                            )
                        } else {
                            Ok((after, next, fields))
                        }
                    }
                },
            },
        }
    } else {
        Ok((offset, index, Seq::<SpecField>::empty()))
    }
}

/// Lays out the occurrences `k` onward of the item at `index`, named `name`
/// and starting at `origin`, where `one` is the length of the occurrence
/// before and `next` the index after it. Occurrence `k` starts `k - 1` times
/// that length after the origin. Gives the length of the last occurrence, the
/// index after it, and the fields.
pub open spec fn lay_out_occurrences(
    items: Seq<SpecItem>,
    index: int,
    level: nat,
    prefix: Seq<char>,
    name: Seq<char>,
    origin: nat,
    k: nat,
    one: nat,
    next: int,
) -> Result<(nat, int, Seq<SpecField>), Refusal>
    decreases (items.len() - index) as nat, 1nat, (items[index].occurs + 1 - k) as nat,
{
    let item = items[index];
    if k > item.occurs {
        Ok((one, next, Seq::<SpecField>::empty()))
    } else {
        let step: nat = one * ((k - 1) as nat);
        if step > usize::MAX || origin + step > usize::MAX {
            Err(Refusal::TooLarge)
        } else {
            let at: nat = origin + step;
            match lay_out_occurrence(
                items,
                index,
                level,
                prefix,
                occurrence_name(name, item.occurs, k),
                at,
            ) {
                Err(e) => Err(e),
                Ok((end, after, fields)) => after_fields(
                    fields,
                    lay_out_occurrences(
                        items,
                        index,
                        level,
                        prefix,
                        name,
                        origin,
                        k + 1,
                        (end - at) as nat,
                        after,
                    ),
                ),
            }
        }
    }
}

/// Lays out one occurrence, named `oname`, of the item at `index` at `at`:
/// an elementary item measures its picture (and a `FILLER` lists no field);
/// a group lays out the items one level down, if any follow. Gives where the
/// occurrence ends, the index after it, and its fields.
pub open spec fn lay_out_occurrence(
    items: Seq<SpecItem>,
    index: int,
    level: nat,
    prefix: Seq<char>,
    oname: Seq<char>,
    at: nat,
) -> Result<(nat, int, Seq<SpecField>), Refusal>
    decreases (items.len() - index) as nat, 0nat, 0nat,
{
    let item = items[index];
    // The record itself does not prefix its fields.
    let child_prefix = if prefix.len() == 0 && item.level == items[0].level {
        Seq::<char>::empty()
    } else {
        oname
    };
    match item.picture {
        Some(picture) => match storage_of(picture) {
            Err(e) => Err(e),
            Ok((length, numeric, signed)) => if at + length > usize::MAX {
                Err(Refusal::TooLarge)
            } else {
                Ok(
                    (
                        at + length,
                        index + 1,
                        if item.name == "FILLER"@ {
                            Seq::<SpecField>::empty()
                        } else {
                            seq![SpecField { name: oname, offset: at, length, numeric, signed }]
                        },
                    ),
                )
            },
        },
        None => if index + 1 < items.len() && items[index + 1].level > level {
            lay_out(items, index + 1, items[index + 1].level, at, child_prefix, seq![])
        } else {
            Ok((at, index + 1, Seq::<SpecField>::empty()))
        },
    }
}

/// The layout a copybook describes: the record is the first item, and its
/// length is where the items at its level end.
pub open spec fn layout_of(text: Seq<char>) -> Result<SpecLayout, Refusal> {
    match items_of(text) {
        Err(e) => Err(e),
        Ok(items) => if items.len() == 0 {
            Err(Refusal::NoDataItem)
        } else {
            match lay_out(items, 0, items[0].level, 0, Seq::<char>::empty(), seq![]) {
                Err(e) => Err(e),
                Ok((end, _, fields)) => Ok(
                    SpecLayout { record_name: items[0].name, record_length: end, fields },
                ),
            }
        },
    }
}


/// One elementary field in a record.
#[derive(Clone, Debug, PartialEq, Eq)]
pub struct Field {
    pub name: String,
    pub offset: usize,
    pub length: usize,
    pub numeric: bool,
    pub signed: bool,
}

impl View for Field {
    type V = SpecField;

    open spec fn view(&self) -> SpecField {
        SpecField {
            name: self.name@,
            offset: self.offset as nat,
            length: self.length as nat,
            numeric: self.numeric,
            signed: self.signed,
        }
    }
}

/// The fields `v` as the model sees them.
pub open spec fn fields_view(v: Seq<Field>) -> Seq<SpecField> {
    v.map_values(|f: Field| f@)
}

spec fn placed_view(p: Seq<(Vec<char>, usize)>) -> Seq<(Seq<char>, nat)> {
    p.map_values(|e: (Vec<char>, usize)| (e.0@, e.1 as nat))
}

fn find_origin(placed: &Vec<(Vec<char>, usize)>, target: &[char]) -> (r: Option<usize>)
    ensures
        match r {
            Some(o) => origin_of(placed_view(placed@), target@) == Some(o as nat),
            None => origin_of(placed_view(placed@), target@) is None,
        },
{
    let ghost pv = placed_view(placed@);
    let n = placed.len();
    let mut j: usize = 0;
    assert(pv.skip(0) =~= pv);
    while j < n
        invariant
            n == placed@.len(),
            pv == placed_view(placed@),
            j <= n,
            origin_of(pv, target@) == origin_of(pv.skip(j as int), target@),
        decreases n - j,
    {
        assert(pv.skip(j as int).drop_first() =~= pv.skip(j + 1));
        assert(pv.skip(j as int)[0] == pv[j as int]);
        if same(placed[j].0.as_slice(), target) {
            return Some(placed[j].1);
        }
        j = j + 1;
    }
    None
}

fn name_under(prefix: &[char], name: &[char]) -> (r: Vec<char>)
    ensures
        r@ == qualified(prefix@, name@),
{
    if prefix.len() == 0 {
        copy_of(name)
    } else {
        let mut r = copy_of(prefix);
        r.push('.');
        extend(&mut r, name);
        r
    }
}

fn occurrence_name_of(name: &[char], occurs: usize, k: usize) -> (r: Vec<char>)
    ensures
        r@ == occurrence_name(name@, occurs as nat, k as nat),
{
    if occurs > 1 {
        let mut r = copy_of(name);
        r.push('(');
        extend(&mut r, decimal_of(k).as_slice());
        r.push(')');
        r
    } else {
        copy_of(name)
    }
}

proof fn lemma_after_fields(a: Seq<SpecField>, b: Seq<SpecField>, r: Result<(nat, int, Seq<SpecField>), Refusal>)
    ensures
        after_fields(a, after_fields(b, r)) == after_fields(a + b, r),
{
    match r {
        Err(_) => {},
        Ok((x, y, c)) => {
            assert(a + (b + c) =~= (a + b) + c);
        },
    }
}

/// Lays out the items from `index` at `level` from `start` on, appending
/// their fields to `out`. Gives the offset after them and the index of the
/// first item not consumed.
fn place(
    items: &Vec<Item>,
    index: usize,
    level: u8,
    start: usize,
    prefix: &Vec<char>,
    out: &mut Vec<Field>,
) -> (r: Result<(usize, usize), ContractError>)
    requires
        index <= items.len(),
        items.len() > 0,
    ensures
        match r {
            Ok((end, next)) => {
                &&& lay_out(
                    views(items@),
                    index as int,
                    level as nat,
                    start as nat,
                    prefix@,
                    seq![],
                ) matches Ok((e, n, fs))
                &&& e == end
                &&& n == next
                &&& fields_view(final(out)@) == fields_view(old(out)@) + fs
                &&& start <= end
                &&& within(fs, start as int, end as int)
                &&& index <= next <= items.len()
                &&& (next == items.len() || items@[next as int].level != level)
                &&& (index < items.len() && items@[index as int].level == level) ==> next > index
            },
            Err(e) => refused(
                e,
                lay_out(views(items@), index as int, level as nat, start as nat, prefix@, seq![]),
            ),
        },
    decreases items.len() - index, 1nat,
{
    let ghost iv = views(items@);
    let ghost whole = lay_out(iv, index as int, level as nat, start as nat, prefix@, seq![]);
    let ghost out0 = fields_view(out@);
    let mut i = index;
    let mut offset = start;
    let mut placed: Vec<(Vec<char>, usize)> = Vec::new();
    let ghost mut fs: Seq<SpecField> = seq![];
    assert(placed_view(placed@) =~= Seq::<(Seq<char>, nat)>::empty());
    assert(after_fields(fs, whole) == whole) by {
        match whole {
            Err(_) => {},
            Ok((x, y, c)) => {
                assert(fs + c =~= c);
            },
        }
    }
    assert(fields_view(out@) =~= out0 + fs);
    while i < items.len() && items[i].level == level
        invariant
            index <= i <= items.len(),
            items.len() > 0,
            start <= offset,
            iv == views(items@),
            whole == lay_out(iv, index as int, level as nat, start as nat, prefix@, seq![]),
            whole == after_fields(
                fs,
                lay_out(iv, i as int, level as nat, offset as nat, prefix@, placed_view(placed@)),
            ),
            fields_view(out@) == out0 + fs,
        decreases items.len() - i,
    {
        let item = &items[i];
        assert(iv[i as int] == item@);
        let name = name_under(prefix.as_slice(), item.name.as_slice());
        let origin = match &item.redefines {
            Some(target) => match find_origin(&placed, target.as_slice()) {
                Some(o) => o,
                None => {
                    let reason = join3(
                        item.name.as_slice(),
                        chars_of(" REDEFINES unknown ").as_slice(),
                        target.as_slice(),
                    );
                    return Err(refuse(reason));
                },
            },
            None => offset,
        };
        let ghost out_before = fields_view(out@);
        let (one, next) = match place_occurrences(items, i, level, prefix, &name, origin, out) {
            Ok(v) => v,
            Err(e) => {
                return Err(e);
            },
        };
        let ghost occ = lay_out_occurrences(
            iv,
            i as int,
            level as nat,
            prefix@,
            name@,
            origin as nat,
            1,
            0,
            i + 1,
        );
        let ghost fs_item = occ->Ok_0.2;
        let length = match one.checked_mul(item.occurs) {
            Some(l) => l,
            None => {
                return Err(too_large());
            },
        };
        let end = match origin.checked_add(length) {
            Some(e) => e,
            None => {
                return Err(too_large());
            },
        };
        let ghost old_placed = placed_view(placed@);
        placed.push((copy_of(item.name.as_slice()), origin));
        assert(placed_view(placed@) =~= old_placed.push((item@.name, origin as nat)));
        offset = if item.redefines.is_none() || offset < end {
            end
        } else {
            offset
        };
        proof {
            lemma_after_fields(
                fs,
                fs_item,
                lay_out(iv, next as int, level as nat, offset as nat, prefix@, placed_view(placed@)),
            );
            fs = fs + fs_item;
        }
        i = next;
    }
    proof {
        let none: Seq<(Seq<char>, nat)> = seq![];
        lemma_lay_out_bounds(iv, index as int, level as nat, start as nat, prefix@, none, start as nat);
        lemma_lay_out_next(iv, index as int, level as nat, start as nat, prefix@, none);
        if i < items.len() {
            assert(iv[i as int] == items@[i as int]@);
        }
        if index < items.len() {
            assert(iv[index as int] == items@[index as int]@);
        }
    }
    Ok((offset, i))
}

/// Lays out every occurrence of the item at `index`, named `name`, from
/// `origin` on, appending their fields to `out`. Gives the length of the last
/// occurrence and the index after it.
fn place_occurrences(
    items: &Vec<Item>,
    index: usize,
    level: u8,
    prefix: &Vec<char>,
    name: &Vec<char>,
    origin: usize,
    out: &mut Vec<Field>,
) -> (r: Result<(usize, usize), ContractError>)
    requires
        index < items.len(),
    ensures
        match r {
            Ok((one, next)) => {
                &&& lay_out_occurrences(
                    views(items@),
                    index as int,
                    level as nat,
                    prefix@,
                    name@,
                    origin as nat,
                    1,
                    0,
                    index + 1,
                ) matches Ok((o, n, fs))
                &&& o == one
                &&& n == next
                &&& fields_view(final(out)@) == fields_view(old(out)@) + fs
                &&& index < next <= items.len()
            },
            Err(e) => refused(
                e,
                lay_out_occurrences(
                    views(items@),
                    index as int,
                    level as nat,
                    prefix@,
                    name@,
                    origin as nat,
                    1,
                    0,
                    index + 1,
                ),
            ),
        },
    decreases items.len() - index, 0nat,
{
    let ghost iv = views(items@);
    let ghost whole = lay_out_occurrences(
        iv,
        index as int,
        level as nat,
        prefix@,
        name@,
        origin as nat,
        1,
        0,
        index + 1,
    );
    let ghost out0 = fields_view(out@);
    let item = &items[index];
    assert(iv[index as int] == item@);
    let occurs = item.occurs;
    let mut k: usize = 0;
    let mut one: usize = 0;
    let mut next: usize = index + 1;
    let ghost mut fs: Seq<SpecField> = seq![];
    assert(after_fields(fs, whole) == whole) by {
        match whole {
            Err(_) => {},
            Ok((x, y, c)) => {
                assert(fs + c =~= c);
            },
        }
    }
    assert(fields_view(out@) =~= out0 + fs);
    while k < occurs
        invariant
            index < items.len(),
            iv == views(items@),
            iv[index as int] == item@,
            occurs == item.occurs,
            k <= occurs,
            index < next <= items.len(),
            whole == lay_out_occurrences(
                iv,
                index as int,
                level as nat,
                prefix@,
                name@,
                origin as nat,
                1,
                0,
                index + 1,
            ),
            whole == after_fields(
                fs,
                lay_out_occurrences(
                    iv,
                    index as int,
                    level as nat,
                    prefix@,
                    name@,
                    origin as nat,
                    (k + 1) as nat,
                    one as nat,
                    next as int,
                ),
            ),
            fields_view(out@) == out0 + fs,
        decreases occurs - k,
    {
        let occurrence = k + 1;
        let oname = occurrence_name_of(name.as_slice(), occurs, occurrence);
        let step = match one.checked_mul(k) {
            Some(s) => s,
            None => {
                return Err(too_large());
            },
        };
        let at = match origin.checked_add(step) {
            Some(a) => a,
            None => {
                return Err(too_large());
            },
        };
        let child_prefix: Vec<char> = if prefix.len() == 0 && item.level == items[0].level {
            Vec::new()
        } else {
            copy_of(oname.as_slice())
        };
        let ghost out_before = fields_view(out@);
        let end;
        let after;
        let ghost fs_here: Seq<SpecField>;
        let ghost here = lay_out_occurrence(iv, index as int, level as nat, prefix@, oname@, at as nat);
        match &item.picture {
            Some(picture) => {
                assert(item@.picture == Some(picture@));
                let (length, numeric, signed) = match measure_chars(picture.as_slice()) {
                    Ok(m) => m,
                    Err(e) => {
                        assert(here is Err);
                        return Err(e);
                    },
                };
                if length > usize::MAX - at {
                    assert(here is Err);
                    return Err(too_large());
                }
                if !is_word(item.name.as_slice(), "FILLER") {
                    let field = Field {
                        name: string_of(oname.as_slice()),
                        offset: at,
                        length,
                        numeric,
                        signed,
                    };
                    out.push(field);
                    proof {
                        fs_here = seq![field@];
                    }
                    assert(fields_view(out@) =~= out_before + fs_here);
                } else {
                    proof {
                        fs_here = seq![];
                    }
                    assert(fields_view(out@) =~= out_before + fs_here);
                }
                end = at + length;
                after = index + 1;
            },
            None => {
                if index + 1 < items.len() && items[index + 1].level > level {
                    assert(iv[index + 1] == items@[index + 1]@);
                    match place(items, index + 1, items[index + 1].level, at, &child_prefix, out) {
                        Ok((e, a)) => {
                            end = e;
                            after = a;
                            proof {
                                fs_here = lay_out(
                                    iv,
                                    index + 1,
                                    items[index + 1].level as nat,
                                    at as nat,
                                    child_prefix@,
                                    seq![],
                                )->Ok_0.2;
                            }
                        },
                        Err(e) => {
                            return Err(e);
                        },
                    }
                } else {
                    end = at;
                    after = index + 1;
                    proof {
                        fs_here = seq![];
                    }
                    assert(fields_view(out@) =~= out_before + fs_here);
                }
            },
        }
        proof {
            lemma_after_fields(
                fs,
                fs_here,
                lay_out_occurrences(
                    iv,
                    index as int,
                    level as nat,
                    prefix@,
                    name@,
                    origin as nat,
                    (occurrence + 1) as nat,
                    (end - at) as nat,
                    after as int,
                ),
            );
            fs = fs + fs_here;
        }
        one = end - at;
        next = after;
        k = k + 1;
    }
    Ok((one, next))
}


/// A record layout read from a copybook.
#[derive(Debug)]
pub struct Layout {
    record_name: String,
    record_length: usize,
    fields: Vec<Field>,
}

impl View for Layout {
    type V = SpecLayout;

    closed spec fn view(&self) -> SpecLayout {
        SpecLayout {
            record_name: self.record_name@,
            record_length: self.record_length as nat,
            fields: fields_view(self.fields@),
        }
    }
}

impl Layout {
    /// Every field lies within the record.
    #[verifier::type_invariant]
    spec fn fields_fit(self) -> bool {
        within(fields_view(self.fields@), 0, self.record_length as int)
    }

    /// Read a copybook.
    ///
    /// # Errors
    /// Outside the subset, or no record at all.
    pub fn parse(text: &str) -> (r: Result<Self, ContractError>)
        ensures
            match r {
                Ok(layout) => layout_of(text@) == Ok::<SpecLayout, Refusal>(layout@),
                Err(e) => refused(e, layout_of(text@)),
            },
    {
        let chars = chars_of(text);
        let items = match items(chars.as_slice()) {
            Ok(items) => items,
            Err(e) => {
                return Err(e);
            },
        };
        if items.len() == 0 {
            return Err(refuse(chars_of("no data item")));
        }
        let mut fields: Vec<Field> = Vec::new();
        let root: Vec<char> = Vec::new();
        assert(root@ =~= Seq::<char>::empty());
        let (end, _) = match place(&items, 0, items[0].level, 0, &root, &mut fields) {
            Ok(placed) => placed,
            Err(e) => {
                return Err(e);
            },
        };
        assert(fields_view(fields@) =~= Seq::<SpecField>::empty() + fields_view(fields@));
        proof {
            lemma_fields_within_record(text@);
        }
        Ok(
            Layout {
                record_name: string_of(items[0].name.as_slice()),
                record_length: end,
                fields,
            },
        )
    }

    /// The record's name: the first item's.
    pub fn record_name(&self) -> (r: &str)
        ensures
            r@ == self@.record_name,
    {
        self.record_name.as_str()
    }

    /// The record's length in characters.
    pub fn record_length(&self) -> (r: usize)
        ensures
            r == self@.record_length,
    {
        self.record_length
    }

    /// The elementary fields, in the order the copybook declares them; each
    /// lies within the record.
    pub fn fields(&self) -> (r: &[Field])
        ensures
            fields_view(r@) == self@.fields,
            within(self@.fields, 0, self@.record_length as int),
    {
        proof {
            use_type_invariant(self);
        }
        self.fields.as_slice()
    }
}

} // verus!
