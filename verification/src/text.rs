//! Text as sequences of characters: the few string operations the copybook
//! reader and the record checks rest on, each stated over `Seq<char>`.
use vstd::prelude::*;
use vstd::string::StringSliceAdditionalSpecFns;
use vstd::utf8::valid_utf8;

verus! {

// ---------------------------------------------------------------------------
// Character classes
// ---------------------------------------------------------------------------

/// Unicode `White_Space`: what `char::is_whitespace`, `str::trim` and
/// `str::split_whitespace` treat as blank.
pub open spec fn is_space(c: char) -> bool {
    ||| ('\u{9}' <= c && c <= '\u{d}')
    ||| c == ' '
    ||| c == '\u{85}'
    ||| c == '\u{a0}'
    ||| c == '\u{1680}'
    ||| ('\u{2000}' <= c && c <= '\u{200a}')
    ||| c == '\u{2028}'
    ||| c == '\u{2029}'
    ||| c == '\u{202f}'
    ||| c == '\u{205f}'
    ||| c == '\u{3000}'
}

pub fn space(c: char) -> (b: bool)
    ensures
        b == is_space(c),
{
    ('\u{9}' <= c && c <= '\u{d}') || c == ' ' || c == '\u{85}' || c == '\u{a0}' || c
        == '\u{1680}' || ('\u{2000}' <= c && c <= '\u{200a}') || c == '\u{2028}' || c
        == '\u{2029}' || c == '\u{202f}' || c == '\u{205f}' || c == '\u{3000}'
}

/// An ASCII decimal digit.
pub open spec fn is_digit(c: char) -> bool {
    '0' <= c && c <= '9'
}

pub fn digit(c: char) -> (b: bool)
    ensures
        b == is_digit(c),
{
    '0' <= c && c <= '9'
}

/// ASCII upper case: `a` to `z` become `A` to `Z`, every other character stays.
pub open spec fn upper(c: char) -> char {
    if 'a' <= c && c <= 'z' {
        ((c as u32 - 32) as u8) as char
    } else {
        c
    }
}

pub fn to_upper(c: char) -> (u: char)
    ensures
        u == upper(c),
{
    if 'a' <= c && c <= 'z' {
        let code: u32 = c as u32;
        ((code - 32) as u8) as char
    } else {
        c
    }
}

/// `s` in ASCII upper case.
pub open spec fn upper_all(s: Seq<char>) -> Seq<char> {
    s.map_values(|c: char| upper(c))
}

pub fn to_upper_all(s: &[char]) -> (u: Vec<char>)
    ensures
        u@ == upper_all(s@),
{
    let mut u: Vec<char> = Vec::new();
    let n = s.len();
    for i in 0..n
        invariant
            n == s@.len(),
            u@ == upper_all(s@.take(i as int)),
    {
        u.push(to_upper(s[i]));
        assert(upper_all(s@.take(i + 1)) =~= upper_all(s@.take(i as int)).push(upper(s@[i as int])));
    }
    assert(s@.take(n as int) =~= s@);
    u
}

// ---------------------------------------------------------------------------
// Trimming
// ---------------------------------------------------------------------------

/// `s` without its leading blanks.
pub open spec fn trim_start(s: Seq<char>) -> Seq<char>
    decreases s.len(),
{
    if s.len() > 0 && is_space(s[0]) {
        trim_start(s.drop_first())
    } else {
        s
    }
}

/// `s` without its trailing blanks.
pub open spec fn trim_end(s: Seq<char>) -> Seq<char>
    decreases s.len(),
{
    if s.len() > 0 && is_space(s.last()) {
        trim_end(s.drop_last())
    } else {
        s
    }
}

/// `s` without leading and trailing blanks.
pub open spec fn trim(s: Seq<char>) -> Seq<char> {
    trim_end(trim_start(s))
}

/// Where `trim_start` leaves off: `trim_start(s) == s.skip(i)`.
pub fn skip_blanks(s: &[char]) -> (i: usize)
    ensures
        i <= s@.len(),
        trim_start(s@) == s@.skip(i as int),
{
    let mut i: usize = 0;
    assert(s@.skip(0) =~= s@);
    while i < s.len() && space(s[i])
        invariant
            i <= s@.len(),
            trim_start(s@) == trim_start(s@.skip(i as int)),
        decreases s@.len() - i,
    {
        assert(s@.skip(i as int).drop_first() =~= s@.skip(i + 1));
        i = i + 1;
    }
    i
}

/// Where `trim_end` leaves off: `trim_end(s) == s.take(j)`.
pub fn end_of_blanks(s: &[char]) -> (j: usize)
    ensures
        j <= s@.len(),
        trim_end(s@) == s@.take(j as int),
{
    let mut j: usize = s.len();
    assert(s@.take(j as int) =~= s@);
    while j > 0 && space(s[j - 1])
        invariant
            j <= s@.len(),
            trim_end(s@) == trim_end(s@.take(j as int)),
        decreases j,
    {
        assert(s@.take(j as int).drop_last() =~= s@.take(j - 1));
        j = j - 1;
    }
    j
}

/// The characters `s[from..to]`.
pub fn slice_of(s: &[char], from: usize, to: usize) -> (r: Vec<char>)
    requires
        from <= to <= s@.len(),
    ensures
        r@ == s@.subrange(from as int, to as int),
{
    let mut r: Vec<char> = Vec::new();
    let mut k = from;
    while k < to
        invariant
            from <= k <= to <= s@.len(),
            r@ == s@.subrange(from as int, k as int),
        decreases to - k,
    {
        r.push(s[k]);
        assert(s@.subrange(from as int, k + 1) =~= s@.subrange(from as int, k as int).push(
            s@[k as int],
        ));
        k = k + 1;
    }
    r
}

/// A copy of the characters `s`.
pub fn copy_of(s: &[char]) -> (r: Vec<char>)
    ensures
        r@ == s@,
{
    let r = slice_of(s, 0, s.len());
    assert(s@.subrange(0, s@.len() as int) =~= s@);
    r
}

pub fn trimmed(s: &[char]) -> (r: Vec<char>)
    ensures
        r@ == trim(s@),
{
    let i = skip_blanks(s);
    let rest = slice_of(s, i, s.len());
    assert(rest@ =~= s@.skip(i as int));
    let j = end_of_blanks(rest.as_slice());
    slice_of(rest.as_slice(), 0, j)
}


// ---------------------------------------------------------------------------
// Splitting
// ---------------------------------------------------------------------------

/// What separates the pieces of a text.
#[derive(Clone, Copy)]
pub enum Separator {
    /// One given character, as `str::split(c)` takes it.
    Char(char),
    /// Any blank, as `str::split_whitespace` takes it before dropping empty pieces.
    Blank,
}

pub open spec fn separates(sep: Separator, c: char) -> bool {
    match sep {
        Separator::Char(d) => c == d,
        Separator::Blank => is_space(c),
    }
}

pub fn is_separator(sep: Separator, c: char) -> (b: bool)
    ensures
        b == separates(sep, c),
{
    match sep {
        Separator::Char(d) => c == d,
        Separator::Blank => space(c),
    }
}

/// The pieces between separators, empty ones included: `n` separators make
/// `n + 1` pieces, as `str::split` gives them.
pub open spec fn pieces(s: Seq<char>, sep: Separator) -> Seq<Seq<char>>
    decreases s.len(),
{
    if s.len() == 0 {
        seq![Seq::<char>::empty()]
    } else {
        let p = pieces(s.drop_last(), sep);
        if separates(sep, s.last()) {
            p.push(Seq::<char>::empty())
        } else {
            p.update(p.len() - 1, p.last().push(s.last()))
        }
    }
}

pub proof fn lemma_pieces_nonempty(s: Seq<char>, sep: Separator)
    ensures
        pieces(s, sep).len() >= 1,
    decreases s.len(),
{
    if s.len() > 0 {
        lemma_pieces_nonempty(s.drop_last(), sep);
    }
}

pub fn split(s: &[char], sep: Separator) -> (r: Vec<Vec<char>>)
    ensures
        r.deep_view() == pieces(s@, sep),
{
    let mut done: Vec<Vec<char>> = Vec::new();
    let mut cur: Vec<char> = Vec::new();
    let n = s.len();
    assert(s@.take(0) =~= Seq::<char>::empty());
    for i in 0..n
        invariant
            n == s@.len(),
            done.deep_view().push(cur@) =~= pieces(s@.take(i as int), sep),
    {
        let c = s[i];
        let ghost before = done.deep_view().push(cur@);
        assert(s@.take(i + 1).drop_last() =~= s@.take(i as int));
        let ghost old_done = done.deep_view();
        let ghost old_cur = cur@;
        proof {
            lemma_pieces_nonempty(s@.take(i as int), sep);
        }
        if is_separator(sep, c) {
            assert(cur.deep_view() =~= cur@);
            done.push(cur);
            assert(done.deep_view() =~= old_done.push(old_cur));
            cur = Vec::new();
        } else {
            cur.push(c);
        }
        assert(done.deep_view().push(cur@) =~= pieces(s@.take(i + 1), sep));
    }
    assert(s@.take(n as int) =~= s@);
    let ghost old_done = done.deep_view();
    assert(cur.deep_view() =~= cur@);
    done.push(cur);
    assert(done.deep_view() =~= old_done.push(cur@));
    done
}

/// The pieces that are not empty, in order.
pub open spec fn non_empty(p: Seq<Seq<char>>) -> Seq<Seq<char>>
    decreases p.len(),
{
    if p.len() == 0 {
        p
    } else if p.last().len() == 0 {
        non_empty(p.drop_last())
    } else {
        non_empty(p.drop_last()).push(p.last())
    }
}

pub fn keep_non_empty(p: Vec<Vec<char>>) -> (r: Vec<Vec<char>>)
    ensures
        r.deep_view() == non_empty(p.deep_view()),
{
    let mut r: Vec<Vec<char>> = Vec::new();
    let n = p.len();
    let mut p = p;
    let ghost whole = p.deep_view();
    let mut i: usize = 0;
    while i < n
        invariant
            n == whole.len(),
            p.deep_view() == whole,
            i <= n,
            r.deep_view() =~= non_empty(whole.take(i as int)),
        decreases n - i,
    {
        assert(whole.take(i + 1).drop_last() =~= whole.take(i as int));
        let piece = p[i].clone();
        if piece.len() > 0 {
            r.push(piece);
        }
        i = i + 1;
    }
    assert(whole.take(n as int) =~= whole);
    r
}

/// The blank-separated words of `s`, as `str::split_whitespace` gives them.
pub open spec fn words(s: Seq<char>) -> Seq<Seq<char>> {
    non_empty(pieces(s, Separator::Blank))
}

pub fn words_of(s: &[char]) -> (r: Vec<Vec<char>>)
    ensures
        r.deep_view() == words(s@),
{
    keep_non_empty(split(s, Separator::Blank))
}


// ---------------------------------------------------------------------------
// Lines
// ---------------------------------------------------------------------------

/// `l` without one trailing carriage return.
pub open spec fn strip_cr(l: Seq<char>) -> Seq<char> {
    if l.len() > 0 && l.last() == '\r' {
        l.drop_last()
    } else {
        l
    }
}

pub fn without_cr(l: Vec<char>) -> (r: Vec<char>)
    ensures
        r@ == strip_cr(l@),
{
    let mut l = l;
    if l.len() > 0 && l[l.len() - 1] == '\r' {
        l.pop();
    }
    l
}

/// The lines of `s`, as `str::lines` gives them: split at `\n`, a line ended
/// by `\r\n` loses its `\r`, and a final line ending adds no empty line.
pub open spec fn lines(s: Seq<char>) -> Seq<Seq<char>> {
    let p = pieces(s, Separator::Char('\n'));
    let ended = p.drop_last().map_values(|l: Seq<char>| strip_cr(l));
    if p.last().len() == 0 {
        ended
    } else {
        ended.push(p.last())
    }
}

pub fn lines_of(s: &[char]) -> (r: Vec<Vec<char>>)
    ensures
        r.deep_view() == lines(s@),
{
    let p = split(s, Separator::Char('\n'));
    let ghost pv = p.deep_view();
    proof {
        lemma_pieces_nonempty(s@, Separator::Char('\n'));
    }
    let n = p.len();
    let mut r: Vec<Vec<char>> = Vec::new();
    let mut i: usize = 0;
    while i + 1 < n
        invariant
            p.deep_view() == pv,
            n == pv.len(),
            n >= 1,
            i + 1 <= n,
            r.deep_view() =~= pv.take(i as int).map_values(|l: Seq<char>| strip_cr(l)),
        decreases n - i,
    {
        let line = without_cr(copy_of(p[i].as_slice()));
        assert(p@[i as int].deep_view() =~= p@[i as int]@);
        let ghost before = r.deep_view();
        assert(line.deep_view() =~= line@);
        r.push(line);
        assert(r.deep_view() =~= before.push(strip_cr(pv[i as int])));
        assert(pv.take(i + 1) =~= pv.take(i as int).push(pv[i as int]));
        i = i + 1;
    }
    assert(pv.take(i as int) =~= pv.drop_last());
    let last = copy_of(p[n - 1].as_slice());
    assert(p@[n - 1].deep_view() =~= p@[n - 1]@);
    if last.len() > 0 {
        let ghost before = r.deep_view();
        assert(last.deep_view() =~= last@);
        r.push(last);
        assert(r.deep_view() =~= before.push(pv.last()));
    }
    r
}

// ---------------------------------------------------------------------------
// Numbers
// ---------------------------------------------------------------------------

/// The digit that writes `d`, for `d < 10`.
pub open spec fn digit_char(d: nat) -> char {
    ((48 + d) as u8) as char
}

/// `n` written in decimal, without leading zeros.
pub open spec fn decimal(n: nat) -> Seq<char>
    decreases n,
{
    if n < 10 {
        seq![digit_char(n)]
    } else {
        decimal(n / 10).push(digit_char(n % 10))
    }
}

pub fn decimal_of(n: usize) -> (r: Vec<char>)
    ensures
        r@ == decimal(n as nat),
    decreases n,
{
    let d: u8 = (n % 10) as u8;
    let c: char = (48u8 + d) as char;
    if n < 10 {
        let mut r: Vec<char> = Vec::new();
        r.push(c);
        assert(r@ =~= seq![digit_char(n as nat)]);
        r
    } else {
        let mut r = decimal_of(n / 10);
        r.push(c);
        r
    }
}

/// The value of a decimal digit.
pub open spec fn digit_value(c: char) -> int {
    c as u32 - 48
}

/// The value of a string of decimal digits.
pub open spec fn digits_value(s: Seq<char>) -> int
    decreases s.len(),
{
    if s.len() == 0 {
        0
    } else {
        digits_value(s.drop_last()) * 10 + digit_value(s.last())
    }
}

pub open spec fn all_digits(s: Seq<char>) -> bool {
    forall|i: int| 0 <= i < s.len() ==> is_digit(#[trigger] s[i])
}

/// What `str::parse` reads as an unsigned integer no larger than `max`: an
/// optional `+` and then one or more decimal digits, with nothing else.
pub open spec fn parse_unsigned(s: Seq<char>, max: nat) -> Option<nat> {
    let body = if s.len() > 0 && s[0] == '+' {
        s.drop_first()
    } else {
        s
    };
    if body.len() > 0 && all_digits(body) && digits_value(body) <= max {
        Some(digits_value(body) as nat)
    } else {
        None
    }
}

pub proof fn lemma_digits_value_grows(s: Seq<char>, k: int)
    requires
        all_digits(s),
        0 <= k <= s.len(),
    ensures
        0 <= digits_value(s.take(k)) <= digits_value(s),
    decreases s.len(),
{
    if s.len() > 0 {
        if k == s.len() {
            assert(s.take(k) =~= s);
            lemma_digits_value_grows(s.drop_last(), k - 1);
            assert(s.drop_last().take(k - 1) =~= s.drop_last());
            assert(is_digit(s[s.len() - 1]));
        } else {
            lemma_digits_value_grows(s.drop_last(), k);
            assert(s.drop_last().take(k) =~= s.take(k));
            assert(is_digit(s[s.len() - 1]));
        }
    }
}

/// `str::parse` of an unsigned integer whose type holds values up to `max`.
pub fn parse_unsigned_of(s: &[char], max: usize) -> (r: Option<usize>)
    ensures
        r matches Some(v) ==> parse_unsigned(s@, max as nat) == Some(v as nat) && v <= max,
        r is None ==> parse_unsigned(s@, max as nat) is None,
{
    let start: usize = if s.len() > 0 && s[0] == '+' {
        1
    } else {
        0
    };
    let ghost body = s@.skip(start as int);
    assert(start == 1 ==> body =~= s@.drop_first());
    assert(start == 0 ==> body =~= s@);
    let ghost spec_body = if s@.len() > 0 && s@[0] == '+' {
        s@.drop_first()
    } else {
        s@
    };
    assert(spec_body == body);
    if start == s.len() {
        return None;
    }
    let mut v: usize = 0;
    let mut i: usize = start;
    assert(body.take(0) =~= Seq::<char>::empty());
    while i < s.len()
        invariant
            start <= i <= s@.len(),
            body == s@.skip(start as int),
            parse_unsigned(s@, max as nat) == (if body.len() > 0 && all_digits(body) && digits_value(
                body,
            ) <= max {
                Some(digits_value(body) as nat)
            } else {
                None
            }),
            v as int == digits_value(body.take(i - start)),
            v <= max,
            all_digits(body.take(i - start)),
        decreases s@.len() - i,
    {
        let c = s[i];
        assert(body[i - start] == c);
        if !digit(c) {
            assert(!is_digit(body[i - start]));
            assert(!all_digits(body));
            return None;
        }
        let d: usize = ((c as u32) - 48) as usize;
        assert(body.take(i + 1 - start).drop_last() =~= body.take(i - start));
        if d > max || v > (max - d) / 10 {
            assert(v * 10 + d > max) by (nonlinear_arith)
                requires
                    d > max || v > (max - d) / 10,
                    d <= max ==> (max - d) / 10 < v,
            ;
            proof {
                if all_digits(body) {
                    lemma_digits_value_grows(body, i + 1 - start);
                }
            }
            return None;
        }
        assert(v * 10 + d <= max) by (nonlinear_arith)
            requires
                d <= max,
                v <= (max - d) / 10,
        ;
        v = v * 10 + d;
        i = i + 1;
    }
    assert(body.take(i - start) =~= body);
    Some(v)
}

// ---------------------------------------------------------------------------
// Conversions and comparisons
// ---------------------------------------------------------------------------

/// The characters of `s`, in order.
pub fn chars_of(s: &str) -> (v: Vec<char>)
    ensures
        v@ == s@,
{
    let mut v: Vec<char> = Vec::new();
    for c in it: s.chars()
        invariant
            v@ == it.seq().take(it.index() as int),
    {
        v.push(c);
    }
    v
}

/// Appends one character to a `String` (`String::push`).
#[verifier::external_body]
fn push_char(s: &mut String, c: char)
    ensures
        final(s)@ == old(s)@.push(c),
{
    s.push(c);
}

/// The `String` of the characters `v`.
pub fn string_of(v: &[char]) -> (s: String)
    ensures
        s@ == v@,
{
    let mut s = String::new();
    let n = v.len();
    for i in 0..n
        invariant
            n == v@.len(),
            s@ == v@.take(i as int),
    {
        push_char(&mut s, v[i]);
        assert(v@.take(i + 1) =~= v@.take(i as int).push(v@[i as int]));
    }
    assert(v@.take(n as int) =~= v@);
    s
}

/// Whether two character sequences are the same.
pub fn same(a: &[char], b: &[char]) -> (r: bool)
    ensures
        r == (a@ == b@),
{
    if a.len() != b.len() {
        return false;
    }
    let n = a.len();
    for i in 0..n
        invariant
            n == a@.len(),
            n == b@.len(),
            forall|j: int| 0 <= j < i ==> a@[j] == b@[j],
    {
        if a[i] != b[i] {
            return false;
        }
    }
    assert(a@ =~= b@);
    true
}

/// Appends the characters `w` to `v`.
pub fn extend(v: &mut Vec<char>, w: &[char])
    ensures
        final(v)@ == old(v)@ + w@,
{
    let n = w.len();
    let ghost start = v@;
    for i in 0..n
        invariant
            n == w@.len(),
            v@ == start + w@.take(i as int),
    {
        v.push(w[i]);
        assert(w@.take(i + 1) =~= w@.take(i as int).push(w@[i as int]));
    }
    assert(w@.take(n as int) =~= w@);
}

/// The text `format!("{:?}", s)` gives for a string: `s` quoted, with the
/// characters that `Debug` escapes written as escapes.
pub uninterp spec fn debug_text(s: Seq<char>) -> Seq<char>;

/// `<str as Debug>::fmt` through `format!`.
#[verifier::external_body]
fn quoted_text(s: &str) -> (r: String)
    ensures
        r@ == debug_text(s@),
{
    format!("{:?}", s)
}

/// The text `format!("{:?}", c)` gives for a character: `c` in single quotes,
/// escaped as `Debug` escapes it.
pub uninterp spec fn debug_char(c: char) -> Seq<char>;

/// `<char as Debug>::fmt` through `format!`.
#[verifier::external_body]
fn quoted_char(c: char) -> (r: String)
    ensures
        r@ == debug_char(c),
{
    format!("{:?}", c)
}

/// `s` as `Debug` writes it.
pub fn debug_text_of(s: &[char]) -> (r: Vec<char>)
    ensures
        r@ == debug_text(s@),
{
    let t = string_of(s);
    let q = quoted_text(t.as_str());
    chars_of(q.as_str())
}

/// `c` as `Debug` writes it.
pub fn debug_char_of(c: char) -> (r: Vec<char>)
    ensures
        r@ == debug_char(c),
{
    let q = quoted_char(c);
    chars_of(q.as_str())
}


// ---------------------------------------------------------------------------
// UTF-8
// ---------------------------------------------------------------------------

#[verifier::external_type_specification]
#[verifier::external_body]
pub struct ExUtf8Error(core::str::Utf8Error);

/// A decoding that failed: the error `core::str::from_utf8` gave, and the
/// bytes it was given. Only `utf8_text` makes one.
pub struct Utf8Failure {
    error: core::str::Utf8Error,
    input: Ghost<Seq<u8>>,
}

impl Utf8Failure {
    /// The bytes that did not decode.
    pub closed spec fn input(self) -> Seq<u8> {
        self.input@
    }
}

/// `n` is the length of the longest prefix of `bytes` that is valid UTF-8.
pub open spec fn valid_prefix(bytes: Seq<u8>, n: nat) -> bool {
    &&& n <= bytes.len()
    &&& valid_utf8(bytes.take(n as int))
    &&& forall|j: int| n < j <= bytes.len() ==> !valid_utf8(#[trigger] bytes.take(j))
}

/// `core::str::from_utf8`: the bytes as a string slice when they are valid
/// UTF-8, the same bytes; an error otherwise, kept with the bytes it is about.
#[verifier::external_body]
pub(crate) fn utf8_text(bytes: &[u8]) -> (r: Result<&str, Utf8Failure>)
    ensures
        r is Ok <==> valid_utf8(bytes@),
        r matches Ok(s) ==> s.spec_bytes() == bytes@,
        r matches Err(f) ==> f.input() == bytes@,
{
    match core::str::from_utf8(bytes) {
        Ok(s) => Ok(s),
        Err(error) => Err(Utf8Failure { error, input: Ghost(bytes@) }),
    }
}

/// `Utf8Error::valid_up_to`, which its documentation gives as the largest
/// index such that `from_utf8(&input[..index])` succeeds: the length of the
/// longest prefix of the input that is valid UTF-8.
#[verifier::external_body]
pub(crate) fn utf8_valid_up_to(f: &Utf8Failure) -> (n: usize)
    ensures
        valid_prefix(f.input(), n as nat),
{
    f.error.valid_up_to()
}

/// The text `<Utf8Error as Display>` writes for the error `from_utf8` gives
/// on `bytes`: its documentation does not give the wording, which depends on
/// the bytes alone.
pub uninterp spec fn utf8_error_message(bytes: Seq<u8>) -> Seq<char>;

/// `<Utf8Error as Display>::fmt` through `format!`.
#[verifier::external_body]
pub(crate) fn utf8_error_text(f: &Utf8Failure) -> (r: String)
    ensures
        r@ == utf8_error_message(f.input()),
{
    format!("{}", f.error)
}

} // verus!
