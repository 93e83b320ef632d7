use fixed_width::contract::{ValidationIssue, ValidationResult};
use fixed_width::copybook::{measure, Layout};
use fixed_width::{FixedWidth, FixedWidthFactory};

const ORDER: &str = "
       01  ORDER-RECORD.
           05  ORDER-ID        PIC X(6).
           05  CUSTOMER        PIC X(10).
           05  LINE-COUNT      PIC 9(2).
           05  ORDER-LINE      OCCURS 2 TIMES.
               10  SKU         PIC X(4).
               10  QTY         PIC S9(3).
           05  TOTAL           PIC 9(5)V99.
    ";

const GOOD: &str = "A00001ACME      02X001+02X0020100001500";

fn refusal(text: &str) -> String {
    Layout::parse(text).err().expect("refused").message
}

fn fields(text: &str) -> Vec<(String, usize, usize, bool, bool)> {
    Layout::parse(text)
        .expect("parses")
        .fields()
        .iter()
        .map(|f| (f.name.clone(), f.offset, f.length, f.numeric, f.signed))
        .collect()
}

#[test]
fn pictures_count_repeats_and_symbols() {
    assert_eq!(measure("9(3)V9(2)").expect("ok"), (5, true, false));
    assert_eq!(measure("x(2)").expect("ok"), (2, false, false));
    assert_eq!(measure("X( 4 )").expect("ok"), (4, false, false));
    assert_eq!(measure("X(+4)").expect("ok"), (4, false, false));
    assert_eq!(measure("X(4").expect("ok"), (4, false, false));
    assert_eq!(measure("-ZZ,ZZ9.99+").expect("ok"), (11, true, false));
    assert_eq!(measure("").expect("ok"), (0, true, false));
    assert_eq!(measure("SA").expect("ok"), (1, false, true));
}

#[test]
fn pictures_outside_the_subset_are_refused_by_name() {
    assert_eq!(
        measure("X(a)").err().expect("refused").message,
        "copybook refused: picture \"X(a)\" has a bad repeat"
    );
    assert_eq!(
        measure("Q(3)").err().expect("refused").message,
        "copybook refused: picture symbol 'Q' is not supported"
    );
    assert_eq!(
        measure("PPP9").err().expect("refused").message,
        "copybook refused: picture symbol 'P' is not supported"
    );
    assert_eq!(
        measure("99B99").err().expect("refused").message,
        "copybook refused: picture symbol 'B' is not supported"
    );
    assert_eq!(
        measure("X(-1)").err().expect("refused").message,
        "copybook refused: picture \"X(-1)\" has a bad repeat"
    );
    assert_eq!(
        measure("X(18446744073709551615)X").err().expect("refused").message,
        "copybook refused: the layout does not fit in memory"
    );
}

#[test]
fn every_refusal_says_why() {
    assert_eq!(refusal(""), "copybook refused: no data item");
    assert_eq!(refusal("      * only a comment\n"), "copybook refused: no data item");
    assert_eq!(refusal("01 R. 05."), "copybook refused: cannot read \"05\"");
    assert_eq!(refusal("AB X."), "copybook refused: cannot read level in \"AB X\"");
    assert_eq!(refusal("01 R PIC."), "copybook refused: PIC without a picture");
    assert_eq!(refusal("01 R PIC IS."), "copybook refused: PIC IS without a picture");
    assert_eq!(refusal("01 R OCCURS."), "copybook refused: OCCURS without a count");
    assert_eq!(refusal("01 R OCCURS x."), "copybook refused: OCCURS X is not a count");
    assert_eq!(
        refusal("01 R. 05 A OCCURS 1 TO 5 PIC X."),
        "copybook refused: OCCURS DEPENDING ON is not supported"
    );
    assert_eq!(
        refusal("01 R. 05 A PIC X DEPENDING ON N."),
        "copybook refused: OCCURS DEPENDING ON is not supported"
    );
    assert_eq!(refusal("01 R REDEFINES."), "copybook refused: REDEFINES without a name");
    assert_eq!(
        refusal("01 R. 05 A REDEFINES B PIC X."),
        "copybook refused: A REDEFINES unknown B"
    );
    assert_eq!(
        refusal("01 R. 05 n pic s9(4) comp."),
        "copybook refused: COMP in N: only DISPLAY usage is text"
    );
    assert_eq!(
        refusal("01 R. 05 A PIC S9 SIGN LEADING SEPARATE."),
        "copybook refused: SIGN SEPARATE is not supported"
    );
    assert_eq!(refusal("01 R. COPY X."), "copybook refused: cannot read level in \"COPY X\"");
    assert_eq!(refusal("01 R. 50 A PIC X."), "copybook refused: level 50 is not supported");
    assert_eq!(refusal("00 R. 05 A PIC X."), "copybook refused: level 00 is not supported");
    assert_eq!(
        refusal("01 R. 05 A PIC X SYNC."),
        "copybook refused: SYNC in A is not supported"
    );
    assert_eq!(
        refusal("01 R. 05 A PIC S9 SIGN LEADING."),
        "copybook refused: SIGN in A is not supported"
    );
    assert_eq!(fields("01 R. 05 A PIC X VALUE."), [("A".to_string(), 0, 1, false, false)]);
    assert_eq!(
        refusal("01 R. 05 A COPY X."),
        "copybook refused: COPY inside a copybook is not supported"
    );
    assert_eq!(
        refusal("01 R. 05 A PIC X(18446744073709551615). 05 B PIC X."),
        "copybook refused: the layout does not fit in memory"
    );
}

#[test]
fn the_order_layout_places_every_field() {
    let layout = Layout::parse(ORDER).expect("parses");
    assert_eq!(layout.record_name(), "ORDER-RECORD");
    assert_eq!(layout.record_length(), 39);
    assert_eq!(
        fields(ORDER),
        [
            ("ORDER-ID".to_string(), 0, 6, false, false),
            ("CUSTOMER".to_string(), 6, 10, false, false),
            ("LINE-COUNT".to_string(), 16, 2, true, false),
            ("ORDER-LINE(1).SKU".to_string(), 18, 4, false, false),
            ("ORDER-LINE(1).QTY".to_string(), 22, 3, true, true),
            ("ORDER-LINE(2).SKU".to_string(), 25, 4, false, false),
            ("ORDER-LINE(2).QTY".to_string(), 29, 3, true, true),
            ("TOTAL".to_string(), 32, 7, true, false),
        ]
    );
    for f in layout.fields() {
        assert!(f.offset + f.length <= layout.record_length());
    }
}

#[test]
fn nested_groups_and_many_occurrences_are_named_in_full() {
    let text = "01 R. 05 G OCCURS 2. 10 H. 15 X PIC X. 05 I OCCURS 12 PIC 9. 05 FILLER OCCURS 3 PIC X.";
    let names: Vec<(String, usize)> = fields(text).into_iter().map(|f| (f.0, f.1)).collect();
    assert_eq!(names[0], ("G(1).H.X".to_string(), 0));
    assert_eq!(names[1], ("G(2).H.X".to_string(), 1));
    assert_eq!(names[2], ("I(1)".to_string(), 2));
    assert_eq!(names[13], ("I(12)".to_string(), 13));
    assert_eq!(names.len(), 14);
    assert_eq!(Layout::parse(text).expect("parses").record_length(), 2 + 12 + 3);
}

#[test]
fn a_redefinition_never_pulls_the_offset_back() {
    let text = "01 R. 05 A PIC X(4). 05 B REDEFINES A PIC X(2). 05 C PIC X.";
    assert_eq!(
        fields(text),
        [
            ("A".to_string(), 0, 4, false, false),
            ("B".to_string(), 0, 2, false, false),
            ("C".to_string(), 4, 1, false, false),
        ]
    );
    let longer = "01 R. 05 A PIC X(2). 05 B REDEFINES A PIC X(6). 05 C PIC X.";
    assert_eq!(fields(longer)[2], ("C".to_string(), 6, 1, false, false));
    assert_eq!(Layout::parse(longer).expect("parses").record_length(), 7);
}

#[test]
fn fixed_format_source_loses_its_sequence_area() {
    let text = "000100 01 R.\n000200* a comment in the indicator column\n000300 05 A PIC X(3).\n\
                123456 05 B PIC 9.\n";
    assert_eq!(
        fields(text),
        [
            ("A".to_string(), 0, 3, false, false),
            ("B".to_string(), 3, 1, true, false),
        ]
    );
    // Six spaces then a blank are an empty sequence area: stripping it
    // changes nothing, and six spaces then `*` mark a comment.
    let blank = "       01 R.\r\n      * a comment\r\n       05 A PIC X.\r\n       66 X RENAMES A.\r\n";
    assert_eq!(fields(blank), [("A".to_string(), 0, 1, false, false)]);
    // A line whose seventh character is neither a blank nor `*` is read whole.
    let free = "01 R.\n      05 A PIC X.\n";
    assert_eq!(fields(free), [("A".to_string(), 0, 1, false, false)]);
}

#[test]
fn a_group_with_no_occurrence_lays_out_nothing() {
    let text = "01 R. 05 A PIC X. 05 G OCCURS 0. 10 B PIC X. 05 C PIC X.";
    let layout = Layout::parse(text).expect("parses");
    assert_eq!(fields(text), [("A".to_string(), 0, 1, false, false)]);
    assert_eq!(layout.record_length(), 1);
}

#[test]
fn departures_name_their_reason() {
    let bound = FixedWidth::with_copybook(ORDER).expect("copybook");
    let text = "A00001ACME      02X001+-2X0020100001500\nA00001ACME      +2X001+02X002010000150.\n\
                A00001ACME      1aX001+02X0020100001500\n";
    let held = bound.validate(text.as_bytes()).expect("validates");
    let seen: Vec<(&str, &str, &str)> = held
        .issues
        .iter()
        .map(|i| (i.code.as_str(), i.message.as_str(), i.path.as_deref().unwrap_or("")))
        .collect();
    assert_eq!(
        seen,
        [
            (
                "value",
                "\"+-2\" carries a sign the picture does not",
                "record 1 / ORDER-LINE(1).QTY"
            ),
            (
                "value",
                "\"+2\" carries a sign the picture does not",
                "record 2 / LINE-COUNT"
            ),
            ("value", "\"1a\" is not numeric", "record 3 / LINE-COUNT"),
        ]
    );
    assert!(!held.valid);
}

#[test]
fn a_record_of_another_length_is_reported_once() {
    let bound = FixedWidth::with_copybook(ORDER).expect("copybook");
    let held = bound.validate("short\r\n\r\n".as_bytes()).expect("validates");
    assert_eq!(held.issues.len(), 1);
    assert_eq!(held.issues[0].code, "length");
    assert_eq!(held.issues[0].message, "is 5 characters, the layout is 39");
    assert_eq!(held.issues[0].path.as_deref(), Some("record 1"));
}

#[test]
fn slices_cover_the_text_without_line_breaks() {
    let bound = FixedWidth::with_copybook(ORDER).expect("copybook");
    let text = format!("{GOOD}{GOOD}{GOOD}");
    assert!(bound.validate(text.as_bytes()).expect("validates").valid);
    let held = bound.validate(format!("{GOOD}{GOOD}A").as_bytes()).expect("validates");
    assert_eq!(held.issues.len(), 1);
    assert_eq!(held.issues[0].path.as_deref(), Some("record 3"));
    assert_eq!(held.issues[0].message, "is 1 characters, the layout is 39");
    assert!(bound.validate(b"").expect("validates").valid);
}

#[test]
fn text_that_is_not_utf8_is_malformed() {
    let bare = FixedWidth::new();
    assert_eq!(bare.identify(b"plain").expect("identifies"), true);
    assert_eq!(bare.identify(&[0x41, 0xff]).expect("identifies"), false);
    let held = bare.validate(&[0x41, 0x42, 0xff]).expect("validates");
    assert_eq!(held.issues.len(), 1);
    assert_eq!(held.issues[0].code, "malformed");
    assert!(held.issues[0].message.starts_with("not UTF-8 text: "));
    assert!(held.issues[0].message.len() > "not UTF-8 text: ".len());
    assert_eq!(held.issues[0].path.as_deref(), Some("byte 2"));
    let lone = bare.validate(&[0xff]).expect("validates");
    assert_eq!(lone.issues[0].path.as_deref(), Some("byte 0"));
    let cut = bare.validate(&[0x41, 0xe2, 0x82]).expect("validates");
    assert_eq!(cut.issues[0].path.as_deref(), Some("byte 1"));
    assert!(!held.valid);
}

#[test]
fn a_bound_contract_is_described_by_its_record() {
    let bare = FixedWidth::default();
    assert!(!bare.is_bound());
    assert_eq!(bare.descriptor().id.0, "fixed-width");
    assert_eq!(bare.descriptor().version, "1");
    assert_eq!(bare.descriptor().representation, "text/plain");
    let bound = FixedWidth::with_copybook(ORDER).expect("copybook");
    assert!(bound.is_bound());
    assert_eq!(
        FixedWidth::with_copybook("01 R. 05 N PIC 9 COMP-3.").err().expect("refused").message,
        "copybook refused: COMP-3 in N: only DISPLAY usage is text"
    );
}

#[test]
fn a_blank_reference_is_the_bare_contract() {
    assert!(FixedWidthFactory::is_bare(""));
    assert!(FixedWidthFactory::is_bare(" \t "));
    assert!(!FixedWidthFactory::is_bare("order.cpy"));
    let factory = FixedWidthFactory;
    assert!(!factory.load_text("  ", ORDER).expect("bare").is_bound());
    assert!(factory.load_text("x.cpy", "01 R PIC.").is_err());
}

#[test]
fn results_are_valid_exactly_without_issues() {
    assert!(ValidationResult::of(Vec::new()).valid);
    let issue = ValidationIssue::at("value", "bad", "record 1 / A");
    assert_eq!(issue.path.as_deref(), Some("record 1 / A"));
    let result = ValidationResult::of(vec![issue]);
    assert!(!result.valid);
    assert_eq!(result.issues[0].code, "value");
}

#[test]
fn filler_takes_room_and_lists_no_field() {
    let text = "01 R. 05 FILLER PIC X(2). 05 A PIC X. 05 G. 10 filler PIC 9. 10 B PIC X.";
    assert_eq!(
        fields(text),
        [
            ("A".to_string(), 2, 1, false, false),
            ("G.B".to_string(), 4, 1, false, false),
        ]
    );
    assert_eq!(Layout::parse(text).expect("parses").record_length(), 5);
}

#[test]
fn comment_and_blank_lines_change_nothing() {
    let plain = "01 R.\n05 A PIC X.\n05 B PIC 9.\n";
    let commented = "01 R.\n      * note\n\n05 A PIC X.\n   *another\n05 B PIC 9.\n";
    assert_eq!(fields(plain), fields(commented));
    assert_eq!(fields(plain).len(), 2);
}

#[test]
fn condition_names_and_renames_declare_nothing() {
    let plain = "01 R. 05 A PIC X. 05 B PIC 9.";
    let with = "01 R. 05 A PIC X. 88 A-YES VALUE 'Y'. 66 C RENAMES A. 05 B PIC 9.";
    assert_eq!(fields(plain), fields(with));
    assert_eq!(Layout::parse(with).expect("parses").record_length(), 2);
}

#[test]
fn a_full_stop_inside_a_picture_ends_no_statement() {
    let text = "01 R. 05 A PIC ZZ9.99. 05 B PIC 9,999.";
    assert_eq!(
        fields(text),
        [
            ("A".to_string(), 0, 6, true, false),
            ("B".to_string(), 6, 5, true, false),
        ]
    );
}

#[test]
fn clauses_of_the_subset_are_read_and_ignored() {
    let text = "01 R. 05 A PIC X(3) USAGE IS DISPLAY JUSTIFIED RIGHT VALUE 'A B'. \
                05 B PIC 9 VALUE IS ZERO. 05 C OCCURS 2 TIMES PIC X VALUE ALL '*'.";
    assert_eq!(
        fields(text),
        [
            ("A".to_string(), 0, 3, false, false),
            ("B".to_string(), 3, 1, true, false),
            ("C(1)".to_string(), 4, 1, false, false),
            ("C(2)".to_string(), 5, 1, false, false),
        ]
    );
}

#[test]
fn joined_pictures_add_their_lengths() {
    let p = measure("X(3)").expect("ok");
    let q = measure("S9(2)V99").expect("ok");
    let pq = measure("X(3)S9(2)V99").expect("ok");
    assert_eq!(pq, (p.0 + q.0, p.1 && q.1, p.2 || q.2));
    assert_eq!(pq, (7, false, true));
}

#[test]
fn a_binary_usage_after_other_clauses_is_refused_by_name() {
    assert_eq!(
        refusal("01 R. 05 amount PIC S9(4) VALUE 'A B' USAGE IS COMP-5."),
        "copybook refused: COMP-5 in AMOUNT: only DISPLAY usage is text"
    );
}

#[test]
fn records_do_not_depend_on_how_breaks_are_written() {
    let bound = FixedWidth::with_copybook(ORDER).expect("copybook");
    let lf = "A00001ACME      02X001+02X0020100001500\nshort\nA00001ACME      1aX001+02X0020100001500\n";
    let seen = |text: &str| -> Vec<(String, String, Option<String>)> {
        bound
            .validate(text.as_bytes())
            .expect("validates")
            .issues
            .into_iter()
            .map(|i| (i.code, i.message, i.path))
            .collect()
    };
    let plain = seen(lf);
    assert_eq!(plain.len(), 2);
    assert_eq!(plain, seen(&lf.replace('\n', "\r\n")));
    assert_eq!(plain, seen(&lf.replace('\n', "\n\n")));
}

#[test]
fn the_malformed_issue_carries_the_decoding_error() {
    let issue = fixed_width::malformed_issue("bad byte", 3);
    assert_eq!(issue.code, "malformed");
    assert_eq!(issue.message, "not UTF-8 text: bad byte");
    assert_eq!(issue.path.as_deref(), Some("byte 3"));
    let bytes = [0x41, 0xe2, 0x28, 0xa1];
    let error = std::str::from_utf8(&bytes).unwrap_err();
    let held = FixedWidth::new().validate(&bytes).expect("validates");
    assert_eq!(held.issues[0].message, format!("not UTF-8 text: {error}"));
    assert_eq!(held.issues[0].path.as_deref(), Some("byte 1"));
}

#[test]
fn a_full_stop_ends_a_statement_outside_a_picture() {
    assert_eq!(
        fields("01 R.05 A PIC X. 05 B PIC 9."),
        [
            ("A".to_string(), 0, 1, false, false),
            ("B".to_string(), 1, 1, true, false),
        ]
    );
    assert_eq!(
        fields("01 R.05 A pic is zz9.99. 05 B PICTURE 9.9.  05 C PIC X."),
        [
            ("A".to_string(), 0, 6, true, false),
            ("B".to_string(), 6, 3, true, false),
            ("C".to_string(), 9, 1, false, false),
        ]
    );
}
