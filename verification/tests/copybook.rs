use fixed_width::copybook::{measure, Layout};

#[test]
fn a_picture_measures_its_storage() {
    assert_eq!(measure("X(10)").expect("ok"), (10, false, false));
    assert_eq!(measure("S9(5)V99").expect("ok"), (7, true, true));
    assert_eq!(measure("999").expect("ok"), (3, true, false));
    assert_eq!(measure("ZZ9.99").expect("ok"), (6, true, false));
    assert!(measure("Q(3)").is_err());
}

#[test]
fn occurs_and_redefines_lay_out_as_cobol_does() {
    let text = "
000100 01 REC.
000200    05 KIND      PIC X.
000300    05 BODY      PIC X(8).
000400    05 BODY-NUM  REDEFINES BODY PIC 9(8).
000500    05 ITEM      OCCURS 3 TIMES.
000600       10 CODE   PIC X(2).
000700       10 AMT    PIC 9(3).
000800    05 FILLER    PIC X(2).
        ";
    let layout = Layout::parse(text).expect("parses");
    assert_eq!(layout.record_name(), "REC");
    assert_eq!(layout.record_length(), 1 + 8 + 15 + 2);
    let names: Vec<(&str, usize)> = layout
        .fields()
        .iter()
        .map(|f| (f.name.as_str(), f.offset))
        .collect();
    assert_eq!(
        names,
        [
            ("KIND", 0),
            ("BODY", 1),
            ("BODY-NUM", 1),
            ("ITEM(1).CODE", 9),
            ("ITEM(1).AMT", 11),
            ("ITEM(2).CODE", 14),
            ("ITEM(2).AMT", 16),
            ("ITEM(3).CODE", 19),
            ("ITEM(3).AMT", 21),
        ]
    );
}

#[test]
fn binary_usage_is_refused_by_name() {
    let error = Layout::parse("01 R. 05 N PIC S9(4) COMP-3.")
        .err()
        .expect("refused");
    assert!(error.message.contains("COMP-3"), "{}", error.message);
}

#[test]
fn comments_and_condition_names_are_skipped() {
    let text = "      * a comment\n 01 R.\n   05 F PIC X.\n   88 F-YES VALUE 'Y'.\n";
    let layout = Layout::parse(text).expect("parses");
    assert_eq!(layout.fields().len(), 1);
}
