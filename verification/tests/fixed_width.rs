use fixed_width::{FixedWidth, FixedWidthFactory};

const ORDER: &str = "
       01  ORDER-RECORD.
           05  ORDER-ID        PIC X(6).
           05  CUSTOMER        PIC X(10).
           05  LINE-COUNT      PIC 9(2).
           05  ORDER-LINE      OCCURS 2 TIMES.
               10  SKU         PIC X(4).
               10  QTY         PIC S9(3).
           05  TOTAL           PIC 9(5)V99.
    ";

#[test]
fn bare_contract_holds_text_only() {
    assert!(
        FixedWidth::new()
            .validate("anything".as_bytes())
            .expect("validates")
            .valid
    );
    let broken = FixedWidth::new().validate(&[0xff]).expect("validates");
    assert_eq!(broken.issues[0].code, "malformed");
}

#[test]
fn bound_contract_holds_conforming_records() {
    let bound = FixedWidth::with_copybook(ORDER).expect("copybook");
    assert_eq!(bound.descriptor().id.0, "fixed-width:ORDER-RECORD");
    // ORDER-ID CUSTOMER   LC SKU QTY SKU QTY TOTAL: a blank second line is
    // an unused occurrence, which every mainframe file has.
    let text =
        "A00001ACME      02X001+02X0020100001500\nA00002BOLT      01X003-01       0000099\n";
    let held = bound.validate(text.as_bytes()).expect("validates");
    assert!(held.valid, "issues: {:?}", held.issues);
}

#[test]
fn bound_contract_names_the_record_and_field_that_departs() {
    let bound = FixedWidth::with_copybook(ORDER).expect("copybook");
    let text = "A00001ACME      02X001+02X0020100001500\nshort\n\
                A00003ACME      xxX001  1X00201000015AB\n";
    let held = bound.validate(text.as_bytes()).expect("validates");
    let seen: Vec<(&str, &str)> = held
        .issues
        .iter()
        .map(|i| (i.code.as_str(), i.path.as_deref().unwrap_or("")))
        .collect();
    assert_eq!(
        seen,
        [
            ("length", "record 2"),
            ("value", "record 3 / LINE-COUNT"),
            ("value", "record 3 / TOTAL"),
        ],
        "{:?}",
        held.issues
    );
}

#[test]
fn records_without_line_breaks_are_sliced_to_the_layout() {
    let bound = FixedWidth::with_copybook(ORDER).expect("copybook");
    let one = "A00001ACME      02X001+02X0020100001500";
    let text = format!("{one}{one}");
    assert!(bound.validate(text.as_bytes()).expect("validates").valid);
    let short = format!("{one}A0");
    let held = bound.validate(short.as_bytes()).expect("validates");
    assert_eq!(held.issues[0].path.as_deref(), Some("record 2"));
}

#[test]
fn the_factory_loads_bare_and_bound() {
    let factory = FixedWidthFactory;
    assert_eq!(factory.technology(), "fixed-width");
    assert_eq!(
        factory.load_text("", "").expect("bare").descriptor().id.0,
        "fixed-width"
    );
    let bound = factory.load_text("order.cpy", ORDER).expect("bound");
    assert_eq!(bound.descriptor().id.0, "fixed-width:ORDER-RECORD");
    let missing = FixedWidthFactory::unreadable("missing.cpy", "No such file or directory");
    assert_eq!(
        missing.message,
        "cannot read copybook missing.cpy: No such file or directory"
    );
}
