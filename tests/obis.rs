use p1_telegram::obis::ObisIdentifier;

#[test]
fn it_should_convert_to_string_id_with_all_value_groups() {
    let id = ObisIdentifier { a: Some(1), b: Some(0), c: 96, d: 7, e: 21, f: 255 };
    assert_eq!(id.to_string(), "1-0:96.7.21.255");
}

#[test]
fn it_should_parse_string_with_all_value_groups() {
    let id = ObisIdentifier::parse("1-0:96.7.21.255").unwrap();
    assert_eq!(id, ObisIdentifier { a: Some(1), b: Some(0), c: 96, d: 7, e: 21, f: 255 });
}

#[test]
fn it_should_convert_to_string_id_without_value_group_a() {
    let id = ObisIdentifier { a: None, b: Some(0), c: 96, d: 7, e: 21, f: 255 };
    assert_eq!(id.to_string(), "0:96.7.21.255");
}

#[test]
fn it_should_parse_string_without_value_group_a() {
    let id = ObisIdentifier::parse("0:96.7.21.255").unwrap();
    assert_eq!(id, ObisIdentifier { a: None, b: Some(0), c: 96, d: 7, e: 21, f: 255 });
}

#[test]
fn it_should_convert_to_string_id_without_value_group_b() {
    let id = ObisIdentifier { a: Some(1), b: None, c: 96, d: 7, e: 21, f: 255 };
    assert_eq!(id.to_string(), "1-96.7.21.255");
}

#[test]
fn it_should_parse_string_without_value_group_b() {
    let id = ObisIdentifier::parse("1-96.7.21.255").unwrap();
    assert_eq!(id, ObisIdentifier { a: Some(1), b: None, c: 96, d: 7, e: 21, f: 255 });
}

#[test]
fn it_should_convert_to_string_id_without_value_groups_a_and_b() {
    let id = ObisIdentifier { a: None, b: None, c: 96, d: 7, e: 21, f: 255 };
    assert_eq!(id.to_string(), "96.7.21.255");
}

#[test]
fn it_should_parse_string_without_value_groups_a_and_b() {
    let id = ObisIdentifier::parse("96.7.21.255").unwrap();
    assert_eq!(id, ObisIdentifier { a: None, b: None, c: 96, d: 7, e: 21, f: 255 });
}

#[test]
fn it_should_parse_string_without_value_group_f() {
    let id = ObisIdentifier::parse("1-0:96.7.21").unwrap();
    assert_eq!(id, ObisIdentifier { a: Some(1), b: Some(0), c: 96, d: 7, e: 21, f: 255 });
}

#[test]
fn parsing_the_written_text_gives_the_identifier_back() {
    let ids = [
        ObisIdentifier { a: Some(0), b: Some(255), c: 0, d: 9, e: 10, f: 99 },
        ObisIdentifier { a: None, b: Some(100), c: 1, d: 8, e: 1, f: 0 },
        ObisIdentifier { a: Some(255), b: None, c: 255, d: 255, e: 255, f: 255 },
        ObisIdentifier { a: None, b: None, c: 10, d: 100, e: 200, f: 7 },
    ];
    for id in ids.iter() {
        assert_eq!(ObisIdentifier::parse(&id.to_string()), Some(*id));
    }
}

#[test]
fn writing_spells_every_digit_of_each_group() {
    let id = ObisIdentifier { a: Some(205), b: Some(10), c: 9, d: 130, e: 47, f: 0 };
    assert_eq!(id.to_string(), "205-10:9.130.47.0");
}

#[test]
fn text_that_breaks_the_grammar_is_refused() {
    assert_eq!(ObisIdentifier::parse(""), None);
    assert_eq!(ObisIdentifier::parse("1-2-96.7.21.255"), None);
    assert_eq!(ObisIdentifier::parse("256.7.21"), None);
    assert_eq!(ObisIdentifier::parse("1-0:96.7.21.256"), None);
    assert_eq!(ObisIdentifier::parse("1-0:96.7"), None);
    assert_eq!(ObisIdentifier::parse("1-0:96.7.21.255x"), None);
    assert_eq!(ObisIdentifier::parse("1-0:96.7.21.255.1"), None);
    assert_eq!(ObisIdentifier::parse("1-0:1000.7.21"), None);
    assert_eq!(ObisIdentifier::parse("1-0:96..21"), None);
    assert_eq!(ObisIdentifier::parse("1-0:96.7.21."), None);
    assert_eq!(ObisIdentifier::parse("1-0:9é.7.21"), None);
    assert_eq!(ObisIdentifier::parse(" 1-0:96.7.21"), None);
}

#[test]
fn a_missing_f_group_reads_as_255() {
    assert_eq!(ObisIdentifier::parse("1-0:96.7.21"), ObisIdentifier::parse("1-0:96.7.21.255"));
    assert_eq!(
        ObisIdentifier::parse("0:1.8.2"),
        Some(ObisIdentifier { a: None, b: Some(0), c: 1, d: 8, e: 2, f: 255 })
    );
}

#[test]
fn leading_zeros_are_read_as_the_number() {
    assert_eq!(
        ObisIdentifier::parse("001-000:096.007.021.255"),
        Some(ObisIdentifier { a: Some(1), b: Some(0), c: 96, d: 7, e: 21, f: 255 })
    );
}
