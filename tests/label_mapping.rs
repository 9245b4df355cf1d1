use hawktracer_converter::event::{EventRecord, FieldValue};
use hawktracer_converter::label_mapping::{parse_number, split_words, LabelGetter, LabelMap};

fn make_event(field_name: &str, value: FieldValue) -> EventRecord {
    let mut event = EventRecord::new(1);
    event.add_field(field_name.to_owned(), value);
    event
}

#[test]
fn map_should_return_number_if_mapping_does_not_exist() {
    let mut map = LabelMap::new();

    assert_eq!(map.get_label(4), "4");
}

#[test]
fn map_should_return_label_if_mapping_exist() {
    let mut map = LabelMap::new();
    let label = "test";
    map.mapping.insert(4, label.to_owned());

    assert_eq!(map.get_label(4), label);
}

#[test]
fn getter_should_return_value_if_value_exists() {
    let mut getter = LabelGetter::new(LabelMap::new(), vec!["name".to_owned()]);
    let event = make_event("name", FieldValue::Str("test1".to_owned()));

    let (field, value) = getter.get_label(&event);

    assert_eq!(field.unwrap(), "name");
    assert_eq!(value.unwrap(), "test1");
}

#[test]
fn getter_should_not_return_value_if_field_does_not_exist() {
    let mut getter = LabelGetter::new(LabelMap::new(), vec!["unknown".to_owned()]);
    let event = make_event("name", FieldValue::Str("test1".to_owned()));

    let (field, value) = getter.get_label(&event);

    assert!(field.is_none());
    assert!(value.is_none());
}

#[test]
fn getter_should_not_return_value_if_value_is_invalid() {
    let mut getter = LabelGetter::new(LabelMap::new(), vec!["name".to_owned()]);
    let event = make_event("name", FieldValue::Struct(1));

    let (field, value) = getter.get_label(&event);

    assert!(field.is_none());
    assert!(value.is_none());
}

#[test]
fn map_keeps_decimal_label_after_lookup() {
    let mut map = LabelMap::new();
    assert_eq!(map.get_label(1234567890123), "1234567890123");
    assert_eq!(map.mapping.get(&1234567890123).unwrap(), "1234567890123");
    assert_eq!(map.get_label(0), "0");
    assert_eq!(map.get_label(u64::MAX), "18446744073709551615");
}

#[test]
fn add_mapping_replaces_label() {
    let mut map = LabelMap::new();
    map.add_mapping(7, "first");
    map.add_mapping(7, "second");
    assert_eq!(map.get_label(7), "second");
}

#[test]
fn getter_resolves_numeric_label_through_map() {
    let mut map = LabelMap::new();
    map.add_mapping(42, "render");
    let mut getter = LabelGetter::new(map, vec!["label".to_owned(), "name".to_owned()]);
    let event = make_event("label", FieldValue::U64(42));
    let (field, value) = getter.get_label(&event);
    assert_eq!(field.unwrap(), "label");
    assert_eq!(value.unwrap(), "render");

    let event = make_event("label", FieldValue::U64(43));
    let (_, value) = getter.get_label(&event);
    assert_eq!(value.unwrap(), "43");
}

#[test]
fn getter_takes_first_usable_field_in_order() {
    let mut getter = LabelGetter::new(LabelMap::new(), vec!["label".to_owned(), "name".to_owned()]);
    let mut event = EventRecord::new(5);
    event.add_field("label".to_owned(), FieldValue::I32(3));
    event.add_field("name".to_owned(), FieldValue::Str("second".to_owned()));
    let (field, value) = getter.get_label(&event);
    assert_eq!(field.unwrap(), "name");
    assert_eq!(value.unwrap(), "second");
}

#[test]
fn mapping_events_extend_the_map() {
    let mut getter = LabelGetter::new(LabelMap::new(), vec!["label".to_owned()]);

    let mut info = EventRecord::new(2);
    info.add_field(
        "event_klass_name".to_owned(),
        FieldValue::Str("HT_StringMappingEvent".to_owned()),
    );
    info.add_field("info_klass_id".to_owned(), FieldValue::U32(9));
    getter.update_mapping_event_info(&info);
    assert_eq!(getter.mapping_event_id, Some(9));

    let mut mapping = EventRecord::new(9);
    mapping.add_field("identifier".to_owned(), FieldValue::U64(11));
    mapping.add_field("label".to_owned(), FieldValue::Str("draw".to_owned()));
    getter.update_mapping_event_info(&mapping);

    let event = make_event("label", FieldValue::U64(11));
    let (_, value) = getter.get_label(&event);
    assert_eq!(value.unwrap(), "draw");
}

#[test]
fn class_description_of_other_class_is_ignored() {
    let mut getter = LabelGetter::new(LabelMap::new(), vec!["label".to_owned()]);
    let mut info = EventRecord::new(2);
    info.add_field("event_klass_name".to_owned(), FieldValue::Str("Other".to_owned()));
    info.add_field("info_klass_id".to_owned(), FieldValue::U32(9));
    getter.update_mapping_event_info(&info);
    assert_eq!(getter.mapping_event_id, None);

    let mut not_info = EventRecord::new(3);
    not_info.add_field(
        "event_klass_name".to_owned(),
        FieldValue::Str("HT_StringMappingEvent".to_owned()),
    );
    not_info.add_field("info_klass_id".to_owned(), FieldValue::U32(9));
    getter.update_mapping_event_info(&not_info);
    assert_eq!(getter.mapping_event_id, None);
}

#[test]
fn load_line_reads_three_words() {
    let mut map = LabelMap::new();
    assert!(map.load_line("category label1 1"));
    assert!(map.load_line("cat label2 +2"));
    assert!(!map.load_line("too few"));
    assert!(!map.load_line("a b c d"));
    assert!(!map.load_line("a b notanumber"));
    assert!(!map.load_line("a b 18446744073709551616"));
    assert!(!map.load_line("a  b 3"));
    assert!(!map.load_line("a b -3"));
    assert!(!map.load_line("a b +"));
    assert_eq!(map.get_label(1), "label1");
    assert_eq!(map.get_label(2), "label2");
    assert_eq!(map.get_label(3), "3");
}

#[test]
fn words_split_at_every_space() {
    assert_eq!(split_words("a b"), vec!["a".to_owned(), "b".to_owned()]);
    assert_eq!(split_words("a  b"), vec!["a".to_owned(), "".to_owned(), "b".to_owned()]);
    assert_eq!(split_words(""), vec!["".to_owned()]);
    assert_eq!(split_words(" x "), vec!["".to_owned(), "x".to_owned(), "".to_owned()]);
}

#[test]
fn numbers_parse_like_std() {
    assert_eq!(parse_number("0"), Some(0));
    assert_eq!(parse_number("007"), Some(7));
    assert_eq!(parse_number("+15"), Some(15));
    assert_eq!(parse_number("18446744073709551615"), Some(u64::MAX));
    assert_eq!(parse_number("18446744073709551616"), None);
    assert_eq!(parse_number(""), None);
    assert_eq!(parse_number("+"), None);
    assert_eq!(parse_number("1a"), None);
    assert_eq!(parse_number("-1"), None);
    for s in ["12", "99999", "+3", "x", "", "18446744073709551616"] {
        assert_eq!(parse_number(s), s.parse::<u64>().ok());
    }
}
