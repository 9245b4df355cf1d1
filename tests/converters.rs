use hawktracer_converter::converters::{
    format_event_line, ns_to_us, ChromeTracingConverter, ChromeTracingConverterFactory,
    DebugConverter, DebugConverterFactory, EventProcessingError, EventProcessingErrorKind,
    FlamegraphConverterFactory, JSONDebugConverterFactory,
};
use hawktracer_converter::event::{EventRecord, FieldValue};
use hawktracer_converter::label_mapping::{LabelGetter, LabelMap};

#[test]
fn nanosecond_to_microsecond_test() {
    assert_eq!(ns_to_us(1234), 1);
    assert_eq!(ns_to_us(89999), 90);
    assert_eq!(ns_to_us(60000), 60);
    assert_eq!(ns_to_us(32500), 33);
    assert_eq!(ns_to_us(5), 0);
}

#[test]
fn event_line_matches_trace_format() {
    let line = format_event_line("label", 5999, Some(12000), Some(7), "\"field1\": -45");
    assert_eq!(
        "{\"name\":\"label\",\"ph\":\"X\",\"ts\":6,\"dur\":12,\"pid\":0,\"tid\":7, \"args\": { \"field1\": -45 } },",
        line
    );
    let line = format_event_line("x", 0, None, None, "");
    assert_eq!(
        "{\"name\":\"x\",\"ph\":\"X\",\"ts\":0,\"dur\":0,\"pid\":0,\"tid\":99, \"args\": {  } },",
        line
    );
}

#[test]
fn error_message_names_kind_and_info() {
    let e = EventProcessingError::new(EventProcessingErrorKind::InvalidType, "label".to_owned());
    assert_eq!(e.kind, EventProcessingErrorKind::InvalidType);
    assert_eq!(e.message(), "Invalid label: InvalidType label");
    let e = EventProcessingError::new(EventProcessingErrorKind::MissingLabelField, String::new());
    assert_eq!(e.message(), "Invalid label: MissingLabelField ");
}

#[test]
fn chrome_converter_writes_header_once() {
    let mut c = ChromeTracingConverter::new(LabelGetter::new(LabelMap::new(), vec![]));
    assert!(c.take_header());
    assert!(!c.take_header());
    assert!(!c.take_header());
}

#[test]
fn chrome_converter_reports_missing_label() {
    let mut c = ChromeTracingConverter::new(LabelGetter::new(LabelMap::new(), vec!["name".to_owned()]));
    let event = EventRecord::new(1);
    let err = c.event_label(&event).unwrap_err();
    assert_eq!(err.kind, EventProcessingErrorKind::MissingLabelField);
    assert_eq!(err.info, "");

    let mut event = EventRecord::new(1);
    event.add_field("name".to_owned(), FieldValue::Str("work".to_owned()));
    let (field, label) = c.event_label(&event).unwrap();
    assert_eq!(field, "name");
    assert_eq!(label, "work");
}

#[test]
fn debug_converter_maps_numeric_label_field_only() {
    let mut map = LabelMap::new();
    map.add_mapping(3, "three");
    let mut d = DebugConverter::new(LabelGetter::new(map, vec!["label".to_owned()]), true);
    assert!(d.format_json);
    let mut event = EventRecord::new(1);
    event.add_field("label".to_owned(), FieldValue::U64(3));
    assert_eq!(d.get_mapping(&event, &"label".to_owned()).unwrap(), "three");
    assert!(d.get_mapping(&event, &"other".to_owned()).is_none());

    let mut event = EventRecord::new(1);
    event.add_field("label".to_owned(), FieldValue::Str("s".to_owned()));
    assert!(d.get_mapping(&event, &"label".to_owned()).is_none());
}

#[test]
fn factories_have_their_names() {
    assert_eq!(ChromeTracingConverterFactory {}.get_name(), "chrome-tracing");
    assert_eq!(DebugConverterFactory {}.get_name(), "debug");
    assert_eq!(JSONDebugConverterFactory {}.get_name(), "json_debug");
    assert_eq!(FlamegraphConverterFactory {}.get_name(), "flamegraph");
}
