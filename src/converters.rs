use vstd::prelude::*;
use crate::event::{EventRecord, FieldValue};
use crate::label_mapping::{next_mapping_id, LabelGetter};
use crate::render::{decimal, push_decimal};

verus! {

/// Why an event could not be converted.
#[derive(Debug, PartialEq, Eq, Clone, Copy, Structural)]
pub enum EventProcessingErrorKind {
    MissingLabelField,
    InvalidType,
}

#[derive(Debug)]
pub struct EventProcessingError {
    pub kind: EventProcessingErrorKind,
    pub info: String,
}

impl EventProcessingError {
    pub fn new(kind: EventProcessingErrorKind, info: String) -> (r: EventProcessingError)
        ensures
            r.kind == kind,
            r.info == info,
    {
        EventProcessingError { kind, info }
    }

    /// The error as a message: its kind and what it concerns.
    pub fn message(&self) -> (r: String)
        ensures
            r@ == "Invalid label: "@ + kind_name(self.kind) + " "@ + self.info@,
    {
        let mut r = String::from_str("Invalid label: ");
        match self.kind {
            EventProcessingErrorKind::MissingLabelField => r.append("MissingLabelField"),
            EventProcessingErrorKind::InvalidType => r.append("InvalidType"),
        }
        r.append(" ");
        r.append(self.info.as_str());
        r
    }
}

pub open spec fn kind_name(k: EventProcessingErrorKind) -> Seq<char> {
    match k {
        EventProcessingErrorKind::MissingLabelField => "MissingLabelField"@,
        EventProcessingErrorKind::InvalidType => "InvalidType"@,
    }
}

/// The thread id written for events that carry none.
pub const INVALID_THREAD_ID: u32 = 99;

/// Nanoseconds to microseconds, rounding half up.
pub open spec fn us_of_ns(n: nat) -> nat {
    n / 1000 + (n % 1000) / 500
}

/// Nanoseconds to microseconds, rounding half up.
pub fn ns_to_us(nano_secs: u64) -> (r: u64)
    ensures
        r == us_of_ns(nano_secs as nat),
{
    nano_secs / 1000 + (nano_secs % 1000) / 500
}

/// The text of one complete-event record of the trace format.
pub open spec fn event_line(
    label: Seq<char>,
    ts_us: nat,
    dur_us: nat,
    tid: nat,
    free_args: Seq<char>,
) -> Seq<char> {
    "{\"name\":\""@ + label + "\",\"ph\":\"X\",\"ts\":"@ + decimal(ts_us) + ",\"dur\":"@ + decimal(
        dur_us,
    ) + ",\"pid\":0,\"tid\":"@ + decimal(tid) + ", \"args\": { "@ + free_args + " } },"@
}

/// Writes one trace record. Times are given in nanoseconds and written in
/// microseconds; a missing duration is written as 0 and a missing thread id as
/// the invalid one.
pub fn format_event_line(
    label: &str,
    timestamp: u64,
    duration: Option<u64>,
    thread_id: Option<u32>,
    free_args: &str,
) -> (r: String)
    ensures
        r@ == event_line(
            label@,
            us_of_ns(timestamp as nat),
            match duration {
                Some(d) => us_of_ns(d as nat),
                None => 0,
            },
            match thread_id {
                Some(t) => t as nat,
                None => INVALID_THREAD_ID as nat,
            },
            free_args@,
        ),
{
    let ts = ns_to_us(timestamp);
    let dur = match duration {
        Some(d) => ns_to_us(d),
        None => 0,
    };
    let tid = match thread_id {
        Some(t) => t,
        None => INVALID_THREAD_ID,
    };
    let mut r = String::from_str("{\"name\":\"");
    r.append(label);
    r.append("\",\"ph\":\"X\",\"ts\":");
    push_decimal(&mut r, ts);
    r.append(",\"dur\":");
    push_decimal(&mut r, dur);
    r.append(",\"pid\":0,\"tid\":");
    push_decimal(&mut r, tid as u64);
    r.append(", \"args\": { ");
    r.append(free_args);
    r.append(" } },");
    r
}

/// Turns trace events into records of the Chrome trace format.
pub struct ChromeTracingConverter {
    pub header_written: bool,
    pub label_getter: LabelGetter,
}

impl ChromeTracingConverter {
    pub fn new(label_getter: LabelGetter) -> (r: ChromeTracingConverter)
        ensures
            !r.header_written,
            r.label_getter == label_getter,
    {
        ChromeTracingConverter { header_written: false, label_getter }
    }

    /// Whether the opening of the record list is still to be written; from
    /// the first call on it counts as written.
    pub fn take_header(&mut self) -> (r: bool)
        ensures
            r == !old(self).header_written,
            final(self).header_written,
            final(self).label_getter == old(self).label_getter,
    {
        let r = !self.header_written;
        self.header_written = true;
        r
    }

    /// The label field and label of `event`, or the error that the event has
    /// no label.
    pub fn event_label(&mut self, event: &EventRecord) -> (r: Result<
        (String, String),
        EventProcessingError,
    >)
        ensures
            final(self).header_written == old(self).header_written,
            final(self).label_getter.mapping_event_id == next_mapping_id(
                old(self).label_getter.mapping_event_id,
                *event,
            ),
            forall|id: u64| #[trigger]
                final(self).label_getter.label_map.lookup(id) == old(
                    self,
                ).label_getter.lookup_after(*event, id),
            match old(self).label_getter.resolved_label(*event) {
                Some((f, l)) => r is Ok && r.unwrap().0@ == f && r.unwrap().1@ == l,
                None => r is Err && r.unwrap_err().kind
                    == EventProcessingErrorKind::MissingLabelField && r.unwrap_err().info@
                    == Seq::<char>::empty(),
            },
    {
        let (field, label) = self.label_getter.get_label(event);
        match field {
            Some(field) => match label {
                Some(label) => Ok((field, label)),
                None => Err(EventProcessingError::new(EventProcessingErrorKind::InvalidType, field)),
            },
            None => Err(
                EventProcessingError::new(EventProcessingErrorKind::MissingLabelField, String::new()),
            ),
        }
    }
}

/// Dumps trace events field by field, as text or as JSON.
pub struct DebugConverter {
    pub label_getter: LabelGetter,
    pub format_json: bool,
}

impl DebugConverter {
    pub fn new(label_getter: LabelGetter, format_json: bool) -> (r: DebugConverter)
        ensures
            r.label_getter == label_getter,
            r.format_json == format_json,
    {
        DebugConverter { label_getter, format_json }
    }

    /// The label that field `label_field` of `event` maps to: given only when
    /// that field is the event's label field and its value is not already a
    /// string.
    pub fn get_mapping(&mut self, event: &EventRecord, label_field: &String) -> (r: Option<String>)
        ensures
            final(self).format_json == old(self).format_json,
            final(self).label_getter.mapping_event_id == next_mapping_id(
                old(self).label_getter.mapping_event_id,
                *event,
            ),
            forall|id: u64| #[trigger]
                final(self).label_getter.label_map.lookup(id) == old(
                    self,
                ).label_getter.lookup_after(*event, id),
            match old(self).label_getter.resolved_label(*event) {
                Some((f, l)) => if f == label_field@ && !(event.field(label_field@) matches Some(
                    FieldValue::Str(_),
                )) {
                    r is Some && r.unwrap()@ == l
                } else {
                    r is None
                },
                None => r is None,
            },
    {
        let (field, label) = self.label_getter.get_label(event);
        match (field, label) {
            (Some(field), Some(label)) => {
                if field == *label_field {
                    let is_str = match event.find_field(label_field.as_str()) {
                        Some(k) => match &event.fields[k].1 {
                            FieldValue::Str(_) => true,
                            _ => false,
                        },
                        None => false,
                    };
                    if is_str {
                        None
                    } else {
                        Some(label)
                    }
                } else {
                    None
                }
            },
            _ => None,
        }
    }
}

pub struct ChromeTracingConverterFactory {}

impl ChromeTracingConverterFactory {
    pub fn get_name(&self) -> (r: &'static str)
        ensures
            r@ == "chrome-tracing"@,
    {
        "chrome-tracing"
    }
}

pub struct DebugConverterFactory {}

impl DebugConverterFactory {
    pub fn get_name(&self) -> (r: &'static str)
        ensures
            r@ == "debug"@,
    {
        "debug"
    }
}

pub struct JSONDebugConverterFactory {}

impl JSONDebugConverterFactory {
    pub fn get_name(&self) -> (r: &'static str)
        ensures
            r@ == "json_debug"@,
    {
        "json_debug"
    }
}

pub struct FlamegraphConverterFactory {}

impl FlamegraphConverterFactory {
    pub fn get_name(&self) -> (r: &'static str)
        ensures
            r@ == "flamegraph"@,
    {
        "flamegraph"
    }
}

} // verus!
