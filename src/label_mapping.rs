use vstd::prelude::*;
use std::collections::HashMap;
use crate::render::{decimal, push_decimal};
use crate::event::{EventRecord, FieldValue};

verus! {

broadcast use vstd::std_specs::hash::group_hash_axioms;

/// `s` cut at every space, as `str::split(' ')` cuts it: empty pieces are kept.
pub open spec fn split_spaces(s: Seq<char>) -> Seq<Seq<char>>
    decreases s.len(),
{
    if s.len() == 0 {
        seq![Seq::empty()]
    } else if s.last() == ' ' {
        split_spaces(s.drop_last()).push(Seq::empty())
    } else {
        let r = split_spaces(s.drop_last());
        r.update(r.len() - 1, r.last().push(s.last()))
    }
}

pub open spec fn is_digit(c: char) -> bool {
    '0' <= c && c <= '9'
}

pub open spec fn digits_value(s: Seq<char>) -> int
    decreases s.len(),
{
    if s.len() == 0 {
        0
    } else {
        digits_value(s.drop_last()) * 10 + (s.last() as int - '0' as int)
    }
}

/// The value of one or more decimal digits, if it fits in 64 bits.
pub open spec fn parse_digits(d: Seq<char>) -> Option<u64> {
    if d.len() > 0 && (forall|i: int| 0 <= i < d.len() ==> is_digit(#[trigger] d[i]))
        && digits_value(d) <= u64::MAX {
        Some(digits_value(d) as u64)
    } else {
        None
    }
}

/// `s` without one leading `+`, if it has one.
pub open spec fn strip_plus(s: Seq<char>) -> Seq<char> {
    if s.len() > 0 && s[0] == '+' {
        s.drop_first()
    } else {
        s
    }
}

/// The unsigned number that `s` spells: an optional `+`, then one or more
/// decimal digits, of a value that fits in 64 bits.
pub open spec fn parse_u64(s: Seq<char>) -> Option<u64> {
    parse_digits(strip_plus(s))
}

/// What a line of a mapping file gives: three space-separated words, the
/// second a label and the third its numeric identifier.
pub open spec fn mapping_line(line: Seq<char>) -> Option<(u64, Seq<char>)> {
    let words = split_spaces(line);
    if words.len() != 3 {
        None
    } else {
        match parse_u64(words[2]) {
            Some(id) => Some((id, words[1])),
            None => None,
        }
    }
}

proof fn lemma_split_nonempty(s: Seq<char>)
    ensures
        split_spaces(s).len() >= 1,
    decreases s.len(),
{
    if s.len() > 0 {
        lemma_split_nonempty(s.drop_last());
    }
}

/// The pieces of `line` between spaces.
pub fn split_words(line: &str) -> (r: Vec<String>)
    ensures
        r@.len() == split_spaces(line@).len(),
        forall|i: int| 0 <= i < r@.len() ==> (#[trigger] r@[i])@ == split_spaces(line@)[i],
{
    let n = line.unicode_len();
    let mut parts: Vec<String> = Vec::new();
    let mut start: usize = 0;
    let mut i: usize = 0;
    assert(line@.take(0) =~= Seq::<char>::empty());
    assert(line@.subrange(0, 0) =~= Seq::<char>::empty());
    while i < n
        invariant
            n == line@.len(),
            start <= i <= n,
            split_spaces(line@.take(i as int)) =~= parts@.map_values(|p: String| p@).push(
                line@.subrange(start as int, i as int),
            ),
        decreases n - i,
    {
        let c = line.get_char(i);
        let ghost pre = line@.take(i as int);
        assert(line@.take(i as int + 1).drop_last() =~= pre);
        assert(line@.take(i as int + 1).last() == c);
        proof {
            lemma_split_nonempty(pre);
        }
        if c == ' ' {
            let piece = String::from_str(line.substring_char(start, i));
            parts.push(piece);
            start = i + 1;
            assert(line@.subrange(start as int, start as int) =~= Seq::<char>::empty());
        } else {
            assert(line@.subrange(start as int, i as int + 1) =~= line@.subrange(
                start as int,
                i as int,
            ).push(c));
        }
        i = i + 1;
    }
    let last = String::from_str(line.substring_char(start, n));
    parts.push(last);
    assert(line@.take(n as int) =~= line@);
    assert(parts@.map_values(|p: String| p@) =~= split_spaces(line@));
    parts
}

/// The number that `s` spells, if it spells one.
pub fn parse_number(s: &str) -> (r: Option<u64>)
    ensures
        r == parse_u64(s@),
{
    let n = s.unicode_len();
    let mut i: usize = 0;
    if n > 0 && s.get_char(0) == '+' {
        i = 1;
    }
    let ghost d = s@.subrange(i as int, n as int);
    assert(d =~= strip_plus(s@));
    if i == n {
        return None;
    }
    let begin = i;
    let mut v: u64 = 0;
    assert(d.take(0) =~= Seq::<char>::empty());
    while i < n
        invariant
            begin <= i <= n,
            n == s@.len(),
            d == s@.subrange(begin as int, n as int),
            d == strip_plus(s@),
            forall|k: int| 0 <= k < i - begin ==> is_digit(#[trigger] d[k]),
            v == digits_value(d.take(i - begin)),
        decreases n - i,
    {
        let c = s.get_char(i);
        assert(d[i - begin] == c);
        if c < '0' || c > '9' {
            assert(!is_digit(d[i - begin]));
            assert(parse_digits(d) is None);
            return None;
        }
        let digit: u64 = (c as u32 - '0' as u32) as u64;
        assert(d.take(i - begin + 1).drop_last() =~= d.take(i - begin));
        assert(is_digit(d[i - begin]));
        assert(digits_value(d.take(i - begin + 1)) == v * 10 + digit);
        if v > (u64::MAX - digit) / 10 {
            proof {
                lemma_digits_grow(d, i - begin + 1, n - begin);
                assert(v * 10 + digit > u64::MAX) by (nonlinear_arith)
                    requires
                        v > (u64::MAX - digit) / 10,
                        digit < 10,
                ;
                assert(parse_digits(d) is None);
            }
            return None;
        }
        v = v * 10 + digit;
        i = i + 1;
    }
    assert(d.take(n - begin) =~= d);
    Some(v)
}

proof fn lemma_digits_grow(d: Seq<char>, k: int, n: int)
    requires
        0 < k <= n == d.len(),
        forall|j: int| 0 <= j < k ==> is_digit(#[trigger] d[j]),
    ensures
        (forall|j: int| 0 <= j < n ==> is_digit(#[trigger] d[j])) ==> digits_value(d.take(k))
            <= digits_value(d),
    decreases n - k,
{
    if k < n {
        if forall|j: int| 0 <= j < n ==> is_digit(#[trigger] d[j]) {
            lemma_digits_grow(d, k + 1, n);
            assert(d.take(k + 1).drop_last() =~= d.take(k));
            lemma_digits_nonneg(d.take(k));
            assert(digits_value(d.take(k + 1)) == digits_value(d.take(k)) * 10 + (d[k] as int
                - '0' as int));
        }
    } else {
        assert(d.take(k) =~= d);
    }
}

proof fn lemma_digits_nonneg(d: Seq<char>)
    requires
        forall|j: int| 0 <= j < d.len() ==> is_digit(#[trigger] d[j]),
    ensures
        digits_value(d) >= 0,
    decreases d.len(),
{
    if d.len() > 0 {
        lemma_digits_nonneg(d.drop_last());
        assert(is_digit(d[d.len() - 1]));
    }
}

/// Labels by numeric identifier.
pub struct LabelMap {
    pub mapping: HashMap<u64, String>,
}

impl LabelMap {
    /// The label shown for `id`: the mapped one, or else `id` in decimal.
    pub open spec fn lookup(self, id: u64) -> Seq<char> {
        if self.mapping@.contains_key(id) {
            self.mapping@[id]@
        } else {
            decimal(id as nat)
        }
    }

    pub fn new() -> (r: LabelMap)
        ensures
            r.mapping@ == Map::<u64, String>::empty(),
    {
        LabelMap { mapping: HashMap::new() }
    }

    /// Maps `id` to `label`, replacing what it was mapped to.
    pub fn add_mapping(&mut self, id: u64, label: &str)
        ensures
            final(self).mapping@.dom() == old(self).mapping@.dom().insert(id),
            final(self).mapping@[id]@ == label@,
            forall|k: u64| k != id ==> #[trigger] final(self).mapping@.contains_key(k) == old(self).mapping@.contains_key(k),
            forall|k: u64| k != id && old(self).mapping@.contains_key(k) ==> #[trigger] final(self).mapping@[k] == old(self).mapping@[k],
            forall|k: u64| k != id ==> #[trigger] final(self).lookup(k) == old(self).lookup(k),
            final(self).lookup(id) == label@,
    {
        self.mapping.insert(id, String::from_str(label));
    }

    /// The label shown for `id`. An identifier without a label is mapped to its
    /// decimal form from then on.
    pub fn get_label(&mut self, id: u64) -> (r: String)
        ensures
            r@ == old(self).lookup(id),
            final(self).mapping@.contains_key(id),
            forall|k: u64| #[trigger] final(self).lookup(k) == old(self).lookup(k),
            forall|k: u64| k != id ==> #[trigger] final(self).mapping@.contains_key(k) == old(self).mapping@.contains_key(k),
    {
        match self.mapping.get(&id) {
            Some(label) => label.clone(),
            None => {
                let mut text = String::new();
                push_decimal(&mut text, id);
                assert(text@ =~= decimal(id as nat));
                self.add_mapping(id, text.as_str());
                text
            },
        }
    }

    /// Reads one line of a mapping file. A well-formed line adds its mapping and
    /// gives `true`; any other line is ignored and gives `false`.
    pub fn load_line(&mut self, line: &str) -> (r: bool)
        ensures
            r == mapping_line(line@) is Some,
            match mapping_line(line@) {
                Some((id, label)) => {
                    &&& final(self).lookup(id) == label
                    &&& final(self).mapping@.dom() == old(self).mapping@.dom().insert(id)
                    &&& forall|k: u64| k != id ==> #[trigger] final(self).lookup(k) == old(self).lookup(k)
                },
                None => *final(self) == *old(self),
            },
    {
        let words = split_words(line);
        if words.len() != 3 {
            return false;
        }
        match parse_number(words[2].as_str()) {
            Some(id) => {
                self.add_mapping(id, words[1].as_str());
                true
            },
            None => false,
        }
    }
}

/// The class name of the events that announce a label for an identifier.
pub const MAPPING_EVENT_KLASS_NAME: &'static str = "HT_StringMappingEvent";

/// Relies on `hawktracer_parser::CoreEventKlassId::KlassInfo`: the class id of
/// the events that describe an event class, which the crate defines as 2.
#[verifier::external_body]
fn klass_info_id() -> (r: u32)
    ensures
        r == 2,
{
    hawktracer_parser::CoreEventKlassId::KlassInfo as u32
}

/// Whether `e` is the class description of the mapping events.
pub open spec fn announces_mapping_klass(e: EventRecord) -> bool {
    &&& e.klass_id == 2
    &&& match e.field("event_klass_name"@) {
        Some(FieldValue::Str(n)) => n@ == MAPPING_EVENT_KLASS_NAME@,
        _ => false,
    }
}

/// The class id of mapping events once `e` has been seen, when it was `cur`
/// before: learnt from the first description of the mapping class.
pub open spec fn next_mapping_id(cur: Option<u32>, e: EventRecord) -> Option<u32> {
    if cur is None && e.klass_id == 2 {
        if announces_mapping_klass(e) {
            match e.field("info_klass_id"@) {
                Some(FieldValue::U32(v)) => Some(v),
                _ => None,
            }
        } else {
            None
        }
    } else {
        cur
    }
}

/// The identifier and label that `e` adds to the map, when the class id of
/// mapping events is `cur`.
pub open spec fn mapping_added(cur: Option<u32>, e: EventRecord) -> Option<(u64, Seq<char>)> {
    if cur is Some && !(e.klass_id == 2 && cur is None) && e.klass_id == cur.unwrap() {
        match (e.field("identifier"@), e.field("label"@)) {
            (Some(FieldValue::U64(id)), Some(FieldValue::Str(l))) => Some((id, l@)),
            _ => None,
        }
    } else {
        None
    }
}

/// The first of `fields`, from index `k` on, that `e` holds as a number or a
/// string, with its value.
pub open spec fn label_source(fields: Seq<String>, e: EventRecord, k: int) -> Option<(int, FieldValue)>
    decreases fields.len() - k,
{
    if k < 0 || k >= fields.len() {
        None
    } else {
        match e.field(fields[k]@) {
            Some(FieldValue::U64(v)) => Some((k, FieldValue::U64(v))),
            Some(FieldValue::Str(v)) => Some((k, FieldValue::Str(v))),
            _ => label_source(fields, e, k + 1),
        }
    }
}

/// Finds the label of trace events in their fields, resolving numeric labels
/// through a label map that mapping events extend as they pass.
pub struct LabelGetter {
    pub label_map: LabelMap,
    pub label_fields: Vec<String>,
    pub mapping_event_id: Option<u32>,
}

impl LabelGetter {
    /// The label shown for `id` once `e` has been taken into account.
    pub open spec fn lookup_after(self, e: EventRecord, id: u64) -> Seq<char> {
        match mapping_added(self.mapping_event_id, e) {
            Some((k, l)) => if k == id {
                l
            } else {
                self.label_map.lookup(id)
            },
            None => self.label_map.lookup(id),
        }
    }

    /// The label field and the label that `e` gives, if any.
    pub open spec fn resolved_label(self, e: EventRecord) -> Option<(Seq<char>, Seq<char>)> {
        match label_source(self.label_fields@, e, 0) {
            Some((k, FieldValue::U64(v))) => Some((self.label_fields@[k]@, self.lookup_after(e, v))),
            Some((k, FieldValue::Str(v))) => Some((self.label_fields@[k]@, v@)),
            _ => None,
        }
    }

    pub fn new(label_map: LabelMap, label_fields: Vec<String>) -> (r: LabelGetter)
        ensures
            r.label_map == label_map,
            r.label_fields == label_fields,
            r.mapping_event_id is None,
    {
        LabelGetter { label_map, label_fields, mapping_event_id: None }
    }

    /// Follows the mapping-event protocol: the first description of the
    /// mapping class gives its class id, and each later event of that class
    /// maps an identifier to a label.
    pub fn update_mapping_event_info(&mut self, event: &EventRecord)
        ensures
            final(self).mapping_event_id == next_mapping_id(old(self).mapping_event_id, *event),
            final(self).label_fields == old(self).label_fields,
            forall|id: u64| #[trigger] final(self).label_map.lookup(id) == old(self).lookup_after(*event, id),
    {
        let klass = event.get_klass_id();
        if self.mapping_event_id.is_none() && klass == klass_info_id() {
            let name = event.get_value_string("event_klass_name");
            let is_mapping = match &name {
                Some(n) => {
                    let expected = String::from_str(MAPPING_EVENT_KLASS_NAME);
                    *n == expected
                },
                None => false,
            };
            if is_mapping {
                self.mapping_event_id = event.get_value_u32("info_klass_id");
            }
        } else {
            match self.mapping_event_id {
                Some(mapping_id) => {
                    if klass == mapping_id {
                        let id = event.get_value_u64("identifier");
                        let label = event.get_value_string("label");
                        match (id, label) {
                            (Some(id), Some(label)) => {
                                self.label_map.add_mapping(id, label.as_str());
                            },
                            _ => {},
                        }
                    }
                },
                None => {},
            }
        }
    }

    /// The first label field that `event` holds as a number or a string,
    /// together with the label: the string itself, or the number's label in
    /// the map.
    pub fn get_label(&mut self, event: &EventRecord) -> (r: (Option<String>, Option<String>))
        ensures
            final(self).mapping_event_id == next_mapping_id(old(self).mapping_event_id, *event),
            final(self).label_fields == old(self).label_fields,
            forall|id: u64| #[trigger] final(self).label_map.lookup(id) == old(self).lookup_after(*event, id),
            match old(self).resolved_label(*event) {
                Some((f, l)) => r.0 is Some && r.1 is Some && r.0.unwrap()@ == f && r.1.unwrap()@ == l,
                None => r.0 is None && r.1 is None,
            },
    {
        let ghost g0 = *self;
        self.update_mapping_event_info(event);
        let mut k: usize = 0;
        let mut number: Option<u64> = None;
        while k < self.label_fields.len()
            invariant_except_break
                number is None,
            invariant
                g0 == *old(self),
                self.label_fields == g0.label_fields,
                self.mapping_event_id == next_mapping_id(g0.mapping_event_id, *event),
                forall|id: u64| #[trigger] self.label_map.lookup(id) == g0.lookup_after(*event, id),
                k <= self.label_fields@.len(),
                label_source(g0.label_fields@, *event, 0) == label_source(g0.label_fields@, *event, k as int),
            ensures
                self.label_fields == g0.label_fields,
                self.mapping_event_id == next_mapping_id(g0.mapping_event_id, *event),
                forall|id: u64| #[trigger] self.label_map.lookup(id) == g0.lookup_after(*event, id),
                match number {
                    Some(n) => k < self.label_fields@.len() && label_source(g0.label_fields@, *event, 0)
                        == Some((k as int, FieldValue::U64(n))),
                    None => label_source(g0.label_fields@, *event, 0) is None,
                },
            decreases self.label_fields@.len() - k,
        {
            match event.find_field(self.label_fields[k].as_str()) {
                Some(idx) => match &event.fields[idx].1 {
                    FieldValue::U64(v) => {
                        number = Some(*v);
                        break;
                    },
                    FieldValue::Str(v) => {
                        return (Some(self.label_fields[k].clone()), Some(v.clone()));
                    },
                    _ => {},
                },
                None => {},
            }
            k = k + 1;
        }
        match number {
            Some(n) => {
                let field = self.label_fields[k].clone();
                let label = self.label_map.get_label(n);
                (Some(field), Some(label))
            },
            None => (None, None),
        }
    }
}

} // verus!
