use vstd::prelude::*;

verus! {

/// The value of one field of a trace event.
pub enum FieldValue {
    U8(u8),
    I8(i8),
    U16(u16),
    I16(i16),
    U32(u32),
    I32(i32),
    U64(u64),
    I64(i64),
    Str(String),
    /// A nested event, of which only its class id is kept.
    Struct(u32),
}

/// A decoded trace event: its class id and its named fields.
pub struct EventRecord {
    pub klass_id: u32,
    pub fields: Vec<(String, FieldValue)>,
}

/// The value of the first field named `name` at index `k` or later.
pub open spec fn field_from(fs: Seq<(String, FieldValue)>, name: Seq<char>, k: int) -> Option<
    FieldValue,
>
    decreases fs.len() - k,
{
    if k < 0 || k >= fs.len() {
        None
    } else if fs[k].0@ == name {
        Some(fs[k].1)
    } else {
        field_from(fs, name, k + 1)
    }
}

impl EventRecord {
    /// The value of the field named `name`, if the event has one.
    pub open spec fn field(self, name: Seq<char>) -> Option<FieldValue> {
        field_from(self.fields@, name, 0)
    }

    pub fn new(klass_id: u32) -> (r: EventRecord)
        ensures
            r.klass_id == klass_id,
            r.fields@.len() == 0,
    {
        EventRecord { klass_id, fields: Vec::new() }
    }

    /// Adds a field; a field added earlier under the same name takes precedence.
    pub fn add_field(&mut self, name: String, value: FieldValue)
        ensures
            final(self).klass_id == old(self).klass_id,
            final(self).fields@ == old(self).fields@.push((name, value)),
    {
        self.fields.push((name, value));
    }

    pub fn get_klass_id(&self) -> (r: u32)
        ensures
            r == self.klass_id,
    {
        self.klass_id
    }

    /// The index of the field named `name`.
    pub fn find_field(&self, name: &str) -> (r: Option<usize>)
        ensures
            match r {
                Some(k) => k < self.fields@.len() && self.fields@[k as int].0@ == name@
                    && self.field(name@) == Some(self.fields@[k as int].1),
                None => self.field(name@) is None,
            },
    {
        let key = String::from_str(name);
        let mut k: usize = 0;
        while k < self.fields.len()
            invariant
                k <= self.fields@.len(),
                key@ == name@,
                self.field(name@) == field_from(self.fields@, name@, k as int),
            decreases self.fields@.len() - k,
        {
            if self.fields[k].0 == key {
                return Some(k);
            }
            k = k + 1;
        }
        None
    }

    pub fn get_value_u64(&self, name: &str) -> (r: Option<u64>)
        ensures
            r == match self.field(name@) {
                Some(FieldValue::U64(v)) => Some(v),
                _ => None::<u64>,
            },
    {
        match self.find_field(name) {
            Some(k) => match &self.fields[k].1 {
                FieldValue::U64(v) => Some(*v),
                _ => None,
            },
            None => None,
        }
    }

    pub fn get_value_u32(&self, name: &str) -> (r: Option<u32>)
        ensures
            r == match self.field(name@) {
                Some(FieldValue::U32(v)) => Some(v),
                _ => None::<u32>,
            },
    {
        match self.find_field(name) {
            Some(k) => match &self.fields[k].1 {
                FieldValue::U32(v) => Some(*v),
                _ => None,
            },
            None => None,
        }
    }

    pub fn get_value_string(&self, name: &str) -> (r: Option<String>)
        ensures
            match self.field(name@) {
                Some(FieldValue::Str(s)) => r is Some && r.unwrap()@ == s@,
                _ => r is None,
            },
    {
        match self.find_field(name) {
            Some(k) => match &self.fields[k].1 {
                FieldValue::Str(s) => Some(s.clone()),
                _ => None,
            },
            None => None,
        }
    }
}

} // verus!
