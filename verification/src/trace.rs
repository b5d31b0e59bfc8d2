//! Trace messages for the client: how the fields of a trace event are recorded, and what the
//! client is sent at each trace level.
use vstd::prelude::*;
use crate::text::same_text;

verus! {

/// How much the client wants to be told.
#[derive(Clone, Copy, Debug, PartialEq, Eq, Structural)]
pub enum TraceValue {
    Off,
    Messages,
    Verbose,
}

/// The trace level that the client has asked for, which decides what trace events it is sent.
/// It starts off.
pub struct TraceValueAccessor {
    value: TraceValue,
}

impl TraceValueAccessor {
    /// The trace level in force.
    pub closed spec fn spec_value(&self) -> TraceValue {
        self.value
    }

    pub fn new() -> (r: Self)
        ensures
            r.spec_value() == TraceValue::Off,
    {
        TraceValueAccessor { value: TraceValue::Off }
    }

    /// Sets the trace level.
    pub fn set(&mut self, new_trace_value: TraceValue)
        ensures
            final(self).spec_value() == new_trace_value,
    {
        self.value = new_trace_value;
    }

    /// The trace level in force.
    pub fn get(&self) -> (r: TraceValue)
        ensures
            r == self.spec_value(),
    {
        self.value
    }
}

/// The fields of a trace event: its message, and the other fields as `name=value,` pairs.
#[derive(Clone, Debug)]
pub struct TraceMessage {
    pub message: String,
    pub formatted_fields: String,
}

/// A trace notification: the message, and the other fields for a verbose trace.
#[derive(Clone, Debug)]
pub struct LogTrace {
    pub message: String,
    pub verbose: Option<String>,
}

impl TraceMessage {
    pub fn new() -> (r: Self)
        ensures
            r.message@ == Seq::<char>::empty(),
            r.formatted_fields@ == Seq::<char>::empty(),
    {
        TraceMessage { message: String::new(), formatted_fields: String::new() }
    }

    /// Records the field `name` whose value is written `value`: the field `message` extends the
    /// message, any other field is added to the other fields.
    pub fn record(&mut self, name: &str, value: &str)
        ensures
            name@ == "message"@ ==> final(self).message@ == old(self).message@ + value@
                && final(self).formatted_fields@ == old(self).formatted_fields@,
            name@ != "message"@ ==> final(self).message@ == old(self).message@
                && final(self).formatted_fields@ == old(self).formatted_fields@ + name@ + "="@
                + value@ + ","@,
    {
        if same_text(name, "message") {
            self.message.append(value);
        } else {
            self.formatted_fields.append(name);
            self.formatted_fields.append("=");
            self.formatted_fields.append(value);
            self.formatted_fields.append(",");
        }
    }

    /// The message, followed by the other fields in brackets when there are any.
    pub fn to_string(&self) -> (r: String)
        ensures
            self.formatted_fields@.len() == 0 ==> r@ == self.message@,
            self.formatted_fields@.len() > 0 ==> r@ == self.message@ + " ["@
                + self.formatted_fields@ + "]"@,
    {
        let mut s = self.message.clone();
        if self.formatted_fields.as_str().unicode_len() > 0 {
            s.append(" [");
            s.append(self.formatted_fields.as_str());
            s.append("]");
        }
        s
    }
}

/// What the client is sent for a trace event at `trace_value`: nothing when tracing is off; the
/// message, with the other fields only when tracing is verbose.
pub fn log_trace(trace_value: TraceValue, event: &TraceMessage) -> (r: Option<LogTrace>)
    ensures
        trace_value == TraceValue::Off ==> r is None,
        trace_value != TraceValue::Off ==> r is Some && r->Some_0.message@ == event.message@,
        trace_value == TraceValue::Messages ==> r is Some && r->Some_0.verbose is None,
        trace_value == TraceValue::Verbose ==> r is Some && r->Some_0.verbose is Some
            && r->Some_0.verbose->Some_0@ == event.formatted_fields@,
{
    match trace_value {
        TraceValue::Off => None,
        TraceValue::Messages => Some(LogTrace { message: event.message.clone(), verbose: None }),
        TraceValue::Verbose => Some(
            LogTrace {
                message: event.message.clone(),
                verbose: Some(event.formatted_fields.clone()),
            },
        ),
    }
}

} // verus!
