//! Records of the trace-event document that the receiver writes: range
//! events, point events and thread-name metadata. Timestamps are kept in
//! nanoseconds; whoever writes the document shows them in microseconds.

use vstd::prelude::*;
use std::collections::HashMap;

verus! {

/// A span of time spent in one event.
pub struct RangeEvent {
    pub name: String,
    pub cat: String,
    pub ph: String,
    /// Start, in nanoseconds.
    pub ts_ns: u64,
    /// Duration, in nanoseconds.
    pub dur_ns: u32,
    pub tid: u64,
}

impl RangeEvent {
    /// Whether this is the range record for the given event.
    pub open spec fn describes(&self, name: Seq<char>, event_id: usize, timestamp: u64, duration: u32) -> bool {
        &&& self.name@ == name
        &&& self.cat@ == "Range"@
        &&& self.ph@ == "X"@
        &&& self.ts_ns == timestamp
        &&& self.dur_ns == duration
        &&& self.tid == event_id as u64
    }

    /// The range record for an event; its lane (`tid`) is the event id.
    pub fn new(name: String, event_id: usize, timestamp: u64, duration: u32) -> (r: Self)
        ensures
            r.describes(name@, event_id, timestamp, duration),
    {
        proof {
            reveal_strlit("Range");
            reveal_strlit("X");
        }
        RangeEvent {
            name,
            cat: "Range".to_owned(),
            ph: "X".to_owned(),
            ts_ns: timestamp,
            dur_ns: duration,
            tid: event_id as u64,
        }
    }
}

/// An instant in one event.
pub struct PointEvent {
    pub name: String,
    pub cat: String,
    pub ph: String,
    /// The instant, in nanoseconds.
    pub ts_ns: u64,
    pub tid: u64,
}

impl PointEvent {
    /// Whether this is the point record for the given event.
    pub open spec fn describes(&self, name: Seq<char>, event_id: usize, timestamp: u64) -> bool {
        &&& self.name@ == name
        &&& self.cat@ == "Point"@
        &&& self.ph@ == "i"@
        &&& self.ts_ns == timestamp
        &&& self.tid == event_id as u64
    }

    /// The point record for an event; its lane (`tid`) is the event id.
    pub fn new(name: String, event_id: usize, timestamp: u64) -> (r: Self)
        ensures
            r.describes(name@, event_id, timestamp),
    {
        proof {
            reveal_strlit("Point");
            reveal_strlit("i");
        }
        PointEvent {
            name,
            cat: "Point".to_owned(),
            ph: "i".to_owned(),
            ts_ns: timestamp,
            tid: event_id as u64,
        }
    }
}

/// Metadata that names a lane.
pub struct ThreadNameMeta {
    pub name: String,
    pub ph: String,
    pub tid: u64,
    /// Arguments as key and value; a lane name has the single key `name`.
    pub args: Vec<(String, String)>,
}

impl ThreadNameMeta {
    /// Whether this is the metadata record naming lane `event_id`.
    pub open spec fn describes(&self, event_id: usize, thread_name: Seq<char>) -> bool {
        &&& self.name@ == "thread_name"@
        &&& self.ph@ == "M"@
        &&& self.tid == event_id as u64
        &&& self.args@.len() == 1
        &&& self.args@[0].0@ == "name"@
        &&& self.args@[0].1@ == thread_name
    }

    /// The metadata record giving lane `event_id` the name `thread_name`.
    pub fn new(event_id: usize, thread_name: String) -> (r: Self)
        ensures
            r.describes(event_id, thread_name@),
    {
        proof {
            reveal_strlit("thread_name");
            reveal_strlit("M");
            reveal_strlit("name");
        }
        let mut args: Vec<(String, String)> = Vec::new();
        args.push(("name".to_owned(), thread_name));
        ThreadNameMeta {
            name: "thread_name".to_owned(),
            ph: "M".to_owned(),
            tid: event_id as u64,
            args,
        }
    }
}

/// One record of the document.
pub enum PerfettoTraceEvent {
    Range(RangeEvent),
    Point(PointEvent),
    ThreadName(ThreadNameMeta),
}

/// The trace-event document: its records in order, and lane names.
pub struct PerfettoTraceFile {
    pub trace_events: Vec<PerfettoTraceEvent>,
    pub thread_names: HashMap<u64, String>,
}

impl PerfettoTraceFile {
    /// A document with no records and no lane names.
    pub fn new() -> (r: Self)
        ensures
            r.trace_events@ == Seq::<PerfettoTraceEvent>::empty(),
            r.thread_names@ == Map::<u64, String>::empty(),
    {
        PerfettoTraceFile { trace_events: Vec::new(), thread_names: HashMap::new() }
    }

    /// Appends the range record of an event.
    pub fn add_range_event(&mut self, name: String, event_id: usize, timestamp: u64, duration: u32)
        ensures
            final(self).trace_events@.len() == old(self).trace_events@.len() + 1,
            final(self).trace_events@.drop_last() == old(self).trace_events@,
            final(self).trace_events@.last() matches PerfettoTraceEvent::Range(e)
                && e.describes(name@, event_id, timestamp, duration),
            final(self).thread_names@ == old(self).thread_names@,
    {
        let e = RangeEvent::new(name, event_id, timestamp, duration);
        self.trace_events.push(PerfettoTraceEvent::Range(e));
        assert(self.trace_events@.drop_last() =~= old(self).trace_events@);
    }

    /// Appends the point record of an event.
    pub fn add_point_event(&mut self, name: String, event_id: usize, timestamp: u64)
        ensures
            final(self).trace_events@.len() == old(self).trace_events@.len() + 1,
            final(self).trace_events@.drop_last() == old(self).trace_events@,
            final(self).trace_events@.last() matches PerfettoTraceEvent::Point(e)
                && e.describes(name@, event_id, timestamp),
            final(self).thread_names@ == old(self).thread_names@,
    {
        let e = PointEvent::new(name, event_id, timestamp);
        self.trace_events.push(PerfettoTraceEvent::Point(e));
        assert(self.trace_events@.drop_last() =~= old(self).trace_events@);
    }

    /// Appends the metadata record naming lane `event_id`.
    pub fn set_thread_name(&mut self, event_id: usize, thread_name: String)
        ensures
            final(self).trace_events@.len() == old(self).trace_events@.len() + 1,
            final(self).trace_events@.drop_last() == old(self).trace_events@,
            final(self).trace_events@.last() matches PerfettoTraceEvent::ThreadName(e)
                && e.describes(event_id, thread_name@),
            final(self).thread_names@ == old(self).thread_names@,
    {
        let e = ThreadNameMeta::new(event_id, thread_name);
        self.trace_events.push(PerfettoTraceEvent::ThreadName(e));
        assert(self.trace_events@.drop_last() =~= old(self).trace_events@);
    }
}

} // verus!
