use sparkles::perfetto_format::{PerfettoTraceEvent, PerfettoTraceFile, PointEvent, RangeEvent, ThreadNameMeta};

#[test]
fn thread_name_record() {
    let m = ThreadNameMeta::new(3, "main".to_string());
    assert_eq!(m.name, "thread_name");
    assert_eq!(m.ph, "M");
    assert_eq!(m.tid, 3);
    assert_eq!(m.args, vec![("name".to_string(), "main".to_string())]);
}

#[test]
fn range_record() {
    let e = RangeEvent::new("work".to_string(), 1, 1_000_000, 500_000);
    assert_eq!(e.name, "work");
    assert_eq!(e.cat, "Range");
    assert_eq!(e.ph, "X");
    assert_eq!(e.ts_ns, 1_000_000);
    assert_eq!(e.dur_ns, 500_000);
    assert_eq!(e.tid, 1);
}

#[test]
fn point_record() {
    let e = PointEvent::new("tick".to_string(), 7, 42);
    assert_eq!(e.cat, "Point");
    assert_eq!(e.ph, "i");
    assert_eq!(e.ts_ns, 42);
    assert_eq!(e.tid, 7);
}

#[test]
fn document_keeps_record_order() {
    let mut f = PerfettoTraceFile::new();
    f.set_thread_name(1, "alpha".to_string());
    f.add_point_event("a".to_string(), 1, 10);
    f.add_range_event("b".to_string(), 2, 20, 5);
    assert_eq!(f.trace_events.len(), 3);
    assert!(matches!(&f.trace_events[0], PerfettoTraceEvent::ThreadName(m) if m.tid == 1));
    assert!(matches!(&f.trace_events[1], PerfettoTraceEvent::Point(p) if p.ts_ns == 10));
    assert!(matches!(&f.trace_events[2], PerfettoTraceEvent::Range(r) if r.dur_ns == 5));
    assert!(f.thread_names.is_empty());
}

#[test]
fn two_threads_interleaved_points() {
    let mut f = PerfettoTraceFile::new();
    f.set_thread_name(1, "alpha".to_string());
    f.set_thread_name(2, "beta".to_string());
    f.add_point_event("a1".to_string(), 1, 100);
    f.add_point_event("b1".to_string(), 2, 150);
    f.add_point_event("a2".to_string(), 1, 200);
    f.add_point_event("b2".to_string(), 2, 250);
    let points: Vec<(u64, u64)> = f
        .trace_events
        .iter()
        .filter_map(|e| match e {
            PerfettoTraceEvent::Point(p) => Some((p.tid, p.ts_ns)),
            _ => None,
        })
        .collect();
    assert_eq!(points.len(), 4);
    let alpha: Vec<u64> = points.iter().filter(|p| p.0 == 1).map(|p| p.1).collect();
    let beta: Vec<u64> = points.iter().filter(|p| p.0 == 2).map(|p| p.1).collect();
    assert_eq!(alpha, vec![100, 200]);
    assert_eq!(beta, vec![150, 250]);
    let names = f
        .trace_events
        .iter()
        .filter(|e| matches!(e, PerfettoTraceEvent::ThreadName(_)))
        .count();
    assert_eq!(names, 2);
}
