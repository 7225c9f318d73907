use trace_viewer_core::server::{ClientToServerMessage, ServerToClientMessage, ViewRect, apply_command, query_result};
use trace_viewer_core::span::{SpanEvent, SpanGraphEvent};
use trace_viewer_core::store::{SpanGraphEventRef, Store};
use trace_viewer_core::viewer::{ViewLineUpdate, ViewMode, Viewer};

fn add(
    store: &mut Store,
    parent: Option<usize>,
    start: u64,
    category: &str,
    name: &str,
    args: Vec<(String, String)>,
    outdated: &mut Vec<usize>,
) -> usize {
    store.add_span(parent, start, category.to_string(), name.to_string(), args, outdated)
}

#[test]
fn single_root_single_child() {
    let mut store = Store::new();
    let mut outdated: Vec<usize> = Vec::new();
    let a = add(&mut store, None, 0, "cat", "a", vec![], &mut outdated);
    store.add_self_time(a, 0, 100, &mut outdated);
    let b = add(&mut store, Some(a), 20, "cat", "b", vec![], &mut outdated);
    store.add_self_time(b, 20, 70, &mut outdated);
    store.invalidate_outdated_spans(&outdated);
    store.increment_generation();

    let (sa, is_graph) = store.span(a * 2).unwrap();
    assert!(!is_graph);
    assert_eq!(sa.start(), 0);
    assert_eq!(sa.self_time(), 100);
    assert_eq!(sa.end(), 100);
    assert_eq!(sa.max_depth(), 1);
    // total time adds the child's self time below the span's own
    assert_eq!(sa.total_time(), 150);
    let (sb, _) = store.span(b * 2).unwrap();
    assert_eq!(sb.self_time(), 50);
    assert_eq!(sb.end(), 70);
    assert_eq!(sb.total_time(), 50);
}

#[test]
fn thread_span_self_time_suppressed() {
    let mut store = Store::new();
    let mut outdated: Vec<usize> = Vec::new();
    let t = add(&mut store, None, 0, "", "thread", vec![], &mut outdated);
    store.add_self_time(t, 0, 1_000_000, &mut outdated);
    let (st, _) = store.span(t * 2).unwrap();
    assert_eq!(st.self_time(), 0);
    assert_eq!(st.events_count(), 0);
}

#[test]
fn aggregation_grouping() {
    let mut store = Store::new();
    let mut outdated: Vec<usize> = Vec::new();
    let a = add(&mut store, None, 0, "", "x", vec![], &mut outdated);
    let b1 = add(&mut store, Some(a), 0, "", "y", vec![], &mut outdated);
    let c1 = add(&mut store, Some(b1), 0, "", "y", vec![], &mut outdated);
    let b2 = add(&mut store, Some(a), 0, "", "y", vec![], &mut outdated);
    let d = add(&mut store, Some(a), 0, "", "z", vec![], &mut outdated);
    store.invalidate_outdated_spans(&outdated);

    let (sa, _) = store.span(a * 2).unwrap();
    let events = sa.graph();
    assert_eq!(events.len(), 2);
    match &events[0] {
        SpanGraphEventRef::Child { graph } => {
            assert_eq!(graph.graph.root_spans, vec![b1, b2]);
            assert_eq!(graph.graph.recursive_spans, vec![c1]);
            assert_eq!(graph.count(), 3);
            assert_eq!(graph.id(), b1 * 2 + 1);
        }
        _ => panic!("expected a child graph"),
    }
    match &events[1] {
        SpanGraphEventRef::Child { graph } => {
            assert_eq!(graph.graph.root_spans, vec![d]);
            assert!(graph.graph.recursive_spans.is_empty());
        }
        _ => panic!("expected a child graph"),
    }
}

#[test]
fn aggregation_conservation() {
    let mut store = Store::new();
    let mut outdated: Vec<usize> = Vec::new();
    let a = add(&mut store, None, 0, "", "x", vec![], &mut outdated);
    let b1 = add(&mut store, Some(a), 0, "", "y", vec![], &mut outdated);
    let c1 = add(&mut store, Some(b1), 0, "", "y", vec![], &mut outdated);
    let b2 = add(&mut store, Some(a), 0, "", "y", vec![], &mut outdated);
    let d = add(&mut store, Some(a), 0, "", "z", vec![], &mut outdated);
    store.add_self_time(b1, 0, 10, &mut outdated);
    store.add_self_time(c1, 0, 7, &mut outdated);
    store.add_self_time(b2, 10, 15, &mut outdated);
    store.add_self_time(d, 15, 18, &mut outdated);
    store.invalidate_outdated_spans(&outdated);

    let (sa, _) = store.span(a * 2).unwrap();
    let graph_sum: u64 = sa.graph().iter().map(|e| e.corrected_total_time()).sum();
    let child_sum: u64 = sa.children().iter().map(|c| c.corrected_total_time()).sum();
    assert_eq!(graph_sum, child_sum);
    assert_eq!(graph_sum, 25);
}

#[test]
fn query_path() {
    let mut store = Store::new();
    let mut outdated: Vec<usize> = Vec::new();
    let p = add(&mut store, None, 0, "", "p", vec![], &mut outdated);
    let q = add(&mut store, Some(p), 0, "", "q", vec![], &mut outdated);
    let r = add(&mut store, Some(q), 0, "", "r", vec![], &mut outdated);
    match query_result(&store, r * 2) {
        ServerToClientMessage::QueryResult { id, is_graph, start, args, path } => {
            assert_eq!(id, r * 2);
            assert!(!is_graph);
            assert_eq!(start, 0);
            assert!(args.is_empty());
            assert_eq!(path, vec!["p".to_string(), "q".to_string()]);
        }
        _ => panic!("expected a query result"),
    }
}

#[test]
fn query_miss_is_empty() {
    let store = Store::new();
    match query_result(&store, 12345678) {
        ServerToClientMessage::QueryResult { id, is_graph, start, args, path } => {
            assert_eq!(id, 12345678);
            assert!(!is_graph);
            assert_eq!(start, 0);
            assert!(args.is_empty());
            assert!(path.is_empty());
        }
        _ => panic!("expected a query result"),
    }
}

fn rect(x: u64, y: u64, width: u64, height: u64, horizontal_pixels: u64) -> ViewRect {
    ViewRect { x, y, width, height, horizontal_pixels }
}

fn spans_of(update: &ViewLineUpdate) -> usize {
    update.spans.len()
}

#[test]
fn projection_pixel_coalescing() {
    let mut store = Store::new();
    let mut outdated: Vec<usize> = Vec::new();
    let a = add(&mut store, None, 0, "", "a", vec![], &mut outdated);
    let c1 = add(&mut store, Some(a), 0, "", "c1", vec![], &mut outdated);
    let g1 = add(&mut store, Some(c1), 0, "", "g1", vec![], &mut outdated);
    store.add_self_time(g1, 0, 5, &mut outdated);
    let c2 = add(&mut store, Some(a), 5, "", "c2", vec![], &mut outdated);
    store.add_self_time(c2, 5, 10, &mut outdated);
    store.invalidate_outdated_spans(&outdated);

    let viewer = Viewer::new();
    // wide raster: both five-unit children stay apart
    let wide = viewer.compute_update(&store, &rect(0, 0, 10, 5, 100));
    assert_eq!(spans_of(&wide[1]), 2);
    // two-pixel raster: the children collide; the deeper one survives
    let narrow = viewer.compute_update(&store, &rect(0, 0, 10, 5, 2));
    assert_eq!(spans_of(&narrow[1]), 1);
    let survivor = &narrow[1].spans[0];
    // the survivor stands for the deeper subtree, as a placeholder
    assert_eq!(survivor.id, 0);
    assert_eq!(survivor.start, 0);
}

#[test]
fn projection_vertical_cull() {
    let mut store = Store::new();
    let mut outdated: Vec<usize> = Vec::new();
    let mut parent: Option<usize> = None;
    let mut ids = Vec::new();
    for i in 0..12u64 {
        let s = add(&mut store, parent, 0, "", &format!("s{}", i), vec![], &mut outdated);
        ids.push(s);
        parent = Some(s);
    }
    store.add_self_time(*ids.last().unwrap(), 0, 10, &mut outdated);
    store.invalidate_outdated_spans(&outdated);

    let viewer = Viewer::new();
    let updates = viewer.compute_update(&store, &rect(0, 0, 10, 2, 10));
    // height 2 plus the extra margin: nothing at depth 10 or below
    assert!(updates.len() <= 8);
    for u in &updates {
        assert!(u.y <= 7);
    }
}

#[test]
fn projection_deterministic() {
    let mut store = Store::new();
    let mut outdated: Vec<usize> = Vec::new();
    let a = add(&mut store, None, 0, "", "a", vec![], &mut outdated);
    let b = add(&mut store, Some(a), 0, "", "b", vec![], &mut outdated);
    store.add_self_time(b, 0, 4, &mut outdated);
    let c = add(&mut store, Some(a), 4, "", "c", vec![], &mut outdated);
    store.add_self_time(c, 4, 9, &mut outdated);
    store.invalidate_outdated_spans(&outdated);

    let viewer = Viewer::new();
    let r = rect(0, 0, 10, 5, 50);
    let u1 = viewer.compute_update(&store, &r);
    let u2 = viewer.compute_update(&store, &r);
    assert_eq!(u1.len(), u2.len());
    for (l1, l2) in u1.iter().zip(u2.iter()) {
        assert_eq!(l1.y, l2.y);
        assert_eq!(l1.spans.len(), l2.spans.len());
        for (s1, s2) in l1.spans.iter().zip(l2.spans.iter()) {
            assert_eq!(s1.id, s2.id);
            assert_eq!(s1.start, s2.start);
            assert_eq!(s1.width, s2.width);
            assert_eq!(s1.category, s2.category);
            assert_eq!(s1.text, s2.text);
            assert_eq!(s1.count, s2.count);
        }
    }
}

#[test]
fn projection_viewport_clipping() {
    let mut store = Store::new();
    let mut outdated: Vec<usize> = Vec::new();
    let a = add(&mut store, None, 0, "", "a", vec![], &mut outdated);
    for i in 0..20u64 {
        let c = add(&mut store, Some(a), i * 10, "", &format!("c{}", i), vec![], &mut outdated);
        store.add_self_time(c, i * 10, i * 10 + 10, &mut outdated);
    }
    store.invalidate_outdated_spans(&outdated);

    let viewer = Viewer::new();
    let x = 100u64;
    let w = 20u64;
    let updates = viewer.compute_update(&store, &rect(x, 0, w, 5, 100));
    for u in updates.iter().skip(1) {
        for s in &u.spans {
            assert!(s.start <= x + w * 120 / 100);
            assert!(x <= w * 20 / 100 + s.start + s.width);
        }
    }
}

#[test]
fn generation_is_monotone() {
    let mut store = Store::new();
    assert_eq!(store.generation(), 0);
    let mut outdated: Vec<usize> = Vec::new();
    let g0 = store.generation();
    add(&mut store, None, 0, "", "a", vec![], &mut outdated);
    store.invalidate_outdated_spans(&outdated);
    store.increment_generation();
    assert!(store.generation() > g0);
    let g1 = store.generation();
    store.increment_generation();
    assert!(store.generation() > g1);
}

#[test]
fn indices_are_stable() {
    let mut store = Store::new();
    let mut outdated: Vec<usize> = Vec::new();
    let a = add(&mut store, None, 5, "", "a", vec![], &mut outdated);
    let b = add(&mut store, None, 6, "", "b", vec![], &mut outdated);
    assert_ne!(a, b);
    let (sa, _) = store.span(a * 2).unwrap();
    assert_eq!(sa.name(), "a");
    let c = add(&mut store, Some(a), 5, "", "c", vec![], &mut outdated);
    assert_ne!(c, a);
    assert_ne!(c, b);
    let (sa2, _) = store.span(a * 2).unwrap();
    assert_eq!(sa2.name(), "a");
    assert_eq!(sa2.start(), 5);
}

#[test]
fn events_keep_insertion_order() {
    let mut store = Store::new();
    let mut outdated: Vec<usize> = Vec::new();
    let a = add(&mut store, None, 0, "", "a", vec![], &mut outdated);
    let b1 = add(&mut store, Some(a), 0, "", "b1", vec![], &mut outdated);
    store.add_self_time(a, 0, 3, &mut outdated);
    let b2 = add(&mut store, Some(a), 3, "", "b2", vec![], &mut outdated);
    let (sa, _) = store.span(a * 2).unwrap();
    assert_eq!(sa.events_count(), 3);
    let kids: Vec<usize> = sa.children().iter().map(|c| c.id() / 2).collect();
    assert_eq!(kids, vec![b1, b2]);
}

#[test]
fn invalidation_refreshes_reads() {
    let mut store = Store::new();
    let mut outdated: Vec<usize> = Vec::new();
    let a = add(&mut store, None, 0, "", "a", vec![], &mut outdated);
    store.add_self_time(a, 0, 10, &mut outdated);
    store.invalidate_outdated_spans(&outdated);
    store.memoize_span(a);
    {
        let (sa, _) = store.span(a * 2).unwrap();
        assert_eq!(sa.end(), 10);
        assert_eq!(sa.total_time(), 10);
    }
    let mut outdated2: Vec<usize> = Vec::new();
    store.add_self_time(a, 10, 25, &mut outdated2);
    store.invalidate_outdated_spans(&outdated2);
    let (sa, _) = store.span(a * 2).unwrap();
    assert_eq!(sa.end(), 25);
    assert_eq!(sa.total_time(), 25);
    assert_eq!(sa.self_time(), 25);
}

#[test]
fn nice_and_group_names() {
    let mut store = Store::new();
    let mut outdated: Vec<usize> = Vec::new();
    let plain = add(&mut store, None, 0, "cat", "work", vec![], &mut outdated);
    let named = add(
        &mut store,
        None,
        0,
        "cat",
        "turbo_tasks::function",
        vec![("name".to_string(), "my_task".to_string())],
        &mut outdated,
    );
    let resolve = add(
        &mut store,
        None,
        0,
        "cat",
        "turbo_tasks::resolve_call",
        vec![("name".to_string(), "my_trait".to_string())],
        &mut outdated,
    );
    let (sp, _) = store.span(plain * 2).unwrap();
    assert_eq!(sp.nice_name(), ("cat".to_string(), "work".to_string()));
    assert_eq!(sp.group_name(), "work");
    let (sn, _) = store.span(named * 2).unwrap();
    assert_eq!(
        sn.nice_name(),
        ("turbo_tasks::function cat".to_string(), "my_task".to_string())
    );
    assert_eq!(sn.group_name(), "my_task");
    let (sr, _) = store.span(resolve * 2).unwrap();
    assert_eq!(
        sr.nice_name(),
        ("turbo_tasks::resolve_call cat".to_string(), "*my_trait".to_string())
    );
    assert_eq!(sr.group_name(), "*my_trait");
}

#[test]
fn reset_clears_everything() {
    let mut store = Store::new();
    let mut outdated: Vec<usize> = Vec::new();
    add(&mut store, None, 0, "", "a", vec![], &mut outdated);
    add(&mut store, None, 1, "", "b", vec![], &mut outdated);
    assert_eq!(store.root_spans().len(), 2);
    store.reset();
    assert_eq!(store.root_spans().len(), 0);
    assert!(store.span(2).is_none());
}

#[test]
fn commands_drive_view_modes() {
    let mut store = Store::new();
    let mut outdated: Vec<usize> = Vec::new();
    let a = add(&mut store, None, 0, "", "a", vec![], &mut outdated);
    store.invalidate_outdated_spans(&outdated);
    let mut viewer = Viewer::new();
    let mut vr = rect(0, 0, 1, 1, 1);

    let id = a * 2;
    let reply = apply_command(
        &mut viewer,
        &mut vr,
        &store,
        ClientToServerMessage::Collapse { id },
    );
    assert!(reply.is_none());
    match viewer.get_view_mode(id) {
        Some((ViewMode::Aggregated { sorted }, inherit)) => {
            assert!(!sorted);
            assert!(!inherit);
        }
        _ => panic!("unexpected mode"),
    }
    apply_command(&mut viewer, &mut vr, &store, ClientToServerMessage::ExpandAll { id });
    match viewer.get_view_mode(id) {
        Some((ViewMode::RawSpans { sorted }, inherit)) => {
            assert!(!sorted);
            assert!(inherit);
        }
        _ => panic!("unexpected mode"),
    }
    apply_command(&mut viewer, &mut vr, &store, ClientToServerMessage::ResetExpand { id });
    assert!(viewer.get_view_mode(id).is_none());
    apply_command(
        &mut viewer,
        &mut vr,
        &store,
        ClientToServerMessage::ViewRect { view_rect: rect(1, 2, 3, 4, 5) },
    );
    assert_eq!(vr.x, 1);
    assert_eq!(vr.height, 4);
}

#[test]
fn raw_events_are_visible() {
    let mut store = Store::new();
    let mut outdated: Vec<usize> = Vec::new();
    let a = add(&mut store, None, 0, "", "a", vec![], &mut outdated);
    store.add_self_time(a, 0, 2, &mut outdated);
    let b = add(&mut store, Some(a), 2, "", "b", vec![], &mut outdated);
    let (sa, _) = store.span(a * 2).unwrap();
    let evs = sa.events();
    assert_eq!(evs.len(), 2);
    match &evs[0] {
        trace_viewer_core::store::SpanEventRef::SelfTime { start, end } => {
            assert_eq!((*start, *end), (0, 2));
        }
        _ => panic!("expected self time"),
    }
    match &evs[1] {
        trace_viewer_core::store::SpanEventRef::Child { span } => {
            assert_eq!(span.id(), b * 2);
        }
        _ => panic!("expected child"),
    }
    // the raw enums mirror the same shapes
    let ev = SpanEvent::Child { id: b };
    match ev {
        SpanEvent::Child { id } => assert_eq!(id, b),
        SpanEvent::SelfTime { .. } => panic!("wrong variant"),
    }
    let ge = SpanGraphEvent::SelfTime { duration: 3 };
    match ge {
        SpanGraphEvent::SelfTime { duration } => assert_eq!(duration, 3),
        SpanGraphEvent::Child { .. } => panic!("wrong variant"),
    }
}

#[test]
fn nested_aggregation_events() {
    let mut store = Store::new();
    let mut outdated: Vec<usize> = Vec::new();
    let a = add(&mut store, None, 0, "", "x", vec![], &mut outdated);
    let b1 = add(&mut store, Some(a), 0, "", "y", vec![], &mut outdated);
    let c1 = add(&mut store, Some(b1), 0, "", "y", vec![], &mut outdated);
    let d1 = add(&mut store, Some(c1), 0, "", "z", vec![], &mut outdated);
    let b2 = add(&mut store, Some(a), 0, "", "y", vec![], &mut outdated);
    let d2 = add(&mut store, Some(b2), 0, "", "z", vec![], &mut outdated);
    store.invalidate_outdated_spans(&outdated);

    let (sa, _) = store.span(a * 2).unwrap();
    let events = sa.graph();
    match &events[0] {
        SpanGraphEventRef::Child { graph } => {
            // the y-group: roots b1, b2; c1 reached through the y-chain
            assert_eq!(graph.graph.root_spans, vec![b1, b2]);
            assert_eq!(graph.graph.recursive_spans, vec![c1]);
            // nesting below it: one z-group fed by both members' children
            let nested = graph.events();
            assert_eq!(nested.len(), 1);
            match &nested[0] {
                SpanGraphEventRef::Child { graph: inner } => {
                    assert_eq!(inner.graph.root_spans, vec![d2, d1]);
                    assert!(inner.graph.recursive_spans.is_empty());
                    assert_eq!(graph.max_depth(), 1);
                    assert_eq!(inner.max_depth(), 0);
                }
                _ => panic!("expected a nested graph"),
            }
        }
        _ => panic!("expected a child graph"),
    }
}

#[test]
fn projection_lines_are_contiguous() {
    let mut store = Store::new();
    let mut outdated: Vec<usize> = Vec::new();
    let a = add(&mut store, None, 0, "", "a", vec![], &mut outdated);
    let b = add(&mut store, Some(a), 0, "", "b", vec![], &mut outdated);
    store.add_self_time(b, 0, 10, &mut outdated);
    store.invalidate_outdated_spans(&outdated);

    let viewer = Viewer::new();
    let updates = viewer.compute_update(&store, &rect(0, 0, 10, 3, 10));
    // no empty line is emitted, the count stays within the cull bound,
    // and an empty store yields no lines at all
    assert!(!updates.is_empty());
    assert!(updates.len() as u64 <= 0 + 3 + 5 + 1);
    for u in &updates {
        assert!(!u.spans.is_empty());
    }
    let empty = Store::new();
    assert!(viewer.compute_update(&empty, &rect(0, 0, 10, 3, 10)).is_empty());
}
