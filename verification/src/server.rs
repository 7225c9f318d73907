use vstd::prelude::*;
use crate::store::{SpanRef, Store};
use crate::model::{spec_nice_name, StoreView};
use crate::viewer::{ViewLineUpdate, ViewMode, Viewer, opts_get};

verus! {

/// The client's viewport: `x` and `width` in span-time units, `y` and
/// `height` in line indices, `horizontal_pixels` the raster width.
pub struct ViewRect {
    pub x: u64,
    pub y: u64,
    pub width: u64,
    pub height: u64,
    pub horizontal_pixels: u64,
}

pub enum ServerToClientMessage {
    ViewLine { update: ViewLineUpdate },
    ViewLinesCount { count: usize },
    QueryResult {
        id: usize,
        is_graph: bool,
        start: u64,
        args: Vec<(String, String)>,
        path: Vec<String>,
    },
}

pub enum ClientToServerMessage {
    ViewRect { view_rect: ViewRect },
    Expand { id: usize },
    ExpandAll { id: usize },
    Collapse { id: usize },
    ResetExpand { id: usize },
    Query { id: usize },
}

pub struct SpanViewEvent {
    pub start: u64,
    pub duration: u64,
    pub name: String,
    pub id: Option<usize>,
}

/// Display titles of the ancestors of `i`, root side first, the span
/// itself excluded.
pub open spec fn spec_path(v: StoreView, i: int) -> Seq<Seq<char>>
    decreases i,
        when crate::model::wf(v) && 0 <= i < v.len() via spec_path_decreases
{
    match v[i].parent {
        Some(p) => spec_path(v, p).push(spec_nice_name(v[p]).1),
        None => Seq::empty(),
    }
}

#[via_fn]
proof fn spec_path_decreases(v: StoreView, i: int) {
    assert(crate::model::wf_record(v, i));
}

/// The in-band answer to a query: the span's start, arguments and
/// ancestor path, or an empty result when the id does not resolve.
pub fn query_result(store: &Store, id: usize) -> (r: ServerToClientMessage)
    requires
        store.readable(),
    ensures
        r is QueryResult,
        r->QueryResult_id == id,
        id >= 1 && id / 2 < store@.len() ==> {
            &&& r->QueryResult_is_graph == (id % 2 == 1)
            &&& r->QueryResult_start as int == store@[id as int / 2].start
            &&& r->QueryResult_args@.map_values(|a: (String, String)| (a.0@, a.1@)) == store@[
                id as int / 2
            ].args
            &&& r->QueryResult_path@.map_values(|s: String| s@) == spec_path(
                store@,
                id as int / 2,
            )
        },
        !(id >= 1 && id / 2 < store@.len()) ==> {
            &&& !r->QueryResult_is_graph
            &&& r->QueryResult_start == 0
            &&& r->QueryResult_args@.len() == 0
            &&& r->QueryResult_path@.len() == 0
        },
{
    match store.span(id) {
        Some((span, is_graph)) => {
            let start = span.start();
            let args = copy_args(span.args());
            let mut rev: Vec<String> = Vec::new();
            let mut cur = span;
            let ghost pfull = spec_path(store@, span.index as int);
            proof {
                assert(pfull.take(pfull.len() as int) =~= pfull);
            }
            loop
                invariant_except_break
                    store.readable(),
                    cur.wf(),
                    cur.store == store,
                    pfull == spec_path(store@, span.index as int),
                    rev@.len() + spec_path(store@, cur.index as int).len() == pfull.len(),
                    pfull.take(spec_path(store@, cur.index as int).len() as int) == spec_path(
                        store@,
                        cur.index as int,
                    ),
                    forall|t: int|
                        0 <= t < rev@.len() ==> (#[trigger] rev@[t])@ == pfull[pfull.len() - 1
                            - t],
                ensures
                    pfull == spec_path(store@, span.index as int),
                    rev@.len() == pfull.len(),
                    forall|t: int|
                        0 <= t < rev@.len() ==> (#[trigger] rev@[t])@ == pfull[pfull.len() - 1
                            - t],
                decreases cur.index,
            {
                proof {
                    assert(crate::model::wf_record(store@, cur.index as int));
                }
                match cur.parent() {
                    Some(p) => {
                        let ghost pc = spec_path(store@, cur.index as int);
                        let ghost pp = spec_path(store@, p.index as int);
                        let nn = p.nice_name();
                        proof {
                            assert(pc == pp.push(crate::model::spec_nice_name(
                                store@[p.index as int],
                            ).1));
                            assert(pc[pc.len() - 1] == nn.1@);
                            assert(pfull.take(pc.len() as int)[pc.len() - 1] == pc[pc.len() - 1]);
                            assert(pfull[pc.len() - 1] == nn.1@);
                            assert(pfull.take(pc.len() as int).take(pp.len() as int) =~= pfull.take(
                                pp.len() as int,
                            ));
                            assert(pc.take(pp.len() as int) =~= pp);
                        }
                        rev.push(nn.1);
                        cur = p;
                    },
                    None => {
                        proof {
                            assert(spec_path(store@, cur.index as int) =~= Seq::<Seq<char>>::empty());
                        }
                        break ;
                    },
                }
            }
            let n = rev.len();
            let mut path: Vec<String> = Vec::new();
            let mut j: usize = 0;
            while j < n
                invariant
                    0 <= j <= n,
                    n == rev@.len(),
                    n == spec_path(store@, span.index as int).len(),
                    forall|t: int|
                        0 <= t < rev@.len() ==> (#[trigger] rev@[t])@ == spec_path(
                            store@,
                            span.index as int,
                        )[spec_path(store@, span.index as int).len() - 1 - t],
                    path@.len() == j,
                    forall|t: int|
                        0 <= t < path@.len() ==> (#[trigger] path@[t])@ == spec_path(
                            store@,
                            span.index as int,
                        )[t],
                    store.readable(),
                decreases n - j,
            {
                let s = rev[n - 1 - j].clone();
                path.push(s);
                j = j + 1;
            }
            proof {
                assert(path@.map_values(|s: String| s@) =~= spec_path(
                    store@,
                    span.index as int,
                ));
            }
            ServerToClientMessage::QueryResult {
                id,
                is_graph,
                start,
                args,
                path,
            }
        },
        None => ServerToClientMessage::QueryResult {
            id,
            is_graph: false,
            start: 0,
            args: Vec::new(),
            path: Vec::new(),
        },
    }
}

/// Copies an argument list pair by pair.
fn copy_args(src: &Vec<(String, String)>) -> (r: Vec<(String, String)>)
    ensures
        r@.map_values(|a: (String, String)| (a.0@, a.1@)) == src@.map_values(
            |a: (String, String)| (a.0@, a.1@),
        ),
{
    let n = src.len();
    let mut r: Vec<(String, String)> = Vec::new();
    let mut j: usize = 0;
    while j < n
        invariant
            0 <= j <= n,
            n == src@.len(),
            r@.len() == j,
            forall|t: int|
                0 <= t < r@.len() ==> (#[trigger] r@[t]).0@ == src@[t].0@ && r@[t].1@
                    == src@[t].1@,
        decreases n - j,
    {
        let k = src[j].0.clone();
        let v = src[j].1.clone();
        r.push((k, v));
        j = j + 1;
    }
    proof {
        assert(r@.map_values(|a: (String, String)| (a.0@, a.1@)) =~= src@.map_values(
            |a: (String, String)| (a.0@, a.1@),
        ));
    }
    r
}

/// Applies one client command to the per-connection state. Expand shows a
/// span's raw children, expand-all does so for the whole subtree, and
/// collapse switches to the aggregated view; reset-expand returns the
/// span to the inherited mode. A query is answered in band and changes
/// nothing.
pub fn apply_command(
    viewer: &mut Viewer,
    view_rect: &mut ViewRect,
    store: &Store,
    msg: ClientToServerMessage,
) -> (reply: Option<ServerToClientMessage>)
    requires
        store.readable(),
    ensures
        match msg {
            ClientToServerMessage::ViewRect { view_rect: vr } => *final(view_rect) == vr
                && *final(viewer) == *old(viewer) && reply is None,
            ClientToServerMessage::Expand { id } => *final(view_rect) == *old(view_rect)
                && opts_get(final(viewer).span_options@, id) == Some(
                Some((ViewMode::RawSpans { sorted: false }, false)),
            ) && reply is None && viewer_same_but(old(viewer), final(viewer), id),
            ClientToServerMessage::ExpandAll { id } => *final(view_rect) == *old(view_rect)
                && opts_get(final(viewer).span_options@, id) == Some(
                Some((ViewMode::RawSpans { sorted: false }, true)),
            ) && reply is None && viewer_same_but(old(viewer), final(viewer), id),
            ClientToServerMessage::Collapse { id } => *final(view_rect) == *old(view_rect)
                && opts_get(final(viewer).span_options@, id) == Some(
                Some((ViewMode::Aggregated { sorted: false }, false)),
            ) && reply is None && viewer_same_but(old(viewer), final(viewer), id),
            ClientToServerMessage::ResetExpand { id } => *final(view_rect) == *old(view_rect)
                && opts_get(final(viewer).span_options@, id) == Some(None::<(ViewMode, bool)>) && reply is None
                && viewer_same_but(old(viewer), final(viewer), id),
            ClientToServerMessage::Query { id } => *final(view_rect) == *old(view_rect)
                && *final(viewer) == *old(viewer) && reply is Some && reply->0 is QueryResult
                && reply->0->QueryResult_id == id,
        },
{
    match msg {
        ClientToServerMessage::ViewRect { view_rect: vr } => {
            *view_rect = vr;
            None
        },
        ClientToServerMessage::Expand { id } => {
            viewer.set_view_mode(id, Some((ViewMode::RawSpans { sorted: false }, false)));
            None
        },
        ClientToServerMessage::ExpandAll { id } => {
            viewer.set_view_mode(id, Some((ViewMode::RawSpans { sorted: false }, true)));
            None
        },
        ClientToServerMessage::Collapse { id } => {
            viewer.set_view_mode(id, Some((ViewMode::Aggregated { sorted: false }, false)));
            None
        },
        ClientToServerMessage::ResetExpand { id } => {
            viewer.set_view_mode(id, None);
            None
        },
        ClientToServerMessage::Query { id } => Some(query_result(store, id)),
    }
}

/// All other span ids keep the choice they had.
pub open spec fn viewer_same_but(v1: &Viewer, v2: &Viewer, id: usize) -> bool {
    forall|other: usize|
        other != id ==> opts_get(v2.span_options@, other) == opts_get(
            #[trigger] v1.span_options@,
            other,
        )
}

} // verus!
