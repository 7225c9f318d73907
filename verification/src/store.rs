use vstd::prelude::*;
use crate::span::{EventView, GraphView, Span, SpanEvent, SpanGraph, SpanGraphEvent, SpanView};
use crate::model::{
    MAX_SPANS, StoreView, child_ids, depth_over_events, end_over_events, host_of,
    lemma_depth_bounds, lemma_end_bounds, lemma_total_bounds, max_int, sat_add, spec_end,
    spec_group_name, spec_max_depth, spec_nice_name, spec_total_time, total_over_events, u64_max,
    wf, wf_record, linked,
};
use crate::group::{
    bfs_rec, cand_list, graphs_match, group_cands, keep_same, lemma_filter_key_none,
    lemma_seq_min, nested_cell_ok, push_recs, seq_min, entries_members_ok, filter_key, find_key, gm_into_entries, gm_new, gm_push_recursive,
    gm_push_root, gname, graph_cell_ok, group_map_entries, group_roots, keys_roots_match,
    lemma_push_rec_finds, lemma_push_rec_keeps_roots, lemma_push_rec_members,
    lemma_push_root_finds, lemma_push_root_match, lemma_push_root_members, push_rec_s, push_root_s,
    vec_entries, vec_entry_view, entry_members,
};
use crate::model::{
    find_name_arg, lemma_size_bounds, lemma_size_children, lemma_sum_sizes_nonneg,
    lemma_sum_sizes_push, lemma_sum_sizes_skip, subtree_size, sum_sizes,
};
use crate::group::lemma_keep_same_bounds;
use vstd::string::StringExecFns;

verus! {

/// Append-only arena of spans. Slot 0 is the root sentinel; every later
/// slot is a real span whose `index` field equals its slot. The
/// `generation` counter is bumped once per completed mutation batch.
pub struct Store {
    pub spans: Vec<Span>,
    pub generation: u64,
}

impl View for Store {
    type V = StoreView;

    open spec fn view(&self) -> StoreView {
        self.spans@.map_values(|s: Span| s@)
    }
}

/// What a filled memoization cell of slot `k` may hold: exactly the value
/// the metric definitions give on the current view.
pub open spec fn cells_ok_at(sp: Span, v: StoreView, k: int) -> bool {
    &&& match sp.end {
        Some(e) => e == spec_end(v, k),
        None => true,
    }
    &&& match sp.total_time {
        Some(t) => t == spec_total_time(v, k),
        None => true,
    }
    &&& match sp.corrected_self_time {
        Some(t) => t == v[k].self_time,
        None => true,
    }
    &&& match sp.corrected_total_time {
        Some(t) => t == spec_total_time(v, k),
        None => true,
    }
    &&& match sp.max_depth {
        Some(d) => d == spec_max_depth(v, k),
        None => true,
    }
    &&& match sp.nice_name {
        Some(nn) => nn.0@ == spec_nice_name(v[k]).0 && nn.1@ == spec_nice_name(v[k]).1,
        None => true,
    }
    &&& match sp.group_name {
        Some(g) => g@ == spec_group_name(v[k]),
        None => true,
    }
    &&& match sp.graph {
        Some(g) => graph_vec_ok(v, k, g@),
        None => true,
    }
}

pub open spec fn graph_vec_ok(v: StoreView, k: int, g: Seq<SpanGraphEvent>) -> bool {
    &&& forall|t: int| 0 <= t < g.len() ==> #[trigger] g[t] is Child
    &&& graph_cell_ok(v, k, g.map_values(|ev: SpanGraphEvent| ev->Child_child@))
    &&& graphs_match(
        group_cands(v, child_ids(v[k].events)),
        g.map_values(|ev: SpanGraphEvent| ev->Child_child@),
    )
}

/// The memoization cells an invalidation clears. `nice_name` and
/// `group_name` depend only on creation-time fields and survive; the
/// others depend on the subtree and are dropped, `max_depth` among them
/// because children can arrive after it was first read.
pub open spec fn cells_cleared(sp: Span) -> bool {
    &&& sp.end is None
    &&& sp.total_time is None
    &&& sp.corrected_self_time is None
    &&& sp.corrected_total_time is None
    &&& sp.max_depth is None
    &&& sp.graph is None
}

/// All cells empty, as a freshly created span has them.
pub open spec fn cells_empty(sp: Span) -> bool {
    &&& cells_cleared(sp)
    &&& sp.nice_name is None
    &&& sp.group_name is None
}

/// The memoization cells of the two spans agree.
pub open spec fn same_cells(a: Span, b: Span) -> bool {
    &&& a.end == b.end
    &&& a.total_time == b.total_time
    &&& a.corrected_self_time == b.corrected_self_time
    &&& a.corrected_total_time == b.corrected_total_time
    &&& a.max_depth == b.max_depth
    &&& a.graph == b.graph
    &&& a.nice_name == b.nice_name
    &&& a.group_name == b.group_name
}

/// The slot whose event list receives the `Child` event of a span added
/// under `parent`.
pub open spec fn host_slot(parent: Option<usize>) -> int {
    match parent {
        Some(p) => p as int,
        None => 0,
    }
}

/// `sp2` is `sp1` with some of the invalidated cells dropped and nothing
/// else changed.
pub open spec fn same_span_cells_le(sp1: Span, sp2: Span) -> bool {
    &&& sp2@ == sp1@
    &&& sp2.index == sp1.index
    &&& (sp2.end == sp1.end || sp2.end is None)
    &&& (sp2.total_time == sp1.total_time || sp2.total_time is None)
    &&& (sp2.corrected_self_time == sp1.corrected_self_time || sp2.corrected_self_time is None)
    &&& (sp2.corrected_total_time == sp1.corrected_total_time || sp2.corrected_total_time is None)
    &&& (sp2.max_depth == sp1.max_depth || sp2.max_depth is None)
    &&& (sp2.graph == sp1.graph || sp2.graph is None)
    &&& sp2.nice_name == sp1.nice_name
    &&& sp2.group_name == sp1.group_name
}

/// `x` occurs in the list of outdated indices.
pub open spec fn in_set(s: Seq<usize>, x: int) -> bool {
    exists|t: int| 0 <= t < s.len() && s[t] == x
}

/// `k` lies on the parent chain of `m`, `m` itself included.
pub open spec fn on_chain(v: StoreView, m: int, k: int) -> bool
    decreases m,
        when wf(v) && 0 <= m < v.len() via on_chain_decreases
{
    m == k || match v[m].parent {
        Some(p) => on_chain(v, p, k),
        None => false,
    }
}

#[via_fn]
proof fn on_chain_decreases(v: StoreView, m: int, k: int) {
    assert(wf_record(v, m));
}

/// `k` is an outdated span or an ancestor of one: exactly the slots whose
/// derived cells an invalidation clears.
pub open spec fn in_closure(v: StoreView, s: Seq<usize>, k: int) -> bool {
    exists|t: int| 0 <= t < s.len() && on_chain(v, s[t] as int, k)
}

/// The walk that starts at `m` has done its work: `m`'s cells are cleared
/// and so are those of each ancestor up to (not including) the first one
/// that is itself in the outdated set, whose own walk covers the rest.
pub open spec fn seg_cleared(spans: Seq<Span>, v: StoreView, s: Seq<usize>, m: int) -> bool
    decreases m,
        when wf(v) && 0 <= m < v.len() via seg_cleared_decreases
{
    &&& cells_cleared(spans[m])
    &&& match v[m].parent {
        Some(p) => in_set(s, p) || seg_cleared(spans, v, s, p),
        None => true,
    }
}

#[via_fn]
proof fn seg_cleared_decreases(spans: Seq<Span>, v: StoreView, s: Seq<usize>, m: int) {
    assert(wf_record(v, m));
}

/// State of a walk in progress that started at `b` and now stands at
/// `cur`: everything strictly below `cur` on the chain is cleared, and no
/// stop condition was met on the way.
pub open spec fn walked(spans: Seq<Span>, v: StoreView, s: Seq<usize>, b: int, cur: int) -> bool
    decreases b,
        when wf(v) && 0 <= b < v.len() via walked_decreases
{
    b == cur || (cells_cleared(spans[b]) && match v[b].parent {
        Some(p) => !in_set(s, p) && walked(spans, v, s, p, cur),
        None => false,
    })
}

#[via_fn]
proof fn walked_decreases(spans: Seq<Span>, v: StoreView, s: Seq<usize>, b: int, cur: int) {
    assert(wf_record(v, b));
}

proof fn lemma_walked_mono(
    spans1: Seq<Span>,
    spans2: Seq<Span>,
    v: StoreView,
    s: Seq<usize>,
    b: int,
    cur: int,
)
    requires
        wf(v),
        0 <= b < v.len(),
        spans1.len() == v.len(),
        spans2.len() == v.len(),
        walked(spans1, v, s, b, cur),
        forall|k: int|
            0 <= k < v.len() ==> (cells_cleared(spans1[k]) ==> cells_cleared(
                #[trigger] spans2[k],
            )),
    ensures
        walked(spans2, v, s, b, cur),
    decreases b,
{
    assert(wf_record(v, b));
    if b != cur {
        lemma_walked_mono(spans1, spans2, v, s, v[b].parent->0, cur);
    }
}

proof fn lemma_walked_extend(
    spans: Seq<Span>,
    v: StoreView,
    s: Seq<usize>,
    b: int,
    cur: int,
    p: int,
)
    requires
        wf(v),
        0 <= b < v.len(),
        0 <= cur < v.len(),
        spans.len() == v.len(),
        walked(spans, v, s, b, cur),
        cells_cleared(spans[cur]),
        v[cur].parent == Some(p),
        !in_set(s, p),
    ensures
        walked(spans, v, s, b, p),
    decreases b,
{
    assert(wf_record(v, b));
    assert(wf_record(v, cur));
    if b == cur {
        assert(walked(spans, v, s, p, p));
    } else {
        lemma_walked_extend(spans, v, s, v[b].parent->0, cur, p);
    }
}

proof fn lemma_walked_seg(spans: Seq<Span>, v: StoreView, s: Seq<usize>, b: int, cur: int)
    requires
        wf(v),
        0 <= b < v.len(),
        0 <= cur < v.len(),
        spans.len() == v.len(),
        walked(spans, v, s, b, cur),
        seg_cleared(spans, v, s, cur),
    ensures
        seg_cleared(spans, v, s, b),
    decreases b,
{
    assert(wf_record(v, b));
    if b != cur {
        lemma_walked_seg(spans, v, s, v[b].parent->0, cur);
    }
}

proof fn lemma_on_chain_range(v: StoreView, m: int, k: int)
    requires
        wf(v),
        0 <= m < v.len(),
        on_chain(v, m, k),
    ensures
        0 <= k <= m,
    decreases m,
{
    assert(wf_record(v, m));
    if m != k {
        lemma_on_chain_range(v, v[m].parent->0, k);
    }
}

proof fn lemma_on_chain_parent(v: StoreView, m: int, c: int, p: int)
    requires
        wf(v),
        0 <= m < v.len(),
        on_chain(v, m, c),
        0 <= c < v.len(),
        v[c].parent == Some(p),
    ensures
        on_chain(v, m, p),
    decreases m,
{
    assert(wf_record(v, m));
    if m == c {
        assert(on_chain(v, p, p));
    } else {
        lemma_on_chain_parent(v, v[m].parent->0, c, p);
    }
}

/// Clearing more cells never undoes a finished walk.
proof fn lemma_seg_mono(spans1: Seq<Span>, spans2: Seq<Span>, v: StoreView, s: Seq<usize>, m: int)
    requires
        wf(v),
        0 <= m < v.len(),
        spans1.len() == v.len(),
        spans2.len() == v.len(),
        seg_cleared(spans1, v, s, m),
        forall|k: int|
            0 <= k < v.len() ==> (cells_cleared(spans1[k]) ==> cells_cleared(
                #[trigger] spans2[k],
            )),
    ensures
        seg_cleared(spans2, v, s, m),
    decreases m,
{
    assert(wf_record(v, m));
    match v[m].parent {
        Some(p) => {
            if !in_set(s, p) {
                lemma_seg_mono(spans1, spans2, v, s, p);
            }
        },
        None => {},
    }
}

/// Once every outdated span's walk is finished, every slot in the closure
/// is cleared: a walk that stopped early stopped at another outdated span,
/// whose own finished walk continues the chain.
proof fn lemma_seg_closure(spans: Seq<Span>, v: StoreView, s: Seq<usize>, m: int, k: int)
    requires
        wf(v),
        0 <= m < v.len(),
        spans.len() == v.len(),
        seg_cleared(spans, v, s, m),
        on_chain(v, m, k),
        forall|t: int|
            0 <= t < s.len() ==> 1 <= #[trigger] s[t] < v.len() && seg_cleared(
                spans,
                v,
                s,
                s[t] as int,
            ),
    ensures
        cells_cleared(spans[k]),
    decreases m,
{
    assert(wf_record(v, m));
    if k != m {
        let p = v[m].parent->0;
        if in_set(s, p) {
            let t = choose|t: int| 0 <= t < s.len() && s[t] == p;
            assert(seg_cleared(spans, v, s, p));
            lemma_seg_closure(spans, v, s, p, k);
        } else {
            lemma_seg_closure(spans, v, s, p, k);
        }
    }
}

/// Linear membership test on the outdated list.
fn contains_index(s: &Vec<usize>, x: usize) -> (r: bool)
    ensures
        r == in_set(s@, x as int),
{
    let n = s.len();
    let mut t: usize = 0;
    while t < n
        invariant
            0 <= t <= n,
            n == s@.len(),
            forall|u: int| 0 <= u < t ==> s@[u] != x,
        decreases n - t,
    {
        if s[t] == x {
            return true;
        }
        t = t + 1;
    }
    false
}

impl Store {
    pub open spec fn wf(&self) -> bool {
        &&& wf(self@)
        &&& self.spans@.len() == self@.len()
        &&& forall|k: int|
            1 <= k < self.spans@.len() ==> (#[trigger] self.spans@[k]).index == k
    }

    pub open spec fn cells_ok(&self) -> bool {
        forall|k: int| 0 <= k < self.spans@.len() ==> cells_ok_at(#[trigger] self.spans@[k], self@, k)
    }

    /// Readers may use the memoization cells only in this state; the write
    /// path restores it by invalidating every span a batch touched. The
    /// sentinel's cells stay empty: no invalidation walk reaches slot 0,
    /// so a filled cell there could go stale.
    pub open spec fn readable(&self) -> bool {
        self.wf() && self.cells_ok() && cells_cleared(self.spans@[0])
    }

    pub open spec fn init_view() -> StoreView {
        seq![
            SpanView {
                parent: None,
                start: 0,
                ignore_self_time: false,
                category: Seq::empty(),
                name: "(root)"@,
                args: Seq::empty(),
                self_end: u64_max(),
                self_time: 0,
                events: Seq::empty(),
            },
        ]
    }

    pub fn new() -> (s: Store)
        ensures
            s.readable(),
            s@ == Store::init_view(),
            s.generation == 0,
            cells_empty(s.spans@[0]),
    {
        let root = Span {
            index: usize::MAX,
            parent: None,
            start: 0,
            ignore_self_time: false,
            category: String::new(),
            name: "(root)".to_owned(),
            args: Vec::new(),
            events: Vec::new(),
            self_end: u64::MAX,
            self_time: 0,
            end: None,
            nice_name: None,
            group_name: None,
            max_depth: None,
            total_time: None,
            corrected_self_time: None,
            corrected_total_time: None,
            graph: None,
        };
        let mut spans: Vec<Span> = Vec::new();
        spans.push(root);
        let s = Store { spans, generation: 0 };
        proof {
            assert(s@ =~~= Store::init_view());
            assert(wf_record(s@, 0));
        }
        s
    }

    pub fn generation(&self) -> (g: u64)
        ensures
            g == self.generation,
    {
        self.generation
    }

    /// Marks the end of one mutation batch.
    pub fn increment_generation(&mut self)
        requires
            old(self).generation < u64::MAX,
        ensures
            final(self).generation == old(self).generation + 1,
            final(self).spans == old(self).spans,
            final(self)@ == old(self)@,
    {
        self.generation = self.generation + 1;
    }

    /// Appends a fresh span under `parent` (or under the sentinel) and
    /// records the parent as outdated. The returned index is the new dense
    /// slot, never reused until `reset`.
    pub fn add_span(
        &mut self,
        parent: Option<usize>,
        start: u64,
        category: String,
        name: String,
        args: Vec<(String, String)>,
        outdated_spans: &mut Vec<usize>,
    ) -> (id: usize)
        requires
            old(self).wf(),
            old(self)@.len() < MAX_SPANS,
            match parent {
                Some(p) => 1 <= p < old(self)@.len() && old(self)@[p as int].start <= start,
                None => true,
            },
        ensures
            final(self).wf(),
            final(self).generation == old(self).generation,
            id == old(self)@.len(),
            final(self)@.len() == old(self)@.len() + 1,
            final(self)@[id as int] == (SpanView {
                parent: match parent {
                    Some(p) => Some(p as int),
                    None => None,
                },
                start: start as int,
                ignore_self_time: name@ == "thread"@,
                category: category@,
                name: name@,
                args: args@.map_values(|a: (String, String)| (a.0@, a.1@)),
                self_end: start as int,
                self_time: 0,
                events: Seq::<EventView>::empty(),
            }),
            final(self)@[host_slot(parent)] == (SpanView {
                events: old(self)@[host_slot(parent)].events.push(
                    EventView::Child { id: id as int },
                ),
                ..old(self)@[host_slot(parent)]
            }),
            forall|k: int|
                0 <= k < old(self)@.len() && k != host_slot(parent) ==> final(self)@[k] == old(
                    self,
                )@[k],
            forall|k: int|
                0 <= k < old(self)@.len() ==> same_cells(
                    old(self).spans@[k],
                    #[trigger] final(self).spans@[k],
                ),
            cells_empty(final(self).spans@[id as int]),
            final(outdated_spans)@ == old(outdated_spans)@ + (match parent {
                Some(p) => seq![p],
                None => Seq::<usize>::empty(),
            }),
    {
        let id = self.spans.len();
        let thread_name = "thread".to_owned();
        let span = Span {
            index: id,
            parent,
            start,
            ignore_self_time: name == thread_name,
            category,
            name,
            args,
            events: Vec::new(),
            self_end: start,
            self_time: 0,
            end: None,
            nice_name: None,
            group_name: None,
            max_depth: None,
            total_time: None,
            corrected_self_time: None,
            corrected_total_time: None,
            graph: None,
        };
        self.spans.push(span);
        let host: usize = match parent {
            Some(p) => {
                outdated_spans.push(p);
                p
            },
            None => 0,
        };
        let mut host_span = self.spans.remove(host);
        host_span.events.push(SpanEvent::Child { id });
        self.spans.insert(host, host_span);
        proof {
            let v0 = old(self)@;
            let h = host_slot(parent);
            let nsv = final(self)@[id as int];
            let v1 = final(self)@;
            assert(v1.len() == v0.len() + 1);
            assert(v1[h] == (SpanView {
                events: v0[h].events.push(EventView::Child { id: id as int }),
                ..v0[h]
            })) by {
                assert(v1[h] =~~= (SpanView {
                    events: v0[h].events.push(EventView::Child { id: id as int }),
                    ..v0[h]
                }));
            }
            assert forall|k: int| 0 <= k < v0.len() && k != h implies v1[k] == v0[k] by {
                assert(v1[k] =~~= v0[k]);
            }
            assert forall|k: int| 0 <= k < v0.len() implies v1[k].parent == v0[k].parent by {}
            assert forall|c: int| 0 <= c < v0.len() implies host_of(v1, c) == host_of(v0, c) by {}
            assert forall|k: int| 0 <= k < v1.len() implies wf_record(v1, k) by {
                if k == id {
                    assert(v1[k].events.len() == 0);
                } else {
                    assert(wf_record(v0, k));
                    if k == h {
                        assert forall|j: int|
                            0 <= j < v1[k].events.len() && v1[k].events[j] is Child implies k
                                < #[trigger] v1[k].events[j]->Child_id < v1.len() && host_of(
                                v1,
                                v1[k].events[j]->Child_id,
                            ) == k by {
                            if j < v0[h].events.len() {
                                assert(v1[k].events[j] == v0[k].events[j]);
                            } else {
                                assert(v1[k].events[j] == EventView::Child { id: id as int });
                                assert(host_of(v1, id as int) == h);
                            }
                        }
                        assert forall|j: int, j2: int|
                            0 <= j < v1[k].events.len() && 0 <= j2 < v1[k].events.len()
                                && v1[k].events[j] is Child && v1[k].events[j2] is Child
                                && #[trigger] v1[k].events[j]->Child_id
                                == #[trigger] v1[k].events[j2]->Child_id implies j == j2 by {
                            if j < v0[h].events.len() && j2 >= v0[h].events.len() {
                                assert(v1[k].events[j]->Child_id < id);
                            }
                            if j2 < v0[h].events.len() && j >= v0[h].events.len() {
                                assert(v1[k].events[j2]->Child_id < id);
                            }
                        }
                    }
                }
            }
            assert forall|c: int| 1 <= c < v1.len() implies #[trigger] linked(v1, c) by {
                if c < id {
                    assert(wf_record(v0, c));
                    assert(0 <= host_of(v0, c) < v0.len());
                    assert(linked(v0, c));
                    let j = choose|j: int|
                        0 <= j < v0[host_of(v0, c)].events.len() && #[trigger] v0[host_of(
                            v0,
                            c,
                        )].events[j] is Child && v0[host_of(v0, c)].events[j]->Child_id == c;
                    assert(host_of(v1, c) == host_of(v0, c));
                    if host_of(v0, c) == h {
                        assert(v1[h].events[j] == v0[h].events[j]);
                    } else {
                        assert(v1[host_of(v0, c)] == v0[host_of(v0, c)]);
                    }
                    assert(v1[host_of(v1, c)].events[j] is Child && v1[host_of(
                        v1,
                        c,
                    )].events[j]->Child_id == c);
                } else {
                    assert(c == id);
                    assert(host_of(v1, c) == h);
                    let j = v0[h].events.len() as int;
                    assert(v1[h].events[j] is Child && v1[h].events[j]->Child_id == c);
                }
            }
        }
        id
    }

    /// Adds one self-time interval to a span: a no-op on `"thread"` spans,
    /// otherwise the duration is accumulated (saturating), the interval
    /// recorded as an event, and the span marked outdated.
    pub fn add_self_time(
        &mut self,
        span_index: usize,
        start: u64,
        end: u64,
        outdated_spans: &mut Vec<usize>,
    )
        requires
            old(self).wf(),
            1 <= span_index < old(self)@.len(),
            start <= end,
        ensures
            final(self).wf(),
            final(self).generation == old(self).generation,
            old(self)@[span_index as int].ignore_self_time ==> *final(self) == *old(self)
                && *final(outdated_spans) == *old(outdated_spans),
            !old(self)@[span_index as int].ignore_self_time ==> {
                &&& final(self)@[span_index as int] == (SpanView {
                    self_time: sat_add(
                        old(self)@[span_index as int].self_time,
                        end - start,
                    ),
                    self_end: max_int(old(self)@[span_index as int].self_end, end as int),
                    events: old(self)@[span_index as int].events.push(
                        EventView::SelfTime { start: start as int, end: end as int },
                    ),
                    ..old(self)@[span_index as int]
                })
                &&& (forall|k: int|
                    0 <= k < old(self)@.len() && k != span_index ==> final(self)@[k] == old(
                        self,
                    )@[k])
                &&& (forall|k: int|
                    0 <= k < old(self)@.len() ==> same_cells(
                        old(self).spans@[k],
                        #[trigger] final(self).spans@[k],
                    ))
                &&& final(self)@.len() == old(self)@.len()
                &&& final(outdated_spans)@ == old(outdated_spans)@.push(span_index)
            },
    {
        proof {
            assert(wf_record(old(self)@, span_index as int));
        }
        let ignore = self.spans[span_index].ignore_self_time;
        if ignore {
            return ;
        }
        outdated_spans.push(span_index);
        let mut span = self.spans.remove(span_index);
        let d = end - start;
        span.self_time = if span.self_time > u64::MAX - d {
            u64::MAX
        } else {
            span.self_time + d
        };
        span.events.push(SpanEvent::SelfTime { start, end });
        if end > span.self_end {
            span.self_end = end;
        }
        self.spans.insert(span_index, span);
        proof {
            let v0 = old(self)@;
            let v1 = final(self)@;
            let i = span_index as int;
            assert(v1.len() == v0.len());
            assert(v1[i] == (SpanView {
                self_time: sat_add(v0[i].self_time, end - start),
                self_end: max_int(v0[i].self_end, end as int),
                events: v0[i].events.push(
                    EventView::SelfTime { start: start as int, end: end as int },
                ),
                ..v0[i]
            })) by {
                assert(v1[i] =~~= (SpanView {
                    self_time: sat_add(v0[i].self_time, end - start),
                    self_end: max_int(v0[i].self_end, end as int),
                    events: v0[i].events.push(
                        EventView::SelfTime { start: start as int, end: end as int },
                    ),
                    ..v0[i]
                }));
            }
            assert forall|k: int| 0 <= k < v0.len() && k != i implies v1[k] == v0[k] by {
                assert(v1[k] =~~= v0[k]);
            }
            assert forall|k: int| 0 <= k < v0.len() implies v1[k].parent == v0[k].parent by {}
            assert forall|c: int| 0 <= c < v0.len() implies host_of(v1, c) == host_of(v0, c) by {}
            assert forall|k: int| 0 <= k < v1.len() implies wf_record(v1, k) by {
                assert(wf_record(v0, k));
                if k == i {
                    assert forall|j: int|
                        0 <= j < v1[k].events.len() && #[trigger] v1[k].events[j] is SelfTime implies {
                        &&& v1[k].events[j]->SelfTime_start <= v1[k].events[j]->SelfTime_end
                            <= v1[k].self_end
                        &&& 0 <= v1[k].events[j]->SelfTime_start
                    } by {
                        if j < v0[k].events.len() {
                            assert(v1[k].events[j] == v0[k].events[j]);
                        }
                    }
                    assert forall|j: int|
                        0 <= j < v1[k].events.len() && v1[k].events[j] is Child implies k
                            < #[trigger] v1[k].events[j]->Child_id < v1.len() && host_of(
                            v1,
                            v1[k].events[j]->Child_id,
                        ) == k by {
                        assert(v1[k].events[j] == v0[k].events[j]);
                    }
                    assert forall|j: int, j2: int|
                        0 <= j < v1[k].events.len() && 0 <= j2 < v1[k].events.len()
                            && v1[k].events[j] is Child && v1[k].events[j2] is Child
                            && #[trigger] v1[k].events[j]->Child_id
                            == #[trigger] v1[k].events[j2]->Child_id implies j == j2 by {
                        assert(v1[k].events[j] == v0[k].events[j]);
                        assert(v1[k].events[j2] == v0[k].events[j2]);
                    }
                }
            }
            assert forall|c: int| 1 <= c < v1.len() implies #[trigger] linked(v1, c) by {
                assert(wf_record(v0, c));
                assert(0 <= host_of(v0, c) < v0.len());
                assert(linked(v0, c));
                let j = choose|j: int|
                    0 <= j < v0[host_of(v0, c)].events.len() && #[trigger] v0[host_of(
                        v0,
                        c,
                    )].events[j] is Child && v0[host_of(v0, c)].events[j]->Child_id == c;
                assert(host_of(v1, c) == host_of(v0, c));
                if host_of(v0, c) == i {
                    assert(v1[i].events[j] == v0[i].events[j]);
                } else {
                    assert(v1[host_of(v0, c)] == v0[host_of(v0, c)]);
                }
                assert(v1[host_of(v1, c)].events[j] is Child && v1[host_of(
                    v1,
                    c,
                )].events[j]->Child_id == c);
            }
        }
    }

    /// Clears the derived cells of every span in `outdated_spans` and of
    /// all their ancestors. A walk stops early when it reaches another
    /// outdated span: that span's own walk clears the rest of the chain.
    /// `nice_name` and `group_name` depend only on creation-time fields
    /// and are kept; everything else in the closure is dropped.
    pub fn invalidate_outdated_spans(&mut self, outdated_spans: &Vec<usize>)
        requires
            old(self).wf(),
            forall|t: int|
                0 <= t < outdated_spans@.len() ==> 1 <= #[trigger] outdated_spans@[t] < old(
                    self,
                )@.len(),
        ensures
            final(self).wf(),
            final(self)@ == old(self)@,
            final(self).generation == old(self).generation,
            final(self).spans@.len() == old(self).spans@.len(),
            forall|k: int|
                0 <= k < old(self)@.len() ==> same_span_cells_le(
                    old(self).spans@[k],
                    #[trigger] final(self).spans@[k],
                ),
            forall|k: int|
                0 <= k < old(self)@.len() && !in_closure(old(self)@, outdated_spans@, k)
                    ==> same_cells(old(self).spans@[k], #[trigger] final(self).spans@[k]),
            forall|k: int|
                0 <= k < old(self)@.len() && in_closure(old(self)@, outdated_spans@, k)
                    ==> cells_cleared(#[trigger] final(self).spans@[k]),
    {
        let ghost v0 = old(self)@;
        let ghost orig = old(self).spans@;
        let ghost s = outdated_spans@;
        let n = outdated_spans.len();
        let mut t: usize = 0;
        while t < n
            invariant
                0 <= t <= n,
                n == s.len(),
                s == outdated_spans@,
                self.wf(),
                self@ == v0,
                wf(v0),
                self.generation == old(self).generation,
                self.spans@.len() == orig.len(),
                orig.len() == v0.len(),
                forall|u: int| 0 <= u < s.len() ==> 1 <= #[trigger] s[u] < v0.len(),
                forall|u: int|
                    0 <= u < t ==> seg_cleared(self.spans@, v0, s, #[trigger] s[u] as int),
                forall|k: int|
                    0 <= k < v0.len() ==> same_span_cells_le(
                        orig[k],
                        #[trigger] self.spans@[k],
                    ),
                forall|k: int|
                    0 <= k < v0.len() && !in_closure(v0, s, k) ==> same_cells(
                        orig[k],
                        #[trigger] self.spans@[k],
                    ),
            decreases n - t,
        {
            let m0 = outdated_spans[t];
            let mut cur = m0;
            loop
                invariant_except_break
                    self.wf(),
                    self@ == v0,
                    wf(v0),
                    self.generation == old(self).generation,
                    self.spans@.len() == orig.len(),
                    orig.len() == v0.len(),
                    s == outdated_spans@,
                    0 <= t < s.len(),
                    m0 == s[t as int],
                    forall|u: int| 0 <= u < s.len() ==> 1 <= #[trigger] s[u] < v0.len(),
                    1 <= cur < v0.len(),
                    1 <= m0 < v0.len(),
                    on_chain(v0, m0 as int, cur as int),
                    walked(self.spans@, v0, s, m0 as int, cur as int),
                    forall|u: int|
                        0 <= u < t ==> seg_cleared(self.spans@, v0, s, #[trigger] s[u] as int),
                    forall|k: int|
                        0 <= k < v0.len() ==> same_span_cells_le(
                            orig[k],
                            #[trigger] self.spans@[k],
                        ),
                    forall|k: int|
                        0 <= k < v0.len() && !in_closure(v0, s, k) ==> same_cells(
                            orig[k],
                            #[trigger] self.spans@[k],
                        ),
                ensures
                    self.wf(),
                    self@ == v0,
                    self.generation == old(self).generation,
                    self.spans@.len() == orig.len(),
                    seg_cleared(self.spans@, v0, s, m0 as int),
                    forall|u: int|
                        0 <= u < t ==> seg_cleared(self.spans@, v0, s, #[trigger] s[u] as int),
                    forall|k: int|
                        0 <= k < v0.len() ==> same_span_cells_le(
                            orig[k],
                            #[trigger] self.spans@[k],
                        ),
                    forall|k: int|
                        0 <= k < v0.len() && !in_closure(v0, s, k) ==> same_cells(
                            orig[k],
                            #[trigger] self.spans@[k],
                        ),
                decreases cur,
            {
                let ghost pre = self.spans@;
                let mut sp = self.spans.remove(cur);
                sp.end = None;
                sp.total_time = None;
                sp.corrected_self_time = None;
                sp.corrected_total_time = None;
                sp.max_depth = None;
                sp.graph = None;
                self.spans.insert(cur, sp);
                proof {
                    assert(self@ =~~= v0);
                    assert(self.spans@ =~= pre.update(cur as int, self.spans@[cur as int]));
                    assert forall|k: int|
                        0 <= k < v0.len() && cells_cleared(pre[k]) implies cells_cleared(
                        #[trigger] self.spans@[k],
                    ) by {}
                    assert forall|u: int| 0 <= u < t implies seg_cleared(
                        self.spans@,
                        v0,
                        s,
                        #[trigger] s[u] as int,
                    ) by {
                        lemma_seg_mono(pre, self.spans@, v0, s, s[u] as int);
                    }
                    assert(in_closure(v0, s, cur as int)) by {
                        assert(on_chain(v0, m0 as int, cur as int));
                        assert(0 <= t < s.len() && s[t as int] == m0);
                    }
                    assert(wf_record(v0, cur as int));
                    lemma_walked_mono(pre, self.spans@, v0, s, m0 as int, cur as int);
                }
                let parent_opt = self.spans[cur].parent;
                match parent_opt {
                    None => {
                        proof {
                            assert(cells_cleared(self.spans@[cur as int]));
                            assert(v0[cur as int].parent is None);
                            assert(seg_cleared(self.spans@, v0, s, cur as int));
                            lemma_walked_seg(self.spans@, v0, s, m0 as int, cur as int);
                        }
                        break ;
                    },
                    Some(p) => {
                        proof {
                            assert(v0[cur as int].parent == Some(p as int));
                            lemma_on_chain_parent(v0, m0 as int, cur as int, p as int);
                        }
                        if contains_index(outdated_spans, p) {
                            proof {
                                assert(in_set(s, p as int));
                                assert(cells_cleared(self.spans@[cur as int]));
                                assert(seg_cleared(self.spans@, v0, s, cur as int));
                                lemma_walked_seg(self.spans@, v0, s, m0 as int, cur as int);
                            }
                            break ;
                        }
                        proof {
                            assert(wf_record(v0, cur as int));
                            assert(1 <= p < cur);
                            lemma_walked_extend(
                                self.spans@,
                                v0,
                                s,
                                m0 as int,
                                cur as int,
                                p as int,
                            );
                        }
                        cur = p;
                    },
                }
            }
            proof {
                assert(seg_cleared(self.spans@, v0, s, s[t as int] as int));
            }
            t = t + 1;
        }
        proof {
            assert forall|k: int|
                0 <= k < v0.len() && in_closure(v0, s, k) implies cells_cleared(
                #[trigger] self.spans@[k],
            ) by {
                let u = choose|u: int| 0 <= u < s.len() && on_chain(v0, s[u] as int, k);
                lemma_seg_closure(self.spans@, v0, s, s[u] as int, k);
            }
        }
    }

    /// Direct children of the root sentinel, in insertion order.
    pub fn root_spans(&self) -> (r: Vec<SpanRef<'_>>)
        requires
            self.readable(),
        ensures
            r@.map_values(|c: SpanRef<'_>| c.index as int) == child_ids(self@[0].events),
            forall|t: int|
                0 <= t < r@.len() ==> (#[trigger] r@[t]).store == self && r@[t].wf() && 1
                    <= r@[t].index,
    {
        let root = SpanRef { store: self, index: 0 };
        root.children()
    }

    /// Decodes an external identifier: the low bit selects the aggregation
    /// node, the high bits the slot. Zero is reserved and never resolves.
    pub fn span(&self, id: usize) -> (r: Option<(SpanRef<'_>, bool)>)
        requires
            self.readable(),
        ensures
            match r {
                Some(p) => {
                    &&& id >= 1
                    &&& id / 2 < self@.len()
                    &&& p.0.store == self
                    &&& p.0.index == id / 2
                    &&& p.0.wf()
                    &&& p.1 == (id % 2 == 1)
                },
                None => id == 0 || id / 2 >= self@.len(),
            },
    {
        if id == 0 {
            return None;
        }
        let is_graph = id % 2 == 1;
        let index = id / 2;
        if index < self.spans.len() {
            Some((SpanRef { store: self, index }, is_graph))
        } else {
            None
        }
    }

    /// Fills the memoization cells of one span with the current derived
    /// values. The sentinel is excluded: nothing ever clears its cells.
    pub fn memoize_span(&mut self, index: usize)
        requires
            old(self).readable(),
            1 <= index < old(self)@.len(),
        ensures
            final(self).readable(),
            final(self)@ == old(self)@,
            final(self).generation == old(self).generation,
            final(self).spans@[index as int].end is Some,
            final(self).spans@[index as int].total_time is Some,
            final(self).spans@[index as int].max_depth is Some,
            final(self).spans@[index as int].graph is Some,
            forall|k: int|
                0 <= k < old(self)@.len() && k != index ==> final(self).spans@[k] == old(
                    self,
                ).spans@[k],
    {
        let e: u64;
        let tt: u64;
        let md: u32;
        let nn: (String, String);
        let gn: String;
        let gr: Vec<SpanGraphEvent>;
        {
            let sr = SpanRef { store: &*self, index };
            e = sr.end();
            tt = sr.total_time();
            md = sr.max_depth();
            nn = sr.nice_name();
            gn = sr.group_name();
            let evs = sr.graph();
            let nev = evs.len();
            let mut g: Vec<SpanGraphEvent> = Vec::new();
            let mut t: usize = 0;
            while t < nev
                invariant
                    0 <= t <= nev,
                    nev == evs@.len(),
                    forall|u: int|
                        0 <= u < evs@.len() ==> (#[trigger] evs@[u]) is Child && evs@[
                            u
                        ]->Child_graph.store == sr.store && evs@[u]->Child_graph.wf(),
                    graph_cell_ok(
                        sr.store@,
                        sr.index as int,
                        evs@.map_values(|x: SpanGraphEventRef<'_>| x->Child_graph.graph@),
                    ),
                    g@.len() == t,
                    forall|u: int|
                        0 <= u < g@.len() ==> (#[trigger] g@[u]) is Child && g@[u]->Child_child@
                            == evs@[u]->Child_graph.graph@,
                decreases nev - t,
            {
                match &evs[t] {
                    SpanGraphEventRef::Child { graph } => {
                        g.push(SpanGraphEvent::Child { child: graph.graph.clone() });
                    },
                    SpanGraphEventRef::SelfTime { duration } => {
                        g.push(SpanGraphEvent::SelfTime { duration: *duration });
                    },
                }
                t = t + 1;
            }
            proof {
                assert(g@.map_values(|x: SpanGraphEvent| x->Child_child@) =~= evs@.map_values(
                    |x: SpanGraphEventRef<'_>| x->Child_graph.graph@,
                ));
            }
            gr = g;
        }
        let mut sp = self.spans.remove(index);
        sp.end = Some(e);
        sp.total_time = Some(tt);
        sp.corrected_self_time = Some(sp.self_time);
        sp.corrected_total_time = Some(tt);
        sp.max_depth = Some(md);
        sp.nice_name = Some(nn);
        sp.group_name = Some(gn);
        sp.graph = Some(gr);
        self.spans.insert(index, sp);
        proof {
            assert(self@ =~~= old(self)@);
            assert forall|k: int|
                0 <= k < self.spans@.len() implies cells_ok_at(
                #[trigger] self.spans@[k],
                self@,
                k,
            ) by {
                if k != index {
                    assert(self.spans@[k] == old(self).spans@[k]);
                    assert(cells_ok_at(old(self).spans@[k], old(self)@, k));
                } else {
                    match self.spans@[k].graph {
                        Some(gcell) => {
                            assert(gcell@.map_values(|x: SpanGraphEvent| x->Child_child@)
                                == gcell@.map_values(|ev: SpanGraphEvent| ev->Child_child@));
                        },
                        None => {},
                    }
                }
            }
        }
    }

    /// Drops everything but the root sentinel, whose event list and cells
    /// are emptied as well.
    pub fn reset(&mut self)
        requires
            old(self).wf(),
        ensures
            final(self).readable(),
            final(self)@ == Store::init_view(),
            final(self).generation == old(self).generation,
            cells_empty(final(self).spans@[0]),
    {
        self.spans.truncate(1);
        let mut root = self.spans.remove(0);
        root.events = Vec::new();
        root.end = None;
        root.nice_name = None;
        root.group_name = None;
        root.max_depth = None;
        root.total_time = None;
        root.corrected_self_time = None;
        root.corrected_total_time = None;
        root.graph = None;
        self.spans.insert(0, root);
        proof {
            assert(self@ =~~= Store::init_view());
            assert(wf_record(self@, 0));
        }
    }
}

/// Every index a `child_ids` list holds comes from a `Child` event, so it
/// inherits the event bounds.
pub proof fn lemma_child_ids_bounds(es: Seq<EventView>, lo: int, hi: int)
    requires
        forall|j: int| 0 <= j < es.len() && es[j] is Child ==> lo < #[trigger] es[j]->Child_id < hi,
    ensures
        forall|t: int| 0 <= t < child_ids(es).len() ==> lo < #[trigger] child_ids(es)[t] < hi,
        child_ids(es).len() <= es.len(),
    decreases es.len(),
{
    if es.len() > 0 {
        lemma_child_ids_bounds(es.drop_last(), lo, hi);
        assert forall|j: int|
            0 <= j < es.drop_last().len() && es.drop_last()[j] is Child implies lo
            < #[trigger] es.drop_last()[j]->Child_id < hi by {
            assert(es.drop_last()[j] == es[j]);
        }
    }
}

pub open spec fn skip_view(skip: Option<&String>) -> Option<Seq<char>> {
    match skip {
        Some(s) => Some(s@),
        None => None,
    }
}

pub open spec fn src_idx<'a>(ss: Seq<SpanRef<'a>>) -> Seq<int> {
    ss.map_values(|s: SpanRef<'a>| s.index as int)
}

/// Groups the children of the source spans by group name, in insertion
/// order, and collects under each name the deeper occurrences reached
/// through chains of that same name, breadth first. Children whose group
/// name equals `skip_key` are left out. `lo` is a strict lower bound for
/// every span the grouping may mention.
fn build_groups<'a>(
    store: &'a Store,
    sources: &Vec<SpanRef<'a>>,
    skip_key: Option<&String>,
    Ghost(lo): Ghost<int>,
) -> (r: Vec<(String, (Vec<usize>, Vec<usize>))>)
    requires
        store.readable(),
        0 <= lo,
        forall|t: int|
            0 <= t < sources@.len() ==> (#[trigger] sources@[t]).wf() && sources@[t].store == store
                && lo <= sources@[t].index,
    ensures
        keys_roots_match(
            vec_entries(r@),
            group_roots(store@, cand_list(store@, src_idx(sources@), skip_view(skip_key))),
        ),
        entries_members_ok(store@, lo, vec_entries(r@)),
        vec_entries(r@) == group_cands(
            store@,
            cand_list(store@, src_idx(sources@), skip_view(skip_key)),
        ),
{
    let ghost v = store@;
    let ghost skipv = skip_view(skip_key);
    let mut m = gm_new();
    let ghost mut cs: Seq<int> = Seq::empty();
    let nsrc = sources.len();
    let mut t: usize = 0;
    proof {
        assert(src_idx(sources@.take(0)) =~= Seq::<int>::empty());
        assert(group_cands(v, Seq::<int>::empty()) == Seq::<(Seq<char>, Seq<int>, Seq<int>)>::empty());
    }
    while t < nsrc
        invariant
            store.readable(),
            v == store@,
            skipv == skip_view(skip_key),
            0 <= t <= nsrc,
            nsrc == sources@.len(),
            forall|u: int|
                0 <= u < sources@.len() ==> (#[trigger] sources@[u]).wf() && sources@[u].store
                    == store && lo <= sources@[u].index,
            cs == cand_list(v, src_idx(sources@.take(t as int)), skipv),
            keys_roots_match(group_map_entries(&m), group_roots(v, cs)),
            entries_members_ok(v, lo, group_map_entries(&m)),
            group_map_entries(&m) == group_cands(v, cs),
            0 <= lo,
        decreases nsrc - t,
    {
        let src = sources[t];
        let cc = src.children();
        let ghost cids = child_ids(v[src.index as int].events);
        let ghost cs_t = cs;
        let ncc = cc.len();
        let mut u: usize = 0;
        proof {
            assert(cids.take(0) =~= Seq::<int>::empty());
            assert(cs + filter_key(v, cids.take(0), skipv) =~= cs);
        }
        while u < ncc
            invariant
                store.readable(),
                v == store@,
                skipv == skip_view(skip_key),
                0 <= u <= ncc,
                ncc == cc@.len(),
                src.wf(),
                src.store == store,
                lo <= src.index,
                cc@.map_values(|c: SpanRef<'a>| c.index as int) == cids,
                forall|w: int|
                    0 <= w < cc@.len() ==> (#[trigger] cc@[w]).store == store && cc@[w].wf()
                        && src.index < cc@[w].index,
                cs == cs_t + filter_key(v, cids.take(u as int), skipv),
                keys_roots_match(group_map_entries(&m), group_roots(v, cs)),
                entries_members_ok(v, lo, group_map_entries(&m)),
                group_map_entries(&m) == group_cands(v, cs),
                0 <= lo,
            decreases ncc - u,
        {
            proof {
                assert(cids.take(u + 1).drop_last() =~= cids.take(u as int));
                assert(cids.take(u + 1).last() == cids[u as int]);
                assert(cids[u as int] == cc@[u as int].index as int);
            }
            let d = cc[u];
            let g = d.group_name();
            let skipped: bool = match skip_key {
                Some(sk) => g == *sk,
                None => false,
            };
            if !skipped {
                proof {
                    assert(skipv != Some(gname(v, d.index as int)));
                    lemma_push_root_match(
                        group_map_entries(&m),
                        group_roots(v, cs),
                        g@,
                        d.index as int,
                    );
                    lemma_push_root_members(
                        v,
                        lo,
                        group_map_entries(&m),
                        g@,
                        d.index as int,
                    );
                    lemma_push_root_finds(group_map_entries(&m), g@, d.index as int);
                    assert(cs.push(d.index as int).drop_last() =~= cs);
                }
                let ghost cs_pre = cs;
                gm_push_root(&mut m, &g, d.index);
                proof {
                    cs = cs.push(d.index as int);
                    assert(cs.drop_last() =~= cs_pre);
                    assert(cs.last() == d.index as int);
                    assert(group_cands(v, cs) == bfs_rec(
                        v,
                        push_root_s(group_cands(v, cs_pre), g@, d.index as int),
                        g@,
                        seq![d.index as int],
                    ));
                }
                // breadth-first walk over descendants that keep this
                // group name
                let mut queue: Vec<SpanRef<'a>> = Vec::new();
                queue.push(d);
                let mut head: usize = 0;
                while head < queue.len()
                    invariant
                        store.readable(),
                        v == store@,
                        0 <= head <= queue@.len(),
                        forall|w: int|
                            0 <= w < queue@.len() ==> (#[trigger] queue@[w]).store == store
                                && queue@[w].wf() && lo < queue@[w].index && gname(
                                v,
                                queue@[w].index as int,
                            ) == g@,
                        find_key(group_map_entries(&m), g@) >= 0,
                        keys_roots_match(group_map_entries(&m), group_roots(v, cs)),
                        entries_members_ok(v, lo, group_map_entries(&m)),
                        0 <= lo,
                        bfs_rec(
                            v,
                            group_map_entries(&m),
                            g@,
                            queue@.map_values(|q: SpanRef<'a>| q.index as int).skip(head as int),
                        ) == group_cands(v, cs),
                    decreases sum_sizes(
                        v,
                        queue@.map_values(|q: SpanRef<'a>| q.index as int).skip(head as int),
                    ),
                {
                    let ghost qm0 = queue@.map_values(|q: SpanRef<'a>| q.index as int);
                    proof {
                        lemma_sum_sizes_skip(v, qm0, head as int);
                        assert forall|w: int| 0 <= w < qm0.skip(head + 1).len() implies 0
                            <= #[trigger] qm0.skip(head + 1)[w] < v.len() by {
                            assert(qm0.skip(head + 1)[w] == qm0[head + 1 + w]);
                        }
                        lemma_sum_sizes_nonneg(v, qm0.skip(head + 1));
                    }
                    let cur = queue[head];
                    head = head + 1;
                    let ghost rest0 = sum_sizes(v, qm0.skip(head as int));
                    let ghost e_c = group_map_entries(&m);
                    let ghost qtail = qm0.skip(head as int);
                    let ghost qrem_old = qm0.skip(head as int - 1);
                    let dcc = cur.children();
                    let ghost dcids = child_ids(v[cur.index as int].events);
                    let ndcc = dcc.len();
                    let mut w: usize = 0;
                    proof {
                        assert(dcids.take(0) =~= Seq::<int>::empty());
                        assert(queue@.map_values(|q: SpanRef<'a>| q.index as int).skip(head as int)
                            =~= qm0.skip(head as int));
                        assert(keep_same(v, dcids.take(0), g@) =~= Seq::<int>::empty());
                        assert(push_recs(e_c, g@, Seq::<int>::empty()) == e_c);
                        assert(qtail + keep_same(v, dcids.take(0), g@) =~= qtail);
                    }
                    while w < ndcc
                        invariant
                            store.readable(),
                            v == store@,
                            0 <= w <= ndcc,
                            ndcc == dcc@.len(),
                            0 < head <= queue@.len(),
                            cur.wf(),
                            cur.store == store,
                            lo < cur.index,
                            dcc@.map_values(|c: SpanRef<'a>| c.index as int) == dcids,
                            forall|x: int|
                                0 <= x < dcc@.len() ==> (#[trigger] dcc@[x]).store == store
                                    && dcc@[x].wf() && cur.index < dcc@[x].index,
                            forall|x: int|
                                0 <= x < queue@.len() ==> (#[trigger] queue@[x]).store == store
                                    && queue@[x].wf() && lo < queue@[x].index && gname(
                                    v,
                                    queue@[x].index as int,
                                ) == g@,
                            find_key(group_map_entries(&m), g@) >= 0,
                            keys_roots_match(group_map_entries(&m), group_roots(v, cs)),
                            entries_members_ok(v, lo, group_map_entries(&m)),
                            0 <= lo,
                            group_map_entries(&m) == push_recs(
                                e_c,
                                g@,
                                keep_same(v, dcids.take(w as int), g@),
                            ),
                            queue@.map_values(|q: SpanRef<'a>| q.index as int).skip(head as int)
                                == qtail + keep_same(v, dcids.take(w as int), g@),
                            sum_sizes(
                                v,
                                queue@.map_values(|q: SpanRef<'a>| q.index as int).skip(
                                    head as int,
                                ),
                            ) <= rest0 + sum_sizes(v, dcids.take(w as int)),
                        decreases ndcc - w,
                    {
                        proof {
                            assert(dcids.take(w + 1) =~= dcids.take(w as int).push(
                                dcids[w as int],
                            ));
                            assert(dcids[w as int] == dcc@[w as int].index as int);
                            lemma_size_bounds(v, dcids[w as int]);
                            lemma_sum_sizes_push(v, dcids.take(w as int), dcids[w as int]);
                        }
                        let nested = dcc[w];
                        let nn = nested.group_name();
                        proof {
                            let ks = keep_same(v, dcids.take(w as int), g@);
                            assert(dcids.take(w + 1).drop_last() =~= dcids.take(w as int));
                            assert(dcids.take(w + 1).last() == dcids[w as int]);
                            if gname(v, dcids[w as int]) == g@ {
                                assert(keep_same(v, dcids.take(w + 1), g@) == ks.push(
                                    dcids[w as int],
                                ));
                                assert(ks.push(dcids[w as int]).drop_last() =~= ks);
                                assert(push_recs(e_c, g@, ks.push(dcids[w as int]))
                                    == push_rec_s(push_recs(e_c, g@, ks), g@, dcids[w as int]));
                            } else {
                                assert(keep_same(v, dcids.take(w + 1), g@) == ks);
                            }
                        }
                        if nn == g {
                            proof {
                                lemma_push_rec_finds(
                                    group_map_entries(&m),
                                    g@,
                                    nested.index as int,
                                    g@,
                                );
                                lemma_push_rec_keeps_roots(
                                    group_map_entries(&m),
                                    g@,
                                    nested.index as int,
                                );
                                lemma_push_rec_members(
                                    v,
                                    lo,
                                    group_map_entries(&m),
                                    g@,
                                    nested.index as int,
                                );
                            }
                            gm_push_recursive(&mut m, &g, nested.index);
                            let ghost qm_pre = queue@.map_values(
                                |q: SpanRef<'a>| q.index as int,
                            );
                            queue.push(nested);
                            proof {
                                let qm_post = queue@.map_values(
                                    |q: SpanRef<'a>| q.index as int,
                                );
                                assert(qm_post =~= qm_pre.push(nested.index as int));
                                assert(qm_post.skip(head as int) =~= qm_pre.skip(
                                    head as int,
                                ).push(nested.index as int));
                                lemma_sum_sizes_push(
                                    v,
                                    qm_pre.skip(head as int),
                                    nested.index as int,
                                );
                                let ks = keep_same(v, dcids.take(w as int), g@);
                                assert((qtail + ks).push(nested.index as int) =~= qtail + ks.push(
                                    nested.index as int,
                                ));
                            }
                        }
                        w = w + 1;
                    }
                    proof {
                        assert(dcids.take(ndcc as int) =~= dcids);
                        lemma_size_children(v, cur.index as int, v[cur.index as int].events.len() as int);
                        assert(v[cur.index as int].events.take(
                            v[cur.index as int].events.len() as int,
                        ) =~= v[cur.index as int].events);
                        lemma_size_bounds(v, cur.index as int);
                        assert(sum_sizes(v, dcids) == subtree_size(v, cur.index as int) - 1);
                        let qmf = queue@.map_values(|q: SpanRef<'a>| q.index as int);
                        assert forall|x: int| 0 <= x < qmf.skip(head as int).len() implies 0
                            <= #[trigger] qmf.skip(head as int)[x] < v.len() by {
                            assert(qmf.skip(head as int)[x] == qmf[head + x]);
                        }
                        lemma_sum_sizes_nonneg(v, qmf.skip(head as int));
                        let ms = keep_same(v, dcids, g@);
                        assert(qrem_old[0] == cur.index as int);
                        assert(qrem_old.skip(1) =~= qtail);
                        assert forall|x: int| 0 <= x < qrem_old.len() implies 0
                            < #[trigger] qrem_old[x] < v.len() by {
                            assert(qrem_old[x] == qm0[head - 1 + x]);
                        }
                        assert(bfs_rec(v, e_c, g@, qrem_old) == bfs_rec(
                            v,
                            push_recs(e_c, g@, ms),
                            g@,
                            qrem_old.skip(1) + ms,
                        ));
                        assert(qmf.skip(head as int) == qtail + ms);
                        assert(qrem_old.skip(1) + ms == qtail + ms);
                    }
                }
            }
            proof {
                if skipped {
                    assert(skipv == Some(gname(v, d.index as int)));
                    assert(cs_t + filter_key(v, cids.take(u + 1), skipv) =~= cs);
                } else {
                    assert(cs_t + filter_key(v, cids.take(u + 1), skipv) =~= cs);
                }
                cs = cs_t + filter_key(v, cids.take(u + 1), skipv);
            }
            u = u + 1;
        }
        proof {
            assert(cids.take(ncc as int) =~= cids);
            assert(src_idx(sources@.take(t + 1)).drop_last() =~= src_idx(
                sources@.take(t as int),
            ));
            assert(src_idx(sources@.take(t + 1)).last() == src.index as int);
            assert(cand_list(v, src_idx(sources@.take(t + 1)), skipv) == cand_list(
                v,
                src_idx(sources@.take(t as int)),
                skipv,
            ) + filter_key(v, cids, skipv));
        }
        t = t + 1;
    }
    proof {
        assert(sources@.take(nsrc as int) =~= sources@);
    }
    gm_into_entries(m)
}

/// First argument value under the key `"name"`, cloned.
pub(crate) fn find_name_arg_exec(args: &Vec<(String, String)>) -> (r: Option<String>)
    ensures
        match r {
            Some(s) => find_name_arg(args@.map_values(|a: (String, String)| (a.0@, a.1@))) == Some(
                s@,
            ),
            None => find_name_arg(
                args@.map_values(|a: (String, String)| (a.0@, a.1@)),
            ) is None,
        },
{
    let ghost va = args@.map_values(|a: (String, String)| (a.0@, a.1@));
    let key = "name".to_owned();
    let n = args.len();
    let mut j: usize = 0;
    proof {
        assert(va.skip(0) =~= va);
    }
    while j < n
        invariant
            0 <= j <= n,
            n == args@.len(),
            va == args@.map_values(|a: (String, String)| (a.0@, a.1@)),
            key@ == "name"@,
            find_name_arg(va) == find_name_arg(va.skip(j as int)),
        decreases n - j,
    {
        proof {
            assert(va.skip(j as int)[0] == va[j as int]);
            assert(va.skip(j as int).skip(1) =~= va.skip(j + 1));
        }
        if args[j].0 == key {
            return Some(args[j].1.clone());
        }
        j = j + 1;
    }
    None
}

/// A borrowed span inside a readable store.
pub struct SpanRef<'a> {
    pub store: &'a Store,
    pub index: usize,
}

impl<'a> Clone for SpanRef<'a> {
    fn clone(&self) -> (r: Self)
        ensures
            r == *self,
    {
        SpanRef { store: self.store, index: self.index }
    }
}

impl<'a> Copy for SpanRef<'a> {

}

pub enum SpanEventRef<'a> {
    SelfTime { start: u64, end: u64 },
    Child { span: SpanRef<'a> },
}

impl<'a> SpanRef<'a> {
    pub open spec fn wf(&self) -> bool {
        &&& self.store.readable()
        &&& 0 <= self.index < self.store@.len()
    }

    pub open spec fn v(&self) -> SpanView {
        self.store@[self.index as int]
    }

    /// External identifier: the slot shifted left once, graph bit clear.
    pub fn id(&self) -> (r: usize)
        requires
            self.wf(),
            1 <= self.index,
        ensures
            r == self.index * 2,
            r >= 2,
    {
        self.index * 2
    }

    pub fn parent(&self) -> (r: Option<SpanRef<'a>>)
        requires
            self.wf(),
        ensures
            match r {
                Some(p) => self.v().parent == Some(p.index as int) && p.store == self.store
                    && p.wf() && 1 <= p.index,
                None => self.v().parent is None,
            },
    {
        proof {
            assert(wf_record(self.store@, self.index as int));
        }
        match self.store.spans[self.index].parent {
            Some(p) => Some(SpanRef { store: self.store, index: p }),
            None => None,
        }
    }

    pub fn start(&self) -> (r: u64)
        requires
            self.wf(),
        ensures
            r as int == self.v().start,
    {
        self.store.spans[self.index].start
    }

    pub fn category(&self) -> (r: &'a String)
        requires
            self.wf(),
        ensures
            r@ == self.v().category,
    {
        &self.store.spans[self.index].category
    }

    pub fn name(&self) -> (r: &'a String)
        requires
            self.wf(),
        ensures
            r@ == self.v().name,
    {
        &self.store.spans[self.index].name
    }

    pub fn args(&self) -> (r: &'a Vec<(String, String)>)
        requires
            self.wf(),
        ensures
            r@.map_values(|a: (String, String)| (a.0@, a.1@)) == self.v().args,
    {
        &self.store.spans[self.index].args
    }

    pub fn self_time(&self) -> (r: u64)
        requires
            self.wf(),
        ensures
            r as int == self.v().self_time,
    {
        self.store.spans[self.index].self_time
    }

    pub fn events_count(&self) -> (r: usize)
        requires
            self.wf(),
        ensures
            r == self.v().events.len(),
    {
        self.store.spans[self.index].events.len()
    }

    pub fn events(&self) -> (r: Vec<SpanEventRef<'a>>)
        requires
            self.wf(),
        ensures
            r@.len() == self.v().events.len(),
            forall|j: int|
                0 <= j < r@.len() ==> match #[trigger] r@[j] {
                    SpanEventRef::SelfTime { start, end } => self.v().events[j]
                        == (EventView::SelfTime { start: start as int, end: end as int }),
                    SpanEventRef::Child { span } => self.v().events[j] == (EventView::Child {
                        id: span.index as int,
                    }) && span.store == self.store && span.wf() && 1 <= span.index,
                },
    {
        proof {
            assert(wf_record(self.store@, self.index as int));
        }
        let sp = &self.store.spans[self.index];
        let n = sp.events.len();
        let mut r: Vec<SpanEventRef<'a>> = Vec::new();
        let mut j: usize = 0;
        while j < n
            invariant
                self.wf(),
                0 <= j <= n,
                n == self.v().events.len(),
                sp == self.store.spans@[self.index as int],
                r@.len() == j,
                forall|u: int|
                    0 <= u < j ==> match #[trigger] r@[u] {
                        SpanEventRef::SelfTime { start, end } => self.v().events[u]
                            == (EventView::SelfTime { start: start as int, end: end as int }),
                        SpanEventRef::Child { span } => self.v().events[u] == (EventView::Child {
                            id: span.index as int,
                        }) && span.store == self.store && span.wf() && 1 <= span.index,
                    },
            decreases n - j,
        {
            proof {
                assert(wf_record(self.store@, self.index as int));
                assert(self.v().events[j as int] == sp.events@[j as int]@);
            }
            match sp.events[j] {
                SpanEvent::SelfTime { start, end } => {
                    r.push(SpanEventRef::SelfTime { start, end });
                },
                SpanEvent::Child { id } => {
                    r.push(SpanEventRef::Child { span: SpanRef { store: self.store, index: id } });
                },
            }
            j = j + 1;
        }
        r
    }

    pub fn children(&self) -> (r: Vec<SpanRef<'a>>)
        requires
            self.wf(),
        ensures
            r@.map_values(|c: SpanRef<'a>| c.index as int) == child_ids(self.v().events),
            forall|t: int|
                0 <= t < r@.len() ==> (#[trigger] r@[t]).store == self.store && r@[t].wf()
                    && self.index < r@[t].index,
    {
        proof {
            assert(wf_record(self.store@, self.index as int));
        }
        let sp = &self.store.spans[self.index];
        let n = sp.events.len();
        let mut r: Vec<SpanRef<'a>> = Vec::new();
        let mut j: usize = 0;
        while j < n
            invariant
                self.wf(),
                0 <= j <= n,
                n == self.v().events.len(),
                sp == self.store.spans@[self.index as int],
                r@.map_values(|c: SpanRef<'a>| c.index as int) == child_ids(
                    self.v().events.take(j as int),
                ),
                forall|t: int|
                    0 <= t < r@.len() ==> (#[trigger] r@[t]).store == self.store && r@[t].wf()
                        && self.index < r@[t].index,
            decreases n - j,
        {
            proof {
                assert(wf_record(self.store@, self.index as int));
                assert(self.v().events[j as int] == sp.events@[j as int]@);
                assert(self.v().events.take(j + 1).drop_last() =~= self.v().events.take(j as int));
                assert(self.v().events.take(j + 1).last() == self.v().events[j as int]);
            }
            let ghost r_old = r@;
            match sp.events[j] {
                SpanEvent::SelfTime { .. } => {},
                SpanEvent::Child { id } => {
                    r.push(SpanRef { store: self.store, index: id });
                },
            }
            proof {
                if self.v().events[j as int] is Child {
                    assert(r@.map_values(|c: SpanRef<'a>| c.index as int) =~= r_old.map_values(
                        |c: SpanRef<'a>| c.index as int,
                    ).push(self.v().events[j as int]->Child_id));
                }
            }
            j = j + 1;
        }
        proof {
            assert(self.v().events.take(n as int) =~= self.v().events);
        }
        r
    }

    /// Latest self-time end anywhere in this subtree, from the cell when
    /// it is filled.
    pub fn end(&self) -> (r: u64)
        requires
            self.wf(),
        ensures
            r as int == spec_end(self.store@, self.index as int),
        decreases self.store@.len() - self.index,
    {
        proof {
            assert(wf_record(self.store@, self.index as int));
            assert(cells_ok_at(
                self.store.spans@[self.index as int],
                self.store@,
                self.index as int,
            ));
            lemma_end_bounds(self.store@, self.index as int);
        }
        if let Some(e) = self.store.spans[self.index].end {
            return e;
        }
        let sp = &self.store.spans[self.index];
        let n = sp.events.len();
        let mut m: u64 = sp.self_end;
        let mut j: usize = 0;
        while j < n
            invariant
                self.wf(),
                0 <= j <= n,
                n == self.v().events.len(),
                sp == self.store.spans@[self.index as int],
                m as int == max_int(self.v().self_end, end_over_events(
                    self.store@,
                    self.index as int,
                    j as int,
                )),
            decreases n - j,
        {
            proof {
                assert(wf_record(self.store@, self.index as int));
                assert(self.v().events[j as int] == sp.events@[j as int]@);
            }
            match sp.events[j] {
                SpanEvent::SelfTime { .. } => {},
                SpanEvent::Child { id } => {
                    let c = SpanRef { store: self.store, index: id };
                    let ce = c.end();
                    if ce > m {
                        m = ce;
                    }
                },
            }
            j = j + 1;
        }
        m
    }

    pub fn total_time(&self) -> (r: u64)
        requires
            self.wf(),
        ensures
            r as int == spec_total_time(self.store@, self.index as int),
        decreases self.store@.len() - self.index,
    {
        proof {
            assert(wf_record(self.store@, self.index as int));
            assert(cells_ok_at(
                self.store.spans@[self.index as int],
                self.store@,
                self.index as int,
            ));
            lemma_total_bounds(self.store@, self.index as int);
        }
        if let Some(t) = self.store.spans[self.index].total_time {
            return t;
        }
        let sp = &self.store.spans[self.index];
        let n = sp.events.len();
        let mut m: u64 = 0;
        let mut j: usize = 0;
        while j < n
            invariant
                self.wf(),
                0 <= j <= n,
                n == self.v().events.len(),
                sp == self.store.spans@[self.index as int],
                m as int == total_over_events(self.store@, self.index as int, j as int),
            decreases n - j,
        {
            proof {
                assert(wf_record(self.store@, self.index as int));
                assert(self.v().events[j as int] == sp.events@[j as int]@);
            }
            match sp.events[j] {
                SpanEvent::SelfTime { .. } => {},
                SpanEvent::Child { id } => {
                    let c = SpanRef { store: self.store, index: id };
                    let ct = c.total_time();
                    m = if m > u64::MAX - ct {
                        u64::MAX
                    } else {
                        m + ct
                    };
                },
            }
            j = j + 1;
        }
        let st = sp.self_time;
        if m > u64::MAX - st {
            u64::MAX
        } else {
            m + st
        }
    }

    pub fn corrected_self_time(&self) -> (r: u64)
        requires
            self.wf(),
        ensures
            r as int == self.v().self_time,
    {
        proof {
            assert(cells_ok_at(
                self.store.spans@[self.index as int],
                self.store@,
                self.index as int,
            ));
        }
        if let Some(t) = self.store.spans[self.index].corrected_self_time {
            return t;
        }
        self.self_time()
    }

    pub fn corrected_total_time(&self) -> (r: u64)
        requires
            self.wf(),
        ensures
            r as int == spec_total_time(self.store@, self.index as int),
    {
        proof {
            assert(cells_ok_at(
                self.store.spans@[self.index as int],
                self.store@,
                self.index as int,
            ));
        }
        if let Some(t) = self.store.spans[self.index].corrected_total_time {
            return t;
        }
        self.total_time()
    }

    /// Display pair `(category, title)`: when an argument named `"name"`
    /// exists, the category becomes `"{name} {category}"` and the title
    /// the argument value, starred for resolve calls.
    pub fn nice_name(&self) -> (r: (String, String))
        requires
            self.wf(),
        ensures
            r.0@ == spec_nice_name(self.v()).0,
            r.1@ == spec_nice_name(self.v()).1,
    {
        proof {
            assert(cells_ok_at(
                self.store.spans@[self.index as int],
                self.store@,
                self.index as int,
            ));
        }
        let sp = &self.store.spans[self.index];
        if let Some(nn) = &sp.nice_name {
            return (nn.0.clone(), nn.1.clone());
        }
        match find_name_arg_exec(&sp.args) {
            Some(n) => {
                let cat = sp.name.clone().concat(" ").concat(sp.category.as_str());
                let resolve = sp.name == "turbo_tasks::resolve_call".to_owned() || sp.name
                    == "turbo_tasks::resolve_trait_call".to_owned();
                if resolve {
                    (cat, "*".to_owned().concat(n.as_str()))
                } else {
                    (cat, n)
                }
            },
            None => (sp.category.clone(), sp.name.clone()),
        }
    }

    /// Name under which this span is merged with its siblings: the
    /// `"name"` argument for task functions, its starred form for resolve
    /// calls, else the raw span name.
    pub fn group_name(&self) -> (r: String)
        requires
            self.wf(),
        ensures
            r@ == spec_group_name(self.v()),
    {
        proof {
            assert(cells_ok_at(
                self.store.spans@[self.index as int],
                self.store@,
                self.index as int,
            ));
        }
        let sp = &self.store.spans[self.index];
        if let Some(g) = &sp.group_name {
            return g.clone();
        }
        if sp.name == "turbo_tasks::function".to_owned() {
            match find_name_arg_exec(&sp.args) {
                Some(n) => n,
                None => sp.name.clone(),
            }
        } else if sp.name == "turbo_tasks::resolve_call".to_owned() || sp.name
            == "turbo_tasks::resolve_trait_call".to_owned() {
            match find_name_arg_exec(&sp.args) {
                Some(n) => "*".to_owned().concat(n.as_str()),
                None => sp.name.clone(),
            }
        } else {
            sp.name.clone()
        }
    }

    pub fn max_depth(&self) -> (r: u32)
        requires
            self.wf(),
        ensures
            r as int == spec_max_depth(self.store@, self.index as int),
        decreases self.store@.len() - self.index,
    {
        proof {
            assert(wf_record(self.store@, self.index as int));
            assert(cells_ok_at(
                self.store.spans@[self.index as int],
                self.store@,
                self.index as int,
            ));
            lemma_depth_bounds(self.store@, self.index as int);
        }
        if let Some(d) = self.store.spans[self.index].max_depth {
            return d;
        }
        let sp = &self.store.spans[self.index];
        let n = sp.events.len();
        let mut m: u32 = 0;
        let mut j: usize = 0;
        while j < n
            invariant
                self.wf(),
                0 <= j <= n,
                n == self.v().events.len(),
                sp == self.store.spans@[self.index as int],
                m as int == depth_over_events(self.store@, self.index as int, j as int),
            decreases n - j,
        {
            proof {
                assert(wf_record(self.store@, self.index as int));
                assert(self.v().events[j as int] == sp.events@[j as int]@);
            }
            match sp.events[j] {
                SpanEvent::SelfTime { .. } => {},
                SpanEvent::Child { id } => {
                    let c = SpanRef { store: self.store, index: id };
                    proof {
                        lemma_depth_bounds(self.store@, id as int);
                    }
                    let cd = c.max_depth();
                    if cd + 1 > m {
                        m = cd + 1;
                    }
                },
            }
            j = j + 1;
        }
        m
    }
}

/// Copies an index list element by element.
fn copy_indices(src: &Vec<usize>) -> (r: Vec<usize>)
    ensures
        r@ == src@,
{
    let n = src.len();
    let mut r: Vec<usize> = Vec::new();
    let mut j: usize = 0;
    while j < n
        invariant
            0 <= j <= n,
            n == src@.len(),
            r@ == src@.take(j as int),
        decreases n - j,
    {
        r.push(src[j]);
        proof {
            assert(src@.take(j + 1) =~= src@.take(j as int).push(src@[j as int]));
        }
        j = j + 1;
    }
    proof {
        assert(src@.take(n as int) =~= src@);
    }
    r
}

impl Clone for SpanGraph {
    fn clone(&self) -> (r: Self)
        ensures
            r@ == self@,
    {
        SpanGraph {
            root_spans: copy_indices(&self.root_spans),
            recursive_spans: copy_indices(&self.recursive_spans),
        }
    }
}

/// A well-formed aggregation node: at least one root, every member a
/// valid span, all members sharing the first root's group name.
pub open spec fn graph_wf(v: StoreView, g: GraphView) -> bool {
    &&& g.root_spans.len() >= 1
    &&& forall|t: int|
        0 <= t < g.members().len() ==> 1 <= #[trigger] g.members()[t] < v.len() && gname(
            v,
            g.members()[t],
        ) == gname(v, g.root_spans[0])
}

/// A borrowed aggregation node over a readable store.
pub struct SpanGraphRef<'a> {
    pub store: &'a Store,
    pub graph: SpanGraph,
}

impl<'a> Clone for SpanGraphRef<'a> {
    fn clone(&self) -> (r: Self)
        ensures
            r.store == self.store,
            r.graph@ == self.graph@,
    {
        SpanGraphRef { store: self.store, graph: self.graph.clone() }
    }
}

pub enum SpanGraphEventRef<'a> {
    SelfTime { duration: u64 },
    Child { graph: SpanGraphRef<'a> },
}

/// Saturating sum of the self times of the listed spans.
pub open spec fn sat_sum_self(v: StoreView, ms: Seq<int>) -> int
    decreases ms.len(),
{
    if ms.len() == 0 {
        0
    } else {
        sat_add(sat_sum_self(v, ms.drop_last()), v[ms.last()].self_time)
    }
}

/// Saturating sum of the total times of the listed spans.
pub open spec fn sat_sum_total(v: StoreView, rs: Seq<int>) -> int
    decreases rs.len(),
{
    if rs.len() == 0 {
        0
    } else {
        sat_add(sat_sum_total(v, rs.drop_last()), spec_total_time(v, rs.last()))
    }
}

impl<'a> SpanGraphRef<'a> {
    pub open spec fn wf(&self) -> bool {
        &&& self.store.readable()
        &&& graph_wf(self.store@, self.graph@)
    }

    /// Lower bound used by the nesting recursion: the smallest member.
    pub open spec fn lo(&self) -> int {
        seq_min(self.graph@.members())
    }

    pub fn first_span(&self) -> (r: SpanRef<'a>)
        requires
            self.wf(),
        ensures
            r.store == self.store,
            r.index as int == self.graph@.root_spans[0],
            r.wf(),
            1 <= r.index,
    {
        proof {
            assert(self.graph@.members()[0] == self.graph@.root_spans[0]);
        }
        SpanRef { store: self.store, index: self.graph.root_spans[0] }
    }

    /// External identifier: the first root's slot with the graph bit set.
    pub fn id(&self) -> (r: usize)
        requires
            self.wf(),
        ensures
            r == self.graph@.root_spans[0] * 2 + 1,
    {
        self.first_span().index * 2 + 1
    }

    pub fn name(&self) -> (r: &'a String)
        requires
            self.wf(),
        ensures
            r@ == self.store@[self.graph@.root_spans[0]].name,
    {
        self.first_span().name()
    }

    /// Number of member occurrences, capped at the machine count.
    pub fn count(&self) -> (r: usize)
        requires
            self.wf(),
        ensures
            r as int == if self.graph@.count() > usize::MAX as int {
                usize::MAX as int
            } else {
                self.graph@.count()
            },
    {
        let a = self.graph.root_spans.len();
        let b = self.graph.recursive_spans.len();
        if a > usize::MAX - b {
            usize::MAX
        } else {
            a + b
        }
    }

    pub fn nice_name(&self) -> (r: (String, String))
        requires
            self.wf(),
        ensures
            self.graph@.count() == 1 ==> r.0@ == spec_nice_name(
                self.store@[self.graph@.root_spans[0]],
            ).0 && r.1@ == spec_nice_name(self.store@[self.graph@.root_spans[0]]).1,
            self.graph@.count() != 1 ==> r.0@ == Seq::<char>::empty() && r.1@ == spec_group_name(
                self.store@[self.graph@.root_spans[0]],
            ),
    {
        if self.count() == 1 {
            self.first_span().nice_name()
        } else {
            (String::new(), self.first_span().group_name())
        }
    }

    pub fn root_spans(&self) -> (r: Vec<SpanRef<'a>>)
        requires
            self.wf(),
        ensures
            r@.map_values(|c: SpanRef<'a>| c.index as int) == self.graph@.root_spans,
            forall|t: int|
                0 <= t < r@.len() ==> (#[trigger] r@[t]).store == self.store && r@[t].wf() && 1
                    <= r@[t].index,
    {
        let mut r: Vec<SpanRef<'a>> = Vec::new();
        let n = self.graph.root_spans.len();
        let mut j: usize = 0;
        while j < n
            invariant
                self.wf(),
                0 <= j <= n,
                n == self.graph@.root_spans.len(),
                r@.map_values(|c: SpanRef<'a>| c.index as int) == self.graph@.root_spans.take(
                    j as int,
                ),
                forall|t: int|
                    0 <= t < r@.len() ==> (#[trigger] r@[t]).store == self.store && r@[t].wf() && 1
                        <= r@[t].index,
            decreases n - j,
        {
            proof {
                assert(self.graph@.members()[j as int] == self.graph@.root_spans[j as int]);
                assert(self.graph@.root_spans[j as int] == self.graph.root_spans@[j as int] as int);
            }
            let ghost pre = r@;
            r.push(SpanRef { store: self.store, index: self.graph.root_spans[j] });
            proof {
                assert(r@ == pre.push(SpanRef { store: self.store, index: self.graph.root_spans[j as int] }));
                let mp = r@.map_values(|c: SpanRef<'a>| c.index as int);
                let mpre = pre.map_values(|c: SpanRef<'a>| c.index as int);
                assert(mpre == self.graph@.root_spans.take(j as int));
                assert(mpre.len() == pre.len());
                assert(pre.len() == j);
                assert forall|i: int| 0 <= i < r@.len() implies #[trigger] mp[i] == self.graph@
                    .root_spans.take(j + 1)[i] by {
                    if i < j {
                        assert(r@[i] == pre[i]);
                        assert(mpre[i] == self.graph@.root_spans.take(j as int)[i]);
                    }
                }
                assert(mp =~= self.graph@.root_spans.take(j + 1));
            }
            j = j + 1;
        }
        proof {
            assert(self.graph@.root_spans.take(n as int) =~= self.graph@.root_spans);
        }
        r
    }

    /// All member occurrences: the roots followed by the recursive spans.
    pub fn recursive_spans(&self) -> (r: Vec<SpanRef<'a>>)
        requires
            self.wf(),
        ensures
            r@.map_values(|c: SpanRef<'a>| c.index as int) == self.graph@.members(),
            forall|t: int|
                0 <= t < r@.len() ==> (#[trigger] r@[t]).store == self.store && r@[t].wf() && 1
                    <= r@[t].index && self.lo() <= r@[t].index,
    {
        proof {
            lemma_seq_min(self.graph@.members());
        }
        let mut r: Vec<SpanRef<'a>> = Vec::new();
        let na = self.graph.root_spans.len();
        let nb = self.graph.recursive_spans.len();
        let mut j: usize = 0;
        while j < na
            invariant
                self.wf(),
                0 <= j <= na,
                na == self.graph@.root_spans.len(),
                r@.map_values(|c: SpanRef<'a>| c.index as int) == self.graph@.members().take(
                    j as int,
                ),
                forall|t: int|
                    0 <= t < r@.len() ==> (#[trigger] r@[t]).store == self.store && r@[t].wf() && 1
                        <= r@[t].index && self.lo() <= r@[t].index,
            decreases na - j,
        {
            proof {
                assert(self.graph@.members()[j as int] == self.graph@.root_spans[j as int]);
                assert(self.graph@.root_spans[j as int] == self.graph.root_spans@[j as int] as int);
                lemma_seq_min(self.graph@.members());
            }
            let ghost pre = r@;
            r.push(SpanRef { store: self.store, index: self.graph.root_spans[j] });
            proof {
                assert(r@ == pre.push(SpanRef { store: self.store, index: self.graph.root_spans[j as int] }));
                let mp = r@.map_values(|c: SpanRef<'a>| c.index as int);
                let mpre = pre.map_values(|c: SpanRef<'a>| c.index as int);
                assert(mpre == self.graph@.members().take(j as int));
                assert(mpre.len() == pre.len());
                assert(pre.len() == j);
                assert forall|i: int| 0 <= i < r@.len() implies #[trigger] mp[i] == self.graph@
                    .members().take(j + 1)[i] by {
                    if i < j {
                        assert(r@[i] == pre[i]);
                        assert(mpre[i] == self.graph@.members().take(j as int)[i]);
                    }
                }
                assert(mp =~= self.graph@.members().take(j + 1));
            }
            j = j + 1;
        }
        let mut k: usize = 0;
        while k < nb
            invariant
                self.wf(),
                0 <= k <= nb,
                na == self.graph@.root_spans.len(),
                nb == self.graph@.recursive_spans.len(),
                r@.map_values(|c: SpanRef<'a>| c.index as int) == self.graph@.members().take(
                    na + k as int,
                ),
                forall|t: int|
                    0 <= t < r@.len() ==> (#[trigger] r@[t]).store == self.store && r@[t].wf() && 1
                        <= r@[t].index && self.lo() <= r@[t].index,
            decreases nb - k,
        {
            proof {
                assert(self.graph@.members()[na + k as int] == self.graph@.recursive_spans[
                    k as int
                ]);
                assert(self.graph@.recursive_spans[k as int] == self.graph.recursive_spans@[
                    k as int
                ] as int);
                lemma_seq_min(self.graph@.members());
            }
            let ghost pre = r@;
            r.push(SpanRef { store: self.store, index: self.graph.recursive_spans[k] });
            proof {
                assert(r@ == pre.push(SpanRef { store: self.store, index: self.graph.recursive_spans[k as int] }));
                let mp = r@.map_values(|c: SpanRef<'a>| c.index as int);
                let mpre = pre.map_values(|c: SpanRef<'a>| c.index as int);
                assert(mpre == self.graph@.members().take(na + k as int));
                assert(mpre.len() == pre.len());
                assert(pre.len() == na + k);
                assert forall|i: int| 0 <= i < r@.len() implies #[trigger] mp[i] == self.graph@
                    .members().take(na + k + 1)[i] by {
                    if i < na + k {
                        assert(r@[i] == pre[i]);
                        assert(mpre[i] == self.graph@.members().take(na + k as int)[i]);
                    }
                }
                assert(mp =~= self.graph@.members().take(na + k + 1));
            }
            k = k + 1;
        }
        proof {
            assert(self.graph@.members().take(na + nb as int) =~= self.graph@.members());
        }
        r
    }

    /// Sum of the members' self times.
    pub fn self_time(&self) -> (r: u64)
        requires
            self.wf(),
        ensures
            r as int == sat_sum_self(self.store@, self.graph@.members()),
    {
        let ms = self.recursive_spans();
        let ghost msv = self.graph@.members();
        let n = ms.len();
        let mut acc: u64 = 0;
        let mut j: usize = 0;
        while j < n
            invariant
                self.wf(),
                0 <= j <= n,
                n == ms@.len(),
                ms@.map_values(|c: SpanRef<'a>| c.index as int) == msv,
                forall|t: int|
                    0 <= t < ms@.len() ==> (#[trigger] ms@[t]).store == self.store && ms@[t].wf(),
                acc as int == sat_sum_self(self.store@, msv.take(j as int)),
            decreases n - j,
        {
            proof {
                assert(msv.take(j + 1).drop_last() =~= msv.take(j as int));
                assert(msv.take(j + 1).last() == msv[j as int]);
                assert(msv[j as int] == ms@[j as int].index as int);
            }
            let st = ms[j].self_time();
            acc = if acc > u64::MAX - st {
                u64::MAX
            } else {
                acc + st
            };
            j = j + 1;
        }
        proof {
            assert(msv.take(n as int) =~= msv);
        }
        acc
    }

    pub fn corrected_self_time(&self) -> (r: u64)
        requires
            self.wf(),
        ensures
            r as int == sat_sum_self(self.store@, self.graph@.members()),
    {
        self.self_time()
    }

    /// Sum of the root occurrences' total times: the time the whole group
    /// covers, since the recursive occurrences lie inside the roots'
    /// subtrees.
    pub fn total_time(&self) -> (r: u64)
        requires
            self.wf(),
        ensures
            r as int == sat_sum_total(self.store@, self.graph@.root_spans),
    {
        let rs = self.root_spans();
        let ghost rsv = self.graph@.root_spans;
        let n = rs.len();
        let mut acc: u64 = 0;
        let mut j: usize = 0;
        while j < n
            invariant
                self.wf(),
                0 <= j <= n,
                n == rs@.len(),
                rs@.map_values(|c: SpanRef<'a>| c.index as int) == rsv,
                forall|t: int|
                    0 <= t < rs@.len() ==> (#[trigger] rs@[t]).store == self.store && rs@[t].wf(),
                acc as int == sat_sum_total(self.store@, rsv.take(j as int)),
            decreases n - j,
        {
            proof {
                assert(rsv.take(j + 1).drop_last() =~= rsv.take(j as int));
                assert(rsv.take(j + 1).last() == rsv[j as int]);
                assert(rsv[j as int] == rs@[j as int].index as int);
            }
            let tt = rs[j].total_time();
            acc = if acc > u64::MAX - tt {
                u64::MAX
            } else {
                acc + tt
            };
            j = j + 1;
        }
        proof {
            assert(rsv.take(n as int) =~= rsv);
        }
        acc
    }

    pub fn corrected_total_time(&self) -> (r: u64)
        requires
            self.wf(),
        ensures
            r as int == sat_sum_total(self.store@, self.graph@.root_spans),
    {
        self.total_time()
    }
}

/// `k` lies on the host chain of `m`: the parent chain extended by the
/// root sentinel that hosts the top-level spans.
pub open spec fn on_host_chain(v: StoreView, m: int, k: int) -> bool
    decreases m,
        when wf(v) && 0 <= m < v.len() via on_host_chain_decreases
{
    m == k || (m >= 1 && on_host_chain(v, host_of(v, m), k))
}

#[via_fn]
proof fn on_host_chain_decreases(v: StoreView, m: int, k: int) {
    assert(wf_record(v, m));
}

proof fn lemma_host_chain_host(v: StoreView, i: int, c: int)
    requires
        wf(v),
        0 <= i < v.len(),
        0 <= c < v.len(),
        1 <= c,
        on_host_chain(v, i, c),
    ensures
        on_host_chain(v, i, host_of(v, c)),
    decreases i,
{
    assert(wf_record(v, i));
    assert(wf_record(v, c));
    if i == c {
        assert(on_host_chain(v, host_of(v, c), host_of(v, c)));
    } else {
        lemma_host_chain_host(v, host_of(v, i), c);
    }
}

/// The view after one self-time mutation at `i`: every other record is
/// unchanged, and `i` keeps its creation-time fields and its child list.
pub open spec fn self_time_mutation(v0: StoreView, v1: StoreView, i: int) -> bool {
    &&& v1.len() == v0.len()
    &&& 0 <= i < v0.len()
    &&& (forall|j: int| 0 <= j < v0.len() && j != i ==> v1[j] == v0[j])
    &&& v1[i].parent == v0[i].parent
    &&& v1[i].name == v0[i].name
    &&& v1[i].category == v0[i].category
    &&& v1[i].args == v0[i].args
    &&& v1[i].start == v0[i].start
    &&& v1[i].ignore_self_time == v0[i].ignore_self_time
    &&& child_ids(v1[i].events) == child_ids(v0[i].events)
    &&& v1[i].events.len() >= v0[i].events.len()
    &&& (forall|j: int| 0 <= j < v0[i].events.len() ==> v1[i].events[j] == v0[i].events[j])
    &&& (forall|j: int|
        v0[i].events.len() <= j < v1[i].events.len() ==> (#[trigger] v1[i].events[j]) is SelfTime)
}

/// Frame of the invalidation argument: a self-time mutation at `i`
/// changes the derived end, total time and depth only on `i`'s host
/// chain. Every other span keeps its old metrics, which is why
/// invalidation may clear the chain alone.
pub proof fn lemma_self_time_frame(v0: StoreView, v1: StoreView, i: int, k: int)
    requires
        wf(v0),
        wf(v1),
        self_time_mutation(v0, v1, i),
        0 <= k < v0.len(),
        !on_host_chain(v0, i, k),
    ensures
        spec_end(v1, k) == spec_end(v0, k),
        spec_total_time(v1, k) == spec_total_time(v0, k),
        spec_max_depth(v1, k) == spec_max_depth(v0, k),
    decreases v0.len() - k, 1int, 0int,
{
    assert(wf_record(v0, k));
    assert(k != i);
    assert(v1[k] == v0[k]);
    lemma_self_time_frame_events(v0, v1, i, k, v0[k].events.len() as int);
}

proof fn lemma_self_time_frame_events(v0: StoreView, v1: StoreView, i: int, k: int, j: int)
    requires
        wf(v0),
        wf(v1),
        self_time_mutation(v0, v1, i),
        0 <= k < v0.len(),
        !on_host_chain(v0, i, k),
        k != i,
        v1[k] == v0[k],
        0 <= j <= v0[k].events.len(),
    ensures
        end_over_events(v1, k, j) == end_over_events(v0, k, j),
        total_over_events(v1, k, j) == total_over_events(v0, k, j),
        depth_over_events(v1, k, j) == depth_over_events(v0, k, j),
    decreases v0.len() - k, 0int, j,
{
    assert(wf_record(v0, k));
    if j > 0 {
        lemma_self_time_frame_events(v0, v1, i, k, j - 1);
        match v0[k].events[j - 1] {
            EventView::Child { id } => {
                if k < id < v0.len() {
                    assert(host_of(v0, id) == k);
                    assert(!on_host_chain(v0, i, id)) by {
                        if on_host_chain(v0, i, id) {
                            lemma_host_chain_host(v0, i, id);
                        }
                    }
                    assert(wf_record(v0, id));
                    assert(v1[id] == v0[id]);
                    lemma_self_time_frame_events(v0, v1, i, id, v0[id].events.len() as int);
                    assert(spec_end(v1, id) == spec_end(v0, id));
                    assert(spec_total_time(v1, id) == spec_total_time(v0, id));
                    assert(spec_max_depth(v1, id) == spec_max_depth(v0, id));
                }
            },
            EventView::SelfTime { .. } => {},
        }
    }
}

proof fn lemma_on_chain_congruent(v0: StoreView, v1: StoreView, m: int, k: int)
    requires
        wf(v0),
        wf(v1),
        v1.len() >= v0.len(),
        0 <= m < v0.len(),
        forall|j: int| 0 <= j < v0.len() ==> (#[trigger] v1[j]).parent == v0[j].parent,
    ensures
        on_chain(v1, m, k) == on_chain(v0, m, k),
    decreases m,
{
    assert(wf_record(v0, m));
    assert(v1[m].parent == v0[m].parent);
    match v0[m].parent {
        Some(p) => {
            if m != k {
                lemma_on_chain_congruent(v0, v1, p, k);
            }
        },
        None => {},
    }
}

proof fn lemma_host_chain_is_chain(v: StoreView, i: int, k: int)
    requires
        wf(v),
        0 <= i < v.len(),
        1 <= k,
        on_host_chain(v, i, k),
    ensures
        on_chain(v, i, k),
    decreases i,
{
    assert(wf_record(v, i));
    if i != k {
        assert(i >= 1 && on_host_chain(v, host_of(v, i), k));
        match v[i].parent {
            Some(p) => {
                lemma_host_chain_is_chain(v, p, k);
            },
            None => {
                assert(on_host_chain(v, 0, k));
                assert(false);
            },
        }
    }
}

proof fn lemma_group_roots_congruent(v0: StoreView, v1: StoreView, cs: Seq<int>)
    requires
        forall|t: int|
            0 <= t < cs.len() ==> 0 <= #[trigger] cs[t] && gname(v1, cs[t]) == gname(v0, cs[t]),
    ensures
        group_roots(v1, cs) == group_roots(v0, cs),
    decreases cs.len(),
{
    if cs.len() > 0 {
        assert forall|t: int|
            0 <= t < cs.drop_last().len() implies 0 <= #[trigger] cs.drop_last()[t] && gname(
            v1,
            cs.drop_last()[t],
        ) == gname(v0, cs.drop_last()[t]) by {
            assert(cs.drop_last()[t] == cs[t]);
        }
        lemma_group_roots_congruent(v0, v1, cs.drop_last());
        assert(gname(v1, cs.last()) == gname(v0, cs.last()));
    }
}

/// Invalidation completeness: after a self-time batch on span `i` and an
/// invalidation whose outdated list contains `i`, the store is readable
/// again. Cells on the ancestor chain were cleared; every other cell
/// still holds the value the new view assigns it, because the mutation
/// could not change derived values outside the chain.
pub proof fn lemma_invalidation_completeness(
    s0: &Store,
    s1: &Store,
    s2: &Store,
    i: int,
    od: Seq<usize>,
)
    requires
        s0.readable(),
        s1.wf(),
        s2.wf(),
        1 <= i < s0@.len(),
        self_time_mutation(s0@, s1@, i),
        s1.spans@.len() == s0.spans@.len(),
        forall|k: int|
            0 <= k < s0.spans@.len() ==> same_cells(s0.spans@[k], #[trigger] s1.spans@[k]),
        s2@ == s1@,
        s2.spans@.len() == s1.spans@.len(),
        in_set(od, i),
        forall|t: int| 0 <= t < od.len() ==> 1 <= #[trigger] od[t] < s1@.len(),
        forall|k: int|
            0 <= k < s1@.len() ==> same_span_cells_le(s1.spans@[k], #[trigger] s2.spans@[k]),
        forall|k: int|
            0 <= k < s1@.len() && !in_closure(s1@, od, k) ==> same_cells(
                s1.spans@[k],
                #[trigger] s2.spans@[k],
            ),
        forall|k: int|
            0 <= k < s1@.len() && in_closure(s1@, od, k) ==> cells_cleared(
                #[trigger] s2.spans@[k],
            ),
    ensures
        s2.readable(),
{
    let v0 = s0@;
    let v1 = s1@;
    assert(cells_cleared(s2.spans@[0])) by {
        assert(cells_cleared(s0.spans@[0]));
        assert(same_cells(s0.spans@[0], s1.spans@[0]));
        assert(same_span_cells_le(s1.spans@[0], s2.spans@[0]));
    }
    assert forall|c: int| 0 <= c < v0.len() implies gname(v1, c) == gname(v0, c) && spec_nice_name(
        v1[c],
    ) == spec_nice_name(v0[c]) by {
        if c != i {
            assert(v1[c] == v0[c]);
        }
    }
    assert forall|k: int| 0 <= k < s2.spans@.len() implies cells_ok_at(
        #[trigger] s2.spans@[k],
        s2@,
        k,
    ) by {
        if in_closure(v1, od, k) {
            assert(cells_cleared(s2.spans@[k]));
        } else if k == 0 {
            assert(cells_cleared(s2.spans@[k]));
        } else {
            assert(same_cells(s1.spans@[k], s2.spans@[k]));
            assert(same_cells(s0.spans@[k], s1.spans@[k]));
            assert(cells_ok_at(s0.spans@[k], v0, k));
            assert(!on_host_chain(v0, i, k)) by {
                if on_host_chain(v0, i, k) {
                    lemma_host_chain_is_chain(v0, i, k);
                    assert forall|j: int|
                        0 <= j < v0.len() implies (#[trigger] v1[j]).parent == v0[j].parent by {
                        if j != i {
                            assert(v1[j] == v0[j]);
                        }
                    }
                    lemma_on_chain_congruent(v0, v1, i, k);
                    let t = choose|t: int| 0 <= t < od.len() && od[t] == i;
                    assert(on_chain(v1, od[t] as int, k));
                    assert(in_closure(v1, od, k));
                }
            }
            lemma_self_time_frame(v0, v1, i, k);
            assert(k != i);
            assert(v1[k] == v0[k]);
            match s2.spans@[k].graph {
                Some(g) => {
                    assert(graph_vec_ok(v0, k, g@));
                    assert(graph_vec_ok(v1, k, g@)) by {
                        let cs = child_ids(v0[k].events);
                        assert(wf_record(v0, k));
                        lemma_child_ids_bounds(v0[k].events, k, v0.len() as int);
                        lemma_group_roots_congruent(v0, v1, cs);
                        assert(child_ids(v1[k].events) == cs);
                        assert(group_roots(v1, child_ids(v1[k].events)) == group_roots(v0, cs));
                        assert forall|j: int| 0 <= j < v0.len() implies #[trigger] gname(v1, j)
                            == gname(v0, j) by {
                            if j != i {
                                assert(v1[j] == v0[j]);
                            }
                        }
                        assert forall|j: int|
                            0 <= j < v0.len() && j != i implies child_ids(v1[j].events)
                            == child_ids(#[trigger] v0[j].events) by {
                            assert(v1[j] == v0[j]);
                        }
                        lemma_child_ids_hosts(v0, v0[k].events, k);
                        assert forall|t: int|
                            0 <= t < cs.len() implies 0 < #[trigger] cs[t] < v0.len()
                            && !on_host_chain(v0, i, cs[t]) by {
                            assert(host_of(v0, cs[t]) == k);
                            assert(wf_record(v0, cs[t]));
                            if on_host_chain(v0, i, cs[t]) {
                                lemma_host_chain_host(v0, i, cs[t]);
                            }
                        }
                        lemma_group_cands_congruent(v0, v1, i, cs);
                        assert(group_cands(v1, child_ids(v1[k].events)) == group_cands(v0, cs));
                    }
                },
                None => {},
            }
        }
    }
}

/// The breadth-first grouping reads only group names and child lists, so
/// it is blind to a mutation at `h` as long as the walk stays off `h`'s
/// ancestors: no chain from the worklist can reach `h`.
proof fn lemma_bfs_congruent(
    v0: StoreView,
    v1: StoreView,
    h: int,
    e: crate::group::Entries,
    g: Seq<char>,
    q: Seq<int>,
)
    requires
        wf(v0),
        wf(v1),
        v1.len() >= v0.len(),
        0 <= h < v0.len(),
        forall|j: int| 0 <= j < v0.len() ==> #[trigger] gname(v1, j) == gname(v0, j),
        forall|j: int|
            0 <= j < v0.len() && j != h ==> child_ids(v1[j].events) == child_ids(
                #[trigger] v0[j].events,
            ),
        forall|t: int|
            0 <= t < q.len() ==> 0 < #[trigger] q[t] < v0.len() && !on_host_chain(v0, h, q[t]),
    ensures
        bfs_rec(v1, e, g, q) == bfs_rec(v0, e, g, q),
    decreases sum_sizes(v0, q),
{
    if q.len() > 0 {
        let c = q[0];
        assert(0 < c < v0.len() && !on_host_chain(v0, h, c));
        assert(c != h);
        assert(wf_record(v0, c));
        lemma_child_ids_bounds(v0[c].events, c, v0.len() as int);
        let cids = child_ids(v0[c].events);
        assert(child_ids(v1[c].events) == cids);
        assert forall|t: int|
            0 <= t < cids.len() implies 0 <= #[trigger] cids[t] < v0.len() && gname(
            v1,
            cids[t],
        ) == gname(v0, cids[t]) by {}
        crate::group::lemma_keep_same_congruent(v0, v1, cids, g);
        let ms = keep_same(v0, cids, g);
        crate::group::lemma_keep_same_bounds(v0, cids, g, c, v0.len() as int);
        assert forall|t: int|
            0 <= t < (q.skip(1) + ms).len() implies 0 < #[trigger] (q.skip(1) + ms)[t] < v0.len()
            && !on_host_chain(v0, h, (q.skip(1) + ms)[t]) by {
            if t < q.skip(1).len() {
                assert((q.skip(1) + ms)[t] == q[t + 1]);
            } else {
                let d = ms[t - q.skip(1).len()];
                assert((q.skip(1) + ms)[t] == d);
                assert(c < d < v0.len());
                assert(wf_record(v0, d));
                assert(host_of(v0, d) == c) by {
                    crate::store::lemma_keep_same_hosts(v0, cids, g, c, t - q.skip(1).len());
                }
                if on_host_chain(v0, h, d) {
                    lemma_host_chain_host(v0, h, d);
                }
            }
        }
        crate::group::lemma_keep_same_sum(v0, cids, g);
        lemma_size_children(v0, c, v0[c].events.len() as int);
        assert(v0[c].events.take(v0[c].events.len() as int) =~= v0[c].events);
        crate::group::lemma_sum_sizes_concat(v0, q.skip(1), ms);
        lemma_sum_sizes_skip(v0, q, 0);
        assert(q.skip(0) =~= q);
        assert forall|t: int| 0 <= t < q.skip(1).len() implies 0 <= #[trigger] q.skip(1)[t]
            < v0.len() by {
            assert(q.skip(1)[t] == q[t + 1]);
        }
        lemma_sum_sizes_nonneg(v0, q.skip(1));
        lemma_size_bounds(v0, c);
        lemma_sum_sizes_nonneg(v0, q.skip(1) + ms);
        lemma_bfs_congruent(v0, v1, h, crate::group::push_recs(e, g, ms), g, q.skip(1) + ms);
    }
}

/// The kept children are children: each is hosted by the span whose child
/// list was filtered.
pub proof fn lemma_keep_same_hosts(v: StoreView, cids: Seq<int>, g: Seq<char>, c: int, t: int)
    requires
        wf(v),
        0 <= c < v.len(),
        cids == child_ids(v[c].events),
        0 <= t < keep_same(v, cids, g).len(),
    ensures
        host_of(v, keep_same(v, cids, g)[t]) == c,
{
    lemma_child_ids_hosts(v, v[c].events, c);
    lemma_keep_same_from(v, cids, g, t);
}

/// Every kept element occurs in the filtered list.
proof fn lemma_keep_same_from(v: StoreView, cs: Seq<int>, g: Seq<char>, t: int)
    requires
        0 <= t < keep_same(v, cs, g).len(),
    ensures
        exists|u: int| 0 <= u < cs.len() && #[trigger] cs[u] == keep_same(v, cs, g)[t],
    decreases cs.len(),
{
    if cs.len() > 0 {
        let kd = keep_same(v, cs.drop_last(), g);
        if gname(v, cs.last()) == g && t == kd.len() {
            assert(cs[cs.len() - 1] == keep_same(v, cs, g)[t]);
        } else {
            lemma_keep_same_from(v, cs.drop_last(), g, t);
            let u = choose|u: int|
                0 <= u < cs.drop_last().len() && #[trigger] cs.drop_last()[u] == kd[t];
            assert(cs[u] == keep_same(v, cs, g)[t]) by {
                assert(cs.drop_last()[u] == cs[u]);
                if gname(v, cs.last()) == g {
                    assert(keep_same(v, cs, g)[t] == kd[t]);
                } else {
                    assert(keep_same(v, cs, g) == kd);
                }
            }
        }
    }
}

/// Every listed child is hosted by the span whose events are read.
proof fn lemma_child_ids_hosts(v: StoreView, es: Seq<EventView>, c: int)
    requires
        wf(v),
        0 <= c < v.len(),
        es == v[c].events,
    ensures
        forall|t: int|
            0 <= t < child_ids(es).len() ==> host_of(v, #[trigger] child_ids(es)[t]) == c,
{
    assert(wf_record(v, c));
    lemma_child_ids_hosts_rec(v, es, c, es.len() as int);
    assert(es.take(es.len() as int) =~= es);
}

proof fn lemma_child_ids_hosts_rec(v: StoreView, es: Seq<EventView>, c: int, n: int)
    requires
        wf(v),
        0 <= c < v.len(),
        es == v[c].events,
        0 <= n <= es.len(),
    ensures
        forall|t: int|
            0 <= t < child_ids(es.take(n)).len() ==> host_of(
                v,
                #[trigger] child_ids(es.take(n))[t],
            ) == c,
    decreases n,
{
    assert(wf_record(v, c));
    if n > 0 {
        lemma_child_ids_hosts_rec(v, es, c, n - 1);
        assert(es.take(n).drop_last() =~= es.take(n - 1));
        assert(es.take(n).last() == es[n - 1]);
        let kd = child_ids(es.take(n - 1));
        assert forall|t: int|
            0 <= t < child_ids(es.take(n)).len() implies host_of(
            v,
            #[trigger] child_ids(es.take(n))[t],
        ) == c by {
            match es[n - 1] {
                EventView::Child { id } => {
                    assert(child_ids(es.take(n)) == kd.push(id));
                    if t < kd.len() {
                        assert(child_ids(es.take(n))[t] == kd[t]);
                    } else {
                        assert(child_ids(es.take(n))[t] == id);
                        assert(host_of(v, id) == c);
                    }
                },
                EventView::SelfTime { .. } => {
                    assert(child_ids(es.take(n)) == kd);
                },
            }
        }
    }
}

/// Grouping congruence under a mutation at `h`: candidate lists off `h`'s
/// ancestor chains group identically in both views.
proof fn lemma_group_cands_congruent(v0: StoreView, v1: StoreView, h: int, cs: Seq<int>)
    requires
        wf(v0),
        wf(v1),
        v1.len() >= v0.len(),
        0 <= h < v0.len(),
        forall|j: int| 0 <= j < v0.len() ==> #[trigger] gname(v1, j) == gname(v0, j),
        forall|j: int|
            0 <= j < v0.len() && j != h ==> child_ids(v1[j].events) == child_ids(
                #[trigger] v0[j].events,
            ),
        forall|t: int|
            0 <= t < cs.len() ==> 0 < #[trigger] cs[t] < v0.len() && !on_host_chain(v0, h, cs[t]),
    ensures
        group_cands(v1, cs) == group_cands(v0, cs),
    decreases cs.len(),
{
    if cs.len() > 0 {
        assert forall|t: int|
            0 <= t < cs.drop_last().len() implies 0 < #[trigger] cs.drop_last()[t] < v0.len()
            && !on_host_chain(v0, h, cs.drop_last()[t]) by {
            assert(cs.drop_last()[t] == cs[t]);
        }
        lemma_group_cands_congruent(v0, v1, h, cs.drop_last());
        assert(gname(v1, cs.last()) == gname(v0, cs.last()));
        lemma_bfs_congruent(
            v0,
            v1,
            h,
            push_root_s(group_cands(v0, cs.drop_last()), gname(v0, cs.last()), cs.last()),
            gname(v0, cs.last()),
            seq![cs.last()],
        );
        assert(seq![cs.last()][0] == cs.last());
    }
}

/// The view after one span was appended under host `h`: the old records
/// are unchanged but for `h`, which gained one `Child` event for the new
/// last slot.
pub open spec fn span_append_mutation(v0: StoreView, v1: StoreView, h: int) -> bool {
    &&& v1.len() == v0.len() + 1
    &&& 0 <= h < v0.len()
    &&& (forall|j: int| 0 <= j < v0.len() && j != h ==> v1[j] == v0[j])
    &&& v1[h] == (SpanView {
        events: v0[h].events.push(EventView::Child { id: v0.len() as int }),
        ..v0[h]
    })
}

/// Frame of the invalidation argument for additions: appending a span
/// under `h` changes the derived end, total time and depth only on `h`'s
/// host chain.
pub proof fn lemma_add_span_frame(v0: StoreView, v1: StoreView, h: int, k: int)
    requires
        wf(v0),
        wf(v1),
        span_append_mutation(v0, v1, h),
        0 <= k < v0.len(),
        !on_host_chain(v0, h, k),
    ensures
        spec_end(v1, k) == spec_end(v0, k),
        spec_total_time(v1, k) == spec_total_time(v0, k),
        spec_max_depth(v1, k) == spec_max_depth(v0, k),
    decreases v0.len() - k, 1int, 0int,
{
    assert(wf_record(v0, k));
    assert(k != h);
    assert(v1[k] == v0[k]);
    lemma_add_span_frame_events(v0, v1, h, k, v0[k].events.len() as int);
}

proof fn lemma_add_span_frame_events(v0: StoreView, v1: StoreView, h: int, k: int, j: int)
    requires
        wf(v0),
        wf(v1),
        span_append_mutation(v0, v1, h),
        0 <= k < v0.len(),
        !on_host_chain(v0, h, k),
        k != h,
        v1[k] == v0[k],
        0 <= j <= v0[k].events.len(),
    ensures
        end_over_events(v1, k, j) == end_over_events(v0, k, j),
        total_over_events(v1, k, j) == total_over_events(v0, k, j),
        depth_over_events(v1, k, j) == depth_over_events(v0, k, j),
    decreases v0.len() - k, 0int, j,
{
    assert(wf_record(v0, k));
    if j > 0 {
        lemma_add_span_frame_events(v0, v1, h, k, j - 1);
        match v0[k].events[j - 1] {
            EventView::Child { id } => {
                if k < id < v0.len() {
                    assert(host_of(v0, id) == k);
                    assert(!on_host_chain(v0, h, id)) by {
                        if on_host_chain(v0, h, id) {
                            lemma_host_chain_host(v0, h, id);
                        }
                    }
                    assert(wf_record(v0, id));
                    assert(v1[id] == v0[id]);
                    lemma_add_span_frame_events(v0, v1, h, id, v0[id].events.len() as int);
                    assert(spec_end(v1, id) == spec_end(v0, id));
                    assert(spec_total_time(v1, id) == spec_total_time(v0, id));
                    assert(spec_max_depth(v1, id) == spec_max_depth(v0, id));
                }
            },
            EventView::SelfTime { .. } => {},
        }
    }
}

/// Invalidation completeness for additions: after a span was added under
/// host `h` and the invalidation covered `h` (the sentinel needs no
/// entry: its cells are never filled), the store is readable again.
pub proof fn lemma_add_span_completeness(
    s0: &Store,
    s1: &Store,
    s2: &Store,
    h: int,
    od: Seq<usize>,
)
    requires
        s0.readable(),
        s1.wf(),
        s2.wf(),
        span_append_mutation(s0@, s1@, h),
        s1.spans@.len() == s0.spans@.len() + 1,
        forall|k: int|
            0 <= k < s0.spans@.len() ==> same_cells(s0.spans@[k], #[trigger] s1.spans@[k]),
        cells_empty(s1.spans@[s0.spans@.len() as int]),
        s2@ == s1@,
        s2.spans@.len() == s1.spans@.len(),
        h == 0 || in_set(od, h),
        forall|t: int| 0 <= t < od.len() ==> 1 <= #[trigger] od[t] < s1@.len(),
        forall|k: int|
            0 <= k < s1@.len() ==> same_span_cells_le(s1.spans@[k], #[trigger] s2.spans@[k]),
        forall|k: int|
            0 <= k < s1@.len() && !in_closure(s1@, od, k) ==> same_cells(
                s1.spans@[k],
                #[trigger] s2.spans@[k],
            ),
        forall|k: int|
            0 <= k < s1@.len() && in_closure(s1@, od, k) ==> cells_cleared(
                #[trigger] s2.spans@[k],
            ),
    ensures
        s2.readable(),
{
    let v0 = s0@;
    let v1 = s1@;
    let fresh = v0.len() as int;
    assert(cells_cleared(s2.spans@[0])) by {
        assert(cells_cleared(s0.spans@[0]));
        assert(same_cells(s0.spans@[0], s1.spans@[0]));
        assert(same_span_cells_le(s1.spans@[0], s2.spans@[0]));
    }
    assert forall|c: int| 0 <= c < v0.len() implies gname(v1, c) == gname(v0, c) && spec_nice_name(
        v1[c],
    ) == spec_nice_name(v0[c]) by {
        if c != h {
            assert(v1[c] == v0[c]);
        }
    }
    assert forall|k: int| 0 <= k < s2.spans@.len() implies cells_ok_at(
        #[trigger] s2.spans@[k],
        s2@,
        k,
    ) by {
        if k == fresh {
            assert(same_span_cells_le(s1.spans@[k], s2.spans@[k]));
            assert(cells_empty(s1.spans@[k]));
        } else if in_closure(v1, od, k) {
            assert(cells_cleared(s2.spans@[k]));
        } else if k == 0 {
            assert(cells_cleared(s2.spans@[k]));
        } else if k == h {
            assert(h >= 1);
            assert(in_set(od, h));
            let t = choose|t: int| 0 <= t < od.len() && od[t] == h;
            assert(on_chain(v1, od[t] as int, k));
            assert(in_closure(v1, od, k));
        } else {
            assert(same_cells(s1.spans@[k], s2.spans@[k]));
            assert(same_cells(s0.spans@[k], s1.spans@[k]));
            assert(cells_ok_at(s0.spans@[k], v0, k));
            assert(!on_host_chain(v0, h, k)) by {
                if on_host_chain(v0, h, k) {
                    lemma_host_chain_is_chain(v0, h, k);
                    assert(h >= 1) by {
                        if h == 0 {
                            assert(on_chain(v0, 0, k));
                            assert(wf_record(v0, 0));
                        }
                    }
                    assert forall|j: int|
                        0 <= j < v0.len() implies (#[trigger] v1[j]).parent == v0[j].parent by {
                        if j != h {
                            assert(v1[j] == v0[j]);
                        }
                    }
                    lemma_on_chain_congruent(v0, v1, h, k);
                    let t = choose|t: int| 0 <= t < od.len() && od[t] == h;
                    assert(on_chain(v1, od[t] as int, k));
                    assert(in_closure(v1, od, k));
                }
            }
            lemma_add_span_frame(v0, v1, h, k);
            assert(k != h);
            assert(v1[k] == v0[k]);
            match s2.spans@[k].graph {
                Some(g) => {
                    assert(graph_vec_ok(v0, k, g@));
                    assert(graph_vec_ok(v1, k, g@)) by {
                        let cs = child_ids(v0[k].events);
                        assert(wf_record(v0, k));
                        lemma_child_ids_bounds(v0[k].events, k, v0.len() as int);
                        lemma_group_roots_congruent(v0, v1, cs);
                        assert(child_ids(v1[k].events) == cs);
                        assert(group_roots(v1, child_ids(v1[k].events)) == group_roots(v0, cs));
                        assert forall|j: int| 0 <= j < v0.len() implies #[trigger] gname(v1, j)
                            == gname(v0, j) by {
                            if j != h {
                                assert(v1[j] == v0[j]);
                            }
                        }
                        assert forall|j: int|
                            0 <= j < v0.len() && j != h implies child_ids(v1[j].events)
                            == child_ids(#[trigger] v0[j].events) by {
                            assert(v1[j] == v0[j]);
                        }
                        lemma_child_ids_hosts(v0, v0[k].events, k);
                        assert forall|t: int|
                            0 <= t < cs.len() implies 0 < #[trigger] cs[t] < v0.len()
                            && !on_host_chain(v0, h, cs[t]) by {
                            assert(host_of(v0, cs[t]) == k);
                            assert(wf_record(v0, cs[t]));
                            if on_host_chain(v0, h, cs[t]) {
                                lemma_host_chain_host(v0, h, cs[t]);
                            }
                        }
                        lemma_group_cands_congruent(v0, v1, h, cs);
                        assert(group_cands(v1, child_ids(v1[k].events)) == group_cands(v0, cs));
                    }
                },
                None => {},
            }
        }
    }
}

/// Every member of the node lies strictly above `lo`.
pub open spec fn graph_above(g: GraphView, lo: int) -> bool {
    forall|t: int| 0 <= t < g.members().len() ==> #[trigger] g.members()[t] > lo
}

/// Builds the event list handed out for a grouping result: one aggregation
/// node per entry, in entry order.
fn entries_to_events<'a>(
    store: &'a Store,
    entries: &Vec<(String, (Vec<usize>, Vec<usize>))>,
    Ghost(lo): Ghost<int>,
) -> (r: Vec<SpanGraphEventRef<'a>>)
    requires
        store.readable(),
        entries_members_ok(store@, lo, vec_entries(entries@)),
        0 <= lo,
    ensures
        r@.len() == entries@.len(),
        forall|t: int|
            0 <= t < r@.len() ==> {
                &&& (#[trigger] r@[t]) is Child
                &&& r@[t]->Child_graph.store == store
                &&& r@[t]->Child_graph.wf()
                &&& graph_above(r@[t]->Child_graph.graph@, lo)
                &&& r@[t]->Child_graph.graph@.root_spans == vec_entries(entries@)[t].1
                &&& r@[t]->Child_graph.graph@.recursive_spans == vec_entries(entries@)[t].2
            },
{
    let ghost ev = vec_entries(entries@);
    let n = entries.len();
    let mut r: Vec<SpanGraphEventRef<'a>> = Vec::new();
    let mut i: usize = 0;
    while i < n
        invariant
            store.readable(),
            0 <= i <= n,
            n == entries@.len(),
            ev == vec_entries(entries@),
            entries_members_ok(store@, lo, ev),
            0 <= lo,
            r@.len() == i,
            forall|t: int|
                0 <= t < r@.len() ==> {
                    &&& (#[trigger] r@[t]) is Child
                    &&& r@[t]->Child_graph.store == store
                    &&& r@[t]->Child_graph.wf()
                    &&& graph_above(r@[t]->Child_graph.graph@, lo)
                    &&& r@[t]->Child_graph.graph@.root_spans == ev[t].1
                    &&& r@[t]->Child_graph.graph@.recursive_spans == ev[t].2
                },
        decreases n - i,
    {
        proof {
            assert(ev[i as int] == vec_entry_view(entries@[i as int]));
        }
        let g = SpanGraph {
            root_spans: copy_indices(&entries[i].1.0),
            recursive_spans: copy_indices(&entries[i].1.1),
        };
        proof {
            assert(g@.root_spans == ev[i as int].1);
            assert(g@.recursive_spans == ev[i as int].2);
            assert(g@.members() == entry_members(ev[i as int]));
            assert(entry_members(ev[i as int])[0] == ev[i as int].1[0]);
            assert(gname(store@, g@.root_spans[0]) == ev[i as int].0);
        }
        r.push(SpanGraphEventRef::Child { graph: SpanGraphRef { store, graph: g } });
        i = i + 1;
    }
    r
}

impl<'a> SpanRef<'a> {
    /// The aggregation of this span's children: one node per group name in
    /// first-occurrence order, each holding the children of that name and
    /// the deeper same-name occurrences below them.
    pub fn graph(&self) -> (r: Vec<SpanGraphEventRef<'a>>)
        requires
            self.wf(),
        ensures
            forall|t: int|
                0 <= t < r@.len() ==> {
                    &&& (#[trigger] r@[t]) is Child
                    &&& r@[t]->Child_graph.store == self.store
                    &&& r@[t]->Child_graph.wf()
                    &&& graph_above(r@[t]->Child_graph.graph@, self.index as int)
                },
            graph_cell_ok(
                self.store@,
                self.index as int,
                r@.map_values(|e: SpanGraphEventRef<'a>| e->Child_graph.graph@),
            ),
            graphs_match(
                group_cands(self.store@, child_ids(self.store@[self.index as int].events)),
                r@.map_values(|e: SpanGraphEventRef<'a>| e->Child_graph.graph@),
            ),
    {
        let ghost v = self.store@;
        let ghost host = self.index as int;
        proof {
            assert(cells_ok_at(self.store.spans@[host], v, host));
        }
        if let Some(gvec) = &self.store.spans[self.index].graph {
            let n = gvec.len();
            let mut r: Vec<SpanGraphEventRef<'a>> = Vec::new();
            let mut i: usize = 0;
            proof {
                assert(graph_vec_ok(v, host, gvec@));
            }
            while i < n
                invariant
                    self.wf(),
                    v == self.store@,
                    host == self.index as int,
                    0 <= i <= n,
                    n == gvec@.len(),
                    graph_vec_ok(v, host, gvec@),
                    r@.len() == i,
                    forall|t: int|
                        0 <= t < r@.len() ==> {
                            &&& (#[trigger] r@[t]) is Child
                            &&& r@[t]->Child_graph.store == self.store
                            &&& r@[t]->Child_graph.graph@ == gvec@[t]->Child_child@
                        },
                decreases n - i,
            {
                let ghost gs = gvec@.map_values(|e: SpanGraphEvent| e->Child_child@);
                proof {
                    assert(gvec@[i as int] is Child);
                    assert(gs[i as int] == gvec@[i as int]->Child_child@);
                    assert(gs[i as int].members()[0] == gs[i as int].root_spans[0]);
                }
                let child = match &gvec[i] {
                    SpanGraphEvent::Child { child } => child.clone(),
                    SpanGraphEvent::SelfTime { .. } => SpanGraph {
                        root_spans: Vec::new(),
                        recursive_spans: Vec::new(),
                    },
                };
                r.push(SpanGraphEventRef::Child { graph: SpanGraphRef { store: self.store, graph: child } });
                i = i + 1;
            }
            proof {
                assert(r@.map_values(|e: SpanGraphEventRef<'a>| e->Child_graph.graph@) =~= gvec@
                    .map_values(|ev: SpanGraphEvent| ev->Child_child@));
                assert(graph_cell_ok(
                    v,
                    host,
                    r@.map_values(|e: SpanGraphEventRef<'a>| e->Child_graph.graph@),
                ));
                assert(graphs_match(
                    group_cands(v, child_ids(v[host].events)),
                    r@.map_values(|e: SpanGraphEventRef<'a>| e->Child_graph.graph@),
                ));
                let gs = gvec@.map_values(|ev: SpanGraphEvent| ev->Child_child@);
                assert forall|t: int| 0 <= t < r@.len() implies (#[trigger] r@[t]) is Child
                    && r@[t]->Child_graph.store == self.store && r@[t]->Child_graph.wf()
                    && graph_above(r@[t]->Child_graph.graph@, host) by {
                    assert(gs[t] == gvec@[t]->Child_child@);
                    assert(gs[t].members()[0] == gs[t].root_spans[0]);
                }
            }
            r
        } else {
            let mut srcs: Vec<SpanRef<'a>> = Vec::new();
            srcs.push(*self);
            let entries = build_groups(self.store, &srcs, None, Ghost(host));
            proof {
                assert(src_idx(srcs@) =~= seq![host]);
                assert(src_idx(srcs@).drop_last() =~= Seq::<int>::empty());
                assert(cand_list(v, Seq::<int>::empty(), None) == Seq::<int>::empty());
                lemma_filter_key_none(v, child_ids(v[host].events));
                assert(cand_list(v, seq![host], None) =~= child_ids(v[host].events));
            }
            let r = entries_to_events(self.store, &entries, Ghost(host));
            proof {
                let ev = vec_entries(entries@);
                let e = group_roots(v, child_ids(v[host].events));
                let gs = r@.map_values(|x: SpanGraphEventRef<'a>| x->Child_graph.graph@);
                assert(keys_roots_match(ev, e));
                assert(gs.len() == e.len());
                assert forall|j: int| 0 <= j < gs.len() implies (#[trigger] gs[j]).root_spans
                    == e[j].1 && gs[j].root_spans.len() >= 1 by {
                    assert(gs[j] == r@[j]->Child_graph.graph@);
                }
                assert forall|j: int, t: int|
                    0 <= j < gs.len() && 0 <= t < gs[j].members().len() implies host
                    < #[trigger] gs[j].members()[t] < v.len() && gname(v, gs[j].members()[t])
                    == e[j].0 by {
                    assert(gs[j] == r@[j]->Child_graph.graph@);
                    assert(gs[j].members() == entry_members(ev[j]));
                    assert(entry_members(ev[j])[t] == gs[j].members()[t]);
                    assert(ev[j].0 == e[j].0);
                }
                assert forall|j: int| 0 <= j < gs.len() implies (#[trigger] gs[j]).root_spans.len()
                    >= 1 by {
                    assert(gs[j].root_spans == e[j].1);
                }
                assert(graph_cell_ok(v, host, gs));
                assert(gs == r@.map_values(|x: SpanGraphEventRef<'a>| x->Child_graph.graph@));
                assert(graph_cell_ok(
                    v,
                    host,
                    r@.map_values(|e2: SpanGraphEventRef<'a>| e2->Child_graph.graph@),
                ));
                let ec = group_cands(v, child_ids(v[host].events));
                assert(ec == vec_entries(entries@));
                assert forall|j: int| 0 <= j < gs.len() implies (#[trigger] gs[j]).root_spans
                    == ec[j].1 && gs[j].recursive_spans == ec[j].2 by {
                    assert(gs[j] == r@[j]->Child_graph.graph@);
                }
                assert(graphs_match(ec, gs));
            }
            r
        }
    }
}

impl<'a> SpanGraphRef<'a> {
    /// Candidates of the nested grouping: the members' direct children
    /// that leave this node's own group name.
    pub open spec fn nested_cands(&self) -> Seq<int> {
        cand_list(
            self.store@,
            self.graph@.members(),
            Some(gname(self.store@, self.graph@.root_spans[0])),
        )
    }

    /// The nested aggregation below this node: for a single-span node, the
    /// span's own aggregation; otherwise the grouping of the members'
    /// children that leave this group name.
    pub fn events(&self) -> (r: Vec<SpanGraphEventRef<'a>>)
        requires
            self.wf(),
        ensures
            forall|t: int|
                0 <= t < r@.len() ==> {
                    &&& (#[trigger] r@[t]) is Child
                    &&& r@[t]->Child_graph.store == self.store
                    &&& r@[t]->Child_graph.wf()
                    &&& graph_above(r@[t]->Child_graph.graph@, self.lo())
                },
            self.graph@.count() == 1 ==> graph_cell_ok(
                self.store@,
                self.graph@.root_spans[0],
                r@.map_values(|e: SpanGraphEventRef<'a>| e->Child_graph.graph@),
            ),
            self.graph@.count() != 1 ==> nested_cell_ok(
                self.store@,
                self.lo(),
                self.nested_cands(),
                r@.map_values(|e: SpanGraphEventRef<'a>| e->Child_graph.graph@),
            ) && graphs_match(
                group_cands(self.store@, self.nested_cands()),
                r@.map_values(|e: SpanGraphEventRef<'a>| e->Child_graph.graph@),
            ),
            self.graph@.count() == 1 ==> graphs_match(
                group_cands(
                    self.store@,
                    child_ids(self.store@[self.graph@.root_spans[0]].events),
                ),
                r@.map_values(|e: SpanGraphEventRef<'a>| e->Child_graph.graph@),
            ),
    {
        let ghost v = self.store@;
        proof {
            lemma_seq_min(self.graph@.members());
        }
        if self.count() == 1 {
            let first = self.first_span();
            proof {
                assert(self.graph@.members().len() == 1);
                assert(self.graph@.members() =~= seq![self.graph@.root_spans[0]]);
                assert(self.lo() == self.graph@.root_spans[0]);
            }
            first.graph()
        } else {
            let sg = self.first_span().group_name();
            let srcs = self.recursive_spans();
            proof {
                assert forall|t: int| 0 <= t < srcs@.len() implies (#[trigger] srcs@[t]).wf()
                    && srcs@[t].store == self.store && self.lo() <= srcs@[t].index by {}
            }
            let entries = build_groups(self.store, &srcs, Some(&sg), Ghost(self.lo()));
            let r = entries_to_events(self.store, &entries, Ghost(self.lo()));
            proof {
                assert(src_idx(srcs@) =~= self.graph@.members());
                assert(skip_view(Some(&sg)) == Some(gname(v, self.graph@.root_spans[0])));
                let cands = self.nested_cands();
                let ev = vec_entries(entries@);
                let e = group_roots(v, cands);
                let gs = r@.map_values(|x: SpanGraphEventRef<'a>| x->Child_graph.graph@);
                assert(keys_roots_match(ev, e));
                assert(gs.len() == e.len());
                assert forall|j: int| 0 <= j < gs.len() implies (#[trigger] gs[j]).root_spans
                    == e[j].1 && gs[j].root_spans.len() >= 1 by {
                    assert(gs[j] == r@[j]->Child_graph.graph@);
                }
                assert forall|j: int, t: int|
                    0 <= j < gs.len() && 0 <= t < gs[j].members().len() implies self.lo()
                    < #[trigger] gs[j].members()[t] < v.len() && gname(v, gs[j].members()[t])
                    == e[j].0 by {
                    assert(gs[j] == r@[j]->Child_graph.graph@);
                    assert(gs[j].members() == entry_members(ev[j]));
                    assert(entry_members(ev[j])[t] == gs[j].members()[t]);
                    assert(ev[j].0 == e[j].0);
                }
                assert(nested_cell_ok(v, self.lo(), cands, gs));
                assert(gs == r@.map_values(|e2: SpanGraphEventRef<'a>| e2->Child_graph.graph@));
                let ec = group_cands(v, cands);
                assert(ec == vec_entries(entries@));
                assert forall|j: int| 0 <= j < gs.len() implies (#[trigger] gs[j]).root_spans
                    == ec[j].1 && gs[j].recursive_spans == ec[j].2 by {
                    assert(gs[j] == r@[j]->Child_graph.graph@);
                }
                assert(graphs_match(ec, gs));
            }
            r
        }
    }

    /// The nested aggregation nodes themselves: the `Child` graphs of
    /// `events`, in order; the current aggregation produces nothing else.
    pub fn children(&self) -> (r: Vec<SpanGraphRef<'a>>)
        requires
            self.wf(),
        ensures
            forall|t: int|
                0 <= t < r@.len() ==> {
                    &&& (#[trigger] r@[t]).store == self.store
                    &&& r@[t].wf()
                    &&& graph_above(r@[t].graph@, self.lo())
                },
            self.graph@.count() == 1 ==> graph_cell_ok(
                self.store@,
                self.graph@.root_spans[0],
                r@.map_values(|g: SpanGraphRef<'a>| g.graph@),
            ) && graphs_match(
                group_cands(
                    self.store@,
                    child_ids(self.store@[self.graph@.root_spans[0]].events),
                ),
                r@.map_values(|g: SpanGraphRef<'a>| g.graph@),
            ),
            self.graph@.count() != 1 ==> nested_cell_ok(
                self.store@,
                self.lo(),
                self.nested_cands(),
                r@.map_values(|g: SpanGraphRef<'a>| g.graph@),
            ) && graphs_match(
                group_cands(self.store@, self.nested_cands()),
                r@.map_values(|g: SpanGraphRef<'a>| g.graph@),
            ),
    {
        let ev = self.events();
        let n = ev.len();
        let mut r: Vec<SpanGraphRef<'a>> = Vec::new();
        let mut i: usize = 0;
        while i < n
            invariant
                0 <= i <= n,
                n == ev@.len(),
                forall|t: int|
                    0 <= t < ev@.len() ==> {
                        &&& (#[trigger] ev@[t]) is Child
                        &&& ev@[t]->Child_graph.store == self.store
                        &&& ev@[t]->Child_graph.wf()
                        &&& graph_above(ev@[t]->Child_graph.graph@, self.lo())
                    },
                r@.len() == i,
                forall|t: int|
                    0 <= t < r@.len() ==> {
                        &&& (#[trigger] r@[t]).store == self.store
                        &&& r@[t].wf()
                        &&& graph_above(r@[t].graph@, self.lo())
                        &&& r@[t].graph@ == ev@[t]->Child_graph.graph@
                    },
            decreases n - i,
        {
            match &ev[i] {
                SpanGraphEventRef::Child { graph } => {
                    r.push(graph.clone());
                },
                SpanGraphEventRef::SelfTime { .. } => {
                    proof {
                        assert(false);
                    }
                },
            }
            i = i + 1;
        }
        proof {
            assert(r@.map_values(|g: SpanGraphRef<'a>| g.graph@) =~= ev@.map_values(
                |e: SpanGraphEventRef<'a>| e->Child_graph.graph@,
            ));
        }
        r
    }

    /// The candidate list whose grouping this node's nesting follows: a
    /// single-span node shows its span's aggregation, a wider node the
    /// grouping of its members' children outside the shared name.
    pub open spec fn nesting_cands(&self) -> Seq<int> {
        if self.graph@.count() == 1 {
            child_ids(self.store@[self.graph@.root_spans[0]].events)
        } else {
            self.nested_cands()
        }
    }

    /// Nesting height of the aggregation below this node: zero exactly
    /// when nothing groups below it, else one more than the children's
    /// height (capped at the integer range).
    pub fn max_depth(&self) -> (r: u32)
        requires
            self.wf(),
        ensures
            r == 0 <==> group_roots(self.store@, self.nesting_cands()).len() == 0,
        decreases self.store@.len() - self.lo(),
    {
        proof {
            lemma_seq_min(self.graph@.members());
        }
        let ch = self.children();
        proof {
            assert(ch@.map_values(|g: SpanGraphRef<'a>| g.graph@).len() == group_roots(
                self.store@,
                self.nesting_cands(),
            ).len());
        }
        let n = ch.len();
        let mut m: u32 = 0;
        let mut i: usize = 0;
        while i < n
            invariant
                self.wf(),
                0 <= i <= n,
                n == ch@.len(),
                forall|t: int|
                    0 <= t < ch@.len() ==> {
                        &&& (#[trigger] ch@[t]).store == self.store
                        &&& ch@[t].wf()
                        &&& graph_above(ch@[t].graph@, self.lo())
                    },
                i == 0 ==> m == 0,
                i >= 1 ==> m >= 1,
            decreases n - i,
        {
            proof {
                lemma_seq_min(ch@[i as int].graph@.members());
            }
            let d = ch[i].max_depth();
            let d1 = if d == u32::MAX {
                u32::MAX
            } else {
                d + 1
            };
            if d1 > m {
                m = d1;
            }
            i = i + 1;
        }
        m
    }
}

impl<'a> SpanGraphEventRef<'a> {
    pub fn corrected_total_time(&self) -> (r: u64)
        requires
            self matches SpanGraphEventRef::Child { graph } ==> graph.wf(),
        ensures
            match self {
                SpanGraphEventRef::SelfTime { duration } => r == duration,
                SpanGraphEventRef::Child { graph } => r as int == sat_sum_total(
                    graph.store@,
                    graph.graph@.root_spans,
                ),
            },
    {
        match self {
            SpanGraphEventRef::SelfTime { duration } => *duration,
            SpanGraphEventRef::Child { graph } => graph.corrected_total_time(),
        }
    }
}

} // verus!
