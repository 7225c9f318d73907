use vstd::prelude::*;
use crate::span::{EventView, SpanView};

verus! {

/// The mathematical store: one record per slot, slot 0 being the root
/// sentinel. All derived metrics are defined over this sequence.
pub type StoreView = Seq<SpanView>;

/// Hard cap on the arena. It keeps every encoded span id (`index * 2 + 1`)
/// inside `usize` and every depth inside `u32` on all supported targets.
pub const MAX_SPANS: usize = 0x4000_0000;

pub open spec fn u64_max() -> int {
    0xffff_ffff_ffff_ffff
}

/// Addition of two time values as the store performs it: capped at the
/// largest representable timestamp.
pub open spec fn sat_add(a: int, b: int) -> int {
    if a + b > u64_max() {
        u64_max()
    } else {
        a + b
    }
}

pub open spec fn max_int(a: int, b: int) -> int {
    if a >= b {
        a
    } else {
        b
    }
}

/// The slot whose event list carries `Child { c }`: the recorded parent,
/// or the root sentinel for top-level spans.
pub open spec fn host_of(v: StoreView, c: int) -> int {
    match v[c].parent {
        Some(p) => p,
        None => 0,
    }
}

/// Indices of the direct children listed by an event sequence, in event
/// (= insertion) order.
pub open spec fn child_ids(events: Seq<EventView>) -> Seq<int>
    decreases events.len(),
{
    if events.len() == 0 {
        Seq::empty()
    } else {
        let rest = child_ids(events.drop_last());
        match events.last() {
            EventView::Child { id } => rest.push(id),
            EventView::SelfTime { .. } => rest,
        }
    }
}

pub open spec fn wf_record(v: StoreView, k: int) -> bool {
    &&& (forall|j: int|
        0 <= j < v[k].events.len() && v[k].events[j] is Child ==> k < #[trigger] v[k].events[j]->Child_id
            < v.len())
    &&& (forall|j: int, j2: int|
        0 <= j < v[k].events.len() && 0 <= j2 < v[k].events.len() && v[k].events[j] is Child
            && v[k].events[j2] is Child && #[trigger] v[k].events[j]->Child_id
            == #[trigger] v[k].events[j2]->Child_id ==> j == j2)
    &&& (forall|j: int|
        0 <= j < v[k].events.len() && #[trigger] v[k].events[j] is Child ==> host_of(
            v,
            v[k].events[j]->Child_id,
        ) == k)
    &&& (forall|j: int, j2: int|
        0 <= j < j2 < v[k].events.len() && v[k].events[j] is Child && v[k].events[j2] is Child
            ==> #[trigger] v[k].events[j]->Child_id < #[trigger] v[k].events[j2]->Child_id)
    &&& (forall|j: int|
        0 <= j < v[k].events.len() && #[trigger] v[k].events[j] is SelfTime ==> {
            &&& v[k].events[j]->SelfTime_start <= v[k].events[j]->SelfTime_end <= v[k].self_end
            &&& 0 <= v[k].events[j]->SelfTime_start
        })
    &&& (k >= 1 ==> {
        &&& match v[k].parent {
            Some(p) => 1 <= p < k && v[p].start <= v[k].start,
            None => true,
        }
        &&& v[k].self_end >= v[k].start >= 0
        &&& (v[k].ignore_self_time <==> v[k].name == "thread"@)
        &&& (v[k].ignore_self_time ==> v[k].self_time == 0 && (forall|j: int|
            0 <= j < v[k].events.len() ==> !(#[trigger] v[k].events[j] is SelfTime)))
    })
    &&& 0 <= v[k].self_time <= u64_max()
    &&& 0 <= v[k].self_end <= u64_max()
    &&& 0 <= v[k].start <= u64_max()
}

/// Each non-sentinel slot is announced by exactly one `Child` event of its
/// host. Together with `wf_record` this makes the arena a forest hung off
/// slot 0, with every child created after its parent.
pub open spec fn linked(v: StoreView, c: int) -> bool {
    exists|j: int|
        0 <= j < v[host_of(v, c)].events.len() && #[trigger] v[host_of(v, c)].events[j] is Child
            && v[host_of(v, c)].events[j]->Child_id == c
}

/// Structural well-formedness of the store.
pub open spec fn wf(v: StoreView) -> bool {
    &&& 1 <= v.len() <= MAX_SPANS as int
    &&& v[0].parent is None
    &&& v[0].self_end == u64_max()
    &&& v[0].self_time == 0
    &&& v[0].start == 0
    &&& !v[0].ignore_self_time
    &&& v[0].name == "(root)"@
    &&& v[0].category == Seq::<char>::empty()
    &&& v[0].args == Seq::<(Seq<char>, Seq<char>)>::empty()
    &&& (forall|k: int| 0 <= k < v.len() ==> #[trigger] wf_record(v, k))
    &&& (forall|c: int| 1 <= c < v.len() ==> #[trigger] linked(v, c))
}

/// `end`: the latest self-time seen here or in any descendant.
pub open spec fn spec_end(v: StoreView, i: int) -> int
    decreases v.len() - i, 1int, 0int,
        when 0 <= i < v.len() && wf(v)
{
    max_int(v[i].self_end, end_over_events(v, i, v[i].events.len() as int))
}

pub open spec fn end_over_events(v: StoreView, i: int, j: int) -> int
    decreases v.len() - i, 0int, j,
        when 0 <= i < v.len() && 0 <= j <= v[i].events.len() && wf(v)
{
    if j <= 0 {
        0
    } else {
        let rest = end_over_events(v, i, j - 1);
        match v[i].events[j - 1] {
            EventView::Child { id } => if i < id < v.len() {
                max_int(rest, spec_end(v, id))
            } else {
                rest
            },
            EventView::SelfTime { .. } => rest,
        }
    }
}

/// `total_time`: own self time plus the children's total times, with
/// saturating addition.
pub open spec fn spec_total_time(v: StoreView, i: int) -> int
    decreases v.len() - i, 1int, 0int,
        when 0 <= i < v.len() && wf(v)
{
    sat_add(total_over_events(v, i, v[i].events.len() as int), v[i].self_time)
}

pub open spec fn total_over_events(v: StoreView, i: int, j: int) -> int
    decreases v.len() - i, 0int, j,
        when 0 <= i < v.len() && 0 <= j <= v[i].events.len() && wf(v)
{
    if j <= 0 {
        0
    } else {
        let rest = total_over_events(v, i, j - 1);
        match v[i].events[j - 1] {
            EventView::Child { id } => if i < id < v.len() {
                sat_add(rest, spec_total_time(v, id))
            } else {
                rest
            },
            EventView::SelfTime { .. } => rest,
        }
    }
}

/// `max_depth`: height of the subtree below `i`; a leaf has depth 0.
pub open spec fn spec_max_depth(v: StoreView, i: int) -> int
    decreases v.len() - i, 1int, 0int,
        when 0 <= i < v.len() && wf(v)
{
    depth_over_events(v, i, v[i].events.len() as int)
}

pub open spec fn depth_over_events(v: StoreView, i: int, j: int) -> int
    decreases v.len() - i, 0int, j,
        when 0 <= i < v.len() && 0 <= j <= v[i].events.len() && wf(v)
{
    if j <= 0 {
        0
    } else {
        let rest = depth_over_events(v, i, j - 1);
        match v[i].events[j - 1] {
            EventView::Child { id } => if i < id < v.len() {
                max_int(rest, spec_max_depth(v, id) + 1)
            } else {
                rest
            },
            EventView::SelfTime { .. } => rest,
        }
    }
}

/// Number of spans in the subtree rooted at `i`, the span itself included.
pub open spec fn subtree_size(v: StoreView, i: int) -> int
    decreases v.len() - i, 1int, 0int,
        when 0 <= i < v.len() && wf(v)
{
    1 + size_over_events(v, i, v[i].events.len() as int)
}

pub open spec fn size_over_events(v: StoreView, i: int, j: int) -> int
    decreases v.len() - i, 0int, j,
        when 0 <= i < v.len() && 0 <= j <= v[i].events.len() && wf(v)
{
    if j <= 0 {
        0
    } else {
        let rest = size_over_events(v, i, j - 1);
        match v[i].events[j - 1] {
            EventView::Child { id } => if i < id < v.len() {
                rest + subtree_size(v, id)
            } else {
                rest
            },
            EventView::SelfTime { .. } => rest,
        }
    }
}

pub proof fn lemma_end_bounds(v: StoreView, i: int)
    requires
        wf(v),
        0 <= i < v.len(),
    ensures
        v[i].self_end <= spec_end(v, i) <= u64_max(),
    decreases v.len() - i, 1int, 0int,
{
    assert(wf_record(v, i));
    lemma_end_over_events_bounds(v, i, v[i].events.len() as int);
}

proof fn lemma_end_over_events_bounds(v: StoreView, i: int, j: int)
    requires
        wf(v),
        0 <= i < v.len(),
        0 <= j <= v[i].events.len(),
    ensures
        0 <= end_over_events(v, i, j) <= u64_max(),
    decreases v.len() - i, 0int, j,
{
    assert(wf_record(v, i));
    if j > 0 {
        lemma_end_over_events_bounds(v, i, j - 1);
        match v[i].events[j - 1] {
            EventView::Child { id } => {
                if i < id < v.len() {
                    lemma_end_bounds(v, id);
                }
            },
            EventView::SelfTime { .. } => {},
        }
    }
}

pub proof fn lemma_total_bounds(v: StoreView, i: int)
    requires
        wf(v),
        0 <= i < v.len(),
    ensures
        0 <= spec_total_time(v, i) <= u64_max(),
    decreases v.len() - i, 1int, 0int,
{
    assert(wf_record(v, i));
    lemma_total_over_events_bounds(v, i, v[i].events.len() as int);
}

proof fn lemma_total_over_events_bounds(v: StoreView, i: int, j: int)
    requires
        wf(v),
        0 <= i < v.len(),
        0 <= j <= v[i].events.len(),
    ensures
        0 <= total_over_events(v, i, j) <= u64_max(),
    decreases v.len() - i, 0int, j,
{
    assert(wf_record(v, i));
    if j > 0 {
        lemma_total_over_events_bounds(v, i, j - 1);
        match v[i].events[j - 1] {
            EventView::Child { id } => {
                if i < id < v.len() {
                    lemma_total_bounds(v, id);
                }
            },
            EventView::SelfTime { .. } => {},
        }
    }
}

pub proof fn lemma_depth_bounds(v: StoreView, i: int)
    requires
        wf(v),
        0 <= i < v.len(),
    ensures
        0 <= spec_max_depth(v, i) <= v.len() - i - 1,
    decreases v.len() - i, 1int, 0int,
{
    assert(wf_record(v, i));
    lemma_depth_over_events_bounds(v, i, v[i].events.len() as int);
}

proof fn lemma_depth_over_events_bounds(v: StoreView, i: int, j: int)
    requires
        wf(v),
        0 <= i < v.len(),
        0 <= j <= v[i].events.len(),
    ensures
        0 <= depth_over_events(v, i, j) <= v.len() - i - 1,
    decreases v.len() - i, 0int, j,
{
    assert(wf_record(v, i));
    if j > 0 {
        lemma_depth_over_events_bounds(v, i, j - 1);
        match v[i].events[j - 1] {
            EventView::Child { id } => {
                if i < id < v.len() {
                    lemma_depth_bounds(v, id);
                }
            },
            EventView::SelfTime { .. } => {},
        }
    }
}

pub proof fn lemma_size_bounds(v: StoreView, i: int)
    requires
        wf(v),
        0 <= i < v.len(),
    ensures
        1 <= subtree_size(v, i),
    decreases v.len() - i, 1int, 0int,
{
    assert(wf_record(v, i));
    lemma_size_over_events_bounds(v, i, v[i].events.len() as int);
}

proof fn lemma_size_over_events_bounds(v: StoreView, i: int, j: int)
    requires
        wf(v),
        0 <= i < v.len(),
        0 <= j <= v[i].events.len(),
    ensures
        0 <= size_over_events(v, i, j),
    decreases v.len() - i, 0int, j,
{
    assert(wf_record(v, i));
    if j > 0 {
        lemma_size_over_events_bounds(v, i, j - 1);
        match v[i].events[j - 1] {
            EventView::Child { id } => {
                if i < id < v.len() {
                    lemma_size_bounds(v, id);
                }
            },
            EventView::SelfTime { .. } => {},
        }
    }
}

/// Combined size of the subtrees hanging off a worklist of span indices:
/// the termination measure of the breadth-first grouping walks.
pub open spec fn sum_sizes(v: StoreView, q: Seq<int>) -> int
    decreases q.len(),
{
    if q.len() == 0 {
        0
    } else {
        subtree_size(v, q[0]) + sum_sizes(v, q.skip(1))
    }
}

pub proof fn lemma_sum_sizes_push(v: StoreView, q: Seq<int>, x: int)
    ensures
        sum_sizes(v, q.push(x)) == sum_sizes(v, q) + subtree_size(v, x),
    decreases q.len(),
{
    assert(sum_sizes(v, q.push(x)) == subtree_size(v, q.push(x)[0]) + sum_sizes(
        v,
        q.push(x).skip(1),
    ));
    if q.len() == 0 {
        assert(q.push(x)[0] == x);
        assert(q.push(x).skip(1) =~= Seq::<int>::empty());
        assert(sum_sizes(v, q.push(x).skip(1)) == 0);
    } else {
        assert(q.push(x)[0] == q[0]);
        assert(q.push(x).skip(1) =~= q.skip(1).push(x));
        lemma_sum_sizes_push(v, q.skip(1), x);
    }
}

pub proof fn lemma_sum_sizes_skip(v: StoreView, q: Seq<int>, h: int)
    requires
        0 <= h < q.len(),
    ensures
        sum_sizes(v, q.skip(h)) == subtree_size(v, q[h]) + sum_sizes(v, q.skip(h + 1)),
{
    assert(q.skip(h)[0] == q[h]);
    assert(q.skip(h).skip(1) =~= q.skip(h + 1));
}

pub proof fn lemma_sum_sizes_nonneg(v: StoreView, q: Seq<int>)
    requires
        wf(v),
        forall|t: int| 0 <= t < q.len() ==> 0 <= #[trigger] q[t] < v.len(),
    ensures
        sum_sizes(v, q) >= 0,
    decreases q.len(),
{
    if q.len() > 0 {
        lemma_size_bounds(v, q[0]);
        assert forall|t: int| 0 <= t < q.skip(1).len() implies 0 <= #[trigger] q.skip(1)[t]
            < v.len() by {
            assert(q.skip(1)[t] == q[t + 1]);
        }
        lemma_sum_sizes_nonneg(v, q.skip(1));
    }
}

/// The per-child contributions of `size_over_events` are exactly the
/// subtree sizes of the listed children.
pub proof fn lemma_size_children(v: StoreView, i: int, j: int)
    requires
        wf(v),
        0 <= i < v.len(),
        0 <= j <= v[i].events.len(),
    ensures
        size_over_events(v, i, j) == sum_sizes(v, child_ids(v[i].events.take(j))),
    decreases j,
{
    assert(wf_record(v, i));
    if j == 0 {
        assert(child_ids(v[i].events.take(0)) =~= Seq::<int>::empty());
    } else {
        lemma_size_children(v, i, j - 1);
        assert(v[i].events.take(j).drop_last() =~= v[i].events.take(j - 1));
        assert(v[i].events.take(j).last() == v[i].events[j - 1]);
        match v[i].events[j - 1] {
            EventView::Child { id } => {
                lemma_sum_sizes_push(v, child_ids(v[i].events.take(j - 1)), id);
            },
            EventView::SelfTime { .. } => {},
        }
    }
}

/// First argument value stored under the key `"name"`, if any.
pub open spec fn find_name_arg(args: Seq<(Seq<char>, Seq<char>)>) -> Option<Seq<char>>
    decreases args.len(),
{
    if args.len() == 0 {
        None
    } else if args[0].0 == "name"@ {
        Some(args[0].1)
    } else {
        find_name_arg(args.skip(1))
    }
}

pub open spec fn is_resolve_name(name: Seq<char>) -> bool {
    name == "turbo_tasks::resolve_call"@ || name == "turbo_tasks::resolve_trait_call"@
}

/// The `(category, title)` pair chosen for display.
pub open spec fn spec_nice_name(s: SpanView) -> (Seq<char>, Seq<char>) {
    match find_name_arg(s.args) {
        Some(n) => if is_resolve_name(s.name) {
            (s.name + " "@ + s.category, "*"@ + n)
        } else {
            (s.name + " "@ + s.category, n)
        },
        None => (s.category, s.name),
    }
}

/// The name under which sibling subtrees are merged into one aggregation
/// node.
pub open spec fn spec_group_name(s: SpanView) -> Seq<char> {
    if s.name == "turbo_tasks::function"@ {
        match find_name_arg(s.args) {
            Some(n) => n,
            None => s.name,
        }
    } else if is_resolve_name(s.name) {
        match find_name_arg(s.args) {
            Some(n) => "*"@ + n,
            None => s.name,
        }
    } else {
        s.name
    }
}

} // verus!
