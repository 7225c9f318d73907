use vstd::prelude::*;
use vstd::arithmetic::power::pow;
use vstd::arithmetic::power::lemma_pow_positive;
use itertools::Itertools;
use crate::server::ViewRect;
use crate::store::{SpanGraphEventRef, SpanGraphRef, SpanRef, Store, graph_wf, sat_sum_total};
use crate::span::GraphView;
use crate::model::{spec_max_depth, spec_nice_name, spec_group_name};
use crate::model::spec_total_time;
use vstd::string::StringExecFns;

verus! {

/// How far beyond the viewport, in percent of its width, spans are still
/// emitted, so that panning stays smooth.
pub const EXTRA_WIDTH_PERCENTAGE: u64 = 20;

/// How many lines below the viewport are still laid out.
pub const EXTRA_HEIGHT: u64 = 5;

/// Spans narrower than this many pixels collapse into their neighbours.
pub const MIN_VISIBLE_PIXEL_SIZE: u64 = 3;

#[derive(Clone, Copy)]
pub enum ViewMode {
    RawSpans { sorted: bool },
    Aggregated { sorted: bool },
}

/// Per-connection state: the user's expand and collapse choices, one
/// optional `(mode, inherit)` pair per span id.
pub struct Viewer {
    pub span_options: Vec<(usize, Option<(ViewMode, bool)>)>,
}

pub struct ViewLineUpdate {
    pub y: u64,
    pub spans: Vec<ViewSpan>,
}

pub struct ViewSpan {
    pub id: u64,
    pub start: u64,
    pub width: u64,
    pub category: String,
    pub text: String,
    pub count: u64,
}

/// First stored choice for `id`, if any.
pub open spec fn opts_get(s: Seq<(usize, Option<(ViewMode, bool)>)>, id: usize) -> Option<
    Option<(ViewMode, bool)>,
>
    decreases s.len(),
{
    if s.len() == 0 {
        None
    } else if s[0].0 == id {
        Some(s[0].1)
    } else {
        opts_get(s.skip(1), id)
    }
}

pub proof fn lemma_opts_get_append(
    s: Seq<(usize, Option<(ViewMode, bool)>)>,
    x: (usize, Option<(ViewMode, bool)>),
    k: usize,
)
    ensures
        opts_get(s.push(x), k) == match opts_get(s, k) {
            Some(o) => Some(o),
            None => if x.0 == k {
                Some(x.1)
            } else {
                None
            },
        },
    decreases s.len(),
{
    if s.len() == 0 {
        assert(s.push(x)[0] == x);
        assert(s.push(x).skip(1) =~= Seq::<(usize, Option<(ViewMode, bool)>)>::empty());
        assert(opts_get(Seq::<(usize, Option<(ViewMode, bool)>)>::empty(), k) is None);
        assert(opts_get(s, k) is None);
    } else {
        assert(s.push(x)[0] == s[0]);
        assert(s.push(x).skip(1) =~= s.skip(1).push(x));
        lemma_opts_get_append(s.skip(1), x, k);
    }
}

pub proof fn lemma_opts_get_update(
    s: Seq<(usize, Option<(ViewMode, bool)>)>,
    j: int,
    id: usize,
    mode: Option<(ViewMode, bool)>,
)
    requires
        0 <= j < s.len(),
        s[j].0 == id,
        forall|t: int| 0 <= t < j ==> (#[trigger] s[t]).0 != id,
    ensures
        opts_get(s.update(j, (id, mode)), id) == Some(mode),
        forall|other: usize|
            other != id ==> opts_get(s.update(j, (id, mode)), other) == opts_get(s, other),
    decreases s.len(),
{
    let u = s.update(j, (id, mode));
    if j == 0 {
        assert(u[0] == (id, mode));
        assert(u.skip(1) =~= s.skip(1));
        assert forall|other: usize| other != id implies opts_get(u, other) == opts_get(
            s,
            other,
        ) by {
            assert(u[0].0 == id);
            assert(s[0].0 == id);
        }
    } else {
        assert(u[0] == s[0]);
        assert(u.skip(1) =~= s.skip(1).update(j - 1, (id, mode)));
        assert forall|t: int| 0 <= t < j - 1 implies (#[trigger] s.skip(1)[t]).0 != id by {
            assert(s.skip(1)[t] == s[t + 1]);
        }
        assert(s.skip(1)[j - 1].0 == id);
        lemma_opts_get_update(s.skip(1), j - 1, id, mode);
        assert(s[0].0 != id);
        assert forall|other: usize| other != id implies opts_get(u, other) == opts_get(
            s,
            other,
        ) by {
            assert(opts_get(s.skip(1).update(j - 1, (id, mode)), other) == opts_get(
                s.skip(1),
                other,
            ));
            if u[0].0 != other {
                assert(opts_get(u, other) == opts_get(u.skip(1), other));
                assert(opts_get(s, other) == opts_get(s.skip(1), other));
            }
        }
    }
}

impl Viewer {
    pub fn new() -> (v: Viewer)
        ensures
            v.span_options@.len() == 0,
    {
        Viewer { span_options: Vec::new() }
    }

    /// Stores (or clears, with `None`) the user's choice for one span id.
    pub fn set_view_mode(&mut self, id: usize, view_mode: Option<(ViewMode, bool)>)
        ensures
            opts_get(final(self).span_options@, id) == Some(view_mode),
            forall|other: usize|
                other != id ==> opts_get(final(self).span_options@, other) == opts_get(
                    old(self).span_options@,
                    other,
                ),
    {
        let ghost s0 = self.span_options@;
        let n = self.span_options.len();
        let mut j: usize = 0;
        while j < n
            invariant
                0 <= j <= n,
                n == self.span_options@.len(),
                s0 == self.span_options@,
                s0 == old(self).span_options@,
                forall|t: int| 0 <= t < j ==> (#[trigger] s0[t]).0 != id,
            decreases n - j,
        {
            if self.span_options[j].0 == id {
                self.span_options.remove(j);
                self.span_options.insert(j, (id, view_mode));
                proof {
                    assert(self.span_options@ =~= s0.update(j as int, (id, view_mode)));
                    lemma_opts_get_update(s0, j as int, id, view_mode);
                    assert forall|other: usize| other != id implies opts_get(
                        self.span_options@,
                        other,
                    ) == opts_get(s0, other) by {
                        assert(opts_get(s0.update(j as int, (id, view_mode)), other) == opts_get(
                            s0,
                            other,
                        ));
                    }
                }
                return ;
            }
            j = j + 1;
        }
        self.span_options.push((id, view_mode));
        proof {
            lemma_opts_get_append(s0, (id, view_mode), id);
            assert forall|other: usize| other != id implies opts_get(
                self.span_options@,
                other,
            ) == opts_get(s0, other) by {
                lemma_opts_get_append(s0, (id, view_mode), other);
                if opts_get(s0, other) is None {
                }
            }
            assert(opts_get(self.span_options@, id) == Some(view_mode)) by {
                if opts_get(s0, id) is Some {
                    lemma_opts_get_some_index(s0, id);
                }
            }
        }
    }

    /// The stored choice for `id`, if any.
    pub fn get_view_mode(&self, id: usize) -> (r: Option<(ViewMode, bool)>)
        ensures
            r == match opts_get(self.span_options@, id) {
                Some(o) => o,
                None => None,
            },
    {
        let ghost s0 = self.span_options@;
        let n = self.span_options.len();
        let mut j: usize = 0;
        proof {
            assert(s0.skip(0) =~= s0);
        }
        while j < n
            invariant
                0 <= j <= n,
                n == self.span_options@.len(),
                s0 == self.span_options@,
                opts_get(s0, id) == opts_get(s0.skip(j as int), id),
            decreases n - j,
        {
            proof {
                assert(s0.skip(j as int)[0] == s0[j as int]);
                assert(s0.skip(j as int).skip(1) =~= s0.skip(j + 1));
            }
            if self.span_options[j].0 == id {
                return self.span_options[j].1;
            }
            j = j + 1;
        }
        None
    }
}

/// A present key is found at some position.
pub proof fn lemma_opts_get_some_index(s: Seq<(usize, Option<(ViewMode, bool)>)>, id: usize)
    requires
        opts_get(s, id) is Some,
    ensures
        exists|t: int| 0 <= t < s.len() && (#[trigger] s[t]).0 == id,
    decreases s.len(),
{
    if s.len() > 0 {
        if s[0].0 == id {
            assert(0 <= 0 < s.len() && s[0].0 == id);
        } else {
            lemma_opts_get_some_index(s.skip(1), id);
            let t = choose|t: int| 0 <= t < s.skip(1).len() && (#[trigger] s.skip(1)[t]).0 == id;
            assert(s[t + 1].0 == id);
        }
    }
}

/// Stable descending insertion by the first component: the new element
/// goes after every element whose key is at least as large.
pub open spec fn insert_desc<T>(s: Seq<(u64, T)>, x: (u64, T)) -> Seq<(u64, T)>
    decreases s.len(),
{
    if s.len() == 0 {
        seq![x]
    } else if s[0].0 >= x.0 {
        seq![s[0]] + insert_desc(s.skip(1), x)
    } else {
        seq![x] + s
    }
}

/// The stable sort by descending first component.
pub open spec fn spec_sort_desc<T>(s: Seq<(u64, T)>) -> Seq<(u64, T)>
    decreases s.len(),
{
    if s.len() == 0 {
        s
    } else {
        insert_desc(spec_sort_desc(s.drop_last()), s.last())
    }
}

pub proof fn lemma_insert_desc_contains<T>(s: Seq<(u64, T)>, x: (u64, T), y: (u64, T))
    ensures
        insert_desc(s, x).contains(y) <==> (s.contains(y) || y == x),
    decreases s.len(),
{
    if s.len() == 0 {
        assert(insert_desc(s, x) =~= seq![x]);
        assert(insert_desc(s, x).contains(y) <==> y == x) by {
            if y == x {
                assert(insert_desc(s, x)[0] == x);
            }
        }
    } else if s[0].0 >= x.0 {
        lemma_insert_desc_contains(s.skip(1), x, y);
        let r = seq![s[0]] + insert_desc(s.skip(1), x);
        assert(r[0] == s[0]);
        assert forall|t: int| 0 <= t < insert_desc(s.skip(1), x).len() implies r[t + 1]
            == insert_desc(s.skip(1), x)[t] by {}
        if r.contains(y) {
            let t = choose|t: int| 0 <= t < r.len() && r[t] == y;
            if t == 0 {
                assert(s.contains(y)) by {
                    assert(s[0] == y);
                }
            } else {
                assert(insert_desc(s.skip(1), x)[t - 1] == y);
                assert(insert_desc(s.skip(1), x).contains(y));
                if s.skip(1).contains(y) {
                    let u = choose|u: int| 0 <= u < s.skip(1).len() && s.skip(1)[u] == y;
                    assert(s[u + 1] == y);
                    assert(s.contains(y));
                }
            }
        }
        if s.contains(y) {
            let t = choose|t: int| 0 <= t < s.len() && s[t] == y;
            if t == 0 {
                assert(r[0] == y);
                assert(r.contains(y));
            } else {
                assert(s.skip(1)[t - 1] == y);
                assert(s.skip(1).contains(y));
                let u = choose|u: int|
                    0 <= u < insert_desc(s.skip(1), x).len() && insert_desc(s.skip(1), x)[u] == y;
                assert(r[u + 1] == y);
                assert(r.contains(y));
            }
        }
        if y == x {
            let u = choose|u: int|
                0 <= u < insert_desc(s.skip(1), x).len() && insert_desc(s.skip(1), x)[u] == y;
            assert(r[u + 1] == y);
            assert(r.contains(y));
        }
    } else {
        let r = seq![x] + s;
        assert(r[0] == x);
        if r.contains(y) {
            let t = choose|t: int| 0 <= t < r.len() && r[t] == y;
            if t > 0 {
                assert(s[t - 1] == y);
                assert(s.contains(y));
            }
        }
        if s.contains(y) {
            let t = choose|t: int| 0 <= t < s.len() && s[t] == y;
            assert(r[t + 1] == y);
            assert(r.contains(y));
        }
    }
}

pub proof fn lemma_insert_desc_len<T>(s: Seq<(u64, T)>, x: (u64, T))
    ensures
        insert_desc(s, x).len() == s.len() + 1,
    decreases s.len(),
{
    if s.len() > 0 && s[0].0 >= x.0 {
        lemma_insert_desc_len(s.skip(1), x);
    }
}

pub proof fn lemma_sort_desc_len<T>(s: Seq<(u64, T)>)
    ensures
        spec_sort_desc(s).len() == s.len(),
    decreases s.len(),
{
    if s.len() > 0 {
        lemma_sort_desc_len(s.drop_last());
        lemma_insert_desc_len(spec_sort_desc(s.drop_last()), s.last());
    }
}

pub proof fn lemma_sort_desc_contains<T>(s: Seq<(u64, T)>, y: (u64, T))
    ensures
        spec_sort_desc(s).contains(y) <==> s.contains(y),
    decreases s.len(),
{
    if s.len() > 0 {
        lemma_sort_desc_contains(s.drop_last(), y);
        lemma_insert_desc_contains(spec_sort_desc(s.drop_last()), s.last(), y);
        if s.contains(y) {
            let t = choose|t: int| 0 <= t < s.len() && s[t] == y;
            if t < s.len() - 1 {
                assert(s.drop_last()[t] == y);
                assert(s.drop_last().contains(y));
            }
        }
        if s.drop_last().contains(y) {
            let t = choose|t: int| 0 <= t < s.drop_last().len() && s.drop_last()[t] == y;
            assert(s[t] == y);
            assert(s.contains(y));
        }
        if y == s.last() {
            assert(s[s.len() - 1] == y);
            assert(s.contains(y));
        }
    }
}

/// Relies on itertools' sorted_by_cached_key: a stable sort by the cached
/// key, here descending on the first component.
#[verifier::external_body]
fn sorted_desc_by_first<T>(v: Vec<(u64, T)>) -> (r: Vec<(u64, T)>)
    ensures
        r@ == spec_sort_desc(v@),
{
    v.into_iter().sorted_by_cached_key(|p: &(u64, T)| std::cmp::Reverse(p.0)).collect()
}

/// One unit of layout work: a span or an aggregation node.
pub enum QueueItem<'a> {
    Span(SpanRef<'a>),
    SpanGraph(SpanGraphRef<'a>),
}

impl<'a> QueueItem<'a> {
    pub open spec fn wf(&self) -> bool {
        match self {
            QueueItem::Span(s) => s.wf() && 1 <= s.index,
            QueueItem::SpanGraph(g) => g.wf(),
        }
    }

    pub fn corrected_total_time(&self) -> (r: u64)
        requires
            self.wf(),
        ensures
            match self {
                QueueItem::Span(s) => r as int == spec_total_time(s.store@, s.index as int),
                QueueItem::SpanGraph(g) => r as int == sat_sum_total(
                    g.store@,
                    g.graph@.root_spans,
                ),
            },
    {
        match self {
            QueueItem::Span(s) => s.corrected_total_time(),
            QueueItem::SpanGraph(g) => g.corrected_total_time(),
        }
    }

    pub fn max_depth(&self) -> (r: u32)
        requires
            self.wf(),
        ensures
            match self {
                QueueItem::Span(s) => r as int == crate::model::spec_max_depth(
                    s.store@,
                    s.index as int,
                ),
                QueueItem::SpanGraph(g) => true,
            },
    {
        match self {
            QueueItem::Span(s) => s.max_depth(),
            QueueItem::SpanGraph(g) => g.max_depth(),
        }
    }
}

pub open spec fn qitem_ok<'a>(it: QueueItem<'a>, store: &Store) -> bool {
    match it {
        QueueItem::Span(s) => s.wf() && 1 <= s.index && s.store == store,
        QueueItem::SpanGraph(g) => g.wf() && g.store == store,
    }
}

pub struct QueueItemWithState<'a> {
    pub item: QueueItem<'a>,
    pub line_index: usize,
    pub start: u64,
    pub placeholder: bool,
    pub view_mode: ViewMode,
}

pub struct LineEntry<'a> {
    pub start: u64,
    pub width: u64,
    pub ty: LineEntryType<'a>,
}

pub enum LineEntryType<'a> {
    Placeholder,
    Span(SpanRef<'a>),
    SpanGraph(SpanGraphRef<'a>),
}

pub open spec fn entry_wf<'a>(e: LineEntry<'a>, store: &Store) -> bool {
    match e.ty {
        LineEntryType::Placeholder => true,
        LineEntryType::Span(s) => s.wf() && 1 <= s.index && s.store == store && e.width as int
            == spec_total_time(store@, s.index as int),
        LineEntryType::SpanGraph(g) => g.wf() && g.store == store && e.width as int
            == sat_sum_total(store@, g.graph@.root_spans),
    }
}

/// What every emitted rectangle is: a placeholder, or a span with its
/// display pair and corrected total time, or an aggregation node with its
/// id, member count and display pair.
pub open spec fn view_span_ok(v: crate::model::StoreView, vs: ViewSpan) -> bool {
    ||| {
        &&& vs.id == 0
        &&& vs.category@ == Seq::<char>::empty()
        &&& vs.text@ == Seq::<char>::empty()
        &&& vs.count == 1
    }
    ||| (exists|idx: int|
        {
            &&& 1 <= idx < v.len()
            &&& vs.id as int == 2 * idx
            &&& vs.width as int == #[trigger] spec_total_time(v, idx)
            &&& vs.category@ == spec_nice_name(v[idx]).0
            &&& vs.text@ == spec_nice_name(v[idx]).1
            &&& vs.count == 1
        })
    ||| (exists|g: GraphView|
        {
            &&& #[trigger] graph_wf(v, g)
            &&& vs.id as int == 2 * g.root_spans[0] + 1
            &&& vs.width as int == sat_sum_total(v, g.root_spans)
            &&& vs.count as int == (if g.count() > usize::MAX as int {
                usize::MAX as int
            } else {
                g.count()
            })
            &&& (g.count() == 1 ==> vs.category@ == spec_nice_name(v[g.root_spans[0]]).0
                && vs.text@ == spec_nice_name(v[g.root_spans[0]]).1)
            &&& (g.count() != 1 ==> vs.category@ == Seq::<char>::empty() && vs.text@
                == spec_group_name(v[g.root_spans[0]]))
        })
}

/// A rectangle lies inside the viewport widened by the extra percentage
/// on both sides.
pub open spec fn within_widened(rect: ViewRect, start: int, width: int) -> bool {
    &&& start <= rect.x + rect.width * (100 + EXTRA_WIDTH_PERCENTAGE) as int / 100
    &&& rect.x as int <= rect.width * (EXTRA_WIDTH_PERCENTAGE as int) / 100 + start + width
}

/// Base of the layout-termination potential: strictly more than any
/// number of children one step can enqueue.
pub open spec fn qbase() -> int {
    0x1_0000_0000_0000_0000
}

/// Items at or below the cull line carry weight that shrinks with depth;
/// items beyond it weigh one unit each.
pub open spec fn rank(bound: int, l: int) -> nat {
    if l <= bound {
        (bound + 1 - l) as nat
    } else {
        0
    }
}

pub open spec fn qpot(bound: int, ls: Seq<int>) -> int
    decreases ls.len(),
{
    if ls.len() == 0 {
        0
    } else {
        qpot(bound, ls.drop_last()) + pow(qbase(), rank(bound, ls.last()))
    }
}

pub open spec fn qlines<'a>(q: Seq<QueueItemWithState<'a>>) -> Seq<int> {
    q.map_values(|it: QueueItemWithState<'a>| it.line_index as int)
}

pub proof fn lemma_qpot_nonneg(bound: int, ls: Seq<int>)
    ensures
        qpot(bound, ls) >= 0,
    decreases ls.len(),
{
    if ls.len() > 0 {
        lemma_qpot_nonneg(bound, ls.drop_last());
        lemma_pow_positive(qbase(), rank(bound, ls.last()));
    }
}

pub proof fn lemma_qpot_push(bound: int, ls: Seq<int>, x: int)
    ensures
        qpot(bound, ls.push(x)) == qpot(bound, ls) + pow(qbase(), rank(bound, x)),
{
    assert(ls.push(x).drop_last() =~= ls);
    assert(ls.push(x).last() == x);
}

/// Display pair without the resolve-call starring: when an argument
/// named `"name"` exists, the category becomes `"{name} {category}"` and
/// the title the argument value; else the raw category and name.
pub fn nice_name(span: &SpanRef<'_>) -> (r: (String, String))
    requires
        span.wf(),
    ensures
        match crate::model::find_name_arg(span.v().args) {
            Some(n) => r.0@ == span.v().name + " "@ + span.v().category && r.1@ == n,
            None => r.0@ == span.v().category && r.1@ == span.v().name,
        },
{
    match crate::store::find_name_arg_exec(span.args()) {
        Some(n) => {
            let cat = span.name().clone().concat(" ").concat(span.category().as_str());
            (cat, n)
        },
        None => (span.category().clone(), span.name().clone()),
    }
}

/// Grows the line list so that line `i` exists.
pub fn get_line<'a>(lines: &mut Vec<Vec<LineEntry<'a>>>, i: usize)
    ensures
        final(lines)@.len() > i,
        final(lines)@.len() == if old(lines)@.len() > i {
            old(lines)@.len() as int
        } else {
            i + 1
        },
        forall|k: int| 0 <= k < old(lines)@.len() ==> final(lines)@[k] == old(lines)@[k],
        forall|k: int|
            old(lines)@.len() <= k < final(lines)@.len() ==> (#[trigger] final(lines)@[k])@.len()
                == 0,
    decreases 0int,
{
    while lines.len() <= i
        invariant
            forall|k: int| 0 <= k < old(lines)@.len() ==> lines@[k] == old(lines)@[k],
            forall|k: int|
                old(lines)@.len() <= k < lines@.len() ==> (#[trigger] lines@[k])@.len() == 0,
            lines@.len() >= old(lines)@.len(),
            lines@.len() <= if old(lines)@.len() > i {
                old(lines)@.len() as int
            } else {
                i + 1
            },
        decreases i + 1 - lines@.len(),
    {
        let e: Vec<LineEntry<'a>> = Vec::new();
        lines.push(e);
    }
}

impl Viewer {
    /// Projects the span forest into view lines for the given viewport:
    /// roots are packed side by side on line 0 in order of their end
    /// times, every deeper line holds one tree level, lines far below the
    /// viewport are culled, and on lines other than the first, rectangles
    /// outside the viewport widened by the extra margin are culled as
    /// well. Neighbours narrower than the minimum pixel width collapse
    /// into a placeholder standing for the deeper subtree.
    pub fn compute_update(&self, store: &Store, view_rect: &ViewRect) -> (r: Vec<ViewLineUpdate>)
        requires
            store.readable(),
            view_rect.width >= 1,
        ensures
            forall|k: int| 0 <= k < r@.len() ==> (#[trigger] r@[k]).y as int == k,
            forall|k: int, t: int|
                1 <= k < r@.len() && 0 <= t < r@[k].spans@.len() ==> within_widened(
                    *view_rect,
                    (#[trigger] r@[k].spans@[t]).start as int,
                    r@[k].spans@[t].width as int,
                ),
            r@.len() as int <= view_rect.y + view_rect.height + EXTRA_HEIGHT + 1,
            forall|k: int| 0 <= k < r@.len() ==> (#[trigger] r@[k]).spans@.len() >= 1,
            forall|k: int, t: int|
                0 <= k < r@.len() && 0 <= t < r@[k].spans@.len() ==> view_span_ok(
                    store@,
                    #[trigger] r@[k].spans@[t],
                ),
            r@.len() >= 1 <==> crate::model::child_ids(store@[0].events).len() >= 1,
    {
        let rx = view_rect.x;
        let rw = view_rect.width;
        let hp = view_rect.horizontal_pixels;
        let vb1 = if view_rect.y > u64::MAX - view_rect.height {
            u64::MAX
        } else {
            view_rect.y + view_rect.height
        };
        let vb2 = if vb1 > u64::MAX - EXTRA_HEIGHT {
            u64::MAX
        } else {
            vb1 + EXTRA_HEIGHT
        };
        // a line beyond the index range could never be materialised
        let line_cap = usize::MAX as u64 - 1;
        let vbound = if vb2 > line_cap {
            line_cap
        } else {
            vb2
        };
        let ghost vb = vbound as int;
        proof {
            assert(vb <= view_rect.y + view_rect.height + EXTRA_HEIGHT);
        }

        // lay the roots out side by side, sorted by their end times
        let roots = store.root_spans();
        let nroots = roots.len();
        let mut keyed: Vec<(u64, SpanRef<'_>)> = Vec::new();
        let mut i: usize = 0;
        while i < nroots
            invariant
                store.readable(),
                0 <= i <= nroots,
                nroots == roots@.len(),
                forall|t: int|
                    0 <= t < roots@.len() ==> (#[trigger] roots@[t]).store == store
                        && roots@[t].wf() && 1 <= roots@[t].index,
                forall|t: int|
                    0 <= t < keyed@.len() ==> (#[trigger] keyed@[t]).1.store == store
                        && keyed@[t].1.wf() && 1 <= keyed@[t].1.index,
                keyed@.len() == i,
            decreases nroots - i,
        {
            let sp = roots[i];
            let end = sp.end();
            keyed.push((u64::MAX - end, sp));
            i = i + 1;
        }
        let ghost nroots_spec = crate::model::child_ids(store@[0].events).len() as int;
        proof {
            assert(roots@.len() == nroots_spec);
            assert(keyed@.len() == nroots_spec);
        }
        let keyed_sorted = sorted_desc_by_first(keyed);
        proof {
            lemma_sort_desc_len(keyed@);
            assert forall|t: int| 0 <= t < keyed_sorted@.len() implies (#[trigger] keyed_sorted@[
                t
            ]).1.store == store && keyed_sorted@[t].1.wf() && 1 <= keyed_sorted@[t].1.index by {
                lemma_sort_desc_contains(keyed@, keyed_sorted@[t]);
                assert(keyed_sorted@.contains(keyed_sorted@[t]));
                let u = choose|u: int| 0 <= u < keyed@.len() && keyed@[u] == keyed_sorted@[t];
            }
        }
        let mut ordered: Vec<QueueItemWithState<'_>> = Vec::new();
        let mut current: u64 = 0;
        let nk = keyed_sorted.len();
        let mut i2: usize = 0;
        while i2 < nk
            invariant
                store.readable(),
                0 <= i2 <= nk,
                nk == keyed_sorted@.len(),
                forall|t: int|
                    0 <= t < keyed_sorted@.len() ==> (#[trigger] keyed_sorted@[t]).1.store == store
                        && keyed_sorted@[t].1.wf() && 1 <= keyed_sorted@[t].1.index,
                forall|t: int|
                    0 <= t < ordered@.len() ==> qitem_ok((#[trigger] ordered@[t]).item, store)
                        && ordered@[t].line_index == 0,
                ordered@.len() == i2,
                nk == nroots_spec,
            decreases nk - i2,
        {
            let sp = keyed_sorted[i2].1;
            let start = sp.start();
            let width = sp.corrected_total_time();
            if start > current {
                current = start;
            }
            ordered.push(
                QueueItemWithState {
                    item: QueueItem::Span(sp),
                    line_index: 0,
                    start: current,
                    placeholder: false,
                    view_mode: ViewMode::RawSpans { sorted: false },
                },
            );
            current = if current > u64::MAX - width {
                u64::MAX
            } else {
                current + width
            };
            i2 = i2 + 1;
        }
        let mut queue: Vec<QueueItemWithState<'_>> = Vec::new();
        loop
            invariant_except_break
                forall|t: int|
                    0 <= t < ordered@.len() ==> qitem_ok((#[trigger] ordered@[t]).item, store)
                        && ordered@[t].line_index == 0,
                forall|t: int|
                    0 <= t < queue@.len() ==> qitem_ok((#[trigger] queue@[t]).item, store)
                        && queue@[t].line_index == 0,
                ordered@.len() + queue@.len() == nroots_spec,
            ensures
                forall|t: int|
                    0 <= t < queue@.len() ==> qitem_ok((#[trigger] queue@[t]).item, store)
                        && queue@[t].line_index == 0,
                queue@.len() == nroots_spec,
            decreases ordered@.len(),
        {
            match ordered.pop() {
                Some(it) => {
                    queue.push(it);
                },
                None => {
                    break ;
                },
            }
        }

        let mut lines: Vec<Vec<LineEntry<'_>>> = Vec::new();

        while queue.len() > 0
            invariant
                store.readable(),
                view_rect.width >= 1,
                rx == view_rect.x,
                rw == view_rect.width,
                hp == view_rect.horizontal_pixels,
                vb == vbound as int,
                vb <= usize::MAX as int - 1,
                forall|t: int|
                    0 <= t < queue@.len() ==> qitem_ok((#[trigger] queue@[t]).item, store)
                        && queue@[t].line_index <= lines@.len(),
                lines@.len() as int <= vb + 1,
                nroots_spec == crate::model::child_ids(store@[0].events).len(),
                nroots_spec >= 1 && lines@.len() == 0 ==> queue@.len() >= 1 && (forall|t: int|
                    0 <= t < queue@.len() ==> (#[trigger] queue@[t]).line_index == 0),
                nroots_spec == 0 ==> queue@.len() == 0 && lines@.len() == 0,
                forall|k: int| 0 <= k < lines@.len() ==> (#[trigger] lines@[k])@.len() >= 1,
                forall|k: int, t: int|
                    0 <= k < lines@.len() && 0 <= t < lines@[k]@.len() ==> entry_wf(
                        #[trigger] lines@[k]@[t],
                        store,
                    ),
                forall|k: int, t: int|
                    1 <= k < lines@.len() && 0 <= t < lines@[k]@.len() ==> within_widened(
                        *view_rect,
                        (#[trigger] lines@[k]@[t]).start as int,
                        lines@[k]@[t].width as int,
                    ),
            decreases qpot(vb, qlines(queue@)),
        {
            let ghost q0 = queue@;
            let ghost phi0 = qpot(vb, qlines(q0));
            proof {
                lemma_qpot_nonneg(vb, qlines(q0).drop_last());
                assert(qlines(q0).drop_last() =~= qlines(q0.drop_last()));
            }
            let it = match queue.pop() {
                Some(it) => it,
                None => {
                    proof {
                        assert(false);
                    }
                    return Vec::new();
                },
            };
            let l = it.line_index;
            let ghost llen0 = lines@.len() as int;
            let ghost rk = rank(vb, l as int);
            let ghost phi_pop = qpot(vb, qlines(queue@));
            proof {
                lemma_pow_positive(qbase(), rk);
                assert(phi_pop == phi0 - pow(qbase(), rk));
            }

            // vertical cull
            if l as u64 > vbound {
                continue ;
            }
            proof {
                assert(l as int <= vb);
                assert(rk >= 1);
                lemma_pow_unfold(qbase(), rk);
                lemma_pow_positive(qbase(), (rk - 1) as nat);
            }

            let width = it.item.corrected_total_time();

            // horizontal cull, away from the root line
            if l > 0 {
                proof {
                    vstd::arithmetic::mul::lemma_mul_upper_bound(
                        rw as int,
                        u64::MAX as int,
                        (100 + EXTRA_WIDTH_PERCENTAGE) as int,
                        120,
                    );
                }
                let far = rx as u128 + (rw as u128 * (100 + EXTRA_WIDTH_PERCENTAGE) as u128)
                    / 100;
                if it.start as u128 > far {
                    continue ;
                }
                proof {
                    vstd::arithmetic::mul::lemma_mul_upper_bound(
                        rw as int,
                        u64::MAX as int,
                        EXTRA_WIDTH_PERCENTAGE as int,
                        20,
                    );
                }
                let margin = (rw as u128 * EXTRA_WIDTH_PERCENTAGE as u128) / 100;
                let lower = if rx as u128 > margin {
                    rx as u128 - margin
                } else {
                    0
                };
                if (it.start as u128 + width as u128) < lower {
                    continue ;
                }
            }

            // resolve the effective view mode
            let id = match &it.item {
                QueueItem::Span(s) => s.id(),
                QueueItem::SpanGraph(g) => g.id(),
            };
            let (selected, inherit) = match self.get_view_mode(id) {
                Some(p) => p,
                None => (it.view_mode, false),
            };
            let (show_children, sorted_flag) = match selected {
                ViewMode::RawSpans { sorted } => (true, sorted),
                ViewMode::Aggregated { sorted } => (false, sorted),
            };
            let child_mode = if inherit {
                selected
            } else {
                it.view_mode
            };

            // gather the children of the selected view
            let mut kids: Vec<(u64, QueueItem<'_>)> = Vec::new();
            match &it.item {
                QueueItem::Span(s) => {
                    if show_children {
                        let cs = s.children();
                        let ncs = cs.len();
                        let mut ci: usize = 0;
                        while ci < ncs
                            invariant
                                store.readable(),
                                0 <= ci <= ncs,
                                ncs == cs@.len(),
                                forall|t: int|
                                    0 <= t < cs@.len() ==> (#[trigger] cs@[t]).wf() && 1 <= cs@[
                                        t
                                    ].index && cs@[t].store == store,
                                forall|t: int|
                                    0 <= t < kids@.len() ==> qitem_ok(
                                        (#[trigger] kids@[t]).1,
                                        store,
                                    ),
                            decreases ncs - ci,
                        {
                            let c = cs[ci];
                            kids.push((c.corrected_total_time(), QueueItem::Span(c)));
                            ci = ci + 1;
                        }
                    } else {
                        let evs = s.graph();
                        let nev = evs.len();
                        let mut ci: usize = 0;
                        while ci < nev
                            invariant
                                store.readable(),
                                0 <= ci <= nev,
                                nev == evs@.len(),
                                forall|t: int|
                                    0 <= t < evs@.len() ==> (#[trigger] evs@[t]) is Child && evs@[
                                        t
                                    ]->Child_graph.wf() && evs@[t]->Child_graph.store == store,
                                forall|t: int|
                                    0 <= t < kids@.len() ==> qitem_ok(
                                        (#[trigger] kids@[t]).1,
                                        store,
                                    ),
                            decreases nev - ci,
                        {
                            match &evs[ci] {
                                SpanGraphEventRef::Child { graph } => {
                                    let g = graph.clone();
                                    let w = g.corrected_total_time();
                                    kids.push((w, QueueItem::SpanGraph(g)));
                                },
                                SpanGraphEventRef::SelfTime { .. } => {},
                            }
                            ci = ci + 1;
                        }
                    }
                },
                QueueItem::SpanGraph(g) => {
                    let cnt = g.count();
                    if show_children && cnt > 1 {
                        let cs = g.root_spans();
                        let ncs = cs.len();
                        let mut ci: usize = 0;
                        while ci < ncs
                            invariant
                                store.readable(),
                                0 <= ci <= ncs,
                                ncs == cs@.len(),
                                forall|t: int|
                                    0 <= t < cs@.len() ==> (#[trigger] cs@[t]).wf() && 1 <= cs@[
                                        t
                                    ].index && cs@[t].store == store,
                                forall|t: int|
                                    0 <= t < kids@.len() ==> qitem_ok(
                                        (#[trigger] kids@[t]).1,
                                        store,
                                    ),
                            decreases ncs - ci,
                        {
                            let c = cs[ci];
                            kids.push((c.corrected_total_time(), QueueItem::Span(c)));
                            ci = ci + 1;
                        }
                    } else {
                        let cgs = g.children();
                        let ncg = cgs.len();
                        let mut ci: usize = 0;
                        while ci < ncg
                            invariant
                                store.readable(),
                                0 <= ci <= ncg,
                                ncg == cgs@.len(),
                                forall|t: int|
                                    0 <= t < cgs@.len() ==> (#[trigger] cgs@[t]).wf() && cgs@[
                                        t
                                    ].store == store,
                                forall|t: int|
                                    0 <= t < kids@.len() ==> qitem_ok(
                                        (#[trigger] kids@[t]).1,
                                        store,
                                    ),
                            decreases ncg - ci,
                        {
                            let cg = cgs[ci].clone();
                            let w = cg.corrected_total_time();
                            kids.push((w, QueueItem::SpanGraph(cg)));
                            ci = ci + 1;
                        }
                    }
                },
            }
            let kids = if sorted_flag {
                let sorted_kids = sorted_desc_by_first(kids);
                proof {
                    assert forall|t: int| 0 <= t < sorted_kids@.len() implies qitem_ok(
                        (#[trigger] sorted_kids@[t]).1,
                        store,
                    ) by {
                        lemma_sort_desc_contains(kids@, sorted_kids@[t]);
                        assert(sorted_kids@.contains(sorted_kids@[t]));
                        let u = choose|u: int|
                            0 <= u < kids@.len() && kids@[u] == sorted_kids@[t];
                    }
                }
                sorted_kids
            } else {
                kids
            };

            // place the children and compute their pixel extents
            let mut centries: Vec<(QueueItemWithState<'_>, u32, u128, u128)> = Vec::new();
            let mut cur: u64 = it.start;
            let nkids = kids.len();
            let mut ki: usize = 0;
            while ki < nkids
                invariant
                    store.readable(),
                    0 <= ki <= nkids,
                    nkids == kids@.len(),
                    forall|t: int|
                        0 <= t < kids@.len() ==> qitem_ok((#[trigger] kids@[t]).1, store),
                    forall|t: int|
                        0 <= t < centries@.len() ==> qitem_ok(
                            (#[trigger] centries@[t]).0.item,
                            store,
                        ) && centries@[t].0.line_index == l + 1,
                    centries@.len() == ki,
                    rw >= 1,
                    l as int <= vb,
                    vb <= usize::MAX as int - 1,
                decreases nkids - ki,
            {
                let cw = kids[ki].0;
                let citem = match &kids[ki].1 {
                    QueueItem::Span(s) => QueueItem::Span(*s),
                    QueueItem::SpanGraph(g) => QueueItem::SpanGraph(g.clone()),
                };
                let depth = citem.max_depth();
                proof {
                    vstd::arithmetic::mul::lemma_mul_upper_bound(
                        cur as int,
                        u64::MAX as int,
                        hp as int,
                        u64::MAX as int,
                    );
                }
                let p1 = (cur as u128 * hp as u128) / (rw as u128);
                let sum = cur as u128 + cw as u128;
                let prod = if hp == 0 {
                    0u128
                } else if sum > u128::MAX / (hp as u128) {
                    u128::MAX
                } else {
                    proof {
                        vstd::arithmetic::div_mod::lemma_fundamental_div_mod(
                            u128::MAX as int,
                            hp as int,
                        );
                        vstd::arithmetic::mul::lemma_mul_inequality(
                            sum as int,
                            (u128::MAX / (hp as u128)) as int,
                            hp as int,
                        );
                    }
                    sum * hp as u128
                };
                let num = if prod > u128::MAX - (rw as u128 - 1) {
                    u128::MAX
                } else {
                    prod + (rw as u128 - 1)
                };
                let p2 = num / (rw as u128);
                centries.push(
                    (
                        QueueItemWithState {
                            item: citem,
                            line_index: l + 1,
                            start: cur,
                            placeholder: false,
                            view_mode: child_mode,
                        },
                        depth,
                        p1,
                        p2,
                    ),
                );
                cur = if cur > u64::MAX - cw {
                    u64::MAX
                } else {
                    cur + cw
                };
                ki = ki + 1;
            }

            if it.placeholder {
                // keep only the deepest child, itself as a placeholder
                let mut best: Option<QueueItemWithState<'_>> = None;
                let mut best_depth: u32 = 0;
                loop
                    invariant_except_break
                        store.readable(),
                        forall|t: int|
                            0 <= t < centries@.len() ==> qitem_ok(
                                (#[trigger] centries@[t]).0.item,
                                store,
                            ) && centries@[t].0.line_index == l + 1,
                        match best {
                            Some(b) => qitem_ok(b.item, store) && b.line_index == l + 1,
                            None => true,
                        },
                    ensures
                        match best {
                            Some(b) => qitem_ok(b.item, store) && b.line_index == l + 1,
                            None => true,
                        },
                    decreases centries@.len(),
                {
                    match centries.pop() {
                        Some(tup) => {
                            let none_yet = match &best {
                                Some(_) => false,
                                None => true,
                            };
                            if none_yet || tup.1 > best_depth {
                                best_depth = tup.1;
                                best = Some(tup.0);
                            }
                        },
                        None => {
                            break ;
                        },
                    }
                }
                match best {
                    Some(mut b) => {
                        b.placeholder = true;
                        proof {
                            lemma_qpot_push(vb, qlines(queue@), (l + 1) as int);
                            assert(qlines(queue@.push(b)) =~= qlines(queue@).push(
                                (l + 1) as int,
                            ));
                            assert(rank(vb, (l + 1) as int) == (rk - 1) as nat);
                        }
                        queue.push(b);
                    },
                    None => {},
                }
                proof {
                    vstd::arithmetic::power::lemma_pow_strictly_increases(
                        0x1_0000_0000_0000_0000nat,
                        (rk - 1) as nat,
                        rk,
                    );
                }
                get_line(&mut lines, l);
                let mut line = lines.remove(l);
                line.push(LineEntry { start: it.start, width, ty: LineEntryType::Placeholder });
                lines.insert(l, line);
                proof {
                    lemma_qpot_nonneg(vb, qlines(queue@));
                    assert(qpot(vb, qlines(queue@)) <= phi_pop + pow(
                        qbase(),
                        (rk - 1) as nat,
                    ));
                    assert(qpot(vb, qlines(queue@)) < phi0);
                }
            } else {
                // push the children, coalescing sub-pixel neighbours
                let ghost phi_kids_base = qpot(vb, qlines(queue@));
                let mut last_pixel: u128 = u128::MAX;
                let mut last_max_depth: u32 = 0;
                let mut pushed: usize = 0;
                loop
                    invariant_except_break
                        store.readable(),
                        l as int <= vb,
                        rk == rank(vb, l as int),
                        rk >= 1,
                        forall|t: int|
                            0 <= t < centries@.len() ==> qitem_ok(
                                (#[trigger] centries@[t]).0.item,
                                store,
                            ) && centries@[t].0.line_index == l + 1,
                        forall|t: int|
                            0 <= t < queue@.len() ==> qitem_ok(
                                (#[trigger] queue@[t]).item,
                                store,
                            ) && (queue@[t].line_index as int <= llen0 || queue@[t].line_index
                                == l + 1),
                        pushed <= nkids,
                        centries@.len() + pushed <= nkids,
                        qpot(vb, qlines(queue@)) <= phi_kids_base + pushed * pow(
                            qbase(),
                            (rk - 1) as nat,
                        ),
                    ensures
                        forall|t: int|
                            0 <= t < queue@.len() ==> qitem_ok(
                                (#[trigger] queue@[t]).item,
                                store,
                            ) && (queue@[t].line_index as int <= llen0 || queue@[t].line_index
                                == l + 1),
                        qpot(vb, qlines(queue@)) <= phi_kids_base + nkids * pow(
                            qbase(),
                            (rk - 1) as nat,
                        ),
                    decreases centries@.len(),
                {
                    let tup = match centries.pop() {
                        Some(tup) => tup,
                        None => {
                            proof {
                                lemma_pow_positive(qbase(), (rk - 1) as nat);
                                vstd::arithmetic::mul::lemma_mul_inequality(
                                    pushed as int,
                                    nkids as int,
                                    pow(qbase(), (rk - 1) as nat),
                                );
                            }
                            break ;
                        },
                    };
                    let mut entry = tup.0;
                    let depth = tup.1;
                    let p1 = tup.2;
                    let p2 = tup.3;
                    let collide_lower = if last_pixel >= MIN_VISIBLE_PIXEL_SIZE as u128 {
                        last_pixel - MIN_VISIBLE_PIXEL_SIZE as u128
                    } else {
                        0
                    };
                    if collide_lower <= p1 {
                        if last_max_depth < depth {
                            let ghost qpre = queue@;
                            match queue.pop() {
                                Some(dropped) => {
                                    proof {
                                        assert(qpre =~= queue@.push(dropped));
                                        assert(qlines(qpre) =~= qlines(queue@).push(
                                            dropped.line_index as int,
                                        ));
                                        lemma_qpot_push(
                                            vb,
                                            qlines(queue@),
                                            dropped.line_index as int,
                                        );
                                        lemma_pow_positive(
                                            qbase(),
                                            rank(vb, dropped.line_index as int),
                                        );
                                    }
                                },
                                None => {},
                            }
                            entry.placeholder = true;
                        } else {
                            let ghost qpre = queue@;
                            match queue.pop() {
                                Some(mut prev) => {
                                    let ghost orig = prev;
                                    prev.placeholder = true;
                                    proof {
                                        assert(qpre =~= queue@.push(orig));
                                        assert(qlines(qpre) =~= qlines(queue@).push(
                                            prev.line_index as int,
                                        ));
                                        lemma_qpot_push(
                                            vb,
                                            qlines(queue@),
                                            prev.line_index as int,
                                        );
                                        assert(qlines(queue@.push(prev)) =~= qlines(
                                            queue@,
                                        ).push(prev.line_index as int));
                                    }
                                    queue.push(prev);
                                },
                                None => {},
                            }
                            continue ;
                        }
                    }
                    proof {
                        lemma_qpot_push(vb, qlines(queue@), (l + 1) as int);
                        assert(qlines(queue@.push(entry)) =~= qlines(queue@).push(
                            (l + 1) as int,
                        ));
                        assert(rank(vb, (l + 1) as int) == (rk - 1) as nat);
                        lemma_pow_positive(qbase(), (rk - 1) as nat);
                        assert((pushed + 1) as int * pow(qbase(), (rk - 1) as nat) == pushed
                            as int * pow(qbase(), (rk - 1) as nat) + pow(
                            qbase(),
                            (rk - 1) as nat,
                        )) by (nonlinear_arith);
                    }
                    queue.push(entry);
                    pushed = pushed + 1;
                    last_max_depth = depth;
                    last_pixel = p2;
                }
                get_line(&mut lines, l);
                let mut line = lines.remove(l);
                line.push(
                    LineEntry {
                        start: it.start,
                        width,
                        ty: match it.item {
                            QueueItem::Span(s) => LineEntryType::Span(s),
                            QueueItem::SpanGraph(g) => LineEntryType::SpanGraph(g),
                        },
                    },
                );
                lines.insert(l, line);
                proof {
                    assert(nkids as int * pow(qbase(), (rk - 1) as nat) < pow(qbase(), rk)) by {
                        lemma_pow_positive(qbase(), (rk - 1) as nat);
                        assert(pow(qbase(), rk) == qbase() * pow(qbase(), (rk - 1) as nat));
                        vstd::arithmetic::mul::lemma_mul_strict_inequality(
                            nkids as int,
                            qbase(),
                            pow(qbase(), (rk - 1) as nat),
                        );
                    }
                    assert(qpot(vb, qlines(queue@)) < phi0);
                }
            }
            proof {
                lemma_qpot_nonneg(vb, qlines(queue@));
                assert(qpot(vb, qlines(queue@)) < phi0);
            }
        }

        // emit the lines
        let nlines = lines.len();
        let mut out: Vec<ViewLineUpdate> = Vec::new();
        let mut k: usize = 0;
        while k < nlines
            invariant
                store.readable(),
                view_rect.width >= 1,
                0 <= k <= nlines,
                nlines == lines@.len(),
                nlines as int <= view_rect.y + view_rect.height + EXTRA_HEIGHT + 1,
                forall|k2: int| 0 <= k2 < lines@.len() ==> (#[trigger] lines@[k2])@.len() >= 1,
                forall|k2: int, t: int|
                    0 <= k2 < lines@.len() && 0 <= t < lines@[k2]@.len() ==> entry_wf(
                        #[trigger] lines@[k2]@[t],
                        store,
                    ),
                forall|k2: int, t: int|
                    1 <= k2 < lines@.len() && 0 <= t < lines@[k2]@.len() ==> within_widened(
                        *view_rect,
                        (#[trigger] lines@[k2]@[t]).start as int,
                        lines@[k2]@[t].width as int,
                    ),
                out@.len() == k,
                forall|k2: int| 0 <= k2 < out@.len() ==> (#[trigger] out@[k2]).y as int == k2,
                forall|k2: int| 0 <= k2 < out@.len() ==> (#[trigger] out@[k2]).spans@.len() >= 1,
                forall|k2: int, t: int|
                    1 <= k2 < out@.len() && 0 <= t < out@[k2].spans@.len() ==> within_widened(
                        *view_rect,
                        (#[trigger] out@[k2].spans@[t]).start as int,
                        out@[k2].spans@[t].width as int,
                    ),
                forall|k2: int, t: int|
                    0 <= k2 < out@.len() && 0 <= t < out@[k2].spans@.len() ==> view_span_ok(
                        store@,
                        #[trigger] out@[k2].spans@[t],
                    ),
            decreases nlines - k,
        {
            let line = &lines[k];
            let nent = line.len();
            let mut spans: Vec<ViewSpan> = Vec::new();
            let mut t: usize = 0;
            while t < nent
                invariant
                    store.readable(),
                    0 <= t <= nent,
                    nent == line@.len(),
                    line == lines@[k as int],
                    0 <= k < lines@.len(),
                    forall|t2: int|
                        0 <= t2 < line@.len() ==> entry_wf(#[trigger] line@[t2], store),
                    k >= 1 ==> forall|t2: int|
                        0 <= t2 < line@.len() ==> within_widened(
                            *view_rect,
                            (#[trigger] line@[t2]).start as int,
                            line@[t2].width as int,
                        ),
                    spans@.len() == t,
                    k >= 1 ==> forall|t2: int|
                        0 <= t2 < spans@.len() ==> within_widened(
                            *view_rect,
                            (#[trigger] spans@[t2]).start as int,
                            spans@[t2].width as int,
                        ),
                    forall|t2: int|
                        0 <= t2 < spans@.len() ==> view_span_ok(
                            store@,
                            #[trigger] spans@[t2],
                        ),
                decreases nent - t,
            {
                let e = &line[t];
                let vs = match &e.ty {
                    LineEntryType::Placeholder => ViewSpan {
                        id: 0,
                        start: e.start,
                        width: e.width,
                        category: String::new(),
                        text: String::new(),
                        count: 1,
                    },
                    LineEntryType::Span(s) => {
                        let nn = s.nice_name();
                        ViewSpan {
                            id: s.id() as u64,
                            start: e.start,
                            width: e.width,
                            category: nn.0,
                            text: nn.1,
                            count: 1,
                        }
                    },
                    LineEntryType::SpanGraph(g) => {
                        let nn = g.nice_name();
                        ViewSpan {
                            id: g.id() as u64,
                            start: e.start,
                            width: e.width,
                            category: nn.0,
                            text: nn.1,
                            count: g.count() as u64,
                        }
                    },
                };
                proof {
                    match &e.ty {
                        LineEntryType::Placeholder => {
                            assert(view_span_ok(store@, vs));
                        },
                        LineEntryType::Span(sp) => {
                            assert(vs.width as int == spec_total_time(store@, sp.index as int));
                            assert(view_span_ok(store@, vs));
                        },
                        LineEntryType::SpanGraph(gr) => {
                            assert(graph_wf(store@, gr.graph@));
                            assert(vs.width as int == sat_sum_total(
                                store@,
                                gr.graph@.root_spans,
                            ));
                            assert(view_span_ok(store@, vs));
                        },
                    }
                }
                spans.push(vs);
                t = t + 1;
            }
            out.push(ViewLineUpdate { y: k as u64, spans });
            k = k + 1;
        }
        out
    }
}

} // verus!

use vstd::arithmetic::power::lemma_pow_adds;

verus! {

/// One step of the power recursion, spelled out for the termination
/// argument.
pub proof fn lemma_pow_unfold(b: int, e: nat)
    requires
        e >= 1,
        b > 0,
    ensures
        pow(b, e) == b * pow(b, (e - 1) as nat),
{
    lemma_pow_adds(b, 1, (e - 1) as nat);
    vstd::arithmetic::power::lemma_pow1(b);
}

} // verus!
