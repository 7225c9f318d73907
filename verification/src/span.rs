use vstd::prelude::*;

verus! {

/// A single traced interval. The first fields are fixed at creation;
/// `events`, `self_end` and `self_time` grow while a trace is written;
/// the `Option` fields are memoization cells, filled on demand and
/// cleared when a mutation below this span invalidates them.
pub struct Span {
    pub index: usize,
    pub parent: Option<usize>,
    pub start: u64,
    pub ignore_self_time: bool,
    pub category: String,
    pub name: String,
    pub args: Vec<(String, String)>,
    pub events: Vec<SpanEvent>,
    pub self_end: u64,
    pub self_time: u64,
    pub end: Option<u64>,
    pub nice_name: Option<(String, String)>,
    pub group_name: Option<String>,
    pub max_depth: Option<u32>,
    pub total_time: Option<u64>,
    pub corrected_self_time: Option<u64>,
    pub corrected_total_time: Option<u64>,
    pub graph: Option<Vec<SpanGraphEvent>>,
}

#[derive(Copy, Clone)]
pub enum SpanEvent {
    SelfTime { start: u64, end: u64 },
    Child { id: usize },
}

/// An aggregation node: all occurrences of one group name under a host
/// span. `root_spans` are direct children of the host; `recursive_spans`
/// are deeper descendants reached through chains of the same group name.
pub struct SpanGraph {
    pub root_spans: Vec<usize>,
    pub recursive_spans: Vec<usize>,
}

#[derive(Clone)]
pub enum SpanGraphEvent {
    SelfTime { duration: u64 },
    Child { child: SpanGraph },
}

/// Mathematical image of one span: the creation-time and writer-updated
/// fields, without the memoization cells.
#[verifier::ext_equal]
pub ghost struct SpanView {
    pub parent: Option<int>,
    pub start: int,
    pub ignore_self_time: bool,
    pub category: Seq<char>,
    pub name: Seq<char>,
    pub args: Seq<(Seq<char>, Seq<char>)>,
    pub self_end: int,
    pub self_time: int,
    pub events: Seq<EventView>,
}

pub ghost enum EventView {
    SelfTime { start: int, end: int },
    Child { id: int },
}

#[verifier::ext_equal]
pub ghost struct GraphView {
    pub root_spans: Seq<int>,
    pub recursive_spans: Seq<int>,
}

impl View for SpanEvent {
    type V = EventView;

    open spec fn view(&self) -> EventView {
        match *self {
            SpanEvent::SelfTime { start, end } => EventView::SelfTime {
                start: start as int,
                end: end as int,
            },
            SpanEvent::Child { id } => EventView::Child { id: id as int },
        }
    }
}

impl View for Span {
    type V = SpanView;

    open spec fn view(&self) -> SpanView {
        SpanView {
            parent: match self.parent {
                Some(p) => Some(p as int),
                None => None,
            },
            start: self.start as int,
            ignore_self_time: self.ignore_self_time,
            category: self.category@,
            name: self.name@,
            args: self.args@.map_values(|a: (String, String)| (a.0@, a.1@)),
            self_end: self.self_end as int,
            self_time: self.self_time as int,
            events: self.events@.map_values(|e: SpanEvent| e@),
        }
    }
}

impl View for SpanGraph {
    type V = GraphView;

    open spec fn view(&self) -> GraphView {
        GraphView {
            root_spans: self.root_spans@.map_values(|i: usize| i as int),
            recursive_spans: self.recursive_spans@.map_values(|i: usize| i as int),
        }
    }
}

impl GraphView {
    /// Every member of the group: the roots followed by the recursive
    /// occurrences.
    pub open spec fn members(self) -> Seq<int> {
        self.root_spans + self.recursive_spans
    }

    pub open spec fn count(self) -> int {
        self.root_spans.len() + self.recursive_spans.len() as int
    }
}

} // verus!
