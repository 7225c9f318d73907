use vstd::prelude::*;
use crate::model::{StoreView, child_ids, spec_group_name};
use crate::span::GraphView;

verus! {

/// Insertion-ordered grouping state: one triple per group name, in the
/// order the names were first seen. A triple holds the name, the root
/// occurrences and the recursive occurrences.
pub type Entries = Seq<(Seq<char>, Seq<int>, Seq<int>)>;

pub open spec fn gname(v: StoreView, c: int) -> Seq<char> {
    spec_group_name(v[c])
}

/// Position of `key` among the entries, or `-1` when absent.
pub open spec fn find_key(e: Entries, key: Seq<char>) -> int
    decreases e.len(),
{
    if e.len() == 0 {
        -1
    } else if e[0].0 == key {
        0
    } else {
        let r = find_key(e.skip(1), key);
        if r == -1 {
            -1
        } else {
            r + 1
        }
    }
}

/// Effect of recording one more root occurrence of `key`.
pub open spec fn push_root_s(e: Entries, key: Seq<char>, idx: int) -> Entries {
    let j = find_key(e, key);
    if j >= 0 {
        e.update(j, (e[j].0, e[j].1.push(idx), e[j].2))
    } else {
        e.push((key, seq![idx], Seq::empty()))
    }
}

/// Effect of recording one more recursive occurrence of `key`.
pub open spec fn push_rec_s(e: Entries, key: Seq<char>, idx: int) -> Entries {
    let j = find_key(e, key);
    if j >= 0 {
        e.update(j, (e[j].0, e[j].1, e[j].2.push(idx)))
    } else {
        e.push((key, Seq::empty(), seq![idx]))
    }
}

/// Keys and roots that grouping a candidate list produces: each candidate
/// is recorded, in order, as a root occurrence of its own group name.
pub open spec fn group_roots(v: StoreView, cs: Seq<int>) -> Entries
    decreases cs.len(),
{
    if cs.len() == 0 {
        Seq::empty()
    } else {
        push_root_s(group_roots(v, cs.drop_last()), gname(v, cs.last()), cs.last())
    }
}

pub proof fn lemma_find_key_range(e: Entries, key: Seq<char>)
    ensures
        -1 <= find_key(e, key) < e.len(),
        find_key(e, key) >= 0 ==> e[find_key(e, key)].0 == key,
    decreases e.len(),
{
    if e.len() > 0 && e[0].0 != key {
        lemma_find_key_range(e.skip(1), key);
    }
}

/// Recording a recursive occurrence of a known key leaves the keys and
/// the roots of every entry unchanged.
pub proof fn lemma_push_rec_keeps_roots(e: Entries, key: Seq<char>, idx: int)
    requires
        find_key(e, key) >= 0,
    ensures
        push_rec_s(e, key, idx).len() == e.len(),
        forall|j: int|
            0 <= j < e.len() ==> (#[trigger] push_rec_s(e, key, idx)[j]).0 == e[j].0 && push_rec_s(
                e,
                key,
                idx,
            )[j].1 == e[j].1,
{
    lemma_find_key_range(e, key);
}

/// `find_key` looks at keys alone.
pub proof fn lemma_find_key_keys(e1: Entries, e2: Entries, key: Seq<char>)
    requires
        e1.len() == e2.len(),
        forall|j: int| 0 <= j < e1.len() ==> (#[trigger] e1[j]).0 == e2[j].0,
    ensures
        find_key(e1, key) == find_key(e2, key),
    decreases e1.len(),
{
    if e1.len() > 0 {
        assert(e1[0].0 == e2[0].0);
        assert forall|j: int| 0 <= j < e1.skip(1).len() implies (#[trigger] e1.skip(1)[j]).0
            == e2.skip(1)[j].0 by {
            assert(e1.skip(1)[j] == e1[j + 1]);
            assert(e2.skip(1)[j] == e2[j + 1]);
        }
        lemma_find_key_keys(e1.skip(1), e2.skip(1), key);
    }
}

pub proof fn lemma_find_key_push(e: Entries, x: (Seq<char>, Seq<int>, Seq<int>), key: Seq<char>)
    ensures
        find_key(e.push(x), key) == if find_key(e, key) >= 0 {
            find_key(e, key)
        } else if x.0 == key {
            e.len() as int
        } else {
            -1
        },
    decreases e.len(),
{
    if e.len() == 0 {
        assert(e.push(x)[0] == x);
        assert(e.push(x).skip(1) =~= Seq::<(Seq<char>, Seq<int>, Seq<int>)>::empty());
        assert(find_key(Seq::<(Seq<char>, Seq<int>, Seq<int>)>::empty(), key) == -1);
        assert(find_key(e, key) == -1);
    } else {
        assert(e.push(x)[0] == e[0]);
        assert(e.push(x).skip(1) =~= e.skip(1).push(x));
        lemma_find_key_push(e.skip(1), x, key);
    }
}

/// Recording the same root occurrence on two lists that agree on keys and
/// roots keeps them in agreement.
pub proof fn lemma_push_root_match(e1: Entries, e2: Entries, key: Seq<char>, idx: int)
    requires
        keys_roots_match(e1, e2),
    ensures
        keys_roots_match(push_root_s(e1, key, idx), push_root_s(e2, key, idx)),
{
    lemma_find_key_keys(e1, e2, key);
    lemma_find_key_range(e1, key);
    lemma_find_key_range(e2, key);
}

/// After a root of `key` was recorded, `key` is present.
pub proof fn lemma_push_root_finds(e: Entries, key: Seq<char>, idx: int)
    ensures
        find_key(push_root_s(e, key, idx), key) >= 0,
        find_key(push_root_s(e, key, idx), key) < push_root_s(e, key, idx).len(),
        push_root_s(e, key, idx).len() >= e.len(),
{
    lemma_find_key_range(e, key);
    let j = find_key(e, key);
    if j >= 0 {
        lemma_find_key_keys(e, push_root_s(e, key, idx), key);
        lemma_find_key_range(push_root_s(e, key, idx), key);
    } else {
        lemma_find_key_push(e, (key, seq![idx], Seq::empty()), key);
    }
}

/// Recording a recursive occurrence keeps every key in place.
pub proof fn lemma_push_rec_finds(e: Entries, key: Seq<char>, idx: int, key2: Seq<char>)
    requires
        find_key(e, key) >= 0,
    ensures
        find_key(push_rec_s(e, key, idx), key2) == find_key(e, key2),
{
    lemma_find_key_range(e, key);
    lemma_find_key_keys(e, push_rec_s(e, key, idx), key2);
}

/// The two entry lists agree on their keys and root lists; the recursive
/// lists may differ.
pub open spec fn keys_roots_match(e1: Entries, e2: Entries) -> bool {
    &&& e1.len() == e2.len()
    &&& forall|j: int| 0 <= j < e1.len() ==> (#[trigger] e1[j]).0 == e2[j].0 && e1[j].1 == e2[j].1
}

pub open spec fn entry_members(e: (Seq<char>, Seq<int>, Seq<int>)) -> Seq<int> {
    e.1 + e.2
}

/// Every member of every entry is a valid span strictly above `lo` and
/// carries the entry's group name; and every entry has at least one root.
pub open spec fn entries_members_ok(v: StoreView, lo: int, e: Entries) -> bool {
    &&& (forall|j: int| 0 <= j < e.len() ==> (#[trigger] e[j]).1.len() >= 1)
    &&& (forall|j: int, t: int|
        0 <= j < e.len() && 0 <= t < entry_members(e[j]).len() ==> {
            &&& lo < #[trigger] entry_members(e[j])[t] < v.len()
            &&& gname(v, entry_members(e[j])[t]) == e[j].0
        })
}

/// Recording a valid root occurrence keeps the member properties.
pub proof fn lemma_push_root_members(v: StoreView, lo: int, e: Entries, key: Seq<char>, idx: int)
    requires
        entries_members_ok(v, lo, e),
        lo < idx < v.len(),
        gname(v, idx) == key,
    ensures
        entries_members_ok(v, lo, push_root_s(e, key, idx)),
{
    lemma_find_key_range(e, key);
    let j0 = find_key(e, key);
    let e2 = push_root_s(e, key, idx);
    if j0 >= 0 {
        assert forall|j: int, t: int|
            0 <= j < e2.len() && 0 <= t < entry_members(e2[j]).len() implies {
            &&& lo < #[trigger] entry_members(e2[j])[t] < v.len()
            &&& gname(v, entry_members(e2[j])[t]) == e2[j].0
        } by {
            if j == j0 {
                let r = e[j].1.len() as int;
                if t < r {
                    assert(entry_members(e2[j])[t] == e[j].1[t]);
                    assert(entry_members(e[j])[t] == e[j].1[t]);
                } else if t == r {
                    assert(entry_members(e2[j])[t] == idx);
                } else {
                    assert(entry_members(e2[j])[t] == e[j].2[t - r - 1]);
                    assert(entry_members(e[j])[t - 1] == e[j].2[t - r - 1]);
                }
            } else {
                assert(entry_members(e2[j]) == entry_members(e[j]));
            }
        }
    } else {
        assert forall|j: int, t: int|
            0 <= j < e2.len() && 0 <= t < entry_members(e2[j]).len() implies {
            &&& lo < #[trigger] entry_members(e2[j])[t] < v.len()
            &&& gname(v, entry_members(e2[j])[t]) == e2[j].0
        } by {
            if j < e.len() {
                assert(e2[j] == e[j]);
            } else {
                assert(e2[j] == (key, seq![idx], Seq::<int>::empty()));
                assert(entry_members(e2[j]) =~= seq![idx]);
            }
        }
        assert forall|j: int| 0 <= j < e2.len() implies (#[trigger] e2[j]).1.len() >= 1 by {
            if j < e.len() {
                assert(e2[j] == e[j]);
            }
        }
    }
}

/// Recording a valid recursive occurrence of a present key keeps the
/// member properties.
pub proof fn lemma_push_rec_members(v: StoreView, lo: int, e: Entries, key: Seq<char>, idx: int)
    requires
        entries_members_ok(v, lo, e),
        find_key(e, key) >= 0,
        lo < idx < v.len(),
        gname(v, idx) == key,
    ensures
        entries_members_ok(v, lo, push_rec_s(e, key, idx)),
{
    lemma_find_key_range(e, key);
    let j0 = find_key(e, key);
    let e2 = push_rec_s(e, key, idx);
    assert forall|j: int, t: int|
        0 <= j < e2.len() && 0 <= t < entry_members(e2[j]).len() implies {
        &&& lo < #[trigger] entry_members(e2[j])[t] < v.len()
        &&& gname(v, entry_members(e2[j])[t]) == e2[j].0
    } by {
        if j == j0 {
            if t < entry_members(e[j]).len() {
                assert(entry_members(e2[j])[t] == entry_members(e[j])[t]);
            } else {
                assert(entry_members(e2[j])[t] == idx);
            }
        } else {
            assert(entry_members(e2[j]) == entry_members(e[j]));
        }
    }
}

/// Children of `cs` whose group name is not the skipped one.
pub open spec fn filter_key(v: StoreView, cs: Seq<int>, skip: Option<Seq<char>>) -> Seq<int>
    decreases cs.len(),
{
    if cs.len() == 0 {
        Seq::empty()
    } else {
        let rest = filter_key(v, cs.drop_last(), skip);
        if skip == Some(gname(v, cs.last())) {
            rest
        } else {
            rest.push(cs.last())
        }
    }
}

/// All grouping candidates below a list of source spans: their direct
/// children in order, source by source, without the skipped group name.
pub open spec fn cand_list(v: StoreView, srcs: Seq<int>, skip: Option<Seq<char>>) -> Seq<int>
    decreases srcs.len(),
{
    if srcs.len() == 0 {
        Seq::empty()
    } else {
        cand_list(v, srcs.drop_last(), skip) + filter_key(
            v,
            crate::model::child_ids(v[srcs.last()].events),
            skip,
        )
    }
}

pub proof fn lemma_filter_key_none(v: StoreView, cs: Seq<int>)
    ensures
        filter_key(v, cs, None) == cs,
    decreases cs.len(),
{
    if cs.len() > 0 {
        lemma_filter_key_none(v, cs.drop_last());
        assert(filter_key(v, cs, None) =~= cs);
    }
}

/// Smallest element of a non-empty index list.
pub open spec fn seq_min(s: Seq<int>) -> int
    decreases s.len(),
{
    if s.len() <= 1 {
        s[0]
    } else {
        let m = seq_min(s.skip(1));
        if s[0] <= m {
            s[0]
        } else {
            m
        }
    }
}

pub proof fn lemma_seq_min(s: Seq<int>)
    requires
        s.len() >= 1,
    ensures
        forall|t: int| 0 <= t < s.len() ==> seq_min(s) <= #[trigger] s[t],
        exists|t: int| 0 <= t < s.len() && seq_min(s) == s[t],
    decreases s.len(),
{
    if s.len() <= 1 {
        assert(0 <= 0 < s.len() && seq_min(s) == s[0]);
    } else {
        lemma_seq_min(s.skip(1));
        assert forall|t: int| 0 <= t < s.len() implies seq_min(s) <= #[trigger] s[t] by {
            if t > 0 {
                assert(s.skip(1)[t - 1] == s[t]);
            }
        }
        if seq_min(s) == s[0] {
            assert(0 <= 0 < s.len() && seq_min(s) == s[0]);
        } else {
            let t = choose|t: int| 0 <= t < s.skip(1).len() && seq_min(s.skip(1)) == s.skip(1)[t];
            assert(s.skip(1)[t] == s[t + 1]);
            assert(0 <= t + 1 < s.len() && seq_min(s) == s[t + 1]);
        }
    }
}

/// View of one produced entry: the group name with the root and recursive
/// index lists.
pub open spec fn vec_entry_view(x: (String, (Vec<usize>, Vec<usize>))) -> (
    Seq<char>,
    Seq<int>,
    Seq<int>,
) {
    (x.0@, x.1.0@.map_values(|i: usize| i as int), x.1.1@.map_values(|i: usize| i as int))
}

pub open spec fn vec_entries(r: Seq<(String, (Vec<usize>, Vec<usize>))>) -> Entries {
    r.map_values(|x: (String, (Vec<usize>, Vec<usize>))| vec_entry_view(x))
}

#[verifier::external_type_specification]
#[verifier::external_body]
#[verifier::reject_recursive_types(K)]
#[verifier::reject_recursive_types(V)]
#[verifier::reject_recursive_types(S)]
pub struct ExIndexMap<K, V, S>(indexmap::IndexMap<K, V, S>);

/// The grouping map: group name to root and recursive occurrence lists,
/// in insertion order.
pub type GroupMap = indexmap::IndexMap<
    String,
    (Vec<usize>, Vec<usize>),
    std::collections::hash_map::RandomState,
>;

/// The key-value pairs a grouping map holds, in insertion order. The
/// hasher only routes lookups; the pair sequence is a function of the
/// operations performed on the map.
pub uninterp spec fn group_map_entries(m: &GroupMap) -> Entries;

/// Relies on indexmap::IndexMap::new: the map starts empty.
#[verifier::external_body]
pub(crate) fn gm_new() -> (m: GroupMap)
    ensures
        group_map_entries(&m) == Seq::<(Seq<char>, Seq<int>, Seq<int>)>::empty(),
{
    indexmap::IndexMap::new()
}

/// Relies on indexmap::IndexMap::entry and Entry::or_default: an existing
/// key keeps its position and its lists, a new key is appended with empty
/// lists; the root list then grows by `idx`.
#[verifier::external_body]
pub(crate) fn gm_push_root(m: &mut GroupMap, name: &String, idx: usize)
    ensures
        group_map_entries(final(m)) == push_root_s(
            group_map_entries(old(m)),
            name@,
            idx as int,
        ),
{
    m.entry(name.clone()).or_default().0.push(idx);
}

/// Relies on indexmap::IndexMap::entry and Entry::or_default, as above;
/// the recursive list grows by `idx`.
#[verifier::external_body]
pub(crate) fn gm_push_recursive(m: &mut GroupMap, name: &String, idx: usize)
    ensures
        group_map_entries(final(m)) == push_rec_s(group_map_entries(old(m)), name@, idx as int),
{
    m.entry(name.clone()).or_default().1.push(idx);
}

/// Relies on indexmap's by-value iterator: the pairs come out in
/// insertion order.
#[verifier::external_body]
pub(crate) fn gm_into_entries(m: GroupMap) -> (r: Vec<(String, (Vec<usize>, Vec<usize>))>)
    ensures
        vec_entries(r@) == group_map_entries(&m),
{
    m.into_iter().collect()
}



/// The listed children that carry group name `g`, in order.
pub open spec fn keep_same(v: StoreView, cs: Seq<int>, g: Seq<char>) -> Seq<int>
    decreases cs.len(),
{
    if cs.len() == 0 {
        Seq::empty()
    } else {
        let rest = keep_same(v, cs.drop_last(), g);
        if gname(v, cs.last()) == g {
            rest.push(cs.last())
        } else {
            rest
        }
    }
}

/// Records the listed spans, in order, as recursive occurrences of `g`.
pub open spec fn push_recs(e: Entries, g: Seq<char>, ms: Seq<int>) -> Entries
    decreases ms.len(),
{
    if ms.len() == 0 {
        e
    } else {
        push_rec_s(push_recs(e, g, ms.drop_last()), g, ms.last())
    }
}

pub proof fn lemma_sum_sizes_concat(v: StoreView, a: Seq<int>, b: Seq<int>)
    ensures
        crate::model::sum_sizes(v, a + b) == crate::model::sum_sizes(v, a)
            + crate::model::sum_sizes(v, b),
    decreases b.len(),
{
    if b.len() == 0 {
        assert(a + b =~= a);
        assert(crate::model::sum_sizes(v, b) == 0);
    } else {
        assert(a + b =~= (a + b.drop_last()).push(b.last()));
        assert(b =~= b.drop_last().push(b.last()));
        lemma_sum_sizes_concat(v, a, b.drop_last());
        crate::model::lemma_sum_sizes_push(v, a + b.drop_last(), b.last());
        crate::model::lemma_sum_sizes_push(v, b.drop_last(), b.last());
    }
}

pub proof fn lemma_keep_same_sum(v: StoreView, cs: Seq<int>, g: Seq<char>)
    requires
        crate::model::wf(v),
        forall|t: int| 0 <= t < cs.len() ==> 0 <= #[trigger] cs[t] < v.len(),
    ensures
        crate::model::sum_sizes(v, keep_same(v, cs, g)) <= crate::model::sum_sizes(v, cs),
    decreases cs.len(),
{
    if cs.len() > 0 {
        assert forall|t: int| 0 <= t < cs.drop_last().len() implies 0 <= #[trigger] cs.drop_last()[
            t
        ] < v.len() by {
            assert(cs.drop_last()[t] == cs[t]);
        }
        lemma_keep_same_sum(v, cs.drop_last(), g);
        assert(cs =~= cs.drop_last().push(cs.last()));
        crate::model::lemma_sum_sizes_push(v, cs.drop_last(), cs.last());
        crate::model::lemma_size_bounds(v, cs.last());
        if gname(v, cs.last()) == g {
            crate::model::lemma_sum_sizes_push(v, keep_same(v, cs.drop_last(), g), cs.last());
        }
    }
}

/// Bounds pass from the children to the kept sublist.
pub proof fn lemma_keep_same_bounds(v: StoreView, cs: Seq<int>, g: Seq<char>, lo: int, hi: int)
    requires
        forall|t: int| 0 <= t < cs.len() ==> lo < #[trigger] cs[t] < hi,
    ensures
        forall|t: int|
            0 <= t < keep_same(v, cs, g).len() ==> lo < #[trigger] keep_same(v, cs, g)[t] < hi,
    decreases cs.len(),
{
    if cs.len() > 0 {
        assert forall|t: int| 0 <= t < cs.drop_last().len() implies lo < #[trigger] cs.drop_last()[
            t
        ] < hi by {
            assert(cs.drop_last()[t] == cs[t]);
        }
        lemma_keep_same_bounds(v, cs.drop_last(), g, lo, hi);
        let kd = keep_same(v, cs.drop_last(), g);
        let kc = keep_same(v, cs, g);
        assert forall|t: int| 0 <= t < kc.len() implies lo < #[trigger] kc[t] < hi by {
            if gname(v, cs.last()) == g {
                assert(kc == kd.push(cs.last()));
                if t < kd.len() {
                    assert(kc[t] == kd[t]);
                } else {
                    assert(kc[t] == cs.last());
                }
            } else {
                assert(kc == kd);
            }
        }
    }
}

/// Breadth-first walk of a worklist: the front span's same-name children
/// are recorded as recursive occurrences and queued in turn.
pub open spec fn bfs_rec(v: StoreView, e: Entries, g: Seq<char>, q: Seq<int>) -> Entries
    decreases crate::model::sum_sizes(v, q),
        when crate::model::wf(v) && (forall|t: int|
            0 <= t < q.len() ==> 0 < #[trigger] q[t] < v.len()) via bfs_rec_decreases
{
    if q.len() == 0 {
        e
    } else {
        let c = q[0];
        let ms = keep_same(v, child_ids(v[c].events), g);
        bfs_rec(v, push_recs(e, g, ms), g, q.skip(1) + ms)
    }
}

#[via_fn]
proof fn bfs_rec_decreases(v: StoreView, e: Entries, g: Seq<char>, q: Seq<int>) {
    if q.len() > 0 {
        let c = q[0];
        assert(crate::model::wf_record(v, c));
        crate::store::lemma_child_ids_bounds(v[c].events, c, v.len() as int);
        let cids = child_ids(v[c].events);
        let ms = keep_same(v, cids, g);
        assert forall|t: int| 0 <= t < cids.len() implies 0 <= #[trigger] cids[t] < v.len() by {}
        lemma_keep_same_sum(v, cids, g);
        lemma_keep_same_bounds(v, cids, g, c, v.len() as int);
        crate::model::lemma_size_children(v, c, v[c].events.len() as int);
        assert(v[c].events.take(v[c].events.len() as int) =~= v[c].events);
        lemma_sum_sizes_concat(v, q.skip(1), ms);
        crate::model::lemma_sum_sizes_skip(v, q, 0);
        assert(q.skip(0) =~= q);
        assert forall|t: int| 0 <= t < q.skip(1).len() implies 0 <= #[trigger] q.skip(1)[t]
            < v.len() by {
            assert(q.skip(1)[t] == q[t + 1]);
        }
        crate::model::lemma_sum_sizes_nonneg(v, q.skip(1));
        assert forall|t: int| 0 <= t < (q.skip(1) + ms).len() implies 0 <= #[trigger] (q.skip(1)
            + ms)[t] < v.len() by {
            if t < q.skip(1).len() {
                assert((q.skip(1) + ms)[t] == q.skip(1)[t]);
            } else {
                assert((q.skip(1) + ms)[t] == ms[t - q.skip(1).len()]);
            }
        }
        crate::model::lemma_sum_sizes_nonneg(v, q.skip(1) + ms);
        crate::model::lemma_size_bounds(v, c);
    }
}

/// The full grouping of a candidate list: each candidate roots its own
/// group name's entry and its same-name descendants follow breadth first.
pub open spec fn group_cands(v: StoreView, cs: Seq<int>) -> Entries
    decreases cs.len(),
{
    if cs.len() == 0 {
        Seq::empty()
    } else {
        let e = group_cands(v, cs.drop_last());
        let g = gname(v, cs.last());
        bfs_rec(v, push_root_s(e, g, cs.last()), g, seq![cs.last()])
    }
}

pub proof fn lemma_keep_same_congruent(v0: StoreView, v1: StoreView, cs: Seq<int>, g: Seq<char>)
    requires
        forall|t: int|
            0 <= t < cs.len() ==> 0 <= #[trigger] cs[t] < v0.len() && gname(v1, cs[t]) == gname(
                v0,
                cs[t],
            ),
    ensures
        keep_same(v1, cs, g) == keep_same(v0, cs, g),
    decreases cs.len(),
{
    if cs.len() > 0 {
        assert forall|t: int|
            0 <= t < cs.drop_last().len() implies 0 <= #[trigger] cs.drop_last()[t] < v0.len()
            && gname(v1, cs.drop_last()[t]) == gname(v0, cs.drop_last()[t]) by {
            assert(cs.drop_last()[t] == cs[t]);
        }
        lemma_keep_same_congruent(v0, v1, cs.drop_last(), g);
        assert(gname(v1, cs.last()) == gname(v0, cs.last()));
    }
}
pub open spec fn graphs_match(e: Entries, gs: Seq<GraphView>) -> bool {
    &&& gs.len() == e.len()
    &&& (forall|j: int|
        0 <= j < gs.len() ==> (#[trigger] gs[j]).root_spans == e[j].1 && gs[j].recursive_spans
            == e[j].2)
}

/// Sum of the total times of the listed spans, in exact arithmetic.
pub open spec fn sum_totals(v: StoreView, xs: Seq<int>) -> int
    decreases xs.len(),
{
    if xs.len() == 0 {
        0
    } else {
        sum_totals(v, xs.drop_last()) + crate::model::spec_total_time(v, xs.last())
    }
}

/// Sum of the root total times over all entries.
pub open spec fn entries_total(v: StoreView, e: Entries) -> int
    decreases e.len(),
{
    if e.len() == 0 {
        0
    } else {
        entries_total(v, e.drop_last()) + sum_totals(v, e.last().1)
    }
}

proof fn lemma_find_key_drop_last(e: Entries, key: Seq<char>)
    requires
        0 <= find_key(e, key) < e.len() - 1,
    ensures
        find_key(e.drop_last(), key) == find_key(e, key),
    decreases e.len(),
{
    lemma_find_key_range(e, key);
    assert(e.drop_last()[0] == e[0]);
    if e[0].0 != key {
        assert(e.skip(1).drop_last() =~= e.drop_last().skip(1));
        lemma_find_key_range(e.skip(1), key);
        lemma_find_key_drop_last(e.skip(1), key);
    }
}

/// Recording a root occurrence adds exactly that span's total time to the
/// entry sums.
proof fn lemma_push_root_total(v: StoreView, e: Entries, key: Seq<char>, idx: int)
    ensures
        entries_total(v, push_root_s(e, key, idx)) == entries_total(v, e)
            + crate::model::spec_total_time(v, idx),
    decreases e.len(),
{
    lemma_find_key_range(e, key);
    let j = find_key(e, key);
    let u = push_root_s(e, key, idx);
    if j < 0 {
        assert(u == e.push((key, seq![idx], Seq::<int>::empty())));
        assert(u.drop_last() =~= e);
        assert(u.last().1 == seq![idx]);
        assert(seq![idx].drop_last() =~= Seq::<int>::empty());
        assert(seq![idx].last() == idx);
        assert(sum_totals(v, Seq::<int>::empty()) == 0);
        assert(sum_totals(v, seq![idx]) == crate::model::spec_total_time(v, idx));
    } else if j == e.len() - 1 {
        assert(u.drop_last() =~= e.drop_last());
        assert(u.last().1 == e.last().1.push(idx));
        assert(e.last().1.push(idx).drop_last() =~= e.last().1);
        assert(sum_totals(v, e.last().1.push(idx)) == sum_totals(v, e.last().1)
            + crate::model::spec_total_time(v, idx));
    } else {
        lemma_find_key_drop_last(e, key);
        assert(u.last() == e.last());
        assert(u.drop_last() =~= push_root_s(e.drop_last(), key, idx));
        lemma_push_root_total(v, e.drop_last(), key, idx);
    }
}

/// Grouping conserves total time: each candidate becomes a root of
/// exactly one entry, so the entry sums add up to the candidates' sum.
pub proof fn lemma_grouping_conserves_totals(v: StoreView, cs: Seq<int>)
    ensures
        entries_total(v, group_roots(v, cs)) == sum_totals(v, cs),
    decreases cs.len(),
{
    if cs.len() > 0 {
        lemma_grouping_conserves_totals(v, cs.drop_last());
        lemma_push_root_total(v, group_roots(v, cs.drop_last()), gname(v, cs.last()), cs.last());
    }
}

/// Sum of the root total times over a list of aggregation nodes.
pub open spec fn graphs_total(v: StoreView, gs: Seq<GraphView>) -> int
    decreases gs.len(),
{
    if gs.len() == 0 {
        0
    } else {
        graphs_total(v, gs.drop_last()) + sum_totals(v, gs.last().root_spans)
    }
}

proof fn lemma_graphs_total_pointwise(v: StoreView, gs: Seq<GraphView>, e: Entries)
    requires
        gs.len() == e.len(),
        forall|j: int| 0 <= j < gs.len() ==> (#[trigger] gs[j]).root_spans == e[j].1,
    ensures
        graphs_total(v, gs) == entries_total(v, e),
    decreases gs.len(),
{
    if gs.len() > 0 {
        assert(gs.last().root_spans == e.last().1);
        assert forall|j: int| 0 <= j < gs.drop_last().len() implies (#[trigger] gs.drop_last()[
            j
        ]).root_spans == e.drop_last()[j].1 by {
            assert(gs.drop_last()[j] == gs[j]);
            assert(e.drop_last()[j] == e[j]);
        }
        lemma_graphs_total_pointwise(v, gs.drop_last(), e.drop_last());
    }
}

/// Aggregation conservation: the aggregation nodes of a span cover its
/// direct children exactly once, so their root total times add up to the
/// children's total times.
pub proof fn lemma_aggregation_conservation(v: StoreView, host: int, gs: Seq<GraphView>)
    requires
        graph_cell_ok(v, host, gs),
    ensures
        graphs_total(v, gs) == sum_totals(v, child_ids(v[host].events)),
{
    let e = group_roots(v, child_ids(v[host].events));
    lemma_graphs_total_pointwise(v, gs, e);
    lemma_grouping_conserves_totals(v, child_ids(v[host].events));
}

/// The aggregation nodes `gs` group the candidate list `cands`: their
/// keys and root lists are exactly the insertion-ordered grouping of the
/// candidates, and every member is a valid span strictly above `lo`
/// carrying its entry's group name.
pub open spec fn nested_cell_ok(v: StoreView, lo: int, cands: Seq<int>, gs: Seq<GraphView>) -> bool {
    let e = group_roots(v, cands);
    &&& gs.len() == e.len()
    &&& (forall|j: int| 0 <= j < gs.len() ==> (#[trigger] gs[j]).root_spans == e[j].1)
    &&& (forall|j: int| 0 <= j < gs.len() ==> (#[trigger] gs[j]).root_spans.len() >= 1)
    &&& (forall|j: int, t: int|
        0 <= j < gs.len() && 0 <= t < gs[j].members().len() ==> {
            &&& lo < #[trigger] gs[j].members()[t] < v.len()
            &&& gname(v, gs[j].members()[t]) == e[j].0
        })
}

/// What a filled aggregation cell of `host` may hold: the grouping of the
/// host's direct children.
pub open spec fn graph_cell_ok(v: StoreView, host: int, gs: Seq<GraphView>) -> bool {
    nested_cell_ok(v, host, child_ids(v[host].events), gs)
}

} // verus!
