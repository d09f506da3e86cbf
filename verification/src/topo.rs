//! Lexicographical topological sorting of an event graph.
//!
//! This is Kahn's algorithm over the edges from an event to its auth parents: an event
//! is ready once all its parents have been emitted, and of the ready events the least
//! by power level (highest first), timestamp and event id goes next.

use vstd::prelude::*;
use vstd::set_lib::{lemma_len_subset, lemma_subset_equality};
use crate::assoc::{entry_keys, lemma_entries_map, VecMap, VecSet};
use crate::error::{unsorted_reason, Error, ErrorView};
use crate::order::{key_ids, key_lt, least_index, lemma_key_lt_order, SortKey};

verus! {

/// A graph of events: each node with the set of its auth parents.
pub type EventGraph = VecMap<String, VecSet<String>>;

/// The nodes that can go next: not yet emitted, with every parent emitted.
pub open spec fn ready(graph: Map<Seq<char>, Set<Seq<char>>>, done: Set<Seq<char>>) -> Set<
    Seq<char>,
> {
    Set::new(
        |n: Seq<char>| graph.contains_key(n) && !done.contains(n) && graph[n].subset_of(done),
    )
}

/// The key by which a node is ordered: its rank and timestamp, then its id.
pub open spec fn node_key(keys: spec_fn(Seq<char>) -> (int, int), n: Seq<char>) -> (
    int,
    int,
    Seq<char>,
) {
    (keys(n).0, keys(n).1, n)
}

/// Whether `n` is the candidate that comes before every other.
pub open spec fn is_least(
    keys: spec_fn(Seq<char>) -> (int, int),
    candidates: Set<Seq<char>>,
    n: Seq<char>,
) -> bool {
    &&& candidates.contains(n)
    &&& forall|m: Seq<char>| #[trigger]
        candidates.contains(m) && m != n ==> key_lt(node_key(keys, n), node_key(keys, m))
}

/// Whether each element of `s` was, in its turn, the least of the ready nodes.
pub open spec fn is_sorted_prefix(
    graph: Map<Seq<char>, Set<Seq<char>>>,
    keys: spec_fn(Seq<char>) -> (int, int),
    s: Seq<Seq<char>>,
) -> bool {
    forall|i: int|
        0 <= i < s.len() ==> is_least(keys, ready(graph, s.take(i).to_set()), #[trigger] s[i])
}

/// Whether `s` is the lexicographical topological order of the graph: built by taking the
/// least ready node again and again, until none is ready.
pub open spec fn is_lexicographical_topological_order(
    graph: Map<Seq<char>, Set<Seq<char>>>,
    keys: spec_fn(Seq<char>) -> (int, int),
    s: Seq<Seq<char>>,
) -> bool {
    &&& is_sorted_prefix(graph, keys, s)
    &&& ready(graph, s.to_set()) == Set::<Seq<char>>::empty()
}

/// The view of what a key function hands back.
pub open spec fn key_result_view(r: Result<(i64, u64), Error>) -> Result<(i64, u64), ErrorView> {
    match r {
        Ok(k) => Ok(k),
        Err(e) => Err(e@),
    }
}

/// Whether a key function can be called on every id and answers by the id's text alone.
pub open spec fn key_fn_is_function<F: Fn(&String) -> Result<(i64, u64), Error>>(f: F) -> bool {
    &&& forall|s: &String| #[trigger] f.requires((s,))
    &&& forall|s1: &String, s2: &String, r1: Result<(i64, u64), Error>, r2: Result<(i64, u64), Error>|
        s1@ == s2@ && #[trigger] f.ensures((s1,), r1) && #[trigger] f.ensures((s2,), r2)
            ==> key_result_view(r1) == key_result_view(r2)
}

/// What a key function answers for an id: a power level and a timestamp, or an error.
pub open spec fn key_fn_result<F: Fn(&String) -> Result<(i64, u64), Error>>(
    f: F,
    id: Seq<char>,
) -> Result<(i64, u64), ErrorView> {
    let (s, r) = choose|s: &String, r: Result<(i64, u64), Error>|
        s@ == id && #[trigger] f.ensures((s,), r);
    key_result_view(r)
}

/// The rank and timestamp by which the sort orders a node: the power level negated, so
/// that higher power sorts earlier, and the timestamp.
pub open spec fn topological_keys<F: Fn(&String) -> Result<(i64, u64), Error>>(f: F) -> spec_fn(
    Seq<char>,
) -> (int, int) {
    |id: Seq<char>|
        match key_fn_result(f, id) {
            Ok((power_level, ts)) => (-(power_level as int), ts as int),
            Err(_) => (0int, 0int),
        }
}

/// Whether the key function has an answer for the id.
pub open spec fn key_fn_answers<F: Fn(&String) -> Result<(i64, u64), Error>>(
    f: F,
    id: Seq<char>,
) -> bool {
    exists|s: &String, r: Result<(i64, u64), Error>| s@ == id && #[trigger] f.ensures((s,), r)
}

/// Whether the key function answers with a key for every element of `s`.
pub open spec fn keys_known<F: Fn(&String) -> Result<(i64, u64), Error>>(
    f: F,
    s: Seq<Seq<char>>,
) -> bool {
    forall|i: int| 0 <= i < s.len() ==> key_known(f)(#[trigger] s[i])
}

/// Calls the key function and makes the sort key of a node from its answer.
fn key_for<F: Fn(&String) -> Result<(i64, u64), Error>>(key_fn: &F, node: &String) -> (r: Result<
    SortKey,
    Error,
>)
    requires
        key_fn_is_function(*key_fn),
    ensures
        match r {
            Ok(k) => key_known(*key_fn)(node@) && k.id@ == node@ && k@ == node_key(
                topological_keys(*key_fn),
                node@,
            ),
            Err(e) => key_fn_answers(*key_fn, node@) && key_fn_result(*key_fn, node@) == Err::<
                (i64, u64),
                ErrorView,
            >(e@),
        },
{
    let answer = key_fn(node);
    proof {
        let v = key_result_view(answer);
        assert(key_fn.ensures((node,), answer));
        let (s, r) = choose|s: &String, r: Result<(i64, u64), Error>|
            s@ == node@ && #[trigger] key_fn.ensures((s,), r);
        assert(key_result_view(r) == v);
    }
    match answer {
        Ok((power_level, ts)) => Ok(SortKey { rank: -(power_level as i128), ts, id: node.clone() }),
        Err(e) => Err(e),
    }
}

/// The nodes for which the key function answers with a key.
pub open spec fn key_known<F: Fn(&String) -> Result<(i64, u64), Error>>(f: F) -> spec_fn(
    Seq<char>,
) -> bool {
    |id: Seq<char>| key_fn_answers(f, id) && key_fn_result(f, id) is Ok
}

/// Whether `heap` holds exactly the nodes of `nodes`, each once, with its key, and only
/// nodes of which `known` holds.
pub open spec fn heap_holds(
    keys: spec_fn(Seq<char>) -> (int, int),
    known: spec_fn(Seq<char>) -> bool,
    heap: Seq<SortKey>,
    nodes: Set<Seq<char>>,
) -> bool {
    &&& key_ids(heap).no_duplicates()
    &&& forall|k: int|
        0 <= k < heap.len() ==> nodes.contains((#[trigger] heap[k]).id@) && heap[k]@ == node_key(
            keys,
            heap[k].id@,
        ) && known(heap[k].id@)
    &&& forall|n: Seq<char>| #[trigger]
        nodes.contains(n) ==> exists|k: int| 0 <= k < heap.len() && (#[trigger] heap[k]).id@ == n
}

pub proof fn lemma_heap_push(
    keys: spec_fn(Seq<char>) -> (int, int),
    known: spec_fn(Seq<char>) -> bool,
    heap: Seq<SortKey>,
    nodes: Set<Seq<char>>,
    key: SortKey,
)
    requires
        heap_holds(keys, known, heap, nodes),
        !nodes.contains(key.id@),
        key@ == node_key(keys, key.id@),
        known(key.id@),
    ensures
        heap_holds(keys, known, heap.push(key), nodes.insert(key.id@)),
{
    let after = heap.push(key);
    assert forall|a: int, b: int| 0 <= a < after.len() && 0 <= b < after.len() && a != b implies key_ids(
        after,
    )[a] != key_ids(after)[b] by {
        if a < heap.len() && b < heap.len() {
            assert(key_ids(heap)[a] != key_ids(heap)[b]);
        } else if a < heap.len() {
            assert(nodes.contains(heap[a].id@));
        } else if b < heap.len() {
            assert(nodes.contains(heap[b].id@));
        }
    }
    assert forall|k: int| 0 <= k < after.len() implies nodes.insert(key.id@).contains(
        (#[trigger] after[k]).id@,
    ) && after[k]@ == node_key(keys, after[k].id@) && known(after[k].id@) by {
        if k < heap.len() {
            assert(after[k] == heap[k]);
        }
    }
    assert forall|n: Seq<char>| #[trigger] nodes.insert(key.id@).contains(n) implies exists|k: int|
        0 <= k < after.len() && (#[trigger] after[k]).id@ == n by {
        if nodes.contains(n) {
            let k = choose|k: int| 0 <= k < heap.len() && (#[trigger] heap[k]).id@ == n;
            assert(after[k].id@ == n);
        } else {
            assert(after[heap.len() as int].id@ == n);
        }
    }
}

pub proof fn lemma_heap_remove(
    keys: spec_fn(Seq<char>) -> (int, int),
    known: spec_fn(Seq<char>) -> bool,
    heap: Seq<SortKey>,
    nodes: Set<Seq<char>>,
    at: int,
)
    requires
        heap_holds(keys, known, heap, nodes),
        0 <= at < heap.len(),
    ensures
        heap_holds(keys, known, heap.remove(at), nodes.remove(heap[at].id@)),
{
    let after = heap.remove(at);
    let gone = heap[at].id@;
    assert forall|a: int| 0 <= a < after.len() implies #[trigger] after[a] == heap[if a < at {
        a
    } else {
        a + 1
    }] by {}
    assert forall|a: int, b: int| 0 <= a < after.len() && 0 <= b < after.len() && a != b implies key_ids(
        after,
    )[a] != key_ids(after)[b] by {
        let a0 = if a < at { a } else { a + 1 };
        let b0 = if b < at { b } else { b + 1 };
        assert(after[a] == heap[a0]);
        assert(after[b] == heap[b0]);
        assert(key_ids(heap)[a0] != key_ids(heap)[b0]);
    }
    assert forall|k: int| 0 <= k < after.len() implies nodes.remove(gone).contains(
        (#[trigger] after[k]).id@,
    ) && after[k]@ == node_key(keys, after[k].id@) && known(after[k].id@) by {
        let k0 = if k < at { k } else { k + 1 };
        assert(after[k] == heap[k0]);
        assert(key_ids(heap)[k0] != key_ids(heap)[at]);
    }
    assert forall|n: Seq<char>| #[trigger] nodes.remove(gone).contains(n) implies exists|k: int|
        0 <= k < after.len() && (#[trigger] after[k]).id@ == n by {
        let k = choose|k: int| 0 <= k < heap.len() && (#[trigger] heap[k]).id@ == n;
        let k1 = if k < at { k } else { k - 1 };
        assert(after[k1] == heap[k]);
    }
}

/// Whether `entries` lists the nodes of `graph`, each once, with its parents.
pub open spec fn lists_graph(
    entries: Seq<(Seq<char>, Set<Seq<char>>)>,
    graph: Map<Seq<char>, Set<Seq<char>>>,
) -> bool {
    &&& entry_keys(entries).no_duplicates()
    &&& forall|j: int|
        0 <= j < entries.len() ==> graph.contains_key(#[trigger] entries[j].0) && graph[entries[j].0]
            == entries[j].1
    &&& forall|x: Seq<char>| #[trigger]
        graph.contains_key(x) ==> exists|j: int| 0 <= j < entries.len() && entries[j].0 == x
}

/// Whether a node becomes ready by the last step: every parent is emitted, and the node
/// emitted last, if there is one, is among them.
pub open spec fn released(parents: Set<Seq<char>>, done: Set<Seq<char>>, last: Option<Seq<char>>)
    -> bool {
    &&& parents.subset_of(done)
    &&& last matches Some(item) ==> parents.contains(item)
}

/// Puts on the heap the nodes that the last step has made ready.
fn release<F: Fn(&String) -> Result<(i64, u64), Error>>(
    graph: &EventGraph,
    key_fn: &F,
    done: &VecSet<String>,
    last: Option<&String>,
    heap: &mut Vec<SortKey>,
    Ghost(base): Ghost<Set<Seq<char>>>,
) -> (r: Result<(), Error>)
    requires
        key_fn_is_function(*key_fn),
        heap_holds(topological_keys(*key_fn), key_known(*key_fn), old(heap)@, base),
        base.subset_of(ready(graph@, done@)),
        forall|x: Seq<char>| #[trigger]
            graph@.contains_key(x) ==> ((ready(graph@, done@).contains(x) && !base.contains(x))
                <==> released(
                graph@[x],
                done@,
                match last {
                    Some(item) => Some(item@),
                    None => None,
                },
            )),
    ensures
        match r {
            Ok(()) => heap_holds(
                topological_keys(*key_fn),
                key_known(*key_fn),
                final(heap)@,
                ready(graph@, done@),
            ),
            Err(e) => exists|m: Seq<char>| #[trigger]
                ready(graph@, done@).contains(m) && key_fn_answers(*key_fn, m) && key_fn_result(
                    *key_fn,
                    m,
                ) == Err::<(i64, u64), ErrorView>(e@),
        },
{
    let ghost keys = topological_keys(*key_fn);
    let ghost target = ready(graph@, done@);
    let ghost last_id: Option<Seq<char>> = match last {
        Some(item) => Some(item@),
        None => None,
    };
    let n = graph.len();
    proof {
        lemma_entries_map(graph.entries());
    }
    let ghost mut held = base;
    let mut j: usize = 0;
    while j < n
        invariant
            j <= n,
            n == graph.entries().len(),
            lists_graph(graph.entries(), graph@),
            key_fn_is_function(*key_fn),
            keys == topological_keys(*key_fn),
            target == ready(graph@, done@),
            last_id == (match last {
                Some(item) => Some(item@),
                None => None,
            }),
            heap_holds(keys, key_known(*key_fn), heap@, held),
            base.subset_of(held),
            held.subset_of(target),
            forall|x: Seq<char>| #[trigger]
                graph@.contains_key(x) ==> ((target.contains(x) && !base.contains(x)) <==> released(
                    graph@[x],
                    done@,
                    last_id,
                )),
            forall|x: Seq<char>| #[trigger]
                held.contains(x) ==> base.contains(x) || exists|t: int|
                    0 <= t < j && graph.entries()[t].0 == x,
            forall|t: int| 0 <= t < j && target.contains(#[trigger] graph.entries()[t].0) ==> held.contains(graph.entries()[t].0),
        decreases n - j,
    {
        let node = graph.key_at(j);
        let parents = graph.value_at(j);
        let ghost node_id = graph.entries()[j as int].0;
        assert(graph@.contains_key(node_id) && graph@[node_id] == parents@);
        let by_last = match last {
            Some(item) => parents.contains(item),
            None => true,
        };
        if by_last && parents.is_subset_of(done) {
            assert(released(graph@[node_id], done@, last_id));
            proof {
                if held.contains(node_id) {
                    let t = choose|t: int| 0 <= t < j && graph.entries()[t].0 == node_id;
                    assert(entry_keys(graph.entries())[t] == entry_keys(graph.entries())[j as int]);
                }
            }
            match key_for(key_fn, node) {
                Err(e) => {
                    assert(target.contains(node_id));
                    return Err(e);
                },
                Ok(key) => {
                    proof {
                        lemma_heap_push(keys, key_known(*key_fn), heap@, held, key);
                        held = held.insert(node_id);
                    }
                    heap.push(key);
                },
            }
        } else {
            assert(!released(graph@[node_id], done@, last_id));
        }
        j += 1;
    }
    proof {
        assert forall|x: Seq<char>| target.contains(x) implies held.contains(x) by {
            let t = choose|t: int| 0 <= t < n && graph.entries()[t].0 == x;
            assert(target.contains(graph.entries()[t].0));
        }
        assert(held =~= target);
    }
    Ok(())
}

/// Whether the sort has met a ready node for which the key function answers with the
/// given error.
pub open spec fn key_fails<F: Fn(&String) -> Result<(i64, u64), Error>>(
    graph: Map<Seq<char>, Set<Seq<char>>>,
    f: F,
    error: ErrorView,
) -> bool {
    exists|p: Seq<Seq<char>>, m: Seq<char>|
        {
            &&& is_sorted_prefix(graph, topological_keys(f), p)
            &&& keys_known(f, p)
            &&& #[trigger] ready(graph, p.to_set()).contains(m)
            &&& key_fn_answers(f, m)
            &&& key_fn_result(f, m) == Err::<(i64, u64), ErrorView>(error)
        }
}

/// Whether the sort comes to an end before every node is emitted: the nodes left are on
/// a cycle, or hang on a node that is none of the graph.
pub open spec fn leaves_a_remainder<F: Fn(&String) -> Result<(i64, u64), Error>>(
    graph: Map<Seq<char>, Set<Seq<char>>>,
    f: F,
) -> bool {
    exists|s: Seq<Seq<char>>|
        {
            &&& #[trigger] is_lexicographical_topological_order(graph, topological_keys(f), s)
            &&& keys_known(f, s)
            &&& s.to_set() != graph.dom()
        }
}

/// Sorts the event graph based on number of outgoing/incoming edges.
///
/// `key_fn` is used to obtain the power level and age of an event for breaking ties
/// (together with the event id). A graph with a node that never gets ready, because it
/// is on a cycle or has a parent that is no node of the graph, is malformed and cannot
/// be sorted.
pub fn lexicographical_topological_sort<F: Fn(&String) -> Result<(i64, u64), Error>>(
    graph: &EventGraph,
    key_fn: &F,
) -> (r: Result<Vec<String>, Error>)
    requires
        key_fn_is_function(*key_fn),
    ensures
        match r {
            Ok(sorted) => {
                &&& is_lexicographical_topological_order(
                    graph@,
                    topological_keys(*key_fn),
                    sorted.deep_view(),
                )
                &&& keys_known(*key_fn, sorted.deep_view())
                &&& sorted.deep_view().to_set() == graph@.dom()
            },
            Err(e) => key_fails(graph@, *key_fn, e@) || (e@ == ErrorView::InvalidPdu(
                unsorted_reason(),
            ) && leaves_a_remainder(graph@, *key_fn)),
        },
{
    let ghost keys = topological_keys(*key_fn);
    let n = graph.len();
    let mut heap: Vec<SortKey> = Vec::new();
    let mut done: VecSet<String> = VecSet::new();
    proof {
        let none = Set::<Seq<char>>::empty();
        assert(heap_holds(keys, key_known(*key_fn), heap@, none));
        assert(done.elements().to_set() =~= none);
        assert forall|x: Seq<char>| #[trigger] graph@.contains_key(x) implies ((ready(
            graph@,
            done@,
        ).contains(x) && !none.contains(x)) <==> released(
            graph@[x],
            done@,
            None::<Seq<char>>,
        )) by {}
    }
    match release(graph, key_fn, &done, None, &mut heap, Ghost(Set::empty())) {
        Err(e) => {
            proof {
                let p = done.elements();
                let m = choose|m: Seq<char>| #[trigger]
                    ready(graph@, done@).contains(m) && key_fn_answers(*key_fn, m)
                        && key_fn_result(*key_fn, m) == Err::<(i64, u64), ErrorView>(e@);
                assert(is_sorted_prefix(graph@, keys, p));
                assert(keys_known(*key_fn, p));
                assert(ready(graph@, p.to_set()).contains(m));
            }
            return Err(e);
        },
        Ok(()) => {},
    }
    while heap.len() > 0
        invariant
            n == graph@.dom().len(),
            graph@.dom().finite(),
            key_fn_is_function(*key_fn),
            keys == topological_keys(*key_fn),
            heap_holds(keys, key_known(*key_fn), heap@, ready(graph@, done@)),
            is_sorted_prefix(graph@, keys, done.elements()),
            keys_known(*key_fn, done.elements()),
            done@.subset_of(graph@.dom()),
            forall|d: Seq<char>| #[trigger] done@.contains(d) ==> graph@[d].subset_of(done@),
        decreases n - done.elements().len(),
    {
        let best = least_index(&heap);
        let ghost heap0 = heap@;
        let ghost done0 = done@;
        let ghost sorted0 = done.elements();
        let ghost ready0 = ready(graph@, done0);
        let emitted = done.len();
        let item = heap.remove(best);
        let ghost item_id = item.id@;
        proof {
            assert(heap0[best as int] == item);
            assert(ready0.contains(item_id));
            assert(is_least(keys, ready0, item_id)) by {
                assert forall|m: Seq<char>| #[trigger] ready0.contains(m) && m != item_id implies key_lt(
                    node_key(keys, item_id),
                    node_key(keys, m),
                ) by {
                    let k = choose|k: int| 0 <= k < heap0.len() && (#[trigger] heap0[k]).id@ == m;
                    assert(k != best);
                }
            }
            lemma_heap_remove(keys, key_known(*key_fn), heap0, ready0, best as int);
            lemma_len_subset(done0.insert(item_id), graph@.dom());
            assert(emitted < n);
            assert(key_known(*key_fn)(heap0[best as int].id@));
        }
        let node = item.id;
        done.insert(node.clone());
        let ghost done1 = done@;
        let ghost sorted1 = done.elements();
        let ghost base = ready0.remove(item_id);
        proof {
            assert(sorted1 == sorted0.push(item_id));
            assert(sorted1.take(sorted0.len() as int) =~= sorted0);
            assert(sorted0.to_set() == done0);
            assert forall|k: int| 0 <= k < sorted1.len() implies is_least(
                keys,
                ready(graph@, sorted1.take(k).to_set()),
                #[trigger] sorted1[k],
            ) by {
                if k < sorted0.len() {
                    assert(sorted1.take(k) =~= sorted0.take(k));
                    assert(sorted1[k] == sorted0[k]);
                }
            }
            assert forall|k: int| 0 <= k < sorted1.len() implies key_known(*key_fn)(
                #[trigger] sorted1[k],
            ) by {
                if k < sorted0.len() {
                    assert(sorted1[k] == sorted0[k]);
                }
            }
            assert(graph@[item_id].subset_of(done0));
            assert forall|x: Seq<char>| #[trigger] graph@.contains_key(x) implies ((ready(
                graph@,
                done1,
            ).contains(x) && !base.contains(x)) <==> released(graph@[x], done1, Some(item_id))) by {
                if released(graph@[x], done1, Some(item_id)) {
                    if done0.contains(x) {
                        assert(graph@[x].subset_of(done0));
                    }
                }
            }
        }
        match release(graph, key_fn, &done, Some(&node), &mut heap, Ghost(base)) {
            Err(e) => {
                proof {
                    let m = choose|m: Seq<char>| #[trigger]
                        ready(graph@, done@).contains(m) && key_fn_answers(*key_fn, m)
                            && key_fn_result(*key_fn, m) == Err::<(i64, u64), ErrorView>(e@);
                    assert(ready(graph@, sorted1.to_set()).contains(m));
                }
                return Err(e);
            },
            Ok(()) => {},
        }
    }
    proof {
        assert(ready(graph@, done@) =~= Set::<Seq<char>>::empty()) by {
            assert forall|x: Seq<char>| !ready(graph@, done@).contains(x) by {
                if ready(graph@, done@).contains(x) {
                    let k = choose|k: int| 0 <= k < heap@.len() && (#[trigger] heap@[k]).id@ == x;
                }
            }
        }
    }
    let ghost order = done.elements();
    if done.len() < n {
        proof {
            assert(is_lexicographical_topological_order(graph@, keys, order));
            if order.to_set() == graph@.dom() {
                assert(done@.len() == graph@.dom().len());
            }
        }
        return Err(Error::unsorted_graph());
    }
    proof {
        lemma_len_subset(done@, graph@.dom());
        lemma_subset_equality(done@, graph@.dom());
    }
    let sorted = done.into_vec();
    assert(sorted.deep_view() =~= order);
    Ok(sorted)
}

/// Every element of a sorted prefix is a node of the graph, and none occurs twice.
pub proof fn lemma_sorted_prefix_nodes(
    graph: Map<Seq<char>, Set<Seq<char>>>,
    keys: spec_fn(Seq<char>) -> (int, int),
    s: Seq<Seq<char>>,
)
    requires
        is_sorted_prefix(graph, keys, s),
    ensures
        s.no_duplicates(),
        forall|i: int| 0 <= i < s.len() ==> graph.contains_key(#[trigger] s[i]),
{
    assert forall|i: int, j: int| 0 <= i < j < s.len() implies s[i] != s[j] by {
        assert(is_least(keys, ready(graph, s.take(j).to_set()), s[j]));
        assert(s.take(j)[i] == s[i]);
        assert(s.take(j).to_set().contains(s[i]));
    }
    assert forall|i: int| 0 <= i < s.len() implies graph.contains_key(#[trigger] s[i]) by {
        assert(is_least(keys, ready(graph, s.take(i).to_set()), s[i]));
    }
}

/// The order respects the edges: every auth parent of an emitted node was emitted before it.
pub proof fn lemma_parents_come_first(
    graph: Map<Seq<char>, Set<Seq<char>>>,
    keys: spec_fn(Seq<char>) -> (int, int),
    s: Seq<Seq<char>>,
    i: int,
    parent: Seq<char>,
)
    requires
        is_sorted_prefix(graph, keys, s),
        0 <= i < s.len(),
        graph[s[i]].contains(parent),
    ensures
        exists|j: int| 0 <= j < i && s[j] == parent,
{
    assert(is_least(keys, ready(graph, s.take(i).to_set()), s[i]));
    assert(s.take(i).to_set().contains(parent));
    let j = choose|j: int| 0 <= j < s.take(i).len() && s.take(i)[j] == parent;
    assert(s[j] == parent);
}

proof fn lemma_prefixes_agree(
    graph: Map<Seq<char>, Set<Seq<char>>>,
    keys1: spec_fn(Seq<char>) -> (int, int),
    keys2: spec_fn(Seq<char>) -> (int, int),
    s1: Seq<Seq<char>>,
    s2: Seq<Seq<char>>,
    n: int,
)
    requires
        is_sorted_prefix(graph, keys1, s1),
        is_sorted_prefix(graph, keys2, s2),
        forall|x: Seq<char>| graph.contains_key(x) ==> #[trigger] keys1(x) == keys2(x),
        0 <= n <= s1.len(),
        n <= s2.len(),
    ensures
        s1.take(n) == s2.take(n),
    decreases n,
{
    if n == 0 {
        assert(s1.take(0) =~= s2.take(0));
    } else {
        lemma_prefixes_agree(graph, keys1, keys2, s1, s2, n - 1);
        let done = s1.take(n - 1).to_set();
        let a = s1[n - 1];
        let b = s2[n - 1];
        assert(is_least(keys1, ready(graph, done), a));
        assert(is_least(keys2, ready(graph, done), b));
        if a != b {
            assert(keys1(a) == keys2(a));
            assert(keys1(b) == keys2(b));
            lemma_key_lt_order(node_key(keys1, a), node_key(keys1, b), node_key(keys1, a));
        }
        assert(s1.take(n) =~= s1.take(n - 1).push(a));
        assert(s2.take(n) =~= s2.take(n - 1).push(b));
    }
}

/// The order is determined by the graph and the keys of its nodes: two key functions that
/// agree on the nodes give the same order, ties being broken by the event id.
pub proof fn lemma_order_is_unique(
    graph: Map<Seq<char>, Set<Seq<char>>>,
    keys1: spec_fn(Seq<char>) -> (int, int),
    keys2: spec_fn(Seq<char>) -> (int, int),
    s1: Seq<Seq<char>>,
    s2: Seq<Seq<char>>,
)
    requires
        is_lexicographical_topological_order(graph, keys1, s1),
        is_lexicographical_topological_order(graph, keys2, s2),
        forall|x: Seq<char>| graph.contains_key(x) ==> #[trigger] keys1(x) == keys2(x),
    ensures
        s1 == s2,
{
    let n = if s1.len() <= s2.len() { s1.len() as int } else { s2.len() as int };
    lemma_prefixes_agree(graph, keys1, keys2, s1, s2, n);
    assert(s1.take(s1.len() as int) =~= s1);
    assert(s2.take(s2.len() as int) =~= s2);
    if s1.len() < s2.len() {
        assert(is_least(keys2, ready(graph, s2.take(n).to_set()), s2[n]));
        assert(ready(graph, s1.to_set()).contains(s2[n]));
    } else if s2.len() < s1.len() {
        assert(is_least(keys1, ready(graph, s1.take(n).to_set()), s1[n]));
        assert(ready(graph, s2.to_set()).contains(s1[n]));
    }
}

/// The order rests only on the keys of the nodes that it emits: keys that agree on those
/// give the same order.
pub proof fn lemma_order_rests_on_emitted_keys(
    graph: Map<Seq<char>, Set<Seq<char>>>,
    keys1: spec_fn(Seq<char>) -> (int, int),
    keys2: spec_fn(Seq<char>) -> (int, int),
    s: Seq<Seq<char>>,
)
    requires
        is_lexicographical_topological_order(graph, keys1, s),
        forall|i: int| 0 <= i < s.len() ==> keys1(#[trigger] s[i]) == keys2(s[i]),
    ensures
        is_lexicographical_topological_order(graph, keys2, s),
{
    assert forall|i: int| 0 <= i < s.len() implies is_least(
        keys2,
        ready(graph, s.take(i).to_set()),
        #[trigger] s[i],
    ) by {
        let candidates = ready(graph, s.take(i).to_set());
        assert(is_least(keys1, candidates, s[i]));
        assert forall|m: Seq<char>| #[trigger] candidates.contains(m) && m != s[i] implies key_lt(
            node_key(keys2, s[i]),
            node_key(keys2, m),
        ) by {
            assert(s.to_set().contains(m)) by {
                if !s.to_set().contains(m) {
                    assert forall|p: Seq<char>| graph[m].contains(p) implies s.to_set().contains(
                        p,
                    ) by {
                        assert(s.take(i).to_set().contains(p));
                        let t = choose|t: int| 0 <= t < s.take(i).len() && s.take(i)[t] == p;
                        assert(s[t] == p);
                    }
                    assert(ready(graph, s.to_set()).contains(m));
                }
            }
            let t = choose|t: int| 0 <= t < s.len() && s[t] == m;
            assert(keys1(s[t]) == keys2(s[t]));
        }
    }
}

/// The sort fails exactly where no order is reached: once a node without a key is ready,
/// there is no complete order all of whose nodes have keys.
pub proof fn lemma_no_order_past_a_missing_key(
    graph: Map<Seq<char>, Set<Seq<char>>>,
    keys: spec_fn(Seq<char>) -> (int, int),
    known: spec_fn(Seq<char>) -> bool,
    order: Seq<Seq<char>>,
    prefix: Seq<Seq<char>>,
    missing: Seq<char>,
)
    requires
        is_sorted_prefix(graph, keys, prefix),
        ready(graph, prefix.to_set()).contains(missing),
        !known(missing),
        is_lexicographical_topological_order(graph, keys, order),
    ensures
        exists|i: int| 0 <= i < order.len() && !known(#[trigger] order[i]),
{
    let n = if prefix.len() <= order.len() { prefix.len() as int } else { order.len() as int };
    lemma_prefixes_agree(graph, keys, keys, prefix, order, n);
    if prefix.len() <= order.len() {
        assert(prefix.take(n) =~= prefix);
        assert forall|x: Seq<char>| prefix.to_set().contains(x) implies order.to_set().contains(
            x,
        ) by {
            let t = choose|t: int| 0 <= t < prefix.len() && prefix[t] == x;
            assert(order.take(n)[t] == x);
            assert(order[t] == x);
        }
        if !order.to_set().contains(missing) {
            assert(ready(graph, order.to_set()).contains(missing));
        }
        let i = choose|i: int| 0 <= i < order.len() && order[i] == missing;
        assert(!known(order[i]));
    } else {
        assert(order.take(n) =~= order);
        assert(is_least(keys, ready(graph, prefix.take(n).to_set()), prefix[n]));
        assert(ready(graph, order.to_set()).contains(prefix[n]));
    }
}

} // verus!
