//! Hierarchical navigable small-world (HNSW) graph index.
//!
//! Nodes live on layers `0..=max_layer`; every node keeps, per layer, a list
//! of neighbour ids.  Searches descend greedily from the entry point through
//! the upper layers and then explore layer 0.  Deleted nodes stay in the
//! graph as tombstones: they still route searches but are never returned.
//!
//! Distances are computed outside this crate (in `f32`) and arrive as order
//! keys (see `score`) from a key function the caller passes: it maps a
//! stored vector to the key of its distance to the query, and the graph
//! calls it only on the nodes a search reaches.  A smaller key is a closer
//! node: searches keep the smallest keys, and a new node links to the nodes
//! with the smallest keys.  A NaN distance has a key above every number's
//! (see `score`), so such a node ranks behind every other; nothing here
//! panics on one.
//! Vectors are held as the bit patterns of their `f32` components.
use vstd::prelude::*;
use std::collections::{HashMap, HashSet};

verus! {

broadcast use vstd::std_specs::hash::group_hash_axioms;

/// The number of candidates kept while linking a new node.
pub const EF_CONSTRUCTION: usize = 50;

/// The highest layer a node can be drawn on.
pub const MAX_LEVEL: usize = 16;

/// The most neighbours a new node links to on one layer.
pub const MAX_LINKS: usize = 16;

/// A JSON payload as the filter logic reads it.  An object is the list of
/// its members: the key as UTF-8 bytes and the value as its canonical JSON
/// text (so two values are equal exactly when their texts are).  Any other
/// JSON value is kept as its text.
#[derive(Debug)]
pub enum Payload {
    Object(Vec<(Vec<u8>, Vec<u8>)>),
    Other(Vec<u8>),
}

/// A graph node.
#[derive(Debug)]
pub struct Node {
    pub id: u64,
    pub vector: Vec<u32>,
    pub payload: Payload,
    pub neighbours: Vec<Vec<u64>>,
    pub max_layer: usize,
}

/// The graph index.
pub struct HnswIndex {
    pub dim: usize,
    pub nodes: HashMap<u64, Node>,
    pub entry_point: Option<u64>,
    pub max_layer: usize,
    pub ef_construction: usize,
    pub tombstones: HashSet<u64>,
}

/// The value of the first member of `fields` whose key is `key`.
pub open spec fn field_lookup(fields: Seq<(Vec<u8>, Vec<u8>)>, key: Seq<u8>) -> Option<Seq<u8>>
    decreases fields.len(),
{
    if fields.len() == 0 {
        None
    } else if fields[0].0@ == key {
        Some(fields[0].1@)
    } else {
        field_lookup(fields.drop_first(), key)
    }
}

/// A payload passes a filter when both are objects and every member of the
/// filter occurs, with an equal value, in the payload.
pub open spec fn payload_matches(payload: Payload, filter: Payload) -> bool {
    match (filter, payload) {
        (Payload::Object(f), Payload::Object(p)) => forall|i: int|
            0 <= i < f@.len() ==> field_lookup(p@, #[trigger] f@[i].0@) == Some(f@[i].1@),
        _ => false,
    }
}

/// The neighbours of node `n` on `layer` (none if the node does not reach
/// that layer).
pub open spec fn layer_nbrs(n: Node, layer: int) -> Seq<u64> {
    if 0 <= layer < n.neighbours@.len() {
        n.neighbours@[layer]@
    } else {
        Seq::empty()
    }
}

/// Node `n`, stored under `id`, is well formed in a graph whose ids are `dom`.
pub open spec fn node_wf(n: Node, id: u64, dom: Set<u64>) -> bool {
    &&& n.id == id
    &&& n.neighbours@.len() == n.max_layer + 1
    &&& forall|l: int, k: int|
        0 <= l < n.neighbours@.len() && 0 <= k < n.neighbours@[l]@.len() ==> dom.contains(
            #[trigger] n.neighbours@[l]@[k],
        )
}

/// Whether node `id` may be returned by a search with `filter`: it is not
/// deleted and its payload passes the filter.
pub open spec fn admitted(
    nodes: Map<u64, Node>,
    tombstones: Set<u64>,
    filter: Option<Payload>,
    id: u64,
) -> bool {
    &&& !tombstones.contains(id)
    &&& match filter {
        None => true,
        Some(f) => payload_matches(nodes[id].payload, f),
    }
}

/// Whether `payload` passes `filter`.
pub fn matches_filter(payload: &Payload, filter: &Payload) -> (r: bool)
    ensures
        r == payload_matches(*payload, *filter),
{
    match (filter, payload) {
        (Payload::Object(f), Payload::Object(p)) => {
            let mut i: usize = 0;
            while i < f.len()
                invariant
                    i <= f@.len(),
                    *filter == Payload::Object(*f),
                    *payload == Payload::Object(*p),
                    forall|q: int|
                        0 <= q < i ==> field_lookup(p@, #[trigger] f@[q].0@) == Some(f@[q].1@),
                decreases f@.len() - i,
            {
                let found = lookup_field(p, &f[i].0);
                match found {
                    Some(v) => {
                        if !bytes_equal(v, &f[i].1) {
                            assert(field_lookup(p@, f@[i as int].0@) != Some(f@[i as int].1@));
                            return false;
                        }
                    },
                    None => {
                        assert(field_lookup(p@, f@[i as int].0@) != Some(f@[i as int].1@));
                        return false;
                    },
                }
                i = i + 1;
            }
            true
        },
        _ => false,
    }
}

/// The value of the first member of `fields` whose key is `key`.
fn lookup_field<'a>(fields: &'a Vec<(Vec<u8>, Vec<u8>)>, key: &Vec<u8>) -> (r: Option<&'a Vec<u8>>)
    ensures
        match r {
            Some(v) => field_lookup(fields@, key@) == Some(v@),
            None => field_lookup(fields@, key@) is None,
        },
{
    let mut i: usize = 0;
    assert(fields@.skip(0) == fields@);
    while i < fields.len()
        invariant
            i <= fields@.len(),
            field_lookup(fields@.skip(i as int), key@) == field_lookup(fields@, key@),
        decreases fields@.len() - i,
    {
        assert(fields@.skip(i as int)[0] == fields@[i as int]);
        if bytes_equal(&fields[i].0, key) {
            return Some(&fields[i].1);
        }
        assert(fields@.skip(i as int).drop_first() == fields@.skip(i + 1));
        i = i + 1;
    }
    assert(fields@.skip(i as int).len() == 0);
    None
}

/// Byte-wise equality.
fn bytes_equal(a: &Vec<u8>, b: &Vec<u8>) -> (r: bool)
    ensures
        r == (a@ == b@),
{
    if a.len() != b.len() {
        return false;
    }
    let mut i: usize = 0;
    while i < a.len()
        invariant
            a@.len() == b@.len(),
            i <= a@.len(),
            forall|q: int| 0 <= q < i ==> a@[q] == b@[q],
        decreases a@.len() - i,
    {
        if a[i] != b[i] {
            return false;
        }
        i = i + 1;
    }
    assert(a@ =~= b@);
    true
}

/// The filter as the specifications read it.
pub open spec fn filter_view(filter: Option<&Payload>) -> Option<Payload> {
    match filter {
        Some(f) => Some(*f),
        None => None,
    }
}

/// Some entry of `r` has id `y`.
pub open spec fn has_id(r: Seq<(u64, u32)>, y: u64) -> bool {
    exists|a: int| 0 <= a < r.len() && #[trigger] r[a].0 == y
}

/// The larger of `ef` and one.
pub open spec fn at_least_one(ef: nat) -> nat {
    if ef == 0 {
        1
    } else {
        ef
    }
}

/// The key `key` gives the vector `v`.
pub open spec fn key_for<F: Fn(&Vec<u32>) -> u32>(key: &F, v: &Vec<u32>) -> u32 {
    choose|r: u32| call_ensures(*key, (v,), r)
}

/// `key` can be called on any vector and gives each vector one key.
pub open spec fn key_fn_ok<F: Fn(&Vec<u32>) -> u32>(key: &F) -> bool {
    &&& forall|v: &Vec<u32>| #[trigger] call_requires(*key, (v,))
    &&& forall|v: &Vec<u32>, a: u32, b: u32|
        #[trigger] call_ensures(*key, (v,), a) && #[trigger] call_ensures(*key, (v,), b) ==> a == b
}

/// The key `key` gives the vector of every node of `nodes`.
pub open spec fn node_keys<F: Fn(&Vec<u32>) -> u32>(key: &F, nodes: Map<u64, Node>) -> Map<u64, u32> {
    Map::new(|id: u64| nodes.contains_key(id), |id: u64| key_for(key, &nodes[id].vector))
}

/// What a search of one layer, started at `ep` and keeping `ef` results,
/// may end with: `v` is the set of visited nodes and `e` the set of those
/// whose neighbours were explored.
/// - every visited node is reached from `ep` (see `reached_by`), and the
///   neighbours of every explored node were visited;
/// - the nodes were explored best first (see `explored_best_first`): each,
///   when its turn came, had a key no larger than any node then waiting;
/// - the results are distinct visited nodes that the filter admits, with
///   their keys;
/// - there are at most `max(ef, 1)` of them, and any admitted visited node
///   left out has a key no smaller than every result's and was left out
///   only because `ef` results were found;
/// - the search stopped early (some visited node unexplored) only once `ef`
///   results were found and every unexplored node had a key greater than
///   every result's.
pub open spec fn layer_search_outcome(
    nodes: Map<u64, Node>,
    tombstones: Set<u64>,
    dists: Map<u64, u32>,
    ep: u64,
    ef: nat,
    layer: int,
    filter: Option<Payload>,
    r: Seq<(u64, u32)>,
    v: Set<u64>,
    e: Set<u64>,
) -> bool {
    &&& v.subset_of(nodes.dom())
    &&& e.subset_of(v)
    &&& v.contains(ep)
    &&& forall|x: u64, k: int|
        e.contains(x) && 0 <= k < layer_nbrs(nodes[x], layer).len() ==> v.contains(
            #[trigger] layer_nbrs(nodes[x], layer)[k],
        )
    &&& exists|depth: Map<u64, nat>| #[trigger] reached_by(nodes, layer, ep, v, e, depth)
    &&& exists|ord: Seq<u64>| #[trigger] explored_best_first(nodes, dists, layer, ep, e, ord)
    &&& forall|a: int|
        0 <= a < r.len() ==> v.contains(#[trigger] r[a].0) && admitted(
            nodes,
            tombstones,
            filter,
            r[a].0,
        ) && r[a].1 == dists[r[a].0]
    &&& forall|a: int, b: int| 0 <= a < b < r.len() ==> #[trigger] r[a].0 != #[trigger] r[b].0
    &&& r.len() <= at_least_one(ef)
    &&& forall|y: u64|
        #[trigger] v.contains(y) && admitted(nodes, tombstones, filter, y) && !has_id(r, y) ==> r.len()
            >= ef && forall|a: int| 0 <= a < r.len() ==> dists[y] >= #[trigger] r[a].1
    &&& forall|y: u64|
        #[trigger] v.contains(y) && !e.contains(y) ==> r.len() >= ef && r.len() > 0 && forall|a: int|
            0 <= a < r.len() ==> dists[y] > #[trigger] r[a].1
}

/// Calls `rand::random::<u32>()`: a value drawn from the thread-local
/// generator.  Nothing is claimed of it.
#[verifier::external_body]
fn random_u32() -> u32 {
    rand::random::<u32>()
}


impl HnswIndex {
    /// The graph is closed (every neighbour is a node), every node's layer
    /// lists match its level, the entry point is a node (and is missing only
    /// when the graph is empty), and only nodes are tombstoned.
    pub open spec fn wf(&self) -> bool {
        &&& forall|id: u64| #[trigger]
            self.nodes@.contains_key(id) ==> node_wf(self.nodes@[id], id, self.nodes@.dom())
        &&& match self.entry_point {
            Some(ep) => self.nodes@.contains_key(ep),
            None => self.nodes@.dom() == Set::<u64>::empty(),
        }
        &&& self.tombstones@.subset_of(self.nodes@.dom())
    }

    /// What `search` returns: nothing for an empty graph; otherwise the
    /// `top_k` entries with the smallest keys, smallest first, of what a
    /// layer-0 search keeping `max(ef, top_k)` candidates admitted by
    /// `filter` ends with, started from the node `eps[0]` that a greedy
    /// descent from the entry point (`eps[max_layer]`) reaches.
    pub open spec fn search_outcome(
        &self,
        dists: Map<u64, u32>,
        top_k: nat,
        ef: nat,
        filter: Option<Payload>,
        r: Seq<(u64, u32)>,
    ) -> bool {
        &&& self.entry_point is None ==> r.len() == 0
        &&& self.entry_point is Some ==> exists|
            ep0: u64,
            pool: Seq<(u64, u32)>,
            v: Set<u64>,
            e: Set<u64>,
            sel: Seq<int>,
        |
            #![trigger layer_search_outcome(self.nodes@, self.tombstones@, dists, ep0, max_nat(ef, top_k), 0, filter, pool, v, e), is_smallest_k(r, pool, top_k, sel)]
            {
                &&& self.nodes@.contains_key(ep0)
                &&& exists|eps: Map<int, u64>|
                    #[trigger] descent_path(self.nodes@, self.tombstones@, dists, eps, 0, self.max_layer as int)
                        && Some(eps[self.max_layer as int]) == self.entry_point && eps[0] == ep0
                &&& layer_search_outcome(
                    self.nodes@,
                    self.tombstones@,
                    dists,
                    ep0,
                    max_nat(ef, top_k),
                    0,
                    filter,
                    pool,
                    v,
                    e,
                )
                &&& is_smallest_k(r, pool, top_k, sel)
            }
    }

    /// The nodes that are not deleted.
    pub open spec fn live_ids(&self) -> Set<u64> {
        self.nodes@.dom().difference(self.tombstones@)
    }

    /// `key` is a key function and `dm` holds the key it gives every
    /// node's vector.
    pub open spec fn keyed<F: Fn(&Vec<u32>) -> u32>(&self, key: &F, dm: Map<u64, u32>) -> bool {
        &&& key_fn_ok(key)
        &&& forall|id: u64| #[trigger]
            self.nodes@.contains_key(id) ==> dm.contains_key(id) && dm[id] == key_for(
                key,
                &self.nodes@[id].vector,
            )
    }

    /// The key of node `id`'s vector.
    fn node_key<F: Fn(&Vec<u32>) -> u32>(&self, key: &F, id: u64, Ghost(dm): Ghost<Map<u64, u32>>) -> (r: u32)
        requires
            self.keyed(key, dm),
            self.nodes@.contains_key(id),
        ensures
            r == dm[id],
    {
        let n = self.node_ref(id);
        let r = key(&n.vector);
        proof {
            assert(call_ensures(*key, (&n.vector,), r));
        }
        r
    }

    /// The links form a proper layered graph: every node listed on layer `l`
    /// of a node is a node that reaches layer `l` and lists it back on that
    /// layer, and the entry point sits on the top layer.
    pub open spec fn links_consistent(&self) -> bool {
        &&& forall|a: u64, l: int, b: u64|
            self.nodes@.contains_key(a) && #[trigger] layer_nbrs(self.nodes@[a], l).contains(b) ==> {
                &&& self.nodes@.contains_key(b)
                &&& 0 <= l < self.nodes@[b].neighbours@.len()
                &&& layer_nbrs(self.nodes@[b], l).contains(a)
            }
        &&& match self.entry_point {
            Some(ep) => self.nodes@[ep].max_layer == self.max_layer,
            None => true,
        }
    }

    /// An empty index for vectors of `dim` components.
    pub fn new(dim: usize) -> (s: Self)
        ensures
            s.wf(),
            s.dim == dim,
            s.nodes@ == Map::<u64, Node>::empty(),
            s.entry_point is None,
            s.max_layer == 0,
            s.ef_construction == EF_CONSTRUCTION,
            s.tombstones@ == Set::<u64>::empty(),
            s.links_consistent(),
    {
        let s = HnswIndex {
            dim,
            nodes: HashMap::new(),
            entry_point: None,
            max_layer: 0,
            ef_construction: EF_CONSTRUCTION,
            tombstones: HashSet::new(),
        };
        assert(s.nodes@.dom() =~= Set::<u64>::empty());
        s
    }

    /// The number of nodes that are not deleted.
    pub fn len(&self) -> (r: usize)
        requires
            self.wf(),
        ensures
            r == self.nodes@.len() - self.tombstones@.len(),
            r == self.nodes@.dom().difference(self.tombstones@).len(),
    {
        proof {
            vstd::set_lib::lemma_len_subset(self.tombstones@, self.nodes@.dom());
            lemma_live_count(self.nodes@.dom(), self.tombstones@);
        }
        self.nodes.len() - self.tombstones.len()
    }

    /// Marks node `id` deleted, if it is a node.
    pub fn delete(&mut self, id: u64)
        requires
            old(self).wf(),
        ensures
            final(self).wf(),
            delete_outcome(*old(self), *final(self), id),
            old(self).links_consistent() ==> final(self).links_consistent(),
    {
        if self.nodes.contains_key(&id) {
            self.tombstones.insert(id);
        }
    }

    /// A level drawn at random: each further level with probability 1/2,
    /// up to `MAX_LEVEL`.  Words are drawn from the generator one at a time
    /// until one is at least `2^31` or `MAX_LEVEL + 1` have been drawn; the
    /// level is `level_from_draws` of them.  A word below `2^31` is exactly
    /// a draw whose `f32` made by `rand` from that same word (its top 24 bits
    /// scaled into `[0, 1)`) is below 0.5.
    /// Returns the level together with the words drawn.
    pub fn random_level(&self) -> (r: (usize, Ghost<Seq<u32>>))
        ensures
            drawn_until_stop(r.1@),
            r.0 == level_of(r.1@),
            r.0 <= MAX_LEVEL,
    {
        let mut draws: Vec<u32> = Vec::new();
        loop
            invariant_except_break
                draws@.len() <= MAX_LEVEL,
                forall|i: int| 0 <= i < draws@.len() ==> #[trigger] draws@[i] < 0x8000_0000u32,
            ensures
                drawn_until_stop(draws@),
            decreases MAX_LEVEL - draws@.len(),
        {
            let d = random_u32();
            draws.push(d);
            if d >= 0x8000_0000u32 || draws.len() > MAX_LEVEL {
                break;
            }
        }
        let level = level_from_draws(&draws);
        (level, Ghost(draws@))
    }

    /// Whether the search with `filter` may return node `id`.
    fn is_admitted(&self, id: u64, filter: Option<&Payload>) -> (r: bool)
        requires
            self.nodes@.contains_key(id),
        ensures
            r == admitted(self.nodes@, self.tombstones@, filter_view(filter), id),
    {
        let ok = match filter {
            None => true,
            Some(f) => matches_filter(&self.node_ref(id).payload, f),
        };
        ok && !self.tombstones.contains(&id)
    }

    /// Explores `layer` from `ep`, keeping the `ef` admitted nodes with the
    /// smallest keys among those visited; returns them together with the
    /// visited and explored sets.  Returns nothing when `ep` is not a node.
    #[verifier::rlimit(80)]
    fn search_layer<F: Fn(&Vec<u32>) -> u32>(
        &self,
        key: &F,
        Ghost(dm): Ghost<Map<u64, u32>>,
        ep: u64,
        ef: usize,
        layer: usize,
        filter: Option<&Payload>,
    ) -> (out: (Vec<(u64, u32)>, Ghost<Set<u64>>, Ghost<Set<u64>>))
        requires
            self.wf(),
            self.keyed(key, dm),
        ensures
            !self.nodes@.contains_key(ep) ==> out.0@.len() == 0,
            self.nodes@.contains_key(ep) ==> layer_search_outcome(
                self.nodes@,
                self.tombstones@,
                dm,
                ep,
                ef as nat,
                layer as int,
                filter_view(filter),
                out.0@,
                out.1@,
                out.2@,
            ),
    {
        if !self.nodes.contains_key(&ep) {
            return (Vec::new(), Ghost(Set::empty()), Ghost(Set::empty()));
        }
        let ghost nodes = self.nodes@;
        let ghost tomb = self.tombstones@;
        let ghost fv = filter_view(filter);
        let ghost lay = layer as int;
        let mut visited: HashSet<u64> = HashSet::new();
        let mut candidates: Vec<(u64, u32)> = Vec::new();
        let mut results: Vec<(u64, u32)> = Vec::new();
        let ghost mut expanded: Set<u64> = Set::empty();
        let ghost mut depth: Map<u64, nat> = map![ep => 0nat];
        let ghost mut order: Seq<u64> = Seq::empty();
        proof {
            reveal(explored_best_first);
            assert(explored_best_first(nodes, dm, lay, ep, expanded, order));
        }
        let ep_dist = self.node_key(key, ep, Ghost(dm));
        candidates.push((ep, ep_dist));
        if self.is_admitted(ep, filter) {
            results.push((ep, ep_dist));
        }
        visited.insert(ep);
        proof {
            assert(visited@ =~= set![ep]);
            vstd::set_lib::lemma_len_subset(visited@, nodes.dom());
            assert(candidates@[0].0 == ep);
            assert forall|y: u64| #[trigger] visited@.contains(y) && admitted(nodes, tomb, fv, y) && !has_id(results@, y)
                implies results@.len() >= ef && forall|a: int| 0 <= a < results@.len() ==> dm[y] >= #[trigger] results@[a].1 by {
                assert(results@[0].0 == ep);
            }
        }
        loop
            invariant_except_break
                candidates_ok(dm, candidates@, visited@, expanded),
            invariant
                self.wf(),
                self.keyed(key, dm),
                nodes == self.nodes@,
                tomb == self.tombstones@,
                fv == filter_view(filter),
                lay == layer as int,
                nodes.contains_key(ep),
                visited@.subset_of(nodes.dom()),
                expanded.subset_of(visited@),
                visited@.contains(ep),
                visited@.finite(),
                visited@.len() <= nodes.dom().len(),
                results_ok(nodes, tomb, dm, ef as nat, fv, results@, visited@),
                reached_by(nodes, lay, ep, visited@, expanded, depth),
                depth.dom() == visited@,
                explored_best_first(nodes, dm, lay, ep, expanded, order),
                explored_closed(nodes, lay, visited@, expanded, None),
            ensures
                layer_search_outcome(
                    nodes,
                    tomb,
                    dm,
                    ep,
                    ef as nat,
                    lay,
                    fv,
                    results@,
                    visited@,
                    expanded,
                ),
            decreases 2 * (nodes.dom().len() - visited@.len()) + candidates@.len(),
        {
            if candidates.len() == 0 {
                proof {
                    assert forall|y: u64| #[trigger] visited@.contains(y) && !expanded.contains(y) implies false by {
                        assert(has_id(candidates@, y));
                    }
                }
                break;
            }
            let ghost m0 = 2 * (nodes.dom().len() - visited@.len()) + candidates@.len();
            let ci = argmin_key(&candidates);
            let ghost old_c = candidates@;
            let curr = candidates.remove(ci);
            proof {
                old_c.remove_ensures(ci as int);
                assert(candidates_ok(dm, old_c, visited@, expanded));
                assert(forall|a: int, b: int| 0 <= a < b < old_c.len() ==> #[trigger] old_c[a].0 != #[trigger] old_c[b].0);
            }
            if results.len() > 0 {
                let wi = argmax_key(&results);
                let worst = results[wi].1;
                if curr.1 > worst && results.len() >= ef {
                    proof {
                        assert forall|y: u64| #[trigger] visited@.contains(y) && !expanded.contains(y)
                            implies results@.len() >= ef && results@.len() > 0 && forall|a: int|
                            0 <= a < results@.len() ==> dm[y] > #[trigger] results@[a].1 by {
                            assert(has_id(old_c, y));
                            let b = choose|b: int| 0 <= b < old_c.len() && #[trigger] old_c[b].0 == y;
                            assert(old_c[b].1 >= curr.1);
                            assert forall|a: int| 0 <= a < results@.len() implies dm[y] > #[trigger] results@[a].1 by {
                                assert(results@[wi as int].1 >= results@[a].1);
                            }
                        }
                    }
                    break;
                }
            }
            proof {
                assert forall|y: u64| #[trigger] visited@.contains(y) && !expanded.contains(y) implies dm[curr.0] <= dm[y] by {
                    assert(has_id(old_c, y));
                    let b = choose|b: int| 0 <= b < old_c.len() && #[trigger] old_c[b].0 == y;
                    assert(old_c[b].1 >= curr.1);
                }
                lemma_best_first_push(nodes, dm, lay, ep, visited@, expanded, depth, order, curr.0);
                order = order.push(curr.0);
                expanded = expanded.insert(curr.0);
                assert forall|a: int| 0 <= a < candidates@.len() implies visited@.contains(#[trigger] candidates@[a].0)
                    && !expanded.contains(candidates@[a].0) && candidates@[a].1 == dm[candidates@[a].0] by {
                    let a0 = if a < ci { a } else { a + 1 };
                    assert(candidates@[a] == old_c[a0]);
                    assert(a0 != ci);
                    if a0 < ci {
                        assert(old_c[a0].0 != old_c[ci as int].0);
                    } else {
                        assert(old_c[ci as int].0 != old_c[a0].0);
                    }
                }
                assert forall|a: int, b: int| 0 <= a < b < candidates@.len() implies #[trigger] candidates@[a].0 != #[trigger] candidates@[b].0 by {
                    let a0 = if a < ci { a } else { a + 1 };
                    let b0 = if b < ci { b } else { b + 1 };
                    assert(candidates@[a] == old_c[a0]);
                    assert(candidates@[b] == old_c[b0]);
                    assert(a0 < b0);
                    assert(old_c[a0].0 != old_c[b0].0);
                }
                assert forall|y: u64| #[trigger] visited@.contains(y) && !expanded.contains(y) implies has_id(candidates@, y) by {
                    assert(has_id(old_c, y));
                    let b = choose|b: int| 0 <= b < old_c.len() && #[trigger] old_c[b].0 == y;
                    if b < ci {
                        assert(candidates@[b].0 == y);
                    } else {
                        assert(b != ci);
                        assert(candidates@[b - 1].0 == y);
                    }
                }
            }
            let node = self.node_ref(curr.0);
            let empty: Vec<u64> = Vec::new();
            let ns: &Vec<u64> = if layer < node.neighbours.len() {
                &node.neighbours[layer]
            } else {
                &empty
            };
            assert(ns@ == layer_nbrs(nodes[curr.0], lay));
            let mut j: usize = 0;
            while j < ns.len()
                invariant
                    self.wf(),
                    self.keyed(key, dm),
                    nodes == self.nodes@,
                    tomb == self.tombstones@,
                        fv == filter_view(filter),
                    lay == layer as int,
                    nodes.contains_key(curr.0),
                    ns@ == layer_nbrs(nodes[curr.0], lay),
                    j <= ns@.len(),
                    forall|q: int| 0 <= q < j ==> visited@.contains(#[trigger] ns@[q]),
                    expanded.contains(curr.0),
                    visited@.subset_of(nodes.dom()),
                    expanded.subset_of(visited@),
                    visited@.contains(ep),
                    visited@.finite(),
                    visited@.len() <= nodes.dom().len(),
                    candidates_ok(dm, candidates@, visited@, expanded),
                    results_ok(nodes, tomb, dm, ef as nat, fv, results@, visited@),
                    reached_by(nodes, lay, ep, visited@, expanded, depth),
                    depth.dom() == visited@,
                    explored_best_first(nodes, dm, lay, ep, expanded, order),
                    explored_closed(nodes, lay, visited@, expanded, Some(curr.0)),
                    2 * (nodes.dom().len() - visited@.len()) + candidates@.len() < m0,
                decreases ns@.len() - j,
            {
                let nbr = ns[j];
                proof {
                    let nd = nodes[curr.0];
                    assert(node_wf(nd, curr.0, nodes.dom()));
                    assert(nd.neighbours@[lay]@[j as int] == nbr);
                    assert(nodes.dom().contains(nbr));
                }
                let ghost old_v = visited@;
                let ghost old_depth = depth;
                if visited.insert(nbr) {
                    proof {
                        depth = depth.insert(nbr, depth[curr.0] + 1);
                    }
                    let d = self.node_key(key, nbr, Ghost(dm));
                    let ghost old_cands = candidates@;
                    candidates.push((nbr, d));
                    let ghost old_r = results@;
                    if self.is_admitted(nbr, filter) {
                        results.push((nbr, d));
                        if results.len() > ef {
                            let wi = argmax_key(&results);
                            let ghost before = results@;
                            let _dropped = results.remove(wi);
                            proof {
                                before.remove_ensures(wi as int);
                                lemma_drop_worst(nodes, tomb, dm, ef as nat, fv, old_r, before, results@, wi as int, nbr, d, visited@);
                            }
                        } else {
                            proof {
                                lemma_keep_all(nodes, tomb, dm, ef as nat, fv, old_r, results@, nbr, d, visited@);
                            }
                        }
                    } else {
                        proof {
                            assert forall|y: u64| #[trigger] visited@.contains(y) && admitted(nodes, tomb, fv, y) && !has_id(results@, y)
                                implies results@.len() >= ef as nat && forall|a: int| 0 <= a < results@.len() ==> dm[y] >= #[trigger] results@[a].1 by {
                                assert(y != nbr);
                                assert(old_v.contains(y));
                            }
                        }
                    }
                    proof {
                        assert(visited@ == old_v.insert(nbr));
                        assert(!old_v.contains(nbr));
                        assert(visited@.len() == old_v.len() + 1);
                        vstd::set_lib::lemma_len_subset(visited@, nodes.dom());
                        assert forall|y: u64| #[trigger] visited@.contains(y) && !expanded.contains(y) implies has_id(candidates@, y) by {
                            if y == nbr {
                                assert(candidates@[candidates@.len() - 1].0 == nbr);
                            } else {
                                assert(has_id(old_cands, y));
                                let b = choose|b: int| 0 <= b < old_cands.len() && #[trigger] old_cands[b].0 == y;
                                assert(candidates@[b].0 == y);
                            }
                        }
                        assert forall|y: u64| #[trigger] visited@.contains(y) && y != ep implies exists|x: u64, k: int|
                            expanded.contains(x) && 0 <= k < layer_nbrs(nodes[x], lay).len() && #[trigger] layer_nbrs(nodes[x], lay)[k] == y
                            && depth[x] < depth[y] by {
                            if y == nbr {
                                assert(layer_nbrs(nodes[curr.0], lay)[j as int] == y);
                                assert(curr.0 != nbr);
                            } else {
                                assert(old_v.contains(y));
                                let (x, k) = choose|x: u64, k: int|
                                    expanded.contains(x) && 0 <= k < layer_nbrs(nodes[x], lay).len() && #[trigger] layer_nbrs(nodes[x], lay)[k] == y
                                    && old_depth[x] < old_depth[y];
                                assert(old_v.contains(x));
                                assert(layer_nbrs(nodes[x], lay)[k] == y);
                            }
                        }
                    }
                }
                j = j + 1;
            }
            proof {
                assert forall|x: u64, k: int|
                    expanded.contains(x) && None::<u64> != Some(x) && 0 <= k < layer_nbrs(nodes[x], lay).len() implies visited@.contains(
                    #[trigger] layer_nbrs(nodes[x], lay)[k]) by {
                    if x == curr.0 {
                        assert(ns@[k] == layer_nbrs(nodes[x], lay)[k]);
                    }
                }
            }
        }
        (results, Ghost(visited@), Ghost(expanded))
    }

    /// Inserts `vector` with `payload` under `id` on levels `0..=level`
    /// (replacing any node stored under `id`), linking it on each shared
    /// layer to up to `MAX_LINKS` of the nodes a layer search from the
    /// entry point finds, each of which links back to it.  `key` gives the
    /// key of a stored vector against `vector`; it is called on the vectors
    /// the searches reach (the new one included).
    #[verifier::rlimit(100)]
    pub fn insert_with_level<F: Fn(&Vec<u32>) -> u32>(
        &mut self,
        id: u64,
        vector: Vec<u32>,
        payload: Payload,
        level: usize,
        key: &F,
    )
        requires
            old(self).wf(),
            key_fn_ok(key),
            level <= MAX_LEVEL,
        ensures
            insert_outcome(
                *old(self),
                *final(self),
                id,
                vector,
                payload,
                level as nat,
                node_keys(key, final(self).nodes@),
            ),
    {
        let ghost old_nodes = self.nodes@;
        let mut neighbours: Vec<Vec<u64>> = Vec::new();
        let mut i: usize = 0;
        while i <= level
            invariant
                i <= level + 1,
                level <= MAX_LEVEL,
                neighbours@.len() == i,
                forall|l: int| 0 <= l < i ==> (#[trigger] neighbours@[l])@.len() == 0,
            decreases level + 1 - i,
        {
            neighbours.push(Vec::new());
            i = i + 1;
        }
        let ghost fresh_vector = vector;
        let ghost fresh_payload = payload;
        self.nodes.insert(id, Node { id, vector, payload, neighbours, max_layer: level });
        let ghost dom = self.nodes@.dom();
        let ghost dm = node_keys(key, self.nodes@);
        proof {
            assert(dom == old_nodes.dom().insert(id));
            assert forall|x: u64| #[trigger] self.nodes@.contains_key(x) implies node_wf(self.nodes@[x], x, dom) by {
                if x != id {
                    assert(node_wf(old_nodes[x], x, old_nodes.dom()));
                }
            }
            assert(self.tombstones@.subset_of(dom));
        }
        let ep = match self.entry_point {
            Some(ep) => ep,
            None => {
                self.entry_point = Some(id);
                self.max_layer = level;
                proof {
                    assert(old_nodes.dom() == Set::<u64>::empty());
                    assert(forall|x: u64| !old_nodes.contains_key(x));
                }
                return;
            },
        };
        let top = if level < self.max_layer { level } else { self.max_layer };
        let ghost m0 = self.nodes@;
        proof {
            assert forall|l: int| #[trigger] agrees_on_layer(m0, old_nodes, id, l) by {
                assert forall|x: u64| x != id && #[trigger] old_nodes.contains_key(x) implies layer_nbrs(m0[x], l) == layer_nbrs(old_nodes[x], l) by {}
                if 0 <= l < m0[id].neighbours@.len() {
                    assert(m0[id].neighbours@[l]@.len() == 0);
                }
            }
        }
        let (mut curr_ep, Ghost(eps)) = self.descend(key, Ghost(dm), ep, self.max_layer, top);
        let ghost mut starts: Map<int, u64> = Map::empty().insert(top as int, curr_ep);
        let mut layer = top;
        proof {
            assert forall|l: int| (l <= layer || l > top) implies #[trigger] layer_nbrs(self.nodes@[id], l).len() == 0 by {
                if 0 <= l < self.nodes@[id].neighbours@.len() {
                    assert(self.nodes@[id].neighbours@[l]@.len() == 0);
                }
            }
        }
        loop
            invariant_except_break
                forall|l: int|
                    layer < l <= top ==> links_ok(
                        #[trigger] layer_nbrs(self.nodes@[id], l),
                        dom,
                        self.tombstones@,
                    ),
                forall|l: int|
                    (l <= layer || l > top) ==> #[trigger] layer_nbrs(self.nodes@[id], l).len() == 0,
                forall|l: int|
                    layer < l <= top ==> #[trigger] chosen_by_search(
                        old_nodes,
                        id,
                        old(self).tombstones@,
                        dm,
                        old(self).ef_construction as nat,
                        l,
                        starts[l],
                        layer_nbrs(self.nodes@[id], l),
                    ),
                forall|l: int| layer < l <= top ==> #[trigger] start_step_at(self.nodes@[id], starts, l),
                forall|l: int| layer <= l <= top ==> #[trigger] starts.contains_key(l),
                starts.contains_key(layer as int),
                starts[layer as int] == curr_ep,
            invariant
                starts.contains_key(top as int),
                starts[top as int] == eps[top as int],
                self.wf(),
                self.keyed(key, dm),
                self.nodes@.dom() == dom,
                dom == old_nodes.dom().insert(id),
                self.nodes@.contains_key(curr_ep),
                self.tombstones@ == old(self).tombstones@,
                self.entry_point == old(self).entry_point,
                self.max_layer == old(self).max_layer,
                self.dim == old(self).dim,
                self.ef_construction == old(self).ef_construction,
                old_nodes == old(self).nodes@,
                layer <= top,
                top <= level,
                top <= self.max_layer,
                self.nodes@[id].id == id,
                self.nodes@[id].vector == fresh_vector,
                self.nodes@[id].payload == fresh_payload,
                self.nodes@[id].max_layer == level,
                forall|x: u64|
                    x != id && #[trigger] old_nodes.contains_key(x) ==> linked_back(
                        old_nodes[x],
                        self.nodes@[x],
                        self.nodes@[id],
                        x,
                    ),
            ensures
                forall|l: int|
                    0 <= l <= top ==> links_ok(
                        #[trigger] layer_nbrs(self.nodes@[id], l),
                        dom,
                        self.tombstones@,
                    ),
                forall|l: int|
                    (l < 0 || l > top) ==> #[trigger] layer_nbrs(self.nodes@[id], l).len() == 0,
                forall|l: int|
                    0 <= l <= top ==> #[trigger] chosen_by_search(
                        old_nodes,
                        id,
                        old(self).tombstones@,
                        dm,
                        old(self).ef_construction as nat,
                        l,
                        starts[l],
                        layer_nbrs(self.nodes@[id], l),
                    ),
                forall|l: int| 0 < l <= top ==> #[trigger] start_step_at(self.nodes@[id], starts, l),
                forall|l: int| 0 <= l <= top ==> #[trigger] starts.contains_key(l),
            decreases layer,
        {
            let (cands, Ghost(v), Ghost(e)) = self.search_layer(key, Ghost(dm), curr_ep, self.ef_construction, layer, None);
            let nbrs = choose_links(&cands);
            let ghost sel = choose|sel: Seq<int>| links_chosen(nbrs@, cands@, sel);
            proof {
                assert forall|x: u64| x != id && #[trigger] old_nodes.contains_key(x) implies layer_nbrs(self.nodes@[x], layer as int) == layer_nbrs(old_nodes[x], layer as int) by {
                    assert(linked_back(old_nodes[x], self.nodes@[x], self.nodes@[id], x));
                    assert(layer_nbrs(self.nodes@[id], layer as int).len() == 0);
                    if 0 <= layer < old_nodes[x].neighbours@.len() {
                        assert(!layer_nbrs(self.nodes@[id], layer as int).contains(x));
                        assert(self.nodes@[x].neighbours@[layer as int]@ == old_nodes[x].neighbours@[layer as int]@);
                    }
                }
                assert(layer_nbrs(self.nodes@[id], layer as int).len() == 0);
                assert(self.nodes@.contains_key(curr_ep));
                assert(layer_search_outcome(self.nodes@, self.tombstones@, dm, curr_ep, self.ef_construction as nat, layer as int, None, cands@, v, e));
                assert(links_chosen(nbrs@, cands@, sel));
                assert(agrees_on_layer(self.nodes@, old_nodes, id, layer as int));
                assert(chosen_by_search(old_nodes, id, old(self).tombstones@, dm, old(self).ef_construction as nat, layer as int, curr_ep, nbrs@));
                assert forall|k: int| 0 <= k < nbrs@.len() implies dom.contains(#[trigger] nbrs@[k]) && !self.tombstones@.contains(nbrs@[k]) by {
                    assert(has_id(cands@, nbrs@[k]));
                    let a = choose|a: int| 0 <= a < cands@.len() && #[trigger] cands@[a].0 == nbrs@[k];
                    assert(v.contains(cands@[a].0));
                }
                assert(links_ok(nbrs@, dom, self.tombstones@));
            }
            let ghost start_nodes = self.nodes@;
            let ghost nbrs_view = nbrs@;
            let first = if nbrs.len() > 0 { Some(nbrs[0]) } else { None };
            proof {
                assert(self.nodes@.contains_key(id));
                assert(node_wf(self.nodes@[id], id, dom));
            }
            self.link_layer(id, layer, nbrs, Ghost(dom));
            proof {
                let nd = self.nodes@[id];
                assert(layer_nbrs(nd, layer as int) == nbrs_view);
                assert forall|l: int| l != layer implies #[trigger] layer_nbrs(nd, l) == layer_nbrs(start_nodes[id], l) by {}
                assert forall|x: u64| x != id && #[trigger] old_nodes.contains_key(x) implies linked_back(
                    old_nodes[x],
                    self.nodes@[x],
                    self.nodes@[id],
                    x,
                ) by {
                    assert(dom.contains(x));
                    assert(linked_back(old_nodes[x], start_nodes[x], start_nodes[id], x));
                    let on = old_nodes[x];
                    let nn = self.nodes@[x];
                    assert forall|l: int| 0 <= l < on.neighbours@.len() implies #[trigger] nn.neighbours@[l]@ == if layer_nbrs(nd, l).contains(x) {
                        on.neighbours@[l]@.push(id)
                    } else {
                        on.neighbours@[l]@
                    } by {
                        if l != layer {
                            assert(nn.neighbours@[l] == start_nodes[x].neighbours@[l]);
                            assert(layer_nbrs(nd, l) == layer_nbrs(start_nodes[id], l));
                        } else {
                            assert(layer_nbrs(start_nodes[id], l).len() == 0);
                            assert(!layer_nbrs(start_nodes[id], l).contains(x));
                            assert(start_nodes[x].neighbours@[l]@ == on.neighbours@[l]@);
                            assert(layer_nbrs(nd, l) == nbrs_view);
                        }
                    }
                }
            }
            proof {
                let nd = self.nodes@[id];
                assert forall|l: int| layer <= l <= top implies links_ok(
                    #[trigger] layer_nbrs(nd, l),
                    dom,
                    self.tombstones@,
                ) by {
                    if l != layer {
                        assert(layer_nbrs(nd, l) == layer_nbrs(start_nodes[id], l));
                    }
                }
                assert forall|l: int| (l < layer || l > top) implies #[trigger] layer_nbrs(nd, l).len() == 0 by {
                    assert(layer_nbrs(nd, l) == layer_nbrs(start_nodes[id], l));
                }
                assert forall|l: int| layer <= l <= top implies #[trigger] chosen_by_search(
                    old_nodes,
                    id,
                    old(self).tombstones@,
                    dm,
                    old(self).ef_construction as nat,
                    l,
                    starts[l],
                    layer_nbrs(self.nodes@[id], l),
                ) by {
                    if l != layer {
                        assert(chosen_by_search(
                            old_nodes,
                            id,
                            old(self).tombstones@,
                            dm,
                            old(self).ef_construction as nat,
                            l,
                            starts[l],
                            layer_nbrs(start_nodes[id], l),
                        ));
                        assert(layer_nbrs(nd, l) == layer_nbrs(start_nodes[id], l));
                    } else {
                        assert(layer_nbrs(nd, l) == nbrs_view);
                        assert(starts[l] == curr_ep);
                    }
                }
                assert forall|l: int| layer < l <= top implies #[trigger] start_step_at(nd, starts, l) by {
                    assert(start_step_at(start_nodes[id], starts, l));
                    assert(layer_nbrs(nd, l) == layer_nbrs(start_nodes[id], l));
                }
            }
            if layer == 0 {
                break;
            }
            match first {
                Some(f) => {
                    curr_ep = f;
                },
                None => {},
            }
            proof {
                let nd = self.nodes@[id];
                let old_starts = starts;
                starts = starts.insert(layer - 1, curr_ep);
                assert(layer_nbrs(nd, layer as int) == nbrs_view);
                assert forall|l: int| layer - 1 < l <= top implies #[trigger] chosen_by_search(
                    old_nodes,
                    id,
                    old(self).tombstones@,
                    dm,
                    old(self).ef_construction as nat,
                    l,
                    starts[l],
                    layer_nbrs(nd, l),
                ) by {
                    assert(chosen_by_search(
                        old_nodes,
                        id,
                        old(self).tombstones@,
                        dm,
                        old(self).ef_construction as nat,
                        l,
                        old_starts[l],
                        layer_nbrs(nd, l),
                    ));
                    assert(starts[l] == old_starts[l]);
                }
                assert forall|l: int| layer - 1 < l <= top implies #[trigger] start_step_at(nd, starts, l) by {
                    if l == layer {
                        assert(starts[l] == old_starts[l]);
                    } else {
                        assert(start_step_at(nd, old_starts, l));
                        assert(starts[l] == old_starts[l]);
                        assert(starts[l - 1] == old_starts[l - 1]);
                    }
                }
            }
            layer = layer - 1;
        }
        if level > self.max_layer {
            self.max_layer = level;
            self.entry_point = Some(id);
        }
        proof {
            assert(insert_path(*old(self), *self, id, level as nat, dm, m0, eps, starts));
            assert forall|x: u64| #[trigger] self.nodes@.contains_key(x) implies self.nodes@[x].vector == m0[x].vector by {
                if x != id {
                    assert(linked_back(old_nodes[x], self.nodes@[x], self.nodes@[id], x));
                }
            }
            assert(node_keys(key, self.nodes@) =~= dm);
        }
    }

    /// Inserts `vector` with `payload` under `id` on a level drawn by
    /// `random_level`; see `insert_with_level`.
    /// Returns the words drawn for the level.
    pub fn insert<F: Fn(&Vec<u32>) -> u32>(
        &mut self,
        id: u64,
        vector: Vec<u32>,
        payload: Payload,
        key: &F,
    ) -> (draws: Ghost<Seq<u32>>)
        requires
            old(self).wf(),
            key_fn_ok(key),
        ensures
            drawn_until_stop(draws@),
            final(self).nodes@[id].max_layer == level_of(draws@),
            final(self).nodes@[id].max_layer <= MAX_LEVEL,
            insert_outcome(
                *old(self),
                *final(self),
                id,
                vector,
                payload,
                final(self).nodes@[id].max_layer as nat,
                node_keys(key, final(self).nodes@),
            ),
            old(self).links_consistent() && !old(self).nodes@.contains_key(id)
                ==> final(self).links_consistent(),
    {
        let (level, Ghost(draws)) = self.random_level();
        let ghost v = vector;
        let ghost p = payload;
        self.insert_with_level(id, vector, payload, level, key);
        proof {
            if old(self).links_consistent() && !old(self).nodes@.contains_key(id) {
                lemma_insert_keeps_links_consistent(*old(self), *self, id, v, p, level as nat, node_keys(key, self.nodes@));
            }
        }
        Ghost(draws)
    }

    /// Links node `id` on `layer` to `nbrs`, and appends `id` to the list on
    /// `layer` of every node in `nbrs` that reaches that layer.
    fn link_layer(&mut self, id: u64, layer: usize, nbrs: Vec<u64>, Ghost(dom): Ghost<Set<u64>>)
        requires
            old(self).wf(),
            old(self).nodes@.dom() == dom,
            dom.contains(id),
            layer < old(self).nodes@[id].neighbours@.len(),
            links_ok(nbrs@, dom, old(self).tombstones@),
        ensures
            final(self).wf(),
            final(self).nodes@.dom() == dom,
            final(self).tombstones@ == old(self).tombstones@,
            final(self).entry_point == old(self).entry_point,
            final(self).max_layer == old(self).max_layer,
            final(self).dim == old(self).dim,
            final(self).ef_construction == old(self).ef_construction,
            final(self).nodes@[id].id == old(self).nodes@[id].id,
            final(self).nodes@[id].vector == old(self).nodes@[id].vector,
            final(self).nodes@[id].payload == old(self).nodes@[id].payload,
            final(self).nodes@[id].max_layer == old(self).nodes@[id].max_layer,
            final(self).nodes@[id].neighbours@.len() == old(self).nodes@[id].neighbours@.len(),
            forall|l: int| 0 <= l < old(self).nodes@[id].neighbours@.len() && l != layer ==> #[trigger] final(self).nodes@[id].neighbours@[l] == old(self).nodes@[id].neighbours@[l],
            final(self).nodes@[id].neighbours@[layer as int]@ == nbrs@,
            forall|x: u64|
                x != id && #[trigger] dom.contains(x) ==> {
                    &&& final(self).nodes@[x].id == old(self).nodes@[x].id
                    &&& final(self).nodes@[x].vector == old(self).nodes@[x].vector
                    &&& final(self).nodes@[x].payload == old(self).nodes@[x].payload
                    &&& final(self).nodes@[x].max_layer == old(self).nodes@[x].max_layer
                    &&& final(self).nodes@[x].neighbours@.len() == old(self).nodes@[x].neighbours@.len()
                    &&& forall|l: int| 0 <= l < old(self).nodes@[x].neighbours@.len() && l != layer ==> #[trigger] final(self).nodes@[x].neighbours@[l] == old(self).nodes@[x].neighbours@[l]
                    &&& (layer < old(self).nodes@[x].neighbours@.len() ==> final(self).nodes@[x].neighbours@[layer as int]@ == if nbrs@.contains(x) {
                        old(self).nodes@[x].neighbours@[layer as int]@.push(id)
                    } else {
                        old(self).nodes@[x].neighbours@[layer as int]@
                    })
                },
    {
        let ghost start = *self;
        let ghost start_nodes = self.nodes@;
        let mut q: usize = 0;
        while q < nbrs.len()
            invariant
                self.wf(),
                self.nodes@.dom() == dom,
                self.tombstones@ == start.tombstones@,
                self.entry_point == start.entry_point,
                self.max_layer == start.max_layer,
                self.dim == start.dim,
                self.ef_construction == start.ef_construction,
                q <= nbrs@.len(),
                links_ok(nbrs@, dom, self.tombstones@),
                dom.contains(id),
                layer < start_nodes[id].neighbours@.len(),
                self.nodes@[id].id == start_nodes[id].id,
                self.nodes@[id].vector == start_nodes[id].vector,
                self.nodes@[id].payload == start_nodes[id].payload,
                self.nodes@[id].max_layer == start_nodes[id].max_layer,
                self.nodes@[id].neighbours@.len() == start_nodes[id].neighbours@.len(),
                forall|l: int| 0 <= l < start_nodes[id].neighbours@.len() && l != layer ==> #[trigger] self.nodes@[id].neighbours@[l] == start_nodes[id].neighbours@[l],
                forall|x: u64|
                    x != id && #[trigger] dom.contains(x) ==> {
                        &&& self.nodes@[x].id == start_nodes[x].id
                        &&& self.nodes@[x].vector == start_nodes[x].vector
                        &&& self.nodes@[x].payload == start_nodes[x].payload
                        &&& self.nodes@[x].max_layer == start_nodes[x].max_layer
                        &&& self.nodes@[x].neighbours@.len() == start_nodes[x].neighbours@.len()
                        &&& forall|l: int| 0 <= l < start_nodes[x].neighbours@.len() && l != layer ==> #[trigger] self.nodes@[x].neighbours@[l] == start_nodes[x].neighbours@[l]
                        &&& (layer < start_nodes[x].neighbours@.len() ==> self.nodes@[x].neighbours@[layer as int]@ == if nbrs@.subrange(0, q as int).contains(x) {
                            start_nodes[x].neighbours@[layer as int]@.push(id)
                        } else {
                            start_nodes[x].neighbours@[layer as int]@
                        })
                    },
            decreases nbrs@.len() - q,
        {
            let x = nbrs[q];
            let xn = self.node_ref(x);
            if layer < xn.neighbours.len() {
                let ghost before = self.nodes@;
                self.push_link(x, layer, id);
                proof {
                    assert(node_wf(before[x], x, dom));
                    assert forall|y: u64| #[trigger] self.nodes@.contains_key(y) implies node_wf(self.nodes@[y], y, dom) by {
                        assert(node_wf(before[y], y, dom));
                        if y == x {
                            let nx = self.nodes@[x];
                            assert forall|l: int, k: int| 0 <= l < nx.neighbours@.len() && 0 <= k < nx.neighbours@[l]@.len() implies dom.contains(#[trigger] nx.neighbours@[l]@[k]) by {
                                if l != layer {
                                    assert(nx.neighbours@[l] == before[x].neighbours@[l]);
                                } else if k < before[x].neighbours@[l]@.len() {
                                    assert(nx.neighbours@[l]@[k] == before[x].neighbours@[l]@[k]);
                                }
                            }
                        }
                    }
                }
            }
            proof {
                assert(nbrs@.subrange(0, q + 1) == nbrs@.subrange(0, q as int).push(x));
                assert forall|y: u64| #[trigger] nbrs@.subrange(0, q as int).push(x).contains(y) == (nbrs@.subrange(0, q as int).contains(y) || y == x) by {
                    let sp = nbrs@.subrange(0, q as int).push(x);
                    if y == x {
                        assert(sp[q as int] == x);
                    }
                    if nbrs@.subrange(0, q as int).contains(y) {
                        let a = choose|a: int| 0 <= a < q && nbrs@.subrange(0, q as int)[a] == y;
                        assert(sp[a] == y);
                    }
                    if sp.contains(y) && y != x {
                        let a = choose|a: int| 0 <= a < sp.len() && sp[a] == y;
                        assert(nbrs@.subrange(0, q as int)[a] == y);
                    }
                }
                assert(!nbrs@.subrange(0, q as int).contains(x)) by {
                    if nbrs@.subrange(0, q as int).contains(x) {
                        let a = choose|a: int| 0 <= a < q && nbrs@.subrange(0, q as int)[a] == x;
                        assert(nbrs@[a] == x);
                    }
                }
            }
            q = q + 1;
        }
        assert(nbrs@.subrange(0, nbrs@.len() as int) == nbrs@);

        let ghost before_set = self.nodes@;
        let ghost nbrs_view = nbrs@;
        self.set_links(id, layer, nbrs);
        proof {
            let nd = self.nodes@[id];
            assert forall|y: u64| #[trigger] self.nodes@.contains_key(y) implies node_wf(self.nodes@[y], y, dom) by {
                assert(node_wf(before_set[y], y, dom));
                if y == id {
                    assert forall|l: int, k: int| 0 <= l < nd.neighbours@.len() && 0 <= k < nd.neighbours@[l]@.len() implies dom.contains(#[trigger] nd.neighbours@[l]@[k]) by {
                        if l != layer {
                            assert(nd.neighbours@[l] == before_set[id].neighbours@[l]);
                        } else {
                            assert(nd.neighbours@[l]@ == nbrs_view);
                        }
                    }
                }
            }
        }
    }

    /// Descends greedily from `ep` on layer `top` to layer `low`: on each
    /// layer in between, a search keeping one candidate moves to the node it
    /// ends with.  Returns where the descent ends and the path it took.
    fn descend<F: Fn(&Vec<u32>) -> u32>(
        &self,
        key: &F,
        Ghost(dm): Ghost<Map<u64, u32>>,
        ep: u64,
        top: usize,
        low: usize,
    ) -> (out: (u64, Ghost<Map<int, u64>>))
        requires
            self.wf(),
            self.keyed(key, dm),
            self.nodes@.contains_key(ep),
            low <= top,
        ensures
            self.nodes@.contains_key(out.0),
            descent_path(self.nodes@, self.tombstones@, dm, out.1@, low as int, top as int),
            out.1@[top as int] == ep,
            out.1@[low as int] == out.0,
    {
        let mut curr_ep = ep;
        let mut layer = top;
        let ghost mut eps: Map<int, u64> = Map::empty().insert(layer as int, ep);
        while layer > low
            invariant
                self.wf(),
                self.keyed(key, dm),
                self.nodes@.contains_key(curr_ep),
                low <= layer <= top,
                eps.contains_key(layer as int),
                eps[layer as int] == curr_ep,
                eps.contains_key(top as int),
                eps[top as int] == ep,
                forall|l: int|
                    layer < l <= top ==> #[trigger] descent_step_at(self.nodes@, self.tombstones@, dm, eps, l),
            decreases layer,
        {
            let ghost from = curr_ep;
            let (cands, Ghost(v), Ghost(e)) = self.search_layer(key, Ghost(dm), curr_ep, 1, layer, None);
            if cands.len() > 0 {
                let best = argmin_key(&cands);
                curr_ep = cands[best].0;
                proof {
                    assert(cands@[best as int].0 == curr_ep);
                }
            }
            proof {
                assert(descent_step(self.nodes@, self.tombstones@, dm, from, layer as int, curr_ep));
                let old_eps = eps;
                eps = eps.insert(layer - 1, curr_ep);
                assert forall|l: int| layer - 1 < l <= top implies #[trigger] descent_step_at(self.nodes@, self.tombstones@, dm, eps, l) by {
                    if l == layer {
                        assert(eps[l] == from);
                        assert(eps[l - 1] == curr_ep);
                    } else {
                        assert(descent_step_at(self.nodes@, self.tombstones@, dm, old_eps, l));
                        assert(eps[l] == old_eps[l]);
                        assert(eps[l - 1] == old_eps[l - 1]);
                    }
                }
            }
            layer = layer - 1;
        }
        (curr_ep, Ghost(eps))
    }

    /// Searches the index: descends greedily from the entry point through the
    /// upper layers, explores layer 0 keeping `max(ef, top_k)` candidates
    /// admitted by `filter`, and returns the `top_k` of them with the
    /// smallest keys, smallest first.  `key` gives the key of a stored
    /// vector against the query; it is called on the vectors the search
    /// reaches.
    pub fn search<F: Fn(&Vec<u32>) -> u32>(
        &self,
        key: &F,
        top_k: usize,
        ef: usize,
        filter: Option<&Payload>,
    ) -> (r: Vec<(u64, u32)>)
        requires
            self.wf(),
            key_fn_ok(key),
        ensures
            self.search_outcome(node_keys(key, self.nodes@), top_k as nat, ef as nat, filter_view(filter), r@),
    {
        let ghost dm = node_keys(key, self.nodes@);
        let ep = match self.entry_point {
            Some(ep) => ep,
            None => {
                return Vec::new();
            },
        };
        let (curr_ep, Ghost(eps)) = self.descend(key, Ghost(dm), ep, self.max_layer, 0);
        let width = if ef > top_k { ef } else { top_k };
        let (pool, Ghost(v), Ghost(e)) = self.search_layer(key, Ghost(dm), curr_ep, width, 0, filter);
        let r = select_smallest_k(&pool, top_k);
        proof {
            assert(width as nat == max_nat(ef as nat, top_k as nat));
            let sel = choose|sel: Seq<int>| is_smallest_k(r@, pool@, top_k as nat, sel);
            assert(layer_search_outcome(self.nodes@, self.tombstones@, dm, curr_ep, max_nat(ef as nat, top_k as nat), 0, filter_view(filter), pool@, v, e));
            assert(is_smallest_k(r@, pool@, top_k as nat, sel));
        }
        r
    }

    /// Appends `link` to the list of node `x` on `layer`; nothing else changes.
    #[verifier::spinoff_prover]
    fn push_link(&mut self, x: u64, layer: usize, link: u64)
        requires
            old(self).nodes@.contains_key(x),
            layer < old(self).nodes@[x].neighbours@.len(),
        ensures
            final(self).nodes@.dom() == old(self).nodes@.dom(),
            forall|y: u64| y != x && #[trigger] old(self).nodes@.contains_key(y) ==> final(self).nodes@[y] == old(self).nodes@[y],
            final(self).nodes@[x].id == old(self).nodes@[x].id,
            final(self).nodes@[x].vector == old(self).nodes@[x].vector,
            final(self).nodes@[x].payload == old(self).nodes@[x].payload,
            final(self).nodes@[x].max_layer == old(self).nodes@[x].max_layer,
            final(self).nodes@[x].neighbours@.len() == old(self).nodes@[x].neighbours@.len(),
            forall|l: int| 0 <= l < old(self).nodes@[x].neighbours@.len() && l != layer ==> #[trigger] final(self).nodes@[x].neighbours@[l] == old(self).nodes@[x].neighbours@[l],
            final(self).nodes@[x].neighbours@[layer as int]@ == old(self).nodes@[x].neighbours@[layer as int]@.push(link),
            final(self).entry_point == old(self).entry_point,
            final(self).max_layer == old(self).max_layer,
            final(self).dim == old(self).dim,
            final(self).ef_construction == old(self).ef_construction,
            final(self).tombstones@ == old(self).tombstones@,
    {
        let ghost n0 = self.nodes@[x];
        let mut node = self.nodes.remove(&x).unwrap();
        let mut list = node.neighbours.remove(layer);
        list.push(link);
        node.neighbours.insert(layer, list);
        proof {
            n0.neighbours@.remove_ensures(layer as int);
            assert(node.neighbours@ == n0.neighbours@.remove(layer as int).insert(layer as int, list));
            n0.neighbours@.remove(layer as int).insert_ensures(layer as int, list);
            assert forall|l: int| 0 <= l < n0.neighbours@.len() && l != layer implies #[trigger] node.neighbours@[l] == n0.neighbours@[l] by {
                if l < layer {
                } else {
                    assert(node.neighbours@[l] == n0.neighbours@.remove(layer as int)[l - 1]);
                }
            }
        }
        self.nodes.insert(x, node);
    }

    /// Replaces the list of node `x` on `layer` by `links`; nothing else changes.
    fn set_links(&mut self, x: u64, layer: usize, links: Vec<u64>)
        requires
            old(self).nodes@.contains_key(x),
            layer < old(self).nodes@[x].neighbours@.len(),
        ensures
            final(self).nodes@.dom() == old(self).nodes@.dom(),
            forall|y: u64| y != x && #[trigger] old(self).nodes@.contains_key(y) ==> final(self).nodes@[y] == old(self).nodes@[y],
            final(self).nodes@[x].id == old(self).nodes@[x].id,
            final(self).nodes@[x].vector == old(self).nodes@[x].vector,
            final(self).nodes@[x].payload == old(self).nodes@[x].payload,
            final(self).nodes@[x].max_layer == old(self).nodes@[x].max_layer,
            final(self).nodes@[x].neighbours@.len() == old(self).nodes@[x].neighbours@.len(),
            forall|l: int| 0 <= l < old(self).nodes@[x].neighbours@.len() && l != layer ==> #[trigger] final(self).nodes@[x].neighbours@[l] == old(self).nodes@[x].neighbours@[l],
            final(self).nodes@[x].neighbours@[layer as int]@ == links@,
            final(self).entry_point == old(self).entry_point,
            final(self).max_layer == old(self).max_layer,
            final(self).dim == old(self).dim,
            final(self).ef_construction == old(self).ef_construction,
            final(self).tombstones@ == old(self).tombstones@,
    {
        let ghost n0 = self.nodes@[x];
        let mut node = self.nodes.remove(&x).unwrap();
        let _old_list = node.neighbours.remove(layer);
        node.neighbours.insert(layer, links);
        proof {
            n0.neighbours@.remove_ensures(layer as int);
            n0.neighbours@.remove(layer as int).insert_ensures(layer as int, links);
            assert forall|l: int| 0 <= l < n0.neighbours@.len() && l != layer implies #[trigger] node.neighbours@[l] == n0.neighbours@[l] by {
                if l < layer {
                } else {
                    assert(node.neighbours@[l] == n0.neighbours@.remove(layer as int)[l - 1]);
                }
            }
        }
        self.nodes.insert(x, node);
    }

    /// The node stored under `id`.
    fn node_ref(&self, id: u64) -> (r: &Node)
        requires
            self.nodes@.contains_key(id),
        ensures
            *r == self.nodes@[id],
    {
        self.nodes.get(&id).unwrap()
    }
}

/// Every entry of `c` is a visited, unexplored node with its key, and every
/// visited, unexplored node has an entry.
spec fn candidates_ok(dists: Map<u64, u32>, c: Seq<(u64, u32)>, v: Set<u64>, e: Set<u64>) -> bool {
    &&& forall|a: int|
        0 <= a < c.len() ==> v.contains(#[trigger] c[a].0) && !e.contains(c[a].0) && c[a].1
            == dists[c[a].0]
    &&& forall|a: int, b: int| 0 <= a < b < c.len() ==> #[trigger] c[a].0 != #[trigger] c[b].0
    &&& forall|y: u64| #[trigger] v.contains(y) && !e.contains(y) ==> has_id(c, y)
}

/// The results so far are the best admitted visited nodes, as in
/// `layer_search_outcome`.
spec fn results_ok(
    nodes: Map<u64, Node>,
    tombstones: Set<u64>,
    dists: Map<u64, u32>,
    ef: nat,
    filter: Option<Payload>,
    r: Seq<(u64, u32)>,
    v: Set<u64>,
) -> bool {
    &&& forall|a: int|
        0 <= a < r.len() ==> v.contains(#[trigger] r[a].0) && admitted(
            nodes,
            tombstones,
            filter,
            r[a].0,
        ) && r[a].1 == dists[r[a].0]
    &&& forall|a: int, b: int| 0 <= a < b < r.len() ==> #[trigger] r[a].0 != #[trigger] r[b].0
    &&& r.len() <= at_least_one(ef)
    &&& forall|y: u64|
        #[trigger] v.contains(y) && admitted(nodes, tombstones, filter, y) && !has_id(r, y) ==> r.len()
            >= ef && forall|a: int| 0 <= a < r.len() ==> dists[y] >= #[trigger] r[a].1
}

/// `depth` witnesses that every node of `v` is reached from `ep` by links
/// on `layer`: `ep` has depth zero, and every other node of `v` is listed
/// among the links of an explored node of smaller depth.  Following those
/// links backwards from any node of `v` strictly lowers the depth, so it
/// ends, and it can only end at `ep`.
pub open spec fn reached_by(
    nodes: Map<u64, Node>,
    layer: int,
    ep: u64,
    v: Set<u64>,
    e: Set<u64>,
    depth: Map<u64, nat>,
) -> bool {
    &&& v.subset_of(depth.dom())
    &&& depth[ep] == 0
    &&& forall|y: u64|
        #[trigger] v.contains(y) && y != ep ==> exists|x: u64, k: int|
            e.contains(x) && 0 <= k < layer_nbrs(nodes[x], layer).len() && #[trigger] layer_nbrs(
                nodes[x],
                layer,
            )[k] == y && depth[x] < depth[y]
}

/// Node `y` is waiting to be explored after the first `i` nodes of `ord`
/// were: it is the start `ep` or listed on `layer` by one of them, and it is
/// not one of them.
pub open spec fn in_frontier(nodes: Map<u64, Node>, layer: int, ep: u64, ord: Seq<u64>, i: int, y: u64) -> bool {
    &&& (y == ep || exists|j: int| 0 <= j < i && #[trigger] layer_nbrs(nodes[ord[j]], layer).contains(y))
    &&& forall|j: int| 0 <= j < i ==> #[trigger] ord[j] != y
}

/// `ord` lists the explored nodes `e`, each once, in the order a best-first
/// search explores them: each was waiting when its turn came, with a key no
/// larger than that of any node then waiting.
#[verifier::opaque]
pub open spec fn explored_best_first(
    nodes: Map<u64, Node>,
    dists: Map<u64, u32>,
    layer: int,
    ep: u64,
    e: Set<u64>,
    ord: Seq<u64>,
) -> bool {
    &&& forall|x: u64| #[trigger] e.contains(x) <==> ord.contains(x)
    &&& forall|a: int, b: int| 0 <= a < b < ord.len() ==> #[trigger] ord[a] != #[trigger] ord[b]
    &&& forall|i: int| 0 <= i < ord.len() ==> #[trigger] in_frontier(nodes, layer, ep, ord, i, ord[i])
    &&& forall|i: int, y: u64|
        0 <= i < ord.len() && #[trigger] in_frontier(nodes, layer, ep, ord, i, y) ==> dists[ord[i]] <= dists[y]
}

/// Exploring next a visited node `c` whose key is no larger than that of any
/// visited, unexplored node keeps the exploration best-first.
proof fn lemma_best_first_push(
    nodes: Map<u64, Node>,
    dists: Map<u64, u32>,
    layer: int,
    ep: u64,
    v: Set<u64>,
    e: Set<u64>,
    depth: Map<u64, nat>,
    ord: Seq<u64>,
    c: u64,
)
    requires
        explored_best_first(nodes, dists, layer, ep, e, ord),
        reached_by(nodes, layer, ep, v, e, depth),
        explored_closed(nodes, layer, v, e, None),
        v.contains(ep),
        v.contains(c),
        !e.contains(c),
        forall|y: u64| #[trigger] v.contains(y) && !e.contains(y) ==> dists[c] <= dists[y],
    ensures
        explored_best_first(nodes, dists, layer, ep, e.insert(c), ord.push(c)),
{
    reveal(explored_best_first);
    let n = ord.len() as int;
    let o2 = ord.push(c);
    assert forall|x: u64| #[trigger] e.insert(c).contains(x) <==> o2.contains(x) by {
        if o2.contains(x) {
            let j = choose|j: int| 0 <= j < o2.len() && o2[j] == x;
            if j < n {
                assert(ord.contains(x));
            }
        }
        if e.contains(x) {
            assert(ord.contains(x));
            let j = choose|j: int| 0 <= j < ord.len() && ord[j] == x;
            assert(o2[j] == x);
        }
        if x == c {
            assert(o2[n] == c);
        }
    }
    assert forall|a: int, b: int| 0 <= a < b < o2.len() implies #[trigger] o2[a] != #[trigger] o2[b] by {
        if b == n {
            assert(ord.contains(ord[a]));
            assert(e.contains(ord[a]));
        } else {
            assert(ord[a] != ord[b]);
        }
    }
    assert forall|i: int, y: u64| 0 <= i < n && #[trigger] in_frontier(nodes, layer, ep, o2, i, y) implies in_frontier(
        nodes,
        layer,
        ep,
        ord,
        i,
        y,
    ) by {
        if y != ep {
            let j = choose|j: int| 0 <= j < i && #[trigger] layer_nbrs(nodes[o2[j]], layer).contains(y);
            assert(o2[j] == ord[j]);
            assert(layer_nbrs(nodes[ord[j]], layer).contains(y));
        }
        assert forall|j: int| 0 <= j < i implies #[trigger] ord[j] != y by {
            assert(o2[j] == ord[j]);
        }
    }
    assert forall|i: int| 0 <= i < n implies #[trigger] in_frontier(nodes, layer, ep, o2, i, o2[i]) by {
        assert(o2[i] == ord[i]);
        assert(in_frontier(nodes, layer, ep, ord, i, ord[i]));
        if ord[i] != ep {
            let j = choose|j: int| 0 <= j < i && #[trigger] layer_nbrs(nodes[ord[j]], layer).contains(ord[i]);
            assert(o2[j] == ord[j]);
            assert(layer_nbrs(nodes[o2[j]], layer).contains(o2[i]));
        }
        assert forall|j: int| 0 <= j < i implies #[trigger] o2[j] != o2[i] by {
            assert(o2[j] == ord[j]);
        }
    }
    assert(in_frontier(nodes, layer, ep, o2, n, c)) by {
        if c != ep {
            let (x, k) = choose|x: u64, k: int|
                e.contains(x) && 0 <= k < layer_nbrs(nodes[x], layer).len() && #[trigger] layer_nbrs(nodes[x], layer)[k] == c
                    && depth[x] < depth[c];
            assert(ord.contains(x));
            let j = choose|j: int| 0 <= j < ord.len() && ord[j] == x;
            assert(o2[j] == x);
            assert(layer_nbrs(nodes[o2[j]], layer).contains(c));
        }
        assert forall|j: int| 0 <= j < n implies #[trigger] o2[j] != c by {
            assert(o2[j] == ord[j]);
            assert(ord.contains(ord[j]));
        }
    }
    assert forall|i: int, y: u64| 0 <= i < o2.len() && #[trigger] in_frontier(nodes, layer, ep, o2, i, y) implies dists[o2[i]]
        <= dists[y] by {
        if i < n {
            assert(in_frontier(nodes, layer, ep, ord, i, y));
            assert(o2[i] == ord[i]);
        } else {
            assert(o2[i] == c);
            if y != ep {
                let j = choose|j: int| 0 <= j < i && #[trigger] layer_nbrs(nodes[o2[j]], layer).contains(y);
                assert(o2[j] == ord[j]);
                assert(ord.contains(ord[j]));
                assert(e.contains(ord[j]));
                let k = choose|k: int| 0 <= k < layer_nbrs(nodes[ord[j]], layer).len() && layer_nbrs(nodes[ord[j]], layer)[k] == y;
                assert(v.contains(layer_nbrs(nodes[ord[j]], layer)[k]));
            }
            assert(v.contains(y));
            if e.contains(y) {
                assert(ord.contains(y));
                let j = choose|j: int| 0 <= j < ord.len() && ord[j] == y;
                assert(o2[j] != y);
            }
        }
    }
}

/// A layer search explores best first: its explored nodes can be listed,
/// each once, so that the first is the start `ep`, each later one is listed
/// on the layer by an earlier one, and each had, when its turn came, a key
/// no larger than that of any node then waiting (the start, or a node listed
/// by an earlier one, not itself explored yet).  A search that expanded some
/// other waiting node first, such as the most recently visited one, breaks
/// this.
pub proof fn lemma_layer_search_best_first(
    nodes: Map<u64, Node>,
    tombstones: Set<u64>,
    dists: Map<u64, u32>,
    ep: u64,
    ef: nat,
    layer: int,
    filter: Option<Payload>,
    r: Seq<(u64, u32)>,
    v: Set<u64>,
    e: Set<u64>,
)
    requires
        layer_search_outcome(nodes, tombstones, dists, ep, ef, layer, filter, r, v, e),
    ensures
        exists|ord: Seq<u64>|
            #![trigger ord.len()]
            {
                &&& forall|x: u64| #[trigger] e.contains(x) <==> ord.contains(x)
                &&& forall|a: int, b: int| 0 <= a < b < ord.len() ==> #[trigger] ord[a] != #[trigger] ord[b]
                &&& ord.len() > 0 ==> ord[0] == ep
                &&& forall|i: int| 0 <= i < ord.len() ==> #[trigger] in_frontier(nodes, layer, ep, ord, i, ord[i])
                &&& forall|i: int, y: u64|
                    0 <= i < ord.len() && #[trigger] in_frontier(nodes, layer, ep, ord, i, y) ==> dists[ord[i]]
                        <= dists[y]
            },
{
    reveal(explored_best_first);
    let ord = choose|ord: Seq<u64>| #[trigger] explored_best_first(nodes, dists, layer, ep, e, ord);
    if ord.len() > 0 {
        assert(in_frontier(nodes, layer, ep, ord, 0, ord[0]));
    }
    assert(explored_best_first(nodes, dists, layer, ep, e, ord));
}

/// `p` is a walk along links on `layer`: each node of it after the first is
/// listed among the links of the node before it.
pub open spec fn is_layer_path(nodes: Map<u64, Node>, layer: int, p: Seq<u64>) -> bool {
    &&& p.len() >= 1
    &&& forall|i: int| 0 <= i < p.len() - 1 ==> #[trigger] layer_nbrs(nodes[p[i]], layer).contains(p[i + 1])
}

/// A walk along links on `layer` leads from `ep` to `y`.
pub open spec fn reachable_on_layer(nodes: Map<u64, Node>, layer: int, ep: u64, y: u64) -> bool {
    exists|p: Seq<u64>| #[trigger] is_layer_path(nodes, layer, p) && p[0] == ep && p.last() == y
}

/// A depth witness gives a walk from `ep` to every node it covers.
proof fn lemma_reached_walk(
    nodes: Map<u64, Node>,
    layer: int,
    ep: u64,
    v: Set<u64>,
    e: Set<u64>,
    depth: Map<u64, nat>,
    y: u64,
)
    requires
        reached_by(nodes, layer, ep, v, e, depth),
        e.subset_of(v),
        v.contains(y),
    ensures
        reachable_on_layer(nodes, layer, ep, y),
    decreases depth[y],
{
    if y == ep {
        let p = seq![ep];
        assert(is_layer_path(nodes, layer, p));
    } else {
        let (x, k) = choose|x: u64, k: int|
            e.contains(x) && 0 <= k < layer_nbrs(nodes[x], layer).len() && #[trigger] layer_nbrs(nodes[x], layer)[k] == y
                && depth[x] < depth[y];
        lemma_reached_walk(nodes, layer, ep, v, e, depth, x);
        let p = choose|p: Seq<u64>| #[trigger] is_layer_path(nodes, layer, p) && p[0] == ep && p.last() == x;
        let q = p.push(y);
        assert forall|i: int| 0 <= i < q.len() - 1 implies #[trigger] layer_nbrs(nodes[q[i]], layer).contains(q[i + 1]) by {
            if i < p.len() - 1 {
                assert(q[i] == p[i] && q[i + 1] == p[i + 1]);
                assert(layer_nbrs(nodes[p[i]], layer).contains(p[i + 1]));
            } else {
                assert(q[i] == x && q[i + 1] == y);
                assert(layer_nbrs(nodes[x], layer)[k] == y);
            }
        }
        assert(is_layer_path(nodes, layer, q));
        assert(q[0] == ep && q.last() == y);
    }
}

/// Every node a layer search visits, and so every node it returns, is
/// reached from the start node `ep` by a walk along links on that layer.
pub proof fn lemma_layer_search_reachable(
    nodes: Map<u64, Node>,
    tombstones: Set<u64>,
    dists: Map<u64, u32>,
    ep: u64,
    ef: nat,
    layer: int,
    filter: Option<Payload>,
    r: Seq<(u64, u32)>,
    v: Set<u64>,
    e: Set<u64>,
    y: u64,
)
    requires
        layer_search_outcome(nodes, tombstones, dists, ep, ef, layer, filter, r, v, e),
        v.contains(y) || has_id(r, y),
    ensures
        reachable_on_layer(nodes, layer, ep, y),
{
    if has_id(r, y) {
        let a = choose|a: int| 0 <= a < r.len() && #[trigger] r[a].0 == y;
        assert(v.contains(r[a].0));
    }
    let depth = choose|depth: Map<u64, nat>| #[trigger] reached_by(nodes, layer, ep, v, e, depth);
    lemma_reached_walk(nodes, layer, ep, v, e, depth, y);
}

/// When every visited node was explored, a walk from `ep` visits only
/// visited nodes: its first `i + 1` nodes are all visited.
proof fn lemma_walk_visited(
    nodes: Map<u64, Node>,
    layer: int,
    ep: u64,
    v: Set<u64>,
    p: Seq<u64>,
    i: int,
)
    requires
        v.contains(ep),
        forall|x: u64, k: int|
            v.contains(x) && 0 <= k < layer_nbrs(nodes[x], layer).len() ==> v.contains(
                #[trigger] layer_nbrs(nodes[x], layer)[k],
            ),
        is_layer_path(nodes, layer, p),
        p[0] == ep,
        0 <= i < p.len(),
    ensures
        v.contains(p[i]),
    decreases i,
{
    if i > 0 {
        let j = i - 1;
        lemma_walk_visited(nodes, layer, ep, v, p, j);
        assert(layer_nbrs(nodes[p[j]], layer).contains(p[j + 1]));
        assert(j + 1 == i);
        let prev = p[j];
        let k = choose|k: int| 0 <= k < layer_nbrs(nodes[prev], layer).len() && #[trigger] layer_nbrs(nodes[prev], layer)[k] == p[i];
        assert(v.contains(layer_nbrs(nodes[prev], layer)[k]));
    }
}

/// A layer search that returns fewer than `ef` results was exhaustive: every
/// node the filter admits that a walk along links on the layer reaches from
/// the start is among the results.
pub proof fn lemma_layer_search_exhaustive(
    nodes: Map<u64, Node>,
    tombstones: Set<u64>,
    dists: Map<u64, u32>,
    ep: u64,
    ef: nat,
    layer: int,
    filter: Option<Payload>,
    r: Seq<(u64, u32)>,
    v: Set<u64>,
    e: Set<u64>,
    y: u64,
)
    requires
        layer_search_outcome(nodes, tombstones, dists, ep, ef, layer, filter, r, v, e),
        r.len() < ef,
        reachable_on_layer(nodes, layer, ep, y),
        admitted(nodes, tombstones, filter, y),
    ensures
        has_id(r, y),
{
    assert forall|x: u64, k: int|
        v.contains(x) && 0 <= k < layer_nbrs(nodes[x], layer).len() implies v.contains(
            #[trigger] layer_nbrs(nodes[x], layer)[k],
        ) by {
        assert(e.contains(x));
    }
    let p = choose|p: Seq<u64>| #[trigger] is_layer_path(nodes, layer, p) && p[0] == ep && p.last() == y;
    lemma_walk_visited(nodes, layer, ep, v, p, p.len() - 1);
    assert(v.contains(y));
}

/// The neighbours of every explored node other than `skip` were visited.
spec fn explored_closed(nodes: Map<u64, Node>, layer: int, v: Set<u64>, e: Set<u64>, skip: Option<u64>) -> bool {
    forall|x: u64, k: int|
        e.contains(x) && skip != Some(x) && 0 <= k < layer_nbrs(nodes[x], layer).len() ==> v.contains(
            #[trigger] layer_nbrs(nodes[x], layer)[k],
        )
}

/// Position of an entry with the smallest key (the first such).
fn argmin_key(c: &Vec<(u64, u32)>) -> (p: usize)
    requires
        c@.len() > 0,
    ensures
        p < c@.len(),
        forall|a: int| 0 <= a < c@.len() ==> c@[p as int].1 <= #[trigger] c@[a].1,
{
    let mut p: usize = 0;
    let mut i: usize = 1;
    while i < c.len()
        invariant
            0 < i <= c@.len(),
            p < i,
            forall|a: int| 0 <= a < i ==> c@[p as int].1 <= #[trigger] c@[a].1,
        decreases c@.len() - i,
    {
        if c[i].1 < c[p].1 {
            p = i;
        }
        i = i + 1;
    }
    p
}

/// Position of an entry with the largest key (the first such).
fn argmax_key(c: &Vec<(u64, u32)>) -> (p: usize)
    requires
        c@.len() > 0,
    ensures
        p < c@.len(),
        forall|a: int| 0 <= a < c@.len() ==> c@[p as int].1 >= #[trigger] c@[a].1,
{
    let mut p: usize = 0;
    let mut i: usize = 1;
    while i < c.len()
        invariant
            0 < i <= c@.len(),
            p < i,
            forall|a: int| 0 <= a < i ==> c@[p as int].1 >= #[trigger] c@[a].1,
        decreases c@.len() - i,
    {
        if c[i].1 > c[p].1 {
            p = i;
        }
        i = i + 1;
    }
    p
}

/// Pushing an admitted node and then dropping the worst entry keeps the
/// results the best ones.
proof fn lemma_drop_worst(
    nodes: Map<u64, Node>,
    tomb: Set<u64>,
    dm: Map<u64, u32>,
    ef: nat,
    fv: Option<Payload>,
    old_r: Seq<(u64, u32)>,
    before: Seq<(u64, u32)>,
    after: Seq<(u64, u32)>,
    wi: int,
    nbr: u64,
    d: u32,
    v: Set<u64>,
)
    requires
        results_ok(nodes, tomb, dm, ef, fv, old_r, v.remove(nbr)),
        v.contains(nbr),
        admitted(nodes, tomb, fv, nbr),
        dm[nbr] == d,
        before == old_r.push((nbr, d)),
        before.len() > ef,
        0 <= wi < before.len(),
        forall|a: int| 0 <= a < before.len() ==> before[wi].1 >= #[trigger] before[a].1,
        after == before.remove(wi),
    ensures
        results_ok(nodes, tomb, dm, ef, fv, after, v),
{
    before.remove_ensures(wi);
    let ov = v.remove(nbr);
    assert forall|a: int| 0 <= a < after.len() implies v.contains(#[trigger] after[a].0) && admitted(
        nodes,
        tomb,
        fv,
        after[a].0,
    ) && after[a].1 == dm[after[a].0] by {
        if a < wi {
            assert(after[a] == before[a]);
        } else {
            assert(after[a] == before[a + 1]);
        }
        if a < wi && a < old_r.len() {
            assert(before[a] == old_r[a]);
        } else if a >= wi && a + 1 < old_r.len() {
            assert(before[a + 1] == old_r[a + 1]);
        }
    }
    assert forall|a: int, b: int| 0 <= a < b < after.len() implies #[trigger] after[a].0
        != #[trigger] after[b].0 by {
        let a0 = if a < wi { a } else { a + 1 };
        let b0 = if b < wi { b } else { b + 1 };
        assert(after[a] == before[a0]);
        assert(after[b] == before[b0]);
        if b0 == old_r.len() {
            assert(before[b0].0 == nbr);
            assert(before[a0] == old_r[a0]);
            assert(ov.contains(old_r[a0].0));
        } else {
            assert(before[a0] == old_r[a0]);
            assert(before[b0] == old_r[b0]);
        }
    }
    assert forall|y: u64|
        #[trigger] v.contains(y) && admitted(nodes, tomb, fv, y) && !has_id(after, y) implies after.len()
        >= ef && forall|a: int| 0 <= a < after.len() ==> dm[y] >= #[trigger] after[a].1 by {
        assert forall|a: int| 0 <= a < after.len() implies dm[y] >= #[trigger] after[a].1 by {
            let a0 = if a < wi { a } else { a + 1 };
            assert(after[a] == before[a0]);
            if y == before[wi].0 {
                assert(dm[y] == before[wi].1) by {
                    if wi == old_r.len() {
                    } else {
                        assert(before[wi] == old_r[wi]);
                    }
                }
            } else {
                // y was left out before this push
                assert(y != nbr) by {
                    if y == nbr {
                        if wi != old_r.len() {
                            assert(after[old_r.len() - 1] == before[old_r.len() as int]);
                            assert(after[old_r.len() - 1].0 == nbr);
                        }
                    }
                }
                assert(!has_id(old_r, y)) by {
                    if has_id(old_r, y) {
                        let c = choose|c: int| 0 <= c < old_r.len() && #[trigger] old_r[c].0 == y;
                        assert(before[c] == old_r[c]);
                        if c < wi {
                            assert(after[c] == before[c]);
                        } else {
                            assert(c != wi);
                            assert(after[c - 1] == before[c]);
                        }
                    }
                }
                assert(ov.contains(y));
                assert(old_r.len() >= ef);
                if a0 == old_r.len() {
                    assert(before[wi].1 >= before[a0].1);
                    assert(wi < old_r.len());
                    assert(before[wi] == old_r[wi]);
                    assert(dm[y] >= old_r[wi].1);
                } else {
                    assert(before[a0] == old_r[a0]);
                }
            }
        }
    }
}

/// Pushing an admitted node without dropping any keeps the results the
/// best ones.
proof fn lemma_keep_all(
    nodes: Map<u64, Node>,
    tomb: Set<u64>,
    dm: Map<u64, u32>,
    ef: nat,
    fv: Option<Payload>,
    old_r: Seq<(u64, u32)>,
    after: Seq<(u64, u32)>,
    nbr: u64,
    d: u32,
    v: Set<u64>,
)
    requires
        results_ok(nodes, tomb, dm, ef, fv, old_r, v.remove(nbr)),
        v.contains(nbr),
        admitted(nodes, tomb, fv, nbr),
        dm[nbr] == d,
        after == old_r.push((nbr, d)),
        after.len() <= ef,
    ensures
        results_ok(nodes, tomb, dm, ef, fv, after, v),
{
    let ov = v.remove(nbr);
    assert forall|a: int| 0 <= a < after.len() implies v.contains(#[trigger] after[a].0) && admitted(
        nodes,
        tomb,
        fv,
        after[a].0,
    ) && after[a].1 == dm[after[a].0] by {
        if a < old_r.len() {
            assert(after[a] == old_r[a]);
        }
    }
    assert forall|a: int, b: int| 0 <= a < b < after.len() implies #[trigger] after[a].0
        != #[trigger] after[b].0 by {
        assert(after[a] == old_r[a]);
        if b < old_r.len() {
            assert(after[b] == old_r[b]);
        } else {
            assert(ov.contains(old_r[a].0));
        }
    }
    assert forall|y: u64|
        #[trigger] v.contains(y) && admitted(nodes, tomb, fv, y) && !has_id(after, y) implies after.len()
        >= ef && forall|a: int| 0 <= a < after.len() ==> dm[y] >= #[trigger] after[a].1 by {
        assert(after[old_r.len() as int].0 == nbr);
        assert(y != nbr);
        assert(!has_id(old_r, y)) by {
            if has_id(old_r, y) {
                let c = choose|c: int| 0 <= c < old_r.len() && #[trigger] old_r[c].0 == y;
                assert(after[c] == old_r[c]);
            }
        }
        assert(ov.contains(y));
        assert(old_r.len() >= ef);
    }
}

/// The larger of two naturals.
pub open spec fn max_nat(a: nat, b: nat) -> nat {
    if a >= b {
        a
    } else {
        b
    }
}

/// `r` holds the `k` entries of `pool` with the smallest keys (or all of
/// them, if there are fewer), smallest first: entry `a` of `r` is
/// `pool[sel[a]]` for distinct positions `sel`, and every entry left out
/// has a key no smaller than the last entry of `r`.
pub open spec fn is_smallest_k(r: Seq<(u64, u32)>, pool: Seq<(u64, u32)>, k: nat, sel: Seq<int>) -> bool {
    &&& r.len() == sel.len()
    &&& r.len() == crate::flat_index::min_nat(k, pool.len())
    &&& forall|a: int| 0 <= a < sel.len() ==> 0 <= #[trigger] sel[a] < pool.len() && r[a] == pool[sel[a]]
    &&& forall|a: int, b: int| 0 <= a < b < sel.len() ==> #[trigger] sel[a] != #[trigger] sel[b]
    &&& forall|a: int, b: int| 0 <= a < b < r.len() ==> #[trigger] r[a].1 <= #[trigger] r[b].1
    &&& forall|j: int|
        0 <= j < pool.len() && !sel.contains(j) && r.len() > 0 ==> #[trigger] pool[j].1 >= r[r.len()
            - 1].1
}

/// The `k` entries of `pool` with the smallest keys, smallest first: the
/// entries whose complemented keys are the `k` largest.
fn select_smallest_k(pool: &Vec<(u64, u32)>, k: usize) -> (r: Vec<(u64, u32)>)
    ensures
        exists|sel: Seq<int>| is_smallest_k(r@, pool@, k as nat, sel),
{
    let mut ids: Vec<u64> = Vec::new();
    let mut flipped: Vec<u32> = Vec::new();
    let mut i: usize = 0;
    while i < pool.len()
        invariant
            i <= pool@.len(),
            ids@.len() == i,
            flipped@.len() == i,
            forall|q: int| 0 <= q < i ==> #[trigger] ids@[q] == pool@[q].0 && flipped@[q] == !pool@[q].1,
        decreases pool@.len() - i,
    {
        ids.push(pool[i].0);
        flipped.push(!pool[i].1);
        i = i + 1;
    }
    let top = crate::flat_index::select_top_k(ids.as_slice(), flipped.as_slice(), k);
    let ghost sel = choose|sel: Seq<int>| crate::flat_index::is_top_k(top@, ids@, flipped@, k as nat, sel);
    let mut r: Vec<(u64, u32)> = Vec::new();
    let mut j: usize = 0;
    while j < top.len()
        invariant
            j <= top@.len(),
            r@.len() == j,
            forall|q: int| 0 <= q < j ==> #[trigger] r@[q] == (top@[q].0, !top@[q].1),
        decreases top@.len() - j,
    {
        r.push((top[j].0, !top[j].1));
        j = j + 1;
    }
    proof {
        assert forall|x: u32| #[trigger] !(!x) == x by {
            assert(!(!x) == x) by (bit_vector);
        }
        assert forall|x: u32, y: u32| (#[trigger] !x >= #[trigger] !y) == (x <= y) by {
            assert((!x >= !y) == (x <= y)) by (bit_vector);
        }
        assert forall|a: int| 0 <= a < sel.len() implies 0 <= #[trigger] sel[a] < pool@.len() && r@[a] == pool@[sel[a]] by {
            assert(top@[a] == (ids@[sel[a]], flipped@[sel[a]]));
            assert(!(!pool@[sel[a]].1) == pool@[sel[a]].1);
        }
        assert forall|a: int, b: int| 0 <= a < b < r@.len() implies #[trigger] r@[a].1 <= #[trigger] r@[b].1 by {
            assert(top@[a].1 >= top@[b].1);
            assert(r@[a].1 == !top@[a].1);
            assert(r@[b].1 == !top@[b].1);
            assert(!(!top@[a].1) >= !(!top@[b].1));
        }
        assert forall|q: int| 0 <= q < pool@.len() && !sel.contains(q) && r@.len() > 0 implies #[trigger] pool@[q].1 >= r@[r@.len() - 1].1 by {
            let last = r@.len() - 1;
            assert(ids@[q] == pool@[q].0);
            assert(flipped@[q] == !pool@[q].1);
            assert(flipped@[q] <= top@[last].1);
            assert(r@[last].1 == !top@[last].1);
            assert(!(!pool@[q].1) >= !top@[last].1);
            assert(!(!pool@[q].1) == pool@[q].1);
        }
        assert(is_smallest_k(r@, pool@, k as nat, sel));
    }
    r
}

/// What `insert_with_level` does: the graph stays well formed; the node
/// `id` is (re)placed with the given vector, payload and level; on every
/// layer it links to at most `MAX_LINKS` distinct live nodes (none when the
/// graph was empty or above the former top layer); every other node keeps
/// its data and gains a link back to `id` exactly on the layers where `id`
/// links to it; the entry point moves to `id` when the graph was empty or
/// `id` reaches above the former top layer.
pub open spec fn insert_outcome(
    old: HnswIndex,
    new: HnswIndex,
    id: u64,
    vector: Vec<u32>,
    payload: Payload,
    level: nat,
    dists: Map<u64, u32>,
) -> bool {
    &&& new.wf()
    &&& old.entry_point is Some ==> exists|m0: Map<u64, Node>, eps: Map<int, u64>, starts: Map<int, u64>|
        #[trigger] insert_path(old, new, id, level, dists, m0, eps, starts)
    &&& new.nodes@.dom() == old.nodes@.dom().insert(id)
    &&& new.nodes@[id].id == id
    &&& new.nodes@[id].vector == vector
    &&& new.nodes@[id].payload == payload
    &&& new.nodes@[id].max_layer == level
    &&& forall|l: int|
            0 <= l <= level ==> links_ok(
                #[trigger] layer_nbrs(new.nodes@[id], l),
                new.nodes@.dom(),
                new.tombstones@,
            )
    &&& old.entry_point is None ==> forall|l: int|
            #![trigger layer_nbrs(new.nodes@[id], l)]
            layer_nbrs(new.nodes@[id], l).len() == 0
    &&& forall|l: int|
            l > old.max_layer ==> #[trigger] layer_nbrs(new.nodes@[id], l).len() == 0
    &&& forall|x: u64|
            x != id && #[trigger] old.nodes@.contains_key(x) ==> linked_back(
                old.nodes@[x],
                new.nodes@[x],
                new.nodes@[id],
                x,
            )
    &&& old.entry_point is None ==> new.entry_point == Some(id)
            && new.max_layer == level
    &&& old.entry_point is Some && level > old.max_layer ==> new.entry_point
            == Some(id) && new.max_layer == level
    &&& old.entry_point is Some && level <= old.max_layer ==> new.entry_point
            == old.entry_point && new.max_layer == old.max_layer
    &&& new.tombstones@ == old.tombstones@
    &&& new.dim == old.dim
    &&& new.ef_construction == old.ef_construction
}

/// On layer `l`, graph `m` is the graph `old_nodes` with node `id` added (or
/// put back) without links: same ids plus `id`, the same lists on `l` for
/// every other node, and no list on `l` for `id`.
pub open spec fn agrees_on_layer(m: Map<u64, Node>, old_nodes: Map<u64, Node>, id: u64, l: int) -> bool {
    &&& m.dom() == old_nodes.dom().insert(id)
    &&& forall|x: u64|
        x != id && #[trigger] old_nodes.contains_key(x) ==> layer_nbrs(m[x], l) == layer_nbrs(
            old_nodes[x],
            l,
        )
    &&& layer_nbrs(m[id], l).len() == 0
}

/// `links` are the links a node `id` being inserted takes on layer `l`:
/// those that `choose_links` picks from the results of a layer search from
/// `ep` keeping `ef` candidates, in a graph that agrees on layer `l` with
/// the graph before the insert plus `id` unlinked.
pub open spec fn chosen_by_search(
    old_nodes: Map<u64, Node>,
    id: u64,
    tombstones: Set<u64>,
    dists: Map<u64, u32>,
    ef: nat,
    l: int,
    ep: u64,
    links: Seq<u64>,
) -> bool {
    exists|m: Map<u64, Node>, pool: Seq<(u64, u32)>, v: Set<u64>, e: Set<u64>, sel: Seq<int>|
        #![trigger layer_search_outcome(m, tombstones, dists, ep, ef, l, None, pool, v, e), links_chosen(links, pool, sel)]
        {
            &&& agrees_on_layer(m, old_nodes, id, l)
            &&& m.contains_key(ep)
            &&& layer_search_outcome(m, tombstones, dists, ep, ef, l, None, pool, v, e)
            &&& links_chosen(links, pool, sel)
        }
}

/// Where the search on the next layer down starts: the first link taken on
/// this layer, or the same node when none was.
pub open spec fn next_start(links: Seq<u64>, prev: u64) -> u64 {
    if links.len() > 0 {
        links[0]
    } else {
        prev
    }
}

/// The search on layer `l - 1` starts where the links of `nd` on layer `l`
/// point it.
pub open spec fn start_step_at(nd: Node, starts: Map<int, u64>, l: int) -> bool {
    &&& starts.contains_key(l)
    &&& starts.contains_key(l - 1)
    &&& starts[l - 1] == next_start(layer_nbrs(nd, l), starts[l])
}

/// How the links of a node `id` inserted into a non-empty graph were found:
/// in the graph `m0` (the old graph plus `id` unlinked), a greedy descent
/// from the entry point on the top layer down to layer `top` (the lower of
/// `level` and the old top layer); then, from layer `top` down to 0, the
/// links on each layer are those chosen by a layer search from `starts[l]`,
/// which is where the descent ended for `top` and where the links of the
/// layer above point for the layers below it.
pub open spec fn insert_path(
    old: HnswIndex,
    new: HnswIndex,
    id: u64,
    level: nat,
    dists: Map<u64, u32>,
    m0: Map<u64, Node>,
    eps: Map<int, u64>,
    starts: Map<int, u64>,
) -> bool {
    let top = if level <= old.max_layer { level as int } else { old.max_layer as int };
    &&& forall|l: int| #[trigger] agrees_on_layer(m0, old.nodes@, id, l)
    &&& descent_path(m0, old.tombstones@, dists, eps, top, old.max_layer as int)
    &&& old.entry_point == Some(eps[old.max_layer as int])
    &&& starts.contains_key(top)
    &&& starts[top] == eps[top]
    &&& forall|l: int|
        0 <= l <= top ==> #[trigger] chosen_by_search(
            old.nodes@,
            id,
            old.tombstones@,
            dists,
            old.ef_construction as nat,
            l,
            starts[l],
            layer_nbrs(new.nodes@[id], l),
        )
    &&& forall|l: int| 0 < l <= top ==> #[trigger] start_step_at(new.nodes@[id], starts, l)
    &&& forall|l: int| 0 <= l <= top ==> #[trigger] starts.contains_key(l)
}

/// A list of links a new node takes on one layer: at most `MAX_LINKS`
/// distinct nodes, none of them deleted.
pub open spec fn links_ok(links: Seq<u64>, dom: Set<u64>, tombstones: Set<u64>) -> bool {
    &&& links.len() <= MAX_LINKS
    &&& forall|k: int|
        0 <= k < links.len() ==> dom.contains(#[trigger] links[k]) && !tombstones.contains(links[k])
    &&& forall|a: int, b: int| 0 <= a < b < links.len() ==> #[trigger] links[a] != #[trigger] links[b]
}

/// Node `x` went from `old_n` to `new_n` when node `nd` was inserted: only
/// its lists changed, each by gaining `nd`'s id exactly on the layers where
/// `nd` links to `x`.
pub open spec fn linked_back(old_n: Node, new_n: Node, nd: Node, x: u64) -> bool {
    &&& new_n.id == old_n.id
    &&& new_n.vector == old_n.vector
    &&& new_n.payload == old_n.payload
    &&& new_n.max_layer == old_n.max_layer
    &&& new_n.neighbours@.len() == old_n.neighbours@.len()
    &&& forall|l: int|
        0 <= l < old_n.neighbours@.len() ==> #[trigger] new_n.neighbours@[l]@ == if layer_nbrs(
            nd,
            l,
        ).contains(x) {
            old_n.neighbours@[l]@.push(nd.id)
        } else {
            old_n.neighbours@[l]@
        }
}

/// Deleting a live node lowers the live count by one; deleting anything
/// else changes nothing.
pub proof fn lemma_delete_count(before: HnswIndex, after: HnswIndex, id: u64)
    requires
        before.wf(),
        after.nodes@ == before.nodes@,
        after.tombstones@ == if before.nodes@.contains_key(id) {
            before.tombstones@.insert(id)
        } else {
            before.tombstones@
        },
    ensures
        before.live_ids().contains(id) ==> after.live_ids().len() + 1 == before.live_ids().len(),
        !before.live_ids().contains(id) ==> after.live_ids() == before.live_ids(),
{
    if before.live_ids().contains(id) {
        assert(after.live_ids() =~= before.live_ids().remove(id));
        vstd::set_lib::lemma_len_subset(before.live_ids(), before.nodes@.dom());
    } else {
        assert(after.live_ids() =~= before.live_ids());
    }
}

/// Inserting a node under an id that was not in the graph adds one live
/// node; re-inserting under an existing id keeps the live set (a deleted
/// id stays deleted).
pub proof fn lemma_insert_count(
    before: HnswIndex,
    after: HnswIndex,
    id: u64,
    vector: Vec<u32>,
    payload: Payload,
    level: nat,
    dists: Map<u64, u32>,
)
    requires
        before.wf(),
        insert_outcome(before, after, id, vector, payload, level, dists),
    ensures
        !before.nodes@.contains_key(id) ==> after.live_ids() == before.live_ids().insert(id)
            && after.live_ids().len() == before.live_ids().len() + 1,
        before.nodes@.contains_key(id) ==> after.live_ids() == before.live_ids(),
{
    if !before.nodes@.contains_key(id) {
        assert(!before.tombstones@.contains(id));
        assert(after.live_ids() =~= before.live_ids().insert(id));
        vstd::set_lib::lemma_len_subset(before.live_ids(), before.nodes@.dom());
    } else {
        assert(after.live_ids() =~= before.live_ids());
    }
}

/// Links are bidirectional: after inserting `id`, every node it links to on
/// a layer that node reaches links back to `id` on that layer.
pub proof fn lemma_links_bidirectional(
    before: HnswIndex,
    after: HnswIndex,
    id: u64,
    vector: Vec<u32>,
    payload: Payload,
    level: nat,
    dists: Map<u64, u32>,
    l: int,
    x: u64,
)
    requires
        insert_outcome(before, after, id, vector, payload, level, dists),
        layer_nbrs(after.nodes@[id], l).contains(x),
        x != id,
        0 <= l < after.nodes@[x].neighbours@.len(),
    ensures
        layer_nbrs(after.nodes@[x], l).contains(id),
{
    let k = choose|k: int| 0 <= k < layer_nbrs(after.nodes@[id], l).len() && layer_nbrs(after.nodes@[id], l)[k] == x;
    assert(after.nodes@.contains_key(id));
    assert(node_wf(after.nodes@[id], id, after.nodes@.dom()));
    assert(0 <= l <= level);
    assert(links_ok(layer_nbrs(after.nodes@[id], l), after.nodes@.dom(), after.tombstones@));
    assert(after.nodes@.dom().contains(x));
    assert(before.nodes@.contains_key(x));
    assert(linked_back(before.nodes@[x], after.nodes@[x], after.nodes@[id], x));
    let pushed = before.nodes@[x].neighbours@[l]@.push(id);
    assert(after.nodes@[x].neighbours@[l]@ == pushed);
    assert(pushed[pushed.len() - 1] == id);
}

/// In a graph `m` that agrees on layer `l` with `old_nodes` plus an unlinked
/// `id`, every node a layer search visits other than its start is listed on
/// layer `l` by some node of `old_nodes`.
proof fn lemma_visited_listed(
    m: Map<u64, Node>,
    old_nodes: Map<u64, Node>,
    id: u64,
    tombstones: Set<u64>,
    dists: Map<u64, u32>,
    ep: u64,
    ef: nat,
    l: int,
    filter: Option<Payload>,
    pool: Seq<(u64, u32)>,
    v: Set<u64>,
    e: Set<u64>,
    y: u64,
) -> (x: u64)
    requires
        agrees_on_layer(m, old_nodes, id, l),
        layer_search_outcome(m, tombstones, dists, ep, ef, l, filter, pool, v, e),
        v.contains(y),
        y != ep,
    ensures
        old_nodes.contains_key(x),
        x != id,
        layer_nbrs(old_nodes[x], l).contains(y),
{
    let depth = choose|depth: Map<u64, nat>| #[trigger] reached_by(m, l, ep, v, e, depth);
    let (x, k) = choose|x: u64, k: int|
        e.contains(x) && 0 <= k < layer_nbrs(m[x], l).len() && #[trigger] layer_nbrs(m[x], l)[k] == y
            && depth[x] < depth[y];
    assert(m.dom().contains(x));
    assert(x != id);
    assert(old_nodes.contains_key(x));
    assert(layer_nbrs(m[x], l) == layer_nbrs(old_nodes[x], l));
    assert(layer_nbrs(old_nodes[x], l)[k] == y);
    x
}

/// A node of `old` that reaches layer `l`, or one that some node of `old`
/// lists on layer `l`, when `old`'s links are consistent.
spec fn on_layer(old: HnswIndex, y: u64, l: int) -> bool {
    old.nodes@.contains_key(y) && 0 <= l < old.nodes@[y].neighbours@.len()
}

/// Every node a layer search visits in a graph that agrees on layer `l`
/// with `old` (plus an unlinked `id`) reaches layer `l`, if its start does.
proof fn lemma_visited_on_layer(
    old: HnswIndex,
    m: Map<u64, Node>,
    id: u64,
    dists: Map<u64, u32>,
    ep: u64,
    ef: nat,
    l: int,
    pool: Seq<(u64, u32)>,
    v: Set<u64>,
    e: Set<u64>,
    y: u64,
)
    requires
        old.links_consistent(),
        !old.nodes@.contains_key(id),
        agrees_on_layer(m, old.nodes@, id, l),
        layer_search_outcome(m, old.tombstones@, dists, ep, ef, l, None, pool, v, e),
        on_layer(old, ep, l),
        v.contains(y),
    ensures
        on_layer(old, y, l),
{
    if y != ep {
        let x = lemma_visited_listed(m, old.nodes@, id, old.tombstones@, dists, ep, ef, l, None, pool, v, e, y);
        assert(layer_nbrs(old.nodes@[x], l).contains(y));
    }
}

/// Along the descent of an insert, the node reached on each layer from the
/// entry point down to `top` reaches that layer.
proof fn lemma_descent_on_layer(
    old: HnswIndex,
    m0: Map<u64, Node>,
    id: u64,
    dists: Map<u64, u32>,
    eps: Map<int, u64>,
    top: int,
    l: int,
)
    requires
        old.wf(),
        old.links_consistent(),
        !old.nodes@.contains_key(id),
        forall|q: int| #[trigger] agrees_on_layer(m0, old.nodes@, id, q),
        descent_path(m0, old.tombstones@, dists, eps, top, old.max_layer as int),
        old.entry_point == Some(eps[old.max_layer as int]),
        0 <= top <= l <= old.max_layer,
    ensures
        on_layer(old, eps[l], l),
    decreases old.max_layer - l,
{
    if l == old.max_layer {
        let ep = eps[l];
        assert(old.nodes@.contains_key(ep));
        assert(node_wf(old.nodes@[ep], ep, old.nodes@.dom()));
    } else {
        lemma_descent_on_layer(old, m0, id, dists, eps, top, l + 1);
        assert(descent_step_at(m0, old.tombstones@, dists, eps, l + 1));
        let from = eps[l + 1];
        let to = eps[l];
        let (pool, v, e) = choose|pool: Seq<(u64, u32)>, v: Set<u64>, e: Set<u64>|
            #[trigger] layer_search_outcome(m0, old.tombstones@, dists, from, 1, l + 1, None, pool, v, e) && (
            pool.len() == 0 ==> to == from) && (pool.len() > 0 ==> has_id(pool, to) && forall|a: int|
                0 <= a < pool.len() ==> dists[to] <= #[trigger] pool[a].1);
        assert(agrees_on_layer(m0, old.nodes@, id, l + 1));
        if pool.len() > 0 {
            let a = choose|a: int| 0 <= a < pool.len() && #[trigger] pool[a].0 == to;
            assert(v.contains(pool[a].0));
            lemma_visited_on_layer(old, m0, id, dists, from, 1, l + 1, pool, v, e, to);
        }
    }
}

/// On each layer from `top` down to 0 where an insert links its node, the
/// search starts at a node that reaches the layer, and every link taken
/// there points to a node of the old graph that reaches it.
proof fn lemma_links_on_layer(
    old: HnswIndex,
    new: HnswIndex,
    id: u64,
    level: nat,
    dists: Map<u64, u32>,
    m0: Map<u64, Node>,
    eps: Map<int, u64>,
    starts: Map<int, u64>,
    l: int,
)
    requires
        old.wf(),
        old.links_consistent(),
        !old.nodes@.contains_key(id),
        insert_path(old, new, id, level, dists, m0, eps, starts),
        0 <= l <= (if level <= old.max_layer { level as int } else { old.max_layer as int }),
    ensures
        on_layer(old, starts[l], l),
        forall|b: u64| #[trigger] layer_nbrs(new.nodes@[id], l).contains(b) ==> on_layer(old, b, l),
    decreases (if level <= old.max_layer { level as int } else { old.max_layer as int }) - l,
{
    let top = if level <= old.max_layer { level as int } else { old.max_layer as int };
    if l == top {
        lemma_descent_on_layer(old, m0, id, dists, eps, top, top);
    } else {
        lemma_links_on_layer(old, new, id, level, dists, m0, eps, starts, l + 1);
        assert(start_step_at(new.nodes@[id], starts, l + 1));
        let above = layer_nbrs(new.nodes@[id], l + 1);
        if above.len() > 0 {
            assert(above.contains(above[0]));
        }
    }
    let links = layer_nbrs(new.nodes@[id], l);
    assert(chosen_by_search(old.nodes@, id, old.tombstones@, dists, old.ef_construction as nat, l, starts[l], links));
    let (m, pool, v, e, sel) = choose|m: Map<u64, Node>, pool: Seq<(u64, u32)>, v: Set<u64>, e: Set<u64>, sel: Seq<int>|
        #![trigger layer_search_outcome(m, old.tombstones@, dists, starts[l], old.ef_construction as nat, l, None, pool, v, e), links_chosen(links, pool, sel)]
        {
            &&& agrees_on_layer(m, old.nodes@, id, l)
            &&& m.contains_key(starts[l])
            &&& layer_search_outcome(m, old.tombstones@, dists, starts[l], old.ef_construction as nat, l, None, pool, v, e)
            &&& links_chosen(links, pool, sel)
        };
    assert forall|b: u64| #[trigger] links.contains(b) implies on_layer(old, b, l) by {
        let i = choose|i: int| 0 <= i < links.len() && links[i] == b;
        assert(links[i] == pool[sel[i]].0);
        assert(v.contains(pool[sel[i]].0));
        lemma_visited_on_layer(old, m, id, dists, starts[l], old.ef_construction as nat, l, pool, v, e, b);
    }
}

/// Inserting a node under a new id keeps the links a proper layered graph:
/// every link stays within the graph, points to a node that reaches its
/// layer, and is matched by a link back; the entry point stays on the top
/// layer.
pub proof fn lemma_insert_keeps_links_consistent(
    before: HnswIndex,
    after: HnswIndex,
    id: u64,
    vector: Vec<u32>,
    payload: Payload,
    level: nat,
    dists: Map<u64, u32>,
)
    requires
        before.wf(),
        before.links_consistent(),
        !before.nodes@.contains_key(id),
        insert_outcome(before, after, id, vector, payload, level, dists),
    ensures
        after.links_consistent(),
{
    let top = if level <= before.max_layer { level as int } else { before.max_layer as int };
    if before.entry_point is Some {
        let (m0, eps, starts) = choose|m0: Map<u64, Node>, eps: Map<int, u64>, starts: Map<int, u64>|
            #[trigger] insert_path(before, after, id, level, dists, m0, eps, starts);
        assert forall|a: u64, l: int, b: u64|
            after.nodes@.contains_key(a) && #[trigger] layer_nbrs(after.nodes@[a], l).contains(b) implies {
                &&& after.nodes@.contains_key(b)
                &&& 0 <= l < after.nodes@[b].neighbours@.len()
                &&& layer_nbrs(after.nodes@[b], l).contains(a)
            } by {
            let nd = after.nodes@[id];
            if a == id {
                assert(0 <= l < nd.neighbours@.len());
                assert(l <= before.max_layer);
                assert(l <= top);
                lemma_links_on_layer(before, after, id, level, dists, m0, eps, starts, l);
                assert(on_layer(before, b, l));
                assert(b != id);
                assert(linked_back(before.nodes@[b], after.nodes@[b], nd, b));
                assert(after.nodes@[b].neighbours@.len() == before.nodes@[b].neighbours@.len());
                lemma_links_bidirectional(before, after, id, vector, payload, level, dists, l, b);
            } else {
                assert(before.nodes@.contains_key(a));
                let oa = before.nodes@[a];
                assert(linked_back(oa, after.nodes@[a], nd, a));
                assert(0 <= l < after.nodes@[a].neighbours@.len());
                let pushed = layer_nbrs(nd, l).contains(a);
                if b == id {
                    assert(node_wf(oa, a, before.nodes@.dom()));
                    if !pushed {
                        assert(after.nodes@[a].neighbours@[l]@ == oa.neighbours@[l]@);
                        let k = choose|k: int| 0 <= k < oa.neighbours@[l]@.len() && oa.neighbours@[l]@[k] == b;
                        assert(before.nodes@.dom().contains(oa.neighbours@[l]@[k]));
                    }
                    assert(layer_nbrs(nd, l).contains(a));
                } else {
                    let k = choose|k: int| 0 <= k < layer_nbrs(after.nodes@[a], l).len() && layer_nbrs(after.nodes@[a], l)[k] == b;
                    if pushed {
                        assert(after.nodes@[a].neighbours@[l]@ == oa.neighbours@[l]@.push(id));
                        assert(k < oa.neighbours@[l]@.len());
                        assert(oa.neighbours@[l]@[k] == b);
                    } else {
                        assert(after.nodes@[a].neighbours@[l]@ == oa.neighbours@[l]@);
                    }
                    assert(layer_nbrs(oa, l).contains(b));
                    assert(before.nodes@.contains_key(b));
                    let ob = before.nodes@[b];
                    assert(layer_nbrs(ob, l).contains(a));
                    assert(linked_back(ob, after.nodes@[b], nd, b));
                    let j = choose|j: int| 0 <= j < layer_nbrs(ob, l).len() && layer_nbrs(ob, l)[j] == a;
                    if layer_nbrs(nd, l).contains(b) {
                        assert(after.nodes@[b].neighbours@[l]@ == ob.neighbours@[l]@.push(id));
                        assert(layer_nbrs(after.nodes@[b], l)[j] == a);
                    } else {
                        assert(layer_nbrs(after.nodes@[b], l)[j] == a);
                    }
                }
            }
        }
        if level > before.max_layer {
            assert(after.entry_point == Some(id));
        } else {
            let ep = eps[before.max_layer as int];
            assert(ep != id);
            assert(linked_back(before.nodes@[ep], after.nodes@[ep], after.nodes@[id], ep));
        }
    } else {
        assert(before.nodes@.dom() == Set::<u64>::empty());
        assert forall|a: u64, l: int, b: u64|
            after.nodes@.contains_key(a) && #[trigger] layer_nbrs(after.nodes@[a], l).contains(b) implies false by {
            assert(after.nodes@.dom().contains(a));
            assert(a == id);
        }
    }
}

/// Deleting a node only marks it: the links stay a proper layered graph.
pub proof fn lemma_delete_keeps_links_consistent(before: HnswIndex, after: HnswIndex)
    requires
        before.links_consistent(),
        after.nodes@ == before.nodes@,
        after.entry_point == before.entry_point,
        after.max_layer == before.max_layer,
    ensures
        after.links_consistent(),
{
}

/// On a graph whose layer 0 links lead from any node to any other, a search
/// keeping more candidates than there are nodes is exact: an admitted node
/// it leaves out has a key no smaller than any result's, and then `top_k`
/// results came back.
pub proof fn lemma_search_exact(
    index: HnswIndex,
    dists: Map<u64, u32>,
    top_k: nat,
    ef: nat,
    filter: Option<Payload>,
    r: Seq<(u64, u32)>,
    y: u64,
)
    requires
        index.wf(),
        index.nodes@.dom().finite(),
        forall|x: u64, z: u64|
            index.nodes@.contains_key(x) && index.nodes@.contains_key(z) ==> #[trigger] reachable_on_layer(
                index.nodes@,
                0,
                x,
                z,
            ),
        max_nat(ef, top_k) > index.nodes@.dom().len(),
        index.search_outcome(dists, top_k, ef, filter, r),
        index.nodes@.contains_key(y),
        admitted(index.nodes@, index.tombstones@, filter, y),
        !has_id(r, y),
    ensures
        r.len() == top_k,
        forall|a: int| 0 <= a < r.len() ==> #[trigger] r[a].1 <= dists[y],
{
    assert(index.entry_point is Some);
    let width = max_nat(ef, top_k);
    let (ep0, pool, v, e, sel) = choose|ep0: u64, pool: Seq<(u64, u32)>, v: Set<u64>, e: Set<u64>, sel: Seq<int>|
        #![trigger layer_search_outcome(index.nodes@, index.tombstones@, dists, ep0, max_nat(ef, top_k), 0, filter, pool, v, e), is_smallest_k(r, pool, top_k, sel)]
        {
            &&& index.nodes@.contains_key(ep0)
            &&& exists|eps: Map<int, u64>|
                #[trigger] descent_path(index.nodes@, index.tombstones@, dists, eps, 0, index.max_layer as int)
                    && Some(eps[index.max_layer as int]) == index.entry_point && eps[0] == ep0
            &&& layer_search_outcome(index.nodes@, index.tombstones@, dists, ep0, width, 0, filter, pool, v, e)
            &&& is_smallest_k(r, pool, top_k, sel)
        };
    let ids = pool.map_values(|c: (u64, u32)| c.0);
    assert(ids.no_duplicates()) by {
        assert forall|i: int, j: int| 0 <= i < ids.len() && 0 <= j < ids.len() && i != j implies ids[i] != ids[j] by {
            if i < j {
                assert(pool[i].0 != pool[j].0);
            } else {
                assert(pool[j].0 != pool[i].0);
            }
        }
    }
    assert(ids.to_set().subset_of(index.nodes@.dom())) by {
        assert forall|x: u64| ids.to_set().contains(x) implies index.nodes@.dom().contains(x) by {
            let i = choose|i: int| 0 <= i < ids.len() && ids[i] == x;
            assert(v.contains(pool[i].0));
        }
    }
    vstd::set_lib::lemma_len_subset(ids.to_set(), index.nodes@.dom());
    ids.unique_seq_to_set();
    assert(pool.len() < width);
    assert(reachable_on_layer(index.nodes@, 0, ep0, y));
    lemma_layer_search_exhaustive(index.nodes@, index.tombstones@, dists, ep0, width, 0, filter, pool, v, e, y);
    let j = choose|j: int| 0 <= j < pool.len() && #[trigger] pool[j].0 == y;
    assert(!sel.contains(j)) by {
        if sel.contains(j) {
            let a = choose|a: int| 0 <= a < sel.len() && sel[a] == j;
            assert(r[a] == pool[sel[a]]);
            assert(r[a].0 == y);
        }
    }
    assert(pool[j].1 == dists[y]);
    if r.len() < top_k {
        assert(r.len() == pool.len());
        assert forall|a: int, b: int| 0 <= a < b < sel.len() implies sel[a] != sel[b] by {}
        assert(sel.no_duplicates());
        let sel_set = sel.to_set();
        sel.unique_seq_to_set();
        let all = vstd::set_lib::set_int_range(0, pool.len() as int);
        vstd::set_lib::lemma_int_range(0, pool.len() as int);
        assert(sel_set.subset_of(all.remove(j))) by {
            assert forall|i: int| sel_set.contains(i) implies all.remove(j).contains(i) by {
                let a = choose|a: int| 0 <= a < sel.len() && sel[a] == i;
            }
        }
        vstd::set_lib::lemma_len_subset(sel_set, all.remove(j));
        assert(false);
    }
    assert forall|a: int| 0 <= a < r.len() implies #[trigger] r[a].1 <= dists[y] by {
        if a < r.len() - 1 {
            assert(r[a].1 <= r[r.len() - 1].1);
        }
    }
}

/// What `delete` does to the index: node `id`, if there is one, is marked
/// deleted; nothing else changes.
pub open spec fn delete_outcome(before: HnswIndex, after: HnswIndex, id: u64) -> bool {
    &&& after.nodes@ == before.nodes@
    &&& after.entry_point == before.entry_point
    &&& after.max_layer == before.max_layer
    &&& after.dim == before.dim
    &&& after.ef_construction == before.ef_construction
    &&& after.tombstones@ == if before.nodes@.contains_key(id) {
        before.tombstones@.insert(id)
    } else {
        before.tombstones@
    }
}

/// `after` is what one insert (of any node, on any level, with any keys) or
/// one delete makes of `before`.
pub open spec fn operation_step(before: HnswIndex, after: HnswIndex) -> bool {
    ||| exists|id: u64, vector: Vec<u32>, payload: Payload, level: nat, dists: Map<u64, u32>|
        #[trigger] insert_outcome(before, after, id, vector, payload, level, dists)
    ||| exists|id: u64| #[trigger] delete_outcome(before, after, id)
}

/// Step `i` of `states` is an insert or a delete.
pub open spec fn step_at(states: Seq<HnswIndex>, i: int) -> bool {
    operation_step(states[i], states[i + 1])
}

/// A deleted node stays deleted through any run of inserts and deletes.
proof fn lemma_tombstone_persists(states: Seq<HnswIndex>, id: u64, i: int)
    requires
        forall|j: int| 0 <= j < states.len() - 1 ==> #[trigger] step_at(states, j),
        states[0].tombstones@.contains(id),
        0 <= i < states.len(),
    ensures
        states[i].tombstones@.contains(id),
    decreases i,
{
    if i > 0 {
        lemma_tombstone_persists(states, id, i - 1);
        assert(step_at(states, i - 1));
        let b = states[i - 1];
        let a = states[i];
        if exists|x: u64, vector: Vec<u32>, payload: Payload, level: nat, dists: Map<u64, u32>|
            #[trigger] insert_outcome(b, a, x, vector, payload, level, dists) {
            let (x, vector, payload, level, dists) = choose|x: u64, vector: Vec<u32>, payload: Payload, level: nat, dists: Map<u64, u32>|
                #[trigger] insert_outcome(b, a, x, vector, payload, level, dists);
            assert(a.tombstones@ == b.tombstones@);
        } else {
            let x = choose|x: u64| #[trigger] delete_outcome(b, a, x);
            assert(b.tombstones@.subset_of(a.tombstones@));
        }
    }
}

/// Once deleted, a node is never returned again: after `delete(id)` of a
/// node and any run of inserts (under any id, `id` included) and deletes
/// that follows, no search returns `id`, though it may still route them.
pub proof fn lemma_deleted_never_returned(
    states: Seq<HnswIndex>,
    id: u64,
    dists: Map<u64, u32>,
    top_k: nat,
    ef: nat,
    filter: Option<Payload>,
    r: Seq<(u64, u32)>,
)
    requires
        states.len() >= 2,
        delete_outcome(states[0], states[1], id),
        states[0].nodes@.contains_key(id),
        forall|j: int| 1 <= j < states.len() - 1 ==> #[trigger] step_at(states, j),
        states.last().search_outcome(dists, top_k, ef, filter, r),
    ensures
        forall|a: int| 0 <= a < r.len() ==> #[trigger] r[a].0 != id,
{
    let rest = states.subrange(1, states.len() as int);
    assert forall|j: int| 0 <= j < rest.len() - 1 implies #[trigger] step_at(rest, j) by {
        assert(step_at(states, j + 1));
        assert(rest[j] == states[j + 1] && rest[j + 1] == states[j + 2]);
    }
    assert(rest[0] == states[1]);
    lemma_tombstone_persists(rest, id, rest.len() - 1);
    assert(rest[rest.len() - 1] == states.last());
    lemma_search_results(states.last(), dists, top_k, ef, filter, r);
    assert forall|a: int| 0 <= a < r.len() implies #[trigger] r[a].0 != id by {
        assert(states.last().live_ids().contains(r[a].0));
    }
}

/// Every search result is a live node that passes the filter, reported with
/// its key; results are distinct, smallest key first, and at most `top_k`.
pub proof fn lemma_search_results(
    index: HnswIndex,
    dists: Map<u64, u32>,
    top_k: nat,
    ef: nat,
    filter: Option<Payload>,
    r: Seq<(u64, u32)>,
)
    requires
        index.search_outcome(dists, top_k, ef, filter, r),
    ensures
        r.len() <= top_k,
        forall|a: int|
            0 <= a < r.len() ==> #[trigger] index.live_ids().contains(r[a].0) && admitted(
                index.nodes@,
                index.tombstones@,
                filter,
                r[a].0,
            ) && r[a].1 == dists[r[a].0],
        forall|a: int, b: int| 0 <= a < b < r.len() ==> #[trigger] r[a].0 != #[trigger] r[b].0,
        forall|a: int, b: int| 0 <= a < b < r.len() ==> #[trigger] r[a].1 <= #[trigger] r[b].1,
{
    if index.entry_point is Some {
        let (ep0, pool, v, e, sel) = choose|ep0: u64, pool: Seq<(u64, u32)>, v: Set<u64>, e: Set<u64>, sel: Seq<int>|
            #![trigger layer_search_outcome(index.nodes@, index.tombstones@, dists, ep0, max_nat(ef, top_k), 0, filter, pool, v, e), is_smallest_k(r, pool, top_k, sel)]
            {
                &&& index.nodes@.contains_key(ep0)
                &&& (index.max_layer == 0 ==> index.entry_point == Some(ep0))
                &&& layer_search_outcome(index.nodes@, index.tombstones@, dists, ep0, max_nat(ef, top_k), 0, filter, pool, v, e)
                &&& is_smallest_k(r, pool, top_k, sel)
            };
        assert forall|a: int| 0 <= a < r.len() implies #[trigger] index.live_ids().contains(r[a].0) && admitted(
            index.nodes@,
            index.tombstones@,
            filter,
            r[a].0,
        ) && r[a].1 == dists[r[a].0] by {
            assert(r[a] == pool[sel[a]]);
            assert(v.contains(pool[sel[a]].0));
        }
        assert forall|a: int, b: int| 0 <= a < b < r.len() implies #[trigger] r[a].0 != #[trigger] r[b].0 by {
            assert(r[a] == pool[sel[a]]);
            assert(r[b] == pool[sel[b]]);
            assert(sel[a] != sel[b]);
            if sel[a] < sel[b] {
                assert(pool[sel[a]].0 != pool[sel[b]].0);
            } else {
                assert(pool[sel[b]].0 != pool[sel[a]].0);
            }
        }
    }
}

/// `nbrs` lists the ids of the up to `MAX_LINKS` entries of `cands` with the
/// smallest keys (the closest), closest first: `nbrs[a]` is the id of
/// `cands[sel[a]]` for distinct positions `sel`, and every entry left out
/// has a key no smaller than the last one taken.
pub open spec fn links_chosen(nbrs: Seq<u64>, cands: Seq<(u64, u32)>, sel: Seq<int>) -> bool {
    &&& nbrs.len() == sel.len()
    &&& nbrs.len() == crate::flat_index::min_nat(MAX_LINKS as nat, cands.len())
    &&& forall|a: int| 0 <= a < sel.len() ==> 0 <= #[trigger] sel[a] < cands.len() && nbrs[a] == cands[sel[a]].0
    &&& forall|a: int, b: int| 0 <= a < b < sel.len() ==> #[trigger] sel[a] != #[trigger] sel[b]
    &&& forall|a: int, b: int| 0 <= a < b < sel.len() ==> cands[#[trigger] sel[a]].1 <= cands[#[trigger] sel[b]].1
    &&& forall|j: int|
        0 <= j < cands.len() && !sel.contains(j) && sel.len() > 0 ==> #[trigger] cands[j].1 >= cands[sel[sel.len() - 1]].1
}

/// The ids of the up to `MAX_LINKS` entries of `cands` with the smallest
/// keys, closest first.
fn choose_links(cands: &Vec<(u64, u32)>) -> (nbrs: Vec<u64>)
    requires
        forall|a: int, b: int| 0 <= a < b < cands@.len() ==> #[trigger] cands@[a].0 != #[trigger] cands@[b].0,
    ensures
        exists|sel: Seq<int>| links_chosen(nbrs@, cands@, sel),
        nbrs@.len() <= MAX_LINKS,
        forall|k: int| 0 <= k < nbrs@.len() ==> has_id(cands@, #[trigger] nbrs@[k]),
        forall|a: int, b: int| 0 <= a < b < nbrs@.len() ==> #[trigger] nbrs@[a] != #[trigger] nbrs@[b],
{
    let best = select_smallest_k(cands, MAX_LINKS);
    let ghost sel = choose|sel: Seq<int>| is_smallest_k(best@, cands@, MAX_LINKS as nat, sel);
    let mut nbrs: Vec<u64> = Vec::new();
    let mut b: usize = 0;
    while b < best.len()
        invariant
            b <= best@.len(),
            nbrs@.len() == b,
            forall|q: int| 0 <= q < b ==> #[trigger] nbrs@[q] == best@[q].0,
        decreases best@.len() - b,
    {
        nbrs.push(best[b].0);
        b = b + 1;
    }
    proof {
        assert forall|a: int, b: int| 0 <= a < b < nbrs@.len() implies #[trigger] nbrs@[a] != #[trigger] nbrs@[b] by {
            assert(best@[a] == cands@[sel[a]]);
            assert(best@[b] == cands@[sel[b]]);
            assert(sel[a] != sel[b]);
            if sel[a] < sel[b] {
                assert(cands@[sel[a]].0 != cands@[sel[b]].0);
            } else {
                assert(cands@[sel[b]].0 != cands@[sel[a]].0);
            }
        }
        assert(links_chosen(nbrs@, cands@, sel)) by {
            assert forall|a: int| 0 <= a < sel.len() implies 0 <= #[trigger] sel[a] < cands@.len() && nbrs@[a] == cands@[sel[a]].0 by {
                assert(best@[a] == cands@[sel[a]]);
            }
            assert forall|a: int, b: int| 0 <= a < b < sel.len() implies cands@[#[trigger] sel[a]].1 <= cands@[#[trigger] sel[b]].1 by {
                assert(best@[a] == cands@[sel[a]]);
                assert(best@[b] == cands@[sel[b]]);
                assert(best@[a].1 <= best@[b].1);
            }
            assert forall|j: int| 0 <= j < cands@.len() && !sel.contains(j) && sel.len() > 0 implies #[trigger] cands@[j].1 >= cands@[sel[sel.len() - 1]].1 by {
                let last = sel.len() - 1;
                assert(best@[last] == cands@[sel[last]]);
                assert(cands@[j].1 >= best@[best@.len() - 1].1);
            }
        }
        assert forall|k: int| 0 <= k < nbrs@.len() implies has_id(cands@, #[trigger] nbrs@[k]) by {
            assert(best@[k] == cands@[sel[k]]);
            assert(nbrs@[k] == cands@[sel[k]].0);
        }
    }
    nbrs
}

/// One step of the greedy descent: a search of `layer` from `from`, keeping
/// one candidate, moves to the candidate it ends with (a node with the
/// smallest key among its results), or stays at `from` when it ends with
/// none.
pub open spec fn descent_step(
    nodes: Map<u64, Node>,
    tombstones: Set<u64>,
    dists: Map<u64, u32>,
    from: u64,
    layer: int,
    to: u64,
) -> bool {
    exists|pool: Seq<(u64, u32)>, v: Set<u64>, e: Set<u64>|
        #[trigger] layer_search_outcome(nodes, tombstones, dists, from, 1, layer, None, pool, v, e) && (
        pool.len() == 0 ==> to == from) && (pool.len() > 0 ==> has_id(pool, to) && forall|a: int|
            0 <= a < pool.len() ==> dists[to] <= #[trigger] pool[a].1)
}

/// `eps[l - 1]` is where the descent step on layer `l` from `eps[l]` leads.
pub open spec fn descent_step_at(
    nodes: Map<u64, Node>,
    tombstones: Set<u64>,
    dists: Map<u64, u32>,
    eps: Map<int, u64>,
    l: int,
) -> bool {
    &&& eps.contains_key(l)
    &&& eps.contains_key(l - 1)
    &&& descent_step(nodes, tombstones, dists, eps[l], l, eps[l - 1])
}

/// The descent steps from layer `top` down to layer `low + 1` lead through
/// `eps`, from `eps[top]` to `eps[low]`.
pub open spec fn descent_path(
    nodes: Map<u64, Node>,
    tombstones: Set<u64>,
    dists: Map<u64, u32>,
    eps: Map<int, u64>,
    low: int,
    top: int,
) -> bool {
    &&& eps.contains_key(low)
    &&& eps.contains_key(top)
    &&& forall|l: int| low < l <= top ==> #[trigger] descent_step_at(nodes, tombstones, dists, eps, l)
}

/// The number of words at the start of `draws` that are below `2^31`.
pub open spec fn leading_small(draws: Seq<u32>) -> nat
    decreases draws.len(),
{
    if draws.len() == 0 || draws[0] >= 0x8000_0000u32 {
        0
    } else {
        1 + leading_small(draws.drop_first())
    }
}

/// `draws` are the words a level draw takes: words are drawn until one is at
/// least `2^31` or `MAX_LEVEL + 1` have been drawn, so every word but the
/// last is below `2^31`, and the last is not or is the `MAX_LEVEL + 1`-th.
pub open spec fn drawn_until_stop(draws: Seq<u32>) -> bool {
    &&& 1 <= draws.len() <= MAX_LEVEL + 1
    &&& forall|i: int| 0 <= i < draws.len() - 1 ==> #[trigger] draws[i] < 0x8000_0000u32
    &&& draws.len() == MAX_LEVEL + 1 || draws.last() >= 0x8000_0000u32
}

/// The level a sequence of drawn words gives: one level per word below
/// `2^31` at its start, at most `MAX_LEVEL`.
pub open spec fn level_of(draws: Seq<u32>) -> nat {
    if leading_small(draws) <= MAX_LEVEL {
        leading_small(draws)
    } else {
        MAX_LEVEL as nat
    }
}

/// The level that `draws` give (see `level_of`).
pub fn level_from_draws(draws: &[u32]) -> (level: usize)
    ensures
        level == level_of(draws@),
{
    let mut level: usize = 0;
    assert(draws@.skip(0) == draws@);
    while level < draws.len() && level < MAX_LEVEL && draws[level] < 0x8000_0000u32
        invariant
            level <= draws@.len(),
            level <= MAX_LEVEL,
            leading_small(draws@) == level + leading_small(draws@.skip(level as int)),
        decreases MAX_LEVEL - level,
    {
        assert(draws@.skip(level as int)[0] == draws@[level as int]);
        assert(draws@.skip(level as int).drop_first() == draws@.skip(level + 1));
        level = level + 1;
    }
    proof {
        if level < MAX_LEVEL {
            if level < draws@.len() {
                assert(draws@.skip(level as int)[0] == draws@[level as int]);
            }
            assert(leading_small(draws@.skip(level as int)) == 0);
        } else {
            assert(leading_small(draws@) >= MAX_LEVEL);
        }
    }
    level
}

/// Among a finite set, removing a subset removes as many elements as it has.
pub proof fn lemma_live_count(all: Set<u64>, gone: Set<u64>)
    requires
        all.finite(),
        gone.subset_of(all),
    ensures
        all.difference(gone).len() == all.len() - gone.len(),
{
    vstd::set_lib::lemma_len_subset(gone, all);
    assert(all.difference(gone) + gone =~= all);
    assert(all.difference(gone).disjoint(gone));
    vstd::set_lib::lemma_set_disjoint_lens(all.difference(gone), gone);
}

} // verus!
