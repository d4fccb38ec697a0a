//! One tenant's graph: two dictionaries and a topology.
use vstd::prelude::*;
use crate::dictionary::{Dictionary, DictionaryError, NODE_ID_LIMIT, PREDICATE_ID_LIMIT};
use crate::persistence::GraphSnapshot;
use crate::text::{decimal, numbered};
use crate::topology::{Topology, all_edges, edges_upto, grown, out_edges};

verus! {

/// A (subject, predicate, object) fact, each part a name.
pub struct Triple {
    pub subject: String,
    pub predicate: String,
    pub object: String,
}

/// What one ingest batch did: capacity growths and edges written.
#[derive(Debug, Clone, Copy, PartialEq, Eq, Structural)]
pub struct IngestCounts {
    pub nodes_added: u64,
    pub edges_added: u64,
}

/// One outgoing edge as a query reports it: the target and the predicate's name.
pub struct Neighbor {
    pub node_id: u32,
    pub edge_type: String,
}

/// The answer to a name lookup; `node_id` is 0 when the name is unknown.
#[derive(Debug, Clone, Copy, PartialEq, Eq, Structural)]
pub struct Resolution {
    pub node_id: u32,
    pub found: bool,
}

/// Predicate pairs with their identifiers widened to `u32`.
pub open spec fn widened(ps: Seq<(u16, Seq<char>)>) -> Seq<(u32, Seq<char>)> {
    ps.map_values(|e: (u16, Seq<char>)| (e.0 as u32, e.1))
}

/// No two pairs share an identifier or a name.
pub open spec fn distinct_pairs(ps: Seq<(u32, Seq<char>)>) -> bool {
    forall|i: int, j: int|
        0 <= i < ps.len() && 0 <= j < ps.len() && i != j ==> {
            &&& (#[trigger] ps[i]).0 != (#[trigger] ps[j]).0
            &&& ps[i].1 != ps[j].1
        }
}

/// One past the largest identifier in `ps`, or 0 when `ps` is empty.
pub open spec fn counter_after(ps: Seq<(u32, Seq<char>)>) -> nat
    decreases ps.len(),
{
    if ps.len() == 0 {
        0
    } else {
        let c = counter_after(ps.drop_last());
        if c > ps.last().0 as nat {
            c
        } else {
            ps.last().0 as nat + 1
        }
    }
}

/// One past the largest node that any of `es` touches, or 0 when `es` is empty.
pub open spec fn edges_reach(es: Seq<(u32, u32, u16)>) -> nat
    decreases es.len(),
{
    if es.len() == 0 {
        0
    } else {
        let c = edges_reach(es.drop_last());
        if c > larger_end(es.last()) as nat {
            c
        } else {
            larger_end(es.last()) as nat + 1
        }
    }
}

/// The larger end of an edge.
pub open spec fn larger_end(e: (u32, u32, u16)) -> u32 {
    if e.0 >= e.1 {
        e.0
    } else {
        e.1
    }
}

/// `adj` after edge `e` is written: grown to cover both ends, then the edge
/// appended to the source's list.
pub open spec fn add_step(adj: Seq<Seq<(u32, u16)>>, e: (u32, u32, u16)) -> Seq<Seq<(u32, u16)>> {
    let g = grown(adj, larger_end(e) as nat + 1);
    g.update(e.0 as int, g[e.0 as int].push((e.1, e.2)))
}

/// `adj` after the edges `es` are written in order.
pub open spec fn replay(adj: Seq<Seq<(u32, u16)>>, es: Seq<(u32, u32, u16)>) -> Seq<Seq<(u32, u16)>>
    decreases es.len(),
{
    if es.len() == 0 {
        adj
    } else {
        add_step(replay(adj, es.drop_last()), es.last())
    }
}

/// How many of the edges `es`, written in order into `adj`, had to grow the capacity.
pub open spec fn growth_events(adj: Seq<Seq<(u32, u16)>>, es: Seq<(u32, u32, u16)>) -> nat
    decreases es.len(),
{
    if es.len() == 0 {
        0
    } else {
        growth_events(adj, es.drop_last()) + if larger_end(es.last()) as nat >= replay(
            adj,
            es.drop_last(),
        ).len() {
            1nat
        } else {
            0nat
        }
    }
}

/// The graph of one tenant.
pub struct TenantGraph {
    tenant_id: String,
    nodes: Dictionary,
    predicates: Dictionary,
    topology: Topology,
}

impl TenantGraph {
    /// The tenant this graph belongs to.
    pub closed spec fn tenant(&self) -> Seq<char> {
        self.tenant_id@
    }

    pub closed spec fn node_dict(&self) -> Dictionary {
        self.nodes
    }

    pub closed spec fn predicate_dict(&self) -> Dictionary {
        self.predicates
    }

    pub closed spec fn adjacency(&self) -> Seq<Seq<(u32, u16)>> {
        self.topology@
    }

    pub open spec fn wf(&self) -> bool {
        &&& self.node_dict().wf()
        &&& self.node_dict().limit() == NODE_ID_LIMIT
        &&& self.predicate_dict().wf()
        &&& self.predicate_dict().limit() == PREDICATE_ID_LIMIT
        &&& crate::topology::targets_in_range(self.adjacency())
        &&& self.adjacency().len() <= NODE_ID_LIMIT
        &&& self.adjacency().len() >= self.node_dict().next()
    }

    /// All three names of `t` are in the dictionaries.
    pub open spec fn knows_triple(&self, t: Triple) -> bool {
        &&& self.node_dict().has_name(t.subject@)
        &&& self.node_dict().has_name(t.object@)
        &&& self.predicate_dict().has_name(t.predicate@)
    }

    /// The edge each triple stands for under this graph's dictionaries.
    pub open spec fn resolved_edges(&self, ts: Seq<Triple>) -> Seq<(u32, u32, u16)> {
        ts.map_values(
            |t: Triple|
                (
                    self.node_dict().id_for(t.subject@).unwrap(),
                    self.node_dict().id_for(t.object@).unwrap(),
                    self.predicate_dict().id_for(t.predicate@).unwrap() as u16,
                ),
        )
    }

    /// A graph with no names and no edges.
    pub fn new(tenant_id: &str) -> (g: Self)
        ensures
            g.wf(),
            g.tenant() == tenant_id@,
            g.node_dict().pairs().len() == 0,
            g.node_dict().next() == 0,
            g.predicate_dict().pairs().len() == 0,
            g.predicate_dict().next() == 0,
            g.adjacency().len() == 0,
    {
        TenantGraph {
            tenant_id: tenant_id.to_owned(),
            nodes: Dictionary::new(NODE_ID_LIMIT),
            predicates: Dictionary::new(PREDICATE_ID_LIMIT),
            topology: Topology::new(),
        }
    }

    /// The identifier of node `name`, assigned when new; the flag tells whether it was.
    pub fn get_or_create_node_id(&mut self, name: &str) -> (r: Result<(u32, bool), DictionaryError>)
        requires
            old(self).wf(),
        ensures
            final(self).wf(),
            final(self).tenant() == old(self).tenant(),
            final(self).predicate_dict() == old(self).predicate_dict(),
            final(self).adjacency() == grown(old(self).adjacency(), final(self).node_dict().next()),
            final(self).node_dict().next() >= old(self).node_dict().next(),
            r is Err <==> (!old(self).node_dict().has_name(name@) && old(self).node_dict().next() == NODE_ID_LIMIT),
            match r {
                Ok((id, created)) => {
                    &&& created == !old(self).node_dict().has_name(name@)
                    &&& final(self).node_dict().id_for(name@) == Some(id)
                    &&& created ==> {
                        &&& final(self).node_dict().pairs() == old(self).node_dict().pairs().push((id, name@))
                        &&& id as nat == old(self).node_dict().next()
                        &&& final(self).node_dict().next() == old(self).node_dict().next() + 1
                    }
                    &&& !created ==> {
                        &&& old(self).node_dict().id_for(name@) == Some(id)
                        &&& final(self).node_dict().pairs() == old(self).node_dict().pairs()
                        &&& final(self).node_dict().next() == old(self).node_dict().next()
                    }
                },
                Err(_) => {
                    &&& final(self).node_dict().pairs() == old(self).node_dict().pairs()
                    &&& final(self).node_dict().next() == old(self).node_dict().next()
                },
            },
    {
        let r = self.nodes.get_or_create(name);
        self.topology.ensure_capacity(self.nodes.next_id());
        r
    }

    /// The identifier of predicate `name`, assigned when new. Fails once all
    /// 65,536 predicate identifiers are taken.
    pub fn get_or_create_predicate_id(&mut self, name: &str) -> (r: Result<u16, DictionaryError>)
        requires
            old(self).wf(),
        ensures
            final(self).wf(),
            final(self).tenant() == old(self).tenant(),
            final(self).node_dict() == old(self).node_dict(),
            final(self).adjacency() == old(self).adjacency(),
            r is Err <==> (!old(self).predicate_dict().has_name(name@) && old(self).predicate_dict().next()
                == PREDICATE_ID_LIMIT),
            match r {
                Ok(id) => {
                    &&& final(self).predicate_dict().id_for(name@) == Some(id as u32)
                    &&& old(self).predicate_dict().has_name(name@) ==> {
                        &&& old(self).predicate_dict().id_for(name@) == Some(id as u32)
                        &&& final(self).predicate_dict().pairs() == old(self).predicate_dict().pairs()
                        &&& final(self).predicate_dict().next() == old(self).predicate_dict().next()
                    }
                    &&& !old(self).predicate_dict().has_name(name@) ==> {
                        &&& final(self).predicate_dict().pairs() == old(self).predicate_dict().pairs().push(
                            (id as u32, name@),
                        )
                        &&& id as nat == old(self).predicate_dict().next()
                        &&& final(self).predicate_dict().next() == old(self).predicate_dict().next() + 1
                    }
                },
                Err(_) => {
                    &&& final(self).predicate_dict().pairs() == old(self).predicate_dict().pairs()
                    &&& final(self).predicate_dict().next() == old(self).predicate_dict().next()
                },
            },
    {
        match self.predicates.get_or_create(name) {
            Ok((id, _)) => {
                proof {
                    self.predicates.lemma_fresh_id_above_all(name@);
                }
                Ok(id as u16)
            },
            Err(e) => Err(e),
        }
    }

    /// Writes one edge per triple, interning the names first, under one
    /// exclusive borrow. `nodes_added` counts the triples that grew the
    /// capacity. Each triple interns its predicate, then subject and object.
    /// Running out of identifiers stops the batch with an error; triples
    /// written before stay written, and the capacity still covers every
    /// node identifier assigned.
    pub fn ingest(&mut self, triples: &Vec<Triple>) -> (r: Result<IngestCounts, DictionaryError>)
        requires
            old(self).wf(),
        ensures
            final(self).wf(),
            final(self).tenant() == old(self).tenant(),
            old(self).node_dict().pairs().is_prefix_of(final(self).node_dict().pairs()),
            old(self).predicate_dict().pairs().is_prefix_of(final(self).predicate_dict().pairs()),
            match r {
                Ok(c) => {
                    &&& c.edges_added == triples@.len()
                    &&& forall|k: int| 0 <= k < triples@.len() ==> final(self).knows_triple(#[trigger] triples@[k])
                    &&& final(self).adjacency() == replay(old(self).adjacency(), final(self).resolved_edges(triples@))
                    &&& c.nodes_added == growth_events(old(self).adjacency(), final(self).resolved_edges(triples@))
                },
                Err(e) => {
                    &&& e == DictionaryError::IdSpaceExhausted
                    &&& final(self).node_dict().next() == NODE_ID_LIMIT
                        || final(self).predicate_dict().next() == PREDICATE_ID_LIMIT
                    &&& exists|j: int|
                        0 <= j < triples@.len() && (forall|k: int| 0 <= k < j ==> final(self).knows_triple(#[trigger] triples@[k]))
                            && final(self).adjacency() == grown(
                            replay(old(self).adjacency(), final(self).resolved_edges(triples@.take(j))),
                            final(self).node_dict().next(),
                        )
                },
            },
            old(self).node_dict().next() + 2 * triples@.len() <= NODE_ID_LIMIT
                && old(self).predicate_dict().next() + triples@.len() <= PREDICATE_ID_LIMIT ==> r is Ok,
    {
        let ghost start_adj = self.topology@;
        let ghost start_nodes = self.nodes;
        let ghost start_predicates = self.predicates;
        let mut nodes_added: u64 = 0;
        let mut i: usize = 0;
        while i < triples.len()
            invariant
                self.wf(),
                self.tenant() == old(self).tenant(),
                start_adj == old(self).adjacency(),
                start_nodes == old(self).node_dict(),
                start_predicates == old(self).predicate_dict(),
                i <= triples@.len(),
                start_nodes.pairs().is_prefix_of(self.nodes.pairs()),
                start_predicates.pairs().is_prefix_of(self.predicates.pairs()),
                self.nodes.next() <= start_nodes.next() + 2 * i,
                self.predicates.next() <= start_predicates.next() + i,
                forall|k: int| 0 <= k < i ==> self.knows_triple(#[trigger] triples@[k]),
                self.topology@ == replay(start_adj, self.resolved_edges(triples@.take(i as int))),
                nodes_added == growth_events(start_adj, self.resolved_edges(triples@.take(i as int))),
                nodes_added <= i,
            decreases triples.len() - i,
        {
            let t = &triples[i];
            let ghost before = *self;
            let p_wide = match self.predicates.get_or_create(t.predicate.as_str()) {
                Ok((id, _)) => id,
                Err(e) => {
                    proof {
                        lemma_resolution_kept(before, *self, triples@.take(i as int));
                        assert(forall|k: int| 0 <= k < i ==> triples@.take(i as int)[k] == triples@[k]);
                        assert(self.adjacency() =~= grown(self.adjacency(), self.node_dict().next()));
                        assert((forall|k: int| 0 <= k < i ==> self.knows_triple(#[trigger] triples@[k]))
                            && self.adjacency() == grown(
                            replay(start_adj, self.resolved_edges(triples@.take(i as int))),
                            self.node_dict().next(),
                        ));
                    }
                    return Err(e);
                },
            };
            let ghost after_predicate = self.predicates;
            let s = match self.nodes.get_or_create(t.subject.as_str()) {
                Ok((id, _)) => id,
                Err(e) => {
                    proof {
                        lemma_resolution_kept(before, *self, triples@.take(i as int));
                        assert(forall|k: int| 0 <= k < i ==> triples@.take(i as int)[k] == triples@[k]);
                        assert(self.adjacency() =~= grown(self.adjacency(), self.node_dict().next()));
                        assert((forall|k: int| 0 <= k < i ==> self.knows_triple(#[trigger] triples@[k]))
                            && self.adjacency() == grown(
                            replay(start_adj, self.resolved_edges(triples@.take(i as int))),
                            self.node_dict().next(),
                        ));
                    }
                    return Err(e);
                },
            };
            let ghost after_subject = self.nodes;
            let o = match self.nodes.get_or_create(t.object.as_str()) {
                Ok((id, _)) => id,
                Err(e) => {
                    self.topology.ensure_capacity(self.nodes.next_id());
                    proof {
                        lemma_resolution_kept(before, *self, triples@.take(i as int));
                        assert(forall|k: int| 0 <= k < i ==> triples@.take(i as int)[k] == triples@[k]);
                        assert((forall|k: int| 0 <= k < i ==> self.knows_triple(#[trigger] triples@[k]))
                            && self.adjacency() == grown(
                            replay(start_adj, self.resolved_edges(triples@.take(i as int))),
                            self.node_dict().next(),
                        ));
                    }
                    return Err(e);
                },
            };
            proof {
                self.predicates.lemma_fresh_id_above_all(t.predicate@);
                self.nodes.lemma_extension_keeps_ids(after_subject, t.subject@);
                self.nodes.lemma_fresh_id_above_all(t.subject@);
                self.nodes.lemma_fresh_id_above_all(t.object@);
            }
            let p = p_wide as u16;
            let larger = if s >= o {
                s
            } else {
                o
            };
            let ghost prev_adj = self.topology@;
            if larger as u64 >= self.topology.num_nodes() as u64 {
                self.topology.ensure_capacity(larger as u64 + 1);
                nodes_added = nodes_added + 1;
            }
            self.topology.add_edge(s, o, p);
            proof {
                let prefix = triples@.take(i as int);
                assert(forall|k: int| 0 <= k < i ==> prefix[k] == triples@[k]);
                lemma_resolution_kept(before, *self, prefix);
                assert forall|k: int| 0 <= k <= i implies self.knows_triple(#[trigger] triples@[k]) by {
                    if k < i {
                        assert(prefix[k] == triples@[k]);
                    }
                }
                assert(triples@.take(i + 1) =~= prefix.push(*t));
                let done = self.resolved_edges(prefix);
                assert(self.resolved_edges(triples@.take(i + 1)) =~= done.push((s, o, p)));
                assert(done.push((s, o, p)).drop_last() =~= done);
                assert(self.topology@ == add_step(prev_adj, (s, o, p)));
            }
            i = i + 1;
        }
        proof {
            assert(triples@.take(i as int) =~= triples@);
        }
        Ok(IngestCounts { nodes_added, edges_added: i as u64 })
    }

    /// The name a query reports for node `id`: its dictionary name, else `Node_<id>`.
    pub open spec fn node_label(&self, id: u32) -> Seq<char> {
        match self.node_dict().name_for(id) {
            Some(n) => n,
            None => "Node_"@ + decimal(id as nat),
        }
    }

    /// The name a query reports for predicate `p`: its dictionary name, else `Predicate_<p>`.
    pub open spec fn predicate_label(&self, p: u16) -> Seq<char> {
        match self.predicate_dict().name_for(p as u32) {
            Some(n) => n,
            None => "Predicate_"@ + decimal(p as nat),
        }
    }

    /// `s` holds exactly this graph's dictionaries and edges.
    pub open spec fn saved_as(&self, s: GraphSnapshot) -> bool {
        &&& s.node_pairs() == self.node_dict().pairs()
        &&& widened(s.predicate_pairs()) == self.predicate_dict().pairs()
        &&& s.edges@ == all_edges(self.adjacency())
    }

    /// This graph is what `from_snapshot` builds from `s`.
    pub open spec fn restored_from(&self, s: GraphSnapshot) -> bool {
        &&& distinct_pairs(s.node_pairs()) ==> self.node_dict().pairs() == s.node_pairs()
        &&& distinct_pairs(widened(s.predicate_pairs())) ==> self.predicate_dict().pairs() == widened(
            s.predicate_pairs(),
        )
        &&& forall|k: int|
            0 <= k < self.node_dict().pairs().len() ==> s.node_pairs().contains(
                #[trigger] self.node_dict().pairs()[k],
            )
        &&& forall|k: int|
            0 <= k < self.predicate_dict().pairs().len() ==> widened(s.predicate_pairs()).contains(
                #[trigger] self.predicate_dict().pairs()[k],
            )
        &&& self.node_dict().next() == counter_after(s.node_pairs())
        &&& self.predicate_dict().next() == counter_after(widened(s.predicate_pairs()))
        &&& self.adjacency() == replay(
            grown(
                Seq::empty(),
                if self.node_dict().next() >= edges_reach(s.edges@) {
                    self.node_dict().next()
                } else {
                    edges_reach(s.edges@)
                },
            ),
            s.edges@,
        )
    }

    /// The tenant identifier.
    pub fn tenant_id(&self) -> (r: &str)
        ensures
            r@ == self.tenant(),
    {
        self.tenant_id.as_str()
    }

    /// The topology's capacity.
    pub fn num_nodes(&self) -> (r: usize)
        ensures
            r == self.adjacency().len(),
    {
        self.topology.num_nodes()
    }

    fn node_name(&self, id: u32) -> (r: String)
        requires
            self.wf(),
        ensures
            r@ == self.node_label(id),
    {
        match self.nodes.name_of(id) {
            Some(n) => n,
            None => numbered("Node_", id),
        }
    }

    fn predicate_name(&self, p: u16) -> (r: String)
        requires
            self.wf(),
        ensures
            r@ == self.predicate_label(p),
    {
        match self.predicates.name_of(p as u32) {
            Some(n) => n,
            None => numbered("Predicate_", p as u32),
        }
    }

    /// The outgoing edges of `node_id` in insertion order, each with its
    /// predicate's name; none when the node is past the capacity.
    pub fn get_neighbors(&self, node_id: u32) -> (r: Vec<Neighbor>)
        requires
            self.wf(),
        ensures
            r@.len() == out_edges(self.adjacency(), node_id as int).len(),
            forall|k: int|
                0 <= k < r@.len() ==> {
                    &&& (#[trigger] r@[k]).node_id == out_edges(self.adjacency(), node_id as int)[k].0
                    &&& r@[k].edge_type@ == self.predicate_label(
                        out_edges(self.adjacency(), node_id as int)[k].1,
                    )
                },
    {
        let list = self.topology.neighbors(node_id);
        let mut r: Vec<Neighbor> = Vec::new();
        let mut k: usize = 0;
        while k < list.len()
            invariant
                self.wf(),
                k <= list@.len(),
                list@ == out_edges(self.adjacency(), node_id as int),
                r@.len() == k,
                forall|m: int|
                    0 <= m < k ==> {
                        &&& (#[trigger] r@[m]).node_id == list@[m].0
                        &&& r@[m].edge_type@ == self.predicate_label(list@[m].1)
                    },
            decreases list.len() - k,
        {
            let (n, p) = list[k];
            let edge_type = self.predicate_name(p);
            r.push(Neighbor { node_id: n, edge_type });
            k = k + 1;
        }
        r
    }

    /// Looks a node name up without changing anything.
    pub fn resolve_id(&self, content: &str) -> (r: Resolution)
        requires
            self.wf(),
        ensures
            match self.node_dict().id_for(content@) {
                Some(id) => r.found && r.node_id == id,
                None => !r.found && r.node_id == 0,
            },
    {
        match self.nodes.lookup(content) {
            Some(id) => Resolution { node_id: id, found: true },
            None => Resolution { node_id: 0, found: false },
        }
    }

    /// Every edge as (from, to, predicate), node by node over the whole
    /// capacity, each node's edges in insertion order.
    pub fn edge_list(&self) -> (r: Vec<(u32, u32, u16)>)
        requires
            self.wf(),
        ensures
            r@ == all_edges(self.adjacency()),
    {
        let n = self.topology.num_nodes();
        let ghost adj = self.adjacency();
        let mut edges: Vec<(u32, u32, u16)> = Vec::new();
        let mut s: usize = 0;
        while s < n
            invariant
                self.wf(),
                adj == self.adjacency(),
                n == adj.len(),
                s <= n,
                edges@ == edges_upto(adj, s as nat),
            decreases n - s,
        {
            let list = self.topology.neighbors(s as u32);
            let ghost mapped = list@.map_values(|e: (u32, u16)| (s as u32, e.0, e.1));
            let mut j: usize = 0;
            while j < list.len()
                invariant
                    j <= list@.len(),
                    s < n,
                    list@ == adj[s as int],
                    mapped == list@.map_values(|e: (u32, u16)| (s as u32, e.0, e.1)),
                    edges@ == edges_upto(adj, s as nat) + mapped.take(j as int),
                decreases list.len() - j,
            {
                edges.push((s as u32, list[j].0, list[j].1));
                j = j + 1;
                assert(mapped.take(j as int) =~= mapped.take(j - 1).push(mapped[j - 1]));
            }
            assert(mapped.take(j as int) =~= mapped);
            assert(edges_upto(adj, (s + 1) as nat) =~= edges_upto(adj, s as nat) + mapped);
            s = s + 1;
        }
        edges
    }

    /// Every edge as names (subject, predicate, object), in the order of `edge_list`.
    pub fn get_all_triples(&self) -> (r: Vec<Triple>)
        requires
            self.wf(),
        ensures
            r@.len() == all_edges(self.adjacency()).len(),
            forall|k: int|
                0 <= k < r@.len() ==> {
                    &&& (#[trigger] r@[k]).subject@ == self.node_label(all_edges(self.adjacency())[k].0)
                    &&& r@[k].predicate@ == self.predicate_label(all_edges(self.adjacency())[k].2)
                    &&& r@[k].object@ == self.node_label(all_edges(self.adjacency())[k].1)
                },
    {
        let edges = self.edge_list();
        let mut r: Vec<Triple> = Vec::new();
        let mut k: usize = 0;
        while k < edges.len()
            invariant
                self.wf(),
                k <= edges@.len(),
                edges@ == all_edges(self.adjacency()),
                r@.len() == k,
                forall|m: int|
                    0 <= m < k ==> {
                        &&& (#[trigger] r@[m]).subject@ == self.node_label(edges@[m].0)
                        &&& r@[m].predicate@ == self.predicate_label(edges@[m].2)
                        &&& r@[m].object@ == self.node_label(edges@[m].1)
                    },
            decreases edges.len() - k,
        {
            let (from, to, p) = edges[k];
            let subject = self.node_name(from);
            let predicate = self.predicate_name(p);
            let object = self.node_name(to);
            r.push(Triple { subject, predicate, object });
            k = k + 1;
        }
        r
    }

    /// The full state of the graph as a snapshot.
    pub fn to_snapshot(&self) -> (s: GraphSnapshot)
        requires
            self.wf(),
        ensures
            self.saved_as(s),
    {
        let mut nodes: Vec<(u32, String)> = Vec::new();
        let mut i: usize = 0;
        while i < self.nodes.len()
            invariant
                self.wf(),
                i <= self.node_dict().pairs().len(),
                crate::persistence::node_pairs_view(nodes@) == self.node_dict().pairs().take(i as int),
            decreases self.node_dict().pairs().len() - i,
        {
            let e = self.nodes.entry(i);
            let ghost prev = nodes@;
            let ghost pairs = self.node_dict().pairs();
            nodes.push(e);
            proof {
                assert(crate::persistence::node_pairs_view(nodes@) =~= crate::persistence::node_pairs_view(
                    prev,
                ).push(pairs[i as int]));
                assert(pairs.take(i + 1) =~= pairs.take(i as int).push(pairs[i as int]));
            }
            i = i + 1;
        }
        assert(self.node_dict().pairs().take(i as int) =~= self.node_dict().pairs());
        let mut predicates: Vec<(u16, String)> = Vec::new();
        let mut i: usize = 0;
        while i < self.predicates.len()
            invariant
                self.wf(),
                i <= self.predicate_dict().pairs().len(),
                widened(crate::persistence::predicate_pairs_view(predicates@)) == self.predicate_dict().pairs().take(i as int),
            decreases self.predicate_dict().pairs().len() - i,
        {
            let (id, name) = self.predicates.entry(i);
            assert(self.predicate_dict().pairs()[i as int].0 < self.predicate_dict().next());
            let ghost prev = predicates@;
            let ghost pairs = self.predicate_dict().pairs();
            predicates.push((id as u16, name));
            proof {
                assert(widened(crate::persistence::predicate_pairs_view(predicates@)) =~= widened(
                    crate::persistence::predicate_pairs_view(prev),
                ).push(pairs[i as int]));
                assert(pairs.take(i + 1) =~= pairs.take(i as int).push(pairs[i as int]));
            }
            i = i + 1;
        }
        assert(self.predicate_dict().pairs().take(i as int) =~= self.predicate_dict().pairs());
        let edges = self.edge_list();
        GraphSnapshot { nodes, edges, predicates }
    }

    /// Rebuilds a graph from a snapshot. Dictionary pairs are put back in
    /// order (a pair clashing with an earlier one in name or identifier is
    /// left out); each counter restarts one past the largest identifier seen.
    /// The capacity is grown once to cover every node counted and every edge
    /// end, then the edges are written in snapshot order.
    pub fn from_snapshot(tenant_id: &str, snapshot: GraphSnapshot) -> (g: Self)
        ensures
            g.wf(),
            g.tenant() == tenant_id@,
            g.restored_from(snapshot),
    {
        let mut g = TenantGraph::new(tenant_id);
        let ghost node_pairs = snapshot.node_pairs();
        let mut i: usize = 0;
        while i < snapshot.nodes.len()
            invariant
                g.node_dict().wf(),
                g.node_dict().limit() == NODE_ID_LIMIT,
                g.predicate_dict().wf(),
                g.predicate_dict().limit() == PREDICATE_ID_LIMIT,
                g.tenant() == tenant_id@,
                g.adjacency().len() == 0,
                g.predicate_dict().pairs().len() == 0,
                g.predicate_dict().next() == 0,
                node_pairs == snapshot.node_pairs(),
                i <= node_pairs.len(),
                forall|k: int|
                    0 <= k < g.node_dict().pairs().len() ==> exists|j: int|
                        0 <= j < i && node_pairs[j] == #[trigger] g.node_dict().pairs()[k],
                g.node_dict().next() == counter_after(node_pairs.take(i as int)),
                distinct_pairs(node_pairs) ==> g.node_dict().pairs() == node_pairs.take(i as int),
            decreases snapshot.nodes.len() - i,
        {
            let id = snapshot.nodes[i].0;
            let name = snapshot.nodes[i].1.clone();
            let ghost before = g.nodes;
            g.nodes.restore(id, name);
            proof {
                assert forall|k: int| 0 <= k < g.node_dict().pairs().len() implies exists|j: int|
                    0 <= j < i + 1 && node_pairs[j] == #[trigger] g.node_dict().pairs()[k] by {
                    if k < before.pairs().len() {
                        assert(g.node_dict().pairs()[k] == before.pairs()[k]);
                        let j = choose|j: int| 0 <= j < i && node_pairs[j] == before.pairs()[k];
                        assert(node_pairs[j] == g.node_dict().pairs()[k]);
                    } else {
                        assert(node_pairs[i as int] == g.node_dict().pairs()[k]);
                    }
                }
                let taken = node_pairs.take(i + 1);
                assert(taken.drop_last() =~= node_pairs.take(i as int));
                assert(taken.last() == node_pairs[i as int]);
                if distinct_pairs(node_pairs) {
                    assert forall|k: int| 0 <= k < before.pairs().len() implies (#[trigger] before.pairs()[k]).1
                        != node_pairs[i as int].1 && before.pairs()[k].0 != node_pairs[i as int].0 by {
                        assert(before.pairs()[k] == node_pairs[k]);
                    }
                    assert(taken =~= node_pairs.take(i as int).push(node_pairs[i as int]));
                }
            }
            i = i + 1;
        }
        proof {
            assert(node_pairs.take(i as int) =~= node_pairs);
        }
        let ghost predicate_pairs = widened(snapshot.predicate_pairs());
        let mut i: usize = 0;
        while i < snapshot.predicates.len()
            invariant
                g.node_dict().wf(),
                g.node_dict().limit() == NODE_ID_LIMIT,
                g.predicate_dict().wf(),
                g.predicate_dict().limit() == PREDICATE_ID_LIMIT,
                g.tenant() == tenant_id@,
                g.adjacency().len() == 0,
                g.node_dict().next() == counter_after(node_pairs),
                forall|k: int|
                    0 <= k < g.node_dict().pairs().len() ==> exists|j: int|
                        0 <= j < node_pairs.len() && node_pairs[j] == #[trigger] g.node_dict().pairs()[k],
                forall|k: int|
                    0 <= k < g.predicate_dict().pairs().len() ==> exists|j: int|
                        0 <= j < i && predicate_pairs[j] == #[trigger] g.predicate_dict().pairs()[k],
                distinct_pairs(node_pairs) ==> g.node_dict().pairs() == node_pairs,
                node_pairs == snapshot.node_pairs(),
                predicate_pairs == widened(snapshot.predicate_pairs()),
                i <= predicate_pairs.len(),
                g.predicate_dict().next() == counter_after(predicate_pairs.take(i as int)),
                distinct_pairs(predicate_pairs) ==> g.predicate_dict().pairs() == predicate_pairs.take(i as int),
            decreases snapshot.predicates.len() - i,
        {
            let id = snapshot.predicates[i].0 as u32;
            let name = snapshot.predicates[i].1.clone();
            let ghost before = g.predicates;
            g.predicates.restore(id, name);
            proof {
                assert forall|k: int| 0 <= k < g.predicate_dict().pairs().len() implies exists|j: int|
                    0 <= j < i + 1 && predicate_pairs[j] == #[trigger] g.predicate_dict().pairs()[k] by {
                    if k < before.pairs().len() {
                        assert(g.predicate_dict().pairs()[k] == before.pairs()[k]);
                        let j = choose|j: int| 0 <= j < i && predicate_pairs[j] == before.pairs()[k];
                        assert(predicate_pairs[j] == g.predicate_dict().pairs()[k]);
                    } else {
                        assert(predicate_pairs[i as int] == g.predicate_dict().pairs()[k]);
                    }
                }
                let taken = predicate_pairs.take(i + 1);
                assert(taken.drop_last() =~= predicate_pairs.take(i as int));
                assert(taken.last() == predicate_pairs[i as int]);
                if distinct_pairs(predicate_pairs) {
                    assert forall|k: int| 0 <= k < before.pairs().len() implies (#[trigger] before.pairs()[k]).1
                        != predicate_pairs[i as int].1 && before.pairs()[k].0 != predicate_pairs[i as int].0 by {
                        assert(before.pairs()[k] == predicate_pairs[k]);
                    }
                    assert(taken =~= predicate_pairs.take(i as int).push(predicate_pairs[i as int]));
                }
            }
            i = i + 1;
        }
        proof {
            assert(predicate_pairs.take(i as int) =~= predicate_pairs);
        }
        let ghost es = snapshot.edges@;
        let mut capacity: u64 = g.nodes.next_id();
        let mut k: usize = 0;
        while k < snapshot.edges.len()
            invariant
                es == snapshot.edges@,
                k <= es.len(),
                g.node_dict().next() <= NODE_ID_LIMIT,
                capacity <= NODE_ID_LIMIT,
                capacity == if g.node_dict().next() >= edges_reach(es.take(k as int)) {
                    g.node_dict().next()
                } else {
                    edges_reach(es.take(k as int))
                },
            decreases snapshot.edges.len() - k,
        {
            let (from, to, _) = snapshot.edges[k];
            let larger = if from >= to {
                from
            } else {
                to
            };
            if larger as u64 + 1 > capacity {
                capacity = larger as u64 + 1;
            }
            proof {
                let taken = es.take(k + 1);
                assert(taken.drop_last() =~= es.take(k as int));
                assert(taken.last() == es[k as int]);
            }
            k = k + 1;
        }
        proof {
            assert(es.take(k as int) =~= es);
            lemma_reach_covers(es);
        }
        g.topology.ensure_capacity(capacity);
        let ghost base = g.topology@;
        let mut k: usize = 0;
        while k < snapshot.edges.len()
            invariant
                g.wf(),
                g.tenant() == tenant_id@,
                g.node_dict().next() == counter_after(node_pairs),
                distinct_pairs(node_pairs) ==> g.node_dict().pairs() == node_pairs,
                g.predicate_dict().next() == counter_after(predicate_pairs),
                distinct_pairs(predicate_pairs) ==> g.predicate_dict().pairs() == predicate_pairs,
                forall|m: int|
                    0 <= m < g.node_dict().pairs().len() ==> exists|j: int|
                        0 <= j < node_pairs.len() && node_pairs[j] == #[trigger] g.node_dict().pairs()[m],
                forall|m: int|
                    0 <= m < g.predicate_dict().pairs().len() ==> exists|j: int|
                        0 <= j < predicate_pairs.len() && predicate_pairs[j] == #[trigger] g.predicate_dict().pairs()[m],
                es == snapshot.edges@,
                k <= es.len(),
                base == grown(Seq::empty(), capacity as nat),
                capacity == if g.node_dict().next() >= edges_reach(es) {
                    g.node_dict().next()
                } else {
                    edges_reach(es)
                },
                forall|m: int| 0 <= m < es.len() ==> larger_end(#[trigger] es[m]) as nat + 1 <= edges_reach(es),
                g.adjacency().len() == capacity,
                g.adjacency() == replay(base, es.take(k as int)),
            decreases snapshot.edges.len() - k,
        {
            let (from, to, p) = snapshot.edges[k];
            assert(larger_end(es[k as int]) as nat + 1 <= edges_reach(es));
            g.topology.add_edge(from, to, p);
            proof {
                let taken = es.take(k + 1);
                assert(taken.drop_last() =~= es.take(k as int));
                assert(taken.last() == es[k as int]);
            }
            k = k + 1;
        }
        proof {
            assert(es.take(k as int) =~= es);
        }
        g
    }
}

/// Triples known to `before` resolve to the same edges in `after`, whose
/// dictionaries only appended pairs to those of `before`.
pub proof fn lemma_resolution_kept(before: TenantGraph, after: TenantGraph, ts: Seq<Triple>)
    requires
        before.wf(),
        after.node_dict().wf(),
        after.predicate_dict().wf(),
        before.node_dict().pairs().is_prefix_of(after.node_dict().pairs()),
        before.predicate_dict().pairs().is_prefix_of(after.predicate_dict().pairs()),
        forall|k: int| 0 <= k < ts.len() ==> before.knows_triple(#[trigger] ts[k]),
    ensures
        forall|k: int| 0 <= k < ts.len() ==> after.knows_triple(#[trigger] ts[k]),
        after.resolved_edges(ts) == before.resolved_edges(ts),
{
    assert forall|k: int| 0 <= k < ts.len() implies after.knows_triple(#[trigger] ts[k])
        && after.resolved_edges(ts)[k] == before.resolved_edges(ts)[k] by {
        assert(before.knows_triple(ts[k]));
        after.node_dict().lemma_extension_keeps_ids(before.node_dict(), ts[k].subject@);
        after.node_dict().lemma_extension_keeps_ids(before.node_dict(), ts[k].object@);
        after.predicate_dict().lemma_extension_keeps_ids(before.predicate_dict(), ts[k].predicate@);
    }
    assert(after.resolved_edges(ts) =~= before.resolved_edges(ts));
}

/// Every edge of `es` has both ends below `edges_reach(es)`.
pub proof fn lemma_reach_covers(es: Seq<(u32, u32, u16)>)
    ensures
        forall|m: int| 0 <= m < es.len() ==> larger_end(#[trigger] es[m]) as nat + 1 <= edges_reach(es),
    decreases es.len(),
{
    if es.len() > 0 {
        lemma_reach_covers(es.drop_last());
        assert forall|m: int| 0 <= m < es.len() implies larger_end(#[trigger] es[m]) as nat + 1 <= edges_reach(es) by {
            if m < es.len() - 1 {
                assert(es.drop_last()[m] == es[m]);
            }
        }
    }
}

/// Writing edge `e` appends it to its source's list and leaves every other list unchanged.
pub proof fn lemma_add_step_out_edges(adj: Seq<Seq<(u32, u16)>>, e: (u32, u32, u16), v: int)
    ensures
        out_edges(add_step(adj, e), v) == if v == e.0 as int {
            out_edges(adj, v).push((e.1, e.2))
        } else {
            out_edges(adj, v)
        },
{
    let g = grown(adj, larger_end(e) as nat + 1);
    assert(g.len() >= adj.len() && g.len() > e.0 as int);
    if 0 <= v < adj.len() {
        assert(g[v] == adj[v]);
    } else if adj.len() <= v < g.len() {
        assert(g[v] == Seq::<(u32, u16)>::empty());
    }
}

/// Writing `a` then `b` is writing `a + b`.
pub proof fn lemma_replay_append(
    adj: Seq<Seq<(u32, u16)>>,
    a: Seq<(u32, u32, u16)>,
    b: Seq<(u32, u32, u16)>,
)
    ensures
        replay(adj, a + b) == replay(replay(adj, a), b),
    decreases b.len(),
{
    if b.len() == 0 {
        assert(a + b =~= a);
    } else {
        lemma_replay_append(adj, a, b.drop_last());
        assert((a + b).drop_last() =~= a + b.drop_last());
        assert((a + b).last() == b.last());
    }
}

/// Writing the list `l` of edges out of node `m` appends `l` to `m`'s list.
pub proof fn lemma_replay_node_list(
    adj: Seq<Seq<(u32, u16)>>,
    m: u32,
    l: Seq<(u32, u16)>,
    v: int,
)
    ensures
        out_edges(replay(adj, l.map_values(|e: (u32, u16)| (m, e.0, e.1))), v) == if v == m as int {
            out_edges(adj, v) + l
        } else {
            out_edges(adj, v)
        },
    decreases l.len(),
{
    let ml = l.map_values(|e: (u32, u16)| (m, e.0, e.1));
    if l.len() == 0 {
        assert(out_edges(adj, v) + l =~= out_edges(adj, v));
    } else {
        let shorter = l.drop_last();
        lemma_replay_node_list(adj, m, shorter, v);
        assert(ml.drop_last() =~= shorter.map_values(|e: (u32, u16)| (m, e.0, e.1)));
        lemma_add_step_out_edges(replay(adj, ml.drop_last()), ml.last(), v);
        assert((out_edges(adj, v) + shorter).push(l.last()) =~= out_edges(adj, v) + l);
    }
}

/// Writing the scan of the first `k` nodes of `adj` appends each of those
/// nodes' lists to the same node.
pub proof fn lemma_replay_scan(
    base: Seq<Seq<(u32, u16)>>,
    adj: Seq<Seq<(u32, u16)>>,
    k: nat,
    v: int,
)
    requires
        k <= adj.len() <= NODE_ID_LIMIT,
    ensures
        out_edges(replay(base, edges_upto(adj, k)), v) == if 0 <= v < k {
            out_edges(base, v) + adj[v]
        } else {
            out_edges(base, v)
        },
    decreases k,
{
    if k == 0 {
        assert(edges_upto(adj, 0) =~= Seq::<(u32, u32, u16)>::empty());
    } else {
        let m = (k - 1) as u32;
        let front = edges_upto(adj, (k - 1) as nat);
        let mapped = adj[k - 1].map_values(|e: (u32, u16)| (m, e.0, e.1));
        assert(edges_upto(adj, k) =~= front + mapped);
        lemma_replay_append(base, front, mapped);
        lemma_replay_node_list(replay(base, front), m, adj[k - 1], v);
        lemma_replay_scan(base, adj, (k - 1) as nat, v);
    }
}

/// Snapshot round trip: a graph rebuilt from a graph's snapshot holds the
/// same node and predicate pairs and, at every node, the same outgoing edges
/// in the same order, hence the same multiset of edges.
pub proof fn lemma_snapshot_round_trip(g: TenantGraph, s: GraphSnapshot, h: TenantGraph)
    requires
        g.wf(),
        g.saved_as(s),
        h.restored_from(s),
    ensures
        h.node_dict().pairs() == g.node_dict().pairs(),
        h.predicate_dict().pairs() == g.predicate_dict().pairs(),
        forall|v: int| #[trigger] out_edges(h.adjacency(), v) == out_edges(g.adjacency(), v),
{
    assert(distinct_pairs(s.node_pairs()));
    assert(distinct_pairs(widened(s.predicate_pairs())));
    let cap = if h.node_dict().next() >= edges_reach(s.edges@) {
        h.node_dict().next()
    } else {
        edges_reach(s.edges@)
    };
    let base = grown(Seq::<Seq<(u32, u16)>>::empty(), cap);
    assert forall|v: int| #[trigger] out_edges(h.adjacency(), v) == out_edges(g.adjacency(), v) by {
        lemma_replay_scan(base, g.adjacency(), g.adjacency().len(), v);
        assert(out_edges(base, v) =~= Seq::<(u32, u16)>::empty());
        if 0 <= v < g.adjacency().len() {
            assert(out_edges(base, v) + g.adjacency()[v] =~= g.adjacency()[v]);
        }
    }
}

/// A restored counter is above every identifier it was restored from.
pub proof fn lemma_counter_after_above(ps: Seq<(u32, Seq<char>)>)
    ensures
        forall|k: int| 0 <= k < ps.len() ==> (#[trigger] ps[k]).0 < counter_after(ps),
    decreases ps.len(),
{
    if ps.len() > 0 {
        lemma_counter_after_above(ps.drop_last());
        assert forall|k: int| 0 <= k < ps.len() implies (#[trigger] ps[k]).0 < counter_after(ps) by {
            if k < ps.len() - 1 {
                assert(ps.drop_last()[k] == ps[k]);
            }
        }
    }
}

/// No collision after a restore: a name that the snapshot does not hold is
/// not in the restored dictionary, and the counter that will number it is
/// above every identifier of the snapshot.
pub proof fn lemma_restored_name_is_fresh(h: TenantGraph, s: GraphSnapshot, name: Seq<char>)
    requires
        h.restored_from(s),
        forall|k: int| 0 <= k < s.node_pairs().len() ==> (#[trigger] s.node_pairs()[k]).1 != name,
    ensures
        !h.node_dict().has_name(name),
        forall|k: int| 0 <= k < s.node_pairs().len() ==> ((#[trigger] s.node_pairs()[k]).0 as nat) < h.node_dict().next(),
{
    lemma_counter_after_above(s.node_pairs());
    if h.node_dict().has_name(name) {
        let i = choose|i: int| 0 <= i < h.node_dict().pairs().len() && (#[trigger] h.node_dict().pairs()[i]).1 == name;
        assert(s.node_pairs().contains(h.node_dict().pairs()[i]));
        let j = choose|j: int| 0 <= j < s.node_pairs().len() && s.node_pairs()[j] == h.node_dict().pairs()[i];
        assert(s.node_pairs()[j].1 == name);
    }
}

/// Capacity invariant: every node identifier the dictionary has assigned,
/// and both ends of every stored edge, are below the capacity.
pub proof fn lemma_capacity_covers_ids(g: TenantGraph, name: Seq<char>, s: int, k: int)
    requires
        g.wf(),
    ensures
        g.node_dict().has_name(name) ==> (g.node_dict().id_for(name).unwrap() as nat) < g.adjacency().len(),
        0 <= s < g.adjacency().len() && 0 <= k < g.adjacency()[s].len() ==> (g.adjacency()[s][k].0 as nat)
            < g.adjacency().len(),
{
    if g.node_dict().has_name(name) {
        g.node_dict().lemma_fresh_id_above_all(name);
    }
}

/// Snapshot round trip through bytes: a graph rebuilt from the decoding of
/// the bytes of a graph's snapshot holds the same node and predicate pairs
/// and the same outgoing edges at every node.
pub proof fn lemma_bytes_round_trip(
    g: TenantGraph,
    s: GraphSnapshot,
    bytes: Seq<u8>,
    back: GraphSnapshot,
    h: TenantGraph,
)
    requires
        g.wf(),
        g.saved_as(s),
        crate::persistence::snapshot_decoding(bytes) == Some((s.node_pairs(), s.edges@, s.predicate_pairs())),
        crate::persistence::snapshot_decoding(bytes) == Some((back.node_pairs(), back.edges@, back.predicate_pairs())),
        h.restored_from(back),
    ensures
        h.node_dict().pairs() == g.node_dict().pairs(),
        h.predicate_dict().pairs() == g.predicate_dict().pairs(),
        forall|v: int| #[trigger] out_edges(h.adjacency(), v) == out_edges(g.adjacency(), v),
{
    assert(g.saved_as(back));
    lemma_snapshot_round_trip(g, back, h);
}

} // verus!
