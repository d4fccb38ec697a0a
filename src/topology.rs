//! Adjacency-list storage of directed, predicate-labelled edges.
use vstd::prelude::*;

verus! {

/// Outgoing edges of node `s` in `adj`, empty past the capacity.
pub open spec fn out_edges(adj: Seq<Seq<(u32, u16)>>, s: int) -> Seq<(u32, u16)> {
    if 0 <= s < adj.len() {
        adj[s]
    } else {
        Seq::empty()
    }
}

/// `adj` grown to at least `n` slots; new slots have no edges.
pub open spec fn grown(adj: Seq<Seq<(u32, u16)>>, n: nat) -> Seq<Seq<(u32, u16)>> {
    if n <= adj.len() {
        adj
    } else {
        adj + Seq::new((n - adj.len()) as nat, |i: int| Seq::<(u32, u16)>::empty())
    }
}

/// Every edge of `adj` points at a node below its capacity.
pub open spec fn targets_in_range(adj: Seq<Seq<(u32, u16)>>) -> bool {
    forall|s: int, k: int|
        0 <= s < adj.len() && 0 <= k < adj[s].len() ==> (#[trigger] adj[s][k]).0 < adj.len()
}

/// The edges of the first `n` nodes, node by node, each in insertion order.
pub open spec fn edges_upto(adj: Seq<Seq<(u32, u16)>>, n: nat) -> Seq<(u32, u32, u16)>
    decreases n,
{
    if n == 0 || n > adj.len() {
        Seq::empty()
    } else {
        edges_upto(adj, (n - 1) as nat) + adj[n - 1].map_values(
            |e: (u32, u16)| ((n - 1) as u32, e.0, e.1),
        )
    }
}

/// Every edge of `adj`, in the order a full scan enumerates them.
pub open spec fn all_edges(adj: Seq<Seq<(u32, u16)>>) -> Seq<(u32, u32, u16)> {
    edges_upto(adj, adj.len())
}

/// A directed graph over node identifiers `0..num_nodes()`.
pub struct Topology {
    adjacency: Vec<Vec<(u32, u16)>>,
}

impl View for Topology {
    type V = Seq<Seq<(u32, u16)>>;

    closed spec fn view(&self) -> Seq<Seq<(u32, u16)>> {
        self.adjacency@.map_values(|v: Vec<(u32, u16)>| v@)
    }
}

impl Topology {
    pub open spec fn wf(&self) -> bool {
        &&& targets_in_range(self@)
        &&& self@.len() <= u32::MAX as nat + 1
    }

    /// An empty topology with no addressable node.
    pub fn new() -> (t: Self)
        ensures
            t.wf(),
            t@ == Seq::<Seq<(u32, u16)>>::empty(),
    {
        let t = Topology { adjacency: Vec::new() };
        assert(t@ =~= Seq::<Seq<(u32, u16)>>::empty());
        t
    }

    /// The capacity: how many node indices are addressable.
    pub fn num_nodes(&self) -> (r: usize)
        ensures
            r == self@.len(),
    {
        self.adjacency.len()
    }

    /// Grows the capacity to at least `n`; never shrinks.
    pub fn ensure_capacity(&mut self, n: u64)
        requires
            old(self).wf(),
            n <= u32::MAX as nat + 1,
        ensures
            final(self).wf(),
            final(self)@ == grown(old(self)@, n as nat),
    {
        let ghost before = self@;
        while (self.adjacency.len() as u64) < n
            invariant
                before.len() <= self@.len(),
                self@.len() <= n || self@.len() == before.len(),
                forall|i: int| 0 <= i < before.len() ==> #[trigger] self@[i] == before[i],
                forall|i: int| before.len() <= i < self@.len() ==> #[trigger] self@[i] == Seq::<(u32, u16)>::empty(),
            decreases n - self.adjacency.len(),
        {
            let ghost prev = self@;
            self.adjacency.push(Vec::new());
            assert(self@ =~= prev.push(Seq::<(u32, u16)>::empty()));
        }
        proof {
            assert(self@ =~= grown(before, n as nat));
            assert forall|s: int, k: int|
                0 <= s < self@.len() && 0 <= k < self@[s].len() implies (
                #[trigger] self@[s][k]).0 < self@.len() by {
                assert(s < before.len());
                assert(self@[s] == before[s]);
            }
        }
    }

    /// Appends the edge `from -> to` labelled `predicate` to `from`'s list.
    pub fn add_edge(&mut self, from: u32, to: u32, predicate: u16)
        requires
            old(self).wf(),
            (from as nat) < old(self)@.len(),
            (to as nat) < old(self)@.len(),
        ensures
            final(self).wf(),
            final(self)@ == old(self)@.update(from as int, old(self)@[from as int].push((to, predicate))),
    {
        let ghost before = self@;
        let mut list: Vec<(u32, u16)> = Vec::new();
        std::mem::swap(&mut list, &mut self.adjacency[from as usize]);
        list.push((to, predicate));
        self.adjacency.set(from as usize, list);
        proof {
            assert(self@ =~= before.update(from as int, before[from as int].push((to, predicate))));
            assert forall|s: int, k: int|
                0 <= s < self@.len() && 0 <= k < self@[s].len() implies (
                #[trigger] self@[s][k]).0 < self@.len() by {
                if s != from as int || k < before[s].len() {
                    assert(self@[s][k] == before[s][k]);
                }
            }
        }
    }

    /// The outgoing edges of `node`, in insertion order; none past the capacity.
    pub fn neighbors(&self, node: u32) -> (r: Vec<(u32, u16)>)
        ensures
            r@ == out_edges(self@, node as int),
    {
        let mut r: Vec<(u32, u16)> = Vec::new();
        if (node as usize) < self.adjacency.len() {
            let list = &self.adjacency[node as usize];
            let mut k: usize = 0;
            while k < list.len()
                invariant
                    k <= list@.len(),
                    list@ == self@[node as int],
                    r@ == list@.subrange(0, k as int),
                decreases list.len() - k,
            {
                r.push(list[k]);
                k = k + 1;
                assert(r@ =~= list@.subrange(0, k as int));
            }
            assert(r@ =~= list@);
        }
        r
    }

    /// Capacity invariant: every stored edge has both ends below `num_nodes()`.
    pub proof fn lemma_edges_within_capacity(&self, s: int, k: int)
        requires
            self.wf(),
            0 <= s < self@.len(),
            0 <= k < self@[s].len(),
        ensures
            s < self@.len(),
            (self@[s][k].0 as nat) < self@.len(),
    {
    }
}

} // verus!
