//! Bidirectional interning of names to dense integer identifiers.
use vstd::prelude::*;

verus! {

/// Size of the node identifier space (every `u32`).
pub const NODE_ID_LIMIT: u64 = 4294967296;

/// Size of the predicate identifier space (every `u16`).
pub const PREDICATE_ID_LIMIT: u64 = 65536;

/// The identifier space of a dictionary has no free identifier left.
#[derive(Debug, Clone, Copy, PartialEq, Eq, Structural)]
pub enum DictionaryError {
    IdSpaceExhausted,
}

/// A name <-> identifier dictionary. Identifiers are handed out from a
/// counter that only moves forward, so an identifier is never reused.
pub struct Dictionary {
    entries: Vec<(u32, String)>,
    next_id: u64,
    limit: u64,
}

impl Dictionary {
    /// The (identifier, name) pairs, in the order they were inserted.
    pub closed spec fn pairs(&self) -> Seq<(u32, Seq<char>)> {
        self.entries@.map_values(|e: (u32, String)| (e.0, e.1@))
    }

    /// The next identifier the counter will hand out.
    pub closed spec fn next(&self) -> nat {
        self.next_id as nat
    }

    /// The number of identifiers in this dictionary's space.
    pub closed spec fn limit(&self) -> nat {
        self.limit as nat
    }

    pub open spec fn wf(&self) -> bool {
        &&& self.next() <= self.limit() <= NODE_ID_LIMIT
        &&& forall|i: int| 0 <= i < self.pairs().len() ==> (#[trigger] self.pairs()[i]).0 < self.next()
        &&& forall|i: int, j: int|
            0 <= i < self.pairs().len() && 0 <= j < self.pairs().len() && i != j ==> {
                &&& (#[trigger] self.pairs()[i]).0 != (#[trigger] self.pairs()[j]).0
                &&& self.pairs()[i].1 != self.pairs()[j].1
            }
    }

    pub open spec fn has_name(&self, name: Seq<char>) -> bool {
        exists|i: int| 0 <= i < self.pairs().len() && (#[trigger] self.pairs()[i]).1 == name
    }

    pub open spec fn has_id(&self, id: u32) -> bool {
        exists|i: int| 0 <= i < self.pairs().len() && (#[trigger] self.pairs()[i]).0 == id
    }

    /// The identifier the dictionary maps `name` to.
    pub open spec fn id_for(&self, name: Seq<char>) -> Option<u32> {
        if self.has_name(name) {
            Some(
                self.pairs()[choose|i: int|
                    0 <= i < self.pairs().len() && (#[trigger] self.pairs()[i]).1 == name].0,
            )
        } else {
            None
        }
    }

    /// The name the dictionary maps `id` back to.
    pub open spec fn name_for(&self, id: u32) -> Option<Seq<char>> {
        if self.has_id(id) {
            Some(
                self.pairs()[choose|i: int|
                    0 <= i < self.pairs().len() && (#[trigger] self.pairs()[i]).0 == id].1,
            )
        } else {
            None
        }
    }

    proof fn lemma_entry_found(&self, i: int)
        requires
            self.wf(),
            0 <= i < self.pairs().len(),
        ensures
            self.id_for(self.pairs()[i].1) == Some(self.pairs()[i].0),
            self.name_for(self.pairs()[i].0) == Some(self.pairs()[i].1),
    {
        assert(self.has_name(self.pairs()[i].1));
        assert(self.has_id(self.pairs()[i].0));
    }

    /// Appending a pair whose name and identifier are both new, with the
    /// identifier below the counter, keeps the dictionary well formed.
    proof fn lemma_fresh_pair_keeps_wf(&self, before: Seq<(u32, Seq<char>)>, id: u32, name: Seq<char>)
        requires
            self.pairs() == before.push((id, name)),
            self.next() <= self.limit() <= NODE_ID_LIMIT,
            (id as nat) < self.next(),
            forall|i: int| 0 <= i < before.len() ==> (#[trigger] before[i]).0 < self.next(),
            forall|i: int| 0 <= i < before.len() ==> (#[trigger] before[i]).0 != id && before[i].1 != name,
            forall|i: int, j: int|
                0 <= i < before.len() && 0 <= j < before.len() && i != j ==> {
                    &&& (#[trigger] before[i]).0 != (#[trigger] before[j]).0
                    &&& before[i].1 != before[j].1
                },
        ensures
            self.wf(),
    {
        assert forall|i: int, j: int|
            0 <= i < self.pairs().len() && 0 <= j < self.pairs().len() && i != j
                implies (#[trigger] self.pairs()[i]).0 != (#[trigger] self.pairs()[j]).0
                && self.pairs()[i].1 != self.pairs()[j].1 by {
            if i < before.len() && j < before.len() {
                assert(before[i] == self.pairs()[i] && before[j] == self.pairs()[j]);
            } else if i < before.len() {
                assert(before[i] == self.pairs()[i]);
            } else {
                assert(before[j] == self.pairs()[j]);
            }
        }
        assert forall|i: int| 0 <= i < self.pairs().len() implies (#[trigger] self.pairs()[i]).0
            < self.next() by {
            if i < before.len() {
                assert(before[i] == self.pairs()[i]);
            }
        }
    }

    /// An empty dictionary whose identifiers are drawn from `0..limit`.
    pub fn new(limit: u64) -> (d: Self)
        requires
            limit <= NODE_ID_LIMIT,
        ensures
            d.wf(),
            d.pairs() == Seq::<(u32, Seq<char>)>::empty(),
            d.next() == 0,
            d.limit() == limit,
    {
        let d = Dictionary { entries: Vec::new(), next_id: 0, limit };
        assert(d.pairs() =~= Seq::<(u32, Seq<char>)>::empty());
        d
    }

    /// The number of names held.
    pub fn len(&self) -> (r: usize)
        ensures
            r == self.pairs().len(),
    {
        self.entries.len()
    }

    /// The identifier at `index` of the insertion order, and its name.
    pub fn entry(&self, index: usize) -> (r: (u32, String))
        requires
            index < self.pairs().len(),
        ensures
            r.0 == self.pairs()[index as int].0,
            r.1@ == self.pairs()[index as int].1,
    {
        let e = &self.entries[index];
        (e.0, e.1.clone())
    }

    /// The next identifier the counter will hand out.
    pub fn next_id(&self) -> (r: u64)
        ensures
            r == self.next(),
    {
        self.next_id
    }

    fn position_of_name(&self, name: &String) -> (r: Option<usize>)
        ensures
            match r {
                Some(i) => i < self.pairs().len() && self.pairs()[i as int].1 == name@,
                None => !self.has_name(name@),
            },
    {
        let mut i: usize = 0;
        while i < self.entries.len()
            invariant
                i <= self.entries.len(),
                forall|k: int| 0 <= k < i ==> (#[trigger] self.pairs()[k]).1 != name@,
            decreases self.entries.len() - i,
        {
            if self.entries[i].1 == *name {
                return Some(i);
            }
            i = i + 1;
        }
        None
    }

    fn position_of_id(&self, id: u32) -> (r: Option<usize>)
        ensures
            match r {
                Some(i) => i < self.pairs().len() && self.pairs()[i as int].0 == id,
                None => !self.has_id(id),
            },
    {
        let mut i: usize = 0;
        while i < self.entries.len()
            invariant
                i <= self.entries.len(),
                forall|k: int| 0 <= k < i ==> (#[trigger] self.pairs()[k]).0 != id,
            decreases self.entries.len() - i,
        {
            if self.entries[i].0 == id {
                return Some(i);
            }
            i = i + 1;
        }
        None
    }

    /// Looks `name` up without changing anything.
    pub fn lookup(&self, name: &str) -> (r: Option<u32>)
        requires
            self.wf(),
        ensures
            r == self.id_for(name@),
    {
        let key = name.to_owned();
        match self.position_of_name(&key) {
            Some(i) => {
                proof {
                    self.lemma_entry_found(i as int);
                }
                Some(self.entries[i].0)
            },
            None => None,
        }
    }

    /// The name that `id` stands for, if it was ever assigned.
    pub fn name_of(&self, id: u32) -> (r: Option<String>)
        requires
            self.wf(),
        ensures
            match r {
                Some(s) => self.name_for(id) == Some(s@),
                None => self.name_for(id) is None,
            },
    {
        match self.position_of_id(id) {
            Some(i) => {
                proof {
                    self.lemma_entry_found(i as int);
                }
                Some(self.entries[i].1.clone())
            },
            None => None,
        }
    }

    /// The identifier of `name`, assigning the next free one when `name` is new.
    /// The flag tells whether an identifier was assigned by this call.
    pub fn get_or_create(&mut self, name: &str) -> (r: Result<(u32, bool), DictionaryError>)
        requires
            old(self).wf(),
        ensures
            final(self).wf(),
            final(self).limit() == old(self).limit(),
            r is Err <==> (!old(self).has_name(name@) && old(self).next() == old(self).limit()),
            match r {
                Ok((id, created)) => {
                    &&& created == !old(self).has_name(name@)
                    &&& final(self).id_for(name@) == Some(id)
                    &&& created ==> {
                        &&& id as nat == old(self).next()
                        &&& final(self).pairs() == old(self).pairs().push((id, name@))
                        &&& final(self).next() == old(self).next() + 1
                    }
                    &&& !created ==> {
                        &&& old(self).id_for(name@) == Some(id)
                        &&& final(self).pairs() == old(self).pairs()
                        &&& final(self).next() == old(self).next()
                    }
                },
                Err(e) => {
                    &&& e == DictionaryError::IdSpaceExhausted
                    &&& final(self).pairs() == old(self).pairs()
                    &&& final(self).next() == old(self).next()
                },
            },
    {
        let key = name.to_owned();
        match self.position_of_name(&key) {
            Some(i) => {
                proof {
                    self.lemma_entry_found(i as int);
                }
                Ok((self.entries[i].0, false))
            },
            None => {
                if self.next_id >= self.limit {
                    return Err(DictionaryError::IdSpaceExhausted);
                }
                let id = self.next_id as u32;
                let ghost before = self.pairs();
                self.entries.push((id, key));
                self.next_id = self.next_id + 1;
                proof {
                    assert(self.pairs() =~= before.push((id, name@)));
                    self.lemma_fresh_pair_keeps_wf(before, id, name@);
                    self.lemma_entry_found(before.len() as int);
                }
                Ok((id, true))
            },
        }
    }

    /// Puts back a pair read from a snapshot. A pair whose name or identifier
    /// is already held is left out, so the mapping stays one to one; the
    /// counter moves past `id`.
    pub fn restore(&mut self, id: u32, name: String) -> (inserted: bool)
        requires
            old(self).wf(),
            old(self).limit() == NODE_ID_LIMIT || (id as nat) < old(self).limit(),
        ensures
            final(self).wf(),
            final(self).limit() == old(self).limit(),
            inserted == (!old(self).has_name(name@) && !old(self).has_id(id)),
            inserted ==> final(self).pairs() == old(self).pairs().push((id, name@)),
            !inserted ==> final(self).pairs() == old(self).pairs(),
            final(self).next() == if old(self).next() > id as nat {
                old(self).next()
            } else {
                id as nat + 1
            },
    {
        let ghost before = self.pairs();
        if self.next_id <= id as u64 {
            self.next_id = id as u64 + 1;
        }
        let by_name = self.position_of_name(&name);
        let by_id = self.position_of_id(id);
        if by_name.is_some() || by_id.is_some() {
            return false;
        }
        self.entries.push((id, name));
        proof {
            assert(self.pairs() =~= before.push((id, name@)));
            self.lemma_fresh_pair_keeps_wf(before, id, name@);
        }
        true
    }

    /// Bijection: a name maps to an identifier exactly when that identifier
    /// maps back to the name.
    pub proof fn lemma_bijection(&self, name: Seq<char>, id: u32)
        requires
            self.wf(),
        ensures
            self.id_for(name) == Some(id) <==> self.name_for(id) == Some(name),
    {
        if self.id_for(name) == Some(id) {
            let i = choose|i: int| 0 <= i < self.pairs().len() && (#[trigger] self.pairs()[i]).1 == name;
            self.lemma_entry_found(i);
        }
        if self.name_for(id) == Some(name) {
            let i = choose|i: int| 0 <= i < self.pairs().len() && (#[trigger] self.pairs()[i]).0 == id;
            self.lemma_entry_found(i);
        }
    }

    /// Unique identifiers: two different names never share an identifier.
    pub proof fn lemma_unique_ids(&self, a: Seq<char>, b: Seq<char>)
        requires
            self.wf(),
            a != b,
            self.has_name(a),
            self.has_name(b),
        ensures
            self.id_for(a) != self.id_for(b),
    {
        let i = choose|i: int| 0 <= i < self.pairs().len() && (#[trigger] self.pairs()[i]).1 == a;
        let j = choose|j: int| 0 <= j < self.pairs().len() && (#[trigger] self.pairs()[j]).1 == b;
        self.lemma_entry_found(i);
        self.lemma_entry_found(j);
    }

    /// Every identifier held is below the counter, so the one that
    /// `get_or_create` assigns next is above all of them.
    pub proof fn lemma_fresh_id_above_all(&self, name: Seq<char>)
        requires
            self.wf(),
            self.has_name(name),
        ensures
            (self.id_for(name).unwrap() as nat) < self.next(),
    {
        let i = choose|i: int| 0 <= i < self.pairs().len() && (#[trigger] self.pairs()[i]).1 == name;
        self.lemma_entry_found(i);
    }

    /// Names held by `earlier` keep their identifiers in a dictionary that
    /// only appended pairs to it.
    pub proof fn lemma_extension_keeps_ids(&self, earlier: Dictionary, name: Seq<char>)
        requires
            self.wf(),
            earlier.wf(),
            earlier.pairs().is_prefix_of(self.pairs()),
            earlier.has_name(name),
        ensures
            self.has_name(name),
            self.id_for(name) == earlier.id_for(name),
    {
        let i = choose|i: int| 0 <= i < earlier.pairs().len() && (#[trigger] earlier.pairs()[i]).1 == name;
        earlier.lemma_entry_found(i);
        assert(self.pairs()[i] == earlier.pairs()[i]);
        self.lemma_entry_found(i);
    }
}

} // verus!
