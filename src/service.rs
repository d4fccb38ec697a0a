//! The tenant-facing layer: tenant identifiers, the registry of resident
//! graphs, snapshot file names and delete outcomes.
use vstd::prelude::*;
use crate::text::joined;

verus! {

/// The identifier a request with an empty tenant identifier is served under.
pub open spec fn tenant_key_of(tenant_id: Seq<char>) -> Seq<char> {
    if tenant_id.len() == 0 {
        "default"@
    } else {
        tenant_id
    }
}

/// The registry key for `tenant_id`: the identifier itself, or `default` when it is empty.
pub fn tenant_key(tenant_id: &str) -> (r: String)
    ensures
        r@ == tenant_key_of(tenant_id@),
{
    if tenant_id.is_empty() {
        "default".to_owned()
    } else {
        tenant_id.to_owned()
    }
}

/// The snapshot file of a tenant: `<storage>/<key>.bin`.
pub fn snapshot_path(storage: &str, key: &str) -> (r: String)
    ensures
        r@ == storage@ + "/"@ + key@ + ".bin"@,
{
    let dir = joined(storage, "/");
    let stem = joined(dir.as_str(), key);
    joined(stem.as_str(), ".bin")
}

/// The answer to a search; searching is not offered, so it is always empty.
pub fn search(query: &str) -> (r: Vec<String>)
    ensures
        r@.len() == 0,
{
    Vec::new()
}

/// What became of a tenant's snapshot file on delete.
pub enum FileRemoval {
    /// There was no file.
    Absent,
    /// The file was removed.
    Removed,
    /// Removing the file failed, for the reason given.
    Failed(String),
}

/// The outcome of a delete request.
pub struct DeleteResponse {
    pub success: bool,
    pub message: String,
}

/// The response to a delete request that names no tenant, or `None` when
/// the request names one and may go ahead.
pub fn reject_delete(tenant_id: &str) -> (r: Option<DeleteResponse>)
    ensures
        r is Some <==> tenant_id@.len() == 0,
        r matches Some(d) ==> !d.success && d.message@ == "Tenant ID required"@,
{
    if tenant_id.is_empty() {
        Some(DeleteResponse { success: false, message: "Tenant ID required".to_owned() })
    } else {
        None
    }
}

/// The response to a delete of `tenant_id` once its file was dealt with.
/// A tenant with no file is already clean, which counts as success.
pub fn delete_response(tenant_id: &str, removal: FileRemoval) -> (r: DeleteResponse)
    ensures
        match removal {
            FileRemoval::Absent => r.success && r.message@ == "Tenant data not found (already clean)"@,
            FileRemoval::Removed => r.success && r.message@ == "Deleted data for tenant "@ + tenant_id@,
            FileRemoval::Failed(e) => !r.success && r.message@ == "Failed to delete file: "@ + e@,
        },
{
    match removal {
        FileRemoval::Absent => DeleteResponse {
            success: true,
            message: "Tenant data not found (already clean)".to_owned(),
        },
        FileRemoval::Removed => DeleteResponse {
            success: true,
            message: joined("Deleted data for tenant ", tenant_id),
        },
        FileRemoval::Failed(e) => DeleteResponse {
            success: false,
            message: joined("Failed to delete file: ", e.as_str()),
        },
    }
}

/// The resident graphs, one per tenant key. `G` is the handle the caller
/// shares out (a reference-counted, locked graph).
pub struct TenantRegistry<G> {
    entries: Vec<(String, G)>,
}

impl<G> TenantRegistry<G> {
    /// The keys, in the order they were added.
    pub closed spec fn keys(&self) -> Seq<Seq<char>> {
        self.entries@.map_values(|e: (String, G)| e.0@)
    }

    /// The handles, in the order of `keys`.
    pub closed spec fn handles(&self) -> Seq<G> {
        self.entries@.map_values(|e: (String, G)| e.1)
    }

    pub open spec fn wf(&self) -> bool {
        &&& self.keys().len() == self.handles().len()
        &&& forall|i: int, j: int|
            0 <= i < self.keys().len() && 0 <= j < self.keys().len() && i != j ==> #[trigger] self.keys()[i]
                != #[trigger] self.keys()[j]
    }

    /// The handle held under `key`.
    pub open spec fn handle_of(&self, key: Seq<char>) -> Option<G> {
        if self.keys().contains(key) {
            Some(self.handles()[self.keys().index_of(key)])
        } else {
            None
        }
    }

    /// This registry is `before` without the handle under `key`.
    pub open spec fn is_removal_of(&self, before: Self, key: Seq<char>) -> bool {
        &&& self.handle_of(key) is None
        &&& forall|k: Seq<char>| k != key ==> #[trigger] self.handle_of(k) == before.handle_of(k)
    }

    proof fn lemma_found(&self, i: int)
        requires
            self.wf(),
            0 <= i < self.keys().len(),
        ensures
            self.handle_of(self.keys()[i]) == Some(self.handles()[i]),
    {
        let key = self.keys()[i];
        assert(self.keys().contains(key));
        let j = self.keys().index_of(key);
        assert(self.keys()[j] == key);
    }

    /// A registry with no tenant.
    pub fn new() -> (r: Self)
        ensures
            r.wf(),
            forall|key: Seq<char>| #[trigger] r.handle_of(key) is None,
    {
        let r = TenantRegistry { entries: Vec::new() };
        assert(r.keys() =~= Seq::<Seq<char>>::empty());
        r
    }

    fn position(&self, key: &String) -> (r: Option<usize>)
        requires
            self.wf(),
        ensures
            match r {
                Some(i) => i < self.keys().len() && self.keys()[i as int] == key@,
                None => !self.keys().contains(key@),
            },
    {
        let mut i: usize = 0;
        while i < self.entries.len()
            invariant
                self.wf(),
                i <= self.entries.len(),
                forall|k: int| 0 <= k < i ==> (#[trigger] self.keys()[k]) != key@,
            decreases self.entries.len() - i,
        {
            if self.entries[i].0 == *key {
                return Some(i);
            }
            i = i + 1;
        }
        None
    }

    /// The handle of the tenant, `default` standing for an empty identifier.
    pub fn get(&self, tenant_id: &str) -> (r: Option<&G>)
        requires
            self.wf(),
        ensures
            match r {
                Some(g) => self.handle_of(tenant_key_of(tenant_id@)) == Some(*g),
                None => self.handle_of(tenant_key_of(tenant_id@)) is None,
            },
    {
        let key = tenant_key(tenant_id);
        match self.position(&key) {
            Some(i) => {
                proof {
                    self.lemma_found(i as int);
                }
                Some(&self.entries[i].1)
            },
            None => None,
        }
    }

    /// Adds `graph` under the tenant's key unless a handle is already there;
    /// the first one added stays. Tells whether `graph` was added.
    pub fn insert_if_absent(&mut self, tenant_id: &str, graph: G) -> (added: bool)
        requires
            old(self).wf(),
        ensures
            final(self).wf(),
            added == (old(self).handle_of(tenant_key_of(tenant_id@)) is None),
            added ==> final(self).handle_of(tenant_key_of(tenant_id@)) == Some(graph),
            !added ==> final(self).handle_of(tenant_key_of(tenant_id@)) == old(self).handle_of(
                tenant_key_of(tenant_id@),
            ),
            forall|key: Seq<char>|
                key != tenant_key_of(tenant_id@) ==> #[trigger] final(self).handle_of(key) == old(
                    self,
                ).handle_of(key),
    {
        let key = tenant_key(tenant_id);
        if self.position(&key).is_some() {
            return false;
        }
        let ghost before = *self;
        self.entries.push((key, graph));
        proof {
            assert(self.keys() =~= before.keys().push(tenant_key_of(tenant_id@)));
            assert(self.handles() =~= before.handles().push(graph));
            assert forall|i: int, j: int|
                0 <= i < self.keys().len() && 0 <= j < self.keys().len() && i != j implies #[trigger] self.keys()[i]
                != #[trigger] self.keys()[j] by {
                if i < before.keys().len() && j < before.keys().len() {
                    assert(before.keys()[i] == self.keys()[i] && before.keys()[j] == self.keys()[j]);
                } else if i < before.keys().len() {
                    assert(before.keys()[i] == self.keys()[i]);
                    assert(before.keys().contains(before.keys()[i]));
                } else {
                    assert(before.keys()[j] == self.keys()[j]);
                    assert(before.keys().contains(before.keys()[j]));
                }
            }
            self.lemma_found(before.keys().len() as int);
            assert forall|k: Seq<char>| k != tenant_key_of(tenant_id@) implies #[trigger] self.handle_of(k)
                == before.handle_of(k) by {
                if before.keys().contains(k) {
                    let j = before.keys().index_of(k);
                    before.lemma_found(j);
                    assert(self.keys()[j] == k);
                    self.lemma_found(j);
                }
                if self.keys().contains(k) {
                    let j = self.keys().index_of(k);
                    assert(j < before.keys().len());
                    assert(before.keys()[j] == k);
                }
            }
        }
        true
    }

    /// Drops the tenant's handle. Tells whether there was one; removing an
    /// absent tenant changes nothing.
    pub fn remove(&mut self, tenant_id: &str) -> (removed: bool)
        requires
            old(self).wf(),
        ensures
            final(self).wf(),
            removed == (old(self).handle_of(tenant_key_of(tenant_id@)) is Some),
            final(self).is_removal_of(*old(self), tenant_key_of(tenant_id@)),
    {
        let key = tenant_key(tenant_id);
        match self.position(&key) {
            None => false,
            Some(i) => {
                let ghost before = *self;
                let _ = self.entries.remove(i);
                proof {
                    assert(self.keys() =~= before.keys().remove(i as int));
                    assert(self.handles() =~= before.handles().remove(i as int));
                    assert forall|a: int, b: int|
                        0 <= a < self.keys().len() && 0 <= b < self.keys().len() && a != b implies #[trigger] self.keys()[a]
                        != #[trigger] self.keys()[b] by {
                        let a2 = if a < i { a } else { a + 1 };
                        let b2 = if b < i { b } else { b + 1 };
                        assert(self.keys()[a] == before.keys()[a2]);
                        assert(self.keys()[b] == before.keys()[b2]);
                    }
                    assert(before.keys().contains(key@));
                    assert forall|k: Seq<char>| k != tenant_key_of(tenant_id@) implies #[trigger] self.handle_of(k)
                        == before.handle_of(k) by {
                        if before.keys().contains(k) {
                            let j = before.keys().index_of(k);
                            before.lemma_found(j);
                            assert(j != i);
                            let j2 = if j < i { j } else { j - 1 };
                            assert(self.keys()[j2] == k);
                            self.lemma_found(j2);
                        }
                        if self.keys().contains(k) {
                            let j = self.keys().index_of(k);
                            let j2 = if j < i { j } else { j + 1 };
                            assert(before.keys()[j2] == k);
                        }
                    }
                    if self.keys().contains(key@) {
                        let j = self.keys().index_of(key@);
                        let j2 = if j < i { j } else { j + 1 };
                        assert(before.keys()[j2] == key@);
                    }
                }
                true
            },
        }
    }
}

/// Idempotent delete: removing a tenant a second time finds nothing to
/// remove and leaves every tenant's handle as the first removal left it.
pub proof fn lemma_delete_twice<G>(
    first: TenantRegistry<G>,
    second: TenantRegistry<G>,
    third: TenantRegistry<G>,
    key: Seq<char>,
)
    requires
        second.is_removal_of(first, key),
        third.is_removal_of(second, key),
    ensures
        second.handle_of(key) is None,
        forall|k: Seq<char>| #[trigger] third.handle_of(k) == second.handle_of(k),
{
}

} // verus!
