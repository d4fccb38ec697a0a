//! The snapshot of a tenant graph and its binary encoding.
use vstd::prelude::*;

verus! {

/// The values of (identifier, name) pairs.
pub open spec fn node_pairs_view(s: Seq<(u32, String)>) -> Seq<(u32, Seq<char>)> {
    s.map_values(|e: (u32, String)| (e.0, e.1@))
}

/// The values of (predicate identifier, name) pairs.
pub open spec fn predicate_pairs_view(s: Seq<(u16, String)>) -> Seq<(u16, Seq<char>)> {
    s.map_values(|e: (u16, String)| (e.0, e.1@))
}

/// The bytes that encode a snapshot's three lists.
pub uninterp spec fn snapshot_encoding(
    nodes: Seq<(u32, Seq<char>)>,
    edges: Seq<(u32, u32, u16)>,
    predicates: Seq<(u16, Seq<char>)>,
) -> Seq<u8>;

/// The three lists that `bytes` decode to, if they decode.
pub uninterp spec fn snapshot_decoding(bytes: Seq<u8>) -> Option<
    (Seq<(u32, Seq<char>)>, Seq<(u32, u32, u16)>, Seq<(u16, Seq<char>)>),
>;

#[verifier::external_type_specification]
#[verifier::external_body]
pub struct ExBincodeErrorKind(bincode::ErrorKind);

/// Relies on `bincode::serialize` (default options: fixed-width little-endian
/// integers, length-prefixed sequences): the bytes depend on the values alone.
/// A tuple of the three lists encodes as a struct with those three fields.
/// It cannot fail: the options set no size limit and every `Vec` reports
/// its length. `bincode::deserialize` at the same types reads the values back.
#[verifier::external_body]
fn encode_lists(
    nodes: &Vec<(u32, String)>,
    edges: &Vec<(u32, u32, u16)>,
    predicates: &Vec<(u16, String)>,
) -> (r: Result<Vec<u8>, Box<bincode::ErrorKind>>)
    ensures
        r is Ok,
        r matches Ok(b) ==> b@ == snapshot_encoding(
            node_pairs_view(nodes@),
            edges@,
            predicate_pairs_view(predicates@),
        ),
        r matches Ok(b) ==> snapshot_decoding(b@) == Some(
            (node_pairs_view(nodes@), edges@, predicate_pairs_view(predicates@)),
        ),
{
    bincode::serialize(&(nodes, edges, predicates))
}

/// Relies on `bincode::deserialize` (default options): whether the bytes
/// decode, and to what, depends on the bytes alone.
#[verifier::external_body]
fn decode_lists(bytes: &[u8]) -> (r: Result<
    (Vec<(u32, String)>, Vec<(u32, u32, u16)>, Vec<(u16, String)>),
    Box<bincode::ErrorKind>,
>)
    ensures
        match r {
            Ok(t) => snapshot_decoding(bytes@) == Some(
                (node_pairs_view(t.0@), t.1@, predicate_pairs_view(t.2@)),
            ),
            Err(_) => snapshot_decoding(bytes@) is None,
        },
{
    bincode::deserialize(bytes)
}

/// Bytes could not be turned into a snapshot.
#[derive(Debug, Clone, Copy, PartialEq, Eq, Structural)]
pub enum SnapshotError {
    Decode,
}

/// The complete state of a tenant graph: its node dictionary, its edges and
/// its predicate dictionary.
pub struct GraphSnapshot {
    /// (identifier, name) of each node.
    pub nodes: Vec<(u32, String)>,
    /// (from, to, predicate identifier) of each edge.
    pub edges: Vec<(u32, u32, u16)>,
    /// (identifier, name) of each predicate.
    pub predicates: Vec<(u16, String)>,
}

impl GraphSnapshot {
    pub open spec fn node_pairs(&self) -> Seq<(u32, Seq<char>)> {
        node_pairs_view(self.nodes@)
    }

    pub open spec fn predicate_pairs(&self) -> Seq<(u16, Seq<char>)> {
        predicate_pairs_view(self.predicates@)
    }

    /// A snapshot with no node, edge or predicate.
    pub fn empty() -> (s: Self)
        ensures
            s.nodes@.len() == 0,
            s.edges@.len() == 0,
            s.predicates@.len() == 0,
    {
        GraphSnapshot { nodes: Vec::new(), edges: Vec::new(), predicates: Vec::new() }
    }

    /// The binary encoding of the snapshot.
    pub fn to_bytes(&self) -> (r: Vec<u8>)
        ensures
            r@ == snapshot_encoding(self.node_pairs(), self.edges@, self.predicate_pairs()),
            snapshot_decoding(r@) == Some((self.node_pairs(), self.edges@, self.predicate_pairs())),
    {
        match encode_lists(&self.nodes, &self.edges, &self.predicates) {
            Ok(b) => b,
            Err(_) => {
                proof {
                    assert(false);
                }
                Vec::new()
            },
        }
    }

    /// The snapshot that `bytes` encode; `Decode` exactly when they are malformed.
    pub fn from_bytes(bytes: &[u8]) -> (r: Result<GraphSnapshot, SnapshotError>)
        ensures
            match r {
                Ok(s) => snapshot_decoding(bytes@) == Some(
                    (s.node_pairs(), s.edges@, s.predicate_pairs()),
                ),
                Err(e) => e == SnapshotError::Decode && snapshot_decoding(bytes@) is None,
            },
    {
        match decode_lists(bytes) {
            Ok((nodes, edges, predicates)) => Ok(GraphSnapshot { nodes, edges, predicates }),
            Err(_) => Err(SnapshotError::Decode),
        }
    }
}

} // verus!
