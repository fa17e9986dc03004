use vstd::prelude::*;

use crate::errors::TldirError;
use crate::similarity::{
    admissible_vector, cosine_similarity, dot_i, is_admissible, lemma_self_similarity, score_of,
    MIN_SCORE, SCALE,
};

verus! {

/// One logical scan target: a named collection of embeddings.
pub struct Collection {
    pub id: String,
    pub name: String,
    pub topic: String,
}

/// One stored embedding row. `vector` is the serialized form of the
/// fixed-point coordinate vector; `created_at` is seconds since the Unix
/// epoch.
pub struct Embedding {
    pub id: i64,
    pub segment_id: String,
    pub embedding_id: String,
    pub vector: Vec<u8>,
    pub created_at: i64,
}

/// One typed metadata entry attached to an embedding row: exactly one of
/// the three value fields is set. A float value is carried by its raw bit
/// pattern.
pub struct EmbeddingMetadata {
    pub id: i64,
    pub key: String,
    pub string_value: Option<String>,
    pub int_value: Option<i64>,
    pub float_bits: Option<u64>,
}

/// One typed metadata entry scoped to a collection, of the same shape as
/// `EmbeddingMetadata` and keyed by `(collection_id, key)`. Reserved by the
/// schema; no operation of this design writes it.
pub struct CollectionMetadata {
    pub collection_id: String,
    pub key: String,
    pub string_value: Option<String>,
    pub int_value: Option<i64>,
    pub float_bits: Option<u64>,
}

/// One entry of the reserved lexical index: populated opportunistically
/// from string metadata, read by no query path.
pub struct FulltextEntry {
    pub id: i64,
    pub string_value: String,
}

/// The embedded store: collections, embeddings, typed metadata, and the
/// write-only lexical index.
pub struct EmbeddingStore {
    pub collections: Vec<Collection>,
    pub collection_metadata: Vec<CollectionMetadata>,
    pub embeddings: Vec<Embedding>,
    pub embedding_metadata: Vec<EmbeddingMetadata>,
    pub fulltext: Vec<FulltextEntry>,
}

/// What bincode's serialization of a fixed-point coordinate vector returns:
/// a pure function of the coordinates.
pub uninterp spec fn vec_blob(v: Seq<i64>) -> Seq<u8>;

/// What bincode's deserialization of a byte blob as a coordinate vector
/// returns: a pure function of the bytes, `None` on malformed input.
pub uninterp spec fn blob_vec(b: Seq<u8>) -> Option<Seq<i64>>;

/// Relies on `bincode::serialize`: a deterministic encoding of the
/// coordinates, named `vec_blob`; deserializing the produced bytes yields
/// the original vector back (bincode's documented round trip). Serializing
/// a plain vector of integers into an in-memory buffer cannot fail (fixint
/// encoding, no size limit), so no error case is left open.
#[verifier::external_body]
fn encode_vector(v: &Vec<i64>) -> (r: Vec<u8>)
    ensures
        r@ == vec_blob(v@),
        blob_vec(r@) == Some(v@),
{
    bincode::serialize(v).unwrap_or_default()
}

/// Relies on `bincode::deserialize`: what it returns on these bytes, named
/// `blob_vec`.
#[verifier::external_body]
fn decode_vector(b: &Vec<u8>) -> (r: Option<Vec<i64>>)
    ensures
        r matches Some(v) ==> blob_vec(b@) == Some(v@),
        r is None ==> blob_vec(b@) is None,
{
    bincode::deserialize(b.as_slice()).ok()
}

/// Relies on `uuid::Uuid::new_v4` and its hyphenated rendering: a fresh
/// random (version 4) identifier of 36 characters. Nothing more is assumed:
/// the value is random.
#[verifier::external_body]
fn fresh_uuid() -> (r: String)
    ensures
        r@.len() == 36,
{
    uuid::Uuid::new_v4().to_string()
}

/// Relies on `chrono::Utc::now`: the current time as seconds since the Unix
/// epoch. Nothing is assumed of the value: it depends on the clock.
#[verifier::external_body]
fn now_timestamp() -> i64 {
    chrono::Utc::now().timestamp()
}

/// Relies on `str`'s `PartialEq`: two string slices are equal exactly when
/// their character sequences are.
#[verifier::external_body]
fn str_eq(a: &str, b: &str) -> (r: bool)
    ensures
        r == (a@ == b@),
{
    a == b
}

/// The similarity score of stored row `e` against query `q`: the fixed-point
/// cosine where the row decodes to an admissible vector of the query's
/// dimension, and the floor score otherwise (an unscorable row ranks as
/// least similar, it is never dropped and no undefined value is propagated).
pub open spec fn row_score(q: Seq<i64>, e: Embedding) -> int {
    match blob_vec(e.vector@) {
        Some(v) => if v.len() == q.len() && admissible_vector(v) {
            score_of(q, v)
        } else {
            MIN_SCORE as int
        },
        None => MIN_SCORE as int,
    }
}

/// The two rows agree on every field (contents, not allocation).
pub open spec fn same_embedding(a: Embedding, b: Embedding) -> bool {
    &&& a.id == b.id
    &&& a.segment_id@ == b.segment_id@
    &&& a.embedding_id@ == b.embedding_id@
    &&& a.vector@ == b.vector@
    &&& a.created_at == b.created_at
}

/// Exactly one of the three typed value fields is set.
pub open spec fn meta_one_value(m: EmbeddingMetadata) -> bool {
    match (m.string_value, m.int_value, m.float_bits) {
        (Some(_), None, None) => true,
        (None, Some(_), None) => true,
        (None, None, Some(_)) => true,
        _ => false,
    }
}

/// The string-metadata row stored for `kv` under embedding row `id`.
pub open spec fn meta_row(id: i64, kv: (String, String)) -> EmbeddingMetadata {
    EmbeddingMetadata {
        id,
        key: kv.0,
        string_value: Some(kv.1),
        int_value: None,
        float_bits: None,
    }
}

/// The entries of `list` whose key does not occur earlier in `list`
/// (first occurrence wins; later re-uses of a key are rejected).
pub open spec fn fresh_keys(list: Seq<(String, String)>) -> Seq<(String, String)>
    decreases list.len(),
{
    if list.len() == 0 {
        Seq::empty()
    } else {
        let front = fresh_keys(list.drop_last());
        if exists|j: int| 0 <= j < list.len() - 1 && (#[trigger] list[j]).0@ == list.last().0@ {
            front
        } else {
            front.push(list.last())
        }
    }
}

/// The keys of `list` that do occur earlier in `list`: the metadata keys
/// whose insertion fails.
pub open spec fn dup_keys(list: Seq<(String, String)>) -> Seq<String>
    decreases list.len(),
{
    if list.len() == 0 {
        Seq::empty()
    } else {
        let front = dup_keys(list.drop_last());
        if exists|j: int| 0 <= j < list.len() - 1 && (#[trigger] list[j]).0@ == list.last().0@ {
            front.push(list.last().0)
        } else {
            front
        }
    }
}

impl EmbeddingStore {
    /// The store's invariant: the row count stays below 2^31 so ids fit,
    /// row ids are 1-based and consecutive,
    /// `(segment_id, embedding_id)` pairs are unique, collection names are
    /// unique, collection ids are unique, metadata is keyed uniquely per
    /// row, carries exactly one typed value, and refers to existing rows.
    pub open spec fn wf(&self) -> bool {
        &&& self.embeddings@.len() < 0x8000_0000
        &&& (forall|i: int|
            0 <= i < self.embeddings@.len() ==> (#[trigger] self.embeddings@[i]).id == i + 1)
        &&& (forall|i: int, j: int|
            0 <= i < j < self.embeddings@.len() ==> !((#[trigger] self.embeddings@[i]).segment_id@
                == (#[trigger] self.embeddings@[j]).segment_id@
                && self.embeddings@[i].embedding_id@ == self.embeddings@[j].embedding_id@))
        &&& (forall|i: int, j: int|
            0 <= i < j < self.collections@.len() ==> (#[trigger] self.collections@[i]).name@ != (
            #[trigger] self.collections@[j]).name@)
        &&& (forall|i: int, j: int|
            0 <= i < j < self.collections@.len() ==> (#[trigger] self.collections@[i]).id@ != (
            #[trigger] self.collections@[j]).id@)
        &&& (forall|i: int, j: int|
            0 <= i < j < self.embedding_metadata@.len() ==> !((
            #[trigger] self.embedding_metadata@[i]).id == (
            #[trigger] self.embedding_metadata@[j]).id && self.embedding_metadata@[i].key@
                == self.embedding_metadata@[j].key@))
        &&& (forall|i: int|
            0 <= i < self.embedding_metadata@.len() ==> 1 <= (
            #[trigger] self.embedding_metadata@[i]).id <= self.embeddings@.len())
        &&& (forall|i: int|
            0 <= i < self.embedding_metadata@.len() ==> meta_one_value(
                #[trigger] self.embedding_metadata@[i],
            ))
        &&& (forall|i: int, j: int|
            0 <= i < j < self.collection_metadata@.len() ==> !((
            #[trigger] self.collection_metadata@[i]).collection_id@ == (
            #[trigger] self.collection_metadata@[j]).collection_id@
                && self.collection_metadata@[i].key@ == self.collection_metadata@[j].key@))
    }

    /// Some collection already carries this name.
    pub open spec fn has_collection_name(&self, name: Seq<char>) -> bool {
        exists|i: int|
            0 <= i < self.collections@.len() && (#[trigger] self.collections@[i]).name@ == name
    }

    /// Some collection already carries this id.
    pub open spec fn has_collection_id(&self, id: Seq<char>) -> bool {
        exists|i: int|
            0 <= i < self.collections@.len() && (#[trigger] self.collections@[i]).id@ == id
    }

    /// Some row already carries this segment id.
    pub open spec fn has_segment(&self, segment_id: Seq<char>) -> bool {
        exists|i: int|
            0 <= i < self.embeddings@.len() && (#[trigger] self.embeddings@[i]).segment_id@
                == segment_id
    }

    /// Some row already carries this `(segment_id, embedding_id)` pair.
    pub open spec fn has_pair(&self, segment_id: Seq<char>, embedding_id: Seq<char>) -> bool {
        exists|i: int|
            0 <= i < self.embeddings@.len() && (#[trigger] self.embeddings@[i]).segment_id@
                == segment_id && self.embeddings@[i].embedding_id@ == embedding_id
    }

    /// An empty store.
    pub fn new() -> (r: Self)
        ensures
            r.wf(),
            r.collections@.len() == 0,
            r.collection_metadata@.len() == 0,
            r.embeddings@.len() == 0,
            r.embedding_metadata@.len() == 0,
            r.fulltext@.len() == 0,
    {
        EmbeddingStore {
            collections: Vec::new(),
            collection_metadata: Vec::new(),
            embeddings: Vec::new(),
            embedding_metadata: Vec::new(),
            fulltext: Vec::new(),
        }
    }

    /// Inserts one collection row under caller-supplied identifiers: the
    /// deterministic core of collection creation. Fails with
    /// `DuplicateName`, changing nothing, exactly when the name is taken;
    /// with a fresh name, fails with `StoreUnavailable`, changing nothing,
    /// exactly when the id is taken; otherwise it succeeds and appends
    /// exactly one row.
    #[verifier::loop_isolation(false)]
    pub fn insert_collection(&mut self, id: &str, name: &str, topic: &str) -> (r: Result<
        (),
        TldirError,
    >)
        requires
            old(self).wf(),
        ensures
            final(self).wf(),
            final(self).collection_metadata@ == old(self).collection_metadata@,
            final(self).embeddings@ == old(self).embeddings@,
            final(self).embedding_metadata@ == old(self).embedding_metadata@,
            final(self).fulltext@ == old(self).fulltext@,
            old(self).has_collection_name(name@) <==> (r matches Err(e) && e is DuplicateName),
            (!old(self).has_collection_name(name@) && old(self).has_collection_id(id@)) <==> (
            r matches Err(e) && e is StoreUnavailable),
            (!old(self).has_collection_name(name@) && !old(self).has_collection_id(id@)) ==> r
                is Ok,
            r is Err ==> final(self).collections@ == old(self).collections@,
            r is Ok ==> ({
                let post = final(self).collections@;
                &&& post.len() == old(self).collections@.len() + 1
                &&& post.take(old(self).collections@.len() as int) == old(self).collections@
                &&& post.last().id@ == id@
                &&& post.last().name@ == name@
                &&& post.last().topic@ == topic@
            }),
    {
        let mut i: usize = 0;
        while i < self.collections.len()
            invariant
                *self == *old(self),
                0 <= i <= self.collections@.len(),
                forall|k: int| 0 <= k < i ==> (#[trigger] self.collections@[k]).name@ != name@,
            decreases self.collections@.len() - i,
        {
            if str_eq(self.collections[i].name.as_str(), name) {
                return Err(TldirError::DuplicateName);
            }
            i = i + 1;
        }
        let mut j: usize = 0;
        while j < self.collections.len()
            invariant
                *self == *old(self),
                0 <= j <= self.collections@.len(),
                forall|k: int|
                    0 <= k < self.collections@.len() ==> (#[trigger] self.collections@[k]).name@
                        != name@,
                forall|k: int| 0 <= k < j ==> (#[trigger] self.collections@[k]).id@ != id@,
            decreases self.collections@.len() - j,
        {
            if str_eq(self.collections[j].id.as_str(), id) {
                return Err(TldirError::StoreUnavailable);
            }
            j = j + 1;
        }
        let row = Collection { id: id.to_owned(), name: name.to_owned(), topic: topic.to_owned() };
        self.collections.push(row);
        proof {
            let pre = old(self).collections@;
            let post = self.collections@;
            assert(post.take(pre.len() as int) =~= pre);
            assert forall|a: int, b: int| 0 <= a < b < post.len() implies (#[trigger] post[a]).name@
                != (#[trigger] post[b]).name@ && post[a].id@ != post[b].id@ by {
                if b < pre.len() {
                } else {
                    assert(post[b].name@ == name@);
                    assert(post[b].id@ == id@);
                    assert(post[a] == pre[a]);
                }
            }
        }
        Ok(())
    }

    /// Creates a collection under a fresh system-generated id. Fails with
    /// `DuplicateName`, changing nothing, exactly when the name is taken.
    /// Should the generated id collide with a stored collection id
    /// (practically never), the call fails with `StoreUnavailable` rather
    /// than storing a duplicate id.
    pub fn create_collection(&mut self, name: &str, topic: &str) -> (r: Result<String, TldirError>)
        requires
            old(self).wf(),
        ensures
            final(self).wf(),
            final(self).collection_metadata@ == old(self).collection_metadata@,
            final(self).embeddings@ == old(self).embeddings@,
            final(self).embedding_metadata@ == old(self).embedding_metadata@,
            final(self).fulltext@ == old(self).fulltext@,
            old(self).has_collection_name(name@) <==> (r matches Err(e) && e is DuplicateName),
            r matches Err(e) ==> ((e is DuplicateName || e is StoreUnavailable)
                && final(self).collections@ == old(self).collections@),
            r matches Ok(id) ==> ({
                let post = final(self).collections@;
                &&& id@.len() == 36
                &&& !old(self).has_collection_id(id@)
                &&& post.len() == old(self).collections@.len() + 1
                &&& post.take(old(self).collections@.len() as int) == old(self).collections@
                &&& post.last().id@ == id@
                &&& post.last().name@ == name@
                &&& post.last().topic@ == topic@
            }),
    {
        let id = fresh_uuid();
        match self.insert_collection(id.as_str(), name, topic) {
            Ok(()) => Ok(id),
            Err(e) => Err(e),
        }
    }

    /// The collection stored under `name`, if any: `Some` exactly when a
    /// collection with that name exists.
    pub fn get_collection(&self, name: &str) -> (r: Option<Collection>)
        ensures
            r is Some <==> self.has_collection_name(name@),
            r matches Some(c) ==> exists|i: int|
                0 <= i < self.collections@.len() && (#[trigger] self.collections@[i]).name@ == name@
                    && c.id@ == self.collections@[i].id@ && c.topic@ == self.collections@[i].topic@
                    && c.name@ == name@,
    {
        let mut i: usize = 0;
        while i < self.collections.len()
            invariant
                0 <= i <= self.collections@.len(),
                forall|k: int| 0 <= k < i ==> (#[trigger] self.collections@[k]).name@ != name@,
            decreases self.collections@.len() - i,
        {
            if str_eq(self.collections[i].name.as_str(), name) {
                let c = &self.collections[i];
                return Some(
                    Collection { id: c.id.clone(), name: c.name.clone(), topic: c.topic.clone() },
                );
            }
            i = i + 1;
        }
        None
    }

    /// The string metadata value stored under `(id, key)`, if any: `Some`
    /// exactly when a metadata row with that id and key holds a string
    /// value.
    #[verifier::loop_isolation(false)]
    pub fn get_metadata_string(&self, id: i64, key: &str) -> (r: Option<String>)
        requires
            self.wf(),
        ensures
            (r is Some) <==> (exists|i: int|
                0 <= i < self.embedding_metadata@.len() && (
                #[trigger] self.embedding_metadata@[i]).id == id
                    && self.embedding_metadata@[i].key@ == key@
                    && self.embedding_metadata@[i].string_value is Some),
            r matches Some(v) ==> (exists|i: int|
                0 <= i < self.embedding_metadata@.len() && (
                #[trigger] self.embedding_metadata@[i]).id == id
                    && self.embedding_metadata@[i].key@ == key@
                    && self.embedding_metadata@[i].string_value == Some(v)),
    {
        let mut i: usize = 0;
        while i < self.embedding_metadata.len()
            invariant
                0 <= i <= self.embedding_metadata@.len(),
                forall|k: int|
                    0 <= k < i ==> !((#[trigger] self.embedding_metadata@[k]).id == id
                        && self.embedding_metadata@[k].key@ == key@),
            decreases self.embedding_metadata@.len() - i,
        {
            let m = &self.embedding_metadata[i];
            if m.id == id && str_eq(m.key.as_str(), key) {
                proof {
                    assert forall|k: int|
                        0 <= k < self.embedding_metadata@.len() && k != i implies !((
                    #[trigger] self.embedding_metadata@[k]).id == id
                        && self.embedding_metadata@[k].key@ == key@) by {
                        if k > i {
                            assert(!(self.embedding_metadata@[i as int].id
                                == self.embedding_metadata@[k].id
                                && self.embedding_metadata@[i as int].key@
                                == self.embedding_metadata@[k].key@));
                        }
                    }
                }
                return match &m.string_value {
                    Some(v) => Some(v.clone()),
                    None => None,
                };
            }
            i = i + 1;
        }
        None
    }

    /// Inserts one embedding row under the given pair of identifiers.
    /// Fails with `DuplicateSegment`, changing nothing, exactly when the
    /// `(segment_id, embedding_id)` pair is already stored; with distinct
    /// identifiers it never collides. A fresh pair is owed success unless
    /// the store is at capacity (`StoreUnavailable`, changing nothing); on
    /// success the row is appended with the next consecutive id and the
    /// serialized vector.
    #[verifier::loop_isolation(false)]
    pub fn insert_embedding(
        &mut self,
        segment_id: &str,
        embedding_id: &str,
        vector: &Vec<i64>,
    ) -> (r: Result<i64, TldirError>)
        requires
            old(self).wf(),
            admissible_vector(vector@),
        ensures
            final(self).wf(),
            final(self).collections@ == old(self).collections@,
            final(self).collection_metadata@ == old(self).collection_metadata@,
            final(self).embedding_metadata@ == old(self).embedding_metadata@,
            final(self).fulltext@ == old(self).fulltext@,
            old(self).has_pair(segment_id@, embedding_id@) <==> (r matches Err(e)
                && e is DuplicateSegment),
            (!old(self).has_pair(segment_id@, embedding_id@) && old(self).embeddings@.len()
                < 0x7fff_ffff) ==> r is Ok,
            (r matches Err(e) && e is StoreUnavailable) ==> old(self).embeddings@.len()
                >= 0x7fff_ffff,
            r matches Err(e) ==> ((e is DuplicateSegment || e is StoreUnavailable)
                && final(self).embeddings@ == old(self).embeddings@),
            r matches Ok(id) ==> ({
                &&& !old(self).has_pair(segment_id@, embedding_id@)
                &&& id == old(self).embeddings@.len() + 1
                &&& final(self).embeddings@.len() == old(self).embeddings@.len() + 1
                &&& final(self).embeddings@.take(old(self).embeddings@.len() as int) == old(
                    self,
                ).embeddings@
                &&& final(self).embeddings@.last().id == id
                &&& final(self).embeddings@.last().segment_id@ == segment_id@
                &&& final(self).embeddings@.last().embedding_id@ == embedding_id@
                &&& final(self).embeddings@.last().vector@ == vec_blob(vector@)
                &&& blob_vec(final(self).embeddings@.last().vector@) == Some(vector@)
            }),
    {
        let mut i: usize = 0;
        while i < self.embeddings.len()
            invariant
                *self == *old(self),
                0 <= i <= self.embeddings@.len(),
                forall|k: int|
                    0 <= k < i ==> !((#[trigger] self.embeddings@[k]).segment_id@ == segment_id@
                        && self.embeddings@[k].embedding_id@ == embedding_id@),
            decreases self.embeddings@.len() - i,
        {
            if str_eq(self.embeddings[i].segment_id.as_str(), segment_id) && str_eq(
                self.embeddings[i].embedding_id.as_str(),
                embedding_id,
            ) {
                return Err(TldirError::DuplicateSegment);
            }
            i = i + 1;
        }
        if self.embeddings.len() >= 0x7fff_ffff {
            return Err(TldirError::StoreUnavailable);
        }
        let blob = encode_vector(vector);
        let id = self.embeddings.len() as i64 + 1;
        let row = Embedding {
            id,
            segment_id: segment_id.to_owned(),
            embedding_id: embedding_id.to_owned(),
            vector: blob,
            created_at: now_timestamp(),
        };
        self.embeddings.push(row);
        proof {
            let pre = old(self).embeddings@;
            let post = self.embeddings@;
            assert(post.take(pre.len() as int) =~= pre);
            assert forall|a: int, b: int| 0 <= a < b < post.len() implies !((
            #[trigger] post[a]).segment_id@ == (#[trigger] post[b]).segment_id@
                && post[a].embedding_id@ == post[b].embedding_id@) by {
                if b < pre.len() {
                } else {
                    assert(post[b].segment_id@ == segment_id@);
                    assert(post[b].embedding_id@ == embedding_id@);
                    assert(post[a] == pre[a]);
                }
            }
            assert forall|a: int| 0 <= a < post.len() implies (#[trigger] post[a]).id == a + 1 by {
                if a < pre.len() {
                    assert(post[a] == pre[a]);
                }
            }
        }
        Ok(id)
    }
}


/// With no repeated keys nothing is rejected: the fresh entries of a list
/// whose keys fail nowhere are the whole list, so every `(key, value)` pair
/// handed in is stored.
pub proof fn lemma_fresh_keys_complete(list: Seq<(String, String)>)
    requires
        dup_keys(list).len() == 0,
    ensures
        fresh_keys(list) == list,
    decreases list.len(),
{
    if list.len() == 0 {
        assert(fresh_keys(list) =~= list);
    } else {
        assert(!(exists|j: int|
            0 <= j < list.len() - 1 && (#[trigger] list[j]).0@ == list.last().0@));
        lemma_fresh_keys_complete(list.drop_last());
        assert(fresh_keys(list) =~= list);
    }
}

/// `x` ranks ahead of `y`: a strictly greater score, or an equal score and
/// an earlier storage position (stable tie-break by storage order).
pub open spec fn prefers(x: (usize, i64), y: (usize, i64)) -> bool {
    x.1 > y.1 || (x.1 == y.1 && x.0 < y.0)
}

/// `perm` enumerates distinct row positions of `rows` in ranking order:
/// non-increasing score, ties broken by storage order.
pub open spec fn ranked_perm(perm: Seq<int>, q: Seq<i64>, rows: Seq<Embedding>) -> bool {
    &&& perm.len() == rows.len()
    &&& (forall|k: int| 0 <= k < perm.len() ==> 0 <= #[trigger] perm[k] < rows.len())
    &&& (forall|k1: int, k2: int|
        0 <= k1 < k2 < perm.len() ==> #[trigger] perm[k1] != #[trigger] perm[k2])
    &&& (forall|k1: int, k2: int|
        0 <= k1 < k2 < perm.len() ==> row_score(q, rows[#[trigger] perm[k1]]) > row_score(
            q,
            rows[#[trigger] perm[k2]],
        ) || (row_score(q, rows[perm[k1]]) == row_score(q, rows[perm[k2]]) && perm[k1] < perm[k2]))
}

/// Result entry `p` reports row `e` with its ranking score against `q`.
pub open spec fn entry_matches(p: (Embedding, i64), e: Embedding, q: Seq<i64>) -> bool {
    &&& same_embedding(p.0, e)
    &&& p.1 as int == row_score(q, e)
}

/// `out` is the ranked top of the store against query `q` under `limit`:
/// exactly `min(limit, count)` entries, scores non-increasing, and the
/// entries are the first elements of a full ranking of all stored rows.
pub open spec fn ranked_results(
    store: EmbeddingStore,
    q: Seq<i64>,
    limit: int,
    out: Seq<(Embedding, i64)>,
) -> bool {
    let n = store.embeddings@.len() as int;
    let m = if limit <= n {
        limit
    } else {
        n
    };
    &&& out.len() == m
    &&& (forall|i: int, j: int| 0 <= i < j < out.len() ==> (#[trigger] out[j]).1 <= (
    #[trigger] out[i]).1)
    &&& exists|perm: Seq<int>|
        ranked_perm(perm, q, store.embeddings@) && (forall|k: int|
            0 <= k < out.len() ==> entry_matches(#[trigger] out[k], store.embeddings@[perm[k]], q))
}

/// The ranking score of one stored row against the query.
fn score_row(query: &Vec<i64>, e: &Embedding) -> (r: i64)
    requires
        admissible_vector(query@),
    ensures
        r as int == row_score(query@, *e),
{
    match decode_vector(&e.vector) {
        None => MIN_SCORE,
        Some(v) => {
            if v.len() == query.len() && is_admissible(&v) {
                cosine_similarity(query, &v)
            } else {
                MIN_SCORE
            }
        },
    }
}

/// A field-for-field copy of a stored row.
fn dup_embedding(e: &Embedding) -> (r: Embedding)
    ensures
        same_embedding(r, *e),
{
    Embedding {
        id: e.id,
        segment_id: e.segment_id.clone(),
        embedding_id: e.embedding_id.clone(),
        vector: vstd::slice::slice_to_vec(e.vector.as_slice()),
        created_at: e.created_at,
    }
}

/// The embedding row and its serialized vector were appended to the store
/// under a fresh 36-character `embedding_id` and the next consecutive row
/// id.
pub open spec fn commits_row(
    pre: EmbeddingStore,
    post: EmbeddingStore,
    segment_id: Seq<char>,
    v: Seq<i64>,
) -> bool {
    &&& post.embeddings@.len() == pre.embeddings@.len() + 1
    &&& post.embeddings@.take(pre.embeddings@.len() as int) == pre.embeddings@
    &&& post.embeddings@.last().id == pre.embeddings@.len() + 1
    &&& post.embeddings@.last().segment_id@ == segment_id
    &&& post.embeddings@.last().vector@ == vec_blob(v)
    &&& blob_vec(post.embeddings@.last().vector@) == Some(v)
    &&& post.embeddings@.last().embedding_id@.len() == 36
    &&& !pre.has_pair(segment_id, post.embeddings@.last().embedding_id@)
}

/// The string metadata rows for the fresh keys of `list` were appended
/// under row `id`, together with their lexical-index entries.
pub open spec fn attaches_metadata(
    pre: EmbeddingStore,
    post: EmbeddingStore,
    id: i64,
    list: Seq<(String, String)>,
) -> bool {
    &&& post.embedding_metadata@ == pre.embedding_metadata@ + fresh_keys(list).map(
        |_i: int, kv: (String, String)| meta_row(id, kv),
    )
    &&& post.fulltext@ == pre.fulltext@ + fresh_keys(list).map(
        |_i: int, kv: (String, String)| (FulltextEntry { id, string_value: kv.1 }),
    )
}

impl EmbeddingStore {
    /// Stores one embedding under a fresh system-generated `embedding_id`,
    /// then attaches the given string metadata. Under a segment id that no
    /// stored row carries, a store below capacity owes the row's commit:
    /// metadata without repeated keys yields `Ok`, and a key repeating an
    /// earlier key of the same call is rejected with exactly
    /// `PartialMetadataFailure` naming the rejected keys, the embedding row
    /// and the fresh-keyed metadata staying committed (no rollback).
    #[verifier::loop_isolation(false)]
    pub fn store_embedding(
        &mut self,
        segment_id: &str,
        vector: &Vec<i64>,
        metadata: Option<Vec<(String, String)>>,
    ) -> (r: Result<i64, TldirError>)
        requires
            old(self).wf(),
            admissible_vector(vector@),
        ensures
            final(self).wf(),
            final(self).collections@ == old(self).collections@,
            final(self).collection_metadata@ == old(self).collection_metadata@,
            r matches Err(e) ==> (e is DuplicateSegment || e is StoreUnavailable
                || e is PartialMetadataFailure),
            (r matches Err(e) && (e is DuplicateSegment || e is StoreUnavailable)) ==> ({
                &&& final(self).embeddings@ == old(self).embeddings@
                &&& final(self).embedding_metadata@ == old(self).embedding_metadata@
                &&& final(self).fulltext@ == old(self).fulltext@
            }),
            (r matches Err(e) && e is StoreUnavailable) ==> old(self).embeddings@.len()
                >= 0x7fff_ffff,
            (!old(self).has_segment(segment_id@) && old(self).embeddings@.len() < 0x7fff_ffff && (
            metadata matches Some(list) ==> dup_keys(list@).len() == 0)) ==> r is Ok,
            (!old(self).has_segment(segment_id@) && old(self).embeddings@.len() < 0x7fff_ffff && (
            metadata matches Some(list) && dup_keys(list@).len() > 0)) ==> (r matches Err(e)
                && e is PartialMetadataFailure),
            r matches Ok(id) ==> ({
                &&& commits_row(*old(self), *final(self), segment_id@, vector@)
                &&& id == old(self).embeddings@.len() + 1
                &&& (metadata matches Some(list) ==> dup_keys(list@).len() == 0
                    && attaches_metadata(*old(self), *final(self), id, list@))
                &&& (metadata is None ==> final(self).embedding_metadata@ == old(
                    self,
                ).embedding_metadata@ && final(self).fulltext@ == old(self).fulltext@)
            }),
            r matches Err(e) ==> e matches TldirError::PartialMetadataFailure { failed_keys }
                ==> ({
                &&& commits_row(*old(self), *final(self), segment_id@, vector@)
                &&& metadata matches Some(list) && failed_keys@ == dup_keys(list@) && dup_keys(
                    list@,
                ).len() > 0 && attaches_metadata(
                    *old(self),
                    *final(self),
                    (old(self).embeddings@.len() + 1) as i64,
                    list@,
                )
            }),
    {
        let embedding_id = fresh_uuid();
        proof {
            if old(self).has_pair(segment_id@, embedding_id@) {
                let w = choose|i: int|
                    0 <= i < old(self).embeddings@.len() && (#[trigger] old(
                        self,
                    ).embeddings@[i]).segment_id@ == segment_id@ && old(
                        self,
                    ).embeddings@[i].embedding_id@ == embedding_id@;
                assert(old(self).has_segment(segment_id@));
            }
        }
        let id = match self.insert_embedding(segment_id, embedding_id.as_str(), vector) {
            Err(e) => {
                return Err(e);
            },
            Ok(id) => id,
        };
        match metadata {
            None => Ok(id),
            Some(list) => {
                let ghost mid = *self;
                proof {
                    assert(forall|p: int|
                        0 <= p < mid.embedding_metadata@.len()
                            ==> (#[trigger] mid.embedding_metadata@[p]).id < id);
                }
                let mut failed: Vec<String> = Vec::new();
                let mut j: usize = 0;
                while j < list.len()
                    invariant
                        0 <= j <= list@.len(),
                        id == mid.embeddings@.len(),
                        self.wf(),
                        mid.wf(),
                        self.collections@ == mid.collections@,
                        self.collection_metadata@ == mid.collection_metadata@,
                        self.embeddings@ == mid.embeddings@,
                        self.embedding_metadata@ == mid.embedding_metadata@ + fresh_keys(
                            list@.take(j as int),
                        ).map(|_i: int, kv: (String, String)| meta_row(id, kv)),
                        self.fulltext@ == mid.fulltext@ + fresh_keys(list@.take(j as int)).map(
                            |_i: int, kv: (String, String)| (FulltextEntry {
                                id,
                                string_value: kv.1,
                            }),
                        ),
                        failed@ == dup_keys(list@.take(j as int)),
                        forall|p: int|
                            0 <= p < mid.embedding_metadata@.len()
                                ==> (#[trigger] mid.embedding_metadata@[p]).id < id,
                        forall|p: int|
                            mid.embedding_metadata@.len() <= p < self.embedding_metadata@.len()
                                ==> (#[trigger] self.embedding_metadata@[p]).id == id && (exists|
                                t: int,
                            |
                                0 <= t < j && (#[trigger] list@[t]).0@
                                    == self.embedding_metadata@[p].key@),
                    decreases list@.len() - j,
                {
                    let ghost pre_meta = self.embedding_metadata@;
                    let ghost pre_full = self.fulltext@;
                    let mut dup = false;
                    let mut j2: usize = 0;
                    while j2 < j
                        invariant
                            0 <= j2 <= j < list@.len(),
                            dup == exists|t: int|
                                0 <= t < j2 && (#[trigger] list@[t]).0@ == list@[j as int].0@,
                        decreases j - j2,
                    {
                        if str_eq(list[j2].0.as_str(), list[j].0.as_str()) {
                            dup = true;
                        }
                        j2 = j2 + 1;
                    }
                    let ghost lj = list@.take(j + 1);
                    proof {
                        assert(lj.drop_last() =~= list@.take(j as int));
                        assert(lj.last() == list@[j as int]);
                        assert(forall|t: int| 0 <= t < j ==> #[trigger] lj[t] == list@[t]);
                        if dup {
                            let t = choose|t: int|
                                0 <= t < j && (#[trigger] list@[t]).0@ == list@[j as int].0@;
                            assert(lj[t].0@ == lj.last().0@);
                        } else {
                            if exists|t2: int|
                                0 <= t2 < lj.len() - 1 && (#[trigger] lj[t2]).0@ == lj.last().0@ {
                                let t2 = choose|t2: int|
                                    0 <= t2 < lj.len() - 1 && (#[trigger] lj[t2]).0@
                                        == lj.last().0@;
                                assert(list@[t2].0@ == list@[j as int].0@);
                                assert(false);
                            }
                        }
                        assert(dup == (exists|t: int|
                            0 <= t < lj.len() - 1 && (#[trigger] lj[t]).0@ == lj.last().0@));
                    }
                    if dup {
                        failed.push(list[j].0.clone());
                        proof {
                            assert(failed@ =~= dup_keys(lj));
                            assert(fresh_keys(lj) == fresh_keys(list@.take(j as int)));
                        }
                    } else {
                        let row = EmbeddingMetadata {
                            id,
                            key: list[j].0.clone(),
                            string_value: Some(list[j].1.clone()),
                            int_value: None,
                            float_bits: None,
                        };
                        self.embedding_metadata.push(row);
                        self.fulltext.push(
                            FulltextEntry { id, string_value: list[j].1.clone() },
                        );
                        proof {
                            let f = |_i: int, kv: (String, String)| meta_row(id, kv);
                            let g = |_i: int, kv: (String, String)|
                                (FulltextEntry { id, string_value: kv.1 });
                            assert(fresh_keys(lj) == fresh_keys(list@.take(j as int)).push(
                                list@[j as int],
                            ));
                            assert(fresh_keys(lj).map(f) =~= fresh_keys(list@.take(j as int)).map(
                                f,
                            ).push(meta_row(id, list@[j as int])));
                            assert(fresh_keys(lj).map(g) =~= fresh_keys(list@.take(j as int)).map(
                                g,
                            ).push((FulltextEntry { id, string_value: list@[j as int].1 })));
                            assert(self.embedding_metadata@ =~= mid.embedding_metadata@
                                + fresh_keys(lj).map(f));
                            assert(self.fulltext@ =~= mid.fulltext@ + fresh_keys(lj).map(g));
                            assert(dup_keys(lj) == dup_keys(list@.take(j as int)));
                            // the fresh key differs from every already-attached key
                            assert forall|p1: int, p2: int|
                                0 <= p1 < p2 < self.embedding_metadata@.len() implies !((
                            #[trigger] self.embedding_metadata@[p1]).id == (
                            #[trigger] self.embedding_metadata@[p2]).id
                                && self.embedding_metadata@[p1].key@
                                == self.embedding_metadata@[p2].key@) by {
                                if p2 < pre_meta.len() {
                                    assert(self.embedding_metadata@[p1] == pre_meta[p1]);
                                    assert(self.embedding_metadata@[p2] == pre_meta[p2]);
                                } else {
                                    assert(self.embedding_metadata@[p2] == meta_row(
                                        id,
                                        list@[j as int],
                                    ));
                                    assert(self.embedding_metadata@[p1] == pre_meta[p1]);
                                    if p1 >= mid.embedding_metadata@.len() {
                                        let t = choose|t: int|
                                            0 <= t < j && (#[trigger] list@[t]).0@
                                                == pre_meta[p1].key@;
                                        assert(!(list@[t].0@ == list@[j as int].0@));
                                    }
                                }
                            }
                        }
                    }
                    j = j + 1;
                }
                proof {
                    assert(list@.take(list@.len() as int) =~= list@);
                }
                if failed.len() == 0 {
                    Ok(id)
                } else {
                    Err(TldirError::PartialMetadataFailure { failed_keys: failed })
                }
            },
        }
    }

    /// Scores every stored embedding against the query vector and returns
    /// the `limit` best, ordered by non-increasing score with ties broken by
    /// storage order. A `limit` beyond the row count is clamped to the row
    /// count; a `limit` of zero yields an empty result, not an error.
    #[verifier::loop_isolation(false)]
    pub fn find_similar_embeddings(&self, query_vector: &Vec<i64>, limit: usize) -> (r: Result<
        Vec<(Embedding, i64)>,
        TldirError,
    >)
        requires
            admissible_vector(query_vector@),
        ensures
            r matches Ok(out) && ranked_results(*self, query_vector@, limit as int, out@),
    {
        let n = self.embeddings.len();
        let mut scored: Vec<(usize, i64)> = Vec::new();
        let mut i: usize = 0;
        while i < n
            invariant
                n == self.embeddings@.len(),
                0 <= i <= n,
                scored@.len() == i,
                forall|k: int|
                    0 <= k < i ==> (#[trigger] scored@[k]).0 == k && scored@[k].1 as int
                        == row_score(query_vector@, self.embeddings@[k]),
            decreases n - i,
        {
            let sc = score_row(query_vector, &self.embeddings[i]);
            scored.push((i, sc));
            i = i + 1;
        }
        let mut k: usize = 0;
        while k < n
            invariant
                n == self.embeddings@.len(),
                scored@.len() == n,
                0 <= k <= n,
                forall|p: int|
                    0 <= p < n ==> 0 <= (#[trigger] scored@[p]).0 < n && scored@[p].1 as int
                        == row_score(query_vector@, self.embeddings@[scored@[p].0 as int]),
                forall|p1: int, p2: int|
                    0 <= p1 < p2 < n ==> (#[trigger] scored@[p1]).0 != (#[trigger] scored@[p2]).0,
                forall|p1: int, p2: int|
                    0 <= p1 < p2 < n && p1 < k ==> prefers(
                        #[trigger] scored@[p1],
                        #[trigger] scored@[p2],
                    ),
            decreases n - k,
        {
            let mut best: usize = k;
            let mut t: usize = k + 1;
            while t < n
                invariant
                    k <= best < t <= n,
                    k < n,
                    forall|u: int|
                        k <= u < t && u != best ==> prefers(
                            scored@[best as int],
                            #[trigger] scored@[u],
                        ),
                decreases n - t,
            {
                let a = scored[t];
                let b = scored[best];
                if a.1 > b.1 || (a.1 == b.1 && a.0 < b.0) {
                    best = t;
                }
                t = t + 1;
            }
            let xk = scored[k];
            let xb = scored[best];
            scored.set(k, xb);
            scored.set(best, xk);
            k = k + 1;
        }
        let m = if limit < n {
            limit
        } else {
            n
        };
        let mut out: Vec<(Embedding, i64)> = Vec::new();
        let mut k2: usize = 0;
        while k2 < m
            invariant
                m <= n == self.embeddings@.len(),
                scored@.len() == n,
                0 <= k2 <= m,
                out@.len() == k2,
                forall|p: int|
                    0 <= p < n ==> 0 <= (#[trigger] scored@[p]).0 < n && scored@[p].1 as int
                        == row_score(query_vector@, self.embeddings@[scored@[p].0 as int]),
                forall|p1: int, p2: int|
                    0 <= p1 < p2 < n ==> (#[trigger] scored@[p1]).0 != (#[trigger] scored@[p2]).0,
                forall|p1: int, p2: int|
                    0 <= p1 < p2 < n ==> prefers(#[trigger] scored@[p1], #[trigger] scored@[p2]),
                forall|q: int|
                    0 <= q < k2 ==> entry_matches(
                        #[trigger] out@[q],
                        self.embeddings@[scored@[q].0 as int],
                        query_vector@,
                    ) && out@[q].1 == scored@[q].1,
            decreases m - k2,
        {
            let idx = scored[k2].0;
            let e = dup_embedding(&self.embeddings[idx]);
            out.push((e, scored[k2].1));
            k2 = k2 + 1;
        }
        proof {
            let rows = self.embeddings@;
            let q = query_vector@;
            let perm = Seq::new(rows.len(), |p: int| scored@[p].0 as int);
            assert forall|k1: int, k2a: int| 0 <= k1 < k2a < perm.len() implies row_score(
                q,
                rows[#[trigger] perm[k1]],
            ) > row_score(q, rows[#[trigger] perm[k2a]]) || (row_score(q, rows[perm[k1]])
                == row_score(q, rows[perm[k2a]]) && perm[k1] < perm[k2a]) by {
                assert(prefers(scored@[k1], scored@[k2a]));
            }
            assert(ranked_perm(perm, q, rows));
            assert forall|k3: int| 0 <= k3 < out@.len() implies entry_matches(
                #[trigger] out@[k3],
                rows[perm[k3]],
                q,
            ) by {
                assert(perm[k3] == scored@[k3].0 as int);
            }
            assert forall|i1: int, j1: int| 0 <= i1 < j1 < out@.len() implies (
            #[trigger] out@[j1]).1 <= (#[trigger] out@[i1]).1 by {
                assert(prefers(scored@[i1], scored@[j1]));
            }
        }
        Ok(out)
    }
}



/// Storing a vector and immediately retrieving it via similarity search
/// against itself: in a store whose one row holds that vector, the top
/// result is that row, and for a non-zero vector its score is exactly
/// `SCALE`, the fixed-point rendering of cosine 1.0.
pub proof fn lemma_self_retrieval(
    store: EmbeddingStore,
    q: Seq<i64>,
    out: Seq<(Embedding, i64)>,
    limit: int,
)
    requires
        store.embeddings@.len() == 1,
        blob_vec(store.embeddings@[0].vector@) == Some(q),
        admissible_vector(q),
        dot_i(q, q) != 0,
        limit >= 1,
        ranked_results(store, q, limit, out),
    ensures
        out.len() == 1,
        same_embedding(out[0].0, store.embeddings@[0]),
        out[0].1 as int == SCALE as int,
{
    lemma_self_similarity(q);
    let perm = choose|perm: Seq<int>|
        ranked_perm(perm, q, store.embeddings@) && (forall|k: int|
            0 <= k < out.len() ==> entry_matches(#[trigger] out[k], store.embeddings@[perm[k]], q));
    assert(0 <= perm[0] < 1);
    assert(entry_matches(out[0], store.embeddings@[0], q));
    assert(row_score(q, store.embeddings@[0]) == SCALE as int);
}

/// Storing under a segment id that no stored row carries can never collide,
/// whatever embedding id is generated.
pub proof fn lemma_distinct_segments_no_pair(
    store: EmbeddingStore,
    segment_id: Seq<char>,
    embedding_id: Seq<char>,
)
    requires
        forall|i: int|
            0 <= i < store.embeddings@.len() ==> (#[trigger] store.embeddings@[i]).segment_id@
                != segment_id,
    ensures
        !store.has_pair(segment_id, embedding_id),
{
}


} // verus!
