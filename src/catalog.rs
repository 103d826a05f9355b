use vstd::prelude::*;

use crate::document::{Document, DocumentView, IndexError};
use crate::ranking::{is_ranked, order_key, sort_candidates, Candidate};
use crate::store::RecordStore;

verus! {

broadcast use vstd::seq_lib::group_to_multiset_ensures;

/// The mathematical value of an [`IndexCatalog`]: the records in id order
/// (the next id is their number) and the dimension that every vector must
/// have, fixed when the index is created.
pub struct CatalogView {
    pub records: Seq<DocumentView>,
    pub dimension: nat,
}

/// A vector of `len` components may enter or query the index.
pub open spec fn accepts(c: CatalogView, len: nat) -> bool {
    len == c.dimension
}

/// Every record has the index's dimension.
pub open spec fn dimension_consistent(c: CatalogView) -> bool {
    forall|i: int| 0 <= i < c.records.len() ==> (#[trigger] c.records[i]).vector.len() == c.dimension
}

/// The catalog after one `add` of `d`: the document is recorded under the
/// next id, or, where its vector has another dimension, it is refused and
/// nothing changes.
pub open spec fn after_add(c: CatalogView, d: DocumentView) -> CatalogView {
    if accepts(c, d.vector.len()) {
        CatalogView { records: c.records.push(d), dimension: c.dimension }
    } else {
        c
    }
}

/// The catalog after adding each of `ds` in turn.
pub open spec fn replay(c: CatalogView, ds: Seq<DocumentView>) -> CatalogView
    decreases ds.len(),
{
    if ds.len() == 0 {
        c
    } else {
        after_add(replay(c, ds.drop_last()), ds.last())
    }
}

/// The ids that adding each of `ds` in turn hands out, in order.
pub open spec fn assigned_ids(c: CatalogView, ds: Seq<DocumentView>) -> Seq<nat>
    decreases ds.len(),
{
    if ds.len() == 0 {
        Seq::empty()
    } else {
        let prev = replay(c, ds.drop_last());
        let rest = assigned_ids(c, ds.drop_last());
        if accepts(prev, ds.last().vector.len()) {
            rest.push(prev.records.len())
        } else {
            rest
        }
    }
}

/// The values held by the `Some` entries of `s`, in order.
pub open spec fn present_ids(s: Seq<Option<usize>>) -> Seq<nat>
    decreases s.len(),
{
    if s.len() == 0 {
        Seq::empty()
    } else {
        let rest = present_ids(s.drop_last());
        match s.last() {
            Some(id) => rest.push(id as nat),
            None => rest,
        }
    }
}

/// The candidates resolved through the records, in order: each becomes its
/// record with its distance, and one whose id has no record is dropped.
pub open spec fn resolved(records: Seq<DocumentView>, cands: Seq<Candidate>) -> Seq<(DocumentView, u32)>
    decreases cands.len(),
{
    if cands.len() == 0 {
        Seq::empty()
    } else {
        let rest = resolved(records, cands.drop_last());
        let c = cands.last();
        if (c.0 as int) < records.len() {
            rest.push((records[c.0 as int], c.1))
        } else {
            rest
        }
    }
}

/// The values of a list of search results.
pub open spec fn results_view(r: Seq<(Document, u32)>) -> Seq<(DocumentView, u32)> {
    r.map_values(|p: (Document, u32)| (p.0@, p.1))
}

/// Distances in ascending order.
pub open spec fn distances_ascending(r: Seq<(DocumentView, u32)>) -> bool {
    forall|i: int, j: int| 0 <= i < j < r.len() ==> order_key(#[trigger] r[i].1) <= order_key(#[trigger] r[j].1)
}

/// The values of a list of documents.
pub open spec fn views(ds: Seq<Document>) -> Seq<DocumentView> {
    ds.map_values(|d: Document| d@)
}

/// The records and id assignment of a vector index. The proximity graph
/// that indexes the vectors shares its id space: the document added under
/// id `i` is the graph's point `i`.
pub struct IndexCatalog {
    store: RecordStore,
    next_id: usize,
    dimension: usize,
}

impl View for IndexCatalog {
    type V = CatalogView;

    closed spec fn view(&self) -> CatalogView {
        CatalogView {
            records: Seq::new(self.next_id as nat, |i: int| self.store@[i as usize]),
            dimension: self.dimension as nat,
        }
    }
}

impl IndexCatalog {
    /// The store is well formed and holds exactly the ids below the next
    /// one.
    pub closed spec fn ids_match(&self) -> bool {
        &&& self.store.well_formed()
        &&& forall|k: usize| #[trigger] self.store@.contains_key(k) <==> k < self.next_id
    }

    /// Every record has the index's dimension, and the ids in use are
    /// exactly those below the next one.
    pub open spec fn well_formed(&self) -> bool {
        dimension_consistent(self@) && self.ids_match()
    }

    /// An empty catalog for vectors of `dimension` components.
    pub fn new(dimension: usize) -> (r: IndexCatalog)
        ensures
            r@ == (CatalogView { records: Seq::empty(), dimension: dimension as nat }),
            r.well_formed(),
    {
        let r = IndexCatalog { store: RecordStore::new(), next_id: 0, dimension };
        assert(r@.records =~= Seq::<DocumentView>::empty());
        r
    }

    /// Number of documents added, which is also the next id.
    pub fn len(&self) -> (r: usize)
        ensures
            r == self@.records.len(),
    {
        self.next_id
    }

    /// The number of components of every vector of the index.
    pub fn dimension(&self) -> (r: usize)
        ensures
            r == self@.dimension,
    {
        self.dimension
    }

    /// Whether a query of `len` components may be answered: `Ok` exactly
    /// when it matches the dimension.
    pub fn check_query(&self, len: usize) -> (r: Result<(), IndexError>)
        ensures
            r.is_ok() == accepts(self@, len as nat),
            r.is_err() ==> r == Err::<(), IndexError>(IndexError::InvalidInput),
    {
        if len == self.dimension {
            Ok(())
        } else {
            Err(IndexError::InvalidInput)
        }
    }

    /// Records `doc` under the next id and returns that id; a document whose
    /// vector does not have the index's dimension is refused with
    /// `InvalidInput` and changes nothing.
    pub fn add(&mut self, doc: Document) -> (r: Result<usize, IndexError>)
        requires
            old(self).well_formed(),
            old(self)@.records.len() < usize::MAX,
        ensures
            final(self).well_formed(),
            final(self)@ == after_add(old(self)@, doc@),
            r == if accepts(old(self)@, doc@.vector.len()) {
                Ok::<usize, IndexError>(old(self)@.records.len() as usize)
            } else {
                Err::<usize, IndexError>(IndexError::InvalidInput)
            },
    {
        let len = doc.vector.len();
        if self.check_query(len).is_err() {
            return Err(IndexError::InvalidInput);
        }
        let id = self.next_id;
        self.store.put(id, doc);
        self.next_id = id + 1;
        proof {
            assert(self.store@.contains_key(id));
            assert(self@.records =~= old(self)@.records.push(doc@));
        }
        Ok(id)
    }

    /// Adds each of `docs` in turn, as `add` does, and gives for each the id
    /// it was recorded under, or `None` where it was refused.
    pub fn rebuild_from(&mut self, docs: &Vec<Document>) -> (r: Vec<Option<usize>>)
        requires
            old(self).well_formed(),
            old(self)@.records.len() + docs@.len() <= usize::MAX,
        ensures
            final(self).well_formed(),
            final(self)@ == replay(old(self)@, views(docs@)),
            r@.len() == docs@.len(),
            forall|i: int|
                0 <= i < r@.len() ==> ((#[trigger] r@[i]).is_some() == accepts(
                    replay(old(self)@, views(docs@).take(i)),
                    docs@[i]@.vector.len(),
                )),
            forall|i: int|
                0 <= i < r@.len() && (#[trigger] r@[i]).is_some() ==> r@[i].unwrap() == replay(
                    old(self)@,
                    views(docs@).take(i),
                ).records.len(),
            present_ids(r@) == assigned_ids(old(self)@, views(docs@)),
    {
        let ghost start = self@;
        let ghost ds = views(docs@);
        let mut out: Vec<Option<usize>> = Vec::new();
        let mut i: usize = 0;
        while i < docs.len()
            invariant
                i <= docs@.len(),
                ds == views(docs@),
                self.well_formed(),
                self@ == replay(start, ds.take(i as int)),
                self@.records.len() <= start.records.len() + i,
                start.records.len() + docs@.len() <= usize::MAX,
                out@.len() == i,
                forall|j: int|
                    0 <= j < i ==> ((#[trigger] out@[j]).is_some() == accepts(
                        replay(start, ds.take(j)),
                        docs@[j]@.vector.len(),
                    )),
                forall|j: int|
                    0 <= j < i && (#[trigger] out@[j]).is_some() ==> out@[j].unwrap() == replay(
                        start,
                        ds.take(j),
                    ).records.len(),
                present_ids(out@) == assigned_ids(start, ds.take(i as int)),
            decreases docs@.len() - i,
        {
            let ghost prev_out = out@;
            assert(ds.take(i + 1).drop_last() == ds.take(i as int));
            assert(ds.take(i + 1).last() == docs@[i as int]@);
            let d = docs[i].duplicate();
            let r = self.add(d);
            match r {
                Ok(id) => out.push(Some(id)),
                Err(_) => out.push(None),
            }
            assert(out@.drop_last() == prev_out);
            i += 1;
        }
        assert(ds.take(docs@.len() as int) == ds);
        out
    }

    /// The search results for the candidates that the proximity graph
    /// returned: the candidates in ranked order (ascending distance, ties by
    /// ascending id), the first `top_k` of them, each resolved to its record;
    /// a candidate whose id has no record is dropped.
    pub fn resolve(&self, raw: &Vec<Candidate>, top_k: usize) -> (r: Vec<(Document, u32)>)
        requires
            self.well_formed(),
        ensures
            exists|s: Seq<Candidate>|
                is_ranked(s) && s.to_multiset() == raw@.to_multiset() && results_view(r@) == resolved(
                    self@.records,
                    s.take(if top_k < s.len() { top_k as int } else { s.len() as int }),
                ),
            r@.len() <= top_k,
            distances_ascending(results_view(r@)),
    {
        let sorted = sort_candidates(raw);
        let k: usize = if top_k < sorted.len() {
            top_k
        } else {
            sorted.len()
        };
        let mut out: Vec<(Document, u32)> = Vec::new();
        let mut i: usize = 0;
        while i < k
            invariant
                k <= sorted@.len(),
                k <= top_k,
                i <= k,
                is_ranked(sorted@),
                self.well_formed(),
                out@.len() <= i,
                results_view(out@) == resolved(self@.records, sorted@.take(i as int)),
            decreases k - i,
        {
            let c = sorted[i];
            let ghost prev = out@;
            assert(sorted@.take(i + 1).drop_last() == sorted@.take(i as int));
            assert(sorted@.take(i + 1).last() == c);
            assert(self.store@.contains_key(c.0) == (c.0 < self.next_id));
            match self.store.get(c.0) {
                Some(d) => {
                    out.push((d.duplicate(), c.1));
                    assert(results_view(out@) =~= results_view(prev).push((self@.records[c.0 as int], c.1)));
                },
                None => {},
            }
            i += 1;
        }
        proof {
            lemma_resolved_ascending(self@.records, sorted@.take(k as int));
        }
        out
    }
}

/// Resolving a ranked list of candidates keeps the distances ascending.
pub proof fn lemma_resolved_ascending(records: Seq<DocumentView>, cands: Seq<Candidate>)
    requires
        is_ranked(cands),
    ensures
        distances_ascending(resolved(records, cands)),
        forall|i: int|
            0 <= i < resolved(records, cands).len() ==> exists|j: int|
                0 <= j < cands.len() && (#[trigger] resolved(records, cands)[i]).1 == #[trigger] cands[j].1,
    decreases cands.len(),
{
    if cands.len() > 0 {
        let init = cands.drop_last();
        assert(is_ranked(init)) by {
            assert forall|i: int, j: int| 0 <= i < j < init.len() implies crate::ranking::precedes(
                #[trigger] init[i],
                #[trigger] init[j],
            ) by {
                assert(init[i] == cands[i] && init[j] == cands[j]);
            }
        }
        lemma_resolved_ascending(records, init);
        let rest = resolved(records, init);
        assert forall|i: int| 0 <= i < rest.len() implies order_key(#[trigger] rest[i].1) <= order_key(
            cands.last().1,
        ) by {
            let j = choose|j: int| 0 <= j < init.len() && rest[i].1 == #[trigger] init[j].1;
            assert(init[j] == cands[j]);
            assert(crate::ranking::precedes(cands[j], cands[cands.len() - 1]));
        }
        let r = resolved(records, cands);
        assert forall|i: int| 0 <= i < r.len() implies exists|j: int|
            0 <= j < cands.len() && (#[trigger] r[i]).1 == #[trigger] cands[j].1 by {
            if i < rest.len() {
                let j = choose|j: int| 0 <= j < init.len() && rest[i].1 == #[trigger] init[j].1;
                assert(init[j] == cands[j]);
            } else {
                assert(r[i].1 == cands[cands.len() - 1].1);
            }
        }
    }
}

/// Adding a document keeps every record at the index's dimension, and a
/// document of another dimension leaves the catalog as it was.
pub proof fn lemma_dimension_invariant(c: CatalogView, d: DocumentView)
    requires
        dimension_consistent(c),
    ensures
        dimension_consistent(after_add(c, d)),
        !accepts(c, d.vector.len()) ==> after_add(c, d) == c,
        after_add(c, d).dimension == c.dimension,
{
}

/// Adding documents that all have the index's dimension records each of
/// them, in order, under the ids that follow the existing ones: from an
/// empty catalog the `i`-th document gets id `i`.
pub proof fn lemma_all_accepted(c: CatalogView, ds: Seq<DocumentView>)
    requires
        forall|i: int| 0 <= i < ds.len() ==> (#[trigger] ds[i]).vector.len() == c.dimension,
    ensures
        replay(c, ds).records == c.records + ds,
        replay(c, ds).dimension == c.dimension,
        assigned_ids(c, ds) == Seq::new(ds.len(), |i: int| (c.records.len() + i) as nat),
    decreases ds.len(),
{
    if ds.len() > 0 {
        let init = ds.drop_last();
        assert forall|i: int| 0 <= i < init.len() implies (#[trigger] init[i]).vector.len() == c.dimension by {
            assert(init[i] == ds[i]);
        }
        lemma_all_accepted(c, init);
        assert(ds.last() == ds[ds.len() - 1]);
        assert(c.records + ds =~= (c.records + init).push(ds.last()));
        assert(assigned_ids(c, ds) =~= Seq::new(ds.len(), |i: int| (c.records.len() + i) as nat));
    }
}

/// Adding documents in turn hands out the ids `n, n + 1, ..., m - 1`, in
/// that order, where `n` is the number of records before and `m` after: no
/// gap and no repeat. From an empty catalog these are `0, 1, ..., N - 1` for
/// `N` successful adds.
pub proof fn lemma_ids_dense(c: CatalogView, ds: Seq<DocumentView>)
    ensures
        replay(c, ds).records.len() >= c.records.len(),
        assigned_ids(c, ds) == Seq::new(
            (replay(c, ds).records.len() - c.records.len()) as nat,
            |k: int| (c.records.len() + k) as nat,
        ),
    decreases ds.len(),
{
    if ds.len() > 0 {
        lemma_ids_dense(c, ds.drop_last());
        let prev = replay(c, ds.drop_last());
        if accepts(prev, ds.last().vector.len()) {
            assert(assigned_ids(c, ds) =~= Seq::new(
                (replay(c, ds).records.len() - c.records.len()) as nat,
                |k: int| (c.records.len() + k) as nat,
            ));
        }
    }
}

/// Replaying `a` and then `b` gives the catalog that replaying `a + b` in
/// one go gives: a rebuild from stored documents equals the same documents
/// added one by one, in whatever batches.
pub proof fn lemma_replay_concat(c: CatalogView, a: Seq<DocumentView>, b: Seq<DocumentView>)
    ensures
        replay(c, a + b) == replay(replay(c, a), b),
    decreases b.len(),
{
    if b.len() == 0 {
        assert(a + b =~= a);
    } else {
        assert((a + b).drop_last() =~= a + b.drop_last());
        lemma_replay_concat(c, a, b.drop_last());
    }
}

/// An index with no records resolves no candidate: whatever the graph
/// returns, the search results are empty.
pub proof fn lemma_empty_index_resolves_nothing(cands: Seq<Candidate>)
    ensures
        resolved(Seq::empty(), cands) == Seq::<(DocumentView, u32)>::empty(),
    decreases cands.len(),
{
    if cands.len() > 0 {
        lemma_empty_index_resolves_nothing(cands.drop_last());
    }
}

/// The first search result is at least as close as every other one.
pub proof fn lemma_first_result_closest(r: Seq<(DocumentView, u32)>)
    requires
        distances_ascending(r),
    ensures
        forall|j: int| 0 <= j < r.len() ==> order_key(r[0].1) <= order_key(#[trigger] r[j].1),
{
    assert forall|j: int| 0 <= j < r.len() implies order_key(r[0].1) <= order_key(#[trigger] r[j].1) by {
        if j > 0 {
            assert(order_key(r[0].1) <= order_key(r[j].1));
        }
    }
}

} // verus!
