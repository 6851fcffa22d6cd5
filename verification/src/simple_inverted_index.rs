use vstd::prelude::*;

use crate::index::{doc_models, Document, InvertedIndex, TermIndex};
use crate::model::{
    add_doc_words, build_model, build_step, empty_model, get_model, lemma_local_from_push,
    lemma_local_ids_below, lemma_merge_batches_push, lemma_merge_maps_ids_below,
    lemma_spec_batches_align, local_map_model, map_ids_below, merge_batches, merge_maps,
    paths_of, spec_batches, spec_batches_from, BatchModel, IndexModel,
};
use crate::tokenizer::{lower_of, tokenize_lines, tokenize_lines_with, WordTokenizer};

verus! {

/// How many files the batched builder groups into one batch before it
/// dispatches the batch to a worker.
pub const BATCH_SIZE: usize = 3000;

/// Tokenizes `doc` and appends it to `index` under the next document
/// id: the path enters the table, and each term occurrence is posted
/// in reading order.
pub fn process_file(index: &mut InvertedIndex, doc: &Document)
    requires
        old(index).wf(),
        old(index)@.paths.len() < i32::MAX as int,
    ensures
        final(index).wf(),
        final(index)@ == build_step(old(index)@, doc@),
{
    let words = tokenize_lines(&doc.lines);
    index.add_document(&doc.path, &words);
}

/// The per-file critical section of the per-entity parallel build. The
/// caller tokenizes the file outside any lock and hands in the words;
/// this assigns the next available id and posts every occurrence, all
/// of which the caller performs while holding the one lock guarding
/// `index`. Ids therefore follow lock-acquisition order.
pub fn process_file_multithreaded(index: &mut InvertedIndex, path: &String, words: &Vec<String>)
    requires
        old(index).wf(),
        old(index)@.paths.len() < i32::MAX as int,
    ensures
        final(index).wf(),
        final(index)@ == add_doc_words(old(index)@, path@, words.deep_view()),
{
    index.add_document(path, words);
}

/// Builds the private partial index of one batch: file `i` of the
/// batch gets the pre-reserved id `doc_id + i`, and no shared state is
/// touched.
pub fn build_local_batch(files: &Vec<Document>, doc_id: usize) -> (r: TermIndex)
    requires
        doc_id + files@.len() <= i32::MAX as int,
    ensures
        r.inv(),
        r@ == local_map_model(doc_models(files@), doc_id as int),
        map_ids_below(r@, doc_id + files@.len()),
{
    let ghost fm = doc_models(files@);
    let tokenizer = WordTokenizer::new();
    let mut local = TermIndex::new();
    let mut k: usize = 0;
    while k < files.len()
        invariant
            k <= files@.len(),
            doc_id + files@.len() <= i32::MAX as int,
            fm == doc_models(files@),
            fm.len() == files@.len(),
            local.inv(),
            local@ == local_map_model(fm.take(k as int), doc_id as int),
        decreases files@.len() - k,
    {
        let words = tokenize_lines_with(&tokenizer, &files[k].lines);
        local.add_words(&words, (doc_id + k) as i32);
        proof {
            lemma_local_from_push(
                Map::empty(),
                fm.take(k as int),
                fm[k as int],
                doc_id as int,
            );
            assert(fm.take(k as int).push(fm[k as int]) =~= fm.take(k as int + 1));
            assert(words.deep_view() == crate::model::doc_words(fm[k as int]));
        }
        k += 1;
    }
    proof {
        assert(fm.take(fm.len() as int) =~= fm);
        lemma_local_ids_below(fm, doc_id as int);
    }
    local
}

/// One batch task of the batched parallel build: builds the batch's
/// local partial index under the pre-reserved ids `doc_id`,
/// `doc_id + 1`, …, then splices it into the shared map — the caller
/// holds the shared lock only for the splice.
pub fn process_multi_file_multithreaded(shared: &mut TermIndex, files: &Vec<Document>, doc_id: usize)
    requires
        old(shared).inv(),
        doc_id + files@.len() <= i32::MAX as int,
    ensures
        final(shared).inv(),
        final(shared)@ == merge_maps(
            old(shared)@,
            local_map_model(doc_models(files@), doc_id as int),
        ),
{
    let local = build_local_batch(files, doc_id);
    shared.merge_from(&local);
}

/// One batch of the batched parallel build: the first id of its
/// pre-reserved contiguous id range, and its files.
pub struct DocumentBatch {
    pub start: usize,
    pub files: Vec<Document>,
}

impl View for DocumentBatch {
    type V = BatchModel;

    open spec fn view(&self) -> BatchModel {
        BatchModel { start: self.start as int, files: doc_models(self.files@) }
    }
}

/// The views of a sequence of batches.
pub open spec fn batch_models(bs: Seq<DocumentBatch>) -> Seq<BatchModel> {
    bs.map_values(|b: DocumentBatch| b@)
}

/// Splits `documents` into consecutive batches of `size` (the last may
/// be smaller, and is flushed even when undersized), assigning each
/// batch the first id of its contiguous range. The split is performed
/// on the enumerating thread, so it is deterministic: it depends on
/// the documents and `size` alone.
pub fn make_batches(documents: Vec<Document>, size: usize) -> (r: Vec<DocumentBatch>)
    requires
        size >= 1,
    ensures
        batch_models(r@) == spec_batches(doc_models(documents@), size as int),
{
    let ghost dm = doc_models(documents@);
    let n = documents.len();
    let mut r: Vec<DocumentBatch> = Vec::new();
    proof {
        assert(dm.skip(0) =~= dm);
        assert(batch_models(r@) =~= Seq::<BatchModel>::empty());
        assert(batch_models(r@) + spec_batches_from(dm.skip(0), 0, size as int) =~= spec_batches(
            dm,
            size as int,
        ));
    }
    let mut i: usize = 0;
    while i < n
        invariant
            size >= 1,
            i <= n,
            n == documents@.len(),
            dm == doc_models(documents@),
            dm.len() == n,
            batch_models(r@) + spec_batches_from(dm.skip(i as int), i as int, size as int)
                =~= spec_batches(dm, size as int),
        decreases n - i,
    {
        let end: usize = if n - i > size {
            i + size
        } else {
            n
        };
        let mut files: Vec<Document> = Vec::new();
        let mut j: usize = i;
        while j < end
            invariant
                i <= j <= end <= n,
                n == documents@.len(),
                dm == doc_models(documents@),
                dm.len() == n,
                doc_models(files@) =~= dm.subrange(i as int, j as int),
            decreases end - j,
        {
            let ghost fv0 = doc_models(files@);
            files.push(documents[j].clone());
            proof {
                assert(doc_models(files@) =~= fv0.push(dm[j as int]));
                assert(fv0.push(dm[j as int]) =~= dm.subrange(i as int, j as int + 1));
            }
            j += 1;
        }
        let ghost bm0 = batch_models(r@);
        let b = DocumentBatch { start: i, files };
        let ghost bv = b@;
        r.push(b);
        proof {
            assert(batch_models(r@) =~= bm0.push(bv));
            let rest = spec_batches_from(dm.skip(i as int), i as int, size as int);
            assert(dm.skip(i as int).len() == n - i);
            if n - i > size {
                assert(dm.skip(i as int).take(size as int) =~= dm.subrange(
                    i as int,
                    i as int + size as int,
                ));
                assert(dm.skip(i as int).skip(size as int) =~= dm.skip(end as int));
                assert(bv == BatchModel { start: i as int, files: dm.skip(i as int).take(size as int) });
                assert(rest == seq![bv] + spec_batches_from(
                    dm.skip(end as int),
                    end as int,
                    size as int,
                ));
            } else {
                assert(dm.skip(i as int) =~= dm.subrange(i as int, n as int));
                assert(bv == BatchModel { start: i as int, files: dm.skip(i as int) });
                assert(rest == seq![bv]);
                assert(dm.skip(end as int).len() == 0);
                assert(spec_batches_from(dm.skip(end as int), end as int, size as int)
                    == Seq::<BatchModel>::empty());
                assert(rest =~= seq![bv] + spec_batches_from(
                    dm.skip(end as int),
                    end as int,
                    size as int,
                ));
            }
            assert(bm0.push(bv) + spec_batches_from(dm.skip(end as int), end as int, size as int)
                =~= bm0 + (seq![bv] + spec_batches_from(dm.skip(end as int), end as int, size as int)));
        }
        i = end;
    }
    proof {
        assert(dm.skip(n as int).len() == 0);
        assert(spec_batches_from(dm.skip(n as int), n as int, size as int)
            == Seq::<BatchModel>::empty());
        assert(batch_models(r@) =~= batch_models(r@) + spec_batches_from(
            dm.skip(n as int),
            n as int,
            size as int,
        ));
    }
    r
}

/// The sequential builder: the correctness oracle. Walks the documents
/// in order on the calling thread; its output is fully deterministic
/// given the enumeration order.
pub struct SimpleInvertedIndex {
    implementation: InvertedIndex,
}

impl View for SimpleInvertedIndex {
    type V = IndexModel;

    closed spec fn view(&self) -> IndexModel {
        self.implementation@
    }
}

impl SimpleInvertedIndex {
    pub closed spec fn wf(&self) -> bool {
        self.implementation.wf()
    }

    /// An empty index.
    pub fn new() -> (r: Self)
        ensures
            r.wf(),
            r@ == empty_model(),
    {
        Self { implementation: InvertedIndex::new() }
    }

    /// Builds sequentially: ids follow enumeration order. The
    /// thread-count parameter is ignored.
    pub fn build(documents: Vec<Document>, _num_threads: i32) -> (r: Self)
        requires
            documents@.len() <= i32::MAX as int,
        ensures
            r.wf(),
            r@ == build_model(doc_models(documents@)),
    {
        Self { implementation: InvertedIndex::build(documents, _num_threads) }
    }

    /// Term lookup; see [`InvertedIndex::get`].
    pub fn get(&self, term: &str) -> (r: Vec<String>)
        requires
            self.wf(),
        ensures
            r.deep_view() == get_model(self@, lower_of(term@)),
            !self@.map.contains_key(lower_of(term@)) ==> r@.len() == 0,
    {
        self.implementation.get(term)
    }
}

/// The per-entity parallel builder's result. A parallel driver spawns
/// one task per file; each task tokenizes on its own, then calls
/// [`process_file_multithreaded`] under the one shared lock. Ids
/// therefore follow lock-acquisition order, which is scheduler
/// dependent. This library's `build` takes the documents in that
/// arrival order and performs the same merges; the laws module proves
/// that every arrival order yields the same (term, path) occurrence
/// counts.
pub struct ThreadedSimpleInvertedIndex {
    implementation: InvertedIndex,
}

impl View for ThreadedSimpleInvertedIndex {
    type V = IndexModel;

    closed spec fn view(&self) -> IndexModel {
        self.implementation@
    }
}

impl ThreadedSimpleInvertedIndex {
    pub closed spec fn wf(&self) -> bool {
        self.implementation.wf()
    }

    /// An empty index.
    pub fn new() -> (r: Self)
        ensures
            r.wf(),
            r@ == empty_model(),
    {
        Self { implementation: InvertedIndex::new() }
    }

    /// Merges `documents` — given in the order the per-file tasks
    /// acquired the shared lock — one document per critical section.
    pub fn build(documents: Vec<Document>, num_threads: i32) -> (r: Self)
        requires
            num_threads >= 1,
            documents@.len() <= i32::MAX as int,
        ensures
            r.wf(),
            r@ == build_model(doc_models(documents@)),
    {
        let ghost dm = doc_models(documents@);
        let tokenizer = WordTokenizer::new();
        let mut index = InvertedIndex::new();
        let mut i: usize = 0;
        while i < documents.len()
            invariant
                i <= documents@.len(),
                documents@.len() <= i32::MAX as int,
                dm == doc_models(documents@),
                dm.len() == documents@.len(),
                index.wf(),
                index@ == crate::model::build_from(empty_model(), dm.take(i as int)),
                index@.paths.len() == i,
            decreases documents@.len() - i,
        {
            let words = tokenize_lines_with(&tokenizer, &documents[i].lines);
            process_file_multithreaded(&mut index, &documents[i].path, &words);
            proof {
                crate::model::lemma_build_from_push(empty_model(), dm.take(i as int), dm[i as int]);
                assert(dm.take(i as int).push(dm[i as int]) =~= dm.take(i as int + 1));
                assert(words.deep_view() == crate::model::doc_words(dm[i as int]));
            }
            i += 1;
        }
        proof {
            assert(dm.take(dm.len() as int) =~= dm);
        }
        Self { implementation: index }
    }

    /// Term lookup; see [`InvertedIndex::get`].
    pub fn get(&self, term: &str) -> (r: Vec<String>)
        requires
            self.wf(),
        ensures
            r.deep_view() == get_model(self@, lower_of(term@)),
            !self@.map.contains_key(lower_of(term@)) ==> r@.len() == 0,
    {
        self.implementation.get(term)
    }
}

/// The batched parallel builder's result. Files are grouped into
/// batches of [`BATCH_SIZE`] on the enumerating thread, which reserves
/// each batch's contiguous id range before dispatch; the document
/// table is therefore identical to the sequential builder's whatever
/// the thread count or merge order. Each batch task builds its local
/// partial index without locking and splices it into the shared map
/// under the one lock.
pub struct MultiFileThreadedSimpleInvertedIndex {
    implementation: InvertedIndex,
}

impl View for MultiFileThreadedSimpleInvertedIndex {
    type V = IndexModel;

    closed spec fn view(&self) -> IndexModel {
        self.implementation@
    }
}

impl MultiFileThreadedSimpleInvertedIndex {
    pub closed spec fn wf(&self) -> bool {
        self.implementation.wf()
    }

    /// An empty index.
    pub fn new() -> (r: Self)
        ensures
            r.wf(),
            r@ == empty_model(),
    {
        Self { implementation: InvertedIndex::new() }
    }

    /// Builds via batches with pre-reserved id ranges, merging the
    /// batches in order: the document table equals the enumeration
    /// order's paths — deterministic ids — and the map is the splice
    /// of every batch's local map, which merged in this order
    /// reproduces the sequential build exactly.
    pub fn build(documents: Vec<Document>, num_threads: i32) -> (r: Self)
        requires
            num_threads >= 1,
            documents@.len() <= i32::MAX as int,
        ensures
            r.wf(),
            r@.paths == paths_of(doc_models(documents@)),
            r@.map == merge_batches(
                Map::empty(),
                spec_batches(doc_models(documents@), BATCH_SIZE as int),
            ),
            r@ == build_model(doc_models(documents@)),
    {
        let ghost dm = doc_models(documents@);
        let n = documents.len();
        let mut docs: Vec<String> = Vec::new();
        let mut i: usize = 0;
        while i < n
            invariant
                i <= n,
                n == documents@.len(),
                dm == doc_models(documents@),
                dm.len() == n,
                docs.deep_view() =~= paths_of(dm).take(i as int),
            decreases n - i,
        {
            let ghost dv0 = docs.deep_view();
            let p = documents[i].path.clone();
            let ghost pv = p@;
            docs.push(p);
            proof {
                assert(docs.deep_view() =~= dv0.push(pv));
                assert(dv0.push(pv) =~= paths_of(dm).take(i as int + 1));
            }
            i += 1;
        }
        proof {
            assert(paths_of(dm).take(dm.len() as int) =~= paths_of(dm));
        }
        let batches = make_batches(documents, BATCH_SIZE);
        let ghost bm = batch_models(batches@);
        proof {
            lemma_spec_batches_align(dm, 0, BATCH_SIZE as int);
        }
        let mut shared = TermIndex::new();
        let mut k: usize = 0;
        while k < batches.len()
            invariant
                k <= batches@.len(),
                n == dm.len(),
                bm == batch_models(batches@),
                bm == spec_batches(dm, BATCH_SIZE as int),
                bm.len() == batches@.len(),
                forall|q: int| 0 <= q < bm.len() ==> 0 <= #[trigger] bm[q].start,
                forall|q: int|
                    0 <= q < bm.len() ==> (#[trigger] bm[q].start) + bm[q].files.len() <= dm.len(),
                dm.len() <= i32::MAX as int,
                shared.inv(),
                shared@ == merge_batches(Map::empty(), bm.take(k as int)),
                map_ids_below(shared@, dm.len() as int),
            decreases batches@.len() - k,
        {
            proof {
                assert(bm[k as int] == batches@[k as int]@);
                assert(bm[k as int].start + bm[k as int].files.len() <= dm.len());
            }
            process_multi_file_multithreaded(
                &mut shared,
                &batches[k].files,
                batches[k].start,
            );
            proof {
                lemma_merge_batches_push(Map::empty(), bm.take(k as int), bm[k as int]);
                assert(bm.take(k as int).push(bm[k as int]) =~= bm.take(k as int + 1));
                lemma_local_ids_below(bm[k as int].files, bm[k as int].start);
                crate::model::lemma_ids_below_mono(
                    local_map_model(bm[k as int].files, bm[k as int].start),
                    bm[k as int].start + bm[k as int].files.len(),
                    dm.len() as int,
                );
                lemma_merge_maps_ids_below(
                    merge_batches(Map::empty(), bm.take(k as int)),
                    local_map_model(bm[k as int].files, bm[k as int].start),
                    dm.len() as int,
                );
            }
            k += 1;
        }
        proof {
            assert(bm.take(bm.len() as int) =~= bm);
        }
        let index = InvertedIndex::from_parts(docs, shared);
        proof {
            crate::laws::lemma_batched_in_order_matches_oracle(dm, BATCH_SIZE as int);
            crate::model::lemma_build_model_props(dm);
            assert(index@ =~= build_model(dm));
        }
        Self { implementation: index }
    }

    /// Term lookup; see [`InvertedIndex::get`].
    pub fn get(&self, term: &str) -> (r: Vec<String>)
        requires
            self.wf(),
        ensures
            r.deep_view() == get_model(self@, lower_of(term@)),
            !self@.map.contains_key(lower_of(term@)) ==> r@.len() == 0,
    {
        self.implementation.get(term)
    }
}

} // verus!
