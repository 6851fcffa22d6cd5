use vstd::prelude::*;

use crate::tokenizer::words_of_lines;

verus! {

/// The mathematical content of a document: its path and its lines of
/// text.
#[verifier::ext_equal]
pub struct DocModel {
    pub path: Seq<char>,
    pub lines: Seq<Seq<char>>,
}

/// The terms of a document, in reading order.
pub open spec fn doc_words(d: DocModel) -> Seq<Seq<char>> {
    words_of_lines(d.lines)
}

/// The paths of a sequence of documents, in order.
pub open spec fn paths_of(docs: Seq<DocModel>) -> Seq<Seq<char>> {
    docs.map_values(|d: DocModel| d.path)
}

/// The mathematical content of an index: the document table (paths by
/// id, so ids are exactly the indices `0..N-1`) and the map from term
/// to posting list.
#[verifier::ext_equal]
pub struct IndexModel {
    pub paths: Seq<Seq<char>>,
    pub map: Map<Seq<char>, Seq<int>>,
}

/// The model of a freshly created, empty index.
pub open spec fn empty_model() -> IndexModel {
    IndexModel { paths: Seq::empty(), map: Map::empty() }
}

/// One occurrence of `word` in document `id`, appended to that word's
/// posting list (the list is created if absent).
pub open spec fn append_post(
    m: Map<Seq<char>, Seq<int>>,
    word: Seq<char>,
    id: int,
) -> Map<Seq<char>, Seq<int>> {
    if m.contains_key(word) {
        m.insert(word, m[word].push(id))
    } else {
        m.insert(word, seq![id])
    }
}

/// All occurrences of `words` (one document's terms, in reading order)
/// posted under document `id`.
pub open spec fn post_words(
    m: Map<Seq<char>, Seq<int>>,
    words: Seq<Seq<char>>,
    id: int,
) -> Map<Seq<char>, Seq<int>>
    decreases words.len(),
{
    if words.len() == 0 {
        m
    } else {
        post_words(append_post(m, words[0], id), words.drop_first(), id)
    }
}

pub proof fn lemma_post_words_push(
    m: Map<Seq<char>, Seq<int>>,
    words: Seq<Seq<char>>,
    w: Seq<char>,
    id: int,
)
    ensures
        post_words(m, words.push(w), id) == append_post(post_words(m, words, id), w, id),
    decreases words.len(),
{
    if words.len() == 0 {
        assert(words.push(w).drop_first() =~= words);
        assert(post_words(m, words.push(w), id) == post_words(append_post(m, w, id), words, id));
        assert(post_words(append_post(m, w, id), words, id) == append_post(m, w, id));
    } else {
        assert(words.push(w).drop_first() =~= words.drop_first().push(w));
        lemma_post_words_push(append_post(m, words[0], id), words.drop_first(), w, id);
        assert(post_words(m, words.push(w), id) == post_words(
            append_post(m, words[0], id),
            words.drop_first().push(w),
            id,
        ));
        assert(post_words(m, words, id) == post_words(
            append_post(m, words[0], id),
            words.drop_first(),
            id,
        ));
    }
}

/// Every posting id of `m` lies in `0..n`.
pub open spec fn map_ids_below(m: Map<Seq<char>, Seq<int>>, n: int) -> bool {
    forall|t: Seq<char>, j: int|
        m.contains_key(t) && 0 <= j < m[t].len() ==> 0 <= #[trigger] m[t][j] < n
}

pub proof fn lemma_ids_below_mono(m: Map<Seq<char>, Seq<int>>, n1: int, n2: int)
    requires
        map_ids_below(m, n1),
        n1 <= n2,
    ensures
        map_ids_below(m, n2),
{
    assert forall|t: Seq<char>, j: int|
        m.contains_key(t) && 0 <= j < m[t].len() implies 0 <= #[trigger] m[t][j] < n2 by {
        assert(0 <= m[t][j] < n1);
    }
}

pub proof fn lemma_append_post_ids_below(
    m: Map<Seq<char>, Seq<int>>,
    word: Seq<char>,
    id: int,
    n: int,
)
    requires
        map_ids_below(m, n),
        0 <= id < n,
    ensures
        map_ids_below(append_post(m, word, id), n),
{
    let m2 = append_post(m, word, id);
    assert forall|t: Seq<char>, j: int|
        m2.contains_key(t) && 0 <= j < m2[t].len() implies 0 <= #[trigger] m2[t][j] < n by {
        if t == word {
            if m.contains_key(word) {
                assert(m2[t] == m[word].push(id));
            } else {
                assert(m2[t] == seq![id]);
            }
        } else {
            assert(m2[t] == m[t]);
        }
    }
}

pub proof fn lemma_post_words_ids_below(
    m: Map<Seq<char>, Seq<int>>,
    words: Seq<Seq<char>>,
    id: int,
    n: int,
)
    requires
        map_ids_below(m, n),
        0 <= id < n,
    ensures
        map_ids_below(post_words(m, words, id), n),
    decreases words.len(),
{
    if words.len() > 0 {
        lemma_append_post_ids_below(m, words[0], id, n);
        lemma_post_words_ids_below(append_post(m, words[0], id), words.drop_first(), id, n);
    }
}

/// A document appended to an index model: its path gets the next id,
/// and each of its words is posted under that id.
pub open spec fn add_doc_words(m: IndexModel, path: Seq<char>, words: Seq<Seq<char>>) -> IndexModel {
    IndexModel {
        paths: m.paths.push(path),
        map: post_words(m.map, words, m.paths.len() as int),
    }
}

/// One build step: document `d` appended to model `m`.
pub open spec fn build_step(m: IndexModel, d: DocModel) -> IndexModel {
    add_doc_words(m, d.path, doc_words(d))
}

/// The documents of `docs` appended to model `m`, in order.
pub open spec fn build_from(m: IndexModel, docs: Seq<DocModel>) -> IndexModel
    decreases docs.len(),
{
    if docs.len() == 0 {
        m
    } else {
        build_from(build_step(m, docs[0]), docs.drop_first())
    }
}

/// The index that the sequential build produces from `docs`: ids are
/// assigned in enumeration order, and each term's posting list holds
/// the ids of its occurrences in that order.
pub open spec fn build_model(docs: Seq<DocModel>) -> IndexModel {
    build_from(empty_model(), docs)
}

pub proof fn lemma_build_from_push(m: IndexModel, docs: Seq<DocModel>, d: DocModel)
    ensures
        build_from(m, docs.push(d)) == build_step(build_from(m, docs), d),
    decreases docs.len(),
{
    if docs.len() == 0 {
        assert(docs.push(d).drop_first() =~= docs);
        assert(build_from(m, docs.push(d)) == build_from(build_step(m, d), docs));
        assert(build_from(build_step(m, d), docs) == build_step(m, d));
        assert(build_from(m, docs) == m);
    } else {
        assert(docs.push(d).drop_first() =~= docs.drop_first().push(d));
        lemma_build_from_push(build_step(m, docs[0]), docs.drop_first(), d);
        assert(build_from(m, docs.push(d)) == build_from(
            build_step(m, docs[0]),
            docs.drop_first().push(d),
        ));
        assert(build_from(m, docs) == build_from(build_step(m, docs[0]), docs.drop_first()));
    }
}

pub proof fn lemma_build_model_props(docs: Seq<DocModel>)
    ensures
        build_model(docs).paths == paths_of(docs),
        map_ids_below(build_model(docs).map, docs.len() as int),
    decreases docs.len(),
{
    if docs.len() == 0 {
        assert(build_model(docs).paths =~= paths_of(docs));
        assert(map_ids_below(build_model(docs).map, 0));
    } else {
        let prefix = docs.drop_last();
        lemma_build_model_props(prefix);
        assert(docs =~= prefix.push(docs.last()));
        lemma_build_from_push(empty_model(), prefix, docs.last());
        assert(build_model(docs) == build_step(build_model(prefix), docs.last()));
        assert(build_model(docs).paths =~= paths_of(docs));
        assert(map_ids_below(build_model(prefix).map, docs.len() as int)) by {
            assert(forall|t: Seq<char>, j: int|
                build_model(prefix).map.contains_key(t) && 0 <= j < build_model(prefix).map[t].len()
                    ==> 0 <= #[trigger] build_model(prefix).map[t][j] < docs.len());
        }
        lemma_post_words_ids_below(
            build_model(prefix).map,
            doc_words(docs.last()),
            prefix.len() as int,
            docs.len() as int,
        );
    }
}

/// The posting list of `t` in `map`, mapped through `paths` to the
/// documents' paths; an absent term yields the empty sequence.
pub open spec fn mapped_postings(
    map: Map<Seq<char>, Seq<int>>,
    paths: Seq<Seq<char>>,
    t: Seq<char>,
) -> Seq<Seq<char>> {
    if map.contains_key(t) {
        map[t].map_values(|id: int| paths[id])
    } else {
        Seq::empty()
    }
}

/// What `get` returns on model `m` for the (already lowercased) term
/// `t`: the posting list mapped to paths, in posting-list order and
/// with repetition; an absent term yields the empty sequence.
pub open spec fn get_model(m: IndexModel, t: Seq<char>) -> Seq<Seq<char>> {
    mapped_postings(m.map, m.paths, t)
}

/// The map a batch task builds privately, with the pre-reserved ids
/// `start`, `start + 1`, … assigned to its files in order, appended to
/// `m`.
pub open spec fn local_from(
    m: Map<Seq<char>, Seq<int>>,
    files: Seq<DocModel>,
    start: int,
) -> Map<Seq<char>, Seq<int>>
    decreases files.len(),
{
    if files.len() == 0 {
        m
    } else {
        local_from(post_words(m, doc_words(files[0]), start), files.drop_first(), start + 1)
    }
}

/// The local partial index of a batch beginning at id `start`.
pub open spec fn local_map_model(files: Seq<DocModel>, start: int) -> Map<Seq<char>, Seq<int>> {
    local_from(Map::empty(), files, start)
}

pub proof fn lemma_local_from_push(
    m: Map<Seq<char>, Seq<int>>,
    files: Seq<DocModel>,
    d: DocModel,
    start: int,
)
    ensures
        local_from(m, files.push(d), start) == post_words(
            local_from(m, files, start),
            doc_words(d),
            start + files.len(),
        ),
    decreases files.len(),
{
    if files.len() == 0 {
        assert(files.push(d).drop_first() =~= files);
        assert(local_from(m, files.push(d), start) == local_from(
            post_words(m, doc_words(d), start),
            files,
            start + 1,
        ));
        assert(local_from(post_words(m, doc_words(d), start), files, start + 1) == post_words(
            m,
            doc_words(d),
            start,
        ));
        assert(local_from(m, files, start) == m);
    } else {
        assert(files.push(d).drop_first() =~= files.drop_first().push(d));
        lemma_local_from_push(
            post_words(m, doc_words(files[0]), start),
            files.drop_first(),
            d,
            start + 1,
        );
        assert(local_from(m, files.push(d), start) == local_from(
            post_words(m, doc_words(files[0]), start),
            files.drop_first().push(d),
            start + 1,
        ));
        assert(local_from(m, files, start) == local_from(
            post_words(m, doc_words(files[0]), start),
            files.drop_first(),
            start + 1,
        ));
    }
}

pub proof fn lemma_local_ids_below(files: Seq<DocModel>, start: int)
    requires
        0 <= start,
    ensures
        map_ids_below(local_map_model(files, start), start + files.len()),
    decreases files.len(),
{
    if files.len() == 0 {
        assert(map_ids_below(local_map_model(files, start), start));
    } else {
        let prefix = files.drop_last();
        lemma_local_ids_below(prefix, start);
        assert(files =~= prefix.push(files.last()));
        lemma_local_from_push(Map::empty(), prefix, files.last(), start);
        assert(map_ids_below(local_map_model(prefix, start), start + files.len())) by {
            assert(forall|t: Seq<char>, j: int|
                local_map_model(prefix, start).contains_key(t) && 0 <= j < local_map_model(
                    prefix,
                    start,
                )[t].len() ==> 0 <= #[trigger] local_map_model(prefix, start)[t][j] < start
                    + files.len());
        }
        lemma_post_words_ids_below(
            local_map_model(prefix, start),
            doc_words(files.last()),
            start + prefix.len(),
            start + files.len(),
        );
    }
}

/// A batch's local map spliced into the shared map: for each term of
/// the local map, its local postings are appended onto the shared
/// posting list (the entry is created if absent).
pub open spec fn merge_maps(
    m: Map<Seq<char>, Seq<int>>,
    l: Map<Seq<char>, Seq<int>>,
) -> Map<Seq<char>, Seq<int>> {
    Map::new(
        |k: Seq<char>| m.contains_key(k) || l.contains_key(k),
        |k: Seq<char>|
            if l.contains_key(k) {
                if m.contains_key(k) {
                    m[k] + l[k]
                } else {
                    l[k]
                }
            } else {
                m[k]
            },
    )
}

pub proof fn lemma_merge_maps_ids_below(
    m: Map<Seq<char>, Seq<int>>,
    l: Map<Seq<char>, Seq<int>>,
    n: int,
)
    requires
        map_ids_below(m, n),
        map_ids_below(l, n),
    ensures
        map_ids_below(merge_maps(m, l), n),
{
    let r = merge_maps(m, l);
    assert forall|t: Seq<char>, j: int|
        r.contains_key(t) && 0 <= j < r[t].len() implies 0 <= #[trigger] r[t][j] < n by {
        if l.contains_key(t) && m.contains_key(t) {
            assert(r[t] == m[t] + l[t]);
            if j < m[t].len() {
                assert(r[t][j] == m[t][j]);
            } else {
                assert(r[t][j] == l[t][j - m[t].len()]);
            }
        }
    }
}

/// A pre-dispatched batch: the first id of its reserved contiguous
/// range, and its files.
#[verifier::ext_equal]
pub struct BatchModel {
    pub start: int,
    pub files: Seq<DocModel>,
}

/// Batch `b` agrees with the document table `paths`: its reserved id
/// range lies inside the table, and the table holds exactly its
/// files' paths over that range.
pub open spec fn batch_aligned(b: BatchModel, paths: Seq<Seq<char>>) -> bool {
    &&& 0 <= b.start
    &&& b.start + b.files.len() <= paths.len()
    &&& forall|i: int| 0 <= i < b.files.len() ==> paths[b.start + i] == (#[trigger] b.files[i]).path
}

/// The deterministic batching of `docs` into consecutive batches of
/// `size` (the last batch may be smaller but is never empty), each
/// carrying the first id of its reserved range, counted from `start`.
pub open spec fn spec_batches_from(docs: Seq<DocModel>, start: int, size: int) -> Seq<BatchModel>
    decreases docs.len(),
{
    if docs.len() == 0 || size < 1 {
        Seq::empty()
    } else if docs.len() <= size {
        seq![BatchModel { start, files: docs }]
    } else {
        seq![BatchModel { start, files: docs.take(size) }] + spec_batches_from(
            docs.skip(size),
            start + size,
            size,
        )
    }
}

/// The batching of `docs`, ids reserved from 0.
pub open spec fn spec_batches(docs: Seq<DocModel>, size: int) -> Seq<BatchModel> {
    spec_batches_from(docs, 0, size)
}

/// The shared map after splicing in the local maps of the batches of
/// `bs`, in that order.
pub open spec fn merge_batches(
    m: Map<Seq<char>, Seq<int>>,
    bs: Seq<BatchModel>,
) -> Map<Seq<char>, Seq<int>>
    decreases bs.len(),
{
    if bs.len() == 0 {
        m
    } else {
        merge_batches(merge_maps(m, local_map_model(bs[0].files, bs[0].start)), bs.drop_first())
    }
}

pub proof fn lemma_merge_batches_push(
    m: Map<Seq<char>, Seq<int>>,
    bs: Seq<BatchModel>,
    b: BatchModel,
)
    ensures
        merge_batches(m, bs.push(b)) == merge_maps(
            merge_batches(m, bs),
            local_map_model(b.files, b.start),
        ),
    decreases bs.len(),
{
    if bs.len() == 0 {
        assert(bs.push(b).drop_first() =~= bs);
        assert(merge_batches(m, bs.push(b)) == merge_batches(
            merge_maps(m, local_map_model(b.files, b.start)),
            bs,
        ));
        assert(merge_batches(merge_maps(m, local_map_model(b.files, b.start)), bs) == merge_maps(
            m,
            local_map_model(b.files, b.start),
        ));
        assert(merge_batches(m, bs) == m);
    } else {
        assert(bs.push(b).drop_first() =~= bs.drop_first().push(b));
        lemma_merge_batches_push(
            merge_maps(m, local_map_model(bs[0].files, bs[0].start)),
            bs.drop_first(),
            b,
        );
        assert(merge_batches(m, bs.push(b)) == merge_batches(
            merge_maps(m, local_map_model(bs[0].files, bs[0].start)),
            bs.drop_first().push(b),
        ));
        assert(merge_batches(m, bs) == merge_batches(
            merge_maps(m, local_map_model(bs[0].files, bs[0].start)),
            bs.drop_first(),
        ));
    }
}

/// The batches of `spec_batches_from(docs, start, size)` partition
/// `docs`: batch `k` holds the documents at positions
/// `bs[k].start - start ..` of `docs`, every batch is non-empty and no
/// larger than `size`, and the reserved ranges tile `start ..
/// start + docs.len()`.
pub proof fn lemma_spec_batches_align(docs: Seq<DocModel>, start: int, size: int)
    requires
        size >= 1,
    ensures
        ({
            let bs = spec_batches_from(docs, start, size);
            &&& forall|k: int| 0 <= k < bs.len() ==> start <= #[trigger] bs[k].start
            &&& forall|k: int|
                0 <= k < bs.len() ==> (#[trigger] bs[k].start) + bs[k].files.len() <= start
                    + docs.len()
            &&& forall|k: int|
                0 <= k < bs.len() ==> 1 <= (#[trigger] bs[k].files.len()) <= size
            &&& forall|k: int, i: int|
                0 <= k < bs.len() && 0 <= i < bs[k].files.len() ==> #[trigger] bs[k].files[i]
                    == docs[bs[k].start - start + i]
        }),
    decreases docs.len(),
{
    let bs = spec_batches_from(docs, start, size);
    if docs.len() == 0 {
    } else if docs.len() <= size {
    } else {
        lemma_spec_batches_align(docs.skip(size), start + size, size);
        let rest = spec_batches_from(docs.skip(size), start + size, size);
        assert forall|k: int, i: int|
            0 <= k < bs.len() && 0 <= i < bs[k].files.len() implies #[trigger] bs[k].files[i]
            == docs[bs[k].start - start + i] by {
            if k == 0 {
                assert(bs[0].files[i] == docs.take(size)[i]);
            } else {
                assert(bs[k] == rest[k - 1]);
                assert(rest[k - 1].files[i] == docs.skip(size)[rest[k - 1].start - (start + size)
                    + i]);
            }
        }
        assert forall|k: int| 0 <= k < bs.len() implies start <= #[trigger] bs[k].start by {
            if k > 0 {
                assert(bs[k] == rest[k - 1]);
            }
        }
        assert forall|k: int|
            0 <= k < bs.len() implies (#[trigger] bs[k].start) + bs[k].files.len() <= start
            + docs.len() by {
            if k > 0 {
                assert(bs[k] == rest[k - 1]);
            }
        }
        assert forall|k: int|
            0 <= k < bs.len() implies 1 <= (#[trigger] bs[k].files.len()) <= size by {
            if k > 0 {
                assert(bs[k] == rest[k - 1]);
            }
        }
    }
}

} // verus!
