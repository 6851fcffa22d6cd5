//! The laws the three build strategies obey.
//!
//! The central quantity is [`path_occurrences`]: how many times a path
//! appears in `get`'s result for a term. The laws state that this
//! count is a function of the document multiset alone — the order in
//! which the per-entity build's tasks acquired the lock, and the order
//! in which the batched build's tasks merged, do not change it — that
//! it equals the term's occurrence count inside the document, and that
//! document ids are contiguous table indices with every posting id
//! valid.

use vstd::prelude::*;

use crate::model::{
    append_post, batch_aligned, build_from, build_model, build_step, doc_words, empty_model,
    get_model, local_from,
    lemma_build_from_push, lemma_build_model_props, lemma_ids_below_mono, lemma_local_from_push,
    lemma_local_ids_below, lemma_merge_batches_push, lemma_post_words_push,
    lemma_spec_batches_align, local_map_model, map_ids_below, mapped_postings, merge_batches,
    merge_maps, paths_of, post_words, spec_batches, spec_batches_from, BatchModel, DocModel,
    IndexModel,
};

verus! {

broadcast use
    vstd::seq_lib::group_to_multiset_ensures,
    vstd::multiset::group_multiset_axioms,
    vstd::multiset::group_multiset_properties;

/// The sum of `f` over the elements of `s`.
pub open spec fn contrib_sum<A>(s: Seq<A>, f: spec_fn(A) -> nat) -> nat
    decreases s.len(),
{
    if s.len() == 0 {
        0
    } else {
        contrib_sum(s.drop_last(), f) + f(s.last())
    }
}

pub proof fn lemma_contrib_sum_remove<A>(s: Seq<A>, f: spec_fn(A) -> nat, i: int)
    requires
        0 <= i < s.len(),
    ensures
        contrib_sum(s, f) == contrib_sum(s.remove(i), f) + f(s[i]),
    decreases s.len(),
{
    if i == s.len() - 1 {
        assert(s.remove(i) =~= s.drop_last());
    } else {
        lemma_contrib_sum_remove(s.drop_last(), f, i);
        assert(s.remove(i).drop_last() =~= s.drop_last().remove(i));
        assert(s.remove(i).last() == s.last());
    }
}

/// The sum of `f` over a sequence depends only on the multiset of its
/// elements.
pub proof fn lemma_contrib_sum_permutation<A>(s1: Seq<A>, s2: Seq<A>, f: spec_fn(A) -> nat)
    requires
        s1.to_multiset() == s2.to_multiset(),
    ensures
        contrib_sum(s1, f) == contrib_sum(s2, f),
    decreases s1.len(),
{
    if s1.len() == 0 {
        assert(s1.to_multiset().len() == 0);
        assert(s2.len() == 0);
    } else {
        let x = s1.last();
        assert(s1.contains(x)) by {
            assert(s1[s1.len() - 1] == x);
        }
        assert(s1.to_multiset().count(x) > 0);
        assert(s2.contains(x));
        let j = choose|j: int| 0 <= j < s2.len() && s2[j] == x;
        assert(s1.drop_last() =~= s1.remove(s1.len() - 1));
        assert(s1.remove(s1.len() - 1).to_multiset() == s1.to_multiset().remove(x));
        assert(s2.remove(j).to_multiset() == s2.to_multiset().remove(x));
        lemma_contrib_sum_permutation(s1.drop_last(), s2.remove(j), f);
        lemma_contrib_sum_remove(s2, f, j);
    }
}

pub proof fn lemma_contrib_sum_concat<A>(a: Seq<A>, b: Seq<A>, f: spec_fn(A) -> nat)
    ensures
        contrib_sum(a + b, f) == contrib_sum(a, f) + contrib_sum(b, f),
    decreases b.len(),
{
    if b.len() == 0 {
        assert(a + b =~= a);
    } else {
        assert((a + b).drop_last() =~= a + b.drop_last());
        assert((a + b).last() == b.last());
        lemma_contrib_sum_concat(a, b.drop_last(), f);
    }
}

pub proof fn lemma_contrib_sum_zero<A>(s: Seq<A>, f: spec_fn(A) -> nat)
    requires
        forall|j: int| 0 <= j < s.len() ==> #[trigger] f(s[j]) == 0,
    ensures
        contrib_sum(s, f) == 0,
    decreases s.len(),
{
    if s.len() > 0 {
        lemma_contrib_sum_zero(s.drop_last(), f);
    }
}

pub proof fn lemma_contrib_sum_single<A>(s: Seq<A>, f: spec_fn(A) -> nat, i: int)
    requires
        0 <= i < s.len(),
        forall|j: int| 0 <= j < s.len() && j != i ==> #[trigger] f(s[j]) == 0,
    ensures
        contrib_sum(s, f) == f(s[i]),
    decreases s.len(),
{
    if i == s.len() - 1 {
        lemma_contrib_sum_zero(s.drop_last(), f);
    } else {
        lemma_contrib_sum_single(s.drop_last(), f, i);
    }
}

/// How many of the `words` equal term `t`.
pub open spec fn wcount(words: Seq<Seq<char>>, t: Seq<char>) -> nat
    decreases words.len(),
{
    if words.len() == 0 {
        0
    } else {
        wcount(words.drop_last(), t) + (if words.last() == t {
            1nat
        } else {
            0nat
        })
    }
}

/// How many entries of `t`'s posting list in `map` refer, through
/// `paths`, to path `p`.
pub open spec fn map_path_occurrences(
    map: Map<Seq<char>, Seq<int>>,
    paths: Seq<Seq<char>>,
    t: Seq<char>,
    p: Seq<char>,
) -> nat {
    mapped_postings(map, paths, t).to_multiset().count(p)
}

/// How many times path `p` appears in `get`'s result for term `t` on
/// model `m`.
pub open spec fn path_occurrences(m: IndexModel, t: Seq<char>, p: Seq<char>) -> nat {
    get_model(m, t).to_multiset().count(p)
}

/// The per-document contribution to `path_occurrences(_, t, p)`: all
/// of the document's occurrences of `t` if its path is `p`, else none.
pub open spec fn doc_contrib(t: Seq<char>, p: Seq<char>) -> spec_fn(DocModel) -> nat {
    |d: DocModel| if d.path == p {
        wcount(doc_words(d), t)
    } else {
        0nat
    }
}

/// The occurrence count taken over the documents themselves.
pub open spec fn doc_occurrences(docs: Seq<DocModel>, t: Seq<char>, p: Seq<char>) -> nat {
    contrib_sum(docs, doc_contrib(t, p))
}

proof fn lemma_empty_count(p: Seq<char>)
    ensures
        Seq::<Seq<char>>::empty().to_multiset().count(p) == 0,
{
    assert(Seq::<Seq<char>>::empty().to_multiset().len() == 0);
}

proof fn lemma_append_post_occ(
    map: Map<Seq<char>, Seq<int>>,
    paths: Seq<Seq<char>>,
    w: Seq<char>,
    id: int,
    t: Seq<char>,
    p: Seq<char>,
)
    requires
        0 <= id < paths.len(),
    ensures
        map_path_occurrences(append_post(map, w, id), paths, t, p) == map_path_occurrences(
            map,
            paths,
            t,
            p,
        ) + (if w == t && paths[id] == p {
            1nat
        } else {
            0nat
        }),
{
    let m2 = append_post(map, w, id);
    if w == t {
        if map.contains_key(t) {
            assert(m2[t] == map[t].push(id));
            assert(mapped_postings(m2, paths, t) =~= mapped_postings(map, paths, t).push(
                paths[id],
            ));
            assert(mapped_postings(map, paths, t).push(paths[id]).to_multiset()
                == mapped_postings(map, paths, t).to_multiset().insert(paths[id]));
        } else {
            assert(m2[t] == seq![id]);
            assert(mapped_postings(m2, paths, t) =~= Seq::<Seq<char>>::empty().push(paths[id]));
            assert(Seq::<Seq<char>>::empty().push(paths[id]).to_multiset()
                == Seq::<Seq<char>>::empty().to_multiset().insert(paths[id]));
            lemma_empty_count(p);
            lemma_empty_count(paths[id]);
            assert(mapped_postings(map, paths, t) =~= Seq::<Seq<char>>::empty());
        }
    } else {
        if map.contains_key(t) {
            assert(m2[t] == map[t]);
            assert(mapped_postings(m2, paths, t) =~= mapped_postings(map, paths, t));
        } else {
            assert(!m2.contains_key(t));
        }
    }
}

proof fn lemma_post_words_occ(
    map: Map<Seq<char>, Seq<int>>,
    paths: Seq<Seq<char>>,
    words: Seq<Seq<char>>,
    id: int,
    t: Seq<char>,
    p: Seq<char>,
)
    requires
        0 <= id < paths.len(),
    ensures
        map_path_occurrences(post_words(map, words, id), paths, t, p) == map_path_occurrences(
            map,
            paths,
            t,
            p,
        ) + (if paths[id] == p {
            wcount(words, t)
        } else {
            0nat
        }),
    decreases words.len(),
{
    if words.len() == 0 {
    } else {
        assert(words.drop_last().push(words.last()) =~= words);
        lemma_post_words_push(map, words.drop_last(), words.last(), id);
        lemma_post_words_occ(map, paths, words.drop_last(), id, t, p);
        lemma_append_post_occ(post_words(map, words.drop_last(), id), paths, words.last(), id, t, p);
    }
}

proof fn lemma_mapped_same_under_push(
    map: Map<Seq<char>, Seq<int>>,
    paths: Seq<Seq<char>>,
    q: Seq<char>,
    t: Seq<char>,
)
    requires
        map_ids_below(map, paths.len() as int),
    ensures
        mapped_postings(map, paths.push(q), t) == mapped_postings(map, paths, t),
{
    if map.contains_key(t) {
        assert forall|j: int| 0 <= j < map[t].len() implies paths.push(q)[map[t][j]]
            == paths[map[t][j]] by {
            assert(0 <= map[t][j] < paths.len());
        }
        assert(mapped_postings(map, paths.push(q), t) =~= mapped_postings(map, paths, t));
    } else {
        assert(mapped_postings(map, paths.push(q), t) =~= mapped_postings(map, paths, t));
    }
}

proof fn lemma_build_step_occ(m: IndexModel, d: DocModel, t: Seq<char>, p: Seq<char>)
    requires
        map_ids_below(m.map, m.paths.len() as int),
    ensures
        path_occurrences(build_step(m, d), t, p) == path_occurrences(m, t, p) + (if d.path == p {
            wcount(doc_words(d), t)
        } else {
            0nat
        }),
{
    let paths2 = m.paths.push(d.path);
    lemma_mapped_same_under_push(m.map, m.paths, d.path, t);
    lemma_post_words_occ(m.map, paths2, doc_words(d), m.paths.len() as int, t, p);
    assert(paths2[m.paths.len() as int] == d.path);
}

/// The sequential build's occurrence counts are exactly the documents'
/// own: how many times `p` appears in `get(t)` equals the total number
/// of occurrences of `t` in the documents whose path is `p`.
pub proof fn lemma_build_occurrences(docs: Seq<DocModel>, t: Seq<char>, p: Seq<char>)
    ensures
        path_occurrences(build_model(docs), t, p) == doc_occurrences(docs, t, p),
    decreases docs.len(),
{
    if docs.len() == 0 {
        assert(!empty_model().map.contains_key(t));
        lemma_empty_count(p);
    } else {
        let prefix = docs.drop_last();
        lemma_build_occurrences(prefix, t, p);
        lemma_build_model_props(prefix);
        assert(docs =~= prefix.push(docs.last()));
        lemma_build_from_push(empty_model(), prefix, docs.last());
        assert(build_model(prefix).paths.len() == prefix.len());
        lemma_build_step_occ(build_model(prefix), docs.last(), t, p);
    }
}

/// Occurrence counts do not depend on merge order: two builds over the
/// same multiset of documents — in particular, the sequential build
/// and a per-entity parallel build whose tasks acquired the lock in
/// any order — expose identical (term, path) occurrence counts, for
/// every term and path, though ids and posting-list order may differ.
pub proof fn lemma_build_order_irrelevant(
    docs1: Seq<DocModel>,
    docs2: Seq<DocModel>,
    t: Seq<char>,
    p: Seq<char>,
)
    requires
        docs1.to_multiset() == docs2.to_multiset(),
    ensures
        path_occurrences(build_model(docs1), t, p) == path_occurrences(build_model(docs2), t, p),
{
    lemma_build_occurrences(docs1, t, p);
    lemma_build_occurrences(docs2, t, p);
    lemma_contrib_sum_permutation(docs1, docs2, doc_contrib(t, p));
}

/// The per-batch contribution to `path_occurrences(_, t, p)`.
pub open spec fn batch_contrib(t: Seq<char>, p: Seq<char>) -> spec_fn(BatchModel) -> nat {
    |b: BatchModel| contrib_sum(b.files, doc_contrib(t, p))
}

proof fn lemma_local_occ(
    files: Seq<DocModel>,
    start: int,
    paths: Seq<Seq<char>>,
    t: Seq<char>,
    p: Seq<char>,
)
    requires
        batch_aligned(BatchModel { start, files }, paths),
    ensures
        map_path_occurrences(local_map_model(files, start), paths, t, p) == contrib_sum(
            files,
            doc_contrib(t, p),
        ),
    decreases files.len(),
{
    if files.len() == 0 {
        assert(!local_map_model(files, start).contains_key(t));
        lemma_empty_count(p);
    } else {
        let prefix = files.drop_last();
        assert(batch_aligned(BatchModel { start, files: prefix }, paths));
        lemma_local_occ(prefix, start, paths, t, p);
        assert(files =~= prefix.push(files.last()));
        lemma_local_from_push(Map::empty(), prefix, files.last(), start);
        lemma_local_ids_below(prefix, start);
        lemma_ids_below_mono(
            local_map_model(prefix, start),
            start + prefix.len(),
            paths.len() as int,
        );
        lemma_post_words_occ(
            local_map_model(prefix, start),
            paths,
            doc_words(files.last()),
            start + prefix.len(),
            t,
            p,
        );
        assert(paths[start + prefix.len()] == files.last().path);
    }
}

proof fn lemma_merge_maps_occ(
    a: Map<Seq<char>, Seq<int>>,
    b: Map<Seq<char>, Seq<int>>,
    paths: Seq<Seq<char>>,
    t: Seq<char>,
    p: Seq<char>,
)
    ensures
        map_path_occurrences(merge_maps(a, b), paths, t, p) == map_path_occurrences(a, paths, t, p)
            + map_path_occurrences(b, paths, t, p),
{
    broadcast use vstd::seq_lib::lemma_multiset_commutative;

    let m = merge_maps(a, b);
    if a.contains_key(t) && b.contains_key(t) {
        assert(m[t] == a[t] + b[t]);
        assert(mapped_postings(m, paths, t) =~= mapped_postings(a, paths, t) + mapped_postings(
            b,
            paths,
            t,
        ));
    } else if a.contains_key(t) {
        assert(m[t] == a[t]);
        assert(mapped_postings(m, paths, t) =~= mapped_postings(a, paths, t));
    } else if b.contains_key(t) {
        assert(m[t] == b[t]);
        assert(mapped_postings(m, paths, t) =~= mapped_postings(b, paths, t));
    } else {
        assert(!m.contains_key(t));
    }
}

proof fn lemma_merge_batches_occ(
    bs: Seq<BatchModel>,
    paths: Seq<Seq<char>>,
    t: Seq<char>,
    p: Seq<char>,
)
    requires
        forall|k: int| 0 <= k < bs.len() ==> batch_aligned(#[trigger] bs[k], paths),
    ensures
        map_path_occurrences(merge_batches(Map::empty(), bs), paths, t, p) == contrib_sum(
            bs,
            batch_contrib(t, p),
        ),
    decreases bs.len(),
{
    if bs.len() == 0 {
        assert(!merge_batches(Map::empty(), bs).contains_key(t));
        lemma_empty_count(p);
    } else {
        let prefix = bs.drop_last();
        lemma_merge_batches_occ(prefix, paths, t, p);
        assert(bs =~= prefix.push(bs.last()));
        lemma_merge_batches_push(Map::empty(), prefix, bs.last());
        lemma_merge_maps_occ(
            merge_batches(Map::empty(), prefix),
            local_map_model(bs.last().files, bs.last().start),
            paths,
            t,
            p,
        );
        assert(bs.last() == bs[bs.len() - 1]);
        assert(BatchModel { start: bs.last().start, files: bs.last().files } =~= bs.last());
        lemma_local_occ(bs.last().files, bs.last().start, paths, t, p);
    }
}

proof fn lemma_spec_batches_contrib(
    docs: Seq<DocModel>,
    start: int,
    size: int,
    t: Seq<char>,
    p: Seq<char>,
)
    requires
        size >= 1,
    ensures
        contrib_sum(spec_batches_from(docs, start, size), batch_contrib(t, p)) == contrib_sum(
            docs,
            doc_contrib(t, p),
        ),
    decreases docs.len(),
{
    let f = batch_contrib(t, p);
    if docs.len() == 0 {
    } else if docs.len() <= size {
        let b = BatchModel { start, files: docs };
        assert(seq![b].drop_last() =~= Seq::<BatchModel>::empty());
        assert(seq![b].last() == b);
        assert(contrib_sum(Seq::<BatchModel>::empty(), f) == 0);
        assert(contrib_sum(seq![b], f) == f(b));
    } else {
        lemma_spec_batches_contrib(docs.skip(size), start + size, size, t, p);
        let b0 = BatchModel { start, files: docs.take(size) };
        let rest = spec_batches_from(docs.skip(size), start + size, size);
        lemma_contrib_sum_concat(seq![b0], rest, f);
        assert(seq![b0].drop_last() =~= Seq::<BatchModel>::empty());
        assert(seq![b0].last() == b0);
        assert(contrib_sum(Seq::<BatchModel>::empty(), f) == 0);
        assert(contrib_sum(seq![b0], f) == f(b0));
        assert(docs =~= docs.take(size) + docs.skip(size));
        lemma_contrib_sum_concat(docs.take(size), docs.skip(size), doc_contrib(t, p));
    }
}

proof fn lemma_spec_batches_aligned(docs: Seq<DocModel>, size: int)
    requires
        size >= 1,
    ensures
        forall|k: int|
            0 <= k < spec_batches(docs, size).len() ==> batch_aligned(
                #[trigger] spec_batches(docs, size)[k],
                paths_of(docs),
            ),
{
    lemma_spec_batches_align(docs, 0, size);
    let bs = spec_batches(docs, size);
    assert forall|k: int| 0 <= k < bs.len() implies batch_aligned(bs[k], paths_of(docs)) by {
        assert forall|i: int| 0 <= i < bs[k].files.len() implies paths_of(docs)[bs[k].start + i]
            == #[trigger] bs[k].files[i].path by {
            assert(bs[k].files[i] == docs[bs[k].start + i]);
        }
    }
}

/// Splicing the batches' local maps into the shared map in any
/// completion order yields the same (term, path) occurrence counts as
/// the sequential build over the same enumeration — the batched
/// parallel build agrees with the correctness oracle whatever the
/// scheduling.
pub proof fn lemma_batched_order_irrelevant(
    docs: Seq<DocModel>,
    size: int,
    merged: Seq<BatchModel>,
    t: Seq<char>,
    p: Seq<char>,
)
    requires
        size >= 1,
        merged.to_multiset() == spec_batches(docs, size).to_multiset(),
    ensures
        path_occurrences(
            IndexModel { paths: paths_of(docs), map: merge_batches(Map::empty(), merged) },
            t,
            p,
        ) == path_occurrences(build_model(docs), t, p),
{
    let sb = spec_batches(docs, size);
    lemma_spec_batches_aligned(docs, size);
    assert forall|k: int| 0 <= k < merged.len() implies batch_aligned(
        #[trigger] merged[k],
        paths_of(docs),
    ) by {
        assert(merged.contains(merged[k]));
        assert(merged.to_multiset().count(merged[k]) > 0);
        assert(sb.contains(merged[k]));
        let j = choose|j: int| 0 <= j < sb.len() && sb[j] == merged[k];
        assert(batch_aligned(sb[j], paths_of(docs)));
    }
    lemma_merge_batches_occ(merged, paths_of(docs), t, p);
    lemma_contrib_sum_permutation(merged, sb, batch_contrib(t, p));
    lemma_spec_batches_contrib(docs, 0, size, t, p);
    lemma_build_occurrences(docs, t, p);
}

/// The batched build merged in batch order — what
/// `MultiFileThreadedSimpleInvertedIndex::build` produces — agrees
/// with the sequential build on every (term, path) occurrence count.
pub proof fn lemma_batched_matches_sequential(
    docs: Seq<DocModel>,
    size: int,
    t: Seq<char>,
    p: Seq<char>,
)
    requires
        size >= 1,
    ensures
        path_occurrences(
            IndexModel {
                paths: paths_of(docs),
                map: merge_batches(Map::empty(), spec_batches(docs, size)),
            },
            t,
            p,
        ) == path_occurrences(build_model(docs), t, p),
{
    lemma_batched_order_irrelevant(docs, size, spec_batches(docs, size), t, p);
}

/// Deterministic ids: the batched build's document table is the
/// enumeration order's paths whatever order the batch tasks merged in
/// — merging touches only the term map — and it equals the sequential
/// build's table.
pub proof fn lemma_deterministic_ids(docs: Seq<DocModel>, merged: Seq<BatchModel>)
    ensures
        (IndexModel { paths: paths_of(docs), map: merge_batches(Map::empty(), merged) }).paths
            == build_model(docs).paths,
{
    lemma_build_model_props(docs);
}

proof fn lemma_merge_append(
    m: Map<Seq<char>, Seq<int>>,
    l: Map<Seq<char>, Seq<int>>,
    w: Seq<char>,
    id: int,
)
    ensures
        merge_maps(m, append_post(l, w, id)) == append_post(merge_maps(m, l), w, id),
{
    let a = merge_maps(m, append_post(l, w, id));
    let b = append_post(merge_maps(m, l), w, id);
    assert forall|k: Seq<char>| a.contains_key(k) == b.contains_key(k) && (a.contains_key(k)
        ==> a[k] == b[k]) by {
        if k == w {
            if l.contains_key(w) {
                if m.contains_key(w) {
                    assert(a[k] == m[w] + l[w].push(id));
                    assert(b[k] == (m[w] + l[w]).push(id));
                    assert(m[w] + l[w].push(id) =~= (m[w] + l[w]).push(id));
                } else {
                    assert(a[k] == l[w].push(id));
                    assert(b[k] == l[w].push(id));
                }
            } else {
                if m.contains_key(w) {
                    assert(a[k] == m[w] + seq![id]);
                    assert(b[k] == m[w].push(id));
                    assert(m[w] + seq![id] =~= m[w].push(id));
                } else {
                    assert(a[k] == seq![id]);
                    assert(b[k] == seq![id]);
                }
            }
        }
    }
    assert(a =~= b);
}

proof fn lemma_merge_post_words(
    m: Map<Seq<char>, Seq<int>>,
    l: Map<Seq<char>, Seq<int>>,
    words: Seq<Seq<char>>,
    id: int,
)
    ensures
        merge_maps(m, post_words(l, words, id)) == post_words(merge_maps(m, l), words, id),
    decreases words.len(),
{
    if words.len() == 0 {
    } else {
        assert(words.drop_last().push(words.last()) =~= words);
        lemma_post_words_push(l, words.drop_last(), words.last(), id);
        lemma_post_words_push(merge_maps(m, l), words.drop_last(), words.last(), id);
        lemma_merge_post_words(m, l, words.drop_last(), id);
        lemma_merge_append(m, post_words(l, words.drop_last(), id), words.last(), id);
    }
}

proof fn lemma_merge_empty(m: Map<Seq<char>, Seq<int>>)
    ensures
        merge_maps(m, Map::empty()) == m,
{
    assert(merge_maps(m, Map::<Seq<char>, Seq<int>>::empty()) =~= m);
}

/// Building a batch privately and splicing it in equals posting the
/// batch's documents directly onto the shared map.
proof fn lemma_merge_local(
    m: Map<Seq<char>, Seq<int>>,
    files: Seq<DocModel>,
    start: int,
)
    ensures
        merge_maps(m, local_map_model(files, start)) == local_from(m, files, start),
    decreases files.len(),
{
    if files.len() == 0 {
        lemma_merge_empty(m);
    } else {
        let prefix = files.drop_last();
        assert(files =~= prefix.push(files.last()));
        lemma_local_from_push(Map::empty(), prefix, files.last(), start);
        lemma_local_from_push(m, prefix, files.last(), start);
        lemma_merge_post_words(
            m,
            local_map_model(prefix, start),
            doc_words(files.last()),
            start + prefix.len(),
        );
        lemma_merge_local(m, prefix, start);
    }
}

proof fn lemma_local_from_concat(
    m: Map<Seq<char>, Seq<int>>,
    a: Seq<DocModel>,
    b: Seq<DocModel>,
    start: int,
)
    ensures
        local_from(m, a + b, start) == local_from(local_from(m, a, start), b, start + a.len()),
    decreases b.len(),
{
    if b.len() == 0 {
        assert(a + b =~= a);
    } else {
        let bp = b.drop_last();
        assert(b =~= bp.push(b.last()));
        assert(a + b =~= (a + bp).push(b.last()));
        lemma_local_from_push(m, a + bp, b.last(), start);
        lemma_local_from_push(local_from(m, a, start), bp, b.last(), start + a.len());
        lemma_local_from_concat(m, a, bp, start);
    }
}

proof fn lemma_build_from_paths_len(m: IndexModel, docs: Seq<DocModel>)
    ensures
        build_from(m, docs).paths.len() == m.paths.len() + docs.len(),
    decreases docs.len(),
{
    if docs.len() > 0 {
        let prefix = docs.drop_last();
        assert(docs =~= prefix.push(docs.last()));
        lemma_build_from_push(m, prefix, docs.last());
        lemma_build_from_paths_len(m, prefix);
    }
}

/// The sequential build is the same fold that a single batch would
/// perform on the shared map, with ids counted from the table length.
proof fn lemma_build_as_local(m: IndexModel, docs: Seq<DocModel>)
    ensures
        build_from(m, docs).map == local_from(m.map, docs, m.paths.len() as int),
    decreases docs.len(),
{
    if docs.len() == 0 {
    } else {
        let prefix = docs.drop_last();
        assert(docs =~= prefix.push(docs.last()));
        lemma_build_from_push(m, prefix, docs.last());
        lemma_build_from_paths_len(m, prefix);
        lemma_build_as_local(m, prefix);
        lemma_local_from_push(m.map, prefix, docs.last(), m.paths.len() as int);
    }
}

proof fn lemma_merge_batches_as_local(
    m: Map<Seq<char>, Seq<int>>,
    docs: Seq<DocModel>,
    start: int,
    size: int,
)
    requires
        size >= 1,
    ensures
        merge_batches(m, spec_batches_from(docs, start, size)) == local_from(m, docs, start),
    decreases docs.len(),
{
    if docs.len() == 0 {
    } else if docs.len() <= size {
        let b = BatchModel { start, files: docs };
        let bs = seq![b];
        assert(bs[0] == b);
        assert(bs.drop_first() =~= Seq::<BatchModel>::empty());
        assert(merge_batches(m, bs) == merge_batches(
            merge_maps(m, local_map_model(docs, start)),
            Seq::<BatchModel>::empty(),
        ));
        assert(merge_batches(merge_maps(m, local_map_model(docs, start)), Seq::<BatchModel>::empty())
            == merge_maps(m, local_map_model(docs, start)));
        lemma_merge_local(m, docs, start);
    } else {
        let b0 = BatchModel { start, files: docs.take(size) };
        let rest = spec_batches_from(docs.skip(size), start + size, size);
        let bs = seq![b0] + rest;
        assert(bs[0] == b0);
        assert(bs.drop_first() =~= rest);
        assert(merge_batches(m, bs) == merge_batches(
            merge_maps(m, local_map_model(docs.take(size), start)),
            rest,
        ));
        lemma_merge_local(m, docs.take(size), start);
        lemma_merge_batches_as_local(
            local_from(m, docs.take(size), start),
            docs.skip(size),
            start + size,
            size,
        );
        lemma_local_from_concat(m, docs.take(size), docs.skip(size), start);
        assert(docs.take(size) + docs.skip(size) =~= docs);
    }
}

/// Merged in batch order — as the library's own batched build merges —
/// the batched strategy reproduces the sequential oracle exactly: the
/// same map, entry for entry, posting order included.
pub proof fn lemma_batched_in_order_matches_oracle(docs: Seq<DocModel>, size: int)
    requires
        size >= 1,
    ensures
        merge_batches(Map::empty(), spec_batches(docs, size)) == build_model(docs).map,
{
    lemma_merge_batches_as_local(Map::empty(), docs, 0, size);
    lemma_build_as_local(empty_model(), docs);
}

/// Occurrence-count fidelity: the number of times document `i`'s path
/// appears in `get(t)` equals the number of occurrences of `t` among
/// that document's words — provided no other document shares its path.
pub proof fn lemma_occurrence_fidelity(docs: Seq<DocModel>, i: int, t: Seq<char>)
    requires
        0 <= i < docs.len(),
        forall|j: int| 0 <= j < docs.len() && j != i ==> (#[trigger] docs[j].path) != docs[i].path,
    ensures
        path_occurrences(build_model(docs), t, docs[i].path) == wcount(doc_words(docs[i]), t),
{
    lemma_build_occurrences(docs, t, docs[i].path);
    let f = doc_contrib(t, docs[i].path);
    assert forall|j: int| 0 <= j < docs.len() && j != i implies #[trigger] f(docs[j]) == 0 by {
        assert(docs[j].path != docs[i].path);
    }
    lemma_contrib_sum_single(docs, f, i);
}

/// Id contiguity: the sequential build assigns each document the next
/// table index — the table lists the paths in enumeration order, so
/// ids are exactly `0..N-1` — and every posting id indexes the table.
pub proof fn lemma_ids_contiguous(docs: Seq<DocModel>)
    ensures
        build_model(docs).paths == paths_of(docs),
        build_model(docs).paths.len() == docs.len(),
        map_ids_below(build_model(docs).map, docs.len() as int),
{
    lemma_build_model_props(docs);
}

} // verus!
