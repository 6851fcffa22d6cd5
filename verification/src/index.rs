use vstd::prelude::*;

use crate::model::{
    add_doc_words, append_post, build_from, build_model, doc_words, empty_model, get_model,
    lemma_build_from_push, lemma_post_words_ids_below, lemma_post_words_push, map_ids_below,
    merge_maps, post_words, DocModel, IndexModel,
};
use crate::tokenizer::{lower_of, lowercase, tokenize_lines_with, WordTokenizer};

verus! {

/// A document id: an index into the document table.
pub type DocId = i32;

/// A text document handed to the builders: its path and its lines of
/// text. Reading files from disk is the caller's affair; the builders
/// work on the text itself.
pub struct Document {
    pub path: String,
    pub lines: Vec<String>,
}

impl View for Document {
    type V = DocModel;

    open spec fn view(&self) -> DocModel {
        DocModel { path: self.path@, lines: self.lines.deep_view() }
    }
}

/// The views of a sequence of documents.
pub open spec fn doc_models(ds: Seq<Document>) -> Seq<DocModel> {
    ds.map_values(|d: Document| d@)
}

fn clone_lines(v: &Vec<String>) -> (r: Vec<String>)
    ensures
        r@ == v@,
{
    let mut r: Vec<String> = Vec::new();
    let mut i: usize = 0;
    while i < v.len()
        invariant
            i <= v.len(),
            r@ =~= v@.take(i as int),
        decreases v.len() - i,
    {
        r.push(v[i].clone());
        assert(r@ =~= v@.take(i + 1));
        i += 1;
    }
    assert(r@ =~= v@);
    r
}

impl Clone for Document {
    /// The copy has the same path and lines.
    fn clone(&self) -> (r: Self)
        ensures
            r@ == self@,
    {
        let r = Document { path: self.path.clone(), lines: clone_lines(&self.lines) };
        proof {
            assert(r.lines.deep_view() =~= self.lines.deep_view());
            assert(r@ =~= self@);
        }
        r
    }
}

/// The posting ids as mathematical integers.
pub open spec fn ids_ints(s: Seq<DocId>) -> Seq<int> {
    s.map_values(|x: DocId| x as int)
}

/// One term together with its posting list: the ids of the documents
/// containing the term, one entry per occurrence, in merge order.
struct Posting {
    term: String,
    ids: Vec<DocId>,
}

impl Posting {
    spec fn ids_view(&self) -> Seq<int> {
        ids_ints(self.ids@)
    }
}

/// The term → posting-list map of a sequence of entries; a later entry
/// for the same term would shadow an earlier one, so well-formed entry
/// sequences keep their terms unique.
spec fn term_map_of(es: Seq<Posting>) -> Map<Seq<char>, Seq<int>>
    decreases es.len(),
{
    if es.len() == 0 {
        Map::empty()
    } else {
        term_map_of(es.drop_last()).insert(es.last().term@, es.last().ids_view())
    }
}

/// No two entries share a term.
spec fn unique_terms(es: Seq<Posting>) -> bool {
    forall|i: int, j: int| 0 <= i < j < es.len() ==> es[i].term@ != es[j].term@
}

proof fn lemma_term_map_key(es: Seq<Posting>, k: Seq<char>)
    ensures
        term_map_of(es).contains_key(k) <==> (exists|i: int|
            0 <= i < es.len() && es[i].term@ == k),
    decreases es.len(),
{
    if es.len() > 0 {
        lemma_term_map_key(es.drop_last(), k);
        if es.last().term@ == k {
            assert(es[es.len() - 1].term@ == k);
        } else {
            if term_map_of(es).contains_key(k) {
                let i = choose|i: int| 0 <= i < es.drop_last().len() && es.drop_last()[i].term@ == k;
                assert(es[i].term@ == k);
            }
            if exists|i: int| 0 <= i < es.len() && es[i].term@ == k {
                let i = choose|i: int| 0 <= i < es.len() && es[i].term@ == k;
                assert(i < es.len() - 1);
                assert(es.drop_last()[i].term@ == k);
            }
        }
    }
}

proof fn lemma_term_map_at(es: Seq<Posting>, i: int)
    requires
        unique_terms(es),
        0 <= i < es.len(),
    ensures
        term_map_of(es).contains_key(es[i].term@),
        term_map_of(es)[es[i].term@] == es[i].ids_view(),
    decreases es.len(),
{
    if i == es.len() - 1 {
    } else {
        lemma_term_map_at(es.drop_last(), i);
        assert(es.drop_last()[i] == es[i]);
        assert(es.last().term@ != es[i].term@);
    }
}

proof fn lemma_term_map_update(es: Seq<Posting>, i: int, p: Posting)
    requires
        unique_terms(es),
        0 <= i < es.len(),
        p.term@ == es[i].term@,
    ensures
        term_map_of(es.update(i, p)) == term_map_of(es).insert(p.term@, p.ids_view()),
        unique_terms(es.update(i, p)),
    decreases es.len(),
{
    let es2 = es.update(i, p);
    if i == es.len() - 1 {
        assert(es2.drop_last() =~= es.drop_last());
        assert(es2.last() == p);
        assert(term_map_of(es2) =~= term_map_of(es).insert(p.term@, p.ids_view()));
    } else {
        assert(es2.drop_last() =~= es.drop_last().update(i, p));
        assert(es.drop_last()[i] == es[i]);
        lemma_term_map_update(es.drop_last(), i, p);
        assert(es2.last() == es.last());
        assert(es.last().term@ != p.term@);
        assert(term_map_of(es2) =~= term_map_of(es).insert(p.term@, p.ids_view()));
    }
}

/// A whole posting list for `k` appended onto the map (the entry is
/// created if absent).
spec fn merge_entry(
    m: Map<Seq<char>, Seq<int>>,
    k: Seq<char>,
    ids: Seq<int>,
) -> Map<Seq<char>, Seq<int>> {
    if m.contains_key(k) {
        m.insert(k, m[k] + ids)
    } else {
        m.insert(k, ids)
    }
}

/// The term → posting-list map, stored as an association list with
/// unique terms.
pub struct TermIndex {
    entries: Vec<Posting>,
}

impl View for TermIndex {
    type V = Map<Seq<char>, Seq<int>>;

    closed spec fn view(&self) -> Map<Seq<char>, Seq<int>> {
        term_map_of(self.entries@)
    }
}

impl TermIndex {
    /// The internal well-formedness of the map: no term occurs twice.
    pub closed spec fn inv(&self) -> bool {
        unique_terms(self.entries@)
    }

    /// An empty map.
    pub fn new() -> (r: TermIndex)
        ensures
            r.inv(),
            r@ == Map::<Seq<char>, Seq<int>>::empty(),
    {
        TermIndex { entries: Vec::new() }
    }

    fn find(&self, term: &String) -> (r: Option<usize>)
        ensures
            match r {
                Some(i) => i < self.entries@.len() && self.entries@[i as int].term@ == term@,
                None => forall|i: int| 0 <= i < self.entries@.len() ==> self.entries@[i].term@ != term@,
            },
    {
        let mut i: usize = 0;
        while i < self.entries.len()
            invariant
                i <= self.entries@.len(),
                forall|j: int| 0 <= j < i ==> self.entries@[j].term@ != term@,
            decreases self.entries@.len() - i,
        {
            if self.entries[i].term == *term {
                return Some(i);
            }
            i += 1;
        }
        None
    }

    /// Appends the whole list `ids` onto `term`'s posting list.
    fn append_ids(&mut self, term: &String, ids: &Vec<DocId>)
        requires
            old(self).inv(),
        ensures
            final(self).inv(),
            final(self)@ == merge_entry(old(self)@, term@, ids_ints(ids@)),
    {
        let ghost es0 = self.entries@;
        match self.find(term) {
            Some(j) => {
                let mut p = self.entries.remove(j);
                let ghost p0 = p;
                let mut t: usize = 0;
                while t < ids.len()
                    invariant
                        t <= ids@.len(),
                        p.term == p0.term,
                        p.ids@ =~= p0.ids@ + ids@.take(t as int),
                    decreases ids@.len() - t,
                {
                    p.ids.push(ids[t]);
                    assert(p.ids@ =~= p0.ids@ + ids@.take(t + 1));
                    t += 1;
                }
                assert(p.ids@ =~= p0.ids@ + ids@);
                self.entries.insert(j, p);
                proof {
                    assert(self.entries@ =~= es0.update(j as int, p));
                    lemma_term_map_update(es0, j as int, p);
                    lemma_term_map_at(es0, j as int);
                    assert(p.ids_view() =~= p0.ids_view() + ids_ints(ids@));
                    assert(term_map_of(es0).contains_key(term@));
                    assert(final(self)@ == term_map_of(es0).insert(
                        term@,
                        term_map_of(es0)[term@] + ids_ints(ids@),
                    ));
                }
            },
            None => {
                let mut nids: Vec<DocId> = Vec::new();
                let mut t: usize = 0;
                while t < ids.len()
                    invariant
                        t <= ids@.len(),
                        nids@ =~= ids@.take(t as int),
                    decreases ids@.len() - t,
                {
                    nids.push(ids[t]);
                    assert(nids@ =~= ids@.take(t + 1));
                    t += 1;
                }
                assert(nids@ =~= ids@);
                let p = Posting { term: term.clone(), ids: nids };
                self.entries.push(p);
                proof {
                    assert(self.entries@.drop_last() =~= es0);
                    lemma_term_map_key(es0, term@);
                    assert(!term_map_of(es0).contains_key(term@));
                    assert(final(self)@ == term_map_of(es0).insert(term@, ids_ints(ids@)));
                    assert forall|i: int, j: int|
                        0 <= i < j < self.entries@.len() implies self.entries@[i].term@
                        != self.entries@[j].term@ by {
                        if j == self.entries@.len() - 1 {
                            assert(self.entries@[i] == es0[i]);
                        }
                    }
                }
            },
        }
    }

    /// Appends one occurrence of `word` in document `id`.
    pub fn add_word(&mut self, word: &String, id: DocId)
        requires
            old(self).inv(),
        ensures
            final(self).inv(),
            final(self)@ == append_post(old(self)@, word@, id as int),
    {
        let mut one: Vec<DocId> = Vec::new();
        one.push(id);
        let ghost m0 = self@;
        self.append_ids(word, &one);
        proof {
            assert(ids_ints(one@) =~= seq![id as int]);
            if m0.contains_key(word@) {
                assert(m0[word@] + seq![id as int] =~= m0[word@].push(id as int));
            }
        }
    }

    /// Appends every word of `words`, in order, as occurrences in
    /// document `id`.
    pub fn add_words(&mut self, words: &Vec<String>, id: DocId)
        requires
            old(self).inv(),
        ensures
            final(self).inv(),
            final(self)@ == post_words(old(self)@, words.deep_view(), id as int),
    {
        let ghost m0 = self@;
        let ghost ws = words.deep_view();
        let mut i: usize = 0;
        while i < words.len()
            invariant
                i <= words@.len(),
                ws == words.deep_view(),
                words@.len() == ws.len(),
                self.inv(),
                self@ == post_words(m0, ws.take(i as int), id as int),
            decreases words@.len() - i,
        {
            self.add_word(&words[i], id);
            proof {
                lemma_post_words_push(m0, ws.take(i as int), ws[i as int], id as int);
                assert(ws.take(i as int).push(ws[i as int]) =~= ws.take(i + 1));
            }
            i += 1;
        }
        proof {
            assert(ws.take(words@.len() as int) =~= ws);
        }
    }

    /// Splices a batch's local map into this one: each local posting
    /// list is appended onto the corresponding shared one.
    pub fn merge_from(&mut self, local: &TermIndex)
        requires
            old(self).inv(),
            local.inv(),
        ensures
            final(self).inv(),
            final(self)@ == merge_maps(old(self)@, local@),
    {
        let ghost orig = old(self)@;
        let ghost les = local.entries@;
        let mut i: usize = 0;
        while i < local.entries.len()
            invariant
                i <= les.len(),
                les == local.entries@,
                unique_terms(les),
                self.inv(),
                self@ == merge_maps(orig, term_map_of(les.take(i as int))),
            decreases les.len() - i,
        {
            let e = &local.entries[i];
            let ghost prev = self@;
            let ghost lpart = term_map_of(les.take(i as int));
            self.append_ids(&e.term, &e.ids);
            proof {
                let k = les[i as int].term@;
                let idsv = les[i as int].ids_view();
                lemma_term_map_key(les.take(i as int), k);
                assert(!lpart.contains_key(k)) by {
                    if exists|j: int| 0 <= j < i && les.take(i as int)[j].term@ == k {
                        let j = choose|j: int| 0 <= j < i && les.take(i as int)[j].term@ == k;
                        assert(les[j].term@ == les[i as int].term@);
                    }
                }
                assert(les.take(i as int).push(les[i as int]) =~= les.take(i + 1));
                assert(les.take(i + 1).drop_last() =~= les.take(i as int));
                assert(term_map_of(les.take(i + 1)) == lpart.insert(k, idsv));
                assert(self@ == merge_entry(prev, k, idsv));
                assert(merge_entry(merge_maps(orig, lpart), k, idsv) =~= merge_maps(
                    orig,
                    lpart.insert(k, idsv),
                ));
            }
            i += 1;
        }
        proof {
            assert(les.take(les.len() as int) =~= les);
        }
    }
}

/// An in-memory word-level inverted index: the document table (paths
/// by id) and the term → posting-list map. Immutable once built; a
/// rebuild produces a fresh value.
pub struct InvertedIndex {
    docs: Vec<String>,
    index: TermIndex,
}

impl View for InvertedIndex {
    type V = IndexModel;

    closed spec fn view(&self) -> IndexModel {
        IndexModel { paths: self.docs.deep_view(), map: self.index@ }
    }
}

impl InvertedIndex {
    /// Well-formedness: the term map is internally consistent and every
    /// posting id indexes the document table.
    pub closed spec fn wf(&self) -> bool {
        self.index.inv() && map_ids_below(self@.map, self@.paths.len() as int)
    }

    /// An empty index: no documents, no postings.
    pub fn new() -> (r: InvertedIndex)
        ensures
            r.wf(),
            r@ == empty_model(),
    {
        let r = InvertedIndex { docs: Vec::new(), index: TermIndex::new() };
        proof {
            assert(r@ =~= empty_model());
        }
        r
    }

    /// Assembles an index from a document table and a term map whose
    /// posting ids all index the table.
    pub fn from_parts(docs: Vec<String>, index: TermIndex) -> (r: InvertedIndex)
        requires
            index.inv(),
            map_ids_below(index@, docs@.len() as int),
        ensures
            r.wf(),
            r@.paths == docs.deep_view(),
            r@.map == index@,
    {
        InvertedIndex { docs, index }
    }

    /// Appends one document under the next id: its path enters the
    /// table and every one of `words` is posted under that id.
    pub fn add_document(&mut self, path: &String, words: &Vec<String>)
        requires
            old(self).wf(),
            old(self)@.paths.len() < i32::MAX as int,
        ensures
            final(self).wf(),
            final(self)@ == add_doc_words(old(self)@, path@, words.deep_view()),
    {
        let ghost m0 = self@;
        let id: DocId = self.docs.len() as i32;
        self.docs.push(path.clone());
        self.index.add_words(words, id);
        proof {
            assert(self@.paths =~= m0.paths.push(path@));
            assert(self@ =~= add_doc_words(m0, path@, words.deep_view()));
            lemma_post_words_ids_below(
                m0.map,
                words.deep_view(),
                id as int,
                m0.paths.len() as int + 1,
            );
            assert(map_ids_below(m0.map, m0.paths.len() as int + 1)) by {
                assert(forall|t: Seq<char>, j: int|
                    m0.map.contains_key(t) && 0 <= j < m0.map[t].len() ==> 0 <= #[trigger] m0.map[t][j]
                        < m0.paths.len() as int + 1);
            }
        }
    }

    /// Looks the term up, normalized by lowercasing as tokenization
    /// would normalize it. Returns the paths of the documents
    /// containing the term, in posting-list order and with one entry
    /// per occurrence; a term absent from the corpus yields the empty
    /// sequence, never an error.
    pub fn get(&self, term: &str) -> (r: Vec<String>)
        requires
            self.wf(),
        ensures
            r.deep_view() == get_model(self@, lower_of(term@)),
            !self@.map.contains_key(lower_of(term@)) ==> r@.len() == 0,
    {
        let key = lowercase(term);
        let ghost t = lower_of(term@);
        match self.index.find(&key) {
            None => {
                proof {
                    lemma_term_map_key(self.index.entries@, t);
                    assert(!self@.map.contains_key(t));
                }
                let r: Vec<String> = Vec::new();
                assert(r.deep_view() =~= get_model(self@, t));
                r
            },
            Some(i) => {
                proof {
                    lemma_term_map_at(self.index.entries@, i as int);
                }
                let ghost post = self@.map[t];
                let mut r: Vec<String> = Vec::new();
                let mut j: usize = 0;
                while j < self.index.entries[i].ids.len()
                    invariant
                        i < self.index.entries@.len(),
                        self.index.entries@[i as int].term@ == t,
                        self.wf(),
                        self@.map.contains_key(t),
                        post == self@.map[t],
                        post == self.index.entries@[i as int].ids_view(),
                        j <= post.len(),
                        post.len() == self.index.entries@[i as int].ids@.len(),
                        r.deep_view() =~= get_model(self@, t).take(j as int),
                    decreases post.len() - j,
                {
                    let id = self.index.entries[i].ids[j];
                    assert(post[j as int] == id as int);
                    assert(0 <= post[j as int] < self@.paths.len());
                    let path = self.docs[id as usize].clone();
                    proof {
                        assert(path@ == self@.paths[id as int]);
                        assert(get_model(self@, t)[j as int] == self@.paths[post[j as int]]);
                    }
                    let ghost dv0 = r.deep_view();
                    let ghost r0 = r@;
                    let ghost pv = path@;
                    r.push(path);
                    proof {
                        assert(r@ == r0.push(r@[r0.len() as int]));
                        assert(r.deep_view() =~= dv0.push(pv));
                        assert(dv0.push(pv) =~= get_model(self@, t).take(j as int + 1));
                    }
                    j += 1;
                }
                assert(get_model(self@, t).take(post.len() as int) =~= get_model(self@, t));
                r
            },
        }
    }

    /// Builds an index over `documents` on the calling thread, in
    /// order: document ids are assigned in enumeration order, and every
    /// occurrence of every term is posted under its document's id. The
    /// thread-count parameter is ignored, as the sequential build uses
    /// only the calling thread.
    pub fn build(documents: Vec<Document>, _num_threads: i32) -> (r: InvertedIndex)
        requires
            documents@.len() <= i32::MAX as int,
        ensures
            r.wf(),
            r@ == build_model(doc_models(documents@)),
    {
        let ghost dm = doc_models(documents@);
        let tokenizer = WordTokenizer::new();
        let mut r = InvertedIndex::new();
        let mut i: usize = 0;
        while i < documents.len()
            invariant
                i <= documents@.len(),
                documents@.len() <= i32::MAX as int,
                dm == doc_models(documents@),
                dm.len() == documents@.len(),
                r.wf(),
                r@ == build_from(empty_model(), dm.take(i as int)),
                r@.paths.len() == i,
            decreases documents@.len() - i,
        {
            let words = tokenize_lines_with(&tokenizer, &documents[i].lines);
            r.add_document(&documents[i].path, &words);
            proof {
                lemma_build_from_push(empty_model(), dm.take(i as int), dm[i as int]);
                assert(dm.take(i as int).push(dm[i as int]) =~= dm.take(i + 1));
                assert(words.deep_view() == doc_words(dm[i as int]));
            }
            i += 1;
        }
        proof {
            assert(dm.take(dm.len() as int) =~= dm);
        }
        r
    }
}

} // verus!
