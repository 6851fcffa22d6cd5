use vstd::prelude::*;

use crate::index::{doc_models, Document, InvertedIndex};
use crate::model::{build_model, get_model, IndexModel};
use crate::tokenizer::lower_of;

verus! {

/// The remote-procedure surface over the core's two operations: a
/// serving layer receives `build` and `get` requests over some channel
/// and forwards them to an implementation of this trait. Enumerating
/// and reading the named files is the serving layer's affair; a failed
/// read is handed in as `None`, so that a failed build never replaces
/// the index being served.
pub trait InvertedIndexService {
    /// The model of the currently served index, if any build has
    /// succeeded since the service started.
    spec fn index_model(&self) -> Option<IndexModel>;

    /// The service's internal consistency.
    spec fn inv(&self) -> bool;

    /// Replaces the served index, in one atomic step, with an index
    /// built sequentially over `corpus`; a failed corpus read (`None`)
    /// leaves whatever was served before in place.
    fn build(&mut self, corpus: Option<Vec<Document>>)
        requires
            old(self).inv(),
            (match corpus {
                Some(c) => c@.len() <= i32::MAX as int,
                None => true,
            }),
        ensures
            final(self).inv(),
            final(self).index_model() == (match corpus {
                Some(c) => Some(build_model(doc_models(c@))),
                None => old(self).index_model(),
            }),
    ;

    /// Serves a term lookup against the current index. Before the
    /// first successful build there is no index to consult: by
    /// convention the service then answers with the empty sequence —
    /// a documented choice of this surface, not a property of any
    /// index.
    fn get(&self, term: &String) -> (r: Vec<String>)
        requires
            self.inv(),
        ensures
            (match self.index_model() {
                Some(m) => r.deep_view() == get_model(m, lower_of(term@)),
                None => r@.len() == 0,
            }),
    ;
}

/// The in-process server state: the index currently served, if any.
/// A build swaps in a whole freshly built index, never a partially
/// updated one.
pub struct IndexServer {
    index: Option<InvertedIndex>,
}

impl IndexServer {
    /// A server that has not yet served a successful build.
    pub fn new() -> (r: IndexServer)
        ensures
            r.inv(),
            r.index_model() == None::<IndexModel>,
    {
        IndexServer { index: None }
    }
}

impl InvertedIndexService for IndexServer {
    closed spec fn index_model(&self) -> Option<IndexModel> {
        match self.index {
            Some(i) => Some(i@),
            None => None,
        }
    }

    closed spec fn inv(&self) -> bool {
        match self.index {
            Some(i) => i.wf(),
            None => true,
        }
    }

    fn build(&mut self, corpus: Option<Vec<Document>>) {
        match corpus {
            Some(c) => {
                self.index = Some(InvertedIndex::build(c, 1));
            },
            None => {},
        }
    }

    fn get(&self, term: &String) -> (r: Vec<String>) {
        match &self.index {
            Some(i) => i.get(term.as_str()),
            None => Vec::new(),
        }
    }
}

} // verus!

