//! The index over the workspace's files: documents keyed by id, a path to
//! id map, a name-token index and the stored file contents.  Reading files
//! happens outside the library; the index is handed paths and contents.

use vstd::prelude::*;
use crate::error::BackendError;
use crate::fts::models::{DocId, Document};

verus! {

/// The window size of the name-token n-grams.
pub const NGRAM_SIZE: usize = 3;

/// The document stored under an id, scanning from the front.
pub open spec fn doc_find(s: Seq<(DocId, Document)>, k: DocId) -> Option<Document>
    decreases s.len(),
{
    if s.len() == 0 {
        None
    } else if s[0].0 == k {
        Some(s[0].1)
    } else {
        doc_find(s.drop_first(), k)
    }
}

/// The id stored under a relative path, compared by text.
pub open spec fn id_find(s: Seq<(String, DocId)>, k: Seq<char>) -> Option<DocId>
    decreases s.len(),
{
    if s.len() == 0 {
        None
    } else if s[0].0@ == k {
        Some(s[0].1)
    } else {
        id_find(s.drop_first(), k)
    }
}

/// The content stored under an id.
pub open spec fn content_find(s: Seq<(DocId, String)>, k: DocId) -> Option<Seq<char>>
    decreases s.len(),
{
    if s.len() == 0 {
        None
    } else if s[0].0 == k {
        Some(s[0].1@)
    } else {
        content_find(s.drop_first(), k)
    }
}

/// The ids listed under a name token.
pub open spec fn names_find(s: Seq<(u64, Vec<DocId>)>, k: u64) -> Option<Seq<DocId>>
    decreases s.len(),
{
    if s.len() == 0 {
        None
    } else if s[0].0 == k {
        Some(s[0].1@)
    } else {
        names_find(s.drop_first(), k)
    }
}

/// The ids of the documents whose paths lie under the directory, in store
/// order.
pub open spec fn dir_docs(s: Seq<(DocId, Document)>, dir: Seq<char>) -> Seq<DocId>
    decreases s.len(),
{
    if s.len() == 0 {
        Seq::empty()
    } else {
        dir_docs(s.drop_last(), dir) + (if crate::parsing::starts_with_spec(
            s.last().1.path_spec(),
            dir,
        ) {
            seq![s.last().0]
        } else {
            Seq::empty()
        })
    }
}

/// The in-memory index of the workspace: every file as a document, the path
/// to id map, the name-token index, and the contents of the source files.
pub struct Index {
    pub root_folder: Option<String>,
    pub documents: Vec<(DocId, Document)>,
    pub doc_ids: Vec<(String, DocId)>,
    pub index_file_names: Vec<(u64, Vec<DocId>)>,
    pub index_file_contents: Vec<(DocId, String)>,
}

impl Index {
    /// The root folder the index was built over.
    pub open spec fn root_spec(self) -> Option<Seq<char>> {
        match self.root_folder {
            Some(r) => Some(r@),
            None => None,
        }
    }

    /// Well-formed: every map has pairwise distinct keys.
    pub open spec fn wf(self) -> bool {
        &&& forall|a: int, b: int|
            0 <= a < b < self.documents@.len() ==> (#[trigger] self.documents@[a]).0 != (
            #[trigger] self.documents@[b]).0
        &&& forall|a: int, b: int|
            0 <= a < b < self.doc_ids@.len() ==> (#[trigger] self.doc_ids@[a]).0@ != (
            #[trigger] self.doc_ids@[b]).0@
        &&& forall|a: int, b: int|
            0 <= a < b < self.index_file_names@.len() ==> (#[trigger] self.index_file_names@[a]).0
                != (#[trigger] self.index_file_names@[b]).0
        &&& forall|a: int, b: int|
            0 <= a < b < self.index_file_contents@.len() ==> (
            #[trigger] self.index_file_contents@[a]).0 != (
            #[trigger] self.index_file_contents@[b]).0
    }

    /// An empty index with no root folder.
    pub fn new() -> (r: Self)
        ensures
            r.wf(),
            r.root_spec() is None,
            r.documents@.len() == 0,
            r.doc_ids@.len() == 0,
            r.index_file_names@.len() == 0,
            r.index_file_contents@.len() == 0,
    {
        Index {
            root_folder: None,
            documents: Vec::new(),
            doc_ids: Vec::new(),
            index_file_names: Vec::new(),
            index_file_contents: Vec::new(),
        }
    }

    /// An id no document uses: one more than the largest id in use, zero on
    /// an empty index, or nothing when the id space is exhausted.
    fn unused_doc_id(&self) -> (r: Option<DocId>)
        ensures
            r matches Some(id) ==> forall|i: int|
                0 <= i < self.documents@.len() ==> (#[trigger] self.documents@[i]).0 < id,
    {
        let mut max: DocId = 0;
        let mut any = false;
        let mut i: usize = 0;
        while i < self.documents.len()
            invariant
                i <= self.documents@.len(),
                any ==> forall|j: int|
                    0 <= j < i ==> (#[trigger] self.documents@[j]).0 <= max,
                !any ==> i == 0,
                max < u32::MAX,
            decreases self.documents@.len() - i,
        {
            let k = self.documents[i].0;
            if k == 0xFFFF_FFFF {
                return None;
            }
            if !any || k > max {
                max = k;
            }
            any = true;
            i += 1;
        }
        if any {
            Some(max + 1)
        } else {
            Some(0)
        }
    }

    /// Finds the store position of the document with the given relative
    /// path.
    fn find_by_path(&self, rel_path: &str) -> (r: Option<usize>)
        ensures
            match r {
                Some(ix) => ix < self.documents@.len() && self.documents@[ix as int].1.path_spec()
                    == rel_path@,
                None => forall|i: int|
                    0 <= i < self.documents@.len() ==> (#[trigger] self.documents@[i]).1.path_spec()
                        != rel_path@,
            },
    {
        let mut i: usize = 0;
        while i < self.documents.len()
            invariant
                i <= self.documents@.len(),
                forall|j: int|
                    0 <= j < i ==> (#[trigger] self.documents@[j]).1.path_spec() != rel_path@,
            decreases self.documents@.len() - i,
        {
            let d = &self.documents[i].1;
            if crate::file::paths_are_eq(d.path_str().as_str(), rel_path) {
                return Some(i);
            }
            i += 1;
        }
        None
    }

    /// The id of the document with the given path, if one is indexed.
    pub fn get_documents_id(&self, path: &str) -> (r: Option<DocId>)
        ensures
            match r {
                Some(id) => exists|i: int|
                    0 <= i < self.documents@.len() && (#[trigger] self.documents@[i]).0 == id
                        && self.documents@[i].1.path_spec() == path@,
                None => forall|i: int|
                    0 <= i < self.documents@.len() ==> (#[trigger] self.documents@[i]).1.path_spec()
                        != path@,
            },
    {
        match self.find_by_path(path) {
            Some(ix) => {
                let ghost i = ix as int;
                proof {
                    assert(self.documents@[i].0 == self.documents@[ix as int].0);
                }
                Some(self.documents[ix].0)
            },
            None => None,
        }
    }

    /// The id stored for the relative path, also trying it with a leading
    /// slash.
    pub fn get_doc_id(&self, rel_path: &str) -> (r: Option<DocId>)
        ensures
            id_find(self.doc_ids@, rel_path@) is Some ==> r == id_find(self.doc_ids@, rel_path@),
            id_find(self.doc_ids@, rel_path@) is None ==> r == id_find(
                self.doc_ids@,
                seq!['/'] + rel_path@,
            ),
    {
        match self.lookup_doc_id(rel_path) {
            Some(id) => Some(id),
            None => {
                let mut slashed = String::from_str("/");
                slashed.append(rel_path);
                proof {
                    reveal_strlit("/");
                    assert(slashed@ =~= seq!['/'] + rel_path@);
                }
                self.lookup_doc_id(slashed.as_str())
            },
        }
    }

    /// The id stored for exactly this relative path.
    fn lookup_doc_id(&self, rel_path: &str) -> (r: Option<DocId>)
        ensures
            r == id_find(self.doc_ids@, rel_path@),
    {
        let mut i: usize = 0;
        proof {
            assert(self.doc_ids@.skip(0) =~= self.doc_ids@);
        }
        while i < self.doc_ids.len()
            invariant
                i <= self.doc_ids@.len(),
                id_find(self.doc_ids@.skip(i as int), rel_path@) == id_find(
                    self.doc_ids@,
                    rel_path@,
                ),
            decreases self.doc_ids@.len() - i,
        {
            let ghost rest = self.doc_ids@.skip(i as int);
            proof {
                assert(rest[0] == self.doc_ids@[i as int]);
                assert(rest.drop_first() =~= self.doc_ids@.skip(i + 1 as int));
            }
            if crate::file::paths_are_eq(self.doc_ids[i].0.as_str(), rel_path) {
                return Some(self.doc_ids[i].1);
            }
            i += 1;
        }
        proof {
            assert(self.doc_ids@.skip(self.doc_ids@.len() as int) =~= Seq::<(
                String,
                DocId,
            )>::empty());
        }
        None
    }

    /// How many documents carry the token in their name.
    pub fn document_frequency(&self, token: u64) -> (r: usize)
        ensures
            r == match names_find(self.index_file_names@, token) {
                Some(l) => l.len(),
                None => 0,
            },
    {
        let mut i: usize = 0;
        proof {
            assert(self.index_file_names@.skip(0) =~= self.index_file_names@);
        }
        while i < self.index_file_names.len()
            invariant
                i <= self.index_file_names@.len(),
                names_find(self.index_file_names@.skip(i as int), token) == names_find(
                    self.index_file_names@,
                    token,
                ),
            decreases self.index_file_names@.len() - i,
        {
            let ghost rest = self.index_file_names@.skip(i as int);
            proof {
                assert(rest[0] == self.index_file_names@[i as int]);
                assert(rest.drop_first() =~= self.index_file_names@.skip(i + 1 as int));
            }
            if self.index_file_names[i].0 == token {
                return self.index_file_names[i].1.len();
            }
            i += 1;
        }
        proof {
            assert(self.index_file_names@.skip(self.index_file_names@.len() as int) =~= Seq::<(
                u64,
                Vec<DocId>,
            )>::empty());
        }
        0
    }

    /// Removes the document with the given id everywhere: from the document
    /// store, the content store, the path map, and every name-token list;
    /// token lists left empty are dropped.
    pub fn remove_document(&mut self, docs_id: DocId) -> (r: Document)
        requires
            old(self).wf(),
            doc_find(old(self).documents@, docs_id) is Some,
        ensures
            final(self).wf(),
            final(self).root_spec() == old(self).root_spec(),
            doc_find(old(self).documents@, docs_id) == Some(r),
            doc_find(final(self).documents@, docs_id) is None,
            content_find(final(self).index_file_contents@, docs_id) is None,
            forall|tok: u64|
                #[trigger] names_find(final(self).index_file_names@, tok) matches Some(l)
                    ==> l.len() > 0 && !l.contains(docs_id),
            // every other document is left as it was
            forall|id2: DocId|
                id2 != docs_id ==> content_find(final(self).index_file_contents@, id2)
                    == content_find(old(self).index_file_contents@, id2),
            forall|id2: DocId|
                id2 != docs_id ==> doc_find(final(self).documents@, id2) == doc_find(
                    old(self).documents@,
                    id2,
                ),
            forall|p: Seq<char>|
                #![trigger id_find(final(self).doc_ids@, p)]
                id_find(final(self).doc_ids@, p) == (match id_find(old(self).doc_ids@, p) {
                    Some(v) => if v == docs_id {
                        None
                    } else {
                        Some(v)
                    },
                    None => None::<DocId>,
                }),
            forall|tok: u64|
                #![trigger names_find(final(self).index_file_names@, tok)]
                names_find(final(self).index_file_names@, tok) == (match names_find(
                    old(self).index_file_names@,
                    tok,
                ) {
                    Some(l) => if ids_without(l, docs_id).len() > 0 {
                        Some(ids_without(l, docs_id))
                    } else {
                        None::<Seq<DocId>>
                    },
                    None => None::<Seq<DocId>>,
                }),
    {
        // drop the stored content
        let mut contents: Vec<(DocId, String)> = Vec::new();
        let mut i: usize = 0;
        proof {
            assert(self.index_file_contents@.skip(0) =~= self.index_file_contents@);
            assert(self.index_file_contents@.take(0) =~= Seq::<(DocId, String)>::empty());
        }
        while i < self.index_file_contents.len()
            invariant
                i <= self.index_file_contents@.len(),
                forall|a: int, b: int|
                    0 <= a < b < self.index_file_contents@.len() ==> (
                    #[trigger] self.index_file_contents@[a]).0 != (
                    #[trigger] self.index_file_contents@[b]).0,
                forall|a: int, b: int|
                    0 <= a < b < contents@.len() ==> (#[trigger] contents@[a]).0 != (
                    #[trigger] contents@[b]).0,
                forall|a: int|
                    0 <= a < contents@.len() ==> (#[trigger] contents@[a]).0 != docs_id && (
                    exists|b: int|
                        0 <= b < i && self.index_file_contents@[b] == contents@[a]),
                forall|id2: DocId|
                    id2 != docs_id ==> #[trigger] content_find(contents@, id2) == content_find(
                        self.index_file_contents@.take(i as int),
                        id2,
                    ),
            decreases self.index_file_contents@.len() - i,
        {
            let ghost cur = self.index_file_contents@[i as int];
            proof {
                assert(self.index_file_contents@.take(i + 1 as int)
                    =~= self.index_file_contents@.take(i as int).push(cur));
            }
            if self.index_file_contents[i].0 != docs_id {
                let ghost before = contents@;
                let copied = (self.index_file_contents[i].0, self.index_file_contents[i].1.clone());
                let ghost copied_view = copied;
                contents.push(copied);
                proof {
                    assert forall|a: int|
                        0 <= a < contents@.len() implies (#[trigger] contents@[a]).0 != docs_id
                        && (exists|b: int|
                        0 <= b < i + 1 && self.index_file_contents@[b] == contents@[a]) by {
                        if a < before.len() {
                            assert(contents@[a] == before[a]);
                        } else {
                            assert(contents@[a].0 == self.index_file_contents@[i as int].0);
                        }
                    }
                    assert forall|id2: DocId| id2 != docs_id implies #[trigger] content_find(
                        contents@,
                        id2,
                    ) == content_find(self.index_file_contents@.take(i + 1 as int), id2) by {
                        lemma_content_find_push_any(before, copied_view, id2);
                        lemma_content_find_push_any(
                            self.index_file_contents@.take(i as int),
                            cur,
                            id2,
                        );
                    }
                }
            } else {
                proof {
                    assert forall|id2: DocId| id2 != docs_id implies #[trigger] content_find(
                        contents@,
                        id2,
                    ) == content_find(self.index_file_contents@.take(i + 1 as int), id2) by {
                        lemma_content_find_push_any(
                            self.index_file_contents@.take(i as int),
                            cur,
                            id2,
                        );
                    }
                }
            }
            i += 1;
        }
        proof {
            assert(self.index_file_contents@.take(self.index_file_contents@.len() as int)
                =~= self.index_file_contents@);
        }
        proof {
            lemma_absent_key_not_found_content(contents@, docs_id);
        }
        self.index_file_contents = contents;

        // drop the id from every name-token list, then drop empty lists
        let mut names: Vec<(u64, Vec<DocId>)> = Vec::new();
        let mut i2: usize = 0;
        proof {
            assert(self.index_file_names@.take(0) =~= Seq::<(u64, Vec<DocId>)>::empty());
        }
        while i2 < self.index_file_names.len()
            invariant
                i2 <= self.index_file_names@.len(),
                forall|a: int, b: int|
                    0 <= a < b < self.index_file_names@.len() ==> (
                    #[trigger] self.index_file_names@[a]).0 != (
                    #[trigger] self.index_file_names@[b]).0,
                forall|a: int, b: int|
                    0 <= a < b < names@.len() ==> (#[trigger] names@[a]).0 != (
                    #[trigger] names@[b]).0,
                forall|a: int|
                    0 <= a < names@.len() ==> (#[trigger] names@[a]).1@.len() > 0
                        && !names@[a].1@.contains(docs_id) && (exists|b: int|
                        0 <= b < i2 && (#[trigger] self.index_file_names@[b]).0 == names@[a].0),
                forall|tok2: u64|
                    #![trigger names_find(names@, tok2)]
                    names_find(names@, tok2) == (match names_find(
                        self.index_file_names@.take(i2 as int),
                        tok2,
                    ) {
                        Some(l) => if ids_without(l, docs_id).len() > 0 {
                            Some(ids_without(l, docs_id))
                        } else {
                            None::<Seq<DocId>>
                        },
                        None => None::<Seq<DocId>>,
                    }),
            decreases self.index_file_names@.len() - i2,
        {
            let ghost cur = self.index_file_names@[i2 as int];
            proof {
                assert(self.index_file_names@.take(i2 + 1 as int)
                    =~= self.index_file_names@.take(i2 as int).push(cur));
            }
            let tok = self.index_file_names[i2].0;
            let src = &self.index_file_names[i2].1;
            let mut kept: Vec<DocId> = Vec::new();
            let mut j: usize = 0;
            proof {
                assert(src@.take(0) =~= Seq::<DocId>::empty());
            }
            while j < src.len()
                invariant
                    j <= src@.len(),
                    src@ == cur.1@,
                    forall|m: int|
                        0 <= m < kept@.len() ==> (#[trigger] kept@[m]) != docs_id,
                    kept@ == ids_without(src@.take(j as int), docs_id),
                decreases src@.len() - j,
            {
                proof {
                    assert(src@.take(j + 1 as int).drop_last() =~= src@.take(j as int));
                    assert(src@.take(j + 1 as int).last() == src@[j as int]);
                }
                if src[j] != docs_id {
                    kept.push(src[j]);
                }
                j += 1;
            }
            proof {
                assert(src@.take(src@.len() as int) =~= src@);
                assert(kept@ == ids_without(cur.1@, docs_id));
            }
            if kept.len() > 0 {
                let ghost before = names@;
                proof {
                    assert(!kept@.contains(docs_id)) by {
                        if kept@.contains(docs_id) {
                            let m = choose|m: int| 0 <= m < kept@.len() && kept@[m] == docs_id;
                        }
                    }
                }
                let ghost kept_view = kept@;
                names.push((tok, kept));
                proof {
                    assert forall|a: int, b: int|
                        0 <= a < b < names@.len() implies (#[trigger] names@[a]).0 != (
                        #[trigger] names@[b]).0 by {
                        if b == names@.len() - 1 {
                            let e = choose|e: int|
                                0 <= e < i2 && (#[trigger] self.index_file_names@[e]).0
                                    == before[a].0;
                        }
                    }
                    assert forall|tok2: u64| #![trigger names_find(names@, tok2)] names_find(
                        names@,
                        tok2,
                    ) == (match names_find(self.index_file_names@.take(i2 + 1 as int), tok2) {
                        Some(l) => if ids_without(l, docs_id).len() > 0 {
                            Some(ids_without(l, docs_id))
                        } else {
                            None::<Seq<DocId>>
                        },
                        None => None::<Seq<DocId>>,
                    }) by {
                        assert(names@ =~= before.push(names@.last()));
                        assert(names@.last().1@ == kept_view);
                        lemma_names_find_push_any(before, names@.last(), tok2);
                        lemma_names_find_push_any(
                            self.index_file_names@.take(i2 as int),
                            cur,
                            tok2,
                        );
                        if names_find(before, tok2) is None && tok2 == tok {
                            // the token cannot already stand earlier in the
                            // store: tokens are pairwise distinct
                            if !(names_find(self.index_file_names@.take(i2 as int), tok2)
                                is None) {
                                if forall|e: int|
                                    0 <= e < i2 ==> (#[trigger] self.index_file_names@.take(
                                        i2 as int,
                                    )[e]).0 != tok2 {
                                    lemma_names_find_absent(
                                        self.index_file_names@.take(i2 as int),
                                        tok2,
                                    );
                                }
                                let e = choose|e: int|
                                    0 <= e < i2 && (#[trigger] self.index_file_names@.take(
                                        i2 as int,
                                    )[e]).0 == tok2;
                                assert(self.index_file_names@[e].0 == tok2);
                            }
                        }
                    }
                }
            } else {
                proof {
                    assert forall|tok2: u64| #![trigger names_find(names@, tok2)] names_find(
                        names@,
                        tok2,
                    ) == (match names_find(self.index_file_names@.take(i2 + 1 as int), tok2) {
                        Some(l) => if ids_without(l, docs_id).len() > 0 {
                            Some(ids_without(l, docs_id))
                        } else {
                            None::<Seq<DocId>>
                        },
                        None => None::<Seq<DocId>>,
                    }) by {
                        lemma_names_find_push_any(
                            self.index_file_names@.take(i2 as int),
                            cur,
                            tok2,
                        );
                    }
                }
            }
            i2 += 1;
        }
        proof {
            lemma_names_clean(names@, docs_id);
            assert(self.index_file_names@.take(self.index_file_names@.len() as int)
                =~= self.index_file_names@);
        }
        self.index_file_names = names;

        // drop the path map entries pointing at the id
        let mut ids: Vec<(String, DocId)> = Vec::new();
        let mut i3: usize = 0;
        proof {
            assert(self.doc_ids@.take(0) =~= Seq::<(String, DocId)>::empty());
        }
        while i3 < self.doc_ids.len()
            invariant
                i3 <= self.doc_ids@.len(),
                forall|a: int, b: int|
                    0 <= a < b < self.doc_ids@.len() ==> (#[trigger] self.doc_ids@[a]).0@ != (
                    #[trigger] self.doc_ids@[b]).0@,
                forall|a: int, b: int|
                    0 <= a < b < ids@.len() ==> (#[trigger] ids@[a]).0@ != (#[trigger] ids@[b]).0@,
                forall|a: int|
                    0 <= a < ids@.len() ==> exists|b: int|
                        0 <= b < i3 && (#[trigger] self.doc_ids@[b]).0@ == (
                        #[trigger] ids@[a]).0@,
                forall|pth: Seq<char>|
                    #![trigger id_find(ids@, pth)]
                    id_find(ids@, pth) == (match id_find(self.doc_ids@.take(i3 as int), pth) {
                        Some(v) => if v == docs_id {
                            None
                        } else {
                            Some(v)
                        },
                        None => None::<DocId>,
                    }),
            decreases self.doc_ids@.len() - i3,
        {
            let ghost cur = self.doc_ids@[i3 as int];
            proof {
                assert(self.doc_ids@.take(i3 + 1 as int) =~= self.doc_ids@.take(i3 as int).push(
                    cur,
                ));
            }
            if self.doc_ids[i3].1 != docs_id {
                let ghost before = ids@;
                let key = self.doc_ids[i3].0.clone();
                proof {
                    assert(key@ == self.doc_ids@[i3 as int].0@);
                }
                let entry2 = (key, self.doc_ids[i3].1);
                let ghost entry2_view = entry2;
                ids.push(entry2);
                proof {
                    assert forall|a: int, b: int|
                        0 <= a < b < ids@.len() implies (#[trigger] ids@[a]).0@ != (
                        #[trigger] ids@[b]).0@ by {
                        if b == ids@.len() - 1 {
                            let e = choose|e: int|
                                0 <= e < i3 && (#[trigger] self.doc_ids@[e]).0@ == before[a].0@;
                        }
                    }
                    assert forall|pth: Seq<char>| #![trigger id_find(ids@, pth)] id_find(ids@, pth)
                        == (match id_find(self.doc_ids@.take(i3 + 1 as int), pth) {
                        Some(v) => if v == docs_id {
                            None
                        } else {
                            Some(v)
                        },
                        None => None::<DocId>,
                    }) by {
                        lemma_id_find_push_any(before, entry2_view, pth);
                        lemma_id_find_push_any(self.doc_ids@.take(i3 as int), cur, pth);
                        if id_find(before, pth) is None && entry2_view.0@ == pth {
                            // the path cannot already stand earlier in the
                            // store: paths are pairwise distinct
                            lemma_id_find_absent_iff(self.doc_ids@.take(i3 as int), pth);
                            assert(forall|a: int|
                                0 <= a < i3 ==> (#[trigger] self.doc_ids@.take(i3 as int)[a])
                                    == self.doc_ids@[a]);
                        }
                    }
                }
            } else {
                proof {
                    assert forall|pth: Seq<char>| #![trigger id_find(ids@, pth)] id_find(ids@, pth)
                        == (match id_find(self.doc_ids@.take(i3 + 1 as int), pth) {
                        Some(v) => if v == docs_id {
                            None
                        } else {
                            Some(v)
                        },
                        None => None::<DocId>,
                    }) by {
                        lemma_id_find_push_any(self.doc_ids@.take(i3 as int), cur, pth);
                    }
                }
            }
            i3 += 1;
        }
        proof {
            assert(self.doc_ids@.take(self.doc_ids@.len() as int) =~= self.doc_ids@);
        }
        self.doc_ids = ids;

        // take the document itself out
        let mut pos: usize = 0;
        while pos < self.documents.len() && self.documents[pos].0 != docs_id
            invariant
                pos <= self.documents@.len(),
                forall|j: int| 0 <= j < pos ==> (#[trigger] self.documents@[j]).0 != docs_id,
            decreases self.documents@.len() - pos,
        {
            pos += 1;
        }
        if pos >= self.documents.len() {
            proof {
                lemma_doc_find_absent(self.documents@, docs_id);
            }
            return unreached();
        }
        let ghost before_docs = self.documents@;
        let entry = self.documents.remove(pos);
        proof {
            lemma_doc_find_at(before_docs, pos as int);
            before_docs.remove_ensures(pos as int);
            assert forall|a: int, b: int|
                0 <= a < b < self.documents@.len() implies (#[trigger] self.documents@[a]).0 != (
            #[trigger] self.documents@[b]).0 by {
                if b < pos {
                } else if a < pos {
                    assert(self.documents@[b] == before_docs[b + 1]);
                } else {
                    assert(self.documents@[a] == before_docs[a + 1]);
                    assert(self.documents@[b] == before_docs[b + 1]);
                }
            }
            assert forall|j: int|
                0 <= j < self.documents@.len() implies (#[trigger] self.documents@[j]).0
                != docs_id by {
                if j < pos {
                } else {
                    assert(self.documents@[j] == before_docs[j + 1]);
                }
            }
            lemma_doc_find_absent(self.documents@, docs_id);
            assert forall|id2: DocId| id2 != docs_id implies doc_find(self.documents@, id2)
                == doc_find(before_docs, id2) by {
                lemma_doc_find_remove(before_docs, pos as int, id2);
                assert(self.documents@ =~= before_docs.remove(pos as int));
            }
        }
        entry.1
    }

    /// Adds a document under a fresh id: the path map, the name-token index
    /// and, for a Lisp source file with content at hand, the content store
    /// are all updated.  A path that is already indexed, or a path whose
    /// token list cannot be counted, is refused.
    pub fn add_document(&mut self, fpath: &str, content: Option<String>) -> (r: Result<
        DocId,
        BackendError,
    >)
        requires
            old(self).wf(),
            old(self).root_spec() is Some,
            crate::parsing::starts_with_spec(fpath@, old(self).root_spec().unwrap()),
        ensures
            final(self).wf(),
            final(self).root_spec() == old(self).root_spec(),
            r matches Ok(id) ==> {
                let rel = crate::file::rel_path_spec(old(self).root_spec().unwrap(), fpath@);
                &&& doc_find(old(self).documents@, id) is None
                &&& (doc_find(final(self).documents@, id) matches Some(d) && d.path_spec() == rel)
                &&& id_find(final(self).doc_ids@, rel) == Some(id)
            },
            // the id is fresh: above every id the store held
            r matches Ok(id) ==> (forall|i: int|
                0 <= i < old(self).documents@.len() ==> (#[trigger] old(self).documents@[i]).0
                    < id),
            // every document already stored is left as it was
            r matches Ok(id) ==> (forall|id2: DocId|
                id2 != id ==> doc_find(final(self).documents@, id2) == doc_find(
                    old(self).documents@,
                    id2,
                )),
            r is Err ==> final(self).documents@ == old(self).documents@,
    {
        let root = match &self.root_folder {
            Some(root) => root.clone(),
            None => {
                proof {
                    assert(false);
                }
                unreached()
            },
        };
        let rel_path = crate::file::to_rel_path(root.as_str(), fpath);
        if let Some(_) = self.lookup_doc_id(rel_path.as_str()) {
            return Err(BackendError(String::from_str("This path is already indexed.")));
        }
        let doc_id = match self.unused_doc_id() {
            Some(id) => id,
            None => {
                return Err(BackendError(String::from_str("The index is full.")));
            },
        };
        proof {
            assert(forall|i: int|
                0 <= i < self.documents@.len() ==> (#[trigger] self.documents@[i]).0 != doc_id);
            lemma_doc_find_absent(self.documents@, doc_id);
        }
        let tokens = crate::text::ngram_tokenize_lowercase(rel_path.as_str(), NGRAM_SIZE);
        if tokens.len() > 0xFFFF_FFFF {
            return Err(BackendError(String::from_str("This path is too long to index.")));
        }
        if crate::file::is_lisp_file(fpath) {
            if let Some(c) = content {
                self.store_content(doc_id, c);
            }
        }
        let doc = Document::new(rel_path.as_str(), &tokens);
        let ghost docs_before = self.documents@;
        self.documents.push((doc_id, doc));
        proof {
            lemma_doc_find_push(docs_before, self.documents@.last(), doc_id);
            assert forall|id2: DocId| id2 != doc_id implies doc_find(self.documents@, id2)
                == doc_find(docs_before, id2) by {
                lemma_doc_find_push_any(docs_before, self.documents@.last(), id2);
                assert(docs_before.push(self.documents@.last()) =~= self.documents@);
            }
            assert forall|a: int, b: int|
                0 <= a < b < self.documents@.len() implies (#[trigger] self.documents@[a]).0 != (
            #[trigger] self.documents@[b]).0 by {
                if b == self.documents@.len() - 1 {
                    assert(docs_before[a].0 < doc_id);
                }
            }
        }
        let ghost ids_before = self.doc_ids@;
        let ghost rel_view = rel_path@;
        self.doc_ids.push((rel_path, doc_id));
        proof {
            lemma_id_find_absent_iff(ids_before, rel_view);
            lemma_id_find_push(ids_before, self.doc_ids@.last(), rel_view);
            assert forall|a: int, b: int|
                0 <= a < b < self.doc_ids@.len() implies (#[trigger] self.doc_ids@[a]).0@ != (
            #[trigger] self.doc_ids@[b]).0@ by {
                if b == self.doc_ids@.len() - 1 {
                    assert(ids_before[a].0@ != rel_view);
                }
            }
        }
        // list the new id under each of its name tokens
        let ghost docs_now = self.documents@;
        let ghost ids_now = self.doc_ids@;
        let ghost contents_now = self.index_file_contents@;
        let mut t: usize = 0;
        while t < tokens.len()
            invariant
                forall|a: int, b: int|
                    0 <= a < b < self.index_file_names@.len() ==> (
                    #[trigger] self.index_file_names@[a]).0 != (
                    #[trigger] self.index_file_names@[b]).0,
                t <= tokens@.len(),
                self.documents@ == docs_now,
                self.doc_ids@ == ids_now,
                self.index_file_contents@ == contents_now,
                self.root_spec() == old(self).root_spec(),
                self.wf(),
            decreases tokens@.len() - t,
        {
            let tok = tokens[t];
            let mut seen = false;
            let mut j: usize = 0;
            while j < t
                invariant
                    j <= t <= tokens@.len(),
                    tok == tokens@[t as int],
                decreases t - j,
            {
                if tokens[j] == tok {
                    seen = true;
                }
                j += 1;
            }
            if !seen {
                self.push_name_entry(tok, doc_id);
            }
            t += 1;
        }
        Ok(doc_id)
    }

    /// Lists the id under the token: appended to the token's list, or a new
    /// entry where the token is new.
    fn push_name_entry(&mut self, tok: u64, doc_id: DocId)
        requires
            forall|a: int, b: int|
                0 <= a < b < old(self).index_file_names@.len() ==> (#[trigger] old(self).index_file_names@[a]).0 != (#[trigger] old(self).index_file_names@[b]).0,
        ensures
            forall|a: int, b: int|
                0 <= a < b < final(self).index_file_names@.len() ==> (#[trigger] final(self).index_file_names@[a]).0 != (#[trigger] final(self).index_file_names@[b]).0,
            final(self).documents@ == old(self).documents@,
            final(self).doc_ids@ == old(self).doc_ids@,
            final(self).index_file_contents@ == old(self).index_file_contents@,
            final(self).root_spec() == old(self).root_spec(),
    {
        let mut i: usize = 0;
        while i < self.index_file_names.len()
            invariant
                i <= self.index_file_names@.len(),
                self.documents@ == old(self).documents@,
                self.doc_ids@ == old(self).doc_ids@,
                self.index_file_contents@ == old(self).index_file_contents@,
                self.root_spec() == old(self).root_spec(),
                forall|a: int, b: int|
                    0 <= a < b < self.index_file_names@.len() ==> (
                    #[trigger] self.index_file_names@[a]).0 != (
                    #[trigger] self.index_file_names@[b]).0,
                forall|j: int| 0 <= j < i ==> (#[trigger] self.index_file_names@[j]).0 != tok,
            decreases self.index_file_names@.len() - i,
        {
            if self.index_file_names[i].0 == tok {
                // copy the list and append the id
                let src = &self.index_file_names[i].1;
                let mut grown: Vec<DocId> = Vec::new();
                let mut j: usize = 0;
                while j < src.len()
                    invariant
                        j <= src@.len(),
                    decreases src@.len() - j,
                {
                    grown.push(src[j]);
                    j += 1;
                }
                grown.push(doc_id);
                let ghost before = self.index_file_names@;
                self.index_file_names.set(i, (tok, grown));
                proof {
                    assert forall|a: int, b: int|
                        0 <= a < b < self.index_file_names@.len() implies (
                    #[trigger] self.index_file_names@[a]).0 != (
                    #[trigger] self.index_file_names@[b]).0 by {
                        assert(self.index_file_names@[a].0 == before[a].0);
                        assert(self.index_file_names@[b].0 == before[b].0);
                    }
                }
                return ;
            }
            i += 1;
        }
        let mut fresh: Vec<DocId> = Vec::new();
        fresh.push(doc_id);
        let ghost before = self.index_file_names@;
        self.index_file_names.push((tok, fresh));
        proof {
            assert forall|a: int, b: int|
                0 <= a < b < self.index_file_names@.len() implies (
            #[trigger] self.index_file_names@[a]).0 != (#[trigger] self.index_file_names@[b]).0 by {
                if b == self.index_file_names@.len() - 1 {
                    assert(before[a].0 != tok);
                }
            }
        }
    }

    /// Stores the content under the id unless one is already stored, as a
    /// fresh insertion does not overwrite.
    fn store_content(&mut self, doc_id: DocId, content: String)
        requires
            old(self).wf(),
        ensures
            final(self).wf(),
            final(self).documents@ == old(self).documents@,
            final(self).doc_ids@ == old(self).doc_ids@,
            final(self).index_file_names@ == old(self).index_file_names@,
            final(self).root_spec() == old(self).root_spec(),
            content_find(old(self).index_file_contents@, doc_id) is None ==> content_find(
                final(self).index_file_contents@,
                doc_id,
            ) == Some(content@),
    {
        let mut i: usize = 0;
        while i < self.index_file_contents.len()
            invariant
                i <= self.index_file_contents@.len(),
                *self == *old(self),
                self.wf(),
                forall|j: int|
                    0 <= j < i ==> (#[trigger] self.index_file_contents@[j]).0 != doc_id,
            decreases self.index_file_contents@.len() - i,
        {
            if self.index_file_contents[i].0 == doc_id {
                proof {
                    lemma_content_find_some(self.index_file_contents@, i as int);
                }
                return ;
            }
            i += 1;
        }
        let ghost before = self.index_file_contents@;
        let ghost cv = content@;
        self.index_file_contents.push((doc_id, content));
        proof {
            lemma_absent_key_not_found_content(before, doc_id);
            lemma_content_find_push(before, self.index_file_contents@.last(), doc_id);
            assert forall|a: int, b: int|
                0 <= a < b < self.index_file_contents@.len() implies (
            #[trigger] self.index_file_contents@[a]).0 != (
            #[trigger] self.index_file_contents@[b]).0 by {
                if b == self.index_file_contents@.len() - 1 {
                    assert(before[a].0 != doc_id);
                }
            }
        }
    }

    /// Replaces the stored content of the file after a write: the old
    /// content entry is dropped and the new one stored.  A path that is not
    /// indexed is passed over.
    pub fn handle_file_content_write(&mut self, file_path: &str, content: String)
        requires
            old(self).wf(),
            old(self).root_spec() is Some,
            crate::parsing::starts_with_spec(file_path@, old(self).root_spec().unwrap()),
        ensures
            final(self).wf(),
            final(self).root_spec() == old(self).root_spec(),
            final(self).documents@ == old(self).documents@,
            final(self).doc_ids@ == old(self).doc_ids@,
    {
        let root = match &self.root_folder {
            Some(root) => root.clone(),
            None => {
                proof {
                    assert(false);
                }
                unreached()
            },
        };
        let rel_path = crate::file::to_rel_path(root.as_str(), file_path);
        let Some(ix) = self.find_by_path(rel_path.as_str()) else { return };
        let doc_id = self.documents[ix].0;
        // drop the stale content entry
        let mut contents: Vec<(DocId, String)> = Vec::new();
        let mut i: usize = 0;
        while i < self.index_file_contents.len()
            invariant
                i <= self.index_file_contents@.len(),
                self.documents@ == old(self).documents@,
                self.doc_ids@ == old(self).doc_ids@,
                self.index_file_names@ == old(self).index_file_names@,
                self.index_file_contents@ == old(self).index_file_contents@,
                self.root_spec() == old(self).root_spec(),
                self.wf(),
                forall|a: int, b: int|
                    0 <= a < b < contents@.len() ==> (#[trigger] contents@[a]).0 != (
                    #[trigger] contents@[b]).0,
                forall|a: int|
                    0 <= a < contents@.len() ==> (#[trigger] contents@[a]).0 != doc_id && (
                    exists|b: int|
                        0 <= b < i && self.index_file_contents@[b] == contents@[a]),
            decreases self.index_file_contents@.len() - i,
        {
            if self.index_file_contents[i].0 != doc_id {
                let ghost before = contents@;
                contents.push(
                    (self.index_file_contents[i].0, self.index_file_contents[i].1.clone()),
                );
                proof {
                    assert forall|a: int|
                        0 <= a < contents@.len() implies (#[trigger] contents@[a]).0 != doc_id
                        && (exists|b: int|
                        0 <= b < i + 1 && self.index_file_contents@[b] == contents@[a]) by {
                        if a < before.len() {
                            assert(contents@[a] == before[a]);
                        } else {
                            assert(contents@[a].0 == self.index_file_contents@[i as int].0);
                        }
                    }
                }
            }
            i += 1;
        }
        proof {
            lemma_absent_key_not_found_content(contents@, doc_id);
        }
        self.index_file_contents = contents;
        self.store_content(doc_id, content);
    }

    /// Removes the document with the given path, where one is indexed.
    pub fn remove_document_if_existing(&mut self, fpath: &str) -> (r: Option<Document>)
        requires
            old(self).wf(),
            old(self).root_spec() is Some,
            crate::parsing::starts_with_spec(fpath@, old(self).root_spec().unwrap()),
        ensures
            final(self).wf(),
            final(self).root_spec() == old(self).root_spec(),
            r matches Some(d) ==> d.path_spec() == crate::file::rel_path_spec(
                old(self).root_spec().unwrap(),
                fpath@,
            ),
    {
        let root = match &self.root_folder {
            Some(root) => root.clone(),
            None => {
                proof {
                    assert(false);
                }
                unreached()
            },
        };
        let rel_path = crate::file::to_rel_path(root.as_str(), fpath);
        match self.find_by_path(rel_path.as_str()) {
            Some(ix) => {
                let id = self.documents[ix].0;
                proof {
                    lemma_doc_find_at(self.documents@, ix as int);
                }
                let d = self.remove_document(id);
                Some(d)
            },
            None => None,
        }
    }

    /// Re-keys one document after its file was renamed or moved: the entry
    /// under the old path is taken out and the file is indexed again under
    /// the new path, keeping its stored content.  An old path that is not
    /// indexed is passed over.
    pub fn handle_file_path_change(&mut self, file_path_old: &str, file_path_new: &str)
        requires
            old(self).wf(),
            old(self).root_spec() is Some,
            crate::parsing::starts_with_spec(file_path_old@, old(self).root_spec().unwrap()),
            crate::parsing::starts_with_spec(file_path_new@, old(self).root_spec().unwrap()),
        ensures
            final(self).wf(),
            final(self).root_spec() == old(self).root_spec(),
    {
        let root = match &self.root_folder {
            Some(root) => root.clone(),
            None => {
                proof {
                    assert(false);
                }
                unreached()
            },
        };
        let rel_old = crate::file::to_rel_path(root.as_str(), file_path_old);
        match self.find_by_path(rel_old.as_str()) {
            Some(ix) => {
                let id = self.documents[ix].0;
                proof {
                    lemma_doc_find_at(self.documents@, ix as int);
                }
                let content = self.content_of(id);
                let _removed = self.remove_document(id);
                let _readded = self.add_document(file_path_new, content);
            },
            None => {},
        }
    }

    /// Removes every given file from the index, passing over paths that are
    /// not indexed.
    pub fn handle_files_deletion(&mut self, abs_paths: &Vec<String>)
        requires
            old(self).wf(),
            old(self).root_spec() is Some,
            forall|i: int|
                0 <= i < abs_paths@.len() ==> crate::parsing::starts_with_spec(
                    (#[trigger] abs_paths@[i])@,
                    old(self).root_spec().unwrap(),
                ),
        ensures
            final(self).wf(),
            final(self).root_spec() == old(self).root_spec(),
    {
        let mut i: usize = 0;
        while i < abs_paths.len()
            invariant
                i <= abs_paths@.len(),
                self.wf(),
                self.root_spec() == old(self).root_spec(),
                old(self).root_spec() is Some,
                forall|j: int|
                    0 <= j < abs_paths@.len() ==> crate::parsing::starts_with_spec(
                        (#[trigger] abs_paths@[j])@,
                        old(self).root_spec().unwrap(),
                    ),
            decreases abs_paths@.len() - i,
        {
            let p = abs_paths[i].clone();
            proof {
                assert(p@ == abs_paths@[i as int]@);
            }
            let _removed = self.remove_document_if_existing(p.as_str());
            i += 1;
        }
    }

    /// Re-keys every document under the renamed directory: each one is taken
    /// out and indexed again under the new directory, keeping its stored
    /// content.  A new path that is somehow already indexed is passed over
    /// rather than indexed twice.
    pub fn handle_dir_rename(&mut self, dir_path_old: &str, dir_path_new: &str)
        requires
            old(self).wf(),
            old(self).root_spec() is Some,
            crate::parsing::starts_with_spec(dir_path_old@, old(self).root_spec().unwrap()),
        ensures
            final(self).wf(),
            final(self).root_spec() == old(self).root_spec(),
    {
        let root = match &self.root_folder {
            Some(root) => root.clone(),
            None => {
                proof {
                    assert(false);
                }
                unreached()
            },
        };
        let dir_old_rel = crate::file::to_rel_path(root.as_str(), dir_path_old);
        let doc_ids = self.get_documents_in_dir_rec(dir_old_rel.as_str());
        let mut i: usize = 0;
        while i < doc_ids.len()
            invariant
                i <= doc_ids@.len(),
                self.wf(),
                self.root_spec() == old(self).root_spec(),
                old(self).root_spec() is Some,
                root@ == old(self).root_spec().unwrap(),
            decreases doc_ids@.len() - i,
        {
            let id = doc_ids[i];
            // the document may already be gone; find it again by id
            let mut pos: usize = 0;
            while pos < self.documents.len() && self.documents[pos].0 != id
                invariant
                    pos <= self.documents@.len(),
                decreases self.documents@.len() - pos,
            {
                pos += 1;
            }
            if pos < self.documents.len() {
                proof {
                    lemma_doc_find_at(self.documents@, pos as int);
                }
                let content = self.content_of(id);
                let doc = self.remove_document(id);
                // graft the path onto the new directory
                let old_path = doc.path_str().clone();
                let mut suffix = crate::text::str_chars(old_path.as_str());
                let prefix_len = crate::text::str_chars(dir_old_rel.as_str()).len();
                let mut new_path = String::new();
                new_path.append(dir_path_new);
                new_path.append("/");
                let mut k = if prefix_len <= suffix.len() {
                    prefix_len
                } else {
                    suffix.len()
                };
                while k < suffix.len() && (suffix[k] == '/' || suffix[k] == '\\')
                    invariant
                        k <= suffix@.len(),
                    decreases suffix@.len() - k,
                {
                    k += 1;
                }
                let tail = crate::parsing::copy_text_range(&suffix, k, suffix.len());
                new_path.append(tail.as_str());
                if crate::parsing::str_starts_with(
                    &crate::text::str_chars(new_path.as_str()),
                    root.as_str(),
                ) {
                    let _readded = self.add_document(new_path.as_str(), content);
                }
            }
            i += 1;
        }
    }

    /// The stored content of the document, where there is one.
    fn content_of(&self, id: DocId) -> (r: Option<String>)
        ensures
            match r {
                Some(c) => content_find(self.index_file_contents@, id) == Some(c@),
                None => content_find(self.index_file_contents@, id) is None,
            },
    {
        let mut i: usize = 0;
        proof {
            assert(self.index_file_contents@.skip(0) =~= self.index_file_contents@);
        }
        while i < self.index_file_contents.len()
            invariant
                i <= self.index_file_contents@.len(),
                content_find(self.index_file_contents@.skip(i as int), id) == content_find(
                    self.index_file_contents@,
                    id,
                ),
            decreases self.index_file_contents@.len() - i,
        {
            let ghost rest = self.index_file_contents@.skip(i as int);
            proof {
                assert(rest[0] == self.index_file_contents@[i as int]);
                assert(rest.drop_first() =~= self.index_file_contents@.skip(i + 1 as int));
            }
            if self.index_file_contents[i].0 == id {
                return Some(self.index_file_contents[i].1.clone());
            }
            i += 1;
        }
        proof {
            assert(self.index_file_contents@.skip(self.index_file_contents@.len() as int) =~= Seq::<
                (DocId, String),
            >::empty());
        }
        None
    }

    /// Empties the index and rebuilds it from the given files, each a full
    /// path with the file's content where it could be read.
    pub fn build(&mut self, root_folder: String, files: &Vec<(String, Option<String>)>)
        requires
            forall|i: int|
                0 <= i < files@.len() ==> crate::parsing::starts_with_spec(
                    ((#[trigger] files@[i]).0)@,
                    root_folder@,
                ),
        ensures
            final(self).wf(),
            final(self).root_spec() == Some(root_folder@),
            forall|id: DocId|
                #[trigger] doc_find(final(self).documents@, id) matches Some(d) ==> (exists|i: int|
                    0 <= i < files@.len() && d.path_spec() == crate::file::rel_path_spec(
                        root_folder@,
                        ((#[trigger] files@[i]).0)@,
                    )),
    {
        let ghost root_view = root_folder@;
        self.root_folder = Some(root_folder);
        self.documents = Vec::new();
        self.doc_ids = Vec::new();
        self.index_file_names = Vec::new();
        self.index_file_contents = Vec::new();
        let mut i: usize = 0;
        while i < files.len()
            invariant
                i <= files@.len(),
                self.wf(),
                self.root_spec() == Some(root_view),
                forall|j: int|
                    0 <= j < files@.len() ==> crate::parsing::starts_with_spec(
                        ((#[trigger] files@[j]).0)@,
                        root_view,
                    ),
                forall|id: DocId|
                    #[trigger] doc_find(self.documents@, id) matches Some(d) ==> (exists|j: int|
                        0 <= j < files@.len() && d.path_spec() == crate::file::rel_path_spec(
                            root_view,
                            ((#[trigger] files@[j]).0)@,
                        )),
            decreases files@.len() - i,
        {
            let full = files[i].0.clone();
            let content = match &files[i].1 {
                Some(c) => Some(c.clone()),
                None => None,
            };
            proof {
                assert(full@ == files@[i as int].0@);
            }
            let name = crate::file::path_to_node_name(full.as_str());
            if name.as_str().is_empty() {
                i += 1;
                continue ;
            }
            let ghost docs_prev = self.documents@;
            let added = self.add_document(full.as_str(), content);
            proof {
                assert forall|id: DocId|
                    (#[trigger] doc_find(self.documents@, id)) matches Some(d) ==> (exists|j: int|
                        0 <= j < files@.len() && d.path_spec() == crate::file::rel_path_spec(
                            root_view,
                            ((#[trigger] files@[j]).0)@,
                        )) by {
                    match added {
                        Ok(newid) => {
                            if id != newid {
                                assert(doc_find(self.documents@, id) == doc_find(docs_prev, id));
                            } else {
                                assert(full@ == files@[i as int].0@);
                            }
                        },
                        Err(_) => {
                            assert(doc_find(self.documents@, id) == doc_find(docs_prev, id));
                        },
                    }
                }
            }
            i += 1;
        }
    }

    /// The ids of the documents whose paths lie under the directory.
    pub fn get_documents_in_dir_rec(&self, dir_path: &str) -> (r: Vec<DocId>)
        ensures
            r@ == dir_docs(self.documents@, dir_path@),
    {
        let mut out: Vec<DocId> = Vec::new();
        let mut i: usize = 0;
        proof {
            assert(self.documents@.take(0) =~= Seq::<(DocId, Document)>::empty());
        }
        while i < self.documents.len()
            invariant
                i <= self.documents@.len(),
                out@ == dir_docs(self.documents@.take(i as int), dir_path@),
            decreases self.documents@.len() - i,
        {
            proof {
                assert(self.documents@.take(i + 1 as int).drop_last() =~= self.documents@.take(
                    i as int,
                ));
                assert(self.documents@.take(i + 1 as int).last() == self.documents@[i as int]);
            }
            let chars = crate::text::str_chars(self.documents[i].1.path_str().as_str());
            if crate::parsing::str_starts_with(&chars, dir_path) {
                out.push(self.documents[i].0);
            }
            i += 1;
        }
        proof {
            assert(self.documents@.take(self.documents@.len() as int) =~= self.documents@);
        }
        out
    }

    /// Reorders candidate documents so that the ones with the most n-gram hits
    /// come first; the hit collection itself is kept whole.
    pub fn rank_ngrams(&self, doc_counts: Vec<(DocId, usize)>, mode: crate::fts::models::SearchMode) -> (r: Vec<DocId>)
        ensures
            exists|s: Seq<(DocId, usize)>|
                #![auto]
                s.to_multiset() == doc_counts@.to_multiset() && counts_descending(s) && r@
                    == s.map_values(|p: (DocId, usize)| p.0),
    {
        broadcast use vstd::seq_lib::group_to_multiset_ensures;

        let mut sorted: Vec<(DocId, usize)> = Vec::new();
        let mut i: usize = 0;
        proof {
            assert(doc_counts@.take(0) =~= Seq::<(DocId, usize)>::empty());
            assert(sorted@.to_multiset() =~= doc_counts@.take(0).to_multiset());
        }
        while i < doc_counts.len()
            invariant
                i <= doc_counts@.len(),
                counts_descending(sorted@),
                sorted@.to_multiset() == doc_counts@.take(i as int).to_multiset(),
            decreases doc_counts@.len() - i,
        {
            broadcast use vstd::seq_lib::group_to_multiset_ensures;

            let x = doc_counts[i];
            // the first entry with fewer hits marks the insertion point
            let mut k: usize = 0;
            while k < sorted.len() && sorted[k].1 >= x.1
                invariant
                    k <= sorted@.len(),
                    counts_descending(sorted@),
                    forall|j: int| 0 <= j < k ==> (#[trigger] sorted@[j]).1 >= x.1,
                decreases sorted@.len() - k,
            {
                k += 1;
            }
            let ghost before = sorted@;
            sorted.insert(k, x);
            proof {
                before.insert_ensures(k as int, x);
                assert forall|a: int, b: int|
                    0 <= a < b < sorted@.len() implies (#[trigger] sorted@[a]).1 >= (
                #[trigger] sorted@[b]).1 by {
                    if a == k {
                        if b > k {
                            assert(sorted@[b] == before[b - 1]);
                            assert(before[k as int].1 < x.1);
                        }
                    } else if b == k {
                        assert(sorted@[a] == before[a]);
                    } else if a < k && b < k {
                        assert(sorted@[a] == before[a] && sorted@[b] == before[b]);
                    } else if a < k && b > k {
                        assert(sorted@[a] == before[a] && sorted@[b] == before[b - 1]);
                    } else {
                        assert(sorted@[a] == before[a - 1] && sorted@[b] == before[b - 1]);
                    }
                }
                crate::parsing::lemma_multiset_insert_any(before, x, k as int);
                assert(doc_counts@.take(i + 1 as int) =~= doc_counts@.take(i as int).push(x));
                assert(doc_counts@.take(i as int).push(x).to_multiset() =~= doc_counts@.take(
                    i as int,
                ).to_multiset().insert(x));
            }
            i += 1;
        }
        proof {
            assert(doc_counts@.take(doc_counts@.len() as int) =~= doc_counts@);
        }
        // hand the ids out, best first
        let mut out: Vec<DocId> = Vec::new();
        let mut j: usize = 0;
        proof {
            assert(out@ =~= sorted@.take(0).map_values(|p: (DocId, usize)| p.0));
        }
        while j < sorted.len()
            invariant
                j <= sorted@.len(),
                out@ == sorted@.take(j as int).map_values(|p: (DocId, usize)| p.0),
            decreases sorted@.len() - j,
        {
            out.push(sorted[j].0);
            proof {
                assert(sorted@.take(j + 1 as int).map_values(|p: (DocId, usize)| p.0) =~= sorted@.take(
                    j as int,
                ).map_values(|p: (DocId, usize)| p.0).push(sorted@[j as int].0));
            }
            j += 1;
        }
        proof {
            assert(sorted@.take(sorted@.len() as int) =~= sorted@);
        }
        out
    }
}




/// An entry carrying the key makes the key found.
proof fn lemma_content_find_some(s: Seq<(DocId, String)>, ix: int)
    requires
        0 <= ix < s.len(),
    ensures
        content_find(s, s[ix].0) is Some,
    decreases ix,
{
    if ix > 0 && s[0].0 != s[ix].0 {
        assert(s.drop_first()[ix - 1] == s[ix]);
        lemma_content_find_some(s.drop_first(), ix - 1);
    }
}

/// Appending a fresh-keyed content entry makes its key found as pushed.
proof fn lemma_content_find_push(s: Seq<(DocId, String)>, p: (DocId, String), k: DocId)
    requires
        content_find(s, k) is None,
        p.0 == k,
    ensures
        content_find(s.push(p), k) == Some(p.1@),
    decreases s.len(),
{
    if s.len() > 0 {
        assert(s.push(p)[0] == s[0]);
        assert(s.push(p).drop_first() =~= s.drop_first().push(p));
        lemma_content_find_push(s.drop_first(), p, k);
    } else {
        assert(s.push(p)[0] == p);
        assert(s.push(p).drop_first() =~= Seq::<(DocId, String)>::empty());
    }
}

/// What appending any entry does to a content lookup.
proof fn lemma_content_find_push_any(s: Seq<(DocId, String)>, p: (DocId, String), k: DocId)
    ensures
        content_find(s, k) is Some ==> content_find(s.push(p), k) == content_find(s, k),
        content_find(s, k) is None && p.0 == k ==> content_find(s.push(p), k) == Some(p.1@),
        content_find(s, k) is None && p.0 != k ==> content_find(s.push(p), k) is None,
    decreases s.len(),
{
    if s.len() > 0 {
        assert(s.push(p)[0] == s[0]);
        assert(s.push(p).drop_first() =~= s.drop_first().push(p));
        lemma_content_find_push_any(s.drop_first(), p, k);
        if s[0].0 != k {
            assert(content_find(s, k) == content_find(s.drop_first(), k));
            assert(content_find(s.push(p), k) == content_find(s.drop_first().push(p), k));
        }
    } else {
        assert(s.push(p)[0] == p);
        assert(s.push(p).drop_first() =~= Seq::<(DocId, String)>::empty());
    }
    if content_find(s, k) is None && p.0 != k {
        lemma_content_find_none_absent(s, k);
        assert forall|a: int| 0 <= a < s.push(p).len() implies (#[trigger] s.push(p)[a]).0 != k by {
            if a < s.len() {
                assert(s.push(p)[a] == s[a]);
            } else {
                assert(s.push(p)[a] == p);
            }
        }
        lemma_absent_key_not_found_content(s.push(p), k);
    }
}

/// An id that is not found keys no entry.
proof fn lemma_content_find_none_absent(s: Seq<(DocId, String)>, k: DocId)
    requires
        content_find(s, k) is None,
    ensures
        forall|a: int| 0 <= a < s.len() ==> (#[trigger] s[a]).0 != k,
    decreases s.len(),
{
    if s.len() > 0 {
        lemma_content_find_none_absent(s.drop_first(), k);
        assert forall|a: int| 0 <= a < s.len() implies (#[trigger] s[a]).0 != k by {
            if a > 0 {
                assert(s.drop_first()[a - 1] == s[a]);
            }
        }
    }
}

/// What appending any entry does to a path lookup.
proof fn lemma_id_find_push_any(s: Seq<(String, DocId)>, p: (String, DocId), k: Seq<char>)
    ensures
        id_find(s, k) is Some ==> id_find(s.push(p), k) == id_find(s, k),
        id_find(s, k) is None && p.0@ == k ==> id_find(s.push(p), k) == Some(p.1),
        id_find(s, k) is None && p.0@ != k ==> id_find(s.push(p), k) is None,
    decreases s.len(),
{
    if s.len() > 0 {
        assert(s.push(p)[0] == s[0]);
        assert(s.push(p).drop_first() =~= s.drop_first().push(p));
        lemma_id_find_push_any(s.drop_first(), p, k);
        if s[0].0@ != k {
            assert(id_find(s, k) == id_find(s.drop_first(), k));
            assert(id_find(s.push(p), k) == id_find(s.drop_first().push(p), k));
        }
    } else {
        assert(s.push(p)[0] == p);
        assert(s.push(p).drop_first() =~= Seq::<(String, DocId)>::empty());
    }
    if id_find(s, k) is None && p.0@ != k {
        lemma_id_find_absent_iff(s, k);
        assert forall|a: int| 0 <= a < s.push(p).len() implies (#[trigger] s.push(p)[a]).0@ != k by {
            if a < s.len() {
                assert(s.push(p)[a] == s[a]);
            } else {
                assert(s.push(p)[a] == p);
            }
        }
        lemma_id_find_absent_iff(s.push(p), k);
    }
}

/// Taking out an entry with another key leaves a document lookup unchanged.
proof fn lemma_doc_find_remove(s: Seq<(DocId, Document)>, ix: int, k: DocId)
    requires
        0 <= ix < s.len(),
        s[ix].0 != k,
    ensures
        doc_find(s.remove(ix), k) == doc_find(s, k),
    decreases s.len(),
{
    if ix == 0 {
        assert(s.remove(0) =~= s.drop_first());
    } else {
        assert(s.remove(ix)[0] == s[0]);
        assert(s.remove(ix).drop_first() =~= s.drop_first().remove(ix - 1));
        lemma_doc_find_remove(s.drop_first(), ix - 1, k);
    }
}

/// A key no entry carries is not found.
proof fn lemma_absent_key_not_found_content(s: Seq<(DocId, String)>, k: DocId)
    requires
        forall|a: int| 0 <= a < s.len() ==> (#[trigger] s[a]).0 != k,
    ensures
        content_find(s, k) is None,
    decreases s.len(),
{
    if s.len() > 0 {
        assert(s[0].0 != k);
        assert(forall|a: int|
            0 <= a < s.drop_first().len() ==> (#[trigger] s.drop_first()[a]).0 != k);
        lemma_absent_key_not_found_content(s.drop_first(), k);
    }
}

/// What appending any entry does to a document lookup.
proof fn lemma_doc_find_push_any(s: Seq<(DocId, Document)>, p: (DocId, Document), k: DocId)
    ensures
        doc_find(s, k) is Some ==> doc_find(s.push(p), k) == doc_find(s, k),
        doc_find(s, k) is None && p.0 == k ==> doc_find(s.push(p), k) == Some(p.1),
        doc_find(s, k) is None && p.0 != k ==> doc_find(s.push(p), k) is None,
    decreases s.len(),
{
    if s.len() > 0 {
        assert(s.push(p)[0] == s[0]);
        assert(s.push(p).drop_first() =~= s.drop_first().push(p));
        lemma_doc_find_push_any(s.drop_first(), p, k);
        if s[0].0 != k {
            assert(doc_find(s, k) == doc_find(s.drop_first(), k));
            assert(doc_find(s.push(p), k) == doc_find(s.drop_first().push(p), k));
        }
    } else {
        assert(s.push(p)[0] == p);
        assert(s.push(p).drop_first() =~= Seq::<(DocId, Document)>::empty());
    }
    if doc_find(s, k) is None && p.0 != k {
        lemma_doc_find_none_absent(s, k);
        assert forall|a: int| 0 <= a < s.push(p).len() implies (#[trigger] s.push(p)[a]).0 != k by {
            if a < s.len() {
                assert(s.push(p)[a] == s[a]);
            } else {
                assert(s.push(p)[a] == p);
            }
        }
        lemma_doc_find_absent(s.push(p), k);
    }
}

/// An id that finds no document keys no entry.
proof fn lemma_doc_find_none_absent(s: Seq<(DocId, Document)>, k: DocId)
    requires
        doc_find(s, k) is None,
    ensures
        forall|a: int| 0 <= a < s.len() ==> (#[trigger] s[a]).0 != k,
    decreases s.len(),
{
    if s.len() > 0 {
        lemma_doc_find_none_absent(s.drop_first(), k);
        assert forall|a: int| 0 <= a < s.len() implies (#[trigger] s[a]).0 != k by {
            if a > 0 {
                assert(s.drop_first()[a - 1] == s[a]);
            }
        }
    }
}

/// A key no entry carries finds no document.
proof fn lemma_doc_find_absent(s: Seq<(DocId, Document)>, k: DocId)
    requires
        forall|a: int| 0 <= a < s.len() ==> (#[trigger] s[a]).0 != k,
    ensures
        doc_find(s, k) is None,
    decreases s.len(),
{
    if s.len() > 0 {
        assert(s[0].0 != k);
        assert(forall|a: int|
            0 <= a < s.drop_first().len() ==> (#[trigger] s.drop_first()[a]).0 != k);
        lemma_doc_find_absent(s.drop_first(), k);
    }
}

/// With pairwise distinct keys, the find returns the entry at the key.
proof fn lemma_doc_find_at(s: Seq<(DocId, Document)>, ix: int)
    requires
        forall|a: int, b: int| 0 <= a < b < s.len() ==> (#[trigger] s[a]).0 != (#[trigger] s[b]).0,
        0 <= ix < s.len(),
    ensures
        doc_find(s, s[ix].0) == Some(s[ix].1),
    decreases s.len(),
{
    if ix == 0 {
    } else {
        assert(s[0].0 != s[ix].0);
        assert(forall|a: int, b: int|
            0 <= a < b < s.drop_first().len() ==> (#[trigger] s.drop_first()[a]).0 != (
            #[trigger] s.drop_first()[b]).0);
        assert(s.drop_first()[ix - 1] == s[ix]);
        lemma_doc_find_at(s.drop_first(), ix - 1);
    }
}

/// The id list without every occurrence of the id, in order.
pub open spec fn ids_without(l: Seq<DocId>, k: DocId) -> Seq<DocId>
    decreases l.len(),
{
    if l.len() == 0 {
        Seq::empty()
    } else if l.last() == k {
        ids_without(l.drop_last(), k)
    } else {
        ids_without(l.drop_last(), k).push(l.last())
    }
}

/// A token that finds no list keys no entry.
proof fn lemma_names_find_none_absent(s: Seq<(u64, Vec<DocId>)>, k: u64)
    requires
        names_find(s, k) is None,
    ensures
        forall|a: int| 0 <= a < s.len() ==> (#[trigger] s[a]).0 != k,
    decreases s.len(),
{
    if s.len() > 0 {
        lemma_names_find_none_absent(s.drop_first(), k);
        assert forall|a: int| 0 <= a < s.len() implies (#[trigger] s[a]).0 != k by {
            if a > 0 {
                assert(s.drop_first()[a - 1] == s[a]);
            }
        }
    }
}

/// A token no entry carries finds no list.
proof fn lemma_names_find_absent(s: Seq<(u64, Vec<DocId>)>, k: u64)
    requires
        forall|a: int| 0 <= a < s.len() ==> (#[trigger] s[a]).0 != k,
    ensures
        names_find(s, k) is None,
    decreases s.len(),
{
    if s.len() > 0 {
        assert(s[0].0 != k);
        assert(forall|a: int|
            0 <= a < s.drop_first().len() ==> (#[trigger] s.drop_first()[a]).0 != k);
        lemma_names_find_absent(s.drop_first(), k);
    }
}

/// What appending any entry does to a token lookup.
proof fn lemma_names_find_push_any(s: Seq<(u64, Vec<DocId>)>, p: (u64, Vec<DocId>), k: u64)
    ensures
        names_find(s, k) is Some ==> names_find(s.push(p), k) == names_find(s, k),
        names_find(s, k) is None && p.0 == k ==> names_find(s.push(p), k) == Some(p.1@),
        names_find(s, k) is None && p.0 != k ==> names_find(s.push(p), k) is None,
    decreases s.len(),
{
    if s.len() > 0 {
        assert(s.push(p)[0] == s[0]);
        assert(s.push(p).drop_first() =~= s.drop_first().push(p));
        lemma_names_find_push_any(s.drop_first(), p, k);
        if s[0].0 != k {
            assert(names_find(s, k) == names_find(s.drop_first(), k));
            assert(names_find(s.push(p), k) == names_find(s.drop_first().push(p), k));
        }
    } else {
        assert(s.push(p)[0] == p);
        assert(s.push(p).drop_first() =~= Seq::<(u64, Vec<DocId>)>::empty());
    }
    if names_find(s, k) is None && p.0 != k {
        lemma_names_find_none_absent(s, k);
        assert forall|a: int| 0 <= a < s.push(p).len() implies (#[trigger] s.push(p)[a]).0 != k by {
            if a < s.len() {
                assert(s.push(p)[a] == s[a]);
            } else {
                assert(s.push(p)[a] == p);
            }
        }
        lemma_names_find_absent(s.push(p), k);
    }
}

/// Every found list came from an entry.
proof fn lemma_names_clean(s: Seq<(u64, Vec<DocId>)>, k: DocId)
    requires
        forall|a: int|
            0 <= a < s.len() ==> (#[trigger] s[a]).1@.len() > 0 && !s[a].1@.contains(k),
    ensures
        forall|tok: u64|
            #[trigger] names_find(s, tok) matches Some(l) ==> l.len() > 0 && !l.contains(k),
{
    assert forall|tok: u64|
        (#[trigger] names_find(s, tok) matches Some(l) ==> l.len() > 0 && !l.contains(k)) by {
        lemma_names_find_entry(s, tok, k);
    }
}

/// The found list is some entry's list.
proof fn lemma_names_find_entry(s: Seq<(u64, Vec<DocId>)>, tok: u64, k: DocId)
    requires
        forall|a: int|
            0 <= a < s.len() ==> (#[trigger] s[a]).1@.len() > 0 && !s[a].1@.contains(k),
    ensures
        names_find(s, tok) matches Some(l) ==> l.len() > 0 && !l.contains(k),
    decreases s.len(),
{
    if s.len() > 0 {
        if s[0].0 == tok {
            assert(s[0].1@.len() > 0 && !s[0].1@.contains(k));
        } else {
            assert(forall|a: int|
                0 <= a < s.drop_first().len() ==> (#[trigger] s.drop_first()[a]).1@.len() > 0
                    && !s.drop_first()[a].1@.contains(k));
            lemma_names_find_entry(s.drop_first(), tok, k);
        }
    }
}


/// Whether the hit counts fall from front to back.
pub open spec fn counts_descending(s: Seq<(DocId, usize)>) -> bool {
    forall|a: int, b: int| 0 <= a < b < s.len() ==> (#[trigger] s[a]).1 >= (#[trigger] s[b]).1
}

/// Appending a fresh-keyed entry makes its key found and found as pushed.
proof fn lemma_doc_find_push(s: Seq<(DocId, Document)>, p: (DocId, Document), k: DocId)
    requires
        doc_find(s, k) is None,
        p.0 == k,
    ensures
        doc_find(s.push(p), k) == Some(p.1),
    decreases s.len(),
{
    if s.len() > 0 {
        assert(s.push(p)[0] == s[0]);
        assert(s.push(p).drop_first() =~= s.drop_first().push(p));
        lemma_doc_find_push(s.drop_first(), p, k);
    } else {
        assert(s.push(p)[0] == p);
        assert(s.push(p).drop_first() =~= Seq::<(DocId, Document)>::empty());
    }
}

/// Appending a fresh-keyed entry makes its key found and found as pushed.
proof fn lemma_id_find_push(s: Seq<(String, DocId)>, p: (String, DocId), k: Seq<char>)
    requires
        id_find(s, k) is None,
        p.0@ == k,
    ensures
        id_find(s.push(p), k) == Some(p.1),
    decreases s.len(),
{
    if s.len() > 0 {
        assert(s.push(p)[0] == s[0]);
        assert(s.push(p).drop_first() =~= s.drop_first().push(p));
        lemma_id_find_push(s.drop_first(), p, k);
    } else {
        assert(s.push(p)[0] == p);
        assert(s.push(p).drop_first() =~= Seq::<(String, DocId)>::empty());
    }
}

/// A path is not found exactly when no entry carries it.
proof fn lemma_id_find_absent_iff(s: Seq<(String, DocId)>, k: Seq<char>)
    ensures
        id_find(s, k) is None <==> forall|a: int| 0 <= a < s.len() ==> (#[trigger] s[a]).0@ != k,
    decreases s.len(),
{
    if s.len() > 0 {
        lemma_id_find_absent_iff(s.drop_first(), k);
        if s[0].0@ != k {
            if id_find(s, k) is None {
                assert forall|a: int| 0 <= a < s.len() implies (#[trigger] s[a]).0@ != k by {
                    if a > 0 {
                        assert(s.drop_first()[a - 1] == s[a]);
                    }
                }
            } else {
                let a = choose|a: int|
                    0 <= a < s.drop_first().len() && (#[trigger] s.drop_first()[a]).0@ == k;
                assert(s[a + 1].0@ == k);
            }
        }
    }
}

} // verus!
