//! The data model of the file index: documents with their token
//! frequencies, and the result shapes the search surfaces return.

use vstd::prelude::*;
use crate::models::FileTreeNodeType;

verus! {

/// The id a document is keyed by.
pub type DocId = u32;

/// How often `x` occurs in `s`.
pub open spec fn occ(s: Seq<u64>, x: u64) -> nat
    decreases s.len(),
{
    if s.len() == 0 {
        0
    } else {
        occ(s.drop_last(), x) + (if s.last() == x {
            1nat
        } else {
            0nat
        })
    }
}

/// A value occurs at most as often as the sequence is long.
proof fn lemma_occ_bound(s: Seq<u64>, x: u64)
    ensures
        occ(s, x) <= s.len(),
    decreases s.len(),
{
    if s.len() > 0 {
        lemma_occ_bound(s.drop_last(), x);
    }
}

/// The count stored for a token, scanning from the front.
pub open spec fn tf_find(s: Seq<(u64, u32)>, t: u64) -> Option<u32>
    decreases s.len(),
{
    if s.len() == 0 {
        None
    } else if s[0].0 == t {
        Some(s[0].1)
    } else {
        tf_find(s.drop_first(), t)
    }
}

/// Appending an entry with a fresh key leaves other lookups alone and makes
/// the new key found.
proof fn lemma_tf_find_push(s: Seq<(u64, u32)>, p: (u64, u32), t: u64)
    ensures
        tf_find(s, t) is Some ==> tf_find(s.push(p), t) == tf_find(s, t),
        tf_find(s, t) is None && p.0 == t ==> tf_find(s.push(p), t) == Some(p.1),
        tf_find(s, t) is None && p.0 != t ==> tf_find(s.push(p), t) is None,
    decreases s.len(),
{
    if s.len() > 0 {
        assert(s.push(p)[0] == s[0]);
        assert(s.push(p).drop_first() =~= s.drop_first().push(p));
        lemma_tf_find_push(s.drop_first(), p, t);
        if p.0 != t && tf_find(s, t) is None {
            assert(s[0].0 != t);
            assert(tf_find(s.push(p), t) == tf_find(s.push(p).drop_first(), t));
            assert(tf_find(s.drop_first(), t) is None);
        }
    } else {
        assert(s.push(p)[0] == p);
        assert(s.push(p).drop_first() =~= Seq::<(u64, u32)>::empty());
    }
}

/// One indexed file: its relative path, its lowercased name, how often each
/// token occurs in it, and the tokens of its name.
pub struct Document {
    pub path: String,
    pub name_lower: String,
    term_frequencies: Vec<(u64, u32)>,
    name_tokens: Vec<u64>,
}

impl Document {
    /// The document's relative path.
    pub closed spec fn path_spec(self) -> Seq<char> {
        self.path@
    }

    /// The document's lowercased file name.
    pub closed spec fn name_lower_spec(self) -> Seq<char> {
        self.name_lower@
    }

    /// How often the token occurs in this document, zero where absent.
    pub closed spec fn term_freq_spec(self, t: u64) -> nat {
        match tf_find(self.term_frequencies@, t) {
            Some(c) => c as nat,
            None => 0,
        }
    }

    /// The tokens of the document's name.
    pub closed spec fn name_tokens_spec(self) -> Seq<u64> {
        self.name_tokens@
    }

    /// A document for the given relative path: the name tokens come from
    /// the file name, the term counts from the given tokens.
    pub fn new(path: &str, tokens: &Vec<u64>) -> (r: Self)
        requires
            tokens@.len() <= u32::MAX,
        ensures
            r.path_spec() == path@,
            r.name_lower_spec() == crate::text::lower_of(crate::file::file_name_spec(path@)),
            r.name_tokens_spec() == crate::text::ngrams_of_segs(
                crate::text::split_delims(
                    crate::text::lower_of(crate::file::file_name_spec(path@)),
                ),
                3,
            ),
            forall|t: u64| r.term_freq_spec(t) == occ(tokens@, t),
    {
        let name = crate::file::path_to_node_name(path);
        let name_tokens = crate::text::ngram_tokenize_lowercase(name.as_str(), 3);
        let name_lower = crate::text::lowercase(name.as_str());
        let mut tf: Vec<(u64, u32)> = Vec::new();
        let mut i: usize = 0;
        while i < tokens.len()
            invariant
                i <= tokens@.len(),
                tokens@.len() <= u32::MAX,
                forall|t: u64|
                    tf_find(tf@, t) is Some <==> exists|j: int|
                        0 <= j < i && tokens@[j] == t,
                forall|t: u64|
                    #[trigger] tf_find(tf@, t) matches Some(c) ==> c == occ(tokens@, t),
            decreases tokens@.len() - i,
        {
            let t = tokens[i];
            let mut seen = false;
            let mut j: usize = 0;
            while j < i
                invariant
                    i <= tokens@.len(),
                    j <= i,
                    seen ==> exists|m: int| 0 <= m < i && tokens@[m] == t,
                    !seen ==> forall|m: int| 0 <= m < j ==> tokens@[m] != t,
                    t == tokens@[i as int],
                decreases i - j,
            {
                if tokens[j] == t {
                    seen = true;
                }
                j += 1;
            }
            if !seen {
                let count = count_occurrences(tokens, t);
                let ghost before = tf@;
                proof {
                    lemma_occ_bound(tokens@, t);
                    assert(tf_find(before, t) is None);
                }
                tf.push((t, count));
                proof {
                    assert(tf@ =~= before.push((t, count)));
                    assert forall|u: u64|
                        (#[trigger] tf_find(tf@, u) matches Some(c) ==> c == occ(
                            tokens@,
                            u,
                        )) by {
                        lemma_tf_find_push(before, (t, count), u);
                    }
                    assert forall|u: u64|
                        tf_find(tf@, u) is Some <==> exists|m: int|
                            0 <= m < i + 1 && tokens@[m] == u by {
                        lemma_tf_find_push(before, (t, count), u);
                        if u == t {
                            assert(tokens@[i as int] == u);
                        }
                    }
                }
            } else {
                proof {
                    assert forall|u: u64|
                        tf_find(tf@, u) is Some <==> exists|m: int|
                            0 <= m < i + 1 && tokens@[m] == u by {
                        if u == t {
                            assert(exists|m: int| 0 <= m < i && tokens@[m] == u);
                        }
                    }
                }
            }
            i += 1;
        }
        let r = Document { path: path.to_owned(), name_lower, term_frequencies: tf, name_tokens };
        proof {
            assert forall|t: u64| r.term_freq_spec(t) == occ(tokens@, t) by {
                if tf_find(tf@, t) is None {
                    lemma_occ_absent(tokens@, t);
                }
            }
        }
        r
    }

    /// The document's relative path.
    pub fn path_str(&self) -> (r: &String)
        ensures
            r@ == self.path_spec(),
    {
        &self.path
    }

    /// The document's lowercased file name.
    pub fn name_lower_str(&self) -> (r: &String)
        ensures
            r@ == self.name_lower_spec(),
    {
        &self.name_lower
    }

    /// How often the token occurs in this document.
    pub fn term_freq(&self, token: u64) -> (r: u32)
        ensures
            r == self.term_freq_spec(token),
    {
        let mut i: usize = 0;
        proof {
            assert(self.term_frequencies@.skip(0) =~= self.term_frequencies@);
        }
        while i < self.term_frequencies.len()
            invariant
                i <= self.term_frequencies@.len(),
                tf_find(self.term_frequencies@.skip(i as int), token) == tf_find(
                    self.term_frequencies@,
                    token,
                ),
            decreases self.term_frequencies@.len() - i,
        {
            let ghost rest = self.term_frequencies@.skip(i as int);
            proof {
                assert(rest[0] == self.term_frequencies@[i as int]);
                assert(rest.drop_first() =~= self.term_frequencies@.skip(i + 1 as int));
            }
            if self.term_frequencies[i].0 == token {
                return self.term_frequencies[i].1;
            }
            i += 1;
        }
        proof {
            assert(self.term_frequencies@.skip(self.term_frequencies@.len() as int)
                =~= Seq::<(u64, u32)>::empty());
        }
        0
    }

    /// Whether the token occurs in the document's name.
    pub fn token_is_in_name(&self, token: u64) -> (r: bool)
        ensures
            r == self.name_tokens_spec().contains(token),
    {
        let mut i: usize = 0;
        while i < self.name_tokens.len()
            invariant
                i <= self.name_tokens@.len(),
                forall|j: int| 0 <= j < i ==> self.name_tokens@[j] != token,
            decreases self.name_tokens@.len() - i,
        {
            if self.name_tokens[i] == token {
                return true;
            }
            i += 1;
        }
        false
    }
}

/// A token absent from the list occurs zero times.
proof fn lemma_occ_absent(s: Seq<u64>, x: u64)
    requires
        !s.contains(x),
    ensures
        occ(s, x) == 0,
    decreases s.len(),
{
    if s.len() > 0 {
        assert(!s.drop_last().contains(x)) by {
            if s.drop_last().contains(x) {
                let m = choose|m: int| 0 <= m < s.drop_last().len() && s.drop_last()[m] == x;
                assert(s[m] == x);
            }
        }
        assert(s.last() != x) by {
            assert(s[s.len() - 1] == s.last());
        }
        lemma_occ_absent(s.drop_last(), x);
    }
}

/// Counts how often the token occurs.
fn count_occurrences(tokens: &Vec<u64>, t: u64) -> (r: u32)
    requires
        tokens@.len() <= u32::MAX,
    ensures
        r == occ(tokens@, t),
{
    let mut count: u32 = 0;
    let mut i: usize = 0;
    proof {
        assert(tokens@.take(0) =~= Seq::<u64>::empty());
    }
    while i < tokens.len()
        invariant
            i <= tokens@.len(),
            tokens@.len() <= u32::MAX,
            count == occ(tokens@.take(i as int), t),
        decreases tokens@.len() - i,
    {
        proof {
            lemma_occ_bound(tokens@.take(i as int), t);
            assert(tokens@.take(i + 1 as int).drop_last() =~= tokens@.take(i as int));
            assert(tokens@.take(i + 1 as int).last() == tokens@[i as int]);
        }
        if tokens[i] == t {
            count += 1;
        }
        i += 1;
    }
    proof {
        assert(tokens@.take(tokens@.len() as int) =~= tokens@);
    }
    count
}

/// One file or folder hit of a name search.
#[derive(Debug, Clone)]
pub struct FileFolderSearchResult {
    pub full_path: String,
    pub rel_path: String,
    pub leaf_name: String,
    pub ntype: FileTreeNodeType,
    pub last_mod: String,
}

/// How a file listing is ordered.
#[derive(Debug, Clone, Copy, PartialEq, Eq, Structural)]
pub enum FileSort {
    NameAsc,
    NameDesc,
    LastModAsc,
    LastModDesc,
}

/// What a name search covers: files and folders, or files alone.
#[derive(Debug, Clone, Copy, PartialEq, Eq, Structural)]
pub enum SearchMode {
    FilesFolders,
    Files,
}

/// What kind of entry a path names.
#[derive(Debug, Clone, PartialEq, Eq, Structural)]
pub enum FileType {
    Lisp,
    Dir,
    Fasl,
    Other,
}

/// The hits of a content search inside one file.
#[derive(Debug, Clone)]
pub struct FileContentSearchResultGroup {
    pub path_to_file: String,
    pub file_name: String,
    pub folder_name: String,
    pub matches: Vec<FileContentLineResult>,
}

/// One content hit: the line context and where the hit stands in it.
#[derive(Debug, Clone)]
pub struct FileContentLineResult {
    pub context: String,
    pub line: usize,
    pub col: usize,
}

/// The result of a source-file content search.
#[derive(Debug, Clone)]
pub struct SourceFileSearchResult {
    pub results: Vec<FileContentSearchResultGroup>,
    pub too_many_results: bool,
    pub match_count: usize,
    pub file_match_count: usize,
}

/// One page of a file listing.
#[derive(Debug, Clone)]
pub struct PaginatedFileResult {
    pub files: Vec<FileFolderSearchResult>,
    pub page: usize,
    pub pages_total: usize,
    pub results_total: usize,
}

} // verus!
