//! Bookkeeping of the document index that uploads feed.
//!
//! The index holds one document per chunk identifier. Additions and
//! deletions are staged and take effect only at a commit; adding a
//! chunk that already exists replaces it (delete-then-add upsert). The
//! full-text scoring machinery behind the committed documents belongs
//! to the external search engine; what is tracked and verified here is
//! the document bookkeeping those operations promise: which chunks the
//! index holds after any sequence of stage and commit steps.

use vstd::prelude::*;

use crate::kvmap::KvVec;

verus! {

/// Errors of index operations.
#[derive(PartialEq, Eq, Debug)]
pub enum IndexError {
    /// The search engine rejected an operation.
    Tantivy(String),
    /// Reading or writing the index storage failed.
    Io(String),
    /// A query could not be parsed.
    QueryParse(String),
    /// The index directory could not be opened.
    Directory(String),
}

/// The staged net effect for one chunk: new text, or removal.
pub enum StagedText {
    Put(String),
    Del,
}

impl View for StagedText {
    type V = Option<Seq<char>>;

    open spec fn view(&self) -> Option<Seq<char>> {
        match self {
            StagedText::Put(s) => Some(s@),
            StagedText::Del => None,
        }
    }
}

/// The committed documents after applying the staged effects: a staged
/// put inserts or replaces the chunk, a staged delete removes it, and
/// unstaged chunks stay as they are.
pub open spec fn apply_staged(
    c: Map<Seq<char>, Seq<char>>,
    s: Map<Seq<char>, Option<Seq<char>>>,
) -> Map<Seq<char>, Seq<char>> {
    Map::new(
        |k: Seq<char>|
            if s.contains_key(k) {
                s[k] is Some
            } else {
                c.contains_key(k)
            },
        |k: Seq<char>|
            if s.contains_key(k) {
                s[k]->Some_0
            } else {
                c[k]
            },
    )
}

/// The document store: committed documents by chunk identifier, plus
/// the staged effects of the operations since the last commit.
pub struct TantivyIndex {
    pub data_dir: String,
    pub committed: KvVec<String>,
    pub staged: KvVec<StagedText>,
}

impl TantivyIndex {
    /// At most one entry per chunk, in both tables.
    pub open spec fn wf(self) -> bool {
        self.committed.wf() && self.staged.wf()
    }

    /// The committed documents, by chunk identifier.
    pub open spec fn committed_docs(self) -> Map<Seq<char>, Seq<char>> {
        self.committed@
    }

    /// The staged effects, by chunk identifier.
    pub open spec fn staged_ops(self) -> Map<Seq<char>, Option<Seq<char>>> {
        self.staged@
    }

    /// An index rooted at the given storage directory, holding nothing.
    pub fn new(data_dir: &str) -> (r: Result<TantivyIndex, IndexError>)
        ensures
            match r {
                Ok(ix) => {
                    &&& ix.wf()
                    &&& ix.data_dir@ == data_dir@
                    &&& ix.committed_docs() =~= Map::<Seq<char>, Seq<char>>::empty()
                    &&& ix.staged_ops() =~= Map::<Seq<char>, Option<Seq<char>>>::empty()
                },
                Err(_) => false,
            },
    {
        Ok(
            TantivyIndex {
                data_dir: String::from_str(data_dir),
                committed: KvVec::new(),
                staged: KvVec::new(),
            },
        )
    }

    /// Stages a document under its chunk identifier, replacing any
    /// earlier document with the same identifier (delete-then-add).
    /// Nothing is committed until `commit` is called.
    pub fn add_document(&mut self, chunk_id: &str, text: &str) -> (r: Result<(), IndexError>)
        requires
            old(self).wf(),
        ensures
            r is Ok,
            final(self).wf(),
            final(self).staged_ops() =~= old(self).staged_ops().insert(
                chunk_id@,
                Some(text@),
            ),
            final(self).committed_docs() == old(self).committed_docs(),
            final(self).data_dir == old(self).data_dir,
    {
        self.staged.insert(String::from_str(chunk_id), StagedText::Put(String::from_str(text)));
        Ok(())
    }

    /// Stages the removal of a chunk; removing an absent chunk is not
    /// an error. Nothing is committed until `commit` is called.
    pub fn delete_document(&mut self, chunk_id: &str) -> (r: Result<(), IndexError>)
        requires
            old(self).wf(),
        ensures
            r is Ok,
            final(self).wf(),
            final(self).staged_ops() =~= old(self).staged_ops().insert(chunk_id@, None),
            final(self).committed_docs() == old(self).committed_docs(),
            final(self).data_dir == old(self).data_dir,
    {
        self.staged.insert(String::from_str(chunk_id), StagedText::Del);
        Ok(())
    }

    /// Applies every staged effect to the committed documents and
    /// clears the staging table.
    pub fn commit(&mut self) -> (r: Result<(), IndexError>)
        requires
            old(self).wf(),
        ensures
            r is Ok,
            final(self).wf(),
            final(self).committed_docs() =~= apply_staged(
                old(self).committed_docs(),
                old(self).staged_ops(),
            ),
            final(self).staged_ops() =~= Map::<Seq<char>, Option<Seq<char>>>::empty(),
            final(self).data_dir == old(self).data_dir,
    {
        let ghost c0 = self.committed@;
        let ghost ses = self.staged.entries@;
        proof {
            crate::kvmap::lemma_kv_map_values(ses);
            crate::kvmap::lemma_kv_map_dom(ses);
        }
        let n = self.staged.entries.len();
        let mut i: usize = 0;
        while i < n
            invariant
                n == ses.len(),
                i <= n,
                ses == self.staged.entries@,
                self.data_dir == old(self).data_dir,
                self.staged.wf(),
                self.committed.wf(),
                self.committed@ =~= apply_staged(c0, crate::kvmap::kv_map(ses.take(i as int))),
            decreases n - i,
        {
            let ghost pre = crate::kvmap::kv_map(ses.take(i as int));
            let key = self.staged.entries[i].key.clone();
            let put_text = match &self.staged.entries[i].val {
                StagedText::Put(t) => Some(t.clone()),
                StagedText::Del => None,
            };
            match put_text {
                Some(t) => {
                    self.committed.insert(key, t);
                },
                None => {
                    self.committed.remove(key.as_str());
                },
            }
            proof {
                assert(ses.take(i + 1).drop_last() =~= ses.take(i as int));
                assert(ses.take(i + 1).last() == ses[i as int]);
                assert(crate::kvmap::kv_map(ses.take(i + 1)) == pre.insert(
                    ses[i as int].key@,
                    ses[i as int].val@,
                ));
                assert(self.committed@ =~= apply_staged(
                    c0,
                    pre.insert(ses[i as int].key@, ses[i as int].val@),
                ));
            }
            i = i + 1;
        }
        proof {
            assert(ses.take(n as int) =~= ses);
        }
        self.staged.clear();
        Ok(())
    }

    /// Drops every document, staged and committed alike, in one step.
    pub fn clear(&mut self) -> (r: Result<(), IndexError>)
        ensures
            r is Ok,
            final(self).wf(),
            final(self).committed_docs() =~= Map::<Seq<char>, Seq<char>>::empty(),
            final(self).staged_ops() =~= Map::<Seq<char>, Option<Seq<char>>>::empty(),
            final(self).data_dir == old(self).data_dir,
    {
        self.committed.clear();
        self.staged.clear();
        Ok(())
    }

    /// How many documents are committed.
    pub fn doc_count(&self) -> (r: u64)
        requires
            self.wf(),
        ensures
            r == self.committed_docs().len(),
    {
        let n = self.committed.len();
        n as u64
    }
}

} // verus!
