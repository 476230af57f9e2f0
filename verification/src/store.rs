//! File store: one `File` record per document URI, holding the raw text and
//! the scope spans the scope tracker computed for it.  A record is created
//! on first insert and fully replaced on every later insert for the same
//! URI; when scope computation fails, the record is still stored, with an
//! empty scope list, and the error is surfaced to the caller.
use crate::assoc::distinct_keys;
use crate::assoc::find_key;
use crate::assoc::lemma_distinct_push;
use crate::assoc::lemma_distinct_update;
use crate::assoc::lemma_lookup_absent;
use crate::assoc::lemma_lookup_at;
use crate::assoc::lemma_lookup_push;
use crate::assoc::lemma_lookup_update;
use crate::assoc::lookup;
use crate::scopes::compute_scopes;
use crate::scopes::scope_error_of;
use crate::scopes::scopes_of;
use crate::scopes::spans_model;
use crate::scopes::ScopeError;
use crate::scopes::ScopeSpan;
use crate::scopes::SpanModel;
use vstd::prelude::*;

verus! {

/// One open document: its URI, its full text, and its scope spans.
pub struct File {
    uri: String,
    text: String,
    scopes: Vec<ScopeSpan>,
}

/// Mathematical image of a `File`.
pub ghost struct FileModel {
    pub uri: Seq<char>,
    pub text: Seq<char>,
    pub scopes: Seq<SpanModel>,
}

impl View for File {
    type V = FileModel;

    closed spec fn view(&self) -> FileModel {
        FileModel { uri: self.uri@, text: self.text@, scopes: spans_model(self.scopes@) }
    }
}

/// The record of a document that was never given any content.
pub open spec fn blank_file() -> FileModel {
    FileModel { uri: Seq::empty(), text: Seq::empty(), scopes: Seq::empty() }
}

/// The record `add_file` leaves for a document: the given text, and its
/// scopes when they could be computed, an empty list otherwise.
pub open spec fn stored_file(uri: Seq<char>, text: Seq<char>) -> FileModel {
    FileModel {
        uri,
        text,
        scopes: if scope_error_of(text) is None {
            scopes_of(text)
        } else {
            Seq::empty()
        },
    }
}

impl Default for File {
    /// A blank record: empty URI, empty text, no scopes.
    fn default() -> (r: File)
        ensures
            r@ == blank_file(),
    {
        let r = File { uri: String::new(), text: String::new(), scopes: Vec::new() };
        proof {
            assert(spans_model(r.scopes@) =~= Seq::<SpanModel>::empty());
        }
        r
    }
}

impl Clone for File {
    fn clone(&self) -> (r: Self)
        ensures
            r@ == self@,
    {
        File { uri: self.uri.clone(), text: self.text.clone(), scopes: copy_spans(&self.scopes) }
    }
}

impl File {
    /// A record holding `text`, with no URI and no scopes yet.
    pub fn with_text(text: String) -> (r: File)
        ensures
            r@ == (FileModel { uri: Seq::empty(), text: text@, scopes: Seq::empty() }),
    {
        let r = File { uri: String::new(), text, scopes: Vec::new() };
        proof {
            assert(spans_model(r.scopes@) =~= Seq::<SpanModel>::empty());
        }
        r
    }

    /// The document's URI.
    pub fn uri(&self) -> (r: &String)
        ensures
            r@ == self@.uri,
    {
        &self.uri
    }

    /// The document's full text.
    pub fn text(&self) -> (r: &String)
        ensures
            r@ == self@.text,
    {
        &self.text
    }

    /// The document's scope spans, in opening order.
    pub fn scopes(&self) -> (r: &Vec<ScopeSpan>)
        ensures
            spans_model(r@) == self@.scopes,
    {
        &self.scopes
    }
}

fn copy_spans(v: &Vec<ScopeSpan>) -> (r: Vec<ScopeSpan>)
    ensures
        r@ == v@,
{
    let n = v.len();
    let mut r: Vec<ScopeSpan> = Vec::new();
    let mut i: usize = 0;
    while i < n
        invariant
            n == v@.len(),
            i <= n,
            r@ == v@.take(i as int),
        decreases n - i,
    {
        r.push(v[i]);
        proof {
            assert(r@ =~= v@.take(i as int + 1));
        }
        i = i + 1;
    }
    proof {
        assert(v@.take(n as int) =~= v@);
    }
    r
}

/// The catalog of open documents, one `File` per URI.
pub struct Library {
    catalog: Vec<(String, File)>,
}

impl Library {
    /// The association of URIs to file records this library holds.
    pub closed spec fn files(self) -> Seq<(Seq<char>, FileModel)> {
        self.catalog@.map_values(|p: (String, File)| (p.0@, p.1@))
    }

    /// Every URI is catalogued at most once.
    pub open spec fn wf(self) -> bool {
        distinct_keys(self.files())
    }

    /// An empty library.
    pub fn new() -> (r: Library)
        ensures
            r.wf(),
            r.files() == Seq::<(Seq<char>, FileModel)>::empty(),
    {
        let r = Library { catalog: Self::new_catalog() };
        proof {
            assert(r.files() =~= Seq::<(Seq<char>, FileModel)>::empty());
        }
        r
    }

    fn new_catalog() -> (r: Vec<(String, File)>)
        ensures
            r@.len() == 0,
    {
        Vec::new()
    }

    /// Store (or replace) the record for `filepath` with `text` and its
    /// scopes.  The record is stored even when scope computation fails; the
    /// error is returned to the caller.
    pub fn add_file(&mut self, filepath: String, text: String) -> (r: Result<(), ScopeError>)
        requires
            old(self).wf(),
        ensures
            final(self).wf(),
            forall|k: Seq<char>| #[trigger]
                lookup(final(self).files(), k) == if k == filepath@ {
                    Some(stored_file(filepath@, text@))
                } else {
                    lookup(old(self).files(), k)
                },
            match r {
                Ok(u) => scope_error_of(text@) is None,
                Err(e) => scope_error_of(text@) == Some(e),
            },
    {
        let ghost old_files = self.files();
        let mut file = File { uri: filepath.clone(), text, scopes: Vec::new() };
        proof {
            assert(file@.scopes =~= Seq::<SpanModel>::empty());
        }
        let res = Self::process_scopes(&mut file);
        proof {
            assert(file@ == stored_file(filepath@, file@.text));
        }
        match find_key(&self.catalog, &filepath) {
            Some(i) => {
                proof {
                    assert(old_files[i as int] == (self.catalog@[i as int].0@, self.catalog@[
                        i as int].1@));
                }
                let _ = self.catalog.remove(i);
                self.catalog.insert(i, (filepath, file));
                proof {
                    assert(self.files() =~= old_files.update(
                        i as int,
                        (old_files[i as int].0, self.files()[i as int].1),
                    ));
                    lemma_distinct_update(old_files, i as int, self.files()[i as int].1);
                    assert forall|k: Seq<char>| #[trigger]
                        lookup(self.files(), k) == if k == old_files[i as int].0 {
                            Some(self.files()[i as int].1)
                        } else {
                            lookup(old_files, k)
                        } by {
                        lemma_lookup_update(old_files, i as int, self.files()[i as int].1, k);
                    }
                }
            },
            None => {
                proof {
                    lemma_lookup_absent(old_files, filepath@);
                }
                self.catalog.push((filepath, file));
                proof {
                    let ghost p = self.files()[self.files().len() - 1];
                    assert(self.files() =~= old_files.push(p));
                    lemma_distinct_push(old_files, p);
                    assert forall|k: Seq<char>| #[trigger]
                        lookup(self.files(), k) == if k == p.0 {
                            Some(p.1)
                        } else {
                            lookup(old_files, k)
                        } by {
                        lemma_lookup_push(old_files, p, k);
                    }
                }
            },
        }
        res
    }

    /// A copy of the record under `filepath`, or nothing if never opened.
    pub fn get_file(&self, filepath: String) -> (r: Option<File>)
        requires
            self.wf(),
        ensures
            match r {
                Some(f) => lookup(self.files(), filepath@) == Some(f@),
                None => lookup(self.files(), filepath@) is None,
            },
    {
        match find_key(&self.catalog, &filepath) {
            Some(i) => {
                proof {
                    assert(self.files()[i as int] == (self.catalog@[i as int].0@, self.catalog@[
                        i as int].1@));
                    lemma_lookup_at(self.files(), i as int);
                }
                Some(self.catalog[i].1.clone())
            },
            None => {
                proof {
                    lemma_lookup_absent(self.files(), filepath@);
                }
                None
            },
        }
    }

    /// A copy of the record under `filepath`, or a blank one if never opened.
    pub fn get_file_or_blank(&self, filepath: String) -> (r: File)
        requires
            self.wf(),
        ensures
            r@ == match lookup(self.files(), filepath@) {
                Some(m) => m,
                None => blank_file(),
            },
    {
        match self.get_file(filepath) {
            Some(f) => f,
            None => File::default(),
        }
    }

    /// The scope spans recorded under `filepath`, or nothing if never opened.
    pub fn get_scopes(&self, filepath: String) -> (r: Option<Vec<ScopeSpan>>)
        requires
            self.wf(),
        ensures
            match r {
                Some(v) => match lookup(self.files(), filepath@) {
                    Some(m) => spans_model(v@) == m.scopes,
                    None => false,
                },
                None => lookup(self.files(), filepath@) is None,
            },
    {
        match find_key(&self.catalog, &filepath) {
            Some(i) => {
                proof {
                    assert(self.files()[i as int] == (self.catalog@[i as int].0@, self.catalog@[
                        i as int].1@));
                    lemma_lookup_at(self.files(), i as int);
                }
                Some(copy_spans(&self.catalog[i].1.scopes))
            },
            None => {
                proof {
                    lemma_lookup_absent(self.files(), filepath@);
                }
                None
            },
        }
    }

    /// Recompute the scope spans of `file` from its text.  On success the
    /// spans are stored in the record; on failure the record's spans are
    /// left as they were and the error is returned.
    pub fn process_scopes(file: &mut File) -> (r: Result<(), ScopeError>)
        ensures
            final(file)@.uri == old(file)@.uri,
            final(file)@.text == old(file)@.text,
            match scope_error_of(old(file)@.text) {
                None => r is Ok && final(file)@.scopes == scopes_of(old(file)@.text),
                Some(e) => r == Err::<(), ScopeError>(e) && final(file)@.scopes == old(
                    file,
                )@.scopes,
            },
    {
        match compute_scopes(file.text.as_str()) {
            Ok(v) => {
                file.scopes = v;
                Ok(())
            },
            Err(e) => Err(e),
        }
    }
}

impl Default for Library {
    /// An empty library.
    fn default() -> (r: Library)
        ensures
            r.wf(),
            r.files() == Seq::<(Seq<char>, FileModel)>::empty(),
    {
        Library::new()
    }
}

} // verus!
