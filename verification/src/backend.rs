//! The backend: owner of the shadow store, the session directory and the
//! configured capability proxies. It answers the protocol lifecycle —
//! initialize, document opened, document changed, completion, shutdown —
//! while the surrounding process performs the file and subprocess work each
//! decision calls for.

use vstd::prelude::*;
use vstd::string::StrSliceExecFns;
use vstd::string::StringExecFns;
use vstd::utf8::encode_utf8;

use crate::Config;
use crate::Content;
use crate::ContentView;
use crate::ProxyFlags;
use crate::edit::ChangeEvent;
use crate::edit::ErrorKind;
use crate::edit::ShadowFile;
use crate::edit::apply_all_spec;
use crate::edit::change_base;
use crate::edit::change_rest;
use crate::edit::resolve_states_spec;
use crate::edit::sorted_by_offset;
use crate::error::Error;
use crate::error::ErrorResponse;
use crate::proxy::Capabilities;
use crate::proxy::Completion;
use crate::proxy::CompletionClientCapabilities;
use crate::proxy::CompletionOptions;
use crate::proxy::ExecOutcome;
use crate::proxy::PassThrough;
use crate::proxy::completion_offer;
use crate::proxy::invocation_args;
use crate::session::SessionDir;
use crate::session::session_dir_name;
use crate::session::session_path_spec;

verus! {

/// Whether every key in the store appears once.
pub open spec fn unique_keys(s: Seq<(String, Content)>) -> bool {
    forall|i: int, j: int| 0 <= i < j < s.len() ==> s[i].0@ != s[j].0@
}

/// The mapping a list of entries stands for; a later entry for the same key
/// would override an earlier one, though a well-formed store never holds
/// two.
pub open spec fn store_map(s: Seq<(String, Content)>) -> Map<Seq<char>, ContentView>
    decreases s.len(),
{
    if s.len() == 0 {
        Map::<Seq<char>, ContentView>::empty()
    } else {
        store_map(s.drop_last()).insert(s.last().0@, s.last().1@)
    }
}

/// What `store_map` holds of a well-formed entry list: a key is present
/// exactly when some entry carries it, and maps to that entry's value.
proof fn lemma_store_map_props(s: Seq<(String, Content)>)
    requires
        unique_keys(s),
    ensures
        forall|u: Seq<char>|
            store_map(s).contains_key(u) <==> (exists|i: int|
                0 <= i < s.len() && #[trigger] s[i].0@ == u),
        forall|i: int|
            0 <= i < s.len() ==> store_map(s).contains_key(#[trigger] s[i].0@) && store_map(
                s,
            )[s[i].0@] == s[i].1@,
    decreases s.len(),
{
    if s.len() > 0 {
        let t = s.drop_last();
        assert(unique_keys(t)) by {
            assert(forall|i: int, j: int| 0 <= i < j < s.len() - 1 ==> t[i].0@ != t[j].0@);
        }
        lemma_store_map_props(t);
        assert(forall|i: int| 0 <= i < s.len() - 1 ==> t[i] == s[i]);
        assert forall|u: Seq<char>| store_map(s).contains_key(u) implies (exists|i: int|
            0 <= i < s.len() && #[trigger] s[i].0@ == u) by {
            if u == s.last().0@ {
                assert(s[s.len() - 1].0@ == u);
            } else {
                assert(store_map(t).contains_key(u));
                let i = choose|i: int| 0 <= i < t.len() && #[trigger] t[i].0@ == u;
                assert(s[i].0@ == u);
            }
        }
        assert forall|u: Seq<char>| (exists|i: int| 0 <= i < s.len() && #[trigger] s[i].0@ == u)
            implies store_map(s).contains_key(u) by {
            let i = choose|i: int| 0 <= i < s.len() && #[trigger] s[i].0@ == u;
            if i == s.len() - 1 {
            } else {
                assert(t[i].0@ == u);
                assert(store_map(t).contains_key(u));
            }
        }
        assert forall|i: int| 0 <= i < s.len() implies store_map(s).contains_key(
            #[trigger] s[i].0@,
        ) && store_map(s)[s[i].0@] == s[i].1@ by {
            if i == s.len() - 1 {
            } else {
                assert(t[i].0@ == s[i].0@ && t[i].1 == s[i].1);
                assert(store_map(t)[s[i].0@] == s[i].1@);
                assert(s[i].0@ != s.last().0@);
            }
        }
    }
}

/// Removing the entry that carries a key removes exactly that key from the
/// mapping.
proof fn lemma_store_map_remove(s: Seq<(String, Content)>, i: int)
    requires
        unique_keys(s),
        0 <= i < s.len(),
    ensures
        store_map(s.remove(i)) == store_map(s).remove(s[i].0@),
        unique_keys(s.remove(i)),
    decreases s.len(),
{
    lemma_store_map_props(s);
    assert(unique_keys(s.remove(i))) by {
        assert(forall|a: int, b: int|
            0 <= a < b < s.len() - 1 ==> s.remove(i)[a].0@ != s.remove(i)[b].0@) by {
            assert(forall|a: int|
                0 <= a < s.len() - 1 ==> s.remove(i)[a] == (if a < i {
                    s[a]
                } else {
                    s[a + 1]
                }));
        }
    }
    if i == s.len() - 1 {
        assert(s.remove(i) =~= s.drop_last());
        assert(unique_keys(s.drop_last()));
        lemma_store_map_props(s.drop_last());
        assert(!store_map(s.drop_last()).contains_key(s[i].0@));
        assert(store_map(s.remove(i)) =~= store_map(s).remove(s[i].0@));
    } else {
        let t = s.drop_last();
        assert(unique_keys(t)) by {
            assert(forall|a: int, b: int| 0 <= a < b < t.len() ==> t[a] == s[a] && t[b] == s[b]);
        }
        lemma_store_map_remove(t, i);
        assert(s.remove(i).drop_last() =~= t.remove(i));
        assert(s.remove(i).last() == s.last());
        assert(store_map(s.remove(i)) == store_map(t.remove(i)).insert(s.last().0@, s.last().1@));
        assert(store_map(t.remove(i)) == store_map(t).remove(s[i].0@));
        assert(store_map(s) == store_map(t).insert(s.last().0@, s.last().1@));
        assert(t[i] == s[i]);
        assert(s[i].0@ != s.last().0@);
        assert(store_map(t).remove(s[i].0@).insert(s.last().0@, s.last().1@) =~= store_map(
            t,
        ).insert(s.last().0@, s.last().1@).remove(s[i].0@));
    }
}

/// The shadow store: each open document's identifier mapped to its entry,
/// each identifier held once.
pub struct FileStore {
    pub entries: Vec<(String, Content)>,
}

impl View for FileStore {
    type V = Map<Seq<char>, ContentView>;

    open spec fn view(&self) -> Map<Seq<char>, ContentView> {
        store_map(self.entries@)
    }
}

impl FileStore {
    /// Every document identifier is held at most once.
    pub open spec fn wf(&self) -> bool {
        unique_keys(self.entries@)
    }

    /// An empty store.
    pub fn new() -> (s: FileStore)
        ensures
            s.wf(),
            s@ == Map::<Seq<char>, ContentView>::empty(),
    {
        FileStore { entries: Vec::new() }
    }

    /// The index of the entry carrying `uri`, if one does.
    fn find(&self, uri: &String) -> (r: Option<usize>)
        requires
            self.wf(),
        ensures
            match r {
                Some(i) => i < self.entries@.len() && self.entries@[i as int].0@ == uri@
                    && self@.contains_key(uri@),
                None => !self@.contains_key(uri@),
            },
    {
        proof {
            lemma_store_map_props(self.entries@);
        }
        let mut i: usize = 0;
        while i < self.entries.len()
            invariant
                i <= self.entries@.len(),
                forall|k: int| 0 <= k < i ==> self.entries@[k].0@ != uri@,
                self.wf(),
            decreases self.entries@.len() - i,
        {
            if self.entries[i].0 == *uri {
                proof {
                    lemma_store_map_props(self.entries@);
                }
                return Some(i);
            }
            i = i + 1;
        }
        proof {
            lemma_store_map_props(self.entries@);
        }
        None
    }

    /// A borrow of the entry for `uri`, if the document is open.
    pub fn get(&self, uri: &String) -> (r: Option<&Content>)
        requires
            self.wf(),
        ensures
            match r {
                Some(c) => self@.contains_key(uri@) && c@ == self@[uri@],
                None => !self@.contains_key(uri@),
            },
    {
        match self.find(uri) {
            Some(i) => {
                proof {
                    lemma_store_map_props(self.entries@);
                }
                Some(&self.entries[i].1)
            },
            None => None,
        }
    }

    /// Takes the entry for `uri` out of the store, if the document is open.
    pub fn take(&mut self, uri: &String) -> (r: Option<Content>)
        requires
            old(self).wf(),
        ensures
            final(self).wf(),
            match r {
                Some(c) => old(self)@.contains_key(uri@) && c@ == old(self)@[uri@]
                    && final(self)@ == old(self)@.remove(uri@),
                None => !old(self)@.contains_key(uri@) && *final(self) == *old(self),
            },
    {
        match self.find(uri) {
            Some(i) => {
                proof {
                    lemma_store_map_props(self.entries@);
                    lemma_store_map_remove(self.entries@, i as int);
                }
                let (_, c) = self.entries.remove(i);
                Some(c)
            },
            None => None,
        }
    }

    /// Inserts or replaces the entry for `uri`.
    pub fn put(&mut self, uri: String, content: Content)
        requires
            old(self).wf(),
        ensures
            final(self).wf(),
            final(self)@ == old(self)@.insert(uri@, content@),
    {
        let ghost pre = self.entries@;
        match self.find(&uri) {
            Some(i) => {
                proof {
                    lemma_store_map_remove(pre, i as int);
                }
                let _ = self.entries.remove(i);
                let ghost mid = self.entries@;
                self.entries.push((uri, content));
                proof {
                    assert(self.entries@.drop_last() =~= mid);
                    assert(forall|k: int| 0 <= k < mid.len() ==> mid[k].0@ != uri@) by {
                        lemma_store_map_props(mid);
                        assert(!store_map(mid).contains_key(uri@));
                        lemma_store_map_props(mid);
                    }
                    assert(unique_keys(self.entries@)) by {
                        assert(forall|k: int|
                            0 <= k < self.entries@.len() - 1 ==> self.entries@[k] == mid[k]);
                    }
                    assert(store_map(self.entries@) =~= store_map(pre).insert(uri@, content@));
                }
            },
            None => {
                self.entries.push((uri, content));
                proof {
                    assert(self.entries@.drop_last() =~= pre);
                    assert(forall|k: int| 0 <= k < pre.len() ==> pre[k].0@ != uri@) by {
                        lemma_store_map_props(pre);
                    }
                    assert(unique_keys(self.entries@)) by {
                        assert(forall|k: int|
                            0 <= k < self.entries@.len() - 1 ==> self.entries@[k] == pre[k]);
                    }
                }
            },
        }
    }
}

/// How the editor and the backend keep a document's text in step: ranged
/// incremental edits, or the full text on every change.
#[derive(Clone, Copy, PartialEq, Eq, Structural, Debug)]
pub enum TextDocumentSyncKind {
    Full,
    Incremental,
}

/// What the backend offers the editor at initialization.
pub struct ServerCapabilities {
    pub text_document_sync: TextDocumentSyncKind,
    pub completion_provider: Option<CompletionOptions>,
}

/// The response to the editor's initialize request.
pub struct InitializeResult {
    pub capabilities: ServerCapabilities,
}

/// Violations of the session's own discipline, as distinct from
/// request-scoped failures.
#[derive(Clone, Copy, PartialEq, Eq, Structural, Debug)]
pub enum SessionError {
    /// A second attempt to establish the session directory: the set-once
    /// register was already filled.
    AlreadyInitialized,
}

/// Whether a document path lies under the working directory, so that it can
/// be re-rooted under the session directory. The working directory is given
/// without a trailing separator.
pub open spec fn under_cwd(uri: Seq<char>, cwd: Seq<char>) -> bool {
    uri.len() > cwd.len() && uri.subrange(0, cwd.len() as int) == cwd && uri[cwd.len() as int]
        == '/'
}

/// Where a document's shadow file lives: its path relative to the working
/// directory, re-rooted under the session directory.
pub open spec fn shadow_path_spec(td: Seq<char>, uri: Seq<char>, cwd: Seq<char>) -> Seq<char> {
    td + uri.skip(cwd.len() as int)
}

/// What one change event's arrival decides: a missing entry drops the event,
/// a busy entry drops it too, and otherwise the entry is marked busy for the
/// application that follows.
pub open spec fn change_begin_spec(m: Map<Seq<char>, ContentView>, uri: Seq<char>) -> (
    bool,
    Map<Seq<char>, ContentView>,
) {
    if !m.contains_key(uri) {
        (false, m)
    } else if m[uri].busy {
        (false, m)
    } else {
        (true, m.insert(uri, ContentView { busy: true, ..m[uri] }))
    }
}

/// The shadow contents after a change batch is applied: the incremental
/// batch path, or a full overwrite with the first event's text when
/// incremental synchronization is off. A failed batch leaves the batch's
/// base contents.
pub open spec fn change_applied(file: Seq<u8>, changes: Seq<ChangeEvent>, incremental: bool) -> Seq<
    u8,
> {
    if incremental {
        let base = change_base(file, changes);
        let ops = sorted_by_offset(resolve_states_spec(base, change_rest(changes)));
        match apply_all_spec(base, ops) {
            Ok(nb) => nb,
            Err(_) => base,
        }
    } else {
        if changes.len() > 0 {
            encode_utf8(changes[0].text@)
        } else {
            file
        }
    }
}

/// The engine's verdict on a change batch: the batch-apply result in
/// incremental mode, and unconditional success for a full overwrite.
pub open spec fn change_verdict(file: Seq<u8>, changes: Seq<ChangeEvent>, incremental: bool) -> Result<
    (),
    ErrorKind,
> {
    if incremental {
        let base = change_base(file, changes);
        let ops = sorted_by_offset(resolve_states_spec(base, change_rest(changes)));
        match apply_all_spec(base, ops) {
            Ok(_) => Ok(()),
            Err(e) => Err(e),
        }
    } else {
        Ok(())
    }
}

/// How the store moves when a change batch is applied to a document: its
/// contents are rewritten and its busy flag cleared, even when the rewrite
/// failed, so future changes are not permanently blocked.
pub open spec fn change_apply_spec(
    m: Map<Seq<char>, ContentView>,
    uri: Seq<char>,
    changes: Seq<ChangeEvent>,
    incremental: bool,
) -> Map<Seq<char>, ContentView> {
    if !m.contains_key(uri) {
        m
    } else {
        m.insert(
            uri,
            ContentView {
                file: change_applied(m[uri].file, changes, incremental),
                busy: false,
                ..m[uri]
            },
        )
    }
}

/// Busy-drop law: a change event that arrives for a document whose entry
/// is busy with an in-flight application is dropped outright, so the
/// shadow contents after both events equal the contents the first event
/// alone produces. Stated over the store transitions the handlers'
/// contracts use: the first arrival proceeds and marks the entry busy; a
/// second arrival for the same document then decides not to proceed and
/// moves nothing; the first application's result is therefore that of
/// the first batch alone.
pub proof fn lemma_busy_drop(
    m: Map<Seq<char>, ContentView>,
    uri: Seq<char>,
    changes1: Seq<ChangeEvent>,
    incremental: bool,
)
    requires
        m.contains_key(uri),
        !m[uri].busy,
    ensures
        ({
            let first = change_begin_spec(m, uri);
            let second = change_begin_spec(first.1, uri);
            let done = change_apply_spec(second.1, uri, changes1, incremental);
            &&& first.0
            &&& !second.0
            &&& second.1 == first.1
            &&& done == change_apply_spec(first.1, uri, changes1, incremental)
            &&& done[uri].file == change_applied(m[uri].file, changes1, incremental)
            &&& !done[uri].busy
        }),
{
}

/// Round-trip law: opening a document with some text and then applying
/// an identity change batch — one with no change events — leaves its
/// shadow contents equal to that text, in either synchronization mode.
pub proof fn lemma_open_identity_change(
    m: Map<Seq<char>, ContentView>,
    uri: Seq<char>,
    language_id: Seq<char>,
    path: Seq<char>,
    text: Seq<char>,
    incremental: bool,
)
    ensures
        ({
            let opened = m.insert(
                uri,
                ContentView { language_id, path, file: encode_utf8(text), busy: false },
            );
            let begun = change_begin_spec(opened, uri);
            let done = change_apply_spec(
                begun.1,
                uri,
                Seq::<ChangeEvent>::empty(),
                incremental,
            );
            &&& begun.0
            &&& done[uri].file == encode_utf8(text)
            &&& !done[uri].busy
        }),
{
    crate::edit::lemma_identity_batch(encode_utf8(text));
}

/// Whether `s` begins with `prefix`, character for character.
fn str_starts_with(s: &str, prefix: &str) -> (r: bool)
    ensures
        r == (s@.len() >= prefix@.len() && s@.subrange(0, prefix@.len() as int) == prefix@),
{
    let n = prefix.unicode_len();
    if s.unicode_len() < n {
        return false;
    }
    let mut i: usize = 0;
    while i < n
        invariant
            i <= n,
            n == prefix@.len(),
            n <= s@.len(),
            forall|k: int| 0 <= k < i ==> s@[k] == prefix@[k],
        decreases n - i,
    {
        if s.get_char(i) != prefix.get_char(i) {
            proof {
                assert(s@.subrange(0, prefix@.len() as int)[i as int] != prefix@[i as int]);
            }
            return false;
        }
        i = i + 1;
    }
    proof {
        assert(s@.subrange(0, prefix@.len() as int) =~= prefix@);
    }
    true
}

/// The backend: the session directory register, the shadow store, the
/// language tag, the configured proxies, and the runtime options. The only
/// component the transport talks to.
pub struct Backend {
    pub tempdir: SessionDir,
    pub files: FileStore,
    pub lang: String,
    pub proxy: ProxyFlags,
    pub config: Config,
}

impl Backend {
    /// The store holds each document once and the configured command state
    /// is well-formed.
    pub open spec fn wf(&self) -> bool {
        &&& self.files.wf()
        &&& match self.proxy.completion {
            Some(c) => c.wf(),
            None => true,
        }
    }

    /// A backend with no open documents and no session directory.
    pub fn new(lang: String, proxy: ProxyFlags, config: Config) -> (b: Backend)
        requires
            match proxy.completion {
                Some(c) => c.wf(),
                None => true,
            },
        ensures
            b.wf(),
            b.tempdir.path is None,
            b.files@ == Map::<Seq<char>, ContentView>::empty(),
            b.lang == lang,
            b.proxy == proxy,
            b.config == config,
    {
        Backend { tempdir: SessionDir::new(), files: FileStore::new(), lang, proxy, config }
    }

    /// Answers the editor's initialize request: establishes the session
    /// directory when a process id is supplied (the surrounding process then
    /// creates it on disk), and advertises the synchronization mode and the
    /// completion capability the configured proxies support. A second
    /// attempt to establish the directory is refused outright.
    pub fn initialize(
        &mut self,
        process_id: Option<u64>,
        temp_root: &str,
        cwd: &str,
        client: Option<CompletionClientCapabilities>,
    ) -> (r: Result<InitializeResult, SessionError>)
        requires
            old(self).wf(),
        ensures
            final(self).wf(),
            final(self).files == old(self).files,
            final(self).proxy == old(self).proxy,
            final(self).config == old(self).config,
            final(self).lang == old(self).lang,
            match (process_id, old(self).tempdir.path) {
                (Some(pid), Some(_)) => r == Err::<InitializeResult, SessionError>(
                    SessionError::AlreadyInitialized,
                ) && final(self).tempdir == old(self).tempdir,
                (Some(pid), None) => r is Ok && (final(self).tempdir.path matches Some(p) && p@
                    == session_path_spec(temp_root@, pid, cwd@)),
                (None, _) => r is Ok && final(self).tempdir == old(self).tempdir,
            },
            match r {
                Ok(init) => {
                    &&& init.capabilities.text_document_sync == (if old(
                        self,
                    ).config.incremental_changes {
                        TextDocumentSyncKind::Incremental
                    } else {
                        TextDocumentSyncKind::Full
                    })
                    &&& completion_offer(
                        old(self).proxy.completion,
                        init.capabilities.completion_provider,
                    )
                },
                Err(_) => true,
            },
    {
        if let Some(pid) = process_id {
            let name = session_dir_name(pid, cwd);
            let mut path = temp_root.to_owned();
            path.append("/");
            path.append(name.as_str());
            if !self.tempdir.set(path) {
                return Err(SessionError::AlreadyInitialized);
            }
        }
        let completions: Option<&Completion> = self.proxy.completion.as_ref();
        let provider = completions.resolve_provider(client);
        Ok(
            InitializeResult {
                capabilities: ServerCapabilities {
                    text_document_sync: if self.config.incremental_changes {
                        TextDocumentSyncKind::Incremental
                    } else {
                        TextDocumentSyncKind::Full
                    },
                    completion_provider: provider,
                },
            },
        )
    }

    /// Handles a document-opened event: re-roots the document's path under
    /// the session directory and inserts (or replaces) its shadow entry,
    /// freshly written with the document's text. Returns the shadow path the
    /// surrounding process must now materialize on disk. Fails silently —
    /// returning nothing and changing nothing — when the session directory
    /// was never established or the document does not lie under the working
    /// directory.
    pub fn did_open(&mut self, uri: String, language_id: String, text: String, cwd: &str) -> (r:
        Option<String>)
        requires
            old(self).wf(),
        ensures
            final(self).wf(),
            final(self).tempdir == old(self).tempdir,
            final(self).proxy == old(self).proxy,
            final(self).config == old(self).config,
            final(self).lang == old(self).lang,
            match old(self).tempdir.path {
                None => r is None && final(self).files == old(self).files,
                Some(td) => {
                    if under_cwd(uri@, cwd@) {
                        &&& final(self).files@ == old(self).files@.insert(
                            uri@,
                            ContentView {
                                language_id: language_id@,
                                path: shadow_path_spec(td@, uri@, cwd@),
                                file: encode_utf8(text@),
                                busy: false,
                            },
                        )
                        &&& r matches Some(p) && p@ == shadow_path_spec(td@, uri@, cwd@)
                    } else {
                        r is None && final(self).files == old(self).files
                    }
                },
            },
    {
        let td = match self.tempdir.get() {
            None => {
                return None;
            },
            Some(t) => t.clone(),
        };
        let uri_len = uri.as_str().unicode_len();
        let cwd_len = cwd.unicode_len();
        if !str_starts_with(uri.as_str(), cwd) || uri_len <= cwd_len {
            return None;
        }
        if uri.as_str().get_char(cwd_len) != '/' {
            return None;
        }
        let rest = uri.as_str().substring_char(cwd_len, uri_len);
        let mut path = td;
        path.append(rest);
        let content = Content {
            language_id,
            path: path.clone(),
            file: ShadowFile::new(text.as_str().as_bytes_vec()),
            busy: false,
        };
        self.files.put(uri, content);
        Some(path)
    }

    /// The arrival of a change event for a document: decides whether the
    /// event proceeds to application, and marks the entry busy when it does.
    /// An event for a document that is unknown, or whose entry is already
    /// busy with an in-flight application, is dropped — not queued.
    pub fn change_begin(&mut self, uri: &String) -> (proceed: bool)
        requires
            old(self).wf(),
        ensures
            final(self).wf(),
            final(self).tempdir == old(self).tempdir,
            final(self).proxy == old(self).proxy,
            final(self).config == old(self).config,
            final(self).lang == old(self).lang,
            proceed == change_begin_spec(old(self).files@, uri@).0,
            final(self).files@ == change_begin_spec(old(self).files@, uri@).1,
    {
        let ghost m = self.files@;
        match self.files.take(uri) {
            None => false,
            Some(c) => {
                if c.busy {
                    self.files.put(uri.clone(), c);
                    proof {
                        assert(m.remove(uri@).insert(uri@, m[uri@]) =~= m);
                    }
                    false
                } else {
                    let c2 = Content { busy: true, ..c };
                    self.files.put(uri.clone(), c2);
                    proof {
                        assert(m.remove(uri@).insert(uri@, c2@) =~= m.insert(uri@, c2@));
                        assert(c2@ == ContentView { busy: true, ..m[uri@] });
                    }
                    true
                }
            },
        }
    }

    /// Applies a change batch to a document whose entry was marked busy by
    /// `change_begin`: rewrites the shadow contents per the configured
    /// synchronization mode and clears the busy flag, whether or not the
    /// rewrite succeeded. Returns the engine's verdict for the log, or
    /// nothing if the document is unknown.
    pub fn change_apply(&mut self, uri: &String, changes: Vec<ChangeEvent>) -> (r: Option<
        Result<(), ErrorKind>,
    >)
        requires
            old(self).wf(),
        ensures
            final(self).wf(),
            final(self).tempdir == old(self).tempdir,
            final(self).proxy == old(self).proxy,
            final(self).config == old(self).config,
            final(self).lang == old(self).lang,
            final(self).files@ == change_apply_spec(
                old(self).files@,
                uri@,
                changes@,
                old(self).config.incremental_changes,
            ),
            r == (if old(self).files@.contains_key(uri@) {
                Some(change_verdict(
                    old(self).files@[uri@].file,
                    changes@,
                    old(self).config.incremental_changes,
                ))
            } else {
                None::<Result<(), ErrorKind>>
            }),
    {
        let ghost m = self.files@;
        match self.files.take(uri) {
            None => None,
            Some(c) => {
                let mut c = c;
                let ghost f0 = c.file@;
                let res: Result<(), ErrorKind> = if self.config.incremental_changes {
                    c.file.apply_all_changes(changes)
                } else {
                    if changes.len() > 0 {
                        let first = &changes[0];
                        c.file = ShadowFile::new(first.text.as_str().as_bytes_vec());
                        Ok(())
                    } else {
                        Ok(())
                    }
                };
                proof {
                    assert(f0 == m[uri@].file);
                    assert(res == change_verdict(f0, changes@, self.config.incremental_changes))
                        by {
                        if self.config.incremental_changes {
                            let base = change_base(f0, changes@);
                            let ops = sorted_by_offset(
                                resolve_states_spec(base, change_rest(changes@)),
                            );
                            match res {
                                Ok(u) => {
                                    assert(apply_all_spec(base, ops) is Ok);
                                    assert(u == ());
                                },
                                Err(e) => {
                                    assert(apply_all_spec(base, ops) == Err::<Seq<u8>, ErrorKind>(
                                        e,
                                    ));
                                },
                            }
                        }
                    }
                }
                c.busy = false;
                let ghost cv = c@;
                self.files.put(uri.clone(), c);
                proof {
                    assert(cv == ContentView {
                        file: change_applied(
                            m[uri@].file,
                            changes@,
                            self.config.incremental_changes,
                        ),
                        busy: false,
                        ..m[uri@]
                    });
                    assert(m.remove(uri@).insert(uri@, cv) =~= m.insert(uri@, cv));
                }
                Some(res)
            },
        }
    }

    /// Handles a document-changed event in full: the arrival decision, then
    /// — when the event was not dropped — the application. In the live
    /// system the two halves bracket the suspension points of the file
    /// rewrite; an event for the same document arriving between them sees
    /// the busy flag and is dropped.
    pub fn did_change(&mut self, uri: &String, changes: Vec<ChangeEvent>) -> (r: Option<
        Result<(), ErrorKind>,
    >)
        requires
            old(self).wf(),
        ensures
            final(self).wf(),
            final(self).tempdir == old(self).tempdir,
            final(self).proxy == old(self).proxy,
            final(self).config == old(self).config,
            final(self).lang == old(self).lang,
            ({
                let begun = change_begin_spec(old(self).files@, uri@);
                if begun.0 {
                    final(self).files@ == change_apply_spec(
                        begun.1,
                        uri@,
                        changes@,
                        old(self).config.incremental_changes,
                    ) && r == Some(change_verdict(
                        old(self).files@[uri@].file,
                        changes@,
                        old(self).config.incremental_changes,
                    ))
                } else {
                    final(self).files@ == old(self).files@ && r is None
                }
            }),
    {
        if self.change_begin(uri) {
            self.change_apply(uri, changes)
        } else {
            None
        }
    }

    /// Looks a capability request's document up: the configured proxies and
    /// the document's entry, or the not-open failure when the document was
    /// never opened.
    fn get_proxy(&self, uri: &String) -> (r: Result<(&ProxyFlags, &Content), ErrorResponse>)
        requires
            self.wf(),
        ensures
            match r {
                Ok((p, c)) => self.files@.contains_key(uri@) && c@ == self.files@[uri@] && *p
                    == self.proxy,
                Err(resp) => !self.files@.contains_key(uri@) && resp.code
                    == Error::FileNotOpen.spec_code() && resp.message@
                    == Error::FileNotOpen.spec_message() && (resp.data matches Some(d) && d@
                    == uri@),
            },
    {
        match self.files.get(uri) {
            Some(content) => Ok((&self.proxy, content)),
            None => Err(Error::FileNotOpen.msg(uri.as_str())),
        }
    }

    /// Serves a completion request's dispatch: looks the document up, picks
    /// the completion proxy, and appends the invocation arguments — shadow
    /// path, line, character, shadow path, "true" — to the command's state.
    /// The surrounding process then runs the command and hands what it
    /// produced to `completion_finish`. A request for an unopened document
    /// or an unproxied capability is refused and changes nothing.
    pub fn completion(&mut self, uri: &String, line: u32, character: u32) -> (r: Result<
        (),
        ErrorResponse,
    >)
        requires
            old(self).wf(),
        ensures
            final(self).wf(),
            final(self).tempdir == old(self).tempdir,
            final(self).config == old(self).config,
            final(self).lang == old(self).lang,
            final(self).files == old(self).files,
            final(self).proxy.lang == old(self).proxy.lang,
            if !old(self).files@.contains_key(uri@) {
                (r matches Err(resp) && resp.code == Error::FileNotOpen.spec_code()
                    && resp.message@ == Error::FileNotOpen.spec_message() && (
                resp.data matches Some(d) && d@ == uri@)) && final(self).proxy == old(self).proxy
            } else {
                match old(self).proxy.completion {
                    None => (r matches Err(resp) && resp.code == Error::Forbidden.spec_code()
                        && resp.message@ == Error::Forbidden.spec_message() && (
                    resp.data matches Some(d) && d@ == "Missing proxy for code completion"@))
                        && final(self).proxy == old(self).proxy,
                    Some(c) => match c.proxy {
                        PassThrough::ExecCommand(cmd) => {
                            &&& r is Ok
                            &&& final(self).proxy.completion matches Some(c2)
                            &&& c2.trigger_characters == c.trigger_characters
                            &&& c2.proxy matches PassThrough::ExecCommand(cmd2)
                            &&& cmd2.program == cmd.program
                            &&& cmd2.base_len == cmd.base_len
                            &&& cmd2.args.deep_view() == cmd.args.deep_view() + invocation_args(
                                old(self).files@[uri@].path,
                                line,
                                character,
                            )
                        },
                        PassThrough::LangServer(_) => (r matches Err(resp) && resp.code
                            == Error::NoResponse.spec_code() && resp.message@
                            == Error::NoResponse.spec_message())
                            && final(self).proxy == old(self).proxy,
                    },
                }
            },
    {
        let path = match self.get_proxy(uri) {
            Err(resp) => {
                return Err(resp);
            },
            Ok((_, content)) => content.path.clone(),
        };
        match &mut self.proxy.completion {
            None => Err(Error::Forbidden.msg("Missing proxy for code completion")),
            Some(c) => match c.proxy_invoke(path.as_str(), line, character) {
                Ok(()) => Ok(()),
                Err(e) => Err(e.plain()),
            },
        }
    }

    /// Finishes a completion request with what the external command
    /// produced: relays a response that decodes, resetting the command's
    /// arguments to their base form, and surfaces the parse-error or
    /// no-response condition otherwise.
    pub fn completion_finish(&mut self, outcome: ExecOutcome) -> (r: Result<
        Option<lsp_types::CompletionResponse>,
        ErrorResponse,
    >)
        requires
            old(self).wf(),
        ensures
            final(self).wf(),
            final(self).tempdir == old(self).tempdir,
            final(self).config == old(self).config,
            final(self).lang == old(self).lang,
            final(self).files == old(self).files,
            final(self).proxy.lang == old(self).proxy.lang,
            match old(self).proxy.completion {
                None => (r matches Err(resp) && resp.code == Error::Forbidden.spec_code()
                    && resp.message@ == Error::Forbidden.spec_message())
                    && final(self).proxy == old(self).proxy,
                Some(c) => {
                    &&& final(self).proxy.completion matches Some(c2)
                    &&& c2.trigger_characters == c.trigger_characters
                    &&& match c.proxy {
                        PassThrough::LangServer(_) => final(self).proxy == old(self).proxy && (
                        r matches Err(resp) && resp.code == Error::NoResponse.spec_code()
                            && resp.message@ == Error::NoResponse.spec_message()),
                        PassThrough::ExecCommand(cmd) => match outcome {
                            ExecOutcome::Failed(why) => {
                                &&& final(self).proxy == old(self).proxy
                                &&& r matches Err(resp)
                                &&& resp.code == Error::NoResponse.spec_code()
                                &&& resp.message@ == Error::NoResponse.spec_message()
                                &&& resp.data matches Some(d) && d@ == why@
                            },
                            ExecOutcome::Output(bytes) => {
                                if crate::proxy::completion_doc(bytes@) {
                                    &&& r matches Ok(Some(_))
                                    &&& c2.proxy matches PassThrough::ExecCommand(cmd2)
                                    &&& cmd2.program == cmd.program
                                    &&& cmd2.base_len == cmd.base_len
                                    &&& cmd2.args@ == cmd.args@.take(cmd.base_len as int)
                                } else {
                                    &&& final(self).proxy == old(self).proxy
                                    &&& r matches Err(resp)
                                    &&& resp.code == Error::ParseError.spec_code()
                                    &&& resp.message@ == Error::ParseError.spec_message()
                                    &&& resp.data is Some
                                }
                            },
                        },
                    }
                },
            },
    {
        match &mut self.proxy.completion {
            None => Err(Error::Forbidden.msg("Missing proxy for code completion")),
            Some(c) => c.proxy_response(outcome),
        }
    }

    /// Begins the shutdown sequence: the session directory to remove from
    /// disk, if one was ever established. Removal failures are logged by the
    /// surrounding process, never surfaced.
    pub fn shutdown(&self) -> (r: Option<&String>)
        ensures
            match r {
                Some(p) => self.tempdir.path == Some(*p),
                None => self.tempdir.path is None,
            },
    {
        self.tempdir.get()
    }
}

} // verus!
