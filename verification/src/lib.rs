//! A relay core between a code editor and external language-intelligence
//! providers: it mirrors each open document into a private shadow copy,
//! keeps that copy byte-for-byte synchronized with the editor's incremental
//! edit stream, and dispatches capability requests (completion) to a
//! configured external provider.
//!
//! The transport that frames and routes protocol messages, the command-line
//! layer that builds a [`Config`] and proxy flags, and all file-system and
//! subprocess plumbing live outside this crate; the library holds the
//! verified decision logic they drive.

use vstd::prelude::*;

pub mod backend;
pub mod edit;
pub mod error;
pub mod proxy;
pub mod session;

verus! {

/// Runtime options that the command-line layer hands to the backend.
#[derive(Clone, Copy, PartialEq, Eq, Structural)]
pub struct Config {
    /// When set, document changes arrive as ranged incremental edits and are
    /// applied by the batch edit engine; otherwise every change event carries
    /// the full document text and overwrites the shadow copy.
    pub incremental_changes: bool,
}

impl Default for Config {
    /// Incremental synchronization is off unless the flag enables it.
    fn default() -> (c: Config)
        ensures
            !c.incremental_changes,
    {
        Config { incremental_changes: false }
    }
}

/// The proxies configured for one pipeline segment: a language tag and, for
/// now, at most one completion proxy.
pub struct ProxyFlags {
    pub lang: Option<String>,
    pub completion: Option<proxy::Completion>,
}

/// Per-document state in the shadow store: the language tag that selects a
/// proxy, where the shadow file lives, the shadow file's contents, and the
/// advisory busy flag that guards an in-flight change application.
pub struct Content {
    pub language_id: String,
    pub path: String,
    pub file: edit::ShadowFile,
    pub busy: bool,
}

/// The abstract value of a [`Content`] entry: its strings and file as
/// sequences.
pub struct ContentView {
    pub language_id: Seq<char>,
    pub path: Seq<char>,
    pub file: Seq<u8>,
    pub busy: bool,
}

impl View for Content {
    type V = ContentView;

    open spec fn view(&self) -> ContentView {
        ContentView {
            language_id: self.language_id@,
            path: self.path@,
            file: self.file@,
            busy: self.busy,
        }
    }
}

} // verus!
