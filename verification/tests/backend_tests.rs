//! End-to-end tests of the backend: the protocol lifecycle over the shadow
//! store, the session register, and the capability offer.

use lspcat::backend::{Backend, SessionError, TextDocumentSyncKind};
use lspcat::edit::{ChangeEvent, Position, Range};
use lspcat::proxy::{Completion, ExecCommand, PassThrough};
use lspcat::{Config, ProxyFlags};

fn range(sl: u32, sc: u32, el: u32, ec: u32) -> Range {
    Range { start: Position { line: sl, character: sc }, end: Position { line: el, character: ec } }
}

fn incremental_backend(completion: Option<Completion>) -> Backend {
    Backend::new(
        "rescript".to_string(),
        ProxyFlags { lang: None, completion },
        Config { incremental_changes: true },
    )
}

fn exec_completion(triggers: Option<Vec<String>>) -> Completion {
    Completion {
        proxy: PassThrough::ExecCommand(ExecCommand::new(
            "analysis".to_string(),
            vec!["completion".to_string()],
        )),
        trigger_characters: triggers,
    }
}

fn opened_backend(text: &str) -> Backend {
    let mut b = incremental_backend(None);
    assert!(b.initialize(Some(7), "/tmp", "/work", None).is_ok());
    let shadow = b.did_open(
        "/work/a.txt".to_string(),
        "plaintext".to_string(),
        text.to_string(),
        "/work",
    );
    assert!(shadow.is_some());
    b
}

#[test]
fn open_then_replace_word_end_to_end() {
    let mut b = opened_backend("hello world");
    let uri = "/work/a.txt".to_string();
    let r = b.did_change(
        &uri,
        vec![ChangeEvent { range: Some(range(0, 6, 0, 11)), text: "earth".to_string() }],
    );
    assert!(matches!(r, Some(Ok(()))));
    let entry = b.files.get(&uri).expect("document is open");
    assert_eq!(entry.file.bytes, b"hello earth".to_vec());
    assert!(!entry.busy);
}

#[test]
fn open_then_shrinking_replacement_end_to_end() {
    // the replaced span is fully consumed even when the text is shorter
    let mut b = opened_backend("hello world");
    let uri = "/work/a.txt".to_string();
    let r = b.did_change(
        &uri,
        vec![ChangeEvent { range: Some(range(0, 6, 0, 11)), text: "hi".to_string() }],
    );
    assert!(matches!(r, Some(Ok(()))));
    assert_eq!(b.files.get(&uri).unwrap().file.bytes, b"hello hi".to_vec());
}

#[test]
fn open_reroots_the_path_under_the_session_directory() {
    let mut b = incremental_backend(None);
    assert!(b.initialize(Some(7), "/tmp", "/work", None).is_ok());
    let shadow = b
        .did_open(
            "/work/src/a.txt".to_string(),
            "plaintext".to_string(),
            "x".to_string(),
            "/work",
        )
        .expect("path lies under the working directory");
    let session = b.shutdown().expect("session directory is set").clone();
    assert!(session.starts_with("/tmp/lspcat-"));
    assert_eq!(shadow, format!("{}/src/a.txt", session));
}

#[test]
fn open_without_a_session_directory_does_nothing() {
    let mut b = incremental_backend(None);
    // no process id was supplied, so no session directory was established
    assert!(b.initialize(None, "/tmp", "/work", None).is_ok());
    let shadow = b.did_open(
        "/work/a.txt".to_string(),
        "plaintext".to_string(),
        "x".to_string(),
        "/work",
    );
    assert!(shadow.is_none());
    assert!(b.files.get(&"/work/a.txt".to_string()).is_none());
}

#[test]
fn open_outside_the_working_directory_does_nothing() {
    let mut b = incremental_backend(None);
    assert!(b.initialize(Some(7), "/tmp", "/work", None).is_ok());
    let shadow = b.did_open(
        "/elsewhere/a.txt".to_string(),
        "plaintext".to_string(),
        "x".to_string(),
        "/work",
    );
    assert!(shadow.is_none());
    assert!(b.files.get(&"/elsewhere/a.txt".to_string()).is_none());
}

#[test]
fn reopening_a_document_replaces_its_entry() {
    let mut b = opened_backend("first text");
    let uri = "/work/a.txt".to_string();
    let shadow = b.did_open(
        uri.clone(),
        "plaintext".to_string(),
        "second text".to_string(),
        "/work",
    );
    assert!(shadow.is_some());
    let entry = b.files.get(&uri).expect("document is open");
    assert_eq!(entry.file.bytes, b"second text".to_vec());
    assert!(!entry.busy);
}

#[test]
fn change_for_an_unopened_document_is_dropped() {
    let mut b = opened_backend("hello");
    let other = "/work/other.txt".to_string();
    let r = b.did_change(&other, Vec::new());
    assert!(r.is_none());
}

#[test]
fn busy_entry_drops_the_second_change() {
    let mut b = opened_backend("hello world");
    let uri = "/work/a.txt".to_string();
    // the first event arrives and marks the entry busy for its application
    assert!(b.change_begin(&uri));
    // a second event for the same document arrives during that window
    assert!(!b.change_begin(&uri));
    // the first event's application now completes
    let r = b.change_apply(
        &uri,
        vec![ChangeEvent { range: Some(range(0, 6, 0, 11)), text: "earth".to_string() }],
    );
    assert!(matches!(r, Some(Ok(()))));
    // the contents are those of the first event alone: the second is gone
    let entry = b.files.get(&uri).expect("document is open");
    assert_eq!(entry.file.bytes, b"hello earth".to_vec());
    assert!(!entry.busy);
}

#[test]
fn full_sync_overwrites_with_the_first_event() {
    let mut b = Backend::new(
        "rescript".to_string(),
        ProxyFlags { lang: None, completion: None },
        Config { incremental_changes: false },
    );
    assert!(b.initialize(Some(7), "/tmp", "/work", None).is_ok());
    let uri = "/work/a.txt".to_string();
    b.did_open(uri.clone(), "plaintext".to_string(), "old text".to_string(), "/work");
    let r = b.did_change(&uri, vec![ChangeEvent { range: None, text: "whole new".to_string() }]);
    assert!(matches!(r, Some(Ok(()))));
    assert_eq!(b.files.get(&uri).unwrap().file.bytes, b"whole new".to_vec());
}

#[test]
fn completion_without_a_proxy_is_forbidden() {
    let mut b = opened_backend("hello world");
    let uri = "/work/a.txt".to_string();
    let before = b.files.get(&uri).unwrap().file.bytes.clone();
    let r = b.completion(&uri, 0, 6);
    let resp = r.expect_err("no proxy is registered for completion");
    assert_eq!(resp.code, -32903);
    assert_eq!(resp.message, "Forbidden");
    // the shadow file is unaffected
    assert_eq!(b.files.get(&uri).unwrap().file.bytes, before);
}

#[test]
fn completion_for_an_unopened_document_is_refused() {
    let mut b = incremental_backend(Some(exec_completion(None)));
    assert!(b.initialize(Some(7), "/tmp", "/work", None).is_ok());
    let r = b.completion(&"/work/never.txt".to_string(), 0, 0);
    let resp = r.expect_err("the document was never opened");
    assert_eq!(resp.code, -32900);
    assert_eq!(resp.message, "File not yet open");
}

#[test]
fn initialize_twice_is_refused() {
    let mut b = incremental_backend(None);
    assert!(b.initialize(Some(7), "/tmp", "/work", None).is_ok());
    let r = b.initialize(Some(7), "/tmp", "/work", None);
    assert_eq!(r.err(), Some(SessionError::AlreadyInitialized));
}

#[test]
fn initialize_advertises_the_sync_mode() {
    let mut inc = incremental_backend(None);
    let caps = inc.initialize(None, "/tmp", "/work", None).unwrap().capabilities;
    assert_eq!(caps.text_document_sync, TextDocumentSyncKind::Incremental);
    let mut full = Backend::new(
        "rescript".to_string(),
        ProxyFlags { lang: None, completion: None },
        Config::default(),
    );
    let caps = full.initialize(None, "/tmp", "/work", None).unwrap().capabilities;
    assert_eq!(caps.text_document_sync, TextDocumentSyncKind::Full);
}

#[test]
fn initialize_offers_completion_only_with_a_proxy() {
    let mut without = incremental_backend(None);
    let caps = without.initialize(None, "/tmp", "/work", None).unwrap().capabilities;
    assert!(caps.completion_provider.is_none());

    let mut with = incremental_backend(Some(exec_completion(Some(vec![
        ".".to_string(),
        "(".to_string(),
        ".".to_string(),
    ]))));
    let caps = with.initialize(None, "/tmp", "/work", None).unwrap().capabilities;
    let provider = caps.completion_provider.expect("a proxy is registered");
    // the trigger characters are a set union: first occurrences, in order
    assert_eq!(provider.trigger_characters, Some(vec![".".to_string(), "(".to_string()]));
    assert_eq!(
        provider.completion_item.unwrap().label_details_support,
        Some(true)
    );
}

#[test]
fn initialize_omits_empty_trigger_characters() {
    let mut b = incremental_backend(Some(exec_completion(None)));
    let caps = b.initialize(None, "/tmp", "/work", None).unwrap().capabilities;
    let provider = caps.completion_provider.expect("a proxy is registered");
    assert!(provider.trigger_characters.is_none());
}

#[test]
fn shutdown_names_the_session_directory() {
    let mut b = incremental_backend(None);
    assert!(b.shutdown().is_none());
    assert!(b.initialize(Some(9), "/tmp", "/work", None).is_ok());
    let p = b.shutdown().expect("session directory is set");
    assert!(p.starts_with("/tmp/lspcat-"));
}
