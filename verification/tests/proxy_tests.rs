//! Tests of completion dispatch: invocation building, outcome
//! interpretation against the real JSON decoder, and argument-state reset.

use lspcat::backend::Backend;
use lspcat::edit::ChangeEvent;
use lspcat::proxy::{Completion, ExecCommand, ExecOutcome, PassThrough};
use lspcat::{Config, ProxyFlags};

fn exec_backend() -> Backend {
    let completion = Completion {
        proxy: PassThrough::ExecCommand(ExecCommand::new(
            "analysis".to_string(),
            vec!["completion".to_string()],
        )),
        trigger_characters: Some(vec![".".to_string()]),
    };
    let mut b = Backend::new(
        "rescript".to_string(),
        ProxyFlags { lang: None, completion: Some(completion) },
        Config { incremental_changes: true },
    );
    assert!(b.initialize(Some(41), "/tmp", "/work", None).is_ok());
    let shadow = b.did_open(
        "/work/a.res".to_string(),
        "rescript".to_string(),
        "let x = 1".to_string(),
        "/work",
    );
    assert!(shadow.is_some());
    b
}

fn current_args(b: &Backend) -> Vec<String> {
    match &b.proxy.completion.as_ref().unwrap().proxy {
        PassThrough::ExecCommand(cmd) => cmd.args.clone(),
        PassThrough::LangServer(cmd) => cmd.args.clone(),
    }
}

#[test]
fn completion_builds_the_invocation_arguments() {
    let mut b = exec_backend();
    let uri = "/work/a.res".to_string();
    assert!(b.completion(&uri, 0, 8).is_ok());
    let shadow = b.files.get(&uri).unwrap().path.clone();
    assert_eq!(
        current_args(&b),
        vec![
            "completion".to_string(),
            shadow.clone(),
            "0".to_string(),
            "8".to_string(),
            shadow,
            "true".to_string(),
        ]
    );
}

#[test]
fn valid_output_is_relayed_and_resets_the_arguments() {
    let mut b = exec_backend();
    let uri = "/work/a.res".to_string();
    assert!(b.completion(&uri, 0, 8).is_ok());
    let r = b.completion_finish(ExecOutcome::Output(b"[]".to_vec()));
    let resp = r.expect("an empty item list decodes").expect("a response was produced");
    assert_eq!(serde_json::to_string(&resp).unwrap(), "[]");
    // the accumulated arguments were reset to the base form
    assert_eq!(current_args(&b), vec!["completion".to_string()]);
}

#[test]
fn completion_list_output_is_relayed() {
    let mut b = exec_backend();
    let uri = "/work/a.res".to_string();
    assert!(b.completion(&uri, 0, 8).is_ok());
    let body = br#"{"isIncomplete":false,"items":[{"label":"x"}]}"#.to_vec();
    let r = b.completion_finish(ExecOutcome::Output(body));
    let resp = r.expect("a completion list decodes").expect("a response was produced");
    let round = serde_json::to_value(&resp).unwrap();
    assert_eq!(round["items"][0]["label"], serde_json::Value::String("x".to_string()));
}

#[test]
fn non_json_output_is_a_parse_error_and_resets_nothing() {
    let mut b = exec_backend();
    let uri = "/work/a.res".to_string();
    assert!(b.completion(&uri, 0, 8).is_ok());
    let args_before = current_args(&b);
    let file_before = b.files.get(&uri).unwrap().file.bytes.clone();
    let r = b.completion_finish(ExecOutcome::Output(b"not json".to_vec()));
    let resp = r.expect_err("the output does not decode");
    assert_eq!(resp.code, -32700);
    assert_eq!(resp.message, "Parse error");
    assert!(resp.data.is_some());
    // no state beyond what preceded the call was reset
    assert_eq!(current_args(&b), args_before);
    assert_eq!(b.files.get(&uri).unwrap().file.bytes, file_before);
}

#[test]
fn json_of_the_wrong_shape_is_a_parse_error() {
    let mut b = exec_backend();
    let uri = "/work/a.res".to_string();
    assert!(b.completion(&uri, 0, 8).is_ok());
    let r = b.completion_finish(ExecOutcome::Output(b"42".to_vec()));
    assert_eq!(r.expect_err("a number is not a completion response").code, -32700);
}

#[test]
fn a_spawn_failure_is_no_response() {
    let mut b = exec_backend();
    let uri = "/work/a.res".to_string();
    assert!(b.completion(&uri, 0, 8).is_ok());
    let args_before = current_args(&b);
    let r = b.completion_finish(ExecOutcome::Failed("no such file".to_string()));
    let resp = r.expect_err("the command never ran");
    assert_eq!(resp.code, -32944);
    assert_eq!(resp.message, "No response");
    assert_eq!(resp.data, Some("no such file".to_string()));
    assert_eq!(current_args(&b), args_before);
}

#[test]
fn a_delegated_server_is_not_yet_supported() {
    let completion = Completion {
        proxy: PassThrough::LangServer(ExecCommand::new("server".to_string(), Vec::new())),
        trigger_characters: None,
    };
    let mut b = Backend::new(
        "rescript".to_string(),
        ProxyFlags { lang: None, completion: Some(completion) },
        Config { incremental_changes: true },
    );
    assert!(b.initialize(Some(42), "/tmp", "/work", None).is_ok());
    b.did_open("/work/a.res".to_string(), "rescript".to_string(), "x".to_string(), "/work");
    let r = b.completion(&"/work/a.res".to_string(), 0, 0);
    let resp = r.expect_err("the delegated form is rejected");
    assert_eq!(resp.code, -32944);
    assert_eq!(resp.message, "No response");
}

#[test]
fn a_dropped_change_keeps_the_shadow_current_for_completion() {
    // the scenario the advisory busy flag trades away: an edit arriving
    // during an in-flight application is lost, and the shadow drifts
    let mut b = exec_backend();
    let uri = "/work/a.res".to_string();
    assert!(b.change_begin(&uri));
    let r = b.did_change(&uri, vec![ChangeEvent { range: None, text: "lost".to_string() }]);
    assert!(r.is_none());
    let r = b.change_apply(&uri, Vec::new());
    assert!(matches!(r, Some(Ok(()))));
    assert_eq!(b.files.get(&uri).unwrap().file.bytes, b"let x = 1".to_vec());
}
