//! The completion capability: aggregation of trigger characters at
//! initialization, and dispatch of one completion request to an external
//! one-shot command using the document's shadow file.

use vstd::prelude::*;

use crate::error::Error;
use crate::error::ErrorResponse;
use crate::proxy::Capabilities;
use crate::proxy::PassThrough;
use crate::session::decimal_digits;
use crate::session::u64_to_decimal;

verus! {

/// A completion proxy: the dispatch target, and the characters that trigger
/// completion in the editor.
pub struct Completion {
    pub proxy: PassThrough,
    pub trigger_characters: Option<Vec<String>>,
}

/// What the editor is offered for completion: the aggregated trigger
/// characters, and per-item capabilities.
pub struct CompletionOptions {
    pub trigger_characters: Option<Vec<String>>,
    pub completion_item: Option<CompletionOptionsItem>,
}

/// Per-item completion capabilities offered to the editor.
#[derive(Clone, Copy, PartialEq, Eq, Structural, Debug)]
pub struct CompletionOptionsItem {
    pub label_details_support: Option<bool>,
}

/// The editor's own completion capabilities, relayed at initialization and
/// not consulted by the aggregation.
pub struct CompletionClientCapabilities {}

/// Whether some string in `s` has the contents `t`.
pub open spec fn contains_str(s: Seq<String>, t: Seq<char>) -> bool {
    exists|i: int| 0 <= i < s.len() && s[i]@ == t
}

/// `rest` folded onto `acc`, keeping each string's first occurrence only:
/// the order-preserving set union of trigger-character lists.
pub open spec fn dedup_strs(acc: Seq<String>, rest: Seq<String>) -> Seq<String>
    decreases rest.len(),
{
    if rest.len() == 0 {
        acc
    } else {
        dedup_strs(
            if contains_str(acc, rest[0]@) {
                acc
            } else {
                acc.push(rest[0])
            },
            rest.drop_first(),
        )
    }
}

/// The trigger characters a completion proxy contributes.
pub open spec fn listed_triggers(c: &Completion) -> Seq<String> {
    match c.trigger_characters {
        Some(ts) => ts@,
        None => Seq::<String>::empty(),
    }
}

/// Keeps the first occurrence of each trigger string, in order.
fn dedup_triggers(list: &Vec<String>) -> (r: Vec<String>)
    ensures
        r@ == dedup_strs(Seq::<String>::empty(), list@),
{
    let mut acc: Vec<String> = Vec::new();
    let mut i: usize = 0;
    proof {
        assert(list@.skip(0) =~= list@);
    }
    while i < list.len()
        invariant
            i <= list@.len(),
            dedup_strs(Seq::<String>::empty(), list@) == dedup_strs(acc@, list@.skip(i as int)),
        decreases list@.len() - i,
    {
        proof {
            assert(list@.skip(i as int)[0] == list@[i as int]);
            assert(list@.skip(i as int).drop_first() =~= list@.skip(i as int + 1));
        }
        let mut found = false;
        let mut j: usize = 0;
        while j < acc.len()
            invariant
                j <= acc@.len(),
                found == exists|k: int| 0 <= k < j && acc@[k]@ == list@[i as int]@,
                i < list@.len(),
            decreases acc@.len() - j,
        {
            if acc[j] == list[i] {
                found = true;
            }
            j = j + 1;
        }
        proof {
            assert(found == contains_str(acc@, list@[i as int]@));
        }
        if !found {
            acc.push(list[i].clone());
        }
        i = i + 1;
    }
    proof {
        assert(list@.skip(i as int).len() == 0);
    }
    acc
}

/// The completion capability is offered exactly when a proxy is registered;
/// its trigger characters are the order-preserving union of the registered
/// proxy's list, first occurrences kept, and omitted entirely when that
/// union is empty; label details are supported.
pub open spec fn completion_offer(c: Option<Completion>, r: Option<CompletionOptions>) -> bool {
    match c {
        None => r is None,
        Some(cc) => match r {
            None => false,
            Some(opts) => {
                &&& opts.completion_item == Some(
                    CompletionOptionsItem { label_details_support: Some(true) },
                )
                &&& {
                    let u = dedup_strs(Seq::<String>::empty(), listed_triggers(&cc));
                    if u.len() == 0 {
                        opts.trigger_characters is None
                    } else {
                        opts.trigger_characters matches Some(v) && v@ == u
                    }
                }
            },
        },
    }
}

impl Capabilities for Option<&Completion> {
    type ServerOptions = CompletionOptions;

    type ClientCapabilities = CompletionClientCapabilities;

    /// See [`completion_offer`].
    open spec fn provider_spec(&self, r: Option<CompletionOptions>) -> bool {
        completion_offer(
            match *self {
                Some(c) => Some(*c),
                None => None::<Completion>,
            },
            r,
        )
    }

    fn resolve_provider(self, client: Option<CompletionClientCapabilities>) -> (r: Option<
        CompletionOptions,
    >) {
        match self {
            None => None,
            Some(c) => {
                let triggers: Option<Vec<String>> = match &c.trigger_characters {
                    Some(list) => {
                        let u = dedup_triggers(list);
                        if u.len() == 0 {
                            None
                        } else {
                            Some(u)
                        }
                    },
                    None => None,
                };
                Some(
                    CompletionOptions {
                        trigger_characters: triggers,
                        completion_item: Some(
                            CompletionOptionsItem { label_details_support: Some(true) },
                        ),
                    },
                )
            },
        }
    }
}

/// What one run of the external completion command came to: the bytes it
/// wrote on standard output, or the reason it could not be run at all.
pub enum ExecOutcome {
    Output(Vec<u8>),
    Failed(String),
}

/// The declared shape of the editor-facing completion response: a list of
/// items or an equivalent aggregate. The library relays a value of it
/// without reading inside.
#[verifier::external_type_specification]
#[verifier::external_body]
pub struct ExCompletionResponse(lsp_types::CompletionResponse);

/// Whether a byte string decodes as a completion response. A function of
/// the bytes alone.
pub uninterp spec fn completion_doc(bytes: Seq<u8>) -> bool;

/// Relies on serde_json::from_slice with lsp_types::CompletionResponse:
/// whether the bytes decode into the completion response shape depends on
/// the bytes alone. Nothing further is claimed of the decoded value or of
/// the error's rendering.
#[verifier::external_body]
fn parse_completion(bytes: &Vec<u8>) -> (r: Result<lsp_types::CompletionResponse, String>)
    ensures
        r is Ok <==> completion_doc(bytes@),
{
    serde_json::from_slice::<lsp_types::CompletionResponse>(bytes.as_slice()).map_err(
        |e| e.to_string(),
    )
}

/// The arguments one completion call appends to the command's base form:
/// the shadow path, the zero-based line, the zero-based character, the
/// shadow path again, and a literal "true" flag.
pub open spec fn invocation_args(path: Seq<char>, line: u32, character: u32) -> Seq<Seq<char>> {
    seq![
        path,
        decimal_digits(line as int),
        decimal_digits(character as int),
        path,
        "true"@,
    ]
}

impl Completion {
    /// The command state is well-formed whichever way the proxy dispatches.
    pub open spec fn wf(&self) -> bool {
        match self.proxy {
            PassThrough::ExecCommand(cmd) => cmd.wf(),
            PassThrough::LangServer(cmd) => cmd.wf(),
        }
    }

    /// Appends the arguments of one completion request to the command's
    /// invocation state; the surrounding process then runs the command with
    /// them. Dispatch to a delegated language server is not yet supported
    /// and is rejected: it can produce no response.
    pub fn proxy_invoke(&mut self, shadow_path: &str, line: u32, character: u32) -> (r: Result<
        (),
        Error,
    >)
        requires
            old(self).wf(),
        ensures
            final(self).wf(),
            final(self).trigger_characters == old(self).trigger_characters,
            match old(self).proxy {
                PassThrough::ExecCommand(cmd) => {
                    &&& r is Ok
                    &&& final(self).proxy matches PassThrough::ExecCommand(c2)
                    &&& c2.program == cmd.program
                    &&& c2.base_len == cmd.base_len
                    &&& c2.args.deep_view() == cmd.args.deep_view() + invocation_args(
                        shadow_path@,
                        line,
                        character,
                    )
                },
                PassThrough::LangServer(_) => r == Err::<(), Error>(Error::NoResponse)
                    && final(self).proxy == old(self).proxy,
            },
    {
        match &mut self.proxy {
            PassThrough::ExecCommand(cmd) => {
                let ghost pre = cmd.args.deep_view();
                cmd.args.push(shadow_path.to_owned());
                cmd.args.push(u64_to_decimal(line as u64));
                cmd.args.push(u64_to_decimal(character as u64));
                cmd.args.push(shadow_path.to_owned());
                cmd.args.push("true".to_owned());
                proof {
                    assert(cmd.args.deep_view() =~= pre + invocation_args(
                        shadow_path@,
                        line,
                        character,
                    ));
                }
                Ok(())
            },
            PassThrough::LangServer(_) => Err(Error::NoResponse),
        }
    }

    /// Interprets what one run of the external command produced. A command
    /// that could not be run surfaces the no-response condition; output
    /// that decodes as a completion response is relayed, and only then is
    /// the command's argument list reset to its base form; output that does
    /// not decode surfaces the parse-error condition and resets nothing.
    pub fn proxy_response(&mut self, outcome: ExecOutcome) -> (r: Result<
        Option<lsp_types::CompletionResponse>,
        ErrorResponse,
    >)
        requires
            old(self).wf(),
        ensures
            final(self).wf(),
            final(self).trigger_characters == old(self).trigger_characters,
            match old(self).proxy {
                PassThrough::LangServer(_) => *final(self) == *old(self) && (r matches Err(resp)
                    && resp.code == Error::NoResponse.spec_code() && resp.message@
                    == Error::NoResponse.spec_message()),
                PassThrough::ExecCommand(cmd) => match outcome {
                    ExecOutcome::Failed(why) => {
                        &&& *final(self) == *old(self)
                        &&& r matches Err(resp)
                        &&& resp.code == Error::NoResponse.spec_code()
                        &&& resp.message@ == Error::NoResponse.spec_message()
                        &&& resp.data matches Some(d) && d@ == why@
                    },
                    ExecOutcome::Output(bytes) => {
                        if completion_doc(bytes@) {
                            &&& r matches Ok(Some(_))
                            &&& final(self).proxy matches PassThrough::ExecCommand(c2)
                            &&& c2.program == cmd.program
                            &&& c2.base_len == cmd.base_len
                            &&& c2.args@ == cmd.args@.take(cmd.base_len as int)
                        } else {
                            &&& *final(self) == *old(self)
                            &&& r matches Err(resp)
                            &&& resp.code == Error::ParseError.spec_code()
                            &&& resp.message@ == Error::ParseError.spec_message()
                            &&& resp.data is Some
                        }
                    },
                },
            },
    {
        match &mut self.proxy {
            PassThrough::LangServer(_) => Err(Error::NoResponse.plain()),
            PassThrough::ExecCommand(cmd) => match outcome {
                ExecOutcome::Failed(why) => Err(Error::NoResponse.msg(why.as_str())),
                ExecOutcome::Output(bytes) => match parse_completion(&bytes) {
                    Ok(resp) => {
                        cmd.reset();
                        Ok(Some(resp))
                    },
                    Err(e) => Err(Error::ParseError.msg(e.as_str())),
                },
            },
        }
    }
}

} // verus!
