//! Capability proxies: the dispatch targets that answer a typed capability
//! request by calling an external provider, using the current shadow-file
//! state. The surrounding process spawns the provider and collects what it
//! wrote; the library builds each invocation and interprets each outcome.

mod completion;

pub use completion::Completion;
pub use completion::CompletionClientCapabilities;
pub use completion::CompletionOptions;
pub use completion::CompletionOptionsItem;
pub use completion::ExecOutcome;
pub use completion::completion_doc;
pub use completion::completion_offer;
pub use completion::contains_str;
pub use completion::dedup_strs;
pub use completion::invocation_args;
pub use completion::listed_triggers;

use vstd::prelude::*;

verus! {

/// The invocation state of an external command: the program, the arguments
/// accumulated so far, and how many of them form the command's base shape.
/// Each call appends its own arguments; a completed call resets the list to
/// the base so the next one does not see stale arguments.
pub struct ExecCommand {
    pub program: String,
    pub args: Vec<String>,
    pub base_len: usize,
}

impl ExecCommand {
    /// The base arguments never outnumber the accumulated ones.
    pub open spec fn wf(&self) -> bool {
        self.base_len <= self.args.len()
    }

    /// A command with the given program and base arguments.
    pub fn new(program: String, base_args: Vec<String>) -> (c: ExecCommand)
        ensures
            c.wf(),
            c.program == program,
            c.args == base_args,
            c.base_len == base_args@.len(),
    {
        let base_len = base_args.len();
        ExecCommand { program, args: base_args, base_len }
    }

    /// Drops every argument accumulated past the base form.
    pub fn reset(&mut self)
        requires
            old(self).wf(),
        ensures
            final(self).wf(),
            final(self).program == old(self).program,
            final(self).base_len == old(self).base_len,
            final(self).args@ == old(self).args@.take(old(self).base_len as int),
    {
        let n = self.base_len;
        self.args.truncate(n);
    }
}

/// How a capability provider is reached: an external one-shot command
/// invoked per request, or a delegated long-lived language-server process.
/// The delegated form is not yet supported and every dispatch to it is
/// rejected, rather than left as a dead code path.
pub enum PassThrough {
    ExecCommand(ExecCommand),
    LangServer(ExecCommand),
}

/// What a set of registered capability proxies offers the editor at
/// initialization. Each implementation says, through `provider_spec`, what
/// must hold of the options it resolves.
pub trait Capabilities {
    type ServerOptions;

    type ClientCapabilities;

    /// What the resolved server options must satisfy.
    spec fn provider_spec(&self, r: Option<Self::ServerOptions>) -> bool;

    /// The capability descriptor offered to the editor, if any proxy is
    /// registered for the capability.
    fn resolve_provider(self, client: Option<Self::ClientCapabilities>) -> (r: Option<
        Self::ServerOptions,
    >)
        ensures
            self.provider_spec(r),
    ;
}

} // verus!
