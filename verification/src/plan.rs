//! The decision a command invocation leads to: prompt for a query, reply
//! with a rejection, or hand one safely rewritten query to the executor.

use vstd::prelude::*;
use crate::policy::RewritePolicy;
use crate::rewrite::{format_query, spec_rewrite, RewriteError};

verus! {

/// What the command handler should do with one invocation.
pub enum CommandPlan {
    /// Reply with this text and stop; nothing reaches the database.
    Reply(String),
    /// Send exactly this rewritten query to the database.
    Execute(String),
}

/// The prompt shown when no query text was given.
pub open spec fn spec_prompt() -> Seq<char> {
    "Please provide a query"@
}

/// Decides one command invocation: missing text draws a prompt, a
/// rejected query draws its rejection message, and only a successfully
/// rewritten query is ever marked for execution.
pub fn plan_command(query_text: Option<String>, policy: &RewritePolicy) -> (p: CommandPlan)
    requires
        policy.wf(),
    ensures
        match query_text {
            None => p matches CommandPlan::Reply(m) && m@ == spec_prompt(),
            Some(q) => match spec_rewrite(q@, policy.max_rows, policy.forced_format@) {
                Ok(out) => p matches CommandPlan::Execute(s) && s@ == out,
                Err(e) => p matches CommandPlan::Reply(m) && m@ == e.spec_message(),
            },
        },
{
    match query_text {
        None => CommandPlan::Reply(("Please provide a query").to_owned()),
        Some(q) => match format_query(q.as_str(), policy) {
            Ok(s) => CommandPlan::Execute(s),
            Err(e) => CommandPlan::Reply(e.message()),
        },
    }
}

} // verus!
