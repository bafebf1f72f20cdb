//! The rewrite policy: the hard ceiling on returned rows and the single
//! output format the rewriter always injects. Immutable once built; a
//! malformed configuration is rejected at construction, not per request.

use vstd::prelude::*;
use crate::digits::{all_digits, all_digits_exec, digits_val, digits_val_capped};
use crate::text::{is_space_char, is_space_exec, chars_eq, no_semi, str_to_chars, wf_word};

verus! {

/// Rejection of a malformed configuration value.
#[derive(Clone, Copy, Debug, PartialEq, Eq, Structural)]
pub enum PolicyError {
    InvalidPolicyValue,
}

/// A usable forced format: one nonempty word without whitespace or
/// semicolons, and not itself one of the two rewritten keywords.
pub open spec fn wf_format(fmt: Seq<char>) -> bool {
    wf_word(fmt) && no_semi(fmt) && fmt != "LIMIT"@ && fmt != "FORMAT"@
}

/// The configuration of the rewriter: a positive row ceiling and the
/// output format forced onto every query.
pub struct RewritePolicy {
    pub max_rows: u32,
    pub forced_format: String,
}

impl RewritePolicy {
    /// A well-formed policy: a positive ceiling and a usable format word.
    pub open spec fn wf(&self) -> bool {
        self.max_rows >= 1 && wf_format(self.forced_format@)
    }

    /// Builds a policy, rejecting a zero ceiling or an unusable format.
    pub fn new(max_rows: u32, forced_format: String) -> (r: Result<RewritePolicy, PolicyError>)
        ensures
            match r {
                Ok(p) => p.max_rows == max_rows && p.forced_format@ == forced_format@
                    && p.wf(),
                Err(e) => e == PolicyError::InvalidPolicyValue && !(max_rows >= 1
                    && wf_format(forced_format@)),
            },
    {
        if max_rows == 0 {
            return Err(PolicyError::InvalidPolicyValue);
        }
        let fmt = str_to_chars(forced_format.as_str());
        if fmt.len() == 0 {
            return Err(PolicyError::InvalidPolicyValue);
        }
        let mut i: usize = 0;
        while i < fmt.len()
            invariant
                i <= fmt@.len(),
                fmt@ == forced_format@,
                forall|j: int|
                    0 <= j < i ==> !is_space_char(#[trigger] fmt@[j]) && fmt@[j] != ';',
            decreases fmt@.len() - i,
        {
            let c = fmt[i];
            if is_space_exec(c) || c == ';' {
                return Err(PolicyError::InvalidPolicyValue);
            }
            i = i + 1;
        }
        let kw_limit = str_to_chars("LIMIT");
        let kw_format = str_to_chars("FORMAT");
        if chars_eq(&fmt, &kw_limit) || chars_eq(&fmt, &kw_format) {
            return Err(PolicyError::InvalidPolicyValue);
        }
        Ok(RewritePolicy { max_rows, forced_format })
    }

    /// Builds a policy from a textual row ceiling, as configuration hands
    /// it over. The text must be a plain decimal naming a positive value
    /// that fits the ceiling's range.
    pub fn from_args(max_rows_text: &str, forced_format: String) -> (r: Result<
        RewritePolicy,
        PolicyError,
    >)
        ensures
            match r {
                Ok(p) => all_digits(max_rows_text@) && 1 <= digits_val(max_rows_text@)
                    <= 0xFFFF_FFFFu64 && p.max_rows == digits_val(max_rows_text@)
                    && p.forced_format@ == forced_format@ && p.wf(),
                Err(e) => e == PolicyError::InvalidPolicyValue && !(all_digits(max_rows_text@)
                    && 1 <= digits_val(max_rows_text@) <= 0xFFFF_FFFFu64
                    && wf_format(forced_format@)),
            },
    {
        let chars = str_to_chars(max_rows_text);
        if !all_digits_exec(&chars) {
            return Err(PolicyError::InvalidPolicyValue);
        }
        let val = digits_val_capped(&chars, 0xFFFF_FFFF);
        if val == 0 || val > 0xFFFF_FFFF {
            return Err(PolicyError::InvalidPolicyValue);
        }
        RewritePolicy::new(val as u32, forced_format)
    }
}

} // verus!
