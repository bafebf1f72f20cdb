//! The query rewriter: a single statement is inspected word by word, its
//! row limit is injected or clamped down to the policy ceiling, an
//! explicit output format is rejected, and the policy format is appended.
//! The result is re-serialized as canonical, single-spaced text.

use vstd::prelude::*;
use crate::digits::{
    all_digits, all_digits_exec, dec_digits, digits_val, digits_val_capped, u32_to_chars,
};
use crate::policy::RewritePolicy;
use crate::text::{
    chars_eq, chars_to_string, copy_chars, join_words, join_words_exec, single_statement,
    single_statement_exec, split_words, str_to_chars, views_of, words,
};

verus! {

/// A classified rejection of an untrusted query.
///
/// There is no parse-failure kind: the dialect recognized here goes no
/// further than statement shape, LIMIT and FORMAT, so any nonempty
/// single statement is well formed and the rejections below are the
/// only ones possible.
#[derive(Clone, Copy, Debug, PartialEq, Eq, Structural)]
pub enum RewriteError {
    /// The input holds zero statements, or more than one.
    MultiStatement,
    /// A LIMIT clause whose expression is not a plain numeric literal.
    UnsupportedLimit,
    /// The input already carries an explicit output-format clause.
    ExplicitFormat,
}

/// The keyword that introduces a row-limit clause.
pub open spec fn limit_kw() -> Seq<char> {
    "LIMIT"@
}

/// The keyword that introduces an output-format clause.
pub open spec fn format_kw() -> Seq<char> {
    "FORMAT"@
}

/// The index of the last word equal to `kw`, or `-1` if there is none.
pub open spec fn last_kw_index(ws: Seq<Seq<char>>, kw: Seq<char>) -> int
    decreases ws.len(),
{
    if ws.len() == 0 {
        -1
    } else if ws[ws.len() - 1] == kw {
        ws.len() - 1
    } else {
        last_kw_index(ws.drop_last(), kw)
    }
}

/// Whether some word equals `kw`.
pub open spec fn has_word(ws: Seq<Seq<char>>, kw: Seq<char>) -> bool {
    exists|j: int| 0 <= j < ws.len() && ws[j] == kw
}

/// `last_kw_index` points at the last occurrence of `kw`.
pub proof fn lemma_last_kw(ws: Seq<Seq<char>>, kw: Seq<char>)
    ensures
        -1 <= last_kw_index(ws, kw) < ws.len(),
        last_kw_index(ws, kw) >= 0 ==> ws[last_kw_index(ws, kw)] == kw,
        forall|j: int| last_kw_index(ws, kw) < j < ws.len() ==> ws[j] != kw,
    decreases ws.len(),
{
    if ws.len() == 0 {
    } else if ws[ws.len() - 1] == kw {
    } else {
        lemma_last_kw(ws.drop_last(), kw);
        let li = last_kw_index(ws, kw);
        assert forall|j: int| li < j < ws.len() implies ws[j] != kw by {
            if j < ws.len() - 1 {
                assert(ws.drop_last()[j] == ws[j]);
            }
        }
        if li >= 0 {
            assert(ws.drop_last()[li] == ws[li]);
        }
    }
}

/// The row limit a word sequence carries: the numeric literal after its
/// last LIMIT keyword, if that is what follows it.
pub open spec fn limit_of(ws: Seq<Seq<char>>) -> Option<nat> {
    let li = last_kw_index(ws, limit_kw());
    if li >= 0 && li + 1 < ws.len() && all_digits(ws[li + 1]) {
        Some(digits_val(ws[li + 1]))
    } else {
        None
    }
}

/// The output format a word sequence carries: the word after its last
/// FORMAT keyword, if any.
pub open spec fn format_of(ws: Seq<Seq<char>>) -> Option<Seq<char>> {
    let fi = last_kw_index(ws, format_kw());
    if fi >= 0 && fi + 1 < ws.len() {
        Some(ws[fi + 1])
    } else {
        None
    }
}

/// The rewrite of one statement's words: reject a non-literal limit or an
/// explicit format; otherwise inject or clamp the limit and append the
/// forced format.
pub open spec fn rewritten_words(ws: Seq<Seq<char>>, max_rows: u32, fmt: Seq<char>) -> Result<
    Seq<Seq<char>>,
    RewriteError,
> {
    let li = last_kw_index(ws, limit_kw());
    if li >= 0 && !(li + 1 < ws.len() && all_digits(ws[li + 1])) {
        Err(RewriteError::UnsupportedLimit)
    } else if has_word(ws, format_kw()) {
        Err(RewriteError::ExplicitFormat)
    } else {
        let capped = if li < 0 {
            ws + seq![limit_kw(), dec_digits(max_rows as nat)]
        } else if digits_val(ws[li + 1]) > max_rows {
            ws.update(li + 1, dec_digits(max_rows as nat))
        } else {
            ws
        };
        Ok(capped + seq![format_kw(), fmt])
    }
}

/// The whole rewrite of an untrusted query under a ceiling `max_rows` and
/// a forced format `fmt`: exactly one statement, limit bounded, format
/// forced, serialized canonically.
pub open spec fn spec_rewrite(q: Seq<char>, max_rows: u32, fmt: Seq<char>) -> Result<
    Seq<char>,
    RewriteError,
> {
    match single_statement(q) {
        None => Err(RewriteError::MultiStatement),
        Some(stmt) => {
            let ws = words(stmt);
            if ws.len() == 0 {
                Err(RewriteError::MultiStatement)
            } else {
                match rewritten_words(ws, max_rows, fmt) {
                    Ok(ws2) => Ok(join_words(ws2)),
                    Err(e) => Err(e),
                }
            }
        },
    }
}

impl RewriteError {
    /// The reply text for this rejection.
    pub open spec fn spec_message(self) -> Seq<char> {
        match self {
            RewriteError::MultiStatement => "Only one query is allowed"@,
            RewriteError::UnsupportedLimit => "LIMIT must be a plain number"@,
            RewriteError::ExplicitFormat => "Please don't put any FORMAT"@,
        }
    }

    /// The reply text for this rejection, as an owned string.
    pub fn message(&self) -> (r: String)
        ensures
            r@ == self.spec_message(),
    {
        match self {
            RewriteError::MultiStatement => ("Only one query is allowed").to_owned(),
            RewriteError::UnsupportedLimit => ("LIMIT must be a plain number").to_owned(),
            RewriteError::ExplicitFormat => ("Please don't put any FORMAT").to_owned(),
        }
    }
}

/// The index of the last word of `ws` equal to `kw`, if any.
fn find_last_word(ws: &Vec<Vec<char>>, kw: &Vec<char>) -> (r: Option<usize>)
    ensures
        match r {
            Some(i) => last_kw_index(views_of(ws@), kw@) == i as int,
            None => last_kw_index(views_of(ws@), kw@) == -1,
        },
{
    proof {
        lemma_last_kw(views_of(ws@), kw@);
    }
    let ghost li = last_kw_index(views_of(ws@), kw@);
    let mut i: usize = ws.len();
    while i > 0
        invariant
            i <= ws@.len(),
            li == last_kw_index(views_of(ws@), kw@),
            -1 <= li < ws@.len(),
            li >= 0 ==> views_of(ws@)[li] == kw@,
            forall|j: int| li < j < ws@.len() ==> views_of(ws@)[j] != kw@,
            forall|j: int| i <= j < ws@.len() ==> views_of(ws@)[j] != kw@,
        decreases i,
    {
        if chars_eq(&ws[i - 1], kw) {
            proof {
                assert(views_of(ws@)[i - 1] == ws@[i - 1]@);
                assert(li >= i - 1);
                assert(li <= i - 1);
            }
            return Some(i - 1);
        }
        proof {
            assert(views_of(ws@)[i - 1] == ws@[i - 1]@);
        }
        i = i - 1;
    }
    proof {
        if li >= 0 {
            assert(views_of(ws@)[li] == kw@);
        }
    }
    None
}

/// Whether some word of `ws` equals `kw`.
fn contains_word(ws: &Vec<Vec<char>>, kw: &Vec<char>) -> (r: bool)
    ensures
        r == has_word(views_of(ws@), kw@),
{
    let mut i: usize = 0;
    while i < ws.len()
        invariant
            i <= ws@.len(),
            forall|j: int| 0 <= j < i ==> views_of(ws@)[j] != kw@,
        decreases ws@.len() - i,
    {
        if chars_eq(&ws[i], kw) {
            proof {
                assert(views_of(ws@)[i as int] == ws@[i as int]@);
            }
            return true;
        }
        proof {
            assert(views_of(ws@)[i as int] == ws@[i as int]@);
        }
        i = i + 1;
    }
    false
}

/// Rewrites one untrusted query under `policy`: the single statement has
/// a row limit at most `policy.max_rows` injected or clamped in, and the
/// policy's format appended; anything else is a classified rejection.
pub fn format_query(query: &str, policy: &RewritePolicy) -> (r: Result<String, RewriteError>)
    requires
        policy.wf(),
    ensures
        match r {
            Ok(s) => spec_rewrite(query@, policy.max_rows, policy.forced_format@) == Ok::<
                Seq<char>,
                RewriteError,
            >(s@),
            Err(e) => spec_rewrite(query@, policy.max_rows, policy.forced_format@) == Err::<
                Seq<char>,
                RewriteError,
            >(e),
        },
{
    let ghost fmt = policy.forced_format@;
    let chars = str_to_chars(query);
    let stmt = match single_statement_exec(&chars) {
        Some(t) => t,
        None => {
            return Err(RewriteError::MultiStatement);
        },
    };
    let ws = split_words(&stmt);
    let ghost wsm = views_of(ws@);
    if ws.len() == 0 {
        return Err(RewriteError::MultiStatement);
    }
    let kw_limit = str_to_chars("LIMIT");
    let kw_format = str_to_chars("FORMAT");
    proof {
        assert(kw_limit@ == limit_kw());
        assert(kw_format@ == format_kw());
    }
    let ghost li = last_kw_index(wsm, limit_kw());
    proof {
        lemma_last_kw(wsm, limit_kw());
    }
    let (has_limit, limit_idx): (bool, usize) = match find_last_word(&ws, &kw_limit) {
        Some(i) => (true, i),
        None => (false, 0),
    };
    let mut clamp: bool = false;
    if has_limit {
        if limit_idx + 1 >= ws.len() {
            return Err(RewriteError::UnsupportedLimit);
        }
        if !all_digits_exec(&ws[limit_idx + 1]) {
            return Err(RewriteError::UnsupportedLimit);
        }
        let val = digits_val_capped(&ws[limit_idx + 1], policy.max_rows as u64);
        clamp = val > policy.max_rows as u64;
        proof {
            assert(clamp == (digits_val(wsm[li + 1]) > policy.max_rows));
        }
    }
    if contains_word(&ws, &kw_format) {
        return Err(RewriteError::ExplicitFormat);
    }
    // the statement's words with the limit clamped where needed
    let ghost capped = if li < 0 {
        wsm + seq![limit_kw(), dec_digits(policy.max_rows as nat)]
    } else if digits_val(wsm[li + 1]) > policy.max_rows {
        wsm.update(li + 1, dec_digits(policy.max_rows as nat))
    } else {
        wsm
    };
    let mut out_ws: Vec<Vec<char>> = Vec::new();
    let mut k: usize = 0;
    proof {
        assert(views_of(out_ws@) =~= capped.take(0));
    }
    while k < ws.len()
        invariant
            k <= ws@.len(),
            wsm == views_of(ws@),
            capped.len() >= wsm.len() == ws@.len(),
            has_limit ==> li == limit_idx as int && 0 <= li && li + 1 < wsm.len(),
            !has_limit ==> li < 0,
            has_limit ==> clamp == (digits_val(wsm[li + 1]) > policy.max_rows),
            forall|j: int|
                0 <= j < wsm.len() ==> #[trigger] capped[j] == (if has_limit && clamp && j == li
                    + 1 {
                    dec_digits(policy.max_rows as nat)
                } else {
                    wsm[j]
                }),
            views_of(out_ws@) == capped.take(k as int),
        decreases ws@.len() - k,
    {
        let ghost prev = out_ws@;
        if has_limit && clamp && k == limit_idx + 1 {
            out_ws.push(u32_to_chars(policy.max_rows));
        } else {
            out_ws.push(copy_chars(&ws[k]));
        }
        proof {
            assert(views_of(out_ws@) =~= views_of(prev).push(capped[k as int]));
            assert(capped.take(k as int + 1) =~= capped.take(k as int).push(capped[k as int]));
        }
        k = k + 1;
    }
    if !has_limit {
        let ghost prev = out_ws@;
        out_ws.push(kw_limit);
        proof {
            assert(views_of(out_ws@) =~= views_of(prev).push(limit_kw()));
        }
        let ghost prev2 = out_ws@;
        out_ws.push(u32_to_chars(policy.max_rows));
        proof {
            assert(views_of(out_ws@) =~= views_of(prev2).push(dec_digits(policy.max_rows as nat)));
            assert(views_of(out_ws@) =~= capped);
        }
    } else {
        proof {
            assert(capped.take(capped.len() as int) =~= capped);
            assert(capped.len() == wsm.len());
        }
    }
    proof {
        assert(views_of(out_ws@) == capped);
    }
    let ghost with_format = capped + seq![format_kw(), fmt];
    let ghost prev3 = out_ws@;
    out_ws.push(kw_format);
    let fmt_word = str_to_chars(policy.forced_format.as_str());
    let ghost prev4 = out_ws@;
    out_ws.push(fmt_word);
    proof {
        assert(views_of(prev4) =~= views_of(prev3).push(format_kw()));
        assert(views_of(out_ws@) =~= views_of(prev4).push(fmt));
        assert(views_of(out_ws@) =~= with_format);
    }
    let joined = join_words_exec(&out_ws);
    let out = chars_to_string(&joined);
    proof {
        assert(rewritten_words(wsm, policy.max_rows, fmt) == Ok::<Seq<Seq<char>>, RewriteError>(
            with_format,
        ));
        assert(out@ == join_words(with_format));
    }
    Ok(out)
}

} // verus!
