//! The guarantees of the rewriter, stated and proved over the word model:
//! limit injection, limit preservation, clamping, the forced format, and
//! totality of rejection.

use vstd::prelude::*;
use crate::digits::{all_digits, dec_digits, digits_val, lemma_dec_digits, lemma_digits_wf};
use crate::policy::wf_format;
use crate::rewrite::{
    format_kw, format_of, has_word, last_kw_index, lemma_last_kw, limit_kw, limit_of,
    rewritten_words, spec_rewrite, RewriteError,
};
use crate::text::{
    all_space, first_semi, is_space_char, join_words, lemma_first_semi_at, lemma_first_semi_props,
    lemma_join_no_semi, lemma_words_acc_no_semi, lemma_words_acc_wf, lemma_words_of_join, no_semi,
    single_statement, wf_word, wf_words, words, words_no_semi,
};

verus! {

/// The two rewritten keywords are usable words, distinct from each other
/// and from every numeric literal.
proof fn lemma_kws()
    ensures
        wf_word(limit_kw()),
        no_semi(limit_kw()),
        wf_word(format_kw()),
        no_semi(format_kw()),
        limit_kw() != format_kw(),
        forall|s: Seq<char>| all_digits(s) ==> s != limit_kw() && s != format_kw(),
{
    reveal_strlit("LIMIT");
    reveal_strlit("FORMAT");
    assert(limit_kw().len() == 5);
    assert(format_kw().len() == 6);
    assert forall|i: int| 0 <= i < limit_kw().len() implies !is_space_char(
        #[trigger] limit_kw()[i]) && limit_kw()[i] != ';' by {
        if i == 0 {
            assert(limit_kw()[0] == 'L');
        } else if i == 1 {
            assert(limit_kw()[1] == 'I');
        } else if i == 2 {
            assert(limit_kw()[2] == 'M');
        } else if i == 3 {
            assert(limit_kw()[3] == 'I');
        } else {
            assert(limit_kw()[4] == 'T');
        }
    }
    assert forall|i: int| 0 <= i < format_kw().len() implies !is_space_char(
        #[trigger] format_kw()[i]) && format_kw()[i] != ';' by {
        if i == 0 {
            assert(format_kw()[0] == 'F');
        } else if i == 1 {
            assert(format_kw()[1] == 'O');
        } else if i == 2 {
            assert(format_kw()[2] == 'R');
        } else if i == 3 {
            assert(format_kw()[3] == 'M');
        } else if i == 4 {
            assert(format_kw()[4] == 'A');
        } else {
            assert(format_kw()[5] == 'T');
        }
    }
    assert forall|s: Seq<char>| all_digits(s) implies s != limit_kw() && s != format_kw() by {
        assert(crate::digits::is_digit_char(s[0]));
        assert(limit_kw()[0] == 'L');
        assert(format_kw()[0] == 'F');
        if s == limit_kw() {
            assert(s[0] == 'L');
        }
        if s == format_kw() {
            assert(s[0] == 'F');
        }
    }
}

/// The statement a single-statement input carries is semicolon-free.
proof fn lemma_stmt_no_semi(q: Seq<char>)
    requires
        single_statement(q) is Some,
    ensures
        no_semi(single_statement(q)->Some_0),
{
    lemma_first_semi_props(q);
    let k = first_semi(q);
    if k == q.len() {
    } else {
        let stmt = q.take(k);
        assert forall|j: int| 0 <= j < stmt.len() implies stmt[j] != ';' by {
            assert(stmt[j] == q[j]);
        }
    }
}

/// Everything a successful rewrite is made of: the statement's words are
/// well formed, the output's words are exactly the rewritten words, and
/// the output is itself a single, semicolon-free statement.
proof fn lemma_rewrite_shape(q: Seq<char>, max_rows: u32, fmt: Seq<char>)
    requires
        wf_format(fmt),
        spec_rewrite(q, max_rows, fmt) is Ok,
    ensures
        single_statement(q) is Some,
        words(single_statement(q)->Some_0).len() > 0,
        wf_words(words(single_statement(q)->Some_0)),
        words_no_semi(words(single_statement(q)->Some_0)),
        rewritten_words(words(single_statement(q)->Some_0), max_rows, fmt) is Ok,
        spec_rewrite(q, max_rows, fmt)->Ok_0 == join_words(
            rewritten_words(words(single_statement(q)->Some_0), max_rows, fmt)->Ok_0,
        ),
        words(spec_rewrite(q, max_rows, fmt)->Ok_0) == rewritten_words(
            words(single_statement(q)->Some_0),
            max_rows,
            fmt,
        )->Ok_0,
        single_statement(spec_rewrite(q, max_rows, fmt)->Ok_0) == Some(
            spec_rewrite(q, max_rows, fmt)->Ok_0,
        ),
{
    let stmt = single_statement(q)->Some_0;
    let ws = words(stmt);
    lemma_stmt_no_semi(q);
    lemma_words_acc_wf(stmt, Seq::empty());
    lemma_words_acc_no_semi(stmt, Seq::empty());
    lemma_kws();
    lemma_dec_digits(max_rows as nat);
    lemma_digits_wf(dec_digits(max_rows as nat));
    let li = last_kw_index(ws, limit_kw());
    lemma_last_kw(ws, limit_kw());
    let ws2 = rewritten_words(ws, max_rows, fmt)->Ok_0;
    let capped = if li < 0 {
        ws + seq![limit_kw(), dec_digits(max_rows as nat)]
    } else if digits_val(ws[li + 1]) > max_rows {
        ws.update(li + 1, dec_digits(max_rows as nat))
    } else {
        ws
    };
    assert(ws2 == capped + seq![format_kw(), fmt]);
    assert forall|j: int| 0 <= j < ws2.len() implies wf_word(#[trigger] ws2[j]) && no_semi(
        ws2[j]) by {
        if j < capped.len() {
            assert(ws2[j] == capped[j]);
            if li < 0 {
                if j < ws.len() {
                    assert(capped[j] == ws[j]);
                } else if j == ws.len() {
                    assert(capped[j] == limit_kw());
                } else {
                    assert(capped[j] == dec_digits(max_rows as nat));
                }
            } else if digits_val(ws[li + 1]) > max_rows {
                if j == li + 1 {
                    assert(capped[j] == dec_digits(max_rows as nat));
                } else {
                    assert(capped[j] == ws[j]);
                }
            } else {
                assert(capped[j] == ws[j]);
            }
        } else if j == capped.len() {
            assert(ws2[j] == format_kw());
        } else {
            assert(ws2[j] == fmt);
        }
    }
    lemma_words_of_join(ws2);
    lemma_join_no_semi(ws2);
    let out = join_words(ws2);
    lemma_first_semi_at(out, out.len() as int);
}

/// A query with no LIMIT clause is rewritten to carry exactly the policy
/// ceiling as its limit.
pub proof fn lemma_limit_injected(q: Seq<char>, max_rows: u32, fmt: Seq<char>)
    requires
        wf_format(fmt),
        spec_rewrite(q, max_rows, fmt) is Ok,
        !has_word(words(single_statement(q)->Some_0), limit_kw()),
    ensures
        limit_of(words(spec_rewrite(q, max_rows, fmt)->Ok_0)) == Some(max_rows as nat),
{
    lemma_rewrite_shape(q, max_rows, fmt);
    lemma_kws();
    lemma_dec_digits(max_rows as nat);
    let ws = words(single_statement(q)->Some_0);
    let li = last_kw_index(ws, limit_kw());
    lemma_last_kw(ws, limit_kw());
    assert(li < 0);
    let ws2 = words(spec_rewrite(q, max_rows, fmt)->Ok_0);
    let n = ws.len() as int;
    assert(ws2 == (ws + seq![limit_kw(), dec_digits(max_rows as nat)]) + seq![
        format_kw(),
        fmt,
    ]);
    assert(ws2[n] == limit_kw());
    assert(ws2[n + 1] == dec_digits(max_rows as nat));
    assert(ws2[n + 2] == format_kw());
    assert(ws2[n + 3] == fmt);
    let li2 = last_kw_index(ws2, limit_kw());
    lemma_last_kw(ws2, limit_kw());
    assert forall|j: int| n < j < ws2.len() implies ws2[j] != limit_kw() by {
        if j == n + 1 {
            assert(all_digits(ws2[j]));
        }
    }
    assert(li2 >= n);
    assert(li2 == n) by {
        if li2 > n {
            assert(ws2[li2] != limit_kw());
        }
    }
    assert(limit_of(ws2) == Some(digits_val(dec_digits(max_rows as nat))));
}

/// A LIMIT already at or below the ceiling is preserved unchanged.
pub proof fn lemma_limit_preserved(q: Seq<char>, max_rows: u32, fmt: Seq<char>)
    requires
        wf_format(fmt),
        spec_rewrite(q, max_rows, fmt) is Ok,
        limit_of(words(single_statement(q)->Some_0)) is Some,
        limit_of(words(single_statement(q)->Some_0))->Some_0 <= max_rows,
    ensures
        limit_of(words(spec_rewrite(q, max_rows, fmt)->Ok_0)) == limit_of(
            words(single_statement(q)->Some_0),
        ),
{
    lemma_rewrite_shape(q, max_rows, fmt);
    lemma_kws();
    let ws = words(single_statement(q)->Some_0);
    let li = last_kw_index(ws, limit_kw());
    lemma_last_kw(ws, limit_kw());
    assert(li >= 0);
    assert(digits_val(ws[li + 1]) <= max_rows);
    let ws2 = words(spec_rewrite(q, max_rows, fmt)->Ok_0);
    assert(ws2 == ws + seq![format_kw(), fmt]);
    let li2 = last_kw_index(ws2, limit_kw());
    lemma_last_kw(ws2, limit_kw());
    assert(ws2[li] == ws[li]);
    assert(ws2[li] == limit_kw());
    assert forall|j: int| li < j < ws2.len() implies ws2[j] != limit_kw() by {
        if j < ws.len() {
            assert(ws2[j] == ws[j]);
        } else if j == ws.len() {
            assert(ws2[j] == format_kw());
        } else {
            assert(ws2[j] == fmt);
        }
    }
    assert(li2 == li) by {
        if li2 > li {
            assert(ws2[li2] != limit_kw());
        }
        if li2 < li {
            assert(ws2[li] != limit_kw());
        }
    }
    assert(ws2[li + 1] == ws[li + 1]);
}

/// A LIMIT above the ceiling is clamped down to exactly the ceiling.
pub proof fn lemma_limit_clamped(q: Seq<char>, max_rows: u32, fmt: Seq<char>)
    requires
        wf_format(fmt),
        spec_rewrite(q, max_rows, fmt) is Ok,
        limit_of(words(single_statement(q)->Some_0)) is Some,
        limit_of(words(single_statement(q)->Some_0))->Some_0 > max_rows,
    ensures
        limit_of(words(spec_rewrite(q, max_rows, fmt)->Ok_0)) == Some(max_rows as nat),
{
    lemma_rewrite_shape(q, max_rows, fmt);
    lemma_kws();
    lemma_dec_digits(max_rows as nat);
    let ws = words(single_statement(q)->Some_0);
    let li = last_kw_index(ws, limit_kw());
    lemma_last_kw(ws, limit_kw());
    assert(li >= 0);
    assert(digits_val(ws[li + 1]) > max_rows);
    let capped = ws.update(li + 1, dec_digits(max_rows as nat));
    let ws2 = words(spec_rewrite(q, max_rows, fmt)->Ok_0);
    assert(ws2 == capped + seq![format_kw(), fmt]);
    let li2 = last_kw_index(ws2, limit_kw());
    lemma_last_kw(ws2, limit_kw());
    assert(ws2[li] == capped[li]);
    assert(capped[li] == ws[li]);
    assert(ws2[li] == limit_kw());
    assert forall|j: int| li < j < ws2.len() implies ws2[j] != limit_kw() by {
        if j < ws.len() {
            assert(ws2[j] == capped[j]);
            if j == li + 1 {
                assert(capped[j] == dec_digits(max_rows as nat));
                assert(all_digits(capped[j]));
            } else {
                assert(capped[j] == ws[j]);
            }
        } else if j == ws.len() {
            assert(ws2[j] == format_kw());
        } else {
            assert(ws2[j] == fmt);
        }
    }
    assert(li2 == li) by {
        if li2 > li {
            assert(ws2[li2] != limit_kw());
        }
        if li2 < li {
            assert(ws2[li] != limit_kw());
        }
    }
    assert(ws2[li + 1] == capped[li + 1]);
    assert(ws2[li + 1] == dec_digits(max_rows as nat));
}

/// Every successful rewrite carries the forced format, whatever happened
/// to the limit.
pub proof fn lemma_format_forced(q: Seq<char>, max_rows: u32, fmt: Seq<char>)
    requires
        wf_format(fmt),
        spec_rewrite(q, max_rows, fmt) is Ok,
    ensures
        format_of(words(spec_rewrite(q, max_rows, fmt)->Ok_0)) == Some(fmt),
{
    lemma_rewrite_shape(q, max_rows, fmt);
    lemma_kws();
    let ws2 = words(spec_rewrite(q, max_rows, fmt)->Ok_0);
    let m = ws2.len() - 2;
    assert(ws2[m] == format_kw());
    assert(ws2[m + 1] == fmt);
    let fi = last_kw_index(ws2, format_kw());
    lemma_last_kw(ws2, format_kw());
    assert(fi == m) by {
        if fi > m {
            assert(ws2[fi] == fmt);
        }
        if fi < m {
            assert(ws2[m] != format_kw());
        }
    }
}

/// Under the rejecting format policy a successful rewrite is not a fixed
/// point: its output carries an explicit FORMAT clause, so feeding it
/// back into the rewriter is itself rejected.
pub proof fn lemma_rewrite_output_rejected(q: Seq<char>, max_rows: u32, fmt: Seq<char>)
    requires
        wf_format(fmt),
        spec_rewrite(q, max_rows, fmt) is Ok,
    ensures
        spec_rewrite(spec_rewrite(q, max_rows, fmt)->Ok_0, max_rows, fmt) == Err::<
            Seq<char>,
            RewriteError,
        >(RewriteError::ExplicitFormat),
{
    lemma_rewrite_shape(q, max_rows, fmt);
    lemma_kws();
    lemma_dec_digits(max_rows as nat);
    let ws = words(single_statement(q)->Some_0);
    let li = last_kw_index(ws, limit_kw());
    lemma_last_kw(ws, limit_kw());
    let ws2 = words(spec_rewrite(q, max_rows, fmt)->Ok_0);
    let m = ws2.len() - 2;
    assert(ws2[m] == format_kw());
    assert(has_word(ws2, format_kw()));
    // the rewritten limit clause is still a plain numeric literal
    let li2 = last_kw_index(ws2, limit_kw());
    lemma_last_kw(ws2, limit_kw());
    if li2 >= 0 {
        if li < 0 {
            let n = ws.len() as int;
            assert(ws2[n] == limit_kw());
            assert(ws2[n + 1] == dec_digits(max_rows as nat));
            assert forall|j: int| n < j < ws2.len() implies ws2[j] != limit_kw() by {
                if j == n + 1 {
                    assert(all_digits(ws2[j]));
                }
            }
            assert(li2 == n) by {
                if li2 > n {
                    assert(ws2[li2] != limit_kw());
                }
                if li2 < n {
                    assert(ws2[n] != limit_kw());
                }
            }
            assert(all_digits(ws2[li2 + 1]));
        } else {
            let clamped = digits_val(ws[li + 1]) > max_rows;
            let capped = if clamped {
                ws.update(li + 1, dec_digits(max_rows as nat))
            } else {
                ws
            };
            assert(ws2 == capped + seq![format_kw(), fmt]);
            assert(ws2[li] == limit_kw());
            assert forall|j: int| li < j < ws2.len() implies ws2[j] != limit_kw() by {
                if j < ws.len() {
                    assert(ws2[j] == capped[j]);
                    if j == li + 1 {
                        assert(all_digits(capped[j]));
                    } else {
                        assert(capped[j] == ws[j]);
                    }
                } else if j == ws.len() {
                    assert(ws2[j] == format_kw());
                } else {
                    assert(ws2[j] == fmt);
                }
            }
            assert(li2 == li) by {
                if li2 > li {
                    assert(ws2[li2] != limit_kw());
                }
                if li2 < li {
                    assert(ws2[li] != limit_kw());
                }
            }
            assert(all_digits(ws2[li2 + 1]));
        }
    }
}

/// Rejection is total: a multi-statement input never rewrites, and an
/// input carrying an explicit FORMAT word never rewrites successfully.
pub proof fn lemma_rejection_total(q: Seq<char>, max_rows: u32, fmt: Seq<char>)
    ensures
        single_statement(q) is None ==> spec_rewrite(q, max_rows, fmt) == Err::<
            Seq<char>,
            RewriteError,
        >(RewriteError::MultiStatement),
        (single_statement(q) is Some && has_word(
            words(single_statement(q)->Some_0),
            format_kw(),
        )) ==> !(spec_rewrite(q, max_rows, fmt) is Ok),
{
}

} // verus!
