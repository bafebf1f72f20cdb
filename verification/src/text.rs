//! A character-level model of query text: whitespace-separated words,
//! statement separation by semicolon, and the join that re-serializes a
//! word sequence into canonical text.

use vstd::prelude::*;

verus! {

/// The whitespace characters that separate words of a statement.
pub open spec fn is_space_char(c: char) -> bool {
    c == ' ' || c == '\t' || c == '\n' || c == '\r'
}

/// True when `s` consists of whitespace only.
pub open spec fn all_space(s: Seq<char>) -> bool {
    forall|i: int| 0 <= i < s.len() ==> is_space_char(s[i])
}

/// True when `s` contains no whitespace at all.
pub open spec fn space_free(s: Seq<char>) -> bool {
    forall|i: int| 0 <= i < s.len() ==> !is_space_char(s[i])
}

/// True when `s` contains no statement separator.
pub open spec fn no_semi(s: Seq<char>) -> bool {
    forall|i: int| 0 <= i < s.len() ==> s[i] != ';'
}

/// The words of `s` that follow a partial word `acc` already read:
/// whitespace ends the pending word, every other character extends it.
pub open spec fn words_acc(s: Seq<char>, acc: Seq<char>) -> Seq<Seq<char>>
    decreases s.len(),
{
    if s.len() == 0 {
        if acc.len() == 0 {
            Seq::empty()
        } else {
            seq![acc]
        }
    } else if is_space_char(s[0]) {
        if acc.len() == 0 {
            words_acc(s.skip(1), Seq::empty())
        } else {
            seq![acc] + words_acc(s.skip(1), Seq::empty())
        }
    } else {
        words_acc(s.skip(1), acc.push(s[0]))
    }
}

/// The maximal whitespace-free words of `s`, in order.
pub open spec fn words(s: Seq<char>) -> Seq<Seq<char>> {
    words_acc(s, Seq::empty())
}

/// `ws` joined into one text with a single space between neighbours.
pub open spec fn join_words(ws: Seq<Seq<char>>) -> Seq<char>
    decreases ws.len(),
{
    if ws.len() == 0 {
        Seq::empty()
    } else if ws.len() == 1 {
        ws[0]
    } else {
        ws[0] + seq![' '] + join_words(ws.skip(1))
    }
}

/// A well-formed word: nonempty and free of whitespace.
pub open spec fn wf_word(w: Seq<char>) -> bool {
    w.len() > 0 && space_free(w)
}

/// A well-formed word sequence: every word nonempty and whitespace-free.
pub open spec fn wf_words(ws: Seq<Seq<char>>) -> bool {
    forall|k: int| 0 <= k < ws.len() ==> wf_word(#[trigger] ws[k])
}

/// Every word of `ws` is free of semicolons.
pub open spec fn words_no_semi(ws: Seq<Seq<char>>) -> bool {
    forall|k: int| 0 <= k < ws.len() ==> no_semi(#[trigger] ws[k])
}

/// The index of the first semicolon of `s`, or `s.len()` if there is none.
pub open spec fn first_semi(s: Seq<char>) -> int
    decreases s.len(),
{
    if s.len() == 0 {
        0
    } else if s[0] == ';' {
        0
    } else {
        1 + first_semi(s.skip(1))
    }
}

/// The single statement carried by `s`: the text before the first
/// semicolon, provided nothing but whitespace follows that semicolon.
/// `None` marks a multi-statement input.
pub open spec fn single_statement(s: Seq<char>) -> Option<Seq<char>> {
    let k = first_semi(s);
    if k == s.len() {
        Some(s)
    } else if all_space(s.skip(k + 1)) {
        Some(s.take(k))
    } else {
        None
    }
}

/// The views of a vector of character vectors.
pub open spec fn views_of(v: Seq<Vec<char>>) -> Seq<Seq<char>> {
    v.map_values(|w: Vec<char>| w@)
}

/// `first_semi` is exactly the position of the first semicolon.
pub proof fn lemma_first_semi_at(s: Seq<char>, i: int)
    requires
        0 <= i <= s.len(),
        forall|j: int| 0 <= j < i ==> s[j] != ';',
        i < s.len() ==> s[i] == ';',
    ensures
        first_semi(s) == i,
    decreases i,
{
    if i == 0 {
        if s.len() != 0 {
            assert(s[0] == ';');
        }
    } else {
        assert(s[0] != ';');
        lemma_first_semi_at(s.skip(1), i - 1);
    }
}

/// Nothing before the first semicolon is a semicolon, and the character
/// there (if inside the text) is one.
pub proof fn lemma_first_semi_props(s: Seq<char>)
    ensures
        0 <= first_semi(s) <= s.len(),
        forall|j: int| 0 <= j < first_semi(s) ==> s[j] != ';',
        first_semi(s) < s.len() ==> s[first_semi(s)] == ';',
    decreases s.len(),
{
    if s.len() == 0 {
    } else if s[0] == ';' {
    } else {
        lemma_first_semi_props(s.skip(1));
        assert forall|j: int| 0 <= j < first_semi(s) implies s[j] != ';' by {
            if j > 0 {
                assert(s.skip(1)[j - 1] != ';');
            }
        }
    }
}

/// Reading a whitespace-free prefix folds it whole into the pending word.
pub proof fn lemma_words_acc_word(w: Seq<char>, s: Seq<char>, acc: Seq<char>)
    requires
        space_free(w),
    ensures
        words_acc(w + s, acc) == words_acc(s, acc + w),
    decreases w.len(),
{
    if w.len() == 0 {
        assert(w + s =~= s);
        assert(acc + w =~= acc);
    } else {
        assert((w + s)[0] == w[0]);
        assert(!is_space_char(w[0]));
        assert((w + s).skip(1) =~= w.skip(1) + s);
        assert(space_free(w.skip(1)));
        lemma_words_acc_word(w.skip(1), s, acc.push(w[0]));
        assert(acc.push(w[0]) + w.skip(1) =~= acc + w);
    }
}

/// Every word produced by `words_acc` is nonempty and whitespace-free.
pub proof fn lemma_words_acc_wf(s: Seq<char>, acc: Seq<char>)
    requires
        space_free(acc),
    ensures
        wf_words(words_acc(s, acc)),
    decreases s.len(),
{
    if s.len() == 0 {
    } else if is_space_char(s[0]) {
        lemma_words_acc_wf(s.skip(1), Seq::empty());
    } else {
        assert(space_free(acc.push(s[0]))) by {
            assert(forall|i: int|
                0 <= i < acc.len() ==> acc.push(s[0])[i] == acc[i]);
        }
        lemma_words_acc_wf(s.skip(1), acc.push(s[0]));
    }
}

/// Words read from semicolon-free text are semicolon-free.
pub proof fn lemma_words_acc_no_semi(s: Seq<char>, acc: Seq<char>)
    requires
        no_semi(s),
        no_semi(acc),
    ensures
        words_no_semi(words_acc(s, acc)),
    decreases s.len(),
{
    if s.len() == 0 {
    } else {
        assert forall|i: int| 0 <= i < s.skip(1).len() implies #[trigger] s.skip(1)[i] != ';' by {
            assert(s.skip(1)[i] == s[i + 1]);
        }
        if is_space_char(s[0]) {
            lemma_words_acc_no_semi(s.skip(1), Seq::empty());
        } else {
            assert forall|i: int|
                0 <= i < acc.push(s[0]).len() implies #[trigger] acc.push(s[0])[i] != ';' by {
                if i < acc.len() {
                    assert(acc.push(s[0])[i] == acc[i]);
                }
            }
            lemma_words_acc_no_semi(s.skip(1), acc.push(s[0]));
        }
    }
}

/// A join of semicolon-free words is semicolon-free.
pub proof fn lemma_join_no_semi(ws: Seq<Seq<char>>)
    requires
        words_no_semi(ws),
    ensures
        no_semi(join_words(ws)),
    decreases ws.len(),
{
    if ws.len() <= 1 {
    } else {
        assert(words_no_semi(ws.skip(1)));
        lemma_join_no_semi(ws.skip(1));
        let j = join_words(ws);
        let l = ws[0].len() as int;
        assert forall|i: int| 0 <= i < j.len() implies j[i] != ';' by {
            if i < l {
                assert(j[i] == ws[0][i]);
            } else if i == l {
                assert(j[i] == ' ');
            } else {
                assert(j[i] == join_words(ws.skip(1))[i - l - 1]);
            }
        }
    }
}

/// Splitting a canonical join recovers exactly the words it was made of.
pub proof fn lemma_words_of_join(ws: Seq<Seq<char>>)
    requires
        wf_words(ws),
    ensures
        words(join_words(ws)) == ws,
    decreases ws.len(),
{
    if ws.len() == 0 {
        assert(words(join_words(ws)) =~= ws);
    } else if ws.len() == 1 {
        assert(ws[0] + Seq::<char>::empty() =~= ws[0]);
        lemma_words_acc_word(ws[0], Seq::empty(), Seq::empty());
        assert(Seq::<char>::empty() + ws[0] =~= ws[0]);
        assert(words_acc(Seq::empty(), ws[0]) == seq![ws[0]]);
        assert(seq![ws[0]] =~= ws);
    } else {
        let rest = seq![' '] + join_words(ws.skip(1));
        assert(join_words(ws) =~= ws[0] + rest);
        lemma_words_acc_word(ws[0], rest, Seq::empty());
        assert(Seq::<char>::empty() + ws[0] =~= ws[0]);
        assert(rest[0] == ' ');
        assert(ws[0].len() > 0);
        assert(words_acc(rest, ws[0]) == seq![ws[0]] + words_acc(rest.skip(1), Seq::empty()));
        assert(rest.skip(1) =~= join_words(ws.skip(1)));
        assert(wf_words(ws.skip(1)));
        lemma_words_of_join(ws.skip(1));
        assert(seq![ws[0]] + ws.skip(1) =~= ws);
    }
}

/// Appending one word to a join adds one separator and that word.
pub proof fn lemma_join_snoc(ws: Seq<Seq<char>>, w: Seq<char>)
    ensures
        join_words(ws.push(w)) == if ws.len() == 0 {
            w
        } else {
            join_words(ws) + seq![' '] + w
        },
    decreases ws.len(),
{
    let p = ws.push(w);
    if ws.len() == 0 {
        assert(p.len() == 1);
        assert(p[0] == w);
    } else if ws.len() == 1 {
        assert(p.len() == 2);
        assert(p.skip(1) =~= seq![w]);
        assert(join_words(p.skip(1)) == w);
        assert(join_words(p) == p[0] + seq![' '] + w);
        assert(p[0] == ws[0]);
        assert(join_words(ws) == ws[0]);
    } else {
        assert(p.skip(1) =~= ws.skip(1).push(w));
        lemma_join_snoc(ws.skip(1), w);
        assert(join_words(p) == p[0] + seq![' '] + (join_words(ws.skip(1)) + seq![' '] + w));
        assert(p[0] == ws[0]);
        assert(ws[0] + seq![' '] + (join_words(ws.skip(1)) + seq![' '] + w) =~= (ws[0]
            + seq![' '] + join_words(ws.skip(1))) + seq![' '] + w);
    }
}

/// Whether `c` separates words, decided in executable code.
pub fn is_space_exec(c: char) -> (r: bool)
    ensures
        r == is_space_char(c),
{
    c == ' ' || c == '\t' || c == '\n' || c == '\r'
}

/// The characters of `s`, as a vector with the same view.
pub fn str_to_chars(s: &str) -> (r: Vec<char>)
    ensures
        r@ == s@,
{
    let n = s.unicode_len();
    let mut r: Vec<char> = Vec::new();
    let mut i: usize = 0;
    while i < n
        invariant
            n == s@.len(),
            i <= n,
            r@ == s@.take(i as int),
        decreases n - i,
    {
        r.push(s.get_char(i));
        i = i + 1;
        proof {
            assert(r@ =~= s@.take(i as int));
        }
    }
    proof {
        assert(s@.take(n as int) =~= s@);
    }
    r
}

/// Relies on `String: FromIterator<char>`: collecting characters builds
/// the string of exactly those characters, in order.
#[verifier::external_body]
pub fn chars_to_string(v: &Vec<char>) -> (r: String)
    ensures
        r@ == v@,
{
    v.iter().collect()
}

/// A copy of a character vector.
pub fn copy_chars(v: &Vec<char>) -> (r: Vec<char>)
    ensures
        r@ == v@,
{
    let mut r: Vec<char> = Vec::new();
    let mut i: usize = 0;
    while i < v.len()
        invariant
            i <= v@.len(),
            r@ == v@.take(i as int),
        decreases v@.len() - i,
    {
        r.push(v[i]);
        i = i + 1;
        proof {
            assert(r@ =~= v@.take(i as int));
        }
    }
    proof {
        assert(v@.take(v@.len() as int) =~= v@);
    }
    r
}

/// Whether two character vectors hold the same text.
pub fn chars_eq(a: &Vec<char>, b: &Vec<char>) -> (r: bool)
    ensures
        r == (a@ == b@),
{
    if a.len() != b.len() {
        return false;
    }
    let mut i: usize = 0;
    while i < a.len()
        invariant
            a@.len() == b@.len(),
            i <= a@.len(),
            forall|j: int| 0 <= j < i ==> a@[j] == b@[j],
        decreases a@.len() - i,
    {
        if a[i] != b[i] {
            return false;
        }
        i = i + 1;
    }
    proof {
        assert(a@ =~= b@);
    }
    true
}

/// The words of `s`, split on whitespace.
pub fn split_words(s: &Vec<char>) -> (ws: Vec<Vec<char>>)
    ensures
        views_of(ws@) == words(s@),
{
    let mut out: Vec<Vec<char>> = Vec::new();
    let mut cur: Vec<char> = Vec::new();
    let mut i: usize = 0;
    proof {
        assert(views_of(out@) =~= Seq::<Seq<char>>::empty());
        assert(s@.skip(0) =~= s@);
        assert(views_of(out@) + words_acc(s@, cur@) =~= words_acc(s@, cur@));
    }
    while i < s.len()
        invariant
            i <= s@.len(),
            space_free(cur@),
            views_of(out@) + words_acc(s@.skip(i as int), cur@) == words(s@),
        decreases s@.len() - i,
    {
        let ghost prev_out = out@;
        let ghost prev_cur = cur@;
        let c = s[i];
        proof {
            assert(s@.skip(i as int)[0] == s@[i as int]);
            assert(s@.skip(i as int).skip(1) =~= s@.skip(i as int + 1));
        }
        if is_space_exec(c) {
            if cur.len() > 0 {
                out.push(cur);
                cur = Vec::new();
                proof {
                    assert(words_acc(s@.skip(i as int), prev_cur) == seq![prev_cur]
                        + words_acc(s@.skip(i as int + 1), Seq::empty()));
                    assert(views_of(out@) =~= views_of(prev_out).push(prev_cur));
                    assert(views_of(prev_out).push(prev_cur)
                        + words_acc(s@.skip(i as int + 1), Seq::empty()) =~= views_of(prev_out)
                        + (seq![prev_cur] + words_acc(s@.skip(i as int + 1), Seq::empty())));
                }
            } else {
                proof {
                    assert(prev_cur =~= Seq::<char>::empty());
                    assert(words_acc(s@.skip(i as int), prev_cur) == words_acc(
                        s@.skip(i as int + 1), Seq::empty()));
                }
            }
        } else {
            cur.push(c);
            proof {
                assert(cur@ == prev_cur.push(c));
                assert(words_acc(s@.skip(i as int), prev_cur) == words_acc(
                    s@.skip(i as int + 1), prev_cur.push(c)));
                assert forall|j: int| 0 <= j < cur@.len() implies !is_space_char(
                    #[trigger] cur@[j]) by {
                    if j < prev_cur.len() {
                        assert(cur@[j] == prev_cur[j]);
                    } else {
                        assert(cur@[j] == c);
                    }
                }
            }
        }
        i = i + 1;
    }
    proof {
        assert(s@.skip(s@.len() as int) =~= Seq::<char>::empty());
    }
    if cur.len() > 0 {
        let ghost prev_out = out@;
        let ghost prev_cur = cur@;
        out.push(cur);
        proof {
            assert(views_of(out@) =~= views_of(prev_out).push(prev_cur));
            assert(views_of(prev_out).push(prev_cur) =~= views_of(prev_out) + seq![prev_cur]);
        }
    }
    out
}

/// The canonical serialization of `ws`: the words joined by single spaces.
pub fn join_words_exec(ws: &Vec<Vec<char>>) -> (r: Vec<char>)
    ensures
        r@ == join_words(views_of(ws@)),
{
    let ghost all = views_of(ws@);
    let mut r: Vec<char> = Vec::new();
    let mut i: usize = 0;
    while i < ws.len()
        invariant
            all == views_of(ws@),
            i <= ws@.len(),
            all.len() == ws@.len(),
            r@ == join_words(all.take(i as int)),
        decreases ws@.len() - i,
    {
        if i > 0 {
            r.push(' ');
        }
        let w = &ws[i];
        let mut j: usize = 0;
        while j < w.len()
            invariant
                all == views_of(ws@),
                i < ws@.len(),
                all.len() == ws@.len(),
                w == &ws@[i as int],
                j <= w@.len(),
                r@ == (if i == 0 {
                    Seq::<char>::empty()
                } else {
                    join_words(all.take(i as int)) + seq![' ']
                }) + w@.take(j as int),
            decreases w@.len() - j,
        {
            r.push(w[j]);
            j = j + 1;
            proof {
                assert(w@.take(j as int) =~= w@.take(j as int - 1).push(w@[j as int - 1]));
                assert(((if i == 0 {
                    Seq::<char>::empty()
                } else {
                    join_words(all.take(i as int)) + seq![' ']
                }) + w@.take(j as int - 1)).push(w@[j as int - 1]) =~= (if i == 0 {
                    Seq::<char>::empty()
                } else {
                    join_words(all.take(i as int)) + seq![' ']
                }) + w@.take(j as int));
            }
        }
        proof {
            assert(w@.take(w@.len() as int) =~= w@);
            assert(all[i as int] == w@);
            lemma_join_snoc(all.take(i as int), all[i as int]);
            assert(all.take(i as int).push(all[i as int]) =~= all.take(i as int + 1));
            if i == 0 {
                assert(Seq::<char>::empty() + w@ =~= w@);
            } else {
                assert((join_words(all.take(i as int)) + seq![' ']) + w@ =~= join_words(
                    all.take(i as int)) + seq![' '] + w@);
            }
        }
        i = i + 1;
    }
    proof {
        assert(all.take(all.len() as int) =~= all);
    }
    r
}

/// The single statement carried by `s`, or `None` on multi-statement input.
pub fn single_statement_exec(s: &Vec<char>) -> (r: Option<Vec<char>>)
    ensures
        match r {
            Some(t) => single_statement(s@) == Some(t@),
            None => single_statement(s@) is None,
        },
{
    let mut i: usize = 0;
    while i < s.len()
        invariant
            i <= s@.len(),
            forall|j: int| 0 <= j < i ==> s@[j] != ';',
        decreases s@.len() - i,
    {
        if s[i] == ';' {
            proof {
                lemma_first_semi_at(s@, i as int);
            }
            // the semicolon may only be followed by whitespace
            let mut j: usize = i + 1;
            while j < s.len()
                invariant
                    i < j <= s@.len(),
                    first_semi(s@) == i,
                    i < s@.len(),
                    forall|k: int| i + 1 <= k < j ==> is_space_char(s@[k]),
                decreases s@.len() - j,
            {
                if !is_space_exec(s[j]) {
                    proof {
                        assert(s@.skip(i as int + 1)[j - i - 1] == s@[j as int]);
                        assert(!all_space(s@.skip(i as int + 1)));
                    }
                    return None;
                }
                j = j + 1;
            }
            proof {
                assert forall|k: int| 0 <= k < s@.skip(i as int + 1).len() implies is_space_char(
                    #[trigger] s@.skip(i as int + 1)[k]) by {
                    assert(s@.skip(i as int + 1)[k] == s@[i + 1 + k]);
                }
            }
            let mut t: Vec<char> = Vec::new();
            let mut m: usize = 0;
            while m < i
                invariant
                    m <= i <= s@.len(),
                    t@ == s@.take(i as int).take(m as int),
                decreases i - m,
            {
                t.push(s[m]);
                m = m + 1;
                proof {
                    assert(t@ =~= s@.take(i as int).take(m as int));
                }
            }
            proof {
                assert(s@.take(i as int).take(i as int) =~= s@.take(i as int));
            }
            return Some(t);
        }
        i = i + 1;
    }
    proof {
        lemma_first_semi_at(s@, s@.len() as int);
    }
    Some(copy_chars(s))
}

} // verus!
