//! General properties of the tokenizer, stated and proved once for all
//! inputs: no token is ever empty, the token count is bounded by the number
//! of whitespace-delimited runs of the input, and re-joining plain tokens
//! with spaces and tokenizing again gives the tokens back.

use vstd::prelude::*;

use crate::model::{
    flush_token, initial_state, is_escapable_char, is_space_char, resolve_escapes, scan_chars,
    scan_step, tokenize, trim_back, trim_front, trimmed, ScanState,
};

verus! {

/// Holds when no character of `t` is a space, a quote of either kind, or a
/// backslash.
pub open spec fn plain_token(t: Seq<char>) -> bool {
    forall|j: int| 0 <= j < t.len() ==> !is_escapable_char(#[trigger] t[j])
}

/// The tokens joined into one string, with a single space between
/// neighbours.
pub open spec fn join_with_spaces(ts: Seq<Seq<char>>) -> Seq<char>
    decreases ts.len(),
{
    if ts.len() == 0 {
        Seq::empty()
    } else if ts.len() == 1 {
        ts[0]
    } else {
        ts[0] + seq![' '] + join_with_spaces(ts.drop_first())
    }
}

/// The number of maximal whitespace-free runs in `s`, given whether the
/// position before `s` counts as whitespace.
pub open spec fn runs_from(s: Seq<char>, prev_space: bool) -> nat
    decreases s.len(),
{
    if s.len() == 0 {
        0
    } else {
        (if !is_space_char(s[0]) && prev_space {
            1nat
        } else {
            0nat
        }) + runs_from(s.drop_first(), is_space_char(s[0]))
    }
}

/// The number of whitespace-delimited runs in `s`.
pub open spec fn count_runs(s: Seq<char>) -> nat {
    runs_from(s, true)
}

/// Holds when some character of `p` is not whitespace.
spec fn has_nonspace(p: Seq<char>) -> bool {
    exists|j: int| 0 <= j < p.len() && !is_space_char(#[trigger] p[j])
}

/// A token as emitted by a flush: non-empty, and each edge character either
/// came out of an escape pair or is no whitespace.
spec fn wf_token(t: Seq<char>) -> bool {
    &&& t.len() > 0
    &&& (is_escapable_char(t[0]) || !is_space_char(t[0]))
    &&& (is_escapable_char(t.last()) || !is_space_char(t.last()))
}

spec fn wf_tokens(ts: Seq<Seq<char>>) -> bool {
    forall|i: int| 0 <= i < ts.len() ==> wf_token(#[trigger] ts[i])
}

/// What trimming leaves: a suffix of the input whose first character is no
/// whitespace, non-empty exactly when the input has a non-whitespace
/// character.
proof fn lemma_trim_front_facts(s: Seq<char>)
    ensures
        trim_front(s).len() <= s.len(),
        trim_front(s) == s.skip(s.len() - trim_front(s).len()),
        trim_front(s).len() > 0 ==> !is_space_char(trim_front(s)[0]),
        trim_front(s).len() > 0 <==> has_nonspace(s),
    decreases s.len(),
{
    if s.len() > 0 && is_space_char(s[0]) {
        let d = s.drop_first();
        lemma_trim_front_facts(d);
        let m = trim_front(s).len() as int;
        assert(d.skip(d.len() - m) =~= s.skip(s.len() - m));
        if has_nonspace(d) {
            let j = choose|j: int| 0 <= j < d.len() && !is_space_char(d[j]);
            assert(s[j + 1] == d[j]);
            assert(has_nonspace(s));
        }
        if has_nonspace(s) {
            let j = choose|j: int| 0 <= j < s.len() && !is_space_char(s[j]);
            assert(j != 0);
            assert(d[j - 1] == s[j]);
            assert(has_nonspace(d));
        }
    } else {
        assert(s.skip(0) =~= s);
        if s.len() > 0 {
            assert(has_nonspace(s));
        }
    }
}

/// The mirror image for trailing whitespace: trimming keeps a prefix whose
/// last character is no whitespace.
proof fn lemma_trim_back_facts(s: Seq<char>)
    ensures
        trim_back(s).len() <= s.len(),
        trim_back(s) == s.take(trim_back(s).len() as int),
        trim_back(s).len() > 0 ==> !is_space_char(trim_back(s).last()),
        trim_back(s).len() > 0 <==> has_nonspace(s),
    decreases s.len(),
{
    if s.len() > 0 && is_space_char(s.last()) {
        let d = s.drop_last();
        lemma_trim_back_facts(d);
        let m = trim_back(s).len() as int;
        assert(d.take(m) =~= s.take(m));
        if has_nonspace(d) {
            let j = choose|j: int| 0 <= j < d.len() && !is_space_char(d[j]);
            assert(s[j] == d[j]);
            assert(has_nonspace(s));
        }
        if has_nonspace(s) {
            let j = choose|j: int| 0 <= j < s.len() && !is_space_char(s[j]);
            assert(s[s.len() - 1] == s.last());
            assert(j != s.len() - 1);
            assert(d[j] == s[j]);
            assert(has_nonspace(d));
        }
    } else {
        assert(s.take(s.len() as int) =~= s);
        if s.len() > 0 {
            assert(!is_space_char(s[s.len() - 1]));
            assert(has_nonspace(s));
        }
    }
}

/// A fully trimmed sequence is non-empty exactly when some character is not
/// whitespace, and then neither edge is whitespace.
proof fn lemma_trimmed_facts(s: Seq<char>)
    ensures
        trimmed(s).len() > 0 <==> has_nonspace(s),
        trimmed(s).len() > 0 ==> !is_space_char(trimmed(s)[0]) && !is_space_char(
            trimmed(s).last(),
        ),
{
    lemma_trim_front_facts(s);
    let f = trim_front(s);
    lemma_trim_back_facts(f);
    if trimmed(s).len() > 0 {
        assert(trimmed(s)[0] == f[0]);
        let j = choose|j: int| 0 <= j < f.len() && !is_space_char(f[j]);
        assert(f[j] == s[s.len() - f.len() + j]);
        assert(has_nonspace(s));
    }
    if has_nonspace(s) {
        assert(f.len() > 0);
        assert(!is_space_char(f[0]));
        assert(has_nonspace(f));
    }
}

/// Resolving escapes never turns a non-empty text into an empty one.
proof fn lemma_resolve_len(s: Seq<char>)
    ensures
        s.len() > 0 ==> resolve_escapes(s).len() > 0,
{
}

/// On text without a backslash, escape resolution changes nothing.
proof fn lemma_resolve_identity(s: Seq<char>)
    requires
        forall|j: int| 0 <= j < s.len() ==> #[trigger] s[j] != '\\',
    ensures
        resolve_escapes(s) == s,
    decreases s.len(),
{
    if s.len() >= 1 {
        let d = s.skip(1);
        assert forall|j: int| 0 <= j < d.len() implies #[trigger] d[j] != '\\' by {
            assert(d[j] == s[j + 1]);
        }
        lemma_resolve_identity(d);
        assert(seq![s[0]] + d =~= s);
    }
}

/// Each edge character of a resolved text is the corresponding edge of the
/// raw text, unless it came out of an escape pair.
proof fn lemma_resolve_edges(s: Seq<char>)
    requires
        s.len() > 0,
    ensures
        is_escapable_char(resolve_escapes(s)[0]) || resolve_escapes(s)[0] == s[0],
        is_escapable_char(resolve_escapes(s).last()) || resolve_escapes(s).last() == s.last(),
    decreases s.len(),
{
    let r = resolve_escapes(s);
    if s.len() >= 2 && s[0] == '\\' && is_escapable_char(s[1]) {
        let t = s.skip(2);
        assert(r == seq![s[1]] + resolve_escapes(t));
        assert(r[0] == s[1]);
        if t.len() == 0 {
            assert(r.last() == s[1]);
        } else {
            lemma_resolve_len(t);
            lemma_resolve_edges(t);
            assert(r.last() == resolve_escapes(t).last());
            assert(t.last() == s.last());
        }
    } else {
        let t = s.skip(1);
        assert(r == seq![s[0]] + resolve_escapes(t));
        assert(r[0] == s[0]);
        if t.len() == 0 {
            assert(r.last() == s[0]);
            assert(s.last() == s[0]);
        } else {
            lemma_resolve_len(t);
            lemma_resolve_edges(t);
            assert(r.last() == resolve_escapes(t).last());
            assert(t.last() == s.last());
        }
    }
}

/// A flush only ever adds a well-formed token.
proof fn lemma_flush_wf(pending: Seq<char>, tokens: Seq<Seq<char>>)
    requires
        wf_tokens(tokens),
    ensures
        wf_tokens(flush_token(pending, tokens)),
{
    let t = trimmed(pending);
    if t.len() > 0 {
        lemma_trimmed_facts(pending);
        lemma_resolve_len(t);
        lemma_resolve_edges(t);
        let r = resolve_escapes(t);
        assert(wf_token(r));
        assert forall|i: int| 0 <= i < tokens.push(r).len() implies wf_token(
            #[trigger] tokens.push(r)[i],
        ) by {
            if i < tokens.len() {
                assert(tokens.push(r)[i] == tokens[i]);
            } else {
                assert(tokens.push(r)[i] == r);
            }
        }
    }
}

/// Scanning preserves well-formedness of the emitted tokens.
proof fn lemma_scan_wf(s: Seq<char>, st: ScanState)
    requires
        wf_tokens(st.tokens),
    ensures
        wf_tokens(scan_chars(s, st).tokens),
    decreases s.len(),
{
    if s.len() > 0 {
        lemma_flush_wf(st.pending, st.tokens);
        lemma_scan_wf(s.drop_first(), scan_step(st, s[0]));
    }
}

/// Every token that `tokenize` yields is well-formed.
proof fn lemma_tokenize_wf(s: Seq<char>)
    ensures
        wf_tokens(tokenize(s)),
{
    lemma_scan_wf(trimmed(s), initial_state());
    let stf = scan_chars(trimmed(s), initial_state());
    lemma_flush_wf(stf.pending, stf.tokens);
}

/// `tokenize` never yields an empty token.
pub proof fn lemma_tokens_nonempty(s: Seq<char>)
    ensures
        forall|i: int| 0 <= i < tokenize(s).len() ==> (#[trigger] tokenize(s)[i]).len() > 0,
{
    lemma_tokenize_wf(s);
    assert forall|i: int| 0 <= i < tokenize(s).len() implies (#[trigger] tokenize(s)[i]).len()
        > 0 by {
        assert(wf_token(tokenize(s)[i]));
    }
}

/// One token, or one still-open run of pending text, that the run count must
/// still pay for.
spec fn potential(st: ScanState) -> nat {
    if has_nonspace(st.pending) || !is_space_char(st.last) {
        1nat
    } else {
        0nat
    }
}

proof fn lemma_has_nonspace_push(p: Seq<char>, c: char)
    ensures
        has_nonspace(p.push(c)) <==> (has_nonspace(p) || !is_space_char(c)),
{
    let q = p.push(c);
    if has_nonspace(p) {
        let j = choose|j: int| 0 <= j < p.len() && !is_space_char(p[j]);
        assert(q[j] == p[j]);
        assert(has_nonspace(q));
    }
    if !is_space_char(c) {
        assert(q[p.len() as int] == c);
        assert(has_nonspace(q));
    }
    if has_nonspace(q) && is_space_char(c) && !has_nonspace(p) {
        let j = choose|j: int| 0 <= j < q.len() && !is_space_char(q[j]);
        assert(q[p.len() as int] == c);
        assert(j < p.len());
        assert(p[j] == q[j]);
        assert(false);
    }
}

/// Scanning can emit at most one token, or open one pending run, per
/// whitespace-delimited run of the text it reads.
proof fn lemma_scan_run_bound(s: Seq<char>, st: ScanState)
    ensures
        scan_chars(s, st).tokens.len() + potential(scan_chars(s, st)) <= st.tokens.len()
            + potential(st) + runs_from(s, is_space_char(st.last)),
    decreases s.len(),
{
    if s.len() > 0 {
        let c = s[0];
        let st2 = scan_step(st, c);
        assert(st2.last == c);
        if st.last == '\\' && is_escapable_char(c) {
            lemma_has_nonspace_push(st.pending, c);
        } else if c == ' ' && st.quote is Unquoted {
            lemma_trimmed_facts(st.pending);
        } else if c == '"' || c == '\'' {
        } else {
            lemma_has_nonspace_push(st.pending, c);
        }
        assert(st2.tokens.len() + potential(st2) <= st.tokens.len() + potential(st) + (
        if !is_space_char(c) && is_space_char(st.last) {
            1nat
        } else {
            0nat
        }));
        lemma_scan_run_bound(s.drop_first(), st2);
    }
}

/// The number of tokens never exceeds the number of whitespace-delimited
/// runs in the trimmed input.
pub proof fn lemma_token_count_le_runs(s: Seq<char>)
    ensures
        tokenize(s).len() <= count_runs(trimmed(s)),
{
    let t = trimmed(s);
    lemma_scan_run_bound(t, initial_state());
    let stf = scan_chars(t, initial_state());
    lemma_trimmed_facts(stf.pending);
}

/// Scanning a concatenation is scanning the parts one after the other.
proof fn lemma_scan_chars_concat(a: Seq<char>, b: Seq<char>, st: ScanState)
    ensures
        scan_chars(a + b, st) == scan_chars(b, scan_chars(a, st)),
    decreases a.len(),
{
    if a.len() == 0 {
        assert(a + b =~= b);
    } else {
        assert((a + b)[0] == a[0]);
        assert((a + b).drop_first() =~= a.drop_first() + b);
        lemma_scan_chars_concat(a.drop_first(), b, scan_step(st, a[0]));
        assert(scan_chars(a + b, st) == scan_chars((a + b).drop_first(), scan_step(st, a[0])));
        assert(scan_chars(a, st) == scan_chars(a.drop_first(), scan_step(st, a[0])));
    }
}

/// Trimming changes nothing when neither edge is whitespace.
proof fn lemma_trimmed_identity(s: Seq<char>)
    requires
        s.len() > 0,
        !is_space_char(s[0]),
        !is_space_char(s.last()),
    ensures
        trimmed(s) == s,
{
    assert(trim_front(s) == s);
    assert(trim_back(s) == s);
}

/// Scanning a word without spaces, quotes or backslashes just appends it to
/// the pending text.
proof fn lemma_scan_plain_word(w: Seq<char>, st: ScanState)
    requires
        st.quote is Unquoted,
        st.last != '\\',
        plain_token(w),
    ensures
        scan_chars(w, st).quote is Unquoted,
        scan_chars(w, st).pending == st.pending + w,
        scan_chars(w, st).tokens == st.tokens,
        scan_chars(w, st).last == if w.len() > 0 {
            w.last()
        } else {
            st.last
        },
    decreases w.len(),
{
    if w.len() == 0 {
        assert(st.pending + w =~= st.pending);
    } else {
        let c = w[0];
        assert(!is_escapable_char(c));
        let st2 = scan_step(st, c);
        assert(st2.pending == st.pending.push(c));
        let d = w.drop_first();
        assert forall|j: int| 0 <= j < d.len() implies !is_escapable_char(#[trigger] d[j]) by {
            assert(d[j] == w[j + 1]);
        }
        lemma_scan_plain_word(d, st2);
        assert(st.pending.push(c) + d =~= st.pending + w);
        if d.len() > 0 {
            assert(d.last() == w.last());
        } else {
            assert(w.last() == c);
        }
    }
}

/// The joined string starts with the first token's first character and ends
/// with the last token's last character.
proof fn lemma_join_edges(ts: Seq<Seq<char>>)
    requires
        ts.len() > 0,
        forall|i: int| 0 <= i < ts.len() ==> (#[trigger] ts[i]).len() > 0,
    ensures
        join_with_spaces(ts).len() > 0,
        join_with_spaces(ts)[0] == ts[0][0],
        join_with_spaces(ts).last() == ts.last().last(),
    decreases ts.len(),
{
    if ts.len() == 1 {
    } else {
        let d = ts.drop_first();
        assert forall|i: int| 0 <= i < d.len() implies (#[trigger] d[i]).len() > 0 by {
            assert(d[i] == ts[i + 1]);
        }
        lemma_join_edges(d);
        let j = join_with_spaces(ts);
        assert(j == ts[0] + seq![' '] + join_with_spaces(d));
        assert(j[0] == ts[0][0]);
        assert(j.last() == join_with_spaces(d).last());
        assert(d.last() == ts.last());
    }
}

/// Scanning the joined tokens emits them all back, the last of them still
/// pending.
proof fn lemma_scan_join(ts: Seq<Seq<char>>, st: ScanState)
    requires
        ts.len() > 0,
        st.quote is Unquoted,
        st.last == ' ',
        st.pending == Seq::<char>::empty(),
        forall|i: int|
            0 <= i < ts.len() ==> plain_token(#[trigger] ts[i]) && wf_token(ts[i]),
    ensures
        scan_chars(join_with_spaces(ts), st).quote is Unquoted,
        scan_chars(join_with_spaces(ts), st).pending == ts.last(),
        scan_chars(join_with_spaces(ts), st).tokens == st.tokens + ts.drop_last(),
        scan_chars(join_with_spaces(ts), st).last == ts.last().last(),
    decreases ts.len(),
{
    if ts.len() == 1 {
        lemma_scan_plain_word(ts[0], st);
        assert(Seq::<char>::empty() + ts[0] =~= ts[0]);
        assert(st.tokens + ts.drop_last() =~= st.tokens);
    } else {
        let w = ts[0];
        let rest = ts.drop_first();
        let jrest = join_with_spaces(rest);
        assert(join_with_spaces(ts) == w + seq![' '] + jrest);
        lemma_scan_chars_concat(w + seq![' '], jrest, st);
        lemma_scan_chars_concat(w, seq![' '], st);
        lemma_scan_plain_word(w, st);
        let st1 = scan_chars(w, st);
        assert(st.pending + w =~= w);
        assert(st1.last == w.last());
        assert(!is_escapable_char(w.last()));
        assert(!is_space_char(w[0]));
        assert(!is_space_char(w.last()));
        lemma_trimmed_identity(w);
        assert forall|j: int| 0 <= j < w.len() implies #[trigger] w[j] != '\\' by {
            assert(!is_escapable_char(w[j]));
        }
        lemma_resolve_identity(w);
        let st2 = scan_step(st1, ' ');
        assert(st2.tokens == st.tokens.push(w));
        assert(seq![' '].drop_first() =~= Seq::<char>::empty());
        assert(seq![' '][0] == ' ');
        assert(scan_chars(seq![' '], st1) == scan_chars(seq![' '].drop_first(), st2));
        assert(scan_chars(Seq::<char>::empty(), st2) == st2);
        assert forall|i: int|
            0 <= i < rest.len() implies plain_token(#[trigger] rest[i]) && wf_token(
            rest[i],
        ) by {
            assert(rest[i] == ts[i + 1]);
        }
        lemma_scan_join(rest, st2);
        assert(scan_chars(join_with_spaces(ts), st) == scan_chars(jrest, st2));
        assert(rest.last() == ts.last());
        assert(st.tokens.push(w) + rest.drop_last() =~= st.tokens + ts.drop_last());
    }
}

/// Re-joining the produced tokens with single spaces and tokenizing the
/// result again yields the same tokens, provided no token contains a space,
/// a quote of either kind, or a backslash.
pub proof fn lemma_retokenize_join(s: Seq<char>)
    requires
        forall|i: int| 0 <= i < tokenize(s).len() ==> plain_token(#[trigger] tokenize(s)[i]),
    ensures
        tokenize(join_with_spaces(tokenize(s))) == tokenize(s),
{
    let ts = tokenize(s);
    lemma_tokenize_wf(s);
    if ts.len() == 0 {
        let e = Seq::<char>::empty();
        assert(join_with_spaces(ts) == e);
        assert(trim_front(e) == e);
        assert(trim_back(e) == e);
        assert(scan_chars(e, initial_state()) == initial_state());
        assert(tokenize(join_with_spaces(ts)) =~= ts);
    } else {
        assert forall|i: int| 0 <= i < ts.len() implies (#[trigger] ts[i]).len() > 0 by {
            assert(wf_token(ts[i]));
        }
        let j = join_with_spaces(ts);
        lemma_join_edges(ts);
        assert(!is_escapable_char(ts[0][0]) && wf_token(ts[0]));
        assert(!is_space_char(j[0]));
        assert(!is_escapable_char(ts.last().last()) && wf_token(ts.last()));
        assert(!is_space_char(j.last()));
        lemma_trimmed_identity(j);
        assert forall|i: int|
            0 <= i < ts.len() implies plain_token(#[trigger] ts[i]) && wf_token(ts[i]) by {}
        lemma_scan_join(ts, initial_state());
        let r = scan_chars(j, initial_state());
        assert(r.pending == ts.last());
        lemma_trimmed_identity(ts.last());
        assert forall|k: int| 0 <= k < ts.last().len() implies #[trigger] ts.last()[k]
            != '\\' by {
            assert(plain_token(ts.last()));
            assert(!is_escapable_char(ts.last()[k]));
        }
        lemma_resolve_identity(ts.last());
        assert(Seq::<Seq<char>>::empty() + ts.drop_last() =~= ts.drop_last());
        assert(ts.drop_last().push(ts.last()) =~= ts);
    }
}

} // verus!
