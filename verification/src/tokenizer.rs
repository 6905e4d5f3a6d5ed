//! The executable tokenizer, proved equal to the model in [`crate::model`].

use vstd::prelude::*;
use vstd::string::StrSliceExecFns;

use crate::model::{
    initial_state, is_escapable_char, is_space_char, resolve_escapes, scan_chars, scan_step,
    trim_back, trim_front, trimmed, QuoteState, ScanState,
};

verus! {

/// True when `c` is one of the whitespace characters the tokenizer trims.
fn is_space(c: char) -> (b: bool)
    ensures
        b == is_space_char(c),
{
    c == '\u{0009}' || c == '\u{000A}' || c == '\u{000B}' || c == '\u{000C}' || c == '\u{000D}'
        || c == '\u{0020}' || c == '\u{0085}' || c == '\u{00A0}' || c == '\u{1680}'
        || c == '\u{2000}' || c == '\u{2001}' || c == '\u{2002}' || c == '\u{2003}'
        || c == '\u{2004}' || c == '\u{2005}' || c == '\u{2006}' || c == '\u{2007}'
        || c == '\u{2008}' || c == '\u{2009}' || c == '\u{200A}' || c == '\u{2028}'
        || c == '\u{2029}' || c == '\u{202F}' || c == '\u{205F}' || c == '\u{3000}'
}

/// True when a backslash before `c` escapes it.
fn is_escapable(c: char) -> (b: bool)
    ensures
        b == is_escapable_char(c),
{
    c == '"' || c == '\'' || c == ' ' || c == '\\'
}

/// The characters of `s`, in order.
fn str_chars(s: &str) -> (v: Vec<char>)
    ensures
        v@ == s@,
{
    let n = s.unicode_len();
    let mut v: Vec<char> = Vec::new();
    let mut i: usize = 0;
    while i < n
        invariant
            i <= n,
            n == s@.len(),
            v@ == s@.take(i as int),
        decreases n - i,
    {
        let c = s.get_char(i);
        v.push(c);
        proof {
            assert(v@ =~= s@.take(i + 1 as int));
        }
        i = i + 1;
    }
    proof {
        assert(s@.take(n as int) =~= s@);
    }
    v
}

/// Dropping `k` leading whitespace characters, up to the first
/// non-whitespace one, is exactly what `trim_front` does.
proof fn lemma_trim_front_eq(s: Seq<char>, k: int)
    requires
        0 <= k <= s.len(),
        forall|j: int| 0 <= j < k ==> is_space_char(s[j]),
        k == s.len() || !is_space_char(s[k]),
    ensures
        trim_front(s) == s.skip(k),
    decreases k,
{
    if k == 0 {
        assert(s.skip(0) =~= s);
    } else {
        assert(is_space_char(s[0]));
        lemma_trim_front_eq(s.drop_first(), k - 1);
        assert(s.drop_first().skip(k - 1) =~= s.skip(k));
    }
}

/// Keeping the first `k` characters, the later ones all whitespace and the
/// `k`-th from the end not, is exactly what `trim_back` does.
proof fn lemma_trim_back_eq(s: Seq<char>, k: int)
    requires
        0 <= k <= s.len(),
        forall|j: int| k <= j < s.len() ==> is_space_char(s[j]),
        k == 0 || !is_space_char(s[k - 1]),
    ensures
        trim_back(s) == s.take(k),
    decreases s.len() - k,
{
    if k == s.len() {
        assert(s.take(k) =~= s);
    } else {
        assert(is_space_char(s.last()));
        lemma_trim_back_eq(s.drop_last(), k);
        assert(s.drop_last().take(k) =~= s.take(k));
    }
}

/// `v` without its leading and trailing whitespace.
fn trim_spaces(v: &Vec<char>) -> (r: Vec<char>)
    ensures
        r@ == trimmed(v@),
{
    let n = v.len();
    let mut lo: usize = 0;
    while lo < n && is_space(v[lo])
        invariant
            lo <= n,
            n == v@.len(),
            forall|j: int| 0 <= j < lo ==> is_space_char(v@[j]),
        decreases n - lo,
    {
        lo = lo + 1;
    }
    let mut hi: usize = n;
    while hi > lo && is_space(v[hi - 1])
        invariant
            lo <= hi <= n,
            n == v@.len(),
            forall|j: int| hi <= j < n ==> is_space_char(v@[j]),
        decreases hi,
    {
        hi = hi - 1;
    }
    let mut r: Vec<char> = Vec::new();
    let mut i: usize = lo;
    while i < hi
        invariant
            lo <= i <= hi <= n,
            n == v@.len(),
            r@ == v@.subrange(lo as int, i as int),
        decreases hi - i,
    {
        let c = v[i];
        r.push(c);
        proof {
            assert(r@ =~= v@.subrange(lo as int, i + 1 as int));
        }
        i = i + 1;
    }
    proof {
        lemma_trim_front_eq(v@, lo as int);
        let s = v@.skip(lo as int);
        assert forall|j: int| hi - lo <= j < s.len() implies is_space_char(s[j]) by {
            assert(s[j] == v@[lo + j]);
        }
        if hi > lo {
            assert(s[hi - lo - 1] == v@[hi - 1]);
        }
        lemma_trim_back_eq(s, hi - lo);
        assert(s.take(hi - lo) =~= v@.subrange(lo as int, hi as int));
    }
    r
}

/// Applies the escape substitutions to `v`, left to right, in one pass.
fn resolve(v: &Vec<char>) -> (r: Vec<char>)
    ensures
        r@ == resolve_escapes(v@),
{
    let n = v.len();
    let mut r: Vec<char> = Vec::new();
    let mut i: usize = 0;
    proof {
        assert(v@.skip(0) =~= v@);
        assert(Seq::<char>::empty() + resolve_escapes(v@) =~= resolve_escapes(v@));
    }
    while i < n
        invariant
            i <= n,
            n == v@.len(),
            resolve_escapes(v@) == r@ + resolve_escapes(v@.skip(i as int)),
        decreases n - i,
    {
        let c = v[i];
        if c == '\\' && i + 1 < n && is_escapable(v[i + 1]) {
            let e = v[i + 1];
            proof {
                let s = v@.skip(i as int);
                assert(s[0] == c && s[1] == e);
                assert(s.skip(2) =~= v@.skip(i + 2 as int));
                assert(r@ + (seq![e] + resolve_escapes(s.skip(2))) =~= r@.push(e)
                    + resolve_escapes(v@.skip(i + 2 as int)));
            }
            r.push(e);
            i = i + 2;
        } else {
            proof {
                let s = v@.skip(i as int);
                assert(s[0] == c);
                if s.len() >= 2 {
                    assert(s[1] == v@[i + 1]);
                }
                assert(s.skip(1) =~= v@.skip(i + 1 as int));
                assert(r@ + (seq![c] + resolve_escapes(s.skip(1))) =~= r@.push(c)
                    + resolve_escapes(v@.skip(i + 1 as int)));
            }
            r.push(c);
            i = i + 1;
        }
    }
    proof {
        assert(v@.skip(n as int) =~= Seq::<char>::empty());
        assert(r@ + Seq::<char>::empty() =~= r@);
    }
    r
}

/// Relies on `String`'s `FromIterator<char>` implementation: the collected
/// string holds exactly the iterated characters, in order.
#[verifier::external_body]
fn chars_to_string(v: Vec<char>) -> (s: String)
    ensures
        s@ == v@,
{
    String::from_iter(v)
}

/// Appending a character to the scanned sequence runs one more scan step.
proof fn lemma_scan_chars_push(s: Seq<char>, c: char, st: ScanState)
    ensures
        scan_chars(s.push(c), st) == scan_step(scan_chars(s, st), c),
    decreases s.len(),
{
    assert(s.push(c).len() == s.len() + 1);
    if s.len() == 0 {
        assert(s.push(c)[0] == c);
        assert(s.push(c).drop_first() =~= Seq::<char>::empty());
        assert(scan_chars(s.push(c), st) == scan_chars(
            Seq::<char>::empty(),
            scan_step(st, c),
        ));
        assert(scan_chars(Seq::<char>::empty(), scan_step(st, c)) == scan_step(st, c));
        assert(scan_chars(s, st) == st);
    } else {
        assert(s.push(c)[0] == s[0]);
        assert(s.push(c).drop_first() =~= s.drop_first().push(c));
        assert(scan_chars(s.push(c), st) == scan_chars(
            s.drop_first().push(c),
            scan_step(st, s[0]),
        ));
        lemma_scan_chars_push(s.drop_first(), c, scan_step(st, s[0]));
        assert(scan_chars(s, st) == scan_chars(s.drop_first(), scan_step(st, s[0])));
    }
}

/// Pushing one string onto a vector pushes its view onto the deep view.
proof fn lemma_deep_view_push(pre: Vec<String>, post: Vec<String>, x: String)
    requires
        post@ == pre@.push(x),
    ensures
        post.deep_view() == pre.deep_view().push(x@),
{
    assert(post.deep_view() =~= pre.deep_view().push(x@));
}

/// Ends the token being assembled, as `flush_token` of the model says.
fn flush_pending(pending: Vec<char>, tokens: &mut Vec<String>)
    ensures
        final(tokens).deep_view() == crate::model::flush_token(pending@, old(tokens).deep_view()),
{
    let tr = trim_spaces(&pending);
    if tr.len() > 0 {
        let r = resolve(&tr);
        let s = chars_to_string(r);
        let ghost pre = *tokens;
        tokens.push(s);
        proof {
            lemma_deep_view_push(pre, *tokens, s);
        }
    }
}

/// Splits `s` into its argument tokens.
///
/// The input is trimmed, then scanned left to right: unquoted spaces
/// separate tokens, quote characters of either kind group text without
/// becoming part of it, and a backslash escapes a following quote, space or
/// backslash. The result is exactly `tokenize` of the model applied to the
/// characters of `s`.
pub fn parse_process_args(s: &str) -> (tokens: Vec<String>)
    ensures
        tokens.deep_view() == crate::model::tokenize(s@),
{
    let chars = str_chars(s);
    let t = trim_spaces(&chars);
    let n = t.len();
    let mut quote = QuoteState::Unquoted;
    let mut last = ' ';
    let mut pending: Vec<char> = Vec::new();
    let mut tokens: Vec<String> = Vec::new();
    let mut i: usize = 0;
    while i < n
        invariant
            i <= n,
            n == t@.len(),
            t@ == trimmed(s@),
            quote == scan_chars(t@.take(i as int), initial_state()).quote,
            last == scan_chars(t@.take(i as int), initial_state()).last,
            pending@ == scan_chars(t@.take(i as int), initial_state()).pending,
            tokens.deep_view() == scan_chars(t@.take(i as int), initial_state()).tokens,
        decreases n - i,
    {
        proof {
            lemma_scan_chars_push(t@.take(i as int), t@[i as int], initial_state());
            assert(t@.take(i as int).push(t@[i as int]) =~= t@.take(i + 1 as int));
        }
        let c = t[i];
        if last == '\\' && is_escapable(c) {
            pending.push(c);
        } else if c == '"' && quote == QuoteState::Unquoted {
            quote = QuoteState::InDoubleQuote;
        } else if c == '"' && quote == QuoteState::InDoubleQuote {
            quote = QuoteState::Unquoted;
        } else if c == '\'' && quote == QuoteState::Unquoted {
            quote = QuoteState::InSingleQuote;
        } else if c == '\'' && quote == QuoteState::InSingleQuote {
            quote = QuoteState::Unquoted;
        } else if c == ' ' && quote == QuoteState::Unquoted {
            let p = pending;
            pending = Vec::new();
            flush_pending(p, &mut tokens);
        } else {
            pending.push(c);
        }
        last = c;
        i = i + 1;
    }
    proof {
        assert(t@.take(n as int) =~= t@);
    }
    flush_pending(pending, &mut tokens);
    tokens
}

} // verus!
