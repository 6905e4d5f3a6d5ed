//! The mathematical model of the tokenizer.
//!
//! A raw argument string is scanned left to right, one character at a time,
//! with one character of lookback. Three quote modes govern how a character
//! is read; quote characters toggle the mode and are elided, while the text
//! they enclose is kept verbatim. An unquoted space ends the token being
//! assembled: its raw text is trimmed, its escape pairs are resolved, and,
//! if anything is left, the result is emitted. The whole input is trimmed
//! first, and a final flush after the last character ends the last token,
//! so an unterminated quote or a trailing lone backslash degrades gracefully
//! instead of failing.

use vstd::prelude::*;

verus! {

/// The scanner's interpretation mode: outside any quotes, inside single
/// quotes, or inside double quotes. Exactly one is active at a time.
#[derive(Clone, Copy, PartialEq, Eq, Structural)]
pub enum QuoteState {
    Unquoted,
    InSingleQuote,
    InDoubleQuote,
}

/// The characters treated as whitespace when the input and each assembled
/// token are trimmed: the Unicode White_Space code points. Only the plain
/// space among them separates tokens; the others are ordinary characters to
/// the scanner and matter only at the edges of the input and of a token.
pub open spec fn is_space_char(c: char) -> bool {
    c == '\u{0009}' || c == '\u{000A}' || c == '\u{000B}' || c == '\u{000C}' || c == '\u{000D}'
        || c == '\u{0020}' || c == '\u{0085}' || c == '\u{00A0}' || c == '\u{1680}'
        || c == '\u{2000}' || c == '\u{2001}' || c == '\u{2002}' || c == '\u{2003}'
        || c == '\u{2004}' || c == '\u{2005}' || c == '\u{2006}' || c == '\u{2007}'
        || c == '\u{2008}' || c == '\u{2009}' || c == '\u{200A}' || c == '\u{2028}'
        || c == '\u{2029}' || c == '\u{202F}' || c == '\u{205F}' || c == '\u{3000}'
}

/// The characters a backslash can escape. A backslash before any other
/// character is kept literally, escaping nothing.
pub open spec fn is_escapable_char(c: char) -> bool {
    c == '"' || c == '\'' || c == ' ' || c == '\\'
}

/// `s` without its leading whitespace.
pub open spec fn trim_front(s: Seq<char>) -> Seq<char>
    decreases s.len(),
{
    if s.len() > 0 && is_space_char(s[0]) {
        trim_front(s.drop_first())
    } else {
        s
    }
}

/// `s` without its trailing whitespace.
pub open spec fn trim_back(s: Seq<char>) -> Seq<char>
    decreases s.len(),
{
    if s.len() > 0 && is_space_char(s.last()) {
        trim_back(s.drop_last())
    } else {
        s
    }
}

/// `s` without its leading and trailing whitespace.
pub open spec fn trimmed(s: Seq<char>) -> Seq<char> {
    trim_back(trim_front(s))
}

/// One left-to-right pass of escape substitution: a backslash followed by a
/// quote, a space or another backslash resolves to that second character
/// alone, and the pair is consumed together, so a character produced by one
/// substitution is never reinterpreted by a later one. Any other character,
/// a lone trailing backslash included, is kept as it is.
pub open spec fn resolve_escapes(s: Seq<char>) -> Seq<char>
    decreases s.len(),
{
    if s.len() >= 2 && s[0] == '\\' && is_escapable_char(s[1]) {
        seq![s[1]] + resolve_escapes(s.skip(2))
    } else if s.len() >= 1 {
        seq![s[0]] + resolve_escapes(s.skip(1))
    } else {
        Seq::empty()
    }
}

/// The scanner's state: the quote mode, the previously read character, the
/// raw text collected for the token being assembled, and the tokens already
/// emitted.
pub ghost struct ScanState {
    pub quote: QuoteState,
    pub last: char,
    pub pending: Seq<char>,
    pub tokens: Seq<Seq<char>>,
}

/// The state before any character has been read.
pub open spec fn initial_state() -> ScanState {
    ScanState {
        quote: QuoteState::Unquoted,
        last: ' ',
        pending: Seq::empty(),
        tokens: Seq::empty(),
    }
}

/// Ends the token being assembled: the raw text is trimmed, and if anything
/// is left its escapes are resolved and the result is emitted. An empty or
/// all-whitespace fragment yields no token.
pub open spec fn flush_token(pending: Seq<char>, tokens: Seq<Seq<char>>) -> Seq<Seq<char>> {
    let t = trimmed(pending);
    if t.len() > 0 {
        tokens.push(resolve_escapes(t))
    } else {
        tokens
    }
}

/// One step of the scan, reading the character `c`.
///
/// A backslash read in the previous step escapes `c` when `c` is escapable:
/// the pair stays verbatim in the raw text (the backslash was already kept
/// when it was read) and `c` has no structural effect. Otherwise a quote
/// character toggles its own quote mode and is elided, an unquoted space
/// ends the token, and every other character, spaces inside quotes
/// included, joins the raw text.
pub open spec fn scan_step(st: ScanState, c: char) -> ScanState {
    if st.last == '\\' && is_escapable_char(c) {
        ScanState { quote: st.quote, last: c, pending: st.pending.push(c), tokens: st.tokens }
    } else if c == '"' && st.quote is Unquoted {
        ScanState { quote: QuoteState::InDoubleQuote, last: c, pending: st.pending, tokens: st.tokens }
    } else if c == '"' && st.quote is InDoubleQuote {
        ScanState { quote: QuoteState::Unquoted, last: c, pending: st.pending, tokens: st.tokens }
    } else if c == '\'' && st.quote is Unquoted {
        ScanState { quote: QuoteState::InSingleQuote, last: c, pending: st.pending, tokens: st.tokens }
    } else if c == '\'' && st.quote is InSingleQuote {
        ScanState { quote: QuoteState::Unquoted, last: c, pending: st.pending, tokens: st.tokens }
    } else if c == ' ' && st.quote is Unquoted {
        ScanState {
            quote: st.quote,
            last: c,
            pending: Seq::empty(),
            tokens: flush_token(st.pending, st.tokens),
        }
    } else {
        ScanState { quote: st.quote, last: c, pending: st.pending.push(c), tokens: st.tokens }
    }
}

/// Scans the characters of `s` in order, starting from `st`.
pub open spec fn scan_chars(s: Seq<char>, st: ScanState) -> ScanState
    decreases s.len(),
{
    if s.len() == 0 {
        st
    } else {
        scan_chars(s.drop_first(), scan_step(st, s[0]))
    }
}

/// The tokens of `input`: the input is trimmed, its characters are scanned
/// from the initial state, and a final flush ends the last token. The final
/// flush stands for the space the scan appends after the last character, so
/// the last token is ended by the same rule as the interior ones; because it
/// lies past the real input, a backslash before it never escapes it, and it
/// ends the token whatever quote mode is still open.
pub open spec fn tokenize(input: Seq<char>) -> Seq<Seq<char>> {
    let st = scan_chars(trimmed(input), initial_state());
    flush_token(st.pending, st.tokens)
}

} // verus!
