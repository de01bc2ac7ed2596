//! Whitespace between tokens carries no meaning.

use vstd::prelude::*;
use crate::chars::{alphabetic, is_digit, is_number_char, is_whitespace};
use crate::document::{parse_text, ErrorView};
use crate::lexer::{alpha_run, lex, lex_from, next_lexeme, number_run, string_body};
use crate::token::{LexError, TokenView};

verus! {

/// `s` with the character `w` put in before index `i`.
pub open spec fn with_inserted(s: Seq<char>, i: int, w: char) -> Seq<char> {
    s.subrange(0, i) + seq![w] + s.subrange(i, s.len() as int)
}

/// The scan that starts at index `from` comes, lexeme by lexeme, to stand
/// exactly at index `i`.
pub open spec fn boundary_from(s: Seq<char>, from: int, i: int) -> bool
    decreases (if from < i { i - from } else { 0 }),
{
    from == i || (0 <= from < i && from < s.len() && match next_lexeme(s, from) {
        Ok((_, n)) => boundary_from(s, from + n, i),
        Err(_) => false,
    })
}

/// Index `i` lies between two lexemes of `s`, before the first or behind
/// the last: the scan of `s` comes to stand there.
pub open spec fn is_boundary(s: Seq<char>, i: int) -> bool {
    0 <= i <= s.len() && boundary_from(s, 0, i)
}

/// The error `e` with its index moved on by `d`.
pub open spec fn moved_error(e: LexError, d: int) -> LexError {
    match e {
        LexError::InvalidToken(c, k) => LexError::InvalidToken(c, (k + d) as usize),
        LexError::UnterminatedString(k) => LexError::UnterminatedString((k + d) as usize),
    }
}

/// A scan result with the index of its error, if it is one, moved on by `d`.
pub open spec fn moved<T>(r: Result<T, LexError>, d: int) -> Result<T, LexError> {
    match r {
        Ok(x) => Ok(x),
        Err(e) => Err(moved_error(e, d)),
    }
}

/// From `lo` up to `hi` the text `a` reads as `b` does `d` places further
/// on, and behind that stretch `b` ends or holds a character that continues
/// neither a word nor a number.
pub open spec fn window(a: Seq<char>, b: Seq<char>, d: int, lo: int, hi: int) -> bool {
    &&& 0 <= lo <= hi <= a.len()
    &&& 0 <= d
    &&& hi + d <= b.len()
    &&& forall|k: int| lo <= k < hi ==> #[trigger] a[k] == b[k + d]
    &&& (hi + d == b.len() || (!alphabetic(b[hi + d]) && !is_number_char(b[hi + d])))
}

pub(crate) proof fn lemma_alpha_run(a: Seq<char>, b: Seq<char>, d: int, lo: int, hi: int, k: int)
    requires
        window(a, b, d, lo, hi),
        lo <= k <= hi,
        k + alpha_run(a, k) <= hi || hi == a.len(),
    ensures
        alpha_run(b, k + d) == alpha_run(a, k),
    decreases a.len() - k,
{
    if k < a.len() && alphabetic(a[k]) {
        lemma_alpha_run(a, b, d, lo, hi, k + 1);
    }
}

pub(crate) proof fn lemma_number_run(a: Seq<char>, b: Seq<char>, d: int, lo: int, hi: int, k: int)
    requires
        window(a, b, d, lo, hi),
        lo <= k <= hi,
        k + number_run(a, k) <= hi || hi == a.len(),
    ensures
        number_run(b, k + d) == number_run(a, k),
    decreases a.len() - k,
{
    if k < a.len() && is_number_char(a[k]) {
        lemma_number_run(a, b, d, lo, hi, k + 1);
    }
}

proof fn lemma_string_body(a: Seq<char>, b: Seq<char>, d: int, lo: int, hi: int, k: int)
    requires
        window(a, b, d, lo, hi),
        lo <= k <= hi,
        (string_body(a, k) matches Some((_, n)) && k + n <= hi) || (hi == a.len() && b.len() == hi
            + d),
    ensures
        string_body(b, k + d) == string_body(a, k),
    decreases a.len() - k,
{
    if k < a.len() {
        if a[k] == '\\' {
            if k + 1 < a.len() {
                lemma_string_body(a, b, d, lo, hi, k + 2);
            }
        } else if a[k] != '"' {
            lemma_string_body(a, b, d, lo, hi, k + 1);
        }
    }
}

proof fn lemma_next_lexeme(a: Seq<char>, b: Seq<char>, d: int, lo: int, hi: int, k: int)
    requires
        window(a, b, d, lo, hi),
        lo <= k < hi,
        b.len() <= usize::MAX,
        (next_lexeme(a, k) matches Ok((_, n)) && k + n <= hi) || (hi == a.len() && b.len() == hi
            + d),
    ensures
        next_lexeme(b, k + d) == moved(next_lexeme(a, k), d),
{
    let c = a[k];
    if is_whitespace(c) || c == '{' || c == '}' || c == '[' || c == ']' || c == ':' || c == ',' {
    } else if c == '"' {
        lemma_string_body(a, b, d, lo, hi, k + 1);
    } else if alphabetic(c) {
        lemma_alpha_run(a, b, d, lo, hi, k + 1);
        lemma_alpha_bound(a, k + 1);
        let n = 1 + alpha_run(a, k + 1);
        assert(b.subrange(k + d, k + d + n) =~= a.subrange(k, k + n));
    } else if is_digit(c) || c == '-' {
        lemma_number_run(a, b, d, lo, hi, k + 1);
        lemma_number_bound(a, k + 1);
        let n = 1 + number_run(a, k + 1);
        assert(b.subrange(k + d, k + d + n) =~= a.subrange(k, k + n));
    }
}

/// A run that starts inside a text ends inside it.
proof fn lemma_lexeme_ends_inside(s: Seq<char>, k: int)
    requires
        0 <= k < s.len(),
    ensures
        next_lexeme(s, k) matches Ok((_, n)) ==> 1 <= n && k + n <= s.len(),
{
    lemma_alpha_bound(s, k + 1);
    lemma_number_bound(s, k + 1);
    lemma_string_bound(s, k + 1);
}

proof fn lemma_alpha_bound(s: Seq<char>, k: int)
    requires
        0 <= k <= s.len(),
    ensures
        k + alpha_run(s, k) <= s.len(),
    decreases s.len() - k,
{
    if k < s.len() && alphabetic(s[k]) {
        lemma_alpha_bound(s, k + 1);
    }
}

proof fn lemma_number_bound(s: Seq<char>, k: int)
    requires
        0 <= k <= s.len(),
    ensures
        k + number_run(s, k) <= s.len(),
    decreases s.len() - k,
{
    if k < s.len() && is_number_char(s[k]) {
        lemma_number_bound(s, k + 1);
    }
}

proof fn lemma_string_bound(s: Seq<char>, k: int)
    requires
        0 <= k <= s.len(),
    ensures
        string_body(s, k) matches Some((_, n)) ==> k + n <= s.len(),
    decreases s.len() - k,
{
    if k < s.len() && s[k] != '"' {
        if s[k] == '\\' {
            if k + 1 < s.len() {
                lemma_string_bound(s, k + 2);
            }
        } else {
            lemma_string_bound(s, k + 1);
        }
    }
}

pub(crate) proof fn lemma_lex_moved(a: Seq<char>, b: Seq<char>, d: int, lo: int, k: int)
    requires
        window(a, b, d, lo, a.len() as int),
        b.len() == a.len() + d,
        b.len() <= usize::MAX,
        lo <= k <= a.len(),
    ensures
        lex_from(b, k + d) == moved(lex_from(a, k), d),
    decreases a.len() - k,
{
    if k < a.len() {
        lemma_next_lexeme(a, b, d, lo, a.len() as int, k);
        lemma_lexeme_ends_inside(a, k);
        match next_lexeme(a, k) {
            Ok((_, n)) => {
                lemma_lex_moved(a, b, d, lo, k + n);
            },
            Err(_) => {},
        }
    }
}

proof fn lemma_lex_inserted(s: Seq<char>, i: int, w: char, from: int)
    requires
        0 <= from <= i <= s.len(),
        s.len() < usize::MAX,
        boundary_from(s, from, i),
        is_whitespace(w),
    ensures
        lex_from(with_inserted(s, i, w), from) == moved(lex_from(s, from), 1),
    decreases i - from,
{
    let t = with_inserted(s, i, w);
    if from == i {
        assert forall|k: int| i <= k < s.len() implies #[trigger] s[k] == t[k + 1] by {}
        lemma_lex_moved(s, t, 1, i, i);
    } else {
        reveal_with_fuel(boundary_from, 2);
        assert forall|k: int| 0 <= k < i implies #[trigger] s[k] == t[k + 0] by {}
        match next_lexeme(s, from) {
            Ok((found, n)) => {
                lemma_next_lexeme(s, t, 0, 0, i, from);
                lemma_lex_inserted(s, i, w, from + n);
            },
            Err(_) => {},
        }
    }
}

/// A whitespace character put in between two lexemes of a text changes
/// neither its tokens nor the value it denotes; a scan error keeps its kind
/// and character, and its index moves on by the one place.
///
/// Taking such a character out again is the same equation read from right to
/// left.
pub proof fn lemma_whitespace_insertion(s: Seq<char>, i: int, w: char)
    requires
        is_boundary(s, i),
        is_whitespace(w),
        s.len() < usize::MAX,
    ensures
        lex(with_inserted(s, i, w)) == moved(lex(s), 1),
        parse_text(with_inserted(s, i, w)) == match parse_text(s) {
            Err(ErrorView::Lex(e)) => Err(ErrorView::Lex(moved_error(e, 1))),
            other => other,
        },
{
    lemma_lex_inserted(s, i, w, 0);
}

/// `s` with the characters `ws` put in before index `i`.
pub open spec fn with_run_inserted(s: Seq<char>, i: int, ws: Seq<char>) -> Seq<char> {
    s.subrange(0, i) + ws + s.subrange(i, s.len() as int)
}

/// Whitespace characters only.
pub open spec fn is_blank(ws: Seq<char>) -> bool {
    forall|k: int| 0 <= k < ws.len() ==> is_whitespace(#[trigger] ws[k])
}

proof fn lemma_boundary_kept(s: Seq<char>, t: Seq<char>, i: int, from: int)
    requires
        0 <= from <= i <= s.len(),
        window(s, t, 0, 0, i),
        t.len() <= usize::MAX,
        boundary_from(s, from, i),
    ensures
        boundary_from(t, from, i),
    decreases i - from,
{
    if from < i {
        reveal_with_fuel(boundary_from, 2);
        match next_lexeme(s, from) {
            Ok((_, n)) => {
                lemma_next_lexeme(s, t, 0, 0, i, from);
                lemma_boundary_kept(s, t, i, from + n);
            },
            Err(_) => {},
        }
    }
}

/// Any amount of whitespace put in between two lexemes of a text that scans
/// changes neither its tokens nor the value it denotes; a text that does not
/// scan still does not. The place stays one between two lexemes. Taking
/// the whitespace out again is the same equations read from right to left.
pub proof fn lemma_whitespace_run_insertion(s: Seq<char>, i: int, ws: Seq<char>)
    requires
        is_boundary(s, i),
        is_blank(ws),
        s.len() + ws.len() <= usize::MAX,
    ensures
        is_boundary(with_run_inserted(s, i, ws), i),
        lex(s) is Ok ==> lex(with_run_inserted(s, i, ws)) == lex(s),
        lex(s) is Ok ==> parse_text(with_run_inserted(s, i, ws)) == parse_text(s),
        lex(s) is Err ==> lex(with_run_inserted(s, i, ws)) is Err,
    decreases ws.len(),
{
    let t = with_run_inserted(s, i, ws);
    if ws.len() == 0 {
        assert(t =~= s);
    } else {
        let shorter = with_run_inserted(s, i, ws.drop_first());
        lemma_whitespace_run_insertion(s, i, ws.drop_first());
        lemma_whitespace_insertion(shorter, i, ws[0]);
        assert(with_inserted(shorter, i, ws[0]) =~= t);
        assert(t[i] == ws[0]);
        assert forall|k: int| 0 <= k < i implies #[trigger] s[k] == t[k + 0] by {}
        assert(window(s, t, 0, 0, i));
        lemma_boundary_kept(s, t, i, 0);
    }
}

} // verus!
