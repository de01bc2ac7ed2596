//! The scanner: one pass over the characters, left to right.

use vstd::prelude::*;
use crate::chars::{
    alphabetic, decode_escape, digit, is_alphabetic, is_digit, is_number_char, is_whitespace,
    number_char, unescape, whitespace,
};
use crate::token::{tokens_view, LexError, Token, TokenView};

verus! {

/// How many alphabetic characters stand in a row from index `i` on.
pub open spec fn alpha_run(s: Seq<char>, i: int) -> nat
    decreases s.len() - i,
{
    if 0 <= i < s.len() && alphabetic(s[i]) {
        1 + alpha_run(s, i + 1)
    } else {
        0
    }
}

/// How many number characters stand in a row from index `i` on.
pub open spec fn number_run(s: Seq<char>, i: int) -> nat
    decreases s.len() - i,
{
    if 0 <= i < s.len() && is_number_char(s[i]) {
        1 + number_run(s, i + 1)
    } else {
        0
    }
}

/// The rest of a string literal whose opening quote stands just before
/// index `i`: the decoded content, and how many characters it takes up to and
/// including the closing quote. `None` where the text ends first.
pub open spec fn string_body(s: Seq<char>, i: int) -> Option<(Seq<char>, nat)>
    decreases s.len() - i,
{
    if i < 0 || i >= s.len() {
        None
    } else if s[i] == '"' {
        Some((Seq::empty(), 1nat))
    } else if s[i] == '\\' {
        if i + 1 >= s.len() {
            None
        } else {
            match string_body(s, i + 2) {
                Some((rest, n)) => Some((seq![unescape(s[i + 1])] + rest, n + 2)),
                None => None,
            }
        }
    } else {
        match string_body(s, i + 1) {
            Some((rest, n)) => Some((seq![s[i]] + rest, n + 1)),
            None => None,
        }
    }
}

/// The keyword that a word spells, if any.
pub open spec fn keyword(word: Seq<char>) -> Option<TokenView> {
    if word == seq!['t', 'r', 'u', 'e'] {
        Some(TokenView::True)
    } else if word == seq!['f', 'a', 'l', 's', 'e'] {
        Some(TokenView::False)
    } else if word == seq!['n', 'u', 'l', 'l'] {
        Some(TokenView::Null)
    } else {
        None
    }
}

/// What stands at index `i`: whitespace (no token) or a token, with the
/// number of characters it takes; or the error that stops the scan there.
pub open spec fn next_lexeme(s: Seq<char>, i: int) -> Result<(Option<TokenView>, nat), LexError>
    recommends
        0 <= i < s.len(),
{
    let c = s[i];
    if is_whitespace(c) {
        Ok((None, 1nat))
    } else if c == '{' {
        Ok((Some(TokenView::LBrace), 1nat))
    } else if c == '}' {
        Ok((Some(TokenView::RBrace), 1nat))
    } else if c == '[' {
        Ok((Some(TokenView::LBracket), 1nat))
    } else if c == ']' {
        Ok((Some(TokenView::RBracket), 1nat))
    } else if c == ':' {
        Ok((Some(TokenView::Colon), 1nat))
    } else if c == ',' {
        Ok((Some(TokenView::Comma), 1nat))
    } else if c == '"' {
        match string_body(s, i + 1) {
            Some((text, n)) => Ok((Some(TokenView::String(text)), n + 1)),
            None => Err(LexError::UnterminatedString(i as usize)),
        }
    } else if alphabetic(c) {
        let n = 1 + alpha_run(s, i + 1);
        match keyword(s.subrange(i, i + n)) {
            Some(t) => Ok((Some(t), n)),
            None => Err(LexError::InvalidToken(c, i as usize)),
        }
    } else if is_digit(c) || c == '-' {
        let n = 1 + number_run(s, i + 1);
        Ok((Some(TokenView::Number(s.subrange(i, i + n))), n))
    } else {
        Err(LexError::InvalidToken(c, i as usize))
    }
}

/// The tokens of `s` from index `i` on, or the first error.
pub open spec fn lex_from(s: Seq<char>, i: int) -> Result<Seq<TokenView>, LexError>
    decreases (if i < s.len() { s.len() - i } else { 0 }),
{
    if i < 0 || i >= s.len() {
        Ok(Seq::empty())
    } else {
        match next_lexeme(s, i) {
            Err(e) => Err(e),
            Ok((found, n)) => put_first(found, lex_from(s, i + n)),
        }
    }
}

/// `rest` with the token `found`, if there is one, in front.
pub open spec fn put_first(found: Option<TokenView>, rest: Result<Seq<TokenView>, LexError>)
    -> Result<Seq<TokenView>, LexError> {
    match (found, rest) {
        (_, Err(e)) => Err(e),
        (None, Ok(ts)) => Ok(ts),
        (Some(t), Ok(ts)) => Ok(seq![t] + ts),
    }
}

/// The tokens of a whole text.
pub open spec fn lex(s: Seq<char>) -> Result<Seq<TokenView>, LexError> {
    lex_from(s, 0)
}

/// `rest` with the tokens `done` in front.
pub open spec fn after(done: Seq<TokenView>, rest: Result<Seq<TokenView>, LexError>) -> Result<
    Seq<TokenView>,
    LexError,
> {
    match rest {
        Ok(ts) => Ok(done + ts),
        Err(e) => Err(e),
    }
}

/// `std::string::String::push` appends one character.
pub assume_specification[ std::string::String::push ](s: &mut std::string::String, ch: char)
    ensures
        final(s)@ == old(s)@.push(ch),
;

/// The characters of a text, one per element.
pub fn to_chars(s: &str) -> (v: Vec<char>)
    ensures
        v@ == s@,
{
    broadcast use vstd::string::axiom_spec_iter;

    let mut v: Vec<char> = Vec::new();
    for c in it: s.chars()
        invariant
            it.seq() == s@,
            v.len() == it.index(),
            forall|j: int| 0 <= j < v.len() ==> v@[j] == it.seq()[j],
    {
        v.push(c);
    }
    proof {
        assert(v@ =~= s@);
    }
    v
}

/// The characters from `start` up to `end` as an owned string.
pub fn text_between(chars: &Vec<char>, start: usize, end: usize) -> (r: String)
    requires
        start <= end <= chars.len(),
    ensures
        r@ == chars@.subrange(start as int, end as int),
{
    let mut r = String::new();
    let mut k: usize = start;
    while k < end
        invariant
            start <= k <= end <= chars.len(),
            r@ == chars@.subrange(start as int, k as int),
        decreases end - k,
    {
        r.push(chars[k]);
        k += 1;
        proof {
            assert(r@ =~= chars@.subrange(start as int, k as int));
        }
    }
    r
}

/// The index just behind the run of alphabetic characters that starts at `i`.
fn skip_alphabetic(chars: &Vec<char>, i: usize) -> (end: usize)
    requires
        i <= chars.len(),
    ensures
        end == i + alpha_run(chars@, i as int),
        end <= chars.len(),
{
    let mut k: usize = i;
    while k < chars.len() && is_alphabetic(chars[k])
        invariant
            i <= k <= chars.len(),
            k + alpha_run(chars@, k as int) == i + alpha_run(chars@, i as int),
        decreases chars.len() - k,
    {
        k += 1;
    }
    k
}

/// The index just behind the run of number characters that starts at `i`.
fn skip_number(chars: &Vec<char>, i: usize) -> (end: usize)
    requires
        i <= chars.len(),
    ensures
        end == i + number_run(chars@, i as int),
        end <= chars.len(),
{
    let mut k: usize = i;
    while k < chars.len() && number_char(chars[k])
        invariant
            i <= k <= chars.len(),
            k + number_run(chars@, k as int) == i + number_run(chars@, i as int),
        decreases chars.len() - k,
    {
        k += 1;
    }
    k
}

/// `rest` with `done` decoded characters in front and `used` more characters
/// counted.
pub open spec fn body_after(done: Seq<char>, used: int, rest: Option<(Seq<char>, nat)>) -> Option<
    (Seq<char>, nat),
> {
    match rest {
        Some((text, n)) => Some((done + text, (n + used) as nat)),
        None => None,
    }
}

/// Reads a string literal whose opening quote stands just before `start`:
/// the decoded content and the index behind the closing quote.
fn scan_string(chars: &Vec<char>, start: usize) -> (r: Option<(String, usize)>)
    requires
        start <= chars.len(),
    ensures
        match string_body(chars@, start as int) {
            Some((text, n)) => r is Some && r.unwrap().0@ == text && r.unwrap().1 == start + n
                && start + n <= chars.len(),
            None => r is None,
        },
{
    let mut content = String::new();
    let mut k: usize = start;
    let ghost s = chars@;
    while k < chars.len()
        invariant
            start <= k <= chars.len(),
            s == chars@,
            string_body(s, start as int) == body_after(
                content@,
                k - start,
                string_body(s, k as int),
            ),
        decreases chars.len() - k,
    {
        let c = chars[k];
        if c == '"' {
            proof {
                assert(content@ + Seq::<char>::empty() =~= content@);
            }
            return Some((content, k + 1));
        } else if c == '\\' {
            if k + 1 < chars.len() {
                let ghost before = content@;
                let e = decode_escape(chars[k + 1]);
                content.push(e);
                proof {
                    let rest = string_body(s, k + 2);
                    if let Some((text, n)) = rest {
                        assert(before + (seq![e] + text) =~= before.push(e) + text);
                    }
                }
                k += 2;
            } else {
                return None;
            }
        } else {
            let ghost before = content@;
            content.push(c);
            proof {
                let rest = string_body(s, k + 1);
                if let Some((text, n)) = rest {
                    assert(before + (seq![c] + text) =~= before.push(c) + text);
                }
            }
            k += 1;
        }
    }
    None
}

/// The keyword spelled by the characters from `start` up to `end`.
fn keyword_between(chars: &Vec<char>, start: usize, end: usize) -> (r: Option<Token>)
    requires
        start <= end <= chars.len(),
    ensures
        match keyword(chars@.subrange(start as int, end as int)) {
            Some(t) => r is Some && r.unwrap()@ == t,
            None => r is None,
        },
{
    let ghost word = chars@.subrange(start as int, end as int);
    let ghost t = seq!['t', 'r', 'u', 'e'];
    let ghost f = seq!['f', 'a', 'l', 's', 'e'];
    let ghost n = seq!['n', 'u', 'l', 'l'];
    proof {
        assert(t.len() == 4 && t[0] == 't' && t[1] == 'r' && t[2] == 'u' && t[3] == 'e');
        assert(f.len() == 5 && f[0] == 'f' && f[1] == 'a' && f[2] == 'l' && f[3] == 's' && f[4]
            == 'e');
        assert(n.len() == 4 && n[0] == 'n' && n[1] == 'u' && n[2] == 'l' && n[3] == 'l');
        assert(word.len() == end - start);
        assert(forall|j: int| 0 <= j < word.len() ==> word[j] == chars@[start + j]);
    }
    let len = end - start;
    if len == 4 && chars[start] == 't' && chars[start + 1] == 'r' && chars[start + 2] == 'u'
        && chars[start + 3] == 'e' {
        proof {
            assert(word =~= t);
        }
        Some(Token::True)
    } else if len == 5 && chars[start] == 'f' && chars[start + 1] == 'a' && chars[start + 2] == 'l'
        && chars[start + 3] == 's' && chars[start + 4] == 'e' {
        proof {
            assert(word =~= f);
            assert(word != t);
        }
        Some(Token::False)
    } else if len == 4 && chars[start] == 'n' && chars[start + 1] == 'u' && chars[start + 2] == 'l'
        && chars[start + 3] == 'l' {
        proof {
            assert(word =~= n);
            assert(word[0] != t[0]);
            assert(word != f);
        }
        Some(Token::Null)
    } else {
        proof {
            if len == 4 {
                assert(word[0] != t[0] || word[1] != t[1] || word[2] != t[2] || word[3] != t[3]);
                assert(word[0] != n[0] || word[1] != n[1] || word[2] != n[2] || word[3] != n[3]);
            }
            if len == 5 {
                assert(word[0] != f[0] || word[1] != f[1] || word[2] != f[2] || word[3] != f[3]
                    || word[4] != f[4]);
            }
        }
        None
    }
}

/// Reads what stands at index `i`: the token there, if it is one, and the
/// index behind it.
fn scan_lexeme(chars: &Vec<char>, i: usize) -> (r: Result<(Option<Token>, usize), LexError>)
    requires
        i < chars.len(),
    ensures
        match next_lexeme(chars@, i as int) {
            Ok((found, n)) => r is Ok && r.unwrap().1 == i + n && n >= 1 && i + n <= chars.len()
                && match found {
                Some(t) => r.unwrap().0 is Some && r.unwrap().0.unwrap()@ == t,
                None => r.unwrap().0 is None,
            },
            Err(e) => r == Err::<(Option<Token>, usize), LexError>(e),
        },
{
    let c = chars[i];
    if whitespace(c) {
        Ok((None, i + 1))
    } else if c == '{' {
        Ok((Some(Token::LBrace), i + 1))
    } else if c == '}' {
        Ok((Some(Token::RBrace), i + 1))
    } else if c == '[' {
        Ok((Some(Token::LBracket), i + 1))
    } else if c == ']' {
        Ok((Some(Token::RBracket), i + 1))
    } else if c == ':' {
        Ok((Some(Token::Colon), i + 1))
    } else if c == ',' {
        Ok((Some(Token::Comma), i + 1))
    } else if c == '"' {
        match scan_string(chars, i + 1) {
            Some((text, end)) => Ok((Some(Token::String(text)), end)),
            None => Err(LexError::UnterminatedString(i)),
        }
    } else if is_alphabetic(c) {
        let end = skip_alphabetic(chars, i + 1);
        match keyword_between(chars, i, end) {
            Some(t) => Ok((Some(t), end)),
            None => Err(LexError::InvalidToken(c, i)),
        }
    } else if digit(c) || c == '-' {
        let end = skip_number(chars, i + 1);
        Ok((Some(Token::Number(text_between(chars, i, end))), end))
    } else {
        Err(LexError::InvalidToken(c, i))
    }
}

/// Scans a whole text into its tokens.
///
/// The result is exactly [`lex`] of the text: the tokens in order where every
/// character belongs to whitespace or to a token, and else the error of the
/// first place where none starts or a string literal is left open.
pub fn tokenize(input: &str) -> (result: Result<Vec<Token>, LexError>)
    ensures
        match lex(input@) {
            Ok(ts) => result is Ok && tokens_view(result.unwrap()@) == ts,
            Err(e) => result == Err::<Vec<Token>, LexError>(e),
        },
{
    let chars = to_chars(input);
    let mut tokens: Vec<Token> = Vec::new();
    let mut i: usize = 0;
    let ghost s = chars@;
    proof {
        assert(tokens_view(tokens@) =~= Seq::<TokenView>::empty());
        match lex_from(s, 0) {
            Ok(ts) => assert(Seq::<TokenView>::empty() + ts =~= ts),
            Err(_) => {},
        }
    }
    while i < chars.len()
        invariant
            i <= chars.len(),
            s == chars@,
            s == input@,
            lex(s) == after(tokens_view(tokens@), lex_from(s, i as int)),
        decreases chars.len() - i,
    {
        let ghost done = tokens_view(tokens@);
        match scan_lexeme(&chars, i) {
            Err(e) => {
                return Err(e);
            },
            Ok((found, end)) => {
                match found {
                    Some(t) => {
                        proof {
                            assert(tokens_view(tokens@.push(t)) =~= done.push(t@));
                            match lex_from(s, end as int) {
                                Ok(ts) => assert(done + (seq![t@] + ts) =~= done.push(t@) + ts),
                                Err(_) => {},
                            }
                        }
                        tokens.push(t);
                    },
                    None => {},
                }
                i = end;
            },
        }
    }
    proof {
        assert(tokens_view(tokens@) + Seq::<TokenView>::empty() =~= tokens_view(tokens@));
    }
    Ok(tokens)
}

} // verus!
