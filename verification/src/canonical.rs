//! The canonical text of a value, and the proof that reading it gives the
//! value back.

use vstd::prelude::*;
use crate::chars::{alphabetic, is_digit, is_number_char};
use crate::document::{parse_text, ErrorView};
use crate::lexer::{alpha_run, lex, next_lexeme, number_run, string_body};
use crate::parser::{elements_at, members_at, success, value_at};
use crate::token::{LexError, TokenView};
use crate::whitespace::{lemma_alpha_run, lemma_lex_moved, lemma_number_run, window};
use crate::value::{entries_view, items_view, lemma_items_push, value_wf, JsonValue, ValueView};

verus! {

/// The tokens of a value's canonical text: the value's own token, or its
/// opening bracket or brace and all that follows up to the closing one.
pub open spec fn tokens_of(v: JsonValue) -> Seq<TokenView>
    decreases v, 0int,
{
    match v {
        JsonValue::Null => seq![TokenView::Null],
        JsonValue::Bool(b) => seq![
            if b {
                TokenView::True
            } else {
                TokenView::False
            },
        ],
        JsonValue::Number(t) => seq![TokenView::Number(t@)],
        JsonValue::String(t) => seq![TokenView::String(t@)],
        JsonValue::Array(items) => seq![TokenView::LBracket] + (if items@.len() == 0 {
            seq![TokenView::RBracket]
        } else {
            items_from(items@, 0)
        }),
        JsonValue::Object(entries) => seq![TokenView::LBrace] + (if entries@.len() == 0 {
            seq![TokenView::RBrace]
        } else {
            members_from(entries@, 0)
        }),
    }
}

/// The tokens of the items from index `k` on, with a comma between two of
/// them and the closing bracket behind the last.
pub open spec fn items_from(items: Seq<JsonValue>, k: int) -> Seq<TokenView>
    decreases items, items.len() - k,
{
    if k < 0 || k >= items.len() {
        Seq::empty()
    } else {
        tokens_of(items[k]) + (if k + 1 < items.len() {
            seq![TokenView::Comma] + items_from(items, k + 1)
        } else {
            seq![TokenView::RBracket]
        })
    }
}

/// The tokens of the members from index `k` on: key, colon and value, with
/// a comma between two members and the closing brace behind the last.
pub open spec fn members_from(entries: Seq<(String, JsonValue)>, k: int) -> Seq<TokenView>
    decreases entries, entries.len() - k,
{
    if k < 0 || k >= entries.len() {
        Seq::empty()
    } else {
        seq![TokenView::String(entries[k].0@), TokenView::Colon] + tokens_of(entries[k].1) + (if k
            + 1 < entries.len() {
            seq![TokenView::Comma] + members_from(entries, k + 1)
        } else {
            seq![TokenView::RBrace]
        })
    }
}

/// `part` stands in `whole` from index `pos` on.
pub open spec fn occurs<T>(whole: Seq<T>, pos: int, part: Seq<T>) -> bool {
    &&& 0 <= pos
    &&& pos + part.len() <= whole.len()
    &&& forall|j: int| 0 <= j < part.len() ==> whole[pos + j] == #[trigger] part[j]
}

proof fn lemma_occurs_split<T>(whole: Seq<T>, pos: int, a: Seq<T>, b: Seq<T>)
    requires
        occurs(whole, pos, a + b),
    ensures
        occurs(whole, pos, a),
        occurs(whole, pos + a.len(), b),
{
    let ab = a + b;
    assert forall|j: int| 0 <= j < a.len() implies whole[pos + j] == #[trigger] a[j] by {
        assert(ab[j] == a[j]);
    }
    assert forall|j: int| 0 <= j < b.len() implies whole[pos + a.len() + j] == #[trigger] b[j] by {
        assert(ab[a.len() + j] == b[j]);
    }
}

/// A value's tokens begin with a token that can begin a value.
proof fn lemma_first_token(v: JsonValue)
    ensures
        tokens_of(v).len() >= 1,
        !(tokens_of(v)[0] is RBracket),
        !(tokens_of(v)[0] is RBrace),
        !(tokens_of(v)[0] is Comma),
        !(tokens_of(v)[0] is Colon),
{
}

/// The parser reads a value's tokens, wherever they stand, as that value.
pub proof fn lemma_parse_tokens_of(ts: Seq<TokenView>, pos: int, v: JsonValue)
    requires
        value_wf(v),
        occurs(ts, pos, tokens_of(v)),
    ensures
        value_at(ts, pos) == success(v@, pos + tokens_of(v).len()),
    decreases v, 0int,
{
    lemma_first_token(v);
    match v {
        JsonValue::Array(items) => {
            let rest = if items@.len() == 0 {
                seq![TokenView::RBracket]
            } else {
                items_from(items@, 0)
            };
            lemma_occurs_split(ts, pos, seq![TokenView::LBracket], rest);
            assert(ts[pos + 1] == rest[0]);
            if items@.len() > 0 {
                lemma_first_token(items@[0]);
                assert(items@.take(0) =~= Seq::<JsonValue>::empty());
                lemma_parse_items(ts, pos + 1, items@, 0);
            }
        },
        JsonValue::Object(entries) => {
            let rest = if entries@.len() == 0 {
                seq![TokenView::RBrace]
            } else {
                members_from(entries@, 0)
            };
            lemma_occurs_split(ts, pos, seq![TokenView::LBrace], rest);
            assert(ts[pos + 1] == rest[0]);
            if entries@.len() > 0 {
                assert(entries@.take(0) =~= Seq::<(String, JsonValue)>::empty());
                lemma_parse_members(ts, pos + 1, entries@, 0);
            }
        },
        _ => {},
    }
}

proof fn lemma_parse_items(ts: Seq<TokenView>, pos: int, items: Seq<JsonValue>, k: int)
    requires
        forall|i: int| 0 <= i < items.len() ==> value_wf(#[trigger] items[i]),
        0 <= k < items.len(),
        occurs(ts, pos, items_from(items, k)),
    ensures
        elements_at(ts, pos, items_view(items.take(k))) == success(
            ValueView::Array(items_view(items)),
            pos + items_from(items, k).len(),
        ),
    decreases items, items.len() - k,
{
    let head = tokens_of(items[k]);
    let tail = if k + 1 < items.len() {
        seq![TokenView::Comma] + items_from(items, k + 1)
    } else {
        seq![TokenView::RBracket]
    };
    lemma_occurs_split(ts, pos, head, tail);
    lemma_parse_tokens_of(ts, pos, items[k]);
    let next = pos + head.len();
    assert(ts[next] == tail[0]);
    assert(items.take(k + 1) =~= items.take(k).push(items[k]));
    lemma_items_push(items.take(k), items[k]);
    if k + 1 < items.len() {
        lemma_occurs_split(ts, next, seq![TokenView::Comma], items_from(items, k + 1));
        lemma_parse_items(ts, next + 1, items, k + 1);
    } else {
        assert(items.take(k + 1) =~= items);
    }
}

proof fn lemma_parse_members(
    ts: Seq<TokenView>,
    pos: int,
    entries: Seq<(String, JsonValue)>,
    k: int,
)
    requires
        forall|i: int| 0 <= i < entries.len() ==> value_wf((#[trigger] entries[i]).1),
        0 <= k < entries.len(),
        occurs(ts, pos, members_from(entries, k)),
    ensures
        members_at(ts, pos, entries_view(entries.take(k))) == success(
            ValueView::Object(entries_view(entries)),
            pos + members_from(entries, k).len(),
        ),
    decreases entries, entries.len() - k,
{
    let key = seq![TokenView::String(entries[k].0@), TokenView::Colon];
    let head = tokens_of(entries[k].1);
    let tail = if k + 1 < entries.len() {
        seq![TokenView::Comma] + members_from(entries, k + 1)
    } else {
        seq![TokenView::RBrace]
    };
    lemma_occurs_split(ts, pos, key + head, tail);
    lemma_occurs_split(ts, pos, key, head);
    assert(ts[pos] == key[0]);
    assert(ts[pos + 1] == key[1]);
    lemma_parse_tokens_of(ts, pos + 2, entries[k].1);
    let next = pos + 2 + head.len();
    assert(ts[next] == tail[0]);
    assert(entries.take(k + 1) =~= entries.take(k).push(entries[k]));
    assert(entries.take(k + 1).drop_last() =~= entries.take(k));
    if k + 1 < entries.len() {
        lemma_occurs_split(ts, next, seq![TokenView::Comma], members_from(entries, k + 1));
        lemma_parse_members(ts, next + 1, entries, k + 1);
    } else {
        assert(entries.take(k + 1) =~= entries);
    }
}

/// How a character of a string's content is written inside the quotes.
pub open spec fn escape_char(c: char) -> Seq<char> {
    if c == '"' {
        seq!['\\', '"']
    } else if c == '\\' {
        seq!['\\', '\\']
    } else if c == '\n' {
        seq!['\\', 'n']
    } else if c == '\t' {
        seq!['\\', 't']
    } else if c == '\r' {
        seq!['\\', 'r']
    } else {
        seq![c]
    }
}

/// A string's content as it is written inside the quotes.
pub open spec fn escaped(s: Seq<char>) -> Seq<char>
    decreases s.len(),
{
    if s.len() == 0 {
        Seq::empty()
    } else {
        escape_char(s[0]) + escaped(s.drop_first())
    }
}

/// The text of one token.
pub open spec fn token_text(t: TokenView) -> Seq<char> {
    match t {
        TokenView::LBrace => seq!['{'],
        TokenView::RBrace => seq!['}'],
        TokenView::LBracket => seq!['['],
        TokenView::RBracket => seq![']'],
        TokenView::Colon => seq![':'],
        TokenView::Comma => seq![','],
        TokenView::String(s) => seq!['"'] + escaped(s) + seq!['"'],
        TokenView::Number(n) => n,
        TokenView::True => seq!['t', 'r', 'u', 'e'],
        TokenView::False => seq!['f', 'a', 'l', 's', 'e'],
        TokenView::Null => seq!['n', 'u', 'l', 'l'],
    }
}

/// The texts of the tokens, one behind the other with nothing in between.
pub open spec fn text_of(ts: Seq<TokenView>) -> Seq<char>
    decreases ts.len(),
{
    if ts.len() == 0 {
        Seq::empty()
    } else {
        token_text(ts[0]) + text_of(ts.drop_first())
    }
}

/// The canonical text of a value: no whitespace, members in their order.
pub open spec fn render(v: JsonValue) -> Seq<char> {
    text_of(tokens_of(v))
}

/// Number text that the scanner takes for one number token: it starts with a
/// digit or a minus sign and holds number characters only.
pub open spec fn number_scans(n: Seq<char>) -> bool {
    &&& n.len() > 0
    &&& (is_digit(n[0]) || n[0] == '-')
    &&& forall|k: int| 0 <= k < n.len() ==> is_number_char(#[trigger] n[k])
}

/// Every number among the tokens is one that the scanner takes for a number.
pub open spec fn numbers_scan(ts: Seq<TokenView>) -> bool {
    forall|k: int|
        0 <= k < ts.len() ==> (#[trigger] ts[k] matches TokenView::Number(n) ==> number_scans(n))
}

/// A token that is written as a run of letters or number characters.
pub open spec fn word_like(t: TokenView) -> bool {
    t is Number || t is True || t is False || t is Null
}

/// No two tokens that are written as runs stand side by side.
pub open spec fn separated(ts: Seq<TokenView>) -> bool {
    forall|k: int| 0 <= k < ts.len() - 1 ==> !(word_like(#[trigger] ts[k]) && word_like(ts[k + 1]))
}

/// The text ends, or goes on with a character that continues no run.
pub open spec fn stops(tail: Seq<char>) -> bool {
    tail.len() == 0 || (!alphabetic(tail[0]) && !is_number_char(tail[0]))
}

proof fn lemma_separated_concat(a: Seq<TokenView>, b: Seq<TokenView>)
    requires
        separated(a),
        separated(b),
        a.len() == 0 || b.len() == 0 || !word_like(a.last()) || !word_like(b[0]),
    ensures
        separated(a + b),
{
    let ab = a + b;
    assert forall|k: int| 0 <= k < ab.len() - 1 implies !(word_like(#[trigger] ab[k]) && word_like(
        ab[k + 1],
    )) by {}
}

proof fn lemma_separated_value(v: JsonValue)
    ensures
        separated(tokens_of(v)),
    decreases v, 0int,
{
    match v {
        JsonValue::Array(items) => {
            if items@.len() > 0 {
                lemma_separated_items(items@, 0);
                lemma_separated_concat(seq![TokenView::LBracket], items_from(items@, 0));
            }
        },
        JsonValue::Object(entries) => {
            if entries@.len() > 0 {
                lemma_separated_members(entries@, 0);
                lemma_separated_concat(seq![TokenView::LBrace], members_from(entries@, 0));
            }
        },
        _ => {},
    }
}

proof fn lemma_separated_items(items: Seq<JsonValue>, k: int)
    requires
        0 <= k < items.len(),
    ensures
        separated(items_from(items, k)),
    decreases items, items.len() - k,
{
    lemma_separated_value(items[k]);
    if k + 1 < items.len() {
        lemma_separated_items(items, k + 1);
        lemma_separated_concat(seq![TokenView::Comma], items_from(items, k + 1));
        lemma_separated_concat(
            tokens_of(items[k]),
            seq![TokenView::Comma] + items_from(items, k + 1),
        );
    } else {
        lemma_separated_concat(tokens_of(items[k]), seq![TokenView::RBracket]);
    }
}

proof fn lemma_separated_members(entries: Seq<(String, JsonValue)>, k: int)
    requires
        0 <= k < entries.len(),
    ensures
        separated(members_from(entries, k)),
    decreases entries, entries.len() - k,
{
    let key = seq![TokenView::String(entries[k].0@), TokenView::Colon];
    let head = tokens_of(entries[k].1);
    lemma_separated_value(entries[k].1);
    lemma_separated_concat(key, head);
    if k + 1 < entries.len() {
        lemma_separated_members(entries, k + 1);
        lemma_separated_concat(seq![TokenView::Comma], members_from(entries, k + 1));
        lemma_separated_concat(key + head, seq![TokenView::Comma] + members_from(entries, k + 1));
    } else {
        lemma_separated_concat(key + head, seq![TokenView::RBrace]);
    }
}

/// The scanner reads a string's escaped content back as the content.
proof fn lemma_escaped_body(text: Seq<char>, k: int, s: Seq<char>)
    requires
        occurs(text, k, escaped(s) + seq!['"']),
    ensures
        string_body(text, k) == Some((s, (escaped(s).len() + 1) as nat)),
    decreases s.len(),
{
    let quote = seq!['"'];
    let part = escaped(s) + quote;
    if s.len() == 0 {
        assert(text[k + 0] == part[0]);
    } else {
        let c = s[0];
        let rest = s.drop_first();
        let ec = escape_char(c);
        assert(part =~= ec + (escaped(rest) + quote));
        lemma_occurs_split(text, k, ec, escaped(rest) + quote);
        lemma_escaped_body(text, k + ec.len(), rest);
        assert(seq![c] + rest =~= s);
    }
}

/// A run of number characters that fills a text from index `k` on.
proof fn lemma_number_fills(n: Seq<char>, k: int)
    requires
        0 <= k <= n.len(),
        forall|j: int| 0 <= j < n.len() ==> is_number_char(#[trigger] n[j]),
    ensures
        number_run(n, k) == n.len() - k,
    decreases n.len() - k,
{
    if k < n.len() {
        lemma_number_fills(n, k + 1);
    }
}

/// The scanner reads the text of a token, with what may follow it, as that
/// token.
proof fn lemma_first_lexeme(t: TokenView, tail: Seq<char>)
    requires
        t matches TokenView::Number(n) ==> number_scans(n),
        word_like(t) ==> stops(tail),
    ensures
        token_text(t).len() >= 1,
        next_lexeme(token_text(t) + tail, 0) == Ok::<(Option<TokenView>, nat), LexError>(
            (Some(t), token_text(t).len()),
        ),
{
    let head = token_text(t);
    let text = head + tail;
    match t {
        TokenView::String(s) => {
            let inner = escaped(s) + seq!['"'];
            assert forall|j: int| 0 <= j < inner.len() implies text[1 + j] == #[trigger] inner[j] by {}
            lemma_escaped_body(text, 1, s);
        },
        TokenView::Number(n) => {
            assert forall|k: int| 0 <= k < n.len() implies #[trigger] n[k] == text[k + 0] by {}
            lemma_number_run(n, text, 0, 0, n.len() as int, 1);
            lemma_number_fills(n, 1);
            assert(text.subrange(0, n.len() as int) =~= n);
        },
        TokenView::True | TokenView::False | TokenView::Null => {
            assert forall|k: int| 0 <= k < head.len() implies #[trigger] head[k] == text[k + 0] by {}
            lemma_alpha_run(head, text, 0, 0, head.len() as int, 1);
            reveal_with_fuel(alpha_run, 6);
            assert(text.subrange(0, head.len() as int) =~= head);
            let yes = seq!['t', 'r', 'u', 'e'];
            let no = seq!['f', 'a', 'l', 's', 'e'];
            let nil = seq!['n', 'u', 'l', 'l'];
            assert(yes[0] == 't' && nil[0] == 'n' && no.len() == 5 && yes.len() == 4 && nil.len()
                == 4);
        },
        _ => {},
    }
}

/// The scanner reads the text of separated tokens back as those tokens.
pub proof fn lemma_lex_text_of(ts: Seq<TokenView>)
    requires
        numbers_scan(ts),
        separated(ts),
        text_of(ts).len() <= usize::MAX,
    ensures
        lex(text_of(ts)) == Ok::<Seq<TokenView>, LexError>(ts),
    decreases ts.len(),
{
    if ts.len() == 0 {
        assert(ts =~= Seq::<TokenView>::empty());
    } else {
        let t = ts[0];
        let rest = ts.drop_first();
        let head = token_text(t);
        let tail = text_of(rest);
        let text = head + tail;
        assert forall|k: int| 0 <= k < rest.len() implies (#[trigger] rest[k] matches TokenView::Number(
            n,
        ) ==> number_scans(n)) by {}
        assert forall|k: int| 0 <= k < rest.len() - 1 implies !(word_like(#[trigger] rest[k])
            && word_like(rest[k + 1])) by {
            assert(rest[k] == ts[k + 1] && rest[k + 1] == ts[k + 2]);
        }
        lemma_lex_text_of(rest);
        if rest.len() > 0 {
            assert(rest[0] == ts[1]);
            let after = token_text(rest[0]);
            if !word_like(rest[0]) {
                assert(tail[0] == after[0]) by {
                    if rest[0] is String {
                        assert(after[0] == '"');
                    }
                }
            }
        }
        lemma_first_lexeme(t, tail);
        assert forall|k: int| 0 <= k < tail.len() implies #[trigger] tail[k] == text[k
            + head.len()] by {}
        assert(window(tail, text, head.len() as int, 0, tail.len() as int));
        lemma_lex_moved(tail, text, head.len() as int, 0, 0);
        assert(seq![t] + rest =~= ts);
    }
}

/// Reading the canonical text of a value gives the value back.
///
/// The value is well formed and its numbers are ones that the scanner takes
/// for numbers.
pub proof fn lemma_round_trip(v: JsonValue)
    requires
        value_wf(v),
        numbers_scan(tokens_of(v)),
        render(v).len() <= usize::MAX,
    ensures
        lex(render(v)) == Ok::<Seq<TokenView>, LexError>(tokens_of(v)),
        parse_text(render(v)) == Ok::<ValueView, ErrorView>(v@),
{
    let ts = tokens_of(v);
    lemma_separated_value(v);
    lemma_lex_text_of(ts);
    assert(occurs(ts, 0, ts));
    lemma_parse_tokens_of(ts, 0, v);
}

} // verus!
