//! What an error says about the text or the tokens that it was found in.
use vstd::prelude::*;
use crate::error::ErrorView;
use crate::number::{is_digit, is_number_literal};
use crate::parser::{
    array_from, atom, items_from, lemma_value_takes_tokens, members_from, object_from, parse_text,
    value_from,
};
use crate::tokenizer::{
    common_prefix_len, is_number_char, lemma_common_prefix_len, lemma_number_end,
    lemma_number_run, lemma_quote_at, lemma_quote_found, lemma_scan_advances, lex, lex_from,
    match_word, number_end, number_message, position_at, quote_at, scan, TokenView,
};
use crate::value::ValueView;

verus! {

/// `c` starts a token or separates tokens.
pub open spec fn can_start(c: char) -> bool {
    c == '{' || c == '}' || c == '[' || c == ']' || c == ',' || c == ':' || c == '"' || c == 't'
        || c == 'f' || c == 'n' || is_digit(c) || c == '-' || c == ' ' || c == '\n'
}

/// `s[from..to)` is the beginning of `word`, and less than all of it.
pub open spec fn word_begun(s: Seq<char>, from: int, to: int, word: Seq<char>) -> bool {
    &&& 0 <= from < to <= s.len()
    &&& to - from < word.len()
    &&& forall|j: int| from <= j < to ==> s[j] == word[j - from]
}

/// `s[from..to)` is a run of number characters as the tokenizer takes it: it
/// starts with a digit or `-` and ends where no number character follows.
pub open spec fn number_run(s: Seq<char>, from: int, to: int) -> bool {
    &&& 0 <= from < to <= s.len()
    &&& is_digit(s[from]) || s[from] == '-'
    &&& forall|j: int| from < j < to ==> is_number_char(s[j])
    &&& to < s.len() ==> !is_number_char(s[to])
}

/// The error `e` of the tokenizer is true of the text `s`.
///
/// An unexpected character with no expected token is a character of the text
/// that starts no token, and the position is the one reached when it has been
/// read. With an expected token, the text holds the beginning of `true`,
/// `false` or `null`, then a character that differs from the word, which is the
/// one reported, or the end of the text. A number error stands for a run of
/// number characters that is no number literal, and the position is the one
/// reached at the end of the run. In each case the text before the character,
/// the word or the run has tokens and no error.
pub open spec fn lex_error_explained(s: Seq<char>, e: ErrorView) -> bool {
    match e {
        ErrorView::UnexpectedCharacter { position, expected_token: None, got } => exists|k: int|
            0 <= k < s.len() && got == Some(#[trigger] s[k]) && !can_start(s[k]) && position
                == position_at(s, k + 1) && lex(s.take(k)) is Ok,
        ErrorView::UnexpectedCharacter { position, expected_token: Some(word), got } => {
            &&& word is True || word is False || word is Null
            &&& exists|from: int, to: int|
                {
                    &&& #[trigger] word_begun(s, from, to, word.rendering())
                    &&& lex(s.take(from)) is Ok
                    &&& if to < s.len() {
                        &&& got == Some(s[to])
                        &&& s[to] != word.rendering()[to - from]
                        &&& position == position_at(s, to + 1)
                    } else {
                        &&& got is None
                        &&& position == position_at(s, to)
                    }
                }
        },
        ErrorView::ParsingNumber { position, message } => {
            &&& message == number_message()
            &&& exists|from: int, to: int|
                {
                    &&& #[trigger] number_run(s, from, to)
                    &&& lex(s.take(from)) is Ok
                    &&& !is_number_literal(s.subrange(from, to))
                    &&& position == position_at(s, to)
                }
        },
        _ => false,
    }
}

/// As far as the common prefix goes the characters agree, and behind it they
/// differ.
proof fn lemma_common_prefix(s: Seq<char>, at: int, word: Seq<char>, k: int)
    requires
        0 <= at <= s.len(),
        0 <= k,
    ensures
        forall|j: int|
            0 <= j < common_prefix_len(s, at, word, k) ==> s[at + j] == #[trigger] word[k + j],
        ({
            let same = common_prefix_len(s, at, word, k);
            at + same < s.len() && k + same < word.len() ==> s[at + same] != word[k + same]
        }),
    decreases word.len() - k,
{
    if at < s.len() && k < word.len() && s[at] == word[k] {
        lemma_common_prefix(s, at + 1, word, k + 1);
        let same = common_prefix_len(s, at + 1, word, k + 1);
        assert forall|j: int| 0 <= j < same + 1 implies s[at + j] == #[trigger] word[k + j] by {
            if j > 0 {
                assert(s[at + 1 + (j - 1)] == word[k + 1 + (j - 1)]);
            }
        }
    }
}

/// From `i`, the tokenizer gets to `j` in whole steps and without error.
spec fn reaches(s: Seq<char>, i: int, j: int) -> bool
    decreases j - i,
{
    i == j || (0 <= i < j <= s.len() && match scan(s, i) {
        Ok((_, next)) => i < next <= j && reaches(s, next, j),
        Err(_) => false,
    })
}

/// One more step behind the place reached.
proof fn lemma_reaches_step(s: Seq<char>, from: int, i: int)
    requires
        0 <= from <= i < s.len(),
        reaches(s, from, i),
        scan(s, i) is Ok,
    ensures
        reaches(s, from, scan(s, i)->Ok_0.1),
    decreases i - from,
{
    lemma_scan_advances(s, i);
    let next = scan(s, i)->Ok_0.1;
    if from == i {
        assert(reaches(s, next, next));
    } else {
        lemma_reaches_step(s, scan(s, from)->Ok_0.1, i);
    }
}

/// A word that is all there is all there in a shorter text that holds it.
proof fn lemma_common_prefix_kept(s: Seq<char>, at: int, word: Seq<char>, k: int, j: int)
    requires
        0 <= at,
        0 <= k,
        k + common_prefix_len(s, at, word, k) >= word.len(),
        at + common_prefix_len(s, at, word, k) <= j <= s.len(),
    ensures
        common_prefix_len(s.take(j), at, word, k) == common_prefix_len(s, at, word, k),
    decreases word.len() - k,
{
    if k < word.len() {
        lemma_common_prefix_kept(s, at + 1, word, k + 1, j);
    }
}

/// A step of the tokenizer that ends within the first `j` characters is the
/// same step in the text of these characters.
proof fn lemma_scan_kept(s: Seq<char>, i: int, j: int)
    requires
        0 <= i < j <= s.len(),
        scan(s, i) matches Ok((_, next)) && next <= j,
    ensures
        scan(s.take(j), i) == scan(s, i),
{
    let short = s.take(j);
    let c = s[i];
    assert(short[i] == c);
    if c == '"' {
        let close = quote_at(s, i + 1);
        lemma_quote_at(s, i + 1);
        if close < s.len() {
            lemma_quote_found(short, i + 1, close);
            assert(short.subrange(i + 1, close) =~= s.subrange(i + 1, close));
        } else {
            assert(short =~= s);
        }
    } else if c == 't' || c == 'f' || c == 'n' {
        let word = if c == 't' {
            TokenView::True
        } else if c == 'f' {
            TokenView::False
        } else {
            TokenView::Null
        };
        lemma_common_prefix_len(s, i + 1, word.rendering(), 1);
        lemma_common_prefix_kept(s, i + 1, word.rendering(), 1, j);
    } else if is_digit(c) || c == '-' {
        let end = number_end(s, i + 1);
        lemma_number_end(s, i + 1);
        lemma_number_run(short, i + 1, end);
        assert(short.subrange(i, end) =~= s.subrange(i, end));
    }
}

/// The text up to a place that the tokenizer reaches has tokens and no error.
proof fn lemma_lex_reached(s: Seq<char>, i: int, j: int)
    requires
        0 <= i <= j <= s.len(),
        reaches(s, i, j),
    ensures
        lex_from(s.take(j), i) is Ok,
    decreases j - i,
{
    if i < j {
        lemma_scan_kept(s, i, j);
        lemma_lex_reached(s, scan(s, i)->Ok_0.1, j);
    }
}

/// The error for a word that is broken off is true of the text.
proof fn lemma_word_error(s: Seq<char>, i: int, word: TokenView)
    requires
        0 <= i < s.len(),
        word is True || word is False || word is Null,
        s[i] == word.rendering()[0],
        word.rendering().len() > 1,
        lex(s.take(i)) is Ok,
    ensures
        match_word(s, i + 1, word) matches Err(e) ==> lex_error_explained(s, e),
{
    let text = word.rendering();
    let same = common_prefix_len(s, i + 1, text, 1) as int;
    let to = i + 1 + same;
    lemma_common_prefix(s, i + 1, text, 1);
    lemma_common_prefix_len(s, i + 1, text, 1);
    if 1 + same < text.len() {
        assert(word_begun(s, i, to, text)) by {
            assert forall|j: int| i <= j < to implies s[j] == text[j - i] by {
                if j > i {
                    assert(s[i + 1 + (j - i - 1)] == text[1 + (j - i - 1)]);
                }
            }
        }
    }
}

/// Every error of the tokenizer is true of the text, wherever it starts.
proof fn lemma_error_explained_from(s: Seq<char>, i: int)
    requires
        0 <= i <= s.len(),
        reaches(s, 0, i),
    ensures
        lex_from(s, i) matches Err(e) ==> lex_error_explained(s, e),
    decreases s.len() - i,
{
    if i < s.len() {
        match scan(s, i) {
            Ok((_, next)) => {
                lemma_scan_advances(s, i);
                lemma_reaches_step(s, 0, i);
                lemma_error_explained_from(s, next);
            },
            Err(e) => {
                let c = s[i];
                lemma_lex_reached(s, 0, i);
                reveal_strlit("true");
                reveal_strlit("false");
                reveal_strlit("null");
                if c == 't' {
                    lemma_word_error(s, i, TokenView::True);
                } else if c == 'f' {
                    lemma_word_error(s, i, TokenView::False);
                } else if c == 'n' {
                    lemma_word_error(s, i, TokenView::Null);
                } else if is_digit(c) || c == '-' {
                    lemma_number_end(s, i + 1);
                    assert(number_run(s, i, number_end(s, i + 1)));
                }
            },
        }
    }
}

/// Every error of the tokenizer is true of the text.
pub proof fn lemma_lex_error_explained(s: Seq<char>)
    ensures
        lex(s) matches Err(e) ==> lex_error_explained(s, e),
{
    lemma_error_explained_from(s, 0);
}

/// What an error of the parser says about the tokens: it is none of the
/// tokenizer's errors; an unexpected token is one of the tokens; and where a
/// token is missing, all the tokens have been read.
pub open spec fn parse_error_explained(
    tokens: Seq<TokenView>,
    parsed: (Result<ValueView, ErrorView>, Seq<TokenView>),
) -> bool {
    match parsed.0 {
        Ok(_) => true,
        Err(ErrorView::UnexpectedToken(Some(token))) => tokens.contains(token),
        Err(ErrorView::UnexpectedToken(None)) => parsed.1.len() == 0,
        Err(ErrorView::NoTokens) => parsed.1.len() == 0,
        Err(_) => false,
    }
}

/// The errors of an array are true of `all`, where the tokens come from.
proof fn lemma_items_error_explained(
    all: Seq<TokenView>,
    tokens: Seq<TokenView>,
    items: Seq<ValueView>,
)
    requires
        forall|i: int| 0 <= i < tokens.len() ==> all.contains(#[trigger] tokens[i]),
    ensures
        parse_error_explained(all, items_from(tokens, items)),
    decreases tokens.len(),
{
    if tokens.len() > 0 && !(tokens[0] is RightBracket) {
        let rest = tokens.drop_first();
        if tokens[0] is Comma {
            lemma_items_error_explained(all, rest, items);
        } else if let Some(value) = atom(tokens[0]) {
            lemma_items_error_explained(all, rest, items.push(value));
        }
    }
}

/// The errors of a value are true of `all`, where the tokens come from.
proof fn lemma_value_error_explained(all: Seq<TokenView>, tokens: Seq<TokenView>)
    requires
        forall|i: int| 0 <= i < tokens.len() ==> all.contains(#[trigger] tokens[i]),
    ensures
        parse_error_explained(all, value_from(tokens)),
    decreases tokens.len(), 1int,
{
    if tokens.len() > 0 {
        let rest = tokens.drop_first();
        if tokens[0] is LeftBrace {
            lemma_members_error_explained(all, rest, Map::empty());
        } else if tokens[0] is LeftBracket {
            lemma_items_error_explained(all, rest, Seq::empty());
        }
    }
}

/// The errors of an object are true of `all`, where the tokens come from.
proof fn lemma_members_error_explained(
    all: Seq<TokenView>,
    tokens: Seq<TokenView>,
    members: Map<Seq<char>, ValueView>,
)
    requires
        forall|i: int| 0 <= i < tokens.len() ==> all.contains(#[trigger] tokens[i]),
    ensures
        parse_error_explained(all, members_from(tokens, members)),
    decreases tokens.len(), 0int,
{
    if tokens.len() > 0 && !(tokens[0] is RightBrace) {
        let rest = tokens.drop_first();
        if tokens[0] is Comma {
            lemma_members_error_explained(all, rest, members);
        } else if let TokenView::String(key) = tokens[0] {
            if tokens.len() >= 2 && tokens[1] is Colon {
                let after = tokens.skip(2);
                lemma_value_error_explained(all, after);
                lemma_value_takes_tokens(after);
                let (value, left) = value_from(after);
                if let Ok(value) = value {
                    lemma_members_error_explained(all, left, members.insert(key, value));
                }
            }
        }
    }
}

/// Every error of the parser is true of the tokens.
pub proof fn lemma_parse_error_explained(tokens: Seq<TokenView>)
    ensures
        parse_error_explained(tokens, value_from(tokens)),
        parse_error_explained(tokens, array_from(tokens)),
        parse_error_explained(tokens, object_from(tokens)),
{
    if tokens.len() > 0 {
        let rest = tokens.drop_first();
        lemma_items_error_explained(tokens, rest, Seq::empty());
        lemma_members_error_explained(tokens, rest, Map::empty());
    }
}

/// Every error of [`parse_text`] is an error of the tokenizer that is true of the
/// text, or an error of the parser that is true of the tokens of the text.
pub proof fn lemma_error_explained(s: Seq<char>)
    ensures
        parse_text(s) matches Err(e) ==> match lex(s) {
            Ok(tokens) => parse_error_explained(tokens, value_from(tokens)),
            Err(first) => first == e && lex_error_explained(s, e),
        },
{
    lemma_lex_error_explained(s);
    if let Ok(tokens) = lex(s) {
        lemma_parse_error_explained(tokens);
    }
}

} // verus!
