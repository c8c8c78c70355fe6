//! JSON documents, the texts that spell them, and what the parser makes of
//! such a text.
use vstd::prelude::*;
use crate::error::ErrorView;
use crate::number::{is_digit, is_number_literal};
use crate::parser::{atom, items_from, members_from, parse_text, value_from};
use crate::tokenizer::{
    common_prefix_len, is_number_char, lemma_number_end, lemma_number_run, lemma_quote_at,
    lemma_quote_found, lemma_scan_advances, lex, lex_from, scan, TokenView,
};
use crate::value::{members_map, ValueView};

verus! {

/// The text that spells `token`: a string stands between quotes, every other
/// token is spelled as it is rendered.
pub open spec fn lexeme(token: TokenView) -> Seq<char> {
    match token {
        TokenView::String(text) => seq!['"'] + text + seq!['"'],
        _ => token.rendering(),
    }
}

/// `text` holds no quote.
pub open spec fn quote_free(text: Seq<char>) -> bool {
    forall|i: int| 0 <= i < text.len() ==> text[i] != '"'
}

/// `text` is a number literal that starts with a digit or `-`.
pub open spec fn is_written_number(text: Seq<char>) -> bool {
    is_number_literal(text) && text.len() > 0 && (is_digit(text[0]) || text[0] == '-')
}

/// The tokenizer gives `token` back from its spelling: a string holds no
/// quote, and a number is a literal that starts with a digit or `-`.
pub open spec fn writable(token: TokenView) -> bool {
    match token {
        TokenView::String(text) => quote_free(text),
        TokenView::Number(text) => is_written_number(text),
        _ => true,
    }
}

/// `gap` consists of spaces and line breaks.
pub open spec fn is_blank(gap: Seq<char>) -> bool {
    forall|i: int| 0 <= i < gap.len() ==> gap[i] == ' ' || gap[i] == '\n'
}

/// The text that spells `tokens` with `gaps[i]` before the `i`-th token and
/// the last gap at the end.
pub open spec fn spelling(tokens: Seq<TokenView>, gaps: Seq<Seq<char>>) -> Seq<char>
    decreases tokens.len(),
{
    if tokens.len() == 0 {
        gaps[0]
    } else {
        gaps[0] + lexeme(tokens[0]) + spelling(tokens.drop_first(), gaps.drop_first())
    }
}

/// `gaps` can stand around `tokens`: there is one gap more than there are
/// tokens, every gap is blank, and a number that is followed by another
/// number has a gap that is not empty behind it.
pub open spec fn gaps_fit(tokens: Seq<TokenView>, gaps: Seq<Seq<char>>) -> bool {
    &&& gaps.len() == tokens.len() + 1
    &&& forall|i: int| 0 <= i < gaps.len() ==> is_blank(#[trigger] gaps[i])
    &&& forall|i: int|
        0 <= i < tokens.len() - 1 && tokens[i] is Number && (#[trigger] tokens[i + 1]) is Number
            ==> gaps[i + 1].len() > 0
}

/// Blanks yield no token.
proof fn lemma_lex_blanks(s: Seq<char>, i: int, n: int)
    requires
        0 <= i,
        0 <= n,
        i + n <= s.len(),
        forall|j: int| i <= j < i + n ==> s[j] == ' ' || s[j] == '\n',
    ensures
        lex_from(s, i) == lex_from(s, i + n),
    decreases n,
{
    if n > 0 {
        lemma_lex_blanks(s, i + 1, n - 1);
        assert(scan(s, i) == Ok::<(Option<TokenView>, int), ErrorView>((None, i + 1)));
    }
}

/// Every character of a number literal is a number character.
proof fn lemma_literal_chars(text: Seq<char>)
    requires
        is_number_literal(text),
    ensures
        forall|i: int| 0 <= i < text.len() ==> is_number_char(text[i]),
{
}

/// What the words and marks are made of.
proof fn lemma_renderings()
    ensures
        TokenView::LeftBrace.rendering() == seq!['{'],
        TokenView::RightBrace.rendering() == seq!['}'],
        TokenView::LeftBracket.rendering() == seq!['['],
        TokenView::RightBracket.rendering() == seq![']'],
        TokenView::Comma.rendering() == seq![','],
        TokenView::Colon.rendering() == seq![':'],
        TokenView::True.rendering() == seq!['t', 'r', 'u', 'e'],
        TokenView::False.rendering() == seq!['f', 'a', 'l', 's', 'e'],
        TokenView::Null.rendering() == seq!['n', 'u', 'l', 'l'],
{
    reveal_strlit("{");
    reveal_strlit("}");
    reveal_strlit("[");
    reveal_strlit("]");
    reveal_strlit(",");
    reveal_strlit(":");
    reveal_strlit("true");
    reveal_strlit("false");
    reveal_strlit("null");
    assert(TokenView::LeftBrace.rendering() =~= seq!['{']);
    assert(TokenView::RightBrace.rendering() =~= seq!['}']);
    assert(TokenView::LeftBracket.rendering() =~= seq!['[']);
    assert(TokenView::RightBracket.rendering() =~= seq![']']);
    assert(TokenView::Comma.rendering() =~= seq![',']);
    assert(TokenView::Colon.rendering() =~= seq![':']);
    assert(TokenView::True.rendering() =~= seq!['t', 'r', 'u', 'e']);
    assert(TokenView::False.rendering() =~= seq!['f', 'a', 'l', 's', 'e']);
    assert(TokenView::Null.rendering() =~= seq!['n', 'u', 'l', 'l']);
}

/// Where the spelling of a writable token stands at `i`, the tokenizer finds the
/// token there and goes on behind the spelling.
proof fn lemma_scan_lexeme(s: Seq<char>, i: int, token: TokenView)
    requires
        writable(token),
        0 <= i,
        i + lexeme(token).len() <= s.len(),
        s.subrange(i, i + lexeme(token).len()) == lexeme(token),
        token is Number && i + lexeme(token).len() < s.len() ==> !is_number_char(
            s[i + lexeme(token).len()],
        ),
    ensures
        lexeme(token).len() > 0,
        scan(s, i) == Ok::<(Option<TokenView>, int), ErrorView>(
            (Some(token), i + lexeme(token).len()),
        ),
{
    let word = lexeme(token);
    let n = word.len() as int;
    lemma_renderings();
    assert forall|k: int| 0 <= k < n implies s[i + k] == word[k] by {
        assert(s.subrange(i, i + n)[k] == s[i + k]);
    }
    match token {
        TokenView::String(text) => {
            assert(word[0] == '"');
            assert(word[n - 1] == '"');
            assert forall|k: int| i + 1 <= k < i + n - 1 implies s[k] != '"' by {
                assert(s[k] == word[k - i]);
                assert(word[k - i] == text[k - i - 1]);
            }
            lemma_quote_found(s, i + 1, i + n - 1);
            assert forall|k: int| 0 <= k < text.len() implies s.subrange(i + 1, i + n - 1)[k]
                == text[k] by {
                assert(s[i + 1 + k] == word[k + 1]);
            }
            assert(s.subrange(i + 1, i + n - 1) =~= text);
        },
        TokenView::Number(text) => {
            lemma_literal_chars(text);
            assert(s[i] == text[0]);
            assert forall|k: int| i + 1 <= k < i + n implies is_number_char(s[k]) by {
                assert(s[k] == text[k - i]);
            }
            lemma_number_run(s, i + 1, i + n);
            assert(s.subrange(i, i + n) =~= text);
        },
        TokenView::True => {
            assert(word[0] == 't' && s[i] == 't');
            reveal_with_fuel(common_prefix_len, 5);
            assert(s[i + 1] == word[1]);
            assert(s[i + 2] == word[2]);
            assert(s[i + 3] == word[3]);
            assert(common_prefix_len(s, i + 1, word, 1) == 3);
        },
        TokenView::False => {
            assert(word[0] == 'f' && s[i] == 'f');
            reveal_with_fuel(common_prefix_len, 6);
            assert(s[i + 1] == word[1]);
            assert(s[i + 2] == word[2]);
            assert(s[i + 3] == word[3]);
            assert(s[i + 4] == word[4]);
            assert(common_prefix_len(s, i + 1, word, 1) == 4);
        },
        TokenView::Null => {
            assert(word[0] == 'n' && s[i] == 'n');
            reveal_with_fuel(common_prefix_len, 5);
            assert(s[i + 1] == word[1]);
            assert(s[i + 2] == word[2]);
            assert(s[i + 3] == word[3]);
            assert(common_prefix_len(s, i + 1, word, 1) == 3);
        },
        _ => {
            assert(s[i] == word[0]);
        },
    }
}

/// The spelling of a writable token that is no number starts with a character
/// that cannot stand in a number.
proof fn lemma_lexeme_start(token: TokenView)
    requires
        writable(token),
        !(token is Number),
    ensures
        lexeme(token).len() > 0,
        !is_number_char(lexeme(token)[0]),
{
    lemma_renderings();
}

/// The tokenizer gives writable tokens back from any text that spells them,
/// whatever stands before that text.
pub proof fn lemma_lex_spelling_from(
    before: Seq<char>,
    tokens: Seq<TokenView>,
    gaps: Seq<Seq<char>>,
)
    requires
        forall|i: int| 0 <= i < tokens.len() ==> writable(#[trigger] tokens[i]),
        gaps_fit(tokens, gaps),
    ensures
        lex_from(before + spelling(tokens, gaps), before.len() as int) == Ok::<
            Seq<TokenView>,
            ErrorView,
        >(tokens),
    decreases tokens.len(),
{
    let s = before + spelling(tokens, gaps);
    let i = before.len() as int;
    let gap = gaps[0];
    assert(is_blank(gap));
    if tokens.len() == 0 {
        lemma_lex_blanks(s, i, gap.len() as int);
        assert(tokens =~= Seq::empty());
    } else {
        let token = tokens[0];
        let word = lexeme(token);
        let rest = tokens.drop_first();
        let rest_gaps = gaps.drop_first();
        let tail = spelling(rest, rest_gaps);
        let at = i + gap.len();
        let next = at + word.len();
        assert(s =~= before + gap + word + tail);
        lemma_lex_blanks(s, i, gap.len() as int);
        assert(s.subrange(at, next) =~= word);
        assert(writable(token));
        assert(gaps_fit(rest, rest_gaps)) by {
            assert forall|k: int| 0 <= k < rest_gaps.len() implies is_blank(
                #[trigger] rest_gaps[k],
            ) by {
                assert(rest_gaps[k] == gaps[k + 1]);
            }
            assert forall|k: int|
                0 <= k < rest.len() - 1 && rest[k] is Number && (#[trigger] rest[k + 1]) is Number
                implies rest_gaps[k + 1].len() > 0 by {
                assert(rest[k + 1] == tokens[k + 1 + 1]);
            }
        }
        if token is Number && next < s.len() {
            let next_gap = rest_gaps[0];
            assert(next_gap == gaps[1]);
            assert(is_blank(next_gap));
            if next_gap.len() > 0 {
                assert(s[next] == tail[0]);
                assert(tail[0] == next_gap[0]);
            } else {
                assert(rest.len() > 0);
                assert(rest[0] == tokens[0int + 1]);
                assert(!(rest[0] is Number));
                assert(writable(rest[0]));
                lemma_lexeme_start(rest[0]);
                assert(s[next] == tail[0]);
                assert(tail[0] == lexeme(rest[0])[0]);
            }
        }
        lemma_scan_lexeme(s, at, token);
        assert forall|k: int| 0 <= k < rest.len() implies writable(#[trigger] rest[k]) by {
            assert(rest[k] == tokens[k + 1]);
        }
        lemma_lex_spelling_from(before + gap + word, rest, rest_gaps);
        assert(s =~= (before + gap + word) + tail);
        assert(seq![token] + rest =~= tokens);
    }
}

/// The tokenizer gives writable tokens back from any text that spells them.
pub proof fn lemma_lex_spelling(tokens: Seq<TokenView>, gaps: Seq<Seq<char>>)
    requires
        forall|i: int| 0 <= i < tokens.len() ==> writable(#[trigger] tokens[i]),
        gaps_fit(tokens, gaps),
    ensures
        lex(spelling(tokens, gaps)) == Ok::<Seq<TokenView>, ErrorView>(tokens),
{
    lemma_lex_spelling_from(Seq::empty(), tokens, gaps);
    assert(Seq::<char>::empty() + spelling(tokens, gaps) =~= spelling(tokens, gaps));
}

/// The tokenizer yields writable tokens only, wherever it starts.
proof fn lemma_lexed_writable_from(s: Seq<char>, i: int)
    requires
        0 <= i <= s.len(),
    ensures
        lex_from(s, i) matches Ok(tokens) ==> all_writable(tokens),
    decreases s.len() - i,
{
    if i < s.len() {
        if let Ok((token, next)) = scan(s, i) {
            lemma_scan_advances(s, i);
            lemma_lexed_writable_from(s, next);
            lemma_quote_at(s, i + 1);
            lemma_number_end(s, i + 1);
            if let Ok(rest) = lex_from(s, next) {
                if let Some(token) = token {
                    assert(writable(token));
                    let tokens = seq![token] + rest;
                    assert forall|k: int| 0 <= k < tokens.len() implies writable(
                        #[trigger] tokens[k],
                    ) by {
                        if k > 0 {
                            assert(tokens[k] == rest[k - 1]);
                        }
                    }
                }
            }
        }
    }
}

/// The tokenizer yields writable tokens only.
pub proof fn lemma_lexed_writable(s: Seq<char>)
    ensures
        lex(s) matches Ok(tokens) ==> all_writable(tokens),
{
    lemma_lexed_writable_from(s, 0);
}

/// A JSON document as it is written: the members of an object stand in their
/// order, and a key may come more than once.
pub enum Document {
    Null,
    Boolean(bool),
    Number(Seq<char>),
    String(Seq<char>),
    Array(Seq<Document>),
    Object(Seq<(Seq<char>, Document)>),
}

/// The values of the items of an array.
pub open spec fn item_values(items: Seq<Document>) -> Seq<ValueView>
    decreases items,
{
    Seq::new(
        items.len(),
        |i: int|
            if 0 <= i < items.len() {
                items[i].value()
            } else {
                ValueView::Null
            },
    )
}

/// The keys and values of the members of an object.
pub open spec fn member_values(members: Seq<(Seq<char>, Document)>) -> Seq<(Seq<char>, ValueView)>
    decreases members,
{
    Seq::new(
        members.len(),
        |i: int|
            if 0 <= i < members.len() {
                (members[i].0, members[i].1.value())
            } else {
                (Seq::empty(), ValueView::Null)
            },
    )
}

/// The tokens of the items of an array, with a comma between two items.
pub open spec fn item_tokens(items: Seq<Document>) -> Seq<TokenView>
    decreases items,
{
    if items.len() == 0 {
        Seq::empty()
    } else if items.len() == 1 {
        items[0].tokens()
    } else {
        items[0].tokens() + seq![TokenView::Comma] + item_tokens(items.drop_first())
    }
}

/// The tokens of the members of an object, with a comma between two members.
pub open spec fn member_tokens(members: Seq<(Seq<char>, Document)>) -> Seq<TokenView>
    decreases members,
{
    if members.len() == 0 {
        Seq::empty()
    } else if members.len() == 1 {
        seq![TokenView::String(members[0].0), TokenView::Colon] + members[0].1.tokens()
    } else {
        seq![TokenView::String(members[0].0), TokenView::Colon] + members[0].1.tokens()
            + seq![TokenView::Comma] + member_tokens(members.drop_first())
    }
}

impl Document {
    /// The document is neither an array nor an object.
    pub open spec fn is_atom(self) -> bool {
        !(self is Array) && !(self is Object)
    }

    /// The value that the document stands for.
    pub open spec fn value(self) -> ValueView
        decreases self,
    {
        match self {
            Document::Null => ValueView::Null,
            Document::Boolean(b) => ValueView::Boolean(b),
            Document::Number(text) => ValueView::Number(text),
            Document::String(text) => ValueView::String(text),
            Document::Array(items) => ValueView::Array(item_values(items)),
            Document::Object(members) => ValueView::Object(members_map(member_values(members))),
        }
    }

    /// The tokens that the document is written with.
    pub open spec fn tokens(self) -> Seq<TokenView>
        decreases self,
    {
        match self {
            Document::Null => seq![TokenView::Null],
            Document::Boolean(b) => seq![
                if b {
                    TokenView::True
                } else {
                    TokenView::False
                },
            ],
            Document::Number(text) => seq![TokenView::Number(text)],
            Document::String(text) => seq![TokenView::String(text)],
            Document::Array(items) => seq![TokenView::LeftBracket] + item_tokens(items)
                + seq![TokenView::RightBracket],
            Document::Object(members) => seq![TokenView::LeftBrace] + member_tokens(members)
                + seq![TokenView::RightBrace],
        }
    }

    /// The parser reads the document as it is written: no string and no key
    /// holds a quote, every number is a literal that starts with a digit or
    /// `-`, and the items of every array are neither arrays nor objects.
    pub open spec fn supported(self) -> bool
        decreases self,
    {
        match self {
            Document::Number(text) => is_written_number(text),
            Document::String(text) => quote_free(text),
            Document::Array(items) => forall|i: int|
                0 <= i < items.len() ==> (#[trigger] items[i]).is_atom() && items[i].supported(),
            Document::Object(members) => forall|i: int|
                0 <= i < members.len() ==> quote_free((#[trigger] members[i]).0)
                    && members[i].1.supported(),
            _ => true,
        }
    }
}

/// The parser reads the items of an array, up to the closing bracket, as they
/// are written.
proof fn lemma_items_from_tokens(
    items: Seq<Document>,
    done: Seq<ValueView>,
    rest: Seq<TokenView>,
)
    requires
        forall|i: int| 0 <= i < items.len() ==> (#[trigger] items[i]).is_atom(),
    ensures
        items_from(item_tokens(items) + seq![TokenView::RightBracket] + rest, done) == (
            Ok::<ValueView, ErrorView>(ValueView::Array(done + item_values(items))),
            rest,
        ),
    decreases items.len(),
{
    let tokens = item_tokens(items) + seq![TokenView::RightBracket] + rest;
    if items.len() == 0 {
        assert(tokens[0] is RightBracket);
        assert(tokens.drop_first() =~= rest);
        assert(done + item_values(items) =~= done);
    } else {
        let tail = items.drop_first();
        let first = items[0];
        assert(first.is_atom());
        let token = first.tokens()[0];
        assert(first.tokens() =~= seq![token]);
        assert(atom(token) == Some(first.value()));
        assert(tokens[0] == token);
        let after = tokens.drop_first();
        let more = done.push(first.value());
        assert forall|i: int| 0 <= i < tail.len() implies (#[trigger] tail[i]).is_atom() by {
            assert(tail[i] == items[i + 1]);
        }
        lemma_items_from_tokens(tail, more, rest);
        assert(more + item_values(tail) =~= done + item_values(items)) by {
            assert forall|i: int| 0 <= i < tail.len() implies item_values(tail)[i] == item_values(
                items,
            )[i + 1] by {
                assert(tail[i] == items[i + 1]);
            }
        }
        let closing = item_tokens(tail) + seq![TokenView::RightBracket] + rest;
        if items.len() == 1 {
            assert(tail =~= Seq::empty());
            assert(after =~= closing);
        } else {
            assert(after[0] is Comma);
            assert(after.drop_first() =~= closing);
            assert(items_from(after, more) == items_from(closing, more));
        }
        assert(items_from(tokens, done) == items_from(after, more));
    }
}

/// The parser reads a supported document, whatever follows it, as it is
/// written.
pub proof fn lemma_value_from_tokens(document: Document, rest: Seq<TokenView>)
    requires
        document.supported(),
    ensures
        value_from(document.tokens() + rest) == (
            Ok::<ValueView, ErrorView>(document.value()),
            rest,
        ),
    decreases document,
{
    let tokens = document.tokens() + rest;
    match document {
        Document::Array(items) => {
            assert(tokens[0] is LeftBracket);
            assert(tokens.drop_first() =~= item_tokens(items) + seq![TokenView::RightBracket]
                + rest);
            lemma_items_from_tokens(items, Seq::empty(), rest);
            assert(Seq::<ValueView>::empty() + item_values(items) =~= item_values(items));
        },
        Document::Object(members) => {
            assert(tokens[0] is LeftBrace);
            assert(tokens.drop_first() =~= member_tokens(members) + seq![TokenView::RightBrace]
                + rest);
            lemma_members_from_tokens(members, Seq::empty(), rest);
            assert(Seq::<(Seq<char>, ValueView)>::empty() + member_values(members)
                =~= member_values(members));
        },
        _ => {
            assert(tokens.drop_first() =~= rest);
        },
    }
}

/// The parser reads the members of an object, up to the closing brace, as they
/// are written.
proof fn lemma_members_from_tokens(
    members: Seq<(Seq<char>, Document)>,
    done: Seq<(Seq<char>, ValueView)>,
    rest: Seq<TokenView>,
)
    requires
        forall|i: int| 0 <= i < members.len() ==> (#[trigger] members[i]).1.supported(),
    ensures
        members_from(
            member_tokens(members) + seq![TokenView::RightBrace] + rest,
            members_map(done),
        ) == (
            Ok::<ValueView, ErrorView>(
                ValueView::Object(members_map(done + member_values(members))),
            ),
            rest,
        ),
    decreases members,
{
    let tokens = member_tokens(members) + seq![TokenView::RightBrace] + rest;
    if members.len() == 0 {
        assert(tokens[0] is RightBrace);
        assert(tokens.drop_first() =~= rest);
        assert(done + member_values(members) =~= done);
    } else {
        let tail = members.drop_first();
        let key = members[0].0;
        let document = members[0].1;
        let value = document.value();
        let more = done.push((key, value));
        let closing = if members.len() == 1 {
            seq![TokenView::RightBrace] + rest
        } else {
            seq![TokenView::Comma] + member_tokens(tail) + seq![TokenView::RightBrace] + rest
        };
        assert(tokens =~= seq![TokenView::String(key), TokenView::Colon] + document.tokens()
            + closing) by {
            if members.len() == 1 {
                assert(tail =~= Seq::empty());
            }
        }
        assert(tokens[0] == TokenView::String(key));
        assert(tokens[1] is Colon);
        assert(tokens.skip(2) =~= document.tokens() + closing);
        assert(document.supported());
        lemma_value_from_tokens(document, closing);
        assert(members_map(more) == members_map(done).insert(key, value)) by {
            assert(more.drop_last() =~= done);
        }
        assert forall|i: int| 0 <= i < tail.len() implies (#[trigger] tail[i]).1.supported() by {
            assert(tail[i] == members[i + 1]);
        }
        lemma_members_from_tokens(tail, more, rest);
        assert(more + member_values(tail) =~= done + member_values(members)) by {
            assert forall|i: int| 0 <= i < tail.len() implies member_values(tail)[i]
                == member_values(members)[i + 1] by {
                assert(tail[i] == members[i + 1]);
            }
        }
        let remaining = member_tokens(tail) + seq![TokenView::RightBrace] + rest;
        if members.len() == 1 {
            assert(closing =~= remaining);
        } else {
            assert(closing[0] is Comma);
            assert(closing.drop_first() =~= remaining);
            assert(members_from(closing, members_map(more)) == members_from(
                remaining,
                members_map(more),
            ));
        }
        assert(value_from(tokens.skip(2)) == (Ok::<ValueView, ErrorView>(value), closing));
        assert(closing.len() < tokens.len());
        assert(members_from(tokens, members_map(done)) == members_from(
            closing,
            members_map(more),
        ));
    }
}

/// The tokenizer gives every one of `tokens` back from its spelling.
pub open spec fn all_writable(tokens: Seq<TokenView>) -> bool {
    forall|i: int| 0 <= i < tokens.len() ==> writable(#[trigger] tokens[i])
}

/// No number is followed by a number.
pub open spec fn numbers_apart(tokens: Seq<TokenView>) -> bool {
    forall|i: int|
        0 <= i < tokens.len() - 1 && tokens[i] is Number ==> !((#[trigger] tokens[i + 1]) is Number)
}

/// Writable tokens with their numbers apart stay so when they are joined where
/// no two numbers meet.
proof fn lemma_join(a: Seq<TokenView>, b: Seq<TokenView>)
    requires
        all_writable(a),
        all_writable(b),
        numbers_apart(a),
        numbers_apart(b),
        a.len() > 0 && b.len() > 0 ==> !(a.last() is Number) || !(b[0] is Number),
    ensures
        all_writable(a + b),
        numbers_apart(a + b),
{
    let joined = a + b;
    assert forall|i: int| 0 <= i < joined.len() implies writable(#[trigger] joined[i]) by {
        if i < a.len() {
            assert(joined[i] == a[i]);
        } else {
            assert(joined[i] == b[i - a.len()]);
        }
    }
    assert forall|i: int| 0 <= i < joined.len() - 1 && joined[i] is Number implies !((
    #[trigger] joined[i + 1]) is Number) by {
        if i + 1 < a.len() {
            assert(joined[i + 1] == a[i + 1]);
        } else if i >= a.len() {
            assert(joined[i] == b[i - a.len()]);
            assert(joined[i + 1] == b[i - a.len() + 1]);
        } else {
            assert(joined[i] == a.last());
            assert(joined[i + 1] == b[0]);
        }
    }
}

/// A writable token alone.
proof fn lemma_mark(token: TokenView)
    requires
        writable(token),
    ensures
        all_writable(seq![token]),
        numbers_apart(seq![token]),
{
}

/// The tokens of supported items are writable, with their numbers apart.
proof fn lemma_item_tokens(items: Seq<Document>)
    requires
        forall|i: int| 0 <= i < items.len() ==> (#[trigger] items[i]).supported(),
    ensures
        all_writable(item_tokens(items)),
        numbers_apart(item_tokens(items)),
    decreases items,
{
    if items.len() == 1 {
        lemma_document_tokens(items[0]);
    } else if items.len() > 1 {
        let tail = items.drop_first();
        assert forall|i: int| 0 <= i < tail.len() implies (#[trigger] tail[i]).supported() by {
            assert(tail[i] == items[i + 1]);
        }
        lemma_document_tokens(items[0]);
        lemma_item_tokens(tail);
        lemma_mark(TokenView::Comma);
        lemma_join(items[0].tokens(), seq![TokenView::Comma]);
        lemma_join(items[0].tokens() + seq![TokenView::Comma], item_tokens(tail));
    }
}

/// The tokens of supported members are writable, with their numbers apart.
proof fn lemma_member_tokens(members: Seq<(Seq<char>, Document)>)
    requires
        forall|i: int|
            0 <= i < members.len() ==> quote_free((#[trigger] members[i]).0)
                && members[i].1.supported(),
    ensures
        all_writable(member_tokens(members)),
        numbers_apart(member_tokens(members)),
    decreases members,
{
    if members.len() > 0 {
        let key = seq![TokenView::String(members[0].0), TokenView::Colon];
        let value = members[0].1.tokens();
        assert(quote_free(members[0].0));
        lemma_document_tokens(members[0].1);
        lemma_join(key, value);
        if members.len() > 1 {
            let tail = members.drop_first();
            assert forall|i: int| 0 <= i < tail.len() implies quote_free((#[trigger] tail[i]).0)
                && tail[i].1.supported() by {
                assert(tail[i] == members[i + 1]);
            }
            lemma_member_tokens(tail);
            lemma_mark(TokenView::Comma);
            lemma_join(key + value, seq![TokenView::Comma]);
            lemma_join(key + value + seq![TokenView::Comma], member_tokens(tail));
        }
    }
}

/// The tokens of a supported document are writable, with their numbers apart.
pub proof fn lemma_document_tokens(document: Document)
    requires
        document.supported(),
    ensures
        all_writable(document.tokens()),
        numbers_apart(document.tokens()),
    decreases document,
{
    match document {
        Document::Array(items) => {
            lemma_item_tokens(items);
            lemma_mark(TokenView::LeftBracket);
            lemma_mark(TokenView::RightBracket);
            lemma_join(seq![TokenView::LeftBracket], item_tokens(items));
            lemma_join(
                seq![TokenView::LeftBracket] + item_tokens(items),
                seq![TokenView::RightBracket],
            );
        },
        Document::Object(members) => {
            lemma_member_tokens(members);
            lemma_mark(TokenView::LeftBrace);
            lemma_mark(TokenView::RightBrace);
            lemma_join(seq![TokenView::LeftBrace], member_tokens(members));
            lemma_join(
                seq![TokenView::LeftBrace] + member_tokens(members),
                seq![TokenView::RightBrace],
            );
        },
        _ => {},
    }
}

/// A text that spells a supported document, with blanks of any length around
/// its tokens, is read as the value of the document.
pub proof fn lemma_parse_spelled_document(document: Document, gaps: Seq<Seq<char>>)
    requires
        document.supported(),
        gaps.len() == document.tokens().len() + 1,
        forall|i: int| 0 <= i < gaps.len() ==> is_blank(#[trigger] gaps[i]),
    ensures
        lex(spelling(document.tokens(), gaps)) == Ok::<Seq<TokenView>, ErrorView>(
            document.tokens(),
        ),
        parse_text(spelling(document.tokens(), gaps)) == Ok::<ValueView, ErrorView>(
            document.value(),
        ),
{
    let tokens = document.tokens();
    lemma_document_tokens(document);
    assert(gaps_fit(tokens, gaps));
    lemma_lex_spelling(tokens, gaps);
    lemma_value_from_tokens(document, Seq::empty());
    assert(tokens + Seq::<TokenView>::empty() =~= tokens);
}

/// A text of blanks holds no token, and so no value.
pub proof fn lemma_parse_blank(s: Seq<char>)
    requires
        is_blank(s),
    ensures
        lex(s) == Ok::<Seq<TokenView>, ErrorView>(Seq::empty()),
        parse_text(s) == Err::<ValueView, ErrorView>(ErrorView::NoTokens),
{
    lemma_lex_blanks(s, 0, s.len() as int);
}

/// A text that holds one mark and blanks is no value, where the mark is none
/// of the opening ones: the mark is the unexpected token.
pub proof fn lemma_parse_lone_mark(mark: TokenView, before: Seq<char>, after: Seq<char>)
    requires
        mark is RightBrace || mark is RightBracket || mark is Comma || mark is Colon,
        is_blank(before),
        is_blank(after),
    ensures
        parse_text(before + mark.rendering() + after) == Err::<ValueView, ErrorView>(
            ErrorView::UnexpectedToken(Some(mark)),
        ),
{
    let tokens = seq![mark];
    let gaps = seq![before, after];
    lemma_lex_spelling(tokens, gaps);
    assert(spelling(tokens, gaps) =~= before + mark.rendering() + after) by {
        reveal_with_fuel(spelling, 2);
        assert(gaps.drop_first()[0] == after);
    }
}

} // verus!
