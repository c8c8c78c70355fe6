//! From tokens to a value.
use vstd::prelude::*;
use crate::error::{ErrorView, JsonError};
use crate::tokenizer::{lex, token_views, tokenize, Token, TokenView};
use crate::value::{
    insert_member, item_views, keys_unique, lemma_last_member, member_views, members_map, Value,
    ValueView,
};

verus! {

/// Tokens that are read from the front, one at a time.
pub struct TokenStream {
    /// The tokens still to come, the next one last.
    rest: Vec<Token>,
}

impl View for TokenStream {
    type V = Seq<TokenView>;

    /// The tokens still to come, the next one first.
    closed spec fn view(&self) -> Seq<TokenView> {
        Seq::new(self.rest@.len(), |i: int| self.rest@[self.rest@.len() - 1 - i]@)
    }
}

impl TokenStream {
    /// A stream of `tokens`, the first of them at the front.
    pub fn new(tokens: Vec<Token>) -> (r: TokenStream)
        ensures
            r@ == token_views(tokens@),
    {
        let ghost all = tokens@;
        let mut tokens = tokens;
        let mut rest: Vec<Token> = Vec::new();
        while tokens.len() > 0
            invariant
                tokens@.len() + rest@.len() == all.len(),
                tokens@ == all.take(tokens@.len() as int),
                forall|k: int| 0 <= k < rest@.len() ==> rest@[k] == all[all.len() - 1 - k],
            decreases tokens@.len(),
        {
            match tokens.pop() {
                Some(token) => {
                    rest.push(token);
                    assert(tokens@ =~= all.take(tokens@.len() as int));
                },
                None => {},
            }
        }
        let r = TokenStream { rest };
        assert(r@ =~= token_views(all));
        r
    }

    /// The next token, which stays in the stream.
    pub fn peek(&self) -> (r: Option<&Token>)
        ensures
            match r {
                Some(token) => self@.len() > 0 && token@ == self@[0],
                None => self@.len() == 0,
            },
    {
        let n = self.rest.len();
        if n > 0 {
            Some(&self.rest[n - 1])
        } else {
            None
        }
    }

    /// Takes the next token out of the stream.
    pub fn next(&mut self) -> (r: Option<Token>)
        ensures
            match r {
                Some(token) => {
                    &&& old(self)@.len() > 0
                    &&& token@ == old(self)@[0]
                    &&& final(self)@ == old(self)@.drop_first()
                },
                None => old(self)@.len() == 0 && final(self)@ == old(self)@,
            },
    {
        let r = self.rest.pop();
        assert(r is Some ==> self@ =~= old(self)@.drop_first());
        r
    }
}

/// What has been read from the front of some tokens, with the tokens that are
/// left.
pub type Parsed = (Result<ValueView, ErrorView>, Seq<TokenView>);

/// The value of a token that is a value by itself.
pub open spec fn atom(token: TokenView) -> Option<ValueView> {
    match token {
        TokenView::String(text) => Some(ValueView::String(text)),
        TokenView::Number(text) => Some(ValueView::Number(text)),
        TokenView::True => Some(ValueView::Boolean(true)),
        TokenView::False => Some(ValueView::Boolean(false)),
        TokenView::Null => Some(ValueView::Null),
        _ => None,
    }
}

/// The error for the token at the front of `tokens`, which cannot stand there:
/// it is taken out of the stream; where there is none, the tokens have ended
/// too early.
pub open spec fn unexpected(tokens: Seq<TokenView>) -> Parsed {
    if tokens.len() == 0 {
        (Err(ErrorView::UnexpectedToken(None)), tokens)
    } else {
        (Err(ErrorView::UnexpectedToken(Some(tokens[0]))), tokens.drop_first())
    }
}

/// What [`parse_value`] makes of `tokens`, and the tokens that it leaves.
///
/// `{` starts an object and `[` an array; a string, a number, `true`, `false`
/// and `null` are values by themselves; no other token starts a value.
pub open spec fn value_from(tokens: Seq<TokenView>) -> Parsed
    decreases tokens.len(), 2int,
{
    if tokens.len() == 0 {
        (Err(ErrorView::NoTokens), tokens)
    } else if tokens[0] is LeftBrace {
        object_from(tokens)
    } else if tokens[0] is LeftBracket {
        array_from(tokens)
    } else {
        match atom(tokens[0]) {
            Some(value) => (Ok(value), tokens.drop_first()),
            None => unexpected(tokens),
        }
    }
}

/// What [`parse_array`] makes of `tokens`, and the tokens that it leaves.
pub open spec fn array_from(tokens: Seq<TokenView>) -> Parsed {
    if tokens.len() > 0 && tokens[0] is LeftBracket {
        items_from(tokens.drop_first(), Seq::empty())
    } else {
        unexpected(tokens)
    }
}

/// The array that holds `items` and what follows of it in `tokens`.
///
/// `]` ends the array, and so does the end of the tokens. Commas are passed
/// over wherever they stand. An item is a token that is a value by itself.
pub open spec fn items_from(tokens: Seq<TokenView>, items: Seq<ValueView>) -> Parsed
    decreases tokens.len(),
{
    if tokens.len() == 0 {
        (Ok(ValueView::Array(items)), tokens)
    } else if tokens[0] is RightBracket {
        (Ok(ValueView::Array(items)), tokens.drop_first())
    } else if tokens[0] is Comma {
        items_from(tokens.drop_first(), items)
    } else {
        match atom(tokens[0]) {
            Some(value) => items_from(tokens.drop_first(), items.push(value)),
            None => unexpected(tokens),
        }
    }
}

/// What [`parse_object`] makes of `tokens`, and the tokens that it leaves.
pub open spec fn object_from(tokens: Seq<TokenView>) -> Parsed
    decreases tokens.len(), 1int,
{
    if tokens.len() > 0 && tokens[0] is LeftBrace {
        members_from(tokens.drop_first(), Map::empty())
    } else {
        unexpected(tokens)
    }
}

/// The object that holds `members` and what follows of it in `tokens`.
///
/// `}` ends the object, and so does the end of the tokens. Commas are passed
/// over wherever they stand. A member is a string, a colon and a value; it
/// takes the place of an earlier member with the same key.
pub open spec fn members_from(tokens: Seq<TokenView>, members: Map<Seq<char>, ValueView>) -> Parsed
    decreases tokens.len(), 0int,
{
    if tokens.len() == 0 {
        (Ok(ValueView::Object(members)), tokens)
    } else if tokens[0] is RightBrace {
        (Ok(ValueView::Object(members)), tokens.drop_first())
    } else if tokens[0] is Comma {
        members_from(tokens.drop_first(), members)
    } else {
        match tokens[0] {
            TokenView::String(key) => {
                if tokens.len() >= 2 && tokens[1] is Colon {
                    let (value, rest) = value_from(tokens.skip(2));
                    match value {
                        // A value always takes at least one token: see
                        // `lemma_value_takes_tokens`.
                        Ok(value) if rest.len() < tokens.len() => members_from(
                            rest,
                            members.insert(key, value),
                        ),
                        _ => (value, rest),
                    }
                } else {
                    unexpected(tokens.drop_first())
                }
            },
            _ => unexpected(tokens),
        }
    }
}

/// The value that the text `s` stands for, or the first error.
pub open spec fn parse_text(s: Seq<char>) -> Result<ValueView, ErrorView> {
    match lex(s) {
        Ok(tokens) => value_from(tokens).0,
        Err(e) => Err(e),
    }
}

/// The mathematical value of a result.
pub open spec fn result_view(r: Result<Value, JsonError>) -> Result<ValueView, ErrorView> {
    match r {
        Ok(value) => Ok(value@),
        Err(e) => Err(e@),
    }
}

/// `rest` is what is left of `tokens` when some tokens have been taken from
/// its front.
pub open spec fn left_of(rest: Seq<TokenView>, tokens: Seq<TokenView>) -> bool {
    rest.len() <= tokens.len() && rest == tokens.skip(tokens.len() - rest.len())
}

/// What is left of what is left of `tokens` is left of `tokens`.
proof fn lemma_left_of_rest(rest: Seq<TokenView>, middle: Seq<TokenView>, tokens: Seq<TokenView>)
    requires
        left_of(rest, middle),
        left_of(middle, tokens),
    ensures
        left_of(rest, tokens),
{
    assert(rest =~= tokens.skip(tokens.len() - rest.len()));
}

/// Taking no token, one token or two leaves what is left of the tokens.
proof fn lemma_left_of_unexpected(tokens: Seq<TokenView>)
    ensures
        left_of(unexpected(tokens).1, tokens),
        left_of(tokens, tokens),
        tokens.len() > 0 ==> left_of(tokens.drop_first(), tokens),
        tokens.len() > 1 ==> left_of(tokens.skip(2), tokens),
{
    assert(tokens =~= tokens.skip(0));
    if tokens.len() > 0 {
        assert(tokens.drop_first() =~= tokens.skip(1));
    }
}

/// An array takes its tokens from the front.
pub proof fn lemma_items_take_tokens(tokens: Seq<TokenView>, items: Seq<ValueView>)
    ensures
        left_of(items_from(tokens, items).1, tokens),
    decreases tokens.len(),
{
    lemma_left_of_unexpected(tokens);
    if tokens.len() > 0 && !(tokens[0] is RightBracket) {
        let rest = tokens.drop_first();
        if tokens[0] is Comma {
            lemma_items_take_tokens(rest, items);
            lemma_left_of_rest(items_from(rest, items).1, rest, tokens);
        } else if let Some(value) = atom(tokens[0]) {
            lemma_items_take_tokens(rest, items.push(value));
            lemma_left_of_rest(items_from(rest, items.push(value)).1, rest, tokens);
        }
    }
}

/// A value takes its tokens from the front, and at least one where there is
/// one.
pub proof fn lemma_value_takes_tokens(tokens: Seq<TokenView>)
    ensures
        left_of(value_from(tokens).1, tokens),
        tokens.len() > 0 ==> value_from(tokens).1.len() < tokens.len(),
    decreases tokens.len(), 1int,
{
    lemma_left_of_unexpected(tokens);
    if tokens.len() > 0 {
        let rest = tokens.drop_first();
        if tokens[0] is LeftBrace {
            lemma_members_take_tokens(rest, Map::empty());
            lemma_left_of_rest(members_from(rest, Map::empty()).1, rest, tokens);
        } else if tokens[0] is LeftBracket {
            lemma_items_take_tokens(rest, Seq::empty());
            lemma_left_of_rest(items_from(rest, Seq::empty()).1, rest, tokens);
        }
    }
}

/// An object takes its tokens from the front.
pub proof fn lemma_members_take_tokens(tokens: Seq<TokenView>, members: Map<Seq<char>, ValueView>)
    ensures
        left_of(members_from(tokens, members).1, tokens),
    decreases tokens.len(), 0int,
{
    lemma_left_of_unexpected(tokens);
    if tokens.len() > 0 && !(tokens[0] is RightBrace) {
        let rest = tokens.drop_first();
        lemma_left_of_unexpected(rest);
        if tokens[0] is Comma {
            lemma_members_take_tokens(rest, members);
            lemma_left_of_rest(members_from(rest, members).1, rest, tokens);
        } else if let TokenView::String(key) = tokens[0] {
            if tokens.len() >= 2 && tokens[1] is Colon {
                let after = tokens.skip(2);
                lemma_value_takes_tokens(after);
                let (value, left) = value_from(after);
                lemma_left_of_rest(left, after, tokens);
                if let Ok(value) = value {
                    lemma_members_take_tokens(left, members.insert(key, value));
                    lemma_left_of_rest(
                        members_from(left, members.insert(key, value)).1,
                        left,
                        tokens,
                    );
                }
            } else {
                lemma_left_of_rest(unexpected(rest).1, rest, tokens);
            }
        }
    }
}

/// Reads one value from the front of `tokens`.
pub fn parse_value(tokens: &mut TokenStream) -> (r: Result<Value, JsonError>)
    ensures
        (result_view(r), final(tokens)@) == value_from(old(tokens)@),
        r matches Ok(value) ==> value.well_formed(),
    decreases old(tokens)@.len(), 2int,
{
    match tokens.peek() {
        None => {
            return Err(JsonError::NoTokens);
        },
        Some(Token::LeftBrace) => {
            return parse_object(tokens);
        },
        Some(Token::LeftBracket) => {
            return parse_array(tokens);
        },
        Some(_) => {},
    }
    match tokens.next() {
        Some(Token::String(text)) => Ok(Value::String(text)),
        Some(Token::Number(number)) => Ok(Value::Number(number)),
        Some(Token::True) => Ok(Value::Boolean(true)),
        Some(Token::False) => Ok(Value::Boolean(false)),
        Some(Token::Null) => Ok(Value::Null),
        token => Err(JsonError::UnexpectedToken(token)),
    }
}

/// Reads an array from the front of `tokens`, which has to start with `[`.
pub fn parse_array(tokens: &mut TokenStream) -> (r: Result<Value, JsonError>)
    ensures
        (result_view(r), final(tokens)@) == array_from(old(tokens)@),
        r matches Ok(value) ==> value.well_formed(),
    decreases old(tokens)@.len(), 1int,
{
    match tokens.next() {
        Some(Token::LeftBracket) => {},
        token => {
            return Err(JsonError::UnexpectedToken(token));
        },
    }
    let mut items: Vec<Value> = Vec::new();
    assert(item_views(items@) =~= Seq::empty());
    loop
        invariant
            tokens@.len() < old(tokens)@.len(),
            items_from(tokens@, item_views(items@)) == array_from(old(tokens)@),
            forall|i: int| 0 <= i < items@.len() ==> (#[trigger] items@[i]).well_formed(),
        decreases tokens@.len(),
    {
        let ghost before = items@;
        match tokens.peek() {
            None => {
                return Ok(Value::Array(items));
            },
            Some(Token::RightBracket) => {
                tokens.next();
                return Ok(Value::Array(items));
            },
            Some(Token::Comma) => {
                tokens.next();
            },
            Some(Token::LeftBrace) | Some(Token::RightBrace) | Some(Token::LeftBracket) | Some(
                Token::Colon,
            ) => {
                return Err(JsonError::UnexpectedToken(tokens.next()));
            },
            Some(_) => {
                match parse_value(tokens) {
                    Ok(value) => {
                        items.push(value);
                        assert(item_views(items@) =~= item_views(before).push(value@));
                    },
                    Err(e) => {
                        return Err(e);
                    },
                }
            },
        }
    }
}

/// Reads an object from the front of `tokens`, which has to start with `{`.
pub fn parse_object(tokens: &mut TokenStream) -> (r: Result<Value, JsonError>)
    ensures
        (result_view(r), final(tokens)@) == object_from(old(tokens)@),
        r matches Ok(value) ==> value.well_formed(),
    decreases old(tokens)@.len(), 1int,
{
    match tokens.next() {
        Some(Token::LeftBrace) => {},
        token => {
            return Err(JsonError::UnexpectedToken(token));
        },
    }
    let mut members: Vec<(String, Value)> = Vec::new();
    assert(member_views(members@) =~= Seq::empty());
    loop
        invariant
            tokens@.len() < old(tokens)@.len(),
            members_from(tokens@, members_map(member_views(members@))) == object_from(
                old(tokens)@,
            ),
            keys_unique(member_views(members@)),
            forall|i: int| 0 <= i < members@.len() ==> (#[trigger] members@[i]).1.well_formed(),
        decreases tokens@.len(),
    {
        let ghost start = tokens@;
        let key = match tokens.next() {
            None => {
                return Ok(Value::Object(members));
            },
            Some(Token::RightBrace) => {
                return Ok(Value::Object(members));
            },
            Some(Token::Comma) => {
                continue ;
            },
            Some(Token::String(key)) => key,
            token => {
                return Err(JsonError::UnexpectedToken(token));
            },
        };
        match tokens.next() {
            Some(Token::Colon) => {},
            token => {
                return Err(JsonError::UnexpectedToken(token));
            },
        }
        proof {
            assert(tokens@ =~= start.skip(2));
            lemma_value_takes_tokens(tokens@);
        }
        let value = match parse_value(tokens) {
            Ok(value) => value,
            Err(e) => {
                return Err(e);
            },
        };
        let ghost before = members@;
        let ghost member = (key, value);
        insert_member(&mut members, key, value);
        assert forall|i: int| 0 <= i < members@.len() implies (
        #[trigger] members@[i]).1.well_formed() by {
            lemma_last_member(before, member.0@);
            if members@[i] != member {
                assert(members@[i] == before[i]);
            }
        }
    }
}

/// Reads the value that `input` starts with.
///
/// What follows the value in `input` has to consist of tokens, and is not
/// looked at otherwise. An object within an object is read by a call within
/// the call, so the stack bounds how deep objects can be nested.
pub fn parse(input: &str) -> (r: Result<Value, JsonError>)
    ensures
        result_view(r) == parse_text(input@),
        r matches Ok(value) ==> value.well_formed(),
{
    let tokens = match tokenize(input) {
        Ok(tokens) => tokens,
        Err(e) => {
            return Err(e);
        },
    };
    let mut tokens = TokenStream::new(tokens);
    parse_value(&mut tokens)
}

/// Reading is a function of the text: whatever [`parse`] returns for one text,
/// it stands for the same value or the same error each time.
pub proof fn lemma_parse_deterministic(
    input: Seq<char>,
    first: Result<Value, JsonError>,
    second: Result<Value, JsonError>,
)
    requires
        result_view(first) == parse_text(input),
        result_view(second) == parse_text(input),
    ensures
        result_view(first) == result_view(second),
        first is Ok <==> second is Ok,
{
}

} // verus!
