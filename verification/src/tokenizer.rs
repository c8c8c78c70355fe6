//! From characters to tokens.
use vstd::prelude::*;
use crate::error::{ErrorView, JsonError};
use crate::number::{digit, is_digit, is_number_literal, Number};
use crate::text::chars_of;

verus! {

/// A token of a JSON text.
#[derive(Debug, PartialEq)]
pub enum Token {
    LeftBrace,
    RightBrace,
    LeftBracket,
    RightBracket,
    Comma,
    Colon,
    /// The characters between two quotes, as they stand in the text.
    String(String),
    Number(Number),
    True,
    False,
    Null,
}

/// The mathematical value of a [`Token`].
pub enum TokenView {
    LeftBrace,
    RightBrace,
    LeftBracket,
    RightBracket,
    Comma,
    Colon,
    String(Seq<char>),
    Number(Seq<char>),
    True,
    False,
    Null,
}

impl View for Token {
    type V = TokenView;

    open spec fn view(&self) -> TokenView {
        match self {
            Token::LeftBrace => TokenView::LeftBrace,
            Token::RightBrace => TokenView::RightBrace,
            Token::LeftBracket => TokenView::LeftBracket,
            Token::RightBracket => TokenView::RightBracket,
            Token::Comma => TokenView::Comma,
            Token::Colon => TokenView::Colon,
            Token::String(text) => TokenView::String(text@),
            Token::Number(number) => TokenView::Number(number@),
            Token::True => TokenView::True,
            Token::False => TokenView::False,
            Token::Null => TokenView::Null,
        }
    }
}

/// The values of a sequence of tokens.
pub open spec fn token_views(tokens: Seq<Token>) -> Seq<TokenView> {
    Seq::new(tokens.len(), |i: int| tokens[i]@)
}

impl TokenView {
    /// The text that stands for the token: its punctuation mark or its word; for
    /// a string the characters between the quotes, for a number its literal.
    pub open spec fn rendering(self) -> Seq<char> {
        match self {
            TokenView::LeftBrace => "{"@,
            TokenView::RightBrace => "}"@,
            TokenView::LeftBracket => "["@,
            TokenView::RightBracket => "]"@,
            TokenView::Comma => ","@,
            TokenView::Colon => ":"@,
            TokenView::String(text) => text,
            TokenView::Number(text) => text,
            TokenView::True => "true"@,
            TokenView::False => "false"@,
            TokenView::Null => "null"@,
        }
    }
}

/// The number of line breaks among the first `n` characters of `s`.
pub open spec fn row_at(s: Seq<char>, n: int) -> nat
    decreases n,
{
    if n <= 0 {
        0
    } else if s[n - 1] == '\n' {
        row_at(s, n - 1) + 1
    } else {
        row_at(s, n - 1)
    }
}

/// The number of characters that follow the last line break among the first `n`
/// characters of `s`.
pub open spec fn column_at(s: Seq<char>, n: int) -> nat
    decreases n,
{
    if n <= 0 {
        0
    } else if s[n - 1] == '\n' {
        0
    } else {
        column_at(s, n - 1) + 1
    }
}

/// The row and column reached when the first `n` characters of `s` have been
/// read.
pub open spec fn position_at(s: Seq<char>, n: int) -> (nat, nat) {
    (row_at(s, n), column_at(s, n))
}

/// Rows and columns together count no more characters than have been read.
proof fn lemma_position_bound(s: Seq<char>, n: int)
    requires
        0 <= n,
    ensures
        row_at(s, n) + column_at(s, n) <= n,
    decreases n,
{
    if n > 0 {
        lemma_position_bound(s, n - 1);
    }
}

/// How far a text has been read, and the row and column reached there.
#[derive(Clone, Copy)]
struct Cursor {
    index: usize,
    row: usize,
    column: usize,
}

/// A reader over characters that knows the row and column it has reached.
pub struct Indexer {
    chars: Vec<char>,
    cursor: Cursor,
}

impl Indexer {
    #[verifier::type_invariant]
    spec fn well_formed(self) -> bool {
        &&& self.cursor.index <= self.chars.len()
        &&& self.cursor.row == row_at(self.chars@, self.cursor.index as int)
        &&& self.cursor.column == column_at(self.chars@, self.cursor.index as int)
    }

    /// All the characters, read or not.
    pub closed spec fn text(self) -> Seq<char> {
        self.chars@
    }

    /// How many characters have been read.
    pub closed spec fn consumed(self) -> nat {
        self.cursor.index as nat
    }

    /// A reader at the start of `chars`.
    pub fn new(chars: Vec<char>) -> (r: Indexer)
        ensures
            r.text() == chars@,
            r.consumed() == 0,
    {
        Indexer { chars, cursor: Cursor { index: 0, row: 0, column: 0 } }
    }

    /// The row and column reached.
    pub fn position(&self) -> (p: (usize, usize))
        ensures
            self.consumed() <= self.text().len(),
            (p.0 as nat, p.1 as nat) == position_at(self.text(), self.consumed() as int),
    {
        proof {
            use_type_invariant(self);
        }
        (self.cursor.row, self.cursor.column)
    }

    /// The next character, which stays unread.
    pub fn peek(&self) -> (c: Option<char>)
        ensures
            self.consumed() <= self.text().len(),
            match c {
                Some(c) => {
                    &&& self.consumed() < self.text().len()
                    &&& c == self.text()[self.consumed() as int]
                },
                None => self.consumed() == self.text().len(),
            },
    {
        proof {
            use_type_invariant(self);
        }
        if self.cursor.index < self.chars.len() {
            Some(self.chars[self.cursor.index])
        } else {
            None
        }
    }

    /// Reads the next character: a line break starts a new row at column zero,
    /// any other character moves on by one column.
    pub fn next(&mut self) -> (c: Option<char>)
        ensures
            final(self).text() == old(self).text(),
            old(self).consumed() <= old(self).text().len(),
            match c {
                Some(c) => {
                    &&& old(self).consumed() < old(self).text().len()
                    &&& c == old(self).text()[old(self).consumed() as int]
                    &&& final(self).consumed() == old(self).consumed() + 1
                },
                None => {
                    &&& old(self).consumed() == old(self).text().len()
                    &&& final(self).consumed() == old(self).consumed()
                },
            },
    {
        proof {
            use_type_invariant(&*self);
            lemma_position_bound(self.chars@, self.cursor.index as int + 1);
        }
        let Cursor { index, row, column } = self.cursor;
        if index < self.chars.len() {
            let c = self.chars[index];
            if c == '\n' {
                self.cursor = Cursor { index: index + 1, row: row + 1, column: 0 };
            } else {
                self.cursor = Cursor { index: index + 1, row, column: column + 1 };
            }
            Some(c)
        } else {
            None
        }
    }
}

/// Whether `c` can stand in a number after its first character.
pub open spec fn is_number_char(c: char) -> bool {
    is_digit(c) || c == '.' || c == 'e' || c == 'E' || c == '+' || c == '-'
}

/// The place of the first quote at or after `from`, or the length of `s` if
/// there is none.
pub open spec fn quote_at(s: Seq<char>, from: int) -> int
    decreases s.len() - from,
{
    if 0 <= from < s.len() && s[from] != '"' {
        quote_at(s, from + 1)
    } else {
        from
    }
}

/// The end of the longest run of number characters that starts at `from`.
pub open spec fn number_end(s: Seq<char>, from: int) -> int
    decreases s.len() - from,
{
    if 0 <= from < s.len() && is_number_char(s[from]) {
        number_end(s, from + 1)
    } else {
        from
    }
}

/// The length of the longest common prefix of `s` from `at` on and `word` from
/// `k` on.
pub open spec fn common_prefix_len(s: Seq<char>, at: int, word: Seq<char>, k: int) -> nat
    decreases word.len() - k,
{
    if 0 <= at < s.len() && 0 <= k < word.len() && s[at] == word[k] {
        common_prefix_len(s, at + 1, word, k + 1) + 1
    } else {
        0
    }
}

/// What comes of reading the rest of a word whose first character stood just
/// before `at`: the place after the word, or the error at the first character
/// that differs from it.
pub open spec fn match_word(s: Seq<char>, at: int, expected: TokenView) -> Result<int, ErrorView> {
    let word = expected.rendering();
    let same = common_prefix_len(s, at, word, 1);
    if 1 + same >= word.len() {
        Ok(at + same)
    } else {
        Err(
            ErrorView::UnexpectedCharacter {
                position: position_at(s, word_stop(s, at, expected)),
                expected_token: Some(expected),
                got: if at + same < s.len() {
                    Some(s[at + same])
                } else {
                    None
                },
            },
        )
    }
}

/// How far the text has been read when [`match_word`] is done: past the word,
/// or past the character that differs from it.
pub open spec fn word_stop(s: Seq<char>, at: int, expected: TokenView) -> int {
    let word = expected.rendering();
    let same = common_prefix_len(s, at, word, 1);
    if 1 + same < word.len() && at + same < s.len() {
        at + same + 1
    } else {
        at + same
    }
}

/// The message of a [`JsonError::ParsingNumber`].
pub open spec fn number_message() -> Seq<char> {
    "invalid float literal"@
}

/// One step of the tokenizer at the character `s[i]`: the token that starts
/// there, or none for a blank, with the place where the next step starts; or
/// the error found.
pub open spec fn scan(s: Seq<char>, i: int) -> Result<(Option<TokenView>, int), ErrorView> {
    let c = s[i];
    if c == '{' {
        Ok((Some(TokenView::LeftBrace), i + 1))
    } else if c == '}' {
        Ok((Some(TokenView::RightBrace), i + 1))
    } else if c == '[' {
        Ok((Some(TokenView::LeftBracket), i + 1))
    } else if c == ']' {
        Ok((Some(TokenView::RightBracket), i + 1))
    } else if c == ',' {
        Ok((Some(TokenView::Comma), i + 1))
    } else if c == ':' {
        Ok((Some(TokenView::Colon), i + 1))
    } else if c == '"' {
        let close = quote_at(s, i + 1);
        Ok(
            (
                Some(TokenView::String(s.subrange(i + 1, close))),
                if close < s.len() {
                    close + 1
                } else {
                    close
                },
            ),
        )
    } else if c == 't' || c == 'f' || c == 'n' {
        let word = if c == 't' {
            TokenView::True
        } else if c == 'f' {
            TokenView::False
        } else {
            TokenView::Null
        };
        match match_word(s, i + 1, word) {
            Ok(next) => Ok((Some(word), next)),
            Err(e) => Err(e),
        }
    } else if is_digit(c) || c == '-' {
        let end = number_end(s, i + 1);
        let text = s.subrange(i, end);
        if is_number_literal(text) {
            Ok((Some(TokenView::Number(text)), end))
        } else {
            Err(
                ErrorView::ParsingNumber {
                    position: position_at(s, end),
                    message: number_message(),
                },
            )
        }
    } else if c == ' ' || c == '\n' {
        Ok((None, i + 1))
    } else {
        Err(
            ErrorView::UnexpectedCharacter {
                position: position_at(s, i + 1),
                expected_token: None,
                got: Some(c),
            },
        )
    }
}

/// The tokens of a text, or the first error in it.
pub type Lexed = Result<Seq<TokenView>, ErrorView>;

/// `token`, if there is one, before the tokens of `rest`.
pub open spec fn followed_by(token: Option<TokenView>, rest: Lexed) -> Lexed {
    match rest {
        Ok(tokens) => Ok(
            match token {
                Some(token) => seq![token] + tokens,
                None => tokens,
            },
        ),
        Err(e) => Err(e),
    }
}

/// The tokens of `s` from the character `s[i]` on, or the first error.
pub open spec fn lex_from(s: Seq<char>, i: int) -> Lexed
    decreases s.len() - i,
{
    if 0 <= i < s.len() {
        match scan(s, i) {
            Ok((token, next)) => {
                proof {
                    lemma_scan_advances(s, i);
                }
                followed_by(token, lex_from(s, next))
            },
            Err(e) => Err(e),
        }
    } else {
        Ok(Seq::empty())
    }
}

/// The tokens of the text `s`, or the first error.
pub open spec fn lex(s: Seq<char>) -> Lexed {
    lex_from(s, 0)
}

/// The first quote from `from` on stands within the text, behind characters
/// that are no quotes.
pub proof fn lemma_quote_at(s: Seq<char>, from: int)
    requires
        0 <= from <= s.len(),
    ensures
        from <= quote_at(s, from) <= s.len(),
        quote_at(s, from) < s.len() ==> s[quote_at(s, from)] == '"',
        forall|k: int| from <= k < quote_at(s, from) ==> s[k] != '"',
    decreases s.len() - from,
{
    if from < s.len() && s[from] != '"' {
        lemma_quote_at(s, from + 1);
    }
}

/// The run of number characters from `from` ends within the text, where no
/// number character follows.
pub proof fn lemma_number_end(s: Seq<char>, from: int)
    requires
        0 <= from <= s.len(),
    ensures
        from <= number_end(s, from) <= s.len(),
        number_end(s, from) < s.len() ==> !is_number_char(s[number_end(s, from)]),
        forall|k: int| from <= k < number_end(s, from) ==> is_number_char(s[k]),
    decreases s.len() - from,
{
    if from < s.len() && is_number_char(s[from]) {
        lemma_number_end(s, from + 1);
    }
}

/// A common prefix is no longer than the text and the word.
pub proof fn lemma_common_prefix_len(s: Seq<char>, at: int, word: Seq<char>, k: int)
    requires
        0 <= at <= s.len(),
        0 <= k,
    ensures
        at + common_prefix_len(s, at, word, k) <= s.len(),
        k < word.len() ==> k + common_prefix_len(s, at, word, k) <= word.len(),
    decreases word.len() - k,
{
    if at < s.len() && k < word.len() && s[at] == word[k] {
        lemma_common_prefix_len(s, at + 1, word, k + 1);
    }
}

/// A step of the tokenizer ends after the character it started at, and within
/// the text.
pub proof fn lemma_scan_advances(s: Seq<char>, i: int)
    requires
        0 <= i < s.len(),
    ensures
        scan(s, i) matches Ok((_, next)) ==> i < next <= s.len(),
{
    lemma_quote_at(s, i + 1);
    lemma_number_end(s, i + 1);
    lemma_common_prefix_len(s, i + 1, TokenView::True.rendering(), 1);
    lemma_common_prefix_len(s, i + 1, TokenView::False.rendering(), 1);
    lemma_common_prefix_len(s, i + 1, TokenView::Null.rendering(), 1);
}

impl Token {
    /// The text that stands for the token.
    pub fn to_string(&self) -> (text: String)
        ensures
            text@ == self@.rendering(),
    {
        match self {
            Token::LeftBrace => "{".to_owned(),
            Token::RightBrace => "}".to_owned(),
            Token::LeftBracket => "[".to_owned(),
            Token::RightBracket => "]".to_owned(),
            Token::Comma => ",".to_owned(),
            Token::Colon => ":".to_owned(),
            Token::String(text) => text.clone(),
            Token::Number(number) => number.as_str().to_owned(),
            Token::True => "true".to_owned(),
            Token::False => "false".to_owned(),
            Token::Null => "null".to_owned(),
        }
    }
}

/// `done`, then the tokens of `rest`.
pub open spec fn tokens_then(done: Seq<TokenView>, rest: Lexed) -> Lexed {
    match rest {
        Ok(tokens) => Ok(done + tokens),
        Err(e) => Err(e),
    }
}

/// One step of the tokenizer adds its token to the tokens found so far.
proof fn lemma_lex_step(s: Seq<char>, i: int, done: Seq<TokenView>)
    requires
        0 <= i < s.len(),
    ensures
        match scan(s, i) {
            Ok((Some(token), next)) => tokens_then(done, lex_from(s, i)) == tokens_then(
                done.push(token),
                lex_from(s, next),
            ),
            Ok((None, next)) => tokens_then(done, lex_from(s, i)) == tokens_then(
                done,
                lex_from(s, next),
            ),
            Err(e) => tokens_then(done, lex_from(s, i)) == Err::<Seq<TokenView>, ErrorView>(e),
        },
{
    match scan(s, i) {
        Ok((Some(token), next)) => {
            match lex_from(s, next) {
                Ok(rest) => {
                    assert(done + (seq![token] + rest) =~= done.push(token) + rest);
                },
                Err(_) => {},
            }
        },
        _ => {},
    }
}

/// Where no quote stands between `from` and `close`, and a quote or the end of
/// the text at `close`, the first quote from `from` on is found at `close`.
pub proof fn lemma_quote_found(s: Seq<char>, from: int, close: int)
    requires
        0 <= from <= close <= s.len(),
        forall|k: int| from <= k < close ==> s[k] != '"',
        close < s.len() ==> s[close] == '"',
    ensures
        quote_at(s, from) == close,
    decreases close - from,
{
    if from < close {
        lemma_quote_found(s, from + 1, close);
    }
}

/// Where number characters stand between `from` and `end`, and none at `end`,
/// the run of number characters from `from` ends at `end`.
pub proof fn lemma_number_run(s: Seq<char>, from: int, end: int)
    requires
        0 <= from <= end <= s.len(),
        forall|k: int| from <= k < end ==> is_number_char(s[k]),
        end < s.len() ==> !is_number_char(s[end]),
    ensures
        number_end(s, from) == end,
    decreases end - from,
{
    if from < end {
        lemma_number_run(s, from + 1, end);
    }
}

/// Whether `c` can stand in a number after its first character.
fn number_char(c: char) -> (r: bool)
    ensures
        r == is_number_char(c),
{
    digit(c) || c == '.' || c == 'e' || c == 'E' || c == '+' || c == '-'
}

/// Reads the rest of the word that stands for `expected_token`, whose first
/// character has just been read.
pub fn chars_match(chars: &mut Indexer, expected_token: Token) -> (r: Result<Token, JsonError>)
    ensures
        final(chars).text() == old(chars).text(),
        final(chars).consumed() == word_stop(
            old(chars).text(),
            old(chars).consumed() as int,
            expected_token@,
        ),
        match r {
            Ok(token) => token@ == expected_token@ && match_word(
                old(chars).text(),
                old(chars).consumed() as int,
                expected_token@,
            ) == Ok::<int, ErrorView>(final(chars).consumed() as int),
            Err(e) => match_word(old(chars).text(), old(chars).consumed() as int, expected_token@)
                == Err::<int, ErrorView>(e@),
        },
{
    let rendering = expected_token.to_string();
    let word = chars_of(rendering.as_str());
    let ghost s = chars.text();
    let ghost at = chars.consumed() as int;
    let mut k: usize = 1;
    while k < word.len()
        invariant
            1 <= k,
            word@ == expected_token@.rendering(),
            s == old(chars).text(),
            at == old(chars).consumed(),
            chars.text() == s,
            chars.consumed() == at + k - 1,
            common_prefix_len(s, at, word@, 1) == k - 1 + common_prefix_len(
                s,
                at + k - 1,
                word@,
                k as int,
            ),
        decreases word.len() - k,
    {
        let got = chars.next();
        let same = match got {
            Some(c) => c == word[k],
            None => false,
        };
        if !same {
            let position = chars.position();
            return Err(
                JsonError::UnexpectedCharacter {
                    position,
                    expected_token: Some(expected_token),
                    got,
                },
            );
        }
        k += 1;
    }
    Ok(expected_token)
}

/// Scans `input` into its tokens.
///
/// `{ } [ ] , :` are one token each. A quote starts a string, which runs to the
/// next quote or to the end of the text; a backslash is a character like any
/// other. `t`, `f` and `n` start the words
/// `true`, `false` and `null`. A digit or `-` starts a number, which runs as
/// far as digits, `.`, `e`, `E`, `+` and `-` follow, and has to be a number
/// literal. Spaces and line breaks separate tokens; any other character is an
/// error.
pub fn tokenize(input: &str) -> (r: Result<Vec<Token>, JsonError>)
    ensures
        match r {
            Ok(tokens) => lex(input@) == Ok::<Seq<TokenView>, ErrorView>(token_views(tokens@)),
            Err(e) => lex(input@) == Err::<Seq<TokenView>, ErrorView>(e@),
        },
{
    let mut tokens: Vec<Token> = Vec::new();
    let mut chars = Indexer::new(chars_of(input));
    let ghost s = input@;
    loop
        invariant
            s == input@,
            chars.text() == s,
            chars.consumed() <= s.len(),
            lex(s) == tokens_then(token_views(tokens@), lex_from(s, chars.consumed() as int)),
        decreases s.len() - chars.consumed(),
    {
        let ghost i = chars.consumed() as int;
        let ghost done = token_views(tokens@);
        let ghost before = tokens@;
        let c = match chars.next() {
            Some(c) => c,
            None => {
                assert(done + Seq::<TokenView>::empty() =~= done);
                return Ok(tokens);
            },
        };
        proof {
            lemma_lex_step(s, i, done);
            lemma_scan_advances(s, i);
        }
        if c == '{' {
            tokens.push(Token::LeftBrace);
        } else if c == '}' {
            tokens.push(Token::RightBrace);
        } else if c == '[' {
            tokens.push(Token::LeftBracket);
        } else if c == ']' {
            tokens.push(Token::RightBracket);
        } else if c == ',' {
            tokens.push(Token::Comma);
        } else if c == ':' {
            tokens.push(Token::Colon);
        } else if c == '"' {
            let mut text = String::new();
            let mut open = true;
            while open
                invariant
                    0 <= i,
                    chars.text() == s,
                    i + 1 <= chars.consumed() <= s.len(),
                    open ==> text@ == s.subrange(i + 1, chars.consumed() as int),
                    open ==> forall|k: int| i + 1 <= k < chars.consumed() ==> s[k] != '"',
                    !open ==> {
                        let close = quote_at(s, i + 1);
                        &&& text@ == s.subrange(i + 1, close)
                        &&& chars.consumed() == if close < s.len() {
                            close + 1
                        } else {
                            close
                        }
                    },
                decreases
                        s.len() - chars.consumed() + if open {
                            1int
                        } else {
                            0int
                        },
            {
                let ghost j = chars.consumed() as int;
                match chars.next() {
                    Some(c) => {
                        if c == '"' {
                            proof {
                                lemma_quote_found(s, i + 1, j);
                            }
                            open = false;
                        } else {
                            text.push(c);
                            assert(text@ =~= s.subrange(i + 1, j + 1));
                        }
                    },
                    None => {
                        proof {
                            lemma_quote_found(s, i + 1, j);
                        }
                        open = false;
                    },
                }
            }
            tokens.push(Token::String(text));
        } else if c == 't' {
            match chars_match(&mut chars, Token::True) {
                Ok(token) => tokens.push(token),
                Err(e) => {
                    return Err(e);
                },
            }
        } else if c == 'f' {
            match chars_match(&mut chars, Token::False) {
                Ok(token) => tokens.push(token),
                Err(e) => {
                    return Err(e);
                },
            }
        } else if c == 'n' {
            match chars_match(&mut chars, Token::Null) {
                Ok(token) => tokens.push(token),
                Err(e) => {
                    return Err(e);
                },
            }
        } else if digit(c) || c == '-' {
            let mut text = String::new();
            text.push(c);
            assert(text@ =~= s.subrange(i, i + 1));
            loop
                invariant
                    0 <= i,
                    chars.text() == s,
                    i + 1 <= chars.consumed() <= s.len(),
                    text@ == s.subrange(i, chars.consumed() as int),
                    forall|k: int| i + 1 <= k < chars.consumed() ==> is_number_char(s[k]),
                ensures
                    chars.consumed() == number_end(s, i + 1),
                decreases s.len() - chars.consumed(),
            {
                let ghost j = chars.consumed() as int;
                let more = match chars.peek() {
                    Some(c) => number_char(c),
                    None => false,
                };
                if !more {
                    proof {
                        lemma_number_run(s, i + 1, j);
                    }
                    break ;
                }
                let next = chars.next();
                match next {
                    Some(c) => {
                        text.push(c);
                    },
                    None => {},
                }
                assert(text@ =~= s.subrange(i, j + 1));
            }
            match Number::from_text(text) {
                Some(number) => tokens.push(Token::Number(number)),
                None => {
                    let position = chars.position();
                    return Err(
                        JsonError::ParsingNumber {
                            position,
                            message: "invalid float literal".to_owned(),
                        },
                    );
                },
            }
        } else if c == ' ' || c == '\n' {
        } else {
            let position = chars.position();
            return Err(
                JsonError::UnexpectedCharacter { position, expected_token: None, got: Some(c) },
            );
        }
        proof {
            if tokens@.len() > before.len() {
                assert(token_views(tokens@) =~= done.push(tokens@.last()@));
            }
        }
    }
}

} // verus!
