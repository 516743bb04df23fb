//! The tokenizer: a cursor over the input text that hands out one token per
//! call, with lookahead that leaves the cursor where it is.

use vstd::prelude::*;
use crate::parsers::markdown::token::{Token, TokenType};
use crate::text::{push_char, to_chars};

verus! {

/// The character of `text` at index `i`, if there is one.
pub open spec fn char_at(text: Seq<char>, i: int) -> Option<char> {
    if 0 <= i < text.len() {
        Some(text[i])
    } else {
        None
    }
}

/// Whether `c` is one of the ASCII digits `0` to `9`.
pub open spec fn is_digit(c: char) -> bool {
    '0' <= c && c <= '9'
}

/// Whether a character preceded by `prev` stands at the start of a line:
/// nothing precedes it, or a line break does.
pub open spec fn at_line_start(prev: Option<char>) -> bool {
    prev is None || prev == Some('\n')
}

/// The kind of the token that begins with character `c` when `prev` is the
/// character just before it.
pub open spec fn classify(c: Option<char>, prev: Option<char>) -> TokenType {
    match c {
        None => TokenType::EOF,
        Some(c) => if c == '#' {
            if at_line_start(prev) || prev == Some('#') {
                TokenType::Heading
            } else {
                TokenType::Letter
            }
        } else if c == '\n' {
            TokenType::LineBreak
        } else if c == '!' {
            TokenType::Bang
        } else if c == '[' {
            TokenType::RBracket
        } else if c == ']' {
            TokenType::LBracket
        } else if c == '(' {
            TokenType::RParen
        } else if c == ')' {
            TokenType::LParen
        } else if is_digit(c) && at_line_start(prev) {
            TokenType::OrderedItem
        } else {
            TokenType::Letter
        },
    }
}

/// The kind of the token that begins at index `i` of `text`.
pub open spec fn kind_at(text: Seq<char>, i: int) -> TokenType {
    classify(char_at(text, i), char_at(text, i - 1))
}

/// Whether tokens of the given kind carry their character as their literal.
pub open spec fn has_literal(kind: TokenType) -> bool {
    kind != TokenType::EOF && kind != TokenType::Heading && kind != TokenType::LineBreak && kind
        != TokenType::OrderedItem
}

/// The literal of the token that begins at index `i` of `text`: the
/// character itself for text, `!`, brackets and parentheses; empty for
/// headings, line breaks, list markers and the end of input.
pub open spec fn literal_at(text: Seq<char>, i: int) -> Seq<char> {
    if has_literal(kind_at(text, i)) {
        seq![text[i]]
    } else {
        Seq::empty()
    }
}

/// How many characters the token that begins at index `i` of `text` takes
/// when nothing cuts it short: a heading marker takes a following space with
/// it, a list marker takes the two characters after its digit, the end of
/// input takes nothing, and every other token is one character.
pub open spec fn width_at(text: Seq<char>, i: int) -> nat {
    match kind_at(text, i) {
        TokenType::EOF => 0,
        TokenType::Heading => if char_at(text, i + 1) == Some(' ') {
            2
        } else {
            1
        },
        TokenType::OrderedItem => 3,
        _ => 1,
    }
}

/// Where the cursor stands after the token that begins at index `i` has
/// been taken: behind the token, but never beyond the end of the text. At
/// the end of input the cursor stays.
pub open spec fn after(text: Seq<char>, i: int) -> int {
    if kind_at(text, i) == TokenType::EOF {
        i
    } else if i + width_at(text, i) <= text.len() {
        i + width_at(text, i)
    } else {
        text.len() as int
    }
}

/// The end of input is met exactly outside the text. Taking any other
/// token moves the cursor on by at least one character, and never beyond
/// the end of the text; at the end of input the cursor stays.
pub proof fn lemma_after_bounds(text: Seq<char>, p: int)
    ensures
        kind_at(text, p) != TokenType::EOF <==> 0 <= p < text.len(),
        p <= after(text, p),
        0 <= p <= text.len() ==> after(text, p) <= text.len(),
        kind_at(text, p) != TokenType::EOF ==> p < after(text, p) <= text.len(),
        kind_at(text, p) == TokenType::EOF ==> after(text, p) == p,
{
}

/// The cursor over the input text: the text, the index of the character
/// last read and of the next to read, the character last read and the one
/// before it.
#[derive(Debug)]
pub struct Lexer {
    input: Vec<char>,
    position: usize,
    read_position: usize,
    ch: Option<char>,
    prev: Option<char>,
}

impl Lexer {
    /// The input text.
    pub closed spec fn text(&self) -> Seq<char> {
        self.input@
    }

    /// The index of the first character not yet consumed.
    pub closed spec fn cursor(&self) -> int {
        self.read_position as int
    }

    /// The cursor lies within the text. Before the first read nothing has
    /// been read. After a read, `position` is the index that was read and
    /// `ch` the character there, if any; `read_position` points one past
    /// `position`, except that it stays at the end of the text once a read
    /// has met the end; and where it points one past, `prev` is the
    /// character just before `position`, if any.
    pub closed spec fn wf(&self) -> bool {
        &&& self.read_position <= self.input@.len()
        &&& self.position <= self.read_position <= self.position + 1
        &&& self.read_position == 0 ==> self.ch is None && self.prev is None
        &&& self.read_position > 0 ==> self.ch == char_at(self.input@, self.position as int)
        &&& self.position == self.read_position ==> self.read_position == 0
            || self.read_position == self.input@.len()
        &&& self.position + 1 == self.read_position ==> self.prev == char_at(
            self.input@,
            self.position - 1,
        )
    }

    /// The cursor of a well-formed lexer lies within its text, whose
    /// length fits the machine's index type.
    pub proof fn lemma_cursor_in_text(&self)
        requires
            self.wf(),
        ensures
            0 <= self.cursor() <= self.text().len() <= usize::MAX,
    {
        assert(self.input.len() == self.input@.len());
    }

    /// A lexer at the start of `input`; empty input is refused.
    pub fn new(input: &str) -> (res: Result<Lexer, String>)
        ensures
            input@.len() == 0 <==> res is Err,
            res matches Err(e) ==> e@ == "Input is required"@,
            res matches Ok(lexer) ==> lexer.wf() && lexer.text() == input@ && lexer.cursor() == 0,
    {
        if input.is_empty() {
            return Err("Input is required".to_owned());
        }
        Ok(Self::new_lexer_from_input(input))
    }

    fn new_lexer_from_input(input: &str) -> (lexer: Lexer)
        ensures
            lexer.wf(),
            lexer.text() == input@,
            lexer.cursor() == 0,
    {
        Lexer { input: to_chars(input), position: 0, read_position: 0, ch: None, prev: None }
    }

    /// The token that begins `n` characters after the cursor. The cursor
    /// stays where it is.
    pub fn peek_nth_token(&self, n: usize) -> (token: Token)
        requires
            self.wf(),
        ensures
            token.token_type == kind_at(self.text(), self.cursor() + n),
            token.literal@ == literal_at(self.text(), self.cursor() + n),
    {
        let len = self.input.len();
        if n >= len - self.read_position {
            return Token::new(TokenType::EOF, String::new());
        }
        let at: usize = self.read_position + n;
        let prev: Option<char> = if at == 0 {
            None
        } else {
            Some(self.input[at - 1])
        };
        Self::token_for(Some(self.input[at]), prev)
    }

    /// The token that begins at the cursor. The lexer is left unchanged.
    pub fn peek_next_token(&mut self) -> (token: Token)
        requires
            old(self).wf(),
        ensures
            *final(self) == *old(self),
            token.token_type == kind_at(old(self).text(), old(self).cursor()),
            token.literal@ == literal_at(old(self).text(), old(self).cursor()),
    {
        self.peek_nth_token(0)
    }

    /// Takes the token that begins at the cursor and moves the cursor past
    /// it.
    pub fn next_token(&mut self) -> (token: Token)
        requires
            old(self).wf(),
        ensures
            final(self).wf(),
            final(self).text() == old(self).text(),
            final(self).cursor() == after(old(self).text(), old(self).cursor()),
            token.token_type == kind_at(old(self).text(), old(self).cursor()),
            token.literal@ == literal_at(old(self).text(), old(self).cursor()),
    {
        self.read_char();
        let token = Self::token_for(self.ch, self.prev);
        match token.token_type {
            TokenType::Heading => {
                if self.read_position < self.input.len() && self.input[self.read_position] == ' ' {
                    self.read_char();
                }
            },
            TokenType::OrderedItem => {
                self.read_char();
                self.read_char();
            },
            _ => {},
        }
        token
    }

    /// The token for character `c` preceded by `prev`.
    fn token_for(c: Option<char>, prev: Option<char>) -> (token: Token)
        ensures
            token.token_type == classify(c, prev),
            token.literal@ == if has_literal(classify(c, prev)) {
                seq![c->0]
            } else {
                Seq::empty()
            },
    {
        match c {
            None => Token::new(TokenType::EOF, String::new()),
            Some(t) => {
                let line_start = match prev {
                    None => true,
                    Some(p) => p == '\n',
                };
                if t == '#' {
                    if line_start || prev == Some('#') {
                        Token::new(TokenType::Heading, String::new())
                    } else {
                        Token::new(TokenType::Letter, Self::literal_of(t))
                    }
                } else if t == '\n' {
                    Token::new(TokenType::LineBreak, String::new())
                } else if t == '!' {
                    Token::new(TokenType::Bang, Self::literal_of(t))
                } else if t == '[' {
                    Token::new(TokenType::RBracket, Self::literal_of(t))
                } else if t == ']' {
                    Token::new(TokenType::LBracket, Self::literal_of(t))
                } else if t == '(' {
                    Token::new(TokenType::RParen, Self::literal_of(t))
                } else if t == ')' {
                    Token::new(TokenType::LParen, Self::literal_of(t))
                } else if t >= '0' && t <= '9' && line_start {
                    Token::new(TokenType::OrderedItem, String::new())
                } else {
                    Token::new(TokenType::Letter, Self::literal_of(t))
                }
            },
        }
    }

    fn literal_of(c: char) -> (s: String)
        ensures
            s@ == seq![c],
    {
        let mut s = String::new();
        push_char(&mut s, c);
        s
    }

    /// Moves one character on: the current character becomes the previous
    /// one, and the character at the cursor, if any, the current one.
    fn read_char(&mut self)
        requires
            old(self).wf(),
        ensures
            final(self).wf(),
            final(self).input == old(self).input,
            final(self).prev == old(self).ch,
            final(self).ch == char_at(old(self).input@, old(self).read_position as int),
            final(self).position == old(self).read_position,
            final(self).read_position == if old(self).read_position < old(self).input@.len() {
                old(self).read_position + 1
            } else {
                old(self).read_position as int
            },
    {
        self.prev = self.ch;
        self.position = self.read_position;
        if self.read_position < self.input.len() {
            self.ch = Some(self.input[self.read_position]);
            self.read_position += 1;
        } else {
            self.ch = None;
        }
    }
}

} // verus!
