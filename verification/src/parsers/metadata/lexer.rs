//! The tokenizer of the front matter: lines of `+` that fence it, and
//! between them keys, each up to a `:`, and values, each up to the end of
//! its line.

use vstd::prelude::*;
use crate::parsers::markdown::lexer::char_at;
use crate::text::{
    first_at, first_other, lemma_first_at_bounds, lemma_first_other_bounds, push_char, to_chars,
};

verus! {

/// The kind of a token of the front matter.
#[derive(Debug, PartialEq, Eq, Clone, Copy, Structural)]
pub enum TokenType {
    Delim,
    Key,
    Value,
    EOF,
    INVALID,
}

/// A token of the front matter: its kind, and its text where it is a key
/// or a value.
#[derive(Debug)]
pub struct Token {
    pub token_type: TokenType,
    pub literal: Option<String>,
}

/// The kind of the token that begins at index `i` of `text`: a `+` begins
/// a fence; any other character begins a value where a `:` stands just
/// before it, and a key elsewhere.
pub open spec fn kind_at(text: Seq<char>, i: int) -> TokenType {
    match char_at(text, i) {
        None => TokenType::EOF,
        Some(c) => if c == '+' {
            TokenType::Delim
        } else if char_at(text, i - 1) == Some(':') {
            TokenType::Value
        } else {
            TokenType::Key
        },
    }
}

/// The index of the character that ends the token beginning at index `i`
/// of `text`, or the length of `text` where the token runs to the end: for
/// a fence the first character that is no `+`, for a key the first `:`,
/// for a value the first line break.
pub open spec fn stop_at(text: Seq<char>, i: int) -> int {
    match kind_at(text, i) {
        TokenType::Delim => first_other(text, '+', i),
        TokenType::Value => first_at(text, '\n', i),
        TokenType::Key => first_at(text, ':', i),
        _ => text.len() as int,
    }
}

/// The literal of the token that begins at index `i` of `text`: the text of
/// a key or a value up to the character that ends it, and none for a fence
/// or the end of input.
pub open spec fn literal_at(text: Seq<char>, i: int) -> Option<Seq<char>> {
    match kind_at(text, i) {
        TokenType::Key | TokenType::Value => Some(text.subrange(i, stop_at(text, i))),
        _ => None,
    }
}

/// Where the cursor stands after the token that begins at index `i` of
/// `text`: behind the character that ends the token, or at the end of the
/// text.
pub open spec fn after(text: Seq<char>, i: int) -> int {
    if kind_at(text, i) == TokenType::EOF {
        i
    } else if stop_at(text, i) < text.len() {
        stop_at(text, i) + 1
    } else {
        text.len() as int
    }
}

/// The characters of an optional string.
pub open spec fn literal_view(literal: Option<String>) -> Option<Seq<char>> {
    match literal {
        Some(s) => Some(s@),
        None => None,
    }
}

/// The cursor over the front matter: the text, the index of the character
/// last read and of the next to read, the character last read and the one
/// before it.
#[derive(Debug)]
pub struct Lexer {
    input: Vec<char>,
    position: usize,
    read_position: usize,
    ch: Option<char>,
    prev: Option<char>,
}

impl Lexer {
    /// The input text.
    pub closed spec fn text(&self) -> Seq<char> {
        self.input@
    }

    /// The index of the first character not yet consumed.
    pub closed spec fn cursor(&self) -> int {
        self.read_position as int
    }

    /// The cursor lies within the text. Before the first read nothing has
    /// been read. After a read, `position` is the index that was read and
    /// `ch` the character there, if any; `read_position` points one past
    /// `position`, except that it stays at the end of the text once a read
    /// has met the end; and where it points one past, `prev` is the
    /// character just before `position`, if any.
    pub closed spec fn wf(&self) -> bool {
        &&& self.read_position <= self.input@.len()
        &&& self.position <= self.read_position <= self.position + 1
        &&& self.read_position == 0 ==> self.ch is None && self.prev is None
        &&& self.read_position > 0 ==> self.ch == char_at(self.input@, self.position as int)
        &&& self.position == self.read_position ==> self.read_position == 0
            || self.read_position == self.input@.len()
        &&& self.position + 1 == self.read_position ==> self.prev == char_at(
            self.input@,
            self.position - 1,
        )
    }

    /// A lexer at the start of `input`; empty input is refused.
    pub fn new(input: &str) -> (res: Result<Lexer, String>)
        ensures
            input@.len() == 0 <==> res is Err,
            res matches Err(e) ==> e@ == "Input is required"@,
            res matches Ok(lexer) ==> lexer.wf() && lexer.text() == input@ && lexer.cursor() == 0,
    {
        if input.is_empty() {
            return Err("Input is required".to_owned());
        }
        Ok(Self::new_lexer_from_input(input))
    }

    fn new_lexer_from_input(input: &str) -> (lexer: Lexer)
        ensures
            lexer.wf(),
            lexer.text() == input@,
            lexer.cursor() == 0,
    {
        Lexer { input: to_chars(input), position: 0, read_position: 0, ch: None, prev: None }
    }

    /// Moves one character on: the current character becomes the previous
    /// one, and the character at the cursor, if any, the current one.
    fn read_char(&mut self)
        requires
            old(self).wf(),
        ensures
            final(self).wf(),
            final(self).input == old(self).input,
            final(self).prev == old(self).ch,
            final(self).ch == char_at(old(self).input@, old(self).read_position as int),
            final(self).position == old(self).read_position,
            final(self).read_position == if old(self).read_position < old(self).input@.len() {
                old(self).read_position + 1
            } else {
                old(self).read_position as int
            },
    {
        self.prev = self.ch;
        self.position = self.read_position;
        if self.read_position < self.input.len() {
            self.ch = Some(self.input[self.read_position]);
            self.read_position += 1;
        } else {
            self.ch = None;
        }
    }

    /// Takes the token that begins at the cursor and moves the cursor past
    /// it and past the character that ends it.
    pub fn next_token(&mut self) -> (token: Token)
        requires
            old(self).wf(),
        ensures
            final(self).wf(),
            final(self).text() == old(self).text(),
            final(self).cursor() == after(old(self).text(), old(self).cursor()),
            token.token_type == kind_at(old(self).text(), old(self).cursor()),
            literal_view(token.literal) == literal_at(old(self).text(), old(self).cursor()),
    {
        let ghost text = self.input@;
        let ghost start = self.read_position as int;
        self.read_char();
        match self.ch {
            None => Token { token_type: TokenType::EOF, literal: None },
            Some('+') => {
                while self.ch == Some('+')
                    invariant
                        self.wf(),
                        self.input@ == text,
                        0 <= start < text.len(),
                        start < self.read_position <= text.len(),
                        self.ch is Some ==> self.ch == Some(text[self.read_position - 1]),
                        self.ch is Some ==> first_other(text, '+', start) == first_other(
                            text,
                            '+',
                            self.read_position - 1,
                        ),
                        self.ch is None ==> first_other(text, '+', start) == text.len(),
                    decreases
                            text.len() - self.read_position + if self.ch is Some {
                                1int
                            } else {
                                0int
                            },
                {
                    proof {
                        lemma_first_other_bounds(text, '+', self.read_position as int);
                    }
                    self.read_char();
                }
                Token { token_type: TokenType::Delim, literal: None }
            },
            Some(_) => {
                let mut literal = String::new();
                let mut end_char = ':';
                let mut token_type = TokenType::Key;
                if self.prev == Some(':') {
                    end_char = '\n';
                    token_type = TokenType::Value;
                }
                while self.ch.is_some() && self.ch != Some(end_char)
                    invariant
                        self.wf(),
                        self.input@ == text,
                        0 <= start < text.len(),
                        start < self.read_position <= text.len(),
                        self.ch is Some ==> self.ch == Some(text[self.read_position - 1]),
                        self.ch is Some ==> first_at(text, end_char, start) == first_at(
                            text,
                            end_char,
                            self.read_position - 1,
                        ) && literal@ == text.subrange(start, self.read_position - 1),
                        self.ch is None ==> first_at(text, end_char, start) == text.len()
                            && literal@ == text.subrange(start, text.len() as int),
                    decreases
                            text.len() - self.read_position + if self.ch is Some {
                                1int
                            } else {
                                0int
                            },
                {
                    proof {
                        lemma_first_at_bounds(text, end_char, self.read_position as int);
                    }
                    let ghost before = literal@;
                    let ghost at = self.read_position - 1;
                    push_char(&mut literal, self.ch.unwrap());
                    self.read_char();
                    proof {
                        assert(before.push(text[at]) =~= text.subrange(start, at + 1));
                    }
                }
                Token { token_type, literal: Some(literal) }
            },
        }
    }
}

} // verus!
