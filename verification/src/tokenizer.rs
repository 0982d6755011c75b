use vstd::prelude::*;
use crate::file_info::CodePoint;
use crate::text::{push_char, to_chars};

verus! {

/// The kinds of token that the lexer tells apart.
#[derive(Copy, Clone, Debug, PartialEq, Eq, Structural)]
pub enum TokenType {
    Alphanumeric,
    Numeric,
    OpenParenthesis,
    CloseParenthesis,
    OpenBlock,
    CloseBlock,
    ParameterDivider,
    SubElement,
    StaticAssignment,
    VariableAssignment,
    Symbol,
    StaticString,
    Comment,
    Operator,
    EndOfStatement,
    Undefined,
}

/// A piece of the source text with its kind and its span.
#[derive(Debug)]
pub struct Token {
    null_value: bool,
    text: String,
    token_type: TokenType,
    file_info: CodePoint,
}

/// What a token is, as a mathematical value.
pub struct TokenView {
    pub null_value: bool,
    pub text: Seq<char>,
    pub token_type: TokenType,
    pub file_info: CodePoint,
}

impl View for Token {
    type V = TokenView;

    closed spec fn view(&self) -> TokenView {
        TokenView {
            null_value: self.null_value,
            text: self.text@,
            token_type: self.token_type,
            file_info: self.file_info,
        }
    }
}

impl Clone for Token {
    fn clone(&self) -> (res: Self)
        ensures
            res == *self,
    {
        Token {
            null_value: self.null_value,
            text: self.text.clone(),
            token_type: self.token_type,
            file_info: self.file_info,
        }
    }
}

/// The span that a token has before the lexer has placed it.
pub open spec fn origin() -> CodePoint {
    CodePoint { line_number_from: 0, line_number_to: 0, column_number_from: 0, column_number_to: 0 }
}

impl Token {
    /// A token of no kind yet, with no text.
    pub fn new() -> (res: Token)
        ensures
            res@ == (TokenView {
                null_value: false,
                text: Seq::<char>::empty(),
                token_type: TokenType::Undefined,
                file_info: origin(),
            }),
    {
        Token::typed(TokenType::Undefined)
    }

    /// The sentinel that stands for "no token yet".
    pub fn null() -> (res: Token)
        ensures
            res@ == (TokenView {
                null_value: true,
                text: Seq::<char>::empty(),
                token_type: TokenType::Undefined,
                file_info: origin(),
            }),
    {
        let mut token = Token::typed(TokenType::Undefined);
        token.null_value = true;
        token
    }

    /// A token of the given kind, with no text.
    pub fn typed(tp: TokenType) -> (res: Token)
        ensures
            res@ == (TokenView {
                null_value: false,
                text: Seq::<char>::empty(),
                token_type: tp,
                file_info: origin(),
            }),
    {
        Token {
            null_value: false,
            text: String::new(),
            token_type: tp,
            file_info: CodePoint {
                line_number_from: 0,
                line_number_to: 0,
                column_number_from: 0,
                column_number_to: 0,
            },
        }
    }

    pub fn is_null(&self) -> (res: bool)
        ensures
            res == self@.null_value,
    {
        self.null_value
    }

    pub fn get_type(&self) -> (res: TokenType)
        ensures
            res == self@.token_type,
    {
        self.token_type
    }

    pub fn get_text(&self) -> (res: String)
        ensures
            res@ == self@.text,
    {
        self.text.clone()
    }

    /// The token's text, borrowed.
    pub fn text(&self) -> (res: &str)
        ensures
            res@ == self@.text,
    {
        self.text.as_str()
    }

    /// Where the token stands in the source text.
    pub fn get_file_info(&self) -> (res: CodePoint)
        ensures
            res == self@.file_info,
    {
        self.file_info
    }
}


/// What went wrong in the lexer: the description and the token that was
/// being read.
#[derive(Debug)]
pub struct TokenizationError {
    token: Token,
    desc: String,
}

pub struct TokenizationErrorView {
    pub token: TokenView,
    pub desc: Seq<char>,
}

impl View for TokenizationError {
    type V = TokenizationErrorView;

    closed spec fn view(&self) -> TokenizationErrorView {
        TokenizationErrorView { token: self.token@, desc: self.desc@ }
    }
}

impl TokenizationError {
    pub fn new(token: Token, desc: String) -> (res: TokenizationError)
        ensures
            res@ == (TokenizationErrorView { token: token@, desc: desc@ }),
    {
        TokenizationError { token: token, desc: desc }
    }

    /// The token that was being read when the lexer gave up.
    pub fn get_token(&self) -> (res: &Token)
        ensures
            res@ == self@.token,
    {
        &self.token
    }

    /// The reason, in words.
    pub fn get_description(&self) -> (res: &str)
        ensures
            res@ == self@.desc,
    {
        self.desc.as_str()
    }
}

pub open spec fn is_digit(c: char) -> bool {
    '0' <= c && c <= '9'
}

pub open spec fn is_letter(c: char) -> bool {
    ('a' <= c && c <= 'z') || ('A' <= c && c <= 'Z')
}

pub open spec fn is_word_start(c: char) -> bool {
    is_letter(c) || c == '_'
}

pub open spec fn is_whitespace(c: char) -> bool {
    c == ' ' || c == '\n' || c == '\r' || c == '\t'
}

/// The characters that are an operator by themselves. `/` is one too, where
/// no second `/` follows it.
pub open spec fn is_plain_operator(c: char) -> bool {
    c == '+' || c == '-' || c == '*' || c == '^' || c == '%'
}

/// The three kinds of run that the lexer reads to its end.
pub enum Run {
    /// Digits and dots.
    Number,
    /// Letters, digits and underscores.
    Word,
    /// Anything but a line feed.
    Comment,
}

pub open spec fn continues(run: Run, c: char) -> bool {
    match run {
        Run::Number => is_digit(c) || c == '.',
        Run::Word => is_word_start(c) || is_digit(c),
        Run::Comment => c != '\n',
    }
}

/// How many characters from `from` on belong to the run.
pub open spec fn run_length(s: Seq<char>, from: int, run: Run) -> nat
    decreases s.len() - from,
{
    if 0 <= from < s.len() && continues(run, s[from]) {
        1 + run_length(s, from + 1, run)
    } else {
        0
    }
}

/// Where `from` is the first character behind an opening quote: how many
/// characters the rest of the string literal takes, the closing quote
/// included. A backslash takes the character behind it along, whatever it is.
/// `None` where the source ends before the literal does.
pub open spec fn string_length(s: Seq<char>, from: int) -> Option<nat>
    decreases s.len() - from,
{
    if from < 0 || from >= s.len() {
        None
    } else if s[from] == '"' {
        Some(1)
    } else if s[from] == '\\' {
        if from + 1 >= s.len() {
            None
        } else {
            match string_length(s, from + 2) {
                Some(n) => Some(n + 2),
                None => None,
            }
        }
    } else {
        match string_length(s, from + 1) {
            Some(n) => Some(n + 1),
            None => None,
        }
    }
}

/// The line of the last of the first `n` characters, counted from 1; a line
/// feed belongs to the line that it opens.
pub open spec fn line_at(s: Seq<char>, n: int) -> int
    decreases n,
{
    if n <= 0 {
        1
    } else if s[n - 1] == '\n' {
        line_at(s, n - 1) + 1
    } else {
        line_at(s, n - 1)
    }
}

/// The column of the last of the first `n` characters, counted from 1; a line
/// feed has column 0.
pub open spec fn column_at(s: Seq<char>, n: int) -> int
    decreases n,
{
    if n <= 0 {
        0
    } else if s[n - 1] == '\n' {
        0
    } else {
        column_at(s, n - 1) + 1
    }
}

/// What the lexer finds at one place of the source.
pub enum Scan {
    /// Whitespace, which yields nothing.
    Skip,
    /// A token of `extra` characters behind its first.
    Token { kind: TokenType, extra: nat },
    /// No token can be read: the kind and length of what was read, and why.
    Failure { kind: TokenType, extra: nat, desc: Seq<char> },
}

/// What the lexer finds at place `i` of the source `s`.
pub open spec fn scan(s: Seq<char>, i: int) -> Scan
    recommends
        0 <= i < s.len(),
{
    let c = s[i];
    if is_digit(c) {
        Scan::Token { kind: TokenType::Numeric, extra: run_length(s, i + 1, Run::Number) }
    } else if is_word_start(c) {
        Scan::Token { kind: TokenType::Alphanumeric, extra: run_length(s, i + 1, Run::Word) }
    } else if c == '"' {
        match string_length(s, i + 1) {
            Some(n) => Scan::Token { kind: TokenType::StaticString, extra: n },
            None => Scan::Failure {
                kind: TokenType::StaticString,
                extra: (s.len() - i - 1) as nat,
                desc: "Invalid end of input for \"string\""@,
            },
        }
    } else if c == '(' {
        Scan::Token { kind: TokenType::OpenParenthesis, extra: 0 }
    } else if c == ')' {
        Scan::Token { kind: TokenType::CloseParenthesis, extra: 0 }
    } else if is_plain_operator(c) {
        Scan::Token { kind: TokenType::Operator, extra: 0 }
    } else if c == '{' {
        Scan::Token { kind: TokenType::OpenBlock, extra: 0 }
    } else if c == '}' {
        Scan::Token { kind: TokenType::CloseBlock, extra: 0 }
    } else if c == '/' {
        if i + 1 < s.len() && s[i + 1] == '/' {
            let n = run_length(s, i + 1, Run::Comment);
            if i + 1 + n < s.len() {
                Scan::Token { kind: TokenType::Comment, extra: n }
            } else {
                Scan::Failure {
                    kind: TokenType::Comment,
                    extra: n,
                    desc: "Invalid end of input for // comment"@,
                }
            }
        } else {
            Scan::Token { kind: TokenType::Operator, extra: 0 }
        }
    } else if c == '=' {
        if i + 1 < s.len() {
            Scan::Token { kind: TokenType::VariableAssignment, extra: 0 }
        } else {
            Scan::Failure {
                kind: TokenType::Undefined,
                extra: 0,
                desc: "Invalid end of input after ="@,
            }
        }
    } else if c == ':' {
        if i + 1 >= s.len() {
            Scan::Failure {
                kind: TokenType::Undefined,
                extra: 0,
                desc: "Invalid end of input after :"@,
            }
        } else if s[i + 1] == ':' {
            Scan::Token { kind: TokenType::StaticAssignment, extra: 1 }
        } else if s[i + 1] == '=' {
            Scan::Token { kind: TokenType::VariableAssignment, extra: 1 }
        } else if is_letter(s[i + 1]) {
            Scan::Token { kind: TokenType::Symbol, extra: 0 }
        } else {
            Scan::Failure {
                kind: TokenType::Undefined,
                extra: 0,
                desc: "Invalid character preceding (:): "@.push(s[i + 1]),
            }
        }
    } else if c == ';' {
        Scan::Token { kind: TokenType::EndOfStatement, extra: 0 }
    } else if c == ',' {
        Scan::Token { kind: TokenType::ParameterDivider, extra: 0 }
    } else if c == '.' {
        Scan::Token { kind: TokenType::SubElement, extra: 0 }
    } else if is_whitespace(c) {
        Scan::Skip
    } else {
        Scan::Failure {
            kind: TokenType::Undefined,
            extra: 0,
            desc: "Invalid end of input: "@.push(c),
        }
    }
}

/// The token that starts at place `i` and has `extra` characters behind its
/// first, as the lexer holds it while it reads: its span ends where it starts.
pub open spec fn draft_at(s: Seq<char>, i: int, kind: TokenType, extra: nat) -> TokenView {
    TokenView {
        null_value: false,
        text: s.subrange(i, i + 1 + extra),
        token_type: kind,
        file_info: CodePoint {
            line_number_from: line_at(s, i + 1) as usize,
            line_number_to: line_at(s, i + 1) as usize,
            column_number_from: column_at(s, i + 1) as usize,
            column_number_to: column_at(s, i + 1) as usize,
        },
    }
}

/// The finished token that starts at place `i`: its text is the source from
/// there, its span runs from its first character to its last.
pub open spec fn token_at(s: Seq<char>, i: int, kind: TokenType, extra: nat) -> TokenView {
    TokenView {
        null_value: false,
        text: s.subrange(i, i + 1 + extra),
        token_type: kind,
        file_info: CodePoint {
            line_number_from: line_at(s, i + 1) as usize,
            line_number_to: line_at(s, i + 1 + extra) as usize,
            column_number_from: column_at(s, i + 1) as usize,
            column_number_to: column_at(s, i + 1 + extra) as usize,
        },
    }
}

/// The tokens of the source from place `i` on, or the first failure.
pub open spec fn lex_from(s: Seq<char>, i: int) -> Result<Seq<TokenView>, TokenizationErrorView>
    decreases
        (if i < s.len() {
            s.len() - i
        } else {
            0
        }),
{
    if i < 0 || i >= s.len() {
        Ok(Seq::empty())
    } else {
        match scan(s, i) {
            Scan::Skip => lex_from(s, i + 1),
            Scan::Token { kind, extra } => match lex_from(s, i + 1 + extra) {
                Ok(rest) => Ok(seq![token_at(s, i, kind, extra)] + rest),
                Err(e) => Err(e),
            },
            Scan::Failure { kind, extra, desc } => Err(
                TokenizationErrorView { token: draft_at(s, i, kind, extra), desc: desc },
            ),
        }
    }
}

/// The tokens of a source text, or the first failure.
pub open spec fn lex(s: Seq<char>) -> Result<Seq<TokenView>, TokenizationErrorView> {
    lex_from(s, 0)
}

/// The tokens of a list, each as a mathematical value.
pub open spec fn views(tokens: Seq<Token>) -> Seq<TokenView> {
    tokens.map_values(|t: Token| t@)
}


/// The tokens read so far, followed by what the rest of the source gives.
pub open spec fn prepend(
    tokens: Seq<TokenView>,
    rest: Result<Seq<TokenView>, TokenizationErrorView>,
) -> Result<Seq<TokenView>, TokenizationErrorView> {
    match rest {
        Ok(more) => Ok(tokens + more),
        Err(e) => Err(e),
    }
}

/// Lines and columns of the first `n` characters stay within `n`.
pub proof fn lemma_position_bounds(s: Seq<char>, n: int)
    requires
        0 <= n,
    ensures
        1 <= line_at(s, n) <= n + 1,
        0 <= column_at(s, n) <= n,
    decreases n,
{
    if n > 0 {
        lemma_position_bounds(s, n - 1);
    }
}

/// Behind a character that is no line feed the line number is at most the
/// number of characters read.
pub proof fn lemma_line_behind_text(s: Seq<char>, k: int, n: int)
    requires
        0 <= k < n,
        s[k] != '\n',
    ensures
        line_at(s, n) <= n,
    decreases n,
{
    if n - 1 == k {
        lemma_position_bounds(s, n - 1);
    } else {
        lemma_line_behind_text(s, k, n - 1);
    }
}

/// A stretch of characters that all continue the run, and that ends at the
/// end of the source or before a character that does not, is the run.
pub proof fn lemma_run_length(s: Seq<char>, from: int, to: int, run: Run)
    requires
        0 <= from <= to <= s.len(),
        forall|k: int| from <= k < to ==> continues(run, #[trigger] s[k]),
        to == s.len() || !continues(run, s[to]),
    ensures
        run_length(s, from, run) == to - from,
    decreases to - from,
{
    if from < to {
        lemma_run_length(s, from + 1, to, run);
    }
}

/// The state of the lexer while it reads one source text.
struct Tokenizer {
    tokens: Vec<Token>,
    chars: Vec<char>,
    position: usize,
    current_char: char,
    line_index: usize,
    column_number: usize,
}

pub fn is_digit_char(c: char) -> (res: bool)
    ensures
        res == is_digit(c),
{
    '0' <= c && c <= '9'
}

pub fn is_letter_char(c: char) -> (res: bool)
    ensures
        res == is_letter(c),
{
    ('a' <= c && c <= 'z') || ('A' <= c && c <= 'Z')
}

impl Tokenizer {
    /// The lexer has read `position` characters and knows the line and column
    /// of the last of them.
    spec fn wf(&self) -> bool {
        &&& self.position <= self.chars@.len()
        &&& self.line_index + 1 == line_at(self.chars@, self.position as int)
        &&& self.column_number == column_at(self.chars@, self.position as int)
        &&& self.current_char == (if self.position == 0 {
            '\n'
        } else {
            self.chars@[self.position - 1]
        })
    }

    /// The lexer stands behind the first character of a token.
    spec fn in_token(&self) -> bool {
        &&& self.wf()
        &&& self.position >= 1
        &&& self.current_char != '\n'
    }

    /// Nothing but the place in the source has changed.
    spec fn advanced(&self, before: &Tokenizer, by: int) -> bool {
        &&& self.wf()
        &&& self.chars == before.chars
        &&& self.tokens == before.tokens
        &&& self.position == before.position + by
    }

    fn new() -> (res: Tokenizer)
        ensures
            res.wf(),
            res.position == 0,
            res.chars@.len() == 0,
            res.tokens@.len() == 0,
    {
        Tokenizer {
            line_index: 0,
            column_number: 0,
            chars: Vec::new(),
            position: 0,
            current_char: '\n',
            tokens: Vec::new(),
        }
    }

    fn reset(&mut self)
        ensures
            final(self).wf(),
            final(self).position == 0,
            final(self).chars@.len() == 0,
            final(self).tokens@.len() == 0,
    {
        self.line_index = 0;
        self.column_number = 0;
        self.chars = Vec::new();
        self.position = 0;
        self.current_char = '\n';
        self.tokens = Vec::new();
    }

    /// Moves line and column on to the character that is read next.
    fn increment_file_info(&mut self)
        requires
            old(self).wf(),
        ensures
            final(self).chars == old(self).chars,
            final(self).tokens == old(self).tokens,
            final(self).position == old(self).position,
            final(self).current_char == old(self).current_char,
            old(self).position >= old(self).chars@.len() ==> *final(self) == *old(self),
            old(self).position < old(self).chars@.len() ==> {
                &&& final(self).line_index + 1 == line_at(
                    old(self).chars@,
                    old(self).position + 1,
                )
                &&& final(self).column_number == column_at(
                    old(self).chars@,
                    old(self).position + 1,
                )
            },
    {
        proof {
            lemma_position_bounds(self.chars@, self.position as int);
        }
        let length: usize = self.chars.len();
        assert(self.position < length ==> self.line_index < usize::MAX && self.column_number
            < usize::MAX);
        if let Some(c) = self.peek_char() {
            if c == '\n' {
                self.line_index += 1;
                self.column_number = 0;
            } else {
                self.column_number += 1;
            }
        }
    }

    fn next_char(&mut self) -> (res: Option<char>)
        requires
            old(self).wf(),
        ensures
            old(self).position >= old(self).chars@.len() ==> res is None && *final(self) == *old(
                self,
            ),
            old(self).position < old(self).chars@.len() ==> res == Some(
                old(self).chars@[old(self).position as int],
            ) && final(self).advanced(old(self), 1),
    {
        self.increment_file_info();
        if self.position < self.chars.len() {
            let c = self.chars[self.position];
            self.position += 1;
            self.current_char = c;
            Some(c)
        } else {
            None
        }
    }

    fn add_next_char(&mut self, token: &mut Token) -> (res: Option<char>)
        requires
            old(self).wf(),
        ensures
            old(self).position >= old(self).chars@.len() ==> res is None && *final(self) == *old(
                self,
            ) && *final(token) == *old(token),
            old(self).position < old(self).chars@.len() ==> res == Some(
                old(self).chars@[old(self).position as int],
            ) && final(self).advanced(old(self), 1) && final(token)@ == (TokenView {
                text: old(token)@.text.push(old(self).chars@[old(self).position as int]),
                ..old(token)@
            }),
    {
        let next = self.next_char();
        if let Some(c) = next {
            push_char(&mut token.text, c);
        }
        next
    }

    fn peek_char(&self) -> (res: Option<char>)
        requires
            self.position <= self.chars@.len(),
        ensures
            res == (if self.position < self.chars@.len() {
                Some(self.chars@[self.position as int])
            } else {
                None
            }),
    {
        if self.position < self.chars.len() {
            Some(self.chars[self.position])
        } else {
            None
        }
    }

    /// Ends the token at the last character read and adds it to the list.
    fn save_token(&mut self, token: Token)
        requires
            old(self).wf(),
            old(self).line_index < usize::MAX,
        ensures
            final(self).wf(),
            final(self).chars == old(self).chars,
            final(self).position == old(self).position,
            views(final(self).tokens@) == views(old(self).tokens@).push(
                TokenView {
                    file_info: CodePoint {
                        line_number_to: (old(self).line_index + 1) as usize,
                        column_number_to: old(self).column_number,
                        ..token@.file_info
                    },
                    ..token@
                },
            ),
    {
        let mut token = token;
        token.file_info.column_number_to = self.column_number;
        token.file_info.line_number_to = self.line_index + 1;
        self.tokens.push(token);
        assert(views(self.tokens@) =~= views(old(self).tokens@).push(token@));
    }

    /// A token that starts with the last character read.
    fn new_token(&self, tp: TokenType) -> (res: Token)
        requires
            self.in_token(),
        ensures
            res@ == draft_at(self.chars@, self.position - 1, tp, 0),
    {
        proof {
            lemma_line_behind_text(self.chars@, self.position - 1, self.position as int);
        }
        let mut text = String::new();
        push_char(&mut text, self.current_char);
        let token = Token {
            null_value: false,
            text: text,
            token_type: tp,
            file_info: CodePoint {
                line_number_from: self.line_index + 1,
                column_number_from: self.column_number,
                line_number_to: self.line_index + 1,
                column_number_to: self.column_number,
            },
        };
        assert(token@.text =~= self.chars@.subrange(self.position - 1, self.position as int));
        token
    }

    /// Ends the token that started at place `start` and adds it to the list.
    fn save_token_from(&mut self, token: Token, Ghost(start): Ghost<int>, Ghost(extra): Ghost<nat>)
        requires
            old(self).wf(),
            0 <= start,
            old(self).position == start + 1 + extra,
            old(self).chars@[start] != '\n',
            token@ == draft_at(old(self).chars@, start, token@.token_type, extra),
        ensures
            final(self).wf(),
            final(self).chars == old(self).chars,
            final(self).position == old(self).position,
            views(final(self).tokens@) == views(old(self).tokens@).push(
                token_at(old(self).chars@, start, token@.token_type, extra),
            ),
    {
        proof {
            lemma_line_behind_text(self.chars@, start, self.position as int);
        }
        self.save_token(token);
    }

    fn save_new_token(&mut self, tp: TokenType)
        requires
            old(self).in_token(),
        ensures
            final(self).wf(),
            final(self).chars == old(self).chars,
            final(self).position == old(self).position,
            views(final(self).tokens@) == views(old(self).tokens@).push(
                token_at(old(self).chars@, old(self).position - 1, tp, 0),
            ),
    {
        let token = self.new_token(tp);
        self.save_token_from(token, Ghost(self.position - 1), Ghost(0));
    }

    /// Reads a number to the end of its digits and dots.
    fn tokenize_number(&mut self) -> (res: Token)
        requires
            old(self).in_token(),
        ensures
            final(self).advanced(
                old(self),
                run_length(old(self).chars@, old(self).position as int, Run::Number) as int,
            ),
            res@ == draft_at(
                old(self).chars@,
                old(self).position - 1,
                TokenType::Numeric,
                run_length(old(self).chars@, old(self).position as int, Run::Number),
            ),
    {
        let mut token = self.new_token(TokenType::Numeric);
        let ghost start = self.position as int;
        let ghost s = self.chars@;
        loop
            invariant
                self.wf(),
                self.chars@ == s,
                1 <= start,
                self.advanced(old(self), self.position - start),
                start <= self.position <= s.len(),
                token@ == draft_at(s, start - 1, TokenType::Numeric, (self.position - start) as nat),
                forall|k: int| start <= k < self.position ==> continues(Run::Number, #[trigger] s[k]),
            ensures
                self.position == s.len() || !continues(Run::Number, s[self.position as int]),
            decreases s.len() - self.position,
        {
            match self.peek_char() {
                Some(c) => {
                    if is_digit_char(c) || c == '.' {
                        self.add_next_char(&mut token);
                        assert(token@.text =~= s.subrange(start - 1, self.position as int));
                    } else {
                        break ;
                    }
                },
                None => {
                    break ;
                },
            }
        }
        proof {
            lemma_run_length(s, start, self.position as int, Run::Number);
        }
        token
    }

    /// Reads a word to the end of its letters, digits and underscores.
    fn tokenize_word(&mut self) -> (res: Token)
        requires
            old(self).in_token(),
        ensures
            final(self).advanced(
                old(self),
                run_length(old(self).chars@, old(self).position as int, Run::Word) as int,
            ),
            res@ == draft_at(
                old(self).chars@,
                old(self).position - 1,
                TokenType::Alphanumeric,
                run_length(old(self).chars@, old(self).position as int, Run::Word),
            ),
    {
        let mut token = self.new_token(TokenType::Alphanumeric);
        let ghost start = self.position as int;
        let ghost s = self.chars@;
        loop
            invariant
                self.wf(),
                self.chars@ == s,
                1 <= start,
                self.advanced(old(self), self.position - start),
                start <= self.position <= s.len(),
                token@ == draft_at(
                    s,
                    start - 1,
                    TokenType::Alphanumeric,
                    (self.position - start) as nat,
                ),
                forall|k: int| start <= k < self.position ==> continues(Run::Word, #[trigger] s[k]),
            ensures
                self.position == s.len() || !continues(Run::Word, s[self.position as int]),
            decreases s.len() - self.position,
        {
            match self.peek_char() {
                Some(c) => {
                    if is_letter_char(c) || c == '_' || is_digit_char(c) {
                        self.add_next_char(&mut token);
                        assert(token@.text =~= s.subrange(start - 1, self.position as int));
                    } else {
                        break ;
                    }
                },
                None => {
                    break ;
                },
            }
        }
        proof {
            lemma_run_length(s, start, self.position as int, Run::Word);
        }
        token
    }

    /// Reads a string literal to its closing quote.
    fn tokenize_string(&mut self) -> (res: Result<Token, TokenizationError>)
        requires
            old(self).in_token(),
        ensures
            final(self).wf(),
            final(self).chars == old(self).chars,
            final(self).tokens == old(self).tokens,
            match string_length(old(self).chars@, old(self).position as int) {
                Some(n) => {
                    &&& final(self).position == old(self).position + n
                    &&& res is Ok
                    &&& res->Ok_0@ == draft_at(
                        old(self).chars@,
                        old(self).position - 1,
                        TokenType::StaticString,
                        n,
                    )
                },
                None => {
                    &&& res is Err
                    &&& res->Err_0@ == (TokenizationErrorView {
                        token: draft_at(
                            old(self).chars@,
                            old(self).position - 1,
                            TokenType::StaticString,
                            (old(self).chars@.len() - old(self).position) as nat,
                        ),
                        desc: "Invalid end of input for \"string\""@,
                    })
                },
            },
    {
        let mut token = self.new_token(TokenType::StaticString);
        let ghost start = self.position as int;
        let ghost s = self.chars@;
        loop
            invariant_except_break
                string_length(s, start) == (match string_length(s, self.position as int) {
                    Some(n) => Some((n + self.position - start) as nat),
                    None => None,
                }),
            invariant
                self.wf(),
                self.chars@ == s,
                1 <= start,
                self.advanced(old(self), self.position - start),
                start <= self.position <= s.len(),
                token@ == draft_at(
                    s,
                    start - 1,
                    TokenType::StaticString,
                    (self.position - start) as nat,
                ),
            ensures
                string_length(s, start) == Some((self.position - start) as nat),
            decreases s.len() - self.position,
        {
            match self.add_next_char(&mut token) {
                Some(c) => {
                    assert(token@.text =~= s.subrange(start - 1, self.position as int));
                    if c == '\\' {
                        self.add_next_char(&mut token);
                        assert(token@.text =~= s.subrange(start - 1, self.position as int));
                    } else if c == '"' {
                        break ;
                    }
                },
                None => {
                    let msg = "Invalid end of input for \"string\"".to_owned();
                    return Err(TokenizationError::new(token, msg));
                },
            }
        }
        Ok(token)
    }

    /// Reads a line comment up to the line feed that ends it.
    fn tokenize_comment(&mut self) -> (res: Result<Token, TokenizationError>)
        requires
            old(self).in_token(),
        ensures
            final(self).advanced(
                old(self),
                run_length(old(self).chars@, old(self).position as int, Run::Comment) as int,
            ),
            (final(self).position < old(self).chars@.len()) == (res is Ok),
            res is Ok ==> res->Ok_0@ == draft_at(
                old(self).chars@,
                old(self).position - 1,
                TokenType::Comment,
                run_length(old(self).chars@, old(self).position as int, Run::Comment),
            ),
            res is Err ==> res->Err_0@ == (TokenizationErrorView {
                token: draft_at(
                    old(self).chars@,
                    old(self).position - 1,
                    TokenType::Comment,
                    run_length(old(self).chars@, old(self).position as int, Run::Comment),
                ),
                desc: "Invalid end of input for // comment"@,
            }),
    {
        let mut token = self.new_token(TokenType::Comment);
        let ghost start = self.position as int;
        let ghost s = self.chars@;
        loop
            invariant
                self.wf(),
                self.chars@ == s,
                1 <= start,
                self.advanced(old(self), self.position - start),
                start <= self.position <= s.len(),
                token@ == draft_at(s, start - 1, TokenType::Comment, (self.position - start) as nat),
                forall|k: int| start <= k < self.position ==> continues(Run::Comment, #[trigger] s[k]),
            ensures
                self.position < s.len(),
                !continues(Run::Comment, s[self.position as int]),
            decreases s.len() - self.position,
        {
            match self.peek_char() {
                Some(c) => {
                    if c == '\n' {
                        break ;
                    } else {
                        self.add_next_char(&mut token);
                        assert(token@.text =~= s.subrange(start - 1, self.position as int));
                    }
                },
                None => {
                    proof {
                        lemma_run_length(s, start, self.position as int, Run::Comment);
                    }
                    let msg = "Invalid end of input for // comment".to_owned();
                    return Err(TokenizationError::new(token, msg));
                },
            }
        }
        proof {
            lemma_run_length(s, start, self.position as int, Run::Comment);
        }
        Ok(token)
    }

    /// Reads the second character of `::`.
    fn tokenize_static_assignment(&mut self) -> (res: Token)
        requires
            old(self).in_token(),
            old(self).position < old(self).chars@.len(),
        ensures
            final(self).advanced(old(self), 1),
            res@ == draft_at(
                old(self).chars@,
                old(self).position - 1,
                TokenType::StaticAssignment,
                1,
            ),
    {
        let mut token = self.new_token(TokenType::StaticAssignment);
        self.add_next_char(&mut token);
        assert(token@.text =~= self.chars@.subrange(self.position - 2, self.position as int));
        token
    }

    /// Reads the `=` of `:=`.
    fn tokenize_variable_assignment(&mut self) -> (res: Token)
        requires
            old(self).in_token(),
            old(self).position < old(self).chars@.len(),
        ensures
            final(self).advanced(old(self), 1),
            res@ == draft_at(
                old(self).chars@,
                old(self).position - 1,
                TokenType::VariableAssignment,
                1,
            ),
    {
        let mut token = self.new_token(TokenType::VariableAssignment);
        self.add_next_char(&mut token);
        assert(token@.text =~= self.chars@.subrange(self.position - 2, self.position as int));
        token
    }

    fn tokenize_symbol(&mut self) -> (res: Token)
        requires
            old(self).in_token(),
        ensures
            *final(self) == *old(self),
            res@ == draft_at(old(self).chars@, old(self).position - 1, TokenType::Symbol, 0),
    {
        self.new_token(TokenType::Symbol)
    }

    fn tokenize_operator(&mut self) -> (res: Token)
        requires
            old(self).in_token(),
        ensures
            *final(self) == *old(self),
            res@ == draft_at(old(self).chars@, old(self).position - 1, TokenType::Operator, 0),
    {
        self.new_token(TokenType::Operator)
    }

    /// Reads the source from the place where the lexer stands to its end.
    fn tokenize_using_state(&mut self) -> (res: Result<Vec<Token>, TokenizationError>)
        requires
            old(self).wf(),
        ensures
            final(self).wf(),
            match res {
                Ok(tokens) => prepend(
                    views(old(self).tokens@),
                    lex_from(old(self).chars@, old(self).position as int),
                ) == Ok::<Seq<TokenView>, TokenizationErrorView>(views(tokens@)),
                Err(e) => lex_from(old(self).chars@, old(self).position as int) == Err::<
                    Seq<TokenView>,
                    TokenizationErrorView,
                >(e@),
            },
    {
        let ghost s = self.chars@;
        let ghost goal = prepend(views(self.tokens@), lex_from(s, self.position as int));
        let ghost first = self.position as int;
        loop
            invariant
                self.wf(),
                self.chars@ == s,
                goal == prepend(views(self.tokens@), lex_from(s, self.position as int)),
                s == old(self).chars@,
                first == old(self).position,
                lex_from(s, self.position as int) is Err ==> lex_from(s, first) == lex_from(
                    s,
                    self.position as int,
                ),
            ensures
                self.wf(),
                goal == Ok::<Seq<TokenView>, TokenizationErrorView>(views(self.tokens@)),
            decreases s.len() - self.position,
        {
            let ghost i = self.position as int;
            let ghost before = views(self.tokens@);
            let next = self.next_char();
            if next.is_none() {
                assert(before + Seq::<TokenView>::empty() =~= before);
                break ;
            }
            let c = next.unwrap();
            if is_digit_char(c) {
                let token = self.tokenize_number();
                self.save_token_from(token, Ghost(i), Ghost((self.position - i - 1) as nat));
            } else if is_letter_char(c) || c == '_' {
                let token = self.tokenize_word();
                self.save_token_from(token, Ghost(i), Ghost((self.position - i - 1) as nat));
            } else if c == '"' {
                match self.tokenize_string() {
                    Ok(token) => {
                        self.save_token_from(token, Ghost(i), Ghost((self.position - i - 1) as nat));
                    },
                    Err(e) => {
                        return Err(e);
                    },
                }
            } else if c == '(' {
                self.save_new_token(TokenType::OpenParenthesis);
            } else if c == ')' {
                self.save_new_token(TokenType::CloseParenthesis);
            } else if c == '+' || c == '-' || c == '*' || c == '^' || c == '%' {
                let token = self.tokenize_operator();
                self.save_token_from(token, Ghost(i), Ghost(0));
            } else if c == '{' {
                self.save_new_token(TokenType::OpenBlock);
            } else if c == '}' {
                self.save_new_token(TokenType::CloseBlock);
            } else if c == '/' {
                if self.peek_char() == Some('/') {
                    match self.tokenize_comment() {
                        Ok(token) => {
                            self.save_token_from(
                                token,
                                Ghost(i),
                                Ghost((self.position - i - 1) as nat),
                            );
                        },
                        Err(e) => {
                            return Err(e);
                        },
                    }
                } else {
                    let token = self.tokenize_operator();
                    self.save_token_from(token, Ghost(i), Ghost(0));
                }
            } else if c == '=' {
                match self.peek_char() {
                    Some(_) => {
                        self.save_new_token(TokenType::VariableAssignment);
                    },
                    None => {
                        let token = self.new_token(TokenType::Undefined);
                        let msg = "Invalid end of input after =".to_owned();
                        return Err(TokenizationError::new(token, msg));
                    },
                }
            } else if c == ':' {
                match self.peek_char() {
                    Some(d) => {
                        if d == ':' {
                            let token = self.tokenize_static_assignment();
                            self.save_token_from(token, Ghost(i), Ghost(1));
                        } else if d == '=' {
                            let token = self.tokenize_variable_assignment();
                            self.save_token_from(token, Ghost(i), Ghost(1));
                        } else if is_letter_char(d) {
                            let token = self.tokenize_symbol();
                            self.save_token_from(token, Ghost(i), Ghost(0));
                        } else {
                            let token = self.new_token(TokenType::Undefined);
                            let mut msg = "Invalid character preceding (:): ".to_owned();
                            push_char(&mut msg, d);
                            return Err(TokenizationError::new(token, msg));
                        }
                    },
                    None => {
                        let token = self.new_token(TokenType::Undefined);
                        let msg = "Invalid end of input after :".to_owned();
                        return Err(TokenizationError::new(token, msg));
                    },
                }
            } else if c == ';' {
                self.save_new_token(TokenType::EndOfStatement);
            } else if c == ',' {
                self.save_new_token(TokenType::ParameterDivider);
            } else if c == '.' {
                self.save_new_token(TokenType::SubElement);
            } else if c == ' ' || c == '\n' || c == '\r' || c == '\t' {
            } else {
                let token = self.new_token(TokenType::Undefined);
                let mut msg = "Invalid end of input: ".to_owned();
                push_char(&mut msg, c);
                return Err(TokenizationError::new(token, msg));
            }
            proof {
                match scan(s, i) {
                    Scan::Token { kind, extra } => {
                        lemma_prepend_token(
                            before,
                            token_at(s, i, kind, extra),
                            lex_from(s, i + 1 + extra),
                        );
                    },
                    _ => {},
                }
            }
        }
        let mut tokens: Vec<Token> = Vec::new();
        std::mem::swap(&mut self.tokens, &mut tokens);
        Ok(tokens)
    }

    /// Reads a whole source text and leaves the lexer as new.
    fn tokenize(&mut self, target: &str) -> (res: Result<Vec<Token>, TokenizationError>)
        requires
            old(self).wf(),
            old(self).position == 0,
            old(self).tokens@.len() == 0,
        ensures
            final(self).wf(),
            final(self).position == 0,
            final(self).tokens@.len() == 0,
            match res {
                Ok(tokens) => lex(target@) == Ok::<Seq<TokenView>, TokenizationErrorView>(
                    views(tokens@),
                ),
                Err(e) => lex(target@) == Err::<Seq<TokenView>, TokenizationErrorView>(e@),
            },
    {
        self.chars = to_chars(target);
        assert(views(self.tokens@) =~= Seq::<TokenView>::empty());
        let res = self.tokenize_using_state();
        proof {
            match lex(target@) {
                Ok(all) => {
                    assert(Seq::<TokenView>::empty() + all =~= all);
                },
                Err(_) => {},
            }
        }
        self.reset();
        res
    }
}

/// Putting a token in front of what follows it is the same as adding it to
/// what came before.
proof fn lemma_prepend_token(
    tokens: Seq<TokenView>,
    token: TokenView,
    rest: Result<Seq<TokenView>, TokenizationErrorView>,
)
    ensures
        prepend(tokens, prepend(seq![token], rest)) == prepend(tokens.push(token), rest),
{
    match rest {
        Ok(more) => {
            assert(tokens + (seq![token] + more) =~= tokens.push(token) + more);
        },
        Err(_) => {},
    }
}

/// Splits a source text into its tokens. Whitespace separates tokens and
/// yields none. The result is the list of tokens, each with the exact text
/// it was read from and its span, or the first failure.
pub fn tokenize(string: &str) -> (res: Result<Vec<Token>, TokenizationError>)
    ensures
        match res {
            Ok(tokens) => lex(string@) == Ok::<Seq<TokenView>, TokenizationErrorView>(
                views(tokens@),
            ),
            Err(e) => lex(string@) == Err::<Seq<TokenView>, TokenizationErrorView>(e@),
        },
{
    let mut tokenizer = Tokenizer::new();
    tokenizer.tokenize(string)
}

} // verus!
