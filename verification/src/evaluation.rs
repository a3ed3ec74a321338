//! The formula evaluator's front half that holds no numbers: its error
//! codes, its tokens, and the lexer that turns formula text into tokens.
//! A number keeps its literal text; turning it into a float belongs to the
//! evaluator.

use vstd::prelude::*;
use crate::text::{chars_of, string_of, is_alpha, is_digit, is_alnum, is_alpha_exec, is_digit_exec, is_alnum_exec, alpha_run, digit_run};
use crate::sheet_name::{is_ws, is_ws_exec};
use crate::a1::{Reference, parse_reference, looks_like_reference, spec_parse_reference, spec_looks_like_reference};

verus! {

/// Why a cell's formula could not be evaluated.
#[derive(Debug, Clone, PartialEq, Eq)]
pub enum FormulaErrorCode {
    Cycle,
    UnknownReference,
    UnknownSheet,
    Syntax,
    UnsupportedFunction,
    UnsupportedRange,
    UnsupportedExternalWorkbook,
    TypeMismatch,
    DivisionByZero,
    NonFinite,
    UnsupportedValue,
    EmptyFormula,
}

/// What an unterminated text literal turns into.
pub const UNTERMINATED_TEXT: &'static str = "unterminated string";

/// What a quoted sheet name without its closing `'!` turns into.
pub const UNCLOSED_SHEET: &'static str = "未闭合的工作表引用";

/// What a malformed cell reference turns into.
pub const BAD_REFERENCE: &'static str = "无效单元格引用";

/// What a number literal that is no finite float turns into: this text
/// followed by the literal.
pub const INVALID_NUMBER: &'static str = "无效数字 ";

/// One lexical unit of a formula. A malformed piece of text becomes an
/// `Identifier` that names the problem.
#[derive(Debug, Clone, PartialEq)]
pub enum Token {
    /// A number literal as written: digits, `.`, `e`, `E`, `+` and `-`.
    Number(String),
    Text(String),
    Reference(Reference),
    Identifier(String),
    Plus,
    Minus,
    Star,
    Slash,
    LeftParen,
    RightParen,
    Comma,
    Colon,
    Equal,
    NotEqual,
    Greater,
    Less,
    GreaterEqual,
    LessEqual,
    ExternalWorkbook,
    End,
}

/// A token with its text as character sequences.
pub enum TokenView {
    Number(Seq<char>),
    Text(Seq<char>),
    Reference(Option<Seq<char>>, u32, u32),
    Identifier(Seq<char>),
    Plus,
    Minus,
    Star,
    Slash,
    LeftParen,
    RightParen,
    Comma,
    Colon,
    Equal,
    NotEqual,
    Greater,
    Less,
    GreaterEqual,
    LessEqual,
    ExternalWorkbook,
    End,
}

pub open spec fn opt_view(o: Option<String>) -> Option<Seq<char>> {
    match o {
        Some(s) => Some(s@),
        None => None,
    }
}

impl View for Token {
    type V = TokenView;

    open spec fn view(&self) -> TokenView {
        match self {
            Token::Number(t) => TokenView::Number(t@),
            Token::Text(t) => TokenView::Text(t@),
            Token::Reference(r) => TokenView::Reference(opt_view(r.sheet), r.row, r.column),
            Token::Identifier(t) => TokenView::Identifier(t@),
            Token::Plus => TokenView::Plus,
            Token::Minus => TokenView::Minus,
            Token::Star => TokenView::Star,
            Token::Slash => TokenView::Slash,
            Token::LeftParen => TokenView::LeftParen,
            Token::RightParen => TokenView::RightParen,
            Token::Comma => TokenView::Comma,
            Token::Colon => TokenView::Colon,
            Token::Equal => TokenView::Equal,
            Token::NotEqual => TokenView::NotEqual,
            Token::Greater => TokenView::Greater,
            Token::Less => TokenView::Less,
            Token::GreaterEqual => TokenView::GreaterEqual,
            Token::LessEqual => TokenView::LessEqual,
            Token::ExternalWorkbook => TokenView::ExternalWorkbook,
            Token::End => TokenView::End,
        }
    }
}

pub open spec fn token_views(s: Seq<Token>) -> Seq<TokenView> {
    s.map_values(|t: Token| t@)
}

/// Index just past the run of characters of class `f` that starts at `i`.
pub open spec fn run_end(s: Seq<char>, i: int, f: spec_fn(char) -> bool) -> int
    decreases s.len() - i,
{
    if 0 <= i < s.len() && f(s[i]) {
        run_end(s, i + 1, f)
    } else {
        i
    }
}

/// `char::is_whitespace`.
pub open spec fn ws_class() -> spec_fn(char) -> bool {
    |c: char| is_ws(c)
}

/// Characters of a word: ASCII letters and digits, `_` and `.`.
pub open spec fn word_class() -> spec_fn(char) -> bool {
    |c: char| is_alnum(c) || c == '_' || c == '.'
}

/// Characters of a number literal.
pub open spec fn number_class() -> spec_fn(char) -> bool {
    |c: char| is_digit(c) || c == '.' || c == 'e' || c == 'E' || c == '+' || c == '-'
}

pub open spec fn at(s: Seq<char>, i: int, c: char) -> bool {
    0 <= i < s.len() && s[i] == c
}

/// Index just past a cell reference's text that starts at `p`: an optional
/// `$`, letters, an optional `$`, digits.
pub open spec fn reference_end(s: Seq<char>, p: int) -> int {
    let a = if at(s, p, '$') { p + 1 } else { p };
    let b = a + alpha_run(s, a);
    let c = if at(s, b, '$') { b + 1 } else { b };
    c + digit_run(s, c)
}

/// The reference whose text starts at `p`, qualified by `sheet`.
pub open spec fn lex_reference(s: Seq<char>, p: int, sheet: Option<Seq<char>>) -> (TokenView, int) {
    let e = reference_end(s, p);
    (
        match spec_parse_reference(s.subrange(p, e)) {
            Some((row, column)) => TokenView::Reference(sheet, row, column),
            None => TokenView::Identifier(BAD_REFERENCE@),
        },
        e,
    )
}

/// The rest of a text literal from `q`, after its opening quote, with `acc`
/// read so far; `""` stands for one quote.
pub open spec fn lex_text(s: Seq<char>, q: int, acc: Seq<char>) -> (TokenView, int)
    decreases s.len() - q,
{
    if !(0 <= q < s.len()) {
        (TokenView::Identifier(UNTERMINATED_TEXT@), q)
    } else if s[q] == '"' {
        if at(s, q + 1, '"') {
            lex_text(s, q + 2, acc.push('"'))
        } else {
            (TokenView::Text(acc), q + 1)
        }
    } else {
        lex_text(s, q + 1, acc.push(s[q]))
    }
}

/// The rest of a quoted sheet name from `q`, after its opening quote, with
/// `acc` read so far; `''` stands for one quote, and `'!` ends the name
/// before the reference.
pub open spec fn lex_quoted(s: Seq<char>, q: int, acc: Seq<char>) -> (TokenView, int)
    decreases s.len() - q,
{
    if !(0 <= q < s.len()) {
        (TokenView::Identifier(UNCLOSED_SHEET@), q)
    } else if s[q] == '\'' {
        if at(s, q + 1, '\'') {
            lex_quoted(s, q + 2, acc.push('\''))
        } else if at(s, q + 1, '!') {
            lex_reference(s, q + 2, Some(acc))
        } else {
            (TokenView::Identifier(UNCLOSED_SHEET@), q + 1)
        }
    } else {
        lex_quoted(s, q + 1, acc.push(s[q]))
    }
}

/// A word starting at `p` (a `$` or a letter): a reference, a sheet name
/// before `!` and its reference, or an identifier.
pub open spec fn lex_word(s: Seq<char>, p: int) -> (TokenView, int) {
    if at(s, p, '$') {
        lex_reference(s, p, None)
    } else {
        let e = run_end(s, p, word_class());
        let w = s.subrange(p, e);
        if at(s, e, '!') {
            lex_reference(s, e + 1, Some(w))
        } else if spec_looks_like_reference(w) && spec_parse_reference(w) is Some {
            let (row, column) = spec_parse_reference(w).unwrap();
            (TokenView::Reference(None, row, column), e)
        } else {
            (TokenView::Identifier(w), e)
        }
    }
}

/// The number literal starting at `p`.
pub open spec fn lex_number(s: Seq<char>, p: int) -> (TokenView, int) {
    let e = run_end(s, p, number_class());
    (TokenView::Number(s.subrange(p, e)), e)
}

/// The token that starts at `p`, where no whitespace precedes it, and the
/// index just past it.
pub open spec fn lex_token(s: Seq<char>, p: int) -> (TokenView, int) {
    if !(0 <= p < s.len()) {
        (TokenView::End, p)
    } else {
        let c = s[p];
        if c == '+' {
            (TokenView::Plus, p + 1)
        } else if c == '-' {
            (TokenView::Minus, p + 1)
        } else if c == '*' {
            (TokenView::Star, p + 1)
        } else if c == '/' {
            (TokenView::Slash, p + 1)
        } else if c == '(' {
            (TokenView::LeftParen, p + 1)
        } else if c == ')' {
            (TokenView::RightParen, p + 1)
        } else if c == ':' {
            (TokenView::Colon, p + 1)
        } else if c == ',' {
            (TokenView::Comma, p + 1)
        } else if c == '=' {
            (TokenView::Equal, p + 1)
        } else if c == '!' && at(s, p + 1, '=') {
            (TokenView::NotEqual, p + 2)
        } else if c == '>' {
            if at(s, p + 1, '=') {
                (TokenView::GreaterEqual, p + 2)
            } else {
                (TokenView::Greater, p + 1)
            }
        } else if c == '<' {
            if at(s, p + 1, '=') {
                (TokenView::LessEqual, p + 2)
            } else {
                (TokenView::Less, p + 1)
            }
        } else if c == '[' {
            (TokenView::ExternalWorkbook, p + 1)
        } else if c == '"' {
            lex_text(s, p + 1, Seq::empty())
        } else if c == '\'' {
            lex_quoted(s, p + 1, Seq::empty())
        } else if c == '$' || is_alpha(c) {
            lex_word(s, p)
        } else if is_digit(c) || c == '.' {
            lex_number(s, p)
        } else {
            (TokenView::Identifier(seq![c]), p + 1)
        }
    }
}

/// The next token after the whitespace at `p`, and the index just past it.
pub open spec fn lex_next(s: Seq<char>, p: int) -> (TokenView, int) {
    lex_token(s, run_end(s, p, ws_class()))
}

/// The tokens of `s` from `p` on, up to and including `End`.
pub open spec fn lex_all(s: Seq<char>, p: int) -> Seq<TokenView>
    decreases s.len() - p,
{
    let (t, q) = lex_next(s, p);
    if t is End || !(p < q <= s.len()) {
        seq![t]
    } else {
        seq![t].add(lex_all(s, q))
    }
}

proof fn lemma_run_end(s: Seq<char>, i: int, f: spec_fn(char) -> bool)
    requires
        0 <= i <= s.len(),
    ensures
        i <= run_end(s, i, f) <= s.len(),
        forall|k: int| i <= k < run_end(s, i, f) ==> f(#[trigger] s[k]),
        run_end(s, i, f) == s.len() || !f(s[run_end(s, i, f)]),
    decreases s.len() - i,
{
    if i < s.len() && f(s[i]) {
        lemma_run_end(s, i + 1, f);
    }
}

proof fn lemma_reference_end(s: Seq<char>, p: int)
    requires
        0 <= p <= s.len(),
    ensures
        p <= reference_end(s, p) <= s.len(),
        at(s, p, '$') ==> p < reference_end(s, p),
        0 <= p < s.len() && is_alpha(s[p]) ==> p < reference_end(s, p),
{
    let a = if at(s, p, '$') { p + 1 } else { p };
    crate::text::lemma_alpha_run_facts(s, a);
    let b = a + alpha_run(s, a);
    let c = if at(s, b, '$') { b + 1 } else { b };
    crate::text::lemma_digit_run_facts(s, c);
}

proof fn lemma_lex_text(s: Seq<char>, q: int, acc: Seq<char>)
    requires
        0 <= q <= s.len(),
    ensures
        q <= lex_text(s, q, acc).1 <= s.len(),
        !(lex_text(s, q, acc).0 is End),
    decreases s.len() - q,
{
    if q < s.len() {
        if s[q] == '"' {
            if at(s, q + 1, '"') {
                lemma_lex_text(s, q + 2, acc.push('"'));
            }
        } else {
            lemma_lex_text(s, q + 1, acc.push(s[q]));
        }
    }
}

proof fn lemma_lex_quoted(s: Seq<char>, q: int, acc: Seq<char>)
    requires
        0 <= q <= s.len(),
    ensures
        q <= lex_quoted(s, q, acc).1 <= s.len(),
        !(lex_quoted(s, q, acc).0 is End),
    decreases s.len() - q,
{
    if q < s.len() {
        if s[q] == '\'' {
            if at(s, q + 1, '\'') {
                lemma_lex_quoted(s, q + 2, acc.push('\''));
            } else if at(s, q + 1, '!') {
                lemma_reference_end(s, q + 2);
            }
        } else {
            lemma_lex_quoted(s, q + 1, acc.push(s[q]));
        }
    }
}

/// Every token but `End` takes at least one character, and none runs past
/// the end.
proof fn lemma_lex_token(s: Seq<char>, p: int)
    requires
        0 <= p <= s.len(),
    ensures
        lex_token(s, p).0 is End ==> lex_token(s, p).1 == p,
        !(lex_token(s, p).0 is End) ==> p < lex_token(s, p).1 <= s.len(),
{
    if p < s.len() {
        let c = s[p];
        if c == '"' {
            lemma_lex_text(s, p + 1, Seq::empty());
        } else if c == '\'' {
            lemma_lex_quoted(s, p + 1, Seq::empty());
        } else if c == '$' || is_alpha(c) {
            lemma_reference_end(s, p);
            lemma_run_end(s, p, word_class());
            let e = run_end(s, p, word_class());
            if at(s, e, '!') {
                lemma_reference_end(s, e + 1);
            }
        } else if is_digit(c) || c == '.' {
            lemma_run_end(s, p, number_class());
        }
    }
}

proof fn lemma_lex_next(s: Seq<char>, p: int)
    requires
        0 <= p <= s.len(),
    ensures
        lex_next(s, p).0 is End ==> lex_next(s, p).1 <= s.len(),
        !(lex_next(s, p).0 is End) ==> p < lex_next(s, p).1 <= s.len(),
{
    lemma_run_end(s, p, ws_class());
    lemma_lex_token(s, run_end(s, p, ws_class()));
}

/// The string of `chars[a..b]`.
pub fn slice_string(chars: &Vec<char>, a: usize, b: usize) -> (res: String)
    requires
        a <= b <= chars@.len(),
    ensures
        res@ == chars@.subrange(a as int, b as int),
{
    let mut v: Vec<char> = Vec::new();
    let mut i: usize = a;
    while i < b
        invariant
            a <= i <= b <= chars@.len(),
            v@ == chars@.subrange(a as int, i as int),
        decreases b - i,
    {
        v.push(chars[i]);
        i += 1;
        assert(v@ =~= chars@.subrange(a as int, i as int));
    }
    string_of(&v)
}

fn is_word_char(c: char) -> (res: bool)
    ensures
        res == (word_class())(c),
{
    is_alnum_exec(c) || c == '_' || c == '.'
}

fn is_number_char(c: char) -> (res: bool)
    ensures
        res == (number_class())(c),
{
    is_digit_exec(c) || c == '.' || c == 'e' || c == 'E' || c == '+' || c == '-'
}

/// A formula's characters and the position the next token starts at.
pub struct Lexer {
    chars: Vec<char>,
    position: usize,
}

impl Lexer {
    /// The characters being read.
    pub closed spec fn source(&self) -> Seq<char> {
        self.chars@
    }

    /// Where the next token starts.
    pub closed spec fn cursor(&self) -> nat {
        self.position as nat
    }

    /// A lexer at the start of `source`.
    pub fn new(source: &str) -> (res: Self)
        ensures
            res.source() == source@,
            res.cursor() == 0,
    {
        Lexer { chars: chars_of(source), position: 0 }
    }

    /// Advances past whitespace.
    fn skip_whitespace(&mut self)
        requires
            old(self).position <= old(self).chars@.len(),
        ensures
            final(self).chars@ == old(self).chars@,
            final(self).position as int == run_end(old(self).chars@, old(self).position as int, ws_class()),
    {
        let ghost s = self.chars@;
        let ghost p0 = self.position as int;
        while self.position < self.chars.len() && is_ws_exec(self.chars[self.position])
            invariant
                self.chars@ == s,
                p0 <= self.position <= s.len(),
                run_end(s, p0, ws_class()) == run_end(s, self.position as int, ws_class()),
            decreases s.len() - self.position,
        {
            self.position += 1;
        }
    }

    /// The tokens from the cursor on, up to and including `End`.
    pub fn tokenize(self) -> (res: Vec<Token>)
        requires
            self.cursor() <= self.source().len(),
        ensures
            token_views(res@) == lex_all(self.source(), self.cursor() as int),
    {
        let ghost s = self.source();
        let ghost p0 = self.cursor() as int;
        let mut lexer = self;
        let mut tokens: Vec<Token> = Vec::new();
        loop
            invariant
                lexer.source() == s,
                s == self.source(),
                p0 == self.cursor() as int,
                lexer.cursor() <= s.len(),
                token_views(tokens@) + lex_all(s, lexer.cursor() as int) == lex_all(s, p0),
            decreases s.len() - lexer.cursor(),
        {
            let ghost before = tokens@;
            let ghost p = lexer.cursor() as int;
            proof {
                lemma_lex_next(s, p);
            }
            let token = lexer.next_token();
            let done = match token {
                Token::End => true,
                _ => false,
            };
            tokens.push(token);
            proof {
                assert(token_views(tokens@) =~= token_views(before).push(tokens@.last()@));
            }
            if done {
                proof {
                    assert(lex_all(s, p) =~= seq![TokenView::End]);
                    assert(token_views(tokens@) =~= token_views(before) + lex_all(s, p));
                }
                return tokens;
            }
            proof {
                let q = lexer.cursor() as int;
                assert(lex_all(s, p) == seq![tokens@.last()@].add(lex_all(s, q)));
                assert(token_views(tokens@) + lex_all(s, q) =~= token_views(before) + lex_all(s, p));
            }
        }
    }

    /// The next token after any whitespace; the cursor moves past it.
    pub fn next_token(&mut self) -> (t: Token)
        requires
            old(self).cursor() <= old(self).source().len(),
        ensures
            final(self).source() == old(self).source(),
            (t@, final(self).cursor() as int) == lex_next(old(self).source(), old(self).cursor() as int),
            final(self).cursor() <= final(self).source().len(),
    {
        let ghost s = self.chars@;
        proof {
            lemma_run_end(s, self.position as int, ws_class());
        }
        self.skip_whitespace();
        let n = self.chars.len();
        if self.position >= n {
            return Token::End;
        }
        let character = self.chars[self.position];
        if character == '+' {
            self.position += 1;
            Token::Plus
        } else if character == '-' {
            self.position += 1;
            Token::Minus
        } else if character == '*' {
            self.position += 1;
            Token::Star
        } else if character == '/' {
            self.position += 1;
            Token::Slash
        } else if character == '(' {
            self.position += 1;
            Token::LeftParen
        } else if character == ')' {
            self.position += 1;
            Token::RightParen
        } else if character == ':' {
            self.position += 1;
            Token::Colon
        } else if character == ',' {
            self.position += 1;
            Token::Comma
        } else if character == '=' {
            self.position += 1;
            Token::Equal
        } else if character == '!' && self.position + 1 < n && self.chars[self.position + 1] == '=' {
            self.position += 2;
            Token::NotEqual
        } else if character == '>' {
            self.position += 1;
            if self.position < n && self.chars[self.position] == '=' {
                self.position += 1;
                Token::GreaterEqual
            } else {
                Token::Greater
            }
        } else if character == '<' {
            self.position += 1;
            if self.position < n && self.chars[self.position] == '=' {
                self.position += 1;
                Token::LessEqual
            } else {
                Token::Less
            }
        } else if character == '[' {
            self.position += 1;
            Token::ExternalWorkbook
        } else if character == '"' {
            self.read_text()
        } else if character == '\'' {
            self.read_quoted_sheet_reference()
        } else if character == '$' || is_alpha_exec(character) {
            self.read_word_or_reference()
        } else if is_digit_exec(character) || character == '.' {
            self.read_number()
        } else {
            self.position += 1;
            let one = vec![character];
            proof {
                assert(one@ =~= seq![character]);
            }
            Token::Identifier(string_of(&one))
        }
    }
}

impl Lexer {
    /// A text literal whose opening quote is at the cursor.
    pub fn read_text(&mut self) -> (t: Token)
        requires
            old(self).cursor() < old(self).source().len(),
        ensures
            final(self).source() == old(self).source(),
            (t@, final(self).cursor() as int) == lex_text(old(self).source(), old(self).cursor() as int + 1, Seq::empty()),
            final(self).cursor() <= final(self).source().len(),
    {
        let ghost s = self.chars@;
        let ghost target = lex_text(s, self.position + 1, Seq::empty());
        assert(self.chars.len() <= usize::MAX);
        self.position += 1;
        let mut value: Vec<char> = Vec::new();
        while self.position < self.chars.len()
            invariant
                self.chars@ == s,
                s == old(self).chars@,
                target == lex_text(old(self).chars@, old(self).position + 1, Seq::empty()),
                self.position <= s.len(),
                lex_text(s, self.position as int, value@) == target,
            decreases s.len() - self.position,
        {
            let character = self.chars[self.position];
            self.position += 1;
            if character == '"' {
                if self.position < self.chars.len() && self.chars[self.position] == '"' {
                    value.push('"');
                    self.position += 1;
                } else {
                    return Token::Text(string_of(&value));
                }
            } else {
                value.push(character);
            }
        }
        Token::Identifier(String::from_str(UNTERMINATED_TEXT))
    }

    /// A quoted sheet name whose opening quote is at the cursor, and the
    /// reference after its `'!`.
    pub fn read_quoted_sheet_reference(&mut self) -> (t: Token)
        requires
            old(self).cursor() < old(self).source().len(),
        ensures
            final(self).source() == old(self).source(),
            (t@, final(self).cursor() as int) == lex_quoted(old(self).source(), old(self).cursor() as int + 1, Seq::empty()),
            final(self).cursor() <= final(self).source().len(),
    {
        let ghost s = self.chars@;
        let ghost target = lex_quoted(s, self.position + 1, Seq::empty());
        assert(self.chars.len() <= usize::MAX);
        self.position += 1;
        let mut sheet: Vec<char> = Vec::new();
        while self.position < self.chars.len()
            invariant
                self.chars@ == s,
                s == old(self).chars@,
                target == lex_quoted(old(self).chars@, old(self).position + 1, Seq::empty()),
                self.position <= s.len(),
                lex_quoted(s, self.position as int, sheet@) == target,
            decreases s.len() - self.position,
        {
            let character = self.chars[self.position];
            self.position += 1;
            if character == '\'' {
                if self.position < self.chars.len() && self.chars[self.position] == '\'' {
                    sheet.push('\'');
                    self.position += 1;
                    continue;
                }
                if self.position < self.chars.len() && self.chars[self.position] == '!' {
                    self.position += 1;
                    let name = string_of(&sheet);
                    return self.read_reference(Some(name));
                }
                return Token::Identifier(String::from_str(UNCLOSED_SHEET));
            }
            sheet.push(character);
        }
        Token::Identifier(String::from_str(UNCLOSED_SHEET))
    }

    /// A word whose first character, a `$` or a letter, is at the cursor.
    pub fn read_word_or_reference(&mut self) -> (t: Token)
        requires
            old(self).cursor() < old(self).source().len(),
        ensures
            final(self).source() == old(self).source(),
            (t@, final(self).cursor() as int) == lex_word(old(self).source(), old(self).cursor() as int),
            final(self).cursor() <= final(self).source().len(),
    {
        let ghost s = self.chars@;
        let start = self.position;
        if self.chars[self.position] == '$' {
            return self.read_reference(None);
        }
        while self.position < self.chars.len() && is_word_char(self.chars[self.position])
            invariant
                self.chars@ == s,
                start <= self.position <= s.len(),
                run_end(s, start as int, word_class()) == run_end(s, self.position as int, word_class()),
            decreases s.len() - self.position,
        {
            self.position += 1;
        }
        if self.position < self.chars.len() && self.chars[self.position] == '!' {
            let sheet = slice_string(&self.chars, start, self.position);
            self.position += 1;
            return self.read_reference(Some(sheet));
        }
        let word = slice_string(&self.chars, start, self.position);
        if looks_like_reference(word.as_str()) {
            match parse_reference(word.as_str(), None) {
                Some(reference) => {
                    return Token::Reference(reference);
                },
                None => {},
            }
        }
        Token::Identifier(word)
    }

    /// A cell reference whose text starts at the cursor, qualified by
    /// `sheet`.
    pub fn read_reference(&mut self, sheet: Option<String>) -> (t: Token)
        requires
            old(self).cursor() <= old(self).source().len(),
        ensures
            final(self).source() == old(self).source(),
            (t@, final(self).cursor() as int) == lex_reference(old(self).source(), old(self).cursor() as int, opt_view(sheet)),
            final(self).cursor() <= final(self).source().len(),
    {
        let ghost s = self.chars@;
        let start = self.position;
        proof {
            lemma_reference_end(s, start as int);
        }
        if self.position < self.chars.len() && self.chars[self.position] == '$' {
            self.position += 1;
        }
        let a = self.position;
        self.position = crate::a1::alpha_run_end(&self.chars, a);
        if self.position < self.chars.len() && self.chars[self.position] == '$' {
            self.position += 1;
        }
        let c = self.position;
        self.position = crate::a1::digit_run_end(&self.chars, c);
        let value = slice_string(&self.chars, start, self.position);
        match parse_reference(value.as_str(), sheet) {
            Some(reference) => Token::Reference(reference),
            None => Token::Identifier(String::from_str(BAD_REFERENCE)),
        }
    }

    /// A number literal whose first character is at the cursor.
    pub fn read_number(&mut self) -> (t: Token)
        requires
            old(self).cursor() <= old(self).source().len(),
        ensures
            final(self).source() == old(self).source(),
            (t@, final(self).cursor() as int) == lex_number(old(self).source(), old(self).cursor() as int),
            final(self).cursor() <= final(self).source().len(),
    {
        let ghost s = self.chars@;
        let start = self.position;
        proof {
            lemma_run_end(s, start as int, number_class());
        }
        while self.position < self.chars.len() && is_number_char(self.chars[self.position])
            invariant
                self.chars@ == s,
                start <= self.position <= s.len(),
                run_end(s, start as int, number_class()) == run_end(s, self.position as int, number_class()),
            decreases s.len() - self.position,
        {
            self.position += 1;
        }
        Token::Number(slice_string(&self.chars, start, self.position))
    }
}

/// The token that stands for the number literal `text` when `text` is not
/// a finite float.
pub fn invalid_number(text: &String) -> (res: Token)
    ensures
        res@ == TokenView::Identifier(INVALID_NUMBER@ + text@),
{
    let mut v = chars_of(INVALID_NUMBER);
    let t = chars_of(text.as_str());
    crate::text::push_chars(&mut v, &t);
    Token::Identifier(string_of(&v))
}

} // verus!
