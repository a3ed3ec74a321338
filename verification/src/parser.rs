//! The formula grammar: comparisons over sums over products over factors,
//! each level left-associative. A factor is a signed factor, a literal, a
//! reference or range, a parenthesised formula, a function call or
//! `TRUE`/`FALSE`.

use vstd::prelude::*;
use crate::address::{CellAddress, av, copy_addr};
use crate::a1::Reference;
use crate::evaluation::{Token, TokenView, token_views, opt_view, FormulaErrorCode, slice_string};
use crate::sheet_name::{trim, trim_chars};
use crate::text::{upper, upper_exec, chars_of, string_of};

verus! {

/// A binary operator of the grammar.
#[derive(Debug, Clone, Copy, PartialEq, Eq, Structural)]
pub enum BinOp {
    Add,
    Sub,
    Mul,
    Div,
    Eq,
    Ne,
    Gt,
    Lt,
    Ge,
    Le,
}

/// A parsed formula. A number keeps its literal text; `TRUE` and `FALSE`
/// are the numbers `1` and `0`.
#[derive(Debug, PartialEq)]
pub enum Expr {
    Number(String),
    Text(String),
    Reference(Reference),
    Range { start: Reference, end: Reference },
    Function { name: String, args: Vec<Expr> },
    Unary { operator: char, value: Box<Expr> },
    Binary { left: Box<Expr>, operator: BinOp, right: Box<Expr> },
}

/// A reference as its sheet name's characters, row and column.
pub type RefView = (Option<Seq<char>>, u32, u32);

/// An expression with its text as character sequences.
pub enum ExprView {
    Number(Seq<char>),
    Text(Seq<char>),
    Reference(RefView),
    Range(RefView, RefView),
    Function(Seq<char>, Seq<ExprView>),
    Unary(char, Box<ExprView>),
    Binary(Box<ExprView>, BinOp, Box<ExprView>),
}

pub open spec fn ref_view(r: Reference) -> RefView {
    (opt_view(r.sheet), r.row, r.column)
}

pub open spec fn expr_view(e: Expr) -> ExprView
    decreases e,
{
    match e {
        Expr::Number(t) => ExprView::Number(t@),
        Expr::Text(t) => ExprView::Text(t@),
        Expr::Reference(r) => ExprView::Reference(ref_view(r)),
        Expr::Range { start, end } => ExprView::Range(ref_view(start), ref_view(end)),
        Expr::Function { name, args } => ExprView::Function(name@, exprs_view(args@)),
        Expr::Unary { operator, value } => ExprView::Unary(operator, Box::new(expr_view(*value))),
        Expr::Binary { left, operator, right } => ExprView::Binary(
            Box::new(expr_view(*left)),
            operator,
            Box::new(expr_view(*right)),
        ),
    }
}

pub open spec fn exprs_view(s: Seq<Expr>) -> Seq<ExprView>
    decreases s,
{
    if s.len() == 0 {
        Seq::empty()
    } else {
        exprs_view(s.drop_last()).push(expr_view(s.last()))
    }
}

impl View for Expr {
    type V = ExprView;

    open spec fn view(&self) -> ExprView {
        expr_view(*self)
    }
}

/// What made a formula's text unparseable.
#[derive(Debug, Clone, PartialEq)]
pub enum SyntaxProblem {
    /// A token after a complete formula.
    Trailing(Token),
    MissingRightParen,
    /// A function argument followed by neither `,` nor `)`.
    MissingArgumentSeparator,
    UnknownIdentifier(String),
    Unexpected(Token),
    /// A range whose `:` is not followed by a reference.
    ExpectedReference(Token),
}

pub enum ProblemView {
    Trailing(TokenView),
    MissingRightParen,
    MissingArgumentSeparator,
    UnknownIdentifier(Seq<char>),
    Unexpected(TokenView),
    ExpectedReference(TokenView),
}

impl View for SyntaxProblem {
    type V = ProblemView;

    open spec fn view(&self) -> ProblemView {
        match self {
            SyntaxProblem::Trailing(t) => ProblemView::Trailing(t@),
            SyntaxProblem::MissingRightParen => ProblemView::MissingRightParen,
            SyntaxProblem::MissingArgumentSeparator => ProblemView::MissingArgumentSeparator,
            SyntaxProblem::UnknownIdentifier(t) => ProblemView::UnknownIdentifier(t@),
            SyntaxProblem::Unexpected(t) => ProblemView::Unexpected(t@),
            SyntaxProblem::ExpectedReference(t) => ProblemView::ExpectedReference(t@),
        }
    }
}

/// Why a formula cell could not be evaluated.
#[derive(Debug, Clone, PartialEq)]
pub enum FormulaCalculationError {
    EmptyFormula { cell: CellAddress },
    Syntax { cell: CellAddress, problem: SyntaxProblem },
    UnsupportedFunction { cell: CellAddress, function: String },
    UnsupportedRange { cell: CellAddress },
    UnsupportedExternalWorkbook { cell: CellAddress },
    UnknownSheet { cell: CellAddress, sheet: String },
    UnknownReference { cell: CellAddress, reference: CellAddress },
    Cycle { cells: Vec<CellAddress> },
    TypeMismatch { cell: CellAddress, operation: String },
    DivisionByZero { cell: CellAddress },
    NonFinite { cell: CellAddress },
    UnsupportedValue { cell: CellAddress },
}

/// How parsing fails.
pub enum ParseFailure {
    Syntax(ProblemView),
    UnsupportedRange,
    UnsupportedExternalWorkbook,
}

/// `err` reports `failure` for the formula of `cell`.
pub open spec fn reports(err: FormulaCalculationError, failure: ParseFailure, cell: CellAddress) -> bool {
    match failure {
        ParseFailure::Syntax(p) => err matches FormulaCalculationError::Syntax { cell: c, problem } && av(c)
            == av(cell) && problem@ == p,
        ParseFailure::UnsupportedRange => err matches FormulaCalculationError::UnsupportedRange { cell: c }
            && av(c) == av(cell),
        ParseFailure::UnsupportedExternalWorkbook => err matches FormulaCalculationError::UnsupportedExternalWorkbook {
            cell: c,
        } && av(c) == av(cell),
    }
}

/// The outcome of parsing from some position: the expression and the
/// position after it, or the failure.
pub type Parsed = Result<(ExprView, int), ParseFailure>;

/// The token at `i`; `End` past the last one.
pub open spec fn tok(t: Seq<TokenView>, i: int) -> TokenView {
    if 0 <= i < t.len() {
        t[i]
    } else {
        TokenView::End
    }
}

pub open spec fn comparison_op(k: TokenView) -> Option<BinOp> {
    match k {
        TokenView::Equal => Some(BinOp::Eq),
        TokenView::NotEqual => Some(BinOp::Ne),
        TokenView::Greater => Some(BinOp::Gt),
        TokenView::Less => Some(BinOp::Lt),
        TokenView::GreaterEqual => Some(BinOp::Ge),
        TokenView::LessEqual => Some(BinOp::Le),
        _ => None,
    }
}

pub open spec fn add_op(k: TokenView) -> Option<BinOp> {
    match k {
        TokenView::Plus => Some(BinOp::Add),
        TokenView::Minus => Some(BinOp::Sub),
        _ => None,
    }
}

pub open spec fn mul_op(k: TokenView) -> Option<BinOp> {
    match k {
        TokenView::Star => Some(BinOp::Mul),
        TokenView::Slash => Some(BinOp::Div),
        _ => None,
    }
}

pub open spec fn binary(l: ExprView, op: BinOp, r: ExprView) -> ExprView {
    ExprView::Binary(Box::new(l), op, Box::new(r))
}

/// The text of `TRUE` and `FALSE` as numbers.
pub const TRUE_NUMBER: &'static str = "1";

pub const FALSE_NUMBER: &'static str = "0";

pub open spec fn upper_text(s: Seq<char>) -> Seq<char> {
    s.map_values(|c: char| upper(c))
}

/// A comparison chain from `i`: sums joined by `=`, `!=`, `>`, `<`, `>=`,
/// `<=`.
pub open spec fn p_comparison(t: Seq<TokenView>, i: int) -> Parsed
    decreases t.len() - i, 6int,
{
    match p_expression(t, i) {
        Ok((e, j)) => if i <= j <= t.len() {
            p_comparison_rest(t, j, e)
        } else {
            Ok((e, j))
        },
        Err(f) => Err(f),
    }
}

/// The rest of a comparison chain at `j`, after `acc`.
pub open spec fn p_comparison_rest(t: Seq<TokenView>, j: int, acc: ExprView) -> Parsed
    decreases t.len() - j, 5int,
{
    if 0 <= j < t.len() && comparison_op(t[j]) is Some {
        match p_expression(t, j + 1) {
            Ok((r, k)) => if j < k <= t.len() {
                p_comparison_rest(t, k, binary(acc, comparison_op(t[j]).unwrap(), r))
            } else {
                Ok((binary(acc, comparison_op(t[j]).unwrap(), r), k))
            },
            Err(f) => Err(f),
        }
    } else {
        Ok((acc, j))
    }
}

/// A sum from `i`: products joined by `+` and `-`.
pub open spec fn p_expression(t: Seq<TokenView>, i: int) -> Parsed
    decreases t.len() - i, 4int,
{
    match p_term(t, i) {
        Ok((e, j)) => if i <= j <= t.len() {
            p_expr_rest(t, j, e)
        } else {
            Ok((e, j))
        },
        Err(f) => Err(f),
    }
}

pub open spec fn p_expr_rest(t: Seq<TokenView>, j: int, acc: ExprView) -> Parsed
    decreases t.len() - j, 3int,
{
    if 0 <= j < t.len() && add_op(t[j]) is Some {
        match p_term(t, j + 1) {
            Ok((r, k)) => if j < k <= t.len() {
                p_expr_rest(t, k, binary(acc, add_op(t[j]).unwrap(), r))
            } else {
                Ok((binary(acc, add_op(t[j]).unwrap(), r), k))
            },
            Err(f) => Err(f),
        }
    } else {
        Ok((acc, j))
    }
}

/// A product from `i`: factors joined by `*` and `/`.
pub open spec fn p_term(t: Seq<TokenView>, i: int) -> Parsed
    decreases t.len() - i, 2int,
{
    match p_factor(t, i) {
        Ok((e, j)) => if i <= j <= t.len() {
            p_term_rest(t, j, e)
        } else {
            Ok((e, j))
        },
        Err(f) => Err(f),
    }
}

pub open spec fn p_term_rest(t: Seq<TokenView>, j: int, acc: ExprView) -> Parsed
    decreases t.len() - j, 1int,
{
    if 0 <= j < t.len() && mul_op(t[j]) is Some {
        match p_factor(t, j + 1) {
            Ok((r, k)) => if j < k <= t.len() {
                p_term_rest(t, k, binary(acc, mul_op(t[j]).unwrap(), r))
            } else {
                Ok((binary(acc, mul_op(t[j]).unwrap(), r), k))
            },
            Err(f) => Err(f),
        }
    } else {
        Ok((acc, j))
    }
}

/// The reference that must stand at `i`, after a range's `:`.
pub open spec fn p_reference(t: Seq<TokenView>, i: int) -> Result<(RefView, int), ParseFailure> {
    match tok(t, i) {
        TokenView::Reference(s, r, c) => Ok(((s, r, c), i + 1)),
        k => Err(ParseFailure::Syntax(ProblemView::ExpectedReference(k))),
    }
}

/// One factor from `i`.
pub open spec fn p_factor(t: Seq<TokenView>, i: int) -> Parsed
    decreases t.len() - i, 0int,
{
    if !(0 <= i < t.len()) {
        Err(ParseFailure::Syntax(ProblemView::Unexpected(TokenView::End)))
    } else {
        match t[i] {
            TokenView::Plus => match p_factor(t, i + 1) {
                Ok((v, j)) => Ok((ExprView::Unary('+', Box::new(v)), j)),
                Err(f) => Err(f),
            },
            TokenView::Minus => match p_factor(t, i + 1) {
                Ok((v, j)) => Ok((ExprView::Unary('-', Box::new(v)), j)),
                Err(f) => Err(f),
            },
            TokenView::Number(x) => Ok((ExprView::Number(x), i + 1)),
            TokenView::Text(x) => Ok((ExprView::Text(x), i + 1)),
            TokenView::Reference(s, r, c) => if tok(t, i + 1) is Colon {
                match p_reference(t, i + 2) {
                    Ok((end, j)) => Ok((ExprView::Range((s, r, c), end), j)),
                    Err(f) => Err(f),
                }
            } else {
                Ok((ExprView::Reference((s, r, c)), i + 1))
            },
            TokenView::LeftParen => match p_comparison(t, i + 1) {
                Ok((e, j)) => if tok(t, j) is RightParen {
                    Ok((e, j + 1))
                } else {
                    Err(ParseFailure::Syntax(ProblemView::MissingRightParen))
                },
                Err(f) => Err(f),
            },
            TokenView::Identifier(name) => if tok(t, i + 1) is LeftParen {
                if tok(t, i + 2) is RightParen {
                    Ok((ExprView::Function(name, Seq::empty()), i + 3))
                } else {
                    p_args(t, i + 2, name, Seq::empty())
                }
            } else if upper_text(name) == "TRUE"@ {
                Ok((ExprView::Number(TRUE_NUMBER@), i + 1))
            } else if upper_text(name) == "FALSE"@ {
                Ok((ExprView::Number(FALSE_NUMBER@), i + 1))
            } else {
                Err(ParseFailure::Syntax(ProblemView::UnknownIdentifier(name)))
            },
            TokenView::ExternalWorkbook => Err(ParseFailure::UnsupportedExternalWorkbook),
            k => Err(ParseFailure::Syntax(ProblemView::Unexpected(k))),
        }
    }
}

/// The arguments of a call of `name` from `i`, after `acc`: comparisons
/// separated by `,` and closed by `)`.
pub open spec fn p_args(t: Seq<TokenView>, i: int, name: Seq<char>, acc: Seq<ExprView>) -> Parsed
    decreases t.len() - i, 7int,
{
    match p_comparison(t, i) {
        Ok((a, j)) => {
            let args = acc.push(a);
            match tok(t, j) {
                TokenView::Comma => if i <= j < t.len() {
                    p_args(t, j + 1, name, args)
                } else {
                    Ok((ExprView::Function(name, args), j + 1))
                },
                TokenView::RightParen => Ok((ExprView::Function(name, args), j + 1)),
                _ => Err(ParseFailure::Syntax(ProblemView::MissingArgumentSeparator)),
            }
        },
        Err(f) => Err(f),
    }
}

/// A whole formula from `i`: a comparison chain and nothing after it.
pub open spec fn p_formula(t: Seq<TokenView>, i: int) -> Result<ExprView, ParseFailure> {
    match p_comparison(t, i) {
        Ok((e, j)) => match tok(t, j) {
            TokenView::End => Ok(e),
            TokenView::Colon => Err(ParseFailure::UnsupportedRange),
            TokenView::ExternalWorkbook => Err(ParseFailure::UnsupportedExternalWorkbook),
            k => Err(ParseFailure::Syntax(ProblemView::Trailing(k))),
        },
        Err(f) => Err(f),
    }
}

/// A successful parse from `i` ends after `i` and within the `n` tokens.
pub open spec fn advances(r: Parsed, i: int, n: int) -> bool {
    match r {
        Ok((_, j)) => i < j <= n,
        Err(_) => true,
    }
}

/// A successful parse of a continuation from `j` ends at or after `j`.
pub open spec fn keeps(r: Parsed, j: int, n: int) -> bool {
    match r {
        Ok((_, k)) => j <= k <= n,
        Err(_) => true,
    }
}

proof fn lemma_comparison_pos(t: Seq<TokenView>, i: int)
    requires
        0 <= i <= t.len(),
    ensures
        advances(p_comparison(t, i), i, t.len() as int),
    decreases t.len() - i, 6int,
{
    lemma_expression_pos(t, i);
    if let Ok((e, j)) = p_expression(t, i) {
        lemma_comparison_rest_pos(t, j, e);
    }
}

proof fn lemma_comparison_rest_pos(t: Seq<TokenView>, j: int, acc: ExprView)
    requires
        0 <= j <= t.len(),
    ensures
        keeps(p_comparison_rest(t, j, acc), j, t.len() as int),
    decreases t.len() - j, 5int,
{
    if 0 <= j < t.len() && comparison_op(t[j]) is Some {
        lemma_expression_pos(t, j + 1);
        if let Ok((r, k)) = p_expression(t, j + 1) {
            lemma_comparison_rest_pos(t, k, binary(acc, comparison_op(t[j]).unwrap(), r));
        }
    }
}

proof fn lemma_expression_pos(t: Seq<TokenView>, i: int)
    requires
        0 <= i <= t.len(),
    ensures
        advances(p_expression(t, i), i, t.len() as int),
    decreases t.len() - i, 4int,
{
    lemma_term_pos(t, i);
    if let Ok((e, j)) = p_term(t, i) {
        lemma_expr_rest_pos(t, j, e);
    }
}

proof fn lemma_expr_rest_pos(t: Seq<TokenView>, j: int, acc: ExprView)
    requires
        0 <= j <= t.len(),
    ensures
        keeps(p_expr_rest(t, j, acc), j, t.len() as int),
    decreases t.len() - j, 3int,
{
    if 0 <= j < t.len() && add_op(t[j]) is Some {
        lemma_term_pos(t, j + 1);
        if let Ok((r, k)) = p_term(t, j + 1) {
            lemma_expr_rest_pos(t, k, binary(acc, add_op(t[j]).unwrap(), r));
        }
    }
}

proof fn lemma_term_pos(t: Seq<TokenView>, i: int)
    requires
        0 <= i <= t.len(),
    ensures
        advances(p_term(t, i), i, t.len() as int),
    decreases t.len() - i, 2int,
{
    lemma_factor_pos(t, i);
    if let Ok((e, j)) = p_factor(t, i) {
        lemma_term_rest_pos(t, j, e);
    }
}

proof fn lemma_term_rest_pos(t: Seq<TokenView>, j: int, acc: ExprView)
    requires
        0 <= j <= t.len(),
    ensures
        keeps(p_term_rest(t, j, acc), j, t.len() as int),
    decreases t.len() - j, 1int,
{
    if 0 <= j < t.len() && mul_op(t[j]) is Some {
        lemma_factor_pos(t, j + 1);
        if let Ok((r, k)) = p_factor(t, j + 1) {
            lemma_term_rest_pos(t, k, binary(acc, mul_op(t[j]).unwrap(), r));
        }
    }
}

proof fn lemma_factor_pos(t: Seq<TokenView>, i: int)
    requires
        0 <= i <= t.len(),
    ensures
        advances(p_factor(t, i), i, t.len() as int),
    decreases t.len() - i, 0int,
{
    if 0 <= i < t.len() {
        match t[i] {
            TokenView::Plus => lemma_factor_pos(t, i + 1),
            TokenView::Minus => lemma_factor_pos(t, i + 1),
            TokenView::LeftParen => lemma_comparison_pos(t, i + 1),
            TokenView::Identifier(name) => {
                if tok(t, i + 1) is LeftParen && !(tok(t, i + 2) is RightParen) {
                    lemma_args_pos(t, i + 2, name, Seq::empty());
                }
            },
            _ => {},
        }
    }
}

proof fn lemma_args_pos(t: Seq<TokenView>, i: int, name: Seq<char>, acc: Seq<ExprView>)
    requires
        0 <= i <= t.len(),
    ensures
        advances(p_args(t, i, name, acc), i, t.len() as int),
    decreases t.len() - i, 7int,
{
    lemma_comparison_pos(t, i);
    if let Ok((a, j)) = p_comparison(t, i) {
        if tok(t, j) is Comma {
            lemma_args_pos(t, j + 1, name, acc.push(a));
        }
    }
}

/// `res` is the executable form of the parse outcome `r` for the formula
/// of `cell`.
pub open spec fn answers(res: Result<(Expr, usize), FormulaCalculationError>, r: Parsed, cell: CellAddress) -> bool {
    match r {
        Ok((v, j)) => res matches Ok((e, k)) && e@ == v && k == j,
        Err(f) => res matches Err(err) && reports(err, f, cell),
    }
}

proof fn lemma_exprs_view_push(s: Seq<Expr>, e: Expr)
    ensures
        exprs_view(s.push(e)) == exprs_view(s).push(e@),
{
    assert(s.push(e).drop_last() =~= s);
}

/// A copy of the reference.
pub fn copy_reference(r: &Reference) -> (res: Reference)
    ensures
        ref_view(res) == ref_view(*r),
{
    let sheet = match &r.sheet {
        Some(name) => Some(name.clone()),
        None => None,
    };
    Reference { sheet, row: r.row, column: r.column }
}

/// A copy of the token.
pub fn copy_token(t: &Token) -> (res: Token)
    ensures
        res@ == t@,
{
    match t {
        Token::Number(x) => Token::Number(x.clone()),
        Token::Text(x) => Token::Text(x.clone()),
        Token::Reference(r) => {
            let c = copy_reference(r);
            Token::Reference(c)
        },
        Token::Identifier(x) => Token::Identifier(x.clone()),
        Token::Plus => Token::Plus,
        Token::Minus => Token::Minus,
        Token::Star => Token::Star,
        Token::Slash => Token::Slash,
        Token::LeftParen => Token::LeftParen,
        Token::RightParen => Token::RightParen,
        Token::Comma => Token::Comma,
        Token::Colon => Token::Colon,
        Token::Equal => Token::Equal,
        Token::NotEqual => Token::NotEqual,
        Token::Greater => Token::Greater,
        Token::Less => Token::Less,
        Token::GreaterEqual => Token::GreaterEqual,
        Token::LessEqual => Token::LessEqual,
        Token::ExternalWorkbook => Token::ExternalWorkbook,
        Token::End => Token::End,
    }
}

/// The syntax error `problem` in the formula of `cell`.
fn syntax(cell: &CellAddress, problem: SyntaxProblem) -> (res: FormulaCalculationError)
    ensures
        reports(res, ParseFailure::Syntax(problem@), *cell),
{
    FormulaCalculationError::Syntax { cell: copy_addr(cell), problem }
}

/// Whether `name` in ASCII upper case is `word`.
fn upper_equals(name: &String, word: &str) -> (res: bool)
    ensures
        res == (upper_text(name@) == word@),
{
    let a = chars_of(name.as_str());
    let b = chars_of(word);
    if a.len() != b.len() {
        proof {
            assert(upper_text(a@).len() == a@.len());
        }
        return false;
    }
    let mut i: usize = 0;
    while i < a.len()
        invariant
            a@ == name@,
            b@ == word@,
            a@.len() == b@.len(),
            i <= a@.len(),
            forall|k: int| 0 <= k < i ==> upper(#[trigger] a@[k]) == b@[k],
        decreases a@.len() - i,
    {
        if upper_exec(a[i]) != b[i] {
            proof {
                assert(upper_text(a@)[i as int] != b@[i as int]);
            }
            return false;
        }
        i += 1;
    }
    proof {
        assert(upper_text(a@) =~= b@);
    }
    true
}

/// A formula's tokens and the position parsing starts at.
pub struct Parser {
    tokens: Vec<Token>,
    position: usize,
}

impl Parser {
    /// The tokens being parsed.
    pub closed spec fn tokens_view(&self) -> Seq<TokenView> {
        token_views(self.tokens@)
    }

    /// Where parsing starts.
    pub closed spec fn start(&self) -> nat {
        self.position as nat
    }

    /// A parser over `tokens`, from the first.
    pub fn new(tokens: Vec<Token>) -> (res: Self)
        ensures
            res.tokens_view() == token_views(tokens@),
            res.start() == 0,
    {
        Parser { tokens, position: 0 }
    }

    /// The whole formula: a comparison chain and then the end of the
    /// tokens. A `:` or `[` after it is an unsupported range or external
    /// workbook; any other token is a syntax error.
    pub fn parse(self, cell: &CellAddress) -> (res: Result<Expr, FormulaCalculationError>)
        requires
            self.start() <= self.tokens_view().len(),
        ensures
            match p_formula(self.tokens_view(), self.start() as int) {
                Ok(v) => res matches Ok(e) && e@ == v,
                Err(f) => res matches Err(err) && reports(err, f, *cell),
            },
    {
        let (expression, pos) = match self.parse_comparison(self.position, cell) {
            Ok(p) => p,
            Err(e) => return Err(e),
        };
        proof {
            lemma_comparison_pos(self.tokens_view(), self.position as int);
        }
        match self.peek(pos) {
            Token::End => Ok(expression),
            Token::Colon => Err(FormulaCalculationError::UnsupportedRange { cell: copy_addr(cell) }),
            Token::ExternalWorkbook => Err(FormulaCalculationError::UnsupportedExternalWorkbook { cell: copy_addr(cell) }),
            token => Err(syntax(cell, SyntaxProblem::Trailing(token))),
        }
    }

    proof fn lemma_bounded(&self)
        ensures
            self.tokens_view().len() == self.tokens.len(),
            self.tokens.len() <= usize::MAX,
    {
    }

    /// The token at `at`; `End` past the last one.
    fn peek(&self, at: usize) -> (res: Token)
        ensures
            res@ == tok(self.tokens_view(), at as int),
    {
        if at < self.tokens.len() {
            copy_token(&self.tokens[at])
        } else {
            Token::End
        }
    }

    fn comparison_at(&self, at: usize) -> (res: Option<BinOp>)
        ensures
            res == (if at < self.tokens_view().len() { comparison_op(self.tokens_view()[at as int]) } else { None }),
    {
        if at >= self.tokens.len() {
            return None;
        }
        match &self.tokens[at] {
            Token::Equal => Some(BinOp::Eq),
            Token::NotEqual => Some(BinOp::Ne),
            Token::Greater => Some(BinOp::Gt),
            Token::Less => Some(BinOp::Lt),
            Token::GreaterEqual => Some(BinOp::Ge),
            Token::LessEqual => Some(BinOp::Le),
            _ => None,
        }
    }

    fn additive_at(&self, at: usize) -> (res: Option<BinOp>)
        ensures
            res == (if at < self.tokens_view().len() { add_op(self.tokens_view()[at as int]) } else { None }),
    {
        if at >= self.tokens.len() {
            return None;
        }
        match &self.tokens[at] {
            Token::Plus => Some(BinOp::Add),
            Token::Minus => Some(BinOp::Sub),
            _ => None,
        }
    }

    fn multiplicative_at(&self, at: usize) -> (res: Option<BinOp>)
        ensures
            res == (if at < self.tokens_view().len() { mul_op(self.tokens_view()[at as int]) } else { None }),
    {
        if at >= self.tokens.len() {
            return None;
        }
        match &self.tokens[at] {
            Token::Star => Some(BinOp::Mul),
            Token::Slash => Some(BinOp::Div),
            _ => None,
        }
    }
}

impl Parser {
    /// A comparison chain from `at`.
    fn parse_comparison(&self, at: usize, cell: &CellAddress) -> (res: Result<(Expr, usize), FormulaCalculationError>)
        requires
            at <= self.tokens_view().len(),
        ensures
            answers(res, p_comparison(self.tokens_view(), at as int), *cell),
        decreases self.tokens_view().len() - at, 6int,
    {
        let ghost t = self.tokens_view();
        proof {
            self.lemma_bounded();
        }
        let ghost target = p_comparison(t, at as int);
        let (mut expression, mut pos) = match self.parse_expression(at, cell) {
            Ok(p) => p,
            Err(e) => return Err(e),
        };
        proof {
            lemma_expression_pos(t, at as int);
        }
        let mut op = self.comparison_at(pos);
        while op.is_some()
            invariant
                t == self.tokens_view(),
                t.len() <= usize::MAX,
                target == p_comparison(t, at as int),
                at <= pos <= t.len(),
                op == (if pos < t.len() { comparison_op(t[pos as int]) } else { None }),
                p_comparison_rest(t, pos as int, expression@) == target,
            decreases t.len() - pos,
        {
            let operator = op.unwrap();
            let (right, k) = match self.parse_expression(pos + 1, cell) {
                Ok(p) => p,
                Err(e) => return Err(e),
            };
            proof {
                lemma_expression_pos(t, pos + 1);
            }
            expression = Expr::Binary { left: Box::new(expression), operator, right: Box::new(right) };
            pos = k;
            op = self.comparison_at(pos);
        }
        Ok((expression, pos))
    }

    /// A sum from `at`.
    fn parse_expression(&self, at: usize, cell: &CellAddress) -> (res: Result<(Expr, usize), FormulaCalculationError>)
        requires
            at <= self.tokens_view().len(),
        ensures
            answers(res, p_expression(self.tokens_view(), at as int), *cell),
        decreases self.tokens_view().len() - at, 4int,
    {
        let ghost t = self.tokens_view();
        proof {
            self.lemma_bounded();
        }
        let ghost target = p_expression(t, at as int);
        let (mut expression, mut pos) = match self.parse_term(at, cell) {
            Ok(p) => p,
            Err(e) => return Err(e),
        };
        proof {
            lemma_term_pos(t, at as int);
        }
        let mut op = self.additive_at(pos);
        while op.is_some()
            invariant
                t == self.tokens_view(),
                t.len() <= usize::MAX,
                target == p_expression(t, at as int),
                at <= pos <= t.len(),
                op == (if pos < t.len() { add_op(t[pos as int]) } else { None }),
                p_expr_rest(t, pos as int, expression@) == target,
            decreases t.len() - pos,
        {
            let operator = op.unwrap();
            let (right, k) = match self.parse_term(pos + 1, cell) {
                Ok(p) => p,
                Err(e) => return Err(e),
            };
            proof {
                lemma_term_pos(t, pos + 1);
            }
            expression = Expr::Binary { left: Box::new(expression), operator, right: Box::new(right) };
            pos = k;
            op = self.additive_at(pos);
        }
        Ok((expression, pos))
    }

    /// A product from `at`.
    fn parse_term(&self, at: usize, cell: &CellAddress) -> (res: Result<(Expr, usize), FormulaCalculationError>)
        requires
            at <= self.tokens_view().len(),
        ensures
            answers(res, p_term(self.tokens_view(), at as int), *cell),
        decreases self.tokens_view().len() - at, 2int,
    {
        let ghost t = self.tokens_view();
        proof {
            self.lemma_bounded();
        }
        let ghost target = p_term(t, at as int);
        let (mut expression, mut pos) = match self.parse_factor(at, cell) {
            Ok(p) => p,
            Err(e) => return Err(e),
        };
        proof {
            lemma_factor_pos(t, at as int);
        }
        let mut op = self.multiplicative_at(pos);
        while op.is_some()
            invariant
                t == self.tokens_view(),
                t.len() <= usize::MAX,
                target == p_term(t, at as int),
                at <= pos <= t.len(),
                op == (if pos < t.len() { mul_op(t[pos as int]) } else { None }),
                p_term_rest(t, pos as int, expression@) == target,
            decreases t.len() - pos,
        {
            let operator = op.unwrap();
            let (right, k) = match self.parse_factor(pos + 1, cell) {
                Ok(p) => p,
                Err(e) => return Err(e),
            };
            proof {
                lemma_factor_pos(t, pos + 1);
            }
            expression = Expr::Binary { left: Box::new(expression), operator, right: Box::new(right) };
            pos = k;
            op = self.multiplicative_at(pos);
        }
        Ok((expression, pos))
    }

    /// The reference after a range's `:`, at `at`.
    fn parse_reference(&self, at: usize, cell: &CellAddress) -> (res: Result<(Reference, usize), FormulaCalculationError>)
        requires
            at <= self.tokens_view().len(),
        ensures
            match p_reference(self.tokens_view(), at as int) {
                Ok((v, j)) => res matches Ok((r, k)) && ref_view(r) == v && k == j,
                Err(f) => res matches Err(err) && reports(err, f, *cell),
            },
    {
        proof {
            self.lemma_bounded();
        }
        match self.peek(at) {
            Token::Reference(reference) => Ok((reference, at + 1)),
            token => Err(syntax(cell, SyntaxProblem::ExpectedReference(token))),
        }
    }
}

impl Parser {
    /// One factor from `at`.
    fn parse_factor(&self, at: usize, cell: &CellAddress) -> (res: Result<(Expr, usize), FormulaCalculationError>)
        requires
            at <= self.tokens_view().len(),
        ensures
            answers(res, p_factor(self.tokens_view(), at as int), *cell),
        decreases self.tokens_view().len() - at, 0int,
    {
        let ghost t = self.tokens_view();
        proof {
            self.lemma_bounded();
        }
        if at >= self.tokens.len() {
            return Err(syntax(cell, SyntaxProblem::Unexpected(Token::End)));
        }
        proof {
            assert(t[at as int] == self.tokens@[at as int]@);
        }
        match &self.tokens[at] {
            Token::Plus => match self.parse_factor(at + 1, cell) {
                Ok((v, j)) => Ok((Expr::Unary { operator: '+', value: Box::new(v) }, j)),
                Err(e) => Err(e),
            },
            Token::Minus => match self.parse_factor(at + 1, cell) {
                Ok((v, j)) => Ok((Expr::Unary { operator: '-', value: Box::new(v) }, j)),
                Err(e) => Err(e),
            },
            Token::Number(x) => Ok((Expr::Number(x.clone()), at + 1)),
            Token::Text(x) => Ok((Expr::Text(x.clone()), at + 1)),
            Token::Reference(r) => {
                let start = copy_reference(r);
                match self.peek(at + 1) {
                    Token::Colon => match self.parse_reference(at + 2, cell) {
                        Ok((end, j)) => Ok((Expr::Range { start, end }, j)),
                        Err(e) => Err(e),
                    },
                    _ => Ok((Expr::Reference(start), at + 1)),
                }
            },
            Token::LeftParen => match self.parse_comparison(at + 1, cell) {
                Ok((e, j)) => {
                    proof {
                        lemma_comparison_pos(t, at + 1);
                    }
                    match self.peek(j) {
                        Token::RightParen => Ok((e, j + 1)),
                        _ => Err(syntax(cell, SyntaxProblem::MissingRightParen)),
                    }
                },
                Err(e) => Err(e),
            },
            Token::Identifier(name) => {
                match self.peek(at + 1) {
                    Token::LeftParen => match self.peek(at + 2) {
                        Token::RightParen => {
                            let args: Vec<Expr> = Vec::new();
                            proof {
                                assert(exprs_view(args@) =~= Seq::<ExprView>::empty());
                            }
                            Ok((Expr::Function { name: name.clone(), args }, at + 3))
                        },
                        _ => self.parse_args(at + 2, name, cell),
                    },
                    _ => {
                        if upper_equals(name, "TRUE") {
                            Ok((Expr::Number(String::from_str(TRUE_NUMBER)), at + 1))
                        } else if upper_equals(name, "FALSE") {
                            Ok((Expr::Number(String::from_str(FALSE_NUMBER)), at + 1))
                        } else {
                            Err(syntax(cell, SyntaxProblem::UnknownIdentifier(name.clone())))
                        }
                    },
                }
            },
            Token::ExternalWorkbook => Err(FormulaCalculationError::UnsupportedExternalWorkbook { cell: copy_addr(cell) }),
            other => Err(syntax(cell, SyntaxProblem::Unexpected(copy_token(other)))),
        }
    }

    /// The arguments of a call of `name` from `at`, through the closing `)`.
    fn parse_args(&self, at: usize, name: &String, cell: &CellAddress) -> (res: Result<(Expr, usize), FormulaCalculationError>)
        requires
            at <= self.tokens_view().len(),
        ensures
            answers(res, p_args(self.tokens_view(), at as int, name@, Seq::empty()), *cell),
        decreases self.tokens_view().len() - at, 7int,
    {
        let ghost t = self.tokens_view();
        proof {
            self.lemma_bounded();
        }
        let ghost target = p_args(t, at as int, name@, Seq::empty());
        let mut args: Vec<Expr> = Vec::new();
        let mut pos = at;
        proof {
            assert(exprs_view(args@) =~= Seq::<ExprView>::empty());
        }
        loop
            invariant
                t == self.tokens_view(),
                t.len() <= usize::MAX,
                target == p_args(t, at as int, name@, Seq::empty()),
                at <= pos <= t.len(),
                p_args(t, pos as int, name@, exprs_view(args@)) == target,
            decreases t.len() - pos,
        {
            let (argument, j) = match self.parse_comparison(pos, cell) {
                Ok(p) => p,
                Err(e) => return Err(e),
            };
            proof {
                lemma_comparison_pos(t, pos as int);
                lemma_exprs_view_push(args@, argument);
            }
            args.push(argument);
            match self.peek(j) {
                Token::Comma => {
                    pos = j + 1;
                },
                Token::RightParen => {
                    return Ok((Expr::Function { name: name.clone(), args }, j + 1));
                },
                _ => {
                    return Err(syntax(cell, SyntaxProblem::MissingArgumentSeparator));
                },
            }
        }
    }
}

/// The text a formula's parser reads: the formula trimmed, without one
/// leading `=`.
pub open spec fn spec_formula_source(s: Seq<char>) -> Seq<char> {
    let t = trim(s);
    if t.len() > 0 && t[0] == '=' {
        t.drop_first()
    } else {
        t
    }
}

/// The text a formula's parser reads: the formula trimmed, without one
/// leading `=`.
pub fn formula_source(formula: &str) -> (res: String)
    ensures
        res@ == spec_formula_source(formula@),
{
    let t = trim_chars(&chars_of(formula));
    if t.len() > 0 && t[0] == '=' {
        proof {
            assert(t@.subrange(1, t@.len() as int) =~= t@.drop_first());
        }
        slice_string(&t, 1, t.len())
    } else {
        string_of(&t)
    }
}

/// The code a cell whose evaluation failed with `error` shows.
pub open spec fn spec_error_code(error: FormulaCalculationError) -> FormulaErrorCode {
    match error {
        FormulaCalculationError::Cycle { .. } => FormulaErrorCode::Cycle,
        FormulaCalculationError::UnknownReference { .. } => FormulaErrorCode::UnknownReference,
        FormulaCalculationError::UnknownSheet { .. } => FormulaErrorCode::UnknownSheet,
        FormulaCalculationError::Syntax { .. } => FormulaErrorCode::Syntax,
        FormulaCalculationError::UnsupportedFunction { .. } => FormulaErrorCode::UnsupportedFunction,
        FormulaCalculationError::UnsupportedRange { .. } => FormulaErrorCode::UnsupportedRange,
        FormulaCalculationError::UnsupportedExternalWorkbook { .. } => FormulaErrorCode::UnsupportedExternalWorkbook,
        FormulaCalculationError::TypeMismatch { .. } => FormulaErrorCode::TypeMismatch,
        FormulaCalculationError::DivisionByZero { .. } => FormulaErrorCode::DivisionByZero,
        FormulaCalculationError::NonFinite { .. } => FormulaErrorCode::NonFinite,
        FormulaCalculationError::UnsupportedValue { .. } => FormulaErrorCode::UnsupportedValue,
        FormulaCalculationError::EmptyFormula { .. } => FormulaErrorCode::EmptyFormula,
    }
}

/// The code a cell whose evaluation failed with `error` shows.
pub fn error_code(error: &FormulaCalculationError) -> (res: FormulaErrorCode)
    ensures
        res == spec_error_code(*error),
{
    match error {
        FormulaCalculationError::Cycle { .. } => FormulaErrorCode::Cycle,
        FormulaCalculationError::UnknownReference { .. } => FormulaErrorCode::UnknownReference,
        FormulaCalculationError::UnknownSheet { .. } => FormulaErrorCode::UnknownSheet,
        FormulaCalculationError::Syntax { .. } => FormulaErrorCode::Syntax,
        FormulaCalculationError::UnsupportedFunction { .. } => FormulaErrorCode::UnsupportedFunction,
        FormulaCalculationError::UnsupportedRange { .. } => FormulaErrorCode::UnsupportedRange,
        FormulaCalculationError::UnsupportedExternalWorkbook { .. } => FormulaErrorCode::UnsupportedExternalWorkbook,
        FormulaCalculationError::TypeMismatch { .. } => FormulaErrorCode::TypeMismatch,
        FormulaCalculationError::DivisionByZero { .. } => FormulaErrorCode::DivisionByZero,
        FormulaCalculationError::NonFinite { .. } => FormulaErrorCode::NonFinite,
        FormulaCalculationError::UnsupportedValue { .. } => FormulaErrorCode::UnsupportedValue,
        FormulaCalculationError::EmptyFormula { .. } => FormulaErrorCode::EmptyFormula,
    }
}

} // verus!
