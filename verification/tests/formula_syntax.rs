use oo_spreadsheet::a1::Reference;
use oo_spreadsheet::address::CellAddress;
use oo_spreadsheet::evaluation::{invalid_number, FormulaErrorCode, Lexer, Token};
use oo_spreadsheet::parser::{
    error_code, formula_source, BinOp, Expr, FormulaCalculationError, Parser, SyntaxProblem,
};

fn tokens(text: &str) -> Vec<Token> {
    Lexer::new(text).tokenize()
}

fn local(row: u32, column: u32) -> Reference {
    Reference { sheet: None, row, column }
}

fn here() -> CellAddress {
    CellAddress { sheet_id: "s1".into(), row: 0, column: 0 }
}

fn parse(formula: &str) -> Result<Expr, FormulaCalculationError> {
    let source = formula_source(formula);
    Parser::new(tokens(source.as_str())).parse(&here())
}

fn number(text: &str) -> Expr {
    Expr::Number(text.into())
}

fn reference(row: u32, column: u32) -> Expr {
    Expr::Reference(local(row, column))
}

fn binary(left: Expr, operator: BinOp, right: Expr) -> Expr {
    Expr::Binary { left: Box::new(left), operator, right: Box::new(right) }
}

fn syntax_problem(formula: &str) -> SyntaxProblem {
    match parse(formula) {
        Err(FormulaCalculationError::Syntax { cell, problem }) => {
            assert_eq!(cell, here());
            problem
        }
        other => panic!("expected a syntax error, got {other:?}"),
    }
}

#[test]
fn lexer_reads_calls_ranges_and_quoted_sheet_references() {
    assert_eq!(
        tokens("SUM(A1:B2, 3) >= 'My ''Q'' Sheet'!$C$4"),
        vec![
            Token::Identifier("SUM".into()),
            Token::LeftParen,
            Token::Reference(local(0, 0)),
            Token::Colon,
            Token::Reference(local(1, 1)),
            Token::Comma,
            Token::Number("3".into()),
            Token::RightParen,
            Token::GreaterEqual,
            Token::Reference(Reference { sheet: Some("My 'Q' Sheet".into()), row: 3, column: 2 }),
            Token::End,
        ]
    );
}

#[test]
fn lexer_reads_operators_text_and_sheet_words() {
    assert_eq!(
        tokens("\"a\"\"b\" != Data!b7 <> [ ;"),
        vec![
            Token::Text("a\"b".into()),
            Token::NotEqual,
            Token::Reference(Reference { sheet: Some("Data".into()), row: 6, column: 1 }),
            Token::Less,
            Token::Greater,
            Token::ExternalWorkbook,
            Token::Identifier(";".into()),
            Token::End,
        ]
    );
}

#[test]
fn lexer_names_malformed_pieces() {
    assert_eq!(
        tokens("\"abc"),
        vec![Token::Identifier("unterminated string".into()), Token::End]
    );
    assert_eq!(
        tokens("'abc' x"),
        vec![
            Token::Identifier("未闭合的工作表引用".into()),
            Token::Identifier("x".into()),
            Token::End
        ]
    );
    assert_eq!(
        tokens("S!ABCDE1"),
        vec![Token::Identifier("无效单元格引用".into()), Token::End]
    );
    assert_eq!(
        tokens("ABCDE1 A0 true"),
        vec![
            Token::Identifier("ABCDE1".into()),
            Token::Identifier("A0".into()),
            Token::Identifier("true".into()),
            Token::End
        ]
    );
}

#[test]
fn number_literals_take_signs_and_exponents_into_their_text() {
    assert_eq!(
        tokens("1e+5.2 .5 1-2"),
        vec![
            Token::Number("1e+5.2".into()),
            Token::Number(".5".into()),
            Token::Number("1-2".into()),
            Token::End
        ]
    );
    assert_eq!(
        invalid_number(&"1e400".to_string()),
        Token::Identifier("无效数字 1e400".into())
    );
}

#[test]
fn formula_source_trims_and_drops_one_equals_sign() {
    assert_eq!(formula_source("  =A1 \n"), "A1");
    assert_eq!(formula_source("==A1"), "=A1");
    assert_eq!(formula_source(" A1"), "A1");
}

#[test]
fn products_bind_tighter_than_sums_and_chains_associate_left() {
    assert_eq!(
        parse("=A1+2*B1"),
        Ok(binary(reference(0, 0), BinOp::Add, binary(number("2"), BinOp::Mul, reference(0, 1))))
    );
    assert_eq!(
        parse("=A1-B1-C1"),
        Ok(binary(
            binary(reference(0, 0), BinOp::Sub, reference(0, 1)),
            BinOp::Sub,
            reference(0, 2)
        ))
    );
    assert_eq!(
        parse("=(A1+B1)*2 >= A2"),
        Ok(binary(
            binary(binary(reference(0, 0), BinOp::Add, reference(0, 1)), BinOp::Mul, number("2")),
            BinOp::Ge,
            reference(1, 0)
        ))
    );
}

#[test]
fn factors_cover_signs_ranges_calls_and_booleans() {
    assert_eq!(
        parse("=-+A1"),
        Ok(Expr::Unary {
            operator: '-',
            value: Box::new(Expr::Unary { operator: '+', value: Box::new(reference(0, 0)) })
        })
    );
    assert_eq!(
        parse("=SUM(A1:B2, \"x\", TRUE)"),
        Ok(Expr::Function {
            name: "SUM".into(),
            args: vec![
                Expr::Range { start: local(0, 0), end: local(1, 1) },
                Expr::Text("x".into()),
                number("1"),
            ]
        })
    );
    assert_eq!(parse("=TODAY()"), Ok(Expr::Function { name: "TODAY".into(), args: vec![] }));
    assert_eq!(parse("=false"), Ok(number("0")));
}

#[test]
fn syntax_errors_name_what_went_wrong() {
    assert_eq!(syntax_problem("=(A1"), SyntaxProblem::MissingRightParen);
    assert_eq!(syntax_problem("=SUM(A1 B1)"), SyntaxProblem::MissingArgumentSeparator);
    assert_eq!(syntax_problem("=FOO"), SyntaxProblem::UnknownIdentifier("FOO".into()));
    assert_eq!(syntax_problem("=)"), SyntaxProblem::Unexpected(Token::RightParen));
    assert_eq!(syntax_problem("="), SyntaxProblem::Unexpected(Token::End));
    assert_eq!(
        syntax_problem("=A1 B1"),
        SyntaxProblem::Trailing(Token::Reference(local(0, 1)))
    );
    assert_eq!(syntax_problem("=A1:"), SyntaxProblem::ExpectedReference(Token::End));
}

#[test]
fn ranges_and_external_workbooks_outside_a_factor_are_unsupported() {
    assert_eq!(
        parse("=A1:B1:C1"),
        Err(FormulaCalculationError::UnsupportedRange { cell: here() })
    );
    assert_eq!(
        parse("=[Book]A1"),
        Err(FormulaCalculationError::UnsupportedExternalWorkbook { cell: here() })
    );
    assert_eq!(
        parse("=A1["),
        Err(FormulaCalculationError::UnsupportedExternalWorkbook { cell: here() })
    );
}

#[test]
fn error_codes_follow_the_error_kind() {
    let cell = here();
    assert_eq!(
        error_code(&FormulaCalculationError::Cycle { cells: vec![cell.clone()] }),
        FormulaErrorCode::Cycle
    );
    assert_eq!(
        error_code(&FormulaCalculationError::Syntax {
            cell: cell.clone(),
            problem: SyntaxProblem::MissingRightParen
        }),
        FormulaErrorCode::Syntax
    );
    assert_eq!(
        error_code(&FormulaCalculationError::DivisionByZero { cell }),
        FormulaErrorCode::DivisionByZero
    );
}
