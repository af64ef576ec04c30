use rlox::environment::Environment;
use rlox::expr::{BinaryExpr, Expr, GroupingExpr, LiteralExpr, UnaryExpr};
use rlox::interpreter::{Interpreter, LoxError, RuntimeError};
use rlox::number::ArithOp;
use rlox::parser::{ParseError, Parser};
use rlox::scanner::Scanner;
use rlox::token::{Literal, Token, TokenType};

fn arith(op: ArithOp, a: u64, b: u64) -> u64 {
    let x = f64::from_bits(a);
    let y = f64::from_bits(b);
    let r = match op {
        ArithOp::Add => x + y,
        ArithOp::Sub => x - y,
        ArithOp::Mul => x * y,
        ArithOp::Div => x / y,
    };
    r.to_bits()
}

fn parse_number(text: String) -> Option<u64> {
    text.parse::<f64>().ok().map(|f| f.to_bits())
}

fn show(n: u64) -> String {
    format!("{}", f64::from_bits(n))
}

fn num(f: f64) -> Literal {
    Literal::Number(f.to_bits())
}

struct Outcome {
    stdout: String,
    result: Result<(), LoxError>,
    notes: Vec<ParseError>,
}

fn run_on(interpreter: &mut Interpreter, source: &str) -> Outcome {
    let mut out = Vec::new();
    let mut notes = Vec::new();
    let result = interpreter.run(source, &parse_number, &arith, &mut out, &mut notes);
    let mut stdout = String::new();
    for v in &out {
        stdout.push_str(&v.display_with(&show));
        stdout.push('\n');
    }
    Outcome { stdout, result, notes }
}

fn run(source: &str) -> Outcome {
    let mut interpreter = Interpreter::new();
    run_on(&mut interpreter, source)
}

fn error_text(o: &Outcome) -> String {
    match &o.result {
        Ok(()) => panic!("expected an error"),
        Err(e) => e.message(),
    }
}

fn scan(source: &str) -> Vec<Token> {
    let mut scanner = Scanner::new(source);
    match scanner.scan_tokens(&parse_number) {
        Ok(t) => t,
        Err(e) => panic!("scan failed: {}", e.message()),
    }
}

fn tok(typ: TokenType, lexeme: &str) -> Token {
    Token::new(typ, lexeme.to_string(), None, 1)
}

#[test]
fn test_printer() {
    let exp = Expr::Binary(BinaryExpr {
        left: Box::new(Expr::Unary(UnaryExpr {
            operator: tok(TokenType::Minus, "-"),
            right: Box::new(Expr::Literal(LiteralExpr { value: num(123.0) })),
        })),
        operator: tok(TokenType::Star, "*"),
        right: Box::new(Expr::Grouping(GroupingExpr {
            expression: Box::new(Expr::Literal(LiteralExpr { value: num(45.67) })),
        })),
    });
    assert_eq!("(* (- 123) (group 45.67))", exp.to_prefix(&show));
}

#[test]
fn print_sum() {
    let o = run("print 1 + 2;");
    assert!(o.result.is_ok());
    assert_eq!(o.stdout, "3\n");
}

#[test]
fn print_concatenation() {
    let o = run("print \"foo\" + \"bar\";");
    assert!(o.result.is_ok());
    assert_eq!(o.stdout, "foobar\n");
}

#[test]
fn chained_assignment() {
    let o = run("var a = 1; var b = 2; print a + b; a = b = 5; print a;");
    assert!(o.result.is_ok());
    assert_eq!(o.stdout, "3\n5\n");
}

#[test]
fn block_shadowing() {
    let o = run("var x = 1; { var x = 2; print x; } print x;");
    assert!(o.result.is_ok());
    assert_eq!(o.stdout, "2\n1\n");
}

#[test]
fn divide_by_zero() {
    let o = run("print 1/0;");
    assert_eq!(o.stdout, "");
    assert!(matches!(o.result, Err(LoxError::Runtime(_))));
    assert!(error_text(&o).contains("Cannot divide by zero."));
    assert_eq!(error_text(&o), "Slash /: Cannot divide by zero.");
}

#[test]
fn undefined_variable() {
    let o = run("print y;");
    assert_eq!(o.stdout, "");
    assert!(error_text(&o).contains("Undefined variable 'y'."));
}

#[test]
fn runtime_error_stops_later_statements() {
    let o = run("print 1; print -\"a\"; print 2;");
    assert_eq!(o.stdout, "1\n");
    assert_eq!(error_text(&o), "Minus -: Invalid operand for unary minus");
}

#[test]
fn operand_errors() {
    assert_eq!(error_text(&run("print 1 - \"a\";")), "Minus -: Operands must be numbers.");
    assert_eq!(error_text(&run("print true < 1;")), "Less <: Operands must be numbers.");
    assert_eq!(
        error_text(&run("print 1 + \"a\";")),
        "Plus +: Operands must be two numbers or two strings."
    );
}

#[test]
fn double_negation_is_truthiness() {
    let o = run("print !!nil; print !!false; print !!true; print !!0; print !!\"\"; print !!\"a\";");
    assert_eq!(o.stdout, "false\nfalse\ntrue\ntrue\ntrue\ntrue\n");
}

#[test]
fn no_print_no_output() {
    let o = run("var a = 1; a = a + 1; { var b = a * 2; b = -b; }");
    assert!(o.result.is_ok());
    assert_eq!(o.stdout, "");
    let o = run("var a = 1; a = a / 0;");
    assert_eq!(o.stdout, "");
}

#[test]
fn arithmetic_and_comparison() {
    let o = run("print 10 / 4; print 2 * 3 - 1; print 1.5 + 1; print -(3); print 1 < 2; print 2 <= 2; print 3 > 4; print 3 >= 4;");
    assert_eq!(o.stdout, "2.5\n5\n2.5\n-3\ntrue\ntrue\nfalse\nfalse\n");
}

#[test]
fn precedence_and_grouping() {
    let o = run("print 1 + 2 * 3; print (1 + 2) * 3; print 8 - 4 - 2; print 16 / 4 / 2;");
    assert_eq!(o.stdout, "7\n9\n2\n2\n");
}

#[test]
fn equality_rules() {
    let o = run("print 1 == 1.0; print \"a\" == \"a\"; print nil == false; print nil == nil; print 1 != \"1\"; print 0 == -0;");
    assert_eq!(o.stdout, "true\ntrue\nfalse\ntrue\ntrue\ntrue\n");
}

#[test]
fn display_forms() {
    let o = run("print nil; print true; print \"raw text\"; print 1.25; var u; print u;");
    assert_eq!(o.stdout, "nil\ntrue\nraw text\n1.25\nnil\n");
}

#[test]
fn redefinition_allowed() {
    let o = run("var a = 1; var a = 2; print a;");
    assert_eq!(o.stdout, "2\n");
}

#[test]
fn assignment_to_outer_scope() {
    let o = run("var a = 1; { a = 2; { a = a + 1; } } print a;");
    assert_eq!(o.stdout, "3\n");
}

#[test]
fn block_error_restores_enclosing_scope() {
    let mut interpreter = Interpreter::new();
    let o = run_on(&mut interpreter, "var a = 1; { var b = 2; print 1/0; }");
    assert!(matches!(o.result, Err(LoxError::Runtime(_))));
    let o = run_on(&mut interpreter, "print a;");
    assert_eq!(o.stdout, "1\n");
    let o = run_on(&mut interpreter, "print b;");
    assert_eq!(error_text(&o), "Undefined variable 'b'.");
}

#[test]
fn globals_persist_between_runs() {
    let mut interpreter = Interpreter::new();
    run_on(&mut interpreter, "var greeting = \"hi\";");
    let o = run_on(&mut interpreter, "print greeting + \"!\";");
    assert_eq!(o.stdout, "hi!\n");
}

#[test]
fn invalid_assignment_target_is_reported_not_fatal() {
    let o = run("var a = 1; a + 1 = 3; print a;");
    assert!(o.result.is_ok());
    assert_eq!(o.stdout, "1\n");
    assert_eq!(o.notes.len(), 1);
    assert_eq!(o.notes[0].text(), "1 at =: Invalid assignment target");
}

#[test]
fn parse_errors() {
    let o = run("var = 1; print 2;");
    assert_eq!(o.stdout, "");
    assert!(matches!(o.result, Err(LoxError::Parse(_))));
    assert_eq!(error_text(&o), "1 at =: Expected variable name.");
    assert_eq!(error_text(&run("print")), "1 at end: expected expression");
    assert_eq!(error_text(&run("print 1")), "1 at end: Expected ';' after print statement.");
    assert_eq!(error_text(&run("{ print 1;")), "1 at end: Expected '}' after block.");
    assert_eq!(error_text(&run("print (1;")), "1 at ;: expected ')' after expression");
    assert_eq!(error_text(&run("1 + 2")), "1 at end: Expected ';' after expression.");
    assert_eq!(error_text(&run("var a = 1")), "1 at end: Expected ';' after variable declaration.");
    assert_eq!(error_text(&run("class;")), "1 at class: expected expression");
}

#[test]
fn parse_recovers_and_reports_first_error() {
    let tokens = scan("var = 1; print 2; print ; var b = 3;");
    let mut parser = Parser::new(tokens);
    match parser.parse() {
        Ok(_) => panic!("expected a parse error"),
        Err(e) => assert_eq!(e.text(), "1 at =: Expected variable name."),
    }
}

#[test]
fn scanner_errors() {
    assert_eq!(error_text(&run("print 1 @ 2;")), "[line 1] Error: Unexpected character.");
    assert_eq!(error_text(&run("print \"open;")), "[line 1] Error: Unterminated string.");
    assert_eq!(error_text(&run("/* never closed\n\n")), "[line 3] Error: Unterminated comment.");
    let source = "\n\n\n\n\n\n\n\n\n\n\n#";
    assert_eq!(error_text(&run(source)), "[line 12] Error: Unexpected character.");
}

#[test]
fn comments_are_skipped() {
    let o = run("// a line comment\nprint 1; /* a\nblock * / comment */ print 2;");
    assert_eq!(o.stdout, "1\n2\n");
}

#[test]
fn scanned_lexemes_match_source_and_lines() {
    let source = "var x = 12.5;\n// note\nprint x >= \"a\nb\" != nil;";
    let tokens = scan(source);
    let chars: Vec<char> = source.chars().collect();
    let mut from = 0;
    for t in &tokens[..tokens.len() - 1] {
        let lexeme: Vec<char> = t.lexeme.chars().collect();
        let mut start = from;
        while chars[start..start + lexeme.len()] != lexeme[..] {
            start += 1;
        }
        let line = 1 + chars[..start].iter().filter(|c| **c == '\n').count();
        assert_eq!(t.line, line, "line of {:?}", t.lexeme);
        from = start + lexeme.len();
    }
    let kinds: Vec<TokenType> = tokens.iter().map(|t| t.typ).collect();
    assert_eq!(
        kinds,
        vec![
            TokenType::Var,
            TokenType::Identifier,
            TokenType::Equal,
            TokenType::Number,
            TokenType::SemiColon,
            TokenType::Print,
            TokenType::Identifier,
            TokenType::GreaterEqual,
            TokenType::String,
            TokenType::BangEqual,
            TokenType::Nil,
            TokenType::SemiColon,
            TokenType::EOF,
        ]
    );
    assert_eq!(tokens[8].lexeme, "\"a\nb\"");
    assert_eq!(tokens[8].line, 3);
    assert!(matches!(&tokens[8].literal, Some(Literal::String(s)) if s == "a\nb"));
    assert!(matches!(tokens[3].literal, Some(Literal::Number(n)) if n == 12.5f64.to_bits()));
    assert!(matches!(tokens[10].literal, Some(Literal::Nil)));
}

#[test]
fn scan_ends_with_single_eof() {
    for source in ["", "print 1;", "a\n\nb", "// only a comment"] {
        let tokens = scan(source);
        let last = &tokens[tokens.len() - 1];
        assert_eq!(last.typ, TokenType::EOF);
        assert_eq!(last.lexeme, "");
        assert!(last.literal.is_none());
        assert_eq!(last.line, 1 + source.matches('\n').count());
        assert_eq!(tokens.iter().filter(|t| t.typ == TokenType::EOF).count(), 1);
    }
}

#[test]
fn number_followed_by_dot() {
    let tokens = scan("1.");
    let kinds: Vec<TokenType> = tokens.iter().map(|t| t.typ).collect();
    assert_eq!(kinds, vec![TokenType::Number, TokenType::Dot, TokenType::EOF]);
    assert_eq!(tokens[0].lexeme, "1");
}

#[test]
fn keywords_and_identifiers() {
    let tokens = scan("and class else false for fun if nil or print return super this true var while _x9 Whale");
    let kinds: Vec<TokenType> = tokens.iter().map(|t| t.typ).collect();
    assert_eq!(
        kinds,
        vec![
            TokenType::And,
            TokenType::Class,
            TokenType::Else,
            TokenType::False,
            TokenType::For,
            TokenType::Fun,
            TokenType::If,
            TokenType::Nil,
            TokenType::Or,
            TokenType::Print,
            TokenType::Return,
            TokenType::Super,
            TokenType::This,
            TokenType::True,
            TokenType::Var,
            TokenType::While,
            TokenType::Identifier,
            TokenType::Identifier,
            TokenType::EOF,
        ]
    );
    assert!(matches!(tokens[3].literal, Some(Literal::Boolean(false))));
    assert!(matches!(tokens[13].literal, Some(Literal::Boolean(true))));
}

#[test]
fn assign_unknown_name_changes_nothing() {
    let mut env = Environment::new();
    env.define("a".to_string(), num(1.0));
    env.push_scope();
    env.define("b".to_string(), num(2.0));
    let r = env.assign(&"c".to_string(), num(3.0));
    assert!(matches!(r, Err(RuntimeError::UndefinedVariable(ref n)) if n == "c"));
    assert!(matches!(env.get(&"a".to_string()), Ok(Literal::Number(n)) if n == 1.0f64.to_bits()));
    assert!(matches!(env.get(&"b".to_string()), Ok(Literal::Number(n)) if n == 2.0f64.to_bits()));
    assert!(env.get(&"c".to_string()).is_err());
    assert_eq!(env.depth(), 2);
}

#[test]
fn environment_scoping() {
    let mut env = Environment::new();
    env.define("a".to_string(), num(1.0));
    let mut env = Environment::new_enclosed(env);
    env.define("a".to_string(), Literal::String("inner".to_string()));
    assert!(env.assign(&"a".to_string(), Literal::Boolean(true)).is_ok());
    assert!(matches!(env.get(&"a".to_string()), Ok(Literal::Boolean(true))));
    env.pop_scope();
    assert!(matches!(env.get(&"a".to_string()), Ok(Literal::Number(n)) if n == 1.0f64.to_bits()));
    env.pop_scope();
    assert_eq!(env.depth(), 1);
}

#[test]
fn runtime_error_text_forms() {
    let e = RuntimeError::UndefinedVariable("zz".to_string());
    assert_eq!(e.message(), "Undefined variable 'zz'.");
    let e = RuntimeError::Token(tok(TokenType::Plus, "+"), "Operands must be two numbers or two strings.");
    assert_eq!(e.message(), "Plus +: Operands must be two numbers or two strings.");
}

#[test]
fn scanner_error_construction() {
    let e = rlox::scanner::ScannerError::new(42, "Unterminated string.".to_string());
    assert_eq!(e.message(), "[line 42] Error: Unterminated string.");
}

fn reject_numbers(_text: String) -> Option<u64> {
    None
}

#[test]
fn unreadable_number_is_a_scanner_error() {
    let mut scanner = Scanner::new("print\n 12;");
    match scanner.scan_tokens(&reject_numbers) {
        Ok(_) => panic!("expected a scanner error"),
        Err(e) => assert_eq!(e.message(), "[line 2] Error: Invalid number."),
    }
}

#[test]
fn nested_assignment_in_group() {
    let o = run("var a; var b; a = (b = 2) + 1; print a; print b;");
    assert!(o.result.is_ok());
    assert_eq!(o.stdout, "3\n2\n");
}

#[test]
fn lox_error_messages() {
    assert_eq!(error_text(&run("\"abc")), "[line 1] Error: Unterminated string.");
    assert_eq!(error_text(&run("\n(1 + 2;")), "2 at ;: expected ')' after expression");
    assert_eq!(error_text(&run("print 1 < nil;")), "Less <: Operands must be numbers.");
}

#[test]
fn parse_error_at_first_failing_declaration() {
    let o = run("var 1; print 2;");
    assert_eq!(o.stdout, "");
    assert!(matches!(o.result, Err(LoxError::Parse(_))));
    assert_eq!(error_text(&o), "1 at 1: Expected variable name.");
}

#[test]
fn invalid_target_keeps_left_side() {
    let o = run("print 1 = 2;");
    assert!(o.result.is_ok());
    assert_eq!(o.stdout, "1\n");
    assert_eq!(o.notes.len(), 1);
    assert_eq!(o.notes[0].text(), "1 at =: Invalid assignment target");
    let o = run("var a = 1; (a) = 3; print a;");
    assert_eq!(o.stdout, "1\n");
    assert_eq!(o.notes.len(), 1);
}

#[test]
fn reassignment_keeps_one_binding() {
    let mut env = Environment::new();
    env.define("a".to_string(), num(1.0));
    for i in 0..100 {
        assert!(env.assign(&"a".to_string(), num(i as f64)).is_ok());
    }
    env.define("a".to_string(), num(7.0));
    assert!(matches!(env.get(&"a".to_string()), Ok(Literal::Number(n)) if n == 7.0f64.to_bits()));
}

#[test]
fn semicolon_kind_name() {
    let e = RuntimeError::Token(tok(TokenType::SemiColon, ";"), "x");
    assert_eq!(e.message(), "SemiColon ;: x");
}
