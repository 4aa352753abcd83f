use solowork::compiler::{Compiler, FileData};
use solowork::interpret::{Interpret, RunError, Status};
use solowork::tokenize::Lexer;

fn run_source(src: &str) -> (String, Status) {
    let compiler = Compiler::new();
    let mut lexer = Lexer::new(&compiler, src);
    let tokens = lexer.tokenize();
    let mut interpreter = Interpret::new(&compiler, tokens);
    let step = interpreter.run(100_000);
    (step.printed, step.status)
}

fn output_of(src: &str) -> String {
    let (out, status) = run_source(src);
    assert!(matches!(status, Status::Finished), "status: {:?}", status);
    out
}

fn failure_of(src: &str) -> (String, RunError) {
    match run_source(src) {
        (out, Status::Failed(e)) => (out, e),
        (out, s) => panic!("expected a failure, got {:?} with output {:?}", s, out),
    }
}

#[test]
fn readme_example_prints_sum() {
    let src = "let a = 5;\nlet b = 6;\nlet mut i = 0;\n\nwhile(i == 0) {\n    let c = a + b;\n    print \"a + b = \" c;\n    i = 1;\n}\n";
    assert_eq!(output_of(src), "a + b = 11\n");
}

#[test]
fn precedence_multiplication_binds_tighter() {
    assert_eq!(output_of("let a = 2 + 3 * 4; print a;"), "14\n");
    assert_eq!(output_of("let b = (2 + 3) * 4; print b;"), "20\n");
    assert_eq!(output_of("let a = 2 + 3 * 4; let ok = a == 14; print ok;"), "true\n");
}

#[test]
fn string_concatenation() {
    assert_eq!(output_of("let s = \"hello\" + \" world\"; print s;"), "hello world\n");
}

#[test]
fn print_forms() {
    assert_eq!(output_of("print \"hello world\";"), "hello world\n");
    assert_eq!(output_of("let n = 3; print \"n = \" n;"), "n = 3\n");
    assert_eq!(output_of("print 1 + 2;"), "3\n");
    assert_eq!(output_of("print \"a=\" 1, \" b=\" 2;"), "a=1 b=2\n");
}

#[test]
fn if_elif_else_grades() {
    let prog = |score: i64| {
        format!(
            "let score = {};\nif(score > 89) {{\n print \"A\";\n}} elif(score > 74) {{\n print \"B\";\n}} elif(score > 59) {{\n print \"C\";\n}} else {{\n print \"F\";\n}}\n",
            score
        )
    };
    assert_eq!(output_of(&prog(95)), "A\n");
    assert_eq!(output_of(&prog(80)), "B\n");
    assert_eq!(output_of(&prog(60)), "C\n");
    assert_eq!(output_of(&prog(10)), "F\n");
}

#[test]
fn while_counts_down() {
    let src = "let mut i = 5;\nwhile(i > 0) {\n    print i;\n    i = i - 1;\n}\n";
    assert_eq!(output_of(src), "5\n4\n3\n2\n1\n");
}

#[test]
fn nested_loops_and_blocks() {
    let src = "let mut i = 0;\nwhile(i < 2) {\n let mut j = 0;\n while(j < 2) {\n  if(j == 1) { print i \",\" j; }\n  j = j + 1;\n }\n i = i + 1;\n}\nprint \"done\";";
    assert_eq!(output_of(src), "0,1\n1,1\ndone\n");
}

#[test]
fn integer_conditions() {
    assert_eq!(output_of("if(0) { print 1; } else { print 2; }"), "2\n");
    assert_eq!(output_of("if(7) { print 1; } else { print 2; }"), "1\n");
}

#[test]
fn redeclaration_replaces_binding() {
    assert_eq!(output_of("let x = 1; let x = \"two\"; print x;"), "two\n");
    assert_eq!(output_of("let x = 1; let mut x = 2; x = 3; print x;"), "3\n");
}

#[test]
fn assignment_to_immutable_fails() {
    let (out, err) = failure_of("let x = 1;\nx = 2;");
    assert_eq!(out, "");
    match err {
        RunError::At { index, message } => {
            assert_eq!(index, 6);
            assert_eq!(message, "cannot assign to immutable variable 'x'");
        }
        other => panic!("{:?}", other),
    }
}

#[test]
fn undefined_variable_fails() {
    let (_, err) = failure_of("let y = x + 1;");
    assert_eq!(err.message(), "undefined variable 'x'");
    assert!(matches!(err, RunError::At { index: 3, .. }));
}

#[test]
fn division_truncates_toward_zero() {
    assert_eq!(output_of("print 7 / 2, \" \", -7 / 2, \" \", 7 % 3, \" \", -7 % 3;"), "3 -3 1 -1\n");
}

#[test]
fn division_by_zero_fails() {
    let (_, err) = failure_of("print 1 / 0;");
    assert_eq!(err.message(), "division by zero");
    let (_, err) = failure_of("print 1 % 0;");
    assert_eq!(err.message(), "modulo by zero");
}

#[test]
fn overflowing_division_panics() {
    let (_, err) = failure_of("let m = -9223372036854775807 - 1; print m / -1;");
    assert!(matches!(err, RunError::Overflow { .. }));
    assert_eq!(err.message(), "attempt to divide with overflow");
}

#[test]
fn integer_arithmetic_wraps() {
    assert_eq!(output_of("print 9223372036854775807 + 1;"), "-9223372036854775808\n");
}

#[test]
fn type_errors() {
    assert_eq!(failure_of("print 1 + \"a\";").1.message(), "type mismatch in addition/subtraction");
    assert_eq!(failure_of("print \"a\" - \"b\";").1.message(), "operator not supported for strings (use + to concat)");
    assert_eq!(failure_of("print \"a\" < \"b\";").1.message(), "only == and != are supported for string comparison");
    assert_eq!(failure_of("print -\"a\";").1.message(), "unary '-' requires an integer operand");
    assert_eq!(failure_of("print !1;").1.message(), "unary '!' requires a boolean operand");
    assert_eq!(failure_of("if(\"s\") { }").1.message(), "if condition must evaluate to a bool or integer");
}

#[test]
fn expect_messages() {
    let (_, err) = failure_of("let x = 1");
    assert_eq!(err.message(), "expected \";\" but found \"[END OF FILE]\"");
    let (_, err) = failure_of("let = 1;");
    assert_eq!(err.message(), "expected an identifier but found \"=\"");
    let (_, err) = failure_of("5;");
    assert_eq!(err.message(), "unexpected token '5' at statement level");
}

#[test]
fn partial_print_then_failure() {
    let (out, err) = failure_of("print 1, x;");
    assert_eq!(out, "1");
    assert_eq!(err.message(), "undefined variable 'x'");
}

use solowork::tokenize::{Token, TokenKind};

fn tok(kind: TokenKind) -> Token {
    Token { kind, line_no: 1, col_no: 1, isfile: false, file_id: 0 }
}

#[test]
fn more_error_messages() {
    assert_eq!(failure_of("print true == 1;").1.message(), "undefined variable 'true'");
    assert_eq!(failure_of("let t = 1 == 1; print t < t;").1.message(), "only == and != are supported for bool comparison");
    assert_eq!(failure_of("let t = 1 == 1; print t == 1;").1.message(), "type mismatch in comparison");
    assert_eq!(failure_of("print \"a\" * 2;").1.message(), "arithmetic requires integer operands");
    assert_eq!(failure_of("print 1 +;").1.message(), "unexpected token ';' in expression");
    assert_eq!(failure_of("x 1;").1.message(), "expected '=' after identifier for assignment");
    assert_eq!(failure_of("if(0) { } elif(\"s\") { }").1.message(), "elif condition must evaluate to a bool or integer");
    assert_eq!(failure_of("while(\"s\") { }").1.message(), "while condition must evaluate to a bool or integer");
    assert_eq!(failure_of("let m = -9223372036854775807 - 1; print m % -1;").1.message(), "attempt to calculate the remainder with overflow");
    assert_eq!(failure_of("x = 1;").1.message(), "undefined variable 'x'");
    assert_eq!(failure_of("if(1) { print 1; } elif(1 { }").1.message(), "unterminated elif condition");
    assert_eq!(failure_of("if(0) { print 1;").1.message(), "unterminated block");
    assert_eq!(failure_of("let x = (1;").1.message(), "expected \")\" but found \";\"");
}

#[test]
fn messages_without_a_place() {
    // tokens that stop short of an end-of-file token
    let compiler = Compiler::new();
    let mut interp = Interpret::new(&compiler, vec![tok(TokenKind::Print), tok(TokenKind::Integer(1))]);
    let step = interp.step();
    assert_eq!(step.printed, "1\n");
    match step.status {
        Status::Failed(RunError::Bare { message }) => assert_eq!(message, "expected \";\" but found nothing"),
        other => panic!("{:?}", other),
    }
    let mut interp = Interpret::new(&compiler, vec![tok(TokenKind::Let), tok(TokenKind::Identifier("x".to_string())), tok(TokenKind::Equal)]);
    match interp.step().status {
        Status::Failed(RunError::Bare { message }) => assert_eq!(message, "unexpected end of input in expression"),
        other => panic!("{:?}", other),
    }
    let mut interp = Interpret::new(&compiler, vec![tok(TokenKind::Let)]);
    match interp.step().status {
        Status::Failed(RunError::Bare { message }) => assert_eq!(message, "expected an identifier but found nothing"),
        other => panic!("{:?}", other),
    }
    let mut interp = Interpret::new(&compiler, vec![tok(TokenKind::If), tok(TokenKind::LParen), tok(TokenKind::Integer(1)), tok(TokenKind::RParen), tok(TokenKind::LBrace)]);
    assert!(matches!(interp.step().status, Status::Running));
    match interp.step().status {
        Status::Failed(RunError::Bare { message }) => assert_eq!(message, "expected \"}\" but found nothing"),
        other => panic!("{:?}", other),
    }
}

#[test]
fn finished_program_stays_finished() {
    let compiler = Compiler::new();
    let mut lexer = Lexer::new(&compiler, "print 1;");
    let mut interp = Interpret::new(&compiler, lexer.tokenize());
    let first = interp.step();
    assert_eq!(first.printed, "1\n");
    assert!(matches!(first.status, Status::Running));
    for _ in 0..3 {
        let s = interp.step();
        assert_eq!(s.printed, "");
        assert!(matches!(s.status, Status::Finished));
    }
}

#[test]
fn end_of_file_inside_a_block_fails() {
    let (out, err) = failure_of("while(1) { print 1;");
    assert_eq!(out, "1\n");
    assert_eq!(err.message(), "expected \"}\" but found \"[END OF FILE]\"");
    assert!(matches!(err, RunError::At { index: 8, .. }));
    let (out, err) = failure_of("if(1) { print 1;");
    assert_eq!(out, "1\n");
    assert_eq!(err.message(), "expected \"}\" but found \"[END OF FILE]\"");
}

#[test]
fn illegal_character_fails() {
    let (_, err) = failure_of("let x = @;");
    assert_eq!(err.message(), "unexpected token '[ILLEGAL CHARACTER]' in expression");
}

#[test]
fn source_name_of_tokens() {
    let mut compiler = Compiler::new();
    compiler.add_file(FileData::new(1, "prog.rl"));
    let interp = Interpret::new(&compiler, vec![]);
    let mut t = tok(TokenKind::EOF);
    assert_eq!(interp.source_name(&t), "[No File]");
    t.isfile = true;
    t.file_id = 1;
    assert_eq!(interp.source_name(&t), "prog.rl");
    t.file_id = 2;
    assert_eq!(interp.source_name(&t), "[No File]");
    assert!(interp.token_at(0).is_none());
}

#[test]
fn step_by_step_matches_run() {
    let src = "let mut i = 0; while(i < 3) { print i; i = i + 1; } print \"end\";";
    let compiler = Compiler::new();
    let mut lexer = Lexer::new(&compiler, src);
    let tokens = lexer.tokenize();
    let mut a = Interpret::new(&compiler, tokens.clone());
    let mut collected = String::new();
    loop {
        let s = a.step();
        collected.push_str(&s.printed);
        match s.status {
            Status::Running => {}
            Status::Finished => break,
            Status::Failed(e) => panic!("{:?}", e),
        }
    }
    let mut b = Interpret::new(&compiler, tokens);
    let r = b.run(1000);
    assert_eq!(collected, "0\n1\n2\nend\n");
    assert_eq!(r.printed, collected);
}

#[test]
fn skipped_and_run_blocks_end_alike() {
    for c in ["0", "1"] {
        let src = format!("if({}) {{ let mut a = 1; print a; a = 2; }} print \"after\";", c);
        let out = output_of(&src);
        assert!(out.ends_with("after\n"), "{:?}", out);
    }
}

#[test]
fn skipped_blocks_holding_if_and_while_end_alike() {
    let body = "let mut i = 0; while(i < 2) { if(i == 0) { print \"a\"; } elif(i == 1) { print \"b\"; } else { print \"c\"; } i = i + 1; } print \"in\";";
    for (c, expected) in [("0", "after\n"), ("1", "a\nb\nin\nafter\n")] {
        let src = format!("if({}) {{ {} }} print \"after\";", c, body);
        assert_eq!(output_of(&src), expected);
        let looped = format!("let mut go = {}; while(go) {{ {} go = 0; }} print \"after\";", c, body);
        assert_eq!(output_of(&looped), expected);
    }
    let chain = "if(0) { while(1) { print \"x\"; } } elif(1) { if(1) { print \"y\"; } else { print \"z\"; } } else { print \"w\"; } print \"end\";";
    assert_eq!(output_of(chain), "y\nend\n");
}

#[test]
fn report_line_of_failures() {
    let mut compiler = Compiler::new();
    compiler.add_file(FileData::new(1, "prog.rl"));
    let mut lexer = Lexer::from_file_contents(&compiler, 1, "let a = 1;\nprint b;").unwrap();
    let tokens = lexer.tokenize();
    let mut interpreter = Interpret::new(&compiler, tokens);
    let step = interpreter.run(100);
    let err = match step.status {
        Status::Failed(e) => e,
        s => panic!("expected a failure, got {:?}", s),
    };
    let index = match &err {
        RunError::At { index, .. } => *index,
        e => panic!("expected a failure at a token, got {:?}", e),
    };
    let tok = interpreter.token_at(index).unwrap();
    assert_eq!(tok.line_no, 2);
    assert_eq!(
        interpreter.report_line(&err),
        format!("[error] prog.rl:2:{} -> undefined variable 'b'", tok.col_no)
    );
    let past_end = RunError::At { index: 1000, message: "m".to_string() };
    assert_eq!(interpreter.report_line(&past_end), "[error] m");
    let bare = RunError::Bare { message: "expected \";\" but found nothing".to_string() };
    assert_eq!(interpreter.report_line(&bare), "[error] expected \";\" but found nothing");
    let overflow = RunError::Overflow { message: "attempt to add with overflow".to_string() };
    assert_eq!(interpreter.report_line(&overflow), "attempt to add with overflow");
}

#[test]
fn report_line_without_file() {
    let compiler = Compiler::new();
    let mut lexer = Lexer::new(&compiler, "print x;");
    let tokens = lexer.tokenize();
    let mut interpreter = Interpret::new(&compiler, tokens);
    let step = interpreter.run(100);
    match step.status {
        Status::Failed(e) => {
            let line = interpreter.report_line(&e);
            assert!(line.starts_with("[error] [No File]:1:"), "{}", line);
            assert!(line.ends_with(" -> undefined variable 'x'"), "{}", line);
        }
        s => panic!("expected a failure, got {:?}", s),
    }
}
