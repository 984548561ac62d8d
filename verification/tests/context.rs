use expr_compiler::context::CompilerContext;
use expr_compiler::lexer::Lexeme;

#[test]
fn context_reports_correct_syntax() {
    let mut context = CompilerContext::new(false);
    context.code = "a + b".to_string();
    assert_eq!(context.syntax_report(), "Tokenization & syntax analysis: OK!\n\n");
    let lexemes = context.create_lexemes().unwrap().unwrap();
    assert_eq!(lexemes, vec![Lexeme::Identifier("a".to_string()), Lexeme::Plus, Lexeme::Identifier("b".to_string())]);
}

#[test]
fn context_stops_at_syntax_errors() {
    let mut context = CompilerContext::new(false);
    context.code = "a + * b".to_string();
    let report = context.syntax_report();
    assert!(report.starts_with("Syntax analysis: Found 1 errors.\n"));
    assert_eq!(context.create_lexemes().unwrap_err(), report);
}

#[test]
fn context_starts_empty() {
    let context = CompilerContext::new(true);
    assert!(context.code.is_empty());
    assert!(context.pretty_output);
    assert_eq!(context.syntax_report(), "Tokenization & syntax analysis: OK!\n\n");
}

#[test]
fn context_tells_when_its_report_can_be_made() {
    let mut context = CompilerContext::new(false);
    context.code = "a + * b".to_string();
    assert!(context.is_reportable());
    context.code = "a + b".to_string();
    assert!(context.is_reportable());
    let mut pretty = CompilerContext::new(true);
    pretty.code = "a + b".to_string();
    assert!(pretty.is_reportable());
    // The error sits on the last character, which the marks cannot reach.
    pretty.code = "a +".to_string();
    assert!(!pretty.is_reportable());
    context.code = "a +".to_string();
    assert!(context.is_reportable());
}
