use expr_compiler::ast::{AbstractSyntaxTree, AstNode};
use expr_compiler::lexer::{Lexeme, Lexer};
use expr_compiler::parser::AstParser;
use expr_compiler::pcs::{OperationType, ProcessorConfiguration, SystemConfiguration};
use expr_compiler::simulator::VectorSystemSimulator;
use expr_compiler::tokenizer::tokenize;

fn parse(code: &str) -> AbstractSyntaxTree<String> {
    let lexemes: Vec<Lexeme<String>> = Lexer::new(tokenize(code)).run().unwrap();
    let lexemes: Vec<Lexeme<u64>> = lexemes
        .into_iter()
        .map(|l| match l {
            Lexeme::Number(n) => Lexeme::Number(n.parse::<u64>().unwrap()),
            Lexeme::Identifier(s) => Lexeme::Identifier(s),
            Lexeme::String(s) => Lexeme::String(s),
            Lexeme::Plus => Lexeme::Plus,
            Lexeme::Minus => Lexeme::Minus,
            Lexeme::Multiply => Lexeme::Multiply,
            Lexeme::Divide => Lexeme::Divide,
            Lexeme::Modulus => Lexeme::Modulus,
            Lexeme::LeftParenthesis => Lexeme::LeftParenthesis,
            Lexeme::RightParenthesis => Lexeme::RightParenthesis,
            Lexeme::LeftBracket => Lexeme::LeftBracket,
            Lexeme::RightBracket => Lexeme::RightBracket,
            Lexeme::Not => Lexeme::Not,
            Lexeme::And => Lexeme::And,
            Lexeme::Or => Lexeme::Or,
            Lexeme::Comma => Lexeme::Comma,
        })
        .collect();
    let tree = AstParser::new(lexemes).parse().unwrap();
    AbstractSyntaxTree::from_node(numbers_as_text(tree.peek))
}

fn numbers_as_text(n: AstNode<u64>) -> AstNode<String> {
    match n {
        AstNode::Number(v) => AstNode::Number(v.to_string()),
        AstNode::Identifier(s) => AstNode::Identifier(s),
        AstNode::StringLiteral(s) => AstNode::StringLiteral(s),
        AstNode::UnaryOperation { operation, expression } => {
            AstNode::UnaryOperation { operation, expression: Box::new(numbers_as_text(*expression)) }
        },
        AstNode::BinaryOperation { operation, left, right } => AstNode::BinaryOperation {
            operation,
            left: Box::new(numbers_as_text(*left)),
            right: Box::new(numbers_as_text(*right)),
        },
        AstNode::FunctionCall { name, arguments } => {
            AstNode::FunctionCall { name, arguments: arguments.into_iter().map(numbers_as_text).collect() }
        },
        AstNode::ArrayAccess { identifier, indices } => {
            AstNode::ArrayAccess { identifier, indices: indices.into_iter().map(numbers_as_text).collect() }
        },
    }
}

fn state<'a>(pipelines: &'a [(String, String)], unit: &str) -> &'a str {
    pipelines.iter().find(|(name, _)| name == unit).map(|(_, state)| state.as_str()).unwrap()
}

#[test]
fn simulator_runs_a_product_before_the_sum_that_needs_it() {
    let tree = parse("a + b * c");
    let config = SystemConfiguration::default();
    let result = VectorSystemSimulator::new(&tree, &config).simulate();

    assert_eq!(result.schedule.len(), 2);
    let first = &result.schedule[0];
    assert_eq!(first.name, "(b * c)");
    assert_eq!((first.start_time, first.end_time), (0, 2));
    assert_eq!(first.processor_type, OperationType::Mul);
    assert_eq!(first.processor_index, 0);
    let second = &result.schedule[1];
    assert_eq!(second.name, "(a + (b * c))");
    assert_eq!((second.start_time, second.end_time), (2, 3));
    assert_eq!(second.processor_type, OperationType::Add);

    assert_eq!(result.t1, 3);
    assert_eq!(result.tp, 3);
    assert_eq!(result.configuration.time.mul, 2);

    assert_eq!(result.tick_logs.len(), 3);
    let log0 = &result.tick_logs[0];
    assert_eq!(log0.tick, 0);
    assert_eq!(log0.ready_queue, vec!["(b * c)".to_string()]);
    assert_eq!(state(&log0.pipelines_state, "MUL #1"), "[Stage 1: (b * c)]");
    assert_eq!(state(&log0.pipelines_state, "ADD #1"), "Idle");
    let names: Vec<&str> = log0.pipelines_state.iter().map(|(n, _)| n.as_str()).collect();
    assert_eq!(names, vec!["ADD #1", "SUB #1", "MUL #1", "DIV #1"]);
    let log1 = &result.tick_logs[1];
    assert!(log1.ready_queue.is_empty());
    assert_eq!(state(&log1.pipelines_state, "MUL #1"), "[Stage 2: (b * c)]");
    let log2 = &result.tick_logs[2];
    assert_eq!(state(&log2.pipelines_state, "ADD #1"), "[Stage 1: (a + (b * c))]");
    assert_eq!(state(&log2.pipelines_state, "MUL #1"), "Idle");
}

#[test]
fn simulator_waits_for_a_free_unit() {
    let tree = parse("(a + b) + (c + d)");
    let one_adder = SystemConfiguration::default();
    let result = VectorSystemSimulator::new(&tree, &one_adder).simulate();
    let times: Vec<(usize, usize)> = result.schedule.iter().map(|t| (t.start_time, t.end_time)).collect();
    assert_eq!(times, vec![(0, 1), (1, 2), (2, 3)]);
    assert_eq!(result.tick_logs[0].ready_queue, vec!["(a + b)".to_string(), "(c + d)".to_string()]);
    assert_eq!((result.t1, result.tp), (3, 3));

    let mut two_adders = SystemConfiguration::default();
    two_adders.processors = ProcessorConfiguration { add: 2, sub: 1, mul: 1, div: 1 };
    let result = VectorSystemSimulator::new(&tree, &two_adders).simulate();
    let placed: Vec<(usize, usize, usize)> =
        result.schedule.iter().map(|t| (t.start_time, t.end_time, t.processor_index)).collect();
    assert_eq!(placed, vec![(0, 1, 0), (0, 1, 1), (1, 2, 0)]);
    assert_eq!((result.t1, result.tp), (3, 2));
    let names: Vec<&str> = result.tick_logs[0].pipelines_state.iter().map(|(n, _)| n.as_str()).collect();
    assert_eq!(names, vec!["ADD #1", "ADD #2", "SUB #1", "MUL #1", "DIV #1"]);
}

#[test]
fn simulator_pipelines_accept_a_task_each_tick() {
    let tree = parse("a * b + c * d");
    let config = SystemConfiguration::default();
    let result = VectorSystemSimulator::new(&tree, &config).simulate();
    let times: Vec<(usize, usize)> = result.schedule.iter().map(|t| (t.start_time, t.end_time)).collect();
    assert_eq!(times, vec![(0, 2), (1, 3), (3, 4)]);
    assert_eq!(state(&result.tick_logs[1].pipelines_state, "MUL #1"), "[Stage 2: (a * b)] [Stage 1: (c * d)]");
    assert_eq!((result.t1, result.tp), (5, 4));
}

#[test]
fn simulator_shortens_long_names() {
    let tree = parse("alpha + beta * gamma");
    let config = SystemConfiguration::default();
    let result = VectorSystemSimulator::new(&tree, &config).simulate();
    let last = result.tick_logs.last().unwrap();
    assert_eq!(state(&last.pipelines_state, "ADD #1"), "[Stage 1: (alpha + (be...]");
    assert_eq!(result.schedule[1].name, "(alpha + (beta * gamma))");
}

#[test]
fn simulator_of_a_single_value_does_nothing() {
    let tree = parse("x");
    let config = SystemConfiguration::default();
    let result = VectorSystemSimulator::new(&tree, &config).simulate();
    assert!(result.schedule.is_empty());
    assert!(result.tick_logs.is_empty());
    assert_eq!((result.t1, result.tp), (0, 0));
}

#[test]
fn simulator_tries_and_gives_the_same_result_where_it_can_run() {
    let tree = parse("(a + b) * (c - d) / e");
    let config = SystemConfiguration::default();
    let checked = VectorSystemSimulator::new(&tree, &config).try_simulate().unwrap();
    let plain = VectorSystemSimulator::new(&tree, &config).simulate();
    assert_eq!((checked.t1, checked.tp), (plain.t1, plain.tp));
    assert_eq!(checked.schedule.len(), plain.schedule.len());
    for (a, b) in checked.schedule.iter().zip(plain.schedule.iter()) {
        assert_eq!((a.task_id, a.start_time, a.end_time), (b.task_id, b.start_time, b.end_time));
    }
}

#[test]
fn simulator_refuses_a_latency_that_could_overflow() {
    let tree = parse("a + b");
    let mut config = SystemConfiguration::default();
    config.time.mul = usize::MAX;
    assert!(VectorSystemSimulator::new(&tree, &config).try_simulate().is_none());
}

#[test]
fn simulator_refuses_a_long_name_that_cannot_be_cut() {
    let config = SystemConfiguration::default();
    // 1 + 2 * 8 = 17 bytes, and no prefix takes exactly 12 bytes.
    let tree = AbstractSyntaxTree::from_node(AstNode::Identifier("aбббббббб".to_string()));
    assert!(VectorSystemSimulator::new(&tree, &config).try_simulate().is_none());
    // Two bytes per letter: the first six letters take 12 bytes.
    let tree = AbstractSyntaxTree::from_node(AstNode::Identifier("бббббббб".to_string()));
    assert!(VectorSystemSimulator::new(&tree, &config).try_simulate().is_some());
}

#[test]
fn simulator_chooses_the_first_form_with_the_least_parallel_time() {
    assert_eq!(expr_compiler::simulator::optimal_form_index(&vec![5, 3, 4, 3]), 1);
    assert_eq!(expr_compiler::simulator::optimal_form_index(&vec![2]), 0);
    assert_eq!(expr_compiler::simulator::optimal_form_index(&vec![7, 7, 6]), 2);
}

#[test]
fn simulator_schedules_each_computation_once_and_one_per_unit_and_tick() {
    let tree = parse("a*b + c*d - e/f + (g + h)*(i - j) + k/l*m");
    let mut config = SystemConfiguration::default();
    config.processors = ProcessorConfiguration { add: 2, sub: 1, mul: 2, div: 1 };
    let result = VectorSystemSimulator::new(&tree, &config).simulate();
    let s = &result.schedule;
    assert_eq!(s.len(), 12);
    for (i, a) in s.iter().enumerate() {
        assert!(a.processor_type != OperationType::Load);
        for b in &s[i + 1..] {
            assert_ne!(a.task_id, b.task_id);
            if a.processor_type == b.processor_type && a.processor_index == b.processor_index {
                assert!(a.start_time < b.start_time);
            }
        }
    }
}
