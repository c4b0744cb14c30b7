use qforge::angle::{FloatOp, PI};
use qforge::gate::Gate;
use qforge::parser::error::ParseError;
use qforge::parser::lexer::{Lexer, Token};
use qforge::parser::parser::parse;
use qforge::qubit::{CbitRef, QubitRef};

fn arith(op: FloatOp, a: u64, b: u64) -> u64 {
    let x = f64::from_bits(a);
    let y = f64::from_bits(b);
    let r = match op {
        FloatOp::Add => x + y,
        FloatOp::Sub => x - y,
        FloatOp::Mul => x * y,
        FloatOp::Div => x / y,
        FloatOp::Pow => x.powf(y),
        FloatOp::Sin => x.sin(),
        FloatOp::Cos => x.cos(),
        FloatOp::Tan => x.tan(),
        FloatOp::Exp => x.exp(),
        FloatOp::Ln => x.ln(),
        FloatOp::Sqrt => x.sqrt(),
        FloatOp::FromInt => a as i64 as f64,
    };
    r.to_bits()
}

fn read(s: &String) -> u64 {
    s.parse::<f64>().unwrap_or(0.0).to_bits()
}

fn show(x: u64) -> String {
    format!("{:?}", f64::from_bits(x))
}

fn q(i: usize) -> QubitRef {
    QubitRef::new("q", i)
}

fn tokens(src: &str) -> Vec<Token> {
    Lexer::new(src).tokenise(&read).unwrap()
}

#[test]
fn lexer_reads_keywords_numbers_and_punctuation() {
    let ts = tokens("OPENQASM 2.0;\nqreg q[2]; // a comment\ncx q[0],q[1] -> == 1e3 x_1");
    assert!(matches!(ts[0], Token::OpenQasm));
    assert!(matches!(ts[1], Token::Real(v) if v == 2.0f64.to_bits()));
    assert!(matches!(ts[2], Token::Semicolon));
    assert!(matches!(ts[3], Token::Qreg));
    assert!(matches!(&ts[4], Token::Ident(s) if s == "q"));
    assert!(matches!(ts[6], Token::Integer(2)));
    assert!(matches!(&ts[9], Token::Ident(s) if s == "cx"));
    assert!(matches!(ts[ts.len() - 5], Token::Arrow));
    assert!(matches!(ts[ts.len() - 4], Token::Equals));
    assert!(matches!(ts[ts.len() - 3], Token::Real(v) if v == 1000.0f64.to_bits()));
    assert!(matches!(&ts[ts.len() - 2], Token::Ident(s) if s == "x_1"));
    assert!(matches!(ts[ts.len() - 1], Token::Eof));
}

#[test]
fn lexer_turns_pi_into_a_real() {
    let ts = tokens("pi");
    assert!(matches!(ts[0], Token::Real(v) if v == PI));
    assert_eq!(PI, std::f64::consts::PI.to_bits());
}

#[test]
fn lexer_reports_bad_characters_with_their_line() {
    match Lexer::new("h q[0];\n@").tokenise(&read) {
        Err(ParseError::UnexpectedToken { line, message }) => {
            assert_eq!(line, 2);
            assert_eq!(message, "unexpected character '@'");
        },
        other => panic!("unexpected {:?}", other),
    }
    match Lexer::new("x = 1").tokenise(&read) {
        Err(ParseError::UnexpectedToken { message, .. }) => assert_eq!(message, "expected '==' not '='"),
        other => panic!("unexpected {:?}", other),
    }
    match Lexer::new("include \"abc").tokenise(&read) {
        Err(ParseError::UnexpectedToken { message, .. }) => assert_eq!(message, "unterminated string"),
        other => panic!("unexpected {:?}", other),
    }
}

#[test]
fn a_leading_comment_line_only_moves_error_lines() {
    let body = "qreg q[2];\ncx q[0], q[1];";
    let plain = tokens(body);
    let prefixed = tokens(&format!(" \t// c\n{}", body));
    assert_eq!(format!("{:?}", plain), format!("{:?}", prefixed));
    match Lexer::new(&format!(" \t// c\n{}", "h q[0];\n@")).tokenise(&read) {
        Err(ParseError::UnexpectedToken { line, .. }) => assert_eq!(line, 3),
        other => panic!("unexpected {:?}", other),
    }
}

#[test]
fn integer_overflow_reads_as_zero() {
    let ts = tokens("99999999999999999999");
    assert!(matches!(ts[0], Token::Integer(0)));
}

const BELL: &str = "OPENQASM 2.0;\ninclude \"qelib1.inc\";\nqreg q[2];\ncreg c[2];\nh q[0];\ncx q[0],q[1];\nbarrier q[0],q[1];\nmeasure q[0] -> c[0];\nmeasure q[1] -> c[1];\n";

#[test]
fn parses_a_bell_circuit() {
    let c = parse(BELL, &arith, &read, &show).unwrap();
    assert_eq!(c.name, "circuit");
    assert_eq!(c.qubit_count(), 2);
    assert_eq!(c.cregs.get("c"), Some(2));
    assert_eq!(
        c.gates,
        vec![
            Gate::H(q(0)),
            Gate::Cx(q(0), q(1)),
            Gate::Barrier(vec![q(0), q(1)]),
            Gate::Measure(q(0), CbitRef::new("c", 0)),
            Gate::Measure(q(1), CbitRef::new("c", 1)),
        ]
    );
    assert_eq!(c.gate_count(), 4);
    assert_eq!(c.depth(), 3);
}

#[test]
fn parses_parameter_expressions() {
    let src = "qreg q[1];\nrz(pi/2) q[0];\nrx(-pi) q[0];\nu3(1+2*3, 0, sqrt(4)) q[0];\nu1 q[0];\n";
    let c = parse(src, &arith, &read, &show).unwrap();
    let half_pi = (std::f64::consts::PI / 2.0).to_bits();
    assert_eq!(c.gates[0], Gate::Rz(half_pi, q(0)));
    assert_eq!(c.gates[1], Gate::Rx((-std::f64::consts::PI).to_bits(), q(0)));
    // '*' binds tighter than '+': 1 + (2 * 3).
    assert_eq!(c.gates[2], Gate::U3(7.0f64.to_bits(), 0.0f64.to_bits(), 2.0f64.to_bits(), q(0)));
    assert_eq!(c.gates[3], Gate::U1(0, q(0)));
}

#[test]
fn expression_precedence_follows_openqasm() {
    let src = "qreg q[1];\nrz(2^3^2) q[0];\nrz(-2^2) q[0];\nrz(2*3-4/2) q[0];\nrz(8-2-1) q[0];\nrz((1+2)*3) q[0];\nrz(2^-1) q[0];\n";
    let c = parse(src, &arith, &read, &show).unwrap();
    let angles: Vec<f64> = c
        .gates
        .iter()
        .map(|g| match g {
            Gate::Rz(a, _) => f64::from_bits(*a),
            _ => panic!("not an rz"),
        })
        .collect();
    assert_eq!(angles, vec![512.0, -4.0, 4.0, 5.0, 9.0, 0.5]);
}

#[test]
fn parses_custom_and_skips_definitions() {
    let src = "qreg q[3];\ngate foo a { x a; }\nopaque bar a;\nfoo(0.5) q[0], q[2];\nccx q[0],q[1],q[2];\nreset q[1];\n";
    let c = parse(src, &arith, &read, &show).unwrap();
    assert_eq!(
        c.gates,
        vec![
            Gate::Custom { name: "foo".to_string(), params: vec![0.5f64.to_bits()], qubits: vec![q(0), q(2)] },
            Gate::Ccx(q(0), q(1), q(2)),
            Gate::Reset(q(1)),
        ]
    );
}

#[test]
fn undefined_register_is_an_error() {
    match parse("qreg q[1];\nh r[0];\n", &arith, &read, &show) {
        Err(ParseError::UndefinedRegister(r)) => assert_eq!(r, "r"),
        other => panic!("unexpected {:?}", other),
    }
}

#[test]
fn index_out_of_bounds_is_an_error() {
    match parse("qreg q[2];\nx q[2];\n", &arith, &read, &show) {
        Err(e) => {
            assert!(matches!(&e, ParseError::IndexOutOfBounds { register, index: 2, size: 2 } if register == "q"));
            assert_eq!(e.message(), "index out of bounds: q[2] (size 2)");
        },
        other => panic!("unexpected {:?}", other),
    }
}

#[test]
fn unknown_function_is_an_invalid_parameter() {
    match parse("qreg q[1];\nrz(foo(1)) q[0];\n", &arith, &read, &show) {
        Err(e) => {
            assert!(matches!(&e, ParseError::InvalidParameter(m) if m == "unknown function: foo"));
            assert_eq!(e.message(), "invalid parameter: unknown function: foo");
        },
        other => panic!("unexpected {:?}", other),
    }
}

#[test]
fn syntax_errors_name_the_tokens() {
    match parse("qreg q 2];\n", &arith, &read, &show) {
        Err(ParseError::UnexpectedToken { line, message }) => {
            assert_eq!(line, 0);
            assert_eq!(message, "expected LBracket, got Integer(2)");
        },
        other => panic!("unexpected {:?}", other),
    }
    match parse("qreg 2.5;\n", &arith, &read, &show) {
        Err(ParseError::UnexpectedToken { message, .. }) => assert_eq!(message, "expected identifier, got Real(2.5)"),
        other => panic!("unexpected {:?}", other),
    }
    match parse("qreg q[x];\n", &arith, &read, &show) {
        Err(e) => assert_eq!(e.message(), "unexpected token at line 0: expected integer, got Ident(\"x\")"),
        other => panic!("unexpected {:?}", other),
    }
    match parse("qreg q[1];\nrz(;) q[0];\n", &arith, &read, &show) {
        Err(ParseError::UnexpectedToken { message, .. }) => assert_eq!(message, "expected number, got Semicolon"),
        other => panic!("unexpected {:?}", other),
    }
}

#[test]
fn error_messages_match_their_kind() {
    assert_eq!(ParseError::UnknownGate("g".to_string()).message(), "unknown gate: g");
    assert_eq!(ParseError::UndefinedRegister("r".to_string()).message(), "undefined register: r");
    assert_eq!(ParseError::Other("plain".to_string()).message(), "plain");
    assert_eq!(
        ParseError::UnexpectedToken { line: 7, message: "m".to_string() }.message(),
        "unexpected token at line 7: m"
    );
}
