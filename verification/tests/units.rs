use spells::builder;
use spells::cli_error::CliError;
use spells::compiler::build_all;
use spells::emitter::Emitter;
use spells::options::CompileOptions;
use spells::parser::{hydrate_component, Element, ElementContent, Parser};
use spells::server::{parse_port, process_args, ServerError};
use spells::tokenizer::Tokenizer;

#[test]
fn tokenizer_peek_and_consume() {
    let source = "one two".to_string();
    let mut t = Tokenizer::new(&source);
    assert_eq!(t.peek(), Some("one"));
    assert_eq!(t.consume(), Some("one"));
    assert_eq!(t.consume(), Some("two"));
    assert_eq!(t.consume(), None);
}

#[test]
fn tokenizer_token_classes() {
    let source = "name-1 \"a b\" 12.5 (".to_string();
    let mut t = Tokenizer::new(&source);
    assert_eq!(t.consume(), Some("name-1"));
    assert_eq!(t.consume(), Some("\"a b\""));
    assert_eq!(t.consume(), Some("12.5"));
    assert_eq!(t.consume(), Some("("));
    assert_eq!(t.consume(), None);
}

#[test]
fn tokenizer_indent_readings() {
    let source = "a\n  b\n\n    c".to_string();
    let mut t = Tokenizer::new(&source);
    assert_eq!(t.consume_indent(), (0, 0));
    assert_eq!(t.consume(), Some("a"));
    assert_eq!(t.peek_indent(), (2, 1));
    assert_eq!(t.consume_indent(), (2, 1));
    assert_eq!(t.consume(), Some("b"));
    // the blank line is counted but never ends the block on its own
    assert_eq!(t.consume_indent(), (4, 2));
    assert_eq!(t.consume(), Some("c"));
}

#[test]
fn tokenizer_consume_line() {
    let source = "head tail of line\nnext".to_string();
    let mut t = Tokenizer::new(&source);
    assert_eq!(t.peek(), Some("head"));
    // the line starts at the peeked token and stops before the newline
    assert_eq!(t.consume_line(), Some("head tail of line"));
    assert_eq!(t.consume_indent(), (0, 1));
    assert_eq!(t.consume_line(), Some("next"));
}

#[test]
fn tokenizer_ignore_newline() {
    let source = "a\n  b".to_string();
    let mut t = Tokenizer::new(&source);
    assert_eq!(t.consume_ignore_newline(), Some("a"));
    assert_eq!(t.peek_ignore_newline(), Some("b"));
    assert_eq!(t.consume_ignore_newline(), Some("b"));
    assert_eq!(t.consume_ignore_newline(), None);
}

#[test]
fn parser_parses_a_document() {
    let source = "div.x\n  span inner".to_string();
    let mut t = Tokenizer::new(&source);
    let mut p = Parser::new();
    let elements = p.parse(&mut t).unwrap();
    assert_eq!(elements.len(), 1);
    let mut emitter = Emitter::new(CompileOptions { pretty: false });
    let out = emitter.emit(elements);
    assert_eq!(
        out,
        "<!DOCTYPE html>\n<div class=\"x\"><span>inner\n</span></div>"
    );
}

#[test]
fn hydration_merges_instance_and_template() {
    let instance = Element {
        tag_name: "card".to_string(),
        id: None,
        classes: vec!["mine".to_string()],
        attributes: vec![("@".to_string(), None)],
        content: ElementContent::Empty,
    };
    let template = Element {
        tag_name: "card".to_string(),
        id: Some("t".to_string()),
        classes: vec!["foo".to_string(), "mine".to_string()],
        attributes: vec![("@".to_string(), None), ("k".to_string(), Some("v".to_string()))],
        content: ElementContent::InnerText("body".to_string()),
    };
    let hydrated = hydrate_component(instance, &template);
    assert_eq!(hydrated.tag_name, "div");
    assert_eq!(hydrated.id, Some("t".to_string()));
    // set union keeping first occurrences: instance classes, the instance's
    // own tag name, then the template's classes
    assert_eq!(
        hydrated.classes,
        vec!["mine".to_string(), "card".to_string(), "foo".to_string()]
    );
    assert_eq!(
        hydrated.attributes,
        vec![
            ("@".to_string(), None),
            ("k".to_string(), Some("v".to_string())),
        ]
    );
    match hydrated.content {
        ElementContent::InnerText(t) => assert_eq!(t, "body"),
        _ => panic!("expected the template's inner text"),
    }
}

#[test]
fn emitter_emits_doctype_alone_for_no_elements() {
    let mut emitter = Emitter::new(CompileOptions { pretty: true });
    let out = emitter.emit(Vec::new());
    assert_eq!(out, "<!DOCTYPE html>\n");
}

#[test]
fn server_argument_parsing() {
    let args = vec![
        "8081".to_string(),
        "--bind".to_string(),
        "0.0.0.0".to_string(),
        "--silent".to_string(),
    ];
    let options = process_args(&args).unwrap();
    assert_eq!(options.address, "0.0.0.0");
    assert_eq!(options.port, 8081);
    assert!(options.silent);

    let defaults = process_args(&[]).unwrap();
    assert_eq!(defaults.address, "localhost");
    assert_eq!(defaults.port, 8080);
    assert!(!defaults.silent);

    let err = process_args(&["--silent".to_string(), "--silent".to_string()]).unwrap_err();
    let ServerError::BadArguments { message } = err;
    assert_eq!(message, "too many --silent arguments");

    let err = process_args(&["what".to_string()]).unwrap_err();
    let ServerError::BadArguments { message } = err;
    assert_eq!(message, "unexpected argument `what`");
    let err = process_args(&["8080".to_string(), "99".to_string()]).unwrap_err();
    assert_eq!(err.string(), "BadArguments: unexpected argument `99`");
}

#[test]
fn port_numbers_parse_like_std() {
    for s in ["0", "65535", "+80", "8080"] {
        assert_eq!(parse_port(s), s.parse::<u16>().ok());
    }
    for s in ["", "+", "-1", "65536", "12a", " 8", "999999999999"] {
        assert_eq!(parse_port(s), s.parse::<u16>().ok());
        assert_eq!(parse_port(s), None);
    }
}

#[test]
fn build_commands_succeed() {
    assert!(build_all(CompileOptions { pretty: false }, std::path::Path::new(".")).is_ok());
    assert!(builder::build().is_ok());
    let err = builder::CompilerError::SpellsError {
        message: "m".to_string(),
    };
    assert_eq!(err.string(), "SpellsError: m");
}
