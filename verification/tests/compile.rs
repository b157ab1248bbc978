use spells::cli_error::CliError;
use spells::compiler::build_source_string;
use spells::error::CompilerError;
use spells::options::CompileOptions;

fn compile(pretty: bool, source: &str) -> Result<String, CompilerError> {
    build_source_string(CompileOptions { pretty }, source.to_string())
}

#[test]
fn test() {
    let source = "
some-tokens.and.some.others(@ do=\"this!\",and-others=dont).
  Nice!
    Another!
  Please!
div.123(value=\"some\")
  h1(some-attribute=\"@{value} nice!\") Yay! Content!
some-tokens(@)
"
    .to_string();
    let out = build_source_string(CompileOptions { pretty: true }, source);
    let expected = "<!DOCTYPE html>\n<div value=\"some\" class=\"123\">\n  <h1 some-attribute=\"some nice!\">\nYay! Content!\n  </h1>\n</div>\n<div @ do=\"this!\" and-others=dont class=\"some-tokens and some others\">\nNice!\n  Another!\nPlease!\n</div>\n";
    assert_eq!(out.unwrap(), expected);
}

#[test]
fn indentation_gate() {
    let out = compile(false, "  div");
    match out {
        Err(CompilerError::IndentationError(m)) => {
            assert_eq!(m, "Expected 0 indentation in start of file, found 2.");
        }
        _ => panic!("expected an indentation error"),
    }
    let err = compile(true, "   span").unwrap_err();
    assert_eq!(
        err.string(),
        "IndentationError: Expected 0 indentation in start of file, found 3."
    );
}

#[test]
fn tag_defaulting() {
    let out = compile(false, ".foo").unwrap();
    assert_eq!(out, "<!DOCTYPE html>\n<div class=\"foo\"></div>");
}

#[test]
fn void_tags_never_close() {
    let plain = compile(false, "img").unwrap();
    assert_eq!(plain, "<!DOCTYPE html>\n<img>");
    assert!(!plain.contains("</img>"));
    let pretty = compile(true, "img").unwrap();
    assert_eq!(pretty, "<!DOCTYPE html>\n<img>\n");
    assert!(!pretty.contains("</img>"));
}

#[test]
fn attribute_value_interpolation() {
    let out = compile(false, "div(value=\"X\")\n  child(a=\"@{value}!\")").unwrap();
    assert_eq!(
        out,
        "<!DOCTYPE html>\n<div value=\"X\"><child a=\"X!\"></child></div>"
    );
}

#[test]
fn interpolation_skips_whitespace_in_braces() {
    let out = compile(false, "div(value=\"X\")\n  child(a=\"@{ value }!\")").unwrap();
    assert_eq!(
        out,
        "<!DOCTYPE html>\n<div value=\"X\"><child a=\"X!\"></child></div>"
    );
}

#[test]
fn interpolation_unterminated_brace_is_literal() {
    let out = compile(false, "div(a=\"x@{oops\")").unwrap();
    assert_eq!(out, "<!DOCTYPE html>\n<div a=\"x@{oops\"></div>");
}

#[test]
fn unresolved_variable_empty() {
    let out = compile(false, "div(a=\"pre@{missing}post\")").unwrap();
    assert_eq!(out, "<!DOCTYPE html>\n<div a=\"prepost\"></div>");
}

#[test]
fn component_hydration_union() {
    let out = compile(false, "card(@).foo\n  h1 Hi\ncard(@)").unwrap();
    assert_eq!(
        out,
        "<!DOCTYPE html>\n<div @ class=\"card foo\"><h1>Hi\n</h1></div>"
    );
}

#[test]
fn scope_isolation() {
    let out = compile(false, "wrapper\n  box(@)\n    h1 Hidden\nbox(@)").unwrap();
    assert_eq!(out, "<!DOCTYPE html>\n<wrapper></wrapper>");
    assert!(!out.contains("box"));
    assert!(!out.contains("Hidden"));
}

#[test]
fn round_trip_stability() {
    let source = "main\n  div.a(x=\"1\")\n    p @{x} text\nimg";
    let first = compile(true, source).unwrap();
    let second = compile(true, source).unwrap();
    assert_eq!(first, second);
    let third = compile(false, source).unwrap();
    let fourth = compile(false, source).unwrap();
    assert_eq!(third, fourth);
}

#[test]
fn plaintext_tags_bypass() {
    let out = compile(false, "style body { color: red }").unwrap();
    assert_eq!(out, "<!DOCTYPE html>\n<style>body { color: red }\n</style>");
    let out = compile(false, "script if (a<b) { go(\"#now\") }").unwrap();
    assert_eq!(
        out,
        "<!DOCTYPE html>\n<script>if (a<b) { go(\"#now\") }\n</script>"
    );
}

#[test]
fn multiline_literal_text() {
    let out = compile(false, "pre.\n  line one\n    deeper\n  back").unwrap();
    assert_eq!(out, "<!DOCTYPE html>\n<pre>line one\n  deeper\nback\n</pre>");
}

#[test]
fn multiline_blank_lines() {
    let out = compile(false, "pre.\n  a\n\n  b").unwrap();
    assert_eq!(out, "<!DOCTYPE html>\n<pre>a\n\nb\n</pre>");
}

#[test]
fn multiline_not_deeper_is_empty() {
    // The block after a bare dot must be indented deeper than the element;
    // a line at the same indentation is not part of it.
    let out = compile(false, "pre.\nspan").unwrap();
    assert_eq!(out, "<!DOCTYPE html>\n<pre></pre><span></span>");
}

#[test]
fn unterminated_string_token() {
    // An unterminated quoted string is consumed to the end of the input and
    // stays a recoverable lexical edge case rather than a hard error.
    let out = compile(false, "div \"abc").unwrap();
    assert_eq!(out, "<!DOCTYPE html>\n<div>\"abc\n</div>");
}

#[test]
fn unterminated_attribute_list() {
    let err = compile(false, "div(a=1").unwrap_err();
    match &err {
        CompilerError::ParseError(m) => {
            assert_eq!(m, "Unterminated attribute list at end of input.");
        }
        _ => panic!("expected a parse error"),
    }
    assert_eq!(
        err.string(),
        "ParseError: Unterminated attribute list at end of input."
    );
}

#[test]
fn empty_source() {
    assert_eq!(compile(false, "").unwrap(), "<!DOCTYPE html>\n");
    assert_eq!(compile(false, "\n\n").unwrap(), "<!DOCTYPE html>\n");
}

#[test]
fn id_modifier_last_wins() {
    let out = compile(false, "div#main.a#late").unwrap();
    assert_eq!(out, "<!DOCTYPE html>\n<div id=\"late\" class=\"a\"></div>");
}

#[test]
fn attributes_across_lines() {
    let out = compile(false, "div(a=1,\n  b=2) text").unwrap();
    assert_eq!(out, "<!DOCTYPE html>\n<div a=1 b=2>text\n</div>");
}

#[test]
fn pretty_nested_children() {
    let out = compile(true, "main\n  div\n    p hello").unwrap();
    let expected = "<!DOCTYPE html>\n<main>\n  <div>\n    <p>\nhello\n    </p>\n  </div>\n</main>\n";
    assert_eq!(out, expected);
}
