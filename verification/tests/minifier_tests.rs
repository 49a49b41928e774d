use lpm::bundler::minifier::minify;
use lpm::compiler::lexer::Lexer;
use lpm::compiler::lexer::Token;

fn significant_tokens(input: &str) -> Vec<Token> {
    let mut lexer = Lexer::new(input);
    let mut out = Vec::new();
    loop {
        let t = lexer.next_token().expect("tokenizer failed");
        match t {
            Token::Eof => break,
            Token::Whitespace | Token::Comment(_) => {}
            other => out.push(other),
        }
    }
    out
}

#[test]
fn scenario_minifies_comment_and_assignment() {
    // `--[[ c ]] local x = "hi"` minifies to `local x="hi"`
    let out = minify(&"--[[ c ]] local x = \"hi\"".to_string()).unwrap();
    assert_eq!(out, "local x=\"hi\"");
}

#[test]
fn literal_with_embedded_double_quote_uses_bracket_form() {
    let out = minify(&"local s = 'say \"hi\"'".to_string()).unwrap();
    assert_eq!(out, "local s=[[say \"hi\"]]");
}

#[test]
fn literal_with_newline_uses_bracket_form() {
    let out = minify(&"local s = [[a\nb]]".to_string()).unwrap();
    assert_eq!(out, "local s=[[a\nb]]");
}

#[test]
fn plain_literal_uses_double_quotes() {
    let out = minify(&"local s = 'plain'".to_string()).unwrap();
    assert_eq!(out, "local s=\"plain\"");
}

#[test]
fn space_kept_only_between_wordlike_tokens() {
    let out = minify(&"return  x  +  1".to_string()).unwrap();
    assert_eq!(out, "return x+1");
}

#[test]
fn minify_is_idempotent_on_ordinary_source() {
    let src = "-- header\nlocal function f(a, b)\n  return a + b -- sum\nend\nprint(f(1, 2))\n"
        .to_string();
    let once = minify(&src).unwrap();
    let twice = minify(&once).unwrap();
    assert_eq!(once, twice);
}

#[test]
fn minified_output_keeps_the_significant_tokens() {
    let src = "--[[ c ]] local x = 12 -- tail\nreturn x + 1\n";
    let out = minify(&src.to_string()).unwrap();
    assert_eq!(significant_tokens(src), significant_tokens(&out));
}

#[test]
fn minifying_a_bundle_is_stable() {
    let files = vec![
        (
            "main.lua".to_string(),
            "local u = require(\"utils\")\nu.go(\"now\")\n".to_string(),
        ),
        (
            "utils.lua".to_string(),
            "-- helpers\nreturn { go = function(s) print(s) end }\n".to_string(),
        ),
    ];
    let mut bundler = lpm::bundler::bundler::LuaBundler::new();
    let bundle = bundler.bundle(&"main.lua".to_string(), &files).unwrap();
    let once = minify(&bundle).unwrap();
    let twice = minify(&once).unwrap();
    assert_eq!(once, twice);
    assert_eq!(significant_tokens(&bundle), significant_tokens(&once));
}

#[test]
fn minify_reports_malformed_input() {
    let err = minify(&"x [[open".to_string()).unwrap_err();
    assert_eq!(err.position, 2);
}
