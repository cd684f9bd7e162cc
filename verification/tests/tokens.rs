//! Tests of the tokenizer: token categories, literal handling, and comment
//! stripping.

use lexparse::lexer::{Lexer, Source, Token};

fn lex_all(text: &str) -> Vec<(String, String)> {
    let mut lx = Lexer::new(Source::new(text));
    lx.lex();
    lx.get_tokens()
        .iter()
        .map(|t: &Token| (t.id.clone(), t.value.clone()))
        .collect()
}

/// `a` occurs within `b` in order, each character of `b` used at most once.
fn is_subsequence(a: &str, b: &str) -> bool {
    let av: Vec<char> = a.chars().collect();
    let bv: Vec<char> = b.chars().collect();
    let mut i = 0;
    for c in bv {
        if i < av.len() && av[i] == c {
            i += 1;
        }
    }
    i == av.len()
}

#[test]
fn tokenize_assignment() {
    let ts = lex_all("x = 1");
    assert_eq!(ts.len(), 3);
    assert_eq!(ts[0], ("ITEM".to_string(), "x".to_string()));
    assert_eq!(ts[1], ("OPER_EQUAL".to_string(), "=".to_string()));
    assert_eq!(ts[2], ("NUMBER_LIT".to_string(), "1".to_string()));
}

#[test]
fn tokenize_string_literal() {
    let ts = lex_all("'hello'");
    assert_eq!(ts.len(), 1);
    assert_eq!(ts[0], ("STRING_LIT".to_string(), "hello".to_string()));
}

#[test]
fn tokenize_other_quote_kind() {
    let ts = lex_all("\"hi there\"");
    assert_eq!(ts.len(), 1);
    assert_eq!(ts[0], ("STRING_LIT".to_string(), "hi there".to_string()));
}

#[test]
fn tokenize_unterminated_string() {
    let ts = lex_all("'abc");
    assert_eq!(ts.len(), 1);
    assert_eq!(ts[0], ("STRING_LIT".to_string(), "abc".to_string()));
}

#[test]
fn tokenize_number_with_dot() {
    let ts = lex_all("1.5 ");
    assert_eq!(ts.len(), 1);
    assert_eq!(ts[0], ("NUMBER_LIT".to_string(), "1.5".to_string()));
}

#[test]
fn tokenize_call_form() {
    let ts = lex_all("x(1,2)");
    let ids: Vec<&str> = ts.iter().map(|(id, _)| id.as_str()).collect();
    assert_eq!(
        ids,
        vec!["ITEM", "OPEN_PAREN", "NUMBER_LIT", "SYMB_COMMA", "NUMBER_LIT", "CLOS_PAREN"]
    );
    assert_eq!(ts[2].1, "1");
    assert_eq!(ts[4].1, "2");
}

#[test]
fn tokenize_braces_group_like_parens() {
    let ts = lex_all("f{2}");
    let ids: Vec<&str> = ts.iter().map(|(id, _)| id.as_str()).collect();
    assert_eq!(ids, vec!["ITEM", "OPEN_PAREN", "NUMBER_LIT", "CLOS_PAREN"]);
}

#[test]
fn tokenize_pipe_is_dropped() {
    // Of the multi-character composition set, only `=` alone is a symbol;
    // a lone pipe is dropped, and it discards the pending buffer.
    let ts = lex_all("x | y");
    assert_eq!(ts.len(), 1);
    assert_eq!(ts[0], ("ITEM".to_string(), "x".to_string()));
}

#[test]
fn token_text_is_subsequence_of_source() {
    for text in ["x = 1", "x(1,2)", "a + 'b c' ; d", "# gone\n n = 2.5"] {
        let stripped = Source::new(text).strip_comments();
        let ts = lex_all(text);
        let joined: String = ts.iter().map(|(_, v)| v.as_str()).collect::<Vec<&str>>().join("");
        assert!(is_subsequence(&joined, &stripped));
    }
}

#[test]
fn strip_comments_drops_comment_lines_and_trims() {
    let s = Source::new("# note\n  x = 1  \n# more");
    assert_eq!(s.strip_comments(), "x = 1");
}

#[test]
fn strip_comments_keeps_blank_lines() {
    let s = Source::new("a\n   \nb");
    assert_eq!(s.strip_comments(), "a\n\nb");
}

#[test]
fn tokenize_less_than() {
    let ts = lex_all("a < b;");
    assert_eq!(ts.len(), 4);
    assert_eq!(ts[0], ("ITEM".to_string(), "a".to_string()));
    assert_eq!(ts[1], ("OPER_IS_LESS".to_string(), "<".to_string()));
    assert_eq!(ts[2], ("ITEM".to_string(), "b".to_string()));
    assert_eq!(ts[3], ("CLOS_EXPRN".to_string(), ";".to_string()));
}

#[test]
fn tokenize_more_than_flushes_pending_item() {
    let ts = lex_all("a>3 ");
    assert_eq!(ts.len(), 3);
    assert_eq!(ts[0], ("ITEM".to_string(), "a".to_string()));
    assert_eq!(ts[1], ("OPER_IS_MORE".to_string(), ">".to_string()));
    assert_eq!(ts[2], ("NUMBER_LIT".to_string(), "3".to_string()));
}

#[test]
fn assignment_symbol_discards_pending_text() {
    // The multi-character composition branch clears the buffer without
    // flushing it as an item.
    let ts = lex_all("ab=");
    assert_eq!(ts.len(), 1);
    assert_eq!(ts[0], ("OPER_EQUAL".to_string(), "=".to_string()));
}

#[test]
fn token_new_keeps_id_and_value() {
    let t = Token::new("ITEM", "abc");
    assert_eq!(t.id, "ITEM");
    assert_eq!(t.value, "abc");
}
