use minipython::lexer::{Lexer, LexerErrorKind, Location, Token};
use minipython::lexer::Token::{
    Colon, Comma, CloseParen, Def, Equal, Indent, Input, MinusEqualOne, Name, NotEqualZero,
    OpenParen, Output, PlusEqualOne, Unindent, While,
};

fn lex_all<'a>(code: &'a str) -> Vec<Token<'a>> {
    let mut lexer = Lexer::new(code);
    let mut res: Vec<Token<'a>> = Vec::new();
    loop {
        match lexer.next() {
            None => break,
            Some(item) => {
                let (_, t, _) = item.unwrap();
                res.push(t);
            }
        }
    }
    res
}

fn lex_equal(code: &str, tokens: Vec<Token>) {
    let res = lex_all(code);
    assert_eq!(res, tokens);
}

#[test]
fn test_lexer_1() {
    let code = "while a != 0:";
    let tokens = vec![While, Name("a"), NotEqualZero, Colon];
    lex_equal(code, tokens);
}

#[test]
fn test_lexer_2() {
    let code = "return x";
    let tokens = vec![Token::Return, Name("x")];
    lex_equal(code, tokens);
}

#[test]
fn test_lexer_3() {
    let code = "a += 1 #test";
    let tokens = vec![Name("a"), PlusEqualOne];
    lex_equal(code, tokens);
}

#[test]
fn test_lexer_4() {
    let code = "input: a, b, c";
    let tokens = vec![Input, Colon, Name("a"), Comma, Name("b"), Comma, Name("c")];
    lex_equal(code, tokens);
}

#[test]
fn test_lexer_5() {
    let code = "def a(b, c, d): a += 1";
    let tokens = vec![
        Def,
        Name("a"),
        OpenParen,
        Name("b"),
        Comma,
        Name("c"),
        Comma,
        Name("d"),
        CloseParen,
        Colon,
        Name("a"),
        PlusEqualOne,
    ];
    lex_equal(code, tokens);
}

#[test]
fn test_lexer_6() {
    let code = "    a += 1";
    let tokens = vec![Indent, Name("a"), PlusEqualOne, Unindent];
    lex_equal(code, tokens);
}

#[test]
fn test_lexer_7() {
    let code = "def test(a, b):
    a += 1
    b -= 1
    #now return the stuff
    return a
c += 1
";
    let tokens = vec![
        Def,
        Name("test"),
        OpenParen,
        Name("a"),
        Comma,
        Name("b"),
        CloseParen,
        Colon,
        Indent,
        Name("a"),
        PlusEqualOne,
        Name("b"),
        MinusEqualOne,
        Token::Return,
        Name("a"),
        Unindent,
        Name("c"),
        PlusEqualOne,
    ];
    lex_equal(code, tokens);
}

#[test]
fn test_lexer_8() {
    let code = "a
    b
        c #test
    #asdf
d";
    let tokens = vec![
        Name("a"),
        Indent,
        Name("b"),
        Indent,
        Name("c"),
        Unindent,
        Unindent,
        Name("d"),
    ];
    lex_equal(code, tokens);
}

#[test]
fn test_lexer_9() {
    let code = "def add(a, b):
    while a != 0:
        a-=1
        b += 1
    return b
x+=1
y+=1
z=add(x, y)
z2 = add(a, c)";
    let tokens = vec![
        Def,
        Name("add"),
        OpenParen,
        Name("a"),
        Comma,
        Name("b"),
        CloseParen,
        Colon,
        Indent,
        While,
        Name("a"),
        NotEqualZero,
        Colon,
        Indent,
        Name("a"),
        MinusEqualOne,
        Name("b"),
        PlusEqualOne,
        Unindent,
        Token::Return,
        Name("b"),
        Unindent,
        Name("x"),
        PlusEqualOne,
        Name("y"),
        PlusEqualOne,
        Name("z"),
        Equal,
        Name("add"),
        OpenParen,
        Name("x"),
        Comma,
        Name("y"),
        CloseParen,
        Name("z2"),
        Equal,
        Name("add"),
        OpenParen,
        Name("a"),
        Comma,
        Name("c"),
        CloseParen,
    ];
    lex_equal(code, tokens);
}

#[test]
fn test_operator_spaces_lex_alike() {
    // spaces on either side of the `=` move only the spans, never the tokens
    let dense = lex_all("a!=0\nb+=1\nc-=1");
    let spaced = lex_all("a  !=   0\nb  +=  1\nc  -=    1");
    let spread = lex_all("a ! = 0\nb +  = 1\nc -   =  1");
    assert_eq!(dense, spaced);
    assert_eq!(dense, spread);
    assert_eq!(
        dense,
        vec![Name("a"), NotEqualZero, Name("b"), PlusEqualOne, Name("c"), MinusEqualOne]
    );
}

#[test]
fn test_tab_indentation_rejected() {
    let mut lexer = Lexer::new("\ta");
    match lexer.next() {
        Some(Err(e)) => {
            assert_eq!(e.kind, LexerErrorKind::TabIndent);
            assert_eq!(e.position, Location { line: 1, col: 1, pos: 0 });
        }
        other => panic!("expected a tab indentation error, got {:?}", other),
    }
}

#[test]
fn test_tab_after_indent_tokens() {
    // the synthesized Indent comes first, then the error at the tab
    let mut lexer = Lexer::new("a\n    \tb");
    let mut saw_error = false;
    for _ in 0..8 {
        match lexer.next() {
            Some(Err(e)) => {
                assert_eq!(e.kind, LexerErrorKind::TabIndent);
                assert_eq!(e.position, Location { line: 2, col: 5, pos: 6 });
                saw_error = true;
                break;
            }
            Some(Ok(_)) => continue,
            None => break,
        }
    }
    assert!(saw_error);
}

#[test]
fn test_unrecognized_sequence() {
    let mut lexer = Lexer::new("a+-1");
    // "a" lexes, then `+` is not followed by `=`
    assert!(matches!(lexer.next(), Some(Ok(_))));
    match lexer.next() {
        Some(Err(e)) => assert_eq!(e.kind, LexerErrorKind::Unrecognized),
        other => panic!("expected an unrecognized-sequence error, got {:?}", other),
    }
}

#[test]
fn test_indent_balance_round_trip() {
    // every Indent is matched by an Unindent once the stream ends
    let toks = lex_all("a\n    b\n        c\n    d\ne\n    f");
    let mut net: i64 = 0;
    for t in &toks {
        match t {
            Indent => net += 1,
            Unindent => net -= 1,
            _ => {}
        }
    }
    assert_eq!(net, 0);
}

#[test]
fn test_positions_reported() {
    let mut lexer = Lexer::new("while");
    match lexer.next() {
        Some(Ok((start, t, end))) => {
            assert_eq!(t, While);
            assert_eq!(start, Location { line: 1, col: 1, pos: 0 });
            assert_eq!(end, Location { line: 1, col: 6, pos: 5 });
        }
        other => panic!("expected a token, got {:?}", other),
    }
}

#[test]
fn test_partial_indent_levels_dropped() {
    // only whole 4-space levels count; a remainder is silently ignored
    let toks = lex_all("a\n   b\nc");
    assert_eq!(toks, vec![Name("a"), Name("b"), Name("c")]);
    let toks7 = lex_all("a\n       b\nc");
    assert_eq!(toks7, vec![Name("a"), Indent, Name("b"), Unindent, Name("c")]);
}

#[test]
fn test_carriage_returns_skipped() {
    let toks = lex_all("a\r\nb");
    assert_eq!(toks, vec![Name("a"), Name("b")]);
}

#[test]
fn test_comment_line_keeps_indentation() {
    // a comment-only line still measures its leading spaces
    let toks = lex_all("a\n    b\n#back to the margin\nc");
    assert_eq!(toks, vec![Name("a"), Indent, Name("b"), Unindent, Name("c")]);
}

#[test]
fn test_keywords_and_names() {
    let toks = lex_all("while input output def return whilee");
    assert_eq!(
        toks,
        vec![While, Input, Output, Def, Token::Return, Name("whilee")]
    );
}
