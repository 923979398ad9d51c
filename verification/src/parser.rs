use vstd::prelude::*;

verus! {

use vstd::string::StringExecFns;
use crate::ast::{Ast, AstModel, Program, ProgramModel, ast_view, asts_view};
use crate::ir::{block_defs_ok, program_defs_ok, stmt_no_def, stmts_no_defs, lemma_asts_view_push};
use crate::lexer::{Lexer, Token, lemma_indent_balance, lemma_lex_next_progress, lemma_lexer_inv};
use crate::name::{InternedName, NameStore};

/// Collects the whole token stream, or fails on the first lexing fault.
fn lex_all_tokens<'a>(code: &'a str) -> (r: Result<Vec<Token<'a>>, String>)
    requires
        code@.len() < usize::MAX,
{
    let mut lexer = Lexer::new(code);
    let mut tokens: Vec<Token<'a>> = Vec::new();
    loop
        invariant
            lexer.inv(),
        decreases
                lexer@.input.len() - lexer@.i,
                (if lexer@.parse_indent { 1int } else { 0int }),
                (if !(0 <= lexer@.i < lexer@.input.len()) && lexer@.indent_count > 0 {
                    1int
                } else {
                    0int
                }),
                lexer@.buffer.len(),
    {
        let ghost mp = lexer@;
        proof {
            lemma_lexer_inv(&lexer);
            lemma_lex_next_progress(mp);
            lemma_indent_balance(mp);
        }
        match lexer.next() {
            None => {
                return Ok(tokens);
            }
            Some(Ok((_, t, _))) => {
                tokens.push(t);
            }
            Some(Err(_)) => {
                return Err(String::from_str("lexing failed"));
            }
        }
    }
}

/// Reads one name token and interns its spelling.
fn expect_name(tokens: &Vec<Token<'_>>, i: usize, store: &mut NameStore) -> (r: Result<
    (InternedName, usize),
    String,
>)
    requires
        old(store).wf(),
    ensures
        final(store).wf(),
        final(store)@.len() >= old(store)@.len(),
        match r {
            Ok((n, j)) => j == i + 1 && i < tokens@.len() && 0 <= n.id() < final(store)@.len(),
            Err(_) => true,
        },
{
    if i < tokens.len() {
        match &tokens[i] {
            Token::Name(s) => {
                let n = store.register(*s);
                Ok((n, i + 1))
            },
            _ => Err(String::from_str("expected a name")),
        }
    } else {
        Err(String::from_str("expected a name, found end of input"))
    }
}

/// Reads a parenthesized, comma-separated, possibly empty name list,
/// starting at the opening parenthesis.
fn parse_name_list(tokens: &Vec<Token<'_>>, start: usize, store: &mut NameStore) -> (r: Result<
    (Vec<InternedName>, usize),
    String,
>)
    requires
        old(store).wf(),
    ensures
        final(store).wf(),
        final(store)@.len() >= old(store)@.len(),
        match r {
            Ok((names, end)) => {
                &&& start < end <= tokens@.len()
                &&& forall|k: int|
                    0 <= k < names@.len() ==> 0 <= (#[trigger] names@[k]).id() < final(store)@.len()
            },
            Err(_) => true,
        },
{
    let n = tokens.len();
    if start >= n {
        return Err(String::from_str("expected an argument list, found end of input"));
    }
    match &tokens[start] {
        Token::OpenParen => {},
        _ => {
            return Err(String::from_str("expected an opening parenthesis"));
        },
    }
    let mut names: Vec<InternedName> = Vec::new();
    let mut i = start + 1;
    if i < n {
        match &tokens[i] {
            Token::CloseParen => {
                return Ok((names, i + 1));
            },
            _ => {},
        }
    }
    loop
        invariant
            store.wf(),
            store@.len() >= old(store)@.len(),
            n == tokens@.len(),
            start < i <= n,
            forall|k: int|
                0 <= k < names@.len() ==> 0 <= (#[trigger] names@[k]).id() < store@.len(),
        decreases n - i,
    {
        let (name, j) = match expect_name(tokens, i, store) {
            Ok(x) => x,
            Err(e) => {
                return Err(e);
            },
        };
        names.push(name);
        i = j;
        if i >= n {
            return Err(String::from_str("unterminated argument list"));
        }
        match &tokens[i] {
            Token::Comma => {
                i = i + 1;
            },
            Token::CloseParen => {
                return Ok((names, i + 1));
            },
            _ => {
                return Err(String::from_str("expected a comma or a closing parenthesis"));
            },
        }
    }
}

/// Every name in the statement is a handle below `n`: one the store that
/// parsed it has issued, so lookups of it answer.
pub open spec fn stmt_names_lt(a: AstModel, n: int) -> bool
    decreases a,
{
    match a {
        AstModel::Def { name, parameters, body } => {
            &&& name.id() < n
            &&& (forall|k: int| 0 <= k < parameters.len() ==> (#[trigger] parameters[k]).id() < n)
            &&& stmts_names_lt(body, n)
        },
        AstModel::Return(m) => m.id() < n,
        AstModel::While { cond_var, body } => cond_var.id() < n && stmts_names_lt(body, n),
        AstModel::Assign { var_name, fun_name, args } => {
            &&& var_name.id() < n
            &&& fun_name.id() < n
            &&& (forall|k: int| 0 <= k < args.len() ==> (#[trigger] args[k]).id() < n)
        },
        AstModel::Incr(m) => m.id() < n,
        AstModel::Decr(m) => m.id() < n,
    }
}

pub open spec fn stmts_names_lt(s: Seq<AstModel>, n: int) -> bool
    decreases s,
{
    forall|k: int| 0 <= k < s.len() ==> stmt_names_lt(#[trigger] s[k], n)
}

/// Every name anywhere in the program is a handle below `n`.
pub open spec fn program_names_lt(p: ProgramModel, n: int) -> bool {
    &&& (forall|k: int| 0 <= k < p.inputs.len() ==> (#[trigger] p.inputs[k]).id() < n)
    &&& p.output.id() < n
    &&& stmts_names_lt(p.body, n)
}

/// A bound on the issued handles stays one when the store grows.
proof fn lemma_stmt_names_lt_mono(a: AstModel, n: int, m: int)
    requires
        stmt_names_lt(a, n),
        n <= m,
    ensures
        stmt_names_lt(a, m),
    decreases a,
{
    match a {
        AstModel::Def { name, parameters, body } => {
            lemma_stmts_names_lt_mono(body, n, m);
        },
        AstModel::While { cond_var, body } => {
            lemma_stmts_names_lt_mono(body, n, m);
        },
        _ => {},
    }
}

proof fn lemma_stmts_names_lt_mono(s: Seq<AstModel>, n: int, m: int)
    requires
        stmts_names_lt(s, n),
        n <= m,
    ensures
        stmts_names_lt(s, m),
    decreases s,
{
    assert forall|k: int| 0 <= k < s.len() implies stmt_names_lt(#[trigger] s[k], m) by {
        lemma_stmt_names_lt_mono(s[k], n, m);
    }
}

/// Appending a well-shaped statement keeps a block well shaped.
proof fn lemma_stmts_push_ok(s: Seq<Ast>, x: Ast, top_level: bool)
    requires
        block_defs_ok(asts_view(s)),
        !top_level ==> stmts_no_defs(asts_view(s)),
        match ast_view(x) {
            crate::ast::AstModel::Def { body, .. } => top_level && stmts_no_defs(body),
            _ => stmt_no_def(ast_view(x)),
        },
    ensures
        block_defs_ok(asts_view(s.push(x))),
        !top_level ==> stmts_no_defs(asts_view(s.push(x))),
{
    lemma_asts_view_push(s, x);
    let v = asts_view(s.push(x));
    assert(forall|k: int| 0 <= k < asts_view(s).len() ==> v[k] == #[trigger] asts_view(s)[k]);
    assert(v[v.len() - 1] == ast_view(x));
    assert forall|k: int| 0 <= k < v.len() implies match #[trigger] v[k] {
        crate::ast::AstModel::Def { body, .. } => stmts_no_defs(body),
        _ => stmt_no_def(v[k]),
    } by {
        if k < v.len() - 1 {
            assert(v[k] == asts_view(s)[k]);
        }
    }
    if !top_level {
        assert forall|k: int| 0 <= k < v.len() implies stmt_no_def(#[trigger] v[k]) by {
            if k < v.len() - 1 {
                assert(v[k] == asts_view(s)[k]);
            }
        }
    }
}

/// Appending a statement whose names are in bound keeps the block's names
/// in bound.
proof fn lemma_stmts_push_names(s: Seq<Ast>, x: Ast, n: int)
    requires
        stmts_names_lt(asts_view(s), n),
        stmt_names_lt(ast_view(x), n),
    ensures
        stmts_names_lt(asts_view(s.push(x)), n),
{
    lemma_asts_view_push(s, x);
    let v = asts_view(s.push(x));
    assert forall|k: int| 0 <= k < v.len() implies stmt_names_lt(#[trigger] v[k], n) by {
        if k < v.len() - 1 {
            assert(v[k] == asts_view(s)[k]);
        }
    }
}

/// Parses a run of statements starting at `start`, stopping before an
/// unindent or at the end of the stream. Definitions are accepted only at
/// the top level; their bodies and loop bodies are indented suites.
fn parse_statements<'a>(
    tokens: &Vec<Token<'a>>,
    start: usize,
    store: &mut NameStore,
    top_level: bool,
) -> (r: Result<(Vec<Ast>, usize), String>)
    requires
        old(store).wf(),
    ensures
        final(store).wf(),
        final(store)@.len() >= old(store)@.len(),
        match r {
            Ok((stmts, end)) => {
                &&& start <= end <= tokens@.len()
                &&& block_defs_ok(asts_view(stmts@))
                &&& (!top_level ==> stmts_no_defs(asts_view(stmts@)))
                &&& stmts_names_lt(asts_view(stmts@), final(store)@.len() as int)
            },
            Err(_) => true,
        },
    decreases tokens@.len() - start,
{
    let n = tokens.len();
    if start > n {
        return Err(String::from_str("statement run starts past the end of input"));
    }
    let mut stmts: Vec<Ast> = Vec::new();
    let mut i = start;
    proof {
        assert(asts_view(stmts@) =~= Seq::<crate::ast::AstModel>::empty());
    }
    loop
        invariant
            store.wf(),
            store@.len() >= old(store)@.len(),
            n == tokens@.len(),
            start <= i <= n,
            block_defs_ok(asts_view(stmts@)),
            !top_level ==> stmts_no_defs(asts_view(stmts@)),
            stmts_names_lt(asts_view(stmts@), store@.len() as int),
        ensures
            store.wf(),
            store@.len() >= old(store)@.len(),
            start <= i <= n,
            block_defs_ok(asts_view(stmts@)),
            !top_level ==> stmts_no_defs(asts_view(stmts@)),
            stmts_names_lt(asts_view(stmts@), store@.len() as int),
        decreases n - i,
    {
        if i >= n {
            break ;
        }
        let ghost sprev = stmts@;
        let ghost slen0 = store@.len();
        match &tokens[i] {
            Token::Unindent => {
                break ;
            },
            Token::Def => {
                if !top_level {
                    return Err(
                        String::from_str("a definition may only appear at the top level"),
                    );
                }
                let (fname, j) = match expect_name(tokens, i + 1, store) {
                    Ok(x) => x,
                    Err(e) => {
                        return Err(e);
                    },
                };
                let (params, k) = match parse_name_list(tokens, j, store) {
                    Ok(x) => x,
                    Err(e) => {
                        return Err(e);
                    },
                };
                if k >= n {
                    return Err(String::from_str("expected a colon, found end of input"));
                }
                match &tokens[k] {
                    Token::Colon => {},
                    _ => {
                        return Err(String::from_str("expected a colon"));
                    },
                }
                if k + 1 >= n {
                    return Err(String::from_str("expected an indented body"));
                }
                match &tokens[k + 1] {
                    Token::Indent => {},
                    _ => {
                        return Err(String::from_str("expected an indented body"));
                    },
                }
                let (body, e) = match parse_statements(tokens, k + 2, store, false) {
                    Ok(x) => x,
                    Err(e) => {
                        return Err(e);
                    },
                };
                if e >= n {
                    return Err(String::from_str("unterminated body"));
                }
                match &tokens[e] {
                    Token::Unindent => {},
                    _ => {
                        return Err(String::from_str("unterminated body"));
                    },
                }
                let stmt = Ast::Def { name: fname, parameters: params, body };
                proof {
                    lemma_stmts_push_ok(sprev, stmt, top_level);
                    lemma_stmts_names_lt_mono(asts_view(sprev), slen0 as int, store@.len() as int);
                    lemma_stmts_push_names(sprev, stmt, store@.len() as int);
                }
                stmts.push(stmt);
                i = e + 1;
            },
            Token::While => {
                let (cond, j) = match expect_name(tokens, i + 1, store) {
                    Ok(x) => x,
                    Err(e) => {
                        return Err(e);
                    },
                };
                if j >= n {
                    return Err(String::from_str("unterminated loop header"));
                }
                match &tokens[j] {
                    Token::NotEqualZero => {},
                    _ => {
                        return Err(String::from_str("expected the not-equal-to-zero operator"));
                    },
                }
                if j + 1 >= n {
                    return Err(String::from_str("unterminated loop header"));
                }
                match &tokens[j + 1] {
                    Token::Colon => {},
                    _ => {
                        return Err(String::from_str("expected a colon"));
                    },
                }
                if j + 2 >= n {
                    return Err(String::from_str("expected an indented body"));
                }
                match &tokens[j + 2] {
                    Token::Indent => {},
                    _ => {
                        return Err(String::from_str("expected an indented body"));
                    },
                }
                let (body, e) = match parse_statements(tokens, j + 3, store, false) {
                    Ok(x) => x,
                    Err(e) => {
                        return Err(e);
                    },
                };
                if e >= n {
                    return Err(String::from_str("unterminated body"));
                }
                match &tokens[e] {
                    Token::Unindent => {},
                    _ => {
                        return Err(String::from_str("unterminated body"));
                    },
                }
                let stmt = Ast::While { cond_var: cond, body };
                proof {
                    lemma_stmts_push_ok(sprev, stmt, top_level);
                    lemma_stmts_names_lt_mono(asts_view(sprev), slen0 as int, store@.len() as int);
                    lemma_stmts_push_names(sprev, stmt, store@.len() as int);
                }
                stmts.push(stmt);
                i = e + 1;
            },
            Token::Return => {
                let (name, j) = match expect_name(tokens, i + 1, store) {
                    Ok(x) => x,
                    Err(e) => {
                        return Err(e);
                    },
                };
                let stmt = Ast::Return(name);
                proof {
                    lemma_stmts_push_ok(sprev, stmt, top_level);
                    lemma_stmts_names_lt_mono(asts_view(sprev), slen0 as int, store@.len() as int);
                    lemma_stmts_push_names(sprev, stmt, store@.len() as int);
                }
                stmts.push(stmt);
                i = j;
            },
            Token::Name(s) => {
                let var = store.register(*s);
                if i + 1 >= n {
                    return Err(String::from_str("dangling name at end of input"));
                }
                match &tokens[i + 1] {
                    Token::PlusEqualOne => {
                        let stmt = Ast::Incr(var);
                        proof {
                            lemma_stmts_push_ok(sprev, stmt, top_level);
                            lemma_stmts_names_lt_mono(asts_view(sprev), slen0 as int, store@.len() as int);
                            lemma_stmts_push_names(sprev, stmt, store@.len() as int);
                        }
                        stmts.push(stmt);
                        i = i + 2;
                    },
                    Token::MinusEqualOne => {
                        let stmt = Ast::Decr(var);
                        proof {
                            lemma_stmts_push_ok(sprev, stmt, top_level);
                            lemma_stmts_names_lt_mono(asts_view(sprev), slen0 as int, store@.len() as int);
                            lemma_stmts_push_names(sprev, stmt, store@.len() as int);
                        }
                        stmts.push(stmt);
                        i = i + 2;
                    },
                    Token::Equal => {
                        let (fun, j) = match expect_name(tokens, i + 2, store) {
                            Ok(x) => x,
                            Err(e) => {
                                return Err(e);
                            },
                        };
                        let (args, e) = match parse_name_list(tokens, j, store) {
                            Ok(x) => x,
                            Err(e) => {
                                return Err(e);
                            },
                        };
                        let stmt = Ast::Assign { var_name: var, fun_name: fun, args };
                        proof {
                            lemma_stmts_push_ok(sprev, stmt, top_level);
                            lemma_stmts_names_lt_mono(asts_view(sprev), slen0 as int, store@.len() as int);
                            lemma_stmts_push_names(sprev, stmt, store@.len() as int);
                        }
                        stmts.push(stmt);
                        i = e;
                    },
                    _ => {
                        return Err(
                            String::from_str("expected an increment, a decrement or a call"),
                        );
                    },
                }
            },
            _ => {
                return Err(String::from_str("unexpected token"));
            },
        }
    }
    Ok((stmts, i))
}

/// Parses a whole program: the declared inputs, the declared output, and
/// the top-level statements. A successfully parsed program has
/// definitions only at its top level, and every name in it is a handle
/// the returned store has issued, so lookups of it answer.
pub fn parse_program(code: &str) -> (r: (NameStore, Result<Program, String>))
    requires
        code@.len() < usize::MAX,
    ensures
        r.0.wf(),
        match r.1 {
            Ok(p) => program_defs_ok(p.deep_view()) && program_names_lt(
                p.deep_view(),
                r.0@.len() as int,
            ),
            Err(_) => true,
        },
{
    let mut store = NameStore::new();
    let tokens = match lex_all_tokens(code) {
        Ok(t) => t,
        Err(e) => {
            return (store, Err(e));
        },
    };
    let n = tokens.len();
    if n < 1 {
        return (store, Err(String::from_str("empty program")));
    }
    match &tokens[0] {
        Token::Input => {},
        _ => {
            return (store, Err(String::from_str("expected the input declaration")));
        },
    }
    if n < 2 {
        return (store, Err(String::from_str("expected a colon")));
    }
    match &tokens[1] {
        Token::Colon => {},
        _ => {
            return (store, Err(String::from_str("expected a colon")));
        },
    }
    let mut inputs: Vec<InternedName> = Vec::new();
    let mut i: usize = 2;
    loop
        invariant
            store.wf(),
            n == tokens@.len(),
            2 <= i <= n,
            forall|k: int|
                0 <= k < inputs@.len() ==> 0 <= (#[trigger] inputs@[k]).id() < store@.len(),
        decreases n - i,
    {
        if i >= n {
            return (store, Err(String::from_str("expected the output declaration")));
        }
        match &tokens[i] {
            Token::Output => {
                break ;
            },
            Token::Name(s) => {
                let name = store.register(*s);
                inputs.push(name);
                i = i + 1;
                if i < n {
                    match &tokens[i] {
                        Token::Comma => {
                            i = i + 1;
                        },
                        _ => {},
                    }
                }
            },
            _ => {
                return (store, Err(String::from_str("expected an input name")));
            },
        }
    }
    if i >= n {
        return (store, Err(String::from_str("expected the output declaration")));
    }
    if i + 1 >= n {
        return (store, Err(String::from_str("expected a colon")));
    }
    match &tokens[i + 1] {
        Token::Colon => {},
        _ => {
            return (store, Err(String::from_str("expected a colon")));
        },
    }
    let (output, j) = match expect_name(&tokens, i + 2, &mut store) {
        Ok(x) => x,
        Err(e) => {
            return (store, Err(e));
        },
    };
    let (body, end) = match parse_statements(&tokens, j, &mut store, true) {
        Ok(x) => x,
        Err(e) => {
            return (store, Err(e));
        },
    };
    if end != n {
        return (store, Err(String::from_str("trailing tokens after the program")));
    }
    (store, Ok(Program { body, inputs, output }))
}

/// Parses a bare statement block, as the top level of a program body; the
/// same shape and handle guarantees hold of it.
pub fn parse_block(code: &str) -> (r: (NameStore, Result<Vec<Ast>, String>))
    requires
        code@.len() < usize::MAX,
    ensures
        r.0.wf(),
        match r.1 {
            Ok(stmts) => block_defs_ok(asts_view(stmts@)) && stmts_names_lt(
                asts_view(stmts@),
                r.0@.len() as int,
            ),
            Err(_) => true,
        },
{
    let mut store = NameStore::new();
    let tokens = match lex_all_tokens(code) {
        Ok(t) => t,
        Err(e) => {
            return (store, Err(e));
        },
    };
    let n = tokens.len();
    let (stmts, end) = match parse_statements(&tokens, 0, &mut store, true) {
        Ok(x) => x,
        Err(e) => {
            return (store, Err(e));
        },
    };
    if end != n {
        return (store, Err(String::from_str("trailing tokens after the block")));
    }
    (store, Ok(stmts))
}

} // verus!
