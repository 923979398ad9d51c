use minipython::ast::{Ast, Program};
use minipython::ast::Ast::{Assign, Decr, Def, Incr, Return, While};
use minipython::parser::{parse_block, parse_program};
use minipython::ir::convert_program_to_ir;

#[test]
fn test_incr_decr() {
    let code = "a+=1";
    let (store, res) = parse_block(code);
    assert!(res.is_ok(), "{:#?}", res);
    let expected = vec![Incr(store.by_index(0).unwrap())];
    assert_eq!(res.unwrap(), expected);
}

#[test]
fn test_return() {
    let code = "return x";
    let (store, res) = parse_block(code);
    assert!(res.is_ok(), "{:#?}", res);
    let expected = vec![Return(store.by_index(0).unwrap())];
    assert_eq!(res.unwrap(), expected);
}

#[test]
fn test_while() {
    let code = "while x != 0:
    x-=1
";
    let (store, res) = parse_block(code);
    assert!(res.is_ok(), "{:#?}", res);
    let expected = vec![While {
        cond_var: store.by_index(0).unwrap(),
        body: vec![Decr(store.by_index(0).unwrap())],
    }];
    assert_eq!(res.unwrap(), expected);
}

#[test]
fn test_functions() {
    let code = "def add(a, b):
    while a != 0:
        a-=1
        b += 1
    return b
x+=1
y+=1
z=add(x, y)";
    let (store, res) = parse_block(code);
    assert!(res.is_ok(), "{:#?}", res);
    let add_var = store.get_by_interned("add").unwrap();
    let a_var = store.get_by_interned("a").unwrap();
    let b_var = store.get_by_interned("b").unwrap();
    let x_var = store.get_by_interned("x").unwrap();
    let y_var = store.get_by_interned("y").unwrap();
    let z_var = store.get_by_interned("z").unwrap();
    let expected = vec![
        Def {
            name: add_var,
            parameters: vec![a_var, b_var],
            body: vec![
                While { cond_var: a_var, body: vec![Decr(a_var), Incr(b_var)] },
                Return(b_var),
            ],
        },
        Incr(x_var),
        Incr(y_var),
        Assign { var_name: z_var, fun_name: add_var, args: vec![x_var, y_var] },
    ];
    assert_eq!(res.unwrap(), expected);
}

#[test]
fn test_program() {
    let code = "input: x, y
output: y
while x!=0:
    x-=1
    y+=1
";
    let (store, res) = parse_program(code);
    assert!(res.is_ok(), "{:#?}", res);
    let x_var = store.get_by_interned("x").unwrap();
    let y_var = store.get_by_interned("y").unwrap();
    let expected = Program {
        inputs: vec![x_var, y_var],
        output: y_var,
        body: vec![While { cond_var: x_var, body: vec![Decr(x_var), Incr(y_var)] }],
    };
    assert_eq!(res.unwrap(), expected);
}

#[test]
fn test_parse_then_lower() {
    // the parsed example lowers end to end
    let code = "input: x, y
output: y
while x!=0:
    x-=1
    y+=1
";
    let (store, res) = parse_program(code);
    let program = res.unwrap();
    let ir = convert_program_to_ir(&program, &store).unwrap();
    assert_eq!(ir.inputs.len(), 2);
    assert_eq!(ir.main.values.len(), 0);
    assert_eq!(ir.main.body.len(), 1);
}

#[test]
fn test_parse_rejects_stray_unindent_error() {
    let (_, res) = parse_block("def f(:");
    assert!(res.is_err());
}
