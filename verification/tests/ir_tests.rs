use minipython::ast::{Ast, Program};
use minipython::ast::Ast::{Assign, Decr, Def, Incr, Return, While};
use minipython::ir::{convert_program_to_ir, IRBlock, IRError, IRFunction, IRProgram, IRStatement};
use minipython::ir::IRStatement::{FunctionCall, Loop, ValueModify};
use minipython::ir::{convert_program, Context, PendingCall};
use minipython::name::NameStore;
use minipython::parser::parse_program;
use minipython::value::Value;

#[test]
fn test_program_conversion() {
    let mut name_store = NameStore::new();
    let a_var = name_store.register("a");
    let b_var = name_store.register("b");
    let c_var = name_store.register("c");
    let incr_2_var = name_store.register("incr_2");
    let ret_var = name_store.register("ret");
    let program = Program {
        inputs: vec![a_var],
        output: ret_var,
        body: vec![
            Def {
                name: incr_2_var,
                parameters: vec![a_var],
                body: vec![Incr(a_var), Incr(a_var), Incr(b_var), Return(a_var)],
            },
            Incr(b_var),
            Incr(b_var),
            Incr(ret_var),
            Assign { var_name: c_var, fun_name: incr_2_var, args: vec![b_var] },
        ],
    };

    let converted = convert_program_to_ir(&program, &name_store);
    assert!(converted.is_ok());
    let a_val = Value::new(0, a_var);
    let ret_val = Value::new(1, ret_var);
    let a_val2 = Value::new(2, a_var);
    let b_val2 = Value::new(3, b_var);
    let b_val = Value::new(4, b_var);
    let c_val = Value::new(5, c_var);

    let expected_functions = vec![(
        incr_2_var,
        IRFunction {
            params: vec![a_val2],
            body: IRBlock {
                values: vec![b_val2],
                body: vec![
                    ValueModify(a_val2, 2),
                    ValueModify(b_val2, 1),
                    IRStatement::Return(a_val2),
                ],
            },
        },
    )];

    let expected = IRProgram {
        inputs: vec![a_val],
        output: ret_val,
        main: IRBlock {
            values: vec![b_val, c_val],
            body: vec![
                ValueModify(b_val, 2),
                ValueModify(ret_val, 1),
                FunctionCall { func: incr_2_var, target: c_val, args: vec![b_val] },
            ],
        },
        functions: expected_functions,
    };

    assert_eq!(converted.unwrap(), expected);
}

#[test]
fn test_io_conversion() {
    let mut name_store = NameStore::new();
    let a_var = name_store.register("a");
    let b_var = name_store.register("b");
    let c_var = name_store.register("c");
    let d_var = name_store.register("d");
    let ret_var = name_store.register("ret");
    let program = Program {
        inputs: vec![a_var, b_var, c_var],
        output: ret_var,
        body: vec![
            Incr(d_var),
            While { cond_var: a_var, body: vec![Decr(a_var), Incr(ret_var)] },
        ],
    };

    let converted = convert_program_to_ir(&program, &name_store);
    assert!(converted.is_ok());
    let a_val = Value::new(0, a_var);
    let b_val = Value::new(1, b_var);
    let c_val = Value::new(2, c_var);
    let ret_val = Value::new(3, ret_var);
    let d_val = Value::new(4, d_var);
    let expected = IRProgram {
        inputs: vec![a_val, b_val, c_val],
        output: ret_val,
        functions: vec![],
        main: IRBlock {
            values: vec![d_val],
            body: vec![
                ValueModify(d_val, 1),
                Loop { condition_var: a_val, body: vec![ValueModify(a_val, -1), ValueModify(ret_val, 1)] },
            ],
        },
    };
    assert_eq!(converted.unwrap(), expected);
}

#[test]
fn test_while_example_end_to_end() {
    // input: x, y / output: y / while x!=0: x-=1 y+=1
    let mut store = NameStore::new();
    let x = store.register("x");
    let y = store.register("y");
    let program = Program {
        inputs: vec![x, y],
        output: y,
        body: vec![While { cond_var: x, body: vec![Decr(x), Incr(y)] }],
    };
    let ir = convert_program_to_ir(&program, &store).unwrap();
    let x_val = Value::new(0, x);
    let y_in = Value::new(1, y);
    let y_out = Value::new(2, y);
    assert_eq!(ir.inputs, vec![x_val, y_in]);
    assert_eq!(ir.output, y_out);
    assert_eq!(ir.main.values, Vec::<Value>::new());
    assert_eq!(
        ir.main.body,
        vec![Loop {
            condition_var: x_val,
            body: vec![ValueModify(x_val, -1), ValueModify(y_out, 1)]
        }]
    );
}

#[test]
fn test_consecutive_increments_coalesce() {
    // a+=1 a+=1 a-=1 lowers to a single ValueModify(a, 1)
    let mut store = NameStore::new();
    let a = store.register("a");
    let out = store.register("out");
    let program = Program {
        inputs: vec![],
        output: out,
        body: vec![Incr(a), Incr(a), Decr(a)],
    };
    let ir = convert_program_to_ir(&program, &store).unwrap();
    let a_val = Value::new(1, a);
    assert_eq!(ir.main.body, vec![ValueModify(a_val, 1)]);
    assert_eq!(ir.main.values, vec![a_val]);
}

#[test]
fn test_flush_in_first_touch_order() {
    // with inputs x, y and statements y+=1; x+=1 the modification of y,
    // the value touched first, is emitted first although x has the
    // smaller id
    let mut store = NameStore::new();
    let x = store.register("x");
    let y = store.register("y");
    let out = store.register("out");
    let program = Program {
        inputs: vec![x, y],
        output: out,
        body: vec![Incr(y), Incr(x)],
    };
    let ir = convert_program_to_ir(&program, &store).unwrap();
    let x_val = Value::new(0, x);
    let y_val = Value::new(1, y);
    assert_eq!(ir.main.body, vec![ValueModify(y_val, 1), ValueModify(x_val, 1)]);
}

#[test]
fn test_undefined_function_rejected() {
    let mut store = NameStore::new();
    let z = store.register("z");
    let f = store.register("f");
    let out = store.register("out");
    let program = Program {
        inputs: vec![],
        output: out,
        body: vec![Assign { var_name: z, fun_name: f, args: vec![] }],
    };
    let err = convert_program_to_ir(&program, &store).unwrap_err();
    assert_eq!(err, IRError::UndefinedFunction { target: z, callee: f });
}

#[test]
fn test_arity_mismatch_rejected() {
    let mut store = NameStore::new();
    let f = store.register("f");
    let a = store.register("a");
    let b = store.register("b");
    let z = store.register("z");
    let out = store.register("out");
    let program = Program {
        inputs: vec![],
        output: out,
        body: vec![
            Def { name: f, parameters: vec![a], body: vec![Return(a)] },
            Assign { var_name: z, fun_name: f, args: vec![a, b] },
        ],
    };
    let err = convert_program_to_ir(&program, &store).unwrap_err();
    assert_eq!(
        err,
        IRError::ArityMismatch { target: z, callee: f, expected: 1, actual: 2 }
    );
}

#[test]
fn test_function_without_return_rejected() {
    let mut store = NameStore::new();
    let f = store.register("f");
    let a = store.register("a");
    let out = store.register("out");
    let program = Program {
        inputs: vec![],
        output: out,
        body: vec![Def { name: f, parameters: vec![a], body: vec![Incr(a)] }],
    };
    let err = convert_program_to_ir(&program, &store).unwrap_err();
    assert_eq!(err, IRError::MissingReturn);
}

#[test]
fn test_return_inside_loop_suffices() {
    // the return check is an existence check, not path coverage: a return
    // buried in a possibly-skipped loop body still satisfies it
    let mut store = NameStore::new();
    let f = store.register("f");
    let a = store.register("a");
    let out = store.register("out");
    let program = Program {
        inputs: vec![],
        output: out,
        body: vec![Def {
            name: f,
            parameters: vec![a],
            body: vec![While { cond_var: a, body: vec![Decr(a), Return(a)] }],
        }],
    };
    assert!(convert_program_to_ir(&program, &store).is_ok());
}

#[test]
fn test_forward_reference_allowed() {
    // a call may appear before the definition it names
    let mut store = NameStore::new();
    let z = store.register("z");
    let f = store.register("f");
    let a = store.register("a");
    let out = store.register("out");
    let program = Program {
        inputs: vec![],
        output: out,
        body: vec![
            Assign { var_name: z, fun_name: f, args: vec![a] },
            Def { name: f, parameters: vec![a], body: vec![Return(a)] },
        ],
    };
    assert!(convert_program_to_ir(&program, &store).is_ok());
}

#[test]
fn test_loop_scope_shared_with_enclosing_block() {
    // a variable first used inside a loop body stays declared in the
    // enclosing block
    let mut store = NameStore::new();
    let x = store.register("x");
    let t = store.register("t");
    let out = store.register("out");
    let program = Program {
        inputs: vec![x],
        output: out,
        body: vec![
            While { cond_var: x, body: vec![Decr(x), Incr(t)] },
            Incr(t),
        ],
    };
    let ir = convert_program_to_ir(&program, &store).unwrap();
    let x_val = Value::new(0, x);
    let t_val = Value::new(2, t);
    assert_eq!(ir.main.values, vec![t_val]);
    assert_eq!(
        ir.main.body,
        vec![
            Loop { condition_var: x_val, body: vec![ValueModify(x_val, -1), ValueModify(t_val, 1)] },
            ValueModify(t_val, 1),
        ]
    );
}

#[test]
fn test_function_call_collection() {
    let code = "input:
output: f
def add(a, b):
    while a!=0:
        a-=1
        b+=1
    return b

def mul(a, b):
    while a!=0:
        a-=1
        c=add(b, c)
    return c

d+=1
e+=1
f=mul(d, e)";

    let (store, ast_res) = parse_program(code);
    let ast = ast_res.unwrap();
    let mut ctx = Context::root();
    let _ir_prog = convert_program(&mut ctx, &ast);
    let func_calls = ctx.recorded_calls();
    let c_v = store.by_index(5).unwrap();
    let expected = vec![
        PendingCall {
            var_name: c_v,
            fun_name: store.by_index(1).unwrap(),
            args: vec![store.by_index(3).unwrap(), c_v],
        },
        PendingCall {
            var_name: store.by_index(0).unwrap(),
            fun_name: store.by_index(4).unwrap(),
            args: vec![store.by_index(6).unwrap(), store.by_index(7).unwrap()],
        },
    ];
    assert_eq!(*func_calls, expected);
    assert!(convert_program_to_ir(&ast, &store).is_ok());
}
