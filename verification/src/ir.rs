use vstd::prelude::*;

verus! {

use crate::name::{InternedName, NameStore};
use crate::value::Value;
use crate::ast::{Ast, AstModel, Program, ProgramModel, ast_view, asts_view};

// ---------------------------------------------------------------------------
// The lowered representation.
// ---------------------------------------------------------------------------

/// One lowered statement.
#[derive(Debug, PartialEq, Eq)]
pub enum IRStatement {
    /// Add the signed delta to the value.
    ValueModify(Value, i64),
    /// Call `func` with the argument values and store the result in `target`.
    FunctionCall { func: InternedName, args: Vec<Value>, target: Value },
    /// Run the body while the condition value is nonzero.
    Loop { condition_var: Value, body: Vec<IRStatement> },
    /// Leave the enclosing function with the value's contents.
    Return(Value),
}

/// The mathematical shape of an `IRStatement`.
pub enum StmtModel {
    ValueModify(Value, int),
    FunctionCall { func: InternedName, args: Seq<Value>, target: Value },
    Loop { condition_var: Value, body: Seq<StmtModel> },
    Return(Value),
}

/// The model of one lowered statement.
pub open spec fn stmt_view(s: IRStatement) -> StmtModel
    decreases s,
{
    match s {
        IRStatement::ValueModify(v, d) => StmtModel::ValueModify(v, d as int),
        IRStatement::FunctionCall { func, args, target } => StmtModel::FunctionCall {
            func: func,
            args: args@,
            target: target,
        },
        IRStatement::Loop { condition_var, body } => StmtModel::Loop {
            condition_var: condition_var,
            body: stmts_view(body@),
        },
        IRStatement::Return(v) => StmtModel::Return(v),
    }
}

/// The models of a sequence of lowered statements.
pub open spec fn stmts_view(s: Seq<IRStatement>) -> Seq<StmtModel>
    decreases s,
{
    Seq::new(
        s.len(),
        |k: int|
            if 0 <= k < s.len() {
                stmt_view(s[k])
            } else {
                StmtModel::Return(vstd::pervasive::arbitrary())
            },
    )
}

impl DeepView for IRStatement {
    type V = StmtModel;

    open spec fn deep_view(&self) -> StmtModel {
        stmt_view(*self)
    }
}

/// A lowered block: the values first declared in it, and its statements.
#[derive(Debug, PartialEq, Eq)]
pub struct IRBlock {
    pub values: Vec<Value>,
    pub body: Vec<IRStatement>,
}

/// The mathematical shape of an `IRBlock`.
pub struct BlockModel {
    pub values: Seq<Value>,
    pub body: Seq<StmtModel>,
}

impl DeepView for IRBlock {
    type V = BlockModel;

    open spec fn deep_view(&self) -> BlockModel {
        BlockModel { values: self.values@, body: stmts_view(self.body@) }
    }
}

/// A lowered function: one parameter value per declared parameter, in order,
/// and the lowered body.
#[derive(Debug, PartialEq, Eq)]
pub struct IRFunction {
    pub params: Vec<Value>,
    pub body: IRBlock,
}

/// The mathematical shape of an `IRFunction`.
pub struct FunctionModel {
    pub params: Seq<Value>,
    pub body: BlockModel,
}

impl DeepView for IRFunction {
    type V = FunctionModel;

    open spec fn deep_view(&self) -> FunctionModel {
        FunctionModel { params: self.params@, body: self.body.deep_view() }
    }
}

/// The lowered program: input and output values, the functions keyed by
/// their interned names (keys unique), and the main block.
#[derive(Debug, PartialEq, Eq)]
pub struct IRProgram {
    pub inputs: Vec<Value>,
    pub output: Value,
    pub functions: Vec<(InternedName, IRFunction)>,
    pub main: IRBlock,
}

/// The mathematical shape of an `IRProgram`.
pub struct IRProgramModel {
    pub inputs: Seq<Value>,
    pub output: Value,
    pub functions: Seq<(InternedName, FunctionModel)>,
    pub main: BlockModel,
}

/// The models of the function table entries.
pub open spec fn funcs_view(s: Seq<(InternedName, IRFunction)>) -> Seq<(InternedName, FunctionModel)> {
    Seq::new(s.len(), |k: int| (s[k].0, s[k].1.deep_view()))
}

impl DeepView for IRProgram {
    type V = IRProgramModel;

    open spec fn deep_view(&self) -> IRProgramModel {
        IRProgramModel {
            inputs: self.inputs@,
            output: self.output,
            functions: funcs_view(self.functions@),
            main: self.main.deep_view(),
        }
    }
}

// ---------------------------------------------------------------------------
// Errors.
// ---------------------------------------------------------------------------

/// The ways lowering can fail. Call-shape errors name both the variable
/// assigned at the call site and the callee.
#[derive(Debug, Clone, Copy, PartialEq, Eq, Structural)]
pub enum IRError {
    /// A recorded call names a function that was never defined.
    UndefinedFunction { target: InternedName, callee: InternedName },
    /// A recorded call passes a number of arguments different from the
    /// callee's declared parameter count.
    ArityMismatch { target: InternedName, callee: InternedName, expected: usize, actual: usize },
    /// A function body whose lowered form holds no `Return` anywhere.
    MissingReturn,
}

// ---------------------------------------------------------------------------
// Scopes.
// ---------------------------------------------------------------------------

/// Whether a value pre-exists its block (an input, an output or a parameter)
/// or is declared by the block itself.
#[derive(Debug, Clone, Copy, PartialEq, Eq, Structural)]
pub enum ValueKind {
    IO,
    Normal,
}

/// A call-shaped assignment recorded during traversal, replayed for
/// validation once the whole tree is lowered.
#[derive(Debug, PartialEq, Eq)]
pub struct PendingCall {
    pub var_name: InternedName,
    pub fun_name: InternedName,
    pub args: Vec<InternedName>,
}

/// The mathematical shape of a `PendingCall`.
pub struct CallModel {
    pub var_name: InternedName,
    pub fun_name: InternedName,
    pub args: Seq<InternedName>,
}

impl DeepView for PendingCall {
    type V = CallModel;

    open spec fn deep_view(&self) -> CallModel {
        CallModel { var_name: self.var_name, fun_name: self.fun_name, args: self.args@ }
    }
}

/// One scope entry: a name, the kind of its value, and the value.
pub type Binding = (InternedName, ValueKind, Value);

/// The mathematical state of a scope: the program-wide id counter, the
/// bindings in first-bound order, and the calls recorded so far.
pub struct CtxModel {
    pub next_id: int,
    pub bindings: Seq<Binding>,
    pub calls: Seq<CallModel>,
}

/// The first position bound to `name`, or the length when none is.
pub open spec fn binding_index(b: Seq<Binding>, name: InternedName) -> int
    decreases b.len(),
{
    if b.len() == 0 {
        0
    } else if b[0].0 == name {
        0
    } else {
        1 + binding_index(b.skip(1), name)
    }
}

pub open spec fn has_binding(b: Seq<Binding>, name: InternedName) -> bool {
    binding_index(b, name) < b.len()
}

/// `binding_index` is the first position carrying the name.
pub proof fn lemma_binding_index(b: Seq<Binding>, name: InternedName)
    ensures
        0 <= binding_index(b, name) <= b.len(),
        binding_index(b, name) < b.len() ==> b[binding_index(b, name)].0 == name,
        forall|j: int| 0 <= j < binding_index(b, name) ==> b[j].0 != name,
        forall|j: int| 0 <= j < b.len() && b[j].0 == name ==> binding_index(b, name) <= j,
    decreases b.len(),
{
    if b.len() > 0 && b[0].0 != name {
        lemma_binding_index(b.skip(1), name);
        assert forall|j: int| 0 <= j < binding_index(b, name) implies b[j].0 != name by {
            if j > 0 {
                assert(b.skip(1)[j - 1] == b[j]);
            }
        }
        assert forall|j: int| 0 <= j < b.len() && b[j].0 == name implies binding_index(b, name)
            <= j by {
            if j > 0 {
                assert(b.skip(1)[j - 1] == b[j]);
            }
        }
    }
}

/// Allocates the next id for `name` and binds it, replacing an existing
/// binding of the same name in place.
pub open spec fn spec_alloc(c: CtxModel, name: InternedName, kind: ValueKind) -> (CtxModel, Value) {
    let v = Value { id: c.next_id as u64, name };
    let i = binding_index(c.bindings, name);
    let bs = if i < c.bindings.len() {
        c.bindings.update(i, (name, kind, v))
    } else {
        c.bindings.push((name, kind, v))
    };
    (CtxModel { next_id: c.next_id + 1, bindings: bs, calls: c.calls }, v)
}

/// The scope-local value bound to `name`, allocating a fresh Normal one on
/// first reference.
pub open spec fn spec_lookup_or_create(c: CtxModel, name: InternedName) -> (CtxModel, Value) {
    let i = binding_index(c.bindings, name);
    if i < c.bindings.len() {
        (c, c.bindings[i].2)
    } else {
        spec_alloc(c, name, ValueKind::Normal)
    }
}

/// The block-declared values: the Normal-tagged bindings in first-bound order.
pub open spec fn spec_declared(b: Seq<Binding>) -> Seq<Value>
    decreases b.len(),
{
    if b.len() == 0 {
        Seq::empty()
    } else {
        spec_declared(b.drop_last()) + if b.last().1 == ValueKind::Normal {
            seq![b.last().2]
        } else {
            Seq::empty()
        }
    }
}

/// A scope is well formed when its names are bound once each, every bound
/// value carries an id below the counter, ids are pairwise distinct, and
/// each value is named after its binding.
pub open spec fn ctx_wf(c: CtxModel) -> bool {
    &&& 0 <= c.next_id <= u64::MAX
    &&& (forall|i: int, j: int|
        0 <= i < j < c.bindings.len() ==> #[trigger] c.bindings[i].0 != #[trigger] c.bindings[j].0)
    &&& (forall|i: int| 0 <= i < c.bindings.len() ==> (#[trigger] c.bindings[i]).2.id < c.next_id)
    &&& (forall|i: int, j: int|
        0 <= i < j < c.bindings.len() ==> #[trigger] c.bindings[i].2.id != #[trigger] c.bindings[j].2.id)
    &&& (forall|i: int| 0 <= i < c.bindings.len() ==> (#[trigger] c.bindings[i]).2.name == c.bindings[i].0)
}

/// Allocation preserves well-formedness and keeps every old binding's value
/// except the replaced name's.
pub proof fn lemma_alloc_wf(c: CtxModel, name: InternedName, kind: ValueKind)
    requires
        ctx_wf(c),
        c.next_id < u64::MAX,
    ensures
        ({
            let (c2, v) = spec_alloc(c, name, kind);
            &&& ctx_wf(c2)
            &&& v.id == c.next_id
            &&& v.name == name
            &&& c2.next_id == c.next_id + 1
            &&& c2.calls == c.calls
            &&& has_binding(c2.bindings, name)
            &&& c2.bindings[binding_index(c2.bindings, name)] == (name, kind, v)
            &&& forall|j: int|
                0 <= j < c.bindings.len() && c.bindings[j].0 != name ==> c2.bindings[j] == c.bindings[j]
        }),
{
    lemma_binding_index(c.bindings, name);
    let (c2, v) = spec_alloc(c, name, kind);
    let i = binding_index(c.bindings, name);
    lemma_binding_index(c2.bindings, name);
    let i2 = binding_index(c2.bindings, name);
    assert(c2.bindings[i].0 == name);
    assert(i2 <= i);
    if i2 < i {
        assert(c2.bindings[i2] == c.bindings[i2]);
        assert(false);
    }
}

/// Lookup-or-create preserves well-formedness and returns a bound value.
pub proof fn lemma_lookup_wf(c: CtxModel, name: InternedName)
    requires
        ctx_wf(c),
        c.next_id < u64::MAX,
    ensures
        ({
            let (c2, v) = spec_lookup_or_create(c, name);
            &&& ctx_wf(c2)
            &&& v.name == name
            &&& v.id < c2.next_id
            &&& c.next_id <= c2.next_id <= c.next_id + 1
            &&& c2.calls == c.calls
            &&& has_binding(c2.bindings, name)
            &&& c2.bindings[binding_index(c2.bindings, name)].2 == v
            &&& forall|j: int|
                0 <= j < c.bindings.len() ==> c2.bindings[j] == c.bindings[j]
            &&& c.bindings.len() <= c2.bindings.len()
        }),
{
    lemma_binding_index(c.bindings, name);
    let i = binding_index(c.bindings, name);
    if i < c.bindings.len() {
    } else {
        lemma_alloc_wf(c, name, ValueKind::Normal);
    }
}

/// A lexical scope. The id counter is threaded explicitly: a subcontext
/// starts from its parent's counter and the parent takes the advanced
/// counter (and the recorded calls) back when the subcontext is done.
pub struct Context {
    next_id: u64,
    bindings: Vec<(InternedName, ValueKind, Value)>,
    function_calls: Vec<PendingCall>,
}

impl View for Context {
    type V = CtxModel;

    closed spec fn view(&self) -> CtxModel {
        CtxModel {
            next_id: self.next_id as int,
            bindings: self.bindings@,
            calls: self.function_calls.deep_view(),
        }
    }
}

impl Context {
    /// The root scope: empty table, counter at zero.
    pub fn root() -> (r: Self)
        ensures
            r@.next_id == 0,
            r@.bindings == Seq::<Binding>::empty(),
            r@.calls == Seq::<CallModel>::empty(),
            ctx_wf(r@),
    {
        let r = Context { next_id: 0, bindings: Vec::new(), function_calls: Vec::new() };
        proof {
            assert(r@.calls =~= Seq::<CallModel>::empty());
        }
        r
    }

    /// A fresh scope with an empty table, continuing this scope's counter.
    pub fn create_subcontext(&mut self) -> (r: Self)
        ensures
            final(self)@ == old(self)@,
            r@.next_id == old(self)@.next_id,
            r@.bindings == Seq::<Binding>::empty(),
            r@.calls == Seq::<CallModel>::empty(),
            ctx_wf(old(self)@) ==> ctx_wf(r@),
    {
        let r = Context { next_id: self.next_id, bindings: Vec::new(), function_calls: Vec::new() };
        proof {
            assert(r@.calls =~= Seq::<CallModel>::empty());
        }
        r
    }

    /// Takes a finished subcontext's counter and recorded calls back.
    fn absorb_subcontext(&mut self, sub: Context)
        requires
            old(self)@.next_id <= sub@.next_id,
        ensures
            final(self)@.next_id == sub@.next_id,
            final(self)@.bindings == old(self)@.bindings,
            final(self)@.calls == old(self)@.calls + sub@.calls,
    {
        let Context { next_id, bindings: _, function_calls: mut calls } = sub;
        self.next_id = next_id;
        self.function_calls.append(&mut calls);
        proof {
            assert(final(self)@.calls =~= old(self)@.calls + sub@.calls);
        }
    }

    /// The first position bound to `name`, if any.
    fn find_binding(&self, name: InternedName) -> (r: Option<usize>)
        ensures
            match r {
                Some(i) => i as int == binding_index(self@.bindings, name) && (i as int)
                    < self@.bindings.len(),
                None => binding_index(self@.bindings, name) == self@.bindings.len(),
            },
    {
        proof {
            lemma_binding_index(self@.bindings, name);
        }
        let n = self.bindings.len();
        let mut i: usize = 0;
        while i < n
            invariant
                n == self@.bindings.len(),
                i <= n,
                forall|j: int| 0 <= j < i ==> self@.bindings[j].0 != name,
                binding_index(self@.bindings, name) <= self@.bindings.len(),
                binding_index(self@.bindings, name) < self@.bindings.len()
                    ==> self@.bindings[binding_index(self@.bindings, name)].0 == name,
                forall|j: int|
                    0 <= j < self@.bindings.len() && self@.bindings[j].0 == name ==> binding_index(
                        self@.bindings,
                        name,
                    ) <= j,
            decreases n - i,
        {
            if self.bindings[i].0 == name {
                proof {
                    lemma_binding_index(self@.bindings, name);
                    assert(binding_index(self@.bindings, name) == i as int);
                }
                return Some(i);
            }
            i += 1;
        }
        proof {
            if binding_index(self@.bindings, name) < self@.bindings.len() {
                assert(self@.bindings[binding_index(self@.bindings, name)].0 == name);
            }
        }
        None
    }

    /// Allocates the next id and binds it to `name` as a block-local value.
    pub fn new_value(&mut self, name: InternedName) -> (v: Value)
        requires
            ctx_wf(old(self)@),
            old(self)@.next_id < u64::MAX,
        ensures
            ctx_wf(final(self)@),
            (final(self)@, v) == spec_alloc(old(self)@, name, ValueKind::Normal),
    {
        self.bind_fresh(name, ValueKind::Normal)
    }

    /// Allocates the next id and binds it to `name` as a value that already
    /// exists at block entry (an input, an output or a parameter).
    pub fn new_io_value(&mut self, name: InternedName) -> (v: Value)
        requires
            ctx_wf(old(self)@),
            old(self)@.next_id < u64::MAX,
        ensures
            ctx_wf(final(self)@),
            (final(self)@, v) == spec_alloc(old(self)@, name, ValueKind::IO),
    {
        self.bind_fresh(name, ValueKind::IO)
    }

    fn bind_fresh(&mut self, name: InternedName, kind: ValueKind) -> (v: Value)
        requires
            ctx_wf(old(self)@),
            old(self)@.next_id < u64::MAX,
        ensures
            ctx_wf(final(self)@),
            (final(self)@, v) == spec_alloc(old(self)@, name, kind),
    {
        proof {
            lemma_alloc_wf(old(self)@, name, kind);
        }
        let old_id = self.next_id;
        let val = Value::new(old_id, name);
        self.next_id = old_id + 1;
        match self.find_binding(name) {
            Some(i) => {
                self.bindings[i] = (name, kind, val);
            }
            None => {
                self.bindings.push((name, kind, val));
            }
        }
        val
    }

    /// The value bound to `name`, allocating a fresh Normal one on first
    /// reference: an undeclared variable materializes at zero.
    pub fn lookup_or_create(&mut self, name: &InternedName) -> (v: Value)
        requires
            ctx_wf(old(self)@),
            old(self)@.next_id < u64::MAX,
        ensures
            ctx_wf(final(self)@),
            (final(self)@, v) == spec_lookup_or_create(old(self)@, *name),
    {
        proof {
            lemma_lookup_wf(old(self)@, *name);
        }
        match self.find_binding(*name) {
            Some(i) => self.bindings[i].2,
            None => self.bind_fresh(*name, ValueKind::Normal),
        }
    }

    /// The calls recorded so far for deferred validation, in order.
    pub fn recorded_calls(&self) -> (r: &Vec<PendingCall>)
        ensures
            r.deep_view() == self@.calls,
    {
        &self.function_calls
    }

    /// The block-declared (Normal) values, in first-bound order.
    pub fn get_context_values(&self) -> (r: Vec<Value>)
        ensures
            r@ == spec_declared(self@.bindings),
    {
        let mut r: Vec<Value> = Vec::new();
        let n = self.bindings.len();
        let mut i: usize = 0;
        while i < n
            invariant
                n == self@.bindings.len(),
                i <= n,
                r@ == spec_declared(self@.bindings.take(i as int)),
            decreases n - i,
        {
            let (_, kind, val) = self.bindings[i];
            proof {
                assert(self@.bindings.take(i + 1 as int).drop_last() =~= self@.bindings.take(
                    i as int,
                ));
                assert(self@.bindings.take(i + 1 as int).last() == self@.bindings[i as int]);
            }
            match kind {
                ValueKind::Normal => {
                    r.push(val);
                }
                ValueKind::IO => {}
            }
            i += 1;
        }
        proof {
            assert(self@.bindings.take(n as int) =~= self@.bindings);
        }
        r
    }
}

// ---------------------------------------------------------------------------
// Statement well-formedness and the allocation budget.
// ---------------------------------------------------------------------------

/// Definitions live only at the top level of a program; a statement being
/// lowered inside a block must not be one.
pub open spec fn stmt_no_def(a: AstModel) -> bool
    decreases a,
{
    match a {
        AstModel::Def { .. } => false,
        AstModel::While { body, .. } => stmts_no_defs(body),
        _ => true,
    }
}

pub open spec fn stmts_no_defs(s: Seq<AstModel>) -> bool
    decreases s,
{
    forall|k: int| 0 <= k < s.len() ==> stmt_no_def(#[trigger] s[k])
}

/// An upper bound on the work one statement can cause: one unit per value
/// allocation it may trigger and one per pending-delta bump. The total
/// weight of a program bounds both the id counter and every coalesced
/// delta, which keeps them in machine range.
pub open spec fn stmt_weight(a: AstModel) -> nat
    decreases a,
{
    match a {
        AstModel::Def { parameters, body, .. } => parameters.len() + stmts_weight(body) + 1,
        AstModel::Return(_) => 1,
        AstModel::While { body, .. } => 1 + stmts_weight(body),
        AstModel::Assign { args, .. } => args.len() + 1,
        AstModel::Incr(_) => 2,
        AstModel::Decr(_) => 2,
    }
}

pub open spec fn stmts_weight(s: Seq<AstModel>) -> nat
    decreases s,
{
    if s.len() == 0 {
        0
    } else {
        stmts_weight(s.drop_last()) + stmt_weight(s.last())
    }
}

/// The weight of a whole program: its declared inputs and output, then its
/// body.
pub open spec fn program_weight(p: ProgramModel) -> nat {
    p.inputs.len() + 1 + stmts_weight(p.body)
}

/// Every statement weighs at least one unit.
pub proof fn lemma_stmt_weight_pos(a: AstModel)
    ensures
        stmt_weight(a) >= 1,
{
}

/// A prefix never outweighs the whole sequence.
pub proof fn lemma_stmts_weight_take_le(s: Seq<AstModel>, i: int)
    requires
        0 <= i <= s.len(),
    ensures
        stmts_weight(s.take(i)) <= stmts_weight(s),
    decreases s.len() - i,
{
    if i < s.len() {
        lemma_stmts_weight_take(s, i);
        lemma_stmts_weight_take_le(s, i + 1);
    } else {
        assert(s.take(i) =~= s);
    }
}

/// Weights of prefixes grow one statement at a time.
pub proof fn lemma_stmts_weight_take(s: Seq<AstModel>, i: int)
    requires
        0 <= i < s.len(),
    ensures
        stmts_weight(s.take(i + 1)) == stmts_weight(s.take(i)) + stmt_weight(s[i]),
{
    assert(s.take(i + 1).drop_last() =~= s.take(i));
    assert(s.take(i + 1).last() == s[i]);
}

// ---------------------------------------------------------------------------
// The coalescing accumulator.
// ---------------------------------------------------------------------------

/// The accumulator's mathematical state: per-value pending deltas, one
/// entry per touched value, held in first-touch order.
pub open spec fn opt_wf(o: Seq<(Value, int)>) -> bool {
    forall|i: int, j: int| 0 <= i < j < o.len() ==> (#[trigger] o[i]).0 != (#[trigger] o[j]).0
}

/// Adds `d` to the pending delta of `v`, appending a fresh entry on first
/// touch, so the entries stay in first-touch order.
pub open spec fn opt_bump(o: Seq<(Value, int)>, v: Value, d: int) -> Seq<(Value, int)>
    decreases o.len(),
{
    if o.len() == 0 {
        seq![(v, d)]
    } else if o[0].0 == v {
        seq![(o[0].0, o[0].1 + d)] + o.skip(1)
    } else {
        seq![o[0]] + opt_bump(o.skip(1), v, d)
    }
}

/// The statements a flush emits: one modification per touched value, in
/// first-touch order.
pub open spec fn flush_model(o: Seq<(Value, int)>) -> Seq<StmtModel> {
    Seq::new(o.len(), |k: int| StmtModel::ValueModify(o[k].0, o[k].1))
}

/// What a bump does to the entries: everything is either an untouched old
/// entry, the bumped old entry for `v`, or a fresh entry `(v, d)`.
pub proof fn lemma_opt_bump(o: Seq<(Value, int)>, v: Value, d: int)
    requires
        opt_wf(o),
    ensures
        opt_wf(opt_bump(o, v, d)),
        o.len() <= opt_bump(o, v, d).len() <= o.len() + 1,
        forall|k: int|
            0 <= k < opt_bump(o, v, d).len() ==> {
                let e = #[trigger] opt_bump(o, v, d)[k];
                ||| exists|j: int| 0 <= j < o.len() && e == #[trigger] o[j]
                ||| (e.0 == v && exists|j: int| 0 <= j < o.len() && #[trigger] o[j].0 == v && e.1 == o[j].1 + d)
                ||| e == (v, d)
            },
        forall|k: int|
            0 <= k < opt_bump(o, v, d).len() ==> ((#[trigger] opt_bump(o, v, d)[k]).0 == v
                || exists|j: int| 0 <= j < o.len() && opt_bump(o, v, d)[k].0 == (#[trigger] o[j]).0),
    decreases o.len(),
{
    let r = opt_bump(o, v, d);
    if o.len() == 0 {
    } else if o[0].0 == v {
        assert(forall|k: int| 1 <= k < o.len() ==> r[k] == o[k]);
    } else {
        let o1 = o.skip(1);
        assert(forall|k: int| 0 <= k < o1.len() ==> o1[k] == #[trigger] o[k + 1]);
        lemma_opt_bump(o1, v, d);
        let r1 = opt_bump(o1, v, d);
        assert(r =~= seq![o[0]] + r1);
        assert forall|i: int, j: int| 0 <= i < j < r.len() implies r[i].0 != r[j].0 by {
            if i > 0 {
                assert(r[i] == r1[i - 1] && r[j] == r1[j - 1]);
            } else {
                assert(r[j] == r1[j - 1]);
                // the later entry's value is either v or a value of the
                // tail; the head's value is neither
                assert(r1[j - 1].0 == v || exists|m: int|
                    0 <= m < o1.len() && r1[j - 1].0 == (#[trigger] o1[m]).0);
                if r1[j - 1].0 != v {
                    let m = choose|m: int| 0 <= m < o1.len() && r1[j - 1].0 == (#[trigger] o1[m]).0;
                    assert(o1[m] == o[m + 1]);
                    assert(o[0].0 != o[m + 1].0);
                }
            }
        }
        assert forall|k: int| 0 <= k < r.len() implies {
            let e = #[trigger] r[k];
            ||| exists|j: int| 0 <= j < o.len() && e == #[trigger] o[j]
            ||| (e.0 == v && exists|j: int| 0 <= j < o.len() && #[trigger] o[j].0 == v && e.1 == o[j].1 + d)
            ||| e == (v, d)
        } by {
            if k == 0 {
                assert(r[0] == o[0]);
            } else {
                let e = r1[k - 1];
                assert(e == r[k]);
                if exists|j: int| 0 <= j < o1.len() && e == #[trigger] o1[j] {
                    let j = choose|j: int| 0 <= j < o1.len() && e == #[trigger] o1[j];
                    assert(o1[j] == o[j + 1]);
                } else if e.0 == v && exists|j: int|
                    0 <= j < o1.len() && #[trigger] o1[j].0 == v && e.1 == o1[j].1 + d {
                    let j = choose|j: int| 0 <= j < o1.len() && #[trigger] o1[j].0 == v && e.1 == o1[j].1 + d;
                    assert(o1[j] == o[j + 1]);
                }
            }
        }
    }
}

/// A bump never reorders the pending entries: it updates the touched
/// value's entry in place, or appends a fresh entry at the end. The flush
/// therefore emits in first-touch order.
pub proof fn lemma_opt_bump_order(o: Seq<(Value, int)>, v: Value, d: int)
    requires
        opt_wf(o),
    ensures
        ({
            let r = opt_bump(o, v, d);
            ||| exists|i: int|
                0 <= i < o.len() && (#[trigger] o[i]).0 == v && r == o.update(i, (v, o[i].1 + d))
            ||| ((forall|i: int| 0 <= i < o.len() ==> (#[trigger] o[i]).0 != v) && r == o.push(
                (v, d),
            ))
        }),
    decreases o.len(),
{
    let r = opt_bump(o, v, d);
    if o.len() == 0 {
        assert(r =~= o.push((v, d)));
    } else if o[0].0 == v {
        assert(r =~= o.update(0, (v, o[0].1 + d)));
    } else {
        let o1 = o.skip(1);
        assert(forall|k: int| 0 <= k < o1.len() ==> o1[k] == #[trigger] o[k + 1]);
        lemma_opt_bump_order(o1, v, d);
        let r1 = opt_bump(o1, v, d);
        if exists|i: int|
            0 <= i < o1.len() && (#[trigger] o1[i]).0 == v && r1 == o1.update(i, (v, o1[i].1 + d)) {
            let i = choose|i: int|
                0 <= i < o1.len() && (#[trigger] o1[i]).0 == v && r1 == o1.update(
                    i,
                    (v, o1[i].1 + d),
                );
            assert(o[i + 1].0 == v);
            assert(r =~= o.update(i + 1, (v, o[i + 1].1 + d)));
        } else {
            assert(r =~= o.push((v, d)));
            assert forall|i: int| 0 <= i < o.len() implies (#[trigger] o[i]).0 != v by {
                if i > 0 {
                    assert(o1[i - 1] == o[i]);
                }
            }
        }
    }
}

/// Pushing a statement extends the model pointwise.
pub proof fn lemma_stmts_view_push(s: Seq<IRStatement>, x: IRStatement)
    ensures
        stmts_view(s.push(x)) == stmts_view(s).push(stmt_view(x)),
{
    assert(stmts_view(s.push(x)) =~= stmts_view(s).push(stmt_view(x)));
}

/// Walking past an entry of another value keeps the bump's result.
proof fn lemma_opt_bump_step(o: Seq<(Value, int)>, v: Value, d: int, i: int)
    requires
        0 <= i < o.len(),
        o[i].0 != v,
    ensures
        o.take(i) + opt_bump(o.skip(i), v, d) == o.take(i + 1) + opt_bump(o.skip(i + 1), v, d),
{
    assert(o.skip(i)[0] == o[i]);
    assert(o.skip(i).skip(1) =~= o.skip(i + 1));
    assert(opt_bump(o.skip(i), v, d) == seq![o[i]] + opt_bump(o.skip(i + 1), v, d));
    assert(o.take(i) + (seq![o[i]] + opt_bump(o.skip(i + 1), v, d)) =~= o.take(i + 1) + opt_bump(
        o.skip(i + 1),
        v,
        d,
    ));
}

/// Bumping an already-present value updates its entry in place.
proof fn lemma_opt_bump_found(o: Seq<(Value, int)>, v: Value, d: int, i: int)
    requires
        0 <= i < o.len(),
        o[i].0 == v,
    ensures
        o.take(i) + opt_bump(o.skip(i), v, d) == o.update(i, (o[i].0, o[i].1 + d)),
{
    assert(o.skip(i)[0] == o[i]);
    assert(o.skip(i).skip(1) =~= o.skip(i + 1));
    assert(opt_bump(o.skip(i), v, d) == seq![(o[i].0, o[i].1 + d)] + o.skip(i).skip(1));
    assert(o.take(i) + (seq![(o[i].0, o[i].1 + d)] + o.skip(i + 1)) =~= o.update(
        i,
        (o[i].0, o[i].1 + d),
    ));
}

/// The coalescing accumulator: pending signed deltas per value, merged into
/// one modification per value at each flush.
pub struct OptimizationContext {
    values: Vec<(Value, i64)>,
}

/// The deltas as mathematical integers.
pub open spec fn opt_view(s: Seq<(Value, i64)>) -> Seq<(Value, int)> {
    Seq::new(s.len(), |k: int| (s[k].0, s[k].1 as int))
}

impl View for OptimizationContext {
    type V = Seq<(Value, int)>;

    closed spec fn view(&self) -> Seq<(Value, int)> {
        opt_view(self.values@)
    }
}

impl OptimizationContext {
    pub fn new() -> (r: Self)
        ensures
            r@ == Seq::<(Value, int)>::empty(),
    {
        let r = OptimizationContext { values: Vec::new() };
        proof {
            assert(r@ =~= Seq::<(Value, int)>::empty());
        }
        r
    }

    /// Adds `d` to the pending delta of `v`.
    fn bump(&mut self, v: Value, d: i64)
        requires
            opt_wf(old(self)@),
            d == 1 || d == -1,
            forall|k: int|
                0 <= k < old(self)@.len() ==> -0x7fff_ffff_ffff_ffff
                    <= (#[trigger] old(self)@[k]).1 < 0x7fff_ffff_ffff_ffff,
        ensures
            final(self)@ == opt_bump(old(self)@, v, d as int),
            opt_wf(final(self)@),
    {
        proof {
            lemma_opt_bump(old(self)@, v, d as int);
            assert(old(self)@.take(0) =~= Seq::<(Value, int)>::empty());
            assert(old(self)@.skip(0) =~= old(self)@);
            assert(Seq::<(Value, int)>::empty() + opt_bump(old(self)@, v, d as int) =~= opt_bump(
                old(self)@,
                v,
                d as int,
            ));
        }
        let n = self.values.len();
        let mut i: usize = 0;
        while i < n
            invariant
                self@ == old(self)@,
                n == self.values@.len(),
                i <= n,
                d == 1 || d == -1,
                opt_wf(old(self)@),
                forall|k: int|
                    0 <= k < old(self)@.len() ==> -0x7fff_ffff_ffff_ffff
                        <= (#[trigger] old(self)@[k]).1 < 0x7fff_ffff_ffff_ffff,
                opt_bump(old(self)@, v, d as int) == old(self)@.take(i as int) + opt_bump(
                    old(self)@.skip(i as int),
                    v,
                    d as int,
                ),
            decreases n - i,
        {
            let (ev, ed) = self.values[i];
            proof {
                assert(old(self)@[i as int] == (ev, ed as int));
            }
            if ev == v {
                self.values[i] = (ev, ed + d);
                proof {
                    let o = old(self)@;
                    lemma_opt_bump(o, v, d as int);
                    lemma_opt_bump_found(o, v, d as int, i as int);
                    assert(self@ =~= o.update(i as int, (ev, ed + d as int)));
                }
                return ;
            }
            proof {
                let o = old(self)@;
                lemma_opt_bump_step(o, v, d as int, i as int);
            }
            i += 1;
        }
        self.values.push((v, d));
        proof {
            let o = old(self)@;
            lemma_opt_bump(o, v, d as int);
            assert(o.skip(n as int) =~= Seq::<(Value, int)>::empty());
            assert(opt_bump(o.skip(n as int), v, d as int) == seq![(v, d as int)]);
            assert(self@ =~= o.take(n as int) + seq![(v, d as int)]);
        }
    }

    /// Notes one increment of `v`.
    pub fn incr(&mut self, v: Value)
        requires
            opt_wf(old(self)@),
            forall|k: int|
                0 <= k < old(self)@.len() ==> -0x7fff_ffff_ffff_ffff
                    <= (#[trigger] old(self)@[k]).1 < 0x7fff_ffff_ffff_ffff,
        ensures
            final(self)@ == opt_bump(old(self)@, v, 1),
            opt_wf(final(self)@),
    {
        self.bump(v, 1)
    }

    /// Notes one decrement of `v`.
    pub fn decr(&mut self, v: Value)
        requires
            opt_wf(old(self)@),
            forall|k: int|
                0 <= k < old(self)@.len() ==> -0x7fff_ffff_ffff_ffff
                    <= (#[trigger] old(self)@[k]).1 < 0x7fff_ffff_ffff_ffff,
        ensures
            final(self)@ == opt_bump(old(self)@, v, -1),
            opt_wf(final(self)@),
    {
        self.bump(v, -1)
    }

    /// Emits the pending deltas, one `ValueModify` per touched value in
    /// first-touch order, and clears the accumulator.
    pub fn flush(&mut self, target: &mut Vec<IRStatement>)
        ensures
            final(self)@ == Seq::<(Value, int)>::empty(),
            stmts_view(final(target)@) == stmts_view(old(target)@) + flush_model(old(self)@),
    {
        let n = self.values.len();
        let mut i: usize = 0;
        while i < n
            invariant
                self@ == old(self)@,
                n == self.values@.len(),
                i <= n,
                stmts_view(target@) == stmts_view(old(target)@) + flush_model(old(self)@.take(
                    i as int,
                )),
            decreases n - i,
        {
            let (v, d) = self.values[i];
            let ghost tprev = target@;
            target.push(IRStatement::ValueModify(v, d));
            proof {
                assert(old(self)@[i as int] == (v, d as int));
                lemma_stmts_view_push(tprev, IRStatement::ValueModify(v, d));
                assert(flush_model(old(self)@.take(i + 1)) =~= flush_model(old(self)@.take(
                    i as int,
                )).push(StmtModel::ValueModify(v, d as int)));
                assert(stmts_view(old(target)@) + flush_model(old(self)@.take(i as int)).push(
                    StmtModel::ValueModify(v, d as int),
                ) =~= stmts_view(old(target)@) + flush_model(old(self)@.take(i + 1)));
            }
            i += 1;
        }
        self.values.clear();
        proof {
            assert(old(self)@.take(n as int) =~= old(self)@);
            assert(self@ =~= Seq::<(Value, int)>::empty());
        }
    }
}

// ---------------------------------------------------------------------------
// Lowering: the specification.
// ---------------------------------------------------------------------------

/// Resolves the argument names of a call, left to right.
pub open spec fn lower_args(c: CtxModel, args: Seq<InternedName>) -> (CtxModel, Seq<Value>)
    decreases args.len(),
{
    if args.len() == 0 {
        (c, Seq::empty())
    } else {
        let (c1, vs) = lower_args(c, args.drop_last());
        let (c2, v) = spec_lookup_or_create(c1, args.last());
        (c2, vs.push(v))
    }
}

/// What one statement does to the scope, the pending deltas and the emitted
/// statements. Deltas are flushed before anything that could read a value:
/// a return, a call, a loop entry.
pub open spec fn lower_step(
    c: CtxModel,
    o: Seq<(Value, int)>,
    out: Seq<StmtModel>,
    st: AstModel,
) -> (CtxModel, Seq<(Value, int)>, Seq<StmtModel>)
    decreases st, 1int,
{
    match st {
        AstModel::Incr(name) => {
            let (c2, v) = spec_lookup_or_create(c, name);
            (c2, opt_bump(o, v, 1), out)
        }
        AstModel::Decr(name) => {
            let (c2, v) = spec_lookup_or_create(c, name);
            (c2, opt_bump(o, v, -1), out)
        }
        AstModel::Return(name) => {
            let out1 = out + flush_model(o);
            let (c2, v) = spec_lookup_or_create(c, name);
            (c2, Seq::empty(), out1.push(StmtModel::Return(v)))
        }
        AstModel::Assign { var_name, fun_name, args } => {
            let c1 = CtxModel {
                next_id: c.next_id,
                bindings: c.bindings,
                calls: c.calls.push(CallModel { var_name, fun_name, args }),
            };
            let out1 = out + flush_model(o);
            let (c2, argvals) = lower_args(c1, args);
            let (c3, tv) = spec_lookup_or_create(c2, var_name);
            (
                c3,
                Seq::empty(),
                out1.push(StmtModel::FunctionCall { func: fun_name, args: argvals, target: tv }),
            )
        }
        AstModel::While { cond_var, body } => {
            let out1 = out + flush_model(o);
            let (c2, cv) = spec_lookup_or_create(c, cond_var);
            let (c3, body_ir) = lower_stmts(c2, body);
            (c3, Seq::empty(), out1.push(StmtModel::Loop { condition_var: cv, body: body_ir }))
        }
        AstModel::Def { .. } => (c, o, out),
    }
}

/// Lowers a statement sequence, leaving the trailing deltas pending.
pub open spec fn lower_stmts_pfx(c: CtxModel, stmts: Seq<AstModel>) -> (
    CtxModel,
    Seq<(Value, int)>,
    Seq<StmtModel>,
)
    decreases stmts, 0int,
{
    if stmts.len() == 0 {
        (c, Seq::empty(), Seq::empty())
    } else {
        let (c1, o1, out1) = lower_stmts_pfx(c, stmts.drop_last());
        lower_step(c1, o1, out1, stmts.last())
    }
}

/// Lowers a statement sequence, flushing the trailing deltas at its end.
pub open spec fn lower_stmts(c: CtxModel, stmts: Seq<AstModel>) -> (CtxModel, Seq<StmtModel>)
    decreases stmts, 1int,
{
    let (c1, o1, out1) = lower_stmts_pfx(c, stmts);
    (c1, out1 + flush_model(o1))
}

// ---------------------------------------------------------------------------
// Lowering: what the specification guarantees.
// ---------------------------------------------------------------------------

/// `a` is a prefix of `b`.
pub open spec fn seq_prefix<T>(a: Seq<T>, b: Seq<T>) -> bool {
    a.len() <= b.len() && forall|j: int| 0 <= j < a.len() ==> a[j] == b[j]
}

/// Every pending delta lies within the budget.
pub open spec fn deltas_bounded(o: Seq<(Value, int)>, d: int) -> bool {
    forall|k: int| 0 <= k < o.len() ==> -d <= (#[trigger] o[k]).1 <= d
}

/// Argument resolution preserves well-formedness, advances the counter at
/// most one id per argument, and only appends bindings.
pub proof fn lemma_args_props(c: CtxModel, args: Seq<InternedName>)
    requires
        ctx_wf(c),
        c.next_id + args.len() <= u64::MAX,
    ensures
        ({
            let (c2, vs) = lower_args(c, args);
            &&& ctx_wf(c2)
            &&& c.next_id <= c2.next_id <= c.next_id + args.len()
            &&& seq_prefix(c.bindings, c2.bindings)
            &&& c2.calls == c.calls
            &&& vs.len() == args.len()
        }),
    decreases args.len(),
{
    if args.len() > 0 {
        lemma_args_props(c, args.drop_last());
        let (c1, vs) = lower_args(c, args.drop_last());
        lemma_lookup_wf(c1, args.last());
    }
}

/// One lowering step preserves every scope and accumulator invariant,
/// consumes at most its weight in fresh ids and delta budget, and only
/// appends to the bindings and the recorded calls.
pub proof fn lemma_step_props(
    c: CtxModel,
    o: Seq<(Value, int)>,
    out: Seq<StmtModel>,
    st: AstModel,
    dbound: int,
)
    requires
        ctx_wf(c),
        opt_wf(o),
        deltas_bounded(o, dbound),
        dbound >= 0,
        c.next_id + stmt_weight(st) <= u64::MAX,
    ensures
        ({
            let (c2, o2, out2) = lower_step(c, o, out, st);
            &&& ctx_wf(c2)
            &&& opt_wf(o2)
            &&& deltas_bounded(o2, dbound + stmt_weight(st))
            &&& c.next_id <= c2.next_id <= c.next_id + stmt_weight(st)
            &&& seq_prefix(c.bindings, c2.bindings)
            &&& seq_prefix(c.calls, c2.calls)
        }),
    decreases st, 2int,
{
    let (c2, o2, out2) = lower_step(c, o, out, st);
    match st {
        AstModel::Incr(name) => {
            lemma_lookup_wf(c, name);
            let (cx, v) = spec_lookup_or_create(c, name);
            lemma_opt_bump(o, v, 1);
        }
        AstModel::Decr(name) => {
            lemma_lookup_wf(c, name);
            let (cx, v) = spec_lookup_or_create(c, name);
            lemma_opt_bump(o, v, -1);
        }
        AstModel::Return(name) => {
            lemma_lookup_wf(c, name);
        }
        AstModel::Assign { var_name, fun_name, args } => {
            let c1 = CtxModel {
                next_id: c.next_id,
                bindings: c.bindings,
                calls: c.calls.push(CallModel { var_name, fun_name, args }),
            };
            lemma_args_props(c1, args);
            let (cx, _) = lower_args(c1, args);
            lemma_lookup_wf(cx, var_name);
        }
        AstModel::While { cond_var, body } => {
            lemma_lookup_wf(c, cond_var);
            let (cx, _) = spec_lookup_or_create(c, cond_var);
            lemma_lower_props(cx, body);
        }
        AstModel::Def { .. } => {}
    }
}

/// Lowering a prefix preserves the invariants and stays within the weight
/// budget.
pub proof fn lemma_pfx_props(c: CtxModel, stmts: Seq<AstModel>)
    requires
        ctx_wf(c),
        c.next_id + stmts_weight(stmts) <= u64::MAX,
    ensures
        ({
            let (c2, o2, out2) = lower_stmts_pfx(c, stmts);
            &&& ctx_wf(c2)
            &&& opt_wf(o2)
            &&& deltas_bounded(o2, stmts_weight(stmts) as int)
            &&& c.next_id <= c2.next_id <= c.next_id + stmts_weight(stmts)
            &&& seq_prefix(c.bindings, c2.bindings)
            &&& seq_prefix(c.calls, c2.calls)
        }),
    decreases stmts, 0int,
{
    if stmts.len() > 0 {
        lemma_pfx_props(c, stmts.drop_last());
        let (c1, o1, out1) = lower_stmts_pfx(c, stmts.drop_last());
        lemma_step_props(c1, o1, out1, stmts.last(), stmts_weight(stmts.drop_last()) as int);
    }
}

/// Lowering a whole sequence preserves the invariants and stays within the
/// weight budget.
pub proof fn lemma_lower_props(c: CtxModel, stmts: Seq<AstModel>)
    requires
        ctx_wf(c),
        c.next_id + stmts_weight(stmts) <= u64::MAX,
    ensures
        ({
            let (c2, out) = lower_stmts(c, stmts);
            &&& ctx_wf(c2)
            &&& c.next_id <= c2.next_id <= c.next_id + stmts_weight(stmts)
            &&& seq_prefix(c.bindings, c2.bindings)
            &&& seq_prefix(c.calls, c2.calls)
        }),
    decreases stmts, 1int,
{
    lemma_pfx_props(c, stmts);
}

// ---------------------------------------------------------------------------
// Lowering: the implementation.
// ---------------------------------------------------------------------------

/// Copies a vector of interned names.
fn copy_names(v: &Vec<InternedName>) -> (r: Vec<InternedName>)
    ensures
        r@ == v@,
{
    let mut r: Vec<InternedName> = Vec::new();
    let n = v.len();
    let mut i: usize = 0;
    while i < n
        invariant
            n == v@.len(),
            i <= n,
            r@ == v@.take(i as int),
        decreases n - i,
    {
        r.push(v[i]);
        proof {
            assert(v@.take(i + 1) =~= v@.take(i as int).push(v@[i as int]));
        }
        i += 1;
    }
    proof {
        assert(v@.take(n as int) =~= v@);
    }
    r
}

impl Context {
    /// Remembers a call-shaped assignment for deferred validation.
    fn record_call(&mut self, pc: PendingCall)
        ensures
            final(self)@.next_id == old(self)@.next_id,
            final(self)@.bindings == old(self)@.bindings,
            final(self)@.calls == old(self)@.calls.push(pc.deep_view()),
    {
        let ghost pv = pc.deep_view();
        self.function_calls.push(pc);
        proof {
            assert(self@.calls =~= old(self)@.calls.push(pv));
        }
    }
}

/// Lowers a flat statement sequence in the given scope, coalescing runs of
/// increments and decrements and flushing them at every point where a later
/// statement could observe a value.
fn convert_statements(ctx: &mut Context, statements: &Vec<Ast>) -> (ir: Vec<IRStatement>)
    requires
        ctx_wf(old(ctx)@),
        stmts_no_defs(asts_view(statements@)),
        old(ctx)@.next_id + stmts_weight(asts_view(statements@)) <= u64::MAX,
        stmts_weight(asts_view(statements@)) < 0x7fff_ffff_ffff_ffff,
    ensures
        ctx_wf(final(ctx)@),
        (final(ctx)@, stmts_view(ir@)) == lower_stmts(old(ctx)@, asts_view(statements@)),
    decreases statements@,
{
    let ghost models = asts_view(statements@);
    let mut ir: Vec<IRStatement> = Vec::new();
    let mut opt = OptimizationContext::new();
    let n = statements.len();
    let mut i: usize = 0;
    proof {
        assert(models.take(0) =~= Seq::<AstModel>::empty());
        assert(stmts_view(ir@) =~= Seq::<StmtModel>::empty());
    }
    while i < n
        invariant
            n == statements@.len(),
            i <= n,
            models == asts_view(statements@),
            stmts_no_defs(models),
            ctx_wf(old(ctx)@),
            old(ctx)@.next_id + stmts_weight(models) <= u64::MAX,
            stmts_weight(models) < 0x7fff_ffff_ffff_ffff,
            (ctx@, opt@, stmts_view(ir@)) == lower_stmts_pfx(old(ctx)@, models.take(i as int)),
        decreases n - i,
    {
        let ghost c0 = old(ctx)@;
        let ghost cprev = ctx@;
        let ghost oprev = opt@;
        let ghost outprev = stmts_view(ir@);
        let ghost wtake = stmts_weight(models.take(i as int)) as int;
        proof {
            lemma_stmts_weight_take(models, i as int);
            lemma_stmts_weight_take_le(models, i + 1);
            lemma_pfx_props(c0, models.take(i as int));
            assert(models[i as int] == ast_view(statements@[i as int]));
            assert(stmt_no_def(models[i as int]));
            lemma_stmt_weight_pos(models[i as int]);
        }
        let stmt = &statements[i];
        match stmt {
            Ast::Incr(name) => {
                proof {
                    assert(statements@[i as int] == Ast::Incr(*name));
                    assert(models[i as int] == AstModel::Incr(*name));
                    assert(stmt_weight(models[i as int]) == 2);
                    lemma_lookup_wf(cprev, *name);
                }
                let v = ctx.lookup_or_create(name);
                opt.incr(v);
                proof {
                    assert(lower_step(cprev, oprev, outprev, models[i as int]) == (
                        ctx@,
                        opt@,
                        stmts_view(ir@),
                    ));
                }
            }
            Ast::Decr(name) => {
                proof {
                    assert(statements@[i as int] == Ast::Decr(*name));
                    assert(models[i as int] == AstModel::Decr(*name));
                    assert(stmt_weight(models[i as int]) == 2);
                    lemma_lookup_wf(cprev, *name);
                }
                let v = ctx.lookup_or_create(name);
                opt.decr(v);
                proof {
                    assert(lower_step(cprev, oprev, outprev, models[i as int]) == (
                        ctx@,
                        opt@,
                        stmts_view(ir@),
                    ));
                }
            }
            Ast::Return(name) => {
                proof {
                    assert(statements@[i as int] == Ast::Return(*name));
                    assert(models[i as int] == AstModel::Return(*name));
                }
                opt.flush(&mut ir);
                proof {
                    lemma_lookup_wf(ctx@, *name);
                }
                let v = ctx.lookup_or_create(name);
                let ghost tprev = ir@;
                ir.push(IRStatement::Return(v));
                proof {
                    lemma_stmts_view_push(tprev, IRStatement::Return(v));
                    assert(lower_step(cprev, oprev, outprev, models[i as int]) == (
                        ctx@,
                        opt@,
                        stmts_view(ir@),
                    ));
                }
            }
            Ast::Assign { var_name, fun_name, args } => {
                proof {
                    assert(statements@[i as int] == Ast::Assign {
                        var_name: *var_name,
                        fun_name: *fun_name,
                        args: *args,
                    });
                    assert(models[i as int] == AstModel::Assign {
                        var_name: *var_name,
                        fun_name: *fun_name,
                        args: args@,
                    });
                    assert(stmt_weight(models[i as int]) == args@.len() + 1);
                }
                let recorded = PendingCall {
                    var_name: *var_name,
                    fun_name: *fun_name,
                    args: copy_names(args),
                };
                ctx.record_call(recorded);
                opt.flush(&mut ir);
                let ghost c1 = ctx@;
                let mut args_values: Vec<Value> = Vec::new();
                let m = args.len();
                let mut k: usize = 0;
                proof {
                    assert(args@.take(0) =~= Seq::<InternedName>::empty());
                }
                while k < m
                    invariant
                        m == args@.len(),
                        k <= m,
                        ctx_wf(c1),
                        c1.next_id + m + 1 <= u64::MAX,
                        (ctx@, args_values@) == lower_args(c1, args@.take(k as int)),
                    decreases m - k,
                {
                    proof {
                        lemma_args_props(c1, args@.take(k as int));
                        assert(args@.take(k + 1).drop_last() =~= args@.take(k as int));
                        assert(args@.take(k + 1).last() == args@[k as int]);
                        lemma_lookup_wf(ctx@, args@[k as int]);
                    }
                    let av = ctx.lookup_or_create(&args[k]);
                    args_values.push(av);
                    proof {
                        assert((ctx@, args_values@) == lower_args(c1, args@.take(k + 1)));
                    }
                    k += 1;
                }
                proof {
                    assert(args@.take(m as int) =~= args@);
                    lemma_args_props(c1, args@);
                    lemma_lookup_wf(ctx@, *var_name);
                }
                let target = ctx.lookup_or_create(var_name);
                let ghost tprev = ir@;
                let call_stmt = IRStatement::FunctionCall {
                    func: *fun_name,
                    args: args_values,
                    target,
                };
                ir.push(call_stmt);
                proof {
                    lemma_stmts_view_push(tprev, call_stmt);
                    assert(lower_step(cprev, oprev, outprev, models[i as int]) == (
                        ctx@,
                        opt@,
                        stmts_view(ir@),
                    ));
                }
            }
            Ast::While { cond_var, body } => {
                proof {
                    assert(statements@[i as int] == Ast::While {
                        cond_var: *cond_var,
                        body: *body,
                    });
                    assert(models[i as int] == AstModel::While {
                        cond_var: *cond_var,
                        body: asts_view(body@),
                    });
                    assert(stmt_weight(models[i as int]) == 1 + stmts_weight(asts_view(body@)));
                }
                opt.flush(&mut ir);
                proof {
                    lemma_lookup_wf(ctx@, *cond_var);
                }
                let cond_val = ctx.lookup_or_create(cond_var);
                proof {
                    let st_i = statements@[i as int];
                    assert(decreases_to!(statements@ => st_i));
                    assert(decreases_to!(st_i => *body));
                    assert(decreases_to!(*body => body@));
                }
                let body_ir = convert_statements(ctx, body);
                let ghost tprev = ir@;
                let loop_stmt = IRStatement::Loop { condition_var: cond_val, body: body_ir };
                ir.push(loop_stmt);
                proof {
                    lemma_stmts_view_push(tprev, loop_stmt);
                    assert(lower_step(cprev, oprev, outprev, models[i as int]) == (
                        ctx@,
                        opt@,
                        stmts_view(ir@),
                    ));
                }
            }
            Ast::Def { .. } => {
                proof {
                    assert(statements@[i as int] is Def);
                    assert(!stmt_no_def(models[i as int]));
                    assert(false);
                }
                vstd::pervasive::unreached()
            }
        }
        proof {
            assert(models.take(i + 1).drop_last() =~= models.take(i as int));
            assert(models.take(i + 1).last() == models[i as int]);
            assert(lower_stmts_pfx(old(ctx)@, models.take(i + 1)) == lower_step(
                cprev,
                oprev,
                outprev,
                models[i as int],
            ));
        }
        i += 1;
    }
    proof {
        assert(models.take(n as int) =~= models);
        lemma_pfx_props(old(ctx)@, models);
    }
    opt.flush(&mut ir);
    ir
}

// ---------------------------------------------------------------------------
// Blocks and functions.
// ---------------------------------------------------------------------------

/// Whether a lowered statement holds a `Return` anywhere, loop bodies
/// included.
pub open spec fn stmt_has_return(s: StmtModel) -> bool
    decreases s,
{
    match s {
        StmtModel::Return(_) => true,
        StmtModel::Loop { body, .. } => stmts_have_return(body),
        _ => false,
    }
}

pub open spec fn stmts_have_return(s: Seq<StmtModel>) -> bool
    decreases s,
{
    exists|k: int| 0 <= k < s.len() && stmt_has_return(#[trigger] s[k])
}

/// Checks the `Return` existence on lowered statements, descending into
/// loop bodies.
fn stmts_contain_return(stmts: &Vec<IRStatement>) -> (r: bool)
    ensures
        r == stmts_have_return(stmts_view(stmts@)),
    decreases stmts@,
{
    let n = stmts.len();
    let mut i: usize = 0;
    while i < n
        invariant
            n == stmts@.len(),
            i <= n,
            forall|k: int| 0 <= k < i ==> !stmt_has_return(#[trigger] stmts_view(stmts@)[k]),
        decreases n - i,
    {
        let found: bool = match &stmts[i] {
            IRStatement::Return(_) => true,
            IRStatement::Loop { condition_var: _, body } => {
                proof {
                    let st_i = stmts@[i as int];
                    assert(decreases_to!(stmts@ => st_i));
                    assert(decreases_to!(st_i => *body));
                    assert(decreases_to!(*body => body@));
                }
                stmts_contain_return(body)
            },
            _ => false,
        };
        proof {
            assert(stmts_view(stmts@)[i as int] == stmt_view(stmts@[i as int]));
            assert(found == stmt_has_return(stmts_view(stmts@)[i as int]));
        }
        if found {
            return true;
        }
        i += 1;
    }
    false
}

/// The lowering of a block: a function body whose lowered statements hold no
/// `Return` anywhere is rejected; the top-level block is not checked.
pub open spec fn lower_block(c: CtxModel, stmts: Seq<AstModel>, check_return: bool) -> Result<
    (CtxModel, BlockModel),
    IRError,
> {
    let (c1, out) = lower_stmts(c, stmts);
    if !check_return || stmts_have_return(out) {
        Ok((c1, BlockModel { values: spec_declared(c1.bindings), body: out }))
    } else {
        Err(IRError::MissingReturn)
    }
}

/// Lowers a statement sequence into a block, listing the values the block
/// declares; rejects a function body without a `Return`.
fn convert_block(ctx: &mut Context, statements: &Vec<Ast>, check_return: bool) -> (r: Result<
    IRBlock,
    IRError,
>)
    requires
        ctx_wf(old(ctx)@),
        stmts_no_defs(asts_view(statements@)),
        old(ctx)@.next_id + stmts_weight(asts_view(statements@)) <= u64::MAX,
        stmts_weight(asts_view(statements@)) < 0x7fff_ffff_ffff_ffff,
    ensures
        ctx_wf(final(ctx)@),
        final(ctx)@ == lower_stmts(old(ctx)@, asts_view(statements@)).0,
        match r {
            Ok(blk) => lower_block(old(ctx)@, asts_view(statements@), check_return)
                == Ok::<(CtxModel, BlockModel), IRError>((final(ctx)@, blk.deep_view())),
            Err(e) => lower_block(old(ctx)@, asts_view(statements@), check_return)
                == Err::<(CtxModel, BlockModel), IRError>(e),
        },
{
    let ir_statements = convert_statements(ctx, statements);
    let has_return = !check_return || stmts_contain_return(&ir_statements);
    if has_return {
        Ok(IRBlock { values: ctx.get_context_values(), body: ir_statements })
    } else {
        Err(IRError::MissingReturn)
    }
}

/// Seeds a fresh scope with one IO value per parameter, in order.
pub open spec fn alloc_io_seq(c: CtxModel, names: Seq<InternedName>) -> (CtxModel, Seq<Value>)
    decreases names.len(),
{
    if names.len() == 0 {
        (c, Seq::empty())
    } else {
        let (c1, vs) = alloc_io_seq(c, names.drop_last());
        let (c2, v) = spec_alloc(c1, names.last(), ValueKind::IO);
        (c2, vs.push(v))
    }
}

/// IO seeding preserves well-formedness and advances the counter one id per
/// name.
pub proof fn lemma_alloc_io_props(c: CtxModel, names: Seq<InternedName>)
    requires
        ctx_wf(c),
        c.next_id + names.len() <= u64::MAX,
    ensures
        ({
            let (c2, vs) = alloc_io_seq(c, names);
            &&& ctx_wf(c2)
            &&& c2.next_id == c.next_id + names.len()
            &&& c2.calls == c.calls
            &&& vs.len() == names.len()
        }),
    decreases names.len(),
{
    if names.len() > 0 {
        lemma_alloc_io_props(c, names.drop_last());
        let (c1, vs) = alloc_io_seq(c, names.drop_last());
        lemma_alloc_wf(c1, names.last(), ValueKind::IO);
    }
}

/// The lowering of one function: the parameters become IO values of a fresh
/// scope that continues the caller's counter; the body must hold a `Return`.
/// On success the caller's scope takes the advanced counter and the calls
/// the body recorded; on failure it is left as it was.
pub open spec fn lower_function(c: CtxModel, params: Seq<InternedName>, body: Seq<AstModel>) -> Result<
    (CtxModel, FunctionModel),
    IRError,
> {
    let sub0 = CtxModel {
        next_id: c.next_id,
        bindings: Seq::empty(),
        calls: Seq::empty(),
    };
    let (sub1, pvals) = alloc_io_seq(sub0, params);
    match lower_block(sub1, body, true) {
        Ok((sub2, blk)) => Ok(
            (
                CtxModel {
                    next_id: sub2.next_id,
                    bindings: c.bindings,
                    calls: c.calls + sub2.calls,
                },
                FunctionModel { params: pvals, body: blk },
            ),
        ),
        Err(e) => Err(e),
    }
}

/// Function lowering preserves well-formedness and stays within the weight
/// budget.
pub proof fn lemma_function_props(c: CtxModel, params: Seq<InternedName>, body: Seq<AstModel>)
    requires
        ctx_wf(c),
        c.next_id + params.len() + stmts_weight(body) <= u64::MAX,
    ensures
        ({
            match lower_function(c, params, body) {
                Ok((c2, f)) => {
                    &&& ctx_wf(c2)
                    &&& c.next_id <= c2.next_id <= c.next_id + params.len() + stmts_weight(body)
                    &&& c2.bindings == c.bindings
                    &&& seq_prefix(c.calls, c2.calls)
                    &&& f.params.len() == params.len()
                },
                Err(_) => true,
            }
        }),
{
    let sub0 = CtxModel {
        next_id: c.next_id,
        bindings: Seq::empty(),
        calls: Seq::empty(),
    };
    assert(ctx_wf(sub0));
    lemma_alloc_io_props(sub0, params);
    let (sub1, pvals) = alloc_io_seq(sub0, params);
    lemma_lower_props(sub1, body);
    match lower_function(c, params, body) {
        Ok((c2, f)) => {
            assert(seq_prefix(c.calls, c2.calls)) by {
                assert(forall|j: int|
                    0 <= j < c.calls.len() ==> (c.calls + lower_stmts(sub1, body).0.calls)[j]
                        == c.calls[j]);
            }
        }
        Err(_) => {}
    }
}

/// Lowers one function definition in a fresh subcontext; the parent scope
/// takes back the advanced counter and the recorded calls on success.
fn convert_function(
    ctx: &mut Context,
    parameters: &Vec<InternedName>,
    body: &Vec<Ast>,
) -> (r: Result<IRFunction, IRError>)
    requires
        ctx_wf(old(ctx)@),
        stmts_no_defs(asts_view(body@)),
        old(ctx)@.next_id + parameters@.len() + stmts_weight(asts_view(body@)) <= u64::MAX,
        stmts_weight(asts_view(body@)) < 0x7fff_ffff_ffff_ffff,
    ensures
        ctx_wf(final(ctx)@),
        match r {
            Ok(f) => lower_function(old(ctx)@, parameters@, asts_view(body@))
                == Ok::<(CtxModel, FunctionModel), IRError>((final(ctx)@, f.deep_view())),
            Err(e) => lower_function(old(ctx)@, parameters@, asts_view(body@))
                == Err::<(CtxModel, FunctionModel), IRError>(e) && final(ctx)@ == old(ctx)@,
        },
{
    let ghost c0 = old(ctx)@;
    let mut func_ctx = ctx.create_subcontext();
    let ghost sub0 = func_ctx@;
    proof {
        assert(sub0 == CtxModel {
            next_id: c0.next_id,
            bindings: Seq::<Binding>::empty(),
            calls: Seq::<CallModel>::empty(),
        });
    }
    let mut params_vals: Vec<Value> = Vec::new();
    let m = parameters.len();
    let mut k: usize = 0;
    proof {
        assert(parameters@.take(0) =~= Seq::<InternedName>::empty());
    }
    while k < m
        invariant
            m == parameters@.len(),
            k <= m,
            ctx_wf(sub0),
            sub0.next_id + m <= u64::MAX,
            (func_ctx@, params_vals@) == alloc_io_seq(sub0, parameters@.take(k as int)),
        decreases m - k,
    {
        proof {
            lemma_alloc_io_props(sub0, parameters@.take(k as int));
            assert(parameters@.take(k + 1).drop_last() =~= parameters@.take(k as int));
            assert(parameters@.take(k + 1).last() == parameters@[k as int]);
        }
        let v = func_ctx.new_io_value(parameters[k]);
        params_vals.push(v);
        proof {
            assert((func_ctx@, params_vals@) == alloc_io_seq(sub0, parameters@.take(k + 1)));
        }
        k += 1;
    }
    proof {
        assert(parameters@.take(m as int) =~= parameters@);
        lemma_alloc_io_props(sub0, parameters@);
    }
    match convert_block(&mut func_ctx, body, true) {
        Ok(blk) => {
            proof {
                lemma_lower_props(alloc_io_seq(sub0, parameters@).0, asts_view(body@));
            }
            ctx.absorb_subcontext(func_ctx);
            let func = IRFunction { params: params_vals, body: blk };
            Ok(func)
        }
        Err(e) => Err(e),
    }
}

// ---------------------------------------------------------------------------
// The whole program.
// ---------------------------------------------------------------------------

/// The first position keyed by `name` in an association sequence, or the
/// length when none is.
pub open spec fn assoc_index<T>(s: Seq<(InternedName, T)>, name: InternedName) -> int
    decreases s.len(),
{
    if s.len() == 0 {
        0
    } else if s[0].0 == name {
        0
    } else {
        1 + assoc_index(s.skip(1), name)
    }
}

/// `assoc_index` is the first position carrying the name.
pub proof fn lemma_assoc_index<T>(s: Seq<(InternedName, T)>, name: InternedName)
    ensures
        0 <= assoc_index(s, name) <= s.len(),
        assoc_index(s, name) < s.len() ==> s[assoc_index(s, name)].0 == name,
        forall|j: int| 0 <= j < assoc_index(s, name) ==> s[j].0 != name,
        forall|j: int| 0 <= j < s.len() && s[j].0 == name ==> assoc_index(s, name) <= j,
    decreases s.len(),
{
    if s.len() > 0 && s[0].0 != name {
        lemma_assoc_index(s.skip(1), name);
        assert forall|j: int| 0 <= j < assoc_index(s, name) implies s[j].0 != name by {
            if j > 0 {
                assert(s.skip(1)[j - 1] == s[j]);
            }
        }
        assert forall|j: int| 0 <= j < s.len() && s[j].0 == name implies assoc_index(s, name)
            <= j by {
            if j > 0 {
                assert(s.skip(1)[j - 1] == s[j]);
            }
        }
    }
}

/// Binds `name` to `f` in the function table: a later definition of the same
/// name replaces the earlier one in place.
pub open spec fn funcs_insert(
    fs: Seq<(InternedName, FunctionModel)>,
    name: InternedName,
    f: FunctionModel,
) -> Seq<(InternedName, FunctionModel)> {
    let i = assoc_index(fs, name);
    if i < fs.len() {
        fs.update(i, (name, f))
    } else {
        fs.push((name, f))
    }
}

/// The top-level statements that are not definitions, in order.
pub open spec fn non_defs(s: Seq<AstModel>) -> Seq<AstModel>
    decreases s,
{
    if s.len() == 0 {
        Seq::empty()
    } else {
        non_defs(s.drop_last()) + if s.last() is Def {
            Seq::empty()
        } else {
            seq![s.last()]
        }
    }
}

/// Lowers the top-level definitions, in order.
pub open spec fn lower_defs(c: CtxModel, stmts: Seq<AstModel>) -> Result<
    (CtxModel, Seq<(InternedName, FunctionModel)>),
    IRError,
>
    decreases stmts,
{
    if stmts.len() == 0 {
        Ok((c, Seq::empty()))
    } else {
        match lower_defs(c, stmts.drop_last()) {
            Err(e) => Err(e),
            Ok((c1, fs)) => match stmts.last() {
                AstModel::Def { name, parameters, body } => match lower_function(
                    c1,
                    parameters,
                    body,
                ) {
                    Ok((c2, f)) => Ok((c2, funcs_insert(fs, name, f))),
                    Err(e) => Err(e),
                },
                _ => Ok((c1, fs)),
            },
        }
    }
}

/// Appending a statement adds its weight.
pub proof fn lemma_stmts_weight_snoc(a: Seq<AstModel>, x: AstModel)
    ensures
        stmts_weight(a.push(x)) == stmts_weight(a) + stmt_weight(x),
{
    assert(a.push(x).drop_last() =~= a);
    assert(a.push(x).last() == x);
}

/// Definition lowering preserves well-formedness and leaves enough of the
/// weight budget to lower the remaining non-definition statements.
pub proof fn lemma_defs_props(c: CtxModel, stmts: Seq<AstModel>)
    requires
        ctx_wf(c),
        c.next_id + stmts_weight(stmts) <= u64::MAX,
    ensures
        ({
            match lower_defs(c, stmts) {
                Ok((c2, fs)) => {
                    &&& ctx_wf(c2)
                    &&& c.next_id <= c2.next_id
                    &&& c2.next_id + stmts_weight(non_defs(stmts)) <= c.next_id + stmts_weight(
                        stmts,
                    )
                    &&& c2.bindings == c.bindings
                    &&& seq_prefix(c.calls, c2.calls)
                },
                Err(_) => true,
            }
        }),
    decreases stmts,
{
    if stmts.len() > 0 {
        assert(stmts_weight(stmts) == stmts_weight(stmts.drop_last()) + stmt_weight(stmts.last()));
        lemma_stmt_weight_pos(stmts.last());
        lemma_defs_props(c, stmts.drop_last());
        match lower_defs(c, stmts.drop_last()) {
            Err(_) => {}
            Ok((c1, fs)) => {
                match stmts.last() {
                    AstModel::Def { name, parameters, body } => {
                        assert(stmt_weight(stmts.last()) == parameters.len() + stmts_weight(body)
                            + 1);
                        assert(non_defs(stmts) =~= non_defs(stmts.drop_last()));
                        lemma_function_props(c1, parameters, body);
                    }
                    _ => {
                        assert(non_defs(stmts) =~= non_defs(stmts.drop_last()).push(stmts.last()));
                        lemma_stmts_weight_snoc(non_defs(stmts.drop_last()), stmts.last());
                    }
                }
            }
        }
    }
}

/// An error while lowering the definitions of a prefix decides the whole
/// sequence.
pub proof fn lemma_defs_err_mono(c: CtxModel, stmts: Seq<AstModel>, i: int, e: IRError)
    requires
        0 <= i <= stmts.len(),
        lower_defs(c, stmts.take(i)) == Err::<(CtxModel, Seq<(InternedName, FunctionModel)>), IRError>(e),
    ensures
        lower_defs(c, stmts) == Err::<(CtxModel, Seq<(InternedName, FunctionModel)>), IRError>(e),
    decreases stmts.len() - i,
{
    if i == stmts.len() {
        assert(stmts.take(i) =~= stmts);
    } else {
        assert(stmts.take(i + 1).drop_last() =~= stmts.take(i));
        lemma_defs_err_mono(c, stmts, i + 1, e);
    }
}

/// Definitions appear only at the top level of a statement sequence: each
/// definition's body, and every other statement, is definition-free.
pub open spec fn block_defs_ok(s: Seq<AstModel>) -> bool {
    forall|k: int|
        0 <= k < s.len() ==> match #[trigger] s[k] {
            AstModel::Def { body, .. } => stmts_no_defs(body),
            _ => stmt_no_def(s[k]),
        }
}

/// Definitions appear only at the top level of a program.
pub open spec fn program_defs_ok(p: ProgramModel) -> bool {
    block_defs_ok(p.body)
}

/// Appending a statement extends the models pointwise.
pub proof fn lemma_asts_view_push(s: Seq<Ast>, x: Ast)
    ensures
        asts_view(s.push(x)) == asts_view(s).push(ast_view(x)),
{
    assert(asts_view(s.push(x)) =~= asts_view(s).push(ast_view(x)));
}

/// Deep-copies one statement.
fn clone_ast(a: &Ast) -> (r: Ast)
    ensures
        ast_view(r) == ast_view(*a),
    decreases *a,
{
    match a {
        Ast::Def { name, parameters, body } => {
            proof {
                assert(decreases_to!(*a => *body));
                assert(decreases_to!(*body => body@));
            }
            Ast::Def { name: *name, parameters: copy_names(parameters), body: clone_asts(body) }
        }
        Ast::Return(n) => Ast::Return(*n),
        Ast::While { cond_var, body } => {
            proof {
                assert(decreases_to!(*a => *body));
                assert(decreases_to!(*body => body@));
            }
            Ast::While { cond_var: *cond_var, body: clone_asts(body) }
        }
        Ast::Assign { var_name, fun_name, args } => Ast::Assign {
            var_name: *var_name,
            fun_name: *fun_name,
            args: copy_names(args),
        },
        Ast::Incr(n) => Ast::Incr(*n),
        Ast::Decr(n) => Ast::Decr(*n),
    }
}

/// Deep-copies a statement sequence.
fn clone_asts(v: &Vec<Ast>) -> (r: Vec<Ast>)
    ensures
        asts_view(r@) == asts_view(v@),
    decreases v@,
{
    let mut r: Vec<Ast> = Vec::new();
    let n = v.len();
    let mut i: usize = 0;
    proof {
        assert(asts_view(r@) =~= asts_view(v@.take(0)));
    }
    while i < n
        invariant
            n == v@.len(),
            i <= n,
            asts_view(r@) == asts_view(v@.take(i as int)),
        decreases n - i,
    {
        proof {
            assert(decreases_to!(v@ => v@[i as int]));
        }
        let ghost rprev = r@;
        let cloned = clone_ast(&v[i]);
        r.push(cloned);
        proof {
            lemma_asts_view_push(rprev, cloned);
            assert(v@.take(i + 1).drop_last() =~= v@.take(i as int));
            assert(v@.take(i + 1).last() == v@[i as int]);
            assert(asts_view(v@.take(i + 1)) =~= asts_view(v@.take(i as int)).push(ast_view(
                v@[i as int],
            )));
        }
        i += 1;
    }
    proof {
        assert(v@.take(n as int) =~= v@);
    }
    r
}

/// The first position of `name` in the function table, if any.
fn find_func_index(functions: &Vec<(InternedName, IRFunction)>, name: InternedName) -> (r: Option<
    usize,
>)
    ensures
        match r {
            Some(i) => i as int == assoc_index(funcs_view(functions@), name) && (i as int)
                < functions@.len(),
            None => assoc_index(funcs_view(functions@), name) == functions@.len(),
        },
{
    proof {
        lemma_assoc_index(funcs_view(functions@), name);
    }
    let n = functions.len();
    let mut i: usize = 0;
    while i < n
        invariant
            n == functions@.len(),
            i <= n,
            forall|j: int| 0 <= j < i ==> (#[trigger] funcs_view(functions@)[j]).0 != name,
            0 <= assoc_index(funcs_view(functions@), name) <= funcs_view(functions@).len(),
            assoc_index(funcs_view(functions@), name) < funcs_view(functions@).len()
                ==> funcs_view(functions@)[assoc_index(funcs_view(functions@), name)].0 == name,
            forall|j: int|
                0 <= j < funcs_view(functions@).len() && (#[trigger] funcs_view(functions@)[j]).0
                    == name ==> assoc_index(funcs_view(functions@), name) <= j,
        decreases n - i,
    {
        if functions[i].0 == name {
            proof {
                assert(funcs_view(functions@)[i as int].0 == name);
                assert(assoc_index(funcs_view(functions@), name) == i as int);
            }
            return Some(i);
        }
        proof {
            assert(funcs_view(functions@)[i as int].0 == functions@[i as int].0);
        }
        i += 1;
    }
    proof {
        if assoc_index(funcs_view(functions@), name) < funcs_view(functions@).len() {
            assert(funcs_view(functions@)[assoc_index(funcs_view(functions@), name)].0 == name);
        }
    }
    None
}

/// The lowering of a whole program: inputs and the output become IO values
/// of the root scope, the definitions are lowered in order, and the
/// remaining top-level statements become the main block, which needs no
/// `Return`.
pub open spec fn lower_program(c: CtxModel, p: ProgramModel) -> Result<
    (CtxModel, IRProgramModel),
    IRError,
> {
    let (c1, ivals) = alloc_io_seq(c, p.inputs);
    let (c2, oval) = spec_alloc(c1, p.output, ValueKind::IO);
    match lower_defs(c2, p.body) {
        Err(e) => Err(e),
        Ok((c3, fs)) => match lower_block(c3, non_defs(p.body), false) {
            Err(e) => Err(e),
            Ok((c4, blk)) => Ok(
                (
                    c4,
                    IRProgramModel { inputs: ivals, output: oval, functions: fs, main: blk },
                ),
            ),
        },
    }
}

/// Lowers a whole program in the given root scope.
pub fn convert_program(ctx: &mut Context, program: &Program) -> (r: Result<IRProgram, IRError>)
    requires
        ctx_wf(old(ctx)@),
        program_defs_ok(program.deep_view()),
        old(ctx)@.next_id + program_weight(program.deep_view()) <= u64::MAX,
        stmts_weight(asts_view(program.body@)) < 0x7fff_ffff_ffff_ffff,
    ensures
        ctx_wf(final(ctx)@),
        match r {
            Ok(ir) => lower_program(old(ctx)@, program.deep_view()) == Ok::<
                (CtxModel, IRProgramModel),
                IRError,
            >((final(ctx)@, ir.deep_view())),
            Err(e) => lower_program(old(ctx)@, program.deep_view()) == Err::<
                (CtxModel, IRProgramModel),
                IRError,
            >(e),
        },
{
    let ghost c0 = old(ctx)@;
    let ghost p = program.deep_view();
    let mut inputs: Vec<Value> = Vec::new();
    let m = program.inputs.len();
    let mut k: usize = 0;
    proof {
        assert(p.inputs.take(0) =~= Seq::<InternedName>::empty());
    }
    while k < m
        invariant
            m == program.inputs@.len(),
            k <= m,
            p == program.deep_view(),
            ctx_wf(c0),
            c0 == old(ctx)@,
            c0.next_id + program_weight(p) <= u64::MAX,
            (ctx@, inputs@) == alloc_io_seq(c0, p.inputs.take(k as int)),
        decreases m - k,
    {
        proof {
            lemma_alloc_io_props(c0, p.inputs.take(k as int));
            assert(p.inputs.take(k + 1).drop_last() =~= p.inputs.take(k as int));
            assert(p.inputs.take(k + 1).last() == p.inputs[k as int]);
        }
        let v = ctx.new_io_value(program.inputs[k]);
        inputs.push(v);
        proof {
            assert((ctx@, inputs@) == alloc_io_seq(c0, p.inputs.take(k + 1)));
        }
        k += 1;
    }
    proof {
        assert(p.inputs.take(m as int) =~= p.inputs);
        lemma_alloc_io_props(c0, p.inputs);
    }
    let output = ctx.new_io_value(program.output);
    let ghost c2 = ctx@;
    proof {
        lemma_alloc_wf(alloc_io_seq(c0, p.inputs).0, p.output, ValueKind::IO);
        assert(c2 == spec_alloc(alloc_io_seq(c0, p.inputs).0, p.output, ValueKind::IO).0);
        assert(c2.next_id == c0.next_id + p.inputs.len() + 1);
    }
    let mut functions: Vec<(InternedName, IRFunction)> = Vec::new();
    let n = program.body.len();
    let mut i: usize = 0;
    proof {
        assert(p.body.take(0) =~= Seq::<AstModel>::empty());
        assert(funcs_view(functions@) =~= Seq::<(InternedName, FunctionModel)>::empty());
    }
    while i < n
        invariant
            n == program.body@.len(),
            i <= n,
            p == program.deep_view(),
            program_defs_ok(p),
            ctx_wf(c2),
            c0 == old(ctx)@,
            c2 == spec_alloc(alloc_io_seq(c0, p.inputs).0, p.output, ValueKind::IO).0,
            c2.next_id + stmts_weight(p.body) <= u64::MAX,
            stmts_weight(p.body) < 0x7fff_ffff_ffff_ffff,
            lower_defs(c2, p.body.take(i as int)) == Ok::<
                (CtxModel, Seq<(InternedName, FunctionModel)>),
                IRError,
            >((ctx@, funcs_view(functions@))),
        decreases n - i,
    {
        proof {
            lemma_stmts_weight_take_le(p.body, i as int);
            lemma_stmts_weight_take(p.body, i as int);
            lemma_stmts_weight_take_le(p.body, i + 1);
            lemma_defs_props(c2, p.body.take(i as int));
            assert(p.body[i as int] == ast_view(program.body@[i as int]));
            assert(p.body.take(i + 1).drop_last() =~= p.body.take(i as int));
            assert(p.body.take(i + 1).last() == p.body[i as int]);
        }
        match &program.body[i] {
            Ast::Def { name, parameters, body } => {
                proof {
                    assert(program.body@[i as int] == Ast::Def {
                        name: *name,
                        parameters: *parameters,
                        body: *body,
                    });
                    assert(p.body[i as int] == AstModel::Def {
                        name: *name,
                        parameters: parameters@,
                        body: asts_view(body@),
                    });
                    assert(stmt_weight(p.body[i as int]) == parameters@.len() + stmts_weight(
                        asts_view(body@),
                    ) + 1);
                }
                match convert_function(ctx, parameters, body) {
                    Ok(f) => {
                        let ghost fsprev = funcs_view(functions@);
                        let ghost fmodel = f.deep_view();
                        proof {
                            lemma_assoc_index(fsprev, *name);
                        }
                        match find_func_index(&functions, *name) {
                            Some(idx) => {
                                functions[idx] = (*name, f);
                                proof {
                                    assert(funcs_view(functions@) =~= funcs_insert(
                                        fsprev,
                                        *name,
                                        fmodel,
                                    ));
                                }
                            }
                            None => {
                                functions.push((*name, f));
                                proof {
                                    assert(funcs_view(functions@) =~= funcs_insert(
                                        fsprev,
                                        *name,
                                        fmodel,
                                    ));
                                }
                            }
                        }
                    }
                    Err(e) => {
                        proof {
                            assert(lower_defs(c2, p.body.take(i + 1)) == Err::<
                                (CtxModel, Seq<(InternedName, FunctionModel)>),
                                IRError,
                            >(e));
                            lemma_defs_err_mono(c2, p.body, i + 1, e);
                            assert(lower_program(c0, p) == Err::<
                                (CtxModel, IRProgramModel),
                                IRError,
                            >(e));
                        }
                        return Err(e);
                    }
                }
            }
            _ => {
                proof {
                    match program.body@[i as int] {
                        Ast::Def { .. } => {
                            assert(false);
                        }
                        _ => {}
                    }
                    assert(!(p.body[i as int] is Def));
                }
            }
        }
        i += 1;
    }
    proof {
        assert(p.body.take(n as int) =~= p.body);
        lemma_defs_props(c2, p.body);
    }
    let ghost c3 = ctx@;
    let mut statements: Vec<Ast> = Vec::new();
    let mut j: usize = 0;
    proof {
        assert(p.body.take(0) =~= Seq::<AstModel>::empty());
        assert(asts_view(statements@) =~= non_defs(p.body.take(0)));
    }
    while j < n
        invariant
            n == program.body@.len(),
            j <= n,
            p == program.deep_view(),
            program_defs_ok(p),
            asts_view(statements@) == non_defs(p.body.take(j as int)),
            stmts_no_defs(asts_view(statements@)),
            stmts_weight(asts_view(statements@)) <= stmts_weight(p.body.take(j as int)),
        decreases n - j,
    {
        proof {
            assert(p.body.take(j + 1).drop_last() =~= p.body.take(j as int));
            assert(p.body.take(j + 1).last() == p.body[j as int]);
            lemma_stmts_weight_take(p.body, j as int);
            assert(p.body[j as int] == ast_view(program.body@[j as int]));
            lemma_stmt_weight_pos(p.body[j as int]);
        }
        match &program.body[j] {
            Ast::Def { .. } => {
                proof {
                    assert(p.body[j as int] is Def);
                    assert(non_defs(p.body.take(j + 1)) =~= non_defs(p.body.take(j as int)));
                }
            }
            _ => {
                proof {
                    match program.body@[j as int] {
                        Ast::Def { .. } => {
                            assert(false);
                        }
                        _ => {}
                    }
                    assert(!(p.body[j as int] is Def));
                    assert(stmt_no_def(p.body[j as int]));
                }
                let ghost sprev = statements@;
                let cloned = clone_ast(&program.body[j]);
                statements.push(cloned);
                proof {
                    lemma_asts_view_push(sprev, cloned);
                    assert(non_defs(p.body.take(j + 1)) =~= non_defs(p.body.take(j as int)).push(
                        p.body[j as int],
                    ));
                    lemma_stmts_weight_snoc(asts_view(sprev), p.body[j as int]);
                    assert(stmts_no_defs(asts_view(statements@)));
                }
            }
        }
        j += 1;
    }
    proof {
        assert(p.body.take(n as int) =~= p.body);
    }
    let block = match convert_block(ctx, &statements, false) {
        Ok(blk) => blk,
        Err(e) => {
            proof {
                assert(false);
            }
            vstd::pervasive::unreached()
        }
    };
    let r = IRProgram { inputs, output, functions, main: block };
    proof {
        assert(r.deep_view().inputs == alloc_io_seq(c0, p.inputs).1);
        assert(lower_program(c0, p) == Ok::<(CtxModel, IRProgramModel), IRError>(
            (ctx@, r.deep_view()),
        ));
    }
    Ok(r)
}

// ---------------------------------------------------------------------------
// Deferred call validation and the entry point.
// ---------------------------------------------------------------------------

/// Looks a function up by name in the lowered table.
pub open spec fn funcs_find(fs: Seq<(InternedName, FunctionModel)>, name: InternedName) -> Option<
    FunctionModel,
> {
    let i = assoc_index(fs, name);
    if i < fs.len() {
        Some(fs[i].1)
    } else {
        None
    }
}

/// The outcome of replaying one recorded call against the function table:
/// an undefined callee or a wrong argument count fails, naming the call's
/// target variable and the callee.
pub open spec fn check_call(call: CallModel, fs: Seq<(InternedName, FunctionModel)>) -> Option<
    IRError,
> {
    match funcs_find(fs, call.fun_name) {
        None => Some(IRError::UndefinedFunction { target: call.var_name, callee: call.fun_name }),
        Some(f) => if f.params.len() != call.args.len() {
            Some(
                IRError::ArityMismatch {
                    target: call.var_name,
                    callee: call.fun_name,
                    expected: f.params.len() as usize,
                    actual: call.args.len() as usize,
                },
            )
        } else {
            None
        },
    }
}

/// Replays the recorded calls in order; the first bad one decides.
pub open spec fn validate_calls(
    calls: Seq<CallModel>,
    fs: Seq<(InternedName, FunctionModel)>,
) -> Option<IRError>
    decreases calls.len(),
{
    if calls.len() == 0 {
        None
    } else {
        match check_call(calls[0], fs) {
            Some(e) => Some(e),
            None => validate_calls(calls.skip(1), fs),
        }
    }
}

/// The scope everything starts from: empty, with the counter at zero.
pub open spec fn root_ctx_model() -> CtxModel {
    CtxModel { next_id: 0, bindings: Seq::empty(), calls: Seq::empty() }
}

/// The whole pipeline: lower the program, then replay the recorded calls
/// and fail on the first one whose callee is undefined or whose argument
/// count differs from the callee's parameter count.
pub open spec fn spec_convert_program_to_ir(p: ProgramModel) -> Result<IRProgramModel, IRError> {
    match lower_program(root_ctx_model(), p) {
        Err(e) => Err(e),
        Ok((c, prog)) => match validate_calls(c.calls, prog.functions) {
            Some(e) => Err(e),
            None => Ok(prog),
        },
    }
}

/// Looks a function up by name, first definition wins.
fn find_function<'a>(
    functions: &'a Vec<(InternedName, IRFunction)>,
    name: InternedName,
) -> (r: Option<&'a IRFunction>)
    ensures
        match r {
            Some(f) => funcs_find(funcs_view(functions@), name) == Some(f.deep_view()),
            None => funcs_find(funcs_view(functions@), name) is None,
        },
{
    proof {
        lemma_assoc_index(funcs_view(functions@), name);
    }
    match find_func_index(functions, name) {
        Some(i) => {
            proof {
                assert(funcs_view(functions@)[i as int].1 == functions@[i as int].1.deep_view());
            }
            Some(&functions[i].1)
        }
        None => None,
    }
}

/// Translates a parsed program into the lowered representation, or fails
/// with the first error: a function body without a `Return` anywhere, a
/// call to an undefined function, or a call whose argument count differs
/// from the callee's parameter count. The name store that issued the
/// program's handles travels alongside so callers can render names.
///
/// The two preconditions restate what a well-formed program already has:
/// definitions stand only at the top level (the parser produces no other
/// shape; a definition anywhere else has no meaning here), and the
/// program's total weight stays in machine range, which keeps the value-id
/// counter and every coalesced delta from overflowing.
pub fn convert_program_to_ir(program: &Program, _name_store: &NameStore) -> (r: Result<
    IRProgram,
    IRError,
>)
    requires
        program_defs_ok(program.deep_view()),
        program_weight(program.deep_view()) < 0x7fff_ffff_ffff_ffff,
    ensures
        match r {
            Ok(ir) => spec_convert_program_to_ir(program.deep_view()) == Ok::<
                IRProgramModel,
                IRError,
            >(ir.deep_view()),
            Err(e) => spec_convert_program_to_ir(program.deep_view()) == Err::<
                IRProgramModel,
                IRError,
            >(e),
        },
{
    let ghost p = program.deep_view();
    let ghost c0m = root_ctx_model();
    let mut ctx = Context::root();
    proof {
        assert(ctx@ == c0m);
    }
    let ir_prog = match convert_program(&mut ctx, program) {
        Ok(ir) => ir,
        Err(e) => {
            proof {
                assert(spec_convert_program_to_ir(p) == Err::<IRProgramModel, IRError>(e));
            }
            return Err(e);
        }
    };
    let ghost callsm = ctx@.calls;
    let ghost fsm = funcs_view(ir_prog.functions@);
    let ncalls = ctx.function_calls.len();
    let mut k: usize = 0;
    proof {
        assert(callsm.skip(0) =~= callsm);
    }
    while k < ncalls
        invariant
            ncalls == ctx.function_calls@.len(),
            k <= ncalls,
            callsm == ctx@.calls,
            fsm == funcs_view(ir_prog.functions@),
            p == program.deep_view(),
            c0m == root_ctx_model(),
            lower_program(c0m, p) == Ok::<(CtxModel, IRProgramModel), IRError>(
                (ctx@, ir_prog.deep_view()),
            ),
            validate_calls(callsm, fsm) == validate_calls(callsm.skip(k as int), fsm),
        decreases ncalls - k,
    {
        let call = &ctx.function_calls[k];
        proof {
            assert(callsm[k as int] == ctx.function_calls@[k as int].deep_view());
            assert(callsm.skip(k as int)[0] == callsm[k as int]);
            assert(callsm.skip(k as int).skip(1) =~= callsm.skip(k + 1));
        }
        match find_function(&ir_prog.functions, call.fun_name) {
            Some(func) => {
                if func.params.len() != call.args.len() {
                    let e = IRError::ArityMismatch {
                        target: call.var_name,
                        callee: call.fun_name,
                        expected: func.params.len(),
                        actual: call.args.len(),
                    };
                    proof {
                        assert(check_call(callsm[k as int], fsm) == Some(e));
                        assert(validate_calls(callsm, fsm) == Some(e));
                        assert(ir_prog.deep_view().functions == fsm);
                        assert(spec_convert_program_to_ir(p) == Err::<IRProgramModel, IRError>(e));
                    }
                    return Err(e);
                }
                proof {
                    assert(check_call(callsm[k as int], fsm) is None);
                }
            }
            None => {
                let e = IRError::UndefinedFunction {
                    target: call.var_name,
                    callee: call.fun_name,
                };
                proof {
                    assert(check_call(callsm[k as int], fsm) == Some(e));
                    assert(validate_calls(callsm, fsm) == Some(e));
                    assert(ir_prog.deep_view().functions == fsm);
                    assert(spec_convert_program_to_ir(p) == Err::<IRProgramModel, IRError>(e));
                }
                return Err(e);
            }
        }
        k += 1;
    }
    proof {
        assert(callsm.skip(ncalls as int) =~= Seq::<CallModel>::empty());
        assert(validate_calls(callsm, fsm) is None);
    }
    Ok(ir_prog)
}

// ---------------------------------------------------------------------------
// Laws of the return check.
// ---------------------------------------------------------------------------

/// Whether a source statement holds a `Return` anywhere, loop bodies
/// included.
pub open spec fn ast_stmt_has_return(a: AstModel) -> bool
    decreases a,
{
    match a {
        AstModel::Return(_) => true,
        AstModel::While { body, .. } => ast_has_return(body),
        _ => false,
    }
}

pub open spec fn ast_has_return(s: Seq<AstModel>) -> bool
    decreases s,
{
    exists|k: int| 0 <= k < s.len() && ast_stmt_has_return(#[trigger] s[k])
}

/// A flush emits only value modifications, never a `Return`.
proof fn lemma_flush_no_return(o: Seq<(Value, int)>)
    ensures
        !stmts_have_return(flush_model(o)),
{
    assert forall|k: int| 0 <= k < flush_model(o).len() implies !stmt_has_return(
        #[trigger] flush_model(o)[k],
    ) by {}
}

/// `Return` existence distributes over concatenation.
proof fn lemma_have_return_concat(a: Seq<StmtModel>, b: Seq<StmtModel>)
    ensures
        stmts_have_return(a + b) == (stmts_have_return(a) || stmts_have_return(b)),
{
    if stmts_have_return(a) {
        let k = choose|k: int| 0 <= k < a.len() && stmt_has_return(#[trigger] a[k]);
        assert((a + b)[k] == a[k]);
    }
    if stmts_have_return(b) {
        let k = choose|k: int| 0 <= k < b.len() && stmt_has_return(#[trigger] b[k]);
        assert((a + b)[a.len() + k] == b[k]);
    }
    if stmts_have_return(a + b) {
        let k = choose|k: int| 0 <= k < (a + b).len() && stmt_has_return(#[trigger] (a + b)[k]);
        if k < a.len() {
            assert(a[k] == (a + b)[k]);
        } else {
            assert(b[k - a.len()] == (a + b)[k]);
        }
    }
}

/// One step emits a `Return` exactly when the statement holds one.
proof fn lemma_step_return(c: CtxModel, o: Seq<(Value, int)>, out: Seq<StmtModel>, st: AstModel)
    requires
        stmt_no_def(st),
    ensures
        stmts_have_return(lower_step(c, o, out, st).2) == (stmts_have_return(out)
            || ast_stmt_has_return(st)),
    decreases st, 2int,
{
    let (c2, o2, out2) = lower_step(c, o, out, st);
    match st {
        AstModel::Incr(_) => {}
        AstModel::Decr(_) => {}
        AstModel::Return(name) => {
            lemma_flush_no_return(o);
            lemma_have_return_concat(out, flush_model(o));
            let (cx, v) = spec_lookup_or_create(c, name);
            lemma_have_return_concat(out + flush_model(o), seq![StmtModel::Return(v)]);
            assert((out + flush_model(o)).push(StmtModel::Return(v)) =~= (out + flush_model(o))
                + seq![StmtModel::Return(v)]);
            assert(stmt_has_return(seq![StmtModel::Return(v)][0]));
        }
        AstModel::Assign { var_name, fun_name, args } => {
            lemma_flush_no_return(o);
            lemma_have_return_concat(out, flush_model(o));
            let stmt = out2.last();
            assert(out2 =~= (out + flush_model(o)) + seq![stmt]);
            lemma_have_return_concat(out + flush_model(o), seq![stmt]);
            assert(!stmt_has_return(seq![stmt][0]));
        }
        AstModel::While { cond_var, body } => {
            lemma_flush_no_return(o);
            lemma_have_return_concat(out, flush_model(o));
            let (cx, cv) = spec_lookup_or_create(c, cond_var);
            let (cy, body_ir) = lower_stmts(cx, body);
            lemma_lower_return(cx, body);
            let stmt = StmtModel::Loop { condition_var: cv, body: body_ir };
            assert(out2 =~= (out + flush_model(o)) + seq![stmt]);
            lemma_have_return_concat(out + flush_model(o), seq![stmt]);
            assert(stmt_has_return(seq![stmt][0]) == ast_has_return(body));
        }
        AstModel::Def { .. } => {}
    }
}

/// A prefix's lowering emits a `Return` exactly when a statement of the
/// prefix holds one.
proof fn lemma_pfx_return(c: CtxModel, stmts: Seq<AstModel>)
    requires
        stmts_no_defs(stmts),
    ensures
        stmts_have_return(lower_stmts_pfx(c, stmts).2) == ast_has_return(stmts),
    decreases stmts, 0int,
{
    if stmts.len() == 0 {
        assert(!stmts_have_return(Seq::<StmtModel>::empty()));
        assert(!ast_has_return(stmts));
    } else {
        let pre = stmts.drop_last();
        assert(stmts_no_defs(pre)) by {
            assert(forall|k: int| 0 <= k < pre.len() ==> pre[k] == #[trigger] stmts[k]);
        }
        lemma_pfx_return(c, pre);
        let (c1, o1, out1) = lower_stmts_pfx(c, pre);
        assert(stmt_no_def(stmts.last()));
        lemma_step_return(c1, o1, out1, stmts.last());
        assert(ast_has_return(stmts) == (ast_has_return(pre) || ast_stmt_has_return(stmts.last())))
            by {
            if ast_has_return(pre) {
                let k = choose|k: int| 0 <= k < pre.len() && ast_stmt_has_return(#[trigger] pre[k]);
                assert(stmts[k] == pre[k]);
            }
            if ast_stmt_has_return(stmts.last()) {
                assert(ast_stmt_has_return(stmts[stmts.len() - 1]));
            }
            if ast_has_return(stmts) {
                let k = choose|k: int|
                    0 <= k < stmts.len() && ast_stmt_has_return(#[trigger] stmts[k]);
                if k < stmts.len() - 1 {
                    assert(pre[k] == stmts[k]);
                }
            }
        }
    }
}

/// The lowering of a sequence emits a `Return` exactly when the sequence
/// holds one.
proof fn lemma_lower_return(c: CtxModel, stmts: Seq<AstModel>)
    requires
        stmts_no_defs(stmts),
    ensures
        stmts_have_return(lower_stmts(c, stmts).1) == ast_has_return(stmts),
    decreases stmts, 1int,
{
    lemma_pfx_return(c, stmts);
    let (c1, o1, out1) = lower_stmts_pfx(c, stmts);
    lemma_flush_no_return(o1);
    lemma_have_return_concat(out1, flush_model(o1));
}

/// A function body lowers successfully exactly when it holds at least one
/// `Return` anywhere — even one buried in a loop body that may never run —
/// and fails with `MissingReturn` otherwise. A block that is not a function
/// body is never rejected.
pub proof fn lemma_return_check(c: CtxModel, stmts: Seq<AstModel>)
    requires
        stmts_no_defs(stmts),
    ensures
        lower_block(c, stmts, true) is Ok <==> ast_has_return(stmts),
        !ast_has_return(stmts) ==> lower_block(c, stmts, true) == Err::<
            (CtxModel, BlockModel),
            IRError,
        >(IRError::MissingReturn),
        lower_block(c, stmts, false) is Ok,
{
    lemma_lower_return(c, stmts);
}

// ---------------------------------------------------------------------------
// Laws of coalescing.
// ---------------------------------------------------------------------------

/// A flush emits at most one modification per value: the pending entries
/// carry pairwise distinct values.
pub proof fn lemma_flush_one_per_value(o: Seq<(Value, int)>)
    requires
        opt_wf(o),
    ensures
        forall|i: int, j: int| 0 <= i < j < o.len() ==> (#[trigger] o[i]).0 != (#[trigger] o[j]).0,
        forall|i: int, j: int|
            0 <= i < j < flush_model(o).len() ==> #[trigger] flush_model(o)[i]
                != #[trigger] flush_model(o)[j],
{
    assert forall|i: int, j: int|
        0 <= i < j < flush_model(o).len() implies #[trigger] flush_model(o)[i]
        != #[trigger] flush_model(o)[j] by {
        assert(o[i].0 != o[j].0);
    }
}

/// Two identical consecutive increments, or decrements, of one variable
/// lower to exactly one `ValueModify` of its value whose delta is the sum,
/// never to two statements.
pub proof fn lemma_coalesce_consecutive(c: CtxModel, x: InternedName, up: bool)
    requires
        ctx_wf(c),
        c.next_id < u64::MAX,
    ensures
        ({
            let st = if up {
                AstModel::Incr(x)
            } else {
                AstModel::Decr(x)
            };
            let d: int = if up {
                1
            } else {
                -1
            };
            let v = spec_lookup_or_create(c, x).1;
            lower_stmts(c, seq![st, st]).1 == seq![StmtModel::ValueModify(v, 2 * d)]
        }),
{
    let st = if up {
        AstModel::Incr(x)
    } else {
        AstModel::Decr(x)
    };
    let d: int = if up {
        1int
    } else {
        -1int
    };
    let s = seq![st, st];
    lemma_lookup_wf(c, x);
    let (c2, v) = spec_lookup_or_create(c, x);
    assert(s.drop_last() =~= seq![st]);
    assert(seq![st].drop_last() =~= Seq::<AstModel>::empty());
    assert(lower_stmts_pfx(c, Seq::<AstModel>::empty()) == (
        c,
        Seq::<(Value, int)>::empty(),
        Seq::<StmtModel>::empty(),
    ));
    let o1 = opt_bump(Seq::<(Value, int)>::empty(), v, d);
    assert(o1 == seq![(v, d)]);
    assert(seq![st].last() == st);
    assert(lower_step(c, Seq::<(Value, int)>::empty(), Seq::<StmtModel>::empty(), st) == (
        c2,
        o1,
        Seq::<StmtModel>::empty(),
    ));
    assert(lower_stmts_pfx(c, seq![st]) == (c2, o1, Seq::<StmtModel>::empty()));
    // the second lookup finds the same binding and returns the same value
    lemma_binding_index(c2.bindings, x);
    assert(spec_lookup_or_create(c2, x) == (c2, v));
    let o2 = opt_bump(o1, v, d);
    assert(o2 =~= seq![(v, 2 * d)]);
    assert(s.last() == st);
    assert(lower_step(c2, o1, Seq::<StmtModel>::empty(), st) == (
        c2,
        o2,
        Seq::<StmtModel>::empty(),
    ));
    assert(lower_stmts_pfx(c, s) == (c2, o2, Seq::<StmtModel>::empty()));
    assert(flush_model(o2) =~= seq![StmtModel::ValueModify(v, 2 * d)]);
    assert(Seq::<StmtModel>::empty() + flush_model(o2) =~= flush_model(o2));
}

// ---------------------------------------------------------------------------
// Laws of call validation.
// ---------------------------------------------------------------------------

/// The calls a source statement makes, in traversal order.
pub open spec fn stmt_calls(a: AstModel) -> Seq<CallModel>
    decreases a,
{
    match a {
        AstModel::Assign { var_name, fun_name, args } => seq![
            CallModel { var_name, fun_name, args },
        ],
        AstModel::While { body, .. } => stmts_calls(body),
        AstModel::Def { body, .. } => stmts_calls(body),
        _ => Seq::empty(),
    }
}

pub open spec fn stmts_calls(s: Seq<AstModel>) -> Seq<CallModel>
    decreases s,
{
    if s.len() == 0 {
        Seq::empty()
    } else {
        stmts_calls(s.drop_last()) + stmt_calls(s.last())
    }
}

/// The calls a whole program records: those of the function bodies, in
/// definition order, then those of the main block.
pub open spec fn program_calls(p: ProgramModel) -> Seq<CallModel> {
    defs_calls(p.body) + stmts_calls(non_defs(p.body))
}

/// The calls of the definitions' bodies, in order.
pub open spec fn defs_calls(s: Seq<AstModel>) -> Seq<CallModel>
    decreases s,
{
    if s.len() == 0 {
        Seq::empty()
    } else {
        defs_calls(s.drop_last()) + match s.last() {
            AstModel::Def { body, .. } => stmts_calls(body),
            _ => Seq::empty(),
        }
    }
}

/// Argument resolution records no call.
proof fn lemma_args_calls(c: CtxModel, args: Seq<InternedName>)
    ensures
        lower_args(c, args).0.calls == c.calls,
    decreases args.len(),
{
    if args.len() > 0 {
        lemma_args_calls(c, args.drop_last());
    }
}

/// One step appends exactly the calls its statement makes.
proof fn lemma_step_calls(c: CtxModel, o: Seq<(Value, int)>, out: Seq<StmtModel>, st: AstModel)
    requires
        stmt_no_def(st),
    ensures
        lower_step(c, o, out, st).0.calls == c.calls + stmt_calls(st),
    decreases st, 2int,
{
    let (c2, o2, out2) = lower_step(c, o, out, st);
    match st {
        AstModel::Incr(_) => {
            assert(c2.calls =~= c.calls + stmt_calls(st));
        }
        AstModel::Decr(_) => {
            assert(c2.calls =~= c.calls + stmt_calls(st));
        }
        AstModel::Return(_) => {
            assert(c2.calls =~= c.calls + stmt_calls(st));
        }
        AstModel::Assign { var_name, fun_name, args } => {
            let c1 = CtxModel {
                next_id: c.next_id,
                bindings: c.bindings,
                calls: c.calls.push(CallModel { var_name, fun_name, args }),
            };
            lemma_args_calls(c1, args);
            assert(c2.calls =~= c.calls + stmt_calls(st));
        }
        AstModel::While { cond_var, body } => {
            let (cx, _) = spec_lookup_or_create(c, cond_var);
            assert(cx.calls == c.calls);
            lemma_lower_calls(cx, body);
        }
        AstModel::Def { .. } => {}
    }
}

/// Lowering a prefix appends exactly the calls its statements make.
proof fn lemma_pfx_calls(c: CtxModel, stmts: Seq<AstModel>)
    requires
        stmts_no_defs(stmts),
    ensures
        lower_stmts_pfx(c, stmts).0.calls == c.calls + stmts_calls(stmts),
    decreases stmts, 0int,
{
    if stmts.len() == 0 {
        assert(c.calls + stmts_calls(stmts) =~= c.calls);
    } else {
        let pre = stmts.drop_last();
        assert(stmts_no_defs(pre)) by {
            assert(forall|k: int| 0 <= k < pre.len() ==> pre[k] == #[trigger] stmts[k]);
        }
        lemma_pfx_calls(c, pre);
        let (c1, o1, out1) = lower_stmts_pfx(c, pre);
        assert(stmt_no_def(stmts.last()));
        lemma_step_calls(c1, o1, out1, stmts.last());
        assert((c.calls + stmts_calls(pre)) + stmt_calls(stmts.last()) =~= c.calls + stmts_calls(
            stmts,
        ));
    }
}

/// Lowering a sequence appends exactly the calls its statements make.
proof fn lemma_lower_calls(c: CtxModel, stmts: Seq<AstModel>)
    requires
        stmts_no_defs(stmts),
    ensures
        lower_stmts(c, stmts).0.calls == c.calls + stmts_calls(stmts),
    decreases stmts, 1int,
{
    lemma_pfx_calls(c, stmts);
}

/// A successfully lowered function appends exactly its body's calls.
proof fn lemma_function_calls(c: CtxModel, params: Seq<InternedName>, body: Seq<AstModel>)
    requires
        stmts_no_defs(body),
    ensures
        ({
            match lower_function(c, params, body) {
                Ok((c2, _)) => c2.calls == c.calls + stmts_calls(body),
                Err(_) => true,
            }
        }),
{
    let sub0 = CtxModel {
        next_id: c.next_id,
        bindings: Seq::empty(),
        calls: Seq::empty(),
    };
    let (sub1, _) = alloc_io_seq(sub0, params);
    assert(sub1.calls == sub0.calls) by {
        lemma_alloc_io_calls(sub0, params);
    }
    lemma_lower_calls(sub1, body);
    assert(Seq::<CallModel>::empty() + stmts_calls(body) =~= stmts_calls(body));
}

/// IO seeding records no call.
proof fn lemma_alloc_io_calls(c: CtxModel, names: Seq<InternedName>)
    ensures
        alloc_io_seq(c, names).0.calls == c.calls,
    decreases names.len(),
{
    if names.len() > 0 {
        lemma_alloc_io_calls(c, names.drop_last());
    }
}

/// Successfully lowered definitions append exactly their bodies' calls.
proof fn lemma_defs_calls(c: CtxModel, stmts: Seq<AstModel>)
    requires
        forall|k: int|
            0 <= k < stmts.len() ==> match #[trigger] stmts[k] {
                AstModel::Def { body, .. } => stmts_no_defs(body),
                _ => true,
            },
    ensures
        ({
            match lower_defs(c, stmts) {
                Ok((c2, _)) => c2.calls == c.calls + defs_calls(stmts),
                Err(_) => true,
            }
        }),
    decreases stmts,
{
    if stmts.len() == 0 {
        assert(c.calls + defs_calls(stmts) =~= c.calls);
    } else {
        let pre = stmts.drop_last();
        assert(forall|k: int|
            0 <= k < pre.len() ==> pre[k] == #[trigger] stmts[k]);
        lemma_defs_calls(c, pre);
        match lower_defs(c, pre) {
            Err(_) => {}
            Ok((c1, fs)) => {
                assert(stmts.last() == stmts[stmts.len() - 1]);
                match stmts.last() {
                    AstModel::Def { name, parameters, body } => {
                        lemma_function_calls(c1, parameters, body);
                        match lower_function(c1, parameters, body) {
                            Ok((c2, _)) => {
                                assert((c.calls + defs_calls(pre)) + stmts_calls(body) =~= c.calls
                                    + defs_calls(stmts));
                            }
                            Err(_) => {}
                        }
                    }
                    _ => {
                        assert(c1.calls + Seq::<CallModel>::empty() =~= c1.calls);
                        assert(c.calls + defs_calls(pre) =~= c.calls + defs_calls(stmts));
                    }
                }
            }
        }
    }
}

/// The non-definition statements of a definition-free-at-depth program are
/// definition-free.
proof fn lemma_non_defs_no_defs(s: Seq<AstModel>)
    requires
        forall|k: int|
            0 <= k < s.len() ==> match #[trigger] s[k] {
                AstModel::Def { .. } => true,
                _ => stmt_no_def(s[k]),
            },
    ensures
        stmts_no_defs(non_defs(s)),
    decreases s,
{
    if s.len() > 0 {
        let pre = s.drop_last();
        assert(forall|k: int| 0 <= k < pre.len() ==> pre[k] == #[trigger] s[k]);
        lemma_non_defs_no_defs(pre);
        assert(s.last() == s[s.len() - 1]);
        if !(s.last() is Def) {
            assert(non_defs(s) =~= non_defs(pre).push(s.last()));
            assert forall|k: int| 0 <= k < non_defs(s).len() implies stmt_no_def(
                #[trigger] non_defs(s)[k],
            ) by {
                if k < non_defs(pre).len() {
                    assert(non_defs(s)[k] == non_defs(pre)[k]);
                }
            }
        } else {
            assert(non_defs(s) =~= non_defs(pre));
        }
    }
}

/// A successful program lowering records exactly the program's calls.
proof fn lemma_program_records_calls(c0: CtxModel, p: ProgramModel)
    requires
        program_defs_ok(p),
    ensures
        ({
            match lower_program(c0, p) {
                Ok((c, _)) => c.calls == c0.calls + program_calls(p),
                Err(_) => true,
            }
        }),
{
    lemma_alloc_io_calls(c0, p.inputs);
    let (c1, _) = alloc_io_seq(c0, p.inputs);
    let (c2, _) = spec_alloc(c1, p.output, ValueKind::IO);
    assert(c2.calls == c0.calls);
    assert(forall|k: int|
        0 <= k < p.body.len() ==> match #[trigger] p.body[k] {
            AstModel::Def { body, .. } => stmts_no_defs(body),
            _ => true,
        });
    lemma_defs_calls(c2, p.body);
    match lower_defs(c2, p.body) {
        Err(_) => {}
        Ok((c3, _)) => {
            assert(forall|k: int|
                0 <= k < p.body.len() ==> match #[trigger] p.body[k] {
                    AstModel::Def { .. } => true,
                    _ => stmt_no_def(p.body[k]),
                });
            lemma_non_defs_no_defs(p.body);
            lemma_lower_calls(c3, non_defs(p.body));
            match lower_block(c3, non_defs(p.body), false) {
                Err(_) => {}
                Ok((c4, _)) => {
                    assert((c0.calls + defs_calls(p.body)) + stmts_calls(non_defs(p.body))
                        =~= c0.calls + program_calls(p));
                }
            }
        }
    }
}

/// Whether an error names the target variable and the callee of a call.
pub open spec fn error_names_call(e: IRError, call: CallModel) -> bool {
    match e {
        IRError::UndefinedFunction { target, callee } => target == call.var_name && callee
            == call.fun_name,
        IRError::ArityMismatch { target, callee, .. } => target == call.var_name && callee
            == call.fun_name,
        IRError::MissingReturn => false,
    }
}

/// Validation succeeds exactly when every recorded call checks out, and a
/// failure is the first bad call's error, which names that call.
proof fn lemma_validate_calls(calls: Seq<CallModel>, fs: Seq<(InternedName, FunctionModel)>)
    ensures
        validate_calls(calls, fs) is None <==> (forall|k: int|
            0 <= k < calls.len() ==> check_call(#[trigger] calls[k], fs) is None),
        match validate_calls(calls, fs) {
            Some(e) => exists|k: int|
                0 <= k < calls.len() && check_call(#[trigger] calls[k], fs) == Some(e)
                    && error_names_call(e, calls[k]),
            None => true,
        },
    decreases calls.len(),
{
    if calls.len() > 0 {
        lemma_validate_calls(calls.skip(1), fs);
        assert(forall|k: int|
            0 <= k < calls.skip(1).len() ==> calls.skip(1)[k] == #[trigger] calls[k + 1]);
        match check_call(calls[0], fs) {
            Some(e) => {
                assert(error_names_call(e, calls[0]));
            }
            None => {
                match validate_calls(calls.skip(1), fs) {
                    Some(e) => {
                        let k = choose|k: int|
                            0 <= k < calls.skip(1).len() && check_call(
                                #[trigger] calls.skip(1)[k],
                                fs,
                            ) == Some(e) && error_names_call(e, calls.skip(1)[k]);
                        assert(calls.skip(1)[k] == calls[k + 1]);
                    }
                    None => {
                        assert forall|k: int| 0 <= k < calls.len() implies check_call(
                            #[trigger] calls[k],
                            fs,
                        ) is None by {
                            if k > 0 {
                                assert(calls[k] == calls.skip(1)[k - 1]);
                            }
                        }
                    }
                }
            }
        }
    }
}

/// A call to an undefined function, or one whose argument count differs
/// from the callee's declared parameter count, never lowers silently: when
/// the program's statements lower, the pipeline succeeds exactly when every
/// call in the program checks out against the lowered function table, and
/// otherwise fails with an error naming the offending call's target
/// variable and callee.
pub proof fn lemma_bad_call_never_silent(p: ProgramModel)
    requires
        program_defs_ok(p),
    ensures
        ({
            match lower_program(root_ctx_model(), p) {
                Ok((c, prog)) => {
                    &&& c.calls == program_calls(p)
                    &&& (spec_convert_program_to_ir(p) is Ok <==> (forall|k: int|
                        0 <= k < program_calls(p).len() ==> check_call(
                            #[trigger] program_calls(p)[k],
                            prog.functions,
                        ) is None))
                    &&& match spec_convert_program_to_ir(p) {
                        Err(e) => exists|k: int|
                            0 <= k < program_calls(p).len() && check_call(
                                #[trigger] program_calls(p)[k],
                                prog.functions,
                            ) == Some(e) && error_names_call(e, program_calls(p)[k]),
                        Ok(_) => true,
                    }
                },
                Err(_) => spec_convert_program_to_ir(p) is Err,
            }
        }),
{
    lemma_program_records_calls(root_ctx_model(), p);
    match lower_program(root_ctx_model(), p) {
        Ok((c, prog)) => {
            assert(Seq::<CallModel>::empty() + program_calls(p) =~= program_calls(p));
            lemma_validate_calls(c.calls, prog.functions);
        }
        Err(_) => {}
    }
}

} // verus!
