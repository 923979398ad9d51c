use vstd::prelude::*;

verus! {

use crate::name::InternedName;

/// A statement of the surface language, as built by the parser. All names
/// are interned handles.
#[derive(Debug, PartialEq, Eq)]
pub enum Ast {
    Def { name: InternedName, parameters: Vec<InternedName>, body: Vec<Ast> },
    Return(InternedName),
    While { cond_var: InternedName, body: Vec<Ast> },
    Assign { var_name: InternedName, fun_name: InternedName, args: Vec<InternedName> },
    Incr(InternedName),
    Decr(InternedName),
}

/// The mathematical shape of an `Ast` node: the same tree with sequences in
/// place of vectors.
pub enum AstModel {
    Def { name: InternedName, parameters: Seq<InternedName>, body: Seq<AstModel> },
    Return(InternedName),
    While { cond_var: InternedName, body: Seq<AstModel> },
    Assign { var_name: InternedName, fun_name: InternedName, args: Seq<InternedName> },
    Incr(InternedName),
    Decr(InternedName),
}

/// The model of one statement.
pub open spec fn ast_view(a: Ast) -> AstModel
    decreases a,
{
    match a {
        Ast::Def { name, parameters, body } => AstModel::Def {
            name: name,
            parameters: parameters@,
            body: asts_view(body@),
        },
        Ast::Return(n) => AstModel::Return(n),
        Ast::While { cond_var, body } => AstModel::While {
            cond_var: cond_var,
            body: asts_view(body@),
        },
        Ast::Assign { var_name, fun_name, args } => AstModel::Assign {
            var_name: var_name,
            fun_name: fun_name,
            args: args@,
        },
        Ast::Incr(n) => AstModel::Incr(n),
        Ast::Decr(n) => AstModel::Decr(n),
    }
}

/// The models of a sequence of statements.
pub open spec fn asts_view(s: Seq<Ast>) -> Seq<AstModel>
    decreases s,
{
    Seq::new(
        s.len(),
        |k: int|
            if 0 <= k < s.len() {
                ast_view(s[k])
            } else {
                AstModel::Return(vstd::pervasive::arbitrary())
            },
    )
}

impl DeepView for Ast {
    type V = AstModel;

    open spec fn deep_view(&self) -> AstModel {
        ast_view(*self)
    }
}

/// A whole source program: declared inputs, the declared output, and the
/// top-level statements.
#[derive(Debug, PartialEq, Eq)]
pub struct Program {
    pub body: Vec<Ast>,
    pub inputs: Vec<InternedName>,
    pub output: InternedName,
}

/// The mathematical shape of a `Program`.
pub struct ProgramModel {
    pub body: Seq<AstModel>,
    pub inputs: Seq<InternedName>,
    pub output: InternedName,
}

impl DeepView for Program {
    type V = ProgramModel;

    open spec fn deep_view(&self) -> ProgramModel {
        ProgramModel {
            body: asts_view(self.body@),
            inputs: self.inputs@,
            output: self.output,
        }
    }
}

} // verus!
