//! The statement tree that the parser builds and the compiler consumes.

use vstd::prelude::*;
use crate::number::Number;

verus! {

#[allow(inconsistent_fields)]
#[derive(Debug)]
pub enum Expr {
    Number(Number),
    Str(String),
    Bool(bool),
    Variable(String),
    Array(Vec<Expr>),
    Dict(Vec<(Expr, Expr)>),
    Index { object: Box<Expr>, index: Box<Expr> },
    Binary { left: Box<Expr>, op: BinaryOp, right: Box<Expr> },
    Logical { left: Box<Expr>, op: LogicalOp, right: Box<Expr> },
    Unary { op: UnaryOp, operand: Box<Expr> },
    Call { name: String, arguments: Vec<Expr>, line: usize },
}

#[derive(Debug, Clone, Copy, PartialEq, Eq, Structural)]
pub enum BinaryOp {
    Add,
    Sub,
    Mul,
    Div,
    Mod,
    Less,
    LessEqual,
    Greater,
    GreaterEqual,
    EqualEqual,
    BangEqual,
}

#[derive(Debug, Clone, Copy, PartialEq, Eq, Structural)]
pub enum LogicalOp {
    And,
    Or,
}

#[derive(Debug, Clone, Copy, PartialEq, Eq, Structural)]
pub enum UnaryOp {
    Not,
    Neg,
}

#[allow(inconsistent_fields)]
#[derive(Debug)]
pub enum Stmt {
    Let { name: String, value: Expr, line: usize },
    Print { value: Expr, line: usize },
    If { condition: Expr, then_branch: Vec<Stmt>, else_branch: Option<Vec<Stmt>>, line: usize },
    While { condition: Expr, body: Vec<Stmt>, line: usize },
    For { variable: String, iterable: Expr, body: Vec<Stmt>, line: usize },
    Function { name: String, params: Vec<String>, body: Vec<Stmt>, line: usize },
    Return { value: Option<Expr>, line: usize },
    Break { line: usize },
    Continue { line: usize },
    IndexAssign { object: String, index: Expr, value: Expr, line: usize },
    Expression { expr: Expr, line: usize },
}

/// The mathematical model of an expression.
#[allow(inconsistent_fields)]
pub enum ExprModel {
    Number(u64),
    Str(Seq<char>),
    Bool(bool),
    Variable(Seq<char>),
    Array(Seq<ExprModel>),
    Dict(Seq<(ExprModel, ExprModel)>),
    Index { object: Box<ExprModel>, index: Box<ExprModel> },
    Binary { left: Box<ExprModel>, op: BinaryOp, right: Box<ExprModel> },
    Logical { left: Box<ExprModel>, op: LogicalOp, right: Box<ExprModel> },
    Unary { op: UnaryOp, operand: Box<ExprModel> },
    Call { name: Seq<char>, arguments: Seq<ExprModel>, line: usize },
}

/// The mathematical model of a statement.
#[allow(inconsistent_fields)]
pub enum StmtModel {
    Let { name: Seq<char>, value: ExprModel, line: usize },
    Print { value: ExprModel, line: usize },
    If {
        condition: ExprModel,
        then_branch: Seq<StmtModel>,
        else_branch: Option<Seq<StmtModel>>,
        line: usize,
    },
    While { condition: ExprModel, body: Seq<StmtModel>, line: usize },
    For { variable: Seq<char>, iterable: ExprModel, body: Seq<StmtModel>, line: usize },
    Function { name: Seq<char>, params: Seq<Seq<char>>, body: Seq<StmtModel>, line: usize },
    Return { value: Option<ExprModel>, line: usize },
    Break { line: usize },
    Continue { line: usize },
    IndexAssign { object: Seq<char>, index: ExprModel, value: ExprModel, line: usize },
    Expression { expr: ExprModel, line: usize },
}

impl Expr {
    /// The model of the expression.
    pub open spec fn model(&self) -> ExprModel
        decreases self,
    {
        match self {
            Expr::Number(n) => ExprModel::Number(n.bits),
            Expr::Str(s) => ExprModel::Str(s@),
            Expr::Bool(b) => ExprModel::Bool(*b),
            Expr::Variable(n) => ExprModel::Variable(n@),
            Expr::Array(elems) => ExprModel::Array(
                Seq::new(
                    elems@.len(),
                    |i: int|
                        if 0 <= i < elems@.len() {
                            elems@[i].model()
                        } else {
                            ExprModel::Bool(false)
                        },
                ),
            ),
            Expr::Dict(pairs) => ExprModel::Dict(
                Seq::new(
                    pairs@.len(),
                    |i: int|
                        if 0 <= i < pairs@.len() {
                            (pairs@[i].0.model(), pairs@[i].1.model())
                        } else {
                            (ExprModel::Bool(false), ExprModel::Bool(false))
                        },
                ),
            ),
            Expr::Index { object, index } => ExprModel::Index {
                object: Box::new(object.model()),
                index: Box::new(index.model()),
            },
            Expr::Binary { left, op, right } => ExprModel::Binary {
                left: Box::new(left.model()),
                op: *op,
                right: Box::new(right.model()),
            },
            Expr::Logical { left, op, right } => ExprModel::Logical {
                left: Box::new(left.model()),
                op: *op,
                right: Box::new(right.model()),
            },
            Expr::Unary { op, operand } => ExprModel::Unary {
                op: *op,
                operand: Box::new(operand.model()),
            },
            Expr::Call { name, arguments, line } => ExprModel::Call {
                name: name@,
                arguments: Seq::new(
                    arguments@.len(),
                    |i: int|
                        if 0 <= i < arguments@.len() {
                            arguments@[i].model()
                        } else {
                            ExprModel::Bool(false)
                        },
                ),
                line: *line,
            },
        }
    }
}

impl View for Expr {
    type V = ExprModel;

    open spec fn view(&self) -> ExprModel {
        self.model()
    }
}

/// The models of a sequence of expressions.
pub open spec fn expr_views(exprs: Seq<Expr>) -> Seq<ExprModel> {
    Seq::new(exprs.len(), |i: int| exprs[i]@)
}

/// The models of a sequence of pairs of expressions.
pub open spec fn pair_views(pairs: Seq<(Expr, Expr)>) -> Seq<(ExprModel, ExprModel)> {
    Seq::new(pairs.len(), |i: int| (pairs[i].0@, pairs[i].1@))
}

/// The texts of a sequence of strings.
pub open spec fn name_views(names: Seq<String>) -> Seq<Seq<char>> {
    Seq::new(names.len(), |i: int| names[i]@)
}

impl Stmt {
    /// The model of the statement.
    pub open spec fn model(&self) -> StmtModel
        decreases self,
    {
        match self {
            Stmt::Let { name, value, line } => StmtModel::Let {
                name: name@,
                value: value@,
                line: *line,
            },
            Stmt::Print { value, line } => StmtModel::Print { value: value@, line: *line },
            Stmt::If { condition, then_branch, else_branch, line } => StmtModel::If {
                condition: condition@,
                then_branch: Seq::new(
                    then_branch@.len(),
                    |i: int|
                        if 0 <= i < then_branch@.len() {
                            then_branch@[i].model()
                        } else {
                            StmtModel::Break { line: 0 }
                        },
                ),
                else_branch: match else_branch {
                    Some(stmts) => Some(
                        Seq::new(
                            stmts@.len(),
                            |i: int|
                                if 0 <= i < stmts@.len() {
                                    stmts@[i].model()
                                } else {
                                    StmtModel::Break { line: 0 }
                                },
                        ),
                    ),
                    None => None,
                },
                line: *line,
            },
            Stmt::While { condition, body, line } => StmtModel::While {
                condition: condition@,
                body: Seq::new(
                    body@.len(),
                    |i: int|
                        if 0 <= i < body@.len() {
                            body@[i].model()
                        } else {
                            StmtModel::Break { line: 0 }
                        },
                ),
                line: *line,
            },
            Stmt::For { variable, iterable, body, line } => StmtModel::For {
                variable: variable@,
                iterable: iterable@,
                body: Seq::new(
                    body@.len(),
                    |i: int|
                        if 0 <= i < body@.len() {
                            body@[i].model()
                        } else {
                            StmtModel::Break { line: 0 }
                        },
                ),
                line: *line,
            },
            Stmt::Function { name, params, body, line } => StmtModel::Function {
                name: name@,
                params: name_views(params@),
                body: Seq::new(
                    body@.len(),
                    |i: int|
                        if 0 <= i < body@.len() {
                            body@[i].model()
                        } else {
                            StmtModel::Break { line: 0 }
                        },
                ),
                line: *line,
            },
            Stmt::Return { value, line } => StmtModel::Return {
                value: match value {
                    Some(e) => Some(e@),
                    None => None,
                },
                line: *line,
            },
            Stmt::Break { line } => StmtModel::Break { line: *line },
            Stmt::Continue { line } => StmtModel::Continue { line: *line },
            Stmt::IndexAssign { object, index, value, line } => StmtModel::IndexAssign {
                object: object@,
                index: index@,
                value: value@,
                line: *line,
            },
            Stmt::Expression { expr, line } => StmtModel::Expression { expr: expr@, line: *line },
        }
    }
}

impl View for Stmt {
    type V = StmtModel;

    open spec fn view(&self) -> StmtModel {
        self.model()
    }
}

/// The models of a sequence of statements.
pub open spec fn stmt_views(stmts: Seq<Stmt>) -> Seq<StmtModel> {
    Seq::new(stmts.len(), |i: int| stmts[i]@)
}

/// The model of an array literal is the array of the models.
pub proof fn lemma_array_model(elems: Vec<Expr>)
    ensures
        Expr::Array(elems)@ == ExprModel::Array(expr_views(elems@)),
{
    reveal_with_fuel(Expr::model, 2);
    assert(Expr::Array(elems)@->Array_0 =~= expr_views(elems@));
}

/// The model of a dictionary literal is the dictionary of the models.
pub proof fn lemma_dict_model(pairs: Vec<(Expr, Expr)>)
    ensures
        Expr::Dict(pairs)@ == ExprModel::Dict(pair_views(pairs@)),
{
    reveal_with_fuel(Expr::model, 2);
    assert(Expr::Dict(pairs)@->Dict_0 =~= pair_views(pairs@));
}

/// The model of a call holds the models of the arguments.
pub proof fn lemma_call_model(name: String, arguments: Vec<Expr>, line: usize)
    ensures
        (Expr::Call { name, arguments, line })@ == (ExprModel::Call {
            name: name@,
            arguments: expr_views(arguments@),
            line,
        }),
{
    reveal_with_fuel(Expr::model, 2);
    assert((Expr::Call { name, arguments, line })@->Call_arguments =~= expr_views(arguments@));
}

/// The models of the statements that hold statements.
pub proof fn lemma_block_models(s: Stmt)
    ensures
        s matches Stmt::If { condition, then_branch, else_branch, line } ==> s@
            == (StmtModel::If {
            condition: condition@,
            then_branch: stmt_views(then_branch@),
            else_branch: match else_branch {
                Some(stmts) => Some(stmt_views(stmts@)),
                None => None,
            },
            line,
        }),
        s matches Stmt::While { condition, body, line } ==> s@ == (StmtModel::While {
            condition: condition@,
            body: stmt_views(body@),
            line,
        }),
        s matches Stmt::For { variable, iterable, body, line } ==> s@ == (StmtModel::For {
            variable: variable@,
            iterable: iterable@,
            body: stmt_views(body@),
            line,
        }),
        s matches Stmt::Function { name, params, body, line } ==> s@ == (StmtModel::Function {
            name: name@,
            params: name_views(params@),
            body: stmt_views(body@),
            line,
        }),
{
    reveal_with_fuel(Stmt::model, 2);
    match s {
        Stmt::If { condition, then_branch, else_branch, line } => {
            assert(s@->If_then_branch =~= stmt_views(then_branch@));
            match else_branch {
                Some(stmts) => {
                    assert(s@->If_else_branch->0 =~= stmt_views(stmts@));
                },
                None => {},
            }
        },
        Stmt::While { condition, body, line } => {
            assert(s@->While_body =~= stmt_views(body@));
        },
        Stmt::For { variable, iterable, body, line } => {
            assert(s@->For_body =~= stmt_views(body@));
        },
        Stmt::Function { name, params, body, line } => {
            assert(s@->Function_body =~= stmt_views(body@));
        },
        _ => {},
    }
}

impl Expr {
    /// A copy of the expression, with all its parts.
    pub fn copy(&self) -> (r: Expr)
        ensures
            r@ == self@,
        decreases self,
    {
        proof {
            reveal_with_fuel(Expr::model, 2);
        }
        match self {
            Expr::Number(n) => Expr::Number(*n),
            Expr::Str(s) => Expr::Str(s.clone()),
            Expr::Bool(b) => Expr::Bool(*b),
            Expr::Variable(name) => Expr::Variable(name.clone()),
            Expr::Array(elems) => {
                let out = Expr::copy_all(elems);
                proof {
                    lemma_array_model(out);
                    lemma_array_model(*elems);
                }
                Expr::Array(out)
            },
            Expr::Dict(pairs) => {
                let out = Expr::copy_pairs(pairs);
                proof {
                    lemma_dict_model(out);
                    lemma_dict_model(*pairs);
                }
                Expr::Dict(out)
            },
            Expr::Index { object, index } => {
                let a = object.copy();
                let b = index.copy();
                Expr::Index { object: Box::new(a), index: Box::new(b) }
            },
            Expr::Binary { left, op, right } => {
                let a = left.copy();
                let b = right.copy();
                Expr::Binary { left: Box::new(a), op: *op, right: Box::new(b) }
            },
            Expr::Logical { left, op, right } => {
                let a = left.copy();
                let b = right.copy();
                Expr::Logical { left: Box::new(a), op: *op, right: Box::new(b) }
            },
            Expr::Unary { op, operand } => {
                let a = operand.copy();
                Expr::Unary { op: *op, operand: Box::new(a) }
            },
            Expr::Call { name, arguments, line } => {
                let out = Expr::copy_all(arguments);
                let called = name.clone();
                proof {
                    lemma_call_model(called, out, *line);
                    lemma_call_model(*name, *arguments, *line);
                }
                Expr::Call { name: called, arguments: out, line: *line }
            },
        }
    }

    fn copy_all(items: &Vec<Expr>) -> (out: Vec<Expr>)
        ensures
            expr_views(out@) == expr_views(items@),
        decreases items,
    {
        let mut out: Vec<Expr> = Vec::new();
        let mut i: usize = 0;
        while i < items.len()
            invariant
                i <= items.len(),
                out@.len() == i,
                forall|j: int| 0 <= j < i ==> (#[trigger] out@[j])@ == items@[j]@,
            decreases items.len() - i,
        {
            proof {
                assert(decreases_to!(items => items[i as int]));
            }
            let c = items[i].copy();
            out.push(c);
            i += 1;
        }
        assert(expr_views(out@) =~= expr_views(items@));
        out
    }

    fn copy_pairs(pairs: &Vec<(Expr, Expr)>) -> (out: Vec<(Expr, Expr)>)
        ensures
            pair_views(out@) == pair_views(pairs@),
        decreases pairs,
    {
        let mut out: Vec<(Expr, Expr)> = Vec::new();
        let mut i: usize = 0;
        while i < pairs.len()
            invariant
                i <= pairs.len(),
                out@.len() == i,
                forall|j: int|
                    0 <= j < i ==> (#[trigger] out@[j]).0@ == pairs@[j].0@ && out@[j].1@
                        == pairs@[j].1@,
            decreases pairs.len() - i,
        {
            proof {
                assert(decreases_to!(pairs => pairs[i as int]));
                assert(decreases_to!(pairs[i as int] => pairs[i as int].0));
                assert(decreases_to!(pairs[i as int] => pairs[i as int].1));
            }
            let a = pairs[i].0.copy();
            let b = pairs[i].1.copy();
            out.push((a, b));
            i += 1;
        }
        assert(pair_views(out@) =~= pair_views(pairs@));
        out
    }
}

impl Clone for Expr {
    /// A copy of the expression, with all its parts.
    fn clone(&self) -> (r: Expr)
        ensures
            r@ == self@,
    {
        self.copy()
    }
}

/// A copy of the names.
fn copy_names(names: &Vec<String>) -> (out: Vec<String>)
    ensures
        name_views(out@) == name_views(names@),
{
    let mut out: Vec<String> = Vec::new();
    let mut i: usize = 0;
    while i < names.len()
        invariant
            i <= names.len(),
            out@.len() == i,
            forall|j: int| 0 <= j < i ==> (#[trigger] out@[j])@ == names@[j]@,
        decreases names.len() - i,
    {
        out.push(names[i].clone());
        i += 1;
    }
    assert(name_views(out@) =~= name_views(names@));
    out
}

impl Stmt {
    /// A copy of the statement, with all its parts.
    pub fn copy(&self) -> (r: Stmt)
        ensures
            r@ == self@,
        decreases self,
    {
        proof {
            lemma_block_models(*self);
            reveal_with_fuel(Stmt::model, 2);
        }
        let r = match self {
            Stmt::Let { name, value, line } => Stmt::Let {
                name: name.clone(),
                value: value.copy(),
                line: *line,
            },
            Stmt::Print { value, line } => Stmt::Print { value: value.copy(), line: *line },
            Stmt::If { condition, then_branch, else_branch, line } => {
                let first = Stmt::copy_all(then_branch);
                let second = match else_branch {
                    Some(stmts) => Some(Stmt::copy_all(stmts)),
                    None => None,
                };
                Stmt::If {
                    condition: condition.copy(),
                    then_branch: first,
                    else_branch: second,
                    line: *line,
                }
            },
            Stmt::While { condition, body, line } => Stmt::While {
                condition: condition.copy(),
                body: Stmt::copy_all(body),
                line: *line,
            },
            Stmt::For { variable, iterable, body, line } => Stmt::For {
                variable: variable.clone(),
                iterable: iterable.copy(),
                body: Stmt::copy_all(body),
                line: *line,
            },
            Stmt::Function { name, params, body, line } => Stmt::Function {
                name: name.clone(),
                params: copy_names(params),
                body: Stmt::copy_all(body),
                line: *line,
            },
            Stmt::Return { value, line } => Stmt::Return {
                value: match value {
                    Some(e) => Some(e.copy()),
                    None => None,
                },
                line: *line,
            },
            Stmt::Break { line } => Stmt::Break { line: *line },
            Stmt::Continue { line } => Stmt::Continue { line: *line },
            Stmt::IndexAssign { object, index, value, line } => Stmt::IndexAssign {
                object: object.clone(),
                index: index.copy(),
                value: value.copy(),
                line: *line,
            },
            Stmt::Expression { expr, line } => Stmt::Expression { expr: expr.copy(), line: *line },
        };
        proof {
            lemma_block_models(r);
        }
        r
    }

    fn copy_all(stmts: &Vec<Stmt>) -> (out: Vec<Stmt>)
        ensures
            stmt_views(out@) == stmt_views(stmts@),
        decreases stmts,
    {
        let mut out: Vec<Stmt> = Vec::new();
        let mut i: usize = 0;
        while i < stmts.len()
            invariant
                i <= stmts.len(),
                out@.len() == i,
                forall|j: int| 0 <= j < i ==> (#[trigger] out@[j])@ == stmts@[j]@,
            decreases stmts.len() - i,
        {
            proof {
                assert(decreases_to!(stmts => stmts[i as int]));
            }
            let c = stmts[i].copy();
            out.push(c);
            i += 1;
        }
        assert(stmt_views(out@) =~= stmt_views(stmts@));
        out
    }
}

impl Clone for Stmt {
    /// A copy of the statement, with all its parts.
    fn clone(&self) -> (r: Stmt)
        ensures
            r@ == self@,
    {
        self.copy()
    }
}

} // verus!
