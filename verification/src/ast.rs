//! The syntax tree the parser builds, and its abstract values.
//!
//! Every node borrows its names and operators from the source text. A float
//! literal keeps its source text (its value is what that text denotes).

use vstd::prelude::*;

verus! {

#[derive(Debug, PartialEq)]
pub enum Statement<'a> {
    Let(LetStatement<'a>),
    Block(BlockStatement<'a>),
    Return(ReturnStatement<'a>),
    Function(FunctionStatement<'a>),
    Assign(AssignStatement<'a>),
    While(WhileStatement<'a>),
    For(ForStatement<'a>),
    Break,
    Continue,
    Expression(Expression<'a>),
}

#[derive(Debug, PartialEq)]
pub enum Expression<'a> {
    Identifier(&'a str),
    Integer(i32),
    Float(&'a str),
    Boolean(bool),
    String(&'a str),
    Void,
    Array(ArrayLiteral<'a>),
    Index(Box<IndexExpression<'a>>),
    Prefix(Box<PrefixExpression<'a>>),
    Infix(Box<InfixExpression<'a>>),
    Postfix(Box<PostfixExpression<'a>>),
    If(Box<IfExpression<'a>>),
    Call(Box<CallExpression<'a>>),
}

#[derive(Debug, PartialEq)]
pub struct LetStatement<'a> {
    pub name: &'a str,
    pub value_type: &'a str,
    pub array_size: Option<Vec<Expression<'a>>>,
    pub value: Expression<'a>,
}

#[derive(Debug, PartialEq)]
pub struct BlockStatement<'a> {
    pub statements: Vec<Statement<'a>>,
}

#[derive(Debug, PartialEq)]
pub struct ReturnStatement<'a> {
    pub return_value: Expression<'a>,
}

#[derive(Debug, PartialEq)]
pub struct FunctionParameter<'a> {
    pub name: &'a str,
    pub value_type: &'a str,
    pub array_size: Option<Vec<Expression<'a>>>,
}

#[derive(Debug, PartialEq)]
pub struct FunctionStatement<'a> {
    pub name: &'a str,
    pub parameters: Vec<FunctionParameter<'a>>,
    pub return_type: &'a str,
    pub body: BlockStatement<'a>,
}

#[derive(Debug, PartialEq)]
pub struct AssignStatement<'a> {
    pub ident: Expression<'a>,
    pub operator: &'a str,
    pub rvalue: Expression<'a>,
}

#[derive(Debug, PartialEq)]
pub struct WhileStatement<'a> {
    pub condition: Expression<'a>,
    pub body: BlockStatement<'a>,
}

#[derive(Debug, PartialEq)]
pub struct ForStatement<'a> {
    pub var_declaration: LetStatement<'a>,
    pub condition: Expression<'a>,
    pub action: Expression<'a>,
    pub body: BlockStatement<'a>,
}

#[derive(Debug, PartialEq)]
pub struct ArrayLiteral<'a> {
    pub elements: Vec<Expression<'a>>,
    pub size: usize,
}

#[derive(Debug, PartialEq)]
pub struct IndexExpression<'a> {
    pub left: Expression<'a>,
    pub index: Expression<'a>,
}

#[derive(Debug, PartialEq)]
pub struct PrefixExpression<'a> {
    pub operator: &'a str,
    pub right: Expression<'a>,
}

#[derive(Debug, PartialEq)]
pub struct InfixExpression<'a> {
    pub left: Expression<'a>,
    pub operator: &'a str,
    pub right: Expression<'a>,
}

#[derive(Debug, PartialEq)]
pub struct PostfixExpression<'a> {
    pub operator: &'a str,
    pub left: Expression<'a>,
}

#[derive(Debug, PartialEq)]
pub struct IfBranch<'a> {
    pub condition: Expression<'a>,
    pub consequence: BlockStatement<'a>,
}

#[derive(Debug, PartialEq)]
pub struct IfExpression<'a> {
    pub branches: Vec<IfBranch<'a>>,
    pub alternative: Option<BlockStatement<'a>>,
}

#[derive(Debug, PartialEq)]
pub struct CallExpression<'a> {
    pub function: Expression<'a>,
    pub arguments: Vec<Expression<'a>>,
}

#[derive(Debug, PartialEq)]
pub struct Program<'a> {
    pub statements: Vec<Statement<'a>>,
}

// ---------------------------------------------------------------------------
// Abstract values: text becomes characters, vectors become sequences.
/// The abstract value of an expression.
pub enum Expr {
    Identifier(Seq<char>),
    Integer(i32),
    Float(Seq<char>),
    Boolean(bool),
    Str(Seq<char>),
    Void,
    Array(Seq<Expr>, nat),
    Index(Box<Expr>, Box<Expr>),
    Prefix(Seq<char>, Box<Expr>),
    Infix(Box<Expr>, Seq<char>, Box<Expr>),
    Postfix(Seq<char>, Box<Expr>),
    If(Seq<Branch>, Option<Seq<Stmt>>),
    Call(Box<Expr>, Seq<Expr>),
}

/// The abstract value of one `if`/`else if` arm.
pub struct Branch {
    pub condition: Expr,
    pub consequence: Seq<Stmt>,
}

/// The abstract value of a `let` declaration.
pub struct LetDecl {
    pub name: Seq<char>,
    pub value_type: Seq<char>,
    pub array_size: Option<Seq<Expr>>,
    pub value: Expr,
}

/// The abstract value of a function parameter.
pub struct Param {
    pub name: Seq<char>,
    pub value_type: Seq<char>,
    pub array_size: Option<Seq<Expr>>,
}

/// The abstract value of a statement; a block is its statements.
pub enum Stmt {
    Let(LetDecl),
    Block(Seq<Stmt>),
    Return(Expr),
    Function(Seq<char>, Seq<Param>, Seq<char>, Seq<Stmt>),
    Assign(Expr, Seq<char>, Expr),
    While(Expr, Seq<Stmt>),
    For(LetDecl, Expr, Expr, Seq<Stmt>),
    Break,
    Continue,
    Expression(Expr),
}

impl<'a> Expression<'a> {
    pub open spec fn view(&self) -> Expr
        decreases self,
    {
        match self {
            Expression::Identifier(s) => Expr::Identifier(s@),
            Expression::Integer(v) => Expr::Integer(*v),
            Expression::Float(s) => Expr::Float(s@),
            Expression::Boolean(b) => Expr::Boolean(*b),
            Expression::String(s) => Expr::Str(s@),
            Expression::Void => Expr::Void,
            Expression::Array(a) => Expr::Array(exprs_view(a.elements@), a.size as nat),
            Expression::Index(b) => Expr::Index(Box::new(b.left.view()), Box::new(b.index.view())),
            Expression::Prefix(b) => Expr::Prefix(b.operator@, Box::new(b.right.view())),
            Expression::Infix(b) => Expr::Infix(
                Box::new(b.left.view()),
                b.operator@,
                Box::new(b.right.view()),
            ),
            Expression::Postfix(b) => Expr::Postfix(b.operator@, Box::new(b.left.view())),
            Expression::If(b) => Expr::If(
                branches_view(b.branches@),
                match &b.alternative {
                    Some(blk) => Some(stmts_view(blk.statements@)),
                    None => None,
                },
            ),
            Expression::Call(b) => Expr::Call(
                Box::new(b.function.view()),
                exprs_view(b.arguments@),
            ),
        }
    }
}

/// The abstract values of a sequence of expressions.
pub open spec fn exprs_view<'a>(v: Seq<Expression<'a>>) -> Seq<Expr>
    decreases v,
{
    Seq::new(
        v.len(),
        |i: int|
            if 0 <= i < v.len() {
                v[i].view()
            } else {
                Expr::Void
            },
    )
}

/// The abstract values of a sequence of statements.
pub open spec fn stmts_view<'a>(v: Seq<Statement<'a>>) -> Seq<Stmt>
    decreases v,
{
    Seq::new(
        v.len(),
        |i: int|
            if 0 <= i < v.len() {
                v[i].view()
            } else {
                Stmt::Break
            },
    )
}

/// The abstract values of a sequence of `if` arms.
pub open spec fn branches_view<'a>(v: Seq<IfBranch<'a>>) -> Seq<Branch>
    decreases v,
{
    Seq::new(
        v.len(),
        |i: int|
            if 0 <= i < v.len() {
                Branch {
                    condition: v[i].condition.view(),
                    consequence: stmts_view(v[i].consequence.statements@),
                }
            } else {
                Branch { condition: Expr::Void, consequence: Seq::empty() }
            },
    )
}

/// The abstract value of an optional array size.
pub open spec fn size_view<'a>(o: Option<Vec<Expression<'a>>>) -> Option<Seq<Expr>>
    decreases o,
{
    match o {
        Some(v) => Some(exprs_view(v@)),
        None => None,
    }
}

/// The abstract value of a `let` declaration.
pub open spec fn let_view<'a>(l: LetStatement<'a>) -> LetDecl
    decreases l,
{
    LetDecl {
        name: l.name@,
        value_type: l.value_type@,
        array_size: size_view(l.array_size),
        value: l.value.view(),
    }
}

/// The abstract values of a sequence of function parameters.
pub open spec fn params_view<'a>(v: Seq<FunctionParameter<'a>>) -> Seq<Param>
    decreases v,
{
    Seq::new(
        v.len(),
        |i: int|
            if 0 <= i < v.len() {
                Param {
                    name: v[i].name@,
                    value_type: v[i].value_type@,
                    array_size: size_view(v[i].array_size),
                }
            } else {
                Param { name: Seq::empty(), value_type: Seq::empty(), array_size: None }
            },
    )
}

impl<'a> Statement<'a> {
    pub open spec fn view(&self) -> Stmt
        decreases self,
    {
        match self {
            Statement::Let(l) => Stmt::Let(let_view(*l)),
            Statement::Block(b) => Stmt::Block(stmts_view(b.statements@)),
            Statement::Return(r) => Stmt::Return(r.return_value.view()),
            Statement::Function(f) => Stmt::Function(
                f.name@,
                params_view(f.parameters@),
                f.return_type@,
                stmts_view(f.body.statements@),
            ),
            Statement::Assign(a) => Stmt::Assign(a.ident.view(), a.operator@, a.rvalue.view()),
            Statement::While(w) => Stmt::While(w.condition.view(), stmts_view(w.body.statements@)),
            Statement::For(f) => Stmt::For(
                let_view(f.var_declaration),
                f.condition.view(),
                f.action.view(),
                stmts_view(f.body.statements@),
            ),
            Statement::Break => Stmt::Break,
            Statement::Continue => Stmt::Continue,
            Statement::Expression(e) => Stmt::Expression(e.view()),
        }
    }
}


pub open spec fn opt_expr_view<'a>(o: Option<Expression<'a>>) -> Option<Expr> {
    match o {
        Some(e) => Some(e.view()),
        None => None,
    }
}

pub open spec fn opt_stmt_view<'a>(o: Option<Statement<'a>>) -> Option<Stmt> {
    match o {
        Some(s) => Some(s.view()),
        None => None,
    }
}

pub proof fn lemma_exprs_view_push<'a>(v: Seq<Expression<'a>>, a: Expression<'a>)
    ensures
        exprs_view(v.push(a)) == exprs_view(v).push(a.view()),
{
    assert(exprs_view(v.push(a)) =~= exprs_view(v).push(a.view()));
}

pub proof fn lemma_stmts_view_push<'a>(v: Seq<Statement<'a>>, a: Statement<'a>)
    ensures
        stmts_view(v.push(a)) == stmts_view(v).push(a.view()),
{
    assert(stmts_view(v.push(a)) =~= stmts_view(v).push(a.view()));
}

pub proof fn lemma_params_view_push<'a>(v: Seq<FunctionParameter<'a>>, a: FunctionParameter<'a>)
    ensures
        params_view(v.push(a)) == params_view(v).push(
            Param { name: a.name@, value_type: a.value_type@, array_size: size_view(a.array_size) },
        ),
{
    assert(params_view(v.push(a)) =~= params_view(v).push(
        Param { name: a.name@, value_type: a.value_type@, array_size: size_view(a.array_size) },
    ));
}

pub proof fn lemma_branches_view_push<'a>(v: Seq<IfBranch<'a>>, a: IfBranch<'a>)
    ensures
        branches_view(v.push(a)) == branches_view(v).push(
            Branch {
                condition: a.condition.view(),
                consequence: stmts_view(a.consequence.statements@),
            },
        ),
{
    assert(branches_view(v.push(a)) =~= branches_view(v).push(
        Branch {
            condition: a.condition.view(),
            consequence: stmts_view(a.consequence.statements@),
        },
    ));
}

pub proof fn lemma_views_empty<'a>()
    where 'a: 'a,
    ensures
        exprs_view(Seq::<Expression<'a>>::empty()) == Seq::<Expr>::empty(),
        stmts_view(Seq::<Statement<'a>>::empty()) == Seq::<Stmt>::empty(),
        params_view(Seq::<FunctionParameter<'a>>::empty()) == Seq::<Param>::empty(),
        branches_view(Seq::<IfBranch<'a>>::empty()) == Seq::<Branch>::empty(),
{
    assert(exprs_view(Seq::<Expression<'a>>::empty()) =~= Seq::<Expr>::empty());
    assert(stmts_view(Seq::<Statement<'a>>::empty()) =~= Seq::<Stmt>::empty());
    assert(params_view(Seq::<FunctionParameter<'a>>::empty()) =~= Seq::<Param>::empty());
    assert(branches_view(Seq::<IfBranch<'a>>::empty()) =~= Seq::<Branch>::empty());
}
} // verus!
