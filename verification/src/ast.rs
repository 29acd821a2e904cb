//! The abstract syntax tree of the source language, and the model of its
//! types.
use vstd::prelude::*;

verus! {

broadcast use vstd::std_specs::vec::group_vec_axioms, vstd::seq::group_seq_axioms;

/// A type of the source language.
#[derive(Debug, PartialEq)]
pub enum Type {
    Int,
    Float,
    Bool,
    Str,
    Unit,
    Fn { params: Vec<Type>, ret: Box<Type> },
}

/// The model of a [`Type`].
pub enum TypeV {
    Int,
    Float,
    Bool,
    Str,
    Unit,
    Fn(Seq<TypeV>, Box<TypeV>),
}

/// The model of a type.
pub open spec fn type_view(t: Type) -> TypeV
    decreases t,
{
    match t {
        Type::Int => TypeV::Int,
        Type::Float => TypeV::Float,
        Type::Bool => TypeV::Bool,
        Type::Str => TypeV::Str,
        Type::Unit => TypeV::Unit,
        Type::Fn { params, ret } => {
            proof {
                assert(decreases_to!(params => params@));
            }
            TypeV::Fn(types_view(params@), Box::new(type_view(*ret)))
        },
    }
}

/// The models of a sequence of types.
pub open spec fn types_view(s: Seq<Type>) -> Seq<TypeV>
    decreases s,
{
    if s.len() == 0 {
        seq![]
    } else {
        proof {
            assert(decreases_to!(s => s[s.len() - 1]));
            assert(decreases_to!(s => s.subrange(0, s.len() - 1)));
        }
        types_view(s.drop_last()).push(type_view(s.last()))
    }
}

impl View for Type {
    type V = TypeV;

    open spec fn view(&self) -> TypeV {
        type_view(*self)
    }
}

/// The models of a sequence of types are the models of its elements.
pub proof fn lemma_types_view(s: Seq<Type>)
    ensures
        types_view(s).len() == s.len(),
        forall|i: int| 0 <= i < s.len() ==> #[trigger] types_view(s)[i] == s[i]@,
    decreases s.len(),
{
    if s.len() > 0 {
        lemma_types_view(s.drop_last());
        assert forall|i: int| 0 <= i < s.len() implies #[trigger] types_view(s)[i] == s[i]@ by {
            if i < s.len() - 1 {
                assert(s.drop_last()[i] == s[i]);
            }
        }
    }
}

impl Clone for Type {
    fn clone(&self) -> (r: Self)
        ensures
            r@ == self@,
        decreases self,
    {
        match self {
            Type::Int => Type::Int,
            Type::Float => Type::Float,
            Type::Bool => Type::Bool,
            Type::Str => Type::Str,
            Type::Unit => Type::Unit,
            Type::Fn { params, ret } => {
                let mut ps: Vec<Type> = Vec::new();
                let mut i: usize = 0;
                #[verifier::loop_isolation(false)]
                while i < params.len()
                    invariant
                        i <= params.len(),
                        types_view(ps@) == types_view(params@.take(i as int)),
                    decreases params.len() - i,
                {
                    assert(decreases_to!(*self => params@[i as int]));
                    let t = params[i].clone();
                    proof {
                        assert(ps@.push(t).drop_last() =~= ps@);
                        assert(params@.take(i + 1).drop_last() =~= params@.take(i as int));
                    }
                    ps.push(t);
                    i += 1;
                }
                assert(params@.take(params.len() as int) =~= params@);
                let r = (**ret).clone();
                Type::Fn { params: ps, ret: Box::new(r) }
            },
        }
    }
}

/// Compares two types structurally.
pub fn types_equal(a: &Type, b: &Type) -> (r: bool)
    ensures
        r == (a@ == b@),
    decreases a,
{
    match (a, b) {
        (Type::Int, Type::Int) => true,
        (Type::Float, Type::Float) => true,
        (Type::Bool, Type::Bool) => true,
        (Type::Str, Type::Str) => true,
        (Type::Unit, Type::Unit) => true,
        (Type::Fn { params: pa, ret: ra }, Type::Fn { params: pb, ret: rb }) => {
            proof {
                lemma_types_view(pa@);
                lemma_types_view(pb@);
            }
            if pa.len() != pb.len() {
                assert(types_view(pa@).len() != types_view(pb@).len());
                return false;
            }
            let mut i: usize = 0;
            #[verifier::loop_isolation(false)]
            while i < pa.len()
                invariant
                    i <= pa.len(),
                    pa.len() == pb.len(),
                    types_view(pa@).len() == pa.len(),
                    types_view(pb@).len() == pb.len(),
                    forall|j: int| 0 <= j < pa.len() ==> #[trigger] types_view(pa@)[j] == pa@[j]@,
                    forall|j: int| 0 <= j < pb.len() ==> #[trigger] types_view(pb@)[j] == pb@[j]@,
                    forall|j: int| 0 <= j < i ==> pa@[j]@ == pb@[j]@,
                decreases pa.len() - i,
            {
                assert(decreases_to!(*a => pa@[i as int]));
                if !types_equal(&pa[i], &pb[i]) {
                    assert(types_view(pa@)[i as int] != types_view(pb@)[i as int]);
                    return false;
                }
                i += 1;
            }
            assert(types_view(pa@) =~= types_view(pb@));
            types_equal(ra, rb)
        },
        _ => false,
    }
}

/// The binary operators of the source language.
#[derive(Debug, Clone, Copy, PartialEq, Eq, Structural)]
pub enum BinOp {
    Add,
    Sub,
    Mul,
    Div,
    Eq,
    Ne,
    Lt,
    Gt,
    And,
    Or,
    Le,
    Ge,
}

/// An expression.
#[derive(Debug)]
pub enum Expr {
    IntLit(i64),
    /// A floating-point literal, held as the bits of its `f64` value
    /// (`f64::to_bits`); only its type is ever looked at.
    FloatLit(u64),
    BoolLit(bool),
    StrLit(String),
    Var(String),
    BinOp { op: BinOp, left: Box<Expr>, right: Box<Expr> },
    Call { func: String, args: Vec<Expr> },
    If { cond: Box<Expr>, then_: Box<Expr>, else_: Option<Box<Expr>> },
}

/// Whether `b` is the same expression as `a`: the same literals, names and
/// operators, with the same sub-expressions in the same places.
pub open spec fn same_expr(a: Expr, b: Expr) -> bool
    decreases a, 1nat,
{
    match a {
        Expr::BinOp { op, left, right } => b matches Expr::BinOp { op: op2, left: l2, right: r2 } && op == op2
            && same_expr(*left, *l2) && same_expr(*right, *r2),
        Expr::Call { func, args } => {
            proof {
                assert(decreases_to!(args => args@));
            }
            b matches Expr::Call { func: f2, args: a2 } && func@ == f2@ && same_exprs(args@, a2@)
        },
        Expr::If { cond, then_, else_ } => b matches Expr::If { cond: c2, then_: t2, else_: e2 } && same_expr(
            *cond,
            *c2,
        ) && same_expr(*then_, *t2) && match else_ {
            Some(x) => e2 matches Some(y) && same_expr(*x, *y),
            None => e2 is None,
        },
        _ => a == b,
    }
}

/// Whether `t` holds, one by one, the same expressions as `s`.
pub open spec fn same_exprs(s: Seq<Expr>, t: Seq<Expr>) -> bool
    decreases s, 0nat,
{
    if s.len() == 0 {
        t.len() == 0
    } else {
        proof {
            assert(decreases_to!(s => s[s.len() - 1]));
            assert(decreases_to!(s => s.subrange(0, s.len() - 1)));
        }
        t.len() == s.len() && same_exprs(s.drop_last(), t.drop_last()) && same_expr(s.last(), t.last())
    }
}

impl Clone for Expr {
    fn clone(&self) -> (r: Self)
        ensures
            same_expr(*self, r),
        decreases self,
    {
        match self {
            Expr::IntLit(n) => Expr::IntLit(*n),
            Expr::FloatLit(bits) => Expr::FloatLit(*bits),
            Expr::BoolLit(b) => Expr::BoolLit(*b),
            Expr::StrLit(text) => Expr::StrLit(text.clone()),
            Expr::Var(name) => Expr::Var(name.clone()),
            Expr::BinOp { op, left, right } => {
                let l = (**left).clone();
                let r = (**right).clone();
                Expr::BinOp { op: *op, left: Box::new(l), right: Box::new(r) }
            },
            Expr::Call { func, args } => {
                let mut out: Vec<Expr> = Vec::new();
                let mut i: usize = 0;
                #[verifier::loop_isolation(false)]
                while i < args.len()
                    invariant
                        i <= args.len(),
                        same_exprs(args@.take(i as int), out@),
                    decreases args.len() - i,
                {
                    assert(decreases_to!(*self => args@[i as int]));
                    let e = args[i].clone();
                    proof {
                        assert(out@.push(e).drop_last() =~= out@);
                        assert(args@.take(i + 1).drop_last() =~= args@.take(i as int));
                    }
                    out.push(e);
                    i += 1;
                }
                assert(args@.take(args.len() as int) =~= args@);
                Expr::Call { func: func.clone(), args: out }
            },
            Expr::If { cond, then_, else_ } => {
                let c = (**cond).clone();
                let t = (**then_).clone();
                let e = match else_ {
                    Some(x) => Some(Box::new((**x).clone())),
                    None => None,
                };
                Expr::If { cond: Box::new(c), then_: Box::new(t), else_: e }
            },
        }
    }
}

/// A statement.
#[derive(Debug)]
pub enum Stmt {
    Let { name: String, ty: Option<Type>, init: Option<Expr> },
    Assign { name: String, value: Expr },
    Return(Expr),
    ExprStmt(Expr),
    Block(Vec<Stmt>),
    While { cond: Expr, body: Vec<Stmt> },
    FnDecl { name: String, params: Vec<String>, body: Vec<Stmt> },
}

/// Whether `b` is the same statement as `a`: the same names and declared
/// types, with the same expressions and inner statements in the same places.
pub open spec fn same_stmt(a: Stmt, b: Stmt) -> bool
    decreases a, 1nat,
{
    match a {
        Stmt::Let { name, ty, init } => b matches Stmt::Let { name: n2, ty: ty2, init: i2 } && name@ == n2@
            && match ty {
            Some(t) => ty2 matches Some(t2) && t@ == t2@,
            None => ty2 is None,
        } && match init {
            Some(e) => i2 matches Some(e2) && same_expr(e, e2),
            None => i2 is None,
        },
        Stmt::Assign { name, value } => b matches Stmt::Assign { name: n2, value: v2 } && name@ == n2@
            && same_expr(value, v2),
        Stmt::Return(e) => b matches Stmt::Return(e2) && same_expr(e, e2),
        Stmt::ExprStmt(e) => b matches Stmt::ExprStmt(e2) && same_expr(e, e2),
        Stmt::Block(ss) => {
            proof {
                assert(decreases_to!(ss => ss@));
            }
            b matches Stmt::Block(s2) && same_stmts(ss@, s2@)
        },
        Stmt::While { cond, body } => {
            proof {
                assert(decreases_to!(body => body@));
            }
            b matches Stmt::While { cond: c2, body: b2 } && same_expr(cond, c2) && same_stmts(body@, b2@)
        },
        Stmt::FnDecl { name, params, body } => {
            proof {
                assert(decreases_to!(body => body@));
            }
            b matches Stmt::FnDecl { name: n2, params: p2, body: b2 } && name@ == n2@ && params@.map_values(
                |p: String| p@,
            ) == p2@.map_values(|p: String| p@) && same_stmts(body@, b2@)
        },
    }
}

/// Whether `t` holds, one by one, the same statements as `s`.
pub open spec fn same_stmts(s: Seq<Stmt>, t: Seq<Stmt>) -> bool
    decreases s, 0nat,
{
    if s.len() == 0 {
        t.len() == 0
    } else {
        proof {
            assert(decreases_to!(s => s[s.len() - 1]));
            assert(decreases_to!(s => s.subrange(0, s.len() - 1)));
        }
        t.len() == s.len() && same_stmts(s.drop_last(), t.drop_last()) && same_stmt(s.last(), t.last())
    }
}

impl Stmt {
    fn clone_all(ss: &Vec<Stmt>) -> (r: Vec<Stmt>)
        ensures
            same_stmts(ss@, r@),
        decreases ss, 0nat,
    {
        let mut out: Vec<Stmt> = Vec::new();
        let mut i: usize = 0;
        #[verifier::loop_isolation(false)]
        while i < ss.len()
            invariant
                i <= ss.len(),
                same_stmts(ss@.take(i as int), out@),
            decreases ss.len() - i,
        {
            assert(decreases_to!(ss => ss@[i as int]));
            let s = ss[i].clone();
            proof {
                assert(out@.push(s).drop_last() =~= out@);
                assert(ss@.take(i + 1).drop_last() =~= ss@.take(i as int));
            }
            out.push(s);
            i += 1;
        }
        assert(ss@.take(ss.len() as int) =~= ss@);
        out
    }
}

impl Clone for Stmt {
    fn clone(&self) -> (r: Self)
        ensures
            same_stmt(*self, r),
        decreases self, 1nat,
    {
        match self {
            Stmt::Let { name, ty, init } => {
                let ty2 = match ty {
                    Some(t) => Some(t.clone()),
                    None => None,
                };
                let init2 = match init {
                    Some(e) => Some(e.clone()),
                    None => None,
                };
                Stmt::Let { name: name.clone(), ty: ty2, init: init2 }
            },
            Stmt::Assign { name, value } => Stmt::Assign { name: name.clone(), value: value.clone() },
            Stmt::Return(e) => Stmt::Return(e.clone()),
            Stmt::ExprStmt(e) => Stmt::ExprStmt(e.clone()),
            Stmt::Block(ss) => Stmt::Block(Stmt::clone_all(ss)),
            Stmt::While { cond, body } => Stmt::While { cond: cond.clone(), body: Stmt::clone_all(body) },
            Stmt::FnDecl { name, params, body } => {
                let mut ps: Vec<String> = Vec::new();
                let mut i: usize = 0;
                while i < params.len()
                    invariant
                        i <= params.len(),
                        ps@.map_values(|p: String| p@) == params@.take(i as int).map_values(|p: String| p@),
                    decreases params.len() - i,
                {
                    let p = params[i].clone();
                    proof {
                        assert(ps@.push(p).map_values(|p: String| p@) =~= ps@.map_values(|p: String| p@).push(p@));
                        assert(params@.take(i + 1).map_values(|p: String| p@) =~= params@.take(i as int).map_values(
                            |p: String| p@,
                        ).push(params@[i as int]@));
                    }
                    ps.push(p);
                    i += 1;
                }
                assert(params@.take(params.len() as int) =~= params@);
                Stmt::FnDecl { name: name.clone(), params: ps, body: Stmt::clone_all(body) }
            },
        }
    }
}

/// A function declaration.
#[derive(Debug, Clone)]
pub struct FnDecl {
    pub name: String,
    pub params: Vec<(String, Type)>,
    pub ret_ty: Type,
    pub body: Vec<Stmt>,
}

/// A program: a list of functions.
#[derive(Debug, Clone)]
pub struct Program {
    pub functions: Vec<FnDecl>,
}

} // verus!
