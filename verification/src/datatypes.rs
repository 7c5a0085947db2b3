use vstd::prelude::*;
use vstd::string::StringExecFns;

verus! {

/// A position `(line, column)` within an input source, kept for diagnostics.
pub type Pos = (usize, usize);

/// Mathematical model of an expression: the same tree shape as
/// [`LinslExpr`], with sequences in place of vectors and strings.
#[verifier::ext_equal]
pub enum SpecExpr {
    Bool(bool),
    Closure(Box<SpecExpr>, Box<SpecExpr>),
    List(Seq<SpecExpr>),
    Number(u64),
    Macro(Box<SpecExpr>, Box<SpecExpr>),
    Primitive(PrimOp),
    Symbol(Seq<char>),
}

/// The fixed set of built-in operations.
#[derive(Clone, Copy, PartialEq, Eq, Structural, Debug)]
pub enum PrimOp {
    Add,
    Neg,
    Mul,
    Inv,
    Eq,
    Gr,
    Car,
    Cdr,
    IsNil,
    EqTypes,
    List,
    Append,
}

/// The basic unit of code in the language. Any valid piece of Linsl code is
/// an expression. Numbers carry the bit pattern of an IEEE double.
#[derive(Debug, PartialEq)]
pub enum LinslExpr {
    /// One of `#t` or `#f`.
    Bool(bool),
    /// A lambda function: parameter spec and body, stored verbatim.
    Closure(Box<LinslExpr>, Box<LinslExpr>),
    List(Vec<LinslExpr>),
    /// The bit pattern of a double-precision number.
    Number(u64),
    /// Like a closure, but applied to its argument forms unevaluated.
    Macro(Box<LinslExpr>, Box<LinslExpr>),
    /// A built-in transformation of expressions.
    Primitive(PrimOp),
    Symbol(String),
}

/// The model of an expression: the same tree with views at the leaves.
pub open spec fn view_expr(e: LinslExpr) -> SpecExpr
    decreases e,
{
    match e {
        LinslExpr::Bool(b) => SpecExpr::Bool(b),
        LinslExpr::Closure(p, b) => SpecExpr::Closure(
            Box::new(view_expr(*p)),
            Box::new(view_expr(*b)),
        ),
        LinslExpr::List(v) => SpecExpr::List(
            Seq::new(
                v@.len(),
                |i: int|
                    if 0 <= i < v@.len() {
                        view_expr(v@[i])
                    } else {
                        SpecExpr::Bool(false)
                    },
            ),
        ),
        LinslExpr::Number(n) => SpecExpr::Number(n),
        LinslExpr::Macro(p, b) => SpecExpr::Macro(
            Box::new(view_expr(*p)),
            Box::new(view_expr(*b)),
        ),
        LinslExpr::Primitive(op) => SpecExpr::Primitive(op),
        LinslExpr::Symbol(s) => SpecExpr::Symbol(s@),
    }
}

impl View for LinslExpr {
    type V = SpecExpr;

    open spec fn view(&self) -> SpecExpr {
        view_expr(*self)
    }
}

/// Errors that can be encountered when parsing or evaluating code.
#[derive(Debug, PartialEq)]
pub enum LinslErr {
    /// A fault of the interpreter itself, or an exhausted resource;
    /// never caused by well-formed use of the language.
    InternalError(String),
    /// A malformed or ill-typed user-level form, with the position where
    /// it was detected.
    SyntaxError(String, Pos),
    /// The number of opening parentheses differs from the number of
    /// closing ones: `(count of '(', count of ')')`.
    UnbalancedParens(usize, usize),
}

/// Mathematical model of an error.
pub enum SpecErr {
    InternalError(Seq<char>),
    SyntaxError(Seq<char>, Pos),
    UnbalancedParens(usize, usize),
}

impl View for LinslErr {
    type V = SpecErr;

    open spec fn view(&self) -> SpecErr {
        match self {
            LinslErr::InternalError(s) => SpecErr::InternalError(s@),
            LinslErr::SyntaxError(s, p) => SpecErr::SyntaxError(s@, *p),
            LinslErr::UnbalancedParens(o, c) => SpecErr::UnbalancedParens(*o, *c),
        }
    }
}

pub type LinslRes = Result<LinslExpr, LinslErr>;

/// The models of the elements of a sequence of expressions.
pub open spec fn views_of_exprs(s: Seq<LinslExpr>) -> Seq<SpecExpr> {
    Seq::new(s.len(), |i: int| view_expr(s[i]))
}

/// The model of `LinslExpr::List(v)` is `SpecExpr::List` of the element
/// models.
pub proof fn lemma_expr_list(v: Vec<LinslExpr>)
    ensures
        view_expr(LinslExpr::List(v)) == SpecExpr::List(views_of_exprs(v@)),
{
    lemma_list_view(v, views_of_exprs(v@));
}

/// The model of `LinslExpr::List(v)` is `SpecExpr::List` of the element models.
pub proof fn lemma_list_view(v: Vec<LinslExpr>, s: Seq<SpecExpr>)
    requires
        s.len() == v@.len(),
        forall|i: int| 0 <= i < v@.len() ==> s[i] == view_expr(#[trigger] v@[i]),
    ensures
        view_expr(LinslExpr::List(v)) == SpecExpr::List(s),
{
    let vl = view_expr(LinslExpr::List(v));
    assert(vl is List);
    assert(vl->List_0 =~= s);
    assert(vl == SpecExpr::List(s));
}

/// The models of a table of bindings.
pub open spec fn views_of_pairs(s: Seq<(String, LinslExpr)>) -> Seq<(Seq<char>, SpecExpr)> {
    Seq::new(s.len(), |i: int| (s[i].0@, view_expr(s[i].1)))
}

/// The models of a list of names.
pub open spec fn views_of_strings(s: Seq<String>) -> Seq<Seq<char>> {
    Seq::new(s.len(), |i: int| s[i]@)
}

/// One scope record: its parent's index in the arena and its own
/// bindings, later entries shadowing earlier ones.
pub struct Scope {
    /// Index of the enclosing scope; the root scope names itself.
    pub parent: usize,
    /// The bindings made in this scope, in the order they were made.
    pub table: Vec<(String, LinslExpr)>,
}

/// Mathematical model of a scope record.
#[verifier::ext_equal]
pub struct SpecScope {
    pub parent: usize,
    pub table: Seq<(Seq<char>, SpecExpr)>,
}

impl View for Scope {
    type V = SpecScope;

    open spec fn view(&self) -> SpecScope {
        SpecScope { parent: self.parent, table: views_of_pairs(self.table@) }
    }
}

/// Mathematical model of an environment: the arena of scope records.
pub type SpecEnv = Seq<SpecScope>;

/// The bindings between symbol names and code.  Scopes form an arena:
/// each record points to its parent by index, so a child scope can
/// outlive the call that made it.  Scope 0 is the root, made once and
/// holding the primitive table.
pub struct LinslEnv {
    /// All scope records made so far; ancestors are never mutated by
    /// their children.
    pub scopes: Vec<Scope>,
}

impl View for LinslEnv {
    type V = SpecEnv;

    open spec fn view(&self) -> SpecEnv {
        Seq::new(self.scopes@.len(), |i: int| self.scopes@[i]@)
    }
}

/// An environment is well formed when it has a root and every other
/// scope's parent lies strictly below it.
pub open spec fn spec_env_wf(env: SpecEnv) -> bool {
    &&& env.len() > 0
    &&& forall|i: int| 0 < i < env.len() ==> (#[trigger] env[i].parent) < i
}

/// A binding found in one scope's table: the value of the latest entry
/// under the name, if any.
pub open spec fn spec_scope_lookup(table: Seq<(Seq<char>, SpecExpr)>, name: Seq<char>) -> Option<
    SpecExpr,
>
    decreases table.len(),
{
    if table.len() == 0 {
        None
    } else if table.last().0 == name {
        Some(table.last().1)
    } else {
        spec_scope_lookup(table.drop_last(), name)
    }
}

/// A binding found in the scope chain: the current scope first, then
/// its ancestors, ending at the root.
pub open spec fn spec_env_lookup(env: SpecEnv, scope: int, name: Seq<char>) -> Option<SpecExpr>
    decreases scope,
    when 0 <= scope < env.len() && spec_env_wf(env)
{
    match spec_scope_lookup(env[scope].table, name) {
        Some(v) => Some(v),
        None => if scope == 0 {
            None
        } else {
            spec_env_lookup(env, env[scope].parent as int, name)
        },
    }
}

/// The fixed primitive table that seeds the root scope.
pub open spec fn spec_primitive_table() -> Seq<(Seq<char>, SpecExpr)> {
    seq![
        ("+"@, SpecExpr::Primitive(PrimOp::Add)),
        ("neg"@, SpecExpr::Primitive(PrimOp::Neg)),
        ("*"@, SpecExpr::Primitive(PrimOp::Mul)),
        ("inv"@, SpecExpr::Primitive(PrimOp::Inv)),
        ("="@, SpecExpr::Primitive(PrimOp::Eq)),
        (">"@, SpecExpr::Primitive(PrimOp::Gr)),
        ("car"@, SpecExpr::Primitive(PrimOp::Car)),
        ("cdr"@, SpecExpr::Primitive(PrimOp::Cdr)),
        ("empty?"@, SpecExpr::Primitive(PrimOp::IsNil)),
        ("eqt?"@, SpecExpr::Primitive(PrimOp::EqTypes)),
        ("list"@, SpecExpr::Primitive(PrimOp::List)),
        ("append"@, SpecExpr::Primitive(PrimOp::Append)),
    ]
}

/// The environment at interpreter start: one root scope holding the
/// primitives.
pub open spec fn spec_initial_env() -> SpecEnv {
    seq![SpecScope { parent: 0, table: spec_primitive_table() }]
}

impl LinslEnv {
    /// The environment when starting the interpreter, holding only the
    /// primitives.
    pub fn default() -> (r: LinslEnv)
        ensures
            r@ == spec_initial_env(),
            spec_env_wf(r@),
    {
        let mut table: Vec<(String, LinslExpr)> = Vec::new();
        table.push(("+".to_owned(), LinslExpr::Primitive(PrimOp::Add)));
        table.push(("neg".to_owned(), LinslExpr::Primitive(PrimOp::Neg)));
        table.push(("*".to_owned(), LinslExpr::Primitive(PrimOp::Mul)));
        table.push(("inv".to_owned(), LinslExpr::Primitive(PrimOp::Inv)));
        table.push(("=".to_owned(), LinslExpr::Primitive(PrimOp::Eq)));
        table.push((">".to_owned(), LinslExpr::Primitive(PrimOp::Gr)));
        table.push(("car".to_owned(), LinslExpr::Primitive(PrimOp::Car)));
        table.push(("cdr".to_owned(), LinslExpr::Primitive(PrimOp::Cdr)));
        table.push(("empty?".to_owned(), LinslExpr::Primitive(PrimOp::IsNil)));
        table.push(("eqt?".to_owned(), LinslExpr::Primitive(PrimOp::EqTypes)));
        table.push(("list".to_owned(), LinslExpr::Primitive(PrimOp::List)));
        table.push(("append".to_owned(), LinslExpr::Primitive(PrimOp::Append)));
        let mut scopes: Vec<Scope> = Vec::new();
        scopes.push(Scope { parent: 0, table });
        let r = LinslEnv { scopes };
        proof {
            assert(r@[0].table =~= spec_primitive_table());
            assert(r@ =~~= spec_initial_env());
        }
        r
    }

    /// Create a child scope of the given one and return its index.
    pub fn new(&mut self, outer: usize) -> (idx: usize)
        requires
            outer < old(self).scopes@.len(),
        ensures
            idx == old(self)@.len(),
            final(self)@ == old(self)@.push(SpecScope { parent: outer, table: Seq::empty() }),
    {
        let idx = self.scopes.len();
        self.scopes.push(Scope { parent: outer, table: Vec::new() });
        proof {
            assert(self@ =~~= old(self)@.push(
                SpecScope { parent: outer, table: Seq::empty() },
            ));
        }
        idx
    }
}

/// Deep copy of an expression; the copy has the same model.
pub fn clone_expr(e: &LinslExpr) -> (r: LinslExpr)
    ensures
        r@ == e@,
    decreases *e,
{
    match e {
        LinslExpr::Bool(b) => LinslExpr::Bool(*b),
        LinslExpr::Closure(p, b) => LinslExpr::Closure(
            Box::new(clone_expr(p)),
            Box::new(clone_expr(b)),
        ),
        LinslExpr::List(v) => {
            let mut out: Vec<LinslExpr> = Vec::new();
            let mut i: usize = 0;
            while i < v.len()
                invariant
                    *e == LinslExpr::List(*v),
                    i <= v.len(),
                    out@.len() == i,
                    forall|j: int| 0 <= j < i ==> view_expr(#[trigger] out@[j]) == view_expr(v@[j]),
                decreases v.len() - i,
            {
                proof {
                    assert(decreases_to!(*e => e->List_0));
                    assert(e->List_0 == *v);
                    assert(decreases_to!(*v => v@));
                    assert(decreases_to!(v@ => v@[i as int]));
                }
                out.push(clone_expr(&v[i]));
                i += 1;
            }
            proof {
                let s = Seq::new(v@.len(), |i: int| view_expr(v@[i]));
                lemma_list_view(out, s);
                lemma_list_view(*v, s);
                assert(*e == LinslExpr::List(*v));
            }
            LinslExpr::List(out)
        },
        LinslExpr::Number(n) => LinslExpr::Number(*n),
        LinslExpr::Macro(p, b) => LinslExpr::Macro(
            Box::new(clone_expr(p)),
            Box::new(clone_expr(b)),
        ),
        LinslExpr::Primitive(op) => LinslExpr::Primitive(*op),
        LinslExpr::Symbol(s) => LinslExpr::Symbol(s.clone()),
    }
}

} // verus!

verus! {

/// The canonical text of an expression: booleans as `#t`/`#f`, numbers
/// in decimal, symbols verbatim, lists with space-joined elements in
/// parentheses, function values with their parameter specification and
/// body, primitives as an opaque placeholder.
pub open spec fn spec_render(e: SpecExpr) -> Seq<char>
    decreases e,
{
    match e {
        SpecExpr::Bool(b) => if b {
            "#t"@
        } else {
            "#f"@
        },
        SpecExpr::Closure(p, b) => "(lambda "@ + spec_render(*p) + ", "@ + spec_render(*b)
            + ")"@,
        SpecExpr::List(xs) => "("@ + spec_render_elems(xs) + ")"@,
        SpecExpr::Number(n) => crate::numbers::spec_num_text(n),
        SpecExpr::Macro(p, b) => "(macro "@ + spec_render(*p) + ", "@ + spec_render(*b) + ")"@,
        SpecExpr::Primitive(_) => "Primitive operator"@,
        SpecExpr::Symbol(s) => s,
    }
}

/// The texts of a row of expressions, joined by single spaces.
pub open spec fn spec_render_elems(xs: Seq<SpecExpr>) -> Seq<char>
    decreases xs,
{
    if xs.len() == 0 {
        Seq::empty()
    } else if xs.len() == 1 {
        spec_render(xs[0])
    } else {
        spec_render(xs[0]) + " "@ + spec_render_elems(xs.skip(1))
    }
}

/// Appending one more element to a join adds a space and its text.
proof fn lemma_render_elems_snoc(xs: Seq<SpecExpr>, x: SpecExpr)
    ensures
        spec_render_elems(xs.push(x)) == if xs.len() == 0 {
            spec_render(x)
        } else {
            spec_render_elems(xs) + " "@ + spec_render(x)
        },
    decreases xs.len(),
{
    let whole = xs.push(x);
    if xs.len() == 0 {
        assert(whole.len() == 1);
        assert(whole[0] == x);
    } else {
        assert(whole[0] == xs[0]);
        assert(whole.skip(1) =~= xs.skip(1).push(x));
        lemma_render_elems_snoc(xs.skip(1), x);
        if xs.len() == 1 {
            assert(xs.skip(1).len() == 0);
            assert(spec_render_elems(whole) == spec_render(xs[0]) + " "@ + spec_render(x));
        } else {
            assert(spec_render_elems(whole) == spec_render(xs[0]) + " "@ + (spec_render_elems(
                xs.skip(1),
            ) + " "@ + spec_render(x)));
            assert(spec_render(xs[0]) + " "@ + (spec_render_elems(xs.skip(1)) + " "@
                + spec_render(x)) =~= (spec_render(xs[0]) + " "@ + spec_render_elems(xs.skip(1)))
                + " "@ + spec_render(x));
        }
    }
}

impl LinslExpr {
    /// Canonical textual rendering of the expression.
    pub fn render(&self) -> (r: String)
        ensures
            r@ == spec_render(self@),
        decreases *self,
    {
        match self {
            LinslExpr::Bool(b) => if *b {
                "#t".to_owned()
            } else {
                "#f".to_owned()
            },
            LinslExpr::Closure(p, b) => {
                let mut out = "(lambda ".to_owned();
                out.append(p.render().as_str());
                out.append(", ");
                out.append(b.render().as_str());
                out.append(")");
                out
            },
            LinslExpr::List(v) => {
                let mut out = "(".to_owned();
                let mut i: usize = 0;
                while i < v.len()
                    invariant
                        *self == LinslExpr::List(*v),
                        i <= v@.len(),
                        out@ == "("@ + spec_render_elems(views_of_exprs(v@).take(i as int)),
                    decreases v@.len() - i,
                {
                    proof {
                        assert(decreases_to!(*self => self->List_0));
                        assert(self->List_0 == *v);
                        assert(decreases_to!(*v => v@));
                        assert(decreases_to!(v@ => v@[i as int]));
                    }
                    if i > 0 {
                        out.append(" ");
                    }
                    let piece = (&v[i]).render();
                    out.append(piece.as_str());
                    proof {
                        let views = views_of_exprs(v@);
                        lemma_render_elems_snoc(views.take(i as int), view_expr(v@[i as int]));
                        assert(views.take(i + 1) =~= views.take(i as int).push(
                            view_expr(v@[i as int]),
                        ));
                        if i > 0 {
                            assert(("("@ + spec_render_elems(views.take(i as int)) + " "@)
                                + piece@ =~= "("@ + spec_render_elems(views.take(i + 1)));
                        } else {
                            assert("("@ + piece@ =~= "("@ + spec_render_elems(views.take(1)));
                        }
                    }
                    i = i + 1;
                }
                out.append(")");
                proof {
                    let views = views_of_exprs(v@);
                    assert(views.take(v@.len() as int) =~= views);
                    lemma_expr_list(*v);
                    assert(("("@ + spec_render_elems(views)) + ")"@ =~= "("@
                        + spec_render_elems(views) + ")"@);
                }
                out
            },
            LinslExpr::Number(n) => crate::numbers::num_text(*n),
            LinslExpr::Macro(p, b) => {
                let mut out = "(macro ".to_owned();
                out.append(p.render().as_str());
                out.append(", ");
                out.append(b.render().as_str());
                out.append(")");
                out
            },
            LinslExpr::Primitive(_) => "Primitive operator".to_owned(),
            LinslExpr::Symbol(s) => s.clone(),
        }
    }
}

} // verus!
