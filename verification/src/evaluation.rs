//! Evaluation of expressions against an environment.
//!
//! `spec_eval` is the mathematical interpreter: a recursive function from
//! an expression, an environment and a scope index to a result and the
//! environment after evaluation, bounded by a fuel that the public entry
//! point fixes.  The executable evaluator is verified to realize it
//! exactly, fuel included.

use vstd::prelude::*;
use vstd::string::StringExecFns;

use crate::datatypes::{
    clone_expr, lemma_expr_list, spec_env_lookup, spec_env_wf, spec_render, spec_scope_lookup,
    view_expr, views_of_exprs, views_of_pairs, views_of_strings, LinslEnv, LinslErr, LinslExpr,
    LinslRes, Scope, SpecEnv, SpecErr, SpecExpr, SpecScope,
};
use crate::parsing::{parse, parse_outcome_matches, spec_parse, spec_symbols_of, str_eq,
    Tokenizer, PARSE_FUEL};
use crate::primitives::{apply_primitive, spec_apply_primitive};

verus! {

/// The outcome of one evaluation: the result and the environment after
/// it.
pub type SpecEvalOut = (Result<SpecExpr, SpecErr>, SpecEnv);

/// The outcome of evaluating a row of forms in order.
pub type SpecFormsOut = (Result<Seq<SpecExpr>, SpecErr>, SpecEnv);

/// The new bindings made by binding `vals` to a parameter
/// specification.  The specification must resolve to a flat list of
/// symbols.  With as many values as symbols the binding is one-to-one;
/// with more values, the last symbol also takes the surplus as a list;
/// more symbols than values, or surplus values with no symbol at all,
/// is an error.
pub open spec fn spec_bind(params: SpecExpr, vals: Seq<SpecExpr>) -> Result<
    Seq<(Seq<char>, SpecExpr)>,
    SpecErr,
> {
    match spec_symbols_of(params) {
        Err(e) => Err(e),
        Ok(names) => if names.len() > vals.len() {
            Err(
                SpecErr::SyntaxError(
                    "Cannot have more symbols than values."@,
                    (0usize, 0usize),
                ),
            )
        } else if names.len() == 0 && vals.len() > 0 {
            Err(
                SpecErr::SyntaxError(
                    "Cannot bind values to an empty parameter list."@,
                    (0usize, 0usize),
                ),
            )
        } else {
            let pairs = Seq::new(names.len(), |i: int| (names[i], vals[i]));
            if names.len() < vals.len() {
                Ok(
                    pairs.push(
                        (
                            names[names.len() - 1],
                            SpecExpr::List(vals.skip(names.len() - 1)),
                        ),
                    ),
                )
            } else {
                Ok(pairs)
            }
        },
    }
}

/// What `lambda` and `macro` make of their two forms: a function value
/// holding the parameter specification and body verbatim.
pub open spec fn spec_make_function(params: Seq<SpecExpr>, is_lambda: bool) -> Result<
    SpecExpr,
    SpecErr,
> {
    if params.len() != 2 {
        Err(SpecErr::SyntaxError("Lambda must be given two expressions."@, (0usize, 0usize)))
    } else if is_lambda {
        Ok(SpecExpr::Closure(Box::new(params[0]), Box::new(params[1])))
    } else {
        Ok(SpecExpr::Macro(Box::new(params[0]), Box::new(params[1])))
    }
}

/// Evaluation of one expression: booleans and numbers are themselves,
/// symbols are looked up, lists are applications or special forms, and
/// function values are not valid top-level forms.
pub open spec fn spec_eval(e: SpecExpr, env: SpecEnv, scope: int, fuel: nat) -> SpecEvalOut
    decreases fuel,
{
    if fuel == 0 {
        (Err(SpecErr::InternalError("Evaluation nesting too deep."@)), env)
    } else {
        match e {
            SpecExpr::Bool(_) => (Ok(e), env),
            SpecExpr::Number(_) => (Ok(e), env),
            SpecExpr::Symbol(s) => match spec_env_lookup(env, scope, s) {
                Some(v) => (Ok(v), env),
                None => (
                    Err(
                        SpecErr::SyntaxError(
                            "Undefined symbol '"@ + s + "'"@,
                            (0usize, 0usize),
                        ),
                    ),
                    env,
                ),
            },
            SpecExpr::List(es) => spec_eval_list(es, env, scope, (fuel - 1) as nat),
            _ => (Err(SpecErr::SyntaxError("Expected list or atom."@, (0usize, 0usize))), env),
        }
    }
}

/// Evaluation of a non-atom form: the five reserved special forms are
/// dispatched on the unevaluated arguments; otherwise the head is
/// evaluated and must come out a closure, macro or primitive.
pub open spec fn spec_eval_list(es: Seq<SpecExpr>, env: SpecEnv, scope: int, fuel: nat) -> SpecEvalOut
    decreases fuel,
{
    if fuel == 0 {
        (Err(SpecErr::InternalError("Evaluation nesting too deep."@)), env)
    } else if es.len() == 0 {
        (Err(SpecErr::SyntaxError("Expected non-empty list"@, (0usize, 0usize))), env)
    } else {
        let head = es[0];
        let params = es.skip(1);
        if head == SpecExpr::Symbol("define"@) {
            spec_eval_define(params, env, scope, (fuel - 1) as nat)
        } else if head == SpecExpr::Symbol("if"@) {
            spec_eval_if(params, env, scope, (fuel - 1) as nat)
        } else if head == SpecExpr::Symbol("lambda"@) {
            (spec_make_function(params, true), env)
        } else if head == SpecExpr::Symbol("macro"@) {
            (spec_make_function(params, false), env)
        } else if head == SpecExpr::Symbol("quote"@) {
            if params.len() == 1 {
                (Ok(params[0]), env)
            } else {
                (
                    Err(
                        SpecErr::SyntaxError(
                            "quote must be given exactly one expression."@,
                            (0usize, 0usize),
                        ),
                    ),
                    env,
                )
            }
        } else {
            let (hr, env1) = spec_eval(head, env, scope, (fuel - 1) as nat);
            match hr {
                Err(e) => (Err(e), env1),
                Ok(h) => match h {
                    SpecExpr::Closure(p, b) => {
                        let (ar, env2) = spec_eval_forms(params, env1, scope, (fuel - 1) as nat);
                        match ar {
                            Err(e) => (Err(e), env2),
                            Ok(vs) => match spec_bind(*p, vs) {
                                Err(e) => (Err(e), env2),
                                Ok(table) => {
                                    let idx = env2.len() as int;
                                    let env3 = env2.push(
                                        SpecScope { parent: scope as usize, table },
                                    );
                                    spec_eval(*b, env3, idx, (fuel - 1) as nat)
                                },
                            },
                        }
                    },
                    SpecExpr::Macro(p, b) => match spec_bind(*p, params) {
                        Err(e) => (Err(e), env1),
                        Ok(table) => {
                            let idx = env1.len() as int;
                            let env2 = env1.push(SpecScope { parent: scope as usize, table });
                            let (er, env3) = spec_eval(*b, env2, idx, (fuel - 1) as nat);
                            match er {
                                Err(e) => (Err(e), env3),
                                Ok(expansion) => spec_eval(expansion, env3, scope, (fuel - 1) as nat),
                            }
                        },
                    },
                    SpecExpr::Primitive(op) => {
                        let (ar, env2) = spec_eval_forms(params, env1, scope, (fuel - 1) as nat);
                        match ar {
                            Err(e) => (Err(e), env2),
                            Ok(vs) => (spec_apply_primitive(op, vs), env2),
                        }
                    },
                    _ => (
                        Err(
                            SpecErr::SyntaxError(
                                "Expected the head of list to be a primitive, found '"@
                                    + spec_render(h) + "'"@,
                                (0usize, 0usize),
                            ),
                        ),
                        env1,
                    ),
                },
            }
        }
    }
}

/// The `define` special form: exactly two forms, a name symbol and a
/// value form evaluated in the current scope; the binding lands in the
/// current scope and the name is returned for echoing.
pub open spec fn spec_eval_define(params: Seq<SpecExpr>, env: SpecEnv, scope: int, fuel: nat) -> SpecEvalOut
    decreases fuel,
{
    if fuel == 0 {
        (Err(SpecErr::InternalError("Evaluation nesting too deep."@)), env)
    } else if params.len() != 2 {
        (Err(SpecErr::SyntaxError("define must have two forms."@, (0usize, 0usize))), env)
    } else {
        match params[0] {
            SpecExpr::Symbol(name) => {
                let (vr, env1) = spec_eval(params[1], env, scope, (fuel - 1) as nat);
                match vr {
                    Err(e) => (Err(e), env1),
                    Ok(v) => {
                        let env2 = env1.update(
                            scope,
                            SpecScope {
                                parent: env1[scope].parent,
                                table: env1[scope].table.push((name, v)),
                            },
                        );
                        (Ok(SpecExpr::Symbol(name)), env2)
                    },
                }
            },
            _ => (
                Err(
                    SpecErr::SyntaxError(
                        "First define form must be a symbol."@,
                        (0usize, 0usize),
                    ),
                ),
                env,
            ),
        }
    }
}

/// The `if` special form: exactly three forms; the test must evaluate
/// to a boolean, which selects the branch to evaluate; the untaken
/// branch is never evaluated.
pub open spec fn spec_eval_if(params: Seq<SpecExpr>, env: SpecEnv, scope: int, fuel: nat) -> SpecEvalOut
    decreases fuel,
{
    if fuel == 0 {
        (Err(SpecErr::InternalError("Evaluation nesting too deep."@)), env)
    } else if params.len() != 3 {
        (Err(SpecErr::SyntaxError("Expected 3 arguments to if."@, (0usize, 0usize))), env)
    } else {
        let (tr, env1) = spec_eval(params[0], env, scope, (fuel - 1) as nat);
        match tr {
            Err(e) => (Err(e), env1),
            Ok(t) => match t {
                SpecExpr::Bool(b) => if b {
                    spec_eval(params[1], env1, scope, (fuel - 1) as nat)
                } else {
                    spec_eval(params[2], env1, scope, (fuel - 1) as nat)
                },
                _ => (
                    Err(
                        SpecErr::SyntaxError(
                            "Test form must evaluate to bool."@,
                            (0usize, 0usize),
                        ),
                    ),
                    env1,
                ),
            },
        }
    }
}

/// Eager left-to-right evaluation of a row of argument forms.
pub open spec fn spec_eval_forms(es: Seq<SpecExpr>, env: SpecEnv, scope: int, fuel: nat) -> SpecFormsOut
    decreases fuel,
{
    if fuel == 0 {
        (Err(SpecErr::InternalError("Evaluation nesting too deep."@)), env)
    } else if es.len() == 0 {
        (Ok(Seq::empty()), env)
    } else {
        let (r0, env1) = spec_eval(es[0], env, scope, (fuel - 1) as nat);
        match r0 {
            Err(e) => (Err(e), env1),
            Ok(v) => {
                let (rr, env2) = spec_eval_forms(es.skip(1), env1, scope, (fuel - 1) as nat);
                match rr {
                    Err(e) => (Err(e), env2),
                    Ok(vs) => (Ok(seq![v] + vs), env2),
                }
            },
        }
    }
}

/// How an executable evaluation result and environment realize a spec
/// outcome.
pub open spec fn eval_outcome_matches(r: LinslRes, out: SpecEvalOut, env_new: LinslEnv) -> bool {
    &&& env_new@ == out.1
    &&& match (r, out.0) {
        (Ok(e), Ok(se)) => view_expr(e) == se,
        (Err(e), Err(se)) => e@ == se,
        _ => false,
    }
}

/// How an executable forms result and environment realize a spec
/// outcome.
pub open spec fn forms_outcome_matches(
    r: Result<Vec<LinslExpr>, LinslErr>,
    out: SpecFormsOut,
    env_new: LinslEnv,
) -> bool {
    &&& env_new@ == out.1
    &&& match (r, out.0) {
        (Ok(v), Ok(vs)) => views_of_exprs(v@) == vs,
        (Err(e), Err(se)) => e@ == se,
        _ => false,
    }
}

/// The evaluation allowance handed to the evaluator by `evaluate`.
pub const EVAL_FUEL: u64 = 1_000_000;

/// Recursive search for the value of a symbol: the innermost scope
/// first, outer scopes only if no match is found there.
pub fn env_get(s: &str, env: &LinslEnv, scope: usize) -> (r: Option<LinslExpr>)
    requires
        spec_env_wf(env@),
        scope < env@.len(),
    ensures
        match r {
            Some(v) => spec_env_lookup(env@, scope as int, s@) == Some(view_expr(v)),
            None => spec_env_lookup(env@, scope as int, s@) is None,
        },
{
    let mut cur: usize = scope;
    loop
        invariant
            spec_env_wf(env@),
            scope < env@.len(),
            cur < env@.len(),
            spec_env_lookup(env@, scope as int, s@) == spec_env_lookup(env@, cur as int, s@),
        decreases cur,
    {
        let table = &env.scopes[cur].table;
        let mut i: usize = table.len();
        proof {
            assert(env@[cur as int].table =~= views_of_pairs(table@));
            assert(env@[cur as int].table.take(i as int) =~= env@[cur as int].table);
        }
        while i > 0
            invariant
                spec_env_wf(env@),
                scope < env@.len(),
                cur < env@.len(),
                spec_env_lookup(env@, scope as int, s@) == spec_env_lookup(env@, cur as int, s@),
                i <= table@.len(),
                env@[cur as int].table == views_of_pairs(table@),
                spec_scope_lookup(env@[cur as int].table, s@) == spec_scope_lookup(
                    env@[cur as int].table.take(i as int),
                    s@,
                ),
            decreases i,
        {
            i = i - 1;
            proof {
                let t = env@[cur as int].table;
                assert(t.take(i + 1).last() == t[i as int]);
                assert(t.take(i + 1).drop_last() =~= t.take(i as int));
            }
            if str_eq(table[i].0.as_str(), s) {
                proof {
                    let t = env@[cur as int].table;
                    assert(t[i as int].0 == s@);
                    assert(spec_scope_lookup(t.take(i + 1), s@) == Some(t[i as int].1));
                    assert(spec_scope_lookup(t, s@) == Some(t[i as int].1));
                    assert(spec_env_lookup(env@, cur as int, s@) == Some(t[i as int].1));
                    assert(t[i as int].1 == view_expr(table@[i as int].1));
                }
                return Some(clone_expr(&table[i].1));
            }
        }
        proof {
            assert(env@[cur as int].table.take(0) =~= Seq::<(Seq<char>, SpecExpr)>::empty());
        }
        if cur == 0 {
            return None;
        }
        cur = env.scopes[cur].parent;
    }
}

/// Creates the bindings a call makes: names from the parameter
/// specification, values in order, the last name absorbing any surplus
/// values as a list.
fn bind(symbs: &LinslExpr, vals: Vec<LinslExpr>) -> (r: Result<
    Vec<(String, LinslExpr)>,
    LinslErr,
>)
    ensures
        match r {
            Ok(table) => spec_bind(view_expr(*symbs), views_of_exprs(vals@)) == Ok::<_, SpecErr>(
                views_of_pairs(table@),
            ),
            Err(e) => spec_bind(view_expr(*symbs), views_of_exprs(vals@)) == Err::<
                Seq<(Seq<char>, SpecExpr)>,
                _,
            >(e@),
        },
{
    let names = match crate::parsing::parse_list_of_symbols(symbs) {
        Ok(names) => names,
        Err(e) => {
            return Err(e);
        },
    };
    let k = names.len();
    if k > vals.len() {
        return Err(
            LinslErr::SyntaxError("Cannot have more symbols than values.".to_owned(), (0, 0)),
        );
    }
    if k == 0 && vals.len() > 0 {
        return Err(
            LinslErr::SyntaxError(
                "Cannot bind values to an empty parameter list.".to_owned(),
                (0, 0),
            ),
        );
    }
    let mut table: Vec<(String, LinslExpr)> = Vec::new();
    let mut i: usize = 0;
    while i < k
        invariant
            k == names@.len(),
            k <= vals@.len(),
            i <= k,
            table@.len() == i,
            forall|j: int|
                0 <= j < i ==> (#[trigger] table@[j]).0@ == names@[j]@ && view_expr(
                    table@[j].1,
                ) == view_expr(vals@[j]),
        decreases k - i,
    {
        table.push((names[i].clone(), clone_expr(&vals[i])));
        i = i + 1;
    }
    proof {
        let spec_names = views_of_strings(names@);
        assert(views_of_pairs(table@) =~= Seq::new(
            spec_names.len(),
            |j: int| (spec_names[j], views_of_exprs(vals@)[j]),
        ));
    }
    if k < vals.len() {
        let mut rest: Vec<LinslExpr> = Vec::new();
        let mut j: usize = k - 1;
        while j < vals.len()
            invariant
                1 <= k <= vals@.len(),
                k - 1 <= j <= vals@.len(),
                rest@.len() == j - (k - 1),
                forall|m: int|
                    0 <= m < rest@.len() ==> view_expr(#[trigger] rest@[m]) == view_expr(
                        vals@[k - 1 + m],
                    ),
            decreases vals@.len() - j,
        {
            rest.push(clone_expr(&vals[j]));
            j = j + 1;
        }
        proof {
            assert(views_of_exprs(rest@) =~= views_of_exprs(vals@).skip(k - 1));
            lemma_expr_list(rest);
        }
        let ghost table0 = table@;
        table.push((names[k - 1].clone(), LinslExpr::List(rest)));
        proof {
            assert(views_of_pairs(table@) =~= views_of_pairs(table0).push(
                (
                    views_of_strings(names@)[k - 1],
                    SpecExpr::List(views_of_exprs(vals@).skip(k - 1)),
                ),
            ));
        }
    }
    Ok(table)
}

/// `lambda` and `macro` both take a parameter specification and a body,
/// stored verbatim.
fn get_params_and_body(exprs: &Vec<LinslExpr>) -> (r: Result<(LinslExpr, LinslExpr), LinslErr>)
    requires
        exprs@.len() >= 1,
    ensures
        match r {
            Ok(pb) => exprs@.len() == 3 && view_expr(pb.0) == view_expr(exprs@[1])
                && view_expr(pb.1) == view_expr(exprs@[2]),
            Err(e) => exprs@.len() != 3 && e@ == SpecErr::SyntaxError(
                "Lambda must be given two expressions."@,
                (0usize, 0usize),
            ),
        },
{
    if exprs.len() != 3 {
        return Err(
            LinslErr::SyntaxError("Lambda must be given two expressions.".to_owned(), (0, 0)),
        );
    }
    Ok((clone_expr(&exprs[1]), clone_expr(&exprs[2])))
}

/// The entry point for evaluating a program, since every program is an
/// expression.  Evaluation happens against the scope `scope` of `env`,
/// with a fixed evaluation allowance.
pub fn evaluate(expr: &LinslExpr, env: &mut LinslEnv, scope: usize) -> (r: LinslRes)
    requires
        spec_env_wf(old(env)@),
        scope < old(env)@.len(),
    ensures
        spec_env_wf(final(env)@),
        final(env)@.len() >= old(env)@.len(),
        eval_outcome_matches(
            r,
            spec_eval(view_expr(*expr), old(env)@, scope as int, EVAL_FUEL as nat),
            *final(env),
        ),
{
    evaluate_fuel(expr, env, scope, EVAL_FUEL)
}

fn evaluate_fuel(expr: &LinslExpr, env: &mut LinslEnv, scope: usize, fuel: u64) -> (r: LinslRes)
    requires
        spec_env_wf(old(env)@),
        scope < old(env)@.len(),
    ensures
        spec_env_wf(final(env)@),
        final(env)@.len() >= old(env)@.len(),
        eval_outcome_matches(
            r,
            spec_eval(view_expr(*expr), old(env)@, scope as int, fuel as nat),
            *final(env),
        ),
    decreases fuel,
{
    if fuel == 0 {
        return Err(LinslErr::InternalError("Evaluation nesting too deep.".to_owned()));
    }
    match expr {
        LinslExpr::Bool(_) => Ok(clone_expr(expr)),
        LinslExpr::Number(_) => Ok(clone_expr(expr)),
        LinslExpr::Symbol(s) => match env_get(s.as_str(), env, scope) {
            Some(v) => Ok(v),
            None => {
                let mut msg = "Undefined symbol '".to_owned();
                msg.append(s.as_str());
                msg.append("'");
                Err(LinslErr::SyntaxError(msg, (0, 0)))
            },
        },
        LinslExpr::List(es) => {
            proof {
                lemma_expr_list(*es);
            }
            evaluate_list_fuel(es, env, scope, fuel - 1)
        },
        _ => Err(LinslErr::SyntaxError("Expected list or atom.".to_owned(), (0, 0))),
    }
}

fn evaluate_list_fuel(es: &Vec<LinslExpr>, env: &mut LinslEnv, scope: usize, fuel: u64) -> (r:
    LinslRes)
    requires
        spec_env_wf(old(env)@),
        scope < old(env)@.len(),
    ensures
        spec_env_wf(final(env)@),
        final(env)@.len() >= old(env)@.len(),
        eval_outcome_matches(
            r,
            spec_eval_list(views_of_exprs(es@), old(env)@, scope as int, fuel as nat),
            *final(env),
        ),
    decreases fuel,
{
    if fuel == 0 {
        return Err(LinslErr::InternalError("Evaluation nesting too deep.".to_owned()));
    }
    if es.len() == 0 {
        return Err(LinslErr::SyntaxError("Expected non-empty list".to_owned(), (0, 0)));
    }
    proof {
        assert(views_of_exprs(es@)[0] == view_expr(es@[0]));
        assert(views_of_exprs(es@).skip(1) =~= views_of_exprs(es@.skip(1)));
    }
    let is_special = match &es[0] {
        LinslExpr::Symbol(s) => {
            if str_eq(s.as_str(), "define") {
                1u32
            } else if str_eq(s.as_str(), "if") {
                2
            } else if str_eq(s.as_str(), "lambda") {
                3
            } else if str_eq(s.as_str(), "macro") {
                4
            } else if str_eq(s.as_str(), "quote") {
                5
            } else {
                0
            }
        },
        _ => 0,
    };
    if is_special == 1 {
        return evaluate_define(es, env, scope, fuel - 1);
    }
    if is_special == 2 {
        return evaluate_if(es, env, scope, fuel - 1);
    }
    if is_special == 3 {
        return evaluate_lambda(es);
    }
    if is_special == 4 {
        return evaluate_macro(es);
    }
    if is_special == 5 {
        if es.len() == 2 {
            return Ok(clone_expr(&es[1]));
        } else {
            return Err(
                LinslErr::SyntaxError(
                    "quote must be given exactly one expression.".to_owned(),
                    (0, 0),
                ),
            );
        }
    }
    let head = match evaluate_fuel(&es[0], env, scope, fuel - 1) {
        Ok(h) => h,
        Err(e) => {
            return Err(e);
        },
    };
    match head {
        LinslExpr::Closure(p, b) => {
            let vs = match evaluate_forms(es, 1, env, scope, fuel - 1) {
                Ok(vs) => vs,
                Err(e) => {
                    return Err(e);
                },
            };
            let table = match bind(&p, vs) {
                Ok(t) => t,
                Err(e) => {
                    return Err(e);
                },
            };
            let idx = env.scopes.len();
            let ghost env2 = env@;
            env.scopes.push(Scope { parent: scope, table });
            proof {
                assert(env@ =~~= env2.push(
                    SpecScope { parent: scope, table: views_of_pairs(table@) },
                ));
            }
            evaluate_fuel(&b, env, idx, fuel - 1)
        },
        LinslExpr::Macro(p, b) => {
            let mut forms: Vec<LinslExpr> = Vec::new();
            let mut i: usize = 1;
            while i < es.len()
                invariant
                    1 <= i <= es@.len(),
                    forms@.len() == i - 1,
                    forall|j: int|
                        0 <= j < i - 1 ==> view_expr(#[trigger] forms@[j]) == view_expr(
                            es@[j + 1],
                        ),
                decreases es@.len() - i,
            {
                forms.push(clone_expr(&es[i]));
                i = i + 1;
            }
            proof {
                assert(views_of_exprs(forms@) =~= views_of_exprs(es@).skip(1));
            }
            let table = match bind(&p, forms) {
                Ok(t) => t,
                Err(e) => {
                    return Err(e);
                },
            };
            let idx = env.scopes.len();
            let ghost env1 = env@;
            env.scopes.push(Scope { parent: scope, table });
            proof {
                assert(env@ =~~= env1.push(
                    SpecScope { parent: scope, table: views_of_pairs(table@) },
                ));
            }
            let expansion = match evaluate_fuel(&b, env, idx, fuel - 1) {
                Ok(x) => x,
                Err(e) => {
                    return Err(e);
                },
            };
            evaluate_fuel(&expansion, env, scope, fuel - 1)
        },
        LinslExpr::Primitive(op) => {
            let vs = match evaluate_forms(es, 1, env, scope, fuel - 1) {
                Ok(vs) => vs,
                Err(e) => {
                    return Err(e);
                },
            };
            apply_primitive(op, vs.as_slice())
        },
        other => {
            let mut msg = "Expected the head of list to be a primitive, found '".to_owned();
            msg.append(other.render().as_str());
            msg.append("'");
            Err(LinslErr::SyntaxError(msg, (0, 0)))
        },
    }
}

/// Evaluation of `define`: binds the evaluated second form to the name
/// given by the first, in the current scope.
fn evaluate_define(es: &Vec<LinslExpr>, env: &mut LinslEnv, scope: usize, fuel: u64) -> (r:
    LinslRes)
    requires
        spec_env_wf(old(env)@),
        scope < old(env)@.len(),
        es@.len() >= 1,
    ensures
        spec_env_wf(final(env)@),
        final(env)@.len() >= old(env)@.len(),
        eval_outcome_matches(
            r,
            spec_eval_define(
                views_of_exprs(es@).skip(1),
                old(env)@,
                scope as int,
                fuel as nat,
            ),
            *final(env),
        ),
    decreases fuel,
{
    proof {
        assert(views_of_exprs(es@).skip(1).len() == es@.len() - 1);
    }
    if fuel == 0 {
        return Err(LinslErr::InternalError("Evaluation nesting too deep.".to_owned()));
    }
    if es.len() != 3 {
        return Err(LinslErr::SyntaxError("define must have two forms.".to_owned(), (0, 0)));
    }
    let name = match &es[1] {
        LinslExpr::Symbol(s) => s.clone(),
        _ => {
            return Err(
                LinslErr::SyntaxError("First define form must be a symbol.".to_owned(), (0, 0)),
            );
        },
    };
    let v = match evaluate_fuel(&es[2], env, scope, fuel - 1) {
        Ok(v) => v,
        Err(e) => {
            return Err(e);
        },
    };
    let ghost env1 = env@;
    let mut sc = env.scopes.remove(scope);
    let ghost sc0 = sc;
    sc.table.push((name.clone(), v));
    env.scopes.insert(scope, sc);
    proof {
        assert(views_of_pairs(sc.table@) =~= views_of_pairs(sc0.table@).push(
            (name@, view_expr(sc.table@.last().1)),
        ));
        assert(env@ =~~= env1.update(
            scope as int,
            SpecScope {
                parent: env1[scope as int].parent,
                table: env1[scope as int].table.push((name@, view_expr(sc.table@.last().1))),
            },
        ));
    }
    Ok(LinslExpr::Symbol(name))
}

/// Evaluation of `if`: the test form selects which of the two branch
/// forms is evaluated.
fn evaluate_if(es: &Vec<LinslExpr>, env: &mut LinslEnv, scope: usize, fuel: u64) -> (r: LinslRes)
    requires
        spec_env_wf(old(env)@),
        scope < old(env)@.len(),
        es@.len() >= 1,
    ensures
        spec_env_wf(final(env)@),
        final(env)@.len() >= old(env)@.len(),
        eval_outcome_matches(
            r,
            spec_eval_if(views_of_exprs(es@).skip(1), old(env)@, scope as int, fuel as nat),
            *final(env),
        ),
    decreases fuel,
{
    proof {
        assert(views_of_exprs(es@).skip(1).len() == es@.len() - 1);
    }
    if fuel == 0 {
        return Err(LinslErr::InternalError("Evaluation nesting too deep.".to_owned()));
    }
    if es.len() != 4 {
        return Err(LinslErr::SyntaxError("Expected 3 arguments to if.".to_owned(), (0, 0)));
    }
    let t = match evaluate_fuel(&es[1], env, scope, fuel - 1) {
        Ok(t) => t,
        Err(e) => {
            return Err(e);
        },
    };
    match t {
        LinslExpr::Bool(b) => {
            if b {
                evaluate_fuel(&es[2], env, scope, fuel - 1)
            } else {
                evaluate_fuel(&es[3], env, scope, fuel - 1)
            }
        },
        _ => Err(
            LinslErr::SyntaxError("Test form must evaluate to bool.".to_owned(), (0, 0)),
        ),
    }
}

/// Evaluation of `lambda`: produces a closure holding the parameter
/// specification and body verbatim.
fn evaluate_lambda(es: &Vec<LinslExpr>) -> (r: LinslRes)
    requires
        es@.len() >= 1,
    ensures
        match r {
            Ok(e) => view_expr(e) == spec_make_function(
                views_of_exprs(es@).skip(1),
                true,
            )->Ok_0 && spec_make_function(views_of_exprs(es@).skip(1), true) is Ok,
            Err(e) => spec_make_function(views_of_exprs(es@).skip(1), true) == Err::<
                SpecExpr,
                _,
            >(e@),
        },
{
    proof {
        assert(views_of_exprs(es@).skip(1).len() == es@.len() - 1);
    }
    match get_params_and_body(es) {
        Ok((p, b)) => Ok(LinslExpr::Closure(Box::new(p), Box::new(b))),
        Err(e) => Err(e),
    }
}

/// Evaluation of `macro`: like `lambda`, but the value defers argument
/// evaluation when applied.
fn evaluate_macro(es: &Vec<LinslExpr>) -> (r: LinslRes)
    requires
        es@.len() >= 1,
    ensures
        match r {
            Ok(e) => view_expr(e) == spec_make_function(
                views_of_exprs(es@).skip(1),
                false,
            )->Ok_0 && spec_make_function(views_of_exprs(es@).skip(1), false) is Ok,
            Err(e) => spec_make_function(views_of_exprs(es@).skip(1), false) == Err::<
                SpecExpr,
                _,
            >(e@),
        },
{
    proof {
        assert(views_of_exprs(es@).skip(1).len() == es@.len() - 1);
    }
    match get_params_and_body(es) {
        Ok((p, b)) => Ok(LinslExpr::Macro(Box::new(p), Box::new(b))),
        Err(e) => Err(e),
    }
}

/// Eager left-to-right evaluation of the forms of `es` from index
/// `from` on.
fn evaluate_forms(es: &Vec<LinslExpr>, from: usize, env: &mut LinslEnv, scope: usize, fuel: u64) -> (r:
    Result<Vec<LinslExpr>, LinslErr>)
    requires
        spec_env_wf(old(env)@),
        scope < old(env)@.len(),
        from <= es@.len(),
    ensures
        spec_env_wf(final(env)@),
        final(env)@.len() >= old(env)@.len(),
        forms_outcome_matches(
            r,
            spec_eval_forms(
                views_of_exprs(es@).skip(from as int),
                old(env)@,
                scope as int,
                fuel as nat,
            ),
            *final(env),
        ),
    decreases fuel,
{
    if fuel == 0 {
        return Err(LinslErr::InternalError("Evaluation nesting too deep.".to_owned()));
    }
    if from >= es.len() {
        let r: Vec<LinslExpr> = Vec::new();
        proof {
            assert(views_of_exprs(r@) =~= Seq::<SpecExpr>::empty());
        }
        return Ok(r);
    }
    proof {
        assert(views_of_exprs(es@).skip(from as int)[0] == view_expr(es@[from as int]));
        assert(views_of_exprs(es@).skip(from as int).skip(1) =~= views_of_exprs(es@).skip(
            from + 1,
        ));
    }
    let v0 = match evaluate_fuel(&es[from], env, scope, fuel - 1) {
        Ok(v) => v,
        Err(e) => {
            return Err(e);
        },
    };
    let mut rest = match evaluate_forms(es, from + 1, env, scope, fuel - 1) {
        Ok(v) => v,
        Err(e) => {
            return Err(e);
        },
    };
    let ghost rest0 = rest@;
    rest.insert(0, v0);
    proof {
        assert(views_of_exprs(rest@) =~= seq![view_expr(v0)] + views_of_exprs(rest0));
    }
    Ok(rest)
}

/// Parse one expression from the tokenizer and evaluate it against the
/// root scope of the environment.
pub fn parse_eval(tokenizer: &mut Tokenizer, env: &mut LinslEnv) -> (r: LinslRes)
    requires
        old(tokenizer).wf(),
        spec_env_wf(old(env)@),
    ensures
        final(tokenizer).wf(),
        spec_env_wf(final(env)@),
        ({
            let pout = spec_parse(
                old(tokenizer).stream(),
                old(tokenizer).latest_pos,
                PARSE_FUEL as nat,
            );
            match pout.0 {
                Err(_) => parse_outcome_matches(r, pout, *final(tokenizer)) && final(env)@ == old(
                    env,
                )@,
                Ok(se) => final(tokenizer).stream() == pout.1 && final(tokenizer).latest_pos
                    == pout.2 && eval_outcome_matches(
                    r,
                    spec_eval(se, old(env)@, 0, EVAL_FUEL as nat),
                    *final(env),
                ),
            }
        }),
{
    let parsed = match parse(tokenizer) {
        Ok(e) => e,
        Err(e) => {
            return Err(e);
        },
    };
    evaluate(&parsed, env, 0)
}

} // verus!

verus! {

/// `post` extends `pre`: every scope of `pre` is still there, with the
/// same parent, and with its table at most appended to.
pub open spec fn env_extends(post: SpecEnv, pre: SpecEnv) -> bool {
    &&& post.len() >= pre.len()
    &&& forall|i: int|
        0 <= i < pre.len() ==> {
            &&& (#[trigger] post[i]).parent == pre[i].parent
            &&& post[i].table.len() >= pre[i].table.len()
            &&& post[i].table.take(pre[i].table.len() as int) == pre[i].table
        }
}

proof fn lemma_extends_refl(env: SpecEnv)
    ensures
        env_extends(env, env),
{
    assert forall|i: int| 0 <= i < env.len() implies {
        &&& (#[trigger] env[i]).parent == env[i].parent
        &&& env[i].table.len() >= env[i].table.len()
        &&& env[i].table.take(env[i].table.len() as int) == env[i].table
    } by {
        assert(env[i].table.take(env[i].table.len() as int) =~= env[i].table);
    }
}

proof fn lemma_extends_trans(c: SpecEnv, b: SpecEnv, a: SpecEnv)
    requires
        env_extends(c, b),
        env_extends(b, a),
    ensures
        env_extends(c, a),
{
    assert forall|i: int| 0 <= i < a.len() implies {
        &&& (#[trigger] c[i]).parent == a[i].parent
        &&& c[i].table.len() >= a[i].table.len()
        &&& c[i].table.take(a[i].table.len() as int) == a[i].table
    } by {
        assert(c[i].parent == b[i].parent);
        assert(c[i].table.take(b[i].table.len() as int) == b[i].table);
        assert(c[i].table.take(a[i].table.len() as int) =~= c[i].table.take(
            b[i].table.len() as int,
        ).take(a[i].table.len() as int));
    }
}

proof fn lemma_extends_push(env: SpecEnv, sc: SpecScope)
    ensures
        env_extends(env.push(sc), env),
{
    assert forall|i: int| 0 <= i < env.len() implies {
        &&& (#[trigger] env.push(sc)[i]).parent == env[i].parent
        &&& env.push(sc)[i].table.len() >= env[i].table.len()
        &&& env.push(sc)[i].table.take(env[i].table.len() as int) == env[i].table
    } by {
        assert(env.push(sc)[i] == env[i]);
        assert(env[i].table.take(env[i].table.len() as int) =~= env[i].table);
    }
}

proof fn lemma_extends_define(env: SpecEnv, scope: int, pair: (Seq<char>, SpecExpr))
    requires
        0 <= scope < env.len(),
    ensures
        env_extends(
            env.update(
                scope,
                SpecScope { parent: env[scope].parent, table: env[scope].table.push(pair) },
            ),
            env,
        ),
{
    let post = env.update(
        scope,
        SpecScope { parent: env[scope].parent, table: env[scope].table.push(pair) },
    );
    assert forall|i: int| 0 <= i < env.len() implies {
        &&& (#[trigger] post[i]).parent == env[i].parent
        &&& post[i].table.len() >= env[i].table.len()
        &&& post[i].table.take(env[i].table.len() as int) == env[i].table
    } by {
        if i == scope {
            assert(post[i].table.take(env[i].table.len() as int) =~= env[i].table);
        } else {
            assert(post[i] == env[i]);
            assert(env[i].table.take(env[i].table.len() as int) =~= env[i].table);
        }
    }
}

/// Evaluation never rewrites what an existing scope holds: every scope
/// present before the call keeps its parent and its bindings, tables
/// are only appended to, and the arena only grows.  In particular, no
/// ancestor of the evaluating scope is ever mutated except by a
/// `define` appending in it.
pub proof fn lemma_eval_preserves_scopes(e: SpecExpr, env: SpecEnv, scope: int, fuel: nat)
    requires
        0 <= scope < env.len(),
    ensures
        env_extends(spec_eval(e, env, scope, fuel).1, env),
    decreases fuel,
{
    if fuel == 0 {
        lemma_extends_refl(env);
    } else {
        match e {
            SpecExpr::List(es) => {
                lemma_eval_list_preserves_scopes(es, env, scope, (fuel - 1) as nat);
            },
            _ => {
                lemma_extends_refl(env);
            },
        }
    }
}

proof fn lemma_eval_list_preserves_scopes(es: Seq<SpecExpr>, env: SpecEnv, scope: int, fuel: nat)
    requires
        0 <= scope < env.len(),
    ensures
        env_extends(spec_eval_list(es, env, scope, fuel).1, env),
    decreases fuel,
{
    if fuel == 0 || es.len() == 0 {
        lemma_extends_refl(env);
    } else {
        let head = es[0];
        let params = es.skip(1);
        if head == SpecExpr::Symbol("define"@) {
            lemma_eval_define_preserves_scopes(params, env, scope, (fuel - 1) as nat);
        } else if head == SpecExpr::Symbol("if"@) {
            lemma_eval_if_preserves_scopes(params, env, scope, (fuel - 1) as nat);
        } else if head == SpecExpr::Symbol("lambda"@) || head == SpecExpr::Symbol("macro"@)
            || head == SpecExpr::Symbol("quote"@) {
            lemma_extends_refl(env);
        } else {
            lemma_eval_preserves_scopes(head, env, scope, (fuel - 1) as nat);
            let (hr, env1) = spec_eval(head, env, scope, (fuel - 1) as nat);
            match hr {
                Err(_) => {},
                Ok(h) => match h {
                    SpecExpr::Closure(p, b) => {
                        lemma_eval_forms_preserves_scopes(params, env1, scope, (fuel - 1) as nat);
                        let (ar, env2) = spec_eval_forms(params, env1, scope, (fuel - 1) as nat);
                        lemma_extends_trans(env2, env1, env);
                        match ar {
                            Err(_) => {},
                            Ok(vs) => match spec_bind(*p, vs) {
                                Err(_) => {},
                                Ok(table) => {
                                    let idx = env2.len() as int;
                                    let env3 = env2.push(
                                        SpecScope { parent: scope as usize, table },
                                    );
                                    lemma_extends_push(env2, SpecScope { parent: scope as usize, table });
                                    lemma_eval_preserves_scopes(*b, env3, idx, (fuel - 1) as nat);
                                    let env4 = spec_eval(*b, env3, idx, (fuel - 1) as nat).1;
                                    lemma_extends_trans(env3, env2, env);
                                    lemma_extends_trans(env4, env3, env);
                                },
                            },
                        }
                    },
                    SpecExpr::Macro(p, b) => match spec_bind(*p, params) {
                        Err(_) => {},
                        Ok(table) => {
                            let idx = env1.len() as int;
                            let env2 = env1.push(SpecScope { parent: scope as usize, table });
                            lemma_extends_push(env1, SpecScope { parent: scope as usize, table });
                            lemma_extends_trans(env2, env1, env);
                            lemma_eval_preserves_scopes(*b, env2, idx, (fuel - 1) as nat);
                            let (er, env3) = spec_eval(*b, env2, idx, (fuel - 1) as nat);
                            lemma_extends_trans(env3, env2, env);
                            match er {
                                Err(_) => {},
                                Ok(expansion) => {
                                    lemma_eval_preserves_scopes(
                                        expansion,
                                        env3,
                                        scope,
                                        (fuel - 1) as nat,
                                    );
                                    let env4 = spec_eval(expansion, env3, scope, (fuel - 1) as nat).1;
                                    lemma_extends_trans(env4, env3, env);
                                },
                            }
                        },
                    },
                    SpecExpr::Primitive(_) => {
                        lemma_eval_forms_preserves_scopes(params, env1, scope, (fuel - 1) as nat);
                        let env2 = spec_eval_forms(params, env1, scope, (fuel - 1) as nat).1;
                        lemma_extends_trans(env2, env1, env);
                    },
                    _ => {},
                },
            }
        }
    }
}

proof fn lemma_eval_define_preserves_scopes(params: Seq<SpecExpr>, env: SpecEnv, scope: int, fuel: nat)
    requires
        0 <= scope < env.len(),
    ensures
        env_extends(spec_eval_define(params, env, scope, fuel).1, env),
    decreases fuel,
{
    if fuel == 0 || params.len() != 2 {
        lemma_extends_refl(env);
    } else {
        match params[0] {
            SpecExpr::Symbol(name) => {
                lemma_eval_preserves_scopes(params[1], env, scope, (fuel - 1) as nat);
                let (vr, env1) = spec_eval(params[1], env, scope, (fuel - 1) as nat);
                match vr {
                    Err(_) => {},
                    Ok(v) => {
                        lemma_extends_define(env1, scope, (name, v));
                        let env2 = env1.update(
                            scope,
                            SpecScope {
                                parent: env1[scope].parent,
                                table: env1[scope].table.push((name, v)),
                            },
                        );
                        lemma_extends_trans(env2, env1, env);
                    },
                }
            },
            _ => {
                lemma_extends_refl(env);
            },
        }
    }
}

proof fn lemma_eval_if_preserves_scopes(params: Seq<SpecExpr>, env: SpecEnv, scope: int, fuel: nat)
    requires
        0 <= scope < env.len(),
    ensures
        env_extends(spec_eval_if(params, env, scope, fuel).1, env),
    decreases fuel,
{
    if fuel == 0 || params.len() != 3 {
        lemma_extends_refl(env);
    } else {
        lemma_eval_preserves_scopes(params[0], env, scope, (fuel - 1) as nat);
        let (tr, env1) = spec_eval(params[0], env, scope, (fuel - 1) as nat);
        match tr {
            Err(_) => {},
            Ok(t) => match t {
                SpecExpr::Bool(b) => {
                    let branch = if b {
                        params[1]
                    } else {
                        params[2]
                    };
                    lemma_eval_preserves_scopes(branch, env1, scope, (fuel - 1) as nat);
                    let env2 = spec_eval(branch, env1, scope, (fuel - 1) as nat).1;
                    lemma_extends_trans(env2, env1, env);
                },
                _ => {},
            },
        }
    }
}

proof fn lemma_eval_forms_preserves_scopes(es: Seq<SpecExpr>, env: SpecEnv, scope: int, fuel: nat)
    requires
        0 <= scope < env.len(),
    ensures
        env_extends(spec_eval_forms(es, env, scope, fuel).1, env),
    decreases fuel,
{
    if fuel == 0 || es.len() == 0 {
        lemma_extends_refl(env);
    } else {
        lemma_eval_preserves_scopes(es[0], env, scope, (fuel - 1) as nat);
        let (r0, env1) = spec_eval(es[0], env, scope, (fuel - 1) as nat);
        match r0 {
            Err(_) => {},
            Ok(_) => {
                lemma_eval_forms_preserves_scopes(es.skip(1), env1, scope, (fuel - 1) as nat);
                let env2 = spec_eval_forms(es.skip(1), env1, scope, (fuel - 1) as nat).1;
                lemma_extends_trans(env2, env1, env);
            },
        }
    }
}

/// Binding never evaluates what it binds: when a parameter list matches
/// its forms one-to-one, the new scope's table holds exactly those
/// forms, verbatim.  A macro application hands this function its
/// argument forms unevaluated, so the macro sees literal syntax.
pub proof fn lemma_bind_is_syntactic(params: SpecExpr, forms: Seq<SpecExpr>)
    requires
        spec_symbols_of(params) is Ok,
        spec_symbols_of(params)->Ok_0.len() == forms.len(),
    ensures
        spec_bind(params, forms) == Ok::<_, SpecErr>(
            Seq::new(forms.len(), |i: int| (spec_symbols_of(params)->Ok_0[i], forms[i])),
        ),
{
}

/// With fewer names than values, every name but the last is bound
/// one-to-one and the last absorbs all remaining values as a list; this
/// needs at least one name.
pub proof fn lemma_bind_variadic(params: SpecExpr, vals: Seq<SpecExpr>)
    requires
        spec_symbols_of(params) is Ok,
        1 <= spec_symbols_of(params)->Ok_0.len() < vals.len(),
    ensures
        ({
            let names = spec_symbols_of(params)->Ok_0;
            let k = names.len() as int;
            spec_bind(params, vals) == Ok::<_, SpecErr>(
                Seq::new(k as nat, |i: int| (names[i], vals[i])).push(
                    (names[k - 1], SpecExpr::List(vals.skip(k - 1))),
                ),
            )
        }),
{
}

/// Applying a closure evaluates its body in a scope that is new to the
/// arena: the scope's index is the arena's length once the arguments
/// are evaluated, its parent is the call-site scope, and its table
/// holds exactly this call's bindings.  Two calls to the same closure
/// therefore never share a scope, and no binding leaks from one call
/// into the next.
pub proof fn lemma_closure_call_fresh_scope(es: Seq<SpecExpr>, env: SpecEnv, scope: int, fuel: nat)
    requires
        fuel >= 1,
        es.len() > 0,
        es[0] != SpecExpr::Symbol("define"@),
        es[0] != SpecExpr::Symbol("if"@),
        es[0] != SpecExpr::Symbol("lambda"@),
        es[0] != SpecExpr::Symbol("macro"@),
        es[0] != SpecExpr::Symbol("quote"@),
        spec_eval(es[0], env, scope, (fuel - 1) as nat).0 is Ok,
        spec_eval(es[0], env, scope, (fuel - 1) as nat).0->Ok_0 is Closure,
    ensures
        ({
            let (hr, env1) = spec_eval(es[0], env, scope, (fuel - 1) as nat);
            let h = hr->Ok_0;
            let (ar, env2) = spec_eval_forms(es.skip(1), env1, scope, (fuel - 1) as nat);
            ar is Ok && spec_bind(*h->Closure_0, ar->Ok_0) is Ok ==> {
                let table = spec_bind(*h->Closure_0, ar->Ok_0)->Ok_0;
                let fresh = env2.len() as int;
                spec_eval_list(es, env, scope, fuel) == spec_eval(
                    *h->Closure_1,
                    env2.push(SpecScope { parent: scope as usize, table }),
                    fresh,
                    (fuel - 1) as nat,
                )
            }
        }),
{
}

} // verus!
