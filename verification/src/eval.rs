use vstd::prelude::*;

use crate::ast::{
    exp_view, idents_view, infix_text, stmt_view, stmts_view, BlockStmt, ExpV, Expression, Ident,
    Infix, LitV, Literals, Prefix, Program, Statement, StmtV,
};
use crate::builtin::{builtin_spec, len, len_result, lookup_builtin};
use crate::env::{arena_view, arena_wf, lookup_v, spec_lookup, Env, EnvV};
use crate::object::{
    blk_wf, lemma_objs_view_index, lemma_val_wf_grow, make_float, obj_summary, obj_view,
    objs_view, rat_fits, rat_norm, res_wf, val_wf, BuiltinKind, Object, ObjV,
};
use crate::text::{dec_seq, int_seq, i64_to_string, u64_to_string};

verus! {

/// How deep evaluation may recurse before it reports an error instead
/// of exhausting the host stack.
pub const MAX_EVAL_DEPTH: u64 = 1024;

// ---------------------------------------------------------------------------
// Values held by the arena
// ---------------------------------------------------------------------------

/// Every value bound in any scope of the arena is well formed with
/// respect to the arena's size.
pub open spec fn vals_wf(envs: Seq<Env>) -> bool {
    forall|i: int, name: Seq<char>|
        0 <= i < envs.len() && #[trigger] envs[i].bindings().dom().contains(name) ==> val_wf(
            envs[i].bindings()[name],
            envs.len() as int,
        )
}

/// Growing the arena with a scope of well-formed values keeps every
/// stored value well formed.
proof fn lemma_vals_wf_push(envs: Seq<Env>, e: Env)
    requires
        vals_wf(envs),
        forall|name: Seq<char>| #[trigger]
            e.bindings().dom().contains(name) ==> val_wf(e.bindings()[name], envs.len() + 1int),
    ensures
        vals_wf(envs.push(e)),
{
    let post = envs.push(e);
    assert forall|i: int, name: Seq<char>|
        0 <= i < post.len() && #[trigger] post[i].bindings().dom().contains(name) implies val_wf(
        post[i].bindings()[name],
        post.len() as int,
    ) by {
        if i < envs.len() {
            assert(post[i] == envs[i]);
            assert(envs[i].bindings().dom().contains(name));
            lemma_val_wf_grow(envs[i].bindings()[name], envs.len() as int, post.len() as int);
        } else {
            assert(post[i] == e);
        }
    }
}

/// Rebinding a name in one scope to a well-formed value keeps every
/// stored value well formed.
proof fn lemma_vals_wf_update(envs: Seq<Env>, i: int, e2: Env, key: Seq<char>, v: ObjV)
    requires
        vals_wf(envs),
        0 <= i < envs.len(),
        e2.bindings() == envs[i].bindings().insert(key, v),
        val_wf(v, envs.len() as int),
    ensures
        vals_wf(envs.update(i, e2)),
{
    let post = envs.update(i, e2);
    assert forall|j: int, name: Seq<char>|
        0 <= j < post.len() && #[trigger] post[j].bindings().dom().contains(name) implies val_wf(
        post[j].bindings()[name],
        post.len() as int,
    ) by {
        if j == i {
            if name == key {
            } else {
                assert(envs[i].bindings().dom().contains(name));
            }
        } else {
            assert(post[j] == envs[j]);
            assert(envs[j].bindings().dom().contains(name));
        }
    }
}

/// A resolved name holds a well-formed value.
proof fn lemma_lookup_wf(envs: Seq<Env>, at: int, name: Seq<char>)
    requires
        arena_wf(envs),
        vals_wf(envs),
        0 <= at < envs.len(),
        spec_lookup(envs, at, name) is Some,
    ensures
        val_wf(spec_lookup(envs, at, name)->0, envs.len() as int),
    decreases at,
{
    if envs[at].bindings().contains_key(name) {
        assert(envs[at].bindings().dom().contains(name));
    } else {
        match envs[at].outer_of() {
            Option::Some(j) => {
                if (j as int) < at {
                    lemma_lookup_wf(envs, j as int, name);
                }
            },
            Option::None => {},
        }
    }
}

/// The bindings a parameter list paired with an argument list makes.
pub open spec fn params_map(ps: Seq<Seq<char>>, vs: Seq<ObjV>) -> Map<Seq<char>, ObjV>
    decreases ps,
{
    if ps.len() == 0 || vs.len() == 0 {
        Map::empty()
    } else {
        params_map(ps.drop_last(), vs.drop_last()).insert(ps.last(), vs.last())
    }
}

/// Binding parameters to well-formed arguments yields well-formed
/// bindings.
proof fn lemma_params_map_wf(ps: Seq<Seq<char>>, vs: Seq<ObjV>, n: int)
    requires
        forall|k: int| 0 <= k < vs.len() ==> val_wf(#[trigger] vs[k], n),
    ensures
        forall|name: Seq<char>| #[trigger]
            params_map(ps, vs).dom().contains(name) ==> val_wf(params_map(ps, vs)[name], n),
    decreases ps,
{
    if ps.len() > 0 && vs.len() > 0 {
        assert forall|k: int| 0 <= k < vs.drop_last().len() implies val_wf(
            #[trigger] vs.drop_last()[k],
            n,
        ) by {
            assert(vs.drop_last()[k] == vs[k]);
        }
        lemma_params_map_wf(ps.drop_last(), vs.drop_last(), n);
        assert(vs.last() == vs[vs.len() - 1]);
        assert forall|name: Seq<char>| #[trigger]
            params_map(ps, vs).dom().contains(name) implies val_wf(params_map(ps, vs)[name], n) by {
            if name == ps.last() {
            } else {
                assert(params_map(ps.drop_last(), vs.drop_last()).dom().contains(name));
            }
        }
    }
}

// ---------------------------------------------------------------------------
// Truthiness and indexing
// ---------------------------------------------------------------------------

/// The language's truthiness: only the absent value and `false` are
/// falsy; every other value, zero included, is truthy.
pub open spec fn spec_truthy(v: ObjV) -> bool {
    !(v is Unit || v == ObjV::Bool(false))
}

/// Select an element of an array by a machine integer, with an explicit
/// bounds check: any index outside the array is an error, never a
/// crash.
pub fn index_array(arr: &Vec<Object>, ind: i64) -> (r: Object)
    ensures
        0 <= ind < arr@.len() ==> r@ == objs_view(arr@)[ind as int],
        !(0 <= ind < arr@.len()) ==> r@ == ObjV::Error("Index Out Of Bounds"@),
{
    proof {
        crate::object::lemma_objs_view_index(arr@);
    }
    if 0 <= ind && (ind as u64) < (arr.len() as u64) {
        arr[ind as usize].clone()
    } else {
        Object::Error(String::from_str("Index Out Of Bounds"))
    }
}

// ---------------------------------------------------------------------------
// String ordering
// ---------------------------------------------------------------------------

/// Lexicographic order on text, by code point — the order Rust's own
/// string comparison induces.
pub open spec fn lex_lt(a: Seq<char>, b: Seq<char>) -> bool
    decreases a.len(),
{
    if b.len() == 0 {
        false
    } else if a.len() == 0 {
        true
    } else if a[0] != b[0] {
        (a[0] as u32) < (b[0] as u32)
    } else {
        lex_lt(a.skip(1), b.skip(1))
    }
}

/// Compare two strings lexicographically.
fn str_lt(a: &str, b: &str) -> (r: bool)
    ensures
        r == lex_lt(a@, b@),
{
    let alen = a.unicode_len();
    let blen = b.unicode_len();
    let mut k: usize = 0;
    proof {
        assert(a@.skip(0) =~= a@);
        assert(b@.skip(0) =~= b@);
    }
    loop
        invariant
            k <= alen,
            k <= blen,
            alen == a@.len(),
            blen == b@.len(),
            lex_lt(a@.skip(k as int), b@.skip(k as int)) == lex_lt(a@, b@),
        decreases alen - k,
    {
        if k >= blen {
            return false;
        }
        if k >= alen {
            return true;
        }
        let ca = a.get_char(k);
        let cb = b.get_char(k);
        proof {
            assert(a@.skip(k as int)[0] == a@[k as int]);
            assert(b@.skip(k as int)[0] == b@[k as int]);
        }
        if ca as u32 != cb as u32 {
            proof {
                assert(ca != cb) by {
                    assert(ca as u32 != cb as u32);
                }
            }
            return (ca as u32) < (cb as u32);
        }
        proof {
            assert(a@.skip(k as int).skip(1) =~= a@.skip(k as int + 1));
            assert(b@.skip(k as int).skip(1) =~= b@.skip(k as int + 1));
        }
        k = k + 1;
    }
}

// ---------------------------------------------------------------------------
// Diagnostic messages
// ---------------------------------------------------------------------------

/// An error value carrying the given message.
fn new_error(msg: String) -> (r: Object)
    ensures
        r@ == ObjV::Error(msg@),
{
    Object::Error(msg)
}

fn err_depth() -> (r: Object)
    ensures
        r@ == ObjV::Error("Recursion Too Deep"@),
{
    new_error(String::from_str("Recursion Too Deep"))
}

fn err_not_found(name: &String) -> (r: Object)
    ensures
        r@ == ObjV::Error(name@ + " not found in the current scope"@),
{
    let mut m = name.clone();
    m.append(" not found in the current scope");
    new_error(m)
}

/// The operator-misuse message, over the operands' short text forms.
fn bad_op_error(o: Infix, s1: String, s2: String) -> (r: Object)
    ensures
        r@ == ObjV::Error(
            infix_text(o) + " is not a valid Infix Operator for "@ + s1@ + " "@ + infix_text(o)
                + " "@ + s2@,
        ),
{
    let mut m = o.text().to_owned();
    m.append(" is not a valid Infix Operator for ");
    m.append(s1.as_str());
    m.append(" ");
    m.append(o.text());
    m.append(" ");
    m.append(s2.as_str());
    new_error(m)
}

// ---------------------------------------------------------------------------
// Arithmetic and comparison
// ---------------------------------------------------------------------------

/// What the comparison family yields on two machine integers; any
/// other operator handed to it is the operator-misuse error.
pub open spec fn cmp_op_result(o: Infix, a: int, b: int) -> ObjV {
    match o {
        Infix::LT => ObjV::Bool(a < b),
        Infix::GT => ObjV::Bool(a > b),
        Infix::EQ => ObjV::Bool(a == b),
        Infix::NotEQ => ObjV::Bool(a != b),
        _ => ObjV::Error(
            infix_text(o) + " is not a valid Infix Operator for "@ + int_seq(a) + " "@
                + infix_text(o) + " "@ + int_seq(b),
        ),
    }
}

/// What an infix operator yields on two machine integers: exact
/// arithmetic where the result fits and an error where it cannot,
/// division as an exact fraction, and comparisons as booleans.
/// Division by zero reports an error: exact fractions, unlike
/// floating-point numbers, have no infinity to produce.
pub open spec fn int_op_result(o: Infix, a: int, b: int) -> ObjV {
    match o {
        Infix::Plus => if i64::MIN <= a + b <= i64::MAX {
            ObjV::Int(a + b)
        } else {
            ObjV::Error("Integer Overflow"@)
        },
        Infix::Minus => if i64::MIN <= a - b <= i64::MAX {
            ObjV::Int(a - b)
        } else {
            ObjV::Error("Integer Overflow"@)
        },
        Infix::Star => if i64::MIN <= a * b <= i64::MAX {
            ObjV::Int(a * b)
        } else {
            ObjV::Error("Integer Overflow"@)
        },
        Infix::Slash => if b == 0 {
            ObjV::Error("Division By Zero"@)
        } else if rat_fits(a, b) {
            ObjV::Float(rat_norm(a, b).0, rat_norm(a, b).1)
        } else {
            ObjV::Error("Integer Overflow"@)
        },
        _ => cmp_op_result(o, a, b),
    }
}

/// What an infix operator yields on two strings: concatenation,
/// lexicographic comparisons, equality — and an error on arithmetic.
pub open spec fn str_op_result(o: Infix, a: Seq<char>, b: Seq<char>) -> ObjV {
    match o {
        Infix::Plus => ObjV::Str(a + b),
        Infix::LT => ObjV::Bool(lex_lt(a, b)),
        Infix::GT => ObjV::Bool(lex_lt(b, a)),
        Infix::EQ => ObjV::Bool(a == b),
        Infix::NotEQ => ObjV::Bool(a != b),
        _ => ObjV::Error(
            infix_text(o) + " is not a valid Infix Operator for "@ + a + " "@ + infix_text(o)
                + " "@ + b,
        ),
    }
}

fn err_overflow() -> (r: Object)
    ensures
        r@ == ObjV::Error("Integer Overflow"@),
{
    new_error(String::from_str("Integer Overflow"))
}

fn err_div_zero() -> (r: Object)
    ensures
        r@ == ObjV::Error("Division By Zero"@),
{
    new_error(String::from_str("Division By Zero"))
}

fn err_not_callable() -> (r: Object)
    ensures
        r@ == ObjV::Error("Not A Valid Function Object"@),
{
    new_error(String::from_str("Not A Valid Function Object"))
}

fn err_arity_need(want: usize, got: usize) -> (r: Object)
    ensures
        r@ == ObjV::Error(
            "Need "@ + dec_seq(want as int) + " Arguments got "@ + dec_seq(got as int),
        ),
{
    let mut m = String::from_str("Need ");
    let w = u64_to_string(want as u64);
    m.append(w.as_str());
    m.append(" Arguments got ");
    let g = u64_to_string(got as u64);
    m.append(g.as_str());
    new_error(m)
}

fn err_arity_builtin(got: usize, want: i64) -> (r: Object)
    ensures
        r@ == ObjV::Error(
            "Got "@ + dec_seq(got as int) + " Arguments but Want "@ + int_seq(want as int),
        ),
{
    let mut m = String::from_str("Got ");
    let g = u64_to_string(got as u64);
    m.append(g.as_str());
    m.append(" Arguments but Want ");
    let w = i64_to_string(want);
    m.append(w.as_str());
    new_error(m)
}

fn mismatch_error(o: Infix, s1: String, s2: String) -> (r: Object)
    ensures
        r@ == ObjV::Error(
            s1@ + " "@ + infix_text(o) + " "@ + s2@ + " is not a valid operation"@,
        ),
{
    let mut m = s1;
    m.append(" ");
    m.append(o.text());
    m.append(" ");
    m.append(s2.as_str());
    m.append(" is not a valid operation");
    new_error(m)
}

fn err_prefix(s: String) -> (r: Object)
    ensures
        r@ == ObjV::Error("- is not a valid Prefix Operator for "@ + s@),
{
    let mut m = String::from_str("- is not a valid Prefix Operator for ");
    m.append(s.as_str());
    new_error(m)
}

// ---------------------------------------------------------------------------
// The interpreter, as mathematics
// ---------------------------------------------------------------------------

/// The whole evaluator state, as mathematics: the mirrored scopes, the
/// handle of the scope evaluation runs in, and everything printed so
/// far.
#[verifier::ext_equal]
pub struct StV {
    pub envs: Seq<EnvV>,
    pub cur: int,
    pub out: Seq<ObjV>,
}

/// Whether a result is a control-flow signal.
pub open spec fn is_sig(v: ObjV) -> bool {
    v is Error || v is Return
}

/// What resolving a name yields, over mirrored scopes: the scope chain,
/// then the builtin registry, then the unknown-identifier error.
pub open spec fn ident_result_v(envs: Seq<EnvV>, at: int, name: Seq<char>) -> ObjV {
    match lookup_v(envs, at, name) {
        Option::Some(v) => v,
        Option::None => match builtin_spec(name) {
            Option::Some(b) => b,
            Option::None => ObjV::Error(name + " not found in the current scope"@),
        },
    }
}

/// The outcome of evaluating a list of expressions left to right: every
/// value in order, or the first signal and the state it arose in.
pub enum ListV {
    Vals(StV, Seq<ObjV>),
    Sig(StV, ObjV),
}

/// Prepend already-computed values to a list outcome.
pub open spec fn with_prefix(pre: Seq<ObjV>, o: ListV) -> ListV {
    match o {
        ListV::Vals(st, vs) => ListV::Vals(st, pre + vs),
        ListV::Sig(st, v) => ListV::Sig(st, v),
    }
}

/// Prepending nothing changes nothing.
proof fn lemma_with_prefix_empty(o: ListV)
    ensures
        with_prefix(Seq::empty(), o) == o,
{
    match o {
        ListV::Vals(st, vs) => {
            assert(Seq::<ObjV>::empty() + vs =~= vs);
        },
        ListV::Sig(_, _) => {},
    }
}

/// Prefixes compose one value at a time.
proof fn lemma_with_prefix_push(pre: Seq<ObjV>, v: ObjV, o: ListV)
    ensures
        with_prefix(pre, with_prefix(seq![v], o)) == with_prefix(pre.push(v), o),
{
    match o {
        ListV::Vals(st, vs) => {
            assert(pre + (seq![v] + vs) =~= pre.push(v) + vs);
        },
        ListV::Sig(_, _) => {},
    }
}

/// The depth-budget error.
pub open spec fn sv_depth_error() -> ObjV {
    ObjV::Error("Recursion Too Deep"@)
}

/// The interpreter on the leaf expressions: literals are their values,
/// a bare name resolves through the scope chain and the builtin
/// registry, a function literal captures the current scope, and the
/// absence node is the absent value — none of them touches the state.
pub proof fn lemma_sv_exp_leaves(st: StV, e: ExpV, fuel: u64)
    requires
        fuel > 0,
    ensures
        e matches ExpV::Literal(LitV::Int(i)) ==> sv_exp(st, e, fuel) == (st, ObjV::Int(i)),
        e matches ExpV::Literal(LitV::Bool(b)) ==> sv_exp(st, e, fuel) == (st, ObjV::Bool(b)),
        e matches ExpV::Literal(LitV::Str(sq)) ==> sv_exp(st, e, fuel) == (st, ObjV::Str(sq)),
        e matches ExpV::Ident(nm) ==> sv_exp(st, e, fuel) == (
            st,
            ident_result_v(st.envs, st.cur, nm),
        ),
        e matches ExpV::Function(ps, body) ==> sv_exp(st, e, fuel) == (
            st,
            ObjV::Function(ps, body, st.cur),
        ),
        e is Nothing ==> sv_exp(st, e, fuel) == (st, ObjV::Unit),
{
}

/// What evaluating one expression does to the state, and what it
/// yields.  This and its companions below are the evaluator: the
/// executable walker's contracts say it computes exactly these
/// functions.
pub open spec fn sv_exp(st: StV, e: ExpV, fuel: u64) -> (StV, ObjV)
    decreases fuel, 5int, 0int,
{
    if fuel == 0 {
        (st, sv_depth_error())
    } else {
        let fl = (fuel - 1) as u64;
        match e {
            ExpV::Function(ps, body) => (st, ObjV::Function(ps, body, st.cur)),
            ExpV::FunctionCall(args, f) => sv_call(st, args, *f, fuel),
            ExpV::If(c, b1, b2) => {
                let (st1, cv) = sv_exp(st, *c, fl);
                if is_sig(cv) {
                    (st1, cv)
                } else if spec_truthy(cv) {
                    let st2 = StV {
                        envs: st1.envs.push(
                            EnvV { map: Map::empty(), outer: Option::Some(st1.cur) },
                        ),
                        cur: st1.envs.len() as int,
                        out: st1.out,
                    };
                    let r = sv_block(st2, b1, fl);
                    (StV { envs: r.0.envs, cur: st1.cur, out: r.0.out }, r.1)
                } else {
                    match b2 {
                        Option::Some(b) => {
                            let st2 = StV {
                                envs: st1.envs.push(
                                    EnvV { map: Map::empty(), outer: Option::Some(st1.cur) },
                                ),
                                cur: st1.envs.len() as int,
                                out: st1.out,
                            };
                            let r = sv_block(st2, b, fl);
                            (StV { envs: r.0.envs, cur: st1.cur, out: r.0.out }, r.1)
                        },
                        Option::None => (st1, ObjV::Unit),
                    }
                }
            },
            ExpV::Ident(nm) => (st, ident_result_v(st.envs, st.cur, nm)),
            ExpV::Literal(l) => match l {
                LitV::Int(i) => (st, ObjV::Int(i)),
                LitV::Bool(b) => (st, ObjV::Bool(b)),
                LitV::Str(sq) => (st, ObjV::Str(sq)),
                LitV::Arr(es) => sv_arr_lit(st, es, fuel),
            },
            ExpV::Index(a, ix) => {
                let (st1, av) = sv_exp(st, *a, fl);
                if is_sig(av) {
                    (st1, av)
                } else {
                    match av {
                        ObjV::Arr(es) => {
                            let (st2, iv) = sv_exp(st1, *ix, fl);
                            if is_sig(iv) {
                                (st2, iv)
                            } else {
                                match iv {
                                    ObjV::Int(i) => (st2, if 0 <= i < es.len() {
                                        es[i]
                                    } else {
                                        ObjV::Error("Index Out Of Bounds"@)
                                    }),
                                    _ => (st2, ObjV::Error("Need String to Index an Array"@)),
                                }
                            }
                        },
                        _ => (st1, ObjV::Error("Indexed Object is not of type Array"@)),
                    }
                }
            },
            ExpV::Prefix(p, r) => sv_prefix(st, p, *r, fl),
            ExpV::Infix(op, l, r) => sv_infix(st, op, *l, *r, fl),
            ExpV::Nothing => (st, ObjV::Unit),
        }
    }
}

/// One call expression: the callee, then the arguments left to right,
/// then the application.
pub open spec fn sv_call(st: StV, args: Seq<ExpV>, f: ExpV, fuel: u64) -> (StV, ObjV)
    decreases fuel, 4int, 0int,
{
    if fuel == 0 {
        (st, sv_depth_error())
    } else {
        let fl = (fuel - 1) as u64;
        let (st1, fv) = sv_exp(st, f, fl);
        if is_sig(fv) {
            (st1, fv)
        } else {
            match sv_exps(st1, args, 0, fuel) {
                ListV::Sig(st2, v) => (st2, v),
                ListV::Vals(st2, vals) => sv_apply(st2, fv, vals, fl),
            }
        }
    }
}

/// One array literal: its elements left to right, collected.
pub open spec fn sv_arr_lit(st: StV, es: Seq<ExpV>, fuel: u64) -> (StV, ObjV)
    decreases fuel, 4int, 0int,
{
    if fuel == 0 {
        (st, sv_depth_error())
    } else {
        match sv_exps(st, es, 0, fuel) {
            ListV::Sig(st1, v) => (st1, v),
            ListV::Vals(st1, vals) => (st1, ObjV::Arr(vals)),
        }
    }
}

/// Expressions of a list, left to right, each on one less unit of the
/// depth budget; the first signal stops the list.
pub open spec fn sv_exps(st: StV, es: Seq<ExpV>, i: int, fuel: u64) -> ListV
    decreases fuel, 3int, es.len() - i,
{
    if i < 0 || i >= es.len() {
        ListV::Vals(st, Seq::empty())
    } else if fuel == 0 {
        ListV::Sig(st, sv_depth_error())
    } else {
        let r = sv_exp(st, es[i], (fuel - 1) as u64);
        if is_sig(r.1) {
            ListV::Sig(r.0, r.1)
        } else {
            with_prefix(seq![r.1], sv_exps(r.0, es, i + 1, fuel))
        }
    }
}

/// One prefix application.
pub open spec fn sv_prefix(st: StV, p: Prefix, r: ExpV, fuel: u64) -> (StV, ObjV)
    decreases fuel, 2int, 0int,
{
    if fuel == 0 {
        (st, sv_depth_error())
    } else {
        let o = sv_exp(st, r, (fuel - 1) as u64);
        if is_sig(o.1) {
            o
        } else {
            match (p, o.1) {
                (Prefix::Minus, ObjV::Int(i)) => (o.0, if i == i64::MIN as int {
                    ObjV::Error("Integer Overflow"@)
                } else {
                    ObjV::Int(-i)
                }),
                (_, other) => (
                    o.0,
                    ObjV::Error("- is not a valid Prefix Operator for "@ + obj_summary(other)),
                ),
            }
        }
    }
}

/// One infix application: both operands left to right, then dispatch on
/// their runtime types.
pub open spec fn sv_infix(st: StV, op: Infix, l: ExpV, r: ExpV, fuel: u64) -> (StV, ObjV)
    decreases fuel, 2int, 0int,
{
    if fuel == 0 {
        (st, sv_depth_error())
    } else {
        let fl = (fuel - 1) as u64;
        let lo = sv_exp(st, l, fl);
        if is_sig(lo.1) {
            lo
        } else {
            let ro = sv_exp(lo.0, r, fl);
            if is_sig(ro.1) {
                ro
            } else {
                match (lo.1, ro.1) {
                    (ObjV::Int(a), ObjV::Int(b)) => (ro.0, int_op_result(op, a, b)),
                    (ObjV::Str(a), ObjV::Str(b)) => (ro.0, str_op_result(op, a, b)),
                    (a, b) => (
                        ro.0,
                        ObjV::Error(
                            obj_summary(a) + " "@ + infix_text(op) + " "@ + obj_summary(b)
                                + " is not a valid operation"@,
                        ),
                    ),
                }
            }
        }
    }
}

/// One statement: a binding writes the scope evaluation runs in, a
/// return wraps its value, an expression statement hands its value
/// through, and signals from the evaluated expression propagate.
pub open spec fn sv_stmt(st: StV, s: StmtV, fuel: u64) -> (StV, ObjV)
    decreases fuel, 6int, 0int,
{
    if fuel == 0 {
        (st, sv_depth_error())
    } else {
        let fl = (fuel - 1) as u64;
        match s {
            StmtV::ExpressionStmt(e) => sv_exp(st, e, fl),
            StmtV::Var(nm, e) => {
                let r = sv_exp(st, e, fl);
                if is_sig(r.1) {
                    r
                } else {
                    let st1 = r.0;
                    let prev = st1.envs[st1.cur];
                    (
                        StV {
                            envs: st1.envs.update(
                                st1.cur,
                                EnvV { map: prev.map.insert(nm, r.1), outer: prev.outer },
                            ),
                            cur: st1.cur,
                            out: st1.out,
                        },
                        ObjV::Unit,
                    )
                }
            },
            StmtV::Return(e) => {
                let r = sv_exp(st, e, fl);
                if is_sig(r.1) {
                    r
                } else {
                    (r.0, ObjV::Return(Box::new(r.1)))
                }
            },
            StmtV::Nothing => (st, ObjV::Unit),
        }
    }
}

/// Statements of a block from `i` on; the first signal stops the block.
pub open spec fn sv_stmts(st: StV, b: Seq<StmtV>, i: int, fuel: u64) -> (StV, ObjV)
    decreases fuel, 7int, b.len() - i,
{
    if i < 0 || i >= b.len() {
        (st, ObjV::Unit)
    } else if fuel == 0 {
        (st, sv_depth_error())
    } else {
        let r = sv_stmt(st, b[i], (fuel - 1) as u64);
        if is_sig(r.1) {
            r
        } else {
            sv_stmts(r.0, b, i + 1, fuel)
        }
    }
}

/// One block: its statements in order.
pub open spec fn sv_block(st: StV, b: Seq<StmtV>, fuel: u64) -> (StV, ObjV)
    decreases fuel, 8int, 0int,
{
    if fuel == 0 {
        (st, sv_depth_error())
    } else {
        sv_stmts(st, b, 0, fuel)
    }
}

/// One call: arity first, then the body in a fresh scope under the
/// captured scope, parameters bound positionally, the caller's scope
/// handle restored, and a return signal unwrapped; builtins check their
/// arity and act as the registry says.
pub open spec fn sv_apply(st: StV, f: ObjV, args: Seq<ObjV>, fuel: u64) -> (StV, ObjV)
    decreases fuel, 1int, 0int,
{
    match f {
        ObjV::Function(ps, body, fe) => {
            if ps.len() != args.len() {
                (
                    st,
                    ObjV::Error(
                        "Need "@ + dec_seq(ps.len() as int) + " Arguments got "@ + dec_seq(
                            args.len() as int,
                        ),
                    ),
                )
            } else if fuel == 0 {
                (st, sv_depth_error())
            } else {
                let st1 = StV {
                    envs: st.envs.push(
                        EnvV { map: params_map(ps, args), outer: Option::Some(fe) },
                    ),
                    cur: st.envs.len() as int,
                    out: st.out,
                };
                let r = sv_block(st1, body, (fuel - 1) as u64);
                (
                    StV { envs: r.0.envs, cur: st.cur, out: r.0.out },
                    match r.1 {
                        ObjV::Return(b) => *b,
                        other => other,
                    },
                )
            }
        },
        ObjV::Builtin(num, kind) => {
            if args.len() != 1 {
                (
                    st,
                    ObjV::Error(
                        "Got "@ + dec_seq(args.len() as int) + " Arguments but Want "@ + int_seq(
                            num,
                        ),
                    ),
                )
            } else {
                match kind {
                    BuiltinKind::Len => (st, len_result(args[0])),
                    BuiltinKind::Print => (
                        StV { envs: st.envs, cur: st.cur, out: st.out.push(args[0]) },
                        ObjV::Unit,
                    ),
                }
            }
        },
        _ => (st, ObjV::Error("Not A Valid Function Object"@)),
    }
}

/// The whole program: statements in order, each from a fresh depth
/// budget; the first error halts evaluation, a return signal at the top
/// level does not.
pub open spec fn sv_program(st: StV, b: Seq<StmtV>, i: int) -> (StV, ObjV)
    decreases b.len() - i,
{
    if i < 0 || i >= b.len() {
        (st, ObjV::Unit)
    } else {
        let r = sv_stmt(st, b[i], MAX_EVAL_DEPTH);
        if r.1 is Error {
            r
        } else {
            sv_program(r.0, b, i + 1)
        }
    }
}

// ---------------------------------------------------------------------------
// The evaluator
// ---------------------------------------------------------------------------

/// The tree walker.  It owns the arena of scopes, the handle of the
/// scope evaluation currently runs in, and the values `print` has
/// produced so far, in order; the caller drains those and writes them
/// out.
pub struct Eval {
    envs: Vec<Env>,
    env: usize,
    output: Vec<Object>,
}

/// No scope that existed before, other than the one `except` points at,
/// has its bindings or its enclosing-scope handle changed.  Expressions
/// preserve every existing scope (`except` out of range); a statement or
/// a block writes at most the scope it runs in.
pub open spec fn preserves_scopes_except(pre: Seq<Env>, post: Seq<Env>, except: int) -> bool {
    forall|i: int|
        0 <= i < pre.len() && i != except ==> (#[trigger] post[i]).bindings() == pre[i].bindings()
            && post[i].outer_of() == pre[i].outer_of()
}

/// One evaluation step only ever adds scopes and output, and hands the
/// current-scope handle back as it found it.
pub open spec fn evolves(pre: Eval, post: Eval) -> bool {
    &&& post.cur_env() == pre.cur_env()
    &&& post.arena().len() >= pre.arena().len()
    &&& forall|i: int|
        0 <= i < pre.arena().len() ==> (#[trigger] post.arena()[i]).outer_of()
            == pre.arena()[i].outer_of()
    &&& post.out().len() >= pre.out().len()
    &&& forall|k: int| 0 <= k < pre.out().len() ==> #[trigger] post.out()[k] == pre.out()[k]
}

impl Eval {
    /// The arena: every scope created so far.
    pub closed spec fn arena(&self) -> Seq<Env> {
        self.envs@
    }

    /// The handle of the scope evaluation runs in.
    pub closed spec fn cur_env(&self) -> int {
        self.env as int
    }

    /// Everything `print` has produced, in order.
    pub closed spec fn out(&self) -> Seq<ObjV> {
        objs_view(self.output@)
    }

    pub closed spec fn wf(&self) -> bool {
        &&& arena_wf(self.envs@)
        &&& vals_wf(self.envs@)
        &&& (self.env as int) < self.envs@.len()
    }

    /// The evaluator's whole state, as mathematics.
    pub open spec fn stv(&self) -> StV {
        StV { envs: arena_view(self.arena()), cur: self.cur_env(), out: self.out() }
    }

    /// A fresh evaluator whose root scope is the given one.
    pub fn new(env: Env) -> (r: Eval)
        requires
            env.outer_of() is None,
            env.bindings() == Map::<Seq<char>, ObjV>::empty(),
        ensures
            r.wf(),
            r.cur_env() == 0,
            r.arena().len() == 1,
            r.out() == Seq::<ObjV>::empty(),
            r.stv() == (StV {
                envs: seq![EnvV { map: Map::empty(), outer: Option::None }],
                cur: 0,
                out: Seq::empty(),
            }),
    {
        let mut envs: Vec<Env> = Vec::new();
        envs.push(env);
        let r = Eval { envs, env: 0, output: Vec::new() };
        proof {
            assert(r.out() =~= Seq::<ObjV>::empty());
            assert(r.stv() =~= (StV {
                envs: seq![EnvV { map: Map::empty(), outer: Option::None }],
                cur: 0,
                out: Seq::empty(),
            }));
        }
        r
    }

    /// The language's truthiness, on a computed value.
    fn is_true(&self, cond: &Object) -> (b: bool)
        ensures
            b == spec_truthy(cond@),
    {
        match cond {
            Object::Unit => false,
            Object::Bool(b2) => *b2,
            _ => true,
        }
    }

    /// A copy of everything `print` has produced so far, in order.
    pub fn printed(&self) -> (r: Vec<Object>)
        ensures
            objs_view(r@) == self.out(),
    {
        crate::object::clone_objs(&self.output)
    }

    /// Open a fresh scope under the current one and step into it; hands
    /// back the handle of the scope that was current before.
    fn push_scope(&mut self) -> (saved: usize)
        requires
            old(self).wf(),
        ensures
            final(self).wf(),
            saved as int == old(self).cur_env(),
            final(self).arena().len() == old(self).arena().len() + 1,
            final(self).cur_env() == old(self).arena().len() as int,
            final(self).out() == old(self).out(),
            preserves_scopes_except(old(self).arena(), final(self).arena(), -1),
            final(self).arena().last().outer_of() == Option::Some(saved),
            final(self).arena().last().bindings() == Map::<Seq<char>, ObjV>::empty(),
            final(self).stv() == (StV {
                envs: old(self).stv().envs.push(
                    EnvV { map: Map::empty(), outer: Option::Some(old(self).cur_env()) },
                ),
                cur: old(self).arena().len() as int,
                out: old(self).stv().out,
            }),
    {
        let saved = self.env;
        let e = Env::new_with_outer(saved);
        let idx = self.envs.len();
        self.envs.push(e);
        self.env = idx;
        proof {
            lemma_vals_wf_push(old(self).envs@, e);
            crate::env::lemma_arena_view_push(old(self).envs@, e);
            assert(e@ =~= EnvV { map: Map::empty(), outer: Option::Some(old(self).cur_env()) });
            assert(self.stv() =~= (StV {
                envs: old(self).stv().envs.push(
                    EnvV { map: Map::empty(), outer: Option::Some(old(self).cur_env()) },
                ),
                cur: old(self).arena().len() as int,
                out: old(self).stv().out,
            }));
        }
        saved
    }

    /// Run the program's statements in order; the first error halts
    /// evaluation and is handed back, otherwise the result is the
    /// absent value.
    #[verifier::spinoff_prover]
    #[verifier::rlimit(100)]
    pub fn eval_program(&mut self, program: Program) -> (r: Object)
        requires
            old(self).wf(),
        ensures
            final(self).wf(),
            evolves(*old(self), *final(self)),
            preserves_scopes_except(old(self).arena(), final(self).arena(), old(self).cur_env()),
            r@ is Unit || r@ is Error,
            final(self).stv() == sv_program(old(self).stv(), stmts_view(program@), 0).0,
            r@ == sv_program(old(self).stv(), stmts_view(program@), 0).1,
    {
        let ghost pv = stmts_view(program@);
        let n = program.len();
        let mut i: usize = 0;
        while i < n
            invariant
                self.wf(),
                evolves(*old(self), *self),
                preserves_scopes_except(old(self).arena(), self.arena(), old(self).cur_env()),
                i <= n,
                n == program@.len(),
                pv == stmts_view(program@),
                sv_program(self.stv(), pv, i as int) == sv_program(old(self).stv(), pv, 0),
            decreases n - i,
        {
            let ghost stk = self.stv();
            let evaled = self.eval_stmt(&program[i], MAX_EVAL_DEPTH);
            proof {
                crate::ast::lemma_stmts_view_index(program@);
                assert(pv[i as int] == stmt_view(program@[i as int]));
                assert(sv_program(stk, pv, i as int) == (if sv_stmt(
                    stk,
                    pv[i as int],
                    MAX_EVAL_DEPTH,
                ).1 is Error {
                    sv_stmt(stk, pv[i as int], MAX_EVAL_DEPTH)
                } else {
                    sv_program(sv_stmt(stk, pv[i as int], MAX_EVAL_DEPTH).0, pv, i + 1)
                }));
            }
            if matches!(evaled, Object::Error(_)) {
                proof {
                    assert(sv_program(old(self).stv(), pv, 0) == (self.stv(), evaled@));
                }
                return evaled;
            }
            i = i + 1;
        }
        proof {
            crate::ast::lemma_stmts_view_index(program@);
            assert(sv_program(self.stv(), pv, n as int) == (self.stv(), ObjV::Unit));
            assert(sv_program(old(self).stv(), pv, 0) == (self.stv(), ObjV::Unit));
        }
        Object::Unit
    }

    /// Run the statements of a block in order; a return signal or an
    /// error stops the block at once and is propagated exactly as it
    /// is.
    #[verifier::spinoff_prover]
    #[verifier::rlimit(100)]
    pub fn eval_block(&mut self, block: &BlockStmt, fuel: u64) -> (r: Object)
        requires
            old(self).wf(),
        ensures
            final(self).wf(),
            evolves(*old(self), *final(self)),
            preserves_scopes_except(old(self).arena(), final(self).arena(), old(self).cur_env()),
            blk_wf(r@, final(self).arena().len() as int),
            r@ is Unit || r@ is Error || r@ is Return,
            final(self).stv() == sv_block(old(self).stv(), stmts_view(block@), fuel).0,
            r@ == sv_block(old(self).stv(), stmts_view(block@), fuel).1,
        decreases fuel, 0int,
    {
        if fuel == 0 {
            return err_depth();
        }
        let ghost bv = stmts_view(block@);
        let n = block.len();
        let mut i: usize = 0;
        while i < n
            invariant
                self.wf(),
                evolves(*old(self), *self),
                preserves_scopes_except(old(self).arena(), self.arena(), old(self).cur_env()),
                i <= n,
                n == block@.len(),
                fuel >= 1,
                bv == stmts_view(block@),
                sv_stmts(self.stv(), bv, i as int, fuel) == sv_stmts(old(self).stv(), bv, 0, fuel),
            decreases n - i,
        {
            let ghost stk = self.stv();
            let evaled = self.eval_stmt(&block[i], (fuel - 1) as u64);
            proof {
                crate::ast::lemma_stmts_view_index(block@);
                assert(bv[i as int] == stmt_view(block@[i as int]));
                assert(sv_stmts(stk, bv, i as int, fuel) == (if is_sig(sv_stmt(
                    stk,
                    bv[i as int],
                    (fuel - 1) as u64,
                ).1) {
                    sv_stmt(stk, bv[i as int], (fuel - 1) as u64)
                } else {
                    sv_stmts(sv_stmt(stk, bv[i as int], (fuel - 1) as u64).0, bv, i + 1, fuel)
                }));
            }
            if matches!(evaled, Object::Return(_)) || matches!(evaled, Object::Error(_)) {
                proof {
                    assert(sv_stmts(old(self).stv(), bv, 0, fuel) == (self.stv(), evaled@));
                    assert(sv_block(old(self).stv(), bv, fuel) == (self.stv(), evaled@));
                }
                return evaled;
            }
            i = i + 1;
        }
        proof {
            crate::ast::lemma_stmts_view_index(block@);
            assert(sv_stmts(self.stv(), bv, n as int, fuel) == (self.stv(), ObjV::Unit));
            assert(sv_block(old(self).stv(), bv, fuel) == (self.stv(), ObjV::Unit));
        }
        Object::Unit
    }

    /// Evaluate one statement: a binding writes the current scope and
    /// yields the absent value; a return wraps its value as a signal;
    /// signals coming out of the evaluated expression propagate as they
    /// are.
    pub fn eval_stmt(&mut self, stmt: &Statement, fuel: u64) -> (r: Object)
        requires
            old(self).wf(),
        ensures
            final(self).wf(),
            evolves(*old(self), *final(self)),
            preserves_scopes_except(old(self).arena(), final(self).arena(), old(self).cur_env()),
            blk_wf(r@, final(self).arena().len() as int),
            !(stmt_view(*stmt) is Var) || r@ is Error || r@ is Return
                ==> preserves_scopes_except(old(self).arena(), final(self).arena(), -1),
            final(self).stv() == sv_stmt(old(self).stv(), stmt_view(*stmt), fuel).0,
            r@ == sv_stmt(old(self).stv(), stmt_view(*stmt), fuel).1,
        decreases fuel, 0int,
    {
        if fuel == 0 {
            return err_depth();
        }
        match stmt {
            Statement::ExpressionStmt(exp) => self.eval_exp(exp, (fuel - 1) as u64),
            Statement::Var(ident, exp) => {
                let val = self.eval_exp(exp, (fuel - 1) as u64);
                if matches!(val, Object::Error(_)) || matches!(val, Object::Return(_)) {
                    return val;
                }
                let idx = self.env;
                let ghost pre_envs = self.envs@;
                let ghost vv = val@;
                let key = ident.literal.clone();
                let ghost keyv = key@;
                let ghost midv = StV { envs: arena_view(pre_envs), cur: idx as int, out: objs_view(self.output@) };
                self.envs[idx].add_ident(val, key);
                proof {
                    assert(self.envs@ =~= pre_envs.update(idx as int, self.envs@[idx as int]));
                    crate::env::lemma_arena_view_update(pre_envs, idx as int, self.envs@[idx as int]);
                    assert(self.envs@[idx as int]@ =~= (EnvV {
                        map: midv.envs[idx as int].map.insert(keyv, vv),
                        outer: midv.envs[idx as int].outer,
                    }));
                    assert(self.stv() =~= (StV {
                        envs: midv.envs.update(
                            idx as int,
                            EnvV {
                                map: midv.envs[idx as int].map.insert(keyv, vv),
                                outer: midv.envs[idx as int].outer,
                            },
                        ),
                        cur: idx as int,
                        out: midv.out,
                    }));
                    assert forall|i2: int| 0 <= i2 < self.envs@.len() implies match (
                    #[trigger] self.envs@[i2]).outer_of() {
                        Option::Some(j) => (j as int) < i2,
                        Option::None => true,
                    } by {
                        if i2 != idx as int {
                            assert(self.envs@[i2] == pre_envs[i2]);
                        }
                    }
                    lemma_vals_wf_update(
                        pre_envs,
                        idx as int,
                        self.envs@[idx as int],
                        keyv,
                        vv,
                    );
                }
                Object::Unit
            },
            Statement::Return(exp) => {
                let val = self.eval_exp(exp, (fuel - 1) as u64);
                if matches!(val, Object::Error(_)) || matches!(val, Object::Return(_)) {
                    return val;
                }
                Object::Return(Box::new(val))
            },
            Statement::Nothing => Object::Unit,
        }
    }

    /// Evaluate one expression.  The result is a proper value, an
    /// error, or a return signal that escaped a conditional's block.
    /// Literals evaluate to their value and a bare name to what the
    /// scope chain and the builtin registry give it.
    #[verifier::spinoff_prover]
    #[verifier::rlimit(100)]
    pub fn eval_exp(&mut self, e: &Expression, fuel: u64) -> (r: Object)
        requires
            old(self).wf(),
        ensures
            final(self).wf(),
            evolves(*old(self), *final(self)),
            preserves_scopes_except(old(self).arena(), final(self).arena(), -1),
            blk_wf(r@, final(self).arena().len() as int),
            final(self).stv() == sv_exp(old(self).stv(), exp_view(*e), fuel).0,
            r@ == sv_exp(old(self).stv(), exp_view(*e), fuel).1,
        decreases fuel, 1int,
    {
        proof {
            reveal_with_fuel(exp_view, 2);
        }
        if fuel == 0 {
            let d = err_depth();
            proof {
                assert(sv_exp(old(self).stv(), exp_view(*e), fuel) == (self.stv(), d@));
            }
            return d;
        }
        match e {
            Expression::Function(ps, block) => {
                let f = Object::Function(
                    crate::ast::clone_idents(ps),
                    crate::ast::clone_stmts(block),
                    self.env,
                );
                proof {
                    assert(sv_exp(old(self).stv(), exp_view(*e), fuel) == (self.stv(), f@));
                }
                f
            },
            Expression::FunctionCall(args, exp) => {
                let rr = self.eval_call(args, &**exp, fuel);
                proof {
                    assert(sv_exp(old(self).stv(), exp_view(*e), fuel) == (self.stv(), rr@));
                }
                rr
            },
            Expression::If(cond, if_block, else_block) => {
                let ghost st00 = old(self).stv();
                let ghost gc = exp_view(**cond);
                let ghost b1v = stmts_view(if_block@);
                let ghost b2v: Option<Seq<StmtV>> = match else_block {
                    Option::Some(b) => Option::Some(stmts_view(b@)),
                    Option::None => Option::None,
                };
                proof {
                    assert(exp_view(*e) == ExpV::If(Box::new(gc), b1v, b2v));
                }
                let c = self.eval_exp(&**cond, (fuel - 1) as u64);
                if matches!(c, Object::Error(_)) || matches!(c, Object::Return(_)) {
                    proof {
                        assert(sv_exp(st00, exp_view(*e), fuel) == (self.stv(), c@));
                    }
                    return c;
                }
                let ghost st1v = self.stv();
                if self.is_true(&c) {
                    let saved = self.push_scope();
                    let ghost st2v = self.stv();
                    let r = self.eval_block(if_block, (fuel - 1) as u64);
                    self.env = saved;
                    proof {
                        assert(st2v == (StV {
                            envs: st1v.envs.push(
                                EnvV { map: Map::empty(), outer: Option::Some(st1v.cur) },
                            ),
                            cur: st1v.envs.len() as int,
                            out: st1v.out,
                        }));
                        assert(self.stv() =~= (StV {
                            envs: sv_block(st2v, b1v, (fuel - 1) as u64).0.envs,
                            cur: st1v.cur,
                            out: sv_block(st2v, b1v, (fuel - 1) as u64).0.out,
                        }));
                        assert(sv_exp(st00, exp_view(*e), fuel) == (self.stv(), r@));
                    }
                    r
                } else {
                    match else_block {
                        Option::Some(eb) => {
                            let saved = self.push_scope();
                            let ghost st2v = self.stv();
                            let r = self.eval_block(eb, (fuel - 1) as u64);
                            self.env = saved;
                            proof {
                                assert(st2v == (StV {
                                    envs: st1v.envs.push(
                                        EnvV { map: Map::empty(), outer: Option::Some(st1v.cur) },
                                    ),
                                    cur: st1v.envs.len() as int,
                                    out: st1v.out,
                                }));
                                assert(self.stv() =~= (StV {
                                    envs: sv_block(st2v, b2v->0, (fuel - 1) as u64).0.envs,
                                    cur: st1v.cur,
                                    out: sv_block(st2v, b2v->0, (fuel - 1) as u64).0.out,
                                }));
                                assert(sv_exp(st00, exp_view(*e), fuel) == (self.stv(), r@));
                            }
                            r
                        },
                        Option::None => Object::Unit,
                    }
                }
            },
            Expression::Ident(ident) => {
                let found = Env::read_ident(&self.envs, self.env, ident.literal.as_str());
                proof {
                    crate::env::lemma_lookup_view(self.envs@, self.env as int, ident.literal@);
                }
                match found {
                    Option::Some(val) => {
                        proof {
                            lemma_lookup_wf(self.envs@, self.env as int, ident.literal@);
                            assert(sv_exp(old(self).stv(), exp_view(*e), fuel) == (
                                self.stv(),
                                val@,
                            ));
                        }
                        val
                    },
                    Option::None => {
                        match lookup_builtin(&ident.literal) {
                            Option::Some(b) => {
                                proof {
                                    assert(sv_exp(old(self).stv(), exp_view(*e), fuel) == (
                                        self.stv(),
                                        b@,
                                    ));
                                }
                                b
                            },
                            Option::None => {
                                let bad = err_not_found(&ident.literal);
                                proof {
                                    assert(sv_exp(old(self).stv(), exp_view(*e), fuel) == (
                                        self.stv(),
                                        bad@,
                                    ));
                                }
                                bad
                            },
                        }
                    },
                }
            },
            Expression::Literal(l) => {
                match l {
                    Literals::Int(i) => {
                        let v = Object::Int(*i);
                        proof {
                            assert(sv_exp(old(self).stv(), exp_view(*e), fuel) == (
                                self.stv(),
                                v@,
                            ));
                        }
                        v
                    },
                    Literals::Bool(b) => {
                        let v = Object::Bool(*b);
                        proof {
                            assert(sv_exp(old(self).stv(), exp_view(*e), fuel) == (
                                self.stv(),
                                v@,
                            ));
                        }
                        v
                    },
                    Literals::String(s) => {
                        let v = Object::String(s.clone());
                        proof {
                            assert(sv_exp(old(self).stv(), exp_view(*e), fuel) == (
                                self.stv(),
                                v@,
                            ));
                        }
                        v
                    },
                    Literals::Arr(arr) => {
                        let rr = self.eval_arr_lit(arr, fuel);
                        proof {
                            assert(sv_exp(old(self).stv(), exp_view(*e), fuel) == (
                                self.stv(),
                                rr@,
                            ));
                        }
                        rr
                    },
                }
            },
            Expression::Index(left, ind) => {
                let ghost st00 = old(self).stv();
                let ghost gl = exp_view(**left);
                let ghost gi = exp_view(**ind);
                proof {
                    assert(exp_view(*e) == ExpV::Index(Box::new(gl), Box::new(gi)));
                }
                let l = self.eval_exp(&**left, (fuel - 1) as u64);
                if matches!(l, Object::Error(_)) || matches!(l, Object::Return(_)) {
                    proof {
                        assert(sv_exp(st00, exp_view(*e), fuel) == (self.stv(), l@));
                    }
                    return l;
                }
                let arr = match l {
                    Object::Arr(arr) => arr,
                    _ => {
                        let bad = new_error(
                            String::from_str("Indexed Object is not of type Array"),
                        );
                        proof {
                            assert(sv_exp(st00, exp_view(*e), fuel) == (self.stv(), bad@));
                        }
                        return bad;
                    },
                };
                let ghost mid_len = self.arena().len();
                let ix = self.eval_exp(&**ind, (fuel - 1) as u64);
                if matches!(ix, Object::Error(_)) || matches!(ix, Object::Return(_)) {
                    proof {
                        assert(sv_exp(st00, exp_view(*e), fuel) == (self.stv(), ix@));
                    }
                    return ix;
                }
                match ix {
                    Object::Int(i) => {
                        let r = index_array(&arr, i);
                        proof {
                            lemma_val_wf_grow(
                                ObjV::Arr(objs_view(arr@)),
                                mid_len as int,
                                self.arena().len() as int,
                            );
                            lemma_objs_view_index(arr@);
                            assert(sv_exp(st00, exp_view(*e), fuel) == (self.stv(), r@));
                        }
                        r
                    },
                    _ => {
                        let bad = new_error(String::from_str("Need String to Index an Array"));
                        proof {
                            assert(sv_exp(st00, exp_view(*e), fuel) == (self.stv(), bad@));
                        }
                        bad
                    },
                }
            },
            Expression::Prefix(p, right) => {
                let rr = self.eval_prefix(*p, &**right, (fuel - 1) as u64);
                proof {
                    assert(sv_exp(old(self).stv(), exp_view(*e), fuel) == (self.stv(), rr@));
                }
                rr
            },
            Expression::Infix(o, left, right) => {
                let rr = self.eval_infix(*o, &**left, &**right, (fuel - 1) as u64);
                proof {
                    assert(sv_exp(old(self).stv(), exp_view(*e), fuel) == (self.stv(), rr@));
                }
                rr
            },
            Expression::Nothing => {
                proof {
                    assert(sv_exp(old(self).stv(), exp_view(*e), fuel) == (
                        self.stv(),
                        ObjV::Unit,
                    ));
                }
                Object::Unit
            },
        }
    }

    /// Evaluate a call expression: the callee, then the arguments left
    /// to right — a signal from any of them propagates — then the
    /// application.
    #[verifier::spinoff_prover]
    #[verifier::rlimit(100)]
    fn eval_call(&mut self, args: &Vec<Expression>, callee: &Expression, fuel: u64) -> (r: Object)
        requires
            old(self).wf(),
            fuel >= 1,
        ensures
            final(self).wf(),
            evolves(*old(self), *final(self)),
            preserves_scopes_except(old(self).arena(), final(self).arena(), -1),
            blk_wf(r@, final(self).arena().len() as int),
            final(self).stv() == sv_call(
                old(self).stv(),
                crate::ast::exps_view(args@),
                exp_view(*callee),
                fuel,
            ).0,
            r@ == sv_call(
                old(self).stv(),
                crate::ast::exps_view(args@),
                exp_view(*callee),
                fuel,
            ).1,
        decreases fuel, 0int,
    {
        let ghost st00 = old(self).stv();
        let ghost gf = exp_view(*callee);
        let ghost vs = crate::ast::exps_view(args@);
        let function = self.eval_exp(callee, (fuel - 1) as u64);
        if matches!(function, Object::Error(_)) || matches!(function, Object::Return(_)) {
            proof {
                assert(sv_call(st00, vs, gf, fuel) == (self.stv(), function@));
            }
            return function;
        }
        let ghost stpre = self.stv();
        let mut a: Vec<Object> = Vec::new();
        proof {
            lemma_with_prefix_empty(sv_exps(stpre, vs, 0, fuel));
            assert(objs_view(a@) =~= Seq::<ObjV>::empty());
        }
        let n = args.len();
        let mut k: usize = 0;
        while k < n
            invariant
                self.wf(),
                evolves(*old(self), *self),
                k <= n,
                n == args@.len(),
                fuel >= 1,
                preserves_scopes_except(old(self).arena(), self.arena(), -1),
                st00 == old(self).stv(),
                vs == crate::ast::exps_view(args@),
                gf == exp_view(*callee),
                sv_exp(st00, gf, (fuel - 1) as u64) == (stpre, function@),
                !is_sig(function@),
                with_prefix(objs_view(a@), sv_exps(self.stv(), vs, k as int, fuel))
                    == sv_exps(stpre, vs, 0, fuel),
                val_wf(function@, self.arena().len() as int),
                a@.len() == k,
                forall|j: int|
                    0 <= j < k ==> val_wf((#[trigger] a@[j])@, self.arena().len() as int),
            decreases n - k,
        {
            proof {
                assert(decreases_to!(args@ => args@[k as int]));
            }
            let ghost pre_len = self.arena().len();
            let ghost stk = self.stv();
            let v = self.eval_exp(&args[k], (fuel - 1) as u64);
            proof {
                crate::ast::lemma_exps_view_index(args@);
                assert(vs[k as int] == exp_view(args@[k as int]));
                assert(sv_exps(stk, vs, k as int, fuel) == (if is_sig(sv_exp(
                    stk,
                    vs[k as int],
                    (fuel - 1) as u64,
                ).1) {
                    ListV::Sig(
                        sv_exp(stk, vs[k as int], (fuel - 1) as u64).0,
                        sv_exp(stk, vs[k as int], (fuel - 1) as u64).1,
                    )
                } else {
                    with_prefix(
                        seq![sv_exp(stk, vs[k as int], (fuel - 1) as u64).1],
                        sv_exps(
                            sv_exp(stk, vs[k as int], (fuel - 1) as u64).0,
                            vs,
                            k + 1,
                            fuel,
                        ),
                    )
                }));
            }
            if matches!(v, Object::Error(_)) || matches!(v, Object::Return(_)) {
                proof {
                    assert(sv_exps(stpre, vs, 0, fuel) == ListV::Sig(self.stv(), v@));
                    assert(sv_call(st00, vs, gf, fuel) == (self.stv(), v@));
                }
                return v;
            }
            proof {
                lemma_val_wf_grow(
                    function@,
                    pre_len as int,
                    self.arena().len() as int,
                );
                assert forall|j: int| 0 <= j < k implies val_wf(
                    (#[trigger] a@[j])@,
                    self.arena().len() as int,
                ) by {
                    lemma_val_wf_grow(a@[j]@, pre_len as int, self.arena().len() as int);
                }
                lemma_with_prefix_push(
                    objs_view(a@),
                    v@,
                    sv_exps(self.stv(), vs, k + 1, fuel),
                );
            }
            let ghost apre = a@;
            a.push(v);
            proof {
                assert(a@.drop_last() =~= apre);
                assert(objs_view(a@) =~= objs_view(apre).push(a@.last()@));
            }
            k = k + 1;
        }
        proof {
            crate::ast::lemma_exps_view_index(args@);
            assert(sv_exps(self.stv(), vs, n as int, fuel) == ListV::Vals(
                self.stv(),
                Seq::empty(),
            ));
            assert(objs_view(a@) + Seq::<ObjV>::empty() =~= objs_view(a@));
            assert(sv_exps(stpre, vs, 0, fuel) == ListV::Vals(
                self.stv(),
                objs_view(a@),
            ));
        }
        let rr = self.apply_function(function, a, (fuel - 1) as u64);
        proof {
            assert(sv_call(st00, vs, gf, fuel) == (self.stv(), rr@));
        }
        rr
    }

    /// Evaluate an array literal: its elements left to right — a signal
    /// from any element propagates — collected into an array value.
    #[verifier::spinoff_prover]
    #[verifier::rlimit(100)]
    fn eval_arr_lit(&mut self, arr: &Vec<Expression>, fuel: u64) -> (r: Object)
        requires
            old(self).wf(),
            fuel >= 1,
        ensures
            final(self).wf(),
            evolves(*old(self), *final(self)),
            preserves_scopes_except(old(self).arena(), final(self).arena(), -1),
            blk_wf(r@, final(self).arena().len() as int),
            final(self).stv() == sv_arr_lit(old(self).stv(), crate::ast::exps_view(arr@), fuel).0,
            r@ == sv_arr_lit(old(self).stv(), crate::ast::exps_view(arr@), fuel).1,
        decreases fuel, 0int,
    {
        let ghost st00 = old(self).stv();
        let ghost vs = crate::ast::exps_view(arr@);
        let mut a: Vec<Object> = Vec::new();
        proof {
            lemma_with_prefix_empty(sv_exps(st00, vs, 0, fuel));
            assert(objs_view(a@) =~= Seq::<ObjV>::empty());
        }
        let n = arr.len();
        let mut k: usize = 0;
        while k < n
            invariant
                self.wf(),
                evolves(*old(self), *self),
                k <= n,
                n == arr@.len(),
                fuel >= 1,
                preserves_scopes_except(old(self).arena(), self.arena(), -1),
                st00 == old(self).stv(),
                vs == crate::ast::exps_view(arr@),

                with_prefix(objs_view(a@), sv_exps(self.stv(), vs, k as int, fuel))
                    == sv_exps(st00, vs, 0, fuel),
                a@.len() == k,
                forall|j: int|
                    0 <= j < k ==> val_wf(
                        (#[trigger] a@[j])@,
                        self.arena().len() as int,
                    ),
            decreases n - k,
        {
            proof {
                assert(decreases_to!(arr@ => arr@[k as int]));
            }
            let ghost pre_len = self.arena().len();
            let ghost stk = self.stv();
            let v = self.eval_exp(&arr[k], (fuel - 1) as u64);
            proof {
                crate::ast::lemma_exps_view_index(arr@);
                assert(vs[k as int] == exp_view(arr@[k as int]));
                assert(sv_exps(stk, vs, k as int, fuel) == (if is_sig(sv_exp(
                    stk,
                    vs[k as int],
                    (fuel - 1) as u64,
                ).1) {
                    ListV::Sig(
                        sv_exp(stk, vs[k as int], (fuel - 1) as u64).0,
                        sv_exp(stk, vs[k as int], (fuel - 1) as u64).1,
                    )
                } else {
                    with_prefix(
                        seq![sv_exp(stk, vs[k as int], (fuel - 1) as u64).1],
                        sv_exps(
                            sv_exp(stk, vs[k as int], (fuel - 1) as u64).0,
                            vs,
                            k + 1,
                            fuel,
                        ),
                    )
                }));
            }
            if matches!(v, Object::Error(_)) || matches!(v, Object::Return(_)) {
                proof {
                    assert(sv_exps(st00, vs, 0, fuel) == ListV::Sig(
                        self.stv(),
                        v@,
                    ));
                    assert(sv_arr_lit(st00, vs, fuel) == (self.stv(), v@));
                }
                return v;
            }
            proof {
                assert forall|j: int| 0 <= j < k implies val_wf(
                    (#[trigger] a@[j])@,
                    self.arena().len() as int,
                ) by {
                    lemma_val_wf_grow(
                        a@[j]@,
                        pre_len as int,
                        self.arena().len() as int,
                    );
                }
                lemma_with_prefix_push(
                    objs_view(a@),
                    v@,
                    sv_exps(self.stv(), vs, k + 1, fuel),
                );
            }
            let ghost apre = a@;
            a.push(v);
            proof {
                assert(a@.drop_last() =~= apre);
                assert(objs_view(a@) =~= objs_view(apre).push(a@.last()@));
            }
            k = k + 1;
        }
        proof {
            lemma_objs_view_index(a@);
            crate::ast::lemma_exps_view_index(arr@);
            assert forall|j: int| 0 <= j < objs_view(a@).len() implies val_wf(
                #[trigger] objs_view(a@)[j],
                self.arena().len() as int,
            ) by {
                assert(objs_view(a@)[j] == obj_view(a@[j]));
                assert(val_wf(a@[j]@, self.arena().len() as int));
            }
            assert(sv_exps(self.stv(), vs, n as int, fuel) == ListV::Vals(
                self.stv(),
                Seq::empty(),
            ));
            assert(objs_view(a@) + Seq::<ObjV>::empty() =~= objs_view(a@));
            assert(sv_exps(st00, vs, 0, fuel) == ListV::Vals(
                self.stv(),
                objs_view(a@),
            ));
        }
        let av = Object::Arr(a);
        proof {
            assert(sv_arr_lit(st00, vs, fuel) == (self.stv(), av@));
        }
        av
    }

    /// Evaluate a prefix application: negation of an integer; anything
    /// else is an error naming the operand.
    fn eval_prefix(&mut self, o: Prefix, right: &Expression, fuel: u64) -> (r: Object)
        requires
            old(self).wf(),
        ensures
            final(self).wf(),
            evolves(*old(self), *final(self)),
            preserves_scopes_except(old(self).arena(), final(self).arena(), -1),
            blk_wf(r@, final(self).arena().len() as int),
            final(self).stv() == sv_prefix(old(self).stv(), o, exp_view(*right), fuel).0,
            r@ == sv_prefix(old(self).stv(), o, exp_view(*right), fuel).1,
        decreases fuel, 0int,
    {
        if fuel == 0 {
            return err_depth();
        }
        let v = self.eval_exp(right, (fuel - 1) as u64);
        if matches!(v, Object::Error(_)) || matches!(v, Object::Return(_)) {
            return v;
        }
        match (o, v) {
            (Prefix::Minus, Object::Int(i)) => {
                if i == i64::MIN {
                    err_overflow()
                } else {
                    Object::Int(-i)
                }
            },
            (_, other) => err_prefix(other.display_text()),
        }
    }

    /// Evaluate an infix application: both operands left to right, then
    /// dispatch on their runtime types — integers and strings have
    /// operations, every other pairing is an error naming the
    /// combination.
    fn eval_infix(&mut self, o: Infix, left: &Expression, right: &Expression, fuel: u64) -> (r:
        Object)
        requires
            old(self).wf(),
        ensures
            final(self).wf(),
            evolves(*old(self), *final(self)),
            preserves_scopes_except(old(self).arena(), final(self).arena(), -1),
            blk_wf(r@, final(self).arena().len() as int),
            final(self).stv() == sv_infix(
                old(self).stv(),
                o,
                exp_view(*left),
                exp_view(*right),
                fuel,
            ).0,
            r@ == sv_infix(old(self).stv(), o, exp_view(*left), exp_view(*right), fuel).1,
        decreases fuel, 0int,
    {
        if fuel == 0 {
            return err_depth();
        }
        let l = self.eval_exp(left, (fuel - 1) as u64);
        if matches!(l, Object::Error(_)) || matches!(l, Object::Return(_)) {
            return l;
        }
        let rr = self.eval_exp(right, (fuel - 1) as u64);
        if matches!(rr, Object::Error(_)) || matches!(rr, Object::Return(_)) {
            return rr;
        }
        match (l, rr) {
            (Object::Int(a), Object::Int(b)) => self.calculate_int(o, a, b),
            (Object::String(a), Object::String(b)) => self.calculate_string(o, a, b),
            (lv, rv) => {
                let s1 = lv.display_text();
                let s2 = rv.display_text();
                mismatch_error(o, s1, s2)
            },
        }
    }

    /// Integer operations: exact arithmetic, with an error where the
    /// result cannot be held; division yields the exact quotient as a
    /// fraction, even when it divides evenly; comparisons yield
    /// booleans.
    pub fn calculate_int(&self, o: Infix, n1: i64, n2: i64) -> (r: Object)
        ensures
            r@ == int_op_result(o, n1 as int, n2 as int),
            res_wf(r@, 0),
    {
        match o {
            Infix::Plus => match n1.checked_add(n2) {
                Option::Some(v) => Object::Int(v),
                Option::None => err_overflow(),
            },
            Infix::Minus => match n1.checked_sub(n2) {
                Option::Some(v) => Object::Int(v),
                Option::None => err_overflow(),
            },
            Infix::Star => match n1.checked_mul(n2) {
                Option::Some(v) => Object::Int(v),
                Option::None => err_overflow(),
            },
            Infix::Slash => {
                if n2 == 0 {
                    err_div_zero()
                } else {
                    proof {
                        crate::object::lemma_division_exact(n1 as int, n2 as int);
                    }
                    make_float(n1, n2)
                }
            },
            _ => self.bool_calculation(o, n1, n2),
        }
    }

    /// Integer comparisons, and the operator-misuse error for anything
    /// else, arithmetic operators included.
    pub fn bool_calculation(&self, o: Infix, v1: i64, v2: i64) -> (r: Object)
        ensures
            r@ == cmp_op_result(o, v1 as int, v2 as int),
            res_wf(r@, 0),
    {
        match o {
            Infix::LT => Object::Bool(v1 < v2),
            Infix::GT => Object::Bool(v1 > v2),
            Infix::EQ => Object::Bool(v1 == v2),
            Infix::NotEQ => Object::Bool(v1 != v2),
            _ => {
                let s1 = i64_to_string(v1);
                let s2 = i64_to_string(v2);
                bad_op_error(o, s1, s2)
            },
        }
    }

    /// String operations: concatenation, lexicographic comparisons and
    /// equality; arithmetic on strings is an operator-misuse error.
    pub fn calculate_string(&self, operator: Infix, left: String, right: String) -> (r: Object)
        ensures
            r@ == str_op_result(operator, left@, right@),
            res_wf(r@, 0),
    {
        match operator {
            Infix::Plus => {
                let mut s = left;
                s.append(right.as_str());
                Object::String(s)
            },
            Infix::LT => Object::Bool(str_lt(left.as_str(), right.as_str())),
            Infix::GT => Object::Bool(str_lt(right.as_str(), left.as_str())),
            Infix::EQ => Object::Bool(left.eq(&right)),
            Infix::NotEQ => Object::Bool(!left.eq(&right)),
            _ => bad_op_error(operator, left, right),
        }
    }

    /// The bindings of a fresh activation: each parameter name bound to
    /// its argument, positionally, under the function's captured scope.
    fn extend_function_env(&self, args: Vec<Object>, idents: Vec<Ident>, env: usize) -> (r: Env)
        requires
            idents@.len() == args@.len(),
        ensures
            r.outer_of() == Option::<usize>::Some(env),
            r.bindings() == params_map(idents_view(idents@), objs_view(args@)),
    {
        let mut e = Env::new_with_outer(env);
        proof {
            assert(idents@.subrange(0, 0) =~= Seq::<Ident>::empty());
            assert(args@.subrange(0, 0) =~= Seq::<Object>::empty());
            assert(idents_view(idents@.subrange(0, 0)) =~= Seq::<Seq<char>>::empty());
            assert(e.bindings() =~= params_map(
                idents_view(idents@.subrange(0, 0)),
                objs_view(args@.subrange(0, 0)),
            ));
        }
        let n = idents.len();
        let mut k: usize = 0;
        while k < n
            invariant
                k <= n,
                n == idents@.len(),
                idents@.len() == args@.len(),
                e.outer_of() == Option::<usize>::Some(env),
                e.bindings() == params_map(
                    idents_view(idents@.subrange(0, k as int)),
                    objs_view(args@.subrange(0, k as int)),
                ),
            decreases n - k,
        {
            let ghost pi = idents_view(idents@.subrange(0, k as int));
            let ghost pv = objs_view(args@.subrange(0, k as int));
            let val = args[k].clone();
            let key = idents[k].literal.clone();
            e.add_ident(val, key);
            proof {
                let pi2 = idents_view(idents@.subrange(0, k + 1));
                let pv2 = objs_view(args@.subrange(0, k + 1));
                assert(args@.subrange(0, k + 1).drop_last() =~= args@.subrange(0, k as int));
                assert(args@.subrange(0, k + 1).last() == args@[k as int]);
                assert(pv2 == pv.push(obj_view(args@[k as int])));
                assert(pi2 =~= pi.push(idents@[k as int].literal@));
                assert(pi2.drop_last() =~= pi);
                assert(pv2.drop_last() =~= pv);
                assert(params_map(pi2, pv2) == params_map(pi, pv).insert(
                    idents@[k as int].literal@,
                    obj_view(args@[k as int]),
                ));
            }
            k = k + 1;
        }
        proof {
            assert(idents@.subrange(0, idents@.len() as int) =~= idents@);
            assert(args@.subrange(0, args@.len() as int) =~= args@);
        }
        e
    }

    /// Call a value.  A function with the wrong number of arguments is
    /// an error naming the expected and given counts; otherwise its
    /// body runs in a fresh scope under its captured scope, and a
    /// return signal coming out of the body is unwrapped.  A builtin
    /// checks its arity the same way; `len` answers from its argument
    /// alone, and `print` appends its argument to the output and yields
    /// the absent value.  Calling anything else is an error.
    pub fn apply_function(&mut self, function: Object, args: Vec<Object>, fuel: u64) -> (r: Object)
        requires
            old(self).wf(),
            val_wf(function@, old(self).arena().len() as int),
            forall|k: int|
                0 <= k < args@.len() ==> val_wf(
                    (#[trigger] args@[k])@,
                    old(self).arena().len() as int,
                ),
        ensures
            final(self).wf(),
            evolves(*old(self), *final(self)),
            preserves_scopes_except(old(self).arena(), final(self).arena(), -1),
            res_wf(r@, final(self).arena().len() as int),
            (match function@ {
                ObjV::Function(ps, _, fe) => {
                    &&& (ps.len() != args@.len() ==> r@ == ObjV::Error(
                        "Need "@ + dec_seq(ps.len() as int) + " Arguments got "@ + dec_seq(
                            args@.len() as int,
                        ),
                    ) && final(self).arena() == old(self).arena() && final(self).out() == old(
                        self,
                    ).out())
                    &&& (ps.len() == args@.len() && fuel > 0
                        ==> final(self).arena().len() > old(self).arena().len()
                        && (final(self).arena()[old(self).arena().len() as int].outer_of()
                        matches Option::Some(j) && j as int == fe))
                },
                ObjV::Builtin(num, kind) => {
                    &&& (args@.len() != 1 ==> r@ == ObjV::Error(
                        "Got "@ + dec_seq(args@.len() as int) + " Arguments but Want "@
                            + int_seq(num),
                    ) && final(self).arena() == old(self).arena() && final(self).out() == old(
                        self,
                    ).out())
                    &&& (args@.len() == 1 && kind == BuiltinKind::Len ==> r@ == len_result(
                        args@[0]@,
                    ) && final(self).arena() == old(self).arena() && final(self).out() == old(
                        self,
                    ).out())
                    &&& (args@.len() == 1 && kind == BuiltinKind::Print ==> r@ == ObjV::Unit
                        && final(self).arena() == old(self).arena() && final(self).out() == old(
                        self,
                    ).out().push(args@[0]@))
                },
                _ => r@ == ObjV::Error("Not A Valid Function Object"@) && final(self).arena()
                    == old(self).arena() && final(self).out() == old(self).out(),
            }),
            final(self).stv() == sv_apply(old(self).stv(), function@, objs_view(args@), fuel).0,
            r@ == sv_apply(old(self).stv(), function@, objs_view(args@), fuel).1,
        decreases fuel, 0int,
    {
        proof {
            lemma_objs_view_index(args@);
        }
        match function {
            Object::Function(idents, block, fenv) => {
                if idents.len() != args.len() {
                    return err_arity_need(idents.len(), args.len());
                }
                if fuel == 0 {
                    return err_depth();
                }
                let ghost gargs = args@;
                let new_env = self.extend_function_env(args, idents, fenv);
                proof {
                    lemma_objs_view_index(gargs);
                    assert forall|k: int| 0 <= k < objs_view(gargs).len() implies val_wf(
                        #[trigger] objs_view(gargs)[k],
                        self.arena().len() + 1int,
                    ) by {
                        lemma_val_wf_grow(
                            gargs[k]@,
                            self.arena().len() as int,
                            self.arena().len() + 1int,
                        );
                    }
                    lemma_params_map_wf(
                        idents_view(idents@),
                        objs_view(gargs),
                        self.arena().len() + 1int,
                    );
                    assert forall|name: Seq<char>| #[trigger]
                        new_env.bindings().dom().contains(name) implies val_wf(
                        new_env.bindings()[name],
                        self.envs@.len() + 1int,
                    ) by {
                        assert(params_map(idents_view(idents@), objs_view(gargs)).dom().contains(
                            name,
                        ));
                    }
                    lemma_vals_wf_push(self.envs@, new_env);
                }
                let ghost st0v = self.stv();
                let saved = self.env;
                let idx = self.envs.len();
                let ghost pre_envs = self.envs@;
                self.envs.push(new_env);
                self.env = idx;
                proof {
                    crate::env::lemma_arena_view_push(pre_envs, new_env);
                    assert(new_env@ =~= (EnvV {
                        map: params_map(idents_view(idents@), objs_view(gargs)),
                        outer: Option::Some(fenv as int),
                    }));
                    assert(self.stv() =~= (StV {
                        envs: st0v.envs.push(
                            EnvV {
                                map: params_map(idents_view(idents@), objs_view(gargs)),
                                outer: Option::Some(fenv as int),
                            },
                        ),
                        cur: st0v.envs.len() as int,
                        out: st0v.out,
                    }));
                }
                let ghost st1v = self.stv();
                let obj = self.eval_block(&block, (fuel - 1) as u64);
                self.env = saved;
                proof {
                    assert(self.stv() =~= (StV {
                        envs: sv_block(st1v, stmts_view(block@), (fuel - 1) as u64).0.envs,
                        cur: st0v.cur,
                        out: sv_block(st1v, stmts_view(block@), (fuel - 1) as u64).0.out,
                    }));
                }
                let out = match obj {
                    Object::Return(o) => *o,
                    other => other,
                };
                proof {
                    assert(sv_apply(old(self).stv(), function@, objs_view(args@), fuel) == (
                        self.stv(),
                        out@,
                    ));
                }
                out
            },
            Object::Builtin(num, kind) => {
                if args.len() != 1 {
                    return err_arity_builtin(args.len(), num);
                }
                match kind {
                    BuiltinKind::Len => len(args),
                    BuiltinKind::Print => {
                        let ghost pre_out = self.output@;
                        let mut args = args;
                        let v = args.remove(0);
                        self.output.push(v);
                        proof {
                            assert(self.output@.drop_last() =~= pre_out);
                            assert(self.out() =~= objs_view(pre_out).push(
                                self.output@.last()@,
                            ));
                        }
                        Object::Unit
                    },
                }
            },
            _ => err_not_callable(),
        }
    }
}

} // verus!
