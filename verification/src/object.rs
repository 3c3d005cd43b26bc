use vstd::prelude::*;

use crate::ast::{clone_idents, clone_stmts, idents_view, stmts_view, BlockStmt, Ident, StmtV};
use crate::text::{i64_to_string, int_seq};

verus! {

/// The native functions the language exposes.
#[derive(Debug, PartialEq, Eq, Clone, Copy)]
pub enum BuiltinKind {
    Len,
    Print,
}

/// A runtime value.  `Float` holds an exact rational in lowest terms
/// with a positive denominator — the one way a fraction enters the
/// language is integer division, whose exact quotient it records.
/// `Function` holds its captured scope as a handle into the evaluator's
/// environment arena.  `Return` and `Error` are control-flow signals,
/// never stored inside other values.  `Unit` is the absence of a value.
#[derive(Debug, PartialEq)]
pub enum Object {
    String(String),
    Int(i64),
    Float(i64, i64),
    Bool(bool),
    Arr(Vec<Object>),
    Return(Box<Object>),

    Function(Vec<Ident>, BlockStmt, usize),
    Builtin(i64, BuiltinKind),

    Error(String),
    Unit,
}

/// Mirror of `Object` over sequences and unbounded integers.
pub enum ObjV {
    Str(Seq<char>),
    Int(int),
    Float(int, int),
    Bool(bool),
    Arr(Seq<ObjV>),
    Return(Box<ObjV>),
    Function(Seq<Seq<char>>, Seq<StmtV>, int),
    Builtin(int, BuiltinKind),
    Error(Seq<char>),
    Unit,
}

pub open spec fn obj_view(o: Object) -> ObjV
    decreases o,
{
    match o {
        Object::String(s) => ObjV::Str(s@),
        Object::Int(i) => ObjV::Int(i as int),
        Object::Float(n, d) => ObjV::Float(n as int, d as int),
        Object::Bool(b) => ObjV::Bool(b),
        Object::Arr(es) => ObjV::Arr(objs_view(es@)),
        Object::Return(b) => ObjV::Return(Box::new(obj_view(*b))),
        Object::Function(ps, body, e) => ObjV::Function(
            idents_view(ps@),
            stmts_view(body@),
            e as int,
        ),
        Object::Builtin(n, k) => ObjV::Builtin(n as int, k),
        Object::Error(s) => ObjV::Error(s@),
        Object::Unit => ObjV::Unit,
    }
}

pub open spec fn objs_view(os: Seq<Object>) -> Seq<ObjV>
    decreases os,
{
    if os.len() == 0 {
        Seq::empty()
    } else {
        objs_view(os.drop_last()).push(obj_view(os.last()))
    }
}

impl View for Object {
    type V = ObjV;

    open spec fn view(&self) -> ObjV {
        obj_view(*self)
    }
}

/// The view of a value sequence is its values' views, pointwise.
pub proof fn lemma_objs_view_index(os: Seq<Object>)
    ensures
        objs_view(os).len() == os.len(),
        forall|k: int| 0 <= k < os.len() ==> objs_view(os)[k] == obj_view(#[trigger] os[k]),
    decreases os,
{
    if os.len() > 0 {
        lemma_objs_view_index(os.drop_last());
        assert forall|k: int| 0 <= k < os.len() implies objs_view(os)[k] == obj_view(
            #[trigger] os[k],
        ) by {
            if k < os.len() - 1 {
                assert(os.drop_last()[k] == os[k]);
                assert(objs_view(os)[k] == objs_view(os.drop_last())[k]);
            } else {
                assert(os.last() == os[k]);
            }
        }
    }
}

// ---------------------------------------------------------------------------
// Well-formed values
// ---------------------------------------------------------------------------

/// A proper value, fit to be stored or handed to user code, in an arena
/// of `n` environments: no `Return` or `Error` signal anywhere inside
/// it, every fraction with a positive denominator, every captured scope
/// handle within the arena, and every builtin carrying its true arity.
pub open spec fn val_wf(v: ObjV, n: int) -> bool
    decreases v,
{
    match v {
        ObjV::Str(_) => true,
        ObjV::Int(_) => true,
        ObjV::Float(_, d) => d > 0,
        ObjV::Bool(_) => true,
        ObjV::Arr(es) => forall|k: int| 0 <= k < es.len() ==> val_wf(#[trigger] es[k], n),
        ObjV::Return(_) => false,
        ObjV::Function(_, _, e) => 0 <= e < n,
        ObjV::Builtin(a, _) => a == 1,
        ObjV::Error(_) => false,
        ObjV::Unit => true,
    }
}

/// What evaluating an expression may produce: a proper value or an error.
pub open spec fn res_wf(v: ObjV, n: int) -> bool {
    val_wf(v, n) || v is Error
}

/// What evaluating a statement or a block may produce: a proper value,
/// an error, or a return signal wrapping a proper value.
pub open spec fn blk_wf(v: ObjV, n: int) -> bool {
    ||| val_wf(v, n)
    ||| v is Error
    ||| (v matches ObjV::Return(b) && val_wf(*b, n))
}

/// Well-formedness only constrains scope handles from above, so it
/// survives the arena growing.
pub proof fn lemma_val_wf_grow(v: ObjV, n1: int, n2: int)
    requires
        val_wf(v, n1),
        n1 <= n2,
    ensures
        val_wf(v, n2),
    decreases v,
{
    match v {
        ObjV::Arr(es) => {
            assert forall|k: int| 0 <= k < es.len() implies val_wf(#[trigger] es[k], n2) by {
                lemma_val_wf_grow(es[k], n1, n2);
            }
        },
        _ => {},
    }
}

// ---------------------------------------------------------------------------
// Cloning
// ---------------------------------------------------------------------------

/// Clone a vector of values; the views agree, element for element.
pub(crate) fn clone_objs(v: &Vec<Object>) -> (r: Vec<Object>)
    ensures
        r@.len() == v@.len(),
        objs_view(r@) == objs_view(v@),
        forall|i: int| 0 <= i < v@.len() ==> obj_view(#[trigger] r@[i]) == obj_view(v@[i]),
    decreases v@,
{
    let mut out: Vec<Object> = Vec::new();
    let mut k: usize = 0;
    while k < v.len()
        invariant
            k <= v.len(),
            out@.len() == k,
            forall|i: int| 0 <= i < k ==> obj_view(#[trigger] out@[i]) == obj_view(v@[i]),
        decreases v.len() - k,
    {
        proof {
            assert(decreases_to!(v@ => v@[k as int]));
        }
        out.push(v[k].clone());
        k = k + 1;
    }
    proof {
        lemma_objs_view_index(out@);
        lemma_objs_view_index(v@);
        assert forall|i: int| 0 <= i < v@.len() implies objs_view(out@)[i] == objs_view(v@)[i] by {
            assert(obj_view(out@[i]) == obj_view(v@[i]));
        }
        assert(objs_view(out@) =~= objs_view(v@));
    }
    out
}

impl Clone for Object {
    /// Cloning a value preserves its view.
    fn clone(&self) -> (r: Self)
        ensures
            r@ == self@,
        decreases *self,
    {
        match self {
            Object::String(s) => Object::String(s.clone()),
            Object::Int(i) => Object::Int(*i),
            Object::Float(n, d) => Object::Float(*n, *d),
            Object::Bool(b) => Object::Bool(*b),
            Object::Arr(es) => Object::Arr(clone_objs(es)),
            Object::Return(b) => Object::Return(Box::new((&**b).clone())),
            Object::Function(ps, body, e) => Object::Function(
                clone_idents(ps),
                clone_stmts(body),
                *e,
            ),
            Object::Builtin(n, k) => Object::Builtin(*n, *k),
            Object::Error(s) => Object::Error(s.clone()),
            Object::Unit => Object::Unit,
        }
    }
}

// ---------------------------------------------------------------------------
// Exact rationals, for division
// ---------------------------------------------------------------------------

/// Euclid's greatest common divisor.
pub open spec fn gcd_nat(a: nat, b: nat) -> nat
    decreases b,
{
    if b == 0 {
        a
    } else {
        gcd_nat(b, a % b)
    }
}

/// The greatest common divisor of two numbers, not both zero, is
/// positive and divides both.
pub proof fn lemma_gcd_divides(a: nat, b: nat)
    requires
        a > 0 || b > 0,
    ensures
        gcd_nat(a, b) > 0,
        a % gcd_nat(a, b) == 0,
        b % gcd_nat(a, b) == 0,
    decreases b,
{
    let g = gcd_nat(a, b);
    if b == 0 {
        vstd::arithmetic::div_mod::lemma_mod_self_0(a as int);
        assert(0int % (a as int) == 0) by {
            vstd::arithmetic::div_mod::lemma_small_mod(0, a);
        }
    } else {
        lemma_gcd_divides(b, a % b);
        vstd::arithmetic::div_mod::lemma_fundamental_div_mod(b as int, g as int);
        vstd::arithmetic::div_mod::lemma_fundamental_div_mod((a % b) as int, g as int);
        let k1 = b as int / g as int;
        let k2 = (a % b) as int / g as int;
        vstd::arithmetic::div_mod::lemma_fundamental_div_mod(a as int, b as int);
        let q = a as int / b as int;
        assert(a as int == (b as int) * q + (a % b) as int);
        assert(a as int == (g as int) * (k1 * q + k2)) by (nonlinear_arith)
            requires
                a as int == (b as int) * q + (a % b) as int,
                b as int == (g as int) * k1,
                (a % b) as int == (g as int) * k2,
        ;
        assert(((k1 * q + k2) * (g as int)) % (g as int) == 0) by {
            vstd::arithmetic::div_mod::lemma_mod_multiples_basic(k1 * q + k2, g as int);
        }
        assert((g as int) * (k1 * q + k2) == (k1 * q + k2) * (g as int));
    }
}

/// The exact quotient `a / b` in normal form: magnitudes divided by
/// their greatest common divisor, the sign carried by the numerator,
/// the denominator positive.
pub open spec fn rat_norm(a: int, b: int) -> (int, int) {
    let g = gcd_nat(vstd::math::abs(a), vstd::math::abs(b)) as int;
    let un = vstd::math::abs(a) as int / g;
    let ud = vstd::math::abs(b) as int / g;
    if (a < 0) != (b < 0) {
        (-un, ud)
    } else {
        (un, ud)
    }
}

/// Whether the normal form of `a / b` fits the machine integers.
pub open spec fn rat_fits(a: int, b: int) -> bool {
    i64::MIN <= rat_norm(a, b).0 <= i64::MAX && rat_norm(a, b).1 <= i64::MAX
}

/// The division law: for `b != 0` the normal form of `a / b` has a
/// positive denominator and stands for exactly the real quotient of `a`
/// by `b` — its numerator times `b` equals `a` times its denominator.
pub proof fn lemma_division_exact(a: int, b: int)
    requires
        b != 0,
    ensures
        rat_norm(a, b).1 > 0,
        rat_norm(a, b).0 * b == a * rat_norm(a, b).1,
{
    let ma = vstd::math::abs(a);
    let mb = vstd::math::abs(b);
    lemma_gcd_divides(ma, mb);
    let g = gcd_nat(ma, mb) as int;
    vstd::arithmetic::div_mod::lemma_fundamental_div_mod(ma as int, g);
    vstd::arithmetic::div_mod::lemma_fundamental_div_mod(mb as int, g);
    let un = ma as int / g;
    let ud = mb as int / g;
    assert(ma as int == g * un);
    assert(mb as int == g * ud);
    assert(ud > 0) by (nonlinear_arith)
        requires
            mb as int == g * ud,
            mb > 0,
            g > 0,
            ud >= 0,
    ;
    assert(un * (mb as int) == (ma as int) * ud) by (nonlinear_arith)
        requires
            ma as int == g * un,
            mb as int == g * ud,
    ;
    let n = rat_norm(a, b).0;
    let d = rat_norm(a, b).1;
    assert(d == ud);
    assert(ma as int == if a < 0 {
        -a
    } else {
        a
    });
    assert(mb as int == if b < 0 {
        -b
    } else {
        b
    });
    if (a < 0) != (b < 0) {
        assert(n == -un);
        assert(n * b == a * d) by (nonlinear_arith)
            requires
                un * (mb as int) == (ma as int) * ud,
                n == -un,
                d == ud,
                ma as int == (if a < 0 {
                    -a
                } else {
                    a
                }),
                mb as int == (if b < 0 {
                    -b
                } else {
                    b
                }),
                (a < 0) != (b < 0),
        ;
    } else {
        assert(n == un);
        assert(n * b == a * d) by (nonlinear_arith)
            requires
                un * (mb as int) == (ma as int) * ud,
                n == un,
                d == ud,
                ma as int == (if a < 0 {
                    -a
                } else {
                    a
                }),
                mb as int == (if b < 0 {
                    -b
                } else {
                    b
                }),
                !((a < 0) != (b < 0)),
        ;
    }
}

/// Divide `a` by `b` exactly: the quotient in normal form, or an error
/// where its parts cannot be held in machine integers.
pub fn make_float(a: i64, b: i64) -> (r: Object)
    requires
        b != 0,
    ensures
        rat_fits(a as int, b as int) ==> r@ == ObjV::Float(
            rat_norm(a as int, b as int).0,
            rat_norm(a as int, b as int).1,
        ),
        !rat_fits(a as int, b as int) ==> r@ == ObjV::Error("Integer Overflow"@),
{
    let ma = abs_u64(a);
    let mb = abs_u64(b);
    let g = gcd_u64(ma, mb);
    proof {
        lemma_gcd_divides(ma as nat, mb as nat);
    }
    let un = ma / g;
    let ud = mb / g;
    let negative = (a < 0) != (b < 0);
    if negative {
        if un <= 9_223_372_036_854_775_808u64 && ud <= i64::MAX as u64 {
            let num = if un == 9_223_372_036_854_775_808u64 {
                i64::MIN
            } else {
                -(un as i64)
            };
            Object::Float(num, ud as i64)
        } else {
            Object::Error(String::from_str("Integer Overflow"))
        }
    } else {
        if un <= i64::MAX as u64 && ud <= i64::MAX as u64 {
            Object::Float(un as i64, ud as i64)
        } else {
            Object::Error(String::from_str("Integer Overflow"))
        }
    }
}

/// The magnitude of a machine integer.
fn abs_u64(a: i64) -> (r: u64)
    ensures
        r as nat == vstd::math::abs(a as int),
{
    if a == i64::MIN {
        9_223_372_036_854_775_808u64
    } else if a < 0 {
        (-a) as u64
    } else {
        a as u64
    }
}

/// Euclid's algorithm.
fn gcd_u64(a: u64, b: u64) -> (r: u64)
    ensures
        r as nat == gcd_nat(a as nat, b as nat),
    decreases b,
{
    if b == 0 {
        a
    } else {
        gcd_u64(b, a % b)
    }
}

// ---------------------------------------------------------------------------
// A short text form, for diagnostic messages
// ---------------------------------------------------------------------------

/// A value's short text form: integers and fractions in decimal, strings
/// verbatim, compound and opaque values as a bare word, signals and the
/// absent value as empty text.
pub open spec fn obj_summary(v: ObjV) -> Seq<char> {
    match v {
        ObjV::Int(i) => int_seq(i),
        ObjV::Bool(b) => if b {
            "true"@
        } else {
            "false"@
        },
        ObjV::Str(s) => s,
        ObjV::Float(n, d) => int_seq(n) + "/"@ + int_seq(d),
        ObjV::Arr(_) => "array"@,
        ObjV::Function(_, _, _) => "func"@,
        ObjV::Builtin(_, _) => "builtin"@,
        ObjV::Return(_) => ""@,
        ObjV::Error(_) => ""@,
        ObjV::Unit => ""@,
    }
}

impl Object {
    /// The value's short text form, as `obj_summary` gives it.
    pub fn display_text(&self) -> (s: String)
        ensures
            s@ == obj_summary(self@),
    {
        match self {
            Object::Int(i) => i64_to_string(*i),
            Object::Bool(b) => {
                if *b {
                    String::from_str("true")
                } else {
                    String::from_str("false")
                }
            },
            Object::String(s) => s.clone(),
            Object::Float(n, d) => {
                let mut s = i64_to_string(*n);
                s.append("/");
                let den = i64_to_string(*d);
                s.append(den.as_str());
                s
            },
            Object::Arr(_) => String::from_str("array"),
            Object::Function(_, _, _) => String::from_str("func"),
            Object::Builtin(_, _) => String::from_str("builtin"),
            Object::Return(_) => String::from_str(""),
            Object::Error(_) => String::from_str(""),
            Object::Unit => String::from_str(""),
        }
    }
}

} // verus!
