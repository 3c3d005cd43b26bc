use vstd::prelude::*;

use crate::env::opt_obj_view;
use crate::object::{obj_summary, obj_view, objs_view, BuiltinKind, Object, ObjV};

verus! {

/// The registry: which value a builtin's name denotes.  Both builtins
/// take exactly one argument.
pub open spec fn builtin_spec(name: Seq<char>) -> Option<ObjV> {
    if name == "len"@ {
        Option::Some(ObjV::Builtin(1, BuiltinKind::Len))
    } else if name == "print"@ {
        Option::Some(ObjV::Builtin(1, BuiltinKind::Print))
    } else {
        Option::None
    }
}

/// The registry as a table, one entry per builtin.
pub fn new_builtin_functions() -> (r: Vec<(String, Object)>)
    ensures
        r@.len() == 2,
        r@[0].0@ == "len"@,
        r@[0].1@ == ObjV::Builtin(1, BuiltinKind::Len),
        r@[1].0@ == "print"@,
        r@[1].1@ == ObjV::Builtin(1, BuiltinKind::Print),
{
    let mut r: Vec<(String, Object)> = Vec::new();
    r.push((String::from_str("len"), Object::Builtin(1, BuiltinKind::Len)));
    r.push((String::from_str("print"), Object::Builtin(1, BuiltinKind::Print)));
    r
}

/// Resolve a name in the registry.
pub fn lookup_builtin(name: &String) -> (r: Option<Object>)
    ensures
        opt_obj_view(r) == builtin_spec(name@),
{
    if name.eq(&String::from_str("len")) {
        Option::Some(Object::Builtin(1, BuiltinKind::Len))
    } else if name.eq(&String::from_str("print")) {
        Option::Some(Object::Builtin(1, BuiltinKind::Print))
    } else {
        Option::None
    }
}

/// What `len` answers on its one argument: the element count of an
/// array, the length in bytes of a string's text, and an error on any
/// value without a length.
pub open spec fn len_result(v: ObjV) -> ObjV {
    match v {
        ObjV::Arr(es) => if es.len() <= i64::MAX {
            ObjV::Int(es.len() as int)
        } else {
            ObjV::Error("Integer Overflow"@)
        },
        ObjV::Str(s) => if vstd::utf8::encode_utf8(s).len() <= i64::MAX {
            ObjV::Int(vstd::utf8::encode_utf8(s).len() as int)
        } else {
            ObjV::Error("Integer Overflow"@)
        },
        _ => ObjV::Error(obj_summary(v) + " Doesnt Have A Length Property"@),
    }
}

/// The `len` builtin.
pub fn len(args: Vec<Object>) -> (r: Object)
    requires
        args@.len() == 1,
    ensures
        r@ == len_result(args@[0]@),
{
    let a = &args[0];
    match a {
        Object::Arr(arr) => {
            proof {
                crate::object::lemma_objs_view_index(arr@);
                assert(obj_view(args@[0]) matches ObjV::Arr(es) && es == objs_view(arr@));
            }
            let n = arr.len();
            if n as u64 <= i64::MAX as u64 {
                Object::Int(n as i64)
            } else {
                Object::Error(String::from_str("Integer Overflow"))
            }
        },
        Object::String(s) => {
            let n = s.as_str().as_bytes().len();
            if n as u64 <= i64::MAX as u64 {
                Object::Int(n as i64)
            } else {
                Object::Error(String::from_str("Integer Overflow"))
            }
        },
        _ => {
            let mut m = a.display_text();
            m.append(" Doesnt Have A Length Property");
            Object::Error(m)
        },
    }
}

} // verus!
