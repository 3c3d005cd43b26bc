use vstd::prelude::*;

use crate::object::{obj_view, Object, ObjV};

verus! {

/// One lexical scope: its bindings, and a handle to the enclosing scope
/// if any.  Scopes live in an arena (a vector of `Env`) owned by the
/// evaluator; a handle is an index into that arena.  Shared ownership of
/// a captured scope is then just a shared index, and a scope stays alive
/// as long as the arena does.
pub struct Env {
    map: Vec<(String, Object)>,
    outer: Option<usize>,
}

/// The bindings an entry list denotes: later entries shadow earlier
/// ones.
pub open spec fn entries_map(s: Seq<(String, Object)>) -> Map<Seq<char>, ObjV>
    decreases s,
{
    if s.len() == 0 {
        Map::empty()
    } else {
        entries_map(s.drop_last()).insert(s.last().0@, obj_view(s.last().1))
    }
}

impl Env {
    /// The scope's bindings, by name.
    pub closed spec fn bindings(&self) -> Map<Seq<char>, ObjV> {
        entries_map(self.map@)
    }

    /// The enclosing scope's handle, if any.
    pub closed spec fn outer_of(&self) -> Option<usize> {
        self.outer
    }

    /// A fresh root scope: no bindings, no enclosing scope.
    pub fn new() -> (r: Env)
        ensures
            r.bindings() == Map::<Seq<char>, ObjV>::empty(),
            r.outer_of() is None,
    {
        Env { map: Vec::new(), outer: Option::None }
    }

    /// A fresh scope enclosed by the scope `env` points at.
    pub fn new_with_outer(env: usize) -> (r: Env)
        ensures
            r.bindings() == Map::<Seq<char>, ObjV>::empty(),
            r.outer_of() == Option::Some(env),
    {
        Env { map: Vec::new(), outer: Option::Some(env) }
    }

    /// Bind `key` to `val` in this scope alone, shadowing silently: no
    /// enclosing scope changes, and no other name in this one.
    pub fn add_ident(&mut self, val: Object, key: String)
        ensures
            final(self).bindings() == old(self).bindings().insert(key@, val@),
            final(self).outer_of() == old(self).outer_of(),
    {
        let ghost pre = self.map@;
        self.map.push((key, val));
        proof {
            assert(self.map@.drop_last() =~= pre);
        }
    }
}

// ---------------------------------------------------------------------------
// The arena and name resolution
// ---------------------------------------------------------------------------

/// Scope chains only point backwards: every scope's enclosing scope was
/// created before it.  This is what makes every chain finite.
pub open spec fn arena_wf(envs: Seq<Env>) -> bool {
    forall|i: int|
        0 <= i < envs.len() ==> match (#[trigger] envs[i]).outer_of() {
            Option::Some(j) => (j as int) < i,
            Option::None => true,
        }
}

/// What a name resolves to from the scope `at`: the nearest enclosing
/// scope that binds it wins.
pub open spec fn spec_lookup(envs: Seq<Env>, at: int, name: Seq<char>) -> Option<ObjV>
    decreases at,
{
    if 0 <= at < envs.len() {
        if envs[at].bindings().contains_key(name) {
            Option::Some(envs[at].bindings()[name])
        } else {
            match envs[at].outer_of() {
                Option::Some(j) => if (j as int) < at {
                    spec_lookup(envs, j as int, name)
                } else {
                    Option::None
                },
                Option::None => Option::None,
            }
        }
    } else {
        Option::None
    }
}

/// The view of what an optional lookup handed back.
pub open spec fn opt_obj_view(r: Option<Object>) -> Option<ObjV> {
    match r {
        Option::Some(o) => Option::Some(obj_view(o)),
        Option::None => Option::None,
    }
}

/// Search an entry list from its end: the latest binding of a name wins.
fn find_entry(entries: &Vec<(String, Object)>, upto: usize, name: &String) -> (r: Option<Object>)
    requires
        upto <= entries@.len(),
    ensures
        ({
            let m = entries_map(entries@.subrange(0, upto as int));
            opt_obj_view(r) == if m.contains_key(name@) {
                Option::Some(m[name@])
            } else {
                Option::<ObjV>::None
            }
        }),
    decreases upto,
{
    if upto == 0 {
        proof {
            assert(entries@.subrange(0, 0) =~= Seq::<(String, Object)>::empty());
        }
        Option::None
    } else {
        proof {
            assert(entries@.subrange(0, upto as int).drop_last() =~= entries@.subrange(
                0,
                upto - 1,
            ));
            assert(entries@.subrange(0, upto as int).last() == entries@[upto - 1]);
        }
        let e = &entries[upto - 1];
        if e.0.eq(name) {
            Option::Some(e.1.clone())
        } else {
            find_entry(entries, upto - 1, name)
        }
    }
}

impl Env {
    /// Resolve a name from the scope `at` of the arena, checking this
    /// scope's own bindings first, then the chain of enclosing scopes,
    /// and hand back a copy of the first match.
    pub fn read_ident(envs: &Vec<Env>, at: usize, name: &str) -> (r: Option<Object>)
        requires
            arena_wf(envs@),
            at < envs@.len(),
        ensures
            opt_obj_view(r) == spec_lookup(envs@, at as int, name@),
        decreases at,
    {
        let owned = name.to_owned();
        let here = &envs[at];
        proof {
            assert(here.map@.subrange(0, here.map@.len() as int) =~= here.map@);
        }
        let local = find_entry(&here.map, here.map.len(), &owned);
        match local {
            Option::Some(o) => Option::Some(o),
            Option::None => {
                match here.outer {
                    Option::Some(j) => Env::read_ident(envs, j, name),
                    Option::None => Option::None,
                }
            },
        }
    }
}

/// Clone a scope: the copy has the same bindings and the same enclosing
/// scope.
impl Clone for Env {
    fn clone(&self) -> (r: Self)
        ensures
            r.bindings() == self.bindings(),
            r.outer_of() == self.outer_of(),
    {
        let mut out: Vec<(String, Object)> = Vec::new();
        let mut k: usize = 0;
        while k < self.map.len()
            invariant
                k <= self.map@.len(),
                out@.len() == k,
                forall|i: int|
                    0 <= i < k ==> (#[trigger] out@[i]).0@ == self.map@[i].0@ && out@[i].1@
                        == self.map@[i].1@,
            decreases self.map@.len() - k,
        {
            let e = &self.map[k];
            out.push((e.0.clone(), e.1.clone()));
            k = k + 1;
        }
        proof {
            lemma_entries_map_pointwise(out@, self.map@);
        }
        Env { map: out, outer: self.outer }
    }
}

/// Entry lists whose names and values agree pointwise denote the same
/// bindings.
proof fn lemma_entries_map_pointwise(a: Seq<(String, Object)>, b: Seq<(String, Object)>)
    requires
        a.len() == b.len(),
        forall|i: int|
            0 <= i < a.len() ==> (#[trigger] a[i]).0@ == b[i].0@ && a[i].1@ == b[i].1@,
    ensures
        entries_map(a) == entries_map(b),
    decreases a,
{
    if a.len() > 0 {
        assert(a.drop_last().len() == b.drop_last().len());
        assert forall|i: int| 0 <= i < a.drop_last().len() implies (#[trigger] a.drop_last()[i]).0@
            == b.drop_last()[i].0@ && a.drop_last()[i].1@ == b.drop_last()[i].1@ by {
            assert(a.drop_last()[i] == a[i]);
            assert(b.drop_last()[i] == b[i]);
        }
        lemma_entries_map_pointwise(a.drop_last(), b.drop_last());
        assert(a.last() == a[a.len() - 1]);
        assert(b.last() == b[b.len() - 1]);
    }
}

// ---------------------------------------------------------------------------
// Scopes as mathematics
// ---------------------------------------------------------------------------

/// Mirror of a scope: its bindings and its enclosing handle, as plain
/// mathematics.
#[verifier::ext_equal]
pub struct EnvV {
    pub map: Map<Seq<char>, ObjV>,
    pub outer: Option<int>,
}

impl View for Env {
    type V = EnvV;

    open spec fn view(&self) -> EnvV {
        EnvV {
            map: self.bindings(),
            outer: match self.outer_of() {
                Option::Some(j) => Option::Some(j as int),
                Option::None => Option::None,
            },
        }
    }
}

/// The whole arena, scope by scope, as mathematics.
pub open spec fn arena_view(envs: Seq<Env>) -> Seq<EnvV> {
    Seq::new(envs.len(), |i: int| envs[i]@)
}

/// Name resolution over mirrored scopes: the nearest enclosing scope
/// that binds the name wins.
pub open spec fn lookup_v(envs: Seq<EnvV>, at: int, name: Seq<char>) -> Option<ObjV>
    decreases at,
{
    if 0 <= at < envs.len() {
        if envs[at].map.contains_key(name) {
            Option::Some(envs[at].map[name])
        } else {
            match envs[at].outer {
                Option::Some(j) => if 0 <= j < at {
                    lookup_v(envs, j, name)
                } else {
                    Option::None
                },
                Option::None => Option::None,
            }
        }
    } else {
        Option::None
    }
}

/// Growing the arena mirrors as growing its view.
pub proof fn lemma_arena_view_push(envs: Seq<Env>, e: Env)
    ensures
        arena_view(envs.push(e)) == arena_view(envs).push(e@),
{
    assert(arena_view(envs.push(e)) =~= arena_view(envs).push(e@));
}

/// Replacing one scope mirrors as replacing its view.
pub proof fn lemma_arena_view_update(envs: Seq<Env>, i: int, e: Env)
    requires
        0 <= i < envs.len(),
    ensures
        arena_view(envs.update(i, e)) == arena_view(envs).update(i, e@),
{
    assert(arena_view(envs.update(i, e)) =~= arena_view(envs).update(i, e@));
}

/// Resolution over the mirrored arena agrees with resolution over the
/// arena itself.
pub proof fn lemma_lookup_view(envs: Seq<Env>, at: int, name: Seq<char>)
    ensures
        lookup_v(arena_view(envs), at, name) == spec_lookup(envs, at, name),
    decreases at,
{
    if 0 <= at < envs.len() {
        assert(arena_view(envs)[at] == envs[at]@);
        if !envs[at].bindings().contains_key(name) {
            match envs[at].outer_of() {
                Option::Some(j) => {
                    if (j as int) < at {
                        lemma_lookup_view(envs, j as int, name);
                    }
                },
                Option::None => {},
            }
        }
    }
}

// ---------------------------------------------------------------------------
// The scoping laws
// ---------------------------------------------------------------------------

/// A scope created later is invisible from an earlier one: changing the
/// bindings of scope `j` leaves every resolution from a scope before `j`
/// untouched.  A binding made inside a function body or a conditional
/// arm therefore cannot be seen from the enclosing scope once the block
/// exits.
pub proof fn lemma_later_scope_invisible(
    envs1: Seq<Env>,
    envs2: Seq<Env>,
    j: int,
    at: int,
    name: Seq<char>,
)
    requires
        arena_wf(envs1),
        envs1.len() == envs2.len(),
        0 <= at < j < envs1.len(),
        forall|i: int| 0 <= i < envs1.len() && i != j ==> envs2[i] == #[trigger] envs1[i],
    ensures
        spec_lookup(envs2, at, name) == spec_lookup(envs1, at, name),
    decreases at,
{
    assert(envs2[at] == envs1[at]);
    if !envs1[at].bindings().contains_key(name) {
        match envs1[at].outer_of() {
            Option::Some(o) => {
                if (o as int) < at {
                    lemma_later_scope_invisible(envs1, envs2, j, o as int, name);
                }
            },
            Option::None => {},
        }
    }
}

/// Growing the arena with fresh scopes changes no resolution from the
/// scopes already there.
pub proof fn lemma_grow_preserves_lookup(envs: Seq<Env>, e: Env, at: int, name: Seq<char>)
    requires
        0 <= at < envs.len(),
    ensures
        spec_lookup(envs.push(e), at, name) == spec_lookup(envs, at, name),
    decreases at,
{
    assert(envs.push(e)[at] == envs[at]);
    if !envs[at].bindings().contains_key(name) {
        match envs[at].outer_of() {
            Option::Some(o) => {
                if (o as int) < at {
                    lemma_grow_preserves_lookup(envs, e, o as int, name);
                }
            },
            Option::None => {},
        }
    }
}

/// A step that leaves every old scope's bindings and enclosing-scope
/// handle as they were — however many fresh scopes it opened, and
/// whatever it wrote into them — changes no name resolution from any old
/// scope.  With the evaluator's guarantee that expressions preserve all
/// pre-existing scopes, a call can only affect its caller through its
/// result.
pub proof fn lemma_preserved_scopes_preserve_lookup(
    pre: Seq<Env>,
    post: Seq<Env>,
    at: int,
    name: Seq<char>,
)
    requires
        arena_wf(pre),
        pre.len() <= post.len(),
        0 <= at < pre.len(),
        forall|i: int|
            0 <= i < pre.len() ==> (#[trigger] post[i]).bindings() == pre[i].bindings()
                && post[i].outer_of() == pre[i].outer_of(),
    ensures
        spec_lookup(post, at, name) == spec_lookup(pre, at, name),
    decreases at,
{
    if !pre[at].bindings().contains_key(name) {
        match pre[at].outer_of() {
            Option::Some(o) => {
                if (o as int) < at {
                    lemma_preserved_scopes_preserve_lookup(pre, post, o as int, name);
                }
            },
            Option::None => {},
        }
    }
}

/// A name a scope does not bind itself resolves exactly as from its
/// enclosing scope: a closure's body sees the bindings of the scope it
/// was created in, with the values they hold at lookup time.
pub proof fn lemma_free_name_falls_through(envs: Seq<Env>, at: int, name: Seq<char>)
    requires
        arena_wf(envs),
        0 <= at < envs.len(),
        !envs[at].bindings().contains_key(name),
        envs[at].outer_of() is Some,
    ensures
        spec_lookup(envs, at, name) == spec_lookup(
            envs,
            envs[at].outer_of()->0 as int,
            name,
        ),
{
}

} // verus!
