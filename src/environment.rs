//! Scoped variable bindings: a stack of scopes, the globals at the bottom
//! and the innermost block scope on top.
use vstd::prelude::*;

use crate::interpreter::{RuntimeError, RuntimeErrorView};
use crate::token::{Literal, Value};

verus! {

/// The bindings of one scope.
pub type Scope = Map<Seq<char>, Value>;

/// A scope is held as a list of bindings in which a later entry shadows an
/// earlier one for the same name.
pub open spec fn scope_view(es: Seq<(String, Literal)>) -> Scope
    decreases es.len(),
{
    if es.len() == 0 {
        Map::empty()
    } else {
        scope_view(es.drop_last()).insert(es.last().0@, es.last().1@)
    }
}

/// The index of the innermost scope that binds `name`.
pub open spec fn holder(frames: Seq<Scope>, name: Seq<char>) -> Option<int>
    decreases frames.len(),
{
    if frames.len() == 0 {
        None
    } else if frames.last().contains_key(name) {
        Some(frames.len() - 1)
    } else {
        holder(frames.drop_last(), name)
    }
}

/// What `name` stands for: its binding in the innermost scope that has one.
pub open spec fn lookup(frames: Seq<Scope>, name: Seq<char>) -> Option<Value> {
    match holder(frames, name) {
        Some(i) => Some(frames[i][name]),
        None => None,
    }
}

/// The scopes after `name` is assigned `v`: the innermost scope that binds
/// `name` is overwritten; `None` when no scope binds it.
pub open spec fn assigned(frames: Seq<Scope>, name: Seq<char>, v: Value) -> Option<Seq<Scope>> {
    match holder(frames, name) {
        Some(i) => Some(frames.update(i, frames[i].insert(name, v))),
        None => None,
    }
}

/// The scopes after `name` is defined as `v` in the innermost scope.
pub open spec fn defined(frames: Seq<Scope>, name: Seq<char>, v: Value) -> Seq<Scope> {
    frames.update(frames.len() - 1, frames.last().insert(name, v))
}

pub proof fn lemma_holder_range(frames: Seq<Scope>, name: Seq<char>)
    ensures
        match holder(frames, name) {
            Some(i) => 0 <= i < frames.len() && frames[i].contains_key(name) && forall|j: int|
                i < j < frames.len() ==> !(#[trigger] frames[j].contains_key(name)),
            None => forall|j: int| 0 <= j < frames.len() ==> !(#[trigger] frames[j].contains_key(name)),
        },
    decreases frames.len(),
{
    if frames.len() > 0 && !frames.last().contains_key(name) {
        lemma_holder_range(frames.drop_last(), name);
        let d = frames.drop_last();
        assert forall|j: int| 0 <= j < d.len() implies d[j] == frames[j] by {}
    }
}

proof fn lemma_holder_prefix(frames: Seq<Scope>, name: Seq<char>, i: int)
    requires
        0 <= i <= frames.len(),
        forall|j: int| i <= j < frames.len() ==> !(#[trigger] frames[j].contains_key(name)),
    ensures
        holder(frames, name) == holder(frames.take(i), name),
    decreases frames.len() - i,
{
    if i < frames.len() {
        lemma_holder_prefix(frames, name, i + 1);
        assert(frames.take(i + 1).drop_last() =~= frames.take(i));
    } else {
        assert(frames.take(i) =~= frames);
    }
}

proof fn lemma_scope_last(es: Seq<(String, Literal)>, k: Seq<char>, i: int)
    requires
        0 <= i < es.len(),
        es[i].0@ == k,
        forall|j: int| i < j < es.len() ==> (#[trigger] es[j]).0@ != k,
    ensures
        scope_view(es).contains_key(k),
        scope_view(es)[k] == es[i].1@,
    decreases es.len(),
{
    if i < es.len() - 1 {
        let d = es.drop_last();
        assert forall|j: int| i < j < d.len() implies (#[trigger] d[j]).0@ != k by {
            assert(d[j] == es[j]);
        }
        lemma_scope_last(d, k, i);
    }
}

proof fn lemma_scope_overwrite(es: Seq<(String, Literal)>, j: int, entry: (String, Literal))
    requires
        0 <= j < es.len(),
        es[j].0@ == entry.0@,
        forall|m: int| j < m < es.len() ==> (#[trigger] es[m]).0@ != entry.0@,
    ensures
        scope_view(es.update(j, entry)) == scope_view(es).insert(entry.0@, entry.1@),
    decreases es.len(),
{
    let u = es.update(j, entry);
    if j == es.len() - 1 {
        assert(u.drop_last() =~= es.drop_last());
        assert(scope_view(u) =~= scope_view(es).insert(entry.0@, entry.1@));
    } else {
        let d = es.drop_last();
        assert forall|m: int| j < m < d.len() implies (#[trigger] d[m]).0@ != entry.0@ by {
            assert(d[m] == es[m]);
        }
        lemma_scope_overwrite(d, j, entry);
        assert(u.drop_last() =~= d.update(j, entry));
        assert(u.last() == es.last());
        assert(scope_view(u) =~= scope_view(es).insert(entry.0@, entry.1@));
    }
}

proof fn lemma_scope_absent(es: Seq<(String, Literal)>, k: Seq<char>)
    requires
        forall|j: int| 0 <= j < es.len() ==> (#[trigger] es[j]).0@ != k,
    ensures
        !scope_view(es).contains_key(k),
    decreases es.len(),
{
    if es.len() > 0 {
        let d = es.drop_last();
        assert forall|j: int| 0 <= j < d.len() implies (#[trigger] d[j]).0@ != k by {
            assert(d[j] == es[j]);
        }
        lemma_scope_absent(d, k);
    }
}

/// Assigning to a name that no scope binds fails, so no scope of the chain
/// changes (`Environment::assign` then returns `UndefinedVariable` and
/// leaves the chain as it was).
pub proof fn lemma_assign_unbound(frames: Seq<Scope>, name: Seq<char>, v: Value)
    requires
        lookup(frames, name) is None,
    ensures
        assigned(frames, name, v) is None,
{
}

/// Assigning and defining change no scope's position in the chain.
pub proof fn lemma_update_depth(frames: Seq<Scope>, name: Seq<char>, v: Value)
    requires
        frames.len() > 0,
    ensures
        defined(frames, name, v).len() == frames.len(),
        assigned(frames, name, v) matches Some(f) ==> f.len() == frames.len(),
{
    lemma_holder_range(frames, name);
}

/// A chain of scopes. There is always at least the globals scope.
pub struct Environment {
    scopes: Vec<Vec<(String, Literal)>>,
}

impl View for Environment {
    type V = Seq<Scope>;

    closed spec fn view(&self) -> Seq<Scope> {
        self.scopes@.map_values(|s: Vec<(String, Literal)>| scope_view(s@))
    }
}

impl Environment {
    pub closed spec fn wf(&self) -> bool {
        self.scopes.len() > 0
    }

    pub proof fn lemma_wf(&self)
        requires
            self.wf(),
        ensures
            self@.len() > 0,
    {
    }

    /// Creates the globals scope, with no enclosing scope.
    pub fn new() -> (r: Self)
        ensures
            r.wf(),
            r@ == seq![Scope::empty()],
    {
        let mut scopes: Vec<Vec<(String, Literal)>> = Vec::new();
        scopes.push(Vec::new());
        let r = Environment { scopes };
        assert(r@ =~= seq![Scope::empty()]);
        r
    }

    /// Creates a new scope enclosed by `enclosing`.
    pub fn new_enclosed(enclosing: Environment) -> (r: Self)
        requires
            enclosing.wf(),
        ensures
            r.wf(),
            r@ == enclosing@.push(Scope::empty()),
    {
        let mut r = enclosing;
        r.push_scope();
        r
    }

    /// Enters a new, empty innermost scope.
    pub fn push_scope(&mut self)
        requires
            old(self).wf(),
        ensures
            final(self).wf(),
            final(self)@ == old(self)@.push(Scope::empty()),
    {
        self.scopes.push(Vec::new());
        assert(self@ =~= old(self)@.push(Scope::empty()));
    }

    /// Leaves the innermost scope; the globals scope is never left.
    pub fn pop_scope(&mut self)
        requires
            old(self).wf(),
        ensures
            final(self).wf(),
            old(self)@.len() > 1 ==> final(self)@ == old(self)@.drop_last(),
            old(self)@.len() == 1 ==> final(self)@ == old(self)@,
    {
        if self.scopes.len() > 1 {
            self.scopes.pop();
            assert(self@ =~= old(self)@.drop_last());
        }
    }

    /// The number of scopes in the chain.
    pub fn depth(&self) -> (r: usize)
        ensures
            r == self@.len(),
    {
        self.scopes.len()
    }

    /// Defines `name` in the innermost scope, shadowing or replacing any
    /// binding it had.
    pub fn define(&mut self, name: String, value: Literal)
        requires
            old(self).wf(),
        ensures
            final(self).wf(),
            final(self)@.len() == old(self)@.len(),
            final(self)@ == defined(old(self)@, name@, value@),
    {
        let last = self.scopes.len() - 1;
        self.put(last, name, value);
    }

    /// Binds `name` to `value` in scope `i`, overwriting its entry if it
    /// has one.
    fn put(&mut self, i: usize, name: String, value: Literal)
        requires
            old(self).wf(),
            i < old(self)@.len(),
        ensures
            final(self).wf(),
            final(self)@ == old(self)@.update(i as int, old(self)@[i as int].insert(name@, value@)),
    {
        let ghost k = name@;
        let ghost v = value@;
        let mut scope = self.scopes.remove(i);
        let ghost before = scope@;
        match find_in(&scope, &name) {
            Some(j) => {
                let entry = (name, value);
                proof {
                    lemma_scope_overwrite(before, j as int, entry);
                }
                scope.set(j, entry);
            },
            None => {
                scope.push((name, value));
                assert(scope@.drop_last() =~= before);
            },
        }
        self.scopes.insert(i, scope);
        assert(self@ =~= old(self)@.update(i as int, old(self)@[i as int].insert(k, v)));
    }

    /// The innermost scope that binds `name`, searched from the innermost
    /// outward.
    fn find_holder(&self, name: &String) -> (r: Option<(usize, usize)>)
        requires
            self.wf(),
        ensures
            match r {
                Some((i, j)) => holder(self@, name@) == Some(i as int) && i < self.scopes.len() && j < self.scopes@[i as int].len()
                    && self@[i as int][name@] == self.scopes@[i as int]@[j as int].1@,
                None => holder(self@, name@) is None,
            },
    {
        let mut i: usize = self.scopes.len();
        while i > 0
            invariant
                i <= self.scopes.len(),
                self.wf(),
                forall|j: int| i <= j < self@.len() ==> !(#[trigger] self@[j].contains_key(name@)),
            decreases i,
        {
            let scope = &self.scopes[i - 1];
            match find_in(scope, name) {
                Some(j) => {
                    proof {
                        lemma_scope_last(scope@, name@, j as int);
                        lemma_holder_prefix(self@, name@, i as int);
                        assert(self@.take(i as int).last() == self@[i - 1]);
                    }
                    return Some((i - 1, j));
                },
                None => {
                    proof {
                        lemma_scope_absent(scope@, name@);
                    }
                },
            }
            i = i - 1;
        }
        proof {
            lemma_holder_prefix(self@, name@, 0);
        }
        None
    }

    /// Assigns `value` to `name` in the innermost scope that binds it; fails
    /// without changing anything when no scope does.
    pub fn assign(&mut self, name: &String, value: Literal) -> (r: Result<(), RuntimeError>)
        requires
            old(self).wf(),
        ensures
            final(self).wf(),
            final(self)@.len() == old(self)@.len(),
            match assigned(old(self)@, name@, value@) {
                Some(frames) => r is Ok && final(self)@ == frames,
                None => r is Err && r->Err_0@ == RuntimeErrorView::UndefinedVariable(name@)
                    && final(self)@ == old(self)@,
            },
    {
        match self.find_holder(name) {
            Some((i, _)) => {
                self.put(i, name.clone(), value);
                Ok(())
            },
            None => Err(RuntimeError::UndefinedVariable(name.clone())),
        }
    }

    /// The value of `name` in the innermost scope that binds it.
    pub fn get(&self, name: &String) -> (r: Result<Literal, RuntimeError>)
        requires
            self.wf(),
        ensures
            match lookup(self@, name@) {
                Some(v) => r is Ok && r->Ok_0@ == v,
                None => r is Err && r->Err_0@ == RuntimeErrorView::UndefinedVariable(name@),
            },
    {
        match self.find_holder(name) {
            Some((i, j)) => Ok(self.scopes[i][j].1.duplicate()),
            None => Err(RuntimeError::UndefinedVariable(name.clone())),
        }
    }
}

/// The last entry of `scope` for `name`.
fn find_in(scope: &Vec<(String, Literal)>, name: &String) -> (r: Option<usize>)
    ensures
        match r {
            Some(j) => j < scope.len() && scope@[j as int].0@ == name@ && forall|k: int|
                j < k < scope.len() ==> (#[trigger] scope@[k]).0@ != name@,
            None => forall|k: int| 0 <= k < scope.len() ==> (#[trigger] scope@[k]).0@ != name@,
        },
{
    let mut j: usize = scope.len();
    while j > 0
        invariant
            j <= scope.len(),
            forall|k: int| j <= k < scope.len() ==> (#[trigger] scope@[k]).0@ != name@,
        decreases j,
    {
        if scope[j - 1].0 == *name {
            return Some(j - 1);
        }
        j = j - 1;
    }
    None
}

} // verus!
