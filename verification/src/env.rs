//! The program's memory: a stack of lexical scopes, innermost last. The
//! global scope sits at the bottom and never pops.
//!
//! A scope is an association list of bindings; `var` replaces a binding of
//! the same name in its scope, so a name is bound at most once per scope
//! (and a lookup finds the one binding, whichever way it searches).

use vstd::prelude::*;

use crate::error::LangError;
use crate::value::Value;

verus! {

/// A scope as the specification sees it: names and their values.
pub type ScopeView = Seq<(Seq<char>, Value)>;

/// The view of one scope.
pub open spec fn scope_view(s: Vec<(String, Value)>) -> ScopeView {
    s@.map_values(|e: (String, Value)| (e.0@, e.1))
}

/// The position of the binding of `name` in a scope (the last one, should
/// there be several), or -1.
pub open spec fn slot_of(s: ScopeView, name: Seq<char>) -> int
    decreases s.len(),
{
    if s.len() == 0 {
        -1
    } else if s.last().0 == name {
        s.len() - 1
    } else {
        slot_of(s.drop_last(), name)
    }
}

/// The innermost scope that binds `name`, or -1.
pub open spec fn scope_of(scopes: Seq<ScopeView>, name: Seq<char>) -> int
    decreases scopes.len(),
{
    if scopes.len() == 0 {
        -1
    } else if slot_of(scopes.last(), name) >= 0 {
        scopes.len() - 1
    } else {
        scope_of(scopes.drop_last(), name)
    }
}

/// What reading `name` gives: the innermost binding.
pub open spec fn lookup(scopes: Seq<ScopeView>, name: Seq<char>) -> Option<Value> {
    let d = scope_of(scopes, name);
    if d < 0 {
        None
    } else {
        Some(scopes[d][slot_of(scopes[d], name)].1)
    }
}

/// A scope after `var name = v`: an existing binding of the name is
/// replaced in place, otherwise the binding is added.
pub open spec fn bind(s: ScopeView, name: Seq<char>, v: Value) -> ScopeView {
    let p = slot_of(s, name);
    if p < 0 {
        s.push((name, v))
    } else {
        s.update(p, (name, v))
    }
}

/// The scopes after `name = v`, which updates the innermost binding.
pub open spec fn rebind(scopes: Seq<ScopeView>, name: Seq<char>, v: Value) -> Seq<ScopeView> {
    let d = scope_of(scopes, name);
    scopes.update(d, scopes[d].update(slot_of(scopes[d], name), (name, v)))
}

/// `acc` after binding each entry of `x`, in order.
pub open spec fn bind_all(acc: ScopeView, x: ScopeView) -> ScopeView
    decreases x.len(),
{
    if x.len() == 0 {
        acc
    } else {
        let prev = bind_all(acc, x.drop_last());
        bind(prev, x.last().0, x.last().1)
    }
}

/// The scopes flattened into one, outermost first, so that an inner binding
/// replaces an outer binding of the same name.
pub open spec fn merge(scopes: Seq<ScopeView>) -> ScopeView
    decreases scopes.len(),
{
    if scopes.len() == 0 {
        ScopeView::empty()
    } else {
        bind_all(merge(scopes.drop_last()), scopes.last())
    }
}

/// `slot_of` finds a binding of the name, and only when there is one.
pub proof fn lemma_slot_of(s: ScopeView, name: Seq<char>)
    ensures
        -1 <= slot_of(s, name) < s.len(),
        slot_of(s, name) >= 0 ==> s[slot_of(s, name)].0 == name,
        slot_of(s, name) < 0 ==> forall|i: int| 0 <= i < s.len() ==> (#[trigger] s[i]).0 != name,
    decreases s.len(),
{
    if s.len() > 0 {
        lemma_slot_of(s.drop_last(), name);
        if s.last().0 != name {
            assert forall|i: int| 0 <= i < s.len() && slot_of(s, name) < 0 implies (
            #[trigger] s[i]).0 != name by {
                if i < s.len() - 1 {
                    assert(s[i] == s.drop_last()[i]);
                }
            }
        }
    }
}

/// `scope_of` finds a scope that binds the name, and only when there is one.
pub proof fn lemma_scope_of(scopes: Seq<ScopeView>, name: Seq<char>)
    ensures
        -1 <= scope_of(scopes, name) < scopes.len(),
        scope_of(scopes, name) >= 0 ==> slot_of(scopes[scope_of(scopes, name)], name) >= 0,
        scope_of(scopes, name) < 0 ==> forall|d: int|
            0 <= d < scopes.len() ==> slot_of(#[trigger] scopes[d], name) < 0,
    decreases scopes.len(),
{
    if scopes.len() > 0 {
        lemma_scope_of(scopes.drop_last(), name);
        if slot_of(scopes.last(), name) < 0 {
            assert forall|d: int| 0 <= d < scopes.len() && scope_of(scopes, name) < 0 implies slot_of(
                #[trigger] scopes[d],
                name,
            ) < 0 by {
                if d < scopes.len() - 1 {
                    assert(scopes[d] == scopes.drop_last()[d]);
                }
            }
        }
    }
}

/// Overwriting an entry with one of the same name moves no name's slot.
pub proof fn lemma_slot_of_update(s: ScopeView, p: int, e: (Seq<char>, Value), m: Seq<char>)
    requires
        0 <= p < s.len(),
        e.0 == s[p].0,
    ensures
        slot_of(s.update(p, e), m) == slot_of(s, m),
    decreases s.len(),
{
    let u = s.update(p, e);
    if p == s.len() - 1 {
        assert(u.drop_last() =~= s.drop_last());
    } else {
        assert(u.last() == s.last());
        assert(u.drop_last() =~= s.drop_last().update(p, e));
        lemma_slot_of_update(s.drop_last(), p, e, m);
    }
}

/// After `var n = v` in a scope, reading `n` there gives `v`, and every
/// other name reads what it read before.
pub proof fn lemma_bind_reads(s: ScopeView, n: Seq<char>, v: Value, m: Seq<char>)
    ensures
        slot_of(bind(s, n, v), n) >= 0,
        bind(s, n, v)[slot_of(bind(s, n, v), n)].1 == v,
        m != n ==> slot_of(bind(s, n, v), m) == slot_of(s, m),
        m != n && slot_of(s, m) >= 0 ==> bind(s, n, v)[slot_of(s, m)] == s[slot_of(s, m)],
{
    lemma_slot_of(s, n);
    lemma_slot_of(s, m);
    let p = slot_of(s, n);
    if p < 0 {
        assert(s.push((n, v)).drop_last() =~= s);
    } else {
        lemma_slot_of_update(s, p, (n, v), n);
        lemma_slot_of_update(s, p, (n, v), m);
    }
}

/// Binding a list of names in order: a name reads the value of its last
/// entry in the list.
pub proof fn lemma_bind_all_reads(acc: ScopeView, x: ScopeView, i: int)
    requires
        0 <= i < x.len(),
        forall|j: int| i < j < x.len() ==> (#[trigger] x[j]).0 != x[i].0,
    ensures
        slot_of(bind_all(acc, x), x[i].0) >= 0,
        bind_all(acc, x)[slot_of(bind_all(acc, x), x[i].0)].1 == x[i].1,
    decreases x.len(),
{
    let n = x[i].0;
    let prev = bind_all(acc, x.drop_last());
    lemma_bind_reads(prev, x.last().0, x.last().1, n);
    if i < x.len() - 1 {
        assert(x.drop_last()[i] == x[i]);
        assert forall|j: int| i < j < x.drop_last().len() implies (#[trigger] x.drop_last()[j]).0
            != x.drop_last()[i].0 by {
            assert(x.drop_last()[j] == x[j]);
        }
        lemma_bind_all_reads(acc, x.drop_last(), i);
        assert(x[x.len() - 1].0 != n);
    }
}

/// Binding a list of names none of which is `n` leaves `n` unbound in a
/// scope where it was unbound.
pub proof fn lemma_bind_all_misses(acc: ScopeView, x: ScopeView, n: Seq<char>)
    requires
        slot_of(acc, n) < 0,
        forall|j: int| 0 <= j < x.len() ==> (#[trigger] x[j]).0 != n,
    ensures
        slot_of(bind_all(acc, x), n) < 0,
    decreases x.len(),
{
    if x.len() > 0 {
        assert forall|j: int| 0 <= j < x.drop_last().len() implies (#[trigger] x.drop_last()[j]).0
            != n by {
            assert(x.drop_last()[j] == x[j]);
        }
        lemma_bind_all_misses(acc, x.drop_last(), n);
        lemma_bind_reads(bind_all(acc, x.drop_last()), x.last().0, x.last().1, n);
    }
}

/// The stack of scopes.
pub struct Environment {
    scopes: Vec<Vec<(String, Value)>>,
}

impl View for Environment {
    type V = Seq<ScopeView>;

    closed spec fn view(&self) -> Seq<ScopeView> {
        self.scopes@.map_values(|s: Vec<(String, Value)>| scope_view(s))
    }
}

/// The position of the binding of `name` in `scope`.
fn find_slot(scope: &Vec<(String, Value)>, name: &String) -> (r: Option<usize>)
    ensures
        match r {
            Some(p) => p == slot_of(scope_view(*scope), name@),
            None => slot_of(scope_view(*scope), name@) == -1,
        },
{
    let ghost sv = scope_view(*scope);
    let mut i: usize = scope.len();
    assert(sv.take(i as int) =~= sv);
    while i > 0
        invariant
            i <= scope@.len(),
            sv == scope_view(*scope),
            slot_of(sv, name@) == slot_of(sv.take(i as int), name@),
        decreases i,
    {
        let ghost t = sv.take(i as int);
        assert(t.drop_last() =~= sv.take(i - 1));
        if String::eq(&scope[i - 1].0, name) {
            assert(t.last().0 == name@);
            return Some(i - 1);
        }
        i = i - 1;
    }
    assert(sv.take(0).len() == 0);
    None
}

/// `var name = value` on one scope.
pub fn bind_entry(scope: &mut Vec<(String, Value)>, name: String, value: Value)
    ensures
        scope_view(*final(scope)) == bind(scope_view(*old(scope)), name@, value),
{
    let ghost sv = scope_view(*scope);
    proof {
        lemma_slot_of(sv, name@);
    }
    match find_slot(scope, &name) {
        Some(p) => {
            scope.set(p, (name, value));
            assert(scope_view(*scope) =~= sv.update(p as int, (name@, value)));
        },
        None => {
            scope.push((name, value));
            assert(scope_view(*scope) =~= sv.push((name@, value)));
        },
    }
}

impl Environment {
    /// Only the global scope, empty.
    pub fn new() -> (e: Environment)
        ensures
            e@ == seq![ScopeView::empty()],
    {
        let mut scopes: Vec<Vec<(String, Value)>> = Vec::new();
        scopes.push(Vec::new());
        let e = Environment { scopes };
        assert(scope_view(e.scopes@[0]) =~= ScopeView::empty());
        assert(e@ =~= seq![ScopeView::empty()]);
        e
    }

    /// The number of scopes.
    pub fn depth(&self) -> (n: usize)
        ensures
            n == self@.len(),
    {
        self.scopes.len()
    }

    /// Open a new innermost scope, empty.
    pub fn push_scope(&mut self)
        ensures
            final(self)@ == old(self)@.push(ScopeView::empty()),
    {
        let fresh: Vec<(String, Value)> = Vec::new();
        assert(scope_view(fresh) =~= ScopeView::empty());
        self.scopes.push(fresh);
        assert(self@ =~= old(self)@.push(ScopeView::empty()));
    }

    /// Open a new innermost scope holding `bindings`.
    pub fn push_bindings(&mut self, bindings: Vec<(String, Value)>)
        ensures
            final(self)@ == old(self)@.push(scope_view(bindings)),
    {
        self.scopes.push(bindings);
        assert(self@ =~= old(self)@.push(scope_view(bindings)));
    }

    /// Close the innermost scope.
    pub fn pop_scope(&mut self)
        requires
            old(self)@.len() > 0,
        ensures
            final(self)@ == old(self)@.drop_last(),
    {
        self.scopes.pop();
        assert(self@ =~= old(self)@.drop_last());
    }

    /// Keep the bottom `n` scopes and hand back the ones above them.
    pub fn split_off(&mut self, n: usize) -> (above: Vec<Vec<(String, Value)>>)
        requires
            n <= old(self)@.len(),
        ensures
            final(self)@ == old(self)@.take(n as int),
            above@.map_values(|s: Vec<(String, Value)>| scope_view(s)) == old(self)@.skip(n as int),
    {
        let above = self.scopes.split_off(n);
        assert(self@ =~= old(self)@.take(n as int));
        assert(above@.map_values(|s: Vec<(String, Value)>| scope_view(s)) =~= old(self)@.skip(
            n as int,
        ));
        above
    }

    /// Drop all scopes above the bottom `n`, then stack `above` on top.
    pub fn restore(&mut self, n: usize, above: Vec<Vec<(String, Value)>>)
        ensures
            n <= old(self)@.len() ==> final(self)@ == old(self)@.take(n as int) + above@.map_values(
                |s: Vec<(String, Value)>| scope_view(s),
            ),
            n > old(self)@.len() ==> final(self)@ == old(self)@ + above@.map_values(
                |s: Vec<(String, Value)>| scope_view(s),
            ),
    {
        let mut above = above;
        let ghost rest = above@.map_values(|s: Vec<(String, Value)>| scope_view(s));
        let ghost short = n <= self.scopes.len();
        self.scopes.truncate(n);
        self.scopes.append(&mut above);
        proof {
            if short {
                assert(self@ =~= old(self)@.take(n as int) + rest);
            } else {
                assert(self@ =~= old(self)@ + rest);
            }
        }
    }

    /// The innermost binding of `name`: its scope and its position there.
    pub fn find(&self, name: &String) -> (r: Option<(usize, usize)>)
        ensures
            match r {
                Some((d, p)) => d == scope_of(self@, name@) && p == slot_of(self@[d as int], name@),
                None => scope_of(self@, name@) == -1,
            },
    {
        let mut d: usize = self.scopes.len();
        assert(self@.take(d as int) =~= self@);
        while d > 0
            invariant
                d <= self@.len(),
                scope_of(self@, name@) == scope_of(self@.take(d as int), name@),
            decreases d,
        {
            let ghost t = self@.take(d as int);
            assert(t.drop_last() =~= self@.take(d - 1));
            assert(t.last() == scope_view(self.scopes@[d - 1]));
            match find_slot(&self.scopes[d - 1], name) {
                Some(p) => {
                    return Some((d - 1, p));
                },
                None => {},
            }
            d = d - 1;
        }
        None
    }

    /// `name`'s value, innermost scope first.
    pub fn get(&self, name: &String) -> (r: Result<Value, LangError>)
        ensures
            match lookup(self@, name@) {
                Some(v) => r == Ok::<Value, LangError>(v),
                None => r matches Err(LangError::UndefinedVariable(s)) && s@ == name@,
            },
    {
        match self.find(name) {
            Some((d, p)) => {
                proof {
                    lemma_scope_of(self@, name@);
                    lemma_slot_of(self@[d as int], name@);
                }
                Ok(self.scopes[d][p].1.clone())
            },
            None => Err(LangError::UndefinedVariable(name.clone())),
        }
    }

    /// `var name = value`: bind in the innermost scope.
    pub fn declare(&mut self, name: String, value: Value)
        requires
            old(self)@.len() > 0,
        ensures
            final(self)@ == old(self)@.update(
                old(self)@.len() - 1,
                bind(old(self)@.last(), name@, value),
            ),
    {
        let last = self.scopes.len() - 1;
        let mut scope: Vec<(String, Value)> = Vec::new();
        self.scopes.set_and_swap(last, &mut scope);
        bind_entry(&mut scope, name, value);
        self.scopes.set(last, scope);
        assert(self@ =~= old(self)@.update(
            old(self)@.len() - 1,
            bind(old(self)@.last(), name@, value),
        ));
    }

    /// `var` for each name with its value, in order, in the innermost scope.
    pub fn declare_all(&mut self, names: &Vec<String>, values: &Vec<Value>)
        requires
            old(self)@.len() > 0,
            names@.len() == values@.len(),
        ensures
            final(self)@.len() == old(self)@.len(),
            final(self)@.drop_last() == old(self)@.drop_last(),
            final(self)@.last() == bind_all(
                old(self)@.last(),
                Seq::new(names@.len(), |i: int| (names@[i]@, values@[i])),
            ),
    {
        let ghost pairs = Seq::new(names@.len(), |i: int| (names@[i]@, values@[i]));
        let mut j: usize = 0;
        assert(pairs.take(0) =~= ScopeView::empty());
        while j < values.len()
            invariant
                old(self)@.len() > 0,
                names@.len() == values@.len(),
                j <= values@.len(),
                pairs == Seq::new(names@.len(), |i: int| (names@[i]@, values@[i])),
                self@.len() == old(self)@.len(),
                self@.drop_last() == old(self)@.drop_last(),
                self@.last() == bind_all(old(self)@.last(), pairs.take(j as int)),
            decreases values@.len() - j,
        {
            let name = names[j].clone();
            let value = values[j].clone();
            assert(pairs[j as int] == (name@, value));
            self.declare(name, value);
            assert(pairs.take(j as int + 1).drop_last() =~= pairs.take(j as int));
            assert(self@.drop_last() =~= old(self)@.drop_last());
            j = j + 1;
        }
        assert(pairs.take(j as int) =~= pairs);
    }

    /// Replace the value at a binding found by `find`, handing back the old one.
    pub fn replace(&mut self, d: usize, p: usize, value: Value) -> (old_value: Value)
        requires
            d < old(self)@.len(),
            p < old(self)@[d as int].len(),
        ensures
            old_value == old(self)@[d as int][p as int].1,
            final(self)@ == old(self)@.update(
                d as int,
                old(self)@[d as int].update(p as int, (old(self)@[d as int][p as int].0, value)),
            ),
    {
        let mut scope: Vec<(String, Value)> = Vec::new();
        self.scopes.set_and_swap(d, &mut scope);
        let ghost sv = scope_view(scope);
        let mut entry: (String, Value) = (String::new(), Value::Bool(false));
        scope.set_and_swap(p, &mut entry);
        let (name, old_value) = entry;
        scope.set(p, (name, value));
        assert(scope_view(scope) =~= sv.update(p as int, (sv[p as int].0, value)));
        self.scopes.set(d, scope);
        assert(self@ =~= old(self)@.update(
            d as int,
            old(self)@[d as int].update(p as int, (old(self)@[d as int][p as int].0, value)),
        ));
        old_value
    }

    /// All bindings of the scopes above the global one, flattened: where a
    /// name is bound more than once, the innermost binding wins.
    pub fn locals(&self) -> (r: Vec<(String, Value)>)
        requires
            self@.len() >= 1,
        ensures
            scope_view(r) == merge(self@.skip(1)),
    {
        let mut acc: Vec<(String, Value)> = Vec::new();
        let n = self.scopes.len();
        let mut d: usize = 1;
        assert(self@.skip(1).take(0) =~= Seq::<ScopeView>::empty());
        assert(scope_view(acc) =~= ScopeView::empty());
        while d < n
            invariant
                n == self@.len(),
                1 <= d <= n,
                scope_view(acc) == merge(self@.skip(1).take(d - 1)),
            decreases n - d,
        {
            let scope = &self.scopes[d];
            let ghost base = scope_view(acc);
            let ghost sv = scope_view(*scope);
            assert(sv == self@[d as int]);
            let mut j: usize = 0;
            assert(sv.take(0) =~= ScopeView::empty());
            while j < scope.len()
                invariant
                    j <= scope@.len(),
                    sv == scope_view(*scope),
                    scope_view(acc) == bind_all(base, sv.take(j as int)),
                decreases scope@.len() - j,
            {
                let (name, value) = (&scope[j].0, &scope[j].1);
                bind_entry(&mut acc, name.clone(), value.clone());
                assert(sv.take(j as int + 1).drop_last() =~= sv.take(j as int));
                j = j + 1;
            }
            assert(sv.take(j as int) =~= sv);
            let ghost t = self@.skip(1).take(d as int);
            assert(t.drop_last() =~= self@.skip(1).take(d - 1));
            assert(t.last() == sv);
            d = d + 1;
        }
        assert(self@.skip(1).take(n - 1) =~= self@.skip(1));
        acc
    }

    /// `name = value`: update the innermost binding of an existing name.
    pub fn assign(&mut self, name: &String, value: Value) -> (r: Result<(), LangError>)
        requires
            old(self)@.len() > 0,
        ensures
            scope_of(old(self)@, name@) >= 0 ==> r is Ok && final(self)@ == rebind(
                old(self)@,
                name@,
                value,
            ),
            scope_of(old(self)@, name@) < 0 ==> (r matches Err(LangError::UndefinedVariable(s))
                && s@ == name@) && final(self)@ == old(self)@,
    {
        match self.find(name) {
            Some((d, p)) => {
                proof {
                    lemma_scope_of(self@, name@);
                    lemma_slot_of(self@[d as int], name@);
                }
                let _ = self.replace(d, p, value);
                Ok(())
            },
            None => Err(LangError::UndefinedVariable(name.clone())),
        }
    }
}

} // verus!
