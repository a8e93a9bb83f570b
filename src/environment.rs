use vstd::prelude::*;
use crate::expression::{EvalError, Expression, Double};

verus! {

/// The bindings of an environment, in the order they are stored.
pub type Bindings = Seq<(Seq<char>, Expression)>;

/// The expression bound to `name`, if any.
pub open spec fn lookup(env: Bindings, name: Seq<char>) -> Option<Expression>
    decreases env.len(),
{
    if env.len() == 0 {
        None
    } else if env.last().0 == name {
        Some(env.last().1)
    } else {
        lookup(env.drop_last(), name)
    }
}

/// No name is bound twice.
pub open spec fn unique_keys(env: Bindings) -> bool {
    forall|i: int, j: int|
        0 <= i < j < env.len() ==> #[trigger] env[i].0 != #[trigger] env[j].0
}

/// The environment holds exactly the sentinel: the empty name bound to the
/// literal zero.
pub open spec fn is_default(env: Bindings) -> bool {
    &&& env.len() == 1
    &&& env[0].0 == Seq::<char>::empty()
    &&& env[0].1 == Expression::Number(Double::spec_zero())
}

/// In an environment without repeated names, the binding at index `i` is
/// what a lookup of its name finds.
pub proof fn lemma_lookup_at(env: Bindings, name: Seq<char>, i: int)
    requires
        unique_keys(env),
        0 <= i < env.len(),
        env[i].0 == name,
    ensures
        lookup(env, name) == Some(env[i].1),
    decreases env.len(),
{
    if i < env.len() - 1 {
        assert(env[env.len() - 1].0 != env[i].0);
        assert(env.drop_last()[i] == env[i]);
        lemma_lookup_at(env.drop_last(), name, i);
    }
}

/// A lookup finds nothing where no binding has the name.
pub proof fn lemma_lookup_absent(env: Bindings, name: Seq<char>)
    requires
        forall|j: int| 0 <= j < env.len() ==> env[j].0 != name,
    ensures
        lookup(env, name) is None,
    decreases env.len(),
{
    if env.len() > 0 {
        assert(env[env.len() - 1].0 != name);
        lemma_lookup_absent(env.drop_last(), name);
    }
}

/// Two environments without repeated names that bind `name` at the same
/// indices, to the same expressions, agree on it.
proof fn lemma_lookup_same(a: Bindings, b: Bindings, name: Seq<char>)
    requires
        unique_keys(a),
        unique_keys(b),
        forall|j: int| 0 <= j < a.len() && a[j].0 == name ==> j < b.len() && b[j] == a[j],
        forall|j: int| 0 <= j < b.len() && b[j].0 == name ==> j < a.len() && a[j] == b[j],
    ensures
        lookup(a, name) == lookup(b, name),
{
    if exists|j: int| 0 <= j < a.len() && a[j].0 == name {
        let j = choose|j: int| 0 <= j < a.len() && a[j].0 == name;
        lemma_lookup_at(a, name, j);
        lemma_lookup_at(b, name, j);
    } else {
        lemma_lookup_absent(a, name);
        lemma_lookup_absent(b, name);
    }
}

/// A mapping from names to the expressions they stand for.
pub struct Environment {
    entries: Vec<(String, Expression)>,
}

impl View for Environment {
    type V = Bindings;

    closed spec fn view(&self) -> Bindings {
        self.entries@.map_values(|p: (String, Expression)| (p.0@, p.1))
    }
}

impl Environment {
    pub open spec fn wf(&self) -> bool {
        unique_keys(self@)
    }

    /// The default environment: only the sentinel binding of the empty name.
    pub fn new() -> (r: Environment)
        ensures
            r.wf(),
            is_default(r@),
    {
        let mut entries: Vec<(String, Expression)> = Vec::new();
        entries.push((String::new(), Expression::Number(Double::zero())));
        Environment { entries }
    }

    /// An environment with no bindings at all.
    pub fn empty() -> (r: Environment)
        ensures
            r.wf(),
            r@.len() == 0,
    {
        Environment { entries: Vec::new() }
    }

    /// Binds `name` to `value`, replacing an earlier binding of `name`.
    pub fn insert(&mut self, name: String, value: Expression)
        requires
            old(self).wf(),
        ensures
            final(self).wf(),
            lookup(final(self)@, name@) == Some(value),
            forall|other: Seq<char>|
                other != name@ ==> lookup(final(self)@, other) == lookup(old(self)@, other),
    {
        let mut i: usize = 0;
        while i < self.entries.len()
            invariant
                i <= self.entries.len(),
                forall|j: int| 0 <= j < i ==> self@[j].0 != name@,
                self@ == old(self)@,
                unique_keys(self@),
            decreases self.entries.len() - i,
        {
            if self.entries[i].0 == name {
                let ghost before = self@;
                self.entries.set(i, (name, value));
                proof {
                    assert(self@ == before.update(i as int, (name@, value)));
                    assert forall|a: int, b: int|
                        0 <= a < b < self@.len() implies #[trigger] self@[a].0
                        != #[trigger] self@[b].0 by {
                        assert(before[a].0 != before[b].0);
                    }
                    lemma_lookup_at(self@, name@, i as int);
                    assert forall|other: Seq<char>|
                        other != name@ implies lookup(self@, other) == lookup(before, other) by {
                        lemma_lookup_same(before, self@, other);
                    }
                }
                return;
            }
            i = i + 1;
        }
        let ghost before = self@;
        self.entries.push((name, value));
        proof {
            assert(self@ == before.push((name@, value)));
            assert(self@.drop_last() == before);
            assert forall|other: Seq<char>|
                other != name@ implies lookup(self@, other) == lookup(before, other) by {
                lemma_lookup_same(before, self@, other);
            }
        }
    }

    /// The expression bound to `name`.
    pub fn value_for_key(&self, name: &String) -> (r: Result<&Expression, EvalError>)
        ensures
            match lookup(self@, name@) {
                Some(e) => r == Ok::<&Expression, EvalError>(&e),
                None => r == Err::<&Expression, EvalError>(EvalError::UnboundVariable),
            },
    {
        let mut i: usize = self.entries.len();
        assert(self@.subrange(0, i as int) == self@);
        while i > 0
            invariant
                i <= self.entries.len(),
                lookup(self@, name@) == lookup(self@.subrange(0, i as int), name@),
            decreases i,
        {
            i = i - 1;
            assert(self@.subrange(0, i as int + 1).drop_last() == self@.subrange(0, i as int));
            if self.entries[i].0 == *name {
                return Ok(&self.entries[i].1);
            }
        }
        Err(EvalError::UnboundVariable)
    }
}

} // verus!
