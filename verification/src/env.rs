//! The environment: an ordered stack of variable-binding scopes with
//! lexical shadowing. The base scope is created once, holds the builtins
//! and top-level bindings, and is never popped.

use vstd::prelude::*;

use crate::value::Value;

verus! {

broadcast use vstd::std_specs::vec::group_vec_axioms;

/// One scope frame: a mapping from symbol name to value, kept as the list
/// of bindings in insertion order. A later entry for the same name shadows
/// an earlier one, which is exactly the overwrite the innermost-scope
/// `insert` needs.
pub struct SymTab {
    pub entries: Vec<(String, Value)>,
}

/// The value bound to `name` among `entries`, the latest binding winning.
pub open spec fn st_lookup(entries: Seq<(String, Value)>, name: Seq<char>) -> Option<Value>
    decreases entries.len(),
{
    if entries.len() == 0 {
        Option::None
    } else if entries.last().0@ == name {
        Option::Some(entries.last().1)
    } else {
        st_lookup(entries.drop_last(), name)
    }
}

impl SymTab {
    /// An empty scope frame.
    pub fn new() -> (r: SymTab)
        ensures
            r.entries@.len() == 0,
    {
        SymTab { entries: Vec::new() }
    }

    /// The value bound to `name` in this frame, if any.
    pub fn get<'a>(&'a self, name: &String) -> (r: Option<&'a Value>)
        ensures
            match r {
                Option::Some(v) => st_lookup(self.entries@, name@) == Option::Some(*v),
                Option::None => st_lookup(self.entries@, name@) is None,
            },
    {
        let mut i: usize = self.entries.len();
        proof {
            assert(self.entries@.take(i as int) =~= self.entries@);
        }
        while i > 0
            invariant
                i <= self.entries@.len(),
                st_lookup(self.entries@, name@) == st_lookup(
                    self.entries@.take(i as int),
                    name@,
                ),
            decreases i,
        {
            i = i - 1;
            proof {
                assert(self.entries@.take(i + 1).last() == self.entries@[i as int]);
                assert(self.entries@.take(i + 1).drop_last() =~= self.entries@.take(i as int));
            }
            if self.entries[i].0 == *name {
                return Option::Some(&self.entries[i].1);
            }
        }
        proof {
            assert(self.entries@.take(0) =~= Seq::<(String, Value)>::empty());
        }
        Option::None
    }

    /// Rebinds `name` in place if this frame binds it, handing back the
    /// value it replaced; other bindings keep their values.
    pub fn update(&mut self, name: &String, value: Value) -> (r: Option<Value>)
        ensures
            (r is Some) == (st_lookup(old(self).entries@, name@) is Some),
            final(self).entries@.len() == old(self).entries@.len(),
            r is None ==> *final(self) == *old(self),
            r matches Some(o) ==> st_lookup(old(self).entries@, name@) == Option::Some(o),
            r is Some ==> st_lookup(final(self).entries@, name@) == Option::Some(value),
            r is Some ==> forall|n: Seq<char>|
                n != name@ ==> st_lookup(final(self).entries@, n) == st_lookup(
                    old(self).entries@,
                    n,
                ),
    {
        let mut i: usize = self.entries.len();
        proof {
            assert(self.entries@.take(i as int) =~= self.entries@);
        }
        while i > 0
            invariant
                i <= self.entries@.len(),
                *self == *old(self),
                st_lookup(self.entries@, name@) == st_lookup(
                    self.entries@.take(i as int),
                    name@,
                ),
                forall|t: int| i <= t < self.entries@.len() ==> self.entries@[t].0@ != name@,
            decreases i,
        {
            i = i - 1;
            proof {
                assert(self.entries@.take(i + 1).last() == self.entries@[i as int]);
                assert(self.entries@.take(i + 1).drop_last() =~= self.entries@.take(i as int));
            }
            if self.entries[i].0 == *name {
                let pair = self.entries.remove(i);
                self.entries.insert(i, (pair.0, value));
                proof {
                    assert(final(self).entries@ =~= old(self).entries@.update(
                        i as int,
                        (old(self).entries@[i as int].0, value),
                    ));
                    lemma_st_update(old(self).entries@, i as int, value, name@);
                }
                return Option::Some(pair.1);
            }
        }
        proof {
            assert(self.entries@.take(0) =~= Seq::<(String, Value)>::empty());
        }
        Option::None
    }
}

/// Replacing the latest binding of `name` with `value` makes `name` resolve
/// to `value` and leaves every other name's resolution unchanged.
proof fn lemma_st_update(e: Seq<(String, Value)>, j: int, value: Value, name: Seq<char>)
    requires
        0 <= j < e.len(),
        e[j].0@ == name,
        forall|t: int| j < t < e.len() ==> e[t].0@ != name,
    ensures
        st_lookup(e.update(j, (e[j].0, value)), name) == Option::Some(value),
        forall|n: Seq<char>|
            n != name ==> st_lookup(e.update(j, (e[j].0, value)), n) == st_lookup(e, n),
    decreases e.len(),
{
    let u = e.update(j, (e[j].0, value));
    if j == e.len() - 1 {
        assert(u.last() == (e[j].0, value));
        assert(u.drop_last() =~= e.drop_last());
    } else {
        assert(u.last() == e.last());
        assert(u.drop_last() =~= e.drop_last().update(j, (e[j].0, value)));
        assert(e.drop_last()[j] == e[j]);
        lemma_st_update(e.drop_last(), j, value, name);
        assert(e.last().0@ != name);
        assert forall|n: Seq<char>| n != name implies st_lookup(u, n) == st_lookup(e, n) by {
            assert(st_lookup(e.drop_last().update(j, (e[j].0, value)), n) == st_lookup(
                e.drop_last(),
                n,
            ));
        }
    }
}

/// The value bound to `name`, searching scopes innermost to outermost.
pub open spec fn env_lookup(scopes: Seq<SymTab>, name: Seq<char>) -> Option<Value>
    decreases scopes.len(),
{
    if scopes.len() == 0 {
        Option::None
    } else {
        match st_lookup(scopes.last().entries@, name) {
            Option::Some(v) => Option::Some(v),
            Option::None => env_lookup(scopes.drop_last(), name),
        }
    }
}

/// One run's output only ever grows: the earlier chunks stay in place.
pub open spec fn output_extended(pre: Environment, post: Environment) -> bool {
    &&& post.output@.len() >= pre.output@.len()
    &&& post.output@.take(pre.output@.len() as int) == pre.output@
}

/// Output extension composes across successive runs.
pub proof fn lemma_output_extended_trans(a: Environment, b: Environment, c: Environment)
    requires
        output_extended(a, b),
        output_extended(b, c),
    ensures
        output_extended(a, c),
{
    assert(c.output@.take(a.output@.len() as int) =~= c.output@.take(
        b.output@.len() as int,
    ).take(a.output@.len() as int));
}

/// The whole execution context: the scope stack, plus the text the run has
/// printed so far and whether a builtin has requested that evaluation halt.
/// Output and the halt request are carried here so that the core stays free
/// of host input/output; the host drains `output` and honours `halted`.
pub struct Environment {
    pub scopes: Vec<SymTab>,
    pub output: Vec<String>,
    pub halted: bool,
    pub modules: Vec<(String, SymTab)>,
}

impl Environment {
    /// Scope-stack well-formedness: the base scope is always present.
    pub open spec fn wf(self) -> bool {
        self.scopes@.len() >= 1
    }

    /// The value `name` resolves to, innermost scope first.
    pub open spec fn lookup(self, name: Seq<char>) -> Option<Value> {
        env_lookup(self.scopes@, name)
    }

    /// A fresh environment holding only the base (global) scope, which
    /// lives for the interpreter's whole lifetime.
    pub fn new() -> (r: Environment)
        ensures
            r.wf(),
            r.scopes@.len() == 1,
            r.scopes@[0].entries@.len() == 0,
            r.output@.len() == 0,
            !r.halted,
            r.modules@.len() == 0,
            forall|n: Seq<char>| r.lookup(n) is None,
    {
        let mut scopes: Vec<SymTab> = Vec::new();
        scopes.push(SymTab::new());
        let r = Environment { scopes, output: Vec::new(), halted: false, modules: Vec::new() };
        proof {
            assert forall|n: Seq<char>| r.lookup(n) is None by {
                assert(st_lookup(r.scopes@.last().entries@, n) is None);
                assert(r.scopes@.drop_last() =~= Seq::<SymTab>::empty());
                assert(env_lookup(r.scopes@.drop_last(), n) is None);
            }
        }
        r
    }

    /// Appends a new, empty innermost scope (entering a call or loop body).
    pub fn push(&mut self)
        ensures
            final(self).scopes@.len() == old(self).scopes@.len() + 1,
            final(self).scopes@.drop_last() == old(self).scopes@,
            final(self).scopes@.last().entries@.len() == 0,
            final(self).output == old(self).output,
            final(self).halted == old(self).halted,
            final(self).modules == old(self).modules,
            forall|n: Seq<char>| final(self).lookup(n) == old(self).lookup(n),
    {
        self.scopes.push(SymTab::new());
        proof {
            assert(self.scopes@.drop_last() =~= old(self).scopes@);
        }
    }

    /// Removes and returns the innermost scope. The base scope must never
    /// be popped.
    pub fn pop(&mut self) -> (r: SymTab)
        requires
            old(self).scopes@.len() >= 2,
        ensures
            final(self).wf(),
            final(self).scopes@ == old(self).scopes@.drop_last(),
            r == old(self).scopes@.last(),
            final(self).output == old(self).output,
            final(self).halted == old(self).halted,
            final(self).modules == old(self).modules,
    {
        let r = self.scopes.pop().unwrap();
        r
    }

    /// Binds `key` to `value` in the innermost scope. A name that exists in
    /// an outer scope is shadowed, never overwritten.
    pub fn insert(&mut self, key: String, value: Value)
        requires
            old(self).wf(),
        ensures
            final(self).wf(),
            final(self).scopes@.len() == old(self).scopes@.len(),
            final(self).scopes@.drop_last() == old(self).scopes@.drop_last(),
            final(self).scopes@.last().entries@ == old(self).scopes@.last().entries@.push(
                (key, value),
            ),
            final(self).output == old(self).output,
            final(self).halted == old(self).halted,
            final(self).modules == old(self).modules,
            final(self).lookup(key@) == Option::Some(value),
            forall|n: Seq<char>| n != key@ ==> final(self).lookup(n) == old(self).lookup(n),
    {
        let mut top = self.scopes.pop().unwrap();
        top.entries.push((key, value));
        self.scopes.push(top);
        proof {
            assert(final(self).scopes@.drop_last() =~= old(self).scopes@.drop_last());
            let oldtop = old(self).scopes@.last().entries@;
            let newtop = final(self).scopes@.last().entries@;
            assert(newtop == oldtop.push((key, value)));
            assert(newtop.last() == (key, value));
            assert(newtop.drop_last() =~= oldtop);
            assert forall|n: Seq<char>| n != key@ implies final(self).lookup(n) == old(self).lookup(
                n,
            ) by {
                assert(st_lookup(newtop, n) == st_lookup(oldtop, n));
                assert(final(self).scopes@.drop_last() =~= old(self).scopes@.drop_last());
            }
        }
    }

    /// Whether `name` is bound in any scope.
    pub fn contains_key(&self, name: String) -> (r: bool)
        ensures
            r == (self.lookup(name@) is Some),
    {
        self.get(&name).is_some()
    }

    /// The value bound to `name`, innermost scope first.
    pub fn get<'a>(&'a self, name: &String) -> (r: Option<&'a Value>)
        ensures
            match r {
                Option::Some(v) => self.lookup(name@) == Option::Some(*v),
                Option::None => self.lookup(name@) is None,
            },
    {
        let mut i: usize = self.scopes.len();
        proof {
            assert(self.scopes@.take(i as int) =~= self.scopes@);
        }
        while i > 0
            invariant
                i <= self.scopes@.len(),
                env_lookup(self.scopes@, name@) == env_lookup(self.scopes@.take(i as int), name@),
            decreases i,
        {
            i = i - 1;
            proof {
                assert(self.scopes@.take(i + 1).last() == self.scopes@[i as int]);
                assert(self.scopes@.take(i + 1).drop_last() =~= self.scopes@.take(i as int));
            }
            match self.scopes[i].get(name) {
                Option::Some(v) => {
                    return Option::Some(v);
                },
                Option::None => {},
            }
        }
        proof {
            assert(self.scopes@.take(0) =~= Seq::<SymTab>::empty());
        }
        Option::None
    }

    /// Rebinds `name` to `value` in place in the innermost scope that binds
    /// it, without creating a shadow, handing back the value it replaced.
    pub fn update(&mut self, name: &String, value: Value) -> (r: Option<Value>)
        ensures
            final(self).scopes@.len() == old(self).scopes@.len(),
            final(self).output == old(self).output,
            final(self).halted == old(self).halted,
            final(self).modules == old(self).modules,
            (r is Some) == (old(self).lookup(name@) is Some),
            r is None ==> *final(self) == *old(self),
            r matches Some(o) ==> old(self).lookup(name@) == Option::Some(o),
            r is Some ==> final(self).lookup(name@) == Option::Some(value),
            forall|n: Seq<char>| n != name@ ==> final(self).lookup(n) == old(self).lookup(n),
    {
        let mut i: usize = self.scopes.len();
        proof {
            assert(self.scopes@.take(i as int) =~= self.scopes@);
        }
        while i > 0
            invariant
                i <= self.scopes@.len(),
                *self == *old(self),
                env_lookup(self.scopes@, name@) == env_lookup(self.scopes@.take(i as int), name@),
                forall|t: int|
                    i <= t < self.scopes@.len() ==> st_lookup(
                        #[trigger] self.scopes@[t].entries@,
                        name@,
                    ) is None,
            decreases i,
        {
            i = i - 1;
            proof {
                assert(self.scopes@.take(i + 1).last() == self.scopes@[i as int]);
                assert(self.scopes@.take(i + 1).drop_last() =~= self.scopes@.take(i as int));
            }
            let found = self.scopes[i].get(name).is_some();
            if found {
                let mut st = self.scopes.remove(i);
                let hit = st.update(name, value);
                self.scopes.insert(i, st);
                proof {
                    assert(self.scopes@ =~= old(self).scopes@.update(i as int, st));
                    lemma_env_update(old(self).scopes@, i as int, st, name@, value);
                    assert(st_lookup(old(self).scopes@[i as int].entries@, name@) == env_lookup(
                        old(self).scopes@.take(i + 1),
                        name@,
                    ));
                }
                return hit;
            }
        }
        proof {
            assert(self.scopes@.take(0) =~= Seq::<SymTab>::empty());
        }
        Option::None
    }

    /// Appends every binding of `bindings` to the base (global) scope, in
    /// order and purely additively, as a module import does.
    pub fn extend(&mut self, bindings: SymTab)
        requires
            old(self).wf(),
        ensures
            final(self).wf(),
            final(self).scopes@.len() == old(self).scopes@.len(),
            final(self).scopes@[0].entries@ == old(self).scopes@[0].entries@
                + bindings.entries@,
            forall|t: int|
                1 <= t < old(self).scopes@.len() ==> final(self).scopes@[t] == old(
                    self,
                ).scopes@[t],
            final(self).output == old(self).output,
            final(self).halted == old(self).halted,
            final(self).modules == old(self).modules,
    {
        let mut base = self.scopes.remove(0);
        let mut rest = bindings;
        base.entries.append(&mut rest.entries);
        self.scopes.insert(0, base);
    }

    /// Records one chunk of program output.
    pub fn emit(&mut self, chunk: String)
        ensures
            final(self).scopes@ == old(self).scopes@,
            final(self).halted == old(self).halted,
            final(self).modules == old(self).modules,
            final(self).output@ == old(self).output@.push(chunk),
    {
        self.output.push(chunk);
    }

    /// Requests that evaluation stop consuming tokens.
    pub fn halt(&mut self)
        ensures
            final(self).scopes@ == old(self).scopes@,
            final(self).output == old(self).output,
            final(self).modules == old(self).modules,
            final(self).halted,
    {
        self.halted = true;
    }

    /// Installs a preloaded module: a host evaluates a module file's
    /// program, collects its top-level bindings, and registers them here
    /// so that an in-program `import` of that name can take them.
    pub fn install_module(&mut self, name: String, bindings: SymTab)
        ensures
            final(self).scopes@ == old(self).scopes@,
            final(self).output == old(self).output,
            final(self).halted == old(self).halted,
            final(self).modules@ == old(self).modules@.push((name, bindings)),
    {
        self.modules.push((name, bindings));
    }

    /// The bindings registered under a module name, if any.
    pub fn find_module<'a>(&'a self, name: &String) -> (r: Option<&'a SymTab>)
        ensures
            match r {
                Option::Some(m) => module_find(self.modules@, name@) == Option::Some(*m),
                Option::None => module_find(self.modules@, name@) is None,
            },
    {
        let mut i: usize = 0;
        proof {
            assert(self.modules@.skip(0) =~= self.modules@);
        }
        while i < self.modules.len()
            invariant
                i <= self.modules@.len(),
                module_find(self.modules@, name@) == module_find(
                    self.modules@.skip(i as int),
                    name@,
                ),
            decreases self.modules@.len() - i,
        {
            proof {
                assert(self.modules@.skip(i as int)[0] == self.modules@[i as int]);
                assert(self.modules@.skip(i as int).skip(1) =~= self.modules@.skip(i + 1));
            }
            if self.modules[i].0 == *name {
                return Option::Some(&self.modules[i].1);
            }
            i = i + 1;
        }
        proof {
            assert(self.modules@.skip(self.modules@.len() as int) =~= Seq::<(
                String,
                SymTab,
            )>::empty());
        }
        Option::None
    }
}

/// The first module registered under `name`.
pub open spec fn module_find(mods: Seq<(String, SymTab)>, name: Seq<char>) -> Option<SymTab>
    decreases mods.len(),
{
    if mods.len() == 0 {
        Option::None
    } else if mods[0].0@ == name {
        Option::Some(mods[0].1)
    } else {
        module_find(mods.skip(1), name)
    }
}


/// Rebinding `name` inside scope `i`, when no scope above `i` binds `name`,
/// makes `name` resolve to the new value and leaves every other name's
/// resolution unchanged.
proof fn lemma_env_update(s: Seq<SymTab>, i: int, st2: SymTab, name: Seq<char>, value: Value)
    requires
        0 <= i < s.len(),
        forall|t: int| i < t < s.len() ==> st_lookup(#[trigger] s[t].entries@, name) is None,
        st_lookup(st2.entries@, name) == Option::Some(value),
        forall|n: Seq<char>|
            n != name ==> st_lookup(st2.entries@, n) == st_lookup(s[i].entries@, n),
    ensures
        env_lookup(s.update(i, st2), name) == Option::Some(value),
        forall|n: Seq<char>| n != name ==> env_lookup(s.update(i, st2), n) == env_lookup(s, n),
    decreases s.len(),
{
    let u = s.update(i, st2);
    if i == s.len() - 1 {
        assert(u.last() == st2);
        assert(u.drop_last() =~= s.drop_last());
        assert forall|n: Seq<char>| n != name implies env_lookup(u, n) == env_lookup(s, n) by {
            assert(st_lookup(u.last().entries@, n) == st_lookup(s.last().entries@, n));
        }
    } else {
        assert(u.last() == s.last());
        assert(u.drop_last() =~= s.drop_last().update(i, st2));
        assert(s.drop_last()[i] == s[i]);
        lemma_env_update(s.drop_last(), i, st2, name, value);
        assert(st_lookup(s.last().entries@, name) is None);
        assert forall|n: Seq<char>| n != name implies env_lookup(u, n) == env_lookup(s, n) by {
            assert(env_lookup(s.drop_last().update(i, st2), n) == env_lookup(s.drop_last(), n));
        }
    }
}

/// Law: binding a name inside a freshly pushed scope and then popping that
/// scope restores the outer environment untouched; in particular the outer
/// binding of that very name is unaffected by the inner shadow.
pub proof fn lemma_shadowing(
    pre: Environment,
    pushed: Environment,
    bound: Environment,
    popped: Environment,
    name: String,
    value: Value,
)
    requires
        pre.wf(),
        pushed.scopes@.len() == pre.scopes@.len() + 1,
        pushed.scopes@.drop_last() == pre.scopes@,
        pushed.scopes@.last().entries@.len() == 0,
        bound.scopes@.len() == pushed.scopes@.len(),
        bound.scopes@.drop_last() == pushed.scopes@.drop_last(),
        bound.scopes@.last().entries@ == pushed.scopes@.last().entries@.push((name, value)),
        popped.scopes@ == bound.scopes@.drop_last(),
    ensures
        popped.scopes@ == pre.scopes@,
        forall|n: Seq<char>| popped.lookup(n) == pre.lookup(n),
        popped.lookup(name@) == pre.lookup(name@),
{
}

} // verus!
