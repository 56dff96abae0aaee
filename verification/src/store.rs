//! Injection of parsed entries into an environment store: the two
//! precedence policies and an in-memory store they are proved against.

use vstd::prelude::*;
use vstd::string::StrSliceExecFns;

use crate::vars::{key_in_prefix, keys_distinct, EnvroVars};

verus! {

/// What a loaded entry does to a pre-existing environment value.
#[derive(Clone, Copy, Debug, PartialEq, Eq, Structural)]
pub enum Policy {
    /// Every loaded key is written, replacing any pre-existing value.
    Override,
    /// A loaded key is written only when the store holds no value for it,
    /// or holds an empty one; a non-empty pre-existing value wins.
    Preserve,
}

/// An in-memory environment store offering the two operations the loader
/// needs: `get` and `set`. In specifications it is the mapping from
/// variable name to value; an absent name is not in the domain.
#[derive(Debug)]
pub struct MemEnv {
    vars: EnvroVars,
}

impl View for MemEnv {
    type V = Map<Seq<char>, Seq<char>>;

    closed spec fn view(&self) -> Map<Seq<char>, Seq<char>> {
        self.vars@
    }
}

impl MemEnv {
    /// A store with nothing set.
    pub fn new() -> (r: MemEnv)
        ensures
            r@ == Map::<Seq<char>, Seq<char>>::empty(),
    {
        MemEnv { vars: EnvroVars::new() }
    }

    /// The value of a variable, if it is set.
    pub fn get(&self, key: &str) -> (r: Option<&String>)
        ensures
            match r {
                Some(v) => self@.dom().contains(key@) && v@ == self@[key@],
                None => !self@.dom().contains(key@),
            },
    {
        self.vars.get(key)
    }

    /// Sets a variable, replacing any earlier value.
    pub fn set(&mut self, key: String, value: String)
        ensures
            final(self)@ == old(self)@.insert(key@, value@),
    {
        self.vars.insert(key, value);
    }
}

/// The value a store holds for `k`, or `None` when `k` is not set.
pub open spec fn map_at(m: Map<Seq<char>, Seq<char>>, k: Seq<char>) -> Option<Seq<char>> {
    if m.dom().contains(k) {
        Some(m[k])
    } else {
        None
    }
}

/// Whether a loaded value is written over the current one: always under
/// `Override`; under `Preserve` only when no current value is set or the
/// set one is empty.
pub open spec fn spec_should_apply(policy: Policy, current: Option<Seq<char>>) -> bool {
    ||| policy is Override
    ||| current is None
    ||| current matches Some(c) && c.len() == 0
}

/// The view of an optional borrowed string.
pub open spec fn view_opt(current: Option<&String>) -> Option<Seq<char>> {
    match current {
        Some(s) => Some(s@),
        None => None,
    }
}

/// The per-key decision of the loader.
pub fn should_apply(policy: Policy, current: Option<&String>) -> (r: bool)
    ensures
        r == spec_should_apply(policy, view_opt(current)),
{
    match policy {
        Policy::Override => true,
        Policy::Preserve => match current {
            None => true,
            Some(s) => s.as_str().unicode_len() == 0,
        },
    }
}

/// What loading a table leaves at key `k`: a key outside the table is
/// untouched; a key of the table gets the loaded value, except that under
/// `Preserve` a non-empty pre-existing value is kept.
pub open spec fn loaded_at(
    before: Map<Seq<char>, Seq<char>>,
    after: Map<Seq<char>, Seq<char>>,
    table: Map<Seq<char>, Seq<char>>,
    policy: Policy,
    k: Seq<char>,
) -> bool {
    if !table.dom().contains(k) {
        map_at(after, k) == map_at(before, k)
    } else if policy is Override {
        map_at(after, k) == Some(table[k])
    } else if map_at(before, k) matches Some(cur) && cur.len() > 0 {
        map_at(after, k) == map_at(before, k)
    } else {
        map_at(after, k) == Some(table[k])
    }
}

/// One loaded entry has been applied to the store under the policy.
spec fn entry_loaded(
    before: Map<Seq<char>, Seq<char>>,
    after: Map<Seq<char>, Seq<char>>,
    e: (Seq<char>, Seq<char>),
    policy: Policy,
) -> bool {
    if policy is Override {
        map_at(after, e.0) == Some(e.1)
    } else if map_at(before, e.0) matches Some(cur) && cur.len() > 0 {
        map_at(after, e.0) == map_at(before, e.0)
    } else {
        map_at(after, e.0) == Some(e.1)
    }
}

/// Injects every entry of the table into the store under the policy:
/// under `Override` each loaded key ends at its loaded value; under
/// `Preserve` a key whose pre-existing value is non-empty keeps it, and
/// any other loaded key ends at its loaded value. Keys absent from the
/// table are untouched.
pub fn load_into(vars: &EnvroVars, policy: Policy, env: &mut MemEnv)
    ensures
        forall|k: Seq<char>| loaded_at(old(env)@, final(env)@, vars@, policy, k),
{
    let ghost lst = vars.list();
    let ghost before = env@;
    let n = vars.len();
    let mut i: usize = 0;
    while i < n
        invariant
            n == lst.len(),
            lst == vars.list(),
            i <= n,
            keys_distinct(lst),
            forall|a: int|
                0 <= a < lst.len() ==> vars@.contains_pair(#[trigger] lst[a].0, lst[a].1),
            forall|k: Seq<char>|
                #[trigger] vars@.dom().contains(k) <==> key_in_prefix(lst, lst.len() as int, k),
            forall|k: Seq<char>|
                !key_in_prefix(lst, i as int, k) ==> map_at(env@, k) == map_at(before, k),
            forall|a: int| 0 <= a < i ==> entry_loaded(before, env@, #[trigger] lst[a], policy),
        decreases n - i,
    {
        let ghost prev = env@;
        let key = vars.key_at(i);
        let value = vars.value_at(i);
        let apply = should_apply(policy, env.get(key.as_str()));
        proof {
            assert(!key_in_prefix(lst, i as int, key@));
            assert(map_at(prev, key@) == map_at(before, key@));
        }
        if apply {
            env.set(key.clone(), value.clone());
        }
        proof {
            assert forall|k: Seq<char>|
                !key_in_prefix(lst, i as int + 1, k) implies map_at(env@, k) == map_at(
                before,
                k,
            ) by {
                assert(!key_in_prefix(lst, i as int, k));
                assert(k != lst[i as int].0);
            }
            assert forall|a: int| 0 <= a < i + 1 implies entry_loaded(
                before,
                env@,
                #[trigger] lst[a],
                policy,
            ) by {
                if a < i {
                    assert(lst[a].0 != lst[i as int].0);
                }
            }
        }
        i = i + 1;
    }
    proof {
        assert forall|k: Seq<char>| loaded_at(before, env@, vars@, policy, k) by {
            if vars@.dom().contains(k) {
                let a = choose|a: int| 0 <= a < lst.len() && lst[a].0 == k;
                assert(entry_loaded(before, env@, lst[a], policy));
                assert(vars@.contains_pair(lst[a].0, lst[a].1));
            } else {
                assert(!key_in_prefix(lst, lst.len() as int, k));
            }
        }
    }
}

} // verus!
