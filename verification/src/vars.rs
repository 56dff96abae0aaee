//! The table of parsed entries: a mapping from keys to values with unique
//! keys, viewed in specifications as a `Map<Seq<char>, Seq<char>>`.

use vstd::prelude::*;
use vstd::pervasive::VecAdditionalExecFns;

use crate::text::str_eq;

verus! {

/// The pairs of an entry list as character sequences.
pub open spec fn list_of(entries: Seq<(String, String)>) -> Seq<(Seq<char>, Seq<char>)> {
    entries.map_values(|p: (String, String)| (p.0@, p.1@))
}

/// No two pairs of the list share a key.
pub open spec fn keys_distinct(l: Seq<(Seq<char>, Seq<char>)>) -> bool {
    forall|i: int, j: int| 0 <= i < j < l.len() ==> l[i].0 != l[j].0
}

/// The mapping that a list of pairs denotes: each pair inserted in order,
/// so a later pair with the same key overrides an earlier one.
pub open spec fn map_of(l: Seq<(Seq<char>, Seq<char>)>) -> Map<Seq<char>, Seq<char>>
    decreases l.len(),
{
    if l.len() == 0 {
        Map::empty()
    } else {
        map_of(l.drop_last()).insert(l.last().0, l.last().1)
    }
}

/// Some pair among the first `n` of the list has key `k`.
pub open spec fn key_in_prefix(l: Seq<(Seq<char>, Seq<char>)>, n: int, k: Seq<char>) -> bool {
    exists|j: int| 0 <= j < n && l[j].0 == k
}

pub proof fn lemma_map_of_dom(l: Seq<(Seq<char>, Seq<char>)>, k: Seq<char>)
    ensures
        map_of(l).dom().contains(k) <==> key_in_prefix(l, l.len() as int, k),
    decreases l.len(),
{
    if l.len() > 0 {
        lemma_map_of_dom(l.drop_last(), k);
        if map_of(l).dom().contains(k) {
            if k == l.last().0 {
                assert(l[l.len() - 1].0 == k);
            } else {
                let j = choose|j: int| 0 <= j < l.len() - 1 && l.drop_last()[j].0 == k;
                assert(l[j].0 == k);
            }
        }
        if key_in_prefix(l, l.len() as int, k) {
            let j = choose|j: int| 0 <= j < l.len() && l[j].0 == k;
            if j < l.len() - 1 {
                assert(l.drop_last()[j].0 == k);
            }
        }
    }
}

pub proof fn lemma_map_of_contains(l: Seq<(Seq<char>, Seq<char>)>, i: int)
    requires
        keys_distinct(l),
        0 <= i < l.len(),
    ensures
        map_of(l).contains_pair(l[i].0, l[i].1),
    decreases l.len(),
{
    if i == l.len() - 1 {
    } else {
        assert(keys_distinct(l.drop_last()));
        assert(l.drop_last()[i] == l[i]);
        lemma_map_of_contains(l.drop_last(), i);
        assert(l[i].0 != l.last().0);
    }
}

pub proof fn lemma_map_of_update(l: Seq<(Seq<char>, Seq<char>)>, i: int, kv: (Seq<char>, Seq<char>))
    requires
        keys_distinct(l),
        0 <= i < l.len(),
        kv.0 == l[i].0,
    ensures
        map_of(l.update(i, kv)) == map_of(l).insert(kv.0, kv.1),
    decreases l.len(),
{
    let u = l.update(i, kv);
    if i == l.len() - 1 {
        assert(u.drop_last() =~= l.drop_last());
        assert(u.last() == kv);
        assert(map_of(l.drop_last()).insert(kv.0, kv.1) =~= map_of(l).insert(kv.0, kv.1));
    } else {
        assert(keys_distinct(l.drop_last()));
        assert(l.drop_last()[i] == l[i]);
        lemma_map_of_update(l.drop_last(), i, kv);
        assert(u.drop_last() =~= l.drop_last().update(i, kv));
        assert(u.last() == l.last());
        assert(l.last().0 != kv.0);
        assert(map_of(l.drop_last()).insert(kv.0, kv.1).insert(l.last().0, l.last().1) =~= map_of(
            l,
        ).insert(kv.0, kv.1));
    }
}

/// The table of entries loaded from a `.env` file: keys are unique; in
/// specifications the table is the mapping from key to value.
#[derive(Debug)]
pub struct EnvroVars {
    entries: Vec<(String, String)>,
}

impl View for EnvroVars {
    type V = Map<Seq<char>, Seq<char>>;

    closed spec fn view(&self) -> Map<Seq<char>, Seq<char>> {
        map_of(self.list())
    }
}

impl EnvroVars {
    /// The entries as (key, value) character sequences, in insertion order.
    pub closed spec fn list(&self) -> Seq<(Seq<char>, Seq<char>)> {
        list_of(self.entries@)
    }

    #[verifier::type_invariant]
    spec fn wf(&self) -> bool {
        keys_distinct(self.list())
    }

    /// An empty table.
    pub fn new() -> (r: EnvroVars)
        ensures
            r@ == Map::<Seq<char>, Seq<char>>::empty(),
            r.list() == Seq::<(Seq<char>, Seq<char>)>::empty(),
    {
        let r = EnvroVars { entries: Vec::new() };
        proof {
            assert(r.list() =~= Seq::<(Seq<char>, Seq<char>)>::empty());
        }
        r
    }

    /// The number of entries. Its contract also records how the entry list
    /// and the map view correspond.
    pub fn len(&self) -> (n: usize)
        ensures
            n == self.list().len(),
            keys_distinct(self.list()),
            forall|i: int|
                0 <= i < self.list().len() ==> self@.contains_pair(
                    #[trigger] self.list()[i].0,
                    self.list()[i].1,
                ),
            forall|k: Seq<char>|
                #[trigger] self@.dom().contains(k) <==> key_in_prefix(
                    self.list(),
                    self.list().len() as int,
                    k,
                ),
    {
        proof {
            use_type_invariant(self);
            lemma_map_of_dom(self.list(), Seq::empty());
            assert forall|i: int| 0 <= i < self.list().len() implies self@.contains_pair(
                #[trigger] self.list()[i].0,
                self.list()[i].1,
            ) by {
                lemma_map_of_contains(self.list(), i);
            }
            assert forall|k: Seq<char>| #[trigger]
                self@.dom().contains(k) <==> key_in_prefix(
                    self.list(),
                    self.list().len() as int,
                    k,
                ) by {
                lemma_map_of_dom(self.list(), k);
            }
        }
        self.entries.len()
    }

    /// The key of the entry at the given position.
    pub fn key_at(&self, i: usize) -> (r: &String)
        requires
            i < self.list().len(),
        ensures
            r@ == self.list()[i as int].0,
    {
        &self.entries[i].0
    }

    /// The value of the entry at the given position.
    pub fn value_at(&self, i: usize) -> (r: &String)
        requires
            i < self.list().len(),
        ensures
            r@ == self.list()[i as int].1,
    {
        &self.entries[i].1
    }

    /// Looks a key up; yields its value exactly when the table holds the
    /// key.
    pub fn get(&self, key: &str) -> (r: Option<&String>)
        ensures
            match r {
                Some(v) => self@.dom().contains(key@) && v@ == self@[key@],
                None => !self@.dom().contains(key@),
            },
    {
        proof {
            use_type_invariant(self);
        }
        let n = self.entries.len();
        let mut i: usize = 0;
        while i < n
            invariant
                n == self.entries.len(),
                i <= n,
                keys_distinct(self.list()),
                forall|j: int| 0 <= j < i ==> self.list()[j].0 != key@,
            decreases n - i,
        {
            if str_eq(self.entries[i].0.as_str(), key) {
                proof {
                    lemma_map_of_contains(self.list(), i as int);
                }
                return Some(&self.entries[i].1);
            }
            i = i + 1;
        }
        proof {
            lemma_map_of_dom(self.list(), key@);
        }
        None
    }

    /// Whether the table holds the key.
    pub fn contains_key(&self, key: &str) -> (r: bool)
        ensures
            r == self@.dom().contains(key@),
    {
        self.get(key).is_some()
    }

    /// Adds an entry; an entry already present under the same key has its
    /// value replaced.
    pub fn insert(&mut self, key: String, value: String)
        ensures
            final(self)@ == old(self)@.insert(key@, value@),
    {
        proof {
            use_type_invariant(&*self);
        }
        let ghost old_list = self.list();
        let mut entries: Vec<(String, String)> = Vec::new();
        core::mem::swap(&mut entries, &mut self.entries);
        proof {
            assert(self.list() =~= Seq::<(Seq<char>, Seq<char>)>::empty());
            assert(list_of(entries@) == old_list);
        }
        let n = entries.len();
        let mut at: usize = n;
        let mut i: usize = 0;
        while i < n
            invariant
                n == entries.len(),
                i <= n,
                list_of(entries@) == old_list,
                at == n || (at < i && old_list[at as int].0 == key@),
                at == n ==> forall|j: int| 0 <= j < i ==> old_list[j].0 != key@,
            decreases n - i,
        {
            if at == n && str_eq(entries[i].0.as_str(), key.as_str()) {
                at = i;
            }
            i = i + 1;
        }
        if at < n {
            entries.set(at, (key, value));
            proof {
                assert(list_of(entries@) =~= old_list.update(
                    at as int,
                    (key@, value@),
                ));
                lemma_map_of_update(old_list, at as int, (key@, value@));
                assert(keys_distinct(list_of(entries@)));
            }
        } else {
            entries.push((key, value));
            proof {
                let new_list = list_of(entries@);
                assert(new_list.drop_last() =~= old_list);
                assert(new_list.last() == (key@, value@));
                assert forall|a: int, b: int|
                    0 <= a < b < new_list.len() implies new_list[a].0 != new_list[b].0 by {
                    assert(new_list[a] == old_list[a]);
                    if b < new_list.len() - 1 {
                        assert(new_list[b] == old_list[b]);
                    } else {
                        assert(new_list[b].0 == key@);
                    }
                }
                assert(keys_distinct(new_list));
            }
        }
        self.entries = entries;
    }
}

} // verus!
