//! The store: a mapping from text keys to typed values.

use vstd::prelude::*;

verus! {

use crate::types::{TypedValue, ValueModel};

/// First-match lookup over the underlying entry sequence.
pub open spec fn entries_lookup(
    s: Seq<(String, TypedValue)>,
    k: Seq<char>,
) -> Option<ValueModel>
    decreases s.len(),
{
    if s.len() == 0 {
        None
    } else if s[0].0@ == k {
        Some(s[0].1@)
    } else {
        entries_lookup(s.drop_first(), k)
    }
}

/// The store.  Modelled as a map from key characters to value models;
/// insertion order is not observable through the contracts.
pub struct Database {
    entries: Vec<(String, TypedValue)>,
}

impl View for Database {
    type V = Map<Seq<char>, ValueModel>;

    closed spec fn view(&self) -> Map<Seq<char>, ValueModel> {
        Map::new(
            |k: Seq<char>| entries_lookup(self.entries@, k) is Some,
            |k: Seq<char>| entries_lookup(self.entries@, k)->Some_0,
        )
    }
}

/// Appending an entry only affects lookups that found nothing before.
proof fn lemma_lookup_push(s: Seq<(String, TypedValue)>, p: (String, TypedValue), k: Seq<char>)
    ensures
        entries_lookup(s.push(p), k) == (match entries_lookup(s, k) {
            Some(v) => Some(v),
            None => if p.0@ == k {
                Some(p.1@)
            } else {
                None
            },
        }),
    decreases s.len(),
{
    reveal_with_fuel(entries_lookup, 3);
    assert(s.push(p)[0] == if s.len() == 0 { p } else { s[0] });
    if s.len() == 0 {
        assert(s.push(p).drop_first() =~= Seq::<(String, TypedValue)>::empty());
    } else {
        assert(s.push(p).drop_first() =~= s.drop_first().push(p));
        lemma_lookup_push(s.drop_first(), p, k);
    }
}

/// Replacing the entry at the first index that holds a key only changes
/// lookups of that key.
proof fn lemma_lookup_update(
    s: Seq<(String, TypedValue)>,
    i: int,
    p: (String, TypedValue),
    k: Seq<char>,
)
    requires
        0 <= i < s.len(),
        s[i].0@ == p.0@,
        forall|j: int| 0 <= j < i ==> s[j].0@ != p.0@,
    ensures
        entries_lookup(s.update(i, p), k) == (if p.0@ == k {
            Some(p.1@)
        } else {
            entries_lookup(s, k)
        }),
    decreases s.len(),
{
    if i == 0 {
        assert(s.update(0, p)[0] == p);
        assert(s.update(0, p).drop_first() =~= s.drop_first());
    } else {
        assert(s.update(i, p)[0] == s[0]);
        assert(s.update(i, p).drop_first() =~= s.drop_first().update(i - 1, p));
        lemma_lookup_update(s.drop_first(), i - 1, p, k);
    }
}

impl Database {
    /// An empty store.
    pub fn new() -> (r: Database)
        ensures
            r@ == Map::<Seq<char>, ValueModel>::empty(),
    {
        let r = Database { entries: Vec::new() };
        proof {
            assert(r@ =~= Map::<Seq<char>, ValueModel>::empty());
        }
        r
    }

    /// Insert-or-replace: afterwards the key maps to the given value and
    /// every other key is unchanged.
    pub fn set(&mut self, key: &str, value: TypedValue)
        ensures
            final(self)@ == old(self)@.insert(key@, value@),
    {
        let key_owned: String = key.to_owned();
        let n = self.entries.len();
        for i in 0..n
            invariant
                n == self.entries.len(),
                self.entries == old(self).entries,
                key_owned@ == key@,
                forall|j: int| 0 <= j < i ==> self.entries@[j].0@ != key@,
        {
            if self.entries[i].0 == key_owned {
                let p = (key_owned, value);
                proof {
                    lemma_lookup_update_all(self.entries@, i as int, p);
                }
                self.entries[i] = p;
                proof {
                    assert(self@ =~= old(self)@.insert(key@, value@));
                }
                return;
            }
        }
        let p = (key_owned, value);
        proof {
            lemma_lookup_none(self.entries@, key@);
            lemma_lookup_push_all(self.entries@, p);
        }
        self.entries.push(p);
        proof {
            assert(self@ =~= old(self)@.insert(key@, value@));
        }
    }

    /// Lookup by key: the stored value, or the missing signal for a key
    /// that no `set` has stored.
    pub fn get(&self, key: &str) -> (r: Option<&TypedValue>)
        ensures
            match r {
                Some(v) => self@.contains_key(key@) && v@ == self@[key@],
                None => !self@.contains_key(key@),
            },
    {
        let key_owned: String = key.to_owned();
        let n = self.entries.len();
        for i in 0..n
            invariant
                n == self.entries.len(),
                key_owned@ == key@,
                forall|j: int| 0 <= j < i ==> self.entries@[j].0@ != key@,
        {
            if self.entries[i].0 == key_owned {
                proof {
                    lemma_lookup_found(self.entries@, i as int, key@);
                }
                return Some(&self.entries[i].1);
            }
        }
        proof {
            lemma_lookup_none(self.entries@, key@);
        }
        None
    }
}

/// The lookup outcome over the store model: the value, or the missing
/// signal.
pub open spec fn lookup_model(m: Map<Seq<char>, ValueModel>, k: Seq<char>) -> Option<ValueModel> {
    if m.contains_key(k) {
        Some(m[k])
    } else {
        None
    }
}

/// Store idempotence: after storing a value under a key, looking the key up
/// yields exactly that value.  `Database::set` establishes the insertion and
/// `Database::get` reads the map, so the law carries over to the two calls.
pub proof fn lemma_store_idempotence(m: Map<Seq<char>, ValueModel>, k: Seq<char>, v: ValueModel)
    ensures
        m.insert(k, v).contains_key(k),
        m.insert(k, v)[k] == v,
{
}

/// Store overwrite: storing twice under one key leaves the second value.
pub proof fn lemma_store_overwrite(
    m: Map<Seq<char>, ValueModel>,
    k: Seq<char>,
    v1: ValueModel,
    v2: ValueModel,
)
    ensures
        m.insert(k, v1).insert(k, v2).contains_key(k),
        m.insert(k, v1).insert(k, v2)[k] == v2,
{
}

/// Missing lookup: a fresh store holds no key, and storing under one key
/// does not make any other key appear; with `Database::get`'s contract,
/// a key that was never set therefore looks up to the missing signal.
pub proof fn lemma_missing_lookup(
    m: Map<Seq<char>, ValueModel>,
    k: Seq<char>,
    k2: Seq<char>,
    v: ValueModel,
)
    requires
        !m.contains_key(k),
        k2 != k,
    ensures
        !Map::<Seq<char>, ValueModel>::empty().contains_key(k),
        !m.insert(k2, v).contains_key(k),
{
}

/// A key that matches no entry looks up to nothing.
proof fn lemma_lookup_none(s: Seq<(String, TypedValue)>, k: Seq<char>)
    requires
        forall|j: int| 0 <= j < s.len() ==> s[j].0@ != k,
    ensures
        entries_lookup(s, k) is None,
    decreases s.len(),
{
    if s.len() > 0 {
        lemma_lookup_none(s.drop_first(), k);
    }
}

/// The first index that holds a key determines its lookup.
proof fn lemma_lookup_found(s: Seq<(String, TypedValue)>, i: int, k: Seq<char>)
    requires
        0 <= i < s.len(),
        s[i].0@ == k,
        forall|j: int| 0 <= j < i ==> s[j].0@ != k,
    ensures
        entries_lookup(s, k) == Some(s[i].1@),
    decreases s.len(),
{
    if i > 0 {
        lemma_lookup_found(s.drop_first(), i - 1, k);
    }
}

proof fn lemma_lookup_push_all(s: Seq<(String, TypedValue)>, p: (String, TypedValue))
    ensures
        forall|k: Seq<char>| #[trigger] entries_lookup(s.push(p), k) == (match entries_lookup(
            s,
            k,
        ) {
            Some(v) => Some(v),
            None => if p.0@ == k {
                Some(p.1@)
            } else {
                None
            },
        }),
{
    assert forall|k: Seq<char>| #[trigger] entries_lookup(s.push(p), k) == (match entries_lookup(
        s,
        k,
    ) {
        Some(v) => Some(v),
        None => if p.0@ == k {
            Some(p.1@)
        } else {
            None
        },
    }) by {
        lemma_lookup_push(s, p, k);
    }
}

proof fn lemma_lookup_update_all(s: Seq<(String, TypedValue)>, i: int, p: (String, TypedValue))
    requires
        0 <= i < s.len(),
        s[i].0@ == p.0@,
        forall|j: int| 0 <= j < i ==> s[j].0@ != p.0@,
    ensures
        forall|k: Seq<char>| #[trigger] entries_lookup(s.update(i, p), k) == (if p.0@ == k {
            Some(p.1@)
        } else {
            entries_lookup(s, k)
        }),
{
    assert forall|k: Seq<char>| #[trigger] entries_lookup(s.update(i, p), k) == (if p.0@ == k {
        Some(p.1@)
    } else {
        entries_lookup(s, k)
    }) by {
        lemma_lookup_update(s, i, p, k);
    }
}

} // verus!
