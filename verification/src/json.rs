//! A JSON document tree, with objects kept as ordered key and value lists.
use vstd::prelude::*;

use crate::text::{
    owned, same_text,
};

verus! {

broadcast use vstd::string::group_string_axioms;

/// A JSON value. Numbers keep their textual form; an object lists its
/// entries, each key at most once.
#[derive(Debug)]
pub enum JsonValue {
    Null,
    Bool(bool),
    Number(String),
    Str(String),
    Array(Vec<JsonValue>),
    Object(Vec<(String, JsonValue)>),
}

/// The value of the first entry with key `key`.
pub open spec fn lookup(entries: Seq<(String, JsonValue)>, key: Seq<char>) -> Option<JsonValue>
    decreases entries.len(),
{
    if entries.len() == 0 {
        None
    } else if entries[0].0@ == key {
        Some(entries[0].1)
    } else {
        lookup(entries.drop_first(), key)
    }
}

/// The keys of an object's entries.
pub open spec fn keys_of(entries: Seq<(String, JsonValue)>) -> Seq<Seq<char>> {
    entries.map_values(|e: (String, JsonValue)| e.0@)
}

/// Whether `v` is the string `s`.
pub open spec fn is_str(v: JsonValue, s: Seq<char>) -> bool {
    v matches JsonValue::Str(t) && t@ == s
}

/// Whether `v` is an object with no entries.
pub open spec fn is_empty_object(v: JsonValue) -> bool {
    v matches JsonValue::Object(e) && e@.len() == 0
}

/// The value under `key` in the object `v`.
pub open spec fn member(v: JsonValue, key: Seq<char>) -> Option<JsonValue> {
    match v {
        JsonValue::Object(entries) => lookup(entries@, key),
        _ => None,
    }
}

fn same_key(a: &String, b: &str) -> (r: bool)
    ensures
        r == (a@ == b@),
{
    same_text(a.as_str(), b)
}

/// Sets `key` to `value` in an entry list: replaces the value of the first
/// entry with that key, else appends the entry.
pub fn object_insert(entries: &mut Vec<(String, JsonValue)>, key: &str, value: JsonValue)
    ensures
        lookup(final(entries)@, key@) == Some(value),
        forall|k: Seq<char>| k != key@ ==> lookup(final(entries)@, k) == lookup(old(entries)@, k),
        forall|k: Seq<char>| keys_of(old(entries)@).contains(k) ==> keys_of(final(entries)@).contains(k),
        forall|k: Seq<char>| keys_of(final(entries)@).contains(k) ==> keys_of(old(entries)@).contains(k) || k == key@,
        keys_of(old(entries)@).no_duplicates() ==> keys_of(final(entries)@).no_duplicates(),
        keys_of(final(entries)@) == if keys_of(old(entries)@).contains(key@) {
            keys_of(old(entries)@)
        } else {
            keys_of(old(entries)@).push(key@)
        },
{
    let ghost e0 = entries@;
    let mut i: usize = 0;
    while i < entries.len()
        invariant
            entries@ == e0,
            e0 == old(entries)@,
            i <= e0.len(),
            forall|j: int| 0 <= j < i ==> e0[j].0@ != key@,
        decreases e0.len() - i,
    {
        if same_key(&entries[i].0, key) {
            let k = entries[i].0.clone();
            entries.set(i, (k, value));
            proof {
                assert forall|kk: Seq<char>| #[trigger] lookup(entries@, kk) == (if kk == key@ { Some(value) } else { lookup(e0, kk) }) by {
                    lemma_lookup_update(e0, i as int, key@, value, kk);
                }
                assert(keys_of(entries@) =~= keys_of(e0));
                assert(keys_of(e0)[i as int] == key@);
            }
            return;
        }
        i = i + 1;
    }
    let entry = (owned(key), value);
    let ghost eg = entry;
    entries.push(entry);
    proof {
        assert forall|kk: Seq<char>| #[trigger] lookup(entries@, kk) == (if kk == key@ { Some(eg.1) } else { lookup(e0, kk) }) by {
            lemma_lookup_push(e0, eg, kk);
        }
        assert(keys_of(entries@) =~= keys_of(e0).push(key@));
        assert(!keys_of(e0).contains(key@)) by {
            if keys_of(e0).contains(key@) {
                let j = choose|j: int| 0 <= j < keys_of(e0).len() && keys_of(e0)[j] == key@;
                assert(e0[j].0@ == key@);
            }
        }
        if keys_of(e0).no_duplicates() {
            assert forall|a: int, b: int|
                0 <= a < keys_of(entries@).len() && 0 <= b < keys_of(entries@).len() && a != b implies keys_of(
                entries@,
            )[a] != keys_of(entries@)[b] by {
                if a < e0.len() && b < e0.len() {
                    assert(keys_of(e0)[a] != keys_of(e0)[b]);
                } else if a < e0.len() {
                    assert(e0[a].0@ != key@);
                } else {
                    assert(e0[b].0@ != key@);
                }
            }
        }
        assert forall|k: Seq<char>| keys_of(entries@).contains(k) implies keys_of(e0).contains(k) || k == key@ by {
            let j = choose|j: int| 0 <= j < keys_of(entries@).len() && keys_of(entries@)[j] == k;
            if j < e0.len() {
                assert(keys_of(e0)[j] == k);
            }
        }
        assert forall|k: Seq<char>| keys_of(e0).contains(k) implies keys_of(entries@).contains(k) by {
            let j = choose|j: int| 0 <= j < keys_of(e0).len() && keys_of(e0)[j] == k;
            assert(keys_of(entries@)[j] == k);
        }
    }
}

proof fn lemma_lookup_update(e: Seq<(String, JsonValue)>, i: int, key: Seq<char>, value: JsonValue, k: Seq<char>)
    requires
        0 <= i < e.len(),
        e[i].0@ == key,
        forall|j: int| 0 <= j < i ==> e[j].0@ != key,
    ensures
        lookup(e.update(i, (e[i].0, value)), k) == if k == key {
            Some(value)
        } else {
            lookup(e, k)
        },
    decreases i,
{
    let u = e.update(i, (e[i].0, value));
    assert(u[0] == (if i == 0 { (e[i].0, value) } else { e[0] }));
    if i > 0 {
        let t = e.drop_first();
        assert(t[i - 1] == e[i]);
        assert(u.drop_first() =~= t.update(i - 1, (t[i - 1].0, value)));
        assert forall|j: int| 0 <= j < i - 1 implies t[j].0@ != key by {
            assert(t[j] == e[j + 1]);
        }
        lemma_lookup_update(t, i - 1, key, value, k);
    } else {
        assert(u.drop_first() =~= e.drop_first());
    }
}

proof fn lemma_lookup_push(e: Seq<(String, JsonValue)>, entry: (String, JsonValue), k: Seq<char>)
    requires
        forall|j: int| 0 <= j < e.len() ==> e[j].0@ != entry.0@,
    ensures
        lookup(e.push(entry), k) == if k == entry.0@ {
            Some(entry.1)
        } else {
            lookup(e, k)
        },
    decreases e.len(),
{
    let u = e.push(entry);
    if e.len() > 0 {
        let t = e.drop_first();
        assert(u.drop_first() =~= t.push(entry));
        assert(u[0] == e[0]);
        assert forall|j: int| 0 <= j < t.len() implies t[j].0@ != entry.0@ by {
            assert(t[j] == e[j + 1]);
        }
        lemma_lookup_push(t, entry, k);
    } else {
        assert(u.drop_first() =~= Seq::<(String, JsonValue)>::empty());
        assert(u[0] == entry);
        assert(lookup(u.drop_first(), k) is None);
    }
}

} // verus!
