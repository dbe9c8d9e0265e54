//! The members of an object: finding the value under a key, and putting a
//! value under a key so that sorted keys stay sorted.

use vstd::prelude::*;
use crate::json::{Json, JsonView, Member, members_view, sorted_keys};
use crate::text::{
    key_less,
    key_lt,
    lemma_key_lt_connected,
    lemma_key_lt_irreflexive,
    lemma_key_lt_transitive,
};

verus! {

/// The members of an object, as the model holds them.
pub type Entries = Seq<(Seq<char>, JsonView)>;

/// The index of the first member with the given key, or the number of
/// members if none has it.
pub open spec fn index_of(entries: Entries, key: Seq<char>) -> int
    decreases entries.len(),
{
    if entries.len() == 0 || entries[0].0 == key {
        0
    } else {
        1 + index_of(entries.drop_first(), key)
    }
}

/// The value of the first member with the given key, if there is one.
pub open spec fn lookup(entries: Entries, key: Seq<char>) -> Option<JsonView> {
    let at = index_of(entries, key);
    if at < entries.len() {
        Some(entries[at].1)
    } else {
        None
    }
}

/// The place where a new key goes: the index of the first member whose key
/// comes after it, or the number of members if none does.
pub open spec fn place(entries: Entries, key: Seq<char>) -> int
    decreases entries.len(),
{
    if entries.len() == 0 || key_lt(key, entries[0].0) {
        0
    } else {
        1 + place(entries.drop_first(), key)
    }
}

/// The members after a value was put under a key: the first member with that
/// key gets the value; if there is none, a new member goes in at the key's
/// place.
pub open spec fn put(entries: Entries, key: Seq<char>, value: JsonView) -> Entries {
    let at = index_of(entries, key);
    if at < entries.len() {
        entries.update(at, (key, value))
    } else {
        entries.insert(place(entries, key), (key, value))
    }
}

/// What `index_of` returns: no member before it has the key, and the member
/// at it, if any, has.
pub proof fn lemma_index_of(entries: Entries, key: Seq<char>)
    ensures
        0 <= index_of(entries, key) <= entries.len(),
        forall|j: int| 0 <= j < index_of(entries, key) ==> (#[trigger] entries[j]).0 != key,
        index_of(entries, key) < entries.len() ==> entries[index_of(entries, key)].0 == key,
    decreases entries.len(),
{
    if !(entries.len() == 0 || entries[0].0 == key) {
        let rest = entries.drop_first();
        lemma_index_of(rest, key);
        assert forall|j: int| 0 <= j < index_of(entries, key) implies (#[trigger] entries[j]).0
            != key by {
            if j > 0 {
                assert(entries[j] == rest[j - 1]);
            }
        }
        assert(index_of(entries, key) < entries.len() ==> entries[index_of(entries, key)]
            == rest[index_of(rest, key)]);
    }
}

/// An index with the two properties of `index_of` is what it returns.
pub proof fn lemma_index_of_is(entries: Entries, key: Seq<char>, at: int)
    requires
        0 <= at <= entries.len(),
        forall|j: int| 0 <= j < at ==> (#[trigger] entries[j]).0 != key,
        at < entries.len() ==> entries[at].0 == key,
    ensures
        index_of(entries, key) == at,
    decreases entries.len(),
{
    if at > 0 {
        let rest = entries.drop_first();
        assert(entries[0].0 != key);
        assert forall|j: int| 0 <= j < at - 1 implies (#[trigger] rest[j]).0 != key by {
            assert(rest[j] == entries[j + 1]);
        }
        lemma_index_of_is(rest, key, at - 1);
    }
}

/// What `place` returns: no key before it comes after the given key, and the
/// key at it, if any, does.
pub proof fn lemma_place(entries: Entries, key: Seq<char>)
    ensures
        0 <= place(entries, key) <= entries.len(),
        forall|j: int| 0 <= j < place(entries, key) ==> !key_lt(key, (#[trigger] entries[j]).0),
        place(entries, key) < entries.len() ==> key_lt(key, entries[place(entries, key)].0),
    decreases entries.len(),
{
    if !(entries.len() == 0 || key_lt(key, entries[0].0)) {
        let rest = entries.drop_first();
        lemma_place(rest, key);
        assert forall|j: int| 0 <= j < place(entries, key) implies !key_lt(
            key,
            (#[trigger] entries[j]).0,
        ) by {
            if j > 0 {
                assert(entries[j] == rest[j - 1]);
            }
        }
        assert(place(entries, key) < entries.len() ==> entries[place(entries, key)]
            == rest[place(rest, key)]);
    }
}

/// An index with the two properties of `place` is what it returns.
pub proof fn lemma_place_is(entries: Entries, key: Seq<char>, at: int)
    requires
        0 <= at <= entries.len(),
        forall|j: int| 0 <= j < at ==> !key_lt(key, (#[trigger] entries[j]).0),
        at < entries.len() ==> key_lt(key, entries[at].0),
    ensures
        place(entries, key) == at,
    decreases entries.len(),
{
    if at > 0 {
        let rest = entries.drop_first();
        assert(!key_lt(key, entries[0].0));
        assert forall|j: int| 0 <= j < at - 1 implies !key_lt(key, (#[trigger] rest[j]).0) by {
            assert(rest[j] == entries[j + 1]);
        }
        lemma_place_is(rest, key, at - 1);
    }
}

/// After a value was put under a key, it is found there.
pub proof fn lemma_lookup_put_same(entries: Entries, key: Seq<char>, value: JsonView)
    ensures
        lookup(put(entries, key, value), key) == Some(value),
{
    lemma_index_of(entries, key);
    lemma_place(entries, key);
    let at = index_of(entries, key);
    let after = put(entries, key, value);
    if at < entries.len() {
        lemma_index_of_is(after, key, at);
    } else {
        let to = place(entries, key);
        assert forall|j: int| 0 <= j < to implies (#[trigger] after[j]).0 != key by {
            assert(after[j] == entries[j]);
        }
        lemma_index_of_is(after, key, to);
    }
}

/// Putting a value under one key changes nothing under another key.
pub proof fn lemma_lookup_put_other(
    entries: Entries,
    key: Seq<char>,
    value: JsonView,
    other: Seq<char>,
)
    requires
        other != key,
    ensures
        lookup(put(entries, key, value), other) == lookup(entries, other),
{
    lemma_index_of(entries, key);
    lemma_index_of(entries, other);
    lemma_place(entries, key);
    let at = index_of(entries, key);
    let i = index_of(entries, other);
    let after = put(entries, key, value);
    if at < entries.len() {
        lemma_index_of_is(after, other, i);
    } else {
        let to = place(entries, key);
        let k: int = if i < to {
            i
        } else {
            i + 1
        };
        assert forall|j: int| 0 <= j < k implies (#[trigger] after[j]).0 != other by {
            if j < to {
                assert(after[j] == entries[j]);
            } else if j > to {
                assert(after[j] == entries[j - 1]);
            }
        }
        if i < entries.len() {
            assert(after[k] == entries[i]);
        }
        lemma_index_of_is(after, other, k);
    }
}

/// Putting a value under a key keeps strictly increasing keys strictly
/// increasing.
pub proof fn lemma_put_sorted(entries: Entries, key: Seq<char>, value: JsonView)
    requires
        sorted_keys(entries),
    ensures
        sorted_keys(put(entries, key, value)),
{
    lemma_index_of(entries, key);
    lemma_place(entries, key);
    let at = index_of(entries, key);
    let after = put(entries, key, value);
    if at < entries.len() {
        assert forall|i: int, j: int| 0 <= i < j < after.len() implies key_lt(
            #[trigger] after[i].0,
            #[trigger] after[j].0,
        ) by {
            assert(after[i].0 == entries[i].0 && after[j].0 == entries[j].0);
        }
    } else {
        let to = place(entries, key);
        assert forall|i: int, j: int| 0 <= i < j < after.len() implies key_lt(
            #[trigger] after[i].0,
            #[trigger] after[j].0,
        ) by {
            let oi: int = if i < to {
                i
            } else {
                i - 1
            };
            let oj: int = if j < to {
                j
            } else {
                j - 1
            };
            if i != to && j != to {
                assert(after[i] == entries[oi] && after[j] == entries[oj]);
                assert(key_lt(entries[oi].0, entries[oj].0));
            } else if i == to {
                assert(after[j] == entries[oj]);
                if oj > to {
                    assert(key_lt(entries[to].0, entries[oj].0));
                    lemma_key_lt_transitive(key, entries[to].0, entries[oj].0);
                }
            } else {
                assert(after[i] == entries[i]);
                assert(entries[i].0 != key && !key_lt(key, entries[i].0));
                lemma_key_lt_connected(entries[i].0, key);
            }
        }
    }
}

/// What is found after one more member came last: what was found before,
/// or else the value of the new member if it has the key.
pub proof fn lemma_lookup_push(entries: Entries, member: (Seq<char>, JsonView), key: Seq<char>)
    ensures
        lookup(entries.push(member), key) == match lookup(entries, key) {
            Some(value) => Some(value),
            None => if member.0 == key {
                Some(member.1)
            } else {
                None
            },
        },
{
    lemma_index_of(entries, key);
    let at = index_of(entries, key);
    let more = entries.push(member);
    assert forall|j: int| 0 <= j < at implies (#[trigger] more[j]).0 != key by {
        assert(more[j] == entries[j]);
    }
    if at < entries.len() {
        assert(more[at] == entries[at]);
        lemma_index_of_is(more, key, at);
    } else if member.0 == key {
        lemma_index_of_is(more, key, at);
    } else {
        lemma_index_of_is(more, key, at + 1);
    }
}

/// Putting twice under one key is putting the second value.
pub proof fn lemma_put_put_same(entries: Entries, key: Seq<char>, first: JsonView, second: JsonView)
    ensures
        put(put(entries, key, first), key, second) == put(entries, key, second),
{
    lemma_index_of(entries, key);
    lemma_place(entries, key);
    let at = index_of(entries, key);
    let once = put(entries, key, first);
    if at < entries.len() {
        lemma_index_of_is(once, key, at);
        assert(once.update(at, (key, second)) =~= entries.update(at, (key, second)));
    } else {
        let to = place(entries, key);
        assert forall|j: int| 0 <= j < to implies (#[trigger] once[j]).0 != key by {
            assert(once[j] == entries[j]);
        }
        lemma_index_of_is(once, key, to);
        assert(once.update(to, (key, second)) =~= entries.insert(to, (key, second)));
    }
}

/// Where the keys strictly increase, each key is found where it stands.
pub proof fn lemma_index_of_sorted(entries: Entries, at: int)
    requires
        sorted_keys(entries),
        0 <= at < entries.len(),
    ensures
        index_of(entries, entries[at].0) == at,
        lookup(entries, entries[at].0) == Some(entries[at].1),
{
    assert forall|j: int| 0 <= j < at implies (#[trigger] entries[j]).0 != entries[at].0 by {
        assert(key_lt(entries[j].0, entries[at].0));
        lemma_key_lt_irreflexive(entries[at].0);
    }
    lemma_index_of_is(entries, entries[at].0, at);
}

/// Two runs of members with strictly increasing keys are equal if under
/// every key the same is found in both.
pub proof fn lemma_sorted_entries_equal(a: Entries, b: Entries)
    requires
        sorted_keys(a),
        sorted_keys(b),
        forall|key: Seq<char>| #[trigger] lookup(a, key) == lookup(b, key),
    ensures
        a == b,
    decreases a.len(),
{
    if a.len() == 0 {
        if b.len() > 0 {
            lemma_index_of_sorted(b, 0);
            assert(lookup(a, b[0].0) == lookup(b, b[0].0));
        }
        assert(a =~= b);
    } else {
        let key = a[0].0;
        lemma_index_of_sorted(a, 0);
        assert(lookup(a, key) == lookup(b, key));
        lemma_index_of(b, key);
        let j = index_of(b, key);
        lemma_index_of_sorted(b, 0);
        assert(lookup(a, b[0].0) == lookup(b, b[0].0));
        lemma_index_of(a, b[0].0);
        let i = index_of(a, b[0].0);
        if j > 0 {
            assert(key_lt(b[0].0, b[j].0));
            if i > 0 {
                assert(key_lt(a[0].0, a[i].0));
                lemma_key_lt_transitive(a[0].0, a[i].0, a[0].0);
            }
            lemma_key_lt_irreflexive(a[0].0);
        }
        assert(a[0] == b[0]);
        let ta = a.drop_first();
        let tb = b.drop_first();
        assert forall|i: int, j: int| 0 <= i < j < ta.len() implies key_lt(
            #[trigger] ta[i].0,
            #[trigger] ta[j].0,
        ) by {
            assert(ta[i] == a[i + 1] && ta[j] == a[j + 1]);
        }
        assert forall|i: int, j: int| 0 <= i < j < tb.len() implies key_lt(
            #[trigger] tb[i].0,
            #[trigger] tb[j].0,
        ) by {
            assert(tb[i] == b[i + 1] && tb[j] == b[j + 1]);
        }
        assert forall|other: Seq<char>| #[trigger] lookup(ta, other) == lookup(tb, other) by {
            lemma_index_of(ta, other);
            lemma_index_of(tb, other);
            if other == key {
                if index_of(ta, other) < ta.len() {
                    let at = index_of(ta, other);
                    assert(ta[at] == a[at + 1]);
                    assert(key_lt(a[0].0, a[at + 1].0));
                    lemma_key_lt_irreflexive(key);
                }
                if index_of(tb, other) < tb.len() {
                    let at = index_of(tb, other);
                    assert(tb[at] == b[at + 1]);
                    assert(key_lt(b[0].0, b[at + 1].0));
                    lemma_key_lt_irreflexive(key);
                }
            } else {
                assert(lookup(a, other) == lookup(b, other));
                if index_of(ta, other) < ta.len() {
                    assert(ta[index_of(ta, other)] == a[index_of(ta, other) + 1]);
                }
                if index_of(tb, other) < tb.len() {
                    assert(tb[index_of(tb, other)] == b[index_of(tb, other) + 1]);
                }
            }
        }
        lemma_sorted_entries_equal(ta, tb);
        assert(a =~= seq![a[0]] + ta);
        assert(b =~= seq![b[0]] + tb);
    }
}

/// Where the keys strictly increase, putting under two different keys gives
/// the same in either order.
pub proof fn lemma_put_put_other(
    entries: Entries,
    key: Seq<char>,
    value: JsonView,
    other: Seq<char>,
    other_value: JsonView,
)
    requires
        sorted_keys(entries),
        key != other,
    ensures
        put(put(entries, key, value), other, other_value) == put(
            put(entries, other, other_value),
            key,
            value,
        ),
{
    let a = put(put(entries, key, value), other, other_value);
    let b = put(put(entries, other, other_value), key, value);
    lemma_put_sorted(entries, key, value);
    lemma_put_sorted(put(entries, key, value), other, other_value);
    lemma_put_sorted(entries, other, other_value);
    lemma_put_sorted(put(entries, other, other_value), key, value);
    assert forall|k: Seq<char>| #[trigger] lookup(a, k) == lookup(b, k) by {
        if k == other {
            lemma_lookup_put_same(put(entries, key, value), other, other_value);
            lemma_lookup_put_other(put(entries, other, other_value), key, value, other);
            lemma_lookup_put_same(entries, other, other_value);
        } else if k == key {
            lemma_lookup_put_same(put(entries, other, other_value), key, value);
            lemma_lookup_put_other(put(entries, key, value), other, other_value, key);
            lemma_lookup_put_same(entries, key, value);
        } else {
            lemma_lookup_put_other(put(entries, key, value), other, other_value, k);
            lemma_lookup_put_other(entries, key, value, k);
            lemma_lookup_put_other(put(entries, other, other_value), key, value, k);
            lemma_lookup_put_other(entries, other, other_value, k);
        }
    }
    lemma_sorted_entries_equal(a, b);
}

/// The index of the first member with the given key, if there is one.
pub fn find_member(members: &Vec<Member>, key: &str) -> (r: Option<usize>)
    ensures
        match r {
            Some(at) => at == index_of(members_view(members@), key@) && at < members@.len(),
            None => index_of(members_view(members@), key@) == members@.len(),
        },
{
    let ghost entries = members_view(members@);
    let wanted = key.to_owned();
    let mut i: usize = 0;
    while i < members.len()
        invariant
            i <= members.len(),
            wanted@ == key@,
            entries == members_view(members@),
            forall|j: int| 0 <= j < i ==> (#[trigger] entries[j]).0 != key@,
        decreases members.len() - i,
    {
        if members[i].key == wanted {
            proof {
                lemma_index_of_is(entries, key@, i as int);
            }
            return Some(i);
        }
        i = i + 1;
    }
    proof {
        lemma_index_of_is(entries, key@, i as int);
    }
    None
}

/// The place where a new key goes among the members.
pub fn find_place(members: &Vec<Member>, key: &str) -> (at: usize)
    ensures
        at == place(members_view(members@), key@),
        at <= members@.len(),
{
    let ghost entries = members_view(members@);
    let mut i: usize = 0;
    while i < members.len()
        invariant
            i <= members.len(),
            entries == members_view(members@),
            forall|j: int| 0 <= j < i ==> !key_lt(key@, (#[trigger] entries[j]).0),
        decreases members.len() - i,
    {
        if key_less(key, members[i].key.as_str()) {
            proof {
                lemma_place_is(entries, key@, i as int);
            }
            return i;
        }
        i = i + 1;
    }
    proof {
        lemma_place_is(entries, key@, i as int);
    }
    i
}

/// Puts a value under a key: the first member with that key gets the value;
/// if there is none, a new member goes in at the key's place.
pub fn put_member(members: &mut Vec<Member>, key: String, value: Json)
    ensures
        members_view(final(members)@) == put(members_view(old(members)@), key@, value@),
{
    let ghost entries = members_view(members@);
    let ghost k = key@;
    let ghost v = value@;
    match find_member(members, key.as_str()) {
        Some(at) => {
            members.set(at, Member { key, value });
            assert(members_view(members@) =~= entries.update(at as int, (k, v)));
        },
        None => {
            let at = find_place(members, key.as_str());
            members.insert(at, Member { key, value });
            assert(members_view(members@) =~= entries.insert(at as int, (k, v)));
        },
    }
}

} // verus!
