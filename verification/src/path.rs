//! The document path engine: reading and writing the value at a path of
//! keys, merging a patch into a document, and matching a document against a
//! condition.

use vstd::prelude::*;
use crate::json::{Json, JsonView, Member, lemma_object_view, members_view};
use crate::object::{
    Entries,
    find_member,
    find_place,
    index_of,
    lemma_index_of,
    lemma_lookup_put_other,
    lemma_lookup_put_same,
    lemma_place,
    lemma_put_sorted,
    lookup,
    place,
    put,
};
use crate::text::{lemma_split_path_nonempty, path_view, split_key, split_path};

verus! {

/// The members of a value: those of an object, and none of any other value.
pub open spec fn entries_of(doc: JsonView) -> Entries {
    match doc {
        JsonView::Object(entries) => entries,
        _ => Seq::empty(),
    }
}

/// The value under a key of a document, or null where the document is no
/// object or has no such key.
pub open spec fn member_or_null(doc: JsonView, key: Seq<char>) -> JsonView {
    match lookup(entries_of(doc), key) {
        Some(value) => value,
        None => JsonView::Null,
    }
}

/// The value at a path: the document itself for the empty path, else the
/// value at the rest of the path in the member under the first key. Null
/// stands for what is absent.
pub open spec fn get_nested(doc: JsonView, path: Seq<Seq<char>>) -> JsonView
    decreases path.len(),
{
    if path.len() == 0 {
        doc
    } else {
        get_nested(member_or_null(doc, path[0]), path.drop_first())
    }
}

/// The document after a value was set at a path. For the empty path it is the
/// value. Else the document's members (none, where it is no object) get,
/// under the first key, what was there before with the value set at the rest
/// of the path.
pub open spec fn set_nested(doc: JsonView, path: Seq<Seq<char>>, value: JsonView) -> JsonView
    decreases path.len(),
{
    if path.len() == 0 {
        value
    } else {
        JsonView::Object(
            put(
                entries_of(doc),
                path[0],
                set_nested(member_or_null(doc, path[0]), path.drop_first(), value),
            ),
        )
    }
}

/// Reading a path after a value was set there gives that value.
pub proof fn lemma_get_after_set(doc: JsonView, path: Seq<Seq<char>>, value: JsonView)
    ensures
        get_nested(set_nested(doc, path, value), path) == value,
    decreases path.len(),
{
    if path.len() > 0 {
        let child = set_nested(member_or_null(doc, path[0]), path.drop_first(), value);
        lemma_lookup_put_same(entries_of(doc), path[0], child);
        lemma_get_after_set(member_or_null(doc, path[0]), path.drop_first(), value);
    }
}

/// The value under a key of a well-formed document is well formed.
pub proof fn lemma_member_wf(doc: JsonView, key: Seq<char>)
    requires
        doc.wf(),
    ensures
        member_or_null(doc, key).wf(),
{
    lemma_index_of(entries_of(doc), key);
}

/// What is read in a well-formed document is well formed.
pub proof fn lemma_get_nested_wf(doc: JsonView, path: Seq<Seq<char>>)
    requires
        doc.wf(),
    ensures
        get_nested(doc, path).wf(),
    decreases path.len(),
{
    if path.len() > 0 {
        lemma_member_wf(doc, path[0]);
        lemma_get_nested_wf(member_or_null(doc, path[0]), path.drop_first());
    }
}

/// Setting a well-formed value in a well-formed document leaves it well
/// formed.
pub proof fn lemma_set_nested_wf(doc: JsonView, path: Seq<Seq<char>>, value: JsonView)
    requires
        doc.wf(),
        value.wf(),
    ensures
        set_nested(doc, path, value).wf(),
    decreases path.len(),
{
    if path.len() > 0 {
        let entries = entries_of(doc);
        let child = set_nested(member_or_null(doc, path[0]), path.drop_first(), value);
        lemma_member_wf(doc, path[0]);
        lemma_set_nested_wf(member_or_null(doc, path[0]), path.drop_first(), value);
        lemma_put_sorted(entries, path[0], child);
        lemma_index_of(entries, path[0]);
        let after = put(entries, path[0], child);
        let at = index_of(entries, path[0]);
        assert forall|i: int| 0 <= i < after.len() implies (#[trigger] after[i]).1.wf() by {
            if at < entries.len() {
                if i != at {
                    assert(after[i] == entries[i]);
                }
            } else {
                let to = place(entries, path[0]);
                lemma_place(entries, path[0]);
                if i < to {
                    assert(after[i] == entries[i]);
                } else if i > to {
                    assert(after[i] == entries[i - 1]);
                }
            }
        }
    }
}

/// Reads the value at a path of keys. Where a step meets a value that is no
/// object, or an object without the key, the result is null.
pub fn get_nested_property<'a>(doc: &'a Json, path: &Vec<String>) -> (found: &'a Json)
    ensures
        found@ == get_nested(doc@, path_view(path@)),
{
    let ghost keys = path_view(path@);
    let mut current: &Json = doc;
    let mut i: usize = 0;
    assert(keys.skip(0) =~= keys);
    while i < path.len()
        invariant
            i <= path.len(),
            keys == path_view(path@),
            get_nested(doc@, keys) == get_nested(current@, keys.skip(i as int)),
        decreases path.len() - i,
    {
        assert(keys.skip(i as int).drop_first() =~= keys.skip(i + 1));
        assert(keys.skip(i as int)[0] == path@[i as int]@);
        current = member_of(current, path[i].as_str());
        i = i + 1;
    }
    current
}

/// The value under a key of a document, or null where the document is no
/// object or has no such key.
pub fn member_of<'a>(doc: &'a Json, key: &str) -> (found: &'a Json)
    ensures
        found@ == member_or_null(doc@, key@),
{
    match doc {
        Json::Object(members) => {
            proof {
                lemma_object_view(*members);
            }
            match find_member(members, key) {
                Some(at) => &members[at].value,
                None => &Json::Null,
            }
        },
        _ => &Json::Null,
    }
}

/// Sets the value at the part of a path that starts at `from`.
fn assign(doc: Json, path: &Vec<String>, from: usize, value: Json) -> (r: Json)
    requires
        from <= path.len(),
    ensures
        r@ == set_nested(doc@, path_view(path@).skip(from as int), value@),
    decreases path.len() - from,
{
    let ghost keys = path_view(path@).skip(from as int);
    if from >= path.len() {
        return value;
    }
    assert(keys.drop_first() =~= path_view(path@).skip(from + 1));
    assert(keys[0] == path@[from as int]@);
    let ghost before = doc@;
    let mut members: Vec<Member> = match doc {
        Json::Object(members) => {
            proof {
                lemma_object_view(members);
            }
            members
        },
        _ => Vec::new(),
    };
    assert(members_view(members@) =~= entries_of(before));
    let ghost entries = members_view(members@);
    let key = path[from].clone();
    match find_member(&members, key.as_str()) {
        Some(at) => {
            let old = members.remove(at);
            let child = assign(old.value, path, from + 1, value);
            let ghost c = child@;
            members.insert(at, Member { key, value: child });
            assert(members_view(members@) =~= entries.update(at as int, (keys[0], c)));
        },
        None => {
            let child = assign(Json::Null, path, from + 1, value);
            let ghost c = child@;
            let at = find_place(&members, key.as_str());
            members.insert(at, Member { key, value: child });
            assert(members_view(members@) =~= entries.insert(at as int, (keys[0], c)));
        },
    }
    proof {
        lemma_object_view(members);
    }
    Json::Object(members)
}

/// Sets the value at a path of keys. At every step a value that is no object
/// gives way to an object, and a missing member is created; for the empty
/// path the document becomes the value.
pub fn set_nested_property(doc: &mut Json, path: &Vec<String>, value: Json)
    ensures
        final(doc)@ == set_nested(old(doc)@, path_view(path@), value@),
        get_nested(final(doc)@, path_view(path@)) == value@,
        old(doc)@.wf() && value@.wf() ==> final(doc)@.wf(),
{
    let mut taken = Json::Null;
    std::mem::swap(doc, &mut taken);
    proof {
        assert(path_view(path@).skip(0) =~= path_view(path@));
        lemma_get_after_set(taken@, path_view(path@), value@);
        if taken@.wf() && value@.wf() {
            lemma_set_nested_wf(taken@, path_view(path@), value@);
        }
    }
    *doc = assign(taken, path, 0, value);
}

/// The target after the given members of a patch were applied, first to
/// last: each sets its value at the path that its dotted key names.
pub open spec fn apply_members(target: JsonView, members: Entries) -> JsonView
    decreases members.len(),
{
    if members.len() == 0 {
        target
    } else {
        set_nested(
            apply_members(target, members.drop_last()),
            split_path(members.last().0),
            members.last().1,
        )
    }
}

/// The target after a patch was merged into it. A patch that is no object
/// has no members and changes nothing.
pub open spec fn merge_patch(target: JsonView, patch: JsonView) -> JsonView {
    apply_members(target, entries_of(patch))
}

/// Applying well-formed members to a well-formed target leaves it well
/// formed.
pub proof fn lemma_apply_members_wf(target: JsonView, members: Entries)
    requires
        target.wf(),
        forall|i: int| 0 <= i < members.len() ==> (#[trigger] members[i]).1.wf(),
    ensures
        apply_members(target, members).wf(),
    decreases members.len(),
{
    if members.len() > 0 {
        let init = members.drop_last();
        assert forall|i: int| 0 <= i < init.len() implies (#[trigger] init[i]).1.wf() by {
            assert(init[i] == members[i]);
        }
        lemma_apply_members_wf(target, init);
        assert(members.last() == members[members.len() - 1]);
        lemma_set_nested_wf(
            apply_members(target, init),
            split_path(members.last().0),
            members.last().1,
        );
    }
}

/// Merging a well-formed patch into a well-formed target leaves it well
/// formed.
pub proof fn lemma_merge_patch_wf(target: JsonView, patch: JsonView)
    requires
        target.wf(),
        patch.wf(),
    ensures
        merge_patch(target, patch).wf(),
{
    lemma_apply_members_wf(target, entries_of(patch));
}

/// Merges a patch into a target: for every member of the patch, first to
/// last, the value is set at the path that the dotted key names. In a
/// well-formed patch the members stand in the order of their keys. The
/// patch must be an object.
pub fn update_nested_object(target: &mut Json, source: &Json)
    requires
        source@ is Object,
    ensures
        final(target)@ == merge_patch(old(target)@, source@),
        old(target)@.wf() && source@.wf() ==> final(target)@.wf(),
{
    proof {
        if old(target)@.wf() && source@.wf() {
            lemma_merge_patch_wf(old(target)@, source@);
        }
    }
    match source {
        Json::Object(members) => {
            proof {
                lemma_object_view(*members);
            }
            let ghost entries = members_view(members@);
            let mut i: usize = 0;
            assert(entries.take(0) =~= Seq::empty());
            while i < members.len()
                invariant
                    i <= members.len(),
                    entries == members_view(members@),
                    target@ == apply_members(old(target)@, entries.take(i as int)),
                decreases members.len() - i,
            {
                let keys = split_key(members[i].key.as_str());
                let value = members[i].value.clone();
                set_nested_property(target, &keys, value);
                proof {
                    let next = entries.take(i + 1);
                    assert(next.drop_last() =~= entries.take(i as int));
                    assert(next.last() == entries[i as int]);
                }
                i = i + 1;
            }
            assert(entries.take(i as int) =~= entries);
        },
        _ => {},
    }
}

/// Whether one member of a condition holds of a document: the document
/// holds a value at the path that the dotted key names, and that value is
/// matched against the wanted value if both are objects, and equals it
/// otherwise. A key that the document lacks holds of nothing, not even of
/// null.
pub open spec fn member_holds(doc: JsonView, key: Seq<char>, wanted: JsonView) -> bool
    decreases wanted, 1int,
{
    let found = get_nested(doc, split_path(key));
    has_path(doc, split_path(key)) && if found is Object && wanted is Object {
        satisfies(found, wanted)
    } else {
        found == wanted
    }
}

/// Whether a document matches a condition. A condition that is no object
/// asks for equality. A condition that is an object is matched only by an
/// object, and only if every member of the condition holds of it.
pub open spec fn satisfies(doc: JsonView, condition: JsonView) -> bool
    decreases condition, 0int,
{
    match condition {
        JsonView::Object(wanted) => doc is Object && forall|i: int|
            0 <= i < wanted.len() ==> member_holds(
                doc,
                (#[trigger] wanted[i]).0,
                wanted[i].1,
            ),
        _ => doc == condition,
    }
}

/// Whether a document holds a value at every step of a path: each step
/// finds an object with the key.
pub open spec fn has_path(doc: JsonView, path: Seq<Seq<char>>) -> bool
    decreases path.len(),
{
    if path.len() == 0 {
        true
    } else {
        match lookup(entries_of(doc), path[0]) {
            Some(child) => has_path(child, path.drop_first()),
            None => false,
        }
    }
}

/// What is read at a path that a document does not hold is null.
pub proof fn lemma_get_absent(doc: JsonView, path: Seq<Seq<char>>)
    requires
        !has_path(doc, path),
    ensures
        get_nested(doc, path) == JsonView::Null,
    decreases path.len(),
{
    if path.len() > 0 {
        match lookup(entries_of(doc), path[0]) {
            Some(child) => {
                lemma_get_absent(child, path.drop_first());
            },
            None => {
                lemma_get_below_null(path.drop_first());
            },
        }
    }
}

/// Below null, every path reads null.
pub proof fn lemma_get_below_null(path: Seq<Seq<char>>)
    ensures
        get_nested(JsonView::Null, path) == JsonView::Null,
    decreases path.len(),
{
    if path.len() > 0 {
        lemma_get_below_null(path.drop_first());
    }
}

/// The condition without members matches every object, and nothing else.
pub proof fn lemma_empty_condition(doc: JsonView)
    ensures
        satisfies(doc, JsonView::Object(Seq::empty())) == (doc is Object),
{
}

/// A condition does not match a document that lacks one of its keys,
/// whatever the condition asks under that key.
pub proof fn lemma_absent_key_fails(doc: JsonView, condition: JsonView, i: int)
    requires
        condition is Object,
        0 <= i < condition->Object_0.len(),
        !has_path(doc, split_path(condition->Object_0[i].0)),
    ensures
        !satisfies(doc, condition),
{
    let wanted = condition->Object_0;
    assert(!member_holds(doc, wanted[i].0, wanted[i].1));
}

/// A member that a condition does not mention makes no difference to the
/// match: where no key of the condition starts at `key`, a document matches
/// with any value under `key` exactly if it matches as it is.
pub proof fn lemma_unmentioned_member(
    doc: JsonView,
    condition: JsonView,
    key: Seq<char>,
    value: JsonView,
)
    requires
        doc is Object,
        condition is Object,
        forall|i: int|
            0 <= i < condition->Object_0.len() ==> split_path(
                (#[trigger] condition->Object_0[i]).0,
            )[0] != key,
    ensures
        satisfies(set_nested(doc, seq![key], value), condition) == satisfies(doc, condition),
{
    let wanted = condition->Object_0;
    let path = seq![key];
    let more = set_nested(doc, path, value);
    assert(path.drop_first() =~= Seq::<Seq<char>>::empty());
    assert(set_nested(member_or_null(doc, key), path.drop_first(), value) == value);
    assert(more == JsonView::Object(put(entries_of(doc), key, value)));
    assert forall|i: int| 0 <= i < wanted.len() implies member_holds(
        more,
        (#[trigger] wanted[i]).0,
        wanted[i].1,
    ) == member_holds(doc, wanted[i].0, wanted[i].1) by {
        let steps = split_path(wanted[i].0);
        lemma_split_path_nonempty(wanted[i].0);
        lemma_lookup_put_other(entries_of(doc), key, value, steps[0]);
    }
}

/// Finds the value at a path of keys: `None` where a step meets a value that
/// is no object, or an object without the key.
pub fn find_nested_property<'a>(doc: &'a Json, path: &Vec<String>) -> (r: Option<&'a Json>)
    ensures
        match r {
            Some(found) => has_path(doc@, path_view(path@)) && found@ == get_nested(
                doc@,
                path_view(path@),
            ),
            None => !has_path(doc@, path_view(path@)),
        },
{
    let ghost keys = path_view(path@);
    let mut current: &Json = doc;
    let mut i: usize = 0;
    assert(keys.skip(0) =~= keys);
    while i < path.len()
        invariant
            i <= path.len(),
            keys == path_view(path@),
            get_nested(doc@, keys) == get_nested(current@, keys.skip(i as int)),
            has_path(doc@, keys) == has_path(current@, keys.skip(i as int)),
        decreases path.len() - i,
    {
        assert(keys.skip(i as int).drop_first() =~= keys.skip(i + 1));
        assert(keys.skip(i as int)[0] == path@[i as int]@);
        match current {
            Json::Object(members) => {
                proof {
                    lemma_object_view(*members);
                }
                match find_member(members, path[i].as_str()) {
                    Some(at) => {
                        current = &members[at].value;
                    },
                    None => {
                        return None;
                    },
                }
            },
            _ => {
                return None;
            },
        }
        i = i + 1;
    }
    Some(current)
}

/// Whether a document matches a condition. Equality is that of `Json::same`:
/// a number that is no integer equals another only if both are written the
/// same, so `0.0` and `-0.0` are not equal here.
pub fn matches_condition(item: &Json, condition: &Json) -> (r: bool)
    ensures
        r == satisfies(item@, condition@),
    decreases condition,
{
    match condition {
        Json::Object(wanted) => {
            proof {
                lemma_object_view(*wanted);
            }
            match item {
                Json::Object(_) => {},
                _ => {
                    return false;
                },
            }
            let ghost entries = members_view(wanted@);
            let mut i: usize = 0;
            while i < wanted.len()
                invariant
                    *condition == Json::Object(*wanted),
                    condition@ == JsonView::Object(entries),
                    item@ is Object,
                    i <= wanted.len(),
                    entries == members_view(wanted@),
                    forall|j: int|
                        0 <= j < i ==> member_holds(item@, (#[trigger] entries[j]).0, entries[j].1),
                decreases wanted.len() - i,
            {
                let keys = split_key(wanted[i].key.as_str());
                let value = &wanted[i].value;
                let holds = match find_nested_property(item, &keys) {
                    Some(found) => match (found, value) {
                        (Json::Object(_), Json::Object(_)) => {
                            proof {
                                vstd::std_specs::vec::axiom_vec_index_decreases(
                                    *wanted,
                                    i as int,
                                );
                                assert(decreases_to!(*condition => condition->Object_0));
                                assert(decreases_to!(wanted@[i as int] => wanted@[i as int].value));
                            }
                            matches_condition(found, value)
                        },
                        _ => found.same(value),
                    },
                    None => false,
                };
                if !holds {
                    assert(!member_holds(item@, entries[i as int].0, entries[i as int].1));
                    assert(condition@->Object_0[i as int] == entries[i as int]);
                    return false;
                }
                i = i + 1;
            }
            true
        },
        _ => item.same(condition),
    }
}

} // verus!
