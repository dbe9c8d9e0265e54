//! How two writes into one document stand to each other; what a merge
//! leaves alone; and why merging a patch a second time changes nothing.

use vstd::prelude::*;
use crate::json::{JsonView, sorted_keys};
use crate::object::{
    Entries,
    lemma_index_of_sorted,
    lemma_lookup_push,
    lemma_lookup_put_other,
    lemma_lookup_put_same,
    lemma_put_put_other,
    lemma_put_put_same,
    lemma_put_sorted,
    lemma_sorted_entries_equal,
    lookup,
    put,
};
use crate::path::{
    apply_members,
    entries_of,
    get_nested,
    lemma_apply_members_wf,
    lemma_member_wf,
    lemma_set_nested_wf,
    member_or_null,
    merge_patch,
    set_nested,
};
use crate::text::{
    key_lt,
    lemma_split_path_nonempty,
    lemma_split_plain,
    plain,
    split_path,
};

verus! {

/// The number of keys with which two paths both begin.
pub open spec fn common(p: Seq<Seq<char>>, q: Seq<Seq<char>>) -> nat
    decreases p.len(),
{
    if p.len() == 0 || q.len() == 0 || p[0] != q[0] {
        0
    } else {
        1 + common(p.drop_first(), q.drop_first())
    }
}

/// Two paths begin with no more keys in common than either has, and with as
/// many whichever is named first; a path has all its keys in common with
/// itself.
pub proof fn lemma_common(p: Seq<Seq<char>>, q: Seq<Seq<char>>)
    ensures
        common(p, q) <= p.len(),
        common(p, q) <= q.len(),
        common(p, q) == common(q, p),
        common(p, p) == p.len(),
    decreases p.len(),
{
    if p.len() > 0 {
        lemma_common(p.drop_first(), p.drop_first());
        if q.len() > 0 {
            lemma_common(p.drop_first(), q.drop_first());
        }
    }
}

/// A write at a path wipes an earlier write at a path that begins with it.
pub proof fn lemma_set_above(
    doc: JsonView,
    q: Seq<Seq<char>>,
    w: JsonView,
    p: Seq<Seq<char>>,
    v: JsonView,
)
    requires
        common(p, q) == p.len(),
    ensures
        set_nested(set_nested(doc, q, w), p, v) == set_nested(doc, p, v),
    decreases p.len(),
{
    if p.len() > 0 {
        let key = p[0];
        let entries = entries_of(doc);
        let child = member_or_null(doc, key);
        let inner = set_nested(child, q.drop_first(), w);
        lemma_lookup_put_same(entries, key, inner);
        lemma_set_above(child, q.drop_first(), w, p.drop_first(), v);
        lemma_put_put_same(entries, key, inner, set_nested(child, p.drop_first(), v));
    }
}

/// A write at a path that begins with the path of an earlier write goes into
/// the value that was written there.
pub proof fn lemma_set_below(
    doc: JsonView,
    p: Seq<Seq<char>>,
    v: JsonView,
    q: Seq<Seq<char>>,
    w: JsonView,
)
    requires
        common(p, q) == p.len(),
    ensures
        set_nested(set_nested(doc, p, v), q, w) == set_nested(
            doc,
            p,
            set_nested(v, q.skip(p.len() as int), w),
        ),
    decreases p.len(),
{
    lemma_common(p, q);
    if p.len() == 0 {
        assert(q.skip(0) =~= q);
    } else {
        let key = p[0];
        let entries = entries_of(doc);
        let child = member_or_null(doc, key);
        let first = set_nested(child, p.drop_first(), v);
        lemma_lookup_put_same(entries, key, first);
        lemma_set_below(child, p.drop_first(), v, q.drop_first(), w);
        assert(q.drop_first().skip(p.drop_first().len() as int) =~= q.skip(p.len() as int));
        lemma_put_put_same(entries, key, first, set_nested(first, q.drop_first(), w));
    }
}

/// Two writes at paths of which neither begins with the other give the same
/// in either order.
pub proof fn lemma_set_apart(
    doc: JsonView,
    p: Seq<Seq<char>>,
    v: JsonView,
    q: Seq<Seq<char>>,
    w: JsonView,
)
    requires
        doc.wf(),
        v.wf(),
        w.wf(),
        common(p, q) < p.len(),
        common(p, q) < q.len(),
    ensures
        set_nested(set_nested(doc, p, v), q, w) == set_nested(set_nested(doc, q, w), p, v),
    decreases p.len(),
{
    let entries = entries_of(doc);
    let left = set_nested(member_or_null(doc, p[0]), p.drop_first(), v);
    let right = set_nested(member_or_null(doc, q[0]), q.drop_first(), w);
    if p[0] != q[0] {
        lemma_lookup_put_other(entries, p[0], left, q[0]);
        lemma_lookup_put_other(entries, q[0], right, p[0]);
        lemma_put_put_other(entries, p[0], left, q[0], right);
    } else {
        let key = p[0];
        let child = member_or_null(doc, key);
        lemma_member_wf(doc, key);
        lemma_lookup_put_same(entries, key, left);
        lemma_lookup_put_same(entries, key, right);
        lemma_set_apart(child, p.drop_first(), v, q.drop_first(), w);
        lemma_put_put_same(entries, key, left, set_nested(left, q.drop_first(), w));
        lemma_put_put_same(entries, key, right, set_nested(right, p.drop_first(), v));
    }
}

/// A write leaves alone what is read at a path of which neither begins with
/// the other.
pub proof fn lemma_get_after_set_apart(
    doc: JsonView,
    p: Seq<Seq<char>>,
    v: JsonView,
    q: Seq<Seq<char>>,
)
    requires
        common(p, q) < p.len(),
        common(p, q) < q.len(),
    ensures
        get_nested(set_nested(doc, p, v), q) == get_nested(doc, q),
    decreases p.len(),
{
    let entries = entries_of(doc);
    let inner = set_nested(member_or_null(doc, p[0]), p.drop_first(), v);
    if p[0] != q[0] {
        lemma_lookup_put_other(entries, p[0], inner, q[0]);
    } else {
        lemma_lookup_put_same(entries, p[0], inner);
        lemma_get_after_set_apart(member_or_null(doc, p[0]), p.drop_first(), v, q.drop_first());
    }
}

/// Whether two documents become the same whenever a well-formed value is
/// written at the path: they differ at most at the path and on the way to
/// it.
pub open spec fn same_outside(a: JsonView, b: JsonView, path: Seq<Seq<char>>) -> bool {
    forall|value: JsonView|
        value.wf() ==> #[trigger] set_nested(a, path, value) == set_nested(b, path, value)
}

/// One write into each of two documents that are the same outside a path
/// leaves them the same outside it.
pub proof fn lemma_same_outside_after_set(
    a: JsonView,
    b: JsonView,
    p: Seq<Seq<char>>,
    q: Seq<Seq<char>>,
    w: JsonView,
)
    requires
        a.wf(),
        b.wf(),
        w.wf(),
        same_outside(a, b, p),
    ensures
        same_outside(set_nested(a, q, w), set_nested(b, q, w), p),
{
    lemma_common(p, q);
    assert forall|v: JsonView| v.wf() implies #[trigger] set_nested(set_nested(a, q, w), p, v)
        == set_nested(set_nested(b, q, w), p, v) by {
        assert(set_nested(a, p, v) == set_nested(b, p, v));
        if common(p, q) == p.len() {
            lemma_set_above(a, q, w, p, v);
            lemma_set_above(b, q, w, p, v);
        } else if common(p, q) == q.len() {
            let x = set_nested(w, p.skip(q.len() as int), v);
            lemma_set_below(a, q, w, p, v);
            lemma_set_below(b, q, w, p, v);
            lemma_set_nested_wf(w, p.skip(q.len() as int), v);
            assert(set_nested(a, p, JsonView::Null) == set_nested(b, p, JsonView::Null));
            lemma_set_above(a, p, JsonView::Null, q, x);
            lemma_set_above(b, p, JsonView::Null, q, x);
        } else {
            lemma_set_apart(a, q, w, p, v);
            lemma_set_apart(b, q, w, p, v);
        }
    }
}

/// Whether the value of every member is well formed.
pub open spec fn values_wf(members: Entries) -> bool {
    forall|i: int| 0 <= i < members.len() ==> (#[trigger] members[i]).1.wf()
}

/// The same members applied to two documents that are the same outside a
/// path leave them the same outside it.
pub proof fn lemma_same_outside_after_members(
    a: JsonView,
    b: JsonView,
    p: Seq<Seq<char>>,
    members: Entries,
)
    requires
        a.wf(),
        b.wf(),
        values_wf(members),
        same_outside(a, b, p),
    ensures
        same_outside(apply_members(a, members), apply_members(b, members), p),
    decreases members.len(),
{
    if members.len() > 0 {
        let init = members.drop_last();
        assert forall|i: int| 0 <= i < init.len() implies (#[trigger] init[i]).1.wf() by {
            assert(init[i] == members[i]);
        }
        lemma_same_outside_after_members(a, b, p, init);
        lemma_apply_members_wf(a, init);
        lemma_apply_members_wf(b, init);
        assert(members.last() == members[members.len() - 1]);
        lemma_same_outside_after_set(
            apply_members(a, init),
            apply_members(b, init),
            p,
            split_path(members.last().0),
            members.last().1,
        );
    }
}

/// Applying two runs of members one after the other is applying the first
/// run, then the second.
pub proof fn lemma_apply_concat(target: JsonView, first: Entries, second: Entries)
    ensures
        apply_members(target, first + second) == apply_members(
            apply_members(target, first),
            second,
        ),
    decreases second.len(),
{
    if second.len() == 0 {
        assert(first + second =~= first);
    } else {
        lemma_apply_concat(target, first, second.drop_last());
        assert((first + second).drop_last() =~= first + second.drop_last());
        assert((first + second).last() == second.last());
    }
}

/// Applying one member is one write.
pub proof fn lemma_apply_one(doc: JsonView, member: (Seq<char>, JsonView))
    ensures
        apply_members(doc, seq![member]) == set_nested(doc, split_path(member.0), member.1),
{
    let one = seq![member];
    assert(one.drop_last() =~= Seq::<(Seq<char>, JsonView)>::empty());
    assert(one.last() == member);
    assert(apply_members(doc, one.drop_last()) == doc);
}

/// A member that is applied again at the end might as well not have been
/// applied at the start.
pub proof fn lemma_repeat_absorbed(
    doc: JsonView,
    member: (Seq<char>, JsonView),
    between: Entries,
)
    requires
        doc.wf(),
        member.1.wf(),
        values_wf(between),
    ensures
        apply_members(doc, seq![member] + between + seq![member]) == apply_members(
            doc,
            between + seq![member],
        ),
{
    let path = split_path(member.0);
    let one = seq![member];
    let started = apply_members(doc, one);
    lemma_apply_one(doc, member);
    lemma_set_nested_wf(doc, path, member.1);
    lemma_common(path, path);
    assert forall|v: JsonView| v.wf() implies #[trigger] set_nested(started, path, v)
        == set_nested(doc, path, v) by {
        lemma_set_above(doc, path, member.1, path, v);
    }
    lemma_same_outside_after_members(started, doc, path, between);
    let with = apply_members(started, between);
    let without = apply_members(doc, between);
    assert(set_nested(with, path, member.1) == set_nested(without, path, member.1));
    lemma_apply_concat(doc, one, between);
    lemma_apply_concat(doc, one + between, one);
    lemma_apply_concat(doc, between, one);
    lemma_apply_one(with, member);
    lemma_apply_one(without, member);
}

/// Applying all members twice is applying them from the `k`-th on, then the
/// first `k`, then from the `k`-th on again.
proof fn lemma_rotation(doc: JsonView, members: Entries, k: int)
    requires
        doc.wf(),
        values_wf(members),
        0 <= k <= members.len(),
    ensures
        apply_members(doc, members.skip(k) + members.take(k) + members.skip(k)) == apply_members(
            doc,
            members + members,
        ),
    decreases k,
{
    if k == 0 {
        assert(members.skip(0) + members.take(0) + members.skip(0) =~= members + members);
    } else {
        lemma_rotation(doc, members, k - 1);
        let a = members[k - 1];
        let tail = members.skip(k);
        let between = tail + members.take(k - 1);
        assert forall|i: int| 0 <= i < between.len() implies (#[trigger] between[i]).1.wf() by {
            if i < tail.len() {
                assert(between[i] == members[k + i]);
            } else {
                assert(between[i] == members[i - tail.len()]);
            }
        }
        lemma_repeat_absorbed(doc, a, between);
        assert(members.skip(k - 1) + members.take(k - 1) + members.skip(k - 1) =~= (seq![a]
            + between + seq![a]) + tail);
        assert(members.skip(k) + members.take(k) + members.skip(k) =~= (between + seq![a])
            + tail);
        lemma_apply_concat(doc, seq![a] + between + seq![a], tail);
        lemma_apply_concat(doc, between + seq![a], tail);
    }
}

/// Applying a run of members a second time changes nothing.
pub proof fn lemma_apply_members_twice(doc: JsonView, members: Entries)
    requires
        doc.wf(),
        values_wf(members),
    ensures
        apply_members(apply_members(doc, members), members) == apply_members(doc, members),
{
    let n = members.len() as int;
    lemma_rotation(doc, members, n);
    assert(members.skip(n) + members.take(n) + members.skip(n) =~= members);
    lemma_apply_concat(doc, members, members);
}

/// Merging a patch a second time changes nothing: a patch overwrites, it
/// does not add up.
pub proof fn lemma_merge_patch_twice(target: JsonView, patch: JsonView)
    requires
        target.wf(),
        patch.wf(),
    ensures
        merge_patch(merge_patch(target, patch), patch) == merge_patch(target, patch),
{
    lemma_apply_members_twice(target, entries_of(patch));
}

/// Members leave alone what stands under a key at which none of their paths
/// starts.
pub proof fn lemma_apply_keeps_unnamed(target: JsonView, members: Entries, key: Seq<char>)
    requires
        forall|i: int|
            0 <= i < members.len() ==> split_path((#[trigger] members[i]).0)[0] != key,
    ensures
        lookup(entries_of(apply_members(target, members)), key) == lookup(
            entries_of(target),
            key,
        ),
    decreases members.len(),
{
    if members.len() > 0 {
        let init = members.drop_last();
        let last = members.last();
        assert(last == members[members.len() - 1]);
        assert forall|i: int| 0 <= i < init.len() implies split_path((#[trigger] init[i]).0)[0]
            != key by {
            assert(init[i] == members[i]);
        }
        lemma_apply_keeps_unnamed(target, init, key);
        let before = apply_members(target, init);
        let path = split_path(last.0);
        lemma_split_path_nonempty(last.0);
        lemma_lookup_put_other(
            entries_of(before),
            path[0],
            set_nested(member_or_null(before, path[0]), path.drop_first(), last.1),
            key,
        );
    }
}

/// A merge leaves alone every member that the patch does not name: what
/// stands under a key at which no path of the patch starts is what stood
/// there before.
pub proof fn lemma_merge_keeps_unnamed(target: JsonView, patch: JsonView, key: Seq<char>)
    requires
        forall|i: int|
            0 <= i < entries_of(patch).len() ==> split_path(
                (#[trigger] entries_of(patch)[i]).0,
            )[0] != key,
    ensures
        lookup(entries_of(merge_patch(target, patch)), key) == lookup(entries_of(target), key),
{
    lemma_apply_keeps_unnamed(target, entries_of(patch), key);
}

/// Whether no key of the members holds a dot.
pub open spec fn plain_keys(members: Entries) -> bool {
    forall|i: int| 0 <= i < members.len() ==> plain((#[trigger] members[i]).0)
}

/// Members whose keys hold no dot and strictly increase, applied to an
/// object, give an object in which each of their keys has their value and
/// every other key has what it had.
pub proof fn lemma_apply_plain_members(doc: JsonView, members: Entries)
    requires
        doc is Object,
        sorted_keys(entries_of(doc)),
        sorted_keys(members),
        plain_keys(members),
    ensures
        apply_members(doc, members) is Object,
        sorted_keys(entries_of(apply_members(doc, members))),
        forall|key: Seq<char>|
            #[trigger] lookup(entries_of(apply_members(doc, members)), key) == match lookup(
                members,
                key,
            ) {
                Some(value) => Some(value),
                None => lookup(entries_of(doc), key),
            },
    decreases members.len(),
{
    if members.len() > 0 {
        let init = members.drop_last();
        let last = members.last();
        assert(last == members[members.len() - 1]);
        assert forall|i: int, j: int| 0 <= i < j < init.len() implies key_lt(
            #[trigger] init[i].0,
            #[trigger] init[j].0,
        ) by {
            assert(init[i] == members[i] && init[j] == members[j]);
        }
        assert forall|i: int| 0 <= i < init.len() implies plain((#[trigger] init[i]).0) by {
            assert(init[i] == members[i]);
        }
        lemma_apply_plain_members(doc, init);
        let before = apply_members(doc, init);
        let entries = entries_of(before);
        lemma_split_plain(last.0);
        let path = seq![last.0];
        assert(path.drop_first() =~= Seq::<Seq<char>>::empty());
        assert(set_nested(member_or_null(before, last.0), path.drop_first(), last.1) == last.1);
        let after = apply_members(doc, members);
        assert(after == JsonView::Object(put(entries, last.0, last.1)));
        lemma_put_sorted(entries, last.0, last.1);
        assert(init.push(last) =~= members);
        assert forall|key: Seq<char>| #[trigger] lookup(entries_of(after), key) == match lookup(
            members,
            key,
        ) {
            Some(value) => Some(value),
            None => lookup(entries_of(doc), key),
        } by {
            lemma_lookup_push(init, last, key);
            assert(lookup(entries, key) == match lookup(init, key) {
                Some(value) => Some(value),
                None => lookup(entries_of(doc), key),
            });
            if key == last.0 {
                lemma_lookup_put_same(entries, last.0, last.1);
                lemma_index_of_sorted(members, members.len() - 1);
            } else {
                lemma_lookup_put_other(entries, last.0, last.1, key);
            }
        }
    }
}

/// Merging a whole object into an object gives the merged object itself,
/// provided that no key of it holds a dot and that it has every key of the
/// target.
pub proof fn lemma_merge_whole(target: JsonView, whole: JsonView)
    requires
        target.wf(),
        whole.wf(),
        target is Object,
        whole is Object,
        plain_keys(entries_of(whole)),
        forall|key: Seq<char>|
            lookup(entries_of(target), key) is Some ==> #[trigger] lookup(entries_of(whole), key)
                is Some,
    ensures
        merge_patch(target, whole) == whole,
{
    let members = entries_of(whole);
    lemma_apply_plain_members(target, members);
    let merged = apply_members(target, members);
    assert forall|key: Seq<char>| #[trigger] lookup(entries_of(merged), key) == lookup(
        members,
        key,
    ) by {
        assert(lookup(entries_of(merged), key) == match lookup(members, key) {
            Some(value) => Some(value),
            None => lookup(entries_of(target), key),
        });
        assert(lookup(entries_of(target), key) is Some ==> lookup(members, key) is Some);
    }
    lemma_sorted_entries_equal(entries_of(merged), members);
}

} // verus!
