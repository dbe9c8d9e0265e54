//! What holds of the store's operations: a record is read back as it was
//! written, a second update with the same patch changes nothing, a deleted
//! record is gone, and the changes to arrays do what they say to each record.

use vstd::prelude::*;
use crate::array::{
    kept_indices,
    lemma_patched,
    lemma_pulled,
    lemma_pushed,
    lemma_without_matching,
    patched,
    pulled,
    pushed,
    with_matching_patched,
    without_matching,
};
use crate::codec::{document_of, rendered};
use crate::directory::{
    Files,
    distinct_names,
    file_index,
    lemma_file_index,
    lemma_file_index_is,
    lemma_read_after_remove,
    lemma_read_after_remove_other,
    lemma_read_after_write,
    lemma_read_after_write_other,
    lemma_write_twice,
};
use crate::json::JsonView;
use crate::merge::{lemma_merge_patch_twice, lemma_merge_whole, plain_keys};
use crate::object::{
    index_of,
    lemma_index_of,
    lemma_lookup_put_other,
    lemma_lookup_put_same,
    lemma_place,
    lookup,
    place,
    put,
};
use crate::path::{
    entries_of,
    get_nested,
    lemma_get_absent,
    lemma_get_nested_wf,
    lemma_merge_patch_wf,
    lemma_set_nested_wf,
    member_or_null,
    merge_patch,
    satisfies,
    set_nested,
};
use crate::store::{
    created,
    deleted,
    matching,
    matching_ids,
    patch_change,
    pull_change,
    push_change,
    records,
    rewritten,
    stored,
    updated,
};
use crate::text::{
    is_record_file_name,
    lemma_record_id,
    lemma_split_path_nonempty,
    lemma_split_segments_plain,
    plain,
    record_file_name,
    split_path,
};

verus! {

/// A record that was written under an identifier is read back under it,
/// provided that the text written for it is read back as that record.
pub proof fn lemma_find_after_create(files: Files, id: Seq<char>, doc: JsonView)
    requires
        document_of(rendered(doc)) == Some(doc),
    ensures
        stored(created(files, id, doc), id) == Some(doc),
{
    lemma_read_after_write(files, record_file_name(id), rendered(doc));
}

/// Two identifiers with the same file name are the same identifier.
pub proof fn lemma_record_file_name_injective(a: Seq<char>, b: Seq<char>)
    requires
        record_file_name(a) == record_file_name(b),
    ensures
        a == b,
{
    let x = record_file_name(a);
    let y = record_file_name(b);
    assert(a.len() == b.len()) by {
        assert(x.len() == a.len() + 5 && y.len() == b.len() + 5);
    }
    assert forall|i: int| 0 <= i < a.len() implies a[i] == b[i] by {
        assert(x[i] == a[i] && y[i] == b[i]);
    }
    assert(a =~= b);
}

/// Writing, updating or deleting a record under one identifier changes
/// nothing that is read under another.
pub proof fn lemma_other_records_kept(
    files: Files,
    id: Seq<char>,
    doc: JsonView,
    other: Seq<char>,
)
    requires
        other != id,
    ensures
        stored(created(files, id, doc), other) == stored(files, other),
        stored(updated(files, id, doc), other) == stored(files, other),
        stored(deleted(files, id), other) == stored(files, other),
{
    if record_file_name(other) == record_file_name(id) {
        lemma_record_file_name_injective(other, id);
    }
    lemma_read_after_write_other(
        files,
        record_file_name(id),
        rendered(doc),
        record_file_name(other),
    );
    if stored(files, id) is Some {
        lemma_read_after_write_other(
            files,
            record_file_name(id),
            rendered(merge_patch(stored(files, id)->0, doc)),
            record_file_name(other),
        );
    }
    lemma_read_after_remove_other(files, record_file_name(id), record_file_name(other));
}

/// The records of two runs of files are the records of the first run, then
/// those of the second.
pub proof fn lemma_records_concat(first: Files, second: Files)
    ensures
        records(first + second) == records(first) + records(second),
    decreases second.len(),
{
    if second.len() == 0 {
        assert(first + second =~= first);
        assert(records(first) + records(second) =~= records(first));
    } else {
        lemma_records_concat(first, second.drop_last());
        assert((first + second).drop_last() =~= first + second.drop_last());
        assert((first + second).last() == second.last());
        let init = records(first) + records(second.drop_last());
        if is_record_file_name(second.last().0) && document_of(second.last().1) is Some {
            let doc = document_of(second.last().1)->0;
            assert(init.push(doc) =~= records(first) + records(second.drop_last()).push(doc));
        }
    }
}

/// The records that match a condition are the records stored under the
/// identifiers that match it, one for one and in the same order, in a
/// directory without two files of one name.
pub proof fn lemma_matching_ids(files: Files, condition: JsonView)
    requires
        distinct_names(files),
    ensures
        matching_ids(files, condition).len() == matching(files, condition).len(),
        forall|k: int|
            0 <= k < matching_ids(files, condition).len() ==> stored(
                files,
                #[trigger] matching_ids(files, condition)[k],
            ) == Some(matching(files, condition)[k]),
    decreases files.len(),
{
    reveal(Seq::filter);
    if files.len() > 0 {
        let init = files.drop_last();
        let last = files.last();
        let keep = |doc: JsonView| satisfies(doc, condition);
        assert(distinct_names(init)) by {
            assert forall|i: int, j: int| 0 <= i < j < init.len() implies (#[trigger] init[i]).0
                != (#[trigger] init[j]).0 by {
                assert(init[i] == files[i] && init[j] == files[j]);
            }
        }
        lemma_matching_ids(init, condition);
        let ids = matching_ids(files, condition);
        let before = matching_ids(init, condition);
        let is_record = is_record_file_name(last.0) && document_of(last.1) is Some;
        if is_record {
            assert(records(init).push(document_of(last.1)->0).drop_last() =~= records(init));
        }
        assert forall|k: int| 0 <= k < ids.len() implies stored(files, #[trigger] ids[k]) == Some(
            matching(files, condition)[k],
        ) by {
            if k < before.len() {
                let name = record_file_name(before[k]);
                assert(ids[k] == before[k]);
                lemma_file_index(init, name);
                let at = file_index(init, name);
                assert(at < init.len());
                assert forall|j: int| 0 <= j < at implies (#[trigger] files[j]).0 != name by {
                    assert(files[j] == init[j]);
                }
                assert(files[at] == init[at]);
                lemma_file_index_is(files, name, at);
            } else {
                lemma_record_id(last.0);
                assert forall|j: int| 0 <= j < files.len() - 1 implies (#[trigger] files[j]).0
                    != last.0 by {
                    assert(files[files.len() - 1] == last);
                }
                lemma_file_index_is(files, last.0, files.len() - 1);
            }
        }
    }
}

/// After a record was deleted, none is read under its identifier, no file
/// of the directory has its name, and the records of the directory are those
/// of the files before it, then those of the files after it.
pub proof fn lemma_find_after_delete(files: Files, id: Seq<char>)
    requires
        distinct_names(files),
    ensures
        stored(deleted(files, id), id) is None,
        forall|j: int|
            0 <= j < deleted(files, id).len() ==> (#[trigger] deleted(files, id)[j]).0
                != record_file_name(id),
        file_index(files, record_file_name(id)) < files.len() ==> records(deleted(files, id))
            == records(files.take(file_index(files, record_file_name(id)))) + records(
            files.skip(file_index(files, record_file_name(id)) + 1),
        ),
        file_index(files, record_file_name(id)) >= files.len() ==> deleted(files, id) == files,
{
    let name = record_file_name(id);
    lemma_read_after_remove(files, name);
    lemma_file_index(files, name);
    let at = file_index(files, name);
    if at < files.len() {
        assert(files.remove(at) =~= files.take(at) + files.skip(at + 1));
        lemma_records_concat(files.take(at), files.skip(at + 1));
    }
}

/// Updating a record twice with the same patch leaves the files as updating
/// it once does, provided that the patch is well formed and that the text
/// written for the updated record is read back as that record.
pub proof fn lemma_update_twice(files: Files, id: Seq<char>, patch: JsonView)
    requires
        patch.wf(),
        stored(files, id) is Some ==> document_of(
            rendered(merge_patch(stored(files, id)->0, patch)),
        ) == Some(merge_patch(stored(files, id)->0, patch)),
    ensures
        updated(updated(files, id, patch), id, patch) == updated(files, id, patch),
{
    if stored(files, id) is Some {
        let doc = stored(files, id)->0;
        let merged = merge_patch(doc, patch);
        lemma_find_after_create(files, id, merged);
        lemma_merge_patch_twice(doc, patch);
        lemma_write_twice(files, record_file_name(id), rendered(merged), rendered(merged));
    }
}

/// A record in which a value was set at a path is stored as it is when it is
/// written back by way of an update, provided that the record is an object
/// none of whose keys holds a dot, that the path starts at a key without a
/// dot, and that the text written for the changed record is read back as
/// that record.
pub proof fn lemma_written_back(
    files: Files,
    id: Seq<char>,
    path: Seq<Seq<char>>,
    value: JsonView,
)
    requires
        stored(files, id) is Some,
        stored(files, id)->0 is Object,
        plain_keys(entries_of(stored(files, id)->0)),
        value.wf(),
        path.len() >= 1,
        plain(path[0]),
        document_of(rendered(set_nested(stored(files, id)->0, path, value))) == Some(
            set_nested(stored(files, id)->0, path, value),
        ),
    ensures
        stored(updated(files, id, set_nested(stored(files, id)->0, path, value)), id) == Some(
            set_nested(stored(files, id)->0, path, value),
        ),
{
    let doc = stored(files, id)->0;
    let new = set_nested(doc, path, value);
    let entries = entries_of(doc);
    let inner = set_nested(member_or_null(doc, path[0]), path.drop_first(), value);
    let after = put(entries, path[0], inner);
    assert(new == JsonView::Object(after));
    lemma_set_nested_wf(doc, path, value);
    lemma_index_of(entries, path[0]);
    lemma_place(entries, path[0]);
    assert forall|i: int| 0 <= i < after.len() implies plain((#[trigger] after[i]).0) by {
        let at = index_of(entries, path[0]);
        if at < entries.len() {
            if i != at {
                assert(after[i] == entries[i]);
            }
        } else {
            let to = place(entries, path[0]);
            if i < to {
                assert(after[i] == entries[i]);
            } else if i > to {
                assert(after[i] == entries[i - 1]);
            }
        }
    }
    assert forall|key: Seq<char>| lookup(entries, key) is Some implies #[trigger] lookup(
        after,
        key,
    ) is Some by {
        if key == path[0] {
            lemma_lookup_put_same(entries, path[0], inner);
        } else {
            lemma_lookup_put_other(entries, path[0], inner, key);
        }
    }
    lemma_merge_whole(doc, new);
    lemma_find_after_create(files, id, new);
}

/// What is read at a path of one key or more in a value that is no object
/// is null.
pub proof fn lemma_get_in_no_object(doc: JsonView, path: Seq<Seq<char>>)
    requires
        path.len() >= 1,
        !(doc is Object),
    ensures
        get_nested(doc, path) == JsonView::Null,
{
    lemma_index_of(entries_of(doc), path[0]);
    lemma_get_absent(doc, path);
}

/// A push into one record. Where the record's value at the path is an array,
/// the record is stored afterwards with the element appended to that array,
/// which is longer by one: provided that no key of the record itself holds a
/// dot, that the element is well formed, and that the text written for the
/// changed record is read back as that record. Where no record is stored, or
/// its value at the path is no array, the files stay as they are.
pub proof fn lemma_push_record(
    files: Files,
    id: Seq<char>,
    array_path: Seq<char>,
    element: JsonView,
)
    requires
        element.wf(),
        stored(files, id) is Some ==> {
            let doc = stored(files, id)->0;
            &&& plain_keys(entries_of(doc))
            &&& pushed(doc, split_path(array_path), element) is Some ==> document_of(
                rendered(pushed(doc, split_path(array_path), element)->0),
            ) == pushed(doc, split_path(array_path), element)
        },
    ensures
        match stored(files, id) {
            Some(doc) => match get_nested(doc, split_path(array_path)) {
                JsonView::Array(items) => {
                    let after = stored(
                        rewritten(files, id, push_change(array_path, element)),
                        id,
                    );
                    &&& after is Some
                    &&& get_nested(after->0, split_path(array_path)) == JsonView::Array(
                        items.push(element),
                    )
                    &&& items.push(element).len() == items.len() + 1
                },
                _ => rewritten(files, id, push_change(array_path, element)) == files,
            },
            None => rewritten(files, id, push_change(array_path, element)) == files,
        },
{
    if stored(files, id) is Some {
        let doc = stored(files, id)->0;
        let path = split_path(array_path);
        lemma_pushed(doc, path, element);
        match get_nested(doc, path) {
            JsonView::Array(items) => {
                lemma_array_at_path(doc, array_path);
                lemma_get_nested_wf(doc, path);
                let value = JsonView::Array(items.push(element));
                assert forall|i: int| 0 <= i < items.push(element).len() implies (
                #[trigger] items.push(element)[i]).wf() by {
                    if i < items.len() {
                        assert(items[i].wf());
                    }
                }
                lemma_written_back(files, id, path, value);
            },
            _ => {},
        }
    }
}

/// A document with an array at the path that a dotted key names is an
/// object, and the path starts at a key without a dot.
pub proof fn lemma_array_at_path(doc: JsonView, array_path: Seq<char>)
    requires
        get_nested(doc, split_path(array_path)) is Array,
    ensures
        doc is Object,
        split_path(array_path).len() >= 1,
        plain(split_path(array_path)[0]),
{
    lemma_split_path_nonempty(array_path);
    lemma_split_segments_plain(array_path);
    if !(doc is Object) {
        lemma_get_in_no_object(doc, split_path(array_path));
    }
}

/// A pull from one record. Where the record's value at the path is an array,
/// the record is stored afterwards with that array holding the elements that
/// do not match, in their order: provided that no key of the record itself
/// holds a dot, and that the text written for the changed record is read
/// back as that record. Where no record is stored, or its value at the path
/// is no array, the files stay as they are.
pub proof fn lemma_pull_record(
    files: Files,
    id: Seq<char>,
    array_path: Seq<char>,
    condition: JsonView,
)
    requires
        stored(files, id) is Some ==> {
            let doc = stored(files, id)->0;
            &&& plain_keys(entries_of(doc))
            &&& pulled(doc, split_path(array_path), condition) is Some ==> document_of(
                rendered(pulled(doc, split_path(array_path), condition)->0),
            ) == pulled(doc, split_path(array_path), condition)
        },
    ensures
        match stored(files, id) {
            Some(doc) => match get_nested(doc, split_path(array_path)) {
                JsonView::Array(items) => {
                    let after = stored(
                        rewritten(files, id, pull_change(array_path, condition)),
                        id,
                    );
                    &&& after is Some
                    &&& get_nested(after->0, split_path(array_path)) == JsonView::Array(
                        without_matching(items, condition),
                    )
                },
                _ => rewritten(files, id, pull_change(array_path, condition)) == files,
            },
            None => rewritten(files, id, pull_change(array_path, condition)) == files,
        },
{
    if stored(files, id) is Some {
        let doc = stored(files, id)->0;
        let path = split_path(array_path);
        lemma_pulled(doc, path, condition);
        match get_nested(doc, path) {
            JsonView::Array(items) => {
                lemma_array_at_path(doc, array_path);
                lemma_get_nested_wf(doc, path);
                let kept = without_matching(items, condition);
                lemma_without_matching(items, condition);
                assert forall|i: int| 0 <= i < kept.len() implies (#[trigger] kept[i]).wf() by {
                    let at = kept_indices(items, condition)[i];
                    assert(items[at].wf());
                }
                lemma_written_back(files, id, path, JsonView::Array(kept));
            },
            _ => {},
        }
    }
}

/// An update of the elements of an array in one record. Where the record's
/// value at the path is an array, the record is stored afterwards with an
/// array of the same length there, in which the patch is merged into every
/// element that matches and every other element is as it was: provided that
/// no key of the record itself holds a dot, that the patch is well formed,
/// and that the text written for the changed record is read back as that
/// record. Where no record is stored, or its value at the path is no array,
/// the files stay as they are.
pub proof fn lemma_update_array_record(
    files: Files,
    id: Seq<char>,
    array_path: Seq<char>,
    condition: JsonView,
    patch: JsonView,
)
    requires
        patch.wf(),
        stored(files, id) is Some ==> {
            let doc = stored(files, id)->0;
            &&& plain_keys(entries_of(doc))
            &&& patched(doc, split_path(array_path), condition, patch) is Some ==> document_of(
                rendered(patched(doc, split_path(array_path), condition, patch)->0),
            ) == patched(doc, split_path(array_path), condition, patch)
        },
    ensures
        match stored(files, id) {
            Some(doc) => match get_nested(doc, split_path(array_path)) {
                JsonView::Array(items) => {
                    let after = stored(
                        rewritten(files, id, patch_change(array_path, condition, patch)),
                        id,
                    );
                    &&& after is Some
                    &&& get_nested(after->0, split_path(array_path)) is Array
                    &&& get_nested(after->0, split_path(array_path))->Array_0.len() == items.len()
                    &&& forall|i: int|
                        0 <= i < items.len() ==> #[trigger] get_nested(
                            after->0,
                            split_path(array_path),
                        )->Array_0[i] == if satisfies(items[i], condition) {
                            merge_patch(items[i], patch)
                        } else {
                            items[i]
                        }
                },
                _ => rewritten(files, id, patch_change(array_path, condition, patch)) == files,
            },
            None => rewritten(files, id, patch_change(array_path, condition, patch)) == files,
        },
{
    if stored(files, id) is Some {
        let doc = stored(files, id)->0;
        let path = split_path(array_path);
        lemma_patched(doc, path, condition, patch);
        match get_nested(doc, path) {
            JsonView::Array(items) => {
                lemma_array_at_path(doc, array_path);
                lemma_get_nested_wf(doc, path);
                let changed = with_matching_patched(items, condition, patch);
                assert forall|i: int| 0 <= i < changed.len() implies (
                #[trigger] changed[i]).wf() by {
                    assert(items[i].wf());
                    if satisfies(items[i], condition) {
                        lemma_merge_patch_wf(items[i], patch);
                    }
                }
                lemma_written_back(files, id, path, JsonView::Array(changed));
            },
            _ => {},
        }
    }
}

} // verus!
