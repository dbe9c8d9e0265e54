//! Changes to the array at a path of a document: appending an element,
//! removing the elements that match a condition, and patching them.

use vstd::prelude::*;
use crate::json::{Json, JsonView, items_view, items_wf, lemma_array_view};
use crate::path::{
    get_nested,
    get_nested_property,
    lemma_get_after_set,
    lemma_get_nested_wf,
    matches_condition,
    merge_patch,
    satisfies,
    set_nested,
    set_nested_property,
    update_nested_object,
};
use crate::text::path_view;

verus! {

/// The elements that do not match a condition, in their order.
pub open spec fn without_matching(items: Seq<JsonView>, condition: JsonView) -> Seq<JsonView> {
    items.filter(|item: JsonView| !satisfies(item, condition))
}

/// The elements with a patch merged into each one that matches a condition;
/// the others as they are.
pub open spec fn with_matching_patched(
    items: Seq<JsonView>,
    condition: JsonView,
    patch: JsonView,
) -> Seq<JsonView> {
    Seq::new(
        items.len(),
        |i: int|
            if satisfies(items[i], condition) {
                merge_patch(items[i], patch)
            } else {
                items[i]
            },
    )
}

/// The document with an element appended to the array at a path; `None`
/// where the value at the path is no array.
pub open spec fn pushed(doc: JsonView, path: Seq<Seq<char>>, element: JsonView) -> Option<
    JsonView,
> {
    match get_nested(doc, path) {
        JsonView::Array(items) => Some(set_nested(doc, path, JsonView::Array(items.push(element)))),
        _ => None,
    }
}

/// The document without the elements of the array at a path that match a
/// condition; `None` where the value at the path is no array.
pub open spec fn pulled(doc: JsonView, path: Seq<Seq<char>>, condition: JsonView) -> Option<
    JsonView,
> {
    match get_nested(doc, path) {
        JsonView::Array(items) => Some(
            set_nested(doc, path, JsonView::Array(without_matching(items, condition))),
        ),
        _ => None,
    }
}

/// The document with a patch merged into the elements of the array at a path
/// that match a condition; `None` where the value at the path is no array.
pub open spec fn patched(
    doc: JsonView,
    path: Seq<Seq<char>>,
    condition: JsonView,
    patch: JsonView,
) -> Option<JsonView> {
    match get_nested(doc, path) {
        JsonView::Array(items) => Some(
            set_nested(doc, path, JsonView::Array(with_matching_patched(items, condition, patch))),
        ),
        _ => None,
    }
}

/// Appending to the array at a path makes it longer by one, the new element
/// last; where the value at the path is no array, nothing is appended.
pub proof fn lemma_pushed(doc: JsonView, path: Seq<Seq<char>>, element: JsonView)
    ensures
        match get_nested(doc, path) {
            JsonView::Array(items) => pushed(doc, path, element) is Some && get_nested(
                pushed(doc, path, element)->0,
                path,
            ) == JsonView::Array(items.push(element)) && items.push(element).len() == items.len()
                + 1,
            _ => pushed(doc, path, element) is None,
        },
{
    match get_nested(doc, path) {
        JsonView::Array(items) => {
            lemma_get_after_set(doc, path, JsonView::Array(items.push(element)));
        },
        _ => {},
    }
}

/// The indices of the elements that do not match a condition, in rising
/// order.
pub open spec fn kept_indices(items: Seq<JsonView>, condition: JsonView) -> Seq<int>
    decreases items.len(),
{
    if items.len() == 0 {
        Seq::empty()
    } else {
        let init = kept_indices(items.drop_last(), condition);
        if satisfies(items.last(), condition) {
            init
        } else {
            init.push(items.len() - 1)
        }
    }
}

/// What is left after the matching elements were removed: exactly the
/// elements that do not match, each once, in the order in which they stood.
pub proof fn lemma_without_matching(items: Seq<JsonView>, condition: JsonView)
    ensures
        without_matching(items, condition).len() == kept_indices(items, condition).len(),
        forall|k: int|
            0 <= k < kept_indices(items, condition).len() ==> {
                let at = #[trigger] kept_indices(items, condition)[k];
                0 <= at < items.len() && !satisfies(items[at], condition) && without_matching(
                    items,
                    condition,
                )[k] == items[at]
            },
        forall|k: int, l: int|
            0 <= k < l < kept_indices(items, condition).len() ==> kept_indices(items, condition)[k]
                < kept_indices(items, condition)[l],
        forall|at: int|
            0 <= at < items.len() && !satisfies(#[trigger] items[at], condition)
                ==> kept_indices(items, condition).contains(at),
    decreases items.len(),
{
    reveal(Seq::filter);
    if items.len() > 0 {
        let init = items.drop_last();
        lemma_without_matching(init, condition);
        let indices = kept_indices(items, condition);
        let before = kept_indices(init, condition);
        assert forall|at: int|
            0 <= at < items.len() && !satisfies(
                #[trigger] items[at],
                condition,
            ) implies indices.contains(at) by {
            if at < init.len() {
                assert(init[at] == items[at]);
                let k = choose|k: int| 0 <= k < before.len() && before[k] == at;
                assert(indices[k] == at);
            } else {
                assert(indices[indices.len() - 1] == at);
            }
        }
        assert forall|k: int| 0 <= k < indices.len() implies {
            let at = #[trigger] indices[k];
            0 <= at < items.len() && !satisfies(items[at], condition) && without_matching(
                items,
                condition,
            )[k] == items[at]
        } by {
            if k < before.len() {
                assert(indices[k] == before[k]);
                assert(init[before[k]] == items[before[k]]);
            }
        }
    }
}

/// Removing the matching elements of the array at a path leaves there the
/// elements that do not match; where the value at the path is no array,
/// nothing is removed.
pub proof fn lemma_pulled(doc: JsonView, path: Seq<Seq<char>>, condition: JsonView)
    ensures
        match get_nested(doc, path) {
            JsonView::Array(items) => pulled(doc, path, condition) is Some && get_nested(
                pulled(doc, path, condition)->0,
                path,
            ) == JsonView::Array(without_matching(items, condition)),
            _ => pulled(doc, path, condition) is None,
        },
{
    match get_nested(doc, path) {
        JsonView::Array(items) => {
            lemma_get_after_set(doc, path, JsonView::Array(without_matching(items, condition)));
        },
        _ => {},
    }
}

/// Patching the matching elements of the array at a path leaves there an
/// array of the same length, in which every matching element has the patch
/// merged into it and every other element is as it was; where the value at
/// the path is no array, nothing is patched.
pub proof fn lemma_patched(
    doc: JsonView,
    path: Seq<Seq<char>>,
    condition: JsonView,
    patch: JsonView,
)
    ensures
        match get_nested(doc, path) {
            JsonView::Array(items) => {
                &&& patched(doc, path, condition, patch) is Some
                &&& get_nested(patched(doc, path, condition, patch)->0, path) is Array
                &&& {
                    let after = get_nested(patched(doc, path, condition, patch)->0, path)->Array_0;
                    &&& after.len() == items.len()
                    &&& forall|i: int|
                        0 <= i < items.len() ==> #[trigger] after[i] == if satisfies(
                            items[i],
                            condition,
                        ) {
                            merge_patch(items[i], patch)
                        } else {
                            items[i]
                        }
                }
            },
            _ => patched(doc, path, condition, patch) is None,
        },
{
    match get_nested(doc, path) {
        JsonView::Array(items) => {
            lemma_get_after_set(
                doc,
                path,
                JsonView::Array(with_matching_patched(items, condition, patch)),
            );
        },
        _ => {},
    }
}

/// Copies of the given values.
pub fn clone_items(items: &Vec<Json>) -> (copy: Vec<Json>)
    ensures
        items_view(copy@) == items_view(items@),
{
    let mut copy: Vec<Json> = Vec::new();
    let mut i: usize = 0;
    while i < items.len()
        invariant
            i <= items.len(),
            copy@.len() == i,
            forall|j: int| 0 <= j < i ==> copy@[j]@ == items@[j]@,
        decreases items.len() - i,
    {
        copy.push(items[i].clone());
        i = i + 1;
    }
    assert(items_view(copy@) =~= items_view(items@));
    copy
}

/// Copies of the elements that do not match a condition, in their order.
pub fn pull_elements(items: &Vec<Json>, condition: &Json) -> (kept: Vec<Json>)
    ensures
        items_view(kept@) == without_matching(items_view(items@), condition@),
        items_wf(items_view(items@)) ==> items_wf(items_view(kept@)),
{
    let ghost all = items_view(items@);
    let ghost keep = |item: JsonView| !satisfies(item, condition@);
    let mut kept: Vec<Json> = Vec::new();
    let mut i: usize = 0;
    proof {
        reveal(Seq::filter);
        assert(all.take(0) =~= Seq::empty());
    }
    while i < items.len()
        invariant
            i <= items.len(),
            all == items_view(items@),
            keep == |item: JsonView| !satisfies(item, condition@),
            items_view(kept@) == all.take(i as int).filter(keep),
            items_wf(all) ==> items_wf(items_view(kept@)),
        decreases items.len() - i,
    {
        let ghost done = items_view(kept@);
        proof {
            reveal(Seq::filter);
            assert(all.take(i + 1).drop_last() =~= all.take(i as int));
            assert(all.take(i + 1).last() == items@[i as int]@);
        }
        if !matches_condition(&items[i], condition) {
            kept.push(items[i].clone());
            assert(items_view(kept@) =~= done.push(all[i as int]));
            assert(items_wf(all) ==> all[i as int].wf());
        }
        i = i + 1;
    }
    assert(all.take(i as int) =~= all);
    kept
}

/// Copies of the elements, with a patch merged into each one that matches a
/// condition. The patch must be an object.
pub fn update_elements(items: &Vec<Json>, condition: &Json, patch: &Json) -> (changed: Vec<Json>)
    requires
        patch@ is Object,
    ensures
        items_view(changed@) == with_matching_patched(items_view(items@), condition@, patch@),
        items_wf(items_view(items@)) && patch@.wf() ==> items_wf(items_view(changed@)),
{
    let mut changed: Vec<Json> = Vec::new();
    let mut i: usize = 0;
    while i < items.len()
        invariant
            i <= items.len(),
            changed@.len() == i,
            forall|j: int|
                0 <= j < i ==> changed@[j]@ == with_matching_patched(
                    items_view(items@),
                    condition@,
                    patch@,
                )[j],
            items_wf(items_view(items@)) && patch@.wf() ==> forall|j: int|
                0 <= j < i ==> (#[trigger] changed@[j])@.wf(),
            patch@ is Object,
        decreases items.len() - i,
    {
        let mut element = items[i].clone();
        assert(items_wf(items_view(items@)) ==> items_view(items@)[i as int].wf());
        if matches_condition(&element, condition) {
            update_nested_object(&mut element, patch);
        }
        changed.push(element);
        i = i + 1;
    }
    assert(items_view(changed@) =~= with_matching_patched(
        items_view(items@),
        condition@,
        patch@,
    ));
    assert(items_wf(items_view(items@)) && patch@.wf() ==> forall|j: int|
        0 <= j < changed@.len() ==> (#[trigger] items_view(changed@)[j]).wf());
    changed
}

/// Appends an element to the array at a path of a document; `None` where the
/// value at the path is no array.
pub fn push_to_array(doc: Json, path: &Vec<String>, element: &Json) -> (r: Option<Json>)
    ensures
        match r {
            Some(new) => pushed(doc@, path_view(path@), element@) == Some(new@),
            None => pushed(doc@, path_view(path@), element@) is None,
        },
        doc@.wf() && element@.wf() && r is Some ==> r->0@.wf(),
        path@.len() >= 1 && r is Some ==> r->0@ is Object,
{
    proof {
        if doc@.wf() {
            lemma_get_nested_wf(doc@, path_view(path@));
        }
    }
    let mut items = match get_nested_property(&doc, path) {
        Json::Array(items) => {
            proof {
                lemma_array_view(*items);
            }
            clone_items(items)
        },
        _ => {
            return None;
        },
    };
    let ghost before = items_view(items@);
    items.push(element.clone());
    proof {
        lemma_array_view(items);
        assert(items_view(items@) =~= before.push(element@));
        if doc@.wf() && element@.wf() {
            assert forall|i: int| 0 <= i < before.push(element@).len() implies (
            #[trigger] before.push(element@)[i]).wf() by {
                if i < before.len() {
                    assert(before[i].wf());
                }
            }
        }
    }
    let mut doc = doc;
    set_nested_property(&mut doc, path, Json::Array(items));
    Some(doc)
}

/// Removes the elements that match a condition from the array at a path of a
/// document; `None` where the value at the path is no array.
pub fn pull_from_array(doc: Json, path: &Vec<String>, condition: &Json) -> (r: Option<Json>)
    ensures
        match r {
            Some(new) => pulled(doc@, path_view(path@), condition@) == Some(new@),
            None => pulled(doc@, path_view(path@), condition@) is None,
        },
        doc@.wf() && r is Some ==> r->0@.wf(),
        path@.len() >= 1 && r is Some ==> r->0@ is Object,
{
    proof {
        if doc@.wf() {
            lemma_get_nested_wf(doc@, path_view(path@));
        }
    }
    let items = match get_nested_property(&doc, path) {
        Json::Array(items) => {
            proof {
                lemma_array_view(*items);
            }
            pull_elements(items, condition)
        },
        _ => {
            return None;
        },
    };
    proof {
        lemma_array_view(items);
    }
    let mut doc = doc;
    set_nested_property(&mut doc, path, Json::Array(items));
    Some(doc)
}

/// Merges a patch into the elements that match a condition, in the array at
/// a path of a document; `None` where the value at the path is no array. The
/// patch must be an object.
pub fn update_in_array(
    doc: Json,
    path: &Vec<String>,
    condition: &Json,
    patch: &Json,
) -> (r: Option<Json>)
    requires
        patch@ is Object,
    ensures
        match r {
            Some(new) => patched(doc@, path_view(path@), condition@, patch@) == Some(new@),
            None => patched(doc@, path_view(path@), condition@, patch@) is None,
        },
        doc@.wf() && patch@.wf() && r is Some ==> r->0@.wf(),
        path@.len() >= 1 && r is Some ==> r->0@ is Object,
{
    proof {
        if doc@.wf() {
            lemma_get_nested_wf(doc@, path_view(path@));
        }
    }
    let items = match get_nested_property(&doc, path) {
        Json::Array(items) => {
            proof {
                lemma_array_view(*items);
            }
            update_elements(items, condition, patch)
        },
        _ => {
            return None;
        },
    };
    proof {
        lemma_array_view(items);
    }
    let mut doc = doc;
    set_nested_property(&mut doc, path, Json::Array(items));
    Some(doc)
}

} // verus!
