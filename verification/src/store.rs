//! The collection store: records kept as JSON files, one per identifier, in
//! the directory of the current model.

use vstd::prelude::*;
use crate::array::{patched, pull_from_array, pulled, push_to_array, pushed, update_in_array};
use crate::codec::{document_of, rendered};
use crate::directory::{Directory, Files, read_file, remove_file, write_file};
use crate::json::{Json, JsonView, items_view};
use crate::path::{
    matches_condition,
    member_of,
    member_or_null,
    merge_patch,
    satisfies,
    update_nested_object,
};
use crate::text::{
    file_name_of,
    has_record_extension,
    id_of_file_name,
    is_record_file_name,
    path_view,
    record_file_name,
    record_id,
    split_key,
    split_path,
};

verus! {

/// The name of the member that holds a record's identifier.
pub open spec fn id_key() -> Seq<char> {
    seq!['i', 'd']
}

/// The identifier of a document: the string under `id`, or the empty string
/// where there is none.
pub open spec fn id_of(doc: JsonView) -> Seq<char> {
    match member_or_null(doc, id_key()) {
        JsonView::String(id) => id,
        _ => Seq::empty(),
    }
}

/// What has an identifier.
pub trait Identifiable {
    /// The identifier.
    fn get_id(&self) -> String;
}

impl Identifiable for Json {
    fn get_id(&self) -> (id: String)
        ensures
            id@ == id_of(self@),
    {
        proof {
            reveal_strlit("id");
            assert("id"@ =~= id_key());
        }
        match member_of(self, "id") {
            Json::String(id) => id.clone(),
            _ => String::new(),
        }
    }
}

/// The directory under which the models are kept unless another is given.
pub open spec fn default_base_dir() -> Seq<char> {
    seq!['j', 's', 'o', 'n', '-', 'd', 'b']
}

/// The path of a model's directory: the base directory, a slash, the model's
/// name.
pub open spec fn model_path(base_dir: Seq<char>, model: Seq<char>) -> Seq<char> {
    base_dir + seq!['/'] + model
}

/// The path of a record's file: the model's directory, a slash, the name of
/// the record's file.
pub open spec fn file_path(base_dir: Seq<char>, model: Seq<char>, id: Seq<char>) -> Seq<char> {
    model_path(base_dir, model) + seq!['/'] + record_file_name(id)
}

/// The record that is stored under an identifier: the document that the
/// text of its file holds. There is none where the file is missing or its
/// text holds no document.
pub open spec fn stored(files: Files, id: Seq<char>) -> Option<JsonView> {
    match read_file(files, record_file_name(id)) {
        Some(text) => document_of(text),
        None => None,
    }
}

/// The files after a record was written under an identifier.
pub open spec fn created(files: Files, id: Seq<char>, doc: JsonView) -> Files {
    write_file(files, record_file_name(id), rendered(doc))
}

/// The files after a patch was merged into the record under an identifier:
/// unchanged where no record is stored there.
pub open spec fn updated(files: Files, id: Seq<char>, patch: JsonView) -> Files {
    match stored(files, id) {
        Some(doc) => created(files, id, merge_patch(doc, patch)),
        None => files,
    }
}

/// The files after the record under an identifier was deleted.
pub open spec fn deleted(files: Files, id: Seq<char>) -> Files {
    remove_file(files, record_file_name(id))
}

/// The records of a directory, in the order of its files: the document that
/// each file with the extension of a record holds; a file whose text holds
/// no document gives none.
pub open spec fn records(files: Files) -> Seq<JsonView>
    decreases files.len(),
{
    if files.len() == 0 {
        Seq::empty()
    } else {
        let init = records(files.drop_last());
        let last = files.last();
        if is_record_file_name(last.0) && document_of(last.1) is Some {
            init.push(document_of(last.1)->0)
        } else {
            init
        }
    }
}

/// The records of a directory that match a condition, in the order of its
/// files.
pub open spec fn matching(files: Files, condition: JsonView) -> Seq<JsonView> {
    records(files).filter(|doc: JsonView| satisfies(doc, condition))
}

/// The identifiers of the records of a directory that match a condition, in
/// the order of its files. The identifier of a record is the one that the
/// name of its file stands for.
pub open spec fn matching_ids(files: Files, condition: JsonView) -> Seq<Seq<char>>
    decreases files.len(),
{
    if files.len() == 0 {
        Seq::empty()
    } else {
        let init = matching_ids(files.drop_last(), condition);
        let last = files.last();
        if is_record_file_name(last.0) && document_of(last.1) is Some && satisfies(
            document_of(last.1)->0,
            condition,
        ) {
            init.push(record_id(last.0))
        } else {
            init
        }
    }
}

/// The files after a patch was merged into the record under each of the
/// given identifiers in turn.
pub open spec fn updated_each(files: Files, ids: Seq<Seq<char>>, patch: JsonView) -> Files
    decreases ids.len(),
{
    if ids.len() == 0 {
        files
    } else {
        updated(updated_each(files, ids.drop_last(), patch), ids.last(), patch)
    }
}

/// The files after the record under each of the given identifiers was
/// deleted in turn.
pub open spec fn deleted_each(files: Files, ids: Seq<Seq<char>>) -> Files
    decreases ids.len(),
{
    if ids.len() == 0 {
        files
    } else {
        deleted(deleted_each(files, ids.drop_last()), ids.last())
    }
}

/// The files after the record under an identifier was changed and written
/// back by way of an update with the whole changed record as the patch.
/// Nothing happens where no record is stored there or the change gives none.
pub open spec fn rewritten(
    files: Files,
    id: Seq<char>,
    change: spec_fn(JsonView) -> Option<JsonView>,
) -> Files {
    match stored(files, id) {
        Some(doc) => match change(doc) {
            Some(new) => updated(files, id, new),
            None => files,
        },
        None => files,
    }
}

/// The files after the record under each of the given identifiers was
/// changed in turn.
pub open spec fn rewritten_each(
    files: Files,
    ids: Seq<Seq<char>>,
    change: spec_fn(JsonView) -> Option<JsonView>,
) -> Files
    decreases ids.len(),
{
    if ids.len() == 0 {
        files
    } else {
        rewritten(rewritten_each(files, ids.drop_last(), change), ids.last(), change)
    }
}

/// The change that appends an element to the array at the path that a
/// dotted key names.
pub open spec fn push_change(array_path: Seq<char>, element: JsonView) -> spec_fn(
    JsonView,
) -> Option<JsonView> {
    |doc: JsonView| pushed(doc, split_path(array_path), element)
}

/// The change that removes the elements that match a condition from the
/// array at the path that a dotted key names.
pub open spec fn pull_change(array_path: Seq<char>, condition: JsonView) -> spec_fn(
    JsonView,
) -> Option<JsonView> {
    |doc: JsonView| pulled(doc, split_path(array_path), condition)
}

/// The change that merges a patch into the elements that match a condition,
/// in the array at the path that a dotted key names.
pub open spec fn patch_change(
    array_path: Seq<char>,
    condition: JsonView,
    patch: JsonView,
) -> spec_fn(JsonView) -> Option<JsonView> {
    |doc: JsonView| patched(doc, split_path(array_path), condition, patch)
}

/// A store of records: the base directory and the name of the current model.
/// The files themselves are handed to each operation as a `Directory`.
#[derive(Debug)]
pub struct JsonDatabase {
    base_dir: String,
    current_model_name: Option<String>,
}

impl Clone for JsonDatabase {
    fn clone(&self) -> (copy: JsonDatabase)
        ensures
            copy.base() == self.base(),
            copy.current() == self.current(),
    {
        let current_model_name = match &self.current_model_name {
            Some(name) => Some(name.clone()),
            None => None,
        };
        JsonDatabase { base_dir: self.base_dir.clone(), current_model_name }
    }
}

impl JsonDatabase {
    /// The base directory.
    pub closed spec fn base(&self) -> Seq<char> {
        self.base_dir@
    }

    /// The name of the current model, if one was chosen.
    pub closed spec fn current(&self) -> Option<Seq<char>> {
        match self.current_model_name {
            Some(name) => Some(name@),
            None => None,
        }
    }

    /// A store under the default base directory, with the given model as the
    /// current one.
    pub fn new(model_name: Option<&str>) -> (db: JsonDatabase)
        ensures
            db.base() == default_base_dir(),
            db.current() == match model_name {
                Some(name) => Some(name@),
                None => None,
            },
    {
        proof {
            reveal_strlit("json-db");
            assert("json-db"@ =~= default_base_dir());
        }
        JsonDatabase::with_base_dir("json-db", model_name)
    }

    /// A store under the given base directory, with the given model as the
    /// current one.
    pub fn with_base_dir(base_dir: &str, model_name: Option<&str>) -> (db: JsonDatabase)
        ensures
            db.base() == base_dir@,
            db.current() == match model_name {
                Some(name) => Some(name@),
                None => None,
            },
    {
        let current_model_name = match model_name {
            Some(name) => Some(name.to_owned()),
            None => None,
        };
        JsonDatabase { base_dir: base_dir.to_owned(), current_model_name }
    }

    /// Makes the given model the current one.
    pub fn model(&mut self, model_name: &str) -> (db: &mut JsonDatabase)
        ensures
            db.base() == old(self).base(),
            db.current() == Some(model_name@),
            *final(self) == *final(db),
    {
        self.current_model_name = Some(model_name.to_owned());
        self
    }

    /// The name of the current model, if one was chosen.
    pub fn current_model(&self) -> (r: Option<&String>)
        ensures
            match r {
                Some(name) => self.current() == Some(name@),
                None => self.current() is None,
            },
    {
        match &self.current_model_name {
            Some(name) => Some(name),
            None => None,
        }
    }

    /// The path of the directory of the given model.
    pub fn get_model_path(&self, model_name: &str) -> (path: String)
        ensures
            path@ == model_path(self.base(), model_name@),
    {
        proof {
            reveal_strlit("/");
            assert("/"@ =~= seq!['/']);
        }
        self.base_dir.clone().concat("/").concat(model_name)
    }

    /// The path of the file of the record with the given identifier, in the
    /// directory of the current model.
    pub fn get_file_path(&self, id: &str) -> (path: String)
        requires
            self.current() is Some,
        ensures
            path@ == file_path(self.base(), self.current()->0, id@),
    {
        proof {
            reveal_strlit("/");
            assert("/"@ =~= seq!['/']);
        }
        let name = file_name_of(id);
        match &self.current_model_name {
            Some(model_name) => self.get_model_path(model_name.as_str()).concat("/").concat(
                name.as_str(),
            ),
            None => vstd::pervasive::unreached(),
        }
    }

    /// The names of the files of a directory that have the extension of a
    /// record, in the order of the listing.
    pub fn get_all_files(&self, dir: &Directory) -> (names: Vec<String>)
        requires
            self.current() is Some,
        ensures
            path_view(names@) == dir@.map_values(|f: (Seq<char>, Seq<char>)| f.0).filter(
                |name: Seq<char>| is_record_file_name(name),
            ),
    {
        let ghost all = dir@.map_values(|f: (Seq<char>, Seq<char>)| f.0);
        let ghost keep = |name: Seq<char>| is_record_file_name(name);
        let mut names: Vec<String> = Vec::new();
        let mut i: usize = 0;
        proof {
            reveal(Seq::filter);
            assert(all.take(0) =~= Seq::empty());
        }
        while i < dir.files.len()
            invariant
                i <= dir.files.len(),
                all == dir@.map_values(|f: (Seq<char>, Seq<char>)| f.0),
                keep == |name: Seq<char>| is_record_file_name(name),
                path_view(names@) == all.take(i as int).filter(keep),
            decreases dir.files.len() - i,
        {
            let ghost done = path_view(names@);
            proof {
                reveal(Seq::filter);
                assert(all.take(i + 1).drop_last() =~= all.take(i as int));
                assert(all.take(i + 1).last() == dir@[i as int].0);
            }
            if has_record_extension(dir.files[i].name.as_str()) {
                names.push(dir.files[i].name.clone());
                assert(path_view(names@) =~= done.push(dir@[i as int].0));
            }
            i = i + 1;
        }
        assert(all.take(i as int) =~= all);
        names
    }

    /// Writes a record under an identifier; a record that was stored there
    /// is replaced.
    pub fn create(&self, dir: &mut Directory, id: &str, data: Json)
        requires
            self.current() is Some,
        ensures
            final(dir)@ == created(old(dir)@, id@, data@),
            old(dir).wf() ==> final(dir).wf(),
    {
        dir.write(file_name_of(id), data.to_pretty_text());
    }

    /// Writes a record under its own identifier, which must not be empty.
    pub fn create_model(&self, dir: &mut Directory, data: Json)
        requires
            self.current() is Some,
            id_of(data@).len() > 0,
        ensures
            final(dir)@ == created(old(dir)@, id_of(data@), data@),
            old(dir).wf() ==> final(dir).wf(),
    {
        let id = data.get_id();
        self.create(dir, id.as_str(), data);
    }

    /// Reads the record under an identifier; `None` where no file is stored
    /// there or its text is not JSON.
    pub fn find_by_id(&self, dir: &Directory, id: &str) -> (r: Option<Json>)
        requires
            self.current() is Some,
        ensures
            match r {
                Some(doc) => stored(dir@, id@) == Some(doc@) && doc@.wf(),
                None => stored(dir@, id@) is None,
            },
    {
        let name = file_name_of(id);
        match dir.read(name.as_str()) {
            Some(text) => Json::parse(text.as_str()),
            None => None,
        }
    }

    /// Merges a patch into the record under an identifier and writes the
    /// record back; nothing happens where no record is stored there. The
    /// patch must be an object.
    pub fn update_by_id(&self, dir: &mut Directory, id: &str, data: Json)
        requires
            self.current() is Some,
            data@ is Object,
        ensures
            final(dir)@ == updated(old(dir)@, id@, data@),
            old(dir).wf() ==> final(dir).wf(),
    {
        if let Some(mut existing) = self.find_by_id(dir, id) {
            update_nested_object(&mut existing, &data);
            self.create(dir, id, existing);
        }
    }

    /// Deletes the record under an identifier, if one is stored there.
    pub fn delete_by_id(&self, dir: &mut Directory, id: &str)
        requires
            self.current() is Some,
        ensures
            final(dir)@ == deleted(old(dir)@, id@),
            old(dir).wf() ==> final(dir).wf(),
    {
        let name = file_name_of(id);
        dir.remove(name.as_str());
    }

    /// All records of the directory, in the order of its files. A file is
    /// read if its name has the extension of a record, and passed over if its
    /// text is not JSON.
    pub fn find_all(&self, dir: &Directory) -> (found: Vec<Json>)
        requires
            self.current() is Some,
        ensures
            items_view(found@) == records(dir@),
            forall|i: int| 0 <= i < found@.len() ==> (#[trigger] found@[i])@.wf(),
    {
        let mut found: Vec<Json> = Vec::new();
        let mut i: usize = 0;
        assert(dir@.take(0) =~= Seq::empty());
        while i < dir.files.len()
            invariant
                i <= dir.files.len(),
                items_view(found@) == records(dir@.take(i as int)),
                forall|j: int| 0 <= j < found@.len() ==> (#[trigger] found@[j])@.wf(),
            decreases dir.files.len() - i,
        {
            let ghost done = items_view(found@);
            proof {
                assert(dir@.take(i + 1).drop_last() =~= dir@.take(i as int));
                assert(dir@.take(i + 1).last() == dir@[i as int]);
            }
            if has_record_extension(dir.files[i].name.as_str()) {
                if let Some(doc) = Json::parse(dir.files[i].text.as_str()) {
                    let ghost d = doc@;
                    found.push(doc);
                    assert(items_view(found@) =~= done.push(d));
                }
            }
            i = i + 1;
        }
        assert(dir@.take(i as int) =~= dir@);
        found
    }

    /// The records that match a condition, in the order of the files.
    pub fn find(&self, dir: &Directory, condition: &Json) -> (found: Vec<Json>)
        requires
            self.current() is Some,
        ensures
            items_view(found@) == matching(dir@, condition@),
            forall|i: int| 0 <= i < found@.len() ==> (#[trigger] found@[i])@.wf(),
    {
        let all = self.find_all(dir);
        let ghost docs = items_view(all@);
        let ghost keep = |doc: JsonView| satisfies(doc, condition@);
        let ghost whole = all@;
        let mut found: Vec<Json> = Vec::new();
        proof {
            reveal(Seq::filter);
            assert(docs.take(0) =~= Seq::empty());
        }
        for doc in it: all
            invariant
                it.seq() == whole,
                docs == items_view(whole),
                keep == |doc: JsonView| satisfies(doc, condition@),
                items_view(found@) == docs.take(it.index() as int).filter(keep),
                forall|j: int| 0 <= j < whole.len() ==> (#[trigger] whole[j])@.wf(),
                forall|j: int| 0 <= j < found@.len() ==> (#[trigger] found@[j])@.wf(),
        {
            let ghost done = items_view(found@);
            let ghost i = it.index() as int;
            proof {
                reveal(Seq::filter);
                assert(docs.take(i + 1).drop_last() =~= docs.take(i));
                assert(docs.take(i + 1).last() == doc@);
            }
            if matches_condition(&doc, condition) {
                found.push(doc);
                assert(items_view(found@) =~= done.push(docs[i]));
            }
        }
        assert(docs.take(whole.len() as int) =~= docs);
        found
    }

    /// The identifiers of the records that match a condition, in the order of
    /// the files: each is the one that the name of the record's file stands
    /// for.
    pub fn find_ids(&self, dir: &Directory, condition: &Json) -> (ids: Vec<String>)
        requires
            self.current() is Some,
        ensures
            path_view(ids@) == matching_ids(dir@, condition@),
    {
        let mut ids: Vec<String> = Vec::new();
        let mut i: usize = 0;
        assert(dir@.take(0) =~= Seq::empty());
        while i < dir.files.len()
            invariant
                i <= dir.files.len(),
                path_view(ids@) == matching_ids(dir@.take(i as int), condition@),
            decreases dir.files.len() - i,
        {
            let ghost done = path_view(ids@);
            proof {
                assert(dir@.take(i + 1).drop_last() =~= dir@.take(i as int));
                assert(dir@.take(i + 1).last() == dir@[i as int]);
            }
            let name = dir.files[i].name.as_str();
            if has_record_extension(name) {
                if let Some(doc) = Json::parse(dir.files[i].text.as_str()) {
                    if matches_condition(&doc, condition) {
                        let id = id_of_file_name(name);
                        let ghost added = id@;
                        ids.push(id);
                        assert(path_view(ids@) =~= done.push(added));
                    }
                }
            }
            i = i + 1;
        }
        assert(dir@.take(i as int) =~= dir@);
        ids
    }

    /// The first record that matches a condition, in the order of the files.
    pub fn find_one(&self, dir: &Directory, condition: &Json) -> (r: Option<Json>)
        requires
            self.current() is Some,
        ensures
            match r {
                Some(doc) => matching(dir@, condition@).len() > 0 && doc@ == matching(
                    dir@,
                    condition@,
                )[0] && doc@.wf(),
                None => matching(dir@, condition@).len() == 0,
            },
    {
        let mut found = self.find(dir, condition);
        if found.len() > 0 {
            Some(found.swap_remove(0))
        } else {
            None
        }
    }

    /// The number of records that match a condition.
    pub fn count(&self, dir: &Directory, condition: &Json) -> (n: usize)
        requires
            self.current() is Some,
        ensures
            n == matching(dir@, condition@).len(),
    {
        self.find(dir, condition).len()
    }

    /// Merges a patch into every record that matches a condition. The
    /// records are those that match before the first is changed, in the
    /// order of the files; each is changed under the identifier that the
    /// name of its file stands for. The patch must be an object.
    pub fn update_many(&self, dir: &mut Directory, condition: &Json, data: &Json)
        requires
            self.current() is Some,
            data@ is Object,
        ensures
            final(dir)@ == updated_each(old(dir)@, matching_ids(old(dir)@, condition@), data@),
            old(dir).wf() ==> final(dir).wf(),
    {
        let ids = self.find_ids(dir, condition);
        let ghost all = path_view(ids@);
        let mut i: usize = 0;
        assert(all.take(0) =~= Seq::empty());
        while i < ids.len()
            invariant
                self.current() is Some,
                i <= ids.len(),
                all == path_view(ids@),
                data@ is Object,
                dir@ == updated_each(old(dir)@, all.take(i as int), data@),
                old(dir).wf() ==> dir.wf(),
            decreases ids.len() - i,
        {
            proof {
                assert(all.take(i + 1).drop_last() =~= all.take(i as int));
                assert(all.take(i + 1).last() == ids@[i as int]@);
            }
            let id = &ids[i];
            self.update_by_id(dir, id.as_str(), data.clone());
            i = i + 1;
        }
        assert(all.take(i as int) =~= all);
    }

    /// Deletes every record that matches a condition. The records are those
    /// that match before the first is deleted; each is deleted under the
    /// identifier that the name of its file stands for.
    pub fn delete_many(&self, dir: &mut Directory, condition: &Json)
        requires
            self.current() is Some,
        ensures
            final(dir)@ == deleted_each(old(dir)@, matching_ids(old(dir)@, condition@)),
            old(dir).wf() ==> final(dir).wf(),
    {
        let ids = self.find_ids(dir, condition);
        let ghost all = path_view(ids@);
        let mut i: usize = 0;
        assert(all.take(0) =~= Seq::empty());
        while i < ids.len()
            invariant
                self.current() is Some,
                i <= ids.len(),
                all == path_view(ids@),
                dir@ == deleted_each(old(dir)@, all.take(i as int)),
                old(dir).wf() ==> dir.wf(),
            decreases ids.len() - i,
        {
            proof {
                assert(all.take(i + 1).drop_last() =~= all.take(i as int));
                assert(all.take(i + 1).last() == ids@[i as int]@);
            }
            let id = &ids[i];
            self.delete_by_id(dir, id.as_str());
            i = i + 1;
        }
        assert(all.take(i as int) =~= all);
    }

    /// Appends an element to the array at a path, in every record that
    /// matches a condition. A record whose value at the path is no array is
    /// left as it is.
    pub fn push(&self, dir: &mut Directory, condition: &Json, array_path: &str, element: &Json)
        requires
            self.current() is Some,
        ensures
            final(dir)@ == rewritten_each(
                old(dir)@,
                matching_ids(old(dir)@, condition@),
                push_change(array_path@, element@),
            ),
            old(dir).wf() ==> final(dir).wf(),
    {
        let ids = self.find_ids(dir, condition);
        let keys = split_key(array_path);
        let ghost all = path_view(ids@);
        let ghost change = push_change(array_path@, element@);
        let mut i: usize = 0;
        assert(all.take(0) =~= Seq::empty());
        while i < ids.len()
            invariant
                self.current() is Some,
                i <= ids.len(),
                all == path_view(ids@),
                path_view(keys@) == split_path(array_path@),
                keys@.len() >= 1,
                change == push_change(array_path@, element@),
                dir@ == rewritten_each(old(dir)@, all.take(i as int), change),
                old(dir).wf() ==> dir.wf(),
            decreases ids.len() - i,
        {
            proof {
                assert(all.take(i + 1).drop_last() =~= all.take(i as int));
                assert(all.take(i + 1).last() == ids@[i as int]@);
            }
            let id = &ids[i];
            if let Some(data) = self.find_by_id(dir, id.as_str()) {
                if let Some(changed) = push_to_array(data, &keys, element) {
                    self.update_by_id(dir, id.as_str(), changed);
                }
            }
            i = i + 1;
        }
        assert(all.take(i as int) =~= all);
    }

    /// Removes the elements that match a condition from the array at a path,
    /// in every record that matches a condition. A record whose value at the
    /// path is no array is left as it is.
    pub fn pull(
        &self,
        dir: &mut Directory,
        condition: &Json,
        array_path: &str,
        pull_condition: &Json,
    )
        requires
            self.current() is Some,
        ensures
            final(dir)@ == rewritten_each(
                old(dir)@,
                matching_ids(old(dir)@, condition@),
                pull_change(array_path@, pull_condition@),
            ),
            old(dir).wf() ==> final(dir).wf(),
    {
        let ids = self.find_ids(dir, condition);
        let keys = split_key(array_path);
        let ghost all = path_view(ids@);
        let ghost change = pull_change(array_path@, pull_condition@);
        let mut i: usize = 0;
        assert(all.take(0) =~= Seq::empty());
        while i < ids.len()
            invariant
                self.current() is Some,
                i <= ids.len(),
                all == path_view(ids@),
                path_view(keys@) == split_path(array_path@),
                keys@.len() >= 1,
                change == pull_change(array_path@, pull_condition@),
                dir@ == rewritten_each(old(dir)@, all.take(i as int), change),
                old(dir).wf() ==> dir.wf(),
            decreases ids.len() - i,
        {
            proof {
                assert(all.take(i + 1).drop_last() =~= all.take(i as int));
                assert(all.take(i + 1).last() == ids@[i as int]@);
            }
            let id = &ids[i];
            if let Some(data) = self.find_by_id(dir, id.as_str()) {
                if let Some(changed) = pull_from_array(data, &keys, pull_condition) {
                    self.update_by_id(dir, id.as_str(), changed);
                }
            }
            i = i + 1;
        }
        assert(all.take(i as int) =~= all);
    }

    /// Merges a patch into the elements that match a condition, in the array
    /// at a path, in every record that matches a condition. A record whose
    /// value at the path is no array is left as it is. The patch must be an
    /// object.
    pub fn update_array(
        &self,
        dir: &mut Directory,
        condition: &Json,
        array_path: &str,
        array_condition: &Json,
        updates: &Json,
    )
        requires
            self.current() is Some,
            updates@ is Object,
        ensures
            final(dir)@ == rewritten_each(
                old(dir)@,
                matching_ids(old(dir)@, condition@),
                patch_change(array_path@, array_condition@, updates@),
            ),
            old(dir).wf() ==> final(dir).wf(),
    {
        let ids = self.find_ids(dir, condition);
        let keys = split_key(array_path);
        let ghost all = path_view(ids@);
        let ghost change = patch_change(array_path@, array_condition@, updates@);
        let mut i: usize = 0;
        assert(all.take(0) =~= Seq::empty());
        while i < ids.len()
            invariant
                self.current() is Some,
                i <= ids.len(),
                all == path_view(ids@),
                path_view(keys@) == split_path(array_path@),
                keys@.len() >= 1,
                change == patch_change(array_path@, array_condition@, updates@),
                updates@ is Object,
                dir@ == rewritten_each(old(dir)@, all.take(i as int), change),
                old(dir).wf() ==> dir.wf(),
            decreases ids.len() - i,
        {
            proof {
                assert(all.take(i + 1).drop_last() =~= all.take(i as int));
                assert(all.take(i + 1).last() == ids@[i as int]@);
            }
            let id = &ids[i];
            if let Some(data) = self.find_by_id(dir, id.as_str()) {
                if let Some(changed) = update_in_array(data, &keys, array_condition, updates) {
                    self.update_by_id(dir, id.as_str(), changed);
                }
            }
            i = i + 1;
        }
        assert(all.take(i as int) =~= all);
    }
}

} // verus!
