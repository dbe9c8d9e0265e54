//! The image of a collection's directory: its files, each a name and a text,
//! in the order of the listing.

use vstd::prelude::*;

verus! {

/// The files of a directory, as the model holds them: name and text.
pub type Files = Seq<(Seq<char>, Seq<char>)>;

/// One file of a directory.
#[derive(Debug)]
pub struct StoredFile {
    pub name: String,
    pub text: String,
}

/// The files of one directory, in the order of its listing.
#[derive(Debug)]
pub struct Directory {
    pub files: Vec<StoredFile>,
}

impl View for Directory {
    type V = Files;

    open spec fn view(&self) -> Files {
        Seq::new(self.files@.len(), |i: int| (self.files@[i].name@, self.files@[i].text@))
    }
}

/// Whether no two files have the same name.
pub open spec fn distinct_names(files: Files) -> bool {
    forall|i: int, j: int|
        0 <= i < j < files.len() ==> (#[trigger] files[i]).0 != (#[trigger] files[j]).0
}

/// The index of the first file with the given name, or the number of files
/// if none has it.
pub open spec fn file_index(files: Files, name: Seq<char>) -> int
    decreases files.len(),
{
    if files.len() == 0 || files[0].0 == name {
        0
    } else {
        1 + file_index(files.drop_first(), name)
    }
}

/// The text of the file with the given name, if there is one.
pub open spec fn read_file(files: Files, name: Seq<char>) -> Option<Seq<char>> {
    let at = file_index(files, name);
    if at < files.len() {
        Some(files[at].1)
    } else {
        None
    }
}

/// The files after a text was written under a name: the file with that name
/// gets the text where it stands; if there is none, a new file comes last.
pub open spec fn write_file(files: Files, name: Seq<char>, text: Seq<char>) -> Files {
    let at = file_index(files, name);
    if at < files.len() {
        files.update(at, (name, text))
    } else {
        files.push((name, text))
    }
}

/// The files after the file with the given name was removed, if there was
/// one.
pub open spec fn remove_file(files: Files, name: Seq<char>) -> Files {
    let at = file_index(files, name);
    if at < files.len() {
        files.remove(at)
    } else {
        files
    }
}

/// What `file_index` returns: no file before it has the name, and the file at
/// it, if any, has.
pub proof fn lemma_file_index(files: Files, name: Seq<char>)
    ensures
        0 <= file_index(files, name) <= files.len(),
        forall|j: int| 0 <= j < file_index(files, name) ==> (#[trigger] files[j]).0 != name,
        file_index(files, name) < files.len() ==> files[file_index(files, name)].0 == name,
    decreases files.len(),
{
    if !(files.len() == 0 || files[0].0 == name) {
        let rest = files.drop_first();
        lemma_file_index(rest, name);
        assert forall|j: int| 0 <= j < file_index(files, name) implies (#[trigger] files[j]).0
            != name by {
            if j > 0 {
                assert(files[j] == rest[j - 1]);
            }
        }
        assert(file_index(files, name) < files.len() ==> files[file_index(files, name)]
            == rest[file_index(rest, name)]);
    }
}

/// An index with the two properties of `file_index` is what it returns.
pub proof fn lemma_file_index_is(files: Files, name: Seq<char>, at: int)
    requires
        0 <= at <= files.len(),
        forall|j: int| 0 <= j < at ==> (#[trigger] files[j]).0 != name,
        at < files.len() ==> files[at].0 == name,
    ensures
        file_index(files, name) == at,
    decreases files.len(),
{
    if at > 0 {
        let rest = files.drop_first();
        assert(files[0].0 != name);
        assert forall|j: int| 0 <= j < at - 1 implies (#[trigger] rest[j]).0 != name by {
            assert(rest[j] == files[j + 1]);
        }
        lemma_file_index_is(rest, name, at - 1);
    }
}

/// A text that was written under a name is read back under it.
pub proof fn lemma_read_after_write(files: Files, name: Seq<char>, text: Seq<char>)
    ensures
        read_file(write_file(files, name, text), name) == Some(text),
{
    lemma_file_index(files, name);
    let at = file_index(files, name);
    let after = write_file(files, name, text);
    assert forall|j: int| 0 <= j < at implies (#[trigger] after[j]).0 != name by {
        assert(after[j] == files[j]);
    }
    lemma_file_index_is(after, name, at);
}

/// Of two texts written under one name, the second stays.
pub proof fn lemma_write_twice(files: Files, name: Seq<char>, first: Seq<char>, second: Seq<char>)
    ensures
        write_file(write_file(files, name, first), name, second) == write_file(
            files,
            name,
            second,
        ),
{
    lemma_file_index(files, name);
    let at = file_index(files, name);
    let once = write_file(files, name, first);
    assert forall|j: int| 0 <= j < at implies (#[trigger] once[j]).0 != name by {
        assert(once[j] == files[j]);
    }
    lemma_file_index_is(once, name, at);
    assert(once.update(at, (name, second)) =~= write_file(files, name, second));
}

/// Writing under one name changes nothing that is read under another.
pub proof fn lemma_read_after_write_other(
    files: Files,
    name: Seq<char>,
    text: Seq<char>,
    other: Seq<char>,
)
    requires
        other != name,
    ensures
        read_file(write_file(files, name, text), other) == read_file(files, other),
{
    lemma_file_index(files, name);
    lemma_file_index(files, other);
    let i = file_index(files, other);
    let after = write_file(files, name, text);
    assert forall|j: int| 0 <= j < i implies (#[trigger] after[j]).0 != other by {
        if j < files.len() && j != file_index(files, name) {
            assert(after[j] == files[j]);
        }
    }
    if i < files.len() {
        assert(after[i] == files[i]);
        lemma_file_index_is(after, other, i);
    } else {
        lemma_file_index_is(after, other, after.len() as int);
    }
}

/// Removing under one name changes nothing that is read under another.
pub proof fn lemma_read_after_remove_other(files: Files, name: Seq<char>, other: Seq<char>)
    requires
        other != name,
    ensures
        read_file(remove_file(files, name), other) == read_file(files, other),
{
    lemma_file_index(files, name);
    lemma_file_index(files, other);
    let at = file_index(files, name);
    let i = file_index(files, other);
    let after = remove_file(files, name);
    if at < files.len() {
        let k: int = if i < at {
            i
        } else {
            i - 1
        };
        assert forall|j: int| 0 <= j < k implies (#[trigger] after[j]).0 != other by {
            if j < at {
                assert(after[j] == files[j]);
            } else {
                assert(after[j] == files[j + 1]);
            }
        }
        if i < files.len() {
            assert(after[k] == files[i]);
        }
        lemma_file_index_is(after, other, k);
    }
}

/// Writing keeps the names distinct.
pub proof fn lemma_write_distinct(files: Files, name: Seq<char>, text: Seq<char>)
    requires
        distinct_names(files),
    ensures
        distinct_names(write_file(files, name, text)),
{
    lemma_file_index(files, name);
    let after = write_file(files, name, text);
    assert forall|i: int, j: int| 0 <= i < j < after.len() implies (#[trigger] after[i]).0 != (
    #[trigger] after[j]).0 by {
        if i < files.len() {
            assert(after[i].0 == files[i].0);
        }
        if j < files.len() {
            assert(after[j].0 == files[j].0);
        }
    }
}

/// Where the names are distinct, a file that was removed is no longer read.
pub proof fn lemma_read_after_remove(files: Files, name: Seq<char>)
    requires
        distinct_names(files),
    ensures
        read_file(remove_file(files, name), name) is None,
        distinct_names(remove_file(files, name)),
        forall|j: int|
            0 <= j < remove_file(files, name).len() ==> (#[trigger] remove_file(files, name)[j]).0
                != name,
{
    lemma_file_index(files, name);
    let at = file_index(files, name);
    let after = remove_file(files, name);
    assert forall|j: int| 0 <= j < after.len() implies (#[trigger] after[j]).0 != name by {
        if at < files.len() {
            if j < at {
                assert(after[j] == files[j]);
            } else {
                assert(after[j] == files[j + 1]);
            }
        }
    }
    lemma_file_index_is(after, name, after.len() as int);
    assert forall|i: int, j: int| 0 <= i < j < after.len() implies (#[trigger] after[i]).0 != (
    #[trigger] after[j]).0 by {
        if at < files.len() {
            let oi = if i < at { i } else { i + 1 };
            let oj = if j < at { j } else { j + 1 };
            assert(after[i] == files[oi] && after[j] == files[oj]);
        }
    }
}

impl Clone for StoredFile {
    fn clone(&self) -> (copy: StoredFile)
        ensures
            copy.name@ == self.name@,
            copy.text@ == self.text@,
    {
        StoredFile { name: self.name.clone(), text: self.text.clone() }
    }
}

impl Clone for Directory {
    fn clone(&self) -> (copy: Directory)
        ensures
            copy@ == self@,
    {
        let mut files: Vec<StoredFile> = Vec::new();
        let mut i: usize = 0;
        while i < self.files.len()
            invariant
                i <= self.files.len(),
                files@.len() == i,
                forall|j: int|
                    0 <= j < i ==> files@[j].name@ == self.files@[j].name@ && files@[j].text@
                        == self.files@[j].text@,
            decreases self.files.len() - i,
        {
            files.push(self.files[i].clone());
            i = i + 1;
        }
        let copy = Directory { files };
        assert(copy@ =~= self@);
        copy
    }
}

impl Directory {
    /// A directory without files.
    pub fn new() -> (dir: Directory)
        ensures
            dir@ == Seq::<(Seq<char>, Seq<char>)>::empty(),
            dir.wf(),
    {
        let dir = Directory { files: Vec::new() };
        assert(dir@ =~= Seq::empty());
        dir
    }

    /// A directory is well formed when no two of its files have the same
    /// name.
    pub open spec fn wf(&self) -> bool {
        distinct_names(self@)
    }

    /// The index of the first file with the given name, if there is one.
    pub fn index_of(&self, name: &str) -> (r: Option<usize>)
        ensures
            match r {
                Some(at) => at == file_index(self@, name@) && at < self@.len(),
                None => file_index(self@, name@) == self@.len(),
            },
    {
        let wanted = name.to_owned();
        let mut i: usize = 0;
        while i < self.files.len()
            invariant
                i <= self.files.len(),
                wanted@ == name@,
                forall|j: int| 0 <= j < i ==> (#[trigger] self@[j]).0 != name@,
            decreases self.files.len() - i,
        {
            if self.files[i].name == wanted {
                proof {
                    lemma_file_index_is(self@, name@, i as int);
                }
                return Some(i);
            }
            i = i + 1;
        }
        proof {
            lemma_file_index_is(self@, name@, i as int);
        }
        None
    }

    /// The text of the file with the given name, if there is one.
    pub fn read(&self, name: &str) -> (r: Option<&String>)
        ensures
            match r {
                Some(text) => read_file(self@, name@) == Some(text@),
                None => read_file(self@, name@) is None,
            },
    {
        match self.index_of(name) {
            Some(at) => Some(&self.files[at].text),
            None => None,
        }
    }

    /// Writes a text under a name: the file with that name gets the text
    /// where it stands; if there is none, a new file comes last.
    pub fn write(&mut self, name: String, text: String)
        ensures
            final(self)@ == write_file(old(self)@, name@, text@),
            old(self).wf() ==> final(self).wf(),
    {
        let ghost before = self@;
        let ghost n = name@;
        let ghost t = text@;
        proof {
            if distinct_names(before) {
                lemma_write_distinct(before, n, t);
            }
        }
        match self.index_of(name.as_str()) {
            Some(at) => {
                self.files.set(at, StoredFile { name, text });
                assert(self@ =~= before.update(at as int, (n, t)));
            },
            None => {
                self.files.push(StoredFile { name, text });
                assert(self@ =~= before.push((n, t)));
            },
        }
    }

    /// Removes the file with the given name, if there is one.
    pub fn remove(&mut self, name: &str)
        ensures
            final(self)@ == remove_file(old(self)@, name@),
            old(self).wf() ==> final(self).wf(),
    {
        let ghost before = self@;
        proof {
            if distinct_names(before) {
                lemma_read_after_remove(before, name@);
            }
        }
        match self.index_of(name) {
            Some(at) => {
                self.files.remove(at);
                assert(self@ =~= before.remove(at as int));
            },
            None => {},
        }
    }
}

} // verus!
