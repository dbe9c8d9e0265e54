//! Strings as sequences of characters: the order of object keys, the
//! splitting of dotted keys into path segments, and record file names.

use vstd::prelude::*;

verus! {

/// Lexicographic order on character sequences, by code point.
pub open spec fn key_lt(a: Seq<char>, b: Seq<char>) -> bool
    decreases a.len(),
{
    if b.len() == 0 {
        false
    } else if a.len() == 0 {
        true
    } else if a[0] == b[0] {
        key_lt(a.drop_first(), b.drop_first())
    } else {
        (a[0] as int) < (b[0] as int)
    }
}

/// No sequence is below itself.
pub proof fn lemma_key_lt_irreflexive(a: Seq<char>)
    ensures
        !key_lt(a, a),
    decreases a.len(),
{
    if a.len() > 0 {
        lemma_key_lt_irreflexive(a.drop_first());
    }
}

/// The order is transitive.
pub proof fn lemma_key_lt_transitive(a: Seq<char>, b: Seq<char>, c: Seq<char>)
    requires
        key_lt(a, b),
        key_lt(b, c),
    ensures
        key_lt(a, c),
    decreases a.len(),
{
    if a.len() > 0 && b.len() > 0 && c.len() > 0 {
        if a[0] == b[0] && b[0] == c[0] {
            lemma_key_lt_transitive(a.drop_first(), b.drop_first(), c.drop_first());
        }
    }
}

/// Two different sequences are ordered one way or the other.
pub proof fn lemma_key_lt_connected(a: Seq<char>, b: Seq<char>)
    ensures
        a == b || key_lt(a, b) || key_lt(b, a),
    decreases a.len(),
{
    if a.len() == 0 || b.len() == 0 {
        if a.len() == 0 && b.len() == 0 {
            assert(a =~= b);
        }
    } else if a[0] == b[0] {
        lemma_key_lt_connected(a.drop_first(), b.drop_first());
        if a.drop_first() == b.drop_first() {
            assert(a =~= seq![a[0]] + a.drop_first());
            assert(b =~= seq![b[0]] + b.drop_first());
        }
    }
}

/// The characters of a string, in order.
pub fn chars_of(s: &str) -> (v: Vec<char>)
    ensures
        v@ == s@,
{
    let mut v: Vec<char> = Vec::new();
    for c in it: s.chars()
        invariant
            v@ == s@.take(it.index() as int),
            it.seq() == s@,
    {
        v.push(c);
    }
    v
}

/// Whether `a` comes before `b` in the order of keys.
pub fn key_less(a: &str, b: &str) -> (r: bool)
    ensures
        r == key_lt(a@, b@),
{
    let x = chars_of(a);
    let y = chars_of(b);
    let mut i: usize = 0;
    assert(x@.skip(0) =~= x@ && y@.skip(0) =~= y@);
    while i < x.len() && i < y.len()
        invariant
            x@ == a@,
            y@ == b@,
            i <= x.len(),
            i <= y.len(),
            key_lt(a@, b@) == key_lt(x@.skip(i as int), y@.skip(i as int)),
        decreases x.len() - i,
    {
        let ghost xs = x@.skip(i as int);
        let ghost ys = y@.skip(i as int);
        assert(xs.drop_first() =~= x@.skip(i + 1));
        assert(ys.drop_first() =~= y@.skip(i + 1));
        assert(xs[0] == x@[i as int] && ys[0] == y@[i as int]);
        if x[i] != y[i] {
            let cx: char = x[i];
            let cy: char = y[i];
            return cx < cy;
        }
        i = i + 1;
    }
    i < y.len()
}

/// The segments of a dotted key: every `.` ends one segment and opens the
/// next, so a key without a dot is one segment and the empty key is one empty
/// segment.
pub open spec fn split_path(key: Seq<char>) -> Seq<Seq<char>>
    decreases key.len(),
{
    if key.len() == 0 {
        seq![Seq::empty()]
    } else {
        let init = split_path(key.drop_last());
        if key.last() == '.' {
            init.push(Seq::empty())
        } else {
            init.update(init.len() - 1, init.last().push(key.last()))
        }
    }
}

/// A key always has at least one segment.
pub proof fn lemma_split_path_nonempty(key: Seq<char>)
    ensures
        split_path(key).len() >= 1,
    decreases key.len(),
{
    if key.len() > 0 {
        lemma_split_path_nonempty(key.drop_last());
    }
}

/// Whether a key holds no dot.
pub open spec fn plain(key: Seq<char>) -> bool {
    forall|i: int| 0 <= i < key.len() ==> key[i] != '.'
}

/// A key without a dot is its own single segment.
pub proof fn lemma_split_plain(key: Seq<char>)
    requires
        plain(key),
    ensures
        split_path(key) == seq![key],
    decreases key.len(),
{
    if key.len() > 0 {
        let init = key.drop_last();
        assert forall|i: int| 0 <= i < init.len() implies init[i] != '.' by {
            assert(init[i] == key[i]);
        }
        lemma_split_plain(init);
        assert(key.last() == key[key.len() - 1]);
        assert(init.push(key.last()) =~= key);
        assert(seq![init].update(0, init.push(key.last())) =~= seq![key]);
    } else {
        assert(key =~= Seq::<char>::empty());
    }
}

/// No segment of a key holds a dot.
pub proof fn lemma_split_segments_plain(key: Seq<char>)
    ensures
        forall|i: int| 0 <= i < split_path(key).len() ==> plain(#[trigger] split_path(key)[i]),
    decreases key.len(),
{
    if key.len() > 0 {
        let init = key.drop_last();
        lemma_split_segments_plain(init);
        lemma_split_path_nonempty(init);
        let before = split_path(init);
        let after = split_path(key);
        assert forall|i: int| 0 <= i < after.len() implies plain(#[trigger] after[i]) by {
            if key.last() == '.' {
                if i < before.len() {
                    assert(after[i] == before[i]);
                }
            } else {
                if i < before.len() - 1 {
                    assert(after[i] == before[i]);
                } else {
                    assert(plain(before[i]));
                    assert(after[i] == before[i].push(key.last()));
                }
            }
        }
    }
}

/// The character sequences of a vector of strings.
pub open spec fn path_view(segments: Seq<String>) -> Seq<Seq<char>> {
    Seq::new(segments.len(), |i: int| segments[i]@)
}

/// Splits a dotted key into its segments.
pub fn split_key(key: &str) -> (segments: Vec<String>)
    ensures
        path_view(segments@) == split_path(key@),
        segments@.len() >= 1,
{
    let chars = chars_of(key);
    let mut segments: Vec<String> = Vec::new();
    let mut start: usize = 0;
    let mut i: usize = 0;
    assert(key@.take(0) =~= Seq::<char>::empty());
    assert(path_view(segments@).push(key@.subrange(0, 0)) =~= seq![Seq::<char>::empty()]);
    while i < chars.len()
        invariant
            chars@ == key@,
            start <= i <= chars.len(),
            split_path(key@.take(i as int)) == path_view(segments@).push(
                key@.subrange(start as int, i as int),
            ),
        decreases chars.len() - i,
    {
        let ghost before = key@.take(i as int);
        let ghost after = key@.take(i + 1);
        assert(after.drop_last() =~= before);
        assert(after.last() == key@[i as int]);
        let ghost done = path_view(segments@);
        let ghost current = key@.subrange(start as int, i as int);
        if chars[i] == '.' {
            let segment = key.substring_char(start, i).to_owned();
            segments.push(segment);
            start = i + 1;
            assert(path_view(segments@) =~= done.push(current));
            assert(key@.subrange(start as int, i + 1) =~= Seq::<char>::empty());
        } else {
            assert(key@.subrange(start as int, i + 1) =~= current.push(key@[i as int]));
            assert(done.push(current).update(done.len() as int, current.push(key@[i as int]))
                =~= done.push(current.push(key@[i as int])));
        }
        i = i + 1;
    }
    assert(key@.take(i as int) =~= key@);
    let ghost done = path_view(segments@);
    let segment = key.substring_char(start, i).to_owned();
    segments.push(segment);
    assert(path_view(segments@) =~= done.push(key@.subrange(start as int, i as int)));
    segments
}

/// The extension of a record file, with its dot.
pub open spec fn json_suffix() -> Seq<char> {
    seq!['.', 'j', 's', 'o', 'n']
}

/// The name of the file that holds the record with the given identifier.
pub open spec fn record_file_name(id: Seq<char>) -> Seq<char> {
    id + json_suffix()
}

/// Whether a file name carries the extension of a record file: it ends in
/// `.json` and something stands before that.
pub open spec fn is_record_file_name(name: Seq<char>) -> bool {
    name.len() > 5 && name.skip(name.len() - 5) == json_suffix()
}

/// The identifier that the name of a record file stands for: the name
/// without its extension.
pub open spec fn record_id(name: Seq<char>) -> Seq<char> {
    name.take(name.len() - 5)
}

/// The name of a record file is the file name of the identifier that it
/// stands for.
pub proof fn lemma_record_id(name: Seq<char>)
    requires
        is_record_file_name(name),
    ensures
        record_file_name(record_id(name)) == name,
{
    assert(record_id(name) + name.skip(name.len() - 5) =~= name);
}

/// The identifier that the name of a record file stands for.
pub fn id_of_file_name(name: &str) -> (id: String)
    requires
        is_record_file_name(name@),
    ensures
        id@ == record_id(name@),
        record_file_name(id@) == name@,
{
    proof {
        lemma_record_id(name@);
    }
    let n = name.unicode_len();
    let id = name.substring_char(0, n - 5).to_owned();
    assert(id@ =~= record_id(name@));
    id
}

/// The name of the file that holds the record with the given identifier.
pub fn file_name_of(id: &str) -> (name: String)
    ensures
        name@ == record_file_name(id@),
{
    proof {
        reveal_strlit(".json");
    }
    let name = id.to_owned().concat(".json");
    assert(".json"@ =~= json_suffix());
    name
}

/// Whether a file name carries the extension of a record file.
pub fn has_record_extension(name: &str) -> (r: bool)
    ensures
        r == is_record_file_name(name@),
{
    let chars = chars_of(name);
    let n = chars.len();
    if n <= 5 {
        return false;
    }
    let r = chars[n - 5] == '.' && chars[n - 4] == 'j' && chars[n - 3] == 's' && chars[n - 2]
        == 'o' && chars[n - 1] == 'n';
    proof {
        let tail = name@.skip(name@.len() - 5);
        if r {
            assert(tail =~= json_suffix());
        } else {
            assert(tail[0] == name@[n - 5] && tail[1] == name@[n - 4] && tail[2] == name@[n - 3]
                && tail[3] == name@[n - 2] && tail[4] == name@[n - 1]);
        }
    }
    r
}

} // verus!
