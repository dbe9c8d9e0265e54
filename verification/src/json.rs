//! JSON values and their mathematical model.

use vstd::prelude::*;
use crate::codec::{parse_number, read_number};
use crate::text::{key_less, key_lt, lemma_key_lt_transitive};

verus! {

/// A JSON number. A non-negative integer is `PosInt`, a negative one is
/// `NegInt`, and any other number is held as its decimal text, as the JSON
/// writer spells it. Two numbers are the same if they are of one kind and
/// hold the same; so `1` and `1.0` differ, and so do `0.0` and `-0.0`.
///
/// A number is well formed when a `NegInt` is negative and the text of a
/// `Float` is read as a number that is no integer. A `Float` whose text is
/// read as no number at all is written as `null`.
#[derive(Debug)]
pub enum Number {
    PosInt(u64),
    NegInt(i64),
    Float(String),
}

/// One member of a JSON object.
#[derive(Debug)]
pub struct Member {
    pub key: String,
    pub value: Json,
}

/// A JSON value.
#[derive(Debug)]
pub enum Json {
    Null,
    Bool(bool),
    Number(Number),
    String(String),
    Array(Vec<Json>),
    Object(Vec<Member>),
}

/// The mathematical model of a JSON number.
pub enum NumberView {
    PosInt(u64),
    NegInt(i64),
    Float(Seq<char>),
}

/// The mathematical model of a JSON value. An object is the sequence of its
/// members, each a key and a value, in the order in which they are held.
pub enum JsonView {
    Null,
    Bool(bool),
    Number(NumberView),
    String(Seq<char>),
    Array(Seq<JsonView>),
    Object(Seq<(Seq<char>, JsonView)>),
}

impl View for Number {
    type V = NumberView;

    open spec fn view(&self) -> NumberView {
        match self {
            Number::PosInt(n) => NumberView::PosInt(*n),
            Number::NegInt(n) => NumberView::NegInt(*n),
            Number::Float(text) => NumberView::Float(text@),
        }
    }
}

impl Json {
    /// The model of a value, by recursion on the value.
    pub open spec fn model(&self) -> JsonView
        decreases self,
    {
        match self {
            Json::Null => JsonView::Null,
            Json::Bool(b) => JsonView::Bool(*b),
            Json::Number(n) => JsonView::Number(n@),
            Json::String(s) => JsonView::String(s@),
            Json::Array(items) => JsonView::Array(
                Seq::new(
                    items@.len(),
                    |i: int|
                        if 0 <= i < items@.len() {
                            items@[i].model()
                        } else {
                            JsonView::Null
                        },
                ),
            ),
            Json::Object(members) => JsonView::Object(
                Seq::new(
                    members@.len(),
                    |i: int|
                        if 0 <= i < members@.len() {
                            (members@[i].key@, members@[i].value.model())
                        } else {
                            (Seq::empty(), JsonView::Null)
                        },
                ),
            ),
        }
    }
}

impl View for Json {
    type V = JsonView;

    open spec fn view(&self) -> JsonView {
        self.model()
    }
}

/// The models of a sequence of values.
pub open spec fn items_view(items: Seq<Json>) -> Seq<JsonView> {
    Seq::new(items.len(), |i: int| items[i]@)
}

/// The models of a sequence of members.
pub open spec fn members_view(members: Seq<Member>) -> Seq<(Seq<char>, JsonView)> {
    Seq::new(members.len(), |i: int| (members[i].key@, members[i].value@))
}

/// The view of an array is the views of its items.
pub proof fn lemma_array_view(items: Vec<Json>)
    ensures
        Json::Array(items)@ == JsonView::Array(items_view(items@)),
{
    let v = Json::Array(items)@;
    assert(v->Array_0 =~= items_view(items@));
}

/// The view of an object is the views of its members.
pub proof fn lemma_object_view(members: Vec<Member>)
    ensures
        Json::Object(members)@ == JsonView::Object(members_view(members@)),
{
    assert(Json::Object(members)@->Object_0 =~= members_view(members@));
}

/// Whether the keys of a sequence of members strictly increase.
pub open spec fn sorted_keys(entries: Seq<(Seq<char>, JsonView)>) -> bool {
    forall|i: int, j: int|
        0 <= i < j < entries.len() ==> key_lt(#[trigger] entries[i].0, #[trigger] entries[j].0)
}

/// Whether every value of a sequence is well formed.
pub open spec fn items_wf(items: Seq<JsonView>) -> bool {
    forall|i: int| 0 <= i < items.len() ==> (#[trigger] items[i]).wf()
}

impl NumberView {
    /// A number is well formed when a `NegInt` is negative and the text of a
    /// `Float` is read as a number that is no integer.
    pub open spec fn wf(self) -> bool {
        match self {
            NumberView::PosInt(_) => true,
            NumberView::NegInt(n) => n < 0,
            NumberView::Float(text) => read_number(text) matches Some(NumberView::Float(_)),
        }
    }
}

impl JsonView {
    /// A value is well formed when, in it and in every value below it, the
    /// keys of each object strictly increase and every number is well
    /// formed.
    pub open spec fn wf(self) -> bool
        decreases self,
    {
        match self {
            JsonView::Number(n) => n.wf(),
            JsonView::Array(items) => forall|i: int|
                0 <= i < items.len() ==> (#[trigger] items[i]).wf(),
            JsonView::Object(entries) => sorted_keys(entries) && forall|i: int|
                0 <= i < entries.len() ==> (#[trigger] entries[i]).1.wf(),
            _ => true,
        }
    }
}

impl Clone for Number {
    fn clone(&self) -> (r: Number)
        ensures
            r@ == self@,
    {
        match self {
            Number::PosInt(n) => Number::PosInt(*n),
            Number::NegInt(n) => Number::NegInt(*n),
            Number::Float(text) => Number::Float(text.clone()),
        }
    }
}

impl Clone for Json {
    fn clone(&self) -> (r: Json)
        ensures
            r@ == self@,
        decreases self,
    {
        match self {
            Json::Null => Json::Null,
            Json::Bool(b) => Json::Bool(*b),
            Json::Number(n) => Json::Number(n.clone()),
            Json::String(s) => Json::String(s.clone()),
            Json::Array(items) => {
                let mut out: Vec<Json> = Vec::new();
                let mut i: usize = 0;
                while i < items.len()
                    invariant
                        *self == Json::Array(*items),
                        i <= items.len(),
                        out@.len() == i,
                        forall|j: int| 0 <= j < i ==> out@[j]@ == items@[j]@,
                    decreases items.len() - i,
                {
                    proof {
                        vstd::std_specs::vec::axiom_vec_index_decreases(*items, i as int);
                        assert(decreases_to!(*self => self->Array_0));
                    }
                    out.push(items[i].clone());
                    i = i + 1;
                }
                proof {
                    lemma_array_view(*items);
                    lemma_array_view(out);
                    assert(items_view(out@) =~= items_view(items@));
                }
                Json::Array(out)
            },
            Json::Object(members) => {
                let mut out: Vec<Member> = Vec::new();
                let mut i: usize = 0;
                while i < members.len()
                    invariant
                        *self == Json::Object(*members),
                        i <= members.len(),
                        out@.len() == i,
                        forall|j: int|
                            0 <= j < i ==> out@[j].key@ == members@[j].key@ && out@[j].value@
                                == members@[j].value@,
                    decreases members.len() - i,
                {
                    proof {
                        vstd::std_specs::vec::axiom_vec_index_decreases(*members, i as int);
                        assert(decreases_to!(*self => self->Object_0));
                        assert(decreases_to!(members@[i as int] => members@[i as int].value));
                    }
                    let member = Member {
                        key: members[i].key.clone(),
                        value: members[i].value.clone(),
                    };
                    out.push(member);
                    i = i + 1;
                }
                proof {
                    lemma_object_view(*members);
                    lemma_object_view(out);
                    assert(members_view(out@) =~= members_view(members@));
                }
                Json::Object(out)
            },
        }
    }
}

impl Number {
    /// Whether the number is well formed.
    pub fn is_well_formed(&self) -> (r: bool)
        ensures
            r == self@.wf(),
    {
        match self {
            Number::PosInt(_) => true,
            Number::NegInt(n) => *n < 0,
            Number::Float(text) => match parse_number(text.as_str()) {
                Some(Number::Float(_)) => true,
                _ => false,
            },
        }
    }

    /// Whether two numbers are the same number.
    pub fn same(&self, other: &Number) -> (r: bool)
        ensures
            r == (self@ == other@),
    {
        match (self, other) {
            (Number::PosInt(a), Number::PosInt(b)) => *a == *b,
            (Number::NegInt(a), Number::NegInt(b)) => *a == *b,
            (Number::Float(a), Number::Float(b)) => *a == *b,
            _ => false,
        }
    }
}

impl Json {
    /// Whether two values are the same value: exact equality of the models.
    pub fn same(&self, other: &Json) -> (r: bool)
        ensures
            r == (self@ == other@),
        decreases self,
    {
        match (self, other) {
            (Json::Null, Json::Null) => true,
            (Json::Bool(a), Json::Bool(b)) => *a == *b,
            (Json::Number(a), Json::Number(b)) => a.same(b),
            (Json::String(a), Json::String(b)) => *a == *b,
            (Json::Array(a), Json::Array(b)) => {
                proof {
                    lemma_array_view(*a);
                    lemma_array_view(*b);
                }
                if a.len() != b.len() {
                    assert(items_view(a@).len() != items_view(b@).len());
                    return false;
                }
                let mut i: usize = 0;
                while i < a.len()
                    invariant
                        *self == Json::Array(*a),
                        a.len() == b.len(),
                        i <= a.len(),
                        forall|j: int| 0 <= j < i ==> a@[j]@ == b@[j]@,
                        self@ == JsonView::Array(items_view(a@)),
                        other@ == JsonView::Array(items_view(b@)),
                    decreases a.len() - i,
                {
                    proof {
                        vstd::std_specs::vec::axiom_vec_index_decreases(*a, i as int);
                        assert(decreases_to!(*self => self->Array_0));
                    }
                    if !a[i].same(&b[i]) {
                        assert(items_view(a@)[i as int] != items_view(b@)[i as int]);
                        return false;
                    }
                    i = i + 1;
                }
                assert(items_view(a@) =~= items_view(b@));
                true
            },
            (Json::Object(a), Json::Object(b)) => {
                proof {
                    lemma_object_view(*a);
                    lemma_object_view(*b);
                }
                if a.len() != b.len() {
                    assert(members_view(a@).len() != members_view(b@).len());
                    return false;
                }
                let mut i: usize = 0;
                while i < a.len()
                    invariant
                        *self == Json::Object(*a),
                        a.len() == b.len(),
                        i <= a.len(),
                        forall|j: int|
                            0 <= j < i ==> a@[j].key@ == b@[j].key@ && a@[j].value@
                                == b@[j].value@,
                        self@ == JsonView::Object(members_view(a@)),
                        other@ == JsonView::Object(members_view(b@)),
                    decreases a.len() - i,
                {
                    proof {
                        vstd::std_specs::vec::axiom_vec_index_decreases(*a, i as int);
                        assert(decreases_to!(*self => self->Object_0));
                        assert(decreases_to!(a@[i as int] => a@[i as int].value));
                    }
                    if a[i].key != b[i].key || !a[i].value.same(&b[i].value) {
                        assert(members_view(a@)[i as int] != members_view(b@)[i as int]);
                        return false;
                    }
                    i = i + 1;
                }
                assert(members_view(a@) =~= members_view(b@));
                true
            },
            _ => false,
        }
    }
}

impl Json {
    /// Whether the value is well formed.
    pub fn is_well_formed(&self) -> (r: bool)
        ensures
            r == self@.wf(),
        decreases self,
    {
        match self {
            Json::Number(n) => n.is_well_formed(),
            Json::Array(items) => {
                proof {
                    lemma_array_view(*items);
                }
                let ghost all = items_view(items@);
                let mut i: usize = 0;
                while i < items.len()
                    invariant
                        *self == Json::Array(*items),
                        self@ == JsonView::Array(all),
                        all == items_view(items@),
                        i <= items.len(),
                        forall|j: int| 0 <= j < i ==> (#[trigger] all[j]).wf(),
                    decreases items.len() - i,
                {
                    proof {
                        vstd::std_specs::vec::axiom_vec_index_decreases(*items, i as int);
                        assert(decreases_to!(*self => self->Array_0));
                    }
                    if !items[i].is_well_formed() {
                        assert(self@->Array_0[i as int] == all[i as int]);
                        return false;
                    }
                    i = i + 1;
                }
                true
            },
            Json::Object(members) => {
                proof {
                    lemma_object_view(*members);
                }
                let ghost all = members_view(members@);
                let mut i: usize = 0;
                while i < members.len()
                    invariant
                        *self == Json::Object(*members),
                        self@ == JsonView::Object(all),
                        all == members_view(members@),
                        i <= members.len(),
                        forall|j: int| 0 <= j < i ==> (#[trigger] all[j]).1.wf(),
                        forall|a: int, b: int|
                            0 <= a < b < i ==> key_lt(#[trigger] all[a].0, #[trigger] all[b].0),
                    decreases members.len() - i,
                {
                    proof {
                        vstd::std_specs::vec::axiom_vec_index_decreases(*members, i as int);
                        assert(decreases_to!(*self => self->Object_0));
                        assert(decreases_to!(members@[i as int] => members@[i as int].value));
                    }
                    if !members[i].value.is_well_formed() {
                        assert(self@->Object_0[i as int] == all[i as int]);
                        return false;
                    }
                    if i > 0 {
                        if !key_less(members[i - 1].key.as_str(), members[i].key.as_str()) {
                            assert(!key_lt(all[i - 1].0, all[i as int].0));
                            return false;
                        }
                        proof {
                            assert forall|a: int| 0 <= a < i implies key_lt(
                                #[trigger] all[a].0,
                                all[i as int].0,
                            ) by {
                                if a < i - 1 {
                                    lemma_key_lt_transitive(
                                        all[a].0,
                                        all[i - 1].0,
                                        all[i as int].0,
                                    );
                                }
                            }
                        }
                    }
                    i = i + 1;
                }
                true
            },
            _ => true,
        }
    }
}

impl PartialEq for Json {
    fn eq(&self, other: &Json) -> (r: bool) {
        self.same(other)
    }
}

impl vstd::std_specs::cmp::PartialEqSpecImpl for Json {
    open spec fn obeys_eq_spec() -> bool {
        true
    }

    open spec fn eq_spec(&self, other: &Json) -> bool {
        self@ == other@
    }
}

impl Clone for Member {
    fn clone(&self) -> (r: Member)
        ensures
            r.key@ == self.key@,
            r.value@ == self.value@,
    {
        Member { key: self.key.clone(), value: self.value.clone() }
    }
}

} // verus!
