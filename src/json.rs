//! JSON values and their mathematical model.
use vstd::prelude::*;

verus! {

/// Declares `serde_json::Number`: a number is carried through the merge
/// as it was read, never inspected.
#[verifier::external_type_specification]
#[verifier::external_body]
pub struct ExNumber(serde_json::Number);

/// The mathematical model of a JSON value. An object is a sequence of
/// members, each a key and its value, in the order in which they stand.
pub enum JsonModel {
    Null,
    Bool(bool),
    Number(serde_json::Number),
    Str(Seq<char>),
    Array(Seq<JsonModel>),
    Object(Seq<(Seq<char>, JsonModel)>),
}

/// A JSON value. An object holds its members in order; the merge expects
/// each object to have unique keys (see `wf`).
#[derive(Debug, PartialEq)]
pub enum Json {
    Null,
    Bool(bool),
    Number(serde_json::Number),
    String(String),
    Array(Vec<Json>),
    Object(Vec<(String, Json)>),
}

/// The model of a JSON value.
pub open spec fn json_model(j: Json) -> JsonModel
    decreases j,
{
    match j {
        Json::Null => JsonModel::Null,
        Json::Bool(b) => JsonModel::Bool(b),
        Json::Number(n) => JsonModel::Number(n),
        Json::String(s) => JsonModel::Str(s@),
        Json::Array(items) => JsonModel::Array(
            Seq::new(
                items@.len(),
                |i: int|
                    if 0 <= i < items@.len() {
                        json_model(items@[i])
                    } else {
                        JsonModel::Null
                    },
            ),
        ),
        Json::Object(members) => JsonModel::Object(
            Seq::new(
                members@.len(),
                |i: int|
                    if 0 <= i < members@.len() {
                        (members@[i].0@, json_model(members@[i].1))
                    } else {
                        (Seq::empty(), JsonModel::Null)
                    },
            ),
        ),
    }
}

impl View for Json {
    type V = JsonModel;

    open spec fn view(&self) -> JsonModel {
        json_model(*self)
    }
}

/// The models of a sequence of members.
pub open spec fn members_model(ms: Seq<(String, Json)>) -> Seq<(Seq<char>, JsonModel)> {
    Seq::new(ms.len(), |i: int| (ms[i].0@, ms[i].1@))
}

/// Whether some member has key `k`.
pub open spec fn has_key(ms: Seq<(Seq<char>, JsonModel)>, k: Seq<char>) -> bool {
    exists|i: int| 0 <= i < ms.len() && (#[trigger] ms[i]).0 == k
}

/// The position of the member with key `k`, where there is one.
pub open spec fn key_index(ms: Seq<(Seq<char>, JsonModel)>, k: Seq<char>) -> int {
    choose|i: int| 0 <= i < ms.len() && (#[trigger] ms[i]).0 == k
}

/// No two members share a key.
pub open spec fn keys_unique(ms: Seq<(Seq<char>, JsonModel)>) -> bool {
    forall|i: int, j: int|
        0 <= i < ms.len() && 0 <= j < ms.len() && (#[trigger] ms[i]).0 == (#[trigger] ms[j]).0
            ==> i == j
}

/// The value held at key `k`, or null where no member has that key.
pub open spec fn value_at(ms: Seq<(Seq<char>, JsonModel)>, k: Seq<char>) -> JsonModel {
    if has_key(ms, k) {
        ms[key_index(ms, k)].1
    } else {
        JsonModel::Null
    }
}

/// Sets key `k` to `v`: in place where the key is present, else as a new
/// last member.
pub open spec fn put_member(ms: Seq<(Seq<char>, JsonModel)>, k: Seq<char>, v: JsonModel) -> Seq<
    (Seq<char>, JsonModel),
> {
    if has_key(ms, k) {
        ms.update(key_index(ms, k), (k, v))
    } else {
        ms.push((k, v))
    }
}

/// Takes out the member with key `k`, where there is one.
pub open spec fn remove_member(ms: Seq<(Seq<char>, JsonModel)>, k: Seq<char>) -> Seq<
    (Seq<char>, JsonModel),
> {
    if has_key(ms, k) {
        ms.remove(key_index(ms, k))
    } else {
        ms
    }
}

impl JsonModel {
    /// Every object, at any depth, has unique keys.
    pub open spec fn wf(self) -> bool
        decreases self,
    {
        match self {
            JsonModel::Array(items) => forall|i: int|
                0 <= i < items.len() ==> (#[trigger] items[i]).wf(),
            JsonModel::Object(ms) => keys_unique(ms) && forall|i: int|
                0 <= i < ms.len() ==> (#[trigger] ms[i]).1.wf(),
            _ => true,
        }
    }
}

impl Json {
    /// Every object, at any depth, has unique keys.
    pub open spec fn wf(&self) -> bool {
        self@.wf()
    }

    /// Tells whether every object, at any depth, has unique keys.
    pub fn is_wf(&self) -> (r: bool)
        ensures
            r == self.wf(),
        decreases self,
    {
        let ghost m = self@;
        match self {
            Json::Array(items) => {
                let mut i: usize = 0;
                while i < items.len()
                    invariant
                        i <= items@.len(),
                        *self == Json::Array(*items),
                        m == self@,
                        m is Array,
                        m->Array_0.len() == items@.len(),
                        forall|j: int| 0 <= j < i ==> (#[trigger] m->Array_0[j]).wf(),
                        forall|j: int| 0 <= j < items@.len() ==> m->Array_0[j] == items@[j]@,
                    decreases items@.len() - i,
                {
                    proof {
                        assert(decreases_to!(*self => self->Array_0));
                        assert(decreases_to!(self->Array_0 => self->Array_0@));
                        assert(decreases_to!(self->Array_0@ => items@[i as int]));
                    }
                    if !items[i].is_wf() {
                        assert(!m->Array_0[i as int].wf());
                        return false;
                    }
                    i += 1;
                }
                true
            },
            Json::Object(members) => {
                let ghost ms = m->Object_0;
                let mut i: usize = 0;
                while i < members.len()
                    invariant
                        i <= members@.len(),
                        *self == Json::Object(*members),
                        m == self@,
                        m == JsonModel::Object(ms),
                        ms == members_model(members@),
                        forall|j: int| 0 <= j < i ==> (#[trigger] ms[j]).1.wf(),
                        forall|a: int, b: int|
                            0 <= a < i && 0 <= b < ms.len() && (#[trigger] ms[a]).0 == (
                            #[trigger] ms[b]).0 ==> a == b,
                    decreases members@.len() - i,
                {
                    proof {
                        assert(decreases_to!(*self => self->Object_0));
                        assert(decreases_to!(self->Object_0 => self->Object_0@));
                        assert(decreases_to!(self->Object_0@ => members@[i as int]));
                        assert(decreases_to!(members@[i as int] => members@[i as int].1));
                        assert(ms[i as int].1 == members@[i as int].1@);
                    }
                    if !members[i].1.is_wf() {
                        assert(!ms[i as int].1.wf());
                        return false;
                    }
                    let mut j: usize = i + 1;
                    while j < members.len()
                        invariant
                            i < j <= members@.len(),
                            m == self@,
                            m == JsonModel::Object(ms),
                            ms == members_model(members@),
                            forall|b: int| i < b < j ==> ms[i as int].0 != (#[trigger] ms[b]).0,
                        decreases members@.len() - j,
                    {
                        if members[i].0 == members[j].0 {
                            assert(ms[i as int].0 == ms[j as int].0);
                            assert(!keys_unique(ms));
                            return false;
                        }
                        j += 1;
                    }
                    i += 1;
                }
                true
            },
            _ => true,
        }
    }
}

} // verus!
