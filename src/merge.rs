//! Deep merge of JSON values, with null as a deletion marker.
use vstd::prelude::*;

use crate::json::{
    has_key, key_index, keys_unique, members_model, put_member, remove_member, value_at, Json,
    JsonModel,
};

verus! {

/// `overlay` merged into `base`. Two objects merge member by member;
/// any other overlay replaces the base whole.
pub open spec fn merge_model(base: JsonModel, overlay: JsonModel) -> JsonModel
    decreases overlay, 1int,
{
    match overlay {
        JsonModel::Object(om) => match base {
            JsonModel::Object(bm) => JsonModel::Object(merge_members(bm, om)),
            _ => overlay,
        },
        _ => overlay,
    }
}

/// The overlay's members applied to `base` in order: a null value takes the
/// key out, any other value is merged into the value at that key (null
/// where the key is absent).
pub open spec fn merge_members(
    base: Seq<(Seq<char>, JsonModel)>,
    overlay: Seq<(Seq<char>, JsonModel)>,
) -> Seq<(Seq<char>, JsonModel)>
    decreases overlay, 0int,
{
    if overlay.len() == 0 {
        base
    } else {
        let acc = merge_members(base, overlay.drop_last());
        let k = overlay.last().0;
        let v = overlay.last().1;
        if v is Null {
            remove_member(acc, k)
        } else {
            proof {
                assert(decreases_to!(overlay => overlay[overlay.len() - 1]));
            }
            put_member(acc, k, merge_model(value_at(acc, k), v))
        }
    }
}

/// Members with unique keys and well-formed values.
pub open spec fn members_wf(ms: Seq<(Seq<char>, JsonModel)>) -> bool {
    keys_unique(ms) && forall|i: int| 0 <= i < ms.len() ==> (#[trigger] ms[i]).1.wf()
}

/// Under unique keys, the member found at `i` is the one `key_index` names.
pub proof fn lemma_key_at(ms: Seq<(Seq<char>, JsonModel)>, k: Seq<char>, i: int)
    requires
        keys_unique(ms),
        0 <= i < ms.len(),
        ms[i].0 == k,
    ensures
        has_key(ms, k),
        key_index(ms, k) == i,
        value_at(ms, k) == ms[i].1,
{
    assert(has_key(ms, k));
}

proof fn lemma_put_member_wf(ms: Seq<(Seq<char>, JsonModel)>, k: Seq<char>, v: JsonModel)
    requires
        members_wf(ms),
        v.wf(),
    ensures
        members_wf(put_member(ms, k, v)),
{
    let r = put_member(ms, k, v);
    if has_key(ms, k) {
        let p = key_index(ms, k);
        assert forall|i: int, j: int|
            0 <= i < r.len() && 0 <= j < r.len() && (#[trigger] r[i]).0 == (#[trigger] r[j]).0
            implies i == j by {
            assert(r[i].0 == ms[i].0 && r[j].0 == ms[j].0);
        }
        assert forall|i: int| 0 <= i < r.len() implies (#[trigger] r[i]).1.wf() by {
            if i != p {
                assert(r[i] == ms[i]);
            }
        }
    } else {
        assert forall|i: int, j: int|
            0 <= i < r.len() && 0 <= j < r.len() && (#[trigger] r[i]).0 == (#[trigger] r[j]).0
            implies i == j by {
            if i < ms.len() && j == ms.len() {
                assert(ms[i].0 == k);
            }
            if j < ms.len() && i == ms.len() {
                assert(ms[j].0 == k);
            }
        }
        assert forall|i: int| 0 <= i < r.len() implies (#[trigger] r[i]).1.wf() by {
            if i < ms.len() {
                assert(r[i] == ms[i]);
            }
        }
    }
}

proof fn lemma_remove_member_wf(ms: Seq<(Seq<char>, JsonModel)>, k: Seq<char>)
    requires
        members_wf(ms),
    ensures
        members_wf(remove_member(ms, k)),
        !has_key(remove_member(ms, k), k),
{
    let r = remove_member(ms, k);
    if has_key(ms, k) {
        let p = key_index(ms, k);
        assert forall|i: int, j: int|
            0 <= i < r.len() && 0 <= j < r.len() && (#[trigger] r[i]).0 == (#[trigger] r[j]).0
            implies i == j by {
            let i2 = if i < p { i } else { i + 1 };
            let j2 = if j < p { j } else { j + 1 };
            assert(r[i] == ms[i2] && r[j] == ms[j2]);
        }
        assert forall|i: int| 0 <= i < r.len() implies (#[trigger] r[i]).1.wf() by {
            let i2 = if i < p { i } else { i + 1 };
            assert(r[i] == ms[i2]);
        }
        if has_key(r, k) {
            let q = key_index(r, k);
            let q2 = if q < p { q } else { q + 1 };
            assert(r[q] == ms[q2]);
        }
    }
}

/// Merging well-formed values gives a well-formed value.
pub proof fn lemma_merge_wf(base: JsonModel, overlay: JsonModel)
    requires
        base.wf(),
        overlay.wf(),
    ensures
        merge_model(base, overlay).wf(),
    decreases overlay, 1int,
{
    if let JsonModel::Object(om) = overlay {
        if let JsonModel::Object(bm) = base {
            lemma_merge_members_wf(bm, om);
        }
    }
}

/// Merging well-formed members gives well-formed members.
pub proof fn lemma_merge_members_wf(
    base: Seq<(Seq<char>, JsonModel)>,
    overlay: Seq<(Seq<char>, JsonModel)>,
)
    requires
        members_wf(base),
        forall|i: int| 0 <= i < overlay.len() ==> (#[trigger] overlay[i]).1.wf(),
    ensures
        members_wf(merge_members(base, overlay)),
    decreases overlay, 0int,
{
    if overlay.len() > 0 {
        let rest = overlay.drop_last();
        assert forall|i: int| 0 <= i < rest.len() implies (#[trigger] rest[i]).1.wf() by {
            assert(rest[i] == overlay[i]);
        }
        lemma_merge_members_wf(base, rest);
        let acc = merge_members(base, rest);
        let k = overlay.last().0;
        let v = overlay.last().1;
        if v is Null {
            lemma_remove_member_wf(acc, k);
        } else {
            assert(decreases_to!(overlay => overlay[overlay.len() - 1]));
            if has_key(acc, k) {
                assert(acc[key_index(acc, k)].1.wf());
            }
            lemma_merge_wf(value_at(acc, k), v);
            lemma_put_member_wf(acc, k, merge_model(value_at(acc, k), v));
        }
    }
}

/// An object's model is the sequence of its members' models.
pub proof fn lemma_object_view(ms: Vec<(String, Json)>)
    ensures
        Json::Object(ms)@ == JsonModel::Object(members_model(ms@)),
{
    let v = Json::Object(ms);
    assert(v@ is Object);
    let a = v@->Object_0;
    let b = members_model(ms@);
    assert(a.len() == ms@.len());
    assert forall|i: int| 0 <= i < a.len() implies a[i] == b[i] by {
        assert(a[i] == (ms@[i].0@, ms@[i].1@));
    }
    assert(a =~= b);
}

/// The position of the member with key `k`, if any.
fn find_member(ms: &Vec<(String, Json)>, k: &String) -> (r: Option<usize>)
    ensures
        match r {
            Some(i) => i < ms@.len() && ms@[i as int].0@ == k@,
            None => !has_key(members_model(ms@), k@),
        },
{
    let mut i: usize = 0;
    while i < ms.len()
        invariant
            i <= ms@.len(),
            forall|j: int| 0 <= j < i ==> ms@[j].0@ != k@,
        decreases ms@.len() - i,
    {
        if ms[i].0 == *k {
            return Some(i);
        }
        i += 1;
    }
    proof {
        let mm = members_model(ms@);
        assert forall|j: int| 0 <= j < mm.len() implies (#[trigger] mm[j]).0 != k@ by {
            assert(mm[j].0 == ms@[j].0@);
        }
    }
    None
}

/// `overlay` merged into `base`: objects member by member, where a null
/// member deletes its key; any other overlay replaces `base`.
pub fn merged(base: Json, overlay: Json) -> (r: Json)
    requires
        base.wf(),
        overlay.wf(),
    ensures
        r@ == merge_model(base@, overlay@),
        r.wf(),
    decreases overlay,
{
    let ghost whole = overlay;
    match overlay {
        Json::Object(mut om) => {
            match base {
                Json::Object(mut acc) => {
                    let ghost om_vec = om;
                    let ghost om0 = om@;
                    let ghost ov = members_model(om0);
                    let ghost bm0 = members_model(acc@);
                    proof {
                        lemma_object_view(acc);
                        lemma_object_view(om);
                        assert(ov.take(0) =~= Seq::<(Seq<char>, JsonModel)>::empty());
                        assert(om@ =~= om0.skip(0));
                    }
                    let n = om.len();
                    let mut i: usize = 0;
                    while i < n
                        invariant
                            i <= n == om0.len(),
                            om@ == om0.skip(i as int),
                            ov == members_model(om0),
                            whole == Json::Object(om_vec),
                            overlay == whole,
                            om_vec@ == om0,
                            JsonModel::Object(ov).wf(),
                            members_model(acc@) == merge_members(bm0, ov.take(i as int)),
                            members_wf(members_model(acc@)),
                        decreases n - i,
                    {
                        let ghost prev = acc@;
                        let ghost mm = members_model(prev);
                        let (k, v) = om.remove(0);
                        proof {
                            assert(om0[i as int] == (k, v));
                            assert(ov[i as int] == (k@, v@));
                            assert(om@ =~= om0.skip(i + 1));
                            assert(ov.take(i + 1).drop_last() =~= ov.take(i as int));
                            assert(ov.take(i + 1).last() == (k@, v@));
                            assert(v@.wf());
                        }
                        let is_null = match &v {
                            Json::Null => true,
                            _ => false,
                        };
                        let found = find_member(&acc, &k);
                        if is_null {
                            if let Some(p) = found {
                                proof {
                                    assert(mm[p as int].0 == k@);
                                    lemma_key_at(mm, k@, p as int);
                                }
                                acc.remove(p);
                                assert(members_model(acc@) =~= mm.remove(p as int));
                            }
                            proof {
                                lemma_remove_member_wf(mm, k@);
                            }
                        } else {
                            proof {
                                assert(decreases_to!(whole => whole->Object_0));
                                assert(decreases_to!(om_vec => om_vec@));
                                assert(decreases_to!(om0 => om0[i as int]));
                                assert(decreases_to!(om0[i as int] => om0[i as int].1));
                                assert(decreases_to!(whole => v));

                            }
                            match found {
                                Some(p) => {
                                    proof {
                                        assert(mm[p as int].0 == k@);
                                        lemma_key_at(mm, k@, p as int);
                                        assert(mm[p as int].1.wf());
                                    }
                                    let (key, old_v) = acc.remove(p);
                                    let nv = merged(old_v, v);
                                    acc.insert(p, (key, nv));
                                    assert(members_model(acc@) =~= mm.update(
                                        p as int,
                                        (k@, merge_model(value_at(mm, k@), v@)),
                                    ));
                                },
                                None => {
                                    let nv = merged(Json::Null, v);
                                    acc.push((k, nv));
                                    assert(members_model(acc@) =~= mm.push(
                                        (k@, merge_model(value_at(mm, k@), v@)),
                                    ));
                                },
                            }
                            proof {
                                if has_key(mm, k@) {
                                    assert(mm[key_index(mm, k@)].1.wf());
                                }
                                lemma_merge_wf(value_at(mm, k@), v@);
                                lemma_put_member_wf(mm, k@, merge_model(value_at(mm, k@), v@));
                            }
                        }
                        i += 1;
                    }
                    proof {
                        assert(ov.take(n as int) =~= ov);
                        lemma_object_view(acc);
                    }
                    Json::Object(acc)
                },
                _ => Json::Object(om),
            }
        },
        _ => overlay,
    }
}

/// Merges `overlay` into `base` in place.
pub fn merge(base: &mut Json, overlay: Json)
    requires
        old(base).wf(),
        overlay.wf(),
    ensures
        final(base)@ == merge_model(old(base)@, overlay@),
        final(base).wf(),
{
    let mut taken = Json::Null;
    std::mem::swap(base, &mut taken);
    *base = merged(taken, overlay);
}

/// The models of a sequence of values.
pub open spec fn layers_model(layers: Seq<Json>) -> Seq<JsonModel> {
    Seq::new(layers.len(), |i: int| layers[i]@)
}

/// A chain of layers merged in order, each into the result of those before
/// it: the first layer is the seed, the last has the final word.
pub open spec fn merge_chain_model(layers: Seq<JsonModel>) -> JsonModel
    decreases layers.len(),
{
    if layers.len() == 0 {
        JsonModel::Null
    } else if layers.len() == 1 {
        layers[0]
    } else {
        merge_model(merge_chain_model(layers.drop_last()), layers.last())
    }
}

/// Merges a non-empty chain of values, topmost ancestor first.
pub fn merge_chain(layers: Vec<Json>) -> (r: Json)
    requires
        layers@.len() >= 1,
        forall|i: int| 0 <= i < layers@.len() ==> (#[trigger] layers@[i]).wf(),
    ensures
        r@ == merge_chain_model(layers_model(layers@)),
        r.wf(),
{
    let ghost all = layers@;
    let ghost lm = layers_model(all);
    let mut rest = layers;
    let mut acc = rest.remove(0);
    proof {
        assert(lm.take(1).len() == 1);
        assert(rest@ =~= all.skip(1));
    }
    let n = rest.len();
    let mut i: usize = 0;
    while i < n
        invariant
            n + 1 == all.len(),
            i <= n,
            lm == layers_model(all),
            forall|j: int| 0 <= j < all.len() ==> (#[trigger] all[j]).wf(),
            rest@ == all.skip(i + 1),
            acc@ == merge_chain_model(lm.take(i + 1)),
            acc.wf(),
        decreases n - i,
    {
        let next = rest.remove(0);
        proof {
            assert(next == all[i + 1]);
            assert(rest@ =~= all.skip(i + 2));
            assert(lm.take(i + 2).drop_last() =~= lm.take(i + 1));
            assert(lm.take(i + 2).last() == next@);
        }
        acc = merged(acc, next);
        i += 1;
    }
    proof {
        assert(lm.take(n + 1) =~= lm);
    }
    acc
}

/// An overlay that is not an object replaces the base whole.
pub proof fn lemma_non_object_replaces(base: JsonModel, overlay: JsonModel)
    requires
        !(overlay is Object),
    ensures
        merge_model(base, overlay) == overlay,
{
}

/// Merging `{k: null}` into an object leaves no member with key `k`,
/// whether or not the object had one, and keeps every other member.
pub proof fn lemma_tombstone_removes(base: JsonModel, k: Seq<char>)
    requires
        base is Object,
        base.wf(),
    ensures
        merge_model(base, JsonModel::Object(seq![(k, JsonModel::Null)])) is Object,
        !has_key(merge_model(base, JsonModel::Object(seq![(k, JsonModel::Null)]))->Object_0, k),
        forall|k2: Seq<char>|
            k2 != k ==> value_at(
                merge_model(base, JsonModel::Object(seq![(k, JsonModel::Null)]))->Object_0,
                k2,
            ) == value_at(base->Object_0, k2),
{
    let bm = base->Object_0;
    let ov = seq![(k, JsonModel::Null)];
    assert(ov.drop_last() =~= Seq::<(Seq<char>, JsonModel)>::empty());
    assert(merge_members(bm, ov.drop_last()) == bm);
    assert(ov.last() == (k, JsonModel::Null));
    assert(merge_members(bm, ov) == remove_member(bm, k));
    lemma_remove_member_wf(bm, k);
    assert forall|k2: Seq<char>| k2 != k implies value_at(remove_member(bm, k), k2) == value_at(
        bm,
        k2,
    ) by {
        lemma_remove_keeps_other(bm, k, k2);
    }
}

proof fn lemma_remove_keeps_other(ms: Seq<(Seq<char>, JsonModel)>, k: Seq<char>, k2: Seq<char>)
    requires
        members_wf(ms),
        k != k2,
    ensures
        has_key(remove_member(ms, k), k2) == has_key(ms, k2),
        value_at(remove_member(ms, k), k2) == value_at(ms, k2),
{
    lemma_remove_member_wf(ms, k);
    let r = remove_member(ms, k);
    if has_key(ms, k) {
        let p = key_index(ms, k);
        if has_key(ms, k2) {
            let q = key_index(ms, k2);
            let q2 = if q < p { q } else { q - 1 };
            assert(r[q2] == ms[q]);
            lemma_key_at(r, k2, q2);
        }
        if has_key(r, k2) {
            let q = key_index(r, k2);
            let q2 = if q < p { q } else { q + 1 };
            assert(r[q] == ms[q2]);
        }
    }
}

/// No object member, at any depth through objects, holds null.
pub open spec fn no_null_members(v: JsonModel) -> bool
    decreases v,
{
    match v {
        JsonModel::Object(ms) => forall|i: int|
            0 <= i < ms.len() ==> !((#[trigger] ms[i]).1 is Null) && no_null_members(ms[i].1),
        _ => true,
    }
}

/// A value merged into itself is unchanged, where no member holds null
/// (a null member would delete its own key).
pub proof fn lemma_merge_self(v: JsonModel)
    requires
        v.wf(),
        no_null_members(v),
    ensures
        merge_model(v, v) == v,
    decreases v, 1int, 0int,
{
    if let JsonModel::Object(ms) = v {
        assert(decreases_to!(v => v->Object_0));
        lemma_merge_members_self(ms, ms.len() as int);
        assert(ms.take(ms.len() as int) =~= ms);
    }
}

proof fn lemma_merge_members_self(ms: Seq<(Seq<char>, JsonModel)>, n: int)
    requires
        members_wf(ms),
        forall|i: int|
            0 <= i < ms.len() ==> !((#[trigger] ms[i]).1 is Null) && no_null_members(ms[i].1),
        0 <= n <= ms.len(),
    ensures
        merge_members(ms, ms.take(n)) == ms,
    decreases ms, 0int, n,
{
    if n == 0 {
        assert(ms.take(0) =~= Seq::<(Seq<char>, JsonModel)>::empty());
    } else {
        let ov = ms.take(n);
        assert(ov.drop_last() =~= ms.take(n - 1));
        lemma_merge_members_self(ms, n - 1);
        let k = ms[n - 1].0;
        let w = ms[n - 1].1;
        assert(ov.last() == (k, w));
        lemma_key_at(ms, k, n - 1);
        assert(decreases_to!(ms => ms[n - 1]));
        lemma_merge_self(w);
        assert(ms.update(n - 1, (k, w)) =~= ms);
    }
}

/// Every chain of well-formed layers merges to a well-formed value.
pub proof fn lemma_merge_chain_wf(layers: Seq<JsonModel>)
    requires
        forall|i: int| 0 <= i < layers.len() ==> (#[trigger] layers[i]).wf(),
    ensures
        merge_chain_model(layers).wf(),
    decreases layers.len(),
{
    if layers.len() > 1 {
        let front = layers.drop_last();
        assert forall|i: int| 0 <= i < front.len() implies (#[trigger] front[i]).wf() by {
            assert(front[i] == layers[i]);
        }
        lemma_merge_chain_wf(front);
        lemma_merge_wf(merge_chain_model(front), layers.last());
    }
}

proof fn lemma_put_keeps_other(
    ms: Seq<(Seq<char>, JsonModel)>,
    k: Seq<char>,
    w: JsonModel,
    k2: Seq<char>,
)
    requires
        members_wf(ms),
        w.wf(),
        k != k2,
        has_key(ms, k2),
    ensures
        has_key(put_member(ms, k, w), k2),
        value_at(put_member(ms, k, w), k2) == value_at(ms, k2),
{
    lemma_put_member_wf(ms, k, w);
    let r = put_member(ms, k, w);
    let q = key_index(ms, k2);
    assert(r[q] == ms[q]);
    lemma_key_at(r, k2, q);
}

proof fn lemma_put_sets(ms: Seq<(Seq<char>, JsonModel)>, k: Seq<char>, w: JsonModel)
    requires
        members_wf(ms),
        w.wf(),
    ensures
        has_key(put_member(ms, k, w), k),
        value_at(put_member(ms, k, w), k) == w,
{
    lemma_put_member_wf(ms, k, w);
    let r = put_member(ms, k, w);
    let q = if has_key(ms, k) { key_index(ms, k) } else { ms.len() as int };
    assert(r[q] == (k, w));
    lemma_key_at(r, k, q);
}

/// Where the overlay's member `p` holds a value that is neither null nor an
/// object, the merged members hold exactly that value at its key.
proof fn lemma_member_wins(
    base: Seq<(Seq<char>, JsonModel)>,
    overlay: Seq<(Seq<char>, JsonModel)>,
    p: int,
)
    requires
        members_wf(base),
        members_wf(overlay),
        0 <= p < overlay.len(),
        !(overlay[p].1 is Null),
        !(overlay[p].1 is Object),
    ensures
        has_key(merge_members(base, overlay), overlay[p].0),
        value_at(merge_members(base, overlay), overlay[p].0) == overlay[p].1,
    decreases overlay.len(),
{
    let rest = overlay.drop_last();
    assert forall|i: int| 0 <= i < rest.len() implies (#[trigger] rest[i]).1.wf() by {
        assert(rest[i] == overlay[i]);
    }
    lemma_merge_members_wf(base, rest);
    let acc = merge_members(base, rest);
    let k = overlay.last().0;
    let v = overlay.last().1;
    if p == overlay.len() - 1 {
        if has_key(acc, k) {
            assert(acc[key_index(acc, k)].1.wf());
        }
        lemma_merge_wf(value_at(acc, k), v);
        lemma_put_sets(acc, k, merge_model(value_at(acc, k), v));
    } else {
        assert forall|i: int, j: int|
            0 <= i < rest.len() && 0 <= j < rest.len() && (#[trigger] rest[i]).0 == (
            #[trigger] rest[j]).0 implies i == j by {
            assert(rest[i] == overlay[i] && rest[j] == overlay[j]);
        }
        assert(rest[p] == overlay[p]);
        lemma_member_wins(base, rest, p);
        assert(k != overlay[p].0);
        if v is Null {
            lemma_remove_keeps_other(acc, k, overlay[p].0);
        } else {
            if has_key(acc, k) {
                assert(acc[key_index(acc, k)].1.wf());
            }
            lemma_merge_wf(value_at(acc, k), v);
            lemma_put_keeps_other(acc, k, merge_model(value_at(acc, k), v), overlay[p].0);
        }
    }
}

/// The last layer of a chain has the final word: where it is an object whose
/// key `k` holds a value that is neither null nor an object, the merged
/// chain holds that value at `k`, whatever the earlier layers hold there.
pub proof fn lemma_last_layer_wins(layers: Seq<JsonModel>, k: Seq<char>)
    requires
        layers.len() >= 1,
        forall|i: int| 0 <= i < layers.len() ==> (#[trigger] layers[i]).wf(),
        layers.last() is Object,
        has_key(layers.last()->Object_0, k),
        !(value_at(layers.last()->Object_0, k) is Null),
        !(value_at(layers.last()->Object_0, k) is Object),
    ensures
        merge_chain_model(layers) is Object,
        has_key(merge_chain_model(layers)->Object_0, k),
        value_at(merge_chain_model(layers)->Object_0, k) == value_at(layers.last()->Object_0, k),
{
    let lm = layers.last()->Object_0;
    let p = key_index(lm, k);
    assert(layers.last().wf());
    if layers.len() > 1 {
        let front = layers.drop_last();
        assert forall|i: int| 0 <= i < front.len() implies (#[trigger] front[i]).wf() by {
            assert(front[i] == layers[i]);
        }
        lemma_merge_chain_wf(front);
        let x = merge_chain_model(front);
        if let JsonModel::Object(xm) = x {
            lemma_member_wins(xm, lm, p);
        }
    }
}

} // verus!
