//! What each kind of archive object becomes, stated by class name.

use vstd::prelude::*;
use crate::archive_laws::{law_geometry_reference, law_object_slots};
use crate::bytes::le_u32;
use crate::keyed_archive::{
    array_key, array_push, convert_object, field_step, fields_after, flush_arrays,
    initial_build, key_count, last_bytes, lemma_objects_after_len, object_run, objects_after,
    ObjectBuild,
};
use crate::nib_format::{NibObject, PayloadModel, ValueModel};
use crate::plist_model::{
    dict_get, has_key, lemma_dict_insert_get, lemma_dict_insert_shape,
    lemma_first_index, DictModel, FieldModel, Geometry, ObjectModel, ScalarModel,
};
use crate::text::{lossy_utf8, trim_trailing_nuls};

verus! {

/// Whether `v` holds data under `NS.bytes` or `UINibEncoderEmptyKey`.
pub open spec fn holds_bytes(keys: Seq<Seq<char>>, v: ValueModel) -> bool {
    &&& (keys[v.key_index as int] == "NS.bytes"@ || keys[v.key_index as int]
        == "UINibEncoderEmptyKey"@)
    &&& v.payload is Data
}

/// The bytes of a data payload (empty for any other payload).
pub open spec fn data_bytes(p: PayloadModel) -> Seq<u8> {
    match p {
        PayloadModel::Data(d) => d,
        _ => Seq::empty(),
    }
}

proof fn lemma_last_bytes_none(keys: Seq<Seq<char>>, run: Seq<ValueModel>)
    requires
        forall|j: int| 0 <= j < run.len() ==> !holds_bytes(keys, #[trigger] run[j]),
    ensures
        last_bytes(keys, run) is None,
    decreases run.len(),
{
    if run.len() > 0 {
        assert(!holds_bytes(keys, run[run.len() - 1]));
        assert forall|j: int| 0 <= j < run.drop_last().len() implies !holds_bytes(
            keys,
            #[trigger] run.drop_last()[j],
        ) by {
            assert(run.drop_last()[j] == run[j]);
        }
        lemma_last_bytes_none(keys, run.drop_last());
    }
}

proof fn lemma_last_bytes_at(keys: Seq<Seq<char>>, run: Seq<ValueModel>, j: int)
    requires
        0 <= j < run.len(),
        holds_bytes(keys, run[j]),
        forall|j2: int| j < j2 < run.len() ==> !holds_bytes(keys, #[trigger] run[j2]),
    ensures
        last_bytes(keys, run) == Some(data_bytes(run[j].payload)),
    decreases run.len(),
{
    if j < run.len() - 1 {
        assert(!holds_bytes(keys, run[run.len() - 1]));
        assert forall|j2: int| j < j2 < run.drop_last().len() implies !holds_bytes(
            keys,
            #[trigger] run.drop_last()[j2],
        ) by {
            assert(run.drop_last()[j2] == run[j2]);
        }
        assert(run.drop_last()[j] == run[j]);
        lemma_last_bytes_at(keys, run.drop_last(), j);
    }
}

/// The class name of archive object `i`.
pub open spec fn class_of(
    classes: Seq<Seq<char>>,
    objects: Seq<NibObject>,
    i: int,
) -> Seq<char> {
    classes[objects[i].class_index as int]
}

proof fn lemma_slot_without_additions(
    keys: Seq<Seq<char>>,
    classes: Seq<Seq<char>>,
    objects: Seq<NibObject>,
    values: Seq<ValueModel>,
    i: int,
)
    requires
        0 <= i < objects.len(),
        convert_object(
            keys,
            classes,
            objects,
            values,
            i,
            objects_after(keys, classes, objects, values, i as nat).len() as int,
        ).1.len() == 0,
    ensures
        objects_after(keys, classes, objects, values, (i + 1) as nat).len() == objects_after(
            keys,
            classes,
            objects,
            values,
            i as nat,
        ).len(),
{
    lemma_objects_after_len(keys, classes, objects, values, i as nat);
    let prev = objects_after(keys, classes, objects, values, i as nat);
    let r = convert_object(keys, classes, objects, values, i, prev.len() as int);
    assert(prev.update(i + 1, r.0).len() == prev.len());
}

/// An archive object of class `NSString` or `NSMutableString` becomes a
/// plain string in `$objects[i + 1]`, and adds nothing to `$objects`: the
/// text of the last data value stored under `NS.bytes` or
/// `UINibEncoderEmptyKey`, decoded and without trailing NULs, or the empty
/// string where there is none.
pub proof fn law_string_objects(
    keys: Seq<Seq<char>>,
    classes: Seq<Seq<char>>,
    objects: Seq<NibObject>,
    values: Seq<ValueModel>,
    i: int,
)
    requires
        0 <= i < objects.len(),
        class_of(classes, objects, i) == "NSString"@ || class_of(classes, objects, i)
            == "NSMutableString"@,
    ensures
        ({
            let all = objects_after(keys, classes, objects, values, objects.len());
            let run = object_run(values, objects[i]);
            &&& all[i + 1] is String
            &&& objects_after(keys, classes, objects, values, (i + 1) as nat).len()
                == objects_after(keys, classes, objects, values, i as nat).len()
            &&& (forall|j: int| 0 <= j < run.len() ==> !holds_bytes(keys, #[trigger] run[j]))
                ==> all[i + 1] == ObjectModel::String(Seq::empty())
            &&& forall|j: int|
                #![trigger run[j]]
                0 <= j < run.len() && holds_bytes(keys, run[j]) && (forall|j2: int|
                    j < j2 < run.len() ==> !holds_bytes(keys, #[trigger] run[j2])) ==> all[i + 1]
                    == ObjectModel::String(trim_trailing_nuls(lossy_utf8(data_bytes(run[j].payload))))
        }),
{
    law_object_slots(keys, classes, objects, values, i);
    lemma_slot_without_additions(keys, classes, objects, values, i);
    let run = object_run(values, objects[i]);
    if forall|j: int| 0 <= j < run.len() ==> !holds_bytes(keys, #[trigger] run[j]) {
        lemma_last_bytes_none(keys, run);
    }
    assert forall|j: int|
        #![trigger run[j]]
        0 <= j < run.len() && holds_bytes(keys, run[j]) && (forall|j2: int|
            j < j2 < run.len() ==> !holds_bytes(keys, #[trigger] run[j2])) implies last_bytes(
        keys,
        run,
    ) == Some(data_bytes(run[j].payload)) by {
        lemma_last_bytes_at(keys, run, j);
    }
}

/// An archive object of class `NSData` or `NSMutableData` becomes plain data
/// in `$objects[i + 1]`, and adds nothing to `$objects`: the bytes of the
/// last data value stored under `NS.bytes` or `UINibEncoderEmptyKey`, or no
/// bytes where there is none.
pub proof fn law_data_objects(
    keys: Seq<Seq<char>>,
    classes: Seq<Seq<char>>,
    objects: Seq<NibObject>,
    values: Seq<ValueModel>,
    i: int,
)
    requires
        0 <= i < objects.len(),
        class_of(classes, objects, i) == "NSData"@ || class_of(classes, objects, i)
            == "NSMutableData"@,
    ensures
        ({
            let all = objects_after(keys, classes, objects, values, objects.len());
            let run = object_run(values, objects[i]);
            &&& all[i + 1] is Data
            &&& objects_after(keys, classes, objects, values, (i + 1) as nat).len()
                == objects_after(keys, classes, objects, values, i as nat).len()
            &&& (forall|j: int| 0 <= j < run.len() ==> !holds_bytes(keys, #[trigger] run[j]))
                ==> all[i + 1] == ObjectModel::Data(Seq::empty())
            &&& forall|j: int|
                #![trigger run[j]]
                0 <= j < run.len() && holds_bytes(keys, run[j]) && (forall|j2: int|
                    j < j2 < run.len() ==> !holds_bytes(keys, #[trigger] run[j2])) ==> all[i + 1]
                    == ObjectModel::Data(data_bytes(run[j].payload))
        }),
{
    reveal_strlit("NSData");
    reveal_strlit("NSMutableData");
    reveal_strlit("NSString");
    reveal_strlit("NSMutableString");
    assert("NSData"@ != "NSString"@ && "NSData"@ != "NSMutableString"@) by {
        assert("NSData"@.len() != "NSString"@.len());
        assert("NSData"@.len() != "NSMutableString"@.len());
    }
    assert("NSMutableData"@ != "NSString"@ && "NSMutableData"@ != "NSMutableString"@) by {
        assert("NSMutableData"@[2] != "NSString"@[2]);
        assert("NSMutableData"@.len() != "NSMutableString"@.len());
    }
    law_object_slots(keys, classes, objects, values, i);
    lemma_slot_without_additions(keys, classes, objects, values, i);
    let run = object_run(values, objects[i]);
    if forall|j: int| 0 <= j < run.len() ==> !holds_bytes(keys, #[trigger] run[j]) {
        lemma_last_bytes_none(keys, run);
    }
    assert forall|j: int|
        #![trigger run[j]]
        0 <= j < run.len() && holds_bytes(keys, run[j]) && (forall|j2: int|
            j < j2 < run.len() ==> !holds_bytes(keys, #[trigger] run[j2])) implies last_bytes(
        keys,
        run,
    ) == Some(data_bytes(run[j].payload)) by {
        lemma_last_bytes_at(keys, run, j);
    }
}

// ---------------------------------------------------------------------
// Collections.

proof fn lemma_key_count_one(run: Seq<ValueModel>, j: int)
    requires
        0 <= j < run.len(),
    ensures
        key_count(run, run[j].key_index) >= 1,
    decreases run.len(),
{
    if j < run.len() - 1 {
        assert(run.drop_last()[j] == run[j]);
        lemma_key_count_one(run.drop_last(), j);
    }
}

proof fn lemma_key_count_two(run: Seq<ValueModel>, j: int, j2: int)
    requires
        0 <= j < j2 < run.len(),
        run[j].key_index == run[j2].key_index,
    ensures
        key_count(run, run[j].key_index) >= 2,
    decreases run.len(),
{
    assert(run.drop_last()[j] == run[j]);
    if j2 == run.len() - 1 {
        lemma_key_count_one(run.drop_last(), j);
    } else {
        assert(run.drop_last()[j2] == run[j2]);
        lemma_key_count_two(run.drop_last(), j, j2);
    }
}

proof fn lemma_array_push_has(a: Seq<(u32, Seq<ScalarModel>)>, k2: u32, v: ScalarModel, k: u32)
    requires
        has_key(a, k) || k == k2,
    ensures
        has_key(array_push(a, k2, v), k),
{
    lemma_first_index(a, k2);
    let a2 = array_push(a, k2, v);
    let at = crate::plist_model::first_index(a, k2);
    if k == k2 {
        if at < a.len() {
            assert(a2[at].0 == k);
        } else {
            assert(a2[a.len() as int].0 == k);
        }
    } else {
        let x = choose|x: int| 0 <= x < a.len() && #[trigger] a[x].0 == k;
        if at < a.len() && x == at {
            assert(a[at].0 == k2);
        }
        assert(a2[x].0 == k);
    }
}

proof fn lemma_fields_scalar_entries(
    keys: Seq<Seq<char>>,
    n: nat,
    run: Seq<ValueModel>,
    base: int,
    init: ObjectBuild,
    m: nat,
)
    requires
        m <= run.len(),
        forall|t: int| 0 <= t < init.entries.len() ==> (#[trigger] init.entries[t]).1 is Scalar,
    ensures
        forall|t: int|
            #![trigger fields_after(keys, n, run, base, init, m).entries[t]]
            0 <= t < fields_after(keys, n, run, base, init, m).entries.len() ==> fields_after(
                keys,
                n,
                run,
                base,
                init,
                m,
            ).entries[t].1 is Scalar,
    decreases m,
{
    if m > 0 {
        lemma_fields_scalar_entries(keys, n, run, base, init, (m - 1) as nat);
        let st = fields_after(keys, n, run, base, init, (m - 1) as nat);
        let v = run[m - 1];
        let st2 = fields_after(keys, n, run, base, init, m);
        assert(st2 == field_step(keys, n, run, base, st, v));
        if key_count(run, v.key_index) <= 1 {
            let key = keys[v.key_index as int];
            let f = st2.entries;
            let value = if crate::keyed_archive::geometry_of(key, v.payload) is Some {
                ScalarModel::Uid((base + st.added.len()) as u64)
            } else {
                crate::keyed_archive::linked_scalar(v.payload, n)
            };
            lemma_dict_insert_shape(st.entries, key, FieldModel::Scalar(value));
            assert forall|t: int| 0 <= t < f.len() implies (#[trigger] f[t]).1 is Scalar by {
                if f[t] != (key, FieldModel::Scalar(value)) {
                    assert(f[t] == st.entries[t]);
                }
            }
        }
    }
}

proof fn lemma_fields_keep_array(
    keys: Seq<Seq<char>>,
    n: nat,
    run: Seq<ValueModel>,
    base: int,
    init: ObjectBuild,
    m: nat,
    j: int,
)
    requires
        0 <= j < m <= run.len(),
        key_count(run, run[j].key_index) > 1,
    ensures
        has_key(fields_after(keys, n, run, base, init, m).arrays, run[j].key_index),
    decreases m,
{
    let st = fields_after(keys, n, run, base, init, (m - 1) as nat);
    let v = run[m - 1];
    let st2 = fields_after(keys, n, run, base, init, m);
    assert(st2 == field_step(keys, n, run, base, st, v));
    let value = if crate::keyed_archive::geometry_of(keys[v.key_index as int], v.payload) is Some {
        ScalarModel::Uid((base + st.added.len()) as u64)
    } else {
        crate::keyed_archive::linked_scalar(v.payload, n)
    };
    if j < m - 1 {
        lemma_fields_keep_array(keys, n, run, base, init, (m - 1) as nat, j);
        if key_count(run, v.key_index) > 1 {
            lemma_array_push_has(st.arrays, v.key_index, value, run[j].key_index);
        }
    } else {
        lemma_array_push_has(st.arrays, v.key_index, value, run[j].key_index);
    }
}

proof fn lemma_flush_no_array_under_empty_key(
    keys: Seq<Seq<char>>,
    entries: DictModel<FieldModel>,
    arrays: Seq<(u32, Seq<ScalarModel>)>,
    j: nat,
)
    requires
        j <= arrays.len(),
        forall|t: int|
            0 <= t < entries.len() && (#[trigger] entries[t]).0 == "UINibEncoderEmptyKey"@
                ==> entries[t].1 is Scalar,
    ensures
        forall|t: int|
            #![trigger flush_arrays(keys, true, entries, arrays, j)[t]]
            0 <= t < flush_arrays(keys, true, entries, arrays, j).len() && flush_arrays(
                keys,
                true,
                entries,
                arrays,
                j,
            )[t].0 == "UINibEncoderEmptyKey"@ ==> flush_arrays(
                keys,
                true,
                entries,
                arrays,
                j,
            )[t].1 is Scalar,
    decreases j,
{
    if j > 0 {
        lemma_flush_no_array_under_empty_key(keys, entries, arrays, (j - 1) as nat);
        let prev = flush_arrays(keys, true, entries, arrays, (j - 1) as nat);
        let target = array_key(keys[arrays[j - 1].0 as int], true);
        reveal_strlit("NS.objects");
        reveal_strlit("UINibEncoderEmptyKey");
        assert("NS.objects"@.len() != "UINibEncoderEmptyKey"@.len());
        assert(target != "UINibEncoderEmptyKey"@);
        let f = FieldModel::Array(arrays[j - 1].1);
        lemma_dict_insert_shape(prev, target, f);
        let e2 = flush_arrays(keys, true, entries, arrays, j);
        assert forall|t: int|
            0 <= t < e2.len() && (#[trigger] e2[t]).0 == "UINibEncoderEmptyKey"@ implies e2[t].1 is Scalar by {
            if e2[t] != (target, f) {
                assert(e2[t] == prev[t]);
            }
        }
    }
}

proof fn lemma_flush_gives_ns_objects(
    keys: Seq<Seq<char>>,
    entries: DictModel<FieldModel>,
    arrays: Seq<(u32, Seq<ScalarModel>)>,
    j: nat,
    a: int,
)
    requires
        0 <= a < j <= arrays.len(),
        keys[arrays[a].0 as int] == "UINibEncoderEmptyKey"@,
    ensures
        dict_get(flush_arrays(keys, true, entries, arrays, j), "NS.objects"@) matches Some(
            FieldModel::Array(_),
        ),
    decreases j,
{
    let prev = flush_arrays(keys, true, entries, arrays, (j - 1) as nat);
    let target = array_key(keys[arrays[j - 1].0 as int], true);
    let f = FieldModel::Array(arrays[j - 1].1);
    lemma_dict_insert_get(prev, target, f, "NS.objects"@);
    if a < j - 1 {
        lemma_flush_gives_ns_objects(keys, entries, arrays, (j - 1) as nat, a);
    }
}

/// Is `c` one of the collection classes whose elements the archive keeps
/// under `NS.objects`?
pub open spec fn is_collection_name(c: Seq<char>) -> bool {
    ||| c == "NSArray"@
    ||| c == "NSMutableArray"@
    ||| c == "NSDictionary"@
    ||| c == "NSMutableDictionary"@
}

/// An archive object of class `NSArray`, `NSMutableArray`, `NSDictionary`
/// or `NSMutableDictionary` becomes a dictionary in `$objects[i + 1]` that
/// holds no array under `UINibEncoderEmptyKey`: where two of its fields are
/// stored under the same key index named `UINibEncoderEmptyKey`, the array
/// they are gathered into is stored under `NS.objects`.
pub proof fn law_collection_elements(
    keys: Seq<Seq<char>>,
    classes: Seq<Seq<char>>,
    objects: Seq<NibObject>,
    values: Seq<ValueModel>,
    i: int,
)
    requires
        0 <= i < objects.len(),
        is_collection_name(class_of(classes, objects, i)),
    ensures
        ({
            let all = objects_after(keys, classes, objects, values, objects.len());
            let run = object_run(values, objects[i]);
            &&& all[i + 1] is Dictionary
            &&& forall|t: int|
                #![trigger all[i + 1]->Dictionary_0[t]]
                0 <= t < all[i + 1]->Dictionary_0.len() && all[i + 1]->Dictionary_0[t].0
                    == "UINibEncoderEmptyKey"@ ==> all[i + 1]->Dictionary_0[t].1 is Scalar
            &&& forall|j: int, j2: int|
                #![trigger run[j], run[j2]]
                0 <= j < j2 < run.len() && run[j].key_index == run[j2].key_index
                    && keys[run[j].key_index as int] == "UINibEncoderEmptyKey"@ ==> dict_get(
                    all[i + 1]->Dictionary_0,
                    "NS.objects"@,
                ) matches Some(FieldModel::Array(_))
        }),
{
    let cn = class_of(classes, objects, i);
    reveal_strlit("NSArray");
    reveal_strlit("NSMutableArray");
    reveal_strlit("NSDictionary");
    reveal_strlit("NSMutableDictionary");
    reveal_strlit("NSString");
    reveal_strlit("NSMutableString");
    reveal_strlit("NSData");
    reveal_strlit("NSMutableData");
    assert(!crate::keyed_archive::is_string_class(cn)) by {
        assert("NSArray"@[2] != "NSString"@[2]);
        assert("NSMutableArray"@.len() != "NSMutableString"@.len());
        assert("NSDictionary"@[2] != "NSString"@[2]);
        assert("NSMutableDictionary"@.len() != "NSMutableString"@.len());
        assert("NSArray"@.len() != "NSMutableString"@.len());
        assert("NSMutableArray"@.len() != "NSString"@.len());
        assert("NSDictionary"@.len() != "NSMutableString"@.len());
        assert("NSMutableDictionary"@.len() != "NSString"@.len());
    }
    assert(!crate::keyed_archive::is_data_class(cn)) by {
        assert("NSArray"@.len() != "NSMutableData"@.len());
        assert("NSArray"@[2] != "NSData"@[2]);
        assert("NSMutableArray"@[9] != "NSMutableData"@[9]);
        assert("NSMutableArray"@.len() != "NSData"@.len());
        assert("NSDictionary"@.len() != "NSData"@.len());
        assert("NSDictionary"@.len() != "NSMutableData"@.len());
        assert("NSMutableDictionary"@.len() != "NSData"@.len());
        assert("NSMutableDictionary"@.len() != "NSMutableData"@.len());
    }
    assert(crate::keyed_archive::is_collection_class(cn));
    law_object_slots(keys, classes, objects, values, i);
    let n = objects.len();
    let before = objects_after(keys, classes, objects, values, i as nat);
    let c = before.len() as int;
    let run = object_run(values, objects[i]);
    let init = initial_build(c);
    assert(forall|t: int| 0 <= t < init.entries.len() ==> (#[trigger] init.entries[t]).1 is Scalar);
    lemma_fields_scalar_entries(keys, n, run, c + 1, init, run.len());
    let st = fields_after(keys, n, run, c + 1, init, run.len());
    assert forall|t: int|
        0 <= t < st.entries.len() && (#[trigger] st.entries[t]).0 == "UINibEncoderEmptyKey"@ implies st.entries[t].1 is Scalar by {
    }
    lemma_flush_no_array_under_empty_key(keys, st.entries, st.arrays, st.arrays.len());
    let all = objects_after(keys, classes, objects, values, n);
    let e = flush_arrays(keys, true, st.entries, st.arrays, st.arrays.len());
    assert(all[i + 1] == ObjectModel::Dictionary(e));
    assert forall|j: int, j2: int|
        #![trigger run[j], run[j2]]
        0 <= j < j2 < run.len() && run[j].key_index == run[j2].key_index && keys[run[j].key_index
            as int] == "UINibEncoderEmptyKey"@ implies dict_get(e, "NS.objects"@) matches Some(
        FieldModel::Array(_),
    ) by {
        lemma_key_count_two(run, j, j2);
        lemma_fields_keep_array(keys, n, run, c + 1, init, run.len(), j);
        let k = run[j].key_index;
        let a = choose|a: int| 0 <= a < st.arrays.len() && #[trigger] st.arrays[a].0 == k;
        lemma_flush_gives_ns_objects(keys, st.entries, st.arrays, st.arrays.len(), a);
    }
}

// ---------------------------------------------------------------------
// Geometry.

/// Is `k` one of the keys under which sixteen bytes of data are a rectangle?
pub open spec fn is_rect_name(k: Seq<char>) -> bool {
    ||| k == "UIBounds"@
    ||| k == "UIFrame"@
    ||| k == "UIFrameX"@
    ||| k == "UIAutoresizeToFitContentFrame"@
}

/// Is `k` one of the keys under which eight bytes of data are a point or a size?
pub open spec fn is_pair_name(k: Seq<char>) -> bool {
    ||| k == "UICenter"@
    ||| k == "UIContentOffset"@
    ||| k == "UIContentSize"@
    ||| k == "UIScrollViewContentSize"@
    ||| k == "UIMinimumSize"@
    ||| k == "UIMaximumSize"@
}

/// Sixteen bytes of data under a rectangle key, in an object that becomes a
/// dictionary, become the rectangle of the four little-endian `f32`s at
/// offsets 0, 4, 8 and 12, in that order (origin, then size), appended to
/// `$objects` where the field refers to it; eight bytes under a point or
/// size key become the pair of the `f32`s at offsets 0 and 4.
pub proof fn law_geometry_fields(
    keys: Seq<Seq<char>>,
    classes: Seq<Seq<char>>,
    objects: Seq<NibObject>,
    values: Seq<ValueModel>,
    i: int,
    j: int,
)
    requires
        0 <= i < objects.len(),
        class_of(classes, objects, i) != "NSString"@,
        class_of(classes, objects, i) != "NSMutableString"@,
        class_of(classes, objects, i) != "NSData"@,
        class_of(classes, objects, i) != "NSMutableData"@,
        0 <= j < object_run(values, objects[i]).len(),
        ({
            let v = object_run(values, objects[i])[j];
            let d = data_bytes(v.payload);
            let k = keys[v.key_index as int];
            &&& v.payload is Data
            &&& (d.len() == 16 && is_rect_name(k)) || (d.len() == 8 && is_pair_name(k))
        }),
    ensures
        ({
            let all = objects_after(keys, classes, objects, values, objects.len());
            let c = objects_after(keys, classes, objects, values, i as nat).len() as int;
            let run = object_run(values, objects[i]);
            let st = fields_after(keys, objects.len(), run, c + 1, initial_build(c), j as nat);
            let d = data_bytes(run[j].payload);
            let at = c + 1 + st.added.len();
            &&& at < all.len()
            &&& d.len() == 16 ==> all[at] == ObjectModel::Geometry(
                Geometry::Rect(
                    le_u32(d, 0) as u32,
                    le_u32(d, 4) as u32,
                    le_u32(d, 8) as u32,
                    le_u32(d, 12) as u32,
                ),
            )
            &&& d.len() == 8 ==> all[at] == ObjectModel::Geometry(
                Geometry::Pair(le_u32(d, 0) as u32, le_u32(d, 4) as u32),
            )
        }),
{
    let run = object_run(values, objects[i]);
    let v = run[j];
    let d = data_bytes(v.payload);
    let k = keys[v.key_index as int];
    let g = if d.len() == 16 {
        Geometry::Rect(le_u32(d, 0) as u32, le_u32(d, 4) as u32, le_u32(d, 8) as u32, le_u32(d, 12) as u32)
    } else {
        Geometry::Pair(le_u32(d, 0) as u32, le_u32(d, 4) as u32)
    };
    assert(crate::keyed_archive::geometry_of(k, v.payload) == Some(g));
    law_geometry_reference(keys, classes, objects, values, i, j, g);
}

} // verus!
