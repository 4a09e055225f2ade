//! From the tables of a NIBArchive to the object graph of an
//! NSKeyedArchiver archive.
//!
//! `$objects[0]` is `$null`; archive object `i` becomes `$objects[i + 1]`.
//! Strings and data objects become plain values; every other object becomes
//! a dictionary whose `$class` refers to a class description appended to
//! `$objects`. Fields stored under a key that occurs more than once in an
//! object are gathered into an array; inline geometry data under the UIKit
//! geometry keys becomes a geometry string appended to `$objects`. The root
//! object's fields make up `$top`.

use std::collections::HashMap;
use vstd::prelude::*;
use crate::bytes::{le_u32, read_u32_le};
use crate::nib_format::{
    string_models, value_models, NibObject, NibPayload, NibValue, PayloadModel, ValueModel,
};
use crate::plist_model::{
    dict_insert, first_index, lemma_first_index, lemma_first_index_at, object_models,
    scalar_models, ArchiveModel, ArchivedObject, Dict, DictModel, Field, FieldModel, Geometry,
    KeyedArchive, ObjectModel, Scalar, ScalarModel,
};
use crate::text::{lossy_utf8, str_is, trim_nuls, trim_trailing_nuls, utf8_lossy};

verus! {

broadcast use vstd::std_specs::hash::group_hash_axioms;

// ---------------------------------------------------------------------
// What the conversion produces.

/// The `$objects` index of archive object `idx`, or `0` (`$null`) for an
/// index past the `n` objects.
pub open spec fn object_uid(idx: u32, n: nat) -> u64 {
    if (idx as nat) < n {
        (idx + 1) as u64
    } else {
        0
    }
}

/// The map from archive object index to `$objects` index.
pub open spec fn index_map(n: nat) -> Map<u32, u64> {
    Map::new(|k: u32| (k as nat) < n, |k: u32| (k + 1) as u64)
}

/// The plist value a payload stands for.
pub open spec fn payload_scalar(p: PayloadModel) -> ScalarModel {
    match p {
        PayloadModel::Int8(v) => ScalarModel::Integer(v as i64),
        PayloadModel::Int16(v) => ScalarModel::Integer(v as i64),
        PayloadModel::Int32(v) => ScalarModel::Integer(v as i64),
        PayloadModel::Int64(v) => ScalarModel::Integer(v),
        PayloadModel::True => ScalarModel::Boolean(true),
        PayloadModel::False => ScalarModel::Boolean(false),
        PayloadModel::Float(b) => ScalarModel::Float(b),
        PayloadModel::Double(b) => ScalarModel::Double(b),
        PayloadModel::Data(d) => ScalarModel::Data(d),
        PayloadModel::Nil => ScalarModel::Uid(0),
        PayloadModel::ObjectRef(i) => ScalarModel::Uid(i as u64),
    }
}

/// As `payload_scalar`, with object references resolved to `$objects` indices.
pub open spec fn linked_scalar(p: PayloadModel, n: nat) -> ScalarModel {
    match p {
        PayloadModel::ObjectRef(i) => ScalarModel::Uid(object_uid(i, n)),
        _ => payload_scalar(p),
    }
}

pub open spec fn is_rect_key(k: Seq<char>) -> bool {
    ||| k == "UIBounds"@
    ||| k == "UIFrame"@
    ||| k == "UIFrameX"@
    ||| k == "UIAutoresizeToFitContentFrame"@
}

pub open spec fn is_point_key(k: Seq<char>) -> bool {
    k == "UICenter"@ || k == "UIContentOffset"@
}

pub open spec fn is_size_key(k: Seq<char>) -> bool {
    ||| k == "UIContentSize"@
    ||| k == "UIScrollViewContentSize"@
    ||| k == "UIMinimumSize"@
    ||| k == "UIMaximumSize"@
}

/// The geometry string that a field stands for: sixteen bytes of data under
/// a rectangle key, or eight under a point or size key, read as `f32`s.
pub open spec fn geometry_of(key: Seq<char>, p: PayloadModel) -> Option<Geometry> {
    match p {
        PayloadModel::Data(d) => if d.len() == 16 && is_rect_key(key) {
            Some(
                Geometry::Rect(
                    le_u32(d, 0) as u32,
                    le_u32(d, 4) as u32,
                    le_u32(d, 8) as u32,
                    le_u32(d, 12) as u32,
                ),
            )
        } else if d.len() == 8 && (is_point_key(key) || is_size_key(key)) {
            Some(Geometry::Pair(le_u32(d, 0) as u32, le_u32(d, 4) as u32))
        } else {
            None
        },
        _ => None,
    }
}

pub open spec fn is_string_class(c: Seq<char>) -> bool {
    c == "NSString"@ || c == "NSMutableString"@
}

pub open spec fn is_data_class(c: Seq<char>) -> bool {
    c == "NSData"@ || c == "NSMutableData"@
}

pub open spec fn is_collection_class(c: Seq<char>) -> bool {
    ||| c == "NSArray"@
    ||| c == "NSMutableArray"@
    ||| c == "NSDictionary"@
    ||| c == "NSMutableDictionary"@
}

/// Keys under which a string or data object stores its bytes.
pub open spec fn is_bytes_key(k: Seq<char>) -> bool {
    k == "NS.bytes"@ || k == "UINibEncoderEmptyKey"@
}

/// The bytes of a data payload.
pub open spec fn payload_bytes(p: PayloadModel) -> Option<Seq<u8>> {
    match p {
        PayloadModel::Data(d) => Some(d),
        _ => None,
    }
}

/// The bytes of the last data value stored under a bytes key, if any.
pub open spec fn last_bytes(keys: Seq<Seq<char>>, run: Seq<ValueModel>) -> Option<Seq<u8>>
    decreases run.len(),
{
    if run.len() == 0 {
        None
    } else if is_bytes_key(keys[run.last().key_index as int]) && payload_bytes(
        run.last().payload,
    ) is Some {
        payload_bytes(run.last().payload)
    } else {
        last_bytes(keys, run.drop_last())
    }
}

/// The text of a string object.
pub open spec fn string_object_text(keys: Seq<Seq<char>>, run: Seq<ValueModel>) -> Seq<char> {
    match last_bytes(keys, run) {
        Some(d) => trim_trailing_nuls(lossy_utf8(d)),
        None => Seq::empty(),
    }
}

/// The bytes of a data object.
pub open spec fn data_object_bytes(keys: Seq<Seq<char>>, run: Seq<ValueModel>) -> Seq<u8> {
    match last_bytes(keys, run) {
        Some(d) => d,
        None => Seq::empty(),
    }
}

/// How many values of `run` are stored under key `k`.
pub open spec fn key_count(run: Seq<ValueModel>, k: u32) -> nat
    decreases run.len(),
{
    if run.len() == 0 {
        0
    } else {
        key_count(run.drop_last(), k) + if run.last().key_index == k {
            1nat
        } else {
            0nat
        }
    }
}

/// Appends `v` to the array gathered for key `k`, opening it if it is new.
pub open spec fn array_push(arrays: Seq<(u32, Seq<ScalarModel>)>, k: u32, v: ScalarModel) -> Seq<
    (u32, Seq<ScalarModel>),
> {
    let i = first_index(arrays, k);
    if i < arrays.len() {
        arrays.update(i, (k, arrays[i].1.push(v)))
    } else {
        arrays.push((k, seq![v]))
    }
}

/// An object dictionary under construction: its entries so far, the arrays
/// gathered for repeated keys, and the geometry strings appended to `$objects`.
pub struct ObjectBuild {
    pub entries: DictModel<FieldModel>,
    pub arrays: Seq<(u32, Seq<ScalarModel>)>,
    pub added: Seq<ObjectModel>,
}

/// One field of an object: `base` is where the first appended geometry
/// string lands in `$objects`.
pub open spec fn field_step(
    keys: Seq<Seq<char>>,
    n: nat,
    run: Seq<ValueModel>,
    base: int,
    st: ObjectBuild,
    v: ValueModel,
) -> ObjectBuild {
    let key = keys[v.key_index as int];
    let g = geometry_of(key, v.payload);
    let value = if g is Some {
        ScalarModel::Uid((base + st.added.len()) as u64)
    } else {
        linked_scalar(v.payload, n)
    };
    let added = if g is Some {
        st.added.push(ObjectModel::Geometry(g.unwrap()))
    } else {
        st.added
    };
    if key_count(run, v.key_index) > 1 {
        ObjectBuild { entries: st.entries, arrays: array_push(st.arrays, v.key_index, value), added }
    } else {
        ObjectBuild {
            entries: dict_insert(st.entries, key, FieldModel::Scalar(value)),
            arrays: st.arrays,
            added,
        }
    }
}

/// The build after the first `j` fields of `run`.
pub open spec fn fields_after(
    keys: Seq<Seq<char>>,
    n: nat,
    run: Seq<ValueModel>,
    base: int,
    init: ObjectBuild,
    j: nat,
) -> ObjectBuild
    decreases j,
{
    if j == 0 {
        init
    } else {
        field_step(
            keys,
            n,
            run,
            base,
            fields_after(keys, n, run, base, init, (j - 1) as nat),
            run[j - 1],
        )
    }
}

/// The dictionary key an array is stored under: element arrays of
/// collections go under `NS.objects`.
pub open spec fn array_key(name: Seq<char>, collection: bool) -> Seq<char> {
    if collection && name == "UINibEncoderEmptyKey"@ {
        "NS.objects"@
    } else {
        name
    }
}

/// `entries` with the first `j` gathered arrays inserted.
pub open spec fn flush_arrays(
    keys: Seq<Seq<char>>,
    collection: bool,
    entries: DictModel<FieldModel>,
    arrays: Seq<(u32, Seq<ScalarModel>)>,
    j: nat,
) -> DictModel<FieldModel>
    decreases j,
{
    if j == 0 {
        entries
    } else {
        dict_insert(
            flush_arrays(keys, collection, entries, arrays, (j - 1) as nat),
            array_key(keys[arrays[j - 1].0 as int], collection),
            FieldModel::Array(arrays[j - 1].1),
        )
    }
}

/// The class description of class `cn`.
pub open spec fn class_object(cn: Seq<char>) -> ObjectModel {
    ObjectModel::Dictionary(
        seq![
            ("$classname"@, FieldModel::Scalar(ScalarModel::String(cn))),
            (
                "$classes"@,
                FieldModel::Array(seq![ScalarModel::String(cn), ScalarModel::String("NSObject"@)]),
            ),
        ],
    )
}

/// The values of object `o`.
pub open spec fn object_run(values: Seq<ValueModel>, o: NibObject) -> Seq<ValueModel> {
    values.subrange(o.values_index as int, o.values_index + o.values_count)
}

/// The entries that object `o` starts with: `$class` refers to `$objects[len]`.
pub open spec fn initial_build(len: int) -> ObjectBuild {
    ObjectBuild {
        entries: seq![("$class"@, FieldModel::Scalar(ScalarModel::Uid(len as u64)))],
        arrays: Seq::empty(),
        added: Seq::empty(),
    }
}

/// Archive object `i`, converted when `$objects` holds `len` entries: the
/// value for its slot, and what it appends to `$objects`.
pub open spec fn convert_object(
    keys: Seq<Seq<char>>,
    classes: Seq<Seq<char>>,
    objects: Seq<NibObject>,
    values: Seq<ValueModel>,
    i: int,
    len: int,
) -> (ObjectModel, Seq<ObjectModel>) {
    let o = objects[i];
    let cn = classes[o.class_index as int];
    let run = object_run(values, o);
    if is_string_class(cn) {
        (ObjectModel::String(string_object_text(keys, run)), Seq::empty())
    } else if is_data_class(cn) {
        (ObjectModel::Data(data_object_bytes(keys, run)), Seq::empty())
    } else {
        let st = fields_after(keys, objects.len(), run, len + 1, initial_build(len), run.len());
        let entries = flush_arrays(
            keys,
            is_collection_class(cn),
            st.entries,
            st.arrays,
            st.arrays.len(),
        );
        (ObjectModel::Dictionary(entries), seq![class_object(cn)] + st.added)
    }
}

/// `$objects` after the first `k` archive objects are converted.
pub open spec fn objects_after(
    keys: Seq<Seq<char>>,
    classes: Seq<Seq<char>>,
    objects: Seq<NibObject>,
    values: Seq<ValueModel>,
    k: nat,
) -> Seq<ObjectModel>
    decreases k,
{
    if k == 0 {
        seq![ObjectModel::String("$null"@)] + Seq::new(
            objects.len(),
            |i: int| ObjectModel::Dictionary(Seq::empty()),
        )
    } else {
        let prev = objects_after(keys, classes, objects, values, (k - 1) as nat);
        let (o, added) = convert_object(keys, classes, objects, values, k - 1, prev.len() as int);
        prev.update(k as int, o) + added
    }
}

/// `$top` after the first `j` fields of the root object.
pub open spec fn top_after(keys: Seq<Seq<char>>, n: nat, run: Seq<ValueModel>, j: nat) -> DictModel<
    ScalarModel,
>
    decreases j,
{
    if j == 0 {
        Seq::empty()
    } else {
        dict_insert(
            top_after(keys, n, run, (j - 1) as nat),
            keys[run[j - 1].key_index as int],
            linked_scalar(run[j - 1].payload, n),
        )
    }
}

/// The archive made from the tables.
pub open spec fn archive_of(
    keys: Seq<Seq<char>>,
    classes: Seq<Seq<char>>,
    objects: Seq<NibObject>,
    values: Seq<ValueModel>,
) -> ArchiveModel {
    let root = object_run(values, objects[0]);
    ArchiveModel {
        archiver: "NSKeyedArchiver"@,
        version: 100000,
        top: top_after(keys, objects.len(), root, root.len()),
        objects: objects_after(keys, classes, objects, values, objects.len()),
    }
}

/// Every value of `values[start..end]` is stored under a key below `n_keys`.
pub open spec fn run_keys_in_range(values: Seq<ValueModel>, start: int, end: int, n_keys: nat) -> bool {
    forall|j: int| start <= j < end ==> (#[trigger] values[j].key_index as nat) < n_keys
}

/// Every gathered array is for a key below `n_keys`.
pub open spec fn array_keys_in_range(a: Seq<(u32, Seq<ScalarModel>)>, n_keys: nat) -> bool {
    forall|i: int| 0 <= i < a.len() ==> (#[trigger] a[i].0 as nat) < n_keys
}

/// The views of gathered arrays.
pub open spec fn array_models(a: Seq<(u32, Vec<Scalar>)>) -> Seq<(u32, Seq<ScalarModel>)> {
    a.map_values(|x: (u32, Vec<Scalar>)| (x.0, scalar_models(x.1@)))
}

/// `counts` holds, for each key of `run`, how often it occurs there.
pub open spec fn counts_of(counts: Map<u32, usize>, run: Seq<ValueModel>) -> bool {
    &&& forall|k: u32| #[trigger] counts.contains_key(k) == (key_count(run, k) > 0)
    &&& forall|k: u32| counts.contains_key(k) ==> #[trigger] counts[k] == key_count(run, k)
}

/// Object `o` names a class, keys and values that exist.
pub open spec fn object_in_range(
    o: NibObject,
    n_keys: nat,
    n_classes: nat,
    values: Seq<ValueModel>,
) -> bool {
    &&& (o.class_index as nat) < n_classes
    &&& o.values_index + o.values_count <= values.len()
    &&& run_keys_in_range(
        values,
        o.values_index as int,
        o.values_index + o.values_count,
        n_keys,
    )
}

/// There is a root object, at most `u32::MAX` objects, and every object
/// refers only to classes, values and keys that exist.
pub open spec fn references_in_range(
    n_keys: nat,
    n_classes: nat,
    objects: Seq<NibObject>,
    values: Seq<ValueModel>,
) -> bool {
    &&& 0 < objects.len() <= u32::MAX
    &&& forall|i: int|
        0 <= i < objects.len() ==> #[trigger] object_in_range(
            objects[i],
            n_keys,
            n_classes,
            values,
        )
}

// ---------------------------------------------------------------------
// Lemmas.

proof fn lemma_key_count_bound(run: Seq<ValueModel>, k: u32)
    ensures
        key_count(run, k) <= run.len(),
    decreases run.len(),
{
    if run.len() > 0 {
        lemma_key_count_bound(run.drop_last(), k);
    }
}

pub(crate) proof fn lemma_objects_after_len(
    keys: Seq<Seq<char>>,
    classes: Seq<Seq<char>>,
    objects: Seq<NibObject>,
    values: Seq<ValueModel>,
    k: nat,
)
    requires
        k <= objects.len(),
    ensures
        objects_after(keys, classes, objects, values, k).len() >= objects.len() + 1,
        objects_after(keys, classes, objects, values, k)[0] == ObjectModel::String("$null"@),
    decreases k,
{
    if k > 0 {
        lemma_objects_after_len(keys, classes, objects, values, (k - 1) as nat);
        let prev = objects_after(keys, classes, objects, values, (k - 1) as nat);
        let r = convert_object(keys, classes, objects, values, k - 1, prev.len() as int);
        let upd = prev.update(k as int, r.0);
        assert(upd.len() == prev.len());
        assert((upd + r.1)[0] == upd[0]);
    } else {
        let init = seq![ObjectModel::String("$null"@)] + Seq::new(
            objects.len(),
            |i: int| ObjectModel::Dictionary(Seq::empty()),
        );
        assert(init[0] == ObjectModel::String("$null"@));
    }
}

proof fn lemma_array_push_keys(a: Seq<(u32, Seq<ScalarModel>)>, k: u32, v: ScalarModel, n_keys: nat)
    requires
        array_keys_in_range(a, n_keys),
        (k as nat) < n_keys,
    ensures
        array_keys_in_range(array_push(a, k, v), n_keys),
{
    lemma_first_index(a, k);
}

// ---------------------------------------------------------------------
// Pieces of the conversion.

/// The plist value a payload stands for (object references unresolved).
pub fn payload_to_scalar(payload: &NibPayload) -> (s: Scalar)
    ensures
        s@ == payload_scalar(payload@),
{
    match payload {
        NibPayload::Int8(v) => Scalar::Integer(*v as i64),
        NibPayload::Int16(v) => Scalar::Integer(*v as i64),
        NibPayload::Int32(v) => Scalar::Integer(*v as i64),
        NibPayload::Int64(v) => Scalar::Integer(*v),
        NibPayload::True => Scalar::Boolean(true),
        NibPayload::False => Scalar::Boolean(false),
        NibPayload::Float(b) => Scalar::Float(*b),
        NibPayload::Double(b) => Scalar::Double(*b),
        NibPayload::Data(d) => Scalar::Data(vstd::slice::slice_to_vec(d.as_slice())),
        NibPayload::Nil => Scalar::Uid(0),
        NibPayload::ObjectRef(i) => Scalar::Uid(*i as u64),
    }
}

/// The plist value a payload stands for, with object references looked up
/// in `index_map`.
fn link_payload(payload: &NibPayload, obj_index_map: &HashMap<u32, u64>, Ghost(n): Ghost<nat>) -> (s: Scalar)
    requires
        obj_index_map@ == index_map(n),
    ensures
        s@ == linked_scalar(payload@, n),
{
    match payload {
        NibPayload::ObjectRef(idx) => match obj_index_map.get(idx) {
            Some(mapped) => Scalar::Uid(*mapped),
            None => Scalar::Uid(0),
        },
        other => payload_to_scalar(other),
    }
}

/// The geometry string a field stands for, if any (see `geometry_of`).
pub fn geometry_for(key: &String, payload: &NibPayload) -> (g: Option<Geometry>)
    ensures
        g == geometry_of(key@, payload@),
{
    match payload {
        NibPayload::Data(d) => {
            let bytes = d.as_slice();
            if d.len() == 16 && (str_is(key, "UIBounds") || str_is(key, "UIFrame") || str_is(
                key,
                "UIFrameX",
            ) || str_is(key, "UIAutoresizeToFitContentFrame")) {
                Some(
                    Geometry::Rect(
                        read_u32_le(bytes, 0),
                        read_u32_le(bytes, 4),
                        read_u32_le(bytes, 8),
                        read_u32_le(bytes, 12),
                    ),
                )
            } else if d.len() == 8 && (str_is(key, "UICenter") || str_is(key, "UIContentOffset")) {
                Some(Geometry::Pair(read_u32_le(bytes, 0), read_u32_le(bytes, 4)))
            } else if d.len() == 8 && (str_is(key, "UIContentSize") || str_is(
                key,
                "UIScrollViewContentSize",
            ) || str_is(key, "UIMinimumSize") || str_is(key, "UIMaximumSize")) {
                Some(Geometry::Pair(read_u32_le(bytes, 0), read_u32_le(bytes, 4)))
            } else {
                None
            }
        },
        _ => None,
    }
}

/// How often each key occurs among `values[start..end]`.
fn count_keys(values: &Vec<NibValue>, start: usize, end: usize) -> (counts: HashMap<u32, usize>)
    requires
        start <= end <= values@.len(),
    ensures
        counts_of(counts@, value_models(values@).subrange(start as int, end as int)),
{
    let ghost all = value_models(values@);
    let mut counts: HashMap<u32, usize> = HashMap::new();
    let mut j = start;
    while j < end
        invariant
            start <= j <= end <= values@.len(),
            all == value_models(values@),
            counts_of(counts@, all.subrange(start as int, j as int)),
        decreases end - j,
    {
        let k = values[j].key_index;
        let c = match counts.get(&k) {
            Some(c) => *c,
            None => 0,
        };
        let ghost prefix = all.subrange(start as int, j as int);
        let ghost next = all.subrange(start as int, j + 1);
        proof {
            lemma_key_count_bound(prefix, k);
            assert(next.drop_last() =~= prefix);
            assert(next.last() == values@[j as int]@);
        }
        counts.insert(k, c + 1);
        j = j + 1;
        proof {
            assert forall|k2: u32| #[trigger] counts@.contains_key(k2) == (key_count(next, k2) > 0) by {
                assert(key_count(next, k2) == key_count(prefix, k2) + if k == k2 {
                    1nat
                } else {
                    0nat
                });
            }
            assert forall|k2: u32| counts@.contains_key(k2) implies #[trigger] counts@[k2]
                == key_count(next, k2) by {
                assert(key_count(next, k2) == key_count(prefix, k2) + if k == k2 {
                    1nat
                } else {
                    0nat
                });
            }
        }
    }
    counts
}

/// Appends `v` to the array gathered for key `k` (see `array_push`).
fn push_to_array(arrays: &mut Vec<(u32, Vec<Scalar>)>, k: u32, v: Scalar)
    ensures
        array_models(final(arrays)@) == array_push(array_models(old(arrays)@), k, v@),
{
    let ghost a = array_models(arrays@);
    let n = arrays.len();
    let mut i: usize = 0;
    while i < n
        invariant
            n == arrays@.len(),
            a == array_models(arrays@),
            a == array_models(old(arrays)@),
            i <= n,
            forall|j: int| 0 <= j < i ==> a[j].0 != k,
        decreases n - i,
    {
        if arrays[i].0 == k {
            proof {
                lemma_first_index_at(a, k, i as int);
            }
            let ghost before = arrays@;
            let (key, mut list) = arrays.remove(i);
            let ghost old_list = list@;
            assert(a[i as int] == (key, scalar_models(old_list)));
            list.push(v);
            assert(scalar_models(list@) =~= scalar_models(old_list).push(v@));
            arrays.insert(i, (key, list));
            assert(arrays@ =~= before.update(i as int, (key, list)));
            assert(array_models(arrays@) =~= array_push(a, k, v@));
            return;
        }
        i = i + 1;
    }
    proof {
        lemma_first_index_at(a, k, n as int);
    }
    let mut list: Vec<Scalar> = Vec::new();
    list.push(v);
    assert(scalar_models(list@) =~= seq![v@]);
    arrays.push((k, list));
    assert(array_models(arrays@) =~= array_push(a, k, v@));
}

/// The text of a string object whose fields are `values[start..end]`.
fn string_object_value(keys: &Vec<String>, values: &Vec<NibValue>, start: usize, end: usize) -> (s:
    String)
    requires
        start <= end <= values@.len(),
        run_keys_in_range(value_models(values@), start as int, end as int, keys@.len()),
    ensures
        s@ == string_object_text(
            string_models(keys@),
            value_models(values@).subrange(start as int, end as int),
        ),
{
    let ghost all = value_models(values@);
    let ghost names = string_models(keys@);
    let mut string_val = String::new();
    let mut j = start;
    while j < end
        invariant
            start <= j <= end <= values@.len(),
            all == value_models(values@),
            names == string_models(keys@),
            run_keys_in_range(all, start as int, end as int, keys@.len()),
            string_val@ == string_object_text(names, all.subrange(start as int, j as int)),
        decreases end - j,
    {
        let val = &values[j];
        assert(all[j as int] == val@);
        assert((all[j as int].key_index as nat) < keys@.len());
        let key_name = &keys[val.key_index as usize];
        assert(names[val.key_index as int] == key_name@);
        if str_is(key_name, "NS.bytes") || str_is(key_name, "UINibEncoderEmptyKey") {
            match &val.payload {
                NibPayload::Data(d) => {
                    string_val = trim_nuls(&utf8_lossy(d.as_slice()));
                },
                _ => {},
            }
        }
        proof {
            let next = all.subrange(start as int, j + 1);
            assert(next.drop_last() =~= all.subrange(start as int, j as int));
        }
        j = j + 1;
    }
    string_val
}

/// The bytes of a data object whose fields are `values[start..end]`.
fn data_object_value(keys: &Vec<String>, values: &Vec<NibValue>, start: usize, end: usize) -> (d:
    Vec<u8>)
    requires
        start <= end <= values@.len(),
        run_keys_in_range(value_models(values@), start as int, end as int, keys@.len()),
    ensures
        d@ == data_object_bytes(
            string_models(keys@),
            value_models(values@).subrange(start as int, end as int),
        ),
{
    let ghost all = value_models(values@);
    let ghost names = string_models(keys@);
    let mut data_val: Vec<u8> = Vec::new();
    let mut j = start;
    while j < end
        invariant
            start <= j <= end <= values@.len(),
            all == value_models(values@),
            names == string_models(keys@),
            run_keys_in_range(all, start as int, end as int, keys@.len()),
            data_val@ == data_object_bytes(names, all.subrange(start as int, j as int)),
        decreases end - j,
    {
        let val = &values[j];
        assert(all[j as int] == val@);
        assert((all[j as int].key_index as nat) < keys@.len());
        let key_name = &keys[val.key_index as usize];
        assert(names[val.key_index as int] == key_name@);
        if str_is(key_name, "NS.bytes") || str_is(key_name, "UINibEncoderEmptyKey") {
            match &val.payload {
                NibPayload::Data(d) => {
                    data_val = vstd::slice::slice_to_vec(d.as_slice());
                },
                _ => {},
            }
        }
        proof {
            let next = all.subrange(start as int, j + 1);
            assert(next.drop_last() =~= all.subrange(start as int, j as int));
        }
        j = j + 1;
    }
    data_val
}

/// Converts the fields `values[start..end]` of an object into `obj_dict`,
/// gathering repeated keys into `arrays` and appending geometry strings to
/// `plist_objects` (see `fields_after`).
fn fill_fields(
    keys: &Vec<String>,
    values: &Vec<NibValue>,
    obj_index_map: &HashMap<u32, u64>,
    Ghost(n): Ghost<nat>,
    counts: &HashMap<u32, usize>,
    start: usize,
    end: usize,
    obj_dict: &mut Dict<Field>,
    arrays: &mut Vec<(u32, Vec<Scalar>)>,
    plist_objects: &mut Vec<ArchivedObject>,
)
    requires
        start <= end <= values@.len(),
        run_keys_in_range(value_models(values@), start as int, end as int, keys@.len()),
        obj_index_map@ == index_map(n),
        counts_of(counts@, value_models(values@).subrange(start as int, end as int)),
        array_keys_in_range(array_models(old(arrays)@), keys@.len()),
    ensures
        ({
            let run = value_models(values@).subrange(start as int, end as int);
            let init = ObjectBuild {
                entries: old(obj_dict)@,
                arrays: array_models(old(arrays)@),
                added: Seq::empty(),
            };
            let st = fields_after(
                string_models(keys@),
                n,
                run,
                old(plist_objects)@.len() as int,
                init,
                run.len(),
            );
            &&& final(obj_dict)@ == st.entries
            &&& array_models(final(arrays)@) == st.arrays
            &&& object_models(final(plist_objects)@) == object_models(old(plist_objects)@) + st.added
        }),
        array_keys_in_range(array_models(final(arrays)@), keys@.len()),
{
    let ghost all = value_models(values@);
    let ghost names = string_models(keys@);
    let ghost run = all.subrange(start as int, end as int);
    let ghost base = plist_objects@.len() as int;
    let ghost prefix = object_models(plist_objects@);
    let ghost init = ObjectBuild {
        entries: obj_dict@,
        arrays: array_models(arrays@),
        added: Seq::empty(),
    };
    assert(prefix + init.added =~= prefix);
    let mut j = start;
    while j < end
        invariant
            start <= j <= end <= values@.len(),
            all == value_models(values@),
            names == string_models(keys@),
            run == all.subrange(start as int, end as int),
            run_keys_in_range(all, start as int, end as int, keys@.len()),
            obj_index_map@ == index_map(n),
            counts_of(counts@, run),
            array_keys_in_range(array_models(arrays@), keys@.len()),
            ({
                let st = fields_after(names, n, run, base, init, (j - start) as nat);
                &&& obj_dict@ == st.entries
                &&& array_models(arrays@) == st.arrays
                &&& object_models(plist_objects@) == prefix + st.added
                &&& plist_objects@.len() == base + st.added.len()
            }),
        decreases end - j,
    {
        let ghost st = fields_after(names, n, run, base, init, (j - start) as nat);
        let val = &values[j];
        assert(all[j as int] == val@);
        assert(run[j - start] == val@);
        assert((all[j as int].key_index as nat) < keys@.len());
        let key_name = &keys[val.key_index as usize];
        assert(names[val.key_index as int] == key_name@);
        let g = geometry_for(key_name, &val.payload);
        let plist_val = match g {
            Some(geo) => {
                let idx = plist_objects.len() as u64;
                let ghost before = plist_objects@;
                plist_objects.push(ArchivedObject::Geometry(geo));
                assert(object_models(plist_objects@) =~= object_models(before).push(
                    ObjectModel::Geometry(geo),
                ));
                Scalar::Uid(idx)
            },
            None => link_payload(&val.payload, obj_index_map, Ghost(n)),
        };
        let count = match counts.get(&val.key_index) {
            Some(c) => *c,
            None => 0,
        };
        assert(count == key_count(run, val.key_index));
        if count > 1 {
            proof {
                lemma_array_push_keys(array_models(arrays@), val.key_index, plist_val@, keys@.len());
            }
            push_to_array(arrays, val.key_index, plist_val);
        } else {
            obj_dict.insert(key_name.clone(), Field::Scalar(plist_val));
        }
        j = j + 1;
        proof {
            let st2 = fields_after(names, n, run, base, init, (j - start) as nat);
            assert(st2 == field_step(names, n, run, base, st, val@));
            assert(object_models(plist_objects@) =~= prefix + st2.added);
        }
    }
    assert(run.len() == end - start);
}

/// Inserts the gathered arrays into `obj_dict`, in the order they were
/// opened (see `flush_arrays`).
fn flush_into(
    keys: &Vec<String>,
    collection: bool,
    arrays: Vec<(u32, Vec<Scalar>)>,
    obj_dict: &mut Dict<Field>,
)
    requires
        array_keys_in_range(array_models(arrays@), keys@.len()),
    ensures
        final(obj_dict)@ == flush_arrays(
            string_models(keys@),
            collection,
            old(obj_dict)@,
            array_models(arrays@),
            arrays@.len(),
        ),
{
    let ghost names = string_models(keys@);
    let ghost arrs = array_models(arrays@);
    let ghost e0 = obj_dict@;
    let total = arrays.len();
    let mut rest = arrays;
    let mut j: usize = 0;
    while j < total
        invariant
            j <= total,
            arrs.len() == total,
            names == string_models(keys@),
            array_keys_in_range(arrs, keys@.len()),
            array_models(rest@) == arrs.subrange(j as int, total as int),
            rest@.len() == total - j,
            obj_dict@ == flush_arrays(names, collection, e0, arrs, j as nat),
        decreases total - j,
    {
        let ghost before = rest@;
        assert(array_models(before)[0] == arrs.subrange(j as int, total as int)[0]);
        let (k, arr) = rest.remove(0);
        assert(before[0] == (k, arr));
        assert(arrs[j as int] == (k, scalar_models(arr@)));
        assert((arrs[j as int].0 as nat) < keys@.len());
        let name = &keys[k as usize];
        assert(names[k as int] == name@);
        if collection && str_is(name, "UINibEncoderEmptyKey") {
            obj_dict.insert("NS.objects".to_owned(), Field::Array(arr));
        } else {
            obj_dict.insert(name.clone(), Field::Array(arr));
        }
        proof {
            assert(rest@ =~= before.subrange(1, before.len() as int));
            assert forall|i: int| 0 <= i < rest@.len() implies array_models(rest@)[i]
                == arrs.subrange(j + 1, total as int)[i] by {
                assert(array_models(before)[i + 1] == arrs.subrange(j as int, total as int)[i + 1]);
            }
            assert(array_models(rest@) =~= arrs.subrange(j + 1, total as int));
        }
        j = j + 1;
    }
}

/// The `$top` dictionary: the fields of the root object, with object
/// references resolved.
fn build_top(
    keys: &Vec<String>,
    values: &Vec<NibValue>,
    obj_index_map: &HashMap<u32, u64>,
    Ghost(n): Ghost<nat>,
    start: usize,
    end: usize,
) -> (top: Dict<Scalar>)
    requires
        start <= end <= values@.len(),
        run_keys_in_range(value_models(values@), start as int, end as int, keys@.len()),
        obj_index_map@ == index_map(n),
    ensures
        top@ == top_after(
            string_models(keys@),
            n,
            value_models(values@).subrange(start as int, end as int),
            (end - start) as nat,
        ),
{
    let ghost all = value_models(values@);
    let ghost names = string_models(keys@);
    let ghost run = all.subrange(start as int, end as int);
    let mut top: Dict<Scalar> = Dict::new();
    let mut j = start;
    while j < end
        invariant
            start <= j <= end <= values@.len(),
            all == value_models(values@),
            names == string_models(keys@),
            run == all.subrange(start as int, end as int),
            run_keys_in_range(all, start as int, end as int, keys@.len()),
            obj_index_map@ == index_map(n),
            top@ == top_after(names, n, run, (j - start) as nat),
        decreases end - j,
    {
        let val = &values[j];
        assert(all[j as int] == val@);
        assert(run[j - start] == val@);
        assert((all[j as int].key_index as nat) < keys@.len());
        let key_name = &keys[val.key_index as usize];
        assert(names[val.key_index as int] == key_name@);
        let plist_val = link_payload(&val.payload, obj_index_map, Ghost(n));
        top.insert(key_name.clone(), plist_val);
        j = j + 1;
    }
    top
}

/// Converts archive object `i` into `$objects[i + 1]`, appending its class
/// description and geometry strings (see `convert_object`).
fn convert_object_into(
    keys: &Vec<String>,
    class_names: &Vec<String>,
    objects: &Vec<NibObject>,
    values: &Vec<NibValue>,
    obj_index_map: &HashMap<u32, u64>,
    i: usize,
    plist_idx: usize,
    plist_objects: &mut Vec<ArchivedObject>,
)
    requires
        references_in_range(keys@.len(), class_names@.len(), objects@, value_models(values@)),
        obj_index_map@ == index_map(objects@.len() as nat),
        i < objects@.len(),
        plist_idx == i + 1,
        plist_idx < old(plist_objects)@.len(),
    ensures
        ({
            let prev = object_models(old(plist_objects)@);
            let r = convert_object(
                string_models(keys@),
                string_models(class_names@),
                objects@,
                value_models(values@),
                i as int,
                prev.len() as int,
            );
            object_models(final(plist_objects)@) == prev.update(plist_idx as int, r.0) + r.1
        }),
{
    let ghost names = string_models(keys@);
    let ghost classes = string_models(class_names@);
    let ghost all = value_models(values@);
    let ghost prev = object_models(plist_objects@);
    let ghost n = objects@.len() as nat;
    let n_values = values.len();
    let obj = objects[i];
    assert(object_in_range(objects@[i as int], keys@.len(), class_names@.len(), all));
    assert(obj.values_index + obj.values_count <= n_values);
    let class_name = &class_names[obj.class_index as usize];
    assert(classes[obj.class_index as int] == class_name@);
    let val_start = obj.values_index as usize;
    let val_end = val_start + obj.values_count as usize;
    let ghost run = all.subrange(val_start as int, val_end as int);
    assert(run == object_run(all, objects@[i as int]));
    let ghost r = convert_object(names, classes, objects@, all, i as int, prev.len() as int);
    if str_is(class_name, "NSString") || str_is(class_name, "NSMutableString") {
        let s = string_object_value(keys, values, val_start, val_end);
        plist_objects[plist_idx] = ArchivedObject::String(s);
        assert(object_models(plist_objects@) =~= prev.update(plist_idx as int, r.0) + r.1);
        return;
    }
    if str_is(class_name, "NSData") || str_is(class_name, "NSMutableData") {
        let d = data_object_value(keys, values, val_start, val_end);
        plist_objects[plist_idx] = ArchivedObject::Data(d);
        assert(object_models(plist_objects@) =~= prev.update(plist_idx as int, r.0) + r.1);
        return;
    }
    // The class description goes at the end of `$objects`.

    let class_plist_idx = plist_objects.len() as u64;
    let mut class_dict: Dict<Field> = Dict::new();
    class_dict.insert("$classname".to_owned(), Field::Scalar(Scalar::String(class_name.clone())));
    let mut classes_list: Vec<Scalar> = Vec::new();
    classes_list.push(Scalar::String(class_name.clone()));
    classes_list.push(Scalar::String("NSObject".to_owned()));
    class_dict.insert("$classes".to_owned(), Field::Array(classes_list));
    proof {
        reveal_strlit("$classname");
        reveal_strlit("$classes");
        let e1 = seq![("$classname"@, FieldModel::Scalar(ScalarModel::String(class_name@)))];
        assert("$classname"@.len() != "$classes"@.len());
        assert(first_index(Seq::<(Seq<char>, FieldModel)>::empty(), "$classname"@) == 0);
        lemma_first_index_at(e1, "$classes"@, 1);
        assert(scalar_models(classes_list@) =~= seq![
            ScalarModel::String(class_name@),
            ScalarModel::String("NSObject"@),
        ]);
        assert(class_dict@ =~= match class_object(class_name@) {
            ObjectModel::Dictionary(e) => e,
            _ => Seq::empty(),
        });
    }
    plist_objects.push(ArchivedObject::Dictionary(class_dict));
    let mut obj_dict: Dict<Field> = Dict::new();
    obj_dict.insert("$class".to_owned(), Field::Scalar(Scalar::Uid(class_plist_idx)));
    assert(obj_dict@ =~= initial_build(prev.len() as int).entries);
    // Keys that occur more than once are gathered into arrays.
    let key_counts = count_keys(values, val_start, val_end);
    let mut arrays: Vec<(u32, Vec<Scalar>)> = Vec::new();
    assert(array_models(arrays@) =~= Seq::<(u32, Seq<ScalarModel>)>::empty());
    let ghost with_class = object_models(plist_objects@);
    assert(with_class =~= prev.push(class_object(classes[obj.class_index as int])));
    fill_fields(
        keys,
        values,
        obj_index_map,
        Ghost(n),
        &key_counts,
        val_start,
        val_end,
        &mut obj_dict,
        &mut arrays,
        plist_objects,
    );
    let ghost st = fields_after(
        names,
        n,
        run,
        prev.len() as int + 1,
        initial_build(prev.len() as int),
        run.len(),
    );
    assert(obj_dict@ == st.entries);
    assert(array_models(arrays@) == st.arrays);
    assert(object_models(plist_objects@) == with_class + st.added);
    let is_array = str_is(class_name, "NSArray") || str_is(class_name, "NSMutableArray");
    let is_dict = str_is(class_name, "NSDictionary") || str_is(class_name, "NSMutableDictionary");
    flush_into(keys, is_array || is_dict, arrays, &mut obj_dict);
    assert(plist_objects@.len() == object_models(plist_objects@).len());
    let ghost filled = object_models(plist_objects@);
    plist_objects[plist_idx] = ArchivedObject::Dictionary(obj_dict);
    proof {
        assert(r.1 == seq![class_object(class_name@)] + st.added);
        assert(object_models(plist_objects@) =~= filled.update(plist_idx as int, r.0));
        assert(object_models(plist_objects@) =~= prev.update(plist_idx as int, r.0) + r.1);
    }
}

/// Builds the NSKeyedArchiver archive that the tables of a NIBArchive stand for.
pub fn keyed_archive_from_tables(
    keys: &Vec<String>,
    class_names: &Vec<String>,
    objects: &Vec<NibObject>,
    values: &Vec<NibValue>,
) -> (archive: KeyedArchive)
    requires
        references_in_range(keys@.len(), class_names@.len(), objects@, value_models(values@)),
    ensures
        archive@ == archive_of(
            string_models(keys@),
            string_models(class_names@),
            objects@,
            value_models(values@),
        ),
{
    let ghost names = string_models(keys@);
    let ghost classes = string_models(class_names@);
    let ghost all = value_models(values@);
    let n = objects.len();
    // `$objects[0]` is always `$null`.
    let mut plist_objects: Vec<ArchivedObject> = Vec::new();
    plist_objects.push(ArchivedObject::String("$null".to_owned()));
    let mut obj_index_map: HashMap<u32, u64> = HashMap::new();
    // First pass: each object gets the next slot of `$objects`.
    let mut i: usize = 0;
    while i < n
        invariant
            i <= n,
            n == objects@.len(),
            n <= u32::MAX,
            obj_index_map@ == index_map(i as nat),
            plist_objects@.len() == i + 1,
            object_models(plist_objects@) == seq![ObjectModel::String("$null"@)] + Seq::new(
                i as nat,
                |j: int| ObjectModel::Dictionary(Seq::empty()),
            ),
        decreases n - i,
    {
        let plist_idx = plist_objects.len() as u64;
        obj_index_map.insert(i as u32, plist_idx);
        let placeholder: Dict<Field> = Dict::new();
        let ghost before = plist_objects@;
        plist_objects.push(ArchivedObject::Dictionary(placeholder));
        assert(object_models(plist_objects@) =~= object_models(before).push(
            ObjectModel::Dictionary(Seq::empty()),
        ));
        i = i + 1;
        proof {
            assert(obj_index_map@ =~= index_map(i as nat));
            assert(object_models(plist_objects@) =~= seq![ObjectModel::String("$null"@)]
                + Seq::new(i as nat, |j: int| ObjectModel::Dictionary(Seq::empty())));
        }
    }
    // Second pass: fill in each slot.
    let mut i: usize = 0;
    while i < n
        invariant
            i <= n,
            n == objects@.len(),
            names == string_models(keys@),
            classes == string_models(class_names@),
            all == value_models(values@),
            references_in_range(keys@.len(), class_names@.len(), objects@, all),
            obj_index_map@ == index_map(n as nat),
            object_models(plist_objects@) == objects_after(names, classes, objects@, all, i as nat),
        decreases n - i,
    {
        proof {
            lemma_objects_after_len(names, classes, objects@, all, i as nat);
        }
        let plist_idx = *obj_index_map.get(&(i as u32)).unwrap() as usize;
        convert_object_into(
            keys,
            class_names,
            objects,
            values,
            &obj_index_map,
            i,
            plist_idx,
            &mut plist_objects,
        );
        i = i + 1;
    }
    // `$top` holds the fields of the root object.
    let n_values = values.len();
    let root = objects[0];
    assert(object_in_range(objects@[0], keys@.len(), class_names@.len(), all));
    assert(root.values_index + root.values_count <= n_values);
    let root_start = root.values_index as usize;
    let root_end = root_start + root.values_count as usize;
    let top = build_top(keys, values, &obj_index_map, Ghost(n as nat), root_start, root_end);
    KeyedArchive {
        archiver: "NSKeyedArchiver".to_owned(),
        version: 100000,
        top,
        objects: plist_objects,
    }
}

} // verus!
