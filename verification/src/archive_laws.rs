//! Properties of the archive that the conversion builds.

use vstd::prelude::*;
use crate::keyed_archive::{
    array_key, class_object, convert_object, field_step, fields_after, flush_arrays,
    geometry_of, initial_build, is_data_class, is_string_class, lemma_objects_after_len,
    linked_scalar, object_run, objects_after, top_after, array_push, archive_of, key_count,
    ObjectBuild,
};
use crate::nib_format::{NibObject, PayloadModel, ValueModel};
use crate::plist_model::{
    dict_get, dict_insert, lemma_dict_insert_get, lemma_dict_insert_shape, lemma_first_index,
    lemma_first_index_at, DictModel, FieldModel, Geometry,
    ObjectModel, ScalarModel,
};

verus! {

/// Once archive objects up to `m` are converted, an entry of `$objects` is
/// only touched again when its own archive object is converted.
proof fn lemma_objects_after_keeps(
    keys: Seq<Seq<char>>,
    classes: Seq<Seq<char>>,
    objects: Seq<NibObject>,
    values: Seq<ValueModel>,
    m: nat,
    k: nat,
    x: int,
)
    requires
        m <= k <= objects.len(),
        0 <= x < objects_after(keys, classes, objects, values, m).len(),
        !(m < x <= k),
    ensures
        x < objects_after(keys, classes, objects, values, k).len(),
        objects_after(keys, classes, objects, values, k)[x] == objects_after(
            keys,
            classes,
            objects,
            values,
            m,
        )[x],
    decreases k,
{
    if k > m {
        lemma_objects_after_keeps(keys, classes, objects, values, m, (k - 1) as nat, x);
        lemma_objects_after_len(keys, classes, objects, values, (k - 1) as nat);
        let prev = objects_after(keys, classes, objects, values, (k - 1) as nat);
        let r = convert_object(keys, classes, objects, values, k - 1, prev.len() as int);
        let upd = prev.update(k as int, r.0);
        assert(upd[x] == prev[x]);
        assert((upd + r.1)[x] == upd[x]);
    }
}

/// `$objects[0]` is `$null`, and archive object `i` lands in
/// `$objects[i + 1]`: it is what converting that object gives, and no later
/// object overwrites it.
pub proof fn law_object_slots(
    keys: Seq<Seq<char>>,
    classes: Seq<Seq<char>>,
    objects: Seq<NibObject>,
    values: Seq<ValueModel>,
    i: int,
)
    requires
        0 <= i < objects.len(),
    ensures
        ({
            let all = objects_after(keys, classes, objects, values, objects.len());
            let before = objects_after(keys, classes, objects, values, i as nat);
            &&& all.len() >= objects.len() + 1
            &&& all[0] == ObjectModel::String("$null"@)
            &&& all[i + 1] == convert_object(
                keys,
                classes,
                objects,
                values,
                i,
                before.len() as int,
            ).0
        }),
{
    let n = objects.len();
    lemma_objects_after_len(keys, classes, objects, values, 0);
    lemma_objects_after_len(keys, classes, objects, values, i as nat);
    let init = objects_after(keys, classes, objects, values, 0);
    assert(init[0] == ObjectModel::String("$null"@));
    lemma_objects_after_keeps(keys, classes, objects, values, 0, n, 0);
    let before = objects_after(keys, classes, objects, values, i as nat);
    let r = convert_object(keys, classes, objects, values, i, before.len() as int);
    let upd = before.update(i + 1, r.0);
    assert((upd + r.1)[i + 1] == r.0);
    lemma_objects_after_len(keys, classes, objects, values, (i + 1) as nat);
    lemma_objects_after_keeps(keys, classes, objects, values, (i + 1) as nat, n, i + 1);
    lemma_objects_after_len(keys, classes, objects, values, n);
}

/// No field of `run` is stored under `key`.
pub open spec fn run_avoids_key(keys: Seq<Seq<char>>, run: Seq<ValueModel>, key: Seq<char>) -> bool {
    forall|j: int| 0 <= j < run.len() ==> keys[#[trigger] run[j].key_index as int] != key
}

proof fn lemma_fields_keep_class(
    keys: Seq<Seq<char>>,
    n: nat,
    run: Seq<ValueModel>,
    base: int,
    init: ObjectBuild,
    j: nat,
)
    requires
        j <= run.len(),
        run_avoids_key(keys, run, "$class"@),
        forall|a: int|
            0 <= a < init.arrays.len() ==> keys[#[trigger] init.arrays[a].0 as int] != "$class"@,
    ensures
        dict_get(fields_after(keys, n, run, base, init, j).entries, "$class"@) == dict_get(
            init.entries,
            "$class"@,
        ),
        forall|a: int|
            0 <= a < fields_after(keys, n, run, base, init, j).arrays.len() ==> keys[
            #[trigger] fields_after(keys, n, run, base, init, j).arrays[a].0 as int] != "$class"@,
    decreases j,
{
    if j > 0 {
        lemma_fields_keep_class(keys, n, run, base, init, (j - 1) as nat);
        let st = fields_after(keys, n, run, base, init, (j - 1) as nat);
        let v = run[j - 1];
        let key = keys[v.key_index as int];
        assert(key != "$class"@);
        let value = if crate::keyed_archive::geometry_of(key, v.payload) is Some {
            ScalarModel::Uid((base + st.added.len()) as u64)
        } else {
            crate::keyed_archive::linked_scalar(v.payload, n)
        };
        lemma_dict_insert_get(st.entries, key, FieldModel::Scalar(value), "$class"@);
        crate::plist_model::lemma_first_index(st.arrays, v.key_index);
        let st2 = fields_after(keys, n, run, base, init, j);
        assert(st2 == field_step(keys, n, run, base, st, v));
        assert forall|a: int| 0 <= a < st2.arrays.len() implies keys[#[trigger] st2.arrays[a].0 as int]
            != "$class"@ by {
            if a < st.arrays.len() && st2.arrays[a].0 != v.key_index {
                assert(st2.arrays[a].0 == st.arrays[a].0);
            }
        }
    }
}

proof fn lemma_flush_keeps_class(
    keys: Seq<Seq<char>>,
    collection: bool,
    entries: DictModel<FieldModel>,
    arrays: Seq<(u32, Seq<ScalarModel>)>,
    j: nat,
)
    requires
        j <= arrays.len(),
        forall|a: int| 0 <= a < arrays.len() ==> keys[#[trigger] arrays[a].0 as int] != "$class"@,
    ensures
        dict_get(flush_arrays(keys, collection, entries, arrays, j), "$class"@) == dict_get(
            entries,
            "$class"@,
        ),
    decreases j,
{
    if j > 0 {
        lemma_flush_keeps_class(keys, collection, entries, arrays, (j - 1) as nat);
        let name = keys[arrays[j - 1].0 as int];
        reveal_strlit("NS.objects");
        reveal_strlit("$class");
        assert("NS.objects"@.len() != "$class"@.len());
        assert(name != "$class"@);
        assert(array_key(name, collection) != "$class"@);
        lemma_dict_insert_get(
            flush_arrays(keys, collection, entries, arrays, (j - 1) as nat),
            array_key(name, collection),
            FieldModel::Array(arrays[j - 1].1),
            "$class"@,
        );
    }
}

/// Every archive object that becomes a dictionary (any class but the string
/// and data classes) has a `$class` entry referring to the class
/// description appended for it, which names its class and `NSObject`; this
/// holds where none of the object's own fields is stored under `$class`.
pub proof fn law_class_reference(
    keys: Seq<Seq<char>>,
    classes: Seq<Seq<char>>,
    objects: Seq<NibObject>,
    values: Seq<ValueModel>,
    i: int,
)
    requires
        0 <= i < objects.len(),
        !is_string_class(classes[objects[i].class_index as int]),
        !is_data_class(classes[objects[i].class_index as int]),
        run_avoids_key(keys, object_run(values, objects[i]), "$class"@),
    ensures
        ({
            let all = objects_after(keys, classes, objects, values, objects.len());
            let c = objects_after(keys, classes, objects, values, i as nat).len();
            &&& c < all.len()
            &&& all[i + 1] matches ObjectModel::Dictionary(entries) && dict_get(entries, "$class"@)
                == Some(FieldModel::Scalar(ScalarModel::Uid(c as u64)))
            &&& all[c as int] == class_object(classes[objects[i].class_index as int])
        }),
{
    let n = objects.len();
    law_object_slots(keys, classes, objects, values, i);
    let before = objects_after(keys, classes, objects, values, i as nat);
    let c = before.len();
    let run = object_run(values, objects[i]);
    let init = initial_build(c as int);
    assert(init.arrays.len() == 0);
    lemma_fields_keep_class(keys, n, run, c as int + 1, init, run.len());
    let st = fields_after(keys, n, run, c as int + 1, init, run.len());
    lemma_flush_keeps_class(
        keys,
        crate::keyed_archive::is_collection_class(classes[objects[i].class_index as int]),
        st.entries,
        st.arrays,
        st.arrays.len(),
    );
    lemma_first_index_at(init.entries, "$class"@, 0);
    // The class description sits at index `c` from object `i` on.
    lemma_objects_after_len(keys, classes, objects, values, i as nat);
    let r = convert_object(keys, classes, objects, values, i, c as int);
    let after = objects_after(keys, classes, objects, values, (i + 1) as nat);
    assert(after == before.update(i + 1, r.0) + r.1);
    assert(after[c as int] == r.1[0]);
    lemma_objects_after_keeps(keys, classes, objects, values, (i + 1) as nat, n, c as int);
}

proof fn lemma_fields_added_grow(
    keys: Seq<Seq<char>>,
    n: nat,
    run: Seq<ValueModel>,
    base: int,
    init: ObjectBuild,
    j: nat,
    k: nat,
)
    requires
        j <= k,
    ensures
        fields_after(keys, n, run, base, init, k).added.len() >= fields_after(
            keys,
            n,
            run,
            base,
            init,
            j,
        ).added.len(),
        forall|t: int|
            0 <= t < fields_after(keys, n, run, base, init, j).added.len() ==> #[trigger] fields_after(
                keys,
                n,
                run,
                base,
                init,
                k,
            ).added[t] == fields_after(keys, n, run, base, init, j).added[t],
    decreases k,
{
    if k > j {
        lemma_fields_added_grow(keys, n, run, base, init, j, (k - 1) as nat);
    }
}

/// Inline geometry data becomes a geometry string appended to `$objects`,
/// referred to by its index: where field `j` of an archive object that
/// becomes a dictionary is geometry `g`, the `$objects` index it is given
/// (the index after the object's class description, plus the number of
/// geometry strings of the fields before it) holds the geometry string `g`.
pub proof fn law_geometry_reference(
    keys: Seq<Seq<char>>,
    classes: Seq<Seq<char>>,
    objects: Seq<NibObject>,
    values: Seq<ValueModel>,
    i: int,
    j: int,
    g: Geometry,
)
    requires
        0 <= i < objects.len(),
        !is_string_class(classes[objects[i].class_index as int]),
        !is_data_class(classes[objects[i].class_index as int]),
        0 <= j < object_run(values, objects[i]).len(),
        geometry_of(
            keys[object_run(values, objects[i])[j].key_index as int],
            object_run(values, objects[i])[j].payload,
        ) == Some(g),
    ensures
        ({
            let all = objects_after(keys, classes, objects, values, objects.len());
            let c = objects_after(keys, classes, objects, values, i as nat).len() as int;
            let run = object_run(values, objects[i]);
            let st = fields_after(keys, objects.len(), run, c + 1, initial_build(c), j as nat);
            &&& c + 1 + st.added.len() < all.len()
            &&& all[c + 1 + st.added.len()] == ObjectModel::Geometry(g)
        }),
{
    let n = objects.len();
    let before = objects_after(keys, classes, objects, values, i as nat);
    let c = before.len() as int;
    let run = object_run(values, objects[i]);
    let init = initial_build(c);
    let st = fields_after(keys, n, run, c + 1, init, j as nat);
    let st1 = fields_after(keys, n, run, c + 1, init, (j + 1) as nat);
    assert(st1 == field_step(keys, n, run, c + 1, st, run[j]));
    assert(st1.added == st.added.push(ObjectModel::Geometry(g)));
    let t = st.added.len() as int;
    lemma_fields_added_grow(keys, n, run, c + 1, init, (j + 1) as nat, run.len());
    let fin = fields_after(keys, n, run, c + 1, init, run.len());
    assert(fin.added[t] == ObjectModel::Geometry(g));
    lemma_objects_after_len(keys, classes, objects, values, i as nat);
    let r = convert_object(keys, classes, objects, values, i, c);
    assert(r.1 == seq![class_object(classes[objects[i].class_index as int])] + fin.added);
    let after = objects_after(keys, classes, objects, values, (i + 1) as nat);
    let upd = before.update(i + 1, r.0);
    assert(after == upd + r.1);
    assert(after[c + 1 + t] == r.1[1 + t]);
    assert(after[c + 1 + t] == ObjectModel::Geometry(g));
    lemma_objects_after_keeps(keys, classes, objects, values, (i + 1) as nat, n, c + 1 + t);
}

/// The last field of `run` stored under the key named `k`, if any.
pub open spec fn last_field_named(keys: Seq<Seq<char>>, run: Seq<ValueModel>, k: Seq<char>) -> Option<
    ValueModel,
>
    decreases run.len(),
{
    if run.len() == 0 {
        None
    } else if keys[run.last().key_index as int] == k {
        Some(run.last())
    } else {
        last_field_named(keys, run.drop_last(), k)
    }
}

/// In `$top`, each key holds the value of the root object's last field
/// stored under that key, with object references resolved; a key that no
/// field of the root uses is absent.
pub proof fn law_top_last_field_wins(
    keys: Seq<Seq<char>>,
    n: nat,
    run: Seq<ValueModel>,
    k: Seq<char>,
)
    ensures
        dict_get(top_after(keys, n, run, run.len()), k) == match last_field_named(keys, run, k) {
            Some(v) => Some(linked_scalar(v.payload, n)),
            None => None::<ScalarModel>,
        },
    decreases run.len(),
{
    if run.len() > 0 {
        let prefix = run.drop_last();
        law_top_last_field_wins(keys, n, prefix, k);
        lemma_top_prefix(keys, n, run, (run.len() - 1) as nat);
        let v = run.last();
        lemma_dict_insert_get(
            top_after(keys, n, prefix, prefix.len()),
            keys[v.key_index as int],
            linked_scalar(v.payload, n),
            k,
        );
    } else {
        crate::plist_model::lemma_first_index(Seq::<(Seq<char>, ScalarModel)>::empty(), k);
    }
}

proof fn lemma_top_prefix(keys: Seq<Seq<char>>, n: nat, run: Seq<ValueModel>, j: nat)
    requires
        j <= run.len(),
        run.len() > 0,
        j == run.len() - 1,
    ensures
        top_after(keys, n, run, j) == top_after(keys, n, run.drop_last(), j),
{
    lemma_top_agree(keys, n, run, run.drop_last(), j);
}

proof fn lemma_top_agree(keys: Seq<Seq<char>>, n: nat, a: Seq<ValueModel>, b: Seq<ValueModel>, j: nat)
    requires
        j <= a.len(),
        j <= b.len(),
        forall|t: int| 0 <= t < j ==> a[t] == b[t],
    ensures
        top_after(keys, n, a, j) == top_after(keys, n, b, j),
    decreases j,
{
    if j > 0 {
        lemma_top_agree(keys, n, a, b, (j - 1) as nat);
    }
}

// ---------------------------------------------------------------------
// Every object reference resolves.

/// A scalar that is a Uid refers to an index below `bound`.
pub open spec fn uid_below(s: ScalarModel, bound: int) -> bool {
    match s {
        ScalarModel::Uid(u) => u < bound,
        _ => true,
    }
}

/// Every Uid among `a` is below `bound`.
pub open spec fn scalars_below(a: Seq<ScalarModel>, bound: int) -> bool {
    forall|i: int| #![trigger a[i]] 0 <= i < a.len() ==> uid_below(a[i], bound)
}

/// Every Uid in `f` is below `bound`.
pub open spec fn field_below(f: FieldModel, bound: int) -> bool {
    match f {
        FieldModel::Scalar(s) => uid_below(s, bound),
        FieldModel::Array(a) => scalars_below(a, bound),
    }
}

/// Every Uid among the values of `e` is below `bound`.
pub open spec fn fields_below(e: DictModel<FieldModel>, bound: int) -> bool {
    forall|i: int| #![trigger e[i]] 0 <= i < e.len() ==> field_below(e[i].1, bound)
}

/// Every Uid inside `o` is below `bound`.
pub open spec fn object_below(o: ObjectModel, bound: int) -> bool {
    match o {
        ObjectModel::Dictionary(e) => fields_below(e, bound),
        _ => true,
    }
}

/// Every Uid inside the objects `objs` is below `bound`.
pub open spec fn objects_below(objs: Seq<ObjectModel>, bound: int) -> bool {
    forall|i: int| #![trigger objs[i]] 0 <= i < objs.len() ==> object_below(objs[i], bound)
}

/// Every Uid among the values of `t` is below `bound`.
pub open spec fn top_below(t: DictModel<ScalarModel>, bound: int) -> bool {
    forall|i: int| #![trigger t[i]] 0 <= i < t.len() ==> uid_below(t[i].1, bound)
}

/// Every Uid in the gathered arrays is below `bound`.
pub open spec fn arrays_below(a: Seq<(u32, Seq<ScalarModel>)>, bound: int) -> bool {
    forall|i: int| #![trigger a[i]] 0 <= i < a.len() ==> scalars_below(a[i].1, bound)
}

proof fn lemma_linked_below(p: PayloadModel, n: nat, bound: int)
    requires
        n + 1 <= bound,
    ensures
        uid_below(linked_scalar(p, n), bound),
{
}

proof fn lemma_field_below_mono(f: FieldModel, b: int, b2: int)
    requires
        field_below(f, b),
        b <= b2,
    ensures
        field_below(f, b2),
{
    match f {
        FieldModel::Scalar(s) => {},
        FieldModel::Array(a) => {
            assert forall|i: int| 0 <= i < a.len() implies uid_below(#[trigger] a[i], b2) by {
                assert(uid_below(a[i], b));
            }
        },
    }
}

proof fn lemma_fields_below_mono(e: DictModel<FieldModel>, b: int, b2: int)
    requires
        fields_below(e, b),
        b <= b2,
    ensures
        fields_below(e, b2),
{
    assert forall|i: int| 0 <= i < e.len() implies field_below(#[trigger] e[i].1, b2) by {
        lemma_field_below_mono(e[i].1, b, b2);
    }
}

proof fn lemma_arrays_below_mono(a: Seq<(u32, Seq<ScalarModel>)>, b: int, b2: int)
    requires
        arrays_below(a, b),
        b <= b2,
    ensures
        arrays_below(a, b2),
{
    assert forall|i: int| 0 <= i < a.len() implies scalars_below(#[trigger] a[i].1, b2) by {
        lemma_field_below_mono(FieldModel::Array(a[i].1), b, b2);
    }
}

proof fn lemma_fields_below_insert(e: DictModel<FieldModel>, k: Seq<char>, f: FieldModel, b: int)
    requires
        fields_below(e, b),
        field_below(f, b),
    ensures
        fields_below(dict_insert(e, k, f), b),
{
    lemma_dict_insert_shape(e, k, f);
    let e2 = dict_insert(e, k, f);
    assert forall|i: int| 0 <= i < e2.len() implies field_below(#[trigger] e2[i].1, b) by {
        if e2[i] != (k, f) {
            assert(e2[i] == e[i]);
        }
    }
}

proof fn lemma_top_below_insert(t: DictModel<ScalarModel>, k: Seq<char>, s: ScalarModel, b: int)
    requires
        top_below(t, b),
        uid_below(s, b),
    ensures
        top_below(dict_insert(t, k, s), b),
{
    lemma_dict_insert_shape(t, k, s);
    let t2 = dict_insert(t, k, s);
    assert forall|i: int| 0 <= i < t2.len() implies uid_below(#[trigger] t2[i].1, b) by {
        if t2[i] != (k, s) {
            assert(t2[i] == t[i]);
        }
    }
}

proof fn lemma_arrays_below_push(a: Seq<(u32, Seq<ScalarModel>)>, k: u32, v: ScalarModel, b: int)
    requires
        arrays_below(a, b),
        uid_below(v, b),
    ensures
        arrays_below(array_push(a, k, v), b),
{
    lemma_first_index(a, k);
    let a2 = array_push(a, k, v);
    let at = crate::plist_model::first_index(a, k);
    assert forall|i: int| 0 <= i < a2.len() implies scalars_below(#[trigger] a2[i].1, b) by {
        if at < a.len() && i == at {
            let old_list = a[i].1;
            assert(scalars_below(old_list, b));
            assert forall|t: int| 0 <= t < a2[i].1.len() implies uid_below(#[trigger] a2[i].1[t], b) by {
                if t < old_list.len() {
                    assert(a2[i].1[t] == old_list[t]);
                }
            }
        } else if i < a.len() {
            assert(a2[i] == a[i]);
        } else {
            assert(a2[i].1 == seq![v]);
            assert forall|t: int| 0 <= t < a2[i].1.len() implies uid_below(#[trigger] a2[i].1[t], b) by {
                assert(a2[i].1[t] == v);
            }
        }
    }
}

proof fn lemma_fields_after_below(
    keys: Seq<Seq<char>>,
    n: nat,
    run: Seq<ValueModel>,
    base: int,
    init: ObjectBuild,
    j: nat,
)
    requires
        j <= run.len(),
        n + 1 <= base,
        init.added.len() == 0,
        fields_below(init.entries, base),
        arrays_below(init.arrays, base),
    ensures
        ({
            let st = fields_after(keys, n, run, base, init, j);
            &&& fields_below(st.entries, base + st.added.len())
            &&& arrays_below(st.arrays, base + st.added.len())
            &&& forall|t: int|
                #![trigger st.added[t]]
                0 <= t < st.added.len() ==> st.added[t] is Geometry
        }),
    decreases j,
{
    if j > 0 {
        lemma_fields_after_below(keys, n, run, base, init, (j - 1) as nat);
        let st = fields_after(keys, n, run, base, init, (j - 1) as nat);
        let st2 = fields_after(keys, n, run, base, init, j);
        let v = run[j - 1];
        assert(st2 == field_step(keys, n, run, base, st, v));
        let key = keys[v.key_index as int];
        let g = geometry_of(key, v.payload);
        let b = base + st.added.len();
        let b2 = base + st2.added.len();
        let value = if g is Some {
            ScalarModel::Uid((base + st.added.len()) as u64)
        } else {
            linked_scalar(v.payload, n)
        };
        if g is Some {
            assert(st2.added == st.added.push(ObjectModel::Geometry(g.unwrap())));
        } else {
            lemma_linked_below(v.payload, n, b);
        }
        assert(uid_below(value, b2));
        lemma_fields_below_mono(st.entries, b, b2);
        lemma_arrays_below_mono(st.arrays, b, b2);
        if key_count(run, v.key_index) > 1 {
            lemma_arrays_below_push(st.arrays, v.key_index, value, b2);
        } else {
            lemma_fields_below_insert(st.entries, key, FieldModel::Scalar(value), b2);
        }
    }
}

proof fn lemma_flush_below(
    keys: Seq<Seq<char>>,
    collection: bool,
    entries: DictModel<FieldModel>,
    arrays: Seq<(u32, Seq<ScalarModel>)>,
    j: nat,
    b: int,
)
    requires
        j <= arrays.len(),
        fields_below(entries, b),
        arrays_below(arrays, b),
    ensures
        fields_below(flush_arrays(keys, collection, entries, arrays, j), b),
    decreases j,
{
    if j > 0 {
        lemma_flush_below(keys, collection, entries, arrays, (j - 1) as nat, b);
        assert(scalars_below(arrays[j - 1].1, b));
        lemma_fields_below_insert(
            flush_arrays(keys, collection, entries, arrays, (j - 1) as nat),
            array_key(keys[arrays[j - 1].0 as int], collection),
            FieldModel::Array(arrays[j - 1].1),
            b,
        );
    }
}

proof fn lemma_top_after_below(keys: Seq<Seq<char>>, n: nat, run: Seq<ValueModel>, j: nat, b: int)
    requires
        n + 1 <= b,
    ensures
        top_below(top_after(keys, n, run, j), b),
    decreases j,
{
    if j > 0 {
        lemma_top_after_below(keys, n, run, (j - 1) as nat, b);
        lemma_linked_below(run[j - 1].payload, n, b);
        lemma_top_below_insert(
            top_after(keys, n, run, (j - 1) as nat),
            keys[run[j - 1].key_index as int],
            linked_scalar(run[j - 1].payload, n),
            b,
        );
    }
}

proof fn lemma_objects_after_below(
    keys: Seq<Seq<char>>,
    classes: Seq<Seq<char>>,
    objects: Seq<NibObject>,
    values: Seq<ValueModel>,
    k: nat,
)
    requires
        k <= objects.len(),
    ensures
        objects_below(
            objects_after(keys, classes, objects, values, k),
            objects_after(keys, classes, objects, values, k).len() as int,
        ),
    decreases k,
{
    let n = objects.len();
    if k == 0 {
        let init = objects_after(keys, classes, objects, values, 0);
        assert forall|i: int| 0 <= i < init.len() implies object_below(#[trigger] init[i], init.len() as int) by {
            if i > 0 {
                assert(init[i] == ObjectModel::Dictionary(Seq::<(Seq<char>, FieldModel)>::empty()));
            }
        }
    } else {
        lemma_objects_after_below(keys, classes, objects, values, (k - 1) as nat);
        lemma_objects_after_len(keys, classes, objects, values, (k - 1) as nat);
        let prev = objects_after(keys, classes, objects, values, (k - 1) as nat);
        let len = prev.len() as int;
        let r = convert_object(keys, classes, objects, values, k - 1, len);
        let upd = prev.update(k as int, r.0);
        let all = objects_after(keys, classes, objects, values, k);
        assert(all == upd + r.1);
        let total = all.len() as int;
        assert(total == len + r.1.len());
        let o = objects[k - 1];
        let cn = classes[o.class_index as int];
        let run = object_run(values, o);
        if !is_string_class(cn) && !is_data_class(cn) {
            let init = initial_build(len);
            assert(fields_below(init.entries, len + 1)) by {
                assert forall|i: int| 0 <= i < init.entries.len() implies field_below(
                    #[trigger] init.entries[i].1,
                    len + 1,
                ) by {
                    assert(i == 0);
                }
            }
            lemma_fields_after_below(keys, n, run, len + 1, init, run.len());
            let st = fields_after(keys, n, run, len + 1, init, run.len());
            lemma_flush_below(
                keys,
                crate::keyed_archive::is_collection_class(cn),
                st.entries,
                st.arrays,
                st.arrays.len(),
                len + 1 + st.added.len(),
            );
            assert(r.1 == seq![class_object(cn)] + st.added);
            assert(object_below(r.0, total));
            assert(object_below(class_object(cn), total)) by {
                let ce = seq![
                    ("$classname"@, FieldModel::Scalar(ScalarModel::String(cn))),
                    (
                        "$classes"@,
                        FieldModel::Array(seq![ScalarModel::String(cn), ScalarModel::String("NSObject"@)]),
                    ),
                ];
                assert(class_object(cn) == ObjectModel::Dictionary(ce));
                assert forall|i: int| 0 <= i < ce.len() implies field_below(#[trigger] ce[i].1, total) by {
                    if i == 1 {
                        let a = seq![ScalarModel::String(cn), ScalarModel::String("NSObject"@)];
                        assert(ce[1].1 == FieldModel::Array(a));
                        assert forall|t: int| 0 <= t < a.len() implies uid_below(#[trigger] a[t], total) by {
                        }
                    }
                }
            }
            assert forall|t: int| 0 <= t < r.1.len() implies object_below(#[trigger] r.1[t], total) by {
                if t > 0 {
                    assert(r.1[t] == st.added[t - 1]);
                    assert(st.added[t - 1] is Geometry);
                }
            }
        } else {
            assert(r.1.len() == 0);
        }
        assert forall|i: int| 0 <= i < all.len() implies object_below(#[trigger] all[i], total) by {
            if i < len {
                if i == k {
                    assert(all[i] == r.0);
                } else {
                    assert(all[i] == prev[i]);
                    assert(object_below(prev[i], len));
                    match prev[i] {
                        ObjectModel::Dictionary(e) => lemma_fields_below_mono(e, len, total),
                        _ => {},
                    }
                }
            } else {
                assert(all[i] == r.1[i - len]);
            }
        }
    }
}

/// Every object reference of the archive resolves: each Uid in `$top`, and
/// each Uid inside an entry of `$objects` (including those in the arrays
/// gathered for repeated keys), is an index of `$objects`.
pub proof fn law_uids_resolve(
    keys: Seq<Seq<char>>,
    classes: Seq<Seq<char>>,
    objects: Seq<NibObject>,
    values: Seq<ValueModel>,
)
    ensures
        ({
            let a = archive_of(keys, classes, objects, values);
            &&& top_below(a.top, a.objects.len() as int)
            &&& objects_below(a.objects, a.objects.len() as int)
        }),
{
    let n = objects.len();
    lemma_objects_after_below(keys, classes, objects, values, n);
    lemma_objects_after_len(keys, classes, objects, values, n);
    let all = objects_after(keys, classes, objects, values, n);
    let root = object_run(values, objects[0]);
    lemma_top_after_below(keys, n, root, root.len(), all.len() as int);
}

} // verus!
