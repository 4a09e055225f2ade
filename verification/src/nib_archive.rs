//! Reading a whole NIBArchive file into an NSKeyedArchiver archive.

use vstd::prelude::*;
use crate::bytes::{read_varint, varint_available, varint_end, varint_value};
use crate::keyed_archive::{
    archive_of, keyed_archive_from_tables, object_in_range, references_in_range,
    run_keys_in_range,
};
use crate::nib_format::{
    class_entry, class_table, is_nib_archive, key_entry, key_table, lemma_class_table_prefix,
    lemma_key_table_prefix, lemma_object_table_prefix, lemma_value_table_prefix, magic,
    name_texts, names_decoded, object_entry, object_table, parse_class_names, parse_header, parse_keys,
    parse_objects, parse_payload, parse_values, payload_entry, spec_header, value_entry,
    value_models, value_table, NibObject, NibValue, ValueModel,
};
use crate::plist_model::{ArchiveModel, KeyedArchive};

verus! {

/// Every table lies within the data.
pub open spec fn tables_in_range(s: Seq<u8>) -> bool {
    let h = spec_header(s);
    &&& key_table(s, h.key_offset as int, h.key_count as nat) is Some
    &&& class_table(s, h.class_offset as int, h.class_count as nat) is Some
    &&& object_table(s, h.object_offset as int, h.object_count as nat) is Some
    &&& value_table(s, h.value_offset as int, h.value_count as nat) is Some
}

/// The objects of the archive `s`.
pub open spec fn archive_objects(s: Seq<u8>) -> Seq<NibObject> {
    let h = spec_header(s);
    object_table(s, h.object_offset as int, h.object_count as nat).unwrap().0
}

/// The values of the archive `s`.
pub open spec fn archive_values(s: Seq<u8>) -> Seq<ValueModel> {
    let h = spec_header(s);
    value_table(s, h.value_offset as int, h.value_count as nat).unwrap().0
}

/// `s` can be read as a NIBArchive from start to end: it starts with the
/// magic and holds the whole header, every table lies within it, there is
/// a root object, and objects refer only to classes, values and keys that
/// exist.
pub open spec fn nib_archive_well_formed(s: Seq<u8>) -> bool {
    let h = spec_header(s);
    &&& s.len() >= 50
    &&& s.subrange(0, 10) == magic()
    &&& tables_in_range(s)
    &&& references_in_range(
        h.key_count as nat,
        h.class_count as nat,
        archive_objects(s),
        archive_values(s),
    )
}

/// The key names of the archive `s`.
pub open spec fn archive_keys(s: Seq<u8>) -> Seq<Seq<char>> {
    let h = spec_header(s);
    name_texts(s, key_table(s, h.key_offset as int, h.key_count as nat).unwrap().0)
}

/// The class names of the archive `s`.
pub open spec fn archive_classes(s: Seq<u8>) -> Seq<Seq<char>> {
    let h = spec_header(s);
    name_texts(s, class_table(s, h.class_offset as int, h.class_count as nat).unwrap().0)
}

/// The NSKeyedArchiver archive that the NIBArchive `s` stands for; names
/// that are valid UTF-8 read as the text they encode (see the `ensures` of
/// `parse_nib_archive`).
pub open spec fn archive_from_bytes(s: Seq<u8>) -> ArchiveModel {
    archive_of(archive_keys(s), archive_classes(s), archive_objects(s), archive_values(s))
}

/// A file is well formed exactly when it starts with the magic, holds the
/// header, has every table within it and a root object, and every object
/// names an existing class and a run of existing values, each stored under
/// an existing key; an object may have no values at all.
pub proof fn law_well_formed_exactly(s: Seq<u8>)
    ensures
        nib_archive_well_formed(s) <==> ({
            let h = spec_header(s);
            let objs = archive_objects(s);
            let vals = archive_values(s);
            &&& s.len() >= 50
            &&& s.subrange(0, 10) == magic()
            &&& tables_in_range(s)
            &&& objs.len() > 0
            &&& forall|i: int|
                #![trigger objs[i]]
                0 <= i < objs.len() ==> {
                    &&& objs[i].class_index < h.class_count
                    &&& objs[i].values_index + objs[i].values_count <= vals.len()
                    &&& forall|j: int|
                        objs[i].values_index <= j < objs[i].values_index + objs[i].values_count
                            ==> #[trigger] vals[j].key_index < h.key_count
                }
        }),
{
    let h = spec_header(s);
    let objs = archive_objects(s);
    let vals = archive_values(s);
    if tables_in_range(s) {
        lemma_object_table_prefix(s, h.object_offset as int, h.object_count as nat, 0);
        assert(objs.len() <= u32::MAX);
    }
    if nib_archive_well_formed(s) {
        assert forall|i: int| #![trigger objs[i]] 0 <= i < objs.len() implies {
            &&& objs[i].class_index < h.class_count
            &&& objs[i].values_index + objs[i].values_count <= vals.len()
            &&& forall|j: int|
                objs[i].values_index <= j < objs[i].values_index + objs[i].values_count
                    ==> #[trigger] vals[j].key_index < h.key_count
        } by {
            assert(object_in_range(objs[i], h.key_count as nat, h.class_count as nat, vals));
        }
    }
    if s.len() >= 50 && s.subrange(0, 10) == magic() && tables_in_range(s) && objs.len() > 0
        && forall|i: int|
        #![trigger objs[i]]
        0 <= i < objs.len() ==> {
            &&& objs[i].class_index < h.class_count
            &&& objs[i].values_index + objs[i].values_count <= vals.len()
            &&& forall|j: int|
                objs[i].values_index <= j < objs[i].values_index + objs[i].values_count
                    ==> #[trigger] vals[j].key_index < h.key_count
        } {
        assert forall|i: int| 0 <= i < objs.len() implies #[trigger] object_in_range(
            objs[i],
            h.key_count as nat,
            h.class_count as nat,
            vals,
        ) by {
            let o = objs[i];
            assert(o.values_index + o.values_count <= vals.len());
        }
    }
}

/// Parses a NIBArchive and converts it into an NSKeyedArchiver archive.
pub fn parse_nib_archive(data: &[u8]) -> (archive: KeyedArchive)
    requires
        nib_archive_well_formed(data@),
    ensures
        archive@ == archive_from_bytes(data@),
        names_decoded(
            data@,
            key_table(
                data@,
                spec_header(data@).key_offset as int,
                spec_header(data@).key_count as nat,
            ).unwrap().0,
            archive_keys(data@),
        ),
        names_decoded(
            data@,
            class_table(
                data@,
                spec_header(data@).class_offset as int,
                spec_header(data@).class_count as nat,
            ).unwrap().0,
            archive_classes(data@),
        ),
{
    let header = parse_header(data);
    let keys = parse_keys(data, &header);
    let class_names = parse_class_names(data, &header);
    let objects = parse_objects(data, &header);
    let all_values = parse_values(data, &header);
    proof {
        let s = data@;
        let h = header;
        lemma_key_table_prefix(s, h.key_offset as int, h.key_count as nat, 0);
        lemma_class_table_prefix(s, h.class_offset as int, h.class_count as nat, 0);
        assert(crate::nib_format::string_models(keys@).len() == keys@.len());
        assert(crate::nib_format::string_models(class_names@).len() == class_names@.len());
        assert(keys@.len() == h.key_count);
        assert(class_names@.len() == h.class_count);
    }
    keyed_archive_from_tables(&keys, &class_names, &objects, &all_values)
}

// ---------------------------------------------------------------------
// Checking that a file is well formed, table by table.

/// Whether `count` keys fit from `offset` on.
fn key_table_fits(data: &[u8], offset: u32, count: u32) -> (ok: bool)
    ensures
        ok == (key_table(data@, offset as int, count as nat) is Some),
{
    let ghost s = data@;
    let dlen = data.len();
    let mut pos = offset as usize;
    let mut k: u32 = 0;
    while k < count
        invariant
            k <= count,
            s == data@,
            dlen == data@.len(),
            key_table(s, offset as int, k as nat) is Some,
            key_table(s, offset as int, k as nat).unwrap().1 == pos as int,
        decreases count - k,
    {
        if !varint_available(data, pos) {
            proof {
                if key_table(s, offset as int, count as nat) is Some {
                    lemma_key_table_prefix(s, offset as int, count as nat, (k + 1) as nat);
                }
            }
            return false;
        }
        let ghost p0 = pos;
        let length = read_varint(data, &mut pos) as usize;
        if pos > dlen || length > dlen - pos {
            proof {
                assert(key_entry(s, p0 as int) is None);
                if key_table(s, offset as int, count as nat) is Some {
                    lemma_key_table_prefix(s, offset as int, count as nat, (k + 1) as nat);
                }
            }
            return false;
        }
        pos = pos + length;
        k = k + 1;
    }
    true
}

/// Whether `count` classes fit from `offset` on.
fn class_table_fits(data: &[u8], offset: u32, count: u32) -> (ok: bool)
    ensures
        ok == (class_table(data@, offset as int, count as nat) is Some),
{
    let ghost s = data@;
    let dlen = data.len();
    let mut pos = offset as usize;
    let mut k: u32 = 0;
    while k < count
        invariant
            k <= count,
            s == data@,
            dlen == data@.len(),
            class_table(s, offset as int, k as nat) is Some,
            class_table(s, offset as int, k as nat).unwrap().1 == pos as int,
        decreases count - k,
    {
        let ghost p0 = pos;
        if !varint_available(data, pos) {
            proof {
                assert(class_entry(s, p0 as int) is None);
                if class_table(s, offset as int, count as nat) is Some {
                    lemma_class_table_prefix(s, offset as int, count as nat, (k + 1) as nat);
                }
            }
            return false;
        }
        let name_length = read_varint(data, &mut pos);
        if !varint_available(data, pos) {
            proof {
                assert(class_entry(s, p0 as int) is None);
                if class_table(s, offset as int, count as nat) is Some {
                    lemma_class_table_prefix(s, offset as int, count as nat, (k + 1) as nat);
                }
            }
            return false;
        }
        let fallback_count = read_varint(data, &mut pos);
        let needed = fallback_count as u64 * 4 + name_length as u64;
        if pos > dlen || needed > (dlen - pos) as u64 {
            proof {
                assert(class_entry(s, p0 as int) is None);
                if class_table(s, offset as int, count as nat) is Some {
                    lemma_class_table_prefix(s, offset as int, count as nat, (k + 1) as nat);
                }
            }
            return false;
        }
        pos = pos + needed as usize;
        k = k + 1;
    }
    true
}

/// Whether `count` objects fit from `offset` on.
fn object_table_fits(data: &[u8], offset: u32, count: u32) -> (ok: bool)
    ensures
        ok == (object_table(data@, offset as int, count as nat) is Some),
{
    let ghost s = data@;
    let mut pos = offset as usize;
    let mut k: u32 = 0;
    while k < count
        invariant
            k <= count,
            s == data@,
            object_table(s, offset as int, k as nat) is Some,
            object_table(s, offset as int, k as nat).unwrap().1 == pos as int,
        decreases count - k,
    {
        let ghost p0 = pos;
        let mut field: usize = 0;
        while field < 3
            invariant
                field <= 3,
                k < count,
                s == data@,
                object_table(s, offset as int, k as nat) is Some,
                object_table(s, offset as int, k as nat).unwrap().1 == p0 as int,
                0 <= p0,
                field == 0 ==> pos == p0,
                field == 1 ==> varint_end(s, p0 as int) == Some(pos as int),
                field == 2 ==> (varint_end(s, p0 as int) matches Some(e1) && varint_end(s, e1)
                    == Some(pos as int)),
                field == 3 ==> object_entry(s, p0 as int) is Some && object_entry(
                    s,
                    p0 as int,
                ).unwrap().1 == pos as int,
            decreases 3 - field,
        {
            if !varint_available(data, pos) {
                proof {
                    assert(object_entry(s, p0 as int) is None);
                    if object_table(s, offset as int, count as nat) is Some {
                        lemma_object_table_prefix(s, offset as int, count as nat, (k + 1) as nat);
                    }
                }
                return false;
            }
            read_varint(data, &mut pos);
            field = field + 1;
        }
        k = k + 1;
    }
    true
}

/// Whether a payload of type `value_type` fits at `pos`.
fn payload_fits(data: &[u8], value_type: u8, pos: usize) -> (ok: bool)
    ensures
        ok == (payload_entry(data@, value_type, pos as int) is Some),
{
    let dlen = data.len();
    if pos > dlen {
        return match value_type {
            4 | 5 | 9 => true,
            0 | 1 | 2 | 3 | 6 | 7 | 8 | 10 => {
                proof {
                    if value_type == 8 {
                        assert(varint_end(data@, pos as int) is None);
                    }
                }
                false
            },
            _ => true,
        };
    }
    let room = dlen - pos;
    match value_type {
        0 => room >= 1,
        1 => room >= 2,
        2 => room >= 4,
        3 => room >= 8,
        6 => room >= 4,
        7 => room >= 8,
        10 => room >= 4,
        8 => {
            if !varint_available(data, pos) {
                return false;
            }
            let mut p = pos;
            let length = read_varint(data, &mut p) as usize;
            p <= dlen && length <= dlen - p
        },
        _ => true,
    }
}

/// Whether `count` values fit from `offset` on.
fn value_table_fits(data: &[u8], offset: u32, count: u32) -> (ok: bool)
    ensures
        ok == (value_table(data@, offset as int, count as nat) is Some),
{
    let ghost s = data@;
    let dlen = data.len();
    let mut pos = offset as usize;
    let mut k: u32 = 0;
    while k < count
        invariant
            k <= count,
            s == data@,
            dlen == data@.len(),
            value_table(s, offset as int, k as nat) is Some,
            value_table(s, offset as int, k as nat).unwrap().1 == pos as int,
        decreases count - k,
    {
        let ghost p0 = pos;
        if !varint_available(data, pos) {
            proof {
                assert(value_entry(s, p0 as int) is None);
                if value_table(s, offset as int, count as nat) is Some {
                    lemma_value_table_prefix(s, offset as int, count as nat, (k + 1) as nat);
                }
            }
            return false;
        }
        read_varint(data, &mut pos);
        if pos >= dlen {
            proof {
                assert(value_entry(s, p0 as int) is None);
                if value_table(s, offset as int, count as nat) is Some {
                    lemma_value_table_prefix(s, offset as int, count as nat, (k + 1) as nat);
                }
            }
            return false;
        }
        let value_type = data[pos];
        pos = pos + 1;
        if !payload_fits(data, value_type, pos) {
            proof {
                assert(value_entry(s, p0 as int) is None);
                if value_table(s, offset as int, count as nat) is Some {
                    lemma_value_table_prefix(s, offset as int, count as nat, (k + 1) as nat);
                }
            }
            return false;
        }
        parse_payload(data, value_type, &mut pos);
        k = k + 1;
    }
    true
}

/// Whether the objects refer only to classes, values and keys that exist
/// (see `references_in_range`).
pub fn references_ok(
    key_count: u32,
    class_count: u32,
    objects: &Vec<NibObject>,
    values: &Vec<NibValue>,
) -> (ok: bool)
    ensures
        ok == references_in_range(
            key_count as nat,
            class_count as nat,
            objects@,
            value_models(values@),
        ),
{
    let ghost all = value_models(values@);
    let n = objects.len();
    let n_values = values.len();
    if n == 0 || n as u64 > u32::MAX as u64 {
        return false;
    }
    let mut i: usize = 0;
    while i < n
        invariant
            i <= n,
            n == objects@.len(),
            n_values == values@.len(),
            all == value_models(values@),
            forall|j: int|
                0 <= j < i ==> #[trigger] object_in_range(
                    objects@[j],
                    key_count as nat,
                    class_count as nat,
                    all,
                ),
        decreases n - i,
    {
        let obj = objects[i];
        if obj.class_index >= class_count {
            assert(!object_in_range(objects@[i as int], key_count as nat, class_count as nat, all));
            return false;
        }
        if obj.values_index as u64 + obj.values_count as u64 > n_values as u64 {
            assert(!object_in_range(objects@[i as int], key_count as nat, class_count as nat, all));
            return false;
        }
        let start = obj.values_index as usize;
        let end = start + obj.values_count as usize;
        let mut j = start;
        while j < end
            invariant
                start <= j <= end <= n_values,
                i < n,
                n == objects@.len(),
                obj == objects@[i as int],
                start == obj.values_index,
                end == obj.values_index + obj.values_count,
                obj.class_index < class_count,
                n_values == values@.len(),
                all == value_models(values@),
                run_keys_in_range(all, start as int, j as int, key_count as nat),
            decreases end - j,
        {
            if values[j].key_index >= key_count {
                assert(all[j as int].key_index == values@[j as int].key_index);
                assert(!run_keys_in_range(all, start as int, end as int, key_count as nat));
                assert(!object_in_range(objects@[i as int], key_count as nat, class_count as nat, all));
                return false;
            }
            assert(all[j as int].key_index == values@[j as int].key_index);
            j = j + 1;
        }
        assert(object_in_range(objects@[i as int], key_count as nat, class_count as nat, all));
        i = i + 1;
    }
    true
}

/// Whether `data` is a NIBArchive that `parse_nib_archive` can read (see
/// `nib_archive_well_formed`).
pub fn nib_archive_is_well_formed(data: &[u8]) -> (ok: bool)
    ensures
        ok == nib_archive_well_formed(data@),
{
    if data.len() < 50 || !is_nib_archive(data) {
        return false;
    }
    let header = parse_header(data);
    if !key_table_fits(data, header.key_offset, header.key_count) || !class_table_fits(
        data,
        header.class_offset,
        header.class_count,
    ) || !object_table_fits(data, header.object_offset, header.object_count)
        || !value_table_fits(data, header.value_offset, header.value_count) {
        return false;
    }
    let objects = parse_objects(data, &header);
    let all_values = parse_values(data, &header);
    references_ok(header.key_count, header.class_count, &objects, &all_values)
}

} // verus!
