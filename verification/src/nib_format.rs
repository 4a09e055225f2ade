//! The NIBArchive container: header, key table, class table, object table
//! and value table.
//!
//! Layout: the ten-byte magic `NIBArchive`, then at offset 18 eight
//! little-endian `u32` words giving the count and offset of the objects,
//! keys, values and classes, in that order. Each table is a run of entries
//! read one after another from its offset.

use vstd::prelude::*;
use crate::bytes::{
    le_u16, le_u32, le_u64, read_i16_le, read_i32_le, read_i64_le, read_u32_le, read_u64_le,
    read_varint, twos_complement, varint_end, varint_value,
};
use crate::text::{lossy_utf8, strip_nul, strip_nul_suffix, utf8_lossy};
use vstd::utf8::{decode_utf8, valid_utf8};

verus! {

/// The magic bytes that open every NIBArchive file.
pub open spec fn magic() -> Seq<u8> {
    seq![78u8, 73u8, 66u8, 65u8, 114u8, 99u8, 104u8, 105u8, 118u8, 101u8]
}

/// Whether `data` is a NIBArchive: longer than the magic, and starting with it.
pub fn is_nib_archive(data: &[u8]) -> (b: bool)
    ensures
        b == (data@.len() > 10 && data@.subrange(0, 10) == magic()),
{
    if data.len() <= 10 {
        return false;
    }
    let expected: [u8; 10] = [78, 73, 66, 65, 114, 99, 104, 105, 118, 101];
    let mut i: usize = 0;
    while i < 10
        invariant
            i <= 10,
            data@.len() > 10,
            expected@ == magic(),
            forall|j: int| 0 <= j < i ==> data@[j] == magic()[j],
        decreases 10 - i,
    {
        if data[i] != expected[i] {
            assert(data@.subrange(0, 10)[i as int] != magic()[i as int]);
            return false;
        }
        i = i + 1;
    }
    assert(data@.subrange(0, 10) =~= magic());
    true
}

/// Counts and offsets of the four tables.
#[derive(Clone, Copy, Debug, PartialEq, Eq, Structural)]
pub struct NibHeader {
    pub object_count: u32,
    pub object_offset: u32,
    pub key_count: u32,
    pub key_offset: u32,
    pub value_count: u32,
    pub value_offset: u32,
    pub class_count: u32,
    pub class_offset: u32,
}

/// An object: its class, and the run of values that holds its fields.
#[derive(Clone, Copy, Debug, PartialEq, Eq, Structural)]
pub struct NibObject {
    pub class_index: u32,
    pub values_index: u32,
    pub values_count: u32,
}

/// The payload of a value. `Float` and `Double` hold the IEEE-754 bit
/// patterns of the stored `f32` and `f64`.
#[derive(Debug, PartialEq)]
pub enum NibPayload {
    Int8(i8),
    Int16(i16),
    Int32(i32),
    Int64(i64),
    True,
    False,
    Float(u32),
    Double(u64),
    Data(Vec<u8>),
    Nil,
    ObjectRef(u32),
}

/// A value: the key it is stored under, its type byte and its payload.
#[derive(Debug, PartialEq)]
pub struct NibValue {
    pub key_index: u32,
    pub value_type: u8,
    pub payload: NibPayload,
}

/// Mathematical form of a `NibPayload`.
pub enum PayloadModel {
    Int8(i8),
    Int16(i16),
    Int32(i32),
    Int64(i64),
    True,
    False,
    Float(u32),
    Double(u64),
    Data(Seq<u8>),
    Nil,
    ObjectRef(u32),
}

/// Mathematical form of a `NibValue`.
pub struct ValueModel {
    pub key_index: u32,
    pub value_type: u8,
    pub payload: PayloadModel,
}

impl View for NibPayload {
    type V = PayloadModel;

    open spec fn view(&self) -> PayloadModel {
        match self {
            NibPayload::Int8(v) => PayloadModel::Int8(*v),
            NibPayload::Int16(v) => PayloadModel::Int16(*v),
            NibPayload::Int32(v) => PayloadModel::Int32(*v),
            NibPayload::Int64(v) => PayloadModel::Int64(*v),
            NibPayload::True => PayloadModel::True,
            NibPayload::False => PayloadModel::False,
            NibPayload::Float(b) => PayloadModel::Float(*b),
            NibPayload::Double(b) => PayloadModel::Double(*b),
            NibPayload::Data(d) => PayloadModel::Data(d@),
            NibPayload::Nil => PayloadModel::Nil,
            NibPayload::ObjectRef(i) => PayloadModel::ObjectRef(*i),
        }
    }
}

impl View for NibValue {
    type V = ValueModel;

    open spec fn view(&self) -> ValueModel {
        ValueModel { key_index: self.key_index, value_type: self.value_type, payload: self.payload@ }
    }
}

/// The views of a sequence of values.
pub open spec fn value_models(vs: Seq<NibValue>) -> Seq<ValueModel> {
    vs.map_values(|v: NibValue| v@)
}

/// The views of a sequence of strings.
pub open spec fn string_models(ss: Seq<String>) -> Seq<Seq<char>> {
    ss.map_values(|s: String| s@)
}

/// The header words of `s` (meaningful where `s` has at least 50 bytes).
pub open spec fn spec_header(s: Seq<u8>) -> NibHeader {
    NibHeader {
        object_count: le_u32(s, 18) as u32,
        object_offset: le_u32(s, 22) as u32,
        key_count: le_u32(s, 26) as u32,
        key_offset: le_u32(s, 30) as u32,
        value_count: le_u32(s, 34) as u32,
        value_offset: le_u32(s, 38) as u32,
        class_count: le_u32(s, 42) as u32,
        class_offset: le_u32(s, 46) as u32,
    }
}

// ---------------------------------------------------------------------
// Entries of each table, as byte spans and values, with the position just
// past the entry; `None` where the entry runs out of the data.

/// A key: a varint length, then that many bytes of name.
pub open spec fn key_entry(s: Seq<u8>, p: int) -> Option<((int, int), int)> {
    match varint_end(s, p) {
        Some(e) => {
            let end = e + varint_value(s, p, e);
            if end <= s.len() {
                Some(((e, end), end))
            } else {
                None
            }
        },
        None => None,
    }
}

/// A class: a varint name length, a varint count of four-byte fallback
/// class indices, the fallbacks, then the name.
pub open spec fn class_entry(s: Seq<u8>, p: int) -> Option<((int, int), int)> {
    match varint_end(s, p) {
        Some(e1) => match varint_end(s, e1) {
            Some(e2) => {
                let start = e2 + 4 * varint_value(s, e1, e2);
                let end = start + varint_value(s, p, e1);
                if end <= s.len() {
                    Some(((start, end), end))
                } else {
                    None
                }
            },
            None => None,
        },
        None => None,
    }
}

/// An object: three varints, its class index, first value index and value count.
pub open spec fn object_entry(s: Seq<u8>, p: int) -> Option<(NibObject, int)> {
    match varint_end(s, p) {
        Some(e1) => match varint_end(s, e1) {
            Some(e2) => match varint_end(s, e2) {
                Some(e3) => Some(
                    (
                        NibObject {
                            class_index: varint_value(s, p, e1),
                            values_index: varint_value(s, e1, e2),
                            values_count: varint_value(s, e2, e3),
                        },
                        e3,
                    ),
                ),
                None => None,
            },
            None => None,
        },
        None => None,
    }
}

/// The payload of type `ty` stored at `p`. Unknown types carry no bytes and read as `Nil`.
pub open spec fn payload_entry(s: Seq<u8>, ty: u8, p: int) -> Option<(PayloadModel, int)> {
    if ty == 0 {
        if p + 1 <= s.len() {
            Some((PayloadModel::Int8(twos_complement(s[p] as int, 256) as i8), p + 1))
        } else {
            None
        }
    } else if ty == 1 {
        if p + 2 <= s.len() {
            Some((PayloadModel::Int16(twos_complement(le_u16(s, p), 65536) as i16), p + 2))
        } else {
            None
        }
    } else if ty == 2 {
        if p + 4 <= s.len() {
            Some((PayloadModel::Int32(twos_complement(le_u32(s, p), 4294967296) as i32), p + 4))
        } else {
            None
        }
    } else if ty == 3 {
        if p + 8 <= s.len() {
            Some(
                (
                    PayloadModel::Int64(
                        twos_complement(le_u64(s, p), 18446744073709551616) as i64,
                    ),
                    p + 8,
                ),
            )
        } else {
            None
        }
    } else if ty == 4 {
        Some((PayloadModel::True, p))
    } else if ty == 5 {
        Some((PayloadModel::False, p))
    } else if ty == 6 {
        if p + 4 <= s.len() {
            Some((PayloadModel::Float(le_u32(s, p) as u32), p + 4))
        } else {
            None
        }
    } else if ty == 7 {
        if p + 8 <= s.len() {
            Some((PayloadModel::Double(le_u64(s, p) as u64), p + 8))
        } else {
            None
        }
    } else if ty == 8 {
        match varint_end(s, p) {
            Some(e) => {
                let end = e + varint_value(s, p, e);
                if end <= s.len() {
                    Some((PayloadModel::Data(s.subrange(e, end)), end))
                } else {
                    None
                }
            },
            None => None,
        }
    } else if ty == 10 {
        if p + 4 <= s.len() {
            Some((PayloadModel::ObjectRef(le_u32(s, p) as u32), p + 4))
        } else {
            None
        }
    } else {
        Some((PayloadModel::Nil, p))
    }
}

/// A value: a varint key index, a type byte, then the payload.
pub open spec fn value_entry(s: Seq<u8>, p: int) -> Option<(ValueModel, int)> {
    match varint_end(s, p) {
        Some(e) => if e < s.len() {
            match payload_entry(s, s[e], e + 1) {
                Some((payload, end)) => Some(
                    (
                        ValueModel {
                            key_index: varint_value(s, p, e),
                            value_type: s[e],
                            payload,
                        },
                        end,
                    ),
                ),
                None => None,
            }
        } else {
            None
        },
        None => None,
    }
}

// ---------------------------------------------------------------------
// Tables: `n` entries read one after another from `p`.

pub open spec fn key_table(s: Seq<u8>, p: int, n: nat) -> Option<(Seq<(int, int)>, int)>
    decreases n,
{
    if n == 0 {
        Some((Seq::empty(), p))
    } else {
        match key_table(s, p, (n - 1) as nat) {
            Some((es, q)) => match key_entry(s, q) {
                Some((x, r)) => Some((es.push(x), r)),
                None => None,
            },
            None => None,
        }
    }
}

pub open spec fn class_table(s: Seq<u8>, p: int, n: nat) -> Option<(Seq<(int, int)>, int)>
    decreases n,
{
    if n == 0 {
        Some((Seq::empty(), p))
    } else {
        match class_table(s, p, (n - 1) as nat) {
            Some((es, q)) => match class_entry(s, q) {
                Some((x, r)) => Some((es.push(x), r)),
                None => None,
            },
            None => None,
        }
    }
}

pub open spec fn object_table(s: Seq<u8>, p: int, n: nat) -> Option<(Seq<NibObject>, int)>
    decreases n,
{
    if n == 0 {
        Some((Seq::empty(), p))
    } else {
        match object_table(s, p, (n - 1) as nat) {
            Some((es, q)) => match object_entry(s, q) {
                Some((x, r)) => Some((es.push(x), r)),
                None => None,
            },
            None => None,
        }
    }
}

pub open spec fn value_table(s: Seq<u8>, p: int, n: nat) -> Option<(Seq<ValueModel>, int)>
    decreases n,
{
    if n == 0 {
        Some((Seq::empty(), p))
    } else {
        match value_table(s, p, (n - 1) as nat) {
            Some((es, q)) => match value_entry(s, q) {
                Some((x, r)) => Some((es.push(x), r)),
                None => None,
            },
            None => None,
        }
    }
}

pub(crate) proof fn lemma_key_table_prefix(s: Seq<u8>, p: int, n: nat, m: nat)
    requires
        m <= n,
        key_table(s, p, n) is Some,
    ensures
        key_table(s, p, m) is Some,
        key_table(s, p, n).unwrap().0.len() == n,
    decreases n,
{
    if n > 0 {
        lemma_key_table_prefix(s, p, (n - 1) as nat, if m < n { m } else { (n - 1) as nat });
    }
}

pub(crate) proof fn lemma_class_table_prefix(s: Seq<u8>, p: int, n: nat, m: nat)
    requires
        m <= n,
        class_table(s, p, n) is Some,
    ensures
        class_table(s, p, m) is Some,
        class_table(s, p, n).unwrap().0.len() == n,
    decreases n,
{
    if n > 0 {
        lemma_class_table_prefix(s, p, (n - 1) as nat, if m < n { m } else { (n - 1) as nat });
    }
}

pub(crate) proof fn lemma_object_table_prefix(s: Seq<u8>, p: int, n: nat, m: nat)
    requires
        m <= n,
        object_table(s, p, n) is Some,
    ensures
        object_table(s, p, m) is Some,
        object_table(s, p, n).unwrap().0.len() == n,
    decreases n,
{
    if n > 0 {
        lemma_object_table_prefix(s, p, (n - 1) as nat, if m < n { m } else { (n - 1) as nat });
    }
}

pub(crate) proof fn lemma_value_table_prefix(s: Seq<u8>, p: int, n: nat, m: nat)
    requires
        m <= n,
        value_table(s, p, n) is Some,
    ensures
        value_table(s, p, m) is Some,
        value_table(s, p, n).unwrap().0.len() == n,
    decreases n,
{
    if n > 0 {
        lemma_value_table_prefix(s, p, (n - 1) as nat, if m < n { m } else { (n - 1) as nat });
    }
}

/// The text of the name stored in `span`: its bytes without one trailing
/// zero, decoded as UTF-8 with replacement.
pub open spec fn name_text(s: Seq<u8>, span: (int, int)) -> Seq<char> {
    lossy_utf8(name_bytes(s, span))
}

/// The bytes of the name stored in `span`, without one trailing zero.
pub open spec fn name_bytes(s: Seq<u8>, span: (int, int)) -> Seq<u8> {
    strip_nul_suffix(s.subrange(span.0, span.1))
}

/// Each name whose bytes are valid UTF-8 is the text those bytes encode.
pub open spec fn names_decoded(s: Seq<u8>, spans: Seq<(int, int)>, names: Seq<Seq<char>>) -> bool {
    forall|i: int|
        0 <= i < names.len() && valid_utf8(name_bytes(s, spans[i])) ==> #[trigger] names[i]
            == decode_utf8(name_bytes(s, spans[i]))
}

/// The names stored in `spans`.
pub open spec fn name_texts(s: Seq<u8>, spans: Seq<(int, int)>) -> Seq<Seq<char>> {
    spans.map_values(|sp: (int, int)| name_text(s, sp))
}

/// Reads the header words.
pub fn parse_header(data: &[u8]) -> (h: NibHeader)
    requires
        data@.len() >= 50,
    ensures
        h == spec_header(data@),
{
    NibHeader {
        object_count: read_u32_le(data, 18),
        object_offset: read_u32_le(data, 22),
        key_count: read_u32_le(data, 26),
        key_offset: read_u32_le(data, 30),
        value_count: read_u32_le(data, 34),
        value_offset: read_u32_le(data, 38),
        class_count: read_u32_le(data, 42),
        class_offset: read_u32_le(data, 46),
    }
}

/// Reads the key table.
pub fn parse_keys(data: &[u8], header: &NibHeader) -> (keys: Vec<String>)
    requires
        key_table(data@, header.key_offset as int, header.key_count as nat) is Some,
    ensures
        string_models(keys@) == name_texts(
            data@,
            key_table(data@, header.key_offset as int, header.key_count as nat).unwrap().0,
        ),
        names_decoded(
            data@,
            key_table(data@, header.key_offset as int, header.key_count as nat).unwrap().0,
            string_models(keys@),
        ),
{
    let ghost s = data@;
    let ghost off = header.key_offset as int;
    let dlen = data.len();
    let mut pos = header.key_offset as usize;
    let mut keys: Vec<String> = Vec::with_capacity(header.key_count as usize);
    let mut k: u32 = 0;
    while k < header.key_count
        invariant
            k <= header.key_count,
            s == data@,
            dlen == data@.len(),
            off == header.key_offset as int,
            key_table(s, off, header.key_count as nat) is Some,
            key_table(s, off, k as nat) is Some,
            key_table(s, off, k as nat).unwrap().1 == pos as int,
            string_models(keys@) == name_texts(s, key_table(s, off, k as nat).unwrap().0),
            names_decoded(s, key_table(s, off, k as nat).unwrap().0, string_models(keys@)),
        decreases header.key_count - k,
    {
        proof {
            lemma_key_table_prefix(s, off, header.key_count as nat, (k + 1) as nat);
        }
        let ghost prev = key_table(s, off, k as nat).unwrap().0;
        let ghost span = key_entry(s, pos as int).unwrap().0;
        let length = read_varint(data, &mut pos) as usize;
        let raw = vstd::slice::slice_subrange(data, pos, pos + length);
        let trimmed = strip_nul(raw);
        let name = utf8_lossy(trimmed);
        assert(name@ == name_text(s, span));
        pos = pos + length;
        let ghost before = keys@;
        keys.push(name);
        k = k + 1;
        proof {
            assert(string_models(keys@) =~= string_models(before).push(name_text(s, span)));
            let cur = key_table(s, off, k as nat).unwrap().0;
            assert(cur == prev.push(span));
            assert(string_models(keys@) =~= name_texts(s, cur));
            assert forall|j: int|
                0 <= j < string_models(keys@).len() && valid_utf8(name_bytes(s, cur[j])) implies
                #[trigger] string_models(keys@)[j] == decode_utf8(name_bytes(s, cur[j])) by {
                if j < prev.len() {
                    assert(cur[j] == prev[j]);
                    assert(string_models(before)[j] == string_models(keys@)[j]);
                }
            }
        }
    }
    keys
}

/// Reads the class table.
pub fn parse_class_names(data: &[u8], header: &NibHeader) -> (classes: Vec<String>)
    requires
        class_table(data@, header.class_offset as int, header.class_count as nat) is Some,
    ensures
        string_models(classes@) == name_texts(
            data@,
            class_table(data@, header.class_offset as int, header.class_count as nat).unwrap().0,
        ),
        names_decoded(
            data@,
            class_table(data@, header.class_offset as int, header.class_count as nat).unwrap().0,
            string_models(classes@),
        ),
{
    let ghost s = data@;
    let ghost off = header.class_offset as int;
    let dlen = data.len();
    let mut pos = header.class_offset as usize;
    let mut classes: Vec<String> = Vec::with_capacity(header.class_count as usize);
    let mut k: u32 = 0;
    while k < header.class_count
        invariant
            k <= header.class_count,
            s == data@,
            dlen == data@.len(),
            off == header.class_offset as int,
            class_table(s, off, header.class_count as nat) is Some,
            class_table(s, off, k as nat) is Some,
            class_table(s, off, k as nat).unwrap().1 == pos as int,
            string_models(classes@) == name_texts(s, class_table(s, off, k as nat).unwrap().0),
            names_decoded(s, class_table(s, off, k as nat).unwrap().0, string_models(classes@)),
        decreases header.class_count - k,
    {
        proof {
            lemma_class_table_prefix(s, off, header.class_count as nat, (k + 1) as nat);
        }
        let ghost prev = class_table(s, off, k as nat).unwrap().0;
        let ghost span = class_entry(s, pos as int).unwrap().0;
        let name_length = read_varint(data, &mut pos) as usize;
        let fallback_count = read_varint(data, &mut pos) as usize;
        pos = pos + fallback_count * 4;
        let raw = vstd::slice::slice_subrange(data, pos, pos + name_length);
        let trimmed = strip_nul(raw);
        let name = utf8_lossy(trimmed);
        assert(name@ == name_text(s, span));
        pos = pos + name_length;
        let ghost before = classes@;
        classes.push(name);
        k = k + 1;
        proof {
            assert(string_models(classes@) =~= string_models(before).push(name_text(s, span)));
            let cur = class_table(s, off, k as nat).unwrap().0;
            assert(cur == prev.push(span));
            assert(string_models(classes@) =~= name_texts(s, cur));
            assert forall|j: int|
                0 <= j < string_models(classes@).len() && valid_utf8(name_bytes(s, cur[j])) implies
                #[trigger] string_models(classes@)[j] == decode_utf8(name_bytes(s, cur[j])) by {
                if j < prev.len() {
                    assert(cur[j] == prev[j]);
                    assert(string_models(before)[j] == string_models(classes@)[j]);
                }
            }
        }
    }
    classes
}

/// Reads the object table.
pub fn parse_objects(data: &[u8], header: &NibHeader) -> (objects: Vec<NibObject>)
    requires
        object_table(data@, header.object_offset as int, header.object_count as nat) is Some,
    ensures
        objects@ == object_table(
            data@,
            header.object_offset as int,
            header.object_count as nat,
        ).unwrap().0,
{
    let ghost s = data@;
    let ghost off = header.object_offset as int;
    let dlen = data.len();
    let mut pos = header.object_offset as usize;
    let mut objects: Vec<NibObject> = Vec::with_capacity(header.object_count as usize);
    let mut k: u32 = 0;
    while k < header.object_count
        invariant
            k <= header.object_count,
            s == data@,
            dlen == data@.len(),
            off == header.object_offset as int,
            object_table(s, off, header.object_count as nat) is Some,
            object_table(s, off, k as nat) is Some,
            object_table(s, off, k as nat).unwrap().1 == pos as int,
            objects@ == object_table(s, off, k as nat).unwrap().0,
        decreases header.object_count - k,
    {
        proof {
            lemma_object_table_prefix(s, off, header.object_count as nat, (k + 1) as nat);
        }
        let class_index = read_varint(data, &mut pos);
        let values_index = read_varint(data, &mut pos);
        let values_count = read_varint(data, &mut pos);
        objects.push(NibObject { class_index, values_index, values_count });
        k = k + 1;
    }
    objects
}

/// Reads the payload of type `value_type` at `*pos` and moves `*pos` past it.
pub(crate) fn parse_payload(data: &[u8], value_type: u8, pos: &mut usize) -> (payload: NibPayload)
    requires
        payload_entry(data@, value_type, *old(pos) as int) is Some,
    ensures
        payload_entry(data@, value_type, *old(pos) as int) == Some(
            (payload@, *final(pos) as int),
        ),
{
    // The data's length is a `usize`, so no position within it overflows.
    let len = data.len();
    assert(data@.len() == len);
    match value_type {
        0 => {
            let b = data[*pos];
            *pos = *pos + 1;
            let v: i8 = if b >= 128 {
                (b as i16 - 256) as i8
            } else {
                b as i8
            };
            NibPayload::Int8(v)
        },
        1 => {
            let v = read_i16_le(data, *pos);
            *pos = *pos + 2;
            NibPayload::Int16(v)
        },
        2 => {
            let v = read_i32_le(data, *pos);
            *pos = *pos + 4;
            NibPayload::Int32(v)
        },
        3 => {
            let v = read_i64_le(data, *pos);
            *pos = *pos + 8;
            NibPayload::Int64(v)
        },
        4 => NibPayload::True,
        5 => NibPayload::False,
        6 => {
            let v = read_u32_le(data, *pos);
            *pos = *pos + 4;
            NibPayload::Float(v)
        },
        7 => {
            let v = read_u64_le(data, *pos);
            *pos = *pos + 8;
            NibPayload::Double(v)
        },
        8 => {
            let length = read_varint(data, pos) as usize;
            let d = vstd::slice::slice_to_vec(vstd::slice::slice_subrange(data, *pos, *pos + length));
            *pos = *pos + length;
            NibPayload::Data(d)
        },
        9 => NibPayload::Nil,
        10 => {
            let idx = read_u32_le(data, *pos);
            *pos = *pos + 4;
            NibPayload::ObjectRef(idx)
        },
        _ => NibPayload::Nil,
    }
}

/// Reads the value table.
pub fn parse_values(data: &[u8], header: &NibHeader) -> (values: Vec<NibValue>)
    requires
        value_table(data@, header.value_offset as int, header.value_count as nat) is Some,
    ensures
        value_models(values@) == value_table(
            data@,
            header.value_offset as int,
            header.value_count as nat,
        ).unwrap().0,
{
    let ghost s = data@;
    let ghost off = header.value_offset as int;
    let dlen = data.len();
    let mut pos = header.value_offset as usize;
    let mut values: Vec<NibValue> = Vec::with_capacity(header.value_count as usize);
    let mut k: u32 = 0;
    while k < header.value_count
        invariant
            k <= header.value_count,
            s == data@,
            dlen == data@.len(),
            off == header.value_offset as int,
            value_table(s, off, header.value_count as nat) is Some,
            value_table(s, off, k as nat) is Some,
            value_table(s, off, k as nat).unwrap().1 == pos as int,
            value_models(values@) == value_table(s, off, k as nat).unwrap().0,
        decreases header.value_count - k,
    {
        proof {
            lemma_value_table_prefix(s, off, header.value_count as nat, (k + 1) as nat);
        }
        let ghost prev = value_table(s, off, k as nat).unwrap().0;
        let ghost entry = value_entry(s, pos as int).unwrap().0;
        let key_index = read_varint(data, &mut pos);
        let value_type = data[pos];
        pos = pos + 1;
        let payload = parse_payload(data, value_type, &mut pos);
        values.push(NibValue { key_index, value_type, payload });
        k = k + 1;
        proof {
            let cur = value_table(s, off, k as nat).unwrap().0;
            assert(cur == prev.push(entry));
            assert(value_models(values@) =~= cur);
        }
    }
    values
}

} // verus!
