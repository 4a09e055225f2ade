//! The property-list values that an NSKeyedArchiver archive is made of, and
//! an insertion-ordered dictionary of them.
//!
//! Reals are held as the IEEE-754 bit patterns they were stored with, and
//! geometry strings (`{{x, y}, {w, h}}`) as the bit patterns of their
//! components: formatting them as decimal text is left to the caller.

use vstd::prelude::*;

verus! {

/// A property-list value that holds no other values.
#[derive(Debug, PartialEq)]
pub enum Scalar {
    String(String),
    Integer(i64),
    Boolean(bool),
    /// A real stored as an `f32`, by its bit pattern.
    Float(u32),
    /// A real stored as an `f64`, by its bit pattern.
    Double(u64),
    Data(Vec<u8>),
    Uid(u64),
}

/// Mathematical form of a `Scalar`.
pub enum ScalarModel {
    String(Seq<char>),
    Integer(i64),
    Boolean(bool),
    Float(u32),
    Double(u64),
    Data(Seq<u8>),
    Uid(u64),
}

impl View for Scalar {
    type V = ScalarModel;

    open spec fn view(&self) -> ScalarModel {
        match self {
            Scalar::String(s) => ScalarModel::String(s@),
            Scalar::Integer(i) => ScalarModel::Integer(*i),
            Scalar::Boolean(b) => ScalarModel::Boolean(*b),
            Scalar::Float(b) => ScalarModel::Float(*b),
            Scalar::Double(b) => ScalarModel::Double(*b),
            Scalar::Data(d) => ScalarModel::Data(d@),
            Scalar::Uid(u) => ScalarModel::Uid(*u),
        }
    }
}

/// The views of a sequence of scalars.
pub open spec fn scalar_models(v: Seq<Scalar>) -> Seq<ScalarModel> {
    v.map_values(|x: Scalar| x@)
}

/// The value of a dictionary entry inside an archived object: a scalar, or
/// an array of scalars.
#[derive(Debug, PartialEq)]
pub enum Field {
    Scalar(Scalar),
    Array(Vec<Scalar>),
}

/// Mathematical form of a `Field`.
pub enum FieldModel {
    Scalar(ScalarModel),
    Array(Seq<ScalarModel>),
}

impl View for Field {
    type V = FieldModel;

    open spec fn view(&self) -> FieldModel {
        match self {
            Field::Scalar(s) => FieldModel::Scalar(s@),
            Field::Array(a) => FieldModel::Array(scalar_models(a@)),
        }
    }
}

/// A geometry string, by the `f32` bit patterns of its components:
/// `Rect(x, y, w, h)` reads `{{x, y}, {w, h}}`, `Pair(a, b)` reads `{a, b}`.
#[derive(Clone, Copy, Debug, PartialEq, Eq, Structural)]
pub enum Geometry {
    Rect(u32, u32, u32, u32),
    Pair(u32, u32),
}

/// Mathematical form of a dictionary: its entries in insertion order.
pub type DictModel<M> = Seq<(Seq<char>, M)>;

/// Position of the first entry keyed `k`, or the length where there is none.
pub open spec fn first_index<K, V>(e: Seq<(K, V)>, k: K) -> int
    decreases e.len(),
{
    if e.len() == 0 {
        0
    } else if e[0].0 == k {
        0
    } else {
        1 + first_index(e.drop_first(), k)
    }
}

/// Whether some entry is keyed `k`.
pub open spec fn has_key<K, V>(e: Seq<(K, V)>, k: K) -> bool {
    exists|i: int| 0 <= i < e.len() && #[trigger] e[i].0 == k
}

/// Inserting into an insertion-ordered map: an existing key keeps its place
/// and takes the new value, a new key goes at the end.
pub open spec fn dict_insert<K, V>(e: Seq<(K, V)>, k: K, v: V) -> Seq<(K, V)> {
    if first_index(e, k) < e.len() {
        e.update(first_index(e, k), (k, v))
    } else {
        e.push((k, v))
    }
}

/// The value stored under `k`, if any.
pub open spec fn dict_get<K, V>(e: Seq<(K, V)>, k: K) -> Option<V> {
    if first_index(e, k) < e.len() {
        Some(e[first_index(e, k)].1)
    } else {
        None
    }
}

/// No key occurs twice.
pub open spec fn keys_unique<K, V>(e: Seq<(K, V)>) -> bool {
    forall|i: int, j: int| 0 <= i < j < e.len() ==> #[trigger] e[i].0 != #[trigger] e[j].0
}

/// `first_index` is the least index holding `k`, or the length.
pub proof fn lemma_first_index<K, V>(e: Seq<(K, V)>, k: K)
    ensures
        0 <= first_index(e, k) <= e.len(),
        first_index(e, k) < e.len() ==> e[first_index(e, k)].0 == k,
        forall|j: int| 0 <= j < first_index(e, k) ==> e[j].0 != k,
        first_index(e, k) == e.len() <==> !has_key(e, k),
    decreases e.len(),
{
    if e.len() > 0 && e[0].0 != k {
        lemma_first_index(e.drop_first(), k);
        assert forall|j: int| 0 <= j < first_index(e, k) implies e[j].0 != k by {
            if j > 0 {
                assert(e[j] == e.drop_first()[j - 1]);
            }
        }
        if has_key(e, k) {
            let i = choose|i: int| 0 <= i < e.len() && #[trigger] e[i].0 == k;
            assert(e.drop_first()[i - 1].0 == k);
        }
        if has_key(e.drop_first(), k) {
            let i = choose|i: int| 0 <= i < e.drop_first().len() && #[trigger] e.drop_first()[i].0 == k;
            assert(e[i + 1].0 == k);
        }
    } else if e.len() > 0 {
        assert(e[0].0 == k);
    }
}

/// The first index is pinned down by the entries before it.
pub proof fn lemma_first_index_at<K, V>(e: Seq<(K, V)>, k: K, i: int)
    requires
        0 <= i <= e.len(),
        forall|j: int| 0 <= j < i ==> e[j].0 != k,
        i < e.len() ==> e[i].0 == k,
    ensures
        first_index(e, k) == i,
{
    lemma_first_index(e, k);
    if first_index(e, k) < i {
        assert(e[first_index(e, k)].0 == k);
    }
    if i < first_index(e, k) {
        assert(e[i].0 != k);
    }
}

/// What a read gives back after a write: the value just inserted under
/// `k`, and for every other key what was there before.
pub proof fn lemma_dict_insert_get<K, V>(e: Seq<(K, V)>, k: K, v: V, k2: K)
    ensures
        dict_get(dict_insert(e, k, v), k) == Some(v),
        k2 != k ==> dict_get(dict_insert(e, k, v), k2) == dict_get(e, k2),
{
    let e2 = dict_insert(e, k, v);
    lemma_first_index(e, k);
    lemma_first_index(e, k2);
    let i = first_index(e, k);
    assert(forall|j: int| 0 <= j < i ==> e2[j].0 == e[j].0);
    lemma_first_index_at(e2, k, i);
    if k2 != k {
        let i2 = first_index(e, k2);
        if i2 < e.len() {
            assert(forall|j: int| 0 <= j < i2 ==> e2[j].0 != k2);
            lemma_first_index_at(e2, k2, i2);
        } else {
            assert(forall|j: int| 0 <= j < e2.len() ==> e2[j].0 != k2);
            lemma_first_index_at(e2, k2, e2.len() as int);
        }
    }
}

/// Inserting keeps keys unique, keeps every existing key in its place, and
/// grows the dictionary by one exactly when the key is new.
pub proof fn lemma_dict_insert_shape<K, V>(e: Seq<(K, V)>, k: K, v: V)
    ensures
        forall|j: int|
            0 <= j < dict_insert(e, k, v).len() ==> #[trigger] dict_insert(e, k, v)[j] == (k, v)
                || (j < e.len() && dict_insert(e, k, v)[j] == e[j]),
        keys_unique(e) ==> keys_unique(dict_insert(e, k, v)),
        has_key(e, k) ==> dict_insert(e, k, v).len() == e.len(),
        !has_key(e, k) ==> dict_insert(e, k, v).len() == e.len() + 1,
        forall|j: int| 0 <= j < e.len() ==> #[trigger] dict_insert(e, k, v)[j].0 == e[j].0,
        has_key(dict_insert(e, k, v), k),
{
    lemma_first_index(e, k);
    let e2 = dict_insert(e, k, v);
    let i = first_index(e, k);
    if i < e.len() {
        assert(e2[i].0 == k);
    } else {
        assert(e2[e.len() as int].0 == k);
        if keys_unique(e) {
            assert forall|a: int, b: int| 0 <= a < b < e2.len() implies #[trigger] e2[a].0
                != #[trigger] e2[b].0 by {
                if b == e.len() {
                    assert(e[a].0 != k);
                }
            }
        }
    }
}

/// An insertion-ordered dictionary from strings to `V`, with the insertion
/// semantics of a plist dictionary: an existing key keeps its place and
/// takes the new value, a new key goes at the end.
///
/// `plist::Dictionary` holds `plist::Value`s, whose reals are `f64`; this
/// library keeps reals as bit patterns and has no floating point, so it
/// holds its values in a dictionary of its own, converted afterwards.
#[derive(Debug, PartialEq)]
pub struct Dict<V: View> {
    entries: Vec<(String, V)>,
}

/// The views of the entries of a dictionary.
pub open spec fn entry_models<V: View>(e: Seq<(String, V)>) -> DictModel<V::V> {
    e.map_values(|x: (String, V)| (x.0@, x.1@))
}

impl<V: View> View for Dict<V> {
    type V = DictModel<V::V>;

    closed spec fn view(&self) -> DictModel<V::V> {
        entry_models(self.entries@)
    }
}

impl<V: View> Dict<V> {
    /// No key occurs twice.
    #[verifier::type_invariant]
    closed spec fn keys_distinct(self) -> bool {
        keys_unique(entry_models(self.entries@))
    }

    /// An empty dictionary.
    pub fn new() -> (d: Self)
        ensures
            d@ == Seq::<(Seq<char>, V::V)>::empty(),
    {
        let d = Dict { entries: Vec::new() };
        assert(d@ =~= Seq::<(Seq<char>, V::V)>::empty());
        d
    }

    /// Inserts `value` under `key` (see `dict_insert`). Keys stay distinct.
    pub fn insert(&mut self, key: String, value: V)
        ensures
            final(self)@ == dict_insert(old(self)@, key@, value@),
            keys_unique(final(self)@),
    {
        proof {
            use_type_invariant(&*self);
        }
        let ghost e = self@;
        let ghost kv = key@;
        let mut entries: Vec<(String, V)> = Vec::new();
        std::mem::swap(&mut entries, &mut self.entries);
        assert(entry_models(entries@) == e);
        proof {
            lemma_dict_insert_shape(e, kv, value@);
        }
        let n = entries.len();
        let mut i: usize = 0;
        let mut found = false;
        while i < n
            invariant_except_break
                !found,
            invariant
                n == entries@.len(),
                entry_models(entries@) == e,
                kv == key@,
                i <= n,
                forall|j: int| 0 <= j < i ==> e[j].0 != kv,
            ensures
                entry_models(entries@) == e,
                found ==> i < n && e[i as int].0 == kv,
                !found ==> i == n,
                forall|j: int| 0 <= j < i ==> e[j].0 != kv,
            decreases n - i,
        {
            assert(e[i as int].0 == entries@[i as int].0@);
            if crate::text::same_text(&entries[i].0, &key) {
                found = true;
                break;
            }
            i = i + 1;
        }
        proof {
            lemma_first_index_at(e, kv, i as int);
        }
        if found {
            entries[i] = (key, value);
        } else {
            entries.push((key, value));
        }
        assert(entry_models(entries@) =~= dict_insert(e, kv, value@));
        self.entries = entries;
    }

    /// The entries, in insertion order; no key occurs twice.
    pub fn entries(&self) -> (e: &Vec<(String, V)>)
        ensures
            entry_models(e@) == self@,
            keys_unique(self@),
    {
        proof {
            use_type_invariant(self);
        }
        &self.entries
    }

    /// Gives up the entries, in insertion order; no key occurs twice.
    pub fn into_entries(self) -> (e: Vec<(String, V)>)
        ensures
            entry_models(e@) == self@,
            keys_unique(self@),
    {
        proof {
            use_type_invariant(&self);
        }
        self.entries
    }
}

/// An entry of the `$objects` array of a keyed archive.
#[derive(Debug, PartialEq)]
pub enum ArchivedObject {
    String(String),
    Data(Vec<u8>),
    Dictionary(Dict<Field>),
    /// A geometry string (see `Geometry`).
    Geometry(Geometry),
}

/// Mathematical form of an `ArchivedObject`.
pub enum ObjectModel {
    String(Seq<char>),
    Data(Seq<u8>),
    Dictionary(DictModel<FieldModel>),
    Geometry(Geometry),
}

impl View for ArchivedObject {
    type V = ObjectModel;

    open spec fn view(&self) -> ObjectModel {
        match self {
            ArchivedObject::String(s) => ObjectModel::String(s@),
            ArchivedObject::Data(d) => ObjectModel::Data(d@),
            ArchivedObject::Dictionary(d) => ObjectModel::Dictionary(d@),
            ArchivedObject::Geometry(g) => ObjectModel::Geometry(*g),
        }
    }
}

/// The views of a sequence of archived objects.
pub open spec fn object_models(v: Seq<ArchivedObject>) -> Seq<ObjectModel> {
    v.map_values(|x: ArchivedObject| x@)
}

/// An NSKeyedArchiver archive: the `$archiver` name, the `$version`, the
/// `$top` dictionary and the `$objects` array.
#[derive(Debug, PartialEq)]
pub struct KeyedArchive {
    pub archiver: String,
    pub version: i64,
    pub top: Dict<Scalar>,
    pub objects: Vec<ArchivedObject>,
}

/// Mathematical form of a `KeyedArchive`.
pub struct ArchiveModel {
    pub archiver: Seq<char>,
    pub version: i64,
    pub top: DictModel<ScalarModel>,
    pub objects: Seq<ObjectModel>,
}

impl View for KeyedArchive {
    type V = ArchiveModel;

    open spec fn view(&self) -> ArchiveModel {
        ArchiveModel {
            archiver: self.archiver@,
            version: self.version,
            top: self.top@,
            objects: object_models(self.objects@),
        }
    }
}

} // verus!
