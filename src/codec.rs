use crate::types::FactorioVersion;
use vstd::bytes::*;
use vstd::prelude::*;
use vstd::slice::slice_subrange;
use vstd::utf8::*;

verus! {

/// Tag byte of a node without a value.
pub const TYPE_NONE: u8 = 0;

/// Tag byte of a boolean node.
pub const TYPE_BOOL: u8 = 1;

/// Tag byte of a double-precision number node.
pub const TYPE_DOUBLE: u8 = 2;

/// Tag byte of a string node.
pub const TYPE_STRING: u8 = 3;

/// Tag byte of a list node.
pub const TYPE_LIST: u8 = 4;

/// Tag byte of a dictionary node.
pub const TYPE_DICTIONARY: u8 = 5;

/// Tag byte of a signed 64-bit integer node (newer format revision only).
pub const TYPE_INTEGER: u8 = 6;

/// One node of the property tree.
#[derive(Debug)]
pub struct Property {
    /// Per-node flag of the format; its meaning is opaque and it is kept as read.
    pub any_flag: bool,
    pub value: PropertyValue,
}

/// The value of a node.
///
/// A double is held as its IEEE-754 bit pattern, so that every number,
/// NaN payloads included, is written back exactly as it was read.
/// A dictionary is a sequence of (key, node) pairs in wire order; the
/// decoder and [`dict_insert_entry`] keep its keys unique.
#[derive(Debug)]
pub enum PropertyValue {
    Empty,
    Bool(bool),
    Double(u64),
    String(String),
    List(Vec<Property>),
    Dictionary(Vec<(String, Property)>),
    Integer(i64),
}

impl PropertyValue {
    pub fn as_bool(&self) -> (r: Option<&bool>)
        ensures
            r is Some <==> self is Bool,
            r matches Some(b) ==> *b == self->Bool_0,
    {
        match self {
            PropertyValue::Bool(b) => Some(b),
            _ => None,
        }
    }

    /// The bit pattern of a double.
    pub fn as_double(&self) -> (r: Option<&u64>)
        ensures
            r is Some <==> self is Double,
            r matches Some(x) ==> *x == self->Double_0,
    {
        match self {
            PropertyValue::Double(x) => Some(x),
            _ => None,
        }
    }

    pub fn as_string(&self) -> (r: Option<&String>)
        ensures
            r is Some <==> self is String,
            r matches Some(s) ==> *s == self->String_0,
    {
        match self {
            PropertyValue::String(s) => Some(s),
            _ => None,
        }
    }

    pub fn as_list(&self) -> (r: Option<&Vec<Property>>)
        ensures
            r is Some <==> self is List,
            r matches Some(l) ==> *l == self->List_0,
    {
        match self {
            PropertyValue::List(l) => Some(l),
            _ => None,
        }
    }

    pub fn as_dictionary(&self) -> (r: Option<&Vec<(String, Property)>>)
        ensures
            r is Some <==> self is Dictionary,
            r matches Some(d) ==> *d == self->Dictionary_0,
    {
        match self {
            PropertyValue::Dictionary(d) => Some(d),
            _ => None,
        }
    }

    pub fn as_integer(&self) -> (r: Option<&i64>)
        ensures
            r is Some <==> self is Integer,
            r matches Some(i) ==> *i == self->Integer_0,
    {
        match self {
            PropertyValue::Integer(i) => Some(i),
            _ => None,
        }
    }
}

/// A format version paired with the root node of the tree.
#[derive(Debug)]
pub struct Settings {
    pub version: FactorioVersion,
    pub properties: Property,
}

/// Why a byte stream is not a settings file.
#[derive(Clone, Copy, Debug, PartialEq, Eq, Structural)]
pub enum DecodeError {
    /// The stream ended inside a field.
    Truncated,
    /// The reserved byte after the version header is not zero; it holds this value.
    InvalidHeaderByte(u8),
    /// A node carries this tag byte, which names no variant.
    UnknownTypeTag(u8),
    /// The bytes of a string are not UTF-8.
    InvalidUtf8,
}

// ---------------------------------------------------------------------------
// Mathematical model of the tree

/// The value of a node, with strings as character sequences.
pub enum ValueView {
    Empty,
    Bool(bool),
    Double(u64),
    String(Seq<char>),
    List(Seq<PropertyView>),
    Dictionary(Seq<(Seq<char>, PropertyView)>),
    Integer(i64),
}

/// A node of the tree, as a mathematical value.
pub struct PropertyView {
    pub any_flag: bool,
    pub value: ValueView,
}

/// A settings tree, as a mathematical value.
pub struct SettingsView {
    pub version: FactorioVersion,
    pub properties: PropertyView,
}

pub open spec fn property_view(p: &Property) -> PropertyView
    decreases p,
{
    PropertyView {
        any_flag: p.any_flag,
        value: match &p.value {
            PropertyValue::Empty => ValueView::Empty,
            PropertyValue::Bool(b) => ValueView::Bool(*b),
            PropertyValue::Double(bits) => ValueView::Double(*bits),
            PropertyValue::String(s) => ValueView::String(s@),
            PropertyValue::List(items) => ValueView::List(list_view(items@)),
            PropertyValue::Dictionary(entries) => ValueView::Dictionary(entries_view(entries@)),
            PropertyValue::Integer(i) => ValueView::Integer(*i),
        },
    }
}

pub open spec fn list_view(s: Seq<Property>) -> Seq<PropertyView>
    decreases s,
{
    if s.len() == 0 {
        seq![]
    } else {
        list_view(s.subrange(0, s.len() - 1)).push(property_view(&s[s.len() - 1]))
    }
}

pub open spec fn entries_view(s: Seq<(String, Property)>) -> Seq<(Seq<char>, PropertyView)>
    decreases s,
{
    if s.len() == 0 {
        seq![]
    } else {
        entries_view(s.subrange(0, s.len() - 1)).push(
            (s[s.len() - 1].0@, property_view(&s[s.len() - 1].1)),
        )
    }
}

impl View for Property {
    type V = PropertyView;

    open spec fn view(&self) -> PropertyView {
        property_view(self)
    }
}

impl View for Settings {
    type V = SettingsView;

    open spec fn view(&self) -> SettingsView {
        SettingsView { version: self.version, properties: self.properties@ }
    }
}

pub proof fn lemma_list_view(s: Seq<Property>)
    ensures
        list_view(s).len() == s.len(),
        forall|i: int| 0 <= i < s.len() ==> #[trigger] list_view(s)[i] == s[i]@,
    decreases s.len(),
{
    if s.len() > 0 {
        lemma_list_view(s.subrange(0, s.len() - 1));
    }
}

pub proof fn lemma_entries_view(s: Seq<(String, Property)>)
    ensures
        entries_view(s).len() == s.len(),
        forall|i: int|
            0 <= i < s.len() ==> #[trigger] entries_view(s)[i] == (s[i].0@, s[i].1@),
    decreases s.len(),
{
    if s.len() > 0 {
        lemma_entries_view(s.subrange(0, s.len() - 1));
    }
}

/// A deep copy of a node.
pub fn clone_property(p: &Property) -> (r: Property)
    ensures
        r@ == p@,
    decreases p,
{
    let value = match &p.value {
        PropertyValue::Empty => PropertyValue::Empty,
        PropertyValue::Bool(b) => PropertyValue::Bool(*b),
        PropertyValue::Double(x) => PropertyValue::Double(*x),
        PropertyValue::String(s) => PropertyValue::String(s.clone()),
        PropertyValue::List(items) => {
            let mut copy: Vec<Property> = Vec::new();
            let mut i: usize = 0;
            while i < items.len()
                invariant
                    i <= items@.len(),
                    p.value == PropertyValue::List(*items),
                    copy@.len() == i,
                    forall|j: int| 0 <= j < i ==> #[trigger] copy@[j]@ == items@[j]@,
                decreases items@.len() - i,
            {
                proof {
                    assert(decreases_to!(p => p.value));
                    assert(decreases_to!(p.value => p.value->List_0));
                    assert(decreases_to!(p.value->List_0 => p.value->List_0@));
                    assert(decreases_to!(items => items@[i as int]));
                    assert(decreases_to!(p => items@[i as int]));
                }
                copy.push(clone_property(&items[i]));
                i = i + 1;
            }
            proof {
                lemma_list_view(copy@);
                lemma_list_view(items@);
                assert(list_view(copy@) =~= list_view(items@));
            }
            PropertyValue::List(copy)
        },
        PropertyValue::Dictionary(entries) => {
            let mut copy: Vec<(String, Property)> = Vec::new();
            let mut i: usize = 0;
            while i < entries.len()
                invariant
                    i <= entries@.len(),
                    p.value == PropertyValue::Dictionary(*entries),
                    copy@.len() == i,
                    forall|j: int|
                        0 <= j < i ==> #[trigger] copy@[j].0@ == entries@[j].0@ && copy@[j].1@
                            == entries@[j].1@,
                decreases entries@.len() - i,
            {
                let entry = &entries[i];
                proof {
                    assert(decreases_to!(p => p.value));
                    assert(decreases_to!(p.value => p.value->Dictionary_0));
                    assert(decreases_to!(p.value->Dictionary_0 => p.value->Dictionary_0@));
                    assert(decreases_to!(entries => entries@[i as int]));
                    assert(decreases_to!(p => entries@[i as int].1));
                }
                copy.push((entry.0.clone(), clone_property(&entry.1)));
                i = i + 1;
            }
            proof {
                lemma_entries_view(copy@);
                lemma_entries_view(entries@);
                assert(entries_view(copy@) =~= entries_view(entries@));
            }
            PropertyValue::Dictionary(copy)
        },
        PropertyValue::Integer(n) => PropertyValue::Integer(*n),
    };
    Property { any_flag: p.any_flag, value }
}

impl Clone for Property {
    fn clone(&self) -> Self {
        clone_property(self)
    }
}

impl Clone for Settings {
    fn clone(&self) -> Self {
        Settings { version: self.version, properties: clone_property(&self.properties) }
    }
}

// ---------------------------------------------------------------------------
// The byte encoding

/// The loose-boolean rule: only the byte 1 means true.
pub open spec fn byte_is_true(b: u8) -> bool {
    b == 1
}

/// The byte written for a boolean: always a strict 0 or 1.
pub open spec fn bool_to_byte(b: bool) -> u8 {
    if b {
        1
    } else {
        0
    }
}

/// A length in the variable-width form: one byte below 255, else the
/// marker 255 followed by the 32-bit little-endian length.
pub open spec fn length_bytes(n: u32) -> Seq<u8> {
    if n < 255 {
        seq![n as u8]
    } else {
        seq![255u8] + spec_u32_to_le_bytes(n)
    }
}

/// A string: the "not empty" sentinel 0 (written even for an empty string),
/// the length of its UTF-8 bytes, then those bytes.
pub open spec fn string_bytes(s: Seq<char>) -> Seq<u8> {
    seq![0u8] + length_bytes(encode_utf8(s).len() as u32) + encode_utf8(s)
}

pub open spec fn tag_of(v: ValueView) -> u8 {
    match v {
        ValueView::Empty => TYPE_NONE,
        ValueView::Bool(_) => TYPE_BOOL,
        ValueView::Double(_) => TYPE_DOUBLE,
        ValueView::String(_) => TYPE_STRING,
        ValueView::List(_) => TYPE_LIST,
        ValueView::Dictionary(_) => TYPE_DICTIONARY,
        ValueView::Integer(_) => TYPE_INTEGER,
    }
}

/// A node: its tag byte, its flag byte, then its payload. Counts of lists
/// and dictionaries are 32-bit little-endian.
pub open spec fn property_bytes(p: PropertyView) -> Seq<u8>
    decreases p,
{
    seq![tag_of(p.value), bool_to_byte(p.any_flag)] + match p.value {
        ValueView::Empty => seq![],
        ValueView::Bool(b) => seq![bool_to_byte(b)],
        ValueView::Double(bits) => spec_u64_to_le_bytes(bits),
        ValueView::String(s) => string_bytes(s),
        ValueView::List(items) => spec_u32_to_le_bytes(items.len() as u32) + list_bytes(items),
        ValueView::Dictionary(entries) => spec_u32_to_le_bytes(entries.len() as u32)
            + entries_bytes(entries),
        ValueView::Integer(i) => spec_u64_to_le_bytes(i as u64),
    }
}

pub open spec fn list_bytes(s: Seq<PropertyView>) -> Seq<u8>
    decreases s,
{
    if s.len() == 0 {
        seq![]
    } else {
        list_bytes(s.subrange(0, s.len() - 1)) + property_bytes(s[s.len() - 1])
    }
}

pub open spec fn entries_bytes(s: Seq<(Seq<char>, PropertyView)>) -> Seq<u8>
    decreases s,
{
    if s.len() == 0 {
        seq![]
    } else {
        entries_bytes(s.subrange(0, s.len() - 1)) + string_bytes(s[s.len() - 1].0)
            + property_bytes(s[s.len() - 1].1)
    }
}

pub open spec fn version_bytes(v: FactorioVersion) -> Seq<u8> {
    spec_u16_to_le_bytes(v.major) + spec_u16_to_le_bytes(v.minor) + spec_u16_to_le_bytes(v.patch)
        + spec_u16_to_le_bytes(v.build)
}

/// A whole file: the version header, the reserved byte 0, then the root node.
pub open spec fn settings_bytes(s: SettingsView) -> Seq<u8> {
    version_bytes(s.version) + seq![0u8] + property_bytes(s.properties)
}

/// Decodes a byte with the loose-boolean rule.
pub fn loose_bool(input: u8) -> (r: bool)
    ensures
        r == byte_is_true(input),
{
    input == 1
}

/// The strict byte for a boolean.
pub fn loose_bool_byte(input: bool) -> (r: u8)
    ensures
        r == bool_to_byte(input),
{
    if input {
        1
    } else {
        0
    }
}

fn write_bytes(out: &mut Vec<u8>, bytes: &[u8])
    ensures
        final(out)@ == old(out)@ + bytes@,
{
    let ghost start = out@;
    let mut i: usize = 0;
    while i < bytes.len()
        invariant
            i <= bytes@.len(),
            out@ == start + bytes@.subrange(0, i as int),
        decreases bytes@.len() - i,
    {
        out.push(bytes[i]);
        i = i + 1;
        assert(out@ =~= start + bytes@.subrange(0, i as int));
    }
    assert(bytes@.subrange(0, bytes@.len() as int) =~= bytes@);
}

fn write_u16(out: &mut Vec<u8>, value: u16)
    ensures
        final(out)@ == old(out)@ + spec_u16_to_le_bytes(value),
{
    let mut b = u16_to_le_bytes(value);
    out.append(&mut b);
}

fn write_u32(out: &mut Vec<u8>, value: u32)
    ensures
        final(out)@ == old(out)@ + spec_u32_to_le_bytes(value),
{
    let mut b = u32_to_le_bytes(value);
    out.append(&mut b);
}

fn write_u64(out: &mut Vec<u8>, value: u64)
    ensures
        final(out)@ == old(out)@ + spec_u64_to_le_bytes(value),
{
    let mut b = u64_to_le_bytes(value);
    out.append(&mut b);
}

/// Writes a length in the variable-width form.
fn write_optimized_u32(out: &mut Vec<u8>, value: u32)
    ensures
        final(out)@ == old(out)@ + length_bytes(value),
{
    if value < 255 {
        out.push(value as u8);
    } else {
        out.push(255u8);
        write_u32(out, value);
    }
}

fn write_string(out: &mut Vec<u8>, s: &String)
    ensures
        final(out)@ == old(out)@ + string_bytes(s@),
{
    let bytes = s.as_str().as_bytes();
    out.push(0u8);
    write_optimized_u32(out, #[verifier::truncate] (bytes.len() as u32));
    write_bytes(out, bytes);
}

fn write_property(out: &mut Vec<u8>, p: &Property)
    ensures
        final(out)@ == old(out)@ + property_bytes(p@),
    decreases p,
{
    let ghost start = out@;
    let flag = loose_bool_byte(p.any_flag);
    match &p.value {
        PropertyValue::Empty => {
            out.push(TYPE_NONE);
            out.push(flag);
        },
        PropertyValue::Bool(b) => {
            out.push(TYPE_BOOL);
            out.push(flag);
            out.push(loose_bool_byte(*b));
        },
        PropertyValue::Double(bits) => {
            out.push(TYPE_DOUBLE);
            out.push(flag);
            write_u64(out, *bits);
        },
        PropertyValue::String(s) => {
            out.push(TYPE_STRING);
            out.push(flag);
            write_string(out, s);
        },
        PropertyValue::List(items) => {
            out.push(TYPE_LIST);
            out.push(flag);
            write_u32(out, #[verifier::truncate] (items.len() as u32));
            let ghost head = out@;
            proof {
                lemma_list_view(items@);
            }
            let mut i: usize = 0;
            while i < items.len()
                invariant
                    i <= items@.len(),
                    p.value == PropertyValue::List(*items),
                    list_view(items@).len() == items@.len(),
                    forall|j: int| 0 <= j < items@.len() ==> #[trigger] list_view(items@)[j] == items@[j]@,
                    out@ == head + list_bytes(list_view(items@).subrange(0, i as int)),
                decreases items@.len() - i,
            {
                proof {
                    assert(decreases_to!(p => p.value));
                    assert(decreases_to!(p.value => p.value->List_0));
                    assert(decreases_to!(p.value->List_0 => p.value->List_0@));
                    assert(decreases_to!(items => items@[i as int]));
                    assert(decreases_to!(p => items@[i as int]));
                }
                write_property(out, &items[i]);
                proof {
                    let s = list_view(items@).subrange(0, i + 1);
                    assert(s.subrange(0, i as int) =~= list_view(items@).subrange(0, i as int));
                }
                i = i + 1;
            }
            assert(list_view(items@).subrange(0, i as int) =~= list_view(items@));
        },
        PropertyValue::Dictionary(entries) => {
            out.push(TYPE_DICTIONARY);
            out.push(flag);
            write_u32(out, #[verifier::truncate] (entries.len() as u32));
            let ghost head = out@;
            proof {
                lemma_entries_view(entries@);
            }
            let mut i: usize = 0;
            while i < entries.len()
                invariant
                    i <= entries@.len(),
                    p.value == PropertyValue::Dictionary(*entries),
                    entries_view(entries@).len() == entries@.len(),
                    forall|j: int|
                        0 <= j < entries@.len() ==> #[trigger] entries_view(entries@)[j] == (
                        entries@[j].0@,
                        entries@[j].1@,
                    ),
                    out@ == head + entries_bytes(entries_view(entries@).subrange(0, i as int)),
                decreases entries@.len() - i,
            {
                let entry = &entries[i];
                proof {
                    assert(decreases_to!(p => p.value));
                    assert(decreases_to!(p.value => p.value->Dictionary_0));
                    assert(decreases_to!(p.value->Dictionary_0 => p.value->Dictionary_0@));
                    assert(decreases_to!(entries => entries@[i as int]));
                    assert(decreases_to!(p => entries@[i as int].1));
                }
                write_string(out, &entry.0);
                write_property(out, &entry.1);
                proof {
                    let s = entries_view(entries@).subrange(0, i + 1);
                    assert(s.subrange(0, i as int) =~= entries_view(entries@).subrange(0, i as int));
                }
                i = i + 1;
            }
            assert(entries_view(entries@).subrange(0, i as int) =~= entries_view(entries@));
        },
        PropertyValue::Integer(n) => {
            out.push(TYPE_INTEGER);
            out.push(flag);
            write_u64(out, #[verifier::truncate] (*n as u64));
        },
    }
    assert(out@ =~= start + property_bytes(p@));
}

impl Settings {
    /// Encodes the whole file. A count or a string length that does not fit
    /// in 32 bits is written truncated to its low 32 bits.
    pub fn encode(&self) -> (r: Vec<u8>)
        ensures
            r@ == settings_bytes(self@),
    {
        let mut out: Vec<u8> = Vec::new();
        write_u16(&mut out, self.version.major);
        write_u16(&mut out, self.version.minor);
        write_u16(&mut out, self.version.patch);
        write_u16(&mut out, self.version.build);
        out.push(0u8);
        write_property(&mut out, &self.properties);
        assert(out@ =~= settings_bytes(self@));
        out
    }
}

// ---------------------------------------------------------------------------
// Ordered dictionaries

/// `i` is the first index of `m` whose key is `k`.
pub open spec fn is_first_key<V>(m: Seq<(Seq<char>, V)>, k: Seq<char>, i: int) -> bool {
    &&& 0 <= i < m.len()
    &&& m[i].0 == k
    &&& forall|j: int| 0 <= j < i ==> #[trigger] m[j].0 != k
}

/// The position of key `k` in `m`, if it is there.
pub open spec fn find_key<V>(m: Seq<(Seq<char>, V)>, k: Seq<char>) -> Option<int> {
    if exists|i: int| is_first_key(m, k, i) {
        Some(choose|i: int| is_first_key(m, k, i))
    } else {
        None
    }
}

/// The value under key `k` in `m`, if it is there.
pub open spec fn dict_get<V>(m: Seq<(Seq<char>, V)>, k: Seq<char>) -> Option<V> {
    match find_key(m, k) {
        Some(i) => Some(m[i].1),
        None => None,
    }
}

/// Insertion into an ordered map: an existing key keeps its place and takes
/// the new value; a new key goes last.
pub open spec fn dict_insert<V>(m: Seq<(Seq<char>, V)>, k: Seq<char>, v: V) -> Seq<(Seq<char>, V)> {
    match find_key(m, k) {
        Some(i) => m.update(i, (k, v)),
        None => m.push((k, v)),
    }
}

/// No key occurs twice in `m`.
pub open spec fn keys_unique<V>(m: Seq<(Seq<char>, V)>) -> bool {
    forall|i: int, j: int| 0 <= i < j < m.len() ==> #[trigger] m[i].0 != #[trigger] m[j].0
}

pub proof fn lemma_find_key_first<V>(m: Seq<(Seq<char>, V)>, k: Seq<char>, i: int)
    requires
        is_first_key(m, k, i),
    ensures
        find_key(m, k) == Some(i),
{
    let c = choose|c: int| is_first_key(m, k, c);
    assert(is_first_key(m, k, c));
    if c < i {
        assert(m[c].0 != k);
    } else if c > i {
        assert(m[i].0 != k);
    }
}

pub proof fn lemma_find_key_absent<V>(m: Seq<(Seq<char>, V)>, k: Seq<char>)
    requires
        forall|j: int| 0 <= j < m.len() ==> #[trigger] m[j].0 != k,
    ensures
        find_key(m, k) is None,
{
}

pub proof fn lemma_find_key_unique<V>(m: Seq<(Seq<char>, V)>, k: Seq<char>, i: int)
    requires
        keys_unique(m),
        0 <= i < m.len(),
        m[i].0 == k,
    ensures
        find_key(m, k) == Some(i),
{
    assert forall|j: int| 0 <= j < i implies #[trigger] m[j].0 != k by {
        assert(m[j].0 != m[i].0);
    }
    lemma_find_key_first(m, k, i);
}

pub proof fn lemma_dict_insert_unique<V>(m: Seq<(Seq<char>, V)>, k: Seq<char>, v: V)
    requires
        keys_unique(m),
    ensures
        keys_unique(dict_insert(m, k, v)),
        dict_insert(m, k, v).len() == m.len() || dict_insert(m, k, v).len() == m.len() + 1,
{
    match find_key(m, k) {
        Some(i) => {
            assert(is_first_key(m, k, i));
        },
        None => {
            if exists|i: int| 0 <= i < m.len() && m[i].0 == k {
                let i = choose|i: int| 0 <= i < m.len() && m[i].0 == k;
                lemma_find_key_unique(m, k, i);
            }
            let r = m.push((k, v));
            assert forall|i: int, j: int| 0 <= i < j < r.len() implies #[trigger] r[i].0
                != #[trigger] r[j].0 by {
                if j == m.len() {
                    assert(r[i] == m[i]);
                }
            }
        },
    }
}

/// Finds `key` among the keys of `entries`.
fn find_entry(entries: &Vec<(String, Property)>, key: &String) -> (r: Option<usize>)
    ensures
        match r {
            Some(i) => find_key(entries_view(entries@), key@) == Some(i as int),
            None => find_key(entries_view(entries@), key@) is None,
        },
{
    proof {
        lemma_entries_view(entries@);
    }
    let ghost ev = entries_view(entries@);
    let mut i: usize = 0;
    while i < entries.len()
        invariant
            i <= entries@.len(),
            ev == entries_view(entries@),
            ev.len() == entries@.len(),
            forall|j: int| 0 <= j < entries@.len() ==> #[trigger] ev[j] == (entries@[j].0@, entries@[j].1@),
            forall|j: int| 0 <= j < i ==> #[trigger] ev[j].0 != key@,
        decreases entries@.len() - i,
    {
        if entries[i].0 == *key {
            proof {
                lemma_find_key_first(ev, key@, i as int);
            }
            return Some(i);
        }
        i = i + 1;
    }
    proof {
        lemma_find_key_absent(ev, key@);
    }
    None
}

/// Looks up `key` among a dictionary's entries.
pub fn dict_lookup<'a>(entries: &'a Vec<(String, Property)>, key: &String) -> (r: Option<&'a Property>)
    ensures
        match r {
            Some(p) => dict_get(entries_view(entries@), key@) == Some(p@),
            None => dict_get(entries_view(entries@), key@) is None,
        },
{
    proof {
        lemma_entries_view(entries@);
    }
    match find_entry(entries, key) {
        Some(i) => Some(&entries[i].1),
        None => None,
    }
}

/// Inserts into a dictionary's entries as an ordered map does: an existing
/// key keeps its place and takes the new value; a new key goes last.
pub fn dict_insert_entry(entries: &mut Vec<(String, Property)>, key: String, value: Property)
    ensures
        entries_view(final(entries)@) == dict_insert(entries_view(old(entries)@), key@, value@),
{
    proof {
        lemma_entries_view(entries@);
    }
    let ghost k = key@;
    let ghost v = value@;
    match find_entry(entries, &key) {
        Some(i) => {
            entries.set(i, (key, value));
            proof {
                lemma_entries_view(entries@);
                assert(entries_view(entries@) =~= entries_view(old(entries)@).update(i as int, (k, v)));
            }
        },
        None => {
            entries.push((key, value));
            proof {
                lemma_entries_view(entries@);
                assert(entries_view(entries@) =~= entries_view(old(entries)@).push((k, v)));
            }
        },
    }
}

// ---------------------------------------------------------------------------
// The decoding rules, as a parser over positions in a byte sequence

pub open spec fn parse_length(d: Seq<u8>, pos: int) -> Result<(u32, int), DecodeError> {
    if pos < 0 || pos >= d.len() {
        Err(DecodeError::Truncated)
    } else if d[pos] == 255 {
        if pos + 5 > d.len() {
            Err(DecodeError::Truncated)
        } else {
            Ok((spec_u32_from_le_bytes(d.subrange(pos + 1, pos + 5)), pos + 5))
        }
    } else {
        Ok((d[pos] as u32, pos + 1))
    }
}

/// A string: an "is empty" byte under the loose-boolean rule; if it is not
/// true, a variable-width length and that many bytes of UTF-8.
pub open spec fn parse_string(d: Seq<u8>, pos: int) -> Result<(Seq<char>, int), DecodeError> {
    if pos < 0 || pos >= d.len() {
        Err(DecodeError::Truncated)
    } else if byte_is_true(d[pos]) {
        Ok((seq![], pos + 1))
    } else {
        match parse_length(d, pos + 1) {
            Err(e) => Err(e),
            Ok((n, start)) => {
                let end = start + n;
                if end > d.len() {
                    Err(DecodeError::Truncated)
                } else if !valid_utf8(d.subrange(start, end)) {
                    Err(DecodeError::InvalidUtf8)
                } else {
                    Ok((decode_utf8(d.subrange(start, end)), end))
                }
            },
        }
    }
}

/// A node starting at `pos`, and the position just after it.
pub open spec fn parse_property(d: Seq<u8>, pos: int) -> Result<(PropertyView, int), DecodeError>
    decreases d.len() - pos, 0int,
{
    if pos < 0 || pos + 2 > d.len() {
        Err(DecodeError::Truncated)
    } else {
        let tag = d[pos];
        let flag = byte_is_true(d[pos + 1]);
        let p = pos + 2;
        if tag == TYPE_NONE {
            Ok((PropertyView { any_flag: flag, value: ValueView::Empty }, p))
        } else if tag == TYPE_BOOL {
            if p + 1 > d.len() {
                Err(DecodeError::Truncated)
            } else {
                Ok((PropertyView { any_flag: flag, value: ValueView::Bool(byte_is_true(d[p])) }, p + 1))
            }
        } else if tag == TYPE_DOUBLE {
            if p + 8 > d.len() {
                Err(DecodeError::Truncated)
            } else {
                let bits = spec_u64_from_le_bytes(d.subrange(p, p + 8));
                Ok((PropertyView { any_flag: flag, value: ValueView::Double(bits) }, p + 8))
            }
        } else if tag == TYPE_STRING {
            match parse_string(d, p) {
                Err(e) => Err(e),
                Ok((s, end)) => Ok((PropertyView { any_flag: flag, value: ValueView::String(s) }, end)),
            }
        } else if tag == TYPE_LIST {
            if p + 4 > d.len() {
                Err(DecodeError::Truncated)
            } else {
                let n = spec_u32_from_le_bytes(d.subrange(p, p + 4));
                match parse_items(d, p + 4, n as nat, seq![]) {
                    Err(e) => Err(e),
                    Ok((items, end)) => Ok(
                        (PropertyView { any_flag: flag, value: ValueView::List(items) }, end),
                    ),
                }
            }
        } else if tag == TYPE_DICTIONARY {
            if p + 4 > d.len() {
                Err(DecodeError::Truncated)
            } else {
                let n = spec_u32_from_le_bytes(d.subrange(p, p + 4));
                match parse_entries(d, p + 4, n as nat, seq![]) {
                    Err(e) => Err(e),
                    Ok((entries, end)) => Ok(
                        (PropertyView { any_flag: flag, value: ValueView::Dictionary(entries) }, end),
                    ),
                }
            }
        } else if tag == TYPE_INTEGER {
            if p + 8 > d.len() {
                Err(DecodeError::Truncated)
            } else {
                let bits = spec_u64_from_le_bytes(d.subrange(p, p + 8));
                Ok((PropertyView { any_flag: flag, value: ValueView::Integer(bits as i64) }, p + 8))
            }
        } else {
            Err(DecodeError::UnknownTypeTag(tag))
        }
    }
}

/// `n` more list items starting at `pos`, appended to `acc`. The test on
/// `next` never fails, since a node takes at least two bytes; it makes the
/// recursion visibly well-founded.
pub open spec fn parse_items(d: Seq<u8>, pos: int, n: nat, acc: Seq<PropertyView>) -> Result<
    (Seq<PropertyView>, int),
    DecodeError,
>
    decreases d.len() - pos, n + 1,
{
    if n == 0 {
        Ok((acc, pos))
    } else if pos < 0 || pos >= d.len() {
        Err(DecodeError::Truncated)
    } else {
        match parse_property(d, pos) {
            Err(e) => Err(e),
            Ok((item, next)) => {
                if next <= pos || next > d.len() {
                    Err(DecodeError::Truncated)
                } else {
                    parse_items(d, next, (n - 1) as nat, acc.push(item))
                }
            },
        }
    }
}

/// `n` more dictionary entries starting at `pos`, inserted into `acc` in
/// order (a repeated key keeps its first place and takes the later value).
/// As in [`parse_items`], the tests on positions never fail.
pub open spec fn parse_entries(
    d: Seq<u8>,
    pos: int,
    n: nat,
    acc: Seq<(Seq<char>, PropertyView)>,
) -> Result<(Seq<(Seq<char>, PropertyView)>, int), DecodeError>
    decreases d.len() - pos, n + 1,
{
    if n == 0 {
        Ok((acc, pos))
    } else if pos < 0 || pos >= d.len() {
        Err(DecodeError::Truncated)
    } else {
        match parse_string(d, pos) {
            Err(e) => Err(e),
            Ok((key, after_key)) => {
                if after_key <= pos || after_key > d.len() {
                    Err(DecodeError::Truncated)
                } else {
                    match parse_property(d, after_key) {
                        Err(e) => Err(e),
                        Ok((value, next)) => {
                            if next <= pos || next > d.len() {
                                Err(DecodeError::Truncated)
                            } else {
                                parse_entries(d, next, (n - 1) as nat, dict_insert(acc, key, value))
                            }
                        },
                    }
                }
            },
        }
    }
}

pub open spec fn version_from_bytes(d: Seq<u8>) -> FactorioVersion {
    FactorioVersion {
        major: spec_u16_from_le_bytes(d.subrange(0, 2)),
        minor: spec_u16_from_le_bytes(d.subrange(2, 4)),
        patch: spec_u16_from_le_bytes(d.subrange(4, 6)),
        build: spec_u16_from_le_bytes(d.subrange(6, 8)),
    }
}

/// A whole file: the version header, the reserved byte (which must be 0),
/// then the root node. Bytes after the root node are ignored.
pub open spec fn parse_settings(d: Seq<u8>) -> Result<SettingsView, DecodeError> {
    if d.len() < 9 {
        Err(DecodeError::Truncated)
    } else if d[8] != 0 {
        Err(DecodeError::InvalidHeaderByte(d[8]))
    } else {
        match parse_property(d, 9) {
            Err(e) => Err(e),
            Ok((p, _)) => Ok(SettingsView { version: version_from_bytes(d), properties: p }),
        }
    }
}

// ---------------------------------------------------------------------------
// The decoder

/// Relies on `String::from_utf8`: it succeeds exactly when the bytes are
/// valid UTF-8, and the string it returns holds the characters they encode.
#[verifier::external_body]
fn string_from_utf8(bytes: &[u8]) -> (r: Option<String>)
    ensures
        r is Some <==> valid_utf8(bytes@),
        r matches Some(s) ==> s@ == decode_utf8(bytes@),
{
    String::from_utf8(bytes.to_vec()).ok()
}

/// Reads a length in the variable-width form.
fn read_optimized_u32(data: &[u8], pos: usize) -> (r: Result<(u32, usize), DecodeError>)
    ensures
        match r {
            Ok((n, next)) => parse_length(data@, pos as int) == Ok::<_, DecodeError>((n, next as int)),
            Err(e) => parse_length(data@, pos as int) == Err::<(u32, int), _>(e),
        },
{
    if pos >= data.len() {
        return Err(DecodeError::Truncated);
    }
    let first = data[pos];
    if first == 255 {
        if data.len() - pos < 5 {
            Err(DecodeError::Truncated)
        } else {
            Ok((u32_from_le_bytes(slice_subrange(data, pos + 1, pos + 5)), pos + 5))
        }
    } else {
        Ok((first as u32, pos + 1))
    }
}

fn read_string(data: &[u8], pos: usize) -> (r: Result<(String, usize), DecodeError>)
    ensures
        match r {
            Ok((s, next)) => parse_string(data@, pos as int) == Ok::<_, DecodeError>((s@, next as int)),
            Err(e) => parse_string(data@, pos as int) == Err::<(Seq<char>, int), _>(e),
        },
{
    if pos >= data.len() {
        return Err(DecodeError::Truncated);
    }
    if loose_bool(data[pos]) {
        return Ok((String::new(), pos + 1));
    }
    match read_optimized_u32(data, pos + 1) {
        Err(e) => Err(e),
        Ok((n, start)) => {
            if n as usize > data.len() - start {
                Err(DecodeError::Truncated)
            } else {
                let end = start + n as usize;
                match string_from_utf8(slice_subrange(data, start, end)) {
                    Some(s) => Ok((s, end)),
                    None => Err(DecodeError::InvalidUtf8),
                }
            }
        },
    }
}

fn read_property(data: &[u8], pos: usize) -> (r: Result<(Property, usize), DecodeError>)
    ensures
        match r {
            Ok((p, next)) => parse_property(data@, pos as int) == Ok::<_, DecodeError>((p@, next as int)),
            Err(e) => parse_property(data@, pos as int) == Err::<(PropertyView, int), _>(e),
        },
        r matches Ok((_, next)) ==> pos < next <= data@.len(),
    decreases data@.len() - pos,
{
    if data.len() < 2 || pos > data.len() - 2 {
        return Err(DecodeError::Truncated);
    }
    let tag = data[pos];
    let any_flag = loose_bool(data[pos + 1]);
    let p = pos + 2;
    if tag == TYPE_NONE {
        Ok((Property { any_flag, value: PropertyValue::Empty }, p))
    } else if tag == TYPE_BOOL {
        if p >= data.len() {
            Err(DecodeError::Truncated)
        } else {
            Ok((Property { any_flag, value: PropertyValue::Bool(loose_bool(data[p])) }, p + 1))
        }
    } else if tag == TYPE_DOUBLE {
        if data.len() - p < 8 {
            Err(DecodeError::Truncated)
        } else {
            let bits = u64_from_le_bytes(slice_subrange(data, p, p + 8));
            Ok((Property { any_flag, value: PropertyValue::Double(bits) }, p + 8))
        }
    } else if tag == TYPE_STRING {
        match read_string(data, p) {
            Err(e) => Err(e),
            Ok((s, end)) => Ok((Property { any_flag, value: PropertyValue::String(s) }, end)),
        }
    } else if tag == TYPE_LIST {
        if data.len() - p < 4 {
            return Err(DecodeError::Truncated);
        }
        let n = u32_from_le_bytes(slice_subrange(data, p, p + 4));
        let mut cur: usize = p + 4;
        let mut left: u32 = n;
        let mut items: Vec<Property> = Vec::new();
        assert(list_view(items@) =~= seq![]);
        while left > 0
            invariant
                pos < cur <= data@.len(),
                p == pos + 2,
                p + 4 <= data@.len(),
                tag == data@[pos as int],
                tag == TYPE_LIST,
                any_flag == byte_is_true(data@[pos + 1]),
                n == spec_u32_from_le_bytes(data@.subrange(p as int, p + 4)),
                parse_items(data@, p + 4, n as nat, seq![]) == parse_items(
                    data@,
                    cur as int,
                    left as nat,
                    list_view(items@),
                ),
            decreases left,
        {
            if cur >= data.len() {
                return Err(DecodeError::Truncated);
            }
            match read_property(data, cur) {
                Err(e) => {
                    return Err(e);
                },
                Ok((item, next)) => {
                    let ghost before = items@;
                    items.push(item);
                    proof {
                        assert(items@.subrange(0, items@.len() - 1) =~= before);
                    }
                    cur = next;
                    left = left - 1;
                },
            }
        }
        Ok((Property { any_flag, value: PropertyValue::List(items) }, cur))
    } else if tag == TYPE_DICTIONARY {
        if data.len() - p < 4 {
            return Err(DecodeError::Truncated);
        }
        let n = u32_from_le_bytes(slice_subrange(data, p, p + 4));
        let mut cur: usize = p + 4;
        let mut left: u32 = n;
        let mut entries: Vec<(String, Property)> = Vec::new();
        assert(entries_view(entries@) =~= seq![]);
        while left > 0
            invariant
                pos < cur <= data@.len(),
                p == pos + 2,
                p + 4 <= data@.len(),
                tag == data@[pos as int],
                tag == TYPE_DICTIONARY,
                any_flag == byte_is_true(data@[pos + 1]),
                n == spec_u32_from_le_bytes(data@.subrange(p as int, p + 4)),
                parse_entries(data@, p + 4, n as nat, seq![]) == parse_entries(
                    data@,
                    cur as int,
                    left as nat,
                    entries_view(entries@),
                ),
            decreases left,
        {
            if cur >= data.len() {
                return Err(DecodeError::Truncated);
            }
            let (key, after_key) = match read_string(data, cur) {
                Err(e) => {
                    return Err(e);
                },
                Ok(found) => found,
            };
            let (value, next) = match read_property(data, after_key) {
                Err(e) => {
                    return Err(e);
                },
                Ok(found) => found,
            };
            dict_insert_entry(&mut entries, key, value);
            cur = next;
            left = left - 1;
        }
        Ok((Property { any_flag, value: PropertyValue::Dictionary(entries) }, cur))
    } else if tag == TYPE_INTEGER {
        if data.len() - p < 8 {
            Err(DecodeError::Truncated)
        } else {
            let bits = u64_from_le_bytes(slice_subrange(data, p, p + 8));
            Ok(
                (
                    Property { any_flag, value: PropertyValue::Integer(#[verifier::truncate] (bits as i64)) },
                    p + 8,
                ),
            )
        }
    } else {
        Err(DecodeError::UnknownTypeTag(tag))
    }
}

impl Settings {
    /// Decodes a whole file. Bytes after the root node are ignored.
    pub fn decode(data: &[u8]) -> (r: Result<Settings, DecodeError>)
        ensures
            match r {
                Ok(s) => parse_settings(data@) == Ok::<_, DecodeError>(s@),
                Err(e) => parse_settings(data@) == Err::<SettingsView, _>(e),
            },
    {
        if data.len() < 9 {
            return Err(DecodeError::Truncated);
        }
        let version = FactorioVersion {
            major: u16_from_le_bytes(slice_subrange(data, 0, 2)),
            minor: u16_from_le_bytes(slice_subrange(data, 2, 4)),
            patch: u16_from_le_bytes(slice_subrange(data, 4, 6)),
            build: u16_from_le_bytes(slice_subrange(data, 6, 8)),
        };
        let reserved = data[8];
        if reserved != 0 {
            return Err(DecodeError::InvalidHeaderByte(reserved));
        }
        match read_property(data, 9) {
            Err(e) => Err(e),
            Ok((properties, _)) => Ok(Settings { version, properties }),
        }
    }
}

// ---------------------------------------------------------------------------
// Laws of the codec

/// A tree that the encoding represents faithfully: every count and every
/// string's byte length fits in 32 bits, and no dictionary repeats a key.
pub open spec fn property_well_formed(p: PropertyView) -> bool
    decreases p,
{
    match p.value {
        ValueView::String(s) => encode_utf8(s).len() < 0x1_0000_0000,
        ValueView::List(items) => items.len() < 0x1_0000_0000 && list_well_formed(items),
        ValueView::Dictionary(entries) => {
            &&& entries.len() < 0x1_0000_0000
            &&& keys_unique(entries)
            &&& entries_well_formed(entries)
        },
        _ => true,
    }
}

pub open spec fn list_well_formed(s: Seq<PropertyView>) -> bool
    decreases s,
{
    s.len() == 0 || (list_well_formed(s.subrange(0, s.len() - 1)) && property_well_formed(
        s[s.len() - 1],
    ))
}

pub open spec fn entries_well_formed(s: Seq<(Seq<char>, PropertyView)>) -> bool
    decreases s,
{
    s.len() == 0 || {
        &&& entries_well_formed(s.subrange(0, s.len() - 1))
        &&& encode_utf8(s[s.len() - 1].0).len() < 0x1_0000_0000
        &&& property_well_formed(s[s.len() - 1].1)
    }
}

pub proof fn lemma_list_well_formed(s: Seq<PropertyView>)
    ensures
        list_well_formed(s) <==> forall|i: int| 0 <= i < s.len() ==> property_well_formed(#[trigger] s[i]),
    decreases s.len(),
{
    if s.len() > 0 {
        let t = s.subrange(0, s.len() - 1);
        lemma_list_well_formed(t);
        if forall|i: int| 0 <= i < s.len() ==> property_well_formed(#[trigger] s[i]) {
            assert forall|i: int| 0 <= i < t.len() implies property_well_formed(#[trigger] t[i]) by {
                assert(t[i] == s[i]);
            }
        }
        if list_well_formed(s) {
            assert forall|i: int| 0 <= i < s.len() implies property_well_formed(#[trigger] s[i]) by {
                if i < s.len() - 1 {
                    assert(t[i] == s[i]);
                }
            }
        }
    }
}

pub proof fn lemma_entries_well_formed(s: Seq<(Seq<char>, PropertyView)>)
    ensures
        entries_well_formed(s) <==> forall|i: int|
            0 <= i < s.len() ==> encode_utf8(#[trigger] s[i].0).len() < 0x1_0000_0000
                && property_well_formed(s[i].1),
    decreases s.len(),
{
    if s.len() > 0 {
        let t = s.subrange(0, s.len() - 1);
        lemma_entries_well_formed(t);
        if forall|i: int|
            0 <= i < s.len() ==> encode_utf8(#[trigger] s[i].0).len() < 0x1_0000_0000
                && property_well_formed(s[i].1) {
            assert forall|i: int| 0 <= i < t.len() implies encode_utf8(#[trigger] t[i].0).len()
                < 0x1_0000_0000 && property_well_formed(t[i].1) by {
                assert(t[i] == s[i]);
            }
        }
        if entries_well_formed(s) {
            assert forall|i: int| 0 <= i < s.len() implies encode_utf8(#[trigger] s[i].0).len()
                < 0x1_0000_0000 && property_well_formed(s[i].1) by {
                if i < s.len() - 1 {
                    assert(t[i] == s[i]);
                }
            }
        }
    }
}

/// `d` holds the bytes `x` starting at `pos`.
pub open spec fn holds_at(d: Seq<u8>, pos: int, x: Seq<u8>) -> bool {
    &&& 0 <= pos
    &&& pos + x.len() <= d.len()
    &&& d.subrange(pos, pos + x.len()) == x
}

proof fn lemma_holds_split(d: Seq<u8>, pos: int, a: Seq<u8>, b: Seq<u8>)
    requires
        holds_at(d, pos, a + b),
    ensures
        holds_at(d, pos, a),
        holds_at(d, pos + a.len(), b),
{
    assert forall|k: int| 0 <= k < a.len() implies d.subrange(pos, pos + a.len())[k] == a[k] by {
        assert((a + b)[k] == a[k]);
        assert(d.subrange(pos, pos + (a + b).len())[k] == d[pos + k]);
    }
    assert(d.subrange(pos, pos + a.len()) =~= a);
    assert forall|k: int| 0 <= k < b.len() implies d.subrange(pos + a.len(), pos + a.len() + b.len())[k]
        == b[k] by {
        assert((a + b)[a.len() + k] == b[k]);
        assert(d.subrange(pos, pos + (a + b).len())[a.len() + k] == d[pos + a.len() + k]);
    }
    assert(d.subrange(pos + a.len(), pos + a.len() + b.len()) =~= b);
}

proof fn lemma_list_bytes_front(s: Seq<PropertyView>)
    requires
        s.len() > 0,
    ensures
        list_bytes(s) == property_bytes(s[0]) + list_bytes(s.subrange(1, s.len() as int)),
    decreases s.len(),
{
    let n = s.len() as int;
    let u = s.subrange(1, n);
    if n == 1 {
        assert(list_bytes(s.subrange(0, 0)) == Seq::<u8>::empty());
        assert(list_bytes(u) == Seq::<u8>::empty());
        assert(list_bytes(s) =~= property_bytes(s[0]) + list_bytes(u));
    } else {
        let t = s.subrange(0, n - 1);
        lemma_list_bytes_front(t);
        let tu = t.subrange(1, t.len() as int);
        assert(u.subrange(0, u.len() - 1) =~= tu);
        assert(t[0] == s[0]);
        assert(u[u.len() - 1] == s[n - 1]);
        assert(list_bytes(s) == list_bytes(t) + property_bytes(s[n - 1]));
        assert(list_bytes(u) == list_bytes(tu) + property_bytes(s[n - 1]));
        assert(list_bytes(s) =~= property_bytes(s[0]) + list_bytes(u));
    }
}

proof fn lemma_entries_bytes_front(s: Seq<(Seq<char>, PropertyView)>)
    requires
        s.len() > 0,
    ensures
        entries_bytes(s) == string_bytes(s[0].0) + property_bytes(s[0].1) + entries_bytes(
            s.subrange(1, s.len() as int),
        ),
    decreases s.len(),
{
    let n = s.len() as int;
    let u = s.subrange(1, n);
    if n == 1 {
        assert(entries_bytes(s.subrange(0, 0)) == Seq::<u8>::empty());
        assert(entries_bytes(u) == Seq::<u8>::empty());
        assert(entries_bytes(s) =~= string_bytes(s[0].0) + property_bytes(s[0].1) + entries_bytes(u));
    } else {
        let t = s.subrange(0, n - 1);
        lemma_entries_bytes_front(t);
        let tu = t.subrange(1, t.len() as int);
        assert(u.subrange(0, u.len() - 1) =~= tu);
        assert(t[0] == s[0]);
        assert(u[u.len() - 1] == s[n - 1]);
        let last = string_bytes(s[n - 1].0) + property_bytes(s[n - 1].1);
        assert(entries_bytes(s) =~= entries_bytes(t) + last);
        assert(entries_bytes(u) =~= entries_bytes(tu) + last);
        assert(entries_bytes(s) =~= string_bytes(s[0].0) + property_bytes(s[0].1) + entries_bytes(u));
    }
}

proof fn lemma_parse_length_encoded(d: Seq<u8>, pos: int, n: u32)
    requires
        holds_at(d, pos, length_bytes(n)),
    ensures
        parse_length(d, pos) == Ok::<_, DecodeError>((n, pos + length_bytes(n).len())),
{
    lemma_auto_spec_u32_to_from_le_bytes();
    assert(d.subrange(pos, pos + length_bytes(n).len())[0] == d[pos]);
    if n >= 255 {
        lemma_holds_split(d, pos, seq![255u8], spec_u32_to_le_bytes(n));
    }
}

proof fn lemma_parse_string_encoded(d: Seq<u8>, pos: int, s: Seq<char>)
    requires
        encode_utf8(s).len() < 0x1_0000_0000,
        holds_at(d, pos, string_bytes(s)),
    ensures
        parse_string(d, pos) == Ok::<_, DecodeError>((s, pos + string_bytes(s).len())),
{
    let b = encode_utf8(s);
    let n = b.len() as u32;
    let lb = length_bytes(n);
    lemma_holds_split(d, pos, seq![0u8] + lb, b);
    lemma_holds_split(d, pos, seq![0u8], lb);
    assert(d.subrange(pos, pos + 1)[0] == d[pos]);
    lemma_parse_length_encoded(d, pos + 1, n);
    encode_utf8_valid_utf8(s);
    encode_utf8_decode_utf8(s);
}

/// Reading a node back: at any position that holds the encoding of a
/// well-formed node, the parser returns that node and the position just
/// after its bytes.
pub proof fn lemma_parse_encoded_property(d: Seq<u8>, pos: int, p: PropertyView)
    requires
        property_well_formed(p),
        holds_at(d, pos, property_bytes(p)),
    ensures
        parse_property(d, pos) == Ok::<_, DecodeError>((p, pos + property_bytes(p).len())),
    decreases p,
{
    let head = seq![tag_of(p.value), bool_to_byte(p.any_flag)];
    let all = property_bytes(p);
    let payload = all.subrange(2, all.len() as int);
    assert(all =~= head + payload);
    lemma_holds_split(d, pos, head, payload);
    assert(d.subrange(pos, pos + 2)[0] == d[pos]);
    assert(d.subrange(pos, pos + 2)[1] == d[pos + 1]);
    let q = pos + 2;
    lemma_auto_spec_u32_to_from_le_bytes();
    lemma_auto_spec_u64_to_from_le_bytes();
    assert(d[pos] == tag_of(p.value));
    assert(byte_is_true(d[pos + 1]) == p.any_flag);
    match p.value {
        ValueView::Empty => {
            assert(all.len() == 2);
        },
        ValueView::Bool(b) => {
            assert(d.subrange(q, q + 1)[0] == d[q]);
        },
        ValueView::Double(bits) => {
            assert(payload =~= spec_u64_to_le_bytes(bits));
        },
        ValueView::String(s) => {
            assert(payload =~= string_bytes(s));
            lemma_parse_string_encoded(d, q, s);
        },
        ValueView::List(items) => {
            let count = spec_u32_to_le_bytes(items.len() as u32);
            assert(payload =~= count + list_bytes(items));
            lemma_holds_split(d, q, count, list_bytes(items));
            assert(decreases_to!(p => items));
            lemma_list_well_formed(items);
            lemma_parse_encoded_items(d, q + 4, items, seq![]);
            assert(Seq::<PropertyView>::empty() + items =~= items);
        },
        ValueView::Dictionary(entries) => {
            let count = spec_u32_to_le_bytes(entries.len() as u32);
            assert(payload =~= count + entries_bytes(entries));
            lemma_holds_split(d, q, count, entries_bytes(entries));
            assert(Seq::<(Seq<char>, PropertyView)>::empty() + entries =~= entries);
            assert(decreases_to!(p => entries));
            lemma_entries_well_formed(entries);
            lemma_parse_encoded_entries(d, q + 4, entries, seq![]);
        },
        ValueView::Integer(i) => {
            assert(payload =~= spec_u64_to_le_bytes(#[verifier::truncate] (i as u64)));
            assert((#[verifier::truncate] (i as u64)) as i64 == i) by (bit_vector);
        },
    }
}

proof fn lemma_parse_encoded_items(
    d: Seq<u8>,
    pos: int,
    items: Seq<PropertyView>,
    acc: Seq<PropertyView>,
)
    requires
        forall|i: int| 0 <= i < items.len() ==> property_well_formed(#[trigger] items[i]),
        holds_at(d, pos, list_bytes(items)),
    ensures
        parse_items(d, pos, items.len(), acc) == Ok::<_, DecodeError>(
            (acc + items, pos + list_bytes(items).len()),
        ),
    decreases items,
{
    if items.len() == 0 {
        assert(acc + items =~= acc);
    } else {
        let rest = items.subrange(1, items.len() as int);
        lemma_list_bytes_front(items);
        lemma_holds_split(d, pos, property_bytes(items[0]), list_bytes(rest));
        lemma_parse_encoded_property(d, pos, items[0]);
        let next = pos + property_bytes(items[0]).len();
        assert(property_well_formed(items[0]));
        assert forall|i: int| 0 <= i < rest.len() implies property_well_formed(#[trigger] rest[i]) by {
            assert(rest[i] == items[i + 1]);
        }
        lemma_parse_encoded_items(d, next, rest, acc.push(items[0]));
        assert(acc.push(items[0]) + rest =~= acc + items);
    }
}

proof fn lemma_parse_encoded_entries(
    d: Seq<u8>,
    pos: int,
    entries: Seq<(Seq<char>, PropertyView)>,
    acc: Seq<(Seq<char>, PropertyView)>,
)
    requires
        forall|i: int|
            0 <= i < entries.len() ==> encode_utf8(#[trigger] entries[i].0).len() < 0x1_0000_0000
                && property_well_formed(entries[i].1),
        keys_unique(acc + entries),
        holds_at(d, pos, entries_bytes(entries)),
    ensures
        parse_entries(d, pos, entries.len(), acc) == Ok::<_, DecodeError>(
            (acc + entries, pos + entries_bytes(entries).len()),
        ),
    decreases entries,
{
    if entries.len() == 0 {
        assert(acc + entries =~= acc);
    } else {
        let rest = entries.subrange(1, entries.len() as int);
        let (key, value) = entries[0];
        let kb = string_bytes(key);
        let vb = property_bytes(value);
        lemma_entries_bytes_front(entries);
        lemma_holds_split(d, pos, kb + vb, entries_bytes(rest));
        lemma_holds_split(d, pos, kb, vb);
        assert(encode_utf8(entries[0].0).len() < 0x1_0000_0000);
        lemma_parse_string_encoded(d, pos, key);
        lemma_parse_encoded_property(d, pos + kb.len(), value);
        let all = acc + entries;
        assert forall|j: int| 0 <= j < acc.len() implies #[trigger] acc[j].0 != key by {
            assert(all[j] == acc[j]);
            assert(all[acc.len() as int] == entries[0]);
        }
        lemma_find_key_absent(acc, key);
        assert(dict_insert(acc, key, value) == acc.push((key, value)));
        assert(acc.push((key, value)) + rest =~= all);
        assert forall|i: int| 0 <= i < rest.len() implies encode_utf8(#[trigger] rest[i].0).len()
            < 0x1_0000_0000 && property_well_formed(rest[i].1) by {
            assert(rest[i] == entries[i + 1]);
        }
        lemma_parse_encoded_entries(d, pos + kb.len() + vb.len(), rest, acc.push((key, value)));
    }
}

/// Decoding inverts encoding: the bytes of a well-formed tree, followed by
/// anything, decode to that tree.
pub proof fn lemma_decode_encoded(s: SettingsView, rest: Seq<u8>)
    requires
        property_well_formed(s.properties),
    ensures
        parse_settings(settings_bytes(s) + rest) == Ok::<_, DecodeError>(s),
{
    let d = settings_bytes(s) + rest;
    let v = s.version;
    lemma_auto_spec_u16_to_from_le_bytes();
    let vb = version_bytes(v);
    let pb = property_bytes(s.properties);
    assert(d =~= vb + seq![0u8] + pb + rest);
    assert(holds_at(d, 0, vb + seq![0u8] + pb + rest)) by {
        assert(d.subrange(0, d.len() as int) =~= d);
    }
    lemma_holds_split(d, 0, vb + seq![0u8] + pb, rest);
    lemma_holds_split(d, 0, vb + seq![0u8], pb);
    lemma_holds_split(d, 0, vb, seq![0u8]);
    assert(d[8] == 0);
    assert(d.subrange(0, 2) =~= spec_u16_to_le_bytes(v.major));
    assert(d.subrange(2, 4) =~= spec_u16_to_le_bytes(v.minor));
    assert(d.subrange(4, 6) =~= spec_u16_to_le_bytes(v.patch));
    assert(d.subrange(6, 8) =~= spec_u16_to_le_bytes(v.build));
    lemma_parse_encoded_property(d, 9, s.properties);
}

/// The inputs that re-encode to themselves: the encodings of well-formed trees.
pub open spec fn is_canonical_encoding(d: Seq<u8>) -> bool {
    exists|t: SettingsView| property_well_formed(t.properties) && settings_bytes(t) == d
}

/// Decoding then encoding gives back the input byte for byte, for every
/// input that is the encoding of a well-formed tree.
pub proof fn lemma_reencode_identity(d: Seq<u8>)
    requires
        is_canonical_encoding(d),
    ensures
        parse_settings(d) is Ok,
        parse_settings(d) matches Ok(s) ==> settings_bytes(s) == d,
{
    let t = choose|t: SettingsView| property_well_formed(t.properties) && settings_bytes(t) == d;
    lemma_decode_encoded(t, seq![]);
    assert(settings_bytes(t) + Seq::<u8>::empty() =~= d);
}



/// The length prefix of a string: under 255 bytes of UTF-8, the length is
/// one byte; from 255 bytes on, it is the marker 255 followed by the length
/// in four little-endian bytes.
pub proof fn lemma_string_length_prefix(s: Seq<char>)
    requires
        encode_utf8(s).len() < 0x1_0000_0000,
    ensures
        encode_utf8(s).len() < 255 ==> string_bytes(s).len() == 2 + encode_utf8(s).len()
            && string_bytes(s)[1] == encode_utf8(s).len() as u8,
        encode_utf8(s).len() >= 255 ==> string_bytes(s).len() == 6 + encode_utf8(s).len()
            && string_bytes(s)[1] == 255 && string_bytes(s).subrange(2, 6) == spec_u32_to_le_bytes(
            encode_utf8(s).len() as u32,
        ),
{
    lemma_auto_spec_u32_to_from_le_bytes();
    let n = encode_utf8(s).len() as u32;
    if n >= 255 {
        assert(string_bytes(s).subrange(2, 6) =~= spec_u32_to_le_bytes(n));
    }
}

/// A node whose tag byte names no variant is rejected, with that tag.
pub proof fn lemma_unknown_tag_rejected(d: Seq<u8>, pos: int)
    requires
        0 <= pos,
        pos + 2 <= d.len(),
        d[pos] > TYPE_INTEGER,
    ensures
        parse_property(d, pos) == Err::<(PropertyView, int), _>(DecodeError::UnknownTypeTag(d[pos])),
{
}

/// A boolean node reads its flag byte and its payload byte by the
/// loose-boolean rule: the byte 1 is true, every other byte is false.
pub proof fn lemma_loose_bool_node(d: Seq<u8>, pos: int)
    requires
        0 <= pos,
        pos + 3 <= d.len(),
        d[pos] == TYPE_BOOL,
    ensures
        parse_property(d, pos) == Ok::<_, DecodeError>(
            (
                PropertyView { any_flag: d[pos + 1] == 1, value: ValueView::Bool(d[pos + 2] == 1) },
                pos + 3,
            ),
        ),
{
}


proof fn lemma_parsed_string_fits(d: Seq<u8>, pos: int)
    ensures
        parse_string(d, pos) matches Ok((s, _)) ==> encode_utf8(s).len() < 0x1_0000_0000,
{
    if let Ok((s, _)) = parse_string(d, pos) {
        if !byte_is_true(d[pos]) {
            let (n, start) = parse_length(d, pos + 1)->Ok_0;
            let b = d.subrange(start, start + n);
            decode_utf8_encode_utf8(b);
        } else {
            assert(s.len() == 0);
            assert(encode_utf8(s) =~= Seq::<u8>::empty());
        }
    }
}

proof fn lemma_dict_insert_well_formed(
    m: Seq<(Seq<char>, PropertyView)>,
    k: Seq<char>,
    v: PropertyView,
)
    requires
        entries_well_formed(m),
        encode_utf8(k).len() < 0x1_0000_0000,
        property_well_formed(v),
    ensures
        entries_well_formed(dict_insert(m, k, v)),
{
    lemma_entries_well_formed(m);
    let r = dict_insert(m, k, v);
    match find_key(m, k) {
        Some(j) => {
            assert(is_first_key(m, k, j));
            assert forall|i: int| 0 <= i < r.len() implies encode_utf8(#[trigger] r[i].0).len()
                < 0x1_0000_0000 && property_well_formed(r[i].1) by {
                if i != j {
                    assert(r[i] == m[i]);
                }
            }
        },
        None => {
            assert forall|i: int| 0 <= i < r.len() implies encode_utf8(#[trigger] r[i].0).len()
                < 0x1_0000_0000 && property_well_formed(r[i].1) by {
                if i < m.len() {
                    assert(r[i] == m[i]);
                }
            }
        },
    }
    lemma_entries_well_formed(r);
}

/// Every node that the parser returns is well-formed.
pub proof fn lemma_parsed_well_formed(d: Seq<u8>, pos: int)
    ensures
        parse_property(d, pos) matches Ok((p, _)) ==> property_well_formed(p),
    decreases d.len() - pos, 0int,
{
    if pos >= 0 && pos + 2 <= d.len() {
        let tag = d[pos];
        let p = pos + 2;
        if tag == TYPE_STRING {
            lemma_parsed_string_fits(d, p);
        } else if tag == TYPE_LIST && p + 4 <= d.len() {
            let n = spec_u32_from_le_bytes(d.subrange(p, p + 4));
            lemma_parsed_items_well_formed(d, p + 4, n as nat, seq![]);
        } else if tag == TYPE_DICTIONARY && p + 4 <= d.len() {
            let n = spec_u32_from_le_bytes(d.subrange(p, p + 4));
            lemma_parsed_entries_well_formed(d, p + 4, n as nat, seq![]);
        }
    }
}

proof fn lemma_parsed_items_well_formed(d: Seq<u8>, pos: int, n: nat, acc: Seq<PropertyView>)
    requires
        list_well_formed(acc),
    ensures
        parse_items(d, pos, n, acc) matches Ok((items, _)) ==> list_well_formed(items)
            && items.len() == acc.len() + n,
    decreases d.len() - pos, n + 1,
{
    if n > 0 && pos >= 0 && pos < d.len() {
        lemma_parsed_well_formed(d, pos);
        if let Ok((item, next)) = parse_property(d, pos) {
            if next > pos && next <= d.len() {
                let grown = acc.push(item);
                assert(grown.subrange(0, grown.len() - 1) =~= acc);
                lemma_parsed_items_well_formed(d, next, (n - 1) as nat, grown);
            }
        }
    }
}

proof fn lemma_parsed_entries_well_formed(
    d: Seq<u8>,
    pos: int,
    n: nat,
    acc: Seq<(Seq<char>, PropertyView)>,
)
    requires
        entries_well_formed(acc),
        keys_unique(acc),
        acc.len() < 0x1_0000_0000,
        acc.len() + n < 0x1_0000_0000,
    ensures
        parse_entries(d, pos, n, acc) matches Ok((entries, _)) ==> entries_well_formed(entries)
            && keys_unique(entries) && entries.len() < 0x1_0000_0000,
    decreases d.len() - pos, n + 1,
{
    if n > 0 && pos >= 0 && pos < d.len() {
        lemma_parsed_string_fits(d, pos);
        if let Ok((key, after_key)) = parse_string(d, pos) {
            if after_key > pos && after_key <= d.len() {
                lemma_parsed_well_formed(d, after_key);
                if let Ok((value, next)) = parse_property(d, after_key) {
                    if next > pos && next <= d.len() {
                        lemma_dict_insert_well_formed(acc, key, value);
                        lemma_dict_insert_unique(acc, key, value);
                        lemma_parsed_entries_well_formed(
                            d,
                            next,
                            (n - 1) as nat,
                            dict_insert(acc, key, value),
                        );
                    }
                }
            }
        }
    }
}

/// Re-encoding is stable: whatever an input decodes to, its encoding
/// decodes to the same tree.
pub proof fn lemma_reencode_stable(d: Seq<u8>)
    ensures
        parse_settings(d) matches Ok(s) ==> parse_settings(settings_bytes(s)) == Ok::<_, DecodeError>(s),
{
    if let Ok(s) = parse_settings(d) {
        lemma_parsed_well_formed(d, 9);
        lemma_decode_encoded(s, seq![]);
        assert(settings_bytes(s) + Seq::<u8>::empty() =~= settings_bytes(s));
    }
}

} // verus!
