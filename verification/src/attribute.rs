//! The attribute schema of a city object collection, and the binary
//! encoding of attribute values under a schema.
//!
//! Attribute values are JSON values.  The library reads them as
//! [`AttrValue`]s: the kind of value with what the encoding reads of it,
//! together with the value's JSON text.

use crate::bytes::{le_bytes_u16, le_bytes_u32, le_bytes_u64, write_u16_le, write_u32_le, write_u64_le};
use crate::sorting::{sort_by_first, stable_asc_arrangement};
use vstd::prelude::*;
use vstd::utf8::encode_utf8;

verus! {

/// The type of an attribute column.
#[derive(Debug, Clone, Copy, PartialEq, Eq, Structural)]
pub enum ColumnType {
    Byte,
    UByte,
    Bool,
    Short,
    UShort,
    Int,
    UInt,
    Long,
    ULong,
    Float,
    Double,
    String,
    Json,
    DateTime,
    Binary,
}

/// A JSON number as the JSON reader holds it: a non-negative integer, a
/// negative integer, or a finite binary64 value (as its bit pattern).
#[derive(Debug, Clone, Copy, PartialEq, Eq, Structural)]
pub enum JsonNumber {
    PosInt(u64),
    NegInt(i64),
    Float(u64),
}

/// A JSON number with its value as a binary64 (bit pattern) and that value
/// rounded to a binary32 (bit pattern).
#[derive(Debug, Clone, Copy)]
pub struct NumberValue {
    pub number: JsonNumber,
    pub f64_bits: u64,
    pub f32_bits: u32,
}

/// The kind of a JSON value, with what the encoding reads of it.
#[derive(Debug)]
pub enum AttrKind {
    Null,
    Bool(bool),
    Number(NumberValue),
    String(String),
    Array,
    Object,
}

/// An attribute value: its kind and its JSON text.
#[derive(Debug)]
pub struct AttrValue {
    pub kind: AttrKind,
    pub json: String,
}

/// One member of a JSON object of attributes.
#[derive(Debug)]
pub struct AttrEntry {
    pub key: String,
    pub value: AttrValue,
}

/// The attributes of a city object: a JSON object with its members in
/// order, or any other JSON value.
#[derive(Debug)]
pub enum Attributes {
    Object(Vec<AttrEntry>),
    NotObject,
}

/// A column of the schema: the attribute name, its column index and type.
#[derive(Debug)]
pub struct AttributeColumn {
    pub name: String,
    pub index: u16,
    pub coltype: ColumnType,
}

/// The attribute schema: the columns, in the order they were added; no two
/// share a name.
#[derive(Debug)]
pub struct AttributeSchema {
    columns: Vec<AttributeColumn>,
}

impl AttributeSchema {
    #[verifier::type_invariant]
    spec fn inv(self) -> bool {
        names_unique(self.columns@)
    }

    /// The columns, in the order they were added.
    pub closed spec fn spec_columns(self) -> Seq<AttributeColumn> {
        self.columns@
    }
}

/// The bytes of a string, UTF-8 encoded.
pub open spec fn str_bytes(s: String) -> Seq<u8> {
    encode_utf8(s@)
}

/// The value as a boolean, when it is one.
pub open spec fn spec_as_bool(v: AttrValue) -> Option<bool> {
    match v.kind {
        AttrKind::Bool(b) => Some(b),
        _ => None,
    }
}

/// The value as an `i64`, when it is an integer in that range.
pub open spec fn spec_as_i64(v: AttrValue) -> Option<i64> {
    match v.kind {
        AttrKind::Number(nv) => match nv.number {
            JsonNumber::PosInt(u) => if u <= i64::MAX {
                Some(u as i64)
            } else {
                None
            },
            JsonNumber::NegInt(i) => Some(i),
            JsonNumber::Float(_) => None,
        },
        _ => None,
    }
}

/// The value as a `u64`, when it is a non-negative integer.
pub open spec fn spec_as_u64(v: AttrValue) -> Option<u64> {
    match v.kind {
        AttrKind::Number(nv) => match nv.number {
            JsonNumber::PosInt(u) => Some(u),
            _ => None,
        },
        _ => None,
    }
}

/// The binary64 bit pattern of the value, when it is a number; else that
/// of `0.0`.
pub open spec fn spec_f64_bits(v: AttrValue) -> u64 {
    match v.kind {
        AttrKind::Number(nv) => nv.f64_bits,
        _ => 0,
    }
}

/// The binary32 bit pattern of the value rounded to a binary32, when it is
/// a number; else that of `0.0`.
pub open spec fn spec_f32_bits(v: AttrValue) -> u32 {
    match v.kind {
        AttrKind::Number(nv) => nv.f32_bits,
        _ => 0,
    }
}

/// The column type guessed for a value: none for `null`.
pub open spec fn spec_guess_type(v: AttrValue) -> Option<ColumnType> {
    match v.kind {
        AttrKind::Bool(_) => Some(ColumnType::Bool),
        AttrKind::Number(nv) => match nv.number {
            JsonNumber::Float(_) => Some(ColumnType::Double),
            JsonNumber::PosInt(_) => Some(ColumnType::ULong),
            JsonNumber::NegInt(_) => Some(ColumnType::Long),
        },
        AttrKind::String(_) => Some(ColumnType::String),
        AttrKind::Array => Some(ColumnType::Json),
        AttrKind::Object => Some(ColumnType::Json),
        AttrKind::Null => None,
    }
}

/// The column holds text: a string, a date-time or binary data.
pub open spec fn is_text_column(t: ColumnType) -> bool {
    t == ColumnType::String || t == ColumnType::DateTime || t == ColumnType::Binary
}

/// The value is a JSON string.
pub open spec fn is_string(v: AttrValue) -> bool {
    v.kind is String
}

/// The text of a string value.
pub open spec fn string_text(v: AttrValue) -> String {
    match v.kind {
        AttrKind::String(s) => s,
        _ => v.json,
    }
}

/// The encoded value of a column of type `t`: fixed-size numbers little
/// endian, text and JSON as a 32-bit length followed by the bytes.
pub open spec fn value_bytes(t: ColumnType, v: AttrValue) -> Seq<u8> {
    match t {
        ColumnType::Bool => seq![if spec_as_bool(v) == Some(true) { 1u8 } else { 0u8 }],
        ColumnType::Int => le_bytes_u32(
            (match spec_as_i64(v) {
                Some(i) => i,
                None => 0,
            }) as i32 as u32,
        ),
        ColumnType::UInt => le_bytes_u32(
            (match spec_as_u64(v) {
                Some(u) => u,
                None => 0,
            }) as u32,
        ),
        ColumnType::Byte => seq![
            (match spec_as_i64(v) {
                Some(i) => i,
                None => 0,
            }) as u8,
        ],
        ColumnType::UByte => seq![
            (match spec_as_u64(v) {
                Some(u) => u,
                None => 0,
            }) as u8,
        ],
        ColumnType::Short => le_bytes_u16(
            (match spec_as_i64(v) {
                Some(i) => i,
                None => 0,
            }) as i16 as u16,
        ),
        ColumnType::UShort => le_bytes_u16(
            (match spec_as_u64(v) {
                Some(u) => u,
                None => 0,
            }) as u16,
        ),
        ColumnType::Long => le_bytes_u64(
            (match spec_as_i64(v) {
                Some(i) => i,
                None => 0,
            }) as u64,
        ),
        ColumnType::ULong => le_bytes_u64(
            match spec_as_u64(v) {
                Some(u) => u,
                None => 0,
            },
        ),
        ColumnType::Float => le_bytes_u32(spec_f32_bits(v)),
        ColumnType::Double => le_bytes_u64(spec_f64_bits(v)),
        ColumnType::Json => le_bytes_u32(str_bytes(v.json).len() as u32) + str_bytes(v.json),
        _ => le_bytes_u32(str_bytes(string_text(v)).len() as u32) + str_bytes(string_text(v)),
    }
}

/// How the numeric columns encode a JSON number, whatever its
/// representation: a `Double` column writes the number's binary64 value, a
/// `Float` column that value rounded to binary32, a `ULong` column the
/// number when it is a non-negative integer and 0 otherwise, and a `Long`
/// column the number when it is an integer in the range of `i64` and 0
/// otherwise; all little endian.
pub proof fn lemma_number_columns(v: AttrValue)
    requires
        v.kind is Number,
    ensures
        ({
            let nv = v.kind->Number_0;
            &&& value_bytes(ColumnType::Double, v) == le_bytes_u64(nv.f64_bits)
            &&& value_bytes(ColumnType::Float, v) == le_bytes_u32(nv.f32_bits)
            &&& value_bytes(ColumnType::ULong, v) == le_bytes_u64(
                match nv.number {
                    JsonNumber::PosInt(u) => u,
                    _ => 0u64,
                },
            )
            &&& value_bytes(ColumnType::Long, v) == le_bytes_u64(
                match nv.number {
                    JsonNumber::PosInt(u) => if u <= 0x7FFF_FFFF_FFFF_FFFFu64 {
                        u
                    } else {
                        0u64
                    },
                    JsonNumber::NegInt(i) => i as u64,
                    JsonNumber::Float(_) => 0u64,
                },
            )
        }),
{
    let nv = v.kind->Number_0;
    match nv.number {
        JsonNumber::PosInt(u) => {
            if u <= 0x7FFF_FFFF_FFFF_FFFFu64 {
                assert((u as i64) as u64 == u);
            }
        },
        _ => {},
    }
}

/// A value that is not a number encodes as zero in the numeric columns.
pub proof fn lemma_non_number_columns(v: AttrValue)
    requires
        !(v.kind is Number),
    ensures
        value_bytes(ColumnType::Double, v) == le_bytes_u64(0),
        value_bytes(ColumnType::Float, v) == le_bytes_u32(0),
        value_bytes(ColumnType::ULong, v) == le_bytes_u64(0),
        value_bytes(ColumnType::Long, v) == le_bytes_u64(0),
{
}

/// The value as a boolean, when it is one.
pub fn as_bool(value: &AttrValue) -> (r: Option<bool>)
    ensures
        r == spec_as_bool(*value),
{
    match &value.kind {
        AttrKind::Bool(b) => Some(*b),
        _ => None,
    }
}

/// The value as an `i64`, when it is an integer in that range.
pub fn as_i64(value: &AttrValue) -> (r: Option<i64>)
    ensures
        r == spec_as_i64(*value),
{
    match &value.kind {
        AttrKind::Number(nv) => match nv.number {
            JsonNumber::PosInt(u) => if u <= i64::MAX as u64 {
                Some(u as i64)
            } else {
                None
            },
            JsonNumber::NegInt(i) => Some(i),
            JsonNumber::Float(_) => None,
        },
        _ => None,
    }
}

/// The value as a `u64`, when it is a non-negative integer.
pub fn as_u64(value: &AttrValue) -> (r: Option<u64>)
    ensures
        r == spec_as_u64(*value),
{
    match &value.kind {
        AttrKind::Number(nv) => match nv.number {
            JsonNumber::PosInt(u) => Some(u),
            _ => None,
        },
        _ => None,
    }
}

/// Naive type-guessing: booleans, numbers by their representation, strings,
/// and arrays and objects as JSON; nothing for `null`.
pub fn guess_type(value: &AttrValue) -> (r: Option<ColumnType>)
    ensures
        r == spec_guess_type(*value),
{
    match &value.kind {
        AttrKind::Bool(_) => Some(ColumnType::Bool),
        AttrKind::Number(nv) => match nv.number {
            JsonNumber::Float(_) => Some(ColumnType::Double),
            JsonNumber::PosInt(_) => Some(ColumnType::ULong),
            JsonNumber::NegInt(_) => Some(ColumnType::Long),
        },
        AttrKind::String(_) => Some(ColumnType::String),
        AttrKind::Array => Some(ColumnType::Json),
        AttrKind::Object => Some(ColumnType::Json),
        AttrKind::Null => None,
    }
}

/// The number of bytes that the value takes in a column of type `coltype`.
pub fn attr_size(coltype: &ColumnType, colval: &AttrValue) -> (r: usize)
    requires
        is_text_column(*coltype) ==> is_string(*colval),
        value_bytes(*coltype, *colval).len() <= usize::MAX,
    ensures
        r == value_bytes(*coltype, *colval).len(),
{
    match *coltype {
        ColumnType::Byte => 1,
        ColumnType::UByte => 1,
        ColumnType::Bool => 1,
        ColumnType::Short => 2,
        ColumnType::UShort => 2,
        ColumnType::Int => 4,
        ColumnType::UInt => 4,
        ColumnType::Long => 8,
        ColumnType::ULong => 8,
        ColumnType::Float => 4,
        ColumnType::Double => 8,
        ColumnType::Json => 4 + colval.json.as_str().len(),
        _ => {
            match &colval.kind {
                AttrKind::String(s) => 4 + s.as_str().len(),
                _ => 0,
            }
        },
    }
}

/// Appends the column index and the encoded value to `out`.
fn write_column(out: &mut Vec<u8>, index: u16, coltype: ColumnType, val: &AttrValue)
    requires
        is_text_column(coltype) ==> is_string(*val),
        old(out)@.len() + 2 + value_bytes(coltype, *val).len() <= usize::MAX,
    ensures
        final(out)@ == old(out)@ + le_bytes_u16(index) + value_bytes(coltype, *val),
{
    let ghost start = out@;
    let offset = out.len();
    let size = attr_size(&coltype, val);
    // Reserve space for index and value
    out.resize(offset + 2 + size, 0u8);
    // Write index
    write_u16_le(out, offset, index);
    let p = offset + 2;
    let ghost after_index = out@;
    assert(after_index.subrange(0, p as int) =~= start + le_bytes_u16(index));
    match coltype {
        ColumnType::Bool => {
            let b = match as_bool(val) {
                Some(b) => b,
                None => false,
            };
            out.set(p, if b { 1u8 } else { 0u8 });
        },
        ColumnType::Int => {
            let i = match as_i64(val) {
                Some(i) => i,
                None => 0,
            };
            write_u32_le(out, p, i as i32 as u32);
        },
        ColumnType::UInt => {
            let i = match as_u64(val) {
                Some(i) => i,
                None => 0,
            };
            write_u32_le(out, p, i as u32);
        },
        ColumnType::Byte => {
            let b = match as_i64(val) {
                Some(i) => i,
                None => 0,
            };
            out.set(p, b as u8);
        },
        ColumnType::UByte => {
            let b = match as_u64(val) {
                Some(i) => i,
                None => 0,
            };
            out.set(p, b as u8);
        },
        ColumnType::Short => {
            let i = match as_i64(val) {
                Some(i) => i,
                None => 0,
            };
            write_u16_le(out, p, i as i16 as u16);
        },
        ColumnType::UShort => {
            let i = match as_u64(val) {
                Some(i) => i,
                None => 0,
            };
            write_u16_le(out, p, i as u16);
        },
        ColumnType::Long => {
            let i = match as_i64(val) {
                Some(i) => i,
                None => 0,
            };
            write_u64_le(out, p, i as u64);
        },
        ColumnType::ULong => {
            let i = match as_u64(val) {
                Some(i) => i,
                None => 0,
            };
            write_u64_le(out, p, i);
        },
        ColumnType::Float => {
            let f = match &val.kind {
                AttrKind::Number(nv) => nv.f32_bits,
                _ => 0u32,
            };
            write_u32_le(out, p, f);
        },
        ColumnType::Double => {
            let f = match &val.kind {
                AttrKind::Number(nv) => nv.f64_bits,
                _ => 0u64,
            };
            write_u64_le(out, p, f);
        },
        ColumnType::Json => {
            write_text(out, p, val.json.as_str());
        },
        _ => {
            match &val.kind {
                AttrKind::String(s) => {
                    write_text(out, p, s.as_str());
                },
                _ => {},
            }
        },
    }
    assert(out@ =~= start + le_bytes_u16(index) + value_bytes(coltype, *val));
}

/// Writes the byte length of `s` as a `u32` at `p`, then the bytes of `s`.
fn write_text(out: &mut Vec<u8>, p: usize, s: &str)
    requires
        p + 4 + encode_utf8(s@).len() <= old(out)@.len(),
    ensures
        final(out)@ == old(out)@.subrange(0, p as int) + le_bytes_u32(encode_utf8(s@).len() as u32)
            + encode_utf8(s@) + old(out)@.subrange(
            p + 4 + encode_utf8(s@).len(),
            old(out)@.len() as int,
        ),
{
    let bytes = s.as_bytes();
    let len = bytes.len();
    assert(bytes@ == encode_utf8(s@));
    write_u32_le(out, p, len as u32);
    let ghost base = old(out)@;
    let total = out.len();
    let mut i: usize = 0;
    while i < len
        invariant
            bytes@ == encode_utf8(s@),
            base.len() == total,
            len == bytes@.len(),
            p + 4 + len <= base.len(),
            i <= len,
            out@ == base.subrange(0, p as int) + le_bytes_u32(len as u32) + bytes@.take(i as int)
                + base.subrange(p + 4 + i, base.len() as int),
        decreases len - i,
    {
        out.set(p + 4 + i, bytes[i]);
        assert(out@ =~= base.subrange(0, p as int) + le_bytes_u32(len as u32) + bytes@.take(i + 1)
            + base.subrange(p + 4 + i + 1, base.len() as int));
        i = i + 1;
    }
    assert(bytes@.take(len as int) =~= bytes@);
}

/// The value of the first member of `entries` named `name`.
pub open spec fn lookup(entries: Seq<AttrEntry>, name: Seq<char>) -> Option<AttrValue>
    decreases entries.len(),
{
    if entries.len() == 0 {
        None
    } else if entries[0].key@ == name {
        Some(entries[0].value)
    } else {
        lookup(entries.drop_first(), name)
    }
}

/// The bytes that a column adds: its index and its value, when the value
/// is present and not `null`.
pub open spec fn column_size(entries: Seq<AttrEntry>, c: AttributeColumn) -> nat {
    match lookup(entries, c.name@) {
        Some(v) => if v.kind is Null {
            0
        } else {
            2 + value_bytes(c.coltype, v).len()
        },
        None => 0,
    }
}

/// The bytes that the first `n` columns add.
pub open spec fn total_size(entries: Seq<AttrEntry>, cols: Seq<AttributeColumn>, n: int) -> nat
    decreases n,
{
    if n <= 0 {
        0
    } else {
        total_size(entries, cols, n - 1) + column_size(entries, cols[n - 1])
    }
}

/// The bytes that the chosen columns among the first `n` add.
spec fn chosen_size(entries: Seq<AttrEntry>, cols: Seq<AttributeColumn>, chosen: Set<int>, n: int) -> nat
    decreases n,
{
    if n <= 0 {
        0
    } else {
        chosen_size(entries, cols, chosen, n - 1) + if chosen.contains(n - 1) {
            column_size(entries, cols[n - 1])
        } else {
            0
        }
    }
}

proof fn lemma_chosen_at_most_total(
    entries: Seq<AttrEntry>,
    cols: Seq<AttributeColumn>,
    chosen: Set<int>,
    n: int,
)
    ensures
        chosen_size(entries, cols, chosen, n) <= total_size(entries, cols, n),
    decreases n,
{
    if n > 0 {
        lemma_chosen_at_most_total(entries, cols, chosen, n - 1);
    }
}

proof fn lemma_nothing_chosen(entries: Seq<AttrEntry>, cols: Seq<AttributeColumn>, n: int)
    ensures
        chosen_size(entries, cols, Set::empty(), n) == 0,
    decreases n,
{
    if n > 0 {
        lemma_nothing_chosen(entries, cols, n - 1);
    }
}

/// Once a column lacks its value, the encoding of any longer order fails.
proof fn lemma_encode_fails_on(
    entries: Seq<AttrEntry>,
    cols: Seq<AttributeColumn>,
    order: Seq<int>,
    m: int,
)
    requires
        0 <= m <= order.len(),
        encode_in_order(entries, cols, order.take(m)) is None,
    ensures
        encode_in_order(entries, cols, order) is None,
    decreases order.len() - m,
{
    if m < order.len() {
        assert(order.take(m + 1).drop_last() =~= order.take(m));
        lemma_encode_fails_on(entries, cols, order, m + 1);
    } else {
        assert(order.take(m) =~= order);
    }
}

proof fn lemma_choose_one_more(
    entries: Seq<AttrEntry>,
    cols: Seq<AttributeColumn>,
    chosen: Set<int>,
    j: int,
    n: int,
)
    requires
        !chosen.contains(j),
        0 <= j,
    ensures
        j < n ==> chosen_size(entries, cols, chosen.insert(j), n) == chosen_size(
            entries,
            cols,
            chosen,
            n,
        ) + column_size(entries, cols[j]),
        j >= n ==> chosen_size(entries, cols, chosen.insert(j), n) == chosen_size(
            entries,
            cols,
            chosen,
            n,
        ),
    decreases n,
{
    if n > 0 {
        lemma_choose_one_more(entries, cols, chosen, j, n - 1);
    }
}

/// The encoding of the columns in the order `order`: each present, non-null
/// value with its column index; nothing at all when a column has no value.
pub open spec fn encode_in_order(
    entries: Seq<AttrEntry>,
    cols: Seq<AttributeColumn>,
    order: Seq<int>,
) -> Option<Seq<u8>>
    decreases order.len(),
{
    if order.len() == 0 {
        Some(Seq::empty())
    } else {
        match encode_in_order(entries, cols, order.drop_last()) {
            None => None,
            Some(prefix) => {
                let c = cols[order.last()];
                match lookup(entries, c.name@) {
                    None => None,
                    Some(v) => if v.kind is Null {
                        Some(prefix)
                    } else {
                        Some(prefix + le_bytes_u16(c.index) + value_bytes(c.coltype, v))
                    },
                }
            },
        }
    }
}

/// `order` lists the positions of the columns by ascending column index;
/// columns with the same index keep their order.
pub open spec fn ascending_index_order(cols: Seq<AttributeColumn>, order: Seq<int>) -> bool {
    &&& order.len() == cols.len()
    &&& forall|k: int| 0 <= k < order.len() ==> 0 <= #[trigger] order[k] < cols.len()
    &&& forall|k: int, l: int| 0 <= k < l < order.len() ==> #[trigger] order[k] != #[trigger] order[l]
    &&& forall|k: int, l: int|
        0 <= k < l < order.len() ==> cols[#[trigger] order[k]].index <= cols[#[trigger] order[l]].index
    &&& forall|k: int, l: int|
        0 <= k < l < order.len() && cols[#[trigger] order[k]].index == cols[#[trigger] order[l]].index
            ==> order[k] < order[l]
}

/// The value of the first member of `entries` named `name`.
fn find_value<'a>(entries: &'a Vec<AttrEntry>, name: &String) -> (r: Option<&'a AttrValue>)
    ensures
        r == match lookup(entries@, name@) {
            Some(v) => Some(&v),
            None => None::<&AttrValue>,
        },
{
    let mut i: usize = 0;
    assert(entries@.skip(0) =~= entries@);
    while i < entries.len()
        invariant
            i <= entries@.len(),
            lookup(entries@, name@) == lookup(entries@.skip(i as int), name@),
        decreases entries@.len() - i,
    {
        if entries[i].key == *name {
            return Some(&entries[i].value);
        }
        assert(entries@.skip(i as int).drop_first() =~= entries@.skip(i + 1));
        i = i + 1;
    }
    None
}

/// Encodes the attribute values of a city object under the schema: the
/// columns by ascending index, each present value that is not `null` as its
/// column index followed by its encoded value.  Gives no bytes when the
/// attributes are not an object, are empty, or lack a value for some column
/// of the schema.
pub fn encode_attributes_with_schema(attr: &Attributes, schema: &AttributeSchema) -> (r: Vec<u8>)
    requires
        match *attr {
            Attributes::Object(entries) => {
                &&& forall|i: int|
                    0 <= i < schema.spec_columns().len() ==> match lookup(
                        entries@,
                        (#[trigger] schema.spec_columns()[i]).name@,
                    ) {
                        Some(v) => !(v.kind is Null) && is_text_column(schema.spec_columns()[i].coltype)
                            ==> is_string(v),
                        None => true,
                    }
                &&& total_size(entries@, schema.spec_columns(), schema.spec_columns().len() as int) <= usize::MAX
            },
            Attributes::NotObject => true,
        },
    ensures
        match *attr {
            Attributes::Object(entries) => {
                &&& entries@.len() == 0 ==> r@ == Seq::<u8>::empty()
                &&& entries@.len() > 0 ==> exists|order: Seq<int>|
                    ascending_index_order(schema.spec_columns(), order) && r@ == match encode_in_order(
                        entries@,
                        schema.spec_columns(),
                        order,
                    ) {
                        Some(b) => b,
                        None => Seq::<u8>::empty(),
                    }
            },
            Attributes::NotObject => r@ == Seq::<u8>::empty(),
        },
{
    let entries = match attr {
        Attributes::Object(entries) => entries,
        Attributes::NotObject => {
            return Vec::new();
        },
    };
    if entries.len() == 0 {
        return Vec::new();
    }
    let cols = &schema.columns;
    let mut sorted_schema: Vec<(u32, usize)> = Vec::new();
    let mut i: usize = 0;
    while i < cols.len()
        invariant
            i <= cols@.len(),
            sorted_schema@ == Seq::new(i as nat, |k: int| (cols@[k].index as u32, k as usize)),
        decreases cols@.len() - i,
    {
        sorted_schema.push((cols[i].index as u32, i));
        assert(sorted_schema@ =~= Seq::new((i + 1) as nat, |k: int| (cols@[k].index as u32, k as usize)));
        i = i + 1;
    }
    let ghost pairs = sorted_schema@;
    sort_by_first(&mut sorted_schema);
    let ghost perm = choose|perm: Seq<int>| stable_asc_arrangement(pairs, sorted_schema@, perm);
    proof {
        assert forall|k: int| 0 <= k < perm.len() implies #[trigger] sorted_schema@[k] == (
        cols@[perm[k]].index as u32, perm[k] as usize) by {
            assert(sorted_schema@[k] == pairs[perm[k]]);
        }
        assert(ascending_index_order(cols@, perm)) by {
            assert forall|k: int, l: int| 0 <= k < l < perm.len() implies cols@[#[trigger] perm[k]].index
                <= cols@[#[trigger] perm[l]].index by {
                assert(sorted_schema@[k].0 <= sorted_schema@[l].0);
            }
            assert forall|k: int, l: int|
                0 <= k < l < perm.len() && cols@[#[trigger] perm[k]].index == cols@[#[trigger] perm[l]].index
                implies perm[k] < perm[l] by {
                assert(sorted_schema@[k].0 == sorted_schema@[l].0);
            }
        }
    }
    let mut out: Vec<u8> = Vec::new();
    let ghost mut chosen: Set<int> = Set::empty();
    let mut k: usize = 0;
    assert(perm.take(0) =~= Seq::<int>::empty());
    proof {
        lemma_nothing_chosen(entries@, cols@, cols@.len() as int);
        assert(perm.take(0).to_set() =~= Set::<int>::empty());
    }
    while k < sorted_schema.len()
        invariant
            k <= sorted_schema@.len(),
            sorted_schema@.len() == cols@.len(),
            cols@ == schema.spec_columns(),
            *attr == Attributes::Object(*entries),
            perm.len() == cols@.len(),
            ascending_index_order(cols@, perm),
            forall|m: int| 0 <= m < perm.len() ==> #[trigger] sorted_schema@[m] == (
            cols@[perm[m]].index as u32, perm[m] as usize),
            encode_in_order(entries@, cols@, perm.take(k as int)) == Some(out@),
            chosen == perm.take(k as int).to_set(),
            out@.len() == chosen_size(entries@, cols@, chosen, cols@.len() as int),
            total_size(entries@, cols@, cols@.len() as int) <= usize::MAX,
            forall|i: int|
                0 <= i < cols@.len() ==> match lookup(entries@, (#[trigger] cols@[i]).name@) {
                    Some(v) => !(v.kind is Null) && is_text_column(cols@[i].coltype) ==> is_string(v),
                    None => true,
                },
        decreases sorted_schema@.len() - k,
    {
        let pos = sorted_schema[k].1;
        let ghost j = perm[k as int];
        assert(pos == j);
        let column = &cols[pos];
        assert(perm.take(k + 1).drop_last() =~= perm.take(k as int));
        assert(perm.take(k + 1).last() == j);
        match find_value(entries, &column.name) {
            None => {
                proof {
                    assert(lookup(entries@, cols@[j].name@) is None);
                    assert(encode_in_order(entries@, cols@, perm.take(k + 1)) is None);
                    lemma_encode_fails_on(entries@, cols@, perm, k + 1);
                    assert(ascending_index_order(cols@, perm));
                }
                let empty: Vec<u8> = Vec::new();
                assert(ascending_index_order(schema.spec_columns(), perm) && empty@ == match encode_in_order(
                    entries@,
                    schema.spec_columns(),
                    perm,
                ) {
                    Some(b) => b,
                    None => Seq::<u8>::empty(),
                });
                return empty;
            },
            Some(val) => {
                proof {
                    assert(!chosen.contains(j)) by {
                        if chosen.contains(j) {
                            let m = choose|m: int| 0 <= m < k && #[trigger] perm.take(k as int)[m] == j;
                            assert(perm[m] == perm[k as int]);
                        }
                    }
                    lemma_choose_one_more(entries@, cols@, chosen, j, cols@.len() as int);
                    lemma_chosen_at_most_total(entries@, cols@, chosen.insert(j), cols@.len() as int);
                    assert(perm.take(k + 1).to_set() =~= chosen.insert(j)) by {
                        assert forall|x: int| perm.take(k + 1).to_set().contains(x) implies chosen.insert(
                            j,
                        ).contains(x) by {
                            let m = choose|m: int| 0 <= m < k + 1 && #[trigger] perm.take(k + 1)[m] == x;
                            if m < k {
                                assert(perm.take(k as int)[m] == x);
                            }
                        }
                        assert forall|x: int| chosen.insert(j).contains(x) implies perm.take(
                            k + 1,
                        ).to_set().contains(x) by {
                            if x == j {
                                assert(perm.take(k + 1)[k as int] == x);
                            } else {
                                let m = choose|m: int| 0 <= m < k && #[trigger] perm.take(k as int)[m] == x;
                                assert(perm.take(k + 1)[m] == x);
                            }
                        }
                    }
                }
                let is_null = match val.kind {
                    AttrKind::Null => true,
                    _ => false,
                };
                if !is_null {
                    write_column(&mut out, column.index, column.coltype, val);
                }
                proof {
                    chosen = chosen.insert(j);
                }
            },
        }
        k = k + 1;
    }
    assert(perm.take(k as int) =~= perm);
    assert(ascending_index_order(schema.spec_columns(), perm) && out@ == match encode_in_order(
        entries@,
        schema.spec_columns(),
        perm,
    ) {
        Some(b) => b,
        None => Seq::<u8>::empty(),
    });
    out
}

/// Some column is named `name`.
pub open spec fn has_column(cols: Seq<AttributeColumn>, name: Seq<char>) -> bool {
    exists|i: int| 0 <= i < cols.len() && (#[trigger] cols[i]).name@ == name
}

/// The first column named `name`.
pub open spec fn column_position(cols: Seq<AttributeColumn>, name: Seq<char>) -> Option<int>
    decreases cols.len(),
{
    if cols.len() == 0 {
        None
    } else {
        match column_position(cols.drop_last(), name) {
            Some(p) => Some(p),
            None => if cols.last().name@ == name {
                Some(cols.len() - 1)
            } else {
                None
            },
        }
    }
}

/// The schema grown by a member of an attribute object: a new column,
/// numbered by the column count, of the type guessed for the value, unless
/// a column of that name exists or the value is `null`.
pub open spec fn add_entry(cols: Seq<AttributeColumn>, e: AttrEntry) -> Seq<AttributeColumn> {
    if has_column(cols, e.key@) || e.value.kind is Null {
        cols
    } else {
        match spec_guess_type(e.value) {
            Some(t) => cols.push(AttributeColumn { name: e.key, index: cols.len() as u16, coltype: t }),
            None => cols,
        }
    }
}

/// The schema grown by each member of an attribute object in turn.
pub open spec fn add_entries(cols: Seq<AttributeColumn>, entries: Seq<AttrEntry>) -> Seq<
    AttributeColumn,
>
    decreases entries.len(),
{
    if entries.len() == 0 {
        cols
    } else {
        add_entry(add_entries(cols, entries.drop_last()), entries.last())
    }
}

/// No two columns share a name.
pub open spec fn names_unique(cols: Seq<AttributeColumn>) -> bool {
    forall|i: int, j: int|
        0 <= i < j < cols.len() ==> (#[trigger] cols[i]).name@ != (#[trigger] cols[j]).name@
}

/// Growing a schema by the members of an object never gives two columns
/// the same name.
pub proof fn lemma_add_entries_names_unique(cols: Seq<AttributeColumn>, entries: Seq<AttrEntry>)
    requires
        names_unique(cols),
    ensures
        names_unique(add_entries(cols, entries)),
    decreases entries.len(),
{
    if entries.len() > 0 {
        lemma_add_entries_names_unique(cols, entries.drop_last());
        let prev = add_entries(cols, entries.drop_last());
        let e = entries.last();
        let next = add_entry(prev, e);
        if !(has_column(prev, e.key@) || e.value.kind is Null) && spec_guess_type(e.value) is Some {
            assert forall|i: int, j: int| 0 <= i < j < next.len() implies (#[trigger] next[i]).name@
                != (#[trigger] next[j]).name@ by {
                if j == prev.len() {
                    assert(next[i] == prev[i]);
                    assert(next[j].name@ == e.key@);
                } else {
                    assert(next[i] == prev[i] && next[j] == prev[j]);
                }
            }
        }
    }
}

/// After growing a schema by the members of an object, each member either
/// has a column or is `null`.
proof fn lemma_add_entries_covers(cols: Seq<AttributeColumn>, entries: Seq<AttrEntry>)
    ensures
        forall|k: int|
            0 <= k < entries.len() ==> has_column(add_entries(cols, entries), (#[trigger] entries[k]).key@)
                || entries[k].value.kind is Null,
    decreases entries.len(),
{
    if entries.len() > 0 {
        let init = entries.drop_last();
        lemma_add_entries_covers(cols, init);
        let prev = add_entries(cols, init);
        let next = add_entries(cols, entries);
        assert(next == add_entry(prev, entries.last()));
        assert forall|k: int| 0 <= k < entries.len() implies has_column(next, (#[trigger] entries[k]).key@)
            || entries[k].value.kind is Null by {
            if k < init.len() {
                assert(entries[k] == init[k]);
                if has_column(prev, entries[k].key@) {
                    let i = choose|i: int| 0 <= i < prev.len() && (#[trigger] prev[i]).name@ == entries[k].key@;
                    assert(next[i] == prev[i]);
                }
            } else {
                let e = entries.last();
                if !has_column(prev, e.key@) && !(e.value.kind is Null) {
                    assert(spec_guess_type(e.value) is Some);
                    assert(next[prev.len() as int].name@ == e.key@);
                }
            }
        }
    }
}

/// Members that each have a column or are `null` leave a schema as it is.
proof fn lemma_add_entries_known(cols: Seq<AttributeColumn>, entries: Seq<AttrEntry>)
    requires
        forall|k: int|
            0 <= k < entries.len() ==> has_column(cols, (#[trigger] entries[k]).key@)
                || entries[k].value.kind is Null,
    ensures
        add_entries(cols, entries) == cols,
    decreases entries.len(),
{
    if entries.len() > 0 {
        let init = entries.drop_last();
        assert forall|k: int| 0 <= k < init.len() implies has_column(cols, (#[trigger] init[k]).key@)
            || init[k].value.kind is Null by {
            assert(init[k] == entries[k]);
        }
        lemma_add_entries_known(cols, init);
        assert(has_column(cols, entries[entries.len() - 1].key@)
            || entries[entries.len() - 1].value.kind is Null);
    }
}

/// Adding the members of an object a second time changes nothing: every
/// member already has its column, or is `null`.
pub proof fn lemma_add_entries_twice(cols: Seq<AttributeColumn>, entries: Seq<AttrEntry>)
    ensures
        add_entries(add_entries(cols, entries), entries) == add_entries(cols, entries),
{
    lemma_add_entries_covers(cols, entries);
    lemma_add_entries_known(add_entries(cols, entries), entries);
}

/// Adding the attributes of a city object to a schema.
pub trait AttributeSchemaMethods {
    fn add_attributes(&mut self, attrs: &Attributes);
}

impl AttributeSchema {
    /// The schema without columns.
    pub fn new() -> (r: AttributeSchema)
        ensures
            r.spec_columns() == Seq::<AttributeColumn>::empty(),
    {
        AttributeSchema { columns: Vec::new() }
    }

    /// The number of columns.
    pub fn len(&self) -> (r: usize)
        ensures
            r == self.spec_columns().len(),
    {
        self.columns.len()
    }

    /// Whether some column is named `name`.
    pub fn contains_key(&self, name: &String) -> (r: bool)
        ensures
            r == has_column(self.spec_columns(), name@),
    {
        match self.position(name) {
            Some(_) => true,
            None => false,
        }
    }

    /// The column index and type of the column named `name`.
    pub fn get(&self, name: &String) -> (r: Option<(u16, ColumnType)>)
        ensures
            r == match column_position(self.spec_columns(), name@) {
                Some(p) => Some((self.spec_columns()[p].index, self.spec_columns()[p].coltype)),
                None => None,
            },
    {
        match self.position(name) {
            Some(p) => Some((self.columns[p].index, self.columns[p].coltype)),
            None => None,
        }
    }

    /// The first column named `name`.
    fn position(&self, name: &String) -> (r: Option<usize>)
        ensures
            r matches Some(p) ==> column_position(self.spec_columns(), name@) == Some(p as int),
            r is None ==> column_position(self.spec_columns(), name@) is None,
            (r is Some) == has_column(self.spec_columns(), name@),
            r matches Some(p) ==> p < self.spec_columns().len() && self.spec_columns()[p as int].name@ == name@,
    {
        position_in(&self.columns, name)
    }

    /// Sets the column named `name` to column index `index` and type
    /// `coltype`: in its place when the schema has such a column, appended
    /// otherwise.  Returns the index and type it had, if any.
    pub fn insert(&mut self, name: String, index: u16, coltype: ColumnType) -> (r: Option<(u16, ColumnType)>)
        ensures
            match column_position(old(self).spec_columns(), name@) {
                Some(p) => {
                    &&& r == Some((old(self).spec_columns()[p].index, old(self).spec_columns()[p].coltype))
                    &&& final(self).spec_columns() == old(self).spec_columns().update(
                        p,
                        AttributeColumn { name: old(self).spec_columns()[p].name, index, coltype },
                    )
                },
                None => {
                    &&& r is None
                    &&& final(self).spec_columns() == old(self).spec_columns().push(
                        AttributeColumn { name, index, coltype },
                    )
                },
            },
    {
        let mut taken = AttributeSchema::new();
        std::mem::swap(self, &mut taken);
        proof {
            use_type_invariant(&taken);
        }
        let ghost start = taken.spec_columns();
        let mut cols = taken.columns;
        let r = match position_in(&cols, &name) {
            Some(p) => {
                let previous = (cols[p].index, cols[p].coltype);
                let existing = cols[p].name.clone();
                cols.set(p, AttributeColumn { name: existing, index, coltype });
                assert forall|i: int, j: int| 0 <= i < j < cols@.len() implies (
                #[trigger] cols@[i]).name@ != (#[trigger] cols@[j]).name@ by {
                    assert(cols@[i].name@ == start[i].name@);
                    assert(cols@[j].name@ == start[j].name@);
                }
                Some(previous)
            },
            None => {
                let ghost key = name@;
                cols.push(AttributeColumn { name, index, coltype });
                assert forall|i: int, j: int| 0 <= i < j < cols@.len() implies (
                #[trigger] cols@[i]).name@ != (#[trigger] cols@[j]).name@ by {
                    assert(cols@[i] == start[i]);
                    if j < start.len() {
                        assert(cols@[j] == start[j]);
                    } else {
                        assert(cols@[j].name@ == key);
                    }
                }
                None
            },
        };
        *self = AttributeSchema { columns: cols };
        r
    }

    /// The columns, in the order they were added.
    pub fn columns(&self) -> (r: &Vec<AttributeColumn>)
        ensures
            r@ == self.spec_columns(),
    {
        &self.columns
    }
}

/// The first column of `cols` named `name`.
fn position_in(cols: &Vec<AttributeColumn>, name: &String) -> (r: Option<usize>)
    ensures
        r matches Some(p) ==> column_position(cols@, name@) == Some(p as int),
        r is None ==> column_position(cols@, name@) is None,
        (r is Some) == has_column(cols@, name@),
        r matches Some(p) ==> p < cols@.len() && cols@[p as int].name@ == name@,
{
    let mut i: usize = 0;
    while i < cols.len()
        invariant
            i <= cols@.len(),
            column_position(cols@.take(i as int), name@) is None,
            !has_column(cols@.take(i as int), name@),
        decreases cols@.len() - i,
    {
        assert(cols@.take(i + 1).drop_last() =~= cols@.take(i as int));
        if cols[i].name == *name {
            proof {
                lemma_position_prefix(cols@, name@, i + 1);
                assert(cols@.take(i + 1)[i as int] == cols@[i as int]);
            }
            return Some(i);
        }
        proof {
            assert forall|k: int| 0 <= k < i + 1 implies (#[trigger] cols@.take(i + 1)[k]).name@
                != name@ by {
                if k < i {
                    assert(cols@.take(i + 1)[k] == cols@.take(i as int)[k]);
                }
            }
        }
        i = i + 1;
    }
    assert(cols@.take(i as int) =~= cols@);
    None
}

/// The first column named `name` in a prefix that has one is the first in
/// the whole.
proof fn lemma_position_prefix(cols: Seq<AttributeColumn>, name: Seq<char>, m: int)
    requires
        0 <= m <= cols.len(),
        column_position(cols.take(m), name) is Some,
    ensures
        column_position(cols, name) == column_position(cols.take(m), name),
    decreases cols.len() - m,
{
    if m < cols.len() {
        assert(cols.drop_last().take(m) =~= cols.take(m));
        lemma_position_prefix(cols.drop_last(), name, m);
    } else {
        assert(cols.take(m) =~= cols);
    }
}

impl AttributeSchemaMethods for AttributeSchema {
    /// Adds the attributes of a city object.  For an object, each member in
    /// turn adds a column when the schema has none of its name and its value
    /// is not `null`.  Anything else stands for a single column named
    /// `json`: it is added, or, when the schema has it, renumbered by the
    /// column count.
    fn add_attributes(&mut self, attrs: &Attributes)
        ensures
            names_unique(final(self).spec_columns()),
            match *attrs {
                Attributes::Object(entries) => final(self).spec_columns() == add_entries(
                    old(self).spec_columns(),
                    entries@,
                ),
                Attributes::NotObject => match column_position(old(self).spec_columns(), "json"@) {
                    Some(p) => final(self).spec_columns() == old(self).spec_columns().update(
                        p,
                        AttributeColumn {
                            name: old(self).spec_columns()[p].name,
                            index: old(self).spec_columns().len() as u16,
                            coltype: ColumnType::Json,
                        },
                    ),
                    None => {
                        &&& final(self).spec_columns().len() == old(self).spec_columns().len() + 1
                        &&& final(self).spec_columns().take(old(self).spec_columns().len() as int)
                            == old(self).spec_columns()
                        &&& final(self).spec_columns().last().name@ == "json"@
                        &&& final(self).spec_columns().last().index == old(self).spec_columns().len() as u16
                        &&& final(self).spec_columns().last().coltype == ColumnType::Json
                    },
                },
            },
    {
        broadcast use vstd::string::group_string_axioms;

        let mut taken = AttributeSchema::new();
        std::mem::swap(self, &mut taken);
        proof {
            use_type_invariant(&taken);
        }
        let ghost start = taken.spec_columns();
        assert(start == old(self).spec_columns());
        let mut cols = taken.columns;
        match attrs {
            Attributes::NotObject => {
                let name = "json".to_string();
                assert(name@ == "json"@);
                let index = cols.len() as u16;
                match position_in(&cols, &name) {
                    Some(p) => {
                        let existing = cols[p].name.clone();
                        cols.set(p, AttributeColumn { name: existing, index, coltype: ColumnType::Json });
                        assert(cols@ == start.update(
                            p as int,
                            AttributeColumn {
                                name: start[p as int].name,
                                index: start.len() as u16,
                                coltype: ColumnType::Json,
                            },
                        ));
                        assert forall|i: int, j: int| 0 <= i < j < cols@.len() implies (
                        #[trigger] cols@[i]).name@ != (#[trigger] cols@[j]).name@ by {
                            assert(cols@[i].name == start[i].name);
                            assert(cols@[j].name == start[j].name);
                        }
                    },
                    None => {
                        cols.push(AttributeColumn { name, index, coltype: ColumnType::Json });
                        assert(cols@.take(start.len() as int) =~= start);
                        assert(!has_column(start, "json"@));
                        assert forall|i: int, j: int| 0 <= i < j < cols@.len() implies (
                        #[trigger] cols@[i]).name@ != (#[trigger] cols@[j]).name@ by {
                            assert(cols@[i] == start[i]);
                            if j < start.len() {
                                assert(cols@[j] == start[j]);
                            }
                        }
                    },
                }
            },
            Attributes::Object(entries) => {
                let mut i: usize = 0;
                while i < entries.len()
                    invariant
                        i <= entries@.len(),
                        cols@ == add_entries(start, entries@.take(i as int)),
                    decreases entries@.len() - i,
                {
                    let entry = &entries[i];
                    assert(entries@.take(i + 1).drop_last() =~= entries@.take(i as int));
                    let is_null = match entry.value.kind {
                        AttrKind::Null => true,
                        _ => false,
                    };
                    let known = match position_in(&cols, &entry.key) {
                        Some(_) => true,
                        None => false,
                    };
                    if !known && !is_null {
                        match guess_type(&entry.value) {
                            Some(coltype) => {
                                let index = cols.len() as u16;
                                cols.push(AttributeColumn { name: entry.key.clone(), index, coltype });
                            },
                            None => {},
                        }
                    }
                    i = i + 1;
                }
                assert(entries@.take(i as int) =~= entries@);
                proof {
                    lemma_add_entries_names_unique(start, entries@);
                }
            },
        }
        *self = AttributeSchema { columns: cols };
    }
}

} // verus!
