//! Typed values, the tagged row codec, and the catalog text format.
//!
//! A row is encoded as its values one after the other, each a tag byte then
//! its payload: `0` and eight little-endian bytes for a `Long`; `1`, a
//! little-endian `u32` byte length and the UTF-8 bytes for a `Text`; `2` and
//! one byte (`1` or `0`) for a `Bool`. The row carries no length of its own.
use vstd::prelude::*;
use vstd::utf8::{decode_utf8, encode_utf8, valid_utf8};
use crate::buffer::BufferPool;
use crate::storage::{DiskManager, PageId, PAGE_SIZE};
use crate::text::{
    decimal, i64_text, lines, lines_of, parse_u32, parse_usize, parsed_u32, parsed_usize,
    signed_decimal, split_on, split_seq, string_from_utf8, to_upper, trim, trimmed, u64_text,
    uppercased,
};

verus! {

broadcast use vstd::utf8::group_utf8_lib;

/// A typed value of a row.
#[derive(Debug, Clone)]
pub enum Value {
    Long(i64),
    Text(String),
    Bool(bool),
}

/// What a `Value` holds, with a text as its characters.
pub enum ValueModel {
    Long(i64),
    Text(Seq<char>),
    Bool(bool),
}

impl View for Value {
    type V = ValueModel;

    open spec fn view(&self) -> ValueModel {
        match self {
            Value::Long(n) => ValueModel::Long(*n),
            Value::Text(s) => ValueModel::Text(s@),
            Value::Bool(b) => ValueModel::Bool(*b),
        }
    }
}

/// An ordered sequence of values.
#[derive(Debug)]
pub struct Row {
    pub values: Vec<Value>,
}

impl View for Row {
    type V = Seq<ValueModel>;

    open spec fn view(&self) -> Seq<ValueModel> {
        Seq::new(self.values@.len(), |i: int| self.values@[i]@)
    }
}

pub open spec fn pow256(k: nat) -> int
    decreases k,
{
    if k == 0 {
        1
    } else {
        256 * pow256((k - 1) as nat)
    }
}

/// The `k` low bytes of `v`, least significant first.
pub open spec fn le_seq(v: int, k: nat) -> Seq<u8>
    decreases k,
{
    if k == 0 {
        Seq::empty()
    } else {
        seq![(v % 256) as u8] + le_seq(v / 256, (k - 1) as nat)
    }
}

/// The number whose little-endian bytes are `s`.
pub open spec fn le_value(s: Seq<u8>) -> int
    decreases s.len(),
{
    if s.len() == 0 {
        0
    } else {
        s[0] as int + 256 * le_value(s.drop_first())
    }
}

/// The two's-complement bit pattern of `n`, as an unsigned number.
pub open spec fn unsigned_of(n: i64) -> int {
    if n >= 0 {
        n as int
    } else {
        n as int + pow256(8)
    }
}

/// The signed number of a 64-bit two's-complement pattern.
pub open spec fn signed_of(u: int) -> int {
    if u <= i64::MAX {
        u
    } else {
        u - pow256(8)
    }
}

pub open spec fn bool_byte(b: bool) -> u8 {
    if b {
        1
    } else {
        0
    }
}

pub open spec fn encode_value(v: ValueModel) -> Seq<u8> {
    match v {
        ValueModel::Long(n) => seq![0u8] + le_seq(unsigned_of(n), 8),
        ValueModel::Text(s) => seq![1u8] + le_seq(encode_utf8(s).len() as int, 4) + encode_utf8(s),
        ValueModel::Bool(b) => seq![2u8, bool_byte(b)],
    }
}

/// The encoding of a row: its values' encodings, concatenated.
pub open spec fn encode_values(vs: Seq<ValueModel>) -> Seq<u8>
    decreases vs.len(),
{
    if vs.len() == 0 {
        Seq::empty()
    } else {
        encode_value(vs[0]) + encode_values(vs.drop_first())
    }
}

/// Every text fits the codec's 32-bit length field.
pub open spec fn encodable(vs: Seq<ValueModel>) -> bool {
    forall|i: int|
        0 <= i < vs.len() ==> (#[trigger] vs[i] is Text ==> encode_utf8(vs[i]->Text_0).len()
            <= u32::MAX)
}

/// Decodes the value at the start of a non-empty buffer: the value and the
/// number of bytes it took, or `None` for an unknown tag, a truncated field or
/// text that is not UTF-8.
pub open spec fn decode_one(b: Seq<u8>) -> Option<(ValueModel, int)> {
    if b[0] == 0 {
        if b.len() < 9 {
            None
        } else {
            Some((ValueModel::Long(signed_of(le_value(b.subrange(1, 9))) as i64), 9))
        }
    } else if b[0] == 1 {
        if b.len() < 5 {
            None
        } else {
            let n = le_value(b.subrange(1, 5));
            if b.len() < 5 + n {
                None
            } else if !valid_utf8(b.subrange(5, 5 + n)) {
                None
            } else {
                Some((ValueModel::Text(decode_utf8(b.subrange(5, 5 + n))), 5 + n))
            }
        }
    } else if b[0] == 2 {
        if b.len() < 2 {
            None
        } else {
            Some((ValueModel::Bool(b[1] != 0), 2))
        }
    } else {
        None
    }
}

/// Decodes a whole buffer into values; `None` unless every byte is consumed
/// by well-formed values.
pub open spec fn decode_values(b: Seq<u8>) -> Option<Seq<ValueModel>>
    decreases b.len(),
{
    if b.len() == 0 {
        Some(Seq::empty())
    } else {
        match decode_one(b) {
            Some((v, used)) => if 0 < used <= b.len() {
                match decode_values(b.subrange(used, b.len() as int)) {
                    Some(rest) => Some(seq![v] + rest),
                    None => None,
                }
            } else {
                None
            },
            None => None,
        }
    }
}

pub open spec fn prepend(done: Seq<ValueModel>, rest: Option<Seq<ValueModel>>) -> Option<
    Seq<ValueModel>,
> {
    match rest {
        Some(r) => Some(done + r),
        None => None,
    }
}

proof fn lemma_le_round_trip(v: int, k: nat)
    requires
        0 <= v < pow256(k),
    ensures
        le_seq(v, k).len() == k,
        le_value(le_seq(v, k)) == v,
    decreases k,
{
    if k > 0 {
        assert(v / 256 < pow256((k - 1) as nat));
        lemma_le_round_trip(v / 256, (k - 1) as nat);
        assert(le_seq(v, k).drop_first() =~= le_seq(v / 256, (k - 1) as nat));
    }
}

proof fn lemma_le_value_bound(s: Seq<u8>)
    ensures
        0 <= le_value(s) < pow256(s.len()),
    decreases s.len(),
{
    if s.len() > 0 {
        lemma_le_value_bound(s.drop_first());
    }
}

proof fn lemma_pow256_facts()
    ensures
        pow256(4) == 0x1_0000_0000,
        pow256(8) == 0x1_0000_0000_0000_0000,
{
    reveal_with_fuel(pow256, 9);
}

proof fn lemma_encode_value_decodes(v: ValueModel, tail: Seq<u8>)
    requires
        encodable(seq![v]),
    ensures
        encode_value(v).len() > 0,
        decode_one(encode_value(v) + tail) == Some((v, encode_value(v).len() as int)),
{
    lemma_pow256_facts();
    let e = encode_value(v);
    let b = e + tail;
    match v {
        ValueModel::Long(n) => {
            lemma_le_round_trip(unsigned_of(n), 8);
            assert(b.subrange(1, 9) =~= le_seq(unsigned_of(n), 8));
        },
        ValueModel::Text(s) => {
            assert(seq![v][0] is Text);
            let u = encode_utf8(s);
            lemma_le_round_trip(u.len() as int, 4);
            assert(b.subrange(1, 5) =~= le_seq(u.len() as int, 4));
            assert(b.subrange(5, 5 + u.len() as int) =~= u);
        },
        ValueModel::Bool(x) => {},
    }
}

/// Decoding the encoding of some values followed by more bytes gives those
/// values, then whatever the rest decodes to.
proof fn lemma_decode_prefix(vs: Seq<ValueModel>, tail: Seq<u8>)
    requires
        encodable(vs),
    ensures
        decode_values(encode_values(vs) + tail) == prepend(vs, decode_values(tail)),
    decreases vs.len(),
{
    if vs.len() == 0 {
        assert(encode_values(vs) + tail =~= tail);
        assert(prepend(vs, decode_values(tail)) == decode_values(tail)) by {
            match decode_values(tail) {
                Some(r) => {
                    assert(vs + r =~= r);
                },
                None => {},
            }
        }
    } else {
        let v = vs[0];
        let rest = vs.drop_first();
        assert(encodable(seq![v])) by {
            assert(seq![v][0] == vs[0]);
        }
        assert(encodable(rest)) by {
            assert forall|i: int| 0 <= i < rest.len() implies (#[trigger] rest[i] is Text
                ==> encode_utf8(rest[i]->Text_0).len() <= u32::MAX) by {
                assert(rest[i] == vs[i + 1]);
            }
        }
        let b = encode_values(vs) + tail;
        let e = encode_value(v);
        let after = encode_values(rest) + tail;
        assert(b =~= e + after);
        lemma_encode_value_decodes(v, after);
        assert(b.subrange(e.len() as int, b.len() as int) =~= after);
        lemma_decode_prefix(rest, tail);
        match decode_values(tail) {
            Some(r) => {
                assert(seq![v] + (rest + r) =~= vs + r);
            },
            None => {},
        }
    }
}

/// Decoding the encoding of a row gives the row back.
pub proof fn lemma_row_round_trip(vs: Seq<ValueModel>)
    requires
        encodable(vs),
    ensures
        decode_values(encode_values(vs)) == Some(vs),
{
    lemma_decode_prefix(vs, Seq::empty());
    assert(encode_values(vs) + Seq::<u8>::empty() =~= encode_values(vs));
    assert(vs + Seq::<ValueModel>::empty() =~= vs);
}

/// A buffer that starts with a byte other than the three tags does not decode.
pub proof fn lemma_unknown_tag_rejected(b: Seq<u8>)
    requires
        b.len() > 0,
        b[0] > 2,
    ensures
        decode_values(b) is None,
{
}

/// A row cut short inside its last value does not decode: whole values,
/// then a proper, non-empty prefix of one more value's encoding.
pub proof fn lemma_truncated_rejected(vs: Seq<ValueModel>, v: ValueModel, k: int)
    requires
        encodable(vs),
        encodable(seq![v]),
        0 < k < encode_value(v).len(),
    ensures
        decode_values(encode_values(vs) + encode_value(v).subrange(0, k)) is None,
{
    let t = encode_value(v).subrange(0, k);
    lemma_decode_prefix(vs, t);
    lemma_pow256_facts();
    match v {
        ValueModel::Long(n) => {
            lemma_le_round_trip(unsigned_of(n), 8);
        },
        ValueModel::Text(s) => {
            let u = encode_utf8(s);
            assert(seq![v][0] is Text);
            lemma_le_round_trip(u.len() as int, 4);
            if k >= 5 {
                assert(t.subrange(1, 5) =~= le_seq(u.len() as int, 4));
            }
        },
        ValueModel::Bool(x) => {},
    }
}

proof fn lemma_encode_values_push(vs: Seq<ValueModel>, v: ValueModel)
    ensures
        encode_values(vs.push(v)) == encode_values(vs) + encode_value(v),
    decreases vs.len(),
{
    if vs.len() == 0 {
        assert(vs.push(v).drop_first() =~= Seq::<ValueModel>::empty());
        assert(vs.push(v)[0] == v);
        assert(encode_values(Seq::<ValueModel>::empty()) =~= Seq::<u8>::empty());
        assert(encode_values(vs) =~= Seq::<u8>::empty());
        assert(encode_values(vs.push(v)) =~= encode_value(v) + Seq::<u8>::empty());
        assert(encode_values(vs.push(v)) =~= encode_values(vs) + encode_value(v));
    } else {
        lemma_encode_values_push(vs.drop_first(), v);
        assert(vs.push(v).drop_first() =~= vs.drop_first().push(v));
        assert(encode_values(vs.push(v)) =~= encode_values(vs) + encode_value(v));
    }
}

/// Appends the `k` low bytes of `v`, least significant first.
fn push_le(bytes: &mut Vec<u8>, v: u64, k: usize)
    requires
        k <= 8,
    ensures
        final(bytes)@ == old(bytes)@ + le_seq(v as int, k as nat),
    decreases k,
{
    if k > 0 {
        bytes.push((v % 256) as u8);
        push_le(bytes, v / 256, k - 1);
        assert(final(bytes)@ =~= old(bytes)@ + le_seq(v as int, k as nat));
    }
}

/// Reads `k` little-endian bytes at `off`.
fn read_le(b: &[u8], off: usize, k: usize) -> (r: u64)
    requires
        k <= 8,
        off + k <= b@.len(),
        b@.len() <= usize::MAX,
    ensures
        r == le_value(b@.subrange(off as int, off + k)),
    decreases k,
{
    if k == 0 {
        0
    } else {
        let rest = read_le(b, off + 1, k - 1);
        proof {
            lemma_le_value_bound(b@.subrange(off + 1, off + k));
            lemma_pow256_facts();
            assert(pow256((k - 1) as nat) <= pow256(7)) by {
                lemma_pow256_mono((k - 1) as nat, 7);
            }
            reveal_with_fuel(pow256, 8);
            assert(b@.subrange(off as int, off + k).drop_first() =~= b@.subrange(
                off + 1,
                off + k,
            ));
        }
        b[off] as u64 + 256 * rest
    }
}

proof fn lemma_pow256_mono(a: nat, b: nat)
    requires
        a <= b,
    ensures
        0 < pow256(a) <= pow256(b),
    decreases b,
{
    if a < b {
        lemma_pow256_mono(a, (b - 1) as nat);
    } else {
        lemma_pow256_pos(a);
    }
}

proof fn lemma_pow256_pos(a: nat)
    ensures
        0 < pow256(a),
    decreases a,
{
    if a > 0 {
        lemma_pow256_pos((a - 1) as nat);
    }
}

/// The bytes from the first value that does not decode to the end, or
/// `None` when every value decodes.
pub open spec fn first_bad(b: Seq<u8>) -> Option<Seq<u8>>
    decreases b.len(),
{
    if b.len() == 0 {
        None
    } else {
        match decode_one(b) {
            Some((v, used)) => if 0 < used <= b.len() {
                first_bad(b.subrange(used, b.len() as int))
            } else {
                Some(b)
            },
            None => Some(b),
        }
    }
}

/// The message for a value that does not decode, from its bytes on; `None`
/// for a text that is not UTF-8, whose message is the UTF-8 check's.
pub open spec fn value_error(b: Seq<u8>) -> Option<Seq<char>> {
    if b[0] == 0 {
        Some("Unexpected end of data for Long"@)
    } else if b[0] == 1 {
        if b.len() < 5 {
            Some("Unexpected end of data for Text length"@)
        } else if b.len() < 5 + le_value(b.subrange(1, 5)) {
            Some("Unexpected end of data for Text content"@)
        } else {
            None
        }
    } else if b[0] == 2 {
        Some("Unexpected end of data for Bool"@)
    } else {
        Some("Unknown type tag: "@ + decimal(b[0] as nat))
    }
}

impl Row {
    /// Encodes the row with the tagged codec.
    pub fn to_bytes(&self) -> (r: Vec<u8>)
        requires
            encodable(self@),
        ensures
            r@ == encode_values(self@),
    {
        let mut bytes: Vec<u8> = Vec::new();
        let mut i: usize = 0;
        proof {
            lemma_pow256_facts();
        }
        while i < self.values.len()
            invariant
                0 <= i <= self.values@.len(),
                encodable(self@),
                pow256(8) == 0x1_0000_0000_0000_0000,
                pow256(4) == 0x1_0000_0000,
                bytes@ == encode_values(self@.subrange(0, i as int)),
            decreases self.values@.len() - i,
        {
            let ghost before = bytes@;
            match &self.values[i] {
                Value::Long(n) => {
                    bytes.push(0);
                    let u: u64 = if *n >= 0 {
                        *n as u64
                    } else {
                        u64::MAX - ((-(*n + 1)) as u64)
                    };
                    push_le(&mut bytes, u, 8);
                },
                Value::Text(s) => {
                    bytes.push(1);
                    let sb = s.as_str().as_bytes();
                    assert(self@[i as int] is Text);
                    let len = sb.len() as u32;
                    push_le(&mut bytes, len as u64, 4);
                    let mut j: usize = 0;
                    let ghost mid = bytes@;
                    while j < sb.len()
                        invariant
                            0 <= j <= sb@.len(),
                            bytes@ == mid + sb@.subrange(0, j as int),
                        decreases sb@.len() - j,
                    {
                        bytes.push(sb[j]);
                        j += 1;
                        assert(bytes@ =~= mid + sb@.subrange(0, j as int));
                    }
                    assert(sb@.subrange(0, j as int) =~= sb@);
                },
                Value::Bool(b) => {
                    bytes.push(2);
                    bytes.push(if *b {
                        1
                    } else {
                        0
                    });
                },
            }
            proof {
                let v = self@[i as int];
                assert(self@.subrange(0, i + 1) =~= self@.subrange(0, i as int).push(v));
                lemma_encode_values_push(self@.subrange(0, i as int), v);
                assert(bytes@ =~= before + encode_value(v));
            }
            i += 1;
        }
        assert(self@.subrange(0, i as int) =~= self@);
        bytes
    }

    /// Decodes a buffer produced by `to_bytes`. Fails on an unknown tag, a
    /// truncated field, text that is not UTF-8, or bytes left over.
    pub fn from_bytes(bytes: &[u8]) -> (r: Result<Row, String>)
        ensures
            r is Ok <==> decode_values(bytes@) is Some,
            r is Ok ==> r->Ok_0@ == decode_values(bytes@)->Some_0,
            first_bad(bytes@) is Some && value_error(first_bad(bytes@)->Some_0) is Some ==> r is Err
                && r->Err_0@ == value_error(first_bad(bytes@)->Some_0)->Some_0,
    {
        let mut values: Vec<Value> = Vec::new();
        let mut offset: usize = 0;
        let ghost b = bytes@;
        let byte_count = bytes.len();
        proof {
            lemma_pow256_facts();
            assert(b.subrange(0, b.len() as int) =~= b);
            assert(Seq::<ValueModel>::empty() + Seq::<ValueModel>::empty() =~= Seq::<
                ValueModel,
            >::empty());
        }
        while offset < byte_count
            invariant
                byte_count == b.len(),
                0 <= offset <= b.len(),
                b.len() <= usize::MAX,
                b == bytes@,
                pow256(8) == 0x1_0000_0000_0000_0000,
                pow256(4) == 0x1_0000_0000,
                decode_values(b) == prepend(
                    Row { values }@,
                    decode_values(b.subrange(offset as int, b.len() as int)),
                ),
                first_bad(b) == first_bad(b.subrange(offset as int, b.len() as int)),
            decreases b.len() - offset,
        {
            let ghost rest = b.subrange(offset as int, b.len() as int);
            let ghost done = Row { values }@;
            let type_tag = bytes[offset];
            let start = offset;
            offset += 1;
            let v: Value;
            if type_tag == 0 {
                if bytes.len() - offset < 8 {
                    proof {
                        assert(decode_one(rest) is None);
                        assert(first_bad(rest) == Some(rest));
                    }
                    return Err("Unexpected end of data for Long".to_string());
                }
                let u = read_le(bytes, offset, 8);
                proof {
                    assert(rest.subrange(1, 9) =~= b.subrange(offset as int, offset + 8));
                }
                let n: i64 = if u <= i64::MAX as u64 {
                    u as i64
                } else {
                    -((u64::MAX - u) as i64) - 1
                };
                offset += 8;
                v = Value::Long(n);
            } else if type_tag == 1 {
                if bytes.len() - offset < 4 {
                    proof {
                        assert(decode_one(rest) is None);
                        assert(first_bad(rest) == Some(rest));
                    }
                    return Err("Unexpected end of data for Text length".to_string());
                }
                let len = read_le(bytes, offset, 4);
                proof {
                    assert(rest.subrange(1, 5) =~= b.subrange(offset as int, offset + 4));
                    lemma_le_value_bound(b.subrange(offset as int, offset + 4));
                }
                offset += 4;
                if (bytes.len() - offset) < len as usize {
                    proof {
                        assert(decode_one(rest) is None);
                        assert(first_bad(rest) == Some(rest));
                    }
                    return Err("Unexpected end of data for Text content".to_string());
                }
                let len = len as usize;
                let mut text_bytes: Vec<u8> = Vec::with_capacity(len);
                let mut j: usize = 0;
                while j < len
                    invariant
                        0 <= j <= len,
                        offset + len <= b.len(),
                        b.len() <= usize::MAX,
                        b == bytes@,
                        text_bytes@ =~= b.subrange(offset as int, offset + j),
                    decreases len - j,
                {
                    text_bytes.push(bytes[offset + j]);
                    j += 1;
                }
                proof {
                    assert(rest.subrange(5, 5 + len) =~= text_bytes@);
                }
                match string_from_utf8(text_bytes) {
                    Ok(s) => {
                        offset += len;
                        v = Value::Text(s);
                    },
                    Err(e) => {
                        proof {
                            assert(decode_one(rest) is None);
                        assert(first_bad(rest) == Some(rest));
                        }
                        return Err(e);
                    },
                }
            } else if type_tag == 2 {
                if offset >= bytes.len() {
                    proof {
                        assert(decode_one(rest) is None);
                        assert(first_bad(rest) == Some(rest));
                    }
                    return Err("Unexpected end of data for Bool".to_string());
                }
                let x = bytes[offset] != 0;
                offset += 1;
                v = Value::Bool(x);
            } else {
                proof {
                    assert(decode_one(rest) is None);
                    assert(first_bad(rest) == Some(rest));
                    reveal_strlit("Unknown type tag: ");
                }
                let mut msg = "Unknown type tag: ".to_string();
                msg.append(i64_text(type_tag as i64).as_str());
                return Err(msg);
            }
            proof {
                assert(decode_one(rest) == Some((v@, (offset - start) as int)));
                assert(rest.subrange(offset - start, rest.len() as int) =~= b.subrange(
                    offset as int,
                    b.len() as int,
                ));
            }
            let ghost vm = v@;
            values.push(v);
            proof {
                assert(Row { values }@ =~= done.push(vm));
                match decode_values(b.subrange(offset as int, b.len() as int)) {
                    Some(r) => {
                        assert(done + (seq![vm] + r) =~= done.push(vm) + r);
                    },
                    None => {},
                }
            }
        }
        proof {
            assert(b.subrange(offset as int, b.len() as int) =~= Seq::<u8>::empty());
            assert(Row { values }@ + Seq::<ValueModel>::empty() =~= Row { values }@);
        }
        Ok(Row { values })
    }
}

/// Renders a value for query output: a `Long` in base 10, a `Text` as is, a
/// `Bool` as `true` or `false`.
pub fn format_value(value: &Value) -> (r: String)
    ensures
        r@ == value_text(value@),
{
    match value {
        Value::Long(n) => i64_text(*n),
        Value::Text(s) => s.clone(),
        Value::Bool(b) => if *b {
            "true".to_string()
        } else {
            "false".to_string()
        },
    }
}

pub open spec fn value_text(v: ValueModel) -> Seq<char> {
    match v {
        ValueModel::Long(n) => signed_decimal(n as int),
        ValueModel::Text(s) => s,
        ValueModel::Bool(b) => if b {
            "true"@
        } else {
            "false"@
        },
    }
}

/// Column types that a table schema records.
#[derive(Debug, Clone, Copy, PartialEq, Eq)]
pub enum DataType {
    Int,
    Integer,
    BigInt,
    SmallInt,
    Text,
    Varchar,
    Char,
    Str,
    Boolean,
    /// Any other type; the catalog stores it as `TEXT`.
    Other,
}

/// A column of a table schema.
#[derive(Debug, Clone)]
pub struct ColumnDef {
    pub name: String,
    pub data_type: DataType,
}

/// Catalog entry of one table.
#[derive(Debug, Clone)]
pub struct TableMetadata {
    pub schema: Vec<ColumnDef>,
    pub first_page_id: PageId,
    pub last_page_id: PageId,
}

/// The database: a buffer pool over the file image, and the catalog of
/// tables in order of creation.
pub struct Database {
    pub buffer_pool: BufferPool,
    pub tables: Vec<(String, TableMetadata)>,
    pub persistent: bool,
    pub saved_catalog: Option<String>,
}

/// A database with a catalog file has its current catalog text saved.
pub open spec fn catalog_saved(db: Database) -> bool {
    db.persistent ==> db.saved_catalog is Some && db.saved_catalog->Some_0@ == catalog_text_of(
        db.tables@,
    )
}

/// Table names are unique.
pub open spec fn names_unique(tables: Seq<(String, TableMetadata)>) -> bool {
    forall|i: int, j: int|
        0 <= i < tables.len() && 0 <= j < tables.len() && i != j ==> (#[trigger] tables[i]).0@
            != (#[trigger] tables[j]).0@
}

/// Whether some table is named `name`.
pub open spec fn has_name(tables: Seq<(String, TableMetadata)>, name: Seq<char>) -> bool {
    exists|i: int| 0 <= i < tables.len() && (#[trigger] tables[i]).0@ == name
}

impl Database {
    pub open spec fn wf(&self) -> bool {
        &&& self.buffer_pool.wf()
        &&& names_unique(self.tables@)
    }

    /// A database without a catalog file: `save_catalog` records nothing.
    pub fn with_buffer_pool(buffer_pool: BufferPool) -> (r: Self)
        requires
            buffer_pool.wf(),
        ensures
            r.wf(),
            r.buffer_pool == buffer_pool,
            r.tables@.len() == 0,
    {
        Database { buffer_pool, tables: Vec::new(), persistent: false, saved_catalog: None }
    }

    /// Finds a table by name.
    pub fn find_table(&self, name: &String) -> (r: Option<usize>)
        ensures
            r is Some ==> r->Some_0 < self.tables@.len() && self.tables@[r->Some_0 as int].0@
                == name@,
            r is None ==> !has_name(self.tables@, name@),
    {
        let mut i: usize = 0;
        while i < self.tables.len()
            invariant
                0 <= i <= self.tables@.len(),
                forall|k: int| 0 <= k < i ==> (#[trigger] self.tables@[k]).0@ != name@,
            decreases self.tables@.len() - i,
        {
            if self.tables[i].0 == *name {
                return Some(i);
            }
            i += 1;
        }
        None
    }

    /// Whether a table of that name exists.
    pub fn has_table(&self, name: &String) -> (r: bool)
        ensures
            r == has_name(self.tables@, name@),
    {
        self.find_table(name).is_some()
    }

    /// The names of all tables, in order of creation.
    pub fn table_names(&self) -> (r: Vec<String>)
        ensures
            r@.len() == self.tables@.len(),
            forall|i: int| 0 <= i < r@.len() ==> #[trigger] r@[i]@ == self.tables@[i].0@,
    {
        let mut r: Vec<String> = Vec::new();
        let mut i: usize = 0;
        while i < self.tables.len()
            invariant
                0 <= i <= self.tables@.len(),
                r@.len() == i,
                forall|k: int| 0 <= k < i ==> #[trigger] r@[k]@ == self.tables@[k].0@,
            decreases self.tables@.len() - i,
        {
            r.push(self.tables[i].0.clone());
            i += 1;
        }
        r
    }
}

/// The keyword that the catalog writes for a column type.
pub open spec fn type_keyword(t: DataType) -> Seq<char> {
    match t {
        DataType::Int => "INT"@,
        DataType::Integer => "INT"@,
        DataType::BigInt => "BIGINT"@,
        DataType::SmallInt => "SMALLINT"@,
        DataType::Text => "TEXT"@,
        DataType::Varchar => "VARCHAR"@,
        DataType::Char => "CHAR"@,
        DataType::Str => "STRING"@,
        DataType::Boolean => "BOOLEAN"@,
        DataType::Other => "TEXT"@,
    }
}

/// The catalog line of a column: two spaces, its name, `|`, its type keyword.
pub open spec fn column_line(c: ColumnDef) -> Seq<char> {
    "  "@ + c.name@ + "|"@ + type_keyword(c.data_type) + "\n"@
}

pub open spec fn columns_text(cols: Seq<ColumnDef>) -> Seq<char>
    decreases cols.len(),
{
    if cols.len() == 0 {
        Seq::empty()
    } else {
        columns_text(cols.drop_last()) + column_line(cols.last())
    }
}

/// The catalog entry of a table: `name|first|last|count`, then one line per
/// column.
pub open spec fn table_text(name: Seq<char>, m: TableMetadata) -> Seq<char> {
    name + "|"@ + decimal(m.first_page_id as nat) + "|"@ + decimal(m.last_page_id as nat) + "|"@
        + decimal(m.schema@.len()) + "\n"@ + columns_text(m.schema@)
}

/// The whole catalog text: the entries of all tables, in order.
pub open spec fn catalog_text_of(tables: Seq<(String, TableMetadata)>) -> Seq<char>
    decreases tables.len(),
{
    if tables.len() == 0 {
        Seq::empty()
    } else {
        catalog_text_of(tables.drop_last()) + table_text(tables.last().0@, tables.last().1)
    }
}

impl DataType {
    /// The catalog keyword of the type.
    pub fn keyword(&self) -> (r: String)
        ensures
            r@ == type_keyword(*self),
    {
        match self {
            DataType::Int => "INT".to_string(),
            DataType::Integer => "INT".to_string(),
            DataType::BigInt => "BIGINT".to_string(),
            DataType::SmallInt => "SMALLINT".to_string(),
            DataType::Text => "TEXT".to_string(),
            DataType::Varchar => "VARCHAR".to_string(),
            DataType::Char => "CHAR".to_string(),
            DataType::Str => "STRING".to_string(),
            DataType::Boolean => "BOOLEAN".to_string(),
            DataType::Other => "TEXT".to_string(),
        }
    }
}

impl Database {
    /// Renders the catalog in its text format.
    pub fn catalog_text(&self) -> (r: String)
        ensures
            r@ == catalog_text_of(self.tables@),
    {
        let mut out = String::new();
        let mut i: usize = 0;
        while i < self.tables.len()
            invariant
                0 <= i <= self.tables@.len(),
                out@ == catalog_text_of(self.tables@.subrange(0, i as int)),
            decreases self.tables@.len() - i,
        {
            let ghost before = out@;
            let name = &self.tables[i].0;
            let meta = &self.tables[i].1;
            out.append(name.as_str());
            out.append("|");
            out.append(u64_text(meta.first_page_id as u64).as_str());
            out.append("|");
            out.append(u64_text(meta.last_page_id as u64).as_str());
            out.append("|");
            out.append(u64_text(meta.schema.len() as u64).as_str());
            out.append("\n");
            let ghost mid = out@;
            let mut j: usize = 0;
            while j < meta.schema.len()
                invariant
                    0 <= j <= meta.schema@.len(),
                    out@ == mid + columns_text(meta.schema@.subrange(0, j as int)),
                decreases meta.schema@.len() - j,
            {
                let col = &meta.schema[j];
                let ghost b = out@;
                out.append("  ");
                out.append(col.name.as_str());
                out.append("|");
                out.append(col.data_type.keyword().as_str());
                out.append("\n");
                proof {
                    let cs = meta.schema@.subrange(0, j + 1);
                    assert(cs.drop_last() =~= meta.schema@.subrange(0, j as int));
                    assert(out@ =~= b + column_line(meta.schema@[j as int]));
                }
                j += 1;
            }
            proof {
                assert(meta.schema@.subrange(0, j as int) =~= meta.schema@);
                let ts = self.tables@.subrange(0, i + 1);
                assert(ts.drop_last() =~= self.tables@.subrange(0, i as int));
                assert(out@ =~= before + table_text(self.tables@[i as int].0@, *meta));
            }
            i += 1;
        }
        proof {
            assert(self.tables@.subrange(0, i as int) =~= self.tables@);
        }
        out
    }

    /// Records the catalog text for writing, when the database has a catalog
    /// file.
    pub fn save_catalog(&mut self)
        ensures
            final(self).buffer_pool == old(self).buffer_pool,
            final(self).tables == old(self).tables,
            final(self).persistent == old(self).persistent,
            old(self).persistent ==> final(self).saved_catalog is Some && final(self).saved_catalog->Some_0@ == catalog_text_of(old(self).tables@),
            !old(self).persistent ==> final(self).saved_catalog == old(self).saved_catalog,
    {
        if self.persistent {
            self.saved_catalog = Some(self.catalog_text());
        }
    }

    /// The catalog text saved since the last call, if any.
    pub fn take_saved_catalog(&mut self) -> (r: Option<String>)
        ensures
            r == old(self).saved_catalog,
            final(self).saved_catalog is None,
            final(self).buffer_pool == old(self).buffer_pool,
            final(self).tables == old(self).tables,
            final(self).persistent == old(self).persistent,
    {
        let mut r: Option<String> = None;
        std::mem::swap(&mut r, &mut self.saved_catalog);
        r
    }
}

/// A table as the catalog describes it: columns (name and type), first and
/// last page ids.
pub type TableModel = (Seq<(Seq<char>, DataType)>, PageId, PageId);

pub open spec fn column_model(c: ColumnDef) -> (Seq<char>, DataType) {
    (c.name@, c.data_type)
}

pub open spec fn table_model(m: TableMetadata) -> TableModel {
    (Seq::new(m.schema@.len(), |j: int| column_model(m.schema@[j])), m.first_page_id, m.last_page_id)
}

/// The catalog as names and table models, in order.
pub open spec fn catalog_model(tables: Seq<(String, TableMetadata)>) -> Seq<(Seq<char>, TableModel)> {
    Seq::new(tables.len(), |i: int| (tables[i].0@, table_model(tables[i].1)))
}

/// The column type of a keyword already in upper case; unknown keywords
/// read as `TEXT`.
pub open spec fn keyword_type(k: Seq<char>) -> DataType {
    if k == "INT"@ {
        DataType::Int
    } else if k == "INTEGER"@ {
        DataType::Integer
    } else if k == "BIGINT"@ {
        DataType::BigInt
    } else if k == "SMALLINT"@ {
        DataType::SmallInt
    } else if k == "TEXT"@ {
        DataType::Text
    } else if k == "VARCHAR"@ {
        DataType::Varchar
    } else if k == "CHAR"@ {
        DataType::Char
    } else if k == "STRING"@ {
        DataType::Str
    } else if k == "BOOLEAN"@ {
        DataType::Boolean
    } else {
        DataType::Text
    }
}

/// The fields of a table line `name|first|last|count`; `None` unless the
/// line has four fields and all three numbers parse.
pub open spec fn header_fields(line: Seq<char>) -> Option<(Seq<char>, PageId, PageId, usize)> {
    let parts = split_seq(line, '|');
    if parts.len() == 4 && parsed_u32(parts[1]) is Some && parsed_u32(parts[2]) is Some
        && parsed_usize(parts[3]) is Some {
        Some(
            (
                parts[0],
                parsed_u32(parts[1])->Some_0,
                parsed_u32(parts[2])->Some_0,
                parsed_usize(parts[3])->Some_0,
            ),
        )
    } else {
        None
    }
}

/// The column of a column line `name|TYPE`, read after trimming.
pub open spec fn column_fields(line: Seq<char>) -> Option<(Seq<char>, DataType)> {
    let parts = split_seq(trimmed(line), '|');
    if parts.len() == 2 {
        Some((parts[0], keyword_type(uppercased(parts[1]))))
    } else {
        None
    }
}

/// The well-formed column lines among the `k` lines from `a`.
pub open spec fn columns_in(lines: Seq<Seq<char>>, a: int, k: int) -> Seq<(Seq<char>, DataType)>
    decreases k,
{
    if k <= 0 {
        Seq::empty()
    } else {
        let c = columns_in(lines, a, k - 1);
        match column_fields(lines[a + k - 1]) {
            Some(x) => c.push(x),
            None => c,
        }
    }
}

/// The catalog with `name` bound to `m`: in place when the name is there,
/// else at the end.
pub open spec fn upsert(ts: Seq<(Seq<char>, TableModel)>, name: Seq<char>, m: TableModel) -> Seq<
    (Seq<char>, TableModel),
> {
    if exists|i: int| 0 <= i < ts.len() && ts[i].0 == name {
        let i = choose|i: int| 0 <= i < ts.len() && ts[i].0 == name;
        ts.update(i, (name, m))
    } else {
        ts.push((name, m))
    }
}

/// Reads catalog lines from line `i` on into `ts`. Blank lines and lines
/// that are not a table line are skipped; a table line takes up to `count`
/// following lines as its column lines, of which malformed ones are skipped;
/// a later entry for a name replaces the earlier one.
pub open spec fn load_from(lines: Seq<Seq<char>>, i: int, ts: Seq<(Seq<char>, TableModel)>) -> Seq<
    (Seq<char>, TableModel),
>
    decreases lines.len() - i,
{
    if i < 0 || i >= lines.len() {
        ts
    } else if trimmed(lines[i]).len() == 0 {
        load_from(lines, i + 1, ts)
    } else {
        match header_fields(lines[i]) {
            None => load_from(lines, i + 1, ts),
            Some((name, first, last, n)) => {
                let k = if n <= lines.len() - (i + 1) {
                    n as int
                } else {
                    lines.len() - (i + 1)
                };
                load_from(lines, i + 1 + k, upsert(ts, name, (columns_in(lines, i + 1, k), first, last)))
            },
        }
    }
}

/// The catalog that a catalog text describes.
pub open spec fn parse_catalog(text: Seq<char>) -> Seq<(Seq<char>, TableModel)> {
    load_from(lines_of(text), 0, Seq::empty())
}

/// The column type that the catalog reads for a keyword, in any case.
pub fn string_to_datatype(s: &str) -> (r: DataType)
    ensures
        r == keyword_type(uppercased(s@)),
{
    let u = to_upper(s);
    if u == "INT".to_string() {
        DataType::Int
    } else if u == "INTEGER".to_string() {
        DataType::Integer
    } else if u == "BIGINT".to_string() {
        DataType::BigInt
    } else if u == "SMALLINT".to_string() {
        DataType::SmallInt
    } else if u == "TEXT".to_string() {
        DataType::Text
    } else if u == "VARCHAR".to_string() {
        DataType::Varchar
    } else if u == "CHAR".to_string() {
        DataType::Char
    } else if u == "STRING".to_string() {
        DataType::Str
    } else if u == "BOOLEAN".to_string() {
        DataType::Boolean
    } else {
        DataType::Text
    }
}

fn read_column(line: &String) -> (r: Option<ColumnDef>)
    ensures
        r is Some <==> column_fields(line@) is Some,
        r is Some ==> column_model(r->Some_0) == column_fields(line@)->Some_0,
{
    let t = trim(line.as_str());
    let parts = split_on(t.as_str(), '|');
    if parts.len() != 2 {
        return None;
    }
    Some(ColumnDef { name: parts[0].clone(), data_type: string_to_datatype(parts[1].as_str()) })
}

impl Database {
    /// Binds `name` to `meta`, replacing an entry of the same name in place.
    fn upsert_table(&mut self, name: String, meta: TableMetadata)
        requires
            names_unique(old(self).tables@),
        ensures
            names_unique(final(self).tables@),
            catalog_model(final(self).tables@) == upsert(
                catalog_model(old(self).tables@),
                name@,
                table_model(meta),
            ),
            final(self).buffer_pool == old(self).buffer_pool,
            final(self).persistent == old(self).persistent,
            final(self).saved_catalog == old(self).saved_catalog,
    {
        let ghost t0 = self.tables@;
        let ghost m0 = catalog_model(t0);
        let ghost nv = name@;
        let ghost mv = table_model(meta);
        match self.find_table(&name) {
            Some(i) => {
                self.tables.set(i, (name, meta));
                proof {
                    assert(m0[i as int].0 == nv);
                    let j = choose|j: int| 0 <= j < m0.len() && m0[j].0 == nv;
                    assert(t0[j].0@ == nv);
                    assert(j == i as int);
                    assert(catalog_model(self.tables@) =~= m0.update(i as int, (nv, mv)));
                    assert forall|a: int, b: int|
                        0 <= a < self.tables@.len() && 0 <= b < self.tables@.len() && a != b implies (#[trigger] self.tables@[a]).0@
                        != (#[trigger] self.tables@[b]).0@ by {
                        if a != i && b != i {
                            assert(self.tables@[a] == t0[a]);
                            assert(self.tables@[b] == t0[b]);
                        } else if a == i {
                            assert(self.tables@[b] == t0[b]);
                            assert(t0[i as int].0@ == nv);
                        } else {
                            assert(self.tables@[a] == t0[a]);
                            assert(t0[i as int].0@ == nv);
                        }
                    }
                }
            },
            None => {
                self.tables.push((name, meta));
                proof {
                    assert(!(exists|j: int| 0 <= j < m0.len() && m0[j].0 == nv)) by {
                        if exists|j: int| 0 <= j < m0.len() && m0[j].0 == nv {
                            let j = choose|j: int| 0 <= j < m0.len() && m0[j].0 == nv;
                            assert(t0[j].0@ == nv);
                        }
                    }
                    assert(catalog_model(self.tables@) =~= m0.push((nv, mv)));
                    assert forall|a: int, b: int|
                        0 <= a < self.tables@.len() && 0 <= b < self.tables@.len() && a != b implies (#[trigger] self.tables@[a]).0@
                        != (#[trigger] self.tables@[b]).0@ by {
                        if a < t0.len() {
                            assert(self.tables@[a] == t0[a]);
                        }
                        if b < t0.len() {
                            assert(self.tables@[b] == t0[b]);
                        }
                    }
                }
            },
        }
    }

    /// Adds the tables that a catalog text describes.
    fn load_catalog(&mut self, text: &str)
        requires
            names_unique(old(self).tables@),
        ensures
            names_unique(final(self).tables@),
            catalog_model(final(self).tables@) == load_from(
                lines_of(text@),
                0,
                catalog_model(old(self).tables@),
            ),
            final(self).buffer_pool == old(self).buffer_pool,
            final(self).persistent == old(self).persistent,
            final(self).saved_catalog == old(self).saved_catalog,
    {
        let ls = lines(text);
        let ghost lv = lines_of(text@);
        assert(ls@.len() == lv.len());
        let mut i: usize = 0;
        while i < ls.len()
            invariant
                0 <= i <= ls@.len(),
                ls@.len() == lv.len(),
                forall|k: int| 0 <= k < ls@.len() ==> #[trigger] ls@[k]@ == lv[k],
                names_unique(self.tables@),
                self.buffer_pool == old(self).buffer_pool,
                self.persistent == old(self).persistent,
                self.saved_catalog == old(self).saved_catalog,
                load_from(lv, 0, catalog_model(old(self).tables@)) == load_from(
                    lv,
                    i as int,
                    catalog_model(self.tables@),
                ),
            decreases ls@.len() - i,
        {
            let line = &ls[i];
            let t = trim(line.as_str());
            if t.as_str().is_empty() {
                i += 1;
                continue;
            }
            let parts = split_on(line.as_str(), '|');
            if parts.len() != 4 {
                i += 1;
                continue;
            }
            let name = parts[0].clone();
            let first = match parse_u32(parts[1].as_str()) {
                Some(v) => v,
                None => {
                    i += 1;
                    continue;
                },
            };
            let last = match parse_u32(parts[2].as_str()) {
                Some(v) => v,
                None => {
                    i += 1;
                    continue;
                },
            };
            let count = match parse_usize(parts[3].as_str()) {
                Some(v) => v,
                None => {
                    i += 1;
                    continue;
                },
            };
            let total = ls.len();
            let remaining = total - (i + 1);
            let k = if count <= remaining {
                count
            } else {
                remaining
            };
            let mut schema: Vec<ColumnDef> = Vec::new();
            let mut j: usize = 0;
            while j < k
                invariant
                    0 <= j <= k,
                    i + 1 + k <= ls@.len(),
                    ls@.len() <= usize::MAX,
                    ls@.len() == lv.len(),
                    forall|q: int| 0 <= q < ls@.len() ==> #[trigger] ls@[q]@ == lv[q],
                    Seq::new(schema@.len(), |q: int| column_model(schema@[q])) == columns_in(
                        lv,
                        i + 1,
                        j as int,
                    ),
                decreases k - j,
            {
                let ghost before = schema@;
                match read_column(&ls[i + 1 + j]) {
                    Some(c) => {
                        schema.push(c);
                        assert(Seq::new(schema@.len(), |q: int| column_model(schema@[q])) =~= Seq::new(
                            before.len(),
                            |q: int| column_model(before[q]),
                        ).push(column_model(schema@.last())));
                    },
                    None => {},
                }
                j += 1;
            }
            let meta = TableMetadata { schema, first_page_id: first, last_page_id: last };
            self.upsert_table(name, meta);
            i = i + 1 + k;
        }
    }

    /// Opens a database over the image of its file and, when there is one,
    /// the text of its catalog file. Later catalog saves are recorded.
    pub fn open(image: &[u8], catalog: Option<&str>, capacity: usize) -> (r: Self)
        requires
            image@.len() as int / (PAGE_SIZE as int) <= u32::MAX,
        ensures
            r.wf(),
            r.persistent,
            r.saved_catalog is None,
            r.buffer_pool.next_id() == image@.len() as int / (PAGE_SIZE as int),
            r.buffer_pool.capacity_of() == capacity,
            forall|id: PageId|
                (id as int) < image@.len() as int / (PAGE_SIZE as int) ==> #[trigger] r.buffer_pool.current(id)
                    == Some(image@.subrange(id * PAGE_SIZE, id * PAGE_SIZE + PAGE_SIZE)),
            catalog is None ==> r.tables@.len() == 0,
            catalog is Some ==> catalog_model(r.tables@) == parse_catalog(catalog->Some_0@),
    {
        let disk = DiskManager::open(image);
        let pool = BufferPool::new(disk, capacity);
        let mut db = Database { buffer_pool: pool, tables: Vec::new(), persistent: true, saved_catalog: None };
        assert(catalog_model(db.tables@) =~= Seq::empty());
        match catalog {
            Some(text) => db.load_catalog(text),
            None => {},
        }
        db
    }
}

} // verus!
