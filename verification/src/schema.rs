//! The schema catalog: relation descriptors and their durable, deterministic
//! byte encoding, staged onto pages through the buffer manager.
//!
//! The persisted form is length-delimited throughout: counts and lengths are
//! little-endian 64-bit words, SQL types and attributes are tag bytes. Page 0
//! holds the blob's total length; the blob itself is packed onto pages 1 and
//! up. Names are kept as UTF-8 bytes.

use crate::buffer::{BufferManager, FrameHandle};
use crate::codec::{
    read_bytes_at, read_word_at, spec_word_at, write_bytes_at, write_word_at,
};
use crate::page::PAGE_SIZE;
use vstd::bytes::*;
use vstd::prelude::*;

verus! {

/// A column's SQL type.
#[derive(Clone, Copy, PartialEq, Eq, Structural, Debug)]
pub enum SqlType {
    Char(u64),
    Varchar(u64),
    Integer,
}

/// A column attribute.
#[derive(Clone, Copy, PartialEq, Eq, Structural, Debug)]
pub enum SqlAttribute {
    Null,
    NotNull,
}

/// A column: a name, a SQL type, and attributes.
#[derive(Clone, PartialEq, Eq, Debug)]
pub struct Column {
    pub name: Vec<u8>,
    pub datatype: SqlType,
    pub attributes: Vec<SqlAttribute>,
}

/// The mathematical value of a column.
pub struct ColumnV {
    pub name: Seq<u8>,
    pub datatype: SqlType,
    pub attributes: Seq<SqlAttribute>,
}

impl View for Column {
    type V = ColumnV;

    open spec fn view(&self) -> ColumnV {
        ColumnV { name: self.name@, datatype: self.datatype, attributes: self.attributes@ }
    }
}

impl Column {
    /// Build a column.
    pub fn new(name: Vec<u8>, datatype: SqlType, attributes: Vec<SqlAttribute>) -> (r: Column)
        ensures
            r@.name == name@,
            r@.datatype == datatype,
            r@.attributes == attributes@,
    {
        Column { name, datatype, attributes }
    }
}

/// A relation: a name and an ordered list of columns.
#[derive(Clone, PartialEq, Eq, Debug)]
pub struct Relation {
    pub name: Vec<u8>,
    pub columns: Vec<Column>,
}

/// The mathematical value of a relation.
pub struct RelationV {
    pub name: Seq<u8>,
    pub columns: Seq<ColumnV>,
}

impl View for Relation {
    type V = RelationV;

    open spec fn view(&self) -> RelationV {
        RelationV { name: self.name@, columns: self.columns@.map_values(|c: Column| c@) }
    }
}

impl Relation {
    /// A relation with no columns yet.
    pub fn new(name: Vec<u8>) -> (r: Relation)
        ensures
            r@.name == name@,
            r@.columns == Seq::<ColumnV>::empty(),
    {
        let r = Relation { name, columns: Vec::new() };
        proof {
            assert(r@.columns =~= Seq::<ColumnV>::empty());
        }
        r
    }

    /// Append a column.
    pub fn add_column(&mut self, column: Column)
        ensures
            final(self)@.name == old(self)@.name,
            final(self)@.columns == old(self)@.columns.push(column@),
    {
        let ghost cv = column@;
        self.columns.push(column);
        proof {
            assert(self@.columns =~= old(self)@.columns.push(cv));
        }
    }
}

/// The schema: an ordered list of relations.
#[derive(Clone, PartialEq, Eq, Debug)]
pub struct Schema {
    pub relations: Vec<Relation>,
}

impl View for Schema {
    type V = Seq<RelationV>;

    open spec fn view(&self) -> Seq<RelationV> {
        self.relations@.map_values(|r: Relation| r@)
    }
}

/// The encoding of a 64-bit count or length.
pub open spec fn enc_u64(x: u64) -> Seq<u8> {
    spec_u64_to_le_bytes(x)
}

/// The tag byte of an attribute.
pub open spec fn enc_attr(a: SqlAttribute) -> Seq<u8> {
    match a {
        SqlAttribute::Null => seq![0u8],
        SqlAttribute::NotNull => seq![1u8],
    }
}

/// The concatenated attribute tags.
pub open spec fn enc_attrs(s: Seq<SqlAttribute>) -> Seq<u8>
    decreases s.len(),
{
    if s.len() == 0 {
        Seq::empty()
    } else {
        enc_attr(s[0]) + enc_attrs(s.drop_first())
    }
}

/// The tagged encoding of a SQL type.
pub open spec fn enc_type(t: SqlType) -> Seq<u8> {
    match t {
        SqlType::Char(n) => seq![0u8] + enc_u64(n),
        SqlType::Varchar(n) => seq![1u8] + enc_u64(n),
        SqlType::Integer => seq![2u8],
    }
}

/// The encoding of a column: length-prefixed name, type, counted attributes.
pub open spec fn enc_column(c: ColumnV) -> Seq<u8> {
    enc_u64(c.name.len() as u64) + c.name + enc_type(c.datatype) + enc_u64(
        c.attributes.len() as u64,
    ) + enc_attrs(c.attributes)
}

/// The concatenated column encodings.
pub open spec fn enc_columns(s: Seq<ColumnV>) -> Seq<u8>
    decreases s.len(),
{
    if s.len() == 0 {
        Seq::empty()
    } else {
        enc_column(s[0]) + enc_columns(s.drop_first())
    }
}

/// The encoding of a relation: length-prefixed name, counted columns.
pub open spec fn enc_relation(r: RelationV) -> Seq<u8> {
    enc_u64(r.name.len() as u64) + r.name + enc_u64(r.columns.len() as u64) + enc_columns(
        r.columns,
    )
}

/// The concatenated relation encodings.
pub open spec fn enc_relations(s: Seq<RelationV>) -> Seq<u8>
    decreases s.len(),
{
    if s.len() == 0 {
        Seq::empty()
    } else {
        enc_relation(s[0]) + enc_relations(s.drop_first())
    }
}

/// The encoding of a whole schema: counted relations.
pub open spec fn enc_schema(v: Seq<RelationV>) -> Seq<u8> {
    enc_u64(v.len() as u64) + enc_relations(v)
}

/// Extending a prefix by one attribute extends its encoding.
proof fn lemma_enc_attrs_step(s: Seq<SqlAttribute>, i: int)
    requires
        0 <= i < s.len(),
    ensures
        enc_attrs(s.take(i + 1)) == enc_attrs(s.take(i)) + enc_attr(s[i]),
    decreases i,
{
    if i == 0 {
        assert(s.take(1) =~= seq![s[0]]);
        assert(s.take(1).drop_first() =~= Seq::<SqlAttribute>::empty());
        assert(s.take(0) =~= Seq::<SqlAttribute>::empty());
        assert(s.take(1)[0] == s[0]);
        assert(enc_attrs(Seq::<SqlAttribute>::empty()) == Seq::<u8>::empty());
        assert(enc_attrs(s.take(1)) == enc_attr(s[0]) + enc_attrs(Seq::<SqlAttribute>::empty()));
        assert(enc_attrs(s.take(1)) =~= enc_attr(s[0]));
        assert(enc_attrs(s.take(0)) + enc_attr(s[0]) =~= enc_attr(s[0]));
    } else {
        lemma_enc_attrs_step(s.drop_first(), i - 1);
        assert(s.take(i + 1).drop_first() =~= s.drop_first().take(i));
        assert(s.take(i).drop_first() =~= s.drop_first().take(i - 1));
        assert(s.take(i + 1)[0] == s[0] && s.take(i)[0] == s[0]);
        assert(enc_attrs(s.take(i + 1)) == enc_attr(s[0]) + enc_attrs(s.drop_first().take(i)));
        assert(enc_attrs(s.take(i)) == enc_attr(s[0]) + enc_attrs(s.drop_first().take(i - 1)));
        assert(s.drop_first()[i - 1] == s[i]);
        assert(enc_attr(s[0]) + (enc_attrs(s.drop_first().take(i - 1)) + enc_attr(s[i])) =~= (
        enc_attr(s[0]) + enc_attrs(s.drop_first().take(i - 1))) + enc_attr(s[i]));
    }
}

/// Extending a prefix by one column extends its encoding.
proof fn lemma_enc_columns_step(s: Seq<ColumnV>, i: int)
    requires
        0 <= i < s.len(),
    ensures
        enc_columns(s.take(i + 1)) == enc_columns(s.take(i)) + enc_column(s[i]),
    decreases i,
{
    if i == 0 {
        assert(s.take(1) =~= seq![s[0]]);
        assert(s.take(1).drop_first() =~= Seq::<ColumnV>::empty());
        assert(s.take(0) =~= Seq::<ColumnV>::empty());
        assert(s.take(1)[0] == s[0]);
        assert(enc_columns(Seq::<ColumnV>::empty()) == Seq::<u8>::empty());
        assert(enc_columns(s.take(1)) == enc_column(s[0]) + enc_columns(Seq::<ColumnV>::empty()));
        assert(enc_columns(s.take(1)) =~= enc_column(s[0]));
        assert(enc_columns(s.take(0)) + enc_column(s[0]) =~= enc_column(s[0]));
    } else {
        lemma_enc_columns_step(s.drop_first(), i - 1);
        assert(s.take(i + 1).drop_first() =~= s.drop_first().take(i));
        assert(s.take(i).drop_first() =~= s.drop_first().take(i - 1));
        assert(s.take(i + 1)[0] == s[0] && s.take(i)[0] == s[0]);
        assert(enc_columns(s.take(i + 1)) == enc_column(s[0]) + enc_columns(
            s.drop_first().take(i),
        ));
        assert(enc_columns(s.take(i)) == enc_column(s[0]) + enc_columns(
            s.drop_first().take(i - 1),
        ));
        assert(s.drop_first()[i - 1] == s[i]);
        assert(enc_column(s[0]) + (enc_columns(s.drop_first().take(i - 1)) + enc_column(s[i]))
            =~= (enc_column(s[0]) + enc_columns(s.drop_first().take(i - 1))) + enc_column(
            s[i],
        ));
    }
}

/// Extending a prefix by one relation extends its encoding.
proof fn lemma_enc_relations_step(s: Seq<RelationV>, i: int)
    requires
        0 <= i < s.len(),
    ensures
        enc_relations(s.take(i + 1)) == enc_relations(s.take(i)) + enc_relation(s[i]),
    decreases i,
{
    if i == 0 {
        assert(s.take(1) =~= seq![s[0]]);
        assert(s.take(1).drop_first() =~= Seq::<RelationV>::empty());
        assert(s.take(0) =~= Seq::<RelationV>::empty());
        assert(s.take(1)[0] == s[0]);
        assert(enc_relations(Seq::<RelationV>::empty()) == Seq::<u8>::empty());
        assert(enc_relations(s.take(1)) == enc_relation(s[0]) + enc_relations(Seq::<RelationV>::empty()));
        assert(enc_relations(s.take(1)) =~= enc_relation(s[0]));
        assert(enc_relations(s.take(0)) + enc_relation(s[0]) =~= enc_relation(s[0]));
    } else {
        lemma_enc_relations_step(s.drop_first(), i - 1);
        assert(s.take(i + 1).drop_first() =~= s.drop_first().take(i));
        assert(s.take(i).drop_first() =~= s.drop_first().take(i - 1));
        assert(s.take(i + 1)[0] == s[0] && s.take(i)[0] == s[0]);
        assert(enc_relations(s.take(i + 1)) == enc_relation(s[0]) + enc_relations(
            s.drop_first().take(i),
        ));
        assert(enc_relations(s.take(i)) == enc_relation(s[0]) + enc_relations(
            s.drop_first().take(i - 1),
        ));
        assert(s.drop_first()[i - 1] == s[i]);
        assert(enc_relation(s[0]) + (enc_relations(s.drop_first().take(i - 1)) + enc_relation(
            s[i],
        )) =~= (enc_relation(s[0]) + enc_relations(s.drop_first().take(i - 1))) + enc_relation(
            s[i],
        ));
    }
}

/// Append a 64-bit little-endian word.
fn push_u64(out: &mut Vec<u8>, x: u64)
    ensures
        final(out)@ == old(out)@ + enc_u64(x),
{
    let mut le: Vec<u8> = u64_to_le_bytes(x);
    out.append(&mut le);
}

/// Append a copy of the given bytes.
fn push_bytes(out: &mut Vec<u8>, src: &Vec<u8>)
    ensures
        final(out)@ == old(out)@ + src@,
{
    let mut tmp: Vec<u8> = read_bytes_at(src, 0, src.len());
    proof {
        assert(tmp@ =~= src@);
    }
    out.append(&mut tmp);
}

/// Encode one column.
fn encode_column(out: &mut Vec<u8>, c: &Column)
    ensures
        final(out)@ == old(out)@ + enc_column(c@),
{
    push_u64(out, c.name.len() as u64);
    push_bytes(out, &c.name);
    match c.datatype {
        SqlType::Char(n) => {
            out.push(0u8);
            push_u64(out, n);
        },
        SqlType::Varchar(n) => {
            out.push(1u8);
            push_u64(out, n);
        },
        SqlType::Integer => {
            out.push(2u8);
        },
    }
    proof {
        assert(out@ =~= old(out)@ + enc_u64(c@.name.len() as u64) + c@.name + enc_type(
            c@.datatype,
        ));
    }
    push_u64(out, c.attributes.len() as u64);
    let n: usize = c.attributes.len();
    let ghost base = out@;
    let mut i: usize = 0;
    while i < n
        invariant
            i <= n,
            n == c.attributes@.len(),
            out@ == base + enc_attrs(c.attributes@.take(i as int)),
        decreases n - i,
    {
        let tag: u8 = match c.attributes[i] {
            SqlAttribute::Null => 0u8,
            SqlAttribute::NotNull => 1u8,
        };
        out.push(tag);
        proof {
            lemma_enc_attrs_step(c.attributes@, i as int);
            assert(out@ =~= base + enc_attrs(c.attributes@.take(i + 1)));
        }
        i = i + 1;
    }
    proof {
        assert(c.attributes@.take(n as int) =~= c.attributes@);
        assert(final(out)@ =~= old(out)@ + enc_column(c@));
    }
}

/// Encode one relation.
fn encode_relation(out: &mut Vec<u8>, r: &Relation)
    ensures
        final(out)@ == old(out)@ + enc_relation(r@),
{
    push_u64(out, r.name.len() as u64);
    push_bytes(out, &r.name);
    push_u64(out, r.columns.len() as u64);
    let n: usize = r.columns.len();
    let ghost base = out@;
    let ghost cols = r@.columns;
    let mut i: usize = 0;
    while i < n
        invariant
            i <= n,
            n == r.columns@.len(),
            cols == r@.columns,
            cols.len() == n,
            out@ == base + enc_columns(cols.take(i as int)),
        decreases n - i,
    {
        encode_column(out, &r.columns[i]);
        proof {
            assert(cols[i as int] == r.columns@[i as int]@);
            lemma_enc_columns_step(cols, i as int);
            assert(out@ =~= base + enc_columns(cols.take(i + 1)));
        }
        i = i + 1;
    }
    proof {
        assert(cols.take(n as int) =~= cols);
        assert(final(out)@ =~= old(out)@ + enc_relation(r@));
    }
}

impl Schema {
    /// An empty schema.
    pub fn new() -> (r: Schema)
        ensures
            r@ == Seq::<RelationV>::empty(),
    {
        let r = Schema { relations: Vec::new() };
        proof {
            assert(r@ =~= Seq::<RelationV>::empty());
        }
        r
    }

    /// Append a relation.
    pub fn add_relation(&mut self, relation: Relation)
        ensures
            final(self)@ == old(self)@.push(relation@),
    {
        let ghost rv = relation@;
        self.relations.push(relation);
        proof {
            assert(self@ =~= old(self)@.push(rv));
        }
    }

    /// Serialize the schema to its deterministic byte form.
    pub fn encode(&self) -> (r: Vec<u8>)
        ensures
            r@ == enc_schema(self@),
    {
        let mut out: Vec<u8> = Vec::new();
        push_u64(&mut out, self.relations.len() as u64);
        let n: usize = self.relations.len();
        let ghost base = out@;
        let ghost rels = self@;
        let mut i: usize = 0;
        while i < n
            invariant
                i <= n,
                n == self.relations@.len(),
                rels == self@,
                rels.len() == n,
                out@ == base + enc_relations(rels.take(i as int)),
            decreases n - i,
        {
            encode_relation(&mut out, &self.relations[i]);
            proof {
                assert(rels[i as int] == self.relations@[i as int]@);
                lemma_enc_relations_step(rels, i as int);
                assert(out@ =~= base + enc_relations(rels.take(i + 1)));
            }
            i = i + 1;
        }
        proof {
            assert(rels.take(n as int) =~= rels);
            assert(out@ =~= enc_schema(self@));
        }
        out
    }
}


/// Read a 64-bit word at the cursor, advancing it.
fn take_u64(bytes: &Vec<u8>, pos: &mut usize) -> (r: Option<u64>)
    requires
        *old(pos) <= bytes@.len(),
    ensures
        match r {
            Some(x) => *final(pos) == *old(pos) + 8 && *final(pos) <= bytes@.len() && enc_u64(x)
                == bytes@.subrange(*old(pos) as int, *old(pos) + 8),
            None => *final(pos) == *old(pos) && *old(pos) + 8 > bytes@.len(),
        },
{
    let n: usize = bytes.len();
    if n - *pos >= 8 {
        let v: u64 = read_word_at(bytes, *pos);
        *pos = *pos + 8;
        proof {
            lemma_auto_spec_u64_to_from_le_bytes();
            assert(bytes@.subrange(*old(pos) as int, *old(pos) + 8).len() == 8);
        }
        Some(v)
    } else {
        None
    }
}

/// Read `n` bytes at the cursor, advancing it.
fn take_bytes(bytes: &Vec<u8>, pos: &mut usize, n: u64) -> (r: Option<Vec<u8>>)
    requires
        *old(pos) <= bytes@.len(),
    ensures
        match r {
            Some(v) => *final(pos) == *old(pos) + n && *final(pos) <= bytes@.len() && v@
                == bytes@.subrange(*old(pos) as int, *old(pos) + n),
            None => *final(pos) == *old(pos) && *old(pos) + n > bytes@.len(),
        },
{
    let avail: usize = bytes.len() - *pos;
    if n <= avail as u64 {
        let take: usize = n as usize;
        let v: Vec<u8> = read_bytes_at(bytes, *pos, take);
        *pos = *pos + take;
        Some(v)
    } else {
        None
    }
}

/// Read one byte at the cursor, advancing it.
fn take_byte(bytes: &Vec<u8>, pos: &mut usize) -> (r: Option<u8>)
    requires
        *old(pos) <= bytes@.len(),
    ensures
        match r {
            Some(b) => *final(pos) == *old(pos) + 1 && *final(pos) <= bytes@.len() && b
                == bytes@[*old(pos) as int],
            None => *final(pos) == *old(pos) && *old(pos) >= bytes@.len(),
        },
{
    if *pos < bytes.len() {
        let b: u8 = bytes[*pos];
        *pos = *pos + 1;
        Some(b)
    } else {
        None
    }
}

/// Adjacent subranges concatenate.
proof fn lemma_subrange_chain(s: Seq<u8>, a: int, b: int, c: int)
    requires
        0 <= a <= b <= c <= s.len(),
    ensures
        s.subrange(a, b) + s.subrange(b, c) == s.subrange(a, c),
{
    assert(s.subrange(a, b) + s.subrange(b, c) =~= s.subrange(a, c));
}

/// The bytes of `s` from `pos` to its end.
pub open spec fn tail_from(s: Seq<u8>, pos: int) -> Seq<u8> {
    s.subrange(pos, s.len() as int)
}

/// An attribute encodes to one byte.
proof fn lemma_enc_attr_one(a: SqlAttribute)
    ensures
        enc_attr(a).len() == 1,
        enc_attr(a)[0] == 0 || enc_attr(a)[0] == 1,
{
}

/// A column encoding is never empty.
proof fn lemma_enc_column_len_ge(c: ColumnV)
    ensures
        enc_column(c).len() >= 8,
{
    lemma_auto_spec_u64_to_from_le_bytes();
}

/// A column list encodes to at least one byte per column.
proof fn lemma_enc_columns_len_ge(s: Seq<ColumnV>)
    ensures
        enc_columns(s).len() >= s.len(),
    decreases s.len(),
{
    if s.len() > 0 {
        lemma_enc_column_len_ge(s[0]);
        lemma_enc_columns_len_ge(s.drop_first());
    }
}

/// A relation encoding is never empty.
proof fn lemma_enc_relation_len_ge(r: RelationV)
    ensures
        enc_relation(r).len() >= 8,
{
    lemma_auto_spec_u64_to_from_le_bytes();
}

/// A relation list encodes to at least one byte per relation.
proof fn lemma_enc_relations_len_ge(s: Seq<RelationV>)
    ensures
        enc_relations(s).len() >= s.len(),
    decreases s.len(),
{
    if s.len() > 0 {
        lemma_enc_relation_len_ge(s[0]);
        lemma_enc_relations_len_ge(s.drop_first());
    }
}

/// What follows a decoded attribute prefix of a longer list: at least the
/// next attribute's tag byte.
proof fn lemma_attrs_decompose(
    parsed: Seq<SqlAttribute>,
    v: Seq<SqlAttribute>,
    tail: Seq<u8>,
    rest: Seq<u8>,
)
    requires
        enc_attrs(parsed) + tail == enc_attrs(v) + rest,
        parsed.len() < v.len(),
    ensures
        tail.len() >= 1,
        tail[0] == enc_attr(v[parsed.len() as int])[0],
    decreases parsed.len(),
{
    lemma_enc_attrs_len(parsed);
    lemma_enc_attrs_len(v);
    if parsed.len() == 0 {
        assert(enc_attrs(parsed) + tail =~= tail);
        assert(enc_attrs(v) == enc_attr(v[0]) + enc_attrs(v.drop_first()));
        lemma_enc_attr_one(v[0]);
        assert(tail[0] == ((enc_attr(v[0]) + enc_attrs(v.drop_first())) + rest)[0]);
        assert(((enc_attr(v[0]) + enc_attrs(v.drop_first())) + rest)[0] == enc_attr(v[0])[0]);
    } else {
        lemma_enc_attr_one(parsed[0]);
        lemma_enc_attr_one(v[0]);
        assert(enc_attrs(parsed) + tail =~= enc_attr(parsed[0]) + (enc_attrs(
            parsed.drop_first(),
        ) + tail));
        assert(enc_attrs(v) + rest =~= enc_attr(v[0]) + (enc_attrs(v.drop_first()) + rest));
        lemma_concat_split(
            enc_attr(parsed[0]),
            enc_attrs(parsed.drop_first()) + tail,
            enc_attr(v[0]),
            enc_attrs(v.drop_first()) + rest,
        );
        lemma_attrs_decompose(parsed.drop_first(), v.drop_first(), tail, rest);
        assert(v.drop_first()[parsed.len() - 1] == v[parsed.len() as int]);
    }
}

/// What follows a decoded column prefix of a longer list: exactly the next
/// column's encoding and then the rest of the list.
proof fn lemma_columns_decompose(parsed: Seq<ColumnV>, v: Seq<ColumnV>, tail: Seq<u8>, rest: Seq<u8>)
    requires
        enc_columns(parsed) + tail == enc_columns(v) + rest,
        parsed.len() < v.len(),
        forall|i: int| 0 <= i < parsed.len() ==> column_v_wf(#[trigger] parsed[i]),
        forall|i: int| 0 <= i < v.len() ==> column_v_wf(#[trigger] v[i]),
    ensures
        tail == enc_column(v[parsed.len() as int]) + (enc_columns(
            v.skip(parsed.len() as int + 1),
        ) + rest),
    decreases parsed.len(),
{
    if parsed.len() == 0 {
        assert(enc_columns(parsed) + tail =~= tail);
        assert(enc_columns(v) == enc_column(v[0]) + enc_columns(v.drop_first()));
        assert(v.skip(1) =~= v.drop_first());
        assert(tail =~= enc_column(v[0]) + (enc_columns(v.drop_first()) + rest));
    } else {
        assert(enc_columns(parsed) + tail =~= enc_column(parsed[0]) + (enc_columns(
            parsed.drop_first(),
        ) + tail));
        assert(enc_columns(v) + rest =~= enc_column(v[0]) + (enc_columns(v.drop_first())
            + rest));
        lemma_enc_column_split(
            parsed[0],
            v[0],
            enc_columns(parsed.drop_first()) + tail,
            enc_columns(v.drop_first()) + rest,
        );
        assert(forall|i: int|
            0 <= i < parsed.drop_first().len() ==> column_v_wf(
                #[trigger] parsed.drop_first()[i],
            ));
        assert(forall|i: int|
            0 <= i < v.drop_first().len() ==> column_v_wf(#[trigger] v.drop_first()[i]));
        lemma_columns_decompose(parsed.drop_first(), v.drop_first(), tail, rest);
        assert(v.drop_first()[parsed.len() - 1] == v[parsed.len() as int]);
        assert(v.drop_first().skip(parsed.len() as int) =~= v.skip(parsed.len() as int + 1));
    }
}

/// What follows a decoded relation prefix of a longer list: exactly the next
/// relation's encoding and then the rest of the list.
proof fn lemma_relations_decompose(parsed: Seq<RelationV>, v: Seq<RelationV>, tail: Seq<u8>)
    requires
        enc_relations(parsed) + tail == enc_relations(v),
        parsed.len() <= v.len(),
        forall|i: int| 0 <= i < parsed.len() ==> relation_v_wf(#[trigger] parsed[i]),
        forall|i: int| 0 <= i < v.len() ==> relation_v_wf(#[trigger] v[i]),
    ensures
        parsed.len() < v.len() ==> tail == enc_relation(v[parsed.len() as int])
            + enc_relations(v.skip(parsed.len() as int + 1)),
        parsed.len() == v.len() ==> tail == Seq::<u8>::empty(),
    decreases parsed.len(),
{
    if parsed.len() == 0 {
        assert(enc_relations(parsed) + tail =~= tail);
        if v.len() == 0 {
            assert(tail =~= Seq::<u8>::empty());
        } else {
            assert(enc_relations(v) == enc_relation(v[0]) + enc_relations(v.drop_first()));
            assert(v.skip(1) =~= v.drop_first());
        }
    } else {
        assert(enc_relations(parsed) + tail =~= enc_relation(parsed[0]) + (enc_relations(
            parsed.drop_first(),
        ) + tail));
        assert(enc_relations(v) == enc_relation(v[0]) + enc_relations(v.drop_first()));
        lemma_enc_relation_split(
            parsed[0],
            v[0],
            enc_relations(parsed.drop_first()) + tail,
            enc_relations(v.drop_first()),
        );
        assert(forall|i: int|
            0 <= i < parsed.drop_first().len() ==> relation_v_wf(
                #[trigger] parsed.drop_first()[i],
            ));
        assert(forall|i: int|
            0 <= i < v.drop_first().len() ==> relation_v_wf(#[trigger] v.drop_first()[i]));
        lemma_relations_decompose(parsed.drop_first(), v.drop_first(), tail);
        if parsed.len() < v.len() {
            assert(v.drop_first()[parsed.len() - 1] == v[parsed.len() as int]);
            assert(v.drop_first().skip(parsed.len() as int) =~= v.skip(
                parsed.len() as int + 1,
            ));
        }
    }
}

/// Where the parts of a column encoding sit when it starts at `st`,
/// whatever follows it.
proof fn lemma_column_layout(bytes: Seq<u8>, st: int, cv: ColumnV, rest: Seq<u8>)
    requires
        0 <= st <= bytes.len(),
        column_v_wf(cv),
        tail_from(bytes, st) == enc_column(cv) + rest,
    ensures
        ({
            let nl = cv.name.len() as int;
            let p1 = st + 8 + nl;
            let tl = enc_type(cv.datatype).len() as int;
            let p2 = p1 + tl;
            let p3 = p2 + 8;
            let ac = cv.attributes.len() as int;
            &&& st + 8 <= bytes.len()
            &&& bytes.subrange(st, st + 8) == enc_u64(cv.name.len() as u64)
            &&& p1 <= bytes.len()
            &&& bytes.subrange(st + 8, p1) == cv.name
            &&& 1 <= tl <= 9
            &&& p2 <= bytes.len()
            &&& bytes.subrange(p1, p2) == enc_type(cv.datatype)
            &&& p3 <= bytes.len()
            &&& bytes.subrange(p2, p3) == enc_u64(cv.attributes.len() as u64)
            &&& p3 + ac <= bytes.len()
            &&& tail_from(bytes, p3) == enc_attrs(cv.attributes) + rest
        }),
{
    lemma_auto_spec_u64_to_from_le_bytes();
    lemma_enc_attrs_len(cv.attributes);
    let nl = cv.name.len() as int;
    let p1 = st + 8 + nl;
    let tl = enc_type(cv.datatype).len() as int;
    let p2 = p1 + tl;
    let p3 = p2 + 8;
    let a = enc_u64(cv.name.len() as u64);
    let b = cv.name;
    let c = enc_type(cv.datatype);
    let d = enc_u64(cv.attributes.len() as u64);
    let e = enc_attrs(cv.attributes);
    assert(1 <= tl <= 9) by {
        match cv.datatype {
            SqlType::Char(n) => {},
            SqlType::Varchar(n) => {},
            SqlType::Integer => {},
        }
    }
    assert(tail_from(bytes, st) =~= a + (b + (c + (d + (e + rest)))));
    assert(tail_from(bytes, st) =~= bytes.subrange(st, st + 8) + tail_from(bytes, st + 8));
    lemma_concat_split(
        bytes.subrange(st, st + 8),
        tail_from(bytes, st + 8),
        a,
        b + (c + (d + (e + rest))),
    );
    assert(tail_from(bytes, st + 8) =~= bytes.subrange(st + 8, p1) + tail_from(bytes, p1));
    lemma_concat_split(
        bytes.subrange(st + 8, p1),
        tail_from(bytes, p1),
        b,
        c + (d + (e + rest)),
    );
    assert(tail_from(bytes, p1) =~= bytes.subrange(p1, p2) + tail_from(bytes, p2));
    lemma_concat_split(bytes.subrange(p1, p2), tail_from(bytes, p2), c, d + (e + rest));
    assert(tail_from(bytes, p2) =~= bytes.subrange(p2, p3) + tail_from(bytes, p3));
    lemma_concat_split(bytes.subrange(p2, p3), tail_from(bytes, p3), d, e + rest);
}

/// Where the parts of a relation encoding sit when it starts at `st`,
/// whatever follows it.
proof fn lemma_relation_layout(bytes: Seq<u8>, st: int, rv: RelationV, rest: Seq<u8>)
    requires
        0 <= st <= bytes.len(),
        relation_v_wf(rv),
        tail_from(bytes, st) == enc_relation(rv) + rest,
    ensures
        ({
            let nl = rv.name.len() as int;
            let p1 = st + 8 + nl;
            let p2 = p1 + 8;
            &&& st + 8 <= bytes.len()
            &&& bytes.subrange(st, st + 8) == enc_u64(rv.name.len() as u64)
            &&& p1 <= bytes.len()
            &&& bytes.subrange(st + 8, p1) == rv.name
            &&& p2 <= bytes.len()
            &&& bytes.subrange(p1, p2) == enc_u64(rv.columns.len() as u64)
            &&& p2 + rv.columns.len() <= bytes.len()
            &&& tail_from(bytes, p2) == enc_columns(rv.columns) + rest
        }),
{
    lemma_auto_spec_u64_to_from_le_bytes();
    lemma_enc_columns_len_ge(rv.columns);
    let nl = rv.name.len() as int;
    let p1 = st + 8 + nl;
    let p2 = p1 + 8;
    let a = enc_u64(rv.name.len() as u64);
    let b = rv.name;
    let c = enc_u64(rv.columns.len() as u64);
    let d = enc_columns(rv.columns);
    assert(tail_from(bytes, st) =~= a + (b + (c + (d + rest))));
    assert(tail_from(bytes, st) =~= bytes.subrange(st, st + 8) + tail_from(bytes, st + 8));
    lemma_concat_split(
        bytes.subrange(st, st + 8),
        tail_from(bytes, st + 8),
        a,
        b + (c + (d + rest)),
    );
    assert(tail_from(bytes, st + 8) =~= bytes.subrange(st + 8, p1) + tail_from(bytes, p1));
    lemma_concat_split(bytes.subrange(st + 8, p1), tail_from(bytes, p1), b, c + (d + rest));
    assert(tail_from(bytes, p1) =~= bytes.subrange(p1, p2) + tail_from(bytes, p2));
    lemma_concat_split(bytes.subrange(p1, p2), tail_from(bytes, p2), c, d + rest);
}

/// Decode one column at the cursor. Anything decoded re-encodes to exactly
/// the consumed bytes, and whenever the bytes at the cursor start with some
/// encodable column's encoding, decoding succeeds.
#[verifier::loop_isolation(false)]
#[verifier::rlimit(100)]
fn decode_column(bytes: &Vec<u8>, pos: &mut usize) -> (r: Option<Column>)
    requires
        *old(pos) <= bytes@.len(),
    ensures
        match r {
            Some(c) => *old(pos) <= *final(pos) <= bytes@.len() && enc_column(c@)
                == bytes@.subrange(*old(pos) as int, *final(pos) as int) && column_v_wf(c@),
            None => forall|cv: ColumnV, rest: Seq<u8>|
                !(column_v_wf(cv) && tail_from(bytes@, *old(pos) as int) == enc_column(cv)
                    + rest),
        },
{
    let ghost stg = *old(pos) as int;
    let start: usize = *pos;
    let name_len: u64 = match take_u64(bytes, pos) {
        Some(x) => x,
        None => {
            proof {
                assert forall|cv: ColumnV, rest: Seq<u8>|
                    !(column_v_wf(cv) && tail_from(bytes@, stg) == enc_column(cv) + rest) by {
                    if column_v_wf(cv) && tail_from(bytes@, stg) == enc_column(cv) + rest {
                        lemma_column_layout(bytes@, stg, cv, rest);
                    }
                }
            }
            return None;
        },
    };
    proof {
        lemma_auto_spec_u64_to_from_le_bytes();
    }
    let name: Vec<u8> = match take_bytes(bytes, pos, name_len) {
        Some(v) => v,
        None => {
            proof {
                assert forall|cv: ColumnV, rest: Seq<u8>|
                    !(column_v_wf(cv) && tail_from(bytes@, stg) == enc_column(cv) + rest) by {
                    if column_v_wf(cv) && tail_from(bytes@, stg) == enc_column(cv) + rest {
                        lemma_column_layout(bytes@, stg, cv, rest);
                        lemma_enc_u64_inj(name_len, cv.name.len() as u64);
                    }
                }
            }
            return None;
        },
    };
    let ghost p1 = *pos as int;
    // Whenever some encodable column sits here, its name has this length and
    // the cursor now stands at its type tag.
    proof {
        assert forall|cv: ColumnV, rest: Seq<u8>|
            column_v_wf(cv) && tail_from(bytes@, stg) == enc_column(cv) + rest implies cv.name
            == name@ && p1 == stg + 8 + cv.name.len() by {
            lemma_column_layout(bytes@, stg, cv, rest);
            lemma_enc_u64_inj(name_len, cv.name.len() as u64);
        }
    }
    let tag: u8 = match take_byte(bytes, pos) {
        Some(b) => b,
        None => {
            proof {
                assert forall|cv: ColumnV, rest: Seq<u8>|
                    !(column_v_wf(cv) && tail_from(bytes@, stg) == enc_column(cv) + rest) by {
                    if column_v_wf(cv) && tail_from(bytes@, stg) == enc_column(cv) + rest {
                        lemma_column_layout(bytes@, stg, cv, rest);
                    }
                }
            }
            return None;
        },
    };
    proof {
        // The tag byte is the first byte of the column's type encoding.
        assert forall|cv: ColumnV, rest: Seq<u8>|
            column_v_wf(cv) && tail_from(bytes@, stg) == enc_column(cv) + rest implies tag
            == enc_type(cv.datatype)[0] by {
            lemma_column_layout(bytes@, stg, cv, rest);
            assert(bytes@[p1] == enc_type(cv.datatype)[0]);
        }
    }
    let datatype: SqlType = if tag == 0 {
        match take_u64(bytes, pos) {
            Some(x) => SqlType::Char(x),
            None => {
                proof {
                    assert forall|cv: ColumnV, rest: Seq<u8>|
                        !(column_v_wf(cv) && tail_from(bytes@, stg) == enc_column(cv)
                            + rest) by {
                        if column_v_wf(cv) && tail_from(bytes@, stg) == enc_column(cv) + rest {
                            lemma_column_layout(bytes@, stg, cv, rest);
                            match cv.datatype {
                                SqlType::Char(n) => {
                                    assert(enc_type(cv.datatype).len() == 9);
                                },
                                SqlType::Varchar(n) => {
                                    assert(enc_type(cv.datatype)[0] == 1);
                                },
                                SqlType::Integer => {
                                    assert(enc_type(cv.datatype)[0] == 2);
                                },
                            }
                        }
                    }
                }
                return None;
            },
        }
    } else if tag == 1 {
        match take_u64(bytes, pos) {
            Some(x) => SqlType::Varchar(x),
            None => {
                proof {
                    assert forall|cv: ColumnV, rest: Seq<u8>|
                        !(column_v_wf(cv) && tail_from(bytes@, stg) == enc_column(cv)
                            + rest) by {
                        if column_v_wf(cv) && tail_from(bytes@, stg) == enc_column(cv) + rest {
                            lemma_column_layout(bytes@, stg, cv, rest);
                            match cv.datatype {
                                SqlType::Char(n) => {
                                    assert(enc_type(cv.datatype)[0] == 0);
                                },
                                SqlType::Varchar(n) => {
                                    assert(enc_type(cv.datatype).len() == 9);
                                },
                                SqlType::Integer => {
                                    assert(enc_type(cv.datatype)[0] == 2);
                                },
                            }
                        }
                    }
                }
                return None;
            },
        }
    } else if tag == 2 {
        SqlType::Integer
    } else {
        proof {
            assert forall|cv: ColumnV, rest: Seq<u8>|
                !(column_v_wf(cv) && tail_from(bytes@, stg) == enc_column(cv) + rest) by {
                if column_v_wf(cv) && tail_from(bytes@, stg) == enc_column(cv) + rest {
                    match cv.datatype {
                        SqlType::Char(n) => {
                            assert(enc_type(cv.datatype)[0] == 0);
                        },
                        SqlType::Varchar(n) => {
                            assert(enc_type(cv.datatype)[0] == 1);
                        },
                        SqlType::Integer => {
                            assert(enc_type(cv.datatype)[0] == 2);
                        },
                    }
                }
            }
        }
        return None;
    };
    let ghost p2 = *pos as int;
    proof {
        assert(enc_type(datatype) == bytes@.subrange(p1, p2)) by {
            assert(bytes@.subrange(p1, p1 + 1) =~= seq![bytes@[p1]]);
            if tag == 0 || tag == 1 {
                lemma_subrange_chain(bytes@, p1, p1 + 1, p2);
            }
            assert(enc_type(datatype) =~= bytes@.subrange(p1, p2));
        }
        // An encodable column here has this very type, so the cursor stands
        // at its attribute count.
        assert forall|cv: ColumnV, rest: Seq<u8>|
            column_v_wf(cv) && tail_from(bytes@, stg) == enc_column(cv) + rest implies cv.datatype
            == datatype && p2 == p1 + enc_type(cv.datatype).len() by {
            lemma_column_layout(bytes@, stg, cv, rest);
            match (cv.datatype, datatype) {
                (SqlType::Char(n1), SqlType::Char(n2)) => {
                    assert(bytes@.subrange(p1, p2) == enc_type(cv.datatype));
                    assert(enc_u64(n1) =~= enc_type(cv.datatype).subrange(1, 9));
                    assert(enc_u64(n2) =~= enc_type(datatype).subrange(1, 9));
                    lemma_enc_u64_inj(n1, n2);
                },
                (SqlType::Varchar(n1), SqlType::Varchar(n2)) => {
                    assert(bytes@.subrange(p1, p2) == enc_type(cv.datatype));
                    assert(enc_u64(n1) =~= enc_type(cv.datatype).subrange(1, 9));
                    assert(enc_u64(n2) =~= enc_type(datatype).subrange(1, 9));
                    lemma_enc_u64_inj(n1, n2);
                },
                (SqlType::Integer, SqlType::Integer) => {},
                _ => {
                    assert(enc_type(cv.datatype)[0] == tag);
                    assert(false);
                },
            }
        }
    }
    let attr_count: u64 = match take_u64(bytes, pos) {
        Some(x) => x,
        None => {
            proof {
                assert forall|cv: ColumnV, rest: Seq<u8>|
                    !(column_v_wf(cv) && tail_from(bytes@, stg) == enc_column(cv) + rest) by {
                    if column_v_wf(cv) && tail_from(bytes@, stg) == enc_column(cv) + rest {
                        lemma_column_layout(bytes@, stg, cv, rest);
                    }
                }
            }
            return None;
        },
    };
    let remaining: usize = bytes.len() - *pos;
    if attr_count > remaining as u64 {
        proof {
            assert forall|cv: ColumnV, rest: Seq<u8>|
                !(column_v_wf(cv) && tail_from(bytes@, stg) == enc_column(cv) + rest) by {
                if column_v_wf(cv) && tail_from(bytes@, stg) == enc_column(cv) + rest {
                    lemma_column_layout(bytes@, stg, cv, rest);
                    lemma_enc_u64_inj(attr_count, cv.attributes.len() as u64);
                }
            }
        }
        return None;
    }
    let count: usize = attr_count as usize;
    let mut attributes: Vec<SqlAttribute> = Vec::new();
    let ghost p3 = *pos as int;
    proof {
        assert forall|cv: ColumnV, rest: Seq<u8>|
            column_v_wf(cv) && tail_from(bytes@, stg) == enc_column(cv) + rest implies cv.attributes.len()
            == count && p3 == p2 + 8 by {
            lemma_column_layout(bytes@, stg, cv, rest);
            lemma_enc_u64_inj(attr_count, cv.attributes.len() as u64);
        }
    }
    let mut i: usize = 0;
    while i < count
        invariant
            i <= count,
            attributes@.len() == i,
            p3 + count <= bytes@.len(),
            *pos == p3 + i,
            enc_attrs(attributes@) == bytes@.subrange(p3, p3 + i),
        decreases count - i,
    {
        let b: u8 = match take_byte(bytes, pos) {
            Some(b) => b,
            None => {
                proof {
                    assert(false);
                }
                return None;
            },
        };
        let a: SqlAttribute = if b == 0 {
            SqlAttribute::Null
        } else if b == 1 {
            SqlAttribute::NotNull
        } else {
            proof {
                assert forall|cv: ColumnV, rest: Seq<u8>|
                    !(column_v_wf(cv) && tail_from(bytes@, stg) == enc_column(cv) + rest) by {
                    if column_v_wf(cv) && tail_from(bytes@, stg) == enc_column(cv) + rest {
                        lemma_column_layout(bytes@, stg, cv, rest);
                        assert(tail_from(bytes@, p3) =~= bytes@.subrange(p3, p3 + i)
                            + tail_from(bytes@, p3 + i));
                        lemma_attrs_decompose(
                            attributes@,
                            cv.attributes,
                            tail_from(bytes@, p3 + i),
                            rest,
                        );
                        lemma_enc_attr_one(cv.attributes[i as int]);
                        assert(b == tail_from(bytes@, p3 + i)[0]);
                    }
                }
            }
            return None;
        };
        let ghost prev = attributes@;
        attributes.push(a);
        proof {
            lemma_enc_attrs_step(attributes@, i as int);
            assert(attributes@.take(i as int) =~= prev);
            assert(attributes@.take(i + 1) =~= attributes@);
            assert(enc_attr(a) =~= bytes@.subrange(p3 + i, p3 + i + 1));
            lemma_subrange_chain(bytes@, p3, p3 + i, p3 + i + 1);
        }
        i = i + 1;
    }
    let c = Column { name, datatype, attributes };
    proof {
        let e = *pos as int;
        let st = start as int;
        assert(name_len == c@.name.len());
        assert(enc_u64(name_len) == bytes@.subrange(st, st + 8));
        assert(c@.name == bytes@.subrange(st + 8, p1));
        assert(enc_u64(attr_count) == bytes@.subrange(p2, p3));
        assert(enc_attrs(c@.attributes) == bytes@.subrange(p3, e));
        lemma_subrange_chain(bytes@, st, st + 8, p1);
        lemma_subrange_chain(bytes@, st, p1, p2);
        lemma_subrange_chain(bytes@, st, p2, p3);
        lemma_subrange_chain(bytes@, st, p3, e);
        assert(enc_column(c@) =~= bytes@.subrange(st, e));
        assert(column_v_wf(c@)) by {
            vstd::std_specs::vec::axiom_spec_len(&c.name);
            vstd::std_specs::vec::axiom_spec_len(&c.attributes);
        }
    }
    Some(c)
}

/// Decode one relation at the cursor. Anything decoded re-encodes to exactly
/// the consumed bytes, and whenever the bytes at the cursor start with some
/// encodable relation's encoding, decoding succeeds.
#[verifier::loop_isolation(false)]
#[verifier::rlimit(100)]
fn decode_relation(bytes: &Vec<u8>, pos: &mut usize) -> (r: Option<Relation>)
    requires
        *old(pos) <= bytes@.len(),
    ensures
        match r {
            Some(rel) => *old(pos) <= *final(pos) <= bytes@.len() && enc_relation(rel@)
                == bytes@.subrange(*old(pos) as int, *final(pos) as int) && relation_v_wf(
                rel@,
            ),
            None => forall|rv: RelationV, rest: Seq<u8>|
                !(relation_v_wf(rv) && tail_from(bytes@, *old(pos) as int) == enc_relation(rv)
                    + rest),
        },
{
    let ghost stg = *old(pos) as int;
    let start: usize = *pos;
    let name_len: u64 = match take_u64(bytes, pos) {
        Some(x) => x,
        None => {
            proof {
                assert forall|rv: RelationV, rest: Seq<u8>|
                    !(relation_v_wf(rv) && tail_from(bytes@, stg) == enc_relation(rv)
                        + rest) by {
                    if relation_v_wf(rv) && tail_from(bytes@, stg) == enc_relation(rv) + rest {
                        lemma_relation_layout(bytes@, stg, rv, rest);
                    }
                }
            }
            return None;
        },
    };
    proof {
        lemma_auto_spec_u64_to_from_le_bytes();
    }
    let name: Vec<u8> = match take_bytes(bytes, pos, name_len) {
        Some(v) => v,
        None => {
            proof {
                assert forall|rv: RelationV, rest: Seq<u8>|
                    !(relation_v_wf(rv) && tail_from(bytes@, stg) == enc_relation(rv)
                        + rest) by {
                    if relation_v_wf(rv) && tail_from(bytes@, stg) == enc_relation(rv) + rest {
                        lemma_relation_layout(bytes@, stg, rv, rest);
                        lemma_enc_u64_inj(name_len, rv.name.len() as u64);
                    }
                }
            }
            return None;
        },
    };
    let ghost p1 = *pos as int;
    let col_count: u64 = match take_u64(bytes, pos) {
        Some(x) => x,
        None => {
            proof {
                assert forall|rv: RelationV, rest: Seq<u8>|
                    !(relation_v_wf(rv) && tail_from(bytes@, stg) == enc_relation(rv)
                        + rest) by {
                    if relation_v_wf(rv) && tail_from(bytes@, stg) == enc_relation(rv) + rest {
                        lemma_relation_layout(bytes@, stg, rv, rest);
                        lemma_enc_u64_inj(name_len, rv.name.len() as u64);
                    }
                }
            }
            return None;
        },
    };
    let remaining: usize = bytes.len() - *pos;
    if col_count > remaining as u64 {
        proof {
            assert forall|rv: RelationV, rest: Seq<u8>|
                !(relation_v_wf(rv) && tail_from(bytes@, stg) == enc_relation(rv) + rest) by {
                if relation_v_wf(rv) && tail_from(bytes@, stg) == enc_relation(rv) + rest {
                    lemma_relation_layout(bytes@, stg, rv, rest);
                    lemma_enc_u64_inj(name_len, rv.name.len() as u64);
                    lemma_enc_u64_inj(col_count, rv.columns.len() as u64);
                }
            }
        }
        return None;
    }
    let count: usize = col_count as usize;
    let mut columns: Vec<Column> = Vec::new();
    let ghost p2 = *pos as int;
    proof {
        // An encodable relation here has this name and this many columns,
        // and the cursor stands at its column list.
        assert forall|rv: RelationV, rest: Seq<u8>|
            relation_v_wf(rv) && tail_from(bytes@, stg) == enc_relation(rv) + rest implies rv.columns.len()
            == count && p2 == stg + 8 + rv.name.len() + 8 && tail_from(bytes@, p2)
            == enc_columns(rv.columns) + rest by {
            lemma_relation_layout(bytes@, stg, rv, rest);
            lemma_enc_u64_inj(name_len, rv.name.len() as u64);
            lemma_enc_u64_inj(col_count, rv.columns.len() as u64);
        }
    }
    let mut i: usize = 0;
    while i < count
        invariant
            i <= count,
            columns@.len() == i,
            p2 <= *pos <= bytes@.len(),
            enc_columns(columns@.map_values(|c: Column| c@)) == bytes@.subrange(
                p2,
                *pos as int,
            ),
            forall|j: int| 0 <= j < i ==> column_v_wf((#[trigger] columns@[j])@),
        decreases count - i,
    {
        let ghost before = *pos as int;
        let c: Column = match decode_column(bytes, pos) {
            Some(c) => c,
            None => {
                proof {
                    assert forall|rv: RelationV, rest: Seq<u8>|
                        !(relation_v_wf(rv) && tail_from(bytes@, stg) == enc_relation(rv)
                            + rest) by {
                        if relation_v_wf(rv) && tail_from(bytes@, stg) == enc_relation(rv)
                            + rest {
                            let parsed = columns@.map_values(|c2: Column| c2@);
                            assert(forall|j: int|
                                0 <= j < parsed.len() ==> column_v_wf(#[trigger] parsed[j]));
                            assert(tail_from(bytes@, p2) =~= bytes@.subrange(p2, before)
                                + tail_from(bytes@, before));
                            lemma_columns_decompose(
                                parsed,
                                rv.columns,
                                tail_from(bytes@, before),
                                rest,
                            );
                        }
                    }
                }
                return None;
            },
        };
        let ghost prev = columns@.map_values(|c2: Column| c2@);
        let ghost cv = c@;
        columns.push(c);
        proof {
            let now = columns@.map_values(|c2: Column| c2@);
            assert(now =~= prev.push(cv));
            assert(now.take(i as int) =~= prev);
            assert(now.take(i + 1) =~= now);
            assert(now[i as int] == cv);
            lemma_enc_columns_step(now, i as int);
            lemma_subrange_chain(bytes@, p2, before, *pos as int);
        }
        i = i + 1;
    }
    let rel = Relation { name, columns };
    proof {
        let e = *pos as int;
        let st = start as int;
        assert(name_len == rel@.name.len());
        assert(col_count == rel@.columns.len());
        assert(enc_u64(name_len) == bytes@.subrange(st, st + 8));
        assert(rel@.name == bytes@.subrange(st + 8, p1));
        assert(enc_u64(col_count) == bytes@.subrange(p1, p2));
        lemma_subrange_chain(bytes@, st, st + 8, p1);
        lemma_subrange_chain(bytes@, st, p1, p2);
        lemma_subrange_chain(bytes@, st, p2, e);
        assert(enc_relation(rel@) =~= bytes@.subrange(st, e));
        assert(relation_v_wf(rel@)) by {
            vstd::std_specs::vec::axiom_spec_len(&rel.name);
            vstd::std_specs::vec::axiom_spec_len(&rel.columns);
        }
    }
    Some(rel)
}

/// Decode a whole schema blob. Anything decoded re-encodes to exactly the
/// given bytes, so a successful decode names the one schema the blob stores;
/// and whenever the bytes are some encodable schema's encoding, decoding
/// succeeds.
#[verifier::loop_isolation(false)]
#[verifier::rlimit(100)]
pub fn decode_schema(bytes: &Vec<u8>) -> (r: Option<Schema>)
    ensures
        match r {
            Some(s) => enc_schema(s@) == bytes@,
            None => forall|v: Seq<RelationV>| schema_v_wf(v) ==> enc_schema(v) != bytes@,
        },
{
    let mut pos: usize = 0;
    let rel_count: u64 = match take_u64(bytes, &mut pos) {
        Some(x) => x,
        None => {
            proof {
                assert forall|v: Seq<RelationV>| schema_v_wf(v) implies enc_schema(v)
                    != bytes@ by {
                    if enc_schema(v) == bytes@ {
                        lemma_auto_spec_u64_to_from_le_bytes();
                    }
                }
            }
            return None;
        },
    };
    proof {
        lemma_auto_spec_u64_to_from_le_bytes();
    }
    let remaining: usize = bytes.len() - pos;
    if rel_count > remaining as u64 {
        proof {
            assert forall|v: Seq<RelationV>| schema_v_wf(v) implies enc_schema(v) != bytes@ by {
                if enc_schema(v) == bytes@ {
                    assert(bytes@.subrange(0, 8) =~= enc_u64(v.len() as u64));
                    lemma_enc_u64_inj(rel_count, v.len() as u64);
                    lemma_enc_relations_len_ge(v);
                    assert(bytes@.len() == 8 + enc_relations(v).len());
                }
            }
        }
        return None;
    }
    let count: usize = rel_count as usize;
    let mut relations: Vec<Relation> = Vec::new();
    let ghost p1 = pos as int;
    proof {
        assert forall|v: Seq<RelationV>|
            schema_v_wf(v) && enc_schema(v) == bytes@ implies v.len() == count && tail_from(
            bytes@,
            p1,
        ) == enc_relations(v) by {
            assert(bytes@.subrange(0, 8) =~= enc_u64(v.len() as u64));
            lemma_enc_u64_inj(rel_count, v.len() as u64);
            assert(tail_from(bytes@, p1) =~= enc_relations(v));
        }
    }
    let mut i: usize = 0;
    while i < count
        invariant
            i <= count,
            relations@.len() == i,
            p1 <= pos <= bytes@.len(),
            enc_relations(relations@.map_values(|r2: Relation| r2@)) == bytes@.subrange(
                p1,
                pos as int,
            ),
            forall|j: int| 0 <= j < i ==> relation_v_wf((#[trigger] relations@[j])@),
        decreases count - i,
    {
        let ghost before = pos as int;
        let rel: Relation = match decode_relation(bytes, &mut pos) {
            Some(rel) => rel,
            None => {
                proof {
                    assert forall|v: Seq<RelationV>| schema_v_wf(v) implies enc_schema(v)
                        != bytes@ by {
                        if enc_schema(v) == bytes@ {
                            let parsed = relations@.map_values(|r2: Relation| r2@);
                            assert(forall|j: int|
                                0 <= j < parsed.len() ==> relation_v_wf(#[trigger] parsed[j]));
                            assert(tail_from(bytes@, p1) =~= bytes@.subrange(p1, before)
                                + tail_from(bytes@, before));
                            assert(enc_relations(parsed) + tail_from(bytes@, before)
                                == enc_relations(v));
                            lemma_relations_decompose(parsed, v, tail_from(bytes@, before));
                        }
                    }
                }
                return None;
            },
        };
        let ghost prev = relations@.map_values(|r2: Relation| r2@);
        let ghost rv = rel@;
        relations.push(rel);
        proof {
            let now = relations@.map_values(|r2: Relation| r2@);
            assert(now =~= prev.push(rv));
            assert(now.take(i as int) =~= prev);
            assert(now.take(i + 1) =~= now);
            assert(now[i as int] == rv);
            lemma_enc_relations_step(now, i as int);
            lemma_subrange_chain(bytes@, p1, before, pos as int);
        }
        i = i + 1;
    }
    if pos != bytes.len() {
        proof {
            assert forall|v: Seq<RelationV>| schema_v_wf(v) implies enc_schema(v) != bytes@ by {
                if enc_schema(v) == bytes@ {
                    let parsed = relations@.map_values(|r2: Relation| r2@);
                    assert(forall|j: int|
                        0 <= j < parsed.len() ==> relation_v_wf(#[trigger] parsed[j]));
                    assert(tail_from(bytes@, p1) =~= bytes@.subrange(p1, pos as int)
                        + tail_from(bytes@, pos as int));
                    assert(enc_relations(parsed) + tail_from(bytes@, pos as int)
                        == enc_relations(v));
                    lemma_relations_decompose(parsed, v, tail_from(bytes@, pos as int));
                    assert(tail_from(bytes@, pos as int).len() == 0);
                }
            }
        }
        return None;
    }
    let schema = Schema { relations };
    proof {
        assert(rel_count == schema@.len());
        assert(enc_u64(rel_count) == bytes@.subrange(0, 8));
        lemma_subrange_chain(bytes@, 0, 8, pos as int);
        assert(bytes@.subrange(0, pos as int) =~= bytes@);
        assert(enc_schema(schema@) =~= bytes@);
    }
    Some(schema)
}

/// Largest catalog blob the page chain can hold.
pub const CATALOG_CAPACITY: u64 = 0xfff_ffff_f000;

/// The blob length recorded on page 0.
pub open spec fn stored_len(m: BufferManager) -> u64 {
    spec_word_at(m.contents(0), 0)
}

/// Byte `i` of the stored blob, on pages 1 and up.
pub open spec fn stored_byte(m: BufferManager, i: int) -> u8 {
    m.contents((1 + i / (PAGE_SIZE as int)) as u64)[i % (PAGE_SIZE as int)]
}

/// The first `n` stored blob bytes.
pub open spec fn stored_blob(m: BufferManager, n: int) -> Seq<u8> {
    Seq::new(n as nat, |i: int| stored_byte(m, i))
}

/// A write cursor over the catalog's page chain.
pub struct SchemaWriter {
    location: u64,
    maximum: u64,
}

impl SchemaWriter {
    /// How many blob bytes have been written.
    pub closed spec fn location_spec(self) -> u64 {
        self.location
    }

    /// The high-water mark recorded on page 0.
    pub closed spec fn maximum_spec(self) -> u64 {
        self.maximum
    }

    /// A cursor at the start of the blob.
    pub fn new() -> (r: SchemaWriter)
        ensures
            r.location_spec() == 0,
            r.maximum_spec() == 0,
    {
        SchemaWriter { location: 0, maximum: 0 }
    }

    /// The current write position.
    pub fn tell(&self) -> (r: u64)
        ensures
            r == self.location_spec(),
    {
        self.location
    }

    /// Append bytes to the blob through the buffer manager, page chunk by
    /// page chunk, and record the new length on page 0. Earlier blob bytes
    /// stay.
    #[verifier::loop_isolation(false)]
    #[verifier::rlimit(100)]
    pub fn write(&mut self, m: &mut BufferManager, buf: &Vec<u8>)
        requires
            old(m).wf(),
            old(m).capacity_spec() >= 1,
            forall|q: u64| old(m).pins(q) == 0,
            old(self).maximum_spec() == old(self).location_spec(),
            old(self).location_spec() + buf@.len() <= CATALOG_CAPACITY,
        ensures
            final(m).wf(),
            final(m).capacity_spec() == old(m).capacity_spec(),
            forall|q: u64| final(m).pins(q) == 0,
            final(self).location_spec() == old(self).location_spec() + buf@.len(),
            final(self).maximum_spec() == final(self).location_spec(),
            forall|i: int|
                0 <= i < old(self).location_spec() ==> stored_byte(*final(m), i) == stored_byte(
                    *old(m),
                    i,
                ),
            forall|j: int|
                0 <= j < buf@.len() ==> stored_byte(*final(m), old(self).location_spec() + j)
                    == buf@[j],
            forall|q: u64|
                q != 0 && ((q as int) < 1 + old(self).location_spec() as int / (PAGE_SIZE as int) || (
                q as int) > 1 + (old(self).location_spec() + buf@.len()) / (
                PAGE_SIZE as int)) ==> final(m).contents(q) == old(m).contents(q),
            buf@.len() > 0 ==> stored_len(*final(m)) == final(self).location_spec(),
            buf@.len() == 0 ==> *final(m) == *old(m) && *final(self) == *old(self),
    {
        if buf.len() == 0 {
            return ;
        }
        let ghost m0 = *old(m);
        let ghost loc0 = self.location as int;
        let total: usize = buf.len();
        let mut written: usize = 0;
        while written < total
            invariant
                written <= total,
                m.wf(),
                m.capacity_spec() == m0.capacity_spec(),
                forall|q: u64| m.pins(q) == 0,
                self.location == loc0 + written,
                self.maximum == old(self).maximum,
                forall|i: int| 0 <= i < loc0 ==> stored_byte(*m, i) == stored_byte(m0, i),
                forall|j: int| 0 <= j < written ==> stored_byte(*m, loc0 + j) == buf@[j],
                forall|q: u64|
                    q != 0 && ((q as int) < 1 + loc0 / (PAGE_SIZE as int) || (q as int) > 1 + (
                    loc0 + total) / (PAGE_SIZE as int)) ==> m.contents(q) == m0.contents(q),
            decreases total - written,
        {
            let page_no: u64 = 1 + self.location / (PAGE_SIZE as u64);
            let off: usize = (self.location % (PAGE_SIZE as u64)) as usize;
            let remaining: usize = total - written;
            let space: usize = PAGE_SIZE - off;
            let chunk: usize = if remaining < space {
                remaining
            } else {
                space
            };
            let ghost q = self.location as int / (PAGE_SIZE as int);
            proof {
                assert(page_no == 1 + q && off == self.location as int % (PAGE_SIZE as int)
                    && 0 <= off < PAGE_SIZE && q >= 0 && self.location as int == (
                PAGE_SIZE as int) * q + off) by (nonlinear_arith)
                    requires
                        page_no == 1 + self.location / (PAGE_SIZE as u64),
                        off == self.location % (PAGE_SIZE as u64),
                        PAGE_SIZE == 4096,
                        q == self.location as int / (PAGE_SIZE as int),
                {
                }
                m.lemma_quiescent_can_fix(page_no);
            }
            let handle: FrameHandle = match m.fix_page(page_no) {
                Some(h) => h,
                None => {
                    proof {
                        assert(false);
                    }
                    vstd::pervasive::unreached()
                },
            };
            let mut page: Vec<u8> = read_bytes_at(m.read_fixed(&handle), 0, PAGE_SIZE);
            let ghost page_pre = page@;
            let piece: Vec<u8> = read_bytes_at(buf, written, chunk);
            write_bytes_at(&mut page, off, &piece);
            let ghost mmid = *m;
            m.write_fixed(&handle, page);
            m.unfix_page(handle, true);
            proof {
                assert(page_pre =~= mmid.contents(page_no));
                assert(1 + loc0 / (PAGE_SIZE as int) <= page_no as int <= 1 + (loc0 + total)
                    / (PAGE_SIZE as int)) by {
                    vstd::arithmetic::div_mod::lemma_div_is_ordered(
                        loc0,
                        self.location as int,
                        PAGE_SIZE as int,
                    );
                    vstd::arithmetic::div_mod::lemma_div_is_ordered(
                        self.location as int,
                        loc0 + total,
                        PAGE_SIZE as int,
                    );
                }
                assert forall|i: int| 0 <= i < loc0 + written implies stored_byte(*m, i)
                    == stored_byte(mmid, i) by {
                    let ip = 1 + i / (PAGE_SIZE as int);
                    assert(0 <= i % (PAGE_SIZE as int) < PAGE_SIZE as int && (PAGE_SIZE as int)
                        * (i / (PAGE_SIZE as int)) + i % (PAGE_SIZE as int) == i && i / (
                    PAGE_SIZE as int) >= 0) by (nonlinear_arith)
                        requires
                            i >= 0,
                            PAGE_SIZE == 4096,
                    {
                    }
                    if ip == page_no {
                        assert(i / (PAGE_SIZE as int) == q) by (nonlinear_arith)
                            requires
                                ip == 1 + i / (PAGE_SIZE as int),
                                page_no == 1 + q,
                                ip == page_no,
                        {
                        }
                        assert(i % (PAGE_SIZE as int) < off) by (nonlinear_arith)
                            requires
                                (PAGE_SIZE as int) * (i / (PAGE_SIZE as int)) + i % (
                                PAGE_SIZE as int) == i,
                                i / (PAGE_SIZE as int) == q,
                                i < (PAGE_SIZE as int) * q + off,
                                PAGE_SIZE == 4096,
                        {
                        }
                        assert(m.contents(page_no)[i % (PAGE_SIZE as int)] == mmid.contents(
                            page_no,
                        )[i % (PAGE_SIZE as int)]);
                    } else {
                        assert(m.contents((ip) as u64) == mmid.contents((ip) as u64)) by {
                            assert(0 <= ip < 0x1_0000_0000_0000_0000);
                        }
                    }
                }
                assert forall|i: int|
                    loc0 + written <= i < loc0 + written + chunk implies #[trigger] stored_byte(
                    *m,
                    i,
                ) == buf@[i - loc0] by {
                    let j = i - loc0 - written;
                    assert(i == (PAGE_SIZE as int) * q + off + j);
                    assert(i / (PAGE_SIZE as int) == q && i % (PAGE_SIZE as int) == off + j)
                        by (nonlinear_arith)
                        requires
                            i == (PAGE_SIZE as int) * q + off + j,
                            0 <= off + j < PAGE_SIZE as int,
                            q >= 0,
                            PAGE_SIZE == 4096,
                    {
                    }
                    assert(m.contents(page_no)[off + j] == piece@[j]);
                    assert(piece@[j] == buf@[written + j]);
                }
            }
            self.location = self.location + (chunk as u64);
            written = written + chunk;
        }
        // Record the new high-water mark on page 0.
        self.maximum = self.location;
        let ghost mloop = *m;
        proof {
            m.lemma_quiescent_can_fix(0);
        }
        let handle: FrameHandle = match m.fix_page(0) {
            Some(h) => h,
            None => {
                proof {
                    assert(false);
                }
                vstd::pervasive::unreached()
            },
        };
        let mut page: Vec<u8> = read_bytes_at(m.read_fixed(&handle), 0, PAGE_SIZE);
        write_word_at(&mut page, 0, self.maximum);
        m.write_fixed(&handle, page);
        m.unfix_page(handle, true);
        proof {
            assert(stored_len(*m) == self.maximum);
            assert forall|i: int| 0 <= i < loc0 + buf@.len() implies stored_byte(*m, i)
                == stored_byte(mloop, i) by {
                assert(1 + i / (PAGE_SIZE as int) >= 1) by (nonlinear_arith)
                    requires
                        i >= 0,
                        PAGE_SIZE == 4096,
                {
                }
                assert(m.contents((1 + i / (PAGE_SIZE as int)) as u64) == mloop.contents(
                    (1 + i / (PAGE_SIZE as int)) as u64,
                ));
            }
        }
    }

    /// Read the stored blob back: the length word on page 0, then that many
    /// bytes from pages 1 and up. Nothing changes.
    #[verifier::loop_isolation(false)]
    #[verifier::rlimit(100)]
    pub fn get_data(&mut self, m: &mut BufferManager) -> (r: Vec<u8>)
        requires
            old(m).wf(),
            old(m).capacity_spec() >= 1,
            forall|q: u64| old(m).pins(q) == 0,
            stored_len(*old(m)) <= CATALOG_CAPACITY,
            stored_len(*old(m)) <= usize::MAX as u64,
        ensures
            final(m).wf(),
            final(m).capacity_spec() == old(m).capacity_spec(),
            forall|q: u64| final(m).pins(q) == 0,
            forall|q: u64| final(m).contents(q) == old(m).contents(q),
            r@ == stored_blob(*old(m), stored_len(*old(m)) as int),
            *final(self) == *old(self),
    {
        let ghost m0 = *old(m);
        proof {
            m.lemma_quiescent_can_fix(0);
        }
        let handle: FrameHandle = match m.fix_page(0) {
            Some(h) => h,
            None => {
                proof {
                    assert(false);
                }
                vstd::pervasive::unreached()
            },
        };
        let page0: Vec<u8> = read_bytes_at(m.read_fixed(&handle), 0, PAGE_SIZE);
        m.unfix_page(handle, false);
        proof {
            assert(page0@ =~= m0.contents(0));
        }
        let size: u64 = read_word_at(&page0, 0);
        let total: usize = size as usize;
        let mut out: Vec<u8> = Vec::new();
        let mut position: u64 = 0;
        while out.len() < total
            invariant
                out@.len() <= total,
                total == stored_len(m0),
                position == out@.len(),
                m.wf(),
                m.capacity_spec() == m0.capacity_spec(),
                forall|q: u64| m.pins(q) == 0,
                forall|q: u64| m.contents(q) == m0.contents(q),
                forall|i: int| 0 <= i < out@.len() ==> out@[i] == stored_byte(m0, i),
            decreases total - out@.len(),
        {
            let page_no: u64 = 1 + position / (PAGE_SIZE as u64);
            let off: usize = (position % (PAGE_SIZE as u64)) as usize;
            let remaining: usize = total - out.len();
            let space: usize = PAGE_SIZE - off;
            let chunk: usize = if remaining < space {
                remaining
            } else {
                space
            };
            let ghost q = position as int / (PAGE_SIZE as int);
            proof {
                assert(page_no == 1 + q && off == position as int % (PAGE_SIZE as int) && 0
                    <= off < PAGE_SIZE && q >= 0 && position as int == (PAGE_SIZE as int) * q
                    + off) by (nonlinear_arith)
                    requires
                        page_no == 1 + position / (PAGE_SIZE as u64),
                        off == position % (PAGE_SIZE as u64),
                        PAGE_SIZE == 4096,
                        q == position as int / (PAGE_SIZE as int),
                {
                }
                m.lemma_quiescent_can_fix(page_no);
            }
            let h2: FrameHandle = match m.fix_page(page_no) {
                Some(h) => h,
                None => {
                    proof {
                        assert(false);
                    }
                    vstd::pervasive::unreached()
                },
            };
            let page: Vec<u8> = read_bytes_at(m.read_fixed(&h2), 0, PAGE_SIZE);
            m.unfix_page(h2, false);
            proof {
                assert(page@ =~= m0.contents(page_no));
            }
            let mut piece: Vec<u8> = read_bytes_at(&page, off, chunk);
            let ghost out_pre = out@;
            out.append(&mut piece);
            proof {
                assert forall|i: int|
                    out_pre.len() <= i < out_pre.len() + chunk implies #[trigger] out@[i]
                    == stored_byte(m0, i) by {
                    let j = i - out_pre.len();
                    assert(i == (PAGE_SIZE as int) * q + off + j);
                    assert(i / (PAGE_SIZE as int) == q && i % (PAGE_SIZE as int) == off + j)
                        by (nonlinear_arith)
                        requires
                            i == (PAGE_SIZE as int) * q + off + j,
                            0 <= off + j < PAGE_SIZE as int,
                            q >= 0,
                            PAGE_SIZE == 4096,
                    {
                    }
                    assert(out@[i] == m0.contents(page_no)[off + j]);
                }
            }
            position = position + (chunk as u64);
        }
        proof {
            assert(out@ =~= stored_blob(m0, stored_len(m0) as int));
        }
        out
    }
}

impl Schema {
    /// Serialize the schema and stage it onto the catalog's page chain: page
    /// 0 records the blob's length, pages 1 and up hold the blob.
    pub fn save_to_disk(&self, m: &mut BufferManager)
        requires
            old(m).wf(),
            old(m).capacity_spec() >= 1,
            forall|q: u64| old(m).pins(q) == 0,
            enc_schema(self@).len() <= CATALOG_CAPACITY,
        ensures
            final(m).wf(),
            final(m).capacity_spec() == old(m).capacity_spec(),
            forall|q: u64| final(m).pins(q) == 0,
            stored_len(*final(m)) == enc_schema(self@).len(),
            stored_blob(*final(m), enc_schema(self@).len() as int) == enc_schema(self@),
            forall|q: u64|
                (q as int) > 1 + enc_schema(self@).len() as int / (PAGE_SIZE as int) ==> final(m).contents(
                    q,
                ) == old(m).contents(q),
    {
        let bytes: Vec<u8> = self.encode();
        let mut writer: SchemaWriter = SchemaWriter::new();
        writer.write(m, &bytes);
        proof {
            assert(bytes@.len() > 0) by {
                lemma_auto_spec_u64_to_from_le_bytes();
            }
            assert(stored_blob(*m, enc_schema(self@).len() as int) =~= enc_schema(self@));
        }
    }

    /// Load the schema stored on the catalog's page chain. A result
    /// re-encodes to exactly the stored blob, so it is the schema that was
    /// saved; and whenever the blob is some schema's encoding — as it is
    /// right after a save — a schema comes back. Nothing changes.
    pub fn new_from_disk(m: &mut BufferManager) -> (r: Option<Schema>)
        requires
            old(m).wf(),
            old(m).capacity_spec() >= 1,
            forall|q: u64| old(m).pins(q) == 0,
            stored_len(*old(m)) <= CATALOG_CAPACITY,
            stored_len(*old(m)) <= usize::MAX as u64,
        ensures
            final(m).wf(),
            final(m).capacity_spec() == old(m).capacity_spec(),
            forall|q: u64| final(m).pins(q) == 0,
            forall|q: u64| final(m).contents(q) == old(m).contents(q),
            match r {
                Some(s) => enc_schema(s@) == stored_blob(*old(m), stored_len(*old(m)) as int),
                None => forall|v: Seq<RelationV>|
                    schema_v_wf(v) ==> enc_schema(v) != stored_blob(
                        *old(m),
                        stored_len(*old(m)) as int,
                    ),
            },
    {
        let mut writer: SchemaWriter = SchemaWriter::new();
        let data: Vec<u8> = writer.get_data(m);
        decode_schema(&data)
    }
}

/// A name or list is encodable when its length fits the length word.
pub open spec fn column_v_wf(c: ColumnV) -> bool {
    &&& c.name.len() < 0x1_0000_0000_0000_0000
    &&& c.attributes.len() < 0x1_0000_0000_0000_0000
}

/// A relation is encodable when its lengths fit and its columns are.
pub open spec fn relation_v_wf(r: RelationV) -> bool {
    &&& r.name.len() < 0x1_0000_0000_0000_0000
    &&& r.columns.len() < 0x1_0000_0000_0000_0000
    &&& forall|i: int| 0 <= i < r.columns.len() ==> column_v_wf(#[trigger] r.columns[i])
}

/// A schema view is encodable when its lengths fit throughout. The view of
/// every `Schema` value is, since vectors are bounded.
pub open spec fn schema_v_wf(v: Seq<RelationV>) -> bool {
    &&& v.len() < 0x1_0000_0000_0000_0000
    &&& forall|i: int| 0 <= i < v.len() ==> relation_v_wf(#[trigger] v[i])
}

/// Every schema value's view is encodable.
pub proof fn lemma_schema_view_wf(s: &Schema)
    ensures
        schema_v_wf(s@),
{
    vstd::std_specs::vec::axiom_spec_len(&s.relations);
    assert forall|i: int| 0 <= i < s@.len() implies relation_v_wf(#[trigger] s@[i]) by {
        let r = s.relations@[i];
        assert(s@[i] == r@);
        vstd::std_specs::vec::axiom_spec_len(&r.name);
        vstd::std_specs::vec::axiom_spec_len(&r.columns);
        assert forall|j: int| 0 <= j < r@.columns.len() implies column_v_wf(
            #[trigger] r@.columns[j],
        ) by {
            let c = r.columns@[j];
            assert(r@.columns[j] == c@);
            vstd::std_specs::vec::axiom_spec_len(&c.name);
            vstd::std_specs::vec::axiom_spec_len(&c.attributes);
        }
    }
}

/// A concatenation splits at a known prefix length.
proof fn lemma_concat_split(a1: Seq<u8>, b1: Seq<u8>, a2: Seq<u8>, b2: Seq<u8>)
    requires
        a1 + b1 == a2 + b2,
        a1.len() == a2.len(),
    ensures
        a1 == a2,
        b1 == b2,
{
    assert forall|i: int| 0 <= i < a1.len() implies a1[i] == a2[i] by {
        assert((a1 + b1)[i] == a1[i]);
        assert((a2 + b2)[i] == a2[i]);
    }
    assert(a1 =~= a2);
    assert((a1 + b1).len() == a1.len() + b1.len());
    assert((a2 + b2).len() == a2.len() + b2.len());
    assert(b1.len() == b2.len());
    assert forall|i: int| 0 <= i < b1.len() implies b1[i] == b2[i] by {
        assert((a1 + b1)[a1.len() + i] == b1[i]);
        assert((a2 + b2)[a2.len() + i] == b2[i]);
    }
    assert(b1 =~= b2);
}

/// Length words encode injectively.
proof fn lemma_enc_u64_inj(x1: u64, x2: u64)
    requires
        enc_u64(x1) == enc_u64(x2),
    ensures
        x1 == x2,
{
    lemma_auto_spec_u64_to_from_le_bytes();
}

/// An attribute encoding names its attribute.
proof fn lemma_enc_attr_inj(a1: SqlAttribute, a2: SqlAttribute)
    requires
        enc_attr(a1) == enc_attr(a2),
    ensures
        a1 == a2,
{
    match (a1, a2) {
        (SqlAttribute::Null, SqlAttribute::NotNull) => {
            assert(enc_attr(a1)[0] == 0 && enc_attr(a2)[0] == 1);
        },
        (SqlAttribute::NotNull, SqlAttribute::Null) => {
            assert(enc_attr(a1)[0] == 1 && enc_attr(a2)[0] == 0);
        },
        _ => {},
    }
}

/// Attribute lists of equal length with equal encodings are equal.
proof fn lemma_enc_attrs_inj(s1: Seq<SqlAttribute>, s2: Seq<SqlAttribute>)
    requires
        enc_attrs(s1) == enc_attrs(s2),
        s1.len() == s2.len(),
    ensures
        s1 == s2,
    decreases s1.len(),
{
    if s1.len() == 0 {
        assert(s1 =~= s2);
    } else {
        assert(enc_attr(s1[0]).len() == 1 && enc_attr(s2[0]).len() == 1) by {
            lemma_enc_attr_len(s1[0]);
            lemma_enc_attr_len(s2[0]);
        }
        lemma_concat_split(
            enc_attr(s1[0]),
            enc_attrs(s1.drop_first()),
            enc_attr(s2[0]),
            enc_attrs(s2.drop_first()),
        );
        lemma_enc_attr_inj(s1[0], s2[0]);
        lemma_enc_attrs_inj(s1.drop_first(), s2.drop_first());
        assert(s1 =~= s2) by {
            assert(forall|i: int|
                1 <= i < s1.len() ==> s1[i] == s1.drop_first()[i - 1] && s2[i]
                    == s2.drop_first()[i - 1]);
        }
    }
}

/// An attribute encodes to one byte, so a list encodes to one byte each.
proof fn lemma_enc_attr_len(a: SqlAttribute)
    ensures
        enc_attr(a).len() == 1,
{
}

/// The encoded attribute list is as long as the list.
proof fn lemma_enc_attrs_len(s: Seq<SqlAttribute>)
    ensures
        enc_attrs(s).len() == s.len(),
    decreases s.len(),
{
    if s.len() > 0 {
        lemma_enc_attr_len(s[0]);
        lemma_enc_attrs_len(s.drop_first());
    }
}

/// A type encoding names its type, whatever follows.
proof fn lemma_enc_type_split(t1: SqlType, t2: SqlType, r1: Seq<u8>, r2: Seq<u8>)
    requires
        enc_type(t1) + r1 == enc_type(t2) + r2,
    ensures
        t1 == t2,
        r1 == r2,
{
    lemma_auto_spec_u64_to_from_le_bytes();
    assert((enc_type(t1) + r1)[0] == enc_type(t1)[0]);
    assert((enc_type(t2) + r2)[0] == enc_type(t2)[0]);
    match (t1, t2) {
        (SqlType::Char(n1), SqlType::Char(n2)) => {
            assert(enc_type(t1).len() == 9 && enc_type(t2).len() == 9);
            lemma_concat_split(enc_type(t1), r1, enc_type(t2), r2);
            assert(enc_u64(n1) =~= enc_type(t1).subrange(1, 9));
            assert(enc_u64(n2) =~= enc_type(t2).subrange(1, 9));
            lemma_enc_u64_inj(n1, n2);
        },
        (SqlType::Varchar(n1), SqlType::Varchar(n2)) => {
            assert(enc_type(t1).len() == 9 && enc_type(t2).len() == 9);
            lemma_concat_split(enc_type(t1), r1, enc_type(t2), r2);
            assert(enc_u64(n1) =~= enc_type(t1).subrange(1, 9));
            assert(enc_u64(n2) =~= enc_type(t2).subrange(1, 9));
            lemma_enc_u64_inj(n1, n2);
        },
        (SqlType::Integer, SqlType::Integer) => {
            assert(enc_type(t1).len() == 1 && enc_type(t2).len() == 1);
            lemma_concat_split(enc_type(t1), r1, enc_type(t2), r2);
        },
        _ => {
            assert(enc_type(t1)[0] != enc_type(t2)[0]);
            assert(false);
        },
    }
}

/// A column encoding names its column, whatever follows.
proof fn lemma_enc_column_split(c1: ColumnV, c2: ColumnV, r1: Seq<u8>, r2: Seq<u8>)
    requires
        enc_column(c1) + r1 == enc_column(c2) + r2,
        column_v_wf(c1),
        column_v_wf(c2),
    ensures
        c1 == c2,
        r1 == r2,
{
    lemma_auto_spec_u64_to_from_le_bytes();
    let tail1 = c1.name + (enc_type(c1.datatype) + (enc_u64(c1.attributes.len() as u64)
        + (enc_attrs(c1.attributes) + r1)));
    let tail2 = c2.name + (enc_type(c2.datatype) + (enc_u64(c2.attributes.len() as u64)
        + (enc_attrs(c2.attributes) + r2)));
    assert(enc_column(c1) + r1 =~= enc_u64(c1.name.len() as u64) + tail1);
    assert(enc_column(c2) + r2 =~= enc_u64(c2.name.len() as u64) + tail2);
    lemma_concat_split(
        enc_u64(c1.name.len() as u64),
        tail1,
        enc_u64(c2.name.len() as u64),
        tail2,
    );
    lemma_enc_u64_inj(c1.name.len() as u64, c2.name.len() as u64);
    lemma_concat_split(
        c1.name,
        enc_type(c1.datatype) + (enc_u64(c1.attributes.len() as u64) + (enc_attrs(
            c1.attributes,
        ) + r1)),
        c2.name,
        enc_type(c2.datatype) + (enc_u64(c2.attributes.len() as u64) + (enc_attrs(
            c2.attributes,
        ) + r2)),
    );
    lemma_enc_type_split(
        c1.datatype,
        c2.datatype,
        enc_u64(c1.attributes.len() as u64) + (enc_attrs(c1.attributes) + r1),
        enc_u64(c2.attributes.len() as u64) + (enc_attrs(c2.attributes) + r2),
    );
    lemma_concat_split(
        enc_u64(c1.attributes.len() as u64),
        enc_attrs(c1.attributes) + r1,
        enc_u64(c2.attributes.len() as u64),
        enc_attrs(c2.attributes) + r2,
    );
    lemma_enc_u64_inj(c1.attributes.len() as u64, c2.attributes.len() as u64);
    lemma_enc_attrs_len(c1.attributes);
    lemma_enc_attrs_len(c2.attributes);
    lemma_concat_split(enc_attrs(c1.attributes), r1, enc_attrs(c2.attributes), r2);
    lemma_enc_attrs_inj(c1.attributes, c2.attributes);
    assert(c1 == c2) by {
        assert(c1.name == c2.name && c1.datatype == c2.datatype && c1.attributes
            == c2.attributes);
    }
}

/// Column lists of equal length with equal encodings, whatever follows, are
/// equal.
proof fn lemma_enc_columns_split(s1: Seq<ColumnV>, s2: Seq<ColumnV>, r1: Seq<u8>, r2: Seq<u8>)
    requires
        enc_columns(s1) + r1 == enc_columns(s2) + r2,
        s1.len() == s2.len(),
        forall|i: int| 0 <= i < s1.len() ==> column_v_wf(#[trigger] s1[i]),
        forall|i: int| 0 <= i < s2.len() ==> column_v_wf(#[trigger] s2[i]),
    ensures
        s1 == s2,
        r1 == r2,
    decreases s1.len(),
{
    if s1.len() == 0 {
        assert(s1 =~= s2);
        assert(enc_columns(s1) + r1 =~= r1);
        assert(enc_columns(s2) + r2 =~= r2);
    } else {
        assert(enc_columns(s1) + r1 =~= enc_column(s1[0]) + (enc_columns(s1.drop_first())
            + r1));
        assert(enc_columns(s2) + r2 =~= enc_column(s2[0]) + (enc_columns(s2.drop_first())
            + r2));
        lemma_enc_column_split(
            s1[0],
            s2[0],
            enc_columns(s1.drop_first()) + r1,
            enc_columns(s2.drop_first()) + r2,
        );
        lemma_enc_columns_split(s1.drop_first(), s2.drop_first(), r1, r2);
        assert(s1 =~= s2) by {
            assert(forall|i: int|
                1 <= i < s1.len() ==> s1[i] == s1.drop_first()[i - 1] && s2[i]
                    == s2.drop_first()[i - 1]);
        }
    }
}

/// A relation encoding names its relation, whatever follows.
proof fn lemma_enc_relation_split(v1: RelationV, v2: RelationV, r1: Seq<u8>, r2: Seq<u8>)
    requires
        enc_relation(v1) + r1 == enc_relation(v2) + r2,
        relation_v_wf(v1),
        relation_v_wf(v2),
    ensures
        v1 == v2,
        r1 == r2,
{
    lemma_auto_spec_u64_to_from_le_bytes();
    assert(enc_relation(v1) + r1 =~= enc_u64(v1.name.len() as u64) + (v1.name + (enc_u64(
        v1.columns.len() as u64,
    ) + (enc_columns(v1.columns) + r1))));
    assert(enc_relation(v2) + r2 =~= enc_u64(v2.name.len() as u64) + (v2.name + (enc_u64(
        v2.columns.len() as u64,
    ) + (enc_columns(v2.columns) + r2))));
    lemma_concat_split(
        enc_u64(v1.name.len() as u64),
        v1.name + (enc_u64(v1.columns.len() as u64) + (enc_columns(v1.columns) + r1)),
        enc_u64(v2.name.len() as u64),
        v2.name + (enc_u64(v2.columns.len() as u64) + (enc_columns(v2.columns) + r2)),
    );
    lemma_enc_u64_inj(v1.name.len() as u64, v2.name.len() as u64);
    lemma_concat_split(
        v1.name,
        enc_u64(v1.columns.len() as u64) + (enc_columns(v1.columns) + r1),
        v2.name,
        enc_u64(v2.columns.len() as u64) + (enc_columns(v2.columns) + r2),
    );
    lemma_concat_split(
        enc_u64(v1.columns.len() as u64),
        enc_columns(v1.columns) + r1,
        enc_u64(v2.columns.len() as u64),
        enc_columns(v2.columns) + r2,
    );
    lemma_enc_u64_inj(v1.columns.len() as u64, v2.columns.len() as u64);
    lemma_enc_columns_split(v1.columns, v2.columns, r1, r2);
    assert(v1 == v2) by {
        assert(v1.name == v2.name && v1.columns == v2.columns);
    }
}

/// Relation lists of equal length with equal encodings, whatever follows,
/// are equal.
proof fn lemma_enc_relations_split(
    s1: Seq<RelationV>,
    s2: Seq<RelationV>,
    r1: Seq<u8>,
    r2: Seq<u8>,
)
    requires
        enc_relations(s1) + r1 == enc_relations(s2) + r2,
        s1.len() == s2.len(),
        forall|i: int| 0 <= i < s1.len() ==> relation_v_wf(#[trigger] s1[i]),
        forall|i: int| 0 <= i < s2.len() ==> relation_v_wf(#[trigger] s2[i]),
    ensures
        s1 == s2,
        r1 == r2,
    decreases s1.len(),
{
    if s1.len() == 0 {
        assert(s1 =~= s2);
        assert(enc_relations(s1) + r1 =~= r1);
        assert(enc_relations(s2) + r2 =~= r2);
    } else {
        assert(enc_relations(s1) + r1 =~= enc_relation(s1[0]) + (enc_relations(
            s1.drop_first(),
        ) + r1));
        assert(enc_relations(s2) + r2 =~= enc_relation(s2[0]) + (enc_relations(
            s2.drop_first(),
        ) + r2));
        lemma_enc_relation_split(
            s1[0],
            s2[0],
            enc_relations(s1.drop_first()) + r1,
            enc_relations(s2.drop_first()) + r2,
        );
        lemma_enc_relations_split(s1.drop_first(), s2.drop_first(), r1, r2);
        assert(s1 =~= s2) by {
            assert(forall|i: int|
                1 <= i < s1.len() ==> s1[i] == s1.drop_first()[i - 1] && s2[i]
                    == s2.drop_first()[i - 1]);
        }
    }
}

/// The schema encoding is injective: two schemas with the same bytes are the
/// same schema. Together with `save_to_disk`, which stores exactly a
/// schema's encoding, and `new_from_disk`, whose result re-encodes to the
/// stored bytes, a load after a save yields the saved schema.
pub proof fn lemma_schema_codec_injective(v1: Seq<RelationV>, v2: Seq<RelationV>)
    requires
        enc_schema(v1) == enc_schema(v2),
        schema_v_wf(v1),
        schema_v_wf(v2),
    ensures
        v1 == v2,
{
    lemma_auto_spec_u64_to_from_le_bytes();
    lemma_concat_split(
        enc_u64(v1.len() as u64),
        enc_relations(v1),
        enc_u64(v2.len() as u64),
        enc_relations(v2),
    );
    lemma_enc_u64_inj(v1.len() as u64, v2.len() as u64);
    lemma_enc_relations_split(v1, v2, Seq::empty(), Seq::empty());
}
} // verus!
