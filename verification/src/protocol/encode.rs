//! The encoder engine: a total function from a value tree to its canonical
//! byte sequence, specified by `spec_encode` and proved to match it.

use vstd::prelude::*;

use crate::protocol::DICTIONARY_START;
use crate::protocol::INTEGER_START;
use crate::protocol::LENGTH_DELIMITER;
use crate::protocol::LIST_START;
use crate::protocol::VALUE_END;
use crate::protocol::digits::push_digits;
use crate::protocol::digits::spec_digits;
use crate::protocol::digits::spec_int_bytes;
use crate::types::Type;
use crate::types::TypeView;
use crate::types::entries_view;
use crate::types::lemma_entries_view_index;
use crate::types::lemma_entries_view_len;
use crate::types::lemma_seq_view_index;
use crate::types::lemma_seq_view_len;
use crate::types::seq_view;

verus! {

/// The encoding of a byte string: its decimal length, the delimiter, then
/// the payload unchanged.
pub open spec fn spec_key_bytes(k: Seq<u8>) -> Seq<u8> {
    spec_digits(k.len()) + seq![LENGTH_DELIMITER] + k
}

/// The canonical encoding of a value tree.
pub open spec fn spec_encode(v: TypeView) -> Seq<u8>
    decreases v,
{
    match v {
        TypeView::Integer(i) => seq![INTEGER_START] + spec_int_bytes(i) + seq![VALUE_END],
        TypeView::ByteString(s) => spec_key_bytes(s),
        TypeView::List(l) => seq![LIST_START] + spec_encode_items(l) + seq![VALUE_END],
        TypeView::Dictionary(es) => seq![DICTIONARY_START] + spec_encode_entries(es)
            + seq![VALUE_END],
    }
}

/// The concatenated encodings of a list's children, in list order.
pub open spec fn spec_encode_items(l: Seq<TypeView>) -> Seq<u8>
    decreases l,
{
    if l.len() == 0 {
        Seq::empty()
    } else {
        spec_encode(l[0]) + spec_encode_items(l.drop_first())
    }
}

/// The concatenated key and value encodings of a dictionary's entries, in
/// entry order.
pub open spec fn spec_encode_entries(es: Seq<(Seq<u8>, TypeView)>) -> Seq<u8>
    decreases es,
{
    if es.len() == 0 {
        Seq::empty()
    } else {
        spec_key_bytes(es[0].0) + spec_encode(es[0].1) + spec_encode_entries(es.drop_first())
    }
}

pub proof fn lemma_encode_items_push(l: Seq<TypeView>, v: TypeView)
    ensures
        spec_encode_items(l.push(v)) == spec_encode_items(l) + spec_encode(v),
    decreases l.len(),
{
    if l.len() == 0 {
        assert(l.push(v).drop_first() =~= Seq::<TypeView>::empty());
        assert(l.push(v)[0] == v);
        assert(spec_encode_items(Seq::<TypeView>::empty()) =~= Seq::<u8>::empty());
        assert(spec_encode_items(l.push(v)) =~= spec_encode_items(l) + spec_encode(v));
    } else {
        assert(l.push(v).drop_first() =~= l.drop_first().push(v));
        lemma_encode_items_push(l.drop_first(), v);
        assert(spec_encode_items(l.push(v)) =~= spec_encode_items(l) + spec_encode(v));
    }
}

pub proof fn lemma_encode_entries_push(es: Seq<(Seq<u8>, TypeView)>, e: (Seq<u8>, TypeView))
    ensures
        spec_encode_entries(es.push(e)) == spec_encode_entries(es) + spec_key_bytes(e.0)
            + spec_encode(e.1),
    decreases es.len(),
{
    if es.len() == 0 {
        assert(es.push(e).drop_first() =~= Seq::<(Seq<u8>, TypeView)>::empty());
        assert(es.push(e)[0] == e);
        assert(spec_encode_entries(Seq::<(Seq<u8>, TypeView)>::empty()) =~= Seq::<u8>::empty());
        assert(spec_encode_entries(es.push(e)) =~= spec_encode_entries(es) + spec_key_bytes(e.0)
            + spec_encode(e.1));
    } else {
        assert(es.push(e).drop_first() =~= es.drop_first().push(e));
        lemma_encode_entries_push(es.drop_first(), e);
        assert(spec_encode_entries(es.push(e)) =~= spec_encode_entries(es) + spec_key_bytes(e.0)
            + spec_encode(e.1));
    }
}

/// Encode one value tree into its canonical byte sequence.
pub fn encode(t: &Type) -> (r: Vec<u8>)
    ensures
        r@ == spec_encode(t@),
    decreases *t,
{
    match t {
        Type::Integer(i) => encode_integer(*i),
        Type::ByteString(s) => encode_bytestring(s),
        Type::List(l) => encode_list(l),
        Type::Dictionary(d) => encode_dictionary(d),
    }
}

/// `i` … `e` around the decimal rendering of the integer.
fn encode_integer(i: i64) -> (r: Vec<u8>)
    ensures
        r@ == seq![INTEGER_START] + spec_int_bytes(i as int) + seq![VALUE_END],
{
    let mut out: Vec<u8> = Vec::new();
    out.push(INTEGER_START);
    if i < 0 {
        out.push(crate::protocol::MINUS);
        let mag: u64 = if i == i64::MIN {
            9223372036854775808u64
        } else {
            (-i) as u64
        };
        assert(mag as nat == (-(i as int)) as nat);
        push_digits(mag, &mut out);
    } else {
        push_digits(i as u64, &mut out);
    }
    out.push(VALUE_END);
    assert(out@ =~= seq![INTEGER_START] + spec_int_bytes(i as int) + seq![VALUE_END]);
    out
}

/// The decimal byte count, the delimiter, then the raw bytes unchanged.
fn encode_bytestring(s: &Vec<u8>) -> (r: Vec<u8>)
    ensures
        r@ == spec_key_bytes(s@),
{
    let mut out: Vec<u8> = Vec::new();
    push_digits(s.len() as u64, &mut out);
    out.push(LENGTH_DELIMITER);
    let mut i: usize = 0;
    while i < s.len()
        invariant
            i <= s@.len(),
            out@ == spec_digits(s@.len()) + seq![LENGTH_DELIMITER] + s@.subrange(0, i as int),
        decreases s@.len() - i,
    {
        out.push(s[i]);
        assert(out@ =~= spec_digits(s@.len()) + seq![LENGTH_DELIMITER] + s@.subrange(
            0,
            i as int + 1,
        ));
        i = i + 1;
    }
    assert(out@ =~= spec_key_bytes(s@));
    out
}

/// `l` … `e` around each child's encoding, in order.
fn encode_list(l: &Vec<Type>) -> (r: Vec<u8>)
    ensures
        r@ == seq![LIST_START] + spec_encode_items(seq_view(l@)) + seq![VALUE_END],
    decreases *l,
{
    let mut out: Vec<u8> = Vec::new();
    out.push(LIST_START);
    let mut i: usize = 0;
    proof {
        lemma_seq_view_len(l@);
    }
    while i < l.len()
        invariant
            i <= l@.len(),
            seq_view(l@).len() == l@.len(),
            out@ == seq![LIST_START] + spec_encode_items(seq_view(l@).subrange(0, i as int)),
        decreases l@.len() - i,
    {
        let mut piece = encode(&l[i]);
        out.append(&mut piece);
        proof {
            lemma_seq_view_index(l@, i as int);
            assert(seq_view(l@).subrange(0, i as int + 1) =~= seq_view(l@).subrange(
                0,
                i as int,
            ).push(l@[i as int]@));
            lemma_encode_items_push(seq_view(l@).subrange(0, i as int), l@[i as int]@);
            assert(out@ =~= seq![LIST_START] + spec_encode_items(
                seq_view(l@).subrange(0, i as int + 1),
            ));
        }
        i = i + 1;
    }
    out.push(VALUE_END);
    proof {
        assert(seq_view(l@).subrange(0, l@.len() as int) =~= seq_view(l@));
        assert(out@ =~= seq![LIST_START] + spec_encode_items(seq_view(l@)) + seq![VALUE_END]);
    }
    out
}

/// `d` … `e` around each entry's key and value encodings, in the stored
/// (ascending) key order.
fn encode_dictionary(d: &Vec<(Vec<u8>, Type)>) -> (r: Vec<u8>)
    ensures
        r@ == seq![DICTIONARY_START] + spec_encode_entries(entries_view(d@)) + seq![VALUE_END],
    decreases *d,
{
    let mut out: Vec<u8> = Vec::new();
    out.push(DICTIONARY_START);
    let mut i: usize = 0;
    proof {
        lemma_entries_view_len(d@);
    }
    while i < d.len()
        invariant
            i <= d@.len(),
            entries_view(d@).len() == d@.len(),
            out@ == seq![DICTIONARY_START] + spec_encode_entries(
                entries_view(d@).subrange(0, i as int),
            ),
        decreases d@.len() - i,
    {
        let mut key_piece = encode_bytestring(&d[i].0);
        out.append(&mut key_piece);
        let mut val_piece = encode(&d[i].1);
        out.append(&mut val_piece);
        proof {
            lemma_entries_view_index(d@, i as int);
            assert(entries_view(d@).subrange(0, i as int + 1) =~= entries_view(d@).subrange(
                0,
                i as int,
            ).push((d@[i as int].0@, d@[i as int].1@)));
            lemma_encode_entries_push(
                entries_view(d@).subrange(0, i as int),
                (d@[i as int].0@, d@[i as int].1@),
            );
            assert(out@ =~= seq![DICTIONARY_START] + spec_encode_entries(
                entries_view(d@).subrange(0, i as int + 1),
            ));
        }
        i = i + 1;
    }
    out.push(VALUE_END);
    proof {
        assert(entries_view(d@).subrange(0, d@.len() as int) =~= entries_view(d@));
        assert(out@ =~= seq![DICTIONARY_START] + spec_encode_entries(entries_view(d@))
            + seq![VALUE_END]);
    }
    out
}

} // verus!
