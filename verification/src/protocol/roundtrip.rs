//! The theorems tying the two engines together: a well-formed value decodes
//! back from its own encoding, re-encoding a decoded value is idempotent,
//! and decoding canonicalizes dictionary key order.

use vstd::prelude::*;

use crate::errors::DecodeError;
use crate::protocol::DICTIONARY_START;
use crate::protocol::INTEGER_START;
use crate::protocol::LENGTH_DELIMITER;
use crate::protocol::LIST_START;
use crate::protocol::MINUS;
use crate::protocol::VALUE_END;
use crate::protocol::decode::NEGATIVE_MAGNITUDE_LIMIT;
use crate::protocol::decode::spec_parse;
use crate::protocol::decode::spec_parse_entries;
use crate::protocol::decode::spec_parse_integer;
use crate::protocol::decode::spec_parse_items;
use crate::protocol::decode::spec_parse_len;
use crate::protocol::decode::spec_parse_string;
use crate::protocol::decode::spec_parse_value;
use crate::protocol::decode::lemma_parse_wf;
use crate::protocol::digits::digits_end;
use crate::protocol::digits::is_digit;
use crate::protocol::digits::lemma_digits_end_exact;
use crate::protocol::digits::lemma_digits_val_of_digits;
use crate::protocol::digits::lemma_spec_digits;
use crate::protocol::digits::spec_digits;
use crate::protocol::digits::spec_digits_val;
use crate::protocol::digits::spec_int_bytes;
use crate::protocol::encode::spec_encode;
use crate::protocol::encode::spec_encode_entries;
use crate::protocol::encode::spec_encode_items;
use crate::protocol::encode::spec_key_bytes;
use crate::types::TypeView;
use crate::types::entries_sorted;
use crate::types::lemma_insert_append;
use crate::types::lex_lt;
use crate::types::spec_insert;

verus! {

/// An encoding opens with its dispatch byte: never the terminator, and at
/// least two bytes long.
proof fn lemma_encode_first(v: TypeView)
    ensures
        spec_encode(v).len() >= 2,
        spec_encode(v)[0] != VALUE_END,
        v is Integer ==> spec_encode(v)[0] == INTEGER_START,
        v is List ==> spec_encode(v)[0] == LIST_START,
        v is Dictionary ==> spec_encode(v)[0] == DICTIONARY_START,
        v is ByteString ==> is_digit(spec_encode(v)[0]),
{
    match v {
        TypeView::Integer(i) => {},
        TypeView::ByteString(s) => {
            lemma_spec_digits(s.len());
            assert(spec_encode(v)[0] == spec_digits(s.len())[0]);
        },
        TypeView::List(l) => {},
        TypeView::Dictionary(es) => {},
    }
}

/// A byte-string encoding embedded at `pos` parses back to exactly its
/// payload, consuming exactly the encoding.
proof fn lemma_parse_of_key(k: Seq<u8>, s: Seq<u8>, pos: int)
    requires
        k.len() <= i64::MAX,
        0 <= pos,
        pos + spec_key_bytes(k).len() <= s.len(),
        s.subrange(pos, pos + spec_key_bytes(k).len() as int) == spec_key_bytes(k),
    ensures
        spec_parse_string(s, pos) == Ok::<(Seq<u8>, int), DecodeError>(
            (k, pos + spec_key_bytes(k).len()),
        ),
{
    let kb = spec_key_bytes(k);
    let digits = spec_digits(k.len());
    let dl = digits.len() as int;
    lemma_spec_digits(k.len());
    assert forall|j: int| 0 <= j < kb.len() implies s[pos + j] == kb[j] by {
        assert(s.subrange(pos, pos + kb.len() as int)[j] == s[pos + j]);
    }
    assert forall|j: int| 0 <= j < dl implies s[pos + j] == digits[j] by {
        assert(kb[j] == digits[j]);
    }
    assert(kb[dl] == LENGTH_DELIMITER);
    assert(s[pos + dl] == LENGTH_DELIMITER);
    assert(!is_digit(LENGTH_DELIMITER));
    assert forall|j: int| pos + 1 <= j < pos + dl implies is_digit(#[trigger] s[j]) by {
        assert(s[pos + (j - pos)] == digits[j - pos]);
    }
    lemma_digits_end_exact(s, pos + 1, pos + dl);
    assert(digits_end(s, pos + 1) == pos + dl);
    assert(pos + dl < s.len());
    let run = s.subrange(pos + 1, pos + dl);
    assert(seq![s[pos]] + run =~= digits);
    lemma_digits_val_of_digits(k.len());
    assert(is_digit(s[pos]));
    assert(spec_parse_len(s[pos], run) == Some(k.len() as int));
    let cstart = pos + dl + 1;
    assert forall|j: int| 0 <= j < k.len() implies s[cstart + j] == k[j] by {
        assert(kb[dl + 1 + j] == k[j]);
        assert(s[pos + (dl + 1 + j)] == kb[dl + 1 + j]);
    }
    assert(s.subrange(cstart, cstart + k.len() as int) =~= k);
    assert(cstart + k.len() == pos + kb.len());
}

/// An integer encoding embedded at `pos` parses back to exactly its value,
/// consuming exactly the encoding. `pos` is the position of the `i` byte.
proof fn lemma_parse_of_integer(i: int, s: Seq<u8>, pos: int)
    requires
        i64::MIN <= i <= i64::MAX,
        0 <= pos,
        pos + spec_encode(TypeView::Integer(i)).len() <= s.len(),
        s.subrange(pos, pos + spec_encode(TypeView::Integer(i)).len() as int) == spec_encode(
            TypeView::Integer(i),
        ),
    ensures
        spec_parse_integer(s, pos + 1) == Ok::<(TypeView, int), DecodeError>(
            (TypeView::Integer(i), pos + spec_encode(TypeView::Integer(i)).len()),
        ),
{
    let enc = spec_encode(TypeView::Integer(i));
    let body = spec_int_bytes(i);
    let mag = if i < 0 {
        (-i) as nat
    } else {
        i as nat
    };
    let digits = spec_digits(mag);
    lemma_spec_digits(mag);
    assert forall|j: int| 0 <= j < enc.len() implies s[pos + j] == enc[j] by {
        assert(s.subrange(pos, pos + enc.len() as int)[j] == s[pos + j]);
    }
    assert(enc[0] == INTEGER_START);
    assert(enc.len() == 2 + body.len());
    let dstart = if i < 0 {
        pos + 2
    } else {
        pos + 1
    };
    if i < 0 {
        assert(body[0] == MINUS);
        assert(enc[1] == MINUS);
        assert(s[pos + 1] == MINUS);
        assert forall|j: int| 0 <= j < digits.len() implies s[dstart + j] == digits[j] by {
            assert(body[1 + j] == digits[j]);
            assert(enc[1 + (1 + j)] == body[1 + j]);
        }
    } else {
        assert(body =~= digits);
        assert forall|j: int| 0 <= j < digits.len() implies s[dstart + j] == digits[j] by {
            assert(enc[1 + j] == body[j]);
        }
        assert(s[pos + 1] == digits[0]);
        assert(is_digit(s[pos + 1]));
        assert(s[pos + 1] != MINUS);
    }
    let dend = dstart + digits.len() as int;
    assert(enc[enc.len() - 1] == VALUE_END);
    assert(s[pos + (enc.len() - 1)] == enc[enc.len() - 1]);
    assert(s[dend] == VALUE_END);
    assert(!is_digit(VALUE_END));
    assert forall|j: int| dstart <= j < dend implies is_digit(#[trigger] s[j]) by {
        assert(s[dstart + (j - dstart)] == digits[j - dstart]);
    }
    lemma_digits_end_exact(s, dstart, dend);
    assert(s.subrange(dstart, dend) =~= digits);
    lemma_digits_val_of_digits(mag);
    assert(spec_digits_val(s.subrange(dstart, dend)) == mag);
    if i < 0 {
        assert(mag >= 1);
        assert(mag <= NEGATIVE_MAGNITUDE_LIMIT);
        assert(digits.len() > 1 ==> digits[0] != crate::protocol::DIGIT_ZERO);
    } else {
        assert(mag <= i64::MAX);
        assert(digits.len() > 1 ==> digits[0] != crate::protocol::DIGIT_ZERO);
    }
    assert(dend + 1 == pos + enc.len());
}

/// A well-formed, bounded value's encoding embedded at `pos` parses back to
/// exactly that value, consuming exactly the encoding.
proof fn lemma_parse_of_encoding(v: TypeView, s: Seq<u8>, pos: int)
    requires
        v.wf(),
        v.bounded(),
        0 <= pos,
        pos + spec_encode(v).len() <= s.len(),
        s.subrange(pos, pos + spec_encode(v).len() as int) == spec_encode(v),
    ensures
        spec_parse_value(s, pos) == Ok::<(TypeView, int), DecodeError>(
            (v, pos + spec_encode(v).len()),
        ),
    decreases v,
{
    let enc = spec_encode(v);
    lemma_encode_first(v);
    assert forall|j: int| 0 <= j < enc.len() implies s[pos + j] == enc[j] by {
        assert(s.subrange(pos, pos + enc.len() as int)[j] == s[pos + j]);
    }
    assert(s[pos] == enc[0]);
    match v {
        TypeView::Integer(i) => {
            lemma_parse_of_integer(i, s, pos);
        },
        TypeView::ByteString(b) => {
            lemma_parse_of_key(b, s, pos);
            assert(!(s[pos] == INTEGER_START || s[pos] == LIST_START || s[pos]
                == DICTIONARY_START));
        },
        TypeView::List(l) => {
            let inner = spec_encode_items(l);
            assert(enc =~= seq![LIST_START] + inner + seq![VALUE_END]);
            assert(s.subrange(pos + 1, pos + 1 + inner.len() as int) =~= inner) by {
                assert forall|j: int| 0 <= j < inner.len() implies s[pos + 1 + j] == inner[j] by {
                    assert(enc[1 + j] == inner[j]);
                }
            }
            assert(s[pos + 1 + inner.len()] == VALUE_END) by {
                assert(s[pos + (enc.len() - 1)] == enc[enc.len() - 1]);
            }
            lemma_parse_of_items(l, s, pos + 1);
        },
        TypeView::Dictionary(es) => {
            let inner = spec_encode_entries(es);
            assert(enc =~= seq![DICTIONARY_START] + inner + seq![VALUE_END]);
            assert(s.subrange(pos + 1, pos + 1 + inner.len() as int) =~= inner) by {
                assert forall|j: int| 0 <= j < inner.len() implies s[pos + 1 + j] == inner[j] by {
                    assert(enc[1 + j] == inner[j]);
                }
            }
            assert(s[pos + 1 + inner.len()] == VALUE_END) by {
                assert(s[pos + (enc.len() - 1)] == enc[enc.len() - 1]);
            }
            assert(Seq::<(Seq<u8>, TypeView)>::empty() + es =~= es);
            lemma_parse_of_entries(es, Seq::empty(), s, pos + 1);
        },
    }
}

/// The encodings of a list's items followed by the terminator parse back to
/// exactly those items.
proof fn lemma_parse_of_items(l: Seq<TypeView>, s: Seq<u8>, pos: int)
    requires
        forall|i: int| 0 <= i < l.len() ==> (#[trigger] l[i]).wf() && l[i].bounded(),
        0 <= pos,
        pos + spec_encode_items(l).len() < s.len(),
        s.subrange(pos, pos + spec_encode_items(l).len() as int) == spec_encode_items(l),
        s[pos + spec_encode_items(l).len()] == VALUE_END,
    ensures
        spec_parse_items(s, pos) == Ok::<(Seq<TypeView>, int), DecodeError>(
            (l, pos + spec_encode_items(l).len() + 1),
        ),
    decreases l,
{
    let inner = spec_encode_items(l);
    if l.len() == 0 {
        assert(inner.len() == 0);
        assert(s[pos] == VALUE_END);
        assert(l =~= Seq::<TypeView>::empty());
    } else {
        let e0 = spec_encode(l[0]);
        let rest = spec_encode_items(l.drop_first());
        assert(inner =~= e0 + rest);
        assert forall|j: int| 0 <= j < inner.len() implies s[pos + j] == inner[j] by {
            assert(s.subrange(pos, pos + inner.len() as int)[j] == s[pos + j]);
        }
        lemma_encode_first(l[0]);
        assert(s[pos] == e0[0]) by {
            assert(s.subrange(pos, pos + inner.len() as int)[0] == s[pos]);
            assert(inner[0] == e0[0]);
        }
        assert(s[pos] != VALUE_END);
        assert(s.subrange(pos, pos + e0.len() as int) =~= e0) by {
            assert forall|j: int| 0 <= j < e0.len() implies s[pos + j] == e0[j] by {
                assert(inner[j] == e0[j]);
            }
        }
        lemma_parse_of_encoding(l[0], s, pos);
        let p2 = pos + e0.len() as int;
        assert(s.subrange(p2, p2 + rest.len() as int) =~= rest) by {
            assert forall|j: int| 0 <= j < rest.len() implies s[p2 + j] == rest[j] by {
                assert(inner[e0.len() + j] == rest[j]);
                assert(s[pos + (e0.len() + j)] == inner[e0.len() + j]);
            }
        }
        assert(s[p2 + rest.len()] == VALUE_END);
        lemma_parse_of_items(l.drop_first(), s, p2);
        assert(seq![l[0]] + l.drop_first() =~= l);
        assert(p2 + rest.len() + 1 == pos + inner.len() + 1);
    }
}

/// The encodings of a dictionary's entries followed by the terminator parse
/// back, on top of already-collected entries `acc`, to `acc` extended by
/// exactly those entries: keys arriving in ascending order append one by
/// one.
proof fn lemma_parse_of_entries(
    es: Seq<(Seq<u8>, TypeView)>,
    acc: Seq<(Seq<u8>, TypeView)>,
    s: Seq<u8>,
    pos: int,
)
    requires
        entries_sorted(acc + es),
        forall|i: int|
            0 <= i < es.len() ==> (#[trigger] es[i]).1.wf() && es[i].1.bounded() && es[i].0.len()
                <= i64::MAX,
        0 <= pos,
        pos + spec_encode_entries(es).len() < s.len(),
        s.subrange(pos, pos + spec_encode_entries(es).len() as int) == spec_encode_entries(es),
        s[pos + spec_encode_entries(es).len()] == VALUE_END,
    ensures
        spec_parse_entries(s, pos, acc) == Ok::<(Seq<(Seq<u8>, TypeView)>, int), DecodeError>(
            (acc + es, pos + spec_encode_entries(es).len() + 1),
        ),
    decreases es,
{
    let inner = spec_encode_entries(es);
    if es.len() == 0 {
        assert(inner.len() == 0);
        assert(s[pos] == VALUE_END);
        assert(acc + es =~= acc);
    } else {
        let k0 = es[0].0;
        let v0 = es[0].1;
        let kb = spec_key_bytes(k0);
        let e0 = spec_encode(v0);
        let rest = spec_encode_entries(es.drop_first());
        assert(inner =~= kb + e0 + rest);
        assert forall|j: int| 0 <= j < inner.len() implies s[pos + j] == inner[j] by {
            assert(s.subrange(pos, pos + inner.len() as int)[j] == s[pos + j]);
        }
        lemma_spec_digits(k0.len());
        assert(kb[0] == spec_digits(k0.len())[0]);
        assert(s[pos] == inner[0]);
        assert(inner[0] == kb[0]);
        assert(is_digit(s[pos]));
        assert(s[pos] != VALUE_END);
        // the key parses back
        assert(s.subrange(pos, pos + kb.len() as int) =~= kb) by {
            assert forall|j: int| 0 <= j < kb.len() implies s[pos + j] == kb[j] by {
                assert(inner[j] == kb[j]);
            }
        }
        lemma_parse_of_key(k0, s, pos);
        let p2 = pos + kb.len() as int;
        // the value parses back
        lemma_encode_first(v0);
        assert(s.subrange(p2, p2 + e0.len() as int) =~= e0) by {
            assert forall|j: int| 0 <= j < e0.len() implies s[p2 + j] == e0[j] by {
                assert(inner[kb.len() + j] == e0[j]);
                assert(s[pos + (kb.len() + j)] == inner[kb.len() + j]);
            }
        }
        assert(s[p2] == e0[0]) by {
            assert(s[pos + kb.len()] == inner[kb.len() as int]);
        }
        assert(s[p2] != VALUE_END);
        assert(p2 < s.len());
        lemma_parse_of_encoding(v0, s, p2);
        let p3 = p2 + e0.len() as int;
        // the insert appends, since every collected key sits below `k0`
        assert forall|j: int| 0 <= j < acc.len() implies lex_lt((#[trigger] acc[j]).0, k0) by {
            assert((acc + es)[j] == acc[j]);
            assert((acc + es)[acc.len() as int] == es[0]);
        }
        lemma_insert_append(acc, k0, v0);
        let acc2 = acc.push((k0, v0));
        assert(spec_insert(acc, k0, v0) == acc2);
        // the remaining entries parse back on top of the grown accumulator
        assert(acc2 + es.drop_first() =~= acc + es);
        assert(s.subrange(p3, p3 + rest.len() as int) =~= rest) by {
            assert forall|j: int| 0 <= j < rest.len() implies s[p3 + j] == rest[j] by {
                assert(inner[kb.len() + e0.len() + j] == rest[j]);
                assert(s[pos + (kb.len() + e0.len() + j)] == inner[kb.len() + e0.len() + j]);
            }
        }
        assert(s[p3 + rest.len()] == VALUE_END);
        assert forall|i: int|
            0 <= i < es.drop_first().len() implies (#[trigger] es.drop_first()[i]).1.wf()
            && es.drop_first()[i].1.bounded() && es.drop_first()[i].0.len() <= i64::MAX by {
            assert(es.drop_first()[i] == es[i + 1]);
        }
        lemma_parse_of_entries(es.drop_first(), acc2, s, p3);
        assert(p3 + rest.len() + 1 == pos + inner.len() + 1);
    }
}

/// Round-trip canonicalization: a value whose dictionaries are key-sorted
/// decodes back from its own encoding to exactly itself. The hypotheses
/// hold of every value an in-memory tree can denote.
pub proof fn lemma_round_trip(v: TypeView)
    requires
        v.wf(),
        v.bounded(),
    ensures
        spec_parse(spec_encode(v)) == Ok::<TypeView, DecodeError>(v),
{
    let s = spec_encode(v);
    lemma_encode_first(v);
    assert(s.subrange(0, s.len() as int) =~= s);
    lemma_parse_of_encoding(v, s, 0);
}

/// Idempotent re-encoding: decoding an encoding and encoding the result
/// reproduces the original bytes.
pub proof fn lemma_reencode_idempotent(v: TypeView)
    requires
        v.wf(),
        v.bounded(),
    ensures
        spec_parse(spec_encode(v)) matches Ok(w) && spec_encode(w) == spec_encode(v),
{
    lemma_round_trip(v);
}

/// Decode-then-encode is a fixed point: whatever value some input decodes
/// to, the value's own encoding decodes to it again, so a second
/// decode-encode pass changes nothing.
pub proof fn lemma_canonicalization(bytes: Seq<u8>)
    ensures
        spec_parse(bytes) matches Ok(v) ==> spec_parse(spec_encode(v)) == Ok::<
            TypeView,
            DecodeError,
        >(v),
{
    lemma_parse_wf(bytes);
    match spec_parse(bytes) {
        Ok(v) => lemma_round_trip(v),
        Err(_) => {},
    }
}

/// Key sorting: any dictionary a decode yields iterates its keys in
/// strictly ascending lexicographic order, whatever order they arrived in.
pub proof fn lemma_decoded_keys_sorted(bytes: Seq<u8>)
    ensures
        spec_parse(bytes) matches Ok(v) ==> (v matches TypeView::Dictionary(es) ==> entries_sorted(
            es,
        )),
{
    lemma_parse_wf(bytes);
}

} // verus!
