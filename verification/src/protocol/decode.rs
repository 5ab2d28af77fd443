//! The decoder engine: a single-pass recursive-descent parser from bytes to
//! a value tree, specified by the `spec_parse` family and proved to match it
//! byte for byte, error for error.

use vstd::prelude::*;

use crate::errors::DecodeError;
use crate::errors::EndByteContext;
use crate::protocol::DICTIONARY_START;
use crate::protocol::INTEGER_START;
use crate::protocol::LENGTH_DELIMITER;
use crate::protocol::LIST_START;
use crate::protocol::MINUS;
use crate::protocol::PLUS;
use crate::protocol::VALUE_END;
use crate::protocol::digits::digits_end;
use crate::protocol::digits::digits_to_u64;
use crate::protocol::digits::is_digit;
use crate::protocol::digits::lemma_digits_end;
use crate::protocol::digits::lemma_digits_end_exact;
use crate::protocol::digits::spec_digits_val;
use crate::types::Type;
use crate::types::TypeView;
use crate::types::entries_sorted;
use crate::types::lemma_insert_entries;
use crate::types::lemma_insert_sorted;
use crate::types::lemma_seq_view_push;
use crate::types::seq_view;
use crate::types::spec_insert;

verus! {

/// The 64-bit magnitude limit of a negative integer: one above `i64::MAX`.
pub const NEGATIVE_MAGNITUDE_LIMIT: u64 = 9223372036854775808;

/// Parse one complete value from the whole input: an empty input, and bytes
/// left over after one value, are errors.
pub open spec fn spec_parse(s: Seq<u8>) -> Result<TypeView, DecodeError> {
    if s.len() == 0 {
        Err(DecodeError::Empty)
    } else {
        match spec_parse_value(s, 0) {
            Ok((v, end)) => if end == s.len() {
                Ok(v)
            } else {
                Err(DecodeError::InvalidByteSequence)
            },
            Err(e) => Err(e),
        }
    }
}

/// Parse one value whose leading byte sits at `pos`: `i` opens an integer,
/// `l` a list, `d` a dictionary, a digit a byte string.
pub open spec fn spec_parse_value(s: Seq<u8>, pos: int) -> Result<(TypeView, int), DecodeError>
    decreases s.len() - pos, 0int,
{
    if pos < 0 || pos >= s.len() {
        // callers dispatch on a byte they have read, so this cannot arise
        Err(DecodeError::InvalidStartByte)
    } else if s[pos] == INTEGER_START {
        spec_parse_integer(s, pos + 1)
    } else if s[pos] == LIST_START {
        match spec_parse_items(s, pos + 1) {
            Ok((items, p)) => Ok((TypeView::List(items), p)),
            Err(e) => Err(e),
        }
    } else if s[pos] == DICTIONARY_START {
        match spec_parse_entries(s, pos + 1, Seq::empty()) {
            Ok((es, p)) => Ok((TypeView::Dictionary(es), p)),
            Err(e) => Err(e),
        }
    } else if is_digit(s[pos]) {
        match spec_parse_string(s, pos) {
            Ok((content, p)) => Ok((TypeView::ByteString(content), p)),
            Err(e) => Err(e),
        }
    } else {
        Err(DecodeError::InvalidStartByte)
    }
}

/// Parse an integer body: `pos` is the byte after `i`. An optional `-`, a
/// digit run, then the terminator; an exhausted input in place of the
/// terminator ends the digit run as well.
pub open spec fn spec_parse_integer(s: Seq<u8>, pos: int) -> Result<(TypeView, int), DecodeError> {
    if pos < 0 || pos >= s.len() {
        Err(DecodeError::InvalidInteger)
    } else if s[pos] != MINUS && !is_digit(s[pos]) {
        Err(DecodeError::InvalidInteger)
    } else {
        let neg = s[pos] == MINUS;
        let dstart = if neg {
            pos + 1
        } else {
            pos
        };
        let dend = digits_end(s, dstart);
        if dend < s.len() && s[dend] != VALUE_END {
            Err(DecodeError::InvalidEndByte(EndByteContext::Integer))
        } else {
            let next = if dend < s.len() {
                dend + 1
            } else {
                dend
            };
            let digits = s.subrange(dstart, dend);
            if digits.len() == 0 {
                Err(DecodeError::InvalidInteger)
            } else if digits.len() > 1 && digits[0] == crate::protocol::DIGIT_ZERO {
                Err(DecodeError::IntegerWithLeadingZeros)
            } else {
                let mag = spec_digits_val(digits);
                if (neg && mag > NEGATIVE_MAGNITUDE_LIMIT) || (!neg && mag > i64::MAX) {
                    Err(DecodeError::InvalidInteger)
                } else if neg && mag == 0 {
                    Err(DecodeError::NegativeZeroInteger)
                } else {
                    let val = if neg {
                        -(mag as int)
                    } else {
                        mag as int
                    };
                    Ok((TypeView::Integer(val), next))
                }
            }
        }
    }
}

/// The numeric value of a length prefix `[c0] ++ digits`, read as a signed
/// 64-bit decimal: a digit or an explicit sign first, digits after.
pub open spec fn spec_parse_len(c0: u8, digits: Seq<u8>) -> Option<int> {
    if is_digit(c0) {
        let mag = spec_digits_val(seq![c0] + digits);
        if mag > i64::MAX {
            None
        } else {
            Some(mag as int)
        }
    } else if c0 == MINUS && digits.len() > 0 {
        let mag = spec_digits_val(digits);
        if mag > NEGATIVE_MAGNITUDE_LIMIT {
            None
        } else {
            Some(-(mag as int))
        }
    } else if c0 == PLUS && digits.len() > 0 {
        let mag = spec_digits_val(digits);
        if mag > i64::MAX {
            None
        } else {
            Some(mag as int)
        }
    } else {
        None
    }
}

/// Parse a byte string whose length prefix starts at `pos`. In dictionary
/// key position the first byte may be any byte; it joins the digit run and
/// the run is then read as a signed decimal.
pub open spec fn spec_parse_string(s: Seq<u8>, pos: int) -> Result<(Seq<u8>, int), DecodeError> {
    if pos < 0 || pos >= s.len() {
        // callers dispatch on a byte they have read, so this cannot arise
        Err(DecodeError::InvalidStartByte)
    } else {
        let dend = digits_end(s, pos + 1);
        if dend < s.len() && s[dend] != LENGTH_DELIMITER {
            Err(DecodeError::InvalidEndByte(EndByteContext::ByteString))
        } else {
            let cstart = if dend < s.len() {
                dend + 1
            } else {
                dend
            };
            match spec_parse_len(s[pos], s.subrange(pos + 1, dend)) {
                None => Err(DecodeError::InvalidInteger),
                Some(len) => if len < 0 {
                    // a negative count asks for nothing: the payload is empty
                    Ok((Seq::empty(), cstart))
                } else if cstart + len > s.len() {
                    Err(DecodeError::InvalidByteStringLength)
                } else {
                    Ok((s.subrange(cstart, cstart + len), cstart + len))
                },
            }
        }
    }
}

/// Parse list items from `pos` up to and including the list terminator.
pub open spec fn spec_parse_items(s: Seq<u8>, pos: int) -> Result<
    (Seq<TypeView>, int),
    DecodeError,
>
    decreases s.len() - pos, 1int,
{
    if pos < 0 || pos >= s.len() {
        Err(DecodeError::InvalidList)
    } else if s[pos] == VALUE_END {
        Ok((Seq::empty(), pos + 1))
    } else {
        match spec_parse_value(s, pos) {
            Err(e) => Err(e),
            Ok((v, p2)) => if p2 <= pos || p2 > s.len() {
                // a parsed value always advances the cursor; this guard only
                // keeps the recursion well-founded
                Err(DecodeError::InvalidList)
            } else {
                match spec_parse_items(s, p2) {
                    Err(e) => Err(e),
                    Ok((items, p3)) => Ok((seq![v] + items, p3)),
                }
            },
        }
    }
}

/// Parse dictionary entries from `pos` up to and including the terminator,
/// inserting each pair into the accumulated sorted entries; a later pair
/// under the same key replaces the earlier one.
pub open spec fn spec_parse_entries(
    s: Seq<u8>,
    pos: int,
    acc: Seq<(Seq<u8>, TypeView)>,
) -> Result<(Seq<(Seq<u8>, TypeView)>, int), DecodeError>
    decreases s.len() - pos, 1int,
{
    if pos < 0 || pos >= s.len() {
        Err(DecodeError::InvalidDictionary)
    } else if s[pos] == VALUE_END {
        Ok((acc, pos + 1))
    } else {
        match spec_parse_string(s, pos) {
            Err(e) => Err(e),
            Ok((k, p2)) => if p2 <= pos || p2 >= s.len() {
                // a parsed key advances the cursor but may exhaust the input
                Err(DecodeError::InvalidDictionary)
            } else if s[p2] == VALUE_END {
                // a trailing key with no value is dropped silently
                Ok((acc, p2 + 1))
            } else {
                match spec_parse_value(s, p2) {
                    Err(e) => Err(e),
                    Ok((v, p3)) => if p3 <= pos || p3 > s.len() {
                        // unreachable progress guard, as in list parsing
                        Err(DecodeError::InvalidDictionary)
                    } else {
                        spec_parse_entries(s, p3, spec_insert(acc, k, v))
                    },
                }
            },
        }
    }
}

/// A parsed byte string ends past its opening byte and inside the input,
/// and its payload length reads back as a signed 64-bit decimal.
pub proof fn lemma_parse_string_ok(s: Seq<u8>, pos: int)
    ensures
        spec_parse_string(s, pos) matches Ok((k, p)) ==> pos < p <= s.len() && k.len()
            <= i64::MAX,
{
    if 0 <= pos < s.len() {
        lemma_digits_end(s, pos + 1);
    }
}

/// A parsed integer body ends at or past its first byte and inside the
/// input.
pub proof fn lemma_parse_integer_ok(s: Seq<u8>, pos: int)
    ensures
        spec_parse_integer(s, pos) matches Ok((v, p)) ==> pos <= p <= s.len() && v is Integer
            && v.bounded(),
{
    if 0 <= pos < s.len() {
        lemma_digits_end(s, pos);
        lemma_digits_end(s, pos + 1);
    }
}

/// A successfully parsed value advances the cursor, stays inside the input,
/// and is well-formed.
pub proof fn lemma_parse_value_ok(s: Seq<u8>, pos: int)
    ensures
        spec_parse_value(s, pos) matches Ok((v, p)) ==> pos < p <= s.len() && v.wf()
            && v.bounded(),
    decreases s.len() - pos, 0int,
{
    if 0 <= pos < s.len() {
        if s[pos] == INTEGER_START {
            lemma_parse_integer_ok(s, pos + 1);
        } else if s[pos] == LIST_START {
            lemma_parse_items_ok(s, pos + 1);
        } else if s[pos] == DICTIONARY_START {
            lemma_parse_entries_ok(s, pos + 1, Seq::empty());
        } else if is_digit(s[pos]) {
            lemma_parse_string_ok(s, pos);
        }
    }
}

/// Successfully parsed list items advance the cursor and are all
/// well-formed.
pub proof fn lemma_parse_items_ok(s: Seq<u8>, pos: int)
    ensures
        spec_parse_items(s, pos) matches Ok((items, p)) ==> pos < p <= s.len() && forall|i: int|
            0 <= i < items.len() ==> (#[trigger] items[i]).wf() && items[i].bounded(),
    decreases s.len() - pos, 1int,
{
    if 0 <= pos < s.len() && s[pos] != VALUE_END {
        lemma_parse_value_ok(s, pos);
        match spec_parse_value(s, pos) {
            Ok((v, p2)) => {
                if pos < p2 <= s.len() {
                    lemma_parse_items_ok(s, p2);
                    match spec_parse_items(s, p2) {
                        Ok((items, p3)) => {
                            assert forall|i: int| 0 <= i < (seq![v] + items).len() implies (
                            #[trigger] (seq![v] + items)[i]).wf() && (seq![v]
                                + items)[i].bounded() by {
                                if i > 0 {
                                    assert((seq![v] + items)[i] == items[i - 1]);
                                }
                            }
                        },
                        _ => {},
                    }
                }
            },
            _ => {},
        }
    }
}

/// Successfully parsed dictionary entries advance the cursor, keep the keys
/// strictly sorted, and hold well-formed values.
pub proof fn lemma_parse_entries_ok(s: Seq<u8>, pos: int, acc: Seq<(Seq<u8>, TypeView)>)
    requires
        entries_sorted(acc),
        forall|i: int|
            0 <= i < acc.len() ==> (#[trigger] acc[i]).1.wf() && acc[i].1.bounded() && acc[i].0.len()
                <= i64::MAX,
    ensures
        spec_parse_entries(s, pos, acc) matches Ok((es, p)) ==> pos < p <= s.len()
            && entries_sorted(es) && forall|i: int|
            0 <= i < es.len() ==> (#[trigger] es[i]).1.wf() && es[i].1.bounded() && es[i].0.len()
                <= i64::MAX,
    decreases s.len() - pos, 1int,
{
    if 0 <= pos < s.len() && s[pos] != VALUE_END {
        match spec_parse_string(s, pos) {
            Ok((k, p2)) => {
                if pos < p2 < s.len() && s[p2] != VALUE_END {
                    lemma_parse_value_ok(s, p2);
                    match spec_parse_value(s, p2) {
                        Ok((v, p3)) => {
                            if pos < p3 <= s.len() {
                                let acc2 = spec_insert(acc, k, v);
                                lemma_insert_sorted(acc, k, v);
                                lemma_insert_entries(acc, k, v);
                                lemma_parse_string_ok(s, pos);
                                assert forall|i: int| 0 <= i < acc2.len() implies (
                                #[trigger] acc2[i]).1.wf() && acc2[i].1.bounded() && acc2[i].0.len()
                                    <= i64::MAX by {
                                    if acc2[i] != (k, v) {
                                        let m = choose|m: int|
                                            0 <= m < acc.len() && acc[m] == acc2[i];
                                        assert(acc[m].1.wf());
                                        assert(acc[m].1.bounded());
                                        assert(acc[m].0.len() <= i64::MAX);
                                    }
                                }
                                lemma_parse_entries_ok(s, p3, acc2);
                            }
                        },
                        _ => {},
                    }
                }
            },
            _ => {},
        }
    }
}

/// A decoded top-level value is well-formed: in particular every dictionary
/// in it keeps its keys in strictly ascending lexicographic order.
pub proof fn lemma_parse_wf(s: Seq<u8>)
    ensures
        spec_parse(s) matches Ok(v) ==> v.wf() && v.bounded(),
{
    if s.len() > 0 {
        lemma_parse_value_ok(s, 0);
    }
}

/// Decode exactly one value from the whole input.
pub fn decode(bytes: &Vec<u8>) -> (r: Result<Type, DecodeError>)
    ensures
        match r {
            Ok(t) => spec_parse(bytes@) == Ok::<TypeView, DecodeError>(t@) && t@.wf()
                && t@.bounded(),
            Err(e) => spec_parse(bytes@) == Err::<TypeView, DecodeError>(e),
        },
{
    if bytes.len() == 0 {
        return Err(DecodeError::Empty);
    }
    match handler(bytes, 0) {
        Err(e) => Err(e),
        Ok((t, p)) => if p == bytes.len() {
            proof {
                lemma_parse_wf(bytes@);
            }
            Ok(t)
        } else {
            Err(DecodeError::InvalidByteSequence)
        },
    }
}

/// Dispatch on the leading byte at `pos` and decode one value there.
fn handler(bytes: &Vec<u8>, pos: usize) -> (r: Result<(Type, usize), DecodeError>)
    requires
        pos < bytes@.len(),
    ensures
        match r {
            Ok((t, p)) => spec_parse_value(bytes@, pos as int) == Ok::<(TypeView, int), DecodeError>(
                (t@, p as int),
            ) && pos < p <= bytes@.len(),
            Err(e) => spec_parse_value(bytes@, pos as int) == Err::<(TypeView, int), DecodeError>(
                e,
            ),
        },
    decreases bytes@.len() - pos, 0int,
{
    let blen = bytes.len();
    let b = bytes[pos];
    if b == INTEGER_START {
        decode_integer(bytes, pos + 1)
    } else if b == LIST_START {
        decode_list(bytes, pos + 1)
    } else if b == DICTIONARY_START {
        decode_dictionary(bytes, pos + 1)
    } else if b >= crate::protocol::DIGIT_ZERO && b <= crate::protocol::DIGIT_NINE {
        match decode_binarystring(bytes, pos) {
            Ok((t, p)) => Ok((t, p)),
            Err(e) => Err(e),
        }
    } else {
        Err(DecodeError::InvalidStartByte)
    }
}

/// Decode an integer body: `pos` is the byte after `i`.
fn decode_integer(bytes: &Vec<u8>, pos: usize) -> (r: Result<(Type, usize), DecodeError>)
    requires
        pos <= bytes@.len(),
    ensures
        match r {
            Ok((t, p)) => spec_parse_integer(bytes@, pos as int) == Ok::<
                (TypeView, int),
                DecodeError,
            >((t@, p as int)) && pos <= p <= bytes@.len() && t@ is Integer,
            Err(e) => spec_parse_integer(bytes@, pos as int) == Err::<(TypeView, int), DecodeError>(
                e,
            ),
        },
{
    let blen = bytes.len();
    if pos == blen {
        return Err(DecodeError::InvalidInteger);
    }
    let first = bytes[pos];
    let neg = first == MINUS;
    if !neg && !(first >= crate::protocol::DIGIT_ZERO && first <= crate::protocol::DIGIT_NINE) {
        return Err(DecodeError::InvalidInteger);
    }
    let dstart = if neg {
        pos + 1
    } else {
        pos
    };
    let mut dend = dstart;
    while dend < blen && bytes[dend] >= crate::protocol::DIGIT_ZERO && bytes[dend]
        <= crate::protocol::DIGIT_NINE
        invariant
            dstart <= dend <= blen,
            blen == bytes@.len(),
            forall|j: int| dstart <= j < dend ==> is_digit(#[trigger] bytes@[j]),
        decreases blen - dend,
    {
        dend = dend + 1;
    }
    proof {
        lemma_digits_end_exact(bytes@, dstart as int, dend as int);
    }
    if dend < blen && bytes[dend] != VALUE_END {
        return Err(DecodeError::InvalidEndByte(EndByteContext::Integer));
    }
    let next = if dend < blen {
        dend + 1
    } else {
        dend
    };
    let ghost digits = bytes@.subrange(dstart as int, dend as int);
    if dend == dstart {
        return Err(DecodeError::InvalidInteger);
    }
    if dend - dstart > 1 && bytes[dstart] == crate::protocol::DIGIT_ZERO {
        return Err(DecodeError::IntegerWithLeadingZeros);
    }
    match digits_to_u64(bytes, dstart, dend) {
        None => Err(DecodeError::InvalidInteger),
        Some(mag) => {
            if neg {
                if mag > NEGATIVE_MAGNITUDE_LIMIT {
                    return Err(DecodeError::InvalidInteger);
                }
                if mag == 0 {
                    return Err(DecodeError::NegativeZeroInteger);
                }
                let val = if mag == NEGATIVE_MAGNITUDE_LIMIT {
                    i64::MIN
                } else {
                    -(mag as i64)
                };
                assert(val as int == -(spec_digits_val(digits) as int));
                Ok((Type::Integer(val), next))
            } else {
                if mag > i64::MAX as u64 {
                    return Err(DecodeError::InvalidInteger);
                }
                Ok((Type::Integer(mag as i64), next))
            }
        },
    }
}

/// The numeric value of the length prefix `[pos, dend)`, whose first byte
/// may be a sign; `None` when it is not a 64-bit decimal.
fn parse_len(bytes: &Vec<u8>, pos: usize, dend: usize) -> (r: Option<i64>)
    requires
        pos < bytes@.len(),
        pos + 1 <= dend <= bytes@.len(),
        forall|j: int| pos + 1 <= j < dend ==> is_digit(#[trigger] bytes@[j]),
    ensures
        ({
            let sl = spec_parse_len(
                bytes@[pos as int],
                bytes@.subrange(pos as int + 1, dend as int),
            );
            match r {
                Some(x) => sl == Some(x as int),
                None => sl is None,
            }
        }),
{
    let c0 = bytes[pos];
    let ghost digits = bytes@.subrange(pos as int + 1, dend as int);
    if c0 >= crate::protocol::DIGIT_ZERO && c0 <= crate::protocol::DIGIT_NINE {
        proof {
            assert(seq![c0] + digits =~= bytes@.subrange(pos as int, dend as int));
        }
        match digits_to_u64(bytes, pos, dend) {
            None => None,
            Some(m) => if m > i64::MAX as u64 {
                None
            } else {
                Some(m as i64)
            },
        }
    } else if c0 == MINUS {
        if pos + 1 == dend {
            return None;
        }
        match digits_to_u64(bytes, pos + 1, dend) {
            None => None,
            Some(m) => if m > NEGATIVE_MAGNITUDE_LIMIT {
                None
            } else if m == NEGATIVE_MAGNITUDE_LIMIT {
                Some(i64::MIN)
            } else {
                Some(-(m as i64))
            },
        }
    } else if c0 == PLUS {
        if pos + 1 == dend {
            return None;
        }
        match digits_to_u64(bytes, pos + 1, dend) {
            None => None,
            Some(m) => if m > i64::MAX as u64 {
                None
            } else {
                Some(m as i64)
            },
        }
    } else {
        None
    }
}

/// Decode a byte string whose length prefix starts at `pos`.
fn decode_binarystring(bytes: &Vec<u8>, pos: usize) -> (r: Result<(Type, usize), DecodeError>)
    requires
        pos < bytes@.len(),
    ensures
        match r {
            Ok((t, p)) => spec_parse_string(bytes@, pos as int) == Ok::<(Seq<u8>, int), DecodeError>(
                (t@->ByteString_0, p as int),
            ) && t@ is ByteString && pos < p <= bytes@.len(),
            Err(e) => spec_parse_string(bytes@, pos as int) == Err::<(Seq<u8>, int), DecodeError>(
                e,
            ),
        },
{
    let blen = bytes.len();
    let mut dend = pos + 1;
    while dend < blen && bytes[dend] >= crate::protocol::DIGIT_ZERO && bytes[dend]
        <= crate::protocol::DIGIT_NINE
        invariant
            pos + 1 <= dend <= blen,
            blen == bytes@.len(),
            forall|j: int| pos + 1 <= j < dend ==> is_digit(#[trigger] bytes@[j]),
        decreases blen - dend,
    {
        dend = dend + 1;
    }
    proof {
        lemma_digits_end_exact(bytes@, pos as int + 1, dend as int);
    }
    if dend < blen && bytes[dend] != LENGTH_DELIMITER {
        return Err(DecodeError::InvalidEndByte(EndByteContext::ByteString));
    }
    let cstart = if dend < blen {
        dend + 1
    } else {
        dend
    };
    match parse_len(bytes, pos, dend) {
        None => Err(DecodeError::InvalidInteger),
        Some(len) => {
            if len < 0 {
                let empty: Vec<u8> = Vec::new();
                proof {
                    assert(empty@ =~= Seq::<u8>::empty());
                }
                return Ok((Type::ByteString(empty), cstart));
            }
            if (len as u64) > (blen - cstart) as u64 {
                return Err(DecodeError::InvalidByteStringLength);
            }
            let clen = len as usize;
            let mut content: Vec<u8> = Vec::new();
            let mut j: usize = 0;
            while j < clen
                invariant
                    j <= clen,
                    cstart + clen <= blen,
                    blen == bytes@.len(),
                    content@ == bytes@.subrange(cstart as int, cstart as int + j as int),
                decreases clen - j,
            {
                content.push(bytes[cstart + j]);
                assert(content@ =~= bytes@.subrange(cstart as int, cstart as int + j as int + 1));
                j = j + 1;
            }
            Ok((Type::ByteString(content), cstart + clen))
        },
    }
}

/// Decode list items from `pos` up to and including the terminator.
fn decode_list(bytes: &Vec<u8>, pos: usize) -> (r: Result<(Type, usize), DecodeError>)
    requires
        pos <= bytes@.len(),
    ensures
        match r {
            Ok((t, p)) => spec_parse_items(bytes@, pos as int) == Ok::<
                (Seq<TypeView>, int),
                DecodeError,
            >((t@->List_0, p as int)) && t@ is List && pos < p <= bytes@.len(),
            Err(e) => spec_parse_items(bytes@, pos as int) == Err::<(Seq<TypeView>, int),
                DecodeError,
            >(e),
        },
    decreases bytes@.len() - pos, 1int,
{
    let blen = bytes.len();
    let mut items: Vec<Type> = Vec::new();
    let mut cur = pos;
    loop
        invariant
            pos <= cur <= blen,
            blen == bytes@.len(),
            (match spec_parse_items(bytes@, cur as int) {
                Ok((rest, p)) => spec_parse_items(bytes@, pos as int) == Ok::<
                    (Seq<TypeView>, int),
                    DecodeError,
                >((seq_view(items@) + rest, p)),
                Err(e) => spec_parse_items(bytes@, pos as int) == Err::<(Seq<TypeView>, int),
                    DecodeError,
                >(e),
            }),
        decreases blen - cur, 0int,
    {
        if cur == blen {
            return Err(DecodeError::InvalidList);
        }
        let b = bytes[cur];
        if b == VALUE_END {
            proof {
                assert(seq_view(items@) + Seq::<TypeView>::empty() =~= seq_view(items@));
            }
            return Ok((Type::List(items), cur + 1));
        }
        match handler(bytes, cur) {
            Err(e) => {
                return Err(e);
            },
            Ok((t, p2)) => {
                let ghost prev = items@;
                items.push(t);
                proof {
                    lemma_seq_view_push(prev, t);
                    match spec_parse_items(bytes@, p2 as int) {
                        Ok((rest2, p3)) => {
                            assert(seq_view(prev) + (seq![t@] + rest2) =~= seq_view(items@)
                                + rest2);
                        },
                        Err(e) => {},
                    }
                }
                cur = p2;
            },
        }
    }
}

/// Decode dictionary entries from `pos` up to and including the terminator,
/// inserting each pair in key order; a repeated key keeps the later value.
fn decode_dictionary(bytes: &Vec<u8>, pos: usize) -> (r: Result<(Type, usize), DecodeError>)
    requires
        pos <= bytes@.len(),
    ensures
        match r {
            Ok((t, p)) => spec_parse_entries(bytes@, pos as int, Seq::empty()) == Ok::<
                (Seq<(Seq<u8>, TypeView)>, int),
                DecodeError,
            >((t@->Dictionary_0, p as int)) && t@ is Dictionary && pos < p <= bytes@.len(),
            Err(e) => spec_parse_entries(bytes@, pos as int, Seq::empty()) == Err::<
                (Seq<(Seq<u8>, TypeView)>, int),
                DecodeError,
            >(e),
        },
    decreases bytes@.len() - pos, 1int,
{
    let blen = bytes.len();
    let mut dict = Type::Dictionary(Vec::new());
    proof {
        assert(dict@->Dictionary_0 =~= Seq::<(Seq<u8>, TypeView)>::empty());
    }
    let mut cur = pos;
    loop
        invariant
            pos <= cur <= blen,
            blen == bytes@.len(),
            dict@ is Dictionary,
            (match spec_parse_entries(bytes@, cur as int, dict@->Dictionary_0) {
                Ok((es, p)) => spec_parse_entries(bytes@, pos as int, Seq::empty()) == Ok::<
                    (Seq<(Seq<u8>, TypeView)>, int),
                    DecodeError,
                >((es, p)),
                Err(e) => spec_parse_entries(bytes@, pos as int, Seq::empty()) == Err::<
                    (Seq<(Seq<u8>, TypeView)>, int),
                    DecodeError,
                >(e),
            }),
        decreases blen - cur, 0int,
    {
        if cur == blen {
            return Err(DecodeError::InvalidDictionary);
        }
        let b = bytes[cur];
        if b == VALUE_END {
            return Ok((dict, cur + 1));
        }
        let key = match decode_binarystring(bytes, cur) {
            Err(e) => {
                return Err(e);
            },
            Ok((kt, p2)) => {
                match kt {
                    Type::ByteString(kv) => (kv, p2),
                    _ => {
                        // the byte-string decoder yields byte strings only;
                        // kept as the defensive check the taxonomy names
                        return Err(DecodeError::InvalidDictionaryKey);
                    },
                }
            },
        };
        let (kv, p2) = key;
        if p2 == blen {
            return Err(DecodeError::InvalidDictionary);
        }
        if bytes[p2] == VALUE_END {
            return Ok((dict, p2 + 1));
        }
        match handler(bytes, p2) {
            Err(e) => {
                return Err(e);
            },
            Ok((v, p3)) => {
                let ghost acc = dict@->Dictionary_0;
                let ghost kview = kv@;
                dict.insert(kv, v);
                proof {
                    assert(dict@->Dictionary_0 == spec_insert(acc, kview, v@));
                }
                cur = p3;
            },
        }
    }
}

} // verus!
