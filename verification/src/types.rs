//! The Bencode value model: a tagged tree of integers, byte strings, lists
//! and dictionaries, together with its mathematical view.
//!
//! A dictionary is stored as a vector of key/value entries whose keys are
//! kept in strictly ascending lexicographic byte order; that representation
//! makes the canonical-ordering invariant a plain property of the data.

use vstd::prelude::*;

use crate::errors::ConverterError;

verus! {

/// Mathematical view of a [`Type`] tree: integers become `int`, byte strings
/// become `Seq<u8>`, and the two containers become sequences.
#[verifier::ext_equal]
pub enum TypeView {
    Integer(int),
    ByteString(Seq<u8>),
    List(Seq<TypeView>),
    Dictionary(Seq<(Seq<u8>, TypeView)>),
}

/// Strict lexicographic order on byte sequences: `a` comes before `b` when
/// `a` is a proper prefix of `b`, or the first differing byte of `a` is
/// smaller.
pub open spec fn lex_lt(a: Seq<u8>, b: Seq<u8>) -> bool
    decreases a.len(),
{
    if b.len() == 0 {
        false
    } else if a.len() == 0 {
        true
    } else if a[0] < b[0] {
        true
    } else if a[0] > b[0] {
        false
    } else {
        lex_lt(a.drop_first(), b.drop_first())
    }
}

/// The keys of a dictionary's entries are strictly increasing, hence unique.
pub open spec fn entries_sorted(es: Seq<(Seq<u8>, TypeView)>) -> bool {
    forall|i: int, j: int| 0 <= i < j < es.len() ==> lex_lt(#[trigger] es[i].0, #[trigger] es[j].0)
}

impl TypeView {
    /// Well-formedness: every dictionary in the tree keeps its keys in
    /// strictly ascending lexicographic order.
    pub open spec fn wf(self) -> bool
        decreases self,
    {
        match self {
            TypeView::Integer(_) => true,
            TypeView::ByteString(_) => true,
            TypeView::List(l) => forall|i: int| 0 <= i < l.len() ==> (#[trigger] l[i]).wf(),
            TypeView::Dictionary(es) => entries_sorted(es) && forall|i: int|
                0 <= i < es.len() ==> (#[trigger] es[i].1).wf(),
        }
    }

    /// Every integer payload lies in the signed 64-bit range, and every byte
    /// string and dictionary key is short enough for its decimal length
    /// prefix to read back as a signed 64-bit decimal. Any tree that fits in
    /// memory satisfies this; it is a genuine restriction only on the
    /// unbounded mathematical views.
    pub open spec fn bounded(self) -> bool
        decreases self,
    {
        match self {
            TypeView::Integer(i) => i64::MIN <= i <= i64::MAX,
            TypeView::ByteString(s) => s.len() <= i64::MAX,
            TypeView::List(l) => forall|i: int| 0 <= i < l.len() ==> (#[trigger] l[i]).bounded(),
            TypeView::Dictionary(es) => forall|i: int|
                0 <= i < es.len() ==> (#[trigger] es[i]).0.len() <= i64::MAX
                    && es[i].1.bounded(),
        }
    }
}

/// Two nonempty byte sequences with equal heads and equal tails are equal.
pub proof fn lemma_cons_eq(a: Seq<u8>, b: Seq<u8>)
    requires
        a.len() > 0,
        b.len() > 0,
        a[0] == b[0],
        a.drop_first() == b.drop_first(),
    ensures
        a == b,
{
    assert(a.len() == 1 + a.drop_first().len());
    assert(b.len() == 1 + b.drop_first().len());
    assert forall|i: int| 0 <= i < a.len() implies a[i] == b[i] by {
        if i > 0 {
            assert(a[i] == a.drop_first()[i - 1]);
            assert(b[i] == b.drop_first()[i - 1]);
        }
    }
    assert(a =~= b);
}

pub proof fn lemma_lex_irrefl(a: Seq<u8>)
    ensures
        !lex_lt(a, a),
    decreases a.len(),
{
    if a.len() > 0 {
        lemma_lex_irrefl(a.drop_first());
    }
}

pub proof fn lemma_lex_asym(a: Seq<u8>, b: Seq<u8>)
    ensures
        !(lex_lt(a, b) && lex_lt(b, a)),
    decreases a.len(),
{
    if a.len() > 0 && b.len() > 0 && a[0] == b[0] {
        lemma_lex_asym(a.drop_first(), b.drop_first());
    }
}

pub proof fn lemma_lex_total(a: Seq<u8>, b: Seq<u8>)
    ensures
        lex_lt(a, b) || lex_lt(b, a) || a == b,
    decreases a.len(),
{
    if a.len() == 0 && b.len() == 0 {
        assert(a =~= b);
    } else if a.len() > 0 && b.len() > 0 && a[0] == b[0] {
        lemma_lex_total(a.drop_first(), b.drop_first());
        if a.drop_first() == b.drop_first() {
            lemma_cons_eq(a, b);
        }
    }
}

pub proof fn lemma_lex_trans(a: Seq<u8>, b: Seq<u8>, c: Seq<u8>)
    requires
        lex_lt(a, b),
        lex_lt(b, c),
    ensures
        lex_lt(a, c),
    decreases a.len(),
{
    if a.len() > 0 && b.len() > 0 && c.len() > 0 {
        if a[0] == b[0] && b[0] == c[0] {
            lemma_lex_trans(a.drop_first(), b.drop_first(), c.drop_first());
        }
    }
}

/// Restricting both sequences to their suffixes past a common prefix changes
/// neither their order nor their equality.
pub proof fn lemma_lex_skip(a: Seq<u8>, b: Seq<u8>, i: int)
    requires
        0 <= i <= a.len(),
        i <= b.len(),
        forall|j: int| 0 <= j < i ==> a[j] == b[j],
    ensures
        lex_lt(a, b) == lex_lt(a.skip(i), b.skip(i)),
        (a =~= b) == (a.skip(i) =~= b.skip(i)),
    decreases i,
{
    if i == 0 {
        assert(a.skip(0) =~= a);
        assert(b.skip(0) =~= b);
    } else {
        lemma_lex_skip(a, b, i - 1);
        let sa = a.skip(i - 1);
        let sb = b.skip(i - 1);
        assert(sa[0] == sb[0]);
        assert(sa.drop_first() =~= a.skip(i));
        assert(sb.drop_first() =~= b.skip(i));
        if a.skip(i) =~= b.skip(i) {
            lemma_cons_eq(sa, sb);
        }
        if sa =~= sb {
            assert(a.skip(i) =~= b.skip(i));
        }
    }
}

/// Association lookup: the value mapped to `k`, if `k` occurs among the keys.
pub open spec fn spec_lookup(es: Seq<(Seq<u8>, TypeView)>, k: Seq<u8>) -> Option<TypeView>
    decreases es.len(),
{
    if es.len() == 0 {
        None
    } else if es[0].0 == k {
        Some(es[0].1)
    } else {
        spec_lookup(es.drop_first(), k)
    }
}

/// Association insert: place `(k, v)` at its ordered position, replacing the
/// entry already keyed `k` if there is one.
pub open spec fn spec_insert(
    es: Seq<(Seq<u8>, TypeView)>,
    k: Seq<u8>,
    v: TypeView,
) -> Seq<(Seq<u8>, TypeView)>
    decreases es.len(),
{
    if es.len() == 0 {
        seq![(k, v)]
    } else if lex_lt(k, es[0].0) {
        seq![(k, v)] + es
    } else if k == es[0].0 {
        seq![(k, v)] + es.drop_first()
    } else {
        seq![es[0]] + spec_insert(es.drop_first(), k, v)
    }
}

/// Every entry of an insert's result is either the new pair or a pair that
/// was already present.
pub proof fn lemma_insert_entries(es: Seq<(Seq<u8>, TypeView)>, k: Seq<u8>, v: TypeView)
    ensures
        spec_insert(es, k, v).len() <= es.len() + 1,
        forall|i: int| 0 <= i < spec_insert(es, k, v).len() ==> (#[trigger] spec_insert(
            es,
            k,
            v,
        )[i] == (k, v) || es.contains(spec_insert(es, k, v)[i])),
    decreases es.len(),
{
    let r = spec_insert(es, k, v);
    if es.len() == 0 {
    } else if lex_lt(k, es[0].0) {
        assert forall|i: int| 0 <= i < r.len() implies (r[i] == (k, v) || es.contains(r[i])) by {
            if i > 0 {
                assert(r[i] == es[i - 1]);
            }
        }
    } else if k == es[0].0 {
        assert forall|i: int| 0 <= i < r.len() implies (r[i] == (k, v) || es.contains(r[i])) by {
            if i > 0 {
                assert(r[i] == es[i]);
            }
        }
    } else {
        lemma_insert_entries(es.drop_first(), k, v);
        let rr = spec_insert(es.drop_first(), k, v);
        assert forall|i: int| 0 <= i < r.len() implies (r[i] == (k, v) || es.contains(r[i])) by {
            if i == 0 {
                assert(r[0] == es[0]);
                assert(es.contains(es[0]));
            } else {
                assert(r[i] == rr[i - 1]);
                if rr[i - 1] != (k, v) {
                    let j = choose|j: int|
                        0 <= j < es.drop_first().len() && es.drop_first()[j] == rr[i - 1];
                    assert(es[j + 1] == rr[i - 1]);
                }
            }
        }
    }
}

/// Inserting keeps the keys strictly sorted.
pub proof fn lemma_insert_sorted(es: Seq<(Seq<u8>, TypeView)>, k: Seq<u8>, v: TypeView)
    requires
        entries_sorted(es),
    ensures
        entries_sorted(spec_insert(es, k, v)),
    decreases es.len(),
{
    let r = spec_insert(es, k, v);
    if es.len() == 0 {
    } else if lex_lt(k, es[0].0) {
        assert forall|i: int, j: int| 0 <= i < j < r.len() implies lex_lt(r[i].0, r[j].0) by {
            if i == 0 {
                if j > 1 {
                    lemma_lex_trans(k, es[0].0, es[j - 1].0);
                }
            }
        }
    } else if k == es[0].0 {
        assert forall|i: int, j: int| 0 <= i < j < r.len() implies lex_lt(r[i].0, r[j].0) by {
            if i == 0 {
                assert(r[j].0 == es[j].0);
            }
        }
    } else {
        lemma_lex_total(k, es[0].0);
        lemma_insert_sorted(es.drop_first(), k, v);
        lemma_insert_entries(es.drop_first(), k, v);
        let rr = spec_insert(es.drop_first(), k, v);
        assert forall|i: int, j: int| 0 <= i < j < r.len() implies lex_lt(r[i].0, r[j].0) by {
            if i == 0 {
                assert(r[j] == rr[j - 1]);
                if rr[j - 1] == (k, v) {
                    assert(lex_lt(es[0].0, k));
                } else {
                    let m = choose|m: int|
                        0 <= m < es.drop_first().len() && es.drop_first()[m] == rr[j - 1];
                    assert(es[m + 1] == rr[j - 1]);
                    assert(lex_lt(es[0].0, es[m + 1].0));
                }
            } else {
                assert(r[i] == rr[i - 1]);
                assert(r[j] == rr[j - 1]);
            }
        }
    }
}

/// The entries past the first keep strictly sorted keys.
pub proof fn lemma_sorted_drop_first(es: Seq<(Seq<u8>, TypeView)>)
    requires
        entries_sorted(es),
        es.len() > 0,
    ensures
        entries_sorted(es.drop_first()),
{
    let d = es.drop_first();
    assert forall|i: int, j: int| 0 <= i < j < d.len() implies lex_lt(d[i].0, d[j].0) by {
        assert(d[i] == es[i + 1]);
        assert(d[j] == es[j + 1]);
    }
}

/// Last write wins: after inserting `(k, v)`, looking up `k` yields `v`,
/// every other key is bound as before, and the map grows only when `k` was
/// absent.
pub proof fn lemma_insert_last_write_wins(
    es: Seq<(Seq<u8>, TypeView)>,
    k: Seq<u8>,
    v: TypeView,
    k2: Seq<u8>,
)
    requires
        entries_sorted(es),
    ensures
        spec_lookup(spec_insert(es, k, v), k) == Some(v),
        k2 != k ==> spec_lookup(spec_insert(es, k, v), k2) == spec_lookup(es, k2),
        spec_lookup(es, k) is Some ==> spec_insert(es, k, v).len() == es.len(),
        spec_lookup(es, k) is None ==> spec_insert(es, k, v).len() == es.len() + 1,
    decreases es.len(),
{
    let r = spec_insert(es, k, v);
    if es.len() == 0 {
        assert(r.drop_first() =~= Seq::<(Seq<u8>, TypeView)>::empty());
    } else if lex_lt(k, es[0].0) {
        lemma_lex_irrefl(k);
        assert(r.drop_first() =~= es);
        // `k` sits strictly below every key of `es`, so it is bound nowhere
        if spec_lookup(es, k) is Some {
            lemma_lookup_found(es, k);
            let j = choose|j: int| 0 <= j < es.len() && (#[trigger] es[j]).0 == k;
            if j > 0 {
                lemma_lex_asym(k, es[0].0);
            }
        }
    } else if k == es[0].0 {
        assert(r.drop_first() =~= es.drop_first());
        assert(r[0] == (k, v));
        if k2 != k {
            assert(spec_lookup(r, k2) == spec_lookup(r.drop_first(), k2));
            assert(spec_lookup(es, k2) == spec_lookup(es.drop_first(), k2));
        }
    } else {
        lemma_sorted_drop_first(es);
        lemma_insert_last_write_wins(es.drop_first(), k, v, k2);
        assert(r.drop_first() =~= spec_insert(es.drop_first(), k, v));
        assert(r[0] == es[0]);
        if k2 != k {
            if es[0].0 == k2 {
                assert(spec_lookup(r, k2) == Some(es[0].1));
                assert(spec_lookup(es, k2) == Some(es[0].1));
            } else {
                assert(spec_lookup(r, k2) == spec_lookup(r.drop_first(), k2));
                assert(spec_lookup(es, k2) == spec_lookup(es.drop_first(), k2));
            }
        }
    }
}

/// A successful lookup names one of the keys.
pub proof fn lemma_lookup_found(es: Seq<(Seq<u8>, TypeView)>, k: Seq<u8>)
    requires
        spec_lookup(es, k) is Some,
    ensures
        exists|j: int| 0 <= j < es.len() && (#[trigger] es[j]).0 == k,
    decreases es.len(),
{
    if es.len() > 0 && es[0].0 != k {
        lemma_lookup_found(es.drop_first(), k);
        let j = choose|j: int|
            0 <= j < es.drop_first().len() && (#[trigger] es.drop_first()[j]).0 == k;
        assert(es[j + 1].0 == k);
    }
}

/// Skipping entries whose keys all differ from `k` leaves a lookup of `k`
/// unchanged.
pub proof fn lemma_lookup_skip(es: Seq<(Seq<u8>, TypeView)>, k: Seq<u8>, i: int)
    requires
        0 <= i <= es.len(),
        forall|j: int| 0 <= j < i ==> (#[trigger] es[j]).0 != k,
    ensures
        spec_lookup(es, k) == spec_lookup(es.skip(i), k),
    decreases i,
{
    if i > 0 {
        lemma_lookup_skip(es, k, i - 1);
        let s = es.skip(i - 1);
        assert(s[0] == es[i - 1]);
        assert(s.drop_first() =~= es.skip(i));
    } else {
        assert(es.skip(0) =~= es);
    }
}

/// Scanning to the ordered position makes the recursive insert an update of
/// the entry in place (key already present) or a point insertion.
pub proof fn lemma_insert_at(es: Seq<(Seq<u8>, TypeView)>, k: Seq<u8>, v: TypeView, i: int)
    requires
        0 <= i <= es.len(),
        forall|j: int| 0 <= j < i ==> lex_lt((#[trigger] es[j]).0, k),
        i < es.len() ==> !lex_lt(es[i].0, k),
    ensures
        i < es.len() && es[i].0 == k ==> spec_insert(es, k, v) =~= es.update(i, (k, v)),
        (i == es.len() || es[i].0 != k) ==> spec_insert(es, k, v) =~= es.insert(i, (k, v)),
    decreases i,
{
    let r = spec_insert(es, k, v);
    if i == 0 {
        if es.len() == 0 {
            assert(r =~= es.insert(0, (k, v)));
        } else if es[0].0 == k {
            lemma_lex_irrefl(k);
            assert(r =~= es.update(0, (k, v)));
        } else {
            lemma_lex_total(k, es[0].0);
            assert(lex_lt(k, es[0].0));
            assert(r =~= es.insert(0, (k, v)));
        }
    } else {
        lemma_lex_irrefl(es[0].0);
        lemma_lex_asym(es[0].0, k);
        assert(!lex_lt(k, es[0].0) && k != es[0].0);
        let d = es.drop_first();
        assert(forall|j: int| 0 <= j < i - 1 ==> lex_lt((#[trigger] d[j]).0, k));
        assert(i - 1 < d.len() ==> !lex_lt(d[i - 1].0, k));
        lemma_insert_at(d, k, v, i - 1);
        if i < es.len() && es[i].0 == k {
            assert(d[i - 1].0 == k);
            assert(r =~= seq![es[0]] + d.update(i - 1, (k, v)));
            assert(r =~= es.update(i, (k, v)));
        } else {
            assert(r =~= seq![es[0]] + d.insert(i - 1, (k, v)));
            assert(r =~= es.insert(i, (k, v)));
        }
    }
}

/// Inserting a key above every present key appends the new entry.
pub proof fn lemma_insert_append(es: Seq<(Seq<u8>, TypeView)>, k: Seq<u8>, v: TypeView)
    requires
        forall|j: int| 0 <= j < es.len() ==> lex_lt((#[trigger] es[j]).0, k),
    ensures
        spec_insert(es, k, v) =~= es.push((k, v)),
{
    lemma_insert_at(es, k, v, es.len() as int);
    assert(es.insert(es.len() as int, (k, v)) =~= es.push((k, v)));
}

/// A decoded or to-be-encoded Bencode entity.
pub enum Type {
    Integer(i64),
    ByteString(Vec<u8>),
    List(Vec<Type>),
    Dictionary(Vec<(Vec<u8>, Type)>),
}

/// The view of a sequence of child nodes, element by element.
pub open spec fn seq_view(l: Seq<Type>) -> Seq<TypeView>
    decreases l,
{
    if l.len() == 0 {
        Seq::empty()
    } else {
        seq![l[0]@] + seq_view(l.drop_first())
    }
}

/// The view of a sequence of dictionary entries, entry by entry.
pub open spec fn entries_view(es: Seq<(Vec<u8>, Type)>) -> Seq<(Seq<u8>, TypeView)>
    decreases es,
{
    if es.len() == 0 {
        Seq::empty()
    } else {
        seq![(es[0].0@, es[0].1@)] + entries_view(es.drop_first())
    }
}

impl View for Type {
    type V = TypeView;

    open spec fn view(&self) -> TypeView
        decreases self,
    {
        match self {
            Type::Integer(i) => TypeView::Integer(*i as int),
            Type::ByteString(s) => TypeView::ByteString(s@),
            Type::List(l) => TypeView::List(seq_view(l@)),
            Type::Dictionary(d) => TypeView::Dictionary(entries_view(d@)),
        }
    }
}

pub proof fn lemma_seq_view_len(l: Seq<Type>)
    ensures
        seq_view(l).len() == l.len(),
    decreases l,
{
    if l.len() > 0 {
        lemma_seq_view_len(l.drop_first());
        assert(seq_view(l) == seq![l[0]@] + seq_view(l.drop_first()));
        assert(seq_view(l).len() == 1 + seq_view(l.drop_first()).len());
    } else {
        assert(seq_view(l) == Seq::<TypeView>::empty());
    }
}

pub proof fn lemma_seq_view_index(l: Seq<Type>, i: int)
    requires
        0 <= i < l.len(),
    ensures
        seq_view(l).len() == l.len(),
        seq_view(l)[i] == l[i]@,
    decreases l,
{
    lemma_seq_view_len(l);
    assert(seq_view(l) == seq![l[0]@] + seq_view(l.drop_first()));
    if i > 0 {
        lemma_seq_view_index(l.drop_first(), i - 1);
        assert(seq_view(l)[i] == seq_view(l.drop_first())[i - 1]);
        assert(l.drop_first()[i - 1] == l[i]);
    }
}

/// Three-way lexicographic comparison of two byte keys: `-1` for below,
/// `0` for equal, `1` for above.
pub fn key_cmp(a: &Vec<u8>, b: &Vec<u8>) -> (r: i8)
    ensures
        r == -1i8 || r == 0i8 || r == 1i8,
        r == -1i8 <==> lex_lt(a@, b@),
        r == 0i8 <==> a@ == b@,
        r == 1i8 <==> lex_lt(b@, a@),
{
    proof {
        lemma_lex_total(a@, b@);
        lemma_lex_asym(a@, b@);
        lemma_lex_irrefl(a@);
    }
    let mut i: usize = 0;
    while i < a.len() && i < b.len() && a[i] == b[i]
        invariant
            i <= a.len(),
            i <= b.len(),
            forall|j: int| 0 <= j < i ==> a@[j] == b@[j],
        decreases a.len() - i,
    {
        i = i + 1;
    }
    proof {
        lemma_lex_skip(a@, b@, i as int);
        assert forall|j: int| 0 <= j < i implies b@[j] == a@[j] by {}
        lemma_lex_skip(b@, a@, i as int);
    }
    if i < a.len() && i < b.len() {
        if a[i] < b[i] {
            proof {
                assert(a@.skip(i as int)[0] == a@[i as int]);
                assert(b@.skip(i as int)[0] == b@[i as int]);
            }
            -1
        } else {
            proof {
                assert(a@.skip(i as int)[0] == a@[i as int]);
                assert(b@.skip(i as int)[0] == b@[i as int]);
            }
            1
        }
    } else if a.len() == b.len() {
        proof {
            assert(a@.skip(i as int) =~= b@.skip(i as int));
        }
        0
    } else if a.len() < b.len() {
        proof {
            assert(a@.skip(i as int).len() == 0);
            assert(b@.skip(i as int).len() > 0);
        }
        -1
    } else {
        proof {
            assert(b@.skip(i as int).len() == 0);
            assert(a@.skip(i as int).len() > 0);
        }
        1
    }
}

impl Type {
    /// Insert `(key, value)` into a dictionary, keeping its keys sorted and
    /// replacing the entry already keyed `key` if there is one.
    pub fn insert(&mut self, key: Vec<u8>, value: Type)
        requires
            old(self)@ is Dictionary,
        ensures
            final(self)@ == TypeView::Dictionary(
                spec_insert(old(self)@->Dictionary_0, key@, value@),
            ),
            old(self)@.wf() && value@.wf() ==> final(self)@.wf(),
    {
        let ghost es0 = self@->Dictionary_0;
        match self {
            Type::Dictionary(d) => {
                proof {
                    lemma_entries_view_len(d@);
                }
                let mut i: usize = 0;
                let mut present = false;
                loop
                    invariant
                        entries_view(d@) == es0,
                        0 <= i <= d@.len(),
                        forall|j: int| 0 <= j < i ==> lex_lt((#[trigger] es0[j]).0, key@),
                        es0.len() == d@.len(),
                        present ==> i < d@.len() && es0[i as int].0 == key@,
                    ensures
                        entries_view(d@) == es0,
                        es0.len() == d@.len(),
                        0 <= i <= d@.len(),
                        forall|j: int| 0 <= j < i ==> lex_lt((#[trigger] es0[j]).0, key@),
                        present <==> i < d@.len() && es0[i as int].0 == key@,
                        i < d@.len() ==> !lex_lt(es0[i as int].0, key@),
                    decreases d@.len() - i,
                {
                    if i == d.len() {
                        break ;
                    }
                    let c = key_cmp(&d[i].0, &key);
                    proof {
                        lemma_entries_view_index(d@, i as int);
                        if c == 0i8 {
                            lemma_lex_irrefl(key@);
                        }
                        if c == 1i8 {
                            lemma_lex_asym(es0[i as int].0, key@);
                            lemma_lex_irrefl(key@);
                        }
                    }
                    if c == 0 {
                        present = true;
                        break ;
                    }
                    if c == 1 {
                        break ;
                    }
                    i = i + 1;
                }
                let ghost dpre = d@;
                if present {
                    d[i] = (key, value);
                } else {
                    d.insert(i, (key, value));
                }
                proof {
                    lemma_insert_at(es0, key@, value@, i as int);
                    lemma_entries_view_len(d@);
                    let r = spec_insert(es0, key@, value@);
                    if present {
                        assert(r =~= es0.update(i as int, (key@, value@)));
                    } else {
                        assert(r =~= es0.insert(i as int, (key@, value@)));
                    }
                    assert forall|j: int| 0 <= j < d@.len() implies #[trigger] entries_view(
                        d@,
                    )[j] == r[j] by {
                        lemma_entries_view_index(d@, j);
                        if present {
                            if j != i {
                                lemma_entries_view_index(dpre, j);
                            }
                        } else {
                            if j < i {
                                lemma_entries_view_index(dpre, j);
                                assert(d@[j] == dpre[j]);
                                assert(r[j] == es0[j]);
                            } else if j == i {
                                assert(d@[j] == (key, value));
                                assert(r[j] == (key@, value@));
                            } else {
                                lemma_entries_view_index(dpre, j - 1);
                                assert(d@[j] == dpre[j - 1]);
                                assert(r[j] == es0[j - 1]);
                            }
                        }
                    }
                    assert(entries_view(d@) =~= spec_insert(es0, key@, value@));
                    if old(self)@.wf() && value@.wf() {
                        lemma_insert_sorted(es0, key@, value@);
                        lemma_insert_entries(es0, key@, value@);
                        assert forall|j: int|
                            0 <= j < spec_insert(es0, key@, value@).len() implies (
                        #[trigger] spec_insert(es0, key@, value@)[j]).1.wf() by {
                            if spec_insert(es0, key@, value@)[j] != (key@, value@) {
                                let m = choose|m: int|
                                    0 <= m < es0.len() && es0[m] == spec_insert(
                                        es0,
                                        key@,
                                        value@,
                                    )[j];
                                assert(es0[m].1.wf());
                            }
                        }
                    }
                }
            },
            _ => {
                proof {
                    assert(false);
                }
            },
        }
    }

    /// Look up `key` in a dictionary; any other variant, and a dictionary
    /// without the key, report `InvalidDictionary`.
    pub fn get(&self, key: &Vec<u8>) -> (r: Result<&Type, ConverterError>)
        ensures
            match r {
                Ok(t) => self@ matches TypeView::Dictionary(es) && spec_lookup(es, key@)
                    == Some(t@),
                Err(e) => {
                    &&& e == ConverterError::InvalidDictionary
                    &&& (self@ matches TypeView::Dictionary(es) ==> spec_lookup(es, key@)
                        is None)
                },
            },
    {
        match self {
            Type::Dictionary(d) => {
                let ghost es = entries_view(d@);
                proof {
                    lemma_entries_view_len(d@);
                }
                let mut i: usize = 0;
                while i < d.len()
                    invariant
                        0 <= i <= d@.len(),
                        self@ == TypeView::Dictionary(es),
                        es == entries_view(d@),
                        es.len() == d@.len(),
                        forall|j: int| 0 <= j < i ==> (#[trigger] es[j]).0 != key@,
                    decreases d@.len() - i,
                {
                    let c = key_cmp(&d[i].0, key);
                    proof {
                        lemma_entries_view_index(d@, i as int);
                        if c != 0i8 {
                            lemma_lex_irrefl(es[i as int].0);
                        }
                    }
                    if c == 0 {
                        let t = &d[i].1;
                        proof {
                            lemma_lookup_skip(es, key@, i as int);
                            assert(es.skip(i as int)[0] == es[i as int]);
                            assert(t@ == d@[i as int].1@);
                            assert(es[i as int].1 == d@[i as int].1@);
                            assert(spec_lookup(es, key@) == Some(es[i as int].1));
                        }
                        return Ok(t);
                    }
                    i = i + 1;
                }
                proof {
                    lemma_lookup_skip(es, key@, i as int);
                    assert(es.skip(i as int).len() == 0);
                }
                Err(ConverterError::InvalidDictionary)
            },
            _ => Err(ConverterError::InvalidDictionary),
        }
    }

    /// The integer payload, if this value is an integer.
    pub fn as_integer(&self) -> (r: Result<i64, ConverterError>)
        ensures
            match r {
                Ok(i) => self@ == TypeView::Integer(i as int),
                Err(e) => e == ConverterError::InvalidInteger && !(self@ is Integer),
            },
    {
        match self {
            Type::Integer(i) => Ok(*i),
            _ => Err(ConverterError::InvalidInteger),
        }
    }

    /// The raw bytes, if this value is a byte string.
    pub fn as_bytestring(&self) -> (r: Result<&Vec<u8>, ConverterError>)
        ensures
            match r {
                Ok(s) => self@ == TypeView::ByteString(s@),
                Err(e) => e == ConverterError::InvalidString && !(self@ is ByteString),
            },
    {
        match self {
            Type::ByteString(s) => Ok(s),
            _ => Err(ConverterError::InvalidString),
        }
    }
}

pub proof fn lemma_seq_view_push(l: Seq<Type>, t: Type)
    ensures
        seq_view(l.push(t)) =~= seq_view(l).push(t@),
{
    lemma_seq_view_len(l.push(t));
    lemma_seq_view_len(l);
    assert forall|i: int| 0 <= i < l.len() + 1 implies seq_view(l.push(t))[i] == seq_view(l).push(
        t@,
    )[i] by {
        lemma_seq_view_index(l.push(t), i);
        if i < l.len() {
            lemma_seq_view_index(l, i);
            assert(l.push(t)[i] == l[i]);
        } else {
            assert(l.push(t)[i] == t);
        }
    }
}

pub proof fn lemma_entries_view_len(es: Seq<(Vec<u8>, Type)>)
    ensures
        entries_view(es).len() == es.len(),
    decreases es,
{
    if es.len() > 0 {
        lemma_entries_view_len(es.drop_first());
        assert(entries_view(es) == seq![(es[0].0@, es[0].1@)] + entries_view(es.drop_first()));
    }
}

pub proof fn lemma_entries_view_index(es: Seq<(Vec<u8>, Type)>, i: int)
    requires
        0 <= i < es.len(),
    ensures
        entries_view(es).len() == es.len(),
        entries_view(es)[i] == (es[i].0@, es[i].1@),
    decreases es,
{
    lemma_entries_view_len(es);
    assert(entries_view(es) == seq![(es[0].0@, es[0].1@)] + entries_view(es.drop_first()));
    if i > 0 {
        lemma_entries_view_index(es.drop_first(), i - 1);
        assert(entries_view(es)[i] == entries_view(es.drop_first())[i - 1]);
        assert(es.drop_first()[i - 1] == es[i]);
    }
}

} // verus!
