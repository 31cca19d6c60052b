//! Lexicographic ordering of field names and the canonicalizing, stable
//! insertion sort that puts record fields into field-name order.

use vstd::prelude::*;

use crate::sig::SpecTypeSig;
use crate::sig::TypeSignature;
use crate::sig::fields_view;
use crate::sig::lemma_fields_view;

verus! {

/// Lexicographic order on field names, comparing character code points.
pub open spec fn spec_le_name(a: Seq<char>, b: Seq<char>) -> bool
    decreases a.len(),
{
    if a.len() == 0 {
        true
    } else if b.len() == 0 {
        false
    } else if a[0] != b[0] {
        (a[0] as u32) < (b[0] as u32)
    } else {
        spec_le_name(a.drop_first(), b.drop_first())
    }
}

/// Lexicographic comparison of two field names.
#[verifier::loop_isolation(false)]
pub fn name_le(a: &String, b: &String) -> (r: bool)
    ensures
        r == spec_le_name(a@, b@),
{
    let alen = a.as_str().unicode_len();
    let blen = b.as_str().unicode_len();
    let mut i: usize = 0;
    proof {
        assert(a@.skip(0) =~= a@);
        assert(b@.skip(0) =~= b@);
    }
    loop
        invariant
            i <= alen,
            i <= blen,
            alen == a@.len(),
            blen == b@.len(),
            spec_le_name(a@, b@) == spec_le_name(a@.skip(i as int), b@.skip(i as int)),
        decreases alen - i,
    {
        if i == alen {
            return true;
        }
        if i == blen {
            return false;
        }
        let ca = a.as_str().get_char(i);
        let cb = b.as_str().get_char(i);
        proof {
            assert(a@.skip(i as int)[0] == a@[i as int]);
            assert(b@.skip(i as int)[0] == b@[i as int]);
        }
        if ca != cb {
            return (ca as u32) < (cb as u32);
        }
        proof {
            assert(a@.skip(i as int).drop_first() =~= a@.skip(i as int + 1));
            assert(b@.skip(i as int).drop_first() =~= b@.skip(i as int + 1));
        }
        i += 1;
    }
}

/// Inserts a field at the end of the run of names that precede or equal its
/// own, so that equal names keep their arrival order (stability).
pub open spec fn spec_insert_field(
    sorted: Seq<(Seq<char>, SpecTypeSig)>,
    f: (Seq<char>, SpecTypeSig),
) -> Seq<(Seq<char>, SpecTypeSig)>
    decreases sorted.len(),
{
    if sorted.len() == 0 {
        seq![f]
    } else if spec_le_name(sorted.last().0, f.0) {
        sorted.push(f)
    } else {
        spec_insert_field(sorted.drop_last(), f).push(sorted.last())
    }
}

/// Stable insertion sort of record fields by field name.
pub open spec fn spec_sort_fields(fields: Seq<(Seq<char>, SpecTypeSig)>) -> Seq<
    (Seq<char>, SpecTypeSig),
>
    decreases fields.len(),
{
    if fields.len() == 0 {
        Seq::empty()
    } else {
        spec_insert_field(spec_sort_fields(fields.drop_last()), fields.last())
    }
}

fn insert_field(sorted: Vec<(String, TypeSignature)>, f: (String, TypeSignature)) -> (r: Vec<
    (String, TypeSignature),
>)
    ensures
        fields_view(r@) == spec_insert_field(
            fields_view(sorted@),
            (f.0@, crate::sig::type_sig_view(f.1)),
        ),
    decreases sorted@.len(),
{
    proof {
        lemma_fields_view(sorted@);
    }
    let mut s = sorted;
    if s.len() == 0 {
        let mut r: Vec<(String, TypeSignature)> = Vec::new();
        r.push(f);
        proof {
            lemma_fields_view(r@);
            assert(r@[0] == f);
            assert(fields_view(r@) =~= seq![(f.0@, crate::sig::type_sig_view(f.1))]);
        }
        return r;
    }
    let lastpos = s.len() - 1;
    if name_le(&s[lastpos].0, &f.0) {
        proof {
            assert(fields_view(s@).last() == (
                s@.last().0@,
                crate::sig::type_sig_view(s@.last().1),
            ));
        }
        let ghost pre = s@;
        s.push(f);
        proof {
            assert(s@.drop_last() =~= pre);
            assert(s@.last() == f);
            assert(fields_view(s@) == fields_view(pre).push((
                f.0@,
                crate::sig::type_sig_view(f.1),
            )));
            assert(fields_view(pre).last() == (pre.last().0@, crate::sig::type_sig_view(
                pre.last().1,
            )));
            assert(spec_le_name(fields_view(pre).last().0, f.0@));
            assert(spec_insert_field(fields_view(pre), (f.0@, crate::sig::type_sig_view(f.1)))
                == fields_view(pre).push((f.0@, crate::sig::type_sig_view(f.1))));
        }
        s
    } else {
        proof {
            assert(fields_view(s@).last() == (
                s@.last().0@,
                crate::sig::type_sig_view(s@.last().1),
            ));
        }
        let ghost orig = s@;
        let last = s.pop().unwrap();
        proof {
            assert(fields_view(orig).drop_last() =~= fields_view(orig.drop_last()));
        }
        let mut r = insert_field(s, f);
        let ghost mid = r@;
        r.push(last);
        proof {
            assert(r@.drop_last() =~= mid);
            assert(r@.last() == last);
            assert(last == orig.last());
            assert(fields_view(r@) == fields_view(mid).push((
                orig.last().0@,
                crate::sig::type_sig_view(orig.last().1),
            )));
            assert(!spec_le_name(fields_view(orig).last().0, f.0@));
            assert(spec_insert_field(fields_view(orig), (f.0@, crate::sig::type_sig_view(f.1)))
                == spec_insert_field(fields_view(orig).drop_last(), (
                f.0@,
                crate::sig::type_sig_view(f.1),
            )).push(fields_view(orig).last()));
        }
        r
    }
}

/// Canonicalizes a record's field list: sorts the `(name, shape)` pairs by
/// field name, stably, so that source field order is not significant.
pub fn sort_fields(fields: Vec<(String, TypeSignature)>) -> (r: Vec<(String, TypeSignature)>)
    ensures
        fields_view(r@) == spec_sort_fields(fields_view(fields@)),
    decreases fields@.len(),
{
    proof {
        lemma_fields_view(fields@);
    }
    let mut s = fields;
    if s.len() == 0 {
        proof {
            assert(fields_view(s@) =~= Seq::<(Seq<char>, SpecTypeSig)>::empty());
        }
        return s;
    }
    let ghost orig = s@;
    let last = s.pop().unwrap();
    let sorted = sort_fields(s);
    proof {
        assert(fields_view(orig).drop_last() =~= fields_view(orig.drop_last()));
        assert(fields_view(orig).last() == (last.0@, crate::sig::type_sig_view(last.1)));
    }
    insert_field(sorted, last)
}

/// Inserting a field whose references are below `bound` into a list whose
/// references are below `bound` keeps all references below `bound`.
pub proof fn lemma_insert_field_refs(
    s: Seq<(Seq<char>, SpecTypeSig)>,
    f: (Seq<char>, SpecTypeSig),
    bound: int,
)
    requires
        crate::registry::fields_refs_below(s, bound),
        crate::registry::type_refs_below(f.1, bound),
    ensures
        crate::registry::fields_refs_below(spec_insert_field(s, f), bound),
    decreases s.len(),
{
    if s.len() == 0 {
        assert(spec_insert_field(s, f).drop_last() =~= s);
    } else if spec_le_name(s.last().0, f.0) {
        assert(s.push(f).drop_last() =~= s);
    } else {
        lemma_insert_field_refs(s.drop_last(), f, bound);
        let r = spec_insert_field(s.drop_last(), f).push(s.last());
        assert(r.drop_last() =~= spec_insert_field(s.drop_last(), f));
    }
}

/// The name order relates every two names.
pub proof fn lemma_le_name_total(a: Seq<char>, b: Seq<char>)
    ensures
        spec_le_name(a, b) || spec_le_name(b, a),
    decreases a.len(),
{
    if a.len() == 0 {
        assert(spec_le_name(a, b));
    } else if b.len() == 0 {
        assert(spec_le_name(b, a));
    } else if a[0] != b[0] {
        assert((a[0] as u32) != (b[0] as u32)) by {
            vstd::utf8::char_u32_cast(a[0], a[0] as u32);
            vstd::utf8::char_u32_cast(b[0], b[0] as u32);
        }
        if (a[0] as u32) < (b[0] as u32) {
            assert(spec_le_name(a, b));
        } else {
            assert(spec_le_name(b, a));
        }
    } else {
        lemma_le_name_total(a.drop_first(), b.drop_first());
    }
}

/// The name order is transitive.
pub proof fn lemma_le_name_trans(a: Seq<char>, b: Seq<char>, c: Seq<char>)
    requires
        spec_le_name(a, b),
        spec_le_name(b, c),
    ensures
        spec_le_name(a, c),
    decreases a.len(),
{
    if a.len() > 0 && b.len() > 0 && c.len() > 0 {
        if a[0] == b[0] && b[0] == c[0] {
            lemma_le_name_trans(a.drop_first(), b.drop_first(), c.drop_first());
        }
    }
}

/// Two names that each precede or equal the other are equal.
pub proof fn lemma_le_name_antisym(a: Seq<char>, b: Seq<char>)
    requires
        spec_le_name(a, b),
        spec_le_name(b, a),
    ensures
        a == b,
    decreases a.len(),
{
    if a.len() == 0 {
        assert(b.len() == 0);
        assert(a =~= b);
    } else {
        assert(b.len() > 0);
        assert(a[0] == b[0]);
        lemma_le_name_antisym(a.drop_first(), b.drop_first());
        assert(a.drop_first() == b.drop_first());
        assert(a.drop_first().len() == a.len() - 1);
        assert(b.drop_first().len() == b.len() - 1);
        assert(a.len() == b.len());
        assert forall|i: int| 0 <= i < a.len() implies a[i] == b[i] by {
            if i > 0 {
                assert(a[i] == a.drop_first()[i - 1]);
                assert(b[i] == b.drop_first()[i - 1]);
            }
        }
        assert(a =~= b);
    }
}

/// A canonical field list is sorted: names never decrease.
pub open spec fn fields_sorted(s: Seq<(Seq<char>, SpecTypeSig)>) -> bool {
    forall|i: int, j: int|
        0 <= i <= j < s.len() ==> spec_le_name(#[trigger] s[i].0, #[trigger] s[j].0)
}

/// No two fields of the list carry the same name.
pub open spec fn distinct_names(s: Seq<(Seq<char>, SpecTypeSig)>) -> bool {
    forall|i: int, j: int|
        0 <= i < j < s.len() ==> (#[trigger] s[i].0) != (#[trigger] s[j].0)
}

/// Whether some field of the list carries name `n`.
pub open spec fn name_in(s: Seq<(Seq<char>, SpecTypeSig)>, n: Seq<char>) -> bool {
    exists|i: int| 0 <= i < s.len() && (#[trigger] s[i].0) == n
}

/// Insertion only adds the inserted field's name.
proof fn lemma_insert_field_names(
    s: Seq<(Seq<char>, SpecTypeSig)>,
    f: (Seq<char>, SpecTypeSig),
    n: Seq<char>,
)
    ensures
        name_in(spec_insert_field(s, f), n) <==> (name_in(s, n) || n == f.0),
    decreases s.len(),
{
    let r = spec_insert_field(s, f);
    if s.len() == 0 {
        assert(r[0] == f);
        if name_in(r, n) {
            let i = choose|i: int| 0 <= i < r.len() && (#[trigger] r[i].0) == n;
            assert(r[i] == f);
        }
        if n == f.0 {
            assert(r[0].0 == n);
        }
    } else if spec_le_name(s.last().0, f.0) {
        assert(r == s.push(f));
        if name_in(r, n) {
            let i = choose|i: int| 0 <= i < r.len() && (#[trigger] r[i].0) == n;
            if i < s.len() {
                assert(s[i].0 == n);
            }
        }
        if name_in(s, n) {
            let i = choose|i: int| 0 <= i < s.len() && (#[trigger] s[i].0) == n;
            assert(r[i].0 == n);
        }
        if n == f.0 {
            assert(r[s.len() as int].0 == n);
        }
    } else {
        lemma_insert_field_names(s.drop_last(), f, n);
        let m = spec_insert_field(s.drop_last(), f);
        assert(r == m.push(s.last()));
        assert(forall|i: int|
            0 <= i < s.len() - 1 ==> #[trigger] s.drop_last()[i] == s[i]);
        if name_in(r, n) {
            let i = choose|i: int| 0 <= i < r.len() && (#[trigger] r[i].0) == n;
            if i < m.len() {
                assert(name_in(m, n));
                if name_in(s.drop_last(), n) {
                    let k = choose|k: int|
                        0 <= k < s.drop_last().len() && (#[trigger] s.drop_last()[k].0) == n;
                    assert(s[k].0 == n);
                }
            } else {
                assert(r[i] == s.last());
                assert(s[s.len() - 1].0 == n);
            }
        }
        if name_in(s, n) {
            let i = choose|i: int| 0 <= i < s.len() && (#[trigger] s[i].0) == n;
            if i < s.len() - 1 {
                assert(s.drop_last()[i].0 == n);
                assert(name_in(m, n));
                let k = choose|k: int| 0 <= k < m.len() && (#[trigger] m[k].0) == n;
                assert(r[k].0 == n);
            } else {
                assert(r[r.len() - 1].0 == n);
            }
        }
        if n == f.0 {
            assert(name_in(m, n));
            let k = choose|k: int| 0 <= k < m.len() && (#[trigger] m[k].0) == n;
            assert(r[k].0 == n);
        }
    }
}

/// Insertion keeps names pairwise distinct when the new name is fresh.
proof fn lemma_insert_field_distinct(
    s: Seq<(Seq<char>, SpecTypeSig)>,
    f: (Seq<char>, SpecTypeSig),
)
    requires
        distinct_names(s),
        !name_in(s, f.0),
    ensures
        distinct_names(spec_insert_field(s, f)),
        spec_insert_field(s, f).len() == s.len() + 1,
    decreases s.len(),
{
    let r = spec_insert_field(s, f);
    if s.len() == 0 {
        assert(forall|i: int| 0 <= i < r.len() ==> #[trigger] r[i] == f);
    } else if spec_le_name(s.last().0, f.0) {
        assert(r == s.push(f));
        assert forall|i: int, j: int|
            0 <= i < j < r.len() implies (#[trigger] r[i].0) != (#[trigger] r[j].0) by {
            if j < s.len() {
                assert(r[i] == s[i] && r[j] == s[j]);
            } else {
                assert(r[j] == f);
                assert(r[i] == s[i]);
                assert(!(s[i].0 == f.0));
            }
        }
    } else {
        assert(forall|i: int|
            0 <= i < s.len() - 1 ==> #[trigger] s.drop_last()[i] == s[i]);
        assert(distinct_names(s.drop_last()));
        assert(!name_in(s.drop_last(), f.0)) by {
            if name_in(s.drop_last(), f.0) {
                let k = choose|k: int|
                    0 <= k < s.drop_last().len() && (#[trigger] s.drop_last()[k].0) == f.0;
                assert(s[k].0 == f.0);
            }
        }
        lemma_insert_field_distinct(s.drop_last(), f);
        lemma_insert_field_names(s.drop_last(), f, s.last().0);
        let m = spec_insert_field(s.drop_last(), f);
        assert(r == m.push(s.last()));
        assert(!name_in(m, s.last().0)) by {
            assert(!name_in(s.drop_last(), s.last().0)) by {
                if name_in(s.drop_last(), s.last().0) {
                    let k = choose|k: int|
                        0 <= k < s.drop_last().len() && (#[trigger] s.drop_last()[k].0)
                            == s.last().0;
                    assert(s[k].0 == s[s.len() - 1].0);
                }
            }
            assert(s[s.len() - 1].0 != f.0);
        }
        assert forall|i: int, j: int|
            0 <= i < j < r.len() implies (#[trigger] r[i].0) != (#[trigger] r[j].0) by {
            if j < m.len() {
                assert(r[i] == m[i] && r[j] == m[j]);
            } else {
                assert(r[j] == s.last());
                assert(r[i] == m[i]);
                if m[i].0 == s.last().0 {
                    assert(name_in(m, s.last().0));
                }
            }
        }
    }
}

/// Insertion keeps the list sorted.
proof fn lemma_insert_field_sorted(s: Seq<(Seq<char>, SpecTypeSig)>, f: (Seq<char>, SpecTypeSig))
    requires
        fields_sorted(s),
    ensures
        fields_sorted(spec_insert_field(s, f)),
    decreases s.len(),
{
    let r = spec_insert_field(s, f);
    if s.len() == 0 {
        assert forall|i: int, j: int|
            0 <= i <= j < r.len() implies spec_le_name(#[trigger] r[i].0, #[trigger] r[j].0) by {
            assert(r[i] == f && r[j] == f);
            lemma_le_name_total(f.0, f.0);
        }
    } else if spec_le_name(s.last().0, f.0) {
        assert(r == s.push(f));
        assert forall|i: int, j: int|
            0 <= i <= j < r.len() implies spec_le_name(#[trigger] r[i].0, #[trigger] r[j].0) by {
            if j < s.len() {
                assert(r[i] == s[i] && r[j] == s[j]);
            } else if i < s.len() {
                assert(r[i] == s[i] && r[j] == f);
                assert(spec_le_name(s[i].0, s[s.len() - 1].0));
                lemma_le_name_trans(s[i].0, s.last().0, f.0);
            } else {
                lemma_le_name_total(f.0, f.0);
            }
        }
    } else {
        assert(forall|i: int|
            0 <= i < s.len() - 1 ==> #[trigger] s.drop_last()[i] == s[i]);
        assert(fields_sorted(s.drop_last()));
        lemma_insert_field_sorted(s.drop_last(), f);
        lemma_le_name_total(s.last().0, f.0);
        assert(spec_le_name(f.0, s.last().0));
        lemma_insert_field_names(s.drop_last(), f, f.0);
        let m = spec_insert_field(s.drop_last(), f);
        assert(r == m.push(s.last()));
        // every element of `m` precedes or equals the old last field
        assert forall|i: int| 0 <= i < m.len() implies spec_le_name(
            #[trigger] m[i].0,
            s.last().0,
        ) by {
            lemma_insert_field_member(s.drop_last(), f, i);
            if m[i] == f {
            } else {
                let k = choose|k: int|
                    0 <= k < s.drop_last().len() && #[trigger] s.drop_last()[k] == m[i];
                assert(s[k] == m[i]);
                assert(spec_le_name(s[k].0, s[s.len() - 1].0));
            }
        }
        assert forall|i: int, j: int|
            0 <= i <= j < r.len() implies spec_le_name(#[trigger] r[i].0, #[trigger] r[j].0) by {
            if j < m.len() {
                assert(r[i] == m[i] && r[j] == m[j]);
            } else if i < m.len() {
                assert(r[i] == m[i] && r[j] == s.last());
            } else {
                lemma_le_name_total(s.last().0, s.last().0);
            }
        }
    }
}

/// Every element of an insertion result is the inserted field or one of
/// the fields already present.
proof fn lemma_insert_field_member(
    s: Seq<(Seq<char>, SpecTypeSig)>,
    f: (Seq<char>, SpecTypeSig),
    i: int,
)
    requires
        0 <= i < spec_insert_field(s, f).len(),
    ensures
        spec_insert_field(s, f)[i] == f || (exists|k: int|
            0 <= k < s.len() && #[trigger] s[k] == spec_insert_field(s, f)[i]),
    decreases s.len(),
{
    let r = spec_insert_field(s, f);
    if s.len() == 0 {
        assert(r[i] == f);
    } else if spec_le_name(s.last().0, f.0) {
        assert(r == s.push(f));
        if i < s.len() {
            assert(s[i] == r[i]);
        }
    } else {
        let m = spec_insert_field(s.drop_last(), f);
        assert(r == m.push(s.last()));
        if i < m.len() {
            lemma_insert_field_member(s.drop_last(), f, i);
            if m[i] != f {
                let k = choose|k: int|
                    0 <= k < s.drop_last().len() && #[trigger] s.drop_last()[k] == m[i];
                assert(s[k] == m[i]);
            }
        } else {
            assert(r[i] == s[s.len() - 1]);
        }
    }
}

/// Insertion adds exactly one field.
proof fn lemma_insert_field_len(s: Seq<(Seq<char>, SpecTypeSig)>, f: (Seq<char>, SpecTypeSig))
    ensures
        spec_insert_field(s, f).len() == s.len() + 1,
    decreases s.len(),
{
    if s.len() == 0 {
    } else if spec_le_name(s.last().0, f.0) {
    } else {
        lemma_insert_field_len(s.drop_last(), f);
    }
}

/// Insertion inserts into the multiset.
proof fn lemma_insert_field_multiset(
    s: Seq<(Seq<char>, SpecTypeSig)>,
    f: (Seq<char>, SpecTypeSig),
)
    ensures
        spec_insert_field(s, f).to_multiset() == s.to_multiset().insert(f),
    decreases s.len(),
{
    broadcast use vstd::seq_lib::group_to_multiset_ensures;

    let r = spec_insert_field(s, f);
    if s.len() == 0 {
        assert(r =~= Seq::<(Seq<char>, SpecTypeSig)>::empty().push(f));
        assert(r.to_multiset() =~= s.to_multiset().insert(f));
    } else if spec_le_name(s.last().0, f.0) {
        assert(r == s.push(f));
    } else {
        lemma_insert_field_multiset(s.drop_last(), f);
        let m = spec_insert_field(s.drop_last(), f);
        assert(r == m.push(s.last()));
        assert(s.drop_last().push(s.last()) =~= s);
        assert(s.drop_last().push(s.last()).to_multiset() =~= s.drop_last().to_multiset().insert(
            s.last(),
        ));
        assert(r.to_multiset() =~= m.to_multiset().insert(s.last()));
        assert(r.to_multiset() =~= s.to_multiset().insert(f)) by {
            assert(m.to_multiset() == s.drop_last().to_multiset().insert(f));
            assert(s.to_multiset() == s.drop_last().to_multiset().insert(s.last()));
            assert(s.drop_last().to_multiset().insert(f).insert(s.last())
                =~= s.drop_last().to_multiset().insert(s.last()).insert(f));
        }
    }
}

/// The canonical sort is sorted, keeps the fields (as a multiset), and
/// keeps names pairwise distinct when they were distinct.
pub proof fn lemma_sort_fields_canonical(s: Seq<(Seq<char>, SpecTypeSig)>)
    ensures
        fields_sorted(spec_sort_fields(s)),
        spec_sort_fields(s).to_multiset() == s.to_multiset(),
        spec_sort_fields(s).len() == s.len(),
        distinct_names(s) ==> distinct_names(spec_sort_fields(s)),
    decreases s.len(),
{
    broadcast use vstd::seq_lib::group_to_multiset_ensures;

    if s.len() == 0 {
    } else {
        assert(forall|i: int|
            0 <= i < s.len() - 1 ==> #[trigger] s.drop_last()[i] == s[i]);
        lemma_sort_fields_canonical(s.drop_last());
        let m = spec_sort_fields(s.drop_last());
        lemma_insert_field_sorted(m, s.last());
        lemma_insert_field_multiset(m, s.last());
        lemma_insert_field_len(m, s.last());
        assert(s.drop_last().push(s.last()) =~= s);
        assert(s.drop_last().push(s.last()).to_multiset() =~= s.drop_last().to_multiset().insert(
            s.last(),
        ));
        if distinct_names(s) {
            assert(distinct_names(s.drop_last()));
            assert(!name_in(m, s.last().0)) by {
                if name_in(m, s.last().0) {
                    let k = choose|k: int|
                        0 <= k < m.len() && (#[trigger] m[k].0) == s.last().0;
                    assert(m.contains(m[k]));
                    assert(m.to_multiset().count(m[k]) > 0);
                    assert(s.drop_last().to_multiset().count(m[k]) > 0);
                    assert(s.drop_last().contains(m[k]));
                    let k2 = choose|k2: int|
                        0 <= k2 < s.drop_last().len() && s.drop_last()[k2] == m[k];
                    assert(s[k2].0 == s[s.len() - 1].0);
                }
            }
            lemma_insert_field_distinct(m, s.last());
        }
    }
}

/// Two sorted field lists that hold the same fields, under pairwise
/// distinct names, are equal.
proof fn lemma_sorted_unique(s1: Seq<(Seq<char>, SpecTypeSig)>, s2: Seq<(Seq<char>, SpecTypeSig)>)
    requires
        fields_sorted(s1),
        fields_sorted(s2),
        distinct_names(s1),
        s1.to_multiset() == s2.to_multiset(),
    ensures
        s1 == s2,
    decreases s1.len(),
{
    broadcast use vstd::seq_lib::group_to_multiset_ensures;

    assert(s1.to_multiset().len() == s1.len());
    assert(s2.to_multiset().len() == s2.len());
    assert(s1.len() == s2.len());
    if s1.len() == 0 {
        assert(s1 =~= s2);
    } else {
        let x = s1.last();
        let y = s2.last();
        assert(s2.contains(y));
        assert(s1.to_multiset().count(y) > 0);
        assert(s1.contains(y));
        let m = choose|m: int| 0 <= m < s1.len() && s1[m] == y;
        assert(spec_le_name(s1[m].0, s1[s1.len() - 1].0));
        assert(s1.contains(x));
        assert(s2.to_multiset().count(x) > 0);
        assert(s2.contains(x));
        let m2 = choose|m2: int| 0 <= m2 < s2.len() && s2[m2] == x;
        assert(spec_le_name(s2[m2].0, s2[s2.len() - 1].0));
        lemma_le_name_antisym(x.0, y.0);
        assert(x.0 == y.0);
        assert(m == s1.len() - 1) by {
            if m < s1.len() - 1 {
                assert(s1[m].0 != s1[s1.len() - 1].0);
            }
        }
        assert(x == y);
        assert(s1.remove(s1.len() - 1) =~= s1.drop_last());
        assert(s2.remove(s2.len() - 1) =~= s2.drop_last());
        assert(s1.remove(s1.len() - 1).to_multiset() =~= s1.to_multiset().remove(x));
        assert(s2.remove(s2.len() - 1).to_multiset() =~= s2.to_multiset().remove(y));
        assert(forall|i: int|
            0 <= i < s1.len() - 1 ==> #[trigger] s1.drop_last()[i] == s1[i]);
        assert(forall|i: int|
            0 <= i < s2.len() - 1 ==> #[trigger] s2.drop_last()[i] == s2[i]);
        lemma_sorted_unique(s1.drop_last(), s2.drop_last());
        assert forall|i: int| 0 <= i < s1.len() implies s1[i] == s2[i] by {
            if i < s1.len() - 1 {
                assert(s1[i] == s1.drop_last()[i]);
                assert(s2[i] == s2.drop_last()[i]);
            }
        }
        assert(s1 =~= s2);
    }
}

/// Field-order invariance: two records that hold the same fields, under
/// pairwise distinct names, canonicalize to the identical sorted field
/// list, whatever order their fields arrived in. With hash-consing this
/// means the two records register under the same identifier.
pub proof fn lemma_field_order_invariance(
    f1: Seq<(Seq<char>, SpecTypeSig)>,
    f2: Seq<(Seq<char>, SpecTypeSig)>,
)
    requires
        f1.to_multiset() == f2.to_multiset(),
        distinct_names(f1),
    ensures
        spec_sort_fields(f1) == spec_sort_fields(f2),
{
    lemma_sort_fields_canonical(f1);
    lemma_sort_fields_canonical(f2);
    lemma_sorted_unique(spec_sort_fields(f1), spec_sort_fields(f2));
}

/// Sorting preserves the reference bound of a field list.
pub proof fn lemma_sort_fields_refs(s: Seq<(Seq<char>, SpecTypeSig)>, bound: int)
    requires
        crate::registry::fields_refs_below(s, bound),
    ensures
        crate::registry::fields_refs_below(spec_sort_fields(s), bound),
    decreases s.len(),
{
    if s.len() > 0 {
        lemma_sort_fields_refs(s.drop_last(), bound);
        lemma_insert_field_refs(spec_sort_fields(s.drop_last()), s.last(), bound);
    }
}

} // verus!
