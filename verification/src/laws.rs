//! The laws of the registry, stated and proved over the mathematical model
//! that the executable functions are verified against.

use vstd::prelude::*;

use crate::collect::SpecValue;
use crate::collect::children_of;
use crate::collect::spec_collect;
use crate::collect::spec_collect_all;
use crate::collect::spec_collect_fields;
use crate::collect::spec_register;
use crate::registry::SpecEntry;
use crate::registry::container_refs_below;
use crate::registry::reg_wf;
use crate::registry::spec_container_size;
use crate::registry::spec_find;
use crate::registry::spec_get_or_create;
use crate::registry::spec_inline_all;
use crate::registry::spec_inline_candidate;
use crate::registry::spec_inline_from;
use crate::registry::spec_inline_one;
use crate::sig::SpecContainerSig;
use crate::sig::SpecTypeSig;

verus! {

/// Lookup-or-insert preserves registry well-formedness.
pub proof fn lemma_get_or_create_wf(reg: Seq<SpecEntry>, sig: SpecContainerSig, top: bool)
    requires
        reg_wf(reg),
        container_refs_below(sig, reg.len() as int),
    ensures
        reg_wf(spec_get_or_create(reg, sig, top).0),
{
    let r = spec_get_or_create(reg, sig, top).0;
    match spec_find(reg, sig) {
        Some(i) => {
            assert(r.len() == reg.len());
            assert(forall|k: int| 0 <= k < reg.len() ==> r[k].signature == reg[k].signature);
            assert(forall|k: int| 0 <= k < reg.len() ==> r[k].live == reg[k].live);
            assert forall|k: int| 0 <= k < r.len() implies container_refs_below(
                #[trigger] r[k].signature,
                k,
            ) by {
                assert(container_refs_below(reg[k].signature, k));
            }
        },
        None => {
            assert(r.len() == reg.len() + 1);
            assert forall|k: int| 0 <= k < r.len() implies container_refs_below(
                #[trigger] r[k].signature,
                k,
            ) by {
                if k < reg.len() {
                    assert(container_refs_below(reg[k].signature, k));
                }
            }
            assert forall|a: int, b: int|
                #![trigger r[a].signature, r[b].signature]
                0 <= a < r.len() && 0 <= b < r.len() && a != b && r[a].live && r[b].live implies r[
                a
            ].signature != r[b].signature by {
                if a < reg.len() && b < reg.len() {
                    assert(reg[a].signature != reg[b].signature);
                } else if a == reg.len() {
                    assert(!(0 <= b < reg.len() && (reg[b].signature) == sig && reg[b].live));
                } else {
                    assert(!(0 <= a < reg.len() && (reg[a].signature) == sig && reg[a].live));
                }
            }
        },
    }
}

/// Hash-consing uniqueness: once a canonical shape has been looked up or
/// inserted, looking the same shape up again, however the two calls set the
/// top-level flag, reports a hit and returns the same identifier. Together
/// with the well-formedness invariant (no two live entries hold equal
/// shapes) this is the hash-consing property: equal shapes always resolve
/// to one identifier.
pub proof fn lemma_hash_consing(reg: Seq<SpecEntry>, sig: SpecContainerSig, t1: bool, t2: bool)
    requires
        reg_wf(reg),
        container_refs_below(sig, reg.len() as int),
    ensures
        ({
            let r1 = spec_get_or_create(reg, sig, t1);
            let r2 = spec_get_or_create(r1.0, sig, t2);
            r2.1 == true && r2.2 == r1.2
        }),
{
    lemma_get_or_create_wf(reg, sig, t1);
    let r1 = spec_get_or_create(reg, sig, t1);
    match spec_find(reg, sig) {
        Some(i) => {
            assert(0 <= i < reg.len() && reg[i].signature == sig && reg[i].live);
            assert(r1.0[i].signature == sig && r1.0[i].live);
            assert(spec_find(r1.0, sig) is Some);
            let j = choose|j: int|
                0 <= j < r1.0.len() && (#[trigger] r1.0[j].signature) == sig && r1.0[j].live;
            assert(r1.0[j].signature == sig && r1.0[j].live);
            assert(j == i);
        },
        None => {
            let n = reg.len() as int;
            assert(r1.0[n].signature == sig && r1.0[n].live);
            assert(spec_find(r1.0, sig) is Some);
            let j = choose|j: int|
                0 <= j < r1.0.len() && (#[trigger] r1.0[j].signature) == sig && r1.0[j].live;
            assert(r1.0[j].signature == sig && r1.0[j].live);
            assert(j == n);
        },
    }
}

/// The registry never holds two live entries with structurally equal
/// shapes: a restatement of the well-formedness invariant that every
/// mutating operation of the registry preserves.
pub proof fn lemma_no_duplicate_shapes(reg: Seq<SpecEntry>, i: int, j: int)
    requires
        reg_wf(reg),
        0 <= i < reg.len(),
        0 <= j < reg.len(),
        i != j,
        reg[i].live,
        reg[j].live,
    ensures
        reg[i].signature != reg[j].signature,
{
}

/// One inlining step never changes the counts or flags of any slot other
/// than its target, and removes exactly its target.
proof fn lemma_inline_one_frame(reg: Seq<SpecEntry>, id: int, k: int)
    requires
        0 <= id < reg.len(),
        0 <= k < reg.len(),
    ensures
        spec_inline_one(reg, id).len() == reg.len(),
        spec_inline_one(reg, id)[k].count == reg[k].count,
        spec_inline_one(reg, id)[k].parent_count == reg[k].parent_count,
        spec_inline_one(reg, id)[k].appears_top_level == reg[k].appears_top_level,
        k != id ==> spec_inline_one(reg, id)[k].live == reg[k].live,
        k == id ==> !spec_inline_one(reg, id)[k].live || !reg[id].live,
{
}

/// After the whole post-pass starting from position `i`: the counts and
/// flags of slot `id` are untouched, and its liveness is cleared exactly
/// when the pass reaches it while it satisfies the inlining criterion.
proof fn lemma_inline_from_status(reg: Seq<SpecEntry>, i: int, id: int)
    requires
        0 <= i,
        0 <= id < reg.len(),
    ensures
        spec_inline_from(reg, i).len() == reg.len(),
        spec_inline_from(reg, i)[id].count == reg[id].count,
        spec_inline_from(reg, i)[id].parent_count == reg[id].parent_count,
        spec_inline_from(reg, i)[id].appears_top_level == reg[id].appears_top_level,
        spec_inline_from(reg, i)[id].live == (reg[id].live && !(i <= id
            && spec_inline_candidate(reg, id))),
    decreases reg.len() - i,
{
    if i < 0 || i >= reg.len() {
    } else {
        let step = if spec_inline_candidate(reg, i) {
            spec_inline_one(reg, i)
        } else {
            reg
        };
        if spec_inline_candidate(reg, i) {
            lemma_inline_one_frame(reg, i, id);
            assert forall|k: int| 0 <= k < reg.len() implies (#[trigger] step[k]).count == reg[
                k
            ].count && step[k].parent_count == reg[k].parent_count && step[k].appears_top_level
                == reg[k].appears_top_level by {
                lemma_inline_one_frame(reg, i, k);
            }
            assert(spec_inline_candidate(step, id) == (id != i && spec_inline_candidate(reg, id)));
        } else {
            assert(step == reg);
        }
        lemma_inline_from_status(step, i + 1, id);
        assert(spec_inline_from(reg, i) == spec_inline_from(step, i + 1));
        if spec_inline_candidate(reg, i) {
            if id == i {
                assert(!step[id].live);
                assert(spec_inline_from(step, i + 1)[id].live == false);
            } else {
                assert(step[id].live == reg[id].live);
                assert(spec_inline_candidate(step, id) == spec_inline_candidate(reg, id));
                assert(spec_inline_from(step, i + 1)[id].live == (reg[id].live && !(i + 1 <= id
                    && spec_inline_candidate(reg, id))));
            }
        }
    }
}

/// Inlining correctness, removal half: a shape that exactly one distinct
/// parent shape references and that never stood at the top level disappears
/// from the registry in the post-pass.
pub proof fn lemma_inline_removes_candidate(reg: Seq<SpecEntry>, id: int)
    requires
        spec_inline_candidate(reg, id),
    ensures
        !spec_inline_all(reg)[id].live,
        spec_inline_all(reg).len() == reg.len(),
{
    lemma_inline_from_status(reg, 0, id);
}

/// Inlining correctness, survival half: a live shape with two or more
/// distinct parents, or one ever observed as a whole top-level value,
/// survives the post-pass, with its occurrence count, parent count and
/// top-level flag unchanged.
pub proof fn lemma_inline_preserves_shared(reg: Seq<SpecEntry>, id: int)
    requires
        0 <= id < reg.len(),
        reg[id].live,
        reg[id].parent_count != 1 || reg[id].appears_top_level,
    ensures
        spec_inline_all(reg)[id].live,
        spec_inline_all(reg)[id].count == reg[id].count,
        spec_inline_all(reg)[id].parent_count == reg[id].parent_count,
        spec_inline_all(reg)[id].appears_top_level == reg[id].appears_top_level,
{
    lemma_inline_from_status(reg, 0, id);
}

/// Threshold boundary: a freshly built shape is registered and replaced by
/// a reference exactly when its size reaches the threshold; a smaller shape
/// leaves the registry untouched and stays inline.
pub proof fn lemma_threshold_boundary(
    reg: Seq<SpecEntry>,
    shape: SpecContainerSig,
    min: int,
    top: bool,
)
    ensures
        spec_container_size(shape, reg, reg.len() as int) >= min ==> spec_register(
            reg,
            shape,
            min,
            top,
        ).1 == SpecTypeSig::Container(spec_get_or_create(reg, shape, top).2),
        spec_container_size(shape, reg, reg.len() as int) < min ==> spec_register(
            reg,
            shape,
            min,
            top,
        ) == (reg, SpecTypeSig::Verbatim(shape)),
{
}

/// Distinct canonical shapes never share an identifier: registering one
/// shape and then a structurally different one yields two different
/// identifiers.
pub proof fn lemma_distinct_shapes_distinct_ids(
    reg: Seq<SpecEntry>,
    a: SpecContainerSig,
    b: SpecContainerSig,
    t1: bool,
    t2: bool,
)
    requires
        reg_wf(reg),
        container_refs_below(a, reg.len() as int),
        a != b,
    ensures
        ({
            let r1 = spec_get_or_create(reg, a, t1);
            let r2 = spec_get_or_create(r1.0, b, t2);
            r2.2 != r1.2
        }),
{
    lemma_get_or_create_wf(reg, a, t1);
    let r1 = spec_get_or_create(reg, a, t1);
    assert(0 <= r1.2 < r1.0.len() && r1.0[r1.2].signature == a && r1.0[r1.2].live) by {
        match spec_find(reg, a) {
            Some(i) => {
                assert(0 <= i < reg.len() && reg[i].signature == a && reg[i].live);
            },
            None => {},
        }
    }
    match spec_find(r1.0, b) {
        Some(j) => {
            assert(r1.0[j].signature == b);
        },
        None => {
            assert(r1.0.len() as int > r1.2);
        },
    }
}

/// No direct child position of `c` is a reference to entry `id`.
pub open spec fn no_direct_ref(c: SpecContainerSig, id: int) -> bool {
    forall|k: int|
        0 <= k < children_of(c).len() ==> (#[trigger] children_of(c)[k])
            != SpecTypeSig::Container(id)
}

/// Rewriting references to `id` leaves no direct reference to `id` behind.
proof fn lemma_replace_kills_ref(c: SpecContainerSig, id: int, repl: SpecContainerSig)
    ensures
        no_direct_ref(crate::registry::spec_replace_container(c, id, repl), id),
{
    let r = crate::registry::spec_replace_container(c, id, repl);
    assert forall|k: int| 0 <= k < children_of(r).len() implies (#[trigger] children_of(r)[k])
        != SpecTypeSig::Container(id) by {
        match c {
            SpecContainerSig::Struct(fields) => {
                assert(children_of(r)[k] == crate::registry::spec_replace_type(
                    fields[k].1,
                    id,
                    repl,
                ));
            },
            SpecContainerSig::List(elems) => {
                assert(children_of(r)[k] == crate::registry::spec_replace_type(
                    elems[k],
                    id,
                    repl,
                ));
            },
            SpecContainerSig::SExp(elems) => {
                assert(children_of(r)[k] == crate::registry::spec_replace_type(
                    elems[k],
                    id,
                    repl,
                ));
            },
        }
    }
}

/// Rewriting references to some other entry never introduces a reference.
proof fn lemma_replace_preserves_no_ref(
    c: SpecContainerSig,
    id: int,
    target: int,
    repl: SpecContainerSig,
)
    requires
        no_direct_ref(c, id),
    ensures
        no_direct_ref(crate::registry::spec_replace_container(c, target, repl), id),
{
    let r = crate::registry::spec_replace_container(c, target, repl);
    assert forall|k: int| 0 <= k < children_of(r).len() implies (#[trigger] children_of(r)[k])
        != SpecTypeSig::Container(id) by {
        match c {
            SpecContainerSig::Struct(fields) => {
                assert(children_of(r)[k] == crate::registry::spec_replace_type(
                    fields[k].1,
                    id,
                    repl,
                ) || children_of(r)[k] == crate::registry::spec_replace_type(
                    fields[k].1,
                    target,
                    repl,
                ));
                assert(children_of(c)[k] == fields[k].1);
            },
            SpecContainerSig::List(elems) => {
                assert(children_of(r)[k] == crate::registry::spec_replace_type(
                    elems[k],
                    target,
                    repl,
                ));
                assert(children_of(c)[k] == elems[k]);
            },
            SpecContainerSig::SExp(elems) => {
                assert(children_of(r)[k] == crate::registry::spec_replace_type(
                    elems[k],
                    target,
                    repl,
                ));
                assert(children_of(c)[k] == elems[k]);
            },
        }
    }
}

/// Once no live entry directly references `id`, the rest of the pass keeps
/// it that way.
proof fn lemma_inline_from_no_ref(reg: Seq<SpecEntry>, i: int, id: int)
    requires
        0 <= i,
        forall|k: int|
            0 <= k < reg.len() && (#[trigger] reg[k]).live ==> no_direct_ref(reg[k].signature, id),
    ensures
        forall|k: int|
            0 <= k < spec_inline_from(reg, i).len() && (#[trigger] spec_inline_from(reg, i)[
                k
            ]).live ==> no_direct_ref(spec_inline_from(reg, i)[k].signature, id),
    decreases reg.len() - i,
{
    if i < 0 || i >= reg.len() {
    } else {
        let step = if spec_inline_candidate(reg, i) {
            spec_inline_one(reg, i)
        } else {
            reg
        };
        assert forall|k: int|
            0 <= k < step.len() && (#[trigger] step[k]).live implies no_direct_ref(
            step[k].signature,
            id,
        ) by {
            if spec_inline_candidate(reg, i) {
                if reg[k].live {
                    lemma_replace_preserves_no_ref(
                        reg[k].signature,
                        id,
                        i,
                        reg[i as int].signature,
                    );
                }
            }
        }
        lemma_inline_from_no_ref(step, i + 1, id);
    }
}

/// Inlining correctness, replacement half: after the post-pass, no
/// surviving entry still holds a direct reference to an inlined entry;
/// every such reference was replaced by the entry's shape carried inline.
pub proof fn lemma_inline_replaces_references(reg: Seq<SpecEntry>, id: int)
    requires
        spec_inline_candidate(reg, id),
    ensures
        forall|k: int|
            0 <= k < spec_inline_all(reg).len() && (#[trigger] spec_inline_all(reg)[k]).live
                ==> no_direct_ref(spec_inline_all(reg)[k].signature, id),
{
    lemma_inline_replaces_from(reg, 0, id);
}

/// The induction behind [`lemma_inline_replaces_references`]: the pass has
/// not yet reached `id`, which still satisfies the inlining criterion; when
/// it does, every live entry is rewritten, and the rest of the pass keeps
/// all of them clean.
proof fn lemma_inline_replaces_from(reg: Seq<SpecEntry>, i: int, id: int)
    requires
        0 <= i <= id,
        spec_inline_candidate(reg, id),
    ensures
        forall|k: int|
            0 <= k < spec_inline_from(reg, i).len() && (#[trigger] spec_inline_from(reg, i)[
                k
            ]).live ==> no_direct_ref(spec_inline_from(reg, i)[k].signature, id),
    decreases reg.len() - i,
{
    let step = if spec_inline_candidate(reg, i) {
        spec_inline_one(reg, i)
    } else {
        reg
    };
    if i == id {
        assert forall|k: int|
            0 <= k < step.len() && (#[trigger] step[k]).live implies no_direct_ref(
            step[k].signature,
            id,
        ) by {
            if reg[k].live {
                lemma_replace_kills_ref(reg[k].signature, id, reg[id].signature);
            }
        }
        lemma_inline_from_no_ref(step, i + 1, id);
    } else {
        if spec_inline_candidate(reg, i) {
            lemma_inline_one_frame(reg, i, id);
            assert(spec_inline_candidate(step, id));
        }
        lemma_inline_replaces_from(step, i + 1, id);
    }
}

/// Whether a value is a scalar (carries no structure of its own).
pub open spec fn is_scalar(v: SpecValue) -> bool {
    match v {
        SpecValue::Struct(_) => false,
        SpecValue::List(_) => false,
        SpecValue::SExp(_) => false,
        _ => true,
    }
}

/// The tag a scalar value reduces to.
pub open spec fn spec_scalar_tag(v: SpecValue) -> SpecTypeSig {
    match v {
        SpecValue::Null => SpecTypeSig::Null,
        SpecValue::Bool => SpecTypeSig::Bool,
        SpecValue::Int => SpecTypeSig::Int,
        SpecValue::Float => SpecTypeSig::Float,
        SpecValue::Decimal => SpecTypeSig::Decimal,
        SpecValue::Timestamp => SpecTypeSig::Timestamp,
        SpecValue::Text => SpecTypeSig::Text,
        SpecValue::Symbol => SpecTypeSig::Symbol,
        SpecValue::Blob => SpecTypeSig::Blob,
        SpecValue::Clob => SpecTypeSig::Clob,
        _ => SpecTypeSig::Null,
    }
}

/// Scalars reduce to their tag without touching the registry.
pub proof fn lemma_collect_scalar(reg: Seq<SpecEntry>, v: SpecValue, min: int, top: bool)
    requires
        is_scalar(v),
    ensures
        spec_collect(reg, v, min, top) == (reg, spec_scalar_tag(v)),
{
    match v {
        SpecValue::Null => {},
        SpecValue::Bool => {},
        SpecValue::Int => {},
        SpecValue::Float => {},
        SpecValue::Decimal => {},
        SpecValue::Timestamp => {},
        SpecValue::Text => {},
        SpecValue::Symbol => {},
        SpecValue::Blob => {},
        SpecValue::Clob => {},
        _ => {},
    }
}

/// Whether every field of a record holds a scalar value.
pub open spec fn all_scalar_fields(vfields: Seq<(Seq<char>, SpecValue)>) -> bool {
    forall|i: int| 0 <= i < vfields.len() ==> is_scalar(#[trigger] vfields[i].1)
}

/// The field tags of an all-scalar record, in source order.
pub open spec fn spec_scalar_tags(vfields: Seq<(Seq<char>, SpecValue)>) -> Seq<
    (Seq<char>, SpecTypeSig),
>
    decreases vfields.len(),
{
    if vfields.len() == 0 {
        Seq::empty()
    } else {
        spec_scalar_tags(vfields.drop_last()).push(
            (vfields.last().0, spec_scalar_tag(vfields.last().1)),
        )
    }
}

/// Reducing the fields of an all-scalar record leaves the registry alone
/// and yields the field tags, independent of the registry.
pub proof fn lemma_collect_fields_scalar(
    reg: Seq<SpecEntry>,
    vfields: Seq<(Seq<char>, SpecValue)>,
    min: int,
)
    requires
        all_scalar_fields(vfields),
    ensures
        spec_collect_fields(reg, vfields, min) == (reg, spec_scalar_tags(vfields)),
    decreases vfields.len(),
{
    if vfields.len() > 0 {
        assert(forall|i: int|
            0 <= i < vfields.len() - 1 ==> #[trigger] vfields.drop_last()[i] == vfields[i]);
        lemma_collect_fields_scalar(reg, vfields.drop_last(), min);
        assert(is_scalar(vfields.last().1));
        lemma_collect_scalar(reg, vfields.last().1, min, false);
    }
}

/// Whether a position shape is a scalar tag.
pub open spec fn is_scalar_sig(t: SpecTypeSig) -> bool {
    match t {
        SpecTypeSig::Container(_) => false,
        SpecTypeSig::Verbatim(_) => false,
        _ => true,
    }
}

/// Whether every field of a canonical record shape holds a scalar tag.
pub open spec fn all_scalar_sigs(fields: Seq<(Seq<char>, SpecTypeSig)>) -> bool {
    forall|i: int| 0 <= i < fields.len() ==> is_scalar_sig(#[trigger] fields[i].1)
}

proof fn lemma_scalar_tags_are_scalar(vfields: Seq<(Seq<char>, SpecValue)>)
    ensures
        spec_scalar_tags(vfields).len() == vfields.len(),
        all_scalar_sigs(spec_scalar_tags(vfields)),
    decreases vfields.len(),
{
    if vfields.len() > 0 {
        lemma_scalar_tags_are_scalar(vfields.drop_last());
        let tags = spec_scalar_tags(vfields);
        let pre = spec_scalar_tags(vfields.drop_last());
        assert forall|i: int| 0 <= i < tags.len() implies is_scalar_sig(
            #[trigger] tags[i].1,
        ) by {
            if i < tags.len() - 1 {
                assert(tags[i] == pre[i]);
            } else {
                match vfields.last().1 {
                    SpecValue::Struct(_) => {},
                    SpecValue::List(_) => {},
                    SpecValue::SExp(_) => {},
                    _ => {},
                }
            }
        }
    }
}

proof fn lemma_insert_field_scalar(
    s: Seq<(Seq<char>, SpecTypeSig)>,
    f: (Seq<char>, SpecTypeSig),
)
    requires
        all_scalar_sigs(s),
        is_scalar_sig(f.1),
    ensures
        crate::order::spec_insert_field(s, f).len() == s.len() + 1,
        all_scalar_sigs(crate::order::spec_insert_field(s, f)),
    decreases s.len(),
{
    let r = crate::order::spec_insert_field(s, f);
    if s.len() == 0 {
        assert(r == seq![f]);
        assert(forall|i: int| 0 <= i < r.len() ==> #[trigger] r[i] == f);
    } else if crate::order::spec_le_name(s.last().0, f.0) {
        assert(r == s.push(f));
        assert forall|i: int| 0 <= i < r.len() implies is_scalar_sig(#[trigger] r[i].1) by {
            if i < s.len() {
                assert(r[i] == s[i]);
            } else {
                assert(r[i] == f);
            }
        }
    } else {
        assert(all_scalar_sigs(s.drop_last())) by {
            assert(forall|i: int|
                0 <= i < s.len() - 1 ==> #[trigger] s.drop_last()[i] == s[i]);
        }
        lemma_insert_field_scalar(s.drop_last(), f);
        let m = crate::order::spec_insert_field(s.drop_last(), f);
        assert(r == m.push(s.last()));
        assert forall|i: int| 0 <= i < r.len() implies is_scalar_sig(#[trigger] r[i].1) by {
            if i < m.len() {
                assert(r[i] == m[i]);
            } else {
                assert(r[i] == s.last());
                assert(is_scalar_sig(s[s.len() - 1].1));
            }
        }
    }
}

proof fn lemma_sort_fields_scalar(s: Seq<(Seq<char>, SpecTypeSig)>)
    requires
        all_scalar_sigs(s),
    ensures
        crate::order::spec_sort_fields(s).len() == s.len(),
        all_scalar_sigs(crate::order::spec_sort_fields(s)),
    decreases s.len(),
{
    if s.len() > 0 {
        assert(all_scalar_sigs(s.drop_last())) by {
            assert(forall|i: int|
                0 <= i < s.len() - 1 ==> #[trigger] s.drop_last()[i] == s[i]);
        }
        lemma_sort_fields_scalar(s.drop_last());
        assert(is_scalar_sig(s[s.len() - 1].1));
        lemma_insert_field_scalar(crate::order::spec_sort_fields(s.drop_last()), s.last());
    }
}

proof fn lemma_scalar_fields_size(
    fields: Seq<(Seq<char>, SpecTypeSig)>,
    reg: Seq<SpecEntry>,
    bound: int,
)
    requires
        all_scalar_sigs(fields),
    ensures
        crate::registry::spec_fields_size(fields, reg, bound) == 0,
    decreases fields.len(),
{
    if fields.len() > 0 {
        assert(all_scalar_sigs(fields.drop_last())) by {
            assert(forall|i: int|
                0 <= i < fields.len() - 1 ==> #[trigger] fields.drop_last()[i] == fields[i]);
        }
        lemma_scalar_fields_size(fields.drop_last(), reg, bound);
        assert(is_scalar_sig(fields[fields.len() - 1].1));
        match fields.last().1 {
            SpecTypeSig::Container(_) => {},
            SpecTypeSig::Verbatim(_) => {},
            _ => {
                assert(crate::registry::spec_type_size(fields.last().1, reg, bound) == 0);
            },
        }
    }
}

proof fn lemma_bump_children_scalar(reg: Seq<SpecEntry>, children: Seq<SpecTypeSig>)
    requires
        forall|i: int| 0 <= i < children.len() ==> is_scalar_sig(#[trigger] children[i]),
    ensures
        crate::collect::spec_bump_children(reg, children) == reg,
    decreases children.len(),
{
    if children.len() > 0 {
        assert(is_scalar_sig(children[0]));
        match children[0] {
            SpecTypeSig::Container(_) => {},
            _ => {},
        }
        assert(forall|i: int|
            0 <= i < children.len() - 1 ==> #[trigger] children.drop_first()[i] == children[i
                + 1]);
        lemma_bump_children_scalar(reg, children.drop_first());
    }
}

/// What one all-scalar record reduces to: its canonical shape.
pub open spec fn spec_flat_record_shape(vfields: Seq<(Seq<char>, SpecValue)>) -> SpecContainerSig {
    SpecContainerSig::Struct(crate::order::spec_sort_fields(spec_scalar_tags(vfields)))
}

/// Reducing one all-scalar record through a registry whose single entry
/// already holds its shape bumps that entry's count by one.
proof fn lemma_flat_record_hit(vfields: Seq<(Seq<char>, SpecValue)>, c: nat, top: bool, min: int)
    requires
        all_scalar_fields(vfields),
        min <= vfields.len(),
        1 <= c < usize::MAX as nat,
    ensures
        ({
            let s = spec_flat_record_shape(vfields);
            let reg = seq![
                SpecEntry {
                    signature: s,
                    count: c,
                    parent_count: 0,
                    appears_top_level: top,
                    live: true,
                },
            ];
            spec_collect(reg, SpecValue::Struct(vfields), min, true) == (
                seq![
                    SpecEntry {
                        signature: s,
                        count: (c + 1) as nat,
                        parent_count: 0,
                        appears_top_level: true,
                        live: true,
                    },
                ],
                SpecTypeSig::Container(0),
            )
        }),
{
    let s = spec_flat_record_shape(vfields);
    let reg = seq![
        SpecEntry { signature: s, count: c, parent_count: 0, appears_top_level: top, live: true },
    ];
    lemma_collect_fields_scalar(reg, vfields, min);
    lemma_scalar_tags_are_scalar(vfields);
    lemma_sort_fields_scalar(spec_scalar_tags(vfields));
    lemma_scalar_fields_size(
        crate::order::spec_sort_fields(spec_scalar_tags(vfields)),
        reg,
        reg.len() as int,
    );
    assert(spec_container_size(s, reg, reg.len() as int) == vfields.len());
    assert(reg[0].signature == s && reg[0].live);
    assert(spec_find(reg, s) is Some);
    let j = choose|j: int| 0 <= j < reg.len() && (#[trigger] reg[j].signature) == s && reg[j].live;
    assert(j == 0);
    let r = spec_get_or_create(reg, s, true);
    assert(r.1 && r.2 == 0);
    assert(r.0 =~= seq![
        SpecEntry {
            signature: s,
            count: (c + 1) as nat,
            parent_count: 0,
            appears_top_level: true,
            live: true,
        },
    ]);
}

/// Count accuracy, the induction: with the flat record's entry already
/// counted `c` times, reducing `m` further copies raises the count to
/// `c + m` and adds no entry.
proof fn lemma_count_accuracy_from(vfields: Seq<(Seq<char>, SpecValue)>, m: nat, c: nat, min: int)
    requires
        all_scalar_fields(vfields),
        min <= vfields.len(),
        1 <= c,
        c + m <= usize::MAX as nat,
    ensures
        ({
            let s = spec_flat_record_shape(vfields);
            let reg = seq![
                SpecEntry {
                    signature: s,
                    count: c,
                    parent_count: 0,
                    appears_top_level: true,
                    live: true,
                },
            ];
            spec_collect_all(reg, Seq::new(m, |i: int| SpecValue::Struct(vfields)), min) == seq![
                SpecEntry {
                    signature: s,
                    count: (c + m) as nat,
                    parent_count: 0,
                    appears_top_level: true,
                    live: true,
                },
            ]
        }),
    decreases m,
{
    let s = spec_flat_record_shape(vfields);
    let values = Seq::new(m, |i: int| SpecValue::Struct(vfields));
    let reg = seq![
        SpecEntry { signature: s, count: c, parent_count: 0, appears_top_level: true, live: true },
    ];
    if m == 0 {
        assert(values.len() == 0);
    } else {
        lemma_flat_record_hit(vfields, c, true, min);
        let reg1 = seq![
            SpecEntry {
                signature: s,
                count: (c + 1) as nat,
                parent_count: 0,
                appears_top_level: true,
                live: true,
            },
        ];
        assert(values[0] == SpecValue::Struct(vfields));
        assert(spec_collect(reg, values[0], min, true).0 == reg1);
        assert(values.drop_first() =~= Seq::new((m - 1) as nat, |i: int| SpecValue::Struct(
            vfields,
        )));
        lemma_count_accuracy_from(vfields, (m - 1) as nat, (c + 1) as nat, min);
    }
}

/// Count accuracy: feeding `n` structurally identical all-scalar top-level
/// records, each large enough to register, to an empty registry yields
/// exactly one entry, with occurrence count `n`.
pub proof fn lemma_count_accuracy(vfields: Seq<(Seq<char>, SpecValue)>, n: nat, min: int)
    requires
        all_scalar_fields(vfields),
        min <= vfields.len(),
        1 <= n <= usize::MAX as nat,
    ensures
        ({
            let fin = spec_collect_all(
                Seq::empty(),
                Seq::new(n, |i: int| SpecValue::Struct(vfields)),
                min,
            );
            fin == seq![
                SpecEntry {
                    signature: spec_flat_record_shape(vfields),
                    count: n,
                    parent_count: 0,
                    appears_top_level: true,
                    live: true,
                },
            ]
        }),
{
    let s = spec_flat_record_shape(vfields);
    let empty = Seq::<SpecEntry>::empty();
    let values = Seq::new(n, |i: int| SpecValue::Struct(vfields));
    lemma_collect_fields_scalar(empty, vfields, min);
    lemma_scalar_tags_are_scalar(vfields);
    lemma_sort_fields_scalar(spec_scalar_tags(vfields));
    lemma_scalar_fields_size(
        crate::order::spec_sort_fields(spec_scalar_tags(vfields)),
        empty,
        0,
    );
    assert(spec_container_size(s, empty, 0) == vfields.len());
    assert(spec_find(empty, s) is None);
    let r = spec_get_or_create(empty, s, true);
    let reg1 = seq![
        SpecEntry { signature: s, count: 1, parent_count: 0, appears_top_level: true, live: true },
    ];
    assert(r.0 =~= reg1);
    assert(!r.1);
    assert forall|i: int|
        0 <= i < children_of(s).len() implies is_scalar_sig(#[trigger] children_of(s)[i]) by {
        assert(children_of(s)[i] == crate::order::spec_sort_fields(spec_scalar_tags(vfields))[i
        ].1);
    }
    lemma_bump_children_scalar(r.0, children_of(s));
    assert(values[0] == SpecValue::Struct(vfields));
    assert(spec_collect(empty, values[0], min, true).0 == reg1);
    assert(values.drop_first() =~= Seq::new((n - 1) as nat, |i: int| SpecValue::Struct(vfields)));
    lemma_count_accuracy_from(vfields, (n - 1) as nat, 1, min);
}

} // verus!
