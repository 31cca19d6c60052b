//! The traversal/collector: reduces a decoded input value depth-first,
//! post-order, to a [`TypeSignature`], consulting and mutating the shared
//! [`SignatureRegistry`] for every container shape that is large enough to
//! register.

use vstd::prelude::*;

use crate::order::sort_fields;
use crate::order::spec_sort_fields;
use crate::registry::SignatureRegistry;
use crate::registry::SpecEntry;
use crate::registry::container_refs_below;
use crate::registry::fields_refs_below;
use crate::registry::lemma_container_refs_below_mono;
use crate::registry::lemma_elems_refs_below;
use crate::registry::lemma_fields_refs_below;
use crate::registry::lemma_fields_refs_below_mono;
use crate::registry::spec_bump_parent;
use crate::registry::spec_container_size;
use crate::registry::spec_get_or_create;
use crate::registry::type_refs_below;
use crate::sig::ContainerSignature;
use crate::sig::SpecContainerSig;
use crate::sig::SpecTypeSig;
use crate::sig::TypeSignature;
use crate::sig::elems_view;
use crate::sig::fields_view;
use crate::sig::lemma_elems_view;
use crate::sig::lemma_fields_view;
use crate::sig::type_sig_view;

verus! {

/// A decoded input value: a scalar of one of the fixed categories, a record
/// of named fields, an ordered list, or an ordered untyped sequence. Scalar
/// payloads are not represented; only the category matters for shapes.
pub enum Value {
    Null,
    Bool,
    Int,
    Float,
    Decimal,
    Timestamp,
    Text,
    Symbol,
    Blob,
    Clob,
    Struct(Vec<(String, Value)>),
    List(Vec<Value>),
    SExp(Vec<Value>),
}

/// Mathematical model of a [`Value`].
pub enum SpecValue {
    Null,
    Bool,
    Int,
    Float,
    Decimal,
    Timestamp,
    Text,
    Symbol,
    Blob,
    Clob,
    Struct(Seq<(Seq<char>, SpecValue)>),
    List(Seq<SpecValue>),
    SExp(Seq<SpecValue>),
}

pub open spec fn value_view(v: Value) -> SpecValue
    decreases v,
{
    match v {
        Value::Null => SpecValue::Null,
        Value::Bool => SpecValue::Bool,
        Value::Int => SpecValue::Int,
        Value::Float => SpecValue::Float,
        Value::Decimal => SpecValue::Decimal,
        Value::Timestamp => SpecValue::Timestamp,
        Value::Text => SpecValue::Text,
        Value::Symbol => SpecValue::Symbol,
        Value::Blob => SpecValue::Blob,
        Value::Clob => SpecValue::Clob,
        Value::Struct(fields) => SpecValue::Struct(vfields_view(fields@)),
        Value::List(elems) => SpecValue::List(velems_view(elems@)),
        Value::SExp(elems) => SpecValue::SExp(velems_view(elems@)),
    }
}

pub open spec fn vfields_view(fields: Seq<(String, Value)>) -> Seq<(Seq<char>, SpecValue)>
    decreases fields,
{
    if fields.len() == 0 {
        Seq::empty()
    } else {
        vfields_view(fields.drop_last()).push(
            (fields.last().0@, value_view(fields.last().1)),
        )
    }
}

pub open spec fn velems_view(elems: Seq<Value>) -> Seq<SpecValue>
    decreases elems,
{
    if elems.len() == 0 {
        Seq::empty()
    } else {
        velems_view(elems.drop_last()).push(value_view(elems.last()))
    }
}

impl View for Value {
    type V = SpecValue;

    open spec fn view(&self) -> SpecValue {
        value_view(*self)
    }
}

/// `vfields_view` maps the field list pointwise.
pub proof fn lemma_vfields_view(fields: Seq<(String, Value)>)
    ensures
        vfields_view(fields).len() == fields.len(),
        forall|i: int|
            0 <= i < fields.len() ==> #[trigger] vfields_view(fields)[i] == (
            fields[i].0@,
            value_view(fields[i].1),
            ),
    decreases fields.len(),
{
    if fields.len() > 0 {
        lemma_vfields_view(fields.drop_last());
    }
}

/// `velems_view` maps the element list pointwise.
pub proof fn lemma_velems_view(elems: Seq<Value>)
    ensures
        velems_view(elems).len() == elems.len(),
        forall|i: int|
            0 <= i < elems.len() ==> #[trigger] velems_view(elems)[i] == value_view(elems[i]),
    decreases elems.len(),
{
    if elems.len() > 0 {
        lemma_velems_view(elems.drop_last());
    }
}

/// The direct children of a container shape, in order.
pub open spec fn children_of(c: SpecContainerSig) -> Seq<SpecTypeSig> {
    match c {
        SpecContainerSig::Struct(fields) => Seq::new(fields.len(), |i: int| fields[i].1),
        SpecContainerSig::List(elems) => elems,
        SpecContainerSig::SExp(elems) => elems,
    }
}

/// The parent-count bump a single child position causes: only container
/// references are bumped.
pub open spec fn spec_bump_child(reg: Seq<SpecEntry>, t: SpecTypeSig) -> Seq<SpecEntry> {
    match t {
        SpecTypeSig::Container(id) => if 0 <= id < reg.len() {
            spec_bump_parent(reg, id)
        } else {
            reg
        },
        _ => reg,
    }
}

/// Bumps the parent count of every child entry a newly created shape
/// references, in child order.
pub open spec fn spec_bump_children(reg: Seq<SpecEntry>, children: Seq<SpecTypeSig>) -> Seq<
    SpecEntry,
>
    decreases children.len(),
{
    if children.len() == 0 {
        reg
    } else {
        spec_bump_children(spec_bump_child(reg, children[0]), children.drop_first())
    }
}

/// The registration decision for a freshly built canonical shape: shapes of
/// size at least `min` are hash-consed into the registry and replaced by a
/// reference; smaller shapes stay inline and never touch the registry.
pub open spec fn spec_register(reg: Seq<SpecEntry>, shape: SpecContainerSig, min: int, top: bool)
    -> (Seq<SpecEntry>, SpecTypeSig) {
    if spec_container_size(shape, reg, reg.len() as int) >= min {
        let r = spec_get_or_create(reg, shape, top);
        if r.1 {
            (r.0, SpecTypeSig::Container(r.2))
        } else {
            (spec_bump_children(r.0, children_of(shape)), SpecTypeSig::Container(r.2))
        }
    } else {
        (reg, SpecTypeSig::Verbatim(shape))
    }
}

/// Reduction of one value to its position shape: scalars map to their
/// category; a record's fields are reduced in source order, then sorted by
/// name; list and sequence elements are reduced in order; the resulting
/// shape goes through the registration decision with the registry as
/// mutated by the children.
pub open spec fn spec_collect(reg: Seq<SpecEntry>, v: SpecValue, min: int, top: bool) -> (
    Seq<SpecEntry>,
    SpecTypeSig,
)
    decreases v, 0int,
{
    match v {
        SpecValue::Null => (reg, SpecTypeSig::Null),
        SpecValue::Bool => (reg, SpecTypeSig::Bool),
        SpecValue::Int => (reg, SpecTypeSig::Int),
        SpecValue::Float => (reg, SpecTypeSig::Float),
        SpecValue::Decimal => (reg, SpecTypeSig::Decimal),
        SpecValue::Timestamp => (reg, SpecTypeSig::Timestamp),
        SpecValue::Text => (reg, SpecTypeSig::Text),
        SpecValue::Symbol => (reg, SpecTypeSig::Symbol),
        SpecValue::Blob => (reg, SpecTypeSig::Blob),
        SpecValue::Clob => (reg, SpecTypeSig::Clob),
        SpecValue::Struct(vfields) => {
            let r = spec_collect_fields(reg, vfields, min);
            spec_register(r.0, SpecContainerSig::Struct(spec_sort_fields(r.1)), min, top)
        },
        SpecValue::List(velems) => {
            let r = spec_collect_elems(reg, velems, min);
            spec_register(r.0, SpecContainerSig::List(r.1), min, top)
        },
        SpecValue::SExp(velems) => {
            let r = spec_collect_elems(reg, velems, min);
            spec_register(r.0, SpecContainerSig::SExp(r.1), min, top)
        },
    }
}

/// Reduces a record's field values in source order, threading the registry.
pub open spec fn spec_collect_fields(
    reg: Seq<SpecEntry>,
    vfields: Seq<(Seq<char>, SpecValue)>,
    min: int,
) -> (Seq<SpecEntry>, Seq<(Seq<char>, SpecTypeSig)>)
    decreases vfields, 1int,
{
    if vfields.len() == 0 {
        (reg, Seq::empty())
    } else {
        let r = spec_collect_fields(reg, vfields.drop_last(), min);
        let s = spec_collect(r.0, vfields.last().1, min, false);
        (s.0, r.1.push((vfields.last().0, s.1)))
    }
}

/// Reduces a list's or sequence's elements in order, threading the registry.
pub open spec fn spec_collect_elems(reg: Seq<SpecEntry>, velems: Seq<SpecValue>, min: int) -> (
    Seq<SpecEntry>,
    Seq<SpecTypeSig>,
)
    decreases velems, 1int,
{
    if velems.len() == 0 {
        (reg, Seq::empty())
    } else {
        let r = spec_collect_elems(reg, velems.drop_last(), min);
        let s = spec_collect(r.0, velems.last(), min, false);
        (s.0, r.1.push(s.1))
    }
}

/// A whole run: every top-level value of the input, in order, reduced with
/// the top-level flag set.
pub open spec fn spec_collect_all(reg: Seq<SpecEntry>, values: Seq<SpecValue>, min: int) -> Seq<
    SpecEntry,
>
    decreases values.len(),
{
    if values.len() == 0 {
        reg
    } else {
        spec_collect_all(spec_collect(reg, values[0], min, true).0, values.drop_first(), min)
    }
}

/// Bumps the parent count of every child entry the new shape references.
#[verifier::loop_isolation(false)]
fn bump_children(shape: &ContainerSignature, registry: &mut SignatureRegistry)
    requires
        old(registry).wf(),
        container_refs_below(shape@, old(registry)@.len() as int),
    ensures
        final(registry).wf(),
        final(registry)@ == spec_bump_children(old(registry)@, children_of(shape@)),
        final(registry)@.len() == old(registry)@.len(),
{
    let ghost reg0 = registry@;
    let ghost children = children_of(shape@);
    match shape {
        ContainerSignature::Struct(sfields) => {
            proof {
                lemma_fields_view(sfields@);
                lemma_fields_refs_below(fields_view(sfields@), reg0.len() as int);
            }
            let mut k: usize = 0;
            proof {
                assert(children.skip(0) =~= children);
            }
            while k < sfields.len()
                invariant
                    k <= sfields.len(),
                    children.len() == sfields.len(),
                    registry.wf(),
                    registry@.len() == reg0.len(),
                    forall|m: int|
                        0 <= m < children.len() ==> #[trigger] children[m] == type_sig_view(
                            sfields@[m].1,
                        ),
                    spec_bump_children(reg0, children) == spec_bump_children(
                        registry@,
                        children.skip(k as int),
                    ),
                decreases sfields.len() - k,
            {
                proof {
                    assert(fields_view(sfields@)[k as int].1 == type_sig_view(sfields@[k as int].1));
                    assert(type_refs_below(children[k as int], registry@.len() as int));
                    assert(children.skip(k as int)[0] == children[k as int]);
                    assert(children.skip(k as int).drop_first() =~= children.skip(k as int + 1));
                }
                match &sfields[k].1 {
                    TypeSignature::Container(cid) => {
                        registry.increment_parent_count(*cid);
                    },
                    _ => {},
                }
                k += 1;
            }
            proof {
                assert(children.skip(sfields@.len() as int) =~= Seq::<SpecTypeSig>::empty());
            }
        },
        ContainerSignature::List(selems) => bump_elem_children(selems, registry, Ghost(children)),
        ContainerSignature::SExp(selems) => bump_elem_children(selems, registry, Ghost(children)),
    }
}

#[verifier::loop_isolation(false)]
fn bump_elem_children(
    selems: &Vec<TypeSignature>,
    registry: &mut SignatureRegistry,
    Ghost(children): Ghost<Seq<SpecTypeSig>>,
)
    requires
        old(registry).wf(),
        children == elems_view(selems@),
        crate::registry::elems_refs_below(elems_view(selems@), old(registry)@.len() as int),
    ensures
        final(registry).wf(),
        final(registry)@ == spec_bump_children(old(registry)@, children),
        final(registry)@.len() == old(registry)@.len(),
{
    let ghost reg0 = registry@;
    proof {
        lemma_elems_view(selems@);
        lemma_elems_refs_below(elems_view(selems@), reg0.len() as int);
    }
    let mut k: usize = 0;
    proof {
        assert(children.skip(0) =~= children);
    }
    while k < selems.len()
        invariant
            k <= selems.len(),
            children.len() == selems.len(),
            registry.wf(),
            registry@.len() == reg0.len(),
            spec_bump_children(reg0, children) == spec_bump_children(
                registry@,
                children.skip(k as int),
            ),
        decreases selems.len() - k,
    {
        proof {
            assert(children[k as int] == type_sig_view(selems@[k as int]));
            assert(type_refs_below(children[k as int], registry@.len() as int));
            assert(children.skip(k as int)[0] == children[k as int]);
            assert(children.skip(k as int).drop_first() =~= children.skip(k as int + 1));
        }
        match &selems[k] {
            TypeSignature::Container(cid) => {
                registry.increment_parent_count(*cid);
            },
            _ => {},
        }
        k += 1;
    }
    proof {
        assert(children.skip(selems@.len() as int) =~= Seq::<SpecTypeSig>::empty());
    }
}

/// Applies the registration decision to a freshly built canonical shape:
/// registers it when its size reaches `min_size`, returning a reference, and
/// returns it inline otherwise.
pub fn register_shape(
    shape: ContainerSignature,
    registry: &mut SignatureRegistry,
    min_size: usize,
    top_level: bool,
) -> (t: TypeSignature)
    requires
        old(registry).wf(),
        container_refs_below(shape@, old(registry)@.len() as int),
    ensures
        final(registry).wf(),
        final(registry)@.len() >= old(registry)@.len(),
        (final(registry)@, t@) == spec_register(
            old(registry)@,
            shape@,
            min_size as int,
            top_level,
        ),
        type_refs_below(t@, final(registry)@.len() as int),
{
    let ghost reg0 = registry@;
    let size = shape.size(registry);
    proof {
        assert((size >= min_size) == (spec_container_size(shape@, reg0, reg0.len() as int)
            >= min_size as int));
    }
    if size >= min_size {
        let dup = shape.duplicate();
        let (existing, id) = registry.get_or_create_id(dup, top_level);
        proof {
            let r = spec_get_or_create(reg0, shape@, top_level);
            assert(r.2 == id as int && r.1 == existing && r.0 == registry@);
            if existing {
                assert(0 <= r.2 < reg0.len());
            }
        }
        if !existing {
            proof {
                lemma_container_refs_below_mono(
                    shape@,
                    reg0.len() as int,
                    registry@.len() as int,
                );
            }
            bump_children(&shape, registry);
        }
        TypeSignature::Container(id)
    } else {
        TypeSignature::Verbatim(shape)
    }
}

/// Reduces one decoded value to its position shape, registering every
/// nested container shape that is large enough, depth-first and post-order.
#[verifier::loop_isolation(false)]
pub fn collect_signatures(
    value: &Value,
    registry: &mut SignatureRegistry,
    min_size: usize,
    top_level: bool,
) -> (t: TypeSignature)
    requires
        old(registry).wf(),
    ensures
        final(registry).wf(),
        final(registry)@.len() >= old(registry)@.len(),
        (final(registry)@, t@) == spec_collect(
            old(registry)@,
            value@,
            min_size as int,
            top_level,
        ),
        type_refs_below(t@, final(registry)@.len() as int),
    decreases *value, 0int,
{
    match value {
        Value::Null => TypeSignature::Null,
        Value::Bool => TypeSignature::Bool,
        Value::Int => TypeSignature::Int,
        Value::Float => TypeSignature::Float,
        Value::Decimal => TypeSignature::Decimal,
        Value::Timestamp => TypeSignature::Timestamp,
        Value::Text => TypeSignature::Text,
        Value::Symbol => TypeSignature::Symbol,
        Value::Blob => TypeSignature::Blob,
        Value::Clob => TypeSignature::Clob,
        Value::Struct(vfields) => {
            proof {
                lemma_vfields_view(vfields@);
            }
            let ghost reg0 = registry@;
            let ghost vfv = vfields_view(vfields@);
            let mut fields: Vec<(String, TypeSignature)> = Vec::new();
            let mut i: usize = 0;
            proof {
                assert(vfv.subrange(0, 0) =~= Seq::<(Seq<char>, SpecValue)>::empty());
                assert(fields_view(fields@) =~= Seq::<(Seq<char>, SpecTypeSig)>::empty());
            }
            while i < vfields.len()
                invariant
                    i <= vfields.len(),
                    fields@.len() == i,
                    registry.wf(),
                    registry@.len() >= reg0.len(),
                    spec_collect_fields(reg0, vfv.subrange(0, i as int), min_size as int) == (
                        registry@,
                        fields_view(fields@),
                    ),
                    fields_refs_below(fields_view(fields@), registry@.len() as int),
                decreases vfields.len() - i,
            {
                proof {
                    assert(vfv[i as int] == (vfields@[i as int].0@, value_view(
                        vfields@[i as int].1,
                    )));
                    assert(decreases_to!(vfields@ => vfields@[i as int]));
                }
                let ghost reg_pre = registry@;
                let ghost fv_pre = fields_view(fields@);
                let t = collect_signatures(&vfields[i].1, registry, min_size, false);
                let name = vfields[i].0.clone();
                let ghost prev = fields@;
                fields.push((name, t));
                proof {
                    assert(fields@.drop_last() =~= prev);
                    assert(fields@.last() == (name, t));
                    assert(fields_view(fields@) == fv_pre.push((
                        vfields@[i as int].0@,
                        type_sig_view(t),
                    )));
                    let post = vfv.subrange(0, i as int + 1);
                    assert(post.drop_last() =~= vfv.subrange(0, i as int));
                    assert(post.last() == vfv[i as int]);
                    assert(spec_collect_fields(reg0, post, min_size as int) == (
                        registry@,
                        fields_view(fields@),
                    ));
                    lemma_fields_refs_below(fv_pre, reg_pre.len() as int);
                    lemma_fields_refs_below_mono(fv_pre, reg_pre.len() as int, registry@.len() as int)
                    ;
                    lemma_fields_refs_below(fv_pre, registry@.len() as int);
                    lemma_fields_refs_below(fields_view(fields@), registry@.len() as int);
                }
                i += 1;
            }
            proof {
                assert(vfv.subrange(0, vfields@.len() as int) =~= vfv);
            }
            let sorted = sort_fields(fields);
            proof {
                crate::order::lemma_sort_fields_refs(
                    fields_view(fields@),
                    registry@.len() as int,
                );
            }
            register_shape(ContainerSignature::Struct(sorted), registry, min_size, top_level)
        },
        Value::List(velems) => collect_sequence_signatures(
            velems,
            registry,
            min_size,
            top_level,
            false,
        ),
        Value::SExp(velems) => collect_sequence_signatures(
            velems,
            registry,
            min_size,
            top_level,
            true,
        ),
    }
}

/// Reduces the elements of a list or sequence in order and applies the
/// registration decision to the resulting per-position shape.
#[verifier::loop_isolation(false)]
fn collect_sequence_signatures(
    velems: &Vec<Value>,
    registry: &mut SignatureRegistry,
    min_size: usize,
    top_level: bool,
    sexp: bool,
) -> (t: TypeSignature)
    requires
        old(registry).wf(),
    ensures
        final(registry).wf(),
        final(registry)@.len() >= old(registry)@.len(),
        ({
            let r = spec_collect_elems(old(registry)@, velems_view(velems@), min_size as int);
            let shape = if sexp {
                SpecContainerSig::SExp(r.1)
            } else {
                SpecContainerSig::List(r.1)
            };
            (final(registry)@, t@) == spec_register(r.0, shape, min_size as int, top_level)
        }),
        type_refs_below(t@, final(registry)@.len() as int),
    decreases *velems, 1int,
{
    proof {
        lemma_velems_view(velems@);
    }
    let ghost reg0 = registry@;
    let ghost vev = velems_view(velems@);
    let mut elems: Vec<TypeSignature> = Vec::new();
    let mut i: usize = 0;
    proof {
        assert(vev.subrange(0, 0) =~= Seq::<SpecValue>::empty());
        assert(elems_view(elems@) =~= Seq::<SpecTypeSig>::empty());
    }
    while i < velems.len()
        invariant
            i <= velems.len(),
            elems@.len() == i,
            registry.wf(),
            registry@.len() >= reg0.len(),
            spec_collect_elems(reg0, vev.subrange(0, i as int), min_size as int) == (
                registry@,
                elems_view(elems@),
            ),
            crate::registry::elems_refs_below(elems_view(elems@), registry@.len() as int),
        decreases velems.len() - i,
    {
        proof {
            assert(vev[i as int] == value_view(velems@[i as int]));
            assert(decreases_to!(velems@ => velems@[i as int]));
        }
        let ghost reg_pre = registry@;
        let ghost ev_pre = elems_view(elems@);
        let t = collect_signatures(&velems[i], registry, min_size, false);
        let ghost prev = elems@;
        elems.push(t);
        proof {
            assert(elems@.drop_last() =~= prev);
            assert(elems@.last() == t);
            assert(elems_view(elems@) == ev_pre.push(type_sig_view(t)));
            let post = vev.subrange(0, i as int + 1);
            assert(post.drop_last() =~= vev.subrange(0, i as int));
            assert(post.last() == vev[i as int]);
            assert(spec_collect_elems(reg0, post, min_size as int) == (
                registry@,
                elems_view(elems@),
            ));
            lemma_elems_refs_below(ev_pre, reg_pre.len() as int);
            crate::registry::lemma_elems_refs_below_mono(
                ev_pre,
                reg_pre.len() as int,
                registry@.len() as int,
            );
            lemma_elems_refs_below(ev_pre, registry@.len() as int);
            lemma_elems_refs_below(elems_view(elems@), registry@.len() as int);
        }
        i += 1;
    }
    proof {
        assert(vev.subrange(0, velems@.len() as int) =~= vev);
    }
    let shape = if sexp {
        ContainerSignature::SExp(elems)
    } else {
        ContainerSignature::List(elems)
    };
    register_shape(shape, registry, min_size, top_level)
}

/// Reduces every top-level value of a run, in order.
#[verifier::loop_isolation(false)]
pub fn collect_all(values: &Vec<Value>, registry: &mut SignatureRegistry, min_size: usize)
    requires
        old(registry).wf(),
    ensures
        final(registry).wf(),
        final(registry)@ == spec_collect_all(
            old(registry)@,
            velems_view(values@),
            min_size as int,
        ),
{
    proof {
        lemma_velems_view(values@);
    }
    let ghost reg0 = registry@;
    let ghost vv = velems_view(values@);
    let mut i: usize = 0;
    proof {
        assert(vv.skip(0) =~= vv);
    }
    while i < values.len()
        invariant
            i <= values.len(),
            registry.wf(),
            spec_collect_all(reg0, vv, min_size as int) == spec_collect_all(
                registry@,
                vv.skip(i as int),
                min_size as int,
            ),
        decreases values.len() - i,
    {
        proof {
            assert(vv.skip(i as int)[0] == vv[i as int]);
            assert(vv[i as int] == value_view(values@[i as int]));
            assert(vv.skip(i as int).drop_first() =~= vv.skip(i as int + 1));
        }
        let _ = collect_signatures(&values[i], registry, min_size, true);
        i += 1;
    }
    proof {
        assert(vv.skip(values@.len() as int) =~= Seq::<SpecValue>::empty());
    }
}

} // verus!
