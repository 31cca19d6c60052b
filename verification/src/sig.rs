//! The signature data model: the shape of a single position
//! ([`TypeSignature`]) and the canonical shape of a container
//! ([`ContainerSignature`]), together with their mathematical models.

use vstd::prelude::*;

verus! {

/// Stable identifier of a registered container signature.
pub type SignatureId = usize;

/// Shape of one position (a record field, a list element, or a top-level
/// value): a scalar category, a reference to a registered container
/// signature, or a container shape carried inline by value.
pub enum TypeSignature {
    Null,
    Bool,
    Int,
    Float,
    Decimal,
    Timestamp,
    Text,
    Symbol,
    Blob,
    Clob,
    Container(SignatureId),
    Verbatim(ContainerSignature),
}

/// Canonical shape of a container value. Record fields are kept sorted by
/// field name; list and s-expression elements keep their source order.
pub enum ContainerSignature {
    Struct(Vec<(String, TypeSignature)>),
    List(Vec<TypeSignature>),
    SExp(Vec<TypeSignature>),
}

/// Mathematical model of a [`TypeSignature`].
pub enum SpecTypeSig {
    Null,
    Bool,
    Int,
    Float,
    Decimal,
    Timestamp,
    Text,
    Symbol,
    Blob,
    Clob,
    Container(int),
    Verbatim(SpecContainerSig),
}

/// Mathematical model of a [`ContainerSignature`].
pub enum SpecContainerSig {
    Struct(Seq<(Seq<char>, SpecTypeSig)>),
    List(Seq<SpecTypeSig>),
    SExp(Seq<SpecTypeSig>),
}

pub open spec fn type_sig_view(t: TypeSignature) -> SpecTypeSig
    decreases t,
{
    match t {
        TypeSignature::Null => SpecTypeSig::Null,
        TypeSignature::Bool => SpecTypeSig::Bool,
        TypeSignature::Int => SpecTypeSig::Int,
        TypeSignature::Float => SpecTypeSig::Float,
        TypeSignature::Decimal => SpecTypeSig::Decimal,
        TypeSignature::Timestamp => SpecTypeSig::Timestamp,
        TypeSignature::Text => SpecTypeSig::Text,
        TypeSignature::Symbol => SpecTypeSig::Symbol,
        TypeSignature::Blob => SpecTypeSig::Blob,
        TypeSignature::Clob => SpecTypeSig::Clob,
        TypeSignature::Container(id) => SpecTypeSig::Container(id as int),
        TypeSignature::Verbatim(c) => SpecTypeSig::Verbatim(container_sig_view(c)),
    }
}

pub open spec fn fields_view(fields: Seq<(String, TypeSignature)>) -> Seq<(Seq<char>, SpecTypeSig)>
    decreases fields,
{
    if fields.len() == 0 {
        Seq::empty()
    } else {
        fields_view(fields.drop_last()).push(
            (fields.last().0@, type_sig_view(fields.last().1)),
        )
    }
}

pub open spec fn elems_view(elems: Seq<TypeSignature>) -> Seq<SpecTypeSig>
    decreases elems,
{
    if elems.len() == 0 {
        Seq::empty()
    } else {
        elems_view(elems.drop_last()).push(type_sig_view(elems.last()))
    }
}

pub open spec fn container_sig_view(c: ContainerSignature) -> SpecContainerSig
    decreases c,
{
    match c {
        ContainerSignature::Struct(fields) => SpecContainerSig::Struct(fields_view(fields@)),
        ContainerSignature::List(elems) => SpecContainerSig::List(elems_view(elems@)),
        ContainerSignature::SExp(elems) => SpecContainerSig::SExp(elems_view(elems@)),
    }
}

impl View for TypeSignature {
    type V = SpecTypeSig;

    open spec fn view(&self) -> SpecTypeSig {
        type_sig_view(*self)
    }
}

impl View for ContainerSignature {
    type V = SpecContainerSig;

    open spec fn view(&self) -> SpecContainerSig {
        container_sig_view(*self)
    }
}

/// `fields_view` maps the field list pointwise.
pub proof fn lemma_fields_view(fields: Seq<(String, TypeSignature)>)
    ensures
        fields_view(fields).len() == fields.len(),
        forall|i: int|
            0 <= i < fields.len() ==> #[trigger] fields_view(fields)[i] == (
            fields[i].0@,
            type_sig_view(fields[i].1),
            ),
    decreases fields.len(),
{
    if fields.len() > 0 {
        lemma_fields_view(fields.drop_last());
    }
}

/// `elems_view` maps the element list pointwise.
pub proof fn lemma_elems_view(elems: Seq<TypeSignature>)
    ensures
        elems_view(elems).len() == elems.len(),
        forall|i: int|
            0 <= i < elems.len() ==> #[trigger] elems_view(elems)[i] == type_sig_view(elems[i]),
    decreases elems.len(),
{
    if elems.len() > 0 {
        lemma_elems_view(elems.drop_last());
    }
}

/// Deep structural equality of two position shapes, the equality that the
/// hash-consing index is keyed by.
pub fn type_sig_eq(a: &TypeSignature, b: &TypeSignature) -> (r: bool)
    ensures
        r == (a@ == b@),
    decreases *a,
{
    match (a, b) {
        (TypeSignature::Null, TypeSignature::Null) => true,
        (TypeSignature::Bool, TypeSignature::Bool) => true,
        (TypeSignature::Int, TypeSignature::Int) => true,
        (TypeSignature::Float, TypeSignature::Float) => true,
        (TypeSignature::Decimal, TypeSignature::Decimal) => true,
        (TypeSignature::Timestamp, TypeSignature::Timestamp) => true,
        (TypeSignature::Text, TypeSignature::Text) => true,
        (TypeSignature::Symbol, TypeSignature::Symbol) => true,
        (TypeSignature::Blob, TypeSignature::Blob) => true,
        (TypeSignature::Clob, TypeSignature::Clob) => true,
        (TypeSignature::Container(x), TypeSignature::Container(y)) => x == y,
        (TypeSignature::Verbatim(c), TypeSignature::Verbatim(d)) => container_sig_eq(c, d),
        _ => false,
    }
}

/// Deep structural equality of two container shapes.
#[verifier::loop_isolation(false)]
pub fn container_sig_eq(a: &ContainerSignature, b: &ContainerSignature) -> (r: bool)
    ensures
        r == (a@ == b@),
    decreases *a,
{
    match (a, b) {
        (ContainerSignature::Struct(fa), ContainerSignature::Struct(fb)) => {
            proof {
                lemma_fields_view(fa@);
                lemma_fields_view(fb@);
            }
            if fa.len() != fb.len() {
                return false;
            }
            let mut i: usize = 0;
            while i < fa.len()
                invariant
                    i <= fa.len(),
                    fa.len() == fb.len(),
                    fields_view(fa@).len() == fa@.len(),
                    fields_view(fb@).len() == fb@.len(),
                    forall|k: int|
                        0 <= k < fa.len() ==> #[trigger] fields_view(fa@)[k] == (
                        fa@[k].0@,
                        type_sig_view(fa@[k].1),
                        ),
                    forall|k: int|
                        0 <= k < fb.len() ==> #[trigger] fields_view(fb@)[k] == (
                        fb@[k].0@,
                        type_sig_view(fb@[k].1),
                        ),
                    forall|k: int| 0 <= k < i ==> fields_view(fa@)[k] == fields_view(fb@)[k],
                decreases fa.len() - i,
            {
                proof {
                    assert(fields_view(fa@)[i as int] == (
                        fa@[i as int].0@,
                        type_sig_view(fa@[i as int].1),
                    ));
                    assert(fields_view(fb@)[i as int] == (
                        fb@[i as int].0@,
                        type_sig_view(fb@[i as int].1),
                    ));
                    assert(decreases_to!(fa@ => fa@[i as int]));
                }
                if !fa[i].0.eq(&fb[i].0) {
                    return false;
                }
                if !type_sig_eq(&fa[i].1, &fb[i].1) {
                    return false;
                }
                i += 1;
            }
            proof {
                assert(fields_view(fa@) =~= fields_view(fb@));
            }
            true
        },
        (ContainerSignature::List(ea), ContainerSignature::List(eb)) => elems_eq(ea, eb),
        (ContainerSignature::SExp(ea), ContainerSignature::SExp(eb)) => elems_eq(ea, eb),
        _ => false,
    }
}

/// Elementwise structural equality of two shape lists.
#[verifier::loop_isolation(false)]
fn elems_eq(ea: &Vec<TypeSignature>, eb: &Vec<TypeSignature>) -> (r: bool)
    ensures
        r == (elems_view(ea@) == elems_view(eb@)),
    decreases *ea,
{
    proof {
        lemma_elems_view(ea@);
        lemma_elems_view(eb@);
    }
    if ea.len() != eb.len() {
        return false;
    }
    let mut i: usize = 0;
    while i < ea.len()
        invariant
            i <= ea.len(),
            ea.len() == eb.len(),
            elems_view(ea@).len() == ea@.len(),
            elems_view(eb@).len() == eb@.len(),
            forall|k: int|
                0 <= k < ea.len() ==> #[trigger] elems_view(ea@)[k] == type_sig_view(ea@[k]),
            forall|k: int|
                0 <= k < eb.len() ==> #[trigger] elems_view(eb@)[k] == type_sig_view(eb@[k]),
            forall|k: int| 0 <= k < i ==> elems_view(ea@)[k] == elems_view(eb@)[k],
        decreases ea.len() - i,
    {
        proof {
            assert(elems_view(ea@)[i as int] == type_sig_view(ea@[i as int]));
            assert(elems_view(eb@)[i as int] == type_sig_view(eb@[i as int]));
            assert(decreases_to!(ea@ => ea@[i as int]));
        }
        if !type_sig_eq(&ea[i], &eb[i]) {
            return false;
        }
        i += 1;
    }
    proof {
        assert(elems_view(ea@) =~= elems_view(eb@));
    }
    true
}

impl TypeSignature {
    /// A structurally equal copy of this shape.
    pub fn duplicate(&self) -> (r: TypeSignature)
        ensures
            r@ == self@,
        decreases *self,
    {
        match self {
            TypeSignature::Null => TypeSignature::Null,
            TypeSignature::Bool => TypeSignature::Bool,
            TypeSignature::Int => TypeSignature::Int,
            TypeSignature::Float => TypeSignature::Float,
            TypeSignature::Decimal => TypeSignature::Decimal,
            TypeSignature::Timestamp => TypeSignature::Timestamp,
            TypeSignature::Text => TypeSignature::Text,
            TypeSignature::Symbol => TypeSignature::Symbol,
            TypeSignature::Blob => TypeSignature::Blob,
            TypeSignature::Clob => TypeSignature::Clob,
            TypeSignature::Container(id) => TypeSignature::Container(*id),
            TypeSignature::Verbatim(c) => TypeSignature::Verbatim(c.duplicate()),
        }
    }
}

impl ContainerSignature {
    /// A structurally equal copy of this shape.
    #[verifier::loop_isolation(false)]
    pub fn duplicate(&self) -> (r: ContainerSignature)
        ensures
            r@ == self@,
        decreases *self,
    {
        match self {
            ContainerSignature::Struct(fields) => {
                let mut out: Vec<(String, TypeSignature)> = Vec::new();
                let mut i: usize = 0;
                proof {
                    lemma_fields_view(fields@);
                }
                while i < fields.len()
                    invariant
                        i <= fields.len(),
                        out@.len() == i,
                        fields_view(fields@).len() == fields@.len(),
                        forall|k: int|
                            0 <= k < fields.len() ==> #[trigger] fields_view(fields@)[k] == (
                            fields@[k].0@,
                            type_sig_view(fields@[k].1),
                            ),
                        fields_view(out@) == fields_view(fields@).subrange(0, i as int),
                    decreases fields.len() - i,
                {
                    proof {
                        assert(fields_view(fields@)[i as int] == (
                            fields@[i as int].0@,
                            type_sig_view(fields@[i as int].1),
                        ));
                        assert(decreases_to!(fields@ => fields@[i as int]));
                    }
                    let ghost prev = out@;
                    let name = fields[i].0.clone();
                    let ty = fields[i].1.duplicate();
                    out.push((name, ty));
                    proof {
                        assert(out@.drop_last() =~= prev);
                        assert(fields_view(out@) == fields_view(prev).push((
                            out@.last().0@,
                            type_sig_view(out@.last().1),
                        )));
                        assert(fields_view(out@) =~= fields_view(fields@).subrange(
                            0,
                            i as int + 1,
                        ));
                    }
                    i += 1;
                }
                proof {
                    assert(fields_view(out@) =~= fields_view(fields@));
                }
                ContainerSignature::Struct(out)
            },
            ContainerSignature::List(elems) => ContainerSignature::List(duplicate_elems(elems)),
            ContainerSignature::SExp(elems) => ContainerSignature::SExp(duplicate_elems(elems)),
        }
    }
}

/// A structurally equal copy of a shape list.
#[verifier::loop_isolation(false)]
fn duplicate_elems(elems: &Vec<TypeSignature>) -> (r: Vec<TypeSignature>)
    ensures
        elems_view(r@) == elems_view(elems@),
    decreases *elems,
{
    let mut out: Vec<TypeSignature> = Vec::new();
    let mut i: usize = 0;
    proof {
        lemma_elems_view(elems@);
    }
    while i < elems.len()
        invariant
            i <= elems.len(),
            out@.len() == i,
            elems_view(elems@).len() == elems@.len(),
            forall|k: int|
                0 <= k < elems.len() ==> #[trigger] elems_view(elems@)[k] == type_sig_view(
                    elems@[k],
                ),
            elems_view(out@) == elems_view(elems@).subrange(0, i as int),
        decreases elems.len() - i,
    {
        proof {
            assert(elems_view(elems@)[i as int] == type_sig_view(elems@[i as int]));
            assert(decreases_to!(elems@ => elems@[i as int]));
        }
        let ghost prev = out@;
        out.push(elems[i].duplicate());
        proof {
            assert(out@.drop_last() =~= prev);
            assert(elems_view(out@) == elems_view(prev).push(type_sig_view(out@.last())));
            assert(elems_view(out@) =~= elems_view(elems@).subrange(0, i as int + 1));
        }
        i += 1;
    }
    proof {
        assert(elems_view(out@) =~= elems_view(elems@));
    }
    out
}

} // verus!
