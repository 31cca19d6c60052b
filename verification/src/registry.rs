//! The signature registry: the hash-consing index from canonical container
//! shapes to stable identifiers, with per-shape usage metadata.

use vstd::prelude::*;

use crate::sig::ContainerSignature;
use crate::sig::SignatureId;
use crate::sig::SpecContainerSig;
use crate::sig::SpecTypeSig;
use crate::sig::TypeSignature;
use crate::sig::container_sig_eq;
use crate::sig::elems_view;
use crate::sig::fields_view;
use crate::sig::type_sig_view;

verus! {

/// One registered shape together with its usage metadata. A removed entry
/// keeps its slot (identifiers are never reused) but is marked not `live`.
pub struct SignatureRegistryEntry {
    pub signature: ContainerSignature,
    pub count: usize,
    pub parent_count: usize,
    pub appears_top_level: bool,
    pub live: bool,
}

/// Model of one registry slot.
#[verifier::ext_equal]
pub struct SpecEntry {
    pub signature: SpecContainerSig,
    pub count: nat,
    pub parent_count: nat,
    pub appears_top_level: bool,
    pub live: bool,
}

impl View for SignatureRegistryEntry {
    type V = SpecEntry;

    open spec fn view(&self) -> SpecEntry {
        SpecEntry {
            signature: self.signature@,
            count: self.count as nat,
            parent_count: self.parent_count as nat,
            appears_top_level: self.appears_top_level,
            live: self.live,
        }
    }
}

/// The registry: entry with identifier `i` lives in slot `i`; identifiers
/// are handed out monotonically and never reused.
pub struct SignatureRegistry {
    pub entries: Vec<SignatureRegistryEntry>,
}

impl View for SignatureRegistry {
    type V = Seq<SpecEntry>;

    open spec fn view(&self) -> Seq<SpecEntry> {
        Seq::new(self.entries@.len(), |i: int| self.entries@[i]@)
    }
}

/// All container references in `t` are identifiers strictly below `bound`.
pub open spec fn type_refs_below(t: SpecTypeSig, bound: int) -> bool
    decreases t,
{
    match t {
        SpecTypeSig::Container(id) => 0 <= id < bound,
        SpecTypeSig::Verbatim(c) => container_refs_below(c, bound),
        _ => true,
    }
}

pub open spec fn elems_refs_below(elems: Seq<SpecTypeSig>, bound: int) -> bool
    decreases elems,
{
    if elems.len() == 0 {
        true
    } else {
        elems_refs_below(elems.drop_last(), bound) && type_refs_below(elems.last(), bound)
    }
}

pub open spec fn fields_refs_below(fields: Seq<(Seq<char>, SpecTypeSig)>, bound: int) -> bool
    decreases fields,
{
    if fields.len() == 0 {
        true
    } else {
        fields_refs_below(fields.drop_last(), bound) && type_refs_below(fields.last().1, bound)
    }
}

pub open spec fn container_refs_below(c: SpecContainerSig, bound: int) -> bool
    decreases c,
{
    match c {
        SpecContainerSig::Struct(fields) => fields_refs_below(fields, bound),
        SpecContainerSig::List(elems) => elems_refs_below(elems, bound),
        SpecContainerSig::SExp(elems) => elems_refs_below(elems, bound),
    }
}

pub proof fn lemma_elems_refs_below(elems: Seq<SpecTypeSig>, bound: int)
    ensures
        elems_refs_below(elems, bound) <==> (forall|i: int|
            0 <= i < elems.len() ==> type_refs_below(#[trigger] elems[i], bound)),
    decreases elems.len(),
{
    if elems.len() > 0 {
        lemma_elems_refs_below(elems.drop_last(), bound);
        assert(forall|i: int|
            0 <= i < elems.len() - 1 ==> #[trigger] elems.drop_last()[i] == elems[i]);
        if elems_refs_below(elems, bound) {
            assert forall|i: int| 0 <= i < elems.len() implies type_refs_below(
                #[trigger] elems[i],
                bound,
            ) by {
                if i < elems.len() - 1 {
                    assert(type_refs_below(elems.drop_last()[i], bound));
                } else {
                    assert(elems[i] == elems.last());
                }
            }
        }
        if forall|i: int| 0 <= i < elems.len() ==> type_refs_below(#[trigger] elems[i], bound) {
            assert forall|i: int| 0 <= i < elems.drop_last().len() implies type_refs_below(
                #[trigger] elems.drop_last()[i],
                bound,
            ) by {
                assert(elems.drop_last()[i] == elems[i]);
            }
            assert(type_refs_below(elems.last(), bound));
        }
    }
}

pub proof fn lemma_fields_refs_below(fields: Seq<(Seq<char>, SpecTypeSig)>, bound: int)
    ensures
        fields_refs_below(fields, bound) <==> (forall|i: int|
            0 <= i < fields.len() ==> type_refs_below(#[trigger] fields[i].1, bound)),
    decreases fields.len(),
{
    if fields.len() > 0 {
        lemma_fields_refs_below(fields.drop_last(), bound);
        assert(forall|i: int|
            0 <= i < fields.len() - 1 ==> #[trigger] fields.drop_last()[i] == fields[i]);
        if fields_refs_below(fields, bound) {
            assert forall|i: int| 0 <= i < fields.len() implies type_refs_below(
                #[trigger] fields[i].1,
                bound,
            ) by {
                if i < fields.len() - 1 {
                    assert(type_refs_below(fields.drop_last()[i].1, bound));
                } else {
                    assert(fields[i] == fields.last());
                }
            }
        }
        if forall|i: int|
            0 <= i < fields.len() ==> type_refs_below(#[trigger] fields[i].1, bound) {
            assert forall|i: int| 0 <= i < fields.drop_last().len() implies type_refs_below(
                #[trigger] fields.drop_last()[i].1,
                bound,
            ) by {
                assert(fields.drop_last()[i] == fields[i]);
            }
            assert(type_refs_below(fields.last().1, bound));
        }
    }
}

/// References only grow more permissible as the bound grows.
pub proof fn lemma_type_refs_below_mono(t: SpecTypeSig, b1: int, b2: int)
    requires
        type_refs_below(t, b1),
        b1 <= b2,
    ensures
        type_refs_below(t, b2),
    decreases t,
{
    match t {
        SpecTypeSig::Verbatim(c) => lemma_container_refs_below_mono(c, b1, b2),
        _ => {},
    }
}

pub proof fn lemma_elems_refs_below_mono(elems: Seq<SpecTypeSig>, b1: int, b2: int)
    requires
        elems_refs_below(elems, b1),
        b1 <= b2,
    ensures
        elems_refs_below(elems, b2),
    decreases elems,
{
    if elems.len() > 0 {
        lemma_elems_refs_below_mono(elems.drop_last(), b1, b2);
        lemma_type_refs_below_mono(elems.last(), b1, b2);
    }
}

pub proof fn lemma_fields_refs_below_mono(fields: Seq<(Seq<char>, SpecTypeSig)>, b1: int, b2: int)
    requires
        fields_refs_below(fields, b1),
        b1 <= b2,
    ensures
        fields_refs_below(fields, b2),
    decreases fields,
{
    if fields.len() > 0 {
        lemma_fields_refs_below_mono(fields.drop_last(), b1, b2);
        lemma_type_refs_below_mono(fields.last().1, b1, b2);
    }
}

pub proof fn lemma_container_refs_below_mono(c: SpecContainerSig, b1: int, b2: int)
    requires
        container_refs_below(c, b1),
        b1 <= b2,
    ensures
        container_refs_below(c, b2),
    decreases c,
{
    match c {
        SpecContainerSig::Struct(fields) => lemma_fields_refs_below_mono(fields, b1, b2),
        SpecContainerSig::List(elems) => lemma_elems_refs_below_mono(elems, b1, b2),
        SpecContainerSig::SExp(elems) => lemma_elems_refs_below_mono(elems, b1, b2),
    }
}

/// Registry well-formedness: an entry's shape only references strictly
/// smaller identifiers (shapes are built bottom-up, so the shape graph is
/// acyclic), and no two live entries hold equal shapes (hash-consing).
pub open spec fn reg_wf(reg: Seq<SpecEntry>) -> bool {
    &&& forall|i: int|
        0 <= i < reg.len() ==> container_refs_below(#[trigger] reg[i].signature, i)
    &&& forall|i: int, j: int|
        #![trigger reg[i].signature, reg[j].signature]
        0 <= i < reg.len() && 0 <= j < reg.len() && i != j && reg[i].live && reg[j].live
            ==> reg[i].signature != reg[j].signature
}

/// The identifier of the live entry holding `sig`, if any. Well-formedness
/// makes this entry unique.
pub open spec fn spec_find(reg: Seq<SpecEntry>, sig: SpecContainerSig) -> Option<int> {
    if exists|i: int|
        0 <= i < reg.len() && (#[trigger] reg[i].signature) == sig && reg[i].live {
        Some(
            choose|i: int|
                0 <= i < reg.len() && (#[trigger] reg[i].signature) == sig && reg[i].live,
        )
    } else {
        None
    }
}

/// A counter increment that sticks at the machine maximum instead of
/// wrapping.
pub open spec fn spec_sat_inc(n: nat) -> nat {
    if n < usize::MAX as nat {
        n + 1
    } else {
        n
    }
}

/// The lookup-or-insert transition: on a hit, the occurrence count grows and
/// the top-level flag is or-ed in; on a miss, a fresh entry is appended.
pub open spec fn spec_get_or_create(reg: Seq<SpecEntry>, sig: SpecContainerSig, top: bool) -> (
    Seq<SpecEntry>,
    bool,
    int,
) {
    match spec_find(reg, sig) {
        Some(i) => (
            reg.update(
                i,
                SpecEntry {
                    signature: reg[i].signature,
                    count: spec_sat_inc(reg[i].count),
                    parent_count: reg[i].parent_count,
                    appears_top_level: reg[i].appears_top_level || top,
                    live: reg[i].live,
                },
            ),
            true,
            i,
        ),
        None => (
            reg.push(
                SpecEntry {
                    signature: sig,
                    count: 1,
                    parent_count: 0,
                    appears_top_level: top,
                    live: true,
                },
            ),
            false,
            reg.len() as int,
        ),
    }
}

/// The parent-count bump applied to a child entry when a newly created shape
/// references it.
pub open spec fn spec_bump_parent(reg: Seq<SpecEntry>, id: int) -> Seq<SpecEntry> {
    reg.update(
        id,
        SpecEntry {
            signature: reg[id].signature,
            count: reg[id].count,
            parent_count: spec_sat_inc(reg[id].parent_count),
            appears_top_level: reg[id].appears_top_level,
            live: reg[id].live,
        },
    )
}

impl SignatureRegistry {
    pub open spec fn wf(&self) -> bool {
        reg_wf(self@)
    }

    /// An empty registry.
    pub fn new() -> (r: SignatureRegistry)
        ensures
            r@ =~= Seq::<SpecEntry>::empty(),
            r.wf(),
    {
        SignatureRegistry { entries: Vec::new() }
    }

    /// Number of slots ever allocated (live or removed).
    pub fn slot_count(&self) -> (n: usize)
        ensures
            n == self@.len(),
    {
        self.entries.len()
    }

    /// Looks the canonical shape up in the hash-consing index; on a hit,
    /// bumps the occurrence count and or-s in the top-level flag, returning
    /// `(true, id)`; on a miss, allocates the next identifier for a fresh
    /// entry and returns `(false, id)`.
    #[verifier::loop_isolation(false)]
    pub fn get_or_create_id(&mut self, signature: ContainerSignature, top_level: bool) -> (r: (
        bool,
        SignatureId,
    ))
        requires
            old(self).wf(),
            container_refs_below(signature@, old(self)@.len() as int),
        ensures
            final(self).wf(),
            spec_get_or_create(old(self)@, signature@, top_level) == (
                final(self)@,
                r.0,
                r.1 as int,
            ),
            final(self)@.len() >= old(self)@.len(),
    {
        let ghost reg0 = self@;
        let n = self.entries.len();
        let mut i: usize = 0;
        while i < n
            invariant
                i <= n,
                self == old(self),
                forall|k: int|
                    0 <= k < i ==> !((#[trigger] self@[k].signature) == signature@
                        && self@[k].live),
            decreases n - i,
        {
            if self.entries[i].live && container_sig_eq(&self.entries[i].signature, &signature) {
                proof {
                    assert(reg0[i as int].signature == signature@ && reg0[i as int].live);
                    let j = choose|j: int|
                        0 <= j < reg0.len() && (#[trigger] reg0[j].signature) == signature@
                            && reg0[j].live;
                    assert(j == i as int);
                    assert(spec_find(reg0, signature@) == Some(i as int));
                }
                let old_entry = self.entries.remove(i);
                let c = old_entry.count;
                let new_entry = SignatureRegistryEntry {
                    signature: old_entry.signature,
                    count: if c < usize::MAX {
                        c + 1
                    } else {
                        c
                    },
                    parent_count: old_entry.parent_count,
                    appears_top_level: old_entry.appears_top_level || top_level,
                    live: old_entry.live,
                };
                self.entries.insert(i, new_entry);
                proof {
                    assert(self@ =~= spec_get_or_create(reg0, signature@, top_level).0);
                    assert forall|a: int|
                        0 <= a < self@.len() implies container_refs_below(
                        #[trigger] self@[a].signature,
                        a,
                    ) by {
                        assert(self@[a].signature == reg0[a].signature);
                    }
                }
                return (true, i);
            }
            i += 1;
        }
        proof {
            assert(spec_find(reg0, signature@) is None);
        }
        let id = self.entries.len();
        self.entries.push(
            SignatureRegistryEntry {
                signature,
                count: 1,
                parent_count: 0,
                appears_top_level: top_level,
                live: true,
            },
        );
        proof {
            assert(self@ =~= spec_get_or_create(reg0, signature@, top_level).0);
            assert forall|a: int|
                0 <= a < self@.len() implies container_refs_below(
                #[trigger] self@[a].signature,
                a,
            ) by {
                if a < reg0.len() {
                    assert(self@[a].signature == reg0[a].signature);
                }
            }
        }
        (false, id)
    }

    /// Records that one more structurally distinct, newly created parent
    /// shape references entry `id` as a direct child.
    pub fn increment_parent_count(&mut self, id: SignatureId)
        requires
            old(self).wf(),
            id < old(self)@.len(),
        ensures
            final(self).wf(),
            final(self)@ == spec_bump_parent(old(self)@, id as int),
    {
        let ghost reg0 = self@;
        let old_entry = self.entries.remove(id);
        let pc = old_entry.parent_count;
        let new_entry = SignatureRegistryEntry {
            signature: old_entry.signature,
            count: old_entry.count,
            parent_count: if pc < usize::MAX {
                pc + 1
            } else {
                pc
            },
            appears_top_level: old_entry.appears_top_level,
            live: old_entry.live,
        };
        self.entries.insert(id, new_entry);
        proof {
            assert(self@ =~= spec_bump_parent(reg0, id as int));
            assert forall|a: int|
                0 <= a < self@.len() implies container_refs_below(
                #[trigger] self@[a].signature,
                a,
            ) by {
                assert(self@[a].signature == reg0[a].signature);
            }
        }
    }
}

/// Caps a mathematical size at the machine maximum, the value an executable
/// saturating computation of it yields.
pub open spec fn clamp_usize(n: nat) -> nat {
    if n > usize::MAX as nat {
        usize::MAX as nat
    } else {
        n
    }
}

/// Weight contributed by one position: zero for a scalar, the full size of
/// the referenced or inline shape for a container. References are followed
/// through the registry; `bound` caps which identifiers may be followed,
/// which is what makes this recursion well-founded on an acyclic registry.
pub open spec fn spec_type_size(t: SpecTypeSig, reg: Seq<SpecEntry>, bound: int) -> nat
    decreases bound, t,
{
    match t {
        SpecTypeSig::Container(id) => if 0 <= id < bound && id < reg.len() {
            spec_container_size(reg[id].signature, reg, id)
        } else {
            0
        },
        SpecTypeSig::Verbatim(c) => spec_container_size(c, reg, bound),
        _ => 0,
    }
}

pub open spec fn spec_elems_size(elems: Seq<SpecTypeSig>, reg: Seq<SpecEntry>, bound: int) -> nat
    decreases bound, elems,
{
    if elems.len() == 0 {
        0
    } else {
        spec_elems_size(elems.drop_last(), reg, bound) + spec_type_size(elems.last(), reg, bound)
    }
}

pub open spec fn spec_fields_size(
    fields: Seq<(Seq<char>, SpecTypeSig)>,
    reg: Seq<SpecEntry>,
    bound: int,
) -> nat
    decreases bound, fields,
{
    if fields.len() == 0 {
        0
    } else {
        spec_fields_size(fields.drop_last(), reg, bound) + spec_type_size(
            fields.last().1,
            reg,
            bound,
        )
    }
}

/// Size of a shape: its number of direct children plus the weight of each
/// child, so the size grows with nested container complexity.
pub open spec fn spec_container_size(c: SpecContainerSig, reg: Seq<SpecEntry>, bound: int) -> nat
    decreases bound, c,
{
    match c {
        SpecContainerSig::Struct(fields) => fields.len() + spec_fields_size(fields, reg, bound),
        SpecContainerSig::List(elems) => elems.len() + spec_elems_size(elems, reg, bound),
        SpecContainerSig::SExp(elems) => elems.len() + spec_elems_size(elems, reg, bound),
    }
}

impl TypeSignature {
    /// Weight of this position when counted as a child of some container;
    /// saturates at the machine maximum.
    pub fn container_size(&self, registry: &SignatureRegistry) -> (n: usize)
        requires
            registry.wf(),
            type_refs_below(self@, registry@.len() as int),
        ensures
            n as nat == clamp_usize(spec_type_size(self@, registry@, registry@.len() as int)),
    {
        let bound = registry.entries.len();
        self.container_size_below(registry, bound)
    }

    fn container_size_below(&self, registry: &SignatureRegistry, bound: usize) -> (n: usize)
        requires
            registry.wf(),
            bound <= registry@.len(),
            type_refs_below(self@, bound as int),
        ensures
            n as nat == clamp_usize(spec_type_size(self@, registry@, bound as int)),
        decreases bound, *self,
    {
        match self {
            TypeSignature::Container(id) => {
                proof {
                    assert(container_refs_below(registry@[*id as int].signature, *id as int));
                }
                registry.entries[*id].signature.size_below(registry, *id)
            },
            TypeSignature::Verbatim(c) => c.size_below(registry, bound),
            _ => 0,
        }
    }
}

impl ContainerSignature {
    /// Size of this shape against the current registry: direct child count
    /// plus each child's recursively computed weight; saturates at the
    /// machine maximum.
    pub fn size(&self, registry: &SignatureRegistry) -> (n: usize)
        requires
            registry.wf(),
            container_refs_below(self@, registry@.len() as int),
        ensures
            n as nat == clamp_usize(
                spec_container_size(self@, registry@, registry@.len() as int),
            ),
    {
        let bound = registry.entries.len();
        self.size_below(registry, bound)
    }

    #[verifier::loop_isolation(false)]
    fn size_below(&self, registry: &SignatureRegistry, bound: usize) -> (n: usize)
        requires
            registry.wf(),
            bound <= registry@.len(),
            container_refs_below(self@, bound as int),
        ensures
            n as nat == clamp_usize(spec_container_size(self@, registry@, bound as int)),
        decreases bound, *self,
    {
        match self {
            ContainerSignature::Struct(fields) => {
                proof {
                    crate::sig::lemma_fields_view(fields@);
                    lemma_fields_refs_below(fields_view(fields@), bound as int);
                }
                let mut acc: usize = fields.len();
                let mut i: usize = 0;
                while i < fields.len()
                    invariant
                        i <= fields.len(),
                        acc as nat == clamp_usize(
                            fields@.len() + spec_fields_size(
                                fields_view(fields@).subrange(0, i as int),
                                registry@,
                                bound as int,
                            ),
                        ),
                    decreases fields.len() - i,
                {
                    proof {
                        assert(fields_view(fields@)[i as int] == (
                            fields@[i as int].0@,
                            type_sig_view(fields@[i as int].1),
                        ));
                        assert(fields_view(fields@)[i as int].1 == type_sig_view(
                            fields@[i as int].1,
                        ));
                        assert(type_refs_below(type_sig_view(fields@[i as int].1), bound as int));
                        assert(decreases_to!(fields@ => fields@[i as int]));
                    }
                    let x = fields[i].1.container_size_below(registry, bound);
                    let ghost pre = fields_view(fields@).subrange(0, i as int);
                    acc = if acc <= usize::MAX - x {
                        acc + x
                    } else {
                        usize::MAX
                    };
                    proof {
                        let post = fields_view(fields@).subrange(0, i as int + 1);
                        assert(post.drop_last() =~= pre);
                        assert(post.last() == fields_view(fields@)[i as int]);
                        assert(spec_fields_size(post, registry@, bound as int)
                            == spec_fields_size(pre, registry@, bound as int) + spec_type_size(
                            type_sig_view(fields@[i as int].1),
                            registry@,
                            bound as int,
                        ));
                    }
                    i += 1;
                }
                proof {
                    assert(fields_view(fields@).subrange(0, fields@.len() as int) =~= fields_view(
                        fields@,
                    ));
                    assert(self@ == SpecContainerSig::Struct(fields_view(fields@)));
                    assert(spec_container_size(self@, registry@, bound as int) == fields_view(
                        fields@,
                    ).len() + spec_fields_size(fields_view(fields@), registry@, bound as int));
                }
                acc
            },
            ContainerSignature::List(elems) => {
                proof {
                    crate::sig::lemma_elems_view(elems@);
                }
                elems_size_below(elems, registry, bound)
            },
            ContainerSignature::SExp(elems) => {
                proof {
                    crate::sig::lemma_elems_view(elems@);
                }
                elems_size_below(elems, registry, bound)
            },
        }
    }
}

#[verifier::loop_isolation(false)]
fn elems_size_below(elems: &Vec<TypeSignature>, registry: &SignatureRegistry, bound: usize) -> (n:
    usize)
    requires
        registry.wf(),
        bound <= registry@.len(),
        elems_refs_below(elems_view(elems@), bound as int),
    ensures
        n as nat == clamp_usize(
            elems@.len() + spec_elems_size(elems_view(elems@), registry@, bound as int),
        ),
    decreases bound, *elems,
{
    proof {
        crate::sig::lemma_elems_view(elems@);
        lemma_elems_refs_below(elems_view(elems@), bound as int);
    }
    let mut acc: usize = elems.len();
    let mut i: usize = 0;
    while i < elems.len()
        invariant
            i <= elems.len(),
            acc as nat == clamp_usize(
                elems@.len() + spec_elems_size(
                    elems_view(elems@).subrange(0, i as int),
                    registry@,
                    bound as int,
                ),
            ),
        decreases elems.len() - i,
    {
        proof {
            assert(elems_view(elems@)[i as int] == type_sig_view(elems@[i as int]));
            assert(decreases_to!(elems@ => elems@[i as int]));
        }
        let x = elems[i].container_size_below(registry, bound);
        let ghost pre = elems_view(elems@).subrange(0, i as int);
        acc = if acc <= usize::MAX - x {
            acc + x
        } else {
            usize::MAX
        };
        proof {
            let post = elems_view(elems@).subrange(0, i as int + 1);
            assert(post.drop_last() =~= pre);
            assert(post.last() == elems_view(elems@)[i as int]);
            assert(spec_elems_size(post, registry@, bound as int) == spec_elems_size(
                pre,
                registry@,
                bound as int,
            ) + spec_type_size(type_sig_view(elems@[i as int]), registry@, bound as int));
        }
        i += 1;
    }
    proof {
        assert(elems_view(elems@).subrange(0, elems@.len() as int) =~= elems_view(elems@));
    }
    acc
}

/// One-level replacement in a position shape: a reference to `target`
/// becomes the replacement shape carried inline; everything else is kept.
pub open spec fn spec_replace_type(
    t: SpecTypeSig,
    target: int,
    repl: SpecContainerSig,
) -> SpecTypeSig {
    match t {
        SpecTypeSig::Container(id) => if id == target {
            SpecTypeSig::Verbatim(repl)
        } else {
            t
        },
        _ => t,
    }
}

pub open spec fn spec_replace_fields(
    fields: Seq<(Seq<char>, SpecTypeSig)>,
    target: int,
    repl: SpecContainerSig,
) -> Seq<(Seq<char>, SpecTypeSig)> {
    Seq::new(fields.len(), |i: int| (fields[i].0, spec_replace_type(fields[i].1, target, repl)))
}

pub open spec fn spec_replace_elems(
    elems: Seq<SpecTypeSig>,
    target: int,
    repl: SpecContainerSig,
) -> Seq<SpecTypeSig> {
    Seq::new(elems.len(), |i: int| spec_replace_type(elems[i], target, repl))
}

/// Replaces references to `target` among the direct children of a shape
/// (one level deep only; shapes already carried inline are not re-scanned).
pub open spec fn spec_replace_container(
    c: SpecContainerSig,
    target: int,
    repl: SpecContainerSig,
) -> SpecContainerSig {
    match c {
        SpecContainerSig::Struct(fields) => SpecContainerSig::Struct(
            spec_replace_fields(fields, target, repl),
        ),
        SpecContainerSig::List(elems) => SpecContainerSig::List(
            spec_replace_elems(elems, target, repl),
        ),
        SpecContainerSig::SExp(elems) => SpecContainerSig::SExp(
            spec_replace_elems(elems, target, repl),
        ),
    }
}

/// An entry is folded back into its single parent when exactly one distinct
/// parent shape references it and it never stood at the top level.
pub open spec fn spec_inline_candidate(reg: Seq<SpecEntry>, id: int) -> bool {
    &&& 0 <= id < reg.len()
    &&& reg[id].live
    &&& reg[id].parent_count == 1
    &&& !reg[id].appears_top_level
}

/// The rewrite one inlining step applies to slot `k`.
pub open spec fn spec_inline_step_entry(reg0: Seq<SpecEntry>, id: int, k: int) -> SpecEntry {
    if reg0[k].live {
        SpecEntry {
            signature: spec_replace_container(reg0[k].signature, id, reg0[id].signature),
            count: reg0[k].count,
            parent_count: reg0[k].parent_count,
            appears_top_level: reg0[k].appears_top_level,
            live: reg0[k].live,
        }
    } else {
        reg0[k]
    }
}

/// The registry after the rewrite has been applied to the first `j` slots.
pub open spec fn spec_inline_partial(reg0: Seq<SpecEntry>, id: int, j: int) -> Seq<SpecEntry> {
    Seq::new(
        reg0.len(),
        |k: int|
            if k < j {
                spec_inline_step_entry(reg0, id, k)
            } else {
                reg0[k]
            },
    )
}

/// Inlining one entry: every live entry has its direct references to `id`
/// replaced by the entry's shape carried inline, and the entry itself is
/// removed.
pub open spec fn spec_inline_one(reg: Seq<SpecEntry>, id: int) -> Seq<SpecEntry> {
    let repl = reg[id].signature;
    Seq::new(
        reg.len(),
        |j: int|
            if reg[j].live {
                SpecEntry {
                    signature: spec_replace_container(reg[j].signature, id, repl),
                    count: reg[j].count,
                    parent_count: reg[j].parent_count,
                    appears_top_level: reg[j].appears_top_level,
                    live: j != id,
                }
            } else {
                reg[j]
            },
    )
}

/// The whole post-pass, processing candidate identifiers in ascending
/// order, each one independently.
pub open spec fn spec_inline_from(reg: Seq<SpecEntry>, i: int) -> Seq<SpecEntry>
    decreases reg.len() - i,
{
    if i < 0 || i >= reg.len() {
        reg
    } else {
        let step = if spec_inline_candidate(reg, i) {
            spec_inline_one(reg, i)
        } else {
            reg
        };
        spec_inline_from(step, i + 1)
    }
}

pub open spec fn spec_inline_all(reg: Seq<SpecEntry>) -> Seq<SpecEntry> {
    spec_inline_from(reg, 0)
}

/// Replaces direct references to `target_id` in a shape by the replacement
/// carried inline, one level deep.
#[verifier::loop_isolation(false)]
fn replace_container_refs(
    sig: &ContainerSignature,
    target_id: SignatureId,
    replacement: &ContainerSignature,
) -> (r: ContainerSignature)
    ensures
        r@ == spec_replace_container(sig@, target_id as int, replacement@),
{
    match sig {
        ContainerSignature::Struct(fields) => {
            proof {
                crate::sig::lemma_fields_view(fields@);
            }
            let mut out: Vec<(String, TypeSignature)> = Vec::new();
            let mut i: usize = 0;
            while i < fields.len()
                invariant
                    i <= fields.len(),
                    out@.len() == i,
                    forall|k: int|
                        0 <= k < i ==> #[trigger] fields_view(out@)[k] == spec_replace_fields(
                            fields_view(fields@),
                            target_id as int,
                            replacement@,
                        )[k],
                    fields_view(out@).len() == i,
                decreases fields.len() - i,
            {
                proof {
                    assert(fields_view(fields@)[i as int] == (
                        fields@[i as int].0@,
                        type_sig_view(fields@[i as int].1),
                    ));
                }
                let name = fields[i].0.clone();
                let replaced = replace_one_ref(&fields[i].1, target_id, replacement);
                let ghost prev = out@;
                out.push((name, replaced));
                proof {
                    assert(out@.drop_last() =~= prev);
                    assert(fields_view(out@) == fields_view(prev).push((
                        fields@[i as int].0@,
                        type_sig_view(replaced),
                    )));
                }
                i += 1;
            }
            proof {
                assert(fields_view(out@) =~= spec_replace_fields(
                    fields_view(fields@),
                    target_id as int,
                    replacement@,
                ));
            }
            ContainerSignature::Struct(out)
        },
        ContainerSignature::List(elems) => ContainerSignature::List(
            replace_elem_refs(elems, target_id, replacement),
        ),
        ContainerSignature::SExp(elems) => ContainerSignature::SExp(
            replace_elem_refs(elems, target_id, replacement),
        ),
    }
}

fn replace_one_ref(
    t: &TypeSignature,
    target_id: SignatureId,
    replacement: &ContainerSignature,
) -> (r: TypeSignature)
    ensures
        r@ == spec_replace_type(t@, target_id as int, replacement@),
{
    match t {
        TypeSignature::Container(id) => {
            if *id == target_id {
                TypeSignature::Verbatim(replacement.duplicate())
            } else {
                TypeSignature::Container(*id)
            }
        },
        _ => t.duplicate(),
    }
}

#[verifier::loop_isolation(false)]
fn replace_elem_refs(
    elems: &Vec<TypeSignature>,
    target_id: SignatureId,
    replacement: &ContainerSignature,
) -> (r: Vec<TypeSignature>)
    ensures
        elems_view(r@) == spec_replace_elems(elems_view(elems@), target_id as int, replacement@),
{
    proof {
        crate::sig::lemma_elems_view(elems@);
    }
    let mut out: Vec<TypeSignature> = Vec::new();
    let mut i: usize = 0;
    while i < elems.len()
        invariant
            i <= elems.len(),
            out@.len() == i,
            forall|k: int|
                0 <= k < i ==> #[trigger] elems_view(out@)[k] == spec_replace_elems(
                    elems_view(elems@),
                    target_id as int,
                    replacement@,
                )[k],
            elems_view(out@).len() == i,
        decreases elems.len() - i,
    {
        proof {
            assert(elems_view(elems@)[i as int] == type_sig_view(elems@[i as int]));
        }
        let replaced = replace_one_ref(&elems[i], target_id, replacement);
        let ghost prev = out@;
        out.push(replaced);
        proof {
            assert(out@.drop_last() =~= prev);
            assert(elems_view(out@) == elems_view(prev).push(type_sig_view(replaced)));
        }
        i += 1;
    }
    proof {
        assert(elems_view(out@) =~= spec_replace_elems(
            elems_view(elems@),
            target_id as int,
            replacement@,
        ));
    }
    out
}

impl SignatureRegistry {
    /// Inlines entry `id`: rewrites direct references to it in every live
    /// entry and marks its slot removed.
    #[verifier::loop_isolation(false)]
    fn inline_one(&mut self, id: SignatureId)
        requires
            id < old(self)@.len(),
            old(self)@[id as int].live,
        ensures
            final(self)@ == spec_inline_one(old(self)@, id as int),
            final(self)@.len() == old(self)@.len(),
    {
        let ghost reg0 = self@;
        let replacement = self.entries[id].signature.duplicate();
        let n = self.entries.len();
        let mut j: usize = 0;
        proof {
            assert(self@ =~= spec_inline_partial(reg0, id as int, 0));
        }
        while j < n
            invariant
                j <= n,
                n == self@.len(),
                self@.len() == reg0.len(),
                self@ == spec_inline_partial(reg0, id as int, j as int),
            decreases n - j,
        {
            proof {
                assert(self@[j as int] == reg0[j as int]);
            }
            if self.entries[j].live {
                let new_sig = replace_container_refs(
                    &self.entries[j].signature,
                    id,
                    &replacement,
                );
                let ghost pre_view = self@;
                let old_entry = self.entries.remove(j);
                let new_entry = SignatureRegistryEntry {
                    signature: new_sig,
                    count: old_entry.count,
                    parent_count: old_entry.parent_count,
                    appears_top_level: old_entry.appears_top_level,
                    live: old_entry.live,
                };
                self.entries.insert(j, new_entry);
                proof {
                    assert(self@.len() == pre_view.len());
                    assert(forall|k: int|
                        0 <= k < pre_view.len() && k != j ==> self@[k] == pre_view[k]);
                    assert(self@[j as int] =~= spec_inline_step_entry(reg0, id as int, j as int));
                    assert forall|k: int|
                        0 <= k < self@.len() implies self@[k] == spec_inline_partial(
                        reg0,
                        id as int,
                        j as int + 1,
                    )[k] by {
                        if k != j {
                            assert(self@[k] == pre_view[k]);
                            assert(pre_view[k] == spec_inline_partial(reg0, id as int, j as int)[k]);
                        }
                    }
                    assert(self@ =~= spec_inline_partial(reg0, id as int, j as int + 1));
                }
            } else {
                proof {
                    assert(self@[j as int] =~= spec_inline_step_entry(reg0, id as int, j as int));
                    assert forall|k: int|
                        0 <= k < self@.len() implies self@[k] == spec_inline_partial(
                        reg0,
                        id as int,
                        j as int + 1,
                    )[k] by {
                        assert(self@[k] == spec_inline_partial(reg0, id as int, j as int)[k]);
                    }
                    assert(self@ =~= spec_inline_partial(reg0, id as int, j as int + 1));
                }
            }
            j += 1;
        }
        let ghost pre_final = self@;
        let removed = self.entries.remove(id);
        let dead = SignatureRegistryEntry {
            signature: removed.signature,
            count: removed.count,
            parent_count: removed.parent_count,
            appears_top_level: removed.appears_top_level,
            live: false,
        };
        self.entries.insert(id, dead);
        proof {
            assert(self@.len() == pre_final.len());
            assert(forall|k: int|
                0 <= k < pre_final.len() && k != id ==> self@[k] == pre_final[k]);
            assert(self@[id as int] =~= SpecEntry {
                signature: pre_final[id as int].signature,
                count: pre_final[id as int].count,
                parent_count: pre_final[id as int].parent_count,
                appears_top_level: pre_final[id as int].appears_top_level,
                live: false,
            });
            assert forall|k: int| 0 <= k < self@.len() implies self@[k] == spec_inline_one(
                reg0,
                id as int,
            )[k] by {
                assert(pre_final[k] == spec_inline_step_entry(reg0, id as int, k));
            }
            assert(self@ =~= spec_inline_one(reg0, id as int));
        }
    }

    /// The one-shot post-pass: every entry that exactly one distinct parent
    /// shape references and that never stood at the top level is folded back
    /// into its parent and removed, candidates processed in ascending
    /// identifier order.
    #[verifier::loop_isolation(false)]
    pub fn inline_single_parent_signatures(&mut self)
        ensures
            final(self)@ == spec_inline_all(old(self)@),
            final(self)@.len() == old(self)@.len(),
    {
        let ghost reg0 = self@;
        let n = self.entries.len();
        let mut i: usize = 0;
        while i < n
            invariant
                i <= n,
                n == self@.len(),
                self@.len() == reg0.len(),
                spec_inline_all(reg0) == spec_inline_from(self@, i as int),
            decreases n - i,
        {
            let candidate = self.entries[i].live && self.entries[i].parent_count == 1
                && !self.entries[i].appears_top_level;
            proof {
                assert(candidate == spec_inline_candidate(self@, i as int));
            }
            if candidate {
                self.inline_one(i);
            }
            i += 1;
        }
    }
}

/// Model of a sequence of report rows: (identifier, rendered shape,
/// occurrence count).
pub open spec fn report_view(rows: Seq<(usize, String, usize)>) -> Seq<(int, Seq<char>, nat)>
    decreases rows,
{
    if rows.len() == 0 {
        Seq::empty()
    } else {
        report_view(rows.drop_last()).push(
            (rows.last().0 as int, rows.last().1@, rows.last().2 as nat),
        )
    }
}

pub proof fn lemma_report_view(rows: Seq<(usize, String, usize)>)
    ensures
        report_view(rows).len() == rows.len(),
        forall|i: int|
            0 <= i < rows.len() ==> #[trigger] report_view(rows)[i] == (
            rows[i].0 as int,
            rows[i].1@,
            rows[i].2 as nat,
            ),
    decreases rows.len(),
{
    if rows.len() > 0 {
        lemma_report_view(rows.drop_last());
    }
}

/// The rows of the live entries with identifiers below `i`, ascending.
pub open spec fn spec_live_rows(reg: Seq<SpecEntry>, i: int) -> Seq<(int, Seq<char>, nat)>
    decreases i,
{
    if i <= 0 {
        Seq::empty()
    } else {
        let rest = spec_live_rows(reg, i - 1);
        if 0 <= i - 1 < reg.len() && reg[i - 1].live {
            rest.push(
                (i - 1, crate::render::spec_render_container(reg[i - 1].signature), reg[i
                    - 1].count),
            )
        } else {
            rest
        }
    }
}

/// Inserts a row after every row whose count is at least its own, so the
/// report is ordered by descending count and rows with equal counts keep
/// ascending identifier order.
pub open spec fn spec_insert_row(
    sorted: Seq<(int, Seq<char>, nat)>,
    row: (int, Seq<char>, nat),
) -> Seq<(int, Seq<char>, nat)>
    decreases sorted.len(),
{
    if sorted.len() == 0 {
        seq![row]
    } else if sorted.last().2 >= row.2 {
        sorted.push(row)
    } else {
        spec_insert_row(sorted.drop_last(), row).push(sorted.last())
    }
}

pub open spec fn spec_sort_rows(rows: Seq<(int, Seq<char>, nat)>) -> Seq<(int, Seq<char>, nat)>
    decreases rows.len(),
{
    if rows.len() == 0 {
        Seq::empty()
    } else {
        spec_insert_row(spec_sort_rows(rows.drop_last()), rows.last())
    }
}

/// The report of a run: every remaining entry's row, by descending count.
pub open spec fn spec_report(reg: Seq<SpecEntry>) -> Seq<(int, Seq<char>, nat)> {
    spec_sort_rows(spec_live_rows(reg, reg.len() as int))
}

fn insert_row(sorted: Vec<(usize, String, usize)>, row: (usize, String, usize)) -> (r: Vec<
    (usize, String, usize),
>)
    ensures
        report_view(r@) == spec_insert_row(
            report_view(sorted@),
            (row.0 as int, row.1@, row.2 as nat),
        ),
    decreases sorted@.len(),
{
    proof {
        lemma_report_view(sorted@);
    }
    let mut s = sorted;
    if s.len() == 0 {
        let mut r: Vec<(usize, String, usize)> = Vec::new();
        r.push(row);
        proof {
            lemma_report_view(r@);
            assert(r@[0] == row);
            assert(report_view(r@) =~= seq![(row.0 as int, row.1@, row.2 as nat)]);
        }
        return r;
    }
    let lastpos = s.len() - 1;
    if s[lastpos].2 >= row.2 {
        proof {
            assert(report_view(s@).last() == (
                s@.last().0 as int,
                s@.last().1@,
                s@.last().2 as nat,
            ));
        }
        let ghost pre = s@;
        s.push(row);
        proof {
            assert(s@.drop_last() =~= pre);
            assert(s@.last() == row);
            assert(report_view(s@) == report_view(pre).push(
                (row.0 as int, row.1@, row.2 as nat),
            ));
        }
        s
    } else {
        proof {
            assert(report_view(s@).last() == (
                s@.last().0 as int,
                s@.last().1@,
                s@.last().2 as nat,
            ));
        }
        let ghost orig = s@;
        let last = s.pop().unwrap();
        proof {
            assert(report_view(orig).drop_last() =~= report_view(orig.drop_last()));
        }
        let mut r = insert_row(s, row);
        let ghost mid = r@;
        r.push(last);
        proof {
            assert(r@.drop_last() =~= mid);
            assert(r@.last() == last);
            assert(last == orig.last());
            assert(report_view(r@) == report_view(mid).push((
                orig.last().0 as int,
                orig.last().1@,
                orig.last().2 as nat,
            )));
        }
        r
    }
}

fn sort_rows(rows: Vec<(usize, String, usize)>) -> (r: Vec<(usize, String, usize)>)
    ensures
        report_view(r@) == spec_sort_rows(report_view(rows@)),
    decreases rows@.len(),
{
    proof {
        lemma_report_view(rows@);
    }
    let mut s = rows;
    if s.len() == 0 {
        proof {
            assert(report_view(s@) =~= Seq::<(int, Seq<char>, nat)>::empty());
        }
        return s;
    }
    let ghost orig = s@;
    let last = s.pop().unwrap();
    let sorted = sort_rows(s);
    proof {
        assert(report_view(orig).drop_last() =~= report_view(orig.drop_last()));
        assert(report_view(orig).last() == (last.0 as int, last.1@, last.2 as nat));
    }
    insert_row(sorted, last)
}

impl SignatureRegistry {
    /// The report of a finished run: one row `(id, rendered shape,
    /// occurrence count)` for every remaining entry, ordered by descending
    /// occurrence count; rows with equal counts keep ascending identifier
    /// order.
    #[verifier::loop_isolation(false)]
    pub fn report(&self) -> (r: Vec<(usize, String, usize)>)
        ensures
            report_view(r@) == spec_report(self@),
    {
        let mut rows: Vec<(usize, String, usize)> = Vec::new();
        let mut i: usize = 0;
        let n = self.entries.len();
        proof {
            assert(report_view(rows@) =~= spec_live_rows(self@, 0));
        }
        while i < n
            invariant
                i <= n,
                n == self@.len(),
                report_view(rows@) == spec_live_rows(self@, i as int),
            decreases n - i,
        {
            if self.entries[i].live {
                let rendered = self.entries[i].signature.display();
                let count = self.entries[i].count;
                let ghost prev = rows@;
                rows.push((i, rendered, count));
                proof {
                    assert(rows@.drop_last() =~= prev);
                    assert(report_view(rows@) == report_view(prev).push((
                        i as int,
                        crate::render::spec_render_container(self@[i as int].signature),
                        self@[i as int].count,
                    )));
                }
            }
            i += 1;
        }
        sort_rows(rows)
    }
}

} // verus!
