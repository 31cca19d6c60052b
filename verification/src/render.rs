//! Rendering of shapes as text: `{ name: type, ... }` for records,
//! `[ type, ... ]` for lists, `( type type ... )` for sequences; scalars
//! render as their lowercase tag and a reference as `(#id)`.

use vstd::prelude::*;

use crate::sig::ContainerSignature;
use crate::sig::SpecContainerSig;
use crate::sig::SpecTypeSig;
use crate::sig::TypeSignature;
use crate::sig::elems_view;
use crate::sig::fields_view;
use crate::sig::lemma_elems_view;
use crate::sig::lemma_fields_view;
use crate::sig::type_sig_view;

verus! {

/// The single decimal digit `d` as text.
pub open spec fn spec_digit_str(d: nat) -> Seq<char> {
    if d == 0 {
        "0"@
    } else if d == 1 {
        "1"@
    } else if d == 2 {
        "2"@
    } else if d == 3 {
        "3"@
    } else if d == 4 {
        "4"@
    } else if d == 5 {
        "5"@
    } else if d == 6 {
        "6"@
    } else if d == 7 {
        "7"@
    } else if d == 8 {
        "8"@
    } else {
        "9"@
    }
}

/// The decimal rendering of `n`, most significant digit first.
pub open spec fn spec_digits(n: nat) -> Seq<char>
    decreases n,
{
    if n < 10 {
        spec_digit_str(n)
    } else {
        spec_digits(n / 10) + spec_digit_str(n % 10)
    }
}

pub open spec fn spec_render_type(t: SpecTypeSig) -> Seq<char>
    decreases t,
{
    match t {
        SpecTypeSig::Null => "null"@,
        SpecTypeSig::Bool => "bool"@,
        SpecTypeSig::Int => "int"@,
        SpecTypeSig::Float => "float"@,
        SpecTypeSig::Decimal => "decimal"@,
        SpecTypeSig::Timestamp => "timestamp"@,
        SpecTypeSig::Text => "string"@,
        SpecTypeSig::Symbol => "symbol"@,
        SpecTypeSig::Blob => "blob"@,
        SpecTypeSig::Clob => "clob"@,
        SpecTypeSig::Container(id) => "(#"@ + spec_digits(
            if id >= 0 {
                id as nat
            } else {
                0
            },
        ) + ")"@,
        SpecTypeSig::Verbatim(c) => spec_render_container(c),
    }
}

pub open spec fn spec_render_fields(fields: Seq<(Seq<char>, SpecTypeSig)>) -> Seq<char>
    decreases fields,
{
    if fields.len() == 0 {
        Seq::empty()
    } else if fields.len() == 1 {
        fields[0].0 + ": "@ + spec_render_type(fields[0].1)
    } else {
        spec_render_fields(fields.drop_last()) + ", "@ + fields.last().0 + ": "@
            + spec_render_type(fields.last().1)
    }
}

pub open spec fn spec_render_elems(elems: Seq<SpecTypeSig>, sep: Seq<char>) -> Seq<char>
    decreases elems,
{
    if elems.len() == 0 {
        Seq::empty()
    } else if elems.len() == 1 {
        spec_render_type(elems[0])
    } else {
        spec_render_elems(elems.drop_last(), sep) + sep + spec_render_type(elems.last())
    }
}

pub open spec fn spec_render_container(c: SpecContainerSig) -> Seq<char>
    decreases c,
{
    match c {
        SpecContainerSig::Struct(fields) => "{ "@ + spec_render_fields(fields) + " }"@,
        SpecContainerSig::List(elems) => "[ "@ + spec_render_elems(elems, ", "@) + " ]"@,
        SpecContainerSig::SExp(elems) => "( "@ + spec_render_elems(elems, " "@) + " )"@,
    }
}

/// Appends one decimal digit.
fn push_digit(out: &mut String, d: usize)
    requires
        d < 10,
    ensures
        final(out)@ == old(out)@ + spec_digit_str(d as nat),
{
    if d == 0 {
        out.append("0");
    } else if d == 1 {
        out.append("1");
    } else if d == 2 {
        out.append("2");
    } else if d == 3 {
        out.append("3");
    } else if d == 4 {
        out.append("4");
    } else if d == 5 {
        out.append("5");
    } else if d == 6 {
        out.append("6");
    } else if d == 7 {
        out.append("7");
    } else if d == 8 {
        out.append("8");
    } else {
        out.append("9");
    }
}

/// Appends the decimal rendering of `n`.
fn push_digits(out: &mut String, n: usize)
    ensures
        final(out)@ == old(out)@ + spec_digits(n as nat),
    decreases n,
{
    if n < 10 {
        push_digit(out, n);
    } else {
        let ghost base = out@;
        push_digits(out, n / 10);
        push_digit(out, n % 10);
        proof {
            assert(final(out)@ =~= base + (spec_digits(n as nat / 10) + spec_digit_str(
                n as nat % 10,
            )));
        }
    }
}

impl TypeSignature {
    /// Renders this position shape as text.
    pub fn display(&self) -> (r: String)
        ensures
            r@ == spec_render_type(self@),
    {
        let mut out = String::new();
        self.push_render(&mut out);
        proof {
            assert(Seq::<char>::empty() + spec_render_type(self@) =~= spec_render_type(self@));
        }
        out
    }

    fn push_render(&self, out: &mut String)
        ensures
            final(out)@ == old(out)@ + spec_render_type(self@),
        decreases *self, 0int,
    {
        match self {
            TypeSignature::Null => out.append("null"),
            TypeSignature::Bool => out.append("bool"),
            TypeSignature::Int => out.append("int"),
            TypeSignature::Float => out.append("float"),
            TypeSignature::Decimal => out.append("decimal"),
            TypeSignature::Timestamp => out.append("timestamp"),
            TypeSignature::Text => out.append("string"),
            TypeSignature::Symbol => out.append("symbol"),
            TypeSignature::Blob => out.append("blob"),
            TypeSignature::Clob => out.append("clob"),
            TypeSignature::Container(id) => {
                let ghost base = out@;
                out.append("(#");
                push_digits(out, *id);
                out.append(")");
                proof {
                    assert(final(out)@ =~= base + ("(#"@ + spec_digits(*id as nat) + ")"@));
                }
            },
            TypeSignature::Verbatim(c) => c.push_render(out),
        }
    }
}

impl ContainerSignature {
    /// Renders this container shape as text.
    pub fn display(&self) -> (r: String)
        ensures
            r@ == spec_render_container(self@),
    {
        let mut out = String::new();
        self.push_render(&mut out);
        proof {
            assert(Seq::<char>::empty() + spec_render_container(self@) =~= spec_render_container(
                self@,
            ));
        }
        out
    }

    #[verifier::loop_isolation(false)]
    fn push_render(&self, out: &mut String)
        ensures
            final(out)@ == old(out)@ + spec_render_container(self@),
        decreases *self, 1int,
    {
        match self {
            ContainerSignature::Struct(fields) => {
                proof {
                    lemma_fields_view(fields@);
                }
                let ghost base = out@;
                let ghost fv = fields_view(fields@);
                out.append("{ ");
                let mut i: usize = 0;
                while i < fields.len()
                    invariant
                        i <= fields.len(),
                        out@ == base + "{ "@ + spec_render_fields(fv.subrange(0, i as int)),
                    decreases fields.len() - i,
                {
                    proof {
                        assert(fv[i as int] == (fields@[i as int].0@, type_sig_view(
                            fields@[i as int].1,
                        )));
                        assert(decreases_to!(fields@ => fields@[i as int]));
                    }
                    let ghost pre = out@;
                    if i > 0 {
                        out.append(", ");
                    }
                    out.append(fields[i].0.as_str());
                    out.append(": ");
                    fields[i].1.push_render(out);
                    proof {
                        let post = fv.subrange(0, i as int + 1);
                        assert(post.drop_last() =~= fv.subrange(0, i as int));
                        assert(post.last() == fv[i as int]);
                        if i == 0 {
                            assert(fv.subrange(0, 0) =~= Seq::<(Seq<char>, SpecTypeSig)>::empty());
                            assert(spec_render_fields(fv.subrange(0, 0)) == Seq::<char>::empty());
                            assert(out@ =~= base + "{ "@ + (fv[0].0 + ": "@ + spec_render_type(
                                fv[0].1,
                            )));
                            assert(spec_render_fields(post) == fv[0].0 + ": "@ + spec_render_type(
                                fv[0].1,
                            ));
                            assert(out@ =~= base + "{ "@ + spec_render_fields(post));
                        } else {
                            assert(spec_render_fields(post) == spec_render_fields(
                                fv.subrange(0, i as int),
                            ) + ", "@ + fv[i as int].0 + ": "@ + spec_render_type(fv[i as int].1));
                            assert(out@ =~= base + "{ "@ + spec_render_fields(post));
                        }
                    }
                    i += 1;
                }
                out.append(" }");
                proof {
                    assert(fv.subrange(0, fields@.len() as int) =~= fv);
                    assert(final(out)@ =~= base + ("{ "@ + spec_render_fields(fv) + " }"@));
                }
            },
            ContainerSignature::List(elems) => {
                let ghost base = out@;
                out.append("[ ");
                push_render_elems(elems, out, false);
                out.append(" ]");
                proof {
                    assert(final(out)@ =~= base + ("[ "@ + spec_render_elems(
                        elems_view(elems@),
                        ", "@,
                    ) + " ]"@));
                }
            },
            ContainerSignature::SExp(elems) => {
                let ghost base = out@;
                out.append("( ");
                push_render_elems(elems, out, true);
                out.append(" )");
                proof {
                    assert(final(out)@ =~= base + ("( "@ + spec_render_elems(
                        elems_view(elems@),
                        " "@,
                    ) + " )"@));
                }
            },
        }
    }
}

#[verifier::loop_isolation(false)]
fn push_render_elems(elems: &Vec<TypeSignature>, out: &mut String, sexp: bool)
    ensures
        final(out)@ == old(out)@ + spec_render_elems(
            elems_view(elems@),
            if sexp {
                " "@
            } else {
                ", "@
            },
        ),
    decreases *elems, 0int,
{
    proof {
        lemma_elems_view(elems@);
    }
    let ghost base = out@;
    let ghost ev = elems_view(elems@);
    let ghost sep: Seq<char> = if sexp {
        " "@
    } else {
        ", "@
    };
    let mut i: usize = 0;
    while i < elems.len()
        invariant
            i <= elems.len(),
            out@ == base + spec_render_elems(ev.subrange(0, i as int), sep),
        decreases elems.len() - i,
    {
        proof {
            assert(ev[i as int] == type_sig_view(elems@[i as int]));
            assert(decreases_to!(elems@ => elems@[i as int]));
        }
        if i > 0 {
            if sexp {
                out.append(" ");
            } else {
                out.append(", ");
            }
        }
        elems[i].push_render(out);
        proof {
            let post = ev.subrange(0, i as int + 1);
            assert(post.drop_last() =~= ev.subrange(0, i as int));
            assert(post.last() == ev[i as int]);
            if i == 0 {
                assert(ev.subrange(0, 0) =~= Seq::<SpecTypeSig>::empty());
                assert(spec_render_elems(ev.subrange(0, 0), sep) == Seq::<char>::empty());
                assert(spec_render_elems(post, sep) == spec_render_type(ev[0]));
                assert(out@ =~= base + spec_render_elems(post, sep));
            } else {
                assert(spec_render_elems(post, sep) == spec_render_elems(
                    ev.subrange(0, i as int),
                    sep,
                ) + sep + spec_render_type(ev[i as int]));
                assert(out@ =~= base + spec_render_elems(post, sep));
            }
        }
        i += 1;
    }
    proof {
        assert(ev.subrange(0, elems@.len() as int) =~= ev);
    }
}

} // verus!
