//! Where the parts of a value lie.

use vstd::prelude::*;

use crate::ast::{
    EnumDeclView, EnumVariantView, StructDeclView, StructFieldView, TypeDeclView, TypeView,
};
use crate::layout;
use crate::table;
use crate::types::InstanceView;

verus! {

pub type Types = Seq<(Seq<char>, TypeDeclView)>;

/// The end of the field before position `k`.
pub open spec fn end_before(
    types: Types,
    fields: Seq<StructFieldView>,
    offsets: Seq<nat>,
    fuel: nat,
    k: int,
) -> nat {
    if k == 0 {
        0
    } else {
        let (s, _) = layout::layout(types, fields[k - 1].ty, fuel)->0;
        offsets[k - 1] + s as nat
    }
}

/// Each of the first `n` fields starts at a multiple of its alignment, behind
/// the field before it, with no more room between them than that takes.
pub open spec fn laid_out(
    types: Types,
    fields: Seq<StructFieldView>,
    offsets: Seq<nat>,
    fuel: nat,
    n: nat,
) -> bool {
    &&& offsets.len() == n
    &&& forall|k: int|
        0 <= k < n ==> placed_at(types, fields, offsets, fuel, k, #[trigger] offsets[k])
}

pub open spec fn placed_at(
    types: Types,
    fields: Seq<StructFieldView>,
    offsets: Seq<nat>,
    fuel: nat,
    k: int,
    at: nat,
) -> bool {
    layout::layout(types, fields[k].ty, fuel) matches Some((_, a)) && a > 0 && at % (a as nat) == 0
        && end_before(types, fields, offsets, fuel, k) <= at < end_before(
        types,
        fields,
        offsets,
        fuel,
        k,
    ) + a
}

/// Fields lie one behind the other in order, each aligned; the size is where
/// the last one ends, and the alignment is the largest of theirs.
pub proof fn lemma_fields(
    types: Types,
    fields: Seq<StructFieldView>,
    n: nat,
    fuel: nat,
) -> (offsets: Seq<nat>)
    requires
        n <= fields.len(),
    ensures
        match layout::fields_layout(types, fields, n, fuel) {
            Some((size, align)) => laid_out(types, fields, offsets, fuel, n) && size as nat
                == end_before(types, fields, offsets, fuel, n as int) && forall|k: int|
                0 <= k < n ==> (layout::layout(types, (#[trigger] fields[k]).ty, fuel) matches Some(
                    (_, a),
                ) && a <= align),
            None => true,
        },
    decreases n,
{
    if n == 0 {
        Seq::empty()
    } else {
        let most = lemma_fields(types, fields, (n - 1) as nat, fuel);
        match (
            layout::fields_layout(types, fields, (n - 1) as nat, fuel),
            layout::fields_layout(types, fields, n, fuel),
        ) {
            (Some((size, _)), Some(_)) => {
                let (s, a) = layout::layout(types, fields[n - 1].ty, fuel)->0;
                layout::lemma_align_positive(types, fields[n - 1].ty, fuel);
                layout::lemma_aligned(size as nat, a as nat);
                let at = layout::aligned(size as nat, a as nat);
                let offsets = most.push(at);
                assert forall|k: int| 0 <= k <= n - 1 implies end_before(
                    types,
                    fields,
                    most,
                    fuel,
                    k,
                ) == #[trigger] end_before(types, fields, offsets, fuel, k) by {}
                assert forall|k: int| 0 <= k < n implies placed_at(
                    types,
                    fields,
                    offsets,
                    fuel,
                    k,
                    #[trigger] offsets[k],
                ) by {
                    assert(end_before(types, fields, most, fuel, k) == end_before(
                        types,
                        fields,
                        offsets,
                        fuel,
                        k,
                    ));
                    if k < n - 1 {
                        assert(offsets[k] == most[k]);
                        assert(placed_at(types, fields, most, fuel, k, most[k]));
                    }
                }
                offsets
            },
            _ => most,
        }
    }
}

/// Every payload fits in the room for payloads, which is no larger than the
/// largest of them.
pub proof fn lemma_payloads(types: Types, vs: Seq<EnumVariantView>, n: nat, fuel: nat)
    requires
        n <= vs.len(),
    ensures
        match layout::payloads_layout(types, vs, n, fuel) {
            Some((size, align)) => {
                &&& forall|k: int|
                    0 <= k < n ==> (layout::layout(types, (#[trigger] vs[k]).ty, fuel) matches Some(
                        (s, a),
                    ) && s <= size && a <= align)
                &&& align >= 2
                &&& size == 0 || exists|k: int|
                    0 <= k < n && (layout::layout(
                        types,
                        (#[trigger] vs[k]).ty,
                        fuel,
                    ) matches Some((s, _)) && s == size)
                &&& align == 2 || exists|k: int|
                    0 <= k < n && (layout::layout(
                        types,
                        (#[trigger] vs[k]).ty,
                        fuel,
                    ) matches Some((_, a)) && a == align)
            },
            None => true,
        },
    decreases n,
{
    if n > 0 {
        lemma_payloads(types, vs, (n - 1) as nat, fuel);
        assert(vs[n - 1] == vs[n - 1]);
        match layout::payloads_layout(types, vs, (n - 1) as nat, fuel) {
            Some((size, align)) => {
                match layout::layout(types, vs[n - 1].ty, fuel) {
                    Some((s, a)) => {
                        if s < size {
                            let k = choose|k: int|
                                0 <= k < n - 1 && (layout::layout(
                                    types,
                                    (#[trigger] vs[k]).ty,
                                    fuel,
                                ) matches Some((x, _)) && x == size);
                            assert(vs[k] == vs[k]);
                        }
                    },
                    None => {},
                }
            },
            None => {},
        }
    }
}

/// A declared struct ends behind its last field, at a multiple of its
/// alignment, with less room to spare than its alignment.
pub proof fn lemma_struct(types: Types, inst: InstanceView, s: StructDeclView, fuel: nat) -> (offsets:
    Seq<nat>)
    requires
        fuel > 0,
        inst.type_args.len() == 0,
        table::lookup(types, inst.name) == Some(TypeDeclView::Struct(s)),
    ensures
        match layout::layout(types, TypeView::Custom(inst), fuel) {
            Some((total, align)) => {
                let inner = (fuel - 1) as nat;
                let end = end_before(types, s.fields, offsets, inner, s.fields.len() as int);
                &&& laid_out(types, s.fields, offsets, inner, s.fields.len())
                &&& align > 0
                &&& total as nat % (align as nat) == 0
                &&& end <= total < end + align
            },
            None => true,
        },
{
    let inner = (fuel - 1) as nat;
    let offsets = lemma_fields(types, s.fields, s.fields.len(), inner);
    match layout::fields_layout(types, s.fields, s.fields.len(), inner) {
        Some((size, align)) => {
            layout::lemma_align_positive(types, TypeView::Custom(inst), fuel);
            if align > 0 {
                layout::lemma_aligned(size as nat, align as nat);
            }
        },
        None => {},
    }
    offsets
}

/// In a declared enum every payload lies behind the number of the variant, at
/// a multiple of the alignment of the enum, and ends within the enum.
pub proof fn lemma_enum(types: Types, inst: InstanceView, e: EnumDeclView, fuel: nat, k: int)
    requires
        fuel > 0,
        inst.type_args.len() == 0,
        table::lookup(types, inst.name) == Some(TypeDeclView::Enum(e)),
        0 <= k < e.variants.len(),
    ensures
        match layout::layout(types, TypeView::Custom(inst), fuel) {
            Some((total, align)) => {
                let start = layout::aligned(2, align as nat);
                &&& align >= 2
                &&& start >= 2
                &&& start % (align as nat) == 0
                &&& layout::layout(types, e.variants[k].ty, (fuel - 1) as nat) matches Some((s, _))
                    && start + s as nat <= total
                &&& total as nat % (align as nat) == 0
            },
            None => true,
        },
{
    let inner = (fuel - 1) as nat;
    lemma_payloads(types, e.variants, e.variants.len(), inner);
    assert(e.variants[k] == e.variants[k]);
    match layout::payloads_layout(types, e.variants, e.variants.len(), inner) {
        Some((size, align)) => {
            layout::lemma_aligned(2, align as nat);
            layout::lemma_aligned(
                layout::aligned(2, align as nat) + size as nat,
                align as nat,
            );
        },
        None => {},
    }
}

} // verus!
