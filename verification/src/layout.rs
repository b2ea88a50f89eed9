//! Size and alignment of types.
//!
//! Scalars have the alignment of their size, references and function types
//! the size of a pointer. A struct places its fields in order, each at the
//! next multiple of its alignment, and is padded to its own alignment. An
//! enum has a two-byte discriminant, then the largest payload at the
//! alignment of the enum.

use vstd::prelude::*;

use crate::ast::{
    EnumDecl, EnumVariant, EnumVariantView, FloatTy, StructField, StructFieldView, Type, TypeDecl,
    TypeDeclView, TypeKind, TypeView,
};
use crate::common;
use crate::env::{IndexedProgram, IndexedView};
use crate::table;
use crate::table::Table;

verus! {

/// The smallest multiple of `a` that is at least `x`.
pub open spec fn aligned(x: nat, a: nat) -> nat {
    ((x + a - 1) / a as int * a) as nat
}

/// Rounding up gives a multiple, at least `x` and less than `x + a`.
pub proof fn lemma_aligned(x: nat, a: nat)
    requires
        a > 0,
    ensures
        x <= aligned(x, a) < x + a,
        aligned(x, a) % a == 0,
{
    let y = (x + a - 1) as int;
    let q = y / a as int;
    vstd::arithmetic::div_mod::lemma_fundamental_div_mod(y, a as int);
    vstd::arithmetic::div_mod::lemma_mod_bound(y, a as int);
    vstd::arithmetic::mul::lemma_mul_is_commutative(q, a as int);
    vstd::arithmetic::div_mod::lemma_div_pos_is_pos(y, a as int);
    vstd::arithmetic::div_mod::lemma_mod_multiples_basic(q, a as int);
}

/// The value, if it fits in 64 bits.
pub open spec fn fits(n: nat) -> Option<u64> {
    if n <= u64::MAX {
        Some(n as u64)
    } else {
        None
    }
}

/// Size and alignment.
pub type Layout = (u64, u64);

/// Size so far and alignment so far of the first `n` fields.
pub open spec fn fields_layout(
    types: Seq<(Seq<char>, TypeDeclView)>,
    fields: Seq<StructFieldView>,
    n: nat,
    fuel: nat,
) -> Option<Layout>
    decreases fuel, 1nat, TypeView::Unit, n,
{
    if n == 0 {
        Some((0, 1))
    } else {
        match fields_layout(types, fields, (n - 1) as nat, fuel) {
            None => None,
            Some((size, align)) => match layout(types, fields[n - 1].ty, fuel) {
                None => None,
                Some((s, a)) => match fits(aligned(size as nat, a as nat) + s as nat) {
                    None => None,
                    Some(end) => Some((end, max_of(align, a))),
                },
            },
        }
    }
}

/// The larger of two numbers.
pub open spec fn max_of(a: u64, b: u64) -> u64 {
    if a >= b {
        a
    } else {
        b
    }
}

/// The largest size and the largest alignment of the first `n` payloads; an
/// enum is aligned to two bytes at least.
pub open spec fn payloads_layout(
    types: Seq<(Seq<char>, TypeDeclView)>,
    variants: Seq<EnumVariantView>,
    n: nat,
    fuel: nat,
) -> Option<Layout>
    decreases fuel, 1nat, TypeView::Unit, n,
{
    if n == 0 {
        Some((0, 2))
    } else {
        match payloads_layout(types, variants, (n - 1) as nat, fuel) {
            None => None,
            Some((size, align)) => match layout(types, variants[n - 1].ty, fuel) {
                None => None,
                Some((s, a)) => Some((max_of(size, s), max_of(align, a))),
            },
        }
    }
}

/// Size and alignment of a type. A declared type may nest at most `fuel`
/// declared types; `None` for a type that contains itself, for one that is
/// not declared or not concrete, and for a size beyond 64 bits.
pub open spec fn layout(types: Seq<(Seq<char>, TypeDeclView)>, ty: TypeView, fuel: nat) -> Option<
    Layout,
>
    decreases fuel, 0nat, ty, 0nat,
{
    match ty {
        TypeView::Int(i) => {
            let bytes = (i.spec_bits() / 8) as u64;
            Some((bytes, bytes))
        },
        TypeView::Float(FloatTy::F32) => Some((4, 4)),
        TypeView::Float(FloatTy::F64) => Some((8, 8)),
        TypeView::Bool => Some((1, 1)),
        TypeView::Unit => Some((0, 1)),
        TypeView::Never => Some((0, 1)),
        TypeView::Ref(_, _, _) => Some((8, 8)),
        TypeView::RawPtr(_) => Some((8, 8)),
        TypeView::Fn(_) => Some((8, 8)),
        TypeView::Param(_) => None,
        TypeView::Array(elem, n) => match layout(types, *elem, fuel) {
            None => None,
            Some((s, a)) => match fits(s as nat * n as nat) {
                None => None,
                Some(size) => Some((size, a)),
            },
        },
        TypeView::Custom(inst) => if fuel == 0 || inst.type_args.len() != 0 {
            None
        } else {
            match table::lookup(types, inst.name) {
                None => None,
                Some(TypeDeclView::Struct(s)) => match fields_layout(
                    types,
                    s.fields,
                    s.fields.len(),
                    (fuel - 1) as nat,
                ) {
                    None => None,
                    Some((size, align)) => match fits(aligned(size as nat, align as nat)) {
                        None => None,
                        Some(total) => Some((total, align)),
                    },
                },
                Some(TypeDeclView::Enum(e)) => match payloads_layout(
                    types,
                    e.variants,
                    e.variants.len(),
                    (fuel - 1) as nat,
                ) {
                    None => None,
                    Some((size, align)) => match fits(
                        aligned(aligned(2, align as nat) + size as nat, align as nat),
                    ) {
                        None => None,
                        Some(total) => Some((total, align)),
                    },
                },
            }
        },
    }
}

/// Alignments are positive.
pub proof fn lemma_align_positive(types: Seq<(Seq<char>, TypeDeclView)>, ty: TypeView, fuel: nat)
    ensures
        layout(types, ty, fuel) matches Some((s, a)) ==> a > 0,
    decreases fuel, 0nat, ty, 0nat,
{
    match ty {
        TypeView::Array(elem, n) => {
            lemma_align_positive(types, *elem, fuel);
        },
        TypeView::Custom(inst) => {
            if fuel > 0 {
                match table::lookup(types, inst.name) {
                    Some(TypeDeclView::Struct(s)) => {
                        lemma_fields_align(types, s.fields, s.fields.len(), (fuel - 1) as nat);
                    },
                    Some(TypeDeclView::Enum(e)) => {
                        lemma_payloads_align(
                            types,
                            e.variants,
                            e.variants.len(),
                            (fuel - 1) as nat,
                        );
                    },
                    None => {},
                }
            }
        },
        _ => {},
    }
}

proof fn lemma_fields_align(
    types: Seq<(Seq<char>, TypeDeclView)>,
    fields: Seq<StructFieldView>,
    n: nat,
    fuel: nat,
)
    ensures
        fields_layout(types, fields, n, fuel) matches Some((s, a)) ==> a > 0,
    decreases fuel, 1nat, TypeView::Unit, n,
{
    if n > 0 {
        lemma_fields_align(types, fields, (n - 1) as nat, fuel);
    }
}

proof fn lemma_payloads_align(
    types: Seq<(Seq<char>, TypeDeclView)>,
    variants: Seq<EnumVariantView>,
    n: nat,
    fuel: nat,
)
    ensures
        payloads_layout(types, variants, n, fuel) matches Some((s, a)) ==> a >= 2,
    decreases fuel, 1nat, TypeView::Unit, n,
{
    if n > 0 {
        lemma_payloads_align(types, variants, (n - 1) as nat, fuel);
    }
}

/// The size of a type is a multiple of its alignment, so that the elements of
/// an array are aligned.
pub proof fn lemma_size_multiple(types: Seq<(Seq<char>, TypeDeclView)>, ty: TypeView, fuel: nat)
    ensures
        layout(types, ty, fuel) matches Some((s, a)) ==> a > 0 && s % a == 0,
    decreases fuel, 0nat, ty, 0nat,
{
    lemma_align_positive(types, ty, fuel);
    match ty {
        TypeView::Int(i) => {
            let bytes = (i.spec_bits() / 8) as u64;
            vstd::arithmetic::div_mod::lemma_mod_self_0(bytes as int);
        },
        TypeView::Array(elem, n) => {
            lemma_size_multiple(types, *elem, fuel);
            match layout(types, *elem, fuel) {
                Some((s, a)) => {
                    let total = s as nat * n as nat;
                    lemma_multiple_times(s as nat, a as nat, n as nat);
                    assert(total % (a as nat) == 0);
                },
                None => {},
            }
        },
        TypeView::Custom(inst) => {
            if fuel > 0 {
                match table::lookup(types, inst.name) {
                    Some(TypeDeclView::Struct(s)) => {
                        lemma_fields_align(types, s.fields, s.fields.len(), (fuel - 1) as nat);
                        match fields_layout(types, s.fields, s.fields.len(), (fuel - 1) as nat) {
                            Some((size, align)) => {
                                lemma_aligned(size as nat, align as nat);
                            },
                            None => {},
                        }
                    },
                    Some(TypeDeclView::Enum(e)) => {
                        lemma_payloads_align(
                            types,
                            e.variants,
                            e.variants.len(),
                            (fuel - 1) as nat,
                        );
                        match payloads_layout(
                            types,
                            e.variants,
                            e.variants.len(),
                            (fuel - 1) as nat,
                        ) {
                            Some((size, align)) => {
                                lemma_aligned(
                                    aligned(2, align as nat) + size as nat,
                                    align as nat,
                                );
                            },
                            None => {},
                        }
                    },
                    None => {},
                }
            }
        },
        _ => {
            assert(0u64 % 1u64 == 0 && 1u64 % 1u64 == 0 && 4u64 % 4u64 == 0 && 8u64 % 8u64 == 0);
        },
    }
}

proof fn lemma_multiple_times(s: nat, a: nat, n: nat)
    requires
        a > 0,
        s % a == 0,
    ensures
        (s * n) % a == 0,
{
    let q = s as int / a as int;
    vstd::arithmetic::div_mod::lemma_fundamental_div_mod(s as int, a as int);
    assert(s * n == (q * n) * a) by (nonlinear_arith)
        requires
            s == a * q,
    ;
    vstd::arithmetic::div_mod::lemma_mod_multiples_basic(q * n, a as int);
}

/// An enum as its number, padding up to the payload, and lanes of the size of
/// its alignment: the lanes start aligned, hold the largest payload, and end
/// where the size of the enum says.
pub proof fn lemma_enum_lanes(size: nat, align: nat)
    requires
        align > 0,
    ensures
        aligned(2, align) % align == 0,
        size <= (size + align - 1) / align as int * align,
        aligned(2, align) + (size + align - 1) / align as int * align == aligned(
            aligned(2, align) + size,
            align,
        ),
{
    lemma_aligned(2, align);
    lemma_aligned(size, align);
    let start = aligned(2, align) as int;
    let a = align as int;
    let k = start / a;
    vstd::arithmetic::div_mod::lemma_fundamental_div_mod(start, a);
    let y = size + a - 1;
    vstd::arithmetic::div_mod::lemma_hoist_over_denominator(y, k, align);
    assert(start == k * a) by (nonlinear_arith)
        requires
            start == a * k,
    ;
    let q = y / a;
    assert((start + size + a - 1) / a == q + k);
    vstd::arithmetic::div_mod::lemma_div_pos_is_pos(y, a);
    assert((q + k) * a == q * a + k * a) by (nonlinear_arith);
    assert(q * a >= 0) by (nonlinear_arith)
        requires
            q >= 0,
            a > 0,
    ;
}

/// The smallest multiple of `a` that is at least `x`, if it fits.
pub fn align_up(x: u64, a: u64) -> (r: Option<u64>)
    requires
        a > 0,
    ensures
        r == fits(aligned(x as nat, a as nat)),
{
    proof {
        lemma_aligned(x as nat, a as nat);
    }
    let wide: u128 = ((x as u128 + a as u128 - 1) / a as u128) * a as u128;
    if wide <= u64::MAX as u128 {
        Some(wide as u64)
    } else {
        None
    }
}

fn max_u64(a: u64, b: u64) -> (r: u64)
    ensures
        r == max_of(a, b),
{
    if a >= b {
        a
    } else {
        b
    }
}

fn measure_fields(types: &Table<TypeDecl>, fields: &Vec<StructField>, fuel: usize) -> (r: Option<
    Layout,
>)
    requires
        types.wf(),
    ensures
        r == fields_layout(types@, common::views(fields@), fields@.len(), fuel as nat),
    decreases fuel, 1nat, TypeView::Unit, 0nat,
{
    let mut size: u64 = 0;
    let mut align: u64 = 1;
    let ghost fs = common::views(fields@);
    let mut i: usize = 0;
    while i < fields.len()
        invariant
            i <= fields@.len(),
            types.wf(),
            fs == common::views(fields@),
            fields_layout(types@, fs, i as nat, fuel as nat) == Some((size, align)),
        decreases fields@.len() - i,
    {
        assert(fs[i as int] == fields@[i as int]@);
        match measure(types, &fields[i].ty, fuel) {
            None => {
                proof {
                    lemma_fields_stuck(types@, fs, (i + 1) as nat, fs.len(), fuel as nat);
                }
                return None;
            },
            Some((s, a)) => {
                proof {
                    lemma_align_positive(types@, fs[i as int].ty, fuel as nat);
                    lemma_aligned(size as nat, a as nat);
                }
                let end = match align_up(size, a) {
                    None => None,
                    Some(start) => start.checked_add(s),
                };
                match end {
                    None => {
                        proof {
                            lemma_fields_stuck(types@, fs, (i + 1) as nat, fs.len(), fuel as nat);
                        }
                        return None;
                    },
                    Some(e) => {
                        size = e;
                        align = max_u64(align, a);
                    },
                }
            },
        }
        i += 1;
    }
    Some((size, align))
}

proof fn lemma_fields_stuck(
    types: Seq<(Seq<char>, TypeDeclView)>,
    fields: Seq<StructFieldView>,
    k: nat,
    n: nat,
    fuel: nat,
)
    requires
        fields_layout(types, fields, k, fuel) is None,
        k <= n,
    ensures
        fields_layout(types, fields, n, fuel) is None,
    decreases n,
{
    if k < n {
        lemma_fields_stuck(types, fields, k, (n - 1) as nat, fuel);
    }
}

proof fn lemma_payloads_stuck(
    types: Seq<(Seq<char>, TypeDeclView)>,
    variants: Seq<EnumVariantView>,
    k: nat,
    n: nat,
    fuel: nat,
)
    requires
        payloads_layout(types, variants, k, fuel) is None,
        k <= n,
    ensures
        payloads_layout(types, variants, n, fuel) is None,
    decreases n,
{
    if k < n {
        lemma_payloads_stuck(types, variants, k, (n - 1) as nat, fuel);
    }
}

fn measure_payloads(types: &Table<TypeDecl>, variants: &Vec<EnumVariant>, fuel: usize) -> (r: Option<
    Layout,
>)
    requires
        types.wf(),
    ensures
        r == payloads_layout(types@, common::views(variants@), variants@.len(), fuel as nat),
    decreases fuel, 1nat, TypeView::Unit, 0nat,
{
    let mut size: u64 = 0;
    let mut align: u64 = 2;
    let ghost vs = common::views(variants@);
    let mut i: usize = 0;
    while i < variants.len()
        invariant
            i <= variants@.len(),
            types.wf(),
            vs == common::views(variants@),
            payloads_layout(types@, vs, i as nat, fuel as nat) == Some((size, align)),
        decreases variants@.len() - i,
    {
        assert(vs[i as int] == variants@[i as int]@);
        match measure(types, &variants[i].ty, fuel) {
            None => {
                proof {
                    lemma_payloads_stuck(types@, vs, (i + 1) as nat, vs.len(), fuel as nat);
                }
                return None;
            },
            Some((s, a)) => {
                size = max_u64(size, s);
                align = max_u64(align, a);
            },
        }
        i += 1;
    }
    Some((size, align))
}

fn measure(types: &Table<TypeDecl>, ty: &Type, fuel: usize) -> (r: Option<Layout>)
    requires
        types.wf(),
    ensures
        r == layout(types@, ty@, fuel as nat),
    decreases fuel, 0nat, ty, 0nat,
{
    assert(ty@ == ty.kind@);
    match &ty.kind {
        TypeKind::Int(i) => {
            let bytes: u64 = (i.bits() / 8) as u64;
            Some((bytes, bytes))
        },
        TypeKind::Float(FloatTy::F32) => Some((4, 4)),
        TypeKind::Float(FloatTy::F64) => Some((8, 8)),
        TypeKind::Bool => Some((1, 1)),
        TypeKind::Unit => Some((0, 1)),
        TypeKind::Never => Some((0, 1)),
        TypeKind::Ref(_, _, _) => Some((8, 8)),
        TypeKind::RawPtr(_) => Some((8, 8)),
        TypeKind::Fn(_) => Some((8, 8)),
        TypeKind::Param(_) => None,
        TypeKind::Array(elem, n) => match measure(types, elem, fuel) {
            None => None,
            Some((s, a)) => match s.checked_mul(*n) {
                None => None,
                Some(size) => Some((size, a)),
            },
        },
        TypeKind::Custom(inst) => {
            assert(ty@ == TypeView::Custom(inst@));
            if fuel == 0 || inst.type_args.len() != 0 {
                return None;
            }
            match types.find(inst.name.as_str()) {
                None => None,
                Some(TypeDecl::Struct(s)) => match measure_fields(types, &s.fields, fuel - 1) {
                    None => None,
                    Some((size, align)) => {
                        proof {
                            lemma_fields_align(
                                types@,
                                common::views(s.fields@),
                                s.fields@.len(),
                                (fuel - 1) as nat,
                            );
                        }
                        match align_up(size, align) {
                            None => None,
                            Some(total) => Some((total, align)),
                        }
                    },
                },
                Some(TypeDecl::Enum(e)) => match measure_payloads(types, &e.variants, fuel - 1) {
                    None => None,
                    Some((size, align)) => {
                        proof {
                            lemma_payloads_align(
                                types@,
                                common::views(e.variants@),
                                e.variants@.len(),
                                (fuel - 1) as nat,
                            );
                            lemma_aligned(2, align as nat);
                            lemma_aligned(
                                aligned(2, align as nat) + size as nat,
                                align as nat,
                            );
                        }
                        let start = match align_up(2, align) {
                            None => {
                                return None;
                            },
                            Some(s) => s,
                        };
                        match start.checked_add(size) {
                            None => None,
                            Some(end) => match align_up(end, align) {
                                None => None,
                                Some(total) => Some((total, align)),
                            },
                        }
                    },
                },
            }
        },
    }
}

impl IndexedView {
    /// Size and alignment of a type of the program. A type that does not
    /// contain itself nests no more declared types than there are.
    pub open spec fn layout_of(self, ty: TypeView) -> Option<Layout> {
        layout(self.types, ty, self.types.len())
    }
}

/// Size and alignment of a type; `None` when it has none.
pub fn layout_of(ty: &Type, env: &IndexedProgram) -> (r: Option<Layout>)
    requires
        env.wf(),
    ensures
        r == env@.layout_of(ty@),
{
    assert(env.types@.len() == env.types.entries().len());
    measure(&env.types, ty, env.types.len())
}

/// The largest size and the largest alignment of the payloads of an enum.
pub fn payloads_of(e: &EnumDecl, env: &IndexedProgram) -> (r: Option<Layout>)
    requires
        env.wf(),
    ensures
        r == payloads_layout(
            env@.types,
            e@.variants,
            e@.variants.len(),
            env@.types.len(),
        ),
        r matches Some((s, a)) ==> a >= 2,
{
    assert(env.types@.len() == env.types.entries().len());
    proof {
        lemma_payloads_align(env@.types, e@.variants, e@.variants.len(), env@.types.len());
    }
    measure_payloads(&env.types, &e.variants, env.types.len())
}

/// The size of a type in bytes.
pub fn size_of(ty: &Type, env: &IndexedProgram) -> (r: u64)
    requires
        env.wf(),
        env@.layout_of(ty@) is Some,
    ensures
        env@.layout_of(ty@) matches Some((s, a)) && r == s,
{
    match layout_of(ty, env) {
        Some((s, _)) => s,
        None => 0,
    }
}

/// The alignment of a type in bytes.
pub fn align_of(ty: &Type, env: &IndexedProgram) -> (r: u64)
    requires
        env.wf(),
        env@.layout_of(ty@) is Some,
    ensures
        env@.layout_of(ty@) matches Some((s, a)) && r == a,
{
    match layout_of(ty, env) {
        Some((_, a)) => a,
        None => 1,
    }
}

} // verus!
