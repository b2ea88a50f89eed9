//! The order of places.
//!
//! Every place has a code: a sequence of numbers that starts with the number
//! of its form and goes on with the codes of its parts. Places are ordered as
//! their codes are in a dictionary: by form first, and by the parts from left
//! to right where the forms agree.

use vstd::prelude::*;

use crate::common;
use crate::common::{FloatTy, IntTy, Lifetime, RefKind};
use crate::place::{ConstVal, ConstView, Operand, OperandView, Place, PlaceView};
use crate::types;
use crate::types::{Instance, InstanceView, Type, TypeKind, TypeView};

verus! {

/// The code of a text: its characters, and an end mark below all of them.
pub open spec fn text_code(s: Seq<char>) -> Seq<u64> {
    Seq::new(s.len(), |i: int| (s[i] as u64 + 1) as u64).push(0)
}

/// The number of an integer type.
pub open spec fn int_code(t: IntTy) -> u64 {
    match t {
        IntTy::I8 => 0,
        IntTy::I16 => 1,
        IntTy::I32 => 2,
        IntTy::I64 => 3,
        IntTy::U8 => 4,
        IntTy::U16 => 5,
        IntTy::U32 => 6,
        IntTy::U64 => 7,
    }
}

/// The number of a float type.
pub open spec fn float_code(t: FloatTy) -> u64 {
    match t {
        FloatTy::F32 => 0,
        FloatTy::F64 => 1,
    }
}

/// The number of a reference kind.
pub open spec fn ref_code(k: RefKind) -> u64 {
    match k {
        RefKind::Shared => 0,
        RefKind::Mut => 1,
        RefKind::Out => 2,
        RefKind::Drop => 3,
        RefKind::Uninit => 4,
    }
}

/// The code of a list of lifetimes: a mark before each, and an end mark.
pub open spec fn lifetimes_code(s: Seq<Seq<char>>) -> Seq<u64>
    decreases s.len(),
{
    if s.len() == 0 {
        seq![0u64]
    } else {
        seq![1u64] + text_code(s[0]) + lifetimes_code(s.subrange(1, s.len() as int))
    }
}

/// The code of a type.
pub open spec fn type_code(t: TypeView) -> Seq<u64>
    decreases t, 0nat,
{
    match t {
        TypeView::Int(i) => seq![0u64, int_code(i)],
        TypeView::Float(f) => seq![1u64, float_code(f)],
        TypeView::Bool => seq![2u64],
        TypeView::Unit => seq![3u64],
        TypeView::Never => seq![4u64],
        TypeView::Custom(inst) => seq![5u64] + text_code(inst.name) + lifetimes_code(
            inst.lifetime_args,
        ) + types_code(inst.type_args, 0),
        TypeView::Param(name) => seq![6u64] + text_code(name),
        TypeView::Fn(params) => seq![7u64] + types_code(params, 0),
        TypeView::Ref(k, lt, inner) => seq![8u64, ref_code(k)] + (match lt {
            Some(l) => seq![1u64] + text_code(l),
            None => seq![0u64],
        }) + type_code(*inner),
        TypeView::RawPtr(inner) => seq![9u64] + type_code(*inner),
        TypeView::Array(elem, n) => seq![10u64] + type_code(*elem) + seq![n],
    }
}

/// The code of the types of a list from position `k` on.
pub open spec fn types_code(s: Seq<TypeView>, k: nat) -> Seq<u64>
    decreases s, s.len() - k,
{
    if k >= s.len() {
        seq![0u64]
    } else {
        seq![1u64] + type_code(s[k as int]) + types_code(s, k + 1)
    }
}

/// The code of an instance.
pub open spec fn instance_code(i: InstanceView) -> Seq<u64> {
    text_code(i.name) + lifetimes_code(i.lifetime_args) + types_code(i.type_args, 0)
}

/// The code of a list of bytes from position `k` on.
pub open spec fn bytes_code(s: Seq<u8>, k: nat) -> Seq<u64>
    decreases s.len() - k,
{
    if k >= s.len() {
        seq![0u64]
    } else {
        seq![1u64, s[k as int] as u64] + bytes_code(s, k + 1)
    }
}

/// The code of a constant.
pub open spec fn const_code(c: ConstView) -> Seq<u64> {
    match c {
        ConstView::Int { bits, ty } => seq![0u64, bits, int_code(ty)],
        ConstView::Float { bits, ty } => seq![1u64, bits, float_code(ty)],
        ConstView::Bool(b) => seq![
            2u64,
            if b {
                1u64
            } else {
                0u64
            },
        ],
        ConstView::Unit => seq![3u64],
        ConstView::FnName(name, args) => seq![4u64] + text_code(name) + types_code(args, 0),
        ConstView::InherentFn { self_ty, method } => seq![5u64] + type_code(self_ty)
            + instance_code(method),
        ConstView::TraitFn { trait_path, self_ty, method } => seq![6u64] + instance_code(
            trait_path,
        ) + type_code(self_ty) + instance_code(method),
        ConstView::ByteStr(bytes) => seq![7u64] + bytes_code(bytes, 0),
    }
}

/// The code of a place.
pub open spec fn place_code(p: PlaceView) -> Seq<u64>
    decreases p,
{
    match p {
        PlaceView::Var(name) => seq![0u64] + text_code(name),
        PlaceView::Field(inner, f) => seq![1u64] + place_code(*inner) + text_code(f),
        PlaceView::Downcast(inner, v) => seq![2u64] + place_code(*inner) + text_code(v),
        PlaceView::Deref(inner) => seq![3u64] + place_code(*inner),
        PlaceView::Index(inner, op) => seq![4u64] + place_code(*inner) + operand_code(*op),
    }
}

/// The code of an operand.
pub open spec fn operand_code(op: OperandView) -> Seq<u64>
    decreases op,
{
    match op {
        OperandView::Copy(p) => seq![0u64] + place_code(p),
        OperandView::Move(p) => seq![1u64] + place_code(p),
        OperandView::Take(p) => seq![2u64] + place_code(p),
        OperandView::Const(c) => seq![3u64] + const_code(c),
    }
}

/// `a` comes before `b` in a dictionary, where they agree before position
/// `k`.
pub open spec fn precedes_from(a: Seq<u64>, b: Seq<u64>, k: nat) -> bool
    decreases a.len() - k,
{
    if k >= a.len() {
        k < b.len()
    } else if k >= b.len() {
        false
    } else if a[k as int] != b[k as int] {
        a[k as int] < b[k as int]
    } else {
        precedes_from(a, b, k + 1)
    }
}

/// The place `a` comes before the place `b`.
pub open spec fn place_less(a: PlaceView, b: PlaceView) -> bool {
    precedes_from(place_code(a), place_code(b), 0)
}

/// No place comes before itself.
pub proof fn lemma_place_less_irreflexive(a: PlaceView)
    ensures
        !place_less(a, a),
{
    lemma_same(place_code(a), 0);
}

proof fn lemma_same(a: Seq<u64>, k: nat)
    ensures
        !precedes_from(a, a, k),
    decreases a.len() - k,
{
    if k < a.len() {
        lemma_same(a, k + 1);
    }
}

/// Of two places at most one comes before the other.
pub proof fn lemma_place_less_asymmetric(a: PlaceView, b: PlaceView)
    requires
        place_less(a, b),
    ensures
        !place_less(b, a),
{
    lemma_not_both(place_code(a), place_code(b), 0);
}

proof fn lemma_not_both(a: Seq<u64>, b: Seq<u64>, k: nat)
    ensures
        !(precedes_from(a, b, k) && precedes_from(b, a, k)),
    decreases a.len() - k,
{
    if k < a.len() && k < b.len() {
        lemma_not_both(a, b, k + 1);
    }
}

/// The order is transitive.
pub proof fn lemma_place_less_transitive(a: PlaceView, b: PlaceView, c: PlaceView)
    requires
        place_less(a, b),
        place_less(b, c),
    ensures
        place_less(a, c),
{
    lemma_chain(place_code(a), place_code(b), place_code(c), 0);
}

proof fn lemma_chain(a: Seq<u64>, b: Seq<u64>, c: Seq<u64>, k: nat)
    requires
        precedes_from(a, b, k),
        precedes_from(b, c, k),
    ensures
        precedes_from(a, c, k),
    decreases a.len() - k,
{
    if k < a.len() && a[k as int] == b[k as int] && k < c.len() && b[k as int] == c[k as int] {
        lemma_chain(a, b, c, k + 1);
    }
}

fn push_text(out: &mut Vec<u64>, s: &str)
    ensures
        final(out)@ == old(out)@ + text_code(s@),
{
    let ghost start = out@;
    let n: usize = s.unicode_len();
    let mut i: usize = 0;
    while i < n
        invariant
            i <= n,
            n == s@.len(),
            start == old(out)@,
            out@ == start + text_code(s@).take(i as int),
        decreases n - i,
    {
        let c: char = s.get_char(i);
        let ghost before = out@;
        out.push(c as u64 + 1);
        assert(out@ =~= start + text_code(s@).take(i + 1));
        i += 1;
    }
    out.push(0);
    assert(out@ =~= start + text_code(s@));
}

fn push_lifetimes(out: &mut Vec<u64>, v: &Vec<Lifetime>, k: usize)
    requires
        k <= v@.len(),
    ensures
        final(out)@ == old(out)@ + lifetimes_code(
            common::views(v@).subrange(k as int, v@.len() as int),
        ),
    decreases v@.len() - k,
{
    let ghost start = out@;
    let ghost rest = common::views(v@).subrange(k as int, v@.len() as int);
    if k < v.len() {
        out.push(1);
        push_text(out, v[k].0.as_str());
        push_lifetimes(out, v, k + 1);
        proof {
            assert(rest[0] == v@[k as int]@);
            assert(rest.subrange(1, rest.len() as int) =~= common::views(v@).subrange(
                k + 1,
                v@.len() as int,
            ));
        }
    } else {
        out.push(0);
    }
    assert(out@ =~= start + lifetimes_code(rest));
}

fn int_number(t: &IntTy) -> (r: u64)
    ensures
        r == int_code(*t),
{
    match t {
        IntTy::I8 => 0,
        IntTy::I16 => 1,
        IntTy::I32 => 2,
        IntTy::I64 => 3,
        IntTy::U8 => 4,
        IntTy::U16 => 5,
        IntTy::U32 => 6,
        IntTy::U64 => 7,
    }
}

fn float_number(t: &FloatTy) -> (r: u64)
    ensures
        r == float_code(*t),
{
    match t {
        FloatTy::F32 => 0,
        FloatTy::F64 => 1,
    }
}

fn ref_number(k: &RefKind) -> (r: u64)
    ensures
        r == ref_code(*k),
{
    match k {
        RefKind::Shared => 0,
        RefKind::Mut => 1,
        RefKind::Out => 2,
        RefKind::Drop => 3,
        RefKind::Uninit => 4,
    }
}

fn push_type(out: &mut Vec<u64>, t: &Type)
    ensures
        final(out)@ == old(out)@ + type_code(t@),
    decreases t, 0nat,
{
    let ghost start = out@;
    assert(t@ == t.kind@);
    match &t.kind {
        TypeKind::Int(i) => {
            out.push(0);
            out.push(int_number(i));
        },
        TypeKind::Float(f) => {
            out.push(1);
            out.push(float_number(f));
        },
        TypeKind::Bool => {
            out.push(2);
        },
        TypeKind::Unit => {
            out.push(3);
        },
        TypeKind::Never => {
            out.push(4);
        },
        TypeKind::Custom(inst) => {
            assert(t@ == TypeView::Custom(inst@));
            out.push(5);
            push_text(out, inst.name.as_str());
            push_lifetimes(out, &inst.lifetime_args, 0);
            assert(common::views(inst.lifetime_args@).subrange(
                0,
                inst.lifetime_args@.len() as int,
            ) =~= common::views(inst.lifetime_args@));
            push_types(out, &inst.type_args, 0);
        },
        TypeKind::Param(name) => {
            out.push(6);
            push_text(out, name.as_str());
        },
        TypeKind::Fn(params) => {
            out.push(7);
            push_types(out, params, 0);
        },
        TypeKind::Ref(k, lt, inner) => {
            out.push(8);
            out.push(ref_number(k));
            match lt {
                Some(l) => {
                    out.push(1);
                    push_text(out, l.0.as_str());
                },
                None => {
                    out.push(0);
                },
            }
            push_type(out, inner);
        },
        TypeKind::RawPtr(inner) => {
            out.push(9);
            push_type(out, inner);
        },
        TypeKind::Array(elem, n) => {
            out.push(10);
            push_type(out, elem);
            out.push(*n);
        },
    }
    assert(out@ =~= start + type_code(t@));
}

fn push_types(out: &mut Vec<u64>, v: &Vec<Type>, k: usize)
    requires
        k <= v@.len(),
    ensures
        final(out)@ == old(out)@ + types_code(types::types_view(v@), k as nat),
    decreases v, v@.len() - k,
{
    let ghost start = out@;
    let ghost all = types::types_view(v@);
    if k < v.len() {
        out.push(1);
        assert(decreases_to!(v => v[k as int]));
        push_type(out, &v[k]);
        assert(all[k as int] == v@[k as int]@);
        push_types(out, v, k + 1);
    } else {
        out.push(0);
    }
    assert(out@ =~= start + types_code(all, k as nat));
}

fn push_instance(out: &mut Vec<u64>, i: &Instance)
    ensures
        final(out)@ == old(out)@ + instance_code(i@),
{
    let ghost start = out@;
    push_text(out, i.name.as_str());
    push_lifetimes(out, &i.lifetime_args, 0);
    assert(common::views(i.lifetime_args@).subrange(0, i.lifetime_args@.len() as int)
        =~= common::views(i.lifetime_args@));
    push_types(out, &i.type_args, 0);
    assert(out@ =~= start + instance_code(i@));
}

fn push_bytes(out: &mut Vec<u64>, v: &Vec<u8>, k: usize)
    requires
        k <= v@.len(),
    ensures
        final(out)@ == old(out)@ + bytes_code(v@, k as nat),
    decreases v@.len() - k,
{
    let ghost start = out@;
    if k < v.len() {
        out.push(1);
        out.push(v[k] as u64);
        push_bytes(out, v, k + 1);
    } else {
        out.push(0);
    }
    assert(out@ =~= start + bytes_code(v@, k as nat));
}

fn push_const(out: &mut Vec<u64>, c: &ConstVal)
    ensures
        final(out)@ == old(out)@ + const_code(c@),
{
    let ghost start = out@;
    match c {
        ConstVal::Int { bits, ty } => {
            out.push(0);
            out.push(*bits);
            out.push(int_number(ty));
        },
        ConstVal::Float { bits, ty } => {
            out.push(1);
            out.push(*bits);
            out.push(float_number(ty));
        },
        ConstVal::Bool(b) => {
            out.push(2);
            out.push(
                if *b {
                    1
                } else {
                    0
                },
            );
        },
        ConstVal::Unit => {
            out.push(3);
        },
        ConstVal::FnName(name, args) => {
            out.push(4);
            push_text(out, name.as_str());
            push_types(out, args, 0);
        },
        ConstVal::InherentFn { self_ty, method } => {
            out.push(5);
            push_type(out, self_ty);
            push_instance(out, method);
        },
        ConstVal::TraitFn { trait_path, self_ty, method } => {
            out.push(6);
            push_instance(out, trait_path);
            push_type(out, self_ty);
            push_instance(out, method);
        },
        ConstVal::ByteStr(bytes) => {
            out.push(7);
            push_bytes(out, bytes, 0);
        },
    }
    assert(out@ =~= start + const_code(c@));
}

fn push_place(out: &mut Vec<u64>, p: &Place)
    ensures
        final(out)@ == old(out)@ + place_code(p@),
    decreases p,
{
    let ghost start = out@;
    match p {
        Place::Var(name) => {
            out.push(0);
            push_text(out, name.as_str());
        },
        Place::Field(inner, f) => {
            out.push(1);
            push_place(out, inner);
            push_text(out, f.as_str());
        },
        Place::Downcast(inner, v) => {
            out.push(2);
            push_place(out, inner);
            push_text(out, v.as_str());
        },
        Place::Deref(inner) => {
            out.push(3);
            push_place(out, inner);
        },
        Place::Index(inner, op) => {
            out.push(4);
            push_place(out, inner);
            push_operand(out, op);
        },
    }
    assert(out@ =~= start + place_code(p@));
}

fn push_operand(out: &mut Vec<u64>, op: &Operand)
    ensures
        final(out)@ == old(out)@ + operand_code(op@),
    decreases op,
{
    let ghost start = out@;
    match op {
        Operand::Copy(p) => {
            out.push(0);
            push_place(out, p);
        },
        Operand::Move(p) => {
            out.push(1);
            push_place(out, p);
        },
        Operand::Take(p) => {
            out.push(2);
            push_place(out, p);
        },
        Operand::Const(c) => {
            out.push(3);
            push_const(out, c);
        },
    }
    assert(out@ =~= start + operand_code(op@));
}

/// True if `a` comes before `b`.
pub fn place_before(a: &Place, b: &Place) -> (r: bool)
    ensures
        r == place_less(a@, b@),
{
    let mut x: Vec<u64> = Vec::new();
    push_place(&mut x, a);
    assert(x@ =~= place_code(a@));
    let mut y: Vec<u64> = Vec::new();
    push_place(&mut y, b);
    assert(y@ =~= place_code(b@));
    let mut k: usize = 0;
    while k < x.len() && k < y.len() && x[k] == y[k]
        invariant
            k <= x@.len(),
            k <= y@.len(),
            precedes_from(x@, y@, 0) == precedes_from(x@, y@, k as nat),
        decreases x@.len() - k,
    {
        k += 1;
    }
    if k >= x.len() {
        k < y.len()
    } else if k >= y.len() {
        false
    } else {
        x[k] < y[k]
    }
}

} // verus!
