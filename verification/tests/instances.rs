//! Instances and their notation.

use silica_mir::ast::{Instance, IntTy, Lifetime, TypeKind};
use silica_mir::helpers::{bool_ty, i64_ty};

#[test]
fn new_preserves_all_three_field_slots() {
    let inst = Instance::new(
        "Foo",
        vec![Lifetime("a".into()), Lifetime("b".into())],
        vec![i64_ty(), bool_ty()],
    );
    assert_eq!(inst.name, "Foo");
    assert_eq!(inst.lifetime_args.len(), 2);
    assert_eq!(inst.lifetime_args[0], Lifetime("a".into()));
    assert_eq!(inst.lifetime_args[1], Lifetime("b".into()));
    assert_eq!(inst.type_args.len(), 2);
    assert_eq!(inst.type_args[0].kind, TypeKind::Int(IntTy::I64));
    assert_eq!(inst.type_args[1].kind, TypeKind::Bool);
}

#[test]
fn bare_yields_empty_arg_lists() {
    let inst = Instance::bare("Foo");
    assert_eq!(inst.name, "Foo");
    assert!(inst.lifetime_args.is_empty());
    assert!(inst.type_args.is_empty());
}

#[test]
fn display_bare_is_just_the_name() {
    let inst = Instance::bare("Foo");
    assert_eq!(inst.text(), "Foo");
}

#[test]
fn display_full_instance_uses_lifetimes_first_order() {
    let inst = Instance::new(
        "Foo",
        vec![Lifetime("a".into()), Lifetime("b".into())],
        vec![i64_ty(), bool_ty()],
    );
    assert_eq!(inst.text(), "Foo<'a, 'b, i64, bool>");
}

#[test]
fn display_lifetimes_only() {
    let inst = Instance::new("Foo", vec![Lifetime("a".into())], Vec::new());
    assert_eq!(inst.text(), "Foo<'a>");
}

#[test]
fn display_types_only() {
    let inst = Instance::new("Foo", Vec::new(), vec![i64_ty()]);
    assert_eq!(inst.text(), "Foo<i64>");
}
