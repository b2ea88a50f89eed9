//! Intrinsics: names, signatures and lowerings.

use silica_mir::ast::{RefKind, TypeKind};
use silica_mir::helpers::{i64_ty, out_ref_ty};
use silica_mir::intrinsics::{
    all, all_float_tys, all_int_tys, is_intrinsic, lookup, prelude_fns, signed_int_tys, NameSupply,
};

#[test]
fn is_intrinsic_matches_dollar_prefix() {
    assert!(is_intrinsic("$i64_add"));
    assert!(is_intrinsic("$foo"));
    assert!(is_intrinsic("$"));
}

#[test]
fn is_intrinsic_rejects_plain_names() {
    assert!(!is_intrinsic("i64_add"));
    assert!(!is_intrinsic("silica_print"));
    assert!(!is_intrinsic(""));
}

#[test]
fn lookup_finds_known_intrinsic() {
    let spec = lookup("$i64_add").expect("$i64_add should exist");
    assert_eq!(spec.name, "$i64_add");
    assert_eq!(spec.inputs.len(), 2);
    assert_eq!(spec.result, i64_ty());
}

#[test]
fn lookup_returns_none_for_unknown() {
    assert!(lookup("$never_defined").is_none());
    assert!(lookup("i64_add").is_none()); // missing $
    assert!(lookup("").is_none());
}

#[test]
fn all_intrinsic_names_unique() {
    // Guard against accidental duplication in the generation
    // loops — every name in `all()` must be distinct.
    let mut seen = std::collections::BTreeSet::new();
    for spec in all() {
        assert!(
            seen.insert(spec.name.clone()),
            "duplicate intrinsic name: {}",
            spec.name
        );
    }
}

#[test]
fn per_width_arith_coverage() {
    // Every int type has the full arithmetic surface.
    for int_kind in all_int_tys() {
        let ty_name = int_kind.name();
        for op in ["add", "sub", "mul", "div", "rem", "and", "or", "xor", "shl", "shr"] {
            let full = format!("${}_{}", ty_name, op);
            assert!(
                lookup(&full).is_some(),
                "expected intrinsic {}",
                full
            );
        }
    }
    // Neg only for signed.
    for int_kind in signed_int_tys() {
        assert!(lookup(&format!("${}_neg", int_kind.name())).is_some());
    }
    for int_kind in all_int_tys().into_iter().filter(|k| !k.is_signed()) {
        assert!(lookup(&format!("${}_neg", int_kind.name())).is_none());
    }
}

#[test]
fn per_width_cmp_coverage() {
    for int_kind in all_int_tys() {
        let ty_name = int_kind.name();
        for op in ["eq", "ne", "lt", "le", "gt", "ge"] {
            assert!(
                lookup(&format!("${}_{}", ty_name, op)).is_some(),
                "missing ${}_{}", ty_name, op
            );
        }
    }
}

#[test]
fn float_full_surface() {
    for float_kind in all_float_tys() {
        let ty_name = float_kind.name();
        for op in ["add", "sub", "mul", "div", "neg", "sqrt"] {
            assert!(
                lookup(&format!("${}_{}", ty_name, op)).is_some(),
                "missing ${}_{}", ty_name, op
            );
        }
        for op in ["eq", "ne", "lt", "le", "gt", "ge"] {
            assert!(
                lookup(&format!("${}_{}", ty_name, op)).is_some(),
                "missing ${}_{}", ty_name, op
            );
        }
    }
}

#[test]
fn prelude_produces_one_extern_fn_per_spec() {
    let fns = prelude_fns();
    assert_eq!(fns.len(), all().len());
    for f in &fns {
        assert!(f.is_extern, "intrinsic {} should be extern", f.meta.name);
        assert!(f.body.is_none(), "intrinsic {} should have no body", f.meta.name);
    }
}

#[test]
fn prelude_signatures_end_in_out_ref() {
    // Every intrinsic's last param is `&out ResultTy`.
    for f in prelude_fns() {
        let last = f.params.last().unwrap();
        assert_eq!(last.name, "out");
        match &last.ty.kind {
            TypeKind::Ref(RefKind::Out, _, _) => {}
            other => panic!(
                "intrinsic {} last param should be &out, got {:?}",
                f.meta.name, other
            ),
        }
    }
}

#[test]
fn prelude_signature_shape_matches_spec() {
    // `$i64_add` → params [in0: i64, in1: i64, out: &out i64].
    let f = prelude_fns()
        .into_iter()
        .find(|f| f.meta.name == "$i64_add")
        .unwrap();
    assert_eq!(f.params.len(), 3);
    assert_eq!(f.params[0].ty, i64_ty());
    assert_eq!(f.params[1].ty, i64_ty());
    assert_eq!(f.params[2].ty, out_ref_ty(i64_ty()));
}

#[test]
fn popcount_spec_carries_its_declare() {
    // Guards the "spec owns its declare" contract. Codegen's
    // `llvm_declares_needed` (in `codegen/mod.rs`) reads from
    // this per-spec field, so the sanity check lives here.
    let spec = lookup("$i64_popcount").unwrap();
    assert_eq!(spec.llvm_declares, vec!["declare i64 @llvm.ctpop.i64(i64)"]);
}

#[test]
fn ctlz_declare_includes_i1_arg() {
    // ctlz/cttz take an extra i1 "is_zero_undef" arg on the LLVM
    // side. The declare line must include it.
    let spec = lookup("$i32_clz").unwrap();
    assert_eq!(spec.llvm_declares, vec!["declare i32 @llvm.ctlz.i32(i32, i1)"]);
}

#[test]
fn emit_i64_add_produces_single_add_line() {
    let spec = lookup("$i64_add").unwrap();
    let mut names = NameSupply::new();
    let (lines, result) =
        spec.emit.run(&vec!["%a".to_string(), "%b".to_string()], &mut names);
    assert_eq!(lines, vec!["  %t.0 = add i64 %a, %b".to_string()]);
    assert_eq!(result, "%t.0");
}

#[test]
fn emit_i64_neg_uses_sub_zero_idiom() {
    let spec = lookup("$i64_neg").unwrap();
    let mut names = NameSupply::new();
    let (lines, _) = spec.emit.run(&vec!["%x".to_string()], &mut names);
    assert_eq!(lines, vec!["  %t.0 = sub i64 0, %x".to_string()]);
}

#[test]
fn emit_f64_mul_uses_double_type() {
    let spec = lookup("$f64_mul").unwrap();
    let mut names = NameSupply::new();
    let (lines, _) =
        spec.emit.run(&vec!["%a".to_string(), "%b".to_string()], &mut names);
    assert_eq!(lines, vec!["  %t.0 = fmul double %a, %b".to_string()]);
}

#[test]
fn emit_f64_neg_uses_fneg() {
    let spec = lookup("$f64_neg").unwrap();
    let mut names = NameSupply::new();
    let (lines, _) = spec.emit.run(&vec!["%x".to_string()], &mut names);
    assert_eq!(lines, vec!["  %t.0 = fneg double %x".to_string()]);
}

#[test]
fn emit_f64_lt_uses_ordered_predicate() {
    let spec = lookup("$f64_lt").unwrap();
    let mut names = NameSupply::new();
    let (lines, _) =
        spec.emit.run(&vec!["%a".to_string(), "%b".to_string()], &mut names);
    assert_eq!(lines, vec!["  %t.0 = fcmp olt double %a, %b".to_string()]);
}

#[test]
fn emit_signed_shr_uses_ashr() {
    let spec = lookup("$i32_shr").unwrap();
    let mut names = NameSupply::new();
    let (lines, _) =
        spec.emit.run(&vec!["%a".to_string(), "%b".to_string()], &mut names);
    assert_eq!(lines, vec!["  %t.0 = ashr i32 %a, %b".to_string()]);
}

#[test]
fn emit_unsigned_shr_uses_lshr() {
    let spec = lookup("$u32_shr").unwrap();
    let mut names = NameSupply::new();
    let (lines, _) =
        spec.emit.run(&vec!["%a".to_string(), "%b".to_string()], &mut names);
    assert_eq!(lines, vec!["  %t.0 = lshr i32 %a, %b".to_string()]);
}

#[test]
fn emit_signed_div_uses_sdiv() {
    let spec = lookup("$i32_div").unwrap();
    let mut names = NameSupply::new();
    let (lines, _) =
        spec.emit.run(&vec!["%a".to_string(), "%b".to_string()], &mut names);
    assert_eq!(lines, vec!["  %t.0 = sdiv i32 %a, %b".to_string()]);
}

#[test]
fn emit_unsigned_div_uses_udiv() {
    let spec = lookup("$u32_div").unwrap();
    let mut names = NameSupply::new();
    let (lines, _) =
        spec.emit.run(&vec!["%a".to_string(), "%b".to_string()], &mut names);
    assert_eq!(lines, vec!["  %t.0 = udiv i32 %a, %b".to_string()]);
}

#[test]
fn emit_widening_sext() {
    let spec = lookup("$i8_to_i64").unwrap();
    let mut names = NameSupply::new();
    let (lines, _) = spec.emit.run(&vec!["%x".to_string()], &mut names);
    assert_eq!(lines, vec!["  %t.0 = sext i8 %x to i64".to_string()]);
}

#[test]
fn emit_widening_zext() {
    let spec = lookup("$u8_to_u64").unwrap();
    let mut names = NameSupply::new();
    let (lines, _) = spec.emit.run(&vec!["%x".to_string()], &mut names);
    assert_eq!(lines, vec!["  %t.0 = zext i8 %x to i64".to_string()]);
}

#[test]
fn emit_narrowing_trunc() {
    let spec = lookup("$i64_to_i32").unwrap();
    let mut names = NameSupply::new();
    let (lines, _) = spec.emit.run(&vec!["%x".to_string()], &mut names);
    assert_eq!(lines, vec!["  %t.0 = trunc i64 %x to i32".to_string()]);
}

#[test]
fn emit_int_to_float_sitofp() {
    let spec = lookup("$i64_to_f64").unwrap();
    let mut names = NameSupply::new();
    let (lines, _) = spec.emit.run(&vec!["%x".to_string()], &mut names);
    assert_eq!(lines, vec!["  %t.0 = sitofp i64 %x to double".to_string()]);
}

#[test]
fn emit_float_to_int_fptoui() {
    let spec = lookup("$f64_to_u32").unwrap();
    let mut names = NameSupply::new();
    let (lines, _) = spec.emit.run(&vec!["%x".to_string()], &mut names);
    assert_eq!(lines, vec!["  %t.0 = fptoui double %x to i32".to_string()]);
}

#[test]
fn emit_float_widening_uses_fpext() {
    let spec = lookup("$f32_to_f64").unwrap();
    let mut names = NameSupply::new();
    let (lines, _) = spec.emit.run(&vec!["%x".to_string()], &mut names);
    assert_eq!(lines, vec!["  %t.0 = fpext float %x to double".to_string()]);
}

#[test]
fn emit_bool_to_i32_zext() {
    let spec = lookup("$bool_to_i32").unwrap();
    let mut names = NameSupply::new();
    let (lines, _) = spec.emit.run(&vec!["%b".to_string()], &mut names);
    assert_eq!(lines, vec!["  %t.0 = zext i1 %b to i32".to_string()]);
}

#[test]
fn emit_popcount_uses_llvm_intrinsic() {
    let spec = lookup("$i64_popcount").unwrap();
    let mut names = NameSupply::new();
    let (lines, result) = spec.emit.run(&vec!["%x".to_string()], &mut names);
    assert_eq!(
        lines,
        vec!["  %t.0 = call i64 @llvm.ctpop.i64(i64 %x)".to_string()]
    );
    assert_eq!(result, "%t.0");
    // And it declares the extern.
    assert_eq!(spec.llvm_declares, vec!["declare i64 @llvm.ctpop.i64(i64)"]);
}

#[test]
fn emit_ctlz_passes_zero_undef_false() {
    let spec = lookup("$i32_clz").unwrap();
    let mut names = NameSupply::new();
    let (lines, _) = spec.emit.run(&vec!["%x".to_string()], &mut names);
    assert_eq!(
        lines,
        vec!["  %t.0 = call i32 @llvm.ctlz.i32(i32 %x, i1 false)".to_string()]
    );
}

#[test]
fn emit_sqrt_uses_llvm_intrinsic() {
    let spec = lookup("$f64_sqrt").unwrap();
    let mut names = NameSupply::new();
    let (lines, _) = spec.emit.run(&vec!["%x".to_string()], &mut names);
    assert_eq!(
        lines,
        vec!["  %t.0 = call double @llvm.sqrt.double(double %x)".to_string()]
    );
}

#[test]
fn every_intrinsic_has_a_reserved_name() {
    for spec in all() {
        assert!(is_intrinsic(&spec.name), "{}", spec.name);
    }
}
