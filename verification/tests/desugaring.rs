//! Elision in signatures: new names, and what they outlive.

use silica_mir::ast::{
    DeclMeta, Function, GeneratedKind, GenericParams, Lifetime, LifetimeParam, Param, RefKind,
    SourceInfo, Span, Type, TypeKind,
};
use silica_mir::desugar::lifetime::Pos;
use silica_mir::helpers::{i64_ty, mut_ref_ty, named_ref_ty, shared_ref_ty, trivial_markers};
use silica_mir::lifetime::desugaring::{elide_function, elide_type_pos, ElideCtx};

fn helper_source() -> SourceInfo {
    SourceInfo::generated(GeneratedKind::TestHelper, Span::default())
}

fn lifetime_param(name: &str) -> LifetimeParam {
    LifetimeParam::written(Lifetime(name.into()), Span::default())
}

fn names(params: &[LifetimeParam]) -> Vec<Lifetime> {
    params.iter().map(|p| p.lifetime.clone()).collect()
}

fn function(lifetime_params: Vec<LifetimeParam>, params: Vec<Param>) -> Function {
    Function {
        meta: DeclMeta {
            name: "f".into(),
            name_source: helper_source(),
            params: GenericParams {
                lifetime_params,
                outlives: Vec::new(),
                type_params: Vec::new(),
                source: helper_source(),
            },
            markers: trivial_markers(),
        },
        is_extern: false,
        abi: None,
        params,
        body: None,
    }
}

fn param(name: &str, ty: Type) -> Param {
    Param { name: name.into(), ty, source: helper_source() }
}

#[test]
fn desugaring_each_unannotated_ref_gets_fresh_lifetime() {
    let mut ty1 = mut_ref_ty(i64_ty());
    let mut ty2 = shared_ref_ty(i64_ty());
    let mut ctx = ElideCtx::new(&Vec::new());
    elide_type_pos(&mut ty1, Pos::Input, &mut ctx);
    elide_type_pos(&mut ty2, Pos::Input, &mut ctx);
    assert_eq!(
        names(&ctx.synthesized),
        vec![Lifetime("s0".into()), Lifetime("s1".into())]
    );
    assert!(matches!(ty1.kind, TypeKind::Ref(_, Some(_), _)));
    assert!(matches!(ty2.kind, TypeKind::Ref(_, Some(_), _)));
}

#[test]
fn desugaring_already_annotated_ref_is_untouched() {
    let mut ty = named_ref_ty(RefKind::Shared, "a", i64_ty());
    let mut ctx = ElideCtx::new(&vec![lifetime_param("a")]);
    elide_type_pos(&mut ty, Pos::Input, &mut ctx);
    assert!(ctx.synthesized.is_empty());
    if let TypeKind::Ref(_, Some(lt), _) = &ty.kind {
        assert_eq!(lt.0, "a");
    } else {
        panic!("expected annotated ref");
    }
}

#[test]
fn desugaring_fresh_skips_existing_names() {
    let mut ctx = ElideCtx::new(&vec![lifetime_param("s0"), lifetime_param("s2")]);
    let a = ctx.fresh_at(helper_source());
    let b = ctx.fresh_at(helper_source());
    assert_eq!(a.0, "s1");
    assert_eq!(b.0, "s3");
}

#[test]
fn desugaring_function_gets_synthesized_params_appended() {
    let mut f = function(
        vec![lifetime_param("a")],
        vec![
            param("x", mut_ref_ty(i64_ty())),
            param("y", named_ref_ty(RefKind::Shared, "a", i64_ty())),
        ],
    );
    elide_function(&mut f);
    assert_eq!(
        names(&f.meta.params.lifetime_params),
        vec![Lifetime("a".into()), Lifetime("s0".into())]
    );
    assert_eq!(
        f.meta.params.lifetime_params[1].source.generated_kind(),
        Some(GeneratedKind::LifetimeElision)
    );
}

#[test]
fn desugaring_idempotent() {
    let mut f = function(Vec::new(), vec![param("x", mut_ref_ty(i64_ty()))]);
    elide_function(&mut f);
    let after_first = f.clone();
    elide_function(&mut f);
    assert_eq!(f, after_first);
}
