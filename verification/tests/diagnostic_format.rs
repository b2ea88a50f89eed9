//! How diagnostics name lifetimes.

use silica_mir::ast::{
    DeclMeta, GeneratedKind, GenericParams, IntTy, Lifetime, LifetimeParam, Markers, RefKind,
    SourceInfo, Span, Type, TypeKind,
};
use silica_mir::diagnostic_format::DiagnosticFormat;

fn meta(name: &str, params: Vec<LifetimeParam>) -> DeclMeta {
    let source = SourceInfo::generated(GeneratedKind::TestHelper, Span::default());
    DeclMeta {
        name: name.into(),
        name_source: source,
        params: GenericParams {
            lifetime_params: params,
            outlives: Vec::new(),
            type_params: Vec::new(),
            source,
        },
        markers: Markers::empty(),
    }
}

#[test]
fn generated_lifetimes_are_distinct_and_stable_within_a_scope() {
    let meta = meta(
        "f",
        vec![
            LifetimeParam::generated(
                Lifetime("s0".into()),
                GeneratedKind::LifetimeElision,
                Span::default(),
            ),
            LifetimeParam::generated(
                Lifetime("s1".into()),
                GeneratedKind::LifetimeElision,
                Span::default(),
            ),
        ],
    );
    let mut format = DiagnosticFormat::default();
    let scope = format.scope(&meta);

    assert_eq!(format.lifetime(&scope, &Lifetime("s0".into())), "'1");
    assert_eq!(format.lifetime(&scope, &Lifetime("s1".into())), "'2");
    assert_eq!(format.lifetime(&scope, &Lifetime("s0".into())), "'1");
}

#[test]
fn scopes_do_not_alias_same_internal_name() {
    let generated = || {
        vec![LifetimeParam::generated(
            Lifetime("s0".into()),
            GeneratedKind::LifetimeElision,
            Span::default(),
        )]
    };
    let caller = meta("caller", generated());
    let callee = meta("callee", generated());
    let mut format = DiagnosticFormat::new();
    let caller_scope = format.scope(&caller);
    let callee_scope = format.scope(&callee);

    assert_eq!(format.lifetime(&caller_scope, &Lifetime("s0".into())), "'1");
    assert_eq!(format.lifetime(&callee_scope, &Lifetime("s0".into())), "'2");
}

#[test]
fn explicit_names_are_preserved_even_when_they_resemble_internal_names() {
    let meta = meta(
        "f",
        vec![LifetimeParam::written(
            Lifetime("s0".into()),
            Span {
                line: 1,
                col: 1,
                end_line: 1,
                end_col: 4,
            },
        )],
    );
    let ty = Type::new(
        TypeKind::Ref(
            RefKind::Mut,
            Some(Lifetime("s0".into())),
            Box::new(Type::synthesized(TypeKind::Int(IntTy::I64))),
        ),
        SourceInfo::generated(GeneratedKind::TestHelper, Span::default()),
    );
    let mut format = DiagnosticFormat::new();
    let scope = format.scope(&meta);

    assert_eq!(format.ty(&scope, &ty), "&mut 's0 i64");
}
