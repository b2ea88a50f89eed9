//! Outlives constraints.

use silica_mir::ast::{GeneratedKind, Lifetime, SourceInfo, Span};
use silica_mir::lifetime::constraints::{transitive_closure, ConstraintCause, ConstraintSet};
use silica_mir::lifetime::region::Region;

fn source() -> SourceInfo {
    SourceInfo::generated(GeneratedKind::TestHelper, Span::default())
}

#[test]
fn emit_stores_constraint() {
    let mut cs = ConstraintSet::new();
    cs.emit(
        Region::Named(Lifetime("a".into())),
        Region::Named(Lifetime("b".into())),
        ConstraintCause::Assignment,
        source(),
    );
    assert_eq!(cs.len(), 1);
}

#[test]
fn reflexive_constraint_is_pruned() {
    let mut cs = ConstraintSet::new();
    let a = Region::Named(Lifetime("a".into()));
    cs.emit(a.clone(), a, ConstraintCause::Assignment, source());
    assert!(cs.is_empty());
}

#[test]
fn static_outliving_anything_is_pruned() {
    let mut cs = ConstraintSet::new();
    cs.emit(
        Region::Static,
        Region::Free(0),
        ConstraintCause::Assignment,
        source(),
    );
    assert!(cs.is_empty());
}

#[test]
fn transitive_closure_chains() {
    let a = Region::Named(Lifetime("a".into()));
    let b = Region::Named(Lifetime("b".into()));
    let c = Region::Named(Lifetime("c".into()));
    let axioms = vec![(a.clone(), b.clone()), (b.clone(), c.clone())];
    let closure = transitive_closure(&axioms);
    assert!(closure.contains(&(a.clone(), c.clone())));
    assert!(closure.contains(&(a.clone(), a.clone())));
    assert!(closure.contains(&(Region::Static, a)));
}

#[test]
fn inference_projection_derives_caller_requirement() {
    let p = Region::Named(Lifetime("p".into()));
    let q = Region::Named(Lifetime("q".into()));
    let callee_a = Region::Inference(0);
    let callee_b = Region::Inference(1);
    let mut cs = ConstraintSet::new();
    cs.emit(
        q.clone(),
        callee_b.clone(),
        ConstraintCause::Call {
            callee: "needs_bound".into(),
        },
        source(),
    );
    cs.emit(
        callee_b,
        callee_a.clone(),
        ConstraintCause::Call {
            callee: "needs_bound".into(),
        },
        source(),
    );
    cs.emit(
        p.clone(),
        callee_a.clone(),
        ConstraintCause::Call {
            callee: "needs_bound".into(),
        },
        source(),
    );
    cs.emit(
        callee_a,
        p.clone(),
        ConstraintCause::Call {
            callee: "needs_bound".into(),
        },
        source(),
    );

    let projected = cs.project_inference();
    assert_eq!(projected.len(), 1);
    assert_eq!(projected.constraints[0].outlives, q);
    assert_eq!(projected.constraints[0].sub, p);
}

#[test]
fn inference_projection_preserves_body_local_escape() {
    let local = Region::Free(0);
    let caller = Region::Named(Lifetime("p".into()));
    let inst = Region::Inference(1);
    let mut cs = ConstraintSet::new();
    cs.emit(
        local.clone(),
        inst.clone(),
        ConstraintCause::Call {
            callee: "returns_ref".into(),
        },
        source(),
    );
    cs.emit(
        inst,
        caller.clone(),
        ConstraintCause::Call {
            callee: "returns_ref".into(),
        },
        source(),
    );

    let projected = cs.project_inference();
    assert_eq!(projected.len(), 1);
    assert_eq!(projected.constraints[0].outlives, local);
    assert_eq!(projected.constraints[0].sub, caller);
}

#[test]
fn unconstrained_inference_imposes_no_caller_requirement() {
    let inst = Region::Inference(0);
    let caller = Region::Named(Lifetime("p".into()));
    let mut cs = ConstraintSet::new();
    cs.emit(
        inst,
        caller,
        ConstraintCause::Call {
            callee: "output_only".into(),
        },
        source(),
    );

    assert!(cs.project_inference().is_empty());
}

#[test]
fn projection_follows_chains_and_circles() {
    let a = Region::Named(Lifetime("a".into()));
    let b = Region::Named(Lifetime("b".into()));
    let c = Region::Free(7);
    let x = Region::Inference(0);
    let y = Region::Inference(1);
    let mut cs = ConstraintSet::new();
    let pairs = [
        (a.clone(), x.clone()),
        (x.clone(), y.clone()),
        (y.clone(), x.clone()),
        (y.clone(), b.clone()),
        (x.clone(), c.clone()),
        (Region::Inference(2), b.clone()),
        (b.clone(), c.clone()),
    ];
    for (long, short) in pairs {
        cs.emit(long, short, ConstraintCause::Assignment, source());
    }
    let projected = cs.project_inference();
    let mut found: Vec<(String, String)> =
        projected.iter().iter().map(|k| (k.outlives.text(), k.sub.text())).collect();
    found.sort();
    let expected: Vec<(String, String)> = [("'a", "'?7"), ("'a", "'b"), ("'b", "'?7")]
        .iter()
        .map(|(p, q)| (p.to_string(), q.to_string()))
        .collect();
    assert_eq!(found, expected);
}
