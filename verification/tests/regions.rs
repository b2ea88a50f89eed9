//! Regions and their supply.

use silica_mir::ast::Lifetime;
use silica_mir::lifetime::region::{Region, RegionCtx};

#[test]
fn named_and_free_regions_display() {
    let n = Region::Named(Lifetime("a".into()));
    let f = Region::Free(3);
    let i = Region::Inference(4);
    let s = Region::Static;
    assert_eq!(n.text(), "'a");
    assert_eq!(f.text(), "'?3");
    assert_eq!(i.text(), "'?call4");
    assert_eq!(s.text(), "'static");
}

#[test]
fn fresh_advances_counter() {
    let mut ctx = RegionCtx::new();
    assert_eq!(ctx.fresh(), Region::Free(0));
    assert_eq!(ctx.fresh_inference(), Region::Inference(1));
    assert_eq!(ctx.fresh(), Region::Free(2));
}

#[test]
fn region_for_ref_named_when_some() {
    let mut ctx = RegionCtx::new();
    let r = ctx.region_for_ref(&Some(Lifetime("a".into())));
    assert_eq!(r, Region::Named(Lifetime("a".into())));
}

#[test]
fn region_for_ref_free_when_none() {
    let mut ctx = RegionCtx::new();
    let r = ctx.region_for_ref(&None);
    assert_eq!(r, Region::Free(0));
}
