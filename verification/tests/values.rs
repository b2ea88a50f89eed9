//! Tables, places, orders and other values.

use silica_mir::ast::{GeneratedKind, Marker, Markers, Operand, Place, SourceInfo, Span, Type};
use silica_mir::float_bits::{hex16_text, widen_f32};
use silica_mir::helpers::{
    const_op, copy_op, deref_place, downcast_place, field_place, i64_ty, index_place, int_const,
    var_place,
};
use silica_mir::layout::align_up;
use silica_mir::lifetime::loans::{join_loans, Loan, LoanMap};
use silica_mir::order::place_before;
use silica_mir::place::{is_ancestor_or_self, nearest_owned_path};
use silica_mir::place_set::PlaceSet;
use silica_mir::source_order::sort_by_span;
use silica_mir::table::Table;

use silica_mir::ast::{IntTy, RefKind};

fn slot(base: Place, i: u64) -> Place {
    index_place(base, const_op(int_const(i, IntTy::I64)))
}

fn at(line: u32, col: u32) -> Span {
    Span { line, col, end_line: line, end_col: col + 1 }
}

#[test]
fn tables_keep_the_order_of_first_insertion() {
    let mut t: Table<u32> = Table::new();
    t.insert("b".to_string(), 1);
    t.insert("a".to_string(), 2);
    t.insert("b".to_string(), 3);
    t.insert("c".to_string(), 4);
    let keys: Vec<&str> = (0..t.len()).map(|i| t.key_at(i).as_str()).collect();
    assert_eq!(keys, ["b", "a", "c"]);
    let values: Vec<u32> = (0..t.len()).map(|i| *t.value_at(i)).collect();
    assert_eq!(values, [3, 2, 4]);
    assert_eq!(t.get("b"), Some(&3));
    assert_eq!(t.get("d"), None);
    assert_eq!(t.position("c"), Some(2));
    assert!(t.contains_key("a") && !t.contains_key("d"));
    *t.value_mut(1) = 7;
    assert_eq!(t.replace_at(0, 9), 3);
    assert_eq!((t.get("a"), t.get("b")), (Some(&7), Some(&9)));
}

#[test]
fn covering_is_reflexive_and_transitive() {
    let x = var_place("x");
    let f = field_place(var_place("x"), "f");
    let g = field_place(field_place(var_place("x"), "f"), "g");
    for p in [&x, &f, &g] {
        assert!(is_ancestor_or_self(p, p));
    }
    assert!(is_ancestor_or_self(&x, &f) && is_ancestor_or_self(&f, &g));
    assert!(is_ancestor_or_self(&x, &g));
    assert!(!is_ancestor_or_self(&g, &f));
    assert!(!is_ancestor_or_self(&f, &field_place(var_place("x"), "h")));
    assert!(!is_ancestor_or_self(&slot(var_place("x"), 0), &slot(var_place("x"), 1)));
}

#[test]
fn the_owned_path_ends_at_the_first_pointer() {
    let p = field_place(deref_place(field_place(var_place("x"), "f")), "g");
    assert_eq!(nearest_owned_path(&p), field_place(var_place("x"), "f"));
    let dynamic = index_place(var_place("a"), copy_op(var_place("i")));
    assert_eq!(nearest_owned_path(&dynamic), var_place("a"));
    assert_eq!(nearest_owned_path(&slot(var_place("a"), 1)), slot(var_place("a"), 1));
}

#[test]
fn places_are_ordered_totally() {
    let places = [
        var_place("a"),
        var_place("b"),
        field_place(var_place("a"), "f"),
        field_place(var_place("a"), "g"),
        downcast_place(var_place("a"), "V"),
        deref_place(var_place("a")),
        slot(var_place("a"), 0),
        slot(var_place("a"), 1),
    ];
    for (i, p) in places.iter().enumerate() {
        for (j, q) in places.iter().enumerate() {
            let both = place_before(p, q) && place_before(q, p);
            assert!(!both);
            assert_eq!(i == j, !place_before(p, q) && !place_before(q, p));
        }
    }
}

#[test]
fn sets_of_places_do_not_depend_on_the_order_of_insertion() {
    let mut a = PlaceSet::new();
    let mut b = PlaceSet::new();
    assert!(a.insert(var_place("x")));
    assert!(a.insert(var_place("y")));
    assert!(!a.insert(var_place("x")));
    assert!(b.insert(var_place("y")));
    assert!(b.insert(var_place("x")));
    assert!(a.same(&b));
    a.insert(field_place(var_place("x"), "f"));
    assert!(!a.same(&b));
    a.remove_under(&var_place("x"));
    assert_eq!(a.len(), 1);
    assert!(a.contains(&var_place("y")));
}

#[test]
fn joining_keeps_the_loans_of_both_sides() {
    let source = SourceInfo::generated(GeneratedKind::TestHelper, Span::default());
    let mut a: LoanMap = LoanMap::new();
    let mut b: LoanMap = LoanMap::new();
    a.insert(var_place("r"), Loan::single(RefKind::Mut, var_place("x"), source));
    b.insert(var_place("r"), Loan::single(RefKind::Mut, var_place("y"), source));
    b.insert(var_place("s"), Loan::single(RefKind::Shared, var_place("z"), source));
    a.insert(var_place("t"), Loan::single(RefKind::Shared, var_place("z"), source));
    b.insert(var_place("t"), Loan::single(RefKind::Mut, var_place("z"), source));
    let both = join_loans(&a, &b);
    assert_eq!(both.len(), 1);
    assert_eq!(both.get(&var_place("r")).unwrap().loaned.len(), 2);
    let same = join_loans(&a, &a);
    assert_eq!(same.get(&var_place("r")).unwrap().loaned.len(), 1);
}

#[test]
fn sorting_by_place_is_stable() {
    let list = vec![(at(2, 1), 'a'), (at(1, 5), 'b'), (at(2, 1), 'c'), (at(1, 2), 'd')];
    assert_eq!(sort_by_span(list), ['d', 'b', 'a', 'c']);
}

#[test]
fn rounding_up_to_a_multiple() {
    assert_eq!(align_up(0, 8), Some(0));
    assert_eq!(align_up(1, 8), Some(8));
    assert_eq!(align_up(8, 8), Some(8));
    assert_eq!(align_up(9, 2), Some(10));
    assert_eq!(align_up(u64::MAX, 2), None);
}

#[test]
fn widening_keeps_the_value() {
    let values = [
        0.0f32,
        -0.0,
        1.0,
        -1.5,
        0.1,
        f32::MAX,
        f32::MIN_POSITIVE,
        f32::from_bits(1),
        f32::from_bits(0x007f_ffff),
        f32::INFINITY,
        f32::NEG_INFINITY,
    ];
    for x in values {
        assert_eq!(widen_f32(x.to_bits() as u64), (x as f64).to_bits(), "for {}", x);
    }
}

#[test]
fn hexadecimal_has_sixteen_digits() {
    assert_eq!(hex16_text(0), "0000000000000000");
    assert_eq!(hex16_text(0x3FF8_0000_0000_0000), "3FF8000000000000");
    assert_eq!(hex16_text(u64::MAX), "FFFFFFFFFFFFFFFF");
}

#[test]
fn copy_implies_move() {
    let copy = Markers::from_list(&vec![Marker::Copy]);
    assert!(copy.implies(Marker::Copy) && copy.implies(Marker::Move));
    assert!(!copy.implies(Marker::Drop));
    assert!(!Markers::empty().implies(Marker::Move));
    assert_eq!(Markers::from_list(&vec![Marker::Drop]).iter_declared(), [Marker::Drop]);
}

#[test]
fn types_are_equal_wherever_they_come_from() {
    let elsewhere = Type::new(i64_ty().kind, SourceInfo::written(at(3, 4)));
    assert_eq!(elsewhere, i64_ty());
    assert!(elsewhere.source != i64_ty().source);
}

#[test]
fn operands_keep_their_places() {
    let op = copy_op(field_place(var_place("x"), "f"));
    assert!(matches!(&op, Operand::Copy(Place::Field(_, f)) if f == "f"));
}
