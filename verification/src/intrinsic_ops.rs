//! Integer operations go by the sign of their type.
//!
//! The name of an intrinsic says which operation it is. Division, remainder,
//! shifts to the right and orders have one instruction for signed and one for
//! unsigned types; the others have one for both.

use vstd::prelude::*;

use crate::ast::TypeView;
use crate::common::IntTy;
use crate::intrinsics;
use crate::intrinsics::{EmitView, IntrinsicView};

verus! {

/// The instruction for an operation on two integers.
pub open spec fn arith_instruction(op: Seq<char>, signed: bool) -> Seq<char> {
    if op == "div"@ || op == "rem"@ {
        (if signed {
            "s"@
        } else {
            "u"@
        }) + op
    } else if op == "shr"@ {
        (if signed {
            "a"@
        } else {
            "l"@
        }) + op
    } else {
        op
    }
}

/// The predicate for a comparison of two integers.
pub open spec fn order_predicate(op: Seq<char>, signed: bool) -> Seq<char> {
    if op == "eq"@ || op == "ne"@ {
        op
    } else {
        (if signed {
            "s"@
        } else {
            "u"@
        }) + op
    }
}

/// The intrinsic takes two integers of the type, gives one, and is the
/// operation of its name at the width of the type.
pub open spec fn does_arith(v: IntrinsicView, t: IntTy, op: Seq<char>) -> bool {
    &&& v.name == intrinsics::op_name(t.spec_name(), op)
    &&& v.inputs == seq![TypeView::Int(t), TypeView::Int(t)]
    &&& v.result == TypeView::Int(t)
    &&& v.emit == EmitView::BinInt {
        op: arith_instruction(op, t.spec_signed()),
        bits: t.spec_bits(),
    }
}

/// The intrinsic takes two integers of the type, gives a boolean, and is the
/// comparison of its name at the width of the type.
pub open spec fn does_compare(v: IntrinsicView, t: IntTy, op: Seq<char>) -> bool {
    &&& v.name == intrinsics::op_name(t.spec_name(), op)
    &&& v.inputs == seq![TypeView::Int(t), TypeView::Int(t)]
    &&& v.result == TypeView::Bool
    &&& v.emit == EmitView::CompareInt {
        pred: order_predicate(op, t.spec_signed()),
        bits: t.spec_bits(),
    }
}

/// Each arithmetic intrinsic of an integer type is the operation of its name.
pub proof fn lemma_arith(t: IntTy, i: int)
    requires
        0 <= i < intrinsics::int_arith(t).len(),
    ensures
        exists|op: Seq<char>| #[trigger] does_arith(intrinsics::int_arith(t)[i], t, op),
{
    let v = intrinsics::int_arith(t)[i];
    reveal_strlit("s");
    reveal_strlit("u");
    reveal_strlit("a");
    reveal_strlit("l");
    reveal_strlit("add");
    reveal_strlit("sub");
    reveal_strlit("mul");
    reveal_strlit("div");
    reveal_strlit("rem");
    reveal_strlit("and");
    reveal_strlit("or");
    reveal_strlit("xor");
    reveal_strlit("shl");
    reveal_strlit("shr");
    reveal_strlit("sdiv");
    reveal_strlit("udiv");
    reveal_strlit("srem");
    reveal_strlit("urem");
    reveal_strlit("ashr");
    reveal_strlit("lshr");
    assert("s"@ + "div"@ =~= "sdiv"@);
    assert("u"@ + "div"@ =~= "udiv"@);
    assert("s"@ + "rem"@ =~= "srem"@);
    assert("u"@ + "rem"@ =~= "urem"@);
    assert("a"@ + "shr"@ =~= "ashr"@);
    assert("l"@ + "shr"@ =~= "lshr"@);
    if i == 0 {
        assert("add"@[0] == 'a');
        assert("div"@[0] == 'd' && "rem"@[0] == 'r' && "shr"@[0] == 's');
        assert(does_arith(v, t, "add"@));
    } else if i == 1 {
        assert("sub"@[1] == 'u' && "shr"@[1] == 'h');
        assert("sub"@[0] == 's' && "div"@[0] == 'd' && "rem"@[0] == 'r');
        assert(does_arith(v, t, "sub"@));
    } else if i == 2 {
        assert("mul"@[0] == 'm');
        assert("div"@[0] == 'd' && "rem"@[0] == 'r' && "shr"@[0] == 's');
        assert(does_arith(v, t, "mul"@));
    } else if i == 3 {
        assert(does_arith(v, t, "div"@));
    } else if i == 4 {
        assert(does_arith(v, t, "rem"@));
    } else if i == 5 {
        assert("and"@[0] == 'a');
        assert("div"@[0] == 'd' && "rem"@[0] == 'r' && "shr"@[0] == 's');
        assert(does_arith(v, t, "and"@));
    } else if i == 6 {
        assert("or"@.len() == 2 && "div"@.len() == 3 && "rem"@.len() == 3 && "shr"@.len() == 3);
        assert(does_arith(v, t, "or"@));
    } else if i == 7 {
        assert("xor"@[0] == 'x');
        assert("div"@[0] == 'd' && "rem"@[0] == 'r' && "shr"@[0] == 's');
        assert(does_arith(v, t, "xor"@));
    } else if i == 8 {
        assert("shl"@[2] == 'l' && "shr"@[2] == 'r');
        assert("shl"@[0] == 's' && "div"@[0] == 'd' && "rem"@[0] == 'r');
        assert(does_arith(v, t, "shl"@));
    } else {
        assert("shr"@[0] == 's' && "div"@[0] == 'd' && "rem"@[0] == 'r');
        assert(does_arith(v, t, "shr"@));
    }
}

/// Each comparison of an integer type is the comparison of its name.
pub proof fn lemma_compare(t: IntTy, i: int)
    requires
        0 <= i < intrinsics::int_comparisons(t).len(),
    ensures
        exists|op: Seq<char>| #[trigger] does_compare(intrinsics::int_comparisons(t)[i], t, op),
{
    let v = intrinsics::int_comparisons(t)[i];
    reveal_strlit("s");
    reveal_strlit("u");
    reveal_strlit("eq");
    reveal_strlit("ne");
    reveal_strlit("lt");
    reveal_strlit("le");
    reveal_strlit("gt");
    reveal_strlit("ge");
    reveal_strlit("slt");
    reveal_strlit("ult");
    reveal_strlit("sle");
    reveal_strlit("ule");
    reveal_strlit("sgt");
    reveal_strlit("ugt");
    reveal_strlit("sge");
    reveal_strlit("uge");
    assert("s"@ + "lt"@ =~= "slt"@);
    assert("u"@ + "lt"@ =~= "ult"@);
    assert("s"@ + "le"@ =~= "sle"@);
    assert("u"@ + "le"@ =~= "ule"@);
    assert("s"@ + "gt"@ =~= "sgt"@);
    assert("u"@ + "gt"@ =~= "ugt"@);
    assert("s"@ + "ge"@ =~= "sge"@);
    assert("u"@ + "ge"@ =~= "uge"@);
    assert("eq"@[0] == 'e' && "ne"@[0] == 'n');
    assert("lt"@[0] == 'l' && "le"@[0] == 'l' && "gt"@[0] == 'g' && "ge"@[0] == 'g');
    if i == 0 {
        assert(does_compare(v, t, "eq"@));
    } else if i == 1 {
        assert(does_compare(v, t, "ne"@));
    } else if i == 2 {
        assert(does_compare(v, t, "lt"@));
    } else if i == 3 {
        assert(does_compare(v, t, "le"@));
    } else if i == 4 {
        assert(does_compare(v, t, "gt"@));
    } else {
        assert(does_compare(v, t, "ge"@));
    }
}

} // verus!
