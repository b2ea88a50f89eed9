//! No two intrinsics have the same name.
//!
//! A name is made of a type and an operation, or of the two types of a cast.
//! Types and operations are numbered here. Names that are equal have equal
//! numbers, and no two intrinsics have the same pair of numbers.

use vstd::prelude::*;

use crate::common::{FloatTy, IntTy};
use crate::intrinsics;
use crate::intrinsics::IntrinsicView;
use crate::subst;

verus! {

// ---------- Numbers of types and operations ----------

spec fn ty_text(c: int) -> Seq<char> {
    if c == 0 {
        "i8"@
    } else if c == 1 {
        "i16"@
    } else if c == 2 {
        "i32"@
    } else if c == 3 {
        "i64"@
    } else if c == 4 {
        "u8"@
    } else if c == 5 {
        "u16"@
    } else if c == 6 {
        "u32"@
    } else if c == 7 {
        "u64"@
    } else if c == 8 {
        "f32"@
    } else if c == 9 {
        "f64"@
    } else {
        "bool"@
    }
}

spec fn int_code(t: IntTy) -> int {
    match t {
        IntTy::I8 => 0,
        IntTy::I16 => 1,
        IntTy::I32 => 2,
        IntTy::I64 => 3,
        IntTy::U8 => 4,
        IntTy::U16 => 5,
        IntTy::U32 => 6,
        IntTy::U64 => 7,
    }
}

spec fn float_code(t: FloatTy) -> int {
    match t {
        FloatTy::F32 => 8,
        FloatTy::F64 => 9,
    }
}

spec fn op_text(o: int) -> Seq<char> {
    if o == 0 {
        "add"@
    } else if o == 1 {
        "sub"@
    } else if o == 2 {
        "mul"@
    } else if o == 3 {
        "div"@
    } else if o == 4 {
        "rem"@
    } else if o == 5 {
        "and"@
    } else if o == 6 {
        "or"@
    } else if o == 7 {
        "xor"@
    } else if o == 8 {
        "shl"@
    } else if o == 9 {
        "shr"@
    } else if o == 10 {
        "neg"@
    } else if o == 11 {
        "eq"@
    } else if o == 12 {
        "ne"@
    } else if o == 13 {
        "lt"@
    } else if o == 14 {
        "le"@
    } else if o == 15 {
        "gt"@
    } else if o == 16 {
        "ge"@
    } else if o == 17 {
        "popcount"@
    } else if o == 18 {
        "clz"@
    } else if o == 19 {
        "ctz"@
    } else {
        "sqrt"@
    }
}

/// Operations from 100 on are casts to the type of the rest.
spec fn full_op(o: int) -> Seq<char> {
    if o >= 100 {
        "to_"@ + ty_text(o - 100)
    } else {
        op_text(o)
    }
}

spec fn known(c: int, o: int) -> bool {
    0 <= c <= 10 && (0 <= o <= 20 || 100 <= o <= 110)
}

spec fn tag_name(c: int, o: int) -> Seq<char> {
    intrinsics::op_name(ty_text(c), full_op(o))
}

proof fn lemma_ty_texts()
    ensures
        forall|c: int, d: int|
            0 <= c <= 10 && 0 <= d <= 10 && #[trigger] ty_text(c) == #[trigger] ty_text(d) ==> c
                == d,
        forall|c: int, i: int|
            0 <= c <= 10 && 0 <= i < ty_text(c).len() ==> #[trigger] ty_text(c)[i] != '_',
{
    reveal_strlit("i8");
    reveal_strlit("i16");
    reveal_strlit("i32");
    reveal_strlit("i64");
    reveal_strlit("u8");
    reveal_strlit("u16");
    reveal_strlit("u32");
    reveal_strlit("u64");
    reveal_strlit("f32");
    reveal_strlit("f64");
    reveal_strlit("bool");
    assert forall|c: int, d: int|
        0 <= c <= 10 && 0 <= d <= 10 && #[trigger] ty_text(c) == #[trigger] ty_text(d) implies c
        == d by {
        let a = ty_text(c);
        let b = ty_text(d);
        assert(a.len() == b.len());
        assert(a[0] == b[0]);
        assert(a[1] == b[1]);
    }
}

/// The first two letters, the length and the last letter.
spec fn mark(s: Seq<char>) -> (char, char, nat, char) {
    (s[0], s[1], s.len(), s.last())
}

proof fn lemma_op_texts(o: int, p: int)
    requires
        0 <= o <= 20,
        0 <= p <= 20,
        op_text(o) == op_text(p),
    ensures
        o == p,
{
    reveal_strlit("add");
    reveal_strlit("sub");
    reveal_strlit("mul");
    reveal_strlit("div");
    reveal_strlit("rem");
    reveal_strlit("and");
    reveal_strlit("or");
    reveal_strlit("xor");
    reveal_strlit("shl");
    reveal_strlit("shr");
    reveal_strlit("neg");
    reveal_strlit("eq");
    reveal_strlit("ne");
    reveal_strlit("lt");
    reveal_strlit("le");
    reveal_strlit("gt");
    reveal_strlit("ge");
    reveal_strlit("popcount");
    reveal_strlit("clz");
    reveal_strlit("ctz");
    reveal_strlit("sqrt");
    assert(mark(op_text(o)) == mark(op_text(p)));
    assert(mark("add"@) == ('a', 'd', 3nat, 'd'));
    assert(mark("sub"@) == ('s', 'u', 3nat, 'b'));
    assert(mark("mul"@) == ('m', 'u', 3nat, 'l'));
    assert(mark("div"@) == ('d', 'i', 3nat, 'v'));
    assert(mark("rem"@) == ('r', 'e', 3nat, 'm'));
    assert(mark("and"@) == ('a', 'n', 3nat, 'd'));
    assert(mark("or"@) == ('o', 'r', 2nat, 'r'));
    assert(mark("xor"@) == ('x', 'o', 3nat, 'r'));
    assert(mark("shl"@) == ('s', 'h', 3nat, 'l'));
    assert(mark("shr"@) == ('s', 'h', 3nat, 'r'));
    assert(mark("neg"@) == ('n', 'e', 3nat, 'g'));
    assert(mark("eq"@) == ('e', 'q', 2nat, 'q'));
    assert(mark("ne"@) == ('n', 'e', 2nat, 'e'));
    assert(mark("lt"@) == ('l', 't', 2nat, 't'));
    assert(mark("le"@) == ('l', 'e', 2nat, 'e'));
    assert(mark("gt"@) == ('g', 't', 2nat, 't'));
    assert(mark("ge"@) == ('g', 'e', 2nat, 'e'));
    assert(mark("popcount"@) == ('p', 'o', 8nat, 't'));
    assert(mark("clz"@) == ('c', 'l', 3nat, 'z'));
    assert(mark("ctz"@) == ('c', 't', 3nat, 'z'));
    assert(mark("sqrt"@) == ('s', 'q', 4nat, 't'));
}

/// No operation starts as a cast does.
proof fn lemma_no_cast(o: int)
    requires
        0 <= o <= 20,
    ensures
        op_text(o).len() >= 2,
        op_text(o)[0] != 't',
{
    reveal_strlit("add");
    reveal_strlit("sub");
    reveal_strlit("mul");
    reveal_strlit("div");
    reveal_strlit("rem");
    reveal_strlit("and");
    reveal_strlit("or");
    reveal_strlit("xor");
    reveal_strlit("shl");
    reveal_strlit("shr");
    reveal_strlit("neg");
    reveal_strlit("eq");
    reveal_strlit("ne");
    reveal_strlit("lt");
    reveal_strlit("le");
    reveal_strlit("gt");
    reveal_strlit("ge");
    reveal_strlit("popcount");
    reveal_strlit("clz");
    reveal_strlit("ctz");
    reveal_strlit("sqrt");
}

proof fn lemma_full_ops(o: int, p: int)
    requires
        0 <= o <= 20 || 100 <= o <= 110,
        0 <= p <= 20 || 100 <= p <= 110,
        full_op(o) == full_op(p),
    ensures
        o == p,
{
    reveal_strlit("to_");
    let to = "to_"@;
    if o >= 100 && p >= 100 {
        let a = ty_text(o - 100);
        let b = ty_text(p - 100);
        assert((to + a).len() == (to + b).len());
        assert forall|i: int| 0 <= i < a.len() implies a[i] == b[i] by {
            assert((to + a)[3 + i] == (to + b)[3 + i]);
        }
        assert(a =~= b);
        lemma_ty_texts();
    } else if o < 100 && p < 100 {
        lemma_op_texts(o, p);
    } else if o >= 100 {
        lemma_no_cast(p);
        assert((to + ty_text(o - 100))[0] == 't');
    } else {
        lemma_no_cast(o);
        assert((to + ty_text(p - 100))[0] == 't');
    }
}

/// Equal names have equal numbers.
proof fn lemma_tags(c: int, o: int, d: int, p: int)
    requires
        known(c, o),
        known(d, p),
        tag_name(c, o) == tag_name(d, p),
    ensures
        c == d,
        o == p,
{
    reveal_strlit("$");
    reveal_strlit("_");
    lemma_ty_texts();
    let a = ty_text(c);
    let b = ty_text(d);
    let x = full_op(o);
    let y = full_op(p);
    let l = tag_name(c, o);
    let r = tag_name(d, p);
    assert(l[(1 + a.len()) as int] == '_');
    assert(r[(1 + b.len()) as int] == '_');
    if a.len() < b.len() {
        assert(r[(1 + a.len()) as int] == b[a.len() as int]);
    } else if b.len() < a.len() {
        assert(l[(1 + b.len()) as int] == a[b.len() as int]);
    }
    assert(a.len() == b.len());
    assert forall|i: int| 0 <= i < a.len() implies a[i] == b[i] by {
        assert(l[1 + i] == a[i]);
        assert(r[1 + i] == b[i]);
    }
    assert(a =~= b);
    assert(l.len() == 2 + a.len() + x.len());
    assert(r.len() == 2 + b.len() + y.len());
    assert(x.len() == y.len());
    assert forall|i: int| 0 <= i < x.len() implies x[i] == y[i] by {
        assert(l[2 + a.len() + i] == x[i]);
        assert(r[2 + b.len() + i] == y[i]);
    }
    assert(x =~= y);
    lemma_full_ops(o, p);
}

proof fn lemma_cast_name(c: int, d: int)
    ensures
        intrinsics::cast_name(ty_text(c), ty_text(d)) == intrinsics::op_name(
            ty_text(c),
            "to_"@ + ty_text(d),
        ),
{
    reveal_strlit("_to_");
    reveal_strlit("_");
    reveal_strlit("to_");
    assert("_to_"@ =~= "_"@ + "to_"@);
    let a = "$"@ + ty_text(c);
    assert(a + ("_"@ + "to_"@) + ty_text(d) =~= a + "_"@ + ("to_"@ + ty_text(d)));
}

// ---------- Lists of intrinsics ----------

/// No two intrinsics of the list have the same name.
pub open spec fn distinct_names(s: Seq<IntrinsicView>) -> bool {
    forall|i: int, j: int|
        0 <= i < j < s.len() ==> (#[trigger] s[i]).name != (#[trigger] s[j]).name
}

/// The name of `x` has numbers that `p` holds of.
spec fn has_tag(x: IntrinsicView, p: spec_fn(int, int) -> bool) -> bool {
    exists|c: int, o: int| known(c, o) && p(c, o) && x.name == #[trigger] tag_name(c, o)
}

spec fn tagged(s: Seq<IntrinsicView>, p: spec_fn(int, int) -> bool) -> bool {
    forall|i: int| 0 <= i < s.len() ==> has_tag(#[trigger] s[i], p)
}

/// Lists whose numbers are apart have different names.
proof fn lemma_join(
    a: Seq<IntrinsicView>,
    b: Seq<IntrinsicView>,
    p: spec_fn(int, int) -> bool,
    q: spec_fn(int, int) -> bool,
    r: spec_fn(int, int) -> bool,
)
    requires
        distinct_names(a),
        distinct_names(b),
        tagged(a, p),
        tagged(b, q),
        forall|c: int, o: int| known(c, o) ==> !(#[trigger] p(c, o) && q(c, o)),
        forall|c: int, o: int| known(c, o) && (#[trigger] p(c, o)) ==> r(c, o),
        forall|c: int, o: int| known(c, o) && (#[trigger] q(c, o)) ==> r(c, o),
    ensures
        distinct_names(a + b),
        tagged(a + b, r),
{
    let s = a + b;
    assert forall|i: int, j: int| 0 <= i < j < s.len() implies (#[trigger] s[i]).name != (
    #[trigger] s[j]).name by {
        if j < a.len() {
            assert(s[i] == a[i] && s[j] == a[j]);
        } else if i >= a.len() {
            assert(s[i] == b[i - a.len()] && s[j] == b[j - a.len()]);
        } else {
            assert(s[i] == a[i] && s[j] == b[j - a.len()]);
            assert(has_tag(a[i], p));
            assert(has_tag(b[j - a.len()], q));
            let (c, o) = choose|c: int, o: int|
                known(c, o) && p(c, o) && a[i].name == #[trigger] tag_name(c, o);
            let (d, u) = choose|d: int, u: int|
                known(d, u) && q(d, u) && b[j - a.len()].name == #[trigger] tag_name(d, u);
            if s[i].name == s[j].name {
                lemma_tags(c, o, d, u);
            }
        }
    }
    assert forall|i: int| 0 <= i < s.len() implies has_tag(#[trigger] s[i], r) by {
        if i < a.len() {
            assert(s[i] == a[i]);
            assert(has_tag(a[i], p));
            let (c, o) = choose|c: int, o: int|
                known(c, o) && p(c, o) && a[i].name == #[trigger] tag_name(c, o);
            assert(r(c, o) && s[i].name == tag_name(c, o));
        } else {
            let x = b[i - a.len()];
            assert(s[i] == x);
            assert(has_tag(x, q));
            let (c, o) = choose|c: int, o: int|
                known(c, o) && q(c, o) && x.name == #[trigger] tag_name(c, o);
            assert(r(c, o) && s[i].name == tag_name(c, o));
        }
    }
}

/// Operations of one type with numbers in a row.
proof fn lemma_row(s: Seq<IntrinsicView>, c: int, first: int, p: spec_fn(int, int) -> bool)
    requires
        forall|i: int|
            0 <= i < s.len() ==> known(c, first + i) && p(c, first + i) && (#[trigger] s[i]).name
                == tag_name(c, first + i),
    ensures
        distinct_names(s),
        tagged(s, p),
{
    assert forall|i: int, j: int| 0 <= i < j < s.len() implies (#[trigger] s[i]).name != (
    #[trigger] s[j]).name by {
        if s[i].name == s[j].name {
            lemma_tags(c, first + i, c, first + j);
        }
    }
    assert forall|i: int| 0 <= i < s.len() implies has_tag(#[trigger] s[i], p) by {
        assert(s[i].name == tag_name(c, first + i));
    }
}

/// Lists for different types, one after the other.
proof fn lemma_flat<T>(
    s: Seq<T>,
    f: spec_fn(T) -> Seq<IntrinsicView>,
    q: spec_fn(T, int, int) -> bool,
    r: spec_fn(int, int) -> bool,
    n: nat,
)
    requires
        n <= s.len(),
        forall|i: int|
            0 <= i < s.len() ==> distinct_names(f(#[trigger] s[i])) && tagged(
                f(s[i]),
                |c: int, o: int| q(s[i], c, o),
            ),
        forall|i: int, j: int, c: int, o: int|
            0 <= i < j < s.len() && known(c, o) ==> !(#[trigger] q(s[i], c, o) && #[trigger] q(
                s[j],
                c,
                o,
            )),
        forall|i: int, c: int, o: int|
            0 <= i < s.len() && known(c, o) && #[trigger] q(s[i], c, o) ==> r(c, o),
    ensures
        distinct_names(intrinsics::flat(s, f, n)),
        tagged(
            intrinsics::flat(s, f, n),
            |c: int, o: int| r(c, o) && exists|i: int| 0 <= i < n && #[trigger] q(s[i], c, o),
        ),
        tagged(intrinsics::flat(s, f, n), r),
    decreases n,
{
    if n > 0 {
        let m = (n - 1) as nat;
        lemma_flat(s, f, q, r, m);
        let rest = intrinsics::flat(s, f, m);
        let p0 = |c: int, o: int| r(c, o) && exists|i: int| 0 <= i < m && #[trigger] q(s[i], c, o);
        let p1 = |c: int, o: int| q(s[n - 1], c, o);
        let p2 = |c: int, o: int| r(c, o) && exists|i: int| 0 <= i < n && #[trigger] q(s[i], c, o);
        assert(tagged(f(s[n - 1]), p1));
        lemma_join(rest, f(s[n - 1]), p0, p1, p2);
        lemma_weaken(intrinsics::flat(s, f, n), p2, r);
    }
}

proof fn lemma_weaken(
    s: Seq<IntrinsicView>,
    p: spec_fn(int, int) -> bool,
    r: spec_fn(int, int) -> bool,
)
    requires
        tagged(s, p),
        forall|c: int, o: int| known(c, o) && (#[trigger] p(c, o)) ==> r(c, o),
    ensures
        tagged(s, r),
{
    assert forall|i: int| 0 <= i < s.len() implies has_tag(#[trigger] s[i], r) by {
        assert(has_tag(s[i], p));
        let (c, o) = choose|c: int, o: int|
            known(c, o) && p(c, o) && s[i].name == #[trigger] tag_name(c, o);
        assert(r(c, o) && s[i].name == tag_name(c, o));
    }
}

/// One intrinsic.
proof fn lemma_one(x: IntrinsicView, c: int, o: int, p: spec_fn(int, int) -> bool)
    requires
        known(c, o),
        p(c, o),
        x.name == tag_name(c, o),
    ensures
        distinct_names(seq![x]),
        tagged(seq![x], p),
{
    lemma_row(seq![x], c, o, p);
}

// ---------- The groups ----------

spec fn of_int(t: IntTy, lo: int, hi: int) -> spec_fn(int, int) -> bool {
    |c: int, o: int| c == int_code(t) && lo <= o < hi
}

spec fn of_float(t: FloatTy, lo: int, hi: int) -> spec_fn(int, int) -> bool {
    |c: int, o: int| c == float_code(t) && lo <= o < hi
}

proof fn lemma_codes()
    ensures
        forall|t: IntTy| #[trigger] ty_text(int_code(t)) == t.spec_name(),
        forall|t: FloatTy| #[trigger] ty_text(float_code(t)) == t.spec_name(),
        forall|t: IntTy| 0 <= #[trigger] int_code(t) <= 7,
        forall|t: FloatTy| 8 <= #[trigger] float_code(t) <= 9,
        forall|i: int|
            0 <= i < 8 ==> int_code(#[trigger] intrinsics::int_tys()[i]) == i,
        forall|i: int|
            0 <= i < 4 ==> int_code(#[trigger] intrinsics::signed_tys()[i]) == i,
        forall|i: int|
            0 <= i < 2 ==> float_code(#[trigger] intrinsics::float_tys()[i]) == 8 + i,
{
}

proof fn lemma_int_groups(t: IntTy)
    ensures
        distinct_names(intrinsics::int_arith(t)),
        tagged(intrinsics::int_arith(t), of_int(t, 0, 10)),
        distinct_names(intrinsics::int_negation(t)),
        tagged(intrinsics::int_negation(t), of_int(t, 10, 11)),
        distinct_names(intrinsics::int_comparisons(t)),
        tagged(intrinsics::int_comparisons(t), of_int(t, 11, 17)),
        distinct_names(intrinsics::bit_counts(t)),
        tagged(intrinsics::bit_counts(t), of_int(t, 17, 20)),
{
    lemma_codes();
    let c = int_code(t);
    lemma_row(intrinsics::int_arith(t), c, 0, of_int(t, 0, 10));
    lemma_row(intrinsics::int_negation(t), c, 10, of_int(t, 10, 11));
    lemma_row(intrinsics::int_comparisons(t), c, 11, of_int(t, 11, 17));
    lemma_row(intrinsics::bit_counts(t), c, 17, of_int(t, 17, 20));
}

proof fn lemma_float_groups(t: FloatTy)
    ensures
        distinct_names(intrinsics::float_arith(t)),
        tagged(
            intrinsics::float_arith(t),
            |c: int, o: int| c == float_code(t) && (0 <= o < 4 || o == 10),
        ),
        distinct_names(intrinsics::float_comparisons(t)),
        tagged(intrinsics::float_comparisons(t), of_float(t, 11, 17)),
        distinct_names(intrinsics::float_roots(t)),
        tagged(intrinsics::float_roots(t), of_float(t, 20, 21)),
{
    lemma_codes();
    let c = float_code(t);
    let all = intrinsics::float_arith(t);
    let four = all.take(4);
    let last = seq![all[4]];
    lemma_row(four, c, 0, of_float(t, 0, 4));
    lemma_one(all[4], c, 10, of_float(t, 10, 11));
    assert(all =~= four + last);
    lemma_join(
        four,
        last,
        of_float(t, 0, 4),
        of_float(t, 10, 11),
        |c: int, o: int| c == float_code(t) && (0 <= o < 4 || o == 10),
    );
    lemma_row(intrinsics::float_comparisons(t), c, 11, of_float(t, 11, 17));
    lemma_row(intrinsics::float_roots(t), c, 20, of_float(t, 20, 21));
}

proof fn lemma_int_casts(t: IntTy)
    ensures
        distinct_names(intrinsics::int_casts_from(t)),
        tagged(intrinsics::int_casts_from(t), of_int(t, 100, 108)),
{
    lemma_codes();
    let tys = intrinsics::int_tys();
    let f = |to: IntTy| intrinsics::int_casts(t, to);
    let q = |to: IntTy, c: int, o: int| c == int_code(t) && o == 100 + int_code(to);
    assert forall|i: int| 0 <= i < tys.len() implies distinct_names(f(#[trigger] tys[i]))
        && tagged(f(tys[i]), |c: int, o: int| q(tys[i], c, o)) by {
        let to = tys[i];
        let s = intrinsics::int_casts(t, to);
        let p = |c: int, o: int| q(tys[i], c, o);
        lemma_cast_name(int_code(t), int_code(to));
        lemma_row(s, int_code(t), 100 + int_code(to), p);
        assert(f(tys[i]) == s);
    }
    lemma_flat(tys, f, q, of_int(t, 100, 108), 8);
}

proof fn lemma_int_float_pair(t: IntTy, u: FloatTy)
    ensures
        ({
            let s = intrinsics::int_float_casts((t, u));
            let p = |c: int, o: int|
                (c == int_code(t) && o == 100 + float_code(u)) || (c == float_code(u) && o == 100
                    + int_code(t));
            distinct_names(s) && tagged(s, p)
        }),
{
    lemma_codes();
    let s = intrinsics::int_float_casts((t, u));
    let a = int_code(t);
    let b = float_code(u);
    lemma_cast_name(a, b);
    lemma_cast_name(b, a);
    let p0 = |c: int, o: int| c == int_code(t) && o == 100 + float_code(u);
    let p1 = |c: int, o: int| c == float_code(u) && o == 100 + int_code(t);
    lemma_one(s[0], a, 100 + b, p0);
    lemma_one(s[1], b, 100 + a, p1);
    assert(s =~= seq![s[0]] + seq![s[1]]);
    lemma_join(
        seq![s[0]],
        seq![s[1]],
        p0,
        p1,
        |c: int, o: int|
            (c == int_code(t) && o == 100 + float_code(u)) || (c == float_code(u) && o == 100
                + int_code(t)),
    );
}

proof fn lemma_int_float_casts(t: IntTy)
    ensures
        distinct_names(intrinsics::int_float_casts_of(t)),
        tagged(
            intrinsics::int_float_casts_of(t),
            |c: int, o: int|
                (c == int_code(t) && 108 <= o < 110) || (8 <= c < 10 && o == 100 + int_code(t)),
        ),
{
    lemma_codes();
    lemma_int_float_pair(t, FloatTy::F32);
    lemma_int_float_pair(t, FloatTy::F64);
    lemma_join(
        intrinsics::int_float_casts((t, FloatTy::F32)),
        intrinsics::int_float_casts((t, FloatTy::F64)),
        |c: int, o: int|
            (c == int_code(t) && o == 100 + float_code(FloatTy::F32)) || (c == float_code(
                FloatTy::F32,
            ) && o == 100 + int_code(t)),
        |c: int, o: int|
            (c == int_code(t) && o == 100 + float_code(FloatTy::F64)) || (c == float_code(
                FloatTy::F64,
            ) && o == 100 + int_code(t)),
        |c: int, o: int|
            (c == int_code(t) && 108 <= o < 110) || (8 <= c < 10 && o == 100 + int_code(t)),
    );
}

proof fn lemma_float_casts()
    ensures
        distinct_names(intrinsics::float_casts()),
        tagged(intrinsics::float_casts(), |c: int, o: int| 8 <= c < 10 && 108 <= o < 110),
{
    let s = intrinsics::float_casts();
    let p = |c: int, o: int| 8 <= c < 10 && 108 <= o < 110;
    let p0 = |c: int, o: int| c == 8 && o == 109;
    let p1 = |c: int, o: int| c == 9 && o == 108;
    lemma_cast_name(8, 9);
    lemma_cast_name(9, 8);
    lemma_one(s[0], 8, 109, p0);
    lemma_one(s[1], 9, 108, p1);
    assert(s =~= seq![s[0]] + seq![s[1]]);
    lemma_join(seq![s[0]], seq![s[1]], p0, p1, p);
}

proof fn lemma_bool_casts(t: IntTy)
    ensures
        distinct_names(intrinsics::bool_casts(t)),
        tagged(
            intrinsics::bool_casts(t),
            |c: int, o: int| (c == 10 && o == 100 + int_code(t)) || (c == int_code(t) && o == 110),
        ),
{
    lemma_codes();
    let s = intrinsics::bool_casts(t);
    let a = int_code(t);
    let p0 = |c: int, o: int| c == 10 && o == 100 + int_code(t);
    let p1 = |c: int, o: int| c == int_code(t) && o == 110;
    lemma_cast_name(10, a);
    lemma_cast_name(a, 10);
    lemma_one(s[0], 10, 100 + a, p0);
    lemma_one(s[1], a, 110, p1);
    assert(s =~= seq![s[0]] + seq![s[1]]);
    lemma_join(
        seq![s[0]],
        seq![s[1]],
        p0,
        p1,
        |c: int, o: int| (c == 10 && o == 100 + int_code(t)) || (c == int_code(t) && o == 110),
    );
}

/// Every integer type with the operations from `lo` up to `hi`.
spec fn ints(lo: int, hi: int) -> spec_fn(int, int) -> bool {
    |c: int, o: int| 0 <= c < 8 && lo <= o < hi
}

spec fn floats(lo: int, hi: int) -> spec_fn(int, int) -> bool {
    |c: int, o: int| 8 <= c < 10 && lo <= o < hi
}

proof fn lemma_int_lists()
    ensures
        distinct_names(intrinsics::every_int_arith()),
        tagged(intrinsics::every_int_arith(), ints(0, 10)),
        distinct_names(intrinsics::every_int_negation()),
        tagged(intrinsics::every_int_negation(), ints(10, 11)),
        distinct_names(intrinsics::every_int_comparisons()),
        tagged(intrinsics::every_int_comparisons(), ints(11, 17)),
        distinct_names(intrinsics::every_bit_counts()),
        tagged(intrinsics::every_bit_counts(), ints(17, 20)),
        distinct_names(intrinsics::every_int_casts_from()),
        tagged(intrinsics::every_int_casts_from(), ints(100, 108)),
{
    lemma_codes();
    let tys = intrinsics::int_tys();
    assert forall|t: IntTy|
        #![trigger int_code(t)]
        distinct_names(intrinsics::int_arith(t)) && distinct_names(intrinsics::int_negation(t))
            && distinct_names(intrinsics::int_comparisons(t)) && distinct_names(
            intrinsics::bit_counts(t),
        ) && distinct_names(intrinsics::int_casts_from(t)) && tagged(
            intrinsics::int_arith(t),
            of_int(t, 0, 10),
        ) && tagged(intrinsics::int_negation(t), of_int(t, 10, 11)) && tagged(
            intrinsics::int_comparisons(t),
            of_int(t, 11, 17),
        ) && tagged(intrinsics::bit_counts(t), of_int(t, 17, 20)) && tagged(
            intrinsics::int_casts_from(t),
            of_int(t, 100, 108),
        ) by {
        lemma_int_groups(t);
        lemma_int_casts(t);
    }
    lemma_int_list(tys, |t: IntTy| intrinsics::int_arith(t), 0, 10);
    lemma_int_list(intrinsics::signed_tys(), |t: IntTy| intrinsics::int_negation(t), 10, 11);
    lemma_int_list(tys, |t: IntTy| intrinsics::int_comparisons(t), 11, 17);
    lemma_int_list(tys, |t: IntTy| intrinsics::bit_counts(t), 17, 20);
    lemma_int_list(tys, |t: IntTy| intrinsics::int_casts_from(t), 100, 108);
}

/// A group for each of the integer types.
proof fn lemma_int_list(s: Seq<IntTy>, f: spec_fn(IntTy) -> Seq<IntrinsicView>, lo: int, hi: int)
    requires
        forall|i: int| 0 <= i < s.len() ==> int_code(#[trigger] s[i]) == i,
        s.len() <= 8,
        forall|t: IntTy|
            #![trigger int_code(t)]
            distinct_names(f(t)) && tagged(f(t), of_int(t, lo, hi)),
    ensures
        distinct_names(intrinsics::flat(s, f, s.len())),
        tagged(intrinsics::flat(s, f, s.len()), ints(lo, hi)),
{
    lemma_codes();
    let q = |t: IntTy, c: int, o: int| c == int_code(t) && lo <= o < hi;
    assert forall|i: int| 0 <= i < s.len() implies distinct_names(f(#[trigger] s[i])) && tagged(
        f(s[i]),
        |c: int, o: int| q(s[i], c, o),
    ) by {
        assert(int_code(s[i]) == i);
        assert(tagged(f(s[i]), of_int(s[i], lo, hi)));
        lemma_weaken(f(s[i]), of_int(s[i], lo, hi), |c: int, o: int| q(s[i], c, o));
    }
    lemma_flat(s, f, q, ints(lo, hi), s.len());
}

proof fn lemma_float_lists()
    ensures
        distinct_names(intrinsics::every_float_arith()),
        tagged(
            intrinsics::every_float_arith(),
            |c: int, o: int| 8 <= c < 10 && (0 <= o < 4 || o == 10),
        ),
        distinct_names(intrinsics::every_float_comparisons()),
        tagged(intrinsics::every_float_comparisons(), floats(11, 17)),
        distinct_names(intrinsics::every_float_roots()),
        tagged(intrinsics::every_float_roots(), floats(20, 21)),
{
    lemma_codes();
    let tys = intrinsics::float_tys();
    lemma_float_groups(FloatTy::F32);
    lemma_float_groups(FloatTy::F64);
    let q0 = |t: FloatTy, c: int, o: int| c == float_code(t) && (0 <= o < 4 || o == 10);
    let q1 = |t: FloatTy, c: int, o: int| c == float_code(t) && 11 <= o < 17;
    let q2 = |t: FloatTy, c: int, o: int| c == float_code(t) && 20 <= o < 21;
    let f0 = |t: FloatTy| intrinsics::float_arith(t);
    let f1 = |t: FloatTy| intrinsics::float_comparisons(t);
    let f2 = |t: FloatTy| intrinsics::float_roots(t);
    assert forall|i: int| 0 <= i < tys.len() implies distinct_names(f0(#[trigger] tys[i]))
        && tagged(f0(tys[i]), |c: int, o: int| q0(tys[i], c, o)) && distinct_names(f1(tys[i]))
        && tagged(f1(tys[i]), |c: int, o: int| q1(tys[i], c, o)) && distinct_names(f2(tys[i]))
        && tagged(f2(tys[i]), |c: int, o: int| q2(tys[i], c, o)) by {
        let t = tys[i];
        lemma_weaken(
            f0(t),
            |c: int, o: int| c == float_code(t) && (0 <= o < 4 || o == 10),
            |c: int, o: int| q0(tys[i], c, o),
        );
        lemma_weaken(f1(t), of_float(t, 11, 17), |c: int, o: int| q1(tys[i], c, o));
        lemma_weaken(f2(t), of_float(t, 20, 21), |c: int, o: int| q2(tys[i], c, o));
    }
    lemma_flat(tys, f0, q0, |c: int, o: int| 8 <= c < 10 && (0 <= o < 4 || o == 10), 2);
    lemma_flat(tys, f1, q1, floats(11, 17), 2);
    lemma_flat(tys, f2, q2, floats(20, 21), 2);
}

proof fn lemma_cast_lists()
    ensures
        distinct_names(intrinsics::every_int_float_casts_of()),
        tagged(
            intrinsics::every_int_float_casts_of(),
            |c: int, o: int|
                (0 <= c < 8 && 108 <= o < 110) || (8 <= c < 10 && 100 <= o < 108),
        ),
        distinct_names(intrinsics::every_bool_casts()),
        tagged(
            intrinsics::every_bool_casts(),
            |c: int, o: int| (c == 10 && 100 <= o < 108) || (0 <= c < 8 && o == 110),
        ),
{
    lemma_codes();
    let tys = intrinsics::int_tys();
    let f0 = |t: IntTy| intrinsics::int_float_casts_of(t);
    let f1 = |t: IntTy| intrinsics::bool_casts(t);
    let q0 = |t: IntTy, c: int, o: int|
        (c == int_code(t) && 108 <= o < 110) || (8 <= c < 10 && o == 100 + int_code(t));
    let q1 = |t: IntTy, c: int, o: int|
        (c == 10 && o == 100 + int_code(t)) || (c == int_code(t) && o == 110);
    assert forall|i: int| 0 <= i < tys.len() implies distinct_names(f0(#[trigger] tys[i]))
        && tagged(f0(tys[i]), |c: int, o: int| q0(tys[i], c, o)) && distinct_names(f1(tys[i]))
        && tagged(f1(tys[i]), |c: int, o: int| q1(tys[i], c, o)) by {
        let t = tys[i];
        lemma_int_float_casts(t);
        lemma_bool_casts(t);
        lemma_weaken(
            f0(t),
            |c: int, o: int|
                (c == int_code(t) && 108 <= o < 110) || (8 <= c < 10 && o == 100 + int_code(t)),
            |c: int, o: int| q0(tys[i], c, o),
        );
        lemma_weaken(
            f1(t),
            |c: int, o: int| (c == 10 && o == 100 + int_code(t)) || (c == int_code(t) && o == 110),
            |c: int, o: int| q1(tys[i], c, o),
        );
    }
    lemma_flat(
        tys,
        f0,
        q0,
        |c: int, o: int| (0 <= c < 8 && 108 <= o < 110) || (8 <= c < 10 && 100 <= o < 108),
        8,
    );
    lemma_flat(
        tys,
        f1,
        q1,
        |c: int, o: int| (c == 10 && 100 <= o < 108) || (0 <= c < 8 && o == 110),
        8,
    );
}

/// No two intrinsics have the same name.
pub proof fn lemma_names_distinct()
    ensures
        distinct_names(intrinsics::all_intrinsics()),
{
    reveal(intrinsics::all_intrinsics);
    lemma_int_lists();
    lemma_float_lists();
    lemma_float_casts();
    lemma_cast_lists();
    let s1 = intrinsics::every_int_arith() + intrinsics::every_int_negation();
    let s2 = s1 + intrinsics::every_int_comparisons();
    let s3 = s2 + intrinsics::every_float_arith();
    let s4 = s3 + intrinsics::every_float_comparisons();
    let s5 = s4 + intrinsics::every_int_casts_from();
    let s6 = s5 + intrinsics::every_int_float_casts_of();
    let s7 = s6 + intrinsics::float_casts();
    let s8 = s7 + intrinsics::every_bool_casts();
    let s9 = s8 + intrinsics::every_bit_counts();
    let p1 = |c: int, o: int| 0 <= c < 8 && 0 <= o < 11;
    let p2 = |c: int, o: int| 0 <= c < 8 && 0 <= o < 17;
    let p3 = |c: int, o: int|
        (0 <= c < 8 && 0 <= o < 17) || (8 <= c < 10 && (0 <= o < 4 || o == 10));
    let p4 = |c: int, o: int| 0 <= c < 10 && 0 <= o < 17;
    let p5 = |c: int, o: int| (0 <= c < 10 && 0 <= o < 17) || (0 <= c < 8 && 100 <= o < 108);
    let p6 = |c: int, o: int|
        (0 <= c < 10 && 0 <= o < 17) || (0 <= c < 8 && 100 <= o < 110) || (8 <= c < 10 && 100 <= o
            < 108);
    let p7 = |c: int, o: int| 0 <= c < 10 && (0 <= o < 17 || 100 <= o < 110);
    let p8 = |c: int, o: int|
        (0 <= c < 10 && (0 <= o < 17 || 100 <= o < 110)) || (c == 10 && 100 <= o < 108) || (0 <= c
            < 8 && o == 110);
    let p9 = |c: int, o: int| p8(c, o) || (0 <= c < 8 && 17 <= o < 20);
    let p10 = |c: int, o: int| true;
    lemma_join(
        intrinsics::every_int_arith(),
        intrinsics::every_int_negation(),
        ints(0, 10),
        ints(10, 11),
        p1,
    );
    lemma_join(s1, intrinsics::every_int_comparisons(), p1, ints(11, 17), p2);
    lemma_join(
        s2,
        intrinsics::every_float_arith(),
        p2,
        |c: int, o: int| 8 <= c < 10 && (0 <= o < 4 || o == 10),
        p3,
    );
    lemma_join(s3, intrinsics::every_float_comparisons(), p3, floats(11, 17), p4);
    lemma_join(s4, intrinsics::every_int_casts_from(), p4, ints(100, 108), p5);
    lemma_join(
        s5,
        intrinsics::every_int_float_casts_of(),
        p5,
        |c: int, o: int| (0 <= c < 8 && 108 <= o < 110) || (8 <= c < 10 && 100 <= o < 108),
        p6,
    );
    lemma_join(
        s6,
        intrinsics::float_casts(),
        p6,
        |c: int, o: int| 8 <= c < 10 && 108 <= o < 110,
        p7,
    );
    lemma_join(
        s7,
        intrinsics::every_bool_casts(),
        p7,
        |c: int, o: int| (c == 10 && 100 <= o < 108) || (0 <= c < 8 && o == 110),
        p8,
    );
    lemma_join(s8, intrinsics::every_bit_counts(), p8, ints(17, 20), p9);
    lemma_join(s9, intrinsics::every_float_roots(), p9, floats(20, 21), p10);
}

/// Each intrinsic is what its name stands for.
pub proof fn lemma_found_by_name(i: int)
    requires
        0 <= i < intrinsics::all_intrinsics().len(),
    ensures
        intrinsics::intrinsic_named(intrinsics::all_intrinsics()[i].name) == Some(
            intrinsics::all_intrinsics()[i],
        ),
{
    let all = intrinsics::all_intrinsics();
    let names = intrinsics::intrinsic_names(all);
    lemma_names_distinct();
    assert forall|j: int| 0 <= j < i implies names[j] != all[i].name by {
        assert(all[j].name != all[i].name);
    }
    subst::lemma_first_index_at(names, all[i].name, i);
}

} // verus!
