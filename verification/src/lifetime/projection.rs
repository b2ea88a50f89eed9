//! What projecting constraints to the regions of a caller keeps.
//!
//! Projection removes the regions that were made up for one call. Between the
//! regions that stay it keeps exactly what the constraints imply.

use vstd::prelude::*;

use crate::lifetime::constraints;
use crate::lifetime::constraints::ConstraintView;
use crate::lifetime::region::RegionView;

verus! {

/// A chain of constraints leads from `from` over the inference regions `path`
/// to `to`.
pub open spec fn way(
    set: Seq<ConstraintView>,
    from: RegionView,
    path: Seq<RegionView>,
    to: RegionView,
) -> bool
    decreases path.len(),
{
    if path.len() == 0 {
        constraints::relates(set, from, to)
    } else {
        path[0] is Inference && constraints::relates(set, from, path[0]) && way(
            set,
            path[0],
            path.subrange(1, path.len() as int),
            to,
        )
    }
}

/// The constraints imply that `from` outlives `to`.
pub open spec fn implied(set: Seq<ConstraintView>, from: RegionView, to: RegionView) -> bool {
    exists|path: Seq<RegionView>| way(set, from, path, to)
}

/// The relation is there, or it holds anyway.
pub open spec fn holds_in(set: Seq<ConstraintView>, a: RegionView, b: RegionView) -> bool {
    constraints::relates(set, a, b) || a == b || a is Static
}

/// Every constraint of `acc` is between regions of the caller and implied by
/// `set`.
spec fn sound(set: Seq<ConstraintView>, acc: Seq<ConstraintView>) -> bool {
    forall|i: int|
        0 <= i < acc.len() ==> !((#[trigger] acc[i]).outlives is Inference) && !(
        acc[i].sub is Inference) && implied(set, acc[i].outlives, acc[i].sub)
}

/// `path`, and then `last`, lead from `from` to `last`.
proof fn lemma_way_longer(
    set: Seq<ConstraintView>,
    from: RegionView,
    path: Seq<RegionView>,
    mid: RegionView,
    to: RegionView,
)
    requires
        way(set, from, path, mid),
        mid is Inference,
        constraints::relates(set, mid, to),
    ensures
        way(set, from, path.push(mid), to),
    decreases path.len(),
{
    let longer = path.push(mid);
    if path.len() > 0 {
        let rest = path.subrange(1, path.len() as int);
        lemma_way_longer(set, path[0], rest, mid, to);
        assert(longer.subrange(1, longer.len() as int) =~= rest.push(mid));
    } else {
        assert(longer.subrange(1, longer.len() as int) =~= Seq::<RegionView>::empty());
        assert(way(set, mid, Seq::empty(), to));
    }
}

// ---------- Nothing else is kept ----------

proof fn lemma_followed_sound(
    set: Seq<ConstraintView>,
    root: RegionView,
    path: Seq<RegionView>,
    edge: ConstraintView,
    visiting: Seq<RegionView>,
    fuel: nat,
    acc: Seq<ConstraintView>,
)
    requires
        sound(set, acc),
        !(root is Inference),
        way(set, root, path, edge.sub),
    ensures
        sound(set, constraints::followed(set, root, edge, visiting, fuel, acc)),
    decreases fuel, 1nat, 0nat,
{
    if !(edge.sub is Inference) {
        assert(implied(set, root, edge.sub));
    } else if !visiting.contains(edge.sub) && fuel > 0 {
        lemma_followed_upto_sound(
            set,
            root,
            path,
            edge.sub,
            visiting.push(edge.sub),
            (fuel - 1) as nat,
            acc,
            set.len(),
        );
    }
}

proof fn lemma_followed_upto_sound(
    set: Seq<ConstraintView>,
    root: RegionView,
    path: Seq<RegionView>,
    from: RegionView,
    visiting: Seq<RegionView>,
    fuel: nat,
    acc: Seq<ConstraintView>,
    n: nat,
)
    requires
        sound(set, acc),
        !(root is Inference),
        from is Inference,
        way(set, root, path, from),
        n <= set.len(),
    ensures
        sound(set, constraints::followed_upto(set, root, from, visiting, fuel, acc, n)),
    decreases fuel, 2nat, n,
{
    if n > 0 {
        lemma_followed_upto_sound(set, root, path, from, visiting, fuel, acc, (n - 1) as nat);
        let rest = constraints::followed_upto(
            set,
            root,
            from,
            visiting,
            fuel,
            acc,
            (n - 1) as nat,
        );
        let edge = set[n - 1];
        if edge.outlives == from {
            assert(constraints::relates(set, from, edge.sub));
            lemma_way_longer(set, root, path, from, edge.sub);
            lemma_followed_sound(set, root, path.push(from), edge, visiting, fuel, rest);
        }
    }
}

proof fn lemma_projection_sound_upto(set: Seq<ConstraintView>, n: nat)
    requires
        n <= set.len(),
    ensures
        sound(set, constraints::projection_upto(set, n)),
    decreases n,
{
    if n > 0 {
        lemma_projection_sound_upto(set, (n - 1) as nat);
        let edge = set[n - 1];
        if !(edge.outlives is Inference) {
            let none = Seq::<RegionView>::empty();
            assert(constraints::relates(set, edge.outlives, edge.sub));
            assert(way(set, edge.outlives, none, edge.sub));
            lemma_followed_sound(
                set,
                edge.outlives,
                none,
                edge,
                none,
                set.len(),
                constraints::projection_upto(set, (n - 1) as nat),
            );
        }
    }
}

// ---------- Everything is kept ----------

/// What `a` holds, `b` holds.
spec fn covers(a: Seq<ConstraintView>, b: Seq<ConstraintView>) -> bool {
    forall|x: RegionView, y: RegionView|
        constraints::relates(a, x, y) ==> #[trigger] constraints::relates(b, x, y)
}

proof fn lemma_emitted_covers(acc: Seq<ConstraintView>, c: ConstraintView)
    ensures
        covers(acc, constraints::emitted(acc, c)),
        holds_in(constraints::emitted(acc, c), c.outlives, c.sub),
{
    let t = constraints::emitted(acc, c);
    assert forall|x: RegionView, y: RegionView|
        constraints::relates(acc, x, y) implies #[trigger] constraints::relates(t, x, y) by {
        let i = choose|i: int|
            0 <= i < acc.len() && (#[trigger] acc[i]).outlives == x && acc[i].sub == y;
        assert(t[i] == acc[i]);
    }
    constraints::lemma_emitted(acc, c);
}

proof fn lemma_followed_covers(
    set: Seq<ConstraintView>,
    root: RegionView,
    edge: ConstraintView,
    visiting: Seq<RegionView>,
    fuel: nat,
    acc: Seq<ConstraintView>,
)
    ensures
        covers(acc, constraints::followed(set, root, edge, visiting, fuel, acc)),
    decreases fuel, 1nat, 0nat,
{
    if !(edge.sub is Inference) {
        lemma_emitted_covers(
            acc,
            ConstraintView {
                outlives: root,
                sub: edge.sub,
                cause: edge.cause,
                origin: edge.origin,
            },
        );
    } else if !visiting.contains(edge.sub) && fuel > 0 {
        lemma_followed_upto_covers(
            set,
            root,
            edge.sub,
            visiting.push(edge.sub),
            (fuel - 1) as nat,
            acc,
            0,
            set.len(),
        );
    }
}

proof fn lemma_followed_upto_covers(
    set: Seq<ConstraintView>,
    root: RegionView,
    from: RegionView,
    visiting: Seq<RegionView>,
    fuel: nat,
    acc: Seq<ConstraintView>,
    m: nat,
    n: nat,
)
    requires
        m <= n,
    ensures
        covers(
            constraints::followed_upto(set, root, from, visiting, fuel, acc, m),
            constraints::followed_upto(set, root, from, visiting, fuel, acc, n),
        ),
    decreases fuel, 2nat, n,
{
    if m < n {
        lemma_followed_upto_covers(set, root, from, visiting, fuel, acc, m, (n - 1) as nat);
        let rest = constraints::followed_upto(
            set,
            root,
            from,
            visiting,
            fuel,
            acc,
            (n - 1) as nat,
        );
        if set[n - 1].outlives == from {
            lemma_followed_covers(set, root, set[n - 1], visiting, fuel, rest);
        }
    }
}

/// Following an edge finds what lies at the end of a chain that does not
/// visit a region twice.
proof fn lemma_followed_finds(
    set: Seq<ConstraintView>,
    root: RegionView,
    edge: ConstraintView,
    path: Seq<RegionView>,
    to: RegionView,
    visiting: Seq<RegionView>,
    fuel: nat,
    acc: Seq<ConstraintView>,
)
    requires
        !(to is Inference),
        path.len() == 0 ==> edge.sub == to,
        path.len() > 0 ==> edge.sub == path[0] && path[0] is Inference && way(
            set,
            path[0],
            path.subrange(1, path.len() as int),
            to,
        ),
        path.no_duplicates(),
        forall|i: int| 0 <= i < path.len() ==> !visiting.contains(#[trigger] path[i]),
        path.len() <= fuel,
    ensures
        holds_in(constraints::followed(set, root, edge, visiting, fuel, acc), root, to),
    decreases path.len(),
{
    if path.len() == 0 {
        lemma_emitted_covers(
            acc,
            ConstraintView {
                outlives: root,
                sub: edge.sub,
                cause: edge.cause,
                origin: edge.origin,
            },
        );
    } else {
        let from = path[0];
        let rest = path.subrange(1, path.len() as int);
        let inner = visiting.push(from);
        let less = (fuel - 1) as nat;
        let next = if rest.len() == 0 {
            to
        } else {
            rest[0]
        };
        assert(constraints::relates(set, from, next));
        let k = choose|k: int|
            0 <= k < set.len() && (#[trigger] set[k]).outlives == from && set[k].sub == next;
        assert forall|i: int| 0 <= i < rest.len() implies !inner.contains(#[trigger] rest[i]) by {
            assert(rest[i] == path[i + 1]);
            assert(!visiting.contains(path[i + 1]));
            if inner.contains(rest[i]) {
                let j = choose|j: int| 0 <= j < inner.len() && inner[j] == rest[i];
                if j < visiting.len() {
                    assert(visiting[j] == rest[i]);
                } else {
                    assert(path[0] == path[i + 1]);
                }
            }
        }
        assert(rest.no_duplicates()) by {
            assert forall|i: int, j: int| 0 <= i < rest.len() && 0 <= j < rest.len() && i
                != j implies rest[i] != rest[j] by {
                assert(rest[i] == path[i + 1]);
                assert(rest[j] == path[j + 1]);
            }
        }
        let before = constraints::followed_upto(set, root, from, inner, less, acc, k as nat);
        lemma_followed_finds(set, root, set[k], rest, to, inner, less, before);
        let after = constraints::followed_upto(set, root, from, inner, less, acc, (k + 1) as nat);
        assert(after == constraints::followed(set, root, set[k], inner, less, before));
        lemma_followed_upto_covers(
            set,
            root,
            from,
            inner,
            less,
            acc,
            (k + 1) as nat,
            set.len(),
        );
        assert(!visiting.contains(path[0]));
    }
}

proof fn lemma_projection_covers(set: Seq<ConstraintView>, m: nat, n: nat)
    requires
        m <= n,
    ensures
        covers(constraints::projection_upto(set, m), constraints::projection_upto(set, n)),
    decreases n,
{
    if m < n {
        lemma_projection_covers(set, m, (n - 1) as nat);
        let rest = constraints::projection_upto(set, (n - 1) as nat);
        let edge = set[n - 1];
        if !(edge.outlives is Inference) {
            lemma_followed_covers(set, edge.outlives, edge, Seq::empty(), set.len(), rest);
        }
    }
}

/// The part of a chain behind its first `n` regions leads on from the last of
/// them.
proof fn lemma_way_rest(
    set: Seq<ConstraintView>,
    from: RegionView,
    path: Seq<RegionView>,
    to: RegionView,
    n: int,
)
    requires
        way(set, from, path, to),
        0 < n <= path.len(),
    ensures
        way(set, path[n - 1], path.subrange(n, path.len() as int), to),
        path[n - 1] is Inference,
    decreases path.len(),
{
    let rest = path.subrange(1, path.len() as int);
    if n > 1 {
        lemma_way_rest(set, path[0], rest, to, n - 1);
        assert(rest.subrange(n - 1, rest.len() as int) =~= path.subrange(n, path.len() as int));
        assert(rest[n - 2] == path[n - 1]);
    }
}

/// A chain up to a region of it, followed by a chain from there.
proof fn lemma_way_spliced(
    set: Seq<ConstraintView>,
    from: RegionView,
    path: Seq<RegionView>,
    to: RegionView,
    n: int,
    tail: Seq<RegionView>,
    end: RegionView,
)
    requires
        way(set, from, path, to),
        0 < n <= path.len(),
        way(set, path[n - 1], tail, end),
    ensures
        way(set, from, path.subrange(0, n) + tail, end),
    decreases path.len(),
{
    let rest = path.subrange(1, path.len() as int);
    let all = path.subrange(0, n) + tail;
    assert(all[0] == path[0]);
    if n > 1 {
        assert(rest[n - 2] == path[n - 1]);
        lemma_way_spliced(set, path[0], rest, to, n - 1, tail, end);
        assert(all.subrange(1, all.len() as int) =~= rest.subrange(0, n - 1) + tail);
    } else {
        assert(all.subrange(1, all.len() as int) =~= tail);
    }
}

/// Where there is a chain, there is one that visits no region twice.
proof fn lemma_short_way(
    set: Seq<ConstraintView>,
    from: RegionView,
    path: Seq<RegionView>,
    to: RegionView,
) -> (short: Seq<RegionView>)
    requires
        way(set, from, path, to),
    ensures
        way(set, from, short, to),
        short.no_duplicates(),
    decreases path.len(),
{
    if path.no_duplicates() {
        path
    } else {
        let (i, j) = choose|i: int, j: int|
            0 <= i < path.len() && 0 <= j < path.len() && i != j && path[i] == path[j];
        let (a, b) = if i < j {
            (i, j)
        } else {
            (j, i)
        };
        lemma_way_rest(set, from, path, to, b + 1);
        let tail = path.subrange(b + 1, path.len() as int);
        lemma_way_spliced(set, from, path, to, a + 1, tail, to);
        let cut = path.subrange(0, a + 1) + tail;
        lemma_short_way(set, from, cut, to)
    }
}

/// A chain that visits no region twice is no longer than the constraints.
proof fn lemma_way_len(
    set: Seq<ConstraintView>,
    from: RegionView,
    path: Seq<RegionView>,
    to: RegionView,
)
    requires
        way(set, from, path, to),
        path.no_duplicates(),
    ensures
        path.len() <= set.len(),
{
    let subs = Seq::new(set.len(), |i: int| set[i].sub);
    path.unique_seq_to_set();
    subs.lemma_cardinality_of_set();
    assert(path.to_set().subset_of(subs.to_set())) by {
        assert forall|x: RegionView| path.to_set().contains(x) implies subs.to_set().contains(x) by {
            let i = choose|i: int| 0 <= i < path.len() && path[i] == x;
            lemma_way_step(set, from, path, to, i);
            let k = choose|k: int| 0 <= k < set.len() && (#[trigger] set[k]).sub == x;
            assert(subs[k] == x);
        }
    }
    vstd::set_lib::lemma_len_subset(path.to_set(), subs.to_set());
}

proof fn lemma_way_step(
    set: Seq<ConstraintView>,
    from: RegionView,
    path: Seq<RegionView>,
    to: RegionView,
    i: int,
)
    requires
        way(set, from, path, to),
        0 <= i < path.len(),
    ensures
        exists|k: int| 0 <= k < set.len() && (#[trigger] set[k]).sub == path[i],
    decreases path.len(),
{
    if i > 0 {
        let rest = path.subrange(1, path.len() as int);
        lemma_way_step(set, path[0], rest, to, i - 1);
        assert(rest[i - 1] == path[i]);
    }
}

/// Projection leaves no inference region, and between the regions of the
/// caller it keeps exactly what the constraints imply: a constraint of the
/// projection is the end of a chain, and every chain between two regions of
/// the caller is there or holds anyway.
pub proof fn lemma_projection_exact(set: Seq<ConstraintView>)
    ensures
        forall|i: int|
            0 <= i < constraints::projection(set).len() ==> !((#[trigger] constraints::projection(
                set,
            )[i]).outlives is Inference) && !(constraints::projection(set)[i].sub is Inference)
                && implied(
                set,
                constraints::projection(set)[i].outlives,
                constraints::projection(set)[i].sub,
            ),
        forall|a: RegionView, b: RegionView|
            !(a is Inference) && !(b is Inference) && #[trigger] implied(set, a, b) ==> holds_in(
                constraints::projection(set),
                a,
                b,
            ),
{
    lemma_projection_sound_upto(set, set.len());
    assert forall|a: RegionView, b: RegionView|
        !(a is Inference) && !(b is Inference) && #[trigger] implied(set, a, b) implies holds_in(
        constraints::projection(set),
        a,
        b,
    ) by {
        let any = choose|path: Seq<RegionView>| way(set, a, path, b);
        let path = lemma_short_way(set, a, any, b);
        lemma_way_len(set, a, path, b);
        let next = if path.len() == 0 {
            b
        } else {
            path[0]
        };
        assert(constraints::relates(set, a, next));
        let k = choose|k: int|
            0 <= k < set.len() && (#[trigger] set[k]).outlives == a && set[k].sub == next;
        let before = constraints::projection_upto(set, k as nat);
        lemma_followed_finds(set, a, set[k], path, b, Seq::empty(), set.len(), before);
        let after = constraints::projection_upto(set, (k + 1) as nat);
        assert(after == constraints::followed(set, a, set[k], Seq::empty(), set.len(), before));
        lemma_projection_covers(set, (k + 1) as nat, set.len());
    }
}

} // verus!
