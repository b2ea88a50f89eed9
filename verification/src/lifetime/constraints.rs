//! Outlives constraints between regions.
//!
//! A constraint `(a, b)` says that `a` outlives `b`: wherever a value of
//! region `b` is live, so is what `a` refers to.

use vstd::prelude::*;

use crate::common;
use crate::common::{Duplicate, SourceInfo, duplicate_all};
use crate::lifetime::region::{Region, RegionView};

verus! {

/// Why an outlives relation is required.
#[derive(Debug, PartialEq, Eq)]
pub enum ConstraintCause {
    Assignment,
    Call { callee: String },
    TypeRequirement { ty_name: String },
}

/// Model of [`ConstraintCause`].
pub enum CauseView {
    Assignment,
    Call { callee: Seq<char> },
    TypeRequirement { ty_name: Seq<char> },
}

impl View for ConstraintCause {
    type V = CauseView;

    open spec fn view(&self) -> CauseView {
        match *self {
            ConstraintCause::Assignment => CauseView::Assignment,
            ConstraintCause::Call { callee } => CauseView::Call { callee: callee@ },
            ConstraintCause::TypeRequirement { ty_name } => CauseView::TypeRequirement {
                ty_name: ty_name@,
            },
        }
    }
}

impl Clone for ConstraintCause {
    fn clone(&self) -> (r: Self)
        ensures
            r@ == self@,
    {
        match self {
            ConstraintCause::Assignment => ConstraintCause::Assignment,
            ConstraintCause::Call { callee } => ConstraintCause::Call { callee: callee.clone() },
            ConstraintCause::TypeRequirement { ty_name } => ConstraintCause::TypeRequirement {
                ty_name: ty_name.clone(),
            },
        }
    }
}

impl CauseView {
    pub open spec fn text(self) -> Seq<char> {
        match self {
            CauseView::Assignment => "this assignment"@,
            CauseView::Call { callee } => "the call to '"@ + callee + "'"@,
            CauseView::TypeRequirement { ty_name } => "type '"@ + ty_name + "'"@,
        }
    }
}

impl ConstraintCause {
    /// The cause in words.
    pub fn description(&self) -> (r: String)
        ensures
            r@ == self@.text(),
    {
        match self {
            ConstraintCause::Assignment => "this assignment".to_owned(),
            ConstraintCause::Call { callee } => {
                let mut s = "the call to '".to_owned();
                s.append(callee.as_str());
                s.append("'");
                s
            },
            ConstraintCause::TypeRequirement { ty_name } => {
                let mut s = "type '".to_owned();
                s.append(ty_name.as_str());
                s.append("'");
                s
            },
        }
    }
}

/// One outlives relation: `outlives` lives at least as long as `sub`.
#[derive(Debug, PartialEq, Eq)]
pub struct Constraint {
    pub outlives: Region,
    pub sub: Region,
    pub cause: ConstraintCause,
    /// Where the relation is required.
    pub origin: SourceInfo,
}

/// Model of [`Constraint`].
pub struct ConstraintView {
    pub outlives: RegionView,
    pub sub: RegionView,
    pub cause: CauseView,
    pub origin: SourceInfo,
}

impl View for Constraint {
    type V = ConstraintView;

    open spec fn view(&self) -> ConstraintView {
        ConstraintView {
            outlives: self.outlives@,
            sub: self.sub@,
            cause: self.cause@,
            origin: self.origin,
        }
    }
}

impl Clone for Constraint {
    fn clone(&self) -> (r: Self)
        ensures
            r@ == self@,
    {
        Constraint {
            outlives: self.outlives.clone(),
            sub: self.sub.clone(),
            cause: self.cause.clone(),
            origin: self.origin,
        }
    }
}

impl Duplicate for Constraint {
    fn duplicate(&self) -> (r: Self) {
        self.clone()
    }
}

impl Constraint {
    pub fn new(
        outlives: Region,
        sub: Region,
        cause: ConstraintCause,
        origin: SourceInfo,
    ) -> (r: Self)
        ensures
            r@ == (ConstraintView { outlives: outlives@, sub: sub@, cause: cause@, origin }),
    {
        Constraint { outlives, sub, cause, origin }
    }
}

/// `set` holds a constraint between the two regions.
pub open spec fn relates(set: Seq<ConstraintView>, outlives: RegionView, sub: RegionView) -> bool {
    exists|i: int|
        0 <= i < set.len() && (#[trigger] set[i]).outlives == outlives && set[i].sub == sub
}

/// The constraints after one more is required. A relation that holds anyway,
/// because both regions are the same or the longer one is `'static`, and a
/// relation that is already there, are left out; the earliest cause stays.
pub open spec fn emitted(set: Seq<ConstraintView>, c: ConstraintView) -> Seq<ConstraintView> {
    if c.outlives == c.sub || c.outlives is Static || relates(set, c.outlives, c.sub) {
        set
    } else {
        set.push(c)
    }
}

/// The constraints of one function, each pair of regions once.
#[derive(Debug)]
pub struct ConstraintSet {
    pub constraints: Vec<Constraint>,
}

impl View for ConstraintSet {
    type V = Seq<ConstraintView>;

    open spec fn view(&self) -> Seq<ConstraintView> {
        common::views(self.constraints@)
    }
}

impl Default for ConstraintSet {
    fn default() -> (r: Self)
        ensures
            r@ == Seq::<ConstraintView>::empty(),
    {
        let r = ConstraintSet { constraints: Vec::new() };
        assert(r@ =~= Seq::<ConstraintView>::empty());
        r
    }
}

/// No pair of regions occurs twice, none is reflexive, and `'static` is never
/// the longer one.
pub open spec fn proper(set: Seq<ConstraintView>) -> bool {
    &&& forall|i: int|
        0 <= i < set.len() ==> (#[trigger] set[i]).outlives != set[i].sub && !(
        set[i].outlives is Static)
    &&& forall|i: int, j: int|
        0 <= i < set.len() && 0 <= j < set.len() && i != j ==> (#[trigger] set[i]).outlives != (
        #[trigger] set[j]).outlives || set[i].sub != set[j].sub
}

/// Requiring one more relation keeps a set of constraints proper, keeps what
/// it holds, and makes the relation hold: it is there, or it is trivial.
pub proof fn lemma_emitted(set: Seq<ConstraintView>, c: ConstraintView)
    ensures
        proper(set) ==> proper(emitted(set, c)),
        set.len() <= emitted(set, c).len(),
        emitted(set, c).take(set.len() as int) == set,
        relates(emitted(set, c), c.outlives, c.sub) || c.outlives == c.sub || c.outlives is Static,
{
    let t = emitted(set, c);
    assert(t.take(set.len() as int) =~= set);
    if t.len() > set.len() {
        assert(t[set.len() as int] == c);
        assert(t == set.push(c));
    }
}

impl ConstraintSet {
    pub fn new() -> (r: Self)
        ensures
            r@ == Seq::<ConstraintView>::empty(),
    {
        ConstraintSet::default()
    }

    fn holds(&self, outlives: &Region, sub: &Region) -> (r: bool)
        ensures
            r == relates(self@, outlives@, sub@),
    {
        let mut i: usize = 0;
        while i < self.constraints.len()
            invariant
                i <= self.constraints@.len(),
                forall|j: int|
                    0 <= j < i ==> !((#[trigger] self@[j]).outlives == outlives@ && self@[j].sub
                        == sub@),
            decreases self.constraints@.len() - i,
        {
            let c = &self.constraints[i];
            assert(self@[i as int] == c@);
            if c.outlives == *outlives && c.sub == *sub {
                return true;
            }
            i += 1;
        }
        false
    }

    /// Require that `outlives` outlives `sub`.
    pub fn emit(
        &mut self,
        outlives: Region,
        sub: Region,
        cause: ConstraintCause,
        origin: SourceInfo,
    )
        ensures
            final(self)@ == emitted(
                old(self)@,
                ConstraintView { outlives: outlives@, sub: sub@, cause: cause@, origin },
            ),
    {
        let is_static = match &outlives {
            Region::Static => true,
            _ => false,
        };
        if outlives == sub || is_static {
            return;
        }
        if !self.holds(&outlives, &sub) {
            let ghost before = self.constraints@;
            let c = Constraint::new(outlives, sub, cause, origin);
            self.constraints.push(c);
            assert(common::views(self.constraints@) =~= common::views(before).push(c@));
        }
    }

    /// The constraints in the order in which they were required.
    pub fn iter(&self) -> (r: &Vec<Constraint>)
        ensures
            common::views(r@) == self@,
    {
        &self.constraints
    }

    pub fn len(&self) -> (r: usize)
        ensures
            r == self@.len(),
    {
        self.constraints.len()
    }

    pub fn is_empty(&self) -> (r: bool)
        ensures
            r == (self@.len() == 0),
    {
        self.constraints.len() == 0
    }

    /// Eliminate the inference regions: what is left relates regions that
    /// mean something in the caller. A chain from a region over inference
    /// regions to another region becomes one constraint between its ends; a
    /// chain that starts at an inference region is dropped.
    pub fn project_inference(&self) -> (r: ConstraintSet)
        ensures
            r@ == projection(self@),
    {
        let mut projected = ConstraintSet::new();
        let mut i: usize = 0;
        let ghost set = self@;
        assert(projected@ == projection_upto(set, 0));
        while i < self.constraints.len()
            invariant
                i <= self.constraints@.len(),
                set == self@,
                projected@ == projection_upto(set, i as nat),
            decreases self.constraints@.len() - i,
        {
            let root = &self.constraints[i];
            assert(set[i as int] == root@);
            let skip = match &root.outlives {
                Region::Inference(_) => true,
                _ => false,
            };
            if !skip {
                let visiting: Vec<Region> = Vec::new();
                assert(common::views(visiting@) =~= Seq::<RegionView>::empty());
                project_from(
                    self,
                    &root.outlives,
                    root,
                    &visiting,
                    self.constraints.len(),
                    &mut projected,
                );
            }
            i += 1;
        }
        projected
    }
}

/// What following the constraint `edge` from `root` adds to `acc`. An edge to
/// an inference region is followed to all edges from there, unless the region
/// is being visited; any other edge ends the chain. No chain of different
/// inference regions is longer than `fuel`, the number of constraints.
pub open spec fn followed(
    set: Seq<ConstraintView>,
    root: RegionView,
    edge: ConstraintView,
    visiting: Seq<RegionView>,
    fuel: nat,
    acc: Seq<ConstraintView>,
) -> Seq<ConstraintView>
    decreases fuel, 1nat, 0nat,
{
    if !(edge.sub is Inference) {
        emitted(
            acc,
            ConstraintView {
                outlives: root,
                sub: edge.sub,
                cause: edge.cause,
                origin: edge.origin,
            },
        )
    } else if visiting.contains(edge.sub) || fuel == 0 {
        acc
    } else {
        followed_upto(
            set,
            root,
            edge.sub,
            visiting.push(edge.sub),
            (fuel - 1) as nat,
            acc,
            set.len(),
        )
    }
}

/// What following the first `n` constraints, where they start at `from`,
/// adds to `acc`.
pub open spec fn followed_upto(
    set: Seq<ConstraintView>,
    root: RegionView,
    from: RegionView,
    visiting: Seq<RegionView>,
    fuel: nat,
    acc: Seq<ConstraintView>,
    n: nat,
) -> Seq<ConstraintView>
    decreases fuel, 2nat, n,
{
    if n == 0 {
        acc
    } else {
        let rest = followed_upto(set, root, from, visiting, fuel, acc, (n - 1) as nat);
        if set[n - 1].outlives == from {
            followed(set, root, set[n - 1], visiting, fuel, rest)
        } else {
            rest
        }
    }
}

/// What the first `n` constraints give, each followed from its own start.
pub open spec fn projection_upto(set: Seq<ConstraintView>, n: nat) -> Seq<ConstraintView>
    decreases n,
{
    if n == 0 {
        Seq::empty()
    } else {
        let rest = projection_upto(set, (n - 1) as nat);
        if set[n - 1].outlives is Inference {
            rest
        } else {
            followed(set, set[n - 1].outlives, set[n - 1], Seq::empty(), set.len(), rest)
        }
    }
}

/// The constraints between caller regions that `set` implies.
pub open spec fn projection(set: Seq<ConstraintView>) -> Seq<ConstraintView> {
    projection_upto(set, set.len())
}

/// True when `v` holds `x`.
pub fn contains_region(v: &Vec<Region>, x: &Region) -> (r: bool)
    ensures
        r == common::views(v@).contains(x@),
{
    let mut i: usize = 0;
    while i < v.len()
        invariant
            i <= v@.len(),
            forall|j: int| 0 <= j < i ==> common::views(v@)[j] != x@,
        decreases v@.len() - i,
    {
        if v[i] == *x {
            assert(common::views(v@)[i as int] == x@);
            return true;
        }
        i += 1;
    }
    false
}

fn project_from(
    set: &ConstraintSet,
    root: &Region,
    edge: &Constraint,
    visiting: &Vec<Region>,
    fuel: usize,
    projected: &mut ConstraintSet,
)
    ensures
        final(projected)@ == followed(
            set@,
            root@,
            edge@,
            common::views(visiting@),
            fuel as nat,
            old(projected)@,
        ),
    decreases fuel,
{
    match &edge.sub {
        Region::Inference(_) => {},
        _ => {
            projected.emit(root.clone(), edge.sub.clone(), edge.cause.clone(), edge.origin);
            return;
        },
    }
    if contains_region(visiting, &edge.sub) || fuel == 0 {
        return;
    }
    let mut inner: Vec<Region> = duplicate_all(visiting);
    let ghost held = inner@;
    inner.push(edge.sub.clone());
    assert(common::views(inner@) =~= common::views(visiting@).push(edge.sub@));
    let ghost start = projected@;
    let mut i: usize = 0;
    while i < set.constraints.len()
        invariant
            i <= set.constraints@.len(),
            fuel > 0,
            common::views(inner@) == common::views(visiting@).push(edge.sub@),
            projected@ == followed_upto(
                set@,
                root@,
                edge.sub@,
                common::views(inner@),
                (fuel - 1) as nat,
                start,
                i as nat,
            ),
        decreases set.constraints@.len() - i,
    {
        let next = &set.constraints[i];
        assert(set@[i as int] == next@);
        if next.outlives == edge.sub {
            project_from(set, root, next, &inner, fuel - 1, projected);
        }
        i += 1;
    }
}

// ---------- Closure ----------

/// The pairs of a list of pairs of regions.
pub open spec fn pairs_view(s: Seq<(Region, Region)>) -> Seq<(RegionView, RegionView)> {
    Seq::new(s.len(), |i: int| (s[i].0@, s[i].1@))
}

/// `r` occurs in one of the pairs.
pub open spec fn mentioned(axioms: Seq<(RegionView, RegionView)>, r: RegionView) -> bool {
    exists|i: int| 0 <= i < axioms.len() && ((#[trigger] axioms[i]).0 == r || axioms[i].1 == r)
}

/// `a` outlives `b` in one step: by an axiom, because both are the same
/// mentioned region, or because `a` is `'static` and `b` is mentioned.
pub open spec fn outlives_step(
    axioms: Seq<(RegionView, RegionView)>,
    a: RegionView,
    b: RegionView,
) -> bool {
    ||| axioms.contains((a, b))
    ||| a == b && mentioned(axioms, a)
    ||| a is Static && mentioned(axioms, b)
}

/// `a` outlives `b` over at most `n + 1` steps.
pub open spec fn outlives_within(
    axioms: Seq<(RegionView, RegionView)>,
    a: RegionView,
    b: RegionView,
    n: nat,
) -> bool
    decreases n,
{
    outlives_step(axioms, a, b) || (n > 0 && exists|m: RegionView| #[trigger]
        outlives_step(axioms, a, m) && outlives_within(axioms, m, b, (n - 1) as nat))
}

/// `a` outlives `b` by the axioms.
pub open spec fn outlives(
    axioms: Seq<(RegionView, RegionView)>,
    a: RegionView,
    b: RegionView,
) -> bool {
    exists|n: nat| outlives_within(axioms, a, b, n)
}

/// A chain of steps goes on by one more step.
pub proof fn lemma_append(
    axioms: Seq<(RegionView, RegionView)>,
    a: RegionView,
    m: RegionView,
    b: RegionView,
    n: nat,
)
    requires
        outlives_within(axioms, a, m, n),
        outlives_step(axioms, m, b),
    ensures
        outlives_within(axioms, a, b, n + 1),
    decreases n,
{
    if outlives_step(axioms, a, m) {
        assert(outlives_within(axioms, m, b, ((n + 1) - 1) as nat));
    } else {
        let x = choose|x: RegionView| #[trigger]
            outlives_step(axioms, a, x) && outlives_within(axioms, x, m, (n - 1) as nat);
        lemma_append(axioms, x, m, b, (n - 1) as nat);
        assert(outlives_within(axioms, x, b, ((n + 1) - 1) as nat));
    }
}

/// The outlives relation is transitive.
pub proof fn lemma_outlives_transitive(
    axioms: Seq<(RegionView, RegionView)>,
    a: RegionView,
    b: RegionView,
    c: RegionView,
)
    requires
        outlives(axioms, a, b),
        outlives(axioms, b, c),
    ensures
        outlives(axioms, a, c),
{
    let n = choose|n: nat| outlives_within(axioms, a, b, n);
    let k = choose|k: nat| outlives_within(axioms, b, c, k);
    lemma_chain(axioms, a, b, c, n, k);
}

proof fn lemma_chain(
    axioms: Seq<(RegionView, RegionView)>,
    a: RegionView,
    b: RegionView,
    c: RegionView,
    n: nat,
    k: nat,
)
    requires
        outlives_within(axioms, a, b, n),
        outlives_within(axioms, b, c, k),
    ensures
        outlives_within(axioms, a, c, n + k + 1),
    decreases n,
{
    if outlives_step(axioms, a, b) {
        lemma_more(axioms, b, c, k, n + k);
        assert(outlives_within(axioms, b, c, ((n + k + 1) - 1) as nat));
    } else {
        let x = choose|x: RegionView| #[trigger]
            outlives_step(axioms, a, x) && outlives_within(axioms, x, b, (n - 1) as nat);
        lemma_chain(axioms, x, b, c, (n - 1) as nat, k);
        assert(outlives_within(axioms, x, c, ((n + k + 1) - 1) as nat));
    }
}

proof fn lemma_more(
    axioms: Seq<(RegionView, RegionView)>,
    a: RegionView,
    b: RegionView,
    n: nat,
    k: nat,
)
    requires
        outlives_within(axioms, a, b, n),
        n <= k,
    ensures
        outlives_within(axioms, a, b, k),
    decreases n,
{
    if !outlives_step(axioms, a, b) {
        let x = choose|x: RegionView| #[trigger]
            outlives_step(axioms, a, x) && outlives_within(axioms, x, b, (n - 1) as nat);
        lemma_more(axioms, x, b, (n - 1) as nat, (k - 1) as nat);
    }
}

/// Every mentioned region outlives itself, `'static` outlives every
/// mentioned region, and every axiom holds.
pub proof fn lemma_outlives_basics(axioms: Seq<(RegionView, RegionView)>, r: RegionView)
    ensures
        mentioned(axioms, r) ==> outlives(axioms, r, r),
        mentioned(axioms, r) ==> outlives(axioms, RegionView::Static, r),
        forall|b: RegionView| #[trigger] axioms.contains((r, b)) ==> outlives(axioms, r, b),
{
    if mentioned(axioms, r) {
        assert(outlives_within(axioms, r, r, 0));
        assert(outlives_within(axioms, RegionView::Static, r, 0));
    }
    assert forall|b: RegionView| #[trigger] axioms.contains((r, b)) implies outlives(
        axioms,
        r,
        b,
    ) by {
        assert(outlives_within(axioms, r, b, 0));
    }
}

/// Where a chain leads is mentioned.
proof fn lemma_target_mentioned(
    axioms: Seq<(RegionView, RegionView)>,
    a: RegionView,
    b: RegionView,
    n: nat,
)
    requires
        outlives_within(axioms, a, b, n),
    ensures
        mentioned(axioms, b),
    decreases n,
{
    if outlives_step(axioms, a, b) {
        lemma_step_mentioned(axioms, a, b);
    } else {
        let x = choose|x: RegionView| #[trigger]
            outlives_step(axioms, a, x) && outlives_within(axioms, x, b, (n - 1) as nat);
        lemma_target_mentioned(axioms, x, b, (n - 1) as nat);
    }
}

proof fn lemma_step_mentioned(
    axioms: Seq<(RegionView, RegionView)>,
    a: RegionView,
    b: RegionView,
)
    requires
        outlives_step(axioms, a, b),
    ensures
        mentioned(axioms, b),
        mentioned(axioms, a) || a is Static,
{
    if axioms.contains((a, b)) {
        let i = choose|i: int| 0 <= i < axioms.len() && axioms[i] == (a, b);
        assert(axioms[i].0 == a);
    }
}

fn is_mentioned(axioms: &Vec<(Region, Region)>, r: &Region) -> (res: bool)
    ensures
        res == mentioned(pairs_view(axioms@), r@),
{
    let ghost ps = pairs_view(axioms@);
    let mut i: usize = 0;
    while i < axioms.len()
        invariant
            i <= axioms@.len(),
            ps == pairs_view(axioms@),
            forall|j: int| 0 <= j < i ==> !((#[trigger] ps[j]).0 == r@ || ps[j].1 == r@),
        decreases axioms@.len() - i,
    {
        assert(ps[i as int] == (axioms@[i as int].0@, axioms@[i as int].1@));
        if axioms[i].0 == *r || axioms[i].1 == *r {
            return true;
        }
        i += 1;
    }
    false
}

fn steps_to(axioms: &Vec<(Region, Region)>, a: &Region, b: &Region) -> (r: bool)
    ensures
        r == outlives_step(pairs_view(axioms@), a@, b@),
{
    let ghost ps = pairs_view(axioms@);
    let mut i: usize = 0;
    while i < axioms.len()
        invariant
            i <= axioms@.len(),
            ps == pairs_view(axioms@),
            forall|j: int| 0 <= j < i ==> ps[j] != (a@, b@),
        decreases axioms@.len() - i,
    {
        if axioms[i].0 == *a && axioms[i].1 == *b {
            assert(ps[i as int] == (a@, b@));
            return true;
        }
        i += 1;
    }
    assert(!ps.contains((a@, b@)));
    let is_static = match a {
        Region::Static => true,
        _ => false,
    };
    (is_static || *a == *b) && is_mentioned(axioms, b)
}

/// The regions that occur in the axioms, each once.
fn mentioned_regions(axioms: &Vec<(Region, Region)>) -> (r: Vec<Region>)
    ensures
        common::views(r@).no_duplicates(),
        forall|x: RegionView| #[trigger]
            common::views(r@).contains(x) == mentioned(pairs_view(axioms@), x),
{
    let mut out: Vec<Region> = Vec::new();
    let ghost ps = pairs_view(axioms@);
    let mut i: usize = 0;
    assert forall|x: RegionView| !(#[trigger] mentioned(ps.take(0), x)) by {}
    while i < axioms.len()
        invariant
            i <= axioms@.len(),
            ps == pairs_view(axioms@),
            common::views(out@).no_duplicates(),
            forall|x: RegionView| #[trigger]
                common::views(out@).contains(x) == mentioned(ps.take(i as int), x),
        decreases axioms@.len() - i,
    {
        let ghost start = common::views(out@);
        push_new(&mut out, &axioms[i].0);
        push_new(&mut out, &axioms[i].1);
        proof {
            let next = ps.take(i + 1);
            assert(next[i as int] == (axioms@[i as int].0@, axioms@[i as int].1@));
            assert forall|x: RegionView| #[trigger]
                common::views(out@).contains(x) == mentioned(next, x) by {
                if mentioned(next, x) {
                    let k = choose|k: int|
                        0 <= k < next.len() && ((#[trigger] next[k]).0 == x || next[k].1 == x);
                    if k < i {
                        assert(ps.take(i as int)[k] == next[k]);
                        assert(start.contains(x));
                    }
                }
                if common::views(out@).contains(x) {
                    if start.contains(x) {
                        let k = choose|k: int|
                            0 <= k < ps.take(i as int).len() && ((#[trigger] ps.take(i as int)[k]).0
                                == x || ps.take(i as int)[k].1 == x);
                        assert(next[k] == ps.take(i as int)[k]);
                    }
                }
            }
        }
        i += 1;
    }
    assert(ps.take(i as int) =~= ps);
    out
}

/// Add `x` unless it is there.
fn push_new(v: &mut Vec<Region>, x: &Region)
    requires
        common::views(old(v)@).no_duplicates(),
    ensures
        common::views(final(v)@).no_duplicates(),
        forall|y: RegionView| #[trigger]
            common::views(final(v)@).contains(y) == (common::views(old(v)@).contains(y) || y == x@),
{
    let ghost before = common::views(v@);
    if contains_region(v, x) {
        return;
    }
    v.push(x.clone());
    proof {
        let after = common::views(v@);
        assert(after =~= before.push(x@));
        assert forall|y: RegionView| #[trigger]
            after.contains(y) == (before.contains(y) || y == x@) by {
            if before.contains(y) {
                let k = choose|k: int| 0 <= k < before.len() && before[k] == y;
                assert(after[k] == y);
            }
            assert(after[before.len() as int] == x@);
            if after.contains(y) && y != x@ {
                let k = choose|k: int| 0 <= k < after.len() && after[k] == y;
                assert(before[k] == y);
            }
        }
        assert forall|i: int, j: int|
            0 <= i < after.len() && 0 <= j < after.len() && i != j implies after[i] != after[j] by {
            if i == before.len() {
                assert(before.contains(before[j]));
            } else if j == before.len() {
                assert(before.contains(before[i]));
            }
        }
    }
}

/// `y` is one step from `a` or from a member of `set`.
spec fn one_step_on(
    axioms: Seq<(RegionView, RegionView)>,
    set: Seq<RegionView>,
    a: RegionView,
    y: RegionView,
) -> bool {
    outlives_step(axioms, a, y) || exists|k: int|
        0 <= k < set.len() && outlives_step(axioms, #[trigger] set[k], y)
}

fn is_one_step_on(axioms: &Vec<(Region, Region)>, set: &Vec<Region>, a: &Region, y: &Region) -> (r:
    bool)
    ensures
        r == one_step_on(pairs_view(axioms@), common::views(set@), a@, y@),
{
    if steps_to(axioms, a, y) {
        return true;
    }
    let ghost all = common::views(set@);
    let mut i: usize = 0;
    while i < set.len()
        invariant
            i <= set@.len(),
            all == common::views(set@),
            forall|j: int|
                0 <= j < i ==> !outlives_step(pairs_view(axioms@), #[trigger] all[j], y@),
        decreases set@.len() - i,
    {
        assert(all[i as int] == set@[i as int]@);
        if steps_to(axioms, &set[i], y) {
            return true;
        }
        i += 1;
    }
    false
}

/// A set that is closed under steps holds everything that `a` outlives.
proof fn lemma_closed(
    axioms: Seq<(RegionView, RegionView)>,
    set: Seq<RegionView>,
    a: RegionView,
    m: RegionView,
    b: RegionView,
    n: nat,
)
    requires
        forall|y: RegionView|
            mentioned(axioms, y) && #[trigger] one_step_on(axioms, set, a, y) ==> set.contains(y),
        m == a || set.contains(m),
        outlives_within(axioms, m, b, n),
    ensures
        set.contains(b),
    decreases n,
{
    if outlives_step(axioms, m, b) {
        lemma_step_mentioned(axioms, m, b);
        if m != a {
            let k = choose|k: int| 0 <= k < set.len() && set[k] == m;
            assert(outlives_step(axioms, set[k], b));
        }
        assert(one_step_on(axioms, set, a, b));
    } else {
        let x = choose|x: RegionView| #[trigger]
            outlives_step(axioms, m, x) && outlives_within(axioms, x, b, (n - 1) as nat);
        lemma_step_mentioned(axioms, m, x);
        if m != a {
            let k = choose|k: int| 0 <= k < set.len() && set[k] == m;
            assert(outlives_step(axioms, set[k], x));
        }
        assert(one_step_on(axioms, set, a, x));
        lemma_closed(axioms, set, a, x, b, (n - 1) as nat);
    }
}

proof fn lemma_sub_len(small: Seq<RegionView>, big: Seq<RegionView>)
    requires
        small.no_duplicates(),
        forall|x: RegionView| #[trigger] small.contains(x) ==> big.contains(x),
    ensures
        small.len() <= big.len(),
{
    small.unique_seq_to_set();
    big.lemma_cardinality_of_set();
    assert(small.to_set().subset_of(big.to_set())) by {
        assert forall|x: RegionView| small.to_set().contains(x) implies big.to_set().contains(
            x,
        ) by {
            assert(small.contains(x));
        }
    }
    vstd::set_lib::lemma_len_subset(small.to_set(), big.to_set());
}

/// What `a` outlives, each region once. `nodes` are the mentioned regions.
fn outlived_by(axioms: &Vec<(Region, Region)>, nodes: &Vec<Region>, a: &Region) -> (r: Vec<Region>)
    requires
        forall|x: RegionView| #[trigger]
            common::views(nodes@).contains(x) == mentioned(pairs_view(axioms@), x),
    ensures
        common::views(r@).no_duplicates(),
        forall|b: RegionView| #[trigger]
            common::views(r@).contains(b) == outlives(pairs_view(axioms@), a@, b),
{
    let mut set: Vec<Region> = Vec::new();
    let ghost ps = pairs_view(axioms@);
    let ghost ns = common::views(nodes@);
    let mut changed = true;
    while changed
        invariant
            ps == pairs_view(axioms@),
            ns == common::views(nodes@),
            forall|x: RegionView| #[trigger] ns.contains(x) == mentioned(ps, x),
            common::views(set@).no_duplicates(),
            set@.len() <= ns.len(),
            forall|b: RegionView| #[trigger]
                common::views(set@).contains(b) ==> outlives(ps, a@, b) && ns.contains(b),
            !changed ==> forall|y: RegionView|
                mentioned(ps, y) && #[trigger] one_step_on(ps, common::views(set@), a@, y)
                    ==> common::views(set@).contains(y),
        decreases
                ns.len() - set@.len() + (if changed {
                    1int
                } else {
                    0int
                }),
    {
        changed = false;
        let ghost start = set@;
        let mut i: usize = 0;
        while i < nodes.len()
            invariant
                i <= nodes@.len(),
                ps == pairs_view(axioms@),
                ns == common::views(nodes@),
                forall|x: RegionView| #[trigger] ns.contains(x) == mentioned(ps, x),
                common::views(set@).no_duplicates(),
                set@.len() <= ns.len(),
                forall|b: RegionView| #[trigger]
                    common::views(set@).contains(b) ==> outlives(ps, a@, b) && ns.contains(b),
                changed ==> set@.len() > start.len(),
                !changed ==> set@ == start && forall|j: int|
                    0 <= j < i && one_step_on(ps, common::views(set@), a@, #[trigger] ns[j])
                        ==> common::views(set@).contains(ns[j]),
            decreases nodes@.len() - i,
        {
            let y = &nodes[i];
            let ghost before = common::views(set@);
            assert(ns[i as int] == y@);
            assert(ns.contains(y@));
            if !contains_region(&set, y) && is_one_step_on(axioms, &set, a, y) {
                proof {
                    if outlives_step(ps, a@, y@) {
                        assert(outlives_within(ps, a@, y@, 0));
                    } else {
                        let k = choose|k: int|
                            0 <= k < before.len() && outlives_step(
                                ps,
                                #[trigger] before[k],
                                y@,
                            );
                        assert(before.contains(before[k]));
                        let n = choose|n: nat| outlives_within(ps, a@, before[k], n);
                        lemma_append(ps, a@, before[k], y@, n);
                    }
                }
                push_new(&mut set, y);
                changed = true;
                proof {
                    lemma_sub_len(common::views(set@), ns);
                    assert(common::views(set@).len() == set@.len());
                    assert(common::views(set@).contains(y@));
                    if set@.len() <= start.len() {
                        lemma_grown(before, common::views(set@), y@);
                    } else {
                        lemma_grown(before, common::views(set@), y@);
                    }
                }
            }
            i += 1;
        }
        proof {
            if !changed {
                let now = common::views(set@);
                assert forall|y: RegionView|
                    mentioned(ps, y) && #[trigger] one_step_on(ps, now, a@, y) implies now.contains(
                    y,
                ) by {
                    assert(ns.contains(y));
                    let j = choose|j: int| 0 <= j < ns.len() && ns[j] == y;
                    assert(one_step_on(ps, now, a@, ns[j]));
                }
            }
        }
    }
    proof {
        let now = common::views(set@);
        assert forall|b: RegionView| #[trigger] now.contains(b) == outlives(ps, a@, b) by {
            if outlives(ps, a@, b) {
                let n = choose|n: nat| outlives_within(ps, a@, b, n);
                lemma_closed(ps, now, a@, a@, b, n);
            }
        }
    }
    set
}

/// A list without duplicates that holds all of another and one thing more is
/// longer.
proof fn lemma_grown(small: Seq<RegionView>, big: Seq<RegionView>, x: RegionView)
    requires
        small.no_duplicates(),
        !small.contains(x),
        big.contains(x),
        forall|y: RegionView| #[trigger] small.contains(y) ==> big.contains(y),
    ensures
        small.len() < big.len(),
{
    let more = small.push(x);
    assert forall|i: int, j: int|
        0 <= i < more.len() && 0 <= j < more.len() && i != j implies more[i] != more[j] by {
        if i == small.len() {
            assert(small.contains(small[j]));
        } else if j == small.len() {
            assert(small.contains(small[i]));
        }
    }
    assert forall|y: RegionView| #[trigger] more.contains(y) implies big.contains(y) by {
        let k = choose|k: int| 0 <= k < more.len() && more[k] == y;
        if k < small.len() {
            assert(small[k] == y);
            assert(small.contains(y));
        }
    }
    lemma_sub_len(more, big);
}

/// The transitive closure of a set of outlives axioms: every pair of regions
/// of which the first outlives the second, each once. Every mentioned region
/// outlives itself, and `'static` outlives every mentioned region.
pub fn transitive_closure(axioms: &Vec<(Region, Region)>) -> (r: Vec<(Region, Region)>)
    ensures
        pairs_view(r@).no_duplicates(),
        forall|a: RegionView, b: RegionView| #[trigger]
            pairs_view(r@).contains((a, b)) == outlives(pairs_view(axioms@), a, b),
{
    let nodes = mentioned_regions(axioms);
    let ghost ps = pairs_view(axioms@);
    let mut sources = duplicate_all(&nodes);
    push_new(&mut sources, &Region::Static);
    let ghost from = common::views(sources@);
    let mut out: Vec<(Region, Region)> = Vec::new();
    let mut i: usize = 0;
    while i < sources.len()
        invariant
            i <= sources@.len(),
            ps == pairs_view(axioms@),
            from == common::views(sources@),
            from.no_duplicates(),
            forall|x: RegionView| #[trigger]
                common::views(nodes@).contains(x) == mentioned(ps, x),
            pairs_view(out@).no_duplicates(),
            forall|a: RegionView, b: RegionView| #[trigger]
                pairs_view(out@).contains((a, b)) == (from.take(i as int).contains(a) && outlives(
                    ps,
                    a,
                    b,
                )),
        decreases sources@.len() - i,
    {
        let a = &sources[i];
        assert(from[i as int] == a@);
        let targets = outlived_by(axioms, &nodes, a);
        let ghost ts = common::views(targets@);
        let ghost base = pairs_view(out@);
        proof {
            assert(!from.take(i as int).contains(a@)) by {
                if from.take(i as int).contains(a@) {
                    let k = choose|k: int|
                        0 <= k < from.take(i as int).len() && from.take(i as int)[k] == a@;
                    assert(from[k] == from[i as int]);
                }
            }
        }
        let mut j: usize = 0;
        assert(base =~= base + added(a@, ts, 0));
        while j < targets.len()
            invariant
                j <= targets@.len(),
                ts == common::views(targets@),
                pairs_view(out@) == base + added(a@, ts, j as nat),
            decreases targets@.len() - j,
        {
            let ghost held = pairs_view(out@);
            out.push((a.clone(), targets[j].clone()));
            proof {
                assert(pairs_view(out@) =~= held.push((a@, ts[j as int])));
                assert(added(a@, ts, (j + 1) as nat) =~= added(a@, ts, j as nat).push(
                    (a@, ts[j as int]),
                ));
                assert(held.push((a@, ts[j as int])) =~= base + added(a@, ts, (j + 1) as nat));
            }
            j += 1;
        }
        proof {
            let block = added(a@, ts, ts.len());
            let all = base + block;
            assert(pairs_view(out@) == all);
            assert forall|x: RegionView, y: RegionView| #[trigger]
                all.contains((x, y)) == (from.take(i + 1).contains(x) && outlives(ps, x, y)) by {
                lemma_block(base, a@, ts, x, y);
                lemma_take_more(from, i as int, x);
            }
            assert forall|m: int, n: int| 0 <= m < all.len() && 0 <= n < all.len() && m != n implies all[m]
                != all[n] by {
                if m < base.len() && n >= base.len() {
                    assert(base.contains(base[m]));
                    assert(base[m] == (base[m].0, base[m].1));
                    assert(block[n - base.len()].0 == a@);
                } else if n < base.len() && m >= base.len() {
                    assert(base.contains(base[n]));
                    assert(base[n] == (base[n].0, base[n].1));
                    assert(block[m - base.len()].0 == a@);
                } else if m >= base.len() && n >= base.len() {
                    assert(ts[m - base.len()] != ts[n - base.len()]);
                }
            }
        }
        i += 1;
    }
    proof {
        assert(from.take(i as int) =~= from);
        assert forall|a: RegionView, b: RegionView| #[trigger]
            pairs_view(out@).contains((a, b)) == outlives(ps, a, b) by {
            if outlives(ps, a, b) {
                let n = choose|n: nat| outlives_within(ps, a, b, n);
                lemma_source(ps, a, b, n);
            }
        }
    }
    out
}

/// The pairs of `a` with the first `n` of `ts`.
spec fn added(a: RegionView, ts: Seq<RegionView>, n: nat) -> Seq<(RegionView, RegionView)> {
    Seq::new(n, |k: int| (a, ts[k]))
}

proof fn lemma_block(
    base: Seq<(RegionView, RegionView)>,
    a: RegionView,
    ts: Seq<RegionView>,
    x: RegionView,
    y: RegionView,
)
    ensures
        (base + added(a, ts, ts.len())).contains((x, y)) == (base.contains((x, y)) || (x == a
            && ts.contains(y))),
{
    let block = added(a, ts, ts.len());
    let all = base + block;
    if base.contains((x, y)) {
        let k = choose|k: int| 0 <= k < base.len() && base[k] == (x, y);
        assert(all[k] == (x, y));
    }
    if x == a && ts.contains(y) {
        let k = choose|k: int| 0 <= k < ts.len() && ts[k] == y;
        assert(all[base.len() + k] == (x, y));
    }
    if all.contains((x, y)) {
        let k = choose|k: int| 0 <= k < all.len() && all[k] == (x, y);
        if k < base.len() {
            assert(base[k] == (x, y));
        } else {
            assert(block[k - base.len()] == (x, y));
            assert(ts[k - base.len()] == y);
        }
    }
}

proof fn lemma_take_more(s: Seq<RegionView>, i: int, x: RegionView)
    requires
        0 <= i < s.len(),
    ensures
        s.take(i + 1).contains(x) == (s.take(i).contains(x) || x == s[i]),
{
    let next = s.take(i + 1);
    if s.take(i).contains(x) {
        let k = choose|k: int| 0 <= k < i && s.take(i)[k] == x;
        assert(next[k] == x);
    }
    assert(next[i] == s[i]);
    if next.contains(x) {
        let k = choose|k: int| 0 <= k < next.len() && next[k] == x;
        if k < i {
            assert(s.take(i)[k] == x);
        }
    }
}

proof fn lemma_source(
    axioms: Seq<(RegionView, RegionView)>,
    a: RegionView,
    b: RegionView,
    n: nat,
)
    requires
        outlives_within(axioms, a, b, n),
    ensures
        mentioned(axioms, a) || a is Static,
{
    if outlives_step(axioms, a, b) {
        lemma_step_mentioned(axioms, a, b);
    } else {
        let x = choose|x: RegionView| #[trigger]
            outlives_step(axioms, a, x) && outlives_within(axioms, x, b, (n - 1) as nat);
        lemma_step_mentioned(axioms, a, x);
    }
}

} // verus!
