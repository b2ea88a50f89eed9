//! Regions: what lifetime constraints range over.
//!
//! - `Named`: a name of the signature or the declaration.
//! - `Free`: a reference of the body without a declared name.
//! - `Inference`: stands for a lifetime parameter of a callee at one call.
//! - `Static`: outlives every region.

use vstd::prelude::*;

use crate::ast::{
    EnumDecl, EnumDeclView, Function, FunctionView, Instance, InstanceView, StructDecl,
    StructDeclView, Type, TypeDecl, TypeDeclView, TypeKind, TypeView,
};
use crate::common;
use crate::common::{Duplicate, Lifetime};
use crate::env::{IndexedProgram, IndexedView};
use crate::helpers::{downcast_place, field_place, var_place};
use crate::place::{Place, PlaceView, as_owned_path};
use crate::place_map::PlaceMap;
use crate::subst;
use crate::table;
use crate::table::Table;
use crate::text;
use crate::text::{clone_strings, contains_str, numbered_name, str_eq};
use crate::typing::{EnvView, LocalEnv, Locals};

verus! {

#[derive(Debug)]
pub enum Region {
    Named(Lifetime),
    Free(u32),
    Inference(u32),
    Static,
}

/// Model of [`Region`].
pub enum RegionView {
    Named(Seq<char>),
    Free(u32),
    Inference(u32),
    Static,
}

impl View for Region {
    type V = RegionView;

    open spec fn view(&self) -> RegionView {
        match *self {
            Region::Named(lt) => RegionView::Named(lt@),
            Region::Free(n) => RegionView::Free(n),
            Region::Inference(n) => RegionView::Inference(n),
            Region::Static => RegionView::Static,
        }
    }
}

impl Clone for Region {
    fn clone(&self) -> (r: Self)
        ensures
            r@ == self@,
    {
        match self {
            Region::Named(lt) => Region::Named(lt.clone()),
            Region::Free(n) => Region::Free(*n),
            Region::Inference(n) => Region::Inference(*n),
            Region::Static => Region::Static,
        }
    }
}

impl Duplicate for Region {
    fn duplicate(&self) -> (r: Self) {
        self.clone()
    }
}

impl PartialEq for Region {
    fn eq(&self, other: &Self) -> (r: bool) {
        match (self, other) {
            (Region::Named(a), Region::Named(b)) => *a == *b,
            (Region::Free(a), Region::Free(b)) => *a == *b,
            (Region::Inference(a), Region::Inference(b)) => *a == *b,
            (Region::Static, Region::Static) => true,
            _ => false,
        }
    }
}

impl vstd::std_specs::cmp::PartialEqSpecImpl for Region {
    open spec fn obeys_eq_spec() -> bool {
        true
    }

    open spec fn eq_spec(&self, other: &Self) -> bool {
        self@ == other@
    }
}

impl Eq for Region {

}

impl RegionView {
    /// The notation of a region in internal output.
    pub open spec fn text(self) -> Seq<char> {
        match self {
            RegionView::Named(lt) => common::lifetime_text(lt),
            RegionView::Free(n) => text::numbered("'?"@, n as nat),
            RegionView::Inference(n) => text::numbered("'?call"@, n as nat),
            RegionView::Static => "'static"@,
        }
    }
}

impl Region {
    /// `'a`, `'?3`, `'?call4` or `'static`.
    pub fn text(&self) -> (r: String)
        ensures
            r@ == self@.text(),
    {
        match self {
            Region::Named(lt) => lt.text(),
            Region::Free(n) => numbered_name("'?", *n as u64),
            Region::Inference(n) => numbered_name("'?call", *n as u64),
            Region::Static => "'static".to_owned(),
        }
    }
}

// ---------- Regions of a function ----------

/// The region of a lifetime: `'static` is reserved.
pub open spec fn lifetime_region(lt: Seq<char>) -> RegionView {
    if lt == "static"@ {
        RegionView::Static
    } else {
        RegionView::Named(lt)
    }
}

/// The region of a lifetime: the reserved name `'static` is the region that
/// outlives all, every other name a region of its own.
pub fn name_to_region(lt: &Lifetime) -> (r: Region)
    ensures
        r@ == lifetime_region(lt@),
{
    if str_eq(lt.0.as_str(), "static") {
        Region::Static
    } else {
        Region::Named(lt.clone())
    }
}

/// The number after `n`; after the largest one counting starts over.
pub open spec fn next_number(n: u32) -> u32 {
    if n == u32::MAX {
        0
    } else {
        (n + 1) as u32
    }
}

/// The regions of one function: a counter for new ones, and the region of
/// every owned path that holds a reference.
#[derive(Debug)]
pub struct RegionCtx {
    fresh: u32,
    pub place_region: PlaceMap<Region>,
}

/// Model of [`RegionCtx`].
pub struct RegionsView {
    pub fresh: u32,
    pub places: Seq<(PlaceView, RegionView)>,
}

impl View for RegionCtx {
    type V = RegionsView;

    closed spec fn view(&self) -> RegionsView {
        RegionsView { fresh: self.fresh, places: self.place_region@ }
    }
}

impl RegionsView {
    /// The state after one number is taken.
    pub open spec fn advanced(self) -> RegionsView {
        RegionsView { fresh: next_number(self.fresh), ..self }
    }

    /// The region of a reference with this lifetime slot, and the state
    /// after.
    pub open spec fn for_ref(self, lt: Option<Seq<char>>) -> (RegionsView, RegionView) {
        match lt {
            Some(l) => (self, lifetime_region(l)),
            None => (self.advanced(), RegionView::Free(self.fresh)),
        }
    }

    /// The region of a place that holds a reference: the one assigned to it,
    /// or the one that its type names.
    pub open spec fn of_place(self, env: EnvView, locals: Locals, p: PlaceView) -> Option<RegionView> {
        match self.assigned(p) {
            Some(r) => Some(r),
            None => match env.place_type(locals, p) {
                Ok(TypeView::Ref(_, Some(lt), _)) => Some(lifetime_region(lt)),
                _ => None,
            },
        }
    }

    /// The region assigned to an owned path.
    pub open spec fn assigned(self, p: PlaceView) -> Option<RegionView> {
        if p.owned() {
            table::lookup(self.places, p)
        } else {
            None
        }
    }

    /// The region that a borrow of a place takes, and the state after. What
    /// is borrowed through a reference has the region of that reference; what
    /// lies in the frame has a new region of its own.
    pub open spec fn of_borrow(self, env: EnvView, locals: Locals, p: PlaceView) -> (
        RegionsView,
        Option<RegionView>,
    )
        decreases p,
    {
        match p {
            PlaceView::Var(_) => (self.advanced(), Some(RegionView::Free(self.fresh))),
            PlaceView::Deref(inner) => (self, self.of_place(env, locals, *inner)),
            PlaceView::Field(inner, _) => self.of_borrow(env, locals, *inner),
            PlaceView::Downcast(inner, _) => self.of_borrow(env, locals, *inner),
            PlaceView::Index(inner, _) => self.of_borrow(env, locals, *inner),
        }
    }

    /// The state after the first `n` places got their regions.
    pub open spec fn assigned_upto(self, s: Seq<(PlaceView, Option<Seq<char>>)>, n: nat) -> RegionsView
        decreases n,
    {
        if n == 0 {
            self
        } else {
            let before = self.assigned_upto(s, (n - 1) as nat);
            let (after, r) = before.for_ref(s[n - 1].1);
            RegionsView { places: table::inserted(after.places, s[n - 1].0, r), ..after }
        }
    }
}

impl RegionCtx {
    pub fn new() -> (r: Self)
        ensures
            r@ == (RegionsView { fresh: 0, places: Seq::empty() }),
    {
        RegionCtx { fresh: 0, place_region: PlaceMap::new() }
    }

    fn take_number(&mut self) -> (n: u32)
        ensures
            n == old(self)@.fresh,
            final(self)@ == old(self)@.advanced(),
    {
        let n: u32 = self.fresh;
        self.fresh = if n == u32::MAX {
            0
        } else {
            n + 1
        };
        n
    }

    /// A new region of the body.
    pub fn fresh(&mut self) -> (r: Region)
        ensures
            r@ == RegionView::Free(old(self)@.fresh),
            final(self)@ == old(self)@.advanced(),
    {
        Region::Free(self.take_number())
    }

    /// A new region for a lifetime parameter of a callee. Its number comes
    /// from the same counter.
    pub fn fresh_inference(&mut self) -> (r: Region)
        ensures
            r@ == RegionView::Inference(old(self)@.fresh),
            final(self)@ == old(self)@.advanced(),
    {
        Region::Inference(self.take_number())
    }

    /// The region of a reference with this lifetime slot: named, or new.
    pub fn region_for_ref(&mut self, lt_opt: &Option<Lifetime>) -> (r: Region)
        ensures
            (final(self)@, r@) == old(self)@.for_ref(common::opt_view(*lt_opt)),
    {
        match lt_opt {
            Some(lt) => name_to_region(lt),
            None => self.fresh(),
        }
    }

    pub fn assign(&mut self, place: Place, region: Region)
        ensures
            final(self)@ == (RegionsView {
                places: table::inserted(old(self)@.places, place@, region@),
                ..old(self)@
            }),
    {
        self.place_region.insert(place, region);
    }

    pub fn get(&self, place: &Place) -> (r: Option<&Region>)
        ensures
            table::lookup(self@.places, place@) == (match r {
                Some(x) => Some(x@),
                None => None,
            }),
    {
        self.place_region.get(place)
    }

    /// The region of `place` as a reference. A path without an assigned
    /// region has the one that its type names.
    pub fn region_of_place(&self, place: &Place, locals: &Table<Type>, env: &LocalEnv) -> (r: Option<
        Region,
    >)
        requires
            env.wf(),
            locals.wf(),
        ensures
            common::opt_view(r) == self@.of_place(env@, locals@, place@),
    {
        match as_owned_path(place) {
            Some(owned) => match self.get(&owned) {
                Some(r) => {
                    return Some(r.clone());
                },
                None => {},
            },
            None => {},
        }
        match env.type_of_place(place, locals) {
            Ok(ty) => {
                assert(ty@ == ty.kind@);
                match &ty.kind {
                    TypeKind::Ref(_, Some(lt), _) => Some(name_to_region(lt)),
                    _ => None,
                }
            },
            Err(_) => None,
        }
    }

    /// The region that a borrow of `place` takes.
    pub fn region_of_borrow_source(&mut self, place: &Place, locals: &Table<Type>, env: &LocalEnv) -> (r:
        Option<Region>)
        requires
            env.wf(),
            locals.wf(),
        ensures
            (final(self)@, common::opt_view(r)) == old(self)@.of_borrow(env@, locals@, place@),
        decreases place,
    {
        match place {
            Place::Var(_) => Some(self.fresh()),
            Place::Deref(inner) => self.region_of_place(inner, locals, env),
            Place::Field(inner, _) => self.region_of_borrow_source(inner, locals, env),
            Place::Downcast(inner, _) => self.region_of_borrow_source(inner, locals, env),
            Place::Index(inner, _) => self.region_of_borrow_source(inner, locals, env),
        }
    }
}

// ---------- Places that hold references ----------

/// How many of the first `n` declared types are not in `visited`.
pub open spec fn unseen(types: Seq<(Seq<char>, TypeDeclView)>, visited: Seq<Seq<char>>, n: nat) -> nat
    decreases n,
{
    if n == 0 {
        0
    } else {
        unseen(types, visited, (n - 1) as nat) + (if visited.contains(types[n - 1].0) {
            0nat
        } else {
            1nat
        })
    }
}

proof fn lemma_unseen(
    types: Seq<(Seq<char>, TypeDeclView)>,
    visited: Seq<Seq<char>>,
    name: Seq<char>,
    n: nat,
)
    requires
        n <= types.len(),
    ensures
        unseen(types, visited.push(name), n) <= unseen(types, visited, n),
        (exists|i: int| 0 <= i < n && (#[trigger] types[i]).0 == name) && !visited.contains(name)
            ==> unseen(types, visited.push(name), n) < unseen(types, visited, n),
    decreases n,
{
    let more = visited.push(name);
    if n > 0 {
        lemma_unseen(types, visited, name, (n - 1) as nat);
        let x = types[n - 1].0;
        if visited.contains(x) {
            let k = choose|k: int| 0 <= k < visited.len() && visited[k] == x;
            assert(more[k] == x);
        }
        if x == name {
            assert(more[visited.len() as int] == x);
        }
    }
}

/// Entering a declared type that was not visited leaves fewer to visit.
pub proof fn lemma_enter(
    types: Seq<(Seq<char>, TypeDeclView)>,
    visited: Seq<Seq<char>>,
    name: Seq<char>,
)
    requires
        table::lookup(types, name) is Some,
        !visited.contains(name),
    ensures
        unseen(types, visited.push(name), types.len()) < unseen(types, visited, types.len()),
{
    let k = subst::first_index(table::keys(types), name);
    subst::lemma_first_index(table::keys(types), name);
    assert(table::keys(types)[k as int] == types[k as int].0);
    lemma_unseen(types, visited, name, types.len());
}

/// The owned paths at and below `p`, a place of type `ty`, that hold
/// references, each with the lifetime of its type. The walk goes through
/// fields and variants and stops at references. A type that it is already
/// inside of is not entered again.
pub open spec fn ref_places(
    types: Seq<(Seq<char>, TypeDeclView)>,
    p: PlaceView,
    ty: TypeView,
    visited: Seq<Seq<char>>,
) -> Seq<(PlaceView, Option<Seq<char>>)>
    decreases unseen(types, visited, types.len()), 0nat, 0nat,
{
    match ty {
        TypeView::Ref(_, lt, _) => seq![(p, lt)],
        TypeView::Custom(inst) => if visited.contains(inst.name) {
            Seq::empty()
        } else {
            match table::lookup(types, inst.name) {
                None => Seq::empty(),
                Some(TypeDeclView::Struct(s)) => {
                    proof {
                        lemma_enter(types, visited, inst.name);
                    }
                    field_refs(types, p, s, inst, visited.push(inst.name), s.fields.len())
                },
                Some(TypeDeclView::Enum(e)) => {
                    proof {
                        lemma_enter(types, visited, inst.name);
                    }
                    variant_refs(types, p, e, inst, visited.push(inst.name), e.variants.len())
                },
            }
        },
        _ => Seq::empty(),
    }
}

/// The references in the first `n` fields.
pub open spec fn field_refs(
    types: Seq<(Seq<char>, TypeDeclView)>,
    p: PlaceView,
    s: StructDeclView,
    inst: InstanceView,
    visited: Seq<Seq<char>>,
    n: nat,
) -> Seq<(PlaceView, Option<Seq<char>>)>
    decreases unseen(types, visited, types.len()), 1nat, n,
{
    if n == 0 {
        Seq::empty()
    } else {
        let f = s.fields[n - 1];
        field_refs(types, p, s, inst, visited, (n - 1) as nat) + ref_places(
            types,
            PlaceView::Field(Box::new(p), f.name),
            s.meta.params.replaced(f.ty, inst.lifetime_args, inst.type_args),
            visited,
        )
    }
}

/// The references in the first `n` variants.
pub open spec fn variant_refs(
    types: Seq<(Seq<char>, TypeDeclView)>,
    p: PlaceView,
    e: EnumDeclView,
    inst: InstanceView,
    visited: Seq<Seq<char>>,
    n: nat,
) -> Seq<(PlaceView, Option<Seq<char>>)>
    decreases unseen(types, visited, types.len()), 1nat, n,
{
    if n == 0 {
        Seq::empty()
    } else {
        let v = e.variants[n - 1];
        variant_refs(types, p, e, inst, visited, (n - 1) as nat) + ref_places(
            types,
            PlaceView::Downcast(Box::new(p), v.name),
            e.meta.params.replaced(v.ty, inst.lifetime_args, inst.type_args),
            visited,
        )
    }
}

/// Model of a list of places with lifetimes.
pub open spec fn refs_view(s: Seq<(Place, Option<Lifetime>)>) -> Seq<(PlaceView, Option<Seq<char>>)> {
    Seq::new(s.len(), |i: int| (s[i].0@, common::opt_view(s[i].1)))
}

/// Append the owned paths at and below `place` that hold references.
pub fn walk_ref_places(
    place: &Place,
    ty: &Type,
    types: &Table<TypeDecl>,
    visited: &Vec<String>,
    out: &mut Vec<(Place, Option<Lifetime>)>,
)
    requires
        types.wf(),
    ensures
        refs_view(final(out)@) == refs_view(old(out)@) + ref_places(
            types@,
            place@,
            ty@,
            text::strings_view(visited@),
        ),
    decreases unseen(types@, text::strings_view(visited@), types@.len()), 0nat, 0nat,
{
    let ghost start = refs_view(out@);
    let ghost seen = text::strings_view(visited@);
    assert(ty@ == ty.kind@);
    match &ty.kind {
        TypeKind::Ref(_, lt, _) => {
            let ghost item = (place@, common::opt_view(*lt));
            let lifetime = match lt {
                Some(l) => Some(l.clone()),
                None => None,
            };
            out.push((place.clone(), lifetime));
            assert(refs_view(out@) =~= start + seq![item]);
        },
        TypeKind::Custom(inst) => {
            assert(ty@ == TypeView::Custom(inst@));
            if contains_str(visited, inst.name.as_str()) {
                assert(refs_view(out@) =~= start + Seq::<(PlaceView, Option<Seq<char>>)>::empty());
                return;
            }
            let mut inside = clone_strings(visited);
            inside.push(inst.name.clone());
            assert(text::strings_view(inside@) =~= seen.push(inst.name@));
            match types.find(inst.name.as_str()) {
                Some(TypeDecl::Struct(s)) => {
                    proof {
                        lemma_enter(types@, seen, inst.name@);
                    }
                    walk_field_refs(place, s, inst, types, &inside, s.fields.len(), out);
                },
                Some(TypeDecl::Enum(e)) => {
                    proof {
                        lemma_enter(types@, seen, inst.name@);
                    }
                    walk_variant_refs(place, e, inst, types, &inside, e.variants.len(), out);
                },
                None => {
                    assert(refs_view(out@) =~= start + Seq::<
                        (PlaceView, Option<Seq<char>>),
                    >::empty());
                },
            }
        },
        _ => {
            assert(refs_view(out@) =~= start + Seq::<(PlaceView, Option<Seq<char>>)>::empty());
        },
    }
}

fn walk_field_refs(
    place: &Place,
    s: &StructDecl,
    inst: &Instance,
    types: &Table<TypeDecl>,
    visited: &Vec<String>,
    n: usize,
    out: &mut Vec<(Place, Option<Lifetime>)>,
)
    requires
        types.wf(),
        n <= s.fields@.len(),
    ensures
        refs_view(final(out)@) == refs_view(old(out)@) + field_refs(
            types@,
            place@,
            s@,
            inst@,
            text::strings_view(visited@),
            n as nat,
        ),
    decreases unseen(types@, text::strings_view(visited@), types@.len()), 1nat, n,
{
    let ghost start = refs_view(out@);
    if n == 0 {
        assert(refs_view(out@) =~= start + Seq::<(PlaceView, Option<Seq<char>>)>::empty());
        return;
    }
    walk_field_refs(place, s, inst, types, visited, n - 1, out);
    let ghost before = refs_view(out@);
    let f = &s.fields[n - 1];
    assert(s@.fields[n - 1] == f@);
    let ty = s.meta.params.substitute(&f.ty, &inst.lifetime_args, &inst.type_args);
    let sub = field_place(place.clone(), f.name.as_str());
    walk_ref_places(&sub, &ty, types, visited, out);
    assert(refs_view(out@) =~= start + field_refs(
        types@,
        place@,
        s@,
        inst@,
        text::strings_view(visited@),
        n as nat,
    ));
}

fn walk_variant_refs(
    place: &Place,
    e: &EnumDecl,
    inst: &Instance,
    types: &Table<TypeDecl>,
    visited: &Vec<String>,
    n: usize,
    out: &mut Vec<(Place, Option<Lifetime>)>,
)
    requires
        types.wf(),
        n <= e.variants@.len(),
    ensures
        refs_view(final(out)@) == refs_view(old(out)@) + variant_refs(
            types@,
            place@,
            e@,
            inst@,
            text::strings_view(visited@),
            n as nat,
        ),
    decreases unseen(types@, text::strings_view(visited@), types@.len()), 1nat, n,
{
    let ghost start = refs_view(out@);
    if n == 0 {
        assert(refs_view(out@) =~= start + Seq::<(PlaceView, Option<Seq<char>>)>::empty());
        return;
    }
    walk_variant_refs(place, e, inst, types, visited, n - 1, out);
    let ghost before = refs_view(out@);
    let v = &e.variants[n - 1];
    assert(e@.variants[n - 1] == v@);
    let ty = e.meta.params.substitute(&v.ty, &inst.lifetime_args, &inst.type_args);
    let sub = downcast_place(place.clone(), v.name.as_str());
    walk_ref_places(&sub, &ty, types, visited, out);
    assert(refs_view(out@) =~= start + variant_refs(
        types@,
        place@,
        e@,
        inst@,
        text::strings_view(visited@),
        n as nat,
    ));
}

/// The owned paths of the first `n` parameters and locals that hold
/// references.
pub open spec fn locals_refs(
    types: Seq<(Seq<char>, TypeDeclView)>,
    locals: Locals,
    n: nat,
) -> Seq<(PlaceView, Option<Seq<char>>)>
    decreases n,
{
    if n == 0 {
        Seq::empty()
    } else {
        locals_refs(types, locals, (n - 1) as nat) + ref_places(
            types,
            PlaceView::Var(locals[n - 1].0),
            locals[n - 1].1,
            Seq::empty(),
        )
    }
}

/// The owned paths of a function that hold references.
pub open spec fn function_refs(f: FunctionView, prog: IndexedView) -> Seq<
    (PlaceView, Option<Seq<char>>),
> {
    let locals = table::collected(f.declared());
    locals_refs(prog.types, locals, locals.len())
}

/// The owned paths of `func` that hold references, in the order of its
/// parameters and locals.
pub fn function_ref_places(func: &Function, env: &IndexedProgram) -> (r: Vec<
    (Place, Option<Lifetime>),
>)
    requires
        env.wf(),
    ensures
        refs_view(r@) == function_refs(func@, env@),
{
    let locals = func.locals_map();
    let ghost all = locals@;
    let mut out: Vec<(Place, Option<Lifetime>)> = Vec::new();
    let none: Vec<String> = Vec::new();
    assert(text::strings_view(none@) =~= Seq::<Seq<char>>::empty());
    assert(refs_view(out@) =~= Seq::<(PlaceView, Option<Seq<char>>)>::empty());
    let mut i: usize = 0;
    let n: usize = locals.len();
    while i < n
        invariant
            i <= n,
            n == locals.entries().len(),
            locals.wf(),
            env.wf(),
            all == locals@,
            text::strings_view(none@) == Seq::<Seq<char>>::empty(),
            refs_view(out@) == locals_refs(env@.types, all, i as nat),
        decreases n - i,
    {
        let name = locals.key_at(i);
        let ty = locals.value_at(i);
        assert(all[i as int] == (name@, ty@));
        walk_ref_places(&var_place(name.as_str()), ty, &env.types, &none, &mut out);
        i += 1;
    }
    assert(all.len() == locals.entries().len());
    out
}

/// The regions of a function at its start.
pub open spec fn built_regions(f: FunctionView, prog: IndexedView) -> RegionsView {
    let refs = function_refs(f, prog);
    (RegionsView { fresh: 0, places: Seq::empty() }).assigned_upto(refs, refs.len())
}

/// Give a region to every owned path of `func` that holds a reference: the
/// named one of its type, or a new one.
pub fn build_region_ctx(func: &Function, env: &IndexedProgram) -> (r: RegionCtx)
    requires
        env.wf(),
    ensures
        r@ == built_regions(func@, env@),
{
    let refs = function_ref_places(func, env);
    let mut ctx = RegionCtx::new();
    let ghost start = ctx@;
    let ghost all = refs_view(refs@);
    let mut i: usize = 0;
    while i < refs.len()
        invariant
            i <= refs@.len(),
            all == refs_view(refs@),
            ctx@ == start.assigned_upto(all, i as nat),
        decreases refs@.len() - i,
    {
        let (place, lt) = &refs[i];
        assert(all[i as int] == (place@, common::opt_view(*lt)));
        let region = ctx.region_for_ref(lt);
        ctx.assign(place.clone(), region);
        i += 1;
    }
    assert(all.len() == refs@.len());
    ctx
}

} // verus!
