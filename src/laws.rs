use vstd::prelude::*;
use crate::module::{modules_view, ModuleBrief, ModuleView};
use crate::resolve::{
    appears_before, deps, first_named, is_dep, is_rep, lemma_deps_complete, lemma_first_named_rep,
    lemma_resolution_err_on_loop, lemma_resolution_ok, on_loop, provides_for, rep, resolution, resolved_as, ResolveError,
};

verus! {

/// Every module of `order` comes after some record of each module of `ms`
/// that exports a symbol it references (itself excepted).
pub open spec fn respects_references(ms: Seq<ModuleView>, order: Seq<ModuleView>) -> bool {
    forall|p: int, m: int|
        0 <= p < order.len() && 0 <= m < ms.len() && #[trigger] provides_for(ms[m], order[p])
            && ms[m].name != order[p].name ==> exists|q: int|
            0 <= q < p && #[trigger] order[q].name == ms[m].name
}

/// No name occurs twice in `order`.
pub open spec fn names_distinct(order: Seq<ModuleView>) -> bool {
    forall|i: int, j: int| 0 <= i < j < order.len() ==> order[i].name != order[j].name
}

proof fn lemma_ok_order(ms: Seq<ModuleView>, target: Seq<char>, r: Result<Vec<ModuleBrief>, ResolveError>)
    requires
        resolved_as(ms, target, r),
        r is Ok,
    ensures
        resolution(ms, target) is Ok,
        modules_view(r->Ok_0@) == resolution(ms, target)->Ok_0.map_values(|i: int| ms[i]),
{
}

/// In a computed load order, each module follows every module that exports a
/// symbol it references.
pub proof fn lemma_load_order_respects_references(
    ms: Seq<ModuleView>,
    target: Seq<char>,
    r: Result<Vec<ModuleBrief>, ResolveError>,
)
    requires
        resolved_as(ms, target, r),
    ensures
        r matches Ok(v) ==> respects_references(ms, modules_view(v@)),
{
    if let Ok(v) = r {
        lemma_ok_order(ms, target, r);
        lemma_resolution_ok(ms, target);
        let o = resolution(ms, target)->Ok_0;
        let order = modules_view(v@);
        assert forall|p: int, m: int|
            0 <= p < order.len() && 0 <= m < ms.len() && #[trigger] provides_for(ms[m], order[p])
                && ms[m].name != order[p].name implies exists|q: int|
            0 <= q < p && #[trigger] order[q].name == ms[m].name by {
            assert(order[p] == ms[o[p]]);
            assert(is_dep(ms, o[p], m));
            lemma_deps_complete(ms, o[p], 0, m);
            let ds = deps(ms, o[p]);
            let j = choose|j: int| 0 <= j < ds.len() && ds[j] == rep(ms, m);
            assert(appears_before(o, p, ds[j]));
            let q = choose|q: int| 0 <= q < p && o[q] == ds[j];
            lemma_first_named_rep(ms, ms[m].name);
            assert(order[q] == ms[o[q]]);
            assert(order[q].name == ms[m].name);
        }
    }
}

/// A computed load order names each module once.
pub proof fn lemma_load_order_names_distinct(
    ms: Seq<ModuleView>,
    target: Seq<char>,
    r: Result<Vec<ModuleBrief>, ResolveError>,
)
    requires
        resolved_as(ms, target, r),
    ensures
        r matches Ok(v) ==> names_distinct(modules_view(v@)),
{
    if let Ok(v) = r {
        lemma_ok_order(ms, target, r);
        lemma_resolution_ok(ms, target);
        let o = resolution(ms, target)->Ok_0;
        let order = modules_view(v@);
        assert forall|i: int, j: int| 0 <= i < j < order.len() implies order[i].name
            != order[j].name by {
            assert(order[i] == ms[o[i]]);
            assert(order[j] == ms[o[j]]);
        }
    }
}

/// A computed load order ends with the authoritative record of the target.
pub proof fn lemma_load_order_ends_with_target(
    ms: Seq<ModuleView>,
    target: Seq<char>,
    r: Result<Vec<ModuleBrief>, ResolveError>,
)
    requires
        resolved_as(ms, target, r),
    ensures
        r matches Ok(v) ==> {
            &&& v@.len() > 0
            &&& first_named(ms, target) is Some
            &&& modules_view(v@).last() == ms[first_named(ms, target)->Some_0]
        },
{
    if let Ok(v) = r {
        lemma_ok_order(ms, target, r);
        lemma_resolution_ok(ms, target);
        let o = resolution(ms, target)->Ok_0;
        let order = modules_view(v@);
        assert(order.len() == o.len());
        assert(order[o.len() - 1] == ms[o[o.len() - 1]]);
    }
}

/// A module that exports a symbol referenced by some module of a computed
/// load order (other than itself) occurs in that order exactly once, however
/// many modules of the order need it.
pub proof fn lemma_shared_prerequisite_once(
    ms: Seq<ModuleView>,
    target: Seq<char>,
    r: Result<Vec<ModuleBrief>, ResolveError>,
    d: int,
)
    requires
        resolved_as(ms, target, r),
        0 <= d < ms.len(),
    ensures
        r matches Ok(v) ==> ((exists|p: int|
            0 <= p < v@.len() && provides_for(ms[d], #[trigger] v@[p]@) && ms[d].name
                != v@[p]@.name) ==> exists|q: int|
            0 <= q < v@.len() && v@[q]@.name == ms[d].name && forall|q2: int|
                0 <= q2 < v@.len() && #[trigger] v@[q2]@.name == ms[d].name ==> q2 == q),
{
    if let Ok(v) = r {
        lemma_load_order_respects_references(ms, target, r);
        lemma_load_order_names_distinct(ms, target, r);
        let order = modules_view(v@);
        if exists|p: int|
            0 <= p < v@.len() && provides_for(ms[d], #[trigger] v@[p]@) && ms[d].name
                != v@[p]@.name {
            let p = choose|p: int|
                0 <= p < v@.len() && provides_for(ms[d], #[trigger] v@[p]@) && ms[d].name
                    != v@[p]@.name;
            assert(order[p] == v@[p]@);
            assert(provides_for(ms[d], order[p]));
            let q = choose|q: int| 0 <= q < p && #[trigger] order[q].name == ms[d].name;
            assert(order[q] == v@[q]@);
            assert forall|q2: int|
                0 <= q2 < v@.len() && #[trigger] v@[q2]@.name == ms[d].name implies q2 == q by {
                assert(order[q2] == v@[q2]@);
                if q2 < q {
                    assert(order[q2].name != order[q].name);
                } else if q < q2 {
                    assert(order[q].name != order[q2].name);
                }
            }
        }
    }
}

/// Resolving the same target in the same working set twice gives the same
/// outcome.
pub proof fn lemma_resolution_deterministic(
    ms: Seq<ModuleView>,
    target: Seq<char>,
    r1: Result<Vec<ModuleBrief>, ResolveError>,
    r2: Result<Vec<ModuleBrief>, ResolveError>,
)
    requires
        resolved_as(ms, target, r1),
        resolved_as(ms, target, r2),
    ensures
        match (r1, r2) {
            (Ok(a), Ok(b)) => modules_view(a@) == modules_view(b@),
            (Err(ResolveError::NotFound(a)), Err(ResolveError::NotFound(b))) => a@ == b@,
            (Err(ResolveError::CycleDetected(a)), Err(ResolveError::CycleDetected(b))) => a@
                == b@,
            _ => false,
        },
{
}

/// Resolving a name that no module carries fails with `NotFound` for that
/// name, and only then.
pub proof fn lemma_missing_target(
    ms: Seq<ModuleView>,
    target: Seq<char>,
    r: Result<Vec<ModuleBrief>, ResolveError>,
)
    requires
        resolved_as(ms, target, r),
    ensures
        (forall|i: int| 0 <= i < ms.len() ==> ms[i].name != target) <==> (r matches Err(
            ResolveError::NotFound(n),
        ) && n@ == target),
{
    lemma_first_named_rep(ms, target);
}

/// When the target `a` references a symbol that `b` exports and `b`
/// references a symbol that `a` exports, both being the authoritative records
/// of their names, resolution reports a cycle.
pub proof fn lemma_mutual_references_cycle(
    ms: Seq<ModuleView>,
    target: Seq<char>,
    r: Result<Vec<ModuleBrief>, ResolveError>,
    a: int,
    b: int,
)
    requires
        resolved_as(ms, target, r),
        is_rep(ms, a),
        is_rep(ms, b),
        ms[a].name == target,
        ms[a].name != ms[b].name,
        provides_for(ms[b], ms[a]),
        provides_for(ms[a], ms[b]),
    ensures
        r matches Err(ResolveError::CycleDetected(_)),
{
    lemma_first_named_rep(ms, target);
    if let Ok(v) = r {
        lemma_ok_order(ms, target, r);
        lemma_resolution_ok(ms, target);
        lemma_load_order_respects_references(ms, target, r);
        let o = resolution(ms, target)->Ok_0;
        let order = modules_view(v@);
        let p = order.len() - 1;
        assert(order[p] == ms[o[p]]);
        assert(o[p] == a);
        assert(provides_for(ms[b], order[p]));
        let q = choose|q: int| 0 <= q < p && #[trigger] order[q].name == ms[b].name;
        assert(order[q] == ms[o[q]]);
        assert(is_rep(ms, o[q]));
        assert(o[q] == b);
        assert(provides_for(ms[a], order[q]));
        let q2 = choose|q2: int| 0 <= q2 < q && #[trigger] order[q2].name == ms[a].name;
        assert(order[q2] == ms[o[q2]]);
        assert(is_rep(ms, o[q2]));
        assert(o[q2] == a);
        assert(false);
    }
}

/// A cycle error names a module that lies on a loop of prerequisites.
pub proof fn lemma_cycle_names_loop_member(
    ms: Seq<ModuleView>,
    target: Seq<char>,
    r: Result<Vec<ModuleBrief>, ResolveError>,
)
    requires
        resolved_as(ms, target, r),
    ensures
        r matches Err(ResolveError::CycleDetected(n)) ==> exists|c: int|
            0 <= c < ms.len() && on_loop(ms, c) && ms[c].name == n@,
{
    lemma_resolution_err_on_loop(ms, target);
}

} // verus!
