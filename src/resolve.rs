use vstd::prelude::*;
use vstd::set::axiom_set_remove_len;
use vstd::set_lib::{lemma_int_range, lemma_len_subset, set_int_range};
use crate::module::{modules_view, strings_view, ModuleBrief, ModuleView};

verus! {

/// Why a load order could not be computed.
#[derive(Debug, Clone, PartialEq, Eq)]
pub enum ResolveError {
    /// No module in the working set carries the requested name.
    NotFound(String),
    /// The reference chain loops; the named module lies on the loop.
    CycleDetected(String),
}

/// `p` exports at least one symbol that `m` references.
pub open spec fn provides_for(p: ModuleView, m: ModuleView) -> bool {
    exists|j: int| 0 <= j < m.references.len() && p.provides.contains(#[trigger] m.references[j])
}

/// Index of the first module at or after `i` whose name is `name`.
pub open spec fn first_named_from(ms: Seq<ModuleView>, name: Seq<char>, i: int) -> Option<int>
    decreases ms.len() - i,
{
    if i < 0 || i >= ms.len() {
        None
    } else if ms[i].name == name {
        Some(i)
    } else {
        first_named_from(ms, name, i + 1)
    }
}

/// Index of the first module named `name`: the authoritative record for that name.
pub open spec fn first_named(ms: Seq<ModuleView>, name: Seq<char>) -> Option<int> {
    first_named_from(ms, name, 0)
}

/// The authoritative record for the name of module `m`.
pub open spec fn rep(ms: Seq<ModuleView>, m: int) -> int {
    match first_named(ms, ms[m].name) {
        Some(i) => i,
        None => m,
    }
}

/// `m` satisfies a reference of `v` and is not `v` under another record.
pub open spec fn is_dep(ms: Seq<ModuleView>, v: int, m: int) -> bool {
    provides_for(ms[m], ms[v]) && ms[m].name != ms[v].name
}

/// The direct prerequisites of `v` among modules `m..`, in working-set order.
pub open spec fn deps_from(ms: Seq<ModuleView>, v: int, m: int) -> Seq<int>
    decreases ms.len() - m,
{
    if m < 0 || m >= ms.len() {
        Seq::empty()
    } else if is_dep(ms, v, m) {
        seq![rep(ms, m)] + deps_from(ms, v, m + 1)
    } else {
        deps_from(ms, v, m + 1)
    }
}

/// The direct prerequisites of `v`, in working-set order, possibly repeated.
pub open spec fn deps(ms: Seq<ModuleView>, v: int) -> Seq<int> {
    deps_from(ms, v, 0)
}

/// The modules of a working set of `n` that are not on `path`.
pub open spec fn unvisited(n: int, path: Seq<int>) -> Set<int> {
    Set::new(|i: int| 0 <= i < n && !path.contains(i))
}

proof fn lemma_unvisited_shrinks(n: int, path: Seq<int>, c: int)
    requires
        0 <= c < n,
        !path.contains(c),
    ensures
        unvisited(n, path.push(c)).len() < unvisited(n, path).len(),
{
    lemma_int_range(0, n);
    lemma_len_subset(unvisited(n, path), set_int_range(0, n));
    assert(unvisited(n, path.push(c)) =~= unvisited(n, path).remove(c)) by {
        assert forall|i: int| path.push(c).contains(i) <==> (path.contains(i) || i == c) by {
            if path.push(c).contains(i) {
                let j = choose|j: int| 0 <= j < path.push(c).len() && path.push(c)[j] == i;
                if j < path.len() {
                    assert(path[j] == i);
                }
            }
            if path.contains(i) {
                let j = choose|j: int| 0 <= j < path.len() && path[j] == i;
                assert(path.push(c)[j] == i);
            }
            if i == c {
                assert(path.push(c)[path.len() as int] == i);
            }
        }
    }
    axiom_set_remove_len(unvisited(n, path), c);
}

#[via_fn]
proof fn visit_deps_decreases(ms: Seq<ModuleView>, path: Seq<int>, out: Seq<int>, v: int, k: int) {
    let ds = deps(ms, v);
    if 0 <= k < ds.len() {
        lemma_deps_from_reps(ms, v, 0);
        assert(is_rep(ms, ds[k]));
        if !path.contains(ds[k]) {
            lemma_unvisited_shrinks(ms.len() as int, path, ds[k]);
        }
    }
}

/// Depth-first visit of `v`, with `path` the modules being visited (ending
/// in `v`) and `out` the modules already emitted. The result is the extended
/// output, or the module at which a loop was found.
pub open spec fn visit(ms: Seq<ModuleView>, path: Seq<int>, out: Seq<int>, v: int) -> Result<
    Seq<int>,
    int,
>
    decreases unvisited(ms.len() as int, path).len(), 1int, 0int,
{
    match visit_deps(ms, path, out, v, 0) {
        Ok(o) => Ok(o.push(v)),
        Err(c) => Err(c),
    }
}

/// Visits the prerequisites of `v` from the `k`-th on.
pub open spec fn visit_deps(ms: Seq<ModuleView>, path: Seq<int>, out: Seq<int>, v: int, k: int) -> Result<
    Seq<int>,
    int,
>
    decreases unvisited(ms.len() as int, path).len(), 0int, deps(ms, v).len() - k,
    via visit_deps_decreases
{
    let ds = deps(ms, v);
    if k < 0 || k >= ds.len() {
        Ok(out)
    } else {
        let c = ds[k];
        if path.contains(c) {
            Err(c)
        } else if out.contains(c) {
            visit_deps(ms, path, out, v, k + 1)
        } else {
            match visit(ms, path.push(c), out, c) {
                Ok(o) => visit_deps(ms, path, o, v, k + 1),
                Err(e) => Err(e),
            }
        }
    }
}

/// The load order for `target` as indices into the working set; `Err(None)`
/// when no module has that name, `Err(Some(c))` when a loop through `c` is met.
pub open spec fn resolution(ms: Seq<ModuleView>, target: Seq<char>) -> Result<Seq<int>, Option<int>> {
    match first_named(ms, target) {
        None => Err(None),
        Some(t) => match visit(ms, seq![t], Seq::empty(), t) {
            Ok(o) => Ok(o),
            Err(c) => Err(Some(c)),
        },
    }
}

/// Indices as mathematical integers.
pub open spec fn ints(s: Seq<usize>) -> Seq<int> {
    s.map_values(|x: usize| x as int)
}

fn contains_string(v: &Vec<String>, s: &String) -> (r: bool)
    ensures
        r == strings_view(v@).contains(s@),
{
    let mut i: usize = 0;
    while i < v.len()
        invariant
            i <= v.len(),
            forall|j: int| 0 <= j < i ==> v@[j]@ != s@,
        decreases v.len() - i,
    {
        if v[i] == *s {
            assert(strings_view(v@)[i as int] == s@);
            return true;
        }
        i = i + 1;
    }
    proof {
        if strings_view(v@).contains(s@) {
            let j = choose|j: int| 0 <= j < strings_view(v@).len() && strings_view(v@)[j] == s@;
            assert(v@[j]@ == s@);
        }
    }
    false
}

fn provides_for_exec(p: &ModuleBrief, m: &ModuleBrief) -> (r: bool)
    ensures
        r == provides_for(p@, m@),
{
    let mut j: usize = 0;
    while j < m.references_symbols.len()
        invariant
            j <= m.references_symbols.len(),
            forall|k: int| 0 <= k < j ==> !p@.provides.contains(#[trigger] m@.references[k]),
        decreases m.references_symbols.len() - j,
    {
        if contains_string(&p.provides_symbols, &m.references_symbols[j]) {
            assert(m@.references[j as int] == m.references_symbols@[j as int]@);
            return true;
        }
        j = j + 1;
    }
    false
}

fn first_named_exec(ms: &Vec<ModuleBrief>, name: &String) -> (r: Option<usize>)
    ensures
        match first_named(modules_view(ms@), name@) {
            Some(i) => r == Some(i as usize) && 0 <= i < ms@.len(),
            None => r is None,
        },
{
    let ghost msv = modules_view(ms@);
    let mut i: usize = 0;
    while i < ms.len()
        invariant
            i <= ms.len(),
            msv == modules_view(ms@),
            first_named(msv, name@) == first_named_from(msv, name@, i as int),
        decreases ms.len() - i,
    {
        if ms[i].name == *name {
            return Some(i);
        }
        i = i + 1;
    }
    None
}

/// Every index in `s` lies below `n`.
pub open spec fn all_below(s: Seq<int>, n: int) -> bool {
    forall|i: int| 0 <= i < s.len() ==> 0 <= #[trigger] s[i] < n
}

proof fn lemma_first_named_from_bounds(ms: Seq<ModuleView>, name: Seq<char>, i: int)
    requires
        0 <= i,
    ensures
        match first_named_from(ms, name, i) {
            Some(j) => i <= j < ms.len() && ms[j].name == name,
            None => forall|j: int| i <= j < ms.len() ==> ms[j].name != name,
        },
    decreases ms.len() - i,
{
    if 0 <= i < ms.len() && ms[i].name != name {
        lemma_first_named_from_bounds(ms, name, i + 1);
    }
}

fn deps_exec(ms: &Vec<ModuleBrief>, v: usize) -> (r: Vec<usize>)
    requires
        v < ms@.len(),
    ensures
        ints(r@) == deps(modules_view(ms@), v as int),
        all_below(ints(r@), ms@.len() as int),
{
    let ghost msv = modules_view(ms@);
    let mut r: Vec<usize> = Vec::new();
    let mut m: usize = ms.len();
    while m > 0
        invariant
            m <= ms.len(),
            v < ms.len(),
            msv == modules_view(ms@),
            ints(r@) == deps_from(msv, v as int, m as int),
            all_below(ints(r@), ms@.len() as int),
        decreases m,
    {
        m = m - 1;
        if provides_for_exec(&ms[m], &ms[v]) && ms[m].name != ms[v].name {
            let f = first_named_exec(ms, &ms[m].name);
            proof {
                lemma_first_named_from_bounds(msv, msv[m as int].name, 0);
            }
            let x = match f {
                Some(i) => i,
                None => m,
            };
            let mut one: Vec<usize> = Vec::new();
            one.push(x);
            one.append(&mut r);
            r = one;
            assert(ints(r@) =~= seq![rep(msv, m as int)] + deps_from(msv, v as int, m + 1));
        } else {
            assert(!is_dep(msv, v as int, m as int));
        }
    }
    r
}

/// The emitted flags and the path flags describe `out` and `path`.
pub open spec fn marks_agree(n: int, path: Seq<int>, on_path: Seq<bool>, out: Seq<int>, emitted: Seq<bool>) -> bool {
    &&& on_path.len() == n
    &&& emitted.len() == n
    &&& all_below(path, n)
    &&& all_below(out, n)
    &&& forall|i: int| 0 <= i < n ==> on_path[i] == path.contains(i)
    &&& forall|i: int| 0 <= i < n ==> emitted[i] == out.contains(i)
}

fn visit_exec(
    ms: &Vec<ModuleBrief>,
    Ghost(path): Ghost<Seq<int>>,
    on_path: &mut Vec<bool>,
    out: &mut Vec<usize>,
    emitted: &mut Vec<bool>,
    v: usize,
) -> (r: Result<(), usize>)
    requires
        v < ms@.len(),
        marks_agree(ms@.len() as int, path, old(on_path)@, ints(old(out)@), old(emitted)@),
    ensures
        match visit(modules_view(ms@), path, ints(old(out)@), v as int) {
            Ok(o) => {
                &&& r is Ok
                &&& ints(final(out)@) == o
                &&& final(on_path)@ == old(on_path)@
                &&& marks_agree(ms@.len() as int, path, final(on_path)@, o, final(emitted)@)
            },
            Err(c) => r == Err::<(), usize>(c as usize) && 0 <= c < ms@.len(),
        },
    decreases unvisited(ms@.len() as int, path).len(),
{
    let ghost msv = modules_view(ms@);
    let ghost n = ms@.len() as int;
    let ghost out0 = ints(out@);
    let ghost on_path0 = on_path@;
    let ds = deps_exec(ms, v);
    let mut k: usize = 0;
    while k < ds.len()
        invariant
            k <= ds.len(),
            v < ms@.len(),
            msv == modules_view(ms@),
            n == ms@.len(),
            ints(ds@) == deps(msv, v as int),
            all_below(ints(ds@), n),
            on_path@ == on_path0,
            on_path0 == old(on_path)@,
            out0 == ints(old(out)@),
            marks_agree(n, path, on_path@, ints(out@), emitted@),
            visit_deps(msv, path, ints(out@), v as int, k as int) == visit_deps(
                msv,
                path,
                out0,
                v as int,
                0,
            ),
        decreases ds.len() - k,
    {
        let c = ds[k];
        assert(ints(ds@)[k as int] == c as int);
        if on_path[c] {
            assert(visit_deps(msv, path, ints(out@), v as int, k as int) == Err::<Seq<int>, int>(
                c as int,
            ));
            return Err(c);
        }
        if emitted[c] {
            k = k + 1;
            continue;
        }
        let ghost path2 = path.push(c as int);
        on_path.set(c, true);
        proof {
            assert forall|i: int| 0 <= i < n implies on_path@[i] == path2.contains(i) by {
                if i != c {
                    if path.contains(i) {
                        let j = choose|j: int| 0 <= j < path.len() && path[j] == i;
                        assert(path2[j] == i);
                    }
                    if path2.contains(i) {
                        let j = choose|j: int| 0 <= j < path2.len() && path2[j] == i;
                        assert(path[j] == i);
                    }
                } else {
                    assert(path2[path.len() as int] == i);
                }
            }
        }
        proof {
            lemma_unvisited_shrinks(n, path, c as int);
        }
        let res = visit_exec(ms, Ghost(path2), on_path, out, emitted, c);
        match res {
            Err(e) => {
                return Err(e);
            },
            Ok(()) => {},
        }
        on_path.set(c, false);
        assert(on_path@ =~= on_path0);
        k = k + 1;
    }
    let ghost before = ints(out@);
    out.push(v);
    emitted.set(v, true);
    proof {
        assert(ints(out@) =~= before.push(v as int));
        assert forall|i: int| 0 <= i < n implies emitted@[i] == ints(out@).contains(i) by {
            if i != v {
                if ints(out@).contains(i) {
                    let j = choose|j: int| 0 <= j < ints(out@).len() && ints(out@)[j] == i;
                    assert(before[j] == i);
                }
                if before.contains(i) {
                    let j = choose|j: int| 0 <= j < before.len() && before[j] == i;
                    assert(ints(out@)[j] == i);
                }
            } else {
                assert(ints(out@)[before.len() as int] == i);
            }
        }
    }
    Ok(())
}

/// `r` is what resolving `target` in `ms` must give: the modules of
/// [`resolution`] in its order, or the matching error.
pub open spec fn resolved_as(
    ms: Seq<ModuleView>,
    target: Seq<char>,
    r: Result<Vec<ModuleBrief>, ResolveError>,
) -> bool {
    match (r, resolution(ms, target)) {
        (Ok(v), Ok(o)) => modules_view(v@) == o.map_values(|i: int| ms[i]),
        (Err(ResolveError::NotFound(n)), Err(None)) => n@ == target,
        (Err(ResolveError::CycleDetected(n)), Err(Some(c))) => 0 <= c < ms.len() && n@
            == ms[c].name,
        _ => false,
    }
}

/// Computes the load order for the module named `for_module_name`: every
/// module it needs, transitively, each before the modules that need it, each
/// name once, ending with the target itself.
pub fn resolve_dependency_tree(all_modules: Vec<ModuleBrief>, for_module_name: String) -> (r: Result<
    Vec<ModuleBrief>,
    ResolveError,
>)
    ensures
        resolved_as(modules_view(all_modules@), for_module_name@, r),
{
    let ghost msv = modules_view(all_modules@);
    let t = match first_named_exec(&all_modules, &for_module_name) {
        Some(t) => t,
        None => {
            return Err(ResolveError::NotFound(for_module_name));
        },
    };
    let n = all_modules.len();
    let mut on_path: Vec<bool> = Vec::new();
    let mut emitted: Vec<bool> = Vec::new();
    let mut i: usize = 0;
    while i < n
        invariant
            i <= n,
            t < n,
            n == all_modules@.len(),
            on_path@.len() == i,
            emitted@.len() == i,
            forall|j: int| 0 <= j < i ==> on_path@[j] == (j == t as int),
            forall|j: int| 0 <= j < i ==> !emitted@[j],
        decreases n - i,
    {
        on_path.push(i == t);
        emitted.push(false);
        i = i + 1;
    }
    let mut out: Vec<usize> = Vec::new();
    let ghost path = seq![t as int];
    proof {
        assert forall|j: int| 0 <= j < n implies on_path@[j] == path.contains(j) by {
            if j == t {
                assert(path[0] == j);
            }
        }
        assert(ints(out@) =~= Seq::<int>::empty());
    }
    let res = visit_exec(&all_modules, Ghost(path), &mut on_path, &mut out, &mut emitted, t);
    match res {
        Err(c) => Err(ResolveError::CycleDetected(all_modules[c].name.clone())),
        Ok(()) => {
            let mut v: Vec<ModuleBrief> = Vec::new();
            let mut k: usize = 0;
            while k < out.len()
                invariant
                    k <= out.len(),
                    msv == modules_view(all_modules@),
                    all_below(ints(out@), n as int),
                    n == all_modules@.len(),
                    v@.len() == k,
                    forall|j: int| 0 <= j < k ==> v@[j]@ == msv[ints(out@)[j]],
                decreases out.len() - k,
            {
                assert(ints(out@)[k as int] == out@[k as int] as int);
                v.push(all_modules[out[k]].duplicate());
                k = k + 1;
            }
            assert(modules_view(v@) =~= ints(out@).map_values(|i: int| msv[i]));
            Ok(v)
        },
    }
}

/// `i` is the authoritative (first) record for its name.
pub open spec fn is_rep(ms: Seq<ModuleView>, i: int) -> bool {
    0 <= i < ms.len() && first_named(ms, ms[i].name) == Some(i)
}

/// No index occurs twice in `o`.
pub open spec fn distinct(o: Seq<int>) -> bool {
    forall|i: int, j: int| 0 <= i < j < o.len() ==> o[i] != o[j]
}

/// `x` stands in `o` before position `p`.
pub open spec fn appears_before(o: Seq<int>, p: int, x: int) -> bool {
    exists|q: int| 0 <= q < p && o[q] == x
}

/// Every prerequisite of every entry of `o` appears earlier in `o`.
pub open spec fn closed_before(ms: Seq<ModuleView>, o: Seq<int>) -> bool {
    forall|p: int, j: int|
        0 <= p < o.len() && 0 <= j < deps(ms, o[p]).len() ==> appears_before(
            o,
            p,
            #[trigger] deps(ms, o[p])[j],
        )
}

/// Every entry of `o` is the authoritative record of its name.
pub open spec fn all_reps(ms: Seq<ModuleView>, o: Seq<int>) -> bool {
    forall|i: int| 0 <= i < o.len() ==> is_rep(ms, #[trigger] o[i])
}

/// No entry of `o` is on `path`.
pub open spec fn disjoint(o: Seq<int>, path: Seq<int>) -> bool {
    forall|x: int| o.contains(x) ==> !path.contains(x)
}

/// The first record of a name is authoritative for it; when there is none,
/// no record carries the name.
pub proof fn lemma_first_named_rep(ms: Seq<ModuleView>, name: Seq<char>)
    ensures
        match first_named(ms, name) {
            Some(i) => is_rep(ms, i) && ms[i].name == name,
            None => forall|j: int| 0 <= j < ms.len() ==> ms[j].name != name,
        },
{
    lemma_first_named_from_bounds(ms, name, 0);
}

proof fn lemma_deps_from_reps(ms: Seq<ModuleView>, v: int, m: int)
    requires
        0 <= m,
    ensures
        forall|i: int| 0 <= i < deps_from(ms, v, m).len() ==> is_rep(ms, #[trigger] deps_from(ms, v, m)[i]),
    decreases ms.len() - m,
{
    if m < ms.len() {
        lemma_deps_from_reps(ms, v, m + 1);
        if !is_dep(ms, v, m) {
            assert(deps_from(ms, v, m) == deps_from(ms, v, m + 1));
        } else {
            lemma_first_named_rep(ms, ms[m].name);
            match first_named(ms, ms[m].name) {
                Some(i) => {
                    assert(rep(ms, m) == i);
                },
                None => {
                    assert(ms[m].name != ms[m].name);
                },
            }
            let d = deps_from(ms, v, m);
            let rest = deps_from(ms, v, m + 1);
            assert forall|i: int| 0 <= i < d.len() implies is_rep(ms, #[trigger] d[i]) by {
                if i > 0 {
                    assert(d[i] == rest[i - 1]);
                } else {
                    assert(d[0] == rep(ms, m));
                }
            }
        }
    }
}

/// A module satisfying a reference of `v` is listed, by its authoritative
/// record, among the prerequisites of `v`.
pub proof fn lemma_deps_complete(ms: Seq<ModuleView>, v: int, m: int, k: int)
    requires
        0 <= m <= k < ms.len(),
        is_dep(ms, v, k),
    ensures
        deps_from(ms, v, m).contains(rep(ms, k)),
    decreases k - m,
{
    if m == k {
        assert(deps_from(ms, v, m)[0] == rep(ms, k));
    } else {
        lemma_deps_complete(ms, v, m + 1, k);
        let rest = deps_from(ms, v, m + 1);
        let j = choose|j: int| 0 <= j < rest.len() && rest[j] == rep(ms, k);
        if is_dep(ms, v, m) {
            assert(deps_from(ms, v, m)[j + 1] == rep(ms, k));
        }
    }
}

proof fn lemma_visit_ok(ms: Seq<ModuleView>, path: Seq<int>, out: Seq<int>, v: int)
    requires
        path.len() > 0,
        path.last() == v,
        is_rep(ms, v),
        !out.contains(v),
        distinct(out),
        closed_before(ms, out),
        all_reps(ms, out),
        disjoint(out, path),
    ensures
        visit(ms, path, out, v) matches Ok(o) ==> {
            &&& distinct(o)
            &&& closed_before(ms, o)
            &&& all_reps(ms, o)
            &&& o.len() > 0
            &&& o.last() == v
            &&& forall|x: int| o.contains(x) && path.contains(x) ==> x == v
            &&& forall|x: int| out.contains(x) ==> o.contains(x)
        },
    decreases unvisited(ms.len() as int, path).len(), 1int, 0int,
{
    lemma_visit_deps_ok(ms, path, out, v, 0);
    if let Ok(o) = visit_deps(ms, path, out, v, 0) {
        let o2 = o.push(v);
        assert(path.contains(v)) by {
            assert(path[path.len() - 1] == v);
        }
        assert(!o.contains(v));
        assert forall|i: int, j: int| 0 <= i < j < o2.len() implies o2[i] != o2[j] by {
            if j == o.len() {
                assert(o.contains(o[i]));
            }
        }
        let ds = deps(ms, v);
        assert forall|i: int| 0 <= i < o2.len() implies is_rep(ms, #[trigger] o2[i]) by {
            if i < o.len() {
                assert(o2[i] == o[i]);
            }
        }
        assert(distinct(o2));
        assert(closed_before(ms, o2)) by {
            assert forall|p: int, j: int|
                #![trigger deps(ms, o2[p])[j]]
                0 <= p < o2.len() && 0 <= j < deps(ms, o2[p]).len() implies appears_before(
                o2,
                p,
                deps(ms, o2[p])[j],
            ) by {
                if p < o.len() {
                    assert(o2[p] == o[p]);
                    assert(appears_before(o, p, deps(ms, o[p])[j]));
                    let q = choose|q: int| 0 <= q < p && o[q] == deps(ms, o[p])[j];
                    assert(o2[q] == o[q]);
                } else {
                    assert(o2[p] == v);
                    assert(o.contains(ds[j]));
                    let q = choose|q: int| 0 <= q < o.len() && o[q] == ds[j];
                    assert(o2[q] == o[q]);
                }
            }
        }
        assert forall|x: int| o2.contains(x) && path.contains(x) implies x == v by {
            let j = choose|j: int| 0 <= j < o2.len() && o2[j] == x;
            if j < o.len() {
                assert(o.contains(x));
            }
        }
        assert forall|x: int| out.contains(x) implies o2.contains(x) by {
            let j = choose|j: int| 0 <= j < o.len() && o[j] == x;
            assert(o2[j] == x);
        }
    }
}

proof fn lemma_visit_deps_ok(ms: Seq<ModuleView>, path: Seq<int>, out: Seq<int>, v: int, k: int)
    requires
        path.len() > 0,
        path.last() == v,
        is_rep(ms, v),
        !out.contains(v),
        distinct(out),
        closed_before(ms, out),
        all_reps(ms, out),
        disjoint(out, path),
        0 <= k,
        forall|j: int| 0 <= j < k && j < deps(ms, v).len() ==> out.contains(#[trigger] deps(ms, v)[j]),
    ensures
        visit_deps(ms, path, out, v, k) matches Ok(o) ==> {
            &&& distinct(o)
            &&& closed_before(ms, o)
            &&& all_reps(ms, o)
            &&& disjoint(o, path)
            &&& !o.contains(v)
            &&& forall|x: int| out.contains(x) ==> o.contains(x)
            &&& forall|j: int| 0 <= j < deps(ms, v).len() ==> o.contains(#[trigger] deps(ms, v)[j])
        },
    decreases unvisited(ms.len() as int, path).len(), 0int, deps(ms, v).len() - k,
{
    let ds = deps(ms, v);
    if k < ds.len() {
        let c = ds[k];
        if path.contains(c) {
        } else if out.contains(c) {
            lemma_visit_deps_ok(ms, path, out, v, k + 1);
        } else {
            let path2 = path.push(c);
            lemma_deps_from_reps(ms, v, 0);
            assert(is_rep(ms, ds[k]));
            assert(disjoint(out, path2)) by {
                assert forall|x: int| out.contains(x) implies !path2.contains(x) by {
                    if path2.contains(x) {
                        let j = choose|j: int| 0 <= j < path2.len() && path2[j] == x;
                        if j < path.len() {
                            assert(path.contains(x));
                        }
                    }
                }
            }
            lemma_unvisited_shrinks(ms.len() as int, path, c);
            lemma_visit_ok(ms, path2, out, c);
            if let Ok(o1) = visit(ms, path2, out, c) {
                assert(o1.contains(c)) by {
                    assert(o1[o1.len() - 1] == c);
                }
                assert(disjoint(o1, path)) by {
                    assert forall|x: int| o1.contains(x) implies !path.contains(x) by {
                        if path.contains(x) {
                            let j = choose|j: int| 0 <= j < path.len() && path[j] == x;
                            assert(path2[j] == x);
                        }
                    }
                }
                assert(path.contains(v)) by {
                    assert(path[path.len() - 1] == v);
                }
                lemma_visit_deps_ok(ms, path, o1, v, k + 1);
            }
        }
    }
}

/// What an `Ok` of [`resolution`] holds: a duplicate-free list of
/// authoritative records, each after its prerequisites, ending in the target.
pub proof fn lemma_resolution_ok(ms: Seq<ModuleView>, target: Seq<char>)
    ensures
        resolution(ms, target) matches Ok(o) ==> {
            &&& distinct(o)
            &&& closed_before(ms, o)
            &&& all_reps(ms, o)
            &&& o.len() > 0
            &&& ms[o.last()].name == target
            &&& first_named(ms, target) == Some(o.last())
        },
{
    lemma_first_named_rep(ms, target);
    if let Some(t) = first_named(ms, target) {
        let path = seq![t];
        let out = Seq::<int>::empty();
        assert(path.last() == t);
        assert(disjoint(out, path));
        lemma_visit_ok(ms, path, out, t);
    }
}

/// Each entry of `w` after the first is a prerequisite of the one before.
pub open spec fn is_chain(ms: Seq<ModuleView>, w: Seq<int>) -> bool {
    forall|i: int| 0 <= i < w.len() - 1 ==> deps(ms, w[i]).contains(#[trigger] w[i + 1])
}

/// Module `c` needs itself through a chain of prerequisites.
pub open spec fn on_loop(ms: Seq<ModuleView>, c: int) -> bool {
    exists|w: Seq<int>| w.len() >= 2 && w[0] == c && w.last() == c && #[trigger] is_chain(ms, w)
}

proof fn lemma_visit_err(ms: Seq<ModuleView>, path: Seq<int>, out: Seq<int>, v: int)
    requires
        path.len() > 0,
        path.last() == v,
        is_chain(ms, path),
    ensures
        visit(ms, path, out, v) matches Err(c) ==> on_loop(ms, c),
    decreases unvisited(ms.len() as int, path).len(), 1int, 0int,
{
    lemma_visit_deps_err(ms, path, out, v, 0);
}

proof fn lemma_visit_deps_err(ms: Seq<ModuleView>, path: Seq<int>, out: Seq<int>, v: int, k: int)
    requires
        path.len() > 0,
        path.last() == v,
        is_chain(ms, path),
        0 <= k,
    ensures
        visit_deps(ms, path, out, v, k) matches Err(c) ==> on_loop(ms, c),
    decreases unvisited(ms.len() as int, path).len(), 0int, deps(ms, v).len() - k,
{
    let ds = deps(ms, v);
    if k < ds.len() {
        let c = ds[k];
        assert(ds.contains(c));
        if path.contains(c) {
            let j = choose|j: int| 0 <= j < path.len() && path[j] == c;
            let w = path.subrange(j, path.len() as int).push(c);
            assert forall|i: int| 0 <= i < w.len() - 1 implies deps(ms, w[i]).contains(
                #[trigger] w[i + 1],
            ) by {
                if i < w.len() - 2 {
                    assert(w[i] == path[j + i]);
                    assert(w[i + 1] == path[j + i + 1]);
                } else {
                    assert(w[i] == path[path.len() - 1]);
                }
            }
            assert(w[0] == c);
            assert(w.last() == c);
            assert(is_chain(ms, w));
        } else if out.contains(c) {
            lemma_visit_deps_err(ms, path, out, v, k + 1);
        } else {
            let path2 = path.push(c);
            assert forall|i: int| 0 <= i < path2.len() - 1 implies deps(ms, path2[i]).contains(
                #[trigger] path2[i + 1],
            ) by {
                if i < path.len() - 1 {
                    assert(path2[i] == path[i]);
                    assert(path2[i + 1] == path[i + 1]);
                } else {
                    assert(path2[i] == v);
                }
            }
            lemma_deps_from_reps(ms, v, 0);
            assert(is_rep(ms, ds[k]));
            lemma_unvisited_shrinks(ms.len() as int, path, c);
            lemma_visit_err(ms, path2, out, c);
            if let Ok(o1) = visit(ms, path2, out, c) {
                lemma_visit_deps_err(ms, path, o1, v, k + 1);
            }
        }
    }
}

/// A reported loop names a module that needs itself through a chain of
/// prerequisites.
pub proof fn lemma_resolution_err_on_loop(ms: Seq<ModuleView>, target: Seq<char>)
    ensures
        resolution(ms, target) matches Err(Some(c)) ==> on_loop(ms, c),
{
    if let Some(t) = first_named(ms, target) {
        let path = seq![t];
        assert(path.last() == t);
        lemma_visit_err(ms, path, Seq::empty(), t);
    }
}

} // verus!
