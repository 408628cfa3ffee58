use vstd::prelude::*;
use crate::loader::LoadError;
use crate::module::{modules_view, strings_view, ModuleBrief, ModuleView};
use crate::resolve::{resolution, resolve_dependency_tree, resolved_as, ResolveError};

verus! {

/// The name under which the kernel image stands in a working set. It can
/// satisfy references but is never itself a module to load.
pub const KERNEL_MODULE_NAME: &'static str = "vmlinux";

/// The records of the candidates that loaded, in order.
pub open spec fn loaded_views(loaded: Seq<Result<ModuleBrief, LoadError>>) -> Seq<ModuleView>
    decreases loaded.len(),
{
    if loaded.len() == 0 {
        Seq::empty()
    } else {
        let init = loaded_views(loaded.drop_last());
        match loaded.last() {
            Ok(m) => init.push(m@),
            Err(_) => init,
        }
    }
}

/// The working set: every candidate that loaded, then the kernel image.
pub open spec fn working_set(kernel: ModuleView, loaded: Seq<Result<ModuleBrief, LoadError>>) -> Seq<
    ModuleView,
> {
    loaded_views(loaded).push(kernel)
}

/// Assembles the working set from the kernel image's record and the outcome
/// of loading each candidate file; candidates that failed to load are left
/// out.
pub fn assemble_working_set(kernel: ModuleBrief, loaded: &Vec<Result<ModuleBrief, LoadError>>) -> (r:
    Vec<ModuleBrief>)
    ensures
        modules_view(r@) == working_set(kernel@, loaded@),
{
    let mut r: Vec<ModuleBrief> = Vec::new();
    let mut i: usize = 0;
    while i < loaded.len()
        invariant
            i <= loaded@.len(),
            modules_view(r@) == loaded_views(loaded@.subrange(0, i as int)),
        decreases loaded@.len() - i,
    {
        assert(loaded@.subrange(0, i + 1).drop_last() =~= loaded@.subrange(0, i as int));
        let ghost before = modules_view(r@);
        match &loaded[i] {
            Ok(m) => {
                r.push(m.duplicate());
                assert(modules_view(r@) =~= before.push(m@));
            },
            Err(_) => {},
        }
        i = i + 1;
    }
    assert(loaded@.subrange(0, loaded@.len() as int) =~= loaded@);
    let ghost before = modules_view(r@);
    r.push(kernel);
    assert(modules_view(r@) =~= before.push(kernel@));
    r
}

/// The file paths of `order`, the kernel image left out.
pub open spec fn module_paths(order: Seq<ModuleView>) -> Seq<Seq<char>>
    decreases order.len(),
{
    if order.len() == 0 {
        Seq::empty()
    } else {
        let init = module_paths(order.drop_last());
        if order.last().name == KERNEL_MODULE_NAME@ {
            init
        } else {
            init.push(order.last().path)
        }
    }
}

/// The paths of the modules of `order`, the kernel image left out.
pub fn paths_to_load(order: &Vec<ModuleBrief>) -> (r: Vec<String>)
    ensures
        strings_view(r@) == module_paths(modules_view(order@)),
{
    let ghost ov = modules_view(order@);
    let kernel_name = KERNEL_MODULE_NAME.to_owned();
    let mut r: Vec<String> = Vec::new();
    let mut i: usize = 0;
    while i < order.len()
        invariant
            i <= order@.len(),
            ov == modules_view(order@),
            kernel_name@ == KERNEL_MODULE_NAME@,
            strings_view(r@) == module_paths(ov.subrange(0, i as int)),
        decreases order@.len() - i,
    {
        assert(ov.subrange(0, i + 1).drop_last() =~= ov.subrange(0, i as int));
        assert(ov[i as int] == order@[i as int]@);
        if order[i].name != kernel_name {
            let ghost before = strings_view(r@);
            r.push(order[i].path.clone());
            assert(strings_view(r@) =~= before.push(ov[i as int].path));
        }
        i = i + 1;
    }
    assert(ov.subrange(0, order@.len() as int) =~= ov);
    r
}

/// `r` is what planning the load of `target` over the working set `ms` must
/// give: the paths of the resolved order without the kernel image, or the
/// resolution's error.
pub open spec fn planned_as(ms: Seq<ModuleView>, target: Seq<char>, r: Result<Vec<String>, ResolveError>) -> bool {
    match (r, resolution(ms, target)) {
        (Ok(v), Ok(o)) => strings_view(v@) == module_paths(o.map_values(|i: int| ms[i])),
        (Err(ResolveError::NotFound(n)), Err(None)) => n@ == target,
        (Err(ResolveError::CycleDetected(n)), Err(Some(c))) => 0 <= c < ms.len() && n@
            == ms[c].name,
        _ => false,
    }
}

/// Plans the load of the module named `target`: assembles the working set
/// from the kernel image and the candidates that loaded, resolves the
/// target's load order, and gives the file paths to load in that order.
pub fn plan_load_paths(
    kernel: ModuleBrief,
    loaded: &Vec<Result<ModuleBrief, LoadError>>,
    target: String,
) -> (r: Result<Vec<String>, ResolveError>)
    ensures
        planned_as(working_set(kernel@, loaded@), target@, r),
{
    let ghost ms = working_set(kernel@, loaded@);
    let modules = assemble_working_set(kernel, loaded);
    match resolve_dependency_tree(modules, target) {
        Ok(order) => Ok(paths_to_load(&order)),
        Err(e) => Err(e),
    }
}

/// A candidate that failed to load leaves the working set, and so every plan
/// made over it, exactly as if the candidate had not been found.
pub proof fn lemma_failed_candidate_ignored(
    kernel: ModuleView,
    loaded: Seq<Result<ModuleBrief, LoadError>>,
    k: int,
)
    requires
        0 <= k < loaded.len(),
        loaded[k] is Err,
    ensures
        working_set(kernel, loaded) == working_set(kernel, loaded.remove(k)),
{
    lemma_failed_candidate_views(loaded, k);
}

proof fn lemma_failed_candidate_views(loaded: Seq<Result<ModuleBrief, LoadError>>, k: int)
    requires
        0 <= k < loaded.len(),
        loaded[k] is Err,
    ensures
        loaded_views(loaded) == loaded_views(loaded.remove(k)),
    decreases loaded.len(),
{
    if k == loaded.len() - 1 {
        assert(loaded.remove(k) =~= loaded.drop_last());
    } else {
        lemma_failed_candidate_views(loaded.drop_last(), k);
        assert(loaded.remove(k).drop_last() =~= loaded.drop_last().remove(k));
        assert(loaded.remove(k).last() == loaded.last());
    }
}

} // verus!
