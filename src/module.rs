use vstd::prelude::*;

verus! {

/// A kernel module (or the kernel image itself) summarised by the symbols it
/// exports and the symbols it still needs.
#[derive(Debug, Clone)]
pub struct ModuleBrief {
    pub name: String,
    pub path: String,
    pub provides_symbols: Vec<String>,
    pub references_symbols: Vec<String>,
}

/// The mathematical content of a [`ModuleBrief`].
pub struct ModuleView {
    pub name: Seq<char>,
    pub path: Seq<char>,
    pub provides: Seq<Seq<char>>,
    pub references: Seq<Seq<char>>,
}

/// The views of a list of strings.
pub open spec fn strings_view(v: Seq<String>) -> Seq<Seq<char>> {
    v.map_values(|s: String| s@)
}

impl View for ModuleBrief {
    type V = ModuleView;

    open spec fn view(&self) -> ModuleView {
        ModuleView {
            name: self.name@,
            path: self.path@,
            provides: strings_view(self.provides_symbols@),
            references: strings_view(self.references_symbols@),
        }
    }
}

/// The working set as a sequence of module views.
pub open spec fn modules_view(ms: Seq<ModuleBrief>) -> Seq<ModuleView> {
    ms.map_values(|m: ModuleBrief| m@)
}

/// Copies a list of strings element by element.
pub fn copy_strings(v: &Vec<String>) -> (r: Vec<String>)
    ensures
        strings_view(r@) == strings_view(v@),
{
    let mut r: Vec<String> = Vec::new();
    let mut i: usize = 0;
    while i < v.len()
        invariant
            i <= v.len(),
            r@.len() == i,
            forall|j: int| 0 <= j < i ==> r@[j]@ == v@[j]@,
        decreases v.len() - i,
    {
        r.push(v[i].clone());
        i = i + 1;
    }
    assert(strings_view(r@) =~= strings_view(v@));
    r
}

impl ModuleBrief {
    /// A copy of this record with the same name, path and symbol lists.
    pub fn duplicate(&self) -> (r: ModuleBrief)
        ensures
            r@ == self@,
    {
        ModuleBrief {
            name: self.name.clone(),
            path: self.path.clone(),
            provides_symbols: copy_strings(&self.provides_symbols),
            references_symbols: copy_strings(&self.references_symbols),
        }
    }
}

} // verus!
