use vstd::prelude::*;

verus! {

/// One package of the workspace.
pub struct Package {
    /// Unique name of the package.
    pub name: String,
    /// False where the manifest opts out of publication.
    pub publishable: bool,
    /// Location of the manifest, for diagnostics.
    pub manifest: String,
    /// Names of the workspace packages it depends on that are to be published.
    pub deps: Vec<String>,
}

/// What a package is, as plain values.
pub struct PackageModel {
    pub name: Seq<char>,
    pub publishable: bool,
    pub manifest: Seq<char>,
    pub deps: Seq<Seq<char>>,
}

/// The views of a list of names.
pub open spec fn name_models(v: Seq<String>) -> Seq<Seq<char>> {
    Seq::new(v.len(), |k: int| v[k]@)
}

impl View for Package {
    type V = PackageModel;

    open spec fn view(&self) -> PackageModel {
        PackageModel {
            name: self.name@,
            publishable: self.publishable,
            manifest: self.manifest@,
            deps: name_models(self.deps@),
        }
    }
}

/// All packages under one root. The order of `packages` is the order in
/// which they are scanned.
pub struct Workspace {
    pub packages: Vec<Package>,
}

impl View for Workspace {
    type V = Seq<PackageModel>;

    open spec fn view(&self) -> Seq<PackageModel> {
        Seq::new(self.packages@.len(), |i: int| self.packages@[i]@)
    }
}

/// No two packages share a name.
pub open spec fn names_unique(g: Seq<PackageModel>) -> bool {
    forall|i: int, j: int| 0 <= i < j < g.len() ==> (#[trigger] g[i]).name != (#[trigger] g[j]).name
}

/// Some package of `g` is called `name`.
pub open spec fn has_package(g: Seq<PackageModel>, name: Seq<char>) -> bool {
    exists|i: int| 0 <= i < g.len() && (#[trigger] g[i]).name == name
}

/// The position of the package called `name`, where there is one.
pub open spec fn package_index(g: Seq<PackageModel>, name: Seq<char>) -> int {
    choose|i: int| 0 <= i < g.len() && (#[trigger] g[i]).name == name
}

/// The dependencies of the package called `name`.
pub open spec fn deps_of(g: Seq<PackageModel>, name: Seq<char>) -> Seq<Seq<char>> {
    g[package_index(g, name)].deps
}

/// `name` occurs in `names`.
pub open spec fn listed(names: Seq<Seq<char>>, name: Seq<char>) -> bool {
    exists|k: int| 0 <= k < names.len() && #[trigger] names[k] == name
}

/// With unique names, a package is found at its own position.
pub proof fn lemma_package_index(g: Seq<PackageModel>, i: int)
    requires
        names_unique(g),
        0 <= i < g.len(),
    ensures
        has_package(g, g[i].name),
        package_index(g, g[i].name) == i,
        deps_of(g, g[i].name) == g[i].deps,
{
    let j = package_index(g, g[i].name);
    assert(0 <= j < g.len() && g[j].name == g[i].name);
}

/// No name occurs twice in `names`.
pub open spec fn distinct(names: Seq<Seq<char>>) -> bool {
    forall|i: int, j: int| 0 <= i < j < names.len() ==> #[trigger] names[i] != #[trigger] names[j]
}

/// A list of distinct package names is no longer than the workspace.
pub proof fn lemma_distinct_names_bounded(g: Seq<PackageModel>, names: Seq<Seq<char>>)
    requires
        distinct(names),
        forall|k: int| 0 <= k < names.len() ==> has_package(g, #[trigger] names[k]),
    ensures
        names.len() <= g.len(),
{
    let idx = Seq::new(names.len(), |k: int| package_index(g, names[k]));
    assert forall|k: int| 0 <= k < names.len() implies 0 <= #[trigger] idx[k] < g.len()
        && g[idx[k]].name == names[k] by {
        assert(has_package(g, names[k]));
    }
    assert forall|i: int, j: int| 0 <= i < idx.len() && 0 <= j < idx.len() && i != j implies idx[i]
        != idx[j] by {
        if i < j {
            assert(names[i] != names[j]);
        } else {
            assert(names[j] != names[i]);
        }
    }
    idx.unique_seq_to_set();
    vstd::set_lib::lemma_int_range(0, g.len() as int);
    assert forall|x: int| idx.to_set().contains(x) implies vstd::set_lib::set_int_range(
        0,
        g.len() as int,
    ).contains(x) by {
        let k = choose|k: int| 0 <= k < idx.len() && idx[k] == x;
        assert(0 <= idx[k] < g.len());
    }
    vstd::set_lib::lemma_len_subset(idx.to_set(), vstd::set_lib::set_int_range(0, g.len() as int));
}

impl Workspace {
    /// The invariant of a workspace: names are unique.
    pub open spec fn wf(&self) -> bool {
        names_unique(self@)
    }

    /// Builds a workspace, or refuses a list in which a name occurs twice.
    pub fn new(packages: Vec<Package>) -> (res: Option<Workspace>)
        ensures
            res is Some <==> names_unique(Seq::new(packages@.len(), |i: int| packages@[i]@)),
            res is Some ==> res->0.packages == packages && res->0.wf(),
    {
        let ghost g = Seq::new(packages@.len(), |i: int| packages@[i]@);
        let n = packages.len();
        let mut j: usize = 0;
        while j < n
            invariant
                n == packages.len(),
                j <= n,
                g == Seq::new(packages@.len(), |i: int| packages@[i]@),
                forall|a: int, b: int| 0 <= a < b < j ==> (#[trigger] g[a]).name != (#[trigger] g[b]).name,
            decreases n - j,
        {
            let mut i: usize = 0;
            while i < j
                invariant
                    n == packages.len(),
                    i <= j < n,
                    g == Seq::new(packages@.len(), |i: int| packages@[i]@),
                    forall|a: int| 0 <= a < i ==> (#[trigger] g[a]).name != g[j as int].name,
                decreases j - i,
            {
                if packages[i].name == packages[j].name {
                    assert(g[i as int].name == g[j as int].name);
                    return None;
                }
                i += 1;
            }
            j += 1;
        }
        Some(Workspace { packages })
    }

    /// The first position of a package called `name`.
    pub fn find(&self, name: &String) -> (res: Option<usize>)
        ensures
            res is Some <==> has_package(self@, name@),
            res is Some ==> res->0 < self@.len() && self@[res->0 as int].name == name@,
            res is Some && self.wf() ==> res->0 == package_index(self@, name@),
            res is Some ==> forall|a: int| 0 <= a < res->0 ==> (#[trigger] self@[a]).name != name@,
    {
        let n = self.packages.len();
        let mut i: usize = 0;
        while i < n
            invariant
                n == self.packages.len(),
                i <= n,
                forall|a: int| 0 <= a < i ==> (#[trigger] self@[a]).name != name@,
            decreases n - i,
        {
            if self.packages[i].name == *name {
                assert(self@[i as int].name == name@);
                return Some(i);
            }
            i += 1;
        }
        None
    }
}

/// Whether `name` is one of `names`.
pub fn contains_name(names: &Vec<String>, name: &String) -> (res: bool)
    ensures
        res == listed(name_models(names@), name@),
{
    let n = names.len();
    let mut i: usize = 0;
    while i < n
        invariant
            n == names.len(),
            i <= n,
            forall|a: int| 0 <= a < i ==> #[trigger] name_models(names@)[a] != name@,
        decreases n - i,
    {
        if names[i] == *name {
            assert(name_models(names@)[i as int] == name@);
            return true;
        }
        i += 1;
    }
    false
}

} // verus!
