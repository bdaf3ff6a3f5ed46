use vstd::prelude::*;
use crate::ast;
use crate::name::{Name, Rel, str_cmp};

verus! {

/// A module of the table: either a foreign passthrough unit (a pre-existing
/// header, kept only as a path) or a parsed source unit.
pub enum Module {
    C(String),
    ZZ(ast::Module),
}

/// The in-memory module table: qualified name to module.  Keys are unique.
pub struct ModuleTable {
    pub entries: Vec<(Name, Module)>,
}

impl ModuleTable {
    /// Key uniqueness: no two entries share a qualified name.
    pub open spec fn wf(&self) -> bool {
        forall|i: int, j: int|
            0 <= i < j < self.entries@.len() ==> (#[trigger] self.entries@[i]).0@ != (
            #[trigger] self.entries@[j]).0@
    }

    /// Whether a name is bound in the table.
    pub open spec fn spec_contains(&self, n: Seq<Seq<char>>) -> bool {
        exists|i: int| 0 <= i < self.entries@.len() && (#[trigger] self.entries@[i]).0@ == n
    }

    /// The index a name is bound at.
    pub open spec fn index_of(&self, n: Seq<Seq<char>>) -> int {
        choose|i: int| 0 <= i < self.entries@.len() && (#[trigger] self.entries@[i]).0@ == n
    }

    pub fn new() -> (r: ModuleTable)
        ensures
            r.wf(),
            r.entries@.len() == 0,
    {
        ModuleTable { entries: Vec::new() }
    }

    pub fn len(&self) -> (r: usize)
        ensures
            r == self.entries@.len(),
    {
        self.entries.len()
    }

    /// The module bound to a name.
    pub open spec fn spec_get(&self, n: Seq<Seq<char>>) -> Option<Module> {
        if self.spec_contains(n) {
            Some(self.entries@[self.index_of(n)].1)
        } else {
            None
        }
    }

    /// Looks a module up by name.
    pub fn get(&self, n: &Name) -> (r: Option<&Module>)
        requires
            self.wf(),
        ensures
            r is Some <==> self.spec_contains(n@),
            r matches Some(m) ==> self.spec_get(n@) == Some(*m),
    {
        let mut i: usize = 0;
        while i < self.entries.len()
            invariant
                self.wf(),
                i <= self.entries@.len(),
                forall|j: int| 0 <= j < i ==> (#[trigger] self.entries@[j]).0@ != n@,
            decreases self.entries@.len() - i,
        {
            if self.entries[i].0.same(n) {
                proof {
                    assert(self.entries@[i as int].0@ == n@);
                    let k = self.index_of(n@);
                    assert(0 <= k < self.entries@.len() && self.entries@[k].0@ == n@);
                    if k < i as int {
                        assert((self.entries@[k]).0@ != (self.entries@[i as int]).0@);
                    } else if k > i as int {
                        assert((self.entries@[i as int]).0@ != (self.entries@[k]).0@);
                    }
                }
                return Some(&self.entries[i].1);
            }
            i = i + 1;
        }
        None
    }

    /// The index a name is bound at, if any.
    fn find_index(&self, n: &Name) -> (r: Option<usize>)
        ensures
            r matches Some(i) ==> i < self.entries@.len() && self.entries@[i as int].0@ == n@,
            r is None ==> forall|j: int|
                0 <= j < self.entries@.len() ==> (#[trigger] self.entries@[j]).0@ != n@,
    {
        let mut i: usize = 0;
        while i < self.entries.len()
            invariant
                i <= self.entries@.len(),
                forall|j: int| 0 <= j < i ==> (#[trigger] self.entries@[j]).0@ != n@,
            decreases self.entries@.len() - i,
        {
            if self.entries[i].0.same(n) {
                return Some(i);
            }
            i = i + 1;
        }
        None
    }

    /// Binds a name, replacing an earlier binding of the same name.  The
    /// name is afterwards bound to exactly this module, and every other
    /// binding keeps its value.
    pub fn insert(&mut self, n: Name, m: Module)
        requires
            old(self).wf(),
        ensures
            final(self).wf(),
            final(self).spec_contains(n@),
            final(self).spec_get(n@) == Some(m),
            forall|x: Seq<Seq<char>>|
                x != n@ ==> (#[trigger] final(self).spec_get(x)) == old(self).spec_get(x),
            forall|x: Seq<Seq<char>>|
                x != n@ ==> (#[trigger] final(self).spec_contains(x) == old(self).spec_contains(
                    x,
                )),
            final(self).entries@.len() <= old(self).entries@.len() + 1,
    {
        let ghost pre = self.entries@;
        let found = self.find_index(&n);
        if let Some(i) = found {
            self.entries.remove(i);
            proof {
                let ii = i as int;
                assert forall|j: int|
                    0 <= j < self.entries@.len() implies (#[trigger] self.entries@[j]).0@
                    != n@ by {
                    if j < ii {
                        assert(self.entries@[j] == pre[j]);
                    } else {
                        assert(self.entries@[j] == pre[j + 1]);
                    }
                }
                assert forall|x: Seq<Seq<char>>|
                    x != n@ && old(self).spec_contains(x) implies self.spec_contains(x) by {
                    let k = choose|k: int| 0 <= k < pre.len() && (#[trigger] pre[k]).0@ == x;
                    if k < ii {
                        assert(self.entries@[k].0@ == x);
                    } else {
                        assert(pre[k] == self.entries@[k - 1]);
                    }
                }
            }
        }
        let ghost mid = self.entries@;
        proof {
            assert(forall|j: int| 0 <= j < mid.len() ==> (#[trigger] mid[j]).0@ != n@);
            assert forall|x: Seq<Seq<char>>|
                x != n@ && self.spec_contains(x) implies old(self).spec_contains(x) by {
                let k = choose|k: int|
                    0 <= k < mid.len() && (#[trigger] mid[k]).0@ == x;
                if found matches Some(i) && k >= i {
                    assert(mid[k] == pre[k + 1]);
                } else {
                    assert(mid[k] == pre[k]);
                }
            }
        }
        self.entries.push((n, m));
        proof {
            assert forall|x: Seq<Seq<char>>|
                x != n@ implies (self.spec_contains(x) == old(self).spec_contains(x)) by {
                if self.spec_contains(x) {
                    let k = choose|k: int|
                        0 <= k < self.entries@.len() && (#[trigger] self.entries@[k]).0@ == x;
                    assert(k < mid.len());
                    assert(mid[k].0@ == x);
                }
                if old(self).spec_contains(x) {
                    let k = choose|k: int|
                        0 <= k < mid.len() && (#[trigger] mid[k]).0@ == x;
                    assert(self.entries@[k].0@ == x);
                }
            }
            assert(self.entries@[self.entries@.len() - 1].0@ == n@);
            let kn = self.index_of(n@);
            assert(0 <= kn < self.entries@.len() && self.entries@[kn].0@ == n@);
            if kn < self.entries@.len() - 1 {
                assert(self.entries@[kn] == mid[kn]);
            }
            assert(kn == self.entries@.len() - 1);
            assert(self.spec_get(n@) == Some(m));
            assert forall|x: Seq<Seq<char>>|
                x != n@ implies (#[trigger] self.spec_get(x)) == old(self).spec_get(x) by {
                if self.spec_contains(x) {
                    let kf = self.index_of(x);
                    assert(0 <= kf < self.entries@.len() && self.entries@[kf].0@ == x);
                    assert(kf < mid.len());
                    assert(self.entries@[kf] == mid[kf]);
                    let kp: int = match found {
                        Some(i) => if kf >= i {
                            kf + 1
                        } else {
                            kf as int
                        },
                        None => kf as int,
                    };
                    assert(mid[kf] == pre[kp]);
                    assert(pre[kp].0@ == x);
                    assert(old(self).spec_contains(x));
                    let ko = old(self).index_of(x);
                    assert(0 <= ko < pre.len() && pre[ko].0@ == x);
                    if ko < kp {
                        assert(pre[ko].0@ != pre[kp].0@);
                    } else if ko > kp {
                        assert(pre[kp].0@ != pre[ko].0@);
                    }
                    assert(old(self).spec_get(x) == Some(pre[ko].1));
                    assert(self.spec_get(x) == Some(self.entries@[kf].1));
                }
            }
        }
    }

    /// The name list the scheduler iterates: one copy of every key.
    pub fn names(&self) -> (r: Vec<Name>)
        ensures
            r@.len() == self.entries@.len(),
            forall|i: int|
                0 <= i < r@.len() ==> (#[trigger] r@[i])@ == self.entries@[i].0@,
    {
        let mut r: Vec<Name> = Vec::new();
        let mut i: usize = 0;
        while i < self.entries.len()
            invariant
                i <= self.entries@.len(),
                r@.len() == i,
                forall|j: int| 0 <= j < i ==> (#[trigger] r@[j])@ == self.entries@[j].0@,
            decreases self.entries@.len() - i,
        {
            r.push(self.entries[i].0.clone());
            i = i + 1;
        }
        r
    }
}

/// The name a loaded source file gets: the artifact prefix, with the file
/// stem appended as one more segment unless the stem is the root stem `lib`.
pub fn source_module_name(artifact_name: &Name, stem: &String) -> (r: Name)
    ensures
        stem@ == "lib"@ ==> r@ == artifact_name@,
        stem@ != "lib"@ ==> r@ == artifact_name@.push(stem@),
{
    let mut r = artifact_name.clone();
    match str_cmp(stem.as_str(), "lib") {
        Rel::Equal => r,
        _ => {
            r.push(stem.clone());
            proof {
                assert(r@ =~= artifact_name@.push(stem@));
            }
            r
        },
    }
}

/// The name a foreign header file gets: the artifact prefix with the file
/// stem always appended.
pub fn header_module_name(artifact_name: &Name, stem: &String) -> (r: Name)
    ensures
        r@ == artifact_name@.push(stem@),
{
    let mut r = artifact_name.clone();
    r.push(stem.clone());
    proof {
        assert(r@ =~= artifact_name@.push(stem@));
    }
    r
}

/// One directory entry that the walk found, already parsed where it is a
/// source file.  Walking and parsing are the callers' work; naming and
/// insertion are decided here.
pub enum LoadedFile {
    Header { stem: String, path: String },
    Source { stem: String, module: ast::Module },
}

/// Enters every loaded file into the table under its qualified name:
/// headers become foreign passthrough modules, parsed source modules get
/// their name assigned by the stem rule.  Insertion is last-writer-wins,
/// so the table stays well formed.
/// What the table must bind one loaded file's name to: a header becomes
/// the foreign passthrough module carrying its path; a source file becomes
/// its parsed module under the assigned name, declarations untouched.
pub open spec fn loaded_binding(prefix: Seq<Seq<char>>, f: LoadedFile, b: Module) -> bool {
    match f {
        LoadedFile::Header { stem, path } => b == Module::C(path),
        LoadedFile::Source { stem, module } => {
            &&& b matches Module::ZZ(m2)
            &&& (b matches Module::ZZ(m2) ==> m2.name@ == loaded_name(prefix, f) && m2.source
                == module.source && m2.locals == module.locals && m2.includes == module.includes
                && m2.imports == module.imports && m2.sources == module.sources)
        },
    }
}

/// Enters every loaded file into the table under its qualified name:
/// headers become foreign passthrough modules, parsed source modules get
/// their name assigned by the stem rule.  Insertion is last-writer-wins:
/// each name whose file is not shadowed by a later file of the same name
/// ends up bound to that file's module, and every binding under any other
/// name is left exactly as it was.
pub fn load(modules: &mut ModuleTable, artifact_name: &Name, files: Vec<LoadedFile>)
    requires
        old(modules).wf(),
    ensures
        final(modules).wf(),
        forall|i: int|
            0 <= i < files@.len() ==> final(modules).spec_contains(
                #[trigger] loaded_name(artifact_name@, files@[i]),
            ),
        forall|i: int|
            0 <= i < files@.len() && (forall|j: int|
                i < j < files@.len() ==> loaded_name(artifact_name@, files@[j]) != loaded_name(
                    artifact_name@,
                    files@[i],
                )) ==> (final(modules).spec_get(
                #[trigger] loaded_name(artifact_name@, files@[i]),
            ) matches Some(b) && loaded_binding(artifact_name@, files@[i], b)),
        forall|x: Seq<Seq<char>>|
            (forall|i: int|
                0 <= i < files@.len() ==> loaded_name(artifact_name@, #[trigger] files@[i])
                    != x) ==> final(modules).spec_get(x) == old(modules).spec_get(x),
{
    let mut files = files;
    let total: usize = files.len();
    let ghost all = files@;
    let ghost prefix = artifact_name@;
    let mut done: usize = 0;
    while files.len() > 0
        invariant
            modules.wf(),
            done <= total,
            all.len() == total,
            done + files@.len() == all.len(),
            files@ =~= all.skip(done as int),
            forall|i: int|
                0 <= i < done ==> modules.spec_contains(
                    #[trigger] loaded_name(prefix, all[i]),
                ),
            forall|i: int|
                0 <= i < done && (forall|j: int|
                    i < j < done ==> loaded_name(prefix, all[j]) != loaded_name(
                        prefix,
                        all[i],
                    )) ==> (modules.spec_get(#[trigger] loaded_name(prefix, all[i])) matches Some(
                    b,
                ) && loaded_binding(prefix, all[i], b)),
            forall|x: Seq<Seq<char>>|
                (forall|i: int|
                    0 <= i < done ==> loaded_name(prefix, #[trigger] all[i]) != x)
                    ==> modules.spec_get(x) == old(modules).spec_get(x),
            artifact_name@ == prefix,
        decreases files@.len(),
    {
        let f = files.remove(0);
        proof {
            assert(all.skip(done as int)[0] == all[done as int]);
            assert(files@ =~= all.skip(done as int + 1));
        }
        let ghost cur = all[done as int];
        let ghost pre_table = *modules;
        match f {
            LoadedFile::Header { stem, path } => {
                let n = header_module_name(artifact_name, &stem);
                let ghost bound = Module::C(path);
                modules.insert(n, Module::C(path));
                proof {
                    assert(loaded_name(prefix, cur) == n@);
                    assert(loaded_binding(prefix, cur, bound));
                    assert(modules.spec_get(n@) == Some(bound));
                }
            },
            LoadedFile::Source { stem, module } => {
                let n = source_module_name(artifact_name, &stem);
                let mut module = module;
                module.name = n.clone();
                let ghost bound = Module::ZZ(module);
                modules.insert(n, Module::ZZ(module));
                proof {
                    assert(loaded_name(prefix, cur) == n@);
                    assert(loaded_binding(prefix, cur, bound));
                    assert(modules.spec_get(n@) == Some(bound));
                }
            },
        }
        proof {
            assert forall|i: int|
                0 <= i < done + 1 && (forall|j: int|
                    i < j < done + 1 ==> loaded_name(prefix, all[j]) != loaded_name(
                        prefix,
                        all[i],
                    )) implies (modules.spec_get(
                #[trigger] loaded_name(prefix, all[i]),
            ) matches Some(b) && loaded_binding(prefix, all[i], b)) by {
                if i < done {
                    assert(loaded_name(prefix, all[done as int]) != loaded_name(
                        prefix,
                        all[i],
                    ));
                    assert(modules.spec_get(loaded_name(prefix, all[i]))
                        == pre_table.spec_get(loaded_name(prefix, all[i])));
                }
            }
            assert forall|x: Seq<Seq<char>>|
                (forall|i: int|
                    0 <= i < done + 1 ==> loaded_name(prefix, #[trigger] all[i]) != x)
                    implies modules.spec_get(x) == old(modules).spec_get(x) by {
                assert(loaded_name(prefix, all[done as int]) != x);
                assert(modules.spec_get(x) == pre_table.spec_get(x));
            }
        }
        done = done + 1;
    }
}

/// The qualified name one loaded file is entered under.
pub open spec fn loaded_name(prefix: Seq<Seq<char>>, f: LoadedFile) -> Seq<Seq<char>> {
    match f {
        LoadedFile::Header { stem, path } => prefix.push(stem@),
        LoadedFile::Source { stem, module } => if stem@ == "lib"@ {
            prefix
        } else {
            prefix.push(stem@)
        },
    }
}

} // verus!
