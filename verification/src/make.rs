use vstd::prelude::*;
use crate::name::{Name, views_of};
use crate::cache::{CachedUnit, dep_views};
use crate::BuildSet;

verus! {

/// What a declared build product is.
#[derive(PartialEq, Eq, Structural, Clone, Copy)]
pub enum ArtifactType {
    Lib,
    Exe,
    Test,
    Macro,
}

/// A declared build product: its name, its main module, and its kind.
pub struct Artifact {
    pub name: String,
    pub main: Name,
    pub typ: ArtifactType,
}

/// Which artifacts a build set covers: tests only under the test set,
/// executables always, everything else except under the run set.
pub open spec fn spec_artifact_selected(typ: ArtifactType, buildset: BuildSet) -> bool {
    match (typ, buildset) {
        (ArtifactType::Test, BuildSet::Tests) => true,
        (ArtifactType::Test, _) => false,
        (ArtifactType::Exe, _) => true,
        (_, BuildSet::Run) => false,
        (_, _) => true,
    }
}

pub fn artifact_selected(typ: ArtifactType, buildset: BuildSet) -> (r: bool)
    ensures
        r == spec_artifact_selected(typ, buildset),
{
    match (typ, buildset) {
        (ArtifactType::Test, BuildSet::Tests) => true,
        (ArtifactType::Test, _) => false,
        (ArtifactType::Exe, _) => true,
        (_, BuildSet::Run) => false,
        (_, _) => true,
    }
}

/// The artifacts a build set selects, in declaration order.
pub open spec fn selected_artifacts(arts: Seq<Artifact>, buildset: BuildSet) -> Seq<Artifact>
    decreases arts.len(),
{
    if arts.len() == 0 {
        Seq::empty()
    } else if spec_artifact_selected(arts[0].typ, buildset) {
        seq![arts[0]] + selected_artifacts(arts.skip(1), buildset)
    } else {
        selected_artifacts(arts.skip(1), buildset)
    }
}

/// Appending one artifact descriptor extends the selection by it or not.
pub proof fn lemma_selected_snoc(arts: Seq<Artifact>, a: Artifact, buildset: BuildSet)
    ensures
        spec_artifact_selected(a.typ, buildset) ==> selected_artifacts(arts.push(a), buildset)
            == selected_artifacts(arts, buildset).push(a),
        !spec_artifact_selected(a.typ, buildset) ==> selected_artifacts(arts.push(a), buildset)
            == selected_artifacts(arts, buildset),
    decreases arts.len(),
{
    if arts.len() == 0 {
        assert(arts.push(a)[0] == a);
        assert(arts.push(a).skip(1) =~= Seq::<Artifact>::empty());
        assert(selected_artifacts(Seq::<Artifact>::empty(), buildset)
            == Seq::<Artifact>::empty());
        if spec_artifact_selected(a.typ, buildset) {
            assert(selected_artifacts(arts.push(a), buildset) == seq![a] + selected_artifacts(
                Seq::<Artifact>::empty(),
                buildset,
            ));
            assert(selected_artifacts(arts.push(a), buildset) =~= selected_artifacts(
                arts,
                buildset,
            ).push(a));
        } else {
            assert(selected_artifacts(arts.push(a), buildset) =~= selected_artifacts(
                arts,
                buildset,
            ));
        }
    } else {
        assert(arts.push(a).skip(1) =~= arts.skip(1).push(a));
        lemma_selected_snoc(arts.skip(1), a, buildset);
        if spec_artifact_selected(a.typ, buildset) {
            assert(selected_artifacts(arts.push(a), buildset) =~= selected_artifacts(
                arts,
                buildset,
            ).push(a));
        } else {
            assert(selected_artifacts(arts.push(a), buildset) =~= selected_artifacts(
                arts,
                buildset,
            ));
        }
    }
}

/// The name an artifact's main module is resolved under: made absolute by
/// a leading empty segment where it is not already.
pub open spec fn abs_main(n: Seq<Seq<char>>) -> Seq<Seq<char>> {
    if n.len() > 0 && n[0].len() == 0 {
        n
    } else {
        seq![Seq::<char>::empty()] + n
    }
}

/// The table of compiled units a pass produced, keyed by unit name.
pub struct UnitTable {
    pub entries: Vec<(Name, CachedUnit)>,
}

impl UnitTable {
    pub open spec fn wf(&self) -> bool {
        forall|i: int, j: int|
            0 <= i < j < self.entries@.len() ==> (#[trigger] self.entries@[i]).0@ != (
            #[trigger] self.entries@[j]).0@
    }

    pub open spec fn spec_contains(&self, n: Seq<Seq<char>>) -> bool {
        exists|i: int| 0 <= i < self.entries@.len() && (#[trigger] self.entries@[i]).0@ == n
    }

    pub open spec fn index_of(&self, n: Seq<Seq<char>>) -> int {
        choose|i: int| 0 <= i < self.entries@.len() && (#[trigger] self.entries@[i]).0@ == n
    }

    /// The unit bound to a name.
    pub open spec fn spec_get(&self, n: Seq<Seq<char>>) -> Option<CachedUnit> {
        if self.spec_contains(n) {
            Some(self.entries@[self.index_of(n)].1)
        } else {
            None
        }
    }

    /// The dependency name views of the unit bound to a name.
    pub open spec fn deps_of(&self, n: Seq<Seq<char>>) -> Seq<Seq<Seq<char>>> {
        dep_views(self.entries@[self.index_of(n)].1.deps@)
    }

    pub fn new() -> (r: UnitTable)
        ensures
            r.wf(),
            r.entries@.len() == 0,
    {
        UnitTable { entries: Vec::new() }
    }

    pub fn get(&self, n: &Name) -> (r: Option<&CachedUnit>)
        requires
            self.wf(),
        ensures
            r is Some <==> self.spec_contains(n@),
            r matches Some(u) ==> self.spec_get(n@) == Some(*u),
    {
        let mut i: usize = 0;
        while i < self.entries.len()
            invariant
                self.wf(),
                i <= self.entries@.len(),
                forall|j: int| 0 <= j < i ==> (#[trigger] self.entries@[j]).0@ != n@,
            decreases self.entries@.len() - i,
        {
            if self.entries[i].0.same(n) {
                proof {
                    assert(self.entries@[i as int].0@ == n@);
                    let k = self.index_of(n@);
                    assert(0 <= k < self.entries@.len() && self.entries@[k].0@ == n@);
                    if k < i as int {
                        assert((self.entries@[k]).0@ != (self.entries@[i as int]).0@);
                    } else if k > i as int {
                        assert((self.entries@[i as int]).0@ != (self.entries@[k]).0@);
                    }
                }
                return Some(&self.entries[i].1);
            }
            i = i + 1;
        }
        None
    }

    /// Binds a unit under a name, replacing an earlier binding.  The name
    /// is afterwards bound to exactly this unit, and every other binding
    /// keeps its value.
    pub fn insert(&mut self, n: Name, u: CachedUnit)
        requires
            old(self).wf(),
        ensures
            final(self).wf(),
            final(self).spec_contains(n@),
            final(self).spec_get(n@) == Some(u),
            forall|x: Seq<Seq<char>>|
                x != n@ ==> (#[trigger] final(self).spec_get(x)) == old(self).spec_get(x),
            forall|x: Seq<Seq<char>>|
                x != n@ ==> (#[trigger] final(self).spec_contains(x) == old(self).spec_contains(
                    x,
                )),
    {
        let ghost pre = self.entries@;
        let mut found: Option<usize> = None;
        let mut i: usize = 0;
        while i < self.entries.len()
            invariant
                i <= self.entries@.len(),
                self.entries@ == pre,
                found is None ==> forall|j: int|
                    0 <= j < i ==> (#[trigger] self.entries@[j]).0@ != n@,
                found matches Some(f) ==> f < self.entries@.len() && self.entries@[
                    f as int].0@ == n@,
            decreases self.entries@.len() - i,
        {
            if self.entries[i].0.same(&n) {
                found = Some(i);
                i = self.entries.len();
            } else {
                i = i + 1;
            }
        }
        if let Some(f) = found {
            self.entries.remove(f);
            proof {
                let ff = f as int;
                assert forall|j: int|
                    0 <= j < self.entries@.len() implies (#[trigger] self.entries@[j]).0@
                    != n@ by {
                    if j < ff {
                        assert(self.entries@[j] == pre[j]);
                    } else {
                        assert(self.entries@[j] == pre[j + 1]);
                    }
                }
                assert forall|x: Seq<Seq<char>>|
                    x != n@ && old(self).spec_contains(x) implies self.spec_contains(x) by {
                    let k = choose|k: int| 0 <= k < pre.len() && (#[trigger] pre[k]).0@ == x;
                    if k < ff {
                        assert(self.entries@[k].0@ == x);
                    } else {
                        assert(pre[k] == self.entries@[k - 1]);
                    }
                }
            }
        }
        let ghost mid = self.entries@;
        proof {
            assert(forall|j: int| 0 <= j < mid.len() ==> (#[trigger] mid[j]).0@ != n@);
            assert forall|x: Seq<Seq<char>>|
                x != n@ && self.spec_contains(x) implies old(self).spec_contains(x) by {
                let k = choose|k: int|
                    0 <= k < mid.len() && (#[trigger] mid[k]).0@ == x;
                if found matches Some(f) && k >= f {
                    assert(mid[k] == pre[k + 1]);
                } else {
                    assert(mid[k] == pre[k]);
                }
            }
        }
        self.entries.push((n, u));
        proof {
            assert forall|x: Seq<Seq<char>>|
                x != n@ implies (self.spec_contains(x) == old(self).spec_contains(x)) by {
                if self.spec_contains(x) {
                    let k = choose|k: int|
                        0 <= k < self.entries@.len() && (#[trigger] self.entries@[k]).0@ == x;
                    assert(k < mid.len());
                    assert(mid[k].0@ == x);
                }
                if old(self).spec_contains(x) {
                    let k = choose|k: int|
                        0 <= k < mid.len() && (#[trigger] mid[k]).0@ == x;
                    assert(self.entries@[k].0@ == x);
                }
            }
            assert(self.entries@[self.entries@.len() - 1].0@ == n@);
            let kn = self.index_of(n@);
            assert(0 <= kn < self.entries@.len() && self.entries@[kn].0@ == n@);
            if kn < self.entries@.len() - 1 {
                assert(self.entries@[kn] == mid[kn]);
            }
            assert(kn == self.entries@.len() - 1);
            assert(self.spec_get(n@) == Some(u));
            assert forall|x: Seq<Seq<char>>|
                x != n@ implies (#[trigger] self.spec_get(x)) == old(self).spec_get(x) by {
                if self.spec_contains(x) {
                    let kf = self.index_of(x);
                    assert(0 <= kf < self.entries@.len() && self.entries@[kf].0@ == x);
                    assert(kf < mid.len());
                    assert(self.entries@[kf] == mid[kf]);
                    let kp: int = match found {
                        Some(f) => if kf >= f {
                            kf + 1
                        } else {
                            kf as int
                        },
                        None => kf as int,
                    };
                    assert(mid[kf] == pre[kp]);
                    assert(pre[kp].0@ == x);
                    assert(old(self).spec_contains(x));
                    let ko = old(self).index_of(x);
                    assert(0 <= ko < pre.len() && pre[ko].0@ == x);
                    if ko < kp {
                        assert(pre[ko].0@ != pre[kp].0@);
                    } else if ko > kp {
                        assert(pre[kp].0@ != pre[ko].0@);
                    }
                    assert(old(self).spec_get(x) == Some(pre[ko].1));
                    assert(self.spec_get(x) == Some(self.entries@[kf].1));
                }
            }
        }
    }
}

/// A set of unit names that is closed under dependencies: every member is
/// a compiled unit of the table and all of its dependencies are members.
pub open spec fn closed_set(t: UnitTable, s: Set<Seq<Seq<char>>>) -> bool {
    forall|nv: Seq<Seq<char>>|
        s.contains(nv) ==> t.spec_contains(nv) && (forall|j: int|
            0 <= j < t.deps_of(nv).len() ==> s.contains(#[trigger] t.deps_of(nv)[j]))
}

/// What the linker is fed for one artifact: a duplicate-free order over
/// exactly the transitive dependency closure of the main module — it starts
/// at the main module, every member is a compiled unit, every dependency of
/// a member is a member, and nothing outside the least such set appears.
pub open spec fn closure_props(t: UnitTable, mainv: Seq<Seq<char>>, order: Seq<Name>) -> bool {
    &&& order.len() > 0 && order[0]@ == mainv
    &&& forall|i: int, j: int|
        0 <= i < j < order.len() ==> views_of(order)[i] != views_of(order)[j]
    &&& forall|i: int| 0 <= i < order.len() ==> t.spec_contains(#[trigger] views_of(order)[i])
    &&& forall|i: int, j: int|
        0 <= i < order.len() && 0 <= j < t.deps_of(views_of(order)[i]).len()
            ==> views_of(order).contains(#[trigger] t.deps_of(views_of(order)[i])[j])
    &&& forall|s2: Set<Seq<Seq<char>>>|
        closed_set(t, s2) && s2.contains(mainv) ==> forall|i: int|
            0 <= i < order.len() ==> s2.contains(#[trigger] views_of(order)[i])
}

/// Whether a name list holds a name with this view.
pub fn contains_name(v: &Vec<Name>, n: &Name) -> (r: bool)
    ensures
        r == views_of(v@).contains(n@),
{
    let mut i: usize = 0;
    while i < v.len()
        invariant
            i <= v@.len(),
            forall|j: int| 0 <= j < i ==> views_of(v@)[j] != n@,
        decreases v@.len() - i,
    {
        if v[i].same(n) {
            proof {
                assert(views_of(v@)[i as int] == n@);
            }
            return true;
        }
        i = i + 1;
    }
    false
}

/// Computes the transitive dependency closure of one main module over the
/// compiled-unit table, breadth first, each unit visited once.  The result
/// is the exact set the linker must see: it contains the main module, it
/// is closed under `deps`, it holds no duplicate, and it is the least such
/// set — nothing unreachable is linked.  Nothing is returned when a
/// reachable dependency has no compiled unit.
pub fn dep_closure(t: &UnitTable, main: &Name) -> (r: Option<Vec<Name>>)
    requires
        t.wf(),
    ensures
        r matches Some(order) ==> closure_props(*t, main@, order@),
        r is None ==> forall|s2: Set<Seq<Seq<char>>>|
            !(closed_set(*t, s2) && s2.contains(main@)),
{
    let mut used: Vec<Name> = Vec::new();
    let mut need: Vec<Name> = Vec::new();
    need.push(main.clone());
    let ghost mut keys_left: Set<Seq<Seq<char>>> = Seq::new(
        t.entries@.len(),
        |i: int| t.entries@[i].0@,
    ).to_set();
    proof {
        broadcast use vstd::seq_lib::seq_to_set_is_finite;

        assert(views_of(need@)[0] == main@);
        assert forall|nv: Seq<Seq<char>>|
            t.spec_contains(nv) implies keys_left.contains(nv) by {
            let k = choose|k: int|
                0 <= k < t.entries@.len() && (#[trigger] t.entries@[k]).0@ == nv;
            assert(Seq::new(t.entries@.len(), |i: int| t.entries@[i].0@)[k] == nv);
            assert(Seq::new(t.entries@.len(), |i: int| t.entries@[i].0@).contains(nv));
        }
    }
    loop
        invariant
            t.wf(),
            keys_left.finite(),
            forall|nv: Seq<Seq<char>>|
                t.spec_contains(nv) && !views_of(used@).contains(nv) ==> keys_left.contains(nv),
            used@.len() == 0 ==> need@.len() > 0 && views_of(need@)[0] == main@,
            used@.len() > 0 ==> views_of(used@)[0] == main@,
            views_of(used@).contains(main@) || views_of(need@).contains(main@),
            forall|i: int, j: int|
                0 <= i < j < used@.len() ==> views_of(used@)[i] != views_of(used@)[j],
            forall|i: int|
                0 <= i < used@.len() ==> t.spec_contains(#[trigger] views_of(used@)[i]),
            forall|i: int, j: int|
                0 <= i < used@.len() && 0 <= j < t.deps_of(views_of(used@)[i]).len()
                    ==> views_of(used@).contains(#[trigger] t.deps_of(views_of(used@)[i])[j])
                    || views_of(need@).contains(t.deps_of(views_of(used@)[i])[j]),
            forall|s2: Set<Seq<Seq<char>>>|
                closed_set(*t, s2) && s2.contains(main@) ==> (forall|i: int|
                    0 <= i < used@.len() ==> s2.contains(#[trigger] views_of(used@)[i]))
                    && (forall|i: int|
                    0 <= i < need@.len() ==> s2.contains(#[trigger] views_of(need@)[i])),
        ensures
            need@.len() == 0,
        decreases keys_left.len(), need@.len(),
    {
        if need.len() == 0 {
            break ;
        }
        let ghost pre_need = need@;
        let n = need.remove(0);
        proof {
            assert(views_of(pre_need)[0] == n@);
            assert forall|i: int|
                0 <= i < need@.len() implies #[trigger] views_of(need@)[i] == views_of(
                pre_need,
            )[i + 1] by {}
            assert forall|x: Seq<Seq<char>>|
                views_of(need@).contains(x) implies views_of(pre_need).contains(x) by {
                let k = choose|k: int|
                    0 <= k < views_of(need@).len() && views_of(need@)[k] == x;
                assert(views_of(pre_need)[k + 1] == x);
            }
        }
        if contains_name(&used, &n) {
            proof {
                assert forall|i: int, j: int|
                    0 <= i < used@.len() && 0 <= j < t.deps_of(views_of(used@)[i]).len()
                        implies views_of(used@).contains(
                    #[trigger] t.deps_of(views_of(used@)[i])[j],
                ) || views_of(need@).contains(t.deps_of(views_of(used@)[i])[j]) by {
                    let dv = t.deps_of(views_of(used@)[i])[j];
                    if !views_of(used@).contains(dv) {
                        assert(views_of(pre_need).contains(dv));
                        let k = choose|k: int|
                            0 <= k < pre_need.len() && views_of(pre_need)[k] == dv;
                        if k == 0 {
                            assert(dv == n@);
                            assert(views_of(used@).contains(n@));
                        } else {
                            assert(views_of(need@)[k - 1] == dv);
                            assert(views_of(need@).contains(dv));
                        }
                    }
                }
                if views_of(used@).contains(main@) {
                } else {
                    assert(views_of(pre_need).contains(main@));
                    let k = choose|k: int|
                        0 <= k < pre_need.len() && views_of(pre_need)[k] == main@;
                    if k == 0 {
                        assert(n@ == main@);
                        assert(views_of(used@).contains(n@));
                    } else {
                        assert(views_of(need@)[k - 1] == main@);
                        assert(views_of(need@).contains(main@));
                    }
                }
            }
            continue ;
        }
        let u = match t.get(&n) {
            None => {
                proof {
                    assert forall|s2: Set<Seq<Seq<char>>>|
                        !(closed_set(*t, s2) && s2.contains(main@)) by {
                        if closed_set(*t, s2) && s2.contains(main@) {
                            assert(s2.contains(views_of(pre_need)[0]));
                            assert(s2.contains(n@));
                            assert(t.spec_contains(n@));
                        }
                    }
                }
                return None;
            },
            Some(u) => u,
        };
        let ghost nv = n@;
        let ghost pre_used = used@;
        let ghost pre_keys = keys_left;
        let ghost depviews = dep_views(u.deps@);
        proof {
            assert(depviews == t.deps_of(nv));
            assert(!views_of(pre_used).contains(nv));
            assert(keys_left.contains(nv));
            keys_left = keys_left.remove(nv);
            assert(keys_left.len() < pre_keys.len());
        }
        let dn: usize = u.deps.len();
        let ghost base_need = need@;
        let mut fresh: Vec<Name> = Vec::new();
        let mut d: usize = 0;
        while d < dn
            invariant
                d <= dn,
                dn == u.deps@.len(),
                depviews == dep_views(u.deps@),
                fresh@.len() == d,
                forall|i: int| 0 <= i < d ==> views_of(fresh@)[i] == depviews[i],
            decreases dn - d,
        {
            fresh.push(u.deps[d].clone());
            proof {
                assert(views_of(fresh@)[d as int] == fresh@[d as int]@);
                assert(forall|i: int|
                    0 <= i < d ==> views_of(fresh@)[i] == views_of(fresh@.take(d as int))[i]);
            }
            d = d + 1;
        }
        let mut fresh = fresh;
        need.append(&mut fresh);
        used.push(n);
        proof {
            assert(views_of(used@) =~= views_of(pre_used).push(nv));
            assert forall|i: int|
                0 <= i < need@.len() implies #[trigger] views_of(need@)[i] == (if i
                < base_need.len() {
                views_of(base_need)[i]
            } else {
                depviews[i - base_need.len()]
            }) by {}
            // every old member of need is still a member, and every
            // dependency of the unit just visited is one now
            assert forall|x: Seq<Seq<char>>|
                views_of(base_need).contains(x) implies views_of(need@).contains(x) by {
                let k = choose|k: int|
                    0 <= k < base_need.len() && views_of(base_need)[k] == x;
                assert(views_of(need@)[k] == x);
            }
            assert forall|j: int|
                0 <= j < depviews.len() implies views_of(need@).contains(
                #[trigger] depviews[j],
            ) by {
                assert(views_of(need@)[base_need.len() + j] == depviews[j]);
            }
            // the no-duplicates, membership and closedness invariants
            assert forall|i: int, j: int|
                0 <= i < j < used@.len() implies views_of(used@)[i] != views_of(
                used@,
            )[j] by {
                if j < used@.len() - 1 {
                    assert(views_of(pre_used)[i] == views_of(used@)[i]);
                    assert(views_of(pre_used)[j] == views_of(used@)[j]);
                } else {
                    assert(views_of(used@)[j] == nv);
                    assert(views_of(used@)[i] == views_of(pre_used)[i]);
                    assert(views_of(pre_used).contains(views_of(pre_used)[i]));
                }
            }
            assert forall|i: int, j: int|
                0 <= i < used@.len() && 0 <= j < t.deps_of(views_of(used@)[i]).len()
                    implies views_of(used@).contains(
                #[trigger] t.deps_of(views_of(used@)[i])[j],
            ) || views_of(need@).contains(t.deps_of(views_of(used@)[i])[j]) by {
                let dv = t.deps_of(views_of(used@)[i])[j];
                if i < used@.len() - 1 {
                    assert(views_of(used@)[i] == views_of(pre_used)[i]);
                    if views_of(pre_used).contains(dv) {
                        let k = choose|k: int|
                            0 <= k < pre_used.len() && views_of(pre_used)[k] == dv;
                        assert(views_of(used@)[k] == dv);
                        assert(views_of(used@).contains(dv));
                    } else {
                        assert(views_of(pre_need).contains(dv));
                        let k = choose|k: int|
                            0 <= k < pre_need.len() && views_of(pre_need)[k] == dv;
                        if k == 0 {
                            assert(dv == nv);
                            assert(views_of(used@)[used@.len() - 1] == nv);
                            assert(views_of(used@).contains(dv));
                        } else {
                            assert(views_of(base_need)[k - 1] == dv);
                            assert(views_of(base_need).contains(dv));
                            assert(views_of(need@).contains(dv));
                        }
                    }
                } else {
                    assert(views_of(used@)[i] == nv);
                    assert(t.deps_of(nv)[j] == depviews[j]);
                    assert(views_of(need@).contains(depviews[j]));
                }
            }
            // anything a closed set must hold, it still must hold
            assert forall|s2: Set<Seq<Seq<char>>>|
                closed_set(*t, s2) && s2.contains(main@) implies (forall|i: int|
                0 <= i < used@.len() ==> s2.contains(#[trigger] views_of(used@)[i])) && (forall|
                i: int,
            |
                0 <= i < need@.len() ==> s2.contains(#[trigger] views_of(need@)[i])) by {
                assert(s2.contains(views_of(pre_need)[0]));
                assert(s2.contains(nv));
                assert forall|i: int|
                    0 <= i < used@.len() implies s2.contains(
                    #[trigger] views_of(used@)[i],
                ) by {
                    if i < used@.len() - 1 {
                        assert(views_of(used@)[i] == views_of(pre_used)[i]);
                    }
                }
                assert forall|i: int|
                    0 <= i < need@.len() implies s2.contains(
                    #[trigger] views_of(need@)[i],
                ) by {
                    if i < base_need.len() {
                        let k = i + 1;
                        assert(views_of(pre_need)[k] == views_of(base_need)[i]);
                    } else {
                        assert(views_of(need@)[i] == t.deps_of(nv)[i - base_need.len()]);
                    }
                }
            }
            // the table keys not yet visited still cover what is left
            assert forall|x: Seq<Seq<char>>|
                t.spec_contains(x) && !views_of(used@).contains(x) implies keys_left.contains(
                x,
            ) by {
                if !views_of(pre_used).contains(x) {
                    assert(pre_keys.contains(x));
                    if x == nv {
                        assert(views_of(used@)[used@.len() - 1] == nv);
                    }
                } else {
                    let k = choose|k: int|
                        0 <= k < pre_used.len() && views_of(pre_used)[k] == x;
                    assert(views_of(used@)[k] == x);
                }
            }
            if views_of(used@).contains(main@) {
            } else if views_of(pre_used).contains(main@) {
                let k = choose|k: int|
                    0 <= k < pre_used.len() && views_of(pre_used)[k] == main@;
                assert(views_of(used@)[k] == main@);
            } else {
                assert(views_of(pre_need).contains(main@));
                let k = choose|k: int|
                    0 <= k < pre_need.len() && views_of(pre_need)[k] == main@;
                if k == 0 {
                    assert(nv == main@);
                    assert(views_of(used@)[used@.len() - 1] == nv);
                } else {
                    assert(views_of(base_need)[k - 1] == main@);
                    assert(views_of(need@)[k - 1] == main@);
                }
            }
            if pre_used.len() == 0 {
                assert(views_of(pre_need)[0] == main@);
                assert(views_of(used@)[0] == nv);
            } else {
                assert(views_of(used@)[0] == views_of(pre_used)[0]);
            }
        }
    }
    proof {
        assert(views_of(need@).len() == need@.len());
        assert(views_of(need@).len() == 0);
        assert(views_of(used@).contains(main@) || views_of(need@).contains(main@));
        if views_of(need@).contains(main@) {
            let k = choose|k: int|
                0 <= k < views_of(need@).len() && views_of(need@)[k] == main@;
            assert(false);
        }
        assert(used@.len() > 0);
        assert(used@[0]@ == views_of(used@)[0]);
    }
    Some(used)
}

} // verus!
