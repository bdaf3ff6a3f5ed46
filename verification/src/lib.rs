pub mod ast;
pub mod cache;
pub mod codec;
pub mod driver;
pub mod loader;
pub mod make;
pub mod makro;
pub mod name;
pub mod project;

use vstd::prelude::*;
use vstd::relations::sorted_by;
use crate::driver::{
    World, run_pass, collect_pass, WorkerResult, EmitKind, worker_spec, spec_world, fold_writes,
    fold_removes, fold_macros, fold_emits, fold_aborted, unit_named,
};
use crate::loader::ModuleTable;
use crate::make::{
    Artifact, UnitTable, dep_closure, artifact_selected, selected_artifacts, lemma_selected_snoc,
    abs_main, closure_props, closed_set,
};
use crate::name::{Name, sort_names, views_of, name_order};

verus! {

/// A diagnostic attached to source locations, as surfaced to the user.
pub struct Error {
    pub message: String,
    pub details: Vec<(ast::Location, String)>,
}

impl Error {
    pub fn new(message: String, details: Vec<(ast::Location, String)>) -> (r: Self)
        ensures
            r.message == message,
            r.details == details,
    {
        Self { message, details }
    }
}

/// Which declared artifacts a build covers.
#[derive(PartialEq, Eq, Structural, Clone, Copy)]
pub enum BuildSet {
    Tests,
    Run,
    Check,
    All,
}

/// One artifact as the build prepared it for the native toolchain: the
/// object-build order over its dependency closure, and whether it was
/// handed to the linker.
pub struct ArtifactBuild {
    pub name: String,
    pub main: Name,
    pub objects: Vec<Name>,
    pub linked: bool,
}

/// The names each table entry is bound under.
pub open spec fn key_views(t: ModuleTable) -> Seq<Seq<Seq<char>>> {
    Seq::new(t.entries@.len(), |i: int| t.entries@[i].0@)
}

/// The schedule a pass runs over a table: the table's keys, each once, in
/// the deterministic sorted order.
pub open spec fn schedule_of(t: ModuleTable, names: Seq<Name>) -> bool {
    &&& sorted_by(names, name_order())
    &&& views_of(names).to_multiset() == key_views(t).to_multiset()
}

/// The binding a name has after growing a table by a list of macro
/// modules, a later module of the same name winning.
pub open spec fn grown_get(
    t0: ModuleTable,
    ms: Seq<crate::ast::Module>,
    x: Seq<Seq<char>>,
) -> Option<crate::loader::Module>
    decreases ms.len(),
{
    if ms.len() == 0 {
        t0.spec_get(x)
    } else if ms.last().name@ == x {
        Some(crate::loader::Module::ZZ(ms.last()))
    } else {
        grown_get(t0, ms.drop_last(), x)
    }
}

/// Some named macro tool has no dependency-closed unit set at all: its
/// closure cannot be computed and the build must abort.
pub open spec fn some_macro_unclosable(units: UnitTable, names: Seq<Name>) -> bool {
    exists|k: int|
        0 <= k < names.len() && (forall|s2: Set<Seq<Seq<char>>>|
            !(closed_set(units, s2) && s2.contains((#[trigger] names[k])@)))
}

/// One pass's results are exactly the worker's outcome for each scheduled
/// name, against this table and the observed world.
pub open spec fn pass_matches(
    table: ModuleTable,
    names: Seq<Name>,
    macropass: bool,
    world: World,
    rs: Seq<WorkerResult>,
) -> bool {
    &&& rs.len() == names.len()
    &&& forall|i: int|
        0 <= i < names.len() ==> worker_spec(
            table,
            names[i],
            macropass,
            world.mtimes.entries@,
            spec_world(world.modules@, names[i]@),
            #[trigger] rs[i],
        )
}

/// The intermediate outcomes a build run went through, kept as ghost
/// evidence so the report's contract can tie every field to the inputs:
/// the first pass's schedule and results, the table grown by the sieved
/// macro modules, the grown schedule, the bootstrap pass's results and
/// unit table, the final pass's results, and whether a macro tool's
/// dependency closure was missing.
pub struct BuildEvidence {
    pub base_names: Seq<Name>,
    pub pass1: Seq<WorkerResult>,
    pub grown: ModuleTable,
    pub sched: Seq<Name>,
    pub boot: Seq<WorkerResult>,
    pub boot_units: UnitTable,
    pub pass2: Seq<WorkerResult>,
    pub closure_failed: bool,
}

/// Everything one build run decided: the compiled units of the final pass,
/// the cache records written and discarded, the emitter invocations, the
/// macro tools discovered and linked between the passes, the artifacts
/// prepared for the linker, and the exit status; plus the ghost evidence
/// of the passes that produced it.
pub struct BuildReport {
    pub units: UnitTable,
    pub cache_writes: Vec<(String, Vec<u8>)>,
    pub cache_removes: Vec<String>,
    pub emissions: Vec<EmitKind>,
    pub macros_found: Vec<Name>,
    pub macro_links: Vec<(Name, Vec<Name>)>,
    pub artifacts: Vec<ArtifactBuild>,
    pub aborted: bool,
    pub artifact_error: bool,
    pub status: usize,
    pub evidence: Ghost<BuildEvidence>,
}

/// The names of a list of sieved macro modules, in order.
fn names_of_modules(v: &Vec<crate::ast::Module>) -> (r: Vec<Name>)
    ensures
        r@.len() == v@.len(),
        forall|k: int| 0 <= k < v@.len() ==> (#[trigger] r@[k])@ == v@[k].name@,
{
    let mut r: Vec<Name> = Vec::new();
    let mut i: usize = 0;
    while i < v.len()
        invariant
            i <= v@.len(),
            r@.len() == i,
            forall|k: int| 0 <= k < i ==> (#[trigger] r@[k])@ == v@[k].name@,
        decreases v@.len() - i,
    {
        r.push(v[i].name.clone());
        i = i + 1;
    }
    r
}

/// Grows the module table by every sieved macro module: each macro name is
/// afterwards bound to its module (a later module of the same name winning)
/// and every other binding keeps its value.
#[verifier::rlimit(100)]
fn grow_table(table: &mut ModuleTable, pending: Vec<crate::ast::Module>)
    requires
        old(table).wf(),
    ensures
        final(table).wf(),
        forall|x: Seq<Seq<char>>|
            (#[trigger] final(table).spec_get(x)) == grown_get(*old(table), pending@, x),
{
    let mut pending = pending;
    let total: usize = pending.len();
    let ghost msv = pending@;
    let mut done: usize = 0;
    proof {
        assert(msv.take(0) =~= Seq::<crate::ast::Module>::empty());
    }
    while pending.len() > 0
        invariant
            table.wf(),
            msv.len() == total,
            done <= total,
            done + pending@.len() == msv.len(),
            pending@ =~= msv.skip(done as int),
            forall|x: Seq<Seq<char>>|
                (#[trigger] table.spec_get(x)) == grown_get(
                    *old(table),
                    msv.take(done as int),
                    x,
                ),
        decreases pending@.len(),
    {
        let m = pending.remove(0);
        proof {
            assert(msv.skip(done as int)[0] == msv[done as int]);
            assert(pending@ =~= msv.skip(done as int + 1));
        }
        let ghost pre_table = *table;
        let key = m.name.clone();
        table.insert(key, crate::loader::Module::ZZ(m));
        proof {
            assert forall|x: Seq<Seq<char>>|
                (#[trigger] table.spec_get(x)) == grown_get(
                *old(table),
                msv.take(done as int + 1),
                x,
            ) by {
                let taken = msv.take(done as int + 1);
                assert(taken.last() == msv[done as int]);
                assert(taken.drop_last() =~= msv.take(done as int));
                if x == msv[done as int].name@ {
                    assert(table.spec_get(x) == Some(
                        crate::loader::Module::ZZ(msv[done as int]),
                    ));
                } else {
                    assert(table.spec_get(x) == pre_table.spec_get(x));
                }
            }
        }
        done = done + 1;
    }
    proof {
        assert(msv.take(done as int) =~= msv);
    }
}

/// Computes each discovered macro tool's dependency closure over the
/// bootstrap pass's units, in discovery order; reports failure when some
/// tool has none.
fn link_macros(units: &UnitTable, macros_found: &Vec<Name>) -> (r: (Vec<(Name, Vec<Name>)>, bool))
    requires
        units.wf(),
    ensures
        !r.1 ==> r.0@.len() == macros_found@.len(),
        !r.1 ==> forall|i: int|
            0 <= i < r.0@.len() ==> (#[trigger] r.0@[i]).0@ == macros_found@[i]@
                && closure_props(*units, r.0@[i].0@, r.0@[i].1@),
        r.1 ==> some_macro_unclosable(*units, macros_found@),
{
    let mut macro_links: Vec<(Name, Vec<Name>)> = Vec::new();
    let mut closure_failed = false;
    let mut k: usize = 0;
    while k < macros_found.len() && !closure_failed
        invariant
            units.wf(),
            k <= macros_found@.len(),
            !closure_failed ==> macro_links@.len() == k,
            !closure_failed ==> forall|i: int|
                0 <= i < k ==> (#[trigger] macro_links@[i]).0@ == macros_found@[i]@
                    && closure_props(*units, macro_links@[i].0@, macro_links@[i].1@),
            closure_failed ==> some_macro_unclosable(*units, macros_found@),
        decreases macros_found@.len() - k,
    {
        match dep_closure(units, &macros_found[k]) {
            None => {
                closure_failed = true;
                proof {
                    assert(forall|s2: Set<Seq<Seq<char>>>|
                        !(closed_set(*units, s2) && s2.contains(
                            (#[trigger] macros_found@[k as int])@,
                        )));
                    assert(some_macro_unclosable(*units, macros_found@));
                }
            },
            Some(order) => {
                macro_links.push((macros_found[k].clone(), order));
            },
        }
        k = k + 1;
    }
    (macro_links, closure_failed)
}

/// Prepares every selected artifact: its main module made absolute, its
/// object order the dependency closure over the final units, linked unless
/// the build only checks; stops on the first artifact whose main module or
/// dependency has no compiled unit.
fn build_artifacts(units: &UnitTable, artifacts: Vec<Artifact>, buildset: BuildSet) -> (r: (
    Vec<ArtifactBuild>,
    bool,
))
    requires
        units.wf(),
    ensures
        forall|k: int|
            0 <= k < r.0@.len() ==> closure_props(
                *units,
                (#[trigger] r.0@[k]).main@,
                r.0@[k].objects@,
            ) && r.0@[k].linked == (buildset != BuildSet::Check),
        !r.1 ==> r.0@.len() == selected_artifacts(artifacts@, buildset).len(),
        !r.1 ==> forall|k: int|
            0 <= k < r.0@.len() ==> (#[trigger] r.0@[k]).name == selected_artifacts(
                artifacts@,
                buildset,
            )[k].name && r.0@[k].main@ == abs_main(
                selected_artifacts(artifacts@, buildset)[k].main@,
            ),
{
    let mut built: Vec<ArtifactBuild> = Vec::new();
    let mut artifact_error = false;
    let mut artifacts = artifacts;
    let ghost all = artifacts@;
    let total: usize = artifacts.len();
    let mut done: usize = 0;
    proof {
        assert(all.take(0) =~= Seq::<Artifact>::empty());
    }
    while artifacts.len() > 0 && !artifact_error
        invariant
            units.wf(),
            done <= total,
            all.len() == total,
            artifacts@ =~= all.skip(done as int),
            forall|k: int|
                0 <= k < built@.len() ==> closure_props(
                    *units,
                    (#[trigger] built@[k]).main@,
                    built@[k].objects@,
                ) && built@[k].linked == (buildset != BuildSet::Check),
            !artifact_error ==> built@.len() == selected_artifacts(
                all.take(done as int),
                buildset,
            ).len(),
            !artifact_error ==> forall|k: int|
                0 <= k < built@.len() ==> (#[trigger] built@[k]).name == selected_artifacts(
                    all.take(done as int),
                    buildset,
                )[k].name && built@[k].main@ == abs_main(
                    selected_artifacts(all.take(done as int), buildset)[k].main@,
                ),
        decreases artifacts@.len(),
    {
        let a = artifacts.remove(0);
        proof {
            assert(all.skip(done as int)[0] == all[done as int]);
            assert(artifacts@ =~= all.skip(done as int + 1));
            assert(all.take(done as int + 1) =~= all.take(done as int).push(all[done as int]));
            lemma_selected_snoc(all.take(done as int), all[done as int], buildset);
        }
        if artifact_selected(a.typ, buildset) {
            let ghost premain = a.main@;
            let Artifact { name: aname, main, typ } = a;
            let mut main = main;
            if !main.is_absolute() {
                let empty_seg = String::new();
                let ghost pre_segs = main.segments@;
                main.segments.insert(0, empty_seg);
                proof {
                    assert(main.segments@ =~= seq![empty_seg] + pre_segs);
                    assert forall|j: int|
                        0 <= j < main@.len() implies main@[j] == abs_main(premain)[j] by {
                        if j > 0 {
                            assert(main.segments@[j] == pre_segs[j - 1]);
                        }
                    }
                    assert(main@ =~= abs_main(premain));
                }
            }
            match dep_closure(units, &main) {
                None => {
                    artifact_error = true;
                },
                Some(order) => {
                    built.push(
                        ArtifactBuild {
                            name: aname,
                            main,
                            objects: order,
                            linked: !matches!(buildset, BuildSet::Check),
                        },
                    );
                },
            }
        }
        done = done + 1;
    }
    proof {
        if !artifact_error {
            assert(all.take(done as int) =~= all);
        }
    }
    (built, artifact_error)
}

/// Drives the whole build over the observed world: the macro-sieve pass;
/// one bootstrap sieve pass over the table grown by every discovered macro
/// module, followed by each macro tool's link; the macro-available pass;
/// and artifact linking.  The report is tied to the inputs through the
/// ghost evidence: each pass's results are the worker's own outcomes over
/// the sorted schedule, the abort flag holds exactly when some worker
/// aborted or a macro tool's closure was missing, the unit table is the
/// final pass's fold, and the cache traffic and emissions are the workers'
/// own, concatenated.  An abort stops the build with the distinct status 9
/// before anything is linked; every macro tool found by a clean first pass
/// is linked before the second pass runs (an aborted build has no second
/// pass and an empty unit table).
#[verifier::rlimit(100)]
#[verifier::spinoff_prover]
pub fn build(buildset: BuildSet, table: ModuleTable, world: &World, artifacts: Vec<Artifact>) -> (
    r: BuildReport)
    requires
        table.wf(),
    ensures
        (r.status == 0) == (!r.aborted && !r.artifact_error),
        (r.status == 9) == (r.aborted || r.artifact_error),
        r.aborted ==> r.artifacts@.len() == 0,
        r.aborted ==> r.units.entries@.len() == 0,
        (fold_aborted(r.evidence@.pass1) || fold_aborted(r.evidence@.boot)
            || r.evidence@.closure_failed) ==> r.evidence@.pass2.len() == 0,
        !r.aborted ==> r.macro_links@.len() == r.macros_found@.len(),
        !r.aborted ==> forall|i: int|
            0 <= i < r.macro_links@.len() ==> (#[trigger] r.macro_links@[i]).0@
                == r.macros_found@[i]@,
        !r.aborted ==> forall|i: int|
            0 <= i < r.macro_links@.len() ==> closure_props(
                r.evidence@.boot_units,
                (#[trigger] r.macro_links@[i]).0@,
                r.macro_links@[i].1@,
            ),
        r.units.wf(),
        forall|k: int|
            0 <= k < r.artifacts@.len() ==> closure_props(
                r.units,
                (#[trigger] r.artifacts@[k]).main@,
                r.artifacts@[k].objects@,
            ) && r.artifacts@[k].linked == (buildset != BuildSet::Check),
        !r.aborted && !r.artifact_error ==> r.artifacts@.len() == selected_artifacts(
            artifacts@,
            buildset,
        ).len(),
        !r.aborted && !r.artifact_error ==> forall|k: int|
            0 <= k < r.artifacts@.len() ==> (#[trigger] r.artifacts@[k]).name
                == selected_artifacts(artifacts@, buildset)[k].name && r.artifacts@[k].main@
                == abs_main(selected_artifacts(artifacts@, buildset)[k].main@),
        // the macro-sieve pass ran over the input table's sorted keys
        schedule_of(table, r.evidence@.base_names),
        pass_matches(table, r.evidence@.base_names, true, *world, r.evidence@.pass1),
        // the discovered macros are the first pass's sieved modules
        r.macros_found@.len() == fold_macros(r.evidence@.pass1).len(),
        forall|i: int|
            0 <= i < r.macros_found@.len() ==> (#[trigger] r.macros_found@[i])@ == fold_macros(
                r.evidence@.pass1,
            )[i].name@,
        // the grown table is the input table plus exactly the sieved
        // macro modules, a later module of the same name winning
        r.evidence@.grown.wf(),
        forall|x: Seq<Seq<char>>|
            (#[trigger] r.evidence@.grown.spec_get(x)) == grown_get(
                table,
                fold_macros(r.evidence@.pass1),
                x,
            ),
        schedule_of(r.evidence@.grown, r.evidence@.sched),
        // the bootstrap pass ran over the grown table when macros exist
        (!fold_aborted(r.evidence@.pass1) && fold_macros(r.evidence@.pass1).len() > 0)
            ==> pass_matches(
            r.evidence@.grown,
            r.evidence@.sched,
            true,
            *world,
            r.evidence@.boot,
        ),
        (fold_aborted(r.evidence@.pass1) || fold_macros(r.evidence@.pass1).len() == 0)
            ==> r.evidence@.boot.len() == 0,
        r.evidence@.boot_units.wf(),
        forall|i: int|
            0 <= i < r.evidence@.boot.len() ==> ((#[trigger] r.evidence@.boot[i]).unit matches
            Some(u) ==> ((forall|j: int|
                i < j < r.evidence@.boot.len() ==> !unit_named(r.evidence@.boot[j], u.name@))
                ==> r.evidence@.boot_units.spec_get(u.name@) == Some(u))),
        r.evidence@.closure_failed ==> some_macro_unclosable(
            r.evidence@.boot_units,
            r.macros_found@,
        ),
        // the macro-available pass ran over the grown table when clean
        !r.aborted ==> pass_matches(
            r.evidence@.grown,
            r.evidence@.sched,
            false,
            *world,
            r.evidence@.pass2,
        ),
        // the unit table is the final pass's fold
        !r.aborted ==> forall|i: int|
            0 <= i < r.evidence@.pass2.len() ==> ((#[trigger] r.evidence@.pass2[i]).unit matches
            Some(u) ==> ((forall|j: int|
                i < j < r.evidence@.pass2.len() ==> !unit_named(r.evidence@.pass2[j], u.name@))
                ==> r.units.spec_get(u.name@) == Some(u))),
        forall|x: Seq<Seq<char>>|
            r.units.spec_contains(x) ==> exists|i: int|
                0 <= i < r.evidence@.pass2.len() && unit_named(
                    #[trigger] r.evidence@.pass2[i],
                    x,
                ),
        // the abort flag aggregates exactly the workers' own aborts and a
        // missing macro closure
        r.aborted == (fold_aborted(r.evidence@.pass1) || fold_aborted(r.evidence@.boot)
            || r.evidence@.closure_failed || fold_aborted(r.evidence@.pass2)),
        // the cache traffic and emissions are the workers' own, in order
        r.cache_writes@ == fold_writes(r.evidence@.pass1) + fold_writes(r.evidence@.boot)
            + fold_writes(r.evidence@.pass2),
        r.cache_removes@ == fold_removes(r.evidence@.pass1) + fold_removes(r.evidence@.boot)
            + fold_removes(r.evidence@.pass2),
        r.emissions@ == fold_emits(r.evidence@.pass1) + fold_emits(r.evidence@.boot)
            + fold_emits(r.evidence@.pass2),
{
    let mut table = table;
    let ghost table0 = table;
    let mut names = table.names();
    let ghost unsorted_base = names@;
    sort_names(&mut names);
    let ghost base_names_v = names@;
    proof {
        assert(views_of(unsorted_base) =~= key_views(table0));
    }

    // pass 1: sieve macros, emit what can already be emitted
    let results1 = run_pass(&table, &names, true, world);
    let ghost rs1v = results1@;
    let out1 = collect_pass(results1);
    let mut aborted = out1.aborted;
    let mut cache_writes = out1.cache_writes;
    let mut cache_removes = out1.cache_removes;
    let mut emissions = out1.emits;

    // the discovered macro modules, by name
    let macros_found = names_of_modules(&out1.macros);
    let had_macros = out1.macros.len() > 0;

    // grow the table by every sieved macro module
    grow_table(&mut table, out1.macros);
    let ghost grown_v = table;
    names = table.names();
    let ghost unsorted_sched = names@;
    sort_names(&mut names);
    let ghost sched_v = names@;
    proof {
        assert(views_of(unsorted_sched) =~= key_views(grown_v));
    }

    // bootstrap: one sieve pass over the grown table, then each macro
    // tool's dependency closure and link
    let empty_units = UnitTable::new();
    let ghost mut boot_units_v = empty_units;
    let ghost mut rsbv: Seq<WorkerResult> = Seq::empty();
    let mut macro_links: Vec<(Name, Vec<Name>)> = Vec::new();
    let mut closure_failed = false;
    if !aborted && had_macros {
        let results_b = run_pass(&table, &names, true, world);
        proof {
            rsbv = results_b@;
        }
        let outb = collect_pass(results_b);
        let mut w = outb.cache_writes;
        cache_writes.append(&mut w);
        let mut rm = outb.cache_removes;
        cache_removes.append(&mut rm);
        let mut e = outb.emits;
        emissions.append(&mut e);
        proof {
            boot_units_v = outb.units;
        }
        if outb.aborted {
            aborted = true;
        } else {
            let (links, failed) = link_macros(&outb.units, &macros_found);
            macro_links = links;
            closure_failed = failed;
            if closure_failed {
                aborted = true;
            }
        }
    }

    // pass 2: macros now available
    let mut units = UnitTable::new();
    let ghost mut rs2v: Seq<WorkerResult> = Seq::empty();
    if !aborted {
        let results2 = run_pass(&table, &names, false, world);
        proof {
            rs2v = results2@;
        }
        let out2 = collect_pass(results2);
        let mut w = out2.cache_writes;
        cache_writes.append(&mut w);
        let mut rm = out2.cache_removes;
        cache_removes.append(&mut rm);
        let mut e = out2.emits;
        emissions.append(&mut e);
        if out2.aborted {
            aborted = true;
        } else {
            units = out2.units;
        }
    }
    // artifact phase: objects over each selected artifact's closure, then
    // the link itself unless this is a check-only build
    let mut built: Vec<ArtifactBuild> = Vec::new();
    let mut artifact_error = false;
    if !aborted {
        let (b, e) = build_artifacts(&units, artifacts, buildset);
        built = b;
        artifact_error = e;
    }

    let status: usize = if aborted || artifact_error {
        9
    } else {
        0
    };
    let ghost evidence = BuildEvidence {
        base_names: base_names_v,
        pass1: rs1v,
        grown: grown_v,
        sched: sched_v,
        boot: rsbv,
        boot_units: boot_units_v,
        pass2: rs2v,
        closure_failed,
    };
    proof {
        assert(fold_aborted(Seq::<WorkerResult>::empty()) == false);
        assert(fold_writes(Seq::<WorkerResult>::empty()) == Seq::<(String, Vec<u8>)>::empty());
        assert(fold_removes(Seq::<WorkerResult>::empty()) == Seq::<String>::empty());
        assert(fold_emits(Seq::<WorkerResult>::empty()) == Seq::<EmitKind>::empty());
        assert(cache_writes@ =~= fold_writes(rs1v) + fold_writes(rsbv) + fold_writes(rs2v));
        assert(cache_removes@ =~= fold_removes(rs1v) + fold_removes(rsbv) + fold_removes(rs2v));
        assert(emissions@ =~= fold_emits(rs1v) + fold_emits(rsbv) + fold_emits(rs2v));
    }
    BuildReport {
        units,
        cache_writes,
        cache_removes,
        emissions,
        macros_found,
        macro_links,
        artifacts: built,
        aborted,
        artifact_error,
        status,
        evidence: Ghost(evidence),
    }
}

} // verus!
