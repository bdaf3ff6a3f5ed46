use vstd::prelude::*;
use crate::ast;
use crate::cache::{CachedUnit, MtimeTable, spec_valid_for_reuse};
use crate::codec::{decode_unit, encode_unit, dec_unit, enc_unit};
use crate::loader::{self, ModuleTable};
use crate::make::UnitTable;
use crate::makro::{sieve_extract, macros_extracted, clone_strings};
use crate::name::{Name, clone_names};
use vstd::string::StringExecFns;

verus! {

/// What the flatten, expand and verification collaborators reported for
/// one module in one pass: whether expansion succeeded, whether the module
/// verified, whether expansion reached a complete fixed point, and the
/// source set and dependency set of the flattened form.
pub struct StageObs {
    pub expand_ok: bool,
    pub verify_ok: bool,
    pub complete: bool,
    pub flat_sources: Vec<String>,
    pub flat_deps: Vec<Name>,
}

/// Everything the caller observed about one module before the build: the
/// raw bytes of its cache record if one exists, the record's and the output
/// artifact's modification times, the output path, and the collaborators'
/// reports for the macro-sieve pass and the macro-available pass.
pub struct ModuleWorld {
    pub cache_bytes: Option<Vec<u8>>,
    pub cache_mtime: u64,
    pub out_mtime: u64,
    pub outname: String,
    pub pass1: StageObs,
    pub pass2: StageObs,
}

/// The observed state of the world a build runs against: file modification
/// times and the per-module observations.
pub struct World {
    pub mtimes: MtimeTable,
    pub modules: Vec<(Name, ModuleWorld)>,
}

/// The observations recorded for a module name: the first entry for it.
pub open spec fn spec_world(entries: Seq<(Name, ModuleWorld)>, n: Seq<Seq<char>>) -> Option<
    ModuleWorld,
>
    decreases entries.len(),
{
    if entries.len() == 0 {
        None
    } else if entries[0].0@ == n {
        Some(entries[0].1)
    } else {
        spec_world(entries.skip(1), n)
    }
}

impl World {
    pub fn get(&self, n: &Name) -> (r: Option<&ModuleWorld>)
        ensures
            r is Some <==> spec_world(self.modules@, n@) is Some,
            r matches Some(w) ==> spec_world(self.modules@, n@) == Some(*w),
    {
        let mut i: usize = 0;
        proof {
            assert(self.modules@.skip(0) =~= self.modules@);
        }
        loop
            invariant
                i <= self.modules@.len(),
                spec_world(self.modules@, n@) == spec_world(self.modules@.skip(i as int), n@),
            decreases self.modules@.len() - i,
        {
            if i == self.modules.len() {
                return None;
            }
            proof {
                assert(self.modules@.skip(i as int)[0] == self.modules@[i as int]);
                assert(self.modules@.skip(i as int).skip(1) =~= self.modules@.skip(
                    i as int + 1,
                ));
            }
            if self.modules[i].0.same(n) {
                return Some(&self.modules[i].1);
            }
            i = i + 1;
        }
    }
}

/// One of the emitters a finalized module is handed to, best effort and
/// in a fixed order.
#[derive(PartialEq, Eq, Structural, Clone, Copy, Debug)]
pub enum EmitKind {
    Header,
    BridgeA,
    BridgeB,
    Docs,
    Primary,
}

/// The emissions a freshly verified module gets, in order: public header,
/// both foreign bridges, documentation, and last the primary translation.
pub open spec fn full_emission() -> Seq<EmitKind> {
    seq![EmitKind::Header, EmitKind::BridgeA, EmitKind::BridgeB, EmitKind::Docs, EmitKind::Primary]
}

/// What one worker call produced: the compiled unit if any, the macro
/// modules sieved out, the emitter invocations, a cache record to write, a
/// corrupt cache record to delete, and whether this module sets the global
/// abort flag.
pub struct WorkerResult {
    pub unit: Option<CachedUnit>,
    pub macros: Vec<ast::Module>,
    pub emits: Vec<EmitKind>,
    pub cache_write: Option<(String, Vec<u8>)>,
    pub cache_remove: Option<String>,
    pub abort: bool,
}

/// The cache file path for an output path.
pub open spec fn cachename_of(outname: Seq<char>) -> Seq<char> {
    outname + ".buildcache"@
}

/// The decoded cache record of a module, if its cache file exists and holds
/// a well-formed record.
pub open spec fn probe_of(w: ModuleWorld) -> Option<
    (Seq<Seq<char>>, Seq<char>, Seq<Seq<char>>, Seq<Seq<Seq<char>>>),
> {
    match w.cache_bytes {
        Some(b) => dec_unit(b@),
        None => None,
    }
}

/// A cache file that exists but holds no well-formed record.
pub open spec fn probe_corrupt(w: ModuleWorld) -> bool {
    w.cache_bytes is Some && probe_of(w) is None
}

/// A cache record that may be reused: well formed and not stale.
pub open spec fn probe_hit(w: ModuleWorld, mtimes: Seq<(String, u64)>) -> bool {
    match probe_of(w) {
        Some(rec) => spec_valid_for_reuse(rec.2, mtimes, w.cache_mtime, w.out_mtime),
        None => false,
    }
}

/// The whole per-module contract of the compilation worker, case by case: a
/// valid cache record is returned as is and nothing else happens; a corrupt
/// record is deleted and the module recomputed; a foreign unit becomes a
/// bare passthrough unit, never cached and never sieved; a source module is
/// sieved in the macro pass only, aborts the build when expansion or
/// verification fails, and is cached exactly when its expansion is
/// complete.
pub open spec fn worker_spec(
    table: ModuleTable,
    n: Name,
    macropass: bool,
    mtimes: Seq<(String, u64)>,
    wm: Option<ModuleWorld>,
    r: WorkerResult,
) -> bool {
    match wm {
        None => r.abort && r.unit is None && r.macros@.len() == 0 && r.emits@.len() == 0
            && r.cache_write is None && r.cache_remove is None,
        Some(w) => {
            &&& (r.cache_remove is Some <==> probe_corrupt(w))
            &&& (probe_corrupt(w) ==> (r.cache_remove matches Some(p) && p@ == cachename_of(
                w.outname@,
            )))
            &&& if probe_hit(w, mtimes) {
                match probe_of(w) {
                    Some(rec) => {
                        &&& (r.unit matches Some(u) && u.name@ == rec.0 && u.filepath@ == rec.1
                            && u.sources.deep_view() == rec.2 && crate::cache::dep_views(u.deps@)
                            == rec.3)
                        &&& r.macros@.len() == 0
                        &&& r.emits@.len() == 0
                        &&& r.cache_write is None
                        &&& !r.abort
                    },
                    None => false,
                }
            } else {
                match table.spec_get(n@) {
                    None => r.abort && r.unit is None && r.macros@.len() == 0 && r.emits@.len()
                        == 0 && r.cache_write is None,
                    Some(loader::Module::C(path)) => {
                        &&& !r.abort
                        &&& r.macros@.len() == 0
                        &&& r.emits@.len() == 0
                        &&& r.cache_write is None
                        &&& (r.unit matches Some(u) && u.name@ == n@ && u.filepath@ == path@
                            && u.sources@.len() == 0 && u.deps@.len() == 0)
                    },
                    Some(loader::Module::ZZ(m)) => {
                        let obs = if macropass {
                            w.pass1
                        } else {
                            w.pass2
                        };
                        if obs.expand_ok && obs.verify_ok {
                            &&& !r.abort
                            &&& (macropass ==> macros_extracted(m, r.macros@))
                            &&& (!macropass ==> r.macros@.len() == 0)
                            &&& r.emits@ == full_emission()
                            &&& (r.unit matches Some(u) && u.name@ == n@ && u.filepath@
                                == w.outname@ && u.sources.deep_view()
                                == obs.flat_sources.deep_view() && crate::cache::dep_views(
                                u.deps@,
                            ) == crate::cache::dep_views(obs.flat_deps@))
                            &&& if obs.complete {
                                r.cache_write matches Some(cw) && cw.0@ == cachename_of(
                                    w.outname@,
                                ) && cw.1@ == enc_unit(
                                    n@,
                                    w.outname@,
                                    obs.flat_sources.deep_view(),
                                    crate::cache::dep_views(obs.flat_deps@),
                                )
                            } else {
                                r.cache_write is None
                            }
                        } else {
                            r.abort && r.unit is None && r.macros@.len() == 0 && r.emits@.len()
                                == 0 && r.cache_write is None
                        }
                    },
                }
            }
        },
    }
}

/// Cache idempotence, first half: a cache file holding the record written
/// for a unit reads back as that unit, and while none of the unit's
/// sources is newer than the record or the output, the probe is a hit.
pub proof fn lemma_cache_idempotence(
    w: ModuleWorld,
    mtimes: Seq<(String, u64)>,
    nv: Seq<Seq<char>>,
    fp: Seq<char>,
    ss: Seq<Seq<char>>,
    dd: Seq<Seq<Seq<char>>>,
)
    requires
        w.cache_bytes matches Some(b) && b@ == enc_unit(nv, fp, ss, dd),
        crate::codec::unit_encodable(nv, fp, ss, dd),
        spec_valid_for_reuse(ss, mtimes, w.cache_mtime, w.out_mtime),
    ensures
        probe_of(w) == Some((nv, fp, ss, dd)),
        probe_hit(w, mtimes),
{
    crate::codec::lemma_record_round_trip(nv, fp, ss, dd);
}

/// Cache idempotence, second half: on a hit the worker returns exactly the
/// recorded unit and performs no work — nothing is re-verified, nothing is
/// sieved, nothing is written, and the build is not aborted.
pub proof fn lemma_cache_hit_returns_record(
    table: ModuleTable,
    n: Name,
    macropass: bool,
    mtimes: Seq<(String, u64)>,
    w: ModuleWorld,
    r: WorkerResult,
    nv: Seq<Seq<char>>,
    fp: Seq<char>,
    ss: Seq<Seq<char>>,
    dd: Seq<Seq<Seq<char>>>,
)
    requires
        w.cache_bytes matches Some(b) && b@ == enc_unit(nv, fp, ss, dd),
        crate::codec::unit_encodable(nv, fp, ss, dd),
        spec_valid_for_reuse(ss, mtimes, w.cache_mtime, w.out_mtime),
        worker_spec(table, n, macropass, mtimes, Some(w), r),
    ensures
        r.unit matches Some(u) && u.name@ == nv && u.filepath@ == fp && u.sources.deep_view()
            == ss && crate::cache::dep_views(u.deps@) == dd,
        r.macros@.len() == 0,
        r.cache_write is None,
        r.cache_remove is None,
        !r.abort,
{
    lemma_cache_idempotence(w, mtimes, nv, fp, ss, dd);
}

/// The per-module compilation worker: cache probe, foreign passthrough,
/// sieve, then the outcome of flatten, expansion and verification as the
/// collaborators reported it.  It reads the shared table, never writes it.
pub fn process_module(table: &ModuleTable, n: &Name, macropass: bool, world: &World) -> (r:
    WorkerResult)
    requires
        table.wf(),
    ensures
        worker_spec(
            *table,
            *n,
            macropass,
            world.mtimes.entries@,
            spec_world(world.modules@, n@),
            r,
        ),
{
    let w = match world.get(n) {
        None => {
            return WorkerResult {
                unit: None,
                macros: Vec::new(),
                emits: Vec::new(),
                cache_write: None,
                cache_remove: None,
                abort: true,
            };
        },
        Some(w) => w,
    };
    let mut cache_remove: Option<String> = None;
    match &w.cache_bytes {
        None => {},
        Some(bytes) => {
            match decode_unit(bytes) {
                None => {
                    cache_remove = Some(w.outname.clone().concat(".buildcache"));
                },
                Some(u) => {
                    if u.is_valid_for_reuse(&world.mtimes, w.cache_mtime, w.out_mtime) {
                        return WorkerResult {
                            unit: Some(u),
                            macros: Vec::new(),
                            emits: Vec::new(),
                            cache_write: None,
                            cache_remove: None,
                            abort: false,
                        };
                    }
                },
            }
        },
    }
    match table.get(n) {
        None => WorkerResult {
            unit: None,
            macros: Vec::new(),
            emits: Vec::new(),
            cache_write: None,
            cache_remove,
            abort: true,
        },
        Some(loader::Module::C(path)) => WorkerResult {
            unit: Some(
                CachedUnit {
                    name: n.clone(),
                    filepath: path.clone(),
                    sources: Vec::new(),
                    deps: Vec::new(),
                },
            ),
            macros: Vec::new(),
            emits: Vec::new(),
            cache_write: None,
            cache_remove,
            abort: false,
        },
        Some(loader::Module::ZZ(m)) => {
            let obs = if macropass {
                &w.pass1
            } else {
                &w.pass2
            };
            if obs.expand_ok && obs.verify_ok {
                let macros = if macropass {
                    sieve_extract(m)
                } else {
                    Vec::new()
                };
                let unit = CachedUnit {
                    name: n.clone(),
                    filepath: w.outname.clone(),
                    sources: clone_strings(&obs.flat_sources),
                    deps: clone_names(&obs.flat_deps),
                };
                let cache_write = if obs.complete {
                    let bytes = encode_unit(&unit);
                    Some((w.outname.clone().concat(".buildcache"), bytes))
                } else {
                    None
                };
                let emits: Vec<EmitKind> = vec![
                    EmitKind::Header,
                    EmitKind::BridgeA,
                    EmitKind::BridgeB,
                    EmitKind::Docs,
                    EmitKind::Primary,
                ];
                proof {
                    assert(emits@ =~= full_emission());
                }
                WorkerResult {
                    unit: Some(unit),
                    macros,
                    emits,
                    cache_write,
                    cache_remove,
                    abort: false,
                }
            } else {
                WorkerResult {
                    unit: None,
                    macros: Vec::new(),
                    emits: Vec::new(),
                    cache_write: None,
                    cache_remove,
                    abort: true,
                }
            }
        },
    }
}

/// One scheduler pass: the worker mapped over the name list, in order.
/// Each result is exactly the worker's own outcome for its module — no
/// module's failure changes what any other module produces.
pub fn run_pass(table: &ModuleTable, names: &Vec<Name>, macropass: bool, world: &World) -> (r:
    Vec<WorkerResult>)
    requires
        table.wf(),
    ensures
        r@.len() == names@.len(),
        forall|i: int|
            0 <= i < names@.len() ==> worker_spec(
                *table,
                names@[i],
                macropass,
                world.mtimes.entries@,
                spec_world(world.modules@, names@[i]@),
                #[trigger] r@[i],
            ),
{
    let mut r: Vec<WorkerResult> = Vec::new();
    let mut i: usize = 0;
    while i < names.len()
        invariant
            table.wf(),
            i <= names@.len(),
            r@.len() == i,
            forall|j: int|
                0 <= j < i ==> worker_spec(
                    *table,
                    names@[j],
                    macropass,
                    world.mtimes.entries@,
                    spec_world(world.modules@, names@[j]@),
                    #[trigger] r@[j],
                ),
        decreases names@.len() - i,
    {
        let wr = process_module(table, &names[i], macropass, world);
        r.push(wr);
        i = i + 1;
    }
    r
}

/// The cache records a list of worker results writes, in result order.
pub open spec fn fold_writes(rs: Seq<WorkerResult>) -> Seq<(String, Vec<u8>)>
    decreases rs.len(),
{
    if rs.len() == 0 {
        Seq::empty()
    } else {
        (match rs[0].cache_write {
            Some(cw) => seq![cw],
            None => Seq::empty(),
        }) + fold_writes(rs.skip(1))
    }
}

/// The corrupt cache records a list of worker results discards, in order.
pub open spec fn fold_removes(rs: Seq<WorkerResult>) -> Seq<String>
    decreases rs.len(),
{
    if rs.len() == 0 {
        Seq::empty()
    } else {
        (match rs[0].cache_remove {
            Some(cr) => seq![cr],
            None => Seq::empty(),
        }) + fold_removes(rs.skip(1))
    }
}

/// The macro modules a list of worker results sieved out, in order.
pub open spec fn fold_macros(rs: Seq<WorkerResult>) -> Seq<ast::Module>
    decreases rs.len(),
{
    if rs.len() == 0 {
        Seq::empty()
    } else {
        rs[0].macros@ + fold_macros(rs.skip(1))
    }
}

/// The emitter invocations a list of worker results performed, in order.
pub open spec fn fold_emits(rs: Seq<WorkerResult>) -> Seq<EmitKind>
    decreases rs.len(),
{
    if rs.len() == 0 {
        Seq::empty()
    } else {
        rs[0].emits@ + fold_emits(rs.skip(1))
    }
}

/// Whether some worker result of a list set the abort flag.
pub open spec fn fold_aborted(rs: Seq<WorkerResult>) -> bool {
    exists|i: int| 0 <= i < rs.len() && (#[trigger] rs[i]).abort
}

/// A worker result that carries a unit under this name.
pub open spec fn unit_named(r: WorkerResult, x: Seq<Seq<char>>) -> bool {
    r.unit matches Some(u) && u.name@ == x
}

/// One pass's results folded together: the unit table, the sieved macro
/// modules, the emitter invocations, the cache traffic, and whether any
/// worker set the abort flag.
pub struct PassOutcome {
    pub units: UnitTable,
    pub macros: Vec<ast::Module>,
    pub emits: Vec<EmitKind>,
    pub cache_writes: Vec<(String, Vec<u8>)>,
    pub cache_removes: Vec<String>,
    pub aborted: bool,
}

/// Folds worker results into one pass outcome.  The abort flag is set
/// exactly when some worker set its own; the macro modules, emitter
/// invocations and cache traffic are the workers' own, concatenated in
/// order; every unit produced is entered into the table under its name,
/// a later result of the same name replacing an earlier, and the table
/// holds nothing else.
pub fn collect_pass(results: Vec<WorkerResult>) -> (r: PassOutcome)
    ensures
        r.units.wf(),
        r.aborted == fold_aborted(results@),
        r.macros@ == fold_macros(results@),
        r.emits@ == fold_emits(results@),
        r.cache_writes@ == fold_writes(results@),
        r.cache_removes@ == fold_removes(results@),
        forall|i: int|
            0 <= i < results@.len() ==> ((#[trigger] results@[i]).unit matches Some(u) ==> ((
            forall|j: int| i < j < results@.len() ==> !unit_named(results@[j], u.name@))
                ==> r.units.spec_get(u.name@) == Some(u))),
        forall|x: Seq<Seq<char>>|
            r.units.spec_contains(x) ==> exists|i: int|
                0 <= i < results@.len() && unit_named(#[trigger] results@[i], x),
{
    let mut results = results;
    let ghost all = results@;
    let total: usize = results.len();
    let mut out = PassOutcome {
        units: UnitTable::new(),
        macros: Vec::new(),
        emits: Vec::new(),
        cache_writes: Vec::new(),
        cache_removes: Vec::new(),
        aborted: false,
    };
    let mut done: usize = 0;
    proof {
        assert(all.skip(0) =~= all);
    }
    while results.len() > 0
        invariant
            done <= total,
            all.len() == total,
            results@ =~= all.skip(done as int),
            out.units.wf(),
            out.aborted == (exists|i: int| 0 <= i < done && (#[trigger] all[i]).abort),
            fold_macros(all) == out.macros@ + fold_macros(all.skip(done as int)),
            fold_emits(all) == out.emits@ + fold_emits(all.skip(done as int)),
            fold_writes(all) == out.cache_writes@ + fold_writes(all.skip(done as int)),
            fold_removes(all) == out.cache_removes@ + fold_removes(all.skip(done as int)),
            forall|i: int|
                0 <= i < done ==> ((#[trigger] all[i]).unit matches Some(u) ==> ((forall|j: int|
                    i < j < done ==> !unit_named(all[j], u.name@)) ==> out.units.spec_get(
                    u.name@,
                ) == Some(u))),
            forall|x: Seq<Seq<char>>|
                out.units.spec_contains(x) ==> exists|i: int|
                    0 <= i < done && unit_named(#[trigger] all[i], x),
        decreases results@.len(),
    {
        let wr = results.remove(0);
        proof {
            assert(all.skip(done as int)[0] == all[done as int]);
            assert(results@ =~= all.skip(done as int + 1));
            assert(all.skip(done as int).skip(1) =~= all.skip(done as int + 1));
        }
        let ghost cur = all[done as int];
        let ghost pre_units = out.units;
        let WorkerResult { unit, mut macros, mut emits, cache_write, cache_remove, abort } = wr;
        if let Some(u) = unit {
            let key = u.name.clone();
            out.units.insert(key, u);
        }
        out.macros.append(&mut macros);
        out.emits.append(&mut emits);
        if let Some(cw) = cache_write {
            out.cache_writes.push(cw);
        }
        if let Some(cr) = cache_remove {
            out.cache_removes.push(cr);
        }
        if abort {
            out.aborted = true;
        }
        proof {
            if !out.aborted {
                assert(forall|i: int| 0 <= i < done + 1 ==> !(#[trigger] all[i]).abort);
            } else {
                if all[done as int].abort {
                } else {
                    let k = choose|k: int| 0 <= k < done && (#[trigger] all[k]).abort;
                    assert(all[k].abort);
                }
            }
            match cur.cache_write {
                Some(cw) => {
                    assert(fold_writes(all.skip(done as int)) == seq![cw] + fold_writes(
                        all.skip(done as int + 1),
                    ));
                },
                None => {},
            }
            match cur.cache_remove {
                Some(cr) => {
                    assert(fold_removes(all.skip(done as int)) == seq![cr] + fold_removes(
                        all.skip(done as int + 1),
                    ));
                },
                None => {},
            }
            assert(fold_macros(all) =~= out.macros@ + fold_macros(all.skip(done as int + 1)));
            assert(fold_emits(all) =~= out.emits@ + fold_emits(all.skip(done as int + 1)));
            assert(fold_writes(all) =~= out.cache_writes@ + fold_writes(
                all.skip(done as int + 1),
            ));
            assert(fold_removes(all) =~= out.cache_removes@ + fold_removes(
                all.skip(done as int + 1),
            ));
            assert forall|i: int|
                0 <= i < done + 1 implies ((#[trigger] all[i]).unit matches Some(u) ==> ((forall|
                j: int,
            | i < j < done + 1 ==> !unit_named(all[j], u.name@)) ==> out.units.spec_get(u.name@)
                == Some(u))) by {
                match all[i].unit {
                    Some(u) => {
                        if i < done {
                            if forall|j: int| i < j < done + 1 ==> !unit_named(all[j], u.name@) {
                                assert(!unit_named(cur, u.name@));
                                match cur.unit {
                                    Some(u2) => {
                                        assert(u2.name@ != u.name@);
                                        assert(out.units.spec_get(u.name@)
                                            == pre_units.spec_get(u.name@));
                                    },
                                    None => {},
                                }
                            }
                        }
                    },
                    None => {},
                }
            }
            assert forall|x: Seq<Seq<char>>|
                out.units.spec_contains(x) implies exists|i: int|
                0 <= i < done + 1 && unit_named(#[trigger] all[i], x) by {
                match cur.unit {
                    Some(u2) => {
                        if x == u2.name@ {
                            assert(unit_named(all[done as int], x));
                        } else {
                            assert(pre_units.spec_contains(x));
                            let k = choose|k: int| 0 <= k < done && unit_named(all[k], x);
                            assert(unit_named(all[k], x));
                        }
                    },
                    None => {
                        let k = choose|k: int| 0 <= k < done && unit_named(all[k], x);
                        assert(unit_named(all[k], x));
                    },
                }
            }
        }
        done = done + 1;
    }
    proof {
        assert(done == total);
        assert(all.skip(done as int).len() == 0);
        assert(fold_macros(all.skip(done as int)) == Seq::<ast::Module>::empty());
        assert(fold_emits(all.skip(done as int)) == Seq::<EmitKind>::empty());
        assert(fold_writes(all.skip(done as int)) == Seq::<(String, Vec<u8>)>::empty());
        assert(fold_removes(all.skip(done as int)) == Seq::<String>::empty());
        assert(out.macros@ =~= fold_macros(all));
        assert(out.emits@ =~= fold_emits(all));
        assert(out.cache_writes@ =~= fold_writes(all));
        assert(out.cache_removes@ =~= fold_removes(all));
    }
    out
}

} // verus!
