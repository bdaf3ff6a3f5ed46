use zz_build::ast::{CExpr, Def, Local, Location, Module, Visibility};
use zz_build::build;
use zz_build::cache::MtimeTable;
use zz_build::codec::decode_unit;
use zz_build::driver::{run_pass, EmitKind, ModuleWorld, StageObs, World};
use zz_build::loader::{Module as TableModule, ModuleTable};
use zz_build::make::{Artifact, ArtifactType};
use zz_build::name::{sort_names, Name};
use zz_build::BuildSet;

fn s(x: &str) -> String {
    x.to_string()
}

fn name(parts: &[&str]) -> Name {
    Name { segments: parts.iter().map(|p| p.to_string()).collect() }
}

fn loc() -> Location {
    Location { file: s("src/m.zz"), line: 1 }
}

fn fn_local(n: &str) -> Local {
    Local {
        name: s(n),
        vis: Visibility::Shared,
        loc: loc(),
        def: Def::Function {
            ret: None,
            args: vec![],
            body: CExpr { expr: s("{}"), loc: loc() },
        },
    }
}

fn macro_local(n: &str, body: &str) -> Local {
    Local {
        name: s(n),
        vis: Visibility::Export,
        loc: loc(),
        def: Def::Macro {
            args: vec![s("x")],
            body: CExpr { expr: s(body), loc: loc() },
            imports: vec![],
        },
    }
}

fn zz_module(n: &[&str], locals: Vec<Local>, source: &str) -> Module {
    Module {
        name: name(n),
        source: s(source),
        locals,
        includes: vec![],
        imports: vec![],
        sources: vec![s(source)],
    }
}

fn obs(ok: bool, complete: bool, sources: &[&str], deps: &[&[&str]]) -> StageObs {
    StageObs {
        expand_ok: true,
        verify_ok: ok,
        complete,
        flat_sources: sources.iter().map(|p| p.to_string()).collect(),
        flat_deps: deps.iter().map(|d| name(d)).collect(),
    }
}

fn entry(
    n: &[&str],
    cache: Option<Vec<u8>>,
    outname: &str,
    cache_mtime: u64,
    out_mtime: u64,
    p1: StageObs,
    p2: StageObs,
) -> (Name, ModuleWorld) {
    (
        name(n),
        ModuleWorld {
            cache_bytes: cache,
            cache_mtime,
            out_mtime,
            outname: s(outname),
            pass1: p1,
            pass2: p2,
        },
    )
}

/// One source module defining a macro, a main module using it: the first
/// pass sieves the macro out, the bootstrap builds and links it, the
/// second pass completes main and caches it.
#[test]
fn macro_staging_end_to_end() {
    let mut table = ModuleTable::new();
    table.insert(
        name(&["", "p", "deflib"]),
        TableModule::ZZ(zz_module(
            &["", "p", "deflib"],
            vec![macro_local("double", "2*x")],
            "src/deflib.zz",
        )),
    );
    table.insert(
        name(&["", "p", "main"]),
        TableModule::ZZ(zz_module(&["", "p", "main"], vec![fn_local("main")], "src/main.zz")),
    );
    let world = World {
        mtimes: MtimeTable::new(),
        modules: vec![
            entry(
                &["", "p", "deflib"],
                None,
                "out/deflib.c",
                0,
                0,
                obs(true, true, &["src/deflib.zz"], &[]),
                obs(true, true, &["src/deflib.zz"], &[]),
            ),
            entry(
                &["", "p", "main"],
                None,
                "out/main.c",
                0,
                0,
                // pass 1: the macro tool is not built yet, expansion is
                // not complete, so nothing may be cached
                obs(true, false, &["src/main.zz"], &[&["", "p", "deflib"]]),
                obs(true, true, &["src/main.zz"], &[&["", "p", "deflib"]]),
            ),
            entry(
                &["", "p", "deflib", "double"],
                None,
                "out/deflib_double.c",
                0,
                0,
                obs(true, true, &["src/deflib.zz"], &[]),
                obs(true, true, &["src/deflib.zz"], &[]),
            ),
        ],
    };
    let artifacts = vec![Artifact {
        name: s("main"),
        main: name(&["p", "main"]),
        typ: ArtifactType::Exe,
    }];
    let report = build(BuildSet::All, table, &world, artifacts);
    assert!(!report.aborted);
    assert_eq!(report.status, 0);
    // the macro was discovered and its tool linked before pass 2
    assert_eq!(report.macros_found.len(), 1);
    assert_eq!(
        report.macros_found[0].segments,
        vec![s(""), s("p"), s("deflib"), s("double")]
    );
    assert_eq!(report.macro_links.len(), 1);
    assert_eq!(report.macro_links[0].0.segments, report.macros_found[0].segments);
    assert_eq!(report.macro_links[0].1.len(), 1);
    // main was completed in pass 2 and its cache record written complete
    let main_unit = report.units.get(&name(&["", "p", "main"])).expect("main compiled");
    assert_eq!(main_unit.filepath, "out/main.c");
    assert_eq!(main_unit.sources, vec![s("src/main.zz")]);
    let wrote_main = report
        .cache_writes
        .iter()
        .any(|(p, _)| p == "out/main.c.buildcache");
    assert!(wrote_main, "main must be cached once complete");
    // the artifact was built over its full closure and linked
    assert_eq!(report.artifacts.len(), 1);
    assert!(report.artifacts[0].linked);
    let objs: Vec<Vec<String>> = report.artifacts[0]
        .objects
        .iter()
        .map(|n| n.segments.clone())
        .collect();
    assert_eq!(objs, vec![
        vec![s(""), s("p"), s("main")],
        vec![s(""), s("p"), s("deflib")],
    ]);
}

/// An incomplete first pass must not cache: main's record appears among
/// the writes only with its completed form.
#[test]
fn incomplete_expansion_is_never_cached() {
    let mut table = ModuleTable::new();
    table.insert(
        name(&["", "p", "main"]),
        TableModule::ZZ(zz_module(&["", "p", "main"], vec![fn_local("main")], "src/main.zz")),
    );
    let world = World {
        mtimes: MtimeTable::new(),
        modules: vec![entry(
            &["", "p", "main"],
            None,
            "out/main.c",
            0,
            0,
            obs(true, false, &["src/main.zz"], &[]),
            obs(true, false, &["src/main.zz"], &[]),
        )],
    };
    let report = build(BuildSet::All, table, &world, vec![]);
    assert_eq!(report.status, 0);
    assert!(report.cache_writes.is_empty());
    // the module was still recomputed and emitted in both passes
    assert_eq!(report.emissions.len(), 10);
    assert_eq!(report.emissions[0], EmitKind::Header);
    assert_eq!(report.emissions[4], EmitKind::Primary);
}

/// Running the pipeline again over an unchanged tree reuses every cache
/// record and writes nothing new.
#[test]
fn cache_idempotence_across_two_runs() {
    let make_table = || {
        let mut table = ModuleTable::new();
        table.insert(
            name(&["", "p", "m"]),
            TableModule::ZZ(zz_module(&["", "p", "m"], vec![fn_local("f")], "src/m.zz")),
        );
        table
    };
    let world1 = World {
        mtimes: MtimeTable::new(),
        modules: vec![entry(
            &["", "p", "m"],
            None,
            "out/m.c",
            0,
            0,
            obs(true, true, &["src/m.zz"], &[]),
            obs(true, true, &["src/m.zz"], &[]),
        )],
    };
    let report1 = build(BuildSet::All, make_table(), &world1, vec![]);
    assert_eq!(report1.status, 0);
    let (_, bytes) = report1
        .cache_writes
        .iter()
        .find(|(p, _)| p == "out/m.c.buildcache")
        .expect("first run must cache")
        .clone();
    let unit1 = report1.units.get(&name(&["", "p", "m"])).expect("compiled");
    let u1_name = unit1.name.segments.clone();
    let u1_path = unit1.filepath.clone();
    let u1_sources = unit1.sources.clone();

    // second run: the record is on disk, nothing touched since
    let mut mtimes = MtimeTable::new();
    mtimes.record(s("src/m.zz"), 50);
    let world2 = World {
        mtimes,
        modules: vec![entry(
            &["", "p", "m"],
            Some(bytes),
            "out/m.c",
            100,
            100,
            obs(false, false, &[], &[]),
            obs(false, false, &[], &[]),
        )],
    };
    let report2 = build(BuildSet::All, make_table(), &world2, vec![]);
    assert_eq!(report2.status, 0);
    assert!(
        report2.cache_writes.is_empty(),
        "an unchanged tree must be all cache hits"
    );
    assert!(report2.cache_removes.is_empty());
    let unit2 = report2.units.get(&name(&["", "p", "m"])).expect("still present");
    assert_eq!(unit2.name.segments, u1_name);
    assert_eq!(unit2.filepath, u1_path);
    assert_eq!(unit2.sources, u1_sources);
}

/// A corrupt cache record is removed and the module recompiled; the build
/// does not fail.
#[test]
fn corrupt_cache_record_is_discarded_and_recomputed() {
    let mut table = ModuleTable::new();
    table.insert(
        name(&["", "p", "m"]),
        TableModule::ZZ(zz_module(&["", "p", "m"], vec![fn_local("f")], "src/m.zz")),
    );
    let world = World {
        mtimes: MtimeTable::new(),
        modules: vec![entry(
            &["", "p", "m"],
            Some(vec![42, 13, 7]),
            "out/m.c",
            100,
            100,
            obs(true, true, &["src/m.zz"], &[]),
            obs(true, true, &["src/m.zz"], &[]),
        )],
    };
    let report = build(BuildSet::All, table, &world, vec![]);
    assert_eq!(report.status, 0);
    assert!(report
        .cache_removes
        .iter()
        .any(|p| p == "out/m.c.buildcache"));
    let written = report
        .cache_writes
        .iter()
        .find(|(p, _)| p == "out/m.c.buildcache")
        .expect("the module must be recompiled and recached");
    let back = decode_unit(&written.1).expect("the fresh record is well formed");
    assert_eq!(back.sources, vec![s("src/m.zz")]);
}

/// One module failing verification does not stop an independent sibling
/// in the same pass, but the build exits non-zero and links nothing.
#[test]
fn abort_containment() {
    let mut table = ModuleTable::new();
    table.insert(
        name(&["", "p", "bad"]),
        TableModule::ZZ(zz_module(&["", "p", "bad"], vec![fn_local("f")], "src/bad.zz")),
    );
    table.insert(
        name(&["", "p", "good"]),
        TableModule::ZZ(zz_module(&["", "p", "good"], vec![fn_local("g")], "src/good.zz")),
    );
    let world = World {
        mtimes: MtimeTable::new(),
        modules: vec![
            entry(
                &["", "p", "bad"],
                None,
                "out/bad.c",
                0,
                0,
                obs(false, false, &["src/bad.zz"], &[]),
                obs(false, false, &["src/bad.zz"], &[]),
            ),
            entry(
                &["", "p", "good"],
                None,
                "out/good.c",
                0,
                0,
                obs(true, true, &["src/good.zz"], &[]),
                obs(true, true, &["src/good.zz"], &[]),
            ),
        ],
    };
    // within the pass, the sibling still completes its own work
    let mut names = vec![name(&["", "p", "bad"]), name(&["", "p", "good"])];
    sort_names(&mut names);
    let results = run_pass(&table, &names, true, &world);
    assert_eq!(results.len(), 2);
    let bad = results.iter().find(|r| r.abort).expect("bad aborts");
    assert!(bad.unit.is_none());
    let good = results.iter().find(|r| !r.abort).expect("good survives");
    assert!(good.unit.is_some());
    assert!(good.cache_write.is_some());
    // the surviving sibling ran all five emitters, in order; the failed
    // module ran none
    assert_eq!(
        good.emits,
        vec![
            EmitKind::Header,
            EmitKind::BridgeA,
            EmitKind::BridgeB,
            EmitKind::Docs,
            EmitKind::Primary,
        ]
    );
    assert!(bad.emits.is_empty());
    // but the whole build exits non-zero and links no artifact
    let artifacts = vec![Artifact {
        name: s("good"),
        main: name(&["p", "good"]),
        typ: ArtifactType::Exe,
    }];
    let report = build(BuildSet::All, table, &world, artifacts);
    assert!(report.aborted);
    assert_ne!(report.status, 0);
    assert!(report.artifacts.is_empty());
    assert!(report.macro_links.is_empty());
}

/// A check-only build prepares objects but hands nothing to the linker.
#[test]
fn check_build_links_nothing() {
    let mut table = ModuleTable::new();
    table.insert(
        name(&["", "p", "m"]),
        TableModule::ZZ(zz_module(&["", "p", "m"], vec![fn_local("main")], "src/m.zz")),
    );
    let world = World {
        mtimes: MtimeTable::new(),
        modules: vec![entry(
            &["", "p", "m"],
            None,
            "out/m.c",
            0,
            0,
            obs(true, true, &["src/m.zz"], &[]),
            obs(true, true, &["src/m.zz"], &[]),
        )],
    };
    let artifacts = vec![Artifact {
        name: s("m"),
        main: name(&["p", "m"]),
        typ: ArtifactType::Exe,
    }];
    let report = build(BuildSet::Check, table, &world, artifacts);
    assert_eq!(report.status, 0);
    assert_eq!(report.artifacts.len(), 1);
    assert!(!report.artifacts[0].linked);
}

/// A missing main module is a fatal artifact error.
#[test]
fn missing_artifact_main_fails_the_build() {
    let table = ModuleTable::new();
    let world = World { mtimes: MtimeTable::new(), modules: vec![] };
    let artifacts = vec![Artifact {
        name: s("ghost"),
        main: name(&["p", "ghost"]),
        typ: ArtifactType::Exe,
    }];
    let report = build(BuildSet::All, table, &world, artifacts);
    assert!(!report.aborted);
    assert!(report.artifact_error);
    assert_ne!(report.status, 0);
}

/// Foreign header units pass through untouched: never cached, no sources.
#[test]
fn foreign_unit_passthrough() {
    let mut table = ModuleTable::new();
    table.insert(name(&["", "p", "sys"]), TableModule::C(s("src/sys.h")));
    let world = World {
        mtimes: MtimeTable::new(),
        modules: vec![entry(
            &["", "p", "sys"],
            None,
            "out/sys.c",
            0,
            0,
            obs(true, true, &[], &[]),
            obs(true, true, &[], &[]),
        )],
    };
    let report = build(BuildSet::All, table, &world, vec![]);
    assert_eq!(report.status, 0);
    // a foreign unit is never handed to the emitters
    assert!(report.emissions.is_empty());
    let u = report.units.get(&name(&["", "p", "sys"])).expect("passthrough unit");
    assert_eq!(u.filepath, "src/sys.h");
    assert!(u.sources.is_empty());
    assert!(u.deps.is_empty());
    assert!(report.cache_writes.is_empty());
}
