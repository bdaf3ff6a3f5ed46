use zz_build::ast::{CExpr, Def, Local, Location, Module, Visibility};
use zz_build::loader::{
    header_module_name, load, source_module_name, LoadedFile, Module as TableModule, ModuleTable,
};
use zz_build::makro::{sieve, sieve_extract};
use zz_build::name::Name;
use zz_build::Error;

fn s(x: &str) -> String {
    x.to_string()
}

fn name(parts: &[&str]) -> Name {
    Name { segments: parts.iter().map(|p| p.to_string()).collect() }
}

fn loc(file: &str, line: usize) -> Location {
    Location { file: s(file), line }
}

fn fn_local(n: &str) -> Local {
    Local {
        name: s(n),
        vis: Visibility::Shared,
        loc: loc("m.zz", 1),
        def: Def::Function {
            ret: None,
            args: vec![],
            body: CExpr { expr: s("{}"), loc: loc("m.zz", 1) },
        },
    }
}

fn macro_local(n: &str, body: &str) -> Local {
    Local {
        name: s(n),
        vis: Visibility::Export,
        loc: loc("m.zz", 5),
        def: Def::Macro {
            args: vec![s("x")],
            body: CExpr { expr: s(body), loc: loc("m.zz", 5) },
            imports: vec![],
        },
    }
}

fn module(n: &[&str], locals: Vec<Local>) -> Module {
    Module {
        name: name(n),
        source: s("src/m.zz"),
        locals,
        includes: vec![],
        imports: vec![],
        sources: vec![s("src/m.zz")],
    }
}

#[test]
fn sieve_extracts_macros_and_keeps_the_rest() {
    let mut m = module(&["", "p", "m"], vec![
        fn_local("f"),
        macro_local("double", "2*x"),
        fn_local("g"),
    ]);
    let out = sieve(&mut m);
    assert_eq!(out.len(), 1);
    assert_eq!(out[0].name.segments, vec![s(""), s("p"), s("m"), s("double")]);
    assert_eq!(out[0].locals.len(), 1);
    assert_eq!(out[0].locals[0].name, "double");
    assert!(matches!(out[0].locals[0].def, Def::Function { .. }));
    assert_eq!(out[0].sources, vec![s("src/m.zz")]);
    let left: Vec<String> = m.locals.iter().map(|l| l.name.clone()).collect();
    assert_eq!(left, vec![s("f"), s("g")]);
}

#[test]
fn sieve_is_idempotent() {
    let mut m = module(&["", "p"], vec![macro_local("mac", "1"), fn_local("f")]);
    let first = sieve(&mut m);
    assert_eq!(first.len(), 1);
    let second = sieve(&mut m);
    assert!(second.is_empty());
    assert_eq!(m.locals.len(), 1);
}

#[test]
fn sieve_of_extracted_module_finds_nothing() {
    let m = module(&["", "p"], vec![macro_local("mac", "1")]);
    let out = sieve_extract(&m);
    assert_eq!(out.len(), 1);
    let nested = sieve_extract(&out[0]);
    assert!(nested.is_empty());
}

#[test]
fn sieve_extract_leaves_module_alone() {
    let m = module(&["", "p"], vec![macro_local("mac", "1"), fn_local("f")]);
    let out = sieve_extract(&m);
    assert_eq!(out.len(), 1);
    assert_eq!(m.locals.len(), 2);
}

#[test]
fn source_names_follow_the_stem_rule() {
    let prefix = name(&["", "proj"]);
    assert_eq!(source_module_name(&prefix, &s("lib")).segments, vec![s(""), s("proj")]);
    assert_eq!(
        source_module_name(&prefix, &s("util")).segments,
        vec![s(""), s("proj"), s("util")]
    );
    assert_eq!(
        header_module_name(&prefix, &s("lib")).segments,
        vec![s(""), s("proj"), s("lib")]
    );
}

#[test]
fn load_enters_every_file_under_its_name() {
    let mut table = ModuleTable::new();
    let prefix = name(&["", "proj"]);
    load(&mut table, &prefix, vec![
        LoadedFile::Header { stem: s("sys"), path: s("src/sys.h") },
        LoadedFile::Source { stem: s("lib"), module: module(&[], vec![fn_local("f")]) },
        LoadedFile::Source { stem: s("util"), module: module(&[], vec![]) },
    ]);
    assert_eq!(table.len(), 3);
    assert!(matches!(table.get(&name(&["", "proj", "sys"])), Some(TableModule::C(_))));
    match table.get(&name(&["", "proj"])) {
        Some(TableModule::ZZ(m)) => assert_eq!(m.name.segments, vec![s(""), s("proj")]),
        _ => panic!("the root stem must name the prefix itself"),
    }
    assert!(table.get(&name(&["", "proj", "util"])).is_some());
    assert!(table.get(&name(&["", "proj", "missing"])).is_none());
}

#[test]
fn module_table_insert_replaces() {
    let mut table = ModuleTable::new();
    table.insert(name(&["a"]), TableModule::C(s("one.h")));
    table.insert(name(&["a"]), TableModule::C(s("two.h")));
    assert_eq!(table.len(), 1);
    match table.get(&name(&["a"])) {
        Some(TableModule::C(p)) => assert_eq!(p, "two.h"),
        _ => panic!("replaced binding must be the later one"),
    }
}

#[test]
fn error_carries_message_and_details() {
    let e = Error::new(s("bad module"), vec![(loc("src/m.zz", 3), s("here"))]);
    assert_eq!(e.message, "bad module");
    assert_eq!(e.details.len(), 1);
    assert_eq!(e.details[0].0.line(), 3);
    assert_eq!(e.details[0].0.file, "src/m.zz");
}

#[test]
fn location_renders_file_and_line() {
    assert_eq!(loc("src/m.zz", 3).to_text(), "src/m.zz:3");
    assert_eq!(loc("a.zz", 0).to_text(), "a.zz:0");
    assert_eq!(loc("a.zz", 1907).to_text(), "a.zz:1907");
}
