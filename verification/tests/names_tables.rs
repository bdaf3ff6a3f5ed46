use zz_build::cache::CachedUnit;
use zz_build::make::{dep_closure, UnitTable, artifact_selected, ArtifactType};
use zz_build::name::{sort_names, Name, Rel};
use zz_build::project::{add_search_path, find_dependency, merge_dependency, split_paths, Project};
use zz_build::BuildSet;

fn s(x: &str) -> String {
    x.to_string()
}

fn name(parts: &[&str]) -> Name {
    Name { segments: parts.iter().map(|p| p.to_string()).collect() }
}

#[test]
fn name_compare_orders_segmentwise() {
    assert_eq!(name(&["a"]).compare(&name(&["a"])), Rel::Equal);
    assert_eq!(name(&["a"]).compare(&name(&["b"])), Rel::Less);
    assert_eq!(name(&["b"]).compare(&name(&["a"])), Rel::Greater);
    assert_eq!(name(&["a"]).compare(&name(&["a", "x"])), Rel::Less);
    assert_eq!(name(&["a", "x"]).compare(&name(&["a"])), Rel::Greater);
    assert_eq!(name(&["", "p"]).compare(&name(&["p"])), Rel::Less);
}

#[test]
fn name_absolute() {
    assert!(name(&["", "p"]).is_absolute());
    assert!(!name(&["p"]).is_absolute());
    assert!(!name(&[]).is_absolute());
}

#[test]
fn sort_names_is_deterministic_order() {
    let mut v = vec![name(&["b"]), name(&["a", "x"]), name(&["a"]), name(&["a"])];
    sort_names(&mut v);
    let got: Vec<Vec<String>> = v.into_iter().map(|n| n.segments).collect();
    assert_eq!(
        got,
        vec![
            vec![s("a")],
            vec![s("a")],
            vec![s("a"), s("x")],
            vec![s("b")],
        ]
    );
    // the same names in another arrival order sort to the same list
    let mut w = vec![name(&["a"]), name(&["a", "x"]), name(&["a"]), name(&["b"])];
    sort_names(&mut w);
    let got2: Vec<Vec<String>> = w.into_iter().map(|n| n.segments).collect();
    assert_eq!(
        got2,
        vec![
            vec![s("a")],
            vec![s("a")],
            vec![s("a"), s("x")],
            vec![s("b")],
        ]
    );
}

fn unit(n: &[&str], deps: &[&[&str]]) -> CachedUnit {
    CachedUnit {
        name: name(n),
        filepath: s("out"),
        sources: vec![],
        deps: deps.iter().map(|d| name(d)).collect(),
    }
}

#[test]
fn closure_visits_each_dependency_once() {
    let mut t = UnitTable::new();
    t.insert(name(&["a"]), unit(&["a"], &[&["b"], &["c"]]));
    t.insert(name(&["b"]), unit(&["b"], &[&["c"]]));
    t.insert(name(&["c"]), unit(&["c"], &[]));
    t.insert(name(&["d"]), unit(&["d"], &[]));
    let order = dep_closure(&t, &name(&["a"])).expect("closure must exist");
    let got: Vec<Vec<String>> = order.into_iter().map(|n| n.segments).collect();
    assert_eq!(got, vec![vec![s("a")], vec![s("b")], vec![s("c")]]);
}

#[test]
fn closure_handles_cycles() {
    let mut t = UnitTable::new();
    t.insert(name(&["a"]), unit(&["a"], &[&["b"]]));
    t.insert(name(&["b"]), unit(&["b"], &[&["a"]]));
    let order = dep_closure(&t, &name(&["a"])).expect("closure must exist");
    assert_eq!(order.len(), 2);
}

#[test]
fn closure_missing_dependency_fails() {
    let mut t = UnitTable::new();
    t.insert(name(&["a"]), unit(&["a"], &[&["missing"]]));
    assert!(dep_closure(&t, &name(&["a"])).is_none());
    assert!(dep_closure(&t, &name(&["missing"])).is_none());
}

#[test]
fn unit_table_replaces_on_same_name() {
    let mut t = UnitTable::new();
    t.insert(name(&["a"]), unit(&["a"], &[]));
    t.insert(name(&["a"]), unit(&["a"], &[&["b"]]));
    assert_eq!(t.entries.len(), 1);
    let got = t.get(&name(&["a"])).expect("present");
    assert_eq!(got.deps.len(), 1);
}

#[test]
fn artifact_selection_follows_build_set() {
    assert!(artifact_selected(ArtifactType::Test, BuildSet::Tests));
    assert!(!artifact_selected(ArtifactType::Test, BuildSet::Run));
    assert!(!artifact_selected(ArtifactType::Test, BuildSet::All));
    assert!(artifact_selected(ArtifactType::Exe, BuildSet::Run));
    assert!(artifact_selected(ArtifactType::Exe, BuildSet::Check));
    assert!(!artifact_selected(ArtifactType::Lib, BuildSet::Run));
    assert!(artifact_selected(ArtifactType::Lib, BuildSet::All));
    assert!(!artifact_selected(ArtifactType::Macro, BuildSet::Run));
    assert!(artifact_selected(ArtifactType::Macro, BuildSet::Check));
}

#[test]
fn find_dependency_last_match_wins() {
    assert_eq!(find_dependency(&vec![false, true, false, true, false]), Some(3));
    assert_eq!(find_dependency(&vec![true]), Some(0));
    assert_eq!(find_dependency(&vec![false, false]), None);
    assert_eq!(find_dependency(&vec![]), None);
}

#[test]
fn search_paths_grow_idempotently() {
    let mut paths = vec![s("/a/modules")];
    add_search_path(&mut paths, s("/b/modules"));
    assert_eq!(paths.len(), 2);
    add_search_path(&mut paths, s("/b/modules"));
    assert_eq!(paths.len(), 2);
    add_search_path(&mut paths, s("/a/modules"));
    assert_eq!(paths.len(), 2);
}

#[test]
fn split_paths_on_separator() {
    assert_eq!(split_paths(&s("/a:/b:/c"), ':'), vec![s("/a"), s("/b"), s("/c")]);
    assert_eq!(split_paths(&s(""), ':'), vec![s("")]);
    assert_eq!(split_paths(&s("/a"), ':'), vec![s("/a")]);
    assert_eq!(split_paths(&s("/a::/b"), ':'), vec![s("/a"), s(""), s("/b")]);
    assert_eq!(split_paths(&s("/a:"), ':'), vec![s("/a"), s("")]);
    assert_eq!(split_paths(&s("c\\x;d\\y"), ';'), vec![s("c\\x"), s("d\\y")]);
}

#[test]
fn merge_dependency_appends_config() {
    let mut root = Project {
        name: s("root"),
        cincludes: vec![s("i1")],
        cobjects: vec![],
        pkgconfig: vec![s("p1")],
        cflags: vec![],
        lflags: vec![s("-lroot")],
    };
    let dep = Project {
        name: s("dep"),
        cincludes: vec![s("i2")],
        cobjects: vec![s("o1")],
        pkgconfig: vec![],
        cflags: vec![s("-O2")],
        lflags: vec![s("-ldep")],
    };
    merge_dependency(&mut root, dep);
    assert_eq!(root.name, "root");
    assert_eq!(root.cincludes, vec![s("i1"), s("i2")]);
    assert_eq!(root.cobjects, vec![s("o1")]);
    assert_eq!(root.pkgconfig, vec![s("p1")]);
    assert_eq!(root.cflags, vec![s("-O2")]);
    assert_eq!(root.lflags, vec![s("-lroot"), s("-ldep")]);
}
