use vstd::prelude::*;
use crate::ast::{self, Local, Def, Visibility, is_macro_local};

verus! {

/// The declarations of a module that stay after sieving, in order.
pub open spec fn non_macro_locals(s: Seq<Local>) -> Seq<Local>
    decreases s.len(),
{
    if s.len() == 0 {
        Seq::empty()
    } else if is_macro_local(s[0]) {
        non_macro_locals(s.skip(1))
    } else {
        seq![s[0]] + non_macro_locals(s.skip(1))
    }
}

/// The macro declarations of a module, in order.
pub open spec fn macro_locals(s: Seq<Local>) -> Seq<Local>
    decreases s.len(),
{
    if s.len() == 0 {
        Seq::empty()
    } else if is_macro_local(s[0]) {
        seq![s[0]] + macro_locals(s.skip(1))
    } else {
        macro_locals(s.skip(1))
    }
}

/// Appending one declaration extends exactly one side of the partition.
pub proof fn lemma_locals_snoc(s: Seq<Local>, x: Local)
    ensures
        is_macro_local(x) ==> non_macro_locals(s.push(x)) == non_macro_locals(s)
            && macro_locals(s.push(x)) == macro_locals(s).push(x),
        !is_macro_local(x) ==> non_macro_locals(s.push(x)) == non_macro_locals(s).push(x)
            && macro_locals(s.push(x)) == macro_locals(s),
    decreases s.len(),
{
    if s.len() == 0 {
        assert(s =~= Seq::<Local>::empty());
        assert(s.push(x).skip(1) =~= Seq::<Local>::empty());
        assert(s.push(x)[0] == x);
        assert(macro_locals(Seq::<Local>::empty()) == Seq::<Local>::empty());
        assert(non_macro_locals(Seq::<Local>::empty()) == Seq::<Local>::empty());
        if is_macro_local(x) {
            assert(macro_locals(s.push(x)) == seq![x] + macro_locals(s.push(x).skip(1)));
            assert(macro_locals(s.push(x)) =~= macro_locals(s).push(x));
        } else {
            assert(non_macro_locals(s.push(x)) == seq![x] + non_macro_locals(
                s.push(x).skip(1),
            ));
            assert(non_macro_locals(s.push(x)) =~= non_macro_locals(s).push(x));
        }
    } else {
        assert(s.push(x).skip(1) =~= s.skip(1).push(x));
        lemma_locals_snoc(s.skip(1), x);
        if is_macro_local(s[0]) {
            if is_macro_local(x) {
                assert(macro_locals(s.push(x)) =~= macro_locals(s).push(x));
            }
        } else {
            if is_macro_local(x) {
                assert(non_macro_locals(s.push(x)) =~= non_macro_locals(s));
            } else {
                assert(non_macro_locals(s.push(x)) =~= non_macro_locals(s).push(x));
            }
        }
    }
}

/// The sieve is a partition: nothing is lost and nothing is duplicated.
pub proof fn lemma_sieve_partition(s: Seq<Local>)
    ensures
        non_macro_locals(s).len() + macro_locals(s).len() == s.len(),
        forall|i: int|
            0 <= i < non_macro_locals(s).len() ==> !is_macro_local(
                #[trigger] non_macro_locals(s)[i],
            ),
        forall|i: int|
            0 <= i < macro_locals(s).len() ==> is_macro_local(#[trigger] macro_locals(s)[i]),
    decreases s.len(),
{
    if s.len() > 0 {
        lemma_sieve_partition(s.skip(1));
    }
}

/// Sieving what a sieve left behind finds no macro: the sieve is idempotent.
pub proof fn lemma_sieve_idempotent(s: Seq<Local>)
    ensures
        macro_locals(non_macro_locals(s)) =~= Seq::<Local>::empty(),
        non_macro_locals(non_macro_locals(s)) =~= non_macro_locals(s),
    decreases s.len(),
{
    lemma_sieve_partition(s);
    lemma_no_macro_fixed(non_macro_locals(s));
}

/// On a declaration list without macros the sieve changes nothing.
pub proof fn lemma_no_macro_fixed(s: Seq<Local>)
    requires
        forall|i: int| 0 <= i < s.len() ==> !is_macro_local(#[trigger] s[i]),
    ensures
        macro_locals(s) =~= Seq::<Local>::empty(),
        non_macro_locals(s) =~= s,
    decreases s.len(),
{
    if s.len() > 0 {
        assert(forall|i: int|
            0 <= i < s.skip(1).len() ==> !is_macro_local(#[trigger] s.skip(1)[i]));
        lemma_no_macro_fixed(s.skip(1));
        assert(non_macro_locals(s) =~= seq![s[0]] + s.skip(1));
        assert(seq![s[0]] + s.skip(1) =~= s);
    }
}

/// What the module extracted for one macro declaration must look like: it
/// lives under the parent's name extended by the macro's own name, carries
/// the parent's source set for staleness, imports what the macro imported,
/// and holds one exported entry function with the macro's body.  A sieved
/// module therefore contains no macro declaration itself.
pub open spec fn sieved_matches(parent: ast::Module, l: Local, m: ast::Module) -> bool {
    &&& m.name@ == parent.name@.push(l.name@)
    &&& m.source == parent.source
    &&& m.sources@ == parent.sources@
    &&& m.includes@.len() == 0
    &&& m.locals@.len() == 1
    &&& m.locals@[0].name@ == l.name@
    &&& m.locals@[0].vis == Visibility::Export
    &&& (l.def matches Def::Macro { args, body, imports } ==> (m.imports == imports && (
    m.locals@[0].def matches Def::Function { ret, args: fargs, body: fbody } && ret is None
        && fargs@.len() == 0 && fbody == body)))
}

/// Extracts every macro declaration of a module as a standalone compilable
/// unit and leaves the module with exactly its other declarations, in
/// order.  Feeding the module to the sieve again extracts nothing.
pub fn sieve(module: &mut ast::Module) -> (r: Vec<ast::Module>)
    ensures
        final(module).locals@ == non_macro_locals(old(module).locals@),
        final(module).name == old(module).name,
        final(module).source == old(module).source,
        final(module).includes == old(module).includes,
        final(module).imports == old(module).imports,
        final(module).sources == old(module).sources,
        r@.len() == macro_locals(old(module).locals@).len(),
        forall|i: int|
            0 <= i < r@.len() ==> sieved_matches(
                *old(module),
                macro_locals(old(module).locals@)[i],
                #[trigger] r@[i],
            ),
{
    let ghost orig = module.locals@;
    let total: usize = module.locals.len();
    let mut rest: Vec<Local> = Vec::new();
    let mut out: Vec<ast::Module> = Vec::new();
    let mut done: usize = 0;
    proof {
        assert(orig.take(0) =~= Seq::<Local>::empty());
    }
    while module.locals.len() > 0
        invariant
            done <= total,
            orig.len() == total,
            module.locals@ =~= orig.skip(done as int),
            rest@ == non_macro_locals(orig.take(done as int)),
            out@.len() == macro_locals(orig.take(done as int)).len(),
            forall|i: int|
                0 <= i < out@.len() ==> sieved_matches(
                    *old(module),
                    macro_locals(orig.take(done as int))[i],
                    #[trigger] out@[i],
                ),
            module.name == old(module).name,
            module.source == old(module).source,
            module.includes == old(module).includes,
            module.imports == old(module).imports,
            module.sources == old(module).sources,
        decreases module.locals@.len(),
    {
        let l = module.locals.remove(0);
        proof {
            assert(orig.skip(done as int)[0] == orig[done as int]);
            assert(module.locals@ =~= orig.skip(done as int + 1));
            assert(orig.take(done as int + 1) =~= orig.take(done as int).push(
                orig[done as int],
            ));
            lemma_locals_snoc(orig.take(done as int), orig[done as int]);
        }
        match l.def {
            Def::Macro { args, body, imports } => {
                let mut nm = module.name.clone();
                nm.push(l.name.clone());
                let mut locals: Vec<Local> = Vec::new();
                locals.push(
                    Local {
                        name: l.name,
                        vis: Visibility::Export,
                        loc: l.loc,
                        def: Def::Function { ret: None, args: Vec::new(), body },
                    },
                );
                out.push(
                    ast::Module {
                        name: nm,
                        source: module.source.clone(),
                        locals,
                        includes: Vec::new(),
                        imports,
                        sources: clone_strings(&module.sources),
                    },
                );
            },
            def => {
                rest.push(Local { name: l.name, vis: l.vis, loc: l.loc, def });
                proof {
                    assert(rest@.last() == orig[done as int]);
                    assert(rest@ =~= non_macro_locals(orig.take(done as int)).push(
                        orig[done as int],
                    ));
                }
            },
        }
        done = done + 1;
    }
    proof {
        assert(orig.take(done as int) =~= orig);
    }
    module.locals = rest;
    out
}

/// Namespace and visibility of each import: what import equality means for
/// the sieve (locations are diagnostics and carry no identity).
pub open spec fn import_views(s: Seq<ast::Import>) -> Seq<(Seq<Seq<char>>, Visibility)> {
    s.map_values(|i: ast::Import| (i.namespace.deep_view(), i.vis))
}

/// The view-level statement of `sieved_matches`, for an extraction that
/// copies the parent instead of consuming it.
pub open spec fn extracted_matches(parent: ast::Module, l: Local, m: ast::Module) -> bool {
    &&& m.name@ == parent.name@.push(l.name@)
    &&& m.source@ == parent.source@
    &&& m.sources.deep_view() == parent.sources.deep_view()
    &&& m.includes@.len() == 0
    &&& m.locals@.len() == 1
    &&& m.locals@[0].name@ == l.name@
    &&& m.locals@[0].vis == Visibility::Export
    &&& (l.def matches Def::Macro { args, body, imports } ==> (import_views(m.imports@)
        == import_views(imports@) && (m.locals@[0].def matches Def::Function {
        ret,
        args: fargs,
        body: fbody,
    } && ret is None && fargs@.len() == 0 && fbody.expr@ == body.expr@)))
}

/// Every macro declaration of the module became one matching extracted unit.
pub open spec fn macros_extracted(m: ast::Module, out: Seq<ast::Module>) -> bool {
    &&& out.len() == macro_locals(m.locals@).len()
    &&& forall|i: int|
        0 <= i < out.len() ==> extracted_matches(m, macro_locals(m.locals@)[i], #[trigger] out[i])
}

/// Copies a location.
pub fn clone_location(l: &ast::Location) -> (r: ast::Location)
    ensures
        r == *l,
{
    ast::Location { file: l.file.clone(), line: l.line }
}

/// Copies an opaque expression.
pub fn clone_cexpr(e: &ast::CExpr) -> (r: ast::CExpr)
    ensures
        r == *e,
{
    ast::CExpr { expr: e.expr.clone(), loc: clone_location(&e.loc) }
}

/// Copies an import list, keeping each namespace and visibility.
pub fn clone_imports(v: &Vec<ast::Import>) -> (r: Vec<ast::Import>)
    ensures
        import_views(r@) == import_views(v@),
{
    let mut r: Vec<ast::Import> = Vec::new();
    let mut i: usize = 0;
    while i < v.len()
        invariant
            i <= v@.len(),
            r@.len() == i,
            import_views(r@) =~= import_views(v@).take(i as int),
        decreases v@.len() - i,
    {
        r.push(
            ast::Import {
                namespace: clone_strings(&v[i].namespace),
                vis: v[i].vis,
                loc: clone_location(&v[i].loc),
            },
        );
        proof {
            assert(import_views(r@) =~= import_views(v@).take(i as int + 1));
        }
        i = i + 1;
    }
    proof {
        assert(import_views(v@).take(v@.len() as int) =~= import_views(v@));
    }
    r
}

/// Extracts the macro declarations of a module as standalone compilable
/// units without touching the module itself: the worker operates on its
/// own view of the shared table and never mutates it.
pub fn sieve_extract(m: &ast::Module) -> (r: Vec<ast::Module>)
    ensures
        macros_extracted(*m, r@),
{
    let mut out: Vec<ast::Module> = Vec::new();
    let mut i: usize = 0;
    proof {
        assert(m.locals@.take(0) =~= Seq::<Local>::empty());
    }
    while i < m.locals.len()
        invariant
            i <= m.locals@.len(),
            out@.len() == macro_locals(m.locals@.take(i as int)).len(),
            forall|j: int|
                0 <= j < out@.len() ==> extracted_matches(
                    *m,
                    macro_locals(m.locals@.take(i as int))[j],
                    #[trigger] out@[j],
                ),
        decreases m.locals@.len() - i,
    {
        proof {
            assert(m.locals@.take(i as int + 1) =~= m.locals@.take(i as int).push(
                m.locals@[i as int],
            ));
            lemma_locals_snoc(m.locals@.take(i as int), m.locals@[i as int]);
        }
        match &m.locals[i].def {
            Def::Macro { args, body, imports } => {
                let mut nm = m.name.clone();
                nm.push(m.locals[i].name.clone());
                let mut locals: Vec<Local> = Vec::new();
                locals.push(
                    Local {
                        name: m.locals[i].name.clone(),
                        vis: Visibility::Export,
                        loc: clone_location(&m.locals[i].loc),
                        def: Def::Function {
                            ret: None,
                            args: Vec::new(),
                            body: clone_cexpr(body),
                        },
                    },
                );
                out.push(
                    ast::Module {
                        name: nm,
                        source: m.source.clone(),
                        locals,
                        includes: Vec::new(),
                        imports: clone_imports(imports),
                        sources: clone_strings(&m.sources),
                    },
                );
            },
            _ => {},
        }
        i = i + 1;
    }
    proof {
        assert(m.locals@.take(m.locals@.len() as int) =~= m.locals@);
    }
    out
}

/// Copies a list of path strings; the copy is equal entry for entry.
pub fn clone_strings(v: &Vec<String>) -> (r: Vec<String>)
    ensures
        r@ == v@,
{
    let mut r: Vec<String> = Vec::new();
    let mut i: usize = 0;
    while i < v.len()
        invariant
            i <= v@.len(),
            r@ =~= v@.take(i as int),
        decreases v@.len() - i,
    {
        r.push(v[i].clone());
        proof {
            assert(r@ =~= v@.take(i as int + 1));
        }
        i = i + 1;
    }
    proof {
        assert(r@ =~= v@);
    }
    r
}

} // verus!
