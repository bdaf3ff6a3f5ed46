use vstd::prelude::*;
use vstd::string::{StrSliceExecFns, StringExecFns};

verus! {

/// The text a list of fields makes when glued with one separator.
pub open spec fn spec_join(parts: Seq<Seq<char>>, sep: char) -> Seq<char>
    decreases parts.len(),
{
    if parts.len() == 0 {
        Seq::empty()
    } else if parts.len() == 1 {
        parts[0]
    } else {
        parts[0] + seq![sep] + spec_join(parts.skip(1), sep)
    }
}

proof fn lemma_join_snoc(parts: Seq<Seq<char>>, x: Seq<char>, sep: char)
    ensures
        parts.len() == 0 ==> spec_join(parts.push(x), sep) == x,
        parts.len() > 0 ==> spec_join(parts.push(x), sep) == spec_join(parts, sep) + seq![sep]
            + x,
    decreases parts.len(),
{
    if parts.len() == 0 {
        assert(parts.push(x)[0] == x);
    } else if parts.len() == 1 {
        assert(parts.push(x)[0] == parts[0]);
        assert(parts.push(x).skip(1) =~= seq![x]);
        assert(spec_join(seq![x], sep) == x);
    } else {
        assert(parts.push(x).skip(1) =~= parts.skip(1).push(x));
        lemma_join_snoc(parts.skip(1), x, sep);
        assert(parts.push(x)[0] == parts[0]);
        assert(spec_join(parts.push(x), sep) =~= spec_join(parts, sep) + seq![sep] + x);
    }
}

/// Splits an environment-provided search path list on its separator.  The
/// result is exactly the separator-free fields whose rejoining gives the
/// input back: one field at least, even for empty input.
pub fn split_paths(s: &String, sep: char) -> (r: Vec<String>)
    ensures
        r@.len() >= 1,
        spec_join(r.deep_view(), sep) == s@,
        forall|i: int| 0 <= i < r@.len() ==> !r.deep_view()[i].contains(sep),
{
    let st = s.as_str();
    let n = st.unicode_len();
    let mut r: Vec<String> = Vec::new();
    let mut start: usize = 0;
    let mut i: usize = 0;
    proof {
        assert(s@.subrange(0, n as int) =~= s@);
        assert(r.deep_view().push(s@.subrange(0, n as int)) =~= seq![s@]);
        assert(spec_join(seq![s@], sep) == s@);
    }
    while i < n
        invariant
            start <= i <= n,
            n == s@.len(),
            st@ == s@,
            spec_join(r.deep_view().push(s@.subrange(start as int, n as int)), sep) == s@,
            forall|k: int| 0 <= k < r@.len() ==> !r.deep_view()[k].contains(sep),
            forall|k: int| start <= k < i ==> s@[k] != sep,
        decreases n - i,
    {
        let c = st.get_char(i);
        if c == sep {
            let field = String::from_str(st.substring_char(start, i));
            let ghost pre = r.deep_view();
            let ghost fv = s@.subrange(start as int, i as int);
            r.push(field);
            proof {
                assert(r.deep_view() =~= pre.push(fv));
                if fv.contains(sep) {
                    let k = choose|k: int| 0 <= k < fv.len() && fv[k] == sep;
                    assert(s@[start + k] == sep);
                }
                assert forall|k: int|
                    0 <= k < r.deep_view().len() implies !r.deep_view()[k].contains(sep) by {
                    if k < pre.len() {
                        assert(r.deep_view()[k] == pre[k]);
                    }
                }
                lemma_join_snoc(pre, s@.subrange(start as int, n as int), sep);
                lemma_join_snoc(pre, fv, sep);
                lemma_join_snoc(pre.push(fv), s@.subrange(i as int + 1, n as int), sep);
                assert(s@.subrange(start as int, n as int) =~= fv + seq![sep] + s@.subrange(
                    i as int + 1,
                    n as int,
                ));
                if pre.len() == 0 {
                    assert(spec_join(
                        pre.push(fv).push(s@.subrange(i as int + 1, n as int)),
                        sep,
                    ) =~= s@);
                } else {
                    assert(spec_join(
                        pre.push(fv).push(s@.subrange(i as int + 1, n as int)),
                        sep,
                    ) =~= s@);
                }
            }
            start = i + 1;
        }
        i = i + 1;
    }
    let field = String::from_str(st.substring_char(start, n));
    let ghost pre = r.deep_view();
    let ghost fv = s@.subrange(start as int, n as int);
    r.push(field);
    proof {
        assert(r.deep_view() =~= pre.push(fv));
        if fv.contains(sep) {
            let k = choose|k: int| 0 <= k < fv.len() && fv[k] == sep;
            assert(s@[start + k] == sep);
        }
        assert forall|k: int|
            0 <= k < r.deep_view().len() implies !r.deep_view()[k].contains(sep) by {
            if k < pre.len() {
                assert(r.deep_view()[k] == pre[k]);
            }
        }
    }
    r
}

/// A project manifest's build-relevant fields: its name and the native
/// include paths, object paths, package-config entries and compiler and
/// linker flags it contributes.
pub struct Project {
    pub name: String,
    pub cincludes: Vec<String>,
    pub cobjects: Vec<String>,
    pub pkgconfig: Vec<String>,
    pub cflags: Vec<String>,
    pub lflags: Vec<String>,
}

/// Merges a located dependency's native build configuration into the root
/// project: every list of the dependency is appended to the root's, in
/// order, and nothing else of the root changes.
pub fn merge_dependency(root: &mut Project, dep: Project)
    ensures
        final(root).name == old(root).name,
        final(root).cincludes@ == old(root).cincludes@ + dep.cincludes@,
        final(root).cobjects@ == old(root).cobjects@ + dep.cobjects@,
        final(root).pkgconfig@ == old(root).pkgconfig@ + dep.pkgconfig@,
        final(root).cflags@ == old(root).cflags@ + dep.cflags@,
        final(root).lflags@ == old(root).lflags@ + dep.lflags@,
{
    let Project { name: _, cincludes, cobjects, pkgconfig, cflags, lflags } = dep;
    let mut cincludes = cincludes;
    let mut cobjects = cobjects;
    let mut pkgconfig = pkgconfig;
    let mut cflags = cflags;
    let mut lflags = lflags;
    root.cincludes.append(&mut cincludes);
    root.cobjects.append(&mut cobjects);
    root.pkgconfig.append(&mut pkgconfig);
    root.cflags.append(&mut cflags);
    root.lflags.append(&mut lflags);
}

/// Picks the search path a dependency is taken from, given for each path
/// whether it holds the dependency's manifest.  Every candidate is
/// examined and a later one replaces an earlier, so the chosen path is the
/// last that holds the manifest; none found means the dependency cannot be
/// resolved and the build fails.
pub fn find_dependency(present: &Vec<bool>) -> (r: Option<usize>)
    ensures
        r matches Some(i) ==> i < present@.len() && present@[i as int] && (forall|j: int|
            i < j < present@.len() ==> !present@[j]),
        r is None ==> forall|j: int| 0 <= j < present@.len() ==> !present@[j],
{
    let mut found: Option<usize> = None;
    let mut i: usize = 0;
    while i < present.len()
        invariant
            i <= present@.len(),
            found matches Some(f) ==> f < i && present@[f as int] && (forall|j: int|
                f < j < i ==> !present@[j]),
            found is None ==> forall|j: int| 0 <= j < i ==> !present@[j],
        decreases present@.len() - i,
    {
        if present[i] {
            found = Some(i);
        }
        i = i + 1;
    }
    found
}

/// Whether a path list holds a path with this text.
pub fn contains_path(paths: &Vec<String>, p: &String) -> (r: bool)
    ensures
        r == paths.deep_view().contains(p@),
{
    let mut i: usize = 0;
    while i < paths.len()
        invariant
            i <= paths@.len(),
            forall|j: int| 0 <= j < i ==> paths.deep_view()[j] != p@,
        decreases paths@.len() - i,
    {
        if paths[i].eq(p) {
            proof {
                assert(paths.deep_view()[i as int] == p@);
            }
            return true;
        }
        i = i + 1;
    }
    false
}

/// Adds a search path unless an equal one is already there: the search
/// path set only grows, and re-adding changes nothing, which is what keeps
/// revisited diamond dependencies from recursing forever.
pub fn add_search_path(paths: &mut Vec<String>, p: String)
    ensures
        old(paths).deep_view().contains(p@) ==> final(paths)@ == old(paths)@,
        !old(paths).deep_view().contains(p@) ==> final(paths)@ == old(paths)@.push(p),
        final(paths).deep_view().contains(p@),
        forall|q: Seq<char>|
            old(paths).deep_view().contains(q) ==> final(paths).deep_view().contains(q),
{
    let ghost pre = paths.deep_view();
    if !contains_path(paths, &p) {
        paths.push(p);
        proof {
            assert(paths.deep_view() =~= pre.push(p@));
            assert(paths.deep_view()[pre.len() as int] == p@);
            assert forall|q: Seq<char>| pre.contains(q) implies paths.deep_view().contains(
                q,
            ) by {
                let k = choose|k: int| 0 <= k < pre.len() && pre[k] == q;
                assert(paths.deep_view()[k] == q);
            }
        }
    }
}

} // verus!
