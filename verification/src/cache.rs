use vstd::prelude::*;
use crate::name::Name;

verus! {

/// The cacheable result of fully processing one module: where its primary
/// translation was written, which source files contributed to it, and which
/// modules it depends on.
pub struct CachedUnit {
    pub name: Name,
    pub filepath: String,
    pub sources: Vec<String>,
    pub deps: Vec<Name>,
}

/// The views of a unit's dependency names.
pub open spec fn dep_views(deps: Seq<Name>) -> Seq<Seq<Seq<char>>> {
    deps.map_values(|n: Name| n@)
}

/// A snapshot of file modification times, as the caller observed them.
pub struct MtimeTable {
    pub entries: Vec<(String, u64)>,
}

/// The modification time recorded for a path: the first entry that names it.
pub open spec fn spec_mtime(entries: Seq<(String, u64)>, path: Seq<char>) -> Option<u64>
    decreases entries.len(),
{
    if entries.len() == 0 {
        None
    } else if entries[0].0@ == path {
        Some(entries[0].1)
    } else {
        spec_mtime(entries.skip(1), path)
    }
}

impl MtimeTable {
    pub open spec fn spec_lookup(&self, path: Seq<char>) -> Option<u64> {
        spec_mtime(self.entries@, path)
    }

    pub fn new() -> (r: MtimeTable)
        ensures
            r.entries@.len() == 0,
    {
        MtimeTable { entries: Vec::new() }
    }

    /// Records one observed modification time.
    pub fn record(&mut self, path: String, mtime: u64)
        ensures
            final(self).entries@ == old(self).entries@.push((path, mtime)),
    {
        self.entries.push((path, mtime));
    }

    /// Looks a path's modification time up.
    pub fn mtime(&self, path: &String) -> (r: Option<u64>)
        ensures
            r == self.spec_lookup(path@),
    {
        let mut i: usize = 0;
        proof {
            assert(self.entries@.skip(0) =~= self.entries@);
        }
        loop
            invariant
                i <= self.entries@.len(),
                spec_mtime(self.entries@, path@) == spec_mtime(
                    self.entries@.skip(i as int),
                    path@,
                ),
            decreases self.entries@.len() - i,
        {
            if i == self.entries.len() {
                return None;
            }
            proof {
                assert(self.entries@.skip(i as int)[0] == self.entries@[i as int]);
                assert(self.entries@.skip(i as int).skip(1) =~= self.entries@.skip(
                    i as int + 1,
                ));
            }
            if self.entries[i].0.eq(path) {
                return Some(self.entries[i].1);
            }
            i = i + 1;
        }
    }
}

/// A cached unit may be reused only when every one of its recorded sources
/// is known and none is newer than the cache record or the output artifact.
pub open spec fn spec_valid_for_reuse(
    sources: Seq<Seq<char>>,
    mtimes: Seq<(String, u64)>,
    cache_mtime: u64,
    out_mtime: u64,
) -> bool {
    forall|i: int|
        0 <= i < sources.len() ==> (spec_mtime(mtimes, #[trigger] sources[i]) matches Some(t)
            && t <= cache_mtime && t <= out_mtime)
}

impl CachedUnit {
    /// Decides the reuse invariant: true exactly when no recorded source is
    /// newer than either the cache record or the existing output artifact.
    pub fn is_valid_for_reuse(&self, mtimes: &MtimeTable, cache_mtime: u64, out_mtime: u64) -> (r:
        bool)
        ensures
            r == spec_valid_for_reuse(
                self.sources.deep_view(),
                mtimes.entries@,
                cache_mtime,
                out_mtime,
            ),
    {
        let ghost ssv = self.sources.deep_view();
        let mut i: usize = 0;
        while i < self.sources.len()
            invariant
                i <= self.sources@.len(),
                ssv == self.sources.deep_view(),
                ssv.len() == self.sources@.len(),
                forall|j: int|
                    0 <= j < i ==> (spec_mtime(mtimes.entries@, #[trigger] ssv[j]) matches Some(
                        t,
                    ) && t <= cache_mtime && t <= out_mtime),
            decreases self.sources@.len() - i,
        {
            proof {
                assert(ssv[i as int] == self.sources@[i as int]@);
            }
            match mtimes.mtime(&self.sources[i]) {
                None => {
                    return false;
                },
                Some(t) => {
                    if t > cache_mtime || t > out_mtime {
                        return false;
                    }
                },
            }
            i = i + 1;
        }
        true
    }
}

/// Touching a recorded source past either timestamp makes the unit stale.
pub proof fn lemma_touch_recorded_source_invalidates(
    sources: Seq<Seq<char>>,
    mtimes: Seq<(String, u64)>,
    cache_mtime: u64,
    out_mtime: u64,
    i: int,
)
    requires
        0 <= i < sources.len(),
        spec_mtime(mtimes, sources[i]) matches Some(t) && (t > cache_mtime || t > out_mtime),
    ensures
        !spec_valid_for_reuse(sources, mtimes, cache_mtime, out_mtime),
{
}

/// Touching a file outside the recorded source set leaves the decision as
/// it was: validity reads only the recorded sources' times.
pub proof fn lemma_touch_other_file_keeps_decision(
    sources: Seq<Seq<char>>,
    mtimes1: Seq<(String, u64)>,
    mtimes2: Seq<(String, u64)>,
    touched: Seq<char>,
    cache_mtime: u64,
    out_mtime: u64,
)
    requires
        forall|i: int| 0 <= i < sources.len() ==> #[trigger] sources[i] != touched,
        forall|p: Seq<char>|
            p != touched ==> #[trigger] spec_mtime(mtimes1, p) == spec_mtime(mtimes2, p),
    ensures
        spec_valid_for_reuse(sources, mtimes1, cache_mtime, out_mtime) == spec_valid_for_reuse(
            sources,
            mtimes2,
            cache_mtime,
            out_mtime,
        ),
{
    assert forall|i: int| 0 <= i < sources.len() implies #[trigger] spec_mtime(
        mtimes1,
        sources[i],
    ) == spec_mtime(mtimes2, sources[i]) by {
        assert(sources[i] != touched);
    }
}

} // verus!
