//! The lockfile: a persisted record of the last successfully synchronized
//! version per (chart name, repository name). Pure data and accessors; the
//! surrounding program reads and writes the side-car document.
use vstd::prelude::*;

verus! {

/// One lockfile entry: the version of a chart, from a repository, that was
/// last materialized.
pub struct SyncedChart {
    pub name: String,
    pub repo_name: String,
    pub version: String,
}

/// Mathematical image of a [`SyncedChart`].
pub struct SyncedChartKind {
    pub name: Seq<char>,
    pub repo_name: Seq<char>,
    pub version: Seq<char>,
}

impl View for SyncedChart {
    type V = SyncedChartKind;

    open spec fn view(&self) -> SyncedChartKind {
        SyncedChartKind { name: self.name@, repo_name: self.repo_name@, version: self.version@ }
    }
}

impl DeepView for SyncedChart {
    type V = SyncedChartKind;

    open spec fn deep_view(&self) -> SyncedChartKind {
        self.view()
    }
}

impl Clone for SyncedChart {
    fn clone(&self) -> (r: Self)
        ensures
            r@ == self@,
    {
        SyncedChart {
            name: self.name.clone(),
            repo_name: self.repo_name.clone(),
            version: self.version.clone(),
        }
    }
}

/// Position of the first entry keyed by (name, repo), if any.
pub open spec fn lock_index(
    entries: Seq<SyncedChartKind>,
    name: Seq<char>,
    repo: Seq<char>,
    from: int,
) -> Option<int>
    decreases entries.len() - from + 1,
{
    if from < 0 || from >= entries.len() {
        None
    } else if entries[from].name == name && entries[from].repo_name == repo {
        Some(from)
    } else {
        lock_index(entries, name, repo, from + 1)
    }
}

/// The first entry keyed by (name, repo), if any.
pub open spec fn spec_lock_get(
    entries: Seq<SyncedChartKind>,
    name: Seq<char>,
    repo: Seq<char>,
) -> Option<SyncedChartKind> {
    match lock_index(entries, name, repo, 0) {
        Some(i) => Some(entries[i]),
        None => None,
    }
}

pub proof fn lemma_lock_index_some(
    entries: Seq<SyncedChartKind>,
    name: Seq<char>,
    repo: Seq<char>,
    from: int,
    i: int,
)
    requires
        lock_index(entries, name, repo, from) == Some(i),
    ensures
        from <= i < entries.len(),
        entries[i].name == name && entries[i].repo_name == repo,
        forall|k: int|
            from <= k < i ==> !(entries[k].name == name && entries[k].repo_name == repo),
    decreases entries.len() - from + 1,
{
    if from < 0 || from >= entries.len() {
    } else if entries[from].name == name && entries[from].repo_name == repo {
    } else {
        lemma_lock_index_some(entries, name, repo, from + 1, i);
    }
}

proof fn lemma_lock_index_none(
    entries: Seq<SyncedChartKind>,
    name: Seq<char>,
    repo: Seq<char>,
    from: int,
)
    requires
        lock_index(entries, name, repo, from) is None,
        0 <= from,
    ensures
        forall|k: int|
            from <= k < entries.len() ==> !(entries[k].name == name && entries[k].repo_name
                == repo),
    decreases entries.len() - from + 1,
{
    if from >= entries.len() {
    } else {
        lemma_lock_index_none(entries, name, repo, from + 1);
    }
}

/// The ordered collection of lock entries.
pub struct Lockfile {
    pub charts: Vec<SyncedChart>,
}

impl Default for Lockfile {
    /// An empty lockfile; what loading a missing side-car document yields.
    fn default() -> (r: Self)
        ensures
            r.charts@.len() == 0,
    {
        Lockfile { charts: Vec::new() }
    }
}

impl Lockfile {
    /// The entry recorded for (name, repo_name), or none.
    pub fn get(&self, name: &str, repo_name: &str) -> (r: Option<&SyncedChart>)
        ensures
            match r {
                Some(c) => spec_lock_get(self.charts.deep_view(), name@, repo_name@) == Some(c@),
                None => spec_lock_get(self.charts.deep_view(), name@, repo_name@) is None,
            },
    {
        let ghost entries = self.charts.deep_view();
        let mut i: usize = 0;
        while i < self.charts.len()
            invariant
                i <= self.charts@.len(),
                entries == self.charts.deep_view(),
                lock_index(entries, name@, repo_name@, 0) == lock_index(
                    entries,
                    name@,
                    repo_name@,
                    i as int,
                ),
            decreases self.charts@.len() - i,
        {
            proof {
                assert(entries[i as int] == self.charts@[i as int]@);
            }
            if crate::text::str_eq(self.charts[i].name.as_str(), name) && crate::text::str_eq(
                self.charts[i].repo_name.as_str(),
                repo_name,
            ) {
                proof {
                    assert(lock_index(entries, name@, repo_name@, i as int) == Some(i as int));
                }
                return Some(&self.charts[i]);
            }
            i = i + 1;
        }
        None
    }

    /// Inserts or overwrites in place: an existing entry for the key gets the
    /// new version; otherwise a new entry is appended. Never duplicates a key.
    pub fn update(&mut self, name: String, repo_name: String, version: String)
        ensures
            match lock_index(old(self).charts.deep_view(), name@, repo_name@, 0) {
                Some(i) => final(self).charts.deep_view() == old(self).charts.deep_view().update(
                    i,
                    SyncedChartKind { name: name@, repo_name: repo_name@, version: version@ },
                ),
                None => final(self).charts.deep_view() == old(self).charts.deep_view().push(
                    SyncedChartKind { name: name@, repo_name: repo_name@, version: version@ },
                ),
            },
    {
        let ghost entries = self.charts.deep_view();
        let mut i: usize = 0;
        while i < self.charts.len()
            invariant
                i <= self.charts@.len(),
                self.charts@ == old(self).charts@,
                entries == self.charts.deep_view(),
                lock_index(entries, name@, repo_name@, 0) == lock_index(
                    entries,
                    name@,
                    repo_name@,
                    i as int,
                ),
            decreases self.charts@.len() - i,
        {
            proof {
                assert(entries[i as int] == self.charts@[i as int]@);
            }
            if crate::text::str_eq(self.charts[i].name.as_str(), name.as_str())
                && crate::text::str_eq(self.charts[i].repo_name.as_str(), repo_name.as_str()) {
                proof {
                    assert(lock_index(entries, name@, repo_name@, i as int) == Some(i as int));
                }
                let ghost new_kind = SyncedChartKind {
                    name: name@,
                    repo_name: repo_name@,
                    version: version@,
                };
                let entry = SyncedChart { name, repo_name, version };
                self.charts.set(i, entry);
                proof {
                    assert forall|k: int| 0 <= k < entries.len() implies self.charts.deep_view()[k]
                        == entries.update(i as int, new_kind)[k] by {
                        assert(self.charts.deep_view()[k] == self.charts@[k]@);
                    }
                    assert(self.charts.deep_view() =~= entries.update(i as int, new_kind));
                }
                return ;
            }
            i = i + 1;
        }
        let ghost new_kind = SyncedChartKind {
            name: name@,
            repo_name: repo_name@,
            version: version@,
        };
        let entry = SyncedChart { name, repo_name, version };
        self.charts.push(entry);
        proof {
            assert forall|k: int| 0 <= k < entries.len() + 1 implies self.charts.deep_view()[k]
                == entries.push(new_kind)[k] by {
                assert(self.charts.deep_view()[k] == self.charts@[k]@);
            }
            assert(self.charts.deep_view() =~= entries.push(new_kind));
        }
    }
}

/// An update for one key leaves what `get` answers for every other key
/// untouched, and answers the new version for the updated key.
pub proof fn lemma_update_frame(
    before: Seq<SyncedChartKind>,
    after: Seq<SyncedChartKind>,
    name: Seq<char>,
    repo: Seq<char>,
    version: Seq<char>,
)
    requires
        match lock_index(before, name, repo, 0) {
            Some(i) => after == before.update(
                i,
                SyncedChartKind { name, repo_name: repo, version },
            ),
            None => after == before.push(SyncedChartKind { name, repo_name: repo, version }),
        },
    ensures
        spec_lock_get(after, name, repo) == Some(
            SyncedChartKind { name, repo_name: repo, version },
        ),
        forall|n2: Seq<char>, r2: Seq<char>|
            !(n2 == name && r2 == repo) ==> #[trigger] spec_lock_get(after, n2, r2)
                == spec_lock_get(before, n2, r2),
{
    match lock_index(before, name, repo, 0) {
        Some(i) => {
            lemma_lock_index_some(before, name, repo, 0, i);
            lemma_lock_index_step(before, after, name, repo, version, i);
        },
        None => {
            lemma_lock_index_none(before, name, repo, 0);
            lemma_lock_index_step(before, after, name, repo, version, before.len() as int);
        },
    }
}

proof fn lemma_lock_index_prefix_same(
    before: Seq<SyncedChartKind>,
    after: Seq<SyncedChartKind>,
    n2: Seq<char>,
    r2: Seq<char>,
    upto: int,
    from: int,
)
    requires
        0 <= from,
        upto <= before.len(),
        upto <= after.len(),
        forall|k: int| 0 <= k < upto ==> after[k] == before[k],
        forall|k: int|
            upto <= k < before.len() ==> !(before[k].name == n2 && before[k].repo_name == r2),
        forall|k: int|
            upto <= k < after.len() ==> !(after[k].name == n2 && after[k].repo_name == r2),
    ensures
        lock_index(after, n2, r2, from) == lock_index(before, n2, r2, from),
    decreases before.len() + after.len() - 2 * from + 2,
{
    if from >= before.len() && from >= after.len() {
    } else if from < upto {
        lemma_lock_index_prefix_same(before, after, n2, r2, upto, from + 1);
    } else {
        if from < before.len() {
            lemma_lock_index_none_tail(before, n2, r2, from);
        }
        if from < after.len() {
            lemma_lock_index_none_tail(after, n2, r2, from);
        }
    }
}

proof fn lemma_lock_index_none_tail(
    entries: Seq<SyncedChartKind>,
    n2: Seq<char>,
    r2: Seq<char>,
    from: int,
)
    requires
        0 <= from,
        forall|k: int|
            from <= k < entries.len() ==> !(entries[k].name == n2 && entries[k].repo_name == r2),
    ensures
        lock_index(entries, n2, r2, from) is None,
    decreases entries.len() - from + 1,
{
    if from < entries.len() {
        lemma_lock_index_none_tail(entries, n2, r2, from + 1);
    }
}

proof fn lemma_lock_index_step(
    before: Seq<SyncedChartKind>,
    after: Seq<SyncedChartKind>,
    name: Seq<char>,
    repo: Seq<char>,
    version: Seq<char>,
    i: int,
)
    requires
        0 <= i <= before.len(),
        after.len() == if i < before.len() {
            before.len() as int
        } else {
            before.len() + 1 as int
        },
        forall|k: int| 0 <= k < before.len() && k != i ==> after[k] == before[k],
        i < after.len(),
        after[i] == (SyncedChartKind { name, repo_name: repo, version }),
        forall|k: int| 0 <= k < i ==> !(before[k].name == name && before[k].repo_name == repo),
        i < before.len() ==> (before[i].name == name && before[i].repo_name == repo),
        i == before.len() ==> forall|k: int|
            0 <= k < before.len() ==> !(before[k].name == name && before[k].repo_name == repo),
    ensures
        spec_lock_get(after, name, repo) == Some(
            SyncedChartKind { name, repo_name: repo, version },
        ),
        forall|n2: Seq<char>, r2: Seq<char>|
            !(n2 == name && r2 == repo) ==> #[trigger] spec_lock_get(after, n2, r2)
                == spec_lock_get(before, n2, r2),
{
    lemma_lock_index_found_at(after, name, repo, 0, i);
    assert forall|n2: Seq<char>, r2: Seq<char>| !(n2 == name && r2 == repo) implies #[trigger] spec_lock_get(
        after,
        n2,
        r2,
    ) == spec_lock_get(before, n2, r2) by {
        lemma_lock_index_other_key(before, after, name, repo, n2, r2, i, 0);
        match lock_index(before, n2, r2, 0) {
            Some(j) => {
                lemma_lock_index_some(before, n2, r2, 0, j);
                assert(after[j] == before[j]);
            },
            None => {},
        }
    }
}

proof fn lemma_lock_index_found_at(
    entries: Seq<SyncedChartKind>,
    name: Seq<char>,
    repo: Seq<char>,
    from: int,
    i: int,
)
    requires
        0 <= from <= i < entries.len(),
        entries[i].name == name && entries[i].repo_name == repo,
        forall|k: int| 0 <= k < i ==> !(entries[k].name == name && entries[k].repo_name == repo),
    ensures
        lock_index(entries, name, repo, from) == Some(i),
    decreases i - from + 1,
{
    if from < i {
        lemma_lock_index_found_at(entries, name, repo, from + 1, i);
    }
}

proof fn lemma_lock_index_other_key(
    before: Seq<SyncedChartKind>,
    after: Seq<SyncedChartKind>,
    name: Seq<char>,
    repo: Seq<char>,
    n2: Seq<char>,
    r2: Seq<char>,
    i: int,
    from: int,
)
    requires
        !(n2 == name && r2 == repo),
        0 <= from,
        0 <= i <= before.len(),
        after.len() == if i < before.len() {
            before.len() as int
        } else {
            before.len() + 1 as int
        },
        forall|k: int| 0 <= k < before.len() && k != i ==> after[k] == before[k],
        i < after.len(),
        after[i] == (SyncedChartKind { name, repo_name: repo, version: after[i].version }),
        i < before.len() ==> (before[i].name == name && before[i].repo_name == repo),
    ensures
        lock_index(after, n2, r2, from) == lock_index(before, n2, r2, from),
    decreases before.len() - from + 1,
{
    if from >= before.len() {
        if from < after.len() {
            assert(from == i);
        }
    } else {
        lemma_lock_index_other_key(before, after, name, repo, n2, r2, i, from + 1);
    }
}

} // verus!
