//! The synchronisation engine: decides per chart whether to skip or fetch,
//! delegates materialization to the chart provider, and keeps the lockfile
//! in step — continuing past per-chart failures.
use vstd::prelude::*;

use crate::config::{Chart, ChartKind, Config, Destination, RepoType, spec_find_repo};
use crate::lock::{Lockfile, SyncedChartKind, lemma_lock_index_some, lemma_update_frame, lock_index, spec_lock_get};
use crate::text::{is_prefix, str_eq};

verus! {

/// The packaging-tool side of the chart provider. Implementations perform
/// the external work; the engine is verified for every outcome they return.
pub trait HelmClient {
    /// Registers a repository with the packaging tool.
    fn repo_add(&self, name: &str, url: &str) -> Result<(), String>;

    /// Refreshes the repository index; engine-wide, at most once per run.
    fn repo_update(&self) -> Result<(), String>;

    /// Fetches `chart` at `version` from `repo` and materializes it as
    /// `dest_dir/chart`, staging into a private temporary location first.
    fn pull(&self, repo: &str, chart: &str, version: &str, dest_dir: &str) -> Result<(), String>;

    /// Creates the directory (and its parents) if it is missing.
    fn ensure_dir(&self, path: &str) -> Result<(), String>;

    /// Whether the path currently exists on disk.
    fn dest_exists(&self, path: &str) -> bool;

    /// Whether the named plugin is installed.
    fn is_plugin_installed(&self, plugin_name: &str) -> Result<bool, String>;

    /// Installs the named plugin from the given source.
    fn install_plugin(&self, plugin_name: &str, url: &str, verify: bool) -> Result<(), String>;

    /// Uninstalls a release from a namespace.
    fn uninstall(&self, name: &str, namespace: &str) -> Result<(), String>;
}

/// The version-control side of the chart provider.
pub trait GitClient {
    /// A fresh private working directory for one fetch.
    fn temp_workspace(&self) -> Result<String, String>;

    /// Clones the repository at `url` into `path`.
    fn clone_repo(&self, url: &str, path: &str) -> Result<(), String>;

    /// Checks the working tree at `path` out at `revision`.
    fn checkout(&self, path: &str, revision: &str) -> Result<(), String>;

    /// Copies `repo_dir/chart_path` out of the working tree and materializes
    /// it as `dest_dir/chart`, replacing what stood there.
    fn export_chart(
        &self,
        repo_dir: &str,
        chart_path: &str,
        dest_dir: &str,
        chart: &str,
    ) -> Result<(), String>;
}

/// What one run was asked to do.
pub struct SyncOptions {
    /// Skip no chart for being up to date: fetch unconditionally.
    pub ignore_skip: bool,
    /// Only the named charts take part when this is set.
    pub charts: Option<Vec<String>>,
}

/// One step of the run's progress, for the caller to present.
pub enum SyncEvent {
    ChartSkipped { name: String, reason: String },
    RepoUpdateStart,
    RepoUpdateSuccess,
    RepoUpdateFailed(String),
    ChartSyncStart { name: String },
    ChartSyncSuccess { name: String, repo_type: String },
    ChartSyncFailed { name: String, error: String },
}

/// Mathematical image of a [`SyncEvent`].
pub enum SyncEventKind {
    ChartSkipped { name: Seq<char>, reason: Seq<char> },
    RepoUpdateStart,
    RepoUpdateSuccess,
    RepoUpdateFailed { error: Seq<char> },
    ChartSyncStart { name: Seq<char> },
    ChartSyncSuccess { name: Seq<char>, repo_type: Seq<char> },
    ChartSyncFailed { name: Seq<char>, error: Seq<char> },
}

impl View for SyncEvent {
    type V = SyncEventKind;

    open spec fn view(&self) -> SyncEventKind {
        match self {
            SyncEvent::ChartSkipped { name, reason } => SyncEventKind::ChartSkipped {
                name: name@,
                reason: reason@,
            },
            SyncEvent::RepoUpdateStart => SyncEventKind::RepoUpdateStart,
            SyncEvent::RepoUpdateSuccess => SyncEventKind::RepoUpdateSuccess,
            SyncEvent::RepoUpdateFailed(e) => SyncEventKind::RepoUpdateFailed { error: e@ },
            SyncEvent::ChartSyncStart { name } => SyncEventKind::ChartSyncStart { name: name@ },
            SyncEvent::ChartSyncSuccess { name, repo_type } => SyncEventKind::ChartSyncSuccess {
                name: name@,
                repo_type: repo_type@,
            },
            SyncEvent::ChartSyncFailed { name, error } => SyncEventKind::ChartSyncFailed {
                name: name@,
                error: error@,
            },
        }
    }
}

impl DeepView for SyncEvent {
    type V = SyncEventKind;

    open spec fn deep_view(&self) -> SyncEventKind {
        self.view()
    }
}

/// The run's aggregate counters.
#[derive(Debug, PartialEq, Eq, Structural)]
pub struct SyncStats {
    pub synced: u64,
    pub failed: u64,
    pub skipped: u64,
}

/// Everything one run produced: counters and the ordered event stream.
pub struct SyncRun {
    pub stats: SyncStats,
    pub events: Vec<SyncEvent>,
}

/// A configuration fault that aborts the whole run.
#[derive(Debug)]
pub enum SyncError {
    RepositoryNotFound { chart: String, repo: String },
    NoDestination { chart: String },
}

/// The engine, generic over the two provider ports.
pub struct SyncEngine<H, G> {
    helm_client: H,
    git_client: G,
}

/// Whether a chart with this name takes part under the operator's filter.
pub open spec fn chart_selected(charts_filter: Option<Seq<Seq<char>>>, name: Seq<char>) -> bool {
    match charts_filter {
        None => true,
        Some(list) => list.contains(name),
    }
}

/// How many events report a skipped chart.
pub open spec fn count_skipped(es: Seq<SyncEventKind>) -> int
    decreases es.len(),
{
    if es.len() == 0 {
        0
    } else {
        count_skipped(es.drop_last()) + if es.last() is ChartSkipped {
            1int
        } else {
            0int
        }
    }
}

/// How many events report a successful fetch.
pub open spec fn count_success(es: Seq<SyncEventKind>) -> int
    decreases es.len(),
{
    if es.len() == 0 {
        0
    } else {
        count_success(es.drop_last()) + if es.last() is ChartSyncSuccess {
            1int
        } else {
            0int
        }
    }
}

/// How many events report a failed fetch.
pub open spec fn count_failed(es: Seq<SyncEventKind>) -> int
    decreases es.len(),
{
    if es.len() == 0 {
        0
    } else {
        count_failed(es.drop_last()) + if es.last() is ChartSyncFailed {
            1int
        } else {
            0int
        }
    }
}

/// How many events report the start of a repository-index refresh.
pub open spec fn count_update_start(es: Seq<SyncEventKind>) -> int
    decreases es.len(),
{
    if es.len() == 0 {
        0
    } else {
        count_update_start(es.drop_last()) + if es.last() is RepoUpdateStart {
            1int
        } else {
            0int
        }
    }
}

/// How many events report the start of a chart fetch.
pub open spec fn count_fetch_start(es: Seq<SyncEventKind>) -> int
    decreases es.len(),
{
    if es.len() == 0 {
        0
    } else {
        count_fetch_start(es.drop_last()) + if es.last() is ChartSyncStart {
            1int
        } else {
            0int
        }
    }
}

proof fn lemma_counts_nonneg(es: Seq<SyncEventKind>)
    ensures
        0 <= count_skipped(es),
        0 <= count_success(es),
        0 <= count_failed(es),
        0 <= count_update_start(es),
        0 <= count_fetch_start(es),
    decreases es.len(),
{
    if es.len() > 0 {
        lemma_counts_nonneg(es.drop_last());
    }
}

/// There is a skip event for this chart name with this reason.
pub open spec fn has_skip_event(es: Seq<SyncEventKind>, name: Seq<char>, reason: Seq<char>) -> bool {
    exists|k: int|
        0 <= k < es.len() && #[trigger] es[k] == (SyncEventKind::ChartSkipped { name, reason })
}

/// The event is a success event for this chart name.
pub open spec fn success_for(e: SyncEventKind, name: Seq<char>) -> bool {
    e matches SyncEventKind::ChartSyncSuccess { name: n, .. } && n == name
}

/// The event is a failure event for this chart name.
pub open spec fn failed_for(e: SyncEventKind, name: Seq<char>) -> bool {
    e matches SyncEventKind::ChartSyncFailed { name: n, .. } && n == name
}

/// There is a success event for this chart name.
pub open spec fn has_success_event(es: Seq<SyncEventKind>, name: Seq<char>) -> bool {
    exists|k: int| 0 <= k < es.len() && success_for(#[trigger] es[k], name)
}

proof fn lemma_has_skip_push(es: Seq<SyncEventKind>, x: SyncEventKind, name: Seq<char>, reason: Seq<char>)
    ensures
        has_skip_event(es.push(x), name, reason) <==> (has_skip_event(es, name, reason) || x
            == (SyncEventKind::ChartSkipped { name, reason })),
{
    let es2 = es.push(x);
    if has_skip_event(es2, name, reason) {
        let k = choose|k: int|
            0 <= k < es2.len() && #[trigger] es2[k] == (SyncEventKind::ChartSkipped {
                name,
                reason,
            });
        if k < es.len() {
            assert(es[k] == es2[k]);
        }
    }
    if has_skip_event(es, name, reason) {
        let k = choose|k: int|
            0 <= k < es.len() && #[trigger] es[k] == (SyncEventKind::ChartSkipped {
                name,
                reason,
            });
        assert(es2[k] == es[k]);
    }
    if x == (SyncEventKind::ChartSkipped { name, reason }) {
        assert(es2[es.len() as int] == x);
    }
}

proof fn lemma_has_success_push(es: Seq<SyncEventKind>, x: SyncEventKind, name: Seq<char>)
    ensures
        has_success_event(es.push(x), name) <==> (has_success_event(es, name) || success_for(
            x,
            name,
        )),
{
    let es2 = es.push(x);
    if has_success_event(es2, name) {
        let k = choose|k: int| 0 <= k < es2.len() && success_for(#[trigger] es2[k], name);
        if k < es.len() {
            assert(es[k] == es2[k]);
        }
    }
    if has_success_event(es, name) {
        let k = choose|k: int| 0 <= k < es.len() && success_for(#[trigger] es[k], name);
        assert(es2[k] == es[k]);
    }
    if success_for(x, name) {
        assert(es2[es.len() as int] == x);
    }
}

/// How many of the charts take part in the run.
pub open spec fn count_selected(cs: Seq<ChartKind>, charts_filter: Option<Seq<Seq<char>>>) -> int
    decreases cs.len(),
{
    if cs.len() == 0 {
        0
    } else {
        count_selected(cs.drop_last(), charts_filter) + if chart_selected(
            charts_filter,
            cs.last().name,
        ) {
            1int
        } else {
            0int
        }
    }
}

proof fn lemma_count_selected_step(
    cs: Seq<ChartKind>,
    charts_filter: Option<Seq<Seq<char>>>,
    i: int,
)
    requires
        0 <= i < cs.len(),
    ensures
        count_selected(cs.take(i + 1), charts_filter) == count_selected(cs.take(i), charts_filter)
            + if chart_selected(charts_filter, cs[i].name) {
            1int
        } else {
            0int
        },
{
    assert(cs.take(i + 1).drop_last() =~= cs.take(i));
    assert(cs.take(i + 1).last() == cs[i]);
}

/// The destination directory for a chart: its `dest` field names a
/// configured destination or is itself a direct path; a chart with no
/// repository falls back to its local path; otherwise the destination named
/// `default` serves, if one is configured.
pub open spec fn dest_for(c: ChartKind, dests: Seq<Destination>) -> Option<Seq<char>> {
    match c.dest {
        Some(d) => match crate::config::spec_find_dest(dests, d) {
            Some(entry) => Some(entry@.path),
            None => Some(d),
        },
        None => match c.repo_name {
            None => match c.chart_path {
                Some(p) => Some(p),
                None => spec_default_path(dests),
            },
            Some(_) => spec_default_path(dests),
        },
    }
}

pub open spec fn spec_default_path(dests: Seq<Destination>) -> Option<Seq<char>> {
    match crate::config::spec_find_dest(dests, "default"@) {
        Some(entry) => Some(entry@.path),
        None => None,
    }
}

/// Resolves a chart's destination directory.
pub fn get_destination_path(chart: &Chart, destinations: &Vec<Destination>) -> (r: Option<String>)
    ensures
        match r {
            Some(p) => dest_for(chart@, destinations@) == Some(p@),
            None => dest_for(chart@, destinations@) is None,
        },
{
    match &chart.dest {
        Some(d) => {
            match crate::config::find_destination(destinations, d.as_str()) {
                Some(entry) => Some(entry.path.clone()),
                None => Some(d.clone()),
            }
        },
        None => {
            match (&chart.repo_name, &chart.chart_path) {
                (None, Some(p)) => Some(p.clone()),
                _ => {
                    match crate::config::find_destination(destinations, "default") {
                        Some(entry) => Some(entry.path.clone()),
                        None => None,
                    }
                },
            }
        },
    }
}

/// `oci://`-qualifies a registry URL that lacks the scheme.
pub open spec fn spec_oci_url(url: Seq<char>) -> Seq<char> {
    if "oci://"@.len() <= url.len() && url.take("oci://"@.len() as int) == "oci://"@ {
        url
    } else {
        "oci://"@ + url
    }
}

/// Qualifies a registry URL with the `oci://` scheme when it is missing.
pub fn normalize_oci_url(url: &str) -> (r: String)
    ensures
        r@ == spec_oci_url(url@),
{
    if is_prefix(url, "oci://") {
        let mut s = String::new();
        s.append(url);
        s
    } else {
        let mut s = String::new();
        s.append("oci://");
        s.append(url);
        s
    }
}

fn is_selected(options: &SyncOptions, name: &str) -> (r: bool)
    ensures
        r == chart_selected(options.charts.deep_view(), name@),
{
    match &options.charts {
        None => {
            proof {
                assert(options.charts.deep_view() is None);
            }
            true
        },
        Some(list) => {
            proof {
                assert(options.charts.deep_view() == Some(list.deep_view()));
            }
            let mut k: usize = 0;
            while k < list.len()
                invariant
                    options.charts.deep_view() == Some(list.deep_view()),
                    k <= list@.len(),
                    forall|t: int| 0 <= t < k ==> list.deep_view()[t] != name@,
                decreases list@.len() - k,
            {
                proof {
                    assert(list.deep_view()[k as int] == list@[k as int]@);
                }
                if str_eq(list[k].as_str(), name) {
                    proof {
                        assert(list.deep_view()[k as int] == name@);
                        assert(list.deep_view().contains(name@));
                    }
                    return true;
                }
                k = k + 1;
            }
            proof {
                if list.deep_view().contains(name@) {
                    let t = choose|t: int|
                        0 <= t < list.deep_view().len() && list.deep_view()[t] == name@;
                    assert(false);
                }
            }
            false
        },
    }
}

/// The chart at position `i` takes part, is not opted out, and names a
/// repository that the configuration does not define: the run aborts.
pub open spec fn aborts_on_repo(
    cs: Seq<ChartKind>,
    repos: Seq<crate::config::Repository>,
    charts_filter: Option<Seq<Seq<char>>>,
    i: int,
) -> bool {
    &&& 0 <= i < cs.len()
    &&& chart_selected(charts_filter, cs[i].name)
    &&& !cs[i].no_sync
    &&& cs[i].repo_name is Some
    &&& spec_find_repo(repos, cs[i].repo_name->0) is None
}

/// The chart at position `i` takes part, needs fetching machinery, and no
/// destination directory can be resolved for it: the run aborts.
pub open spec fn aborts_on_dest(
    cs: Seq<ChartKind>,
    repos: Seq<crate::config::Repository>,
    dests: Seq<Destination>,
    charts_filter: Option<Seq<Seq<char>>>,
    i: int,
) -> bool {
    &&& 0 <= i < cs.len()
    &&& chart_selected(charts_filter, cs[i].name)
    &&& !cs[i].no_sync
    &&& cs[i].repo_name is Some
    &&& spec_find_repo(repos, cs[i].repo_name->0) is Some
    &&& dest_for(cs[i], dests) is None
}

/// Some chart forces the whole run to abort: an unknown repository
/// reference or an unresolvable destination.
pub open spec fn run_aborts(
    cs: Seq<ChartKind>,
    repos: Seq<crate::config::Repository>,
    dests: Seq<Destination>,
    charts_filter: Option<Seq<Seq<char>>>,
    i: int,
) -> bool {
    aborts_on_repo(cs, repos, charts_filter, i) || aborts_on_dest(
        cs,
        repos,
        dests,
        charts_filter,
        i,
    )
}

/// The lockfile after processing the charts, relative to before: what `get`
/// answers for a key is unchanged, unless a selected eligible chart with
/// that (name, repository) identity succeeded — then the key holds exactly
/// that chart's configured version and a success event for it was emitted.
pub open spec fn lock_frame(
    cs: Seq<ChartKind>,
    charts_filter: Option<Seq<Seq<char>>>,
    before: Seq<SyncedChartKind>,
    after: Seq<SyncedChartKind>,
    es: Seq<SyncEventKind>,
) -> bool {
    forall|n2: Seq<char>, r2: Seq<char>|
        {
            ||| #[trigger] spec_lock_get(after, n2, r2) == spec_lock_get(before, n2, r2)
            ||| ((exists|i: int|
                {
                    &&& 0 <= i < cs.len()
                    &&& chart_selected(charts_filter, #[trigger] cs[i].name)
                    &&& !cs[i].no_sync
                    &&& cs[i].name == n2
                    &&& cs[i].repo_name == Some(r2)
                    &&& cs[i].version is Some
                    &&& spec_lock_get(after, n2, r2) == Some(
                        SyncedChartKind { name: n2, repo_name: r2, version: cs[i].version->0 },
                    )
                }) && has_success_event(es, n2))
        }
}

proof fn lemma_lock_frame_extend(
    cs: Seq<ChartKind>,
    charts_filter: Option<Seq<Seq<char>>>,
    before: Seq<SyncedChartKind>,
    after: Seq<SyncedChartKind>,
    es1: Seq<SyncEventKind>,
    es2: Seq<SyncEventKind>,
    i: int,
)
    requires
        0 <= i < cs.len(),
        lock_frame(cs.take(i), charts_filter, before, after, es1),
        forall|k: int| 0 <= k < es1.len() ==> es2[k] == es1[k],
        es1.len() <= es2.len(),
    ensures
        lock_frame(cs.take(i + 1), charts_filter, before, after, es2),
{
    assert forall|n2: Seq<char>, r2: Seq<char>|
        {
            ||| #[trigger] spec_lock_get(after, n2, r2) == spec_lock_get(before, n2, r2)
            ||| ((exists|t: int|
                {
                    &&& 0 <= t < cs.take(i + 1).len()
                    &&& chart_selected(charts_filter, #[trigger] cs.take(i + 1)[t].name)
                    &&& !cs.take(i + 1)[t].no_sync
                    &&& cs.take(i + 1)[t].name == n2
                    &&& cs.take(i + 1)[t].repo_name == Some(r2)
                    &&& cs.take(i + 1)[t].version is Some
                    &&& spec_lock_get(after, n2, r2) == Some(
                        SyncedChartKind {
                            name: n2,
                            repo_name: r2,
                            version: cs.take(i + 1)[t].version->0,
                        },
                    )
                }) && has_success_event(es2, n2))
        } by {
        if spec_lock_get(after, n2, r2) != spec_lock_get(before, n2, r2) {
            let t = choose|t: int|
                {
                    &&& 0 <= t < cs.take(i).len()
                    &&& chart_selected(charts_filter, #[trigger] cs.take(i)[t].name)
                    &&& !cs.take(i)[t].no_sync
                    &&& cs.take(i)[t].name == n2
                    &&& cs.take(i)[t].repo_name == Some(r2)
                    &&& cs.take(i)[t].version is Some
                    &&& spec_lock_get(after, n2, r2) == Some(
                        SyncedChartKind {
                            name: n2,
                            repo_name: r2,
                            version: cs.take(i)[t].version->0,
                        },
                    )
                };
            assert(cs.take(i + 1)[t] == cs.take(i)[t]);
            assert(has_success_event(es1, n2));
            let k = choose|k: int| 0 <= k < es1.len() && success_for(#[trigger] es1[k], n2);
            assert(es2[k] == es1[k]);
            assert(has_success_event(es2, n2));
        }
    }
}

impl<H: HelmClient, G: GitClient> SyncEngine<H, G> {
    /// Builds an engine around the two provider ports.
    pub fn new(helm_client: H, git_client: G) -> Self {
        SyncEngine { helm_client, git_client }
    }

    /// Runs one synchronisation pass over the selected charts, in
    /// configuration order, isolating per-chart failures. The counters match
    /// the event stream exactly, every selected chart accounts for exactly
    /// one terminal event, the repository index is refreshed at most once
    /// and exactly when some fetch is attempted, and the lockfile changes
    /// only for charts whose fetch succeeded.
    #[verifier::rlimit(100)]
    #[verifier::spinoff_prover]
    pub fn sync(&self, config: &Config, lockfile: &mut Lockfile, options: &SyncOptions) -> (r:
        Result<SyncRun, SyncError>)
        ensures
            (r is Err <==> (exists|i: int|
                run_aborts(
                    config.charts.deep_view(),
                    config.repositories@,
                    config.destinations@,
                    options.charts.deep_view(),
                    i,
                ))),
            match r {
                Ok(run) => {
                    let cs = config.charts.deep_view();
                    let filt = options.charts.deep_view();
                    let es = run.events.deep_view();
                    &&& run.stats.skipped == count_skipped(es)
                    &&& run.stats.synced == count_success(es)
                    &&& run.stats.failed == count_failed(es)
                    &&& run.stats.skipped + run.stats.synced + run.stats.failed == count_selected(
                        cs,
                        filt,
                    )
                    &&& count_update_start(es) <= 1
                    &&& ((count_update_start(es) > 0) <==> (count_fetch_start(es) > 0))
                    &&& (forall|n: Seq<char>|
                        has_skip_event(es, n, "no_sync=true"@) <==> exists|i: int|
                            0 <= i < cs.len() && chart_selected(filt, #[trigger] cs[i].name)
                                && cs[i].name == n && cs[i].no_sync)
                    &&& (forall|n: Seq<char>|
                        has_skip_event(es, n, "local chart"@) <==> exists|i: int|
                            0 <= i < cs.len() && chart_selected(filt, #[trigger] cs[i].name)
                                && cs[i].name == n && !cs[i].no_sync && cs[i].repo_name is None)
                    &&& (forall|n: Seq<char>|
                        has_skip_event(es, n, "up to date"@) ==> !options.ignore_skip && exists|
                            k: int,
                        |
                            0 <= k < cs.len() && utd_chart_witness(
                                cs,
                                filt,
                                old(lockfile).charts.deep_view(),
                                es,
                                k,
                                n,
                            ))
                    &&& lock_frame(
                        cs,
                        filt,
                        old(lockfile).charts.deep_view(),
                        final(lockfile).charts.deep_view(),
                        es,
                    )
                },
                Err(SyncError::RepositoryNotFound { chart, repo }) => exists|i: int|
                    aborts_on_repo(
                        config.charts.deep_view(),
                        config.repositories@,
                        options.charts.deep_view(),
                        i,
                    ) && config.charts.deep_view()[i].name == chart@
                        && config.charts.deep_view()[i].repo_name == Some(repo@),
                Err(SyncError::NoDestination { chart }) => exists|i: int|
                    aborts_on_dest(
                        config.charts.deep_view(),
                        config.repositories@,
                        config.destinations@,
                        options.charts.deep_view(),
                        i,
                    ) && config.charts.deep_view()[i].name == chart@,
            },
            forall|n2: Seq<char>, r2: Seq<char>|
                #[trigger] spec_lock_get(old(lockfile).charts.deep_view(), n2, r2) is Some
                    ==> spec_lock_get(final(lockfile).charts.deep_view(), n2, r2) is Some,
    {
        let ghost cs = config.charts.deep_view();
        let ghost filt = options.charts.deep_view();
        let ghost before = lockfile.charts.deep_view();
        let mut events: Vec<SyncEvent> = Vec::new();
        let mut skipped: u64 = 0;
        let mut synced: u64 = 0;
        let mut failed: u64 = 0;
        let mut repos_updated = false;
        let n = config.charts.len();
        proof {
            assert(cs.take(0) =~= Seq::<ChartKind>::empty());
            assert(events.deep_view() =~= Seq::<SyncEventKind>::empty());
        }
        let mut i: usize = 0;
        while i < n
            invariant
                n == config.charts@.len(),
                cs == config.charts.deep_view(),
                filt == options.charts.deep_view(),
                before == old(lockfile).charts.deep_view(),
                i <= n,
                skipped == count_skipped(events.deep_view()),
                synced == count_success(events.deep_view()),
                failed == count_failed(events.deep_view()),
                skipped + synced + failed == count_selected(cs.take(i as int), filt),
                skipped + synced + failed <= i,
                count_update_start(events.deep_view()) <= 1,
                repos_updated == (count_update_start(events.deep_view()) > 0),
                (count_update_start(events.deep_view()) > 0) <==> (count_fetch_start(
                    events.deep_view(),
                ) > 0),
                forall|k: int|
                    0 <= k < i ==> !run_aborts(
                        cs,
                        config.repositories@,
                        config.destinations@,
                        filt,
                        k,
                    ),
                forall|n2: Seq<char>|
                    has_skip_event(events.deep_view(), n2, "no_sync=true"@) <==> exists|k: int|
                        0 <= k < i && chart_selected(filt, #[trigger] cs[k].name) && cs[k].name
                            == n2 && cs[k].no_sync,
                forall|n2: Seq<char>|
                    has_skip_event(events.deep_view(), n2, "local chart"@) <==> exists|k: int|
                        0 <= k < i && chart_selected(filt, #[trigger] cs[k].name) && cs[k].name
                            == n2 && !cs[k].no_sync && cs[k].repo_name is None,
                forall|n2: Seq<char>|
                    has_skip_event(events.deep_view(), n2, "up to date"@) ==> !options.ignore_skip
                        && exists|k: int|
                        0 <= k < i && utd_chart_witness(
                            cs,
                            filt,
                            before,
                            events.deep_view(),
                            k,
                            n2,
                        ),
                lock_frame(
                    cs.take(i as int),
                    filt,
                    before,
                    lockfile.charts.deep_view(),
                    events.deep_view(),
                ),
                forall|n2: Seq<char>, r2: Seq<char>|
                    #[trigger] spec_lock_get(before, n2, r2) is Some ==> spec_lock_get(
                        lockfile.charts.deep_view(),
                        n2,
                        r2,
                    ) is Some,
            decreases n - i,
        {
            proof {
                assert(cs[i as int] == config.charts@[i as int]@);
            }
            let chart = &config.charts[i];
            let ghost pre_events = events.deep_view();
            let ghost pre_lock = lockfile.charts.deep_view();
            let selected_here = is_selected(options, chart.name.as_str());
            if !selected_here {
                proof {
                    assert(!aborts_on_repo(cs, config.repositories@, filt, i as int));
                    assert(!aborts_on_dest(
                        cs,
                        config.repositories@,
                        config.destinations@,
                        filt,
                        i as int,
                    ));
                    assert(!run_aborts(
                        cs,
                        config.repositories@,
                        config.destinations@,
                        filt,
                        i as int,
                    ));
                    lemma_count_selected_step(cs, filt, i as int);
                    lemma_lock_frame_extend(cs, filt, before, pre_lock, pre_events, pre_events, i as int);
                    reason_literals_distinct();
                    lemma_skip_invs_step(
                        cs,
                        filt,
                        before,
                        pre_events,
                        pre_events,
                        i as int,
                        options.ignore_skip,
                        None,
                        false,
                    );
                }
            } else if chart.no_sync {
                events.push(
                    SyncEvent::ChartSkipped {
                        name: chart.name.clone(),
                        reason: "no_sync=true".to_owned(),
                    },
                );
                skipped = skipped + 1;
                proof {
                    let x = (SyncEventKind::ChartSkipped {
                        name: cs[i as int].name,
                        reason: "no_sync=true"@,
                    });
                    assert(!aborts_on_repo(cs, config.repositories@, filt, i as int));
                    assert(!aborts_on_dest(
                        cs,
                        config.repositories@,
                        config.destinations@,
                        filt,
                        i as int,
                    ));
                    assert(!run_aborts(
                        cs,
                        config.repositories@,
                        config.destinations@,
                        filt,
                        i as int,
                    ));

                    assert(events.deep_view() =~= pre_events.push(x)) by {
                        assert forall|k: int|
                            0 <= k < events.deep_view().len() implies events.deep_view()[k]
                            == pre_events.push(x)[k] by {
                            assert(events.deep_view()[k] == events@[k]@);
                        }
                    }
                    lemma_count_push_all(pre_events, x);
                    lemma_count_selected_step(cs, filt, i as int);
                    lemma_lock_frame_extend(
                        cs,
                        filt,
                        before,
                        pre_lock,
                        pre_events,
                        events.deep_view(),
                        i as int,
                    );
                    lemma_skip_iff_step(pre_events, events.deep_view(), x);
                    reason_literals_distinct();
                    let ghost added: Option<Seq<char>> = Some("no_sync=true"@);
                    assert forall|n2: Seq<char>, reason: Seq<char>|
                        #[trigger] has_skip_event(events.deep_view(), n2, reason) <==> (
                        has_skip_event(pre_events, n2, reason) || (added == Some(reason) && n2
                            == cs[i as int].name)) by {}
                    lemma_skip_invs_step(
                        cs,
                        filt,
                        before,
                        pre_events,
                        events.deep_view(),
                        i as int,
                        options.ignore_skip,
                        added,
                        false,
                    );
                }
            } else {
                match &chart.repo_name {
                    None => {
                        events.push(
                            SyncEvent::ChartSkipped {
                                name: chart.name.clone(),
                                reason: "local chart".to_owned(),
                            },
                        );
                        skipped = skipped + 1;
                        proof {
                            let x = (SyncEventKind::ChartSkipped {
                                name: cs[i as int].name,
                                reason: "local chart"@,
                            });
                    assert(!aborts_on_repo(cs, config.repositories@, filt, i as int));
                    assert(!aborts_on_dest(
                        cs,
                        config.repositories@,
                        config.destinations@,
                        filt,
                        i as int,
                    ));
                    assert(!run_aborts(
                        cs,
                        config.repositories@,
                        config.destinations@,
                        filt,
                        i as int,
                    ));

                            assert(events.deep_view() =~= pre_events.push(x)) by {
                                assert forall|k: int|
                                    0 <= k < events.deep_view().len() implies events.deep_view()[k]
                                    == pre_events.push(x)[k] by {
                                    assert(events.deep_view()[k] == events@[k]@);
                                }
                            }
                            lemma_count_push_all(pre_events, x);
                            lemma_count_selected_step(cs, filt, i as int);
                            lemma_lock_frame_extend(
                                cs,
                                filt,
                                before,
                                pre_lock,
                                pre_events,
                                events.deep_view(),
                                i as int,
                            );
                            lemma_skip_iff_step(pre_events, events.deep_view(), x);
                            reason_literals_distinct();
                            let ghost added: Option<Seq<char>> = Some("local chart"@);
                            assert forall|n2: Seq<char>, reason: Seq<char>|
                                #[trigger] has_skip_event(events.deep_view(), n2, reason) <==> (
                                has_skip_event(pre_events, n2, reason) || (added == Some(reason)
                                    && n2 == cs[i as int].name)) by {}
                            lemma_skip_invs_step(
                                cs,
                                filt,
                                before,
                                pre_events,
                                events.deep_view(),
                                i as int,
                                options.ignore_skip,
                                added,
                                false,
                            );
                        }
                    },
                    Some(repo_name) => {
                        let repo = match crate::config::find_repository(
                            &config.repositories,
                            repo_name.as_str(),
                        ) {
                            Some(repo) => repo,
                            None => {
                                proof {
                                    assert(aborts_on_repo(cs, config.repositories@, filt, i as int));
                                    assert(run_aborts(
                                        cs,
                                        config.repositories@,
                                        config.destinations@,
                                        filt,
                                        i as int,
                                    ));
                                }
                                return Err(
                                    SyncError::RepositoryNotFound {
                                        chart: chart.name.clone(),
                                        repo: repo_name.clone(),
                                    },
                                );
                            },
                        };
                        let dest_path = match get_destination_path(chart, &config.destinations) {
                            Some(p) => p,
                            None => {
                                proof {
                                    assert(cs[i as int].repo_name == Some(repo_name@));
                                    assert(dest_for(cs[i as int], config.destinations@) is None);
                                    assert(aborts_on_dest(
                                        cs,
                                        config.repositories@,
                                        config.destinations@,
                                        filt,
                                        i as int,
                                    ));
                                    assert(run_aborts(
                                        cs,
                                        config.repositories@,
                                        config.destinations@,
                                        filt,
                                        i as int,
                                    ));
                                }
                                return Err(
                                    SyncError::NoDestination { chart: chart.name.clone() },
                                );
                            },
                        };
                        match &chart.version {
                            None => {
                                events.push(
                                    SyncEvent::ChartSyncFailed {
                                        name: chart.name.clone(),
                                        error: "version is required for a remote chart".to_owned(),
                                    },
                                );
                                failed = failed + 1;
                                proof {
                                    let x = (SyncEventKind::ChartSyncFailed {
                                        name: cs[i as int].name,
                                        error: "version is required for a remote chart"@,
                                    });
                    assert(!aborts_on_repo(cs, config.repositories@, filt, i as int));
                    assert(!aborts_on_dest(
                        cs,
                        config.repositories@,
                        config.destinations@,
                        filt,
                        i as int,
                    ));
                    assert(!run_aborts(
                        cs,
                        config.repositories@,
                        config.destinations@,
                        filt,
                        i as int,
                    ));

                                    assert(events.deep_view() =~= pre_events.push(x)) by {
                                        assert forall|k: int|
                                            0 <= k < events.deep_view().len() implies events.deep_view()[k]
                                            == pre_events.push(x)[k] by {
                                            assert(events.deep_view()[k] == events@[k]@);
                                        }
                                    }
                                    lemma_count_push_all(pre_events, x);
                                    lemma_count_selected_step(cs, filt, i as int);
                                    lemma_lock_frame_extend(
                                        cs,
                                        filt,
                                        before,
                                        pre_lock,
                                        pre_events,
                                        events.deep_view(),
                                        i as int,
                                    );
                                    lemma_skip_iff_step(pre_events, events.deep_view(), x);
                                    reason_literals_distinct();
                                    assert forall|n2: Seq<char>, reason: Seq<char>|
                                        #[trigger] has_skip_event(
                                            events.deep_view(),
                                            n2,
                                            reason,
                                        ) <==> (has_skip_event(pre_events, n2, reason) || (None::<
                                        Seq<char>,
                                    > == Some(reason) && n2 == cs[i as int].name)) by {}
                                    lemma_skip_invs_step(
                                        cs,
                                        filt,
                                        before,
                                        pre_events,
                                        events.deep_view(),
                                        i as int,
                                        options.ignore_skip,
                                        None,
                                        false,
                                    );
                                }
                            },
                            Some(version) => {
                                let mut chart_dest_dir = String::new();
                                chart_dest_dir.append(dest_path.as_str());
                                chart_dest_dir.append("/");
                                chart_dest_dir.append(chart.name.as_str());
                                let mut up_to_date = false;
                                if !options.ignore_skip {
                                    match lockfile.get(chart.name.as_str(), repo_name.as_str()) {
                                        Some(entry) => {
                                            if str_eq(entry.version.as_str(), version.as_str())
                                                && self.helm_client.dest_exists(
                                                chart_dest_dir.as_str(),
                                            ) {
                                                proof {
                                                    let nm = cs[i as int].name;
                                                    let rp = cs[i as int].repo_name->0;
                                                    assert(spec_lock_get(pre_lock, nm, rp)
                                                        == Some(entry@));
                                                    let gi = lock_index(pre_lock, nm, rp, 0);
                                                    lemma_lock_index_some(
                                                        pre_lock,
                                                        nm,
                                                        rp,
                                                        0,
                                                        gi->0,
                                                    );
                                                    assert(entry@ == pre_lock[gi->0]);
                                                    assert(entry@ == (SyncedChartKind {
                                                        name: nm,
                                                        repo_name: rp,
                                                        version: cs[i as int].version->0,
                                                    }));
                                                    if spec_lock_get(before, nm, rp)
                                                        != spec_lock_get(pre_lock, nm, rp) {
                                                        assert(has_success_event(pre_events, nm));
                                                    }
                                                    assert(utd_chart_witness(
                                                        cs,
                                                        filt,
                                                        before,
                                                        pre_events,
                                                        i as int,
                                                        nm,
                                                    ));
                                                }
                                                up_to_date = true;
                                            }
                                        },
                                        None => {},
                                    }
                                }
                                if up_to_date {
                                    events.push(
                                        SyncEvent::ChartSkipped {
                                            name: chart.name.clone(),
                                            reason: "up to date".to_owned(),
                                        },
                                    );
                                    skipped = skipped + 1;
                                    proof {
                                        let x = (SyncEventKind::ChartSkipped {
                                            name: cs[i as int].name,
                                            reason: "up to date"@,
                                        });
                    assert(!aborts_on_repo(cs, config.repositories@, filt, i as int));
                    assert(!aborts_on_dest(
                        cs,
                        config.repositories@,
                        config.destinations@,
                        filt,
                        i as int,
                    ));
                    assert(!run_aborts(
                        cs,
                        config.repositories@,
                        config.destinations@,
                        filt,
                        i as int,
                    ));

                                        assert(events.deep_view() =~= pre_events.push(x)) by {
                                            assert forall|k: int|
                                                0 <= k < events.deep_view().len() implies events.deep_view()[k]
                                                == pre_events.push(x)[k] by {
                                                assert(events.deep_view()[k] == events@[k]@);
                                            }
                                        }
                                        lemma_count_push_all(pre_events, x);
                                        lemma_count_selected_step(cs, filt, i as int);
                                        lemma_lock_frame_extend(
                                            cs,
                                            filt,
                                            before,
                                            pre_lock,
                                            pre_events,
                                            events.deep_view(),
                                            i as int,
                                        );
                                        lemma_skip_iff_step(pre_events, events.deep_view(), x);
                                        reason_literals_distinct();
                                        assert(utd_chart_witness(
                                            cs,
                                            filt,
                                            before,
                                            pre_events,
                                            i as int,
                                            cs[i as int].name,
                                        ));
                                        let added: Option<Seq<char>> = Some("up to date"@);
                                        assert forall|n2: Seq<char>, reason: Seq<char>|
                                            #[trigger] has_skip_event(
                                                events.deep_view(),
                                                n2,
                                                reason,
                                            ) <==> (has_skip_event(pre_events, n2, reason) || (
                                        added == Some(reason) && n2 == cs[i as int].name)) by {}
                                        lemma_skip_invs_step(
                                            cs,
                                            filt,
                                            before,
                                            pre_events,
                                            events.deep_view(),
                                            i as int,
                                            options.ignore_skip,
                                            added,
                                            false,
                                        );
                                    }
                                } else {
                                    if !repos_updated {
                                        events.push(SyncEvent::RepoUpdateStart);
                                        proof {
                                            assert(events.deep_view() =~= pre_events.push(
                                                SyncEventKind::RepoUpdateStart,
                                            )) by {
                                                assert forall|k: int|
                                                    0 <= k < events.deep_view().len() implies #[trigger] events.deep_view()[k]
                                                    == pre_events.push(
                                                    SyncEventKind::RepoUpdateStart,
                                                )[k] by {
                                                    assert(events.deep_view()[k] == events@[k]@);
                                                }
                                            }
                                        }
                                        let ghost evs_s = events.deep_view();
                                        match self.helm_client.repo_update() {
                                            Ok(_) => {
                                                events.push(SyncEvent::RepoUpdateSuccess);
                                                proof {
                                                    assert(events.deep_view() =~= evs_s.push(
                                                        SyncEventKind::RepoUpdateSuccess,
                                                    )) by {
                                                        assert forall|k: int|
                                                            0 <= k < events.deep_view().len() implies #[trigger] events.deep_view()[k]
                                                            == evs_s.push(
                                                            SyncEventKind::RepoUpdateSuccess,
                                                        )[k] by {
                                                            assert(events.deep_view()[k]
                                                                == events@[k]@);
                                                        }
                                                    }
                                                }
                                            },
                                            Err(e) => {
                                                let ghost ek = e@;
                                                events.push(SyncEvent::RepoUpdateFailed(e));
                                                proof {
                                                    assert(events.deep_view() =~= evs_s.push(
                                                        SyncEventKind::RepoUpdateFailed {
                                                            error: ek,
                                                        },
                                                    )) by {
                                                        assert forall|k: int|
                                                            0 <= k < events.deep_view().len() implies #[trigger] events.deep_view()[k]
                                                            == evs_s.push(
                                                            SyncEventKind::RepoUpdateFailed {
                                                                error: ek,
                                                            },
                                                        )[k] by {
                                                            assert(events.deep_view()[k]
                                                                == events@[k]@);
                                                        }
                                                    }
                                                }
                                            },
                                        }
                                        repos_updated = true;
                                    }
                                    let ghost evs_mid = events.deep_view();
                                    events.push(
                                        SyncEvent::ChartSyncStart { name: chart.name.clone() },
                                    );
                                    proof {
                                        assert(events.deep_view() =~= evs_mid.push(
                                            SyncEventKind::ChartSyncStart {
                                                name: cs[i as int].name,
                                            },
                                        )) by {
                                            assert forall|k: int|
                                                0 <= k < events.deep_view().len() implies #[trigger] events.deep_view()[k]
                                                == evs_mid.push(
                                                SyncEventKind::ChartSyncStart {
                                                    name: cs[i as int].name,
                                                },
                                            )[k] by {
                                                assert(events.deep_view()[k] == events@[k]@);
                                            }
                                        }
                                    }
                                    let ghost evs_c = events.deep_view();
                                    let repo_type_label: String = match repo.repo_type {
                                        RepoType::Helm => "Helm".to_owned(),
                                        RepoType::Git => "Git".to_owned(),
                                        RepoType::Oci => "OCI".to_owned(),
                                    };
                                    let fetch_result: Result<(), String> = match repo.repo_type {
                                        RepoType::Helm => {
                                            match self.helm_client.ensure_dir(dest_path.as_str()) {
                                                Ok(_) => {
                                                    match self.helm_client.repo_add(
                                                        repo.name.as_str(),
                                                        repo.url.as_str(),
                                                    ) {
                                                        Ok(_) => self.helm_client.pull(
                                                            repo.name.as_str(),
                                                            chart.name.as_str(),
                                                            version.as_str(),
                                                            dest_path.as_str(),
                                                        ),
                                                        Err(e) => Err(e),
                                                    }
                                                },
                                                Err(e) => Err(e),
                                            }
                                        },
                                        RepoType::Git => {
                                            match self.helm_client.ensure_dir(dest_path.as_str()) {
                                                Ok(_) => {
                                                    match self.git_client.temp_workspace() {
                                                        Ok(ws) => {
                                                            match self.git_client.clone_repo(
                                                                repo.url.as_str(),
                                                                ws.as_str(),
                                                            ) {
                                                                Ok(_) => {
                                                                    match self.git_client.checkout(
                                                                        ws.as_str(),
                                                                        version.as_str(),
                                                                    ) {
                                                                        Ok(_) => {
                                                                            match &chart.chart_path {
                                                                                Some(
                                                                                    cp,
                                                                                ) => self.git_client.export_chart(
                                                                                    ws.as_str(),
                                                                                    cp.as_str(),
                                                                                    dest_path.as_str(),
                                                                                    chart.name.as_str(),
                                                                                ),
                                                                                None => Err(
                                                                                    "chart_path is required for a version-control repository".to_owned(),
                                                                                ),
                                                                            }
                                                                        },
                                                                        Err(e) => Err(e),
                                                                    }
                                                                },
                                                                Err(e) => Err(e),
                                                            }
                                                        },
                                                        Err(e) => Err(e),
                                                    }
                                                },
                                                Err(e) => Err(e),
                                            }
                                        },
                                        RepoType::Oci => {
                                            match self.helm_client.ensure_dir(dest_path.as_str()) {
                                                Ok(_) => {
                                                    let url = normalize_oci_url(repo.url.as_str());
                                                    self.helm_client.pull(
                                                        url.as_str(),
                                                        chart.name.as_str(),
                                                        version.as_str(),
                                                        dest_path.as_str(),
                                                    )
                                                },
                                                Err(e) => Err(e),
                                            }
                                        },
                                    };
                                    match fetch_result {
                                        Ok(_) => {
                                            let ghost label_k = repo_type_label@;
                                            events.push(
                                                SyncEvent::ChartSyncSuccess {
                                                    name: chart.name.clone(),
                                                    repo_type: repo_type_label,
                                                },
                                            );
                                            proof {
                                                assert(events.deep_view() =~= evs_c.push(
                                                    SyncEventKind::ChartSyncSuccess {
                                                        name: cs[i as int].name,
                                                        repo_type: label_k,
                                                    },
                                                )) by {
                                                    assert forall|k: int|
                                                        0 <= k < events.deep_view().len() implies #[trigger] events.deep_view()[k]
                                                        == evs_c.push(
                                                        SyncEventKind::ChartSyncSuccess {
                                                            name: cs[i as int].name,
                                                            repo_type: label_k,
                                                        },
                                                    )[k] by {
                                                        assert(events.deep_view()[k]
                                                            == events@[k]@);
                                                    }
                                                }
                                            }
                                            synced = synced + 1;
                                            let ghost lock_a = lockfile.charts.deep_view();
                                            lockfile.update(
                                                chart.name.clone(),
                                                repo_name.clone(),
                                                version.clone(),
                                            );
                                            proof {
                    assert(!aborts_on_repo(cs, config.repositories@, filt, i as int));
                    assert(!aborts_on_dest(
                        cs,
                        config.repositories@,
                        config.destinations@,
                        filt,
                        i as int,
                    ));
                    assert(!run_aborts(
                        cs,
                        config.repositories@,
                        config.destinations@,
                        filt,
                        i as int,
                    ));
                                                fetch_branch_events(
                                                    pre_events,
                                                    evs_mid,
                                                    evs_c,
                                                    events.deep_view(),
                                                    cs[i as int].name,
                                                );
                                                lemma_counts_nonneg(pre_events);
                                                assert(count_fetch_start(events.deep_view())
                                                    > 0);
                                                assert(count_update_start(events.deep_view())
                                                    > 0) by {
                                                    if evs_mid == pre_events {
                                                        assert(count_update_start(pre_events)
                                                            > 0);
                                                    } else {
                                                        assert(evs_mid.len() == pre_events.len()
                                                            + 2);
                                                    }
                                                }
                                                reason_literals_distinct();
                                                assert forall|n2: Seq<char>, reason: Seq<char>|
                                                    #[trigger] has_skip_event(
                                                        events.deep_view(),
                                                        n2,
                                                        reason,
                                                    ) <==> (has_skip_event(
                                                    pre_events,
                                                    n2,
                                                    reason,
                                                ) || (None::<Seq<char>> == Some(reason) && n2
                                                    == cs[i as int].name)) by {}
                                                assert forall|n2: Seq<char>|
                                                    #[trigger] has_success_event(
                                                        events.deep_view(),
                                                        n2,
                                                    ) <==> (has_success_event(pre_events, n2) || (
                                                true && n2 == cs[i as int].name)) by {
                                                    assert(events.deep_view().last()
                                                        is ChartSyncSuccess);
                                                }
                                                lemma_skip_invs_step(
                                                    cs,
                                                    filt,
                                                    before,
                                                    pre_events,
                                                    events.deep_view(),
                                                    i as int,
                                                    options.ignore_skip,
                                                    None,
                                                    true,
                                                );
                                                lemma_count_selected_step(cs, filt, i as int);
                                                lemma_update_frame(
                                                    lock_a,
                                                    lockfile.charts.deep_view(),
                                                    cs[i as int].name,
                                                    cs[i as int].repo_name->0,
                                                    cs[i as int].version->0,
                                                );
                                                lemma_frame_after_success(
                                                    cs,
                                                    filt,
                                                    before,
                                                    pre_lock,
                                                    lockfile.charts.deep_view(),
                                                    pre_events,
                                                    events.deep_view(),
                                                    i as int,
                                                );
                                            }
                                        },
                                        Err(e) => {
                                            let ghost ek = e@;
                                            events.push(
                                                SyncEvent::ChartSyncFailed {
                                                    name: chart.name.clone(),
                                                    error: e,
                                                },
                                            );
                                            proof {
                                                assert(events.deep_view() =~= evs_c.push(
                                                    SyncEventKind::ChartSyncFailed {
                                                        name: cs[i as int].name,
                                                        error: ek,
                                                    },
                                                )) by {
                                                    assert forall|k: int|
                                                        0 <= k < events.deep_view().len() implies #[trigger] events.deep_view()[k]
                                                        == evs_c.push(
                                                        SyncEventKind::ChartSyncFailed {
                                                            name: cs[i as int].name,
                                                            error: ek,
                                                        },
                                                    )[k] by {
                                                        assert(events.deep_view()[k]
                                                            == events@[k]@);
                                                    }
                                                }
                                            }
                                            failed = failed + 1;
                                            proof {
                    assert(!aborts_on_repo(cs, config.repositories@, filt, i as int));
                    assert(!aborts_on_dest(
                        cs,
                        config.repositories@,
                        config.destinations@,
                        filt,
                        i as int,
                    ));
                    assert(!run_aborts(
                        cs,
                        config.repositories@,
                        config.destinations@,
                        filt,
                        i as int,
                    ));
                                                fetch_branch_events(
                                                    pre_events,
                                                    evs_mid,
                                                    evs_c,
                                                    events.deep_view(),
                                                    cs[i as int].name,
                                                );
                                                lemma_counts_nonneg(pre_events);
                                                assert(count_fetch_start(events.deep_view())
                                                    > 0);
                                                assert(count_update_start(events.deep_view())
                                                    > 0) by {
                                                    if evs_mid == pre_events {
                                                        assert(count_update_start(pre_events)
                                                            > 0);
                                                    } else {
                                                        assert(evs_mid.len() == pre_events.len()
                                                            + 2);
                                                    }
                                                }
                                                reason_literals_distinct();
                                                assert forall|n2: Seq<char>, reason: Seq<char>|
                                                    #[trigger] has_skip_event(
                                                        events.deep_view(),
                                                        n2,
                                                        reason,
                                                    ) <==> (has_skip_event(
                                                    pre_events,
                                                    n2,
                                                    reason,
                                                ) || (None::<Seq<char>> == Some(reason) && n2
                                                    == cs[i as int].name)) by {}
                                                assert forall|n2: Seq<char>|
                                                    #[trigger] has_success_event(
                                                        events.deep_view(),
                                                        n2,
                                                    ) <==> (has_success_event(pre_events, n2) || (
                                                false && n2 == cs[i as int].name)) by {
                                                    assert(!(events.deep_view().last()
                                                        is ChartSyncSuccess));
                                                }
                                                lemma_skip_invs_step(
                                                    cs,
                                                    filt,
                                                    before,
                                                    pre_events,
                                                    events.deep_view(),
                                                    i as int,
                                                    options.ignore_skip,
                                                    None,
                                                    false,
                                                );
                                                lemma_count_selected_step(cs, filt, i as int);
                                                lemma_lock_frame_extend(
                                                    cs,
                                                    filt,
                                                    before,
                                                    pre_lock,
                                                    pre_events,
                                                    events.deep_view(),
                                                    i as int,
                                                );
                                            }
                                        },
                                    }
                                }
                            },
                        }
                    },
                }
            }
            i = i + 1;
        }
        proof {
            assert(cs.take(n as int) =~= cs);
        }
        Ok(SyncRun { stats: SyncStats { synced, failed, skipped }, events })
    }
}

/// An event for a chart name stays present when the stream only grows.
proof fn lemma_has_event_extends(es1: Seq<SyncEventKind>, es2: Seq<SyncEventKind>, name: Seq<char>)
    requires
        has_success_event(es1, name),
        es1.len() <= es2.len(),
        forall|k: int| 0 <= k < es1.len() ==> es2[k] == es1[k],
    ensures
        has_success_event(es2, name),
{
    let k = choose|k: int| 0 <= k < es1.len() && success_for(#[trigger] es1[k], name);
    assert(es2[k] == es1[k]);
}

/// Pushing one event changes which skip events exist in exactly one way.
proof fn lemma_skip_iff_step(es1: Seq<SyncEventKind>, es2: Seq<SyncEventKind>, x: SyncEventKind)
    requires
        es2 == es1.push(x),
    ensures
        forall|n2: Seq<char>, reason: Seq<char>|
            #[trigger] has_skip_event(es2, n2, reason) <==> (has_skip_event(es1, n2, reason) || x
                == (SyncEventKind::ChartSkipped { name: n2, reason })),
        forall|n2: Seq<char>|
            #[trigger] has_success_event(es2, n2) <==> (has_success_event(es1, n2) || success_for(
                x,
                n2,
            )),
{
    assert forall|n2: Seq<char>, reason: Seq<char>|
        #[trigger] has_skip_event(es2, n2, reason) <==> (has_skip_event(es1, n2, reason) || x == (
        SyncEventKind::ChartSkipped { name: n2, reason })) by {
        lemma_has_skip_push(es1, x, n2, reason);
    }
    assert forall|n2: Seq<char>|
        #[trigger] has_success_event(es2, n2) <==> (has_success_event(es1, n2) || success_for(
            x,
            n2,
        )) by {
        lemma_has_success_push(es1, x, n2);
    }
}

/// The events appended by one fetch attempt: possibly a repository-refresh
/// triple, one start event, and one terminal success or failure for the
/// chart. Relates all the counters and the skip/success facts across the
/// appended block.
proof fn fetch_branch_events(
    es0: Seq<SyncEventKind>,
    es_mid: Seq<SyncEventKind>,
    es_c: Seq<SyncEventKind>,
    es_final: Seq<SyncEventKind>,
    name: Seq<char>,
)
    requires
        es0.len() <= es_mid.len() <= es_c.len() < es_final.len(),
        forall|k: int| 0 <= k < es0.len() ==> es_mid[k] == es0[k],
        forall|k: int| 0 <= k < es_mid.len() ==> es_c[k] == es_mid[k],
        forall|k: int| 0 <= k < es_c.len() ==> es_final[k] == es_c[k],
        // the refresh block: either nothing, or start followed by one of the
        // two refresh outcomes
        es_mid == es0 || (es_mid.len() == es0.len() + 2 && es_mid[es0.len() as int]
            == SyncEventKind::RepoUpdateStart && !(es_mid[es0.len() as int + 1] is RepoUpdateStart)
            && !(es_mid[es0.len() as int + 1] is ChartSkipped) && !(es_mid[es0.len() as int + 1]
            is ChartSyncSuccess) && !(es_mid[es0.len() as int + 1] is ChartSyncFailed) && !(es_mid[es0.len() as int
            + 1] is ChartSyncStart)),
        es_c == es_mid.push(SyncEventKind::ChartSyncStart { name }),
        success_for(es_final.last(), name) || failed_for(es_final.last(), name),
        es_final.len() == es_c.len() + 1,
    ensures
        count_skipped(es_final) == count_skipped(es0),
        count_success(es_final) == count_success(es0) + if es_final.last() is ChartSyncSuccess {
            1int
        } else {
            0int
        },
        count_failed(es_final) == count_failed(es0) + if es_final.last() is ChartSyncFailed {
            1int
        } else {
            0int
        },
        count_update_start(es_final) == count_update_start(es0) + if es_mid == es0 {
            0int
        } else {
            1int
        },
        count_fetch_start(es_final) == count_fetch_start(es0) + 1,
        forall|n2: Seq<char>, reason: Seq<char>|
            #[trigger] has_skip_event(es_final, n2, reason) <==> has_skip_event(es0, n2, reason),
        forall|n2: Seq<char>|
            #[trigger] has_success_event(es_final, n2) <==> (has_success_event(es0, n2) || (
            es_final.last() is ChartSyncSuccess && n2 == name)),
{
    assert(es_final =~= es_c.push(es_final.last())) by {
        assert forall|k: int| 0 <= k < es_final.len() implies es_final[k] == es_c.push(
            es_final.last(),
        )[k] by {
            if k < es_c.len() {
                assert(es_final[k] == es_c[k]);
            }
        }
    }
    if es_mid == es0 {
    } else {
        assert(es_mid =~= es0.push(es_mid[es0.len() as int]).push(es_mid[es0.len() as int + 1])) by {
            assert forall|k: int|
                0 <= k < es_mid.len() implies #[trigger] es_mid[k] == es0.push(
                es_mid[es0.len() as int],
            ).push(es_mid[es0.len() as int + 1])[k] by {
                if k < es0.len() {
                    assert(es_mid[k] == es0[k]);
                }
            }
        }
        lemma_count_push_all(es0, es_mid[es0.len() as int]);
        lemma_count_push_all(es0.push(es_mid[es0.len() as int]), es_mid[es0.len() as int + 1]);
        lemma_skip_iff_step(es0, es0.push(es_mid[es0.len() as int]), es_mid[es0.len() as int]);
        lemma_skip_iff_step(
            es0.push(es_mid[es0.len() as int]),
            es_mid,
            es_mid[es0.len() as int + 1],
        );
    }
    lemma_count_push_all(es_mid, SyncEventKind::ChartSyncStart { name });
    lemma_skip_iff_step(es_mid, es_c, SyncEventKind::ChartSyncStart { name });
    lemma_count_push_all(es_c, es_final.last());
    lemma_skip_iff_step(es_c, es_final, es_final.last());
}

proof fn lemma_count_push_all(es: Seq<SyncEventKind>, x: SyncEventKind)
    ensures
        count_skipped(es.push(x)) == count_skipped(es) + if x is ChartSkipped {
            1int
        } else {
            0int
        },
        count_success(es.push(x)) == count_success(es) + if x is ChartSyncSuccess {
            1int
        } else {
            0int
        },
        count_failed(es.push(x)) == count_failed(es) + if x is ChartSyncFailed {
            1int
        } else {
            0int
        },
        count_update_start(es.push(x)) == count_update_start(es) + if x is RepoUpdateStart {
            1int
        } else {
            0int
        },
        count_fetch_start(es.push(x)) == count_fetch_start(es) + if x is ChartSyncStart {
            1int
        } else {
            0int
        },
{
    assert(es.push(x).drop_last() =~= es);
    assert(es.push(x).last() == x);
}

/// Composes the frame invariant with one lockfile update for the chart at
/// position `i` after its fetch succeeded.
proof fn lemma_frame_after_success(
    cs: Seq<ChartKind>,
    charts_filter: Option<Seq<Seq<char>>>,
    before: Seq<SyncedChartKind>,
    lock_pre: Seq<SyncedChartKind>,
    lock_post: Seq<SyncedChartKind>,
    es_pre: Seq<SyncEventKind>,
    es_post: Seq<SyncEventKind>,
    i: int,
)
    requires
        0 <= i < cs.len(),
        chart_selected(charts_filter, cs[i].name),
        !cs[i].no_sync,
        cs[i].repo_name is Some,
        cs[i].version is Some,
        lock_frame(cs.take(i), charts_filter, before, lock_pre, es_pre),
        spec_lock_get(lock_post, cs[i].name, cs[i].repo_name->0) == Some(
            SyncedChartKind {
                name: cs[i].name,
                repo_name: cs[i].repo_name->0,
                version: cs[i].version->0,
            },
        ),
        forall|n2: Seq<char>, r2: Seq<char>|
            !(n2 == cs[i].name && r2 == cs[i].repo_name->0) ==> #[trigger] spec_lock_get(
                lock_post,
                n2,
                r2,
            ) == spec_lock_get(lock_pre, n2, r2),
        has_success_event(es_post, cs[i].name),
        es_pre.len() <= es_post.len(),
        forall|k: int| 0 <= k < es_pre.len() ==> es_post[k] == es_pre[k],
    ensures
        lock_frame(cs.take(i + 1), charts_filter, before, lock_post, es_post),
{
    assert forall|n2: Seq<char>, r2: Seq<char>|
        {
            ||| #[trigger] spec_lock_get(lock_post, n2, r2) == spec_lock_get(before, n2, r2)
            ||| ((exists|t: int|
                {
                    &&& 0 <= t < cs.take(i + 1).len()
                    &&& chart_selected(charts_filter, #[trigger] cs.take(i + 1)[t].name)
                    &&& !cs.take(i + 1)[t].no_sync
                    &&& cs.take(i + 1)[t].name == n2
                    &&& cs.take(i + 1)[t].repo_name == Some(r2)
                    &&& cs.take(i + 1)[t].version is Some
                    &&& spec_lock_get(lock_post, n2, r2) == Some(
                        SyncedChartKind {
                            name: n2,
                            repo_name: r2,
                            version: cs.take(i + 1)[t].version->0,
                        },
                    )
                }) && has_success_event(es_post, n2))
        } by {
        if n2 == cs[i].name && r2 == cs[i].repo_name->0 {
            assert(cs.take(i + 1)[i] == cs[i]);
        } else {
            if spec_lock_get(lock_pre, n2, r2) != spec_lock_get(before, n2, r2) {
                let t = choose|t: int|
                    {
                        &&& 0 <= t < cs.take(i).len()
                        &&& chart_selected(charts_filter, #[trigger] cs.take(i)[t].name)
                        &&& !cs.take(i)[t].no_sync
                        &&& cs.take(i)[t].name == n2
                        &&& cs.take(i)[t].repo_name == Some(r2)
                        &&& cs.take(i)[t].version is Some
                        &&& spec_lock_get(lock_pre, n2, r2) == Some(
                            SyncedChartKind {
                                name: n2,
                                repo_name: r2,
                                version: cs.take(i)[t].version->0,
                            },
                        )
                    };
                assert(cs.take(i + 1)[t] == cs.take(i)[t]);
                assert(has_success_event(es_pre, n2));
                lemma_has_event_extends(es_pre, es_post, n2);
            }
        }
    }
}


/// The chart at position `k` explains an "up to date" skip for name `n2`:
/// it is selected, eligible, and its configured version was recorded either
/// in the lockfile as the run started or by an earlier success of this run.
pub open spec fn utd_chart_witness(
    cs: Seq<ChartKind>,
    charts_filter: Option<Seq<Seq<char>>>,
    before: Seq<SyncedChartKind>,
    es: Seq<SyncEventKind>,
    k: int,
    n2: Seq<char>,
) -> bool {
    &&& 0 <= k < cs.len()
    &&& chart_selected(charts_filter, cs[k].name)
    &&& cs[k].name == n2
    &&& !cs[k].no_sync
    &&& cs[k].repo_name is Some
    &&& cs[k].version is Some
    &&& (spec_lock_get(before, n2, cs[k].repo_name->0) == Some(
        SyncedChartKind { name: n2, repo_name: cs[k].repo_name->0, version: cs[k].version->0 },
    ) || has_success_event(es, n2))
}

proof fn reason_literals_distinct()
    ensures
        "no_sync=true"@ != "local chart"@,
        "no_sync=true"@ != "up to date"@,
        "local chart"@ != "up to date"@,
{
    reveal_strlit("no_sync=true");
    reveal_strlit("local chart");
    reveal_strlit("up to date");
    assert("no_sync=true"@.len() == 12);
    assert("local chart"@.len() == 11);
    assert("up to date"@.len() == 10);
}

/// Extends the three per-reason event invariants across one processed chart.
proof fn lemma_skip_invs_step(
    cs: Seq<ChartKind>,
    filt: Option<Seq<Seq<char>>>,
    before: Seq<SyncedChartKind>,
    es_old: Seq<SyncEventKind>,
    es_new: Seq<SyncEventKind>,
    i: int,
    ignore_skip: bool,
    added: Option<Seq<char>>,
    added_success: bool,
)
    requires
        0 <= i < cs.len(),
        forall|n2: Seq<char>, reason: Seq<char>|
            #[trigger] has_skip_event(es_new, n2, reason) <==> (has_skip_event(
                es_old,
                n2,
                reason,
            ) || (added == Some(reason) && n2 == cs[i].name)),
        forall|n2: Seq<char>|
            #[trigger] has_success_event(es_new, n2) <==> (has_success_event(es_old, n2) || (
            added_success && n2 == cs[i].name)),
        forall|n2: Seq<char>|
            #[trigger] has_skip_event(es_old, n2, "no_sync=true"@) <==> exists|k: int|
                0 <= k < i && chart_selected(filt, #[trigger] cs[k].name) && cs[k].name == n2
                    && cs[k].no_sync,
        forall|n2: Seq<char>|
            #[trigger] has_skip_event(es_old, n2, "local chart"@) <==> exists|k: int|
                0 <= k < i && chart_selected(filt, #[trigger] cs[k].name) && cs[k].name == n2
                    && !cs[k].no_sync && cs[k].repo_name is None,
        forall|n2: Seq<char>|
            #[trigger] has_skip_event(es_old, n2, "up to date"@) ==> !ignore_skip && exists|k: int|
                0 <= k < i && utd_chart_witness(cs, filt, before, es_old, k, n2),
        (chart_selected(filt, cs[i].name) && cs[i].no_sync) <==> added == Some("no_sync=true"@),
        (chart_selected(filt, cs[i].name) && !cs[i].no_sync && cs[i].repo_name is None) <==> added
            == Some("local chart"@),
        added == Some("up to date"@) ==> !ignore_skip && utd_chart_witness(
            cs,
            filt,
            before,
            es_old,
            i,
            cs[i].name,
        ),
    ensures
        forall|n2: Seq<char>|
            #[trigger] has_skip_event(es_new, n2, "no_sync=true"@) <==> exists|k: int|
                0 <= k < i + 1 && chart_selected(filt, #[trigger] cs[k].name) && cs[k].name == n2
                    && cs[k].no_sync,
        forall|n2: Seq<char>|
            #[trigger] has_skip_event(es_new, n2, "local chart"@) <==> exists|k: int|
                0 <= k < i + 1 && chart_selected(filt, #[trigger] cs[k].name) && cs[k].name == n2
                    && !cs[k].no_sync && cs[k].repo_name is None,
        forall|n2: Seq<char>|
            #[trigger] has_skip_event(es_new, n2, "up to date"@) ==> !ignore_skip && exists|k: int|
                0 <= k < i + 1 && utd_chart_witness(cs, filt, before, es_new, k, n2),
{
    reason_literals_distinct();
    assert forall|n2: Seq<char>|
        #[trigger] has_skip_event(es_new, n2, "no_sync=true"@) <==> exists|k: int|
            0 <= k < i + 1 && chart_selected(filt, #[trigger] cs[k].name) && cs[k].name == n2
                && cs[k].no_sync by {
        if has_skip_event(es_new, n2, "no_sync=true"@) {
            if has_skip_event(es_old, n2, "no_sync=true"@) {
                let k = choose|k: int|
                    0 <= k < i && chart_selected(filt, #[trigger] cs[k].name) && cs[k].name == n2
                        && cs[k].no_sync;
                assert(0 <= k < i + 1 && chart_selected(filt, cs[k].name) && cs[k].name == n2
                    && cs[k].no_sync);
            } else {
                assert(added == Some("no_sync=true"@) && n2 == cs[i].name);
                assert(chart_selected(filt, cs[i].name) && cs[i].no_sync);
            }
        }
        if exists|k: int|
            0 <= k < i + 1 && chart_selected(filt, #[trigger] cs[k].name) && cs[k].name == n2
                && cs[k].no_sync {
            let k = choose|k: int|
                0 <= k < i + 1 && chart_selected(filt, #[trigger] cs[k].name) && cs[k].name == n2
                    && cs[k].no_sync;
            if k < i {
                assert(has_skip_event(es_old, n2, "no_sync=true"@));
            } else {
                assert(added == Some("no_sync=true"@));
            }
            assert(has_skip_event(es_new, n2, "no_sync=true"@));
        }
    }
    assert forall|n2: Seq<char>|
        #[trigger] has_skip_event(es_new, n2, "local chart"@) <==> exists|k: int|
            0 <= k < i + 1 && chart_selected(filt, #[trigger] cs[k].name) && cs[k].name == n2
                && !cs[k].no_sync && cs[k].repo_name is None by {
        if has_skip_event(es_new, n2, "local chart"@) {
            if has_skip_event(es_old, n2, "local chart"@) {
                let k = choose|k: int|
                    0 <= k < i && chart_selected(filt, #[trigger] cs[k].name) && cs[k].name == n2
                        && !cs[k].no_sync && cs[k].repo_name is None;
                assert(0 <= k < i + 1 && chart_selected(filt, cs[k].name) && cs[k].name == n2
                    && !cs[k].no_sync && cs[k].repo_name is None);
            } else {
                assert(added == Some("local chart"@) && n2 == cs[i].name);
                assert(chart_selected(filt, cs[i].name) && !cs[i].no_sync && cs[i].repo_name
                    is None);
            }
        }
        if exists|k: int|
            0 <= k < i + 1 && chart_selected(filt, #[trigger] cs[k].name) && cs[k].name == n2
                && !cs[k].no_sync && cs[k].repo_name is None {
            let k = choose|k: int|
                0 <= k < i + 1 && chart_selected(filt, #[trigger] cs[k].name) && cs[k].name == n2
                    && !cs[k].no_sync && cs[k].repo_name is None;
            if k < i {
                assert(has_skip_event(es_old, n2, "local chart"@));
            } else {
                assert(added == Some("local chart"@));
            }
            assert(has_skip_event(es_new, n2, "local chart"@));
        }
    }
    assert forall|n2: Seq<char>|
        has_skip_event(es_new, n2, "up to date"@) implies !ignore_skip && exists|k: int|
            0 <= k < i + 1 && utd_chart_witness(cs, filt, before, es_new, k, n2) by {
        if has_skip_event(es_old, n2, "up to date"@) {
            let k = choose|k: int|
                0 <= k < i && utd_chart_witness(cs, filt, before, es_old, k, n2);
            assert(utd_chart_witness(cs, filt, before, es_new, k, n2));
        } else {
            assert(added == Some("up to date"@) && n2 == cs[i].name);
            assert(utd_chart_witness(cs, filt, before, es_old, i, n2));
            assert(utd_chart_witness(cs, filt, before, es_new, i, n2));
        }
    }
}

} // verus!
