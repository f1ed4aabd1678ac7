//! The configuration model: repositories, charts, destinations, and the
//! integrity rules that every loaded configuration must satisfy.
use vstd::prelude::*;

verus! {

/// The closed set of source kinds a repository can have.
#[derive(Clone, Copy, Debug, PartialEq, Eq, Structural)]
pub enum RepoType {
    Helm,
    Git,
    Oci,
}

/// A named, typed source that charts reference to locate their artifact.
pub struct Repository {
    pub name: String,
    pub url: String,
    pub repo_type: RepoType,
}

/// Mathematical image of a [`Repository`].
pub struct RepositoryView {
    pub name: Seq<char>,
    pub url: Seq<char>,
    pub repo_type: RepoType,
}

impl View for Repository {
    type V = RepositoryView;

    open spec fn view(&self) -> RepositoryView {
        RepositoryView { name: self.name@, url: self.url@, repo_type: self.repo_type }
    }
}

impl DeepView for Repository {
    type V = RepositoryView;

    open spec fn deep_view(&self) -> RepositoryView {
        self.view()
    }
}

impl Clone for Repository {
    fn clone(&self) -> (r: Self)
        ensures
            r@ == self@,
    {
        Repository { name: self.name.clone(), url: self.url.clone(), repo_type: self.repo_type }
    }
}

/// A named directory that fetched charts are materialized under.
pub struct Destination {
    pub name: String,
    pub path: String,
}

/// Mathematical image of a [`Destination`].
pub struct DestinationView {
    pub name: Seq<char>,
    pub path: Seq<char>,
}

impl View for Destination {
    type V = DestinationView;

    open spec fn view(&self) -> DestinationView {
        DestinationView { name: self.name@, path: self.path@ }
    }
}

impl DeepView for Destination {
    type V = DestinationView;

    open spec fn deep_view(&self) -> DestinationView {
        self.view()
    }
}

impl Clone for Destination {
    fn clone(&self) -> (r: Self)
        ensures
            r@ == self@,
    {
        Destination { name: self.name.clone(), path: self.path.clone() }
    }
}

/// Global settings for the packaging tool invocation.
pub struct HelmConfig {
    pub args: String,
    pub diff_enabled: bool,
    pub diff_args: Option<String>,
}

/// Mathematical image of a [`HelmConfig`].
pub struct HelmConfigView {
    pub args: Seq<char>,
    pub diff_enabled: bool,
    pub diff_args: Option<Seq<char>>,
}

impl View for HelmConfig {
    type V = HelmConfigView;

    open spec fn view(&self) -> HelmConfigView {
        HelmConfigView {
            args: self.args@,
            diff_enabled: self.diff_enabled,
            diff_args: self.diff_args.deep_view(),
        }
    }
}

/// The default of a configuration flag that is on unless switched off.
pub fn default_true() -> (r: bool)
    ensures
        r,
{
    true
}

/// One deployable unit entry of the configuration, identified by
/// (name, namespace).
pub struct Chart {
    pub name: String,
    pub repo_name: Option<String>,
    pub version: Option<String>,
    pub namespace: String,
    pub dest: Option<String>,
    pub chart_path: Option<String>,
    pub no_sync: bool,
    pub no_deploy: bool,
    pub comment: Option<String>,
    pub values_files: Option<Vec<String>>,
    pub helm_args_append: Option<String>,
    pub helm_args_override: Option<String>,
    pub depends: Option<Vec<String>>,
}

/// Mathematical image of a [`Chart`]. An absent `depends` list and an empty
/// one are equivalent, so both project to the empty sequence.
pub struct ChartKind {
    pub name: Seq<char>,
    pub repo_name: Option<Seq<char>>,
    pub version: Option<Seq<char>>,
    pub namespace: Seq<char>,
    pub dest: Option<Seq<char>>,
    pub chart_path: Option<Seq<char>>,
    pub no_sync: bool,
    pub no_deploy: bool,
    pub comment: Option<Seq<char>>,
    pub values_files: Option<Seq<Seq<char>>>,
    pub helm_args_append: Option<Seq<char>>,
    pub helm_args_override: Option<Seq<char>>,
    pub depends: Seq<Seq<char>>,
}

impl View for Chart {
    type V = ChartKind;

    open spec fn view(&self) -> ChartKind {
        ChartKind {
            name: self.name@,
            repo_name: self.repo_name.deep_view(),
            version: self.version.deep_view(),
            namespace: self.namespace@,
            dest: self.dest.deep_view(),
            chart_path: self.chart_path.deep_view(),
            no_sync: self.no_sync,
            no_deploy: self.no_deploy,
            comment: self.comment.deep_view(),
            values_files: self.values_files.deep_view(),
            helm_args_append: self.helm_args_append.deep_view(),
            helm_args_override: self.helm_args_override.deep_view(),
            depends: match self.depends.deep_view() {
                Some(d) => d,
                None => Seq::empty(),
            },
        }
    }
}

impl DeepView for Chart {
    type V = ChartKind;

    open spec fn deep_view(&self) -> ChartKind {
        self.view()
    }
}

fn clone_opt_string(o: &Option<String>) -> (r: Option<String>)
    ensures
        r.deep_view() == o.deep_view(),
{
    match o {
        Some(s) => Some(s.clone()),
        None => None,
    }
}

fn clone_string_vec(v: &Vec<String>) -> (r: Vec<String>)
    ensures
        r.deep_view() == v.deep_view(),
{
    let mut r: Vec<String> = Vec::new();
    proof {
        assert(r.deep_view() =~= v.deep_view().take(0));
    }
    let mut i: usize = 0;
    while i < v.len()
        invariant
            i <= v@.len(),
            r@.len() == i,
            r.deep_view() == v.deep_view().take(i as int),
        decreases v@.len() - i,
    {
        r.push(v[i].clone());
        proof {
            assert(r@[i as int] == v@[i as int]);
            assert forall|k: int| 0 <= k < i + 1 implies r.deep_view()[k] == v.deep_view().take(
                i + 1,
            )[k] by {
                if k < i {
                    assert(r.deep_view()[k] == v.deep_view().take(i as int)[k]);
                }
            }
            assert(r.deep_view() =~= v.deep_view().take(i + 1));
        }
        i = i + 1;
    }
    proof {
        assert(v.deep_view().take(v.deep_view().len() as int) =~= v.deep_view());
    }
    r
}

fn clone_opt_string_vec(o: &Option<Vec<String>>) -> (r: Option<Vec<String>>)
    ensures
        r.deep_view() == o.deep_view(),
{
    match o {
        Some(v) => Some(clone_string_vec(v)),
        None => None,
    }
}

impl Clone for Chart {
    fn clone(&self) -> (r: Self)
        ensures
            r@ == self@,
    {
        Chart {
            name: self.name.clone(),
            repo_name: clone_opt_string(&self.repo_name),
            version: clone_opt_string(&self.version),
            namespace: self.namespace.clone(),
            dest: clone_opt_string(&self.dest),
            chart_path: clone_opt_string(&self.chart_path),
            no_sync: self.no_sync,
            no_deploy: self.no_deploy,
            comment: clone_opt_string(&self.comment),
            values_files: clone_opt_string_vec(&self.values_files),
            helm_args_append: clone_opt_string(&self.helm_args_append),
            helm_args_override: clone_opt_string(&self.helm_args_override),
            depends: clone_opt_string_vec(&self.depends),
        }
    }
}

/// The whole parsed configuration document.
pub struct Config {
    pub repositories: Vec<Repository>,
    pub charts: Vec<Chart>,
    pub destinations: Vec<Destination>,
    pub helm: Option<HelmConfig>,
}

/// The first repository carrying the given name, if any.
pub open spec fn spec_find_repo(repos: Seq<Repository>, name: Seq<char>) -> Option<Repository>
    decreases repos.len(),
{
    if repos.len() == 0 {
        None
    } else if repos[0]@.name == name {
        Some(repos[0])
    } else {
        spec_find_repo(repos.drop_first(), name)
    }
}

/// Looks a repository up by name; returns the first match.
pub fn find_repository<'a>(repos: &'a Vec<Repository>, name: &str) -> (r: Option<&'a Repository>)
    ensures
        match r {
            Some(repo) => spec_find_repo(repos@, name@) == Some(*repo),
            None => spec_find_repo(repos@, name@) is None,
        },
{
    let mut i: usize = 0;
    proof {
        assert(repos@.skip(0) =~= repos@);
    }
    while i < repos.len()
        invariant
            i <= repos@.len(),
            spec_find_repo(repos@, name@) == spec_find_repo(repos@.skip(i as int), name@),
        decreases repos@.len() - i,
    {
        if crate::text::str_eq(repos[i].name.as_str(), name) {
            proof {
                assert(repos@.skip(i as int)[0] == repos@[i as int]);
            }
            return Some(&repos[i]);
        }
        proof {
            assert(repos@.skip(i as int)[0] == repos@[i as int]);
            assert(repos@.skip(i as int).drop_first() =~= repos@.skip(i + 1));
        }
        i = i + 1;
    }
    proof {
        assert(repos@.skip(repos@.len() as int).len() == 0);
    }
    None
}

/// The first destination carrying the given name, if any.
pub open spec fn spec_find_dest(dests: Seq<Destination>, name: Seq<char>) -> Option<Destination>
    decreases dests.len(),
{
    if dests.len() == 0 {
        None
    } else if dests[0]@.name == name {
        Some(dests[0])
    } else {
        spec_find_dest(dests.drop_first(), name)
    }
}

/// Looks a destination up by name; returns the first match.
pub fn find_destination<'a>(dests: &'a Vec<Destination>, name: &str) -> (r: Option<
    &'a Destination,
>)
    ensures
        match r {
            Some(d) => spec_find_dest(dests@, name@) == Some(*d),
            None => spec_find_dest(dests@, name@) is None,
        },
{
    let mut i: usize = 0;
    proof {
        assert(dests@.skip(0) =~= dests@);
    }
    while i < dests.len()
        invariant
            i <= dests@.len(),
            spec_find_dest(dests@, name@) == spec_find_dest(dests@.skip(i as int), name@),
        decreases dests@.len() - i,
    {
        if crate::text::str_eq(dests[i].name.as_str(), name) {
            proof {
                assert(dests@.skip(i as int)[0] == dests@[i as int]);
            }
            return Some(&dests[i]);
        }
        proof {
            assert(dests@.skip(i as int)[0] == dests@[i as int]);
            assert(dests@.skip(i as int).drop_first() =~= dests@.skip(i + 1));
        }
        i = i + 1;
    }
    proof {
        assert(dests@.skip(dests@.len() as int).len() == 0);
    }
    None
}

/// A configuration-integrity fault; fatal before any sync or deploy work.
#[derive(Debug)]
pub enum ConfigError {
    DuplicateRepositoryNames,
    DuplicateDestinationNames,
    DuplicateChart { name: String, namespace: String },
    ChartRepoNotFound { chart: String, repo: String },
    ChartDestNotFound { chart: String, dest: String },
}

/// Two repositories share a name.
pub open spec fn dup_repo_names(repos: Seq<Repository>) -> bool {
    exists|i: int, j: int| 0 <= i < j < repos.len() && repos[i]@.name == repos[j]@.name
}

/// Two destinations share a name.
pub open spec fn dup_dest_names(dests: Seq<Destination>) -> bool {
    exists|i: int, j: int| 0 <= i < j < dests.len() && dests[i]@.name == dests[j]@.name
}

/// Two charts share the (name, namespace) identity.
pub open spec fn dup_chart_keys(charts: Seq<Chart>) -> bool {
    exists|i: int, j: int|
        0 <= i < j < charts.len() && charts[i]@.name == charts[j]@.name && charts[i]@.namespace
            == charts[j]@.namespace
}

/// The chart at position `i` references a repository that is not configured.
pub open spec fn dangling_repo_at(charts: Seq<Chart>, repos: Seq<Repository>, i: int) -> bool {
    &&& 0 <= i < charts.len()
    &&& charts[i]@.repo_name is Some
    &&& spec_find_repo(repos, charts[i]@.repo_name->0) is None
}

/// The chart at position `i` references a destination that is not configured.
pub open spec fn dangling_dest_at(charts: Seq<Chart>, dests: Seq<Destination>, i: int) -> bool {
    &&& 0 <= i < charts.len()
    &&& charts[i]@.dest is Some
    &&& spec_find_dest(dests, charts[i]@.dest->0) is None
}

/// Every configuration-integrity rule holds: unique repository, destination
/// and (name, namespace) identities, and no dangling references.
pub open spec fn config_valid(c: &Config) -> bool {
    &&& !dup_repo_names(c.repositories@)
    &&& !dup_dest_names(c.destinations@)
    &&& !dup_chart_keys(c.charts@)
    &&& forall|i: int| !dangling_repo_at(c.charts@, c.repositories@, i)
    &&& forall|i: int| !dangling_dest_at(c.charts@, c.destinations@, i)
}

fn has_dup_repo_names(repos: &Vec<Repository>) -> (r: bool)
    ensures
        r == dup_repo_names(repos@),
{
    let mut i: usize = 0;
    while i < repos.len()
        invariant
            i <= repos@.len(),
            forall|a: int, b: int|
                0 <= a < b < i && b < repos@.len() ==> repos@[a]@.name != repos@[b]@.name,
        decreases repos@.len() - i,
    {
        let mut j: usize = 0;
        while j < i
            invariant
                i < repos@.len(),
                j <= i,
                forall|a: int| 0 <= a < j ==> repos@[a]@.name != repos@[i as int]@.name,
            decreases i - j,
        {
            if repos[j].name == repos[i].name {
                return true;
            }
            j = j + 1;
        }
        i = i + 1;
    }
    false
}

fn has_dup_dest_names(dests: &Vec<Destination>) -> (r: bool)
    ensures
        r == dup_dest_names(dests@),
{
    let mut i: usize = 0;
    while i < dests.len()
        invariant
            i <= dests@.len(),
            forall|a: int, b: int|
                0 <= a < b < i && b < dests@.len() ==> dests@[a]@.name != dests@[b]@.name,
        decreases dests@.len() - i,
    {
        let mut j: usize = 0;
        while j < i
            invariant
                i < dests@.len(),
                j <= i,
                forall|a: int| 0 <= a < j ==> dests@[a]@.name != dests@[i as int]@.name,
            decreases i - j,
        {
            if dests[j].name == dests[i].name {
                return true;
            }
            j = j + 1;
        }
        i = i + 1;
    }
    false
}

fn find_dup_chart_key(charts: &Vec<Chart>) -> (r: Option<usize>)
    ensures
        match r {
            Some(i) => i < charts@.len() && exists|a: int|
                0 <= a < i && charts@[a]@.name == charts@[i as int]@.name && charts@[a]@.namespace
                    == charts@[i as int]@.namespace,
            None => !dup_chart_keys(charts@),
        },
{
    let mut i: usize = 0;
    while i < charts.len()
        invariant
            i <= charts@.len(),
            forall|a: int, b: int|
                0 <= a < b < i && b < charts@.len() ==> !(charts@[a]@.name == charts@[b]@.name
                    && charts@[a]@.namespace == charts@[b]@.namespace),
        decreases charts@.len() - i,
    {
        let mut j: usize = 0;
        while j < i
            invariant
                i < charts@.len(),
                j <= i,
                forall|a: int|
                    0 <= a < j ==> !(charts@[a]@.name == charts@[i as int]@.name
                        && charts@[a]@.namespace == charts@[i as int]@.namespace),
            decreases i - j,
        {
            if charts[j].name == charts[i].name && charts[j].namespace == charts[i].namespace {
                return Some(i);
            }
            j = j + 1;
        }
        i = i + 1;
    }
    None
}

/// Checks every configuration-integrity rule, in a fixed order: duplicate
/// repository names, duplicate destination names, duplicate chart identities,
/// dangling repository references, dangling destination references.
#[verifier::loop_isolation(false)]
pub fn validate_config(config: &Config) -> (r: Result<(), ConfigError>)
    ensures
        r is Ok <==> config_valid(config),
        (r matches Err(e) && e is DuplicateRepositoryNames) <==> dup_repo_names(
            config.repositories@,
        ),
        (r matches Err(e) && e is DuplicateDestinationNames) <==> (!dup_repo_names(
            config.repositories@,
        ) && dup_dest_names(config.destinations@)),
        (r matches Err(e) && e is DuplicateChart) <==> (!dup_repo_names(config.repositories@)
            && !dup_dest_names(config.destinations@) && dup_chart_keys(config.charts@)),
        r matches Err(ConfigError::DuplicateChart { name, namespace }) ==> exists|a: int, b: int|
            0 <= a < b < config.charts@.len() && charts_share_key(config.charts@, a, b)
                && config.charts@[b]@.name == name@ && config.charts@[b]@.namespace == namespace@,
        (r matches Err(e) && e is ChartRepoNotFound) <==> (!dup_repo_names(config.repositories@)
            && !dup_dest_names(config.destinations@) && !dup_chart_keys(config.charts@) && exists|
            i: int,
        | dangling_repo_at(config.charts@, config.repositories@, i)),
        r matches Err(ConfigError::ChartRepoNotFound { chart, repo }) ==> exists|i: int|
            dangling_repo_at(config.charts@, config.repositories@, i) && config.charts@[i]@.name
                == chart@ && config.charts@[i]@.repo_name == Some(repo@),
        (r matches Err(e) && e is ChartDestNotFound) <==> (!dup_repo_names(config.repositories@)
            && !dup_dest_names(config.destinations@) && !dup_chart_keys(config.charts@) && (forall|
            i: int,
        | !dangling_repo_at(config.charts@, config.repositories@, i)) && exists|i: int|
            dangling_dest_at(config.charts@, config.destinations@, i)),
        r matches Err(ConfigError::ChartDestNotFound { chart, dest }) ==> exists|i: int|
            dangling_dest_at(config.charts@, config.destinations@, i) && config.charts@[i]@.name
                == chart@ && config.charts@[i]@.dest == Some(dest@),
{
    if has_dup_repo_names(&config.repositories) {
        return Err(ConfigError::DuplicateRepositoryNames);
    }
    if has_dup_dest_names(&config.destinations) {
        return Err(ConfigError::DuplicateDestinationNames);
    }
    match find_dup_chart_key(&config.charts) {
        Some(i) => {
            proof {
                let a = choose|a: int|
                    0 <= a < i && config.charts@[a]@.name == config.charts@[i as int]@.name
                        && config.charts@[a]@.namespace == config.charts@[i as int]@.namespace;
                assert(charts_share_key(config.charts@, a, i as int));
            }
            return Err(
                ConfigError::DuplicateChart {
                    name: config.charts[i].name.clone(),
                    namespace: config.charts[i].namespace.clone(),
                },
            );
        },
        None => {},
    }
    let mut i: usize = 0;
    while i < config.charts.len()
        invariant
            i <= config.charts@.len(),
            forall|k: int| 0 <= k < i ==> !dangling_repo_at(config.charts@, config.repositories@, k),
        decreases config.charts@.len() - i,
    {
        match &config.charts[i].repo_name {
            Some(rn) => {
                if find_repository(&config.repositories, rn.as_str()).is_none() {
                    assert(dangling_repo_at(config.charts@, config.repositories@, i as int));
                    return Err(
                        ConfigError::ChartRepoNotFound {
                            chart: config.charts[i].name.clone(),
                            repo: rn.clone(),
                        },
                    );
                }
            },
            None => {},
        }
        i = i + 1;
    }
    assert(forall|k: int| !dangling_repo_at(config.charts@, config.repositories@, k));
    let mut i: usize = 0;
    while i < config.charts.len()
        invariant
            i <= config.charts@.len(),
            forall|k: int| 0 <= k < i ==> !dangling_dest_at(config.charts@, config.destinations@, k),
        decreases config.charts@.len() - i,
    {
        match &config.charts[i].dest {
            Some(d) => {
                if find_destination(&config.destinations, d.as_str()).is_none() {
                    assert(dangling_dest_at(config.charts@, config.destinations@, i as int));
                    return Err(
                        ConfigError::ChartDestNotFound {
                            chart: config.charts[i].name.clone(),
                            dest: d.clone(),
                        },
                    );
                }
            },
            None => {},
        }
        i = i + 1;
    }
    assert(forall|k: int| !dangling_dest_at(config.charts@, config.destinations@, k));
    Ok(())
}

/// Charts at positions `a` and `b` carry the same (name, namespace) identity.
pub open spec fn charts_share_key(charts: Seq<Chart>, a: int, b: int) -> bool {
    &&& 0 <= a < charts.len()
    &&& 0 <= b < charts.len()
    &&& charts[a]@.name == charts[b]@.name
    &&& charts[a]@.namespace == charts[b]@.namespace
}

} // verus!
