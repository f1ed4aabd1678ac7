//! Derivation of chart details from the three source kinds a chart can be
//! added from: a package-hub URL, a version-control URL, or a registry URL.
use vstd::prelude::*;
use vstd::string::StringExecFns;

use crate::config::RepoType;
use crate::text::{
    chars_to_string, copy_range, find_from, lemma_find_from_some, match_at, str_to_chars,
};

verus! {

/// A package as the package hub reports it.
pub struct Package {
    pub name: String,
    pub version: String,
    pub repository: Repository,
}

/// The repository entry inside a package-hub answer.
pub struct Repository {
    pub name: String,
    pub url: String,
}

/// Everything needed to write a new chart into the configuration.
pub struct ChartDetails {
    pub repo_name: String,
    pub repo_url: String,
    pub chart_name: String,
    pub version: Option<String>,
    pub chart_path: Option<String>,
    pub repo_type: RepoType,
    pub comment: Option<String>,
}

/// The three interactive sources a chart can be added from.
#[derive(Debug, Clone, Copy, PartialEq, Eq, Structural)]
pub enum SourceKind {
    ArtifactHub,
    Git,
    Oci,
}

/// Maps a menu selection to the source kind it stands for.
pub fn get_source(selection: usize) -> (r: Option<SourceKind>)
    ensures
        r == (if selection == 0 {
            Some(SourceKind::ArtifactHub)
        } else if selection == 1 {
            Some(SourceKind::Git)
        } else if selection == 2 {
            Some(SourceKind::Oci)
        } else {
            None::<SourceKind>
        }),
{
    if selection == 0 {
        Some(SourceKind::ArtifactHub)
    } else if selection == 1 {
        Some(SourceKind::Git)
    } else if selection == 2 {
        Some(SourceKind::Oci)
    } else {
        None
    }
}

/// A package from a registry-schemed repository becomes a registry chart;
/// anything else is a plain package-repository chart.
pub fn map_package_to_details(package: Package, comment: Option<String>) -> (r: ChartDetails)
    ensures
        r.repo_name@ == package.name@,
        r.repo_url@ == package.repository.url@,
        r.chart_name@ == package.name@,
        r.version.deep_view() == Some(package.version@),
        r.chart_path is None,
        r.repo_type == (if "oci://"@.len() <= package.repository.url@.len()
            && package.repository.url@.take("oci://"@.len() as int) == "oci://"@ {
            RepoType::Oci
        } else {
            RepoType::Helm
        }),
        r.comment.deep_view() == comment.deep_view(),
{
    let repo_type = if crate::text::is_prefix(package.repository.url.as_str(), "oci://") {
        RepoType::Oci
    } else {
        RepoType::Helm
    };
    ChartDetails {
        repo_name: package.name.clone(),
        repo_url: package.repository.url,
        chart_name: package.name,
        version: Some(package.version),
        chart_path: None,
        repo_type,
        comment,
    }
}

/// The sequence with every trailing `/` removed.
pub open spec fn trim_trailing_slash(s: Seq<char>) -> Seq<char>
    decreases s.len(),
{
    if s.len() > 0 && s.last() == '/' {
        trim_trailing_slash(s.drop_last())
    } else {
        s
    }
}

/// Position right after the last `/`, or zero when there is none.
pub open spec fn after_last_slash(s: Seq<char>) -> int
    decreases s.len(),
{
    if s.len() == 0 {
        0
    } else if s.last() == '/' {
        s.len() as int
    } else {
        after_last_slash(s.drop_last())
    }
}

/// The segment after the last `/`, or the whole sequence when there is none.
pub open spec fn last_segment(s: Seq<char>) -> Seq<char> {
    s.skip(after_last_slash(s))
}

proof fn lemma_after_last_slash_bounds(s: Seq<char>)
    ensures
        0 <= after_last_slash(s) <= s.len(),
    decreases s.len(),
{
    if s.len() > 0 && s.last() != '/' {
        lemma_after_last_slash_bounds(s.drop_last());
    }
}

fn trim_trailing_slash_exec(v: &[char]) -> (r: Vec<char>)
    ensures
        r@ == trim_trailing_slash(v@),
{
    let mut end = v.len();
    proof {
        assert(v@.take(v@.len() as int) =~= v@);
    }
    while end > 0 && v[end - 1] == '/'
        invariant
            end <= v@.len(),
            trim_trailing_slash(v@) == trim_trailing_slash(v@.take(end as int)),
        decreases end,
    {
        proof {
            assert(v@.take(end as int).last() == v@[end - 1]);
            assert(v@.take(end as int).drop_last() =~= v@.take(end - 1));
        }
        end = end - 1;
    }
    let r = copy_range(v, 0, end);
    proof {
        if end > 0 {
            assert(v@.take(end as int).last() == v@[end - 1]);
            assert(trim_trailing_slash(v@.take(end as int)) == v@.take(end as int));
        } else {
            assert(v@.take(0).len() == 0);
        }
        assert(r@ =~= v@.take(end as int));
    }
    r
}

fn last_segment_exec(v: &[char]) -> (r: Vec<char>)
    ensures
        r@ == last_segment(v@),
{
    proof {
        lemma_after_last_slash_bounds(v@);
    }
    let mut cut = v.len();
    proof {
        assert(v@.take(v@.len() as int) =~= v@);
    }
    while cut > 0 && v[cut - 1] != '/'
        invariant
            cut <= v@.len(),
            after_last_slash(v@) == after_last_slash(v@.take(cut as int)),
        decreases cut,
    {
        proof {
            assert(v@.take(cut as int).last() == v@[cut - 1]);
            assert(v@.take(cut as int).drop_last() =~= v@.take(cut - 1));
        }
        cut = cut - 1;
    }
    proof {
        if cut > 0 {
            assert(v@.take(cut as int).last() == v@[cut - 1]);
            assert(after_last_slash(v@.take(cut as int)) == cut as int);
        } else {
            assert(after_last_slash(v@.take(0)) == 0);
        }
    }
    let r = copy_range(v, cut, v.len());
    proof {
        assert(r@ =~= v@.skip(cut as int));
    }
    r
}

/// Derives (repository name, chart name) for a version-control source: each
/// is the last path segment of its input, trailing slashes ignored.
pub fn derive_git(url: &str, chart_path: &str) -> (r: (String, String))
    ensures
        r.0@ == last_segment(trim_trailing_slash(url@)),
        r.1@ == last_segment(trim_trailing_slash(chart_path@)),
{
    let uc = str_to_chars(url);
    let ut = trim_trailing_slash_exec(uc.as_slice());
    let repo = last_segment_exec(ut.as_slice());
    let pc = str_to_chars(chart_path);
    let pt = trim_trailing_slash_exec(pc.as_slice());
    let chart = last_segment_exec(pt.as_slice());
    (chars_to_string(&repo), chars_to_string(&chart))
}

/// Derives (repository name, repository URL, chart name) for a registry
/// source: the chart is the last path segment, the repository URL is what
/// precedes it, and the repository is named after the chart.
pub fn derive_oci(url: &str) -> (r: (String, String, String))
    ensures
        r.2@ == last_segment(url@),
        r.0@ == last_segment(url@),
        r.1@ == (if after_last_slash(url@) > 0 {
            url@.take(after_last_slash(url@) - 1)
        } else {
            Seq::<char>::empty()
        }),
{
    let uc = str_to_chars(url);
    let chart = last_segment_exec(uc.as_slice());
    proof {
        lemma_after_last_slash_bounds(url@);
    }
    let ghost cut_g = after_last_slash(url@);
    let cut = uc.len() - chart.len();
    proof {
        assert(chart@.len() == url@.len() - cut_g);
        assert(cut as int == cut_g);
    }
    let prefix = if cut > 0 {
        copy_range(uc.as_slice(), 0, cut - 1)
    } else {
        Vec::new()
    };
    proof {
        if cut > 0 {
            assert(prefix@ =~= url@.take(cut_g - 1));
        } else {
            assert(prefix@ =~= Seq::<char>::empty());
        }
    }
    let chart_s = chars_to_string(&chart);
    let repo_name = chart_s.clone();
    (repo_name, chars_to_string(&prefix), chart_s)
}

/// A fault while reading a package-hub URL.
#[derive(Debug, PartialEq, Eq, Structural, Clone, Copy)]
pub enum SourceError {
    InvalidHubUrl,
}

/// Where the hub package path begins: right after the first occurrence of
/// the fixed hub prefix.
pub open spec fn hub_path_start(url: Seq<char>) -> Option<int> {
    match find_from(url, "artifacthub.io/packages/helm/"@, 0) {
        Some(i) => Some(i + "artifacthub.io/packages/helm/"@.len()),
        None => None,
    }
}

/// End of the run of non-`/` characters starting at `k`.
pub open spec fn seg_end(s: Seq<char>, k: int) -> int
    decreases s.len() - k,
{
    if k < 0 || k >= s.len() {
        k
    } else if s[k] == '/' {
        k
    } else {
        seg_end(s, k + 1)
    }
}

/// End of the run of non-`/`, non-`?` characters starting at `k`.
pub open spec fn chart_seg_end(s: Seq<char>, k: int) -> int
    decreases s.len() - k,
{
    if k < 0 || k >= s.len() {
        k
    } else if s[k] == '/' || s[k] == '?' {
        k
    } else {
        chart_seg_end(s, k + 1)
    }
}

/// What parsing a hub URL yields: the repository and chart segments after
/// the fixed prefix, separated by one `/`; both must be non-empty.
pub open spec fn parse_hub_url(url: Seq<char>) -> Option<(Seq<char>, Seq<char>)> {
    match hub_path_start(url) {
        None => None,
        Some(a) => {
            let b = seg_end(url, a);
            if b == a || b >= url.len() || url[b] != '/' {
                None
            } else {
                let c = chart_seg_end(url, b + 1);
                if c == b + 1 {
                    None
                } else {
                    Some((url.subrange(a, b), url.subrange(b + 1, c)))
                }
            }
        },
    }
}

fn seg_end_exec(v: &[char], k: usize) -> (r: usize)
    requires
        k <= v@.len(),
    ensures
        r as int == seg_end(v@, k as int),
        k <= r <= v@.len(),
{
    let mut j: usize = k;
    while j < v.len()
        invariant
            k <= j <= v@.len(),
            seg_end(v@, k as int) == seg_end(v@, j as int),
        decreases v@.len() - j,
    {
        if v[j] == '/' {
            return j;
        }
        j = j + 1;
    }
    j
}

fn chart_seg_end_exec(v: &[char], k: usize) -> (r: usize)
    requires
        k <= v@.len(),
    ensures
        r as int == chart_seg_end(v@, k as int),
        k <= r <= v@.len(),
{
    let mut j: usize = k;
    while j < v.len()
        invariant
            k <= j <= v@.len(),
            chart_seg_end(v@, k as int) == chart_seg_end(v@, j as int),
        decreases v@.len() - j,
    {
        if v[j] == '/' || v[j] == '?' {
            return j;
        }
        j = j + 1;
    }
    j
}

/// Reads the repository and chart names out of a package-hub URL of the
/// fixed `artifacthub.io/packages/helm/<repo>/<chart>` form.
pub fn parse_ah_url(url: &str) -> (r: Result<(String, String), SourceError>)
    ensures
        match r {
            Ok(pair) => parse_hub_url(url@) == Some((pair.0@, pair.1@)),
            Err(_) => parse_hub_url(url@) is None,
        },
{
    let uc = str_to_chars(url);
    let _url_len = uc.len();
    let key = str_to_chars("artifacthub.io/packages/helm/");
    let found = crate::text::find_slice(uc.as_slice(), key.as_slice(), 0);
    let i = match found {
        Some(i) => i,
        None => {
            return Err(SourceError::InvalidHubUrl);
        },
    };
    proof {
        lemma_find_from_some(url@, "artifacthub.io/packages/helm/"@, 0, i as int);
    }
    let a = i + key.len();
    let b = seg_end_exec(uc.as_slice(), a);
    if b == a || b >= uc.len() {
        return Err(SourceError::InvalidHubUrl);
    }
    if uc[b] != '/' {
        proof {
            assert(seg_end(url@, a as int) == b as int);
        }
        return Err(SourceError::InvalidHubUrl);
    }
    let c = chart_seg_end_exec(uc.as_slice(), b + 1);
    if c == b + 1 {
        return Err(SourceError::InvalidHubUrl);
    }
    let repo = copy_range(uc.as_slice(), a, b);
    let chart = copy_range(uc.as_slice(), b + 1, c);
    Ok((chars_to_string(&repo), chars_to_string(&chart)))
}

} // verus!
