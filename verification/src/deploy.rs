//! The decision parts of deployment: assembling the packaging-tool argument
//! line, filling its placeholders, and judging whether a rendered diff shows
//! any change.
use vstd::prelude::*;
use vstd::string::StringExecFns;

use crate::config::{Chart, HelmConfig};
use crate::text::{chars_to_string, copy_range, find_from, lemma_find_from_some, str_to_chars};

verus! {

/// The argument line for one chart: its override replaces the global line
/// wholesale; its append extends the global line after one space.
pub open spec fn helm_args_for(chart: crate::config::ChartKind, global_args: Seq<char>) -> Seq<
    char,
> {
    match chart.helm_args_override {
        Some(o) => o,
        None => match chart.helm_args_append {
            Some(a) => global_args + " "@ + a,
            None => global_args,
        },
    }
}

/// Assembles the packaging-tool argument line for one chart.
pub fn construct_helm_args(chart: &Chart, global_helm_config: &HelmConfig) -> (r: String)
    ensures
        r@ == helm_args_for(chart@, global_helm_config.args@),
{
    match &chart.helm_args_override {
        Some(o) => o.clone(),
        None => {
            match &chart.helm_args_append {
                Some(a) => {
                    let mut s = global_helm_config.args.clone();
                    s.append(" ");
                    s.append(a.as_str());
                    s
                },
                None => global_helm_config.args.clone(),
            }
        },
    }
}

/// Every occurrence of `pat` replaced by `rep`, scanning left to right and
/// continuing after each replacement; an empty pattern replaces nothing.
pub open spec fn replace_all(s: Seq<char>, pat: Seq<char>, rep: Seq<char>) -> Seq<char>
    decreases s.len(),
{
    if pat.len() == 0 {
        s
    } else {
        match find_from(s, pat, 0) {
            None => s,
            Some(i) => {
                if 0 <= i && i + pat.len() <= s.len() {
                    s.take(i) + rep + replace_all(s.skip(i + pat.len()), pat, rep)
                } else {
                    s
                }
            },
        }
    }
}

fn replace_all_exec(v: &[char], pat: &[char], rep: &[char]) -> (r: Vec<char>)
    ensures
        r@ == replace_all(v@, pat@, rep@),
    decreases v@.len(),
{
    let n = v.len();
    if pat.len() == 0 {
        let r = copy_range(v, 0, n);
        proof {
            assert(r@ =~= v@);
        }
        return r;
    }
    match crate::text::find_slice(v, pat, 0) {
        None => {
            let r = copy_range(v, 0, n);
            proof {
                assert(r@ =~= v@);
            }
            r
        },
        Some(i) => {
            proof {
                lemma_find_from_some(v@, pat@, 0, i as int);
            }
            let mut r = copy_range(v, 0, i);
            let mut k: usize = 0;
            let ghost base = r@;
            while k < rep.len()
                invariant
                    k <= rep@.len(),
                    r@ == base + rep@.take(k as int),
                decreases rep@.len() - k,
            {
                r.push(rep[k]);
                proof {
                    assert(base + rep@.take(k + 1) =~= (base + rep@.take(k as int)).push(
                        rep@[k as int],
                    ));
                }
                k = k + 1;
            }
            proof {
                assert(rep@.take(rep@.len() as int) =~= rep@);
            }
            let tail_src = copy_range(v, i + pat.len(), n);
            proof {
                assert(tail_src@ =~= v@.skip(i + pat@.len() as int));
            }
            let tail = replace_all_exec(tail_src.as_slice(), pat, rep);
            let mut t: usize = 0;
            let ghost base2 = r@;
            while t < tail.len()
                invariant
                    t <= tail@.len(),
                    r@ == base2 + tail@.take(t as int),
                decreases tail@.len() - t,
            {
                r.push(tail[t]);
                proof {
                    assert(base2 + tail@.take(t + 1) =~= (base2 + tail@.take(t as int)).push(
                        tail@[t as int],
                    ));
                }
                t = t + 1;
            }
            proof {
                assert(tail@.take(tail@.len() as int) =~= tail@);
                assert(r@ =~= v@.take(i as int) + rep@ + replace_all(
                    v@.skip(i + pat@.len() as int),
                    pat@,
                    rep@,
                ));
            }
            r
        },
    }
}

/// One placeholder substitution pass over a string.
fn replace_str(s: &str, pat: &str, rep: &str) -> (r: String)
    ensures
        r@ == replace_all(s@, pat@, rep@),
{
    let sv = str_to_chars(s);
    let pv = str_to_chars(pat);
    let rv = str_to_chars(rep);
    let out = replace_all_exec(sv.as_slice(), pv.as_slice(), rv.as_slice());
    chars_to_string(&out)
}

/// Where the chart's files stand: the destination itself for a local chart,
/// else the chart directory under the destination.
pub open spec fn full_chart_path(chart: crate::config::ChartKind, dest: Seq<char>) -> Seq<char> {
    if chart.repo_name is None {
        dest
    } else {
        dest + "/"@ + chart.name
    }
}

/// The placeholder substitutions of the argument template, in a fixed
/// order: first the combined destination-and-name pattern (so a local
/// chart's path is not doubled), then each single placeholder, spaced and
/// unspaced.
pub open spec fn interpolated(
    t: Seq<char>,
    chart: crate::config::ChartKind,
    dest: Seq<char>,
) -> Seq<char> {
    let full = full_chart_path(chart, dest);
    let version = match chart.version {
        Some(v) => v,
        None => Seq::<char>::empty(),
    };
    let s1 = replace_all(t, "{{ destination }}/{{ name }}"@, full);
    let s2 = replace_all(s1, "{{destination}}/{{name}}"@, full);
    let s3 = replace_all(s2, "{{ name }}"@, chart.name);
    let s4 = replace_all(s3, "{{ destination }}"@, dest);
    let s5 = replace_all(s4, "{{ namespace }}"@, chart.namespace);
    let s6 = replace_all(s5, "{{ version }}"@, version);
    let s7 = replace_all(s6, "{{ chart_path }}"@, full);
    let s8 = replace_all(s7, "{{name}}"@, chart.name);
    let s9 = replace_all(s8, "{{destination}}"@, dest);
    let s10 = replace_all(s9, "{{namespace}}"@, chart.namespace);
    let s11 = replace_all(s10, "{{version}}"@, version);
    replace_all(s11, "{{chart_path}}"@, full)
}

/// Fills the argument template's placeholders for one chart.
pub fn interpolate_variables(args_template: &str, chart: &Chart, destination: &str) -> (r: String)
    ensures
        r@ == interpolated(args_template@, chart@, destination@),
{
    let full: String = match &chart.repo_name {
        None => {
            let mut s = String::new();
            s.append(destination);
            s
        },
        Some(_) => {
            let mut s = String::new();
            s.append(destination);
            s.append("/");
            s.append(chart.name.as_str());
            s
        },
    };
    let version: String = match &chart.version {
        Some(v) => v.clone(),
        None => String::new(),
    };
    let s1 = replace_str(args_template, "{{ destination }}/{{ name }}", full.as_str());
    let s2 = replace_str(s1.as_str(), "{{destination}}/{{name}}", full.as_str());
    let s3 = replace_str(s2.as_str(), "{{ name }}", chart.name.as_str());
    let s4 = replace_str(s3.as_str(), "{{ destination }}", destination);
    let s5 = replace_str(s4.as_str(), "{{ namespace }}", chart.namespace.as_str());
    let s6 = replace_str(s5.as_str(), "{{ version }}", version.as_str());
    let s7 = replace_str(s6.as_str(), "{{ chart_path }}", full.as_str());
    let s8 = replace_str(s7.as_str(), "{{name}}", chart.name.as_str());
    let s9 = replace_str(s8.as_str(), "{{destination}}", destination);
    let s10 = replace_str(s9.as_str(), "{{namespace}}", chart.namespace.as_str());
    let s11 = replace_str(s10.as_str(), "{{version}}", version.as_str());
    replace_str(s11.as_str(), "{{chart_path}}", full.as_str())
}

/// What stripping terminal color codes from the diff output yields: a
/// function of the text alone.
pub uninterp spec fn ansi_stripped(s: Seq<char>) -> Seq<char>;

/// Relies on `console::strip_ansi_codes`: removes ANSI escape sequences and
/// depends on the characters alone; an empty text stays empty.
#[verifier::external_body]
fn strip_ansi(s: &str) -> (r: String)
    ensures
        r@ == ansi_stripped(s@),
        s@.len() == 0 ==> r@.len() == 0,
{
    console::strip_ansi_codes(s).into_owned()
}

/// The character counts as whitespace for the no-change test.
pub open spec fn is_blankish(c: char) -> bool {
    c == ' ' || c == '\t' || c == '\n' || c == '\r'
}

/// Judges whether the rendered diff shows no change at all: once color
/// codes are stripped, nothing but whitespace remains.
pub fn diff_indicates_no_change(diff_output: &str) -> (r: bool)
    ensures
        r == (forall|k: int|
            0 <= k < ansi_stripped(diff_output@).len() ==> is_blankish(
                #[trigger] ansi_stripped(diff_output@)[k],
            )),
{
    let stripped = strip_ansi(diff_output);
    let cs = str_to_chars(stripped.as_str());
    let mut k: usize = 0;
    while k < cs.len()
        invariant
            cs@ == ansi_stripped(diff_output@),
            k <= cs@.len(),
            forall|t: int| 0 <= t < k ==> is_blankish(#[trigger] cs@[t]),
        decreases cs@.len() - k,
    {
        let c = cs[k];
        if !(c == ' ' || c == '\t' || c == '\n' || c == '\r') {
            return false;
        }
        k = k + 1;
    }
    true
}

} // verus!
