//! Dependency ordering over charts: a total deployment order consistent with
//! every declared `depends` list, and the direct reverse-dependency query used
//! to guard deletion.
use vstd::multiset::Multiset;
use vstd::prelude::*;

use crate::config::{Chart, ChartKind};

verus! {

/// A fault while building the dependency graph.
#[derive(Debug)]
pub enum DagError {
    UnknownDependency { chart: String, dependency: String },
    CycleDetected { chart: String },
    ChartNotFound { chart: String },
}

/// Some chart carries the given name.
pub open spec fn has_name(cs: Seq<ChartKind>, n: Seq<char>) -> bool {
    exists|k: int| 0 <= k < cs.len() && cs[k].name == n
}

/// Chart `i`'s dependency list names, at position `j`, a chart that does not
/// exist.
pub open spec fn unknown_dep_witness(cs: Seq<ChartKind>, i: int, j: int) -> bool {
    &&& 0 <= i < cs.len()
    &&& 0 <= j < cs[i].depends.len()
    &&& !has_name(cs, cs[i].depends[j])
}

pub open spec fn has_unknown_dep(cs: Seq<ChartKind>) -> bool {
    exists|i: int, j: int| unknown_dep_witness(cs, i, j)
}

/// Every index of `order` points into `cs`.
pub open spec fn valid_positions(cs: Seq<ChartKind>, order: Seq<int>) -> bool {
    forall|k: int| 0 <= k < order.len() ==> 0 <= #[trigger] order[k] < cs.len()
}

/// The `j`-th dependency name of the chart placed at position `q` is carried
/// by a chart placed earlier.
pub open spec fn dep_satisfied_before(cs: Seq<ChartKind>, order: Seq<int>, q: int, j: int) -> bool {
    exists|p: int| 0 <= p < q && cs[order[p]].name == cs[order[q]].depends[j]
}

/// Every dependency name of the chart placed at position `q` is carried by a
/// chart placed earlier.
pub open spec fn deps_before(cs: Seq<ChartKind>, order: Seq<int>, q: int) -> bool {
    forall|j: int|
        0 <= j < cs[order[q]].depends.len() ==> #[trigger] dep_satisfied_before(cs, order, q, j)
}

pub open spec fn ordered_by_deps(cs: Seq<ChartKind>, order: Seq<int>) -> bool {
    &&& valid_positions(cs, order)
    &&& forall|q: int| 0 <= q < order.len() ==> deps_before(cs, order, q)
}

/// `order` lists each chart position exactly once.
pub open spec fn is_complete_order(cs: Seq<ChartKind>, order: Seq<int>) -> bool {
    &&& order.len() == cs.len()
    &&& order.no_duplicates()
    &&& valid_positions(cs, order)
}

/// A total deployment order consistent with every `depends` list exists; the
/// dependency relation restricted to the configured charts is acyclic.
pub open spec fn deployment_order_exists(cs: Seq<ChartKind>) -> bool {
    exists|order: Seq<int>| is_complete_order(cs, order) && ordered_by_deps(cs, order)
}

/// Some chart strictly before position `q` of the output carries the `j`-th
/// dependency name of the chart at `q`.
pub open spec fn earlier_in_output(out: Seq<ChartKind>, q: int, j: int) -> bool {
    exists|p: int| 0 <= p < q && out[p].name == out[q].depends[j]
}

/// Every dependency name is satisfied by some chart standing earlier in the
/// output itself.
pub open spec fn output_ordered(out: Seq<ChartKind>) -> bool {
    forall|q: int, j: int|
        0 <= q < out.len() && 0 <= j < out[q].depends.len() ==> #[trigger] earlier_in_output(
            out,
            q,
            j,
        )
}

/// Some already-emitted chart carries the given name.
pub open spec fn name_emitted(out: Seq<ChartKind>, d: Seq<char>) -> bool {
    exists|p: int| 0 <= p < out.len() && out[p].name == d
}

/// Some chart placed by `emitted` carries the given name.
pub open spec fn emitted_name(cs: Seq<ChartKind>, emitted: Seq<int>, d: Seq<char>) -> bool {
    exists|p: int| 0 <= p < emitted.len() && cs[emitted[p]].name == d
}

/// Chart `i` still waits on a dependency name that no emitted chart carries.
pub open spec fn blocked(cs: Seq<ChartKind>, emitted: Seq<int>, i: int) -> bool {
    exists|j: int|
        0 <= j < cs[i].depends.len() && !emitted_name(cs, emitted, #[trigger] cs[i].depends[j])
}

fn chart_name_exists(charts: &Vec<Chart>, name: &str) -> (r: bool)
    ensures
        r == has_name(charts.deep_view(), name@),
{
    let ghost cs = charts.deep_view();
    let mut k: usize = 0;
    while k < charts.len()
        invariant
            k <= charts@.len(),
            cs == charts.deep_view(),
            forall|p: int| 0 <= p < k ==> cs[p].name != name@,
        decreases charts@.len() - k,
    {
        proof {
            assert(cs[k as int] == charts@[k as int]@);
        }
        if crate::text::str_eq(charts[k].name.as_str(), name) {
            return true;
        }
        k = k + 1;
    }
    false
}

/// The first chart (in input order) whose `depends` list references a name no
/// chart carries, as (chart name, missing name).
fn find_unknown_dep(charts: &Vec<Chart>) -> (r: Option<(String, String)>)
    ensures
        match r {
            Some(w) => exists|i: int, j: int|
                unknown_dep_witness(charts.deep_view(), i, j) && charts.deep_view()[i].name == w.0@
                    && charts.deep_view()[i].depends[j] == w.1@,
            None => !has_unknown_dep(charts.deep_view()),
        },
{
    let ghost cs = charts.deep_view();
    let mut i: usize = 0;
    while i < charts.len()
        invariant
            i <= charts@.len(),
            cs == charts.deep_view(),
            forall|a: int, j: int| 0 <= a < i ==> !unknown_dep_witness(cs, a, j),
        decreases charts@.len() - i,
    {
        proof {
            assert(cs[i as int] == charts@[i as int]@);
        }
        match &charts[i].depends {
            Some(deps) => {
                let mut j: usize = 0;
                while j < deps.len()
                    invariant
                        i < charts@.len(),
                        cs == charts.deep_view(),
                        deps.deep_view() == cs[i as int].depends,
                        j <= deps@.len(),
                        forall|b: int| 0 <= b < j ==> !unknown_dep_witness(cs, i as int, b),
                    decreases deps@.len() - j,
                {
                    proof {
                        assert(deps.deep_view()[j as int] == deps@[j as int]@);
                    }
                    if !chart_name_exists(charts, deps[j].as_str()) {
                        let n1 = charts[i].name.clone();
                        let d1 = deps[j].clone();
                        proof {
                            assert(unknown_dep_witness(cs, i as int, j as int) && cs[i as int].name
                                == n1@ && cs[i as int].depends[j as int] == d1@);
                        }
                        return Some((n1, d1));
                    }
                    j = j + 1;
                }
            },
            None => {
                proof {
                    assert(cs[i as int].depends.len() == 0);
                }
            },
        }
        i = i + 1;
    }
    None
}

/// Whether some emitted chart carries the name `d`.
fn name_among(emitted: &Vec<Chart>, d: &str) -> (r: bool)
    ensures
        r == name_emitted(emitted.deep_view(), d@),
{
    let ghost out = emitted.deep_view();
    let mut p: usize = 0;
    while p < emitted.len()
        invariant
            p <= emitted@.len(),
            out == emitted.deep_view(),
            forall|k: int| 0 <= k < p ==> out[k].name != d@,
        decreases emitted@.len() - p,
    {
        proof {
            assert(out[p as int] == emitted@[p as int]@);
        }
        if crate::text::str_eq(emitted[p].name.as_str(), d) {
            return true;
        }
        p = p + 1;
    }
    false
}

/// Whether every dependency name of `chart` is already emitted.
fn all_deps_present(chart: &Chart, emitted: &Vec<Chart>) -> (r: bool)
    ensures
        r == forall|j: int|
            0 <= j < chart@.depends.len() ==> name_emitted(emitted.deep_view(), chart@.depends[j]),
{
    match &chart.depends {
        Some(deps) => {
            let mut j: usize = 0;
            while j < deps.len()
                invariant
                    deps.deep_view() == chart@.depends,
                    j <= deps@.len(),
                    forall|b: int| 0 <= b < j ==> name_emitted(emitted.deep_view(), chart@.depends[b]),
                decreases deps@.len() - j,
            {
                proof {
                    assert(deps.deep_view()[j as int] == deps@[j as int]@);
                }
                if !name_among(emitted, deps[j].as_str()) {
                    return false;
                }
                j = j + 1;
            }
            true
        },
        None => {
            proof {
                assert(chart@.depends.len() == 0);
            }
            true
        },
    }
}

/// The first chart that is not yet emitted and whose dependencies are all
/// emitted; or none, when every remaining chart still waits on a dependency.
fn find_ready(charts: &Vec<Chart>, flags: &Vec<bool>, emitted: &Vec<Chart>) -> (r: Option<usize>)
    requires
        flags@.len() == charts@.len(),
    ensures
        match r {
            Some(i) => i < charts@.len() && !flags@[i as int] && forall|j: int|
                0 <= j < charts.deep_view()[i as int].depends.len() ==> name_emitted(
                    emitted.deep_view(),
                    charts.deep_view()[i as int].depends[j],
                ),
            None => forall|i: int|
                0 <= i < charts@.len() && !flags@[i] ==> exists|j: int|
                    0 <= j < charts.deep_view()[i].depends.len() && !name_emitted(
                        emitted.deep_view(),
                        charts.deep_view()[i].depends[j],
                    ),
        },
{
    let ghost cs = charts.deep_view();
    let mut i: usize = 0;
    while i < charts.len()
        invariant
            i <= charts@.len(),
            cs == charts.deep_view(),
            flags@.len() == charts@.len(),
            forall|a: int|
                0 <= a < i && !flags@[a] ==> exists|j: int|
                    0 <= j < cs[a].depends.len() && !name_emitted(emitted.deep_view(), cs[a].depends[j]),
        decreases charts@.len() - i,
    {
        proof {
            assert(cs[i as int] == charts@[i as int]@);
        }
        if !flags[i] && all_deps_present(&charts[i], emitted) {
            return Some(i);
        }
        i = i + 1;
    }
    None
}

/// The first not-yet-emitted chart; for naming the cycle fault.
fn first_unflagged(charts: &Vec<Chart>, flags: &Vec<bool>) -> (r: Option<usize>)
    requires
        flags@.len() == charts@.len(),
    ensures
        match r {
            Some(i) => i < charts@.len() && !flags@[i as int],
            None => forall|i: int| 0 <= i < flags@.len() ==> flags@[i],
        },
{
    let mut i: usize = 0;
    while i < flags.len()
        invariant
            flags@.len() == charts@.len(),
            i <= flags@.len(),
            forall|a: int| 0 <= a < i ==> flags@[a],
        decreases flags@.len() - i,
    {
        if !flags[i] {
            return Some(i);
        }
        i = i + 1;
    }
    None
}

/// There is an index below `n` that `order` does not contain.
proof fn lemma_missing_index(order: Seq<int>, n: int)
    requires
        order.no_duplicates(),
        forall|k: int| 0 <= k < order.len() ==> 0 <= #[trigger] order[k] < n,
        order.len() < n,
    ensures
        exists|v: int| 0 <= v < n && !order.contains(v),
{
    if forall|v: int| 0 <= v < n ==> #[trigger] order.contains(v) {
        order.unique_seq_to_set();
        vstd::set_lib::lemma_int_range(0, n);
        assert(vstd::set_lib::set_int_range(0, n).subset_of(order.to_set()));
        vstd::set_lib::lemma_len_subset(vstd::set_lib::set_int_range(0, n), order.to_set());
        assert(false);
    }
}

/// Every index below `n` occurs in a duplicate-free order of length `n`.
proof fn lemma_complete_contains(order: Seq<int>, n: int)
    requires
        order.no_duplicates(),
        forall|k: int| 0 <= k < order.len() ==> 0 <= #[trigger] order[k] < n,
        order.len() == n,
    ensures
        forall|v: int| 0 <= v < n ==> order.contains(v),
{
    order.unique_seq_to_set();
    vstd::set_lib::lemma_int_range(0, n);
    assert(order.to_set().subset_of(vstd::set_lib::set_int_range(0, n)));
    vstd::set_lib::lemma_subset_equality(order.to_set(), vstd::set_lib::set_int_range(0, n));
    assert forall|v: int| 0 <= v < n implies order.contains(v) by {
        assert(vstd::set_lib::set_int_range(0, n).contains(v));
        assert(order.to_set().contains(v));
    }
}

/// Position of the first element of `order` (scanning from `from`) that the
/// emitted set does not contain.
spec fn first_outside(order: Seq<int>, emitted: Seq<int>, from: int) -> Option<int>
    decreases order.len() - from + 1,
{
    if from < 0 || from >= order.len() {
        None
    } else if !emitted.contains(order[from]) {
        Some(from)
    } else {
        first_outside(order, emitted, from + 1)
    }
}

proof fn lemma_first_outside_some(order: Seq<int>, emitted: Seq<int>, from: int, t: int)
    requires
        first_outside(order, emitted, from) == Some(t),
    ensures
        from <= t < order.len(),
        !emitted.contains(order[t]),
        forall|p: int| from <= p < t ==> emitted.contains(order[p]),
    decreases order.len() - from + 1,
{
    if from < 0 || from >= order.len() {
    } else if !emitted.contains(order[from]) {
    } else {
        lemma_first_outside_some(order, emitted, from + 1, t);
    }
}

proof fn lemma_first_outside_exists(order: Seq<int>, emitted: Seq<int>, from: int, t: int)
    requires
        0 <= from <= t < order.len(),
        !emitted.contains(order[t]),
    ensures
        first_outside(order, emitted, from) is Some,
    decreases t - from + 1,
{
    if from < t && emitted.contains(order[from]) {
        lemma_first_outside_exists(order, emitted, from + 1, t);
    }
}

/// When every remaining chart still waits on an unemitted dependency name, no
/// total deployment order can exist.
proof fn lemma_stall_no_order(cs: Seq<ChartKind>, emitted: Seq<int>)
    requires
        emitted.no_duplicates(),
        forall|k: int| 0 <= k < emitted.len() ==> 0 <= #[trigger] emitted[k] < cs.len(),
        emitted.len() < cs.len(),
        forall|i: int| 0 <= i < cs.len() && !emitted.contains(i) ==> blocked(cs, emitted, i),
    ensures
        !deployment_order_exists(cs),
{
    if deployment_order_exists(cs) {
        let t_order = choose|order: Seq<int>|
            is_complete_order(cs, order) && ordered_by_deps(cs, order);
        lemma_missing_index(emitted, cs.len() as int);
        let v = choose|v: int| 0 <= v < cs.len() && !emitted.contains(v);
        lemma_complete_contains(t_order, cs.len() as int);
        assert(t_order.contains(v));
        let tv = choose|tv: int| 0 <= tv < t_order.len() && t_order[tv] == v;
        lemma_first_outside_exists(t_order, emitted, 0, tv);
        let t0 = first_outside(t_order, emitted, 0)->0;
        lemma_first_outside_some(t_order, emitted, 0, t0);
        let u = t_order[t0];
        assert(!emitted.contains(u));
        assert(blocked(cs, emitted, u));
        let j = choose|j: int|
            0 <= j < cs[u].depends.len() && !emitted_name(
                cs,
                emitted,
                #[trigger] cs[u].depends[j],
            );
        assert(deps_before(cs, t_order, t0));
        assert(dep_satisfied_before(cs, t_order, t0, j));
        let p = choose|p: int| 0 <= p < t0 && cs[t_order[p]].name == cs[u].depends[j];
        assert(emitted.contains(t_order[p]));
        let pe = choose|pe: int| 0 <= pe < emitted.len() && emitted[pe] == t_order[p];
        assert(cs[emitted[pe]].name == cs[u].depends[j]);
        assert(emitted_name(cs, emitted, cs[u].depends[j]));
        assert(false);
    }
}

/// The charts selected by a complete order are, as a multiset, the charts
/// themselves.
proof fn lemma_complete_order_multiset(cs: Seq<ChartKind>, order: Seq<int>, out: Seq<ChartKind>)
    requires
        is_complete_order(cs, order),
        out.len() == order.len(),
        forall|k: int| 0 <= k < order.len() ==> out[k] == cs[order[k]],
    ensures
        out.to_multiset() == cs.to_multiset(),
    decreases cs.len(),
{
    broadcast use vstd::seq_lib::group_to_multiset_ensures;

    if cs.len() == 0 {
        assert(out.to_multiset() =~= cs.to_multiset());
    } else {
        let n = cs.len() as int;
        lemma_complete_contains(order, n);
        assert(order.contains(n - 1));
        let t = choose|t: int| 0 <= t < order.len() && order[t] == n - 1;
        let order2 = order.remove(t);
        let out2 = out.remove(t);
        let cs2 = cs.drop_last();
        assert(order.remove(t).to_multiset() == order.to_multiset().remove(order[t]));
        assert(order2.no_duplicates()) by {
            order.lemma_multiset_has_no_duplicates();
            order2.lemma_multiset_has_no_duplicates_conv();
        }
        assert forall|k: int| 0 <= k < order2.len() implies 0 <= #[trigger] order2[k] < n - 1 by {
            if k < t {
                assert(order2[k] == order[k]);
                if order[k] == n - 1 {
                    assert(false);
                }
            } else {
                assert(order2[k] == order[k + 1]);
                if order[k + 1] == n - 1 {
                    assert(false);
                }
            }
        }
        assert forall|k: int| 0 <= k < order2.len() implies out2[k] == cs2[order2[k]] by {
            if k < t {
                assert(out2[k] == out[k] && order2[k] == order[k]);
            } else {
                assert(out2[k] == out[k + 1] && order2[k] == order[k + 1]);
            }
            assert(cs2[order2[k]] == cs[order2[k]]);
        }
        lemma_complete_order_multiset(cs2, order2, out2);
        assert(cs == cs2.push(cs.last()));
        assert(cs.to_multiset() == cs2.to_multiset().insert(cs.last()));
        assert(out.remove(t).to_multiset() == out.to_multiset().remove(out[t]));
        assert(out[t] == cs[n - 1]);
        assert(out.to_multiset().contains(out[t]));
        assert(out.to_multiset() =~= out2.to_multiset().insert(cs.last()));
        assert(out.to_multiset() == cs.to_multiset());
    }
}

/// Sorts charts into a deployment order: every `depends` reference must name
/// a configured chart, the relation must be acyclic, and each returned chart
/// stands after every chart its `depends` list names.
pub fn sort_charts(charts: &Vec<Chart>) -> (r: Result<Vec<Chart>, DagError>)
    ensures
        match r {
            Ok(out) => {
                &&& out.deep_view().to_multiset() == charts.deep_view().to_multiset()
                &&& output_ordered(out.deep_view())
                &&& !has_unknown_dep(charts.deep_view())
                &&& deployment_order_exists(charts.deep_view())
            },
            Err(DagError::UnknownDependency { chart, dependency }) => {
                &&& has_unknown_dep(charts.deep_view())
                &&& exists|i: int, j: int|
                    unknown_dep_witness(charts.deep_view(), i, j) && charts.deep_view()[i].name
                        == chart@ && charts.deep_view()[i].depends[j] == dependency@
            },
            Err(DagError::CycleDetected { chart }) => {
                &&& !has_unknown_dep(charts.deep_view())
                &&& !deployment_order_exists(charts.deep_view())
                &&& has_name(charts.deep_view(), chart@)
            },
            Err(DagError::ChartNotFound { .. }) => false,
        },
        r is Ok <==> (!has_unknown_dep(charts.deep_view()) && deployment_order_exists(
            charts.deep_view(),
        )),
{
    let ghost cs = charts.deep_view();
    match find_unknown_dep(charts) {
        Some(w) => {
            return Err(DagError::UnknownDependency { chart: w.0, dependency: w.1 });
        },
        None => {},
    }
    let n = charts.len();
    let mut flags: Vec<bool> = Vec::new();
    while flags.len() < n
        invariant
            flags@.len() <= n,
            forall|k: int| 0 <= k < flags@.len() ==> !flags@[k],
        decreases n - flags@.len(),
    {
        flags.push(false);
    }
    let mut result: Vec<Chart> = Vec::new();
    let ghost mut order: Seq<int> = Seq::empty();
    loop
        invariant
            n == charts@.len(),
            cs == charts.deep_view(),
            !has_unknown_dep(cs),
            flags@.len() == n,
            order.len() == result@.len(),
            result@.len() <= n,
            forall|k: int| 0 <= k < order.len() ==> 0 <= #[trigger] order[k] < n,
            order.no_duplicates(),
            forall|k: int| 0 <= k < order.len() ==> result.deep_view()[k] == cs[order[k]],
            forall|i: int| 0 <= i < n ==> (flags@[i] <==> order.contains(i)),
            forall|q: int| 0 <= q < order.len() ==> deps_before(cs, order, q),
        decreases n - result@.len(),
    {
        if result.len() == n {
            proof {
                lemma_complete_order_multiset(cs, order, result.deep_view());
                assert(output_ordered(result.deep_view())) by {
                    let out = result.deep_view();
                    assert forall|q: int, j: int|
                        0 <= q < out.len() && 0 <= j
                            < out[q].depends.len() implies #[trigger] earlier_in_output(out, q, j) by {
                        assert(deps_before(cs, order, q));
                        assert(out[q] == cs[order[q]]);
                        assert(0 <= j < cs[order[q]].depends.len());
                        assert(dep_satisfied_before(cs, order, q, j));
                        let p = choose|p: int|
                            0 <= p < q && cs[order[p]].name == cs[order[q]].depends[j];
                        assert(out[p] == cs[order[p]]);
                        assert(out[p].name == out[q].depends[j]);
                    }
                }
                assert(is_complete_order(cs, order) && ordered_by_deps(cs, order));
            }
            return Ok(result);
        }
        match find_ready(charts, &flags, &result) {
            Some(i) => {
                let ghost old_order = order;
                let ghost old_flags = flags@;
                flags.set(i, true);
                let ghost prev_out = result.deep_view();
                result.push(charts[i].clone());
                proof {
                    let new_out = result.deep_view();
                    assert forall|k: int| 0 <= k < prev_out.len() implies new_out[k] == prev_out[k] by {
                        assert(new_out[k] == result@[k]@);
                    }
                    assert(new_out[prev_out.len() as int] == charts@[i as int]@);
                    assert(cs[i as int] == charts@[i as int]@);
                    let q = old_order.len() as int;
                    order = old_order.push(i as int);
                    assert(order[q] == i as int);
                    assert(!old_order.contains(i as int)) by {
                        assert(!old_flags[i as int]);
                    }
                    assert forall|k: int| 0 <= k < order.len() implies result.deep_view()[k] == cs[#[trigger] order[k]] by {
                        if k < q {
                            assert(order[k] == old_order[k]);
                            assert(result.deep_view()[k] == prev_out[k]);
                        }
                    }
                    assert forall|v: int| #[trigger] order.contains(v) implies old_order.contains(v)
                        || v == i as int by {
                        let k = choose|k: int| 0 <= k < order.len() && order[k] == v;
                        if k < q {
                            assert(old_order[k] == v);
                        }
                    }
                    assert(order.no_duplicates()) by {
                        assert forall|a: int, b: int|
                            0 <= a < b < order.len() implies order[a] != order[b] by {
                            if b < q {
                                assert(order[a] == old_order[a] && order[b] == old_order[b]);
                            } else {
                                assert(order[a] == old_order[a] && order[b] == i as int);
                                assert(old_order.contains(old_order[a]));
                            }
                        }
                    }
                    assert forall|k: int| 0 <= k < n implies (flags@[k] <==> order.contains(k)) by {
                        if k == i as int {
                            assert(order[q] == k);
                        } else {
                            assert(flags@[k] == old_flags[k]);
                            if old_order.contains(k) {
                                let t = choose|t: int|
                                    0 <= t < old_order.len() && old_order[t] == k;
                                assert(order[t] == k);
                            }
                        }
                    }
                    assert forall|qq: int| 0 <= qq < order.len() implies deps_before(cs, order, qq) by {
                        if qq < q {
                            assert(deps_before(cs, old_order, qq));
                            assert(cs[order[qq]] == cs[old_order[qq]]);
                            assert forall|j: int|
                                0 <= j < cs[order[qq]].depends.len() implies #[trigger] dep_satisfied_before(
                                cs,
                                order,
                                qq,
                                j,
                            ) by {
                                assert(dep_satisfied_before(cs, old_order, qq, j));
                                let p = choose|p: int|
                                    0 <= p < qq && cs[old_order[p]].name
                                        == cs[old_order[qq]].depends[j];
                                assert(cs[order[p]].name == cs[order[qq]].depends[j]);
                            }
                        } else {
                            assert(order[qq] == i as int);
                            assert forall|j: int|
                                0 <= j < cs[order[qq]].depends.len() implies #[trigger] dep_satisfied_before(
                                cs,
                                order,
                                qq,
                                j,
                            ) by {
                                assert(cs[i as int].depends[j] == cs[order[qq]].depends[j]);
                                assert(name_emitted(prev_out, cs[i as int].depends[j]));
                                let p = choose|p: int|
                                    0 <= p < prev_out.len() && prev_out[p].name
                                        == cs[i as int].depends[j];
                                assert(prev_out[p] == cs[old_order[p]]);
                                assert(cs[order[p]].name == cs[order[qq]].depends[j]);
                            }
                        }
                    }
                }
            },
            None => {
                proof {
                    assert forall|i: int|
                        0 <= i < cs.len() && !order.contains(i) implies blocked(cs, order, i) by {
                        assert(!flags@[i]);
                        let j = choose|j: int|
                            0 <= j < cs[i].depends.len() && !name_emitted(
                                result.deep_view(),
                                #[trigger] cs[i].depends[j],
                            );
                        assert forall|p: int|
                            0 <= p < order.len() implies cs[order[p]].name != cs[i].depends[j] by {
                            assert(result.deep_view()[p] == cs[order[p]]);
                        }
                        assert(!emitted_name(cs, order, cs[i].depends[j]));
                        assert(blocked(cs, order, i));
                    }
                    lemma_stall_no_order(cs, order);
                }
                let stuck = first_unflagged(charts, &flags);
                match stuck {
                    Some(i) => {
                        proof {
                            assert(cs[i as int] == charts@[i as int]@);
                        }
                        return Err(DagError::CycleDetected { chart: charts[i].name.clone() });
                    },
                    None => {
                        proof {
                            assert forall|i: int| 0 <= i < n implies order.contains(i) by {
                                assert(flags@[i]);
                            }
                            assert(order.len() < n);
                            lemma_missing_index(order, n as int);
                            assert(false);
                        }
                        // cannot happen: some chart is always unflagged here
                        return Err(DagError::CycleDetected { chart: String::new() });
                    },
                }
            },
        }
    }
}

/// Every chart name occurs once.
pub open spec fn names_unique(cs: Seq<ChartKind>) -> bool {
    forall|a: int, b: int| 0 <= a < b < cs.len() ==> cs[a].name != cs[b].name
}

/// `path` walks a dependency cycle through the charts: each chart on it
/// depends on the previous one, and the first depends on the last. A chart
/// that depends on itself is the cycle of length one.
pub open spec fn is_dep_cycle(cs: Seq<ChartKind>, path: Seq<int>) -> bool {
    &&& path.len() > 0
    &&& forall|k: int| 0 <= k < path.len() ==> 0 <= #[trigger] path[k] < cs.len()
    &&& forall|k: int|
        0 < k < path.len() ==> #[trigger] cs[path[k]].depends.contains(cs[path[k - 1]].name)
    &&& cs[path[0]].depends.contains(cs[path.last()].name)
}

/// The position where a complete order places chart `v`.
spec fn position_of(order: Seq<int>, v: int) -> int {
    choose|p: int| 0 <= p < order.len() && order[p] == v
}

proof fn lemma_position_of(order: Seq<int>, v: int)
    requires
        order.contains(v),
    ensures
        0 <= position_of(order, v) < order.len(),
        order[position_of(order, v)] == v,
{
    let p = choose|p: int| 0 <= p < order.len() && order[p] == v;
    assert(order[position_of(order, v)] == v);
}

/// In an order consistent with the dependencies, a chart stands strictly
/// after any chart its `depends` list names.
proof fn lemma_edge_position(cs: Seq<ChartKind>, order: Seq<int>, a: int, b: int)
    requires
        names_unique(cs),
        is_complete_order(cs, order),
        ordered_by_deps(cs, order),
        0 <= a < cs.len(),
        0 <= b < cs.len(),
        cs[b].depends.contains(cs[a].name),
    ensures
        position_of(order, a) < position_of(order, b),
{
    lemma_complete_contains(order, cs.len() as int);
    assert(order.contains(a) && order.contains(b));
    lemma_position_of(order, a);
    lemma_position_of(order, b);
    let pa = position_of(order, a);
    let pb = position_of(order, b);
    let j = choose|j: int| 0 <= j < cs[b].depends.len() && cs[b].depends[j] == cs[a].name;
    assert(deps_before(cs, order, pb));
    assert(cs[order[pb]].depends[j] == cs[a].name);
    assert(dep_satisfied_before(cs, order, pb, j));
    let p = choose|p: int| 0 <= p < pb && cs[order[p]].name == cs[order[pb]].depends[j];
    assert(cs[order[p]].name == cs[a].name);
    assert(order[p] == a) by {
        if order[p] != a {
            if order[p] < a {
                assert(cs[order[p]].name != cs[a].name);
            } else {
                assert(cs[a].name != cs[order[p]].name);
            }
        }
    }
    assert(p == pa) by {
        if p != pa {
            assert(order[p] == order[pa]);
        }
    }
}

proof fn lemma_cycle_chain(cs: Seq<ChartKind>, order: Seq<int>, path: Seq<int>, k: int)
    requires
        names_unique(cs),
        is_complete_order(cs, order),
        ordered_by_deps(cs, order),
        is_dep_cycle(cs, path),
        0 <= k < path.len(),
    ensures
        position_of(order, path[0]) <= position_of(order, path[k]),
    decreases k,
{
    if k > 0 {
        lemma_cycle_chain(cs, order, path, k - 1);
        lemma_edge_position(cs, order, path[k - 1], path[k]);
    }
}

/// A dependency cycle among the configured charts rules out every deployment
/// order, so both the sort and the reverse-dependency query must fail with a
/// cycle fault rather than return any ordering.
pub proof fn lemma_cycle_rules_out_order(cs: Seq<ChartKind>, path: Seq<int>)
    requires
        names_unique(cs),
        is_dep_cycle(cs, path),
    ensures
        !deployment_order_exists(cs),
{
    if deployment_order_exists(cs) {
        let order = choose|order: Seq<int>|
            is_complete_order(cs, order) && ordered_by_deps(cs, order);
        lemma_cycle_chain(cs, order, path, path.len() - 1);
        lemma_edge_position(cs, order, path[path.len() - 1], path[0]);
        assert(false);
    }
}

/// The charts whose `depends` list directly names `t`, in input order.
pub open spec fn direct_dependents(cs: Seq<ChartKind>, t: Seq<char>) -> Seq<ChartKind>
    decreases cs.len(),
{
    if cs.len() == 0 {
        Seq::empty()
    } else if cs[0].depends.contains(t) {
        seq![cs[0]] + direct_dependents(cs.drop_first(), t)
    } else {
        direct_dependents(cs.drop_first(), t)
    }
}

proof fn lemma_direct_dependents_push(cs: Seq<ChartKind>, t: Seq<char>, x: ChartKind)
    ensures
        direct_dependents(cs.push(x), t) == if x.depends.contains(t) {
            direct_dependents(cs, t).push(x)
        } else {
            direct_dependents(cs, t)
        },
    decreases cs.len(),
{
    let whole = cs.push(x);
    if cs.len() == 0 {
        assert(whole.len() == 1);
        assert(whole[0] == x);
        assert(whole.drop_first() =~= Seq::<ChartKind>::empty());
        assert(direct_dependents(whole.drop_first(), t) =~= Seq::<ChartKind>::empty());
        if x.depends.contains(t) {
            assert(whole[0].depends.contains(t));
            assert(direct_dependents(whole, t) == seq![whole[0]] + direct_dependents(
                whole.drop_first(),
                t,
            ));
            assert(direct_dependents(cs, t) =~= Seq::<ChartKind>::empty());
            assert(direct_dependents(whole, t) =~= direct_dependents(cs, t).push(x));
        } else {
            assert(!whole[0].depends.contains(t));
        }
    } else {
        assert(whole.drop_first() =~= cs.drop_first().push(x));
        assert(whole[0] == cs[0]);
        lemma_direct_dependents_push(cs.drop_first(), t, x);
        if cs[0].depends.contains(t) {
            if x.depends.contains(t) {
                assert(direct_dependents(whole, t) =~= direct_dependents(cs, t).push(x));
            }
        }
    }
}

/// Counted as a multiset, the direct dependents of `t` are exactly the charts
/// of `cs` that name `t`, however `cs` is ordered.
pub proof fn lemma_direct_dependents_count(cs: Seq<ChartKind>, t: Seq<char>, x: ChartKind)
    ensures
        direct_dependents(cs, t).to_multiset().count(x) == if x.depends.contains(t) {
            cs.to_multiset().count(x)
        } else {
            0
        },
    decreases cs.len(),
{
    broadcast use vstd::seq_lib::group_to_multiset_ensures;

    if cs.len() == 0 {
        assert(cs.to_multiset() =~= Multiset::<ChartKind>::empty());
        assert(direct_dependents(cs, t).to_multiset() =~= Multiset::<ChartKind>::empty());
    } else {
        lemma_direct_dependents_count(cs.drop_first(), t, x);
        assert(cs =~= seq![cs[0]] + cs.drop_first());
        vstd::seq_lib::lemma_multiset_commutative(seq![cs[0]], cs.drop_first());
        assert(seq![cs[0]].to_multiset() =~= Multiset::<ChartKind>::empty().insert(cs[0])) by {
            assert(seq![cs[0]] =~= Seq::<ChartKind>::empty().push(cs[0]));
        }
        if cs[0].depends.contains(t) {
            vstd::seq_lib::lemma_multiset_commutative(
                seq![cs[0]],
                direct_dependents(cs.drop_first(), t),
            );
        }
    }
}

/// Whatever order the same charts are given in, the direct dependents of a
/// name are the same collection.
pub proof fn lemma_dependents_order_irrelevant(
    cs1: Seq<ChartKind>,
    cs2: Seq<ChartKind>,
    t: Seq<char>,
)
    requires
        cs1.to_multiset() == cs2.to_multiset(),
    ensures
        direct_dependents(cs1, t).to_multiset() == direct_dependents(cs2, t).to_multiset(),
{
    assert forall|x: ChartKind|
        direct_dependents(cs1, t).to_multiset().count(x) == direct_dependents(
            cs2,
            t,
        ).to_multiset().count(x) by {
        lemma_direct_dependents_count(cs1, t, x);
        lemma_direct_dependents_count(cs2, t, x);
    }
    assert(direct_dependents(cs1, t).to_multiset() =~= direct_dependents(cs2, t).to_multiset());
}

/// The output is ordered by chart name.
pub open spec fn sorted_by_name(out: Seq<ChartKind>) -> bool {
    forall|p: int, q: int|
        0 <= p < q < out.len() ==> crate::text::lex_le(#[trigger] out[p].name, #[trigger] out[q].name)
}

/// Whether the chart's `depends` list names `t`.
fn depends_contains(chart: &Chart, t: &str) -> (r: bool)
    ensures
        r == chart@.depends.contains(t@),
{
    match &chart.depends {
        Some(deps) => {
            let mut j: usize = 0;
            while j < deps.len()
                invariant
                    deps.deep_view() == chart@.depends,
                    j <= deps@.len(),
                    forall|b: int| 0 <= b < j ==> chart@.depends[b] != t@,
                decreases deps@.len() - j,
            {
                proof {
                    assert(deps.deep_view()[j as int] == deps@[j as int]@);
                }
                if crate::text::str_eq(deps[j].as_str(), t) {
                    proof {
                        assert(chart@.depends[j as int] == t@);
                    }
                    return true;
                }
                j = j + 1;
            }
            proof {
                if chart@.depends.contains(t@) {
                    let b = choose|b: int| 0 <= b < chart@.depends.len() && chart@.depends[b] == t@;
                    assert(false);
                }
            }
            false
        },
        None => {
            proof {
                assert(chart@.depends.len() == 0);
                if chart@.depends.contains(t@) {
                    let b = choose|b: int| 0 <= b < chart@.depends.len() && chart@.depends[b] == t@;
                    assert(false);
                }
            }
            false
        },
    }
}

proof fn lemma_insert_multiset(s: Seq<ChartKind>, pos: int, x: ChartKind)
    requires
        0 <= pos <= s.len(),
    ensures
        s.insert(pos, x).to_multiset() == s.to_multiset().insert(x),
{
    broadcast use vstd::seq_lib::group_to_multiset_ensures;

    let ins = s.insert(pos, x);
    assert(ins =~= s.take(pos).push(x) + s.skip(pos));
    assert(s =~= s.take(pos) + s.skip(pos));
    vstd::seq_lib::lemma_multiset_commutative(s.take(pos).push(x), s.skip(pos));
    vstd::seq_lib::lemma_multiset_commutative(s.take(pos), s.skip(pos));
    assert(s.take(pos).push(x).to_multiset() =~= s.take(pos).to_multiset().insert(x));
    assert(ins.to_multiset() =~= s.to_multiset().insert(x));
}

/// The first position whose chart's name is not below `name`.
fn insertion_point(out: &Vec<Chart>, name: &str) -> (pos: usize)
    ensures
        pos <= out@.len(),
        forall|k: int| 0 <= k < pos ==> !crate::text::lex_le(name@, out.deep_view()[k].name),
        pos < out@.len() ==> crate::text::lex_le(name@, out.deep_view()[pos as int].name),
{
    let ghost ov = out.deep_view();
    let mut pos: usize = 0;
    while pos < out.len()
        invariant
            ov == out.deep_view(),
            pos <= out@.len(),
            forall|k: int| 0 <= k < pos ==> !crate::text::lex_le(name@, ov[k].name),
        decreases out@.len() - pos,
    {
        proof {
            assert(ov[pos as int] == out@[pos as int]@);
        }
        if crate::text::str_le(name, out[pos].name.as_str()) {
            return pos;
        }
        pos = pos + 1;
    }
    pos
}

/// Sorts charts by name; the result holds the same charts.
fn sort_chart_vec_by_name(v: Vec<Chart>) -> (r: Vec<Chart>)
    ensures
        r.deep_view().to_multiset() == v.deep_view().to_multiset(),
        sorted_by_name(r.deep_view()),
{
    let ghost vs = v.deep_view();
    let mut out: Vec<Chart> = Vec::new();
    proof {
        broadcast use vstd::seq_lib::group_to_multiset_ensures;

        assert(out.deep_view() =~= Seq::<ChartKind>::empty());
        assert(vs.take(0) =~= Seq::<ChartKind>::empty());
        assert(out.deep_view().to_multiset() =~= vs.take(0).to_multiset());
    }
    let mut i: usize = 0;
    while i < v.len()
        invariant
            vs == v.deep_view(),
            i <= v@.len(),
            out.deep_view().to_multiset() == vs.take(i as int).to_multiset(),
            sorted_by_name(out.deep_view()),
        decreases v@.len() - i,
    {
        let x = v[i].clone();
        proof {
            assert(x@ == v@[i as int]@);
            assert(vs[i as int] == v@[i as int]@);
        }
        let ghost prev = out.deep_view();
        let pos = insertion_point(&out, x.name.as_str());
        out.insert(pos, x);
        proof {
            broadcast use vstd::seq_lib::group_to_multiset_ensures;

            assert forall|k: int| 0 <= k < out.deep_view().len() implies out.deep_view()[k]
                == prev.insert(pos as int, vs[i as int])[k] by {
                assert(out.deep_view()[k] == out@[k]@);
            }
            assert(out.deep_view() =~= prev.insert(pos as int, vs[i as int]));
            lemma_insert_multiset(prev, pos as int, vs[i as int]);
            assert(vs.take(i + 1) =~= vs.take(i as int).push(vs[i as int]));
            assert(out.deep_view().to_multiset() =~= vs.take(i + 1).to_multiset());
            let cur = out.deep_view();
            assert forall|p: int, q: int|
                0 <= p < q < cur.len() implies crate::text::lex_le(
                #[trigger] cur[p].name,
                #[trigger] cur[q].name,
            ) by {
                if q < pos {
                    assert(cur[p] == prev[p] && cur[q] == prev[q]);
                } else if p > pos {
                    assert(cur[p] == prev[p - 1] && cur[q] == prev[q - 1]);
                } else if p == pos && q > pos {
                    assert(cur[p] == vs[i as int] && cur[q] == prev[q - 1]);
                    assert(pos <= q - 1 < prev.len());
                    assert(crate::text::lex_le(vs[i as int].name, prev[pos as int].name));
                    if q - 1 > pos {
                        crate::text::lemma_lex_le_trans(
                            vs[i as int].name,
                            prev[pos as int].name,
                            prev[q - 1].name,
                        );
                    }
                } else if p < pos && q == pos {
                    assert(cur[p] == prev[p] && cur[q] == vs[i as int]);
                    assert(!crate::text::lex_le(vs[i as int].name, prev[p].name));
                    crate::text::lemma_lex_le_total(vs[i as int].name, prev[p].name);
                } else {
                    assert(p < pos && q > pos);
                    assert(cur[p] == prev[p] && cur[q] == prev[q - 1]);
                    assert(p < q - 1);
                    assert(crate::text::lex_le(prev[p].name, prev[q - 1].name));
                }
            }
        }
        i = i + 1;
    }
    proof {
        assert(vs.take(vs.len() as int) =~= vs);
    }
    out
}

/// Returns the charts that directly declare `target_name` in their `depends`
/// list, sorted by name; fails exactly as `sort_charts` does on unknown names
/// and cycles, and when the target itself is not configured.
pub fn get_dependents(charts: &Vec<Chart>, target_name: &str) -> (r: Result<Vec<Chart>, DagError>)
    ensures
        match r {
            Ok(out) => {
                &&& out.deep_view().to_multiset() == direct_dependents(
                    charts.deep_view(),
                    target_name@,
                ).to_multiset()
                &&& sorted_by_name(out.deep_view())
                &&& !has_unknown_dep(charts.deep_view())
                &&& deployment_order_exists(charts.deep_view())
                &&& has_name(charts.deep_view(), target_name@)
            },
            Err(DagError::UnknownDependency { chart, dependency }) => {
                &&& has_unknown_dep(charts.deep_view())
                &&& exists|i: int, j: int|
                    unknown_dep_witness(charts.deep_view(), i, j) && charts.deep_view()[i].name
                        == chart@ && charts.deep_view()[i].depends[j] == dependency@
            },
            Err(DagError::CycleDetected { chart }) => {
                &&& !has_unknown_dep(charts.deep_view())
                &&& !deployment_order_exists(charts.deep_view())
                &&& has_name(charts.deep_view(), chart@)
            },
            Err(DagError::ChartNotFound { chart }) => {
                &&& !has_unknown_dep(charts.deep_view())
                &&& deployment_order_exists(charts.deep_view())
                &&& !has_name(charts.deep_view(), target_name@)
                &&& chart@ == target_name@
            },
        },
        r is Ok <==> (!has_unknown_dep(charts.deep_view()) && deployment_order_exists(
            charts.deep_view(),
        ) && has_name(charts.deep_view(), target_name@)),
{
    let ghost cs = charts.deep_view();
    match sort_charts(charts) {
        Ok(_) => {},
        Err(e) => {
            return Err(e);
        },
    }
    if !chart_name_exists(charts, target_name) {
        let mut t = String::new();
        t.append(target_name);
        return Err(DagError::ChartNotFound { chart: t });
    }
    let mut found: Vec<Chart> = Vec::new();
    proof {
        assert(found.deep_view() =~= Seq::<ChartKind>::empty());
        assert(cs.take(0) =~= Seq::<ChartKind>::empty());
        assert(direct_dependents(cs.take(0), target_name@) =~= Seq::<ChartKind>::empty());
    }
    let mut i: usize = 0;
    while i < charts.len()
        invariant
            cs == charts.deep_view(),
            i <= charts@.len(),
            found.deep_view() == direct_dependents(cs.take(i as int), target_name@),
        decreases charts@.len() - i,
    {
        proof {
            assert(cs[i as int] == charts@[i as int]@);
        }
        let ghost prev = found.deep_view();
        if depends_contains(&charts[i], target_name) {
            found.push(charts[i].clone());
            proof {
                assert forall|k: int| 0 <= k < found.deep_view().len() implies found.deep_view()[k]
                    == prev.push(cs[i as int])[k] by {
                    assert(found.deep_view()[k] == found@[k]@);
                }
                assert(found.deep_view() =~= prev.push(cs[i as int]));
            }
        }
        proof {
            lemma_direct_dependents_push(cs.take(i as int), target_name@, cs[i as int]);
            assert(cs.take(i + 1) =~= cs.take(i as int).push(cs[i as int]));
        }
        i = i + 1;
    }
    proof {
        assert(cs.take(cs.len() as int) =~= cs);
    }
    let out = sort_chart_vec_by_name(found);
    Ok(out)
}

} // verus!

