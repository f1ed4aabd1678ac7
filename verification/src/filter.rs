//! Validation of the operator's chart-name filter.
use vstd::prelude::*;
use vstd::string::StringExecFns;

use crate::text::{join_with, str_eq};

verus! {

/// The views of a sequence of borrowed strings.
pub open spec fn strs_view(s: Seq<&str>) -> Seq<Seq<char>> {
    s.map_values(|x: &str| x@)
}

/// Some available name equals `n`.
pub open spec fn name_available(avail: Seq<Seq<char>>, n: Seq<char>) -> bool {
    exists|k: int| 0 <= k < avail.len() && avail[k] == n
}

/// The requested names that are not available, in request order.
pub open spec fn missing_names(avail: Seq<Seq<char>>, only: Seq<Seq<char>>) -> Seq<Seq<char>>
    decreases only.len(),
{
    if only.len() == 0 {
        Seq::empty()
    } else if !name_available(avail, only[0]) {
        seq![only[0]] + missing_names(avail, only.drop_first())
    } else {
        missing_names(avail, only.drop_first())
    }
}

proof fn lemma_missing_names_push(avail: Seq<Seq<char>>, only: Seq<Seq<char>>, x: Seq<char>)
    ensures
        missing_names(avail, only.push(x)) == if !name_available(avail, x) {
            missing_names(avail, only).push(x)
        } else {
            missing_names(avail, only)
        },
    decreases only.len(),
{
    let whole = only.push(x);
    if only.len() == 0 {
        assert(whole.len() == 1);
        assert(whole[0] == x);
        assert(whole.drop_first() =~= Seq::<Seq<char>>::empty());
        assert(missing_names(avail, whole.drop_first()) =~= Seq::<Seq<char>>::empty());
        if !name_available(avail, x) {
            assert(!name_available(avail, whole[0]));
            assert(missing_names(avail, whole) == seq![whole[0]] + missing_names(
                avail,
                whole.drop_first(),
            ));
            assert(missing_names(avail, only) =~= Seq::<Seq<char>>::empty());
            assert(missing_names(avail, whole) =~= missing_names(avail, only).push(x));
        } else {
            assert(name_available(avail, whole[0]));
        }
    } else {
        assert(whole[0] == only[0]);
        assert(whole.drop_first() =~= only.drop_first().push(x));
        lemma_missing_names_push(avail, only.drop_first(), x);
        if !name_available(avail, only[0]) && !name_available(avail, x) {
            assert(missing_names(avail, whole) =~= missing_names(avail, only).push(x));
        }
    }
}

proof fn lemma_missing_names_empty(avail: Seq<Seq<char>>, only: Seq<Seq<char>>)
    ensures
        (missing_names(avail, only).len() == 0) <==> (forall|j: int|
            0 <= j < only.len() ==> name_available(avail, #[trigger] only[j])),
    decreases only.len(),
{
    if only.len() > 0 {
        lemma_missing_names_empty(avail, only.drop_first());
        if name_available(avail, only[0]) {
            if missing_names(avail, only).len() == 0 {
                assert forall|j: int|
                    0 <= j < only.len() implies name_available(avail, #[trigger] only[j]) by {
                    if j > 0 {
                        assert(only.drop_first()[j - 1] == only[j]);
                    }
                }
            } else {
                if forall|j: int| 0 <= j < only.len() ==> name_available(avail, #[trigger] only[j]) {
                    assert(forall|j: int|
                        0 <= j < only.drop_first().len() ==> name_available(
                            avail,
                            #[trigger] only.drop_first()[j],
                        ));
                }
            }
        } else {
            assert(missing_names(avail, only).len() > 0);
        }
    }
}

fn name_available_exec(available_names: &[&str], n: &str) -> (r: bool)
    ensures
        r == name_available(strs_view(available_names@), n@),
{
    let ghost avail = strs_view(available_names@);
    let mut k: usize = 0;
    while k < available_names.len()
        invariant
            avail == strs_view(available_names@),
            k <= available_names@.len(),
            forall|t: int| 0 <= t < k ==> avail[t] != n@,
        decreases available_names@.len() - k,
    {
        proof {
            assert(avail[k as int] == available_names@[k as int]@);
        }
        if str_eq(available_names[k], n) {
            return true;
        }
        k = k + 1;
    }
    false
}

/// Joins names with a comma separator for the fault message.
fn join_comma(names: &Vec<String>) -> (r: String)
    ensures
        r@ == join_with(names.deep_view(), ", "@),
{
    let mut r = String::new();
    proof {
        assert(names.deep_view().take(0) =~= Seq::<Seq<char>>::empty());
    }
    let mut k: usize = 0;
    while k < names.len()
        invariant
            k <= names@.len(),
            r@ == join_with(names.deep_view().take(k as int), ", "@),
        decreases names@.len() - k,
    {
        if k > 0 {
            r.append(", ");
        }
        r.append(names[k].as_str());
        proof {
            crate::text::lemma_join_push(
                names.deep_view().take(k as int),
                names.deep_view()[k as int],
                ", "@,
            );
            assert(names.deep_view().take(k + 1) =~= names.deep_view().take(k as int).push(
                names.deep_view()[k as int],
            ));
            assert(names.deep_view()[k as int] == names@[k as int]@);
        }
        k = k + 1;
    }
    proof {
        assert(names.deep_view().take(names@.len() as int) =~= names.deep_view());
    }
    r
}

/// Checks that every chart the operator named exists; the fault message
/// lists the missing names, in the order they were given.
pub fn validate_only_args(available_names: &[&str], only_args: &[String]) -> (r: Result<
    (),
    String,
>)
    ensures
        r is Ok <==> (forall|j: int|
            0 <= j < only_args@.len() ==> name_available(
                strs_view(available_names@),
                (#[trigger] only_args@[j])@,
            )),
        r matches Err(m) ==> m@ == "The following charts specified in --only do not exist: "@
            + join_with(
            missing_names(strs_view(available_names@), only_args.deep_view()),
            ", "@,
        ),
{
    let ghost avail = strs_view(available_names@);
    let mut missing: Vec<String> = Vec::new();
    proof {
        assert(only_args.deep_view().take(0) =~= Seq::<Seq<char>>::empty());
        assert(missing.deep_view() =~= missing_names(avail, only_args.deep_view().take(0)));
    }
    let mut j: usize = 0;
    while j < only_args.len()
        invariant
            avail == strs_view(available_names@),
            j <= only_args@.len(),
            missing.deep_view() == missing_names(avail, only_args.deep_view().take(j as int)),
        decreases only_args@.len() - j,
    {
        proof {
            assert(only_args.deep_view()[j as int] == only_args@[j as int]@);
        }
        let ghost prev = missing.deep_view();
        if !name_available_exec(available_names, only_args[j].as_str()) {
            missing.push(only_args[j].clone());
            proof {
                assert forall|t: int| 0 <= t < missing.deep_view().len() implies missing.deep_view()[t]
                    == prev.push(only_args@[j as int]@)[t] by {
                    assert(missing.deep_view()[t] == missing@[t]@);
                }
                assert(missing.deep_view() =~= prev.push(only_args@[j as int]@));
            }
        }
        proof {
            lemma_missing_names_push(
                avail,
                only_args.deep_view().take(j as int),
                only_args.deep_view()[j as int],
            );
            assert(only_args.deep_view().take(j + 1) =~= only_args.deep_view().take(
                j as int,
            ).push(only_args.deep_view()[j as int]));
        }
        j = j + 1;
    }
    proof {
        assert(only_args.deep_view().take(only_args@.len() as int) =~= only_args.deep_view());
    }
    if missing.len() == 0 {
        proof {
            lemma_missing_names_empty(avail, only_args.deep_view());
            assert forall|t: int|
                0 <= t < only_args@.len() implies name_available(
                avail,
                (#[trigger] only_args@[t])@,
            ) by {
                assert(only_args.deep_view()[t] == only_args@[t]@);
            }
        }
        Ok(())
    } else {
        let list = join_comma(&missing);
        let mut msg = String::new();
        msg.append("The following charts specified in --only do not exist: ");
        msg.append(list.as_str());
        proof {
            lemma_missing_names_empty(avail, only_args.deep_view());
            if forall|t: int|
                0 <= t < only_args@.len() ==> name_available(avail, (#[trigger] only_args@[t])@) {
                assert forall|t: int|
                    0 <= t < only_args.deep_view().len() implies name_available(
                    avail,
                    #[trigger] only_args.deep_view()[t],
                ) by {
                    assert(only_args.deep_view()[t] == only_args@[t]@);
                }
                assert(missing_names(avail, only_args.deep_view()).len() == 0);
            }
        }
        Err(msg)
    }
}

} // verus!
