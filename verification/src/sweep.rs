//! Parameter sweeps: checking a sweep specification, expanding its parameters into every
//! combination, and naming the cases.

use vstd::prelude::*;

use crate::ids::{decimal_digits, padded_decimal, push_padded_decimal};
use crate::text::{blank, is_blank, split_char, split_on, string_views};

verus! {

/// The most cases one sweep may expand to.
pub const MAX_CASES: usize = 10000;

/// The first problem of a sweep's parameters among the first `n`, in order, if any.
pub open spec fn parameter_problem(paths: Seq<Seq<char>>, value_counts: Seq<usize>, n: int) -> Option<Seq<char>>
    decreases n,
{
    if n <= 0 {
        None
    } else {
        match parameter_problem(paths, value_counts, n - 1) {
            Some(e) => Some(e),
            None => {
                let path = paths[n - 1];
                if blank(path) {
                    Some("sweep parameter path must not be empty"@)
                } else if path == "root_seed"@ || path == "run_id"@ {
                    Some(path + " is managed by the sweep runner"@)
                } else if value_counts[n - 1] == 0 {
                    Some("sweep parameter "@ + path + " has no values"@)
                } else {
                    None
                }
            },
        }
    }
}

/// The first problem of a sweep specification, if any: a blank name, no seeds, or a
/// parameter with a blank path, a path the runner manages, or no values.
pub open spec fn spec_problem(name: Seq<char>, seed_count: nat, paths: Seq<Seq<char>>, value_counts: Seq<usize>) -> Option<Seq<char>> {
    if blank(name) {
        Some("sweep name must not be empty"@)
    } else if seed_count == 0 {
        Some("sweep must contain at least one seed"@)
    } else {
        parameter_problem(paths, value_counts, paths.len() as int)
    }
}

/// The text of each path.
pub open spec fn path_texts(paths: Seq<String>) -> Seq<Seq<char>> {
    paths.map_values(|p: String| p@)
}

/// Checks a sweep specification: its name, its seeds, and each parameter path (in order)
/// with the number of values it takes.
pub fn validate_spec(name: &str, seed_count: usize, paths: &Vec<String>, value_counts: &Vec<usize>) -> (r: Result<(), String>)
    requires
        paths@.len() == value_counts@.len(),
    ensures
        r is Ok <==> spec_problem(name@, seed_count as nat, path_texts(paths@), value_counts@) is None,
        r matches Err(e) ==> spec_problem(name@, seed_count as nat, path_texts(paths@), value_counts@) == Some(e@),
        r is Ok <==> {
            &&& !blank(name@)
            &&& seed_count > 0
            &&& forall|k: int| 0 <= k < paths@.len() ==> {
                &&& !blank(#[trigger] paths@[k]@)
                &&& paths@[k]@ != "root_seed"@
                &&& paths@[k]@ != "run_id"@
                &&& value_counts@[k] > 0
            }
        },
{
    proof { lemma_accepted_spec_texts(name@, seed_count as nat, paths@, value_counts@); }
    if is_blank(name) {
        proof { reveal_strlit("sweep name must not be empty"); }
        return Err(String::from_str("sweep name must not be empty"));
    }
    if seed_count == 0 {
        proof { reveal_strlit("sweep must contain at least one seed"); }
        return Err(String::from_str("sweep must contain at least one seed"));
    }
    let ghost texts = path_texts(paths@);
    let mut i: usize = 0;
    while i < paths.len()
        invariant
            paths@.len() == value_counts@.len(),
            texts == path_texts(paths@),
            !blank(name@),
            seed_count > 0,
            0 <= i <= paths@.len(),
            parameter_problem(texts, value_counts@, i as int) is None,
        decreases paths@.len() - i,
    {
        let path = &paths[i];
        assert(texts[i as int] == path@);
        if is_blank(path.as_str()) {
            proof {
                reveal_strlit("sweep parameter path must not be empty");
                lemma_problem_stays(texts, value_counts@, i as int + 1, paths@.len() as int);
                lemma_accepted_spec_texts(name@, seed_count as nat, paths@, value_counts@);
            }
            return Err(String::from_str("sweep parameter path must not be empty"));
        }
        let managed = *path == String::from_str("root_seed") || *path == String::from_str("run_id");
        proof {
            reveal_strlit("root_seed");
            reveal_strlit("run_id");
        }
        if managed {
            let mut message = path.clone();
            proof { reveal_strlit(" is managed by the sweep runner"); }
            message.append(" is managed by the sweep runner");
            proof {
                lemma_problem_stays(texts, value_counts@, i as int + 1, paths@.len() as int);
                lemma_accepted_spec_texts(name@, seed_count as nat, paths@, value_counts@);
            }
            return Err(message);
        }
        if value_counts[i] == 0 {
            let mut message = String::from_str("sweep parameter ");
            message.append(path.as_str());
            message.append(" has no values");
            proof {
                reveal_strlit("sweep parameter ");
                reveal_strlit(" has no values");
                lemma_problem_stays(texts, value_counts@, i as int + 1, paths@.len() as int);
                lemma_accepted_spec_texts(name@, seed_count as nat, paths@, value_counts@);
            }
            return Err(message);
        }
        i = i + 1;
    }
    proof { lemma_accepted_spec_texts(name@, seed_count as nat, paths@, value_counts@); }
    Ok(())
}

proof fn lemma_accepted_spec_texts(name: Seq<char>, seed_count: nat, paths: Seq<String>, value_counts: Seq<usize>)
    requires
        paths.len() == value_counts.len(),
    ensures
        spec_problem(name, seed_count, path_texts(paths), value_counts) is None <==> {
            &&& !blank(name)
            &&& seed_count > 0
            &&& forall|k: int| 0 <= k < paths.len() ==> {
                &&& !blank(#[trigger] paths[k]@)
                &&& paths[k]@ != "root_seed"@
                &&& paths[k]@ != "run_id"@
                &&& value_counts[k] > 0
            }
        },
{
    let texts = path_texts(paths);
    lemma_accepted_specs(name, seed_count, texts, value_counts);
    assert forall|k: int| 0 <= k < paths.len() implies #[trigger] texts[k] == paths[k]@ by {}
    if forall|k: int| 0 <= k < paths.len() ==> {
        &&& !blank(#[trigger] paths[k]@)
        &&& paths[k]@ != "root_seed"@
        &&& paths[k]@ != "run_id"@
        &&& value_counts[k] > 0
    } {
        assert forall|k: int| 0 <= k < texts.len() implies {
            &&& !blank(#[trigger] texts[k])
            &&& texts[k] != "root_seed"@
            &&& texts[k] != "run_id"@
            &&& value_counts[k] > 0
        } by {
            assert(texts[k] == paths[k]@);
        }
    }
    if spec_problem(name, seed_count, texts, value_counts) is None {
        assert forall|k: int| 0 <= k < paths.len() implies {
            &&& !blank(#[trigger] paths[k]@)
            &&& paths[k]@ != "root_seed"@
            &&& paths[k]@ != "run_id"@
            &&& value_counts[k] > 0
        } by {
            assert(texts[k] == paths[k]@);
            assert(!blank(texts[k]));
        }
    }
}

/// A parameter the sweep runner accepts: a non-blank path that is not one the runner manages
/// (`root_seed`, `run_id`), with at least one value.
pub open spec fn parameter_ok(path: Seq<char>, value_count: usize) -> bool {
    !blank(path) && path != "root_seed"@ && path != "run_id"@ && value_count > 0
}

/// The first `n` parameters have no problem exactly when each of them is accepted.
pub proof fn lemma_no_parameter_problem(paths: Seq<Seq<char>>, value_counts: Seq<usize>, n: int)
    requires
        0 <= n <= paths.len(),
        paths.len() == value_counts.len(),
    ensures
        parameter_problem(paths, value_counts, n) is None
            <==> forall|k: int| 0 <= k < n ==> #[trigger] parameter_ok(paths[k], value_counts[k]),
    decreases n,
{
    if n > 0 {
        lemma_no_parameter_problem(paths, value_counts, n - 1);
        if forall|k: int| 0 <= k < n ==> #[trigger] parameter_ok(paths[k], value_counts[k]) {
            assert forall|k: int| 0 <= k < n - 1 implies #[trigger] parameter_ok(paths[k], value_counts[k]) by {
                assert(parameter_ok(paths[k], value_counts[k]));
            }
            assert(parameter_ok(paths[n - 1], value_counts[n - 1]));
        }
        if parameter_problem(paths, value_counts, n) is None {
            assert(parameter_problem(paths, value_counts, n - 1) is None);
            assert forall|k: int| 0 <= k < n implies #[trigger] parameter_ok(paths[k], value_counts[k]) by {
                if k == n - 1 {
                } else {
                    assert(parameter_ok(paths[k], value_counts[k]));
                }
            }
        }
    }
}

/// A sweep specification is accepted exactly when its name is not blank, it has a seed, and
/// every parameter path is non-blank, not managed by the runner (`root_seed`, `run_id`), and
/// takes at least one value.
pub proof fn lemma_accepted_specs(name: Seq<char>, seed_count: nat, paths: Seq<Seq<char>>, value_counts: Seq<usize>)
    requires
        paths.len() == value_counts.len(),
    ensures
        spec_problem(name, seed_count, paths, value_counts) is None <==> {
            &&& !blank(name)
            &&& seed_count > 0
            &&& forall|k: int| 0 <= k < paths.len() ==> {
                &&& !blank(#[trigger] paths[k])
                &&& paths[k] != "root_seed"@
                &&& paths[k] != "run_id"@
                &&& value_counts[k] > 0
            }
        },
{
    lemma_no_parameter_problem(paths, value_counts, paths.len() as int);
    if (forall|k: int| 0 <= k < paths.len() ==> #[trigger] parameter_ok(paths[k], value_counts[k])) {
        assert forall|k: int| 0 <= k < paths.len() implies {
            &&& !blank(#[trigger] paths[k])
            &&& paths[k] != "root_seed"@
            &&& paths[k] != "run_id"@
            &&& value_counts[k] > 0
        } by {
            assert(parameter_ok(paths[k], value_counts[k]));
        }
    }
}

/// In a specification whose name and seeds are accepted, the first parameter that the sweep
/// runner manages (`root_seed` or `run_id`), with every parameter before it accepted, is
/// refused by naming its path.
pub proof fn lemma_managed_path_refused(name: Seq<char>, seed_count: nat, paths: Seq<Seq<char>>, value_counts: Seq<usize>, k: int)
    requires
        paths.len() == value_counts.len(),
        !blank(name),
        seed_count > 0,
        0 <= k < paths.len(),
        forall|j: int| 0 <= j < k ==> #[trigger] parameter_ok(paths[j], value_counts[j]),
        paths[k] == "root_seed"@ || paths[k] == "run_id"@,
    ensures
        spec_problem(name, seed_count, paths, value_counts) == Some(paths[k] + " is managed by the sweep runner"@),
{
    reveal_strlit("root_seed");
    reveal_strlit("run_id");
    lemma_no_parameter_problem(paths, value_counts, k);
    assert(!blank(paths[k])) by {
        if paths[k] == "root_seed"@ {
            assert(paths[k][0] == 'r');
        } else {
            assert(paths[k][0] == 'r');
        }
    }
    assert(parameter_problem(paths, value_counts, k + 1) == Some(paths[k] + " is managed by the sweep runner"@));
    lemma_problem_stays(paths, value_counts, k + 1, paths.len() as int);
}

proof fn lemma_problem_stays(paths: Seq<Seq<char>>, value_counts: Seq<usize>, m: int, n: int)
    requires
        0 <= m <= n,
    ensures
        parameter_problem(paths, value_counts, m) is Some
            ==> parameter_problem(paths, value_counts, n) == parameter_problem(paths, value_counts, m),
    decreases n - m,
{
    if m < n {
        lemma_problem_stays(paths, value_counts, m, n - 1);
    }
}

/// Each choice in `ts` extended by each value index below `n`, in order.
pub open spec fn extend_choices(ts: Seq<Seq<usize>>, n: usize) -> Seq<Seq<usize>>
    decreases ts.len(),
{
    if ts.len() == 0 {
        Seq::empty()
    } else {
        extend_choices(ts.drop_last(), n) + Seq::new(n as nat, |v: int| ts.last().push(v as usize))
    }
}

/// Every choice of one value index per parameter among the first `k` parameters, with
/// earlier parameters varying slowest.
pub open spec fn combinations(counts: Seq<usize>, k: int) -> Seq<Seq<usize>>
    decreases k,
{
    if k <= 0 {
        seq![Seq::<usize>::empty()]
    } else {
        extend_choices(combinations(counts, k - 1), counts[k - 1])
    }
}

/// The number of combinations of the first `k` parameters.
pub open spec fn combination_count(counts: Seq<usize>, k: int) -> nat
    decreases k,
{
    if k <= 0 {
        1
    } else {
        combination_count(counts, k - 1) * (counts[k - 1] as nat)
    }
}

pub proof fn lemma_extend_len(ts: Seq<Seq<usize>>, n: usize)
    ensures
        extend_choices(ts, n).len() == ts.len() * n,
    decreases ts.len(),
{
    if ts.len() > 0 {
        lemma_extend_len(ts.drop_last(), n);
        assert((ts.len() - 1) * n + n == ts.len() * n) by (nonlinear_arith);
    }
}

/// A sweep over parameters with these value counts has as many combinations as the product
/// of the counts.
pub proof fn lemma_combinations_len(counts: Seq<usize>, k: int)
    requires
        0 <= k <= counts.len(),
    ensures
        combinations(counts, k).len() == combination_count(counts, k),
    decreases k,
{
    if k > 0 {
        lemma_combinations_len(counts, k - 1);
        lemma_extend_len(combinations(counts, k - 1), counts[k - 1]);
    }
}

/// The contents of each choice vector.
pub open spec fn choice_views(ts: Seq<Vec<usize>>) -> Seq<Seq<usize>> {
    ts.map_values(|t: Vec<usize>| t@)
}

fn extend_one(base: &Vec<usize>, value: usize) -> (r: Vec<usize>)
    ensures
        r@ == base@.push(value),
{
    let mut r: Vec<usize> = Vec::new();
    let mut i: usize = 0;
    while i < base.len()
        invariant
            0 <= i <= base@.len(),
            r@ == base@.take(i as int),
        decreases base@.len() - i,
    {
        r.push(base[i]);
        i = i + 1;
        assert(r@ =~= base@.take(i as int));
    }
    r.push(value);
    assert(r@ =~= base@.push(value));
    r
}

/// Every combination of one value per parameter, given how many values each parameter
/// takes: earlier parameters vary slowest. Each combination lists the chosen value index of
/// each parameter.
pub fn expand_parameters(value_counts: &Vec<usize>) -> (combos: Vec<Vec<usize>>)
    requires
        forall|k: int| 0 <= k <= value_counts@.len() ==> #[trigger] combination_count(value_counts@, k) <= usize::MAX,
    ensures
        choice_views(combos@) == combinations(value_counts@, value_counts@.len() as int),
{
    let ghost counts = value_counts@;
    let mut combos: Vec<Vec<usize>> = Vec::new();
    combos.push(Vec::new());
    assert(choice_views(combos@) =~= combinations(counts, 0));
    let mut p: usize = 0;
    while p < value_counts.len()
        invariant
            counts == value_counts@,
            forall|k: int| 0 <= k <= counts.len() ==> #[trigger] combination_count(counts, k) <= usize::MAX,
            0 <= p <= counts.len(),
            choice_views(combos@) == combinations(counts, p as int),
        decreases counts.len() - p,
    {
        let n = value_counts[p];
        let ghost ts = choice_views(combos@);
        proof {
            lemma_combinations_len(counts, p as int);
            lemma_combinations_len(counts, p as int + 1);
            assert(combination_count(counts, p as int + 1) <= usize::MAX);
        }
        let mut expanded: Vec<Vec<usize>> = Vec::new();
        let mut e: usize = 0;
        while e < combos.len()
            invariant
                ts == choice_views(combos@),
                ts.len() * n <= usize::MAX,
                0 <= e <= combos@.len(),
                choice_views(expanded@) == extend_choices(ts.take(e as int), n),
            decreases combos@.len() - e,
        {
            proof {
                lemma_extend_len(ts.take(e as int), n);
                assert(e * n + n <= ts.len() * n) by (nonlinear_arith)
                    requires e < ts.len();
            }
            let ghost before = choice_views(expanded@);
            let mut v: usize = 0;
            while v < n
                invariant
                    ts == choice_views(combos@),
                    0 <= e < combos@.len(),
                    0 <= v <= n,
                    choice_views(expanded@) == before + Seq::new(v as nat, |w: int| ts[e as int].push(w as usize)),
                    before.len() + n <= usize::MAX,
                decreases n - v,
            {
                let next = extend_one(&combos[e], v);
                let ghost old_views = choice_views(expanded@);
                assert(ts[e as int] == combos@[e as int]@);
                expanded.push(next);
                proof {
                    assert(choice_views(expanded@) =~= old_views.push(ts[e as int].push(v)));
                    assert(choice_views(expanded@) =~= before + Seq::new((v + 1) as nat, |w: int| ts[e as int].push(w as usize)));
                }
                v = v + 1;
            }
            proof {
                let t1 = ts.take(e as int + 1);
                assert(t1.drop_last() =~= ts.take(e as int));
                assert(t1.last() == ts[e as int]);
            }
            e = e + 1;
        }
        assert(ts.take(ts.len() as int) == ts);
        combos = expanded;
        p = p + 1;
    }
    combos
}

/// The number of cases of a sweep, or why it cannot run: the product of the parameter
/// combinations and the seeds overflows, or exceeds `MAX_CASES`.
pub fn case_count(parameter_sets: usize, seed_count: usize) -> (r: Result<usize, String>)
    ensures
        parameter_sets * seed_count > usize::MAX ==> (r matches Err(e) && e@ == "sweep case count overflow"@),
        parameter_sets * seed_count <= usize::MAX && parameter_sets * seed_count > MAX_CASES ==> (r matches Err(e)
            && e@ == "sweep expands to "@ + decimal_digits((parameter_sets * seed_count) as nat)
                + " cases; maximum is 10000"@),
        parameter_sets * seed_count <= MAX_CASES ==> r == Ok::<usize, String>((parameter_sets * seed_count) as usize),
{
    let count = match parameter_sets.checked_mul(seed_count) {
        Some(c) => c,
        None => {
            proof { reveal_strlit("sweep case count overflow"); }
            return Err(String::from_str("sweep case count overflow"));
        },
    };
    if count > MAX_CASES {
        let mut message = String::from_str("sweep expands to ");
        push_padded_decimal(&mut message, count as u64, 0);
        message.append(" cases; maximum is 10000");
        proof {
            reveal_strlit("sweep expands to ");
            reveal_strlit(" cases; maximum is 10000");
        }
        return Err(message);
    }
    Ok(count)
}

/// The identifier of case `index`: `case-` and the index with at least four digits.
pub fn case_id(index: usize) -> (id: String)
    requires
        index <= u64::MAX,
    ensures
        id@ == "case-"@ + padded_decimal(index as nat, 4),
{
    let mut id = String::from_str("case-");
    proof { reveal_strlit("case-"); }
    push_padded_decimal(&mut id, index as u64, 4);
    id
}

/// The run identifier of a sweep case: `<base>-<case>-seed-<seed>`.
pub fn case_run_id(base_run_id: &str, case_id: &str, seed: u64) -> (id: String)
    ensures
        id@ == base_run_id@ + "-"@ + case_id@ + "-seed-"@ + decimal_digits(seed as nat),
{
    let mut id = String::from_str(base_run_id);
    id.append("-");
    id.append(case_id);
    id.append("-seed-");
    push_padded_decimal(&mut id, seed, 0);
    proof {
        reveal_strlit("-");
        reveal_strlit("-seed-");
    }
    id
}

/// The warnings of a sweep: one when it uses a single seed, since its groups then have no
/// dispersion.
pub fn sweep_warnings(seed_count: usize) -> (w: Vec<String>)
    ensures
        seed_count == 1 ==> w@.len() == 1 && w@[0]@
            == "The sweep uses one seed; each group is a single realization, so dispersion is unavailable."@,
        seed_count != 1 ==> w@.len() == 0,
{
    let mut w: Vec<String> = Vec::new();
    if seed_count == 1 {
        proof {
            reveal_strlit("The sweep uses one seed; each group is a single realization, so dispersion is unavailable.");
        }
        w.push(String::from_str(
            "The sweep uses one seed; each group is a single realization, so dispersion is unavailable.",
        ));
    }
    w
}

/// The parts of `path` between its dots, in order.
pub open spec fn split_dots(path: Seq<char>) -> Seq<Seq<char>> {
    split_char(path, '.')
}

/// Splits a parameter path such as `sensors.gps.rate_hz` into its parts.
pub fn split_path(path: &str) -> (parts: Vec<String>)
    ensures
        string_views(parts@) == split_dots(path@),
{
    split_on(path, '.')
}

/// The seeds of a sweep that names none: seed 1 alone.
pub fn default_seeds() -> (seeds: Vec<u64>)
    ensures
        seeds@ == seq![1u64],
{
    let mut seeds: Vec<u64> = Vec::new();
    seeds.push(1);
    seeds
}

/// A count in a results table: its decimal digits, or nothing when absent.
pub fn optional_usize(value: Option<usize>) -> (text: String)
    ensures
        value matches Some(n) ==> text@ == decimal_digits(n as nat),
        value is None ==> text@ == Seq::<char>::empty(),
{
    let mut text = String::new();
    if let Some(n) = value {
        push_padded_decimal(&mut text, n as u64, 0);
    }
    text
}

/// `value` with every `"` doubled.
pub open spec fn doubled_quotes(value: Seq<char>) -> Seq<char>
    decreases value.len(),
{
    if value.len() == 0 {
        Seq::empty()
    } else {
        doubled_quotes(value.drop_last()) + if value.last() == '"' { seq!['"', '"'] } else { seq![value.last()] }
    }
}

/// A quoted CSV field: `value` between double quotes, its own double quotes doubled.
pub fn csv_field(value: &str) -> (field: String)
    ensures
        field@ == seq!['"'] + doubled_quotes(value@) + seq!['"'],
{
    let chars = crate::text::chars_of(value);
    let mut field = String::from_str("\"");
    proof { reveal_strlit("\""); reveal_strlit("\"\""); }
    let mut start: usize = 0;
    let mut i: usize = 0;
    while i < chars.len()
        invariant
            chars@ == value@,
            0 <= start <= i <= chars@.len(),
            field@ + value@.subrange(start as int, i as int) == seq!['"'] + doubled_quotes(value@.take(i as int)),
        decreases chars@.len() - i,
    {
        proof {
            reveal_strlit("\"\"");
            assert(value@.take(i + 1).drop_last() =~= value@.take(i as int));
            assert(value@.take(i + 1).last() == chars@[i as int]);
            assert(doubled_quotes(value@.take(i + 1)) == doubled_quotes(value@.take(i as int))
                + if chars@[i as int] == '"' { seq!['"', '"'] } else { seq![chars@[i as int]] });
        }
        if chars[i] == '"' {
            let ghost before = field@;
            field.append(value.substring_char(start, i));
            field.append("\"\"");
            start = i + 1;
            proof {
                assert(value@.subrange(start as int, i + 1) =~= Seq::<char>::empty());
                assert(field@ + value@.subrange(start as int, i + 1)
                    =~= seq!['"'] + doubled_quotes(value@.take(i + 1)));
            }
        } else {
            proof {
                assert(value@.subrange(start as int, i + 1) =~= value@.subrange(start as int, i as int).push(chars@[i as int]));
                assert(field@ + value@.subrange(start as int, i + 1)
                    =~= (field@ + value@.subrange(start as int, i as int)).push(chars@[i as int]));
                assert(field@ + value@.subrange(start as int, i + 1)
                    =~= seq!['"'] + doubled_quotes(value@.take(i + 1)));
            }
        }
        i = i + 1;
    }
    field.append(value.substring_char(start, chars.len()));
    field.append("\"");
    assert(value@.take(chars@.len() as int) =~= value@);
    assert(field@ =~= seq!['"'] + doubled_quotes(value@) + seq!['"']);
    field
}

/// Different cases of a sweep have different identifiers.
pub proof fn lemma_case_ids_distinct(i: nat, j: nat)
    requires
        i != j,
    ensures
        "case-"@ + padded_decimal(i, 4) != "case-"@ + padded_decimal(j, 4),
{
    let prefix = "case-"@;
    let (a, b) = (prefix + padded_decimal(i, 4), prefix + padded_decimal(j, 4));
    if a == b {
        assert(padded_decimal(i, 4) =~= a.subrange(prefix.len() as int, a.len() as int));
        assert(padded_decimal(j, 4) =~= b.subrange(prefix.len() as int, b.len() as int));
        crate::ids::lemma_padded_decimal_injective(i, j, 4);
    }
}

/// Every combination chooses, for each of the first `k` parameters, one of its value indices.
pub proof fn lemma_combinations_choose_valid_values(counts: Seq<usize>, k: int)
    requires
        0 <= k <= counts.len(),
    ensures
        forall|c: int| 0 <= c < combinations(counts, k).len() ==> {
            &&& (#[trigger] combinations(counts, k)[c]).len() == k
            &&& forall|p: int| 0 <= p < k ==> #[trigger] combinations(counts, k)[c][p] < counts[p]
        },
    decreases k,
{
    if k > 0 {
        lemma_combinations_choose_valid_values(counts, k - 1);
        lemma_extend_choices_valid(combinations(counts, k - 1), counts, k - 1);
    }
}

proof fn lemma_extend_choices_valid(ts: Seq<Seq<usize>>, counts: Seq<usize>, k: int)
    requires
        0 <= k < counts.len(),
        forall|c: int| 0 <= c < ts.len() ==> {
            &&& (#[trigger] ts[c]).len() == k
            &&& forall|p: int| 0 <= p < k ==> #[trigger] ts[c][p] < counts[p]
        },
    ensures
        forall|c: int| 0 <= c < extend_choices(ts, counts[k]).len() ==> {
            &&& (#[trigger] extend_choices(ts, counts[k])[c]).len() == k + 1
            &&& forall|p: int| 0 <= p < k + 1 ==> #[trigger] extend_choices(ts, counts[k])[c][p] < counts[p]
        },
    decreases ts.len(),
{
    if ts.len() > 0 {
        let rest = ts.drop_last();
        lemma_extend_choices_valid(rest, counts, k);
        let e = extend_choices(ts, counts[k]);
        let left = extend_choices(rest, counts[k]);
        assert forall|c: int| 0 <= c < e.len() implies {
            &&& (#[trigger] e[c]).len() == k + 1
            &&& forall|p: int| 0 <= p < k + 1 ==> #[trigger] e[c][p] < counts[p]
        } by {
            if c < left.len() {
                assert(e[c] == left[c]);
            } else {
                let v = c - left.len();
                assert(e[c] == ts.last().push(v as usize));
                assert(ts.last() == ts[ts.len() - 1]);
            }
        }
    }
}

} // verus!
