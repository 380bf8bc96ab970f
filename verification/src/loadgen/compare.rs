//! Comparison of two arms of result files: which runs compare.
//!
//! Every input must be a valid run of the same scenario under the same load;
//! ramp results mix rates and are refused. Failed requests have no latency,
//! so a quantile is only meaningful while the failures stay well inside its
//! tail. Runs breaking either the validity or the tail rule are refused
//! unless they are allowed, and are listed either way.

use crate::chars;
use crate::chars::quoted;
use crate::loadgen::censor::Metric;
use crate::sorted;
use crate::sorted::{distinct_strings, join};
use crate::text;
use crate::text::push_decimal;
use vstd::prelude::*;
use vstd::string::StringExecFns;

verus! {

/// A recorded parameter of a run.
#[derive(Debug)]
pub struct Param {
    /// Its name.
    pub key: String,
    /// Its value: equal values have equal numbers.
    pub value: u64,
}

/// Whether the parameter may differ between compared runs: the shared
/// options, the length of the measurement, and the list of body sizes (each
/// result file holds one size, which its scenario names).
pub open spec fn is_free(key: Seq<char>) -> bool {
    key == "common"@ || key == "measure_s"@ || key == "sizes"@
}

/// The parameters as names and values.
pub open spec fn pairs(params: Seq<Param>) -> Seq<(Seq<char>, u64)> {
    Seq::new(params.len(), |i: int| (params[i].key@, params[i].value))
}

/// The parameters that define the offered load.
pub open spec fn load_of(params: Seq<(Seq<char>, u64)>) -> Seq<(Seq<char>, u64)>
    decreases params.len(),
{
    if params.len() == 0 {
        Seq::empty()
    } else if is_free(params.last().0) {
        load_of(params.drop_last())
    } else {
        load_of(params.drop_last()).push(params.last())
    }
}

/// The value of a parameter.
pub open spec fn value_of(params: Seq<(Seq<char>, u64)>, key: Seq<char>) -> Option<u64>
    decreases params.len(),
{
    if params.len() == 0 {
        None
    } else if params.last().0 == key {
        Some(params.last().1)
    } else {
        value_of(params.drop_last(), key)
    }
}

/// The names, among those of `params`, whose values differ between `a` and
/// `b`.
pub open spec fn names_differing(
    params: Seq<(Seq<char>, u64)>,
    a: Seq<(Seq<char>, u64)>,
    b: Seq<(Seq<char>, u64)>,
) -> Seq<Seq<char>>
    decreases params.len(),
{
    if params.len() == 0 {
        Seq::empty()
    } else {
        let rest = names_differing(params.drop_last(), a, b);
        let key = params.last().0;
        if value_of(a, key) != value_of(b, key) {
            rest.push(key)
        } else {
            rest
        }
    }
}

/// The names whose values differ between `a` and `b`, in order.
pub open spec fn differing(a: Seq<(Seq<char>, u64)>, b: Seq<(Seq<char>, u64)>) -> Seq<Seq<char>> {
    sorted::distinct_of(names_differing(a, a, b) + names_differing(b, a, b))
}

/// The parameters that define the offered load: everything recorded but what
/// may differ. `None` when no parameters were recorded.
pub fn load_params(params: Option<&Vec<Param>>) -> (r: Option<Vec<Param>>)
    ensures
        match (r, params) {
            (Some(load), Some(all)) => pairs(load@) == load_of(pairs(all@)),
            (None, None) => true,
            _ => false,
        },
{
    match params {
        None => None,
        Some(all) => {
            let common = String::from_str("common");
            let measure_s = String::from_str("measure_s");
            let sizes = String::from_str("sizes");
            let mut load: Vec<Param> = Vec::new();
            let mut i: usize = 0;
            assert(pairs(load@) =~= Seq::empty());
            assert(pairs(all@).take(0) =~= Seq::empty());
            while i < all.len()
                invariant
                    i <= all@.len(),
                    common@ == "common"@,
                    measure_s@ == "measure_s"@,
                    sizes@ == "sizes"@,
                    pairs(load@) == load_of(pairs(all@).take(i as int)),
                decreases all@.len() - i,
            {
                let param = &all[i];
                proof {
                    let t = pairs(all@).take(i + 1);
                    assert(t.drop_last() =~= pairs(all@).take(i as int));
                    assert(t.last() == (param.key@, param.value));
                }
                if param.key != common && param.key != measure_s && param.key != sizes {
                    let ghost was = load@;
                    load.push(Param { key: param.key.clone(), value: param.value });
                    assert(pairs(load@) =~= pairs(was).push((param.key@, param.value)));
                }
                i += 1;
            }
            assert(pairs(all@).take(i as int) =~= pairs(all@));
            Some(load)
        },
    }
}

fn lookup(params: &Vec<Param>, key: &String) -> (r: Option<u64>)
    ensures
        r == value_of(pairs(params@), key@),
{
    let mut n: usize = params.len();
    assert(pairs(params@).take(n as int) =~= pairs(params@));
    while n > 0
        invariant
            n <= params@.len(),
            value_of(pairs(params@), key@) == value_of(pairs(params@).take(n as int), key@),
        decreases n,
    {
        proof {
            let t = pairs(params@).take(n as int);
            assert(t.last() == (params@[n - 1].key@, params@[n - 1].value));
            assert(t.drop_last() =~= pairs(params@).take(n - 1));
        }
        if params[n - 1].key == *key {
            return Some(params[n - 1].value);
        }
        n -= 1;
    }
    None
}

fn collect_differing(out: &mut Vec<String>, params: &Vec<Param>, a: &Vec<Param>, b: &Vec<Param>)
    ensures
        sorted::views(final(out)@) == sorted::views(old(out)@) + names_differing(
            pairs(params@),
            pairs(a@),
            pairs(b@),
        ),
{
    let mut i: usize = 0;
    let ghost was = sorted::views(out@);
    assert(pairs(params@).take(0) =~= Seq::empty());
    assert(was + Seq::<Seq<char>>::empty() =~= was);
    while i < params.len()
        invariant
            i <= params@.len(),
            sorted::views(out@) == was + names_differing(
                pairs(params@).take(i as int),
                pairs(a@),
                pairs(b@),
            ),
        decreases params@.len() - i,
    {
        let key = &params[i].key;
        proof {
            let t = pairs(params@).take(i + 1);
            assert(t.drop_last() =~= pairs(params@).take(i as int));
            assert(t.last() == (key@, params@[i as int].value));
        }
        if lookup(a, key) != lookup(b, key) {
            let ghost before = out@;
            out.push(key.clone());
            proof {
                assert(sorted::views(out@) =~= sorted::views(before).push(key@));
                let rest = names_differing(pairs(params@).take(i as int), pairs(a@), pairs(b@));
                assert((was + rest).push(key@) =~= was + rest.push(key@));
            }
        }
        i += 1;
    }
    assert(pairs(params@).take(i as int) =~= pairs(params@));
}

/// Names whose values differ between two parameter sets, in order.
pub fn differing_keys(a: &Vec<Param>, b: &Vec<Param>) -> (r: Vec<String>)
    ensures
        sorted::views(r@) == differing(pairs(a@), pairs(b@)),
{
    let mut names: Vec<String> = Vec::new();
    collect_differing(&mut names, a, a, b);
    collect_differing(&mut names, b, a, b);
    proof {
        let none = sorted::views(Seq::<String>::empty());
        let x = names_differing(pairs(a@), pairs(a@), pairs(b@));
        let y = names_differing(pairs(b@), pairs(a@), pairs(b@));
        assert(none =~= Seq::empty());
        assert((none + x) + y =~= x + y);
    }
    distinct_strings(&names)
}

proof fn lemma_absent(params: Seq<(Seq<char>, u64)>, key: Seq<char>)
    requires
        value_of(params, key) is Some,
    ensures
        exists|i: int| 0 <= i < params.len() && (#[trigger] params[i]).0 == key,
    decreases params.len(),
{
    if params.last().0 != key {
        lemma_absent(params.drop_last(), key);
        let i = choose|i: int|
            0 <= i < params.len() - 1 && (#[trigger] params.drop_last()[i]).0 == key;
        assert(params[i].0 == key);
    } else {
        assert(params[params.len() - 1].0 == key);
    }
}

proof fn lemma_names_differing(
    params: Seq<(Seq<char>, u64)>,
    a: Seq<(Seq<char>, u64)>,
    b: Seq<(Seq<char>, u64)>,
    key: Seq<char>,
)
    ensures
        names_differing(params, a, b).contains(key) <==> (value_of(a, key) != value_of(b, key)
            && exists|i: int| 0 <= i < params.len() && (#[trigger] params[i]).0 == key),
    decreases params.len(),
{
    if params.len() > 0 {
        let front = params.drop_last();
        lemma_names_differing(front, a, b, key);
        let rest = names_differing(front, a, b);
        let all = names_differing(params, a, b);
        let last = params.last().0;
        if all.contains(key) {
            let k = choose|k: int| 0 <= k < all.len() && all[k] == key;
            if k < rest.len() {
                assert(rest[k] == key);
                let i = choose|i: int| 0 <= i < front.len() && (#[trigger] front[i]).0 == key;
                assert(params[i].0 == key);
            } else {
                assert(params[params.len() - 1].0 == key);
            }
        }
        if value_of(a, key) != value_of(b, key) && exists|i: int|
            0 <= i < params.len() && (#[trigger] params[i]).0 == key {
            let i = choose|i: int| 0 <= i < params.len() && (#[trigger] params[i]).0 == key;
            if i < front.len() {
                assert(front[i].0 == key);
                let k = choose|k: int| 0 <= k < rest.len() && rest[k] == key;
                assert(all[k] == key);
            } else {
                assert(all[rest.len() as int] == key);
            }
        }
    }
}

/// A name is listed as differing if and only if its values differ, and no
/// matter which of the two sets comes first.
pub proof fn law_the_listed_parameters_are_those_that_differ(
    a: Seq<(Seq<char>, u64)>,
    b: Seq<(Seq<char>, u64)>,
    key: Seq<char>,
)
    ensures
        differing(a, b).contains(key) <==> value_of(a, key) != value_of(b, key),
        differing(a, b).contains(key) <==> differing(b, a).contains(key),
        sorted::ascending(differing(a, b)),
{
    lemma_listed(a, b, key);
    lemma_listed(b, a, key);
    sorted::law_distinct_strings_are_sorted_and_complete(
        names_differing(a, a, b) + names_differing(b, a, b),
    );
}

proof fn lemma_listed(a: Seq<(Seq<char>, u64)>, b: Seq<(Seq<char>, u64)>, key: Seq<char>)
    ensures
        differing(a, b).contains(key) <==> value_of(a, key) != value_of(b, key),
{
    let x = names_differing(a, a, b);
    let y = names_differing(b, a, b);
    sorted::law_distinct_strings_are_sorted_and_complete(x + y);
    lemma_names_differing(a, a, b, key);
    lemma_names_differing(b, a, b, key);
    if x.contains(key) {
        let k = choose|k: int| 0 <= k < x.len() && x[k] == key;
        assert((x + y)[k] == key);
    }
    if y.contains(key) {
        let k = choose|k: int| 0 <= k < y.len() && y[k] == key;
        assert((x + y)[x.len() + k] == key);
    }
    if (x + y).contains(key) {
        let k = choose|k: int| 0 <= k < (x + y).len() && (x + y)[k] == key;
        if k < x.len() {
            assert(x[k] == key);
        } else {
            assert(y[k - x.len()] == key);
        }
    }
    if value_of(a, key) != value_of(b, key) {
        if value_of(a, key) is Some {
            lemma_absent(a, key);
        } else {
            lemma_absent(b, key);
        }
    }
}

/// An input run with the file it was read from.
#[derive(Debug)]
pub struct Input {
    /// The file.
    pub path: String,
    /// Its scenario.
    pub scenario: String,
    /// Its parameters, if they are an object.
    pub params: Option<Vec<Param>>,
}

/// What is wrong with comparing `run` with the first run.
pub open spec fn mismatch(scenario: Seq<char>, first: Input, run: Input) -> Option<Seq<char>> {
    if run.scenario@ != scenario {
        Some(
            run.path@ + " is scenario "@ + chars::debug_format(run.scenario@)
                + ", the first A file is "@ + chars::debug_format(scenario)
                + "; only runs of one scenario compare"@,
        )
    } else {
        match (run.params, first.params) {
            (None, _) => Some(run.path@ + ": params is not an object"@),
            (Some(_), None) => None,
            (Some(params), Some(first_params)) => {
                let keys = differing(load_of(pairs(first_params@)), load_of(pairs(params@)));
                if keys.len() > 0 {
                    Some(
                        run.path@ + " ran another load than "@ + first.path@ + " (parameters "@
                            + sorted::joined(keys, ", "@) + "); only runs of one load compare"@,
                    )
                } else {
                    None
                }
            },
        }
    }
}

/// What is wrong with the first of the runs that does not compare with the
/// first run.
pub open spec fn first_mismatch(scenario: Seq<char>, first: Input, runs: Seq<Input>) -> Option<
    Seq<char>,
>
    decreases runs.len(),
{
    if runs.len() == 0 {
        None
    } else {
        match first_mismatch(scenario, first, runs.drop_last()) {
            Some(why) => Some(why),
            None => mismatch(scenario, first, runs.last()),
        }
    }
}

/// Why the runs do not compare.
pub open spec fn refusal(scenario: Seq<char>, first: Input, runs: Seq<Input>) -> Option<Seq<char>> {
    if scenario == "nonstream-ramp"@ {
        Some(
            scenario
                + " results mix the latencies of every ramp step; compare fixed-rate nonstream runs (--rate) instead"@,
        )
    } else if first.params is None {
        Some(first.path@ + ": params is not an object"@)
    } else {
        first_mismatch(scenario, first, runs)
    }
}

fn check_run(scenario: &str, first: &Input, first_load: &Vec<Param>, run: &Input) -> (r: Result<
    (),
    String,
>)
    requires
        first.params matches Some(params) && pairs(first_load@) == load_of(pairs(params@)),
    ensures
        match (r, mismatch(scenario@, *first, *run)) {
            (Ok(()), None) => true,
            (Err(why), Some(said)) => why@ == said,
            _ => false,
        },
{
    let wanted = String::from_str(scenario);
    if run.scenario != wanted {
        let mut why = run.path.clone();
        why.append(" is scenario ");
        why.append(quoted(run.scenario.as_str()).as_str());
        why.append(", the first A file is ");
        why.append(quoted(scenario).as_str());
        why.append("; only runs of one scenario compare");
        return Err(why);
    }
    let load = match load_params(run.params.as_ref()) {
        None => {
            let mut why = run.path.clone();
            why.append(": params is not an object");
            return Err(why);
        },
        Some(load) => load,
    };
    let keys = differing_keys(first_load, &load);
    if keys.len() > 0 {
        let mut why = run.path.clone();
        why.append(" ran another load than ");
        why.append(first.path.as_str());
        why.append(" (parameters ");
        why.append(join(&keys, ", ").as_str());
        why.append("); only runs of one load compare");
        return Err(why);
    }
    Ok(())
}

/// Requires every input to share the first A file's scenario and load, and
/// refuses ramp results.
pub fn check_comparable(scenario: &str, first: &Input, inputs: &Vec<Input>) -> (r: Result<
    (),
    String,
>)
    ensures
        match (r, refusal(scenario@, *first, inputs@)) {
            (Ok(()), None) => true,
            (Err(why), Some(said)) => why@ == said,
            _ => false,
        },
{
    let wanted = String::from_str(scenario);
    if wanted == String::from_str("nonstream-ramp") {
        let mut why = wanted;
        why.append(
            " results mix the latencies of every ramp step; compare fixed-rate nonstream runs (--rate) instead",
        );
        return Err(why);
    }
    let first_load = match load_params(first.params.as_ref()) {
        None => {
            let mut why = first.path.clone();
            why.append(": params is not an object");
            return Err(why);
        },
        Some(load) => load,
    };
    let mut i: usize = 0;
    assert(inputs@.take(0) =~= Seq::empty());
    while i < inputs.len()
        invariant
            i <= inputs@.len(),
            scenario@ != "nonstream-ramp"@,
            first.params matches Some(params) && pairs(first_load@) == load_of(pairs(params@)),
            first_mismatch(scenario@, *first, inputs@.take(i as int)) is None,
        decreases inputs@.len() - i,
    {
        assert(inputs@.take(i + 1).drop_last() =~= inputs@.take(i as int));
        match check_run(scenario, first, &first_load, &inputs[i]) {
            Ok(()) => {},
            Err(why) => {
                proof {
                    lemma_first_mismatch(scenario@, *first, inputs@, i as int);
                }
                return Err(why);
            },
        }
        i += 1;
    }
    assert(inputs@.take(i as int) =~= inputs@);
    Ok(())
}

proof fn lemma_first_mismatch(scenario: Seq<char>, first: Input, runs: Seq<Input>, at: int)
    requires
        0 <= at < runs.len(),
        first_mismatch(scenario, first, runs.take(at)) is None,
        mismatch(scenario, first, runs[at]) is Some,
    ensures
        first_mismatch(scenario, first, runs) == mismatch(scenario, first, runs[at]),
    decreases runs.len(),
{
    if at == runs.len() - 1 {
        assert(runs.drop_last() =~= runs.take(at));
    } else {
        assert(runs.drop_last().take(at) =~= runs.take(at));
        lemma_first_mismatch(scenario, first, runs.drop_last(), at);
    }
}

/// What the screening reads of a run.
#[derive(Debug)]
pub struct Screened {
    /// The file it was read from.
    pub path: String,
    /// The run was judged valid.
    pub valid: bool,
    /// Why it was not.
    pub reasons: Vec<String>,
    /// Failed requests.
    pub failures: u64,
    /// Completed requests.
    pub requests: u64,
    /// Its failure share exceeds what the highest quantile tolerates.
    pub fails_tail: bool,
}

/// Inputs that should not be compared, with the reason.
#[derive(Debug)]
pub struct Screening {
    /// Runs judged invalid.
    pub invalid: Vec<String>,
    /// Runs whose failure share exceeds what the highest quantile tolerates.
    pub tail_failures: Vec<String>,
}

/// The tail that the failures have to stay inside of.
#[derive(Debug)]
pub struct Tail {
    /// Largest failure share tolerated, percent.
    pub limit_percent: String,
    /// The highest quantile compared.
    pub quantile: String,
}

/// What is said of an invalid run.
pub open spec fn invalid_text(run: Screened) -> Seq<char> {
    run.path@ + ": "@ + sorted::joined(sorted::views(run.reasons@), "; "@)
}

/// What is said of a run that failed too often.
pub open spec fn tail_text(run: Screened, tail: Tail) -> Seq<char> {
    run.path@ + ": "@ + text::decimal_chars(run.failures as nat) + " of "@ + text::decimal_chars(
        (run.requests + run.failures) as nat,
    ) + " requests failed, more than "@ + tail.limit_percent@ + "% for the "@ + tail.quantile@
        + " tail"@
}

/// The invalid runs, in order.
pub open spec fn invalid_runs(runs: Seq<Screened>) -> Seq<Seq<char>>
    decreases runs.len(),
{
    if runs.len() == 0 {
        Seq::empty()
    } else if runs.last().valid {
        invalid_runs(runs.drop_last())
    } else {
        invalid_runs(runs.drop_last()).push(invalid_text(runs.last()))
    }
}

/// The runs that failed too often, in order.
pub open spec fn tail_runs(runs: Seq<Screened>, tail: Tail) -> Seq<Seq<char>>
    decreases runs.len(),
{
    if runs.len() == 0 {
        Seq::empty()
    } else if runs.last().fails_tail {
        tail_runs(runs.drop_last(), tail).push(tail_text(runs.last(), tail))
    } else {
        tail_runs(runs.drop_last(), tail)
    }
}

impl Screening {
    /// Screens the runs.
    pub fn new(runs: &Vec<Screened>, tail: &Tail) -> (r: Self)
        requires
            forall|i: int|
                0 <= i < runs@.len() ==> (#[trigger] runs@[i]).requests + runs@[i].failures
                    <= u64::MAX,
        ensures
            sorted::views(r.invalid@) == invalid_runs(runs@),
            sorted::views(r.tail_failures@) == tail_runs(runs@, *tail),
    {
        let mut invalid: Vec<String> = Vec::new();
        let mut tail_failures: Vec<String> = Vec::new();
        let mut i: usize = 0;
        assert(runs@.take(0) =~= Seq::empty());
        assert(sorted::views(invalid@) =~= Seq::empty());
        while i < runs.len()
            invariant
                i <= runs@.len(),
                forall|k: int|
                    0 <= k < runs@.len() ==> (#[trigger] runs@[k]).requests + runs@[k].failures
                        <= u64::MAX,
                sorted::views(invalid@) == invalid_runs(runs@.take(i as int)),
                sorted::views(tail_failures@) == tail_runs(runs@.take(i as int), *tail),
            decreases runs@.len() - i,
        {
            let run = &runs[i];
            assert(runs@.take(i + 1).drop_last() =~= runs@.take(i as int));
            if !run.valid {
                let mut said = run.path.clone();
                said.append(": ");
                said.append(join(&run.reasons, "; ").as_str());
                let ghost was = invalid@;
                invalid.push(said);
                assert(sorted::views(invalid@) =~= sorted::views(was).push(invalid_text(*run)));
            }
            if run.fails_tail {
                let mut said = run.path.clone();
                said.append(": ");
                push_decimal(&mut said, run.failures);
                said.append(" of ");
                push_decimal(&mut said, run.requests + run.failures);
                said.append(" requests failed, more than ");
                said.append(tail.limit_percent.as_str());
                said.append("% for the ");
                said.append(tail.quantile.as_str());
                said.append(" tail");
                let ghost was = tail_failures@;
                tail_failures.push(said);
                assert(sorted::views(tail_failures@) =~= sorted::views(was).push(
                    tail_text(*run, *tail),
                ));
            }
            i += 1;
        }
        assert(runs@.take(i as int) =~= runs@);
        Screening { invalid, tail_failures }
    }

    /// Whether every run may be compared.
    pub fn is_clean(&self) -> (r: bool)
        ensures
            r == (self.invalid@.len() == 0 && self.tail_failures@.len() == 0),
    {
        self.invalid.len() == 0 && self.tail_failures.len() == 0
    }

    /// Refuses the flagged runs unless they are allowed.
    pub fn enforce(&self, allow: bool) -> (r: Result<(), String>)
        ensures
            match r {
                Ok(()) => allow || (self.invalid@.len() == 0 && self.tail_failures@.len() == 0),
                Err(why) => !allow && if self.invalid@.len() > 0 {
                    why@ == text::decimal_chars(self.invalid@.len())
                        + " input run(s) are invalid; rerun them or pass --allow-invalid"@
                } else {
                    self.tail_failures@.len() > 0 && why@ == text::decimal_chars(
                        self.tail_failures@.len(),
                    )
                        + " input run(s) failed too many requests for the highest quantile; compare fewer quantiles, rerun them or pass --allow-invalid"@
                },
            },
    {
        if allow || self.is_clean() {
            return Ok(());
        }
        let mut why = String::new();
        assert(why@ =~= Seq::empty());
        if self.invalid.len() > 0 {
            push_decimal(&mut why, self.invalid.len() as u64);
            why.append(" input run(s) are invalid; rerun them or pass --allow-invalid");
        } else {
            push_decimal(&mut why, self.tail_failures.len() as u64);
            why.append(
                " input run(s) failed too many requests for the highest quantile; compare fewer quantiles, rerun them or pass --allow-invalid",
            );
        }
        proof {
            if self.invalid@.len() > 0 {
                let n = text::decimal_chars(self.invalid@.len());
                assert(Seq::<char>::empty() + n =~= n);
            } else {
                let n = text::decimal_chars(self.tail_failures@.len());
                assert(Seq::<char>::empty() + n =~= n);
            }
        }
        Err(why)
    }
}

/// The labels of an arm, each once, in order.
pub fn distinct(labels: &Vec<String>) -> (r: String)
    ensures
        r@ == sorted::joined(sorted::distinct_of(sorted::views(labels@)), ","@),
{
    join(&distinct_strings(labels), ",")
}

/// What is said of an arm.
pub open spec fn arm_text(labels: Seq<Seq<char>>) -> Seq<char> {
    sorted::joined(sorted::distinct_of(labels), ","@) + " ("@ + text::decimal_chars(labels.len())
        + " run(s))"@
}

/// The first line of the comparison.
pub fn title(
    scenario: &str,
    a_labels: &Vec<String>,
    b_labels: &Vec<String>,
    has_invalid: bool,
) -> (r: String)
    ensures
        r@ == "compare "@ + scenario@ + ": A = "@ + arm_text(sorted::views(a_labels@)) + ", B = "@
            + arm_text(sorted::views(b_labels@)) + if has_invalid {
            "  [includes INVALID runs or runs failing too often for the tail]"@
        } else {
            Seq::empty()
        },
{
    let mut out = String::from_str("compare ");
    out.append(scenario);
    out.append(": A = ");
    let mut a = distinct(a_labels);
    a.append(" (");
    push_decimal(&mut a, a_labels.len() as u64);
    a.append(" run(s))");
    out.append(a.as_str());
    out.append(", B = ");
    let mut b = distinct(b_labels);
    b.append(" (");
    push_decimal(&mut b, b_labels.len() as u64);
    b.append(" run(s))");
    out.append(b.as_str());
    let ghost said = out@;
    if has_invalid {
        out.append("  [includes INVALID runs or runs failing too often for the tail]");
    }
    assert(said + Seq::<char>::empty() =~= said);
    out
}

/// A compared metric and whether the baseline's p99 is known well enough.
#[derive(Debug, Clone, Copy, PartialEq, Eq, Structural)]
pub struct Judged {
    /// Metric.
    pub metric: Metric,
    /// The interval of the baseline's p99 is narrow enough.
    pub within: bool,
}

/// The metric was compared.
pub open spec fn is_compared(compared: Seq<Judged>, metric: Metric) -> bool {
    exists|i: int| 0 <= i < compared.len() && (#[trigger] compared[i]).metric == metric
}

/// The metric decides: one of those asked for; or else the time to
/// the first chunk and the chunk latency, where they are compared; or else
/// every compared metric.
pub open spec fn decides(compared: Seq<Judged>, asked: Option<Seq<Metric>>, metric: Metric) -> bool {
    match asked {
        Some(metrics) => metrics.contains(metric),
        None => metric == Metric::Ttft || metric == Metric::ChunkLatency || (!is_compared(
            compared,
            Metric::Ttft,
        ) && !is_compared(compared, Metric::ChunkLatency)),
    }
}

/// The metric at `k` is the first of the ones asked for that was not compared.
pub open spec fn is_first_missing(compared: Seq<Judged>, asked: Seq<Metric>, k: int) -> bool {
    &&& 0 <= k < asked.len()
    &&& !is_compared(compared, asked[k])
    &&& forall|j: int| 0 <= j < k ==> is_compared(compared, #[trigger] asked[j])
}

fn was_compared(compared: &Vec<Judged>, metric: Metric) -> (r: bool)
    ensures
        r == is_compared(compared@, metric),
{
    let mut i: usize = 0;
    while i < compared.len()
        invariant
            i <= compared@.len(),
            forall|k: int| 0 <= k < i ==> (#[trigger] compared@[k]).metric != metric,
        decreases compared@.len() - i,
    {
        if compared[i].metric == metric {
            assert(compared@[i as int].metric == metric);
            return true;
        }
        i += 1;
    }
    false
}

fn first_missing(compared: &Vec<Judged>, asked: &Vec<Metric>) -> (r: Option<usize>)
    ensures
        match r {
            Some(k) => is_first_missing(compared@, asked@, k as int),
            None => forall|j: int|
                0 <= j < asked@.len() ==> is_compared(compared@, #[trigger] asked@[j]),
        },
{
    let mut k: usize = 0;
    while k < asked.len()
        invariant
            k <= asked@.len(),
            forall|j: int| 0 <= j < k ==> is_compared(compared@, #[trigger] asked@[j]),
        decreases asked@.len() - k,
    {
        if !was_compared(compared, asked[k]) {
            return Some(k);
        }
        k += 1;
    }
    None
}

fn holds(metrics: &Vec<Metric>, metric: Metric) -> (r: bool)
    ensures
        r == metrics@.contains(metric),
{
    let mut i: usize = 0;
    while i < metrics.len()
        invariant
            i <= metrics@.len(),
            forall|k: int| 0 <= k < i ==> #[trigger] metrics@[k] != metric,
        decreases metrics@.len() - i,
    {
        if metrics[i] == metric {
            assert(metrics@[i as int] == metric);
            return true;
        }
        i += 1;
    }
    false
}

/// Whether the baseline is known well enough: the criterion holds of every
/// metric that decides. Other compared metrics are judged but do not decide.
/// Each metric asked for must be compared; the first that is not is handed
/// back.
pub fn baseline_holds(compared: &Vec<Judged>, asked: Option<&Vec<Metric>>) -> (r: Result<bool, Metric>)
    ensures
        match (r, asked) {
            (Ok(pass), None) => pass == (forall|i: int|
                0 <= i < compared@.len() && decides(compared@, None, compared@[i].metric)
                    ==> (#[trigger] compared@[i]).within),
            (Ok(pass), Some(metrics)) => (forall|k: int|
                0 <= k < metrics@.len() ==> is_compared(compared@, #[trigger] metrics@[k])) && pass
                == (forall|i: int|
                0 <= i < compared@.len() && decides(compared@, Some(metrics@), compared@[i].metric)
                    ==> (#[trigger] compared@[i]).within),
            (Err(missing), Some(metrics)) => exists|k: int|
                #[trigger] is_first_missing(compared@, metrics@, k) && metrics@[k] == missing,
            (Err(_), None) => false,
        },
        forall|i: int|
            asked is None && 0 <= i < compared@.len() && !(#[trigger] compared@[i]).within && (
            compared@[i].metric == Metric::Ttft || compared@[i].metric == Metric::ChunkLatency)
                ==> r == Ok::<bool, Metric>(false),
{
    let ghost wanted: Option<Seq<Metric>> = match asked {
        Some(metrics) => Some(metrics@),
        None => None,
    };
    if let Some(metrics) = asked {
        match first_missing(compared, metrics) {
            Some(k) => {
                return Err(metrics[k]);
            },
            None => {},
        }
    }
    let by_default: bool = !was_compared(compared, Metric::Ttft) && !was_compared(
        compared,
        Metric::ChunkLatency,
    );
    let mut pass = true;
    let mut i: usize = 0;
    while i < compared.len()
        invariant
            i <= compared@.len(),
            by_default == (!is_compared(compared@, Metric::Ttft) && !is_compared(
                compared@,
                Metric::ChunkLatency,
            )),
            wanted == match asked {
                Some(metrics) => Some(metrics@),
                None => None,
            },
            pass == (forall|k: int|
                0 <= k < i && decides(compared@, wanted, compared@[k].metric) ==> (
                #[trigger] compared@[k]).within),
        decreases compared@.len() - i,
    {
        let metric: Metric = compared[i].metric;
        let counts: bool = match asked {
            Some(metrics) => holds(metrics, metric),
            None => metric == Metric::Ttft || metric == Metric::ChunkLatency || by_default,
        };
        assert(counts == decides(compared@, wanted, compared@[i as int].metric));
        if counts && !compared[i].within {
            assert(!compared@[i as int].within);
            pass = false;
        }
        i += 1;
    }
    Ok(pass)
}

/// With no metrics asked for, the time to the first chunk and the chunk
/// latency decide wherever they are compared: one of them that is not within
/// its limit fails the baseline, whatever the others are. Where neither is
/// compared every metric decides, and where one is, no other metric does.
pub proof fn law_the_default_metrics_decide(compared: Seq<Judged>, pass: bool)
    requires
        pass == (forall|i: int|
            0 <= i < compared.len() && decides(compared, None, compared[i].metric) ==> (
            #[trigger] compared[i]).within),
    ensures
        forall|i: int|
            0 <= i < compared.len() && !(#[trigger] compared[i]).within && (compared[i].metric
                == Metric::Ttft || compared[i].metric == Metric::ChunkLatency) ==> !pass,
        (forall|i: int|
            0 <= i < compared.len() ==> (#[trigger] compared[i]).metric != Metric::Ttft
                && compared[i].metric != Metric::ChunkLatency) ==> pass == (forall|i: int|
            0 <= i < compared.len() ==> (#[trigger] compared[i]).within),
        ((exists|i: int|
            0 <= i < compared.len() && ((#[trigger] compared[i]).metric == Metric::Ttft
                || compared[i].metric == Metric::ChunkLatency)) && (forall|i: int|
            0 <= i < compared.len() && !(#[trigger] compared[i]).within ==> compared[i].metric
                != Metric::Ttft && compared[i].metric != Metric::ChunkLatency)) ==> pass,
{
    if exists|i: int|
        0 <= i < compared.len() && !(#[trigger] compared[i]).within && (compared[i].metric
            == Metric::Ttft || compared[i].metric == Metric::ChunkLatency) {
        let i = choose|i: int|
            0 <= i < compared.len() && !(#[trigger] compared[i]).within && (compared[i].metric
                == Metric::Ttft || compared[i].metric == Metric::ChunkLatency);
        assert(decides(compared, None, compared[i].metric));
        assert(!pass);
    }
    if exists|i: int|
        0 <= i < compared.len() && ((#[trigger] compared[i]).metric == Metric::Ttft
            || compared[i].metric == Metric::ChunkLatency) {
        let i = choose|i: int|
            0 <= i < compared.len() && ((#[trigger] compared[i]).metric == Metric::Ttft
                || compared[i].metric == Metric::ChunkLatency);
        assert(is_compared(compared, compared[i].metric));
    }
}

/// With metrics asked for, these and no others decide: the baseline holds
/// exactly when each compared entry of one of them is within its limit.
pub proof fn law_the_metrics_asked_for_decide(
    compared: Seq<Judged>,
    asked: Seq<Metric>,
    pass: bool,
)
    requires
        pass == (forall|i: int|
            0 <= i < compared.len() && decides(compared, Some(asked), compared[i].metric) ==> (
            #[trigger] compared[i]).within),
    ensures
        pass <==> forall|i: int, k: int|
            0 <= i < compared.len() && 0 <= k < asked.len() && (#[trigger] compared[i]).metric
                == #[trigger] asked[k] ==> compared[i].within,
{
    if !pass {
        let i = choose|i: int|
            0 <= i < compared.len() && decides(compared, Some(asked), compared[i].metric) && !(
            #[trigger] compared[i]).within;
        let k = choose|k: int| 0 <= k < asked.len() && asked[k] == compared[i].metric;
        assert(compared[i].metric == asked[k] && !compared[i].within);
    } else {
        assert forall|i: int, k: int|
            0 <= i < compared.len() && 0 <= k < asked.len() && (#[trigger] compared[i]).metric
                == #[trigger] asked[k] implies compared[i].within by {
            assert(asked.contains(asked[k]));
        }
    }
}

/// Only the shared options, the length of the measurement and the list of
/// sizes may differ between compared runs: a parameter of any other name is
/// part of the load, with its value, and none of these is.
pub proof fn law_the_load_is_all_but_the_free_parameters(
    params: Seq<(Seq<char>, u64)>,
    i: int,
)
    requires
        0 <= i < params.len(),
    ensures
        load_of(params).contains(params[i]) <==> params[i].0 != "common"@ && params[i].0
            != "measure_s"@ && params[i].0 != "sizes"@,
{
    lemma_load_contains(params, params[i]);
    assert(params.contains(params[i]));
}

proof fn lemma_load_contains(params: Seq<(Seq<char>, u64)>, pair: (Seq<char>, u64))
    ensures
        load_of(params).contains(pair) <==> params.contains(pair) && !is_free(pair.0),
    decreases params.len(),
{
    if params.len() > 0 {
        let rest = params.drop_last();
        lemma_load_contains(rest, pair);
        assert(params =~= rest.push(params.last()));
        if params.contains(pair) {
            let k = choose|k: int| 0 <= k < params.len() && params[k] == pair;
            if k < rest.len() {
                assert(rest[k] == pair);
            }
        }
        if rest.contains(pair) {
            let k = choose|k: int| 0 <= k < rest.len() && rest[k] == pair;
            assert(params[k] == pair);
        }
        if load_of(rest).contains(pair) {
            let k = choose|k: int| 0 <= k < load_of(rest).len() && load_of(rest)[k] == pair;
            if !is_free(params.last().0) {
                assert(load_of(params)[k] == pair);
            }
        }
        if !is_free(params.last().0) {
            let n = load_of(rest).len() as int;
            assert(load_of(params)[n] == params.last());
            assert(params[params.len() - 1] == params.last());
            if load_of(params).contains(pair) {
                let k = choose|k: int|
                    0 <= k < load_of(params).len() && load_of(params)[k] == pair;
                if k < n {
                    assert(load_of(rest)[k] == pair);
                }
            }
        }
    }
}

/// Runs are compared only when they are of one scenario that is no ramp, have
/// their parameters recorded, and ran one load: where the runs are accepted,
/// every one of them has the scenario, and no parameter of the load has
/// another value in it than in the first run.
pub proof fn law_only_runs_of_one_load_compare(
    scenario: Seq<char>,
    first: Input,
    runs: Seq<Input>,
    i: int,
    key: Seq<char>,
)
    requires
        refusal(scenario, first, runs) is None,
        0 <= i < runs.len(),
    ensures
        scenario != "nonstream-ramp"@,
        first.params is Some,
        runs[i].scenario@ == scenario,
        runs[i].params is Some,
        value_of(load_of(pairs(first.params->Some_0@)), key) == value_of(
            load_of(pairs(runs[i].params->Some_0@)),
            key,
        ),
{
    lemma_no_mismatch(scenario, first, runs, i);
    let a = load_of(pairs(first.params->Some_0@));
    let b = load_of(pairs(runs[i].params->Some_0@));
    law_the_listed_parameters_are_those_that_differ(a, b, key);
    assert(!differing(a, b).contains(key));
}

proof fn lemma_no_mismatch(scenario: Seq<char>, first: Input, runs: Seq<Input>, i: int)
    requires
        first_mismatch(scenario, first, runs) is None,
        0 <= i < runs.len(),
    ensures
        mismatch(scenario, first, runs[i]) is None,
    decreases runs.len(),
{
    if i < runs.len() - 1 {
        assert(runs.drop_last()[i] == runs[i]);
        lemma_no_mismatch(scenario, first, runs.drop_last(), i);
    }
}

/// Every run that was judged invalid is listed, and so is every run that
/// failed too often; a run that is neither is not, and the screening is clean
/// only where there is none of them.
pub proof fn law_no_flagged_run_escapes_the_screening(runs: Seq<Screened>, tail: Tail)
    ensures
        invalid_runs(runs).len() == 0 <==> forall|i: int|
            0 <= i < runs.len() ==> (#[trigger] runs[i]).valid,
        tail_runs(runs, tail).len() == 0 <==> forall|i: int|
            0 <= i < runs.len() ==> !(#[trigger] runs[i]).fails_tail,
    decreases runs.len(),
{
    if runs.len() > 0 {
        let rest = runs.drop_last();
        law_no_flagged_run_escapes_the_screening(rest, tail);
        assert forall|i: int| 0 <= i < rest.len() implies #[trigger] rest[i] == runs[i] by {}
        assert(runs[runs.len() - 1] == runs.last());
        if forall|i: int| 0 <= i < runs.len() ==> (#[trigger] runs[i]).valid {
            assert forall|i: int| 0 <= i < rest.len() implies (#[trigger] rest[i]).valid by {
                assert(runs[i].valid);
            }
        }
        if forall|i: int| 0 <= i < runs.len() ==> !(#[trigger] runs[i]).fails_tail {
            assert forall|i: int| 0 <= i < rest.len() implies !(#[trigger] rest[i]).fails_tail by {
                assert(!runs[i].fails_tail);
            }
        }
        if invalid_runs(runs).len() == 0 {
            assert forall|i: int| 0 <= i < runs.len() implies (#[trigger] runs[i]).valid by {
                if i < rest.len() {
                    assert(rest[i].valid);
                }
            }
        }
        if tail_runs(runs, tail).len() == 0 {
            assert forall|i: int| 0 <= i < runs.len() implies !(#[trigger] runs[i]).fails_tail by {
                if i < rest.len() {
                    assert(!rest[i].fails_tail);
                }
            }
        }
    }
}

} // verus!
