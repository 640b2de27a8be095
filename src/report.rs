//! The execution report of a test run: one outcome per test case, where a later
//! event for a test case replaces an earlier one.
use crate::ansi::{strip_color, stripped};
use crate::name::{spec_parse, Name, NameError};
use indexmap::IndexMap;
use vstd::prelude::*;

verus! {

#[verifier::external_type_specification]
#[verifier::external_body]
#[verifier::reject_recursive_types(K)]
#[verifier::reject_recursive_types(V)]
#[verifier::reject_recursive_types(S)]
pub struct ExIndexMap<K, V, S>(IndexMap<K, V, S>);

/// The state a test case was last reported in.
#[derive(Debug, Clone, Copy, PartialEq, Eq, Structural)]
pub enum Event {
    /// The test case began.
    Started,
    /// The test case succeeded.
    Passed,
    Failed,
    Ignored,
}

/// Package, binary and test case.
pub type CaseKey = (String, String, String);

/// Status, duration in milliseconds and captured output of a test case.
pub type Outcome = (Event, Option<u32>, Option<String>);

pub type CaseKeyView = (Seq<char>, Seq<char>, Seq<char>);

pub type OutcomeView = (Event, Option<u32>, Option<Seq<char>>);

pub open spec fn opt_view(o: Option<String>) -> Option<Seq<char>> {
    match o {
        Some(s) => Some(s@),
        None => None,
    }
}

pub open spec fn key_view(k: CaseKey) -> CaseKeyView {
    (k.0@, k.1@, k.2@)
}

pub open spec fn outcome_view(o: Outcome) -> OutcomeView {
    (o.0, o.1, opt_view(o.2))
}

pub open spec fn no_cases() -> Map<CaseKeyView, OutcomeView> {
    Map::empty()
}

/// What a case table holds, by test case.
pub uninterp spec fn case_table(m: IndexMap<CaseKey, Outcome>) -> Map<CaseKeyView, OutcomeView>;

/// The test cases of a case table in its order.
pub uninterp spec fn case_keys(m: IndexMap<CaseKey, Outcome>) -> Seq<CaseKeyView>;

/// Relies on `IndexMap::new`: an empty map.
#[verifier::external_body]
fn case_table_new() -> (r: IndexMap<CaseKey, Outcome>)
    ensures
        case_table(r) == no_cases(),
        case_keys(r).len() == 0,
{
    IndexMap::new()
}

/// Relies on `IndexMap::insert`: the value of an equal key is replaced and the
/// key keeps its place, any other key is added last.
#[verifier::external_body]
fn case_table_insert(m: &mut IndexMap<CaseKey, Outcome>, k: CaseKey, v: Outcome)
    ensures
        case_table(*final(m)) == case_table(*old(m)).insert(key_view(k), outcome_view(v)),
        case_keys(*final(m)) == if case_table(*old(m)).contains_key(key_view(k)) {
            case_keys(*old(m))
        } else {
            case_keys(*old(m)).push(key_view(k))
        },
{
    m.insert(k, v);
}

/// Relies on `IndexMap::get`: the value stored for an equal key, if any.
#[verifier::external_body]
fn case_table_get<'a>(m: &'a IndexMap<CaseKey, Outcome>, k: &CaseKey) -> (r: Option<&'a Outcome>)
    ensures
        r is Some <==> case_table(*m).contains_key(key_view(*k)),
        r matches Some(v) ==> outcome_view(*v) == case_table(*m)[key_view(*k)],
{
    m.get(k)
}

/// One event of a test run.
#[derive(Debug)]
pub struct ReportTest {
    pub event: Event,
    pub name: Name,
    /// Execution time in milliseconds.
    pub duration_ms: Option<u32>,
    /// Captured output without colour sequences.
    pub stdout: Option<String>,
}

impl ReportTest {
    /// An event for the test case written `name` in the identifier grammar;
    /// colour sequences are removed from the captured output.
    pub fn new(event: Event, name: &str, duration_ms: Option<u32>, stdout: Option<&str>) -> (r:
        Result<ReportTest, NameError>)
        ensures
            r is Ok <==> spec_parse(name@) is Some,
            r matches Ok(t) ==> {
                &&& spec_parse(name@) == Some(
                    (t.name.pkg_name@, t.name.test_binary@, t.name.test_case@),
                )
                &&& t.event == event
                &&& t.duration_ms == duration_ms
                &&& opt_view(t.stdout) == match stdout {
                    Some(s) => Some(stripped(s@)),
                    None => None::<Seq<char>>,
                }
            },
    {
        let name = Name::parse(name)?;
        let stdout = match stdout {
            Some(s) => Some(strip_color(s)),
            None => None,
        };
        Ok(ReportTest { event, name, duration_ms, stdout })
    }
}

pub open spec fn report_key(t: ReportTest) -> CaseKeyView {
    (t.name.pkg_name@, t.name.test_binary@, t.name.test_case@)
}

pub open spec fn report_outcome(t: ReportTest) -> OutcomeView {
    (t.event, t.duration_ms, opt_view(t.stdout))
}

/// The outcome of each test case in a run: the last event reported for it.
pub open spec fn last_outcomes(rs: Seq<ReportTest>) -> Map<CaseKeyView, OutcomeView>
    decreases rs.len(),
{
    if rs.len() == 0 {
        Map::empty()
    } else {
        last_outcomes(rs.drop_last()).insert(report_key(rs.last()), report_outcome(rs.last()))
    }
}

/// What a run recorded for a test case: its status, duration and output, or
/// nothing.
pub open spec fn recorded(outcomes: Map<CaseKeyView, OutcomeView>, k: CaseKeyView) -> (
    Option<Event>,
    Option<u32>,
    Option<Seq<char>>,
) {
    if outcomes.contains_key(k) {
        (Some(outcomes[k].0), outcomes[k].1, outcomes[k].2)
    } else {
        (None, None, None)
    }
}

/// The test cases of a run in the order of their first event.
pub open spec fn first_order(rs: Seq<ReportTest>) -> Seq<CaseKeyView>
    decreases rs.len(),
{
    if rs.len() == 0 {
        Seq::empty()
    } else if last_outcomes(rs.drop_last()).contains_key(report_key(rs.last())) {
        first_order(rs.drop_last())
    } else {
        first_order(rs.drop_last()).push(report_key(rs.last()))
    }
}

/// A test run: what it wrote to standard error and each test case's outcome.
pub struct Report {
    pub stderr: String,
    pub testcases: IndexMap<CaseKey, Outcome>,
}

impl Report {
    /// Merges the events of a run; a later event for a test case overrides an
    /// earlier one, and test cases stay in the order of their first event.
    pub fn new(stderr: String, reports: Vec<ReportTest>) -> (r: Report)
        ensures
            r.stderr == stderr,
            case_table(r.testcases) == last_outcomes(reports@),
            case_keys(r.testcases) == first_order(reports@),
    {
        let ghost all = reports@;
        let mut testcases = case_table_new();
        let mut rest = reports;
        let mut i: usize = 0;
        let n = rest.len();
        while rest.len() > 0
            invariant
                all.len() == n,
                i + rest@.len() == n,
                rest@ =~= all.subrange(i as int, n as int),
                case_table(testcases) == last_outcomes(all.subrange(0, i as int)),
                case_keys(testcases) == first_order(all.subrange(0, i as int)),
            decreases rest@.len(),
        {
            let t = rest.remove(0);
            proof {
                assert(t == all[i as int]);
                let next = all.subrange(0, i + 1);
                assert(next.drop_last() =~= all.subrange(0, i as int));
                assert(next.last() == t);
            }
            let key = (t.name.pkg_name, t.name.test_binary, t.name.test_case);
            case_table_insert(&mut testcases, key, (t.event, t.duration_ms, t.stdout));
            i = i + 1;
        }
        proof {
            assert(all.subrange(0, n as int) =~= all);
        }
        Report { stderr, testcases }
    }

    /// The outcome recorded for `[package, binary, test case]`.
    pub fn get_test_case(&self, pkg_bin_test: &[&str; 3]) -> (r: (
        Option<Event>,
        Option<u32>,
        Option<String>,
    ))
        ensures
            (r.0, r.1, opt_view(r.2)) == recorded(
                case_table(self.testcases),
                (pkg_bin_test@[0]@, pkg_bin_test@[1]@, pkg_bin_test@[2]@),
            ),
    {
        let key = (
            pkg_bin_test[0].to_owned(),
            pkg_bin_test[1].to_owned(),
            pkg_bin_test[2].to_owned(),
        );
        match case_table_get(&self.testcases, &key) {
            Some(o) => {
                let stdout = match &o.2 {
                    Some(s) => Some(s.clone()),
                    None => None,
                };
                (Some(o.0), o.1, stdout)
            },
            None => (None, None, None),
        }
    }
}

} // verus!
