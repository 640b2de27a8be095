//! Merges a workspace's test inventory with the outcomes of a run, per test
//! binary and per package, and checks that the counts agree.
use crate::report::{
    case_table, opt_view, recorded, CaseKeyView, Event, OutcomeView, Report,
};
use indexmap::IndexMap;
use vstd::prelude::*;

verus! {

/// A test case of the inventory with the result of its verification run
/// (`None` when that run found no fault).
pub struct SuiteCase {
    pub name: String,
    pub miri: Option<String>,
}

/// A test binary of the inventory.
pub struct TestSuite {
    pub package_name: String,
    pub binary_id: String,
    pub kind: String,
    pub binary_name: String,
    pub test_cases: Vec<SuiteCase>,
}

/// The test inventory of a workspace.
pub struct TestList {
    /// The number of test cases the listing reports for the whole workspace.
    pub test_count: usize,
    pub rust_suites: Vec<TestSuite>,
}

/// A test case with its outcome.
#[derive(Debug)]
pub struct TestCase {
    pub name: String,
    pub status: Option<Event>,
    pub duration_ms: Option<u32>,
    pub error: Option<String>,
    pub miri: Option<String>,
}

/// A test binary with its test cases.
#[derive(Debug)]
pub struct TestBinary {
    pub id: String,
    pub kind: String,
    pub binary_name: String,
    pub testcases: Vec<TestCase>,
    /// How many test cases failed.
    pub failed: usize,
    /// Total duration in milliseconds.
    pub duration_ms: usize,
}

/// The test binaries of a package.
#[derive(Debug)]
pub struct TestCases {
    pub tests: Vec<TestBinary>,
    pub failed: usize,
    pub duration_ms: usize,
    pub pkg_tests_count: usize,
    pub workspace_tests_count: usize,
}

pub open spec fn saturated(x: int) -> int {
    if x > usize::MAX {
        usize::MAX as int
    } else {
        x
    }
}

pub open spec fn clone_of(a: Option<String>, b: Option<String>) -> bool {
    opt_view(a) == opt_view(b)
}

/// `c` is the record of test case `input` of binary `bin` in package `pkg`.
pub open spec fn is_case_of(
    c: TestCase,
    input: SuiteCase,
    pkg: Seq<char>,
    bin: Seq<char>,
    outcomes: Map<CaseKeyView, OutcomeView>,
) -> bool {
    &&& c.name@ == input.name@
    &&& clone_of(c.miri, input.miri)
    &&& (c.status, c.duration_ms, opt_view(c.error)) == recorded(outcomes, (pkg, bin, input.name@))
}

pub open spec fn failed_cases(cs: Seq<TestCase>) -> int
    decreases cs.len(),
{
    if cs.len() == 0 {
        0
    } else {
        failed_cases(cs.drop_last()) + if cs.last().status == Some(Event::Failed) {
            1int
        } else {
            0int
        }
    }
}

pub open spec fn case_durations(cs: Seq<TestCase>) -> int
    decreases cs.len(),
{
    if cs.len() == 0 {
        0
    } else {
        case_durations(cs.drop_last()) + match cs.last().duration_ms {
            Some(d) => d as int,
            None => 0int,
        }
    }
}

/// `b` is the record of binary `s`: its test cases in inventory order, how many
/// of them failed and their total duration (capped at the largest `usize`).
pub open spec fn is_binary_of(b: TestBinary, s: TestSuite, outcomes: Map<CaseKeyView, OutcomeView>) -> bool {
    &&& b.id@ == s.binary_id@
    &&& b.kind@ == s.kind@
    &&& b.binary_name@ == s.binary_name@
    &&& b.testcases@.len() == s.test_cases@.len()
    &&& forall|i: int|
        0 <= i < b.testcases@.len() ==> is_case_of(
            #[trigger] b.testcases@[i],
            s.test_cases@[i],
            s.package_name@,
            s.binary_name@,
            outcomes,
        )
    &&& b.failed == failed_cases(b.testcases@)
    &&& b.duration_ms == saturated(case_durations(b.testcases@))
}

proof fn lemma_failed_cases_bound(cs: Seq<TestCase>)
    ensures
        0 <= failed_cases(cs) <= cs.len(),
    decreases cs.len(),
{
    if cs.len() > 0 {
        lemma_failed_cases_bound(cs.drop_last());
    }
}

proof fn lemma_case_durations_nonneg(cs: Seq<TestCase>)
    ensures
        0 <= case_durations(cs),
    decreases cs.len(),
{
    if cs.len() > 0 {
        lemma_case_durations_nonneg(cs.drop_last());
    }
}

fn clone_text(o: &Option<String>) -> (r: Option<String>)
    ensures
        clone_of(r, *o),
{
    match o {
        Some(s) => Some(s.clone()),
        None => None,
    }
}

impl TestCase {
    /// The record of test case `name` of binary `bin_name` in package
    /// `pkg_name`, with its outcome in `report` and its verification result.
    pub fn new(name: &str, pkg_name: &str, bin_name: &str, report: &Report, miri: Option<String>) -> (r:
        TestCase)
        ensures
            r.name@ == name@,
            r.miri == miri,
            (r.status, r.duration_ms, opt_view(r.error)) == recorded(
                case_table(report.testcases),
                (pkg_name@, bin_name@, name@),
            ),
    {
        let (status, duration_ms, error) = report.get_test_case(&[pkg_name, bin_name, name]);
        TestCase { name: name.to_owned(), status, duration_ms, error, miri }
    }
}

impl TestBinary {
    /// The record of a test binary: each of its test cases with its outcome,
    /// the number that failed and the total duration.
    pub fn new(ele: &TestSuite, report: &Report) -> (r: TestBinary)
        ensures
            is_binary_of(r, *ele, case_table(report.testcases)),
    {
        let ghost outcomes = case_table(report.testcases);
        let pkg_name = ele.package_name.as_str();
        let bin_name = ele.binary_name.as_str();
        let mut testcases: Vec<TestCase> = Vec::new();
        let mut failed: usize = 0;
        let mut duration_ms: usize = 0;
        let mut i: usize = 0;
        while i < ele.test_cases.len()
            invariant
                i <= ele.test_cases@.len(),
                testcases@.len() == i,
                outcomes == case_table(report.testcases),
                pkg_name@ == ele.package_name@,
                bin_name@ == ele.binary_name@,
                forall|j: int|
                    0 <= j < i ==> is_case_of(
                        #[trigger] testcases@[j],
                        ele.test_cases@[j],
                        ele.package_name@,
                        ele.binary_name@,
                        outcomes,
                    ),
                failed == failed_cases(testcases@),
                duration_ms == saturated(case_durations(testcases@)),
            decreases ele.test_cases@.len() - i,
        {
            let input = &ele.test_cases[i];
            let case = TestCase::new(
                input.name.as_str(),
                pkg_name,
                bin_name,
                report,
                clone_text(&input.miri),
            );
            let d: usize = match case.duration_ms {
                Some(d) => d as usize,
                None => 0,
            };
            let is_failed = match case.status {
                Some(Event::Failed) => true,
                _ => false,
            };
            proof {
                lemma_failed_cases_bound(testcases@);
                lemma_case_durations_nonneg(testcases@);
            }
            let ghost before = testcases@;
            testcases.push(case);
            proof {
                assert(testcases@.drop_last() =~= before);
            }
            if is_failed {
                failed = failed + 1;
            }
            duration_ms = duration_ms.saturating_add(d);
            i = i + 1;
        }
        TestBinary {
            id: ele.binary_id.clone(),
            kind: ele.kind.clone(),
            binary_name: ele.binary_name.clone(),
            testcases,
            failed,
            duration_ms,
        }
    }
}

/// Test binaries of the inventory that belong to package `pkg` and hold at
/// least one test case, in inventory order.
pub open spec fn package_suites(suites: Seq<TestSuite>, pkg: Seq<char>) -> Seq<TestSuite>
    decreases suites.len(),
{
    if suites.len() == 0 {
        Seq::empty()
    } else {
        let rest = package_suites(suites.drop_last(), pkg);
        if suites.last().test_cases@.len() > 0 && suites.last().package_name@ == pkg {
            rest.push(suites.last())
        } else {
            rest
        }
    }
}

/// The number of test cases over the given binaries.
pub open spec fn suite_cases(suites: Seq<TestSuite>) -> int
    decreases suites.len(),
{
    if suites.len() == 0 {
        0
    } else {
        suite_cases(suites.drop_last()) + suites.last().test_cases@.len()
    }
}

pub open spec fn binaries_failed(bs: Seq<TestBinary>) -> int
    decreases bs.len(),
{
    if bs.len() == 0 {
        0
    } else {
        binaries_failed(bs.drop_last()) + bs.last().failed
    }
}

pub open spec fn binaries_duration(bs: Seq<TestBinary>) -> int
    decreases bs.len(),
{
    if bs.len() == 0 {
        0
    } else {
        binaries_duration(bs.drop_last()) + bs.last().duration_ms
    }
}

/// `t` is the summary of package `pkg` over the binaries `suites`.
pub open spec fn is_package_of(
    t: TestCases,
    pkg: Seq<char>,
    suites: Seq<TestSuite>,
    workspace_tests_count: usize,
    outcomes: Map<CaseKeyView, OutcomeView>,
) -> bool {
    let sel = package_suites(suites, pkg);
    &&& sel.len() > 0
    &&& t.tests@.len() == sel.len()
    &&& forall|j: int|
        0 <= j < sel.len() ==> is_binary_of(#[trigger] t.tests@[j], sel[j], outcomes)
    &&& t.pkg_tests_count == suite_cases(sel)
    &&& t.failed == binaries_failed(t.tests@)
    &&& t.duration_ms == saturated(binaries_duration(t.tests@))
    &&& t.workspace_tests_count == workspace_tests_count
}

pub open spec fn distinct_keys(entries: Seq<(Seq<char>, TestCases)>) -> bool {
    forall|i: int, j: int|
        0 <= i < entries.len() && 0 <= j < entries.len() && i != j ==> #[trigger] entries[i].0
            != #[trigger] entries[j].0
}

/// The sum of the packages' test case counts.
pub open spec fn packages_count(entries: Seq<(Seq<char>, TestCases)>) -> int
    decreases entries.len(),
{
    if entries.len() == 0 {
        0
    } else {
        packages_count(entries.drop_last()) + entries.last().1.pkg_tests_count
    }
}

/// `entries` holds one summary for each package that owns a non-empty test
/// binary among `suites`, and nothing else.
pub open spec fn is_grouping(
    entries: Seq<(Seq<char>, TestCases)>,
    suites: Seq<TestSuite>,
    workspace_tests_count: usize,
    outcomes: Map<CaseKeyView, OutcomeView>,
) -> bool {
    &&& distinct_keys(entries)
    &&& forall|i: int|
        0 <= i < entries.len() ==> is_package_of(
            #[trigger] entries[i].1,
            entries[i].0,
            suites,
            workspace_tests_count,
            outcomes,
        )
    &&& forall|j: int|
        0 <= j < suites.len() && (#[trigger] suites[j]).test_cases@.len() > 0 ==> exists|i: int|
            0 <= i < entries.len() && entries[i].0 == suites[j].package_name@
}

pub open spec fn entries_view(v: Seq<(String, TestCases)>) -> Seq<(Seq<char>, TestCases)> {
    v.map_values(|e: (String, TestCases)| (e.0@, e.1))
}

/// What a package table holds, in its order.
pub uninterp spec fn pkg_table(m: IndexMap<String, TestCases>) -> Seq<(Seq<char>, TestCases)>;

/// Relies on `IndexMap::from_iter`: pairs with distinct keys are kept in their
/// order.
#[verifier::external_body]
fn pkg_table_from(v: Vec<(String, TestCases)>) -> (r: IndexMap<String, TestCases>)
    requires
        distinct_keys(entries_view(v@)),
    ensures
        pkg_table(r) == entries_view(v@),
{
    v.into_iter().collect()
}

/// Relies on `IndexMap::into_iter`: the pairs of the map in its order, no key
/// twice.
#[verifier::external_body]
pub(crate) fn pkg_table_entries(m: IndexMap<String, TestCases>) -> (r: Vec<(String, TestCases)>)
    ensures
        entries_view(r@) == pkg_table(m),
        distinct_keys(entries_view(r@)),
{
    m.into_iter().collect()
}

/// The test summaries of a workspace's packages, by package name.
pub type PkgTests = IndexMap<String, TestCases>;

/// The counts of the inventory and of its packages disagree.
#[derive(Debug, Clone, Copy, PartialEq, Eq, Structural)]
pub struct CountMismatch {
    /// Test cases over all packages, capped at the largest `usize`.
    pub sum_pkg_tests_count: usize,
    pub workspace_tests_count: usize,
}

proof fn lemma_suite_cases_nonneg(s: Seq<TestSuite>)
    ensures
        suite_cases(s) >= 0,
    decreases s.len(),
{
    if s.len() > 0 {
        lemma_suite_cases_nonneg(s.drop_last());
    }
}

proof fn lemma_suite_cases_prefix(s: Seq<TestSuite>, i: int)
    requires
        0 <= i <= s.len(),
    ensures
        suite_cases(s.subrange(0, i)) <= suite_cases(s),
    decreases s.len() - i,
{
    if i < s.len() {
        lemma_suite_cases_prefix(s, i + 1);
        assert(s.subrange(0, i + 1).drop_last() =~= s.subrange(0, i));
    } else {
        assert(s.subrange(0, i) =~= s);
    }
}

proof fn lemma_package_suites_absent(s: Seq<TestSuite>, pkg: Seq<char>)
    requires
        forall|j: int|
            0 <= j < s.len() && (#[trigger] s[j]).test_cases@.len() > 0 ==> s[j].package_name@
                != pkg,
    ensures
        package_suites(s, pkg).len() == 0,
    decreases s.len(),
{
    if s.len() > 0 {
        let t = s.drop_last();
        assert forall|j: int|
            0 <= j < t.len() && (#[trigger] t[j]).test_cases@.len() > 0 implies t[j].package_name@
            != pkg by {
            assert(t[j] == s[j]);
        }
        lemma_package_suites_absent(t, pkg);
        assert(s.last() == s[s.len() - 1]);
    }
}

proof fn lemma_packages_count_update(e: Seq<(Seq<char>, TestCases)>, g: int, x: (Seq<char>, TestCases))
    requires
        0 <= g < e.len(),
    ensures
        packages_count(e.update(g, x)) == packages_count(e) - e[g].1.pkg_tests_count
            + x.1.pkg_tests_count,
    decreases e.len(),
{
    let u = e.update(g, x);
    if g == e.len() - 1 {
        assert(u.drop_last() =~= e.drop_last());
    } else {
        lemma_packages_count_update(e.drop_last(), g, x);
        assert(u.drop_last() =~= e.drop_last().update(g, x));
    }
}

proof fn lemma_packages_count_bound(e: Seq<(Seq<char>, TestCases)>, g: int)
    requires
        0 <= g < e.len(),
    ensures
        e[g].1.pkg_tests_count <= packages_count(e),
    decreases e.len(),
{
    lemma_packages_count_nonneg(e.drop_last());
    if g < e.len() - 1 {
        lemma_packages_count_bound(e.drop_last(), g);
    }
}

proof fn lemma_packages_count_nonneg(e: Seq<(Seq<char>, TestCases)>)
    ensures
        packages_count(e) >= 0,
    decreases e.len(),
{
    if e.len() > 0 {
        lemma_packages_count_nonneg(e.drop_last());
    }
}

fn find_package(groups: &Vec<(String, TestCases)>, pkg: &String) -> (r: Option<usize>)
    ensures
        r matches Some(g) ==> g < groups@.len() && groups@[g as int].0@ == pkg@,
        r is None ==> forall|j: int| 0 <= j < groups@.len() ==> groups@[j].0@ != pkg@,
{
    let mut j: usize = 0;
    while j < groups.len()
        invariant
            j <= groups@.len(),
            forall|k: int| 0 <= k < j ==> groups@[k].0@ != pkg@,
        decreases groups@.len() - j,
    {
        if groups[j].0 == *pkg {
            return Some(j);
        }
        j = j + 1;
    }
    None
}

/// Merges the inventory of a workspace with the outcomes of its run: the
/// non-empty test binaries grouped by package, with failed counts and durations
/// rolled up. An inventory without test cases gives no packages; otherwise the
/// packages' test case counts must add up to the inventory's total.
pub fn get(list: &TestList, report: &Report) -> (r: Result<PkgTests, CountMismatch>)
    ensures
        list.test_count == 0 ==> (r matches Ok(m) && pkg_table(m).len() == 0),
        list.test_count != 0 ==> (r is Ok <==> suite_cases(list.rust_suites@)
            == list.test_count),
        r matches Err(e) ==> e.sum_pkg_tests_count == saturated(suite_cases(list.rust_suites@))
            && e.workspace_tests_count == list.test_count,
        r matches Ok(m) ==> list.test_count != 0 ==> is_grouping(
            pkg_table(m),
            list.rust_suites@,
            list.test_count,
            case_table(report.testcases),
        ),
        r matches Ok(m) ==> packages_count(pkg_table(m)) == list.test_count,
{
    let ghost suites = list.rust_suites@;
    let ghost outcomes = case_table(report.testcases);
    let ws = list.test_count;
    if ws == 0 {
        let empty: Vec<(String, TestCases)> = Vec::new();
        proof {
            assert(entries_view(empty@).len() == 0);
        }
        return Ok(pkg_table_from(empty));
    }
    let n = list.rust_suites.len();
    let mut total: usize = 0;
    let mut i: usize = 0;
    while i < n
        invariant
            n == suites.len(),
            suites == list.rust_suites@,
            i <= n,
            ws == list.test_count,
            ws != 0,
            total == suite_cases(suites.subrange(0, i as int)),
        decreases n - i,
    {
        proof {
            assert(suites.subrange(0, i + 1).drop_last() =~= suites.subrange(0, i as int));
        }
        match total.checked_add(list.rust_suites[i].test_cases.len()) {
            Some(t) => {
                total = t;
            },
            None => {
                proof {
                    lemma_suite_cases_prefix(suites, i + 1);
                    assert(saturated(suite_cases(suites)) == usize::MAX);
                }
                return Err(CountMismatch { sum_pkg_tests_count: usize::MAX, workspace_tests_count: ws });
            },
        }
        i = i + 1;
    }
    proof {
        assert(suites.subrange(0, n as int) =~= suites);
    }
    if total != ws {
        return Err(CountMismatch { sum_pkg_tests_count: total, workspace_tests_count: ws });
    }
    let mut groups: Vec<(String, TestCases)> = Vec::new();
    i = 0;
    while i < n
        invariant
            n == suites.len(),
            suites == list.rust_suites@,
            outcomes == case_table(report.testcases),
            i <= n,
            ws == list.test_count,
            suite_cases(suites) == ws,
            is_grouping(entries_view(groups@), suites.subrange(0, i as int), ws, outcomes),
            packages_count(entries_view(groups@)) == suite_cases(suites.subrange(0, i as int)),
            forall|g: int|
                0 <= g < groups@.len() ==> (#[trigger] groups@[g]).1.failed
                    <= groups@[g].1.pkg_tests_count,
        decreases n - i,
    {
        let ghost prefix = suites.subrange(0, i as int);
        let ghost next = suites.subrange(0, i + 1);
        let ghost before = entries_view(groups@);
        let ghost groups0 = groups@;
        proof {
            assert(next.drop_last() =~= prefix);
            assert(next.last() == suites[i as int]);
            lemma_suite_cases_prefix(suites, i + 1);
            lemma_suite_cases_nonneg(prefix);
        }
        let ele = &list.rust_suites[i];
        let n_cases = ele.test_cases.len();
        if n_cases > 0 {
            let b = TestBinary::new(ele, report);
            let f = b.failed;
            let d = b.duration_ms;
            proof {
                lemma_failed_cases_bound(b.testcases@);
                lemma_case_durations_nonneg(b.testcases@);
            }
            match find_package(&groups, &ele.package_name) {
                Some(g) => {
                    let ghost old_tc = groups@[g as int].1;
                    proof {
                        lemma_packages_count_bound(before, g as int);
                        assert(before[g as int].1 == old_tc);
                    }
                    let (k, mut tc) = groups.remove(g);
                    let ghost old_tests = tc.tests@;
                    tc.tests.push(b);
                    tc.failed = tc.failed + f;
                    tc.duration_ms = tc.duration_ms.saturating_add(d);
                    tc.pkg_tests_count = tc.pkg_tests_count + n_cases;
                    let ghost entry = (k, tc);
                    groups.insert(g, (k, tc));
                    proof {
                        assert(tc.tests@.drop_last() =~= old_tests);
                        let after = entries_view(groups@);
                        assert(after =~= before.update(g as int, (entry.0@, entry.1)));
                        lemma_packages_count_update(before, g as int, (entry.0@, entry.1));
                        assert forall|j: int|
                            0 <= j < after.len() implies is_package_of(
                            #[trigger] after[j].1,
                            after[j].0,
                            next,
                            ws,
                            outcomes,
                        ) by {
                            assert(is_package_of(before[j].1, before[j].0, prefix, ws, outcomes));
                            assert(before[g as int].0 == groups0[g as int].0@);
                            if j != g {
                                assert(before[j].0 != before[g as int].0);
                                assert(after[j] == before[j]);
                                assert(package_suites(next, after[j].0) == package_suites(
                                    prefix,
                                    after[j].0,
                                ));
                            } else {
                                let sel = package_suites(prefix, ele.package_name@);
                                let sel2 = package_suites(next, ele.package_name@);
                                assert(sel2 =~= sel.push(*ele));
                                assert(sel2.drop_last() =~= sel);
                                assert(after[j].0 == ele.package_name@);
                                assert(after[j].1 == tc);
                                assert(old_tc.tests@ == old_tests);
                                assert forall|jj: int|
                                    0 <= jj < sel2.len() implies is_binary_of(
                                    #[trigger] tc.tests@[jj],
                                    sel2[jj],
                                    outcomes,
                                ) by {
                                    if jj < sel.len() {
                                        assert(tc.tests@[jj] == old_tests[jj]);
                                    }
                                }
                            }
                        }
                        assert forall|j: int|
                            0 <= j < next.len() && (#[trigger] next[j]).test_cases@.len()
                                > 0 implies exists|x: int|
                            0 <= x < after.len() && after[x].0 == next[j].package_name@ by {
                            if j < i {
                                assert(next[j] == prefix[j]);
                                let x = choose|x: int|
                                    0 <= x < before.len() && before[x].0
                                        == prefix[j].package_name@;
                                assert(after[x].0 == before[x].0);
                            } else {
                                assert(after[g as int].0 == next[j].package_name@);
                            }
                        }
                        assert forall|x: int|
                            0 <= x < groups@.len() implies (#[trigger] groups@[x]).1.failed
                            <= groups@[x].1.pkg_tests_count by {
                            if x != g {
                                assert(groups@[x] == groups0[x]);
                            }
                        }
                    }
                },
                None => {
                    proof {
                        assert forall|j: int|
                            0 <= j < prefix.len() && (#[trigger] prefix[j]).test_cases@.len()
                                > 0 implies prefix[j].package_name@ != ele.package_name@ by {
                            if prefix[j].package_name@ == ele.package_name@ {
                                let x = choose|x: int|
                                    0 <= x < before.len() && before[x].0
                                        == prefix[j].package_name@;
                                assert(groups@[x].0@ == before[x].0);
                            }
                        }
                        lemma_package_suites_absent(prefix, ele.package_name@);
                        lemma_packages_count_nonneg(before);
                    }
                    let tc = TestCases {
                        tests: vec![b],
                        failed: f,
                        duration_ms: d,
                        pkg_tests_count: n_cases,
                        workspace_tests_count: ws,
                    };
                    let ghost entry = (ele.package_name@, tc);
                    groups.push((ele.package_name.clone(), tc));
                    proof {
                        let after = entries_view(groups@);
                        assert(after =~= before.push(entry));
                        assert(after.drop_last() =~= before);
                        assert(package_suites(next, ele.package_name@) =~= seq![*ele]);
                        assert(tc.tests@ =~= seq![b]);
                        assert(tc.tests@.drop_last() =~= Seq::<TestBinary>::empty());
                        assert forall|j: int|
                            0 <= j < after.len() implies is_package_of(
                            #[trigger] after[j].1,
                            after[j].0,
                            next,
                            ws,
                            outcomes,
                        ) by {
                            if j < before.len() {
                                assert(is_package_of(before[j].1, before[j].0, prefix, ws, outcomes));
                                assert(after[j] == before[j]);
                                assert(before[j].0 == groups0[j].0@);
                                assert(before[j].0 != ele.package_name@);
                                assert(package_suites(next, after[j].0) == package_suites(
                                    prefix,
                                    after[j].0,
                                ));
                            } else {
                                assert(after[j] == entry);
                                assert(package_suites(next, ele.package_name@).drop_last()
                                    =~= Seq::<TestSuite>::empty());
                                let sel2 = package_suites(next, ele.package_name@);
                                assert(sel2 =~= seq![*ele]);
                                assert(sel2.drop_last() =~= Seq::<TestSuite>::empty());
                                assert(suite_cases(Seq::<TestSuite>::empty()) == 0);
                                assert(sel2.last() == *ele);
                                assert(suite_cases(sel2) == n_cases);
                                assert(binaries_failed(Seq::<TestBinary>::empty()) == 0);
                                assert(binaries_duration(Seq::<TestBinary>::empty()) == 0);
                                assert(tc.tests@.last() == b);
                                assert(tc.tests@[0] == b);
                                assert(binaries_failed(tc.tests@) == f);
                                assert(binaries_duration(tc.tests@) == d);
                                assert(is_binary_of(tc.tests@[0], sel2[0], outcomes));
                            }
                        }
                        assert forall|j: int|
                            0 <= j < next.len() && (#[trigger] next[j]).test_cases@.len()
                                > 0 implies exists|x: int|
                            0 <= x < after.len() && after[x].0 == next[j].package_name@ by {
                            if j < i {
                                assert(next[j] == prefix[j]);
                                let x = choose|x: int|
                                    0 <= x < before.len() && before[x].0
                                        == prefix[j].package_name@;
                                assert(after[x].0 == before[x].0);
                            } else {
                                assert(after[before.len() as int].0 == next[j].package_name@);
                            }
                        }
                        assert(distinct_keys(after));
                    }
                },
            }
        } else {
            proof {
                let after = entries_view(groups@);
                assert forall|j: int|
                    0 <= j < after.len() implies is_package_of(
                    #[trigger] after[j].1,
                    after[j].0,
                    next,
                    ws,
                    outcomes,
                ) by {
                    assert(is_package_of(before[j].1, before[j].0, prefix, ws, outcomes));
                    assert(package_suites(next, after[j].0) == package_suites(prefix, after[j].0));
                }
                assert forall|j: int|
                    0 <= j < next.len() && (#[trigger] next[j]).test_cases@.len() > 0 implies exists|x: int|
                    0 <= x < after.len() && after[x].0 == next[j].package_name@ by {
                    assert(next[j] == prefix[j]);
                }
            }
        }
        i = i + 1;
    }
    proof {
        assert(suites.subrange(0, n as int) =~= suites);
    }
    Ok(pkg_table_from(groups))
}

} // verus!
