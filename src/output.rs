//! The record of one package: its metadata, target counts and tests.
use crate::database::{diag_table, diag_total_count, DiagnosticsCount};
use crate::testcases::{pkg_table, pkg_table_entries, PkgTests, TestCases};
use vstd::pervasive::VecAdditionalExecFns;
use vstd::prelude::*;

verus! {

/// The kinds a build target has.
#[derive(Debug, Clone, Copy, PartialEq, Eq, Structural)]
pub struct TargetKind {
    pub lib: bool,
    pub bin: bool,
    pub test: bool,
    pub example: bool,
    pub bench: bool,
}

/// What the record of a package takes from the package's manifest.
#[derive(Debug)]
pub struct PackageInfo {
    pub version: String,
    pub dependencies: usize,
    pub targets: Vec<TargetKind>,
    pub authors: Vec<String>,
    pub description: Option<String>,
    pub documentation: Option<String>,
    pub readme: Option<String>,
    pub homepage: Option<String>,
    pub keywords: Vec<String>,
    pub categories: Vec<String>,
    pub rust_version: Option<String>,
}

/// The record of a package; the registry and diagnostics fields stay empty
/// until they are looked up.
#[derive(Debug)]
pub struct Output {
    pub version: String,
    pub dependencies: usize,
    pub lib: bool,
    pub bin: bool,
    pub testcases: Option<TestCases>,
    pub tests: usize,
    pub examples: usize,
    pub benches: usize,
    pub authors: Vec<String>,
    pub description: String,
    pub documentation: Option<String>,
    pub readme: Option<String>,
    pub homepage: Option<String>,
    pub keywords: Vec<String>,
    pub categories: Vec<String>,
    pub rust_version: Option<String>,
    pub diag_total_count: Option<usize>,
    pub last_commit_time: String,
    /// How many releases the registry lists.
    pub release_count: Option<usize>,
    pub last_release_size: Option<u64>,
    pub last_release_time: Option<String>,
}

/// The kinds that are counted or looked for.
pub enum Kind {
    Lib,
    Bin,
    Test,
    Example,
    Bench,
}

pub open spec fn has_kind(t: TargetKind, k: Kind) -> bool {
    match k {
        Kind::Lib => t.lib,
        Kind::Bin => t.bin,
        Kind::Test => t.test,
        Kind::Example => t.example,
        Kind::Bench => t.bench,
    }
}

/// How many of the targets have kind `k`.
pub open spec fn count_kind(ts: Seq<TargetKind>, k: Kind) -> int
    decreases ts.len(),
{
    if ts.len() == 0 {
        0
    } else {
        count_kind(ts.drop_last(), k) + if has_kind(ts.last(), k) {
            1int
        } else {
            0int
        }
    }
}

proof fn lemma_count_kind_bound(ts: Seq<TargetKind>, k: Kind)
    ensures
        0 <= count_kind(ts, k) <= ts.len(),
        count_kind(ts, k) > 0 <==> exists|i: int| 0 <= i < ts.len() && has_kind(ts[i], k),
    decreases ts.len(),
{
    if ts.len() > 0 {
        let init = ts.drop_last();
        lemma_count_kind_bound(init, k);
        if count_kind(ts, k) > 0 {
            if !has_kind(ts.last(), k) {
                let i = choose|i: int| 0 <= i < init.len() && has_kind(init[i], k);
                assert(ts[i] == init[i]);
            }
        }
        if exists|i: int| 0 <= i < ts.len() && has_kind(ts[i], k) {
            let i = choose|i: int| 0 <= i < ts.len() && has_kind(ts[i], k);
            if i < ts.len() - 1 {
                assert(init[i] == ts[i]);
            }
        }
    }
}

/// `o` is the record of `pkg` with tests `testcases`, leaving aside the fields
/// that registry and diagnostics lookups fill.
pub open spec fn is_record_of(
    o: Output,
    pkg: PackageInfo,
    testcases: Option<TestCases>,
    last_commit_time: Seq<char>,
) -> bool {
    &&& o.version == pkg.version
    &&& o.dependencies == pkg.dependencies
    &&& o.lib <==> count_kind(pkg.targets@, Kind::Lib) > 0
    &&& o.bin <==> count_kind(pkg.targets@, Kind::Bin) > 0
    &&& o.tests == count_kind(pkg.targets@, Kind::Test)
    &&& o.examples == count_kind(pkg.targets@, Kind::Example)
    &&& o.benches == count_kind(pkg.targets@, Kind::Bench)
    &&& o.testcases == testcases
    &&& o.authors == pkg.authors
    &&& o.description@ == match pkg.description {
        Some(d) => d@,
        None => Seq::<char>::empty(),
    }
    &&& o.documentation == pkg.documentation
    &&& o.readme == pkg.readme
    &&& o.homepage == pkg.homepage
    &&& o.keywords == pkg.keywords
    &&& o.categories == pkg.categories
    &&& o.rust_version == pkg.rust_version
    &&& o.last_commit_time@ == last_commit_time
}

fn add_if(n: usize, b: bool, Ghost(bound): Ghost<int>) -> (r: usize)
    requires
        n < bound <= usize::MAX,
    ensures
        r == n + if b {
            1int
        } else {
            0int
        },
{
    if b {
        n + 1
    } else {
        n
    }
}

impl Output {
    /// The record of `pkg`, with its tests and the time of the repository's
    /// last commit.
    pub fn new(pkg: PackageInfo, testcases: Option<TestCases>, last_commit_time: &str) -> (r:
        Output)
        ensures
            is_record_of(r, pkg, testcases, last_commit_time@),
            r.diag_total_count is None,
            r.release_count is None,
            r.last_release_size is None,
            r.last_release_time is None,
    {
        let ghost ts = pkg.targets@;
        let mut libs: usize = 0;
        let mut bins: usize = 0;
        let mut tests: usize = 0;
        let mut examples: usize = 0;
        let mut benches: usize = 0;
        let mut i: usize = 0;
        while i < pkg.targets.len()
            invariant
                ts == pkg.targets@,
                i <= ts.len(),
                libs == count_kind(ts.subrange(0, i as int), Kind::Lib),
                bins == count_kind(ts.subrange(0, i as int), Kind::Bin),
                tests == count_kind(ts.subrange(0, i as int), Kind::Test),
                examples == count_kind(ts.subrange(0, i as int), Kind::Example),
                benches == count_kind(ts.subrange(0, i as int), Kind::Bench),
            decreases ts.len() - i,
        {
            let t = pkg.targets[i];
            proof {
                let pre = ts.subrange(0, i as int);
                assert(ts.subrange(0, i + 1).drop_last() =~= pre);
                assert(ts.subrange(0, i + 1).last() == t);
                lemma_count_kind_bound(pre, Kind::Lib);
                lemma_count_kind_bound(pre, Kind::Bin);
                lemma_count_kind_bound(pre, Kind::Test);
                lemma_count_kind_bound(pre, Kind::Example);
                lemma_count_kind_bound(pre, Kind::Bench);
            }
            libs = add_if(libs, t.lib, Ghost(ts.len() as int));
            bins = add_if(bins, t.bin, Ghost(ts.len() as int));
            tests = add_if(tests, t.test, Ghost(ts.len() as int));
            examples = add_if(examples, t.example, Ghost(ts.len() as int));
            benches = add_if(benches, t.bench, Ghost(ts.len() as int));
            i = i + 1;
        }
        proof {
            assert(ts.subrange(0, i as int) =~= ts);
            lemma_count_kind_bound(ts, Kind::Lib);
            lemma_count_kind_bound(ts, Kind::Bin);
        }
        let description = match pkg.description {
            Some(d) => d,
            None => String::new(),
        };
        Output {
            version: pkg.version,
            dependencies: pkg.dependencies,
            lib: libs > 0,
            bin: bins > 0,
            testcases,
            tests,
            examples,
            benches,
            authors: pkg.authors,
            description,
            documentation: pkg.documentation,
            readme: pkg.readme,
            homepage: pkg.homepage,
            keywords: pkg.keywords,
            categories: pkg.categories,
            rust_version: pkg.rust_version,
            diag_total_count: None,
            last_commit_time: last_commit_time.to_owned(),
            release_count: None,
            last_release_size: None,
            last_release_time: None,
        }
    }
}

/// The target triple whose tests are run.
pub const X64_LINUX: &'static str = "x86_64-unknown-linux-gnu";

/// Whether `targets` holds the triple whose tests are run.
pub fn contains_x64(targets: &Vec<String>) -> (r: bool)
    ensures
        r <==> exists|i: int| 0 <= i < targets@.len() && targets@[i]@ == X64_LINUX@,
{
    let x64 = String::from_str(X64_LINUX);
    let mut i: usize = 0;
    while i < targets.len()
        invariant
            i <= targets@.len(),
            x64@ == X64_LINUX@,
            forall|j: int| 0 <= j < i ==> targets@[j]@ != X64_LINUX@,
        decreases targets@.len() - i,
    {
        if targets[i] == x64 {
            return true;
        }
        i = i + 1;
    }
    false
}

/// What the registry gave for a package; empty where its lookup failed.
#[derive(Debug)]
pub struct Registry {
    pub release_count: Option<usize>,
    pub last_release_size: Option<u64>,
    pub last_release_time: Option<String>,
}

/// A package of the repository, with what its registry lookup gave.
#[derive(Debug)]
pub struct Package {
    pub name: String,
    pub info: PackageInfo,
    pub registry: Registry,
}

/// Two packages of a repository share this name.
#[derive(Debug)]
pub struct DuplicatePackage {
    pub name: String,
}

/// `tc` is what `entries` holds for `name`, or nothing.
pub open spec fn tests_for(
    tc: Option<TestCases>,
    entries: Seq<(Seq<char>, TestCases)>,
    name: Seq<char>,
) -> bool {
    &&& forall|i: int| 0 <= i < entries.len() && entries[i].0 == name ==> tc == Some(entries[i].1)
    &&& (forall|i: int| 0 <= i < entries.len() ==> entries[i].0 != name) ==> tc is None
}

pub open spec fn has_duplicate(pkgs: Seq<Package>) -> bool {
    exists|i: int, j: int| 0 <= i < j < pkgs.len() && pkgs[i].name@ == pkgs[j].name@
}

/// `o` is the full record of package `p` of `user/repo`.
pub open spec fn is_output_of(
    o: Output,
    p: Package,
    tests: Seq<(Seq<char>, TestCases)>,
    user: Seq<char>,
    repo: Seq<char>,
    last_commit_time: Seq<char>,
    diag: Map<(Seq<char>, Seq<char>, Seq<char>), usize>,
) -> bool {
    let k = (user, repo, p.name@);
    &&& exists|tc: Option<TestCases>| tests_for(tc, tests, p.name@) && is_record_of(
        o,
        p.info,
        tc,
        last_commit_time,
    )
    &&& o.diag_total_count == if diag.contains_key(k) {
        Some(diag[k])
    } else {
        None
    }
    &&& o.release_count == p.registry.release_count
    &&& o.last_release_size == p.registry.last_release_size
    &&& o.last_release_time == p.registry.last_release_time
}

/// `a` comes before `b` in the order of their characters' code points, a
/// prefix first.
pub open spec fn name_less(a: Seq<char>, b: Seq<char>) -> bool
    decreases a.len(),
{
    if b.len() == 0 {
        false
    } else if a.len() == 0 {
        true
    } else if a[0] != b[0] {
        a[0] < b[0]
    } else {
        name_less(a.drop_first(), b.drop_first())
    }
}

/// The names of the records strictly ascend.
pub open spec fn names_ascending(v: Seq<(String, Output)>) -> bool {
    forall|i: int, j: int|
        0 <= i < j < v.len() ==> name_less(#[trigger] v[i].0@, #[trigger] v[j].0@)
}

proof fn lemma_name_less_total(a: Seq<char>, b: Seq<char>)
    requires
        a != b,
    ensures
        name_less(a, b) || name_less(b, a),
    decreases a.len(),
{
    if a.len() == 0 && b.len() == 0 {
        assert(a =~= b);
    }
    if a.len() > 0 && b.len() > 0 && a[0] == b[0] {
        if a.drop_first() == b.drop_first() {
            assert(a =~= seq![a[0]] + a.drop_first());
            assert(b =~= seq![b[0]] + b.drop_first());
        }
        lemma_name_less_total(a.drop_first(), b.drop_first());
    }
}

proof fn lemma_name_less_trans(a: Seq<char>, b: Seq<char>, c: Seq<char>)
    requires
        name_less(a, b),
        name_less(b, c),
    ensures
        name_less(a, c),
    decreases a.len(),
{
    if a.len() > 0 && a[0] == b[0] && b[0] == c[0] {
        lemma_name_less_trans(a.drop_first(), b.drop_first(), c.drop_first());
    }
}

/// Whether `a` comes before `b` in the order of their characters' code points.
fn less_than(a: &str, b: &str) -> (r: bool)
    ensures
        r == name_less(a@, b@),
{
    let na = a.unicode_len();
    let nb = b.unicode_len();
    let mut i: usize = 0;
    proof {
        assert(a@.skip(0) =~= a@);
        assert(b@.skip(0) =~= b@);
    }
    while i < na && i < nb
        invariant
            na == a@.len(),
            nb == b@.len(),
            i <= na,
            i <= nb,
            name_less(a@, b@) == name_less(a@.skip(i as int), b@.skip(i as int)),
        decreases na - i,
    {
        let ca = a.get_char(i);
        let cb = b.get_char(i);
        proof {
            assert(a@.skip(i as int)[0] == ca);
            assert(b@.skip(i as int)[0] == cb);
            assert(a@.skip(i as int).drop_first() =~= a@.skip(i + 1));
            assert(b@.skip(i as int).drop_first() =~= b@.skip(i + 1));
        }
        if ca != cb {
            return ca < cb;
        }
        i = i + 1;
    }
    proof {
        assert(a@.skip(i as int).len() == na - i);
        assert(b@.skip(i as int).len() == nb - i);
    }
    i < nb
}

pub open spec fn distinct_names(v: Seq<(String, Output)>) -> bool {
    forall|x: int, y: int|
        0 <= x < v.len() && 0 <= y < v.len() && x != y ==> (#[trigger] v[x]).0@ != (#[trigger] v[y]).0@
}

proof fn lemma_insert_ascending(before: Seq<(String, Output)>, x: (String, Output), p: int)
    requires
        names_ascending(before),
        0 <= p <= before.len(),
        forall|q: int| 0 <= q < p ==> name_less(#[trigger] before[q].0@, x.0@),
        p < before.len() ==> name_less(x.0@, before[p].0@),
    ensures
        names_ascending(before.insert(p, x)),
{
    let r = before.insert(p, x);
    assert forall|i: int, j: int| 0 <= i < j < r.len() implies name_less(
        #[trigger] r[i].0@,
        #[trigger] r[j].0@,
    ) by {
        if i < p && j < p {
            assert(name_less(before[i].0@, before[j].0@));
        } else if i < p && j == p {
            assert(name_less(before[i].0@, x.0@));
        } else if i < p {
            assert(name_less(before[i].0@, before[j - 1].0@));
        } else if i == p {
            if j - 1 > p {
                assert(name_less(before[p].0@, before[j - 1].0@));
                lemma_name_less_trans(x.0@, before[p].0@, before[j - 1].0@);
            }
        } else {
            assert(name_less(before[i - 1].0@, before[j - 1].0@));
        }
    }
}

/// The records ordered by name; names must be distinct. Besides the records,
/// it gives for each of them where it stood, and for each input where it went.
fn sort_by_name(v: Vec<(String, Output)>) -> (res: (
    Vec<(String, Output)>,
    Ghost<Seq<int>>,
    Ghost<Seq<int>>,
))
    requires
        distinct_names(v@),
    ensures
        res.0@.len() == v@.len(),
        names_ascending(res.0@),
        res.1@.len() == v@.len(),
        forall|i: int|
            0 <= i < v@.len() ==> 0 <= #[trigger] res.1@[i] < v@.len() && res.0@[i]
                == v@[res.1@[i]],
        res.2@.len() == v@.len(),
        forall|j: int|
            0 <= j < v@.len() ==> 0 <= #[trigger] res.2@[j] < v@.len() && res.0@[res.2@[j]]
                == v@[j],
{
    let ghost all = v@;
    let n = v.len();
    let mut rest = v;
    let mut r: Vec<(String, Output)> = Vec::new();
    let ghost mut src: Seq<int> = Seq::empty();
    let ghost mut dst: Seq<int> = Seq::empty();
    while rest.len() > 0
        invariant
            n == all.len(),
            distinct_names(all),
            r@.len() + rest@.len() == n,
            rest@ =~= all.subrange(r@.len() as int, n as int),
            names_ascending(r@),
            src.len() == r@.len(),
            dst.len() == r@.len(),
            forall|i: int|
                0 <= i < r@.len() ==> 0 <= #[trigger] src[i] < r@.len() && r@[i] == all[src[i]],
            forall|j: int|
                0 <= j < r@.len() ==> 0 <= #[trigger] dst[j] < r@.len() && r@[dst[j]] == all[j],
        decreases rest@.len(),
    {
        let k = r.len();
        let x = rest.remove(0);
        proof {
            assert(x == all[k as int]);
        }
        let mut p: usize = 0;
        while p < r.len() && !less_than(x.0.as_str(), r[p].0.as_str())
            invariant
                p <= r@.len(),
                forall|q: int| 0 <= q < p ==> !name_less(x.0@, #[trigger] r@[q].0@),
            decreases r@.len() - p,
        {
            p = p + 1;
        }
        let ghost before = r@;
        proof {
            assert forall|q: int| 0 <= q < p implies name_less(#[trigger] before[q].0@, x.0@) by {
                assert(before[q] == all[src[q]]);
                assert(all[src[q]].0@ != all[k as int].0@);
                lemma_name_less_total(before[q].0@, x.0@);
            }
            lemma_insert_ascending(before, x, p as int);
        }
        r.insert(p, x);
        proof {
            assert(r@ =~= before.insert(p as int, x));
            let old_src = src;
            let old_dst = dst;
            src = old_src.insert(p as int, k as int);
            dst = old_dst.map_values(|q: int| if q >= p { q + 1 } else { q }).push(p as int);
            assert forall|i: int| 0 <= i < r@.len() implies 0 <= #[trigger] src[i] < r@.len()
                && r@[i] == all[src[i]] by {
                if i < p {
                    assert(src[i] == old_src[i]);
                } else if i > p {
                    assert(src[i] == old_src[i - 1]);
                }
            }
            assert forall|j: int| 0 <= j < r@.len() implies 0 <= #[trigger] dst[j] < r@.len()
                && r@[dst[j]] == all[j] by {
                if j < k {
                    let q = old_dst[j];
                    assert(before[q] == all[j]);
                    if q >= p {
                        assert(r@[q + 1] == before[q]);
                    } else {
                        assert(r@[q] == before[q]);
                    }
                }
            }
        }
    }
    (r, Ghost(src), Ghost(dst))
}

fn position_of(out: &Vec<(String, Output)>, name: &String) -> (r: Option<usize>)
    ensures
        r matches Some(g) ==> g < out@.len() && out@[g as int].0@ == name@,
        r is None ==> forall|j: int| 0 <= j < out@.len() ==> out@[j].0@ != name@,
{
    let mut j: usize = 0;
    while j < out.len()
        invariant
            j <= out@.len(),
            forall|k: int| 0 <= k < j ==> out@[k].0@ != name@,
        decreases out@.len() - j,
    {
        if out[j].0 == *name {
            return Some(j);
        }
        j = j + 1;
    }
    None
}

fn find_name(names: &Vec<String>, name: &String) -> (r: Option<usize>)
    ensures
        r matches Some(g) ==> g < names@.len() && names@[g as int]@ == name@,
        r is None ==> forall|j: int| 0 <= j < names@.len() ==> names@[j]@ != name@,
{
    let mut j: usize = 0;
    while j < names.len()
        invariant
            j <= names@.len(),
            forall|k: int| 0 <= k < j ==> names@[k]@ != name@,
        decreases names@.len() - j,
    {
        if names[j] == *name {
            return Some(j);
        }
        j = j + 1;
    }
    None
}

/// The records of a repository's packages, in the given order.
fn records_in_order(
    user: &str,
    repo: &str,
    pkgs: Vec<Package>,
    tests: PkgTests,
    last_commit_time: &str,
    diag: &DiagnosticsCount,
) -> (r: Result<Vec<(String, Output)>, DuplicatePackage>)
    ensures
        r is Err <==> has_duplicate(pkgs@),
        r matches Err(e) ==> exists|i: int, j: int|
            0 <= i < j < pkgs@.len() && pkgs@[i].name@ == e.name@ && pkgs@[j].name@ == e.name@,
        r matches Ok(v) ==> v@.len() == pkgs@.len() && forall|i: int|
            0 <= i < v@.len() ==> (#[trigger] v@[i]).0@ == pkgs@[i].name@ && is_output_of(
                v@[i].1,
                pkgs@[i],
                pkg_table(tests),
                user@,
                repo@,
                last_commit_time@,
                diag_table(diag.map),
            ),
        r matches Ok(v) ==> distinct_names(v@),
{
    let ghost all = pkgs@;
    let ghost table = pkg_table(tests);
    let ghost dt = diag_table(diag.map);
    let entries = pkg_table_entries(tests);
    let n_entries = entries.len();
    let mut names: Vec<String> = Vec::new();
    let mut slots: Vec<Option<TestCases>> = Vec::new();
    let mut rest = entries;
    let ghost ev = rest@;
    while rest.len() > 0
        invariant
            crate::testcases::entries_view(ev) == table,
            names@.len() + rest@.len() == ev.len(),
            slots@.len() == names@.len(),
            rest@ =~= ev.subrange(names@.len() as int, ev.len() as int),
            forall|g: int|
                0 <= g < names@.len() ==> (#[trigger] names@[g])@ == table[g].0 && slots@[g]
                    == Some(table[g].1),
        decreases rest@.len(),
    {
        let (k, v) = rest.remove(0);
        proof {
            let g = names@.len() as int;
            assert(ev[g] == (k, v));
            assert(crate::testcases::entries_view(ev)[g] == (k@, v));
        }
        names.push(k);
        slots.push(Some(v));
    }
    let mut out: Vec<(String, Output)> = Vec::new();
    let mut todo = pkgs;
    while todo.len() > 0
        invariant
            dt == diag_table(diag.map),
            all == pkgs@,
            crate::testcases::distinct_keys(table),
            names@.len() == table.len(),
            slots@.len() == names@.len(),
            out@.len() + todo@.len() == all.len(),
            todo@ =~= all.subrange(out@.len() as int, all.len() as int),
            !has_duplicate(all.subrange(0, out@.len() as int)),
            forall|g: int|
                0 <= g < names@.len() ==> (#[trigger] names@[g])@ == table[g].0 && slots@[g] == if exists|j: int|
                    0 <= j < out@.len() && all[j].name@ == table[g].0 {
                    None
                } else {
                    Some(table[g].1)
                },
            forall|i: int|
                0 <= i < out@.len() ==> (#[trigger] out@[i]).0@ == all[i].name@ && is_output_of(
                    out@[i].1,
                    all[i],
                    table,
                    user@,
                    repo@,
                    last_commit_time@,
                    dt,
                ),
        decreases todo@.len(),
    {
        let i = out.len();
        proof {
            assert forall|g: int| 0 <= g < names@.len() implies slots@[g] == if exists|j: int|
                0 <= j < i && all[j].name@ == table[g].0 {
                None
            } else {
                Some(table[g].1)
            } by {
                assert(names@[g]@ == table[g].0);
            }
        }
        let p = todo.remove(0);
        proof {
            assert(p == all[i as int]);
        }
        if let Some(j) = position_of(&out, &p.name) {
            proof {
                assert(out@[j as int].0@ == all[j as int].name@);
                assert(0 <= j < i < all.len() && all[j as int].name@ == all[i as int].name@);
                assert(has_duplicate(all));
                assert(0 <= j < i < pkgs@.len() && pkgs@[j as int].name@ == p.name@
                    && pkgs@[i as int].name@ == p.name@);
            }
            return Err(DuplicatePackage { name: p.name });
        }
        proof {
            assert forall|k: int| 0 <= k < i implies all[k].name@ != p.name@ by {
                assert(out@[k].0@ == all[k].name@);
            }
        }
        let found = find_name(&names, &p.name);
        let ghost slots_pre = slots@;
        let tc = match found {
            Some(g) => {
                let mut slot: Option<TestCases> = None;
                slots.set_and_swap(g, &mut slot);
                proof {
                    assert forall|j: int| 0 <= j < i implies all[j].name@ != table[g as int].0 by {}
                }
                slot
            },
            None => None,
        };
        proof {
            assert(tests_for(tc, table, p.name@)) by {
                assert forall|x: int|
                    0 <= x < table.len() && table[x].0 == p.name@ implies tc == Some(table[x].1) by {
                    assert(names@[x]@ == table[x].0);
                }
            }
        }
        let Package { name, info, registry } = p;
        let ghost info0 = info;
        let mut o = Output::new(info, tc, last_commit_time);
        o.diag_total_count = diag_total_count(diag, [user, repo, name.as_str()]);
        o.release_count = registry.release_count;
        o.last_release_size = registry.last_release_size;
        o.last_release_time = registry.last_release_time;
        let ghost out0 = out@;
        let ghost slots_before = slots@;
        out.push((name, o));
        proof {
            assert forall|g: int| 0 <= g < names@.len() implies (#[trigger] names@[g])@ == table[g].0
                && slots@[g] == if exists|j: int|
                0 <= j < out@.len() && all[j].name@ == table[g].0 {
                None
            } else {
                Some(table[g].1)
            } by {
                let old_exists = exists|j: int| 0 <= j < i && all[j].name@ == table[g].0;
                assert(slots_pre[g] == if old_exists {
                    None
                } else {
                    Some(table[g].1)
                });
                if table[g].0 == all[i as int].name@ {
                    assert(0 <= i < out@.len() && all[i as int].name@ == table[g].0);
                    match found {
                        Some(g0) => {
                            if g != g0 {
                                assert(table[g].0 != table[g0 as int].0);
                            }
                            assert(slots@[g] == None::<TestCases>);
                        },
                        None => {
                            assert(names@[g]@ != p.name@);
                        },
                    }
                } else {
                    match found {
                        Some(g0) => {
                            assert(g != g0);
                            assert(slots@[g] == slots_pre[g]);
                        },
                        None => {
                            assert(slots@[g] == slots_pre[g]);
                        },
                    }
                    if exists|j: int| 0 <= j < out@.len() && all[j].name@ == table[g].0 {
                        let j = choose|j: int| 0 <= j < out@.len() && all[j].name@ == table[g].0;
                        assert(j < i);
                        assert(old_exists);
                    }
                    if old_exists {
                        let j = choose|j: int| 0 <= j < i && all[j].name@ == table[g].0;
                        assert(0 <= j < out@.len() && all[j].name@ == table[g].0);
                    }
                }
            }
            assert(is_record_of(o, info0, tc, last_commit_time@));
            assert(is_output_of(o, all[i as int], table, user@, repo@, last_commit_time@, dt));
            assert(all.subrange(0, i + 1).drop_last() =~= all.subrange(0, i as int));
            assert(!has_duplicate(all.subrange(0, i + 1))) by {
                let pre = all.subrange(0, i + 1);
                if has_duplicate(pre) {
                    let (x, y) = choose|x: int, y: int|
                        0 <= x < y < pre.len() && pre[x].name@ == pre[y].name@;
                    if y < i {
                        assert(has_duplicate(all.subrange(0, i as int)));
                    }
                }
            }
            assert forall|x: int| 0 <= x < out@.len() implies (#[trigger] out@[x]).0@ == all[x].name@
                && is_output_of(out@[x].1, all[x], table, user@, repo@, last_commit_time@, dt) by {
                if x < i {
                    assert(out@[x] == out0[x]);
                }
            }
        }
    }
    proof {
        assert(all.subrange(0, all.len() as int) =~= all);
        assert forall|x: int, y: int|
            0 <= x < out@.len() && 0 <= y < out@.len() && x != y implies (#[trigger] out@[x]).0@
            != (#[trigger] out@[y]).0@ by {
            assert(out@[x].0@ == all[x].name@);
            assert(out@[y].0@ == all[y].name@);
            if out@[x].0@ == out@[y].0@ {
                if x < y {
                    assert(has_duplicate(all));
                } else {
                    assert(all[y].name@ == all[x].name@);
                    assert(has_duplicate(all));
                }
            }
        }
    }
    Ok(out)
}

/// `rec` is the record of one of `pkgs`, under its name.
pub open spec fn is_record_of_some(
    rec: (String, Output),
    pkgs: Seq<Package>,
    tests: Seq<(Seq<char>, TestCases)>,
    user: Seq<char>,
    repo: Seq<char>,
    last_commit_time: Seq<char>,
    diag: Map<(Seq<char>, Seq<char>, Seq<char>), usize>,
) -> bool {
    exists|j: int|
        0 <= j < pkgs.len() && rec.0@ == pkgs[j].name@ && #[trigger] is_output_of(
            rec.1,
            pkgs[j],
            tests,
            user,
            repo,
            last_commit_time,
            diag,
        )
}

/// Some record of `v` is named `name`.
pub open spec fn has_record_named(v: Seq<(String, Output)>, name: Seq<char>) -> bool {
    exists|i: int| 0 <= i < v.len() && (#[trigger] v[i]).0@ == name
}

/// The records of a repository's packages, ordered by name: each with its
/// tests from `tests`, its diagnostics total and its registry statistics.
/// Package names must be unique.
pub fn package_outputs(
    user: &str,
    repo: &str,
    pkgs: Vec<Package>,
    tests: PkgTests,
    last_commit_time: &str,
    diag: &DiagnosticsCount,
) -> (r: Result<Vec<(String, Output)>, DuplicatePackage>)
    ensures
        r is Err <==> has_duplicate(pkgs@),
        r matches Err(e) ==> exists|i: int, j: int|
            0 <= i < j < pkgs@.len() && pkgs@[i].name@ == e.name@ && pkgs@[j].name@ == e.name@,
        r matches Ok(v) ==> v@.len() == pkgs@.len(),
        r matches Ok(v) ==> names_ascending(v@),
        r matches Ok(v) ==> forall|i: int|
            0 <= i < v@.len() ==> is_record_of_some(
                #[trigger] v@[i],
                pkgs@,
                pkg_table(tests),
                user@,
                repo@,
                last_commit_time@,
                diag_table(diag.map),
            ),
        r matches Ok(v) ==> forall|j: int|
            0 <= j < pkgs@.len() ==> has_record_named(v@, (#[trigger] pkgs@[j]).name@),
{
    let ghost table = pkg_table(tests);
    let ghost dt = diag_table(diag.map);
    let records = records_in_order(user, repo, pkgs, tests, last_commit_time, diag)?;
    let ghost unsorted = records@;
    let (sorted, Ghost(src), Ghost(dst)) = sort_by_name(records);
    proof {
        assert forall|i: int| 0 <= i < sorted@.len() implies is_record_of_some(
            #[trigger] sorted@[i],
            pkgs@,
            table,
            user@,
            repo@,
            last_commit_time@,
            dt,
        ) by {
            let j = src[i];
            assert(sorted@[i] == unsorted[j]);
            assert(unsorted[j].0@ == pkgs@[j].name@);
            assert(is_output_of(unsorted[j].1, pkgs@[j], table, user@, repo@, last_commit_time@, dt));
        }
        assert forall|j: int| 0 <= j < pkgs@.len() implies has_record_named(
            sorted@,
            (#[trigger] pkgs@[j]).name@,
        ) by {
            assert(unsorted[j].0@ == pkgs@[j].name@);
            assert(sorted@[dst[j]] == unsorted[j]);
            assert(0 <= dst[j] < sorted@.len() && sorted@[dst[j]].0@ == pkgs@[j].name@);
        }
    }
    Ok(sorted)
}

} // verus!
