//! The precomputed diagnostics count of each package.
use crate::report::CaseKeyView;
use indexmap::IndexMap;
use vstd::prelude::*;

verus! {

/// A diagnostics total of one package.
pub struct Data {
    pub user: String,
    pub repo: String,
    pub pkg: String,
    pub total_count: usize,
}

pub struct Child {
    pub data: Data,
}

pub struct Item {
    pub children: Vec<Child>,
}

/// User, repository and package.
pub type DiagKey = (String, String, String);

pub open spec fn data_key(d: Data) -> CaseKeyView {
    (d.user@, d.repo@, d.pkg@)
}

/// What a diagnostics table holds, by package.
pub uninterp spec fn diag_table(m: IndexMap<DiagKey, usize>) -> Map<CaseKeyView, usize>;

pub open spec fn no_counts() -> Map<CaseKeyView, usize> {
    Map::empty()
}

/// Relies on `IndexMap::new`: an empty map.
#[verifier::external_body]
fn diag_table_new() -> (r: IndexMap<DiagKey, usize>)
    ensures
        diag_table(r) == no_counts(),
{
    IndexMap::new()
}

/// Relies on `IndexMap::insert`: the value of an equal key is replaced, any
/// other key is added.
#[verifier::external_body]
fn diag_table_insert(m: &mut IndexMap<DiagKey, usize>, k: DiagKey, v: usize)
    ensures
        diag_table(*final(m)) == diag_table(*old(m)).insert((k.0@, k.1@, k.2@), v),
{
    m.insert(k, v);
}

/// Relies on `IndexMap::get`: the value stored for an equal key, if any.
#[verifier::external_body]
fn diag_table_get<'a>(m: &'a IndexMap<DiagKey, usize>, k: &DiagKey) -> (r: Option<&'a usize>)
    ensures
        r is Some <==> diag_table(*m).contains_key((k.0@, k.1@, k.2@)),
        r matches Some(v) ==> *v == diag_table(*m)[(k.0@, k.1@, k.2@)],
{
    m.get(k)
}

/// The totals of all items, item by item and child by child.
pub open spec fn all_data(items: Seq<Item>) -> Seq<Data>
    decreases items.len(),
{
    if items.len() == 0 {
        Seq::empty()
    } else {
        all_data(items.drop_last()) + items.last().children@.map_values(|c: Child| c.data)
    }
}

/// The total of each package; a later total for a package replaces an
/// earlier one.
pub open spec fn last_counts(ds: Seq<Data>) -> Map<CaseKeyView, usize>
    decreases ds.len(),
{
    if ds.len() == 0 {
        Map::empty()
    } else {
        last_counts(ds.drop_last()).insert(data_key(ds.last()), ds.last().total_count)
    }
}

/// The diagnostics total of each package.
pub struct DiagnosticsCount {
    pub map: IndexMap<DiagKey, usize>,
}

impl DiagnosticsCount {
    /// Collects the totals of all items' children.
    pub fn from_items(items: &Vec<Item>) -> (r: DiagnosticsCount)
        ensures
            diag_table(r.map) == last_counts(all_data(items@)),
    {
        let mut map = diag_table_new();
        let mut i: usize = 0;
        while i < items.len()
            invariant
                i <= items@.len(),
                diag_table(map) == last_counts(all_data(items@.subrange(0, i as int))),
            decreases items@.len() - i,
        {
            let children = &items[i].children;
            let ghost done = all_data(items@.subrange(0, i as int));
            let ghost kids = children@.map_values(|c: Child| c.data);
            let mut j: usize = 0;
            while j < children.len()
                invariant
                    i < items@.len(),
                    children == items@[i as int].children,
                    kids == children@.map_values(|c: Child| c.data),
                    j <= children@.len(),
                    diag_table(map) == last_counts(done + kids.subrange(0, j as int)),
                decreases children@.len() - j,
            {
                let d = &children[j].data;
                proof {
                    assert((done + kids.subrange(0, j + 1)).drop_last() =~= done + kids.subrange(
                        0,
                        j as int,
                    ));
                    assert(kids[j as int] == *d);
                }
                diag_table_insert(
                    &mut map,
                    (d.user.clone(), d.repo.clone(), d.pkg.clone()),
                    d.total_count,
                );
                j = j + 1;
            }
            proof {
                assert(items@.subrange(0, i + 1).drop_last() =~= items@.subrange(0, i as int));
                assert(kids.subrange(0, j as int) =~= kids);
            }
            i = i + 1;
        }
        proof {
            assert(items@.subrange(0, i as int) =~= items@);
        }
        DiagnosticsCount { map }
    }
}

/// The diagnostics total of package `[user, repo, pkg]`, if one was listed.
pub fn diag_total_count(counts: &DiagnosticsCount, key: [&str; 3]) -> (r: Option<usize>)
    ensures
        ({
            let k = (key@[0]@, key@[1]@, key@[2]@);
            r == if diag_table(counts.map).contains_key(k) {
                Some(diag_table(counts.map)[k])
            } else {
                None
            }
        }),
{
    let k = (key[0].to_owned(), key[1].to_owned(), key[2].to_owned());
    match diag_table_get(&counts.map, &k) {
        Some(v) => Some(*v),
        None => None,
    }
}

} // verus!
