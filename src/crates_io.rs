//! Registry index lookups: where a package's index file lives and how many
//! releases it lists.
use vstd::prelude::*;

verus! {

/// The first part of every index file address.
pub const PREFIX: &'static str = "https://index.crates.io";

/// The directories of a package's index file, before its name: `1` or `2`
/// for names of that length, `3` and the first character and the rest for
/// names of three, else the first two characters and the next two.
pub open spec fn index_dirs(pkg: Seq<char>) -> Seq<Seq<char>> {
    if pkg.len() == 1 {
        seq![seq!['1']]
    } else if pkg.len() == 2 {
        seq![seq!['2']]
    } else if pkg.len() == 3 {
        seq![seq!['3'], pkg.subrange(0, 1)]
    } else {
        seq![pkg.subrange(0, 2), pkg.subrange(2, 4)]
    }
}

/// Each part preceded by `/`.
pub open spec fn joined_path(parts: Seq<Seq<char>>) -> Seq<char>
    decreases parts.len(),
{
    if parts.len() == 0 {
        Seq::empty()
    } else {
        joined_path(parts.drop_last()) + seq!['/'] + parts.last()
    }
}

/// The address of the index file of `pkg`.
pub open spec fn index_url(pkg: Seq<char>) -> Seq<char> {
    PREFIX@ + joined_path(index_dirs(pkg).push(pkg))
}

fn push_part(buf: &mut String, part: &str)
    ensures
        final(buf)@ == old(buf)@ + seq!['/'] + part@,
{
    buf.append("/");
    proof {
        reveal_strlit("/");
    }
    buf.append(part);
}

/// The address of the index file of `pkg`.
pub fn url(pkg: &str) -> (r: String)
    requires
        pkg@.len() > 0,
    ensures
        r@ == index_url(pkg@),
{
    let n = pkg.unicode_len();
    let mut buf = String::from_str(PREFIX);
    let ghost dirs = index_dirs(pkg@);
    if n == 1 {
        push_part(&mut buf, "1");
        proof {
            reveal_strlit("1");
        }
    } else if n == 2 {
        push_part(&mut buf, "2");
        proof {
            reveal_strlit("2");
        }
    } else if n == 3 {
        push_part(&mut buf, "3");
        proof {
            reveal_strlit("3");
        }
        push_part(&mut buf, pkg.substring_char(0, 1));
    } else {
        push_part(&mut buf, pkg.substring_char(0, 2));
        push_part(&mut buf, pkg.substring_char(2, 4));
    }
    push_part(&mut buf, pkg);
    proof {
        reveal_with_fuel(joined_path, 5);
        let parts = dirs.push(pkg@);
        if n == 1 || n == 2 {
            assert(parts.drop_last().drop_last() =~= Seq::<Seq<char>>::empty());
            assert(parts.drop_last() =~= seq![dirs[0]]);
        } else {
            assert(parts.drop_last().drop_last().drop_last() =~= Seq::<Seq<char>>::empty());
            assert(parts.drop_last().drop_last() =~= seq![dirs[0]]);
        }
        assert(buf@ =~= PREFIX@ + joined_path(parts));
    }
    buf
}

/// How many JSON records `s` holds one after another, or nothing when one of
/// them does not parse.
pub uninterp spec fn index_records(s: Seq<char>) -> Option<usize>;

/// Relies on `serde_json::Deserializer::into_iter`: the JSON values of the text
/// in turn, an error for one that does not parse; the count depends on the
/// text alone.
#[verifier::external_body]
fn count_records(text: &str) -> (r: Option<usize>)
    ensures
        r == index_records(text@),
{
    serde_json::Deserializer::from_str(text)
        .into_iter::<serde_json::Value>()
        .collect::<Result<Vec<_>, _>>()
        .ok()
        .map(|records| records.len())
}

/// The number of releases an index file lists, one JSON record each; `None`
/// when the file could not be fetched or a record does not parse. A listed
/// package has at least one release, but a count of zero is returned as it is.
pub fn get_release_count(index_file: Option<&str>) -> (r: Option<usize>)
    ensures
        r == match index_file {
            Some(t) => index_records(t@),
            None => None,
        },
{
    match index_file {
        Some(t) => count_records(t),
        None => None,
    }
}

} // verus!
