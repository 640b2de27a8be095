//! The textual test identifier `<package>::<binary>$<test case>[#<retry>]`.
use vstd::prelude::*;

verus! {

/// `s` holds the separator `::` at position `i`.
pub open spec fn colons_at(s: Seq<char>, i: int) -> bool {
    0 <= i && i + 1 < s.len() && s[i] == ':' && s[i + 1] == ':'
}

/// A package part that the first `::` of an identifier ends: it holds no `::`
/// and does not end in `:`.
pub open spec fn valid_package(p: Seq<char>) -> bool {
    forall|i: int| 0 <= i < p.len() ==> !(#[trigger] p[i] == ':' && (i + 1 == p.len() || p[i + 1] == ':'))
}

/// A binary part that the first `$` after the package ends.
pub open spec fn valid_binary(b: Seq<char>) -> bool {
    forall|i: int| 0 <= i < b.len() ==> #[trigger] b[i] != '$'
}

pub open spec fn is_digit(c: char) -> bool {
    '0' <= c && c <= '9'
}

/// `t` ends in `#` followed by one or more digits, the `#` standing at `k`.
pub open spec fn retry_suffix_at(t: Seq<char>, k: int) -> bool {
    &&& 0 <= k < t.len() - 1
    &&& t[k] == '#'
    &&& forall|m: int| k < m < t.len() ==> is_digit(#[trigger] t[m])
}

pub open spec fn has_retry_suffix(t: Seq<char>) -> bool {
    exists|k: int| retry_suffix_at(t, k)
}

/// The test case part with a trailing `#<digits>` removed.
pub open spec fn without_retry(t: Seq<char>) -> Seq<char> {
    if has_retry_suffix(t) {
        t.subrange(0, choose|k: int| retry_suffix_at(t, k))
    } else {
        t
    }
}

/// The identifier written from its three parts and a remainder.
pub open spec fn joined(p: Seq<char>, b: Seq<char>, rest: Seq<char>) -> Seq<char> {
    p + seq![':', ':'] + b + seq!['$'] + rest
}

/// `s` is split at its first `::` into `p` and at the first `$` after it.
pub open spec fn splits_as(s: Seq<char>, p: Seq<char>, b: Seq<char>, rest: Seq<char>) -> bool {
    s == joined(p, b, rest) && valid_package(p) && valid_binary(b)
}

pub open spec fn parses(s: Seq<char>) -> bool {
    exists|p: Seq<char>, b: Seq<char>, rest: Seq<char>| splits_as(s, p, b, rest)
}

/// What an identifier means: package, binary and test case, or nothing when a
/// separator is missing.
pub open spec fn spec_parse(s: Seq<char>) -> Option<(Seq<char>, Seq<char>, Seq<char>)> {
    if parses(s) {
        let (p, b, rest) = choose|p: Seq<char>, b: Seq<char>, rest: Seq<char>|
            splits_as(s, p, b, rest);
        Some((p, b, without_retry(rest)))
    } else {
        None
    }
}

/// A test case named by package, test binary and test path.
#[derive(Debug, Clone, PartialEq, Eq, Hash, PartialOrd, Ord)]
pub struct Name {
    pub pkg_name: String,
    pub test_binary: String,
    pub test_case: String,
}

#[derive(Debug, Clone, Copy, PartialEq, Eq, Structural)]
pub enum NameError {
    /// The identifier holds no `::`.
    MissingPackageSeparator,
    /// No `$` follows the first `::`.
    MissingBinarySeparator,
}

proof fn lemma_split_package_is_first(s: Seq<char>, p: Seq<char>, b: Seq<char>, rest: Seq<char>)
    requires
        splits_as(s, p, b, rest),
    ensures
        colons_at(s, p.len() as int),
        forall|i: int| 0 <= i < p.len() ==> !colons_at(s, i),
{
    assert(s[p.len() as int] == ':');
    assert(s[p.len() as int + 1] == ':');
    assert forall|i: int| 0 <= i < p.len() implies !colons_at(s, i) by {
        assert(s[i] == p[i]);
        if i + 1 < p.len() {
            assert(s[i + 1] == p[i + 1]);
        }
    }
}

proof fn lemma_split_unique(
    s: Seq<char>,
    pa: Seq<char>,
    ba: Seq<char>,
    ra: Seq<char>,
    pb: Seq<char>,
    bb: Seq<char>,
    rb: Seq<char>,
)
    requires
        splits_as(s, pa, ba, ra),
        splits_as(s, pb, bb, rb),
    ensures
        pa == pb && ba == bb && ra == rb,
{
    lemma_split_package_is_first(s, pa, ba, ra);
    lemma_split_package_is_first(s, pb, bb, rb);
    assert(pa.len() == pb.len());
    assert(pa =~= s.subrange(0, pa.len() as int));
    assert(pb =~= s.subrange(0, pb.len() as int));
    let start: int = pa.len() as int + 2;
    if ba.len() < bb.len() {
        assert(s[start + ba.len()] == '$');
        assert(bb[ba.len() as int] == s[start + ba.len()]);
    }
    if bb.len() < ba.len() {
        assert(s[start + bb.len()] == '$');
        assert(ba[bb.len() as int] == s[start + bb.len()]);
    }
    assert(ba.len() == bb.len());
    assert(ba =~= s.subrange(start, start + ba.len() as int));
    assert(bb =~= s.subrange(start, start + bb.len() as int));
    assert(ra =~= s.subrange(start + ba.len() as int + 1, s.len() as int));
    assert(rb =~= s.subrange(start + bb.len() as int + 1, s.len() as int));
}

proof fn lemma_spec_parse_of_split(s: Seq<char>, p: Seq<char>, b: Seq<char>, rest: Seq<char>)
    requires
        splits_as(s, p, b, rest),
    ensures
        spec_parse(s) == Some((p, b, without_retry(rest))),
{
    assert(parses(s));
    let (q, c, d) = choose|q: Seq<char>, c: Seq<char>, d: Seq<char>|
        splits_as(s, q, c, d);
    lemma_split_unique(s, p, b, rest, q, c, d);
}

proof fn lemma_retry_suffix_unique(t: Seq<char>, j: int, k: int)
    requires
        retry_suffix_at(t, j),
        retry_suffix_at(t, k),
    ensures
        j == k,
{
    if j < k {
        assert(is_digit(t[k]));
    }
    if k < j {
        assert(is_digit(t[j]));
    }
}

/// An identifier written from a package part without `::` (and not ending in
/// `:`), a binary part without `$` and a test case without a retry suffix
/// parses back into exactly those three parts.
pub proof fn lemma_parse_joined(p: Seq<char>, b: Seq<char>, t: Seq<char>)
    requires
        valid_package(p),
        valid_binary(b),
        !has_retry_suffix(t),
    ensures
        spec_parse(joined(p, b, t)) == Some((p, b, t)),
{
    lemma_spec_parse_of_split(joined(p, b, t), p, b, t);
}

/// Appending a retry suffix `#<digits>` to such an identifier does not change
/// what it parses to.
pub proof fn lemma_parse_drops_retry(p: Seq<char>, b: Seq<char>, t: Seq<char>, digits: Seq<char>)
    requires
        valid_package(p),
        valid_binary(b),
        !has_retry_suffix(t),
        digits.len() > 0,
        forall|i: int| 0 <= i < digits.len() ==> is_digit(#[trigger] digits[i]),
    ensures
        spec_parse(joined(p, b, t + seq!['#'] + digits)) == spec_parse(joined(p, b, t)),
        spec_parse(joined(p, b, t + seq!['#'] + digits)) == Some((p, b, t)),
{
    let tail = t + seq!['#'] + digits;
    assert(retry_suffix_at(tail, t.len() as int)) by {
        assert forall|m: int| t.len() < m < tail.len() implies is_digit(#[trigger] tail[m]) by {
            assert(tail[m] == digits[m - t.len() - 1]);
        }
    }
    let k = choose|k: int| retry_suffix_at(tail, k);
    lemma_retry_suffix_unique(tail, k, t.len() as int);
    assert(tail.subrange(0, t.len() as int) =~= t);
    lemma_spec_parse_of_split(joined(p, b, tail), p, b, tail);
    lemma_parse_joined(p, b, t);
}

/// Where the retry suffix of `t` starts, or its length when it has none.
fn retry_start(t: &str) -> (r: usize)
    ensures
        r <= t@.len(),
        has_retry_suffix(t@) ==> retry_suffix_at(t@, r as int),
        !has_retry_suffix(t@) ==> r == t@.len(),
        t@.subrange(0, r as int) == without_retry(t@),
{
    let n = t.unicode_len();
    let mut k: usize = n;
    while k > 0 && is_digit_char(t.get_char(k - 1))
        invariant
            n == t@.len(),
            k <= n,
            forall|m: int| k <= m < n ==> is_digit(#[trigger] t@[m]),
        decreases k,
    {
        k = k - 1;
    }
    if k > 0 && k < n && t.get_char(k - 1) == '#' {
        assert(retry_suffix_at(t@, k - 1));
        assert forall|j: int| retry_suffix_at(t@, j) implies j == k - 1 by {
            if j < k - 1 {
                assert(is_digit(t@[k - 1]));
            }
            if j > k - 1 {
                assert(is_digit(t@[j]));
            }
        }
        k - 1
    } else {
        assert forall|j: int| !retry_suffix_at(t@, j) by {
            if retry_suffix_at(t@, j) {
                if j < k as int - 1 {
                    assert(is_digit(t@[k - 1]));
                } else if j > k as int - 1 {
                    assert(is_digit(t@[j]));
                }
            }
        }
        assert(t@.subrange(0, n as int) =~= t@);
        n
    }
}

fn is_digit_char(c: char) -> (r: bool)
    ensures
        r == is_digit(c),
{
    '0' <= c && c <= '9'
}

impl Name {
    /// Parses `<package>::<binary>$<test case>` with an optional trailing
    /// `#<digits>`, which is dropped.
    pub fn parse(text: &str) -> (r: Result<Name, NameError>)
        ensures
            r is Ok <==> spec_parse(text@) is Some,
            r matches Ok(n) ==> spec_parse(text@) == Some(
                (n.pkg_name@, n.test_binary@, n.test_case@),
            ),
            r == Err::<Name, NameError>(NameError::MissingPackageSeparator) <==> !exists|i: int|
                colons_at(text@, i),
    {
        let ghost s = text@;
        let n = text.unicode_len();
        let mut i: usize = 0;
        while i < n && i + 1 < n && !(text.get_char(i) == ':' && text.get_char(i + 1) == ':')
            invariant
                s == text@,
                n == s.len(),
                i <= n,
                forall|j: int| 0 <= j < i ==> !colons_at(s, j),
            decreases n - i,
        {
            i = i + 1;
        }
        if i >= n || i + 1 >= n {
            assert forall|j: int| !colons_at(s, j) by {}
            assert(!parses(s)) by {
                if parses(s) {
                    let (p, b, rest) = choose|p: Seq<char>, b: Seq<char>, rest: Seq<char>|
                        splits_as(s, p, b, rest);
                    lemma_split_package_is_first(s, p, b, rest);
                }
            }
            return Err(NameError::MissingPackageSeparator);
        }
        assert(colons_at(s, i as int));
        let ghost p = s.subrange(0, i as int);
        assert(valid_package(p)) by {
            assert forall|j: int| 0 <= j < p.len() implies !(#[trigger] p[j] == ':' && (j + 1
                == p.len() || p[j + 1] == ':')) by {
                assert(!colons_at(s, j));
            }
        }
        let start = i + 2;
        let mut j: usize = start;
        while j < n && text.get_char(j) != '$'
            invariant
                s == text@,
                n == s.len(),
                start <= j <= n,
                forall|m: int| start <= m < j ==> s[m] != '$',
            decreases n - j,
        {
            j = j + 1;
        }
        if j >= n {
            assert(!parses(s)) by {
                if parses(s) {
                    let (q, c, rest_q) = choose|q: Seq<char>, c: Seq<char>, rest_q: Seq<char>|
                        splits_as(s, q, c, rest_q);
                    lemma_split_package_is_first(s, q, c, rest_q);
                    if q.len() < i {
                        assert(colons_at(s, q.len() as int));
                    }
                    if q.len() > i {
                        assert(!colons_at(s, i as int));
                    }
                    assert(s[start + c.len()] == '$');
                }
            }
            return Err(NameError::MissingBinarySeparator);
        }
        let ghost b = s.subrange(start as int, j as int);
        let ghost rest = s.subrange(j + 1, n as int);
        assert(valid_binary(b)) by {
            assert forall|m: int| 0 <= m < b.len() implies #[trigger] b[m] != '$' by {
                assert(b[m] == s[start + m]);
            }
        }
        assert(s =~= joined(p, b, rest));
        proof {
            lemma_spec_parse_of_split(s, p, b, rest);
        }
        let pkg_name = text.substring_char(0, i).to_owned();
        let test_binary = text.substring_char(start, j).to_owned();
        let tail = text.substring_char(j + 1, n);
        let cut = retry_start(tail);
        let test_case = tail.substring_char(0, cut).to_owned();
        Ok(Name { pkg_name, test_binary, test_case })
    }
}

} // verus!
