use vstd::prelude::*;

use crate::notes::last_index_of;
use crate::text::{chars_of, matches_at, same_text, starts_with, string_of};

verus! {

/// The database used when none is configured.
pub const DEFAULT_DATABASE_URL: &'static str = "sqlite://data/dungeon-router.db?mode=rwc";

/// The first position at or after `k` where `c` stands in `s`, or its length.
pub open spec fn scan_to(s: Seq<char>, k: int, c: char) -> int
    decreases s.len() - k,
{
    if k < 0 || k >= s.len() {
        s.len() as int
    } else if s[k] == c {
        k
    } else {
        scan_to(s, k + 1, c)
    }
}

proof fn lemma_scan_to_bounds(s: Seq<char>, k: int, c: char)
    requires
        0 <= k <= s.len(),
    ensures
        k <= scan_to(s, k, c) <= s.len(),
    decreases s.len() - k,
{
    if k < s.len() && s[k] != c {
        lemma_scan_to_bounds(s, k + 1, c);
    }
}

/// The file of an SQLite URL: what follows `sqlite://` up to the first `?`, when
/// that is neither empty nor the in-memory database.
pub open spec fn sqlite_file_of(url: Seq<char>) -> Option<Seq<char>> {
    if starts_with(url, "sqlite://"@) {
        let rest = url.skip(9);
        let path = rest.take(scan_to(rest, 0, '?'));
        if path.len() > 0 && path != ":memory:"@ {
            Some(path)
        } else {
            None
        }
    } else {
        None
    }
}

/// The file of an SQLite URL, as [`sqlite_file_of`] describes it.
pub fn sqlite_file(database_url: &str) -> (r: Option<String>)
    ensures
        match sqlite_file_of(database_url@) {
            Some(p) => r matches Some(x) && x@ == p,
            None => r is None,
        },
{
    let v = chars_of(database_url);
    proof {
        reveal_strlit("sqlite://");
    }
    if !matches_at(&v, &chars_of("sqlite://"), 0) {
        return None;
    }
    let ghost rest = v@.skip(9);
    let mut i: usize = 9;
    while i < v.len() && v[i] != '?'
        invariant
            9 <= i <= v.len(),
            rest == v@.skip(9),
            scan_to(rest, i - 9, '?') == scan_to(rest, 0, '?'),
        decreases v.len() - i,
    {
        assert(rest[i - 9] == v@[i as int]);
        i = i + 1;
    }
    assert(scan_to(rest, i - 9, '?') == i - 9) by {
        if i < v.len() {
            assert(rest[i - 9] == v@[i as int]);
        }
    }
    let path = string_of(&v, 9, i);
    assert(path@ =~= rest.take(i - 9));
    if i == 9 || same_text(path.as_str(), ":memory:") {
        None
    } else {
        Some(path)
    }
}

/// A path component that reads the same on every platform: not empty, not `.`
/// or `..`, and free of `/`, `\\` and `:`.
pub open spec fn plain_name(s: Seq<char>) -> bool {
    &&& s.len() > 0
    &&& !s.contains('/')
    &&& !s.contains('\\')
    &&& !s.contains(':')
    &&& s != "."@
    &&& s != ".."@
}

/// The last position of `c` before `k` lies before `k` and holds `c`, or is -1.
pub proof fn lemma_last_index_range(p: Seq<char>, c: char, k: int)
    ensures
        -1 <= last_index_of(p, c, k) < k || (k <= 0 && last_index_of(p, c, k) == -1),
        last_index_of(p, c, k) >= 0 ==> p[last_index_of(p, c, k)] == c,
    decreases k,
{
    if k > 0 && p[k - 1] != c {
        lemma_last_index_range(p, c, k - 1);
    }
}

/// `p[..n]` is a path of plain components joined by single `/`s, with or
/// without a leading `/`.
pub open spec fn plain_prefix(p: Seq<char>, n: int) -> bool
    decreases n,
{
    if n <= 0 || n > p.len() {
        false
    } else {
        let i = last_index_of(p, '/', n);
        if i < 0 {
            plain_name(p.take(n))
        } else if i == 0 {
            plain_name(p.subrange(1, n))
        } else {
            proof {
                lemma_last_index_range(p, '/', n);
            }
            plain_name(p.subrange(i + 1, n)) && plain_prefix(p, i)
        }
    }
}

/// A path of plain components joined by single `/`s, with or without a leading `/`.
pub open spec fn plain_path(p: Seq<char>) -> bool {
    plain_prefix(p, p.len() as int)
}

/// A plain path without its last component: the components before it, `/` for
/// a single component after the root, and the empty path for a single relative one.
pub open spec fn plain_parent(p: Seq<char>) -> Seq<char> {
    let i = last_index_of(p, '/', p.len() as int);
    if i < 0 {
        Seq::<char>::empty()
    } else if i == 0 {
        p.take(1)
    } else {
        p.take(i)
    }
}

/// `std::path::Path::parent`, read back as text. Its documentation says that it
/// gives the path without its final component (so `/foo/bar` gives `/foo`, `/foo`
/// gives `/` and `foo/bar` gives `foo`), the empty path for a relative path of one
/// component, and nothing for the empty path; that is what is stated here, for
/// paths of components that every platform reads alike. What it gives on other
/// paths follows the platform's path syntax and is left unsaid.
#[verifier::external_body]
fn path_parent(path: &str) -> (r: Option<String>)
    ensures
        path@.len() == 0 ==> r is None,
        plain_path(path@) ==> (r is Some && r->0@ == plain_parent(path@)),
{
    std::path::Path::new(path).parent().and_then(|p| p.to_str()).map(String::from)
}

/// A parent directory worth creating: one that is not empty.
pub fn nonempty_parent(parent: Option<String>) -> (r: Option<String>)
    ensures
        match parent {
            Some(p) => if p@.len() > 0 {
                r == Some(p)
            } else {
                r is None
            },
            None => r is None,
        },
{
    match parent {
        Some(p) => if chars_of(p.as_str()).len() > 0 {
            Some(p)
        } else {
            None
        },
        None => None,
    }
}

/// The directory that must exist before an SQLite database opens: the parent of
/// its file, as [`sqlite_file_of`] finds it, when that parent is not empty. For a
/// file of plain components that parent is [`plain_parent`], so
/// `sqlite:///app/data/dungeon-router.db` gives `/app/data`.
pub fn sqlite_parent_path(database_url: &str) -> (r: Option<String>)
    ensures
        sqlite_file_of(database_url@) is None ==> r is None,
        r matches Some(p) ==> p@.len() > 0,
        ({
            let file = sqlite_file_of(database_url@);
            &&& file is Some && plain_path(file->0) && plain_parent(file->0).len() == 0 ==> r is None
            &&& file is Some && plain_path(file->0) && plain_parent(file->0).len() > 0 ==> (r is Some
                && r->0@ == plain_parent(file->0))
        }),
{
    match sqlite_file(database_url) {
        Some(file) => {
            let parent = path_parent(file.as_str());
            nonempty_parent(parent)
        },
        None => None,
    }
}

} // verus!
