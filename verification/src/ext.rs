//! Deriving a file extension, and a destination file name, from an
//! enclosure URL.

use vstd::prelude::*;
use vstd::string::StrSliceExecFns;
use vstd::string::StringExecFns;

verus! {

/// Index of the first occurrence of `c` in `u` at or after `i`, or `u.len()`
/// when there is none.
pub open spec fn find_from(u: Seq<char>, c: char, i: int) -> int
    decreases u.len() - i,
{
    if i < 0 || i >= u.len() {
        u.len() as int
    } else if u[i] == c {
        i
    } else {
        find_from(u, c, i + 1)
    }
}

/// Index of the last occurrence of `c` in `u` strictly before `end`, or -1
/// when there is none.
pub open spec fn rfind_before(u: Seq<char>, c: char, end: int) -> int
    decreases end,
{
    if end <= 0 || end > u.len() {
        -1
    } else if u[end - 1] == c {
        end - 1
    } else {
        rfind_before(u, c, end - 1)
    }
}

/// Where the path part of the URL ends: at the first '?', or at the end of
/// the URL when it carries no query string.
pub open spec fn path_end(u: Seq<char>) -> int {
    find_from(u, '?', 0)
}

/// The extension a URL yields: the characters after the last '.' of the path
/// part, or the empty sequence when the path part holds no '.'.
pub open spec fn ext_of(u: Seq<char>) -> Seq<char> {
    let q = path_end(u);
    let d = rfind_before(u, '.', q);
    if d < 0 {
        Seq::empty()
    } else {
        u.subrange(d + 1, q)
    }
}

proof fn lemma_find_from_char(u: Seq<char>, c: char, i: int, k: int)
    requires
        0 <= i <= k <= u.len(),
        forall|j: int| i <= j < k ==> u[j] != c,
        k < u.len() ==> u[k] == c,
    ensures
        find_from(u, c, i) == if k < u.len() {
            k
        } else {
            u.len() as int
        },
    decreases k - i,
{
    if i < k {
        lemma_find_from_char(u, c, i + 1, k);
    }
}

proof fn lemma_rfind_before_char(u: Seq<char>, c: char, e: int, q: int)
    requires
        0 <= e <= q <= u.len(),
        forall|j: int| e <= j < q ==> u[j] != c,
        e > 0 ==> u[e - 1] == c,
    ensures
        rfind_before(u, c, q) == if e > 0 {
            e - 1
        } else {
            -1
        },
    decreases q - e,
{
    if e < q {
        lemma_rfind_before_char(u, c, e, q - 1);
    }
}

/// Derives the file extension from an enclosure URL: the part of the path
/// component (before any query string) after its last '.', or "" when the
/// path component holds no '.'.
pub fn get_ext(url: &str) -> (r: String)
    ensures
        r@ == ext_of(url@),
{
    let n = url.unicode_len();
    let mut q: usize = 0;
    while q < n && url.get_char(q) != '?'
        invariant
            n == url@.len(),
            q <= n,
            forall|j: int| 0 <= j < q ==> url@[j] != '?',
        decreases n - q,
    {
        q = q + 1;
    }
    proof {
        lemma_find_from_char(url@, '?', 0, q as int);
    }
    let mut e: usize = q;
    while e > 0 && url.get_char(e - 1) != '.'
        invariant
            n == url@.len(),
            e <= q <= n,
            forall|j: int| e <= j < q ==> url@[j] != '.',
        decreases e,
    {
        e = e - 1;
    }
    proof {
        lemma_rfind_before_char(url@, '.', e as int, q as int);
    }
    if e > 0 {
        String::from_str(url.substring_char(e, q))
    } else {
        String::new()
    }
}

/// The destination file name `{title}.{ext}` for an item's enclosure URL.
pub fn file_name(title: &str, url: &str) -> (r: String)
    ensures
        r@ == title@ + seq!['.'] + ext_of(url@),
{
    let mut s = String::from_str(title);
    s.append(".");
    let e = get_ext(url);
    s.append(e.as_str());
    proof {
        reveal_strlit(".");
        assert(s@ =~= title@ + seq!['.'] + ext_of(url@));
    }
    s
}

} // verus!
