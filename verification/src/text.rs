//! Path keys: the normal form under which a path is registered and looked
//! up, and the prefix relation that routes a request to a registered path.

use vstd::prelude::*;
use vstd::string::*;

verus! {

/// The characters of `s` without its trailing slashes.
pub open spec fn trim_trailing(s: Seq<char>) -> Seq<char>
    decreases s.len(),
{
    if s.len() > 0 && s.last() == '/' {
        trim_trailing(s.drop_last())
    } else {
        s
    }
}

/// The normal form of a path: trailing slashes removed, and one leading
/// slash supplied where the rest has none. The empty path and any run of
/// slashes become the root `/`.
pub open spec fn normalized(s: Seq<char>) -> Seq<char> {
    let t = trim_trailing(s);
    if t.len() > 0 && t[0] == '/' {
        t
    } else {
        seq!['/'] + t
    }
}

/// Whether `s` is its own normal form, stated directly: it starts with a
/// slash and, unless it is the root, does not end with one.
pub open spec fn is_normal(s: Seq<char>) -> bool {
    &&& s.len() > 0
    &&& s[0] == '/'
    &&& (s.len() == 1 || s.last() != '/')
}

/// Whether the registered key `key` covers the request path `path`: the
/// root covers everything, any other key covers itself and whatever
/// continues it with a slash.
pub open spec fn covers(key: Seq<char>, path: Seq<char>) -> bool {
    ||| key == seq!['/']
    ||| key == path
    ||| (key.len() < path.len() && path.subrange(0, key.len() as int) == key && path[key.len() as int]
        == '/')
}

pub proof fn lemma_trim_trailing_shape(s: Seq<char>)
    ensures
        trim_trailing(s).len() <= s.len(),
        trim_trailing(s) == s.subrange(0, trim_trailing(s).len() as int),
        trim_trailing(s).len() > 0 ==> trim_trailing(s).last() != '/',
        forall|i: int| trim_trailing(s).len() <= i < s.len() ==> s[i] == '/',
    decreases s.len(),
{
    if s.len() > 0 && s.last() == '/' {
        let t = s.drop_last();
        lemma_trim_trailing_shape(t);
        assert(trim_trailing(s) == s.subrange(0, trim_trailing(s).len() as int));
        assert forall|i: int| trim_trailing(s).len() <= i < s.len() implies s[i] == '/' by {
            if i < t.len() {
                assert(t[i] == s[i]);
            }
        }
    } else {
        assert(s == s.subrange(0, s.len() as int));
    }
}

/// A path without a trailing slash is left as it is by trimming.
pub proof fn lemma_trim_trailing_fixed(s: Seq<char>)
    requires
        s.len() == 0 || s.last() != '/',
    ensures
        trim_trailing(s) == s,
{
}

/// The normal form is normal, and a normal path is its own normal form:
/// normalising twice is normalising once.
pub proof fn law_normalized_is_idempotent(s: Seq<char>)
    ensures
        is_normal(normalized(s)),
        is_normal(s) ==> normalized(s) == s,
        normalized(normalized(s)) == normalized(s),
{
    lemma_trim_trailing_shape(s);
    let t = trim_trailing(s);
    let n = normalized(s);
    if t.len() > 0 && t[0] == '/' {
        assert(n == t);
    } else {
        assert(n == seq!['/'] + t);
        assert(n[0] == '/');
        if t.len() > 0 {
            assert(n.last() == t.last());
        }
    }
    assert(is_normal(n));
    lemma_normal_is_fixed(n);
    if is_normal(s) {
        lemma_normal_is_fixed(s);
    }
}

/// A normal path is a fixed point of normalisation.
pub proof fn lemma_normal_is_fixed(s: Seq<char>)
    requires
        is_normal(s),
    ensures
        normalized(s) == s,
{
    if s.len() == 1 {
        assert(s.drop_last() == Seq::<char>::empty());
        assert(trim_trailing(s.drop_last()) == Seq::<char>::empty());
        assert(trim_trailing(s) == Seq::<char>::empty());
        assert(seq!['/'] + Seq::<char>::empty() == s);
    } else {
        lemma_trim_trailing_fixed(s);
    }
}

/// Brings a path into its normal form.
pub fn normalize(path: &str) -> (r: String)
    ensures
        r@ == normalized(path@),
        is_normal(r@),
{
    let n: usize = path.unicode_len();
    let mut end: usize = n;
    assert(path@.subrange(0, n as int) == path@);
    while end > 0 && path.get_char(end - 1) == '/'
        invariant
            end <= n,
            n == path@.len(),
            trim_trailing(path@) == trim_trailing(path@.subrange(0, end as int)),
        decreases end,
    {
        proof {
            assert(path@.subrange(0, end as int).drop_last() == path@.subrange(0, end - 1));
        }
        end = end - 1;
    }
    let kept = path.substring_char(0, end);
    proof {
        lemma_trim_trailing_fixed(kept@);
        law_normalized_is_idempotent(path@);
    }
    if end > 0 && path.get_char(0) == '/' {
        String::from_str(kept)
    } else {
        proof {
            reveal_strlit("/");
            assert("/"@ == seq!['/']);
        }
        String::from_str("/").concat(kept)
    }
}

/// Decides whether the registered key `key` covers the request path `path`.
pub fn key_covers(key: &str, path: &str) -> (r: bool)
    ensures
        r == covers(key@, path@),
{
    let k: usize = key.unicode_len();
    let p: usize = path.unicode_len();
    if k == 1 && key.get_char(0) == '/' {
        proof {
            assert(key@ == seq!['/']);
        }
        return true;
    }
    assert(key@ != seq!['/']) by {
        if key@ == seq!['/'] {
            assert(key@.len() == 1 && key@[0] == '/');
        }
    }
    if k > p {
        return false;
    }
    let mut i: usize = 0;
    while i < k
        invariant
            i <= k <= p,
            k == key@.len(),
            p == path@.len(),
            key@ != seq!['/'],
            forall|j: int| 0 <= j < i ==> key@[j] == path@[j],
        decreases k - i,
    {
        if key.get_char(i) != path.get_char(i) {
            proof {
                assert(key@[i as int] != path@[i as int]);
                assert(key@ != path@);
                if k < p && path@.subrange(0, k as int) == key@ {
                    assert(path@.subrange(0, k as int)[i as int] == path@[i as int]);
                }
                assert(!covers(key@, path@));
            }
            return false;
        }
        i = i + 1;
    }
    assert(path@.subrange(0, k as int) == key@);
    if k == p {
        assert(path@.subrange(0, k as int) == path@);
        return true;
    }
    path.get_char(k) == '/'
}

/// What a pair of strings says.
pub open spec fn pair_of(p: (String, String)) -> (Seq<char>, Seq<char>) {
    (p.0@, p.1@)
}

/// What a run of pairs of strings says.
pub open spec fn pairs_of(ps: Seq<(String, String)>) -> Seq<(Seq<char>, Seq<char>)> {
    Seq::new(ps.len(), |i: int| pair_of(ps[i]))
}

/// The contents of a run of strings.
pub open spec fn texts(strings: Seq<String>) -> Seq<Seq<char>> {
    Seq::new(strings.len(), |i: int| strings[i]@)
}

/// Whether `s` ends with `suffix`.
pub open spec fn ends_with(s: Seq<char>, suffix: Seq<char>) -> bool {
    suffix.len() <= s.len() && s.subrange(s.len() - suffix.len(), s.len() as int) == suffix
}

/// Where the last `c` of `s` stands, if it has one.
pub open spec fn last_of(s: Seq<char>, c: char) -> Option<int>
    decreases s.len(),
{
    if s.len() == 0 {
        None
    } else if s.last() == c {
        Some(s.len() - 1)
    } else {
        last_of(s.drop_last(), c)
    }
}

/// What follows the last slash of `s`, if it has one.
pub open spec fn tail_segment(s: Seq<char>) -> Option<Seq<char>> {
    match last_of(s, '/') {
        Some(i) => Some(s.subrange(i + 1, s.len() as int)),
        None => None,
    }
}

/// Decides whether `s` ends with `suffix`.
pub fn has_suffix(s: &str, suffix: &str) -> (r: bool)
    ensures
        r == ends_with(s@, suffix@),
{
    let n: usize = s.unicode_len();
    let m: usize = suffix.unicode_len();
    if m > n {
        return false;
    }
    let start: usize = n - m;
    let mut i: usize = 0;
    while i < m
        invariant
            i <= m <= n,
            start == n - m,
            n == s@.len(),
            m == suffix@.len(),
            forall|j: int| 0 <= j < i ==> s@[start + j] == suffix@[j],
        decreases m - i,
    {
        if s.get_char(start + i) != suffix.get_char(i) {
            proof {
                assert(s@.subrange(start as int, n as int)[i as int] == s@[start + i]);
            }
            return false;
        }
        i = i + 1;
    }
    assert(s@.subrange(start as int, n as int) =~= suffix@);
    true
}

/// Finds the last `c` of `s`.
pub fn last_position(s: &str, c: char) -> (r: Option<usize>)
    ensures
        match r {
            Some(i) => last_of(s@, c) == Some(i as int) && i < s@.len(),
            None => last_of(s@, c) is None,
        },
{
    let n: usize = s.unicode_len();
    let mut end: usize = n;
    assert(s@.subrange(0, n as int) == s@);
    while end > 0 && s.get_char(end - 1) != c
        invariant
            end <= n,
            n == s@.len(),
            last_of(s@, c) == last_of(s@.subrange(0, end as int), c),
        decreases end,
    {
        proof {
            assert(s@.subrange(0, end as int).drop_last() == s@.subrange(0, end - 1));
        }
        end = end - 1;
    }
    if end == 0 {
        None
    } else {
        Some(end - 1)
    }
}

/// The part of `s` behind its last slash, if it has one.
pub fn after_last_slash(s: &str) -> (r: Option<&str>)
    ensures
        match r {
            Some(tail) => tail_segment(s@) == Some(tail@),
            None => tail_segment(s@) is None,
        },
{
    let n: usize = s.unicode_len();
    match last_position(s, '/') {
        Some(i) => Some(s.substring_char(i + 1, n)),
        None => None,
    }
}

} // verus!
