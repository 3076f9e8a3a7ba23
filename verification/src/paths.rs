//! Path strings, modelled as character sequences with `/` as the
//! separator: final component, parent directory, and joining — the three
//! operations the reconciler's destination logic needs.

use vstd::prelude::*;

verus! {

/// The path with its trailing separators removed.
pub open spec fn trim_seps(s: Seq<char>) -> Seq<char>
    decreases s.len(),
{
    if s.len() > 0 && s[s.len() - 1] == '/' {
        trim_seps(s.take(s.len() - 1))
    } else {
        s
    }
}

/// `trim_seps` keeps exactly the prefix before the trailing separators.
pub proof fn lemma_trim_seps(s: Seq<char>)
    ensures
        trim_seps(s).len() <= s.len(),
        trim_seps(s) == s.take(trim_seps(s).len() as int),
        forall|k: int| trim_seps(s).len() <= k < s.len() ==> s[k] == '/',
        trim_seps(s).len() > 0 ==> trim_seps(s)[trim_seps(s).len() - 1] != '/',
    decreases s.len(),
{
    if s.len() > 0 && s[s.len() - 1] == '/' {
        let t = s.take(s.len() - 1);
        lemma_trim_seps(t);
        assert(forall|k: int| 0 <= k < t.len() ==> t[k] == s[k]);
        assert(t.take(trim_seps(t).len() as int) =~= s.take(trim_seps(t).len() as int));
    } else {
        assert(trim_seps(s) == s);
        assert(s.take(s.len() as int) =~= s);
    }
}

/// Index of the last separator in `s`, if any.
pub open spec fn last_sep(s: Seq<char>) -> Option<int>
    decreases s.len(),
{
    if s.len() == 0 {
        None
    } else if s[s.len() - 1] == '/' {
        Some(s.len() - 1)
    } else {
        last_sep(s.take(s.len() - 1))
    }
}

/// `last_sep` finds exactly the last separator: the index it returns
/// holds one, nothing after it does, and `None` means there is none.
pub proof fn lemma_last_sep(s: Seq<char>)
    ensures
        match last_sep(s) {
            Some(j) => 0 <= j < s.len() && s[j] == '/' && (forall|k: int|
                j < k < s.len() ==> s[k] != '/'),
            None => forall|k: int| 0 <= k < s.len() ==> s[k] != '/',
        },
    decreases s.len(),
{
    if s.len() == 0 {
    } else if s[s.len() - 1] == '/' {
    } else {
        let t = s.take(s.len() - 1);
        lemma_last_sep(t);
        assert(forall|k: int| 0 <= k < t.len() ==> t[k] == s[k]);
    }
}

/// The final path component: what stands after the last separator once
/// trailing separators are dropped. A path of separators alone, or the
/// empty path, has the empty final component.
pub open spec fn spec_last_component(s: Seq<char>) -> Seq<char> {
    let t = trim_seps(s);
    match last_sep(t) {
        None => t,
        Some(j) => t.skip(j + 1),
    }
}

/// The parent directory: the path up to the final component, trailing
/// separators dropped — the root when the final component sits in the
/// root, the empty path for a bare relative name, nothing for the empty
/// path or the root itself.
pub open spec fn spec_parent(s: Seq<char>) -> Option<Seq<char>> {
    let t = trim_seps(s);
    if t.len() == 0 {
        None
    } else {
        match last_sep(t) {
            None => Some(Seq::empty()),
            Some(j) => {
                let head = trim_seps(t.take(j));
                if head.len() == 0 {
                    Some(t.take(j + 1))
                } else {
                    Some(head)
                }
            },
        }
    }
}

/// Joining a name onto a base path: a separator stands between the two
/// exactly when the base is not empty and does not already end in one.
pub open spec fn spec_join(base: Seq<char>, name: Seq<char>) -> Seq<char> {
    if base.len() == 0 {
        name
    } else if base[base.len() - 1] == '/' {
        base + name
    } else {
        base + seq!['/'] + name
    }
}

/// Length of `trim_seps(s@.take(m))`: scan the trailing separators off
/// the first `m` characters of `s`.
fn trim_upto(s: &str, m: usize) -> (n: usize)
    requires
        m <= s@.len(),
    ensures
        n <= m,
        trim_seps(s@.take(m as int)) == s@.take(n as int),
    {
    let mut n = m;
    while n > 0 && s.get_char(n - 1) == '/'
        invariant
            n <= m,
            m <= s@.len(),
            forall|k: int| n <= k < m ==> s@[k] == '/',
        decreases n,
    {
        n = n - 1;
    }
    proof {
        let t = s@.take(m as int);
        lemma_trim_seps(t);
        let j = trim_seps(t).len() as int;
        assert(forall|k: int| 0 <= k < m ==> t[k] == s@[k]);
        if j < n {
            assert(t[n - 1] == '/');
            assert(s@[n - 1] == '/');
            assert(false);
        }
        if n < j {
            assert(s@[j - 1] == '/');
            assert(t[j - 1] != '/');
            assert(false);
        }
        assert(trim_seps(t) =~= s@.take(n as int));
    }
    n
}

/// Index of the last separator among the first `m` characters of `s`.
fn last_sep_upto(s: &str, m: usize) -> (r: Option<usize>)
    requires
        m <= s@.len(),
    ensures
        match r {
            Some(j) => last_sep(s@.take(m as int)) == Some(j as int),
            None => last_sep(s@.take(m as int)) is None,
        },
{
    let ghost t = s@.take(m as int);
    proof {
        lemma_last_sep(t);
        assert(forall|k: int| 0 <= k < m ==> t[k] == s@[k]);
    }
    let mut n = m;
    while n > 0
        invariant
            n <= m,
            m <= s@.len(),
            forall|k: int| n <= k < m ==> s@[k] != '/',
        decreases n,
    {
        if s.get_char(n - 1) == '/' {
            proof {
                let t = s@.take(m as int);
                lemma_last_sep(t);
                assert(forall|k: int| 0 <= k < m ==> t[k] == s@[k]);
                assert(t[n - 1] == '/');
                match last_sep(t) {
                    None => {
                        assert(false);
                    },
                    Some(j) => {
                        if j < n - 1 {
                            assert(s@[n - 1] != '/');
                            assert(false);
                        }
                        if j > n - 1 {
                            assert(t[j] == '/');
                            assert(s@[j] != '/');
                            assert(false);
                        }
                    },
                }
            }
            return Some(n - 1);
        }
        n = n - 1;
    }
    proof {
        if let Some(j) = last_sep(t) {
            assert(t[j] == '/');
            assert(s@[j] != '/');
            assert(false);
        }
    }
    None
}

/// The final path component of `path`.
pub fn last_component(path: &str) -> (r: String)
    ensures
        r@ == spec_last_component(path@),
{
    let ln = path.unicode_len();
    proof {
        assert(path@.take(ln as int) =~= path@);
    }
    let n = trim_upto(path, ln);
    match last_sep_upto(path, n) {
        None => {
            proof {
                assert(path@.take(n as int) =~= path@.subrange(0, n as int));
            }
            String::from_str(path.substring_char(0, n))
        },
        Some(j) => {
            proof {
                lemma_last_sep(path@.take(n as int));
                assert(path@.take(n as int).skip(j + 1) =~= path@.subrange(j + 1, n as int));
            }
            String::from_str(path.substring_char(j + 1, n))
        },
    }
}

/// The parent directory of `path`, if it has one.
pub fn parent_dir(path: &str) -> (r: Option<String>)
    ensures
        match r {
            Some(p) => spec_parent(path@) == Some(p@),
            None => spec_parent(path@) is None,
        },
{
    let ln = path.unicode_len();
    proof {
        assert(path@.take(ln as int) =~= path@);
    }
    let n = trim_upto(path, ln);
    if n == 0 {
        return None;
    }
    match last_sep_upto(path, n) {
        None => Some(String::new()),
        Some(j) => {
            proof {
                lemma_last_sep(path@.take(n as int));
                assert(path@.take(n as int).take(j as int) =~= path@.take(j as int));
            }
            let h = trim_upto(path, j);
            if h == 0 {
                proof {
                    assert(path@.take(n as int).take(j + 1) =~= path@.subrange(0, j + 1));
                }
                Some(String::from_str(path.substring_char(0, j + 1)))
            } else {
                proof {
                    assert(path@.take(h as int) =~= path@.subrange(0, h as int));
                }
                Some(String::from_str(path.substring_char(0, h)))
            }
        },
    }
}

/// `base` with `name` joined under it.
pub fn join_path(base: &str, name: &str) -> (r: String)
    ensures
        r@ == spec_join(base@, name@),
{
    let n = base.unicode_len();
    if n == 0 {
        return String::from_str(name);
    }
    let mut out = String::from_str(base);
    if base.get_char(n - 1) != '/' {
        proof {
            reveal_strlit("/");
            assert("/"@ =~= seq!['/']);
        }
        out.append("/");
    }
    out.append(name);
    proof {
        if base@[n - 1] != '/' {
            assert(out@ =~= base@ + seq!['/'] + name@);
        }
    }
    out
}

} // verus!
