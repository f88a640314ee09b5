use vstd::prelude::*;
use crate::text::{append, chars_of, owned, push_char, string_of};

verus! {

/// Paths are texts with `/` between their components.
pub open spec fn is_absolute(p: Seq<char>) -> bool {
    p.len() > 0 && p[0] == '/'
}

/// `b` placed under `a`, as `Path::join` does: an absolute `b` stands alone.
pub open spec fn join_spec(a: Seq<char>, b: Seq<char>) -> Seq<char> {
    if is_absolute(b) || a.len() == 0 {
        b
    } else if a.last() == '/' {
        a + b
    } else {
        a.push('/') + b
    }
}

/// The index of the last `c` in `s`, or -1.
pub open spec fn last_index_of(s: Seq<char>, c: char) -> int
    decreases s.len(),
{
    if s.len() == 0 {
        -1
    } else if s.last() == c {
        s.len() - 1
    } else {
        last_index_of(s.drop_last(), c)
    }
}

/// The last component of `p`.
pub open spec fn file_name(p: Seq<char>) -> Seq<char> {
    p.subrange(last_index_of(p, '/') + 1, p.len() as int)
}

/// What follows the last `.` of the file name, unless that `.` starts it.
pub open spec fn extension_of(p: Seq<char>) -> Option<Seq<char>> {
    let n = file_name(p);
    let k = last_index_of(n, '.');
    if k <= 0 {
        None
    } else {
        Some(n.subrange(k + 1, n.len() as int))
    }
}

/// The folder that holds `p`.
pub open spec fn dir_of(p: Seq<char>) -> Seq<char> {
    let k = last_index_of(p, '/');
    if k < 0 {
        Seq::<char>::empty()
    } else if k == 0 {
        seq!['/']
    } else {
        p.subrange(0, k)
    }
}

/// The number of `/` in `p`: deeper paths have more.
pub open spec fn depth(p: Seq<char>) -> nat
    decreases p.len(),
{
    if p.len() == 0 {
        0
    } else {
        depth(p.drop_last()) + if p.last() == '/' {
            1nat
        } else {
            0nat
        }
    }
}

/// `a` is a folder above `p`.
pub open spec fn is_ancestor(a: Seq<char>, p: Seq<char>) -> bool {
    a.len() < p.len() && p.subrange(0, a.len() as int) == a && p[a.len() as int] == '/'
}

pub proof fn lemma_last_index_bounds(s: Seq<char>, c: char)
    ensures
        -1 <= last_index_of(s, c) < s.len(),
        last_index_of(s, c) >= 0 ==> s[last_index_of(s, c)] == c,
    decreases s.len(),
{
    if s.len() > 0 && s.last() != c {
        lemma_last_index_bounds(s.drop_last(), c);
    }
}

pub proof fn lemma_depth_prefix(p: Seq<char>, k: int)
    requires
        0 <= k <= p.len(),
    ensures
        depth(p.subrange(0, k)) <= depth(p),
        k < p.len() && p[k] == '/' ==> depth(p.subrange(0, k)) < depth(p),
    decreases p.len() - k,
{
    if k < p.len() {
        lemma_depth_prefix(p, k + 1);
        let q = p.subrange(0, k + 1);
        assert(q.drop_last() =~= p.subrange(0, k));
        assert(q.last() == p[k]);
    } else {
        assert(p.subrange(0, k) =~= p);
    }
}

/// A folder is shallower than everything under it.
pub proof fn lemma_ancestor_shallower(a: Seq<char>, p: Seq<char>)
    requires
        is_ancestor(a, p),
    ensures
        depth(a) < depth(p),
{
    lemma_depth_prefix(p, a.len() as int);
}

/// The path that leads from `base` to `path`, as `pathdiff::diff_paths`
/// computes it.
pub uninterp spec fn relative_path_of(path: Seq<char>, base: Seq<char>) -> Option<Seq<char>>;

/// Relies on `pathdiff::diff_paths`: the result depends on the two paths
/// alone.
#[verifier::external_body]
fn diff_paths(path: &str, base: &str) -> (r: Option<String>)
    ensures
        match r {
            Some(p) => relative_path_of(path@, base@) == Some(p@),
            None => relative_path_of(path@, base@) is None,
        },
{
    pathdiff::diff_paths(path, base).map(|p| p.to_string_lossy().into_owned())
}

/// `path` written relative to `base`; both are canonical paths.
pub fn get_rel_path_based_on(path: &String, base: &String) -> (r: Option<String>)
    ensures
        match r {
            Some(p) => relative_path_of(path@, base@) == Some(p@),
            None => relative_path_of(path@, base@) is None,
        },
{
    diff_paths(path.as_str(), base.as_str())
}

/// The index of the last `c` in `s`.
pub fn find_last(s: &Vec<char>, c: char) -> (r: Option<usize>)
    ensures
        match r {
            Some(k) => k as int == last_index_of(s@, c) && k < s@.len(),
            None => last_index_of(s@, c) == -1,
        },
{
    let mut i: usize = s.len();
    assert(s@.subrange(0, i as int) =~= s@);
    while i > 0
        invariant
            i <= s.len(),
            last_index_of(s@, c) == last_index_of(s@.subrange(0, i as int), c),
        decreases i,
    {
        let ghost p = s@.subrange(0, i as int);
        assert(p.last() == s@[i - 1]);
        assert(p.drop_last() =~= s@.subrange(0, i as int - 1));
        if s[i - 1] == c {
            return Some(i - 1);
        }
        i = i - 1;
    }
    None
}

/// A copy of `s[from..to]`.
pub fn slice_chars(s: &Vec<char>, from: usize, to: usize) -> (r: Vec<char>)
    requires
        from <= to <= s.len(),
    ensures
        r@ == s@.subrange(from as int, to as int),
{
    let mut r: Vec<char> = Vec::new();
    let mut i: usize = from;
    while i < to
        invariant
            from <= i <= to <= s.len(),
            r@ == s@.subrange(from as int, i as int),
        decreases to - i,
    {
        r.push(s[i]);
        i = i + 1;
        assert(r@ =~= s@.subrange(from as int, i as int));
    }
    r
}

/// `b` placed under `a`.
pub fn join(a: &str, b: &str) -> (r: String)
    ensures
        r@ == join_spec(a@, b@),
{
    let ac = chars_of(a);
    let bc = chars_of(b);
    if (bc.len() > 0 && bc[0] == '/') || ac.len() == 0 {
        return owned(b);
    }
    let mut r = owned(a);
    if ac[ac.len() - 1] != '/' {
        push_char(&mut r, '/');
    }
    append(&mut r, b);
    r
}

/// The extension of the file that `p` names, if any.
pub fn extension(p: &str) -> (r: Option<String>)
    ensures
        match r {
            Some(e) => extension_of(p@) == Some(e@),
            None => extension_of(p@) is None,
        },
{
    let pc = chars_of(p);
    let start: usize = match find_last(&pc, '/') {
        Some(k) => k + 1,
        None => 0,
    };
    proof {
        lemma_last_index_bounds(p@, '/');
    }
    let name = slice_chars(&pc, start, pc.len());
    match find_last(&name, '.') {
        Some(k) => {
            if k == 0 {
                None
            } else {
                proof {
                    lemma_last_index_bounds(name@, '.');
                }
                let e = slice_chars(&name, k + 1, name.len());
                Some(string_of(&e))
            }
        },
        None => None,
    }
}

/// The folder that holds `p`.
pub fn parent_dir(p: &str) -> (r: String)
    ensures
        r@ == dir_of(p@),
{
    let pc = chars_of(p);
    proof {
        lemma_last_index_bounds(p@, '/');
    }
    match find_last(&pc, '/') {
        None => String::new(),
        Some(k) => {
            if k == 0 {
                let mut r = String::new();
                push_char(&mut r, '/');
                assert(r@ =~= seq!['/']);
                r
            } else {
                let d = slice_chars(&pc, 0, k);
                string_of(&d)
            }
        },
    }
}

/// The number of `/` in `p`.
pub fn path_depth(p: &String) -> (r: usize)
    ensures
        r == depth(p@),
{
    let pc = chars_of(p.as_str());
    let mut n: usize = 0;
    let mut i: usize = 0;
    while i < pc.len()
        invariant
            i <= pc.len(),
            pc@ == p@,
            n == depth(p@.subrange(0, i as int)),
            n <= i,
        decreases pc.len() - i,
    {
        let ghost q = p@.subrange(0, i as int + 1);
        assert(q.drop_last() =~= p@.subrange(0, i as int));
        if pc[i] == '/' {
            n = n + 1;
        }
        i = i + 1;
    }
    assert(p@.subrange(0, p@.len() as int) =~= p@);
    n
}

/// `a` is a folder above `p`.
pub fn is_ancestor_of(a: &String, p: &String) -> (r: bool)
    ensures
        r == is_ancestor(a@, p@),
{
    let ac = chars_of(a.as_str());
    let pc = chars_of(p.as_str());
    if ac.len() >= pc.len() {
        return false;
    }
    let mut i: usize = 0;
    while i < ac.len()
        invariant
            i <= ac.len() < pc.len(),
            ac@ == a@,
            pc@ == p@,
            p@.subrange(0, i as int) == a@.subrange(0, i as int),
        decreases ac.len() - i,
    {
        if ac[i] != pc[i] {
            assert(p@.subrange(0, a@.len() as int)[i as int] != a@[i as int]);
            return false;
        }
        i = i + 1;
        assert(p@.subrange(0, i as int) =~= a@.subrange(0, i as int));
    }
    assert(a@.subrange(0, a@.len() as int) =~= a@);
    pc[ac.len()] == '/'
}

} // verus!
