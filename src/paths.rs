use vstd::prelude::*;

verus! {

/// The name of the metadata directory kept under the root.
pub const ARK_FOLDER: &'static str = ".ark";

/// The name of the index document inside the metadata directory.
pub const INDEX_PATH: &'static str = "index";

/// Whether a directory entry with this name takes part in the index: hidden
/// names (a leading `.`) do not, and neither does anything beneath them.
pub open spec fn visible_name(name: Seq<char>) -> bool {
    !(name.len() > 0 && name[0] == '.')
}

/// Whether position `i` of a path starts one of its components.
pub open spec fn starts_component(p: Seq<char>, i: int) -> bool {
    i == 0 || p[i - 1] == '/'
}

/// A path that the index may hold: relative, non-empty, without empty
/// components, and with no component that is hidden (which also rules out
/// `.` and `..`, so the path stays under the root).
pub open spec fn indexable_path(p: Seq<char>) -> bool {
    &&& p.len() > 0
    &&& p[p.len() - 1] != '/'
    &&& forall|i: int|
        0 <= i < p.len() && #[trigger] starts_component(p, i) ==> p[i] != '.' && p[i] != '/'
}

/// Where the part of a path below `root` begins.
pub open spec fn root_prefix_len(root: Seq<char>) -> int {
    if root.len() > 0 && root[root.len() - 1] == '/' {
        root.len() as int
    } else {
        (root.len() + 1) as int
    }
}

/// Whether `p` names a location strictly below the directory `root`.
pub open spec fn strictly_under(root: Seq<char>, p: Seq<char>) -> bool {
    &&& p.len() > root_prefix_len(root)
    &&& p.subrange(0, root.len() as int) == root
    &&& root_prefix_len(root) == root.len() + 1 ==> p[root.len() as int] == '/'
}

/// The part of `p` below `root`.
pub open spec fn below(root: Seq<char>, p: Seq<char>) -> Seq<char> {
    p.subrange(root_prefix_len(root), p.len() as int)
}

/// Whether `p` is the directory `dir` or lies beneath it.
pub open spec fn within(dir: Seq<char>, p: Seq<char>) -> bool {
    p == dir || strictly_under(dir, p)
}

/// Whether an entry of this name should be indexed (it is not hidden).
pub fn should_index(name: &str) -> (r: bool)
    ensures
        r == visible_name(name@),
{
    if name.unicode_len() == 0 {
        true
    } else {
        name.get_char(0) != '.'
    }
}

/// Whether the index may hold this relative path.
pub fn is_indexable(p: &str) -> (r: bool)
    ensures
        r == indexable_path(p@),
{
    let n = p.unicode_len();
    if n == 0 {
        return false;
    }
    if p.get_char(n - 1) == '/' {
        return false;
    }
    let mut i: usize = 0;
    let mut prev: char = '/';
    while i < n
        invariant
            n == p@.len(),
            0 <= i <= n,
            i > 0 ==> prev == p@[i - 1],
            i == 0 ==> prev == '/',
            forall|j: int|
                0 <= j < i && #[trigger] starts_component(p@, j) ==> p@[j] != '.' && p@[j] != '/',
        decreases n - i,
    {
        let c = p.get_char(i);
        if prev == '/' && (c == '.' || c == '/') {
            assert(starts_component(p@, i as int));
            return false;
        }
        prev = c;
        i = i + 1;
    }
    true
}

/// Whether `s` begins with `prefix`.
fn has_prefix(s: &str, prefix: &str) -> (r: bool)
    ensures
        r == (prefix@.len() <= s@.len() && s@.subrange(0, prefix@.len() as int) == prefix@),
{
    let n = prefix.unicode_len();
    let m = s.unicode_len();
    if n > m {
        return false;
    }
    let mut i: usize = 0;
    while i < n
        invariant
            n == prefix@.len(),
            m == s@.len(),
            n <= m,
            0 <= i <= n,
            forall|j: int| 0 <= j < i ==> s@[j] == prefix@[j],
        decreases n - i,
    {
        if s.get_char(i) != prefix.get_char(i) {
            assert(s@.subrange(0, n as int)[i as int] != prefix@[i as int]);
            return false;
        }
        i = i + 1;
    }
    assert(s@.subrange(0, n as int) =~= prefix@);
    true
}

/// Whether two texts are equal.
pub fn same_text(a: &str, b: &str) -> (r: bool)
    ensures
        r == (a@ == b@),
{
    if a.unicode_len() != b.unicode_len() {
        return false;
    }
    let r = has_prefix(a, b);
    assert(a@.subrange(0, a@.len() as int) =~= a@);
    r
}

/// Whether `p` lies strictly below the directory `root`.
pub fn is_strictly_under(root: &str, p: &str) -> (r: bool)
    ensures
        r == strictly_under(root@, p@),
{
    let rl = root.unicode_len();
    let pl = p.unicode_len();
    let slash = rl > 0 && root.get_char(rl - 1) == '/';
    let start = if slash {
        rl
    } else {
        if rl == usize::MAX {
            return false;
        }
        rl + 1
    };
    if pl <= start {
        return false;
    }
    if !has_prefix(p, root) {
        return false;
    }
    if !slash && p.get_char(rl) != '/' {
        return false;
    }
    true
}

/// The part of `p` below `root`, or `None` where `p` is not strictly below it.
pub fn relative_path(root: &str, p: &str) -> (r: Option<String>)
    ensures
        strictly_under(root@, p@) ==> (r matches Some(s) && s@ == below(root@, p@)),
        !strictly_under(root@, p@) ==> r is None,
{
    if !is_strictly_under(root, p) {
        return None;
    }
    let rl = root.unicode_len();
    let pl = p.unicode_len();
    let start = if rl > 0 && root.get_char(rl - 1) == '/' {
        rl
    } else {
        rl + 1
    };
    let rest = p.substring_char(start, pl);
    Some(rest.to_owned())
}

/// Whether `p` is the directory `dir` or lies beneath it.
pub fn is_within(dir: &str, p: &str) -> (r: bool)
    ensures
        r == within(dir@, p@),
{
    let d = dir.unicode_len();
    if d == p.unicode_len() && has_prefix(p, dir) {
        assert(p@ =~= p@.subrange(0, d as int));
        return true;
    }
    assert(p@ == dir@ ==> p@.subrange(0, d as int) =~= p@);
    is_strictly_under(dir, p)
}

} // verus!
