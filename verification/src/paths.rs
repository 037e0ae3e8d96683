//! Path normalization and decomposition.
//!
//! Upload paths must never expose platform path syntax: backslash separators
//! are rewritten to forward slashes and a Windows extended-length prefix is
//! stripped. Relative-path computation, basename extraction, and
//! component-wise tests (such as spotting a version-control metadata
//! component) are all specified over the character sequence of the path.

use vstd::prelude::*;

use crate::strutil::push_char;

verus! {

/// The path with every backslash separator replaced by a forward slash.
pub open spec fn sep_normalized(s: Seq<char>) -> Seq<char> {
    s.map_values(|c: char| if c == '\\' { '/' } else { c })
}

/// Whether the path begins with the Windows extended-length prefix `\\?\`.
pub open spec fn has_unc_prefix(s: Seq<char>) -> bool {
    s.len() >= 4 && s[0] == '\\' && s[1] == '\\' && s[2] == '?' && s[3] == '\\'
}

/// The path with a leading `\\?\` prefix removed, if present.
pub open spec fn strip_unc(s: Seq<char>) -> Seq<char> {
    if has_unc_prefix(s) {
        s.subrange(4, s.len() as int)
    } else {
        s
    }
}

/// The canonical upload representation of a path: prefix-free and
/// forward-slash separated.
pub open spec fn upload_path_of(s: Seq<char>) -> Seq<char> {
    sep_normalized(strip_unc(s))
}

/// Whether `pre` is a prefix of `s`.
pub open spec fn starts_with(s: Seq<char>, pre: Seq<char>) -> bool {
    pre.len() <= s.len() && forall|j: int| 0 <= j < pre.len() ==> s[j] == pre[j]
}

/// The index of the last `/` in the path, or -1 if there is none.
pub open spec fn last_slash(s: Seq<char>) -> int
    decreases s.len(),
{
    if s.len() == 0 {
        -1
    } else if s.last() == '/' {
        s.len() - 1
    } else {
        last_slash(s.drop_last())
    }
}

/// The final component of the path: everything after the last `/`.
pub open spec fn basename_of(s: Seq<char>) -> Seq<char> {
    s.subrange(last_slash(s) + 1, s.len() as int)
}

/// The enclosing directory of the path: everything before the last `/`,
/// or the empty path when there is no separator.
pub open spec fn parent_dir(s: Seq<char>) -> Seq<char> {
    if last_slash(s) >= 0 {
        s.subrange(0, last_slash(s))
    } else {
        s.subrange(0, 0)
    }
}

/// The path with any run of trailing `/` characters removed.
pub open spec fn trim_trailing(s: Seq<char>) -> Seq<char>
    decreases s.len(),
{
    if s.len() > 0 && s.last() == '/' {
        trim_trailing(s.drop_last())
    } else {
        s
    }
}

/// The path made relative to `root`: the root itself maps to the empty
/// path, a path under the root loses the root prefix and the separator,
/// and any other path is left as it is.
pub open spec fn rel_to_root(root: Seq<char>, path: Seq<char>) -> Seq<char> {
    if root.len() == 0 {
        path
    } else if path == root {
        Seq::empty()
    } else if starts_with(path, root.push('/')) {
        path.subrange(root.len() as int + 1, path.len() as int)
    } else {
        path
    }
}

/// Whether `name` occurs as a whole path component of `s`, starting at `i`.
pub open spec fn component_at(s: Seq<char>, name: Seq<char>, i: int) -> bool {
    &&& 0 <= i
    &&& i + name.len() <= s.len()
    &&& (forall|j: int| 0 <= j < name.len() ==> s[i + j] == name[j])
    &&& (i == 0 || s[i - 1] == '/')
    &&& (i + name.len() == s.len() || s[i + name.len()] == '/')
}

/// Whether `name` occurs anywhere in `s` as a whole path component.
pub open spec fn has_component(s: Seq<char>, name: Seq<char>) -> bool {
    exists|i: int| component_at(s, name, i)
}

/// Basic bounds on `last_slash`: it points at a `/` inside the path (or is
/// -1), and nothing after it is a `/`.
pub proof fn lemma_last_slash(s: Seq<char>)
    ensures
        -1 <= last_slash(s) < s.len(),
        last_slash(s) >= 0 ==> s[last_slash(s)] == '/',
        forall|k: int| last_slash(s) < k < s.len() ==> s[k] != '/',
    decreases s.len(),
{
    if s.len() == 0 {
    } else if s.last() == '/' {
    } else {
        lemma_last_slash(s.drop_last());
        assert(forall|k: int| 0 <= k < s.len() - 1 ==> s[k] == s.drop_last()[k]);
    }
}

/// Replaces every backslash in the string with a forward slash.
pub fn normalize_separators(s: &str) -> (r: String)
    ensures
        r@ == sep_normalized(s@),
{
    let n = s.unicode_len();
    let mut r = String::new();
    let mut i: usize = 0;
    while i < n
        invariant
            n == s@.len(),
            i <= n,
            r@ == sep_normalized(s@.take(i as int)),
        decreases n - i,
    {
        let c = s.get_char(i);
        if c == '\\' {
            push_char(&mut r, '/');
        } else {
            push_char(&mut r, c);
        }
        proof {
            let f = |c: char| if c == '\\' { '/' } else { c };
            assert(sep_normalized(s@.take(i + 1)) =~= sep_normalized(s@.take(i as int)).push(
                f(s@[i as int]),
            ));
        }
        i = i + 1;
    }
    proof {
        assert(s@.take(n as int) =~= s@);
    }
    r
}

/// Strips a leading `\\?\` prefix, then normalizes separators: the
/// resulting string is fit to hand to the remote side.
pub fn normalize_upload_path(s: &str) -> (r: String)
    ensures
        r@ == upload_path_of(s@),
{
    let n = s.unicode_len();
    if n >= 4 && s.get_char(0) == '\\' && s.get_char(1) == '\\' && s.get_char(2) == '?'
        && s.get_char(3) == '\\' {
        let rest = s.substring_char(4, n);
        normalize_separators(rest)
    } else {
        normalize_separators(s)
    }
}

/// A normalized upload path never contains a backslash and never retains
/// the extended-length prefix, whatever the input looked like.
pub proof fn lemma_upload_path_portable(s: Seq<char>)
    ensures
        forall|i: int| 0 <= i < upload_path_of(s).len() ==> upload_path_of(s)[i] != '\\',
        !has_unc_prefix(upload_path_of(s)),
{
    let u = upload_path_of(s);
    let f = |c: char| if c == '\\' { '/' } else { c };
    assert forall|i: int| 0 <= i < u.len() implies u[i] != '\\' by {
        assert(u[i] == f(strip_unc(s)[i]));
    }
    if u.len() >= 4 {
        assert(u[0] != '\\');
    }
}

/// Whether `pre` is a prefix of `s`, checked character by character.
pub fn starts_with_str(s: &str, pre: &str) -> (r: bool)
    ensures
        r == starts_with(s@, pre@),
{
    let np = pre.unicode_len();
    let ns = s.unicode_len();
    if np > ns {
        return false;
    }
    let mut i: usize = 0;
    while i < np
        invariant
            np == pre@.len(),
            ns == s@.len(),
            np <= ns,
            i <= np,
            forall|j: int| 0 <= j < i ==> s@[j] == pre@[j],
        decreases np - i,
    {
        if s.get_char(i) != pre.get_char(i) {
            return false;
        }
        i = i + 1;
    }
    true
}

/// Computes the root-relative form of a path, as `rel_to_root` describes.
pub fn relative_to_root(root: &str, path: &str) -> (r: String)
    ensures
        r@ == rel_to_root(root@, path@),
{
    let rl = root.unicode_len();
    let pl = path.unicode_len();
    if rl == 0 {
        return String::from_str(path);
    }
    if crate::strutil::str_eq_str(path, root) {
        return String::new();
    }
    if pl > rl && starts_with_str(path, root) && path.get_char(rl) == '/' {
        proof {
            let pre = root@.push('/');
            assert(pre.len() == rl + 1);
            assert(forall|j: int| 0 <= j < rl ==> pre[j] == root@[j]);
            assert(pre[rl as int] == '/');
            assert(starts_with(path@, pre));
        }
        return String::from_str(path.substring_char(rl + 1, pl));
    }
    proof {
        let pre = root@.push('/');
        if starts_with(path@, pre) {
            assert(path@[rl as int] == pre[rl as int]);
            assert(forall|j: int| 0 <= j < rl ==> path@[j] == pre[j] && pre[j] == root@[j]);
            assert(pl > rl && path@[rl as int] == '/');
            assert(starts_with(path@, root@));
        }
    }
    String::from_str(path)
}

/// The index of the last `/` in the string, if any.
fn last_slash_index(s: &str) -> (r: Option<usize>)
    ensures
        match r {
            Some(i) => last_slash(s@) == i,
            None => last_slash(s@) == -1,
        },
{
    let n = s.unicode_len();
    proof {
        assert(s@.take(n as int) =~= s@);
    }
    let mut i: usize = n;
    while i > 0
        invariant
            n == s@.len(),
            i <= n,
            last_slash(s@) == last_slash(s@.take(i as int)),
        decreases i,
    {
        let c = s.get_char(i - 1);
        proof {
            assert(s@.take(i as int).len() == i);
            assert(s@.take(i as int).last() == s@[i - 1]);
        }
        if c == '/' {
            return Some(i - 1);
        }
        proof {
            assert(s@.take(i as int).drop_last() =~= s@.take(i - 1));
        }
        i = i - 1;
    }
    None
}

/// The final component of the path.
pub fn basename(s: &str) -> (r: String)
    ensures
        r@ == basename_of(s@),
{
    let n = s.unicode_len();
    proof {
        lemma_last_slash(s@);
    }
    match last_slash_index(s) {
        Some(i) => String::from_str(s.substring_char(i + 1, n)),
        None => {
            proof {
                assert(s@.subrange(0, n as int) =~= s@);
            }
            String::from_str(s)
        },
    }
}

/// The enclosing directory of the path (empty when there is no separator).
pub fn parent_path(s: &str) -> (r: String)
    ensures
        r@ == parent_dir(s@),
{
    proof {
        lemma_last_slash(s@);
    }
    match last_slash_index(s) {
        Some(i) => String::from_str(s.substring_char(0, i)),
        None => {
            proof {
                assert(s@.subrange(0, 0) =~= Seq::<char>::empty());
            }
            String::new()
        },
    }
}

/// Removes trailing `/` characters, as `trim_trailing` describes.
pub fn trim_trailing_slashes(s: &str) -> (r: String)
    ensures
        r@ == trim_trailing(s@),
{
    let n = s.unicode_len();
    proof {
        assert(s@.take(n as int) =~= s@);
    }
    let mut e: usize = n;
    while e > 0 && s.get_char(e - 1) == '/'
        invariant
            n == s@.len(),
            e <= n,
            trim_trailing(s@) == trim_trailing(s@.take(e as int)),
        decreases e,
    {
        proof {
            assert(s@.take(e as int).len() == e);
            assert(s@.take(e as int).last() == s@[e - 1]);
            assert(s@.take(e as int).drop_last() =~= s@.take(e - 1));
        }
        e = e - 1;
    }
    proof {
        if e > 0 {
            assert(s@.take(e as int).last() == s@[e - 1]);
        }
    }
    String::from_str(s.substring_char(0, e))
}

/// Whether some whole component of the path is the version-control
/// metadata directory `.git`.
pub fn has_git_component(s: &str) -> (r: bool)
    ensures
        r == has_component(s@, ".git"@),
{
    proof {
        reveal_strlit(".git");
        assert(".git"@.len() == 4);
        assert(".git"@[0] == '.' && ".git"@[1] == 'g' && ".git"@[2] == 'i' && ".git"@[3] == 't');
    }
    let n = s.unicode_len();
    if n < 4 {
        proof {
            assert(!has_component(s@, ".git"@)) by {
                if has_component(s@, ".git"@) {
                    let i = choose|i: int| component_at(s@, ".git"@, i);
                    assert(i + 4 <= n);
                }
            }
        }
        return false;
    }
    let mut i: usize = 0;
    while i <= n - 4
        invariant
            n == s@.len(),
            n >= 4,
            i <= n,
            ".git"@.len() == 4,
            ".git"@[0] == '.' && ".git"@[1] == 'g' && ".git"@[2] == 'i' && ".git"@[3] == 't',
            forall|k: int| 0 <= k < i ==> !component_at(s@, ".git"@, k),
        decreases n - i,
    {
        let left_ok = i == 0 || s.get_char(i - 1) == '/';
        if left_ok && s.get_char(i) == '.' && s.get_char(i + 1) == 'g' && s.get_char(i + 2) == 'i'
            && s.get_char(i + 3) == 't' {
            let right_ok = i + 4 == n || s.get_char(i + 4) == '/';
            if right_ok {
                proof {
                    assert(component_at(s@, ".git"@, i as int)) by {
                        assert forall|j: int| 0 <= j < 4 implies s@[i + j] == ".git"@[j] by {
                            if j == 0 {
                                assert(s@[i + j] == '.');
                            } else if j == 1 {
                                assert(s@[i + j] == 'g');
                            } else if j == 2 {
                                assert(s@[i + j] == 'i');
                            } else {
                                assert(j == 3);
                                assert(s@[i + j] == 't');
                            }
                        }
                    }
                }
                return true;
            }
        }
        proof {
            assert(!component_at(s@, ".git"@, i as int));
        }
        i = i + 1;
    }
    proof {
        assert(!has_component(s@, ".git"@)) by {
            if has_component(s@, ".git"@) {
                let k = choose|k: int| component_at(s@, ".git"@, k);
                assert(k + 4 <= n);
                assert(k < i);
            }
        }
    }
    false
}

} // verus!
