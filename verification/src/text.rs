//! Prefixes of texts, and paths.

use vstd::prelude::*;
use vstd::string::{StrSliceExecFns, StringExecFns};

verus! {

/// Does the text start with the prefix?
pub fn starts_with(text: &str, prefix: &str) -> (result: bool)
    ensures
        result == prefix@.is_prefix_of(text@),
{
    let n: usize = prefix.unicode_len();
    if text.unicode_len() < n {
        return false;
    }
    let mut i: usize = 0;
    while i < n
        invariant
            i <= n == prefix@.len() <= text@.len(),
            forall|j: int| 0 <= j < i ==> prefix@[j] == text@[j],
        decreases n - i,
    {
        if prefix.get_char(i) != text.get_char(i) {
            assert(text@.subrange(0, n as int)[i as int] == text@[i as int]);
            return false;
        }
        i = i + 1;
    }
    assert(prefix@ =~= text@.subrange(0, n as int));
    true
}

/// A path, seen from a directory: an absolute path is itself, and a relative one follows the
/// directory after a slash.
pub open spec fn joined(dir: Seq<char>, path: Seq<char>) -> Seq<char> {
    if path.len() > 0 && path[0] == '/' {
        path
    } else if dir.len() == 0 || dir.last() == '/' {
        dir + path
    } else {
        dir.push('/') + path
    }
}

/// Joins a directory and a path.
pub fn join(dir: &str, path: &str) -> (result: String)
    ensures
        result@ == joined(dir@, path@),
{
    if path.unicode_len() > 0 && path.get_char(0) == '/' {
        return path.to_owned();
    }
    let mut result = dir.to_owned();
    let len: usize = dir.unicode_len();
    if len > 0 && dir.get_char(len - 1) != '/' {
        result.append("/");
        proof {
            reveal_strlit("/");
            assert("/"@ =~= seq!['/']);
            assert(dir@ + "/"@ =~= dir@.push('/'));
        }
    }
    result.append(path);
    result
}

/// An absolute path is joined to nothing. Another path comes after the directory, with one slash
/// between the two unless the directory is empty or ends with one; nothing is lost or added.
pub proof fn paths_are_joined(dir: Seq<char>, path: Seq<char>)
    ensures
        path.len() > 0 && path[0] == '/' ==> joined(dir, path) == path,
        !(path.len() > 0 && path[0] == '/') ==> {
            let n = if dir.len() == 0 || dir.last() == '/' {
                dir.len()
            } else {
                dir.len() + 1
            };
            &&& joined(dir, path).len() == n + path.len()
            &&& joined(dir, path).take(dir.len() as int) == dir
            &&& joined(dir, path).skip(n as int) == path
            &&& n > dir.len() ==> joined(dir, path)[dir.len() as int] == '/'
        },
{
    if !(path.len() > 0 && path[0] == '/') {
        let n = if dir.len() == 0 || dir.last() == '/' {
            dir.len()
        } else {
            dir.len() + 1
        };
        assert(joined(dir, path).take(dir.len() as int) =~= dir);
        assert(joined(dir, path).skip(n as int) =~= path);
    }
}

} // verus!
