//! Path policy for resolving module imports against a standard-library
//! root.
//!
//! Resolution tries the importing file's directory first and the standard
//! library second, adding a `.py` suffix when the imported name has no
//! extension.  Which candidate actually exists on disk is the caller's
//! I/O; this module computes the ordered candidate list and recognizes the
//! embedded-prototype paths.

use vstd::prelude::*;
use vstd::string::*;

verus! {

/// The standard-library gadget root.
#[derive(Debug)]
pub struct PyGadgets {
    pub path: String,
}

/// `base`, a separator, then `child`.
pub open spec fn joined(base: Seq<char>, child: Seq<char>) -> Seq<char> {
    base + seq!['/'] + child
}

/// The `.py` suffix.
pub open spec fn py_suffix() -> Seq<char> {
    seq!['.', 'p', 'y']
}

/// A dot occurs in the last path component: the name already carries an
/// extension and no `.py` suffix is tried.
pub open spec fn last_component_has_dot(s: Seq<char>) -> bool {
    exists|j: int|
        0 <= j < s.len() && #[trigger] s[j] == '.' && (forall|k: int|
            j < k < s.len() ==> s[k] != '/')
}

/// A dot occurs in `s` before position `i` with no separator after it.
spec fn dot_since_slash(s: Seq<char>, i: int) -> bool {
    exists|j: int|
        0 <= j < i && #[trigger] s[j] == '.' && (forall|k: int| j < k < i ==> s[k] != '/')
}

/// Whether the final path component of `child` contains a dot.
pub fn has_extension(child: &str) -> (r: bool)
    ensures
        r == last_component_has_dot(child@),
{
    let n = child.unicode_len();
    let mut i: usize = 0;
    let mut flag: bool = false;
    while i < n
        invariant
            n == child@.len(),
            i <= n,
            flag == dot_since_slash(child@, i as int),
        decreases n - i,
    {
        let c = child.get_char(i);
        let ghost s = child@;
        let ghost i0 = i as int;
        if c == '/' {
            flag = false;
            proof {
                if dot_since_slash(s, i0 + 1) {
                    let j = choose|j: int|
                        0 <= j < i0 + 1 && #[trigger] s[j] == '.' && (forall|k: int|
                            j < k < i0 + 1 ==> s[k] != '/');
                    assert(s[i0] != '/');
                }
            }
        } else if c == '.' {
            flag = true;
            proof {
                assert(s[i0] == '.');
                assert(dot_since_slash(s, i0 + 1));
            }
        } else {
            proof {
                if dot_since_slash(s, i0) {
                    let j = choose|j: int|
                        0 <= j < i0 && #[trigger] s[j] == '.' && (forall|k: int|
                            j < k < i0 ==> s[k] != '/');
                    assert(forall|k: int| j < k < i0 + 1 ==> s[k] != '/');
                    assert(dot_since_slash(s, i0 + 1));
                }
                if dot_since_slash(s, i0 + 1) {
                    let j = choose|j: int|
                        0 <= j < i0 + 1 && #[trigger] s[j] == '.' && (forall|k: int|
                            j < k < i0 + 1 ==> s[k] != '/');
                    assert(j != i0);
                    assert(dot_since_slash(s, i0));
                }
            }
        }
        i = i + 1;
    }
    flag
}

/// `base`, `/`, `child` as one owned path.
fn join_path(base: &str, child: &str) -> (r: String)
    ensures
        r@ == joined(base@, child@),
{
    let mut s: String = base.to_owned();
    s.append("/");
    s.append(child);
    proof {
        reveal_strlit("/");
        assert("/"@ =~= seq!['/']);
        assert(s@ =~= joined(base@, child@));
    }
    s
}

impl PyGadgets {
    /// A resolver rooted at the given standard-library directory.
    pub fn from_root(path: String) -> (r: PyGadgets)
        ensures
            r.path@ == path@,
    {
        PyGadgets { path }
    }

    /// The ordered candidate paths for `child` imported from the directory
    /// `parent`: first relative to `parent`, then relative to the standard
    /// library, each followed by a `.py` variant when the imported name
    /// carries no extension.  The caller takes the first candidate that
    /// exists.
    pub fn canonicalize(&self, parent: &str, child: &str) -> (r: Vec<String>)
        ensures
            last_component_has_dot(child@) ==> r@.len() == 2 && r@[0]@ == joined(parent@, child@)
                && r@[1]@ == joined(self.path@, child@),
            !last_component_has_dot(child@) ==> r@.len() == 4 && r@[0]@ == joined(parent@, child@)
                && r@[1]@ == joined(parent@, child@) + py_suffix() && r@[2]@ == joined(
                self.path@,
                child@,
            ) && r@[3]@ == joined(self.path@, child@) + py_suffix(),
    {
        let with_ext = has_extension(child);
        let mut r: Vec<String> = Vec::new();
        let first = join_path(parent, child);
        if with_ext {
            r.push(first);
            r.push(join_path(self.path.as_str(), child));
        } else {
            let mut first_py = first.clone();
            first_py.append(".py");
            let second = join_path(self.path.as_str(), child);
            let mut second_py = second.clone();
            second_py.append(".py");
            r.push(first);
            r.push(first_py);
            r.push(second);
            r.push(second_py);
            proof {
                reveal_strlit(".py");
                assert(".py"@ =~= py_suffix());
            }
        }
        r
    }

    /// Whether this path is one of the embedded-prototype files: its
    /// components end with `EMBED.py`, or with `zkpyc/stdlib/EMBED.py`.
    pub fn is_embed(&self, p: &str) -> (r: bool)
        ensures
            r == (ends_with_component(p@, embed_name()) || ends_with_component(
                p@,
                embed_stdlib_name(),
            )),
    {
        proof {
            reveal_strlit("EMBED.py");
            assert("EMBED.py"@ =~= embed_name());
            reveal_strlit("zkpyc/stdlib/EMBED.py");
            assert("zkpyc/stdlib/EMBED.py"@ =~= embed_stdlib_name());
        }
        str_ends_with_component(p, "EMBED.py") || str_ends_with_component(
            p,
            "zkpyc/stdlib/EMBED.py",
        )
    }
}

/// The embedded-prototype file name.
pub open spec fn embed_name() -> Seq<char> {
    seq!['E', 'M', 'B', 'E', 'D', '.', 'p', 'y']
}

/// The embedded-prototype path inside an installed standard library.
pub open spec fn embed_stdlib_name() -> Seq<char> {
    seq![
        'z',
        'k',
        'p',
        'y',
        'c',
        '/',
        's',
        't',
        'd',
        'l',
        'i',
        'b',
        '/',
        'E',
        'M',
        'B',
        'E',
        'D',
        '.',
        'p',
        'y',
    ]
}

/// `s` ends with `suffix` on a path-component boundary.
pub open spec fn ends_with_component(s: Seq<char>, suffix: Seq<char>) -> bool {
    &&& s.len() >= suffix.len()
    &&& s.skip(s.len() - suffix.len()) == suffix
    &&& (s.len() == suffix.len() || s[s.len() - suffix.len() - 1] == '/')
}

/// Whether `p` ends with `suffix` on a component boundary.
pub fn str_ends_with_component(p: &str, suffix: &str) -> (r: bool)
    ensures
        r == ends_with_component(p@, suffix@),
{
    let n = p.unicode_len();
    let m = suffix.unicode_len();
    if n < m {
        return false;
    }
    let mut k: usize = 0;
    while k < m
        invariant
            n == p@.len(),
            m == suffix@.len(),
            m <= n,
            k <= m,
            forall|q: int| 0 <= q < k ==> p@[n - m + q] == suffix@[q],
        decreases m - k,
    {
        if p.get_char(n - m + k) != suffix.get_char(k) {
            proof {
                assert(p@.skip(n - m as int)[k as int] != suffix@[k as int]);
            }
            return false;
        }
        k = k + 1;
    }
    proof {
        assert(p@.skip(n - m as int) =~= suffix@);
    }
    if n == m {
        true
    } else {
        p.get_char(n - m - 1) == '/'
    }
}

} // verus!
