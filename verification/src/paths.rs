//! Plain-text path arithmetic for the output path resolver.
//!
//! Locations are owned text: a path is a sequence of segments separated by
//! `/`, absolute when it starts with `/`. This is all the resolver needs:
//! stripping a base directory, joining, and replacing or trimming the final
//! segment. Paths are taken as written — only one trailing separator of a
//! base directory is trimmed, so a doubled separator or an interior `./`
//! names a different text than its normalized form; the URL builder
//! collapses `/./` where the original build would.

use vstd::prelude::*;

use crate::text::push_char;

verus! {

/// A directory name with one trailing separator trimmed, as joining treats it.
pub open spec fn norm_dir(b: Seq<char>) -> Seq<char> {
    if b.len() > 1 && b[b.len() - 1] == '/' {
        b.take(b.len() - 1)
    } else {
        b
    }
}

/// Joining a path onto a base directory: an absolute path replaces the base,
/// and otherwise exactly one separator stands between the two.
pub open spec fn spec_join(b: Seq<char>, r: Seq<char>) -> Seq<char> {
    let nb = norm_dir(b);
    if r.len() == 0 {
        nb
    } else if nb.len() == 0 {
        r
    } else if r[0] == '/' {
        r
    } else if nb == seq!['/'] {
        seq!['/'] + r
    } else {
        nb + seq!['/'] + r
    }
}

/// The remainder of `p` under the base directory `b`: everything after the
/// base and its separator, `Some(empty)` when `p` is the base itself, and
/// `None` when `p` does not lie under `b`.
pub open spec fn spec_strip_prefix(p: Seq<char>, b: Seq<char>) -> Option<Seq<char>> {
    let nb = norm_dir(b);
    if nb.len() == 0 {
        Some(p)
    } else if p == nb {
        Some(Seq::empty())
    } else if nb == seq!['/'] && p.len() > 1 && p[0] == '/' {
        Some(p.skip(1))
    } else if p.len() > nb.len() && p.take(nb.len() as int) == nb && p[nb.len() as int] == '/' {
        Some(p.skip(nb.len() as int + 1))
    } else {
        None
    }
}

/// The index of the last separator of `p`, if any.
pub open spec fn spec_last_slash(p: Seq<char>) -> Option<int> {
    if exists|i: int| 0 <= i < p.len() && p[i] == '/' {
        Some(choose|i: int|
            0 <= i < p.len() && p[i] == '/' && forall|j: int| i < j < p.len() ==> p[j] != '/')
    } else {
        None
    }
}

/// The final segment of `p`.
pub open spec fn spec_file_name(p: Seq<char>) -> Seq<char> {
    match spec_last_slash(p) {
        Some(i) => p.skip(i + 1),
        None => p,
    }
}

/// `p` without its final segment: the whole text up to the last separator,
/// just the root for a path directly under it, and empty when there is no
/// separator at all.
pub open spec fn spec_pop(p: Seq<char>) -> Seq<char> {
    match spec_last_slash(p) {
        Some(i) => if i == 0 {
            seq!['/']
        } else {
            p.take(i)
        },
        None => Seq::empty(),
    }
}

/// `p` with its final segment replaced by `name`.
pub open spec fn spec_set_file_name(p: Seq<char>, name: Seq<char>) -> Seq<char> {
    match spec_last_slash(p) {
        Some(i) => p.take(i + 1) + name,
        None => name,
    }
}

/// The index of the last `.` of the final segment of `p`, when the segment
/// has an extension: a `.` that begins the segment names no extension.
pub open spec fn spec_last_dot(p: Seq<char>) -> Option<int> {
    let start = match spec_last_slash(p) {
        Some(i) => i + 1,
        None => 0,
    };
    if exists|i: int| start < i < p.len() && p[i] == '.' {
        Some(choose|i: int|
            start < i < p.len() && p[i] == '.' && forall|j: int| i < j < p.len() ==> p[j] != '.')
    } else {
        None
    }
}

/// `p` with the extension of its final segment removed, if it has one.
pub open spec fn spec_drop_extension(p: Seq<char>) -> Seq<char> {
    match spec_last_dot(p) {
        Some(i) => p.take(i),
        None => p,
    }
}

/// Every `/./` left by joining a path onto a bare root collapsed to `/`,
/// scanning left to right.
pub open spec fn spec_collapse(p: Seq<char>) -> Seq<char>
    decreases p.len(),
{
    if p.len() < 3 {
        p
    } else if p[0] == '/' && p[1] == '.' && p[2] == '/' {
        seq!['/'] + spec_collapse(p.skip(3))
    } else {
        seq![p[0]] + spec_collapse(p.skip(1))
    }
}

/// Finds the last separator of `p`.
pub fn last_slash(p: &str) -> (r: Option<usize>)
    ensures
        match r {
            Some(i) => i < p@.len() && spec_last_slash(p@) == Some(i as int),
            None => spec_last_slash(p@) is None,
        },
{
    let n = p.unicode_len();
    let mut i = n;
    while i > 0
        invariant
            i <= n,
            n == p@.len(),
            forall|j: int| i <= j < n ==> p@[j] != '/',
        decreases i,
    {
        i = i - 1;
        if p.get_char(i) == '/' {
            proof {
                let w = choose|w: int|
                    0 <= w < p@.len() && p@[w] == '/' && forall|j: int|
                        w < j < p@.len() ==> p@[j] != '/';
                assert(w == i);
            }
            return Some(i);
        }
    }
    None
}

/// Whether `b` is a leading run of `p`, character for character.
fn has_prefix(p: &str, b: &str) -> (r: bool)
    ensures
        r == (p@.len() >= b@.len() && p@.take(b@.len() as int) == b@),
{
    let bn = b.unicode_len();
    if p.unicode_len() < bn {
        proof {
            assert(!(p@.len() >= b@.len()));
        }
        return false;
    }
    let mut i: usize = 0;
    while i < bn
        invariant
            i <= bn,
            bn == b@.len(),
            p@.len() >= b@.len(),
            forall|j: int| 0 <= j < i ==> p@[j] == b@[j],
        decreases bn - i,
    {
        if p.get_char(i) != b.get_char(i) {
            proof {
                assert(p@.take(b@.len() as int)[i as int] != b@[i as int]);
            }
            return false;
        }
        i = i + 1;
    }
    proof {
        assert(p@.take(b@.len() as int) =~= b@);
    }
    true
}

/// Whether two path texts are equal, character for character.
pub fn str_eq(a: &str, b: &str) -> (r: bool)
    ensures
        r == (a@ == b@),
{
    let n = a.unicode_len();
    if n != b.unicode_len() {
        return false;
    }
    let mut i: usize = 0;
    while i < n
        invariant
            i <= n,
            n == a@.len(),
            n == b@.len(),
            forall|j: int| 0 <= j < i ==> a@[j] == b@[j],
        decreases n - i,
    {
        if a.get_char(i) != b.get_char(i) {
            return false;
        }
        i = i + 1;
    }
    proof {
        assert(a@ =~= b@);
    }
    true
}

/// The base directory with one trailing separator trimmed.
fn norm_dir_exec(b: &str) -> (r: &str)
    ensures
        r@ == norm_dir(b@),
{
    let n = b.unicode_len();
    if n > 1 && b.get_char(n - 1) == '/' {
        b.substring_char(0, n - 1)
    } else {
        b
    }
}

/// Joins `rel` onto the directory `base`.
pub fn join(base: &str, rel: &str) -> (r: String)
    ensures
        r@ == spec_join(base@, rel@),
{
    let nb = norm_dir_exec(base);
    if rel.unicode_len() == 0 {
        return nb.to_owned();
    }
    if nb.unicode_len() == 0 {
        return rel.to_owned();
    }
    if rel.get_char(0) == '/' {
        return rel.to_owned();
    }
    let mut r = nb.to_owned();
    if !(nb.unicode_len() == 1 && nb.get_char(0) == '/') {
        push_char(&mut r, '/');
        proof {
            assert(r@ =~= norm_dir(base@) + seq!['/']);
        }
    } else {
        proof {
            assert(nb@ =~= seq!['/']);
        }
    }
    r.append(rel);
    proof {
        assert(r@ =~= spec_join(base@, rel@));
    }
    r
}

/// Strips the base directory `base` from `p`, if `p` lies under it.
pub fn strip_prefix(p: &str, base: &str) -> (r: Option<String>)
    ensures
        match r {
            Some(s) => spec_strip_prefix(p@, base@) == Some(s@),
            None => spec_strip_prefix(p@, base@) is None,
        },
{
    let nb = norm_dir_exec(base);
    let nbn = nb.unicode_len();
    let pn = p.unicode_len();
    if nbn == 0 {
        return Some(p.to_owned());
    }
    if pn == nbn && has_prefix(p, nb) {
        proof {
            assert(p@ =~= nb@);
        }
        return Some(String::new());
    }
    proof {
        if pn == nbn {
            assert(p@.take(nb@.len() as int) =~= p@);
            assert(p@ != nb@);
        }
    }
    if nbn == 1 && nb.get_char(0) == '/' && pn > 1 && p.get_char(0) == '/' {
        proof {
            assert(nb@ =~= seq!['/']);
        }
        return Some(p.substring_char(1, pn).to_owned());
    }
    if pn > nbn && has_prefix(p, nb) && p.get_char(nbn) == '/' {
        proof {
            assert(!(nb@ =~= seq!['/']) ==> nb@ != seq!['/']);
        }
        return Some(p.substring_char(nbn + 1, pn).to_owned());
    }
    None
}

/// The final segment of `p`.
pub fn file_name(p: &str) -> (r: String)
    ensures
        r@ == spec_file_name(p@),
{
    let n = p.unicode_len();
    match last_slash(p) {
        Some(i) => p.substring_char(i + 1, n).to_owned(),
        None => p.to_owned(),
    }
}

/// Removes the final segment of `p`.
pub fn pop_segment(p: &str) -> (r: String)
    ensures
        r@ == spec_pop(p@),
{
    match last_slash(p) {
        Some(i) => {
            if i == 0 {
                let mut r = String::new();
                push_char(&mut r, '/');
                proof {
                    assert(r@ =~= seq!['/']);
                }
                r
            } else {
                p.substring_char(0, i).to_owned()
            }
        },
        None => String::new(),
    }
}

/// Replaces the final segment of `p` with `name`.
pub fn set_file_name(p: &str, name: &str) -> (r: String)
    ensures
        r@ == spec_set_file_name(p@, name@),
{
    let n = p.unicode_len();
    match last_slash(p) {
        Some(i) => {
            proof {
                assert(i < n);
            }
            let mut r = p.substring_char(0, i + 1).to_owned();
            r.append(name);
            r
        },
        None => name.to_owned(),
    }
}

/// Removes the extension of the final segment of `p`, if it has one.
pub fn drop_extension(p: &str) -> (r: String)
    ensures
        r@ == spec_drop_extension(p@),
{
    let n = p.unicode_len();
    let start = match last_slash(p) {
        Some(i) => i + 1,
        None => 0,
    };
    let mut i = n;
    while i > start
        invariant
            start <= i <= n,
            n == p@.len(),
            start == (match spec_last_slash(p@) {
                Some(s) => s + 1,
                None => 0,
            }),
            forall|j: int| i <= j < n ==> p@[j] != '.',
        decreases i,
    {
        i = i - 1;
        if p.get_char(i) == '.' {
            if i > start {
                proof {
                    let w = choose|w: int|
                        start < w < p@.len() && p@[w] == '.' && forall|j: int|
                            w < j < p@.len() ==> p@[j] != '.';
                    assert(w == i);
                }
                return p.substring_char(0, i).to_owned();
            }
            proof {
                assert(forall|j: int| start < j < p@.len() ==> p@[j] != '.');
            }
            return p.to_owned();
        }
    }
    proof {
        assert(forall|j: int| start < j < p@.len() ==> p@[j] != '.');
    }
    p.to_owned()
}

/// Collapses every `/./` in `p` to `/`, scanning left to right.
pub fn collapse_dot_segments(p: &str) -> (r: String)
    ensures
        r@ == spec_collapse(p@),
{
    let n = p.unicode_len();
    let mut r = String::new();
    let mut i: usize = 0;
    proof {
        assert(p@.skip(0) =~= p@);
        assert(r@ + spec_collapse(p@) =~= spec_collapse(p@));
    }
    while i < n
        invariant
            i <= n,
            n == p@.len(),
            spec_collapse(p@) == r@ + spec_collapse(p@.skip(i as int)),
        decreases n - i,
    {
        if n >= 3 && i <= n - 3 && p.get_char(i) == '/' && p.get_char(i + 1) == '.' && p.get_char(
            i + 2,
        ) == '/' {
            push_char(&mut r, '/');
            proof {
                assert(p@.skip(i as int).skip(3) =~= p@.skip(i + 3));
                assert(p@.skip(i as int)[0] == '/' && p@.skip(i as int)[1] == '.' && p@.skip(
                    i as int,
                )[2] == '/');
                assert(spec_collapse(p@.skip(i as int)) == seq!['/'] + spec_collapse(p@.skip(i + 3)));
            }
            i = i + 3;
        } else {
            push_char(&mut r, p.get_char(i));
            proof {
                assert(p@.skip(i as int).skip(1) =~= p@.skip(i + 1));
                assert(p@.skip(i as int)[0] == p@[i as int]);
                if p@.skip(i as int).len() < 3 {
                    assert(spec_collapse(p@.skip(i + 1)) =~= p@.skip(i + 1));
                    assert(spec_collapse(p@.skip(i as int)) =~= seq![p@[i as int]] + spec_collapse(
                        p@.skip(i + 1),
                    ));
                } else {
                    assert(spec_collapse(p@.skip(i as int)) == seq![p@[i as int]] + spec_collapse(
                        p@.skip(i + 1),
                    ));
                }
            }
            i = i + 1;
        }
        proof {
            assert(spec_collapse(p@) == r@ + spec_collapse(p@.skip(i as int)));
        }
    }
    proof {
        assert(p@.skip(n as int) =~= Seq::<char>::empty());
        assert(r@ =~= spec_collapse(p@));
    }
    r
}

} // verus!
