//! Text as the library needs it: equality of string slices, and paths
//! put together and taken apart by the rules of Unix.

use vstd::prelude::*;
use vstd::string::StringSliceAdditionalSpecFns;
use vstd::string::StrSliceExecFns;
use vstd::string::StringExecFns;

verus! {

/// Whether two string slices hold the same text.
pub fn str_eq(a: &str, b: &str) -> (same: bool)
    ensures
        same == (a@ == b@),
{
    let x = a.as_bytes();
    let y = b.as_bytes();
    proof {
        vstd::utf8::encode_utf8_decode_utf8(a@);
        vstd::utf8::encode_utf8_decode_utf8(b@);
    }
    if x.len() != y.len() {
        return false;
    }
    let len = x.len();
    let mut i: usize = 0;
    while i < len
        invariant
            i <= len,
            len == x@.len(),
            len == y@.len(),
            x@ == a.spec_bytes(),
            y@ == b.spec_bytes(),
            forall|k: int| 0 <= k < i ==> x@[k] == y@[k],
        decreases len - i,
    {
        if x[i] != y[i] {
            return false;
        }
        i += 1;
    }
    assert(x@ =~= y@);
    true
}

/// The path of `name` in the folder `dir`: an absolute `name` stands
/// for itself, and a slash comes between the two where `dir` is not
/// empty and does not end in one.
pub open spec fn joined(dir: Seq<char>, name: Seq<char>) -> Seq<char> {
    if name.len() > 0 && name[0] == '/' {
        name
    } else if dir.len() == 0 {
        name
    } else if dir.last() == '/' {
        dir + name
    } else {
        dir + seq!['/'] + name
    }
}

/// The path of `name` in the folder `dir`.
pub fn join_path(dir: &str, name: &str) -> (path: String)
    ensures
        path@ == joined(dir@, name@),
{
    let dir_len = dir.unicode_len();
    let name_len = name.unicode_len();
    if name_len > 0 && name.get_char(0) == '/' {
        return name.to_owned();
    }
    if dir_len == 0 {
        return name.to_owned();
    }
    let mut path = dir.to_owned();
    if dir.get_char(dir_len - 1) != '/' {
        proof {
            reveal_strlit("/");
        }
        path.append("/");
        assert(path@ =~= dir@ + seq!['/']);
    }
    path.append(name);
    path
}

/// `text` without the occurrences of `pattern`, which are looked for
/// from the left, each behind the one before. An empty pattern occurs
/// nowhere.
pub open spec fn removed(text: Seq<char>, pattern: Seq<char>) -> Seq<char>
    decreases text.len(),
{
    if pattern.len() == 0 || text.len() < pattern.len() {
        text
    } else if text.take(pattern.len() as int) == pattern {
        removed(text.skip(pattern.len() as int), pattern)
    } else {
        seq![text[0]] + removed(text.skip(1), pattern)
    }
}

/// `text` without the occurrences of `pattern`.
pub fn remove_all(text: &str, pattern: &str) -> (rest: String)
    ensures
        rest@ == removed(text@, pattern@),
{
    let n = text.unicode_len();
    let m = pattern.unicode_len();
    if m == 0 {
        return text.to_owned();
    }
    let mut rest = String::new();
    let mut i: usize = 0;
    assert(text@.skip(0) =~= text@);
    assert(rest@ + text@ =~= text@);
    while i < n
        invariant
            i <= n,
            n == text@.len(),
            m == pattern@.len(),
            m > 0,
            removed(text@, pattern@) == rest@ + removed(text@.skip(i as int), pattern@),
        decreases n - i,
    {
        let ghost tail = text@.skip(i as int);
        let ghost before = rest@;
        if n - i < m {
            rest.append(text.substring_char(i, n));
            proof {
                assert(text@.subrange(i as int, n as int) =~= tail);
                assert(text@.skip(n as int) =~= Seq::<char>::empty());
                assert(before + tail =~= before + tail + Seq::<char>::empty());
            }
            i = n;
        } else {
            let mut j: usize = 0;
            while j < m && text.get_char(i + j) == pattern.get_char(j)
                invariant
                    j <= m,
                    i + m <= n,
                    n == text@.len(),
                    m == pattern@.len(),
                    forall|k: int| 0 <= k < j ==> text@[i + k] == pattern@[k],
                decreases m - j,
            {
                j += 1;
            }
            if j == m {
                proof {
                    assert(tail.take(m as int) =~= pattern@);
                    assert(tail.skip(m as int) =~= text@.skip(i + m));
                }
                i += m;
            } else {
                rest.append(text.substring_char(i, i + 1));
                proof {
                    assert(tail.take(m as int)[j as int] != pattern@[j as int]);
                    assert(text@.subrange(i as int, i + 1) =~= seq![tail[0]]);
                    assert(tail.skip(1) =~= text@.skip(i + 1));
                    assert(before + (seq![tail[0]] + removed(tail.skip(1), pattern@)) =~= (before
                        + seq![tail[0]]) + removed(tail.skip(1), pattern@));
                }
                i += 1;
            }
        }
    }
    proof {
        assert(text@.skip(n as int) =~= Seq::<char>::empty());
        assert(rest@ + Seq::<char>::empty() =~= rest@);
    }
    rest
}

/// Where the last slash of `path` stands; -1 if it has none.
pub open spec fn last_slash(path: Seq<char>) -> int
    decreases path.len(),
{
    if path.len() == 0 {
        -1
    } else if path.last() == '/' {
        path.len() - 1
    } else {
        last_slash(path.drop_last())
    }
}

/// The last component of `path`: the name behind the last slash.
/// Slashes at the end do not count, nor does a `.` behind a slash. A
/// path that ends in `..`, the root, a lone `.` and the empty path have
/// no last component.
pub open spec fn final_component(path: Seq<char>) -> Option<Seq<char>>
    decreases path.len(),
{
    if path.len() == 0 {
        None
    } else {
        let slash = last_slash(path);
        let last = path.skip(slash + 1);
        if 0 <= slash < path.len() && (last.len() == 0 || last == seq!['.']) {
            final_component(path.take(slash))
        } else if last == seq!['.'] || last == seq!['.', '.'] {
            None
        } else {
            Some(last)
        }
    }
}

/// The last slash stands inside the path, and nothing behind it is a
/// slash.
pub proof fn lemma_last_slash(path: Seq<char>)
    ensures
        -1 <= last_slash(path) < path.len(),
        last_slash(path) >= 0 ==> path[last_slash(path)] == '/',
        forall|i: int| last_slash(path) < i < path.len() ==> path[i] != '/',
    decreases path.len(),
{
    if path.len() > 0 && path.last() != '/' {
        lemma_last_slash(path.drop_last());
        assert forall|i: int| last_slash(path) < i < path.len() implies path[i] != '/' by {
            if i < path.len() - 1 {
                assert(path.drop_last()[i] == path[i]);
            }
        }
    }
}

/// The last component of `path`, if it has one.
pub fn file_name_of(path: &str) -> (name: Option<String>)
    ensures
        name is Some <==> final_component(path@) is Some,
        name is Some ==> (name->Some_0)@ == final_component(path@)->Some_0,
{
    let mut end: usize = path.unicode_len();
    assert(path@.take(end as int) =~= path@);
    while end > 0
        invariant
            end <= path@.len(),
            final_component(path@) == final_component(path@.take(end as int)),
        decreases end,
    {
        let ghost prefix = path@.take(end as int);
        // Look for the last slash before `end`.
        let mut start: usize = end;
        assert(prefix.take(start as int) =~= prefix);
        while start > 0 && path.get_char(start - 1) != '/'
            invariant
                start <= end <= path@.len(),
                prefix == path@.take(end as int),
                last_slash(prefix) == last_slash(prefix.take(start as int)),
                forall|i: int| start <= i < end ==> path@[i] != '/',
            decreases start,
        {
            proof {
                assert(prefix.take(start as int).drop_last() =~= prefix.take(start - 1));
            }
            start -= 1;
        }
        proof {
            lemma_last_slash(prefix);
            if start > 0 {
                assert(prefix.take(start as int).last() == '/');
            }
            assert(last_slash(prefix) == start - 1);
            assert(prefix.skip(start as int) =~= path@.subrange(start as int, end as int));
        }
        let len = end - start;
        let dot = len == 1 && path.get_char(start) == '.';
        let dots = len == 2 && path.get_char(start) == '.' && path.get_char(start + 1) == '.';
        proof {
            let last = prefix.skip(start as int);
            assert(last.len() == len);
            if len >= 1 {
                assert(last[0] == path@[start as int]);
            }
            if len >= 2 {
                assert(last[1] == path@[start + 1]);
            }
            assert(dot <==> last =~= seq!['.']);
            assert(dots <==> last =~= seq!['.', '.']);
        }
        if start > 0 && (len == 0 || dot) {
            proof {
                assert(prefix.take(start - 1) =~= path@.take(start - 1));
            }
            end = start - 1;
        } else if dot || dots {
            return None;
        } else {
            return Some(path.substring_char(start, end).to_owned());
        }
    }
    None
}

/// Whether `a` comes before `b` when the two are compared byte by
/// byte: at the first byte in which they differ `a` has the smaller
/// one, or `a` ends there and `b` goes on.
pub open spec fn lex_less(a: Seq<u8>, b: Seq<u8>) -> bool
    decreases a.len(),
{
    if b.len() == 0 {
        false
    } else if a.len() == 0 {
        true
    } else if a[0] != b[0] {
        a[0] < b[0]
    } else {
        lex_less(a.skip(1), b.skip(1))
    }
}

/// Whether the text `a` comes before the text `b` in the order of
/// their bytes, which is the order of string slices.
pub fn text_less(a: &str, b: &str) -> (less: bool)
    ensures
        less == lex_less(a.spec_bytes(), b.spec_bytes()),
{
    let x = a.as_bytes();
    let y = b.as_bytes();
    let mut i: usize = 0;
    assert(x@.skip(0) =~= x@ && y@.skip(0) =~= y@);
    while i < x.len() && i < y.len()
        invariant
            i <= x@.len(),
            i <= y@.len(),
            x@ == a.spec_bytes(),
            y@ == b.spec_bytes(),
            lex_less(x@, y@) == lex_less(x@.skip(i as int), y@.skip(i as int)),
        decreases x@.len() - i,
    {
        proof {
            assert(x@.skip(i as int).skip(1) =~= x@.skip(i + 1));
            assert(y@.skip(i as int).skip(1) =~= y@.skip(i + 1));
        }
        if x[i] != y[i] {
            return x[i] < y[i];
        }
        i += 1;
    }
    i < y.len()
}

/// Of two texts at most one comes before the other.
pub proof fn lemma_lex_asymmetric(a: Seq<u8>, b: Seq<u8>)
    requires
        lex_less(a, b),
    ensures
        !lex_less(b, a),
    decreases a.len(),
{
    if a.len() > 0 && b.len() > 0 && a[0] == b[0] {
        lemma_lex_asymmetric(a.skip(1), b.skip(1));
    }
}

/// If `a` does not come before `b` and `b` does not come before `c`,
/// then `a` does not come before `c`.
pub proof fn lemma_lex_not_less_chain(a: Seq<u8>, b: Seq<u8>, c: Seq<u8>)
    requires
        !lex_less(a, b),
        !lex_less(b, c),
    ensures
        !lex_less(a, c),
    decreases a.len(),
{
    if a.len() > 0 && b.len() > 0 && c.len() > 0 {
        if a[0] == b[0] && b[0] == c[0] {
            lemma_lex_not_less_chain(a.skip(1), b.skip(1), c.skip(1));
        }
    }
}

} // verus!
