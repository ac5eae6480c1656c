//! Entry paths: relative, with `/` as the only separator.

use vstd::prelude::*;
use vstd::string::StrSliceExecFns;
use vstd::string::StringExecFns;

verus! {

/// Either separator is written `/`; every other character stays.
pub open spec fn unify(c: char) -> char {
    if c == '\\' {
        '/'
    } else {
        c
    }
}

/// Whether `c` separates the parts of a path.
pub open spec fn is_separator(c: char) -> bool {
    c == '/' || c == '\\'
}

/// How many separators stand at the front of `path`.
pub open spec fn leading_separators(path: Seq<char>) -> nat
    decreases path.len(),
{
    if path.len() > 0 && is_separator(path[0]) {
        1 + leading_separators(path.skip(1))
    } else {
        0
    }
}

/// The path as an archive records it: the separators at the front are
/// dropped, which makes it relative, and each remaining one is `/`.
pub open spec fn normalized(path: Seq<char>) -> Seq<char> {
    path.skip(leading_separators(path) as int).map_values(|c: char| unify(c))
}

/// A path in the form that `normalized` gives.
pub open spec fn is_normalized(path: Seq<char>) -> bool {
    &&& forall|i: int| 0 <= i < path.len() ==> path[i] != '\\'
    &&& path.len() > 0 ==> path[0] != '/'
}

/// Where the last part of `path` begins: behind its last `/`, or at 0.
pub open spec fn base_start(path: Seq<char>) -> nat
    decreases path.len(),
{
    if path.len() == 0 {
        0
    } else if path.last() == '/' {
        path.len()
    } else {
        base_start(path.drop_last())
    }
}

/// The last part of `path`: what follows its last `/`.
pub open spec fn base_name_of(path: Seq<char>) -> Seq<char> {
    path.skip(base_start(path) as int)
}

/// The count of leading separators is the first position that holds none.
pub proof fn lemma_leading_separators(path: Seq<char>, count: nat)
    requires
        count <= path.len(),
        forall|i: int| 0 <= i < count ==> is_separator(path[i]),
        count < path.len() ==> !is_separator(path[count as int]),
    ensures
        leading_separators(path) == count,
    decreases count,
{
    if count > 0 {
        let rest = path.skip(1);
        assert forall|i: int| 0 <= i < count - 1 implies is_separator(rest[i]) by {
            assert(rest[i] == path[i + 1]);
        }
        lemma_leading_separators(rest, (count - 1) as nat);
    }
}

/// The start of the last part lies within the path, and no `/` follows it.
pub proof fn lemma_base_start(path: Seq<char>)
    ensures
        base_start(path) <= path.len(),
        forall|i: int| base_start(path) <= i < path.len() ==> path[i] != '/',
        base_start(path) > 0 ==> path[base_start(path) - 1] == '/',
    decreases path.len(),
{
    if path.len() > 0 && path.last() != '/' {
        let front = path.drop_last();
        lemma_base_start(front);
        assert forall|i: int| base_start(path) <= i < path.len() implies path[i] != '/' by {
            if i < front.len() {
                assert(front[i] == path[i]);
            }
        }
        if base_start(path) > 0 {
            assert(front[base_start(path) - 1] == path[base_start(path) - 1]);
        }
    }
}

/// The start of the last part is fixed by what `lemma_base_start` states.
pub proof fn lemma_base_start_unique(path: Seq<char>, start: nat)
    requires
        start <= path.len(),
        forall|i: int| start <= i < path.len() ==> path[i] != '/',
        start > 0 ==> path[start - 1] == '/',
    ensures
        base_start(path) == start,
    decreases path.len(),
{
    if path.len() > 0 && path.last() != '/' {
        let front = path.drop_last();
        assert(start < path.len());
        assert forall|i: int| start <= i < front.len() implies front[i] != '/' by {
            assert(front[i] == path[i]);
        }
        if start > 0 {
            assert(front[start - 1] == path[start - 1]);
        }
        lemma_base_start_unique(front, start);
    }
}

/// What `normalized` gives is in normal form.
pub proof fn lemma_normalized_is_normalized(path: Seq<char>)
    ensures
        is_normalized(normalized(path)),
    decreases path.len(),
{
    let k = leading_separators(path);
    lemma_leading_bound(path);
    let out = normalized(path);
    if out.len() > 0 {
        assert(out[0] == unify(path[k as int]));
    }
}

/// The leading separators are separators, and the next character is none.
pub proof fn lemma_leading_bound(path: Seq<char>)
    ensures
        leading_separators(path) <= path.len(),
        forall|i: int| 0 <= i < leading_separators(path) ==> is_separator(path[i]),
        leading_separators(path) < path.len() ==> !is_separator(
            path[leading_separators(path) as int],
        ),
    decreases path.len(),
{
    if path.len() > 0 && is_separator(path[0]) {
        let rest = path.skip(1);
        lemma_leading_bound(rest);
        let k = leading_separators(rest);
        assert forall|i: int| 0 <= i < k + 1 implies is_separator(path[i]) by {
            if i > 0 {
                assert(rest[i - 1] == path[i]);
            }
        }
        if k + 1 < path.len() {
            assert(rest[k as int] == path[k as int + 1]);
        }
    }
}

/// A path in normal form is its own normal form.
pub proof fn lemma_normalized_fixed(path: Seq<char>)
    requires
        is_normalized(path),
    ensures
        normalized(path) == path,
{
    lemma_leading_separators(path, 0);
    assert(path.skip(0) =~= path);
    assert(normalized(path) =~= path);
}

/// Brings a path into the form that an archive records.
pub fn normalize_path(path: &str) -> (out: String)
    ensures
        out@ == normalized(path@),
        is_normalized(out@),
{
    let n: usize = path.unicode_len();
    let mut start: usize = 0;
    while start < n && (path.get_char(start) == '/' || path.get_char(start) == '\\')
        invariant
            start <= n,
            n == path@.len(),
            forall|i: int| 0 <= i < start ==> is_separator(path@[i]),
        decreases n - start,
    {
        start += 1;
    }
    proof {
        lemma_leading_separators(path@, start as nat);
    }
    let mut out = String::new();
    let mut i: usize = start;
    while i < n
        invariant
            start <= i <= n,
            n == path@.len(),
            out@ == path@.subrange(start as int, i as int).map_values(|c: char| unify(c)),
        decreases n - i,
    {
        let ghost before = out@;
        if path.get_char(i) == '\\' {
            out.append("/");
            proof {
                reveal_strlit("/");
                assert("/"@ =~= seq!['/']);
            }
        } else {
            out.append(path.substring_char(i, i + 1));
        }
        proof {
            assert(out@ =~= path@.subrange(start as int, i + 1).map_values(|c: char| unify(c)));
        }
        i += 1;
    }
    proof {
        assert(path@.subrange(start as int, n as int) =~= path@.skip(start as int));
        lemma_normalized_is_normalized(path@);
    }
    out
}

/// The last part of a path: what follows its last `/`.
pub fn base_name(path: &str) -> (name: String)
    ensures
        name@ == base_name_of(path@),
{
    let n: usize = path.unicode_len();
    let mut start: usize = n;
    while start > 0 && path.get_char(start - 1) != '/'
        invariant
            start <= n,
            n == path@.len(),
            forall|i: int| start <= i < n ==> path@[i] != '/',
        decreases start,
    {
        start -= 1;
    }
    proof {
        lemma_base_start_unique(path@, start as nat);
        assert(path@.subrange(start as int, n as int) =~= path@.skip(start as int));
    }
    String::from_str(path.substring_char(start, n))
}

} // verus!
