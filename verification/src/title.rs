//! The title of an entry of the table of contents: its own, or the stem of
//! the path of its file.

use vstd::prelude::*;

verus! {

/// The place after the last `c` in `s`; 0 where `s` holds none.
pub open spec fn after_last(s: Seq<char>, c: char) -> int
    decreases s.len(),
{
    if s.len() == 0 {
        0
    } else if s.last() == c {
        s.len() as int
    } else {
        after_last(s.drop_last(), c)
    }
}

/// The file name of a path: what follows its last `/`.
pub open spec fn file_name(path: Seq<char>) -> Seq<char> {
    path.skip(after_last(path, '/'))
}

/// The stem of a path: its file name without the extension, which starts at
/// the last `.` of the file name. A `.` at the start of the file name starts
/// no extension.
pub open spec fn stem(path: Seq<char>) -> Seq<char> {
    let file = file_name(path);
    let dot = after_last(file, '.');
    if dot > 1 {
        file.take(dot - 1)
    } else {
        file
    }
}

/// The title of an entry: its own where it has one, else the stem of the
/// path of its file.
pub open spec fn title_or_stem(title: Option<Seq<char>>, path: Seq<char>) -> Seq<char> {
    match title {
        Some(t) => t,
        None => stem(path),
    }
}

/// The place after the last `c` is `k` where `c` stands before `k` and
/// nowhere from `k` on.
proof fn lemma_after_last(s: Seq<char>, c: char, k: int)
    requires
        0 <= k <= s.len(),
        k > 0 ==> s[k - 1] == c,
        forall|j: int| k <= j < s.len() ==> s[j] != c,
    ensures
        after_last(s, c) == k,
    decreases s.len(),
{
    if s.len() > 0 && s.last() != c {
        let t = s.drop_last();
        assert forall|j: int| k <= j < t.len() implies t[j] != c by {
            assert(t[j] == s[j]);
        }
        if k > 0 {
            assert(t[k - 1] == s[k - 1]);
        }
        lemma_after_last(t, c, k);
    } else if s.len() > 0 {
        if k < s.len() {
            assert(s[s.len() - 1] != c);
        }
    }
}

/// The place after the last `c` among the characters of `text` from `from`
/// on, counted from the start of `text`; `from` where there is none.
fn place_after_last(text: &str, from: usize, c: char) -> (r: usize)
    requires
        from <= text@.len(),
    ensures
        from <= r <= text@.len(),
        r == from + after_last(text@.skip(from as int), c),
{
    let n = text.unicode_len();
    let mut at: usize = n;
    while at > from && text.get_char(at - 1) != c
        invariant
            from <= at <= n,
            n == text@.len(),
            forall|j: int| at <= j < n ==> text@[j] != c,
        decreases at,
    {
        at -= 1;
    }
    proof {
        let rest = text@.skip(from as int);
        assert forall|j: int| at - from <= j < rest.len() implies rest[j] != c by {
            assert(rest[j] == text@[from + j]);
        }
        if at > from {
            assert(rest[at - from - 1] == text@[at - 1]);
        }
        lemma_after_last(rest, c, at - from);
    }
    at
}

/// The stem of a path.
pub fn path_stem(path: &str) -> (r: String)
    ensures
        r@ == stem(path@),
{
    let n = path.unicode_len();
    proof {
        assert(path@.skip(0) =~= path@);
    }
    let start = place_after_last(path, 0, '/');
    let dot = place_after_last(path, start, '.');
    let end = if dot - start > 1 {
        dot - 1
    } else {
        n
    };
    proof {
        let file = file_name(path@);
        if dot - start > 1 {
            assert(file.take(dot - 1 - start) =~= path@.subrange(start as int, dot - 1));
        } else {
            assert(file =~= path@.subrange(start as int, n as int));
        }
    }
    path.substring_char(start, end).to_owned()
}

/// The title of an entry of the table of contents whose file stands at
/// `path`.
pub fn entry_title(title: Option<String>, path: &str) -> (r: String)
    ensures
        r@ == title_or_stem(
            match title {
                Some(t) => Some(t@),
                None => None,
            },
            path@,
        ),
{
    match title {
        Some(t) => t,
        None => path_stem(path),
    }
}

} // verus!
