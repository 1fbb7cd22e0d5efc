//! Path strings: splitting a path into its components and taking
//! the file name off its end.  Both `/` and `\` separate components.

use vstd::prelude::*;

verus! {

/// Whether a character separates path components.
pub open spec fn is_sep(c: char) -> bool {
    c == '/' || c == '\\'
}

/// The number of leading characters of `s` before the first
/// separator (all of `s` when it has none).
pub open spec fn comp_len(s: Seq<char>) -> nat
    decreases s.len(),
{
    if s.len() == 0 || is_sep(s[0]) {
        0
    } else {
        1 + comp_len(s.drop_first())
    }
}

/// The prefix before the first separator is never longer than the
/// string.
pub proof fn lemma_comp_len_le(s: Seq<char>)
    ensures
        comp_len(s) <= s.len(),
    decreases s.len(),
{
    if s.len() == 0 || is_sep(s[0]) {
    } else {
        lemma_comp_len_le(s.drop_first());
    }
}

/// The non-empty components of a path string, in order; separators
/// and empty components are dropped.
pub open spec fn split_comps(s: Seq<char>) -> Seq<Seq<char>>
    decreases s.len(),
    via split_comps_dec
{
    if s.len() == 0 {
        Seq::empty()
    } else if is_sep(s[0]) {
        split_comps(s.drop_first())
    } else {
        seq![s.take(comp_len(s) as int)] + split_comps(s.skip(comp_len(s) as int))
    }
}

#[via_fn]
proof fn split_comps_dec(s: Seq<char>) {
    if s.len() > 0 && !is_sep(s[0]) {
        lemma_comp_len_le(s);
    }
}

/// When no separator stands in `s[i..j]` and `j` is the end or a
/// separator, the first component of `s[i..]` is exactly `s[i..j]`.
proof fn lemma_comp_len_exact(s: Seq<char>, m: int)
    requires
        0 <= m <= s.len(),
        forall|k: int| 0 <= k < m ==> !is_sep(#[trigger] s[k]),
        m == s.len() || is_sep(s[m]),
    ensures
        comp_len(s) == m,
    decreases m,
{
    if m == 0 {
    } else {
        let t = s.drop_first();
        lemma_comp_len_exact(t, m - 1);
    }
}

/// Splits a path string into its non-empty components.
pub fn split_path(path: &String) -> (r: Vec<String>)
    ensures
        r.deep_view() == split_comps(path@),
{
    let s = path.as_str();
    let n = s.unicode_len();
    let mut r: Vec<String> = Vec::new();
    let mut i: usize = 0;
    proof {
        assert(s@.skip(0) =~= s@);
        assert(r.deep_view() + split_comps(s@) =~= split_comps(s@));
    }
    while i < n
        invariant
            n == s@.len(),
            i <= n,
            r.deep_view() + split_comps(s@.skip(i as int)) == split_comps(s@),
        decreases n - i,
    {
        if is_sep_char(s.get_char(i)) {
            proof {
                assert(s@.skip(i as int).drop_first() =~= s@.skip(i + 1));
            }
            i += 1;
        } else {
            let mut j = i + 1;
            while j < n && !is_sep_at(s, j)
                invariant
                    i < j <= n,
                    n == s@.len(),
                    forall|k: int| i <= k < j ==> !is_sep(#[trigger] s@[k]),
                decreases n - j,
            {
                j += 1;
            }
            let comp = s.substring_char(i, j).to_owned();
            let ghost suffix = s@.skip(i as int);
            proof {
                assert forall|k: int| 0 <= k < j - i implies !is_sep(#[trigger] suffix[k]) by {
                    assert(suffix[k] == s@[k + i]);
                }
                assert(j - i == suffix.len() || is_sep(suffix[j - i]));
                lemma_comp_len_exact(suffix, j - i);
                assert(suffix.take(j - i) =~= s@.subrange(i as int, j as int));
                assert(suffix.skip(j - i) =~= s@.skip(j as int));
            }
            let ghost r0 = r.deep_view();
            r.push(comp);
            proof {
                assert(r.deep_view() =~= r0.push(comp@));
                assert(split_comps(suffix) == seq![comp@] + split_comps(s@.skip(j as int)));
                assert(r0.push(comp@) + split_comps(s@.skip(j as int)) =~= r0 + split_comps(
                    suffix,
                ));
            }
            i = j;
        }
    }
    proof {
        assert(s@.skip(n as int) =~= Seq::<char>::empty());
        assert(r.deep_view() + split_comps(s@.skip(n as int)) =~= r.deep_view());
    }
    r
}

/// Whether this character separates path components, executably.
pub fn is_sep_char(c: char) -> (r: bool)
    ensures
        r == is_sep(c),
{
    c == '/' || c == '\\'
}

/// Whether the character at `j` separates path components.
fn is_sep_at(s: &str, j: usize) -> (r: bool)
    requires
        j < s@.len(),
    ensures
        r == is_sep(s@[j as int]),
{
    is_sep_char(s.get_char(j))
}

/// The suffix of `s` after its last separator; all of `s` when it
/// has none.
pub open spec fn after_last_sep(s: Seq<char>) -> Seq<char>
    decreases s.len(),
{
    if s.len() == 0 {
        Seq::empty()
    } else if is_sep(s.last()) {
        Seq::empty()
    } else {
        after_last_sep(s.drop_last()).push(s.last())
    }
}

/// The file name of a path string: everything after the last
/// separator, possibly empty.
pub fn get_file_name(path: &String) -> (r: String)
    ensures
        r@ == after_last_sep(path@),
{
    let s = path.as_str();
    let n = s.unicode_len();
    let mut i = n;
    while i > 0 && !is_sep_at(s, i - 1)
        invariant
            i <= n,
            n == s@.len(),
            forall|k: int| i <= k < n ==> !is_sep(#[trigger] s@[k]),
        decreases i,
    {
        i -= 1;
    }
    let r = s.substring_char(i, n).to_owned();
    proof {
        lemma_after_last_sep(s@, i as int);
        assert(r@ == s@.subrange(i as int, n as int));
    }
    r
}

/// When everything from `i` on is free of separators and `i` is the
/// start or follows a separator, the suffix after the last separator
/// is exactly `s[i..]`.
proof fn lemma_after_last_sep(s: Seq<char>, i: int)
    requires
        0 <= i <= s.len(),
        forall|k: int| i <= k < s.len() ==> !is_sep(#[trigger] s[k]),
        i == 0 || is_sep(s[i - 1]),
    ensures
        after_last_sep(s) == s.subrange(i, s.len() as int),
    decreases s.len(),
{
    if s.len() == 0 {
        assert(s.subrange(0, 0) =~= Seq::<char>::empty());
    } else if i == s.len() {
        assert(is_sep(s.last()));
        assert(s.subrange(i, s.len() as int) =~= Seq::<char>::empty());
    } else {
        assert(!is_sep(s.last()));
        let t = s.drop_last();
        lemma_after_last_sep(t, if i <= t.len() {
            i
        } else {
            t.len() as int
        });
        assert(i <= t.len());
        assert(t.subrange(i, t.len() as int) =~= s.subrange(i, s.len() as int).drop_last());
        assert(after_last_sep(s) =~= s.subrange(i, s.len() as int));
    }
}

/// The path string with its file name replaced: everything up to
/// and including the last separator, then the new name.
pub fn replace_file_name(path: &String, new_name: &String) -> (r: String)
    ensures
        r@ == path@.take(path@.len() - after_last_sep(path@).len()) + new_name@,
{
    let s = path.as_str();
    let n = s.unicode_len();
    let mut i = n;
    while i > 0 && !is_sep_at(s, i - 1)
        invariant
            i <= n,
            n == s@.len(),
            forall|k: int| i <= k < n ==> !is_sep(#[trigger] s@[k]),
        decreases i,
    {
        i -= 1;
    }
    let mut r = s.substring_char(0, i).to_owned();
    r.append(new_name.as_str());
    proof {
        lemma_after_last_sep(s@, i as int);
        assert(s@.take(i as int) =~= s@.subrange(0, i as int));
        assert(s@.len() - after_last_sep(s@).len() == i);
    }
    r
}

} // verus!
