//! Statistics files are stored as JSON beside the projects; before
//! one is handed to the interactive surface its text is checked to
//! be well-formed JSON, and rejected otherwise.  A statistics file
//! is named by its timestamp, `date T time .json` with dashes inside
//! the time; for display the `T` becomes a space and the dashes of
//! the time become colons, and the display name turns back into the
//! file name ([`lemma_file_name_round_trip`]).

use crate::digits::push_char;
use vstd::prelude::*;

verus! {

/// Whether a text parses as JSON; the verdict of the JSON parser,
/// which depends on the text alone.
pub uninterp spec fn json_ok(s: Seq<char>) -> bool;

/// Relies on serde_json::from_str::<Value>: whether the text parses
/// as JSON depends on the text alone.
#[verifier::external_body]
fn is_valid_json(content: &String) -> (r: bool)
    ensures
        r == json_ok(content@),
{
    serde_json::from_str::<serde_json::Value>(content).is_ok()
}

/// Hands the text back when it is well-formed JSON, and rejects it
/// otherwise.
pub fn validate_json_text(content: String) -> (r: Option<String>)
    ensures
        r == (if json_ok(content@) {
            Some(content)
        } else {
            Option::<String>::None
        }),
{
    if is_valid_json(&content) {
        Some(content)
    } else {
        None
    }
}

/// The characters of `s` with every `from` replaced by `to`.
pub open spec fn replace_char(s: Seq<char>, from: char, to: char) -> Seq<char> {
    s.map_values(
        |c: char|
            if c == from {
                to
            } else {
                c
            },
    )
}

/// How many times `c` occurs in `s`.
pub open spec fn count_char(s: Seq<char>, c: char) -> nat
    decreases s.len(),
{
    if s.len() == 0 {
        0
    } else {
        (if s[0] == c {
            1nat
        } else {
            0nat
        }) + count_char(s.drop_first(), c)
    }
}

/// The position of the first occurrence of `c` in `s`; the length of
/// `s` when `c` does not occur.
pub open spec fn find_char(s: Seq<char>, c: char) -> int
    decreases s.len(),
{
    if s.len() == 0 {
        0
    } else if s[0] == c {
        0
    } else {
        1 + find_char(s.drop_first(), c)
    }
}

/// The first occurrence lies in the string and holds `c`, nothing
/// before it is `c`, and when `c` does not occur at all the count is
/// zero.
pub proof fn lemma_find_char(s: Seq<char>, c: char)
    ensures
        0 <= find_char(s, c) <= s.len(),
        find_char(s, c) < s.len() ==> s[find_char(s, c)] == c,
        forall|k: int| 0 <= k < find_char(s, c) ==> s[k] != c,
        find_char(s, c) == s.len() ==> count_char(s, c) == 0,
    decreases s.len(),
{
    if s.len() > 0 && s[0] != c {
        lemma_find_char(s.drop_first(), c);
        assert forall|k: int| 0 <= k < find_char(s, c) implies s[k] != c by {
            if k > 0 {
                assert(s.drop_first()[k - 1] == s[k]);
            }
        }
    }
}

/// When nothing before `m` is `c` and `m` is the end or holds `c`,
/// the first occurrence is exactly `m`.
pub proof fn lemma_find_char_exact(s: Seq<char>, c: char, m: int)
    requires
        0 <= m <= s.len(),
        forall|k: int| 0 <= k < m ==> s[k] != c,
        m == s.len() || s[m] == c,
    ensures
        find_char(s, c) == m,
    decreases m,
{
    if m > 0 {
        let t = s.drop_first();
        assert forall|k: int| 0 <= k < m - 1 implies t[k] != c by {
            assert(t[k] == s[k + 1]);
        }
        lemma_find_char_exact(t, c, m - 1);
    }
}

/// Counting distributes over concatenation.
pub proof fn lemma_count_char_concat(a: Seq<char>, b: Seq<char>, c: char)
    ensures
        count_char(a + b, c) == count_char(a, c) + count_char(b, c),
    decreases a.len(),
{
    if a.len() == 0 {
        assert(a + b =~= b);
    } else {
        assert((a + b).drop_first() =~= a.drop_first() + b);
        lemma_count_char_concat(a.drop_first(), b, c);
    }
}

/// A character occurs zero times exactly when no position holds it.
pub proof fn lemma_count_char_zero(s: Seq<char>, c: char)
    ensures
        (count_char(s, c) == 0) == (forall|k: int| 0 <= k < s.len() ==> s[k] != c),
    decreases s.len(),
{
    if s.len() > 0 {
        let t = s.drop_first();
        lemma_count_char_zero(t, c);
        if count_char(s, c) == 0 {
            assert forall|k: int| 0 <= k < s.len() implies s[k] != c by {
                if k > 0 {
                    assert(t[k - 1] == s[k]);
                }
            }
        }
        if forall|k: int| 0 <= k < s.len() ==> s[k] != c {
            assert forall|k: int| 0 <= k < t.len() implies t[k] != c by {
                assert(t[k] == s[k + 1]);
            }
        }
    }
}

/// Replacing one character by another leaves the count of a third
/// unchanged.
pub proof fn lemma_count_char_replace(s: Seq<char>, from: char, to: char, c: char)
    requires
        from != c,
        to != c,
    ensures
        count_char(replace_char(s, from, to), c) == count_char(s, c),
    decreases s.len(),
{
    if s.len() > 0 {
        assert(replace_char(s, from, to).drop_first() =~= replace_char(s.drop_first(), from, to));
        lemma_count_char_replace(s.drop_first(), from, to, c);
    }
}

/// The display name of a statistics file: defined when the name
/// carries the `.json` extension and its stem holds exactly one `T`;
/// the `T` becomes a space and the dashes of the time half become
/// colons.
pub open spec fn display_name(file: Seq<char>) -> Option<Seq<char>> {
    if file.len() >= 5 && file.skip(file.len() - 5) == ".json"@ && count_char(
        file.take(file.len() - 5),
        'T',
    ) == 1 {
        let stem = file.take(file.len() - 5);
        let i = find_char(stem, 'T');
        Some(stem.take(i) + seq![' '] + replace_char(stem.skip(i + 1), '-', ':'))
    } else {
        Option::<Seq<char>>::None
    }
}

/// The position of the first `c` among the first `m` characters of
/// `s`, with how often `c` occurs there; `m` as the position when it
/// does not occur.
fn scan_char(s: &str, m: usize, c: char) -> (r: (usize, usize))
    requires
        m <= s@.len(),
    ensures
        r.1 == count_char(s@.take(m as int), c),
        r.0 == find_char(s@.take(m as int), c),
        r.0 <= m,
{
    let ghost stem = s@.take(m as int);
    let mut cnt: usize = 0;
    let mut idx: usize = m;
    let mut found = false;
    let mut i: usize = 0;
    proof {
        assert(stem.skip(0) =~= stem);
    }
    while i < m
        invariant
            m <= s@.len(),
            stem == s@.take(m as int),
            cnt <= i <= m,
            cnt as nat + count_char(stem.skip(i as int), c) == count_char(stem, c),
            !found ==> idx == m && forall|k: int| 0 <= k < i ==> stem[k] != c,
            found ==> idx < i && stem[idx as int] == c && forall|k: int|
                0 <= k < idx ==> stem[k] != c,
        decreases m - i,
    {
        proof {
            assert(stem.skip(i as int)[0] == stem[i as int]);
            assert(stem[i as int] == s@[i as int]);
            assert(stem.skip(i as int).drop_first() =~= stem.skip(i + 1));
        }
        if s.get_char(i) == c {
            cnt += 1;
            if !found {
                found = true;
                idx = i;
            }
        }
        i += 1;
    }
    proof {
        assert(stem.skip(m as int) =~= Seq::<char>::empty());
        if found {
            lemma_find_char_exact(stem, c, idx as int);
        } else {
            lemma_find_char_exact(stem, c, m as int);
        }
    }
    (idx, cnt)
}

/// Appends to `out` the characters of `s` between `from` and `to`,
/// each `from_c` replaced by `to_c`.
fn push_replaced(out: &mut String, s: &str, from: usize, to: usize, from_c: char, to_c: char)
    requires
        from <= to <= s@.len(),
    ensures
        final(out)@ == old(out)@ + replace_char(s@.subrange(from as int, to as int), from_c, to_c),
{
    let mut j = from;
    proof {
        assert(replace_char(s@.subrange(from as int, from as int), from_c, to_c) =~= Seq::<
            char,
        >::empty());
        assert(out@ =~= out@ + replace_char(s@.subrange(from as int, from as int), from_c, to_c));
    }
    while j < to
        invariant
            from <= j <= to <= s@.len(),
            out@ == old(out)@ + replace_char(s@.subrange(from as int, j as int), from_c, to_c),
        decreases to - j,
    {
        let c = s.get_char(j);
        if c == from_c {
            push_char(out, to_c);
        } else {
            push_char(out, c);
        }
        proof {
            assert(s@.subrange(from as int, j + 1) =~= s@.subrange(from as int, j as int).push(
                s@[j as int],
            ));
            assert(replace_char(s@.subrange(from as int, j + 1), from_c, to_c) =~= replace_char(
                s@.subrange(from as int, j as int),
                from_c,
                to_c,
            ).push(
                if s@[j as int] == from_c {
                    to_c
                } else {
                    s@[j as int]
                },
            ));
            assert(out@ =~= old(out)@ + replace_char(
                s@.subrange(from as int, j + 1),
                from_c,
                to_c,
            ));
        }
        j += 1;
    }
}

/// Renders a statistics file name for display, deciding
/// [`display_name`]: the `.json` extension comes off, the one `T`
/// between the date and the time becomes a space, and the dashes of
/// the time become colons.  A name of any other shape yields
/// nothing.
pub fn format_file_name(file_name: &String) -> (r: Option<String>)
    ensures
        r.deep_view() == display_name(file_name@),
{
    let ghost fv = file_name@;
    let s = file_name.as_str();
    let n = s.unicode_len();
    let has_ext = n >= 5 && s.get_char(n - 5) == '.' && s.get_char(n - 4) == 'j' && s.get_char(
        n - 3,
    ) == 's' && s.get_char(n - 2) == 'o' && s.get_char(n - 1) == 'n';
    proof {
        reveal_strlit(".json");
        assert(".json"@.len() == 5);
        if has_ext {
            assert(fv.skip(n - 5) =~= ".json"@);
        } else if fv.len() >= 5 && fv.skip(fv.len() - 5) == ".json"@ {
            let t = fv.skip(fv.len() - 5);
            assert(t[0] == fv[n - 5] && t[1] == fv[n - 4] && t[2] == fv[n - 3] && t[3] == fv[n - 2]
                && t[4] == fv[n - 1]);
            assert(false);
        }
    }
    if !has_ext {
        return None;
    }
    let m = n - 5;
    let ghost stem = fv.take(m as int);
    let (idx, cnt) = scan_char(s, m, 'T');
    if cnt != 1 {
        return None;
    }
    proof {
        lemma_find_char(stem, 'T');
        assert(find_char(stem, 'T') < m);
        assert(idx == find_char(stem, 'T'));
    }
    let mut out = s.substring_char(0, idx).to_owned();
    push_char(&mut out, ' ');
    proof {
        assert(out@ =~= stem.take(idx as int) + seq![' ']);
    }
    push_replaced(&mut out, s, idx + 1, m, '-', ':');
    proof {
        assert(s@.subrange(idx + 1, m as int) =~= stem.skip(idx + 1));
        assert(out@ =~= stem.take(idx as int) + seq![' '] + replace_char(
            stem.skip(idx + 1),
            '-',
            ':',
        ));
    }
    Some(out)
}

/// Turns a display name back into its statistics file name, deciding
/// [`file_name_of`]: the one space becomes a `T`, the colons of the
/// time half become dashes, and the `.json` extension comes back.  A
/// name of any other shape yields nothing.
pub fn unformat_file_name(name: &String) -> (r: Option<String>)
    ensures
        r.deep_view() == file_name_of(name@),
{
    let ghost nv = name@;
    let s = name.as_str();
    let n = s.unicode_len();
    proof {
        assert(nv.take(n as int) =~= nv);
    }
    let (idx, cnt) = scan_char(s, n, ' ');
    if cnt != 1 {
        return None;
    }
    proof {
        lemma_find_char(nv, ' ');
        assert(find_char(nv, ' ') < n);
        assert(idx == find_char(nv, ' '));
    }
    let mut out = s.substring_char(0, idx).to_owned();
    push_char(&mut out, 'T');
    proof {
        assert(out@ =~= nv.take(idx as int) + seq!['T']);
    }
    push_replaced(&mut out, s, idx + 1, n, ':', '-');
    out.append(".json");
    proof {
        reveal_strlit(".json");
        assert(s@.subrange(idx + 1, n as int) =~= nv.skip(idx + 1));
        assert(out@ =~= nv.take(idx as int) + seq!['T'] + replace_char(nv.skip(idx + 1), ':', '-')
            + ".json"@);
    }
    Some(out)
}

/// The statistics file name a display name denotes: defined when the
/// display name holds exactly one space; the space becomes a `T`,
/// the colons of the time half become dashes, and the `.json`
/// extension comes back.
pub open spec fn file_name_of(display: Seq<char>) -> Option<Seq<char>> {
    if count_char(display, ' ') == 1 {
        let j = find_char(display, ' ');
        Some(display.take(j) + seq!['T'] + replace_char(display.skip(j + 1), ':', '-') + ".json"@)
    } else {
        Option::<Seq<char>>::None
    }
}

/// Law of the statistics-name round trip: a file name that has a
/// display name turns back into exactly that file name, as long as
/// its stem holds no space (a space would split the display name
/// elsewhere) and no colon (a colon would come back as a dash).
pub proof fn lemma_file_name_round_trip(file: Seq<char>)
    requires
        display_name(file) is Some,
        count_char(file.take(file.len() - 5), ' ') == 0,
        count_char(file.take(file.len() - 5), ':') == 0,
    ensures
        file_name_of(display_name(file)->Some_0) == Some(file),
{
    let stem = file.take(file.len() - 5);
    let i = find_char(stem, 'T');
    lemma_find_char(stem, 'T');
    assert(i < stem.len());
    let date = stem.take(i);
    let time = stem.skip(i + 1);
    let rt = replace_char(time, '-', ':');
    let d = date + seq![' '] + rt;
    assert(display_name(file)->Some_0 == d);
    lemma_count_char_zero(stem, ' ');
    assert(count_char(date, ' ') == 0) by {
        lemma_count_char_zero(date, ' ');
        assert forall|k: int| 0 <= k < date.len() implies date[k] != ' ' by {
            assert(date[k] == stem[k]);
        }
    }
    assert(count_char(rt, ' ') == 0) by {
        lemma_count_char_zero(time, ' ');
        assert forall|k: int| 0 <= k < time.len() implies time[k] != ' ' by {
            assert(time[k] == stem[k + i + 1]);
        }
        lemma_count_char_replace(time, '-', ':', ' ');
    }
    assert(count_char(seq![' '], ' ') == 1) by {
        reveal_with_fuel(count_char, 2);
        assert(seq![' '][0] == ' ');
        assert(seq![' '].drop_first() =~= Seq::<char>::empty());
    }
    lemma_count_char_concat(date, seq![' '], ' ');
    lemma_count_char_concat(date + seq![' '], rt, ' ');
    assert(count_char(d, ' ') == 1);
    assert(d[i] == ' ');
    assert forall|k: int| 0 <= k < i implies d[k] != ' ' by {
        assert(d[k] == date[k] && date[k] == stem[k]);
    }
    lemma_find_char_exact(d, ' ', i);
    assert(d.take(i) =~= date);
    assert(d.skip(i + 1) =~= rt);
    assert(replace_char(rt, ':', '-') =~= time) by {
        lemma_count_char_zero(stem, ':');
        assert forall|k: int| 0 <= k < time.len() implies time[k] != ':' by {
            assert(time[k] == stem[k + i + 1]);
        }
        assert forall|k: int| 0 <= k < time.len() implies replace_char(rt, ':', '-')[k]
            == time[k] by {
            assert(rt[k] == (if time[k] == '-' {
                ':'
            } else {
                time[k]
            }));
        }
    }
    assert(date + seq!['T'] + time + ".json"@ =~= file) by {
        assert(stem[i] == 'T');
        assert(stem =~= date + seq!['T'] + time);
        assert(file =~= stem + ".json"@);
    }
}

} // verus!
