//! The project index: the serialized snapshot of the logical tree
//! kept in `.papersmith.json` inside the project root.
//!
//! The snapshot is JSON of a fixed shape: an object with the
//! project's `path`, its `chapters` (each an object with `name`,
//! `notes` and `extras`), and the `active_chapter` index or `null`.
//! The emitter writes one canonical text for each project; the
//! parser accepts exactly that canonical shape — allowing, inside a
//! quoted string, any of the escapes it knows — and rejects anything
//! else, which the loader treats as a corrupt index and falls back
//! to the directory scan.  Parsing what was emitted gives the
//! project back unchanged ([`lemma_index_round_trip`]).
//!
//! Quotes and backslashes in names are escaped with a backslash,
//! newlines, carriage returns and tabs with their named escapes, and
//! any other control character as a four-digit hex escape, so the
//! emitted text stays valid JSON; any other character is written
//! verbatim.

use crate::digits::{dec_digits, is_digit, parse_num};
use crate::project::{Chapter, Project};
use vstd::prelude::*;

verus! {

/// The mathematical value of a chapter in the snapshot.
pub struct ChapterV {
    pub name: Seq<char>,
    pub notes: Seq<Seq<char>>,
    pub extras: Seq<Seq<char>>,
}

/// The mathematical value of the whole snapshot.
pub struct IndexV {
    pub path: Seq<char>,
    pub chapters: Seq<ChapterV>,
    pub active: Option<nat>,
}

/// The snapshot value of a chapter.
pub open spec fn chap_v(c: Chapter) -> ChapterV {
    ChapterV { name: c.name@, notes: c.notes.deep_view(), extras: c.extras.deep_view() }
}

/// The snapshot value of a project.
pub open spec fn proj_v(p: Project) -> IndexV {
    IndexV {
        path: p.path@,
        chapters: p.chapters@.map_values(|c: Chapter| chap_v(c)),
        active: match p.active_chapter {
            Some(i) => Some(i as nat),
            None => Option::<nat>::None,
        },
    }
}

/// Whether a snapshot value could have come from a well-formed
/// project: the active index in range, chapter names distinct, and
/// the active index representable on the machine.
pub open spec fn index_wf(v: IndexV) -> bool {
    &&& match v.active {
        Some(i) => i < v.chapters.len() && i <= usize::MAX,
        None => true,
    }
    &&& forall|i: int, j: int|
        0 <= i < j < v.chapters.len() ==> (#[trigger] v.chapters[i]).name != (
        #[trigger] v.chapters[j]).name
}

/// The character of a hexadecimal digit, lower case.
pub open spec fn hex_digit(d: nat) -> char {
    if d == 0 {
        '0'
    } else if d == 1 {
        '1'
    } else if d == 2 {
        '2'
    } else if d == 3 {
        '3'
    } else if d == 4 {
        '4'
    } else if d == 5 {
        '5'
    } else if d == 6 {
        '6'
    } else if d == 7 {
        '7'
    } else if d == 8 {
        '8'
    } else if d == 9 {
        '9'
    } else if d == 10 {
        'a'
    } else if d == 11 {
        'b'
    } else if d == 12 {
        'c'
    } else if d == 13 {
        'd'
    } else if d == 14 {
        'e'
    } else {
        'f'
    }
}

/// Whether a character is a lower-case hexadecimal digit.
pub open spec fn is_hex(c: char) -> bool {
    crate::digits::is_digit(c) || c == 'a' || c == 'b' || c == 'c' || c == 'd' || c == 'e' || c
        == 'f'
}

/// The value of a lower-case hexadecimal digit.
pub open spec fn hex_val(c: char) -> nat {
    if crate::digits::is_digit(c) {
        crate::digits::digit_val(c)
    } else if c == 'a' {
        10
    } else if c == 'b' {
        11
    } else if c == 'c' {
        12
    } else if c == 'd' {
        13
    } else if c == 'e' {
        14
    } else {
        15
    }
}

/// The letter that escapes `c`, for the characters with a one-letter
/// escape: quotes and backslashes stand for themselves, newlines,
/// carriage returns and tabs for their names.
pub open spec fn esc_letter(c: char) -> Option<char> {
    if c == '"' || c == '\\' {
        Some(c)
    } else if c == '\n' {
        Some('n')
    } else if c == '\r' {
        Some('r')
    } else if c == '\t' {
        Some('t')
    } else {
        Option::<char>::None
    }
}

/// The character a one-letter escape stands for, when the letter is
/// one.
pub open spec fn unesc_letter(e: char) -> Option<char> {
    if e == '"' || e == '\\' {
        Some(e)
    } else if e == 'n' {
        Some('\n')
    } else if e == 'r' {
        Some('\r')
    } else if e == 't' {
        Some('\t')
    } else {
        Option::<char>::None
    }
}

/// The two escape tables invert one another.
pub proof fn lemma_esc_letter_inverts(c: char)
    requires
        esc_letter(c) is Some,
    ensures
        unesc_letter(esc_letter(c)->Some_0) == Some(c),
{
}

/// A character as it stands in a quoted string: the characters with
/// a one-letter escape behind a backslash, any other control
/// character as a four-digit hex escape, anything else as itself.
pub open spec fn esc_char(c: char) -> Seq<char> {
    if esc_letter(c) is Some {
        seq!['\\', esc_letter(c)->Some_0]
    } else if (c as u32) < 32 {
        seq!['\\', 'u', '0', '0', hex_digit((c as u32) as nat / 16), hex_digit(
            (c as u32) as nat % 16,
        )]
    } else {
        seq![c]
    }
}

/// A text with every character escaped.
pub open spec fn esc_str(s: Seq<char>) -> Seq<char>
    decreases s.len(),
{
    if s.len() == 0 {
        Seq::empty()
    } else {
        esc_char(s[0]) + esc_str(s.drop_first())
    }
}

/// Escaping distributes over concatenation.
pub proof fn lemma_esc_str_concat(a: Seq<char>, b: Seq<char>)
    ensures
        esc_str(a + b) == esc_str(a) + esc_str(b),
    decreases a.len(),
{
    if a.len() == 0 {
        assert(a + b =~= b);
        assert(esc_str(a) + esc_str(b) =~= esc_str(b));
    } else {
        assert((a + b).drop_first() =~= a.drop_first() + b);
        lemma_esc_str_concat(a.drop_first(), b);
        assert(esc_str(a + b) =~= esc_str(a) + esc_str(b));
    }
}

/// A text between quotes, escaped.
pub open spec fn quoted(s: Seq<char>) -> Seq<char> {
    seq!['"'] + esc_str(s) + seq!['"']
}

/// Comma-separated renderings of the items of a list.
pub open spec fn join_items<A>(v: Seq<A>, f: spec_fn(A) -> Seq<char>) -> Seq<char>
    decreases v.len(),
{
    if v.len() == 0 {
        Seq::empty()
    } else {
        f(v[0]) + join_rest(v.drop_first(), f)
    }
}

/// The later items of a list, each behind a comma and a space.
pub open spec fn join_rest<A>(v: Seq<A>, f: spec_fn(A) -> Seq<char>) -> Seq<char>
    decreases v.len(),
{
    if v.len() == 0 {
        Seq::empty()
    } else {
        ", "@ + f(v[0]) + join_rest(v.drop_first(), f)
    }
}

/// Appending an item extends the joined text by a separator and the
/// item's rendering.
pub proof fn lemma_join_rest_push<A>(v: Seq<A>, f: spec_fn(A) -> Seq<char>, x: A)
    ensures
        join_rest(v.push(x), f) == join_rest(v, f) + ", "@ + f(x),
    decreases v.len(),
{
    if v.len() == 0 {
        assert(v.push(x)[0] == x);
        assert(v.push(x).drop_first() =~= Seq::<A>::empty());
        assert(join_rest(v.push(x), f) == ", "@ + f(x) + join_rest(Seq::<A>::empty(), f));
        assert(join_rest(v.push(x), f) =~= join_rest(v, f) + ", "@ + f(x));
    } else {
        assert(v.push(x)[0] == v[0]);
        assert(v.push(x).drop_first() =~= v.drop_first().push(x));
        assert(join_rest(v.push(x), f) == ", "@ + f(v[0]) + join_rest(v.drop_first().push(x), f));
        lemma_join_rest_push(v.drop_first(), f, x);
        assert(join_rest(v.push(x), f) =~= join_rest(v, f) + ", "@ + f(x));
    }
}

/// Appending an item extends the joined text by the item's
/// rendering, behind a separator unless it is the first.
pub proof fn lemma_join_items_push<A>(v: Seq<A>, f: spec_fn(A) -> Seq<char>, x: A)
    ensures
        v.len() == 0 ==> join_items(v.push(x), f) == f(x),
        v.len() > 0 ==> join_items(v.push(x), f) == join_items(v, f) + ", "@ + f(x),
{
    if v.len() == 0 {
        assert(v.push(x).drop_first() =~= Seq::<A>::empty());
        assert(join_items(v.push(x), f) =~= f(x));
    } else {
        assert(v.push(x).drop_first() =~= v.drop_first().push(x));
        lemma_join_rest_push(v.drop_first(), f, x);
        assert(join_items(v.push(x), f) =~= join_items(v, f) + ", "@ + f(x));
    }
}

/// A chapter of the snapshot, rendered.
pub open spec fn emit_chapter(c: ChapterV) -> Seq<char> {
    "{ \"name\": "@ + quoted(c.name) + ", \"notes\": ["@ + join_items(
        c.notes,
        |s: Seq<char>| quoted(s),
    ) + "]"@ + ", \"extras\": ["@ + join_items(c.extras, |s: Seq<char>| quoted(s)) + "]"@ + " }"@
}

/// The active-chapter field, rendered.
pub open spec fn emit_active(a: Option<nat>) -> Seq<char> {
    match a {
        None => "null"@,
        Some(i) => dec_digits(i),
    }
}

/// The whole snapshot, rendered: the canonical text of the index
/// file.
pub open spec fn index_json(v: IndexV) -> Seq<char> {
    "{\n  \"path\": "@ + quoted(v.path) + ",\n  \"chapters\": ["@ + join_items(
        v.chapters,
        |c: ChapterV| emit_chapter(c),
    ) + "]"@ + ",\n  \"active_chapter\": "@ + emit_active(v.active) + "\n}"@
}

/// The rest of the text after a fixed fragment, when the text
/// starts with it.
pub open spec fn expect(s: Seq<char>, lit: Seq<char>) -> Option<Seq<char>> {
    if lit.is_prefix_of(s) {
        Some(s.skip(lit.len() as int))
    } else {
        Option::<Seq<char>>::None
    }
}

/// A fixed fragment parses off the front of what it prefixes.
pub proof fn lemma_expect_of(lit: Seq<char>, rest: Seq<char>)
    ensures
        expect(lit + rest, lit) == Some(rest),
{
    assert((lit + rest).take(lit.len() as int) =~= lit);
    assert((lit + rest).skip(lit.len() as int) =~= rest);
}

/// The inside of a quoted string: characters up to the closing
/// quote, unescaping the one-letter escapes and the four-digit hex
/// escapes.
pub open spec fn parse_str_body(s: Seq<char>) -> Option<(Seq<char>, Seq<char>)>
    decreases s.len(),
{
    if s.len() == 0 {
        Option::<(Seq<char>, Seq<char>)>::None
    } else if s[0] == '"' {
        Some((Seq::empty(), s.skip(1)))
    } else if s[0] == '\\' {
        if s.len() >= 2 && unesc_letter(s[1]) is Some {
            match parse_str_body(s.skip(2)) {
                Some((v, r)) => Some((seq![unesc_letter(s[1])->Some_0] + v, r)),
                None => Option::<(Seq<char>, Seq<char>)>::None,
            }
        } else if s.len() >= 6 && s[1] == 'u' && s[2] == '0' && s[3] == '0' && is_hex(s[4])
            && is_hex(s[5]) {
            match parse_str_body(s.skip(6)) {
                Some((v, r)) => Some(
                    (seq![((hex_val(s[4]) * 16 + hex_val(s[5])) as char)] + v, r),
                ),
                None => Option::<(Seq<char>, Seq<char>)>::None,
            }
        } else {
            Option::<(Seq<char>, Seq<char>)>::None
        }
    } else {
        match parse_str_body(s.skip(1)) {
            Some((v, r)) => Some((seq![s[0]] + v, r)),
            None => Option::<(Seq<char>, Seq<char>)>::None,
        }
    }
}

/// A quoted string: an opening quote, then its inside.
pub open spec fn parse_quoted(s: Seq<char>) -> Option<(Seq<char>, Seq<char>)> {
    if s.len() > 0 && s[0] == '"' {
        parse_str_body(s.skip(1))
    } else {
        Option::<(Seq<char>, Seq<char>)>::None
    }
}

/// Parsing a string consumes at least one character.
pub proof fn lemma_parse_str_body_shrinks(s: Seq<char>)
    ensures
        parse_str_body(s) matches Some(r) ==> r.1.len() < s.len(),
    decreases s.len(),
{
    if s.len() > 0 && s[0] != '"' {
        if s[0] == '\\' {
            if s.len() >= 2 && unesc_letter(s[1]) is Some {
                lemma_parse_str_body_shrinks(s.skip(2));
            } else if s.len() >= 6 && s[1] == 'u' && s[2] == '0' && s[3] == '0' && is_hex(s[4])
                && is_hex(s[5]) {
                lemma_parse_str_body_shrinks(s.skip(6));
            }
        } else {
            lemma_parse_str_body_shrinks(s.skip(1));
        }
    }
}

/// Parsing a quoted string consumes at least two characters.
pub proof fn lemma_parse_quoted_shrinks(s: Seq<char>)
    ensures
        parse_quoted(s) matches Some(r) ==> r.1.len() < s.len(),
{
    if s.len() > 0 && s[0] == '"' {
        lemma_parse_str_body_shrinks(s.skip(1));
    }
}

/// One or more quoted strings separated by commas, up to and
/// including the closing bracket.
pub open spec fn parse_str_items(s: Seq<char>) -> Option<(Seq<Seq<char>>, Seq<char>)>
    decreases s.len(),
    via parse_str_items_dec
{
    match parse_quoted(s) {
        None => Option::<(Seq<Seq<char>>, Seq<char>)>::None,
        Some((v, r)) => {
            if r.len() >= 1 && r[0] == ']' {
                Some((seq![v], r.skip(1)))
            } else if r.len() >= 2 && r[0] == ',' && r[1] == ' ' {
                match parse_str_items(r.skip(2)) {
                    Some((vs, r2)) => Some((seq![v] + vs, r2)),
                    None => Option::<(Seq<Seq<char>>, Seq<char>)>::None,
                }
            } else {
                Option::<(Seq<Seq<char>>, Seq<char>)>::None
            }
        },
    }
}

#[via_fn]
proof fn parse_str_items_dec(s: Seq<char>) {
    lemma_parse_quoted_shrinks(s);
}

/// A string array after its opening bracket: empty, or its items.
pub open spec fn parse_str_array(s: Seq<char>) -> Option<(Seq<Seq<char>>, Seq<char>)> {
    if s.len() >= 1 && s[0] == ']' {
        Some((Seq::<Seq<char>>::empty(), s.skip(1)))
    } else {
        parse_str_items(s)
    }
}

/// A chapter object of the snapshot.
pub open spec fn parse_chapter(s: Seq<char>) -> Option<(ChapterV, Seq<char>)> {
    match expect(s, "{ \"name\": "@) {
        None => Option::<(ChapterV, Seq<char>)>::None,
        Some(s1) => match parse_quoted(s1) {
            None => Option::<(ChapterV, Seq<char>)>::None,
            Some((name, s2)) => match expect(s2, ", \"notes\": ["@) {
                None => Option::<(ChapterV, Seq<char>)>::None,
                Some(s3) => match parse_str_array(s3) {
                    None => Option::<(ChapterV, Seq<char>)>::None,
                    Some((notes, s4)) => match expect(s4, ", \"extras\": ["@) {
                        None => Option::<(ChapterV, Seq<char>)>::None,
                        Some(s5) => match parse_str_array(s5) {
                            None => Option::<(ChapterV, Seq<char>)>::None,
                            Some((extras, s6)) => match expect(s6, " }"@) {
                                None => Option::<(ChapterV, Seq<char>)>::None,
                                Some(s7) => Some((ChapterV { name, notes, extras }, s7)),
                            },
                        },
                    },
                },
            },
        },
    }
}

/// Parsing a fixed fragment never grows the rest.
pub proof fn lemma_expect_le(s: Seq<char>, lit: Seq<char>)
    ensures
        expect(s, lit) matches Some(r) ==> r.len() <= s.len(),
{
}

/// Parsing a string array never grows the rest.
pub proof fn lemma_parse_str_array_le(s: Seq<char>)
    ensures
        parse_str_array(s) matches Some(r) ==> r.1.len() <= s.len(),
        parse_str_items(s) matches Some(r) ==> r.1.len() <= s.len(),
    decreases s.len(),
{
    lemma_parse_quoted_shrinks(s);
    match parse_quoted(s) {
        None => {},
        Some((v, r)) => {
            if r.len() >= 2 && r[0] == ',' && r[1] == ' ' {
                lemma_parse_str_array_le(r.skip(2));
            }
        },
    }
}

/// Parsing a chapter consumes at least one character.
pub proof fn lemma_parse_chapter_shrinks(s: Seq<char>)
    ensures
        parse_chapter(s) matches Some(r) ==> r.1.len() < s.len(),
{
    reveal_strlit("{ \"name\": ");
    match expect(s, "{ \"name\": "@) {
        None => {},
        Some(s1) => {
            assert(s1.len() < s.len());
            lemma_parse_quoted_shrinks(s1);
            match parse_quoted(s1) {
                None => {},
                Some((name, s2)) => {
                    lemma_expect_le(s2, ", \"notes\": ["@);
                    match expect(s2, ", \"notes\": ["@) {
                        None => {},
                        Some(s3) => {
                            lemma_parse_str_array_le(s3);
                            match parse_str_array(s3) {
                                None => {},
                                Some((notes, s4)) => {
                                    lemma_expect_le(s4, ", \"extras\": ["@);
                                    match expect(s4, ", \"extras\": ["@) {
                                        None => {},
                                        Some(s5) => {
                                            lemma_parse_str_array_le(s5);
                                            match parse_str_array(s5) {
                                                None => {},
                                                Some((extras, s6)) => {
                                                    lemma_expect_le(s6, " }"@);
                                                },
                                            }
                                        },
                                    }
                                },
                            }
                        },
                    }
                },
            }
        },
    }
}

/// One or more chapter objects separated by commas, up to and
/// including the closing bracket.
pub open spec fn parse_chapters(s: Seq<char>) -> Option<(Seq<ChapterV>, Seq<char>)>
    decreases s.len(),
    via parse_chapters_dec
{
    match parse_chapter(s) {
        None => Option::<(Seq<ChapterV>, Seq<char>)>::None,
        Some((c, r)) => {
            if r.len() >= 1 && r[0] == ']' {
                Some((seq![c], r.skip(1)))
            } else if r.len() >= 2 && r[0] == ',' && r[1] == ' ' {
                match parse_chapters(r.skip(2)) {
                    Some((cs, r2)) => Some((seq![c] + cs, r2)),
                    None => Option::<(Seq<ChapterV>, Seq<char>)>::None,
                }
            } else {
                Option::<(Seq<ChapterV>, Seq<char>)>::None
            }
        },
    }
}

#[via_fn]
proof fn parse_chapters_dec(s: Seq<char>) {
    lemma_parse_chapter_shrinks(s);
}

/// The chapters array after its opening bracket: empty, or its
/// items.
pub open spec fn parse_chapters_array(s: Seq<char>) -> Option<(Seq<ChapterV>, Seq<char>)> {
    if s.len() >= 1 && s[0] == ']' {
        Some((Seq::<ChapterV>::empty(), s.skip(1)))
    } else {
        parse_chapters(s)
    }
}

/// The active-chapter field: `null`, or a machine-sized number.
pub open spec fn parse_active(s: Seq<char>) -> Option<(Option<nat>, Seq<char>)> {
    if "null"@.is_prefix_of(s) {
        Some((Option::<nat>::None, s.skip("null"@.len() as int)))
    } else {
        match parse_num(s) {
            Some((n, r)) => Some((Some(n), r)),
            None => Option::<(Option<nat>, Seq<char>)>::None,
        }
    }
}

/// The whole snapshot: exactly the canonical text, nothing before
/// or after.
pub open spec fn parse_index_spec(text: Seq<char>) -> Option<IndexV> {
    match expect(text, "{\n  \"path\": "@) {
        None => Option::<IndexV>::None,
        Some(s1) => match parse_quoted(s1) {
            None => Option::<IndexV>::None,
            Some((path, s2)) => match expect(s2, ",\n  \"chapters\": ["@) {
                None => Option::<IndexV>::None,
                Some(s3) => match parse_chapters_array(s3) {
                    None => Option::<IndexV>::None,
                    Some((chapters, s4)) => match expect(s4, ",\n  \"active_chapter\": "@) {
                        None => Option::<IndexV>::None,
                        Some(s5) => match parse_active(s5) {
                            None => Option::<IndexV>::None,
                            Some((active, s6)) => match expect(s6, "\n}"@) {
                                None => Option::<IndexV>::None,
                                Some(s7) => {
                                    if s7.len() == 0 {
                                        Some(IndexV { path, chapters, active })
                                    } else {
                                        Option::<IndexV>::None
                                    }
                                },
                            },
                        },
                    },
                },
            },
        },
    }
}


/// Escaped text, a closing quote and anything parse back to the
/// text and the anything.
pub proof fn lemma_rt_str_body(v: Seq<char>, rest: Seq<char>)
    ensures
        parse_str_body(esc_str(v) + seq!['"'] + rest) == Some((v, rest)),
    decreases v.len(),
{
    let s = esc_str(v) + seq!['"'] + rest;
    if v.len() == 0 {
        assert(esc_str(v) =~= Seq::<char>::empty());
        assert(s =~= seq!['"'] + rest);
        assert(s[0] == '"');
        assert(s.skip(1) =~= rest);
    } else {
        let c = v[0];
        let v2 = v.drop_first();
        assert(esc_str(v) == esc_char(c) + esc_str(v2));
        lemma_rt_str_body(v2, rest);
        let s2 = esc_str(v2) + seq!['"'] + rest;
        if esc_letter(c) is Some {
            let e = esc_letter(c)->Some_0;
            assert(esc_char(c) =~= seq!['\\', e]);
            assert(s =~= seq!['\\', e] + s2);
            assert(s[0] == '\\' && s[1] == e);
            lemma_esc_letter_inverts(c);
            assert(unesc_letter(s[1]) == Some(c));
            assert(s.skip(2) =~= s2);
            assert(seq![unesc_letter(s[1])->Some_0] + v2 =~= v);
        } else if (c as u32) < 32 {
            let hv = (c as u32) as nat;
            let h = hex_digit(hv / 16);
            let l = hex_digit(hv % 16);
            assert(esc_char(c) =~= seq!['\\', 'u', '0', '0', h, l]);
            assert(s =~= seq!['\\', 'u', '0', '0', h, l] + s2);
            assert(s[0] == '\\' && s[1] == 'u' && s[2] == '0' && s[3] == '0' && s[4] == h && s[5]
                == l);
            assert(s.len() >= 6);
            assert(unesc_letter('u') is None);
            assert(is_hex(h) && is_hex(l)) by {
                assert(hv / 16 < 2 && hv % 16 < 16);
            }
            assert(hex_val(h) == hv / 16 && hex_val(l) == hv % 16);
            assert(hex_val(s[4]) * 16 + hex_val(s[5]) == hv);
            assert(((hex_val(s[4]) * 16 + hex_val(s[5])) as char) == c) by {
                vstd::utf8::char_u32_cast(c, c as u32);
            }
            assert(s.skip(6) =~= s2);
            assert(seq![((hex_val(s[4]) * 16 + hex_val(s[5])) as char)] + v2 =~= v);
        } else {
            assert(esc_char(c) =~= seq![c]);
            assert(s =~= seq![c] + s2);
            assert(s[0] == c);
            assert(s.skip(1) =~= s2);
            assert(seq![s[0]] + v2 =~= v);
        }
    }
}

/// A quoted text and anything parse back to the text and the
/// anything.
pub proof fn lemma_rt_quoted(v: Seq<char>, rest: Seq<char>)
    ensures
        parse_quoted(quoted(v) + rest) == Some((v, rest)),
{
    let s = quoted(v) + rest;
    assert(s[0] == '"');
    assert(s.skip(1) =~= esc_str(v) + seq!['"'] + rest);
    lemma_rt_str_body(v, rest);
}

/// The later items of a non-empty list are a separator and the
/// whole list's rendering from its head.
proof fn lemma_join_rest_as_items<A>(v: Seq<A>, f: spec_fn(A) -> Seq<char>)
    requires
        v.len() > 0,
    ensures
        join_rest(v, f) == ", "@ + join_items(v, f),
{
    assert(join_rest(v, f) =~= ", "@ + join_items(v, f));
}

/// Rendered string items, a closing bracket and anything parse back
/// to the items.
pub proof fn lemma_rt_str_items(vs: Seq<Seq<char>>, rest: Seq<char>)
    requires
        vs.len() >= 1,
    ensures
        parse_str_items(join_items(vs, |t: Seq<char>| quoted(t)) + seq![']'] + rest) == Some(
            (vs, rest),
        ),
    decreases vs.len(),
{
    let qf = |t: Seq<char>| quoted(t);
    let s = join_items(vs, qf) + seq![']'] + rest;
    let v0 = vs[0];
    let tail = vs.drop_first();
    assert(join_items(vs, qf) == quoted(v0) + join_rest(tail, qf));
    if tail.len() == 0 {
        let r = seq![']'] + rest;
        assert(join_rest(tail, qf) =~= Seq::<char>::empty());
        assert(s =~= quoted(v0) + r);
        lemma_rt_quoted(v0, r);
        assert(r[0] == ']');
        assert(r.skip(1) =~= rest);
        assert(seq![v0] =~= vs);
    } else {
        lemma_join_rest_as_items(tail, qf);
        let r = ", "@ + (join_items(tail, qf) + seq![']'] + rest);
        assert(s =~= quoted(v0) + r);
        lemma_rt_quoted(v0, r);
        reveal_strlit(", ");
        assert(", "@.len() == 2);
        assert(r[0] == ',' && r[1] == ' ');
        assert(r.skip(2) =~= join_items(tail, qf) + seq![']'] + rest);
        lemma_rt_str_items(tail, rest);
        assert(seq![v0] + tail =~= vs);
    }
}

/// A rendered string array, its closing bracket and anything parse
/// back to the array.
pub proof fn lemma_rt_str_array(vs: Seq<Seq<char>>, rest: Seq<char>)
    ensures
        parse_str_array(join_items(vs, |t: Seq<char>| quoted(t)) + seq![']'] + rest) == Some(
            (vs, rest),
        ),
{
    let qf = |t: Seq<char>| quoted(t);
    let s = join_items(vs, qf) + seq![']'] + rest;
    if vs.len() == 0 {
        assert(join_items(vs, qf) =~= Seq::<char>::empty());
        assert(s =~= seq![']'] + rest);
        assert(s[0] == ']');
        assert(s.skip(1) =~= rest);
    } else {
        assert(join_items(vs, qf)[0] == quoted(vs[0])[0]);
        assert(quoted(vs[0])[0] == '"');
        assert(s[0] == '"');
        lemma_rt_str_items(vs, rest);
    }
}

/// A rendered chapter and anything parse back to the chapter.
#[verifier::rlimit(100)]
#[verifier::spinoff_prover]
pub proof fn lemma_rt_chapter(c: ChapterV, rest: Seq<char>)
    ensures
        parse_chapter(emit_chapter(c) + rest) == Some((c, rest)),
{
    reveal_strlit("]");
    assert("]"@ =~= seq![']']);
    let qf = |t: Seq<char>| quoted(t);
    let r5 = " }"@ + rest;
    let r4 = join_items(c.extras, qf) + seq![']'] + r5;
    let r3 = ", \"extras\": ["@ + r4;
    let r2 = join_items(c.notes, qf) + seq![']'] + r3;
    let r1 = ", \"notes\": ["@ + r2;
    let r0 = quoted(c.name) + r1;
    let s = emit_chapter(c) + rest;
    assert(s =~= "{ \"name\": "@ + r0);
    lemma_expect_of("{ \"name\": "@, r0);
    lemma_rt_quoted(c.name, r1);
    lemma_expect_of(", \"notes\": ["@, r2);
    lemma_rt_str_array(c.notes, r3);
    lemma_expect_of(", \"extras\": ["@, r4);
    lemma_rt_str_array(c.extras, r5);
    lemma_expect_of(" }"@, rest);
    assert(parse_chapter(s) == Some((ChapterV { name: c.name, notes: c.notes, extras: c.extras },
    rest)));
    assert(ChapterV { name: c.name, notes: c.notes, extras: c.extras } == c);
}

/// The one rendered chapter of a singleton list, the closing bracket
/// and anything parse back to the list.
#[verifier::rlimit(100)]
#[verifier::spinoff_prover]
proof fn lemma_rt_chapters_last(cs: Seq<ChapterV>, rest: Seq<char>)
    requires
        cs.len() == 1,
    ensures
        parse_chapters(join_items(cs, |c: ChapterV| emit_chapter(c)) + seq![']'] + rest) == Some(
            (cs, rest),
        ),
{
    let ef = |c: ChapterV| emit_chapter(c);
    let s = join_items(cs, ef) + seq![']'] + rest;
    let c0 = cs[0];
    let tail = cs.drop_first();
    assert(join_items(cs, ef) == emit_chapter(c0) + join_rest(tail, ef));
    let r = seq![']'] + rest;
    assert(join_rest(tail, ef) =~= Seq::<char>::empty());
    assert(s =~= emit_chapter(c0) + r);
    lemma_rt_chapter(c0, r);
    assert(r[0] == ']');
    assert(r.skip(1) =~= rest);
    assert(seq![c0] =~= cs);
}

/// A rendered chapter in front of an already-parsing remainder of
/// the list parses back to the whole list.
#[verifier::rlimit(100)]
#[verifier::spinoff_prover]
proof fn lemma_rt_chapters_step(cs: Seq<ChapterV>, rest: Seq<char>)
    requires
        cs.len() >= 2,
        parse_chapters(
            join_items(cs.drop_first(), |c: ChapterV| emit_chapter(c)) + seq![']'] + rest,
        ) == Some((cs.drop_first(), rest)),
    ensures
        parse_chapters(join_items(cs, |c: ChapterV| emit_chapter(c)) + seq![']'] + rest) == Some(
            (cs, rest),
        ),
{
    let ef = |c: ChapterV| emit_chapter(c);
    let s = join_items(cs, ef) + seq![']'] + rest;
    let c0 = cs[0];
    let tail = cs.drop_first();
    assert(join_items(cs, ef) == emit_chapter(c0) + join_rest(tail, ef));
    lemma_join_rest_as_items(tail, ef);
    let r = ", "@ + (join_items(tail, ef) + seq![']'] + rest);
    assert(s =~= emit_chapter(c0) + r);
    lemma_rt_chapter(c0, r);
    reveal_strlit(", ");
    assert(", "@.len() == 2);
    assert(r[0] == ',' && r[1] == ' ');
    assert(r.skip(2) =~= join_items(tail, ef) + seq![']'] + rest);
    assert(seq![c0] + tail =~= cs);
}

/// Rendered chapter items, a closing bracket and anything parse
/// back to the chapters.
pub proof fn lemma_rt_chapters(cs: Seq<ChapterV>, rest: Seq<char>)
    requires
        cs.len() >= 1,
    ensures
        parse_chapters(join_items(cs, |c: ChapterV| emit_chapter(c)) + seq![']'] + rest) == Some(
            (cs, rest),
        ),
    decreases cs.len(),
{
    if cs.len() == 1 {
        lemma_rt_chapters_last(cs, rest);
    } else {
        lemma_rt_chapters(cs.drop_first(), rest);
        lemma_rt_chapters_step(cs, rest);
    }
}

/// A rendered chapters array, its closing bracket and anything
/// parse back to the chapters.
pub proof fn lemma_rt_chapters_array(cs: Seq<ChapterV>, rest: Seq<char>)
    ensures
        parse_chapters_array(join_items(cs, |c: ChapterV| emit_chapter(c)) + seq![']'] + rest)
            == Some((cs, rest)),
{
    let ef = |c: ChapterV| emit_chapter(c);
    let s = join_items(cs, ef) + seq![']'] + rest;
    if cs.len() == 0 {
        assert(join_items(cs, ef) =~= Seq::<char>::empty());
        assert(s =~= seq![']'] + rest);
        assert(s[0] == ']');
        assert(s.skip(1) =~= rest);
    } else {
        reveal_strlit("{ \"name\": ");
        assert(join_items(cs, ef)[0] == emit_chapter(cs[0])[0]);
        assert(emit_chapter(cs[0])[0] == "{ \"name\": "@[0]);
        assert(s[0] == '{');
        lemma_rt_chapters(cs, rest);
    }
}

/// The rendered active-chapter field followed by a non-digit parses
/// back to the field.
pub proof fn lemma_rt_active(a: Option<nat>, rest: Seq<char>)
    requires
        a matches Some(i) ==> i <= usize::MAX,
        rest.len() == 0 || !is_digit(rest[0]),
        rest.len() == 0 || rest[0] != 'n',
    ensures
        parse_active(emit_active(a) + rest) == Some((a, rest)),
{
    reveal_strlit("null");
    match a {
        None => {
            let s = "null"@ + rest;
            assert(s.take("null"@.len() as int) =~= "null"@);
            assert(s.skip("null"@.len() as int) =~= rest);
        },
        Some(i) => {
            let s = dec_digits(i) + rest;
            crate::digits::lemma_dec_digits_are_digits(i);
            crate::digits::lemma_dec_digits_len(i);
            assert(!("null"@.is_prefix_of(s))) by {
                if "null"@.is_prefix_of(s) {
                    assert("null"@.len() == 4);
                    assert(s.take(4)[0] == s[0]);
                    assert("null"@[0] == 'n');
                    assert(s[0] == 'n');
                    assert(s[0] == dec_digits(i)[0]);
                    assert(is_digit(dec_digits(i)[0]));
                    assert(!is_digit('n'));
                }
            }
            crate::digits::lemma_parse_num_of_dec(i, rest);
        },
    }
}

/// The canonical text of a snapshot parses back to the snapshot.
#[verifier::rlimit(100)]
#[verifier::spinoff_prover]
pub proof fn lemma_rt_index(v: IndexV)
    requires
        v.active matches Some(i) ==> i <= usize::MAX,
    ensures
        parse_index_spec(index_json(v)) == Some(v),
{
    reveal_strlit("]");
    reveal_strlit("\n}");
    assert("]"@ =~= seq![']']);
    let ef = |c: ChapterV| emit_chapter(c);
    let s6 = "\n}"@;
    let s5 = emit_active(v.active) + s6;
    let s4 = ",\n  \"active_chapter\": "@ + s5;
    let s3 = join_items(v.chapters, ef) + seq![']'] + s4;
    let s2 = ",\n  \"chapters\": ["@ + s3;
    let s1 = quoted(v.path) + s2;
    let text = index_json(v);
    assert(text =~= "{\n  \"path\": "@ + s1);
    lemma_expect_of("{\n  \"path\": "@, s1);
    lemma_rt_quoted(v.path, s2);
    lemma_expect_of(",\n  \"chapters\": ["@, s3);
    lemma_rt_chapters_array(v.chapters, s4);
    lemma_expect_of(",\n  \"active_chapter\": "@, s5);
    assert(s6.len() > 0 && s6[0] == '\n');
    assert(!is_digit('\n') && '\n' != 'n');
    lemma_rt_active(v.active, s6);
    assert(s6 =~= "\n}"@ + Seq::<char>::empty());
    lemma_expect_of("\n}"@, Seq::<char>::empty());
    assert(parse_index_spec(text) == Some(
        IndexV { path: v.path, chapters: v.chapters, active: v.active },
    ));
    assert(IndexV { path: v.path, chapters: v.chapters, active: v.active } == v);
}

/// Law of the index round trip: the canonical index text of a
/// well-formed project parses back to exactly that project's
/// snapshot, and the snapshot is well-formed.  Since saving writes
/// the canonical text and loading parses the file before falling
/// back to the scan, loading what saving wrote yields a project
/// with the same path, chapters and active chapter.
pub proof fn lemma_index_round_trip(p: Project)
    requires
        p.wf(),
    ensures
        parse_index_spec(index_json(proj_v(p))) == Some(proj_v(p)),
        index_wf(proj_v(p)),
{
    lemma_rt_index(proj_v(p));
    let v = proj_v(p);
    assert(index_wf(v)) by {
        assert forall|i: int, j: int| 0 <= i < j < v.chapters.len() implies (
        #[trigger] v.chapters[i]).name != (#[trigger] v.chapters[j]).name by {
            assert(v.chapters[i] == chap_v(p.chapters@[i]));
            assert(v.chapters[j] == chap_v(p.chapters@[j]));
            assert(p.chapters@[i].name@ != p.chapters@[j].name@);
        }
    }
}


/// Appends a fixed fragment of the canonical text.
fn push_lit(out: &mut Vec<char>, lit: &str)
    ensures
        final(out)@ == old(out)@ + lit@,
{
    let n = lit.unicode_len();
    for i in 0..n
        invariant
            n == lit@.len(),
            out@ == old(out)@ + lit@.take(i as int),
    {
        out.push(lit.get_char(i));
        proof {
            assert(out@ =~= old(out)@ + lit@.take(i + 1));
        }
    }
    proof {
        assert(lit@.take(n as int) =~= lit@);
    }
}

/// The character of a hexadecimal digit, executably.
fn hex_of(d: usize) -> (c: char)
    requires
        d < 16,
    ensures
        c == hex_digit(d as nat),
{
    if d == 0 {
        '0'
    } else if d == 1 {
        '1'
    } else if d == 2 {
        '2'
    } else if d == 3 {
        '3'
    } else if d == 4 {
        '4'
    } else if d == 5 {
        '5'
    } else if d == 6 {
        '6'
    } else if d == 7 {
        '7'
    } else if d == 8 {
        '8'
    } else if d == 9 {
        '9'
    } else if d == 10 {
        'a'
    } else if d == 11 {
        'b'
    } else if d == 12 {
        'c'
    } else if d == 13 {
        'd'
    } else if d == 14 {
        'e'
    } else {
        'f'
    }
}

/// Appends a string between quotes, escaping quotes, backslashes and
/// control characters.
fn push_quoted(out: &mut Vec<char>, s: &String)
    ensures
        final(out)@ == old(out)@ + quoted(s@),
{
    out.push('"');
    let st = s.as_str();
    let n = st.unicode_len();
    for i in 0..n
        invariant
            n == s@.len(),
            st@ == s@,
            out@ == old(out)@ + seq!['"'] + esc_str(s@.take(i as int)),
    {
        let c = st.get_char(i);
        proof {
            assert(s@.take(i + 1) =~= s@.take(i as int) + seq![s@[i as int]]);
            lemma_esc_str_concat(s@.take(i as int), seq![s@[i as int]]);
            assert(seq![s@[i as int]][0] == s@[i as int]);
            assert(seq![s@[i as int]].drop_first() =~= Seq::<char>::empty());
            assert(esc_str(seq![s@[i as int]]) == esc_char(s@[i as int]) + esc_str(
                seq![s@[i as int]].drop_first(),
            ));
            assert(esc_str(Seq::<char>::empty()) == Seq::<char>::empty());
            assert(esc_str(seq![s@[i as int]]) =~= esc_char(s@[i as int]));
        }
        if c == '"' || c == '\\' {
            out.push('\\');
            out.push(c);
        } else if c == '\n' {
            out.push('\\');
            out.push('n');
        } else if c == '\r' {
            out.push('\\');
            out.push('r');
        } else if c == '\t' {
            out.push('\\');
            out.push('t');
        } else {
            let v = c as u32;
            if v < 32 {
                out.push('\\');
                out.push('u');
                out.push('0');
                out.push('0');
                out.push(hex_of((v / 16) as usize));
                out.push(hex_of((v % 16) as usize));
                proof {
                    assert((v / 16) as nat == (c as u32) as nat / 16);
                    assert((v % 16) as nat == (c as u32) as nat % 16);
                }
            } else {
                out.push(c);
            }
        }
        proof {
            assert(out@ =~= old(out)@ + seq!['"'] + esc_str(s@.take(i + 1)));
        }
    }
    out.push('"');
    proof {
        assert(s@.take(n as int) =~= s@);
        assert(out@ =~= old(out)@ + quoted(s@));
    }
}

/// Appends the items of a string array, separated by commas.
fn push_str_items(out: &mut Vec<char>, v: &Vec<String>)
    ensures
        final(out)@ == old(out)@ + join_items(v.deep_view(), |t: Seq<char>| quoted(t)),
{
    let ghost qf = |t: Seq<char>| quoted(t);
    let n = v.len();
    for i in 0..n
        invariant
            n == v@.len(),
            qf == (|t: Seq<char>| quoted(t)),
            out@ == old(out)@ + join_items(v.deep_view().take(i as int), qf),
    {
        proof {
            assert(v.deep_view().take(i + 1) =~= v.deep_view().take(i as int).push(
                v.deep_view()[i as int],
            ));
            lemma_join_items_push(v.deep_view().take(i as int), qf, v.deep_view()[i as int]);
        }
        if i > 0 {
            push_lit(out, ", ");
        }
        push_quoted(out, &v[i]);
        proof {
            assert(out@ =~= old(out)@ + join_items(v.deep_view().take(i + 1), qf));
        }
    }
    proof {
        assert(v.deep_view().take(n as int) =~= v.deep_view());
    }
}

/// Appends a rendered chapter object.
#[verifier::rlimit(100)]
#[verifier::spinoff_prover]
fn push_chapter(out: &mut Vec<char>, c: &Chapter)
    ensures
        final(out)@ == old(out)@ + emit_chapter(chap_v(*c)),
{
    push_lit(out, "{ \"name\": ");
    push_quoted(out, &c.name);
    push_lit(out, ", \"notes\": [");
    push_str_items(out, &c.notes);
    push_lit(out, "]");
    push_lit(out, ", \"extras\": [");
    push_str_items(out, &c.extras);
    push_lit(out, "]");
    push_lit(out, " }");
    proof {
        assert(out@ =~= old(out)@ + emit_chapter(chap_v(*c)));
    }
}

/// The canonical index text of a project: the exact rendering of
/// its snapshot.
#[verifier::rlimit(100)]
#[verifier::spinoff_prover]
pub fn index_text(p: &Project) -> (out: Vec<char>)
    ensures
        out@ == index_json(proj_v(*p)),
{
    let mut out: Vec<char> = Vec::new();
    push_lit(&mut out, "{\n  \"path\": ");
    push_quoted(&mut out, &p.path);
    push_lit(&mut out, ",\n  \"chapters\": [");
    let ghost ef = |c: ChapterV| emit_chapter(c);
    let ghost cvs = p.chapters@.map_values(|c: Chapter| chap_v(c));
    let ghost base = out@;
    let n = p.chapters.len();
    for k in 0..n
        invariant
            n == p.chapters@.len(),
            ef == (|c: ChapterV| emit_chapter(c)),
            cvs == p.chapters@.map_values(|c: Chapter| chap_v(c)),
            out@ == base + join_items(cvs.take(k as int), ef),
    {
        proof {
            assert(cvs.take(k + 1) =~= cvs.take(k as int).push(cvs[k as int]));
            lemma_join_items_push(cvs.take(k as int), ef, cvs[k as int]);
            assert(cvs[k as int] == chap_v(p.chapters@[k as int]));
        }
        if k > 0 {
            push_lit(&mut out, ", ");
        }
        push_chapter(&mut out, &p.chapters[k]);
        proof {
            assert(out@ =~= base + join_items(cvs.take(k + 1), ef));
        }
    }
    proof {
        assert(cvs.take(n as int) =~= cvs);
    }
    push_lit(&mut out, "]");
    push_lit(&mut out, ",\n  \"active_chapter\": ");
    match p.active_chapter {
        None => push_lit(&mut out, "null"),
        Some(i) => crate::digits::push_digit_chars(&mut out, i),
    }
    push_lit(&mut out, "\n}");
    proof {
        assert(out@ =~= index_json(proj_v(*p)));
    }
    out
}


/// Whether a text is an acceptable index snapshot: it parses and
/// the parsed value is well-formed.
pub open spec fn index_accepts(text: Seq<char>) -> bool {
    match parse_index_spec(text) {
        Some(v) => index_wf(v),
        None => false,
    }
}

/// Reads a fixed fragment at `pos`, deciding [`expect`] on the
/// remaining text.
fn p_expect(text: &Vec<char>, pos: usize, lit: &str) -> (r: Option<usize>)
    requires
        pos <= text@.len(),
    ensures
        match r {
            Some(p2) => pos <= p2 <= text@.len() && p2 - pos == lit@.len() && expect(
                text@.skip(pos as int),
                lit@,
            ) == Some(text@.skip(p2 as int)),
            None => expect(text@.skip(pos as int), lit@) is None,
        },
{
    let ghost s = text@.skip(pos as int);
    let n = lit.unicode_len();
    let tlen = text.len();
    if n > tlen - pos {
        proof {
            assert(!lit@.is_prefix_of(s));
        }
        return None;
    }
    for i in 0..n
        invariant
            pos + n <= tlen,
            tlen == text@.len(),
            n == lit@.len(),
            s == text@.skip(pos as int),
            forall|k: int| 0 <= k < i ==> text@[pos + k] == lit@[k],
    {
        if text[pos + i] != lit.get_char(i) {
            proof {
                assert(s[i as int] == text@[pos + i]);
                assert(!lit@.is_prefix_of(s)) by {
                    if lit@.is_prefix_of(s) {
                        assert(s.take(n as int)[i as int] == s[i as int]);
                    }
                }
            }
            return None;
        }
    }
    proof {
        assert(lit@.is_prefix_of(s)) by {
            assert(s.take(n as int) =~= lit@);
        }
        assert(s.skip(n as int) =~= text@.skip((pos + n) as int));
    }
    Some(pos + n)
}

/// Whether this character is a lower-case hexadecimal digit,
/// executably.
fn is_hex_char(c: char) -> (r: bool)
    ensures
        r == is_hex(c),
{
    crate::digits::is_digit_char(c) || c == 'a' || c == 'b' || c == 'c' || c == 'd' || c == 'e' || c
        == 'f'
}

/// The value of a lower-case hexadecimal digit, executably.
fn hex_val_of(c: char) -> (d: usize)
    requires
        is_hex(c),
    ensures
        d == hex_val(c),
        d < 16,
{
    if c == '0' {
        0
    } else if c == '1' {
        1
    } else if c == '2' {
        2
    } else if c == '3' {
        3
    } else if c == '4' {
        4
    } else if c == '5' {
        5
    } else if c == '6' {
        6
    } else if c == '7' {
        7
    } else if c == '8' {
        8
    } else if c == '9' {
        9
    } else if c == 'a' {
        10
    } else if c == 'b' {
        11
    } else if c == 'c' {
        12
    } else if c == 'd' {
        13
    } else if c == 'e' {
        14
    } else {
        15
    }
}

/// Reads the inside of a quoted string at `pos`, deciding
/// [`parse_str_body`] on the remaining text.
fn p_str_body(text: &Vec<char>, pos: usize) -> (r: Option<(String, usize)>)
    requires
        pos <= text@.len(),
    ensures
        match r {
            Some(v) => pos < v.1 <= text@.len() && parse_str_body(text@.skip(pos as int)) == Some(
                (v.0@, text@.skip(v.1 as int)),
            ),
            None => parse_str_body(text@.skip(pos as int)) is None,
        },
    decreases text@.len() - pos,
{
    let ghost s = text@.skip(pos as int);
    if pos == text.len() {
        return None;
    }
    let c = text[pos];
    proof {
        assert(s[0] == c);
    }
    if c == '"' {
        proof {
            assert(s.skip(1) =~= text@.skip(pos + 1));
        }
        return Some((String::new(), pos + 1));
    }
    if c == '\\' {
        if text.len() - pos >= 2 && (text[pos + 1] == '"' || text[pos + 1] == '\\' || text[pos + 1]
            == 'n' || text[pos + 1] == 'r' || text[pos + 1] == 't') {
            let e = text[pos + 1];
            let u = if e == 'n' {
                '\n'
            } else if e == 'r' {
                '\r'
            } else if e == 't' {
                '\t'
            } else {
                e
            };
            proof {
                assert(s[1] == e);
                assert(unesc_letter(s[1]) == Some(u));
                assert(s.skip(2) =~= text@.skip(pos + 2));
            }
            match p_str_body(text, pos + 2) {
                None => None,
                Some((v, p2)) => {
                    let mut out = String::new();
                    crate::digits::push_char(&mut out, u);
                    out.append(v.as_str());
                    proof {
                        assert(out@ =~= seq![unesc_letter(s[1])->Some_0] + v@);
                    }
                    Some((out, p2))
                },
            }
        } else if text.len() - pos >= 6 && text[pos + 1] == 'u' && text[pos + 2] == '0' && text[pos
            + 3] == '0' && is_hex_char(text[pos + 4]) && is_hex_char(text[pos + 5]) {
            let h = text[pos + 4];
            let l = text[pos + 5];
            let hv = hex_val_of(h) * 16 + hex_val_of(l);
            let u = (hv as u8) as char;
            proof {
                assert(s[1] == text@[pos + 1] && s[2] == text@[pos + 2] && s[3] == text@[pos + 3]
                    && s[4] == text@[pos + 4] && s[5] == text@[pos + 5]);
                assert(unesc_letter('u') is None);
                assert(hv < 256);
                assert(u == ((hex_val(s[4]) * 16 + hex_val(s[5])) as char));
                assert(s.skip(6) =~= text@.skip(pos + 6));
            }
            match p_str_body(text, pos + 6) {
                None => None,
                Some((v, p2)) => {
                    let mut out = String::new();
                    crate::digits::push_char(&mut out, u);
                    out.append(v.as_str());
                    proof {
                        assert(out@ =~= seq![((hex_val(s[4]) * 16 + hex_val(s[5])) as char)] + v@);
                    }
                    Some((out, p2))
                },
            }
        } else {
            proof {
                if s.len() >= 2 {
                    assert(s[1] == text@[pos + 1]);
                }
                if s.len() >= 6 {
                    assert(s[2] == text@[pos + 2] && s[3] == text@[pos + 3] && s[4] == text@[pos
                        + 4] && s[5] == text@[pos + 5]);
                }
            }
            None
        }
    } else {
        proof {
            assert(s.skip(1) =~= text@.skip(pos + 1));
        }
        match p_str_body(text, pos + 1) {
            None => None,
            Some((v, p2)) => {
                let mut out = String::new();
                crate::digits::push_char(&mut out, c);
                out.append(v.as_str());
                proof {
                    assert(out@ =~= seq![s[0]] + v@);
                }
                Some((out, p2))
            },
        }
    }
}

/// Reads a quoted string at `pos`, deciding [`parse_quoted`] on the
/// remaining text.
fn p_quoted(text: &Vec<char>, pos: usize) -> (r: Option<(String, usize)>)
    requires
        pos <= text@.len(),
    ensures
        match r {
            Some(v) => pos < v.1 <= text@.len() && parse_quoted(text@.skip(pos as int)) == Some(
                (v.0@, text@.skip(v.1 as int)),
            ),
            None => parse_quoted(text@.skip(pos as int)) is None,
        },
{
    let ghost s = text@.skip(pos as int);
    if pos < text.len() && text[pos] == '"' {
        proof {
            assert(s[0] == '"');
            assert(s.skip(1) =~= text@.skip(pos + 1));
        }
        p_str_body(text, pos + 1)
    } else {
        proof {
            if s.len() > 0 {
                assert(s[0] == text@[pos as int]);
            }
        }
        None
    }
}

/// Reads the items of a string array at `pos`, deciding
/// [`parse_str_items`] on the remaining text.
fn p_str_items(text: &Vec<char>, pos: usize) -> (r: Option<(Vec<String>, usize)>)
    requires
        pos <= text@.len(),
    ensures
        match r {
            Some(v) => pos < v.1 <= text@.len() && parse_str_items(text@.skip(pos as int)) == Some(
                (v.0.deep_view(), text@.skip(v.1 as int)),
            ),
            None => parse_str_items(text@.skip(pos as int)) is None,
        },
    decreases text@.len() - pos,
{
    let ghost s = text@.skip(pos as int);
    match p_quoted(text, pos) {
        None => None,
        Some((v, p2)) => {
            let ghost rr = text@.skip(p2 as int);
            proof {
                assert(rr.len() == text@.len() - p2);
                if rr.len() >= 1 {
                    assert(rr[0] == text@[p2 as int]);
                }
                if rr.len() >= 2 {
                    assert(rr[1] == text@[p2 + 1]);
                }
            }
            if p2 < text.len() && text[p2] == ']' {
                let mut vs: Vec<String> = Vec::new();
                vs.push(v);
                proof {
                    assert(vs.deep_view() =~= seq![v@]);
                    assert(rr.skip(1) =~= text@.skip(p2 + 1));
                }
                Some((vs, p2 + 1))
            } else if text.len() - p2 >= 2 && text[p2] == ',' && text[p2 + 1] == ' ' {
                proof {
                    assert(rr.skip(2) =~= text@.skip(p2 + 2));
                }
                match p_str_items(text, p2 + 2) {
                    None => None,
                    Some((tail, p3)) => {
                        let ghost tail0 = tail.deep_view();
                        let mut vs = tail;
                        vs.insert(0, v);
                        proof {
                            assert(vs.deep_view() =~= seq![v@] + tail0);
                        }
                        Some((vs, p3))
                    },
                }
            } else {
                None
            }
        },
    }
}

/// Reads a string array after its opening bracket at `pos`,
/// deciding [`parse_str_array`] on the remaining text.
fn p_str_array(text: &Vec<char>, pos: usize) -> (r: Option<(Vec<String>, usize)>)
    requires
        pos <= text@.len(),
    ensures
        match r {
            Some(v) => pos < v.1 <= text@.len() && parse_str_array(text@.skip(pos as int)) == Some(
                (v.0.deep_view(), text@.skip(v.1 as int)),
            ),
            None => parse_str_array(text@.skip(pos as int)) is None,
        },
{
    let ghost s = text@.skip(pos as int);
    proof {
        if s.len() >= 1 {
            assert(s[0] == text@[pos as int]);
        }
    }
    if pos < text.len() && text[pos] == ']' {
        let vs: Vec<String> = Vec::new();
        proof {
            assert(vs.deep_view() =~= Seq::<Seq<char>>::empty());
            assert(s.skip(1) =~= text@.skip(pos + 1));
        }
        Some((vs, pos + 1))
    } else {
        p_str_items(text, pos)
    }
}

/// Reads a chapter object at `pos`, deciding [`parse_chapter`] on
/// the remaining text.
#[verifier::rlimit(100)]
#[verifier::spinoff_prover]
fn p_chapter(text: &Vec<char>, pos: usize) -> (r: Option<(Chapter, usize)>)
    requires
        pos <= text@.len(),
    ensures
        match r {
            Some(v) => pos < v.1 <= text@.len() && parse_chapter(text@.skip(pos as int)) == Some(
                (chap_v(v.0), text@.skip(v.1 as int)),
            ),
            None => parse_chapter(text@.skip(pos as int)) is None,
        },
{
    let p1 = match p_expect(text, pos, "{ \"name\": ") {
        None => {
            return None;
        },
        Some(p) => p,
    };
    let (name, p2) = match p_quoted(text, p1) {
        None => {
            return None;
        },
        Some(v) => v,
    };
    let p3 = match p_expect(text, p2, ", \"notes\": [") {
        None => {
            return None;
        },
        Some(p) => p,
    };
    let (notes, p4) = match p_str_array(text, p3) {
        None => {
            return None;
        },
        Some(v) => v,
    };
    let p5 = match p_expect(text, p4, ", \"extras\": [") {
        None => {
            return None;
        },
        Some(p) => p,
    };
    let (extras, p6) = match p_str_array(text, p5) {
        None => {
            return None;
        },
        Some(v) => v,
    };
    let p7 = match p_expect(text, p6, " }") {
        None => {
            return None;
        },
        Some(p) => p,
    };
    let c = Chapter { name, notes, extras };
    proof {
        reveal_strlit("{ \"name\": ");
        assert(pos < p7);
    }
    Some((c, p7))
}

/// Reads the items of the chapters array at `pos`, deciding
/// [`parse_chapters`] on the remaining text.
fn p_chapters(text: &Vec<char>, pos: usize) -> (r: Option<(Vec<Chapter>, usize)>)
    requires
        pos <= text@.len(),
    ensures
        match r {
            Some(v) => pos < v.1 <= text@.len() && parse_chapters(text@.skip(pos as int)) == Some(
                (v.0@.map_values(|c: Chapter| chap_v(c)), text@.skip(v.1 as int)),
            ),
            None => parse_chapters(text@.skip(pos as int)) is None,
        },
    decreases text@.len() - pos,
{
    let ghost s = text@.skip(pos as int);
    match p_chapter(text, pos) {
        None => None,
        Some((c, p2)) => {
            let ghost rr = text@.skip(p2 as int);
            proof {
                assert(rr.len() == text@.len() - p2);
                if rr.len() >= 1 {
                    assert(rr[0] == text@[p2 as int]);
                }
                if rr.len() >= 2 {
                    assert(rr[1] == text@[p2 + 1]);
                }
            }
            if p2 < text.len() && text[p2] == ']' {
                let mut vs: Vec<Chapter> = Vec::new();
                vs.push(c);
                proof {
                    assert(vs@.map_values(|ch: Chapter| chap_v(ch)) =~= seq![chap_v(vs@[0])]);
                    assert(rr.skip(1) =~= text@.skip(p2 + 1));
                }
                Some((vs, p2 + 1))
            } else if text.len() - p2 >= 2 && text[p2] == ',' && text[p2 + 1] == ' ' {
                proof {
                    assert(rr.skip(2) =~= text@.skip(p2 + 2));
                }
                match p_chapters(text, p2 + 2) {
                    None => None,
                    Some((tail, p3)) => {
                        let ghost tail0 = tail@.map_values(|ch: Chapter| chap_v(ch));
                        let ghost c0 = chap_v(c);
                        let mut vs = tail;
                        vs.insert(0, c);
                        proof {
                            assert(vs@.map_values(|ch: Chapter| chap_v(ch)) =~= seq![c0] + tail0);
                        }
                        Some((vs, p3))
                    },
                }
            } else {
                None
            }
        },
    }
}

/// Reads the chapters array after its opening bracket at `pos`,
/// deciding [`parse_chapters_array`] on the remaining text.
fn p_chapters_array(text: &Vec<char>, pos: usize) -> (r: Option<(Vec<Chapter>, usize)>)
    requires
        pos <= text@.len(),
    ensures
        match r {
            Some(v) => pos < v.1 <= text@.len() && parse_chapters_array(text@.skip(pos as int))
                == Some((v.0@.map_values(|c: Chapter| chap_v(c)), text@.skip(v.1 as int))),
            None => parse_chapters_array(text@.skip(pos as int)) is None,
        },
{
    let ghost s = text@.skip(pos as int);
    proof {
        if s.len() >= 1 {
            assert(s[0] == text@[pos as int]);
        }
    }
    if pos < text.len() && text[pos] == ']' {
        let vs: Vec<Chapter> = Vec::new();
        proof {
            assert(vs@.map_values(|c: Chapter| chap_v(c)) =~= Seq::<ChapterV>::empty());
            assert(s.skip(1) =~= text@.skip(pos + 1));
        }
        Some((vs, pos + 1))
    } else {
        p_chapters(text, pos)
    }
}

/// Reads the active-chapter field at `pos`, deciding
/// [`parse_active`] on the remaining text.
fn p_active(text: &Vec<char>, pos: usize) -> (r: Option<(Option<usize>, usize)>)
    requires
        pos <= text@.len(),
    ensures
        match r {
            Some(v) => pos <= v.1 <= text@.len() && parse_active(text@.skip(pos as int)) == Some(
                (
                    match v.0 {
                        Some(i) => Some(i as nat),
                        None => Option::<nat>::None,
                    },
                    text@.skip(v.1 as int),
                ),
            ),
            None => parse_active(text@.skip(pos as int)) is None,
        },
{
    let ghost s = text@.skip(pos as int);
    match p_expect(text, pos, "null") {
        Some(p2) => {
            proof {
                reveal_strlit("null");
            }
            return Some((None, p2));
        },
        None => {},
    }
    match crate::digits::parse_usize(text, pos) {
        None => None,
        Some((n, p2)) => Some((Some(n), p2)),
    }
}

/// Reads a whole index snapshot: the canonical text gives back its
/// project; anything else, and any snapshot whose active index or
/// chapter names could not have come from a well-formed project, is
/// rejected.
#[verifier::rlimit(100)]
#[verifier::spinoff_prover]
pub fn parse_index(text: &Vec<char>) -> (r: Option<Project>)
    ensures
        (r is Some) == index_accepts(text@),
        r matches Some(p) ==> p.wf() && parse_index_spec(text@) == Some(proj_v(p)),
{
    proof {
        assert(text@.skip(0) =~= text@);
    }
    let p1 = match p_expect(text, 0, "{\n  \"path\": ") {
        None => {
            return None;
        },
        Some(p) => p,
    };
    let (path, p2) = match p_quoted(text, p1) {
        None => {
            return None;
        },
        Some(v) => v,
    };
    let p3 = match p_expect(text, p2, ",\n  \"chapters\": [") {
        None => {
            return None;
        },
        Some(p) => p,
    };
    let (chapters, p4) = match p_chapters_array(text, p3) {
        None => {
            return None;
        },
        Some(v) => v,
    };
    let p5 = match p_expect(text, p4, ",\n  \"active_chapter\": ") {
        None => {
            return None;
        },
        Some(p) => p,
    };
    let (active, p6) = match p_active(text, p5) {
        None => {
            return None;
        },
        Some(v) => v,
    };
    let p7 = match p_expect(text, p6, "\n}") {
        None => {
            return None;
        },
        Some(p) => p,
    };
    if p7 != text.len() {
        proof {
            assert(text@.skip(p7 as int).len() != 0);
        }
        return None;
    }
    proof {
        assert(text@.skip(p7 as int).len() == 0);
    }
    let ghost v = parse_index_spec(text@)->Some_0;
    proof {
        assert(parse_index_spec(text@) matches Some(w) && w.path == path@ && w.chapters
            == chapters@.map_values(|c: Chapter| chap_v(c)) && w.active == (match active {
            Some(i) => Some(i as nat),
            None => Option::<nat>::None,
        }));
    }
    match active {
        Some(i) => {
            if i >= chapters.len() {
                proof {
                    assert(!index_wf(v));
                }
                return None;
            }
        },
        None => {},
    }
    let n = chapters.len();
    for x in 0..n
        invariant
            n == chapters@.len(),
            parse_index_spec(text@) matches Some(w) && w.chapters == chapters@.map_values(
                |c: Chapter| chap_v(c),
            ),
            v == parse_index_spec(text@)->Some_0,
            forall|a: int, b: int|
                0 <= a < b < n && a < x ==> (#[trigger] chapters@[a]).name@ != (
                #[trigger] chapters@[b]).name@,
    {
        for y in (x + 1)..n
            invariant
                x < n,
                n == chapters@.len(),
                parse_index_spec(text@) matches Some(w) && w.chapters == chapters@.map_values(
                    |c: Chapter| chap_v(c),
                ),
                v == parse_index_spec(text@)->Some_0,
                forall|b: int|
                    x < b < y ==> (#[trigger] chapters@[b]).name@ != chapters@[x as int].name@,
        {
            if chapters[x].name == chapters[y].name {
                proof {
                    assert(parse_index_spec(text@) == Some(v));
                    assert(v.chapters.len() == chapters@.len());
                    assert(v.chapters[x as int] == chap_v(chapters@[x as int]));
                    assert(v.chapters[y as int] == chap_v(chapters@[y as int]));
                    assert(v.chapters[x as int].name == v.chapters[y as int].name);
                    assert((x as int) < (y as int));
                    assert((y as int) < v.chapters.len());
                    assert(!index_wf(v));
                    assert(index_accepts(text@) == index_wf(v));
                }
                return None;
            }
        }
    }
    let project = Project { path, chapters, active_chapter: active };
    proof {
        assert(proj_v(project) == v) by {
            assert(proj_v(project).chapters =~= v.chapters);
        }
        assert(index_wf(v));
        assert(project.wf());
    }
    Some(project)
}


/// An empty file is not an index snapshot.
pub proof fn lemma_empty_index_rejected()
    ensures
        !index_accepts(Seq::<char>::empty()),
        parse_index_spec(Seq::<char>::empty()) is None,
{
    reveal_strlit("{\n  \"path\": ");
    assert("{\n  \"path\": "@.len() == 12);
    assert(!"{\n  \"path\": "@.is_prefix_of(Seq::<char>::empty()));
}

} // verus!
