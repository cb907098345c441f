//! The filename codec.
//!
//! A note's file name encodes its record key: a zero-padded sequence
//! number, a date, and a title, joined by underscores and ended by the
//! note suffix, as in `0001_2026-01-12_Title.md`.  Parsing splits on
//! the separator and rejoins every trailing segment, so a title may
//! itself contain the separator; a malformed name never fails, it
//! degrades to the triple `(0, "unknown", name)`.
//!
//! This module also holds the path helpers the planner uses: finding
//! the file-name portion of a path and the prefix it hangs from.

use vstd::prelude::*;
use crate::text::all_digits;
use crate::text::chars_of;
use crate::text::copy_range;
use crate::text::find_char_from;
use crate::text::is_digit_char;
use crate::text::is_reserved_char;
use crate::text::lemma_digits_are_digits;
use crate::text::lemma_digits_val_roundtrip;
use crate::text::lemma_digits_val_zeros;
use crate::text::lemma_find_props;
use crate::text::lemma_join_split;
use crate::text::lemma_split_len;
use crate::text::lemma_split_peel;
use crate::text::lemma_split_sep_free;
use crate::text::lemma_split_whole;
use crate::text::match_at;
use crate::text::parse_seq_num;
use crate::text::push_all;
use crate::text::push_digits_u32;
use crate::text::spec_digits;
use crate::text::spec_digits_val;
use crate::text::spec_find;
use crate::text::spec_join;
use crate::text::spec_pad4;
use crate::text::spec_parse_seq_num;
use crate::text::spec_split;
use crate::text::spec_trim;
use crate::text::string_of;
use crate::text::trim_chars;

verus! {

/// The note-file suffix, `.md`.
pub open spec fn md_suffix() -> Seq<char> {
    seq!['.', 'm', 'd']
}

pub open spec fn ends_with_md(s: Seq<char>) -> bool {
    s.len() >= 3 && s[s.len() - 3] == '.' && s[s.len() - 2] == 'm' && s[s.len() - 1] == 'd'
}

/// `s` with every trailing `.md` removed.
pub open spec fn spec_strip_md(s: Seq<char>) -> Seq<char>
    decreases s.len(),
{
    if ends_with_md(s) {
        spec_strip_md(s.take(s.len() - 3))
    } else {
        s
    }
}

/// The decoded triple of a file name: sequence number, date, title.
pub open spec fn spec_parse_filename(name: Seq<char>) -> (int, Seq<char>, Seq<char>) {
    let parts = spec_split(name, '_');
    if parts.len() >= 3 {
        (
            spec_parse_seq_num(parts[0]),
            parts[1],
            spec_strip_md(spec_join(parts.skip(2), '_')),
        )
    } else {
        (0int, "unknown"@, name)
    }
}

/// The encoded file name of a record key.
pub open spec fn spec_generate_filename(seq: int, date: Seq<char>, title: Seq<char>) -> Seq<char> {
    spec_pad4(seq) + seq!['_'] + date + seq!['_'] + title + md_suffix()
}

/// A reserved-character-free, trimmed form of a title.
pub open spec fn spec_sanitize(s: Seq<char>) -> Seq<char> {
    spec_trim(s.map_values(|c: char| if is_reserved_char(c) { ' ' } else { c }))
}

/// Removes every trailing `.md`, as `spec_strip_md` describes.
fn strip_md_suffix(v: &Vec<char>) -> (r: Vec<char>)
    ensures
        r@ == spec_strip_md(v@),
{
    let mut end: usize = v.len();
    proof {
        assert(v@.take(end as int) =~= v@);
    }
    while end >= 3 && v[end - 3] == '.' && v[end - 2] == 'm' && v[end - 1] == 'd'
        invariant
            end <= v@.len(),
            spec_strip_md(v@) == spec_strip_md(v@.take(end as int)),
        decreases end,
    {
        proof {
            let t = v@.take(end as int);
            assert(ends_with_md(t));
            assert(t.take(t.len() - 3) =~= v@.take(end - 3));
        }
        end = end - 3;
    }
    proof {
        assert(!ends_with_md(v@.take(end as int)));
    }
    copy_range(v, 0, end)
}

/// Decodes a file name into `(sequence, date, title)`.
///
/// Splits on `_`; the first segment is the sequence number, the second
/// the date, and the remaining segments, rejoined on `_` with every
/// trailing `.md` removed, the title.  A name with fewer than three
/// segments yields `(0, "unknown", name)`.
pub fn parse_filename(filename: &str) -> (r: (i32, String, String))
    ensures
        r.0 as int == spec_parse_filename(filename@).0,
        r.1@ == spec_parse_filename(filename@).1,
        r.2@ == spec_parse_filename(filename@).2,
{
    let v = chars_of(filename);
    let n: usize = v.len();
    let o1 = find_char_from(&v, '_', 0);
    proof {
        lemma_find_props(v@, seq!['_'], 0);
    }
    let i1 = match o1 {
        Some(i) => i,
        None => {
            proof {
                assert forall|k: int| 0 <= k < v@.len() implies v@[k] != '_' by {
                    if v@[k] == '_' {
                        crate::text::lemma_char_match(v@, '_', k);
                    }
                }
                lemma_split_whole(v@, '_');
                assert(spec_split(v@, '_').len() == 1);
            }
            let mut u: String = String::new();
            u.append("unknown");
            proof {
                assert(u@ =~= "unknown"@);
            }
            return (0, u, string_of(&v));
        }
    };
    let o2 = find_char_from(&v, '_', i1 + 1);
    proof {
        lemma_find_props(v@, seq!['_'], i1 + 1);
    }
    let i2 = match o2 {
        Some(i) => i,
        None => {
            proof {
                let a = v@.take(i1 as int);
                let b = v@.skip(i1 + 1);
                assert forall|k: int| 0 <= k < a.len() implies a[k] != '_' by {
                    assert(a[k] == v@[k]);
                    if v@[k] == '_' {
                        crate::text::lemma_char_match(v@, '_', k);
                    }
                }
                assert(match_at(v@, seq!['_'], i1 as int));
                crate::text::lemma_match_char(v@, '_', i1 as int);
                assert(v@ =~= a + seq!['_'] + b);
                lemma_split_peel(a, b, '_');
                assert forall|k: int| 0 <= k < b.len() implies b[k] != '_' by {
                    assert(b[k] == v@[k + i1 + 1]);
                    if v@[k + i1 + 1] == '_' {
                        crate::text::lemma_char_match(v@, '_', k + i1 + 1);
                    }
                }
                lemma_split_whole(b, '_');
                assert(spec_split(v@, '_').len() == 2);
            }
            let mut u: String = String::new();
            u.append("unknown");
            proof {
                assert(u@ =~= "unknown"@);
            }
            return (0, u, string_of(&v));
        }
    };
    let seq_part = copy_range(&v, 0, i1);
    let date_part = copy_range(&v, i1 + 1, i2);
    let rest_part = copy_range(&v, i2 + 1, n);
    proof {
        let a = v@.take(i1 as int);
        let mid = v@.subrange(i1 + 1, i2 as int);
        let rest = v@.skip(i2 + 1);
        assert(match_at(v@, seq!['_'], i1 as int));
        crate::text::lemma_match_char(v@, '_', i1 as int);
        assert(match_at(v@, seq!['_'], i2 as int));
        crate::text::lemma_match_char(v@, '_', i2 as int);
        assert forall|k: int| 0 <= k < a.len() implies a[k] != '_' by {
            assert(a[k] == v@[k]);
            if v@[k] == '_' {
                crate::text::lemma_char_match(v@, '_', k);
            }
        }
        assert forall|k: int| 0 <= k < mid.len() implies mid[k] != '_' by {
            assert(mid[k] == v@[k + i1 + 1]);
            if v@[k + i1 + 1] == '_' {
                crate::text::lemma_char_match(v@, '_', k + i1 + 1);
            }
        }
        assert(v@ =~= a + seq!['_'] + (mid + seq!['_'] + rest));
        lemma_split_peel(a, mid + seq!['_'] + rest, '_');
        lemma_split_peel(mid, rest, '_');
        lemma_split_len(rest, '_');
        let parts = spec_split(v@, '_');
        assert(parts =~~= seq![a] + (seq![mid] + spec_split(rest, '_')));
        assert(parts.len() >= 3);
        assert(parts[0] == a);
        assert(parts[1] == mid);
        assert(parts.skip(2) =~= spec_split(rest, '_'));
        lemma_join_split(rest, '_');
        assert(spec_join(parts.skip(2), '_') == rest);
        assert(seq_part@ == a);
        assert(date_part@ == mid);
        assert(rest_part@ == rest);
    }
    let seq_num = parse_seq_num(&seq_part);
    let title = strip_md_suffix(&rest_part);
    (seq_num, string_of(&date_part), string_of(&title))
}

/// Encodes a record key as a file name: the sequence number zero-padded
/// to at least four digits, the date, and the title, joined by `_` and
/// ended with `.md`.
pub fn generate_filename(seq: i32, date: &str, context: &str) -> (r: String)
    requires
        seq >= 0,
    ensures
        r@ == spec_generate_filename(seq as int, date@, context@),
{
    let mut digits: Vec<char> = Vec::new();
    push_digits_u32(seq as u32, &mut digits);
    let mut out: Vec<char> = Vec::new();
    let dlen: usize = digits.len();
    let mut z: usize = dlen;
    while z < 4
        invariant
            digits@ == spec_digits(seq as int),
            dlen == digits@.len(),
            dlen <= z <= 4 || (z == dlen && z >= 4),
            out@ =~= Seq::<char>::new((z - dlen) as nat, |k: int| '0'),
        decreases 4 - z,
    {
        out.push('0');
        z = z + 1;
        proof {
            assert(out@ =~= Seq::<char>::new((z - dlen) as nat, |k: int| '0'));
        }
    }
    push_all(&mut out, &digits);
    proof {
        assert(out@ =~= spec_pad4(seq as int));
    }
    out.push('_');
    let datev = chars_of(date);
    push_all(&mut out, &datev);
    out.push('_');
    let ctxv = chars_of(context);
    push_all(&mut out, &ctxv);
    out.push('.');
    out.push('m');
    out.push('d');
    proof {
        assert(out@ =~= spec_generate_filename(seq as int, date@, context@));
    }
    string_of(&out)
}

/// Replaces each filesystem-reserved character with a space and trims
/// surrounding whitespace; everything else passes through unchanged.
pub fn sanitize_context(context: &str) -> (r: String)
    ensures
        r@ == spec_sanitize(context@),
{
    let v = chars_of(context);
    let mut mapped: Vec<char> = Vec::new();
    let mut i: usize = 0;
    while i < v.len()
        invariant
            i <= v@.len(),
            mapped@.len() == i,
            forall|k: int| 0 <= k < i
                ==> mapped@[k] == (if is_reserved_char(v@[k]) { ' ' } else { v@[k] }),
        decreases v@.len() - i,
    {
        let c = v[i];
        if c == '\\' || c == '/' || c == ':' || c == '*' || c == '?' || c == '"' || c == '<'
            || c == '>' || c == '|' {
            mapped.push(' ');
        } else {
            mapped.push(c);
        }
        i = i + 1;
    }
    proof {
        lemma_map_reserved(v@, mapped@);
    }
    let trimmed = trim_chars(&mapped);
    string_of(&trimmed)
}

proof fn lemma_map_reserved(s: Seq<char>, t: Seq<char>)
    requires
        t.len() == s.len(),
        forall|k: int| 0 <= k < s.len()
            ==> t[k] == (if is_reserved_char(s[k]) { ' ' } else { s[k] }),
    ensures
        t =~= s.map_values(|c: char| if is_reserved_char(c) { ' ' } else { c }),
{
}

/// The parsed sequence number is a representable non-negative count,
/// the parsed date never contains the separator, and when the file
/// name is free of path separators so are the parsed date and title.
pub proof fn lemma_parse_filename_shape(name: Seq<char>)
    ensures
        0 <= spec_parse_filename(name).0 <= i32::MAX,
        forall|k: int|
            0 <= k < spec_parse_filename(name).1.len() ==> spec_parse_filename(name).1[k] != '_',
        (forall|k: int| 0 <= k < name.len() ==> !is_sep_char(name[k])) ==> forall|k: int|
            0 <= k < spec_parse_filename(name).1.len() ==> !is_sep_char(
                spec_parse_filename(name).1[k],
            ),
{
    let parts = spec_split(name, '_');
    if parts.len() >= 3 {
        lemma_split_sep_free(name, '_');
        assert(forall|k: int| 0 <= k < parts[1].len() ==> parts[1][k] != '_');
        if all_digits(parts[0]) {
            crate::text::lemma_digits_val_nonneg(parts[0]);
        }
        if forall|k: int| 0 <= k < name.len() ==> !is_sep_char(name[k]) {
            crate::text::lemma_split_chars(name, '_');
            assert forall|k: int|
                0 <= k < spec_parse_filename(name).1.len() implies !is_sep_char(
                spec_parse_filename(name).1[k],
            ) by {
                assert(name.contains(parts[1][k]));
                let j = choose|j: int| 0 <= j < name.len() && name[j] == parts[1][k];
                assert(!is_sep_char(name[j]));
            }
        }
    } else {
        reveal_strlit("unknown");
        assert forall|k: int|
            0 <= k < spec_parse_filename(name).1.len() implies spec_parse_filename(name).1[k]
            != '_' by {
            assert(spec_parse_filename(name).1 == "unknown"@);
        }
        assert forall|k: int|
            0 <= k < spec_parse_filename(name).1.len() implies !is_sep_char(
            spec_parse_filename(name).1[k],
        ) by {
            assert(spec_parse_filename(name).1 == "unknown"@);
        }
    }
}

/// A sanitized title contains no path separators: both separators are
/// reserved characters and are mapped away.
pub proof fn lemma_sanitize_no_sep(s: Seq<char>)
    ensures
        forall|k: int|
            0 <= k < spec_sanitize(s).len() ==> !is_sep_char(#[trigger] spec_sanitize(s)[k]),
{
    let f = |c: char| if is_reserved_char(c) { ' ' } else { c };
    let mapped = s.map_values(f);
    crate::text::lemma_trim_chars_from(mapped);
    assert forall|k: int|
        0 <= k < spec_sanitize(s).len() implies !is_sep_char(#[trigger] spec_sanitize(s)[k]) by {
        assert(mapped.contains(spec_sanitize(s)[k]));
        let j = choose|j: int| 0 <= j < mapped.len() && mapped[j] == spec_sanitize(s)[k];
        assert(mapped[j] == f(s[j]));
    }
}

// ---------------------------------------------------------------------------
// Path helpers
// ---------------------------------------------------------------------------

/// Path separators this crate understands.
pub open spec fn is_sep_char(c: char) -> bool {
    c == '/' || c == '\\'
}

/// A trailing `.` path segment: the text ends in a lone dot that is
/// a whole segment of its own.
pub open spec fn dot_seg_end(t: Seq<char>) -> bool {
    t.len() >= 1 && t[t.len() - 1] == '.' && (t.len() == 1 || is_sep_char(t[t.len() - 2]))
}

/// `s` without trailing separators and trailing `.` segments, the
/// way the standard path reader ignores them: `a/`, `a/.` and `a/./`
/// all leave `a`.
pub open spec fn spec_strip_tail(s: Seq<char>) -> Seq<char>
    decreases s.len(),
{
    if s.len() == 0 {
        s
    } else if is_sep_char(s[s.len() - 1]) || dot_seg_end(s) {
        spec_strip_tail(s.drop_last())
    } else {
        s
    }
}

/// Stripping the tail leaves a prefix that ends in neither a
/// separator nor a `.` segment.
pub proof fn lemma_strip_tail_props(s: Seq<char>)
    ensures
        spec_strip_tail(s).len() <= s.len(),
        spec_strip_tail(s) == s.take(spec_strip_tail(s).len() as int),
        spec_strip_tail(s).len() == 0 || (!is_sep_char(
            spec_strip_tail(s)[spec_strip_tail(s).len() - 1],
        ) && !dot_seg_end(spec_strip_tail(s))),
    decreases s.len(),
{
    if s.len() == 0 {
        assert(s.take(0) =~= s);
    } else if is_sep_char(s[s.len() - 1]) || dot_seg_end(s) {
        lemma_strip_tail_props(s.drop_last());
        let t = spec_strip_tail(s);
        assert(s.drop_last().take(t.len() as int) =~= s.take(t.len() as int));
    } else {
        assert(s.take(s.len() as int) =~= s);
    }
}

/// The position just after the last separator of `t`, or 0.
pub open spec fn spec_cut_pos(t: Seq<char>) -> int
    decreases t.len(),
{
    if t.len() == 0 {
        0
    } else if is_sep_char(t[t.len() - 1]) {
        t.len() as int
    } else {
        spec_cut_pos(t.take(t.len() - 1))
    }
}

/// A path's directory prefix (separator kept) and file name.
///
/// Trailing separators and trailing `.` segments are ignored, as the
/// standard path reader ignores them: `a/.` names `a`.  There is no
/// file name when nothing is left, or when the last real segment is
/// `..`.  The prefix keeps the separators exactly as written, doubled
/// ones too, where the standard library's path type would render
/// `dir//a` and `dir/a` alike.
pub open spec fn spec_split_path(s: Seq<char>) -> Option<(Seq<char>, Seq<char>)> {
    let t = spec_strip_tail(s);
    if t.len() == 0 {
        None
    } else {
        let cut = spec_cut_pos(t);
        let name = t.skip(cut);
        if name == seq!['.', '.'] {
            None
        } else {
            Some((t.take(cut), name))
        }
    }
}

/// The error a save reports for a path without a usable file name:
/// `No parent` when nothing but a root (or nothing at all) remains
/// once separators and `.` segments are ignored — the case where the
/// path has no parent directory — and `Invalid path` for a last
/// segment of `.` or `..` under a parent.
pub open spec fn spec_path_err(s: Seq<char>) -> Seq<char> {
    if spec_strip_tail(s).len() == 0 && (s.len() == 0 || is_sep_char(s[0])) {
        "No parent"@
    } else {
        "Invalid path"@
    }
}

proof fn lemma_cut_pos_is(t: Seq<char>, c: int)
    requires
        0 <= c <= t.len(),
        forall|k: int| c <= k < t.len() ==> !is_sep_char(t[k]),
        c == 0 || is_sep_char(t[c - 1]),
    ensures
        spec_cut_pos(t) == c,
    decreases t.len(),
{
    if t.len() == 0 {
    } else if is_sep_char(t[t.len() - 1]) {
        assert(c == t.len());
    } else {
        assert(c < t.len());
        let u = t.take(t.len() - 1);
        assert forall|k: int| c <= k < u.len() implies !is_sep_char(u[k]) by {
            assert(u[k] == t[k]);
        }
        if c > 0 {
            assert(u[c - 1] == t[c - 1]);
        }
        lemma_cut_pos_is(u, c);
    }
}

/// Splits a path into its directory prefix and file name, as
/// `spec_split_path` describes.
pub fn split_path(path: &str) -> (r: Option<(String, String)>)
    ensures
        match r {
            Some(pr) => spec_split_path(path@) == Some((pr.0@, pr.1@)),
            None => spec_split_path(path@) is None,
        },
{
    let v = chars_of(path);
    let n: usize = v.len();
    let b = strip_tail_exec(&v);
    if b == 0 {
        return None;
    }
    let ghost t = v@.take(b as int);
    let mut c: usize = b;
    while c > 0 && !(v[c - 1] == '/' || v[c - 1] == '\\')
        invariant
            n == v@.len(),
            c <= b <= n,
            t == v@.take(b as int),
            forall|k: int| c <= k < b ==> !is_sep_char(v@[k]),
        decreases c,
    {
        c = c - 1;
    }
    proof {
        assert forall|k: int| c <= k < t.len() implies !is_sep_char(t[k]) by {
            assert(t[k] == v@[k]);
        }
        if c > 0 {
            assert(t[c - 1] == v@[c - 1]);
        }
        lemma_cut_pos_is(t, c as int);
    }
    let name = copy_range(&v, c, b);
    let prefix = copy_range(&v, 0, c);
    proof {
        assert(name@ =~= t.skip(c as int));
        assert(prefix@ =~= t.take(c as int));
    }
    let bad = if name.len() == 2 {
        name[0] == '.' && name[1] == '.'
    } else {
        false
    };
    if bad {
        proof {
            assert(name@ =~= seq!['.', '.']);
        }
        return None;
    }
    proof {
        assert(name@ != seq!['.', '.']) by {
            if name@ == seq!['.', '.'] {
                assert(name@.len() == 2 && name@[0] == '.' && name@[1] == '.');
            }
        }
    }
    Some((string_of(&prefix), string_of(&name)))
}

/// The length of a path's stripped tail, as `spec_strip_tail`
/// describes: the end of the path once trailing separators and `.`
/// segments are ignored.
fn strip_tail_exec(v: &Vec<char>) -> (b: usize)
    ensures
        b <= v@.len(),
        spec_strip_tail(v@) == v@.take(b as int),
{
    let n: usize = v.len();
    let mut b: usize = n;
    proof {
        assert(v@.take(n as int) =~= v@);
    }
    while b > 0 && (v[b - 1] == '/' || v[b - 1] == '\\' || (v[b - 1] == '.' && (b == 1 || v[b
        - 2] == '/' || v[b - 2] == '\\')))
        invariant
            n == v@.len(),
            b <= n,
            spec_strip_tail(v@) == spec_strip_tail(v@.take(b as int)),
        decreases b,
    {
        proof {
            let t = v@.take(b as int);
            assert(t.len() == b);
            assert(t[t.len() - 1] == v@[b - 1]);
            if b >= 2 {
                assert(t[t.len() - 2] == v@[b - 2]);
            }
            assert(is_sep_char(t[t.len() - 1]) || dot_seg_end(t));
            assert(t.drop_last() =~= v@.take(b - 1));
        }
        b = b - 1;
    }
    proof {
        let t = v@.take(b as int);
        if b > 0 {
            assert(t[t.len() - 1] == v@[b - 1]);
            assert(!is_sep_char(t[t.len() - 1]));
            assert(!dot_seg_end(t)) by {
                if dot_seg_end(t) {
                    assert(v@[b - 1] == '.');
                    if t.len() >= 2 {
                        assert(t[t.len() - 2] == v@[b - 2]);
                    }
                }
            }
            assert(spec_strip_tail(t) == t);
        } else {
            assert(t.len() == 0);
            assert(spec_strip_tail(t) == t);
        }
    }
    b
}

/// Words the error of an unusable path, as `spec_path_err` describes.
pub fn path_err_string(path: &str) -> (r: String)
    ensures
        r@ == spec_path_err(path@),
{
    let v = chars_of(path);
    let b = strip_tail_exec(&v);
    let first_is_sep = if v.len() > 0 {
        v[0] == '/' || v[0] == '\\'
    } else {
        false
    };
    let mut e: String = String::new();
    if b == 0 && (v.len() == 0 || first_is_sep) {
        proof {
            assert(spec_strip_tail(path@).len() == 0) by {
                assert(spec_strip_tail(v@) == v@.take(0));
            }
        }
        e.append("No parent");
        proof {
            assert(e@ =~= "No parent"@);
        }
    } else {
        proof {
            if b > 0 {
                assert(spec_strip_tail(path@).len() == b);
            }
        }
        e.append("Invalid path");
        proof {
            assert(e@ =~= "Invalid path"@);
        }
    }
    e
}

pub proof fn lemma_cut_pos_props(t: Seq<char>)
    ensures
        0 <= spec_cut_pos(t) <= t.len(),
        forall|k: int| spec_cut_pos(t) <= k < t.len() ==> !is_sep_char(t[k]),
        spec_cut_pos(t) == 0 || is_sep_char(t[spec_cut_pos(t) - 1]),
    decreases t.len(),
{
    if t.len() == 0 {
    } else if is_sep_char(t[t.len() - 1]) {
    } else {
        lemma_cut_pos_props(t.take(t.len() - 1));
        let u = t.take(t.len() - 1);
        assert forall|k: int| spec_cut_pos(t) <= k < t.len() implies !is_sep_char(t[k]) by {
            if k < t.len() - 1 {
                assert(t[k] == u[k]);
            }
        }
        if spec_cut_pos(t) > 0 {
            assert(t[spec_cut_pos(t) - 1] == u[spec_cut_pos(t) - 1]);
        }
    }
}

/// What a successful path split guarantees about its parts.
pub proof fn lemma_split_path_props(s: Seq<char>)
    ensures
        match spec_split_path(s) {
            Some(pr) => {
                &&& pr.0.len() == 0 || is_sep_char(pr.0[pr.0.len() - 1])
                &&& pr.1.len() > 0
                &&& forall|k: int| 0 <= k < pr.1.len() ==> !is_sep_char(pr.1[k])
                &&& pr.1 != seq!['.'] && pr.1 != seq!['.', '.']
            },
            None => true,
        },
{
    match spec_split_path(s) {
        Some(pr) => {
            let t = spec_strip_tail(s);
            let cut = spec_cut_pos(t);
            lemma_cut_pos_props(t);
            lemma_strip_tail_props(s);
            assert(pr.0 == t.take(cut));
            assert(pr.1 == t.skip(cut));
            if cut > 0 {
                assert(pr.0[pr.0.len() - 1] == t[cut - 1]);
            }
            assert forall|k: int| 0 <= k < pr.1.len() implies !is_sep_char(pr.1[k]) by {
                assert(pr.1[k] == t[k + cut]);
            }
            if cut == t.len() {
                // the stripped tail never ends in a separator
                assert(t.len() > 0);
                assert(cut > 0);
                assert(is_sep_char(t[cut - 1]));
                assert(false);
            }
            assert(pr.1 != seq!['.']) by {
                if pr.1 == seq!['.'] {
                    // a lone-dot name would still be a stripped `.` segment
                    assert(pr.1.len() == 1);
                    assert(pr.1[0] == t[cut]);
                    assert(t[t.len() - 1] == '.');
                    if cut > 0 {
                        assert(t[t.len() - 2] == t[cut - 1]);
                        assert(is_sep_char(t[t.len() - 2]));
                    }
                    assert(dot_seg_end(t));
                }
            }
        }
        None => {}
    }
}

/// Joining a directory prefix (ending in its separator, or empty)
/// with a separator-free, non-dot file name splits back into the two.
pub proof fn lemma_split_path_join(prefix: Seq<char>, name: Seq<char>)
    requires
        prefix.len() == 0 || is_sep_char(prefix[prefix.len() - 1]),
        name.len() > 0,
        forall|k: int| 0 <= k < name.len() ==> !is_sep_char(name[k]),
        name != seq!['.'],
        name != seq!['.', '.'],
    ensures
        spec_split_path(prefix + name) == Some((prefix, name)),
{
    let s = prefix + name;
    assert(s[s.len() - 1] == name[name.len() - 1]);
    assert(!is_sep_char(s[s.len() - 1]));
    assert(!dot_seg_end(s)) by {
        if dot_seg_end(s) {
            if s.len() == 1 {
                assert(prefix.len() == 0 && name.len() == 1);
                assert(name[0] == s[0]);
                assert(name =~= seq!['.']);
            } else if name.len() == 1 {
                assert(s[s.len() - 2] == prefix[prefix.len() - 1]);
                assert(name[0] == s[s.len() - 1]);
                assert(name =~= seq!['.']);
            } else {
                assert(s[s.len() - 2] == name[name.len() - 2]);
                assert(!is_sep_char(name[name.len() - 2]));
            }
        }
    }
    assert(spec_strip_tail(s) == s);
    assert forall|k: int| prefix.len() <= k < s.len() implies !is_sep_char(s[k]) by {
        assert(s[k] == name[k - prefix.len()]);
    }
    if prefix.len() > 0 {
        assert(s[prefix.len() - 1] == prefix[prefix.len() - 1]);
    }
    lemma_cut_pos_is(s, prefix.len() as int);
    assert(s.take(prefix.len() as int) =~= prefix);
    assert(s.skip(prefix.len() as int) =~= name);
}

/// The file-name portion of a path, for log lines; `[unknown]` when
/// the path has none.
pub open spec fn spec_sanitize_path(s: Seq<char>) -> Seq<char> {
    match spec_split_path(s) {
        Some(pr) => pr.1,
        None => "[unknown]"@,
    }
}

/// Reduces a path to its file name, as `spec_sanitize_path` describes.
pub fn sanitize_path(path: &str) -> (r: String)
    ensures
        r@ == spec_sanitize_path(path@),
{
    match split_path(path) {
        Some(pr) => pr.1,
        None => {
            let mut u: String = String::new();
            u.append("[unknown]");
            proof {
                assert(u@ =~= "[unknown]"@);
            }
            u
        }
    }
}

/// The round-trip law of the filename codec: generating a file name
/// from a key and parsing it back restores the key exactly, for any
/// representable sequence number, any date free of the separator, and
/// any title that does not end in the note suffix.
pub proof fn lemma_parse_generate_roundtrip(seq: int, date: Seq<char>, title: Seq<char>)
    requires
        0 <= seq <= i32::MAX,
        forall|k: int| 0 <= k < date.len() ==> date[k] != '_',
        !ends_with_md(title),
    ensures
        spec_parse_filename(spec_generate_filename(seq, date, title)) == (seq, date, title),
{
    let pad = spec_pad4(seq);
    let rest = title + md_suffix();
    let name = spec_generate_filename(seq, date, title);
    lemma_digits_are_digits(seq);
    let d = spec_digits(seq);
    let zeros = Seq::<char>::new(if d.len() >= 4 { 0nat } else { (4 - d.len()) as nat }, |k: int| '0');
    assert(pad =~= zeros + d);
    assert forall|k: int| 0 <= k < pad.len() implies is_digit_char(#[trigger] pad[k]) by {
        if k < zeros.len() {
            assert(pad[k] == '0');
        } else {
            assert(pad[k] == d[k - zeros.len()]);
        }
    }
    assert(all_digits(pad));
    assert forall|k: int| 0 <= k < pad.len() implies pad[k] != '_' by {
        assert(is_digit_char(pad[k]));
    }
    assert(name =~= pad + seq!['_'] + (date + seq!['_'] + rest));
    lemma_split_peel(pad, date + seq!['_'] + rest, '_');
    lemma_split_peel(date, rest, '_');
    lemma_split_len(rest, '_');
    let parts = spec_split(name, '_');
    assert(parts =~~= seq![pad] + (seq![date] + spec_split(rest, '_')));
    assert(parts.len() >= 3);
    assert(parts[0] == pad);
    assert(parts[1] == date);
    assert(parts.skip(2) =~= spec_split(rest, '_'));
    lemma_join_split(rest, '_');
    assert(spec_join(parts.skip(2), '_') == rest);
    lemma_digits_val_zeros(zeros, d);
    lemma_digits_val_roundtrip(seq);
    assert(spec_digits_val(pad) == seq);
    assert(pad.len() >= 1);
    assert(spec_parse_seq_num(pad) == seq);
    assert(rest.len() == title.len() + 3);
    assert(rest[rest.len() - 3] == '.');
    assert(rest[rest.len() - 2] == 'm');
    assert(rest[rest.len() - 1] == 'd');
    assert(ends_with_md(rest));
    assert(rest.take(rest.len() - 3) =~= title);
    assert(spec_strip_md(title) == title);
    assert(spec_strip_md(rest) == title);
    assert(spec_parse_filename(name).0 == seq);
    assert(spec_parse_filename(name).1 == date);
    assert(spec_parse_filename(name).2 == title);
}

} // verus!
