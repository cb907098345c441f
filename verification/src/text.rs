//! Character-level text utilities.
//!
//! All of the note formats in this crate (file names, header fields,
//! tag lists) are defined over sequences of characters.  This module
//! supplies the shared machinery: conversion between `String` and
//! `Vec<char>`, character classes, first-occurrence search, splitting
//! and joining on separators, trimming, and decimal numerals.

use vstd::prelude::*;

verus! {

// ---------------------------------------------------------------------------
// String <-> Vec<char>
// ---------------------------------------------------------------------------

/// Relies on `String::push`: appends exactly one character.
#[verifier::external_body]
pub fn push_char(s: &mut String, c: char)
    ensures
        final(s)@ == old(s)@ + seq![c],
{
    s.push(c);
}

/// The characters of `s`, in order, as a vector.
pub fn chars_of(s: &str) -> (r: Vec<char>)
    ensures
        r@ == s@,
{
    let n: usize = s.unicode_len();
    let mut r: Vec<char> = Vec::new();
    let mut i: usize = 0;
    while i < n
        invariant
            n == s@.len(),
            i <= n,
            r@ == s@.take(i as int),
        decreases n - i,
    {
        r.push(s.get_char(i));
        i = i + 1;
        proof {
            assert(s@.take(i as int) =~= s@.take(i - 1) + seq![s@[i - 1]]);
        }
    }
    proof {
        assert(s@.take(n as int) =~= s@);
    }
    r
}

/// The characters of `v`, in order, as a `String`.
pub fn string_of(v: &Vec<char>) -> (r: String)
    ensures
        r@ == v@,
{
    let mut r: String = String::new();
    let mut i: usize = 0;
    while i < v.len()
        invariant
            i <= v@.len(),
            r@ == v@.take(i as int),
        decreases v@.len() - i,
    {
        push_char(&mut r, v[i]);
        i = i + 1;
        proof {
            assert(v@.take(i as int) =~= v@.take(i - 1) + seq![v@[i - 1]]);
        }
    }
    proof {
        assert(v@.take(v@.len() as int) =~= v@);
    }
    r
}

// ---------------------------------------------------------------------------
// Character classes
// ---------------------------------------------------------------------------

/// Whitespace, as this crate's formats understand it (ASCII).
pub open spec fn is_ws_char(c: char) -> bool {
    c == ' ' || c == '\t' || c == '\n' || c == '\r' || c == '\u{000B}' || c == '\u{000C}'
}

pub fn exec_is_ws(c: char) -> (r: bool)
    ensures
        r == is_ws_char(c),
{
    c == ' ' || c == '\t' || c == '\n' || c == '\r' || c == '\u{000B}' || c == '\u{000C}'
}

/// Word characters, used for boundary-anchored field lookup.
pub open spec fn is_word_char(c: char) -> bool {
    ('a' as u32 <= c as u32 && c as u32 <= 'z' as u32)
    || ('A' as u32 <= c as u32 && c as u32 <= 'Z' as u32)
    || ('0' as u32 <= c as u32 && c as u32 <= '9' as u32)
    || c == '_'
}

pub fn exec_is_word(c: char) -> (r: bool)
    ensures
        r == is_word_char(c),
{
    let u: u32 = c as u32;
    ('a' as u32 <= u && u <= 'z' as u32)
    || ('A' as u32 <= u && u <= 'Z' as u32)
    || ('0' as u32 <= u && u <= '9' as u32)
    || c == '_'
}

pub open spec fn is_digit_char(c: char) -> bool {
    '0' as u32 <= c as u32 && c as u32 <= '9' as u32
}

pub fn exec_is_digit(c: char) -> (r: bool)
    ensures
        r == is_digit_char(c),
{
    let u: u32 = c as u32;
    '0' as u32 <= u && u <= '9' as u32
}

/// The numeric value of a digit character.
pub open spec fn digit_val(c: char) -> int {
    c as u32 - '0' as u32
}

/// Characters that may not appear in a file name.
pub open spec fn is_reserved_char(c: char) -> bool {
    c == '\\' || c == '/' || c == ':' || c == '*' || c == '?' || c == '"' || c == '<'
    || c == '>' || c == '|'
}

// ---------------------------------------------------------------------------
// First position satisfying a predicate
// ---------------------------------------------------------------------------

/// The least `i` in `[from, end)` with `p(i)`, if any.
pub open spec fn first_pos(p: spec_fn(int) -> bool, from: int, end: int) -> Option<int>
    decreases end - from,
{
    if from >= end {
        None
    } else if p(from) {
        Some(from)
    } else {
        first_pos(p, from + 1, end)
    }
}

pub proof fn lemma_first_pos_props(p: spec_fn(int) -> bool, from: int, end: int)
    ensures
        match first_pos(p, from, end) {
            Some(i) => from <= i < end && p(i) && forall|j: int| from <= j < i ==> !#[trigger] p(j),
            None => forall|j: int| from <= j < end ==> !#[trigger] p(j),
        },
    decreases end - from,
{
    if from >= end {
    } else if p(from) {
    } else {
        lemma_first_pos_props(p, from + 1, end);
    }
}

pub proof fn lemma_first_pos_is(p: spec_fn(int) -> bool, from: int, end: int, i: int)
    requires
        from <= i < end,
        p(i),
        forall|j: int| from <= j < i ==> !#[trigger] p(j),
    ensures
        first_pos(p, from, end) == Some(i),
    decreases i - from,
{
    if from < i {
        lemma_first_pos_is(p, from + 1, end, i);
    }
}

pub proof fn lemma_first_pos_none(p: spec_fn(int) -> bool, from: int, end: int)
    requires
        forall|j: int| from <= j < end ==> !#[trigger] p(j),
    ensures
        first_pos(p, from, end) is None,
    decreases end - from,
{
    if from < end {
        lemma_first_pos_none(p, from + 1, end);
    }
}

// ---------------------------------------------------------------------------
// Substring matching and first-occurrence search
// ---------------------------------------------------------------------------

/// `pat` occurs in `s` starting at `i`.
pub open spec fn match_at(s: Seq<char>, pat: Seq<char>, i: int) -> bool {
    &&& 0 <= i
    &&& i + pat.len() <= s.len()
    &&& forall|k: int| 0 <= k < pat.len() ==> s[i + k] == pat[k]
}

/// The first occurrence of `pat` in `s` at or after `from`.
pub open spec fn spec_find(s: Seq<char>, pat: Seq<char>, from: int) -> Option<int> {
    first_pos(|i: int| match_at(s, pat, i), from, s.len() as int + 1)
}

pub fn is_match_at(s: &Vec<char>, pat: &Vec<char>, i: usize) -> (r: bool)
    requires
        i + pat@.len() <= s@.len(),
    ensures
        r == match_at(s@, pat@, i as int),
{
    let slen: usize = s.len();
    let mut k: usize = 0;
    while k < pat.len()
        invariant
            slen == s@.len(),
            i + pat@.len() <= s@.len(),
            k <= pat@.len(),
            forall|m: int| 0 <= m < k ==> s@[i + m] == pat@[m],
        decreases pat@.len() - k,
    {
        if s[i + k] != pat[k] {
            return false;
        }
        k = k + 1;
    }
    true
}

/// The first occurrence of `pat` in `s` at or after `from`.
pub fn find_from(s: &Vec<char>, pat: &Vec<char>, from: usize) -> (r: Option<usize>)
    ensures
        match r {
            Some(i) => spec_find(s@, pat@, from as int) == Some(i as int),
            None => spec_find(s@, pat@, from as int) is None,
        },
{
    let mut i: usize = from;
    loop
        invariant
            from <= i,
            forall|j: int| from <= j < i ==> !match_at(s@, pat@, j),
        decreases s@.len() as int + 1 - i,
    {
        if i > s.len() || pat.len() > s.len() - i {
            proof {
                assert forall|j: int| from <= j implies !match_at(s@, pat@, j) by {
                    if j >= i {
                        assert(j + pat@.len() > s@.len());
                    }
                }
                lemma_find_none(s@, pat@, from as int);
            }
            return None;
        }
        if is_match_at(s, pat, i) {
            proof {
                lemma_find_is(s@, pat@, from as int, i as int);
            }
            return Some(i);
        }
        proof {
            assert(pat@.len() >= 1);
            assert(i < s@.len());
        }
        i = i + 1;
    }
}

pub proof fn lemma_find_none(s: Seq<char>, pat: Seq<char>, from: int)
    requires
        forall|j: int| from <= j ==> !match_at(s, pat, j),
    ensures
        spec_find(s, pat, from) is None,
{
    let p = |k: int| match_at(s, pat, k);
    assert forall|j: int| from <= j < s.len() as int + 1 implies !#[trigger] p(j) by {
        assert(!match_at(s, pat, j));
    }
    lemma_first_pos_none(p, from, s.len() as int + 1);
}

/// The first occurrence of character `c` in `s` at or after `from`.
pub open spec fn spec_find_char(s: Seq<char>, c: char, from: int) -> Option<int> {
    spec_find(s, seq![c], from)
}

pub fn find_char_from(s: &Vec<char>, c: char, from: usize) -> (r: Option<usize>)
    ensures
        match r {
            Some(i) => spec_find_char(s@, c, from as int) == Some(i as int),
            None => spec_find_char(s@, c, from as int) is None,
        },
{
    let pat: Vec<char> = vec![c];
    proof {
        assert(pat@ =~= seq![c]);
    }
    find_from(s, &pat, from)
}

/// Matching a one-character pattern is character equality.
pub proof fn lemma_match_char(s: Seq<char>, c: char, i: int)
    requires
        match_at(s, seq![c], i),
    ensures
        0 <= i < s.len() && s[i] == c,
{
    assert(s[i + 0] == seq![c][0]);
}

pub proof fn lemma_char_match(s: Seq<char>, c: char, i: int)
    requires
        0 <= i < s.len(),
        s[i] == c,
    ensures
        match_at(s, seq![c], i),
{
    assert forall|k: int| 0 <= k < seq![c].len() implies s[i + k] == seq![c][k] by {
        assert(k == 0);
    }
}

/// A convenience form of the facts behind `spec_find`.
pub proof fn lemma_find_props(s: Seq<char>, pat: Seq<char>, from: int)
    ensures
        match spec_find(s, pat, from) {
            Some(i) => from <= i && match_at(s, pat, i)
                && forall|j: int| from <= j < i ==> !match_at(s, pat, j),
            None => forall|j: int| from <= j ==> !match_at(s, pat, j),
        },
{
    let p = |i: int| match_at(s, pat, i);
    lemma_first_pos_props(p, from, s.len() as int + 1);
    match spec_find(s, pat, from) {
        Some(i) => {
            assert(p(i));
            assert forall|j: int| from <= j < i implies !match_at(s, pat, j) by {
                assert(!p(j));
            }
        }
        None => {
            assert forall|j: int| from <= j implies !match_at(s, pat, j) by {
                if j < s.len() as int + 1 {
                    assert(!p(j));
                }
            }
        }
    }
}

pub proof fn lemma_find_is(s: Seq<char>, pat: Seq<char>, from: int, i: int)
    requires
        from <= i,
        match_at(s, pat, i),
        forall|j: int| from <= j < i ==> !match_at(s, pat, j),
    ensures
        spec_find(s, pat, from) == Some(i),
{
    let p = |k: int| match_at(s, pat, k);
    assert(forall|j: int| from <= j < i ==> !#[trigger] p(j));
    lemma_first_pos_is(p, from, s.len() as int + 1, i);
}

// ---------------------------------------------------------------------------
// Splitting on a separator character, and joining back
// ---------------------------------------------------------------------------

/// The segments of `s` between occurrences of `sep`.
/// Always has at least one element; `sep` appears in none of them.
pub open spec fn spec_split(s: Seq<char>, sep: char) -> Seq<Seq<char>>
    decreases s.len(),
{
    if s.len() == 0 {
        seq![Seq::<char>::empty()]
    } else if s[0] == sep {
        seq![Seq::<char>::empty()] + spec_split(s.skip(1), sep)
    } else {
        let rest = spec_split(s.skip(1), sep);
        seq![seq![s[0]] + rest[0]] + rest.skip(1)
    }
}

/// The segments, interleaved with `sep`.
pub open spec fn spec_join(parts: Seq<Seq<char>>, sep: char) -> Seq<char>
    decreases parts.len(),
{
    if parts.len() == 0 {
        Seq::<char>::empty()
    } else if parts.len() == 1 {
        parts[0]
    } else {
        parts[0] + seq![sep] + spec_join(parts.skip(1), sep)
    }
}

pub proof fn lemma_split_len(s: Seq<char>, sep: char)
    ensures
        spec_split(s, sep).len() >= 1,
    decreases s.len(),
{
    if s.len() > 0 {
        lemma_split_len(s.skip(1), sep);
    }
}

/// A separator-free string splits into itself alone.
pub proof fn lemma_split_whole(s: Seq<char>, sep: char)
    requires
        forall|k: int| 0 <= k < s.len() ==> s[k] != sep,
    ensures
        spec_split(s, sep) =~~= seq![s],
    decreases s.len(),
{
    if s.len() == 0 {
        assert(spec_split(s, sep) =~~= seq![s]);
    } else {
        assert(s[0] != sep);
        assert forall|k: int| 0 <= k < s.skip(1).len() implies #[trigger] s.skip(1)[k] != sep by {
            assert(s.skip(1)[k] == s[k + 1]);
        }
        lemma_split_whole(s.skip(1), sep);
        let rest = spec_split(s.skip(1), sep);
        assert(rest[0] == s.skip(1));
        assert(rest.len() == 1);
        assert(seq![s[0]] + s.skip(1) =~= s);
        assert(spec_split(s, sep) =~~= seq![s]);
    }
}

/// Splitting `a + sep + b` where `a` is separator-free peels off `a`.
pub proof fn lemma_split_peel(a: Seq<char>, b: Seq<char>, sep: char)
    requires
        forall|k: int| 0 <= k < a.len() ==> a[k] != sep,
    ensures
        spec_split(a + seq![sep] + b, sep) =~~= seq![a] + spec_split(b, sep),
    decreases a.len(),
{
    let s = a + seq![sep] + b;
    if a.len() == 0 {
        assert(s[0] == sep);
        assert(s.skip(1) =~= b);
        assert(spec_split(s, sep) =~~= seq![a] + spec_split(b, sep));
    } else {
        assert(s[0] == a[0]);
        assert(s[0] != sep);
        assert(s.skip(1) =~= a.skip(1) + seq![sep] + b);
        assert forall|k: int| 0 <= k < a.skip(1).len() implies #[trigger] a.skip(1)[k] != sep by {
            assert(a.skip(1)[k] == a[k + 1]);
        }
        lemma_split_peel(a.skip(1), b, sep);
        let rest = spec_split(s.skip(1), sep);
        lemma_split_len(b, sep);
        assert(rest =~~= seq![a.skip(1)] + spec_split(b, sep));
        assert(rest[0] == a.skip(1));
        assert(seq![s[0]] + rest[0] =~= a);
        assert(rest.skip(1) =~= spec_split(b, sep));
        assert(spec_split(s, sep) =~~= seq![a] + spec_split(b, sep));
    }
}

/// Joining the segments of a split restores the original string.
pub proof fn lemma_join_split(s: Seq<char>, sep: char)
    ensures
        spec_join(spec_split(s, sep), sep) =~= s,
    decreases s.len(),
{
    lemma_split_len(s, sep);
    if s.len() == 0 {
    } else if s[0] == sep {
        lemma_join_split(s.skip(1), sep);
        lemma_split_len(s.skip(1), sep);
        let parts = spec_split(s, sep);
        assert(parts.skip(1) =~= spec_split(s.skip(1), sep));
        assert(spec_join(parts, sep) =~= Seq::<char>::empty() + seq![sep] + spec_join(parts.skip(1), sep));
        assert(spec_join(parts, sep) =~= s);
    } else {
        lemma_join_split(s.skip(1), sep);
        let rest = spec_split(s.skip(1), sep);
        lemma_split_len(s.skip(1), sep);
        let parts = spec_split(s, sep);
        assert(parts[0] =~= seq![s[0]] + rest[0]);
        if rest.len() == 1 {
            assert(parts.len() == 1);
            assert(spec_join(rest, sep) == rest[0]);
            assert(spec_join(parts, sep) =~= seq![s[0]] + rest[0]);
            assert(spec_join(parts, sep) =~= s);
        } else {
            assert(parts.len() >= 2);
            assert(parts.skip(1) =~= rest.skip(1));
            assert(spec_join(rest, sep) =~= rest[0] + seq![sep] + spec_join(rest.skip(1), sep));
            assert(spec_join(parts, sep) =~= parts[0] + seq![sep] + spec_join(parts.skip(1), sep));
            assert(spec_join(parts, sep) =~= seq![s[0]] + spec_join(rest, sep));
            assert(spec_join(parts, sep) =~= s);
        }
    }
}

/// Every character of every segment comes from the split string.
pub proof fn lemma_split_chars(s: Seq<char>, sep: char)
    ensures
        forall|p: int, k: int|
            0 <= p < spec_split(s, sep).len() && 0 <= k < spec_split(s, sep)[p].len()
                ==> s.contains(#[trigger] spec_split(s, sep)[p][k]),
    decreases s.len(),
{
    if s.len() == 0 {
    } else if s[0] == sep {
        lemma_split_chars(s.skip(1), sep);
        let rest = spec_split(s.skip(1), sep);
        let parts = spec_split(s, sep);
        assert forall|p: int, k: int|
            0 <= p < parts.len() && 0 <= k < parts[p].len() implies s.contains(
            #[trigger] parts[p][k],
        ) by {
            if p >= 1 {
                assert(parts[p] == rest[p - 1]);
                assert(s.skip(1).contains(rest[p - 1][k]));
                let j = choose|j: int| 0 <= j < s.skip(1).len() && s.skip(1)[j] == rest[p - 1][k];
                assert(s[j + 1] == parts[p][k]);
            }
        }
    } else {
        lemma_split_chars(s.skip(1), sep);
        let rest = spec_split(s.skip(1), sep);
        lemma_split_len(s.skip(1), sep);
        let parts = spec_split(s, sep);
        assert forall|p: int, k: int|
            0 <= p < parts.len() && 0 <= k < parts[p].len() implies s.contains(
            #[trigger] parts[p][k],
        ) by {
            if p == 0 {
                if k == 0 {
                    assert(parts[0][0] == s[0]);
                } else {
                    assert(parts[0][k] == rest[0][k - 1]);
                    assert(s.skip(1).contains(rest[0][k - 1]));
                    let j = choose|j: int|
                        0 <= j < s.skip(1).len() && s.skip(1)[j] == rest[0][k - 1];
                    assert(s[j + 1] == parts[p][k]);
                }
            } else {
                assert(parts[p] == rest[p]);
                assert(s.skip(1).contains(rest[p][k]));
                let j = choose|j: int| 0 <= j < s.skip(1).len() && s.skip(1)[j] == rest[p][k];
                assert(s[j + 1] == parts[p][k]);
            }
        }
    }
}

/// Dropping leading characters leaves a suffix; dropping trailing
/// ones leaves a prefix.
pub proof fn lemma_drop_leading_sub(s: Seq<char>, p: spec_fn(char) -> bool)
    ensures
        exists|a: int|
            0 <= a <= s.len() && spec_drop_leading(s, p) == #[trigger] s.skip(a),
    decreases s.len(),
{
    if s.len() > 0 && p(s[0]) {
        lemma_drop_leading_sub(s.skip(1), p);
        let a = choose|a: int|
            0 <= a <= s.skip(1).len() && spec_drop_leading(s.skip(1), p) == #[trigger] s.skip(
                1,
            ).skip(a);
        assert(s.skip(1).skip(a) =~= s.skip(a + 1));
        assert(spec_drop_leading(s, p) == s.skip(a + 1));
    } else {
        assert(s.skip(0) =~= s);
        assert(spec_drop_leading(s, p) == s.skip(0));
    }
}

/// The exact shape of dropping leading characters: some prefix all
/// satisfying `p` goes, and the first survivor (if any) fails `p`.
pub proof fn lemma_drop_leading_shape(s: Seq<char>, p: spec_fn(char) -> bool)
    ensures
        exists|a: int|
            {
                &&& 0 <= a <= s.len()
                &&& spec_drop_leading(s, p) == #[trigger] s.skip(a)
                &&& forall|k: int| 0 <= k < a ==> #[trigger] p(s[k])
                &&& a == s.len() || !p(s[a])
            },
    decreases s.len(),
{
    if s.len() > 0 && p(s[0]) {
        lemma_drop_leading_shape(s.skip(1), p);
        let a = choose|a: int|
            {
                &&& 0 <= a <= s.skip(1).len()
                &&& spec_drop_leading(s.skip(1), p) == #[trigger] s.skip(1).skip(a)
                &&& forall|k: int| 0 <= k < a ==> #[trigger] p(s.skip(1)[k])
                &&& a == s.skip(1).len() || !p(s.skip(1)[a])
            };
        assert(s.skip(1).skip(a) =~= s.skip(a + 1));
        assert forall|k: int| 0 <= k < a + 1 implies #[trigger] p(s[k]) by {
            if k >= 1 {
                assert(s.skip(1)[k - 1] == s[k]);
                assert(p(s.skip(1)[k - 1]));
            }
        }
        if a < s.skip(1).len() {
            assert(s.skip(1)[a] == s[a + 1]);
        }
        assert(spec_drop_leading(s, p) == s.skip(a + 1));
        assert(a + 1 == s.len() || !p(s[a + 1]));
    } else {
        assert(s.skip(0) =~= s);
        assert(spec_drop_leading(s, p) == s.skip(0));
    }
}

pub proof fn lemma_drop_trailing_sub(s: Seq<char>, p: spec_fn(char) -> bool)
    ensures
        exists|b: int|
            0 <= b <= s.len() && spec_drop_trailing(s, p) == #[trigger] s.take(b),
    decreases s.len(),
{
    if s.len() > 0 && p(s[s.len() - 1]) {
        lemma_drop_trailing_sub(s.take(s.len() - 1), p);
        let b = choose|b: int|
            0 <= b <= s.take(s.len() - 1).len() && spec_drop_trailing(s.take(s.len() - 1), p)
                == #[trigger] s.take(s.len() - 1).take(b);
        assert(s.take(s.len() - 1).take(b) =~= s.take(b));
        assert(spec_drop_trailing(s, p) == s.take(b));
    } else {
        assert(s.take(s.len() as int) =~= s);
        assert(spec_drop_trailing(s, p) == s.take(s.len() as int));
    }
}

/// Every character of a trimmed string comes from the original.
pub proof fn lemma_trim_chars_from(s: Seq<char>)
    ensures
        forall|k: int|
            0 <= k < spec_trim(s).len() ==> s.contains(#[trigger] spec_trim(s)[k]),
{
    let pws = |c: char| is_ws_char(c);
    lemma_drop_leading_sub(s, pws);
    let a = choose|a: int|
        0 <= a <= s.len() && spec_drop_leading(s, pws) == #[trigger] s.skip(a);
    let mid = s.skip(a);
    lemma_drop_trailing_sub(mid, pws);
    let b = choose|b: int|
        0 <= b <= mid.len() && spec_drop_trailing(mid, pws) == #[trigger] mid.take(b);
    assert forall|k: int|
        0 <= k < spec_trim(s).len() implies s.contains(#[trigger] spec_trim(s)[k]) by {
        assert(spec_trim(s)[k] == mid.take(b)[k]);
        assert(mid.take(b)[k] == s[k + a]);
    }
}

/// No segment of a split contains the separator.
pub proof fn lemma_split_sep_free(s: Seq<char>, sep: char)
    ensures
        forall|p: int, k: int|
            0 <= p < spec_split(s, sep).len() && 0 <= k < spec_split(s, sep)[p].len()
                ==> spec_split(s, sep)[p][k] != sep,
    decreases s.len(),
{
    if s.len() == 0 {
    } else if s[0] == sep {
        lemma_split_sep_free(s.skip(1), sep);
        let rest = spec_split(s.skip(1), sep);
        let parts = spec_split(s, sep);
        assert forall|p: int, k: int|
            0 <= p < parts.len() && 0 <= k < parts[p].len() implies parts[p][k] != sep by {
            if p >= 1 {
                assert(parts[p] == rest[p - 1]);
            }
        }
    } else {
        lemma_split_sep_free(s.skip(1), sep);
        let rest = spec_split(s.skip(1), sep);
        lemma_split_len(s.skip(1), sep);
        let parts = spec_split(s, sep);
        assert forall|p: int, k: int|
            0 <= p < parts.len() && 0 <= k < parts[p].len() implies parts[p][k] != sep by {
            if p == 0 {
                if k == 0 {
                    assert(parts[0][0] == s[0]);
                } else {
                    assert(parts[0][k] == rest[0][k - 1]);
                }
            } else {
                assert(parts[p] == rest[p]);
            }
        }
    }
}

// ---------------------------------------------------------------------------
// Trimming
// ---------------------------------------------------------------------------

/// `s` without its leading characters satisfying `p`.
pub open spec fn spec_drop_leading(s: Seq<char>, p: spec_fn(char) -> bool) -> Seq<char>
    decreases s.len(),
{
    if s.len() > 0 && p(s[0]) {
        spec_drop_leading(s.skip(1), p)
    } else {
        s
    }
}

/// `s` without its trailing characters satisfying `p`.
pub open spec fn spec_drop_trailing(s: Seq<char>, p: spec_fn(char) -> bool) -> Seq<char>
    decreases s.len(),
{
    if s.len() > 0 && p(s[s.len() - 1]) {
        spec_drop_trailing(s.take(s.len() - 1), p)
    } else {
        s
    }
}

/// `s` with surrounding whitespace removed.
pub open spec fn spec_trim(s: Seq<char>) -> Seq<char> {
    spec_drop_trailing(spec_drop_leading(s, |c: char| is_ws_char(c)), |c: char| is_ws_char(c))
}

pub proof fn lemma_drop_leading_skip(s: Seq<char>, p: spec_fn(char) -> bool, a: int)
    requires
        0 <= a <= s.len(),
        forall|k: int| 0 <= k < a ==> #[trigger] p(s[k]),
        a == s.len() || !p(s[a]),
    ensures
        spec_drop_leading(s, p) =~= s.skip(a),
    decreases a,
{
    if a == 0 {
        if s.len() > 0 && p(s[0]) {
            assert(false);
        }
        assert(s.skip(0) =~= s);
    } else {
        assert(p(s[0]));
        let t = s.skip(1);
        assert forall|k: int| 0 <= k < a - 1 implies #[trigger] p(t[k]) by {
            assert(t[k] == s[k + 1]);
        }
        if a - 1 < t.len() {
            assert(t[a - 1] == s[a]);
        }
        lemma_drop_leading_skip(t, p, a - 1);
        assert(t.skip(a - 1) =~= s.skip(a));
    }
}

pub proof fn lemma_drop_trailing_take(s: Seq<char>, p: spec_fn(char) -> bool, b: int)
    requires
        0 <= b <= s.len(),
        forall|k: int| b <= k < s.len() ==> #[trigger] p(s[k]),
        b == 0 || !p(s[b - 1]),
    ensures
        spec_drop_trailing(s, p) =~= s.take(b),
    decreases s.len() - b,
{
    if b == s.len() {
        if s.len() > 0 && p(s[s.len() - 1]) {
            assert(false);
        }
        assert(s.take(b) =~= s);
    } else {
        assert(p(s[s.len() - 1]));
        let t = s.take(s.len() - 1);
        assert forall|k: int| b <= k < t.len() implies #[trigger] p(t[k]) by {
            assert(t[k] == s[k]);
        }
        if b > 0 {
            assert(t[b - 1] == s[b - 1]);
        }
        lemma_drop_trailing_take(t, p, b);
        assert(t.take(b) =~= s.take(b));
    }
}

/// Copies `v[a..b]`.
pub fn copy_range(v: &Vec<char>, a: usize, b: usize) -> (r: Vec<char>)
    requires
        a <= b <= v@.len(),
    ensures
        r@ == v@.subrange(a as int, b as int),
{
    let mut r: Vec<char> = Vec::new();
    let mut i: usize = a;
    while i < b
        invariant
            a <= i <= b <= v@.len(),
            r@ =~= v@.subrange(a as int, i as int),
        decreases b - i,
    {
        r.push(v[i]);
        i = i + 1;
        proof {
            assert(v@.subrange(a as int, i as int) =~= v@.subrange(a as int, i - 1) + seq![v@[i - 1]]);
        }
    }
    proof {
        assert(r@ =~= v@.subrange(a as int, b as int));
    }
    r
}

/// Trimming keeps exactly the span between the outermost non-whitespace characters.
pub proof fn lemma_trim_is(s: Seq<char>, a: int, b: int)
    requires
        0 <= a <= b <= s.len(),
        forall|k: int| 0 <= k < a ==> is_ws_char(s[k]),
        a == s.len() || !is_ws_char(s[a]),
        forall|k: int| b <= k < s.len() ==> is_ws_char(s[k]),
        b == a || !is_ws_char(s[b - 1]),
    ensures
        spec_trim(s) =~= s.subrange(a, b),
{
    let pws = |c: char| is_ws_char(c);
    assert forall|k: int| 0 <= k < a implies #[trigger] pws(s[k]) by {
        assert(is_ws_char(s[k]));
    }
    if a < s.len() {
        assert(!pws(s[a]));
    }
    lemma_drop_leading_skip(s, pws, a);
    let mid = s.skip(a);
    assert forall|k: int| b - a <= k < mid.len() implies #[trigger] pws(mid[k]) by {
        assert(mid[k] == s[k + a]);
        assert(is_ws_char(s[k + a]));
    }
    if b > a {
        assert(mid[b - a - 1] == s[b - 1]);
        assert(!pws(mid[b - a - 1]));
    }
    lemma_drop_trailing_take(mid, pws, b - a);
    assert(mid.take(b - a) =~= s.subrange(a, b));
}

/// The same, for stripping one specific character.
pub proof fn lemma_trim_match_is(s: Seq<char>, c: char, a: int, b: int)
    requires
        0 <= a <= b <= s.len(),
        forall|k: int| 0 <= k < a ==> s[k] == c,
        a == s.len() || s[a] != c,
        forall|k: int| b <= k < s.len() ==> s[k] == c,
        b == a || s[b - 1] != c,
    ensures
        spec_drop_trailing(spec_drop_leading(s, |x: char| x == c), |x: char| x == c)
            =~= s.subrange(a, b),
{
    let pc = |x: char| x == c;
    assert forall|k: int| 0 <= k < a implies #[trigger] pc(s[k]) by {
        assert(s[k] == c);
    }
    if a < s.len() {
        assert(!pc(s[a]));
    }
    lemma_drop_leading_skip(s, pc, a);
    let mid = s.skip(a);
    assert forall|k: int| b - a <= k < mid.len() implies #[trigger] pc(mid[k]) by {
        assert(mid[k] == s[k + a]);
        assert(s[k + a] == c);
    }
    if b > a {
        assert(mid[b - a - 1] == s[b - 1]);
        assert(!pc(mid[b - a - 1]));
    }
    lemma_drop_trailing_take(mid, pc, b - a);
    assert(mid.take(b - a) =~= s.subrange(a, b));
}

/// Removes surrounding whitespace, as `spec_trim` describes.
pub fn trim_chars(v: &Vec<char>) -> (r: Vec<char>)
    ensures
        r@ == spec_trim(v@),
{
    let n: usize = v.len();
    let mut a: usize = 0;
    while a < n && exec_is_ws(v[a])
        invariant
            n == v@.len(),
            a <= n,
            forall|k: int| 0 <= k < a ==> is_ws_char(v@[k]),
        decreases n - a,
    {
        a = a + 1;
    }
    let mut b: usize = n;
    while b > a && exec_is_ws(v[b - 1])
        invariant
            n == v@.len(),
            a <= b <= n,
            forall|k: int| b <= k < n ==> is_ws_char(v@[k]),
        decreases b,
    {
        b = b - 1;
    }
    proof {
        lemma_trim_is(v@, a as int, b as int);
    }
    copy_range(v, a, b)
}

/// Removes every leading and trailing occurrence of `c`.
pub fn trim_match_chars(v: &Vec<char>, c: char) -> (r: Vec<char>)
    ensures
        r@ == spec_drop_trailing(spec_drop_leading(v@, |x: char| x == c), |x: char| x == c),
{
    let n: usize = v.len();
    let mut a: usize = 0;
    while a < n && v[a] == c
        invariant
            n == v@.len(),
            a <= n,
            forall|k: int| 0 <= k < a ==> v@[k] == c,
        decreases n - a,
    {
        a = a + 1;
    }
    let mut b: usize = n;
    while b > a && v[b - 1] == c
        invariant
            n == v@.len(),
            a <= b <= n,
            forall|k: int| b <= k < n ==> v@[k] == c,
        decreases b,
    {
        b = b - 1;
    }
    proof {
        lemma_trim_match_is(v@, c, a as int, b as int);
    }
    copy_range(v, a, b)
}

/// Appends all of `src` to `dst`.
pub fn push_all(dst: &mut Vec<char>, src: &Vec<char>)
    ensures
        final(dst)@ == old(dst)@ + src@,
{
    let mut i: usize = 0;
    while i < src.len()
        invariant
            i <= src@.len(),
            dst@ =~= old(dst)@ + src@.take(i as int),
        decreases src@.len() - i,
    {
        dst.push(src[i]);
        i = i + 1;
        proof {
            assert(src@.take(i as int) =~= src@.take(i - 1) + seq![src@[i - 1]]);
        }
    }
    proof {
        assert(src@.take(src@.len() as int) =~= src@);
        assert(dst@ =~= old(dst)@ + src@);
    }
}

// ---------------------------------------------------------------------------
// Decimal numerals
// ---------------------------------------------------------------------------

pub open spec fn spec_digit_char(d: int) -> char {
    if d == 0 { '0' } else if d == 1 { '1' } else if d == 2 { '2' } else if d == 3 { '3' }
    else if d == 4 { '4' } else if d == 5 { '5' } else if d == 6 { '6' } else if d == 7 { '7' }
    else if d == 8 { '8' } else { '9' }
}

/// The decimal digits of `n`, most significant first.
pub open spec fn spec_digits(n: int) -> Seq<char>
    decreases n,
{
    if n < 10 {
        seq![spec_digit_char(if n < 0 { 0 } else { n })]
    } else {
        spec_digits(n / 10) + seq![spec_digit_char(n % 10)]
    }
}

/// `n` rendered as at least four digits, zero-padded on the left.
pub open spec fn spec_pad4(n: int) -> Seq<char> {
    let d = spec_digits(n);
    if d.len() >= 4 {
        d
    } else {
        Seq::<char>::new((4 - d.len()) as nat, |k: int| '0') + d
    }
}

/// The numeric value of a digit string (most significant first).
pub open spec fn spec_digits_val(s: Seq<char>) -> int
    decreases s.len(),
{
    if s.len() == 0 {
        0
    } else {
        spec_digits_val(s.take(s.len() - 1)) * 10 + digit_val(s[s.len() - 1])
    }
}

pub open spec fn all_digits(s: Seq<char>) -> bool {
    forall|k: int| 0 <= k < s.len() ==> is_digit_char(s[k])
}

fn digit_char_of(d: u32) -> (c: char)
    requires
        d < 10,
    ensures
        c == spec_digit_char(d as int),
{
    if d == 0 { '0' } else if d == 1 { '1' } else if d == 2 { '2' } else if d == 3 { '3' }
    else if d == 4 { '4' } else if d == 5 { '5' } else if d == 6 { '6' } else if d == 7 { '7' }
    else if d == 8 { '8' } else { '9' }
}

/// Appends the decimal digits of `n` to `out`.
pub fn push_digits_u32(n: u32, out: &mut Vec<char>)
    ensures
        final(out)@ == old(out)@ + spec_digits(n as int),
    decreases n,
{
    if n < 10 {
        out.push(digit_char_of(n));
    } else {
        push_digits_u32(n / 10, out);
        out.push(digit_char_of(n % 10));
        proof {
            assert(final(out)@ =~= old(out)@ + (spec_digits(n as int / 10) + seq![spec_digit_char(n as int % 10)]));
        }
    }
}

/// The decimal digits of a non-negative `i64`.
pub fn digits_i64(n: i64) -> (r: Vec<char>)
    requires
        n >= 0,
    ensures
        r@ == spec_digits(n as int),
{
    let mut r: Vec<char> = Vec::new();
    push_digits_i64(n, &mut r);
    r
}

/// Appends the decimal digits of the non-negative `n` to `out`.
pub fn push_digits_i64(n: i64, out: &mut Vec<char>)
    requires
        n >= 0,
    ensures
        final(out)@ == old(out)@ + spec_digits(n as int),
    decreases n,
{
    if n < 10 {
        out.push(digit_char_of(n as u32));
    } else {
        push_digits_i64(n / 10, out);
        out.push(digit_char_of((n % 10) as u32));
        proof {
            assert(final(out)@ =~= old(out)@ + (spec_digits(n as int / 10) + seq![spec_digit_char(n as int % 10)]));
        }
    }
}

pub proof fn lemma_digits_are_digits(n: int)
    ensures
        all_digits(spec_digits(n)),
        spec_digits(n).len() >= 1,
    decreases n,
{
    if n < 10 {
        lemma_digit_char_val(if n < 0 { 0 } else { n });
    } else {
        lemma_digits_are_digits(n / 10);
        let d = spec_digits(n / 10);
        let whole = spec_digits(n);
        lemma_digit_char_val(n % 10);
        assert forall|k: int| 0 <= k < whole.len() implies is_digit_char(whole[k]) by {
            if k < d.len() {
                assert(whole[k] == d[k]);
            }
        }
    }
}

/// Leading zeros do not change a numeral's value.
pub proof fn lemma_digits_val_zeros(z: Seq<char>, s: Seq<char>)
    requires
        forall|k: int| 0 <= k < z.len() ==> z[k] == '0',
    ensures
        spec_digits_val(z + s) == spec_digits_val(s),
    decreases s.len(),
{
    if s.len() == 0 {
        lemma_digits_val_all_zeros(z);
        assert(z + s =~= z);
    } else {
        let t = z + s;
        assert(t.take(t.len() - 1) =~= z + s.take(s.len() - 1));
        assert(t[t.len() - 1] == s[s.len() - 1]);
        lemma_digits_val_zeros(z, s.take(s.len() - 1));
    }
}

pub proof fn lemma_digits_val_all_zeros(z: Seq<char>)
    requires
        forall|k: int| 0 <= k < z.len() ==> z[k] == '0',
    ensures
        spec_digits_val(z) == 0,
    decreases z.len(),
{
    if z.len() > 0 {
        assert(z[z.len() - 1] == '0');
        assert(digit_val('0') == 0);
        lemma_digits_val_all_zeros(z.take(z.len() - 1));
    }
}

pub proof fn lemma_digit_char_val(d: int)
    requires
        0 <= d < 10,
    ensures
        digit_val(spec_digit_char(d)) == d,
        is_digit_char(spec_digit_char(d)),
{
}

/// Reading back the digits of `n` yields `n`.
pub proof fn lemma_digits_val_roundtrip(n: int)
    requires
        n >= 0,
    ensures
        spec_digits_val(spec_digits(n)) == n,
    decreases n,
{
    if n < 10 {
        let d = spec_digits(n);
        assert(d =~= seq![spec_digit_char(n)]);
        assert(d.len() == 1);
        assert(d.take(0) =~= Seq::<char>::empty());
        assert(spec_digits_val(d.take(0)) == 0);
        lemma_digit_char_val(n);
        assert(d[0] == spec_digit_char(n));
        assert(spec_digits_val(d) == spec_digits_val(d.take(0)) * 10 + digit_val(d[0]));
        assert(spec_digits_val(d) == n);
    } else {
        lemma_digits_val_roundtrip(n / 10);
        let d = spec_digits(n);
        assert(d =~= spec_digits(n / 10) + seq![spec_digit_char(n % 10)]);
        assert(d.len() >= 1);
        assert(d.take(d.len() - 1) =~= spec_digits(n / 10));
        assert(d[d.len() - 1] == spec_digit_char(n % 10));
        lemma_digit_char_val(n % 10);
        assert(spec_digits_val(d) == spec_digits_val(spec_digits(n / 10)) * 10 + (n % 10));
        assert(n == (n / 10) * 10 + n % 10);
    }
}

/// Appending digits never shrinks a numeral's value.
pub proof fn lemma_digits_val_monotone(s: Seq<char>, t: Seq<char>)
    requires
        all_digits(s),
        all_digits(t),
    ensures
        spec_digits_val(s + t) >= spec_digits_val(s),
        spec_digits_val(s + t) >= spec_digits_val(t),
    decreases t.len(),
{
    lemma_digits_val_nonneg(s);
    lemma_digits_val_nonneg(t);
    if t.len() == 0 {
        assert(s + t =~= s);
    } else {
        let u = s + t;
        assert(u.take(u.len() - 1) =~= s + t.take(t.len() - 1));
        assert forall|k: int| 0 <= k < t.take(t.len() - 1).len() implies is_digit_char(#[trigger] t.take(t.len() - 1)[k]) by {
            assert(t.take(t.len() - 1)[k] == t[k]);
        }
        lemma_digits_val_monotone(s, t.take(t.len() - 1));
        lemma_digits_val_nonneg(t.take(t.len() - 1));
        assert(spec_digits_val(t.take(t.len() - 1)) * 10 >= spec_digits_val(t.take(t.len() - 1)));
        assert(u[u.len() - 1] == t[t.len() - 1]);
        assert(digit_val(t[t.len() - 1]) >= 0);
    }
}

pub proof fn lemma_digits_val_nonneg(s: Seq<char>)
    requires
        all_digits(s),
    ensures
        spec_digits_val(s) >= 0,
    decreases s.len(),
{
    if s.len() > 0 {
        assert forall|k: int| 0 <= k < s.take(s.len() - 1).len() implies is_digit_char(#[trigger] s.take(s.len() - 1)[k]) by {
            assert(s.take(s.len() - 1)[k] == s[k]);
        }
        lemma_digits_val_nonneg(s.take(s.len() - 1));
        assert(is_digit_char(s[s.len() - 1]));
        assert(digit_val(s[s.len() - 1]) >= 0);
    }
}

/// A (possibly negative) integer rendered in decimal.
pub open spec fn spec_i64_str(n: int) -> Seq<char> {
    if n >= 0 {
        spec_digits(n)
    } else {
        seq!['-'] + spec_digits(-n)
    }
}

/// Renders an integer in decimal, as `spec_i64_str` describes.
pub fn i64_string_chars(n: i64) -> (r: Vec<char>)
    requires
        n > i64::MIN,
    ensures
        r@ == spec_i64_str(n as int),
{
    if n >= 0 {
        digits_i64(n)
    } else {
        let mut r: Vec<char> = Vec::new();
        r.push('-');
        push_digits_i64(-n, &mut r);
        proof {
            assert(r@ =~= spec_i64_str(n as int));
        }
        r
    }
}

/// The value a digit string denotes, when every character is a digit,
/// the string is non-empty, and the value fits in `i32`; otherwise 0.
/// This is how a sequence-number segment of a file name is read.
/// Only unsigned digit strings count: a degenerate segment carrying a
/// `+` or `-` sign, which a plain integer parse would accept, reads
/// as 0 here like every other malformed segment.
pub open spec fn spec_parse_seq_num(s: Seq<char>) -> int {
    if s.len() >= 1 && all_digits(s) && spec_digits_val(s) <= i32::MAX {
        spec_digits_val(s)
    } else {
        0
    }
}

/// Reads a sequence-number segment.
pub fn parse_seq_num(v: &Vec<char>) -> (r: i32)
    ensures
        r as int == spec_parse_seq_num(v@),
{
    let n: usize = v.len();
    if n == 0 {
        return 0;
    }
    let mut i: usize = 0;
    let mut acc: i64 = 0;
    while i < n
        invariant
            n == v@.len(),
            i <= n,
            all_digits(v@.take(i as int)),
            acc == spec_digits_val(v@.take(i as int)),
            0 <= acc <= i32::MAX,
        decreases n - i,
    {
        let c = v[i];
        if !exec_is_digit(c) {
            proof {
                assert(!is_digit_char(v@[i as int]));
                assert(!all_digits(v@));
            }
            return 0;
        }
        let d: i64 = (c as u32 % 48) as i64;
        proof {
            assert(c as u32 >= 48 && c as u32 <= 57);
            assert((c as u32 % 48) as int == digit_val(c));
        }
        let next: i64 = acc * 10 + d;
        proof {
            assert(v@.take(i + 1).take(i as int) =~= v@.take(i as int));
            assert(v@.take(i + 1)[i as int] == v@[i as int]);
            assert(spec_digits_val(v@.take(i + 1)) == acc * 10 + digit_val(v@[i as int]));
            assert(all_digits(v@.take(i + 1)));
        }
        if next > 2147483647 {
            proof {
                let pre = v@.take(i + 1);
                let post = v@.skip(i + 1);
                assert(v@ =~= pre + post);
                if all_digits(v@) {
                    assert forall|k: int| 0 <= k < post.len() implies is_digit_char(post[k]) by {
                        assert(post[k] == v@[k + i + 1]);
                    }
                    lemma_digits_val_monotone(pre, post);
                    assert(spec_digits_val(v@) > i32::MAX);
                }
            }
            return 0;
        }
        acc = next;
        i = i + 1;
    }
    proof {
        assert(v@.take(n as int) =~= v@);
    }
    #[verifier::truncate]
    let r: i32 = acc as i32;
    r
}

} // verus!

