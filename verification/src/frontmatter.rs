//! The frontmatter field store.
//!
//! A note file opens with a header block between two `---` fence
//! lines; each header line is `key: value`.  This module reads and
//! rewrites individual fields by boundary-anchored scanning, leaving
//! the body and every unrelated header line untouched, and never
//! parses the document as a whole.

use vstd::prelude::*;
use crate::text::chars_of;
use crate::text::copy_range;
use crate::text::exec_is_digit;
use crate::text::exec_is_ws;
use crate::text::is_digit_char;
use crate::text::spec_digits_val;
use crate::text::find_from;
use crate::text::is_match_at;
use crate::text::is_ws_char;
use crate::text::lemma_find_props;
use crate::text::match_at;
use crate::text::push_all;
use crate::text::push_digits_u32;
use crate::text::spec_digits;
use crate::text::spec_drop_leading;
use crate::text::spec_find;
use crate::text::string_of;

verus! {

/// The header fence, `---`.
pub open spec fn fence() -> Seq<char> {
    seq!['-', '-', '-']
}

fn fence_vec() -> (r: Vec<char>)
    ensures
        r@ == fence(),
{
    let r: Vec<char> = vec!['-', '-', '-'];
    proof {
        assert(r@ =~= fence());
    }
    r
}

/// `s` without leading whitespace.
pub open spec fn spec_trim_start(s: Seq<char>) -> Seq<char> {
    spec_drop_leading(s, |c: char| is_ws_char(c))
}

/// Removes leading whitespace.
pub fn trim_start_chars(v: &Vec<char>) -> (r: Vec<char>)
    ensures
        r@ == spec_trim_start(v@),
{
    let n: usize = v.len();
    let mut a: usize = 0;
    while a < n && exec_is_ws(v[a])
        invariant
            n == v@.len(),
            a <= n,
            forall|k: int| 0 <= k < a ==> is_ws_char(v@[k]),
        decreases n - a,
    {
        a = a + 1;
    }
    proof {
        lemma_trim_start_is(v@, a as int);
    }
    copy_range(v, a, n)
}

pub proof fn lemma_trim_start_is(s: Seq<char>, a: int)
    requires
        0 <= a <= s.len(),
        forall|k: int| 0 <= k < a ==> is_ws_char(s[k]),
        a == s.len() || !is_ws_char(s[a]),
    ensures
        spec_trim_start(s) =~= s.skip(a),
{
    let pws = |c: char| is_ws_char(c);
    assert forall|k: int| 0 <= k < a implies #[trigger] pws(s[k]) by {
        assert(is_ws_char(s[k]));
    }
    if a < s.len() {
        assert(!pws(s[a]));
    }
    crate::text::lemma_drop_leading_skip(s, pws, a);
}

/// The header block and body of a note's text.
///
/// When the text opens with a fence and a second fence follows, the
/// first component runs through the end of the second fence and the
/// second is the rest without leading whitespace; otherwise the split
/// is `("", text)`.
pub open spec fn spec_split_frontmatter(s: Seq<char>) -> (Seq<char>, Seq<char>) {
    if !match_at(s, fence(), 0) {
        (Seq::<char>::empty(), s)
    } else {
        match spec_find(s, fence(), 3) {
            Some(e) => (s.take(e + 3), spec_trim_start(s.skip(e + 3))),
            None => (Seq::<char>::empty(), s),
        }
    }
}

/// Splits a note's text into its header block and its body, as
/// `spec_split_frontmatter` describes.
pub fn split_frontmatter(src: &str) -> (r: (String, String))
    ensures
        r.0@ == spec_split_frontmatter(src@).0,
        r.1@ == spec_split_frontmatter(src@).1,
{
    let v = chars_of(src);
    let f = fence_vec();
    let n: usize = v.len();
    if n < 3 {
        proof {
            assert(!match_at(v@, fence(), 0));
        }
        return (String::new(), string_of(&v));
    }
    if !is_match_at(&v, &f, 0) {
        return (String::new(), string_of(&v));
    }
    match find_from(&v, &f, 3) {
        Some(e) => {
            proof {
                lemma_find_props(v@, fence(), 3);
                assert(match_at(v@, fence(), e as int));
            }
            let front = copy_range(&v, 0, e + 3);
            let tail = copy_range(&v, e + 3, n);
            let body = trim_start_chars(&tail);
            proof {
                assert(tail@ =~= v@.skip(e + 3));
            }
            (string_of(&front), string_of(&body))
        }
        None => (String::new(), string_of(&v)),
    }
}

/// The body of imported text: everything after a leading header block,
/// or the text itself when no such block closes.
pub open spec fn spec_body_without_frontmatter(s: Seq<char>) -> Seq<char> {
    let t = spec_trim_start(s);
    if match_at(t, fence(), 0) {
        match spec_find(t, fence(), 3) {
            Some(e) => spec_trim_start(t.skip(e + 3)),
            None => s,
        }
    } else {
        s
    }
}

/// Strips a leading header block from imported text, as
/// `spec_body_without_frontmatter` describes.
pub fn extract_body_without_frontmatter(content: &str) -> (r: String)
    ensures
        r@ == spec_body_without_frontmatter(content@),
{
    let v = chars_of(content);
    let t = trim_start_chars(&v);
    let f = fence_vec();
    if t.len() < 3 {
        proof {
            assert(!match_at(t@, fence(), 0));
        }
        return string_of(&v);
    }
    if !is_match_at(&t, &f, 0) {
        return string_of(&v);
    }
    match find_from(&t, &f, 3) {
        Some(e) => {
            proof {
                lemma_find_props(t@, fence(), 3);
                assert(match_at(t@, fence(), e as int));
            }
            let tail = copy_range(&t, e + 3, t.len());
            let body = trim_start_chars(&tail);
            proof {
                assert(tail@ =~= t@.skip(e + 3));
            }
            string_of(&body)
        }
        None => string_of(&v),
    }
}

// ---------------------------------------------------------------------------
// Character runs and numeric tokens
// ---------------------------------------------------------------------------

/// The first index at or after `i` whose character fails `p`, or the
/// end of `s`.
pub open spec fn run_end(s: Seq<char>, i: int, p: spec_fn(char) -> bool) -> int
    decreases s.len() - i,
{
    if 0 <= i < s.len() && p(s[i]) {
        run_end(s, i + 1, p)
    } else {
        i
    }
}

pub proof fn lemma_run_end_is(s: Seq<char>, i: int, j: int, p: spec_fn(char) -> bool)
    requires
        0 <= i <= j <= s.len(),
        forall|k: int| i <= k < j ==> #[trigger] p(s[k]),
        j == s.len() || !p(s[j]),
    ensures
        run_end(s, i, p) == j,
    decreases j - i,
{
    if i < j {
        assert(p(s[i]));
        lemma_run_end_is(s, i + 1, j, p);
    } else {
        if i < s.len() {
            assert(!p(s[i]));
        }
    }
}

pub proof fn lemma_run_end_props(s: Seq<char>, i: int, p: spec_fn(char) -> bool)
    requires
        0 <= i <= s.len(),
    ensures
        i <= run_end(s, i, p) <= s.len(),
        forall|k: int| i <= k < run_end(s, i, p) ==> #[trigger] p(s[k]),
        run_end(s, i, p) == s.len() || !p(s[run_end(s, i, p)]),
    decreases s.len() - i,
{
    if 0 <= i < s.len() && p(s[i]) {
        lemma_run_end_props(s, i + 1, p);
    }
}

/// The first non-whitespace index at or after `i`.
pub open spec fn spec_skip_ws(s: Seq<char>, i: int) -> int {
    run_end(s, i, |c: char| is_ws_char(c))
}

pub fn skip_ws_exec(v: &Vec<char>, i: usize) -> (r: usize)
    requires
        i <= v@.len(),
    ensures
        r == spec_skip_ws(v@, i as int),
        i <= r <= v@.len(),
        forall|k: int| i <= k < r ==> is_ws_char(v@[k]),
        r == v@.len() || !is_ws_char(v@[r as int]),
{
    let n: usize = v.len();
    let mut j: usize = i;
    while j < n && exec_is_ws(v[j])
        invariant
            n == v@.len(),
            i <= j <= n,
            forall|k: int| i <= k < j ==> is_ws_char(v@[k]),
        decreases n - j,
    {
        j = j + 1;
    }
    proof {
        let p = |c: char| is_ws_char(c);
        assert forall|k: int| i <= k < j implies #[trigger] p(v@[k]) by {
            assert(is_ws_char(v@[k]));
        }
        if j < n {
            assert(!p(v@[j as int]));
        }
        lemma_run_end_is(v@, i as int, j as int, p);
    }
    j
}

/// Characters a numeric field value is made of: digits and dots.
pub open spec fn is_num_char(c: char) -> bool {
    is_digit_char(c) || c == '.'
}

/// The end of the numeric-character run starting at `i`.
pub open spec fn spec_num_end(s: Seq<char>, i: int) -> int {
    run_end(s, i, |c: char| is_num_char(c))
}

pub fn num_end_exec(v: &Vec<char>, i: usize) -> (r: usize)
    requires
        i <= v@.len(),
    ensures
        r == spec_num_end(v@, i as int),
        i <= r <= v@.len(),
        forall|k: int| i <= k < r ==> is_num_char(v@[k]),
        r == v@.len() || !is_num_char(v@[r as int]),
{
    let n: usize = v.len();
    let mut j: usize = i;
    while j < n && (exec_is_digit(v[j]) || v[j] == '.')
        invariant
            n == v@.len(),
            i <= j <= n,
            forall|k: int| i <= k < j ==> is_num_char(v@[k]),
        decreases n - j,
    {
        j = j + 1;
    }
    proof {
        let p = |c: char| is_num_char(c);
        assert forall|k: int| i <= k < j implies #[trigger] p(v@[k]) by {
            assert(is_num_char(v@[k]));
        }
        if j < n {
            assert(!p(v@[j as int]));
        }
        lemma_run_end_is(v@, i as int, j as int, p);
    }
    j
}

/// Characters a color value is made of: anything but whitespace and quotes.
pub open spec fn is_ctoken_char(c: char) -> bool {
    !is_ws_char(c) && c != '"' && c != '\''
}

/// The end of the color-character run starting at `i`.
pub open spec fn spec_ctoken_end(s: Seq<char>, i: int) -> int {
    run_end(s, i, |c: char| is_ctoken_char(c))
}

pub fn ctoken_end_exec(v: &Vec<char>, i: usize) -> (r: usize)
    requires
        i <= v@.len(),
    ensures
        r == spec_ctoken_end(v@, i as int),
        i <= r <= v@.len(),
{
    let n: usize = v.len();
    let mut j: usize = i;
    while j < n && !exec_is_ws(v[j]) && v[j] != '"' && v[j] != '\''
        invariant
            n == v@.len(),
            i <= j <= n,
            forall|k: int| i <= k < j ==> is_ctoken_char(v@[k]),
        decreases n - j,
    {
        j = j + 1;
    }
    proof {
        let p = |c: char| is_ctoken_char(c);
        assert forall|k: int| i <= k < j implies #[trigger] p(v@[k]) by {
            assert(is_ctoken_char(v@[k]));
        }
        if j < n {
            assert(!p(v@[j as int]));
        }
        lemma_run_end_is(v@, i as int, j as int, p);
    }
    j
}

/// How many dots a token holds.
pub open spec fn count_dots(t: Seq<char>) -> int
    decreases t.len(),
{
    if t.len() == 0 {
        0
    } else {
        count_dots(t.drop_last()) + if t.last() == '.' { 1int } else { 0int }
    }
}

pub open spec fn has_digit(t: Seq<char>) -> bool {
    exists|k: int| 0 <= k < t.len() && is_digit_char(t[k])
}

/// The index of the first dot in `t`, or its length.
pub open spec fn spec_dot_pos(t: Seq<char>) -> int {
    run_end(t, 0, |c: char| c != '.')
}

/// The integer a numeric token denotes: the digits before the first
/// dot, read in decimal — a fractional part is cut off, not rounded,
/// so `123.9` reads as 123.  A token is readable if it holds at most
/// one dot, at least one digit, and a representable integer part; any
/// other token yields nothing, exactly as a failed number parse does.
pub open spec fn spec_parse_num_token(t: Seq<char>) -> Option<int> {
    let ip = t.take(spec_dot_pos(t));
    if count_dots(t) <= 1 && has_digit(t) && spec_digits_val(ip) <= i64::MAX {
        Some(spec_digits_val(ip))
    } else {
        None
    }
}

proof fn lemma_count_dots_prefix(t: Seq<char>, j: int)
    requires
        0 <= j <= t.len(),
        forall|k: int| j <= k < t.len() ==> t[k] != '.',
    ensures
        count_dots(t) == count_dots(t.take(j)),
    decreases t.len() - j,
{
    if j < t.len() {
        assert(t.last() != '.');
        assert(t.drop_last() =~= t.take(t.len() - 1));
        lemma_count_dots_prefix(t.take(t.len() - 1), j);
        assert(t.take(t.len() - 1).take(j) =~= t.take(j));
    } else {
        assert(t.take(j) =~= t);
    }
}

proof fn lemma_count_dots_all(t: Seq<char>, m: int)
    requires
        0 <= m < t.len(),
        t[m] == '.',
    ensures
        count_dots(t) >= 1,
    decreases t.len(),
{
    if m == t.len() - 1 {
        assert(count_dots(t.drop_last()) >= 0) by {
            lemma_count_dots_nonneg(t.drop_last());
        }
    } else {
        assert(t.drop_last()[m] == t[m]);
        lemma_count_dots_all(t.drop_last(), m);
    }
}

proof fn lemma_count_dots_nonneg(t: Seq<char>)
    ensures
        count_dots(t) >= 0,
    decreases t.len(),
{
    if t.len() > 0 {
        lemma_count_dots_nonneg(t.drop_last());
    }
}

/// Reads a numeric token, as `spec_parse_num_token` describes.
pub fn parse_num_token(v: &Vec<char>) -> (r: Option<i64>)
    requires
        forall|k: int| 0 <= k < v@.len() ==> is_num_char(v@[k]),
    ensures
        match r {
            Some(x) => spec_parse_num_token(v@) == Some(x as int),
            None => spec_parse_num_token(v@) is None,
        },
{
    let n: usize = v.len();
    let mut dots: usize = 0;
    let mut digits: usize = 0;
    let mut i: usize = 0;
    while i < n
        invariant
            n == v@.len(),
            i <= n,
            dots <= i,
            digits <= i,
            forall|k: int| 0 <= k < v@.len() ==> is_num_char(v@[k]),
            dots == count_dots(v@.take(i as int)),
            (digits > 0) == has_digit(v@.take(i as int)),
        decreases n - i,
    {
        proof {
            assert(v@.take(i + 1).drop_last() =~= v@.take(i as int));
            assert(v@.take(i + 1).last() == v@[i as int]);
        }
        let ghost prev = v@.take(i as int);
        if v[i] == '.' {
            dots = dots + 1;
        } else {
            digits = digits + 1;
            proof {
                assert(is_digit_char(v@[i as int]));
                assert(v@.take(i + 1)[i as int] == v@[i as int]);
                assert(has_digit(v@.take(i + 1)));
            }
        }
        proof {
            if has_digit(prev) {
                let w = choose|k: int| 0 <= k < prev.len() && is_digit_char(#[trigger] prev[k]);
                assert(v@.take(i + 1)[w] == prev[w]);
                assert(has_digit(v@.take(i + 1)));
            }
            if has_digit(v@.take(i + 1)) && !has_digit(prev) && v@[i as int] == '.' {
                let w = choose|k: int| 0 <= k < i + 1 && is_digit_char(#[trigger] v@.take(i + 1)[k]);
                assert(prev[w] == v@.take(i + 1)[w]);
            }
        }
        i = i + 1;
    }
    proof {
        assert(v@.take(n as int) =~= v@);
    }
    if dots > 1 || digits == 0 {
        return None;
    }
    let dp = num_dot_pos_exec(v);
    let ip = copy_range(v, 0, dp);
    proof {
        let pd = |c: char| c != '.';
        lemma_run_end_props(v@, 0, pd);
        assert(ip@ =~= v@.take(spec_dot_pos(v@)));
        assert forall|k: int| 0 <= k < ip@.len() implies is_digit_char(ip@[k]) by {
            assert(pd(v@[k]));
            assert(v@[k] != '.');
            assert(is_num_char(v@[k]));
            assert(ip@[k] == v@[k]);
        }
    }
    parse_digits_capped(&ip)
}

fn num_dot_pos_exec(v: &Vec<char>) -> (r: usize)
    ensures
        r == spec_dot_pos(v@),
        r <= v@.len(),
{
    let n: usize = v.len();
    let mut j: usize = 0;
    while j < n && v[j] != '.'
        invariant
            n == v@.len(),
            j <= n,
            forall|k: int| 0 <= k < j ==> v@[k] != '.',
        decreases n - j,
    {
        j = j + 1;
    }
    proof {
        let p = |c: char| c != '.';
        assert forall|k: int| 0 <= k < j implies #[trigger] p(v@[k]) by {
            assert(v@[k] != '.');
        }
        if j < n {
            assert(!p(v@[j as int]));
        }
        lemma_run_end_is(v@, 0, j as int, p);
    }
    j
}

/// Reads an all-digit string, reporting nothing when its value does
/// not fit.
fn parse_digits_capped(v: &Vec<char>) -> (r: Option<i64>)
    requires
        forall|k: int| 0 <= k < v@.len() ==> is_digit_char(v@[k]),
    ensures
        match r {
            Some(x) => spec_digits_val(v@) == x as int && x >= 0,
            None => spec_digits_val(v@) > i64::MAX,
        },
{
    let n: usize = v.len();
    let mut i: usize = 0;
    let mut acc: i64 = 0;
    while i < n
        invariant
            n == v@.len(),
            i <= n,
            forall|k: int| 0 <= k < v@.len() ==> is_digit_char(v@[k]),
            acc == spec_digits_val(v@.take(i as int)),
            0 <= acc <= i64::MAX,
        decreases n - i,
    {
        let c = v[i];
        proof {
            assert(is_digit_char(v@[i as int]));
            assert(c as u32 >= 48 && c as u32 <= 57);
        }
        let d: i64 = (c as u32 % 48) as i64;
        proof {
            assert((c as u32 % 48) as int == crate::text::digit_val(c));
            assert(v@.take(i + 1).drop_last() =~= v@.take(i as int));
            assert(v@.take(i + 1).take(i as int) =~= v@.take(i as int));
            assert(v@.take(i + 1)[i as int] == v@[i as int]);
            assert(spec_digits_val(v@.take(i + 1))
                == spec_digits_val(v@.take(i as int)) * 10 + crate::text::digit_val(v@[i as int]));
        }
        if acc > 922337203685477580 || (acc == 922337203685477580 && d > 7) {
            proof {
                let pre = v@.take(i + 1);
                let post = v@.skip(i + 1);
                assert(v@ =~= pre + post);
                assert forall|k: int| 0 <= k < pre.len() implies is_digit_char(pre[k]) by {
                    assert(pre[k] == v@[k]);
                }
                assert forall|k: int| 0 <= k < post.len() implies is_digit_char(post[k]) by {
                    assert(post[k] == v@[k + i + 1]);
                }
                crate::text::lemma_digits_val_monotone(pre, post);
                assert(spec_digits_val(pre) > i64::MAX);
            }
            return None;
        }
        acc = acc * 10 + d;
        i = i + 1;
    }
    proof {
        assert(v@.take(n as int) =~= v@);
    }
    Some(acc)
}

// ---------------------------------------------------------------------------
// Field lookup
// ---------------------------------------------------------------------------

/// A word boundary: the position is at the start or after a non-word
/// character, so a key never matches as the suffix of a longer key.
pub open spec fn spec_boundary(s: Seq<char>, i: int) -> bool {
    i == 0 || !crate::text::is_word_char(s[i - 1])
}

/// A key (with its colon) sits at `i` and a numeric token follows
/// after optional whitespace.
pub open spec fn num_key_at(s: Seq<char>, keyc: Seq<char>, i: int) -> bool {
    match_at(s, keyc, i) && {
        let j = spec_skip_ws(s, i + keyc.len());
        spec_num_end(s, j) > j
    }
}

/// A boundary-anchored numeric field (under its long or short key)
/// sits at `i`.
pub open spec fn num_field_at(s: Seq<char>, longc: Seq<char>, shortc: Seq<char>, i: int) -> bool {
    spec_boundary(s, i) && (num_key_at(s, longc, i) || num_key_at(s, shortc, i))
}

pub open spec fn spec_num_field_pos(s: Seq<char>, longc: Seq<char>, shortc: Seq<char>) -> Option<
    int,
> {
    crate::text::first_pos(|i: int| num_field_at(s, longc, shortc, i), 0, s.len() as int)
}

/// The value of the first numeric field under either key: the token
/// after the first anchored key occurrence that one follows, read as
/// `spec_parse_num_token` describes.
pub open spec fn spec_num_field(s: Seq<char>, longc: Seq<char>, shortc: Seq<char>) -> Option<int> {
    match spec_num_field_pos(s, longc, shortc) {
        None => None,
        Some(i) => {
            let klen: int = if num_key_at(s, longc, i) {
                longc.len() as int
            } else {
                shortc.len() as int
            };
            let j = spec_skip_ws(s, i + klen);
            let e = spec_num_end(s, j);
            spec_parse_num_token(s.subrange(j, e))
        }
    }
}

proof fn lemma_num_field_pos_is(s: Seq<char>, longc: Seq<char>, shortc: Seq<char>, i: int)
    requires
        0 <= i < s.len(),
        num_field_at(s, longc, shortc, i),
        forall|j: int| 0 <= j < i ==> !num_field_at(s, longc, shortc, j),
    ensures
        spec_num_field_pos(s, longc, shortc) == Some(i),
{
    let p = |k: int| num_field_at(s, longc, shortc, k);
    assert forall|j: int| 0 <= j < i implies !#[trigger] p(j) by {
        assert(!num_field_at(s, longc, shortc, j));
    }
    crate::text::lemma_first_pos_is(p, 0, s.len() as int, i);
}

proof fn lemma_num_field_pos_none(s: Seq<char>, longc: Seq<char>, shortc: Seq<char>)
    requires
        forall|j: int| 0 <= j < s.len() ==> !num_field_at(s, longc, shortc, j),
    ensures
        spec_num_field_pos(s, longc, shortc) is None,
{
    let p = |k: int| num_field_at(s, longc, shortc, k);
    assert forall|j: int| 0 <= j < s.len() implies !#[trigger] p(j) by {
        assert(!num_field_at(s, longc, shortc, j));
    }
    crate::text::lemma_first_pos_none(p, 0, s.len() as int);
}

fn num_key_check(v: &Vec<char>, keyc: &Vec<char>, i: usize) -> (r: bool)
    requires
        i <= v@.len(),
    ensures
        r == num_key_at(v@, keyc@, i as int),
{
    if keyc.len() > v.len() - i {
        proof {
            assert(!match_at(v@, keyc@, i as int));
        }
        return false;
    }
    if !is_match_at(v, keyc, i) {
        return false;
    }
    let j = skip_ws_exec(v, i + keyc.len());
    let e = num_end_exec(v, j);
    e > j
}

/// Finds the first boundary-anchored numeric field under either key
/// and reads its value, as `spec_num_field` describes.
fn find_num_field(v: &Vec<char>, longc: &Vec<char>, shortc: &Vec<char>) -> (r: Option<i64>)
    ensures
        match r {
            Some(x) => spec_num_field(v@, longc@, shortc@) == Some(x as int),
            None => spec_num_field(v@, longc@, shortc@) is None,
        },
{
    let n: usize = v.len();
    let mut i: usize = 0;
    while i < n
        invariant
            n == v@.len(),
            i <= n,
            forall|j: int| 0 <= j < i ==> !num_field_at(v@, longc@, shortc@, j),
        decreases n - i,
    {
        let bnd = i == 0 || !crate::text::exec_is_word(v[i - 1]);
        if bnd {
            let lk = num_key_check(v, longc, i);
            let sk = if lk {
                false
            } else {
                num_key_check(v, shortc, i)
            };
            if lk || sk {
                proof {
                    lemma_num_field_pos_is(v@, longc@, shortc@, i as int);
                }
                let klen = if lk {
                    longc.len()
                } else {
                    shortc.len()
                };
                proof {
                    assert(i + klen <= v@.len());
                }
                let j = skip_ws_exec(v, i + klen);
                let e = num_end_exec(v, j);
                let tok = copy_range(v, j, e);
                proof {
                    assert(tok@ =~= v@.subrange(j as int, e as int));
                    assert forall|k: int| 0 <= k < tok@.len() implies is_num_char(tok@[k]) by {
                        assert(tok@[k] == v@[j + k]);
                        assert(is_num_char(v@[j + k]));
                    }
                }
                return parse_num_token(&tok);
            }
        }
        proof {
            assert(!num_field_at(v@, longc@, shortc@, i as int));
        }
        i = i + 1;
    }
    proof {
        assert forall|j: int| 0 <= j < v@.len() implies !num_field_at(v@, longc@, shortc@, j) by {
        }
        lemma_num_field_pos_none(v@, longc@, shortc@);
    }
    None
}

// ---------------------------------------------------------------------------
// The color field
// ---------------------------------------------------------------------------

pub open spec fn bg_key() -> Seq<char> {
    "backgroundColor:"@
}

pub open spec fn is_quote_char(c: char) -> bool {
    c == '"' || c == '\''
}

/// The color key sits at `i`, and after optional whitespace and an
/// optional opening quote a value character follows.
pub open spec fn color_at(s: Seq<char>, i: int) -> bool {
    match_at(s, bg_key(), i) && {
        let j = spec_skip_ws(s, i + bg_key().len());
        let j2: int = if j < s.len() && is_quote_char(s[j]) {
            j + 1
        } else {
            j
        };
        j2 < s.len() && is_ctoken_char(s[j2])
    }
}

pub open spec fn spec_color_pos(s: Seq<char>) -> Option<int> {
    crate::text::first_pos(|i: int| color_at(s, i), 0, s.len() as int)
}

/// The first color value in the text: the unquoted token after the
/// first `backgroundColor:` occurrence that one follows.
pub open spec fn spec_color_field(s: Seq<char>) -> Option<Seq<char>> {
    match spec_color_pos(s) {
        None => None,
        Some(i) => {
            let j = spec_skip_ws(s, i + bg_key().len());
            let j2: int = if j < s.len() && is_quote_char(s[j]) {
                j + 1
            } else {
                j
            };
            Some(s.subrange(j2, spec_ctoken_end(s, j2)))
        }
    }
}

proof fn lemma_color_pos_is(s: Seq<char>, i: int)
    requires
        0 <= i < s.len(),
        color_at(s, i),
        forall|j: int| 0 <= j < i ==> !color_at(s, j),
    ensures
        spec_color_pos(s) == Some(i),
{
    let p = |k: int| color_at(s, k);
    assert forall|j: int| 0 <= j < i implies !#[trigger] p(j) by {
        assert(!color_at(s, j));
    }
    crate::text::lemma_first_pos_is(p, 0, s.len() as int, i);
}

proof fn lemma_color_pos_none(s: Seq<char>)
    requires
        forall|j: int| 0 <= j < s.len() ==> !color_at(s, j),
    ensures
        spec_color_pos(s) is None,
{
    let p = |k: int| color_at(s, k);
    assert forall|j: int| 0 <= j < s.len() implies !#[trigger] p(j) by {
        assert(!color_at(s, j));
    }
    crate::text::lemma_first_pos_none(p, 0, s.len() as int);
}

fn color_check(v: &Vec<char>, keyc: &Vec<char>, i: usize) -> (r: bool)
    requires
        i <= v@.len(),
        keyc@ == bg_key(),
    ensures
        r == color_at(v@, i as int),
{
    if keyc.len() > v.len() - i {
        proof {
            assert(!match_at(v@, bg_key(), i as int));
        }
        return false;
    }
    if !is_match_at(v, keyc, i) {
        return false;
    }
    let j = skip_ws_exec(v, i + keyc.len());
    let j2 = if j < v.len() && (v[j] == '"' || v[j] == '\'') {
        j + 1
    } else {
        j
    };
    if j2 >= v.len() {
        return false;
    }
    let c = v[j2];
    !exec_is_ws(c) && c != '"' && c != '\''
}

/// Finds the first color field and reads its value, as
/// `spec_color_field` describes.
fn find_color_field(v: &Vec<char>) -> (r: Option<String>)
    ensures
        match r {
            Some(x) => spec_color_field(v@) == Some(x@),
            None => spec_color_field(v@) is None,
        },
{
    let keyc = chars_of("backgroundColor:");
    let n: usize = v.len();
    let mut i: usize = 0;
    while i < n
        invariant
            n == v@.len(),
            i <= n,
            keyc@ == bg_key(),
            forall|j: int| 0 <= j < i ==> !color_at(v@, j),
        decreases n - i,
    {
        if color_check(v, &keyc, i) {
            proof {
                lemma_color_pos_is(v@, i as int);
            }
            let j = skip_ws_exec(v, i + keyc.len());
            let j2 = if j < v.len() && (v[j] == '"' || v[j] == '\'') {
                j + 1
            } else {
                j
            };
            let e = ctoken_end_exec(v, j2);
            let tok = copy_range(v, j2, e);
            proof {
                assert(tok@ =~= v@.subrange(j2 as int, e as int));
            }
            return Some(string_of(&tok));
        }
        i = i + 1;
    }
    proof {
        lemma_color_pos_none(v@);
    }
    None
}

// ---------------------------------------------------------------------------
// The always-on-top field
// ---------------------------------------------------------------------------

pub open spec fn aot_key() -> Seq<char> {
    "alwaysOnTop:"@
}

pub open spec fn true_lit() -> Seq<char> {
    "true"@
}

pub open spec fn false_lit() -> Seq<char> {
    "false"@
}

/// The always-on-top key sits at `i` and, after optional whitespace,
/// `true` or `false` follows.
pub open spec fn aot_at(s: Seq<char>, i: int) -> bool {
    match_at(s, aot_key(), i) && {
        let j = spec_skip_ws(s, i + aot_key().len());
        match_at(s, true_lit(), j) || match_at(s, false_lit(), j)
    }
}

pub open spec fn spec_aot_pos(s: Seq<char>) -> Option<int> {
    crate::text::first_pos(|i: int| aot_at(s, i), 0, s.len() as int)
}

/// The first always-on-top value in the text.
pub open spec fn spec_aot_field(s: Seq<char>) -> Option<bool> {
    match spec_aot_pos(s) {
        None => None,
        Some(i) => Some(match_at(s, true_lit(), spec_skip_ws(s, i + aot_key().len()))),
    }
}

proof fn lemma_aot_pos_is(s: Seq<char>, i: int)
    requires
        0 <= i < s.len(),
        aot_at(s, i),
        forall|j: int| 0 <= j < i ==> !aot_at(s, j),
    ensures
        spec_aot_pos(s) == Some(i),
{
    let p = |k: int| aot_at(s, k);
    assert forall|j: int| 0 <= j < i implies !#[trigger] p(j) by {
        assert(!aot_at(s, j));
    }
    crate::text::lemma_first_pos_is(p, 0, s.len() as int, i);
}

proof fn lemma_aot_pos_none(s: Seq<char>)
    requires
        forall|j: int| 0 <= j < s.len() ==> !aot_at(s, j),
    ensures
        spec_aot_pos(s) is None,
{
    let p = |k: int| aot_at(s, k);
    assert forall|j: int| 0 <= j < s.len() implies !#[trigger] p(j) by {
        assert(!aot_at(s, j));
    }
    crate::text::lemma_first_pos_none(p, 0, s.len() as int);
}

fn aot_check(v: &Vec<char>, keyc: &Vec<char>, tv: &Vec<char>, fv: &Vec<char>, i: usize) -> (r:
    bool)
    requires
        i <= v@.len(),
        keyc@ == aot_key(),
        tv@ == true_lit(),
        fv@ == false_lit(),
    ensures
        r == aot_at(v@, i as int),
{
    if keyc.len() > v.len() - i {
        proof {
            assert(!match_at(v@, aot_key(), i as int));
        }
        return false;
    }
    if !is_match_at(v, keyc, i) {
        return false;
    }
    let j = skip_ws_exec(v, i + keyc.len());
    let tm = if tv.len() <= v.len() - j {
        is_match_at(v, tv, j)
    } else {
        proof {
            assert(!match_at(v@, true_lit(), j as int));
        }
        false
    };
    let fm = if fv.len() <= v.len() - j {
        is_match_at(v, fv, j)
    } else {
        proof {
            assert(!match_at(v@, false_lit(), j as int));
        }
        false
    };
    tm || fm
}

/// Finds the first always-on-top field and reads its value, as
/// `spec_aot_field` describes.
fn find_aot_field(v: &Vec<char>) -> (r: Option<bool>)
    ensures
        match r {
            Some(x) => spec_aot_field(v@) == Some(x),
            None => spec_aot_field(v@) is None,
        },
{
    let keyc = chars_of("alwaysOnTop:");
    let tv = chars_of("true");
    let fv = chars_of("false");
    let n: usize = v.len();
    let mut i: usize = 0;
    while i < n
        invariant
            n == v@.len(),
            i <= n,
            keyc@ == aot_key(),
            tv@ == true_lit(),
            fv@ == false_lit(),
            forall|j: int| 0 <= j < i ==> !aot_at(v@, j),
        decreases n - i,
    {
        if aot_check(v, &keyc, &tv, &fv, i) {
            proof {
                lemma_aot_pos_is(v@, i as int);
            }
            let j = skip_ws_exec(v, i + keyc.len());
            let tm = if tv.len() <= v.len() - j {
                is_match_at(v, &tv, j)
            } else {
                proof {
                    assert(!match_at(v@, true_lit(), j as int));
                }
                false
            };
            return Some(tm);
        }
        i = i + 1;
    }
    proof {
        lemma_aot_pos_none(v@);
    }
    None
}

// ---------------------------------------------------------------------------
// The tags field
// ---------------------------------------------------------------------------

pub open spec fn tags_key() -> Seq<char> {
    "tags:"@
}

/// A `tags:` line starts at `i` (the start of the text or just after
/// a newline).
pub open spec fn tags_at(s: Seq<char>, i: int) -> bool {
    (i == 0 || s[i - 1] == '\n') && match_at(s, tags_key(), i)
}

pub open spec fn spec_tags_pos(s: Seq<char>) -> Option<int> {
    crate::text::first_pos(|i: int| tags_at(s, i), 0, s.len() as int)
}

/// The raw value of the first `tags:` line: the rest of that line.
pub open spec fn spec_tags_raw(s: Seq<char>) -> Option<Seq<char>> {
    match spec_tags_pos(s) {
        None => None,
        Some(i) => {
            let b = i + tags_key().len();
            Some(s.subrange(b, run_end(s, b, |c: char| c != '\n')))
        }
    }
}

/// A tag entry, cleaned: trimmed, then stripped of surrounding double
/// quotes, then of surrounding single quotes.
pub open spec fn spec_clean_tag(t: Seq<char>) -> Seq<char> {
    let t1 = crate::text::spec_trim(t);
    let t2 = crate::text::spec_drop_trailing(
        crate::text::spec_drop_leading(t1, |x: char| x == '"'),
        |x: char| x == '"',
    );
    crate::text::spec_drop_trailing(
        crate::text::spec_drop_leading(t2, |x: char| x == '\''),
        |x: char| x == '\'',
    )
}

/// Comma-separated entries, cleaned, empty ones dropped.
pub open spec fn spec_clean_list(x: Seq<char>) -> Seq<Seq<char>> {
    crate::text::spec_split(x, ',').map_values(|t: Seq<char>| spec_clean_tag(t)).filter(
        |t: Seq<char>| t.len() > 0,
    )
}

/// The tag list a trimmed `tags:` value denotes: the entries between
/// brackets when both are present, else the bare comma list, else
/// nothing.
pub open spec fn spec_parse_tags_value(v: Seq<char>) -> Seq<Seq<char>> {
    if v.len() >= 2 && v[0] == '[' && v[v.len() - 1] == ']' {
        spec_clean_list(v.subrange(1, v.len() - 1))
    } else if v.len() > 0 {
        spec_clean_list(v)
    } else {
        Seq::<Seq<char>>::empty()
    }
}

/// The tag set of a note's text: parsed from the first `tags:` line,
/// empty when there is none.
pub open spec fn spec_extract_tags(s: Seq<char>) -> Seq<Seq<char>> {
    match spec_tags_raw(s) {
        None => Seq::<Seq<char>>::empty(),
        Some(r) => spec_parse_tags_value(crate::text::spec_trim(r)),
    }
}

proof fn lemma_tags_pos_is(s: Seq<char>, i: int)
    requires
        0 <= i < s.len(),
        tags_at(s, i),
        forall|j: int| 0 <= j < i ==> !tags_at(s, j),
    ensures
        spec_tags_pos(s) == Some(i),
{
    let p = |k: int| tags_at(s, k);
    assert forall|j: int| 0 <= j < i implies !#[trigger] p(j) by {
        assert(!tags_at(s, j));
    }
    crate::text::lemma_first_pos_is(p, 0, s.len() as int, i);
}

proof fn lemma_tags_pos_none(s: Seq<char>)
    requires
        forall|j: int| 0 <= j < s.len() ==> !tags_at(s, j),
    ensures
        spec_tags_pos(s) is None,
{
    let p = |k: int| tags_at(s, k);
    assert forall|j: int| 0 <= j < s.len() implies !#[trigger] p(j) by {
        assert(!tags_at(s, j));
    }
    crate::text::lemma_first_pos_none(p, 0, s.len() as int);
}

pub proof fn lemma_tags_pos_is_pub(s: Seq<char>, i: int)
    requires
        0 <= i < s.len(),
        tags_at(s, i),
        forall|j: int| 0 <= j < i ==> !tags_at(s, j),
    ensures
        spec_tags_pos(s) == Some(i),
{
    lemma_tags_pos_is(s, i);
}

/// Cleans one tag entry, as `spec_clean_tag` describes.
fn clean_tag(v: &Vec<char>) -> (r: Vec<char>)
    ensures
        r@ == spec_clean_tag(v@),
{
    let t1 = crate::text::trim_chars(v);
    let t2 = crate::text::trim_match_chars(&t1, '"');
    crate::text::trim_match_chars(&t2, '\'')
}

proof fn lemma_clean_list_step(segs: Seq<Seq<char>>, x: Seq<char>)
    ensures
        segs.push(x).map_values(|t: Seq<char>| spec_clean_tag(t)).filter(|t: Seq<char>| t.len() > 0)
            == segs.map_values(|t: Seq<char>| spec_clean_tag(t)).filter(
            |t: Seq<char>| t.len() > 0,
        ) + if spec_clean_tag(x).len() > 0 {
            seq![spec_clean_tag(x)]
        } else {
            Seq::<Seq<char>>::empty()
        },
{
    reveal(Seq::filter);
    let cf = |t: Seq<char>| spec_clean_tag(t);
    let pf = |t: Seq<char>| t.len() > 0;
    assert(segs.push(x).map_values(cf) =~= segs.map_values(cf).push(cf(x)));
    let m = segs.map_values(cf);
    assert(m.push(cf(x)).drop_last() =~= m);
    assert(m.push(cf(x)).last() == cf(x));
    if spec_clean_tag(x).len() > 0 {
        assert(m.push(cf(x)).filter(pf) =~~= m.filter(pf) + seq![spec_clean_tag(x)]);
    } else {
        assert(m.push(cf(x)).filter(pf) =~~= m.filter(pf) + Seq::<Seq<char>>::empty());
    }
}

/// Splits a comma list into cleaned, non-empty entries, as
/// `spec_clean_list` describes.
fn clean_list(inner: &Vec<char>) -> (r: Vec<String>)
    ensures
        r.deep_view() == spec_clean_list(inner@),
{
    let ghost segs = crate::text::spec_split(inner@, ',');
    let innern: usize = inner.len();
    let mut out: Vec<String> = Vec::new();
    let mut pos: usize = 0;
    let ghost mut t: int = 0;
    proof {
        crate::text::lemma_split_len(inner@, ',');
        assert(segs.take(0) =~= Seq::<Seq<char>>::empty());
        reveal(Seq::filter);
        assert(out.deep_view() =~~= segs.take(0).map_values(|u: Seq<char>| spec_clean_tag(u)).filter(
            |u: Seq<char>| u.len() > 0,
        ));
        assert(inner@.skip(0) =~= inner@);
    }
    loop
        invariant
            innern == inner@.len(),
            0 <= pos <= inner@.len(),
            0 <= t < segs.len(),
            segs == crate::text::spec_split(inner@, ','),
            crate::text::spec_split(inner@.skip(pos as int), ',') =~~= segs.skip(t),
            out.deep_view() =~~= segs.take(t).map_values(|u: Seq<char>| spec_clean_tag(u)).filter(
                |u: Seq<char>| u.len() > 0,
            ),
        decreases segs.len() - t,
    {
        let c = crate::text::find_char_from(inner, ',', pos);
        proof {
            crate::text::lemma_find_props(inner@, seq![','], pos as int);
        }
        match c {
            Some(ci) => {
                proof {
                    assert(match_at(inner@, seq![','], ci as int));
                    crate::text::lemma_match_char(inner@, ',', ci as int);
                    let tail = inner@.skip(pos as int);
                    let seg = inner@.subrange(pos as int, ci as int);
                    let rest = inner@.skip(ci + 1);
                    assert forall|k: int| 0 <= k < seg.len() implies seg[k] != ',' by {
                        assert(seg[k] == inner@[pos + k]);
                        if inner@[pos + k] == ',' {
                            crate::text::lemma_char_match(inner@, ',', pos + k);
                        }
                    }
                    assert(tail =~= seg + seq![','] + rest);
                    crate::text::lemma_split_peel(seg, rest, ',');
                    assert(segs.skip(t) =~~= seq![seg] + crate::text::spec_split(rest, ','));
                    assert(segs.skip(t)[0] == segs[t]);
                    assert((seq![seg] + crate::text::spec_split(rest, ','))[0] == seg);
                    assert(segs[t] == seg);
                    crate::text::lemma_split_len(rest, ',');
                    assert(segs.skip(t).len() >= 2);
                    assert(t + 1 < segs.len());
                }
                let seg = copy_range(inner, pos, ci);
                let cleaned = clean_tag(&seg);
                let ghost before = out.deep_view();
                if cleaned.len() > 0 {
                    out.push(string_of(&cleaned));
                }
                proof {
                    assert(seg@ =~= inner@.subrange(pos as int, ci as int));
                    assert(segs.take(t + 1) =~= segs.take(t).push(segs[t]));
                    lemma_clean_list_step(segs.take(t), segs[t]);
                    if spec_clean_tag(segs[t]).len() > 0 {
                        assert(out.deep_view() =~~= before + seq![spec_clean_tag(segs[t])]);
                    } else {
                        assert(out.deep_view() =~~= before);
                        assert(before =~~= before + Seq::<Seq<char>>::empty());
                    }
                    assert(out.deep_view() =~~= segs.take(t + 1).map_values(
                        |u: Seq<char>| spec_clean_tag(u),
                    ).filter(|u: Seq<char>| u.len() > 0));
                    let rest = inner@.skip(ci + 1);
                    assert(segs.skip(t).skip(1) =~= segs.skip(t + 1));
                    assert((seq![inner@.subrange(pos as int, ci as int)]
                        + crate::text::spec_split(rest, ',')).skip(1)
                        =~= crate::text::spec_split(rest, ','));
                    assert(crate::text::spec_split(rest, ',') =~~= segs.skip(t + 1));
                    t = t + 1;
                }
                pos = ci + 1;
            }
            None => {
                proof {
                    let tail = inner@.skip(pos as int);
                    assert forall|k: int| 0 <= k < tail.len() implies tail[k] != ',' by {
                        assert(tail[k] == inner@[pos + k]);
                        if inner@[pos + k] == ',' {
                            crate::text::lemma_char_match(inner@, ',', pos + k);
                        }
                    }
                    crate::text::lemma_split_whole(tail, ',');
                    assert(segs.skip(t) =~~= seq![tail]);
                    assert(segs.skip(t)[0] == segs[t]);
                    assert(seq![tail][0] == tail);
                    assert(segs[t] == tail);
                    assert(t == segs.len() - 1);
                }
                let seg = copy_range(inner, pos, inner.len());
                let cleaned = clean_tag(&seg);
                let ghost before = out.deep_view();
                if cleaned.len() > 0 {
                    out.push(string_of(&cleaned));
                }
                proof {
                    assert(seg@ =~= inner@.skip(pos as int));
                    assert(segs.take(t + 1) =~= segs.take(t).push(segs[t]));
                    lemma_clean_list_step(segs.take(t), segs[t]);
                    if spec_clean_tag(segs[t]).len() > 0 {
                        assert(out.deep_view() =~~= before + seq![spec_clean_tag(segs[t])]);
                    } else {
                        assert(out.deep_view() =~~= before);
                        assert(before =~~= before + Seq::<Seq<char>>::empty());
                    }
                    assert(segs.take(t + 1) =~= segs);
                    assert(out.deep_view() =~~= spec_clean_list(inner@));
                }
                return out;
            }
        }
    }
}

/// Finds the first `tags:` line and parses its list, as
/// `spec_extract_tags` describes.
fn find_tags_field(v: &Vec<char>) -> (r: Vec<String>)
    ensures
        r.deep_view() == spec_extract_tags(v@),
{
    let keyc = chars_of("tags:");
    let n: usize = v.len();
    let mut i: usize = 0;
    while i < n
        invariant
            n == v@.len(),
            i <= n,
            keyc@ == tags_key(),
            forall|j: int| 0 <= j < i ==> !tags_at(v@, j),
        decreases n - i,
    {
        let line_start = i == 0 || v[i - 1] == '\n';
        let km = if line_start && keyc.len() <= n - i {
            is_match_at(v, &keyc, i)
        } else {
            proof {
                if keyc@.len() > n - i {
                    assert(!match_at(v@, tags_key(), i as int));
                }
            }
            false
        };
        if km {
            proof {
                lemma_tags_pos_is(v@, i as int);
            }
            let b = i + keyc.len();
            let le = line_end_exec(v, b);
            let raw = copy_range(v, b, le);
            let trimmed = crate::text::trim_chars(&raw);
            proof {
                assert(raw@ =~= v@.subrange(b as int, le as int));
            }
            let tn: usize = trimmed.len();
            if tn >= 2 {
                let c0 = trimmed[0];
                let cl = trimmed[tn - 1];
                if c0 == '[' && cl == ']' {
                    let innerv = copy_range(&trimmed, 1, tn - 1);
                    proof {
                        assert(innerv@ =~= trimmed@.subrange(1, trimmed@.len() - 1));
                    }
                    return clean_list(&innerv);
                }
            }
            if tn > 0 {
                return clean_list(&trimmed);
            }
            let r: Vec<String> = Vec::new();
            proof {
                assert(r.deep_view() =~~= Seq::<Seq<char>>::empty());
            }
            return r;
        }
        proof {
            assert(!tags_at(v@, i as int));
        }
        i = i + 1;
    }
    proof {
        lemma_tags_pos_none(v@);
    }
    let r: Vec<String> = Vec::new();
    proof {
        assert(r.deep_view() =~~= Seq::<Seq<char>>::empty());
    }
    r
}

/// The end of the line starting at or containing `i`: the next
/// newline's index, or the end of the text.
pub fn line_end_exec(v: &Vec<char>, i: usize) -> (r: usize)
    requires
        i <= v@.len(),
    ensures
        r == run_end(v@, i as int, |c: char| c != '\n'),
        i <= r <= v@.len(),
{
    let n: usize = v.len();
    let mut j: usize = i;
    while j < n && v[j] != '\n'
        invariant
            n == v@.len(),
            i <= j <= n,
            forall|k: int| i <= k < j ==> v@[k] != '\n',
        decreases n - j,
    {
        j = j + 1;
    }
    proof {
        let p = |c: char| c != '\n';
        assert forall|k: int| i <= k < j implies #[trigger] p(v@[k]) by {
            assert(v@[k] != '\n');
        }
        if j < n {
            assert(!p(v@[j as int]));
        }
        lemma_run_end_is(v@, i as int, j as int, p);
    }
    j
}

/// Reads every metadata field of a note's text: geometry, color, the
/// always-on-top flag, and the tag list.  Each field is located
/// independently; an absent field yields nothing.
pub fn extract_meta_from_content(content: &str) -> (r: (
    Option<i64>,
    Option<i64>,
    Option<i64>,
    Option<i64>,
    Option<String>,
    Option<bool>,
    Vec<String>,
))
    ensures
        r.0 == spec_num_i64(spec_num_field(content@, "x:"@, "x:"@)),
        r.1 == spec_num_i64(spec_num_field(content@, "y:"@, "y:"@)),
        r.2 == spec_num_i64(spec_num_field(content@, "width:"@, "w:"@)),
        r.3 == spec_num_i64(spec_num_field(content@, "height:"@, "h:"@)),
        match r.4 {
            Some(c) => spec_color_field(content@) == Some(c@),
            None => spec_color_field(content@) is None,
        },
        r.5 == spec_aot_field(content@),
        r.6.deep_view() == spec_extract_tags(content@),
{
    let v = chars_of(content);
    let xk = chars_of("x:");
    let yk = chars_of("y:");
    let wk = chars_of("width:");
    let ws = chars_of("w:");
    let hk = chars_of("height:");
    let hs = chars_of("h:");
    let x = find_num_field(&v, &xk, &xk);
    let y = find_num_field(&v, &yk, &yk);
    let w = find_num_field(&v, &wk, &ws);
    let h = find_num_field(&v, &hk, &hs);
    let color = find_color_field(&v);
    let aot = find_aot_field(&v);
    let tags = find_tags_field(&v);
    (x, y, w, h, color, aot, tags)
}

/// An unbounded field value squeezed into `i64`; the finders only
/// report values that fit, so this is the identity on what they yield.
pub open spec fn spec_num_i64(o: Option<int>) -> Option<i64> {
    match o {
        Some(x) => if i64::MIN <= x <= i64::MAX {
            Some(x as i64)
        } else {
            None
        },
        None => None,
    }
}

// ---------------------------------------------------------------------------
// Field update
// ---------------------------------------------------------------------------

/// A key pattern (with colon) sits at a line start.
pub open spec fn key_line_at(s: Seq<char>, keyc: Seq<char>, i: int) -> bool {
    (i == 0 || s[i - 1] == '\n') && match_at(s, keyc, i)
}

pub open spec fn spec_key_line_pos(s: Seq<char>, keyc: Seq<char>) -> Option<int> {
    crate::text::first_pos(|i: int| key_line_at(s, keyc, i), 0, s.len() as int)
}

/// The replacement header line for a field: `key: value`.
pub open spec fn spec_field_line(key: Seq<char>, value: Seq<char>) -> Seq<char> {
    key + seq![':'] + seq![' '] + value
}

/// A synthesized header holding only the given field, put before the
/// original text.
pub open spec fn spec_synth_header(c: Seq<char>, key: Seq<char>, value: Seq<char>) -> Seq<char> {
    fence() + seq!['\n'] + spec_field_line(key, value) + seq!['\n'] + fence() + seq!['\n', '\n'] + c
}

/// The text with the field `key` set to `value` inside its header.
///
/// A `key:` line inside the header span (between the first fence and
/// the next) is replaced in place; otherwise the line is put just
/// before the closing fence; when no header closes, one is
/// synthesized in front.  The body and all unrelated header lines are
/// kept byte for byte.
pub open spec fn spec_update_field(c: Seq<char>, key: Seq<char>, value: Seq<char>) -> Seq<char> {
    if !match_at(spec_trim_start(c), fence(), 0) {
        spec_synth_header(c, key, value)
    } else {
        match spec_find(c, fence(), 0) {
            None => spec_synth_header(c, key, value),
            Some(s0) => match spec_find(c, fence(), s0 + 3) {
                None => spec_synth_header(c, key, value),
                Some(e) => {
                    let fm = c.take(e);
                    let body = c.skip(e);
                    match spec_key_line_pos(fm, key + seq![':']) {
                        Some(i) => {
                            let le = run_end(fm, i, |ch: char| ch != '\n');
                            fm.take(i) + spec_field_line(key, value) + fm.skip(le) + body
                        },
                        None => {
                            let fm2 = if fm.len() > 0 && fm[fm.len() - 1] == '\n' {
                                fm
                            } else {
                                fm + seq!['\n']
                            };
                            fm2 + spec_field_line(key, value) + seq!['\n'] + body
                        },
                    }
                },
            },
        }
    }
}

proof fn lemma_key_line_pos_is(s: Seq<char>, keyc: Seq<char>, i: int)
    requires
        0 <= i < s.len(),
        key_line_at(s, keyc, i),
        forall|j: int| 0 <= j < i ==> !key_line_at(s, keyc, j),
    ensures
        spec_key_line_pos(s, keyc) == Some(i),
{
    let p = |k: int| key_line_at(s, keyc, k);
    assert forall|j: int| 0 <= j < i implies !#[trigger] p(j) by {
        assert(!key_line_at(s, keyc, j));
    }
    crate::text::lemma_first_pos_is(p, 0, s.len() as int, i);
}

proof fn lemma_key_line_pos_none(s: Seq<char>, keyc: Seq<char>)
    requires
        forall|j: int| 0 <= j < s.len() ==> !key_line_at(s, keyc, j),
    ensures
        spec_key_line_pos(s, keyc) is None,
{
    let p = |k: int| key_line_at(s, keyc, k);
    assert forall|j: int| 0 <= j < s.len() implies !#[trigger] p(j) by {
        assert(!key_line_at(s, keyc, j));
    }
    crate::text::lemma_first_pos_none(p, 0, s.len() as int);
}

fn build_synth_header(c: &Vec<char>, key: &Vec<char>, value: &Vec<char>) -> (r: String)
    ensures
        r@ == spec_synth_header(c@, key@, value@),
{
    let mut out: Vec<char> = Vec::new();
    push_lit(&mut out, "---\n");
    push_all(&mut out, key);
    push_lit(&mut out, ": ");
    push_all(&mut out, value);
    push_lit(&mut out, "\n---\n\n");
    push_all(&mut out, c);
    proof {
        reveal_strlit("---\n");
        reveal_strlit(": ");
        reveal_strlit("\n---\n\n");
        assert(out@ =~= spec_synth_header(c@, key@, value@));
    }
    string_of(&out)
}

proof fn lemma_key_line_pos_props(s: Seq<char>, keyc: Seq<char>)
    ensures
        match spec_key_line_pos(s, keyc) {
            Some(i) => 0 <= i < s.len() && key_line_at(s, keyc, i),
            None => true,
        },
{
    let p = |k: int| key_line_at(s, keyc, k);
    crate::text::lemma_first_pos_props(p, 0, s.len() as int);
    match spec_key_line_pos(s, keyc) {
        Some(i) => {
            assert(p(i));
        }
        None => {}
    }
}

/// The first line-start occurrence of the key pattern, as
/// `spec_key_line_pos` describes.
fn key_line_scan(fmv: &Vec<char>, keyc: &Vec<char>) -> (r: Option<usize>)
    ensures
        match r {
            Some(i) => spec_key_line_pos(fmv@, keyc@) == Some(i as int),
            None => spec_key_line_pos(fmv@, keyc@) is None,
        },
{
    let n: usize = fmv.len();
    let mut i: usize = 0;
    while i < n
        invariant
            n == fmv@.len(),
            i <= n,
            forall|j: int| 0 <= j < i ==> !key_line_at(fmv@, keyc@, j),
        decreases n - i,
    {
        let at_line_start = i == 0 || fmv[i - 1] == '\n';
        let m = if at_line_start && keyc.len() <= n - i {
            is_match_at(fmv, keyc, i)
        } else {
            proof {
                if keyc@.len() > n - i {
                    assert(!match_at(fmv@, keyc@, i as int));
                }
            }
            false
        };
        if m {
            proof {
                lemma_key_line_pos_is(fmv@, keyc@, i as int);
            }
            return Some(i);
        }
        proof {
            assert(!key_line_at(fmv@, keyc@, i as int));
        }
        i = i + 1;
    }
    proof {
        lemma_key_line_pos_none(fmv@, keyc@);
    }
    None
}

/// What the key-line search yields.
pub proof fn lemma_key_line_props(s: Seq<char>, keyc: Seq<char>)
    ensures
        match spec_key_line_pos(s, keyc) {
            Some(i) => 0 <= i < s.len() && key_line_at(s, keyc, i) && forall|j: int|
                0 <= j < i ==> !key_line_at(s, keyc, j),
            None => forall|j: int| 0 <= j < s.len() ==> !key_line_at(s, keyc, j),
        },
{
    let p = |k: int| key_line_at(s, keyc, k);
    crate::text::lemma_first_pos_props(p, 0, s.len() as int);
    match spec_key_line_pos(s, keyc) {
        Some(i) => {
            assert(p(i));
            assert forall|j: int| 0 <= j < i implies !key_line_at(s, keyc, j) by {
                assert(!p(j));
            }
        }
        None => {
            assert forall|j: int| 0 <= j < s.len() implies !key_line_at(s, keyc, j) by {
                assert(!p(j));
            }
        }
    }
}

pub proof fn lemma_key_line_pos_is_pub(s: Seq<char>, keyc: Seq<char>, i: int)
    requires
        0 <= i < s.len(),
        key_line_at(s, keyc, i),
        forall|j: int| 0 <= j < i ==> !key_line_at(s, keyc, j),
    ensures
        spec_key_line_pos(s, keyc) == Some(i),
{
    lemma_key_line_pos_is(s, keyc, i);
}

pub proof fn lemma_key_line_pos_none_pub(s: Seq<char>, keyc: Seq<char>)
    requires
        forall|j: int| 0 <= j < s.len() ==> !key_line_at(s, keyc, j),
    ensures
        spec_key_line_pos(s, keyc) is None,
{
    lemma_key_line_pos_none(s, keyc);
}

/// Sets one header field, as `spec_update_field` describes.
pub fn update_frontmatter_value(content: &str, key: &str, value: &str) -> (r: String)
    ensures
        r@ == spec_update_field(content@, key@, value@),
{
    let v = chars_of(content);
    let kv = chars_of(key);
    let val = chars_of(value);
    let f = fence_vec();
    let t = trim_start_chars(&v);
    let starts = if t.len() >= 3 {
        is_match_at(&t, &f, 0)
    } else {
        proof {
            assert(!match_at(t@, fence(), 0));
        }
        false
    };
    if !starts {
        return build_synth_header(&v, &kv, &val);
    }
    let s0 = match find_from(&v, &f, 0) {
        Some(p) => p,
        None => {
            return build_synth_header(&v, &kv, &val);
        }
    };
    let vlen: usize = v.len();
    proof {
        lemma_find_props(v@, fence(), 0);
        assert(match_at(v@, fence(), s0 as int));
        assert(s0 + 3 <= vlen);
    }
    let e = match find_from(&v, &f, s0 + 3) {
        Some(p) => p,
        None => {
            return build_synth_header(&v, &kv, &val);
        }
    };
    proof {
        lemma_find_props(v@, fence(), s0 + 3);
        assert(match_at(v@, fence(), e as int));
    }
    let fmv = copy_range(&v, 0, e);
    let bodyv = copy_range(&v, e, v.len());
    proof {
        assert(fmv@ =~= v@.take(e as int));
        assert(bodyv@ =~= v@.skip(e as int));
    }
    // the key pattern, `key:`
    let mut keyc: Vec<char> = Vec::new();
    push_all(&mut keyc, &kv);
    keyc.push(':');
    proof {
        assert(keyc@ =~= kv@ + seq![':']);
    }
    let fn_len: usize = fmv.len();
    let found = key_line_scan(&fmv, &keyc);
    match found {
        Some(p) => {
            proof {
                lemma_key_line_pos_props(fmv@, keyc@);
            }
            let le = line_end_exec(&fmv, p);
            let mut out: Vec<char> = Vec::new();
            let head = copy_range(&fmv, 0, p);
            push_all(&mut out, &head);
            push_all(&mut out, &kv);
            push_lit(&mut out, ": ");
            push_all(&mut out, &val);
            let tail = copy_range(&fmv, le, fn_len);
            push_all(&mut out, &tail);
            push_all(&mut out, &bodyv);
            proof {
                reveal_strlit(": ");
                assert(head@ =~= fmv@.take(p as int));
                assert(tail@ =~= fmv@.skip(le as int));
                assert(out@ =~= spec_update_field(content@, key@, value@));
            }
            string_of(&out)
        }
        None => {
            let mut out: Vec<char> = Vec::new();
            push_all(&mut out, &fmv);
            let needs_nl = fn_len == 0 || fmv[fn_len - 1] != '\n';
            if needs_nl {
                out.push('\n');
            }
            push_all(&mut out, &kv);
            push_lit(&mut out, ": ");
            push_all(&mut out, &val);
            out.push('\n');
            push_all(&mut out, &bodyv);
            proof {
                reveal_strlit(": ");
                assert(out@ =~= spec_update_field(content@, key@, value@));
            }
            string_of(&out)
        }
    }
}

// ---------------------------------------------------------------------------
// The `updated` date
// ---------------------------------------------------------------------------

pub open spec fn upd_key() -> Seq<char> {
    "updated: "@
}

/// An `updated: ` label followed by a `dddd-dd-dd` date sits at `i`.
pub open spec fn date_at(s: Seq<char>, i: int) -> bool {
    match_at(s, upd_key(), i) && {
        let b = i + upd_key().len();
        &&& b + 10 <= s.len()
        &&& is_digit_char(s[b])
        &&& is_digit_char(s[b + 1])
        &&& is_digit_char(s[b + 2])
        &&& is_digit_char(s[b + 3])
        &&& s[b + 4] == '-'
        &&& is_digit_char(s[b + 5])
        &&& is_digit_char(s[b + 6])
        &&& s[b + 7] == '-'
        &&& is_digit_char(s[b + 8])
        &&& is_digit_char(s[b + 9])
    }
}

pub open spec fn spec_date_pos(s: Seq<char>) -> Option<int> {
    crate::text::first_pos(|i: int| date_at(s, i), 0, s.len() as int)
}

/// The text with the first dated `updated:` entry replaced by
/// `updated: ` and the new date; without one, the text unchanged.
pub open spec fn spec_update_updated(s: Seq<char>, new_date: Seq<char>) -> Seq<char> {
    match spec_date_pos(s) {
        None => s,
        Some(i) => s.take(i) + upd_key() + new_date + s.skip(i + upd_key().len() + 10),
    }
}

proof fn lemma_date_pos_is(s: Seq<char>, i: int)
    requires
        0 <= i < s.len(),
        date_at(s, i),
        forall|j: int| 0 <= j < i ==> !date_at(s, j),
    ensures
        spec_date_pos(s) == Some(i),
{
    let p = |k: int| date_at(s, k);
    assert forall|j: int| 0 <= j < i implies !#[trigger] p(j) by {
        assert(!date_at(s, j));
    }
    crate::text::lemma_first_pos_is(p, 0, s.len() as int, i);
}

proof fn lemma_date_pos_none(s: Seq<char>)
    requires
        forall|j: int| 0 <= j < s.len() ==> !date_at(s, j),
    ensures
        spec_date_pos(s) is None,
{
    let p = |k: int| date_at(s, k);
    assert forall|j: int| 0 <= j < s.len() implies !#[trigger] p(j) by {
        assert(!date_at(s, j));
    }
    crate::text::lemma_first_pos_none(p, 0, s.len() as int);
}

fn date_check(v: &Vec<char>, keyc: &Vec<char>, i: usize) -> (r: bool)
    requires
        i <= v@.len(),
        keyc@ == upd_key(),
    ensures
        r == date_at(v@, i as int),
{
    if keyc.len() > v.len() - i {
        proof {
            assert(!match_at(v@, upd_key(), i as int));
        }
        return false;
    }
    if !is_match_at(v, keyc, i) {
        return false;
    }
    let b = i + keyc.len();
    if 10 > v.len() - b {
        return false;
    }
    exec_is_digit(v[b]) && exec_is_digit(v[b + 1]) && exec_is_digit(v[b + 2])
        && exec_is_digit(v[b + 3]) && v[b + 4] == '-' && exec_is_digit(v[b + 5])
        && exec_is_digit(v[b + 6]) && v[b + 7] == '-' && exec_is_digit(v[b + 8])
        && exec_is_digit(v[b + 9])
}

/// Replaces the first dated `updated:` entry with the new date, as
/// `spec_update_updated` describes.
pub fn update_updated_field(frontmatter: &str, new_date: &str) -> (r: String)
    ensures
        r@ == spec_update_updated(frontmatter@, new_date@),
{
    let v = chars_of(frontmatter);
    let keyc = chars_of("updated: ");
    let n: usize = v.len();
    let mut i: usize = 0;
    while i < n
        invariant
            v@ == frontmatter@,
            n == v@.len(),
            i <= n,
            keyc@ == upd_key(),
            forall|j: int| 0 <= j < i ==> !date_at(v@, j),
        decreases n - i,
    {
        if date_check(&v, &keyc, i) {
            proof {
                lemma_date_pos_is(v@, i as int);
            }
            let mut out: Vec<char> = Vec::new();
            let head = copy_range(&v, 0, i);
            push_all(&mut out, &head);
            push_all(&mut out, &keyc);
            let dv = chars_of(new_date);
            push_all(&mut out, &dv);
            let tail = copy_range(&v, i + keyc.len() + 10, n);
            push_all(&mut out, &tail);
            proof {
                assert(head@ =~= v@.take(i as int));
                assert(tail@ =~= v@.skip(i + upd_key().len() + 10));
                assert(out@ =~= spec_update_updated(frontmatter@, new_date@));
            }
            return string_of(&out);
        }
        i = i + 1;
    }
    proof {
        lemma_date_pos_none(v@);
    }
    string_of(&v)
}

/// The sequence-number numeral used inside a generated header.
pub open spec fn spec_seq_digits(seq: int) -> Seq<char> {
    spec_digits(seq)
}

/// The tag-list segments joined by a separator, rightmost last.
pub open spec fn spec_join_sep(parts: Seq<Seq<char>>, sep: Seq<char>) -> Seq<char>
    decreases parts.len(),
{
    if parts.len() == 0 {
        Seq::<char>::empty()
    } else if parts.len() == 1 {
        parts[0]
    } else {
        spec_join_sep(parts.drop_last(), sep) + sep + parts.last()
    }
}

/// Joins strings with a separator, as `spec_join_sep` describes.
pub fn join_strings(parts: &Vec<String>, sep: &str) -> (r: Vec<char>)
    ensures
        r@ == spec_join_sep(parts.deep_view(), sep@),
{
    let mut out: Vec<char> = Vec::new();
    let mut i: usize = 0;
    let sv = chars_of(sep);
    proof {
        assert(parts.deep_view().take(0) =~= Seq::<Seq<char>>::empty());
    }
    while i < parts.len()
        invariant
            sv@ == sep@,
            i <= parts@.len(),
            parts.deep_view().len() == parts@.len(),
            forall|k: int| 0 <= k < parts@.len() ==> parts.deep_view()[k] == parts@[k]@,
            out@ == spec_join_sep(parts.deep_view().take(i as int), sep@),
        decreases parts@.len() - i,
    {
        if i > 0 {
            push_all(&mut out, &sv);
        }
        let pv = chars_of(parts[i].as_str());
        push_all(&mut out, &pv);
        i = i + 1;
        proof {
            let dv = parts.deep_view();
            assert(dv.take(i as int).drop_last() =~= dv.take(i - 1));
            assert(dv.take(i as int).last() == dv[i - 1]);
            if i == 1 {
                assert(spec_join_sep(dv.take(1), sep@) == dv[0]);
                assert(out@ =~= spec_join_sep(dv.take(i as int), sep@));
            } else {
                assert(out@ =~= spec_join_sep(dv.take(i as int), sep@));
            }
        }
    }
    proof {
        assert(parts.deep_view().take(parts@.len() as int) =~= parts.deep_view());
    }
    out
}

/// The full generated header of a fresh note.
pub open spec fn spec_generate_frontmatter(
    seq: int,
    context: Seq<char>,
    created: Seq<char>,
    updated: Seq<char>,
    background_color: Option<Seq<char>>,
    tags: Seq<Seq<char>>,
) -> Seq<char> {
    let color_line = match background_color {
        Some(c) => "\nbackgroundColor: "@ + c,
        None => "\nbackgroundColor: #f7e9b0"@,
    };
    let tags_line = if tags.len() > 0 {
        "\ntags: ["@ + spec_join_sep(tags, ", "@) + "]"@
    } else {
        Seq::<char>::empty()
    };
    "---\ntype: sticky\nseq: "@ + spec_seq_digits(seq) + "\ncontext: "@ + context + "\ncreated: "@
        + created + "\nupdated: "@ + updated + color_line + tags_line
        + "\nx: 100\ny: 100\nwidth: 400\nheight: 300\nfontFamily: BIZ UDGothic\nfontSize: 8\nlineHeight: 1.0\n---\n"@
}

fn push_lit(dst: &mut Vec<char>, s: &str)
    ensures
        final(dst)@ == old(dst)@ + s@,
{
    let v = chars_of(s);
    push_all(dst, &v);
}

/// Builds the complete header of a fresh note: type, key fields,
/// dates, color (a given one, or the default), an optional bracketed
/// tag list, and the default geometry and font fields.
pub fn generate_frontmatter(
    seq: i32,
    context: &str,
    created: &str,
    updated: &str,
    background_color: Option<&str>,
    tags: &Vec<String>,
) -> (r: String)
    requires
        seq >= 0,
    ensures
        r@ == spec_generate_frontmatter(
            seq as int,
            context@,
            created@,
            updated@,
            match background_color {
                Some(c) => Some(c@),
                None => None,
            },
            tags.deep_view(),
        ),
{
    let mut out: Vec<char> = Vec::new();
    push_lit(&mut out, "---\ntype: sticky\nseq: ");
    push_digits_u32(seq as u32, &mut out);
    push_lit(&mut out, "\ncontext: ");
    push_lit(&mut out, context);
    push_lit(&mut out, "\ncreated: ");
    push_lit(&mut out, created);
    push_lit(&mut out, "\nupdated: ");
    push_lit(&mut out, updated);
    match background_color {
        Some(c) => {
            push_lit(&mut out, "\nbackgroundColor: ");
            push_lit(&mut out, c);
        }
        None => {
            push_lit(&mut out, "\nbackgroundColor: #f7e9b0");
        }
    }
    if tags.len() > 0 {
        push_lit(&mut out, "\ntags: [");
        let joined = join_strings(tags, ", ");
        push_all(&mut out, &joined);
        push_lit(&mut out, "]");
    }
    push_lit(
        &mut out,
        "\nx: 100\ny: 100\nwidth: 400\nheight: 300\nfontFamily: BIZ UDGothic\nfontSize: 8\nlineHeight: 1.0\n---\n",
    );
    string_of(&out)
}

} // verus!
