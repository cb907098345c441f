//! Cross-cutting laws of the planner, each proved against the same
//! specifications the public functions promise.

use vstd::prelude::*;
use vstd::multiset::Multiset;
use crate::codec::ends_with_md;
use crate::codec::is_sep_char;
use crate::codec::spec_generate_filename;
use crate::codec::spec_parse_filename;
use crate::codec::spec_sanitize;
use crate::codec::spec_split_path;
use crate::mirror::spec_find_note;
use crate::model::NoteMeta;
use crate::planner::mirror_updated;
use crate::planner::spec_first_line;
use crate::planner::spec_plan_save;

verus! {

broadcast use {vstd::seq_lib::group_to_multiset_ensures, vstd::seq_lib::to_multiset_insert};

/// A generated file name never holds a path separator, given a date
/// and title free of them.
proof fn lemma_generate_no_sep(seqn: int, date: Seq<char>, title: Seq<char>)
    requires
        forall|k: int| 0 <= k < date.len() ==> !is_sep_char(date[k]),
        forall|k: int| 0 <= k < title.len() ==> !is_sep_char(title[k]),
    ensures
        forall|k: int|
            0 <= k < spec_generate_filename(seqn, date, title).len() ==> !is_sep_char(
                #[trigger] spec_generate_filename(seqn, date, title)[k],
            ),
        spec_generate_filename(seqn, date, title).len() >= 9,
{
    let pad = crate::text::spec_pad4(seqn);
    let gen = spec_generate_filename(seqn, date, title);
    crate::text::lemma_digits_are_digits(seqn);
    let d = crate::text::spec_digits(seqn);
    let zeros = Seq::<char>::new(
        if d.len() >= 4 {
            0nat
        } else {
            (4 - d.len()) as nat
        },
        |k: int| '0',
    );
    assert(pad =~= zeros + d);
    assert(pad.len() >= 4);
    assert forall|k: int| 0 <= k < pad.len() implies !is_sep_char(#[trigger] pad[k]) by {
        if k < zeros.len() {
            assert(pad[k] == '0');
        } else {
            assert(pad[k] == d[k - zeros.len()]);
            assert(crate::text::is_digit_char(pad[k]));
        }
    }
    assert(gen.len() == pad.len() + 1 + date.len() + 1 + title.len() + 3);
    assert forall|k: int| 0 <= k < gen.len() implies !is_sep_char(#[trigger] gen[k]) by {
        let p1 = pad.len() as int;
        let p2 = p1 + 1 + date.len();
        let p3 = p2 + 1 + title.len();
        if k < p1 {
            assert(gen[k] == pad[k]);
        } else if k == p1 {
            assert(gen[k] == '_');
        } else if k < p2 {
            assert(gen[k] == date[k - p1 - 1]);
        } else if k == p2 {
            assert(gen[k] == '_');
        } else if k < p3 {
            assert(gen[k] == title[k - p2 - 1]);
        } else if k == p3 {
            assert(gen[k] == '.');
        } else if k == p3 + 1 {
            assert(gen[k] == 'm');
        } else {
            assert(gen[k] == 'd');
        }
    }
}

// ---------------------------------------------------------------------------
// Idempotence of the field update
// ---------------------------------------------------------------------------

/// Matching the fence is three dashes.
proof fn lemma_fence_at(s: Seq<char>, j: int)
    ensures
        crate::text::match_at(s, crate::frontmatter::fence(), j) <==> (0 <= j && j + 3 <= s.len()
            && s[j] == '-' && s[j + 1] == '-' && s[j + 2] == '-'),
{
    let f = crate::frontmatter::fence();
    if 0 <= j && j + 3 <= s.len() && s[j] == '-' && s[j + 1] == '-' && s[j + 2] == '-' {
        assert forall|k: int| 0 <= k < f.len() implies s[j + k] == f[k] by {
            if k == 0 {
            } else if k == 1 {
            } else {
                assert(k == 2);
            }
        }
    }
    if crate::text::match_at(s, f, j) {
        assert(s[j + 0] == f[0]);
        assert(s[j + 1] == f[1]);
        assert(s[j + 2] == f[2]);
    }
}

/// A key fit for the field store: non-empty, and free of newlines,
/// dashes, colons and whitespace.
pub open spec fn key_wf(key: Seq<char>) -> bool {
    &&& key.len() > 0
    &&& forall|k: int|
        0 <= k < key.len() ==> #[trigger] key[k] != '\n' && key[k] != '-' && key[k] != ':'
            && !crate::text::is_ws_char(key[k])
}

/// A value fit for the field store: free of newlines and of anything
/// that could read as a fence next to one.
pub open spec fn value_wf(value: Seq<char>) -> bool {
    &&& forall|k: int| 0 <= k < value.len() ==> #[trigger] value[k] != '\n'
    &&& forall|j: int|
        0 <= j && j + 3 <= value.len() ==> !(#[trigger] value[j] == '-' && value[j + 1] == '-'
            && value[j + 2] == '-')
    &&& value.len() == 0 || value[value.len() - 1] != '-'
}

/// The replacement line of a well-formed key and value holds no
/// newline, no fence, and starts and ends off the dash.
proof fn lemma_field_line_shape(key: Seq<char>, value: Seq<char>)
    requires
        key_wf(key),
        value_wf(value),
    ensures
        ({
            let line = crate::frontmatter::spec_field_line(key, value);
            &&& line.len() == key.len() + 2 + value.len()
            &&& forall|k: int| 0 <= k < line.len() ==> #[trigger] line[k] != '\n'
            &&& forall|j: int|
                0 <= j && j + 3 <= line.len() ==> !(#[trigger] line[j] == '-' && line[j + 1] == '-'
                    && line[j + 2] == '-')
            &&& line[0] != '-'
            &&& line[line.len() - 1] != '-'
            &&& line[0] == key[0]
        }),
{
    let line = crate::frontmatter::spec_field_line(key, value);
    let kl = key.len() as int;
    assert forall|k: int| 0 <= k < line.len() implies #[trigger] line[k] != '\n' by {
        if k < kl {
            assert(line[k] == key[k]);
        } else if k == kl {
            assert(line[k] == ':');
        } else if k == kl + 1 {
            assert(line[k] == ' ');
        } else {
            assert(line[k] == value[k - kl - 2]);
        }
    }
    assert forall|j: int|
        0 <= j && j + 3 <= line.len() implies !(#[trigger] line[j] == '-' && line[j + 1] == '-'
            && line[j + 2] == '-') by {
        if line[j] == '-' && line[j + 1] == '-' && line[j + 2] == '-' {
            assert(j >= kl + 2) by {
                if j < kl {
                    assert(line[j] == key[j]);
                } else if j == kl {
                    assert(line[j] == ':');
                } else if j == kl + 1 {
                    assert(line[j] == ' ');
                }
            }
            assert(line[j] == value[j - kl - 2]);
            assert(line[j + 1] == value[j - kl - 1]);
            assert(line[j + 2] == value[j - kl]);
        }
    }
    assert(line[0] == key[0]);
    if value.len() == 0 {
        assert(line[line.len() - 1] == ' ');
    } else {
        assert(line[line.len() - 1] == value[value.len() - 1]);
    }
}

/// Updating a synthesized single-field header changes nothing more.
proof fn lemma_update_of_synth(c: Seq<char>, key: Seq<char>, value: Seq<char>)
    requires
        key_wf(key),
        value_wf(value),
    ensures
        crate::frontmatter::spec_update_field(
            crate::frontmatter::spec_synth_header(c, key, value),
            key,
            value,
        ) == crate::frontmatter::spec_synth_header(c, key, value),
{
    let f = crate::frontmatter::fence();
    let line = crate::frontmatter::spec_field_line(key, value);
    let l = line.len() as int;
    let c2 = crate::frontmatter::spec_synth_header(c, key, value);
    lemma_field_line_shape(key, value);
    // layout: 0..3 fence, 3 newline, 4..4+l line, 4+l newline, 5+l..8+l fence
    assert(c2.len() == 10 + l + c.len());
    assert(c2[0] == '-' && c2[1] == '-' && c2[2] == '-');
    assert(c2[3] == '\n');
    assert(forall|k: int| 0 <= k < l ==> c2[4 + k] == line[k]);
    assert(c2[4 + l] == '\n');
    assert(c2[5 + l] == '-' && c2[6 + l] == '-' && c2[7 + l] == '-');
    assert(c2[8 + l] == '\n');
    assert(c2[9 + l] == '\n');
    // it opens with a fence
    lemma_fence_at(c2, 0);
    assert(crate::text::match_at(c2, f, 0));
    assert(crate::frontmatter::spec_trim_start(c2) == c2) by {
        assert(!crate::text::is_ws_char(c2[0]));
    }
    crate::text::lemma_find_is(c2, f, 0, 0);
    // the second fence closes right after the line
    assert forall|j: int| 3 <= j < 5 + l implies !crate::text::match_at(c2, f, j) by {
        lemma_fence_at(c2, j);
        if c2[j] == '-' && c2[j + 1] == '-' && c2[j + 2] == '-' {
            if j == 3 {
                assert(c2[3] == '\n');
            } else if j < 2 + l {
                assert(c2[j] == line[j - 4] || c2[j + 1] == line[j - 3] || c2[j + 2] == line[j - 2]);
                assert(line[j - 4] == '-' && line[j - 3] == '-' && line[j - 2] == '-');
            } else if j == 2 + l {
                assert(c2[j + 2] == line[l - 1] && l > 0 ==> c2[j + 2] != '-');
                if l > 0 {
                    assert(c2[4 + (l - 1)] == line[l - 1]);
                }
            } else if j == 3 + l {
                assert(c2[j + 1] == '\n' || (l == 0 && c2[j] == '\n'));
                if l > 0 {
                    assert(c2[4 + l] == '\n');
                }
            } else {
                assert(j == 4 + l);
                assert(c2[4 + l] == '\n');
            }
        }
    }
    lemma_fence_at(c2, 5 + l);
    crate::text::lemma_find_is(c2, f, 3, 5 + l);
    let fm = c2.take(5 + l);
    let body = c2.skip(5 + l);
    let keyc = key + seq![':'];
    // the line sits at 4, and nothing earlier matches
    assert(crate::frontmatter::key_line_at(fm, keyc, 4)) by {
        assert(fm[3] == '\n');
        assert forall|k: int| 0 <= k < keyc.len() implies fm[4 + k] == keyc[k] by {
            if k < key.len() {
                assert(line[k] == key[k]);
                assert(fm[4 + k] == line[k]);
            } else {
                assert(line[k] == ':');
                assert(fm[4 + k] == line[k]);
            }
        }
    }
    assert forall|j: int| 0 <= j < 4 implies !crate::frontmatter::key_line_at(fm, keyc, j) by {
        if j == 0 {
            if crate::text::match_at(fm, keyc, 0) {
                assert(fm[0] == keyc[0]);
                assert(keyc[0] == key[0]);
                assert(key[0] != '-');
            }
        } else {
            assert(fm[j - 1] != '\n') by {
                if j == 1 || j == 2 {
                    assert(fm[j - 1] == '-');
                } else {
                    assert(fm[2] == '-');
                }
            }
        }
    }
    crate::frontmatter::lemma_key_line_pos_is_pub(fm, keyc, 4);
    // the line runs to the newline before the closing fence
    assert(crate::frontmatter::run_end(fm, 4, |ch: char| ch != '\n') == 4 + l) by {
        let p = |ch: char| ch != '\n';
        assert forall|k: int| 4 <= k < 4 + l implies #[trigger] p(fm[k]) by {
            assert(fm[k] == line[k - 4]);
        }
        assert(fm[4 + l] == '\n');
        assert(!p(fm[4 + l]));
        crate::frontmatter::lemma_run_end_is(fm, 4, 4 + l, p);
    }
    let r2 = crate::frontmatter::spec_update_field(c2, key, value);
    assert(r2 == fm.take(4) + line + fm.skip(4 + l) + body);
    assert(r2 =~= c2);
}

/// What the first fence search yields on text that opens, after
/// whitespace, with a fence.
proof fn lemma_first_fence(c: Seq<char>)
    requires
        crate::text::match_at(
            crate::frontmatter::spec_trim_start(c),
            crate::frontmatter::fence(),
            0,
        ),
    ensures
        exists|s0: int|
            {
                &&& crate::text::spec_find(c, crate::frontmatter::fence(), 0) == Some(s0)
                &&& 0 <= s0 && s0 + 3 <= c.len()
                &&& forall|k: int| 0 <= k < s0 ==> crate::text::is_ws_char(#[trigger] c[k])
                &&& c[s0] == '-' && c[s0 + 1] == '-' && c[s0 + 2] == '-'
            },
{
    let f = crate::frontmatter::fence();
    let pws = |ch: char| crate::text::is_ws_char(ch);
    crate::text::lemma_drop_leading_shape(c, pws);
    let a = choose|a: int|
        {
            &&& 0 <= a <= c.len()
            &&& crate::text::spec_drop_leading(c, pws) == #[trigger] c.skip(a)
            &&& forall|k: int| 0 <= k < a ==> #[trigger] pws(c[k])
            &&& a == c.len() || !pws(c[a])
        };
    let t = c.skip(a);
    assert(t[0] == c[a] && t[1] == c[a + 1] && t[2] == c[a + 2]);
    lemma_fence_at(t, 0);
    assert(c[a] == '-' && c[a + 1] == '-' && c[a + 2] == '-');
    lemma_fence_at(c, a);
    assert forall|j: int| 0 <= j < a implies !crate::text::match_at(c, f, j) by {
        lemma_fence_at(c, j);
        if c[j] == '-' && c[j + 1] == '-' && c[j + 2] == '-' {
            assert(pws(c[j]));
        }
    }
    crate::text::lemma_find_is(c, f, 0, a);
    assert forall|k: int| 0 <= k < a implies crate::text::is_ws_char(#[trigger] c[k]) by {
        assert(pws(c[k]));
    }
}

/// Updating a closed header a second time changes nothing: the line
/// written the first time is found again, in place, and replaced by
/// itself.
proof fn lemma_update_closed_idempotent(
    c: Seq<char>,
    key: Seq<char>,
    value: Seq<char>,
    s0: int,
    e: int,
)
    requires
        key_wf(key),
        value_wf(value),
        crate::text::match_at(
            crate::frontmatter::spec_trim_start(c),
            crate::frontmatter::fence(),
            0,
        ),
        crate::text::spec_find(c, crate::frontmatter::fence(), 0) == Some(s0),
        crate::text::spec_find(c, crate::frontmatter::fence(), s0 + 3) == Some(e),
    ensures
        crate::frontmatter::spec_update_field(
            crate::frontmatter::spec_update_field(c, key, value),
            key,
            value,
        ) == crate::frontmatter::spec_update_field(c, key, value),
{
    let f = crate::frontmatter::fence();
    let line = crate::frontmatter::spec_field_line(key, value);
    let l = line.len() as int;
    let keyc = key + seq![':'];
    let kcl = keyc.len() as int;
    lemma_field_line_shape(key, value);
    assert(l >= 3);
    assert forall|k: int| 0 <= k < kcl implies line[k] == keyc[k] by {
        if k < key.len() {
            assert(line[k] == key[k] && keyc[k] == key[k]);
        } else {
            assert(line[k] == ':' && keyc[k] == ':');
        }
    }
    assert forall|k: int| 0 <= k < kcl implies #[trigger] keyc[k] != '\n' by {
        if k < key.len() {
            assert(keyc[k] == key[k]);
        } else {
            assert(keyc[k] == ':');
        }
    }
    lemma_first_fence(c);
    let a0 = choose|a0: int|
        {
            &&& crate::text::spec_find(c, f, 0) == Some(a0)
            &&& 0 <= a0 && a0 + 3 <= c.len()
            &&& forall|k: int| 0 <= k < a0 ==> crate::text::is_ws_char(#[trigger] c[k])
            &&& c[a0] == '-' && c[a0 + 1] == '-' && c[a0 + 2] == '-'
        };
    assert(a0 == s0);
    crate::text::lemma_find_props(c, f, s0 + 3);
    assert(crate::text::match_at(c, f, e));
    lemma_fence_at(c, e);
    assert(s0 + 3 <= e);
    assert forall|j: int| s0 + 3 <= j < e implies !(#[trigger] c[j] == '-' && c[j + 1] == '-'
        && c[j + 2] == '-') by {
        lemma_fence_at(c, j);
        assert(!crate::text::match_at(c, f, j));
        if j + 3 > c.len() {
            assert(j + 3 <= e + 3 <= c.len());
        }
    }
    assert(e - 1 >= s0 + 3 ==> c[e - 1] != '-') by {
        if e - 1 >= s0 + 3 && c[e - 1] == '-' {
            lemma_fence_at(c, e - 1);
            assert(crate::text::match_at(c, f, e - 1));
            assert(!crate::text::match_at(c, f, e - 1));
        }
    }
    let fm = c.take(e);
    let body = c.skip(e);
    match crate::frontmatter::spec_key_line_pos(fm, keyc) {
        Some(i) => {
            crate::frontmatter::lemma_key_line_props(fm, keyc);
            let pnl = |ch: char| ch != '\n';
            let le = crate::frontmatter::run_end(fm, i, pnl);
            crate::frontmatter::lemma_run_end_props(fm, i, pnl);
            assert forall|k: int| i <= k < le implies #[trigger] c[k] != '\n' by {
                assert(pnl(fm[k]));
                assert(fm[k] == c[k]);
            }
            assert(le == e || c[le] == '\n') by {
                if le < e {
                    assert(!pnl(fm[le]));
                    assert(fm[le] == c[le]);
                }
            }
            assert(i + kcl <= e);
            assert(i >= s0 + 3) by {
                assert(fm[i] == keyc[0]);
                assert(keyc[0] == key[0]);
                if i < s0 {
                    assert(crate::text::is_ws_char(c[i]));
                    assert(fm[i] == c[i]);
                } else if i < s0 + 3 {
                    assert(fm[i] == c[i]);
                    assert(c[i] == '-') by {
                        if i == s0 {
                        } else if i == s0 + 1 {
                        } else {
                            assert(i == s0 + 2);
                        }
                    }
                }
            }
            assert(fm[i - 1] == '\n');
            assert(c[i - 1] == '\n');
            let bseg = c.subrange(le, e);
            let c2 = fm.take(i) + line + fm.skip(le) + body;
            assert(crate::frontmatter::spec_update_field(c, key, value) == c2);
            assert(c2 =~= c.take(i) + line + bseg + c.skip(e));
            let e2 = i + l + (e - le);
            lemma_second_pass(c, key, value, s0, e, i, le, e2);
        },
        None => {
            crate::frontmatter::lemma_key_line_props(fm, keyc);
            let d = if fm.len() > 0 && fm[fm.len() - 1] == '\n' {
                fm
            } else {
                fm + seq!['\n']
            };
            let c2 = d + line + seq!['\n'] + body;
            assert(crate::frontmatter::spec_update_field(c, key, value) == c2);
            let e2 = d.len() as int + l + 1;
            lemma_second_pass_insert(c, key, value, s0, e, e2);
        },
    }
}

/// The second pass over a header whose key line was replaced in
/// place: the same line is found at the same spot and replaced by
/// itself.
#[verifier::rlimit(100)]
proof fn lemma_second_pass(
    c: Seq<char>,
    key: Seq<char>,
    value: Seq<char>,
    s0: int,
    e: int,
    i: int,
    le: int,
    e2: int,
)
    requires
        key_wf(key),
        value_wf(value),
        0 <= s0 && s0 + 3 <= c.len(),
        forall|k: int| 0 <= k < s0 ==> crate::text::is_ws_char(#[trigger] c[k]),
        c[s0] == '-' && c[s0 + 1] == '-' && c[s0 + 2] == '-',
        s0 + 3 <= e && e + 3 <= c.len(),
        c[e] == '-' && c[e + 1] == '-' && c[e + 2] == '-',
        forall|j: int|
            s0 + 3 <= j < e ==> !(#[trigger] c[j] == '-' && c[j + 1] == '-' && c[j + 2] == '-'),
        e - 1 >= s0 + 3 ==> c[e - 1] != '-',
        s0 + 3 <= i,
        i + key.len() + 1 <= e,
        c[i - 1] == '\n',
        forall|k: int| 0 <= k < key.len() + 1 ==> c[i + k] == (key + seq![':'])[k],
        forall|j: int| 0 <= j < i ==> !crate::frontmatter::key_line_at(c.take(e), key + seq![':'], j),
        i <= le <= e,
        forall|k: int| i <= k < le ==> #[trigger] c[k] != '\n',
        le == e || c[le] == '\n',
        e2 == i + crate::frontmatter::spec_field_line(key, value).len() + (e - le),
    ensures
        ({
            let line = crate::frontmatter::spec_field_line(key, value);
            let c2 = c.take(i) + line + c.subrange(le, e) + c.skip(e);
            crate::frontmatter::spec_update_field(c2, key, value) == c2
        }),
{
    let f = crate::frontmatter::fence();
    let line = crate::frontmatter::spec_field_line(key, value);
    let l = line.len() as int;
    let keyc = key + seq![':'];
    let kcl = keyc.len() as int;
    lemma_field_line_shape(key, value);
    assert forall|k: int| 0 <= k < kcl implies line[k] == keyc[k] by {
        if k < key.len() {
            assert(line[k] == key[k] && keyc[k] == key[k]);
        } else {
            assert(line[k] == ':' && keyc[k] == ':');
        }
    }
    assert forall|k: int| 0 <= k < kcl implies #[trigger] keyc[k] != '\n' && keyc[k] != '-'
        && !crate::text::is_ws_char(keyc[k]) by {
        if k < key.len() {
            assert(keyc[k] == key[k]);
        } else {
            assert(keyc[k] == ':');
        }
    }
    let bseg = c.subrange(le, e);
    let bl = bseg.len() as int;
    let c2 = c.take(i) + line + bseg + c.skip(e);
    assert(c2.len() == i + l + bl + (c.len() - e));
    // index map of c2
    assert(forall|k: int| 0 <= k < i ==> c2[k] == c[k]);
    assert(forall|k: int| 0 <= k < l ==> #[trigger] c2[i + k] == line[k]);
    assert(forall|k: int| 0 <= k < bl ==> #[trigger] c2[i + l + k] == c[le + k]);
    assert(forall|k: int| 0 <= k < c.len() - e ==> #[trigger] c2[e2 + k] == c[e + k]);
    // the opening fence is where it was
    assert(c2[s0] == '-' && c2[s0 + 1] == '-' && c2[s0 + 2] == '-');
    let pws = |ch: char| crate::text::is_ws_char(ch);
    assert forall|k: int| 0 <= k < s0 implies #[trigger] pws(c2[k]) by {
        assert(c2[k] == c[k]);
        assert(crate::text::is_ws_char(c[k]));
    }
    assert(!pws(c2[s0]));
    crate::text::lemma_drop_leading_skip(c2, pws, s0);
    assert(crate::frontmatter::spec_trim_start(c2) == c2.skip(s0));
    lemma_fence_at(c2.skip(s0), 0);
    assert(c2.skip(s0)[0] == c2[s0] && c2.skip(s0)[1] == c2[s0 + 1] && c2.skip(s0)[2] == c2[s0
        + 2]);
    assert(crate::text::match_at(crate::frontmatter::spec_trim_start(c2), f, 0));
    // the first fence search
    lemma_fence_at(c2, s0);
    assert forall|j: int| 0 <= j < s0 implies !crate::text::match_at(c2, f, j) by {
        lemma_fence_at(c2, j);
        if c2[j] == '-' {
            assert(crate::text::is_ws_char(c[j]));
        }
    }
    crate::text::lemma_find_is(c2, f, 0, s0);
    // the second fence search lands at the moved closing fence
    assert(c2[e2] == '-' && c2[e2 + 1] == '-' && c2[e2 + 2] == '-') by {
        assert(c2[e2] == c[e]);
        assert(c2[e2 + 1] == c[e + 1]);
        assert(c2[e2 + 2] == c[e + 2]);
    }
    lemma_fence_at(c2, e2);
    assert forall|j: int| s0 + 3 <= j < e2 implies !crate::text::match_at(c2, f, j) by {
        lemma_fence_at(c2, j);
        if j + 3 <= c2.len() && c2[j] == '-' && c2[j + 1] == '-' && c2[j + 2] == '-' {
            if j + 2 < i {
                assert(c2[j] == c[j] && c2[j + 1] == c[j + 1] && c2[j + 2] == c[j + 2]);
            } else if j < i {
                // the window crosses the line start and holds the newline
                assert(j <= i - 1 < j + 3);
                assert(c2[i - 1] == c[i - 1]);
                assert(c[i - 1] == '\n');
                assert(c2[i - 1] == '-' || c2[i] == '-' || true);
                if i - 1 == j {
                    assert(c2[j] == '\n');
                } else if i - 1 == j + 1 {
                    assert(c2[j + 1] == '\n');
                } else {
                    assert(c2[j + 2] == '\n');
                }
            } else if j + 2 < i + l {
                // at least two window cells inside the line
                if j + 3 <= i + l {
                    assert(line[j - i] == '-' && line[j - i + 1] == '-' && line[j - i + 2] == '-');
                } else if bl > 0 {
                    // the cell after the line is the newline at `le`
                    assert(j <= i + l - 1);
                    assert(c2[i + l] == c[le]);
                    assert(c[le] == '\n');
                    assert(j + 2 >= i + l);
                    if j == i + l - 1 {
                        assert(c2[j + 1] == '\n');
                    } else {
                        assert(c2[j + 2] == '\n');
                    }
                } else {
                    // the body fence follows the line directly
                    assert(le == e);
                    assert(e2 == i + l);
                    assert(j < e2);
                    if j == i + l - 1 {
                        assert(c2[j] == line[l - 1]);
                        assert(line[l - 1] != '-');
                    } else {
                        assert(j == i + l - 2);
                        assert(c2[j + 1] == line[l - 1]);
                        assert(line[l - 1] != '-');
                    }
                }
            } else if j < i + l {
                // window starts on the line's last cells
                if bl > 0 {
                    assert(c2[i + l] == c[le]);
                    assert(c[le] == '\n');
                    if j == i + l - 1 {
                        assert(c2[j + 1] == '\n');
                    } else {
                        assert(j == i + l - 2);
                        assert(c2[j + 2] == '\n');
                    }
                } else {
                    assert(le == e && e2 == i + l);
                    if j == i + l - 1 {
                        assert(c2[j] == line[l - 1]);
                        assert(line[l - 1] != '-');
                    } else {
                        assert(j == i + l - 2);
                        assert(c2[j + 1] == line[l - 1]);
                        assert(line[l - 1] != '-');
                    }
                }
            } else if j + 2 < e2 {
                // the window sits inside the kept header tail
                assert(c2[j] == c[le + (j - i - l)]);
                assert(c2[j + 1] == c[le + (j - i - l) + 1]);
                assert(c2[j + 2] == c[le + (j - i - l) + 2]);
                assert(s0 + 3 <= le + (j - i - l) < e);
            } else {
                // the window crosses into the closing fence
                assert(bl > 0);
                assert(c2[e2 - 1] == c[e - 1]);
                assert(c[e - 1] != '-');
                if j == e2 - 1 {
                    assert(c2[j] == c[e - 1]);
                } else {
                    assert(j == e2 - 2);
                    assert(c2[j + 1] == c[e - 1]);
                }
            }
        }
    }
    crate::text::lemma_find_is(c2, f, s0 + 3, e2);
    let fm2 = c2.take(e2);
    let body2 = c2.skip(e2);
    assert(fm2 =~= c.take(i) + line + bseg);
    assert(body2 =~= c.skip(e));
    // the key line sits where it was put
    assert(crate::frontmatter::key_line_at(fm2, keyc, i)) by {
        assert(fm2[i - 1] == c[i - 1]);
        assert forall|k: int| 0 <= k < kcl implies fm2[i + k] == keyc[k] by {
            assert(fm2[i + k] == line[k]);
        }
    }
    assert forall|j: int| 0 <= j < i implies !crate::frontmatter::key_line_at(fm2, keyc, j) by {
        if crate::frontmatter::key_line_at(fm2, keyc, j) {
            if j + kcl <= i {
                assert(crate::frontmatter::key_line_at(c.take(e), keyc, j)) by {
                    assert forall|k: int| 0 <= k < kcl implies c.take(e)[j + k] == keyc[k] by {
                        assert(c.take(e)[j + k] == c[j + k]);
                        assert(fm2[j + k] == c[j + k]);
                    }
                    if j > 0 {
                        assert(c.take(e)[j - 1] == c[j - 1]);
                        assert(fm2[j - 1] == c[j - 1]);
                    }
                }
            } else {
                // the window would hold the newline before the line
                assert(j <= i - 1 < j + kcl);
                assert(fm2[i - 1] == '\n');
                let k = i - 1 - j;
                assert(fm2[j + k] == keyc[k]);
                assert(keyc[k] != '\n');
            }
        }
    }
    crate::frontmatter::lemma_key_line_pos_is_pub(fm2, keyc, i);
    // the line still runs to the same newline
    assert(crate::frontmatter::run_end(fm2, i, |ch: char| ch != '\n') == i + l) by {
        let p = |ch: char| ch != '\n';
        assert forall|k: int| i <= k < i + l implies #[trigger] p(fm2[k]) by {
            assert(fm2[k] == line[k - i]);
        }
        if bl > 0 {
            assert(fm2[i + l] == c[le]);
            assert(c[le] == '\n');
            assert(!p(fm2[i + l]));
        } else {
            assert(i + l == fm2.len());
        }
        crate::frontmatter::lemma_run_end_is(fm2, i, i + l, p);
    }
    let r2 = crate::frontmatter::spec_update_field(c2, key, value);
    assert(r2 == fm2.take(i) + line + fm2.skip(i + l) + body2);
    assert(fm2.take(i) =~= c.take(i));
    assert(fm2.skip(i + l) =~= bseg);
    assert(r2 =~= c2);
}

/// The second pass over a header whose key line was put just before
/// the closing fence: the new line is found there and replaced by
/// itself.
#[verifier::rlimit(100)]
proof fn lemma_second_pass_insert(c: Seq<char>, key: Seq<char>, value: Seq<char>, s0: int, e: int, e2: int)
    requires
        key_wf(key),
        value_wf(value),
        0 <= s0 && s0 + 3 <= c.len(),
        forall|k: int| 0 <= k < s0 ==> crate::text::is_ws_char(#[trigger] c[k]),
        c[s0] == '-' && c[s0 + 1] == '-' && c[s0 + 2] == '-',
        s0 + 3 <= e && e + 3 <= c.len(),
        c[e] == '-' && c[e + 1] == '-' && c[e + 2] == '-',
        forall|j: int|
            s0 + 3 <= j < e ==> !(#[trigger] c[j] == '-' && c[j + 1] == '-' && c[j + 2] == '-'),
        forall|j: int| 0 <= j < e ==> !crate::frontmatter::key_line_at(c.take(e), key + seq![':'], j),
        e2 == ({
            let fm = c.take(e);
            let d = if fm.len() > 0 && fm[fm.len() - 1] == '\n' {
                fm
            } else {
                fm + seq!['\n']
            };
            d.len() + crate::frontmatter::spec_field_line(key, value).len() + 1
        }),
    ensures
        ({
            let fm = c.take(e);
            let d = if fm.len() > 0 && fm[fm.len() - 1] == '\n' {
                fm
            } else {
                fm + seq!['\n']
            };
            let line = crate::frontmatter::spec_field_line(key, value);
            let c2 = d + line + seq!['\n'] + c.skip(e);
            crate::frontmatter::spec_update_field(c2, key, value) == c2
        }),
{
    let f = crate::frontmatter::fence();
    let line = crate::frontmatter::spec_field_line(key, value);
    let l = line.len() as int;
    let keyc = key + seq![':'];
    let kcl = keyc.len() as int;
    lemma_field_line_shape(key, value);
    assert(l >= 3);
    assert forall|k: int| 0 <= k < kcl implies line[k] == keyc[k] by {
        if k < key.len() {
            assert(line[k] == key[k] && keyc[k] == key[k]);
        } else {
            assert(line[k] == ':' && keyc[k] == ':');
        }
    }
    assert forall|k: int| 0 <= k < kcl implies #[trigger] keyc[k] != '\n' && keyc[k] != '-'
        && !crate::text::is_ws_char(keyc[k]) by {
        if k < key.len() {
            assert(keyc[k] == key[k]);
        } else {
            assert(keyc[k] == ':');
        }
    }
    let fm = c.take(e);
    let d = if fm.len() > 0 && fm[fm.len() - 1] == '\n' {
        fm
    } else {
        fm + seq!['\n']
    };
    let dl = d.len() as int;
    assert(e <= dl <= e + 1);
    assert(d[dl - 1] == '\n') by {
        if fm.len() > 0 && fm[fm.len() - 1] == '\n' {
            assert(d[dl - 1] == fm[e - 1]);
        } else {
            assert(d[dl - 1] == '\n');
        }
    }
    assert(forall|k: int| 0 <= k < e ==> d[k] == c[k]);
    let c2 = d + line + seq!['\n'] + c.skip(e);
    assert(c2.len() == dl + l + 1 + (c.len() - e));
    assert(forall|k: int| 0 <= k < dl ==> c2[k] == d[k]);
    assert(forall|k: int| 0 <= k < l ==> #[trigger] c2[dl + k] == line[k]);
    assert(c2[dl + l] == '\n');
    assert(forall|k: int| 0 <= k < c.len() - e ==> #[trigger] c2[e2 + k] == c[e + k]);
    // the opening fence is where it was
    assert(c2[s0] == '-' && c2[s0 + 1] == '-' && c2[s0 + 2] == '-');
    let pws = |ch: char| crate::text::is_ws_char(ch);
    assert forall|k: int| 0 <= k < s0 implies #[trigger] pws(c2[k]) by {
        assert(c2[k] == c[k]);
        assert(crate::text::is_ws_char(c[k]));
    }
    assert(!pws(c2[s0]));
    crate::text::lemma_drop_leading_skip(c2, pws, s0);
    lemma_fence_at(c2.skip(s0), 0);
    assert(c2.skip(s0)[0] == c2[s0] && c2.skip(s0)[1] == c2[s0 + 1] && c2.skip(s0)[2] == c2[s0
        + 2]);
    assert(crate::text::match_at(crate::frontmatter::spec_trim_start(c2), f, 0));
    lemma_fence_at(c2, s0);
    assert forall|j: int| 0 <= j < s0 implies !crate::text::match_at(c2, f, j) by {
        lemma_fence_at(c2, j);
        if c2[j] == '-' {
            assert(crate::text::is_ws_char(c[j]));
        }
    }
    crate::text::lemma_find_is(c2, f, 0, s0);
    // the second fence search lands on the moved closing fence
    assert(c2[e2] == '-' && c2[e2 + 1] == '-' && c2[e2 + 2] == '-') by {
        assert(c2[e2] == c[e]);
        assert(c2[e2 + 1] == c[e + 1]);
        assert(c2[e2 + 2] == c[e + 2]);
    }
    lemma_fence_at(c2, e2);
    assert forall|j: int| s0 + 3 <= j < e2 implies !crate::text::match_at(c2, f, j) by {
        lemma_fence_at(c2, j);
        if j + 3 <= c2.len() && c2[j] == '-' && c2[j + 1] == '-' && c2[j + 2] == '-' {
            if j + 2 < e {
                assert(c2[j] == c[j] && c2[j + 1] == c[j + 1] && c2[j + 2] == c[j + 2]);
            } else if j < dl {
                // the window holds the newline that ends the header
                assert(j <= dl - 1 < j + 3);
                if dl - 1 == j {
                    assert(c2[j] == '\n');
                } else if dl - 1 == j + 1 {
                    assert(c2[j + 1] == '\n');
                } else {
                    assert(c2[j + 2] == '\n');
                }
            } else if j + 2 < dl + l {
                assert(line[j - dl] == '-' && line[j - dl + 1] == '-' && line[j - dl + 2] == '-');
            } else {
                // the window holds the newline after the new line
                assert(j <= dl + l < j + 3);
                if dl + l == j {
                    assert(c2[j] == '\n');
                } else if dl + l == j + 1 {
                    assert(c2[j + 1] == '\n');
                } else {
                    assert(c2[j + 2] == '\n');
                }
            }
        }
    }
    crate::text::lemma_find_is(c2, f, s0 + 3, e2);
    let fm2 = c2.take(e2);
    let body2 = c2.skip(e2);
    assert(fm2 =~= d + line + seq!['\n']);
    assert(body2 =~= c.skip(e));
    // the new line is the first key line
    assert(crate::frontmatter::key_line_at(fm2, keyc, dl)) by {
        assert(fm2[dl - 1] == '\n');
        assert forall|k: int| 0 <= k < kcl implies fm2[dl + k] == keyc[k] by {
            assert(fm2[dl + k] == line[k]);
        }
    }
    assert forall|j: int| 0 <= j < dl implies !crate::frontmatter::key_line_at(fm2, keyc, j) by {
        if crate::frontmatter::key_line_at(fm2, keyc, j) {
            if j + kcl <= e {
                assert(crate::frontmatter::key_line_at(c.take(e), keyc, j)) by {
                    assert forall|k: int| 0 <= k < kcl implies c.take(e)[j + k] == keyc[k] by {
                        assert(c.take(e)[j + k] == c[j + k]);
                        assert(fm2[j + k] == c[j + k]);
                    }
                    if j > 0 {
                        assert(c.take(e)[j - 1] == c[j - 1]);
                        assert(fm2[j - 1] == c[j - 1]);
                    }
                }
            } else {
                // the window holds the header-ending newline
                assert(j <= dl - 1 < j + kcl);
                let k = dl - 1 - j;
                assert(fm2[j + k] == keyc[k]);
                assert(fm2[dl - 1] == '\n');
                assert(keyc[k] != '\n');
            }
        }
    }
    crate::frontmatter::lemma_key_line_pos_is_pub(fm2, keyc, dl);
    // the new line runs to its newline
    assert(crate::frontmatter::run_end(fm2, dl, |ch: char| ch != '\n') == dl + l) by {
        let p = |ch: char| ch != '\n';
        assert forall|k: int| dl <= k < dl + l implies #[trigger] p(fm2[k]) by {
            assert(fm2[k] == line[k - dl]);
        }
        assert(fm2[dl + l] == '\n');
        assert(!p(fm2[dl + l]));
        crate::frontmatter::lemma_run_end_is(fm2, dl, dl + l, p);
    }
    let r2 = crate::frontmatter::spec_update_field(c2, key, value);
    assert(r2 == fm2.take(dl) + line + fm2.skip(dl + l) + body2);
    assert(fm2.take(dl) =~= d);
    assert(fm2.skip(dl + l) =~= seq!['\n']);
    assert(r2 =~= c2);
}

/// The idempotence law of the field store: setting the same field to
/// the same value twice yields exactly the text of setting it once,
/// for any text, any well-formed key, and any well-formed value.
pub proof fn lemma_update_field_idempotent(c: Seq<char>, key: Seq<char>, value: Seq<char>)
    requires
        key_wf(key),
        value_wf(value),
    ensures
        crate::frontmatter::spec_update_field(
            crate::frontmatter::spec_update_field(c, key, value),
            key,
            value,
        ) == crate::frontmatter::spec_update_field(c, key, value),
{
    let f = crate::frontmatter::fence();
    if !crate::text::match_at(crate::frontmatter::spec_trim_start(c), f, 0) {
        lemma_update_of_synth(c, key, value);
    } else {
        match crate::text::spec_find(c, f, 0) {
            None => {
                lemma_update_of_synth(c, key, value);
            },
            Some(s0) => {
                match crate::text::spec_find(c, f, s0 + 3) {
                    None => {
                        lemma_update_of_synth(c, key, value);
                    },
                    Some(e) => {
                        lemma_update_closed_idempotent(c, key, value, s0, e);
                    },
                }
            },
        }
    }
}

// ---------------------------------------------------------------------------
// The tag round trip
// ---------------------------------------------------------------------------

/// A tag fit for a bracketed header list: non-empty, free of commas
/// and newlines, and neither starting nor ending in whitespace or a
/// quote.
pub open spec fn tag_wf(t: Seq<char>) -> bool {
    &&& t.len() > 0
    &&& forall|k: int| 0 <= k < t.len() ==> #[trigger] t[k] != ',' && t[k] != '\n'
    &&& !crate::text::is_ws_char(t[0]) && t[0] != '"' && t[0] != '\''
    &&& !crate::text::is_ws_char(t[t.len() - 1]) && t[t.len() - 1] != '"' && t[t.len() - 1] != '\''
}

/// Cleaning a well-formed tag, with or without a leading space, gives
/// the tag back.
proof fn lemma_clean_tag_id(t: Seq<char>)
    requires
        tag_wf(t),
    ensures
        crate::frontmatter::spec_clean_tag(t) == t,
        crate::frontmatter::spec_clean_tag(seq![' '] + t) == t,
{
    crate::text::lemma_trim_is(t, 0, t.len() as int);
    assert(t.subrange(0, t.len() as int) =~= t);
    assert(crate::text::spec_trim(t) == t);
    let st = seq![' '] + t;
    assert(crate::text::is_ws_char(st[0]));
    assert(!crate::text::is_ws_char(st[1])) by {
        assert(st[1] == t[0]);
    }
    assert forall|k: int| st.len() <= k < st.len() implies crate::text::is_ws_char(st[k]) by {}
    assert(!crate::text::is_ws_char(st[st.len() - 1])) by {
        assert(st[st.len() - 1] == t[t.len() - 1]);
    }
    crate::text::lemma_trim_is(st, 1, st.len() as int);
    assert(st.subrange(1, st.len() as int) =~= t);
    assert(crate::text::spec_trim(st) == t);
    let pq = |x: char| x == '"';
    let ps = |x: char| x == '\'';
    assert(crate::text::spec_drop_leading(t, pq) == t) by {
        assert(!pq(t[0]));
    }
    assert(crate::text::spec_drop_trailing(t, pq) == t) by {
        assert(!pq(t[t.len() - 1]));
    }
    assert(crate::text::spec_drop_leading(t, ps) == t) by {
        assert(!ps(t[0]));
    }
    assert(crate::text::spec_drop_trailing(t, ps) == t) by {
        assert(!ps(t[t.len() - 1]));
    }
}

/// The front decomposition of a join.
proof fn lemma_join_front(parts: Seq<Seq<char>>, sep: Seq<char>)
    requires
        parts.len() >= 2,
    ensures
        crate::frontmatter::spec_join_sep(parts, sep) == parts[0] + sep
            + crate::frontmatter::spec_join_sep(parts.skip(1), sep),
    decreases parts.len(),
{
    if parts.len() == 2 {
        assert(parts.drop_last() =~= seq![parts[0]]);
        assert(crate::frontmatter::spec_join_sep(parts.drop_last(), sep) == parts[0]);
        assert(parts.skip(1) =~= seq![parts[1]]);
        assert(crate::frontmatter::spec_join_sep(parts.skip(1), sep) == parts[1]);
        assert(parts.last() == parts[1]);
    } else {
        lemma_join_front(parts.drop_last(), sep);
        assert(parts.drop_last()[0] == parts[0]);
        assert(parts.drop_last().skip(1) =~= parts.skip(1).drop_last());
        assert(parts.skip(1).len() >= 2);
        assert(parts.skip(1).last() == parts.last());
        assert(crate::frontmatter::spec_join_sep(parts.skip(1), sep)
            == crate::frontmatter::spec_join_sep(parts.skip(1).drop_last(), sep) + sep
            + parts.last());
        assert(crate::frontmatter::spec_join_sep(parts, sep)
            == crate::frontmatter::spec_join_sep(parts.drop_last(), sep) + sep + parts.last());
        assert(crate::frontmatter::spec_join_sep(parts, sep) =~= parts[0] + sep
            + crate::frontmatter::spec_join_sep(parts.skip(1), sep));
    }
}

/// A join of newline-free, comma-free tags holds no newline, and a
/// comma exactly at each seam.
proof fn lemma_join_no_newline(ts: Seq<Seq<char>>)
    requires
        forall|p: int| 0 <= p < ts.len() ==> tag_wf(#[trigger] ts[p]),
    ensures
        forall|k: int|
            0 <= k < crate::frontmatter::spec_join_sep(ts, ", "@).len()
                ==> #[trigger] crate::frontmatter::spec_join_sep(ts, ", "@)[k] != '\n',
    decreases ts.len(),
{
    reveal_strlit(", ");
    let j = crate::frontmatter::spec_join_sep(ts, ", "@);
    if ts.len() == 0 {
    } else if ts.len() == 1 {
        assert(j == ts[0]);
    } else {
        assert forall|p: int| 0 <= p < ts.drop_last().len() implies tag_wf(
            #[trigger] ts.drop_last()[p],
        ) by {
            assert(ts.drop_last()[p] == ts[p]);
        }
        lemma_join_no_newline(ts.drop_last());
        let pre = crate::frontmatter::spec_join_sep(ts.drop_last(), ", "@);
        assert(j == pre + ", "@ + ts.last());
        assert forall|k: int| 0 <= k < j.len() implies #[trigger] j[k] != '\n' by {
            if k < pre.len() {
                assert(j[k] == pre[k]);
            } else if k < pre.len() + 2 {
                assert(j[k] == ", "@[k - pre.len()]);
            } else {
                assert(j[k] == ts.last()[k - pre.len() - 2]);
                assert(tag_wf(ts[ts.len() - 1]));
            }
        }
    }
}

/// Splitting and cleaning a comma-space join of well-formed tags
/// restores exactly the tags.
proof fn lemma_clean_join_roundtrip(ts: Seq<Seq<char>>)
    requires
        forall|p: int| 0 <= p < ts.len() ==> tag_wf(#[trigger] ts[p]),
    ensures
        crate::frontmatter::spec_clean_list(crate::frontmatter::spec_join_sep(ts, ", "@)) == ts,
    decreases ts.len(),
{
    reveal_strlit(", ");
    reveal(Seq::filter);
    let cf = |u: Seq<char>| crate::frontmatter::spec_clean_tag(u);
    let pf = |u: Seq<char>| u.len() > 0;
    let j = crate::frontmatter::spec_join_sep(ts, ", "@);
    if ts.len() == 0 {
        assert(j =~= Seq::<char>::empty());
        crate::text::lemma_split_whole(j, ',');
        let segs = crate::text::spec_split(j, ',');
        assert(segs =~~= seq![Seq::<char>::empty()]);
        assert(segs.map_values(cf) =~~= seq![cf(Seq::<char>::empty())]);
        assert(cf(Seq::<char>::empty()).len() == 0) by {
            assert(crate::text::spec_trim(Seq::<char>::empty()) =~= Seq::<char>::empty());
        }
        let y = cf(Seq::<char>::empty());
        let single = seq![y];
        assert(single.filter(pf) =~~= Seq::<Seq<char>>::empty()) by {
            reveal_with_fuel(Seq::filter, 3);
            assert(!pf(y));
            assert(single.len() == 1);
            assert(single.drop_last() =~= Seq::<Seq<char>>::empty());
            assert(single.last() == y);
            assert(single.drop_last().filter(pf) =~~= Seq::<Seq<char>>::empty());
            assert(single.filter(pf) == single.drop_last().filter(pf));
        }
        assert(segs.map_values(cf).filter(pf) =~~= ts);
    } else {
        lemma_clean_join_tail(ts, 0);
        assert(seq![' '].skip(1) =~= Seq::<char>::empty());
        assert(Seq::<char>::empty() + j =~= j);
    }
}

/// The tail form of the round trip: the text still to split is the
/// join of the remaining tags, with `extra` leading spaces (0 or 1).
proof fn lemma_clean_join_tail(ts: Seq<Seq<char>>, extra: int)
    requires
        ts.len() >= 1,
        0 <= extra <= 1,
        forall|p: int| 0 <= p < ts.len() ==> tag_wf(#[trigger] ts[p]),
    ensures
        crate::frontmatter::spec_clean_list(
            seq![' '].skip(1 - extra) + crate::frontmatter::spec_join_sep(ts, ", "@),
        ) == ts,
    decreases ts.len(),
{
    reveal_strlit(", ");
    reveal(Seq::filter);
    let cf = |u: Seq<char>| crate::frontmatter::spec_clean_tag(u);
    let pf = |u: Seq<char>| u.len() > 0;
    let pad = seq![' '].skip(1 - extra);
    let j = crate::frontmatter::spec_join_sep(ts, ", "@);
    let x = pad + j;
    assert(tag_wf(ts[0]));
    lemma_clean_tag_id(ts[0]);
    if ts.len() == 1 {
        assert(j == ts[0]);
        assert forall|k: int| 0 <= k < x.len() implies x[k] != ',' by {
            if k < pad.len() {
                assert(x[k] == ' ');
            } else {
                assert(x[k] == ts[0][k - pad.len()]);
            }
        }
        crate::text::lemma_split_whole(x, ',');
        let segs = crate::text::spec_split(x, ',');
        assert(segs =~~= seq![x]);
        assert(cf(x) == ts[0]) by {
            if extra == 0 {
                assert(x =~= ts[0]);
            } else {
                assert(x =~= seq![' '] + ts[0]);
            }
        }
        assert(segs.map_values(cf) =~~= seq![ts[0]]);
        assert(pf(ts[0]));
        assert(seq![ts[0]].filter(pf) =~~= seq![ts[0]]) by {
            reveal(Seq::filter);
            assert(pf(ts[0]));
            assert(seq![ts[0]].drop_last() =~= Seq::<Seq<char>>::empty());
            assert(seq![ts[0]].last() == ts[0]);
        }
        assert(segs.map_values(cf).filter(pf) =~~= ts);
    } else {
        lemma_join_front(ts, ", "@);
        let rest = crate::frontmatter::spec_join_sep(ts.skip(1), ", "@);
        assert(j == ts[0] + ", "@ + rest);
        let seg0 = pad + ts[0];
        let tail = seq![' '] + rest;
        assert(x =~= seg0 + seq![','] + tail) by {
            assert(", "@.len() == 2);
            assert(", "@[0] == ',' && ", "@[1] == ' ');
        }
        assert forall|k: int| 0 <= k < seg0.len() implies seg0[k] != ',' by {
            if k < pad.len() {
                assert(seg0[k] == ' ');
            } else {
                assert(seg0[k] == ts[0][k - pad.len()]);
            }
        }
        crate::text::lemma_split_peel(seg0, tail, ',');
        let segs = crate::text::spec_split(x, ',');
        assert(segs =~~= seq![seg0] + crate::text::spec_split(tail, ','));
        assert forall|p: int| 0 <= p < ts.skip(1).len() implies tag_wf(
            #[trigger] ts.skip(1)[p],
        ) by {
            assert(ts.skip(1)[p] == ts[p + 1]);
        }
        lemma_clean_join_tail(ts.skip(1), 1);
        assert(seq![' '].skip(0) =~= seq![' ']);
        assert(crate::frontmatter::spec_clean_list(tail) == ts.skip(1));
        assert(cf(seg0) == ts[0]) by {
            if extra == 0 {
                assert(seg0 =~= ts[0]);
            } else {
                assert(seg0 =~= seq![' '] + ts[0]);
            }
        }
        assert(segs.map_values(cf) =~~= seq![ts[0]] + crate::text::spec_split(tail, ',').map_values(
            cf,
        ));
        Seq::filter_distributes_over_add(
            seq![ts[0]],
            crate::text::spec_split(tail, ',').map_values(cf),
            pf,
        );
        assert(seq![ts[0]].filter(pf) =~~= seq![ts[0]]) by {
            reveal(Seq::filter);
            assert(pf(ts[0]));
            assert(seq![ts[0]].drop_last() =~= Seq::<Seq<char>>::empty());
            assert(seq![ts[0]].last() == ts[0]);
        }
        assert(crate::frontmatter::spec_clean_list(x) =~~= seq![ts[0]] + ts.skip(1));
        assert(seq![ts[0]] + ts.skip(1) =~= ts);
    }
}

/// Dropping one value from a list removes exactly its copies.
proof fn lemma_filter_ne_counts(s: Seq<Seq<char>>, tag: Seq<char>)
    ensures
        forall|x: Seq<char>|
            x != tag ==> #[trigger] crate::planner::spec_without_tag(s, tag).to_multiset().count(x)
                == s.to_multiset().count(x),
        crate::planner::spec_without_tag(s, tag).to_multiset().count(tag) == 0,
    decreases s.len(),
{
    broadcast use vstd::seq_lib::group_to_multiset_ensures;

    reveal(Seq::filter);
    let pf = |t: Seq<char>| t != tag;
    if s.len() == 0 {
        assert(s.filter(pf) =~~= Seq::<Seq<char>>::empty());
        assert(s.filter(pf).to_multiset() =~= Multiset::<Seq<char>>::empty());
    } else {
        lemma_filter_ne_counts(s.drop_last(), tag);
        let pre = s.drop_last().filter(pf);
        assert(s =~= s.drop_last().push(s.last()));
        assert(s.to_multiset() =~= s.drop_last().to_multiset().insert(s.last()));
        if pf(s.last()) {
            assert(s.filter(pf) == pre.push(s.last()));
            assert(s.filter(pf).to_multiset() =~= pre.to_multiset().insert(s.last()));
        } else {
            assert(s.filter(pf) == pre);
            assert(s.last() == tag);
        }
    }
}

/// The tag round-trip law, at the list level: adding a fresh tag to a
/// tag set and then removing it restores exactly the original set,
/// whatever order the insertion chose.
pub proof fn lemma_tag_list_roundtrip(tags0: Seq<Seq<char>>, ts1: Seq<Seq<char>>, tag: Seq<char>)
    requires
        !crate::mirror::contains_string(tags0, tag),
        ts1.to_multiset() == tags0.push(tag).to_multiset(),
    ensures
        crate::planner::spec_without_tag(ts1, tag).to_multiset() == tags0.to_multiset(),
    decreases 0int,
{
    broadcast use vstd::seq_lib::group_to_multiset_ensures;

    lemma_filter_ne_counts(ts1, tag);
    let out = crate::planner::spec_without_tag(ts1, tag);
    assert forall|x: Seq<char>| true implies #[trigger] out.to_multiset().count(x)
        == tags0.to_multiset().count(x) by {
        if x == tag {
            assert(!tags0.contains(tag)) by {
                if tags0.contains(tag) {
                    let k = choose|k: int| 0 <= k < tags0.len() && tags0[k] == tag;
                    assert(crate::mirror::contains_string(tags0, tag));
                }
            }
            assert(tags0.to_multiset().count(tag) == 0);
        } else {
            assert(out.to_multiset().count(x) == ts1.to_multiset().count(x));
            assert(ts1.to_multiset().count(x) == tags0.push(tag).to_multiset().count(x));
            assert(tags0.push(tag).to_multiset() =~= tags0.to_multiset().insert(tag));
        }
    }
    assert(out.to_multiset() =~= tags0.to_multiset());
}

/// Writing a bracketed tag value into a header and reading the tag
/// line back recovers exactly that value.
#[verifier::rlimit(100)]
proof fn lemma_update_tags_extract(c: Seq<char>, value: Seq<char>)
    requires
        forall|k: int| 0 <= k < value.len() ==> #[trigger] value[k] != '\n',
        value.len() >= 2,
        value[0] == '[',
        value[value.len() - 1] == ']',
        crate::text::match_at(
            crate::frontmatter::spec_trim_start(c),
            crate::frontmatter::fence(),
            0,
        ) ==> match crate::text::spec_find(c, crate::frontmatter::fence(), 0) {
            Some(s0) => match crate::text::spec_find(c, crate::frontmatter::fence(), s0 + 3) {
                Some(e) => c[e - 1] == '\n',
                None => true,
            },
            None => true,
        },
    ensures
        crate::frontmatter::spec_extract_tags(
            crate::frontmatter::spec_update_field(c, "tags"@, value),
        ) == crate::frontmatter::spec_parse_tags_value(value),
{
    reveal_strlit("tags");
    reveal_strlit("tags:");
    let key = "tags"@;
    let keyc = key + seq![':'];
    assert(key.len() == 4);
    assert(key[0] == 't' && key[1] == 'a' && key[2] == 'g' && key[3] == 's');
    assert(keyc =~= crate::frontmatter::tags_key());
    assert(crate::frontmatter::tags_key().len() == 5);
    let line = crate::frontmatter::spec_field_line(key, value);
    let l = line.len() as int;
    assert(l == 6 + value.len());
    assert(line[0] == 't' && line[1] == 'a' && line[2] == 'g' && line[3] == 's' && line[4] == ':'
        && line[5] == ' ');
    assert(forall|k: int| 0 <= k < value.len() ==> #[trigger] line[6 + k] == value[k]);
    assert forall|k: int| 0 <= k < l implies #[trigger] line[k] != '\n' by {
        if k >= 6 {
            assert(line[k] == value[k - 6]);
        }
    }
    assert forall|k: int| 0 <= k < 5 implies #[trigger] line[k] == keyc[k] by {}
    let raw_expect = seq![' '] + value;
    assert(line.skip(5) =~= raw_expect);
    assert(crate::text::spec_trim(raw_expect) == value) by {
        assert(crate::text::is_ws_char(raw_expect[0]));
        assert(!crate::text::is_ws_char(raw_expect[1])) by {
            assert(raw_expect[1] == value[0]);
        }
        assert(!crate::text::is_ws_char(raw_expect[raw_expect.len() - 1])) by {
            assert(raw_expect[raw_expect.len() - 1] == value[value.len() - 1]);
        }
        crate::text::lemma_trim_is(raw_expect, 1, raw_expect.len() as int);
        assert(raw_expect.subrange(1, raw_expect.len() as int) =~= value);
    }
    let f = crate::frontmatter::fence();
    let pnl = |ch: char| ch != '\n';
    if !crate::text::match_at(crate::frontmatter::spec_trim_start(c), f, 0)
        || crate::text::spec_find(c, f, 0) is None || (crate::text::spec_find(c, f, 0) matches Some(
        s0,
    ) && crate::text::spec_find(c, f, s0 + 3) is None) {
        // a header is synthesized in front
        let c2 = crate::frontmatter::spec_synth_header(c, key, value);
        assert(crate::frontmatter::spec_update_field(c, key, value) == c2);
        assert(c2[0] == '-' && c2[1] == '-' && c2[2] == '-' && c2[3] == '\n');
        assert(forall|k: int| 0 <= k < l ==> #[trigger] c2[4 + k] == line[k]);
        assert(c2[4 + l] == '\n');
        assert(crate::frontmatter::tags_at(c2, 4)) by {
            assert forall|k: int| 0 <= k < 5 implies c2[4 + k] == crate::frontmatter::tags_key()[k]
                by {
                assert(c2[4 + k] == line[k]);
            }
        }
        assert forall|j: int| 0 <= j < 4 implies !crate::frontmatter::tags_at(c2, j) by {
            if j == 0 {
                if crate::text::match_at(c2, crate::frontmatter::tags_key(), 0) {
                    assert(c2[0] == crate::frontmatter::tags_key()[0]);
                }
            } else {
                assert(c2[j - 1] != '\n') by {
                    if j == 1 {
                        assert(c2[0] == '-');
                    } else if j == 2 {
                        assert(c2[1] == '-');
                    } else {
                        assert(c2[2] == '-');
                    }
                }
            }
        }
        crate::frontmatter::lemma_tags_pos_is_pub(c2, 4);
        assert(crate::frontmatter::run_end(c2, 9, pnl) == 4 + l) by {
            assert forall|k: int| 9 <= k < 4 + l implies #[trigger] pnl(c2[k]) by {
                assert(c2[k] == line[k - 4]);
            }
            assert(!pnl(c2[4 + l]));
            crate::frontmatter::lemma_run_end_is(c2, 9, 4 + l, pnl);
        }
        assert(crate::frontmatter::spec_tags_raw(c2) == Some(c2.subrange(9, 4 + l)));
        assert(c2.subrange(9, 4 + l) =~= raw_expect);
    } else {
        let s0u = crate::text::spec_find(c, f, 0)->Some_0;
        let e = crate::text::spec_find(c, f, s0u + 3)->Some_0;
        lemma_first_fence(c);
        crate::text::lemma_find_props(c, f, s0u + 3);
        assert(crate::text::match_at(c, f, e));
        lemma_fence_at(c, e);
        assert(c[e - 1] == '\n');
        let fm = c.take(e);
        let body = c.skip(e);
        assert(fm.len() == e);
        match crate::frontmatter::spec_key_line_pos(fm, keyc) {
            Some(i) => {
                crate::frontmatter::lemma_key_line_props(fm, keyc);
                let le = crate::frontmatter::run_end(fm, i, pnl);
                crate::frontmatter::lemma_run_end_props(fm, i, pnl);
                assert(i + 5 <= e);
                assert(i >= 1) by {
                    if i == 0 {
                        assert(crate::text::match_at(fm, keyc, 0));
                        assert(fm[0] == keyc[0]);
                        assert(crate::text::is_ws_char(c[0]) || c[0] == '-') by {
                            if 0 < s0u {
                                assert(crate::text::is_ws_char(c[0]));
                            } else {
                                assert(c[s0u] == '-');
                            }
                        }
                    }
                }
                assert(fm[i - 1] == '\n');
                assert(le <= e - 1) by {
                    assert(fm[e - 1] == '\n');
                    assert(!pnl(fm[e - 1]));
                    if le > e - 1 {
                        assert(pnl(fm[e - 1]));
                    }
                }
                assert(le < e);
                assert(fm[le] == '\n') by {
                    assert(le < fm.len());
                    assert(!pnl(fm[le]));
                }
                let bseg = c.subrange(le, e);
                let bl = bseg.len() as int;
                let c2 = fm.take(i) + line + fm.skip(le) + body;
                assert(crate::frontmatter::spec_update_field(c, key, value) == c2);
                assert(c2 =~= c.take(i) + line + bseg + c.skip(e));
                assert(forall|k: int| 0 <= k < i ==> c2[k] == c[k]);
                assert(forall|k: int| 0 <= k < l ==> #[trigger] c2[i + k] == line[k]);
                assert(c2[i + l] == c[le]);
                assert(crate::frontmatter::tags_at(c2, i)) by {
                    assert(c2[i - 1] == c[i - 1]);
                    assert(c[i - 1] == '\n');
                    assert forall|k: int| 0 <= k < 5 implies c2[i + k]
                        == crate::frontmatter::tags_key()[k] by {
                        assert(c2[i + k] == line[k]);
                    }
                }
                assert forall|j: int| 0 <= j < i implies !crate::frontmatter::tags_at(c2, j) by {
                    if crate::frontmatter::tags_at(c2, j) {
                        if j + 5 <= i {
                            assert(crate::frontmatter::key_line_at(fm, keyc, j)) by {
                                assert forall|k: int| 0 <= k < 5 implies fm[j + k] == keyc[k] by {
                                    assert(fm[j + k] == c[j + k]);
                                    assert(c2[j + k] == c[j + k]);
                                    assert(c2[j + k] == crate::frontmatter::tags_key()[k]);
                                }
                                if j > 0 {
                                    assert(fm[j - 1] == c[j - 1]);
                                    assert(c2[j - 1] == c[j - 1]);
                                }
                            }
                        } else {
                            assert(j <= i - 1 < j + 5);
                            let k = i - 1 - j;
                            assert(c2[j + k] == crate::frontmatter::tags_key()[k]);
                            assert(c2[i - 1] == '\n');
                            assert(crate::frontmatter::tags_key()[k] != '\n') by {
                                assert(keyc[k] != '\n');
                            }
                        }
                    }
                }
                crate::frontmatter::lemma_tags_pos_is_pub(c2, i);
                assert(crate::frontmatter::run_end(c2, i + 5, pnl) == i + l) by {
                    assert forall|k: int| i + 5 <= k < i + l implies #[trigger] pnl(c2[k]) by {
                        assert(c2[k] == line[k - i]);
                    }
                    assert(c2[i + l] == '\n') by {
                        assert(c2[i + l] == c[le]);
                    }
                    assert(!pnl(c2[i + l]));
                    crate::frontmatter::lemma_run_end_is(c2, i + 5, i + l, pnl);
                }
                assert(crate::frontmatter::spec_tags_raw(c2) == Some(c2.subrange(i + 5, i + l)));
                assert(c2.subrange(i + 5, i + l) =~= raw_expect);
            },
            None => {
                crate::frontmatter::lemma_key_line_props(fm, keyc);
                let d = if fm.len() > 0 && fm[fm.len() - 1] == '\n' {
                    fm
                } else {
                    fm + seq!['\n']
                };
                let dl = d.len() as int;
                assert(d == fm);
                assert(dl == e);
                assert(d[dl - 1] == '\n');
                assert(forall|k: int| 0 <= k < e ==> d[k] == c[k]);
                let c2 = d + line + seq!['\n'] + body;
                assert(crate::frontmatter::spec_update_field(c, key, value) == c2);
                assert(forall|k: int| 0 <= k < dl ==> c2[k] == d[k]);
                assert(forall|k: int| 0 <= k < l ==> #[trigger] c2[dl + k] == line[k]);
                assert(c2[dl + l] == '\n');
                assert(crate::frontmatter::tags_at(c2, dl)) by {
                    assert(c2[dl - 1] == '\n');
                    assert forall|k: int| 0 <= k < 5 implies c2[dl + k]
                        == crate::frontmatter::tags_key()[k] by {
                        assert(c2[dl + k] == line[k]);
                    }
                }
                assert forall|j: int| 0 <= j < dl implies !crate::frontmatter::tags_at(c2, j) by {
                    if crate::frontmatter::tags_at(c2, j) {
                        if j + 5 <= e {
                            assert(crate::frontmatter::key_line_at(fm, keyc, j)) by {
                                assert forall|k: int| 0 <= k < 5 implies fm[j + k] == keyc[k] by {
                                    assert(fm[j + k] == c[j + k]);
                                    assert(c2[j + k] == c[j + k]);
                                    assert(c2[j + k] == crate::frontmatter::tags_key()[k]);
                                }
                                if j > 0 {
                                    assert(fm[j - 1] == c[j - 1]);
                                    assert(c2[j - 1] == c[j - 1]);
                                }
                            }
                        } else {
                            assert(j <= dl - 1 < j + 5);
                            let k = dl - 1 - j;
                            assert(c2[j + k] == crate::frontmatter::tags_key()[k]);
                            assert(c2[dl - 1] == '\n');
                            assert(crate::frontmatter::tags_key()[k] != '\n') by {
                                assert(keyc[k] != '\n');
                            }
                        }
                    }
                }
                crate::frontmatter::lemma_tags_pos_is_pub(c2, dl);
                assert(crate::frontmatter::run_end(c2, dl + 5, pnl) == dl + l) by {
                    assert forall|k: int| dl + 5 <= k < dl + l implies #[trigger] pnl(c2[k]) by {
                        assert(c2[k] == line[k - dl]);
                    }
                    assert(!pnl(c2[dl + l]));
                    crate::frontmatter::lemma_run_end_is(c2, dl + 5, dl + l, pnl);
                }
                assert(crate::frontmatter::spec_tags_raw(c2) == Some(c2.subrange(dl + 5, dl + l)));
                assert(c2.subrange(dl + 5, dl + l) =~= raw_expect);
            },
        }
    }
}

/// The tag round-trip law: adding a fresh, well-formed tag to a note's
/// header and then removing that same tag restores the note's tag set
/// exactly, ignoring order.  `ts1` is whatever list the addition
/// wrote: the old tags and the new one, in any arrangement.
pub proof fn lemma_tag_add_remove_roundtrip(c: Seq<char>, ts1: Seq<Seq<char>>, tag: Seq<char>)
    requires
        forall|p: int|
            0 <= p < crate::frontmatter::spec_extract_tags(c).len() ==> tag_wf(
                #[trigger] crate::frontmatter::spec_extract_tags(c)[p],
            ),
        tag_wf(tag),
        !crate::mirror::contains_string(crate::frontmatter::spec_extract_tags(c), tag),
        ts1.to_multiset() == crate::frontmatter::spec_extract_tags(c).push(tag).to_multiset(),
        crate::text::match_at(
            crate::frontmatter::spec_trim_start(c),
            crate::frontmatter::fence(),
            0,
        ) ==> match crate::text::spec_find(c, crate::frontmatter::fence(), 0) {
            Some(s0) => match crate::text::spec_find(c, crate::frontmatter::fence(), s0 + 3) {
                Some(e) => c[e - 1] == '\n',
                None => true,
            },
            None => true,
        },
    ensures
        ({
            let c1 = crate::frontmatter::spec_update_field(
                c,
                "tags"@,
                crate::planner::spec_tags_value(ts1),
            );
            crate::planner::spec_without_tag(
                crate::frontmatter::spec_extract_tags(c1),
                tag,
            ).to_multiset() == crate::frontmatter::spec_extract_tags(c).to_multiset()
        }),
{
    broadcast use vstd::seq_lib::group_to_multiset_ensures;

    let tags0 = crate::frontmatter::spec_extract_tags(c);
    assert forall|p: int| 0 <= p < ts1.len() implies tag_wf(#[trigger] ts1[p]) by {
        assert(ts1.contains(ts1[p])) by {
            assert(ts1[p] == ts1[p]);
        }
        assert(ts1.to_multiset().count(ts1[p]) > 0);
        assert(tags0.push(tag).to_multiset().count(ts1[p]) > 0);
        assert(tags0.push(tag).contains(ts1[p]));
        let k = choose|k: int| 0 <= k < tags0.push(tag).len() && tags0.push(tag)[k] == ts1[p];
        if k < tags0.len() {
            assert(tags0.push(tag)[k] == tags0[k]);
        } else {
            assert(tags0.push(tag)[k] == tag);
        }
    }
    let value = crate::planner::spec_tags_value(ts1);
    reveal_strlit(", ");
    let joined = crate::frontmatter::spec_join_sep(ts1, ", "@);
    assert(value =~= seq!['['] + joined + seq![']']);
    assert(value[0] == '[');
    assert(value[value.len() - 1] == ']');
    assert(value.len() >= 2);
    lemma_join_no_newline(ts1);
    assert forall|k: int| 0 <= k < value.len() implies #[trigger] value[k] != '\n' by {
        if k == 0 {
        } else if k == value.len() - 1 {
        } else {
            assert(value[k] == joined[k - 1]);
        }
    }
    lemma_update_tags_extract(c, value);
    let c1 = crate::frontmatter::spec_update_field(c, "tags"@, value);
    assert(crate::frontmatter::spec_extract_tags(c1)
        == crate::frontmatter::spec_parse_tags_value(value));
    assert(crate::frontmatter::spec_parse_tags_value(value)
        == crate::frontmatter::spec_clean_list(value.subrange(1, value.len() - 1)));
    assert(value.subrange(1, value.len() - 1) =~= joined);
    lemma_clean_join_roundtrip(ts1);
    assert(crate::frontmatter::spec_extract_tags(c1) == ts1);
    lemma_tag_list_roundtrip(tags0, ts1, tag);
}

/// The no-op-save law: once a save has run and put the mirror in
/// step, an identical second save — same body as both new and old
/// text, the same header, renaming allowed — plans no rename and no
/// write, and leaves the path where the first save put it.
///
/// The hypotheses say that the saved note is mirrored (under a unique
/// path, with no other record already sitting at the rename target),
/// that the header rather than the body carries the color,
/// always-on-top and tag fields whatever date stands in it, and that
/// the retitled name round-trips (its sanitized title does not end in
/// the note suffix).
pub proof fn lemma_save_replay_no_op(
    notes0: Seq<NoteMeta>,
    notes1: Seq<NoteMeta>,
    nm1: NoteMeta,
    path: Seq<char>,
    b: Seq<char>,
    fm: Seq<char>,
    d1: Seq<char>,
    d2: Seq<char>,
)
    requires
        spec_plan_save(notes0, path, b, b, fm, true, d1).ok,
        spec_find_note(notes0, path) is Some,
        forall|i: int, j: int|
            0 <= i < j < notes0.len() ==> notes0[i]@.path != notes0[j]@.path,
        spec_plan_save(notes0, path, b, b, fm, true, d1).renamed ==> forall|k: int|
            0 <= k < notes0.len() ==> notes0[k]@.path != spec_plan_save(
                notes0,
                path,
                b,
                b,
                fm,
                true,
                d1,
            ).final_path,
        forall|d: Seq<char>|
            crate::frontmatter::spec_color_field(
                #[trigger] crate::frontmatter::spec_update_updated(fm, d) + seq!['\n', '\n'] + b,
            ) == crate::frontmatter::spec_color_field(fm),
        forall|d: Seq<char>|
            crate::frontmatter::spec_aot_field(
                #[trigger] crate::frontmatter::spec_update_updated(fm, d) + seq!['\n', '\n'] + b,
            ) == crate::frontmatter::spec_aot_field(fm),
        forall|d: Seq<char>|
            crate::frontmatter::spec_extract_tags(
                #[trigger] crate::frontmatter::spec_update_updated(fm, d) + seq!['\n', '\n'] + b,
            ) == crate::frontmatter::spec_extract_tags(fm),
        !ends_with_md(spec_sanitize(spec_first_line(b))),
        nm1@ == spec_plan_save(notes0, path, b, b, fm, true, d1).meta,
        mirror_updated(notes0, path, nm1, notes1),
    ensures
        ({
            let plan1 = spec_plan_save(notes0, path, b, b, fm, true, d1);
            let plan2 = spec_plan_save(notes1, plan1.final_path, b, b, fm, true, d2);
            &&& plan2.ok
            &&& !plan2.renamed
            &&& !plan2.write
            &&& plan2.final_path == plan1.final_path
        }),
{
    let plan1 = spec_plan_save(notes0, path, b, b, fm, true, d1);
    let p1 = plan1.final_path;
    let pr = spec_split_path(path)->Some_0;
    let prefix = pr.0;
    let filename = pr.1;
    let parsed = spec_parse_filename(filename);
    let seqn = parsed.0;
    let created = parsed.1;
    let old_ctx = parsed.2;
    let first_line = spec_first_line(b);
    let safe = spec_sanitize(first_line);
    crate::codec::lemma_split_path_props(path);
    crate::codec::lemma_parse_filename_shape(filename);
    crate::codec::lemma_sanitize_no_sep(first_line);

    // where the second call's path splits and parses
    let filename2: Seq<char> = if plan1.renamed {
        spec_generate_filename(seqn, created, safe)
    } else {
        filename
    };
    if plan1.renamed {
        lemma_generate_no_sep(seqn, created, safe);
        assert(filename2 != seq!['.'] && filename2 != seq!['.', '.']) by {
            assert(filename2.len() >= 9);
        }
        crate::codec::lemma_split_path_join(prefix, filename2);
        assert(spec_split_path(p1) == Some((prefix, filename2)));
        crate::codec::lemma_parse_generate_roundtrip(seqn, created, safe);
        assert(spec_parse_filename(filename2) == (seqn, created, safe));
    } else {
        assert(p1 == path);
        assert(spec_split_path(p1) == Some((prefix, filename2)));
    }
    let old_ctx2 = spec_parse_filename(filename2).2;

    // the mirrored record the second call sees
    let i0 = spec_find_note(notes0, path)->Some_0;
    crate::mirror::lemma_find_note_props(notes0, path);
    let upd = notes0.update(i0, nm1);
    assert(notes1.to_multiset() == upd.to_multiset());
    assert(nm1@.path == p1);
    assert(upd[i0] == nm1);
    assert(upd.contains(nm1)) by {
        assert(upd[i0] == nm1);
    }
    assert(notes1.to_multiset().count(nm1) > 0);
    assert(notes1.contains(nm1));
    let iw = choose|iw: int| 0 <= iw < notes1.len() && notes1[iw] == nm1;
    crate::mirror::lemma_find_note_props(notes1, p1);
    assert(spec_find_note(notes1, p1) is Some) by {
        if spec_find_note(notes1, p1) is None {
            assert(notes1[iw]@.path != p1);
        }
    }
    let i1 = spec_find_note(notes1, p1)->Some_0;
    let e = notes1[i1];
    assert(e@.path == p1);
    assert(notes1.contains(e)) by {
        assert(notes1[i1] == e);
    }
    assert(upd.to_multiset().count(e) > 0);
    assert(upd.contains(e));
    let ke = choose|ke: int| 0 <= ke < upd.len() && upd[ke] == e;
    assert(e == nm1) by {
        if ke != i0 {
            assert(upd[ke] == notes0[ke]);
            assert(notes0[ke]@.path == p1);
            if plan1.renamed {
                assert(notes0[ke]@.path != p1);
            } else {
                assert(p1 == path);
                assert(notes0[i0]@.path == path);
                if ke < i0 {
                    assert(notes0[ke]@.path != notes0[i0]@.path);
                } else {
                    assert(notes0[i0]@.path != notes0[ke]@.path);
                }
            }
            assert(false);
        }
    }
    assert(e@ == plan1.meta);

    // the second plan decides nothing changed
    let plan2 = spec_plan_save(notes1, p1, b, b, fm, true, d2);
    let fu1 = plan1.meta.updated;
    let content1 = crate::frontmatter::spec_update_updated(fm, fu1) + seq!['\n', '\n'] + b;
    assert(plan1.meta.background_color == crate::frontmatter::spec_color_field(content1));
    assert(crate::frontmatter::spec_color_field(content1)
        == crate::frontmatter::spec_color_field(fm));
    assert(crate::frontmatter::spec_aot_field(content1) == crate::frontmatter::spec_aot_field(fm));
    assert(crate::frontmatter::spec_extract_tags(content1)
        == crate::frontmatter::spec_extract_tags(fm));
    if plan1.renamed {
        assert(old_ctx2 == safe);
    } else {
        assert(old_ctx2 == old_ctx);
        assert(!(first_line.len() > 0 && safe.len() > 0 && safe != old_ctx));
    }
    assert(plan2.ok);
    assert(!plan2.renamed);
    assert(!plan2.write);
    assert(plan2.final_path == p1);
}

/// The no-op-save law at the call level: a save that returned
/// `Ok((p2, _))` with the note mirrored, followed by a second save of
/// byte-identical body and header at `p2`, yields `Ok` with the same
/// path and an empty batch — no write, no rename.  The hypotheses are
/// those of `lemma_save_replay_no_op`.
pub proof fn lemma_save_replay_no_op_effects(
    pre: crate::model::AppState,
    mid: crate::model::AppState,
    post: crate::model::AppState,
    r1: Result<(String, crate::model::Effect), String>,
    r2: Result<(String, crate::model::Effect), String>,
    path: Seq<char>,
    b: Seq<char>,
    fm: Seq<char>,
    d1: Seq<char>,
    d2: Seq<char>,
    p2: Seq<char>,
)
    requires
        crate::planner::save_post(pre, path, b, b, fm, true, d1, mid, r1),
        r1 matches Ok(p) && p.0@ == p2,
        crate::planner::save_post(mid, p2, b, b, fm, true, d2, post, r2),
        spec_find_note(pre.notes@, path) is Some,
        forall|i: int, j: int|
            0 <= i < j < pre.notes@.len() ==> pre.notes@[i]@.path != pre.notes@[j]@.path,
        spec_plan_save(pre.notes@, path, b, b, fm, true, d1).renamed ==> forall|k: int|
            0 <= k < pre.notes@.len() ==> pre.notes@[k]@.path != spec_plan_save(
                pre.notes@,
                path,
                b,
                b,
                fm,
                true,
                d1,
            ).final_path,
        forall|d: Seq<char>|
            crate::frontmatter::spec_color_field(
                #[trigger] crate::frontmatter::spec_update_updated(fm, d) + seq!['\n', '\n'] + b,
            ) == crate::frontmatter::spec_color_field(fm),
        forall|d: Seq<char>|
            crate::frontmatter::spec_aot_field(
                #[trigger] crate::frontmatter::spec_update_updated(fm, d) + seq!['\n', '\n'] + b,
            ) == crate::frontmatter::spec_aot_field(fm),
        forall|d: Seq<char>|
            crate::frontmatter::spec_extract_tags(
                #[trigger] crate::frontmatter::spec_update_updated(fm, d) + seq!['\n', '\n'] + b,
            ) == crate::frontmatter::spec_extract_tags(fm),
        !ends_with_md(spec_sanitize(spec_first_line(b))),
    ensures
        r2 matches Ok(q) && q.0@ == p2 && (q.1 matches crate::model::Effect::Batch(v) && v@.len()
            == 0),
{
    let plan1 = spec_plan_save(pre.notes@, path, b, b, fm, true, d1);
    assert(plan1.ok) by {
        if !plan1.ok {
            assert(r1 is Err);
        }
    }
    assert(p2 == plan1.final_path);
    let nm = choose|nm: NoteMeta|
        #[trigger] nm@ == plan1.meta && crate::planner::mirror_updated(
            pre.notes@,
            path,
            nm,
            mid.notes@,
        );
    lemma_save_replay_no_op(pre.notes@, mid.notes@, nm, path, b, fm, d1, d2);
    let plan2 = spec_plan_save(mid.notes@, p2, b, b, fm, true, d2);
    assert(plan2.ok && !plan2.renamed && !plan2.write && plan2.final_path == p2);
    match r2 {
        Ok(q) => {
            assert(q.0@ == p2);
            assert(crate::planner::effect_matches(q.1, p2, plan2, true));
            match q.1 {
                crate::model::Effect::Batch(v) => {
                    assert(v@.len() == 0);
                }
                _ => {
                    assert(false);
                }
            }
        }
        Err(_) => {
            assert(false);
        }
    }
}

} // verus!