//! The full-text search scanner.
//!
//! Searching walks every note file; this module holds the per-file
//! logic: split the text into lines, skip a leading header block and
//! the blank lines before the body, and report every body line that
//! contains the query, case-insensitively, with its body line number
//! and a preview capped at eighty characters.

use vstd::prelude::*;
use crate::frontmatter::fence;
use crate::model::SearchHit;
use crate::text::match_at;
use crate::text::spec_find;
use crate::text::spec_split;
use crate::text::spec_trim;

verus! {

/// What `str::to_lowercase` returns: a pure function of the
/// characters alone.
pub uninterp spec fn lower_of(s: Seq<char>) -> Seq<char>;

/// Relies on `str::to_lowercase`: the result depends only on the
/// input's characters, the same on every machine.
#[verifier::external_body]
pub fn to_lowercase(s: &str) -> (r: String)
    ensures
        r@ == lower_of(s@),
{
    s.to_lowercase()
}

/// `pat` occurs somewhere in `s`.
pub open spec fn contains_sub(s: Seq<char>, pat: Seq<char>) -> bool {
    spec_find(s, pat, 0) is Some
}

/// A line as the line reader hands it out: without a trailing
/// carriage return.
pub open spec fn spec_strip_cr(l: Seq<char>) -> Seq<char> {
    if l.len() > 0 && l[l.len() - 1] == '\r' {
        l.drop_last()
    } else {
        l
    }
}

/// The lines of a text: split on newlines, carriage returns stripped,
/// with no phantom line after a final newline.
pub open spec fn spec_lines(s: Seq<char>) -> Seq<Seq<char>> {
    if s.len() == 0 {
        Seq::<Seq<char>>::empty()
    } else {
        let parts = spec_split(s, '\n');
        let kept = if s[s.len() - 1] == '\n' {
            parts.drop_last()
        } else {
            parts
        };
        kept.map_values(|l: Seq<char>| spec_strip_cr(l))
    }
}

/// A line's preview: the line, or its first eighty characters and an
/// ellipsis.
pub open spec fn spec_preview(l: Seq<char>) -> Seq<char> {
    if l.len() > 80 {
        l.take(80) + "..."@
    } else {
        l
    }
}

/// The scan over the lines from `idx` on: body line numbers and
/// previews of the matching lines.  A fence on the very first line
/// opens a header block that runs to the next fence line; those lines
/// and the blank lines before the first body line count for nothing.
pub open spec fn spec_scan(
    lines: Seq<Seq<char>>,
    idx: int,
    in_fm: bool,
    started: bool,
    counter: int,
    qlow: Seq<char>,
) -> Seq<(int, Seq<char>)>
    decreases lines.len() - idx,
{
    if idx < 0 || idx >= lines.len() {
        Seq::<(int, Seq<char>)>::empty()
    } else {
        let l = lines[idx];
        if idx == 0 && spec_trim(l) == fence() {
            spec_scan(lines, 1, true, started, counter, qlow)
        } else if in_fm {
            spec_scan(
                lines,
                idx + 1,
                !(spec_trim(l) == fence()),
                started,
                counter,
                qlow,
            )
        } else if !started && spec_trim(l).len() == 0 {
            spec_scan(lines, idx + 1, false, false, counter, qlow)
        } else {
            let rest = spec_scan(lines, idx + 1, false, true, counter + 1, qlow);
            if contains_sub(lower_of(l), qlow) {
                seq![(counter + 1, spec_preview(l))] + rest
            } else {
                rest
            }
        }
    }
}

/// The hits of one file: the scan from its first line.
pub open spec fn spec_search_hits(content: Seq<char>, qlow: Seq<char>) -> Seq<(int, Seq<char>)> {
    spec_scan(spec_lines(content), 0, false, false, 0, qlow)
}

/// Splits a text into its lines, as `spec_lines` describes.
fn split_lines(content: &str) -> (r: Vec<String>)
    ensures
        r.deep_view() == spec_lines(content@),
{
    let v = crate::text::chars_of(content);
    let n: usize = v.len();
    let mut out: Vec<String> = Vec::new();
    if n == 0 {
        proof {
            crate::mirror::lemma_deep_view_is(&out);
            assert(out.deep_view() =~~= spec_lines(content@));
        }
        return out;
    }
    let ghost segs = spec_split(v@, '\n');
    let ghost kept: Seq<Seq<char>> = if v@[n - 1] == '\n' {
        segs.drop_last()
    } else {
        segs
    };
    let mut pos: usize = 0;
    let ghost mut t: int = 0;
    proof {
        crate::text::lemma_split_len(v@, '\n');
        crate::mirror::lemma_deep_view_is(&out);
        assert(kept.take(0) =~= Seq::<Seq<char>>::empty());
        assert(out.deep_view() =~~= kept.take(0).map_values(|l: Seq<char>| spec_strip_cr(l)));
        assert(v@.skip(0) =~= v@);
    }
    loop
        invariant
            n == v@.len(),
            n > 0,
            v@ == content@,
            segs == spec_split(v@, '\n'),
            kept == (if v@[n - 1] == '\n' {
                segs.drop_last()
            } else {
                segs
            }),
            0 <= pos <= n,
            0 <= t <= kept.len(),
            t < segs.len(),
            spec_split(v@.skip(pos as int), '\n') =~~= segs.skip(t),
            out.deep_view() == kept.take(t).map_values(|l: Seq<char>| spec_strip_cr(l)),
            pos == n ==> t == kept.len(),
        decreases segs.len() - t,
    {
        if pos >= n {
            proof {
                assert(out.deep_view() =~~= kept.map_values(|l: Seq<char>| spec_strip_cr(l)));
            }
            return out;
        }
        let c = crate::text::find_char_from(&v, '\n', pos);
        proof {
            crate::text::lemma_find_props(v@, seq!['\n'], pos as int);
        }
        match c {
            Some(ci) => {
                proof {
                    crate::text::lemma_match_char(v@, '\n', ci as int);
                    let tail = v@.skip(pos as int);
                    let seg = v@.subrange(pos as int, ci as int);
                    let rest = v@.skip(ci + 1);
                    assert forall|k: int| 0 <= k < seg.len() implies seg[k] != '\n' by {
                        assert(seg[k] == v@[pos + k]);
                        if v@[pos + k] == '\n' {
                            crate::text::lemma_char_match(v@, '\n', pos + k);
                        }
                    }
                    assert(tail =~= seg + seq!['\n'] + rest);
                    crate::text::lemma_split_peel(seg, rest, '\n');
                    crate::text::lemma_split_len(rest, '\n');
                    assert(segs.skip(t) =~~= seq![seg] + spec_split(rest, '\n'));
                    assert(segs.skip(t)[0] == segs[t]);
                    assert((seq![seg] + spec_split(rest, '\n'))[0] == seg);
                    assert(segs[t] == seg);
                    assert(t + 1 < segs.len());
                    assert(t < kept.len()) by {
                        if v@[n - 1] == '\n' {
                            assert(kept.len() == segs.len() - 1);
                        }
                    }
                    assert(kept[t] == segs[t]) by {
                        if v@[n - 1] == '\n' {
                            assert(kept[t] == segs.drop_last()[t]);
                        }
                    }
                }
                let rawline = crate::text::copy_range(&v, pos, ci);
                let stripped = strip_cr_exec(&rawline);
                let ghost before = out.deep_view();
                out.push(crate::text::string_of(&stripped));
                proof {
                    crate::mirror::lemma_deep_view_is(&out);
                    assert(rawline@ =~= v@.subrange(pos as int, ci as int));
                    assert(out.deep_view() =~~= before.push(spec_strip_cr(kept[t])));
                    assert(kept.take(t + 1) =~= kept.take(t).push(kept[t]));
                    assert(kept.take(t + 1).map_values(|l: Seq<char>| spec_strip_cr(l))
                        =~~= kept.take(t).map_values(|l: Seq<char>| spec_strip_cr(l)).push(
                        spec_strip_cr(kept[t]),
                    ));
                    let rest = v@.skip(ci + 1);
                    assert(segs.skip(t).skip(1) =~= segs.skip(t + 1));
                    assert((seq![v@.subrange(pos as int, ci as int)] + spec_split(rest, '\n')).skip(
                        1,
                    ) =~= spec_split(rest, '\n'));
                    assert(spec_split(rest, '\n') =~~= segs.skip(t + 1));
                    if ci + 1 == n {
                        assert(v@[n - 1] == '\n');
                        assert(rest.len() == 0);
                        crate::text::lemma_split_whole(rest, '\n');
                        assert(spec_split(rest, '\n').len() == 1);
                        assert(segs.len() - (t + 1) == 1);
                        assert(t + 1 == kept.len());
                    }
                    t = t + 1;
                }
                pos = ci + 1;
            }
            None => {
                proof {
                    let tail = v@.skip(pos as int);
                    assert forall|k: int| 0 <= k < tail.len() implies tail[k] != '\n' by {
                        assert(tail[k] == v@[pos + k]);
                        if v@[pos + k] == '\n' {
                            crate::text::lemma_char_match(v@, '\n', pos + k);
                        }
                    }
                    crate::text::lemma_split_whole(tail, '\n');
                    assert(segs.skip(t) =~~= seq![tail]);
                    assert(segs.skip(t)[0] == segs[t]);
                    assert(seq![tail][0] == tail);
                    assert(segs[t] == tail);
                    assert(t == segs.len() - 1);
                    assert(v@[n - 1] != '\n') by {
                        assert(pos < n);
                        assert(tail[n - 1 - pos] == v@[n - 1]);
                    }
                    assert(kept == segs);
                }
                let rawline = crate::text::copy_range(&v, pos, n);
                let stripped = strip_cr_exec(&rawline);
                let ghost before = out.deep_view();
                out.push(crate::text::string_of(&stripped));
                proof {
                    crate::mirror::lemma_deep_view_is(&out);
                    assert(rawline@ =~= v@.skip(pos as int));
                    assert(out.deep_view() =~~= before.push(spec_strip_cr(kept[t])));
                    assert(kept.take(t + 1) =~= kept.take(t).push(kept[t]));
                    assert(kept.take(t + 1).map_values(|l: Seq<char>| spec_strip_cr(l))
                        =~~= kept.take(t).map_values(|l: Seq<char>| spec_strip_cr(l)).push(
                        spec_strip_cr(kept[t]),
                    ));
                    assert(kept.take(t + 1) =~= kept);
                    assert(out.deep_view() =~~= kept.map_values(|l: Seq<char>| spec_strip_cr(l)));
                }
                return out;
            }
        }
    }
}

fn strip_cr_exec(v: &Vec<char>) -> (r: Vec<char>)
    ensures
        r@ == spec_strip_cr(v@),
{
    let n: usize = v.len();
    if n > 0 && v[n - 1] == '\r' {
        let r = crate::text::copy_range(v, 0, n - 1);
        proof {
            assert(r@ =~= v@.drop_last());
        }
        r
    } else {
        crate::text::copy_range(v, 0, n)
    }
}

/// Whether a fixed line equals the fence once trimmed.
fn is_fence_line(l: &str) -> (r: bool)
    ensures
        r == (spec_trim(l@) == fence()),
{
    let v = crate::text::chars_of(l);
    let trimmed = crate::text::trim_chars(&v);
    let fv: Vec<char> = vec!['-', '-', '-'];
    proof {
        assert(fv@ =~= fence());
    }
    crate::mirror::eq_chars(&trimmed, &fv)
}

/// Scans one file's text for the query, as `spec_search_hits`
/// describes: each hit carries the path, the body line number, and
/// the preview.
pub fn search_in_content(path: &str, content: &str, query_lower: &str) -> (r: Vec<SearchHit>)
    ensures
        ({
            let hits = spec_search_hits(content@, query_lower@);
            &&& r@.len() == hits.len()
            &&& forall|k: int|
                0 <= k < hits.len() ==> (#[trigger] r@[k]).path@ == path@ && r@[k].line as int
                    == hits[k].0 && r@[k].preview@ == hits[k].1
        }),
{
    let lines = split_lines(content);
    let ghost lv = lines.deep_view();
    let qv = crate::text::chars_of(query_lower);
    let n: usize = lines.len();
    proof {
        crate::mirror::lemma_deep_view_is(&lines);
    }
    let mut out: Vec<SearchHit> = Vec::new();
    let mut idx: usize = 0;
    let mut in_fm: bool = false;
    let mut started: bool = false;
    let mut counter: usize = 0;
    let ghost total = spec_scan(lv, 0, false, false, 0, query_lower@);
    proof {
        assert(out@.map_values(|h: SearchHit| (h.line as int, h.preview@)) =~~= Seq::<(
            int,
            Seq<char>,
        )>::empty());
    }
    while idx < n
        invariant
            n == lines@.len(),
            lv == lines.deep_view(),
            lv.len() == lines@.len(),
            forall|k: int| 0 <= k < lines@.len() ==> lv[k] == lines@[k]@,
            qv@ == query_lower@,
            idx <= n,
            counter <= idx,
            total == spec_scan(lv, 0, false, false, 0, query_lower@),
            out@.map_values(|h: SearchHit| (h.line as int, h.preview@)) + spec_scan(
                lv,
                idx as int,
                in_fm,
                started,
                counter as int,
                query_lower@,
            ) =~~= total,
            forall|k: int| 0 <= k < out@.len() ==> (#[trigger] out@[k]).path@ == path@,
        decreases n - idx,
    {
        let line = &lines[idx];
        let ghost pre_map = out@.map_values(|h: SearchHit| (h.line as int, h.preview@));
        if idx == 0 && is_fence_line(line.as_str()) {
            proof {
                assert(lv[0] == lines@[0]@);
            }
            in_fm = true;
            idx = 1;
        } else if in_fm {
            if is_fence_line(line.as_str()) {
                in_fm = false;
            }
            proof {
                assert(lv[idx as int] == lines@[idx as int]@);
            }
            idx = idx + 1;
        } else {
            let v = crate::text::chars_of(line.as_str());
            let trimmed = crate::text::trim_chars(&v);
            if !started && trimmed.len() == 0 {
                proof {
                    assert(lv[idx as int] == lines@[idx as int]@);
                    assert(spec_trim(lv[idx as int]).len() == 0);
                }
                idx = idx + 1;
            } else {
                proof {
                    assert(lv[idx as int] == lines@[idx as int]@);
                    if !started {
                        assert(spec_trim(lv[idx as int]).len() != 0);
                    }
                }
                started = true;
                counter = counter + 1;
                let low = to_lowercase(line.as_str());
                let lowv = crate::text::chars_of(low.as_str());
                let found = crate::text::find_from(&lowv, &qv, 0);
                let hit = match found {
                    Some(_) => true,
                    None => false,
                };
                proof {
                    assert(hit == contains_sub(lower_of(lv[idx as int]), query_lower@));
                }
                if hit {
                    let preview = make_preview(&v);
                    out.push(
                        SearchHit {
                            path: path.to_owned(),
                            line: counter,
                            preview: crate::text::string_of(&preview),
                        },
                    );
                    proof {
                        assert(out@.map_values(|h: SearchHit| (h.line as int, h.preview@))
                            =~~= pre_map.push((counter as int, spec_preview(lv[idx as int]))));
                    }
                }
                proof {
                    let mapped = out@.map_values(|h: SearchHit| (h.line as int, h.preview@));
                    let rest = spec_scan(lv, idx + 1, false, true, counter as int, query_lower@);
                    if hit {
                        assert(mapped + rest =~~= pre_map + (seq![
                            (counter as int, spec_preview(lv[idx as int])),
                        ] + rest));
                    }
                }
                idx = idx + 1;
            }
        }
    }
    proof {
        assert(spec_scan(lv, n as int, in_fm, started, counter as int, query_lower@)
            =~~= Seq::<(int, Seq<char>)>::empty());
        let mapped = out@.map_values(|h: SearchHit| (h.line as int, h.preview@));
        assert(mapped =~~= total);
        assert(mapped.len() == out@.len());
        assert forall|k: int| 0 <= k < total.len() implies (#[trigger] out@[k]).path@ == path@
            && out@[k].line as int == total[k].0 && out@[k].preview@ == total[k].1 by {
            assert(mapped[k] == (out@[k].line as int, out@[k].preview@));
        }
    }
    out
}

/// Caps a line at eighty characters, as `spec_preview` describes.
fn make_preview(v: &Vec<char>) -> (r: Vec<char>)
    ensures
        r@ == spec_preview(v@),
{
    if v.len() > 80 {
        let mut r = crate::text::copy_range(v, 0, 80);
        let dots = crate::text::chars_of("...");
        crate::text::push_all(&mut r, &dots);
        proof {
            assert(r@ =~= spec_preview(v@));
        }
        r
    } else {
        crate::text::copy_range(v, 0, v.len())
    }
}

} // verus!
