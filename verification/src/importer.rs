//! The pure half of importing foreign notes: which files are taken,
//! and how one file's text is rebuilt as a note.

use vstd::prelude::*;
use crate::codec::spec_generate_filename;
use crate::codec::spec_sanitize;
use crate::frontmatter::spec_body_without_frontmatter;
use crate::frontmatter::spec_generate_frontmatter;
use crate::planner::spec_first_line;

verus! {

/// File extensions an import takes: notes and the image formats the
/// body may reference.
pub open spec fn spec_is_target_extension(e: Seq<char>) -> bool {
    e == "md"@ || spec_is_image_extension(e)
}

pub open spec fn spec_is_image_extension(e: Seq<char>) -> bool {
    e == "png"@ || e == "jpg"@ || e == "jpeg"@ || e == "gif"@ || e == "webp"@ || e == "svg"@
}

pub fn is_target_extension(ext: &str) -> (r: bool)
    ensures
        r == spec_is_target_extension(ext@),
{
    crate::mirror::str_eq_exec(ext, "md") || is_image_extension(ext)
}

pub fn is_image_extension(ext: &str) -> (r: bool)
    ensures
        r == spec_is_image_extension(ext@),
{
    crate::mirror::str_eq_exec(ext, "png") || crate::mirror::str_eq_exec(ext, "jpg")
        || crate::mirror::str_eq_exec(ext, "jpeg") || crate::mirror::str_eq_exec(ext, "gif")
        || crate::mirror::str_eq_exec(ext, "webp") || crate::mirror::str_eq_exec(ext, "svg")
}

/// The title an imported file gets: the sanitized first line of its
/// body, or `imported` when that is empty.
pub open spec fn spec_import_context(body: Seq<char>) -> Seq<char> {
    let safe = spec_sanitize(spec_first_line(body));
    if safe.len() == 0 {
        "imported"@
    } else {
        safe
    }
}

/// The rebuilt note of one imported file.
pub struct ImportNote {
    pub filename: String,
    pub content: String,
    pub context: String,
}

/// Rebuilds an imported file as a note: any existing header block is
/// dropped, the first body line (sanitized, or `imported`) becomes
/// the title, the file name is generated from the given sequence
/// number and date, and a fresh default header is put in front.
pub fn build_import_note(source_text: &str, next_seq: i32, today: &str) -> (r: ImportNote)
    requires
        next_seq >= 0,
    ensures
        ({
            let body = spec_body_without_frontmatter(source_text@);
            &&& r.context@ == spec_import_context(body)
            &&& r.filename@ == spec_generate_filename(next_seq as int, today@, r.context@)
            &&& r.content@ == spec_generate_frontmatter(
                next_seq as int,
                r.context@,
                today@,
                today@,
                Some("#f7e9b0"@),
                Seq::<Seq<char>>::empty(),
            ) + seq!['\n', '\n'] + body
        }),
{
    let body = crate::frontmatter::extract_body_without_frontmatter(source_text);
    let bodyv = crate::text::chars_of(body.as_str());
    let le = crate::frontmatter::line_end_exec(&bodyv, 0);
    let flraw = crate::text::copy_range(&bodyv, 0, le);
    let flv = crate::text::trim_chars(&flraw);
    proof {
        assert(flraw@ =~= bodyv@.take(le as int));
        assert(flv@ == spec_first_line(body@));
    }
    let safe = crate::codec::sanitize_context(crate::text::string_of(&flv).as_str());
    let context: String = if safe.as_str().is_empty() {
        let mut c: String = String::new();
        c.append("imported");
        proof {
            assert(c@ =~= "imported"@);
        }
        c
    } else {
        safe
    };
    let filename = crate::codec::generate_filename(next_seq, today, context.as_str());
    let no_tags: Vec<String> = Vec::new();
    proof {
        crate::mirror::lemma_deep_view_is(&no_tags);
        assert(no_tags.deep_view() =~~= Seq::<Seq<char>>::empty());
    }
    let fm = crate::frontmatter::generate_frontmatter(
        next_seq,
        context.as_str(),
        today,
        today,
        Some("#f7e9b0"),
        &no_tags,
    );
    let mut cv = crate::text::chars_of(fm.as_str());
    cv.push('\n');
    cv.push('\n');
    crate::text::push_all(&mut cv, &bodyv);
    let content = crate::text::string_of(&cv);
    proof {
        assert(content@ =~= fm@ + seq!['\n', '\n'] + body@);
    }
    ImportNote { filename, content, context }
}

// ---------------------------------------------------------------------------
// Collision-free target names
// ---------------------------------------------------------------------------

/// The index of the last dot of a plain file name, or -1.
pub open spec fn spec_last_dot(name: Seq<char>) -> int
    decreases name.len(),
{
    if name.len() == 0 {
        -1
    } else if name[name.len() - 1] == '.' {
        name.len() - 1
    } else {
        spec_last_dot(name.drop_last())
    }
}

/// A name's stem: everything before the last dot, unless that dot
/// leads the name — then, as the standard path reader has it, the
/// whole name is the stem.
pub open spec fn spec_name_stem(name: Seq<char>) -> Seq<char> {
    let d = spec_last_dot(name);
    if d <= 0 {
        name
    } else {
        name.take(d)
    }
}

/// A name's extension: everything after the last dot, or nothing.
pub open spec fn spec_name_ext(name: Seq<char>) -> Seq<char> {
    let d = spec_last_dot(name);
    if d <= 0 {
        Seq::<char>::empty()
    } else {
        name.skip(d + 1)
    }
}

/// The `n`th renamed candidate for a colliding import: `stem_n`, with
/// the extension put back when there is one.
pub open spec fn spec_cand(stem: Seq<char>, ext: Seq<char>, n: int) -> Seq<char> {
    stem + seq!['_'] + crate::text::spec_digits(n) + (if ext.len() == 0 {
        Seq::<char>::empty()
    } else {
        seq!['.'] + ext
    })
}

proof fn lemma_last_dot_is(name: Seq<char>, d: int)
    requires
        (d == -1 && forall|k: int| 0 <= k < name.len() ==> name[k] != '.') || (0 <= d < name.len()
            && name[d] == '.' && forall|k: int| d < k < name.len() ==> name[k] != '.'),
    ensures
        spec_last_dot(name) == d,
    decreases name.len(),
{
    if name.len() == 0 {
    } else if name[name.len() - 1] == '.' {
        assert(d == name.len() - 1);
    } else {
        let u = name.drop_last();
        assert(forall|k: int| 0 <= k < u.len() ==> u[k] == name[k]);
        lemma_last_dot_is(u, d);
    }
}

/// Splits a plain file name into stem and extension, as
/// `spec_name_stem` and `spec_name_ext` describe.
fn split_name_ext(v: &Vec<char>) -> (r: (Vec<char>, Vec<char>))
    ensures
        r.0@ == spec_name_stem(v@),
        r.1@ == spec_name_ext(v@),
{
    let n: usize = v.len();
    let mut e: usize = n;
    while e > 0 && v[e - 1] != '.'
        invariant
            n == v@.len(),
            e <= n,
            forall|k: int| e <= k < n ==> v@[k] != '.',
        decreases e,
    {
        e = e - 1;
    }
    proof {
        if e == 0 {
            lemma_last_dot_is(v@, -1);
        } else {
            lemma_last_dot_is(v@, e - 1);
        }
    }
    if e <= 1 {
        // no dot, or a leading one: the whole name is the stem
        let stem = crate::text::copy_range(v, 0, n);
        let ext: Vec<char> = Vec::new();
        proof {
            assert(stem@ =~= v@);
            assert(ext@ =~= Seq::<char>::empty());
        }
        (stem, ext)
    } else {
        let stem = crate::text::copy_range(v, 0, e - 1);
        let ext = crate::text::copy_range(v, e, n);
        proof {
            assert(stem@ =~= v@.take(e - 1));
            assert(ext@ =~= v@.skip(e as int));
        }
        (stem, ext)
    }
}

fn make_cand(stemv: &Vec<char>, extv: &Vec<char>, n: u32) -> (r: String)
    ensures
        r@ == spec_cand(stemv@, extv@, n as int),
{
    let mut out: Vec<char> = Vec::new();
    crate::text::push_all(&mut out, stemv);
    out.push('_');
    crate::text::push_digits_u32(n, &mut out);
    if extv.len() > 0 {
        out.push('.');
        crate::text::push_all(&mut out, extv);
    }
    proof {
        assert(out@ =~= spec_cand(stemv@, extv@, n as int));
    }
    crate::text::string_of(&out)
}

/// Picks the target name of an imported file against the lowercased
/// names already taken: the name itself when its lowercase form is
/// free, else `stem_n.ext` for the first `n` whose lowercase form is
/// free.  Case folding is an outside function, so in the outlandish
/// event that every candidate up to one past the taken list's length
/// folded onto a taken name, the last candidate is handed out anyway.
pub fn resolve_collision_name(name: &str, used: &Vec<String>) -> (r: String)
    requires
        used@.len() < u32::MAX,
    ensures
        !crate::mirror::contains_string(
            used.deep_view(),
            crate::search::lower_of(name@),
        ) ==> r@ == name@,
        crate::mirror::contains_string(used.deep_view(), crate::search::lower_of(name@))
            ==> exists|n: int|
            {
                &&& 1 <= n <= used.deep_view().len() + 1
                &&& r@ == #[trigger] spec_cand(spec_name_stem(name@), spec_name_ext(name@), n)
                &&& forall|m: int|
                    1 <= m < n ==> crate::mirror::contains_string(
                        used.deep_view(),
                        crate::search::lower_of(
                            #[trigger] spec_cand(spec_name_stem(name@), spec_name_ext(name@), m),
                        ),
                    )
                &&& n == used.deep_view().len() + 1 || !crate::mirror::contains_string(
                    used.deep_view(),
                    crate::search::lower_of(r@),
                )
            },
{
    proof {
        crate::mirror::lemma_deep_view_is(used);
    }
    let low = crate::search::to_lowercase(name);
    if !crate::mirror::contains_string_exec(used, low.as_str()) {
        return name.to_owned();
    }
    let v = crate::text::chars_of(name);
    let se = split_name_ext(&v);
    let stemv = se.0;
    let extv = se.1;
    let bound: u32 = used.len() as u32 + 1;
    let mut n: u32 = 1;
    loop
        invariant
            stemv@ == spec_name_stem(name@),
            extv@ == spec_name_ext(name@),
            used.deep_view().len() == used@.len(),
            bound == used@.len() + 1,
            1 <= n <= bound,
            crate::mirror::contains_string(used.deep_view(), crate::search::lower_of(name@)),
            forall|m: int|
                1 <= m < n ==> crate::mirror::contains_string(
                    used.deep_view(),
                    crate::search::lower_of(
                        #[trigger] spec_cand(spec_name_stem(name@), spec_name_ext(name@), m),
                    ),
                ),
        decreases bound - n,
    {
        let cand = make_cand(&stemv, &extv, n);
        if n >= bound {
            proof {
                assert(n == bound);
                assert(cand@ == spec_cand(spec_name_stem(name@), spec_name_ext(name@), n as int));
            }
            return cand;
        }
        let cl = crate::search::to_lowercase(cand.as_str());
        if !crate::mirror::contains_string_exec(used, cl.as_str()) {
            proof {
                assert(cand@ == spec_cand(spec_name_stem(name@), spec_name_ext(name@), n as int));
                assert(!crate::mirror::contains_string(
                    used.deep_view(),
                    crate::search::lower_of(cand@),
                ));
            }
            return cand;
        }
        n = n + 1;
    }
}

} // verus!