//! The planning half of archiving a note.
//!
//! Archiving relocates a note file and the local assets its body
//! references.  A tagless note goes to the generic archive directory;
//! a tagged note goes to its first tag's directory, and every further
//! tag receives a symbolic link to the relocated file.  This module
//! only decides the targets; an outer layer performs the moves, in
//! the order the plan lists them: assets copied first, then deleted,
//! then the note renamed, then the links made, best effort.

use vstd::prelude::*;
use crate::frontmatter::run_end;
use crate::planner::spec_join_path;
use crate::text::match_at;

verus! {

/// An asset reference sits at `i`: an image link whose target starts
/// with `assets/`, as in `![alt](assets/pic.png)`.
pub open spec fn asset_ref_at(s: Seq<char>, i: int) -> bool {
    &&& 0 <= i && i + 2 <= s.len()
    &&& s[i] == '!'
    &&& s[i + 1] == '['
    &&& ({
        let b = run_end(s, i + 2, |c: char| c != ']');
        &&& b + 2 <= s.len()
        &&& s[b + 1] == '('
        &&& match_at(s, "assets/"@, b + 2)
        &&& ({
            let e = run_end(s, b + 2, |c: char| c != ')');
            e < s.len() && e > b + 9
        })
    })
}

/// The captured target of the reference at `i`.
pub open spec fn asset_ref_target(s: Seq<char>, i: int) -> Seq<char> {
    let b = run_end(s, i + 2, |c: char| c != ']');
    let e = run_end(s, b + 2, |c: char| c != ')');
    s.subrange(b + 2, e)
}

/// The end of the reference at `i`: just past its closing parenthesis.
pub open spec fn asset_ref_end(s: Seq<char>, i: int) -> int {
    let b = run_end(s, i + 2, |c: char| c != ']');
    run_end(s, b + 2, |c: char| c != ')') + 1
}

/// Every `assets/` reference of a body, left to right, without
/// overlap: after a match the scan resumes past it.
pub open spec fn spec_asset_refs(s: Seq<char>, from: int) -> Seq<Seq<char>>
    decreases s.len() - from when 0 <= from <= s.len()
{
    if from >= s.len() || from < 0 {
        Seq::<Seq<char>>::empty()
    } else if asset_ref_at(s, from) && asset_ref_end(s, from) > from && asset_ref_end(s, from)
        <= s.len() {
        seq![asset_ref_target(s, from)] + spec_asset_refs(s, asset_ref_end(s, from))
    } else {
        spec_asset_refs(s, from + 1)
    }
}

fn asset_ref_check(v: &Vec<char>, pat: &Vec<char>, i: usize) -> (r: bool)
    requires
        i < v@.len(),
        pat@ == "assets/"@,
    ensures
        r == asset_ref_at(v@, i as int),
{
    let n: usize = v.len();
    if n - i < 2 {
        proof {
            assert(i + 2 > v@.len());
        }
        return false;
    }
    if v[i] != '!' || v[i + 1] != '[' {
        return false;
    }
    let b = bracket_end_exec(v, i + 2);
    if n - b < 2 {
        proof {
            assert(b + 2 > v@.len());
        }
        return false;
    }
    if v[b + 1] != '(' {
        return false;
    }
    let pm = if pat.len() <= n - (b + 2) {
        crate::text::is_match_at(v, pat, b + 2)
    } else {
        proof {
            assert(!match_at(v@, "assets/"@, b + 2));
        }
        false
    };
    if !pm {
        return false;
    }
    let e = paren_end_exec(v, b + 2);
    proof {
        reveal_strlit("assets/");
    }
    e < n && e - b > 9
}

fn bracket_end_exec(v: &Vec<char>, i: usize) -> (r: usize)
    requires
        i <= v@.len(),
    ensures
        r == run_end(v@, i as int, |c: char| c != ']'),
        i <= r <= v@.len(),
{
    let n: usize = v.len();
    let mut j: usize = i;
    while j < n && v[j] != ']'
        invariant
            n == v@.len(),
            i <= j <= n,
            forall|k: int| i <= k < j ==> v@[k] != ']',
        decreases n - j,
    {
        j = j + 1;
    }
    proof {
        let p = |c: char| c != ']';
        assert forall|k: int| i <= k < j implies #[trigger] p(v@[k]) by {
            assert(v@[k] != ']');
        }
        if j < n {
            assert(!p(v@[j as int]));
        }
        crate::frontmatter::lemma_run_end_is(v@, i as int, j as int, p);
    }
    j
}

fn paren_end_exec(v: &Vec<char>, i: usize) -> (r: usize)
    requires
        i <= v@.len(),
    ensures
        r == run_end(v@, i as int, |c: char| c != ')'),
        i <= r <= v@.len(),
{
    let n: usize = v.len();
    let mut j: usize = i;
    while j < n && v[j] != ')'
        invariant
            n == v@.len(),
            i <= j <= n,
            forall|k: int| i <= k < j ==> v@[k] != ')',
        decreases n - j,
    {
        j = j + 1;
    }
    proof {
        let p = |c: char| c != ')';
        assert forall|k: int| i <= k < j implies #[trigger] p(v@[k]) by {
            assert(v@[k] != ')');
        }
        if j < n {
            assert(!p(v@[j as int]));
        }
        crate::frontmatter::lemma_run_end_is(v@, i as int, j as int, p);
    }
    j
}

/// Collects the body's `assets/` references, as `spec_asset_refs`
/// describes.
pub fn find_asset_references(content: &str) -> (r: Vec<String>)
    ensures
        r.deep_view() == spec_asset_refs(content@, 0),
{
    let v = crate::text::chars_of(content);
    let pat = crate::text::chars_of("assets/");
    let n: usize = v.len();
    let mut out: Vec<String> = Vec::new();
    let mut i: usize = 0;
    proof {
        crate::mirror::lemma_deep_view_is(&out);
        assert(out.deep_view() =~~= Seq::<Seq<char>>::empty());
    }
    while i < n
        invariant
            n == v@.len(),
            v@ == content@,
            pat@ == "assets/"@,
            i <= n,
            out.deep_view() + spec_asset_refs(v@, i as int) =~~= spec_asset_refs(v@, 0),
        decreases n - i,
    {
        let ghost before = out.deep_view();
        if asset_ref_check(&v, &pat, i) {
            let b = bracket_end_exec(&v, i + 2);
            let e = paren_end_exec(&v, b + 2);
            let tgt = crate::text::copy_range(&v, b + 2, e);
            out.push(crate::text::string_of(&tgt));
            proof {
                crate::mirror::lemma_deep_view_is(&out);
                assert(tgt@ =~= asset_ref_target(v@, i as int));
                assert(out.deep_view() =~~= before.push(asset_ref_target(v@, i as int)));
                assert(asset_ref_end(v@, i as int) == e + 1);
                assert(e + 1 > i as int && e + 1 <= n as int);
                assert(spec_asset_refs(v@, i as int) =~~= seq![asset_ref_target(v@, i as int)]
                    + spec_asset_refs(v@, e + 1));
                assert(out.deep_view() + spec_asset_refs(v@, e + 1) =~~= spec_asset_refs(v@, 0));
            }
            i = e + 1;
        } else {
            proof {
                assert(spec_asset_refs(v@, i as int) == spec_asset_refs(v@, i + 1));
            }
            i = i + 1;
        }
    }
    proof {
        assert(spec_asset_refs(v@, n as int) =~~= Seq::<Seq<char>>::empty());
        assert(out.deep_view() =~~= spec_asset_refs(v@, 0));
    }
    out
}

/// Where an archived note goes, and which extra links it gets.
pub struct ArchivePlan {
    /// The directory receiving the file and its assets.
    pub dest_dir: String,
    /// The note's path after the move.
    pub new_path: String,
    /// The full paths of the symbolic links, one per extra tag.
    pub link_paths: Vec<String>,
}

/// The archive target of a tag: `<root>/tags/<tag>`.
pub open spec fn spec_tag_dir(root: Seq<char>, tag: Seq<char>) -> Seq<char> {
    spec_join_path(spec_join_path(root, "tags"@), tag)
}

/// Decides where an archived note and its links go: a tagless note to
/// `<root>/Archive`, a tagged one to its first tag's directory, with
/// a link path under each further tag's directory.
pub fn plan_archive(vault_root: &str, path: &str, tags: &Vec<String>) -> (r: Result<
    ArchivePlan,
    String,
>)
    ensures
        match r {
            Ok(plan) => {
                &&& crate::codec::spec_split_path(path@) matches Some(pr) && {
                    let filename = pr.1;
                    &&& plan.dest_dir@ == (if tags.deep_view().len() == 0 {
                        spec_join_path(vault_root@, "Archive"@)
                    } else {
                        spec_tag_dir(vault_root@, tags.deep_view()[0])
                    })
                    &&& plan.new_path@ == spec_join_path(plan.dest_dir@, filename)
                    &&& plan.link_paths.deep_view().len() == (if tags.deep_view().len() == 0 {
                        0int
                    } else {
                        tags.deep_view().len() - 1
                    })
                    &&& forall|k: int|
                        0 <= k < plan.link_paths.deep_view().len()
                            ==> #[trigger] plan.link_paths.deep_view()[k] == spec_join_path(
                            spec_tag_dir(vault_root@, tags.deep_view()[k + 1]),
                            filename,
                        )
                }
            },
            Err(e) => crate::codec::spec_split_path(path@) is None && e@ == "no name"@,
        },
{
    let sp = crate::codec::split_path(path);
    let filename = match sp {
        Some(pr) => pr.1,
        None => {
            let mut e: String = String::new();
            e.append("no name");
            proof {
                assert(e@ =~= "no name"@);
            }
            return Err(e);
        }
    };
    proof {
        crate::mirror::lemma_deep_view_is(tags);
    }
    if tags.len() == 0 {
        let dest_dir = join_path_exec(vault_root, "Archive");
        let new_path = join_path_exec(dest_dir.as_str(), filename.as_str());
        let links: Vec<String> = Vec::new();
        proof {
            crate::mirror::lemma_deep_view_is(&links);
        }
        Ok(ArchivePlan { dest_dir, new_path, link_paths: links })
    } else {
        let tags_root = join_path_exec(vault_root, "tags");
        let dest_dir = join_path_exec(tags_root.as_str(), tags[0].as_str());
        let new_path = join_path_exec(dest_dir.as_str(), filename.as_str());
        let mut links: Vec<String> = Vec::new();
        let mut i: usize = 1;
        proof {
            crate::mirror::lemma_deep_view_is(&links);
        }
        while i < tags.len()
            invariant
                tags.deep_view().len() == tags@.len(),
                forall|k: int| 0 <= k < tags@.len() ==> tags.deep_view()[k] == tags@[k]@,
                tags_root@ == spec_join_path(vault_root@, "tags"@),
                filename@ == crate::codec::spec_split_path(path@)->Some_0.1,
                1 <= i <= tags@.len(),
                links.deep_view().len() == i - 1,
                forall|k: int|
                    0 <= k < i - 1 ==> #[trigger] links.deep_view()[k] == spec_join_path(
                        spec_tag_dir(vault_root@, tags.deep_view()[k + 1]),
                        filename@,
                    ),
            decreases tags@.len() - i,
        {
            let tag_dir = join_path_exec(tags_root.as_str(), tags[i].as_str());
            let link = join_path_exec(tag_dir.as_str(), filename.as_str());
            let ghost before = links.deep_view();
            let ghost linkv = link@;
            links.push(link);
            proof {
                crate::mirror::lemma_deep_view_is(&links);
                assert(links.deep_view() =~~= before.push(linkv));
                assert(linkv == spec_join_path(
                    spec_tag_dir(vault_root@, tags.deep_view()[i as int]),
                    filename@,
                ));
            }
            i = i + 1;
        }
        Ok(ArchivePlan { dest_dir, new_path, link_paths: links })
    }
}

/// Joins a directory and an entry name, as `spec_join_path` describes.
pub fn join_path_exec(dir: &str, name: &str) -> (r: String)
    ensures
        r@ == spec_join_path(dir@, name@),
{
    let mut dv = crate::text::chars_of(dir);
    let last_is_sep = if dv.len() > 0 {
        let c = dv[dv.len() - 1];
        c == '/' || c == '\\'
    } else {
        false
    };
    if dv.len() > 0 && !last_is_sep {
        dv.push('/');
    }
    let nv = crate::text::chars_of(name);
    crate::text::push_all(&mut dv, &nv);
    proof {
        assert(dv@ =~= spec_join_path(dir@, name@));
    }
    crate::text::string_of(&dv)
}

} // verus!
