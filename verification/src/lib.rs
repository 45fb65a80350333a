//! Scans container-build manifests for base-image declarations with version
//! tags, synthesizes a structural pattern from each observed tag, ranks
//! candidate tags fetched from a registry, and rewrites exactly the matched
//! declaration in the original text.
//!
//! The caller reads the manifests, fetches the registry metadata and writes
//! the results back; everything in between — pattern synthesis, scanning,
//! ranking, patching — lives here.

use vstd::prelude::*;
use vstd::string::StringExecFns;

pub mod args;
pub mod chars;
pub mod convert;
pub mod data;
pub mod errors;
pub mod pattern;
pub mod read;
pub mod uptag;
pub mod write;

use crate::data::{Dockerfile, Parent, Tag};
use crate::errors::BumpError;

verus! {

/// One reported update: which manifest, which image, and the tag before and
/// after.
#[derive(Debug)]
pub struct TagUp {
    pub dockerfile: String,
    pub image: String,
    pub old_tag: String,
    pub new_tag: String,
}

impl TagUp {
    pub exec fn new(dockerfile: String, image: String, old_tag: String, new_tag: String) -> (r:
        TagUp)
        ensures
            r.dockerfile@ == dockerfile@,
            r.image@ == image@,
            r.old_tag@ == old_tag@,
            r.new_tag@ == new_tag@,
    {
        TagUp { dockerfile, image, old_tag, new_tag }
    }
}

/// Is `image` one of the allow-listed names?
pub open spec fn name_allowed(names: Seq<Seq<char>>, image: Seq<char>) -> bool {
    exists|i: int| 0 <= i < names.len() && names[i] == image
}

pub open spec fn names_view(names: Seq<String>) -> Seq<Seq<char>> {
    names.map(|i: int, s: String| s@)
}

/// The references whose image name the allow-list admits, in order.
pub open spec fn keep_allowed(ps: Seq<Parent>, names: Seq<Seq<char>>) -> Seq<Parent>
    decreases ps.len(),
{
    if ps.len() == 0 {
        ps
    } else if name_allowed(names, ps.last().image_spec()) {
        keep_allowed(ps.drop_last(), names).push(ps.last())
    } else {
        keep_allowed(ps.drop_last(), names)
    }
}

exec fn contains_name(names: &Vec<String>, image: &String) -> (r: bool)
    ensures
        r == name_allowed(names_view(names@), image@),
{
    let ghost nv = names_view(names@);
    let n: usize = names.len();
    let mut i: usize = 0;
    while i < n
        invariant
            i <= n,
            n == names@.len(),
            nv == names_view(names@),
            forall|j: int| 0 <= j < i ==> nv[j] != image@,
        decreases n - i,
    {
        proof {
            assert(nv[i as int] == names@[i as int]@);
        }
        if crate::chars::string_eq(&names[i], image) {
            return true;
        }
        i = i + 1;
    }
    false
}

/// Applies the image allow-list. With no allow-list, every scanned reference
/// passes, but an empty scan is an error; with one, only the named images
/// pass, and an empty remainder is an error.
pub exec fn filter_parents(all_parents: Vec<Parent>, allow_parent_names: &Vec<String>) -> (r:
    Result<Vec<Parent>, BumpError>)
    ensures
        allow_parent_names@.len() == 0 ==> ({
            &&& (r is Err <==> all_parents@.len() == 0)
            &&& (r is Err ==> r matches Err(BumpError::NoParentsFound))
            &&& (r matches Ok(ps) ==> ps == all_parents)
        }),
        allow_parent_names@.len() > 0 ==> ({
            &&& (r is Err <==> keep_allowed(all_parents@, names_view(allow_parent_names@)).len()
                == 0)
            &&& (r is Err ==> r matches Err(BumpError::NoAllowedParentsFound))
            &&& (r matches Ok(ps) ==> ps@ == keep_allowed(
                all_parents@,
                names_view(allow_parent_names@),
            ))
        }),
{
    if allow_parent_names.len() == 0 {
        if all_parents.len() == 0 {
            return Err(BumpError::NoParentsFound);
        }
        return Ok(all_parents);
    }
    let ghost nv = names_view(allow_parent_names@);
    let ghost pv = all_parents@;
    let mut rest = all_parents;
    let total: usize = rest.len();
    let ghost n = pv.len();
    let mut kept: Vec<Parent> = Vec::new();
    proof {
        assert(pv.take(0) =~= Seq::<Parent>::empty());
        assert(pv.skip(0) =~= pv);
    }
    let mut idx: usize = 0;
    while rest.len() > 0
        invariant
            idx <= n,
            n == pv.len(),
            n == total,
            rest@ == pv.skip(idx as int),
            nv == names_view(allow_parent_names@),
            kept@ == keep_allowed(pv.take(idx as int), nv),
        decreases rest@.len(),
    {
        proof {
            assert(pv.take(idx as int + 1).drop_last() =~= pv.take(idx as int));
            assert(pv.take(idx as int + 1).last() == pv[idx as int]);
            assert(pv.skip(idx as int)[0] == pv[idx as int]);
            assert(pv.skip(idx as int).skip(1) =~= pv.skip(idx as int + 1));
        }
        let p = rest.remove(0);
        let keep = contains_name(allow_parent_names, p.image_name());
        if keep {
            let ghost pre = kept@;
            kept.push(p);
            proof {
                assert(keep_allowed(pv.take(idx as int + 1), nv) == keep_allowed(
                    pv.take(idx as int),
                    nv,
                ).push(pv[idx as int]));
                assert(kept@ =~= pre.push(pv[idx as int]));
            }
        }
        idx = idx + 1;
    }
    proof {
        assert(pv.skip(idx as int).len() == 0);
        assert(idx == n);
        assert(pv.take(n as int) =~= pv);
    }
    if kept.len() == 0 {
        return Err(BumpError::NoAllowedParentsFound);
    }
    Ok(kept)
}

/// The rows reported for a batch of resolutions: one per resolution, carrying
/// the manifest's path, the image, and the old and new tag names.
pub exec fn bump_results(latest_tags: &Vec<(Parent, Tag)>, files: &Vec<Dockerfile>) -> (r: Vec<
    TagUp,
>)
    requires
        forall|i: int|
            0 <= i < latest_tags@.len() ==> 0 <= (#[trigger] latest_tags@[i]).0.dockerfile_spec()
                < files@.len(),
    ensures
        r@.len() == latest_tags@.len(),
        forall|i: int|
            0 <= i < r@.len() ==> {
                &&& (#[trigger] r@[i]).dockerfile@ == files@[latest_tags@[i].0.dockerfile_spec()].path_spec()
                &&& r@[i].image@ == latest_tags@[i].0.image_spec()
                &&& r@[i].old_tag@ == latest_tags@[i].0.tag_spec().name_spec()
                &&& r@[i].new_tag@ == latest_tags@[i].1.name_spec()
            },
{
    let n: usize = latest_tags.len();
    let mut out: Vec<TagUp> = Vec::new();
    let mut i: usize = 0;
    while i < n
        invariant
            i <= n,
            n == latest_tags@.len(),
            out@.len() == i,
            forall|k: int|
                0 <= k < latest_tags@.len() ==> 0 <= (#[trigger] latest_tags@[k]).0.dockerfile_spec()
                    < files@.len(),
            forall|k: int|
                0 <= k < i ==> {
                    &&& (#[trigger] out@[k]).dockerfile@ == files@[latest_tags@[k].0.dockerfile_spec()].path_spec()
                    &&& out@[k].image@ == latest_tags@[k].0.image_spec()
                    &&& out@[k].old_tag@ == latest_tags@[k].0.tag_spec().name_spec()
                    &&& out@[k].new_tag@ == latest_tags@[k].1.name_spec()
                },
        decreases n - i,
    {
        let p = &latest_tags[i].0;
        let t = &latest_tags[i].1;
        let up = TagUp::new(
            files[p.dockerfile()].path().clone(),
            p.image_name().clone(),
            p.tag().name().clone(),
            t.name().clone(),
        );
        out.push(up);
        i = i + 1;
    }
    out
}

/// One row of the plain listing: image, old tag, and either the new tag or an
/// up-to-date mark.
pub open spec fn render_up_text(u: TagUp) -> Seq<char> {
    if u.old_tag@ == u.new_tag@ {
        u.image@ + "\t"@ + u.old_tag@ + " (up-to-date)\n"@
    } else {
        u.image@ + "\t"@ + u.old_tag@ + " -> "@ + u.new_tag@ + "\n"@
    }
}

pub open spec fn render_text(ups: Seq<TagUp>) -> Seq<char>
    decreases ups.len(),
{
    if ups.len() == 0 {
        Seq::<char>::empty()
    } else {
        render_text(ups.drop_last()) + render_up_text(ups.last())
    }
}

/// Renders the plain listing, one row per update.
#[verifier::rlimit(50)]
pub exec fn render_tags_text(ups: &Vec<TagUp>) -> (r: String)
    ensures
        r@ == render_text(ups@),
{
    let n: usize = ups.len();
    let mut m = String::new();
    let mut i: usize = 0;
    proof {
        assert(m@ =~= render_text(ups@.take(0)));
    }
    while i < n
        invariant
            i <= n,
            n == ups@.len(),
            m@ == render_text(ups@.take(i as int)),
        decreases n - i,
    {
        proof {
            assert(ups@.take(i as int + 1).drop_last() =~= ups@.take(i as int));
            assert(ups@.take(i as int + 1).last() == ups@[i as int]);
        }
        let u = &ups[i];
        m.append(u.image.as_str());
        m.append("\t");
        m.append(u.old_tag.as_str());
        if crate::chars::string_eq(&u.old_tag, &u.new_tag) {
            m.append(" (up-to-date)\n");
        } else {
            m.append(" -> ");
            m.append(u.new_tag.as_str());
            m.append("\n");
        }
        i = i + 1;
    }
    proof {
        assert(ups@.take(n as int) =~= ups@);
    }
    m
}

pub open spec fn bool_text(b: bool) -> Seq<char> {
    if b {
        "true"@
    } else {
        "false"@
    }
}

/// One object of the structured listing.
pub open spec fn render_up_json(u: TagUp) -> Seq<char> {
    "  {\"image\": \""@ + u.image@ + "\", \"dockerfile\": \""@ + u.dockerfile@
        + "\", \"current_tag\": \""@ + u.old_tag@ + "\", \"updated_tag\": \""@ + u.new_tag@
        + "\", \"is_update\": "@ + bool_text(u.old_tag@ != u.new_tag@) + "}"@
}

pub open spec fn render_json_items(ups: Seq<TagUp>) -> Seq<char>
    decreases ups.len(),
{
    if ups.len() == 0 {
        Seq::<char>::empty()
    } else if ups.len() == 1 {
        render_up_json(ups[0])
    } else {
        render_json_items(ups.drop_last()) + ",\n"@ + render_up_json(ups.last())
    }
}

/// The whole structured listing: a bracketed array of one object per update.
pub open spec fn render_json(ups: Seq<TagUp>) -> Seq<char> {
    "[\n"@ + render_json_items(ups) + "\n]\n"@
}

/// Appends one listing object.
#[verifier::rlimit(50)]
exec fn append_up_json(m: &mut String, u: &TagUp)
    ensures
        final(m)@ == old(m)@ + render_up_json(*u),
{
    m.append("  {\"image\": \"");
    m.append(u.image.as_str());
    m.append("\", \"dockerfile\": \"");
    m.append(u.dockerfile.as_str());
    m.append("\", \"current_tag\": \"");
    m.append(u.old_tag.as_str());
    m.append("\", \"updated_tag\": \"");
    m.append(u.new_tag.as_str());
    m.append("\", \"is_update\": ");
    if crate::chars::string_eq(&u.old_tag, &u.new_tag) {
        m.append("false");
    } else {
        m.append("true");
    }
    m.append("}");
    proof {
        assert(m@ =~= old(m)@ + render_up_json(*u));
    }
}

/// Renders the structured listing.
#[verifier::rlimit(50)]
pub exec fn render_tags_json(ups: &Vec<TagUp>) -> (r: String)
    ensures
        r@ == render_json(ups@),
{
    let n: usize = ups.len();
    let mut m = String::new();
    m.append("[\n");
    let mut i: usize = 0;
    proof {
        assert(m@ =~= "[\n"@ + render_json_items(ups@.take(0)));
    }
    while i < n
        invariant
            i <= n,
            n == ups@.len(),
            m@ == "[\n"@ + render_json_items(ups@.take(i as int)),
        decreases n - i,
    {
        proof {
            assert(ups@.take(i as int + 1).drop_last() =~= ups@.take(i as int));
            assert(ups@.take(i as int + 1).last() == ups@[i as int]);
            assert(ups@.take(i as int + 1)[0] == ups@[0]);
        }
        let ghost pre = m@;
        if i > 0 {
            m.append(",\n");
        }
        append_up_json(&mut m, &ups[i]);
        proof {
            let itemv = render_up_json(ups@[i as int]);
            if i == 0 {
                assert(render_json_items(ups@.take(1)) == itemv);
                assert(m@ =~= "[\n"@ + render_json_items(ups@.take(1)));
            } else {
                assert(render_json_items(ups@.take(i as int + 1)) == render_json_items(
                    ups@.take(i as int),
                ) + ",\n"@ + itemv);
                assert(m@ =~= "[\n"@ + render_json_items(ups@.take(i as int + 1)));
            }
        }
        i = i + 1;
    }
    proof {
        assert(ups@.take(n as int) =~= ups@);
    }
    m.append("\n]\n");
    m
}

} // verus!
