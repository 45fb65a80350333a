//! The manifest scanner: splits each manifest into lines, recognizes
//! base-image declaration lines, and builds one `Parent` per declaration,
//! collapsing duplicates of the same (manifest, image, tag) identity.
//!
//! A declaration line starts with the keyword and a space, then names
//! `image:tag` as one blank-free token (the image part may itself contain
//! colons, as in a registry host with a port; the tag is what follows the
//! last usable colon), then optionally carries a trailing suffix such as a
//! build-stage alias. Lines without a usable colon are skipped silently:
//! many declarations intentionally carry no version.

use vstd::prelude::*;

use crate::chars::{
    blank_run, blank_run_end, chars_to_string, line_end, line_run, nonblank_run, nonblank_run_end,
    str_to_chars, string_eq,
};
use crate::convert::{caps_fit_u32, caps_nrs, parse_tag};
use crate::data::{Dockerfile, Parent, Tag};
use crate::errors::BumpError;
use crate::pattern::{digit_runs, lemma_shape_round_trip, shape_of, tag_to_re};

verus! {

/// The lines of a text, split at line breaks; a trailing break yields a final
/// empty line, and the break characters belong to no line.
pub open spec fn lines_of(s: Seq<char>) -> Seq<Seq<char>>
    decreases s.len(),
    via lines_of_dec
{
    let k = line_run(s);
    if k == s.len() {
        seq![s]
    } else {
        seq![s.take(k as int)] + lines_of(s.skip(k as int + 1))
    }
}

#[via_fn]
proof fn lines_of_dec(s: Seq<char>) {
    crate::chars::lemma_line_run_le(s);
}

/// Splits a text into its lines.
pub exec fn split_lines(s: &[char]) -> (r: Vec<Vec<char>>)
    ensures
        crate::pattern::caps_view(r@) == lines_of(s@),
{
    let n: usize = s.len();
    let mut acc: Vec<Vec<char>> = Vec::new();
    let mut i: usize = 0;
    proof {
        assert(s@.skip(0) =~= s@);
        assert(crate::pattern::caps_view(acc@) =~= Seq::<Seq<char>>::empty());
    }
    let mut done: bool = false;
    while !done
        invariant
            i <= n,
            n == s@.len(),
            !done ==> lines_of(s@) == crate::pattern::caps_view(acc@) + lines_of(s@.skip(i as int)),
            done ==> lines_of(s@) == crate::pattern::caps_view(acc@),
        decreases n - i, (if done { 0 as int } else { 1 as int }),
    {
        let ghost pre = acc@;
        let ghost tail = s@.skip(i as int);
        let k = line_end(s, i);
        acc.push(vstd::slice::slice_to_vec(vstd::slice::slice_subrange(s, i, k)));
        proof {
            assert(s@.subrange(i as int, k as int) =~= tail.take(k - i));
            assert(crate::pattern::caps_view(acc@) =~= crate::pattern::caps_view(pre) + seq![
                tail.take(k - i),
            ]);
        }
        if k == n {
            proof {
                assert(line_run(tail) == tail.len());
                assert(tail.take(k - i) =~= tail);
                assert(lines_of(tail) == seq![tail]);
                assert(crate::pattern::caps_view(pre) + seq![tail] =~= crate::pattern::caps_view(
                    acc@,
                ));
            }
            done = true;
        } else {
            proof {
                assert(line_run(tail) == k - i);
                assert(lines_of(tail) == seq![tail.take(k - i)] + lines_of(tail.skip(k - i + 1)));
                assert(tail.skip(k - i + 1) =~= s@.skip(k + 1));
                assert(crate::pattern::caps_view(pre) + (seq![tail.take(k - i)] + lines_of(
                    s@.skip(k + 1),
                )) =~= crate::pattern::caps_view(acc@) + lines_of(s@.skip(k + 1)));
            }
            i = k + 1;
        }
    }
    acc
}

/// Does the line begin a base-image declaration: the keyword and a space?
pub open spec fn is_from_line(line: Seq<char>) -> bool {
    &&& line.len() >= 5
    &&& line[0] == 'F'
    &&& line[1] == 'R'
    &&& line[2] == 'O'
    &&& line[3] == 'M'
    &&& line[4] == ' '
}

/// The largest index `c` below `m` where `token` can split into a nonempty
/// image part `[0, c)` and a nonempty tag part `(c, len)`.
pub open spec fn last_split_upto(token: Seq<char>, m: nat) -> Option<int>
    decreases m,
{
    if m == 0 {
        None
    } else {
        let c = m - 1;
        if token[c as int] == ':' && c >= 1 && c + 1 < token.len() {
            Some(c as int)
        } else {
            last_split_upto(token, (m - 1) as nat)
        }
    }
}

/// Where the `image:tag` token splits: at its last colon that leaves both
/// sides nonempty.
pub open spec fn last_split(token: Seq<char>) -> Option<int> {
    last_split_upto(token, token.len())
}

/// A found split point is a colon with something on both sides.
pub proof fn lemma_last_split_props(token: Seq<char>, m: nat)
    requires
        last_split_upto(token, m) is Some,
    ensures
        ({
            let c = last_split_upto(token, m)->Some_0;
            &&& 1 <= c < m
            &&& c + 1 < token.len()
            &&& token[c] == ':'
        }),
    decreases m,
{
    if m > 0 {
        let c = m - 1;
        if !(token[c as int] == ':' && c >= 1 && c + 1 < token.len()) {
            lemma_last_split_props(token, (m - 1) as nat);
        }
    }
}

/// The (image, tag literal, suffix) fields of a declaration line, or nothing
/// for a line that is no declaration or carries no usable version.
pub open spec fn from_line_fields(line: Seq<char>) -> Option<(Seq<char>, Seq<char>, Seq<char>)> {
    if !is_from_line(line) {
        None
    } else {
        let rest0 = line.skip(4);
        let b = blank_run(rest0);
        let rest1 = rest0.skip(b as int);
        let t = nonblank_run(rest1);
        if t == 0 {
            None
        } else {
            let token = rest1.take(t as int);
            let after = rest1.skip(t as int);
            let suffix = after.skip(blank_run(after) as int);
            match last_split(token) {
                None => None,
                Some(c) => Some((token.take(c), token.skip(c + 1), suffix)),
            }
        }
    }
}

/// A declaration line whose tag has a component too large for the numeric
/// width.
pub open spec fn line_overflows(line: Seq<char>) -> bool {
    from_line_fields(line) matches Some(f) && !caps_fit_u32(digit_runs(f.1))
}

/// The mathematical content of a `Parent`.
pub struct ParentView {
    pub dockerfile: int,
    pub image: Seq<char>,
    pub tag_name: Seq<char>,
    pub nrs: (u32, u32, u32, u32),
    pub suffix: Seq<char>,
}

pub open spec fn parent_view(p: &Parent) -> ParentView {
    ParentView {
        dockerfile: p.dockerfile_spec(),
        image: p.image_spec(),
        tag_name: p.tag_spec().name_spec(),
        nrs: p.tag_spec().nrs_spec(),
        suffix: p.suffix_spec(),
    }
}

pub open spec fn parents_views(ps: Seq<Parent>) -> Seq<ParentView> {
    ps.map(|i: int, p: Parent| parent_view(&p))
}

/// The reference a declaration line contributes, if any.
pub open spec fn line_parent(idx: int, line: Seq<char>) -> Option<ParentView> {
    match from_line_fields(line) {
        None => None,
        Some(f) => Some(
            ParentView {
                dockerfile: idx,
                image: f.0,
                tag_name: f.1,
                nrs: caps_nrs(digit_runs(f.1)),
                suffix: f.2,
            },
        ),
    }
}

/// Identity of a reference: owning manifest, image name, tag components.
pub open spec fn pv_same_identity(a: ParentView, b: ParentView) -> bool {
    a.dockerfile == b.dockerfile && a.image == b.image && a.nrs == b.nrs
}

pub open spec fn views_contain(acc: Seq<ParentView>, p: ParentView) -> bool {
    exists|i: int| 0 <= i < acc.len() && pv_same_identity(acc[i], p)
}

/// Folds the declarations of one manifest's lines onto `acc`, first-seen
/// order, duplicates by identity collapsed.
pub open spec fn scan_lines(idx: int, lines: Seq<Seq<char>>, acc: Seq<ParentView>) -> Seq<
    ParentView,
>
    decreases lines.len(),
{
    if lines.len() == 0 {
        acc
    } else {
        let acc2 = match line_parent(idx, lines[0]) {
            None => acc,
            Some(p) => if views_contain(acc, p) {
                acc
            } else {
                acc.push(p)
            },
        };
        scan_lines(idx, lines.skip(1), acc2)
    }
}

pub open spec fn scan_files(contents: Seq<Seq<char>>, idx: int, acc: Seq<ParentView>) -> Seq<
    ParentView,
>
    decreases contents.len() - idx,
{
    if idx < 0 || idx >= contents.len() {
        acc
    } else {
        scan_files(contents, idx + 1, scan_lines(idx, lines_of(contents[idx]), acc))
    }
}

/// Every reference the given manifest texts declare, in scan order.
pub open spec fn scan_result(contents: Seq<Seq<char>>) -> Seq<ParentView> {
    scan_files(contents, 0, Seq::<ParentView>::empty())
}

pub open spec fn file_overflows(content: Seq<char>) -> bool {
    exists|i: int| 0 <= i < lines_of(content).len() && line_overflows(lines_of(content)[i])
}

pub open spec fn any_overflow(contents: Seq<Seq<char>>) -> bool {
    exists|i: int| 0 <= i < contents.len() && file_overflows(contents[i])
}

pub open spec fn files_contents(files: Seq<Dockerfile>) -> Seq<Seq<char>> {
    files.map(|i: int, f: Dockerfile| f.content_spec())
}

/// Everything the line fold produces was in the accumulator already or came
/// from one of the lines.
pub proof fn lemma_scan_lines_membership(
    idx: int,
    lines: Seq<Seq<char>>,
    acc: Seq<ParentView>,
    pv: ParentView,
)
    requires
        scan_lines(idx, lines, acc).contains(pv),
    ensures
        acc.contains(pv) || exists|j: int|
            0 <= j < lines.len() && line_parent(idx, #[trigger] lines[j]) == Some(pv),
    decreases lines.len(),
{
    if lines.len() > 0 {
        let acc2 = match line_parent(idx, lines[0]) {
            None => acc,
            Some(p) => if views_contain(acc, p) {
                acc
            } else {
                acc.push(p)
            },
        };
        lemma_scan_lines_membership(idx, lines.skip(1), acc2, pv);
        if acc2.contains(pv) {
            if !acc.contains(pv) {
                assert(line_parent(idx, lines[0]) == Some(pv)) by {
                    let i = choose|i: int| 0 <= i < acc2.len() && acc2[i] == pv;
                    assert(acc2[i] == pv);
                    if i < acc.len() {
                        assert(acc2[i] == acc[i]);
                        assert(acc.contains(pv));
                    }
                }
            }
        } else {
            let j = choose|j: int|
                0 <= j < lines.skip(1).len() && line_parent(idx, #[trigger] lines.skip(1)[j])
                    == Some(pv);
            assert(lines.skip(1)[j] == lines[j + 1]);
            assert(line_parent(idx, lines[j + 1]) == Some(pv));
        }
    }
}

/// Everything the file fold produces was in the accumulator already or came
/// from a line of its own manifest.
pub proof fn lemma_scan_files_membership(
    contents: Seq<Seq<char>>,
    i: int,
    acc: Seq<ParentView>,
    pv: ParentView,
)
    requires
        scan_files(contents, i, acc).contains(pv),
    ensures
        acc.contains(pv) || (i <= pv.dockerfile < contents.len() && exists|j: int|
            0 <= j < lines_of(contents[pv.dockerfile]).len() && line_parent(
                pv.dockerfile,
                #[trigger] lines_of(contents[pv.dockerfile])[j],
            ) == Some(pv)),
    decreases contents.len() - i,
{
    if 0 <= i < contents.len() {
        let acc2 = scan_lines(i, lines_of(contents[i]), acc);
        lemma_scan_files_membership(contents, i + 1, acc2, pv);
        if acc2.contains(pv) {
            lemma_scan_lines_membership(i, lines_of(contents[i]), acc, pv);
            if !acc.contains(pv) {
                assert(pv.dockerfile == i);
            }
        }
    }
}

/// Every reference the scanner returns comes from a declaration line of its
/// own manifest.
pub proof fn lemma_scan_result_membership(contents: Seq<Seq<char>>, pv: ParentView)
    requires
        scan_result(contents).contains(pv),
    ensures
        0 <= pv.dockerfile < contents.len(),
        exists|j: int|
            0 <= j < lines_of(contents[pv.dockerfile]).len() && line_parent(
                pv.dockerfile,
                #[trigger] lines_of(contents[pv.dockerfile])[j],
            ) == Some(pv),
{
    lemma_scan_files_membership(contents, 0, Seq::<ParentView>::empty(), pv);
}

exec fn last_split_exec(token: &[char]) -> (r: Option<usize>)
    ensures
        match r {
            Some(c) => last_split(token@) == Some(c as int) && 1 <= c && c + 1 < token@.len(),
            None => last_split(token@) is None,
        },
{
    let mut m: usize = token.len();
    while m > 0
        invariant
            m <= token@.len(),
            last_split(token@) == last_split_upto(token@, m as nat),
        decreases m,
    {
        let c = m - 1;
        if token[c] == ':' && c >= 1 && c + 1 < token.len() {
            return Some(c);
        }
        m = c;
    }
    None
}

/// Reads one line: `Ok(Some(..))` for a recognized declaration, `Ok(None)`
/// for a line that is no declaration or carries no version, and a numeric
/// overflow error exactly when the declared tag has an oversized component.
pub exec fn parse_line_chars(dockerfile: usize, line: &[char]) -> (r: Result<
    Option<Parent>,
    BumpError,
>)
    ensures
        r is Err <==> line_overflows(line@),
        r is Err ==> r matches Err(BumpError::NumericOverflow { .. }),
        r matches Ok(o) ==> match line_parent(dockerfile as int, line@) {
            None => o is None,
            Some(pv) => {
                &&& o matches Some(p)
                &&& parent_view(&p) == pv
                &&& p.pattern_spec().segs_spec() == shape_of(pv.tag_name)
                &&& p.pattern_spec().wf()
            },
        },
{
    let n: usize = line.len();
    if !(n >= 5 && line[0] == 'F' && line[1] == 'R' && line[2] == 'O' && line[3] == 'M' && line[4]
        == ' ') {
        proof {
            assert(!is_from_line(line@));
        }
        return Ok(None);
    }
    proof {
        assert(is_from_line(line@));
    }
    let ghost rest0 = line@.skip(4);
    let tok_start = blank_run_end(line, 4);
    proof {
        assert(blank_run(rest0) == tok_start - 4) by {
            assert(rest0 =~= line@.skip(4));
        }
        assert(rest0.skip((tok_start - 4) as int) =~= line@.skip(tok_start as int));
    }
    let ghost rest1 = line@.skip(tok_start as int);
    let tok_end = nonblank_run_end(line, tok_start);
    proof {
        assert(nonblank_run(rest1) == tok_end - tok_start);
    }
    if tok_end == tok_start {
        proof {
            assert(from_line_fields(line@) is None);
        }
        return Ok(None);
    }
    let suf_start = blank_run_end(line, tok_end);
    let ghost after = rest1.skip((tok_end - tok_start) as int);
    proof {
        assert(after =~= line@.skip(tok_end as int));
        assert(blank_run(after) == suf_start - tok_end);
        assert(after.skip(blank_run(after) as int) =~= line@.skip(suf_start as int));
    }
    let token = vstd::slice::slice_subrange(line, tok_start, tok_end);
    proof {
        assert(token@ =~= rest1.take((tok_end - tok_start) as int));
    }
    match last_split_exec(token) {
        None => {
            proof {
                assert(from_line_fields(line@) is None);
            }
            Ok(None)
        },
        Some(c) => {
            let ghost f = from_line_fields(line@)->Some_0;
            let image_v = vstd::slice::slice_to_vec(vstd::slice::slice_subrange(token, 0, c));
            let tag_v = vstd::slice::slice_to_vec(
                vstd::slice::slice_subrange(token, c + 1, token.len()),
            );
            let suffix_v = vstd::slice::slice_to_vec(vstd::slice::slice_subrange(line, suf_start, n));
            proof {
                assert(from_line_fields(line@) is Some);
                assert(image_v@ =~= f.0);
                assert(tag_v@ =~= f.1);
                assert(suffix_v@ =~= f.2);
            }
            let image = chars_to_string(&image_v);
            let tag_str = chars_to_string(&tag_v);
            let suffix = chars_to_string(&suffix_v);
            let pat = tag_to_re(tag_str.as_str());
            proof {
                lemma_shape_round_trip(f.1);
            }
            match parse_tag(&pat, tag_str.as_str()) {
                Ok(tag) => Ok(Some(Parent::new(dockerfile, image, pat, tag, suffix))),
                Err(e) => {
                    proof {
                        assert(e matches BumpError::NumericOverflow { .. });
                    }
                    Err(e)
                },
            }
        },
    }
}

/// Reads one line given as a string; see `parse_line_chars`.
pub exec fn parse_line_from(dockerfile: usize, line: &str) -> (r: Result<Option<Parent>, BumpError>)
    ensures
        r is Err <==> line_overflows(line@),
        r is Err ==> r matches Err(BumpError::NumericOverflow { .. }),
        r matches Ok(o) ==> match line_parent(dockerfile as int, line@) {
            None => o is None,
            Some(pv) => {
                &&& o matches Some(p)
                &&& parent_view(&p) == pv
                &&& p.pattern_spec().segs_spec() == shape_of(pv.tag_name)
                &&& p.pattern_spec().wf()
            },
        },
{
    let cs = str_to_chars(line);
    parse_line_chars(dockerfile, cs.as_slice())
}

exec fn contains_same_identity(v: &Vec<Parent>, p: &Parent) -> (r: bool)
    ensures
        r == views_contain(parents_views(v@), parent_view(p)),
{
    let n: usize = v.len();
    let mut i: usize = 0;
    while i < n
        invariant
            i <= n,
            n == v@.len(),
            forall|j: int|
                0 <= j < i ==> !pv_same_identity(
                    #[trigger] parents_views(v@)[j],
                    parent_view(p),
                ),
        decreases n - i,
    {
        proof {
            assert(parents_views(v@)[i as int] == parent_view(&v@[i as int]));
        }
        let q = &v[i];
        let qn = q.tag().nrs();
        let pn = p.tag().nrs();
        if q.dockerfile() == p.dockerfile() && string_eq(q.image_name(), p.image_name()) && qn.0
            == pn.0 && qn.1 == pn.1 && qn.2 == pn.2 && qn.3 == pn.3 {
            proof {
                assert(pv_same_identity(parents_views(v@)[i as int], parent_view(p)));
            }
            return true;
        }
        i = i + 1;
    }
    false
}

/// Scans every manifest and returns one reference per declared (manifest,
/// image, tag) identity, in scan order. Fails exactly when some declaration's
/// tag has an oversized component.
pub exec fn extract_parents(files: &Vec<Dockerfile>) -> (r: Result<Vec<Parent>, BumpError>)
    ensures
        r is Err <==> any_overflow(files_contents(files@)),
        r is Err ==> r matches Err(BumpError::NumericOverflow { .. }),
        r matches Ok(ps) ==> ({
            &&& parents_views(ps@) == scan_result(files_contents(files@))
            &&& forall|i: int|
                0 <= i < ps@.len() ==> {
                    &&& 0 <= (#[trigger] ps@[i]).dockerfile_spec() < files@.len()
                    &&& ps@[i].pattern_spec().segs_spec() == shape_of(ps@[i].tag_spec().name_spec())
                    &&& ps@[i].pattern_spec().wf()
                }
        }),
{
    let ghost contents = files_contents(files@);
    let nf: usize = files.len();
    let mut acc: Vec<Parent> = Vec::new();
    let mut fi: usize = 0;
    proof {
        assert(parents_views(acc@) =~= Seq::<ParentView>::empty());
    }
    while fi < nf
        invariant
            fi <= nf,
            nf == files@.len(),
            contents == files_contents(files@),
            scan_files(contents, fi as int, parents_views(acc@)) == scan_result(contents),
            forall|f: int| 0 <= f < fi ==> !file_overflows(#[trigger] contents[f]),
            forall|i: int|
                0 <= i < acc@.len() ==> {
                    &&& 0 <= (#[trigger] acc@[i]).dockerfile_spec() < files@.len()
                    &&& acc@[i].pattern_spec().segs_spec() == shape_of(
                        acc@[i].tag_spec().name_spec(),
                    )
                    &&& acc@[i].pattern_spec().wf()
                },
        decreases nf - fi,
    {
        let cs = str_to_chars(files[fi].content().as_str());
        proof {
            assert(contents[fi as int] == files@[fi as int].content_spec());
        }
        let lines = split_lines(cs.as_slice());
        let ghost ls = lines_of(contents[fi as int]);
        proof {
            assert(crate::pattern::caps_view(lines@) == ls);
        }
        let nl: usize = lines.len();
        let mut li: usize = 0;
        proof {
            assert(ls.skip(0) =~= ls);
            assert(scan_files(contents, fi as int, parents_views(acc@)) == scan_files(
                contents,
                fi + 1,
                scan_lines(fi as int, ls, parents_views(acc@)),
            ));
        }
        while li < nl
            invariant
                li <= nl,
                fi < nf,
                nf == files@.len(),
                nl == lines@.len(),
                contents == files_contents(files@),
                ls == lines_of(contents[fi as int]),
                crate::pattern::caps_view(lines@) == ls,
                scan_files(
                    contents,
                    fi + 1,
                    scan_lines(fi as int, ls.skip(li as int), parents_views(acc@)),
                ) == scan_result(contents),
                forall|j: int| 0 <= j < li ==> !line_overflows(#[trigger] ls[j]),
                forall|f: int| 0 <= f < fi ==> !file_overflows(#[trigger] contents[f]),
                forall|i: int|
                    0 <= i < acc@.len() ==> {
                        &&& 0 <= (#[trigger] acc@[i]).dockerfile_spec() < files@.len()
                        &&& acc@[i].pattern_spec().segs_spec() == shape_of(
                            acc@[i].tag_spec().name_spec(),
                        )
                        &&& acc@[i].pattern_spec().wf()
                    },
            decreases nl - li,
        {
            let ghost rest = ls.skip(li as int);
            proof {
                assert(lines@[li as int]@ == crate::pattern::caps_view(lines@)[li as int]);
                assert(rest[0] == ls[li as int]);
                assert(rest.skip(1) =~= ls.skip(li as int + 1));
            }
            match parse_line_chars(fi, lines[li].as_slice()) {
                Err(e) => {
                    proof {
                        assert(line_overflows(ls[li as int]));
                        assert(file_overflows(contents[fi as int]));
                        assert(any_overflow(contents));
                    }
                    return Err(e);
                },
                Ok(None) => {
                    proof {
                        assert(line_parent(fi as int, rest[0]) is None);
                        assert(scan_lines(fi as int, rest, parents_views(acc@)) == scan_lines(
                            fi as int,
                            ls.skip(li as int + 1),
                            parents_views(acc@),
                        ));
                    }
                },
                Ok(Some(p)) => {
                    let ghost pv = parent_view(&p);
                    proof {
                        assert(line_parent(fi as int, rest[0]) == Some(pv));
                    }
                    if !contains_same_identity(&acc, &p) {
                        let ghost pre = acc@;
                        acc.push(p);
                        proof {
                            assert(parents_views(acc@) =~= parents_views(pre).push(pv));
                            assert(scan_lines(fi as int, rest, parents_views(pre)) == scan_lines(
                                fi as int,
                                ls.skip(li as int + 1),
                                parents_views(acc@),
                            ));
                            assert forall|i: int| 0 <= i < acc@.len() implies {
                                &&& 0 <= (#[trigger] acc@[i]).dockerfile_spec() < files@.len()
                                &&& acc@[i].pattern_spec().segs_spec() == shape_of(
                                    acc@[i].tag_spec().name_spec(),
                                )
                                &&& acc@[i].pattern_spec().wf()
                            } by {
                                if i < pre.len() {
                                    assert(acc@[i] == pre[i]);
                                }
                            }
                        }
                    } else {
                        proof {
                            assert(scan_lines(fi as int, rest, parents_views(acc@)) == scan_lines(
                                fi as int,
                                ls.skip(li as int + 1),
                                parents_views(acc@),
                            ));
                        }
                    }
                },
            }
            li = li + 1;
        }
        proof {
            assert(ls.skip(nl as int) =~= Seq::<Seq<char>>::empty());
            assert(scan_lines(fi as int, ls.skip(nl as int), parents_views(acc@))
                == parents_views(acc@));
            assert(!file_overflows(contents[fi as int]));
        }
        fi = fi + 1;
    }
    proof {
        assert(!any_overflow(contents));
        assert(scan_files(contents, nf as int, parents_views(acc@)) == parents_views(acc@));
    }
    Ok(acc)
}

} // verus!
