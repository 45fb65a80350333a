//! The candidate ranker: pulls tag-name fields out of raw registry metadata,
//! keeps the candidates whose literal text matches the reference's pattern,
//! and selects the highest one the policy allows.

use vstd::prelude::*;
use vstd::multiset::Multiset;
use vstd::string::StringExecFns;

use crate::chars::{space_run, stop_run, str_to_chars};
use crate::convert::{caps_fit_u32, caps_nrs, parse_tag};
use crate::data::{nrs_le, Parent, Tag};
use crate::errors::BumpError;
use crate::pattern::{caps_view, pat_caps, pat_matches, SegView};

verus! {

/// The seven characters that introduce a tag-name field in the metadata.
pub open spec fn name_key() -> Seq<char> {
    seq!['"', 'n', 'a', 'm', 'e', '"', ':']
}

/// A tag-name field starting at position `i`: the key, optional whitespace,
/// and a quoted value. `Some((end, value))` gives the position after the
/// closing quote and the value between the quotes; an unterminated value is
/// no field.
pub open spec fn name_at(s: Seq<char>, i: int) -> Option<(int, Seq<char>)> {
    if !(0 <= i && i + 7 <= s.len() && s.subrange(i, i + 7) == name_key()) {
        None
    } else {
        let k = i + 7 + space_run(s.skip(i + 7));
        if !(k < s.len() && s[k] == '"') {
            None
        } else {
            let close = k + 1 + stop_run('"', s.skip(k + 1));
            if close < s.len() {
                Some((close + 1, s.subrange(k + 1, close)))
            } else {
                None
            }
        }
    }
}

/// All tag-name fields at or after position `i`, scanning left to right and
/// resuming after each field's closing quote.
pub open spec fn names_from(s: Seq<char>, i: int) -> Seq<Seq<char>>
    decreases s.len() - i,
    via names_from_dec
{
    if !(0 <= i < s.len()) {
        Seq::<Seq<char>>::empty()
    } else {
        match name_at(s, i) {
            Some(f) => seq![f.1] + names_from(s, f.0),
            None => names_from(s, i + 1),
        }
    }
}

#[via_fn]
proof fn names_from_dec(s: Seq<char>, i: int) {
    if 0 <= i < s.len() && name_at(s, i) is Some {
        lemma_name_at_bounds(s, i);
    }
}

/// A recognized field ends after its start and within the text.
pub proof fn lemma_name_at_bounds(s: Seq<char>, i: int)
    requires
        name_at(s, i) is Some,
    ensures
        i < name_at(s, i)->Some_0.0 <= s.len(),
{
    crate::chars::lemma_space_run_le(s.skip(i + 7));
    let k = i + 7 + space_run(s.skip(i + 7));
    crate::chars::lemma_stop_run_le('"', s.skip(k + 1));
}

/// The candidate tag names in a metadata text.
pub open spec fn candidates_of(s: Seq<char>) -> Seq<Seq<char>> {
    names_from(s, 0)
}

/// Extracts every tag-name field from the metadata text.
pub exec fn find_name_fields(s: &[char]) -> (r: Vec<Vec<char>>)
    ensures
        caps_view(r@) == candidates_of(s@),
{
    let n: usize = s.len();
    let mut acc: Vec<Vec<char>> = Vec::new();
    let mut i: usize = 0;
    proof {
        assert(caps_view(acc@) =~= Seq::<Seq<char>>::empty());
        assert(candidates_of(s@) == caps_view(acc@) + names_from(s@, 0));
    }
    while i < n
        invariant
            i <= n,
            n == s@.len(),
            candidates_of(s@) == caps_view(acc@) + names_from(s@, i as int),
        decreases n - i,
    {
        let mut matched: bool = false;
        if n - i >= 7 && s[i] == '"' && s[i + 1] == 'n' && s[i + 2] == 'a' && s[i + 3] == 'm' && s[i
            + 4] == 'e' && s[i + 5] == '"' && s[i + 6] == ':' {
            proof {
                assert(s@.subrange(i as int, i + 7) =~= name_key());
            }
            let k = crate::chars::space_run_end(s, i + 7);
            proof {
                assert(s@.skip(i + 7) =~= s@.skip(i as int + 7));
                assert(k - (i + 7) == space_run(s@.skip(i as int + 7)));
            }
            if k < n && s[k] == '"' {
                let close = crate::chars::stop_run_end(s, k + 1, '"');
                proof {
                    assert(close - (k + 1) == stop_run('"', s@.skip(k as int + 1)));
                }
                if close < n {
                    let cap = vstd::slice::slice_to_vec(
                        vstd::slice::slice_subrange(s, k + 1, close),
                    );
                    let ghost pre = acc@;
                    acc.push(cap);
                    proof {
                        assert(name_at(s@, i as int) == Some(
                            (close as int + 1, s@.subrange(k as int + 1, close as int)),
                        ));
                        assert(names_from(s@, i as int) == seq![
                            s@.subrange(k as int + 1, close as int),
                        ] + names_from(s@, close as int + 1));
                        assert(caps_view(acc@) =~= caps_view(pre) + seq![
                            s@.subrange(k as int + 1, close as int),
                        ]);
                        assert(caps_view(pre) + (seq![s@.subrange(k as int + 1, close as int)]
                            + names_from(s@, close as int + 1)) =~= caps_view(acc@) + names_from(
                            s@,
                            close as int + 1,
                        ));
                    }
                    i = close + 1;
                    matched = true;
                } else {
                    proof {
                        assert(name_at(s@, i as int) is None);
                    }
                }
            } else {
                proof {
                    assert(name_at(s@, i as int) is None);
                }
            }
        } else {
            proof {
                if i + 7 <= n {
                    assert(s@.subrange(i as int, i + 7) == name_key() ==> {
                        &&& s@.subrange(i as int, i + 7)[0] == '"'
                        &&& s@.subrange(i as int, i + 7)[1] == 'n'
                        &&& s@.subrange(i as int, i + 7)[2] == 'a'
                        &&& s@.subrange(i as int, i + 7)[3] == 'm'
                        &&& s@.subrange(i as int, i + 7)[4] == 'e'
                        &&& s@.subrange(i as int, i + 7)[5] == '"'
                        &&& s@.subrange(i as int, i + 7)[6] == ':'
                    });
                }
                assert(name_at(s@, i as int) is None);
            }
        }
        if !matched {
            proof {
                assert(names_from(s@, i as int) == names_from(s@, i as int + 1));
            }
            i = i + 1;
        }
    }
    proof {
        assert(names_from(s@, n as int) == Seq::<Seq<char>>::empty());
        assert(caps_view(acc@) + Seq::<Seq<char>>::empty() =~= caps_view(acc@));
    }
    acc
}

/// The components a matching candidate stands for.
pub open spec fn cand_nrs(segs: Seq<SegView>, cand: Seq<char>) -> (u32, u32, u32, u32) {
    caps_nrs(pat_caps(segs, cand))
}

/// A candidate that matches the pattern but has an oversized component: a
/// fatal condition, not a filtered one.
pub open spec fn cand_overflows(segs: Seq<SegView>, cand: Seq<char>) -> bool {
    pat_matches(segs, cand) && !caps_fit_u32(pat_caps(segs, cand))
}

pub open spec fn any_cand_overflow(segs: Seq<SegView>, cands: Seq<Seq<char>>) -> bool {
    exists|i: int| 0 <= i < cands.len() && cand_overflows(segs, #[trigger] cands[i])
}

/// A candidate the policy accepts: it matches the reference's pattern, its
/// components fit, it does not degrade the current version, and without the
/// major-bump allowance it keeps the major component.
pub open spec fn eligible(
    segs: Seq<SegView>,
    cur: (u32, u32, u32, u32),
    bump_major: bool,
    cand: Seq<char>,
) -> bool {
    &&& pat_matches(segs, cand)
    &&& caps_fit_u32(pat_caps(segs, cand))
    &&& nrs_le(cur, cand_nrs(segs, cand))
    &&& (bump_major || cand_nrs(segs, cand).0 == cur.0)
}

/// The winning candidate and its components: the highest eligible one, the
/// latest-seen winning among equal components. This tie-break is deliberate
/// and fixed.
pub open spec fn best_candidate(
    segs: Seq<SegView>,
    cur: (u32, u32, u32, u32),
    bump_major: bool,
    cands: Seq<Seq<char>>,
) -> Option<(Seq<char>, (u32, u32, u32, u32))>
    decreases cands.len(),
{
    if cands.len() == 0 {
        None
    } else {
        let prev = best_candidate(segs, cur, bump_major, cands.drop_last());
        let c = cands.last();
        if eligible(segs, cur, bump_major, c) {
            match prev {
                None => Some((c, cand_nrs(segs, c))),
                Some(p) => if nrs_le(p.1, cand_nrs(segs, c)) {
                    Some((c, cand_nrs(segs, c)))
                } else {
                    prev
                },
            }
        } else {
            prev
        }
    }
}

/// Selects the replacement tag for `parent` out of raw registry metadata:
/// extracts candidate names, keeps those matching the reference's pattern,
/// never degrades the current version, holds the major component unless the
/// bump is allowed, and returns the highest survivor (the latest-seen among
/// equals). Fails with a numeric overflow exactly when a matching candidate
/// has an oversized component, and reports no eligible version — naming the
/// current tag — exactly when no candidate survives.
pub exec fn find_highest(parent: &Parent, data: &str, bump_major: bool) -> (r: Result<
    Tag,
    BumpError,
>)
    ensures
        ({
            let segs = parent.pattern_spec().segs_spec();
            let cur = parent.tag_spec().nrs_spec();
            let cands = candidates_of(data@);
            &&& ((r matches Err(BumpError::NumericOverflow { .. })) <==> any_cand_overflow(
                segs,
                cands,
            ))
            &&& (!any_cand_overflow(segs, cands) ==> (match best_candidate(
                segs,
                cur,
                bump_major,
                cands,
            ) {
                None => r matches Err(BumpError::NoEligibleVersion { current }) && current@
                    == parent.tag_spec().name_spec(),
                Some(b) => r matches Ok(t) && t.name_spec() == b.0 && t.nrs_spec() == b.1,
            }))
            &&& (r matches Ok(t) ==> nrs_le(cur, t.nrs_spec()))
            &&& (r matches Ok(t) ==> (!bump_major ==> t.nrs_spec().0 == cur.0))
        }),
{
    let ghost segs = parent.pattern_spec().segs_spec();
    let ghost cur = parent.tag_spec().nrs_spec();
    let cs = str_to_chars(data);
    let cands = find_name_fields(cs.as_slice());
    let ghost cv = candidates_of(data@);
    proof {
        assert(caps_view(cands@) == cv);
    }
    let n: usize = cands.len();
    let mut best: Option<Tag> = None;
    let mut i: usize = 0;
    proof {
        assert(cv.take(0) =~= Seq::<Seq<char>>::empty());
    }
    while i < n
        invariant
            i <= n,
            n == cands@.len(),
            caps_view(cands@) == cv,
            cv == candidates_of(data@),
            segs == parent.pattern_spec().segs_spec(),
            cur == parent.tag_spec().nrs_spec(),
            forall|j: int| 0 <= j < i ==> !cand_overflows(segs, #[trigger] cv[j]),
            match best {
                None => best_candidate(segs, cur, bump_major, cv.take(i as int)) is None,
                Some(bt) => best_candidate(segs, cur, bump_major, cv.take(i as int)) == Some(
                    (bt.name_spec(), bt.nrs_spec()),
                ),
            },
        decreases n - i,
    {
        let ghost c = cv[i as int];
        proof {
            assert(cands@[i as int]@ == caps_view(cands@)[i as int]);
            assert(cv.take(i as int + 1).drop_last() =~= cv.take(i as int));
            assert(cv.take(i as int + 1).last() == c);
        }
        let name = crate::chars::chars_to_string(&cands[i]);
        match parse_tag(parent.tag_pattern(), name.as_str()) {
            Err(e) => {
                if let BumpError::NumericOverflow { .. } = e {
                    proof {
                        assert(cand_overflows(segs, cv[i as int]));
                        assert(cand_overflows(segs, candidates_of(data@)[i as int]));
                        assert(any_cand_overflow(segs, candidates_of(data@)));
                    }
                    return Err(e);
                }
                proof {
                    assert(!pat_matches(segs, c));
                    assert(!eligible(segs, cur, bump_major, c));
                    assert(!cand_overflows(segs, c));
                }
            },
            Ok(t) => {
                proof {
                    assert(pat_matches(segs, c) && caps_fit_u32(pat_caps(segs, c)));
                    assert(!cand_overflows(segs, c));
                    assert(t.nrs_spec() == cand_nrs(segs, c));
                    assert(t.name_spec() == c);
                }
                let keeps_major = bump_major || t.major() == parent.tag().major();
                let no_downgrade = parent.tag().le_tag(&t);
                if keeps_major && no_downgrade {
                    proof {
                        assert(eligible(segs, cur, bump_major, c));
                    }
                    match &best {
                        None => {
                            best = Some(t);
                        },
                        Some(b) => {
                            if b.le_tag(&t) {
                                best = Some(t);
                            }
                        },
                    }
                } else {
                    proof {
                        assert(!eligible(segs, cur, bump_major, c));
                    }
                }
            },
        }
        i = i + 1;
    }
    proof {
        assert(cv.take(n as int) =~= cv);
        assert forall|j: int| 0 <= j < candidates_of(data@).len() implies !cand_overflows(
            segs,
            #[trigger] candidates_of(data@)[j],
        ) by {
            assert(!cand_overflows(segs, cv[j]));
        }
        assert(!any_cand_overflow(segs, candidates_of(data@)));
    }
    match best {
        Some(t) => {
            proof {
                lemma_best_eligible(segs, cur, bump_major, cv);
            }
            Ok(t)
        },
        None => Err(BumpError::NoEligibleVersion { current: parent.tag().name().clone() }),
    }
}

/// The location of an image's tag listing on the registry.
pub open spec fn tags_url_spec(image: Seq<char>) -> Seq<char> {
    "https://registry.hub.docker.com/v1/repositories/"@ + image + "/tags"@
}

/// Builds the URL the tag listing of `image` is fetched from.
pub exec fn registry_tags_url(image: &String) -> (r: String)
    ensures
        r@ == tags_url_spec(image@),
{
    let mut m = String::new();
    m.append("https://registry.hub.docker.com/v1/repositories/");
    m.append(image.as_str());
    m.append("/tags");
    m
}

/// Order of resolutions for a reproducible final listing: by owning manifest
/// first, then by image name.
pub open spec fn res_le(a: (Parent, Tag), b: (Parent, Tag)) -> bool {
    ||| a.0.dockerfile_spec() < b.0.dockerfile_spec()
    ||| (a.0.dockerfile_spec() == b.0.dockerfile_spec() && crate::chars::seq_char_le(
        a.0.image_spec(),
        b.0.image_spec(),
    ))
}

pub proof fn lemma_res_le_total(a: (Parent, Tag), b: (Parent, Tag))
    ensures
        res_le(a, b) || res_le(b, a),
{
    crate::chars::lemma_seq_char_le_total(a.0.image_spec(), b.0.image_spec());
}

pub proof fn lemma_res_le_trans(a: (Parent, Tag), b: (Parent, Tag), c: (Parent, Tag))
    requires
        res_le(a, b),
        res_le(b, c),
    ensures
        res_le(a, c),
{
    if a.0.dockerfile_spec() == b.0.dockerfile_spec() && b.0.dockerfile_spec()
        == c.0.dockerfile_spec() {
        crate::chars::lemma_seq_char_le_trans(
            a.0.image_spec(),
            b.0.image_spec(),
            c.0.image_spec(),
        );
    }
}

exec fn res_le_exec(a: &(Parent, Tag), b: &(Parent, Tag)) -> (r: bool)
    ensures
        r == res_le(*a, *b),
{
    let da = a.0.dockerfile();
    let db = b.0.dockerfile();
    if da != db {
        da < db
    } else {
        crate::chars::str_le(a.0.image_name(), b.0.image_name())
    }
}

/// Brings resolutions into the reproducible order — by manifest, then image
/// name — whatever order the registry answers arrived in: the result is a
/// permutation of the input, sorted by that key.
pub exec fn order_resolutions(rs: Vec<(Parent, Tag)>) -> (r: Vec<(Parent, Tag)>)
    ensures
        r@.to_multiset() == rs@.to_multiset(),
        forall|i: int, j: int| 0 <= i < j < r@.len() ==> res_le(#[trigger] r@[i], #[trigger] r@[j]),
{
    let mut work = rs;
    let mut out: Vec<(Parent, Tag)> = Vec::new();
    proof {
        broadcast use vstd::multiset::group_multiset_axioms;
        broadcast use vstd::seq_lib::group_to_multiset_ensures;

        assert(out@.to_multiset() =~= Multiset::<(Parent, Tag)>::empty());
        assert(out@.to_multiset().add(work@.to_multiset()) =~= rs@.to_multiset());
    }
    while work.len() > 0
        invariant
            out@.to_multiset().add(work@.to_multiset()) == rs@.to_multiset(),
            forall|i: int, j: int|
                0 <= i < j < out@.len() ==> res_le(#[trigger] out@[i], #[trigger] out@[j]),
            forall|i: int, j: int|
                0 <= i < out@.len() && 0 <= j < work@.len() ==> res_le(
                    #[trigger] out@[i],
                    #[trigger] work@[j],
                ),
        decreases work@.len(),
    {
        let n: usize = work.len();
        let mut m: usize = 0;
        let mut j: usize = 1;
        proof {
            lemma_res_le_total(work@[0], work@[0]);
        }
        while j < n
            invariant
                n == work@.len(),
                m < j,
                1 <= j <= n,
                forall|k: int| 0 <= k < j ==> res_le(work@[m as int], #[trigger] work@[k]),
            decreases n - j,
        {
            if !res_le_exec(&work[m], &work[j]) {
                proof {
                    lemma_res_le_total(work@[m as int], work@[j as int]);
                    lemma_res_le_total(work@[j as int], work@[j as int]);
                    assert forall|k: int| 0 <= k < j + 1 implies res_le(
                        work@[j as int],
                        #[trigger] work@[k],
                    ) by {
                        if k < j {
                            lemma_res_le_trans(work@[j as int], work@[m as int], work@[k]);
                        }
                    }
                }
                m = j;
            }
            j = j + 1;
        }
        let ghost pre_work = work@;
        let ghost pre_out = out@;
        let e = work.remove(m);
        out.push(e);
        proof {
            broadcast use vstd::multiset::group_multiset_axioms;

            assert(work@ == pre_work.remove(m as int));
            assert(e == pre_work[m as int]);
            vstd::seq_lib::to_multiset_remove(pre_work, m as int);
            assert(out@ == pre_out.push(e));
            vstd::seq_lib::to_multiset_build(pre_out, e);
            vstd::seq_lib::to_multiset_contains(pre_work, e);
            assert(pre_work.contains(e)) by {
                assert(pre_work[m as int] == e);
            }
            assert(pre_work.to_multiset().count(e) > 0);
            assert(out@.to_multiset().add(work@.to_multiset()) =~= pre_out.to_multiset().add(
                pre_work.to_multiset(),
            ));
            assert forall|i: int, j2: int|
                0 <= i < out@.len() && 0 <= j2 < work@.len() implies res_le(
                #[trigger] out@[i],
                #[trigger] work@[j2],
            ) by {
                if j2 < m {
                    assert(work@[j2] == pre_work[j2]);
                } else {
                    assert(work@[j2] == pre_work[j2 + 1]);
                }
                if i < pre_out.len() {
                    assert(out@[i] == pre_out[i]);
                } else {
                    assert(out@[i] == e);
                }
            }
            assert forall|i: int, j2: int|
                0 <= i < j2 < out@.len() implies res_le(#[trigger] out@[i], #[trigger] out@[j2]) by {
                if j2 < pre_out.len() {
                    assert(out@[i] == pre_out[i] && out@[j2] == pre_out[j2]);
                } else {
                    assert(out@[j2] == e);
                    assert(res_le(pre_out[i], pre_work[m as int]));
                }
            }
        }
    }
    proof {
        broadcast use vstd::multiset::group_multiset_axioms;
        broadcast use vstd::seq_lib::group_to_multiset_ensures;

        assert(work@.to_multiset() =~= Multiset::<(Parent, Tag)>::empty());
        assert(out@.to_multiset().add(work@.to_multiset()) =~= out@.to_multiset());
    }
    out
}

/// The winner is itself eligible.
pub proof fn lemma_best_eligible(
    segs: Seq<SegView>,
    cur: (u32, u32, u32, u32),
    bump_major: bool,
    cands: Seq<Seq<char>>,
)
    requires
        best_candidate(segs, cur, bump_major, cands) is Some,
    ensures
        ({
            let b = best_candidate(segs, cur, bump_major, cands)->Some_0;
            &&& eligible(segs, cur, bump_major, b.0)
            &&& b.1 == cand_nrs(segs, b.0)
        }),
    decreases cands.len(),
{
    if cands.len() > 0 {
        if best_candidate(segs, cur, bump_major, cands.drop_last()) is Some {
            lemma_best_eligible(segs, cur, bump_major, cands.drop_last());
        }
    }
}

} // verus!
