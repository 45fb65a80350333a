//! Turning a matched tag string into a `Tag`: the captured digit runs become
//! the numeric components, zero-padded on the right past the last group.

use vstd::prelude::*;

use crate::chars::{chars_to_string, digits_to_u32, digits_val, str_to_chars};
use crate::data::Tag;
use crate::errors::BumpError;
use crate::pattern::{
    caps_wf, lemma_match_caps_wf, lemma_shape_round_trip, pat_caps, pat_matches, render_segs,
    shape_of, tag_to_re, Pattern,
};

verus! {

/// The numeric value of group `i`, zero when the pattern has fewer groups.
pub open spec fn cap_nr(caps: Seq<Seq<char>>, i: int) -> nat {
    if 0 <= i < caps.len() {
        digits_val(caps[i])
    } else {
        0
    }
}

/// All four components fit the numeric width.
pub open spec fn caps_fit_u32(caps: Seq<Seq<char>>) -> bool {
    forall|i: int| 0 <= i < 4 ==> cap_nr(caps, i) <= u32::MAX
}

/// The component tuple a list of captures stands for.
pub open spec fn caps_nrs(caps: Seq<Seq<char>>) -> (u32, u32, u32, u32) {
    (
        cap_nr(caps, 0) as u32,
        cap_nr(caps, 1) as u32,
        cap_nr(caps, 2) as u32,
        cap_nr(caps, 3) as u32,
    )
}

/// Numeric value of capture group `i`, zero when absent; the counterpart of
/// reading an optional regex group.
exec fn group_nr(caps: &Vec<Vec<char>>, i: usize) -> (r: Result<u32, BumpError>)
    requires
        caps_wf(crate::pattern::caps_view(caps@)),
    ensures
        r matches Ok(v) ==> cap_nr(crate::pattern::caps_view(caps@), i as int) <= u32::MAX && v
            == cap_nr(crate::pattern::caps_view(caps@), i as int),
        r is Err ==> cap_nr(crate::pattern::caps_view(caps@), i as int) > u32::MAX && (r
            matches Err(BumpError::NumericOverflow { .. })),
{
    let ghost cv = crate::pattern::caps_view(caps@);
    if i < caps.len() {
        proof {
            assert(cv[i as int] == caps@[i as int]@);
        }
        match digits_to_u32(&caps[i]) {
            Some(v) => Ok(v),
            None => Err(BumpError::NumericOverflow { digits: chars_to_string(&caps[i]) }),
        }
    } else {
        Ok(0)
    }
}

/// Matches `tag` in full against `tag_pattern` and reads up to four numeric
/// components from the captured groups. Fails with a pattern mismatch when
/// the tag does not match, and with a numeric overflow when a read component
/// does not fit; succeeds on exactly the remaining inputs.
pub exec fn parse_tag(tag_pattern: &Pattern, tag: &str) -> (r: Result<Tag, BumpError>)
    ensures
        r is Ok <==> pat_matches(tag_pattern.segs_spec(), tag@) && caps_fit_u32(
            pat_caps(tag_pattern.segs_spec(), tag@),
        ),
        r matches Ok(t) ==> {
            &&& pat_matches(tag_pattern.segs_spec(), tag@)
            &&& caps_fit_u32(pat_caps(tag_pattern.segs_spec(), tag@))
            &&& t.name_spec() == tag@
            &&& t.nrs_spec() == caps_nrs(pat_caps(tag_pattern.segs_spec(), tag@))
        },
        !pat_matches(tag_pattern.segs_spec(), tag@) <==> (r matches Err(
            BumpError::PatternMismatch { .. },
        )),
        pat_matches(tag_pattern.segs_spec(), tag@) && !caps_fit_u32(
            pat_caps(tag_pattern.segs_spec(), tag@),
        ) <==> (r matches Err(BumpError::NumericOverflow { .. })),
{
    let cs = str_to_chars(tag);
    match tag_pattern.captures_chars(cs.as_slice()) {
        None => Err(
            BumpError::PatternMismatch {
                tag: tag.to_owned(),
                pattern: tag_pattern.as_str().to_owned(),
            },
        ),
        Some(caps) => {
            let ghost cv = crate::pattern::caps_view(caps@);
            proof {
                lemma_match_caps_wf(tag_pattern.segs_spec(), tag@);
            }
            let n0 = match group_nr(&caps, 0) {
                Ok(v) => v,
                Err(e) => {
                    return Err(e);
                },
            };
            let n1 = match group_nr(&caps, 1) {
                Ok(v) => v,
                Err(e) => {
                    return Err(e);
                },
            };
            let n2 = match group_nr(&caps, 2) {
                Ok(v) => v,
                Err(e) => {
                    return Err(e);
                },
            };
            let n3 = match group_nr(&caps, 3) {
                Ok(v) => v,
                Err(e) => {
                    return Err(e);
                },
            };
            Ok(Tag::new(tag.to_owned(), (n0, n1, n2, n3)))
        },
    }
}

/// Round trip: a tag literal always matches its own derived pattern, and the
/// components read from the match are the values of its digit runs,
/// zero-padded on the right — whenever those values fit the component width.
pub proof fn lemma_parse_round_trip(t: Seq<char>)
    requires
        caps_fit_u32(crate::pattern::digit_runs(t)),
    ensures
        pat_matches(shape_of(t), t),
        caps_nrs(pat_caps(shape_of(t), t)) == caps_nrs(crate::pattern::digit_runs(t)),
{
    lemma_shape_round_trip(t);
}

/// The regex text of the pattern derived for a tag literal.
pub exec fn tag_re_str(tag_str: &str) -> (r: String)
    ensures
        r@ == render_segs(shape_of(tag_str@)),
{
    let p = tag_to_re(tag_str);
    p.as_str().to_owned()
}

} // verus!
