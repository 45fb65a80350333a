use dockerfile_version_bumper::convert::parse_tag;
use dockerfile_version_bumper::data::{Parent, Tag};
use dockerfile_version_bumper::errors::BumpError;
use dockerfile_version_bumper::pattern::tag_to_re;
use dockerfile_version_bumper::uptag::find_highest;

static TAGS_JSON: &str = "[\
        {\"layer\": \"\", \"name\": \"2.5.1-full\"}, \
        {\"layer\": \"\", \"name\": \"3.6.6-full\"}, \
        {\"layer\": \"\", \"name\": \"3.6.6-alpine-perl\"}, \
        {\"layer\": \"\", \"name\": \"2.4.1-alpine\"}, \
        {\"layer\": \"\", \"name\": \"3.5.2-alpine\"}, \
        {\"layer\": \"\", \"name\": \"1.9.9-alpine\"}]";

fn parent_with_tag(tag_str: &str) -> Parent {
    let pat = tag_to_re(tag_str);
    let tag = parse_tag(&pat, tag_str).unwrap();
    Parent::new(0, "".to_owned(), pat, tag, "AS build".to_owned())
}

#[test]
fn bump_minor() {
    let parent = parent_with_tag("2.2.8-alpine");
    let highest = find_highest(&parent, TAGS_JSON, false);
    assert_eq!(highest.unwrap(), Tag::new("2.4.1-alpine".to_owned(), (2, 4, 1, 0)));
}

#[test]
fn bump_major() {
    let parent = parent_with_tag("2.2.8-alpine");
    let highest = find_highest(&parent, TAGS_JSON, true);
    assert_eq!(highest.unwrap(), Tag::new("3.5.2-alpine".to_owned(), (3, 5, 2, 0)));
}

#[test]
fn current_tag_itself_when_nothing_higher() {
    // the current tag is in the registry and no higher same-major candidate is
    let parent = parent_with_tag("2.4.1-alpine");
    let highest = find_highest(&parent, TAGS_JSON, false).unwrap();
    assert_eq!(highest.name().as_str(), "2.4.1-alpine");
    let highest_major = find_highest(&parent, TAGS_JSON, true).unwrap();
    assert_eq!(highest_major.name().as_str(), "3.5.2-alpine");
}

#[test]
fn never_degrades_below_current() {
    // only lower-versioned candidates match: the current tag is not offered
    let parent = parent_with_tag("9.9.9-alpine");
    let e = find_highest(&parent, TAGS_JSON, true).unwrap_err();
    assert!(matches!(e, BumpError::NoEligibleVersion { .. }));
    assert_eq!(e.message(), "could not find the version 9.9.9-alpine nor any higher ones");
}

#[test]
fn major_component_held_without_allowance() {
    // candidates exist only under a higher major version
    let tags = "{\"name\": \"2.0.0-x\"}";
    let parent = parent_with_tag("1.5.0-x");
    let e = find_highest(&parent, tags, false).unwrap_err();
    assert!(matches!(e, BumpError::NoEligibleVersion { .. }));
    let t = find_highest(&parent, tags, true).unwrap();
    assert_eq!(t.name().as_str(), "2.0.0-x");
    assert_eq!(t.major(), 2);
}

#[test]
fn name_fields_tolerate_whitespace_and_junk() {
    let tags = "junk \"name\":   \"1.6.0-x\" more junk \"name\":\n\"1.7.2-x\" \"name\": \"broken";
    let parent = parent_with_tag("1.5.0-x");
    let t = find_highest(&parent, tags, false).unwrap();
    assert_eq!(t.name().as_str(), "1.7.2-x");
    assert_eq!(t.nrs(), (1, 7, 2, 0));
}

#[test]
fn empty_metadata_is_no_eligible_version() {
    let parent = parent_with_tag("1.5.0-x");
    let e = find_highest(&parent, "[]", false).unwrap_err();
    assert!(matches!(e, BumpError::NoEligibleVersion { .. }));
}

#[test]
fn overflowing_matching_candidate_is_fatal() {
    let tags = "{\"name\": \"6000000000.0.0-x\"}";
    let parent = parent_with_tag("1.5.0-x");
    let e = find_highest(&parent, tags, true).unwrap_err();
    assert!(matches!(e, BumpError::NumericOverflow { .. }));
}

#[test]
fn order_resolutions_sorts_by_manifest_then_image() {
    let mk = |idx: usize, image: &str, tag_str: &str| {
        let pat = tag_to_re(tag_str);
        let tag = parse_tag(&pat, tag_str).unwrap();
        let new_tag = Tag::new(tag_str.to_owned(), tag.nrs());
        (Parent::new(idx, image.to_owned(), pat, tag, "".to_owned()), new_tag)
    };
    let rs = vec![mk(1, "zeta", "1.0.0"), mk(0, "beta", "1.0.0"), mk(1, "alpha", "1.0.0"), mk(
        0, "alpha", "2.0.0",
    )];
    let sorted = dockerfile_version_bumper::uptag::order_resolutions(rs);
    let keys: Vec<(usize, String)> =
        sorted.iter().map(|r| (r.0.dockerfile(), r.0.image_name().clone())).collect();
    assert_eq!(
        keys,
        vec![
            (0, "alpha".to_owned()),
            (0, "beta".to_owned()),
            (1, "alpha".to_owned()),
            (1, "zeta".to_owned()),
        ]
    );
}

#[test]
fn registry_url_for_image() {
    assert_eq!(
        dockerfile_version_bumper::uptag::registry_tags_url(&"mverleg/base".to_owned()),
        "https://registry.hub.docker.com/v1/repositories/mverleg/base/tags"
    );
}
