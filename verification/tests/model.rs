use dockerfile_version_bumper::convert::{parse_tag, tag_re_str};
use dockerfile_version_bumper::data::Tag;
use dockerfile_version_bumper::errors::BumpError;
use dockerfile_version_bumper::pattern::tag_to_re;
use dockerfile_version_bumper::TagUp;
use dockerfile_version_bumper::{render_tags_json, render_tags_text};

#[test]
fn tag_round_trip_date_literal() {
    let pat = tag_to_re("2021-10-17_11");
    let tag = parse_tag(&pat, "2021-10-17_11").unwrap();
    assert_eq!(tag.name().as_str(), "2021-10-17_11");
    assert_eq!(tag.nrs(), (2021, 10, 17, 11));
}

#[test]
fn tag_round_trip_digitless_literal() {
    let pat = tag_to_re("latest");
    let tag = parse_tag(&pat, "latest").unwrap();
    assert_eq!(tag.name().as_str(), "latest");
    assert_eq!(tag.nrs(), (0, 0, 0, 0));
}

#[test]
fn tag_round_trip_two_groups() {
    let pat = tag_to_re("lts-alpine3.14");
    let tag = parse_tag(&pat, "lts-alpine3.14").unwrap();
    assert_eq!(tag.nrs(), (3, 14, 0, 0));
}

#[test]
fn pattern_text_escapes_metacharacters() {
    assert_eq!(tag_re_str("2.4.1-alpine"), r"([0-9]+)\.([0-9]+)\.([0-9]+)\-alpine");
    assert_eq!(tag_re_str("1.2+x"), r"([0-9]+)\.([0-9]+)\+x");
    assert_eq!(tag_re_str("a_b"), "a_b");
}

#[test]
fn pattern_shape_idempotent_on_substitution() {
    // substituting fresh digits into a matched literal keeps the shape
    assert_eq!(tag_re_str("2.4.1-alpine"), tag_re_str("3.15.22-alpine"));
    assert_eq!(tag_re_str("2021-10-17_11"), tag_re_str("2022-1-3_4"));
}

#[test]
fn pattern_match_is_anchored() {
    let pat = tag_to_re("2.4.1-alpine");
    assert!(pat.is_match("3.6.6-alpine"));
    assert!(!pat.is_match("3.6.6-alpine-perl"));
    assert!(!pat.is_match("x3.6.6-alpine"));
    assert!(!pat.is_match("3.6-alpine"));
}

#[test]
fn parse_tag_mismatch_is_error() {
    let pat = tag_to_re("1.2.3");
    let e = parse_tag(&pat, "abc").unwrap_err();
    assert!(matches!(e, BumpError::PatternMismatch { .. }));
}

#[test]
fn parse_tag_overflow_is_error() {
    let pat = tag_to_re("99999999999");
    let e = parse_tag(&pat, "99999999999").unwrap_err();
    assert!(matches!(e, BumpError::NumericOverflow { .. }));
    // the largest component that still fits
    let pat2 = tag_to_re("4294967295");
    let tag = parse_tag(&pat2, "4294967295").unwrap();
    assert_eq!(tag.nrs(), (4294967295, 0, 0, 0));
}

#[test]
fn tag_ordering_is_by_components() {
    let a = Tag::new("2.2.8-alpine".to_owned(), (2, 2, 8, 0));
    let b = Tag::new("2.4.1-alpine".to_owned(), (2, 4, 1, 0));
    assert!(a < b);
    assert!(a <= b);
    assert!(!(b <= a));
    assert_eq!(a.partial_cmp(&b), Some(std::cmp::Ordering::Less));
    assert_eq!(a.partial_cmp(&a), Some(std::cmp::Ordering::Equal));
    // different literals, equal components: equal tags
    let c = Tag::new("01.0".to_owned(), (1, 0, 0, 0));
    let d = Tag::new("1.0".to_owned(), (1, 0, 0, 0));
    assert_eq!(c, d);
    assert_eq!(c.partial_cmp(&d), Some(std::cmp::Ordering::Equal));
}

#[test]
fn tag_ordering_transitive_sample() {
    let a = Tag::new("1.9.9".to_owned(), (1, 9, 9, 0));
    let b = Tag::new("2.0.0".to_owned(), (2, 0, 0, 0));
    let c = Tag::new("2.0.1".to_owned(), (2, 0, 1, 0));
    assert!(a < b && b < c && a < c);
    assert_eq!(a.major(), 1);
    assert_eq!(b.major(), 2);
}

#[test]
fn error_messages_name_the_inputs() {
    let e = BumpError::NoEligibleVersion { current: "2.2.8-alpine".to_owned() };
    assert_eq!(e.message(), "could not find the version 2.2.8-alpine nor any higher ones");
    let p = BumpError::NoParentsFound;
    assert_eq!(p.message(), "No FROM tags with versions were found in the Dockerfile(s)");
}

#[test]
fn render_text_listing() {
    let ups = vec![
        TagUp::new(
            "Dockerfile".to_owned(),
            "namespace/image".to_owned(),
            "1.2.4-alpha".to_owned(),
            "1.3.2-alpha".to_owned(),
        ),
        TagUp::new(
            "Dockerfile".to_owned(),
            "node".to_owned(),
            "lts-alpine3.14".to_owned(),
            "lts-alpine3.14".to_owned(),
        ),
    ];
    let text = render_tags_text(&ups);
    assert_eq!(
        text,
        "namespace/image\t1.2.4-alpha -> 1.3.2-alpha\nnode\tlts-alpine3.14 (up-to-date)\n"
    );
}

#[test]
fn render_json_listing() {
    let ups = vec![
        TagUp::new(
            "Dockerfile".to_owned(),
            "namespace/image".to_owned(),
            "1.2.4-alpha".to_owned(),
            "1.3.2-alpha".to_owned(),
        ),
        TagUp::new(
            "Dockerfile".to_owned(),
            "node".to_owned(),
            "lts-alpine3.14".to_owned(),
            "lts-alpine3.14".to_owned(),
        ),
    ];
    let json = render_tags_json(&ups);
    assert_eq!(
        json,
        "[\n  {\"image\": \"namespace/image\", \"dockerfile\": \"Dockerfile\", \
         \"current_tag\": \"1.2.4-alpha\", \"updated_tag\": \"1.3.2-alpha\", \"is_update\": true},\n\
         \x20 {\"image\": \"node\", \"dockerfile\": \"Dockerfile\", \
         \"current_tag\": \"lts-alpine3.14\", \"updated_tag\": \"lts-alpine3.14\", \"is_update\": false}\n]\n"
    );
}

#[test]
fn render_json_empty_listing() {
    let ups: Vec<TagUp> = Vec::new();
    assert_eq!(render_tags_json(&ups), "[\n\n]\n");
    assert_eq!(render_tags_text(&ups), "");
}

#[test]
fn parent_renders_diagnostic_line() {
    let pat = tag_to_re("1.2.3");
    let tag = parse_tag(&pat, "1.2.3").unwrap();
    let p = dockerfile_version_bumper::data::Parent::new(
        0,
        "img".to_owned(),
        pat,
        tag,
        "AS build".to_owned(),
    );
    assert_eq!(p.render(), r"img:1.2.3@([0-9]+)\.([0-9]+)\.([0-9]+) AS build");
    assert_eq!(p.tag().major(), 1);
}

#[test]
fn args_hold_the_selections() {
    let a = dockerfile_version_bumper::args::Args::new(
        vec!["Dockerfile".to_owned()],
        vec!["img".to_owned()],
        true,
        false,
    );
    assert_eq!(a.dockerfiles, vec!["Dockerfile".to_owned()]);
    assert_eq!(a.parents, vec!["img".to_owned()]);
    assert!(a.bump_major);
    assert!(!a.print);
}
