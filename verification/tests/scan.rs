use dockerfile_version_bumper::data::{Dockerfile, Tag};
use dockerfile_version_bumper::errors::BumpError;
use dockerfile_version_bumper::filter_parents;
use dockerfile_version_bumper::read::{extract_parents, parse_line_from};

#[test]
fn parse_from_version_date() {
    let parent = parse_line_from(0, "FROM mverleg/rust_nightly_musl_base:2021-10-17_11")
        .unwrap()
        .unwrap();
    assert_eq!(parent.image_name().as_str(), "mverleg/rust_nightly_musl_base");
    assert_eq!(parent.tag(), &Tag::new("2021-10-17_11".to_owned(), (2021, 10, 17, 11)));
    assert_eq!(parent.tag().name().as_str(), "2021-10-17_11");
    assert_eq!(parent.suffix().as_str(), "");
    assert_eq!(parent.tag_pattern().as_str(), r"([0-9]+)\-([0-9]+)\-([0-9]+)_([0-9]+)");
}

#[test]
fn parse_from_version_as() {
    let parent = parse_line_from(0, "FROM node:lts-alpine3.14 AS editor").unwrap().unwrap();
    assert_eq!(parent.image_name().as_str(), "node");
    assert_eq!(parent.tag(), &Tag::new("lts-alpine3.14".to_owned(), (3, 14, 0, 0)));
    assert_eq!(parent.suffix().as_str(), "AS editor");
    assert_eq!(parent.tag_pattern().as_str(), r"lts\-alpine([0-9]+)\.([0-9]+)");
}

#[test]
fn parse_from_registry_with_port() {
    let parent = parse_line_from(0, "FROM docker-registry:8080/namespace/image:1.2.4-alpha AS build")
        .unwrap()
        .unwrap();
    assert_eq!(parent.image_name().as_str(), "docker-registry:8080/namespace/image");
    assert_eq!(parent.tag().name().as_str(), "1.2.4-alpha");
    assert_eq!(parent.tag().nrs(), (1, 2, 4, 0));
    assert_eq!(parent.suffix().as_str(), "AS build");
}

#[test]
fn parse_skips_versionless_lines() {
    assert!(parse_line_from(0, "FROM build-stage").unwrap().is_none());
    assert!(parse_line_from(0, "RUN echo hi").unwrap().is_none());
    assert!(parse_line_from(0, "").unwrap().is_none());
    assert!(parse_line_from(0, "FROM ").unwrap().is_none());
    assert!(parse_line_from(0, "FROM :notag").unwrap().is_none());
    assert!(parse_line_from(0, "FROM image:").unwrap().is_none());
}

#[test]
fn parse_overflowing_tag_is_error() {
    let e = parse_line_from(0, "FROM img:5000000000").unwrap_err();
    assert!(matches!(e, BumpError::NumericOverflow { .. }));
}

#[test]
fn extract_parents_collects_and_dedups() {
    let files = vec![
        Dockerfile::new(
            "a/Dockerfile".to_owned(),
            "FROM node:lts-alpine3.14 AS editor\nRUN echo hi\nFROM node:lts-alpine3.14 AS editor\n"
                .to_owned(),
        ),
        Dockerfile::new("b/Dockerfile".to_owned(), "FROM img:1.2.3\n".to_owned()),
    ];
    let parents = extract_parents(&files).unwrap();
    assert_eq!(parents.len(), 2);
    assert_eq!(parents[0].dockerfile(), 0);
    assert_eq!(parents[0].image_name().as_str(), "node");
    assert_eq!(parents[1].dockerfile(), 1);
    assert_eq!(parents[1].image_name().as_str(), "img");
    assert_eq!(parents[1].tag().nrs(), (1, 2, 3, 0));
}

#[test]
fn extract_parents_keeps_same_image_with_distinct_tags() {
    let files = vec![Dockerfile::new(
        "Dockerfile".to_owned(),
        "FROM img:1.2.4-alpha AS a\nFROM img:2.4.1-beta AS b\n".to_owned(),
    )];
    let parents = extract_parents(&files).unwrap();
    assert_eq!(parents.len(), 2);
    assert_eq!(parents[0].tag().name().as_str(), "1.2.4-alpha");
    assert_eq!(parents[1].tag().name().as_str(), "2.4.1-beta");
}

#[test]
fn filter_parents_empty_scan_is_error() {
    let r = filter_parents(Vec::new(), &Vec::new());
    assert!(matches!(r.unwrap_err(), BumpError::NoParentsFound));
}

#[test]
fn filter_parents_applies_allow_list() {
    let files = vec![Dockerfile::new(
        "Dockerfile".to_owned(),
        "FROM node:lts-alpine3.14\nFROM img:1.2.3\n".to_owned(),
    )];
    let parents = extract_parents(&files).unwrap();
    let allow = vec!["img".to_owned()];
    let kept = filter_parents(parents, &allow).unwrap();
    assert_eq!(kept.len(), 1);
    assert_eq!(kept[0].image_name().as_str(), "img");

    let parents2 = extract_parents(&files).unwrap();
    let allow2 = vec!["nothere".to_owned()];
    let r = filter_parents(parents2, &allow2);
    assert!(matches!(r.unwrap_err(), BumpError::NoAllowedParentsFound));
}

#[test]
fn extract_parents_of_empty_content() {
    let files = vec![Dockerfile::new("Dockerfile".to_owned(), "".to_owned())];
    let parents = extract_parents(&files).unwrap();
    assert!(parents.is_empty());
}
