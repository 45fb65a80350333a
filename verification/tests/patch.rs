use dockerfile_version_bumper::bump_results;
use dockerfile_version_bumper::convert::parse_tag;
use dockerfile_version_bumper::data::{Dockerfile, Parent, Tag};
use dockerfile_version_bumper::errors::BumpError;
use dockerfile_version_bumper::pattern::tag_to_re;
use dockerfile_version_bumper::write::updated_dockerfiles_content;

fn parent(idx: usize, image: &str, tag_str: &str, suffix: &str) -> Parent {
    let pat = tag_to_re(tag_str);
    let tag = parse_tag(&pat, tag_str).unwrap();
    Parent::new(idx, image.to_owned(), pat, tag, suffix.to_owned())
}

#[test]
fn with_repository_url() {
    let image = "docker-registry:8080/namespace/image";
    let path = "/fake/Dockerfile".to_owned();
    let tag_str = "1.2.4-alpha";
    let files = vec![Dockerfile::new(
        path.clone(),
        format!("FROM {}:{} AS build\n", image, tag_str),
    )];
    let p = parent(0, image, tag_str, "AS build");
    let tag_new = Tag::new("1.3.2-alpha".to_owned(), (1, 3, 2, 0));
    let tags = updated_dockerfiles_content(&vec![(p, tag_new)], &files).unwrap();
    assert_eq!(tags.len(), 1);
    assert_eq!(tags[0].0, path);
    assert_eq!(tags[0].1, "FROM docker-registry:8080/namespace/image:1.3.2-alpha AS build\n");
}

#[test]
fn single_declaration_rewritten() {
    let files = vec![Dockerfile::new(
        "/fake/Dockerfile".to_owned(),
        "FROM namespace/image:1.2.4-alpha AS build\n".to_owned(),
    )];
    let p = parent(0, "namespace/image", "1.2.4-alpha", "AS build");
    let tag_new = Tag::new("1.3.2-alpha".to_owned(), (1, 3, 2, 0));
    let tags = updated_dockerfiles_content(&vec![(p, tag_new)], &files).unwrap();
    assert_eq!(tags.len(), 1);
    assert_eq!(tags[0].1, "FROM namespace/image:1.3.2-alpha AS build\n");
}

#[test]
fn irregular_spacing_normalized() {
    let files = vec![Dockerfile::new(
        "Dockerfile".to_owned(),
        "FROM  namespace/image:1.2.4-alpha  AS build\n".to_owned(),
    )];
    let p = parent(0, "namespace/image", "1.2.4-alpha", "AS build");
    let tag_new = Tag::new("1.3.2-alpha".to_owned(), (1, 3, 2, 0));
    let tags = updated_dockerfiles_content(&vec![(p, tag_new)], &files).unwrap();
    assert_eq!(tags[0].1, "FROM namespace/image:1.3.2-alpha AS build\n");
}

#[test]
fn do_not_match_in_run_cmd() {
    let content = "FROM namespace/image:1.2.4-alpha AS build\n\
        RUN echo 'Using namespace/image:1.2.4-alpha AS build '\n";
    let files = vec![Dockerfile::new("Dockerfile".to_owned(), content.to_owned())];
    let p = parent(0, "namespace/image", "1.2.4-alpha", "AS build");
    let tag_new = Tag::new("1.3.2-alpha".to_owned(), (1, 3, 2, 0));
    let tags = updated_dockerfiles_content(&vec![(p, tag_new)], &files).unwrap();
    assert_eq!(
        tags[0].1,
        "FROM namespace/image:1.3.2-alpha AS build\n\
         RUN echo 'Using namespace/image:1.2.4-alpha AS build '\n"
    );
}

#[test]
fn multi_file_multi_tag() {
    let path1 = "/fake/one/Dockerfile".to_owned();
    let path2 = "/fake/two/Dockerfile".to_owned();
    let files = vec![
        Dockerfile::new(
            path1.clone(),
            "FROM namespace/image:1.2.4-alpha AS build\n\
             FROM namespace/image2:0.3.7-rc2\n\
             RUN echo done"
                .to_owned(),
        ),
        Dockerfile::new(path2.clone(), "FROM namespace/image:1.2.4-alpha AS pre\n".to_owned()),
    ];
    let rs = vec![
        (parent(0, "namespace/image", "1.2.4-alpha", "AS build"),
            Tag::new("1.3.2-alpha".to_owned(), (1, 3, 2, 0))),
        (parent(0, "namespace/image2", "0.3.7-rc2", ""),
            Tag::new("0.4.4-rc1".to_owned(), (0, 4, 4, 1))),
        (parent(1, "namespace/image", "1.2.4-alpha", "AS pre"),
            Tag::new("1.3.2-alpha".to_owned(), (1, 3, 2, 0))),
    ];
    let tags = updated_dockerfiles_content(&rs, &files).unwrap();
    assert_eq!(tags.len(), 2);
    assert_eq!(tags[0].0, path1);
    assert_eq!(
        tags[0].1,
        "FROM namespace/image:1.3.2-alpha AS build\nFROM namespace/image2:0.4.4-rc1\nRUN echo done"
    );
    assert_eq!(tags[1].0, path2);
    assert_eq!(tags[1].1, "FROM namespace/image:1.3.2-alpha AS pre\n");
}

#[test]
fn same_image_two_tags_patched_independently() {
    let files = vec![Dockerfile::new(
        "Dockerfile".to_owned(),
        "FROM img:1.2.4-alpha AS a\nFROM img:2.4.1-beta AS b\n".to_owned(),
    )];
    let rs = vec![
        (parent(0, "img", "1.2.4-alpha", "AS a"), Tag::new("1.3.0-alpha".to_owned(), (1, 3, 0, 0))),
        (parent(0, "img", "2.4.1-beta", "AS b"), Tag::new("2.5.0-beta".to_owned(), (2, 5, 0, 0))),
    ];
    let tags = updated_dockerfiles_content(&rs, &files).unwrap();
    assert_eq!(tags.len(), 1);
    assert_eq!(tags[0].1, "FROM img:1.3.0-alpha AS a\nFROM img:2.5.0-beta AS b\n");
}

#[test]
fn declaration_without_suffix() {
    let files =
        vec![Dockerfile::new("Dockerfile".to_owned(), "FROM img:1.2.3\nRUN x\n".to_owned())];
    let p = parent(0, "img", "1.2.3", "");
    let tag_new = Tag::new("1.3.0".to_owned(), (1, 3, 0, 0));
    let tags = updated_dockerfiles_content(&vec![(p, tag_new)], &files).unwrap();
    assert_eq!(tags[0].1, "FROM img:1.3.0\nRUN x\n");
}

#[test]
fn missing_declaration_is_error() {
    let files = vec![Dockerfile::new("Dockerfile".to_owned(), "RUN nothing here\n".to_owned())];
    let p = parent(0, "img", "1.2.3", "");
    let tag_new = Tag::new("1.3.0".to_owned(), (1, 3, 0, 0));
    let e = updated_dockerfiles_content(&vec![(p, tag_new)], &files).unwrap_err();
    assert!(matches!(e, BumpError::DeclarationNotFound { .. }));
}

#[test]
fn bump_results_report_rows() {
    let files = vec![Dockerfile::new("Dockerfile".to_owned(), "".to_owned())];
    let rs = vec![
        (parent(0, "img", "1.2.3", ""), Tag::new("1.3.0".to_owned(), (1, 3, 0, 0))),
    ];
    let ups = bump_results(&rs, &files);
    assert_eq!(ups.len(), 1);
    assert_eq!(ups[0].dockerfile, "Dockerfile");
    assert_eq!(ups[0].image, "img");
    assert_eq!(ups[0].old_tag, "1.2.3");
    assert_eq!(ups[0].new_tag, "1.3.0");
}

#[test]
fn explode_reports_path_image_tag() {
    let files = vec![Dockerfile::new("a/Dockerfile".to_owned(), "".to_owned())];
    let p = parent(0, "img", "1.2.3", "");
    let (path, image, tag) = p.explode(&files);
    assert_eq!(path, "a/Dockerfile");
    assert_eq!(image, "img");
    assert_eq!(tag.name().as_str(), "1.2.3");
}
