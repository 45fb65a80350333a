//! Value types of the scanner and ranker: a manifest (`Dockerfile`), a parsed
//! version tag (`Tag`), and one recognized base-image declaration (`Parent`).

use vstd::prelude::*;

use vstd::std_specs::cmp::PartialOrdSpec;

verus! {

/// One build manifest: its identity (a path) and its full text. The scanner
/// and patcher read it; nothing in this crate mutates it.
#[derive(Debug)]
pub struct Dockerfile {
    path: String,
    content: String,
}

impl Dockerfile {
    pub closed spec fn path_spec(&self) -> Seq<char> {
        self.path@
    }

    pub closed spec fn content_spec(&self) -> Seq<char> {
        self.content@
    }

    pub exec fn new(path: String, content: String) -> (r: Dockerfile)
        ensures
            r.path_spec() == path@,
            r.content_spec() == content@,
    {
        Dockerfile { path, content }
    }

    pub exec fn path(&self) -> (r: &String)
        ensures
            r@ == self.path_spec(),
    {
        &self.path
    }

    pub exec fn content(&self) -> (r: &String)
        ensures
            r@ == self.content_spec(),
    {
        &self.content
    }
}

/// One recognized base-image declaration: the owning manifest (an index into
/// the caller's arena of manifests), the image name, the pattern synthesized
/// from the observed tag, the parsed current tag, and the trailing suffix of
/// the line (a build-stage alias, say). The pattern and suffix are payload;
/// identity is (manifest, image, tag components).
#[derive(Debug)]
pub struct Parent {
    dockerfile: usize,
    image_name: String,
    tag_pattern: crate::pattern::Pattern,
    tag: Tag,
    suffix: String,
}

impl Parent {
    pub closed spec fn dockerfile_spec(&self) -> int {
        self.dockerfile as int
    }

    pub closed spec fn image_spec(&self) -> Seq<char> {
        self.image_name@
    }

    pub closed spec fn pattern_spec(&self) -> crate::pattern::Pattern {
        self.tag_pattern
    }

    pub closed spec fn tag_spec(&self) -> Tag {
        self.tag
    }

    pub closed spec fn suffix_spec(&self) -> Seq<char> {
        self.suffix@
    }

    pub exec fn new(
        dockerfile: usize,
        image_name: String,
        tag_pattern: crate::pattern::Pattern,
        tag: Tag,
        suffix: String,
    ) -> (r: Parent)
        ensures
            r.dockerfile_spec() == dockerfile as int,
            r.image_spec() == image_name@,
            r.pattern_spec() == tag_pattern,
            r.tag_spec() == tag,
            r.suffix_spec() == suffix@,
    {
        Parent { dockerfile, image_name, tag_pattern, tag, suffix }
    }

    pub exec fn dockerfile(&self) -> (r: usize)
        ensures
            r as int == self.dockerfile_spec(),
    {
        self.dockerfile
    }

    pub exec fn image_name(&self) -> (r: &String)
        ensures
            r@ == self.image_spec(),
    {
        &self.image_name
    }

    pub exec fn tag_pattern(&self) -> (r: &crate::pattern::Pattern)
        ensures
            *r == self.pattern_spec(),
    {
        &self.tag_pattern
    }

    pub exec fn tag(&self) -> (r: &Tag)
        ensures
            *r == self.tag_spec(),
    {
        &self.tag
    }

    pub exec fn suffix(&self) -> (r: &String)
        ensures
            r@ == self.suffix_spec(),
    {
        &self.suffix
    }

    /// Takes the reference apart into what a result row reports: the owning
    /// manifest's path, the image name and the current tag.
    pub exec fn explode(self, files: &Vec<Dockerfile>) -> (r: (String, String, Tag))
        requires
            0 <= self.dockerfile_spec() < files@.len(),
        ensures
            r.0@ == files@[self.dockerfile_spec()].path_spec(),
            r.1@ == self.image_spec(),
            r.2 == self.tag_spec(),
    {
        let Parent { dockerfile, image_name, tag, .. } = self;
        (files[dockerfile].path().clone(), image_name, tag)
    }
}

impl Parent {
    /// The reference as a diagnostic line: image, current tag, the pattern's
    /// regex text, and the suffix when there is one.
    pub open spec fn render_spec(&self) -> Seq<char> {
        self.image_spec() + ":"@ + self.tag_spec().name_spec() + "@"@
            + self.pattern_spec().text_spec() + (if self.suffix_spec().len() == 0 {
            Seq::<char>::empty()
        } else {
            " "@ + self.suffix_spec()
        })
    }

    /// Renders the diagnostic line.
    pub exec fn render(&self) -> (r: String)
        ensures
            r@ == self.render_spec(),
    {
        let mut m = String::new();
        m.append(self.image_name.as_str());
        m.append(":");
        m.append(self.tag.name().as_str());
        m.append("@");
        m.append(self.tag_pattern.as_str());
        if self.suffix.as_str().is_empty() {
            proof {
                assert(self.suffix_spec().len() == 0);
            }
        } else {
            m.append(" ");
            m.append(self.suffix.as_str());
        }
        m
    }
}

/// Lexicographic order on the four numeric components, most significant first.
pub open spec fn nrs_lt(a: (u32, u32, u32, u32), b: (u32, u32, u32, u32)) -> bool {
    ||| a.0 < b.0
    ||| (a.0 == b.0 && a.1 < b.1)
    ||| (a.0 == b.0 && a.1 == b.1 && a.2 < b.2)
    ||| (a.0 == b.0 && a.1 == b.1 && a.2 == b.2 && a.3 < b.3)
}

pub open spec fn nrs_le(a: (u32, u32, u32, u32), b: (u32, u32, u32, u32)) -> bool {
    nrs_lt(a, b) || a == b
}

/// Three-way comparison of component tuples; the order `Tag`s compare in.
pub open spec fn nrs_cmp(a: (u32, u32, u32, u32), b: (u32, u32, u32, u32)) -> core::cmp::Ordering {
    if nrs_lt(a, b) {
        core::cmp::Ordering::Less
    } else if a == b {
        core::cmp::Ordering::Equal
    } else {
        core::cmp::Ordering::Greater
    }
}

/// One version tag: the literal as it appeared (`name`) and up to four numeric
/// components extracted through a pattern, zero-padded on the right. Ordering
/// and equality go by the components alone: two tags with different literals
/// but equal components compare equal.
#[derive(Debug)]
pub struct Tag {
    name: String,
    nr0: u32,
    nr1: u32,
    nr2: u32,
    nr3: u32,
}

impl Tag {
    pub closed spec fn name_spec(&self) -> Seq<char> {
        self.name@
    }

    pub closed spec fn nrs_spec(&self) -> (u32, u32, u32, u32) {
        (self.nr0, self.nr1, self.nr2, self.nr3)
    }

    pub exec fn new(name: String, nrs: (u32, u32, u32, u32)) -> (r: Tag)
        ensures
            r.name_spec() == name@,
            r.nrs_spec() == nrs,
    {
        Tag { name, nr0: nrs.0, nr1: nrs.1, nr2: nrs.2, nr3: nrs.3 }
    }

    pub exec fn name(&self) -> (r: &String)
        ensures
            r@ == self.name_spec(),
    {
        &self.name
    }

    pub exec fn nrs(&self) -> (r: (u32, u32, u32, u32))
        ensures
            r == self.nrs_spec(),
    {
        (self.nr0, self.nr1, self.nr2, self.nr3)
    }

    /// The most significant component, the one guarded by the major-bump policy.
    pub exec fn major(&self) -> (r: u32)
        ensures
            r == self.nrs_spec().0,
    {
        self.nr0
    }

    /// `self <= other` in the component order.
    pub exec fn le_tag(&self, other: &Tag) -> (r: bool)
        ensures
            r == nrs_le(self.nrs_spec(), other.nrs_spec()),
    {
        if self.nr0 != other.nr0 {
            self.nr0 < other.nr0
        } else if self.nr1 != other.nr1 {
            self.nr1 < other.nr1
        } else if self.nr2 != other.nr2 {
            self.nr2 < other.nr2
        } else {
            self.nr3 <= other.nr3
        }
    }
}

impl Clone for Tag {
    fn clone(&self) -> (r: Tag)
        ensures
            r.name_spec() == self.name_spec(),
            r.nrs_spec() == self.nrs_spec(),
    {
        Tag { name: self.name.clone(), nr0: self.nr0, nr1: self.nr1, nr2: self.nr2, nr3: self.nr3 }
    }
}

impl PartialEq for Tag {
    fn eq(&self, other: &Tag) -> (r: bool) {
        self.nr0 == other.nr0 && self.nr1 == other.nr1 && self.nr2 == other.nr2
            && self.nr3 == other.nr3
    }
}

impl Eq for Tag {

}

impl vstd::std_specs::cmp::PartialEqSpecImpl for Tag {
    open spec fn obeys_eq_spec() -> bool {
        true
    }

    open spec fn eq_spec(&self, other: &Tag) -> bool {
        self.nrs_spec() == other.nrs_spec()
    }
}

impl PartialOrd for Tag {
    fn partial_cmp(&self, other: &Tag) -> (r: Option<core::cmp::Ordering>) {
        if self.le_tag(other) && other.le_tag(self) {
            Some(core::cmp::Ordering::Equal)
        } else if self.le_tag(other) {
            Some(core::cmp::Ordering::Less)
        } else {
            Some(core::cmp::Ordering::Greater)
        }
    }
}

impl vstd::std_specs::cmp::PartialOrdSpecImpl for Tag {
    open spec fn obeys_partial_cmp_spec() -> bool {
        true
    }

    open spec fn partial_cmp_spec(&self, other: &Tag) -> Option<core::cmp::Ordering> {
        Some(nrs_cmp(self.nrs_spec(), other.nrs_spec()))
    }
}

/// Comparing a tag with itself yields `Equal`.
pub proof fn lemma_tag_cmp_reflexive(a: Tag)
    ensures
        a.partial_cmp_spec(&a) == Some(core::cmp::Ordering::Equal),
{
}

/// The tag order is transitive.
pub proof fn lemma_tag_le_transitive(a: Tag, b: Tag, c: Tag)
    requires
        nrs_le(a.nrs_spec(), b.nrs_spec()),
        nrs_le(b.nrs_spec(), c.nrs_spec()),
    ensures
        nrs_le(a.nrs_spec(), c.nrs_spec()),
{
}

/// The three-way comparison agrees with lexicographic tuple comparison: it
/// answers `Less` exactly on `nrs_lt`, `Equal` exactly on equal tuples, and is
/// antisymmetric.
pub proof fn lemma_tag_cmp_consistent(a: Tag, b: Tag)
    ensures
        a.partial_cmp_spec(&b) == Some(core::cmp::Ordering::Less) <==> nrs_lt(
            a.nrs_spec(),
            b.nrs_spec(),
        ),
        a.partial_cmp_spec(&b) == Some(core::cmp::Ordering::Equal) <==> a.nrs_spec()
            == b.nrs_spec(),
        a.partial_cmp_spec(&b) == Some(core::cmp::Ordering::Less) <==> b.partial_cmp_spec(&a)
            == Some(core::cmp::Ordering::Greater),
{
}

} // verus!
