//! Typed failures of the scanner, ranker and patcher, with the diagnostic
//! text each one renders.

use vstd::prelude::*;
use vstd::string::StringExecFns;

verus! {

/// Everything that can go wrong in the core.
#[derive(Debug)]
pub enum BumpError {
    /// A string failed to match the pattern that was derived for it: an
    /// internal invariant violation surfaced as an error.
    PatternMismatch { tag: String, pattern: String },
    /// A captured digit run does not fit the numeric component width.
    NumericOverflow { digits: String },
    /// Scanning produced no versioned declaration at all.
    NoParentsFound,
    /// An allow-list was given and no scanned declaration survived it.
    NoAllowedParentsFound,
    /// No registry candidate was at least as high as the current tag.
    NoEligibleVersion { current: String },
    /// A previously scanned declaration could not be found again at patch
    /// time: an internal invariant violation surfaced as an error.
    DeclarationNotFound { image: String },
}

/// The diagnostic text of an error. The no-eligible-version message always
/// carries the current tag name.
pub open spec fn message_spec(e: &BumpError) -> Seq<char> {
    match e {
        BumpError::PatternMismatch { tag, pattern } => "could not extract digits from tag; tag: "@
            + tag@ + ", pattern: "@ + pattern@ + ", failed to capture"@,
        BumpError::NumericOverflow { digits } => "tag version component is too large: "@ + digits@,
        BumpError::NoParentsFound => "No FROM tags with versions were found in the Dockerfile(s)"@,
        BumpError::NoAllowedParentsFound =>
            "None of the FROM tags given with --parent/-p were found in the Dockerfile(s)"@,
        BumpError::NoEligibleVersion { current } => "could not find the version "@ + current@
            + " nor any higher ones"@,
        BumpError::DeclarationNotFound { image } => "did not find image tag in dockerfile for "@
            + image@,
    }
}

impl BumpError {
    /// Renders the diagnostic text.
    pub exec fn message(&self) -> (r: String)
        ensures
            r@ == message_spec(self),
    {
        match self {
            BumpError::PatternMismatch { tag, pattern } => {
                let mut m = String::new();
                m.append("could not extract digits from tag; tag: ");
                m.append(tag.as_str());
                m.append(", pattern: ");
                m.append(pattern.as_str());
                m.append(", failed to capture");
                m
            },
            BumpError::NumericOverflow { digits } => {
                let mut m = String::new();
                m.append("tag version component is too large: ");
                m.append(digits.as_str());
                m
            },
            BumpError::NoParentsFound => {
                let mut m = String::new();
                m.append("No FROM tags with versions were found in the Dockerfile(s)");
                m
            },
            BumpError::NoAllowedParentsFound => {
                let mut m = String::new();
                m.append("None of the FROM tags given with --parent/-p were found in the Dockerfile(s)");
                m
            },
            BumpError::NoEligibleVersion { current } => {
                let mut m = String::new();
                m.append("could not find the version ");
                m.append(current.as_str());
                m.append(" nor any higher ones");
                m
            },
            BumpError::DeclarationNotFound { image } => {
                let mut m = String::new();
                m.append("did not find image tag in dockerfile for ");
                m.append(image.as_str());
                m
            },
        }
    }
}

} // verus!
