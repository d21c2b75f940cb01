//! Canonical package identities in the `namespace.package` form.
use vstd::prelude::*;

use crate::host::capability::is_lower;
use crate::host::capability::is_digit;
use crate::text::{chars_of, split, split_str, views};
use vstd::string::*;

verus! {

/// A coordinate segment matches `[a-z][a-z0-9_]*`.
pub open spec fn valid_package_segment(seg: Seq<char>) -> bool {
    &&& seg.len() > 0
    &&& is_lower(seg[0])
    &&& forall|i: int| 1 <= i < seg.len() ==> (is_lower(#[trigger] seg[i]) || is_digit(seg[i]) || seg[i] == '_')
}

/// A canonical coordinate: exactly two valid dot-separated segments.
pub open spec fn valid_package_id(s: Seq<char>) -> bool {
    let segs = split(s, '.');
    s.len() > 0 && segs.len() == 2 && valid_package_segment(segs[0]) && valid_package_segment(segs[1])
}

/// The reason a package coordinate could not be constructed.
#[derive(Debug, Clone, PartialEq, Eq)]
pub enum PackageIdError {
    /// The coordinate was empty.
    Empty,
    /// The coordinate did not contain exactly one separator.
    InvalidSegmentCount {
        /// Number of dot-separated segments found.
        segments: usize,
    },
    /// A segment did not match `[a-z][a-z0-9_]*`.
    InvalidSegment {
        /// The rejected segment.
        segment: String,
    },
}

/// The message of a coordinate error.
pub open spec fn package_id_error_text(error: PackageIdError) -> Seq<char> {
    match error {
        PackageIdError::Empty => "package coordinate is empty"@,
        PackageIdError::InvalidSegmentCount { segments } =>
            "package coordinate must have exactly two segments, found "@ + crate::text::decimal(segments as nat),
        PackageIdError::InvalidSegment { segment } => "package coordinate segment '"@ + segment@
            + "' must match [a-z][a-z0-9_]*"@,
    }
}

impl PackageIdError {
    /// The human-readable message of the error.
    pub fn to_string(&self) -> (text: String)
        ensures
            text@ == package_id_error_text(*self),
    {
        match self {
            PackageIdError::Empty => String::from_str("package coordinate is empty"),
            PackageIdError::InvalidSegmentCount { segments } => {
                let mut text = String::from_str("package coordinate must have exactly two segments, found ");
                crate::text::push_decimal(&mut text, *segments as u64);
                text
            },
            PackageIdError::InvalidSegment { segment } => {
                let text = String::from_str("package coordinate segment '");
                let text = text.concat(segment.as_str());
                text.concat("' must match [a-z][a-z0-9_]*")
            },
        }
    }
}

/// The outcome `PackageId::parse` decides for a text.
pub open spec fn parse_package_id_outcome(s: Seq<char>) -> Result<Seq<char>, PackageIdErrorKind> {
    let segs = split(s, '.');
    if s.len() == 0 {
        Err(PackageIdErrorKind::Empty)
    } else if segs.len() != 2 {
        Err(PackageIdErrorKind::Count(segs.len()))
    } else if !valid_package_segment(segs[0]) {
        Err(PackageIdErrorKind::Segment(segs[0]))
    } else if !valid_package_segment(segs[1]) {
        Err(PackageIdErrorKind::Segment(segs[1]))
    } else {
        Ok(s)
    }
}

/// The mathematical reading of a [`PackageIdError`].
pub ghost enum PackageIdErrorKind {
    /// Empty coordinate.
    Empty,
    /// Wrong number of segments.
    Count(nat),
    /// An invalid segment.
    Segment(Seq<char>),
}

/// The mathematical reading of an error value.
pub open spec fn package_id_error_kind(error: PackageIdError) -> PackageIdErrorKind {
    match error {
        PackageIdError::Empty => PackageIdErrorKind::Empty,
        PackageIdError::InvalidSegmentCount { segments } => PackageIdErrorKind::Count(segments as nat),
        PackageIdError::InvalidSegment { segment } => PackageIdErrorKind::Segment(segment@),
    }
}

/// A validated package coordinate in the canonical `namespace.package` form.
#[derive(Debug, Hash)]
pub struct PackageId(String);

/// Alias for the canonical package coordinate type.
pub type PackageCoordinate = PackageId;

impl View for PackageId {
    type V = Seq<char>;

    closed spec fn view(&self) -> Seq<char> {
        self.0@
    }
}

impl PartialEq for PackageId {
    fn eq(&self, other: &Self) -> (same: bool) {
        self.0 == other.0
    }
}

impl vstd::std_specs::cmp::PartialEqSpecImpl for PackageId {
    open spec fn obeys_eq_spec() -> bool {
        true
    }

    open spec fn eq_spec(&self, other: &Self) -> bool {
        self@ == other@
    }
}

impl Eq for PackageId {
}

/// Whether a segment matches `[a-z][a-z0-9_]*`.
fn is_package_segment(segment: &str) -> (ok: bool)
    ensures
        ok == valid_package_segment(segment@),
{
    let chars = chars_of(segment);
    if chars.len() == 0 {
        return false;
    }
    if !(chars[0] >= 'a' && chars[0] <= 'z') {
        return false;
    }
    let mut i: usize = 1;
    while i < chars.len()
        invariant
            chars@ == segment@,
            1 <= i <= chars@.len(),
            is_lower(chars@[0]),
            forall|j: int| 1 <= j < i ==> (is_lower(#[trigger] chars@[j]) || is_digit(chars@[j]) || chars@[j] == '_'),
        decreases chars.len() - i,
    {
        let c = chars[i];
        if !((c >= 'a' && c <= 'z') || (c >= '0' && c <= '9') || c == '_') {
            return false;
        }
        i = i + 1;
    }
    true
}

impl PackageId {
    #[verifier::type_invariant]
    spec fn well_formed(self) -> bool {
        valid_package_id(self.0@)
    }

    /// Parses and validates a canonical package coordinate.
    pub fn parse(value: &str) -> (result: Result<PackageId, PackageIdError>)
        ensures
            match result {
                Ok(id) => parse_package_id_outcome(value@) == Ok::<Seq<char>, PackageIdErrorKind>(id@),
                Err(error) => parse_package_id_outcome(value@) == Err::<Seq<char>, PackageIdErrorKind>(
                    package_id_error_kind(error),
                ),
            },
    {
        if value.is_empty() {
            return Err(PackageIdError::Empty);
        }
        let segments = split_str(value, '.');
        if segments.len() != 2 {
            return Err(PackageIdError::InvalidSegmentCount { segments: segments.len() });
        }
        if !is_package_segment(segments[0]) {
            return Err(PackageIdError::InvalidSegment { segment: String::from_str(segments[0]) });
        }
        if !is_package_segment(segments[1]) {
            return Err(PackageIdError::InvalidSegment { segment: String::from_str(segments[1]) });
        }
        Ok(PackageId(String::from_str(value)))
    }

    /// Builds a coordinate from its two segments.
    pub fn new(namespace: &str, package: &str) -> (result: Result<PackageId, PackageIdError>)
        ensures
            match result {
                Ok(id) => parse_package_id_outcome(namespace@ + "."@ + package@)
                    == Ok::<Seq<char>, PackageIdErrorKind>(id@),
                Err(error) => parse_package_id_outcome(namespace@ + "."@ + package@)
                    == Err::<Seq<char>, PackageIdErrorKind>(package_id_error_kind(error)),
            },
    {
        let text = String::from_str(namespace);
        let text = text.concat(".");
        let text = text.concat(package);
        PackageId::parse(text.as_str())
    }

    /// Builds a coordinate from its two named segments.
    pub fn from_segments(namespace: &str, package: &str) -> (result: Result<PackageId, PackageIdError>)
        ensures
            match result {
                Ok(id) => parse_package_id_outcome(namespace@ + "."@ + package@)
                    == Ok::<Seq<char>, PackageIdErrorKind>(id@),
                Err(error) => parse_package_id_outcome(namespace@ + "."@ + package@)
                    == Err::<Seq<char>, PackageIdErrorKind>(package_id_error_kind(error)),
            },
    {
        PackageId::new(namespace, package)
    }

    /// Returns the namespace segment.
    pub fn namespace(&self) -> (namespace: &str)
        ensures
            namespace@ == split(self@, '.')[0],
            valid_package_id(self@),
    {
        proof {
            use_type_invariant(self);
        }
        let segments = split_str(self.0.as_str(), '.');
        assert(segments@[0]@ == views(segments@)[0]);
        segments[0]
    }

    /// Returns the package segment.
    pub fn package(&self) -> (package: &str)
        ensures
            package@ == split(self@, '.')[1],
    {
        proof {
            use_type_invariant(self);
        }
        let segments = split_str(self.0.as_str(), '.');
        assert(segments@[1]@ == views(segments@)[1]);
        segments[1]
    }

    /// Returns the canonical coordinate text.
    pub fn as_str(&self) -> (text: &str)
        ensures
            text@ == self@,
            valid_package_id(self@),
    {
        proof {
            use_type_invariant(self);
        }
        self.0.as_str()
    }

    /// Returns the canonical coordinate text as an owned string.
    pub fn to_string(&self) -> (text: String)
        ensures
            text@ == self@,
    {
        self.0.clone()
    }

    /// Consumes the coordinate and returns its canonical text.
    pub fn into_string(self) -> (text: String)
        ensures
            text@ == self@,
    {
        self.0
    }

    /// A copy of this coordinate.
    pub fn duplicate(&self) -> (copy: PackageId)
        ensures
            copy@ == self@,
    {
        proof {
            use_type_invariant(self);
        }
        PackageId(self.0.clone())
    }
}

} // verus!
