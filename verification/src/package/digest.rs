//! Deterministic package content digests.
//!
//! A digest is the lowercase hexadecimal SHA-256 of a framed byte string: every named part
//! contributes its name and its bytes, each preceded by its length as a big-endian `u64`, so
//! no two different part lists frame to the same bytes.
use vstd::prelude::*;

use crate::package::error::joined_problems;
use crate::package::json::{manifest_json, manifest_json_bytes, utf8, utf8_bytes};
use crate::package::manifest::{canonical_manifest, manifest_problems, Manifest, ManifestView};
use crate::text::{chars_of, push_char};
use sha2::Digest;
use vstd::string::*;

verus! {

/// SHA-256 of a byte string.
pub uninterp spec fn sha256_spec(data: Seq<u8>) -> Seq<u8>;

/// SHA-256 of `data`, through `sha2::Sha256::digest`: the result is the digest function of
/// the bytes, 32 bytes long.
#[verifier::external_body]
pub(crate) fn sha256(data: &[u8]) -> (digest: Vec<u8>)
    ensures
        digest@ == sha256_spec(data@),
        digest@.len() == 32,
{
    sha2::Sha256::digest(data).to_vec()
}

/// `n` as `width` big-endian bytes (the low `width` bytes of `n`).
pub open spec fn be_bytes(n: nat, width: nat) -> Seq<u8>
    decreases width,
{
    if width == 0 {
        Seq::empty()
    } else {
        be_bytes(n / 256, (width - 1) as nat).push((n % 256) as u8)
    }
}

/// A part framed by its length: eight big-endian length bytes, then the bytes.
pub open spec fn frame(bytes: Seq<u8>) -> Seq<u8> {
    be_bytes(bytes.len(), 8) + bytes
}

/// Every part framed in order: its name, then its bytes.
pub open spec fn frame_parts(parts: Seq<(Seq<u8>, Seq<u8>)>) -> Seq<u8>
    decreases parts.len(),
{
    if parts.len() == 0 {
        Seq::empty()
    } else {
        frame_parts(parts.drop_last()) + frame(parts.last().0) + frame(parts.last().1)
    }
}

/// The lowercase hexadecimal digit for `d < 16`.
pub open spec fn hex_digit(d: nat) -> char {
    if d < 10 {
        ('0' as nat + d) as char
    } else {
        ('a' as nat + d - 10) as char
    }
}

/// Lowercase hexadecimal text of a byte string, two digits per byte.
pub open spec fn hex_spec(bytes: Seq<u8>) -> Seq<char>
    decreases bytes.len(),
{
    if bytes.len() == 0 {
        Seq::empty()
    } else {
        hex_spec(bytes.drop_last()).push(hex_digit(bytes.last() as nat / 16)).push(
            hex_digit(bytes.last() as nat % 16),
        )
    }
}

/// The number a lowercase hexadecimal digit stands for (`0-9` are 0 to 9, `a-f` are 10 to
/// 15), or -1 for any other character.
pub open spec fn hex_value(c: char) -> int {
    if '0' <= c && c <= '9' {
        c as int - 48
    } else if 'a' <= c && c <= 'f' {
        c as int - 87
    } else {
        -1
    }
}

/// The hexadecimal text of a byte string is the standard one: two lowercase digits per
/// byte, the high nibble first, so that reading the digits back gives every byte.
pub proof fn law_hex_text(bytes: Seq<u8>)
    ensures
        hex_spec(bytes).len() == 2 * bytes.len(),
        forall|i: int| 0 <= i < bytes.len() ==> hex_value(#[trigger] hex_spec(bytes)[2 * i]) == bytes[i] as int / 16
            && hex_value(hex_spec(bytes)[2 * i + 1]) == bytes[i] as int % 16,
        forall|i: int| 0 <= i < bytes.len() ==> 16 * hex_value(#[trigger] hex_spec(bytes)[2 * i]) + hex_value(hex_spec(bytes)[2 * i + 1]) == bytes[i] as int,
    decreases bytes.len(),
{
    if bytes.len() > 0 {
        let init = bytes.drop_last();
        law_hex_text(init);
        let n = bytes.len() - 1;
        let hi = bytes.last() as nat / 16;
        let lo = bytes.last() as nat % 16;
        assert(hex_value(hex_digit(hi)) == hi as int);
        assert(hex_value(hex_digit(lo)) == lo as int);
        assert forall|i: int| 0 <= i < bytes.len() implies hex_value(#[trigger] hex_spec(bytes)[2 * i]) == bytes[i] as int / 16
            && hex_value(hex_spec(bytes)[2 * i + 1]) == bytes[i] as int % 16 by {
            if i < n {
                assert(hex_spec(bytes)[2 * i] == hex_spec(init)[2 * i]);
                assert(hex_spec(bytes)[2 * i + 1] == hex_spec(init)[2 * i + 1]);
                assert(init[i] == bytes[i]);
            }
        }
    }
}

/// `[0-9a-f]`.
pub open spec fn is_lower_hex(c: char) -> bool {
    ('0' <= c && c <= '9') || ('a' <= c && c <= 'f')
}

/// Canonical digest text: 64 lowercase hexadecimal characters.
pub open spec fn valid_digest(s: Seq<char>) -> bool {
    s.len() == 64 && forall|i: int| 0 <= i < s.len() ==> is_lower_hex(#[trigger] s[i])
}

/// The parts of a digest request, as byte strings.
pub open spec fn parts_bytes(parts: Seq<(&str, &[u8])>) -> Seq<(Seq<u8>, Seq<u8>)> {
    parts.map_values(|p: (&str, &[u8])| (p.0.spec_bytes(), p.1@))
}

/// The digest of a package whose canonical manifest is `m`: the framed parts `manifest`
/// (the manifest's compact JSON), `entry-path` and `entry`.
pub open spec fn package_digest(m: ManifestView, entry_path: Seq<u8>, entry: Seq<u8>) -> Seq<char> {
    hex_spec(sha256_spec(frame_parts(seq![
        ("manifest".spec_bytes(), manifest_json(m)),
        ("entry-path".spec_bytes(), entry_path),
        ("entry".spec_bytes(), entry),
    ])))
}

/// A failure while parsing or computing a content digest.
#[derive(Debug, Clone, PartialEq, Eq)]
pub enum DigestError {
    /// The digest did not contain exactly 64 bytes.
    InvalidLength {
        /// Number of bytes supplied.
        length: usize,
    },
    /// The digest contained a non-hexadecimal character.
    InvalidHex,
    /// Canonical manifest encoding failed.
    Serialize(String),
}

/// The message of a digest error.
pub open spec fn digest_error_text(error: DigestError) -> Seq<char> {
    match error {
        DigestError::InvalidLength { length } => "SHA-256 digest must contain 64 characters, found "@
            + crate::text::decimal(length as nat),
        DigestError::InvalidHex => "SHA-256 digest contains a non-hexadecimal character"@,
        DigestError::Serialize(detail) => "canonical manifest encoding failed: "@ + detail@,
    }
}

impl DigestError {
    /// The human-readable message of the error.
    pub fn to_string(&self) -> (text: String)
        ensures
            text@ == digest_error_text(*self),
    {
        match self {
            DigestError::InvalidLength { length } => {
                let mut text = String::from_str("SHA-256 digest must contain 64 characters, found ");
                crate::text::push_decimal(&mut text, *length as u64);
                text
            },
            DigestError::InvalidHex => String::from_str("SHA-256 digest contains a non-hexadecimal character"),
            DigestError::Serialize(detail) => {
                let text = String::from_str("canonical manifest encoding failed: ");
                text.concat(detail.as_str())
            },
        }
    }
}

/// A lowercase hexadecimal SHA-256 content digest.
#[derive(Debug, Hash)]
pub struct ContentDigest(String);

impl View for ContentDigest {
    type V = Seq<char>;

    closed spec fn view(&self) -> Seq<char> {
        self.0@
    }
}

impl PartialEq for ContentDigest {
    fn eq(&self, other: &Self) -> (same: bool) {
        self.0 == other.0
    }
}

impl vstd::std_specs::cmp::PartialEqSpecImpl for ContentDigest {
    open spec fn obeys_eq_spec() -> bool {
        true
    }

    open spec fn eq_spec(&self, other: &Self) -> bool {
        self@ == other@
    }
}

impl Eq for ContentDigest {
}

/// Appends `n` as `width` big-endian bytes.
fn push_be(out: &mut Vec<u8>, n: u64, width: u64)
    requires
        width <= 8,
    ensures
        final(out)@ == old(out)@ + be_bytes(n as nat, width as nat),
    decreases width,
{
    if width > 0 {
        push_be(out, n / 256, width - 1);
        out.push((n % 256) as u8);
        assert(out@ =~= old(out)@ + be_bytes(n as nat, width as nat));
    } else {
        assert(out@ =~= old(out)@ + be_bytes(n as nat, width as nat));
    }
}

/// Appends a length-framed part.
fn push_frame(out: &mut Vec<u8>, bytes: &[u8])
    ensures
        final(out)@ == old(out)@ + frame(bytes@),
{
    push_be(out, bytes.len() as u64, 8);
    let mut i: usize = 0;
    let ghost start = out@;
    while i < bytes.len()
        invariant
            i <= bytes@.len(),
            out@ == start + bytes@.take(i as int),
        decreases bytes.len() - i,
    {
        out.push(bytes[i]);
        assert(out@ =~= start + bytes@.take(i + 1));
        i = i + 1;
    }
    assert(bytes@.take(i as int) =~= bytes@);
    assert(out@ =~= old(out)@ + frame(bytes@));
}

fn hex_digit_of(d: u8) -> (c: char)
    requires
        d < 16,
    ensures
        c == hex_digit(d as nat),
{
    if d < 10 {
        (('0' as u8) + d) as char
    } else {
        (('a' as u8) + d - 10) as char
    }
}

/// Lowercase hexadecimal text of `bytes`.
pub(crate) fn hex(bytes: &Vec<u8>) -> (text: String)
    ensures
        text@ == hex_spec(bytes@),
{
    let mut text = String::new();
    let mut i: usize = 0;
    while i < bytes.len()
        invariant
            i <= bytes@.len(),
            text@ == hex_spec(bytes@.take(i as int)),
        decreases bytes.len() - i,
    {
        let b = bytes[i];
        assert(bytes@.take(i + 1).drop_last() =~= bytes@.take(i as int));
        push_char(&mut text, hex_digit_of(b / 16));
        push_char(&mut text, hex_digit_of(b % 16));
        i = i + 1;
    }
    assert(bytes@.take(i as int) =~= bytes@);
    text
}

proof fn lemma_hex_valid(bytes: Seq<u8>)
    ensures
        hex_spec(bytes).len() == 2 * bytes.len(),
        forall|i: int| 0 <= i < hex_spec(bytes).len() ==> is_lower_hex(#[trigger] hex_spec(bytes)[i]),
    decreases bytes.len(),
{
    if bytes.len() > 0 {
        lemma_hex_valid(bytes.drop_last());
        let b = bytes.last() as nat;
        assert(is_lower_hex(hex_digit(b / 16)));
        assert(is_lower_hex(hex_digit(b % 16)));
        let prev = hex_spec(bytes.drop_last());
        assert forall|i: int| 0 <= i < hex_spec(bytes).len() implies is_lower_hex(#[trigger] hex_spec(bytes)[i]) by {
            if i < prev.len() {
                assert(hex_spec(bytes)[i] == prev[i]);
            }
        }
    }
}

impl ContentDigest {
    #[verifier::type_invariant]
    spec fn well_formed(self) -> bool {
        valid_digest(self.0@)
    }

    /// Parses a lowercase hexadecimal SHA-256 digest.
    pub fn parse(value: &str) -> (result: Result<ContentDigest, DigestError>)
        ensures
            match result {
                Ok(digest) => value.spec_bytes().len() == 64 && valid_digest(value@) && digest@ == value@,
                Err(DigestError::InvalidLength { length }) => value.spec_bytes().len() as usize != 64
                    && length == value.spec_bytes().len() as usize,
                Err(DigestError::InvalidHex) => value.spec_bytes().len() as usize == 64 && !valid_digest(value@),
                Err(DigestError::Serialize(_)) => false,
            },
    {
        if value.len() != 64 {
            return Err(DigestError::InvalidLength { length: value.len() });
        }
        let chars = chars_of(value);
        let mut i: usize = 0;
        while i < chars.len()
            invariant
                chars@ == value@,
                value.spec_bytes().len() as usize == 64,
                i <= chars@.len(),
                forall|j: int| 0 <= j < i ==> is_lower_hex(#[trigger] chars@[j]),
            decreases chars.len() - i,
        {
            let c = chars[i];
            if !((c >= '0' && c <= '9') || (c >= 'a' && c <= 'f')) {
                return Err(DigestError::InvalidHex);
            }
            i = i + 1;
        }
        proof {
            assert(vstd::string::is_ascii(value));
            assert(value.spec_bytes().len() == value@.len());
        }
        Ok(ContentDigest(String::from_str(value)))
    }

    /// Computes a framed digest from named byte slices.
    pub fn from_parts(parts: &[(&str, &[u8])]) -> (digest: ContentDigest)
        ensures
            digest@ == hex_spec(sha256_spec(frame_parts(parts_bytes(parts@)))),
    {
        let mut framed: Vec<u8> = Vec::new();
        let mut i: usize = 0;
        while i < parts.len()
            invariant
                i <= parts@.len(),
                framed@ == frame_parts(parts_bytes(parts@.take(i as int))),
            decreases parts.len() - i,
        {
            let (name, bytes) = parts[i];
            push_frame(&mut framed, name.as_bytes());
            push_frame(&mut framed, bytes);
            assert(parts_bytes(parts@.take(i + 1)).drop_last() =~= parts_bytes(parts@.take(i as int)));
            assert(parts_bytes(parts@.take(i + 1)).last() == (name.spec_bytes(), bytes@));
            i = i + 1;
        }
        assert(parts@.take(i as int) =~= parts@);
        let digest = sha256(framed.as_slice());
        let text = hex(&digest);
        proof {
            lemma_hex_valid(digest@);
        }
        ContentDigest(text)
    }

    /// The digest of an already encoded canonical manifest together with the package entry:
    /// the parts `manifest`, `entry-path` and `entry`, in that order.
    pub fn for_package_encoded(manifest_bytes: &[u8], entry_path: &str, entry_bytes: &[u8]) -> (digest: ContentDigest)
        ensures
            digest@ == hex_spec(sha256_spec(frame_parts(seq![
                ("manifest".spec_bytes(), manifest_bytes@),
                ("entry-path".spec_bytes(), utf8(entry_path@)),
                ("entry".spec_bytes(), entry_bytes@),
            ]))),
    {
        let path_bytes = utf8_bytes(entry_path);
        let parts: [(&str, &[u8]); 3] = [("manifest", manifest_bytes), ("entry-path", path_bytes.as_slice()), ("entry", entry_bytes)];
        let slice = parts.as_slice();
        assert(parts_bytes(slice@) =~= seq![
                ("manifest".spec_bytes(), manifest_bytes@),
                ("entry-path".spec_bytes(), utf8(entry_path@)),
                ("entry".spec_bytes(), entry_bytes@),
            ]);
        ContentDigest::from_parts(slice)
    }

    /// The digest of a package: its manifest in canonical form, encoded as compact JSON,
    /// then the entry path and the entry bytes. A manifest that does not validate cannot be
    /// put in canonical form and has no digest.
    pub fn for_package(manifest: &Manifest, entry_path: &str, entry_bytes: &[u8]) -> (result: Result<ContentDigest, DigestError>)
        ensures
            match result {
                Ok(digest) => manifest_problems(manifest@).len() == 0 && exists|c: ManifestView|
                    canonical_manifest(c, manifest@) && digest@ == #[trigger] package_digest(
                        c,
                        utf8(entry_path@),
                        entry_bytes@,
                    ),
                Err(DigestError::Serialize(detail)) => manifest_problems(manifest@).len() > 0
                    && detail@ == "manifest"@ + " is invalid: "@ + joined_problems(manifest_problems(manifest@)),
                Err(_) => false,
            },
    {
        let mut canonical = manifest.duplicate();
        match canonical.canonicalize() {
            Ok(()) => {
                let bytes = manifest_json_bytes(&canonical);
                let digest = ContentDigest::for_package_encoded(bytes.as_slice(), entry_path, entry_bytes);
                assert(canonical_manifest(canonical@, manifest@) && digest@ == package_digest(
                    canonical@,
                    utf8(entry_path@),
                    entry_bytes@,
                ));
                Ok(digest)
            },
            Err(error) => Err(DigestError::Serialize(error.to_string())),
        }
    }

    /// Returns the hexadecimal digest text.
    pub fn as_str(&self) -> (text: &str)
        ensures
            text@ == self@,
            valid_digest(self@),
    {
        proof {
            use_type_invariant(self);
        }
        self.0.as_str()
    }

    /// Returns the digest algorithm name.
    pub fn algorithm() -> (name: &'static str)
        ensures
            name@ == "sha256"@,
    {
        "sha256"
    }

    /// Consumes the digest and returns its hexadecimal text.
    pub fn into_string(self) -> (text: String)
        ensures
            text@ == self@,
    {
        self.0
    }

    /// A copy of this digest.
    pub fn duplicate(&self) -> (copy: ContentDigest)
        ensures
            copy@ == self@,
    {
        proof {
            use_type_invariant(self);
        }
        ContentDigest(self.0.clone())
    }
}

} // verus!
