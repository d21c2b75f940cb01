//! The compact JSON encoding of a manifest: the manifest bytes a package digest covers.
//!
//! Fields appear in declaration order (`name`, `version`, `entry`, `dependencies`,
//! `targets`, `capabilities`); a dependency lists `name`, its `version` where it declares
//! one, then its source tagged by `type`. Strings are written as UTF-8 with `"` and `\`
//! escaped, the usual short escapes for backspace, form feed, newline, carriage return and
//! tab, and `\u00xx` (lowercase hexadecimal) for the other control characters below 0x20.
use vstd::prelude::*;

use crate::package::lock::{PackageSource, SourceView};
use crate::package::manifest::{Dependency, DependencyView, Manifest, ManifestView};
use crate::text::chars_of;
use vstd::string::*;

verus! {

/// The UTF-8 encoding of one character.
pub open spec fn utf8_char(c: char) -> Seq<u8> {
    let u = c as u32;
    if u < 0x80 {
        seq![u as u8]
    } else if u < 0x800 {
        seq![(0xC0u32 | (u >> 6u32)) as u8, (0x80u32 | (u & 0x3Fu32)) as u8]
    } else if u < 0x10000 {
        seq![
            (0xE0u32 | (u >> 12u32)) as u8,
            (0x80u32 | ((u >> 6u32) & 0x3Fu32)) as u8,
            (0x80u32 | (u & 0x3Fu32)) as u8,
        ]
    } else {
        seq![
            (0xF0u32 | (u >> 18u32)) as u8,
            (0x80u32 | ((u >> 12u32) & 0x3Fu32)) as u8,
            (0x80u32 | ((u >> 6u32) & 0x3Fu32)) as u8,
            (0x80u32 | (u & 0x3Fu32)) as u8,
        ]
    }
}

/// The UTF-8 encoding of text.
pub open spec fn utf8(s: Seq<char>) -> Seq<u8>
    decreases s.len(),
{
    if s.len() == 0 {
        Seq::empty()
    } else {
        utf8(s.drop_last()) + utf8_char(s.last())
    }
}

/// A lowercase hexadecimal digit, as an ASCII byte.
pub open spec fn hex_byte(d: u32) -> u8 {
    if d < 10 {
        (48 + d) as u8
    } else {
        (87 + d) as u8
    }
}

/// One character inside a JSON string.
pub open spec fn json_char(c: char) -> Seq<u8> {
    let u = c as u32;
    if u == 34 {
        seq![92u8, 34u8]
    } else if u == 92 {
        seq![92u8, 92u8]
    } else if u == 8 {
        seq![92u8, 98u8]
    } else if u == 12 {
        seq![92u8, 102u8]
    } else if u == 10 {
        seq![92u8, 110u8]
    } else if u == 13 {
        seq![92u8, 114u8]
    } else if u == 9 {
        seq![92u8, 116u8]
    } else if u < 32 {
        seq![92u8, 117u8, 48u8, 48u8, hex_byte(u / 16), hex_byte(u % 16)]
    } else {
        utf8_char(c)
    }
}

/// The characters of a JSON string, escaped.
pub open spec fn json_chars(s: Seq<char>) -> Seq<u8>
    decreases s.len(),
{
    if s.len() == 0 {
        Seq::empty()
    } else {
        json_chars(s.drop_last()) + json_char(s.last())
    }
}

/// A JSON string literal.
pub open spec fn json_string(s: Seq<char>) -> Seq<u8> {
    seq![34u8] + json_chars(s) + seq![34u8]
}

/// The bytes of ASCII text.
pub open spec fn ascii(s: Seq<char>) -> Seq<u8> {
    s.map_values(|c: char| c as u8)
}

/// JSON strings separated by commas.
pub open spec fn json_string_list(items: Seq<Seq<char>>) -> Seq<u8>
    decreases items.len(),
{
    if items.len() == 0 {
        Seq::empty()
    } else if items.len() == 1 {
        json_string(items[0])
    } else {
        json_string_list(items.drop_last()) + ascii(","@) + json_string(items.last())
    }
}

/// The fields of a source, each preceded by a comma: the tag, then its own fields.
pub open spec fn json_source_fields(s: SourceView) -> Seq<u8> {
    match s {
        SourceView::Path(path) => ascii(",\"type\":\"path\",\"path\":"@) + json_string(path),
        SourceView::GitHub(repository, revision, subpath) => ascii(",\"type\":\"github\",\"repository\":"@)
            + json_string(repository) + ascii(",\"revision\":"@) + json_string(revision) + ascii(
            ",\"subpath\":"@,
        ) + json_string(subpath),
    }
}

/// One dependency as a JSON object.
pub open spec fn json_dependency(d: DependencyView) -> Seq<u8> {
    ascii("{\"name\":"@) + json_string(d.name) + match d.version {
        Some(v) => ascii(",\"version\":"@) + json_string(v),
        None => Seq::empty(),
    } + json_source_fields(d.source) + ascii("}"@)
}

/// Dependency objects separated by commas.
pub open spec fn json_dependency_list(items: Seq<DependencyView>) -> Seq<u8>
    decreases items.len(),
{
    if items.len() == 0 {
        Seq::empty()
    } else if items.len() == 1 {
        json_dependency(items[0])
    } else {
        json_dependency_list(items.drop_last()) + ascii(","@) + json_dependency(items.last())
    }
}

/// A manifest as one compact JSON object.
pub open spec fn manifest_json(m: ManifestView) -> Seq<u8> {
    ascii("{\"name\":"@) + json_string(m.name) + ascii(",\"version\":"@) + json_string(m.version)
        + ascii(",\"entry\":"@) + json_string(m.entry) + ascii(",\"dependencies\":["@)
        + json_dependency_list(m.dependencies) + ascii("],\"targets\":["@) + json_string_list(
        m.targets,
    ) + ascii("],\"capabilities\":["@) + json_string_list(m.capabilities) + ascii("]}"@)
}

/// Appends ASCII text.
fn push_ascii(out: &mut Vec<u8>, text: &str)
    ensures
        final(out)@ == old(out)@ + ascii(text@),
{
    let chars = chars_of(text);
    let ghost start = out@;
    let mut i: usize = 0;
    while i < chars.len()
        invariant
            chars@ == text@,
            i <= chars@.len(),
            out@ == start + ascii(chars@.take(i as int)),
        decreases chars.len() - i,
    {
        out.push(chars[i] as u8);
        assert(ascii(chars@.take(i + 1)) =~= ascii(chars@.take(i as int)).push(chars@[i as int] as u8));
        i = i + 1;
    }
    assert(chars@.take(i as int) =~= chars@);
}

/// Appends the UTF-8 encoding of a character.
fn push_utf8(out: &mut Vec<u8>, c: char)
    ensures
        final(out)@ == old(out)@ + utf8_char(c),
{
    let u = c as u32;
    if u < 0x80 {
        out.push(u as u8);
    } else if u < 0x800 {
        out.push((0xC0u32 | (u >> 6u32)) as u8);
        out.push((0x80u32 | (u & 0x3Fu32)) as u8);
    } else if u < 0x10000 {
        out.push((0xE0u32 | (u >> 12u32)) as u8);
        out.push((0x80u32 | ((u >> 6u32) & 0x3Fu32)) as u8);
        out.push((0x80u32 | (u & 0x3Fu32)) as u8);
    } else {
        out.push((0xF0u32 | (u >> 18u32)) as u8);
        out.push((0x80u32 | ((u >> 12u32) & 0x3Fu32)) as u8);
        out.push((0x80u32 | ((u >> 6u32) & 0x3Fu32)) as u8);
        out.push((0x80u32 | (u & 0x3Fu32)) as u8);
    }
}

/// The UTF-8 encoding of `text`.
pub fn utf8_bytes(text: &str) -> (bytes: Vec<u8>)
    ensures
        bytes@ == utf8(text@),
{
    let chars = chars_of(text);
    let mut out: Vec<u8> = Vec::new();
    let mut i: usize = 0;
    while i < chars.len()
        invariant
            chars@ == text@,
            i <= chars@.len(),
            out@ == utf8(chars@.take(i as int)),
        decreases chars.len() - i,
    {
        push_utf8(&mut out, chars[i]);
        assert(chars@.take(i + 1).drop_last() =~= chars@.take(i as int));
        i = i + 1;
    }
    assert(chars@.take(i as int) =~= chars@);
    out
}

/// A lowercase hexadecimal digit.
fn hex_digit_byte(d: u32) -> (b: u8)
    requires
        d < 16,
    ensures
        b == hex_byte(d),
{
    if d < 10 {
        (48 + d) as u8
    } else {
        (87 + d) as u8
    }
}

/// Appends one character of a JSON string.
fn push_json_char(out: &mut Vec<u8>, c: char)
    ensures
        final(out)@ == old(out)@ + json_char(c),
{
    let u = c as u32;
    if u == 34 {
        out.push(92u8);
        out.push(34u8);
    } else if u == 92 {
        out.push(92u8);
        out.push(92u8);
    } else if u == 8 {
        out.push(92u8);
        out.push(98u8);
    } else if u == 12 {
        out.push(92u8);
        out.push(102u8);
    } else if u == 10 {
        out.push(92u8);
        out.push(110u8);
    } else if u == 13 {
        out.push(92u8);
        out.push(114u8);
    } else if u == 9 {
        out.push(92u8);
        out.push(116u8);
    } else if u < 32 {
        out.push(92u8);
        out.push(117u8);
        out.push(48u8);
        out.push(48u8);
        out.push(hex_digit_byte(u / 16));
        out.push(hex_digit_byte(u % 16));
    } else {
        push_utf8(out, c);
        return;
    }
    assert(final(out)@ =~= old(out)@ + json_char(c)) by {
        assert(out@ =~= old(out)@ + json_char(c));
    }
}

/// Appends a JSON string literal.
fn push_json_string(out: &mut Vec<u8>, text: &str)
    ensures
        final(out)@ == old(out)@ + json_string(text@),
{
    let chars = chars_of(text);
    let ghost start = out@;
    out.push(34u8);
    let mut i: usize = 0;
    while i < chars.len()
        invariant
            chars@ == text@,
            i <= chars@.len(),
            out@ == start + seq![34u8] + json_chars(chars@.take(i as int)),
        decreases chars.len() - i,
    {
        let ghost before = out@;
        push_json_char(out, chars[i]);
        assert(chars@.take(i + 1).drop_last() =~= chars@.take(i as int));
        assert(out@ =~= start + seq![34u8] + json_chars(chars@.take(i + 1)));
        i = i + 1;
    }
    assert(chars@.take(i as int) =~= chars@);
    out.push(34u8);
    assert(out@ =~= start + json_string(text@));
}

/// Appends JSON strings separated by commas.
fn push_json_string_list(out: &mut Vec<u8>, items: &Vec<String>)
    ensures
        final(out)@ == old(out)@ + json_string_list(crate::text::string_views(items@)),
{
    let ghost views = crate::text::string_views(items@);
    let ghost start = out@;
    let mut i: usize = 0;
    while i < items.len()
        invariant
            views == crate::text::string_views(items@),
            i <= items@.len(),
            out@ == start + json_string_list(views.take(i as int)),
        decreases items.len() - i,
    {
        assert(views.take(i + 1).drop_last() =~= views.take(i as int));
        assert(views.take(i + 1).last() == items@[i as int]@);
        if i > 0 {
            push_ascii(out, ",");
        }
        push_json_string(out, items[i].as_str());
        proof {
            if i == 0 {
                assert(views.take(1) =~= seq![items@[0]@]);
            }
        }
        assert(out@ =~= start + json_string_list(views.take(i + 1)));
        i = i + 1;
    }
    assert(views.take(i as int) =~= views);
}

/// Appends the source fields of a dependency.
fn push_source_fields(out: &mut Vec<u8>, source: &PackageSource)
    ensures
        final(out)@ == old(out)@ + json_source_fields(source@),
{
    let ghost start = out@;
    match source {
        PackageSource::Path { path } => {
            push_ascii(out, ",\"type\":\"path\",\"path\":");
            push_json_string(out, path.as_str());
        },
        PackageSource::GitHub { repository, revision, subpath } => {
            push_ascii(out, ",\"type\":\"github\",\"repository\":");
            push_json_string(out, repository.as_str());
            push_ascii(out, ",\"revision\":");
            push_json_string(out, revision.as_str());
            push_ascii(out, ",\"subpath\":");
            push_json_string(out, subpath.as_str());
        },
    }
    assert(out@ =~= start + json_source_fields(source@));
}

/// Appends one dependency object.
fn push_dependency(out: &mut Vec<u8>, dependency: &Dependency)
    ensures
        final(out)@ == old(out)@ + json_dependency(dependency@),
{
    let ghost start = out@;
    push_ascii(out, "{\"name\":");
    push_json_string(out, dependency.name.as_str());
    match &dependency.version {
        Some(version) => {
            push_ascii(out, ",\"version\":");
            push_json_string(out, version.as_str());
        },
        None => {},
    }
    push_source_fields(out, &dependency.source);
    push_ascii(out, "}");
    assert(out@ =~= start + json_dependency(dependency@));
}

/// Appends dependency objects separated by commas.
fn push_dependency_list(out: &mut Vec<u8>, items: &Vec<Dependency>)
    ensures
        final(out)@ == old(out)@ + json_dependency_list(crate::package::manifest::dependency_views(items@)),
{
    let ghost views = crate::package::manifest::dependency_views(items@);
    let ghost start = out@;
    let mut i: usize = 0;
    while i < items.len()
        invariant
            views == crate::package::manifest::dependency_views(items@),
            i <= items@.len(),
            out@ == start + json_dependency_list(views.take(i as int)),
        decreases items.len() - i,
    {
        assert(views.take(i + 1).drop_last() =~= views.take(i as int));
        assert(views.take(i + 1).last() == items@[i as int]@);
        if i > 0 {
            push_ascii(out, ",");
        }
        push_dependency(out, &items[i]);
        proof {
            if i == 0 {
                assert(views.take(1) =~= seq![items@[0]@]);
            }
        }
        assert(out@ =~= start + json_dependency_list(views.take(i + 1)));
        i = i + 1;
    }
    assert(views.take(i as int) =~= views);
}

/// The compact JSON encoding of a manifest, fields in declaration order.
pub fn manifest_json_bytes(manifest: &Manifest) -> (bytes: Vec<u8>)
    ensures
        bytes@ == manifest_json(manifest@),
{
    let mut out: Vec<u8> = Vec::new();
    push_ascii(&mut out, "{\"name\":");
    push_json_string(&mut out, manifest.name.as_str());
    push_ascii(&mut out, ",\"version\":");
    push_json_string(&mut out, manifest.version.as_str());
    push_ascii(&mut out, ",\"entry\":");
    push_json_string(&mut out, manifest.entry.as_str());
    push_ascii(&mut out, ",\"dependencies\":[");
    push_dependency_list(&mut out, &manifest.dependencies);
    push_ascii(&mut out, "],\"targets\":[");
    push_json_string_list(&mut out, &manifest.targets);
    push_ascii(&mut out, "],\"capabilities\":[");
    push_json_string_list(&mut out, &manifest.capabilities);
    push_ascii(&mut out, "]}");
    assert(out@ =~= manifest_json(manifest@));
    out
}

} // verus!
