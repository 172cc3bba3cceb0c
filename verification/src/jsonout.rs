//! The manifest's serialized form: pretty-printed UTF-8 JSON with stable
//! field names, rendered and specified character by character.
//!
//! String values are escaped as JSON asks: quote and backslash, the named
//! control escapes, and `\u00XX` for the remaining control characters. The
//! two optional certificate fields are omitted entirely when absent.

use vstd::prelude::*;

use crate::manifest::{artwork_views, ArtworkFile, ArtworkFileAbs, Metadata, MetadataAbs};
use crate::text::{push_dec_i32, push_dec_u64, spec_dec_int, spec_dec_nat, string_push};

verus! {

/// The hexadecimal digit character for `d`, lowercase.
pub open spec fn spec_hex_char(d: nat) -> char {
    if d < 10 {
        ((48 + d) as u8) as char
    } else {
        ((87 + d) as u8) as char
    }
}

/// The JSON escape of one character: quote and backslash are escaped, the
/// control characters with named escapes use them, the other control
/// characters become `\u00XX`, and everything else stands for itself.
pub open spec fn spec_escaped_char(c: char) -> Seq<char> {
    if c == '"' {
        seq!['\\', '"']
    } else if c == '\\' {
        seq!['\\', '\\']
    } else if c == '\u{8}' {
        seq!['\\', 'b']
    } else if c == '\t' {
        seq!['\\', 't']
    } else if c == '\n' {
        seq!['\\', 'n']
    } else if c == '\u{c}' {
        seq!['\\', 'f']
    } else if c == '\r' {
        seq!['\\', 'r']
    } else if (c as u32) < 32 {
        seq!['\\', 'u', '0', '0', spec_hex_char((c as u32) as nat / 16), spec_hex_char((
        c as u32) as nat % 16)]
    } else {
        seq![c]
    }
}

/// The JSON escape of a whole string.
pub open spec fn spec_escaped(s: Seq<char>) -> Seq<char>
    decreases s.len(),
{
    if s.len() == 0 {
        Seq::empty()
    } else {
        spec_escaped(s.drop_last()) + spec_escaped_char(s.last())
    }
}

/// A JSON string value: the escaped characters between quotes.
pub open spec fn spec_quoted(s: Seq<char>) -> Seq<char> {
    seq!['"'] + spec_escaped(s) + seq!['"']
}

fn hex_char(d: u32) -> (r: char)
    requires
        d < 16,
    ensures
        r == spec_hex_char(d as nat),
{
    if d < 10 {
        (48 + (d as u8)) as char
    } else {
        (87 + (d as u8)) as char
    }
}

fn push_escaped_char(out: &mut String, c: char)
    ensures
        final(out)@ == old(out)@ + spec_escaped_char(c),
{
    if c == '"' {
        string_push(out, '\\');
        string_push(out, '"');
    } else if c == '\\' {
        string_push(out, '\\');
        string_push(out, '\\');
    } else if c == '\u{8}' {
        string_push(out, '\\');
        string_push(out, 'b');
    } else if c == '\t' {
        string_push(out, '\\');
        string_push(out, 't');
    } else if c == '\n' {
        string_push(out, '\\');
        string_push(out, 'n');
    } else if c == '\u{c}' {
        string_push(out, '\\');
        string_push(out, 'f');
    } else if c == '\r' {
        string_push(out, '\\');
        string_push(out, 'r');
    } else if (c as u32) < 32 {
        let n = c as u32;
        string_push(out, '\\');
        string_push(out, 'u');
        string_push(out, '0');
        string_push(out, '0');
        string_push(out, hex_char(n / 16));
        string_push(out, hex_char(n % 16));
    } else {
        string_push(out, c);
    }
}

fn push_quoted(out: &mut String, s: &str)
    ensures
        final(out)@ == old(out)@ + spec_quoted(s@),
{
    string_push(out, '"');
    let len = s.unicode_len();
    let mut i: usize = 0;
    while i < len
        invariant
            len == s@.len(),
            i <= len,
            out@ == old(out)@ + seq!['"'] + spec_escaped(s@.subrange(0, i as int)),
        decreases len - i,
    {
        let c = s.get_char(i);
        push_escaped_char(out, c);
        proof {
            assert(s@.subrange(0, i + 1).drop_last() =~= s@.subrange(0, i as int));
            assert(s@.subrange(0, i + 1).last() == s@[i as int]);
        }
        i = i + 1;
    }
    string_push(out, '"');
    proof {
        assert(s@.subrange(0, len as int) =~= s@);
        assert(final(out)@ =~= old(out)@ + spec_quoted(s@));
    }
}

/// The rendering of the items of a non-empty JSON array of strings, at the
/// manifest's depth: each on its own line, indented.
pub open spec fn spec_string_items(items: Seq<Seq<char>>) -> Seq<char>
    decreases items.len(),
{
    if items.len() <= 1 {
        spec_quoted(items[0])
    } else {
        spec_string_items(items.drop_last()) + ",\n    "@ + spec_quoted(items.last())
    }
}

/// The rendering of a JSON array of strings at the manifest's depth; an
/// empty array is `[]`.
pub open spec fn spec_string_array(items: Seq<Seq<char>>) -> Seq<char> {
    if items.len() == 0 {
        "[]"@
    } else {
        "[\n    "@ + spec_string_items(items) + "\n  ]"@
    }
}

fn push_string_array(out: &mut String, items: &Vec<String>)
    ensures
        final(out)@ == old(out)@ + spec_string_array(items@.map_values(|s: String| s@)),
{
    let ghost views = items@.map_values(|s: String| s@);
    if items.len() == 0 {
        out.append("[]");
        return ;
    }
    out.append("[\n    ");
    push_quoted(out, items[0].as_str());
    proof {
        assert(views.take(1) =~= seq![views[0]]);
    }
    let mut i: usize = 1;
    while i < items.len()
        invariant
            1 <= i <= items@.len(),
            views == items@.map_values(|s: String| s@),
            views.len() == items@.len(),
            out@ == old(out)@ + "[\n    "@ + spec_string_items(views.take(i as int)),
        decreases items@.len() - i,
    {
        out.append(",\n    ");
        push_quoted(out, items[i].as_str());
        proof {
            assert(views.take(i + 1).drop_last() =~= views.take(i as int));
            assert(views.take(i + 1).last() == views[i as int]);
        }
        i = i + 1;
    }
    out.append("\n  ]");
    proof {
        assert(views.take(views.len() as int) =~= views);
    }
}

/// The rendering of one file record as a JSON object in the manifest's
/// `artwork_files` array.
pub open spec fn spec_file_object(af: ArtworkFileAbs) -> Seq<char> {
    "{\n      \"path\": "@ + spec_quoted(af.path) + ",\n      \"file_name\": "@ + spec_quoted(
        af.file_name,
    ) + ",\n      \"file_hash\": "@ + spec_quoted(af.file_hash) + ",\n      \"file_size\": "@
        + spec_dec_nat(af.file_size as nat) + ",\n      \"format\": "@ + spec_quoted(af.format)
        + "\n    }"@
}

/// The rendering of the items of a non-empty `artwork_files` array.
pub open spec fn spec_file_items(files: Seq<ArtworkFileAbs>) -> Seq<char>
    decreases files.len(),
{
    if files.len() <= 1 {
        spec_file_object(files[0])
    } else {
        spec_file_items(files.drop_last()) + ",\n    "@ + spec_file_object(files.last())
    }
}

/// The rendering of the `artwork_files` array; an empty one is `[]`.
pub open spec fn spec_files_array(files: Seq<ArtworkFileAbs>) -> Seq<char> {
    if files.len() == 0 {
        "[]"@
    } else {
        "[\n    "@ + spec_file_items(files) + "\n  ]"@
    }
}

fn push_file_object(out: &mut String, af: &ArtworkFile)
    ensures
        final(out)@ == old(out)@ + spec_file_object(af@),
{
    out.append("{\n      \"path\": ");
    push_quoted(out, af.path.as_str());
    out.append(",\n      \"file_name\": ");
    push_quoted(out, af.file_name.as_str());
    out.append(",\n      \"file_hash\": ");
    push_quoted(out, af.file_hash.as_str());
    out.append(",\n      \"file_size\": ");
    push_dec_u64(out, af.file_size);
    out.append(",\n      \"format\": ");
    push_quoted(out, af.format.as_str());
    out.append("\n    }");
}

fn push_files_array(out: &mut String, files: &Vec<ArtworkFile>)
    ensures
        final(out)@ == old(out)@ + spec_files_array(
            files@.map_values(|af: ArtworkFile| af@),
        ),
{
    let ghost views = files@.map_values(|af: ArtworkFile| af@);
    if files.len() == 0 {
        out.append("[]");
        return ;
    }
    out.append("[\n    ");
    push_file_object(out, &files[0]);
    proof {
        assert(views.take(1) =~= seq![views[0]]);
    }
    let mut i: usize = 1;
    while i < files.len()
        invariant
            1 <= i <= files@.len(),
            views == files@.map_values(|af: ArtworkFile| af@),
            views.len() == files@.len(),
            out@ == old(out)@ + "[\n    "@ + spec_file_items(views.take(i as int)),
        decreases files@.len() - i,
    {
        out.append(",\n    ");
        push_file_object(out, &files[i]);
        proof {
            assert(views.take(i + 1).drop_last() =~= views.take(i as int));
            assert(views.take(i + 1).last() == views[i as int]);
        }
        i = i + 1;
    }
    out.append("\n  ]");
    proof {
        assert(views.take(views.len() as int) =~= views);
    }
}

/// The first four descriptive fields, rendered.
pub open spec fn header_a_json(a: Seq<char>, b: Seq<char>, c: Seq<char>, d: Seq<char>) -> Seq<
    char,
> {
    "{\n  \"artwork_id\": "@ + spec_quoted(a) + ",\n  \"artwork_title\": "@ + spec_quoted(b)
        + ",\n  \"artwork_short_title\": "@ + spec_quoted(c) + ",\n  \"artwork_creator\": "@
        + spec_quoted(d)
}

/// The year and the two descriptions, rendered.
pub open spec fn header_b_json(n: int, sd: Seq<char>, ld: Seq<char>) -> Seq<char> {
    ",\n  \"year_of_creation\": "@ + spec_dec_int(n) + ",\n  \"short_description\": "@
        + spec_quoted(sd) + ",\n  \"long_description\": "@ + spec_quoted(ld)
}

/// The edition numbers, the issue date and the gallery, rendered.
pub open spec fn header_c_json(e: int, tt: int, isd: Seq<char>, gal: Seq<char>) -> Seq<char> {
    ",\n  \"edition_number\": "@ + spec_dec_int(e) + ",\n  \"total_editions\": "@ + spec_dec_int(
        tt,
    ) + ",\n  \"issue_date\": "@ + spec_quoted(isd) + ",\n  \"gallery\": "@ + spec_quoted(gal)
}

/// The keyword and medium arrays, rendered.
pub open spec fn header_d_json(kw: Seq<Seq<char>>, med: Seq<Seq<char>>) -> Seq<char> {
    ",\n  \"keywords\": "@ + spec_string_array(kw) + ",\n  \"medium\": "@ + spec_string_array(med)
}

/// The descriptive half of the manifest's serialized form: the opening
/// brace and the caller-supplied fields, through the medium array, in this
/// fixed order.
pub open spec fn spec_header_json(m: MetadataAbs) -> Seq<char> {
    header_a_json(m.artwork_id, m.artwork_title, m.artwork_short_title, m.artwork_creator)
        + header_b_json(m.year_of_creation as int, m.short_description, m.long_description)
        + header_c_json(
        m.edition_number as int,
        m.total_editions as int,
        m.issue_date,
        m.gallery,
    ) + header_d_json(m.keywords, m.medium)
}

/// The two optional certificate fields of the serialized form; an absent
/// field is omitted entirely.
pub open spec fn spec_certificate_json(m: MetadataAbs) -> Seq<char> {
    (match m.certificate_of_authenticity {
        Some(p) => ",\n  \"certificate_of_authenticity\": "@ + spec_quoted(p),
        None => Seq::empty(),
    }) + (match m.certificate_hash {
        Some(h) => ",\n  \"certificate_hash\": "@ + spec_quoted(h),
        None => Seq::empty(),
    })
}

/// The tail of the serialized form: the file records and the closing brace.
pub open spec fn spec_files_tail_json(files: Seq<ArtworkFileAbs>) -> Seq<char> {
    ",\n  \"artwork_files\": "@ + spec_files_array(files) + "\n}"@
}

/// The manifest's full serialized form: a pretty-printed JSON object with
/// the descriptive fields, the keyword and medium arrays, the certificate
/// fields when present, and the file records, in this fixed order.
pub open spec fn spec_manifest_json(m: MetadataAbs) -> Seq<char> {
    spec_header_json(m) + spec_certificate_json(m) + spec_files_tail_json(m.artwork_files)
}

fn header_a_string(m: &Metadata) -> (r: String)
    ensures
        r@ == header_a_json(
            m.artwork_id@,
            m.artwork_title@,
            m.artwork_short_title@,
            m.artwork_creator@,
        ),
{
    let mut out = String::new();
    out.append("{\n  \"artwork_id\": ");
    push_quoted(&mut out, m.artwork_id.as_str());
    out.append(",\n  \"artwork_title\": ");
    push_quoted(&mut out, m.artwork_title.as_str());
    out.append(",\n  \"artwork_short_title\": ");
    push_quoted(&mut out, m.artwork_short_title.as_str());
    out.append(",\n  \"artwork_creator\": ");
    push_quoted(&mut out, m.artwork_creator.as_str());
    out
}

fn header_b_string(m: &Metadata) -> (r: String)
    ensures
        r@ == header_b_json(
            m.year_of_creation as int,
            m.short_description@,
            m.long_description@,
        ),
{
    let mut out = String::new();
    out.append(",\n  \"year_of_creation\": ");
    push_dec_i32(&mut out, m.year_of_creation);
    out.append(",\n  \"short_description\": ");
    push_quoted(&mut out, m.short_description.as_str());
    out.append(",\n  \"long_description\": ");
    push_quoted(&mut out, m.long_description.as_str());
    out
}

fn header_c_string(m: &Metadata) -> (r: String)
    ensures
        r@ == header_c_json(
            m.edition_number as int,
            m.total_editions as int,
            m.issue_date@,
            m.gallery@,
        ),
{
    let mut out = String::new();
    out.append(",\n  \"edition_number\": ");
    push_dec_i32(&mut out, m.edition_number);
    out.append(",\n  \"total_editions\": ");
    push_dec_i32(&mut out, m.total_editions);
    out.append(",\n  \"issue_date\": ");
    push_quoted(&mut out, m.issue_date.as_str());
    out.append(",\n  \"gallery\": ");
    push_quoted(&mut out, m.gallery.as_str());
    out
}

fn header_d_string(m: &Metadata) -> (r: String)
    ensures
        r@ == header_d_json(
            m.keywords@.map_values(|s: String| s@),
            m.medium@.map_values(|s: String| s@),
        ),
{
    let mut out = String::new();
    out.append(",\n  \"keywords\": ");
    push_string_array(&mut out, &m.keywords);
    out.append(",\n  \"medium\": ");
    push_string_array(&mut out, &m.medium);
    out
}

fn header_string(m: &Metadata) -> (r: String)
    ensures
        r@ == spec_header_json(m@),
{
    let mut out = header_a_string(m);
    let b = header_b_string(m);
    out.append(b.as_str());
    let c = header_c_string(m);
    out.append(c.as_str());
    let d = header_d_string(m);
    out.append(d.as_str());
    out
}

fn certificate_fields_string(m: &Metadata) -> (r: String)
    ensures
        r@ == spec_certificate_json(m@),
{
    let mut out = String::new();
    match &m.certificate_of_authenticity {
        Some(p) => {
            out.append(",\n  \"certificate_of_authenticity\": ");
            push_quoted(&mut out, p.as_str());
        },
        None => {},
    }
    match &m.certificate_hash {
        Some(h) => {
            out.append(",\n  \"certificate_hash\": ");
            push_quoted(&mut out, h.as_str());
        },
        None => {},
    }
    out
}

fn files_tail_string(m: &Metadata) -> (r: String)
    ensures
        r@ == spec_files_tail_json(artwork_views(m.artwork_files@)),
{
    let mut out = String::new();
    out.append(",\n  \"artwork_files\": ");
    push_files_array(&mut out, &m.artwork_files);
    out.append("\n}");
    out
}

/// Serializes a manifest to its JSON text.
pub fn manifest_json(m: &Metadata) -> (r: String)
    ensures
        r@ == spec_manifest_json(m@),
{
    let mut out = header_string(m);
    let certs = certificate_fields_string(m);
    out.append(certs.as_str());
    let tail = files_tail_string(m);
    out.append(tail.as_str());
    out
}

} // verus!
