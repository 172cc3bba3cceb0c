//! The manifest model and its assembly.
//!
//! A [`Metadata`] value holds the caller's descriptive fields, one
//! [`ArtworkFile`] record per hashed file, and an optional certificate
//! reference with its digest. Generation filters the handed-in directory
//! entries through the ignore rules, hashes each kept file's bytes, derives
//! its format label and assembles the manifest; everything is stated by
//! [`spec_generate`].
//!
//! The library never reads a directory itself: callers enumerate one level
//! of the target directory and hand each regular file in as a
//! [`ScannedFile`], in enumeration order; the manifest keeps that order.

use vstd::prelude::*;

use crate::classify::{format_label, spec_format_label};
use crate::hashing::{blake3_hex, hash_bytes, is_hex_digest};
use crate::rules::{should_ignore_file, spec_ignored};
use crate::text::{spec_underscored, str_eq, underscored};

verus! {

/// One regular file of the scanned directory: its name and its content.
pub struct ScannedFile {
    pub file_name: String,
    pub bytes: Vec<u8>,
}

/// The mathematical content of a [`ScannedFile`].
pub ghost struct ScannedFileAbs {
    pub file_name: Seq<char>,
    pub bytes: Seq<u8>,
}

impl View for ScannedFile {
    type V = ScannedFileAbs;

    open spec fn view(&self) -> ScannedFileAbs {
        ScannedFileAbs { file_name: self.file_name@, bytes: self.bytes@ }
    }
}

/// The views of a sequence of scanned files.
pub open spec fn scanned_views(s: Seq<ScannedFile>) -> Seq<ScannedFileAbs> {
    s.map_values(|e: ScannedFile| e@)
}

/// One hashed file as the manifest records it.
#[derive(Debug, Clone, PartialEq, Eq)]
pub struct ArtworkFile {
    pub path: String,
    pub file_name: String,
    pub file_hash: String,
    pub file_size: u64,
    pub format: String,
}

/// The mathematical content of an [`ArtworkFile`].
pub ghost struct ArtworkFileAbs {
    pub path: Seq<char>,
    pub file_name: Seq<char>,
    pub file_hash: Seq<char>,
    pub file_size: u64,
    pub format: Seq<char>,
}

impl View for ArtworkFile {
    type V = ArtworkFileAbs;

    open spec fn view(&self) -> ArtworkFileAbs {
        ArtworkFileAbs {
            path: self.path@,
            file_name: self.file_name@,
            file_hash: self.file_hash@,
            file_size: self.file_size,
            format: self.format@,
        }
    }
}

impl ArtworkFileAbs {
    /// A well-formed record carries a valid digest string and the
    /// manifest-relative `./name` form of its path.
    pub open spec fn wf(&self) -> bool {
        &&& is_hex_digest(self.file_hash)
        &&& self.path == "./"@ + self.file_name
    }
}

/// The views of a sequence of artwork files.
pub open spec fn artwork_views(s: Seq<ArtworkFile>) -> Seq<ArtworkFileAbs> {
    s.map_values(|e: ArtworkFile| e@)
}

/// The full manifest: descriptive fields supplied by the caller, the hashed
/// file records, and the optional certificate reference and digest.
#[derive(Debug, Clone, PartialEq, Eq)]
pub struct Metadata {
    pub artwork_id: String,
    pub artwork_title: String,
    pub artwork_short_title: String,
    pub artwork_creator: String,
    pub year_of_creation: i32,
    pub short_description: String,
    pub long_description: String,
    pub edition_number: i32,
    pub total_editions: i32,
    pub issue_date: String,
    pub gallery: String,
    pub keywords: Vec<String>,
    pub medium: Vec<String>,
    pub certificate_of_authenticity: Option<String>,
    pub certificate_hash: Option<String>,
    pub artwork_files: Vec<ArtworkFile>,
}

/// The mathematical content of a [`Metadata`].
pub ghost struct MetadataAbs {
    pub artwork_id: Seq<char>,
    pub artwork_title: Seq<char>,
    pub artwork_short_title: Seq<char>,
    pub artwork_creator: Seq<char>,
    pub year_of_creation: i32,
    pub short_description: Seq<char>,
    pub long_description: Seq<char>,
    pub edition_number: i32,
    pub total_editions: i32,
    pub issue_date: Seq<char>,
    pub gallery: Seq<char>,
    pub keywords: Seq<Seq<char>>,
    pub medium: Seq<Seq<char>>,
    pub certificate_of_authenticity: Option<Seq<char>>,
    pub certificate_hash: Option<Seq<char>>,
    pub artwork_files: Seq<ArtworkFileAbs>,
}

impl View for Metadata {
    type V = MetadataAbs;

    open spec fn view(&self) -> MetadataAbs {
        MetadataAbs {
            artwork_id: self.artwork_id@,
            artwork_title: self.artwork_title@,
            artwork_short_title: self.artwork_short_title@,
            artwork_creator: self.artwork_creator@,
            year_of_creation: self.year_of_creation,
            short_description: self.short_description@,
            long_description: self.long_description@,
            edition_number: self.edition_number,
            total_editions: self.total_editions,
            issue_date: self.issue_date@,
            gallery: self.gallery@,
            keywords: self.keywords@.map_values(|s: String| s@),
            medium: self.medium@.map_values(|s: String| s@),
            certificate_of_authenticity: match self.certificate_of_authenticity {
                Some(ref p) => Some(p@),
                None => None,
            },
            certificate_hash: match self.certificate_hash {
                Some(ref h) => Some(h@),
                None => None,
            },
            artwork_files: artwork_views(self.artwork_files@),
        }
    }
}

impl MetadataAbs {
    /// The manifest invariant: every record is well formed, no two records
    /// share a file name, and a recorded certificate digest is a valid
    /// digest string.
    pub open spec fn wf(&self) -> bool {
        &&& forall|i: int|
            0 <= i < self.artwork_files.len() ==> (#[trigger] self.artwork_files[i]).wf()
        &&& forall|i: int, j: int|
            0 <= i < j < self.artwork_files.len() ==> self.artwork_files[i].file_name
                != self.artwork_files[j].file_name
        &&& match self.certificate_hash {
            Some(h) => is_hex_digest(h),
            None => true,
        }
    }
}

/// The record generation produces for one kept file: the `./name` relative
/// path, the digest of the bytes, the byte count and the format label.
pub open spec fn spec_artwork_file_for(name: Seq<char>, bytes: Seq<u8>) -> ArtworkFileAbs {
    ArtworkFileAbs {
        path: "./"@ + name,
        file_name: name,
        file_hash: blake3_hex(bytes),
        file_size: bytes.len() as u64,
        format: spec_format_label(name),
    }
}

/// The records generation produces for a sequence of directory entries, in
/// order: one per entry the ignore rules keep.
pub open spec fn spec_kept_files(entries: Seq<ScannedFileAbs>) -> Seq<ArtworkFileAbs>
    decreases entries.len(),
{
    if entries.len() == 0 {
        Seq::empty()
    } else {
        let rest = spec_kept_files(entries.drop_last());
        let last = entries.last();
        if spec_ignored(last.file_name) {
            rest
        } else {
            rest.push(spec_artwork_file_for(last.file_name, last.bytes))
        }
    }
}

/// The manifest generation assembles: the template's descriptive fields, the
/// records of the kept entries, and the certificate digest when the template
/// names a certificate and its bytes could be read. A generation run never
/// carries a stale certificate digest over from the template: without fresh
/// certificate bytes the digest is absent.
pub open spec fn spec_generate(
    template: MetadataAbs,
    entries: Seq<ScannedFileAbs>,
    certificate_bytes: Option<Seq<u8>>,
) -> MetadataAbs {
    MetadataAbs {
        certificate_hash: match (template.certificate_of_authenticity, certificate_bytes) {
            (Some(_), Some(b)) => Some(blake3_hex(b)),
            _ => None,
        },
        artwork_files: spec_kept_files(entries),
        ..template
    }
}

/// The name of the manifest file written for a given artwork title: the
/// title with spaces replaced by underscores, then the manifest suffix.
pub open spec fn spec_manifest_file_name(title: Seq<char>) -> Seq<char> {
    spec_underscored(title) + "_"@ + "metadata.json"@
}

/// Derives the manifest file's name from the artwork title.
pub fn manifest_file_name(title: &str) -> (r: String)
    ensures
        r@ == spec_manifest_file_name(title@),
{
    let mut r = underscored(title);
    r.append("_");
    r.append("metadata.json");
    r
}

/// A manifest never records itself or a manifest of another title: the name
/// every generation run writes to is one the ignore rules exclude.
pub proof fn lemma_manifest_name_self_excluding(title: Seq<char>)
    ensures
        spec_ignored(spec_manifest_file_name(title)),
{
    let n = spec_manifest_file_name(title);
    let suffix = "metadata.json"@;
    assert(n.subrange(n.len() - suffix.len(), n.len() as int) =~= suffix);
}

/// Picks the certificate of authenticity out of the `certificate` folder's
/// entries: the first name with a `.pdf` extension, case-insensitively, as a
/// manifest-relative path. The entries come in the caller's enumeration
/// order, and the first match in that order wins.
pub fn find_certificate(entries: &Vec<String>) -> (r: Option<String>)
    ensures
        match r {
            Some(p) => exists|i: int|
                0 <= i < entries@.len() && is_pdf_name(#[trigger] entries@[i]@) && p@ == "./certificate/"@
                    + entries@[i]@ && forall|j: int| 0 <= j < i ==> !is_pdf_name(#[trigger] entries@[j]@),
            None => forall|i: int| 0 <= i < entries@.len() ==> !is_pdf_name(#[trigger] entries@[i]@),
        },
{
    let mut i: usize = 0;
    while i < entries.len()
        invariant
            i <= entries@.len(),
            forall|j: int| 0 <= j < i ==> !is_pdf_name(#[trigger] entries@[j]@),
        decreases entries@.len() - i,
    {
        let name = &entries[i];
        if is_pdf(name.as_str()) {
            let mut p = String::from_str("./certificate/");
            p.append(name.as_str());
            return Some(p);
        }
        i = i + 1;
    }
    None
}

/// A file name with a `.pdf` extension, case-insensitively.
pub open spec fn is_pdf_name(name: Seq<char>) -> bool {
    match crate::text::spec_extension(name) {
        Some(e) => crate::text::spec_lower_chars(e) == "pdf"@,
        None => false,
    }
}

fn is_pdf(name: &str) -> (r: bool)
    ensures
        r == is_pdf_name(name@),
{
    match crate::text::extension_of(name) {
        Some(e) => {
            let lower = crate::text::to_lower_string(e.as_str());
            crate::text::str_eq(lower.as_str(), "pdf")
        },
        None => false,
    }
}

/// Checks that a string is a well-formed digest: 64 lowercase hexadecimal
/// characters.
pub fn is_hex_digest_str(s: &str) -> (r: bool)
    ensures
        r == is_hex_digest(s@),
{
    let len = s.unicode_len();
    if len != 64 {
        return false;
    }
    let mut i: usize = 0;
    while i < len
        invariant
            len == s@.len(),
            len == 64,
            i <= len,
            forall|j: int| 0 <= j < i ==> crate::hashing::is_hex_char(#[trigger] s@[j]),
        decreases len - i,
    {
        let c = s.get_char(i);
        if !(('0' <= c && c <= '9') || ('a' <= c && c <= 'f')) {
            return false;
        }
        i = i + 1;
    }
    true
}

/// Decides whether a manifest satisfies the manifest invariant: every
/// record carries a valid digest string and a `./name` path, no two records
/// share a file name, and a recorded certificate digest is a valid digest
/// string. A manifest this library generated always does; one parsed from
/// elsewhere is checked with this before it is trusted further.
pub fn check_manifest(m: &Metadata) -> (r: bool)
    ensures
        r == m@.wf(),
{
    let n = m.artwork_files.len();
    let mut i: usize = 0;
    while i < n
        invariant
            n == m.artwork_files@.len(),
            i <= n,
            forall|k: int| 0 <= k < i ==> (#[trigger] m@.artwork_files[k]).wf(),
            forall|p: int, q: int|
                0 <= p < q < i ==> m@.artwork_files[p].file_name != m@.artwork_files[q].file_name,
        decreases n - i,
    {
        let record = &m.artwork_files[i];
        let mut expected_path = String::from_str("./");
        expected_path.append(record.file_name.as_str());
        if !is_hex_digest_str(record.file_hash.as_str()) || !str_eq(
            record.path.as_str(),
            expected_path.as_str(),
        ) {
            proof {
                assert(!m@.artwork_files[i as int].wf());
            }
            return false;
        }
        let mut j: usize = 0;
        while j < i
            invariant
                n == m.artwork_files@.len(),
                j <= i < n,
                *record == m.artwork_files@[i as int],
                forall|k: int|
                    0 <= k < j ==> m@.artwork_files[k].file_name
                        != m@.artwork_files[i as int].file_name,
            decreases i - j,
        {
            let same = str_eq(m.artwork_files[j].file_name.as_str(), record.file_name.as_str());
            proof {
                assert(m@.artwork_files[j as int].file_name == m.artwork_files@[j as int].file_name@);
                assert(m@.artwork_files[i as int].file_name == m.artwork_files@[i as int].file_name@);
            }
            if same {
                proof {
                    assert(!m@.wf());
                }
                return false;
            }
            j = j + 1;
        }
        i = i + 1;
    }
    match &m.certificate_hash {
        Some(h) => {
            if !is_hex_digest_str(h.as_str()) {
                return false;
            }
        },
        None => {},
    }
    true
}

/// Builds the record generation keeps for one file: hashes the bytes in
/// chunks, derives the format label and fills the relative path in.
pub fn build_artwork_file(file_name: &str, bytes: &Vec<u8>) -> (r: ArtworkFile)
    ensures
        r@ == spec_artwork_file_for(file_name@, bytes@),
        r@.wf(),
{
    let digest = hash_bytes(bytes.as_slice());
    let mut path = String::from_str("./");
    path.append(file_name);
    ArtworkFile {
        path,
        file_name: file_name.to_owned(),
        file_hash: digest,
        file_size: bytes.len() as u64,
        format: format_label(file_name),
    }
}

/// Assembles a record for a file whose digest was already computed by a
/// streaming hash, together with its byte count.
pub fn artwork_file_from_digest(file_name: &str, file_hash: String, file_size: u64) -> (r:
    ArtworkFile)
    requires
        is_hex_digest(file_hash@),
    ensures
        r@ == (ArtworkFileAbs {
            path: "./"@ + file_name@,
            file_name: file_name@,
            file_hash: file_hash@,
            file_size,
            format: spec_format_label(file_name@),
        }),
        r@.wf(),
{
    let mut path = String::from_str("./");
    path.append(file_name);
    ArtworkFile {
        path,
        file_name: file_name.to_owned(),
        file_hash,
        file_size,
        format: format_label(file_name),
    }
}

/// Assembles the final manifest out of the template's descriptive fields,
/// the built file records, and the certificate bytes when the template names
/// a certificate; a certificate that could not be read leaves the digest
/// absent, and generation goes on.
pub fn assemble_manifest(
    template: &Metadata,
    files: Vec<ArtworkFile>,
    certificate_bytes: Option<&Vec<u8>>,
) -> (m: Metadata)
    ensures
        m@ == (MetadataAbs {
            certificate_hash: match (template@.certificate_of_authenticity, certificate_bytes) {
                (Some(_), Some(b)) => Some(blake3_hex(b@)),
                _ => None,
            },
            artwork_files: artwork_views(files@),
            ..template@
        }),
        match m@.certificate_hash {
            Some(h) => is_hex_digest(h),
            None => true,
        },
{
    let certificate_hash = match (&template.certificate_of_authenticity, certificate_bytes) {
        (Some(_), Some(b)) => Some(hash_bytes(b.as_slice())),
        _ => None,
    };
    Metadata {
        artwork_id: template.artwork_id.clone(),
        artwork_title: template.artwork_title.clone(),
        artwork_short_title: template.artwork_short_title.clone(),
        artwork_creator: template.artwork_creator.clone(),
        year_of_creation: template.year_of_creation,
        short_description: template.short_description.clone(),
        long_description: template.long_description.clone(),
        edition_number: template.edition_number,
        total_editions: template.total_editions,
        issue_date: template.issue_date.clone(),
        gallery: template.gallery.clone(),
        keywords: template.keywords.clone(),
        medium: template.medium.clone(),
        certificate_of_authenticity: template.certificate_of_authenticity.clone(),
        certificate_hash,
        artwork_files: files,
    }
}

/// Generates the manifest for one directory scan: filters the entries
/// through the ignore rules, hashes and classifies each kept file in
/// enumeration order, and assembles the result around the template's
/// descriptive fields. The entries' file names must be distinct, as one
/// directory's entries are.
pub fn generate_manifest(
    template: &Metadata,
    entries: &Vec<ScannedFile>,
    certificate_bytes: Option<&Vec<u8>>,
) -> (m: Metadata)
    requires
        forall|i: int, j: int|
            0 <= i < j < entries@.len() ==> entries@[i].file_name@ != entries@[j].file_name@,
    ensures
        m@ == spec_generate(template@, scanned_views(entries@), match certificate_bytes {
            Some(b) => Some(b@),
            None => None,
        }),
        m@.wf(),
{
    let mut files: Vec<ArtworkFile> = Vec::new();
    let mut i: usize = 0;
    while i < entries.len()
        invariant
            i <= entries@.len(),
            forall|p: int, q: int|
                0 <= p < q < entries@.len() ==> entries@[p].file_name@ != entries@[q].file_name@,
            artwork_views(files@) == spec_kept_files(scanned_views(entries@).take(i as int)),
            forall|k: int| 0 <= k < files@.len() ==> (#[trigger] files@[k]@).wf(),
            forall|k: int|
                0 <= k < files@.len() ==> exists|e: int|
                    0 <= e < i && (#[trigger] files@[k]).file_name@ == (
                    #[trigger] entries@[e]).file_name@,
            forall|p: int, q: int|
                0 <= p < q < files@.len() ==> files@[p].file_name@ != files@[q].file_name@,
        decreases entries@.len() - i,
    {
        let entry = &entries[i];
        if !should_ignore_file(entry.file_name.as_str()) {
            let af = build_artwork_file(entry.file_name.as_str(), &entry.bytes);
            proof {
                let views = scanned_views(entries@);
                assert(views.take(i + 1).drop_last() =~= views.take(i as int));
                assert(artwork_views(files@.push(af)) =~= artwork_views(files@).push(af@));
            }
            files.push(af);
        } else {
            proof {
                let views = scanned_views(entries@);
                assert(views.take(i + 1).drop_last() =~= views.take(i as int));
            }
        }
        i = i + 1;
    }
    proof {
        assert(scanned_views(entries@).take(entries@.len() as int) =~= scanned_views(entries@));
    }
    let m = assemble_manifest(template, files, certificate_bytes);
    m
}

} // verus!
