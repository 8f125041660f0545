//! The zip container of a publication: the list of its entries and the bytes
//! of each, looked up by name.
use std::io::Read;
use vstd::prelude::*;
use crate::xmlutils::texts_view;
use vstd::utf8::{decode_utf8, encode_utf8, valid_utf8};

verus! {

#[verifier::external_type_specification]
#[verifier::external_body]
pub struct ExZipError(zip::result::ZipError);

#[verifier::external_type_specification]
#[verifier::external_body]
pub struct ExUtf8Error(core::str::Utf8Error);

#[verifier::external_type_specification]
#[verifier::external_body]
#[verifier::reject_recursive_types(R)]
pub struct ExZipArchive<R>(zip::ZipArchive<R>);

#[verifier::external_type_specification]
#[verifier::external_body]
#[verifier::reject_recursive_types(T)]
pub struct ExCursor<T>(std::io::Cursor<T>);

/// The bytes of the archive.
pub type ZipOverBytes = zip::ZipArchive<std::io::Cursor<Vec<u8>>>;

/// What a zip archive holds: the uncompressed bytes of each entry that reads
/// back without error, by name.
pub uninterp spec fn zip_contents(z: zip::ZipArchive<std::io::Cursor<Vec<u8>>>) -> Map<Seq<char>, Seq<u8>>;

/// The entry names of a zip archive, in the order of its central directory.
pub uninterp spec fn zip_names(z: zip::ZipArchive<std::io::Cursor<Vec<u8>>>) -> Seq<Seq<char>>;

/// What zip makes of the bytes of an archive, where it can read its central
/// directory: the entries that read back, by name, and the listed names.
pub uninterp spec fn zip_archive_of(data: Seq<u8>) -> Option<(Map<Seq<char>, Seq<u8>>, Seq<Seq<char>>)>;

/// Relies on zip's `ZipArchive::new` over the bytes in memory: reads the
/// central directory, which depends on the bytes alone; the names are
/// distinct, and every entry that reads back is among them.
#[verifier::external_body]
fn zip_open(data: Vec<u8>) -> (r: Result<ZipOverBytes, zip::result::ZipError>)
    ensures
        match zip_archive_of(data@) {
            Some(z) => r matches Ok(a) && zip_contents(a) == z.0 && zip_names(a) == z.1,
            None => r is Err,
        },
        r matches Ok(z) ==> zip_names(z).no_duplicates() && forall|n: Seq<char>|
            #[trigger] zip_contents(z).contains_key(n) ==> zip_names(z).contains(n),
{
    zip::ZipArchive::new(std::io::Cursor::new(data))
}

/// Relies on zip's `ZipArchive::file_names`: the entry names.
#[verifier::external_body]
fn zip_file_names(z: &ZipOverBytes) -> (r: Vec<String>)
    ensures
        texts_view(r@) == zip_names(*z),
{
    z.file_names().map(String::from).collect()
}

/// Relies on zip's `ZipArchive::by_name` and the `Read` of its entries: the
/// bytes of the entry with exactly this name; `None` where no entry has it,
/// an error where it does not read back. The archive is bytes in memory, so
/// what an entry reads back as depends on those bytes alone.
#[verifier::external_body]
fn zip_read(z: &mut ZipOverBytes, name: &str) -> (r: Result<Option<Vec<u8>>, zip::result::ZipError>)
    ensures
        zip_contents(*final(z)) == zip_contents(*old(z)),
        zip_names(*final(z)) == zip_names(*old(z)),
        r matches Ok(None) <==> !zip_names(*old(z)).contains(name@),
        r matches Ok(Some(_)) <==> zip_contents(*old(z)).contains_key(name@),
        r matches Ok(Some(b)) ==> b@ == zip_contents(*old(z))[name@],
{
    match z.by_name(name) {
        Ok(mut file) => {
            let mut bytes = Vec::new();
            match file.read_to_end(&mut bytes) {
                Ok(_) => Ok(Some(bytes)),
                Err(e) => Err(e.into()),
            }
        },
        Err(zip::result::ZipError::FileNotFound) => Ok(None),
        Err(e) => Err(e),
    }
}

/// Relies on zip's `ZipError::FileNotFound`: the error of a missing entry.
#[verifier::external_body]
fn file_not_found() -> (r: zip::result::ZipError) {
    zip::result::ZipError::FileNotFound
}

/// The value of a hexadecimal digit byte.
pub open spec fn hex_value(b: u8) -> Option<u8> {
    if 0x30 <= b <= 0x39 {
        Some((b - 0x30) as u8)
    } else if 0x61 <= b <= 0x66 {
        Some((b - 0x57) as u8)
    } else if 0x41 <= b <= 0x46 {
        Some((b - 0x37) as u8)
    } else {
        None
    }
}

/// Percent-decoding: `%` and two hexadecimal digits make the byte they
/// write; every other byte stays.
pub open spec fn percent_decode_bytes(s: Seq<u8>) -> Seq<u8>
    decreases s.len(),
{
    if s.len() == 0 {
        seq![]
    } else if s[0] == 0x25 && s.len() >= 3 && hex_value(s[1]) is Some && hex_value(s[2]) is Some {
        seq![(hex_value(s[1])->0 * 16 + hex_value(s[2])->0) as u8] + percent_decode_bytes(
            s.subrange(3, s.len() as int),
        )
    } else {
        seq![s[0]] + percent_decode_bytes(s.drop_first())
    }
}

/// The name that percent-decoding makes of `name`, where it is UTF-8.
pub open spec fn decoded_name(name: Seq<char>) -> Option<Seq<char>> {
    let b = percent_decode_bytes(encode_utf8(name));
    if valid_utf8(b) {
        Some(decode_utf8(b))
    } else {
        None
    }
}

/// Relies on percent-encoding's `percent_decode` and `decode_utf8`: the
/// percent-decoded bytes of `name`, as text where they are UTF-8.
#[verifier::external_body]
fn percent_decoded(name: &str) -> (r: Result<String, core::str::Utf8Error>)
    ensures
        match r {
            Ok(s) => decoded_name(name@) == Some(s@),
            Err(_) => decoded_name(name@) is None,
        },
{
    match percent_encoding::percent_decode(name.as_bytes()).decode_utf8() {
        Ok(s) => Ok(s.into_owned()),
        Err(e) => Err(e),
    }
}

/// Relies on `String::from_utf8`: the text of UTF-8 bytes.
#[verifier::external_body]
fn string_from_utf8(bytes: Vec<u8>) -> (r: Result<String, core::str::Utf8Error>)
    ensures
        match r {
            Ok(s) => valid_utf8(bytes@) && s@ == decode_utf8(bytes@),
            Err(_) => !valid_utf8(bytes@),
        },
{
    String::from_utf8(bytes).map_err(|e| e.utf8_error())
}

/// Errors of reading the container.
pub enum ArchiveError {
    /// The zip structure is broken, an entry cannot be read, or no entry has
    /// the name asked for.
    Zip(zip::result::ZipError),
    /// The text of an entry, or a percent-decoded name, is not UTF-8.
    Utf8(core::str::Utf8Error),
    /// A name is not UTF-8.
    PathUtf8,
}

/// The zip container of a publication.
pub struct EpubArchive {
    zip: ZipOverBytes,
    /// The file the archive was read from, where it was read from a file.
    pub path: String,
    /// The names of the entries.
    pub files: Vec<String>,
}

/// The bytes that the archive gives for `name`: the entry of that name where
/// one is listed (none where it does not read back), or else the entry whose
/// name is the percent-decoded `name`.
pub open spec fn entry_for(contents: Map<Seq<char>, Seq<u8>>, listed: Seq<Seq<char>>, name: Seq<char>) -> Option<Seq<u8>> {
    if listed.contains(name) {
        if contents.contains_key(name) {
            Some(contents[name])
        } else {
            None
        }
    } else {
        match decoded_name(name) {
            Some(d) => if listed.contains(d) && contents.contains_key(d) {
                Some(contents[d])
            } else {
                None
            },
            None => None,
        }
    }
}

impl EpubArchive {
    /// The entries of the archive, by name.
    pub closed spec fn contents(&self) -> Map<Seq<char>, Seq<u8>> {
        zip_contents(self.zip)
    }

    /// The names of the entries, as `files` holds them.
    pub closed spec fn names(&self) -> Seq<Seq<char>> {
        texts_view(self.files@)
    }

    /// The names the archive lists.
    pub closed spec fn listed(&self) -> Seq<Seq<char>> {
        zip_names(self.zip)
    }

    /// The names of the entries are `files`.
    pub closed spec fn wf(&self) -> bool {
        texts_view(self.files@) == zip_names(self.zip)
    }

    /// Opens the archive whose bytes are `data`.
    pub fn from_reader(data: Vec<u8>) -> (r: Result<EpubArchive, ArchiveError>)
        ensures
            match zip_archive_of(data@) {
                Some(z) => r matches Ok(a) && a.contents() == z.0 && a.listed() == z.1 && a.wf(),
                None => r matches Err(ArchiveError::Zip(_)),
            },
    {
        match zip_open(data) {
            Ok(zip) => {
                let files = zip_file_names(&zip);
                Ok(EpubArchive { zip, path: String::new(), files })
            },
            Err(e) => Err(ArchiveError::Zip(e)),
        }
    }

    /// The bytes of the entry `name`; where no entry has that name, of the
    /// entry whose name is `name` percent-decoded.
    pub fn get_entry(&mut self, name: &str) -> (r: Result<Vec<u8>, ArchiveError>)
        ensures
            final(self).contents() == old(self).contents(),
            final(self).listed() == old(self).listed(),
            final(self).names() == old(self).names(),
            old(self).wf() ==> final(self).wf(),
            match entry_for(old(self).contents(), old(self).listed(), name@) {
                Some(b) => r matches Ok(v) && v@ == b,
                None => r is Err,
            },
            !old(self).listed().contains(name@) && decoded_name(name@) is None ==> r matches Err(
                ArchiveError::Utf8(_),
            ),
    {
        match zip_read(&mut self.zip, name) {
            Ok(Some(bytes)) => return Ok(bytes),
            Ok(None) => {},
            Err(e) => return Err(ArchiveError::Zip(e)),
        }
        let decoded = match percent_decoded(name) {
            Ok(d) => d,
            Err(e) => return Err(ArchiveError::Utf8(e)),
        };
        match zip_read(&mut self.zip, decoded.as_str()) {
            Ok(Some(bytes)) => Ok(bytes),
            Ok(None) => Err(ArchiveError::Zip(file_not_found())),
            Err(e) => Err(ArchiveError::Zip(e)),
        }
    }

    /// The text of the entry `name` (see `get_entry`), which must be UTF-8.
    pub fn get_entry_as_str(&mut self, name: &str) -> (r: Result<String, ArchiveError>)
        ensures
            final(self).contents() == old(self).contents(),
            final(self).listed() == old(self).listed(),
            final(self).names() == old(self).names(),
            old(self).wf() ==> final(self).wf(),
            match entry_for(old(self).contents(), old(self).listed(), name@) {
                Some(b) => if valid_utf8(b) {
                    r matches Ok(s) && s@ == decode_utf8(b)
                } else {
                    r matches Err(ArchiveError::Utf8(_))
                },
                None => r is Err,
            },
    {
        match self.get_entry(name) {
            Ok(bytes) => {
                match string_from_utf8(bytes) {
                    Ok(s) => Ok(s),
                    Err(e) => Err(ArchiveError::Utf8(e)),
                }
            },
            Err(e) => Err(e),
        }
    }

    /// The bytes of `META-INF/container.xml`.
    pub fn get_container_file(&mut self) -> (r: Result<Vec<u8>, ArchiveError>)
        ensures
            final(self).contents() == old(self).contents(),
            final(self).listed() == old(self).listed(),
            final(self).names() == old(self).names(),
            old(self).wf() ==> final(self).wf(),
            match entry_for(old(self).contents(), old(self).listed(), "META-INF/container.xml"@) {
                Some(b) => r matches Ok(v) && v@ == b,
                None => r is Err,
            },
    {
        self.get_entry("META-INF/container.xml")
    }
}

} // verus!
