//! Reading a zip container held in memory: its entry names in order, and
//! the decompressed bytes of an entry found by name.
use vstd::prelude::*;
use vstd::string::*;
use crate::filter::chars_of;
use std::io::Cursor;
use zip::result::ZipError;
use zip::ZipArchive;

verus! {

/// `std::io::Cursor`, over the bytes of the container.
#[verifier::external_type_specification]
#[verifier::external_body]
#[verifier::reject_recursive_types(T)]
pub struct ExCursor<T>(Cursor<T>);

/// `zip::ZipArchive`, the reader of a container's central directory.
#[verifier::external_type_specification]
#[verifier::external_body]
#[verifier::reject_recursive_types(R)]
pub struct ExZipArchive<R>(ZipArchive<R>);

/// `zip::result::ZipError`, why a container or an entry could not be read.
#[verifier::external_type_specification]
#[verifier::external_body]
pub struct ExZipError(ZipError);

/// The entry names of the container's central directory, in its order.
pub uninterp spec fn zip_names(z: ZipArchive<Cursor<Vec<u8>>>) -> Seq<Seq<char>>;

/// The decompressed bytes of each entry that a lookup by name finds and
/// reads without a password.
pub uninterp spec fn zip_contents(z: ZipArchive<Cursor<Vec<u8>>>) -> Map<Seq<char>, Seq<u8>>;

/// Every entry's local header is in place, so each entry can be found
/// without decompressing it.
pub uninterp spec fn zip_listable(z: ZipArchive<Cursor<Vec<u8>>>) -> bool;

/// The bytes hold a zip container whose central directory can be read.
pub uninterp spec fn zip_opens(bytes: Seq<u8>) -> bool;

/// The entry names in the central directory of the container in `bytes`,
/// in its order.
pub uninterp spec fn zip_names_in(bytes: Seq<u8>) -> Seq<Seq<char>>;

/// Relies on `zip::ZipArchive::new`, which reads the central directory of
/// the container in `bytes`; its outcome depends on the bytes alone.
#[verifier::external_body]
fn open_zip(bytes: Vec<u8>) -> (r: Result<ZipArchive<Cursor<Vec<u8>>>, ZipError>)
    ensures
        r is Ok <==> zip_opens(bytes@),
        r matches Ok(z) ==> zip_names(z) == zip_names_in(bytes@),
{
    ZipArchive::new(Cursor::new(bytes))
}

/// Relies on `zip::ZipArchive::len`: the number of central directory entries.
#[verifier::external_body]
fn zip_len(z: &ZipArchive<Cursor<Vec<u8>>>) -> (r: usize)
    ensures
        r == zip_names(*z).len(),
{
    z.len()
}

/// Relies on `zip::ZipArchive::by_index_raw` and `ZipFile::name`: the name
/// of the entry at `i`, found without decompressing it, so that entries
/// this build cannot decompress are still listed. Moving the reader leaves
/// the entries as they were.
#[verifier::external_body]
fn zip_name_at(z: &mut ZipArchive<Cursor<Vec<u8>>>, i: usize) -> (r: Result<String, ZipError>)
    ensures
        zip_names(*final(z)) == zip_names(*old(z)),
        zip_contents(*final(z)) == zip_contents(*old(z)),
        zip_listable(*final(z)) == zip_listable(*old(z)),
        r matches Ok(s) ==> i < zip_names(*old(z)).len() && s@ == zip_names(*old(z))[i as int],
        i < zip_names(*old(z)).len() && zip_listable(*old(z)) ==> r is Ok,
{
    z.by_index_raw(i).map(|f| f.name().to_string())
}

/// Relies on `zip::ZipArchive::by_name_decrypt`, read to its end: the
/// decompressed bytes of the entry named `name`. The empty password is
/// dropped by the crate for an entry that is not encrypted; a refused
/// password becomes the crate's own "password required" error. Moving the
/// reader leaves the entries as they were.
#[verifier::external_body]
fn zip_read(z: &mut ZipArchive<Cursor<Vec<u8>>>, name: &str) -> (r: Result<Vec<u8>, ZipError>)
    ensures
        zip_names(*final(z)) == zip_names(*old(z)),
        zip_contents(*final(z)) == zip_contents(*old(z)),
        zip_listable(*final(z)) == zip_listable(*old(z)),
        r is Ok <==> zip_contents(*old(z)).contains_key(name@),
        r matches Ok(d) ==> zip_names(*old(z)).contains(name@) && d@ == zip_contents(
            *old(z),
        )[name@],
{
    let mut f = match z.by_name_decrypt(name, b"")? {
        Ok(f) => f,
        Err(_) => return Err(ZipError::UnsupportedArchive(ZipError::PASSWORD_REQUIRED)),
    };
    let mut d = Vec::new();
    std::io::Read::read_to_end(&mut f, &mut d)?;
    Ok(d)
}

/// Why the container or one of its entries could not be read.
#[derive(Debug)]
pub enum ArchiveError {
    /// The bytes do not hold a zip container that can be read.
    Open(ZipError),
    /// An entry is missing, or its bytes cannot be read or decompressed.
    Entry(ZipError),
    /// A directory entry was asked for as a file to show.
    IsDirectory,
}

/// `name` is a directory entry: it ends with a path separator.
pub open spec fn is_dir_name(name: Seq<char>) -> bool {
    name.len() > 0 && (name.last() == '/' || name.last() == '\\')
}

/// The position of the last `/` in `name`, or -1 where there is none.
pub open spec fn last_slash(name: Seq<char>) -> int
    decreases name.len(),
{
    if name.len() == 0 {
        -1
    } else if name.last() == '/' {
        name.len() - 1
    } else {
        last_slash(name.drop_last())
    }
}

/// Where the entry `name` goes under the directory `dest`.
pub open spec fn entry_path(dest: Seq<char>, name: Seq<char>) -> Seq<char> {
    dest + seq!['/'] + name
}

/// The directory that holds the file entry `name` under `dest`.
pub open spec fn parent_path(dest: Seq<char>, name: Seq<char>) -> Seq<char> {
    if last_slash(name) < 0 {
        dest
    } else {
        dest + seq!['/'] + name.take(last_slash(name))
    }
}

/// The directory that entries of the archive file `file_name` go to.
pub open spec fn destination_of(file_name: Seq<char>) -> Seq<char> {
    "extracted_from_"@ + file_name
}

/// What extracting one entry does on disk.
#[derive(Debug)]
pub enum Extraction {
    /// Create the directory `path` and its ancestors.
    Directory { path: String },
    /// Create `dir` and its ancestors, then write `data` to `path`,
    /// replacing any file there.
    File { dir: String, path: String, data: Vec<u8> },
}

/// One selected entry, ready to be shown: a header line with its name,
/// its bytes, and whether a separator follows it.
#[derive(Debug)]
pub struct Viewed {
    pub header: String,
    pub data: Vec<u8>,
    pub separator: bool,
}

/// An open zip container.
pub struct Archive {
    zip: ZipArchive<Cursor<Vec<u8>>>,
}

/// Whether the entry name `name` names a directory.
pub fn is_dir_entry(name: &str) -> (r: bool)
    ensures
        r == is_dir_name(name@),
{
    let text = chars_of(name);
    let n = text.len();
    n > 0 && (text[n - 1] == '/' || text[n - 1] == '\\')
}

/// The directory that the entries of the archive file `file_name` are
/// extracted to.
pub fn destination_dir(file_name: &str) -> (r: String)
    ensures
        r@ == destination_of(file_name@),
{
    let mut r = String::from_str("extracted_from_");
    r.append(file_name);
    r
}

fn join(dest: &str, name: &str) -> (r: String)
    ensures
        r@ == entry_path(dest@, name@),
{
    proof {
        reveal_strlit("/");
    }
    let mut r = String::from_str(dest);
    r.append("/");
    r.append(name);
    r
}

fn last_slash_of(text: &Vec<char>) -> (r: Option<usize>)
    ensures
        match r {
            Some(i) => i as int == last_slash(text@) && i < text@.len(),
            None => last_slash(text@) < 0,
        },
{
    let mut i: usize = text.len();
    assert(text@.take(i as int) =~= text@);
    while i > 0
        invariant
            i <= text@.len(),
            last_slash(text@) == last_slash(text@.take(i as int)),
        decreases i,
    {
        assert(text@.take(i as int).drop_last() =~= text@.take(i - 1));
        if text[i - 1] == '/' {
            return Some(i - 1);
        }
        i = i - 1;
    }
    None
}

fn parent_dir(dest: &str, name: &str) -> (r: String)
    ensures
        r@ == parent_path(dest@, name@),
{
    let text = chars_of(name);
    assert(text@.take(text@.len() as int) =~= text@);
    match last_slash_of(&text) {
        None => String::from_str(dest),
        Some(i) => {
            let head = name.substring_char(0, i);
            join(dest, head)
        },
    }
}

impl Archive {
    /// The entry names, in the container's order.
    pub closed spec fn names(&self) -> Seq<Seq<char>> {
        zip_names(self.zip)
    }

    /// Every entry can be found, so that all names can be listed.
    pub closed spec fn listable(&self) -> bool {
        zip_listable(self.zip)
    }

    /// The bytes of each entry, by name.
    pub closed spec fn contents(&self) -> Map<Seq<char>, Seq<u8>> {
        zip_contents(self.zip)
    }

    /// Reads the container held in `bytes`.
    pub fn open(bytes: Vec<u8>) -> (r: Result<Archive, ArchiveError>)
        ensures
            r is Ok <==> zip_opens(bytes@),
            r matches Ok(a) ==> a.names() == zip_names_in(bytes@),
            r matches Err(e) ==> e is Open,
    {
        match open_zip(bytes) {
            Ok(zip) => Ok(Archive { zip }),
            Err(e) => Err(ArchiveError::Open(e)),
        }
    }

    /// The number of entries.
    pub fn len(&self) -> (r: usize)
        ensures
            r == self.names().len(),
    {
        zip_len(&self.zip)
    }

    /// All entry names, in the container's order.
    pub fn entry_names(&mut self) -> (r: Result<Vec<String>, ArchiveError>)
        ensures
            final(self).names() == old(self).names(),
            final(self).contents() == old(self).contents(),
            final(self).listable() == old(self).listable(),
            old(self).listable() ==> r is Ok,
            r matches Ok(v) ==> v@.map_values(|s: String| s@) == old(self).names(),
            r matches Err(e) ==> e is Entry,
    {
        let n = zip_len(&self.zip);
        let mut v: Vec<String> = Vec::new();
        let mut i: usize = 0;
        while i < n
            invariant
                n == self.names().len(),
                self.names() == old(self).names(),
                self.contents() == old(self).contents(),
                self.listable() == old(self).listable(),
                i <= n,
                v@.map_values(|s: String| s@) == self.names().take(i as int),
            decreases n - i,
        {
            match zip_name_at(&mut self.zip, i) {
                Ok(s) => {
                    let ghost before = v@;
                    v.push(s);
                    assert(v@.map_values(|s: String| s@) =~= before.map_values(|s: String| s@).push(
                        self.names()[i as int],
                    ));
                    assert(self.names().take(i + 1) =~= self.names().take(i as int).push(
                        self.names()[i as int],
                    ));
                },
                Err(e) => {
                    return Err(ArchiveError::Entry(e));
                },
            }
            i = i + 1;
        }
        assert(self.names().take(n as int) =~= self.names());
        Ok(v)
    }

    /// The decompressed bytes of the entry `name`.
    pub fn read(&mut self, name: &str) -> (r: Result<Vec<u8>, ArchiveError>)
        ensures
            final(self).names() == old(self).names(),
            final(self).contents() == old(self).contents(),
            final(self).listable() == old(self).listable(),
            r is Ok <==> old(self).contents().contains_key(name@),
            r matches Ok(d) ==> old(self).names().contains(name@)
                && d@ == old(self).contents()[name@],
            r matches Err(e) ==> e is Entry,
    {
        match zip_read(&mut self.zip, name) {
            Ok(d) => Ok(d),
            Err(e) => Err(ArchiveError::Entry(e)),
        }
    }

    /// What extracting the entry `name` under the directory `dest` does: a
    /// directory entry becomes a directory, any other entry a file holding
    /// its bytes.
    pub fn extraction(&mut self, dest: &str, name: &str) -> (r: Result<Extraction, ArchiveError>)
        ensures
            final(self).names() == old(self).names(),
            final(self).contents() == old(self).contents(),
            final(self).listable() == old(self).listable(),
            r is Ok <==> old(self).contents().contains_key(name@),
            r matches Ok(x) ==> old(self).names().contains(name@)
                && if is_dir_name(name@) {
                    x matches Extraction::Directory { path } && path@ == entry_path(dest@, name@)
                } else {
                    x matches Extraction::File { dir, path, data }
                        && dir@ == parent_path(dest@, name@)
                        && path@ == entry_path(dest@, name@)
                        && data@ == old(self).contents()[name@]
                },
            r matches Err(e) ==> e is Entry,
    {
        let data = self.read(name)?;
        let path = join(dest, name);
        if is_dir_entry(name) {
            Ok(Extraction::Directory { path })
        } else {
            let dir = parent_dir(dest, name);
            Ok(Extraction::File { dir, path, data })
        }
    }

    /// The `k`-th entry of `selection`, ready to be shown; a separator
    /// follows every entry but the last. Directories are refused.
    pub fn view_entry(&mut self, selection: &Vec<String>, k: usize) -> (r: Result<Viewed, ArchiveError>)
        requires
            k < selection@.len(),
        ensures
            final(self).names() == old(self).names(),
            final(self).contents() == old(self).contents(),
            final(self).listable() == old(self).listable(),
            is_dir_name(selection@[k as int]@) ==> r matches Err(ArchiveError::IsDirectory),
            r is Ok <==> !is_dir_name(selection@[k as int]@) && old(self).contents().contains_key(
                selection@[k as int]@,
            ),
            r matches Ok(v) ==> {
                let name = selection@[k as int]@;
                &&& old(self).names().contains(name)
                &&& v.header@ == name
                &&& v.data@ == old(self).contents()[name]
                &&& v.separator == (k + 1 < selection@.len())
            },
            r matches Err(e) ==> e is Entry || (e is IsDirectory && is_dir_name(selection@[k as int]@)),
    {
        let name = selection[k].as_str();
        if is_dir_entry(name) {
            return Err(ArchiveError::IsDirectory);
        }
        let data = self.read(name)?;
        let header = String::from_str(name);
        Ok(Viewed { header, data, separator: k < selection.len() - 1 })
    }
}

} // verus!
