//! What can go wrong in the database, and how it is put in words.
use vstd::prelude::*;

verus! {

/// `std::io::Error`, carried through opaquely by [`RmdbError::Io`].
#[verifier::external_type_specification]
#[verifier::external_body]
pub struct ExIoError(std::io::Error);

/// The errors of the database.
#[derive(Debug)]
pub enum RmdbError {
    InvalidDataSize,
    KeyNotFound,
    KeyTooSmall,
    KeyTooBig,
    PageNotLeaf,
    InvalidMetadata,
    UnalignedAccess,
    LockError,
    IntegrityCheck,
    InvalidCursor,
    InvalidIndexSize,
    InvalidFileSize,
    InvalidDBFile,
    InvalidTransaction,
    NotImplemented,
    Io(std::io::Error),
}

impl From<std::io::Error> for RmdbError {
    fn from(error: std::io::Error) -> (r: Self) {
        RmdbError::Io(error)
    }
}

impl vstd::std_specs::convert::FromSpecImpl<std::io::Error> for RmdbError {
    open spec fn obeys_from_spec() -> bool {
        true
    }

    open spec fn from_spec(error: std::io::Error) -> Self {
        RmdbError::Io(error)
    }
}

/// `format!` with the `Display` of `std::io::Error`: the words of the error. Nothing is
/// claimed of them: they depend on the machine.
#[verifier::external_body]
fn io_words(err: &std::io::Error) -> (r: String) {
    format!("{}", err)
}

/// The text of an I/O error, given its words.
pub fn io_text(words: &str) -> (r: String)
    ensures
        r@ == "IO error: "@ + words@,
{
    let mut text: String = "IO error: ".to_owned();
    text.append(words);
    text
}

impl RmdbError {
    /// The text of an error that is not an I/O error.
    pub open spec fn text(self) -> Seq<char> {
        match self {
            RmdbError::Io(_) => arbitrary(),
            RmdbError::InvalidTransaction => "Transaction already closed"@,
            RmdbError::InvalidDBFile => "Invalid DB file contents"@,
            RmdbError::InvalidFileSize => "File of invalid size"@,
            RmdbError::InvalidIndexSize => "Index too large"@,
            RmdbError::IntegrityCheck => "Integrity Check failed!"@,
            RmdbError::LockError => "Lock Poisoned Error"@,
            RmdbError::UnalignedAccess => "Unaligned Access Request"@,
            RmdbError::InvalidMetadata => "Invalid metadata"@,
            RmdbError::KeyNotFound => "Key not found"@,
            RmdbError::KeyTooSmall => "Key not in this (sub)tree (too small)"@,
            RmdbError::KeyTooBig => "Key not in this (sub)tree (too big)"@,
            RmdbError::PageNotLeaf => "Page is not a leaf"@,
            RmdbError::InvalidDataSize => "Invalid data size"@,
            RmdbError::InvalidCursor => "Invalid Cursor"@,
            RmdbError::NotImplemented => "Oooh!! Where's my code?"@,
        }
    }

    /// The error in words.
    pub fn message(&self) -> (r: String)
        ensures
            !(self is Io) ==> r@ == self.text(),
            self is Io ==> "IO error: "@.is_prefix_of(r@),
    {
        match self {
            RmdbError::Io(err) => io_text(io_words(err).as_str()),
            RmdbError::InvalidTransaction => "Transaction already closed".to_owned(),
            RmdbError::InvalidDBFile => "Invalid DB file contents".to_owned(),
            RmdbError::InvalidFileSize => "File of invalid size".to_owned(),
            RmdbError::InvalidIndexSize => "Index too large".to_owned(),
            RmdbError::IntegrityCheck => "Integrity Check failed!".to_owned(),
            RmdbError::LockError => "Lock Poisoned Error".to_owned(),
            RmdbError::UnalignedAccess => "Unaligned Access Request".to_owned(),
            RmdbError::InvalidMetadata => "Invalid metadata".to_owned(),
            RmdbError::KeyNotFound => "Key not found".to_owned(),
            RmdbError::KeyTooSmall => "Key not in this (sub)tree (too small)".to_owned(),
            RmdbError::KeyTooBig => "Key not in this (sub)tree (too big)".to_owned(),
            RmdbError::PageNotLeaf => "Page is not a leaf".to_owned(),
            RmdbError::InvalidDataSize => "Invalid data size".to_owned(),
            RmdbError::InvalidCursor => "Invalid Cursor".to_owned(),
            RmdbError::NotImplemented => "Oooh!! Where's my code?".to_owned(),
        }
    }

    /// The I/O error below this one, if there is one.
    pub fn cause(&self) -> (r: Option<&std::io::Error>)
        ensures
            r == (match *self {
                RmdbError::Io(err) => Some(&err),
                _ => None,
            }),
    {
        match self {
            RmdbError::Io(err) => Some(err),
            _ => None,
        }
    }
}

} // verus!
