//! The values exchanged with clients and the errors that they see.

use vstd::prelude::*;

verus! {

/// A SHA-256 digest written as 64 lowercase hex digits.
pub type SHA256 = String;

/// One of two values.
#[derive(Clone, Debug)]
pub enum Either<A, B> {
    Left(A),
    Right(B),
}

/// A request to the server: one per connection.
#[derive(Clone, Debug)]
pub enum Cmd {
    AddClient { node: String },
    RemoveClient { node: String },
    Tags,
    CreateBlob,
    DescribeBlob { name: String },
    AppendBlob { name: String, data: Vec<u8> },
    CommitBlob { name: String, file_name: String, tags: Vec<String>, replace: bool },
    GcBlobs,
    List { tag: String, prefix: Option<String> },
    Search { tag: String, term: String },
    Describe { name: String },
    Delete { name: String },
    Download { hash: SHA256, start: u64, len: u64 },
}

/// The reply to a request: a value, or a message meant for the user.
#[derive(Clone, Debug, PartialEq)]
pub enum Response<R> {
    Success(R),
    Failure(String),
}

impl Response<String> {
    /// The plain acknowledgement, `Success("OK")`.
    pub fn ok() -> (r: Self)
        ensures
            r matches Response::Success(s) && s@ == "OK"@,
    {
        proof {
            reveal_strlit("OK");
        }
        Response::Success(String::from_str("OK"))
    }
}

impl<R> Response<R> {
    /// The reply as a `Result`.
    pub fn res(self) -> (r: Result<R, String>)
        ensures
            match self {
                Response::Success(v) => r == Ok::<R, String>(v),
                Response::Failure(e) => r == Err::<R, String>(e),
            },
    {
        match self {
            Response::Success(v) => Ok(v),
            Response::Failure(e) => Err(e),
        }
    }

    /// The value of a `Success` reply.
    pub fn unwrap(self) -> (r: R)
        requires
            self is Success,
        ensures
            self == Response::<R>::Success(r),
    {
        match self {
            Response::Success(v) => v,
            Response::Failure(_) => {
                proof {
                    assert(false);
                }
                unreached()
            },
        }
    }

    /// The message of a `Failure` reply.
    pub fn err(self) -> (r: String)
        requires
            self is Failure,
        ensures
            self == Response::<R>::Failure(r),
    {
        match self {
            Response::Failure(e) => e,
            Response::Success(_) => {
                proof {
                    assert(false);
                }
                unreached()
            },
        }
    }
}

/// A staging blob as a client sees it.
#[derive(Clone, Debug, PartialEq)]
pub struct Blob {
    pub name: String,
    pub size: u64,
}

/// A committed file as a client sees it.
#[derive(Clone, Debug, PartialEq)]
pub struct File {
    pub name: String,
    pub size: u64,
    pub hash: SHA256,
    pub created: i64,
}

/// A committed file together with its tags.
#[derive(Clone, Debug, PartialEq)]
pub struct FileDescription {
    pub name: String,
    pub size: u64,
    pub hash: SHA256,
    pub created: i64,
    pub tags: Vec<String>,
}

/// A file joined with its content, as the catalog stores it: `created` is
/// in seconds since the Unix epoch.
#[derive(Clone, Debug, PartialEq)]
pub struct FileDesc {
    pub name: String,
    pub size: i64,
    pub hash: SHA256,
    pub created: i64,
}

impl FileDescription {
    /// Puts a file and its tags together.
    pub fn new(file: FileDesc, tags: Vec<String>) -> (r: Self)
        requires
            file.size >= 0,
        ensures
            r.name == file.name,
            r.size == file.size,
            r.hash == file.hash,
            r.created == file.created,
            r.tags == tags,
    {
        FileDescription {
            name: file.name,
            size: file.size as u64,
            hash: file.hash,
            created: file.created,
            tags,
        }
    }
}

impl From<FileDesc> for File {
    fn from(d: FileDesc) -> (r: File) {
        File { name: d.name, size: d.size as u64, hash: d.hash, created: d.created }
    }
}

impl vstd::std_specs::convert::FromSpecImpl<FileDesc> for File {
    open spec fn obeys_from_spec() -> bool {
        true
    }

    open spec fn from_spec(d: FileDesc) -> File {
        File { name: d.name, size: d.size as u64, hash: d.hash, created: d.created }
    }
}

/// The kinds of error that a user sees.
#[derive(Clone, Debug, PartialEq)]
pub enum StashError {
    NoSuchBlob,
    NoSuchFile,
    InvalidTag(String),
    NoTags,
    FileAlreadyExists,
    OutOfBounds,
    Unauthorized,
}

/// The message that a user sees for each kind of error.
pub open spec fn error_message(e: StashError) -> Seq<char> {
    match e {
        StashError::NoSuchBlob => "No such blob"@,
        StashError::NoSuchFile => "No such file"@,
        StashError::InvalidTag(t) => "Invalid tag "@ + t@,
        StashError::NoTags => "At least one tag is required"@,
        StashError::FileAlreadyExists => "File already exists"@,
        StashError::OutOfBounds => "Data index out of bounds"@,
        StashError::Unauthorized => "Unauthorized"@,
    }
}

impl StashError {
    /// The message for this error.
    pub fn message(&self) -> (r: String)
        ensures
            r@ == error_message(*self),
    {
        match self {
            StashError::NoSuchBlob => {
                proof {
                    reveal_strlit("No such blob");
                }
                String::from_str("No such blob")
            },
            StashError::NoSuchFile => {
                proof {
                    reveal_strlit("No such file");
                }
                String::from_str("No such file")
            },
            StashError::InvalidTag(t) => {
                proof {
                    reveal_strlit("Invalid tag ");
                }
                String::from_str("Invalid tag ").concat(t.as_str())
            },
            StashError::NoTags => {
                proof {
                    reveal_strlit("At least one tag is required");
                }
                String::from_str("At least one tag is required")
            },
            StashError::FileAlreadyExists => {
                proof {
                    reveal_strlit("File already exists");
                }
                String::from_str("File already exists")
            },
            StashError::OutOfBounds => {
                proof {
                    reveal_strlit("Data index out of bounds");
                }
                String::from_str("Data index out of bounds")
            },
            StashError::Unauthorized => {
                proof {
                    reveal_strlit("Unauthorized");
                }
                String::from_str("Unauthorized")
            },
        }
    }

    /// The error as a reply.
    pub fn response<R>(&self) -> (r: Response<R>)
        ensures
            r matches Response::Failure(m) && m@ == error_message(*self),
    {
        Response::Failure(self.message())
    }
}

/// Turns an outcome into a reply, an error into its message.
pub fn respond<R>(r: Result<R, StashError>) -> (out: Response<R>)
    ensures
        match r {
            Ok(v) => out == Response::<R>::Success(v),
            Err(e) => out matches Response::Failure(m) && m@ == error_message(e),
        },
{
    match r {
        Ok(v) => Response::Success(v),
        Err(e) => e.response(),
    }
}

} // verus!
