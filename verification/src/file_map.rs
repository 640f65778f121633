//! A `hashbrown` hash map from applications and paths to file contents.

use vstd::prelude::*;

verus! {

/// An application and a path.
pub type FileKey = (Seq<char>, Seq<char>);

/// The contents of files.
pub type FileContents = Map<FileKey, Seq<u8>>;

/// A `hashbrown::HashMap` from an application and a path to a file's bytes.
#[verifier::external_body]
pub struct FileMap {
    files: hashbrown::HashMap<(String, String), Vec<u8>>,
}

/// What a map holds.
pub uninterp spec fn file_contents(map: FileMap) -> FileContents;

impl View for FileMap {
    type V = FileContents;

    open spec fn view(&self) -> FileContents {
        file_contents(*self)
    }
}

impl FileMap {
    /// `HashMap::new`: a map that holds nothing.
    #[verifier::external_body]
    pub(crate) fn new() -> (map: FileMap)
        ensures
            file_contents(map) == FileContents::empty(),
    {
        FileMap { files: hashbrown::HashMap::new() }
    }

    /// `HashMap::insert`: the application's path then has these bytes, whatever
    /// it had before, and all other files are as they were. What it had before is
    /// not handed out.
    #[verifier::external_body]
    pub(crate) fn insert(&mut self, aid: &str, path: &str, bytes: Vec<u8>)
        ensures
            file_contents(*final(self)) == file_contents(*old(self)).insert((aid@, path@), bytes@),
    {
        self.files.insert((aid.to_owned(), path.to_owned()), bytes);
    }

    /// `HashMap::get`: the bytes of the application's path, if it has any.
    #[verifier::external_body]
    pub(crate) fn get(&self, aid: &str, path: &str) -> (bytes: Option<&Vec<u8>>)
        ensures
            bytes is Some == file_contents(*self).dom().contains((aid@, path@)),
            bytes is Some ==> bytes->0@ == file_contents(*self)[(aid@, path@)],
    {
        self.files.get(&(aid.to_owned(), path.to_owned()))
    }
}

} // verus!
