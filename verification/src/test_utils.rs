use vstd::prelude::*;

verus! {

/// A file given by name and content, with a flag that says whether the engine
/// may read it yet: names are matched before contents are loaded.
#[derive(Clone, Debug)]
pub struct SyntheticFile {
    pub path: String,
    pub content: String,
    pub can_read: bool,
}

impl SyntheticFile {
    pub fn new(path: String, content: String, can_read: bool) -> (f: Self)
        ensures
            f.path == path,
            f.content == content,
            f.can_read == can_read,
    {
        Self { path, content, can_read }
    }

    /// The file's name: its path.
    pub fn name(&self) -> (n: String)
        ensures
            n@ == self.path@,
    {
        self.path.clone()
    }
}

/// A pattern together with the files it runs on.
#[derive(Clone, Debug)]
pub struct TestCase {
    pub files: Vec<SyntheticFile>,
    pub pattern: String,
}

/// The name of the single file of a test case.
pub open spec fn test_target_name() -> Seq<char> {
    seq!['t', 'a', 'r', 'g', 'e', 't', '.', 'j', 's']
}

impl TestCase {
    /// A test case of one readable file `target.js` holding `file_contents`.
    pub fn new(file_contents: &str, pattern: &str) -> (t: Self)
        ensures
            t.files@.len() == 1,
            t.files@[0].path@ == test_target_name(),
            t.files@[0].content@ == file_contents@,
            t.files@[0].can_read,
            t.pattern@ == pattern@,
    {
        let name = "target.js";
        proof {
            reveal_strlit("target.js");
        }
        let mut files: Vec<SyntheticFile> = Vec::new();
        files.push(SyntheticFile::new(name.to_owned(), file_contents.to_owned(), true));
        Self { files, pattern: pattern.to_owned() }
    }
}

} // verus!
