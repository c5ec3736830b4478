use vstd::prelude::*;

verus! {

/// A file the engine works on: its name and absolute path, its syntax tree,
/// the ranges that matched in it, and whether the run created it. The tree is
/// handed over as it came from the parser and moved into place the first time
/// it is asked for.
#[derive(Debug)]
pub struct FileOwner<T, M> {
    pub absolute_path: String,
    pub name: String,
    pub raw_tree: Option<T>,
    pub parsed_tree: Option<T>,
    pub matches: M,
    pub new: bool,
}

impl<T, M> FileOwner<T, M> {
    /// The owner holds a tree, raw or already taken up.
    pub open spec fn wf(&self) -> bool {
        self.raw_tree is Some || self.parsed_tree is Some
    }

    /// The tree the owner holds.
    pub open spec fn tree_view(&self) -> T {
        match self.parsed_tree {
            Some(t) => t,
            None => self.raw_tree->0,
        }
    }

    /// The tree has been taken up by a call of `tree`.
    pub open spec fn is_parsed(&self) -> bool {
        self.parsed_tree is Some
    }

    pub fn new(name: String, absolute_path: String, raw_tree: T, matches: M, new: bool) -> (f: Self)
        ensures
            f.wf(),
            f.name == name,
            f.absolute_path == absolute_path,
            f.tree_view() == raw_tree,
            !f.is_parsed(),
            f.matches == matches,
            f.new == new,
    {
        FileOwner {
            name,
            absolute_path,
            raw_tree: Some(raw_tree),
            parsed_tree: None,
            matches,
            new,
        }
    }

    /// The file's tree. The first call moves the raw tree into place; the
    /// tree itself never changes.
    pub fn tree(&mut self) -> (r: &T)
        requires
            old(self).wf(),
        ensures
            final(self).wf(),
            final(self).is_parsed(),
            *r == old(self).tree_view(),
            final(self).tree_view() == old(self).tree_view(),
            final(self).name == old(self).name,
            final(self).absolute_path == old(self).absolute_path,
            final(self).matches == old(self).matches,
            final(self).new == old(self).new,
    {
        if self.parsed_tree.is_none() {
            let raw = self.raw_tree.take();
            self.parsed_tree = raw;
        }
        self.parsed_tree.as_ref().unwrap()
    }

    /// Two owners stand for the same file when their names are equal.
    pub fn same_file(&self, other: &Self) -> (r: bool)
        ensures
            r == (self.name@ == other.name@),
    {
        let a = self.name.as_str();
        let b = other.name.as_str();
        crate::text::str_eq(a, b)
    }
}

/// The files of a run, in the order they were added.
#[derive(Debug)]
pub struct FileOwners<T, M> {
    files: Vec<FileOwner<T, M>>,
}

impl<T, M> View for FileOwners<T, M> {
    type V = Seq<FileOwner<T, M>>;

    closed spec fn view(&self) -> Seq<FileOwner<T, M>> {
        self.files@
    }
}

impl<T, M> FileOwners<T, M> {
    pub fn new() -> (r: Self)
        ensures
            r@ == Seq::<FileOwner<T, M>>::empty(),
    {
        FileOwners { files: Vec::new() }
    }

    /// Adds a file after those already there.
    pub fn push(&mut self, file: FileOwner<T, M>)
        ensures
            final(self)@ == old(self)@.push(file),
    {
        self.files.push(file);
    }

    pub fn len(&self) -> (r: usize)
        ensures
            r == self@.len(),
    {
        self.files.len()
    }

    pub fn get(&self, i: usize) -> (r: &FileOwner<T, M>)
        requires
            i < self@.len(),
        ensures
            *r == self@[i as int],
    {
        &self.files[i]
    }

    /// The file at index `i`, to take up its tree.
    pub fn get_mut(&mut self, i: usize) -> (r: &mut FileOwner<T, M>)
        requires
            i < old(self)@.len(),
        ensures
            *r == old(self)@[i as int],
            final(self)@ == old(self)@.update(i as int, *final(r)),
    {
        &mut self.files[i]
    }
}

impl<T, M> Default for FileOwners<T, M> {
    fn default() -> (r: Self)
        ensures
            r@ == Seq::<FileOwner<T, M>>::empty(),
    {
        Self::new()
    }
}

} // verus!
