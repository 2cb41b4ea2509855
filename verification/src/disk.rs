//! The files of a module or of a crate: what is to be done to them, and what was found of them.

use crate::names;
use vstd::prelude::*;
use vstd::string::*;

verus! {

/// A directory that files are written to.
#[derive(Debug, Clone, Copy, PartialEq, Eq, Structural)]
pub enum Folder {
    /// The directory of the module or of the crate.
    Root,
    /// `src` in the directory of the crate.
    Src,
}

/// One thing to do to the disk.
#[derive(Debug, Clone)]
pub enum FileAction {
    /// Create the directory and all that it is in, as far as they do not exist.
    CreateDir { folder: Folder },
    /// Create the file, which must not exist.
    CreateNew { folder: Folder, name: String, contents: Vec<u8> },
    /// Write the file, over what it held.
    Write { folder: Folder, name: String, contents: Vec<u8> },
}

pub enum ActionView {
    CreateDir { folder: Folder },
    CreateNew { folder: Folder, name: Seq<char>, contents: Seq<u8> },
    Write { folder: Folder, name: Seq<char>, contents: Seq<u8> },
}

impl View for FileAction {
    type V = ActionView;

    open spec fn view(&self) -> ActionView {
        match self {
            FileAction::CreateDir { folder } => ActionView::CreateDir { folder: *folder },
            FileAction::CreateNew { folder, name, contents } => ActionView::CreateNew {
                folder: *folder,
                name: name@,
                contents: contents@,
            },
            FileAction::Write { folder, name, contents } => ActionView::Write {
                folder: *folder,
                name: name@,
                contents: contents@,
            },
        }
    }
}

/// The views of actions.
pub open spec fn plan(actions: Seq<FileAction>) -> Seq<ActionView> {
    actions.map_values(|a: FileAction| a@)
}

/// The directories and files below the place that is written to.
pub struct Disk {
    pub folders: Set<Folder>,
    pub files: Map<(Folder, Seq<char>), Seq<u8>>,
}

impl Disk {
    /// The disk after an action, or `None` where the action fails.
    pub open spec fn after(self, action: ActionView) -> Option<Disk> {
        match action {
            ActionView::CreateDir { folder } => Some(
                Disk { folders: self.folders.insert(Folder::Root).insert(folder), ..self },
            ),
            ActionView::CreateNew { folder, name, contents } => {
                if self.folders.contains(folder) && !self.files.dom().contains((folder, name)) {
                    Some(Disk { files: self.files.insert((folder, name), contents), ..self })
                } else {
                    None
                }
            },
            ActionView::Write { folder, name, contents } => {
                if self.folders.contains(folder) {
                    Some(Disk { files: self.files.insert((folder, name), contents), ..self })
                } else {
                    None
                }
            },
        }
    }

    /// The disk after all actions, or `None` where one of them fails.
    pub open spec fn after_all(self, actions: Seq<ActionView>) -> Option<Disk>
        decreases actions.len(),
    {
        if actions.len() == 0 {
            Some(self)
        } else {
            match self.after_all(actions.drop_last()) {
                Some(disk) => disk.after(actions.last()),
                None => None,
            }
        }
    }
}

/// A file with its contents.
pub struct FileView {
    pub folder: Folder,
    pub name: Seq<char>,
    pub contents: Seq<u8>,
}

/// Why what was found does not match what was expected.
#[derive(Debug, Clone)]
pub enum CheckError {
    /// There is no such directory.
    NotADirectory { folder: Folder },
    /// There is no such file.
    NotAFile { folder: Folder, name: String },
    /// The file holds something else.
    OutOfDate { folder: Folder, name: String },
}

pub enum ErrorView {
    NotADirectory { folder: Folder },
    NotAFile { folder: Folder, name: Seq<char> },
    OutOfDate { folder: Folder, name: Seq<char> },
}

impl View for CheckError {
    type V = ErrorView;

    open spec fn view(&self) -> ErrorView {
        match self {
            CheckError::NotADirectory { folder } => ErrorView::NotADirectory { folder: *folder },
            CheckError::NotAFile { folder, name } => ErrorView::NotAFile { folder: *folder, name: name@ },
            CheckError::OutOfDate { folder, name } => ErrorView::OutOfDate { folder: *folder, name: name@ },
        }
    }
}

impl ErrorView {
    /// What is said of the error, where `path` is the path of the directory or of the file.
    pub open spec fn message(self, path: Seq<char>) -> Seq<char> {
        match self {
            ErrorView::NotADirectory { .. } => "Not a directory: "@ + path,
            ErrorView::NotAFile { .. } => "Not a file: "@ + path,
            ErrorView::OutOfDate { .. } => "The contents of `"@ + path
                + "` do not match the expected output of the newest `ethers::Abigen` version."@
                + "This indicates that the existing bindings are outdated and need to be generated again."@,
        }
    }
}

impl CheckError {
    /// What is said of the error, where `path` is the path of the directory or of the file.
    pub fn message(&self, path: &str) -> (text: String)
        ensures
            text@ == self@.message(path@),
    {
        match self {
            CheckError::NotADirectory { .. } => "Not a directory: ".to_owned().concat(path),
            CheckError::NotAFile { .. } => "Not a file: ".to_owned().concat(path),
            CheckError::OutOfDate { .. } => "The contents of `".to_owned().concat(path).concat(
                "` do not match the expected output of the newest `ethers::Abigen` version.",
            ).concat(
                "This indicates that the existing bindings are outdated and need to be generated again.",
            ),
        }
    }
}

/// The view of the outcome of a check.
pub open spec fn outcome(r: Result<(), CheckError>) -> Result<(), ErrorView> {
    match r {
        Ok(()) => Ok(()),
        Err(error) => Err(error@),
    }
}

/// Whether the file is there with its contents, and if not, what is wrong first.
pub open spec fn checked(disk: Disk, file: FileView) -> Result<(), ErrorView> {
    if !disk.folders.contains(file.folder) {
        Err(ErrorView::NotADirectory { folder: file.folder })
    } else if !disk.files.dom().contains((file.folder, file.name)) {
        Err(ErrorView::NotAFile { folder: file.folder, name: file.name })
    } else if disk.files[(file.folder, file.name)] != file.contents {
        Err(ErrorView::OutOfDate { folder: file.folder, name: file.name })
    } else {
        Ok(())
    }
}

/// Whether all files are there with their contents, and if not, what is wrong with the first that
/// is not.
pub open spec fn checked_all(disk: Disk, files: Seq<FileView>) -> Result<(), ErrorView>
    decreases files.len(),
{
    if files.len() == 0 {
        Ok(())
    } else {
        match checked(disk, files[0]) {
            Ok(()) => checked_all(disk, files.drop_first()),
            Err(error) => Err(error),
        }
    }
}

/// Files are checked one list after the other.
pub proof fn lemma_checked_lists(disk: Disk, a: Seq<FileView>, b: Seq<FileView>)
    ensures
        checked_all(disk, a + b) == (match checked_all(disk, a) {
            Ok(()) => checked_all(disk, b),
            Err(error) => Err(error),
        }),
    decreases a.len(),
{
    if a.len() == 0 {
        assert(a + b =~= b);
    } else {
        assert((a + b)[0] == a[0]);
        assert((a + b).drop_first() =~= a.drop_first() + b);
        lemma_checked_lists(disk, a.drop_first(), b);
    }
}

/// A list of one file.
pub proof fn lemma_checked_one(disk: Disk, file: FileView)
    ensures
        checked_all(disk, seq![file]) == checked(disk, file),
{
    reveal_with_fuel(checked_all, 2);
}

/// A file that was found.
struct FoundFile {
    folder: Folder,
    name: String,
    contents: Vec<u8>,
}

impl View for FoundFile {
    type V = FileView;

    closed spec fn view(&self) -> FileView {
        FileView { folder: self.folder, name: self.name@, contents: self.contents@ }
    }
}

spec fn file_views(files: Seq<FoundFile>) -> Seq<FileView> {
    files.map_values(|f: FoundFile| f@)
}

/// What was found on the disk.
pub struct Snapshot {
    folders: Vec<Folder>,
    files: Vec<FoundFile>,
}

/// The files of a list by their place. The last of several for one place stays.
pub open spec fn files_by_place(files: Seq<FileView>) -> Map<(Folder, Seq<char>), Seq<u8>>
    decreases files.len(),
{
    if files.len() == 0 {
        Map::empty()
    } else {
        let last = files.last();
        files_by_place(files.drop_last()).insert((last.folder, last.name), last.contents)
    }
}

impl View for Snapshot {
    type V = Disk;

    closed spec fn view(&self) -> Disk {
        Disk { folders: self.folders@.to_set(), files: files_by_place(file_views(self.files@)) }
    }
}

impl Snapshot {
    /// Nothing was found.
    pub fn new() -> (snapshot: Self)
        ensures
            snapshot@.folders == Set::<Folder>::empty(),
            snapshot@.files == Map::<(Folder, Seq<char>), Seq<u8>>::empty(),
    {
        let snapshot = Snapshot { folders: Vec::new(), files: Vec::new() };
        assert(snapshot@.folders =~= Set::<Folder>::empty());
        assert(snapshot@.files =~= Map::<(Folder, Seq<char>), Seq<u8>>::empty());
        snapshot
    }

    /// The directory was found.
    pub fn add_folder(&mut self, folder: Folder)
        ensures
            final(self)@.folders == old(self)@.folders.insert(folder),
            final(self)@.files == old(self)@.files,
    {
        let ghost held = self.folders@;
        self.folders.push(folder);
        proof {
            assert forall|f: Folder| self.folders@.contains(f) == (held.contains(f) || f == folder) by {
                if held.contains(f) {
                    let i = choose|i: int| 0 <= i < held.len() && held[i] == f;
                    assert(self.folders@[i] == f);
                }
                assert(self.folders@[held.len() as int] == folder);
            }
            assert(self@.folders =~= old(self)@.folders.insert(folder));
        }
    }

    /// The file was found with these contents.
    pub fn add_file(&mut self, folder: Folder, name: &str, contents: Vec<u8>)
        ensures
            final(self)@.folders == old(self)@.folders,
            final(self)@.files == old(self)@.files.insert((folder, name@), contents@),
    {
        let ghost held = file_views(self.files@);
        self.files.push(FoundFile { folder, name: name.to_owned(), contents });
        assert(file_views(self.files@).drop_last() =~= held);
    }

    /// Whether the directory was found.
    pub fn is_dir(&self, folder: Folder) -> (r: bool)
        ensures
            r == self@.folders.contains(folder),
    {
        let mut i: usize = 0;
        while i < self.folders.len()
            invariant
                i <= self.folders@.len(),
                forall|j: int| 0 <= j < i ==> self.folders@[j] != folder,
            decreases self.folders@.len() - i,
        {
            if self.folders[i] == folder {
                return true;
            }
            i += 1;
        }
        false
    }

    /// The contents of the file, or `None` where it was not found.
    pub fn read(&self, folder: Folder, name: &str) -> (contents: Option<&Vec<u8>>)
        ensures
            match contents {
                Some(bytes) => {
                    &&& self@.files.dom().contains((folder, name@))
                    &&& self@.files[(folder, name@)] == bytes@
                },
                None => !self@.files.dom().contains((folder, name@)),
            },
    {
        let ghost files = file_views(self.files@);
        let ghost place = (folder, name@);
        let mut i: usize = self.files.len();
        assert(files.take(i as int) =~= files);
        while i > 0
            invariant
                i <= files.len(),
                files == file_views(self.files@),
                place == (folder, name@),
                self@.files.dom().contains(place) == files_by_place(files.take(i as int)).dom().contains(place),
                self@.files.dom().contains(place) ==> self@.files[place] == files_by_place(
                    files.take(i as int),
                )[place],
            decreases i,
        {
            i -= 1;
            let file = &self.files[i];
            proof {
                assert(files.take(i + 1).drop_last() =~= files.take(i as int));
                assert(files.take(i + 1).last() == file@);
            }
            if file.folder == folder && names::same(file.name.as_str(), name) {
                return Some(&file.contents);
            }
        }
        assert(files.take(0) =~= Seq::<FileView>::empty());
        None
    }
}

/// Checks that the file was found with the expected contents.
pub fn check_file_in_dir(
    disk: &Snapshot,
    folder: Folder,
    file_name: &str,
    expected_contents: &Vec<u8>,
) -> (r: Result<(), CheckError>)
    ensures
        outcome(r) == checked(
            disk@,
            (FileView { folder, name: file_name@, contents: expected_contents@ }),
        ),
{
    if !disk.is_dir(folder) {
        return Err(CheckError::NotADirectory { folder });
    }
    match disk.read(folder, file_name) {
        None => Err(CheckError::NotAFile { folder, name: file_name.to_owned() }),
        Some(contents) => {
            if names::same_bytes(contents.as_slice(), expected_contents.as_slice()) {
                Ok(())
            } else {
                Err(CheckError::OutOfDate { folder, name: file_name.to_owned() })
            }
        },
    }
}

} // verus!
