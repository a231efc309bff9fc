//! Listing a device's files.

use crate::text;
use vstd::prelude::*;
use vstd::string::*;

verus! {

#[derive(Debug, Clone, Copy, PartialEq, Eq, Structural)]
pub enum FileKind {
    Directory,
    File,
    Other,
}

/// One thing in a directory.
#[derive(Debug, Clone, PartialEq, Eq)]
pub struct FileEntry {
    pub path: String,
    pub name: String,
    pub kind: FileKind,
    pub size: Option<i64>,
    /// Milliseconds since the epoch.
    pub modified_at: Option<i64>,
}

/// What a listing says of one thing in a directory.
#[verifier::ext_equal]
pub struct FileEntryView {
    pub path: Seq<char>,
    pub name: Seq<char>,
    pub kind: FileKind,
    pub size: Option<i64>,
    pub modified_at: Option<i64>,
}

impl View for FileEntry {
    type V = FileEntryView;

    open spec fn view(&self) -> FileEntryView {
        FileEntryView {
            path: self.path@,
            name: self.name@,
            kind: self.kind,
            size: self.size,
            modified_at: self.modified_at,
        }
    }
}

/// The entries in a vector.
pub open spec fn file_views(entries: Seq<FileEntry>) -> Seq<FileEntryView> {
    entries.map_values(|entry: FileEntry| entry@)
}

/// One directory.
#[derive(Debug)]
pub struct FileListing {
    pub path: String,
    pub parent: Option<String>,
    pub entries: Vec<FileEntry>,
}

/// A name in a directory, as a path.
pub open spec fn join_text(dir: Seq<char>, name: Seq<char>) -> Seq<char> {
    if dir.len() > 0 && dir.last() == '/' {
        dir + name
    } else {
        dir + "/"@ + name
    }
}

/// A name in a directory, as a path.
pub fn join_path(dir: &str, name: &str) -> (path: String)
    ensures
        path@ == join_text(dir@, name@),
{
    let chars = text::chars_of(dir);
    let mut out = String::new();
    out.append(dir);
    if !(chars.len() > 0 && chars[chars.len() - 1] == '/') {
        out.append("/");
    }
    out.append(name);
    assert(out@ =~= join_text(dir@, name@));
    out
}

/// How many characters come before the last slash, if there is one.
pub open spec fn last_slash(path: Seq<char>) -> Option<int>
    decreases path.len(),
{
    if path.len() == 0 {
        None
    } else if path.last() == '/' {
        Some(path.len() - 1)
    } else {
        last_slash(path.drop_last())
    }
}

/// The directory that a path lies in; none for the root and for what has no
/// slash.
pub open spec fn parent_text(path: Seq<char>) -> Option<Seq<char>> {
    match last_slash(path) {
        None => None,
        Some(at) => if at == 0 {
            if path.len() == 1 {
                None
            } else {
                Some("/"@)
            }
        } else {
            Some(path.take(at))
        },
    }
}

/// The directory that a path lies in.
pub fn parent_of(path: &str) -> (parent: Option<String>)
    ensures
        text::text_in(parent) == parent_text(path@),
{
    let chars = text::chars_of(path);
    let mut n: usize = chars.len();
    assert(path@.take(n as int) =~= path@);
    while n > 0 && chars[n - 1] != '/'
        invariant
            chars@ == path@,
            n <= chars@.len(),
            last_slash(path@) == last_slash(path@.take(n as int)),
        decreases n,
    {
        assert(path@.take(n as int).drop_last() =~= path@.take(n - 1));
        n -= 1;
    }
    if n == 0 {
        return None;
    }
    let at: usize = n - 1;
    if at == 0 {
        if chars.len() == 1 {
            None
        } else {
            Some("/".to_owned())
        }
    } else {
        assert(chars@.subrange(0, at as int) =~= path@.take(at as int));
        Some(text::string_of(&chars[0..at]))
    }
}

/// A directory's entry lies in that directory, where the directory is a path
/// without a slash at its end or the root, and the name is one without slashes.
pub proof fn law_an_entry_lies_in_its_directory(dir: Seq<char>, name: Seq<char>)
    requires
        dir.len() > 0,
        dir.last() != '/' || dir == "/"@,
        name.len() > 0,
        forall|i: int| 0 <= i < name.len() ==> #[trigger] name[i] != '/',
    ensures
        parent_text(join_text(dir, name)) == Some(dir),
{
    reveal_strlit("/");
    let path = join_text(dir, name);
    let slash = path.len() - name.len() - 1;
    assert(path[slash] == '/');
    assert forall|i: int| slash < i < path.len() implies #[trigger] path[i] != '/' by {
        assert(path[i] == name[i - slash - 1]);
    }
    lemma_last_slash(path, slash);
    if dir.last() == '/' {
        assert(dir.len() == 1);
        assert(slash == 0);
    } else {
        assert(path.take(slash) =~= dir);
    }
}

proof fn lemma_last_slash(path: Seq<char>, at: int)
    requires
        0 <= at < path.len(),
        path[at] == '/',
        forall|i: int| at < i < path.len() ==> #[trigger] path[i] != '/',
    ensures
        last_slash(path) == Some(at),
    decreases path.len(),
{
    if at < path.len() - 1 {
        assert(path[path.len() - 1] != '/');
        assert forall|i: int| at < i < path.drop_last().len() implies #[trigger] path.drop_last()[i]
            != '/' by {
            assert(path[i] != '/');
        }
        lemma_last_slash(path.drop_last(), at);
    }
}

} // verus!
