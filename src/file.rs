//! Classification of a single entry and its one-line rendering.
use crate::icons::Icons;
use vstd::prelude::*;

verus! {

/// Execute permission for the owner, the group and others.
pub const EXEC_BITS: u32 = 0o111;

/// What the file system reports an entry to be, before classification.
#[derive(Clone, Copy, PartialEq, Eq, Debug)]
pub enum NodeKind {
    Regular,
    Dir,
    Link,
    Block,
    Char,
    Fifo,
    Sock,
    Other,
}

/// The classification of one entry.
pub enum FileType {
    File { executable: bool },
    Directory,
    Symlink { target: String, to_dir: bool, valid: bool },
    BlockDevice,
    CharDevice,
    Pipe,
    Socket,
    Special,
}

/// One entry: its path, its display name, the extension of its file name
/// and its classification.
pub struct File {
    pub path: String,
    pub name: String,
    pub ext: Option<String>,
    pub ftype: FileType,
}

pub open spec fn is_exec_mode(mode: u32) -> bool {
    mode & 0o100u32 != 0 || mode & 0o010u32 != 0 || mode & 0o001u32 != 0
}

impl FileType {
    /// Classifies an entry from what a non-following stat reported (`kind`,
    /// `mode`) and, for a link, its target and what a following stat found.
    pub fn classify(kind: NodeKind, mode: u32, target: String, to_dir: bool, valid: bool) -> (r:
        FileType)
        ensures
            kind == NodeKind::Regular ==> r == (FileType::File { executable: is_exec_mode(mode) }),
            kind == NodeKind::Dir ==> r is Directory,
            kind == NodeKind::Link ==> r == (FileType::Symlink { target, to_dir, valid }),
            kind == NodeKind::Block ==> r is BlockDevice,
            kind == NodeKind::Char ==> r is CharDevice,
            kind == NodeKind::Fifo ==> r is Pipe,
            kind == NodeKind::Sock ==> r is Socket,
            kind == NodeKind::Other ==> r is Special,
    {
        match kind {
            NodeKind::Regular => {
                let executable = mode & EXEC_BITS != 0;
                assert(executable == is_exec_mode(mode)) by (bit_vector)
                    requires
                        executable == (mode & 0o111u32 != 0),
                ;
                FileType::File { executable }
            },
            NodeKind::Dir => FileType::Directory,
            NodeKind::Link => FileType::Symlink { target, to_dir, valid },
            NodeKind::Block => FileType::BlockDevice,
            NodeKind::Char => FileType::CharDevice,
            NodeKind::Fifo => FileType::Pipe,
            NodeKind::Sock => FileType::Socket,
            NodeKind::Other => FileType::Special,
        }
    }

    /// Whether a walk descends into the entry: a directory, or a link to one.
    pub open spec fn spec_is_dir(&self) -> bool {
        match self {
            FileType::Directory => true,
            FileType::Symlink { to_dir, .. } => *to_dir,
            _ => false,
        }
    }

    pub fn is_dir(&self) -> (r: bool)
        ensures
            r == self.spec_is_dir(),
    {
        match self {
            FileType::Directory => true,
            FileType::Symlink { to_dir, .. } => *to_dir,
            _ => false,
        }
    }

    pub fn is_directory(&self) -> (r: bool)
        ensures
            r == (self is Directory),
    {
        match self {
            FileType::Directory => true,
            _ => false,
        }
    }
}

/// The default glyph of each classification.
pub open spec fn type_icon(t: FileType) -> Seq<char> {
    match t {
        FileType::File { executable } => if executable {
            "\u{f489}"@
        } else {
            "\u{f016}"@
        },
        FileType::Directory => "\u{f115}"@,
        FileType::Symlink { to_dir, .. } => if to_dir {
            "\u{f482}"@
        } else {
            "\u{f481}"@
        },
        FileType::BlockDevice => "\u{fc29}"@,
        FileType::CharDevice => "\u{e601}"@,
        FileType::Pipe => "\u{f731}"@,
        FileType::Socket => "\u{f6a7}"@,
        FileType::Special => "\u{f2dc}"@,
    }
}

pub fn icons_by_type(file: &File) -> (r: &'static str)
    ensures
        r@ == type_icon(file.ftype),
{
    match &file.ftype {
        FileType::File { executable } => if *executable {
            "\u{f489}"
        } else {
            "\u{f016}"
        },
        FileType::Directory => "\u{f115}",
        FileType::Symlink { to_dir, .. } => if *to_dir {
            "\u{f482}"
        } else {
            "\u{f481}"
        },
        FileType::BlockDevice => "\u{fc29}",
        FileType::CharDevice => "\u{e601}",
        FileType::Pipe => "\u{f731}",
        FileType::Socket => "\u{f6a7}",
        FileType::Special => "\u{f2dc}",
    }
}

/// Index of the last `.` in `n`, or -1.
pub open spec fn last_dot(n: Seq<char>) -> int
    decreases n.len(),
{
    if n.len() == 0 {
        -1
    } else if n.last() == '.' {
        n.len() - 1
    } else {
        last_dot(n.drop_last())
    }
}

/// The extension of a file name: what follows its last `.`, unless that `.`
/// is the name's first character, or there is none.
pub open spec fn extension_of(n: Seq<char>) -> Option<Seq<char>> {
    if last_dot(n) <= 0 {
        None
    } else {
        Some(n.skip(last_dot(n) + 1))
    }
}

/// The extension of a file name, as `extension_of` states it.
pub fn extension(name: &str) -> (r: Option<String>)
    ensures
        r is Some <==> extension_of(name@) is Some,
        r is Some ==> r->0@ == extension_of(name@)->0,
{
    let len = name.unicode_len();
    let mut i: usize = len;
    assert(name@.take(len as int) =~= name@);
    while i > 0
        invariant
            i <= len == name@.len(),
            last_dot(name@) == last_dot(name@.take(i as int)),
        ensures
            i == 0 || name@[i - 1] == '.',
            last_dot(name@) == last_dot(name@.take(i as int)),
        decreases i,
    {
        let ghost t = name@.take(i as int);
        assert(t.drop_last() =~= name@.take(i - 1));
        if name.get_char(i - 1) == '.' {
            break;
        }
        i = i - 1;
    }
    assert(last_dot(name@) == i - 1) by {
        if i == 0 {
            assert(name@.take(0).len() == 0);
        } else {
            assert(name@.take(i as int).last() == name@[i - 1]);
        }
    }
    if i <= 1 {
        None
    } else {
        Some(String::from_str(name.substring_char(i, len)))
    }
}

/// The glyph shown for an entry: by exact name, else by extension, else the
/// default of its classification.
pub open spec fn icon_of(f: File, names: Map<Seq<char>, Seq<char>>, exts: Map<Seq<char>, Seq<char>>) -> Seq<char> {
    if names.contains_key(f.name@) {
        names[f.name@]
    } else if f.ext is Some && exts.contains_key(f.ext->0@) {
        exts[f.ext->0@]
    } else {
        type_icon(f.ftype)
    }
}

/// `"<icon> <label>"`, with `" ⇒ <target>"` after it for a link; the label is
/// the path where `full` holds, else the name.
pub open spec fn rendering(f: File, names: Map<Seq<char>, Seq<char>>, exts: Map<Seq<char>, Seq<char>>, full: bool) -> Seq<char> {
    icon_of(f, names, exts) + " "@ + (if full { f.path@ } else { f.name@ }) + match f.ftype {
        FileType::Symlink { target, .. } => " \u{21d2} "@ + target@,
        _ => Seq::empty(),
    }
}

impl File {
    /// An entry at `path` whose last component is `base` (if it has one).
    pub fn new(path: String, base: Option<String>, ftype: FileType) -> (r: File)
        ensures
            r.path@ == path@,
            base is Some ==> r.name@ == base->0@,
            base is None ==> r.name@ == path@,
            base is Some ==> (r.ext is Some <==> extension_of(base->0@) is Some),
            base is Some && r.ext is Some ==> r.ext->0@ == extension_of(base->0@)->0,
            base is None ==> r.ext is None,
            r.ftype == ftype,
    {
        match base {
            Some(b) => {
                let ext = extension(b.as_str());
                File { path, name: b, ext, ftype }
            },
            None => {
                let name = path.clone();
                File { path, name, ext: None, ftype }
            },
        }
    }

    pub fn is_dir(&self) -> (r: bool)
        ensures
            r == self.ftype.spec_is_dir(),
    {
        self.ftype.is_dir()
    }

    /// The entry's line: its glyph, its label and, for a link, its target.
    pub fn display(&self, icons: &Icons, full: bool) -> (r: String)
        ensures
            r@ == rendering(*self, icons.names(), icons.extensions(), full),
    {
        let icon: &str = match icons.name_glyph(self.name.as_str()) {
            Some(g) => g,
            None => {
                let by_ext = match &self.ext {
                    Some(e) => icons.extension_glyph(e.as_str()),
                    None => None,
                };
                match by_ext {
                    Some(g) => g,
                    None => icons_by_type(self),
                }
            },
        };
        let mut s = String::from_str(icon);
        s.append(" ");
        if full {
            s.append(self.path.as_str());
        } else {
            s.append(self.name.as_str());
        }
        match &self.ftype {
            FileType::Symlink { target, .. } => {
                s.append(" \u{21d2} ");
                s.append(target.as_str());
            },
            _ => {},
        }
        assert(s@ =~= rendering(*self, icons.names(), icons.extensions(), full));
        s
    }
}

} // verus!
