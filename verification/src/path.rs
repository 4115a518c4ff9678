//! Paths, taken apart.

use vstd::prelude::*;
use vstd::string::*;

use crate::order::{
    bytes_precede, lex_precedes, part_bytes, part_order, part_rank, path_order, PartName,
};
use crate::text::{name_text, replace, replaced, same_bytes, text_of_name, NameEncoding};

verus! {

/// What a part of a path is.
#[derive(Clone, Copy, Debug, PartialEq, Eq, Structural)]
pub enum PartKind {
    /// What stands before the root of an absolute path, such as a drive.
    Prefix,
    /// The root.
    Root,
    /// `.`, the directory itself.
    Here,
    /// `..`, the directory above.
    Up,
    /// The name of a file or directory.
    Name,
}

/// A part of a path, and what follows it up to the next.
#[derive(Clone, Debug)]
pub struct PathPart {
    pub kind: PartKind,
    /// What a prefix is told apart by, which can be written in several ways;
    /// nothing for other parts.
    pub key: Vec<u8>,
    /// The part as it is written.
    pub written: Vec<u8>,
    /// What stands between it and the next part, or the end: as a rule one
    /// separator, or nothing.
    pub gap: Vec<u8>,
}

/// What a [`PathPart`] says.
pub struct PathPartView {
    pub kind: PartKind,
    pub key: Seq<u8>,
    pub written: Seq<u8>,
    pub gap: Seq<u8>,
}

impl View for PathPart {
    type V = PathPartView;

    open spec fn view(&self) -> PathPartView {
        PathPartView {
            kind: self.kind,
            key: self.key@,
            written: self.written@,
            gap: self.gap@,
        }
    }
}

/// What a part says: prefixes are told apart by their keys, names by their bytes.
pub open spec fn part_name(part: PathPartView) -> PartName {
    match part.kind {
        PartKind::Prefix => PartName::Prefix(part.key),
        PartKind::Root => PartName::Root,
        PartKind::Here => PartName::Here,
        PartKind::Up => PartName::Up,
        PartKind::Name => PartName::Name(part.written),
    }
}

/// A path: its parts from the outermost to the innermost. How the parts are
/// separated counts for its text only.
#[derive(Clone, Debug)]
pub struct TreePath {
    pub parts: Vec<PathPart>,
    pub encoding: NameEncoding,
}

/// What a [`TreePath`] says.
pub struct PathView {
    pub parts: Seq<PathPartView>,
    pub encoding: NameEncoding,
}

impl View for TreePath {
    type V = PathView;

    open spec fn view(&self) -> PathView {
        PathView {
            parts: self.parts@.map_values(|part: PathPart| part@),
            encoding: self.encoding,
        }
    }
}

impl PathView {
    /// What the parts of the path say: by this paths are compared.
    pub open spec fn names(self) -> Seq<PartName> {
        self.parts.map_values(|part: PathPartView| part_name(part))
    }
}

/// Parts as they are written, with what separates them.
pub open spec fn written_bytes(parts: Seq<PathPartView>) -> Seq<u8>
    decreases parts.len(),
{
    if parts.len() == 0 {
        Seq::empty()
    } else {
        written_bytes(parts.drop_last()) + parts.last().written + parts.last().gap
    }
}

/// Whether the parts are those of a plain path: a prefix comes first, the root first or
/// behind a prefix, `.` first; names are not empty and hold no slash; and names
/// are separated.
pub open spec fn well_formed(parts: Seq<PathPartView>) -> bool {
    forall|i: int| 0 <= i < parts.len() ==> well_placed(parts, #[trigger] parts[i], i)
}

/// Whether a part of a path may stand at the given place.
pub open spec fn well_placed(parts: Seq<PathPartView>, part: PathPartView, i: int) -> bool {
    &&& part.kind == PartKind::Prefix || part.kind == PartKind::Here ==> i == 0
    &&& part.kind == PartKind::Root ==> i == 0 || (i == 1 && parts[0].kind == PartKind::Prefix)
    &&& part.kind == PartKind::Name ==> part.written.len() > 0 && !part.written.contains(0x2fu8)
    &&& (part.kind == PartKind::Here || part.kind == PartKind::Up || part.kind == PartKind::Name)
        && i + 1 < parts.len() ==> part.gap.len() > 0
}

/// The name of the file or directory that a path leads to.
pub open spec fn file_name_of(path: PathView) -> Option<Seq<u8>> {
    if path.parts.len() > 0 && path.parts.last().kind == PartKind::Name {
        Some(path.parts.last().written)
    } else {
        None
    }
}

/// The directory that holds a path; where there is none, as for a root, the empty
/// path.
pub open spec fn parent_of(names: Seq<PartName>) -> Seq<PartName> {
    if names.len() > 0 && !(names.last() is Prefix) && !(names.last() is Root) {
        names.drop_last()
    } else {
        Seq::empty()
    }
}

/// How many directories a path goes down before its last part.
pub open spec fn depth_of(names: Seq<PartName>) -> nat {
    if names.len() > 0 {
        (names.len() - 1) as nat
    } else {
        0
    }
}

/// What is left of a path without its first `count` parts, and without what
/// follows its last.
pub open spec fn without_first(path: PathView, count: int) -> PathView {
    PathView { parts: without_end(path.parts.skip(count)), encoding: path.encoding }
}

/// Parts without what follows the last.
pub open spec fn without_end(parts: Seq<PathPartView>) -> Seq<PathPartView> {
    if parts.len() > 0 {
        parts.drop_last().push(PathPartView { gap: Seq::empty(), ..parts.last() })
    } else {
        parts
    }
}

/// A path as text: what is written, as far as it can be read, with slashes for
/// backslashes.
pub open spec fn path_text(path: PathView) -> Seq<char> {
    replaced(text_of_name(written_bytes(path.parts), path.encoding), '\\', "/"@)
}

/// Copies bytes.
fn copy_bytes(bytes: &Vec<u8>) -> (result: Vec<u8>)
    ensures
        result@ == bytes@,
{
    let result = bytes.clone();
    assert(result@ =~= bytes@);
    result
}

impl PathPart {
    /// Copies the part.
    fn copy(&self) -> (result: PathPart)
        ensures
            result@ == self@,
    {
        PathPart {
            kind: self.kind,
            key: copy_bytes(&self.key),
            written: copy_bytes(&self.written),
            gap: copy_bytes(&self.gap),
        }
    }

    /// Where the part stands among others.
    fn rank(&self) -> (result: u8)
        ensures
            result == part_rank(part_name(self@)),
    {
        match self.kind {
            PartKind::Prefix => 0,
            PartKind::Root => 1,
            PartKind::Here => 2,
            PartKind::Up => 3,
            PartKind::Name => 4,
        }
    }

    /// The bytes by which parts of one rank are told apart.
    fn bytes(&self) -> (result: Vec<u8>)
        ensures
            result@ == part_bytes(part_name(self@)),
    {
        match self.kind {
            PartKind::Prefix => copy_bytes(&self.key),
            PartKind::Name => copy_bytes(&self.written),
            _ => Vec::new(),
        }
    }

    /// Whether two parts say the same.
    fn same_part(&self, other: &PathPart) -> (result: bool)
        ensures
            result == (part_name(self@) == part_name(other@)),
    {
        self.rank() == other.rank() && same_bytes(
            self.bytes().as_slice(),
            other.bytes().as_slice(),
        )
    }

    /// Whether the part stands before another.
    fn part_precedes(&self, other: &PathPart) -> (result: bool)
        ensures
            result == part_order()(part_name(self@), part_name(other@)),
    {
        let left: u8 = self.rank();
        let right: u8 = other.rank();
        left < right || (left == right && bytes_precede(
            self.bytes().as_slice(),
            other.bytes().as_slice(),
        ))
    }
}

impl TreePath {
    /// Copies the path.
    pub fn copy(&self) -> (result: TreePath)
        ensures
            result@ == self@,
    {
        let result = self.copy_from(0);
        assert(result@.parts =~= self@.parts);
        result
    }

    /// Copies the path from the part with the given number on.
    fn copy_from(&self, start: usize) -> (result: TreePath)
        requires
            start <= self@.parts.len(),
        ensures
            result@.parts == self@.parts.skip(start as int),
            result@.encoding == self@.encoding,
    {
        let mut parts: Vec<PathPart> = Vec::new();
        let mut i: usize = start;
        while i < self.parts.len()
            invariant
                start <= i <= self.parts.len(),
                parts.len() == i - start,
                forall|j: int|
                    0 <= j < i - start ==> (#[trigger] parts@[j])@ == self@.parts[start + j],
            decreases self.parts.len() - i,
        {
            parts.push(self.parts[i].copy());
            i = i + 1;
        }
        let result = TreePath { parts, encoding: self.encoding };
        assert(result@.parts =~= self@.parts.skip(start as int));
        result
    }

    /// The name of the file or directory that the path leads to.
    pub fn file_name(&self) -> (result: Option<&Vec<u8>>)
        ensures
            result is Some == file_name_of(self@) is Some,
            result matches Some(name) ==> name@ == file_name_of(self@)->0,
    {
        if self.parts.len() > 0 && self.parts[self.parts.len() - 1].kind == PartKind::Name {
            Some(&self.parts[self.parts.len() - 1].written)
        } else {
            None
        }
    }

    /// How many directories the path goes down before its last part.
    pub fn depth(&self) -> (result: usize)
        ensures
            result == depth_of(self@.names()),
    {
        if self.parts.len() > 0 {
            self.parts.len() - 1
        } else {
            0
        }
    }

    /// Whether the first `count` parts of two paths say the same.
    fn same_start(&self, other: &TreePath, count: usize) -> (result: bool)
        requires
            count <= self@.parts.len(),
            count <= other@.parts.len(),
        ensures
            result == (self@.names().take(count as int) == other@.names().take(count as int)),
    {
        let mut i: usize = 0;
        while i < count
            invariant
                i <= count <= self.parts.len(),
                count <= other.parts.len(),
                forall|j: int| 0 <= j < i ==> self@.names()[j] == other@.names()[j],
            decreases count - i,
        {
            if !self.parts[i].same_part(&other.parts[i]) {
                proof {
                    assert(self@.names()[i as int] != other@.names()[i as int]);
                    assert(self@.names().take(count as int)[i as int] == self@.names()[i as int]);
                    assert(other@.names().take(count as int)[i as int]
                        == other@.names()[i as int]);
                }
                return false;
            }
            i = i + 1;
        }
        assert(self@.names().take(count as int) =~= other@.names().take(count as int));
        true
    }

    /// Whether two paths have the same parts.
    pub fn same_path(&self, other: &TreePath) -> (result: bool)
        ensures
            result == (self@.names() == other@.names()),
    {
        proof {
            assert(self@.names().take(self@.names().len() as int) =~= self@.names());
            assert(other@.names().take(other@.names().len() as int) =~= other@.names());
        }
        self.parts.len() == other.parts.len() && self.same_start(other, self.parts.len())
    }

    /// How many parts the directory that holds the path has.
    fn parent_length(&self) -> (result: usize)
        ensures
            result == parent_of(self@.names()).len(),
            result <= self@.parts.len(),
    {
        if self.parts.len() == 0 {
            return 0;
        }
        let last: usize = self.parts.len() - 1;
        assert(self@.names().last() == part_name(self.parts@[last as int]@));
        match self.parts[last].kind {
            PartKind::Prefix => 0,
            PartKind::Root => 0,
            _ => last,
        }
    }

    /// Whether two paths lie in one directory.
    pub fn same_directory(&self, other: &TreePath) -> (result: bool)
        ensures
            result == (parent_of(self@.names()) == parent_of(other@.names())),
    {
        let left: usize = self.parent_length();
        let right: usize = other.parent_length();
        proof {
            assert(parent_of(self@.names()) =~= self@.names().take(left as int));
            assert(parent_of(other@.names()) =~= other@.names().take(right as int));
        }
        left == right && self.same_start(other, left)
    }

    /// Whether the parts of `base` are the first parts of the path.
    pub fn starts_with(&self, base: &TreePath) -> (result: bool)
        ensures
            result == base@.names().is_prefix_of(self@.names()),
    {
        if self.parts.len() < base.parts.len() {
            return false;
        }
        proof {
            assert(base@.names().take(base@.names().len() as int) =~= base@.names());
            assert(self@.names().take(base@.names().len() as int) == self@.names().subrange(
                0,
                base@.names().len() as int,
            ));
        }
        self.same_start(base, base.parts.len())
    }

    /// What is left of the path below `base`.
    pub fn strip_prefix(&self, base: &TreePath) -> (result: Option<TreePath>)
        ensures
            result is Some == base@.names().is_prefix_of(self@.names()),
            result matches Some(rest) ==> rest@ == without_first(
                self@,
                base@.names().len() as int,
            ),
    {
        if !self.starts_with(base) {
            return None;
        }
        let mut rest = self.copy_from(base.parts.len());
        let ghost kept = rest@.parts;
        match rest.parts.pop() {
            Some(last) => {
                let PathPart { kind, key, written, gap: _ } = last;
                rest.parts.push(PathPart { kind, key, written, gap: Vec::new() });
            },
            None => {},
        }
        assert(rest@.parts =~= without_end(kept));
        Some(rest)
    }

    /// Whether the path stands before another in the order of paths.
    pub fn path_precedes(&self, other: &TreePath) -> (result: bool)
        ensures
            result == path_order()(self@.names(), other@.names()),
    {
        let ghost left = self@.names();
        let ghost right = other@.names();
        let mut i: usize = 0;
        assert(left.skip(0) =~= left && right.skip(0) =~= right);
        while i < self.parts.len() && i < other.parts.len()
            invariant
                left == self@.names(),
                right == other@.names(),
                i <= self.parts.len(),
                i <= other.parts.len(),
                path_order()(left, right) == lex_precedes(
                    left.skip(i as int),
                    right.skip(i as int),
                    part_order(),
                ),
            decreases self.parts.len() - i,
        {
            assert(left.skip(i as int).drop_first() =~= left.skip(i + 1));
            assert(right.skip(i as int).drop_first() =~= right.skip(i + 1));
            assert(left.skip(i as int).first() == part_name(self.parts@[i as int]@));
            assert(right.skip(i as int).first() == part_name(other.parts@[i as int]@));
            if !self.parts[i].same_part(&other.parts[i]) {
                return self.parts[i].part_precedes(&other.parts[i]);
            }
            i = i + 1;
        }
        i < other.parts.len()
    }

    /// The path as it is written.
    fn bytes(&self) -> (result: Vec<u8>)
        ensures
            result@ == written_bytes(self@.parts),
    {
        let mut result: Vec<u8> = Vec::new();
        let mut i: usize = 0;
        while i < self.parts.len()
            invariant
                i <= self.parts.len(),
                result@ == written_bytes(self@.parts.take(i as int)),
            decreases self.parts.len() - i,
        {
            proof {
                assert(self@.parts.take(i + 1).drop_last() =~= self@.parts.take(i as int));
                assert(self@.parts.take(i + 1).last() == self.parts@[i as int]@);
            }
            let mut written = copy_bytes(&self.parts[i].written);
            let mut gap = copy_bytes(&self.parts[i].gap);
            result.append(&mut written);
            result.append(&mut gap);
            i = i + 1;
        }
        assert(self@.parts.take(i as int) =~= self@.parts);
        result
    }
}

/// Writes a path as text.
pub fn relative_path_text(path: &TreePath) -> (result: String)
    ensures
        result@ == path_text(path@),
{
    let text = name_text(path.bytes().as_slice(), path.encoding);
    replace(text.as_str(), '\\', "/")
}

/// What is left of a path below another, put behind that, has the parts of the
/// whole.
pub proof fn stripped_paths_go_on_where_the_base_ends(path: PathView, base: PathView)
    requires
        base.names().is_prefix_of(path.names()),
    ensures
        base.names() + without_first(path, base.names().len() as int).names() == path.names(),
{
    let count = base.names().len() as int;
    let rest = without_first(path, count);
    assert forall|i: int| 0 <= i < count implies base.names()[i] == #[trigger] path.names()[i] by {
        assert(path.names().subrange(0, count)[i] == path.names()[i]);
    }
    assert(rest.names() =~= path.names().skip(count));
    assert(base.names() + rest.names() =~= path.names());
}

/// What is left of a path is a path.
pub proof fn stripped_paths_are_well_formed(path: PathView, count: int)
    requires
        well_formed(path.parts),
        0 <= count <= path.parts.len(),
    ensures
        well_formed(without_first(path, count).parts),
{
    let rest = without_first(path, count).parts;
    assert forall|i: int| 0 <= i < rest.len() implies well_placed(rest, #[trigger] rest[i], i) by {
        assert(well_placed(path.parts, path.parts[count + i], count + i));
    }
}

} // verus!
