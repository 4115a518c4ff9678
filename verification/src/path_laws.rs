//! What paths and tree entries say, told by their parts.

use vstd::prelude::*;
use vstd::utf8::{decode_utf8, encode_utf8, valid_utf8};

use crate::order::PartName;
use crate::path::{
    depth_of, file_name_of, parent_of, part_name, path_text, without_first,
    written_bytes, PartKind, PathPartView, PathView, TreePath,
};
use crate::text::text_of_name;
use crate::text_laws::{replacing_one_by_one_keeps_the_places, valid_utf8_is_read_as_it_is};
use crate::tree::{kind_of, shown_name, FileType, TreeEntry, TreeEntryKind, TreeEntryView};

verus! {

/// The view of a path has all its parts, each with all that it holds.
pub proof fn path_views_hold_every_part(path: TreePath)
    ensures
        path@.encoding == path.encoding,
        path@.parts.len() == path.parts@.len(),
        forall|i: int|
            0 <= i < path.parts@.len() ==> {
                &&& (#[trigger] path@.parts[i]).kind == path.parts@[i].kind
                &&& path@.parts[i].key == path.parts@[i].key@
                &&& path@.parts[i].written == path.parts@[i].written@
                &&& path@.parts[i].gap == path.parts@[i].gap@
            },
{
}

/// The view of an entry has all that it holds.
pub proof fn entry_views_hold_every_field(entry: TreeEntry)
    ensures
        entry@.path == entry.relative_path@,
        entry@.depth == entry.depth,
        entry@.kind == entry.kind,
{
}

/// Two parts say the same exactly if they are of one kind and, where they are
/// prefixes, have one key, or where they are names, are written in the same way.
pub proof fn parts_are_told_apart_by_kind_and_bytes(a: PathPartView, b: PathPartView)
    ensures
        part_name(a) == part_name(b) <==> {
            &&& a.kind == b.kind
            &&& a.kind == PartKind::Prefix ==> a.key == b.key
            &&& a.kind == PartKind::Name ==> a.written == b.written
        },
        a.kind == PartKind::Root <==> part_name(a) == PartName::Root,
        a.kind == PartKind::Here <==> part_name(a) == PartName::Here,
        a.kind == PartKind::Up <==> part_name(a) == PartName::Up,
        a.kind == PartKind::Name ==> part_name(a) == PartName::Name(a.written),
        a.kind == PartKind::Prefix ==> part_name(a) == PartName::Prefix(a.key),
{
}

/// A path is compared by all its parts, in their order.
pub proof fn paths_are_compared_by_every_part(path: PathView)
    ensures
        path.names().len() == path.parts.len(),
        forall|i: int|
            0 <= i < path.parts.len() ==> #[trigger] path.names()[i] == part_name(path.parts[i]),
{
}

/// A path has a file name exactly if its last part is a name, and then that is it.
pub proof fn file_names_are_last_names(path: PathView, name: Seq<u8>)
    ensures
        file_name_of(path) == Some(name) <==> path.names().len() > 0 && path.names().last()
            == PartName::Name(name),
{
    if path.parts.len() > 0 {
        assert(path.names().last() == part_name(path.parts.last()));
    }
}

/// What lies in a directory, however deep that is, has it for a parent and its
/// length for a depth; a root and the empty path have the empty path.
pub proof fn parents_are_what_names_are_put_behind(
    directory: Seq<PartName>,
    name: Seq<u8>,
    prefix: Seq<u8>,
)
    ensures
        parent_of(directory.push(PartName::Name(name))) == directory,
        parent_of(directory.push(PartName::Here)) == directory,
        parent_of(directory.push(PartName::Up)) == directory,
        parent_of(directory.push(PartName::Root)) == Seq::<PartName>::empty(),
        parent_of(directory.push(PartName::Prefix(prefix))) == Seq::<PartName>::empty(),
        parent_of(Seq::<PartName>::empty()) == Seq::<PartName>::empty(),
        depth_of(directory.push(PartName::Name(name))) == directory.len(),
        depth_of(Seq::<PartName>::empty()) == 0,
{
    assert(directory.push(PartName::Name(name)).drop_last() =~= directory);
    assert(directory.push(PartName::Here).drop_last() =~= directory);
    assert(directory.push(PartName::Up).drop_last() =~= directory);
}

/// A path is written as its parts are, one after the other, each followed by what
/// separates it from the next.
pub proof fn paths_are_written_part_by_part(
    front: Seq<PathPartView>,
    part: PathPartView,
    back: Seq<PathPartView>,
)
    ensures
        written_bytes(Seq::empty()) == Seq::<u8>::empty(),
        written_bytes(seq![part]) == part.written + part.gap,
        written_bytes(front + back) == written_bytes(front) + written_bytes(back),
    decreases back.len(),
{
    let one = seq![part];
    assert(one.drop_last() =~= Seq::empty());
    assert(written_bytes(one.drop_last()) =~= Seq::empty());
    assert(written_bytes(one) =~= part.written + part.gap);
    if back.len() == 0 {
        assert(front + back =~= front);
        assert(written_bytes(front) + written_bytes(back) =~= written_bytes(front));
    } else {
        paths_are_written_part_by_part(front, part, back.drop_last());
        assert((front + back).drop_last() =~= front + back.drop_last());
        assert((front + back).last() == back.last());
        assert(written_bytes(front + back) =~= written_bytes(front) + written_bytes(back));
    }
}

/// What is left of a path below another is written as it is in the path: with what
/// was taken away in front of it and what follows its last part behind it, it is
/// the whole.
pub proof fn stripped_paths_are_written_as_before(path: PathView, count: int)
    requires
        0 <= count <= path.parts.len(),
    ensures
        without_first(path, count).encoding == path.encoding,
        without_first(path, count).parts.len() == path.parts.len() - count,
        forall|i: int|
            0 <= i < path.parts.len() - count ==> #[trigger] without_first(path, count).names()[i]
                == path.names()[count + i],
        written_bytes(path.parts.take(count)) + written_bytes(without_first(path, count).parts)
            + if count < path.parts.len() {
            path.parts.last().gap
        } else {
            Seq::empty()
        } == written_bytes(path.parts),
{
    let front = path.parts.take(count);
    let back = path.parts.skip(count);
    let rest = without_first(path, count).parts;
    assert(front + back =~= path.parts);
    if back.len() > 0 {
        paths_are_written_part_by_part(front, back.last(), back);
        assert(rest.drop_last() =~= back.drop_last());
        assert(written_bytes(rest) + path.parts.last().gap =~= written_bytes(back));
        assert(written_bytes(front) + written_bytes(rest) + path.parts.last().gap
            =~= written_bytes(path.parts));
    } else {
        assert(front =~= path.parts);
        assert(written_bytes(front) + written_bytes(rest) + Seq::<u8>::empty()
            =~= written_bytes(path.parts));
    }
}

/// A path that is written in UTF-8 reads as it is written, character by character,
/// but for backslashes, which become slashes; where it has none, the text encodes
/// to what is written.
pub proof fn paths_read_as_they_are_written(path: PathView)
    requires
        valid_utf8(written_bytes(path.parts)),
    ensures
        ({
            let text = decode_utf8(written_bytes(path.parts));
            &&& path_text(path).len() == text.len()
            &&& forall|i: int|
                0 <= i < text.len() ==> #[trigger] path_text(path)[i] == if text[i] == '\\' {
                    '/'
                } else {
                    text[i]
                }
            &&& (forall|i: int| 0 <= i < text.len() ==> #[trigger] text[i] != '\\')
                ==> encode_utf8(path_text(path)) == written_bytes(path.parts)
        }),
{
    let text = decode_utf8(written_bytes(path.parts));
    reveal_strlit("/");
    assert("/"@ =~= seq!['/']);
    valid_utf8_is_read_as_it_is(written_bytes(path.parts), path.encoding);
    replacing_one_by_one_keeps_the_places(text, '\\', '/');
    if forall|i: int| 0 <= i < text.len() ==> #[trigger] text[i] != '\\' {
        assert(path_text(path) =~= text);
    }
}

/// A path that is not written in UTF-8 has the text that is made of its bytes, all
/// of it, with slashes for backslashes.
pub proof fn other_paths_read_as_they_are_repaired(path: PathView)
    ensures
        ({
            let text = text_of_name(written_bytes(path.parts), path.encoding);
            &&& path_text(path).len() == text.len()
            &&& forall|i: int|
                0 <= i < text.len() ==> #[trigger] path_text(path)[i] == if text[i] == '\\' {
                    '/'
                } else {
                    text[i]
                }
        }),
{
    reveal_strlit("/");
    assert("/"@ =~= seq!['/']);
    let text = text_of_name(written_bytes(path.parts), path.encoding);
    replacing_one_by_one_keeps_the_places(text, '\\', '/');
}

/// An entry is a directory exactly if its file type says so, else a file exactly if
/// that does, else a link, and something else only where none of these is said.
pub proof fn kinds_follow_what_is_said_first(file_type: FileType)
    ensures
        kind_of(file_type) == TreeEntryKind::Directory <==> file_type.is_dir,
        kind_of(file_type) == TreeEntryKind::File <==> !file_type.is_dir && file_type.is_file,
        kind_of(file_type) == TreeEntryKind::Symlink <==> !file_type.is_dir && !file_type.is_file
            && file_type.is_symlink,
        kind_of(file_type) == TreeEntryKind::Other <==> !file_type.is_dir && !file_type.is_file
            && !file_type.is_symlink,
{
}

/// An entry is shown under the whole text of its file name, or where it has none of
/// its path; a directory has a slash behind it, a link an at sign, something else a
/// question mark, and a file nothing.
pub proof fn entries_are_shown_under_their_names(entry: TreeEntryView, name: Seq<u8>)
    ensures
        ({
            let base = if entry.path.names().len() > 0 && entry.path.names().last()
                == PartName::Name(name) {
                Some(text_of_name(name, entry.path.encoding))
            } else if entry.path.names().len() == 0 || !(entry.path.names().last() is Name) {
                Some(path_text(entry.path))
            } else {
                None
            };
            base matches Some(text) ==> {
                &&& entry.kind == TreeEntryKind::Directory ==> shown_name(entry) == text.push('/')
                &&& entry.kind == TreeEntryKind::Symlink ==> shown_name(entry) == text.push('@')
                &&& entry.kind == TreeEntryKind::Other ==> shown_name(entry) == text.push('?')
                &&& entry.kind == TreeEntryKind::File ==> shown_name(entry) == text
            }
        }),
{
    reveal_strlit("/");
    reveal_strlit("@");
    reveal_strlit("?");
    file_names_are_last_names(entry.path, name);
    if entry.path.parts.len() > 0 {
        assert(entry.path.names().last() == part_name(entry.path.parts.last()));
    }
    let text = match file_name_of(entry.path) {
        Some(found) => text_of_name(found, entry.path.encoding),
        None => path_text(entry.path),
    };
    assert(text + "/"@ =~= text.push('/'));
    assert(text + "@"@ =~= text.push('@'));
    assert(text + "?"@ =~= text.push('?'));
    assert(text + Seq::<char>::empty() =~= text);
}

} // verus!
