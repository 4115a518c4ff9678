use agents_discovery::discovery::{
    classify_entry, discover_tree, list_tree, DiscoveryError, DiscoveryTree, Observation,
    PendingTarget, Sighting, SummaryTarget, SummaryTargetCandidate, TreeListing, WalkedEntry,
};
use agents_discovery::order::{bytes_precede, text_precedes};
use agents_discovery::path::{relative_path_text, PartKind, PathPart, TreePath};
use agents_discovery::sort::sort;
use agents_discovery::text::{replace, NameEncoding};
use agents_discovery::tree::{FileType, TreeEntry, TreeEntryKind};

fn part(kind: PartKind, written: &[u8], gap: &str) -> PathPart {
    PathPart {
        kind,
        key: Vec::new(),
        written: written.to_vec(),
        gap: gap.as_bytes().to_vec(),
    }
}

fn relative(text: &str) -> Vec<PathPart> {
    let names = text.split('/').collect::<Vec<_>>();
    let mut parts = Vec::new();
    for (i, name) in names.iter().enumerate() {
        let kind = match *name {
            "." => PartKind::Here,
            ".." => PartKind::Up,
            _ => PartKind::Name,
        };
        let gap = if i + 1 < names.len() { "/" } else { "" };
        parts.push(part(kind, name.as_bytes(), gap));
    }
    parts
}

fn path(text: &str) -> TreePath {
    TreePath { parts: relative(text), encoding: NameEncoding::Bytes }
}

fn rooted(text: &str) -> TreePath {
    let mut parts = vec![part(PartKind::Root, b"/", "")];
    parts.extend(relative(text));
    TreePath { parts, encoding: NameEncoding::Bytes }
}

fn named(bytes: &[u8], encoding: NameEncoding) -> TreePath {
    TreePath { parts: vec![part(PartKind::Name, bytes, "")], encoding }
}

fn empty() -> TreePath {
    TreePath { parts: Vec::new(), encoding: NameEncoding::Bytes }
}

const DIRECTORY: FileType = FileType { is_dir: true, is_file: false, is_symlink: false };
const FILE: FileType = FileType { is_dir: false, is_file: true, is_symlink: false };
const LINK: FileType = FileType { is_dir: false, is_file: false, is_symlink: true };

/// A walk below `/work`: each entry with its file type, the path to which it
/// resolves if that is another, and what it holds.
fn discover(walk: &[(&str, FileType, Option<&str>, &[u8])]) -> DiscoveryTree {
    let root = rooted("work");
    let mut observations = Vec::new();
    let mut files = Vec::new();
    for (name, file_type, resolved, bytes) in walk {
        let full = format!("work/{name}");
        let entry = WalkedEntry {
            depth: name.split('/').count(),
            path: rooted(&full),
            file_type: Some(*file_type),
        };
        match classify_entry(&root, &entry).expect("entry lies below the root") {
            Sighting::Ignored => {}
            Sighting::Directory(entry) => observations.push(Observation::Directory(entry)),
            Sighting::Target(target) => {
                let canonical = rooted(resolved.unwrap_or(full.as_str()));
                let location = files.len();
                files.push(bytes.to_vec());
                observations.push(Observation::Target { target, canonical, location });
            }
        }
    }
    let listing = list_tree(&root, &observations);
    let contents = listing
        .candidates
        .iter()
        .map(|candidate| files[candidate.location].clone())
        .collect::<Vec<_>>();
    discover_tree(listing, &contents)
}

fn targets(tree: &DiscoveryTree) -> Vec<&str> {
    tree.summary_targets.iter().map(|target| target.relative_path.as_str()).collect()
}

fn entries(tree: &DiscoveryTree) -> Vec<String> {
    tree.entries.iter().map(|entry| relative_path_text(&entry.relative_path)).collect()
}

#[test]
fn discover_tree_prefers_agents_override() {
    let tree = discover(&[
        ("service", DIRECTORY, None, b""),
        ("service/AGENTS.md", FILE, None, b"default"),
        ("service/AGENTS.override.md", FILE, None, b"override"),
    ]);
    assert_eq!(targets(&tree), vec!["service/AGENTS.override.md"]);
    assert_eq!(tree.summary_targets[0].contents, "override");
}

#[test]
fn override_is_preferred_whichever_comes_first() {
    let tree = discover(&[
        ("service/AGENTS.override.md", FILE, None, b"override"),
        ("service/AGENTS.md", FILE, None, b"default"),
        ("service", DIRECTORY, None, b""),
    ]);
    assert_eq!(targets(&tree), vec!["service/AGENTS.override.md"]);
    assert_eq!(entries(&tree), vec!["service", "service/AGENTS.override.md"]);
}

#[test]
fn discover_tree_includes_symlinked_agents_for_summary() {
    let tree = discover(&[
        ("shared", DIRECTORY, None, b""),
        ("shared/AGENTS.md", FILE, None, b"shared rules"),
        ("linked", DIRECTORY, None, b""),
        ("linked/AGENTS.md", LINK, Some("work/shared/AGENTS.md"), b"shared rules"),
    ]);
    assert_eq!(targets(&tree), vec!["linked/AGENTS.md", "shared/AGENTS.md"]);
}

#[test]
fn discover_tree_excludes_symlinked_agents_pointing_outside_cwd() {
    let tree = discover(&[
        ("linked", DIRECTORY, None, b""),
        ("linked/AGENTS.md", LINK, Some("elsewhere/AGENTS.md"), b"external rules"),
    ]);
    assert_eq!(targets(&tree), Vec::<&str>::new());
    assert_eq!(entries(&tree), vec!["linked"]);
}

#[test]
fn a_place_whose_name_only_begins_like_the_root_lies_outside() {
    let tree = discover(&[("AGENTS.md", LINK, Some("workshop/AGENTS.md"), b"external rules")]);
    assert_eq!(targets(&tree), Vec::<&str>::new());
}

#[test]
fn a_link_outside_does_not_hide_the_other_doc() {
    let tree = discover(&[
        ("AGENTS.override.md", LINK, Some("elsewhere/AGENTS.md"), b"external rules"),
        ("AGENTS.md", FILE, None, b"rules"),
    ]);
    assert_eq!(targets(&tree), vec!["AGENTS.md"]);
}

#[test]
fn discover_tree_tolerates_non_utf8_agents_contents() {
    let tree = discover(&[
        ("service", DIRECTORY, None, b""),
        ("service/AGENTS.md", FILE, None, &[0x66, 0x6f, 0x80, 0x6f]),
    ]);
    assert_eq!(tree.summary_targets.len(), 1);
    assert_eq!(tree.summary_targets[0].relative_path, "service/AGENTS.md");
    assert_eq!(tree.summary_targets[0].contents, "fo\u{fffd}o");
}

#[test]
fn discover_tree_entries_include_only_dirs_and_agents_targets() {
    let tree = discover(&[
        ("service", DIRECTORY, None, b""),
        ("service/file.txt", FILE, None, b"ignore me"),
        ("service/AGENTS.md", FILE, None, b"service rules"),
    ]);
    assert_eq!(entries(&tree), vec!["service", "service/AGENTS.md"]);
}

#[test]
fn the_order_of_the_walk_does_not_matter() {
    let one = discover(&[
        ("a", DIRECTORY, None, b""),
        ("a/AGENTS.md", FILE, None, b"a"),
        ("a/AGENTS.override.md", FILE, None, b"over"),
        ("AGENTS.md", FILE, None, b"top"),
    ]);
    let other = discover(&[
        ("AGENTS.md", FILE, None, b"top"),
        ("a/AGENTS.override.md", FILE, None, b"over"),
        ("a/AGENTS.md", FILE, None, b"a"),
        ("a", DIRECTORY, None, b""),
    ]);
    assert_eq!(entries(&one), entries(&other));
    assert_eq!(targets(&one), targets(&other));
    assert_eq!(entries(&one), vec!["AGENTS.md", "a", "a/AGENTS.override.md"]);
}

#[test]
fn entries_stand_by_name_and_docs_by_text() {
    let tree = discover(&[
        ("a-b", DIRECTORY, None, b""),
        ("a-b/AGENTS.md", FILE, None, b"2"),
        ("a", DIRECTORY, None, b""),
        ("a/AGENTS.md", FILE, None, b"1"),
    ]);
    assert_eq!(entries(&tree), vec!["a", "a/AGENTS.md", "a-b", "a-b/AGENTS.md"]);
    assert_eq!(targets(&tree), vec!["a-b/AGENTS.md", "a/AGENTS.md"]);
    assert_eq!(tree.summary_targets[1].contents, "1");
}

#[test]
fn directories_stand_before_what_they_hold() {
    let tree = discover(&[
        ("b/c/AGENTS.md", FILE, None, b""),
        ("b/c", DIRECTORY, None, b""),
        ("b-c", DIRECTORY, None, b""),
        ("b", DIRECTORY, None, b""),
        ("b/AGENTS.md", LINK, None, b""),
    ]);
    assert_eq!(entries(&tree), vec!["b", "b/AGENTS.md", "b/c", "b/c/AGENTS.md", "b-c"]);
    let kinds = tree.entries.iter().map(|entry| entry.kind).collect::<Vec<_>>();
    assert_eq!(
        kinds,
        vec![
            TreeEntryKind::Directory,
            TreeEntryKind::Symlink,
            TreeEntryKind::Directory,
            TreeEntryKind::File,
            TreeEntryKind::Directory,
        ]
    );
}

#[test]
fn entries_know_how_deep_they_lie() {
    let tree = discover(&[
        ("a", DIRECTORY, None, b""),
        ("a/b", DIRECTORY, None, b""),
        ("a/b/AGENTS.md", FILE, None, b""),
        ("AGENTS.md", FILE, None, b""),
    ]);
    let depths = tree.entries.iter().map(|entry| entry.depth).collect::<Vec<_>>();
    assert_eq!(entries(&tree), vec!["AGENTS.md", "a", "a/b", "a/b/AGENTS.md"]);
    assert_eq!(depths, vec![0, 0, 1, 2]);
}

#[test]
fn classify_entry_passes_over_the_root_itself() {
    let entry = WalkedEntry { depth: 0, path: path("elsewhere"), file_type: Some(DIRECTORY) };
    assert!(matches!(classify_entry(&rooted("work"), &entry), Ok(Sighting::Ignored)));
}

#[test]
fn classify_entry_refuses_what_lies_outside() {
    let entry = WalkedEntry { depth: 1, path: rooted("other/x"), file_type: Some(DIRECTORY) };
    match classify_entry(&rooted("work"), &entry) {
        Err(error) => assert_eq!(error, DiscoveryError::OutsideRoot),
        Ok(_) => panic!("the entry lies outside"),
    }
}

#[test]
fn classify_entry_passes_over_unknown_types_and_odd_names() {
    let root = rooted("work");
    let unknown = WalkedEntry { depth: 1, path: rooted("work/AGENTS.md"), file_type: None };
    assert!(matches!(classify_entry(&root, &unknown), Ok(Sighting::Ignored)));
    let mut odd_path = root.copy();
    odd_path.parts.push(part(PartKind::Name, &[0xff, 0xfe], ""));
    let odd = WalkedEntry { depth: 1, path: odd_path, file_type: Some(FILE) };
    assert!(matches!(classify_entry(&root, &odd), Ok(Sighting::Ignored)));
}

#[test]
fn classify_entry_ranks_docs() {
    let root = rooted("work");
    let entry =
        WalkedEntry { depth: 2, path: rooted("work/a/AGENTS.override.md"), file_type: Some(LINK) };
    match classify_entry(&root, &entry) {
        Ok(Sighting::Target(target)) => {
            assert_eq!(target.priority, 0);
            assert_eq!(target.kind, TreeEntryKind::Symlink);
            assert_eq!(relative_path_text(&target.relative_path), "a/AGENTS.override.md");
        }
        _ => panic!("the entry is a doc"),
    }
}

#[test]
fn of_two_docs_with_one_rank_the_first_stays() {
    let doc = |location: usize| Observation::Target {
        target: PendingTarget {
            priority: 1,
            relative_path: path("a/AGENTS.md"),
            kind: TreeEntryKind::File,
        },
        canonical: rooted("work/a/AGENTS.md"),
        location,
    };
    let listing = list_tree(&rooted("work"), &vec![doc(7), doc(3)]);
    assert_eq!(listing.candidates.len(), 1);
    assert_eq!(listing.candidates[0].location, 7);
}

#[test]
fn contents_go_to_the_candidate_for_which_they_were_read() {
    let candidate = |text: &str| SummaryTargetCandidate {
        priority: 1,
        relative_path: path(text),
        location: 0,
        kind: TreeEntryKind::File,
    };
    let listing = TreeListing {
        entries: Vec::new(),
        candidates: vec![candidate("a/AGENTS.md"), candidate("a-b/AGENTS.md")],
    };
    let tree = discover_tree(listing, &vec![b"one".to_vec(), b"two".to_vec()]);
    assert_eq!(targets(&tree), vec!["a-b/AGENTS.md", "a/AGENTS.md"]);
    assert_eq!(tree.summary_targets[0].contents, "two");
    assert_eq!(tree.summary_targets[1].contents, "one");
}

#[test]
fn paths_are_written_with_slashes() {
    assert_eq!(relative_path_text(&path("folder/AGENTS.md")), "folder/AGENTS.md");
    assert_eq!(relative_path_text(&path("a\\b/c")), "a/b/c");
    assert_eq!(relative_path_text(&empty()), "");
    let mut odd = path("a/b");
    odd.parts[1].written.push(0xff);
    assert_eq!(relative_path_text(&odd), "a/b\u{fffd}");
    assert_eq!(relative_path_text(&rooted("work/a")), "/work/a");
}

#[test]
fn paths_keep_the_way_they_are_written() {
    let root = TreePath {
        parts: vec![part(PartKind::Root, b"/", "/"), part(PartKind::Name, b"w", "")],
        encoding: NameEncoding::Bytes,
    };
    let written = TreePath {
        parts: vec![
            part(PartKind::Root, b"/", ""),
            part(PartKind::Name, b"w", "//"),
            part(PartKind::Name, b"a", "/./"),
            part(PartKind::Name, b"b", "/"),
        ],
        encoding: NameEncoding::Bytes,
    };
    assert_eq!(relative_path_text(&root), "//w");
    assert_eq!(relative_path_text(&written), "/w//a/./b/");
    let rest = written.strip_prefix(&root).expect("path lies below the root");
    assert_eq!(relative_path_text(&rest), "a/./b");
    assert!(rest.same_path(&path("a/b")));
    assert_eq!(rest.depth(), 1);
    assert_eq!(written.file_name(), Some(&b"b".to_vec()));
}

fn on_drive(letter: u8, names: &[&str]) -> TreePath {
    let mut drive = part(PartKind::Prefix, &[letter, b':'], "");
    drive.key = vec![letter.to_ascii_uppercase()];
    let mut parts = vec![drive, part(PartKind::Root, b"\\", "")];
    for name in names {
        parts.push(part(PartKind::Name, name.as_bytes(), "\\"));
    }
    TreePath { parts, encoding: NameEncoding::Wide }
}

#[test]
fn drives_stand_before_roots() {
    assert_eq!(relative_path_text(&on_drive(b'c', &["w", "a"])), "c:/w/a/");
    assert!(on_drive(b'C', &["w"]).path_precedes(&rooted("a")));
    assert!(on_drive(b'C', &["w"]).path_precedes(&on_drive(b'd', &["a"])));
    assert_eq!(on_drive(b'C', &[]).file_name(), None);
    assert!(on_drive(b'C', &[]).same_directory(&empty()));
    assert!(!on_drive(b'C', &["w"]).same_directory(&empty()));
    assert!(on_drive(b'C', &["w"]).same_path(&on_drive(b'c', &["w"])));
    let rest = on_drive(b'c', &["w", "a"])
        .strip_prefix(&on_drive(b'C', &["w"]))
        .expect("path lies below");
    assert_eq!(relative_path_text(&rest), "a");
}

#[test]
fn halves_of_surrogate_pairs_are_replaced_as_the_encoding_says() {
    let bytes = [0x61, 0xed, 0xa0, 0x80, 0x62, 0xed, 0xbf, 0xbf];
    assert_eq!(relative_path_text(&named(&bytes, NameEncoding::Wide)), "a\u{fffd}b\u{fffd}");
    assert_eq!(
        relative_path_text(&named(&bytes, NameEncoding::Bytes)),
        "a\u{fffd}\u{fffd}\u{fffd}b\u{fffd}\u{fffd}\u{fffd}"
    );
    let text = "\u{d7ff}\u{e000}\u{1f600}";
    assert_eq!(relative_path_text(&named(text.as_bytes(), NameEncoding::Wide)), text);
    let entry = TreeEntry {
        relative_path: named(&bytes, NameEncoding::Wide),
        depth: 0,
        kind: TreeEntryKind::Directory,
    };
    assert_eq!(entry.display_name(), "a\u{fffd}b\u{fffd}/");
}

#[test]
fn characters_are_replaced_everywhere() {
    assert_eq!(replace("\\a\\\\\u{e9}", '\\', "/"), "/a//\u{e9}");
    assert_eq!(replace("aba", 'a', ""), "b");
    assert_eq!(replace("", 'a', "b"), "");
}

#[test]
fn paths_know_their_parts() {
    let whole = path("a/b/c");
    assert_eq!(whole.file_name(), Some(&b"c".to_vec()));
    assert!(whole.same_directory(&path("a/b/d")));
    assert!(!whole.same_directory(&path("a/c")));
    assert!(!whole.same_directory(&path("a/d/c")));
    assert_eq!(whole.depth(), 2);
    assert_eq!(empty().file_name(), None);
    assert_eq!(empty().depth(), 0);
    assert_eq!(path("a/..").file_name(), None);
    assert_eq!(path(".").file_name(), None);
    assert!(whole.starts_with(&path("a/b")));
    assert!(!whole.starts_with(&path("a/bb")));
    assert!(whole.same_path(&whole.copy()));
    assert_eq!(
        whole.strip_prefix(&path("a")).map(|rest| relative_path_text(&rest)),
        Some("b/c".to_string())
    );
    assert!(path("a").strip_prefix(&path("b")).is_none());
}

#[test]
fn paths_are_ordered_name_by_name() {
    assert!(path("a/z").path_precedes(&path("a-b")));
    assert!(path("a").path_precedes(&path("a/b")));
    assert!(!path("a/b").path_precedes(&path("a/b")));
    assert!(!path("b").path_precedes(&path("a/b")));
    assert!(rooted("z").path_precedes(&path("./a")));
    assert!(path("./z").path_precedes(&path("../a")));
    assert!(path("../z").path_precedes(&path("-a")));
    assert!(!path("-a").path_precedes(&path(".")));
    assert!(path(".a").path_precedes(&path(".b")));
    assert!(bytes_precede(b"a", b"b"));
    assert!(!bytes_precede(b"ab", b"a"));
    assert!(text_precedes("a-b/c", "a/c"));
    assert!(text_precedes("z", "\u{e9}"));
    assert!(!text_precedes("a", "a"));
}

#[test]
fn display_names_show_what_an_entry_is() {
    let entry = |text: &str, kind: TreeEntryKind| TreeEntry {
        relative_path: path(text),
        depth: 0,
        kind,
    };
    assert_eq!(entry("a/b", TreeEntryKind::Directory).display_name(), "b/");
    assert_eq!(entry("a/b", TreeEntryKind::File).display_name(), "b");
    assert_eq!(entry("a/b", TreeEntryKind::Symlink).display_name(), "b@");
    assert_eq!(entry("a/b", TreeEntryKind::Other).display_name(), "b?");
    assert_eq!(entry("a/..", TreeEntryKind::Directory).display_name(), "a/../");
    let odd = TreeEntry {
        relative_path: named(&[0x61, 0xff], NameEncoding::Bytes),
        depth: 0,
        kind: TreeEntryKind::File,
    };
    assert_eq!(odd.display_name(), "a\u{fffd}");
}

#[test]
fn kinds_follow_the_file_type() {
    assert_eq!(TreeEntryKind::from(DIRECTORY), TreeEntryKind::Directory);
    assert_eq!(TreeEntryKind::from(FILE), TreeEntryKind::File);
    assert_eq!(TreeEntryKind::from(LINK), TreeEntryKind::Symlink);
    let socket = FileType { is_dir: false, is_file: false, is_symlink: false };
    assert_eq!(TreeEntryKind::from(socket), TreeEntryKind::Other);
}

#[test]
fn sorting_puts_every_item_in_its_place() {
    let target = |text: &str, contents: &str| SummaryTarget {
        relative_path: text.to_string(),
        contents: contents.to_string(),
    };
    let sorted = sort(vec![
        target("c", "1"),
        target("a", "2"),
        target("e", "3"),
        target("b", "4"),
        target("d", "5"),
    ]);
    let contents = sorted.iter().map(|item| item.contents.as_str()).collect::<String>();
    assert_eq!(contents, "24153");
}
