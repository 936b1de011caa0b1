use pdx_explorer::database::dir::{
    join_path, last_segment_of, strip_root_path, DirTree, Directory, Entry, File, Node,
};
use pdx_explorer::database::ContentType;
use pdx_explorer::error::ErrorKind;

fn file(name: &str) -> Entry {
    Entry::File { name: name.to_string() }
}

fn directory(name: &str, children: Vec<Entry>) -> Entry {
    Entry::Directory { name: name.to_string(), children }
}

fn sample() -> Entry {
    directory(
        "mod",
        vec![
            directory(
                "localization",
                vec![
                    file("z_base.yml"),
                    directory("replace", vec![file("m.yml")]),
                    file("a_overrides.yml"),
                ],
            ),
            file("descriptor.mod"),
            directory("common", vec![directory("localization", vec![file("x.txt")])]),
            file("localization.txt"),
            directory("empty", vec![]),
        ],
    )
}

fn collect<'a>(node: &'a Node, directories: &mut Vec<&'a Directory>, files: &mut Vec<&'a File>) {
    match node {
        Node::Directory(directory) => {
            directories.push(directory);
            for child in directory.children() {
                collect(child, directories, files);
            }
        }
        Node::File(file) => files.push(file),
    }
}

#[test]
fn a_file_is_no_root() {
    let error = DirTree::new("/games/mod.txt", &file("mod.txt")).unwrap_err();
    assert_eq!(error.kind(), ErrorKind::NotADirectory);
    assert_eq!(error.line_number(), None);
    assert_eq!(
        error.description().as_str(),
        "Root path `/games/mod.txt` doesn't point to a directory"
    );
}

#[test]
fn the_root_has_an_empty_relative_path() {
    let tree = DirTree::new("/games/mod", &sample()).unwrap();
    assert_eq!(tree.root_path(), "/games/mod");
    let root = tree.root();
    assert_eq!(root.full_path(), "/games/mod");
    assert_eq!(root.relative_path(), "");
    assert_eq!(root.file_name(), "mod");
    assert_eq!(root.id(), 0);
    assert_eq!(root.content_type(), ContentType::Indeterminate);
    assert!(matches!(root, Node::Directory(_)));
}

#[test]
fn an_empty_directory_is_a_tree() {
    let tree = DirTree::new("/games/mod", &directory("mod", vec![])).unwrap();
    match tree.root() {
        Node::Directory(root) => {
            assert_eq!(root.id(), 0);
            assert_eq!(root.dir_name(), "mod");
            assert!(root.children().is_empty());
        }
        Node::File(_) => panic!("the root is a directory"),
    }
}

#[test]
fn ids_follow_the_walk_and_each_kind_counts_apart() {
    let tree = DirTree::new("/games/mod", &sample()).unwrap();
    let mut directories = Vec::new();
    let mut files = Vec::new();
    collect(tree.root(), &mut directories, &mut files);
    let directory_names: Vec<&str> = directories.iter().map(|d| d.dir_name()).collect();
    assert_eq!(
        directory_names,
        vec!["mod", "localization", "replace", "common", "localization", "empty"]
    );
    let file_names: Vec<&str> = files.iter().map(|f| f.file_name()).collect();
    assert_eq!(
        file_names,
        vec!["z_base.yml", "m.yml", "a_overrides.yml", "descriptor.mod", "x.txt", "localization.txt"]
    );
    for (place, directory) in directories.iter().enumerate() {
        assert_eq!(directory.id() as usize, place);
    }
    for (place, file) in files.iter().enumerate() {
        assert_eq!(file.id() as usize, place);
    }
}

#[test]
fn children_keep_the_order_of_the_listing() {
    let tree = DirTree::new("/games/mod", &sample()).unwrap();
    match tree.root() {
        Node::Directory(root) => {
            let names: Vec<&str> = root.children().iter().map(|n| n.file_name()).collect();
            assert_eq!(
                names,
                vec!["localization", "descriptor.mod", "common", "localization.txt", "empty"]
            );
            let ids: Vec<u32> = root.children().iter().map(|n| n.id()).collect();
            assert_eq!(ids, vec![1, 3, 3, 5, 5]);
        }
        Node::File(_) => panic!("the root is a directory"),
    }
}

#[test]
fn paths_are_joined_from_the_root() {
    let tree = DirTree::new("/games/mod", &sample()).unwrap();
    let mut directories = Vec::new();
    let mut files = Vec::new();
    collect(tree.root(), &mut directories, &mut files);
    let full: Vec<&str> = files.iter().map(|f| f.full_path()).collect();
    assert_eq!(
        full,
        vec![
            "/games/mod/localization/z_base.yml",
            "/games/mod/localization/replace/m.yml",
            "/games/mod/localization/a_overrides.yml",
            "/games/mod/descriptor.mod",
            "/games/mod/common/localization/x.txt",
            "/games/mod/localization.txt",
        ]
    );
    let relative: Vec<&str> = files.iter().map(|f| f.relative_path()).collect();
    assert_eq!(
        relative,
        vec![
            "localization/z_base.yml",
            "localization/replace/m.yml",
            "localization/a_overrides.yml",
            "descriptor.mod",
            "common/localization/x.txt",
            "localization.txt",
        ]
    );
    let relative: Vec<&str> = directories.iter().map(|d| d.relative_path()).collect();
    assert_eq!(
        relative,
        vec!["", "localization", "localization/replace", "common", "common/localization", "empty"]
    );
}

#[test]
fn the_root_joined_with_the_relative_path_is_the_full_path() {
    for root in ["/games/mod", "/games/mod/", "mod", "", "/"] {
        let tree = DirTree::new(root, &sample()).unwrap();
        let mut directories = Vec::new();
        let mut files = Vec::new();
        collect(tree.root(), &mut directories, &mut files);
        for directory in &directories {
            assert_eq!(join_path(root, directory.relative_path()), directory.full_path());
        }
        for file in &files {
            assert_eq!(join_path(root, file.relative_path()), file.full_path());
        }
    }
}

#[test]
fn a_root_that_ends_in_a_separator_gets_no_second_one() {
    let tree = DirTree::new("/games/mod/", &directory("mod", vec![file("a.txt")])).unwrap();
    match tree.root() {
        Node::Directory(root) => {
            assert_eq!(root.children()[0].full_path(), "/games/mod/a.txt");
            assert_eq!(root.children()[0].relative_path(), "a.txt");
        }
        Node::File(_) => panic!("the root is a directory"),
    }
}

#[test]
fn join_path_joins() {
    assert_eq!(join_path("a", "b"), "a/b");
    assert_eq!(join_path("a/", "b"), "a/b");
    assert_eq!(join_path("", "b"), "b");
    assert_eq!(join_path("a", ""), "a");
    assert_eq!(join_path("", ""), "");
    assert_eq!(join_path("/", "b"), "/b");
    assert_eq!(join_path("a/b", "c/d"), "a/b/c/d");
    assert_eq!(join_path("\u{4e2d}", "\u{6587}"), "\u{4e2d}/\u{6587}");
}

#[test]
fn localization_is_the_first_segment_only() {
    let classify = DirTree::get_content_type_from_relative_path;
    assert_eq!(classify("localization"), ContentType::Localization);
    assert_eq!(classify("localization/english"), ContentType::Localization);
    assert_eq!(classify("localization/english/deep/er/file_l_english.yml"), ContentType::Localization);
    assert_eq!(classify("localization/"), ContentType::Localization);
    assert_eq!(classify(""), ContentType::Indeterminate);
    assert_eq!(classify("common"), ContentType::Indeterminate);
    assert_eq!(classify("common/localization"), ContentType::Indeterminate);
    assert_eq!(classify("Localization"), ContentType::Indeterminate);
    assert_eq!(classify("localization.txt"), ContentType::Indeterminate);
    assert_eq!(classify("localizationx/a"), ContentType::Indeterminate);
    assert_eq!(classify("localizatio"), ContentType::Indeterminate);
    assert_eq!(classify("/localization"), ContentType::Indeterminate);
    assert_eq!(classify(" localization"), ContentType::Indeterminate);
}

#[test]
fn nodes_are_classified_by_their_relative_path() {
    let tree = DirTree::new("/games/localization/mod", &sample()).unwrap();
    let mut directories = Vec::new();
    let mut files = Vec::new();
    collect(tree.root(), &mut directories, &mut files);
    let types: Vec<ContentType> = directories.iter().map(|d| d.content_type()).collect();
    assert_eq!(
        types,
        vec![
            ContentType::Indeterminate,
            ContentType::Localization,
            ContentType::Localization,
            ContentType::Indeterminate,
            ContentType::Indeterminate,
            ContentType::Indeterminate,
        ]
    );
    let types: Vec<ContentType> = files.iter().map(|f| f.content_type()).collect();
    assert_eq!(
        types,
        vec![
            ContentType::Localization,
            ContentType::Localization,
            ContentType::Localization,
            ContentType::Indeterminate,
            ContentType::Indeterminate,
            ContentType::Indeterminate,
        ]
    );
    for directory in &directories {
        assert_eq!(
            directory.content_type(),
            DirTree::get_content_type_from_relative_path(directory.relative_path())
        );
    }
}

#[test]
fn indexing_again_gives_the_same_tree() {
    let first = DirTree::new("/games/mod", &sample()).unwrap();
    let second = DirTree::new("/games/mod", &sample()).unwrap();
    assert_eq!(format!("{:?}", first), format!("{:?}", second));
}

#[test]
fn listings_of_ordinary_size_leave_room_for_the_ids() {
    assert!(sample().within_id_space());
    assert!(file("a").within_id_space());
    assert!(directory("d", vec![]).within_id_space());
}

#[test]
fn entries_know_their_names() {
    assert_eq!(file("a.txt").name(), "a.txt");
    assert_eq!(directory("d", vec![file("a.txt")]).name(), "d");
}

#[test]
fn the_full_path_without_the_root_is_the_relative_path() {
    for root in ["/games/mod", "/games/mod/", "mod", "", "/"] {
        let tree = DirTree::new(root, &sample()).unwrap();
        let mut directories = Vec::new();
        let mut files = Vec::new();
        collect(tree.root(), &mut directories, &mut files);
        for directory in &directories {
            assert_eq!(
                strip_root_path(directory.full_path(), root).as_deref(),
                Some(directory.relative_path())
            );
        }
        for file in &files {
            assert_eq!(strip_root_path(file.full_path(), root).as_deref(), Some(file.relative_path()));
        }
    }
}

#[test]
fn strip_root_path_takes_the_root_off() {
    let strip = |path: &str, root: &str| strip_root_path(path, root);
    assert_eq!(strip("/a/b/c", "/a").as_deref(), Some("b/c"));
    assert_eq!(strip("/a/b/c", "/a/").as_deref(), Some("b/c"));
    assert_eq!(strip("/a/b/c", "/a/b/c").as_deref(), Some(""));
    assert_eq!(strip("/a/b/c", "").as_deref(), Some("/a/b/c"));
    assert_eq!(strip("", "").as_deref(), Some(""));
    assert_eq!(strip("/a/", "/a").as_deref(), Some(""));
    assert_eq!(strip("/a/b", "/").as_deref(), Some("a/b"));
    assert_eq!(strip("/ab/c", "/a"), None);
    assert_eq!(strip("/a", "/a/b"), None);
    assert_eq!(strip("/a", "/a/"), None);
    assert_eq!(strip("/x/b", "/a"), None);
    assert_eq!(strip("", "/a"), None);
    assert_eq!(strip("\u{4e2d}/\u{6587}", "\u{4e2d}").as_deref(), Some("\u{6587}"));
}

#[test]
fn last_segment_of_names_what_lies_at_a_path() {
    assert_eq!(last_segment_of("/games/mod"), "mod");
    assert_eq!(last_segment_of("/games/mod/"), "mod");
    assert_eq!(last_segment_of("/games/mod///"), "mod");
    assert_eq!(last_segment_of("mod"), "mod");
    assert_eq!(last_segment_of("a/b/c.txt"), "c.txt");
    assert_eq!(last_segment_of("/"), "");
    assert_eq!(last_segment_of("//"), "");
    assert_eq!(last_segment_of(""), "");
    assert_eq!(last_segment_of(".."), "..");
    assert_eq!(last_segment_of("/a/.."), "..");
    assert_eq!(last_segment_of("\u{4e2d}/\u{6587}\u{4ef6}"), "\u{6587}\u{4ef6}");
}

#[test]
fn the_root_is_named_by_its_path() {
    let tree = DirTree::new("/games/a", &directory("b", vec![file("c.txt")])).unwrap();
    assert_eq!(tree.root().file_name(), "a");
    assert_eq!(tree.root().full_path(), "/games/a");
    let tree = DirTree::new("/games/a/", &directory("b", vec![])).unwrap();
    assert_eq!(tree.root().file_name(), "a");
    let tree = DirTree::new("a", &directory("b", vec![])).unwrap();
    assert_eq!(tree.root().file_name(), "a");
}

#[test]
fn a_root_without_a_name_is_indexed() {
    for root in ["/", "", ".."] {
        let tree = DirTree::new(root, &directory("", vec![file("a.txt")])).unwrap();
        assert_eq!(tree.root().full_path(), root);
        assert_eq!(tree.root().relative_path(), "");
        assert_eq!(tree.root().file_name(), last_segment_of(root));
        assert_eq!(tree.root().id(), 0);
        match tree.root() {
            Node::Directory(root_node) => {
                assert_eq!(root_node.children()[0].file_name(), "a.txt");
                assert_eq!(root_node.children()[0].relative_path(), "a.txt");
                assert_eq!(root_node.children()[0].full_path(), join_path(root, "a.txt"));
            }
            Node::File(_) => panic!("the root is a directory"),
        }
    }
}

#[test]
fn every_node_is_named_by_the_last_segment_of_its_full_path() {
    for root in ["/games/mod", "/games/mod/", "mod", "", "/"] {
        let tree = DirTree::new(root, &sample()).unwrap();
        let mut directories = Vec::new();
        let mut files = Vec::new();
        collect(tree.root(), &mut directories, &mut files);
        for directory in &directories {
            assert_eq!(directory.dir_name(), last_segment_of(directory.full_path()));
        }
        for file in &files {
            assert_eq!(file.file_name(), last_segment_of(file.full_path()));
        }
    }
}
