use pdx_explorer::database::dir::Entry;
use pdx_explorer::dir_tree::{DirTree, Node};

fn listing() -> Entry {
    Entry::Directory {
        name: "mod".to_string(),
        children: vec![
            Entry::File { name: "a.txt".to_string() },
            Entry::Directory {
                name: "sub".to_string(),
                children: vec![Entry::File { name: "b.txt".to_string() }],
            },
        ],
    }
}

#[test]
fn the_plain_tree_holds_the_paths() {
    let tree = DirTree::new("/games/mod", &listing()).unwrap();
    assert_eq!(tree.root_path(), "/games/mod");
    match tree.root() {
        Node::Directory { path, children } => {
            assert_eq!(path, "/games/mod");
            assert_eq!(children.len(), 2);
            assert_eq!(children[0].path(), "/games/mod/a.txt");
            assert!(matches!(children[0], Node::File { .. }));
            match &children[1] {
                Node::Directory { path, children } => {
                    assert_eq!(path, "/games/mod/sub");
                    assert_eq!(children.len(), 1);
                    assert_eq!(children[0].path(), "/games/mod/sub/b.txt");
                }
                Node::File { .. } => panic!("sub is a directory"),
            }
        }
        Node::File { .. } => panic!("the root is a directory"),
    }
}

#[test]
fn the_plain_tree_of_a_file_is_a_file() {
    let tree = DirTree::new("/games/mod/a.txt", &Entry::File { name: "a.txt".to_string() }).unwrap();
    assert_eq!(tree.root_path(), "/games/mod/a.txt");
    assert!(matches!(tree.root(), Node::File { .. }));
}
