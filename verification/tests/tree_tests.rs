use inncms::fs::MemFs;
use inncms::tree::{get_file_list, merge_tree, FileSystemNode, NodeType};

fn child<'a>(n: &'a FileSystemNode, name: &str) -> Option<&'a FileSystemNode> {
    n.children.iter().find(|c| c.name == name)
}

#[test]
fn listing_reflects_files_and_directories() {
    let mut fs = MemFs::new();
    fs.mkdir_recursive("/root/posts").unwrap();
    fs.save_file("/root/a.md", b"a".to_vec()).unwrap();
    fs.save_file("/root/posts/b.md", b"b".to_vec()).unwrap();
    let tree = get_file_list(&fs, "/root", 5, false);
    assert_eq!(tree.name, "root");
    assert!(matches!(tree.type_, NodeType::Directory));
    assert!(!tree.is_hidden);
    assert_eq!(tree.children.len(), 2);
    let a = child(&tree, "a.md").unwrap();
    assert!(matches!(a.type_, NodeType::File));
    let posts = child(&tree, "posts").unwrap();
    assert!(matches!(posts.type_, NodeType::Directory));
    assert_eq!(posts.children.len(), 1);
    assert_eq!(posts.children[0].name, "b.md");
}

#[test]
fn listing_is_depth_bounded() {
    let mut fs = MemFs::new();
    fs.mkdir_recursive("/root/a/b").unwrap();
    let tree = get_file_list(&fs, "/root", 1, false);
    let a = child(&tree, "a").unwrap();
    assert!(matches!(a.type_, NodeType::Directory));
    assert_eq!(a.children.len(), 0);
}

#[test]
fn listing_tags_hidden_provenance() {
    let mut fs = MemFs::new();
    fs.save_file("/h/a.md", b"a".to_vec()).unwrap();
    let tree = get_file_list(&fs, "/h", 5, true);
    assert!(tree.is_hidden);
    assert!(tree.children[0].is_hidden);
}

#[test]
fn merge_public_file_wins_over_hidden() {
    // a public "a.md" and a differing hidden "a.md": the merged tree keeps
    // the public node, unhidden
    let mut public = FileSystemNode {
        name: String::from("root"),
        type_: NodeType::Directory,
        is_hidden: false,
        children: vec![FileSystemNode {
            name: String::from("a.md"),
            type_: NodeType::File,
            is_hidden: false,
            children: Vec::new(),
        }],
    };
    let hidden = FileSystemNode {
        name: String::from("root"),
        type_: NodeType::Directory,
        is_hidden: true,
        children: vec![FileSystemNode {
            name: String::from("a.md"),
            type_: NodeType::File,
            is_hidden: true,
            children: Vec::new(),
        }],
    };
    merge_tree(&mut public, hidden);
    assert_eq!(public.children.len(), 1);
    let a = child(&public, "a.md").unwrap();
    assert!(!a.is_hidden);
}

#[test]
fn merge_surfaces_hidden_only_file() {
    let mut public = FileSystemNode {
        name: String::from("root"),
        type_: NodeType::Directory,
        is_hidden: false,
        children: Vec::new(),
    };
    let hidden = FileSystemNode {
        name: String::from("root"),
        type_: NodeType::Directory,
        is_hidden: true,
        children: vec![FileSystemNode {
            name: String::from("draft.md"),
            type_: NodeType::File,
            is_hidden: true,
            children: Vec::new(),
        }],
    };
    merge_tree(&mut public, hidden);
    let d = child(&public, "draft.md").unwrap();
    assert!(d.is_hidden);
}

#[test]
fn merge_recurses_into_directories() {
    let mut public = FileSystemNode {
        name: String::from("root"),
        type_: NodeType::Directory,
        is_hidden: false,
        children: vec![FileSystemNode {
            name: String::from("posts"),
            type_: NodeType::Directory,
            is_hidden: false,
            children: vec![FileSystemNode {
                name: String::from("p.md"),
                type_: NodeType::File,
                is_hidden: false,
                children: Vec::new(),
            }],
        }],
    };
    let hidden = FileSystemNode {
        name: String::from("root"),
        type_: NodeType::Directory,
        is_hidden: true,
        children: vec![FileSystemNode {
            name: String::from("posts"),
            type_: NodeType::Directory,
            is_hidden: true,
            children: vec![FileSystemNode {
                name: String::from("q.md"),
                type_: NodeType::File,
                is_hidden: true,
                children: Vec::new(),
            }],
        }],
    };
    merge_tree(&mut public, hidden);
    let posts = child(&public, "posts").unwrap();
    // the existing public directory node stays unhidden; the hidden-only
    // file surfaces inside it, tagged hidden
    assert!(!posts.is_hidden);
    assert_eq!(posts.children.len(), 2);
    assert!(!child(posts, "p.md").unwrap().is_hidden);
    assert!(child(posts, "q.md").unwrap().is_hidden);
}

#[test]
fn merge_creates_missing_directory_unhidden() {
    let mut public = FileSystemNode {
        name: String::from("root"),
        type_: NodeType::Directory,
        is_hidden: false,
        children: Vec::new(),
    };
    let hidden = FileSystemNode {
        name: String::from("root"),
        type_: NodeType::Directory,
        is_hidden: true,
        children: vec![FileSystemNode {
            name: String::from("drafts"),
            type_: NodeType::Directory,
            is_hidden: true,
            children: Vec::new(),
        }],
    };
    merge_tree(&mut public, hidden);
    let d = child(&public, "drafts").unwrap();
    assert!(!d.is_hidden);
    assert!(matches!(d.type_, NodeType::Directory));
}

#[test]
fn merged_fetch_of_both_roots() {
    // the whole flow: list the public root, list the hidden root, merge
    let mut fs = MemFs::new();
    fs.save_file("/srv/site/content/a.md", b"pub".to_vec()).unwrap();
    fs.save_file("/srv/site/content/hidden/b.md", b"draft".to_vec()).unwrap();
    let mut main_root = get_file_list(&fs, "/srv/site/content", 5, false);
    let hidden_root = get_file_list(&fs, "/srv/site/content/hidden", 5, true);
    merge_tree(&mut main_root, hidden_root);
    assert!(child(&main_root, "a.md").is_some());
    let b = child(&main_root, "b.md").unwrap();
    assert!(b.is_hidden);
}

fn same_shape(a: &FileSystemNode, b: &FileSystemNode) -> bool {
    a.name == b.name && a.is_hidden == b.is_hidden && a.children.len() == b.children.len()
        && a.children.iter().zip(b.children.iter()).all(|(x, y)| same_shape(x, y))
}

#[test]
fn merging_the_same_tree_twice_changes_nothing_more() {
    let mut fs = MemFs::new();
    fs.save_file("/srv/site/content/a.md", b"pub".to_vec()).unwrap();
    fs.mkdir_recursive("/srv/site/content/hidden/posts").unwrap();
    fs.save_file("/srv/site/content/hidden/b.md", b"draft".to_vec()).unwrap();
    fs.save_file("/srv/site/content/hidden/posts/c.md", b"draft2".to_vec()).unwrap();
    let mut once = get_file_list(&fs, "/srv/site/content", 5, false);
    let hidden1 = get_file_list(&fs, "/srv/site/content/hidden", 5, true);
    let hidden2 = get_file_list(&fs, "/srv/site/content/hidden", 5, true);
    merge_tree(&mut once, hidden1);
    let mut twice = get_file_list(&fs, "/srv/site/content", 5, false);
    let hidden3 = get_file_list(&fs, "/srv/site/content/hidden", 5, true);
    merge_tree(&mut twice, hidden3);
    merge_tree(&mut twice, hidden2);
    assert!(same_shape(&once, &twice));
}
