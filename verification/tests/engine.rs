use inncms::config::HugoConfig;
use inncms::fs::MemFs;
use inncms::mutate::{
    check_file_hidden, create_unique, exists_both, get_file_content, move_file_or_folder,
    new_content_for_hugo, remove_file, save_file_content, toggle_hidden_file,
};
use inncms::CmsError;

fn cfg() -> HugoConfig {
    HugoConfig {
        url: String::from("https://example.org"),
        hugo_cmd_path: String::from("/usr/bin/hugo"),
        base_path: String::from("/srv/site"),
        content_path: String::new(),
        image_path: String::from("images"),
        config_path: String::new(),
        layout_path: String::new(),
        trashcan_path: String::new(),
        hidden_path: String::from("hidden"),
    }
}

fn seed_content(fs: &mut MemFs, path: &str, data: &[u8]) {
    // create the parent directory chain, as the remote host would have it
    fs.save_image(path, data.to_vec()).unwrap();
}

#[test]
fn write_then_read_roundtrip() {
    let c = cfg();
    let mut fs = MemFs::new();
    save_file_content(&mut fs, &c, "/blog/a.md", b"hello".to_vec()).unwrap();
    let got = get_file_content(&fs, &c, "/blog/a.md").unwrap();
    assert_eq!(got, b"hello".to_vec());
    assert!(fs.exists_path("/srv/site/content/blog/a.md"));
}

#[test]
fn write_prefers_hidden_location() {
    let c = cfg();
    let mut fs = MemFs::new();
    seed_content(&mut fs, "/srv/site/content/hidden/blog/a.md", b"old");
    save_file_content(&mut fs, &c, "/blog/a.md", b"new".to_vec()).unwrap();
    let stored = fs.get_file("/srv/site/content/hidden/blog/a.md").unwrap();
    assert_eq!(stored, b"new".to_vec());
    assert!(!fs.exists_path("/srv/site/content/blog/a.md"));
}

#[test]
fn removal_succeeds_when_only_hidden_exists() {
    let c = cfg();
    let mut fs = MemFs::new();
    seed_content(&mut fs, "/srv/site/content/hidden/blog/a.md", b"draft");
    assert!(remove_file(&mut fs, &c, "/blog/a.md").is_ok());
    assert!(!fs.exists_path("/srv/site/content/hidden/blog/a.md"));
}

#[test]
fn removal_fails_when_nowhere() {
    let c = cfg();
    let mut fs = MemFs::new();
    let r = remove_file(&mut fs, &c, "/blog/a.md");
    assert_eq!(r, Err(CmsError::NotFound));
}

#[test]
fn removal_takes_both_locations_and_images() {
    let c = cfg();
    let mut fs = MemFs::new();
    seed_content(&mut fs, "/srv/site/content/blog/a.md", b"pub");
    seed_content(&mut fs, "/srv/site/content/hidden/blog/a.md", b"draft");
    seed_content(&mut fs, "/srv/site/images/blog/a.md/pic.png", b"img");
    assert!(remove_file(&mut fs, &c, "/blog/a.md").is_ok());
    assert!(!fs.exists_path("/srv/site/content/blog/a.md"));
    assert!(!fs.exists_path("/srv/site/content/hidden/blog/a.md"));
    assert!(!fs.exists_path("/srv/site/images/blog/a.md/pic.png"));
}

#[test]
fn toggle_moves_between_roots() {
    let c = cfg();
    let mut fs = MemFs::new();
    seed_content(&mut fs, "/srv/site/content/blog/a.md", b"text");
    toggle_hidden_file(&mut fs, &c, "/blog/a.md", false).unwrap();
    assert!(check_file_hidden(&fs, &c, "/blog/a.md"));
    assert!(!fs.exists_path("/srv/site/content/blog/a.md"));
    toggle_hidden_file(&mut fs, &c, "/blog/a.md", true).unwrap();
    assert!(!check_file_hidden(&fs, &c, "/blog/a.md"));
    assert_eq!(fs.get_file("/srv/site/content/blog/a.md").unwrap(), b"text".to_vec());
}

#[test]
fn toggle_fails_when_destination_exists() {
    let c = cfg();
    let mut fs = MemFs::new();
    seed_content(&mut fs, "/srv/site/content/blog/a.md", b"pub");
    seed_content(&mut fs, "/srv/site/content/hidden/blog/a.md", b"draft");
    let r = toggle_hidden_file(&mut fs, &c, "/blog/a.md", true);
    assert_eq!(r, Err(CmsError::AlreadyExists));
    assert_eq!(fs.get_file("/srv/site/content/blog/a.md").unwrap(), b"pub".to_vec());
}

#[test]
fn move_carries_content_hidden_and_images() {
    let c = cfg();
    let mut fs = MemFs::new();
    seed_content(&mut fs, "/srv/site/content/blog/a.md", b"pub");
    seed_content(&mut fs, "/srv/site/content/hidden/blog/a.md", b"draft");
    seed_content(&mut fs, "/srv/site/images/blog/a.md/pic.png", b"img");
    move_file_or_folder(&mut fs, &c, "/blog/a.md", "/blog/b.md").unwrap();
    assert_eq!(fs.get_file("/srv/site/content/blog/b.md").unwrap(), b"pub".to_vec());
    assert_eq!(fs.get_file("/srv/site/content/hidden/blog/b.md").unwrap(), b"draft".to_vec());
    assert_eq!(fs.get_file("/srv/site/images/blog/b.md/pic.png").unwrap(), b"img".to_vec());
    assert!(!fs.exists_path("/srv/site/content/blog/a.md"));
    assert!(!fs.exists_path("/srv/site/images/blog/a.md"));
}

#[test]
fn move_rolls_back_when_image_rename_fails() {
    let c = cfg();
    let mut fs = MemFs::new();
    seed_content(&mut fs, "/srv/site/content/blog/a.md", b"pub");
    seed_content(&mut fs, "/srv/site/content/hidden/blog/a.md", b"draft");
    seed_content(&mut fs, "/srv/site/images/blog/a.md/pic.png", b"img");
    // something already occupies the destination's image directory: the
    // third phase must fail and the first two must be undone
    seed_content(&mut fs, "/srv/site/images/blog/b.md/stray.png", b"stray");
    let r = move_file_or_folder(&mut fs, &c, "/blog/a.md", "/blog/b.md");
    assert!(r.is_err());
    assert!(!fs.exists_path("/srv/site/content/blog/b.md"));
    assert!(!fs.exists_path("/srv/site/content/hidden/blog/b.md"));
    assert_eq!(fs.get_file("/srv/site/content/blog/a.md").unwrap(), b"pub".to_vec());
    assert_eq!(fs.get_file("/srv/site/content/hidden/blog/a.md").unwrap(), b"draft".to_vec());
    assert_eq!(fs.get_file("/srv/site/images/blog/a.md/pic.png").unwrap(), b"img".to_vec());
}

#[test]
fn move_fails_on_existing_destination() {
    let c = cfg();
    let mut fs = MemFs::new();
    seed_content(&mut fs, "/srv/site/content/blog/a.md", b"pub");
    seed_content(&mut fs, "/srv/site/content/blog/b.md", b"other");
    let r = move_file_or_folder(&mut fs, &c, "/blog/a.md", "/blog/b.md");
    assert_eq!(r, Err(CmsError::AlreadyExists));
}

#[test]
fn move_fails_on_missing_source() {
    let c = cfg();
    let mut fs = MemFs::new();
    let r = move_file_or_folder(&mut fs, &c, "/blog/a.md", "/blog/b.md");
    assert_eq!(r, Err(CmsError::NotFound));
}

#[test]
fn unique_name_numbers_taken_paths() {
    let c = cfg();
    let mut fs = MemFs::new();
    seed_content(&mut fs, "/srv/site/content/post/new.md", b"x");
    let r = create_unique(&fs, &c, "/post/new.md").unwrap();
    assert_eq!(r, "/post/new_1.md");
    seed_content(&mut fs, "/srv/site/content/post/new_1.md", b"y");
    let r2 = create_unique(&fs, &c, "/post/new.md").unwrap();
    assert_eq!(r2, "/post/new_2.md");
}

#[test]
fn unique_name_free_path_stays() {
    let c = cfg();
    let fs = MemFs::new();
    let r = create_unique(&fs, &c, "/post/new.md").unwrap();
    assert_eq!(r, "/post/new.md");
}

#[test]
fn unique_name_probes_hidden_too() {
    let c = cfg();
    let mut fs = MemFs::new();
    seed_content(&mut fs, "/srv/site/content/hidden/post/new.md", b"x");
    let r = create_unique(&fs, &c, "/post/new.md").unwrap();
    assert_eq!(r, "/post/new_1.md");
}

#[test]
fn unique_name_index_file_numbers_directory() {
    let c = cfg();
    let mut fs = MemFs::new();
    seed_content(&mut fs, "/srv/site/content/post/_index.md", b"x");
    let r = create_unique(&fs, &c, "/post/_index.md").unwrap();
    assert_eq!(r, "/post_1/_index.md");
}

#[test]
fn new_content_command_shape() {
    let c = cfg();
    let cmd = new_content_for_hugo(&c, "/blog/a.md");
    assert_eq!(cmd, "cd /srv/site ; /usr/bin/hugo new content/blog/a.md");
}

#[test]
fn exists_probe_sees_either_location() {
    let c = cfg();
    let mut fs = MemFs::new();
    assert!(!exists_both(&fs, &c, "/blog/a.md"));
    seed_content(&mut fs, "/srv/site/content/hidden/blog/a.md", b"x");
    assert!(exists_both(&fs, &c, "/blog/a.md"));
}

#[test]
fn mkdir_recursive_creates_chain_and_rejects_files() {
    let mut fs = MemFs::new();
    fs.mkdir_recursive("/a/b/c").unwrap();
    assert!(fs.is_dir("/a"));
    assert!(fs.is_dir("/a/b"));
    assert!(fs.is_dir("/a/b/c"));
    fs.save_file("/a/b/c/f", b"x".to_vec()).unwrap();
    assert!(fs.mkdir_recursive("/a/b/c/f/d").is_err());
}

#[test]
fn rename_moves_subtree() {
    let mut fs = MemFs::new();
    fs.mkdir_recursive("/a/b").unwrap();
    fs.save_file("/a/b/f", b"x".to_vec()).unwrap();
    fs.rename("/a", "/z").unwrap();
    assert_eq!(fs.get_file("/z/b/f").unwrap(), b"x".to_vec());
    assert!(!fs.exists_path("/a"));
    assert!(!fs.exists_path("/a/b/f"));
}

#[test]
fn rmrf_removes_subtree_and_fails_on_missing() {
    let mut fs = MemFs::new();
    fs.mkdir_recursive("/a/b").unwrap();
    fs.save_file("/a/b/f", b"x".to_vec()).unwrap();
    fs.rmrf_file("/a").unwrap();
    assert!(!fs.exists_path("/a/b/f"));
    assert!(fs.rmrf_file("/a").is_err());
}
