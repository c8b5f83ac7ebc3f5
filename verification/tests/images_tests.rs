use inncms::config::HugoConfig;
use inncms::fs::MemFs;
use inncms::images::{parse_references, plan_external_fetches, save_document};

fn cfg() -> HugoConfig {
    HugoConfig {
        url: String::new(),
        hugo_cmd_path: String::new(),
        base_path: String::from("/srv/site"),
        content_path: String::new(),
        image_path: String::from("images"),
        config_path: String::new(),
        layout_path: String::new(),
        trashcan_path: String::new(),
        hidden_path: String::from("hidden"),
    }
}

#[test]
fn parser_extracts_both_syntaxes() {
    let refs = parse_references("a ![x](/p/a.png) b <img src=\"/p/b.png\"> c");
    assert_eq!(refs.len(), 2);
    assert_eq!(refs[0].target, "/p/a.png");
    assert_eq!(refs[1].target, "/p/b.png");
}

#[test]
fn parser_leaves_plain_text_alone() {
    let refs = parse_references("no markup here [link](x) <b>bold</b>");
    assert_eq!(refs.len(), 0);
}

#[test]
fn parser_stops_on_unclosed_reference() {
    let refs = parse_references("![x](/p/a.png) then ![broken](never");
    assert_eq!(refs.len(), 1);
    assert_eq!(refs[0].target, "/p/a.png");
}

#[test]
fn save_copies_referenced_image_into_own_directory() {
    // a document whose reference points outside its own image directory:
    // the bytes move under the document and the text follows
    let c = cfg();
    let mut fs = MemFs::new();
    fs.save_file("/srv/site/external/old.png", b"pngbytes".to_vec()).unwrap();
    let fetched: Vec<(String, Vec<u8>)> = Vec::new();
    let (out, stores) = save_document(&mut fs, &c, "/blog/post.md", "![a](/external/old.png)", true, &fetched)
        .unwrap();
    assert_eq!(out, "![a](/images/blog/post.md/old.png)");
    // the engine hands back the one store it performed, for the shell
    assert_eq!(stores.len(), 1);
    assert_eq!(stores[0].0, "/srv/site/images/blog/post.md/old.png");
    assert_eq!(stores[0].1, b"pngbytes".to_vec());
    let copied = fs.get_file("/srv/site/images/blog/post.md/old.png").unwrap();
    assert_eq!(copied, b"pngbytes".to_vec());
    // the original source is untouched
    assert_eq!(fs.get_file("/srv/site/external/old.png").unwrap(), b"pngbytes".to_vec());
}

#[test]
fn save_twice_with_same_bytes_changes_nothing_again() {
    let c = cfg();
    let mut fs = MemFs::new();
    fs.save_file("/srv/site/external/old.png", b"pngbytes".to_vec()).unwrap();
    let fetched: Vec<(String, Vec<u8>)> = Vec::new();
    let (first, _) = save_document(&mut fs, &c, "/blog/post.md", "![a](/external/old.png)", true, &fetched)
        .unwrap();
    // saving the already-settled text again leaves it untouched and copies
    // nothing: hash-equal files are never re-copied
    let (second, second_stores) = save_document(&mut fs, &c, "/blog/post.md", first.as_str(), true, &fetched)
        .unwrap();
    assert_eq!(second, first);
    assert_eq!(second_stores.len(), 0);
    let doc = fs.get_file("/srv/site/content/blog/post.md").unwrap();
    assert_eq!(doc, first.clone().into_bytes());
}

#[test]
fn same_name_different_bytes_gets_numbered_copy() {
    let c = cfg();
    let mut fs = MemFs::new();
    fs.save_file("/srv/site/external/old.png", b"fresh".to_vec()).unwrap();
    // a different file already owns the name inside the document's dir
    fs.save_file("/srv/site/images/blog/post.md/old.png", b"other".to_vec()).unwrap();
    let fetched: Vec<(String, Vec<u8>)> = Vec::new();
    let (out, _) = save_document(&mut fs, &c, "/blog/post.md", "![a](/external/old.png)", true, &fetched)
        .unwrap();
    assert_eq!(out, "![a](/images/blog/post.md/old_1.png)");
    assert_eq!(fs.get_file("/srv/site/images/blog/post.md/old_1.png").unwrap(), b"fresh".to_vec());
    assert_eq!(fs.get_file("/srv/site/images/blog/post.md/old.png").unwrap(), b"other".to_vec());
}

#[test]
fn external_image_fetched_once_and_reference_stable() {
    let c = cfg();
    let mut fs = MemFs::new();
    let text = "![a](https://example.com/img.png)";
    // the planner asks for the fetch exactly once
    let plan1 = plan_external_fetches(&fs, &c, "/blog/post.md", text);
    assert_eq!(plan1.len(), 1);
    assert_eq!(plan1[0], "https://example.com/img.png");
    let fetched = vec![("https://example.com/img.png".to_string(), b"imgbytes".to_vec())];
    let (first, _) = save_document(&mut fs, &c, "/blog/post.md", text, true, &fetched).unwrap();
    assert_ne!(first, text);
    assert!(first.starts_with("![a](/images/blog/post.md/"));
    assert!(first.ends_with(".png)"));
    // the stored name embeds a digest of the URL: 64 hexadecimal digits
    let name = &first["![a](/images/blog/post.md/".len()..first.len() - ")".len()];
    assert_eq!(name.len(), 64 + ".png".len());
    // a second save needs no fetch and leaves the same reference
    let plan2 = plan_external_fetches(&fs, &c, "/blog/post.md", text);
    assert_eq!(plan2.len(), 0);
    let none: Vec<(String, Vec<u8>)> = Vec::new();
    let (second, _) = save_document(&mut fs, &c, "/blog/post.md", text, true, &none).unwrap();
    assert_eq!(second, first);
}

#[test]
fn unreachable_external_image_is_skipped_not_fatal() {
    let c = cfg();
    let mut fs = MemFs::new();
    let none: Vec<(String, Vec<u8>)> = Vec::new();
    let (out, stores) = save_document(&mut fs, &c, "/blog/post.md", "![a](https://down.example/x.png)", true, &none)
        .unwrap();
    assert_eq!(out, "![a](https://down.example/x.png)");
    assert_eq!(stores.len(), 0);
    assert!(fs.exists_path("/srv/site/content/blog/post.md"));
}

#[test]
fn background_save_skips_image_sync() {
    let c = cfg();
    let mut fs = MemFs::new();
    fs.save_file("/srv/site/external/old.png", b"pngbytes".to_vec()).unwrap();
    let none: Vec<(String, Vec<u8>)> = Vec::new();
    let (out, _) = save_document(&mut fs, &c, "/blog/post.md", "![a](/external/old.png)", false, &none)
        .unwrap();
    assert_eq!(out, "![a](/external/old.png)");
    assert!(!fs.exists_path("/srv/site/images/blog/post.md/old.png"));
}

#[test]
fn move_rewrite_follows_both_prefix_forms() {
    let c = cfg();
    let (olds, oldl, newp) = inncms::images::move_ref_prefixes(&c, "/blog/a.md", "/blog/b.md");
    assert_eq!(olds, "/images/blog/a.md");
    assert_eq!(oldl, "/images/a.md");
    assert_eq!(newp, "/images/blog/b.md");
    let text = "x ![p](/images/blog/a.md/pic.png) y <img src=\"/images/a.md/q.png\"> z ![o](/other.png)";
    let out = inncms::images::rewrite_refs(text, olds.as_str(), oldl.as_str(), newp.as_str());
    assert_eq!(
        out,
        "x ![p](/images/blog/b.md/pic.png) y <img src=\"/images/blog/b.md/q.png\"> z ![o](/other.png)"
    );
}

#[test]
fn move_rewrite_leaves_unrelated_text_alone() {
    let c = cfg();
    let (olds, oldl, newp) = inncms::images::move_ref_prefixes(&c, "/blog/a.md", "/blog/b.md");
    let text = "plain ![k](/elsewhere/x.png) text";
    let out = inncms::images::rewrite_refs(text, olds.as_str(), oldl.as_str(), newp.as_str());
    assert_eq!(out, text);
}

#[test]
fn unreadable_local_source_is_skipped_not_fatal() {
    let c = cfg();
    let mut fs = MemFs::new();
    let none: Vec<(String, Vec<u8>)> = Vec::new();
    let (out, _) = save_document(&mut fs, &c, "/blog/post.md", "![a](/missing/x.png)", true, &none)
        .unwrap();
    assert_eq!(out, "![a](/missing/x.png)");
    assert!(fs.exists_path("/srv/site/content/blog/post.md"));
}

#[test]
fn two_same_named_references_store_two_distinct_files() {
    // the second reference collides with the first copy's name and gets a
    // numbered file; the handed-back stores name both, in order
    let c = cfg();
    let mut fs = MemFs::new();
    fs.save_file("/srv/site/x/old.png", b"first".to_vec()).unwrap();
    fs.save_file("/srv/site/y/old.png", b"second".to_vec()).unwrap();
    let none: Vec<(String, Vec<u8>)> = Vec::new();
    let (out, stores) =
        save_document(&mut fs, &c, "/blog/post.md", "![a](/x/old.png) ![b](/y/old.png)", true, &none)
            .unwrap();
    assert_eq!(out, "![a](/images/blog/post.md/old.png) ![b](/images/blog/post.md/old_1.png)");
    assert_eq!(stores.len(), 2);
    assert_eq!(stores[0].0, "/srv/site/images/blog/post.md/old.png");
    assert_eq!(stores[0].1, b"first".to_vec());
    assert_eq!(stores[1].0, "/srv/site/images/blog/post.md/old_1.png");
    assert_eq!(stores[1].1, b"second".to_vec());
    assert_eq!(fs.get_file("/srv/site/images/blog/post.md/old.png").unwrap(), b"first".to_vec());
    assert_eq!(fs.get_file("/srv/site/images/blog/post.md/old_1.png").unwrap(), b"second".to_vec());
}
