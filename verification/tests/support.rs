use inncms::config::{AppConfig, ClientConfig, CmsConfig, HugoConfig, SshConfig};
use inncms::configstore::{set_hidden_path, ConfigStore};
use inncms::crypto::{decrypt_string, encrypt_string, seal_round_trip};
use inncms::fs::MemFs;
use inncms::plugins::{
    check_crontab_available, cron_marker, disable_plugin, enable_plugin, list_all_plugins,
    list_registered_crons, register_cron, resolve_plugin_dir, run_hooks, uninstall_plugin,
    unregister_cron, unregister_single_cron, HookEvent, PluginManifest, Trigger,
};
use inncms::pty::{find_utf8_boundary, resize_pty, stop_pty, write_pty, PtyMsg};
use inncms::session::{connect, get_file_transfer_handle, get_home_path, is_connected,
    ConnectAction, HandleAction, SessionState};
use inncms::setup::{
    check_hugo_installed, check_prerequisites, create_hugo_site, create_site_command,
    detect_server_platform, generate_site_name, get_latest_hugo_version, git_init_site,
    hugo_download_url, install_hugo, install_theme, install_theme_command, site_name_candidate,
    validate_hugo_project,
};
use inncms::strutil::{find_char, to_hex, trim, u64_to_string};

fn ssh() -> SshConfig {
    SshConfig {
        host: String::from("example.org"),
        port: String::from("22"),
        username: String::from("admin"),
        password: String::from("SECRET-REDACTED"),
        key_path: String::new(),
    }
}

fn hugo() -> HugoConfig {
    HugoConfig {
        url: String::new(),
        hugo_cmd_path: String::from("hugo"),
        base_path: String::from("/srv/site"),
        content_path: String::new(),
        image_path: String::from("images"),
        config_path: String::new(),
        layout_path: String::new(),
        trashcan_path: String::new(),
        hidden_path: String::from("hidden"),
    }
}

#[test]
fn password_seal_and_open_roundtrip() {
    let opened = seal_round_trip("correct horse", "machine-a").unwrap();
    assert_eq!(opened, "correct horse");
}

#[test]
fn sealed_password_is_not_the_plain_text() {
    let sealed = encrypt_string("topsecret", "machine-a").unwrap();
    assert_ne!(sealed, "topsecret");
    assert!(sealed.contains(':'));
    let opened = decrypt_string(sealed.as_str(), "machine-a").unwrap();
    assert_eq!(opened, "topsecret");
}

#[test]
fn wrong_machine_cannot_open() {
    let sealed = encrypt_string("topsecret", "machine-a").unwrap();
    assert!(decrypt_string(sealed.as_str(), "machine-b").is_err());
}

#[test]
fn malformed_sealed_value_is_rejected() {
    assert!(decrypt_string("no-colon-here", "machine-a").is_err());
    assert!(decrypt_string("!!!:???", "machine-a").is_err());
}

#[test]
fn config_store_holds_and_copies() {
    let mut store = ConfigStore::new();
    assert!(store.get_app_config().is_err());
    store.load_app_config(AppConfig { ssh_config: ssh(), cms_config: CmsConfig { hugo_config: hugo() } });
    let copy = store.get_app_config().unwrap();
    assert_eq!(copy.ssh_config.host, "example.org");
    assert_eq!(copy.cms_config.hugo_config.base_path, "/srv/site");
    let hc = store.get_hugo_config().unwrap();
    assert_eq!(hc.hidden_path, "hidden");
}

#[test]
fn config_split_and_client_only() {
    let app = AppConfig { ssh_config: ssh(), cms_config: CmsConfig { hugo_config: hugo() } };
    assert!(app.has_ssh_config());
    let client: ClientConfig = app.to_client_config();
    assert_eq!(client.ssh_config.username, "admin");
    let server = app.to_server_config();
    assert_eq!(server.cms_config.hugo_config.image_path, "images");
    let back = AppConfig::load_client_only(client);
    assert_eq!(back.cms_config.hugo_config.base_path, "");
}

#[test]
fn password_prepared_for_save_is_sealed() {
    let s = ssh();
    let prepared = s.prepare_for_save("machine-a").unwrap();
    assert_ne!(prepared.password, s.password);
    let mut restored = prepared;
    restored.decrypt_password("machine-a").unwrap();
    assert_eq!(restored.password, "SECRET-REDACTED");
}

#[test]
fn hidden_path_rename_moves_whole_subtree() {
    let c = hugo();
    let mut fs = MemFs::new();
    fs.mkdir_recursive("/srv/site/content/hidden").unwrap();
    fs.save_file("/srv/site/content/hidden/a.md", b"draft".to_vec()).unwrap();
    // the request is adopted verbatim; normalization is the caller's
    let h = set_hidden_path(&mut fs, &c, "secret").unwrap();
    assert_eq!(h, "secret");
    assert!(fs.exists_path("/srv/site/content/secret/a.md"));
    assert!(!fs.exists_path("/srv/site/content/hidden/a.md"));
}

#[test]
fn empty_hidden_path_request_draws_random_name() {
    let mut c = hugo();
    c.hidden_path = String::new();
    let mut fs = MemFs::new();
    let h = set_hidden_path(&mut fs, &c, "").unwrap();
    assert_eq!(h.len(), 10);
    assert!(h.chars().all(|ch| ch.is_ascii_alphanumeric()));
}

#[test]
fn config_setter_trims_and_settles_the_hidden_root() {
    let mut store = ConfigStore::new();
    store.load_app_config(AppConfig { ssh_config: ssh(), cms_config: CmsConfig { hugo_config: hugo() } });
    let mut fs = MemFs::new();
    fs.mkdir_recursive("/srv/site/content/hidden").unwrap();
    fs.save_file("/srv/site/content/hidden/a.md", b"draft".to_vec()).unwrap();
    let mut wanted = hugo();
    wanted.hidden_path = String::from(" secret ");
    store
        .set_app_config(&mut fs, AppConfig { ssh_config: ssh(), cms_config: CmsConfig { hugo_config: wanted } })
        .unwrap();
    let now = store.get_hugo_config().unwrap();
    assert_eq!(now.hidden_path, "secret");
    assert!(fs.exists_path("/srv/site/content/secret/a.md"));
    assert!(!fs.exists_path("/srv/site/content/hidden/a.md"));
}

#[test]
fn config_setter_draws_random_name_for_blank_request() {
    let mut store = ConfigStore::new();
    let mut start = hugo();
    start.hidden_path = String::new();
    store.load_app_config(AppConfig { ssh_config: ssh(), cms_config: CmsConfig { hugo_config: start } });
    let mut fs = MemFs::new();
    let mut wanted = hugo();
    wanted.hidden_path = String::from("  ");
    store
        .set_app_config(&mut fs, AppConfig { ssh_config: ssh(), cms_config: CmsConfig { hugo_config: wanted } })
        .unwrap();
    let now = store.get_hugo_config().unwrap();
    assert_eq!(now.hidden_path.len(), 10);
    assert!(now.hidden_path.chars().all(|ch| ch.is_ascii_alphanumeric()));
}

#[test]
fn session_connect_decisions() {
    let alive = SessionState { authenticated: true };
    let dead = SessionState { authenticated: false };
    assert_eq!(connect(&alive, true, false), ConnectAction::Reuse);
    assert_eq!(connect(&alive, true, true), ConnectAction::Reconnect);
    assert_eq!(connect(&alive, false, false), ConnectAction::Reconnect);
    assert_eq!(connect(&dead, true, false), ConnectAction::Reconnect);
    assert!(is_connected(&alive, true));
    assert!(!is_connected(&dead, true));
    assert_eq!(get_file_transfer_handle(true, true), HandleAction::UseCached);
    assert_eq!(get_file_transfer_handle(true, false), HandleAction::ReplaceDead);
    assert_eq!(get_home_path("/home/admin\n"), "/home/admin");
}

#[test]
fn utf8_boundary_splits_incomplete_tail() {
    // a two-byte character cut in half keeps its lead byte for later
    let data = vec![b'a', b'b', 0xC3];
    assert_eq!(find_utf8_boundary(&data), (2, 2));
    // a complete burst passes through whole
    let data2 = vec![b'a', 0xC3, 0xA9];
    assert_eq!(find_utf8_boundary(&data2), (3, 3));
    // plain text passes through whole
    let data3 = vec![b'x', b'y'];
    assert_eq!(find_utf8_boundary(&data3), (2, 2));
    // an empty burst splits trivially
    let data4: Vec<u8> = Vec::new();
    assert_eq!(find_utf8_boundary(&data4), (0, 0));
}

#[test]
fn pty_messages_carry_their_payloads() {
    match write_pty(b"ls\n".to_vec()) {
        PtyMsg::Write(v) => assert_eq!(v, b"ls\n".to_vec()),
        _ => panic!("wrong message"),
    }
    match resize_pty(80, 24) {
        PtyMsg::Resize { cols, rows } => {
            assert_eq!(cols, 80);
            assert_eq!(rows, 24);
        },
        _ => panic!("wrong message"),
    }
    assert!(matches!(stop_pty(), PtyMsg::Stop));
}

#[test]
fn prerequisite_probes_trim_their_outputs() {
    let r = check_prerequisites("/usr/bin/curl\n", "\n", " /bin/git ");
    assert!(r.curl);
    assert!(!r.tar);
    assert!(r.git);
}

#[test]
fn hugo_install_detection() {
    assert_eq!(
        check_hugo_installed("/usr/local/bin/hugo\n", "", ""),
        Some(String::from("/usr/local/bin/hugo"))
    );
    assert_eq!(
        check_hugo_installed("hugo not found\n", "exists\n", "/home/admin\n"),
        Some(String::from("/home/admin/.local/bin/hugo"))
    );
    assert_eq!(check_hugo_installed("", "no\n", "/home/admin\n"), None);
}

#[test]
fn platform_detection_maps_architectures() {
    let (os, arch) = detect_server_platform("Linux\n", "x86_64\n");
    assert_eq!(os, "Linux");
    assert_eq!(arch, "amd64");
    let (_, arch2) = detect_server_platform("Linux\n", "aarch64\n");
    assert_eq!(arch2, "arm64");
    let (_, arch3) = detect_server_platform("Linux\n", "riscv64\n");
    assert_eq!(arch3, "riscv64");
}

#[test]
fn download_url_is_exact() {
    let url = hugo_download_url("Linux", "amd64", "0.125.4");
    assert_eq!(
        url,
        "https://github.com/gohugoio/hugo/releases/download/v0.125.4/hugo_extended_0.125.4_linux-amd64.tar.gz"
    );
    let mac = hugo_download_url("Darwin", "arm64", "0.125.4");
    assert!(mac.ends_with("hugo_extended_0.125.4_darwin-universal.tar.gz"));
}

#[test]
fn version_and_install_decisions() {
    assert_eq!(get_latest_hugo_version(" 0.125.4 \n").unwrap(), "0.125.4");
    assert!(get_latest_hugo_version("  \n").is_err());
    assert_eq!(
        install_hugo("/home/admin\n", "hugo v0.125.4\n").unwrap(),
        "/home/admin/.local/bin/hugo"
    );
    assert!(install_hugo("/home/admin\n", "\n").is_err());
    assert!(create_hugo_site(true).is_ok());
    assert!(create_hugo_site(false).is_err());
}

#[test]
fn site_name_picks_first_free() {
    assert_eq!(site_name_candidate(0), "alpha");
    assert_eq!(site_name_candidate(23), "omega");
    assert_eq!(site_name_candidate(24), "alpha-1");
    let taken = vec![true, true, false, true];
    let (name, path) = generate_site_name("/home/admin", &taken).unwrap();
    assert_eq!(name, "gamma");
    assert_eq!(path, "/home/admin/gamma");
    let all = vec![true, true];
    assert!(generate_site_name("/home/admin", &all).is_err());
}

#[test]
fn theme_append_records_the_theme() {
    let cmd = inncms::setup::theme_append_command("/home/s", "hugo-PaperMod");
    assert_eq!(cmd, "printf '\\ntheme = \"hugo-PaperMod\"\\n' >> /home/s/hugo.toml");
}

#[test]
fn theme_name_comes_from_url() {
    let name = install_theme("https://github.com/user/hugo-PaperMod.git", true).unwrap();
    assert_eq!(name, "hugo-PaperMod");
    assert!(install_theme("https://github.com/user/hugo-PaperMod.git", false).is_err());
    let cmd = install_theme_command("/home/s", "https://x/y.git", "y");
    assert_eq!(cmd, "cd /home/s && git submodule add https://x/y.git themes/y");
    assert_eq!(create_site_command("hugo", "/home/s"), "hugo new site /home/s");
    assert_eq!(git_init_site("/home/s"), "cd /home/s && git init");
}

#[test]
fn project_validation_needs_one_config_file() {
    assert!(validate_hugo_project(&vec![false, false, true]));
    assert!(!validate_hugo_project(&vec![false, false, false]));
}

#[test]
fn plugin_marker_paths_and_commands() {
    assert_eq!(resolve_plugin_dir("/home/admin"), "/home/admin/.inn_plugins");
    assert_eq!(cron_marker("blog", "daily"), "inn-plugin:blog:daily");
    assert!(check_crontab_available("/usr/bin/crontab\nOK\n").is_ok());
    assert!(check_crontab_available("\n").is_err());
    let cmd = register_cron("/home/admin/.inn_plugins", "blog", "0 3 * * *", "run.sh", "daily", "")
        .unwrap();
    assert_eq!(
        cmd,
        "(crontab -l 2>/dev/null | grep -v 'inn-plugin:blog:daily'; echo '0 3 * * * cd /home/admin/.inn_plugins/blog && ./run.sh # inn-plugin:blog:daily') | crontab -"
    );
    let py = register_cron("/d", "b", "* * * * *", "job.py", "l", "/usr/bin/python3\n").unwrap();
    assert!(py.contains("/usr/bin/python3 job.py"));
    assert!(register_cron("/d", "b", "* * * * *", "job.py", "l", " \n").is_err());
    assert!(unregister_single_cron("blog", "daily").contains("inn-plugin:blog:daily"));
    assert!(unregister_cron("blog").contains("grep -v 'inn-plugin:blog'"));
}

#[test]
fn cron_listing_parses_markers() {
    let out = "0 3 * * * cd /x && ./run.sh # inn-plugin:blog:daily\nunrelated line\n* * * * * y # inn-plugin:sync:hourly";
    let markers = list_registered_crons(out);
    assert_eq!(markers, vec![String::from("blog:daily"), String::from("sync:hourly")]);
}

#[test]
fn plugin_markers_on_model_filesystem() {
    let mut fs = MemFs::new();
    // disabling pairs the marker with the crontab rewrite command
    let cron_off = disable_plugin(&mut fs, "/p", "blog").unwrap();
    assert!(fs.exists_path("/p/blog/.disabled"));
    assert_eq!(cron_off, unregister_cron("blog"));
    enable_plugin(&mut fs, "/p", "blog").unwrap();
    assert!(!fs.exists_path("/p/blog/.disabled"));
    fs.save_image("/p/blog/plugin.json", b"{}".to_vec()).unwrap();
    // uninstalling pairs the removal with the same rewrite
    let cron_gone = uninstall_plugin(&mut fs, "/p", "blog").unwrap();
    assert!(!fs.exists_path("/p/blog/plugin.json"));
    assert!(cron_gone.contains("inn-plugin:blog"));
}

fn manifest(name: &str, triggers: Vec<Trigger>) -> PluginManifest {
    PluginManifest {
        name: String::from(name),
        description: String::new(),
        version: String::from("1.0"),
        entry: String::from("run.sh"),
        triggers,
    }
}

#[test]
fn plugin_inventory_merges_local_first() {
    let locals = vec![
        (manifest("alpha-sync", vec![]), String::from("h1")),
        (manifest("beta-sync", vec![]), String::from("h2")),
    ];
    let server = vec![
        (manifest("beta-sync", vec![]), true, String::from("h2")),
        (manifest("gamma-only", vec![]), false, String::from("h3")),
    ];
    let infos = list_all_plugins(locals, server, true);
    assert_eq!(infos.len(), 3);
    assert_eq!(infos[0].manifest.name, "alpha-sync");
    assert!(infos[0].local);
    assert!(!infos[0].installed);
    assert!(infos[1].local);
    assert_eq!(infos[1].manifest.name, "beta-sync");
    assert!(infos[1].installed);
    assert!(infos[1].enabled);
    assert!(infos[1].synced);
    assert_eq!(infos[2].manifest.name, "gamma-only");
    assert!(infos[2].installed);
    assert!(!infos[2].enabled);
    assert!(!infos[2].synced);
}

#[test]
fn hooks_run_in_priority_then_name_order() {
    let server = vec![
        (
            manifest(
                "zeta",
                vec![Trigger::Hook { event: HookEvent::AfterFileSave, priority: Some(10) }],
            ),
            true,
            String::new(),
        ),
        (
            manifest(
                "alpha",
                vec![Trigger::Hook { event: HookEvent::AfterFileSave, priority: None }],
            ),
            true,
            String::new(),
        ),
        (
            manifest(
                "beta",
                vec![Trigger::Hook { event: HookEvent::AfterFileSave, priority: Some(50) }],
            ),
            true,
            String::new(),
        ),
        (
            manifest(
                "disabled",
                vec![Trigger::Hook { event: HookEvent::AfterFileSave, priority: Some(1) }],
            ),
            false,
            String::new(),
        ),
        (
            manifest(
                "other-event",
                vec![Trigger::Hook { event: HookEvent::AfterFileMove, priority: Some(1) }],
            ),
            true,
            String::new(),
        ),
    ];
    let ordered = run_hooks(&server, HookEvent::AfterFileSave);
    let names: Vec<&str> = ordered.iter().map(|t| t.1.as_str()).collect();
    assert_eq!(names, vec!["zeta", "alpha", "beta"]);
    assert_eq!(ordered[0].0, 10);
    assert_eq!(ordered[1].0, 50);
}

#[test]
fn string_helpers_behave() {
    assert_eq!(trim("  x y \n"), "x y");
    assert_eq!(u64_to_string(0), "0");
    assert_eq!(u64_to_string(90210), "90210");
    assert_eq!(to_hex(&vec![0u8, 255, 16]), "00ff10");
    assert_eq!(find_char("a:b", ':', 0), 1);
    assert_eq!(find_char("ab", ':', 0), 2);
}

#[test]
fn plugin_command_escapes_input() {
    let cmd = inncms::plugins::plugin_exec_command("/d", "blog", "run.sh", "{\"a\":\"it's\"}");
    assert_eq!(cmd, "printf '%s' '{\"a\":\"it'\\''s\"}' | /d/blog/run.sh");
    assert_eq!(inncms::plugins::escape_single_quotes("a'b"), "a'\\''b");
}

#[test]
fn plugin_install_and_chmod_commands() {
    let cmd = inncms::plugins::install_plugin_command("/p/blog", "/p/blog.tar.gz");
    assert!(cmd.starts_with("rm -rf '/p/blog' && mkdir -p '/p/blog' && tar -xzf '/p/blog.tar.gz'"));
    assert!(cmd.ends_with("-exec sed -i 's/\\r$//' {} +"));
    assert_eq!(
        inncms::plugins::plugin_chmod_command("/p/blog", "run.sh"),
        "chmod +x /p/blog/run.sh"
    );
}

#[test]
fn hash_lines_combine_deterministically() {
    let lines = vec![String::from("aa  ./f1"), String::from("bb  ./f2")];
    let h1 = inncms::plugins::combine_hash_lines(&lines);
    let h2 = inncms::plugins::combine_hash_lines(&lines);
    assert_eq!(h1, h2);
    assert_eq!(h1.len(), 64);
    let other = vec![String::from("bb  ./f2"), String::from("aa  ./f1")];
    assert_ne!(inncms::plugins::combine_hash_lines(&other), h1);
}

#[test]
fn search_output_parses_and_tags_hidden() {
    let c = hugo();
    let out = "/srv/site/content/blog/a.md:3:some hit\nbad line\n/srv/site/content/hidden/b.md:12:draft hit";
    let matches = inncms::search::search_content(out, &c);
    assert_eq!(matches.len(), 2);
    assert_eq!(matches[0].path, "/srv/site/content/blog/a.md");
    assert_eq!(matches[0].line, 3);
    assert_eq!(matches[0].text, "some hit");
    assert!(!matches[0].hidden);
    assert_eq!(matches[1].path, "/srv/site/content/hidden/b.md");
    assert_eq!(matches[1].line, 12);
    assert_eq!(matches[1].text, "draft hit");
    assert!(matches[1].hidden);
    let cmd = inncms::search::search_command(&c, "it's");
    assert_eq!(cmd, "grep -rn --include='*.md' -e 'it'\\''s' '/srv/site/content'");
}

#[test]
fn plugin_inventory_output_parses_entries() {
    let out = "---ENTRY---\nfalse\nabc123\n{\"name\":\"blog\"}\n---ENTRY---\ntrue\ndef456\n{\"name\":\"sync\"}\n---ENTRY---\n\n";
    let entries = inncms::plugins::parse_plugin_entries(out);
    assert_eq!(entries.len(), 2);
    assert!(entries[0].0);
    assert_eq!(entries[0].1, "abc123");
    assert_eq!(entries[0].2, "{\"name\":\"blog\"}");
    assert!(!entries[1].0);
    assert_eq!(entries[1].1, "def456");
    assert_eq!(entries[1].2, "{\"name\":\"sync\"}");
}

#[test]
fn auth_choice_follows_password_presence() {
    assert_eq!(
        inncms::session::auth_method("SECRET-REDACTED"),
        inncms::session::AuthMethod::Password
    );
    assert_eq!(inncms::session::auth_method(""), inncms::session::AuthMethod::KeyFile);
}

#[test]
fn config_file_candidates_are_the_six_known_names() {
    let names = inncms::setup::hugo_config_file_candidates();
    assert_eq!(
        names,
        vec!["hugo.toml", "config.toml", "hugo.yaml", "config.yaml", "hugo.json", "config.json"]
    );
}

#[test]
fn hidden_path_rename_fails_on_occupied_destination() {
    let c = hugo();
    let mut fs = MemFs::new();
    fs.mkdir_recursive("/srv/site/content/hidden").unwrap();
    fs.mkdir_recursive("/srv/site/content/secret").unwrap();
    let r = set_hidden_path(&mut fs, &c, "secret");
    assert!(r.is_err());
    assert!(fs.exists_path("/srv/site/content/hidden"));
}

#[test]
fn local_only_plugin_is_marked_local() {
    let locals = vec![(manifest("solo-tool", vec![]), String::new())];
    let server: Vec<(inncms::plugins::PluginManifest, bool, String)> = Vec::new();
    let infos = list_all_plugins(locals, server, true);
    assert_eq!(infos.len(), 1);
    assert!(infos[0].local);
    assert!(!infos[0].installed);
}
