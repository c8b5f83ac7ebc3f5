//! Plugin administration decisions: manifests, the merged local/server
//! plugin listing, enable/disable markers, hook ordering and the crontab
//! command lines.  Executing plugins and reading directories is the
//! transport shell's work; every decision about what to run and in which
//! order is made and verified here.

use vstd::prelude::*;
use vstd::multiset::Multiset;
use crate::CmsError;
use crate::fs::{FsEntryV, MemFs, remove_subtree_map};
use crate::strutil::{concat2, concat3, contains, matches_at, str_eq, substring, trim, trim_spec};

verus! {

broadcast use vstd::seq_lib::group_to_multiset_ensures;

/// A plugin's manifest, as its descriptor file declares it.
pub struct PluginManifest {
    pub name: String,
    pub description: String,
    pub version: String,
    pub entry: String,
    pub triggers: Vec<Trigger>,
}

/// How a plugin is invoked.
pub enum Trigger {
    Manual { label: String, input: Vec<InputField>, shortcut: Option<String> },
    Hook { event: HookEvent, priority: Option<u32> },
    Cron { schedule: String, label: String, priority: Option<u32> },
}

/// The lifecycle events a hook plugin can subscribe to.
#[derive(Clone, Copy, Debug, PartialEq, Eq, Structural)]
pub enum HookEvent {
    AfterFileMove,
    AfterFileSave,
    AfterFileDelete,
    AfterFileCreate,
}

/// One declared input of a manually triggered plugin.
pub struct InputField {
    pub name: String,
    pub field_type: String,
    pub label: String,
    pub default: Option<String>,
}

/// A plugin as presented to the client: its manifest and where it stands.
pub struct PluginInfo {
    pub manifest: PluginManifest,
    pub local: bool,
    pub installed: bool,
    pub enabled: bool,
    pub synced: bool,
}

/// What a plugin run reported.
pub struct PluginResult {
    pub success: bool,
    pub message: Option<String>,
    pub error: Option<String>,
    pub actions: Vec<PluginAction>,
}

/// A client action a plugin may request.
pub enum PluginAction {
    RefreshTree,
    Toast { message: String, toast_type: String },
    OpenFile { path: String },
    ShowResult { title: String, body: String },
}

/// The plugin directory under the remote user's home.
pub fn resolve_plugin_dir(home: &str) -> (r: String)
    ensures
        r@ == home@ + "/.inn_plugins"@,
{
    concat2(home, "/.inn_plugins")
}

/// The disable-marker path of a plugin.
pub fn disabled_marker_path(plugin_dir: &str, name: &str) -> (r: String)
    ensures
        r@ == plugin_dir@ + "/"@ + name@ + "/.disabled"@,
{
    let a = concat3(plugin_dir, "/", name);
    let r = concat2(a.as_str(), "/.disabled");
    proof {
        assert(r@ =~= plugin_dir@ + "/"@ + name@ + "/.disabled"@);
    }
    r
}

/// Enable a plugin: drop its disable marker; a missing marker is fine.
pub fn enable_plugin(fs: &mut MemFs, plugin_dir: &str, name: &str) -> (r: Result<(), CmsError>)
    requires
        old(fs).wf(),
    ensures
        final(fs).wf(),
        r is Ok,
        ({
            let marker = plugin_dir@ + "/"@ + name@ + "/.disabled"@;
            if old(fs)@.dom().contains(marker) {
                final(fs)@ == remove_subtree_map(old(fs)@, marker)
            } else {
                final(fs)@ == old(fs)@
            }
        }),
{
    let marker = disabled_marker_path(plugin_dir, name);
    if fs.exists_path(marker.as_str()) {
        match fs.rmrf_file(marker.as_str()) {
            Ok(()) => Ok(()),
            Err(_) => Ok(()),
        }
    } else {
        Ok(())
    }
}

/// Disable a plugin: create its disable marker (empty file).  Disabling
/// also unhooks the plugin's schedule: success hands back the crontab
/// rewrite command that drops its entries, for the shell to run.
pub fn disable_plugin(fs: &mut MemFs, plugin_dir: &str, name: &str) -> (r: Result<
    String,
    CmsError,
>)
    requires
        old(fs).wf(),
    ensures
        final(fs).wf(),
        ({
            let marker = plugin_dir@ + "/"@ + name@ + "/.disabled"@;
            match r {
                Ok(cron_cmd) => final(fs)@ == old(fs)@.insert(
                    marker,
                    FsEntryV::File(Seq::empty()),
                ) && cron_cmd@ == "crontab -l 2>/dev/null | grep -v '"@ + ("inn-plugin:"@ + name@)
                    + "' | crontab -"@,
                Err(e) => final(fs)@ == old(fs)@ && e == CmsError::RemoteIo && old(
                    fs,
                )@.dom().contains(marker) && old(fs)@[marker] is Dir,
            }
        }),
{
    let marker = disabled_marker_path(plugin_dir, name);
    let empty: Vec<u8> = Vec::new();
    proof {
        assert(empty@ =~= Seq::<u8>::empty());
    }
    match fs.save_file(marker.as_str(), empty) {
        Ok(()) => Ok(unregister_cron(name)),
        Err(e) => Err(e),
    }
}

/// Uninstall a plugin: remove its whole directory.  Uninstalling also
/// unhooks the plugin's schedule: success hands back the crontab rewrite
/// command that drops its entries, for the shell to run.
pub fn uninstall_plugin(fs: &mut MemFs, plugin_dir: &str, name: &str) -> (r: Result<
    String,
    CmsError,
>)
    requires
        old(fs).wf(),
    ensures
        final(fs).wf(),
        ({
            let dir = plugin_dir@ + "/"@ + name@;
            match r {
                Ok(cron_cmd) => final(fs)@ == remove_subtree_map(old(fs)@, dir) && cron_cmd@
                    == "crontab -l 2>/dev/null | grep -v '"@ + ("inn-plugin:"@ + name@)
                    + "' | crontab -"@,
                Err(e) => final(fs)@ == old(fs)@ && e == CmsError::NotFound && !old(
                    fs,
                )@.dom().contains(dir),
            }
        }),
{
    let dir = concat3(plugin_dir, "/", name);
    match fs.rmrf_file(dir.as_str()) {
        Ok(()) => Ok(unregister_cron(name)),
        Err(e) => Err(e),
    }
}

/// Interpret the crontab probe: the scheduler is available exactly when
/// the probe printed its confirmation token.
pub fn check_crontab_available(output: &str) -> (r: Result<(), CmsError>)
    ensures
        r is Ok <==> exists|i: int| matches_at(output@, "OK"@, i),
        r is Err ==> r == Err::<(), CmsError>(CmsError::RemoteIo),
{
    if contains(output, "OK") {
        Ok(())
    } else {
        Err(CmsError::RemoteIo)
    }
}

/// The marker comment that tags this plugin's cron entries.
pub fn cron_marker(name: &str, label: &str) -> (r: String)
    ensures
        r@ == "inn-plugin:"@ + name@ + ":"@ + label@,
{
    let a = concat3("inn-plugin:", name, ":");
    concat2(a.as_str(), label)
}

/// The crontab line and rewrite command that register one scheduled run of
/// a plugin.  For a script entry the resolved interpreter path runs it;
/// `python_path` must then be nonempty, as the caller learned it from the
/// interpreter probe.
pub fn register_cron(
    plugin_dir: &str,
    name: &str,
    schedule: &str,
    entry: &str,
    label: &str,
    python_path: &str,
) -> (r: Result<String, CmsError>)
    ensures
        ({
            let run_cmd = if ".py"@.is_suffix_of(entry@) {
                trim_spec(python_path@) + " "@ + entry@
            } else {
                "./"@ + entry@
            };
            let marker = "inn-plugin:"@ + name@ + ":"@ + label@;
            let job = schedule@ + " cd "@ + plugin_dir@ + "/"@ + name@ + " && "@ + run_cmd + " # "@
                + marker;
            match r {
                Ok(cmd) => cmd@ == "(crontab -l 2>/dev/null | grep -v '"@ + marker + "'; echo '"@
                    + job + "') | crontab -"@ && (".py"@.is_suffix_of(entry@) ==> trim_spec(
                    python_path@,
                ).len() != 0),
                Err(e) => e == CmsError::NotFound && ".py"@.is_suffix_of(entry@) && trim_spec(
                    python_path@,
                ).len() == 0,
            }
        }),
{
    let run_cmd: String = if crate::strutil::has_suffix(entry, ".py") {
        let py = trim(python_path);
        if py.as_str().unicode_len() == 0 {
            return Err(CmsError::NotFound);
        }
        concat3(py.as_str(), " ", entry)
    } else {
        concat2("./", entry)
    };
    let marker = cron_marker(name, label);
    let job = {
        let a = concat3(schedule, " cd ", plugin_dir);
        let b = concat3(a.as_str(), "/", name);
        let c = concat3(b.as_str(), " && ", run_cmd.as_str());
        let d = concat3(c.as_str(), " # ", marker.as_str());
        d
    };
    let cmd = {
        let a = concat3("(crontab -l 2>/dev/null | grep -v '", marker.as_str(), "'; echo '");
        let b = concat3(a.as_str(), job.as_str(), "') | crontab -");
        b
    };
    proof {
        let run_cmd_s = if ".py"@.is_suffix_of(entry@) {
            trim_spec(python_path@) + " "@ + entry@
        } else {
            "./"@ + entry@
        };
        let marker_s = "inn-plugin:"@ + name@ + ":"@ + label@;
        let job_s = schedule@ + " cd "@ + plugin_dir@ + "/"@ + name@ + " && "@ + run_cmd_s + " # "@
            + marker_s;
        assert(run_cmd@ =~= run_cmd_s);
        assert(job@ =~= job_s);
        assert(cmd@ =~= "(crontab -l 2>/dev/null | grep -v '"@ + marker_s + "'; echo '"@ + job_s
            + "') | crontab -"@);
    }
    Ok(cmd)
}

/// The crontab rewrite command that removes one labelled entry.
pub fn unregister_single_cron(name: &str, label: &str) -> (r: String)
    ensures
        r@ == "crontab -l 2>/dev/null | grep -v '"@ + ("inn-plugin:"@ + name@ + ":"@ + label@)
            + "' | crontab -"@,
{
    let marker = cron_marker(name, label);
    let r = concat3("crontab -l 2>/dev/null | grep -v '", marker.as_str(), "' | crontab -");
    proof {
        assert(r@ =~= "crontab -l 2>/dev/null | grep -v '"@ + ("inn-plugin:"@ + name@ + ":"@
            + label@) + "' | crontab -"@);
    }
    r
}

/// The crontab rewrite command that removes every entry of a plugin.
pub fn unregister_cron(name: &str) -> (r: String)
    ensures
        r@ == "crontab -l 2>/dev/null | grep -v '"@ + ("inn-plugin:"@ + name@) + "' | crontab -"@,
{
    let marker = concat2("inn-plugin:", name);
    let r = concat3("crontab -l 2>/dev/null | grep -v '", marker.as_str(), "' | crontab -");
    proof {
        assert(r@ =~= "crontab -l 2>/dev/null | grep -v '"@ + ("inn-plugin:"@ + name@)
            + "' | crontab -"@);
    }
    r
}

/// The cron markers found in a crontab listing: for each line carrying the
/// plugin tag, the trimmed text after the tag, when nonempty.
pub open spec fn crons_from(s: Seq<char>, i: int) -> Seq<Seq<char>>
    decreases s.len() - i,
{
    if i < 0 || i >= s.len() {
        Seq::empty()
    } else {
        let e = crate::strutil::first_char_from(s, '\n', i);
        proof {
            crate::strutil::lemma_first_char_bounds(s, '\n', i);
        }
        let line = s.subrange(i, e);
        let rest = if e + 1 < s.len() {
            crons_from(s, e + 1)
        } else {
            Seq::empty()
        };
        let m = crate::strutil::first_match_from(line, "inn-plugin:"@, 0);
        if m == line.len() {
            rest
        } else {
            let marker = trim_spec(line.skip(m + "inn-plugin:"@.len()));
            if marker.len() > 0 {
                seq![marker] + rest
            } else {
                rest
            }
        }
    }
}

/// The views of a vector of strings.
pub open spec fn string_views(v: Seq<String>) -> Seq<Seq<char>> {
    v.map_values(|x: String| x@)
}

/// Parse a crontab listing into the registered plugin markers, one per
/// tagged line, in listing order.
pub fn list_registered_crons(output: &str) -> (r: Vec<String>)
    ensures
        string_views(r@) == crons_from(output@, 0),
{
    proof {
        reveal_strlit("inn-plugin:");
    }
    let n = output.unicode_len();
    let mut acc: Vec<String> = Vec::new();
    let mut i: usize = 0;
    while i < n
        invariant
            0 <= i <= n + 1,
            n == output@.len(),
            string_views(acc@) + crons_from(output@, i as int) == crons_from(output@, 0),
        decreases n - i,
    {
        proof {
            reveal_strlit("inn-plugin:");
        }
        let e = crate::strutil::find_char(output, '\n', i);
        let line = crate::strutil::substring(output, i, e);
        let m = crate::strutil::find_at(line.as_str(), "inn-plugin:", 0);
        let ghost pre = acc@;
        proof {
            crate::strutil::lemma_first_match_props(line@, "inn-plugin:"@, 0);
        }
        if m < line.as_str().unicode_len() {
            proof {
                assert("inn-plugin:"@.len() == 11);
                assert(matches_at(line@, "inn-plugin:"@, m as int));
                assert(m + 11 <= line@.len());
            }
            let marker = trim(
                crate::strutil::substring(line.as_str(), m + 11, line.as_str().unicode_len())
                    .as_str(),
            );
            proof {
                assert(line@.subrange(m + 11, line@.len() as int) =~= line@.skip(m + 11));
            }
            if marker.as_str().unicode_len() > 0 {
                acc.push(marker);
                proof {
                    assert(string_views(acc@) =~= string_views(pre).push(
                        trim_spec(line@.skip(m + 11)),
                    ));
                    assert(string_views(pre).push(trim_spec(line@.skip(m + 11))) + crons_from(
                        output@,
                        e + 1,
                    ) =~= string_views(pre) + (seq![trim_spec(line@.skip(m + 11))] + crons_from(
                        output@,
                        e + 1,
                    )));
                }
            }
        }
        if e < n {
            i = e + 1;
        } else {
            i = n;
        }
    }
    proof {
        assert(crons_from(output@, i as int) =~= Seq::<Seq<char>>::empty());
        assert(string_views(acc@) =~= string_views(acc@) + Seq::<Seq<char>>::empty());
    }
    acc
}

/// One parsed inventory record: the plugin's enabled state (no disable
/// marker), its content hash, and its manifest text.
pub open spec fn entry_of(chunk: Seq<char>) -> Option<(bool, Seq<char>, Seq<char>)> {
    let t = trim_spec(chunk);
    if t.len() == 0 {
        None
    } else {
        let c1 = crate::strutil::first_char_from(t, '\n', 0);
        if c1 == t.len() {
            None
        } else {
            let c2 = crate::strutil::first_char_from(t, '\n', c1 + 1);
            if c2 == t.len() {
                None
            } else {
                let json = trim_spec(t.skip(c2 + 1));
                if json.len() == 0 {
                    None
                } else {
                    Some((trim_spec(t.take(c1)) != "true"@, trim_spec(t.subrange(c1 + 1, c2)), json))
                }
            }
        }
    }
}

/// The inventory records in the listing output from position `i` on: one
/// record per chunk between the entry markers.
pub open spec fn entries_from(s: Seq<char>, i: int) -> Seq<(bool, Seq<char>, Seq<char>)>
    decreases s.len() - i,
{
    if i < 0 || i > s.len() {
        Seq::empty()
    } else {
        let m = crate::strutil::first_match_from(s, "---ENTRY---"@, i);
        proof {
            crate::strutil::lemma_first_match_props(s, "---ENTRY---"@, i);
        }
        let chunk = s.subrange(i, m);
        let rest = if m < s.len() && m + "---ENTRY---"@.len() <= s.len() && i < m
            + "---ENTRY---"@.len() {
            entries_from(s, m + "---ENTRY---"@.len())
        } else {
            Seq::empty()
        };
        match entry_of(chunk) {
            Option::Some(e) => seq![e] + rest,
            Option::None => rest,
        }
    }
}

/// The views of parsed inventory records.
pub open spec fn entry_views(v: Seq<(bool, String, String)>) -> Seq<(bool, Seq<char>, Seq<char>)> {
    v.map_values(|e: (bool, String, String)| (e.0, e.1@, e.2@))
}

/// Parse the plugin listing output: between the entry markers, each chunk
/// of the shape `disabled / hash / manifest text` becomes one record.
#[verifier::loop_isolation(false)]
pub fn parse_plugin_entries(output: &str) -> (r: Vec<(bool, String, String)>)
    ensures
        entry_views(r@) == entries_from(output@, 0),
{
    proof {
        reveal_strlit("---ENTRY---");
        reveal_strlit("true");
    }
    let n = output.unicode_len();
    let mut acc: Vec<(bool, String, String)> = Vec::new();
    let mut i: usize = 0;
    let mut more = true;
    while more
        invariant
            0 <= i <= n,
            n == output@.len(),
            more ==> entry_views(acc@) + entries_from(output@, i as int) == entries_from(
                output@,
                0,
            ),
            !more ==> entry_views(acc@) == entries_from(output@, 0),
        decreases n - i + (if more { 1int } else { 0int }),
    {
        let m = crate::strutil::find_at(output, "---ENTRY---", i);
        proof {
            crate::strutil::lemma_first_match_props(output@, "---ENTRY---"@, i as int);
        }
        let chunk = substring(output, i, m);
        let ghost pre = acc@;
        let t = trim(chunk.as_str());
        let tn = t.as_str().unicode_len();
        if tn > 0 {
            let c1 = crate::strutil::find_char(t.as_str(), '\n', 0);
            if c1 < tn {
                let c2 = crate::strutil::find_char(t.as_str(), '\n', c1 + 1);
                if c2 < tn {
                    let json = trim(substring(t.as_str(), c2 + 1, tn).as_str());
                    proof {
                        assert(t@.subrange(c2 + 1, tn as int) =~= t@.skip(c2 + 1));
                    }
                    if json.as_str().unicode_len() > 0 {
                        let disabled = trim(substring(t.as_str(), 0, c1).as_str());
                        let hash = trim(substring(t.as_str(), c1 + 1, c2).as_str());
                        proof {
                            assert(t@.subrange(0, c1 as int) =~= t@.take(c1 as int));
                        }
                        let enabled = !str_eq(disabled.as_str(), "true");
                        acc.push((enabled, hash, json));
                        proof {
                            assert(entry_views(acc@) =~= entry_views(pre).push(
                                entries_from(output@, i as int)[0],
                            ));
                        }
                    }
                }
            }
        }
        proof {
            if entry_of(output@.subrange(i as int, m as int)) is None {
                assert(acc@ == pre);
            }
        }
        if m < n && n - m >= 11 && i < m + 11 {
            i = m + 11;
        } else {
            more = false;
            proof {
                assert(entries_from(output@, i as int) =~= (match entry_of(
                    output@.subrange(i as int, m as int),
                ) {
                    Option::Some(e) => seq![e],
                    Option::None => Seq::<(bool, Seq<char>, Seq<char>)>::empty(),
                }));
                assert(entry_views(acc@) =~= entries_from(output@, 0));
            }
        }
    }
    acc
}

/// The position of the first server-side plugin named `name`, or a
/// negative number.
pub open spec fn find_by_name(server: Seq<(PluginManifest, bool, String)>, name: Seq<char>) -> int
    decreases server.len(),
{
    if server.len() == 0 {
        -1
    } else if server[0].0.name@ == name {
        0
    } else {
        let r = find_by_name(server.drop_first(), name);
        if r < 0 {
            -1
        } else {
            r + 1
        }
    }
}

proof fn lemma_find_by_name_first(
    server: Seq<(PluginManifest, bool, String)>,
    name: Seq<char>,
    i: int,
)
    requires
        0 <= i <= server.len(),
        forall|j: int| 0 <= j < i ==> (#[trigger] server[j]).0.name@ != name,
        i < server.len() ==> server[i].0.name@ == name,
    ensures
        find_by_name(server, name) == if i < server.len() {
            i
        } else {
            -1int
        },
    decreases i,
{
    if server.len() > 0 {
        if i == 0 {
        } else {
            assert(server[0].0.name@ != name);
            lemma_find_by_name_first(server.drop_first(), name, i - 1);
            assert(forall|j: int|
                0 <= j < server.drop_first().len() ==> server.drop_first()[j] == server[j + 1]);
        }
    }
}

/// Scan the server plugins for one named `name`.
fn find_server_by_name(server: &Vec<(PluginManifest, bool, String)>, name: &str) -> (r: Option<
    usize,
>)
    ensures
        match r {
            Some(i) => i < server@.len() && find_by_name(server@, name@) == i as int,
            None => find_by_name(server@, name@) < 0,
        },
{
    let n = server.len();
    let mut i: usize = 0;
    while i < n
        invariant
            0 <= i <= n,
            n == server@.len(),
            forall|j: int| 0 <= j < i ==> (#[trigger] server@[j]).0.name@ != name@,
        decreases n - i,
    {
        if str_eq(server[i].0.name.as_str(), name) {
            proof {
                lemma_find_by_name_first(server@, name@, i as int);
            }
            return Some(i);
        }
        i += 1;
    }
    proof {
        lemma_find_by_name_first(server@, name@, n as int);
    }
    None
}

/// The listing entry of one locally present plugin.
pub open spec fn local_info(
    l: (PluginManifest, String),
    server: Seq<(PluginManifest, bool, String)>,
) -> PluginInfo {
    let j = find_by_name(server, l.0.name@);
    if j >= 0 {
        PluginInfo {
            manifest: l.0,
            local: true,
            installed: true,
            enabled: server[j].1,
            synced: l.1@.len() > 0 && server[j].2@.len() > 0 && l.1@ == server[j].2@,
        }
    } else {
        PluginInfo { manifest: l.0, local: true, installed: false, enabled: false, synced: false }
    }
}

/// True when some local plugin carries `name`.
pub open spec fn name_in_locals(name: Seq<char>, locals: Seq<(PluginManifest, String)>) -> bool {
    exists|i: int| 0 <= i < locals.len() && (#[trigger] locals[i]).0.name@ == name
}

/// The listing entries of the plugins only the server has, in server
/// order.
pub open spec fn server_only_infos(
    server: Seq<(PluginManifest, bool, String)>,
    locals: Seq<(PluginManifest, String)>,
    has_local_path: bool,
) -> Seq<PluginInfo>
    decreases server.len(),
{
    if server.len() == 0 {
        Seq::empty()
    } else {
        let rest = server_only_infos(server.drop_first(), locals, has_local_path);
        if !name_in_locals(server[0].0.name@, locals) {
            seq![
                PluginInfo {
                    manifest: server[0].0,
                    local: false,
                    installed: true,
                    enabled: server[0].1,
                    synced: !has_local_path,
                },
            ] + rest
        } else {
            rest
        }
    }
}

/// The entries of every locally present plugin, in local order.
pub open spec fn local_infos(
    locals: Seq<(PluginManifest, String)>,
    server: Seq<(PluginManifest, bool, String)>,
) -> Seq<PluginInfo> {
    Seq::new(locals.len(), |i: int| local_info(locals[i], server))
}

/// Merge the local and server plugin inventories into one listing: every
/// local plugin first, in local order, marked installed and synced against
/// its server counterpart; then every plugin only the server has, in
/// server order.  A plugin is synced when both content hashes are known
/// and equal; with no local inventory configured, server-only plugins
/// count as synced.
pub fn list_all_plugins(
    locals: Vec<(PluginManifest, String)>,
    server: Vec<(PluginManifest, bool, String)>,
    has_local_path: bool,
) -> (r: Vec<PluginInfo>)
    ensures
        r@ == local_infos(locals@, server@) + server_only_infos(server@, locals@, has_local_path),
{
    let ghost locals0 = locals@;
    let ghost server0 = server@;
    // the local names survive the first phase, which consumes the inventory
    let mut local_names: Vec<String> = Vec::new();
    let mut li: usize = 0;
    while li < locals.len()
        invariant
            0 <= li <= locals@.len(),
            locals@ == locals0,
            local_names@.len() == li,
            forall|j: int| 0 <= j < li ==> (#[trigger] local_names@[j])@ == locals0[j].0.name@,
        decreases locals@.len() - li,
    {
        local_names.push(crate::tree::clone_node_name(&locals[li].0.name));
        li += 1;
    }
    let mut r: Vec<PluginInfo> = Vec::new();
    let mut rest = locals;
    while rest.len() > 0
        invariant
            r@.len() + rest@.len() == locals0.len(),
            forall|j: int|
                0 <= j < rest@.len() ==> rest@[j] == locals0[r@.len() + j],
            forall|j: int| 0 <= j < r@.len() ==> r@[j] == local_info(locals0[j], server0),
            server@ == server0,
        decreases rest@.len(),
    {
        let ghost done: int = r@.len() as int;
        let (manifest, local_hash) = rest.remove(0);
        assert((manifest, local_hash) == locals0[done]);
        let entry = match find_server_by_name(&server, manifest.name.as_str()) {
            Some(j) => {
                let enabled = server[j].1;
                let synced = local_hash.as_str().unicode_len() > 0 && server[j].2.as_str()
                    .unicode_len() > 0 && str_eq(local_hash.as_str(), server[j].2.as_str());
                PluginInfo { manifest, local: true, installed: true, enabled, synced }
            },
            None => PluginInfo {
                manifest,
                local: true,
                installed: false,
                enabled: false,
                synced: false,
            },
        };
        r.push(entry);
        proof {
            assert(r@[done] == local_info(locals0[done], server0));
        }
    }
    proof {
        assert(r@ =~= local_infos(locals0, server0));
    }
    let mut srest = server;
    while srest.len() > 0
        invariant
            forall|j: int|
                0 <= j < srest@.len() ==> srest@[j] == server0[server0.len() - srest@.len() + j],
            local_names@.len() == locals0.len(),
            forall|j: int|
                0 <= j < locals0.len() ==> (#[trigger] local_names@[j])@ == locals0[j].0.name@,
            r@ + server_only_infos(srest@, locals0, has_local_path) == local_infos(
                locals0,
                server0,
            ) + server_only_infos(server0, locals0, has_local_path),
        decreases srest@.len(),
    {
        let ghost pre_srest = srest@;
        let ghost pre_r = r@;
        let (manifest, enabled, _hash) = srest.remove(0);
        proof {
            assert((manifest, enabled, _hash) == pre_srest[0]);
            assert(pre_srest.drop_first() =~= srest@);
        }
        let is_local = name_among(&local_names, manifest.name.as_str(), Ghost(locals0));
        if !is_local {
            let info = PluginInfo {
                manifest,
                local: false,
                installed: true,
                enabled,
                synced: !has_local_path,
            };
            r.push(info);
            proof {
                assert(seq![r@.last()] + server_only_infos(srest@, locals0, has_local_path)
                    =~= server_only_infos(pre_srest, locals0, has_local_path));
                assert(r@ + server_only_infos(srest@, locals0, has_local_path) =~= pre_r + (seq![
                    r@.last(),
                ] + server_only_infos(srest@, locals0, has_local_path)));
            }
        } else {
            proof {
                assert(server_only_infos(pre_srest, locals0, has_local_path)
                    =~= server_only_infos(srest@, locals0, has_local_path));
            }
        }
    }
    proof {
        assert(server_only_infos(srest@, locals0, has_local_path) =~= Seq::<PluginInfo>::empty());
        assert(r@ =~= r@ + Seq::<PluginInfo>::empty());
    }
    r
}

/// Lexicographic order on character sequences, by scalar value.
pub open spec fn chars_le(a: Seq<char>, b: Seq<char>) -> bool
    decreases a.len(),
{
    if a.len() == 0 {
        true
    } else if b.len() == 0 {
        false
    } else if a[0] != b[0] {
        (a[0] as u32) < (b[0] as u32)
    } else {
        chars_le(a.drop_first(), b.drop_first())
    }
}

proof fn lemma_chars_le_total(a: Seq<char>, b: Seq<char>)
    ensures
        chars_le(a, b) || chars_le(b, a),
    decreases a.len(),
{
    if a.len() > 0 && b.len() > 0 {
        if a[0] == b[0] {
            lemma_chars_le_total(a.drop_first(), b.drop_first());
        } else {
            vstd::utf8::char_u32_cast(a[0], a[0] as u32);
            vstd::utf8::char_u32_cast(b[0], b[0] as u32);
        }
    }
}

proof fn lemma_chars_le_trans(a: Seq<char>, b: Seq<char>, c: Seq<char>)
    requires
        chars_le(a, b),
        chars_le(b, c),
    ensures
        chars_le(a, c),
    decreases a.len(),
{
    if a.len() > 0 && b.len() > 0 && c.len() > 0 && a[0] == b[0] && b[0] == c[0] {
        lemma_chars_le_trans(a.drop_first(), b.drop_first(), c.drop_first());
    }
}

/// One hook to run: priority, plugin name, entry script.
pub open spec fn hook_le(a: (u32, Seq<char>, Seq<char>), b: (u32, Seq<char>, Seq<char>)) -> bool {
    a.0 < b.0 || (a.0 == b.0 && chars_le(a.1, b.1))
}

proof fn lemma_hook_le_total(a: (u32, Seq<char>, Seq<char>), b: (u32, Seq<char>, Seq<char>))
    ensures
        hook_le(a, b) || hook_le(b, a),
{
    lemma_chars_le_total(a.1, b.1);
}

proof fn lemma_hook_le_trans(
    a: (u32, Seq<char>, Seq<char>),
    b: (u32, Seq<char>, Seq<char>),
    c: (u32, Seq<char>, Seq<char>),
)
    requires
        hook_le(a, b),
        hook_le(b, c),
    ensures
        hook_le(a, c),
{
    if a.0 == b.0 && b.0 == c.0 {
        lemma_chars_le_trans(a.1, b.1, c.1);
    }
}

/// Nondecreasing by priority, then by plugin name.
pub open spec fn sorted_by_hook(s: Seq<(u32, Seq<char>, Seq<char>)>) -> bool {
    forall|i: int, j: int| 0 <= i < j < s.len() ==> hook_le(#[trigger] s[i], #[trigger] s[j])
}

/// The views of the collected hook triples.
pub open spec fn hook_views(v: Seq<(u32, String, String)>) -> Seq<(u32, Seq<char>, Seq<char>)> {
    v.map_values(|t: (u32, String, String)| (t.0, t.1@, t.2@))
}

/// The hooks of one plugin subscribed to `e`, from trigger `j` on, in
/// declaration order; an unstated priority counts as 50.
pub open spec fn hooks_of(p: PluginManifest, e: HookEvent, j: int) -> Seq<
    (u32, Seq<char>, Seq<char>),
>
    decreases p.triggers@.len() - j,
{
    if j < 0 || j >= p.triggers@.len() {
        Seq::empty()
    } else {
        let rest = hooks_of(p, e, j + 1);
        match p.triggers@[j] {
            Trigger::Hook { event, priority } => {
                if event == e {
                    seq![
                        (
                            match priority {
                                Option::Some(x) => x,
                                Option::None => 50u32,
                            },
                            p.name@,
                            p.entry@,
                        ),
                    ] + rest
                } else {
                    rest
                }
            },
            _ => rest,
        }
    }
}

/// The hooks of every enabled plugin subscribed to `e`, from plugin `i`
/// on, in inventory order.
pub open spec fn matched_from(
    server: Seq<(PluginManifest, bool, String)>,
    e: HookEvent,
    i: int,
) -> Seq<(u32, Seq<char>, Seq<char>)>
    decreases server.len() - i,
{
    if i < 0 || i >= server.len() {
        Seq::empty()
    } else {
        (if server[i].1 {
            hooks_of(server[i].0, e, 0)
        } else {
            Seq::empty()
        }) + matched_from(server, e, i + 1)
    }
}

/// Executable order test on two collected hooks.
fn hook_le_exec(a: &(u32, String, String), b: &(u32, String, String)) -> (r: bool)
    ensures
        r == hook_le((a.0, a.1@, a.2@), (b.0, b.1@, b.2@)),
{
    if a.0 < b.0 {
        true
    } else if a.0 == b.0 {
        chars_le_exec(a.1.as_str(), b.1.as_str())
    } else {
        false
    }
}

/// Executable lexicographic comparison.
fn chars_le_exec(a: &str, b: &str) -> (r: bool)
    ensures
        r == chars_le(a@, b@),
{
    let an = a.unicode_len();
    let bn = b.unicode_len();
    proof {
        assert(a@.skip(0) =~= a@);
        assert(b@.skip(0) =~= b@);
    }
    let mut i: usize = 0;
    while i < an && i < bn && a.get_char(i) == b.get_char(i)
        invariant
            0 <= i <= an,
            i <= bn,
            an == a@.len(),
            bn == b@.len(),
            forall|j: int| 0 <= j < i ==> a@[j] == b@[j],
            chars_le(a@, b@) == chars_le(a@.skip(i as int), b@.skip(i as int)),
        decreases an - i,
    {
        proof {
            assert(a@.skip(i as int).drop_first() =~= a@.skip(i + 1));
            assert(b@.skip(i as int).drop_first() =~= b@.skip(i + 1));
        }
        i += 1;
    }
    if i >= an {
        proof {
            assert(a@.skip(i as int).len() == 0);
        }
        true
    } else if i >= bn {
        proof {
            assert(b@.skip(i as int).len() == 0);
            assert(a@.skip(i as int).len() > 0);
        }
        false
    } else {
        let ca = a.get_char(i);
        let cb = b.get_char(i);
        proof {
            assert(a@.skip(i as int)[0] == a@[i as int]);
            assert(b@.skip(i as int)[0] == b@[i as int]);
        }
        (ca as u32) < (cb as u32)
    }
}

/// The hooks to run for a lifecycle event: every hook of an enabled
/// plugin subscribed to it, ordered by ascending priority and then by
/// plugin name.
pub fn run_hooks(server: &Vec<(PluginManifest, bool, String)>, event: HookEvent) -> (r: Vec<
    (u32, String, String),
>)
    ensures
        sorted_by_hook(hook_views(r@)),
        hook_views(r@).to_multiset() == matched_from(server@, event, 0).to_multiset(),
{
    let n = server.len();
    let mut acc: Vec<(u32, String, String)> = Vec::new();
    let mut i: usize = 0;
    while i < n
        invariant
            0 <= i <= n,
            n == server@.len(),
            hook_views(acc@) + matched_from(server@, event, i as int) == matched_from(
                server@,
                event,
                0,
            ),
        decreases n - i,
    {
        let enabled = server[i].1;
        if enabled {
            let tn = server[i].0.triggers.len();
            let mut j: usize = 0;
            while j < tn
                invariant
                    0 <= j <= tn,
                    0 <= i < n,
                    n == server@.len(),
                    tn == server@[i as int].0.triggers@.len(),
                    server@[i as int].1,
                    hook_views(acc@) + hooks_of(server@[i as int].0, event, j as int)
                        + matched_from(server@, event, i + 1) == matched_from(server@, event, 0),
                decreases tn - j,
            {
                let ghost pre = acc@;
                match &server[i].0.triggers[j] {
                    Trigger::Hook { event: ev, priority } => {
                        if *ev == event {
                            let pri: u32 = match priority {
                                Some(x) => *x,
                                None => 50u32,
                            };
                            let name = crate::tree::clone_node_name(&server[i].0.name);
                            let entry = crate::tree::clone_node_name(&server[i].0.entry);
                            acc.push((pri, name, entry));
                            proof {
                                assert(hook_views(acc@) =~= hook_views(pre).push(
                                    (pri, server@[i as int].0.name@, server@[i as int].0.entry@),
                                ));
                                assert(hook_views(pre).push(
                                    (pri, server@[i as int].0.name@, server@[i as int].0.entry@),
                                ) + hooks_of(server@[i as int].0, event, j + 1) + matched_from(
                                    server@,
                                    event,
                                    i + 1,
                                ) =~= hook_views(pre) + hooks_of(server@[i as int].0, event, j as int)
                                    + matched_from(server@, event, i + 1));
                            }
                        }
                    },
                    _ => {},
                }
                j += 1;
            }
        }
        i += 1;
    }
    proof {
        assert(matched_from(server@, event, i as int) =~= Seq::<(u32, Seq<char>, Seq<char>)>::empty());
        assert(hook_views(acc@) =~= hook_views(acc@) + Seq::<(u32, Seq<char>, Seq<char>)>::empty());
    }
    // order by ascending priority, then plugin name
    let mut sorted: Vec<(u32, String, String)> = Vec::new();
    let mut rest = acc;
    while rest.len() > 0
        invariant
            sorted_by_hook(hook_views(sorted@)),
            hook_views(sorted@).to_multiset().add(hook_views(rest@).to_multiset()) == matched_from(
                server@,
                event,
                0,
            ).to_multiset(),
        decreases rest@.len(),
    {
        let ghost pre_rest = rest@;
        let item = rest.remove(0);
        proof {
            assert(pre_rest.drop_first() =~= rest@);
            assert(hook_views(pre_rest).drop_first() =~= hook_views(rest@));
            assert(hook_views(pre_rest)[0] == (item.0, item.1@, item.2@));
        }
        let ghost itemv = (item.0, item.1@, item.2@);
        let m = sorted.len();
        let mut p: usize = 0;
        while p < m && hook_le_exec(&sorted[p], &item)
            invariant
                0 <= p <= m,
                m == sorted@.len(),
                forall|x: int| 0 <= x < p ==> hook_le(#[trigger] hook_views(sorted@)[x], itemv),
                itemv == (item.0, item.1@, item.2@),
            decreases m - p,
        {
            proof {
                assert(hook_views(sorted@)[p as int] == (sorted@[p as int].0, sorted@[
                p as int].1@, sorted@[p as int].2@));
            }
            p += 1;
        }
        let ghost pre_sorted = sorted@;
        sorted.insert(p, item);
        proof {
            let sv = hook_views(pre_sorted);
            let sv2 = hook_views(sorted@);
            assert(sv2 =~= sv.insert(p as int, itemv));
            // order: everything before keeps hook_le to the new element,
            // everything after is at least it
            assert forall|x: int, y: int| 0 <= x < y < sv2.len() implies hook_le(
                #[trigger] sv2[x],
                #[trigger] sv2[y],
            ) by {
                if y < p {
                    assert(sv2[x] == sv[x] && sv2[y] == sv[y]);
                } else if y == p {
                    assert(sv2[y] == itemv);
                    assert(sv2[x] == sv[x]);
                } else {
                    // y > p, so the scan stopped short of the end
                    assert(p < sv.len());
                    assert(!hook_le(sv[p as int], itemv));
                    lemma_hook_le_total(sv[p as int], itemv);
                    if x < p {
                        assert(sv2[x] == sv[x] && sv2[y] == sv[y - 1]);
                    } else if x == p {
                        assert(sv2[x] == itemv && sv2[y] == sv[y - 1]);
                        if y - 1 > p {
                            lemma_hook_le_trans(itemv, sv[p as int], sv[y - 1]);
                        }
                    } else {
                        assert(sv2[x] == sv[x - 1] && sv2[y] == sv[y - 1]);
                    }
                }
            }
            // multiset: one occurrence moved from the remainder into place
            assert(sorted@.remove(p as int) =~= pre_sorted);
            assert(hook_views(sorted@).remove(p as int) =~= sv);
            assert(sv2.to_multiset() =~= sv.to_multiset().insert(itemv)) by {
                assert(sv2.remove(p as int) =~= sv);
                assert(sv2.remove(p as int).to_multiset() =~= sv2.to_multiset().remove(
                    sv2[p as int],
                ));
                assert(sv2[p as int] == itemv);
                assert(sv2.to_multiset().contains(itemv)) by {
                    assert(sv2[p as int] == itemv);
                    assert(sv2.contains(itemv));
                }
            }
            assert(hook_views(pre_rest).to_multiset() =~= hook_views(rest@).to_multiset().insert(
                itemv,
            )) by {
                assert(hook_views(pre_rest).remove(0) =~= hook_views(rest@));
                assert(hook_views(pre_rest).remove(0).to_multiset() =~= hook_views(
                    pre_rest,
                ).to_multiset().remove(hook_views(pre_rest)[0]));
                assert(hook_views(pre_rest).contains(itemv)) by {
                    assert(hook_views(pre_rest)[0] == itemv);
                }
            }
        }
    }
    proof {
        assert(hook_views(rest@).to_multiset() =~= Multiset::<(u32, Seq<char>, Seq<char>)>::empty())
            by {
            assert(hook_views(rest@) =~= Seq::<(u32, Seq<char>, Seq<char>)>::empty());
        }
    }
    sorted
}

/// A character sequence with every single quote armored for the remote
/// shell.
pub open spec fn shell_escaped(s: Seq<char>) -> Seq<char>
    decreases s.len(),
{
    if s.len() == 0 {
        Seq::empty()
    } else {
        shell_escaped(s.drop_last()) + (if s.last() == '\'' {
            seq!['\'', '\\', '\'', '\'']
        } else {
            seq![s.last()]
        })
    }
}

/// Armor every single quote of `s` for use inside a single-quoted shell
/// argument.
pub fn escape_single_quotes(s: &str) -> (r: String)
    ensures
        r@ == shell_escaped(s@),
{
    let n = s.unicode_len();
    let mut out: Vec<char> = Vec::new();
    let mut i: usize = 0;
    while i < n
        invariant
            0 <= i <= n,
            n == s@.len(),
            out@ == shell_escaped(s@.take(i as int)),
        decreases n - i,
    {
        let c = s.get_char(i);
        let ghost pre = out@;
        if c == '\'' {
            out.push('\'');
            out.push('\\');
            out.push('\'');
            out.push('\'');
        } else {
            out.push(c);
        }
        proof {
            assert(s@.take(i + 1).drop_last() =~= s@.take(i as int));
            assert(s@.take(i + 1).last() == s@[i as int]);
            assert(out@ =~= shell_escaped(s@.take(i + 1)));
        }
        i += 1;
    }
    proof {
        assert(s@.take(n as int) =~= s@);
    }
    crate::trust::chars_to_string(&out)
}

/// The remote pipeline that hands a plugin its input and runs its entry
/// script, the input armored as one single-quoted shell argument.
pub fn plugin_exec_command(
    plugin_dir: &str,
    name: &str,
    entry: &str,
    input_json: &str,
) -> (r: String)
    ensures
        r@ == "printf '%s' '"@ + shell_escaped(input_json@) + "' | "@ + plugin_dir@ + "/"@ + name@
            + "/"@ + entry@,
{
    let esc = escape_single_quotes(input_json);
    let a = concat3("printf '%s' '", esc.as_str(), "' | ");
    let b = concat3(a.as_str(), plugin_dir, "/");
    let c = concat3(b.as_str(), name, "/");
    let r = concat2(c.as_str(), entry);
    proof {
        assert(r@ =~= "printf '%s' '"@ + shell_escaped(input_json@) + "' | "@ + plugin_dir@ + "/"@
            + name@ + "/"@ + entry@);
    }
    r
}

/// The remote command that unpacks an uploaded plugin archive in place:
/// clear the directory, unpack, drop the archive, and normalize the
/// scripts' line endings.
pub fn install_plugin_command(remote_dir: &str, remote_tar: &str) -> (r: String)
    ensures
        r@ == "rm -rf '"@ + remote_dir@ + "' && mkdir -p '"@ + remote_dir@ + "' && tar -xzf '"@
            + remote_tar@ + "' -C '"@ + remote_dir@ + "' && rm -f '"@ + remote_tar@
            + "' && find '"@ + remote_dir@
            + "' -type f \\( -name '*.py' -o -name '*.sh' -o -name '*.json' \\) -exec sed -i 's/\\r$//' {} +"@,
{
    let a = concat3("rm -rf '", remote_dir, "' && mkdir -p '");
    let b = concat3(a.as_str(), remote_dir, "' && tar -xzf '");
    let c = concat3(b.as_str(), remote_tar, "' -C '");
    let d = concat3(c.as_str(), remote_dir, "' && rm -f '");
    let e = concat3(d.as_str(), remote_tar, "' && find '");
    let f = concat3(
        e.as_str(),
        remote_dir,
        "' -type f \\( -name '*.py' -o -name '*.sh' -o -name '*.json' \\) -exec sed -i 's/\\r$//' {} +",
    );
    proof {
        assert(f@ =~= "rm -rf '"@ + remote_dir@ + "' && mkdir -p '"@ + remote_dir@
            + "' && tar -xzf '"@ + remote_tar@ + "' -C '"@ + remote_dir@ + "' && rm -f '"@
            + remote_tar@ + "' && find '"@ + remote_dir@
            + "' -type f \\( -name '*.py' -o -name '*.sh' -o -name '*.json' \\) -exec sed -i 's/\\r$//' {} +"@);
    }
    f
}

/// The remote command that marks a plugin's entry script executable.
pub fn plugin_chmod_command(remote_dir: &str, entry: &str) -> (r: String)
    ensures
        r@ == "chmod +x "@ + remote_dir@ + "/"@ + entry@,
{
    let a = concat3("chmod +x ", remote_dir, "/");
    let r = concat2(a.as_str(), entry);
    proof {
        assert(r@ =~= "chmod +x "@ + remote_dir@ + "/"@ + entry@);
    }
    r
}

/// The digest lines of a plugin's files, joined one per line with a
/// trailing newline.
pub open spec fn joined_lines(ls: Seq<Seq<char>>) -> Seq<char>
    decreases ls.len(),
{
    if ls.len() == 0 {
        Seq::empty()
    } else {
        joined_lines(ls.drop_last()) + ls.last() + "\n"@
    }
}

/// Combine the per-file digest lines of a plugin into its content hash:
/// the lines, one per line with a trailing newline, digested and rendered
/// in hexadecimal.  The caller supplies the lines in their final order.
pub fn combine_hash_lines(lines: &Vec<String>) -> (r: String)
    ensures
        r@ == crate::strutil::hex_of(
            crate::trust::sha256_of(
                vstd::utf8::encode_utf8(joined_lines(string_views(lines@))),
            ),
        ),
{
    proof {
        reveal_strlit("\n");
    }
    let n = lines.len();
    let mut joined = String::new();
    let mut i: usize = 0;
    while i < n
        invariant
            0 <= i <= n,
            n == lines@.len(),
            joined@ == joined_lines(string_views(lines@.take(i as int))),
        decreases n - i,
    {
        proof {
            reveal_strlit("\n");
        }
        let ghost pre = joined@;
        joined.append(lines[i].as_str());
        joined.append("\n");
        proof {
            assert(string_views(lines@.take(i + 1)).drop_last() =~= string_views(
                lines@.take(i as int),
            ));
            assert(string_views(lines@.take(i + 1)).last() == lines@[i as int]@);
            assert(joined@ =~= joined_lines(string_views(lines@.take(i + 1))));
        }
        i += 1;
    }
    proof {
        assert(lines@.take(n as int) =~= lines@);
    }
    let bytes = joined.as_str().as_bytes_vec();
    let digest = crate::trust::sha256(&bytes);
    crate::strutil::to_hex(&digest)
}

/// Whether `name` is among the collected local plugin names.
fn name_among(
    local_names: &Vec<String>,
    name: &str,
    Ghost(locals0): Ghost<Seq<(PluginManifest, String)>>,
) -> (b: bool)
    requires
        local_names@.len() == locals0.len(),
        forall|j: int|
            0 <= j < locals0.len() ==> (#[trigger] local_names@[j])@ == locals0[j].0.name@,
    ensures
        b == name_in_locals(name@, locals0),
{
    let n = local_names.len();
    let mut i: usize = 0;
    while i < n
        invariant
            0 <= i <= n,
            n == local_names@.len(),
            n == locals0.len(),
            forall|j: int|
                0 <= j < locals0.len() ==> (#[trigger] local_names@[j])@ == locals0[j].0.name@,
            forall|j: int| 0 <= j < i ==> (#[trigger] locals0[j]).0.name@ != name@,
        decreases n - i,
    {
        if str_eq(local_names[i].as_str(), name) {
            proof {
                assert(locals0[i as int].0.name@ == name@);
            }
            return true;
        }
        proof {
            assert(locals0[i as int].0.name@ != name@);
        }
        i += 1;
    }
    false
}

} // verus!
