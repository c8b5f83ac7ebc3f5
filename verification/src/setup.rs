//! Decisions of the first-time server provisioning flow: each function
//! computes, from the plain outputs of the remote commands, what the flow
//! does next — which tool is present, which artifact to download, which
//! site name is free.  The transport shell runs the commands.

use vstd::prelude::*;
use crate::CmsError;
use crate::strutil::{concat2, concat3, contains, matches_at, trim, trim_spec};

verus! {

/// Which of the provisioning prerequisites answered to `which`.
pub struct PrerequisiteResult {
    pub curl: bool,
    pub tar: bool,
    pub git: bool,
}

/// Interpret the outputs of the three `which` probes: a tool is present
/// exactly when its probe printed a path.
pub fn check_prerequisites(curl_out: &str, tar_out: &str, git_out: &str) -> (r: PrerequisiteResult)
    ensures
        r.curl == (trim_spec(curl_out@).len() != 0),
        r.tar == (trim_spec(tar_out@).len() != 0),
        r.git == (trim_spec(git_out@).len() != 0),
{
    PrerequisiteResult {
        curl: trim(curl_out).as_str().unicode_len() != 0,
        tar: trim(tar_out).as_str().unicode_len() != 0,
        git: trim(git_out).as_str().unicode_len() != 0,
    }
}

/// Interpret the probes for an installed site generator: the `which`
/// output when it printed a real path, else the user-local install when
/// the test probe answered `exists`, else nothing.
pub fn check_hugo_installed(which_out: &str, test_out: &str, home_out: &str) -> (r: Option<String>)
    ensures
        ({
            let w = trim_spec(which_out@);
            let found_which = w.len() != 0 && !(exists|i: int| matches_at(w, "not found"@, i));
            match r {
                Some(p) => {
                    if found_which {
                        p@ == w
                    } else {
                        trim_spec(test_out@) == "exists"@ && p@ == trim_spec(home_out@)
                            + "/.local/bin/hugo"@
                    }
                },
                None => !found_which && trim_spec(test_out@) != "exists"@,
            }
        }),
{
    let w = trim(which_out);
    if w.as_str().unicode_len() != 0 && !contains(w.as_str(), "not found") {
        return Some(w);
    }
    let t = trim(test_out);
    if crate::strutil::str_eq(t.as_str(), "exists") {
        proof {
            reveal_strlit("exists");
        }
        let home = trim(home_out);
        Some(concat2(home.as_str(), "/.local/bin/hugo"))
    } else {
        proof {
            reveal_strlit("exists");
        }
        None
    }
}

/// Normalize the platform probes: the trimmed kernel name, and the
/// architecture mapped onto the artifact naming scheme.
pub fn detect_server_platform(os_out: &str, arch_out: &str) -> (r: (String, String))
    ensures
        r.0@ == trim_spec(os_out@),
        ({
            let a = trim_spec(arch_out@);
            if a == "x86_64"@ {
                r.1@ == "amd64"@
            } else if a == "aarch64"@ || a == "arm64"@ {
                r.1@ == "arm64"@
            } else {
                r.1@ == a
            }
        }),
{
    let os = trim(os_out);
    let a = trim(arch_out);
    proof {
        reveal_strlit("x86_64");
        reveal_strlit("aarch64");
        reveal_strlit("arm64");
        reveal_strlit("amd64");
    }
    let arch = if crate::strutil::str_eq(a.as_str(), "x86_64") {
        String::from_str("amd64")
    } else if crate::strutil::str_eq(a.as_str(), "aarch64") || crate::strutil::str_eq(
        a.as_str(),
        "arm64",
    ) {
        String::from_str("arm64")
    } else {
        a
    };
    (os, arch)
}

/// Interpret the release-lookup output: the trimmed version string, or an
/// error when the lookup printed nothing.
pub fn get_latest_hugo_version(output: &str) -> (r: Result<String, CmsError>)
    ensures
        match r {
            Ok(v) => v@ == trim_spec(output@) && v@.len() != 0,
            Err(e) => trim_spec(output@).len() == 0 && e == CmsError::RemoteIo,
        },
{
    let v = trim(output);
    if v.as_str().unicode_len() == 0 {
        Err(CmsError::RemoteIo)
    } else {
        Ok(v)
    }
}

/// Map an uppercase ASCII letter to its lowercase form; anything else is
/// unchanged.
pub open spec fn lower_char(c: char) -> char {
    if 'A' <= c && c <= 'Z' {
        (((c as u8) + 32) as char)
    } else {
        c
    }
}

/// ASCII lowercasing, character by character.
pub fn ascii_lowercase(s: &str) -> (r: String)
    ensures
        r@.len() == s@.len(),
        forall|i: int| 0 <= i < s@.len() ==> r@[i] == lower_char(s@[i]),
{
    let n = s.unicode_len();
    let mut out: Vec<char> = Vec::new();
    let mut i: usize = 0;
    while i < n
        invariant
            0 <= i <= n,
            n == s@.len(),
            out@.len() == i,
            forall|j: int| 0 <= j < i ==> out@[j] == lower_char(s@[j]),
        decreases n - i,
    {
        let c = s.get_char(i);
        let lc = if 'A' <= c && c <= 'Z' {
            (((c as u8) + 32) as char)
        } else {
            c
        };
        out.push(lc);
        i += 1;
    }
    crate::trust::chars_to_string(&out)
}

/// The artifact name of the platform: `darwin-universal` for the macOS
/// kernel, else the lowercased kernel name joined with the architecture.
pub open spec fn platform_spec(os: Seq<char>, arch: Seq<char>) -> Seq<char> {
    if os == "Darwin"@ {
        "darwin-universal"@
    } else {
        Seq::new(os.len(), |i: int| lower_char(os[i])) + "-"@ + arch
    }
}

/// The release artifact URL for a given platform and version.
pub fn hugo_download_url(os: &str, arch: &str, version: &str) -> (r: String)
    ensures
        r@ == "https://github.com/gohugoio/hugo/releases/download/v"@ + version@
            + "/hugo_extended_"@ + version@ + "_"@ + platform_spec(os@, arch@) + ".tar.gz"@,
{
    proof {
        reveal_strlit("Darwin");
        reveal_strlit("darwin-universal");
    }
    let platform = if crate::strutil::str_eq(os, "Darwin") {
        String::from_str("darwin-universal")
    } else {
        let low = ascii_lowercase(os);
        let p = concat3(low.as_str(), "-", arch);
        proof {
            assert(low@ =~= Seq::new(os@.len(), |i: int| lower_char(os@[i])));
        }
        p
    };
    let a = concat3(
        "https://github.com/gohugoio/hugo/releases/download/v",
        version,
        "/hugo_extended_",
    );
    let b = concat3(a.as_str(), version, "_");
    let c = concat2(b.as_str(), platform.as_str());
    let r = concat2(c.as_str(), ".tar.gz");
    proof {
        assert(r@ =~= "https://github.com/gohugoio/hugo/releases/download/v"@ + version@
            + "/hugo_extended_"@ + version@ + "_"@ + platform_spec(os@, arch@) + ".tar.gz"@);
    }
    r
}

/// Conclude the install: the verification probe must have printed
/// something, and the installed binary lives under the user's home.
pub fn install_hugo(home_out: &str, verify_out: &str) -> (r: Result<String, CmsError>)
    ensures
        match r {
            Ok(p) => trim_spec(verify_out@).len() != 0 && p@ == trim_spec(home_out@)
                + "/.local/bin/hugo"@,
            Err(e) => trim_spec(verify_out@).len() == 0 && e == CmsError::RemoteIo,
        },
{
    let v = trim(verify_out);
    if v.as_str().unicode_len() == 0 {
        return Err(CmsError::RemoteIo);
    }
    let home = trim(home_out);
    Ok(concat2(home.as_str(), "/.local/bin/hugo"))
}

/// The `i`-th candidate site name: the two dozen base names first, then
/// each of them with `-1`, `-2`, and so on.
pub open spec fn site_name_spec(i: nat) -> Seq<char> {
    if i < 24 {
        greek_name(i)
    } else {
        greek_name(i % 24) + "-"@ + crate::strutil::dec_digits(i / 24)
    }
}

/// The base name with index `i`.
pub open spec fn greek_name(i: nat) -> Seq<char> {
    if i % 24 == 0 {
        "alpha"@
    } else if i % 24 == 1 {
        "beta"@
    } else if i % 24 == 2 {
        "gamma"@
    } else if i % 24 == 3 {
        "delta"@
    } else if i % 24 == 4 {
        "epsilon"@
    } else if i % 24 == 5 {
        "zeta"@
    } else if i % 24 == 6 {
        "eta"@
    } else if i % 24 == 7 {
        "theta"@
    } else if i % 24 == 8 {
        "iota"@
    } else if i % 24 == 9 {
        "kappa"@
    } else if i % 24 == 10 {
        "lambda"@
    } else if i % 24 == 11 {
        "mu"@
    } else if i % 24 == 12 {
        "nu"@
    } else if i % 24 == 13 {
        "xi"@
    } else if i % 24 == 14 {
        "omicron"@
    } else if i % 24 == 15 {
        "pi"@
    } else if i % 24 == 16 {
        "rho"@
    } else if i % 24 == 17 {
        "sigma"@
    } else if i % 24 == 18 {
        "tau"@
    } else if i % 24 == 19 {
        "upsilon"@
    } else if i % 24 == 20 {
        "phi"@
    } else if i % 24 == 21 {
        "chi"@
    } else if i % 24 == 22 {
        "psi"@
    } else {
        "omega"@
    }
}

/// Build the `i`-th candidate site name.
pub fn site_name_candidate(i: u64) -> (r: String)
    ensures
        r@ == site_name_spec(i as nat),
{
    proof {
        reveal_strlit("alpha");
        reveal_strlit("beta");
        reveal_strlit("gamma");
        reveal_strlit("delta");
        reveal_strlit("epsilon");
        reveal_strlit("zeta");
        reveal_strlit("eta");
        reveal_strlit("theta");
        reveal_strlit("iota");
        reveal_strlit("kappa");
        reveal_strlit("lambda");
        reveal_strlit("mu");
        reveal_strlit("nu");
        reveal_strlit("xi");
        reveal_strlit("omicron");
        reveal_strlit("pi");
        reveal_strlit("rho");
        reveal_strlit("sigma");
        reveal_strlit("tau");
        reveal_strlit("upsilon");
        reveal_strlit("phi");
        reveal_strlit("chi");
        reveal_strlit("psi");
        reveal_strlit("omega");
    }
    let base: &'static str = if i % 24 == 0 {
        "alpha"
    } else if i % 24 == 1 {
        "beta"
    } else if i % 24 == 2 {
        "gamma"
    } else if i % 24 == 3 {
        "delta"
    } else if i % 24 == 4 {
        "epsilon"
    } else if i % 24 == 5 {
        "zeta"
    } else if i % 24 == 6 {
        "eta"
    } else if i % 24 == 7 {
        "theta"
    } else if i % 24 == 8 {
        "iota"
    } else if i % 24 == 9 {
        "kappa"
    } else if i % 24 == 10 {
        "lambda"
    } else if i % 24 == 11 {
        "mu"
    } else if i % 24 == 12 {
        "nu"
    } else if i % 24 == 13 {
        "xi"
    } else if i % 24 == 14 {
        "omicron"
    } else if i % 24 == 15 {
        "pi"
    } else if i % 24 == 16 {
        "rho"
    } else if i % 24 == 17 {
        "sigma"
    } else if i % 24 == 18 {
        "tau"
    } else if i % 24 == 19 {
        "upsilon"
    } else if i % 24 == 20 {
        "phi"
    } else if i % 24 == 21 {
        "chi"
    } else if i % 24 == 22 {
        "psi"
    } else {
        "omega"
    };
    if i < 24 {
        String::from_str(base)
    } else {
        let num = crate::strutil::u64_to_string(i / 24);
        let a = concat3(base, "-", num.as_str());
        a
    }
}

/// Pick the first candidate site name whose path under `home` is free.
/// `taken` says, for each candidate index, whether its path exists.
pub fn generate_site_name(home: &str, taken: &Vec<bool>) -> (r: Result<(String, String), CmsError>)
    ensures
        match r {
            Ok(p) => exists|i: int|
                0 <= i < taken@.len() && !taken@[i] && p.0@ == #[trigger] site_name_spec(i as nat)
                    && p.1@ == home@ + "/"@ + site_name_spec(i as nat) && forall|j: int|
                    0 <= j < i ==> taken@[j],
            Err(e) => e == CmsError::AlreadyExists && forall|j: int|
                0 <= j < taken@.len() ==> taken@[j],
        },
{
    let n = taken.len();
    let mut i: usize = 0;
    while i < n
        invariant
            0 <= i <= n,
            n == taken@.len(),
            n <= u64::MAX,
            forall|j: int| 0 <= j < i ==> taken@[j],
        decreases n - i,
    {
        if !taken[i] {
            let name = site_name_candidate(i as u64);
            let path = concat3(home, "/", name.as_str());
            proof {
                let wi: int = i as int;
                assert(0 <= wi < taken@.len() && !taken@[wi] && name@ == site_name_spec(
                    wi as nat,
                ) && path@ == home@ + "/"@ + site_name_spec(wi as nat) && forall|j: int|
                    0 <= j < wi ==> taken@[j]);
            }
            return Ok((name, path));
        }
        i += 1;
    }
    Err(CmsError::AlreadyExists)
}

/// Conclude site creation: the scaffolded directory must exist afterwards.
pub fn create_hugo_site(exists_after: bool) -> (r: Result<(), CmsError>)
    ensures
        r is Ok <==> exists_after,
        r is Err ==> r == Err::<(), CmsError>(CmsError::RemoteIo),
{
    if exists_after {
        Ok(())
    } else {
        Err(CmsError::RemoteIo)
    }
}

/// The remote command that scaffolds a new site.
pub fn create_site_command(hugo_cmd_path: &str, site_path: &str) -> (r: String)
    ensures
        r@ == hugo_cmd_path@ + " new site "@ + site_path@,
{
    let a = concat3(hugo_cmd_path, " new site ", site_path);
    a
}

/// The remote command that initializes version control in the site root.
pub fn git_init_site(site_path: &str) -> (r: String)
    ensures
        r@ == "cd "@ + site_path@ + " && git init"@,
{
    let a = concat3("cd ", site_path, " && git init");
    a
}

/// `s` with every trailing repetition of `pat` removed.
pub open spec fn strip_suffix_all(s: Seq<char>, pat: Seq<char>) -> Seq<char>
    decreases s.len(),
{
    if pat.len() > 0 && pat.is_suffix_of(s) {
        strip_suffix_all(s.take(s.len() - pat.len()), pat)
    } else {
        s
    }
}

/// Remove every trailing repetition of `pat`.
pub fn trim_end_matches(s: &str, pat: &str) -> (r: String)
    requires
        pat@.len() > 0,
    ensures
        r@ == strip_suffix_all(s@, pat@),
    decreases s@.len(),
{
    let n = s.unicode_len();
    let pn = pat.unicode_len();
    if crate::strutil::has_suffix(s, pat) {
        let shorter = s.substring_char(0, n - pn);
        proof {
            assert(s@.subrange(0, n - pn) =~= s@.take(s@.len() - pat@.len()));
        }
        trim_end_matches(shorter, pat)
    } else {
        String::from_str(s)
    }
}

/// The theme name embedded in its repository URL: the last path component
/// after trailing separators and the repository suffix are stripped.
pub open spec fn theme_name_spec(url: Seq<char>) -> Seq<char> {
    crate::tree::base_name(strip_suffix_all(strip_suffix_all(url, "/"@), ".git"@))
}

/// Conclude a theme install: the theme directory must exist afterwards,
/// and the name is derived from the repository URL.  The install finishes
/// with [`theme_append_command`], which records the theme in the site's
/// configuration.
pub fn install_theme(theme_url: &str, theme_exists_after: bool) -> (r: Result<String, CmsError>)
    ensures
        match r {
            Ok(name) => theme_exists_after && name@ == theme_name_spec(theme_url@),
            Err(e) => !theme_exists_after && e == CmsError::RemoteIo,
        },
{
    if !theme_exists_after {
        return Err(CmsError::RemoteIo);
    }
    proof {
        reveal_strlit("/");
        reveal_strlit(".git");
    }
    let s1 = trim_end_matches(theme_url, "/");
    let s2 = trim_end_matches(s1.as_str(), ".git");
    let n = s2.as_str().unicode_len();
    let j = crate::fs::find_last_slash(s2.as_str());
    let name = if n > 0 && s2.as_str().get_char(j) == '/' {
        crate::strutil::substring(s2.as_str(), j + 1, n)
    } else {
        proof {
            assert(s2@.subrange(0, n as int) =~= s2@);
        }
        crate::strutil::substring(s2.as_str(), 0, n)
    };
    Ok(name)
}

/// The remote command that records the installed theme in the site's
/// generator configuration, appending its `theme = "<name>"` line.
pub fn theme_append_command(site_path: &str, theme_name: &str) -> (r: String)
    ensures
        r@ == "printf '\\ntheme = \""@ + theme_name@ + "\"\\n' >> "@ + site_path@
            + "/hugo.toml"@,
{
    let a = concat3("printf '\\ntheme = \"", theme_name, "\"\\n' >> ");
    let r = concat2(a.as_str(), site_path);
    let r2 = concat2(r.as_str(), "/hugo.toml");
    proof {
        assert(r2@ =~= "printf '\\ntheme = \""@ + theme_name@ + "\"\\n' >> "@ + site_path@
            + "/hugo.toml"@);
    }
    r2
}

/// The remote command that adds a theme as a submodule of the site.
pub fn install_theme_command(site_path: &str, theme_url: &str, theme_name: &str) -> (r: String)
    ensures
        r@ == "cd "@ + site_path@ + " && git submodule add "@ + theme_url@ + " themes/"@
            + theme_name@,
{
    let a = concat3("cd ", site_path, " && git submodule add ");
    let b = concat3(a.as_str(), theme_url, " themes/");
    let r = concat2(b.as_str(), theme_name);
    proof {
        assert(r@ =~= "cd "@ + site_path@ + " && git submodule add "@ + theme_url@ + " themes/"@
            + theme_name@);
    }
    r
}

/// The generator configuration files whose presence marks a project
/// root, in probe order.
pub fn hugo_config_file_candidates() -> (r: Vec<String>)
    ensures
        r@.len() == 6,
        r@[0]@ == "hugo.toml"@,
        r@[1]@ == "config.toml"@,
        r@[2]@ == "hugo.yaml"@,
        r@[3]@ == "config.yaml"@,
        r@[4]@ == "hugo.json"@,
        r@[5]@ == "config.json"@,
{
    let mut r: Vec<String> = Vec::new();
    r.push(String::from_str("hugo.toml"));
    r.push(String::from_str("config.toml"));
    r.push(String::from_str("hugo.yaml"));
    r.push(String::from_str("config.yaml"));
    r.push(String::from_str("hugo.json"));
    r.push(String::from_str("config.json"));
    r
}

/// A project is valid when any of the probed generator configuration
/// files exists; `stat_results` holds one answer per probed candidate.
pub fn validate_hugo_project(stat_results: &Vec<bool>) -> (r: bool)
    ensures
        r == exists|i: int| 0 <= i < stat_results@.len() && stat_results@[i],
{
    let n = stat_results.len();
    let mut i: usize = 0;
    while i < n
        invariant
            0 <= i <= n,
            n == stat_results@.len(),
            forall|j: int| 0 <= j < i ==> !stat_results@[j],
        decreases n - i,
    {
        if stat_results[i] {
            return true;
        }
        i += 1;
    }
    false
}

} // verus!
