//! Site and connection configuration types, and the derivation of the
//! physical remote paths behind a logical content path.
//!
//! A logical path such as `/blog/post.md` resolves to up to three physical
//! locations: the public content root, the hidden staging root, and the
//! matching image directory.  Every mutation states explicitly which of
//! these it touches.

use vstd::prelude::*;

verus! {

/// Connection settings for the remote host.
pub struct SshConfig {
    pub host: String,
    pub port: String,
    pub username: String,
    pub password: String,
    pub key_path: String,
}

/// Site generator settings: where the site lives on the remote host and
/// how its command-line tool is invoked.
pub struct HugoConfig {
    pub url: String,
    pub hugo_cmd_path: String,
    pub base_path: String,
    pub content_path: String,
    pub image_path: String,
    pub config_path: String,
    pub layout_path: String,
    pub trashcan_path: String,
    pub hidden_path: String,
}

/// Content-management settings persisted on the server side.
pub struct CmsConfig {
    pub hugo_config: HugoConfig,
}

/// The whole configuration as the client sees it.
pub struct AppConfig {
    pub ssh_config: SshConfig,
    pub cms_config: CmsConfig,
}

/// The locally persisted part: connection settings only.
pub struct ClientConfig {
    pub ssh_config: SshConfig,
}

/// The remotely persisted part: content-management settings only.
pub struct ServerConfig {
    pub cms_config: CmsConfig,
}

/// A named server entry in a multi-server client setup.
pub struct ServerEntry {
    pub id: String,
    pub name: String,
    pub ssh_config: SshConfig,
}

/// The physical path of `logical` under the public content root.
pub open spec fn content_abs_spec(cfg: &HugoConfig, logical: Seq<char>) -> Seq<char> {
    cfg.base_path@ + "/content"@ + logical
}

/// The physical path of `logical` under the hidden staging root.
pub open spec fn hidden_abs_spec(cfg: &HugoConfig, logical: Seq<char>) -> Seq<char> {
    cfg.base_path@ + "/content/"@ + cfg.hidden_path@ + logical
}

/// The physical path of the image directory matching `logical`.
pub open spec fn image_abs_spec(cfg: &HugoConfig, logical: Seq<char>) -> Seq<char> {
    cfg.base_path@ + "/"@ + cfg.image_path@ + logical
}

/// The first `'/'` of `p` at or after position `i`; `p.len()` when none.
pub open spec fn first_slash_from(p: Seq<char>, i: int) -> int
    decreases p.len() - i,
{
    if i < 0 || i >= p.len() {
        p.len() as int
    } else if p[i] == '/' {
        i
    } else {
        first_slash_from(p, i + 1)
    }
}

/// `p` without its leading content section: `/blog/post.md` becomes
/// `/post.md`.  A path with no second separator is returned unchanged.
pub open spec fn strip_section(p: Seq<char>) -> Seq<char> {
    if first_slash_from(p, 1) == p.len() {
        p
    } else {
        p.skip(first_slash_from(p, 1))
    }
}

/// The image directory path of the legacy unsectioned layout.
pub open spec fn legacy_image_abs_spec(cfg: &HugoConfig, logical: Seq<char>) -> Seq<char> {
    cfg.base_path@ + "/"@ + cfg.image_path@ + strip_section(logical)
}

impl HugoConfig {
    /// Resolve `logical` to its legacy unsectioned image directory.
    pub fn legacy_image_abs(&self, logical: &str) -> (r: String)
        ensures
            r@ == legacy_image_abs_spec(self, logical@),
    {
        let n = logical.unicode_len();
        let mut j: usize = if n > 0 { 1 } else { 0 };
        while j < n && logical.get_char(j) != '/'
            invariant
                0 <= j <= n,
                n == logical@.len(),
                n > 0 ==> 1 <= j,
                first_slash_from(logical@, 1) == first_slash_from(logical@, j as int),
            decreases n - j,
        {
            j += 1;
        }
        let stripped = if j < n {
            crate::strutil::substring(logical, j, n)
        } else {
            proof {
                assert(logical@.skip(n as int) =~= Seq::<char>::empty());
            }
            crate::strutil::substring(logical, 0, n)
        };
        proof {
            if n == 0 {
                assert(first_slash_from(logical@, 1) == n as int);
            }
            assert(logical@.subrange(0, n as int) =~= logical@);
        }
        let a = crate::strutil::concat3(self.base_path.as_str(), "/", self.image_path.as_str());
        crate::strutil::concat2(a.as_str(), stripped.as_str())
    }

    /// Resolve `logical` to its public content location.
    pub fn content_abs(&self, logical: &str) -> (r: String)
        ensures
            r@ == content_abs_spec(self, logical@),
    {
        crate::strutil::concat3(self.base_path.as_str(), "/content", logical)
    }

    /// Resolve `logical` to its hidden staging location.
    pub fn hidden_abs(&self, logical: &str) -> (r: String)
        ensures
            r@ == hidden_abs_spec(self, logical@),
    {
        let a = crate::strutil::concat3(
            self.base_path.as_str(),
            "/content/",
            self.hidden_path.as_str(),
        );
        crate::strutil::concat2(a.as_str(), logical)
    }

    /// Resolve `logical` to its matching image directory.
    pub fn image_abs(&self, logical: &str) -> (r: String)
        ensures
            r@ == image_abs_spec(self, logical@),
    {
        let a = crate::strutil::concat3(self.base_path.as_str(), "/", self.image_path.as_str());
        crate::strutil::concat2(a.as_str(), logical)
    }
}

} // verus!
