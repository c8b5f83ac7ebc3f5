//! The injectable configuration holder, the client/server split of the
//! configuration, password sealing before persistence, and the rename of
//! the hidden staging root.

use vstd::prelude::*;
use crate::CmsError;
use crate::config::{AppConfig, ClientConfig, CmsConfig, HugoConfig, ServerConfig, SshConfig};
use crate::crypto::{CryptoError, decrypt_string, device_key, encrypt_string, open_spec};
use crate::fs::{FsEntryV, MemFs, add_dirs_map, blocked_by_file, parent_of, rename_map, rename_result};
use crate::strutil::{concat3, trim, trim_spec};
use crate::trust::{is_alnum_char, random_alphanumeric};
use crate::tree::clone_node_name;

verus! {

/// Field-for-field equality of connection settings.
pub open spec fn ssh_eqv(a: &SshConfig, b: &SshConfig) -> bool {
    &&& a.host@ == b.host@
    &&& a.port@ == b.port@
    &&& a.username@ == b.username@
    &&& a.password@ == b.password@
    &&& a.key_path@ == b.key_path@
}

/// Field-for-field equality of site generator settings.
pub open spec fn hugo_eqv(a: &HugoConfig, b: &HugoConfig) -> bool {
    &&& a.url@ == b.url@
    &&& a.hugo_cmd_path@ == b.hugo_cmd_path@
    &&& a.base_path@ == b.base_path@
    &&& a.content_path@ == b.content_path@
    &&& a.image_path@ == b.image_path@
    &&& a.config_path@ == b.config_path@
    &&& a.layout_path@ == b.layout_path@
    &&& a.trashcan_path@ == b.trashcan_path@
    &&& a.hidden_path@ == b.hidden_path@
}

/// Field-for-field equality of the whole configuration.
pub open spec fn app_eqv(a: &AppConfig, b: &AppConfig) -> bool {
    ssh_eqv(&a.ssh_config, &b.ssh_config) && hugo_eqv(
        &a.cms_config.hugo_config,
        &b.cms_config.hugo_config,
    )
}

/// Owned copy of connection settings.
pub fn clone_ssh_config(c: &SshConfig) -> (r: SshConfig)
    ensures
        ssh_eqv(&r, c),
{
    SshConfig {
        host: clone_node_name(&c.host),
        port: clone_node_name(&c.port),
        username: clone_node_name(&c.username),
        password: clone_node_name(&c.password),
        key_path: clone_node_name(&c.key_path),
    }
}

/// Owned copy of site generator settings.
pub fn clone_hugo_config(c: &HugoConfig) -> (r: HugoConfig)
    ensures
        hugo_eqv(&r, c),
{
    HugoConfig {
        url: clone_node_name(&c.url),
        hugo_cmd_path: clone_node_name(&c.hugo_cmd_path),
        base_path: clone_node_name(&c.base_path),
        content_path: clone_node_name(&c.content_path),
        image_path: clone_node_name(&c.image_path),
        config_path: clone_node_name(&c.config_path),
        layout_path: clone_node_name(&c.layout_path),
        trashcan_path: clone_node_name(&c.trashcan_path),
        hidden_path: clone_node_name(&c.hidden_path),
    }
}

impl AppConfig {
    /// Whether connection settings are present at all.
    pub fn has_ssh_config(&self) -> (r: bool)
        ensures
            r == (self.ssh_config.host@.len() != 0 && self.ssh_config.username@.len() != 0),
    {
        self.ssh_config.host.as_str().unicode_len() != 0 && self.ssh_config.username.as_str()
            .unicode_len() != 0
    }

    /// The locally persisted part: connection settings only.
    pub fn to_client_config(&self) -> (r: ClientConfig)
        ensures
            ssh_eqv(&r.ssh_config, &self.ssh_config),
    {
        ClientConfig { ssh_config: clone_ssh_config(&self.ssh_config) }
    }

    /// The remotely persisted part: content-management settings only.
    pub fn to_server_config(&self) -> (r: ServerConfig)
        ensures
            hugo_eqv(&r.cms_config.hugo_config, &self.cms_config.hugo_config),
    {
        ServerConfig {
            cms_config: CmsConfig { hugo_config: clone_hugo_config(&self.cms_config.hugo_config) },
        }
    }

    /// A configuration carrying only locally loaded connection settings;
    /// the content-management part is empty until the server copy is read.
    pub fn load_client_only(client: ClientConfig) -> (r: AppConfig)
        ensures
            ssh_eqv(&r.ssh_config, &client.ssh_config),
            r.cms_config.hugo_config.url@.len() == 0,
            r.cms_config.hugo_config.hugo_cmd_path@.len() == 0,
            r.cms_config.hugo_config.base_path@.len() == 0,
            r.cms_config.hugo_config.content_path@.len() == 0,
            r.cms_config.hugo_config.image_path@.len() == 0,
            r.cms_config.hugo_config.config_path@.len() == 0,
            r.cms_config.hugo_config.layout_path@.len() == 0,
            r.cms_config.hugo_config.trashcan_path@.len() == 0,
            r.cms_config.hugo_config.hidden_path@.len() == 0,
    {
        AppConfig {
            ssh_config: client.ssh_config,
            cms_config: CmsConfig {
                hugo_config: HugoConfig {
                    url: String::new(),
                    hugo_cmd_path: String::new(),
                    base_path: String::new(),
                    content_path: String::new(),
                    image_path: String::new(),
                    config_path: String::new(),
                    layout_path: String::new(),
                    trashcan_path: String::new(),
                    hidden_path: String::new(),
                },
            },
        }
    }

    /// The client part as it goes to disk, with the password sealed.
    pub fn save_client_config(&self, device_id: &str) -> (r: Result<ClientConfig, CryptoError>)
        ensures
            match r {
                Ok(c) => {
                    &&& c.ssh_config.host@ == self.ssh_config.host@
                    &&& c.ssh_config.port@ == self.ssh_config.port@
                    &&& c.ssh_config.username@ == self.ssh_config.username@
                    &&& c.ssh_config.key_path@ == self.ssh_config.key_path@
                    &&& self.ssh_config.password@.len() == 0 ==> c.ssh_config.password@.len() == 0
                    &&& self.ssh_config.password@.len() != 0 ==> open_spec(
                        device_key(device_id@),
                        c.ssh_config.password@,
                    ) == Some(vstd::utf8::encode_utf8(self.ssh_config.password@))
                },
                Err(e) => e == CryptoError::Encrypt && vstd::utf8::encode_utf8(
                    self.ssh_config.password@,
                ).len() > crate::trust::AES_GCM_MAX_PLAINTEXT,
            },
            vstd::utf8::encode_utf8(self.ssh_config.password@).len()
                <= crate::trust::AES_GCM_MAX_PLAINTEXT ==> r is Ok,
    {
        let sealed = self.ssh_config.prepare_for_save(device_id);
        match sealed {
            Ok(c) => Ok(ClientConfig { ssh_config: c }),
            Err(e) => Err(e),
        }
    }
}

impl SshConfig {
    /// A copy ready for persistence: a nonempty password is sealed under
    /// this machine's key, an empty one stays empty.
    pub fn prepare_for_save(&self, device_id: &str) -> (r: Result<SshConfig, CryptoError>)
        ensures
            match r {
                Ok(c) => {
                    &&& c.host@ == self.host@
                    &&& c.port@ == self.port@
                    &&& c.username@ == self.username@
                    &&& c.key_path@ == self.key_path@
                    &&& self.password@.len() == 0 ==> c.password@.len() == 0
                    &&& self.password@.len() != 0 ==> open_spec(device_key(device_id@), c.password@)
                        == Some(vstd::utf8::encode_utf8(self.password@))
                },
                Err(e) => e == CryptoError::Encrypt && vstd::utf8::encode_utf8(
                    self.password@,
                ).len() > crate::trust::AES_GCM_MAX_PLAINTEXT,
            },
            vstd::utf8::encode_utf8(self.password@).len() <= crate::trust::AES_GCM_MAX_PLAINTEXT
                ==> r is Ok,
    {
        let password = if self.password.as_str().unicode_len() == 0 {
            String::new()
        } else {
            match encrypt_string(self.password.as_str(), device_id) {
                Ok(p) => p,
                Err(e) => {
                    return Err(e);
                },
            }
        };
        Ok(
            SshConfig {
                host: clone_node_name(&self.host),
                port: clone_node_name(&self.port),
                username: clone_node_name(&self.username),
                password,
                key_path: clone_node_name(&self.key_path),
            },
        )
    }

    /// Open a persisted password in place; an empty one stays empty.
    /// Failure comes only where the stored value does not open under this
    /// machine's key or does not decode as text, so a value sealed here
    /// always opens here.
    pub fn decrypt_password(&mut self, device_id: &str) -> (r: Result<(), CryptoError>)
        ensures
            final(self).host@ == old(self).host@,
            final(self).port@ == old(self).port@,
            final(self).username@ == old(self).username@,
            final(self).key_path@ == old(self).key_path@,
            match r {
                Ok(()) => {
                    &&& old(self).password@.len() == 0 ==> final(self).password@ == old(
                        self,
                    ).password@
                    &&& old(self).password@.len() != 0 ==> open_spec(
                        device_key(device_id@),
                        old(self).password@,
                    ) == Some(vstd::utf8::encode_utf8(final(self).password@))
                },
                Err(_) => {
                    &&& final(self).password@ == old(self).password@
                    &&& old(self).password@.len() != 0
                    &&& (open_spec(device_key(device_id@), old(self).password@) is None
                        || !vstd::utf8::valid_utf8(
                        open_spec(device_key(device_id@), old(self).password@)->Some_0,
                    ))
                },
            },
    {
        if self.password.as_str().unicode_len() == 0 {
            return Ok(());
        }
        match decrypt_string(self.password.as_str(), device_id) {
            Ok(p) => {
                self.password = p;
                Ok(())
            },
            Err(e) => Err(e),
        }
    }
}

impl CmsConfig {
    /// A copy ready for persistence; no transformation is needed today.
    pub fn prepare_for_save(&self) -> (r: CmsConfig)
        ensures
            hugo_eqv(&r.hugo_config, &self.hugo_config),
    {
        CmsConfig { hugo_config: clone_hugo_config(&self.hugo_config) }
    }
}

/// The injectable holder of the one live configuration.
pub struct ConfigStore {
    pub config: Option<AppConfig>,
}

impl ConfigStore {
    /// An empty holder.
    pub fn new() -> (r: ConfigStore)
        ensures
            r.config is None,
    {
        ConfigStore { config: None }
    }

    /// Install a freshly loaded configuration.
    pub fn load_app_config(&mut self, loaded: AppConfig)
        ensures
            final(self).config == Some(loaded),
    {
        self.config = Some(loaded);
    }

    /// The current configuration, copied out; fails when none was loaded.
    pub fn get_app_config(&self) -> (r: Result<AppConfig, CmsError>)
        ensures
            match r {
                Ok(c) => self.config matches Some(cur) && app_eqv(&c, &cur),
                Err(e) => self.config is None && e == CmsError::NotConnected,
            },
    {
        match &self.config {
            Some(c) => Ok(
                AppConfig {
                    ssh_config: clone_ssh_config(&c.ssh_config),
                    cms_config: CmsConfig {
                        hugo_config: clone_hugo_config(&c.cms_config.hugo_config),
                    },
                },
            ),
            None => Err(CmsError::NotConnected),
        }
    }

    /// The configuration as it goes to persistence; fails when none was
    /// loaded.
    pub fn save_app_config(&self) -> (r: Result<AppConfig, CmsError>)
        ensures
            match r {
                Ok(c) => self.config matches Some(cur) && app_eqv(&c, &cur),
                Err(e) => self.config is None && e == CmsError::NotConnected,
            },
    {
        self.get_app_config()
    }

    /// The site generator part of the current configuration.
    pub fn get_hugo_config(&self) -> (r: Result<HugoConfig, CmsError>)
        ensures
            match r {
                Ok(c) => self.config matches Some(cur) && hugo_eqv(
                    &c,
                    &cur.cms_config.hugo_config,
                ),
                Err(e) => self.config is None && e == CmsError::NotConnected,
            },
    {
        match &self.config {
            Some(c) => Ok(clone_hugo_config(&c.cms_config.hugo_config)),
            None => Err(CmsError::NotConnected),
        }
    }

    /// Install a new configuration, settling its hidden staging root
    /// first: the requested name is trimmed, an empty request draws a
    /// random name, and a changed name moves the staging subtree before
    /// the configuration (with the settled name) is stored.  With no
    /// configuration loaded the new one is stored as given.
    pub fn set_app_config(&mut self, fs: &mut MemFs, new_config: AppConfig) -> (r: Result<
        (),
        CmsError,
    >)
        requires
            old(fs).wf(),
        ensures
            final(fs).wf(),
            old(self).config is None ==> final(self).config == Some(new_config) && final(fs)@
                == old(fs)@ && r is Ok,
            old(self).config matches Some(cur) ==> ({
                let req = trim_spec(new_config.cms_config.hugo_config.hidden_path@);
                match r {
                    Ok(()) => final(self).config matches Some(stored) && ssh_eqv(
                        &stored.ssh_config,
                        &new_config.ssh_config,
                    ) && ({
                        let sh = &stored.cms_config.hugo_config;
                        let nh = &new_config.cms_config.hugo_config;
                        &&& sh.url@ == nh.url@
                        &&& sh.hugo_cmd_path@ == nh.hugo_cmd_path@
                        &&& sh.base_path@ == nh.base_path@
                        &&& sh.content_path@ == nh.content_path@
                        &&& sh.image_path@ == nh.image_path@
                        &&& sh.config_path@ == nh.config_path@
                        &&& sh.layout_path@ == nh.layout_path@
                        &&& sh.trashcan_path@ == nh.trashcan_path@
                        &&& hidden_name_ok(req, sh.hidden_path@)
                        &&& if cur.cms_config.hugo_config.hidden_path@.len() == 0
                            || cur.cms_config.hugo_config.hidden_path@ == sh.hidden_path@ {
                            final(fs)@ == old(fs)@
                        } else {
                            hidden_move_ok(old(fs)@, &cur.cms_config.hugo_config, sh.hidden_path@)
                                && final(fs)@ == rename_map(
                                add_dirs_map(
                                    old(fs)@,
                                    parent_of(
                                        hidden_root_of(
                                            &cur.cms_config.hugo_config,
                                            sh.hidden_path@,
                                        ),
                                    ),
                                ),
                                hidden_root_of(
                                    &cur.cms_config.hugo_config,
                                    cur.cms_config.hugo_config.hidden_path@,
                                ),
                                hidden_root_of(&cur.cms_config.hugo_config, sh.hidden_path@),
                            )
                        }
                    }),
                    Err(_) => final(self).config == old(self).config,
                }
            }),
    {
        let settled = match &self.config {
            Some(cur) => {
                let trimmed = trim(new_config.cms_config.hugo_config.hidden_path.as_str());
                match set_hidden_path(fs, &cur.cms_config.hugo_config, trimmed.as_str()) {
                    Ok(h) => Some(h),
                    Err(e) => {
                        return Err(e);
                    },
                }
            },
            None => None,
        };
        match settled {
            Some(h) => {
                let stored = AppConfig {
                    ssh_config: clone_ssh_config(&new_config.ssh_config),
                    cms_config: CmsConfig {
                        hugo_config: HugoConfig {
                            hidden_path: h,
                            ..clone_hugo_config(&new_config.cms_config.hugo_config)
                        },
                    },
                };
                self.config = Some(stored);
            },
            None => {
                self.config = Some(new_config);
            },
        }
        Ok(())
    }
}

/// The physical root the staging subtree currently lives under.
pub open spec fn hidden_root_of(cfg: &HugoConfig, h: Seq<char>) -> Seq<char> {
    cfg.base_path@ + "/content/"@ + h
}

/// The drawn staging name is acceptable: the request itself, adopted
/// verbatim, when one was given; otherwise ten random alphanumeric
/// characters.
pub open spec fn hidden_name_ok(request: Seq<char>, h: Seq<char>) -> bool {
    if request.len() != 0 {
        h == request
    } else {
        h.len() == 10 && forall|i: int| 0 <= i < h.len() ==> is_alnum_char(#[trigger] h[i])
    }
}

/// Whether moving the staging subtree to the root named `h` succeeds on
/// the model.
pub open spec fn hidden_move_ok(m: Map<Seq<char>, FsEntryV>, cfg: &HugoConfig, h: Seq<char>) -> bool {
    let src = hidden_root_of(cfg, cfg.hidden_path@);
    let dst = hidden_root_of(cfg, h);
    !blocked_by_file(m, parent_of(dst)) && rename_result(add_dirs_map(m, parent_of(dst)), src, dst)
        is Ok
}

/// Settle the hidden staging root's name and, when it changes, move the
/// whole staging subtree: a nonempty request names the root verbatim, an
/// empty request draws a fresh random name; with no previous root, or an
/// unchanged one, nothing moves.  For a nonempty request the outcome is
/// owed exactly: success when nothing moves or the model rename succeeds,
/// the rename's own error otherwise.  Normalizing the request is the
/// caller's business: [`ConfigStore::set_app_config`] trims it first.
pub fn set_hidden_path(fs: &mut MemFs, cfg: &HugoConfig, new_hidden_path: &str) -> (r: Result<
    String,
    CmsError,
>)
    requires
        old(fs).wf(),
    ensures
        final(fs).wf(),
        match r {
            Ok(h) => {
                &&& hidden_name_ok(new_hidden_path@, h@)
                &&& if cfg.hidden_path@.len() == 0 || cfg.hidden_path@ == h@ {
                    final(fs)@ == old(fs)@
                } else {
                    hidden_move_ok(old(fs)@, cfg, h@) && final(fs)@ == rename_map(
                        add_dirs_map(old(fs)@, parent_of(hidden_root_of(cfg, h@))),
                        hidden_root_of(cfg, cfg.hidden_path@),
                        hidden_root_of(cfg, h@),
                    )
                }
            },
            Err(e) => exists|h: Seq<char>|
                {
                    &&& #[trigger] hidden_name_ok(new_hidden_path@, h)
                    &&& cfg.hidden_path@.len() != 0
                    &&& cfg.hidden_path@ != h
                    &&& if blocked_by_file(old(fs)@, parent_of(hidden_root_of(cfg, h))) {
                        e == CmsError::RemoteIo && final(fs)@ == old(fs)@
                    } else {
                        final(fs)@ == add_dirs_map(old(fs)@, parent_of(hidden_root_of(cfg, h)))
                            && Err::<(), CmsError>(e) == rename_result(
                            add_dirs_map(old(fs)@, parent_of(hidden_root_of(cfg, h))),
                            hidden_root_of(cfg, cfg.hidden_path@),
                            hidden_root_of(cfg, h),
                        )
                    }
                },
        },
        new_hidden_path@.len() != 0 ==> (r is Ok <==> cfg.hidden_path@.len() == 0
            || cfg.hidden_path@ == new_hidden_path@ || hidden_move_ok(
            old(fs)@,
            cfg,
            new_hidden_path@,
        )),
{
    let final_hidden = if new_hidden_path.unicode_len() == 0 {
        random_alphanumeric(10)
    } else {
        String::from_str(new_hidden_path)
    };
    if cfg.hidden_path.as_str().unicode_len() == 0 || crate::strutil::str_eq(
        cfg.hidden_path.as_str(),
        final_hidden.as_str(),
    ) {
        return Ok(final_hidden);
    }
    let old_abs = concat3(cfg.base_path.as_str(), "/content/", cfg.hidden_path.as_str());
    let new_abs = concat3(cfg.base_path.as_str(), "/content/", final_hidden.as_str());
    match fs.move_file(old_abs.as_str(), new_abs.as_str()) {
        Ok(()) => Ok(final_hidden),
        Err(e) => {
            proof {
                assert(hidden_name_ok(new_hidden_path@, final_hidden@));
            }
            Err(e)
        },
    }
}

} // verus!
