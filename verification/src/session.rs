//! Session manager decisions: whether to reuse or replace the one live
//! authenticated transport, whether a pooled transfer handle may be handed
//! out, and how the remote home path is read off the probe output.

use vstd::prelude::*;

verus! {

/// The liveness view of the one session slot.
pub struct SessionState {
    pub authenticated: bool,
}

/// What a connect request resolves to.
#[derive(Clone, Copy, Debug, PartialEq, Eq, Structural)]
pub enum ConnectAction {
    /// The current session is alive: keep it.
    Reuse,
    /// Tear the current session down and open a fresh transport.
    Reconnect,
}

/// Decide a connect request: without `force`, an authenticated session
/// that still answers a liveness probe is kept; anything else replaces
/// the transport.
pub fn connect(state: &SessionState, probe_ok: bool, force: bool) -> (r: ConnectAction)
    ensures
        r == ConnectAction::Reuse <==> !force && state.authenticated && probe_ok,
{
    if !force && state.authenticated && probe_ok {
        ConnectAction::Reuse
    } else {
        ConnectAction::Reconnect
    }
}

/// The non-mutating liveness probe: connected means authenticated and
/// answering.
pub fn is_connected(state: &SessionState, probe_ok: bool) -> (r: bool)
    ensures
        r == (state.authenticated && probe_ok),
{
    state.authenticated && probe_ok
}

/// What happens when a transfer handle is checked out of the one-slot
/// pool.
#[derive(Clone, Copy, Debug, PartialEq, Eq, Structural)]
pub enum HandleAction {
    /// Hand out the cached handle.
    UseCached,
    /// The cached handle is dead or absent: open and cache a fresh one.
    ReplaceDead,
}

/// Decide a transfer-handle checkout: a cached handle that still answers
/// a cheap existence check is handed out; a dead or missing one is
/// replaced transparently.
pub fn get_file_transfer_handle(cached_present: bool, cached_responsive: bool) -> (r: HandleAction)
    ensures
        r == HandleAction::UseCached <==> cached_present && cached_responsive,
{
    if cached_present && cached_responsive {
        HandleAction::UseCached
    } else {
        HandleAction::ReplaceDead
    }
}

/// How the transport authenticates.
#[derive(Clone, Copy, Debug, PartialEq, Eq, Structural)]
pub enum AuthMethod {
    /// A password was supplied: authenticate with it.
    Password,
    /// No password: authenticate with the public-key file.
    KeyFile,
}

/// Decide the authentication method: the password when one is present,
/// the key file otherwise.
pub fn auth_method(password: &str) -> (r: AuthMethod)
    ensures
        r == AuthMethod::Password <==> password@.len() != 0,
{
    if password.unicode_len() != 0 {
        AuthMethod::Password
    } else {
        AuthMethod::KeyFile
    }
}

/// What a finished remote command reports: its error stream when it wrote
/// one, its output stream otherwise.
pub fn command_output(stderr: String, stdout: String) -> (r: String)
    ensures
        r@ == if stderr@.len() > 0 {
            stderr@
        } else {
            stdout@
        },
{
    if stderr.as_str().unicode_len() > 0 {
        stderr
    } else {
        stdout
    }
}

/// The probe that lists the site generator's server process.
pub fn find_server_pid_command(hugo_cmd_path: &str) -> (r: String)
    ensures
        r@ == "ps -ef | grep '"@ + hugo_cmd_path@
            + " server' | grep -v grep | awk '{print$2}'"@,
{
    let a = crate::strutil::concat3(
        "ps -ef | grep '",
        hugo_cmd_path,
        " server' | grep -v grep | awk '{print$2}'",
    );
    a
}

/// The command that stops the listed process.
pub fn kill_server_command(pid: &str) -> (r: String)
    ensures
        r@ == "kill -9 "@ + crate::strutil::trim_spec(pid@),
{
    let p = crate::strutil::trim(pid);
    crate::strutil::concat2("kill -9 ", p.as_str())
}

/// The command that starts the site generator's server detached, so the
/// one shared channel never blocks on it.
pub fn start_server_command(base_path: &str, hugo_cmd_path: &str) -> (r: String)
    ensures
        r@ == "cd "@ + base_path@ + " ; nohup "@ + hugo_cmd_path@
            + " server --liveReloadPort=443 --bind=0.0.0.0 > ./nohup.out 2>&1 < /dev/null &"@,
{
    let a = crate::strutil::concat3("cd ", base_path, " ; nohup ");
    let r = crate::strutil::concat3(
        a.as_str(),
        hugo_cmd_path,
        " server --liveReloadPort=443 --bind=0.0.0.0 > ./nohup.out 2>&1 < /dev/null &",
    );
    proof {
        assert(r@ =~= "cd "@ + base_path@ + " ; nohup "@ + hugo_cmd_path@
            + " server --liveReloadPort=443 --bind=0.0.0.0 > ./nohup.out 2>&1 < /dev/null &"@);
    }
    r
}

/// The user's remote home path, read off the output of the home probe.
pub fn get_home_path(echo_output: &str) -> (r: String)
    ensures
        r@ == crate::strutil::trim_spec(echo_output@),
{
    crate::strutil::trim(echo_output)
}

} // verus!
