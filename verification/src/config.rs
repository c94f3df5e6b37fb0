//! The installer store: the in-memory set of installed instances,
//! the operations that mutate it, and its textual form on disk.

use vstd::prelude::*;
use crate::errors::InstallError;
use crate::text::{doc_of, emit_document, parse_document, spec_parse_doc, str_eq};

verus! {

/// One installed application instance, as held in the store.
pub struct InstallerConfig {
    /// Origin endpoint used for registration; opaque, not reused for download.
    pub url: String,
    /// Unique identifier of this instance, assigned externally.
    pub installer_token: String,
    pub app_name: String,
    pub app_version: String,
    pub app_file_name: String,
    /// The port the application instance binds to.
    pub app_run_port: u32,
    pub jdk_name: String,
    pub jdk_version: String,
    pub jdk_file_name: String,
}

/// The mathematical content of an installer record.
pub ghost struct InstallerView {
    pub url: Seq<char>,
    pub installer_token: Seq<char>,
    pub app_name: Seq<char>,
    pub app_version: Seq<char>,
    pub app_file_name: Seq<char>,
    pub app_run_port: u32,
    pub jdk_name: Seq<char>,
    pub jdk_version: Seq<char>,
    pub jdk_file_name: Seq<char>,
}

impl View for InstallerConfig {
    type V = InstallerView;

    open spec fn view(&self) -> InstallerView {
        InstallerView {
            url: self.url@,
            installer_token: self.installer_token@,
            app_name: self.app_name@,
            app_version: self.app_version@,
            app_file_name: self.app_file_name@,
            app_run_port: self.app_run_port,
            jdk_name: self.jdk_name@,
            jdk_version: self.jdk_version@,
            jdk_file_name: self.jdk_file_name@,
        }
    }
}

/// A registration record freshly obtained from the control plane.
///
/// It carries exactly the fields of an `InstallerConfig`; it is a type of
/// its own because it arrives from outside the store and is validated by
/// the registrar before a record is made of it.
pub struct InstallerInfo {
    pub url: String,
    pub installer_token: String,
    pub app_name: String,
    pub app_version: String,
    pub app_file_name: String,
    pub app_run_port: u32,
    pub jdk_name: String,
    pub jdk_version: String,
    pub jdk_file_name: String,
}

impl View for InstallerInfo {
    type V = InstallerView;

    open spec fn view(&self) -> InstallerView {
        InstallerView {
            url: self.url@,
            installer_token: self.installer_token@,
            app_name: self.app_name@,
            app_version: self.app_version@,
            app_file_name: self.app_file_name@,
            app_run_port: self.app_run_port,
            jdk_name: self.jdk_name@,
            jdk_version: self.jdk_version@,
            jdk_file_name: self.jdk_file_name@,
        }
    }
}

/// The config store: the host's identity and the installed instances.
pub struct Config {
    /// Identifies this server; derived once, never regenerated.
    pub server_token: String,
    pub installers: Vec<InstallerConfig>,
}

/// The mathematical content of the store.
pub ghost struct ConfigView {
    pub server_token: Seq<char>,
    pub installers: Seq<InstallerView>,
}

/// The views of a sequence of installer records, in order.
pub open spec fn installer_views(s: Seq<InstallerConfig>) -> Seq<InstallerView> {
    Seq::new(s.len(), |i: int| s[i]@)
}

impl View for Config {
    type V = ConfigView;

    open spec fn view(&self) -> ConfigView {
        ConfigView {
            server_token: self.server_token@,
            installers: installer_views(self.installers@),
        }
    }
}

/// The index of the first record bearing `token`, or `-1` if none does.
pub open spec fn first_token_index(s: Seq<InstallerView>, token: Seq<char>) -> int
    decreases s.len(),
{
    if s.len() == 0 {
        -1
    } else if s[0].installer_token == token {
        0
    } else {
        let r = first_token_index(s.drop_first(), token);
        if r == -1 {
            -1
        } else {
            r + 1
        }
    }
}

/// Some record in `s` binds `port`.
pub open spec fn has_port(s: Seq<InstallerView>, port: u32) -> bool {
    exists|i: int| 0 <= i < s.len() && s[i].app_run_port == port
}

/// The index of the first record bound to `port`, or `-1` if none is.
pub open spec fn first_port_index(s: Seq<InstallerView>, port: u32) -> int
    decreases s.len(),
{
    if s.len() == 0 {
        -1
    } else if s[0].app_run_port == port {
        0
    } else {
        let r = first_port_index(s.drop_first(), port);
        if r == -1 {
            -1
        } else {
            r + 1
        }
    }
}

proof fn lemma_first_token_none(s: Seq<InstallerView>, token: Seq<char>)
    requires
        forall|k: int| 0 <= k < s.len() ==> s[k].installer_token != token,
    ensures
        first_token_index(s, token) == -1,
    decreases s.len(),
{
    if s.len() > 0 {
        assert(forall|k: int|
            0 <= k < s.drop_first().len() ==> s.drop_first()[k] == s[k + 1]);
        lemma_first_token_none(s.drop_first(), token);
    }
}

proof fn lemma_first_token_at(s: Seq<InstallerView>, token: Seq<char>, i: int)
    requires
        0 <= i < s.len(),
        s[i].installer_token == token,
        forall|k: int| 0 <= k < i ==> s[k].installer_token != token,
    ensures
        first_token_index(s, token) == i,
    decreases i,
{
    if i > 0 {
        assert(forall|k: int|
            0 <= k < s.drop_first().len() ==> s.drop_first()[k] == s[k + 1]);
        lemma_first_token_at(s.drop_first(), token, i - 1);
    }
}

proof fn lemma_first_port_none(s: Seq<InstallerView>, port: u32)
    requires
        forall|k: int| 0 <= k < s.len() ==> s[k].app_run_port != port,
    ensures
        first_port_index(s, port) == -1,
    decreases s.len(),
{
    if s.len() > 0 {
        assert(forall|k: int|
            0 <= k < s.drop_first().len() ==> s.drop_first()[k] == s[k + 1]);
        lemma_first_port_none(s.drop_first(), port);
    }
}

proof fn lemma_first_port_at(s: Seq<InstallerView>, port: u32, i: int)
    requires
        0 <= i < s.len(),
        s[i].app_run_port == port,
        forall|k: int| 0 <= k < i ==> s[k].app_run_port != port,
    ensures
        first_port_index(s, port) == i,
    decreases i,
{
    if i > 0 {
        assert(forall|k: int|
            0 <= k < s.drop_first().len() ==> s.drop_first()[k] == s[k + 1]);
        lemma_first_port_at(s.drop_first(), port, i - 1);
    }
}

/// Appends the record described by `installer_info` to the store.
///
/// The store is a dumb container here: it does not check uniqueness of
/// the token or of the port.  `register_installer` is the entry point
/// that checks the port before adding; tokens are assigned uniquely by
/// the control plane and never made up locally.
pub fn add_installer(config_info: &mut Config, installer_info: InstallerInfo)
    ensures
        final(config_info)@.server_token == old(config_info)@.server_token,
        final(config_info)@.installers == old(config_info)@.installers.push(installer_info@),
{
    let installer_config = InstallerConfig {
        url: installer_info.url,
        installer_token: installer_info.installer_token,
        app_name: installer_info.app_name,
        app_version: installer_info.app_version,
        app_file_name: installer_info.app_file_name,
        app_run_port: installer_info.app_run_port,
        jdk_name: installer_info.jdk_name,
        jdk_version: installer_info.jdk_version,
        jdk_file_name: installer_info.jdk_file_name,
    };
    config_info.installers.push(installer_config);
    proof {
        assert(config_info@.installers =~= old(config_info)@.installers.push(
            installer_config@));
    }
}

/// Removes the first record bearing `installer_token`; a no-op, not a
/// failure, when no record bears it.
pub fn remove_installer(config_info: &mut Config, installer_token: &str)
    ensures
        final(config_info)@.server_token == old(config_info)@.server_token,
        ({
            let s = old(config_info)@.installers;
            let j = first_token_index(s, installer_token@);
            &&& j == -1 ==> final(config_info)@.installers == s
            &&& j >= 0 ==> final(config_info)@.installers == s.remove(j)
        }),
{
    let ghost s = config_info@.installers;
    let n = config_info.installers.len();
    let mut i: usize = 0;
    while i < n
        invariant
            *config_info == *old(config_info),
            s == config_info@.installers,
            n == s.len(),
            i <= n,
            forall|k: int| 0 <= k < i ==> s[k].installer_token != installer_token@,
        decreases n - i,
    {
        if str_eq(config_info.installers[i].installer_token.as_str(), installer_token) {
            proof {
                lemma_first_token_at(s, installer_token@, i as int);
            }
            config_info.installers.remove(i);
            proof {
                assert(config_info@.installers =~= s.remove(i as int));
            }
            return ;
        }
        i = i + 1;
    }
    proof {
        lemma_first_token_none(s, installer_token@);
    }
}

/// The first record bound to `app_run_port`, or `None` if the port is free.
pub fn get_installer_by_port(config_info: &Config, app_run_port: u32) -> (r: Option<
    &InstallerConfig,
>)
    ensures
        r is Some <==> has_port(config_info@.installers, app_run_port),
        r is Some ==> r.unwrap()@ == config_info@.installers[first_port_index(
            config_info@.installers,
            app_run_port,
        )],
{
    let ghost s = config_info@.installers;
    let n = config_info.installers.len();
    let mut i: usize = 0;
    while i < n
        invariant
            s == config_info@.installers,
            n == s.len(),
            i <= n,
            forall|k: int| 0 <= k < i ==> s[k].app_run_port != app_run_port,
        decreases n - i,
    {
        if config_info.installers[i].app_run_port == app_run_port {
            proof {
                lemma_first_port_at(s, app_run_port, i as int);
            }
            return Some(&config_info.installers[i]);
        }
        i = i + 1;
    }
    None
}

/// No two records of `s` bind the same port: the store's invariant,
/// which the registrar maintains.
pub open spec fn ports_unique(s: Seq<InstallerView>) -> bool {
    forall|i: int, j: int|
        0 <= i < j < s.len() ==> #[trigger] s[i].app_run_port != #[trigger] s[j].app_run_port
}

/// Every string field of the record is non-empty.
pub open spec fn fields_nonempty(v: InstallerView) -> bool {
    &&& v.url.len() > 0
    &&& v.installer_token.len() > 0
    &&& v.app_name.len() > 0
    &&& v.app_version.len() > 0
    &&& v.app_file_name.len() > 0
    &&& v.jdk_name.len() > 0
    &&& v.jdk_version.len() > 0
    &&& v.jdk_file_name.len() > 0
}

/// Registers a freshly obtained record into the store: validates its
/// fields, refuses a port that is already bound, and otherwise appends.
///
/// The caller persists the store afterwards; a failure leaves the store
/// exactly as it was.
pub fn register_installer(config_info: &mut Config, installer_info: InstallerInfo) -> (r: Result<
    (),
    InstallError,
>)
    ensures
        final(config_info)@.server_token == old(config_info)@.server_token,
        ({
            let s = old(config_info)@.installers;
            let v = installer_info@;
            &&& !fields_nonempty(v) ==> r == Err::<(), InstallError>(InstallError::Malformed)
                && *final(config_info) == *old(config_info)
            &&& fields_nonempty(v) && has_port(s, v.app_run_port) ==> r == Err::<
                (),
                InstallError,
            >(InstallError::Conflict) && *final(config_info) == *old(config_info)
            &&& fields_nonempty(v) && !has_port(s, v.app_run_port) ==> r == Ok::<
                (),
                InstallError,
            >(()) && final(config_info)@.installers == s.push(v)
        }),
        ports_unique(old(config_info)@.installers) ==> ports_unique(final(config_info)@.installers),
{
    if installer_info.url.as_str().is_empty() || installer_info.installer_token.as_str().is_empty()
        || installer_info.app_name.as_str().is_empty()
        || installer_info.app_version.as_str().is_empty()
        || installer_info.app_file_name.as_str().is_empty()
        || installer_info.jdk_name.as_str().is_empty()
        || installer_info.jdk_version.as_str().is_empty()
        || installer_info.jdk_file_name.as_str().is_empty() {
        return Err(InstallError::Malformed);
    }
    if get_installer_by_port(config_info, installer_info.app_run_port).is_some() {
        return Err(InstallError::Conflict);
    }
    let ghost port = installer_info@.app_run_port;
    let ghost before = config_info@.installers;
    add_installer(config_info, installer_info);
    proof {
        let after = config_info@.installers;
        if ports_unique(before) {
            assert forall|i: int, j: int|
                0 <= i < j < after.len() implies #[trigger] after[i].app_run_port
                != #[trigger] after[j].app_run_port by {
                if j < before.len() {
                    assert(after[i] == before[i] && after[j] == before[j]);
                } else {
                    assert(after[j].app_run_port == port);
                    assert(after[i] == before[i]);
                    assert(before[i].app_run_port != port);
                }
            }
        }
    }
    Ok(())
}

/// The store's durable textual form, written in full: persisting is a
/// pure function of the store alone, so the last text written wins.
///
/// The caller overwrites the config file with the returned text.
pub fn save(config_info: &Config) -> (r: String)
    ensures
        r@ == doc_of(config_info@),
{
    emit_document(config_info)
}

/// Reads a store back from the config file's text; text that is not a
/// well-formed document is a `Malformed` failure, never a silent default.
pub fn read(text: &str) -> (r: Result<Config, InstallError>)
    ensures
        r is Ok <==> spec_parse_doc(text@) is Some,
        r is Ok ==> spec_parse_doc(text@) == Some(r.unwrap()@),
        r is Err ==> r == Err::<Config, InstallError>(InstallError::Malformed),
{
    match parse_document(text) {
        Some(config_info) => Ok(config_info),
        None => Err(InstallError::Malformed),
    }
}

/// The store at start-up: parsed from the config file's text where one
/// exists, and otherwise synthesized fresh — the derived host identifier
/// and not one installer.  With neither a file nor a derivable
/// identifier, the store is `Unavailable`.
pub fn get(file_content: Option<&str>, server_token: Option<&str>) -> (r: Result<
    Config,
    InstallError,
>)
    ensures
        file_content is Some ==> (r is Ok <==> spec_parse_doc(file_content.unwrap()@) is Some),
        file_content is Some && r is Ok ==> spec_parse_doc(file_content.unwrap()@) == Some(
            r.unwrap()@,
        ),
        file_content is Some && r is Err ==> r == Err::<Config, InstallError>(
            InstallError::Malformed,
        ),
        file_content is None && server_token is Some ==> r is Ok && r.unwrap()@.server_token
            == server_token.unwrap()@ && r.unwrap()@.installers == Seq::<InstallerView>::empty(),
        file_content is None && server_token is None ==> r == Err::<Config, InstallError>(
            InstallError::Unavailable,
        ),
{
    match file_content {
        Some(text) => read(text),
        None => match server_token {
            Some(token) => {
                let fresh = Config { server_token: token.to_owned(), installers: Vec::new() };
                proof {
                    assert(fresh@.installers =~= Seq::<InstallerView>::empty());
                }
                Ok(fresh)
            },
            None => Err(InstallError::Unavailable),
        },
    }
}

/// Removing a present token — one that exactly one record bears, as
/// the control plane's assignment guarantees — shortens the store by
/// exactly one record, and
/// the token no longer appears; removing an absent token changes
/// nothing (see `remove_installer`'s contract).
pub proof fn lemma_remove_present_token(s: Seq<InstallerView>, token: Seq<char>, j: int)
    requires
        0 <= j < s.len(),
        s[j].installer_token == token,
        forall|k: int| 0 <= k < s.len() && k != j ==> s[k].installer_token != token,
    ensures
        first_token_index(s, token) == j,
        s.remove(j).len() == s.len() - 1,
        forall|k: int| 0 <= k < s.remove(j).len() ==> s.remove(j)[k].installer_token != token,
{
    lemma_first_token_at(s, token, j);
    assert forall|k: int| 0 <= k < s.remove(j).len() implies s.remove(
        j,
    )[k].installer_token != token by {
        if k < j {
            assert(s.remove(j)[k] == s[k]);
        } else {
            assert(s.remove(j)[k] == s[k + 1]);
        }
    }
}

} // verus!
