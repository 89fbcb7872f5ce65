//! Project configuration: the sections whose content the library acts on,
//! the choice of compute backend, and the environment handed to an
//! experiment's command.

use vstd::prelude::*;
use crate::ssh::{SshBackend, SshConfig, SshError};
use crate::text::{extend_str, is_blank, pair_views, string_of};
use crate::trial::{lookup, lookup_param};

verus! {

// ---------------------------------------------------------------------------
// Defaults of the configuration file
// ---------------------------------------------------------------------------

/// The project version when the file gives none.
pub fn default_version() -> (r: String)
    ensures
        r@ == "0.1.0"@,
{
    "0.1.0".to_owned()
}

/// Seconds an experiment may run.
pub fn default_timeout() -> (r: u64)
    ensures
        r == 600,
{
    600
}

/// Where benchmark runs are stored.
pub fn default_store_path() -> (r: String)
    ensures
        r@ == "runs/"@,
{
    "runs/".to_owned()
}

/// The compute backend when the `[compute]` section names none.
pub fn default_backend() -> (r: String)
    ensures
        r@ == "local"@,
{
    "local".to_owned()
}

/// Members of a PBT population.
pub fn default_pbt_population() -> (r: usize)
    ensures
        r == 8,
{
    8
}

/// The objectives of NSGA-II: `f1` and `precision`.
pub fn default_nsga_objectives() -> (r: Vec<String>)
    ensures
        r@.map_values(|s: String| s@) == seq!["f1"@, "precision"@],
{
    let mut v: Vec<String> = Vec::new();
    v.push("f1".to_owned());
    v.push("precision".to_owned());
    assert(v@.map_values(|s: String| s@) =~= seq!["f1"@, "precision"@]);
    v
}

/// Members of an NSGA-II population.
pub fn default_nsga_population() -> (r: usize)
    ensures
        r == 20,
{
    20
}

/// The largest resource Hyperband gives a configuration.
pub fn default_hyperband_max_resource() -> (r: usize)
    ensures
        r == 81,
{
    81
}

/// Hyperband's reduction factor.
pub fn default_hyperband_eta() -> (r: usize)
    ensures
        r == 3,
{
    3
}

/// Runs checked for a plateau.
pub fn default_plateau_window() -> (r: usize)
    ensures
        r == 5,
{
    5
}

/// Retries of a failed experiment.
pub fn default_max_retries() -> (r: usize)
    ensures
        r == 1,
{
    1
}

/// The `[project]` section.
pub struct ProjectConfig {
    pub name: String,
    pub version: String,
}

impl ProjectConfig {
    /// A project with the default version, `0.1.0`.
    pub fn named(name: String) -> (r: Self)
        ensures
            r.name@ == name@,
            r.version@ == "0.1.0"@,
    {
        ProjectConfig { name, version: default_version() }
    }
}

/// The `[compute]` section.
pub struct ComputeSection {
    /// `local` (or empty) for a subprocess, `ssh` for a remote host.
    pub backend: String,
    pub gpu_type: Option<String>,
    /// The `[compute.ssh]` block, used by the `ssh` backend.
    pub ssh: Option<SshConfig>,
}

impl Default for ComputeSection {
    /// The section of a file that has none: no backend named, no GPU, no
    /// `ssh` block.
    fn default() -> (r: Self)
        ensures
            r.backend@ == Seq::<char>::empty(),
            r.gpu_type is None,
            r.ssh is None,
    {
        ComputeSection { backend: String::new(), gpu_type: None, ssh: None }
    }
}

/// The backend that runs experiments.
pub enum Backend {
    /// A local subprocess.
    Subprocess,
    /// A remote host over `ssh`.
    Ssh(SshBackend),
}

/// Why no backend could be built.
#[derive(Debug, PartialEq, Eq)]
pub enum BackendError {
    /// `backend = "ssh"` without a `[compute.ssh]` block.
    MissingSshBlock,
    /// The `[compute.ssh]` block was refused.
    Ssh(SshError),
    /// No backend has this name.
    Unknown(String),
}

/// The sentence that describes a backend error.
pub open spec fn backend_error_text(e: BackendError) -> Seq<char> {
    match e {
        BackendError::MissingSshBlock => "compute.backend = \"ssh\" requires a [compute.ssh] block in mobius.toml"@,
        BackendError::Ssh(_) => "ssh backend: 'host' must not be empty"@,
        BackendError::Unknown(name) => "unknown compute backend '"@ + name@
            + "' \u{2014} supported: 'local', 'ssh'"@,
    }
}

impl BackendError {
    /// The sentence that describes the error.
    pub fn message(&self) -> (r: String)
        ensures
            r@ == backend_error_text(*self),
    {
        match self {
            BackendError::MissingSshBlock => {
                "compute.backend = \"ssh\" requires a [compute.ssh] block in mobius.toml".to_owned()
            },
            BackendError::Ssh(e) => e.message(),
            BackendError::Unknown(name) => {
                let mut out: Vec<char> = Vec::new();
                extend_str(&mut out, "unknown compute backend '");
                extend_str(&mut out, name.as_str());
                extend_str(&mut out, "' \u{2014} supported: 'local', 'ssh'");
                string_of(&out)
            },
        }
    }
}

/// Builds the backend that the `[compute]` section selects: a subprocess for
/// `local` or an empty name, the `ssh` backend for `ssh` (which needs an
/// `ssh` block whose host is not blank); any other name is an error.
pub fn build_backend(compute: ComputeSection) -> (r: Result<Backend, BackendError>)
    ensures
        (compute.backend@ == "local"@ || compute.backend@ == Seq::<char>::empty()) ==> r matches Ok(
            Backend::Subprocess,
        ),
        compute.backend@ == "ssh"@ ==> match compute.ssh {
            None => r == Err::<Backend, BackendError>(BackendError::MissingSshBlock),
            Some(cfg) => if is_blank(cfg.host@) {
                r == Err::<Backend, BackendError>(BackendError::Ssh(SshError::EmptyHost))
            } else {
                (r matches Ok(Backend::Ssh(b)) && b.spec_config() == cfg && b.spec_home() is None)
            },
        },
        !(compute.backend@ == "local"@ || compute.backend@ == Seq::<char>::empty()
            || compute.backend@ == "ssh"@) ==> (r matches Err(BackendError::Unknown(n)) && n@
            == compute.backend@),
{
    let name = compute.backend;
    if name == "local".to_owned() || name == String::new() {
        assert(name@ != "ssh"@) by {
            reveal_strlit("ssh");
            reveal_strlit("local");
            assert("ssh"@.len() == 3);
            assert("local"@.len() == 5);
        }
        Ok(Backend::Subprocess)
    } else if name == "ssh".to_owned() {
        match compute.ssh {
            None => Err(BackendError::MissingSshBlock),
            Some(cfg) => {
                let ghost c = cfg;
                match SshBackend::new(cfg) {
                    Ok(b) => {
                        assert(!is_blank(c.host@));
                        assert(b.spec_config() == c);
                        Ok(Backend::Ssh(b))
                    },
                    Err(e) => {
                        assert(e == SshError::EmptyHost);
                        assert(is_blank(c.host@));
                        Err(BackendError::Ssh(e))
                    },
                }
            },
        }
    } else {
        Err(BackendError::Unknown(name))
    }
}

/// The environment of an experiment: for each (parameter, variable) entry of
/// `env_map`, in order, the variable set to the parameter's text when the
/// parameters have it (a later entry for the same variable wins).
pub open spec fn env_for(
    params: Seq<(Seq<char>, Seq<char>)>,
    env_map: Seq<(Seq<char>, Seq<char>)>,
) -> Seq<(Seq<char>, Seq<char>)> {
    env_map.filter(|e: (Seq<char>, Seq<char>)| lookup(params, e.0) is Some).map_values(
        |e: (Seq<char>, Seq<char>)| (e.1, lookup(params, e.0)->0),
    )
}

/// Maps experiment parameters to environment variables. A parameter's text
/// is the string itself for a JSON string and its JSON text otherwise.
pub fn config_to_env(params: &Vec<(String, String)>, env_map: &Vec<(String, String)>) -> (r: Vec<
    (String, String),
>)
    ensures
        pair_views(r@) == env_for(pair_views(params@), pair_views(env_map@)),
{
    let ghost pv = pair_views(params@);
    let ghost ev = pair_views(env_map@);
    let ghost keep = |e: (Seq<char>, Seq<char>)| lookup(pv, e.0) is Some;
    let ghost f = |e: (Seq<char>, Seq<char>)| (e.1, lookup(pv, e.0)->0);
    let mut r: Vec<(String, String)> = Vec::new();
    let mut i: usize = 0;
    assert(ev.take(0) =~= Seq::<(Seq<char>, Seq<char>)>::empty());
    while i < env_map.len()
        invariant
            i <= env_map.len(),
            pv == pair_views(params@),
            ev == pair_views(env_map@),
            keep == (|e: (Seq<char>, Seq<char>)| lookup(pv, e.0) is Some),
            f == (|e: (Seq<char>, Seq<char>)| (e.1, lookup(pv, e.0)->0)),
            pair_views(r@) == ev.take(i as int).filter(keep).map_values(f),
        decreases env_map.len() - i,
    {
        let ghost before = pair_views(r@);
        proof {
            assert(ev.take(i + 1) =~= ev.take(i as int).push(ev[i as int]));
            ev.take(i as int).lemma_filter_push(ev[i as int], keep);
        }
        assert(ev[i as int] == (env_map@[i as int].0@, env_map@[i as int].1@));
        match lookup_param(params, &env_map[i].0) {
            Some(v) => {
                r.push((env_map[i].1.clone(), v.clone()));
                assert(pair_views(r@) =~= before.push(f(ev[i as int])));
            },
            None => {},
        }
        assert(ev.take(i + 1).filter(keep).map_values(f) =~= if keep(ev[i as int]) {
            ev.take(i as int).filter(keep).map_values(f).push(f(ev[i as int]))
        } else {
            ev.take(i as int).filter(keep).map_values(f)
        });
        i += 1;
    }
    assert(ev.take(env_map.len() as int) =~= ev);
    r
}

} // verus!
