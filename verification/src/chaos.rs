//! Fault injection for experiments: the faults, what applying and reverting
//! one amounts to, and the commands and requests that do it.
use vstd::prelude::*;
use crate::backend::F64Bits;
use crate::json::Json;
use crate::text::{append_str, concat, dec, owned, push_u64};

verus! {

/// A toxic of the TCP proxy: its name, kind, direction, the share of
/// connections it applies to (as a binary64 bit pattern) and its settings.
#[derive(Debug)]
pub struct Toxic {
    pub name: String,
    pub toxic_type: String,
    pub stream: String,
    pub toxicity: F64Bits,
    pub attributes: Json,
}

/// A fault to inject.
#[derive(Debug)]
pub enum FaultSpec {
    /// Add a toxic to a proxy.
    Toxiproxy { proxy: String, toxic: Toxic },
    /// Kill a container.
    PumbaKill { container: String },
    /// Pause a container for a while.
    PumbaPause { container: String, duration_sec: u32 },
    /// Load a container's CPUs for a while.
    PumbaStress { container: String, cpus: u32, duration_sec: u32 },
}

/// A fault that was applied, with what reverting it needs.
#[derive(Debug)]
pub struct FaultHandle {
    pub spec: FaultSpec,
    pub revert_token: String,
}

/// The token that reverts a fault: the toxic's name for a proxy toxic;
/// nothing for the container faults, which end by themselves.
pub open spec fn revert_token_of(spec: FaultSpec) -> Seq<char> {
    match spec {
        FaultSpec::Toxiproxy { toxic, .. } => toxic.name@,
        _ => Seq::empty(),
    }
}

/// The handle of a fault once it was applied.
pub fn applied(spec: FaultSpec) -> (h: FaultHandle)
    ensures
        h.spec == spec,
        h.revert_token@ == revert_token_of(spec),
{
    let token = match &spec {
        FaultSpec::Toxiproxy { toxic, .. } => toxic.name.clone(),
        _ => {
            proof {
                reveal_strlit("");
            }
            owned("")
        },
    };
    FaultHandle { spec, revert_token: token }
}

/// The endpoint that clears every toxic of the proxy server `base`.
pub open spec fn reset_url_spec(base: Seq<char>) -> Seq<char> {
    base + "/reset"@
}

/// The endpoint that clears every toxic of the proxy server `base`.
pub fn reset_url(base: &str) -> (r: String)
    ensures
        r@ == reset_url_spec(base@),
{
    concat(base, "/reset")
}

/// The toxics endpoint of `proxy`.
pub open spec fn toxics_url_spec(base: Seq<char>, proxy: Seq<char>) -> Seq<char> {
    base + "/proxies/"@ + proxy + "/toxics"@
}

/// The toxics endpoint of `proxy`, where a toxic is added.
pub fn toxics_url(base: &str, proxy: &str) -> (r: String)
    ensures
        r@ == toxics_url_spec(base@, proxy@),
{
    let mut r = concat(base, "/proxies/");
    append_str(&mut r, proxy);
    append_str(&mut r, "/toxics");
    r
}

/// The endpoint of one toxic of `proxy`, where it is removed.
pub open spec fn toxic_url_spec(base: Seq<char>, proxy: Seq<char>, name: Seq<char>) -> Seq<char> {
    toxics_url_spec(base, proxy) + "/"@ + name
}

/// The endpoint of one toxic of `proxy`, where it is removed.
pub fn toxic_url(base: &str, proxy: &str, name: &str) -> (r: String)
    ensures
        r@ == toxic_url_spec(base@, proxy@, name@),
{
    let mut r = toxics_url(base, proxy);
    append_str(&mut r, "/");
    append_str(&mut r, name);
    r
}

/// A duration in whole seconds, as the container tool reads it.
pub open spec fn seconds_text(d: u32) -> Seq<char> {
    dec(d as nat) + "s"@
}

fn seconds_arg(d: u32) -> (r: String)
    ensures
        r@ == seconds_text(d),
{
    let mut r = owned("");
    proof {
        reveal_strlit("");
    }
    push_u64(&mut r, d as u64);
    append_str(&mut r, "s");
    assert(r@ =~= seconds_text(d));
    r
}

/// The views of some strings.
pub open spec fn texts(v: Seq<String>) -> Seq<Seq<char>> {
    v.map_values(|s: String| s@)
}

/// The arguments of the container tool for a container fault; none for a
/// proxy toxic.
pub open spec fn pumba_args_spec(spec: FaultSpec) -> Option<Seq<Seq<char>>> {
    match spec {
        FaultSpec::Toxiproxy { .. } => None,
        FaultSpec::PumbaKill { container } => Some(seq!["kill"@, "--signal"@, "SIGKILL"@, container@]),
        FaultSpec::PumbaPause { container, duration_sec } => Some(
            seq!["pause"@, "--duration"@, seconds_text(duration_sec), container@],
        ),
        FaultSpec::PumbaStress { container, cpus, duration_sec } => Some(
            seq![
                "--log-level"@,
                "info"@,
                "stress"@,
                "--stress-image"@,
                "alexeiled/stress-ng:latest"@,
                "--duration"@,
                seconds_text(duration_sec),
                "--stressors"@,
                "--cpu "@ + dec(cpus as nat) + " --timeout "@ + seconds_text(duration_sec),
                container@,
            ],
        ),
    }
}

/// The arguments of the container tool for a container fault: kill with
/// SIGKILL, pause for the duration, or run the stress image with that many
/// CPU workers for the duration; none for a proxy toxic.
pub fn pumba_args(spec: &FaultSpec) -> (r: Option<Vec<String>>)
    ensures
        match pumba_args_spec(*spec) {
            Some(a) => r matches Some(v) && texts(v@) == a,
            None => r is None,
        },
{
    match spec {
        FaultSpec::Toxiproxy { .. } => None,
        FaultSpec::PumbaKill { container } => {
            let mut v: Vec<String> = Vec::new();
            v.push(owned("kill"));
            v.push(owned("--signal"));
            v.push(owned("SIGKILL"));
            v.push(container.clone());
            assert(texts(v@) =~= seq!["kill"@, "--signal"@, "SIGKILL"@, container@]);
            Some(v)
        },
        FaultSpec::PumbaPause { container, duration_sec } => {
            let mut v: Vec<String> = Vec::new();
            v.push(owned("pause"));
            v.push(owned("--duration"));
            v.push(seconds_arg(*duration_sec));
            v.push(container.clone());
            assert(texts(v@) =~= seq!["pause"@, "--duration"@, seconds_text(*duration_sec), container@]);
            Some(v)
        },
        FaultSpec::PumbaStress { container, cpus, duration_sec } => {
            let mut stressors = owned("--cpu ");
            push_u64(&mut stressors, *cpus as u64);
            append_str(&mut stressors, " --timeout ");
            append_str(&mut stressors, seconds_arg(*duration_sec).as_str());
            let mut v: Vec<String> = Vec::new();
            v.push(owned("--log-level"));
            v.push(owned("info"));
            v.push(owned("stress"));
            v.push(owned("--stress-image"));
            v.push(owned("alexeiled/stress-ng:latest"));
            v.push(owned("--duration"));
            v.push(seconds_arg(*duration_sec));
            v.push(owned("--stressors"));
            v.push(stressors);
            v.push(container.clone());
            assert(texts(v@) =~= seq![
                "--log-level"@,
                "info"@,
                "stress"@,
                "--stress-image"@,
                "alexeiled/stress-ng:latest"@,
                "--duration"@,
                seconds_text(*duration_sec),
                "--stressors"@,
                "--cpu "@ + dec(*cpus as nat) + " --timeout "@ + seconds_text(*duration_sec),
                container@,
            ]);
            Some(v)
        },
    }
}

/// The message of a container fault whose command failed.
pub open spec fn pumba_failure_spec(spec: FaultSpec) -> Seq<char> {
    match spec {
        FaultSpec::PumbaKill { .. } => "pumba kill failed"@,
        FaultSpec::PumbaPause { .. } => "pumba pause failed"@,
        FaultSpec::PumbaStress { .. } => "pumba stress failed"@,
        FaultSpec::Toxiproxy { .. } => Seq::empty(),
    }
}

/// The message of a container fault whose command failed.
pub fn pumba_failure(spec: &FaultSpec) -> (r: String)
    ensures
        r@ == pumba_failure_spec(*spec),
{
    match spec {
        FaultSpec::PumbaKill { .. } => owned("pumba kill failed"),
        FaultSpec::PumbaPause { .. } => owned("pumba pause failed"),
        FaultSpec::PumbaStress { .. } => owned("pumba stress failed"),
        FaultSpec::Toxiproxy { .. } => {
            proof {
                reveal_strlit("");
            }
            owned("")
        },
    }
}

/// What reverting an applied fault takes: removing the proxy toxic named by
/// the token, at this endpoint; nothing for a container fault.
pub open spec fn revert_url_spec(base: Seq<char>, h: FaultHandle) -> Option<Seq<char>> {
    match h.spec {
        FaultSpec::Toxiproxy { proxy, .. } => Some(toxic_url_spec(base, proxy@, h.revert_token@)),
        _ => None,
    }
}

/// What reverting an applied fault takes: the endpoint of the toxic to
/// remove for a proxy toxic; nothing for a container fault.
pub fn revert_url(base: &str, h: &FaultHandle) -> (r: Option<String>)
    ensures
        match revert_url_spec(base@, *h) {
            Some(u) => r matches Some(x) && x@ == u,
            None => r is None,
        },
{
    match &h.spec {
        FaultSpec::Toxiproxy { proxy, .. } => Some(toxic_url(base, proxy.as_str(), h.revert_token.as_str())),
        _ => None,
    }
}

} // verus!
