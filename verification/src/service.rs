//! The Windows service: the NSSM commands that register and remove it, and its waiting time
//! between license checks.

use vstd::prelude::*;
use vstd::string::StringExecFns;

use crate::github::string_views;
use crate::text::{decimal_chars, decimal_string};

verus! {

/// Calls `chrono::TimeDelta::try_days` and reads the whole seconds of the result: `Some` of
/// `days * 86400` when that lies within chrono's bounds of `i64::MAX` milliseconds either way,
/// `None` otherwise.
#[verifier::external_body]
fn time_delta_days_seconds(days: i64) -> (r: Option<i64>)
    ensures
        r == (if -(i64::MAX / 1000) <= days * 86400 <= i64::MAX / 1000 {
            Some((days * 86400) as i64)
        } else {
            None::<i64>
        }),
{
    match chrono::TimeDelta::try_days(days) {
        Some(d) => Some(d.num_seconds()),
        None => None,
    }
}

/// How long the service sleeps between checks, in seconds: `interval_days` days when that is a
/// valid non-negative duration; `None` when it is not (the service cannot run with it).
pub fn service_sleep_seconds(interval_days: u64) -> (r: Option<u64>)
    ensures
        r == (if interval_days * 86400 <= i64::MAX / 1000 {
            Some((interval_days * 86400) as u64)
        } else {
            None::<u64>
        }),
{
    if interval_days > 0x7fff_ffff_ffff_ffff {
        return None;
    }
    let days: i64 = interval_days as i64;
    match time_delta_days_seconds(days) {
        Some(secs) => {
            if secs < 0 {
                None
            } else {
                Some(secs as u64)
            }
        },
        None => None,
    }
}

/// The service's name.
pub open spec fn service_name() -> Seq<char> {
    "HalconLicenseFetcher"@
}

/// One run of `nssm`: its arguments, and whether a failure stops the operation.
#[derive(Debug, Clone)]
pub struct NssmCall {
    /// The command-line arguments.
    pub args: Vec<String>,
    /// A failure of this run stops the operation (otherwise it is ignored).
    pub must_succeed: bool,
}

/// The arguments of a run and whether it must succeed, as plain values.
pub open spec fn call_view(c: NssmCall) -> (Seq<Seq<char>>, bool) {
    (string_views(c.args@), c.must_succeed)
}

/// The views of runs.
pub open spec fn call_views(s: Seq<NssmCall>) -> Seq<(Seq<Seq<char>>, bool)> {
    s.map_values(|c: NssmCall| call_view(c))
}

/// `nssm set` of one parameter of the service.
pub open spec fn set_call(param: Seq<char>, value: Seq<char>) -> (Seq<Seq<char>>, bool) {
    (seq!["set"@, service_name(), param, value], true)
}

/// The runs that register the service for the executable `exe`: it runs `service run
/// --interval N`, starts automatically, logs to the two files, and is started at once.
pub open spec fn install_calls(
    exe: Seq<char>,
    interval_days: nat,
    stdout_log: Seq<char>,
    stderr_log: Seq<char>,
) -> Seq<(Seq<Seq<char>>, bool)> {
    seq![
        (seq!["install"@, service_name(), exe], true),
        set_call("AppParameters"@, "service run --interval "@ + decimal_chars(interval_days)),
        set_call("DisplayName"@, "Halcon License Fetcher"@),
        set_call("Description"@, "自动更新 MVTec 产品许可证 - 每 7 天检查一次"@),
        set_call("Start"@, "SERVICE_AUTO_START"@),
        set_call("AppStdout"@, stdout_log),
        set_call("AppStderr"@, stderr_log),
        (seq!["start"@, service_name()], true),
    ]
}

/// The runs that remove the service: stop it (a failure is ignored), then remove it.
pub open spec fn remove_calls() -> Seq<(Seq<Seq<char>>, bool)> {
    seq![(seq!["stop"@, service_name()], false), (seq!["remove"@, service_name(), "confirm"@], true)]
}

/// An `nssm set` run of one service parameter.
fn set_param(param: &str, value: String) -> (r: NssmCall)
    ensures
        call_view(r) == set_call(param@, value@),
{
    let args = vec!["set".to_string(), "HalconLicenseFetcher".to_string(), param.to_string(), value];
    let r = NssmCall { args, must_succeed: true };
    assert(string_views(r.args@) =~= seq!["set"@, service_name(), param@, r.args@[3]@]);
    r
}

/// The `nssm` runs that register the service (see `install_calls`).
pub fn install_commands(exe: &str, interval_days: u64, stdout_log: &str, stderr_log: &str) -> (r: Vec<
    NssmCall,
>)
    ensures
        call_views(r@) == install_calls(exe@, interval_days as nat, stdout_log@, stderr_log@),
{
    let install_args = vec!["install".to_string(), "HalconLicenseFetcher".to_string(), exe.to_string()];
    let first = NssmCall { args: install_args, must_succeed: true };
    assert(string_views(first.args@) =~= seq!["install"@, service_name(), exe@]);
    let parameters = "service run --interval ".to_string().concat(decimal_string(interval_days).as_str());
    let start_args = vec!["start".to_string(), "HalconLicenseFetcher".to_string()];
    let last = NssmCall { args: start_args, must_succeed: true };
    assert(string_views(last.args@) =~= seq!["start"@, service_name()]);
    let calls = vec![
        first,
        set_param("AppParameters", parameters),
        set_param("DisplayName", "Halcon License Fetcher".to_string()),
        set_param("Description", "自动更新 MVTec 产品许可证 - 每 7 天检查一次".to_string()),
        set_param("Start", "SERVICE_AUTO_START".to_string()),
        set_param("AppStdout", stdout_log.to_string()),
        set_param("AppStderr", stderr_log.to_string()),
        last,
    ];
    assert(call_views(calls@) =~= install_calls(
        exe@,
        interval_days as nat,
        stdout_log@,
        stderr_log@,
    ));
    calls
}

/// The `nssm` runs that remove the service (see `remove_calls`).
pub fn remove_commands() -> (r: Vec<NssmCall>)
    ensures
        call_views(r@) == remove_calls(),
{
    let stop = NssmCall {
        args: vec!["stop".to_string(), "HalconLicenseFetcher".to_string()],
        must_succeed: false,
    };
    assert(string_views(stop.args@) =~= seq!["stop"@, service_name()]);
    let remove = NssmCall {
        args: vec!["remove".to_string(), "HalconLicenseFetcher".to_string(), "confirm".to_string()],
        must_succeed: true,
    };
    assert(string_views(remove.args@) =~= seq!["remove"@, service_name(), "confirm"@]);
    let calls = vec![stop, remove];
    assert(call_views(calls@) =~= remove_calls());
    calls
}

} // verus!
