//! Making an adapter take its state anew.

use crate::command;
use crate::command::CommandEnd;
use crate::error::AppError;
use crate::text;
use vstd::prelude::*;

verus! {

/// How an adapter is refreshed.
#[derive(Clone, Copy, Debug, PartialEq, Eq, Structural)]
pub enum RefreshMode {
    /// The lease is released and renewed.
    Soft,
    /// The driver is restarted, which needs more rights.
    Hard,
}

/// The script that restarts an adapter's driver.
pub open spec fn restart(interface: Seq<char>) -> Seq<char> {
    "Restart-NetAdapter -Name '"@ + text::quoted(interface) + "' -Confirm:$false"@
}

/// The script that restarts an adapter's driver.
pub fn restart_script(interface: &str) -> (r: String)
    ensures
        r@ == restart(interface@),
{
    let mut r = String::from_str("Restart-NetAdapter -Name '");
    r.append(text::double_quotes(interface).as_str());
    r.append("' -Confirm:$false");
    r
}

/// The script that restarts an adapter's driver with more rights. Quotes in the name
/// are doubled once.
pub fn elevated_restart_script(interface: &str) -> (r: String)
    ensures
        r@
            == "$ErrorActionPreference='Stop'; Start-Process powershell.exe -Verb RunAs -WindowStyle Hidden -Wait -ArgumentList '-NoProfile','-Command','Restart-NetAdapter -Name ''"@
            + text::quoted(interface@) + "'' -Confirm:$false'"@,
{
    let mut r = String::from_str(
        "$ErrorActionPreference='Stop'; Start-Process powershell.exe -Verb RunAs -WindowStyle Hidden -Wait -ArgumentList '-NoProfile','-Command','Restart-NetAdapter -Name ''",
    );
    r.append(text::double_quotes(interface).as_str());
    r.append("'' -Confirm:$false'");
    r
}

/// What came of the renewal of a lease.
pub fn soft_refresh_result(renew: CommandEnd) -> (r: Result<(), AppError>)
    ensures
        match (
            r,
            command::step_failure(
                renew,
                "ipconfig /renew timed out after 30s"@,
                "ipconfig /renew failed to launch: "@,
                "ipconfig /renew failed: "@,
            ),
        ) {
            (Ok(_), None) => true,
            (Err(e), Some(m)) => e.text() == m,
            _ => false,
        },
{
    command::step_result(
        renew,
        "ipconfig /renew timed out after 30s",
        "ipconfig /renew failed to launch: ",
        "ipconfig /renew failed: ",
    )
}

/// What came of the restart of a driver with more rights.
pub fn hard_refresh_result(end: CommandEnd) -> (r: Result<(), AppError>)
    ensures
        match (
            r,
            command::step_failure(
                end,
                "Elevated refresh timed out after 60s"@,
                "Failed to launch elevation: "@,
                "Adapter reset failed (UAC may have been declined): "@,
            ),
        ) {
            (Ok(_), None) => true,
            (Err(e), Some(m)) => e.text() == m,
            _ => false,
        },
{
    command::step_result(
        end,
        "Elevated refresh timed out after 60s",
        "Failed to launch elevation: ",
        "Adapter reset failed (UAC may have been declined): ",
    )
}

} // verus!
