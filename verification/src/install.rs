//! The binary-install call: what is asked of the platform's node management
//! facility, and what its answer means.

use vstd::prelude::*;
use crate::types::{CanisterId, Principal};

verus! {

/// The name of the method that installs a binary image.
pub const INSTALL_METHOD: &'static str = "install_code";

/// How a binary image is put on a node.
#[derive(Clone, Copy, Debug, PartialEq, Eq, Structural)]
pub enum InstallMode {
    Install,
    Reinstall,
    Upgrade,
}

/// The request that installs a binary image on a node.
#[derive(Debug)]
pub struct CanisterInstall {
    pub mode: InstallMode,
    pub canister_id: Principal,
    pub wasm_module: Vec<u8>,
    pub arg: Vec<u8>,
}

/// Why the platform turned a call down.
#[derive(Clone, Copy, Debug, PartialEq, Eq, Structural)]
pub enum RejectionCode {
    NoError,
    SysFatal,
    SysTransient,
    DestinationInvalid,
    CanisterReject,
    CanisterError,
    Unknown,
}

/// A failed call: the number of the rejection code and the platform's
/// message.
#[derive(Debug)]
pub struct Error {
    pub code: u8,
    pub msg: String,
}

/// The number that the platform gives to a rejection code.
pub open spec fn code_number(code: RejectionCode) -> u8 {
    match code {
        RejectionCode::NoError => 0,
        RejectionCode::SysFatal => 1,
        RejectionCode::SysTransient => 2,
        RejectionCode::DestinationInvalid => 3,
        RejectionCode::CanisterReject => 4,
        RejectionCode::CanisterError => 5,
        RejectionCode::Unknown => 6,
    }
}

/// The number that the platform gives to a rejection code.
pub fn rejection_number(code: RejectionCode) -> (n: u8)
    ensures
        n == code_number(code),
{
    match code {
        RejectionCode::NoError => 0,
        RejectionCode::SysFatal => 1,
        RejectionCode::SysTransient => 2,
        RejectionCode::DestinationInvalid => 3,
        RejectionCode::CanisterReject => 4,
        RejectionCode::CanisterError => 5,
        RejectionCode::Unknown => 6,
    }
}

/// The identity that the install call is sent to.
pub fn install_target() -> (target: Principal)
    ensures
        target@ == Seq::<u8>::empty(),
{
    Principal::management_canister()
}

/// The request that upgrades `canister_id` to the image `wasm_module`. The
/// migration argument is the single byte of a space.
pub fn upgrade_request(canister_id: CanisterId, wasm_module: Vec<u8>) -> (request: CanisterInstall)
    ensures
        request.mode == InstallMode::Upgrade,
        request.canister_id == canister_id,
        request.wasm_module == wasm_module,
        request.arg@ == seq![32u8],
{
    let mut arg: Vec<u8> = Vec::new();
    arg.push(32u8);
    CanisterInstall { mode: InstallMode::Upgrade, canister_id, wasm_module, arg }
}

/// What the answer to the install call means: success as it is, and a
/// rejection as an error with the number of its code and its message.
pub fn call_result(response: Result<(), (RejectionCode, String)>) -> (result: Result<(), Error>)
    ensures
        result.is_ok() == response.is_ok(),
        match response {
            Ok(_) => true,
            Err((code, msg)) => result.unwrap_err().code == code_number(code)
                && result.unwrap_err().msg == msg,
        },
{
    match response {
        Ok(_) => Ok(()),
        Err((code, msg)) => Err(Error { code: rejection_number(code), msg }),
    }
}

} // verus!
