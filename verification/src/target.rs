//! Making sure that the compiler target for WebAssembly is installed: the
//! decisions, one at a time. Running the commands is left to the caller.

use vstd::prelude::*;
use vstd::utf8::{decode_utf8, valid_utf8};

verus! {

/// The target that has to be installed.
pub const WASM32_WASI_TARGET: &'static str = "wasm32-wasi";

/// Where the directory of the target stands, below the sysroot.
pub const WASM32_WASI_RUSTLIB: &'static str = "lib/rustlib/wasm32-wasi";

/// `std::string::FromUtf8Error`: why bytes are no text. Nothing is known of
/// an error here; it is carried along for the report.
#[verifier::external_type_specification]
#[verifier::external_body]
pub struct ExFromUtf8Error(std::string::FromUtf8Error);

/// True when `c` is white space: one of the characters with the Unicode
/// property `White_Space`.
pub open spec fn is_white_space(c: char) -> bool {
    let n = c as u32;
    ||| 0x09 <= n <= 0x0d
    ||| n == 0x20
    ||| n == 0x85
    ||| n == 0xa0
    ||| n == 0x1680
    ||| 0x2000 <= n <= 0x200a
    ||| n == 0x2028
    ||| n == 0x2029
    ||| n == 0x202f
    ||| n == 0x205f
    ||| n == 0x3000
}

/// The number of characters of white space with which `s` begins.
pub open spec fn leading_space(s: Seq<char>) -> nat
    decreases s.len(),
{
    if s.len() > 0 && is_white_space(s.first()) {
        1 + leading_space(s.drop_first())
    } else {
        0
    }
}

/// The number of characters of white space with which `s` ends.
pub open spec fn trailing_space(s: Seq<char>) -> nat
    decreases s.len(),
{
    if s.len() > 0 && is_white_space(s.last()) {
        1 + trailing_space(s.drop_last())
    } else {
        0
    }
}

/// `s` without the white space at its start and at its end.
pub open spec fn trimmed(s: Seq<char>) -> Seq<char> {
    if leading_space(s) == s.len() {
        Seq::empty()
    } else {
        s.subrange(leading_space(s) as int, s.len() - trailing_space(s))
    }
}

/// `str::trim`, with the result as an owned string: the text without the
/// white space at its start and at its end.
#[verifier::external_body]
fn trim(s: &str) -> (r: String)
    ensures
        r@ == trimmed(s@),
{
    s.trim().to_owned()
}

/// `String::from_utf8`: the text that `bytes` encode, where they are valid
/// UTF-8, and its error where they are not.
#[verifier::external_body]
fn string_from_utf8(bytes: Vec<u8>) -> (r: Result<String, std::string::FromUtf8Error>)
    ensures
        r is Ok <==> valid_utf8(bytes@),
        r matches Ok(s) ==> s@ == decode_utf8(bytes@),
{
    String::from_utf8(bytes)
}

/// What a command or a check has come to.
#[derive(Debug)]
pub struct Outcome {
    /// True when the command ended well, or the check found what it looked for.
    pub success: bool,
    /// What the command wrote to its standard output.
    pub stdout: Vec<u8>,
    /// What the command wrote to its standard error.
    pub stderr: Vec<u8>,
}

/// What the caller is asked to do next.
#[derive(Debug)]
pub enum Request {
    /// Run `rustc --print sysroot`.
    QuerySysroot,
    /// Look whether the directory [`WASM32_WASI_RUSTLIB`] exists below `sysroot`.
    CheckTarget { sysroot: String },
    /// Look whether a `rustup` toolchain is in use.
    CheckRustup,
    /// Run `rustup target add` for the target.
    AddTarget,
}

/// Why the target could not be installed.
#[derive(Debug)]
pub enum TargetError {
    /// `rustc --print sysroot` failed, with this on its standard error.
    SysrootQueryFailed { stderr: Vec<u8> },
    /// The sysroot that `rustc` printed is not valid UTF-8, for the reason given.
    SysrootNotUtf8 { error: std::string::FromUtf8Error },
    /// The target is missing and there is no `rustup` to install it.
    RustupUnavailable,
    /// `rustup target add` failed.
    InstallFailed,
}

/// What the installation waits for.
#[derive(Clone, Copy, Debug, PartialEq, Eq, Structural)]
pub enum Install {
    /// The output of `rustc --print sysroot`.
    AwaitSysroot,
    /// Whether the directory of the target exists.
    AwaitTargetCheck,
    /// Whether a `rustup` toolchain is in use.
    AwaitRustupCheck,
    /// The end of `rustup target add`.
    AwaitInstall,
}

/// How the installation goes on after an outcome.
#[derive(Debug)]
pub enum Step {
    /// The caller does what `request` says and comes back with the outcome.
    Next { state: Install, request: Request },
    /// The target is installed.
    Done,
    /// The target cannot be installed.
    Failed(TargetError),
}

/// The sysroot that `rustc` printed: the text of its standard output
/// without the white space around it, where that output is valid UTF-8.
pub open spec fn sysroot_of(stdout: Seq<u8>) -> Option<Seq<char>> {
    if valid_utf8(stdout) {
        Some(trimmed(decode_utf8(stdout)))
    } else {
        None
    }
}

/// The sysroot that `rustc` printed, see [`sysroot_of`], or why what it
/// printed is no text.
pub fn parse_sysroot(stdout: Vec<u8>) -> (r: Result<String, std::string::FromUtf8Error>)
    ensures
        match r {
            Ok(s) => sysroot_of(stdout@) == Some(s@),
            Err(_) => sysroot_of(stdout@) is None,
        },
{
    match string_from_utf8(stdout) {
        Ok(text) => Ok(trim(text.as_str())),
        Err(error) => Err(error),
    }
}

/// How the installation goes on once the sysroot has been asked for with
/// success: with a look for the target below the sysroot, or, where what
/// `rustc` printed was no text and there is no sysroot, not at all.
pub fn sysroot_step(sysroot: Result<String, std::string::FromUtf8Error>) -> (step: Step)
    ensures
        match sysroot {
            Ok(path) => step matches Step::Next {
                state: Install::AwaitTargetCheck,
                request: Request::CheckTarget { sysroot: s },
            } && s == path,
            Err(why) => step matches Step::Failed(TargetError::SysrootNotUtf8 { error }) && error == why,
        },
{
    match sysroot {
        Ok(sysroot) => Step::Next {
            state: Install::AwaitTargetCheck,
            request: Request::CheckTarget { sysroot },
        },
        Err(error) => Step::Failed(TargetError::SysrootNotUtf8 { error }),
    }
}

/// The start of an installation: the state to begin in and the first request.
pub fn start() -> (r: (Install, Request))
    ensures
        r.0 == Install::AwaitSysroot,
        r.1 is QuerySysroot,
{
    (Install::AwaitSysroot, Request::QuerySysroot)
}

/// The next step of an installation that waited in `state` and got `outcome`.
///
/// The sysroot is asked for first; a failed query and a sysroot that is not
/// text end the installation. Then the target is looked for below the
/// sysroot: where it is there, nothing is left to do. Where it is missing,
/// `rustup` is looked for, and the installation ends where there is none.
/// Otherwise `rustup` adds the target, and the installation ends as that
/// command does.
pub fn advance(state: Install, outcome: Outcome) -> (step: Step)
    ensures
        match state {
            Install::AwaitSysroot => if !outcome.success {
                step matches Step::Failed(TargetError::SysrootQueryFailed { stderr }) && stderr@
                    == outcome.stderr@
            } else {
                match sysroot_of(outcome.stdout@) {
                    Some(path) => step matches Step::Next {
                        state: Install::AwaitTargetCheck,
                        request: Request::CheckTarget { sysroot },
                    } && sysroot@ == path,
                    None => step matches Step::Failed(TargetError::SysrootNotUtf8 { .. }),
                }
            },
            Install::AwaitTargetCheck => if outcome.success {
                step is Done
            } else {
                step matches Step::Next {
                    state: Install::AwaitRustupCheck,
                    request: Request::CheckRustup,
                }
            },
            Install::AwaitRustupCheck => if outcome.success {
                step matches Step::Next { state: Install::AwaitInstall, request: Request::AddTarget }
            } else {
                step matches Step::Failed(TargetError::RustupUnavailable)
            },
            Install::AwaitInstall => if outcome.success {
                step is Done
            } else {
                step matches Step::Failed(TargetError::InstallFailed)
            },
        },
{
    match state {
        Install::AwaitSysroot => {
            if !outcome.success {
                Step::Failed(TargetError::SysrootQueryFailed { stderr: outcome.stderr })
            } else {
                sysroot_step(parse_sysroot(outcome.stdout))
            }
        },
        Install::AwaitTargetCheck => {
            if outcome.success {
                Step::Done
            } else {
                Step::Next { state: Install::AwaitRustupCheck, request: Request::CheckRustup }
            }
        },
        Install::AwaitRustupCheck => {
            if outcome.success {
                Step::Next { state: Install::AwaitInstall, request: Request::AddTarget }
            } else {
                Step::Failed(TargetError::RustupUnavailable)
            }
        },
        Install::AwaitInstall => {
            if outcome.success {
                Step::Done
            } else {
                Step::Failed(TargetError::InstallFailed)
            }
        },
    }
}

} // verus!
