//! Events of the patcher's window and the commands it starts.

use vstd::prelude::*;
use vstd::string::*;
use crate::patcher::config::PatcherConfiguration;

verus! {

/// Where the window stood when it was closed.
#[derive(Clone, Copy, Debug, PartialEq, Eq, Structural)]
pub struct WindowState {
    pub x: i32,
    pub y: i32,
}

impl Default for WindowState {
    fn default() -> (r: Self)
        ensures
            r.x == 0,
            r.y == 0,
    {
        WindowState { x: 0, y: 0 }
    }
}

/// What the patching thread reports to the window.
#[derive(Clone, Debug)]
pub enum PatchingStatus {
    Ready,
    Error(String),
    /// Number of patches downloaded, their total, and the rate in bytes per
    /// second.
    DownloadInProgress(usize, usize, u64),
    /// Number of patches installed and their total.
    InstallationInProgress(usize, usize),
    ManualPatchApplied(String),
}

/// An event for the window's event loop.
#[derive(Clone, Debug)]
pub enum UiEvent {
    PatchingStatus(PatchingStatus),
    SetPatchInProgress(bool),
    Exit,
    RunScript(String),
}

/// A program to start and its arguments.
#[derive(Clone, Debug)]
pub struct LaunchRequest {
    pub path: String,
    pub arguments: Vec<String>,
}

/// A copy of `args`.
fn clone_arguments(args: &[String]) -> (r: Vec<String>)
    ensures
        r@ == args@,
{
    let mut out: Vec<String> = Vec::new();
    let mut i: usize = 0;
    while i < args.len()
        invariant
            i <= args.len(),
            out@ == args@.subrange(0, i as int),
        decreases args.len() - i,
    {
        out.push(args[i].clone());
        assert(out@ =~= args@.subrange(0, i + 1));
        i += 1;
    }
    assert(out@ =~= args@);
    out
}

/// The command that starts the game client: the configured program with
/// the arguments `args`.
pub fn start_game_client(config: &PatcherConfiguration, args: &[String]) -> (r: LaunchRequest)
    ensures
        r.path == config.play.path,
        r.arguments@ == args@,
{
    LaunchRequest { path: config.play.path.clone(), arguments: clone_arguments(args) }
}

/// The command that starts the setup program: the configured program with
/// its configured arguments.
pub fn handle_setup(config: &PatcherConfiguration) -> (r: LaunchRequest)
    ensures
        r.path == config.setup.path,
        r.arguments@ == config.setup.arguments@,
{
    LaunchRequest {
        path: config.setup.path.clone(),
        arguments: clone_arguments(config.setup.arguments.as_slice()),
    }
}

/// What the window does in answer to a request from its page.
#[derive(Clone, Debug)]
pub enum UiAction {
    /// Start a program, and leave the patcher afterwards if asked to.
    Launch { request: LaunchRequest, then_exit: bool },
    /// Leave the patcher.
    Exit,
    /// Tell the page that a patch is being applied.
    NotifyInProgress,
    StartUpdate,
    CancelUpdate,
    ResetCache,
    /// Ask the user for a patch file and apply it.
    ManualPatch,
    Minimize,
    StartDrag,
    /// The request is not a plain command; it is handed on as JSON.
    Json,
}

/// What the window does in answer to the request `request`. While a patch
/// is being applied, a request to start an update or to apply a patch by
/// hand is answered with a notice. Starting the game leaves the patcher
/// unless the configuration says otherwise; starting the setup program
/// leaves it only if the configuration says so.
pub open spec fn action_for(
    request: Seq<char>,
    patching_in_progress: bool,
    config: PatcherConfiguration,
    action: UiAction,
) -> bool {
    if request == "play"@ {
        action matches UiAction::Launch { request: launch, then_exit } && launch.path
            == config.play.path && launch.arguments@ == config.play.arguments@ && then_exit == (
        match config.play.exit_on_success {
            Some(b) => b,
            None => true,
        })
    } else if request == "setup"@ {
        action matches UiAction::Launch { request: launch, then_exit } && launch.path
            == config.setup.path && launch.arguments@ == config.setup.arguments@ && then_exit == (
        match config.setup.exit_on_success {
            Some(b) => b,
            None => false,
        })
    } else if request == "exit"@ {
        action is Exit
    } else if request == "start_update"@ {
        if patching_in_progress {
            action is NotifyInProgress
        } else {
            action is StartUpdate
        }
    } else if request == "cancel_update"@ {
        action is CancelUpdate
    } else if request == "reset_cache"@ {
        action is ResetCache
    } else if request == "manual_patch"@ {
        if patching_in_progress {
            action is NotifyInProgress
        } else {
            action is ManualPatch
        }
    } else if request == "minimize"@ {
        action is Minimize
    } else if request == "start_drag"@ {
        action is StartDrag
    } else {
        action is Json
    }
}

/// Whether `request` is the command `name`.
fn is_command(request: &String, name: &str) -> (r: bool)
    ensures
        r == (request@ == name@),
{
    *request == String::from_str(name)
}

/// Decides what the window does in answer to a request from its page.
pub fn dispatch_request(request: &String, patching_in_progress: bool, config: &PatcherConfiguration) -> (r:
    UiAction)
    ensures
        action_for(request@, patching_in_progress, *config, r),
{
    if is_command(request, "play") {
        let then_exit = match config.play.exit_on_success {
            Some(b) => b,
            None => true,
        };
        UiAction::Launch {
            request: start_game_client(config, config.play.arguments.as_slice()),
            then_exit,
        }
    } else if is_command(request, "setup") {
        let then_exit = match config.setup.exit_on_success {
            Some(b) => b,
            None => false,
        };
        UiAction::Launch { request: handle_setup(config), then_exit }
    } else if is_command(request, "exit") {
        UiAction::Exit
    } else if is_command(request, "start_update") {
        if patching_in_progress {
            UiAction::NotifyInProgress
        } else {
            UiAction::StartUpdate
        }
    } else if is_command(request, "cancel_update") {
        UiAction::CancelUpdate
    } else if is_command(request, "reset_cache") {
        UiAction::ResetCache
    } else if is_command(request, "manual_patch") {
        if patching_in_progress {
            UiAction::NotifyInProgress
        } else {
            UiAction::ManualPatch
        }
    } else if is_command(request, "minimize") {
        UiAction::Minimize
    } else if is_command(request, "start_drag") {
        UiAction::StartDrag
    } else {
        UiAction::Json
    }
}

/// The arguments with which the game client is started for a login from
/// the page: the password behind `-t:`, the login, the word `server`, and
/// then the configured arguments.
pub fn login_arguments(login: String, password: &str, configured: &[String]) -> (r: Vec<String>)
    ensures
        r@.len() == configured@.len() + 3,
        r@[0]@ == "-t:"@ + password@,
        r@[1] == login,
        r@[2]@ == "server"@,
        forall|i: int| 0 <= i < configured@.len() ==> r@[i + 3] == configured@[i],
{
    let mut args: Vec<String> = Vec::new();
    args.push(String::from_str("-t:").concat(password));
    args.push(login);
    args.push(String::from_str("server"));
    let mut i: usize = 0;
    while i < configured.len()
        invariant
            i <= configured@.len(),
            args@.len() == i + 3,
            args@[0]@ == "-t:"@ + password@,
            args@[1] == login,
            args@[2]@ == "server"@,
            forall|j: int| 0 <= j < i ==> args@[j + 3] == configured@[j],
        decreases configured@.len() - i,
    {
        args.push(configured[i].clone());
        i += 1;
    }
    args
}

} // verus!
