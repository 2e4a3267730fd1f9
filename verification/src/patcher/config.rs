//! The patcher's configuration and where it is taken from.

use vstd::prelude::*;

verus! {

/// The whole configuration of the patcher.
#[derive(Clone, Debug)]
pub struct PatcherConfiguration {
    pub window: WindowConfiguration,
    pub play: PlayConfiguration,
    pub setup: SetupConfiguration,
    pub web: WebConfiguration,
    pub client: ClientConfiguration,
    pub patching: PatchingConfiguration,
}

/// The patcher's window.
#[derive(Clone, Debug)]
pub struct WindowConfiguration {
    pub title: String,
    pub width: i32,
    pub height: i32,
    pub resizable: bool,
    pub frameless: Option<bool>,
    pub border_radius: Option<i32>,
}

/// How the game client is started.
#[derive(Clone, Debug)]
pub struct PlayConfiguration {
    pub path: String,
    pub arguments: Vec<String>,
    pub exit_on_success: Option<bool>,
    pub play_with_error: Option<bool>,
    pub minimize_on_start: Option<bool>,
}

/// How the setup program is started.
#[derive(Clone, Debug)]
pub struct SetupConfiguration {
    pub path: String,
    pub arguments: Vec<String>,
    pub exit_on_success: Option<bool>,
}

/// The page shown in the window and the servers that hold the patches.
#[derive(Clone, Debug)]
pub struct WebConfiguration {
    /// Address of the page that implements the user interface.
    pub index_url: String,
    /// Name of the patch server to try first.
    pub preferred_patch_server: Option<String>,
    pub patch_servers: Vec<PatchServerInfo>,
}

/// One patch server.
#[derive(Clone, Debug)]
pub struct PatchServerInfo {
    /// Name that identifies the server.
    pub name: String,
    /// Address of the list of patches.
    pub plist_url: String,
    /// Address of the directory that holds the patch archives.
    pub patch_url: String,
}

/// The game client's files.
#[derive(Clone, Debug)]
pub struct ClientConfiguration {
    /// Archive that is patched when a patch names none.
    pub default_grf_name: String,
}

/// How patches are applied.
#[derive(Clone, Copy, Debug, PartialEq, Eq, Structural)]
pub struct PatchingConfiguration {
    /// Patch archives in place.
    pub in_place: bool,
    /// Check the integrity of patch archives.
    pub check_integrity: bool,
    /// Create archives that do not exist yet.
    pub create_grf: bool,
}

/// Where the configuration comes from.
#[derive(Clone, Debug)]
pub enum ConfigurationSource {
    /// The configuration that was found inside the executable.
    Embedded(PatcherConfiguration),
    /// The file at the given path.
    File(String),
    /// The file named after the patcher, with the extension `yml`.
    DefaultFile,
}

/// Decides where the configuration is taken from. A configuration found
/// inside the executable wins; failing that the given file is read, and
/// without one the file named after the patcher.
pub fn retrieve_patcher_configuration(
    embedded: Option<PatcherConfiguration>,
    config_file_path: Option<String>,
) -> (r: ConfigurationSource)
    ensures
        r == match embedded {
            Some(config) => ConfigurationSource::Embedded(config),
            None => match config_file_path {
                Some(path) => ConfigurationSource::File(path),
                None => ConfigurationSource::DefaultFile,
            },
        },
{
    match embedded {
        Some(config) => ConfigurationSource::Embedded(config),
        None => match config_file_path {
            Some(path) => ConfigurationSource::File(path),
            None => ConfigurationSource::DefaultFile,
        },
    }
}

} // verus!
