//! The game's executable, wine prefixes and RimWorld's data folder.

use vstd::prelude::*;
use crate::text::{join_path, joined};

verus! {

/// RimWorld's Steam AppID; compatdata folders are named after it.
pub const APP_ID: u32 = 294100;

/// How the game is installed and what runs it.
#[derive(Clone, Debug, PartialEq, Eq)]
pub enum Executable {
    /// A native build: the binary with its `*_Data` folder.
    Native(String),
    /// A Windows build: needs Proton or Wine.
    Windows(String),
    /// A macOS build.
    MacApp(String),
}

impl Executable {
    pub open spec fn path_v(&self) -> Seq<char> {
        match self {
            Executable::Native(p) => p@,
            Executable::Windows(p) => p@,
            Executable::MacApp(p) => p@,
        }
    }

    pub fn path(&self) -> (r: &str)
        ensures
            r@ == self.path_v(),
    {
        match self {
            Executable::Native(p) => p.as_str(),
            Executable::Windows(p) => p.as_str(),
            Executable::MacApp(p) => p.as_str(),
        }
    }

    /// Whether a compatibility layer (Proton, Wine) is needed: for a
    /// Windows build on a host that is not Windows.
    pub fn needs_compat_layer(&self, host_is_windows: bool) -> (r: bool)
        ensures
            r == (*self is Windows && !host_is_windows),
    {
        matches!(self, Executable::Windows(_)) && !host_is_windows
    }
}

/// What is in a game folder, as far as finding the executable goes.
#[derive(Clone, Copy, Debug, Default)]
pub struct GameFiles {
    /// `RimWorldLinux` is a file.
    pub linux_binary: bool,
    /// `RimWorldLinux_Data` is a folder.
    pub linux_data: bool,
    /// `RimWorldMac.app` is a folder.
    pub mac_app: bool,
    /// `RimWorldWin64.exe` is a file.
    pub windows_exe: bool,
    /// `RimWorldWin64_Data` is a folder.
    pub windows_data: bool,
}

/// What runs the game in `game_path`, given what the folder holds.
pub open spec fn executable_in(game_path: Seq<char>, files: GameFiles) -> Option<(int, Seq<char>)> {
    if files.linux_binary && files.linux_data {
        Some((0, joined(game_path, "RimWorldLinux"@)))
    } else if files.mac_app {
        Some((2, joined(game_path, "RimWorldMac.app"@)))
    } else if files.windows_exe && files.windows_data {
        Some((1, joined(game_path, "RimWorldWin64.exe"@)))
    } else {
        None
    }
}

/// The kind of an executable: native 0, Windows 1, macOS 2.
pub open spec fn kind_of(e: Executable) -> int {
    match e {
        Executable::Native(_) => 0,
        Executable::Windows(_) => 1,
        Executable::MacApp(_) => 2,
    }
}

/// Finds what runs the game in `game_path`.
///
/// A native build counts only together with its `*_Data` folder: next to a
/// Windows build there is often a home-made `RimWorldLinux`, a wrapper
/// script around umu or wine. Running it as the native game drags in
/// foreign settings, and the self-tests need a predictable process.
pub fn find_executable(game_path: &str, files: &GameFiles) -> (r: Option<Executable>)
    ensures
        match r {
            Some(e) => executable_in(game_path@, *files) == Some((kind_of(e), e.path_v())),
            None => executable_in(game_path@, *files).is_none(),
        },
{
    if files.linux_binary && files.linux_data {
        return Some(Executable::Native(join_path(game_path, "RimWorldLinux")));
    }
    if files.mac_app {
        return Some(Executable::MacApp(join_path(game_path, "RimWorldMac.app")));
    }
    if files.windows_exe && files.windows_data {
        return Some(Executable::Windows(join_path(game_path, "RimWorldWin64.exe")));
    }
    None
}

/// The `Config` folder of a data folder.
pub fn config_dir(data_dir: &str) -> (r: String)
    ensures
        r@ == joined(data_dir@, "Config"@),
{
    join_path(data_dir, "Config")
}

/// The game's log in a data folder.
pub fn player_log(data_dir: &str) -> (r: String)
    ensures
        r@ == joined(data_dir@, "Player.log"@),
{
    join_path(data_dir, "Player.log")
}

/// A wine prefix that holds RimWorld's data.
#[derive(Clone, Debug, PartialEq, Eq)]
pub struct Prefix {
    pub path: String,
    /// RimWorld's data folder inside it.
    pub data_dir: String,
    /// Where it was found, to show to the user.
    pub source: String,
}

} // verus!
