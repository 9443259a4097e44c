//! Application settings.

use vstd::prelude::*;
use crate::text::{join_path, joined};

verus! {

/// The tabs of the settings window.
#[derive(PartialEq, Eq, Clone, Copy, Debug, Structural)]
pub enum SettingsTab {
    Paths,
    Interface,
    Behavior,
}

impl Default for SettingsTab {
    fn default() -> (r: Self)
        ensures
            r == SettingsTab::Paths,
    {
        SettingsTab::Paths
    }
}

/// The settings the application keeps between runs.
pub struct AppSettings {
    pub game_path: String,
    pub config_path: String,
    pub local_mods_path: String,
    pub dark_theme: bool,
    pub show_package_ids: bool,
    pub sort_on_load: bool,
    pub use_community_rules: bool,
    pub steamcmd_path: String,
    pub steamcmd_auto_move: bool,
    pub steamcmd_multi_download: bool,
    pub steamcmd_max_processes: usize,
    pub steamcmd_multi_threshold: usize,
    pub log_file_path: String,
    /// The open tab; not saved.
    pub active_tab: SettingsTab,
}

impl Default for AppSettings {
    fn default() -> (r: Self)
        ensures
            r.game_path@.len() == 0,
            r.config_path@.len() == 0,
            r.local_mods_path@.len() == 0,
            r.dark_theme,
            !r.show_package_ids,
            !r.sort_on_load,
            r.use_community_rules,
            r.steamcmd_path@.len() == 0,
            r.steamcmd_auto_move,
            r.steamcmd_multi_download,
            r.steamcmd_max_processes == 2,
            r.steamcmd_multi_threshold == 10,
            r.log_file_path@.len() == 0,
            r.active_tab == SettingsTab::Paths,
    {
        AppSettings {
            game_path: String::new(),
            config_path: String::new(),
            local_mods_path: String::new(),
            dark_theme: true,
            show_package_ids: false,
            sort_on_load: false,
            use_community_rules: true,
            steamcmd_path: String::new(),
            steamcmd_auto_move: true,
            steamcmd_multi_download: true,
            steamcmd_max_processes: 2,
            steamcmd_multi_threshold: 10,
            log_file_path: String::new(),
            active_tab: SettingsTab::Paths,
        }
    }
}

/// The data folder of the application for this user
/// (`ProjectDirs::from("com", "rustrim", "RustRim")` and its `data_dir`).
///
/// Trusted only to return: the folder depends on the environment, so
/// nothing is claimed of it.
#[verifier::external_body]
fn project_data_dir() -> (r: Option<String>) {
    directories::ProjectDirs::from("com", "rustrim", "RustRim").map(|d| d.data_dir().to_string_lossy().into_owned())
}

impl AppSettings {
    /// Where SteamCMD lives, given the application's data folder: the path
    /// set by the user, else `steamcmd_data` in the data folder, else
    /// nothing.
    pub fn steamcmd_path_in(&self, data_dir: Option<String>) -> (r: String)
        ensures
            self.steamcmd_path@.len() > 0 ==> r@ == self.steamcmd_path@,
            self.steamcmd_path@.len() == 0 ==> r@ == match data_dir {
                Some(d) => joined(d@, "steamcmd_data"@),
                None => Seq::empty(),
            },
    {
        if !self.steamcmd_path.as_str().is_empty() {
            return crate::text::string_of(&crate::text::chars_of(self.steamcmd_path.as_str()));
        }
        match data_dir {
            Some(d) => join_path(d.as_str(), "steamcmd_data"),
            None => String::new(),
        }
    }

    /// Where SteamCMD lives: the path set by the user, else `steamcmd_data`
    /// in the application's data folder; empty when that folder is not
    /// known. Which folder that is depends on the environment.
    pub fn effective_steamcmd_path(&self) -> (r: String)
        ensures
            self.steamcmd_path@.len() > 0 ==> r@ == self.steamcmd_path@,
            self.steamcmd_path@.len() == 0 ==> (r@.len() == 0 || exists|d: Seq<char>| #[trigger] joined(d, "steamcmd_data"@) == r@),
    {
        if !self.steamcmd_path.as_str().is_empty() {
            return self.steamcmd_path_in(None);
        }
        self.steamcmd_path_in(project_data_dir())
    }

    /// The game folder and the local mods folder are both set.
    pub fn has_required_paths(&self) -> (r: bool)
        ensures
            r == (self.game_path@.len() > 0 && self.local_mods_path@.len() > 0),
    {
        !self.game_path.as_str().is_empty() && !self.local_mods_path.as_str().is_empty()
    }
}

} // verus!
