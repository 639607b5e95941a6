//! The saved configuration: monitors, display profiles and hosts.
use std::path::PathBuf;
use vstd::prelude::*;

use crate::table::Table;
use crate::text::texts;

verus! {

/// A physical monitor, identified by position and resolution rather than by its volatile number.
#[derive(Debug, Clone)]
pub struct MonitorDef {
    pub name: String,
    pub left: i32,
    pub top: i32,
    pub width: u32,
    pub height: u32,
}

/// A named display profile: which monitors to use and which of them is primary.
#[derive(Debug, Clone)]
pub struct DisplayProfile {
    pub name: String,
    /// Keys into `AppConfig::monitors`.
    pub monitor_ids: Vec<String>,
    /// Key into `AppConfig::monitors`; comes first in `selectedmonitors` and gets the taskbar.
    pub primary: String,
}

/// A host with its base .rdp file and its default display profile.
#[derive(Debug, Clone)]
pub struct HostEntry {
    pub id: String,
    pub name: String,
    pub rdp_file: String,
    pub default_profile: String,
    /// Colour tag of the host's card.
    pub color: String,
}

/// The whole configuration.
#[derive(Debug, Clone)]
pub struct AppConfig {
    /// Physical monitors by an identifier that stays the same.
    pub monitors: Table<MonitorDef>,
    /// Display profiles by identifier.
    pub profiles: Table<DisplayProfile>,
    /// Hosts in the order in which they are shown.
    pub hosts: Vec<HostEntry>,
    /// Language of the user interface.
    pub language: String,
}

/// `std::path::PathBuf`, carried through unread.
#[verifier::external_type_specification]
#[verifier::external_body]
pub struct ExPathBuf(std::path::PathBuf);

/// `dirs::config_dir` gives the user's configuration directory, or nothing where there is none.
/// Nothing is claimed of which one: it depends on the user's environment.
pub assume_specification[ dirs::config_dir ]() -> (r: Option<PathBuf>)
;

/// A place on disk: `segments` one below the other, the first of them directly below `base`, or
/// below the directory `.` where `base` is absent.
pub struct Location {
    pub base: Option<PathBuf>,
    pub segments: Vec<String>,
}

/// The language of a configuration that names none.
pub fn default_language() -> (r: String)
    ensures
        r@ == "ja"@,
{
    "ja".to_string()
}

impl AppConfig {
    /// No monitors, profiles or hosts, and the default language.
    pub open spec fn is_default(self) -> bool {
        &&& self.monitors@ == Map::<Seq<char>, MonitorDef>::empty()
        &&& self.profiles@ == Map::<Seq<char>, DisplayProfile>::empty()
        &&& self.hosts@ == Seq::<HostEntry>::empty()
        &&& self.language@ == "ja"@
    }

    /// The directory of the configuration below `base`.
    pub fn config_dir_in(base: Option<PathBuf>) -> (r: Location)
        ensures
            r.base == base,
            texts(r.segments@) == seq!["rdp-anchor"@],
    {
        let mut segments: Vec<String> = Vec::new();
        segments.push("rdp-anchor".to_string());
        assert(texts(segments@) =~= seq!["rdp-anchor"@]);
        Location { base, segments }
    }

    /// The configuration file below `base`: `config.json` in the configuration directory.
    pub fn config_path_in(base: Option<PathBuf>) -> (r: Location)
        ensures
            r.base == base,
            texts(r.segments@) == seq!["rdp-anchor"@, "config.json"@],
    {
        let mut dir = Self::config_dir_in(base);
        let ghost before = dir.segments@;
        dir.segments.push("config.json".to_string());
        assert(texts(dir.segments@) =~= texts(before).push("config.json"@));
        assert(texts(dir.segments@) =~= seq!["rdp-anchor"@, "config.json"@]);
        dir
    }

    /// The directory of the configuration, below the one that `dirs::config_dir` gives.
    pub fn config_dir() -> (r: Location)
        ensures
            call_ensures(dirs::config_dir, (), r.base),
            texts(r.segments@) == seq!["rdp-anchor"@],
    {
        let base_dir = dirs::config_dir;
        Self::config_dir_in(base_dir())
    }

    /// The configuration file, below the directory that `dirs::config_dir` gives.
    pub fn config_path() -> (r: Location)
        ensures
            call_ensures(dirs::config_dir, (), r.base),
            texts(r.segments@) == seq!["rdp-anchor"@, "config.json"@],
    {
        let base_dir = dirs::config_dir;
        Self::config_path_in(base_dir())
    }

    /// The configuration to start with: the stored one, or the default where none could be read.
    pub fn load(stored: Option<AppConfig>) -> (r: AppConfig)
        ensures
            match stored {
                Some(config) => r == config,
                None => r.is_default(),
            },
            stored is None ==> {
                &&& r.monitors@ == Map::<Seq<char>, MonitorDef>::empty()
                &&& r.profiles@ == Map::<Seq<char>, DisplayProfile>::empty()
                &&& r.hosts@.len() == 0
                &&& r.language@ == "ja"@
            },
    {
        match stored {
            Some(config) => config,
            None => AppConfig::default(),
        }
    }
}

impl Default for AppConfig {
    fn default() -> (r: AppConfig)
        ensures
            r.is_default(),
            r.monitors@ == Map::<Seq<char>, MonitorDef>::empty(),
            r.profiles@ == Map::<Seq<char>, DisplayProfile>::empty(),
            r.hosts@.len() == 0,
            r.language@ == "ja"@,
    {
        AppConfig {
            monitors: Table::new(),
            profiles: Table::new(),
            hosts: Vec::new(),
            language: default_language(),
        }
    }
}

} // verus!
