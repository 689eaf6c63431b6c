//! The configuration of a workspace.

use vstd::prelude::*;
use crate::utils::paths::{file_name, join_path, parent, path_file_name, path_join, path_parent};
use crate::utils::text::{opt_text, texts};

verus! {

/// Where the workspace lies.
#[derive(Debug)]
pub struct ConfigWorkspace {
    pub root: Option<String>,
}

/// Whether JSON files are written.
#[derive(Debug)]
pub struct JsonCodegen {
    pub enabled: bool,
}

/// Whether typed binding modules are written.
#[derive(Debug)]
pub struct PythonCodegen {
    pub enabled: bool,
}

/// The configuration of a workspace, as its configuration file gives it.
#[derive(Debug)]
pub struct RuuLangConfig {
    pub workspace: ConfigWorkspace,
    pub json: Option<JsonCodegen>,
    pub python: Option<PythonCodegen>,
}

impl Default for RuuLangConfig {
    fn default() -> (r: Self)
        ensures
            r.workspace.root.is_none(),
            r.json.is_none(),
            r.python.is_none(),
    {
        RuuLangConfig { workspace: ConfigWorkspace { root: None }, json: None, python: None }
    }
}

/// The name of a configuration file where a path names none.
pub open spec fn default_config_name() -> Seq<char> {
    "ruu.toml"@
}

/// The places above `dir` where a configuration file called `name` may lie,
/// nearest first: in the directory above `dir`, then in the one above that,
/// and so on.
pub open spec fn places_above(dir: Seq<char>, name: Seq<char>) -> Seq<Seq<char>>
    decreases dir.len(),
{
    match path_parent(dir) {
        Some(up) if up.len() < dir.len() => seq![path_join(up, name)] + places_above(up, name),
        _ => Seq::empty(),
    }
}

impl RuuLangConfig {
    /// Whether JSON files are to be written.
    pub fn json_enabled(&self) -> (r: bool)
        ensures
            r == (self.json matches Some(j) && j.enabled),
    {
        match &self.json {
            Some(j) => j.enabled,
            None => false,
        }
    }

    /// Whether typed binding modules are to be written.
    pub fn python_enabled(&self) -> (r: bool)
        ensures
            r == (self.python matches Some(p) && p.enabled),
    {
        match &self.python {
            Some(p) => p.enabled,
            None => false,
        }
    }

    /// The places to look for the configuration file that `file` asks for,
    /// nearest first. The file is looked for under the last component of
    /// `file`, in each directory from the one that holds `file` upwards; the
    /// first place at which a file exists is the one to load.
    pub fn search_places(file: &str) -> (r: Vec<String>)
        ensures
            texts(r@) == places_above(
                file@,
                match path_file_name(file@) {
                    Some(n) => n,
                    None => default_config_name(),
                },
            ),
    {
        let name = match file_name(file) {
            Some(n) => n,
            None => "ruu.toml".to_owned(),
        };
        let mut places: Vec<String> = Vec::new();
        let mut dir = file.to_owned();
        let ghost start = file@;
        let ghost wanted = name@;
        assert(texts(places@) + places_above(dir@, name@) =~= places_above(start, name@));
        loop
            invariant
                name@ == wanted,
                start == file@,
                wanted == (match path_file_name(file@) {
                    Some(n) => n,
                    None => default_config_name(),
                }),
                texts(places@) + places_above(dir@, name@) == places_above(start, name@),
            decreases dir@.len(),
        {
            let ghost before = places@;
            let ghost from = dir@;
            match parent(dir.as_str()) {
                None => {
                    assert(texts(places@) + Seq::<Seq<char>>::empty() =~= texts(places@));
                    return places;
                },
                Some(up) => {
                    places.push(join_path(up.as_str(), name.as_str()));
                    dir = up;
                    assert(texts(places@) + places_above(dir@, name@) =~= texts(before)
                        + places_above(from, name@));
                },
            }
        }
    }

    /// The configuration with the workspace root filled in: where the file
    /// names none, the root is `working_dir`.
    pub fn with_root_or(self, working_dir: &str) -> (r: Self)
        ensures
            opt_text(r.workspace.root) == (match self.workspace.root {
                Some(root) => Some(root@),
                None => Some(working_dir@),
            }),
            r.json == self.json,
            r.python == self.python,
    {
        let RuuLangConfig { workspace, json, python } = self;
        let root = match workspace.root {
            Some(root) => root,
            None => working_dir.to_owned(),
        };
        RuuLangConfig { workspace: ConfigWorkspace { root: Some(root) }, json, python }
    }
}

} // verus!
