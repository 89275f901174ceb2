//! The command model: what the user asked for, and how a path argument is
//! classified before it is resolved.
use vstd::prelude::*;
use crate::common::path_ext;
use crate::order::str_eq;

verus! {

/// A request to snapshot one directory and store the result.
#[derive(Debug)]
pub struct MapCommand {
    pub path: String,
    pub output: String,
}

/// A request to compare two inputs, each a directory or a stored
/// snapshot.
#[derive(Debug)]
pub struct DiffCommand {
    pub dir_1: String,
    pub dir_2: String,
}

/// A rejected command line, with a message and a hint for the user.
#[derive(Debug)]
pub struct CommandError {
    pub message: String,
    pub hint: String,
}

/// What the command line asked for.
#[derive(Debug)]
pub enum Command {
    MakeMap(MapCommand),
    Diff(DiffCommand),
    Error(CommandError),
}

/// How a path argument is read: as a directory to walk, or as a stored
/// snapshot to load.
#[derive(Debug, PartialEq)]
pub enum PathType {
    Directory(String),
    MapFile(String),
}

impl MapCommand {
    pub fn create(path: String, output: String) -> (r: MapCommand)
        ensures
            r.path@ == path@,
            r.output@ == output@,
    {
        MapCommand { path, output }
    }
}

impl DiffCommand {
    pub fn create(dir_1: String, dir_2: String) -> (r: DiffCommand)
        ensures
            r.dir_1@ == dir_1@,
            r.dir_2@ == dir_2@,
    {
        DiffCommand { dir_1, dir_2 }
    }
}

impl CommandError {
    pub fn create(message: String, hint: String) -> (r: CommandError)
        ensures
            r.message@ == message@,
            r.hint@ == hint@,
    {
        CommandError { message, hint }
    }
}

/// Classifies a path argument by its extension: `.json` and `.dmap` name
/// stored snapshots, everything else is taken as a directory.
pub fn create_path_type(filename: &str) -> (r: PathType)
    ensures
        match r {
            PathType::MapFile(p) => p@ == filename@ && (path_ext(filename@) == Some(("json")@)
                || path_ext(filename@) == Some(("dmap")@)),
            PathType::Directory(p) => p@ == filename@ && !(path_ext(filename@) == Some(("json")@)
                || path_ext(filename@) == Some(("dmap")@)),
        },
{
    match crate::common::extension_of(filename) {
        Some(e) => {
            if str_eq(e.as_str(), "json") || str_eq(e.as_str(), "dmap") {
                PathType::MapFile(filename.to_owned())
            } else {
                PathType::Directory(filename.to_owned())
            }
        },
        None => PathType::Directory(filename.to_owned()),
    }
}

} // verus!
