//! What the user asks for.

use vstd::prelude::*;
use crate::exif::WriteOpts;

verus! {

/// Which files are handled.
#[derive(Debug)]
pub struct TargetArgs {
    /// Files, directories or patterns.
    pub paths: Vec<String>,
    /// Whether directories in directories are looked into.
    pub recursive: bool,
    /// The extensions of the files, separated by commas.
    pub ext: String,
    /// A condition on the metadata of the files.
    pub where_expr: Option<String>,
}

/// How files are written.
#[derive(Debug, Clone, Copy, PartialEq, Eq, Structural)]
pub struct WriteArgs {
    /// Whether a backup is kept.
    pub backup: bool,
    /// Whether it is only shown what would be done.
    pub dry_run: bool,
    /// Whether the user is not asked before.
    pub yes: bool,
    pub verbose: bool,
    /// How many files are handled at a time; 0 for as many as there are processors.
    pub jobs: usize,
}

/// A change of the capture time.
#[derive(Debug)]
pub struct TimeArgs {
    pub target: TargetArgs,
    pub write: WriteArgs,
    /// A point in time to set.
    pub set: Option<String>,
    /// An offset to move by.
    pub shift: Option<String>,
    /// The point in time of the first file of a sequence.
    pub sequential: Option<String>,
    /// The offset from one file of a sequence to the next.
    pub interval: String,
    /// Whether the time is taken from the file name.
    pub from_name: bool,
    /// The time fields to write, separated by commas.
    pub tags: String,
    /// Whether the time of the file itself is set as well.
    pub also_file_time: bool,
    /// The offset from UTC to write beside the time.
    pub tz: Option<String>,
}

/// A look at metadata.
#[derive(Debug)]
pub struct ShowArgs {
    pub target: TargetArgs,
    pub json: bool,
    pub csv: bool,
    /// A part of the names to show.
    pub filter: Option<String>,
}

/// A change of tags.
#[derive(Debug)]
pub struct SetArgs {
    pub target: TargetArgs,
    pub write: WriteArgs,
    pub artist: Option<String>,
    pub copyright: Option<String>,
    pub description: Option<String>,
    pub software: Option<String>,
    pub make: Option<String>,
    pub model: Option<String>,
    pub lens_model: Option<String>,
    pub user_comment: Option<String>,
    pub owner: Option<String>,
    pub orientation: Option<String>,
    /// Further text tags, each `name=value`.
    pub set_string: Vec<String>,
    /// The names of tags to remove.
    pub remove: Vec<String>,
}

/// A removal of metadata.
#[derive(Debug)]
pub struct StripArgs {
    pub target: TargetArgs,
    pub write: WriteArgs,
    /// Whether only the position is removed.
    pub gps: bool,
}

/// A turn or a mirroring.
#[derive(Debug)]
pub struct RotateArgs {
    pub target: TargetArgs,
    pub write: WriteArgs,
    pub cw: bool,
    pub ccw: bool,
    pub r180: bool,
    pub flip_h: bool,
    pub flip_v: bool,
    pub reset: bool,
}

/// A copy of metadata.
#[derive(Debug)]
pub struct CopyArgs {
    /// The file to copy from.
    pub from: String,
    pub target: TargetArgs,
    pub write: WriteArgs,
    pub time: bool,
    pub gps: bool,
    pub all: bool,
}

/// New file names.
#[derive(Debug)]
pub struct RenameArgs {
    pub target: TargetArgs,
    /// The pattern of the names, without the extension.
    pub pattern: String,
    pub dry_run: bool,
    pub yes: bool,
    pub verbose: bool,
}

/// A change of XMP.
#[derive(Debug)]
pub struct XmpArgs {
    pub target: TargetArgs,
    pub write: WriteArgs,
    pub title: Option<String>,
    pub description: Option<String>,
    pub creator: Vec<String>,
    pub rights: Option<String>,
    pub rating: Option<i32>,
    pub label: Option<String>,
    /// Keywords, separated by commas.
    pub keywords: Option<String>,
    pub city: Option<String>,
    pub country: Option<String>,
    /// Further properties, each `prefix:name=value`.
    pub set: Vec<String>,
    /// The names of properties to remove.
    pub remove: Vec<String>,
    /// Whether the whole packet is removed.
    pub clear: bool,
    /// Whether a file beside the image is written in place of the image.
    pub sidecar: bool,
}

/// A change of IPTC.
#[derive(Debug)]
pub struct IptcArgs {
    pub target: TargetArgs,
    pub write: WriteArgs,
    pub title: Option<String>,
    pub description: Option<String>,
    /// Keywords, separated by commas.
    pub keywords: Option<String>,
    pub creator: Vec<String>,
    pub headline: Option<String>,
    pub city: Option<String>,
    pub state: Option<String>,
    pub country: Option<String>,
    pub copyright: Option<String>,
    pub credit: Option<String>,
    pub source: Option<String>,
    pub instructions: Option<String>,
    /// Further fields, each `field=value`.
    pub set: Vec<String>,
    /// The fields to remove.
    pub remove: Vec<String>,
    /// Whether the whole block is removed.
    pub clear: bool,
}

/// How files are written, given whether they keep their times.
pub fn write_opts(w: &WriteArgs, preserve_fs_time: bool) -> (o: WriteOpts)
    ensures
        o.dry_run == w.dry_run,
        o.backup == w.backup,
        o.preserve_fs_time == preserve_fs_time,
{
    WriteOpts { dry_run: w.dry_run, backup: w.backup, preserve_fs_time }
}

} // verus!
