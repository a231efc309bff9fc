//! A synthetic device.
//!
//! It lets the whole provider be run with nothing plugged in. The video it
//! produces is not decodable, and deliberately so: what it does reproduce
//! faithfully is the *shape* of a stream, a codec handshake, key frames on
//! request and a steady cadence in between.

use crate::clock::SECOND;
use crate::device;
use crate::device::{AppInfo, AppInfoView, DeviceInfo, DeviceInfoView, Display, Platform};
use crate::files;
use crate::files::{FileEntry, FileKind, FileListing};
use crate::text;
use crate::video;
use crate::video::{AccessUnit, CodecDescription};
use crate::wire;
use vstd::prelude::*;
use vstd::string::*;

verus! {

/// One key frame every 30 frames, as a real long-GOP encoder would.
pub const GOP: u64 = 30;

/// Half a battery cycle: twenty minutes draining, then twenty charging.
pub const BATTERY_HALF_CYCLE: u64 = 1200 * SECOND;

/// The level of a full battery.
pub const BATTERY_FULL: u64 = 6000 * SECOND;

/// The port of the debugging bridge, fixed so that a test can rely on it.
pub const DEBUG_PORT: u16 = 15037;

/// The battery's level out of a full one, and whether it charges: it drains to a
/// fifth over half a cycle, then charges back.
pub open spec fn battery_at(elapsed: int) -> (int, bool) {
    let phase = elapsed % (2 * BATTERY_HALF_CYCLE);
    if phase < BATTERY_HALF_CYCLE {
        (BATTERY_FULL - 4 * phase, false)
    } else {
        (BATTERY_HALF_CYCLE + 4 * (phase - BATTERY_HALF_CYCLE), true)
    }
}

/// The battery's level out of [`BATTERY_FULL`], and whether it charges, so long
/// after the device was started.
pub fn battery(elapsed: u64) -> (battery: (u64, bool))
    ensures
        battery.0 == battery_at(elapsed as int).0,
        battery.1 == battery_at(elapsed as int).1,
{
    let phase: u64 = elapsed % (2 * BATTERY_HALF_CYCLE);
    if phase < BATTERY_HALF_CYCLE {
        (BATTERY_FULL - 4 * phase, false)
    } else {
        (BATTERY_HALF_CYCLE + 4 * (phase - BATTERY_HALF_CYCLE), true)
    }
}

/// The battery stays between a fifth and full, and its level never jumps: in a
/// moment it changes by no more than the moment makes.
pub proof fn law_the_battery_drains_then_charges(elapsed: int)
    requires
        elapsed >= 0,
    ensures
        BATTERY_HALF_CYCLE <= battery_at(elapsed).0 <= BATTERY_FULL,
        BATTERY_FULL == 5 * BATTERY_HALF_CYCLE,
        -4 <= battery_at(elapsed + 1).0 - battery_at(elapsed).0 <= 4,
        !battery_at(elapsed).1 ==> battery_at(elapsed + 1).0 < battery_at(elapsed).0,
{
    let cycle = 2 * BATTERY_HALF_CYCLE as int;
    let phase = elapsed % cycle;
    let turns = elapsed / cycle;
    vstd::arithmetic::div_mod::lemma_fundamental_div_mod(elapsed, cycle);
    if phase + 1 == cycle {
        assert(cycle * (turns + 1) == cycle * turns + cycle) by (nonlinear_arith);
        vstd::arithmetic::div_mod::lemma_fundamental_div_mod_converse_mod(
            elapsed + 1,
            cycle,
            turns + 1,
            0,
        );
    } else {
        vstd::arithmetic::div_mod::lemma_fundamental_div_mod_converse_mod(
            elapsed + 1,
            cycle,
            turns,
            phase + 1,
        );
    }
}

/// The unrotated size of a panel.
pub open spec fn panel_of(platform: Platform) -> (i64, i64) {
    match platform {
        Platform::Ios => (1179, 2556),
        Platform::Android => (1080, 2400),
    }
}

/// What a viewer sees of a panel turned this far: a rotated device really does
/// report swapped dimensions.
pub open spec fn stream_of(platform: Platform, rotation: i64) -> (i64, i64) {
    if rotation as int % 180 == 0 {
        panel_of(platform)
    } else {
        (panel_of(platform).1, panel_of(platform).0)
    }
}

fn remainder(degrees: i64, turn: i64) -> (angle: i64)
    requires
        turn > 0,
    ensures
        angle == degrees as int % turn as int,
{
    if degrees >= 0 {
        degrees % turn
    } else {
        let below: u64 = (-(degrees + 1)) as u64;
        let rest: i64 = (below % turn as u64) as i64;
        proof {
            let d = turn as int;
            let q = below as int / d;
            vstd::arithmetic::div_mod::lemma_fundamental_div_mod(below as int, d);
            assert(d * (-q - 1) == -(d * q) - d) by (nonlinear_arith);
            vstd::arithmetic::div_mod::lemma_fundamental_div_mod_converse_mod(
                degrees as int,
                d,
                -q - 1,
                d - 1 - rest,
            );
        }
        turn - 1 - rest
    }
}

/// What a stream announces before its first picture.
pub open spec fn codec_of(platform: Platform) -> (Seq<char>, Seq<u8>) {
    match platform {
        Platform::Ios => (
            "hev1.1.6.L93.B0"@,
            seq![0x01, 0x01, 0x60, 0x00, 0x00, 0x00, 0x90, 0x00],
        ),
        Platform::Android => (
            "avc1.640028"@,
            seq![0x01, 0x64, 0x00, 0x28, 0xff, 0xe1, 0x00, 0x09],
        ),
    }
}

/// What a stream announces before its first picture. Never fed to a real
/// decoder.
pub fn codec(platform: Platform) -> (description: CodecDescription)
    ensures
        description@ == codec_of(platform),
{
    match platform {
        Platform::Ios => {
            let description: Vec<u8> = vec![0x01, 0x01, 0x60, 0x00, 0x00, 0x00, 0x90, 0x00];
            assert(description@ =~= codec_of(platform).1);
            CodecDescription { codec: "hev1.1.6.L93.B0".to_owned(), description }
        },
        Platform::Android => {
            let description: Vec<u8> = vec![0x01, 0x64, 0x00, 0x28, 0xff, 0xe1, 0x00, 0x09];
            assert(description@ =~= codec_of(platform).1);
            CodecDescription { codec: "avc1.640028".to_owned(), description }
        },
    }
}

/// The source of a stream: how many pictures it has produced.
#[derive(Debug)]
pub struct Synthesizer {
    pub counter: u64,
}

/// Whether a picture is a key frame: where one was asked for, and where a group
/// starts.
pub open spec fn is_key_at(counter: u64, forced: bool) -> bool {
    forced || counter % GOP == 0
}

/// What a picture is filled with, which is as long as its kind.
pub open spec fn filler(counter: u64, is_key: bool) -> Seq<u8> {
    Seq::new(
        if is_key {
            512
        } else {
            96
        },
        |i: int| (counter % 256) as u8,
    )
}

/// The number of the picture after this one.
pub open spec fn next_counter(counter: u64) -> u64 {
    if counter == u64::MAX {
        0
    } else {
        (counter + 1) as u64
    }
}

impl Synthesizer {
    /// Nothing has been produced yet.
    pub fn new() -> (source: Self)
        ensures
            source.counter == 0,
    {
        Synthesizer { counter: 0 }
    }

    /// The next picture. The bytes are filler behind a length, so that anything
    /// that walks the units sees something well-formed.
    pub fn next_unit(&mut self, forced: bool) -> (unit: AccessUnit)
        ensures
            unit.is_key == is_key_at(old(self).counter, forced),
            unit.data@ == video::packed(seq![filler(old(self).counter, unit.is_key)]),
            final(self).counter == next_counter(old(self).counter),
    {
        let is_key = forced || self.counter % GOP == 0;
        let length: u32 = if is_key {
            512
        } else {
            96
        };
        let fill: u8 = (self.counter % 256) as u8;
        let ghost body = filler(self.counter, is_key);
        let mut data: Vec<u8> = Vec::new();
        wire::push_be32(&mut data, length);
        let ghost head = data@;
        let mut n: u32 = 0;
        assert(data@ =~= head + body.take(0));
        while n < length
            invariant
                n <= length,
                body.len() == length,
                forall|i: int| 0 <= i < body.len() ==> #[trigger] body[i] == fill,
                data@ == head + body.take(n as int),
            decreases length - n,
        {
            data.push(fill);
            n += 1;
            assert(data@ =~= head + body.take(n as int));
        }
        proof {
            assert(body.take(body.len() as int) =~= body);
            assert(seq![body].drop_last() =~= Seq::<Seq<u8>>::empty());
            assert(video::packed(Seq::<Seq<u8>>::empty()) =~= Seq::<u8>::empty());
            assert(data@ =~= video::packed(seq![body]));
        }
        self.counter = if self.counter == u64::MAX {
            0
        } else {
            self.counter + 1
        };
        AccessUnit { data, is_key }
    }
}

/// The number of a picture some pictures later.
pub open spec fn counter_after(counter: u64, pictures: nat) -> u64
    decreases pictures,
{
    if pictures == 0 {
        counter
    } else {
        next_counter(counter_after(counter, (pictures - 1) as nat))
    }
}

proof fn lemma_counter_after(counter: u64, pictures: nat)
    requires
        counter + pictures <= u64::MAX + 1,
    ensures
        counter_after(counter, pictures) == (if counter + pictures == u64::MAX + 1 {
            0
        } else {
            counter + pictures
        }),
    decreases pictures,
{
    if pictures > 0 {
        lemma_counter_after(counter, (pictures - 1) as nat);
    }
}

/// A key frame is never far: of any thirty pictures in a row one is, whatever
/// is asked for.
pub proof fn law_a_key_frame_is_never_far(counter: u64)
    ensures
        exists|pictures: nat|
            pictures < GOP && is_key_at(#[trigger] counter_after(counter, pictures), false),
{
    let left = (GOP - counter % GOP) as nat;
    let pictures: nat = if counter % GOP == 0 {
        0
    } else if counter + left <= u64::MAX + 1 {
        left
    } else {
        (u64::MAX + 1 - counter) as nat
    };
    lemma_counter_after(counter, pictures);
    assert(is_key_at(counter_after(counter, pictures), false));
}

/// A picture's bytes hold one unit, behind its length.
pub proof fn law_a_picture_is_one_unit(counter: u64, is_key: bool)
    ensures
        video::unpacked(video::packed(seq![filler(counter, is_key)]), 0) == seq![
            filler(counter, is_key),
        ],
{
    video::law_packed_unit_unpacks(seq![filler(counter, is_key)]);
}

/// A picture of one pixel, which a browser can show.
pub open spec fn png() -> Seq<u8> {
    seq![
        0x89, 0x50, 0x4e, 0x47, 0x0d, 0x0a, 0x1a, 0x0a, 0x00, 0x00, 0x00, 0x0d, 0x49, 0x48, 0x44, 0x52,
        0x00, 0x00, 0x00, 0x01, 0x00, 0x00, 0x00, 0x01, 0x08, 0x06, 0x00, 0x00, 0x00, 0x1f, 0x15, 0xc4,
        0x89, 0x00, 0x00, 0x00, 0x0a, 0x49, 0x44, 0x41, 0x54, 0x78, 0x9c, 0x63, 0x00, 0x01, 0x00, 0x00,
        0x05, 0x00, 0x01, 0x0d, 0x0a, 0x2d, 0xb4, 0x00, 0x00, 0x00, 0x00, 0x49, 0x45, 0x4e, 0x44, 0xae,
        0x42, 0x60, 0x82,
    ]
}

/// A picture of one pixel, which a browser can show.
pub fn screenshot() -> (bytes: Vec<u8>)
    ensures
        bytes@ == png(),
{
    let bytes: Vec<u8> = vec![
        0x89, 0x50, 0x4e, 0x47, 0x0d, 0x0a, 0x1a, 0x0a, 0x00, 0x00, 0x00, 0x0d, 0x49, 0x48, 0x44, 0x52,
        0x00, 0x00, 0x00, 0x01, 0x00, 0x00, 0x00, 0x01, 0x08, 0x06, 0x00, 0x00, 0x00, 0x1f, 0x15, 0xc4,
        0x89, 0x00, 0x00, 0x00, 0x0a, 0x49, 0x44, 0x41, 0x54, 0x78, 0x9c, 0x63, 0x00, 0x01, 0x00, 0x00,
        0x05, 0x00, 0x01, 0x0d, 0x0a, 0x2d, 0xb4, 0x00, 0x00, 0x00, 0x00, 0x49, 0x45, 0x4e, 0x44, 0xae,
        0x42, 0x60, 0x82,
    ];
    assert(bytes@ =~= png());
    bytes
}

/// What the text file holds.
pub open spec fn notes() -> Seq<u8> {
    vstd::utf8::encode_utf8("a synthetic file, from a synthetic device\n"@)
}

/// The files of the device: their paths, and what they hold; a directory holds
/// nothing.
pub open spec fn tree() -> Seq<(Seq<char>, Option<Seq<u8>>)> {
    seq![
        ("/sdcard/DCIM"@, None),
        ("/sdcard/DCIM/IMG_0001.png"@, Some(png())),
        ("/sdcard/Download"@, None),
        ("/sdcard/Download/notes.txt"@, Some(notes())),
    ]
}

/// One file of the device.
pub struct TreeFile {
    pub path: &'static str,
    pub contents: Option<Vec<u8>>,
}

impl View for TreeFile {
    type V = (Seq<char>, Option<Seq<u8>>);

    open spec fn view(&self) -> (Seq<char>, Option<Seq<u8>>) {
        (
            self.path@,
            match self.contents {
                Some(contents) => Some(contents@),
                None => None,
            },
        )
    }
}

/// The files in a vector.
pub open spec fn tree_views(tree: Seq<TreeFile>) -> Seq<(Seq<char>, Option<Seq<u8>>)> {
    tree.map_values(|file: TreeFile| file@)
}

fn device_tree() -> (files: Vec<TreeFile>)
    ensures
        tree_views(files@) == tree(),
{
    let notes = text::utf8_of("a synthetic file, from a synthetic device\n");
    let mut files: Vec<TreeFile> = Vec::new();
    files.push(TreeFile { path: "/sdcard/DCIM", contents: None });
    files.push(TreeFile { path: "/sdcard/DCIM/IMG_0001.png", contents: Some(screenshot()) });
    files.push(TreeFile { path: "/sdcard/Download", contents: None });
    files.push(TreeFile { path: "/sdcard/Download/notes.txt", contents: Some(notes) });
    assert(tree_views(files@) =~= tree());
    files
}

/// Where the file browser opens.
pub fn files_root() -> (root: &'static str)
    ensures
        root@ == "/sdcard"@,
{
    "/sdcard"
}

/// A path as the browser gives it, without slashes at its end.
pub open spec fn directory_in(path: Seq<char>) -> Seq<char> {
    let trimmed = text::trim_end_of(path, '/');
    if trimmed.len() == 0 {
        "/"@
    } else {
        trimmed
    }
}

/// Whether there is such a directory.
pub open spec fn is_directory(tree: Seq<(Seq<char>, Option<Seq<u8>>)>, path: Seq<char>) -> bool {
    path == "/sdcard"@ || tree.contains((path, None))
}

/// A file as an entry of its directory.
pub open spec fn entry_of(file: (Seq<char>, Option<Seq<u8>>)) -> files::FileEntryView {
    files::FileEntryView {
        path: file.0,
        name: match text::after_last(file.0, '/') {
            Some(name) => name,
            None => file.0,
        },
        kind: match file.1 {
            Some(_) => FileKind::File,
            None => FileKind::Directory,
        },
        size: match file.1 {
            Some(contents) => Some(contents.len() as i64),
            None => None,
        },
        modified_at: None,
    }
}

/// The entries of a directory.
pub open spec fn entries_of(tree: Seq<(Seq<char>, Option<Seq<u8>>)>, path: Seq<char>) -> Seq<
    files::FileEntryView,
>
    decreases tree.len(),
{
    if tree.len() == 0 {
        seq![]
    } else if files::parent_text(tree.last().0) == Some(path) {
        entries_of(tree.drop_last(), path).push(entry_of(tree.last()))
    } else {
        entries_of(tree.drop_last(), path)
    }
}

fn entry(file: &TreeFile) -> (entry: FileEntry)
    ensures
        entry@ == entry_of(file@),
{
    let chars = text::chars_of(file.path);
    let name = match text::behind_last(&chars, '/') {
        Some(name) => text::string_of(name),
        None => file.path.to_owned(),
    };
    match &file.contents {
        Some(contents) => FileEntry {
            path: file.path.to_owned(),
            name,
            kind: FileKind::File,
            size: Some(contents.len() as i64),
            modified_at: None,
        },
        None => FileEntry {
            path: file.path.to_owned(),
            name,
            kind: FileKind::Directory,
            size: None,
            modified_at: None,
        },
    }
}


/// One directory of the device.
pub open spec fn is_listing(listing: FileListing, path: Seq<char>) -> bool {
    &&& listing.path@ == path
    &&& files::file_views(listing.entries@) == entries_of(tree(), path)
    &&& text::text_in(listing.parent) == (if path == "/sdcard"@ {
        None
    } else if files::parent_text(path) is Some {
        files::parent_text(path)
    } else {
        Some("/"@)
    })
}

fn holds_directory(tree: &[TreeFile], path: &str) -> (found: bool)
    ensures
        found == tree_views(tree@).contains((path@, None)),
{
    let ghost all = tree_views(tree@);
    let mut n: usize = 0;
    while n < tree.len()
        invariant
            n <= tree@.len(),
            all == tree_views(tree@),
            forall|i: int| 0 <= i < n ==> #[trigger] all[i] != (path@, None::<Seq<u8>>),
        decreases tree@.len() - n,
    {
        assert(all[n as int] == tree@[n as int]@);
        if text::same_text(tree[n].path, path) && tree[n].contents.is_none() {
            return true;
        }
        n += 1;
    }
    false
}

/// One directory of the device, or that there is none. Nothing lies above the
/// one in which the browser opens.
pub fn list_files(path: &str) -> (listing: Result<FileListing, String>)
    ensures
        listing is Ok == is_directory(tree(), directory_in(path@)),
        match listing {
            Ok(listing) => is_listing(listing, directory_in(path@)),
            Err(error) => error@ == directory_in(path@) + ": no such directory"@,
        },
{
    let chars = text::chars_of(path);
    let trimmed = text::trimmed_end_of(&chars, '/');
    let path: String = if trimmed.len() == 0 {
        "/".to_owned()
    } else {
        text::string_of(trimmed)
    };
    let tree = device_tree();
    let at_root = text::same_text(&path, "/sdcard");
    if !at_root && !holds_directory(&tree, &path) {
        let mut error = String::new();
        error.append(&path);
        error.append(": no such directory");
        assert(error@ =~= path@ + ": no such directory"@);
        return Err(error);
    }
    let ghost all = tree_views(tree@);
    let mut entries: Vec<FileEntry> = Vec::new();
    let mut n: usize = 0;
    assert(files::file_views(entries@) =~= entries_of(all.take(0), path@));
    while n < tree.len()
        invariant
            n <= tree@.len(),
            all == tree_views(tree@),
            files::file_views(entries@) == entries_of(all.take(n as int), path@),
        decreases tree@.len() - n,
    {
        assert(all[n as int] == tree@[n as int]@);
        assert(all.take(n + 1).drop_last() =~= all.take(n as int));
        let ghost before = files::file_views(entries@);
        let inside = match files::parent_of(tree[n].path) {
            Some(parent) => text::same_text(&parent, &path),
            None => false,
        };
        if inside {
            entries.push(entry(&tree[n]));
            assert(files::file_views(entries@) =~= before.push(entry_of(all[n as int])));
        }
        n += 1;
    }
    assert(all.take(all.len() as int) =~= all);
    let parent = if at_root {
        None
    } else {
        match files::parent_of(&path) {
            Some(parent) => Some(parent),
            None => Some("/".to_owned()),
        }
    };
    Ok(FileListing { path, parent, entries })
}

/// What the first file with this path holds.
pub open spec fn contents_at(tree: Seq<(Seq<char>, Option<Seq<u8>>)>, path: Seq<char>) -> Option<
    Seq<u8>,
>
    decreases tree.len(),
{
    if tree.len() == 0 {
        None
    } else if tree[0].0 == path && tree[0].1 is Some {
        tree[0].1
    } else {
        contents_at(tree.drop_first(), path)
    }
}

/// What a file of the device holds, or that there is none.
pub fn pull_file(path: &str) -> (contents: Result<Vec<u8>, String>)
    ensures
        match contents {
            Ok(contents) => contents_at(tree(), path@) == Some(contents@),
            Err(error) => contents_at(tree(), path@) is None && error@ == path@
                + ": no such file"@,
        },
{
    let files = device_tree();
    let ghost all = tree_views(files@);
    assert(all.skip(0) =~= all);
    for file in it: files
        invariant
            all == tree(),
            tree_views(it.seq()) == all,
            contents_at(all, path@) == contents_at(all.skip(it.index() as int), path@),
    {
        let ghost at = it.index() as int;
        assert(tree_views(it.seq())[at] == file@);
        assert(all.skip(at)[0] == file@);
        assert(all.skip(at).drop_first() =~= all.skip(at + 1));
        if text::same_text(file.path, path) {
            if let Some(contents) = file.contents {
                return Ok(contents);
            }
        }
    }
    assert(all.skip(all.len() as int) =~= Seq::<(Seq<char>, Option<Seq<u8>>)>::empty());
    let mut error = String::new();
    error.append(path);
    error.append(": no such file");
    assert(error@ =~= path@ + ": no such file"@);
    Err(error)
}

/// How the screen misbehaves: the synthetic device is where faults are
/// injected.
#[derive(Debug, Clone, Copy, PartialEq, Eq, Structural)]
pub enum ScreenFault {
    /// Returns an error.
    Fails,
    /// Never returns at all.
    Hangs,
}

/// Everything of the device that can be observed.
#[derive(Debug)]
pub struct MockState {
    pub installed: Vec<AppInfo>,
    pub clipboard: Option<String>,
    pub rotation: i64,
    pub reboots: i64,
    pub healthy: bool,
    /// The apps whose data was cleared, in order.
    pub cleared: Vec<String>,
    pub wiped: Vec<String>,
    pub screen_fault: Option<ScreenFault>,
    /// Answer a request to clear an app's data as iOS does.
    pub no_clear_app_data: bool,
    pub adb_port: u16,
}

/// Everything of the device that can be observed.
#[verifier::ext_equal]
pub struct MockStateView {
    pub installed: Seq<AppInfoView>,
    pub clipboard: Option<Seq<char>>,
    pub rotation: i64,
    pub reboots: i64,
    pub healthy: bool,
    pub cleared: Seq<Seq<char>>,
    pub wiped: Seq<Seq<char>>,
    pub screen_fault: Option<ScreenFault>,
    pub no_clear_app_data: bool,
    pub adb_port: u16,
}

impl View for MockState {
    type V = MockStateView;

    open spec fn view(&self) -> MockStateView {
        MockStateView {
            installed: device::app_views(self.installed@),
            clipboard: text::text_in(self.clipboard),
            rotation: self.rotation,
            reboots: self.reboots,
            healthy: self.healthy,
            cleared: text::strings(self.cleared@),
            wiped: text::strings(self.wiped@),
            screen_fault: self.screen_fault,
            no_clear_app_data: self.no_clear_app_data,
            adb_port: self.adb_port,
        }
    }
}

/// Why the device did not do what it was asked.
#[derive(Debug)]
pub enum MockError {
    Unavailable(String),
    Failed(String),
    Unsupported(&'static str),
    /// It never answers.
    Hangs,
}

/// Why the device did not do what it was asked.
pub enum MockErrorView {
    Unavailable(Seq<char>),
    Failed(Seq<char>),
    Unsupported(Seq<char>),
    Hangs,
}

impl View for MockError {
    type V = MockErrorView;

    open spec fn view(&self) -> MockErrorView {
        match *self {
            MockError::Unavailable(message) => MockErrorView::Unavailable(message@),
            MockError::Failed(message) => MockErrorView::Failed(message@),
            MockError::Unsupported(what) => MockErrorView::Unsupported(what@),
            MockError::Hangs => MockErrorView::Hangs,
        }
    }
}

/// What came of a request.
pub open spec fn outcome_of(result: Result<(), MockError>) -> Option<MockErrorView> {
    match result {
        Ok(()) => None,
        Err(error) => Some(error@),
    }
}

/// The app ids that are installed.
pub open spec fn is_installed(apps: Seq<AppInfoView>, id: Seq<char>) -> bool {
    exists|i: int| 0 <= i < apps.len() && (#[trigger] apps[i]).id == id
}

/// The apps but for one.
pub open spec fn without_app(apps: Seq<AppInfoView>, id: Seq<char>) -> Seq<AppInfoView>
    decreases apps.len(),
{
    if apps.len() == 0 {
        seq![]
    } else if apps.last().id == id {
        without_app(apps.drop_last(), id)
    } else {
        without_app(apps.drop_last(), id).push(apps.last())
    }
}

/// What is said of an app that is not there.
pub open spec fn not_installed(id: Seq<char>) -> MockErrorView {
    MockErrorView::Failed(id + " is not installed"@)
}

fn missing_app(id: &str) -> (error: MockError)
    ensures
        error@ == not_installed(id@),
{
    let mut message = String::new();
    message.append(id);
    message.append(" is not installed");
    assert(message@ =~= id@ + " is not installed"@);
    MockError::Failed(message)
}

/// The app that an install leaves behind, from the name of the staged file:
/// what follows its last hyphen.
pub open spec fn installed_id(file_name: Option<Seq<char>>) -> Seq<char> {
    match file_name {
        Some(name) => match text::after_last(name, '-') {
            Some(id) => id,
            None => name,
        },
        None => "com.example.installed"@,
    }
}

/// The apps that are there from the start.
pub open spec fn first_apps() -> Seq<AppInfoView> {
    seq![
        AppInfoView {
            id: "com.example.app"@,
            name: Some("Example"@),
            version: Some("1.0.0"@),
            system: Some(false),
        },
        AppInfoView {
            id: "com.apple.Preferences"@,
            name: Some("Settings"@),
            version: None,
            system: Some(true),
        },
    ]
}

/// A device that was just set up.
pub open spec fn first_state() -> MockStateView {
    MockStateView {
        installed: first_apps(),
        clipboard: None,
        rotation: 0,
        reboots: 0,
        healthy: true,
        cleared: seq![],
        wiped: seq![],
        screen_fault: None,
        no_clear_app_data: false,
        adb_port: 0,
    }
}

impl MockState {
    /// A device that was just set up.
    pub fn new() -> (state: Self)
        ensures
            state@ == first_state(),
    {
        let mut installed: Vec<AppInfo> = Vec::new();
        installed.push(
            AppInfo {
                id: "com.example.app".to_owned(),
                name: Some("Example".to_owned()),
                version: Some("1.0.0".to_owned()),
                system: Some(false),
            },
        );
        installed.push(
            AppInfo {
                id: "com.apple.Preferences".to_owned(),
                name: Some("Settings".to_owned()),
                version: None,
                system: Some(true),
            },
        );
        assert(device::app_views(installed@) =~= first_apps());
        let cleared: Vec<String> = Vec::new();
        let wiped: Vec<String> = Vec::new();
        assert(text::strings(cleared@) =~= seq![]);
        assert(text::strings(wiped@) =~= seq![]);
        MockState {
            installed,
            clipboard: None,
            rotation: 0,
            reboots: 0,
            healthy: true,
            cleared,
            wiped,
            screen_fault: None,
            no_clear_app_data: false,
            adb_port: 0,
        }
    }

    fn has_app(&self, id: &str) -> (found: bool)
        ensures
            found == is_installed(self@.installed, id@),
    {
        let ghost all = self@.installed;
        let mut n: usize = 0;
        while n < self.installed.len()
            invariant
                n <= self.installed@.len(),
                all == device::app_views(self.installed@),
                forall|i: int| 0 <= i < n ==> (#[trigger] all[i]).id != id@,
            decreases self.installed@.len() - n,
        {
            assert(all[n as int] == self.installed@[n as int]@);
            if text::same_text(&self.installed[n].id, id) {
                return true;
            }
            n += 1;
        }
        false
    }

    /// Install what was staged under this name.
    pub fn install(&mut self, file_name: Option<&str>)
        ensures
            ({
                let id = installed_id(
                    match file_name {
                        Some(name) => Some(name@),
                        None => None,
                    },
                );
                final(self)@ == (MockStateView {
                    installed: old(self)@.installed.push(
                        AppInfoView {
                            id: "mock."@ + id,
                            name: Some(id),
                            version: Some("1.0.0"@),
                            system: Some(false),
                        },
                    ),
                    ..old(self)@
                })
            }),
    {
        let name: String = match file_name {
            Some(name) => {
                let chars = text::chars_of(name);
                match text::behind_last(&chars, '-') {
                    Some(id) => text::string_of(id),
                    None => name.to_owned(),
                }
            },
            None => "com.example.installed".to_owned(),
        };
        let mut id = String::new();
        id.append("mock.");
        id.append(&name);
        assert(id@ =~= "mock."@ + name@);
        let app = AppInfo {
            id,
            name: Some(name),
            version: Some("1.0.0".to_owned()),
            system: Some(false),
        };
        let ghost shown = app@;
        self.installed.push(app);
        assert(self@.installed =~= old(self)@.installed.push(shown));
    }

    /// Take an app off the device.
    pub fn uninstall(&mut self, app_id: &str) -> (result: Result<(), MockError>)
        ensures
            outcome_of(result) == (if is_installed(old(self)@.installed, app_id@) {
                None
            } else {
                Some(not_installed(app_id@))
            }),
            final(self)@ == (MockStateView {
                installed: without_app(old(self)@.installed, app_id@),
                ..old(self)@
            }),
            result is Err ==> final(self)@ == old(self)@,
    {
        let ghost all = self@.installed;
        if !self.has_app(app_id) {
            proof {
                lemma_nothing_to_remove(all, app_id@);
            }
            return Err(missing_app(app_id));
        }
        let mut kept: Vec<AppInfo> = Vec::new();
        let mut before: Vec<AppInfo> = Vec::new();
        std::mem::swap(&mut before, &mut self.installed);
        assert(device::app_views(kept@) =~= without_app(all.take(0), app_id@));
        for app in it: before
            invariant
                device::app_views(it.seq()) == all,
                device::app_views(kept@) == without_app(all.take(it.index() as int), app_id@),
        {
            let ghost at = it.index() as int;
            assert(device::app_views(it.seq())[at] == app@);
            assert(all.take(at + 1).drop_last() =~= all.take(at));
            assert(all.take(at + 1).last() == app@);
            let ghost so_far = device::app_views(kept@);
            if !text::same_text(&app.id, app_id) {
                let ghost shown = app@;
                kept.push(app);
                assert(device::app_views(kept@) =~= so_far.push(shown));
            }
        }
        assert(all.take(all.len() as int) =~= all);
        self.installed = kept;
        Ok(())
    }

    /// Clear an app's data.
    pub fn clear_app_data(&mut self, app_id: &str) -> (result: Result<(), MockError>)
        ensures
            outcome_of(result) == (if old(self)@.no_clear_app_data {
                Some(MockErrorView::Unsupported("clearing app data"@))
            } else if !is_installed(old(self)@.installed, app_id@) {
                Some(not_installed(app_id@))
            } else {
                None
            }),
            final(self)@ == (if result is Ok {
                MockStateView { cleared: old(self)@.cleared.push(app_id@), ..old(self)@ }
            } else {
                old(self)@
            }),
    {
        if self.no_clear_app_data {
            return Err(MockError::Unsupported("clearing app data"));
        }
        if !self.has_app(app_id) {
            return Err(missing_app(app_id));
        }
        self.cleared.push(app_id.to_owned());
        assert(self@.cleared =~= old(self)@.cleared.push(app_id@));
        Ok(())
    }

    /// Whether an app can be launched.
    pub fn launch(&self, app_id: &str) -> (result: Result<(), MockError>)
        ensures
            outcome_of(result) == (if is_installed(self@.installed, app_id@) {
                None
            } else {
                Some(not_installed(app_id@))
            }),
    {
        if self.has_app(app_id) {
            Ok(())
        } else {
            Err(missing_app(app_id))
        }
    }

    /// Turn the device.
    pub fn rotate(&mut self, degrees: i64)
        ensures
            final(self)@ == (MockStateView {
                rotation: (degrees as int % 360) as i64,
                ..old(self)@
            }),
    {
        self.rotation = remainder(degrees, 360);
    }

    /// Bring the screen back to where a session starts: upright, and with
    /// nothing on the clipboard.
    pub fn reset_screen(&mut self) -> (result: Result<(), MockError>)
        ensures
            outcome_of(result) == match old(self)@.screen_fault {
                Some(ScreenFault::Fails) => Some(MockErrorView::Failed("screen is wedged"@)),
                Some(ScreenFault::Hangs) => Some(MockErrorView::Hangs),
                None => None,
            },
            final(self)@ == (if result is Ok {
                MockStateView { rotation: 0, clipboard: None, ..old(self)@ }
            } else {
                old(self)@
            }),
    {
        match self.screen_fault {
            Some(ScreenFault::Fails) => {
                return Err(MockError::Failed("screen is wedged".to_owned()));
            },
            Some(ScreenFault::Hangs) => {
                return Err(MockError::Hangs);
            },
            None => {},
        }
        self.rotate(0);
        self.clipboard = None;
        Ok(())
    }

    /// Note the paths that were wiped.
    pub fn wipe_paths(&mut self, paths: Vec<String>)
        ensures
            final(self)@ == (MockStateView {
                wiped: old(self)@.wiped + text::strings(paths@),
                ..old(self)@
            }),
    {
        let ghost more = text::strings(paths@);
        let mut paths = paths;
        self.wiped.append(&mut paths);
        assert(self@.wiped =~= old(self)@.wiped + more);
    }

    /// Put a text on the clipboard.
    pub fn clipboard_set(&mut self, copied: &str)
        ensures
            final(self)@ == (MockStateView { clipboard: Some(copied@), ..old(self)@ }),
    {
        self.clipboard = Some(copied.to_owned());
    }

    /// Restart the device.
    pub fn reboot(&mut self)
        ensures
            final(self)@ == (MockStateView {
                reboots: if old(self)@.reboots == i64::MAX {
                    i64::MIN
                } else {
                    (old(self)@.reboots + 1) as i64
                },
                ..old(self)@
            }),
    {
        self.reboots = if self.reboots == i64::MAX {
            i64::MIN
        } else {
            self.reboots + 1
        };
    }

    /// Open the debugging bridge, which only Android has.
    pub fn remote_debug(&mut self, platform: Platform) -> (port: Result<u16, MockError>)
        ensures
            match port {
                Ok(port) => {
                    &&& platform == Platform::Android
                    &&& port == DEBUG_PORT
                    &&& final(self)@ == (MockStateView { adb_port: DEBUG_PORT, ..old(self)@ })
                },
                Err(error) => {
                    &&& platform != Platform::Android
                    &&& error@ == MockErrorView::Unsupported("remote debugging"@)
                    &&& final(self)@ == old(self)@
                },
            },
    {
        match platform {
            Platform::Android => {
                self.adb_port = DEBUG_PORT;
                Ok(DEBUG_PORT)
            },
            Platform::Ios => Err(MockError::Unsupported("remote debugging")),
        }
    }

    /// Close the debugging bridge.
    pub fn remote_debug_stop(&mut self)
        ensures
            final(self)@ == (MockStateView { adb_port: 0, ..old(self)@ }),
    {
        self.adb_port = 0;
    }

    /// The port of the debugging bridge, while it is open.
    pub fn remote_debug_port(&self) -> (port: Option<u16>)
        ensures
            port == (if self@.adb_port == 0 {
                None
            } else {
                Some(self@.adb_port)
            }),
    {
        match self.adb_port {
            0 => None,
            port => Some(port),
        }
    }

    /// Set the device right again.
    pub fn restart(&mut self)
        ensures
            final(self)@ == (MockStateView { healthy: true, ..old(self)@ }),
    {
        self.healthy = true;
    }
}

proof fn lemma_nothing_to_remove(apps: Seq<AppInfoView>, id: Seq<char>)
    requires
        !is_installed(apps, id),
    ensures
        without_app(apps, id) == apps,
    decreases apps.len(),
{
    if apps.len() > 0 {
        assert(apps[apps.len() - 1].id != id);
        assert forall|i: int| 0 <= i < apps.drop_last().len() implies (#[trigger] apps.drop_last()[i]).id
            != id by {
            assert(apps[i].id != id);
        }
        lemma_nothing_to_remove(apps.drop_last(), id);
        assert(apps =~= apps.drop_last().push(apps.last()));
    } else {
        assert(apps =~= Seq::<AppInfoView>::empty());
    }
}

proof fn lemma_removed(apps: Seq<AppInfoView>, id: Seq<char>, other: Seq<char>)
    ensures
        !is_installed(without_app(apps, id), id),
        other != id ==> is_installed(without_app(apps, id), other) == is_installed(apps, other),
    decreases apps.len(),
{
    if apps.len() > 0 {
        let rest = apps.drop_last();
        lemma_removed(rest, id, other);
        let after = without_app(rest, id);
        let last = apps.last();
        if apps.last().id != id {
            assert forall|i: int| 0 <= i < after.push(last).len() implies (#[trigger] after.push(
                last,
            )[i]).id != id by {
                if i < after.len() {
                    assert(after[i].id != id);
                }
            }
        }
        if other != id {
            if is_installed(apps, other) {
                let i = choose|i: int| 0 <= i < apps.len() && (#[trigger] apps[i]).id == other;
                if i < rest.len() {
                    assert(rest[i].id == other);
                    assert(is_installed(after, other));
                    let k = choose|k: int| 0 <= k < after.len() && (#[trigger] after[k]).id == other;
                    if last.id != id {
                        assert(after.push(last)[k].id == other);
                    }
                } else {
                    assert(after.push(last)[after.len() as int].id == other);
                }
            }
            if is_installed(without_app(apps, id), other) {
                let all = without_app(apps, id);
                let k = choose|k: int| 0 <= k < all.len() && (#[trigger] all[k]).id == other;
                if k < after.len() {
                    assert(after[k].id == other);
                    assert(is_installed(rest, other));
                    let i = choose|i: int| 0 <= i < rest.len() && (#[trigger] rest[i]).id == other;
                    assert(apps[i].id == other);
                } else {
                    assert(apps[apps.len() - 1].id == other);
                }
            }
        }
    }
}

/// An app that was taken off is gone, and no other is.
pub proof fn law_uninstalling_touches_one_app(
    apps: Seq<AppInfoView>,
    id: Seq<char>,
    other: Seq<char>,
)
    requires
        other != id,
    ensures
        !is_installed(without_app(apps, id), id),
        is_installed(without_app(apps, id), other) == is_installed(apps, other),
{
    lemma_removed(apps, id, other);
}

/// A synthetic device.
#[derive(Debug)]
pub struct MockBackend {
    pub id: String,
    pub platform: Platform,
    pub name: String,
    pub state: MockState,
}

/// What is said of the device. Only the Android one has an identity of the
/// Android kind.
pub open spec fn mock_info(
    id: Seq<char>,
    platform: Platform,
    name: Seq<char>,
    rotation: i64,
    elapsed: int,
) -> DeviceInfoView {
    let android = platform == Platform::Android;
    DeviceInfoView {
        id,
        platform,
        name: Some(name),
        model: Some(
            if android {
                "Pixel 8"@
            } else {
                "iPhone16,1"@
            },
        ),
        manufacturer: Some(
            if android {
                "Google"@
            } else {
                "Apple"@
            },
        ),
        os_version: Some(
            if android {
                "14"@
            } else {
                "17.4.1"@
            },
        ),
        abi: Some(
            if android {
                "arm64-v8a"@
            } else {
                "arm64e"@
            },
        ),
        sdk: if android {
            Some(34)
        } else {
            None
        },
        serial: Some(id),
        brand: if android {
            Some("google"@)
        } else {
            None
        },
        build_id: if android {
            Some("UD1A.230803.041"@)
        } else {
            None
        },
        security_patch: if android {
            Some("2026-05-01"@)
        } else {
            None
        },
        abi_list: if android {
            Some("arm64-v8a,armeabi-v7a,armeabi"@)
        } else {
            None
        },
        display: Some(
            Display {
                width: stream_of(platform, rotation).0,
                height: stream_of(platform, rotation).1,
                density: Some(480),
                rotation: Some(rotation),
                render_rotation: Some(0),
            },
        ),
        battery_state: Some(
            if battery_at(elapsed).1 {
                "charging"@
            } else {
                "discharging"@
            },
        ),
    }
}

/// The processes that the device reports, with the memory that each holds.
pub open spec fn mock_apps() -> Seq<(Seq<char>, u64)> {
    seq![
        ("com.example.mock.app"@, (180 * 1024 * 1024) as u64),
        ("com.example.demo.player"@, (320 * 1024 * 1024) as u64),
    ]
}

/// The processes that a device reports, by which of them are asked for.
pub open spec fn reported_apps(platform: Platform, first: bool, second: bool) -> Seq<
    (Seq<char>, u64),
> {
    if platform == Platform::Ios {
        seq![]
    } else {
        (if first {
            seq![mock_apps()[0]]
        } else {
            seq![]
        }) + (if second {
            seq![mock_apps()[1]]
        } else {
            seq![]
        })
    }
}

impl MockBackend {
    /// A device that was just set up.
    pub fn new(id: String, platform: Platform, name: String) -> (backend: Self)
        ensures
            backend.id@ == id@,
            backend.platform == platform,
            backend.name@ == name@,
            backend.state@ == first_state(),
    {
        MockBackend { id, platform, name, state: MockState::new() }
    }

    /// The unrotated size of the panel.
    pub fn panel_size(&self) -> (size: (i64, i64))
        ensures
            size == panel_of(self.platform),
    {
        match self.platform {
            Platform::Ios => (1179, 2556),
            Platform::Android => (1080, 2400),
        }
    }

    /// The dimensions that a viewer sees at the current rotation.
    pub fn stream_size(&self) -> (size: (i64, i64))
        ensures
            size == stream_of(self.platform, self.state@.rotation),
    {
        let (width, height) = self.panel_size();
        if remainder(self.state.rotation, 180) == 0 {
            (width, height)
        } else {
            (height, width)
        }
    }

    /// What is said of the device, so long after it was started. One that is not
    /// healthy says nothing rather than making something up.
    pub fn info(&self, elapsed: u64) -> (info: Result<DeviceInfo, MockError>)
        ensures
            match info {
                Ok(info) => self.state@.healthy && info@ == mock_info(
                    self.id@,
                    self.platform,
                    self.name@,
                    self.state@.rotation,
                    elapsed as int,
                ),
                Err(error) => !self.state@.healthy && error@ == MockErrorView::Unavailable(
                    "mock marked unhealthy"@,
                ),
            },
    {
        self.check_health()?;
        let (width, height) = self.stream_size();
        let (_, charging) = battery(elapsed);
        let android = match self.platform {
            Platform::Android => true,
            Platform::Ios => false,
        };
        Ok(
            DeviceInfo {
                id: text::string_of(&text::chars_of(&self.id)),
                platform: self.platform,
                name: Some(text::string_of(&text::chars_of(&self.name))),
                model: Some(
                    if android {
                        "Pixel 8"
                    } else {
                        "iPhone16,1"
                    }.to_owned(),
                ),
                manufacturer: Some(
                    if android {
                        "Google"
                    } else {
                        "Apple"
                    }.to_owned(),
                ),
                os_version: Some(
                    if android {
                        "14"
                    } else {
                        "17.4.1"
                    }.to_owned(),
                ),
                abi: Some(
                    if android {
                        "arm64-v8a"
                    } else {
                        "arm64e"
                    }.to_owned(),
                ),
                sdk: if android {
                    Some(34)
                } else {
                    None
                },
                serial: Some(text::string_of(&text::chars_of(&self.id))),
                brand: only(android, "google"),
                build_id: only(android, "UD1A.230803.041"),
                security_patch: only(android, "2026-05-01"),
                abi_list: only(android, "arm64-v8a,armeabi-v7a,armeabi"),
                display: Some(
                    Display {
                        width,
                        height,
                        density: Some(480),
                        rotation: Some(self.state.rotation),
                        render_rotation: Some(0),
                    },
                ),
                battery_state: Some(
                    if charging {
                        "charging"
                    } else {
                        "discharging"
                    }.to_owned(),
                ),
            },
        )
    }

    /// That the device is healthy, or the error that every request gets while it
    /// is not.
    pub fn check_health(&self) -> (result: Result<(), MockError>)
        ensures
            outcome_of(result) == (if self.state@.healthy {
                None
            } else {
                Some(MockErrorView::Unavailable("mock marked unhealthy"@))
            }),
    {
        if self.state.healthy {
            Ok(())
        } else {
            Err(MockError::Unavailable("mock marked unhealthy".to_owned()))
        }
    }

    /// The processes that are reported, by which of the two are asked for: none
    /// of an iOS device, which reports its battery and nothing else.
    pub fn apps_reported(&self, first: bool, second: bool) -> (apps: Vec<(&'static str, u64)>)
        ensures
            apps@.map_values(|app: (&'static str, u64)| (app.0@, app.1)) == reported_apps(
                self.platform,
                first,
                second,
            ),
    {
        let mut apps: Vec<(&'static str, u64)> = Vec::new();
        match self.platform {
            Platform::Ios => {},
            Platform::Android => {
                if first {
                    apps.push(("com.example.mock.app", 180 * 1024 * 1024));
                }
                if second {
                    apps.push(("com.example.demo.player", 320 * 1024 * 1024));
                }
            },
        }
        assert(apps@.map_values(|app: (&'static str, u64)| (app.0@, app.1)) =~= reported_apps(
            self.platform,
            first,
            second,
        ));
        apps
    }
}

/// The memory of the device, in bytes.
pub const MEMORY_TOTAL: u64 = 8 * 1024 * 1024 * 1024;

/// How much memory there is, and how much of it can be had.
#[derive(Debug, Clone, Copy, PartialEq, Eq, Structural)]
pub struct MemoryBytes {
    pub total: u64,
    pub available: Option<u64>,
    pub free: Option<u64>,
}

/// What the device says of its memory where so much of it can be had.
pub open spec fn memory_of(available: u64) -> MemoryBytes {
    let available = if available < MEMORY_TOTAL {
        available
    } else {
        MEMORY_TOTAL
    };
    MemoryBytes {
        total: MEMORY_TOTAL,
        available: Some(available),
        free: Some((available / 2) as u64),
    }
}

/// What the device measures, but for what rides on its load curve.
#[derive(Debug)]
pub struct MockMetrics {
    /// Whether there are processor times and temperatures.
    pub has_cpu: bool,
    pub memory: Option<MemoryBytes>,
    /// Out of [`BATTERY_FULL`].
    pub battery_level: u64,
    pub battery_charging: bool,
    pub apps: Vec<(&'static str, u64)>,
}

impl MockBackend {
    /// What the device measures, so long after it was started: an iOS device
    /// reports its battery and nothing else, as a real one does.
    pub fn metrics(&self, elapsed: u64, available: u64, first: bool, second: bool) -> (metrics:
        Result<MockMetrics, MockError>)
        ensures
            match metrics {
                Ok(metrics) => {
                    &&& self.state@.healthy
                    &&& metrics.has_cpu == (self.platform == Platform::Android)
                    &&& metrics.memory == (if self.platform == Platform::Android {
                        Some(memory_of(available))
                    } else {
                        None
                    })
                    &&& metrics.battery_level == battery_at(elapsed as int).0
                    &&& metrics.battery_charging == battery_at(elapsed as int).1
                    &&& metrics.apps@.map_values(|app: (&'static str, u64)| (app.0@, app.1))
                        == reported_apps(self.platform, first, second)
                },
                Err(error) => !self.state@.healthy && error@ == MockErrorView::Unavailable(
                    "mock marked unhealthy"@,
                ),
            },
    {
        self.check_health()?;
        let (battery_level, battery_charging) = battery(elapsed);
        let available: u64 = if available < MEMORY_TOTAL {
            available
        } else {
            MEMORY_TOTAL
        };
        let android = match self.platform {
            Platform::Android => true,
            Platform::Ios => false,
        };
        let memory = if android {
            Some(
                MemoryBytes {
                    total: MEMORY_TOTAL,
                    available: Some(available),
                    free: Some(available / 2),
                },
            )
        } else {
            None
        };
        Ok(
            MockMetrics {
                has_cpu: android,
                memory,
                battery_level,
                battery_charging,
                apps: self.apps_reported(first, second),
            },
        )
    }
}

/// The battery that the control plane is told of charges exactly when the one
/// that is measured does.
pub proof fn law_info_and_metrics_agree_on_the_battery(
    id: Seq<char>,
    platform: Platform,
    name: Seq<char>,
    rotation: i64,
    elapsed: int,
)
    ensures
        mock_info(id, platform, name, rotation, elapsed).battery_state == Some("charging"@)
            <==> battery_at(elapsed).1,
{
    reveal_strlit("charging");
    reveal_strlit("discharging");
    assert("charging"@.len() != "discharging"@.len());
}

/// What only an Android device has.
fn only(android: bool, value: &str) -> (out: Option<String>)
    ensures
        text::text_in(out) == (if android {
            Some(value@)
        } else {
            None
        }),
{
    if android {
        Some(value.to_owned())
    } else {
        None
    }
}

/// Every file is listed in the directory that it lies in, as what it is, and a
/// directory lists nothing else.
pub proof fn law_every_file_is_listed_where_it_lies(
    tree: Seq<(Seq<char>, Option<Seq<u8>>)>,
    i: int,
    path: Seq<char>,
)
    requires
        0 <= i < tree.len(),
    ensures
        files::parent_text(tree[i].0) == Some(path) ==> entries_of(tree, path).contains(
            files::FileEntryView {
                path: tree[i].0,
                name: match text::after_last(tree[i].0, '/') {
                    Some(name) => name,
                    None => tree[i].0,
                },
                kind: if tree[i].1 is Some {
                    FileKind::File
                } else {
                    FileKind::Directory
                },
                size: match tree[i].1 {
                    Some(contents) => Some(contents.len() as i64),
                    None => None,
                },
                modified_at: None,
            },
        ),
        forall|k: int|
            0 <= k < entries_of(tree, path).len() ==> exists|j: int|
                0 <= j < tree.len() && #[trigger] tree[j].0 == (#[trigger] entries_of(
                    tree,
                    path,
                )[k]).path && files::parent_text(tree[j].0) == Some(path),
    decreases tree.len(),
{
    let shorter = tree.drop_last();
    let entries = entries_of(tree, path);
    let before = entries_of(shorter, path);
    if i < shorter.len() {
        law_every_file_is_listed_where_it_lies(shorter, i, path);
        assert(shorter[i] == tree[i]);
        if files::parent_text(tree[i].0) == Some(path) {
            let shown = entry_of(tree[i]);
            let k = choose|k: int| 0 <= k < before.len() && before[k] == shown;
            assert(entries[k] == shown);
        }
    } else if files::parent_text(tree[i].0) == Some(path) {
        assert(entries.last() == entry_of(tree[i]));
    }
    assert forall|k: int| 0 <= k < entries.len() implies exists|j: int|
        0 <= j < tree.len() && #[trigger] tree[j].0 == (#[trigger] entries[k]).path
            && files::parent_text(tree[j].0) == Some(path) by {
        if k < before.len() {
            assert(shorter.len() > 0);
            law_every_file_is_listed_where_it_lies(shorter, 0, path);
            assert(before[k] == entries[k]);
            let j = choose|j: int|
                0 <= j < shorter.len() && #[trigger] shorter[j].0 == before[k].path
                    && files::parent_text(shorter[j].0) == Some(path);
            assert(tree[j].0 == shorter[j].0);
        } else {
            assert(tree[tree.len() - 1].0 == entries[k].path);
        }
    }
}

/// A file that is pulled is the one that the path names.
pub proof fn law_a_pull_gives_what_the_path_names(
    tree: Seq<(Seq<char>, Option<Seq<u8>>)>,
    i: int,
)
    requires
        0 <= i < tree.len(),
        tree[i].1 is Some,
        forall|j: int| 0 <= j < i ==> (#[trigger] tree[j]).0 != tree[i].0,
    ensures
        contents_at(tree, tree[i].0) == tree[i].1,
    decreases tree.len(),
{
    if i > 0 {
        let rest = tree.drop_first();
        assert(tree[0].0 != tree[i].0);
        assert(rest[i - 1] == tree[i]);
        assert forall|j: int| 0 <= j < i - 1 implies (#[trigger] rest[j]).0 != rest[i - 1].0 by {
            assert(rest[j] == tree[j + 1]);
        }
        law_a_pull_gives_what_the_path_names(rest, i - 1);
    }
}

/// A device that is turned shows its panel turned: a quarter turn swaps the sides of
/// the picture, and two bring them back.
pub proof fn law_a_quarter_turn_swaps_the_sides(platform: Platform, rotation: i64)
    requires
        rotation as int % 90 == 0,
        0 <= rotation < 360,
    ensures
        ({
            let (width, height) = stream_of(platform, rotation);
            let turned = ((rotation + 90) % 360) as i64;
            &&& stream_of(platform, 0) == panel_of(platform)
            &&& stream_of(platform, turned) == (height, width)
            &&& platform == Platform::Ios ==> panel_of(platform) == (1179i64, 2556i64)
            &&& platform == Platform::Android ==> panel_of(platform) == (1080i64, 2400i64)
        }),
{
}

/// An app that is installed goes by what stands behind the last hyphen of its file's
/// name, and by that whole name where there is none.
pub proof fn law_an_app_is_named_by_its_file(before: Seq<char>, id: Seq<char>)
    requires
        !id.contains('-'),
    ensures
        installed_id(Some(before + seq!['-'] + id)) == id,
        installed_id(Some(id)) == id,
        installed_id(None) == "com.example.installed"@,
{
    assert forall|i: int| 0 <= i < id.len() implies #[trigger] id[i] != '-' by {
        if id[i] == '-' {
            assert(id.contains(id[i]));
        }
    }
    let name = before + seq!['-'] + id;
    let n = (before.len() + 1) as int;
    assert forall|k: int| n <= k < name.len() implies #[trigger] name[k] != '-' by {
        assert(name[k] == id[k - n]);
    }
    text::lemma_after_last(name, '-', n);
    assert(name.skip(n) =~= id);
    text::lemma_after_last(id, '-', 0);
}

/// A mock streams what its platform's devices stream.
pub proof fn law_a_mock_streams_its_platforms_codec()
    ensures
        codec_of(Platform::Ios).0 == "hev1.1.6.L93.B0"@,
        codec_of(Platform::Android).0 == "avc1.640028"@,
        codec_of(Platform::Ios).1.len() == 8 && codec_of(Platform::Android).1.len() == 8,
        codec_of(Platform::Android).1.subrange(1, 4) == seq![0x64u8, 0u8, 0x28u8],
        codec_of(Platform::Ios).1[1] == 1,
{
    assert(codec_of(Platform::Android).1.subrange(1, 4) =~= seq![0x64u8, 0u8, 0x28u8]);
}

} // verus!
