//! Browsing a device's files.
//!
//! There is no single file system to walk. One service vends the *media* domain,
//! while everything that a user saves lands in some app's container, which is a
//! separate vend per app. Those are two disjoint trees, so a path carries which
//! one it means rather than pretending there is one root above them.

use crate::files;
use crate::files::{FileEntry, FileKind, FileListing};
use crate::order;
use crate::property;
use crate::property::PropertyView;
use crate::text;
use vstd::prelude::*;
use vstd::string::*;

verus! {

/// Read size for pulling a file off the device.
pub const AFC_CHUNK: usize = 256 * 1024;

/// A place in a device's files.
#[derive(Debug)]
pub enum IosPath {
    /// The synthetic top: the media domain and every app that shares files.
    Root,
    /// `media:<absolute>`, in the media domain.
    Media(String),
    /// `app:<bundle>:<absolute>`, in one app's documents.
    App { bundle: String, path: String },
}

/// A place in a device's files.
pub enum IosPathView {
    Root,
    Media(Seq<char>),
    App { bundle: Seq<char>, path: Seq<char> },
}

impl View for IosPath {
    type V = IosPathView;

    open spec fn view(&self) -> IosPathView {
        match *self {
            IosPath::Root => IosPathView::Root,
            IosPath::Media(path) => IosPathView::Media(path@),
            IosPath::App { bundle, path } => IosPathView::App { bundle: bundle@, path: path@ },
        }
    }
}

/// A path without slashes at its end, but for the root's own.
pub open spec fn normalized(path: Seq<char>) -> Seq<char> {
    let trimmed = text::trim_end_of(path, '/');
    if trimmed.len() == 0 {
        "/"@
    } else {
        trimmed
    }
}

/// A path without slashes at its end, but for the root's own.
pub fn normalize(path: &[char]) -> (out: String)
    ensures
        out@ == normalized(path@),
{
    let trimmed = text::trimmed_end_of(path, '/');
    if trimmed.len() == 0 {
        "/".to_owned()
    } else {
        text::string_of(trimmed)
    }
}

/// The place that a path names. A bundle's name has no colon, and a path may, so
/// the first colon parts the two. What names neither tree is the top.
pub open spec fn place_in(raw: Seq<char>) -> IosPathView {
    if let Some(rest) = text::strip_prefix(raw, "media:"@) {
        IosPathView::Media(normalized(rest))
    } else if let Some(rest) = text::strip_prefix(raw, "app:"@) {
        match text::split_once(rest, ':') {
            Some((bundle, path)) => IosPathView::App { bundle, path: normalized(path) },
            None => IosPathView::Root,
        }
    } else {
        IosPathView::Root
    }
}

/// The path one level up, where there is somewhere to go. Up from the top of
/// either tree is the synthetic root, so that the two can be walked as one; an
/// app's tree starts at its documents, for a vend refuses everything above them.
pub open spec fn up_from(raw: Seq<char>) -> Option<Seq<char>> {
    match place_in(raw) {
        IosPathView::Root => None,
        IosPathView::Media(path) => if path == "/"@ {
            Some("/"@)
        } else {
            match files::parent_text(path) {
                Some(up) => Some("media:"@ + up),
                None => None,
            }
        },
        IosPathView::App { bundle, path } => if path == "/Documents"@ {
            Some("/"@)
        } else {
            match files::parent_text(path) {
                Some(up) => Some("app:"@ + bundle + ":"@ + up),
                None => None,
            }
        },
    }
}

impl IosPath {
    /// The place that a path names.
    pub fn parse(raw: &str) -> (place: Self)
        ensures
            place@ == place_in(raw@),
    {
        let chars = text::chars_of(raw);
        if let Some(rest) = text::after_prefix(&chars, "media:") {
            return IosPath::Media(normalize(rest));
        }
        if let Some(rest) = text::after_prefix(&chars, "app:") {
            if let Some((bundle, path)) = text::parted(rest, ':') {
                return IosPath::App { bundle: text::string_of(bundle), path: normalize(path) };
            }
        }
        IosPath::Root
    }

    /// The path one level up, or nothing where there is nowhere to go.
    pub fn parent(raw: &str) -> (parent: Option<String>)
        ensures
            text::text_in(parent) == up_from(raw@),
    {
        match IosPath::parse(raw) {
            IosPath::Root => None,
            IosPath::Media(path) => {
                if text::same_text(&path, "/") {
                    return Some("/".to_owned());
                }
                match files::parent_of(&path) {
                    Some(up) => {
                        let mut out = String::new();
                        out.append("media:");
                        out.append(&up);
                        assert(out@ =~= "media:"@ + up@);
                        Some(out)
                    },
                    None => None,
                }
            },
            IosPath::App { bundle, path } => {
                if text::same_text(&path, "/Documents") {
                    return Some("/".to_owned());
                }
                match files::parent_of(&path) {
                    Some(up) => {
                        let mut out = String::new();
                        out.append("app:");
                        out.append(&bundle);
                        out.append(":");
                        out.append(&up);
                        assert(out@ =~= "app:"@ + bundle@ + ":"@ + up@);
                        Some(out)
                    },
                    None => None,
                }
            },
        }
    }
}

proof fn lemma_trim_end_of(s: Seq<char>, c: char)
    ensures
        text::trim_end_of(s, c).len() <= s.len(),
        text::trim_end_of(s, c) == s.take(text::trim_end_of(s, c).len() as int),
        text::trim_end_of(s, c).len() > 0 ==> text::trim_end_of(s, c).last() != c,
    decreases s.len(),
{
    if s.len() > 0 && s.last() == c {
        lemma_trim_end_of(s.drop_last(), c);
        let n = text::trim_end_of(s, c).len() as int;
        assert(s.drop_last().take(n) =~= s.take(n));
    } else {
        assert(s.take(s.len() as int) =~= s);
    }
}

proof fn lemma_last_slash(path: Seq<char>)
    ensures
        files::last_slash(path) matches Some(at) ==> 0 <= at < path.len(),
    decreases path.len(),
{
    if path.len() > 0 && path.last() != '/' {
        lemma_last_slash(path.drop_last());
    }
}

/// Walking up always ends: every step leads to a shorter path or to the top,
/// and there is none from there.
pub proof fn law_walking_up_ends_at_the_top(raw: Seq<char>)
    ensures
        up_from("/"@) is None,
        up_from(raw) matches Some(up) ==> up == "/"@ || up.len() < raw.len(),
{
    reveal_strlit("/");
    reveal_strlit("media:");
    reveal_strlit("app:");
    reveal_strlit(":");
    if let Some(rest) = text::strip_prefix(raw, "media:"@) {
        lemma_trim_end_of(rest, '/');
        lemma_last_slash(normalized(rest));
    } else if let Some(rest) = text::strip_prefix(raw, "app:"@) {
        text::lemma_find(rest, ':');
        if let Some((bundle, path)) = text::split_once(rest, ':') {
            lemma_trim_end_of(path, '/');
            lemma_last_slash(normalized(path));
        }
    }
}

proof fn lemma_media_place(path: Seq<char>)
    ensures
        place_in("media:"@ + path) == IosPathView::Media(normalized(path)),
{
    let raw = "media:"@ + path;
    assert(raw.take("media:"@.len() as int) =~= "media:"@);
    assert(raw.skip("media:"@.len() as int) =~= path);
}

proof fn lemma_app_place(bundle: Seq<char>, path: Seq<char>)
    requires
        forall|i: int| 0 <= i < bundle.len() ==> #[trigger] bundle[i] != ':',
    ensures
        place_in("app:"@ + bundle + ":"@ + path) == (IosPathView::App {
            bundle,
            path: normalized(path),
        }),
{
    reveal_strlit("media:");
    reveal_strlit("app:");
    reveal_strlit(":");
    let raw = "app:"@ + bundle + ":"@ + path;
    let rest = bundle + ":"@ + path;
    assert(raw[0] == 'a');
    assert("media:"@[0] == 'm');
    assert(text::strip_prefix(raw, "media:"@) is None);
    assert(raw.take(4) =~= "app:"@);
    assert(raw.skip(4) =~= rest);
    assert(rest[bundle.len() as int] == ':');
    assert forall|i: int| 0 <= i < bundle.len() implies #[trigger] rest[i] != ':' by {
        assert(rest[i] == bundle[i]);
    }
    text::lemma_found(rest, ':', bundle.len() as int);
    assert(rest.take(bundle.len() as int) =~= bundle);
    assert(rest.skip(bundle.len() as int + 1) =~= path);
}

/// The two trees stay apart: walking up stays in the media domain, or in the
/// same app, until it comes out at the top.
pub proof fn law_the_trees_stay_apart(raw: Seq<char>, up: Seq<char>)
    requires
        up_from(raw) == Some(up),
        up != "/"@,
    ensures
        place_in(raw) is Media ==> place_in(up) is Media,
        place_in(raw) matches IosPathView::App { bundle, .. } ==> (place_in(up) matches IosPathView::App {
            bundle: same,
            ..
        } && same == bundle),
{
    match place_in(raw) {
        IosPathView::Root => {},
        IosPathView::Media(path) => {
            lemma_media_place(files::parent_text(path)->0);
        },
        IosPathView::App { bundle, path } => {
            let rest = text::strip_prefix(raw, "app:"@)->0;
            text::lemma_find(rest, ':');
            assert forall|i: int| 0 <= i < bundle.len() implies #[trigger] bundle[i] != ':' by {
                assert(rest[i] == bundle[i]);
            }
            lemma_app_place(bundle, files::parent_text(path)->0);
        },
    }
}

/// What a directory lists leads back to it: the path of an entry of a directory
/// in the media domain names the entry, and the way up from it is the directory.
pub proof fn law_an_entry_leads_back_to_its_directory(dir: Seq<char>, name: Seq<char>)
    requires
        dir == normalized(dir),
        name.len() > 0,
        forall|i: int| 0 <= i < name.len() ==> #[trigger] name[i] != '/',
    ensures
        place_in("media:"@ + files::join_text(dir, name)) == IosPathView::Media(
            files::join_text(dir, name),
        ),
        up_from("media:"@ + files::join_text(dir, name)) == Some("media:"@ + dir),
{
    reveal_strlit("/");
    lemma_trim_end_of(dir, '/');
    let path = files::join_text(dir, name);
    lemma_media_place(path);
    assert(path.last() == name.last());
    assert(name[name.len() - 1] != '/');
    assert(text::trim_end_of(path, '/') == path);
    assert(path.len() > 1);
    files::law_an_entry_lies_in_its_directory(dir, name);
}

/// What a device says of a file: its kind in the file system's own words, its
/// size, and when it was modified, in milliseconds since the epoch.
#[derive(Debug)]
pub struct AfcInfo {
    pub ifmt: String,
    pub size: u64,
    pub modified_at: i64,
}

/// A size that wraps where it is too large for a signed integer.
pub open spec fn signed_size(size: u64) -> int {
    if size <= i64::MAX {
        size as int
    } else {
        size - 0x1_0000_0000_0000_0000
    }
}

/// The kind of a file, by the file system's own words for it.
pub open spec fn kind_of(ifmt: Option<Seq<char>>) -> FileKind {
    if ifmt == Some("S_IFDIR"@) {
        FileKind::Directory
    } else if ifmt == Some("S_IFREG"@) {
        FileKind::File
    } else {
        FileKind::Other
    }
}

/// Whether a name is one of the two that every directory holds.
pub open spec fn is_dot(name: Seq<char>) -> bool {
    name == "."@ || name == ".."@
}

/// Whether a name in a directory is to be looked at.
pub fn is_listed(name: &str) -> (listed: bool)
    ensures
        listed == !is_dot(name@),
{
    !text::same_text(name, ".") && !text::same_text(name, "..")
}

/// One entry of a directory, from its name and what the device says of it. One
/// that cannot be read must not lose the whole listing: it is shown as something
/// else.
pub fn entry(prefix: &str, dir: &str, name: String, info: Option<AfcInfo>) -> (entry: FileEntry)
    ensures
        entry.name@ == name@,
        entry.path@ == prefix@ + files::join_text(dir@, name@),
        entry.kind == kind_of(
            match info {
                Some(info) => Some(info.ifmt@),
                None => None,
            },
        ),
        entry.size == (if info is Some && entry.kind == FileKind::File {
            Some(signed_size(info->0.size) as i64)
        } else {
            None
        }),
        entry.modified_at == (match info {
            Some(info) => Some(info.modified_at),
            None => None,
        }),
{
    let child = files::join_path(dir, &name);
    let mut path = String::new();
    path.append(prefix);
    path.append(&child);
    assert(path@ =~= prefix@ + files::join_text(dir@, name@));
    match info {
        None => FileEntry { path, name, kind: FileKind::Other, size: None, modified_at: None },
        Some(info) => {
            let kind = if text::same_text(&info.ifmt, "S_IFDIR") {
                FileKind::Directory
            } else if text::same_text(&info.ifmt, "S_IFREG") {
                FileKind::File
            } else {
                FileKind::Other
            };
            let size: i64 = if info.size <= i64::MAX as u64 {
                info.size as i64
            } else {
                -((u64::MAX - info.size) as i64) - 1
            };
            FileEntry {
                path,
                name,
                kind,
                size: if kind == FileKind::File {
                    Some(size)
                } else {
                    None
                },
                modified_at: Some(info.modified_at),
            }
        },
    }
}

/// A directory, with the way up from it.
pub fn listing(raw: &str, entries: Vec<FileEntry>) -> (listing: FileListing)
    ensures
        listing.path@ == raw@,
        text::text_in(listing.parent) == up_from(raw@),
        listing.entries@ == entries@,
{
    FileListing { path: raw.to_owned(), parent: IosPath::parent(raw), entries }
}

/// The name under which an app that shares files is listed.
pub open spec fn shared_name(
    bundle: Seq<char>,
    display_name: Option<PropertyView>,
    name: Option<PropertyView>,
) -> Seq<char> {
    let named = property::text_of(
        if display_name is Some {
            display_name
        } else {
            name
        },
    );
    match named {
        Some(named) => named,
        None => bundle,
    }
}

/// An app that shares files, with the name under which it is listed, from what
/// the device says of it: exactly those that share are on the phone's own list
/// of places.
pub open spec fn sharing_app(bundle: Seq<char>, info: Map<Seq<char>, PropertyView>) -> Option<
    (Seq<char>, Seq<char>),
> {
    if property::flag_of(property::entry_at(info, "UIFileSharingEnabled"@)) == Some(true) {
        Some(
            (
                shared_name(
                    bundle,
                    property::entry_at(info, "CFBundleDisplayName"@),
                    property::entry_at(info, "CFBundleName"@),
                ),
                bundle,
            ),
        )
    } else {
        None
    }
}

/// An app with its name, as texts.
pub open spec fn pair_in(app: Option<(String, String)>) -> Option<(Seq<char>, Seq<char>)> {
    match app {
        Some((name, bundle)) => Some((name@, bundle@)),
        None => None,
    }
}

/// An app that shares files, with the name under which it is listed.
pub fn shared_app(bundle: &str, info: &plist::Dictionary) -> (shared: Option<(String, String)>)
    ensures
        pair_in(shared) == sharing_app(bundle@, property::properties_in(*info)),
{
    let shares = match property::as_flag(property::property(info, "UIFileSharingEnabled")) {
        Some(shares) => shares,
        None => false,
    };
    if !shares {
        return None;
    }
    let named = match property::property(info, "CFBundleDisplayName") {
        Some(value) => property::as_text(Some(value)),
        None => property::as_text(property::property(info, "CFBundleName")),
    };
    let name = match named {
        Some(name) => name,
        None => bundle.to_owned(),
    };
    Some((name, bundle.to_owned()))
}

/// Apps with their names, as texts.
pub open spec fn pairs(sharing: Seq<(String, String)>) -> Seq<(Seq<char>, Seq<char>)> {
    sharing.map_values(|app: (String, String)| (app.0@, app.1@))
}

/// Whether another app goes by the same name.
pub open spec fn is_ambiguous(sharing: Seq<(Seq<char>, Seq<char>)>, at: int) -> bool {
    exists|i: int| 0 <= i < sharing.len() && i != at && (#[trigger] sharing[i]).0 == sharing[at].0
}

/// An app among those that share files, as an entry. An app suite ships several
/// bundles under one name, and identical rows are no choice, so those that are
/// ambiguous carry the bundle.
pub open spec fn app_entry(sharing: Seq<(Seq<char>, Seq<char>)>, at: int) -> files::FileEntryView {
    let (name, bundle) = sharing[at];
    files::FileEntryView {
        path: "app:"@ + bundle + ":"@ + "/Documents"@,
        name: if is_ambiguous(sharing, at) {
            name + " ("@ + bundle + ")"@
        } else {
            name
        },
        kind: FileKind::Directory,
        size: None,
        modified_at: None,
    }
}

/// The media domain, as an entry.
pub open spec fn media_entry() -> files::FileEntryView {
    files::FileEntryView {
        path: "media:"@ + "/"@,
        name: "Media"@,
        kind: FileKind::Directory,
        size: None,
        modified_at: None,
    }
}

/// The entries of the synthetic root: the media domain, then the apps that share
/// files, in an order.
pub open spec fn root_entries(
    sharing: Seq<(Seq<char>, Seq<char>)>,
    order: Seq<usize>,
) -> Seq<files::FileEntryView> {
    seq![media_entry()] + order.map_values(|at: usize| app_entry(sharing, at as int))
}

/// The names by which apps are put in order.
pub open spec fn sort_keys(sharing: Seq<(Seq<char>, Seq<char>)>) -> Seq<Seq<char>> {
    sharing.map_values(|app: (Seq<char>, Seq<char>)| text::lowercase(app.0))
}

fn has_namesake(sharing: &[(String, String)], at: usize) -> (found: bool)
    requires
        at < sharing@.len(),
    ensures
        found == is_ambiguous(pairs(sharing@), at as int),
{
    let ghost all = pairs(sharing@);
    let mut n: usize = 0;
    while n < sharing.len()
        invariant
            n <= sharing@.len(),
            at < sharing@.len(),
            all == pairs(sharing@),
            forall|i: int| 0 <= i < n && i != at ==> (#[trigger] all[i]).0 != all[at as int].0,
        decreases sharing@.len() - n,
    {
        assert(all[n as int].0 == sharing@[n as int].0@);
        assert(all[at as int].0 == sharing@[at as int].0@);
        if n != at && text::same_text(&sharing[n].0, &sharing[at].0) {
            return true;
        }
        n += 1;
    }
    false
}

fn app_row(sharing: &[(String, String)], at: usize) -> (row: FileEntry)
    requires
        at < sharing@.len(),
    ensures
        row@ == app_entry(pairs(sharing@), at as int),
{
    let ghost all = pairs(sharing@);
    assert(all[at as int] == (sharing@[at as int].0@, sharing@[at as int].1@));
    let (name, bundle) = &sharing[at];
    let mut path = String::new();
    path.append("app:");
    path.append(bundle);
    path.append(":");
    path.append("/Documents");
    assert(path@ =~= "app:"@ + bundle@ + ":"@ + "/Documents"@);
    let mut shown = String::new();
    shown.append(name);
    assert(shown@ =~= name@);
    if has_namesake(sharing, at) {
        shown.append(" (");
        shown.append(bundle);
        shown.append(")");
        assert(shown@ =~= name@ + " ("@ + bundle@ + ")"@);
    }
    FileEntry { path, name: shown, kind: FileKind::Directory, size: None, modified_at: None }
}

/// The synthetic root, from the apps that share files and the names by which
/// they are put in order.
pub fn root_listing(sharing: &[(String, String)], keys: &[Vec<char>]) -> (listing: FileListing)
    requires
        keys@.len() == sharing@.len(),
    ensures
        listing.path@ == "/"@,
        listing.parent is None,
        exists|order: Seq<usize>| #[trigger]
            order::is_order(text::texts(keys@), order) && files::file_views(listing.entries@)
                == root_entries(pairs(sharing@), order),
{
    let places = order::order_of(keys);
    let mut path = String::new();
    path.append("media:");
    path.append("/");
    assert(path@ =~= "media:"@ + "/"@);
    let media = FileEntry {
        path,
        name: "Media".to_owned(),
        kind: FileKind::Directory,
        size: None,
        modified_at: None,
    };
    let mut entries: Vec<FileEntry> = Vec::new();
    entries.push(media);
    let ghost all = pairs(sharing@);
    assert(files::file_views(entries@) =~= root_entries(all, places@.take(0)));
    let mut k: usize = 0;
    while k < places.len()
        invariant
            k <= places@.len(),
            all == pairs(sharing@),
            keys@.len() == sharing@.len(),
            order::is_order(text::texts(keys@), places@),
            files::file_views(entries@) == root_entries(all, places@.take(k as int)),
        decreases places@.len() - k,
    {
        let at: usize = places[k];
        assert(places@[k as int] < sharing@.len());
        let ghost before = files::file_views(entries@);
        entries.push(app_row(sharing, at));
        k += 1;
        assert(files::file_views(entries@) =~= before.push(app_entry(all, at as int)));
        assert(root_entries(all, places@.take(k as int)) =~= before.push(
            app_entry(all, at as int),
        ));
    }
    assert(places@.take(places@.len() as int) =~= places@);
    FileListing { path: "/".to_owned(), parent: None, entries }
}

/// The synthetic root: the media domain, then every app that shares files, by
/// name.
pub fn list_file_domains(sharing: &[(String, String)]) -> (listing: FileListing)
    ensures
        listing.path@ == "/"@,
        listing.parent is None,
        exists|order: Seq<usize>| #[trigger]
            order::is_order(sort_keys(pairs(sharing@)), order) && files::file_views(
                listing.entries@,
            ) == root_entries(pairs(sharing@), order),
{
    let ghost all = sort_keys(pairs(sharing@));
    let mut keys: Vec<Vec<char>> = Vec::new();
    let mut n: usize = 0;
    assert(text::texts(keys@) =~= all.take(0));
    while n < sharing.len()
        invariant
            n <= sharing@.len(),
            all == sort_keys(pairs(sharing@)),
            text::texts(keys@) == all.take(n as int),
        decreases sharing@.len() - n,
    {
        let lower = text::in_lowercase(&sharing[n].0);
        let ghost before = text::texts(keys@);
        keys.push(text::chars_of(&lower));
        n += 1;
        assert(text::texts(keys@) =~= before.push(all[n - 1]));
        assert(all.take(n as int) =~= before.push(all[n - 1]));
    }
    assert(all.take(all.len() as int) =~= all);
    assert(keys@.len() == text::texts(keys@).len());
    root_listing(sharing, &keys)
}

/// The apps that share files, among those that are installed.
pub open spec fn sharing_apps(apps: Seq<(String, plist::Value)>) -> Seq<(Seq<char>, Seq<char>)>
    decreases apps.len(),
{
    if apps.len() == 0 {
        Seq::empty()
    } else {
        let before = sharing_apps(apps.drop_last());
        match sharing_app(apps.last().0@, property::table_in(apps.last().1)) {
            Some(app) => before.push(app),
            None => before,
        }
    }
}

/// The synthetic root from the apps that are installed, with what the device says
/// of each.
pub fn file_domains(apps: &[(String, plist::Value)]) -> (listing: FileListing)
    ensures
        listing.path@ == "/"@,
        listing.parent is None,
        exists|order: Seq<usize>| #[trigger]
            order::is_order(sort_keys(sharing_apps(apps@)), order) && files::file_views(
                listing.entries@,
            ) == root_entries(sharing_apps(apps@), order),
{
    let mut sharing: Vec<(String, String)> = Vec::new();
    let mut n: usize = 0;
    assert(apps@.take(0) =~= Seq::<(String, plist::Value)>::empty());
    assert(pairs(sharing@) =~= Seq::<(Seq<char>, Seq<char>)>::empty());
    while n < apps.len()
        invariant
            n <= apps@.len(),
            pairs(sharing@) == sharing_apps(apps@.take(n as int)),
        decreases apps@.len() - n,
    {
        let ghost before = pairs(sharing@);
        let ghost more = apps@.take(n + 1);
        assert(more.drop_last() =~= apps@.take(n as int));
        assert(more.last() == apps@[n as int]);
        let shared = match property::dictionary_of(&apps[n].1) {
            Some(info) => shared_app(apps[n].0.as_str(), info),
            None => None,
        };
        match shared {
            Some(app) => {
                let ghost one = (app.0@, app.1@);
                sharing.push(app);
                assert(pairs(sharing@) =~= before.push(one));
            },
            None => {},
        }
        n += 1;
    }
    assert(apps@.take(n as int) =~= apps@);
    list_file_domains(&sharing)
}

/// Where an upload is staged before it is installed.
pub fn staged_path(udid: &str) -> (path: String)
    ensures
        path@ == "PublicStaging/"@ + udid@ + ".ipa"@,
{
    let mut path = String::new();
    path.append("PublicStaging/");
    path.append(udid);
    path.append(".ipa");
    assert(path@ =~= "PublicStaging/"@ + udid@ + ".ipa"@);
    path
}

/// A configured path as the device takes it, relative to its own root.
pub fn wiped_path(path: &str) -> (out: String)
    ensures
        out@ == text::trim_start_of(path@, '/'),
{
    let chars = text::chars_of(path);
    text::string_of(text::trimmed_start_of(&chars, '/'))
}

/// A file on its way off the device, a chunk at a time.
#[derive(Debug)]
pub struct Pull {
    pub written: u64,
}

/// What becomes of a chunk.
#[derive(Debug, Clone, Copy, PartialEq, Eq, Structural)]
pub enum ChunkStep {
    /// Nothing came: the file is at its end.
    Stop,
    /// Write it; it was the last.
    WriteLast,
    /// Write it, and read on.
    Write,
}

/// What becomes of a chunk of this length.
pub open spec fn step_for(length: int) -> ChunkStep {
    if length == 0 {
        ChunkStep::Stop
    } else if length < AFC_CHUNK {
        ChunkStep::WriteLast
    } else {
        ChunkStep::Write
    }
}

/// Whatever comes is written, and a pull reads on exactly as long as whole chunks of
/// 256 KiB come: the first that is shorter ends it, so a file that is a whole number of
/// chunks ends with an empty one.
pub proof fn law_a_pull_reads_on_while_whole_chunks_come(length: int)
    requires
        0 <= length,
    ensures
        (step_for(length) == ChunkStep::Write) == (length >= 256 * 1024),
        (step_for(length) == ChunkStep::Stop) == (length == 0),
        (step_for(length) == ChunkStep::WriteLast) == (0 < length < 256 * 1024),
{
}

impl Pull {
    /// Nothing has come yet.
    pub fn new() -> (pull: Self)
        ensures
            pull.written == 0,
    {
        Pull { written: 0 }
    }

    /// Take a chunk of this length. A short one is the last.
    pub fn on_chunk(&mut self, length: usize) -> (step: ChunkStep)
        requires
            old(self).written + length <= u64::MAX,
        ensures
            final(self).written == old(self).written + length,
            step == step_for(length as int),
    {
        self.written = self.written + length as u64;
        if length == 0 {
            ChunkStep::Stop
        } else if length < AFC_CHUNK {
            ChunkStep::WriteLast
        } else {
            ChunkStep::Write
        }
    }
}

/// What the device's words for a kind of file mean, and that there are no others.
pub proof fn law_kinds_go_by_the_file_systems_words(ifmt: Seq<char>)
    ensures
        kind_of(Some("S_IFDIR"@)) == FileKind::Directory,
        kind_of(Some("S_IFREG"@)) == FileKind::File,
        ifmt != "S_IFDIR"@ && ifmt != "S_IFREG"@ ==> kind_of(Some(ifmt)) == FileKind::Other,
        kind_of(None) == FileKind::Other,
{
    reveal_strlit("S_IFDIR");
    reveal_strlit("S_IFREG");
    assert("S_IFDIR"@[4] != "S_IFREG"@[4]);
}

/// An app is a place exactly where it says that it shares its files, and goes by the
/// name that is shown on the home screen, else by its own, else by its bundle.
pub proof fn law_an_app_goes_by_its_best_name(
    bundle: Seq<char>,
    info: Map<Seq<char>, PropertyView>,
    shown: Seq<char>,
)
    requires
        info.contains_key("UIFileSharingEnabled"@),
        info["UIFileSharingEnabled"@] == PropertyView::Flag(true),
    ensures
        sharing_app(bundle, info.insert("UIFileSharingEnabled"@, PropertyView::Flag(false))) is None,
        sharing_app(bundle, info.remove("UIFileSharingEnabled"@)) is None,
        sharing_app(
            bundle,
            info.insert("CFBundleDisplayName"@, PropertyView::Text(shown)),
        ) == Some((shown, bundle)),
        !info.contains_key("CFBundleDisplayName"@) ==> sharing_app(
            bundle,
            info.insert("CFBundleName"@, PropertyView::Text(shown)),
        ) == Some((shown, bundle)),
        !info.contains_key("CFBundleDisplayName"@) && !info.contains_key("CFBundleName"@)
            ==> sharing_app(bundle, info) == Some((bundle, bundle)),
{
    reveal_strlit("UIFileSharingEnabled");
    reveal_strlit("CFBundleDisplayName");
    reveal_strlit("CFBundleName");
    assert("UIFileSharingEnabled"@.len() == 20);
    assert("CFBundleDisplayName"@.len() == 19 && "CFBundleName"@.len() == 12);
}

/// The places are the media domain and then every app that shares its files, each once
/// and by its own bundle; two that share a name are told apart by it, and no other name
/// is changed.
pub proof fn law_every_sharing_app_is_a_place(
    sharing: Seq<(Seq<char>, Seq<char>)>,
    order: Seq<usize>,
    at: int,
)
    requires
        order::is_order(sort_keys(sharing), order),
        0 <= at < sharing.len() <= usize::MAX,
    ensures
        ({
            let entries = root_entries(sharing, order);
            let (name, bundle) = sharing[at];
            &&& entries.len() == sharing.len() + 1
            &&& entries[0].path == "media:/"@
            &&& exists|k: int|
                1 <= k < entries.len() && (#[trigger] entries[k]).path == "app:"@ + bundle
                    + ":/Documents"@ && entries[k].kind == FileKind::Directory && (entries[k].name
                    == name || entries[k].name == name + " ("@ + bundle + ")"@)
        }),
{
    reveal_strlit("media:");
    reveal_strlit("/");
    reveal_strlit("media:/");
    reveal_strlit(":");
    reveal_strlit("/Documents");
    reveal_strlit(":/Documents");
    let entries = root_entries(sharing, order);
    assert("media:"@ + "/"@ =~= "media:/"@);
    assert(sort_keys(sharing).len() == sharing.len());
    assert(order.contains(at as usize));
    let k = choose|k: int| 0 <= k < order.len() && order[k] == at as usize;
    let shown = app_entry(sharing, at);
    assert(entries[k + 1] == shown);
    let bundle = sharing[at].1;
    assert("app:"@ + bundle + ":"@ + "/Documents"@ =~= "app:"@ + bundle + ":/Documents"@);
}

} // verus!
