//! The Developer Disk Image: what is cached, and when it is mounted.
//!
//! A device offers no screen, no HID and no app service until an image is
//! mounted, and the mount is lost on every reboot. There is one image for every
//! device and version; what makes it device-specific is a ticket that is asked
//! for during the mount.

use crate::clock;
use crate::clock::SECOND;
use crate::property;
use crate::property::PropertyView;
use crate::text;
use vstd::prelude::*;
use vstd::string::*;

verus! {

/// How long a failed mount is left alone. The session is retried every few
/// seconds for ever, and the expensive half of a mount ends in a request to a
/// signing server, which a device that cannot mount at all must not repeat at
/// that pace.
pub const MOUNT_RETRY_BACKOFF: u64 = 300 * SECOND;

/// The three files of an image.
#[derive(Debug, Clone, Copy, PartialEq, Eq, Structural)]
pub enum DdiFile {
    Image,
    Manifest,
    TrustCache,
}

impl DdiFile {
    /// The name of a file, on the mirror and in the cache.
    pub open spec fn spelling(self) -> Seq<char> {
        match self {
            DdiFile::Image => "Image.dmg"@,
            DdiFile::Manifest => "BuildManifest.plist"@,
            DdiFile::TrustCache => "Image.dmg.trustcache"@,
        }
    }

    /// The name of a file, on the mirror and in the cache.
    pub fn name(self) -> (name: &'static str)
        ensures
            name@ == self.spelling(),
    {
        match self {
            DdiFile::Image => "Image.dmg",
            DdiFile::Manifest => "BuildManifest.plist",
            DdiFile::TrustCache => "Image.dmg.trustcache",
        }
    }

    /// Where a mirror has a file.
    pub fn url(self, base: &str) -> (url: String)
        ensures
            url@ == base@ + "/"@ + self.spelling(),
    {
        let mut url = String::new();
        url.append(base);
        url.append("/");
        url.append(self.name());
        assert(url@ =~= base@ + "/"@ + self.spelling());
        url
    }
}

/// The name under which a file is written before it is renamed into place.
pub open spec fn part_of(name: Seq<char>) -> Seq<char> {
    name + ".part"@
}

/// The name under which a file is written before it is renamed into place, so
/// that a process killed mid-write cannot leave a truncated file that reads as
/// a valid cache. The ending is appended and replaces nothing.
pub fn part_name(name: &str) -> (part: String)
    ensures
        part@ == part_of(name@),
{
    let mut part = String::new();
    part.append(name);
    part.append(".part");
    assert(part@ =~= part_of(name@));
    part
}

/// No two files are written under one name before they are in place, and none
/// under the name of a file that is.
pub proof fn law_parts_do_not_collide(a: DdiFile, b: DdiFile)
    ensures
        part_of(a.spelling()) == part_of(b.spelling()) ==> a == b,
        part_of(a.spelling()) != b.spelling(),
{
    reveal_strlit("Image.dmg");
    reveal_strlit("BuildManifest.plist");
    reveal_strlit("Image.dmg.trustcache");
    reveal_strlit(".part");
    assert(a.spelling().len() == 9 || a.spelling().len() == 19 || a.spelling().len() == 20);
    assert(part_of(a.spelling()).len() == a.spelling().len() + 5);
    assert(part_of(b.spelling()).len() == b.spelling().len() + 5);
}

/// The mountable image, held in memory once per process.
pub struct DdiPayload {
    pub image: Vec<u8>,
    pub build_manifest: Vec<u8>,
    pub trust_cache: Vec<u8>,
}

/// The build that an image is of, by the values of its manifest.
pub open spec fn build_in(manifest: Option<Map<Seq<char>, PropertyView>>) -> Option<Seq<char>> {
    match manifest {
        Some(values) => property::text_of(property::entry_at(values, "ProductBuildVersion"@)),
        None => None,
    }
}

impl DdiPayload {
    /// The build that the image is of, out of its manifest, e.g. `27A5228h`.
    pub fn build_version(&self) -> (version: Option<String>)
        ensures
            text::text_in(version) == if property::is_readable(self.build_manifest@) {
                build_in(property::decoded_table(self.build_manifest@))
            } else {
                None
            },
    {
        if !property::readable(self.build_manifest.as_slice()) {
            return None;
        }
        match property::decoded(self.build_manifest.as_slice()) {
            Some(values) => DdiPayload::build_of(&values),
            None => None,
        }
    }

    /// The build that an image is of, out of the dictionary that its manifest
    /// holds.
    pub fn build_of(manifest: &plist::Dictionary) -> (version: Option<String>)
        ensures
            text::text_in(version) == build_in(Some(property::properties_in(*manifest))),
    {
        property::as_text(property::property(manifest, "ProductBuildVersion"))
    }
}

/// What loading an image does next, or how it ended.
#[derive(Debug, Clone, Copy, PartialEq, Eq, Structural)]
pub enum LoadStep {
    /// Read a file of the cache.
    Read(DdiFile),
    /// Fetch a file from the mirror.
    Fetch(DdiFile),
    /// The image is the one in the cache.
    Cached,
    /// The image came from the mirror, and is to be written to the cache. One
    /// that cannot be written can be mounted all the same.
    Fetched,
    Failed,
}

/// What a step of loading an image came to.
pub enum LoadEvent {
    /// The file's bytes.
    Found(Vec<u8>),
    /// There is no such file.
    Absent,
    /// It could not be told, or not be had.
    Failed,
}

/// What a step of loading an image came to.
pub enum LoadEventView {
    Found(Seq<u8>),
    Absent,
    Failed,
}

impl View for LoadEvent {
    type V = LoadEventView;

    open spec fn view(&self) -> LoadEventView {
        match *self {
            LoadEvent::Found(bytes) => LoadEventView::Found(bytes@),
            LoadEvent::Absent => LoadEventView::Absent,
            LoadEvent::Failed => LoadEventView::Failed,
        }
    }
}

impl LoadEventView {
    /// Whether a step came to a file. An empty one is none.
    pub open spec fn is_file(self) -> bool {
        self matches LoadEventView::Found(bytes) && bytes.len() > 0
    }
}

impl DdiFile {
    /// How many files come before this one.
    pub open spec fn place(self) -> int {
        match self {
            DdiFile::Image => 0,
            DdiFile::Manifest => 1,
            DdiFile::TrustCache => 2,
        }
    }

    /// The file after this one.
    pub open spec fn following(self) -> Option<DdiFile> {
        match self {
            DdiFile::Image => Some(DdiFile::Manifest),
            DdiFile::Manifest => Some(DdiFile::TrustCache),
            DdiFile::TrustCache => None,
        }
    }

    fn next(self) -> (next: Option<DdiFile>)
        ensures
            next == self.following(),
    {
        match self {
            DdiFile::Image => Some(DdiFile::Manifest),
            DdiFile::Manifest => Some(DdiFile::TrustCache),
            DdiFile::TrustCache => None,
        }
    }
}

/// How far an image is loaded, with the files so far.
#[verifier::ext_equal]
pub struct LoaderView {
    pub step: LoadStep,
    pub files: Seq<Seq<u8>>,
}

impl LoaderView {
    /// The cache comes first.
    pub open spec fn start() -> LoaderView {
        LoaderView { step: LoadStep::Read(DdiFile::Image), files: Seq::empty() }
    }

    /// How far an image is loaded after a step. All three files have to be in the
    /// cache and not empty. Otherwise all of them are fetched: a half-written
    /// cache heals itself on the next start. A cache that cannot be read is a
    /// failure, and so is a file that cannot be had or is empty.
    pub open spec fn after(self, event: LoadEventView) -> LoaderView {
        match (self.step, event) {
            (LoadStep::Read(file), LoadEventView::Found(bytes)) if bytes.len() > 0 => LoaderView {
                step: match file.following() {
                    Some(next) => LoadStep::Read(next),
                    None => LoadStep::Cached,
                },
                files: self.files.push(bytes),
            },
            (LoadStep::Read(_), LoadEventView::Failed) => LoaderView {
                step: LoadStep::Failed,
                files: Seq::empty(),
            },
            (LoadStep::Read(_), _) => LoaderView {
                step: LoadStep::Fetch(DdiFile::Image),
                files: Seq::empty(),
            },
            (LoadStep::Fetch(file), LoadEventView::Found(bytes)) if bytes.len() > 0 => LoaderView {
                step: match file.following() {
                    Some(next) => LoadStep::Fetch(next),
                    None => LoadStep::Fetched,
                },
                files: self.files.push(bytes),
            },
            (LoadStep::Fetch(_), _) => LoaderView { step: LoadStep::Failed, files: Seq::empty() },
            _ => self,
        }
    }

    /// How far an image is loaded after some steps.
    pub open spec fn after_all(self, events: Seq<LoadEventView>) -> LoaderView
        decreases events.len(),
    {
        if events.len() == 0 {
            self
        } else {
            self.after_all(events.drop_last()).after(events.last())
        }
    }

    /// Whether there is an image.
    pub open spec fn is_loaded(self) -> bool {
        self.step is Cached || self.step is Fetched
    }

    /// That the files are those before the step, and none is empty.
    pub open spec fn is_sound(self) -> bool {
        &&& self.files.len() == match self.step {
            LoadStep::Read(file) => file.place(),
            LoadStep::Fetch(file) => file.place(),
            LoadStep::Cached => 3,
            LoadStep::Fetched => 3,
            LoadStep::Failed => 0,
        }
        &&& forall|i: int| 0 <= i < self.files.len() ==> (#[trigger] self.files[i]).len() > 0
    }
}

/// Loads an image, from the cache or else from the mirror.
pub struct DdiLoader {
    step: LoadStep,
    files: Vec<Vec<u8>>,
}

impl View for DdiLoader {
    type V = LoaderView;

    closed spec fn view(&self) -> LoaderView {
        LoaderView { step: self.step, files: self.files@.map_values(|file: Vec<u8>| file@) }
    }
}

impl DdiLoader {
    #[verifier::type_invariant]
    spec fn well_formed(self) -> bool {
        self@.is_sound()
    }

    pub fn new() -> (loader: Self)
        ensures
            loader@ == LoaderView::start(),
    {
        let loader = DdiLoader { step: LoadStep::Read(DdiFile::Image), files: Vec::new() };
        assert(loader@ =~= LoaderView::start());
        loader
    }

    /// What comes next, or how it ended.
    pub fn step(&self) -> (step: LoadStep)
        ensures
            step == self@.step,
    {
        self.step
    }

    /// Take what a step came to.
    pub fn on_event(self, event: LoadEvent) -> (loader: Self)
        ensures
            loader@ == self@.after(event@),
    {
        proof {
            use_type_invariant(&self);
            law_only_whole_files_are_kept(self@, event@);
        }
        let ghost before = self@;
        let DdiLoader { step, mut files } = self;
        let ghost had = files@.map_values(|file: Vec<u8>| file@);
        let step = match (step, event) {
            (LoadStep::Read(file), LoadEvent::Found(bytes)) if bytes.len() > 0 => {
                let ghost one = bytes@;
                files.push(bytes);
                assert(files@.map_values(|file: Vec<u8>| file@) =~= had.push(one));
                match file.next() {
                    Some(next) => LoadStep::Read(next),
                    None => LoadStep::Cached,
                }
            },
            (LoadStep::Read(_), LoadEvent::Failed) => {
                files = Vec::new();
                LoadStep::Failed
            },
            (LoadStep::Read(_), _) => {
                files = Vec::new();
                LoadStep::Fetch(DdiFile::Image)
            },
            (LoadStep::Fetch(file), LoadEvent::Found(bytes)) if bytes.len() > 0 => {
                let ghost one = bytes@;
                files.push(bytes);
                assert(files@.map_values(|file: Vec<u8>| file@) =~= had.push(one));
                match file.next() {
                    Some(next) => LoadStep::Fetch(next),
                    None => LoadStep::Fetched,
                }
            },
            (LoadStep::Fetch(_), _) => {
                files = Vec::new();
                LoadStep::Failed
            },
            (step, _) => step,
        };
        assert(files@.map_values(|file: Vec<u8>| file@) =~= before.after(event@).files);
        DdiLoader { step, files }
    }

    /// The image, once it is loaded.
    pub fn into_payload(self) -> (payload: Option<DdiPayload>)
        ensures
            match payload {
                Some(payload) => self@.is_loaded() && self@.files == seq![
                    payload.image@,
                    payload.build_manifest@,
                    payload.trust_cache@,
                ],
                None => !self@.is_loaded(),
            },
    {
        proof {
            use_type_invariant(&self);
        }
        let ghost all = self@.files;
        let DdiLoader { step, mut files } = self;
        match step {
            LoadStep::Cached | LoadStep::Fetched => {
                assert(all.len() == files@.len());
                assert(all[0] == files@[0]@ && all[1] == files@[1]@ && all[2] == files@[2]@);
                let trust_cache = files.pop()?;
                let build_manifest = files.pop()?;
                let image = files.pop()?;
                assert(all =~= seq![image@, build_manifest@, trust_cache@]);
                Some(DdiPayload { image, build_manifest, trust_cache })
            },
            _ => None,
        }
    }
}

/// Whatever happens, the files at hand are the ones before the next step and none
/// of them is empty. So an image that is loaded has all three.
pub proof fn law_only_whole_files_are_kept(state: LoaderView, event: LoadEventView)
    requires
        state.is_sound(),
    ensures
        state.after(event).is_sound(),
        LoaderView::start().is_sound(),
        state.is_loaded() ==> state.files.len() == 3,
{
}

/// A cache that has all three files is used as it is, without a step that touches
/// the network.
pub proof fn law_a_warm_cache_never_touches_the_network(events: Seq<LoadEventView>)
    requires
        events.len() >= 3,
        events[0].is_file() && events[1].is_file() && events[2].is_file(),
    ensures
        LoaderView::start().after_all(events).step == LoadStep::Cached,
        forall|n: int|
            0 <= n <= events.len() ==> !(#[trigger] LoaderView::start().after_all(
                events.take(n),
            ).step is Fetch),
{
    let start = LoaderView::start();
    assert forall|n: int| 0 <= n <= events.len() implies !(#[trigger] start.after_all(
        events.take(n),
    ).step is Fetch) && (n >= 3 ==> start.after_all(events.take(n)).step == LoadStep::Cached) by {
        lemma_warm(events, n);
    }
    assert(events.take(events.len() as int) =~= events);
}

proof fn lemma_warm(events: Seq<LoadEventView>, n: int)
    requires
        events.len() >= 3,
        events[0].is_file() && events[1].is_file() && events[2].is_file(),
        0 <= n <= events.len(),
    ensures
        LoaderView::start().after_all(events.take(n)).step == if n == 0 {
            LoadStep::Read(DdiFile::Image)
        } else if n == 1 {
            LoadStep::Read(DdiFile::Manifest)
        } else if n == 2 {
            LoadStep::Read(DdiFile::TrustCache)
        } else {
            LoadStep::Cached
        },
    decreases n,
{
    if n > 0 {
        lemma_warm(events, n - 1);
        assert(events.take(n).drop_last() =~= events.take(n - 1));
        assert(events.take(n).last() == events[n - 1]);
    }
}

/// A file that is missing from the cache or empty has the whole image fetched
/// afresh, and nothing of the cache gets into it.
pub proof fn law_a_partial_cache_is_refetched(state: LoaderView, event: LoadEventView)
    requires
        state.step is Read,
        event is Absent || event == LoadEventView::Found(Seq::empty()),
    ensures
        state.after(event) == (LoaderView {
            step: LoadStep::Fetch(DdiFile::Image),
            files: Seq::empty(),
        }),
{
}

/// A fetch that fails, even in the last file, leaves nothing to write to the
/// cache or to mount, whatever comes after it.
pub proof fn law_a_failed_fetch_leaves_nothing(
    state: LoaderView,
    event: LoadEventView,
    later: Seq<LoadEventView>,
)
    requires
        state.step is Fetch,
        !event.is_file(),
    ensures
        state.after(event).after_all(later) == (LoaderView {
            step: LoadStep::Failed,
            files: Seq::empty(),
        }),
    decreases later.len(),
{
    if later.len() > 0 {
        law_a_failed_fetch_leaves_nothing(state, event, later.drop_last());
    }
}

/// Whether all three files are there and none is empty.
pub open spec fn all_whole(files: Seq<Option<Seq<u8>>>) -> bool {
    forall|i: int| 0 <= i < 3 ==> (#[trigger] files[i]) is Some && files[i]->0.len() > 0
}

/// What a step comes to on a host whose cache has these files, and whose mirror
/// gives these.
pub open spec fn event_at(
    step: LoadStep,
    cache: Seq<Option<Seq<u8>>>,
    mirror: Seq<Option<Seq<u8>>>,
) -> LoadEventView {
    match step {
        LoadStep::Read(file) => match cache[file.place()] {
            Some(bytes) => LoadEventView::Found(bytes),
            None => LoadEventView::Absent,
        },
        LoadStep::Fetch(file) => match mirror[file.place()] {
            Some(bytes) => LoadEventView::Found(bytes),
            None => LoadEventView::Failed,
        },
        _ => LoadEventView::Absent,
    }
}

/// How far an image is loaded after so many steps on such a host, and how many of
/// them asked the mirror.
pub open spec fn loaded_after(
    cache: Seq<Option<Seq<u8>>>,
    mirror: Seq<Option<Seq<u8>>>,
    steps: nat,
) -> (LoaderView, int)
    decreases steps,
{
    if steps == 0 {
        (LoaderView::start(), 0)
    } else {
        let (before, requests) = loaded_after(cache, mirror, (steps - 1) as nat);
        (
            before.after(event_at(before.step, cache, mirror)),
            requests + if before.step is Fetch {
                1int
            } else {
                0
            },
        )
    }
}

/// How loading ends, after six steps and for good. Where the cache has all three
/// files, they are the image, and the mirror is not asked. Otherwise it is asked
/// for all three: they are the image where it has them all, and there is none where
/// it has not. Once there is an image, it stays that one and nobody is asked again.
pub proof fn law_an_image_comes_from_the_cache_or_the_mirror(
    cache: Seq<Option<Seq<u8>>>,
    mirror: Seq<Option<Seq<u8>>>,
    steps: nat,
)
    requires
        cache.len() == 3,
        mirror.len() == 3,
        steps >= 6,
    ensures
        ({
            let (end, requests) = loaded_after(cache, mirror, steps);
            &&& all_whole(cache) ==> requests == 0 && end == (LoaderView {
                step: LoadStep::Cached,
                files: cache.map_values(|file: Option<Seq<u8>>| file->0),
            })
            &&& !all_whole(cache) && all_whole(mirror) ==> requests == 3 && end == (LoaderView {
                step: LoadStep::Fetched,
                files: mirror.map_values(|file: Option<Seq<u8>>| file->0),
            })
            &&& !all_whole(cache) && !all_whole(mirror) ==> end == (LoaderView {
                step: LoadStep::Failed,
                files: Seq::empty(),
            })
        }),
    decreases steps,
{
    if steps > 6 {
        law_an_image_comes_from_the_cache_or_the_mirror(cache, mirror, (steps - 1) as nat);
    } else {
        let cached = cache.map_values(|file: Option<Seq<u8>>| file->0);
        let fetched = mirror.map_values(|file: Option<Seq<u8>>| file->0);
        let none = Seq::<Seq<u8>>::empty();
        reveal_with_fuel(loaded_after, 7);
        let whole = |file: Option<Seq<u8>>| file is Some && file->0.len() > 0;
        assert(all_whole(cache) == (whole(cache[0]) && whole(cache[1]) && whole(cache[2])));
        assert(all_whole(mirror) == (whole(mirror[0]) && whole(mirror[1]) && whole(mirror[2])));
        assert(none.push(cached[0]).push(cached[1]).push(cached[2]) =~= cached);
        assert(none.push(fetched[0]).push(fetched[1]).push(fetched[2]) =~= fetched);
    }
}

/// What is in the cache already is not written to it again: an image is to be
/// written only where the mirror was asked for its last file.
pub proof fn law_only_what_was_fetched_is_written(state: LoaderView, event: LoadEventView)
    ensures
        state.after(event).step is Fetched ==> state.step is Fetched || state.step
            == LoadStep::Fetch(DdiFile::TrustCache),
{
}

/// Whether what a mirror sent is a file: why it is not, if it is not.
pub fn check_download(url: &str, success: bool, status: &str, length: usize) -> (checked: Result<
    (),
    String,
>)
    ensures
        checked is Ok == (success && length > 0),
        checked matches Err(error) ==> error@ == (if success {
            url@ + " returned an empty body"@
        } else {
            "fetching "@ + url@ + ": "@ + status@
        }),
{
    let mut error = String::new();
    if !success {
        error.append("fetching ");
        error.append(url);
        error.append(": ");
        error.append(status);
        assert(error@ =~= "fetching "@ + url@ + ": "@ + status@);
        return Err(error);
    }
    if length == 0 {
        error.append(url);
        error.append(" returned an empty body");
        assert(error@ =~= url@ + " returned an empty body"@);
        return Err(error);
    }
    Ok(())
}

/// Whether a mount that last failed then may be tried now.
pub open spec fn mount_is_due(last_failure: Option<u64>, now: u64) -> bool {
    last_failure matches Some(failed_at) ==> clock::since(now, failed_at) >= MOUNT_RETRY_BACKOFF
}

/// Whether the expensive half of a mount may run again.
pub fn may_attempt_mount(last_failure: Option<u64>, now: u64) -> (may: bool)
    ensures
        may == mount_is_due(last_failure, now),
{
    match last_failure {
        Some(failed_at) => clock::elapsed(now, failed_at) >= MOUNT_RETRY_BACKOFF,
        None => true,
    }
}

/// How one attempt to have an image mounted came out.
#[derive(Debug, Clone, Copy, PartialEq, Eq, Structural)]
pub enum MountOutcome {
    /// One was there. The common case, and one round trip.
    AlreadyMounted,
    Mounted,
    /// Backed off after an earlier failure.
    Skipped,
}

/// How an attempt comes out before anything is mounted.
pub open spec fn outcome_before(found: bool, last_failure: Option<u64>, now: u64) -> Option<
    MountOutcome,
> {
    if found {
        Some(MountOutcome::AlreadyMounted)
    } else if !mount_is_due(last_failure, now) {
        Some(MountOutcome::Skipped)
    } else {
        None
    }
}

/// An image that is found is never mounted again, and one that is not is mounted at
/// once, unless a mount failed in the five minutes before.
pub proof fn law_an_image_is_mounted_when_it_has_to_be(failed_at: u64, now: u64)
    requires
        failed_at <= now,
    ensures
        outcome_before(true, Some(failed_at), now) == Some(MountOutcome::AlreadyMounted),
        outcome_before(true, None, now) == Some(MountOutcome::AlreadyMounted),
        outcome_before(false, None, now) is None,
        (outcome_before(false, Some(failed_at), now) == Some(MountOutcome::Skipped)) == (now
            - failed_at < 300_000_000_000),
        (outcome_before(false, Some(failed_at), now) is None) == (now - failed_at
            >= 300_000_000_000),
{
}

/// How an attempt comes out before anything is mounted: the cheap half, which
/// runs every time. Nothing where it is to go on.
pub fn before_mount(found: bool, last_failure: Option<u64>, now: u64) -> (outcome: Option<
    MountOutcome,
>)
    ensures
        outcome == outcome_before(found, last_failure, now),
{
    if found {
        Some(MountOutcome::AlreadyMounted)
    } else if !may_attempt_mount(last_failure, now) {
        Some(MountOutcome::Skipped)
    } else {
        None
    }
}

/// Why nothing can be mounted with Developer Mode off.
pub fn developer_mode_is_off() -> (error: &'static str)
    ensures
        error@
            == "Developer Mode is off. Nothing can mount a developer disk image until it is on: Settings → Privacy & Security → Developer Mode, then reboot and unlock the device."@,
{
    "Developer Mode is off. Nothing can mount a developer disk image until it is on: Settings → Privacy & Security → Developer Mode, then reboot and unlock the device."
}

/// Whether a mount goes on, from what the device says of its Developer Mode. A
/// device that does not say may still mount; the mount itself is the real test.
pub fn may_mount_in(developer_mode: Option<bool>) -> (may: bool)
    ensures
        may == (developer_mode != Some(false)),
{
    match developer_mode {
        Some(on) => on,
        None => true,
    }
}

/// How far an upload is, in percent.
pub open spec fn percent_of(done: int, total: int) -> int {
    if total == 0 {
        100
    } else {
        done * 100 / total
    }
}

/// How far an upload is in percent, and whether it has reached a quarter that
/// was not said yet: the chunks are many, so only quarters are said.
pub fn upload_progress(done: usize, total: usize, reported: &mut usize) -> (progress: (usize, bool))
    requires
        done * 100 <= usize::MAX,
    ensures
        progress.0 == percent_of(done as int, total as int),
        *final(reported) == percent_of(done as int, total as int) / 25,
        progress.1 == (*final(reported) > *old(reported)),
{
    let percent: usize = if total == 0 {
        100
    } else {
        done * 100 / total
    };
    let before: usize = *reported;
    *reported = percent / 25;
    (percent, *reported > before)
}

/// When the last mount failed, after one more attempt: forgotten once one
/// succeeds, and kept where nothing was tried.
pub open spec fn failure_after(
    last_failure: Option<u64>,
    outcome: Option<MountOutcome>,
    now: u64,
) -> Option<u64> {
    match outcome {
        Some(MountOutcome::Mounted) => None,
        Some(_) => last_failure,
        None => Some(now),
    }
}

/// When the last mount failed, after one more attempt, which failed where it
/// has no outcome.
pub fn note_mount(last_failure: Option<u64>, outcome: Option<MountOutcome>, now: u64) -> (after:
    Option<u64>)
    ensures
        after == failure_after(last_failure, outcome, now),
{
    match outcome {
        Some(MountOutcome::Mounted) => None,
        Some(_) => last_failure,
        None => Some(now),
    }
}

/// A mount that failed is left alone for the whole of the backoff, whatever is
/// found meanwhile, and tried again when it is over.
pub proof fn law_a_failed_mount_is_left_alone(
    before: Option<u64>,
    failed_at: u64,
    skipped_at: u64,
    now: u64,
)
    requires
        failed_at <= now,
    ensures
        ({
            let failure = failure_after(before, None, failed_at);
            let later = failure_after(failure, Some(MountOutcome::Skipped), skipped_at);
            mount_is_due(later, now) == (now - failed_at >= MOUNT_RETRY_BACKOFF)
        }),
{
}

/// A mount that failed is tried again after five minutes, and the three files go by the
/// names that Apple gives them.
pub proof fn law_an_image_goes_by_these_names_and_times()
    ensures
        MOUNT_RETRY_BACKOFF == 300_000_000_000,
        DdiFile::Image.spelling() == "Image.dmg"@,
        DdiFile::Manifest.spelling() == "BuildManifest.plist"@,
        DdiFile::TrustCache.spelling() == "Image.dmg.trustcache"@,
{
}

/// An upload's progress goes from nothing to everything and never back, and an upload
/// of nothing is done.
pub proof fn law_an_upload_only_goes_on(done: int, more: int, total: int)
    requires
        0 <= done <= more <= total,
        total > 0,
    ensures
        0 <= percent_of(done, total) <= percent_of(more, total) <= 100,
        percent_of(0, total) == 0,
        percent_of(total, total) == 100,
        percent_of(0, 0) == 100,
        done < total ==> percent_of(done, total) < 100,
{
    assert(0 <= done * 100 / total <= more * 100 / total <= 100) by (nonlinear_arith)
        requires
            0 <= done <= more <= total,
            total > 0,
    ;
    assert(total * 100 / total == 100) by (nonlinear_arith)
        requires
            total > 0,
    ;
    if done < total {
        assert(done * 100 / total < 100) by (nonlinear_arith)
            requires
                0 <= done < total,
        ;
    }
}

} // verus!
