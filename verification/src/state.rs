//! Session state shared by the explorer and the arcade modes: selection, UI
//! toggles, raster settings, the interaction mode, and the directory history.
use vstd::prelude::*;
use crate::config::{HISTORY_LIMIT, MSAA_SAMPLES};
use crate::status::{decimal, on_off, on_off_text, push_decimal};
use vstd::string::StringExecFns;

verus! {

/// Which entry is selected and which one the pointer hovers.
#[derive(Debug, Clone, Copy, Default, PartialEq, Eq)]
pub struct SelectionState {
    pub selected: Option<usize>,
    pub hovered: Option<usize>,
}

/// UI toggles.
#[derive(Debug, Clone, Copy, PartialEq, Eq)]
pub struct UiSettings {
    pub show_labels: bool,
    pub show_fps: bool,
}

impl Default for UiSettings {
    fn default() -> (s: Self)
        ensures
            s.show_labels && s.show_fps,
    {
        Self { show_labels: true, show_fps: true }
    }
}

/// A one-line notice for the status line, if any.
#[derive(Debug, Default)]
pub struct UiNotice {
    pub message: Option<String>,
}

/// Pause-menu state for the lightcycle mode: whether the run is frozen and
/// which warp target the menu cursor points at.
#[derive(Debug, Clone, Copy, Default, PartialEq, Eq)]
pub struct PauseState {
    pub paused: bool,
    pub warp_index: usize,
}

/// Which directories the rider has already opened, so a revisit can be a
/// cache hit. Paths are held in their normalized text form.
#[derive(Debug, Default)]
pub struct CacheState {
    pub visited: std::collections::HashSet<String>,
}

/// Raster settings that trade looks for frame time.
///
/// These are the levers that matter on a weak GPU: multisampling, HDR bloom,
/// the full-screen scanline overlay, and the vignette.
#[derive(Debug, Clone, Copy, PartialEq, Eq)]
pub struct RenderSettings {
    /// Multisample count: 1, 2, 4, or 8.
    pub msaa: u32,
    /// HDR bloom while riding (lightcycle mode).
    pub bloom: bool,
    /// Full-screen scanline overlay.
    pub scanlines: bool,
    /// Vignette post-process on the camera.
    pub vignette: bool,
}

impl Default for RenderSettings {
    fn default() -> (s: Self)
        ensures
            s.msaa == MSAA_SAMPLES && s.bloom && s.scanlines && s.vignette,
    {
        Self { msaa: MSAA_SAMPLES, bloom: true, scanlines: true, vignette: true }
    }
}

impl RenderSettings {
    /// Multisampling as a sample count: never below one.
    pub fn msaa_samples(&self) -> (samples: u32)
        ensures
            samples == if self.msaa >= 1 { self.msaa } else { 1 },
    {
        if self.msaa >= 1 { self.msaa } else { 1 }
    }
}

/// Root node for projected labels (below the main UI chrome).
#[derive(Debug)]
pub struct LabelsRoot;

/// Marker for entities that should be despawned whenever the directory changes.
#[derive(Debug)]
pub struct DirectorySceneRoot;

/// The active interaction mode over the shared directory scene.
#[derive(Debug, Clone, Copy, PartialEq, Eq, Default)]
pub enum InteractionMode {
    #[default]
    Explorer,
    Lightcycle,
}

/// Non-directory entities owned by the lightcycle mode (cycle, walls, portal),
/// kept apart from [`DirectorySceneRoot`] so a directory change never despawns
/// the player.
#[derive(Debug)]
pub struct LightcycleSceneRoot;

/// Trail mesh chunks owned by the lightcycle mode.
#[derive(Debug)]
pub struct TrailSceneRoot;

/// Directory visit history, played as a version-control time machine.
///
/// `past` is the commit log of directories already ridden, newest last;
/// `future` holds what a rewind undid, so a fast-forward can put it back.
/// Paths are held in their normalized text form.
#[derive(Debug)]
pub struct HistoryState {
    pub past: Vec<String>,
    pub future: Vec<String>,
    /// Last rewind/fast-forward result shown on the status line.
    pub notice: String,
}

/// The commit log and redo stack after riding into `path`.
pub open spec fn history_commit(past: Seq<String>, future: Seq<String>, path: String) -> (Seq<String>, Seq<String>) {
    if past.len() > 0 && past.last()@ == path@ {
        (past, future)
    } else {
        let grown = past.push(path);
        (if grown.len() > HISTORY_LIMIT { grown.subrange(1, grown.len() as int) } else { grown }, Seq::empty())
    }
}

/// The commit log, redo stack and target after one rewind.
pub open spec fn history_rewind(past: Seq<String>, future: Seq<String>) -> (Seq<String>, Seq<String>, Option<String>) {
    if past.len() > 1 {
        (past.drop_last(), future.push(past.last()), Some(past[past.len() - 2]))
    } else {
        (past, future, None)
    }
}

/// The commit log, redo stack and target after one fast-forward.
pub open spec fn history_fast_forward(past: Seq<String>, future: Seq<String>) -> (Seq<String>, Seq<String>, Option<String>) {
    if future.len() == 0 {
        (past, future, None)
    } else {
        (past.push(future.last()), future.drop_last(), Some(future.last()))
    }
}

impl Default for HistoryState {
    fn default() -> (h: Self)
        ensures
            h.past@.len() == 0,
            h.future@.len() == 0,
            h.notice@.len() == 0,
    {
        Self { past: Vec::new(), future: Vec::new(), notice: String::new() }
    }
}

impl HistoryState {
    /// Records riding into `path`. A load that lands where the log already
    /// points (a rewind or fast-forward arriving) is not a new commit, and any
    /// redo branch is dropped when the rider genuinely goes somewhere new.
    pub fn commit(&mut self, path: &String)
        ensures
            (final(self).past@, final(self).future@) == history_commit(old(self).past@, old(self).future@, *path),
            final(self).notice == old(self).notice,
    {
        let len = self.past.len();
        if len > 0 && self.past[len - 1] == *path {
            return;
        }
        self.past.push(path.clone());
        if self.past.len() > HISTORY_LIMIT {
            self.past.remove(0);
            assert(self.past@ =~= old(self).past@.push(*path).subrange(1, old(self).past@.len() as int + 1));
        }
        self.future.clear();
    }

    /// Steps back one directory: the present lands on the redo stack and the
    /// previous commit becomes the target.
    pub fn rewind(&mut self) -> (target: Option<String>)
        ensures
            (final(self).past@, final(self).future@, target) == history_rewind(old(self).past@, old(self).future@),
            final(self).notice == old(self).notice,
    {
        if self.past.len() <= 1 {
            return None;
        }
        match self.past.pop() {
            None => None,
            Some(current) => {
                self.future.push(current);
                let last = self.past.len() - 1;
                Some(self.past[last].clone())
            },
        }
    }

    /// Steps forward again, undoing a rewind.
    pub fn fast_forward(&mut self) -> (target: Option<String>)
        ensures
            (final(self).past@, final(self).future@, target) == history_fast_forward(old(self).past@, old(self).future@),
            final(self).notice == old(self).notice,
    {
        match self.future.pop() {
            None => None,
            Some(target) => {
                let copy = target.clone();
                self.past.push(target);
                Some(copy)
            },
        }
    }

    /// How deep the commit log is, for the HUD.
    pub fn depth(&self) -> (d: usize)
        ensures
            d == self.past@.len(),
    {
        self.past.len()
    }

    /// True while a redo branch is waiting.
    pub fn can_rewind(&self) -> (ok: bool)
        ensures
            ok == (self.future@.len() > 0),
    {
        self.future.len() > 0
    }

    /// True while a fast-forward is available.
    pub fn can_fast_forward(&self) -> (ok: bool)
        ensures
            ok == (self.future@.len() > 0),
    {
        self.future.len() > 0
    }
}

/// Rewinding and then fast-forwarding puts the commit log and the redo stack
/// back exactly as they were, and the fast-forward lands on the directory the
/// rewind left.
pub proof fn law_rewind_then_fast_forward_restores(past: Seq<String>, future: Seq<String>)
    requires
        past.len() > 1,
    ensures
        ({
            let (p1, f1, _) = history_rewind(past, future);
            let (p2, f2, t2) = history_fast_forward(p1, f1);
            p2 == past && f2 == future && t2 == Some(past.last())
        }),
{
    let (p1, f1, _) = history_rewind(past, future);
    assert(p1.push(f1.last()) =~= past);
    assert(f1.drop_last() =~= future);
}

/// Fast-forwarding and then rewinding puts the commit log and the redo stack
/// back exactly as they were.
pub proof fn law_fast_forward_then_rewind_restores(past: Seq<String>, future: Seq<String>)
    requires
        future.len() > 0,
        past.len() > 0,
    ensures
        ({
            let (p1, f1, _) = history_fast_forward(past, future);
            let (p2, f2, t2) = history_rewind(p1, f1);
            p2 == past && f2 == future && t2 == Some(past.last())
        }),
{
    let (p1, f1, _) = history_fast_forward(past, future);
    assert(p1.drop_last() =~= past);
    assert(f1.push(p1.last()) =~= future);
}

/// Riding into the directory the log already points at is not a new commit, so
/// committing the same path twice is the same as committing it once.
pub proof fn law_recommitting_is_idempotent(past: Seq<String>, future: Seq<String>, path: String)
    ensures
        ({
            let (p1, f1) = history_commit(past, future, path);
            history_commit(p1, f1, path) == (p1, f1)
        }),
{
}

/// The commit log never grows past its cap, a genuinely new commit drops the
/// redo branch, and the newest commit is always the path just ridden into.
pub proof fn law_commit_caps_and_forks(past: Seq<String>, future: Seq<String>, path: String)
    requires
        past.len() <= HISTORY_LIMIT,
    ensures
        ({
            let (p1, f1) = history_commit(past, future, path);
            &&& p1.len() <= HISTORY_LIMIT
            &&& p1.len() > 0 && p1.last()@ == path@
            &&& (past.len() == 0 || past.last()@ != path@) ==> f1.len() == 0
        }),
{
}

/// A refused rewind leaves the log alone, and no rewind ever empties it: the
/// log keeps at least the commit it started from.
pub proof fn law_rewind_never_empties_the_log(past: Seq<String>, future: Seq<String>)
    ensures
        ({
            let (p1, f1, t) = history_rewind(past, future);
            &&& t is None <==> past.len() <= 1
            &&& t is None ==> p1 == past && f1 == future
            &&& past.len() >= 1 ==> p1.len() >= 1
        }),
{
}

/// A rewind moves the newest commit onto the redo stack and lands on the commit
/// before it, which becomes the newest; everything older stays as it was. A
/// fast-forward undoes exactly that: the newest redo goes back on top of the
/// log and is where it lands.
pub proof fn law_rewind_and_fast_forward_move_one_commit(past: Seq<String>, future: Seq<String>)
    ensures
        ({
            let (p1, f1, t) = history_rewind(past, future);
            past.len() > 1 ==> {
                &&& p1.len() + 1 == past.len() && f1.len() == future.len() + 1
                &&& forall|i: int| 0 <= i < p1.len() ==> #[trigger] p1[i] == past[i]
                &&& forall|i: int| 0 <= i < future.len() ==> #[trigger] f1[i] == future[i]
                &&& f1[future.len() as int] == past[past.len() - 1]
                &&& t == Some(past[past.len() - 2]) && t == Some(p1[p1.len() - 1])
            }
        }),
        ({
            let (p2, f2, t) = history_fast_forward(past, future);
            &&& future.len() == 0 ==> p2 == past && f2 == future && t is None
            &&& future.len() > 0 ==> {
                &&& p2.len() == past.len() + 1 && f2.len() + 1 == future.len()
                &&& forall|i: int| 0 <= i < past.len() ==> #[trigger] p2[i] == past[i]
                &&& forall|i: int| 0 <= i < f2.len() ==> #[trigger] f2[i] == future[i]
                &&& p2[past.len() as int] == future[future.len() - 1]
                &&& t == Some(future[future.len() - 1])
            }
        }),
{
}

/// A commit of a path the log does not already end on puts that path on top,
/// keeps the older commits (dropping the oldest only when the cap is passed),
/// and clears the redo stack; committing the path the log ends on changes
/// nothing.
pub proof fn law_commit_appends_a_new_path(past: Seq<String>, future: Seq<String>, path: String)
    ensures
        ({
            let (p1, f1) = history_commit(past, future, path);
            &&& (past.len() > 0 && past[past.len() - 1]@ == path@) ==> p1 == past && f1 == future
            &&& !(past.len() > 0 && past[past.len() - 1]@ == path@) ==> {
                &&& f1.len() == 0
                &&& p1[p1.len() - 1] == path
                &&& past.len() < HISTORY_LIMIT ==> p1.len() == past.len() + 1 && forall|i: int|
                    0 <= i < past.len() ==> #[trigger] p1[i] == past[i]
                &&& past.len() >= HISTORY_LIMIT ==> p1.len() == past.len() && forall|i: int|
                    0 <= i < past.len() - 1 ==> #[trigger] p1[i] == past[i + 1]
            }
        }),
{
}

} // verus!

verus! {

/// The explorer's status line: whether labels and hidden entries are shown.
pub open spec fn explorer_status_text(show_labels: bool, show_hidden: bool) -> Seq<char> {
    "Labels: "@ + on_off(show_labels) + " | Hidden: "@ + on_off(show_hidden)
}

/// A ride's status line with the history's part after it: the last notice
/// when there is one, else the depth of the log once there is something to
/// rewind to, marked when a redo is waiting.
pub open spec fn history_status_text(past_len: nat, future_len: nat, notice: Seq<char>, status: Seq<char>) -> Seq<char> {
    if notice.len() > 0 {
        status + " | "@ + notice
    } else if past_len > 1 {
        status + " | HISTORY "@ + decimal(past_len) + if future_len > 0 {
            " \u{21bb}"@
        } else {
            Seq::empty()
        }
    } else {
        status
    }
}

impl UiSettings {
    /// The explorer's status line, given whether hidden entries are listed.
    pub fn status_text(&self, show_hidden: bool) -> (text: String)
        ensures
            text@ == explorer_status_text(self.show_labels, show_hidden),
    {
        let mut text = String::from_str("Labels: ");
        text.append(on_off_text(self.show_labels));
        text.append(" | Hidden: ");
        text.append(on_off_text(show_hidden));
        text
    }
}

impl HistoryState {
    /// `status` with the history's part of the status line after it.
    pub fn status_text(&self, status: &str) -> (text: String)
        ensures
            text@ == history_status_text(self.past@.len(), self.future@.len(), self.notice@, status@),
    {
        let mut text = String::from_str(status);
        if !self.notice.as_str().is_empty() {
            text.append(" | ");
            text.append(self.notice.as_str());
        } else if self.depth() > 1 {
            text.append(" | HISTORY ");
            push_decimal(&mut text, self.depth() as u64);
            if self.can_fast_forward() {
                text.append(" \u{21bb}");
            }
        }
        text
    }
}

} // verus!
