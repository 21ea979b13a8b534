//! The desktop player's decisions: the position and play state of its
//! controls, its keyboard shortcuts, its playlist, and what it makes of a
//! link or path it is asked to play.
use vstd::prelude::*;

use crate::gui::{PlayerState, TaskEntry};
use crate::seqs::{chars_start_with, split_on, split_ranges, starts_with, str_chars};
use crate::strings::push_str;

verus! {

/// Milliseconds a seek shortcut moves.
pub const SEEK_STEP_MS: u64 = 10000;

/// Links the history keeps at most.
pub const MAX_HISTORY: usize = 100;

/// The whole-number part of the playback controls: playing or not, muted or
/// not, where playback is, how long the stream is, full screen or not, and
/// whether stop was just pressed.
#[derive(Debug, Clone, Copy)]
pub struct ControlsState {
    pub playing: bool,
    pub muted: bool,
    pub position_ms: u64,
    pub duration_ms: u64,
    pub fullscreen: bool,
    pub stop_pressed: bool,
}

/// Where a seek `amount` forward from `position` lands in a stream of
/// `duration`: no further than the end.
pub open spec fn forward_position(position: u64, amount: u64, duration: u64) -> u64 {
    if position + amount <= duration {
        (position + amount) as u64
    } else {
        duration
    }
}

/// Where a seek `amount` back from `position` lands: no further than the start.
pub open spec fn backward_position(position: u64, amount: u64) -> u64 {
    if position >= amount {
        (position - amount) as u64
    } else {
        0
    }
}

/// Seeking forward and then back by the same amount returns to where playback
/// was, when the forward seek stays within the stream.
pub proof fn law_seek_forward_back(position: u64, amount: u64, duration: u64)
    requires
        position + amount <= duration,
    ensures
        backward_position(forward_position(position, amount, duration), amount) == position,
{
}

impl ControlsState {
    /// Stopped at the start of a stream of `duration_ms`.
    pub fn new(duration_ms: u64) -> (c: ControlsState)
        ensures
            c == (ControlsState {
                playing: false,
                muted: false,
                position_ms: 0,
                duration_ms,
                fullscreen: false,
                stop_pressed: false,
            }),
    {
        ControlsState { playing: false, muted: false, position_ms: 0, duration_ms, fullscreen: false, stop_pressed: false }
    }

    /// Plays if paused, pauses if playing.
    pub fn toggle_play(&mut self)
        ensures
            *final(self) == (ControlsState { playing: !old(self).playing, ..*old(self) }),
    {
        self.playing = !self.playing;
    }

    /// Moves to `position_ms`, no further than the end.
    pub fn seek_to(&mut self, position_ms: u64)
        ensures
            *final(self) == (ControlsState {
                position_ms: if position_ms <= old(self).duration_ms { position_ms } else { old(self).duration_ms },
                ..*old(self)
            }),
    {
        self.position_ms = if position_ms <= self.duration_ms { position_ms } else { self.duration_ms };
    }

    /// Mutes or unmutes.
    pub fn toggle_mute(&mut self)
        ensures
            *final(self) == (ControlsState { muted: !old(self).muted, ..*old(self) }),
    {
        self.muted = !self.muted;
    }

    /// Moves `amount_ms` forward, no further than the end.
    pub fn seek_forward(&mut self, amount_ms: u64)
        requires
            old(self).position_ms + amount_ms <= u64::MAX,
        ensures
            *final(self) == (ControlsState {
                position_ms: forward_position(old(self).position_ms, amount_ms, old(self).duration_ms),
                ..*old(self)
            }),
    {
        let p = self.position_ms + amount_ms;
        self.position_ms = if p <= self.duration_ms { p } else { self.duration_ms };
    }

    /// Moves `amount_ms` back, no further than the start.
    pub fn seek_backward(&mut self, amount_ms: u64)
        ensures
            *final(self) == (ControlsState { position_ms: backward_position(old(self).position_ms, amount_ms), ..*old(self) }),
    {
        self.position_ms = if self.position_ms >= amount_ms { self.position_ms - amount_ms } else { 0 };
    }

    /// Back to the start, not playing, stop no longer pressed.
    pub fn reset(&mut self)
        ensures
            *final(self) == (ControlsState { playing: false, position_ms: 0, stop_pressed: false, ..*old(self) }),
    {
        self.playing = false;
        self.position_ms = 0;
        self.stop_pressed = false;
    }
}

/// The keys the player answers to.
#[derive(Debug, Clone, Copy, PartialEq, Eq, Structural)]
pub enum ShortcutKey {
    Space,
    ArrowLeft,
    ArrowRight,
    Escape,
    Other,
}

/// Answers a key: space plays or pauses, the arrows seek ten seconds, escape
/// stops; the new player state when it changes.
pub fn on_shortcut(controls: &mut ControlsState, key: ShortcutKey) -> (s: Option<PlayerState>)
    requires
        old(controls).position_ms + SEEK_STEP_MS <= u64::MAX,
    ensures
        match key {
            ShortcutKey::Space => {
                &&& *final(controls) == (ControlsState { playing: !old(controls).playing, ..*old(controls) })
                &&& s == Some(if final(controls).playing { PlayerState::Playing } else { PlayerState::Paused })
            },
            ShortcutKey::ArrowLeft => s is None && final(controls).position_ms == (if old(controls).position_ms
                >= SEEK_STEP_MS {
                old(controls).position_ms - SEEK_STEP_MS
            } else {
                0
            }) && *final(controls) == (ControlsState { position_ms: final(controls).position_ms, ..*old(controls) }),
            ShortcutKey::ArrowRight => s is None && final(controls).position_ms == (if old(controls).position_ms
                + SEEK_STEP_MS <= old(controls).duration_ms {
                old(controls).position_ms + SEEK_STEP_MS
            } else {
                old(controls).duration_ms as int
            }) && *final(controls) == (ControlsState { position_ms: final(controls).position_ms, ..*old(controls) }),
            ShortcutKey::Escape => s == Some(PlayerState::Stopped) && *final(controls) == (ControlsState {
                playing: false,
                position_ms: 0,
                stop_pressed: false,
                ..*old(controls)
            }),
            ShortcutKey::Other => s is None && *final(controls) == *old(controls),
        },
{
    match key {
        ShortcutKey::Space => {
            controls.toggle_play();
            if controls.playing {
                Some(PlayerState::Playing)
            } else {
                Some(PlayerState::Paused)
            }
        },
        ShortcutKey::ArrowLeft => {
            controls.seek_backward(SEEK_STEP_MS);
            None
        },
        ShortcutKey::ArrowRight => {
            controls.seek_forward(SEEK_STEP_MS);
            None
        },
        ShortcutKey::Escape => {
            controls.stop_pressed = true;
            controls.reset();
            Some(PlayerState::Stopped)
        },
        ShortcutKey::Other => None,
    }
}

/// The playlist: its entries in order, the selected one, and the links played.
pub struct PlaylistManager {
    entries: Vec<TaskEntry>,
    selected: Option<usize>,
    history: Vec<String>,
}

/// The entries, the selected one, and the links played, oldest first.
pub struct PlaylistModel {
    pub entries: Seq<TaskEntry>,
    pub selected: Option<nat>,
    pub history: Seq<String>,
}

/// The selection is an entry and the history is within bounds.
pub open spec fn playlist_ok(m: PlaylistModel) -> bool {
    &&& (m.selected matches Some(s) ==> s < m.entries.len())
    &&& m.history.len() <= MAX_HISTORY
}

/// What moving entry `a` and entry `b` past each other does to the selection.
pub open spec fn swapped_selection(sel: Option<nat>, a: nat, b: nat) -> Option<nat> {
    match sel {
        Some(s) => if s == a {
            Some(b)
        } else if s == b {
            Some(a)
        } else {
            sel
        },
        None => None,
    }
}

/// Entries `a` and `b` of `s` trade places.
pub open spec fn swapped<T>(s: Seq<T>, a: int, b: int) -> Seq<T> {
    s.update(a, s[b]).update(b, s[a])
}

/// The playlist after entry `index` moves one up (`0 < index < len`).
pub open spec fn moved_up(m: PlaylistModel, index: nat) -> PlaylistModel {
    PlaylistModel {
        entries: swapped(m.entries, index as int, index - 1),
        selected: swapped_selection(m.selected, index, (index - 1) as nat),
        history: m.history,
    }
}

/// The playlist after entry `index` moves one down (`index + 1 < len`).
pub open spec fn moved_down(m: PlaylistModel, index: nat) -> PlaylistModel {
    PlaylistModel {
        entries: swapped(m.entries, index as int, index + 1 as int),
        selected: swapped_selection(m.selected, index, index + 1),
        history: m.history,
    }
}

impl View for PlaylistManager {
    type V = PlaylistModel;

    closed spec fn view(&self) -> PlaylistModel {
        PlaylistModel {
            entries: self.entries@,
            selected: match self.selected {
                Some(s) => Some(s as nat),
                None => None,
            },
            history: self.history@,
        }
    }
}

impl PlaylistManager {
    /// An empty playlist with nothing played.
    pub fn new() -> (p: PlaylistManager)
        ensures
            p@ == (PlaylistModel { entries: Seq::empty(), selected: None, history: Seq::empty() }),
            playlist_ok(p@),
    {
        let p = PlaylistManager { entries: Vec::new(), selected: None, history: Vec::new() };
        assert(p@.history =~= Seq::<String>::empty());
        assert(p@.entries =~= Seq::<TaskEntry>::empty());
        p
    }

    /// One more entry, at the end.
    pub fn add(&mut self, entry: TaskEntry)
        ensures
            final(self)@ == (PlaylistModel { entries: old(self)@.entries.push(entry), ..old(self)@ }),
            playlist_ok(old(self)@) ==> playlist_ok(final(self)@),
    {
        self.entries.push(entry);
    }

    /// Removes entry `index`, if there is one: a later selection moves up with
    /// its entry, and a removed selection is gone.
    pub fn remove(&mut self, index: usize)
        ensures
            index >= old(self)@.entries.len() ==> final(self)@ == old(self)@,
            index < old(self)@.entries.len() ==> final(self)@ == (PlaylistModel {
                entries: old(self)@.entries.remove(index as int),
                selected: match old(self)@.selected {
                    Some(s) => if index < s {
                        Some((s - 1) as nat)
                    } else if index == s {
                        None
                    } else {
                        Some(s)
                    },
                    None => None,
                },
                ..old(self)@
            }),
            playlist_ok(old(self)@) ==> playlist_ok(final(self)@),
    {
        if index < self.entries.len() {
            self.entries.remove(index);
            match self.selected {
                Some(s) => {
                    if index < s {
                        self.selected = Some(s - 1);
                    } else if index == s {
                        self.selected = None;
                    }
                },
                None => {},
            }
        }
    }

    /// No entry, nothing selected; the history stays.
    pub fn clear(&mut self)
        ensures
            final(self)@ == (PlaylistModel { entries: Seq::empty(), selected: None, ..old(self)@ }),
            playlist_ok(old(self)@) ==> playlist_ok(final(self)@),
    {
        self.entries.clear();
        self.selected = None;
    }

    /// Plays entry `index`, if there is one, and hands it back: it becomes the
    /// selection and its link joins the history, which forgets its oldest link
    /// past `MAX_HISTORY`.
    pub fn play(&mut self, index: usize) -> (played: Option<&TaskEntry>)
        requires
            playlist_ok(old(self)@),
        ensures
            index >= old(self)@.entries.len() ==> played is None && final(self)@ == old(self)@,
            index < old(self)@.entries.len() ==> played == Some(&old(self)@.entries[index as int])
                && final(self)@ == (PlaylistModel {
                selected: Some(index as nat),
                history: if old(self)@.history.len() + 1 > MAX_HISTORY {
                    old(self)@.history.push(old(self)@.entries[index as int].uri).drop_first()
                } else {
                    old(self)@.history.push(old(self)@.entries[index as int].uri)
                },
                ..old(self)@
            }),
            playlist_ok(final(self)@),
    {
        if index < self.entries.len() {
            self.selected = Some(index);
            let uri = self.entries[index].uri.clone();
            self.history.push(uri);
            if self.history.len() > MAX_HISTORY {
                self.history.remove(0);
                assert(self.history@ =~= old(self)@.history.push(uri).drop_first());
            }
            Some(&self.entries[index])
        } else {
            None
        }
    }

    /// The selected entry, if any.
    pub fn current(&self) -> (e: Option<&TaskEntry>)
        requires
            playlist_ok(self@),
        ensures
            match self@.selected {
                Some(i) => e == Some(&self@.entries[i as int]),
                None => e is None,
            },
    {
        match self.selected {
            Some(i) => Some(&self.entries[i]),
            None => None,
        }
    }

    /// The entries, in order.
    pub fn entries(&self) -> (e: &[TaskEntry])
        ensures
            e@ == self@.entries,
    {
        self.entries.as_slice()
    }

    /// Number of entries.
    pub fn len(&self) -> (n: usize)
        ensures
            n == self@.entries.len(),
    {
        self.entries.len()
    }

    /// Whether there is no entry.
    pub fn is_empty(&self) -> (b: bool)
        ensures
            b == (self@.entries.len() == 0),
    {
        self.entries.len() == 0
    }

    /// Moves entry `index` one up, if it is not the first; the selection
    /// follows its entry.
    pub fn move_up(&mut self, index: usize)
        ensures
            index > 0 && index < old(self)@.entries.len() ==> final(self)@ == moved_up(old(self)@, index as nat),
            !(index > 0 && index < old(self)@.entries.len()) ==> final(self)@ == old(self)@,
            playlist_ok(old(self)@) ==> playlist_ok(final(self)@),
    {
        if index > 0 && index < self.entries.len() {
            let e = self.entries.remove(index);
            self.entries.insert(index - 1, e);
            assert(self.entries@ =~= swapped(old(self)@.entries, index as int, index - 1));
            match self.selected {
                Some(s) => {
                    if s == index {
                        self.selected = Some(index - 1);
                    } else if s == index - 1 {
                        self.selected = Some(index);
                    }
                },
                None => {},
            }
        }
    }

    /// Moves entry `index` one down, if it is not the last; the selection
    /// follows its entry.
    pub fn move_down(&mut self, index: usize)
        requires
            index < usize::MAX,
        ensures
            index + 1 < old(self)@.entries.len() ==> final(self)@ == moved_down(old(self)@, index as nat),
            index + 1 >= old(self)@.entries.len() ==> final(self)@ == old(self)@,
            playlist_ok(old(self)@) ==> playlist_ok(final(self)@),
    {
        if index + 1 < self.entries.len() {
            let e = self.entries.remove(index + 1);
            self.entries.insert(index, e);
            assert(self.entries@ =~= swapped(old(self)@.entries, index as int, index + 1 as int));
            match self.selected {
                Some(s) => {
                    if s == index {
                        self.selected = Some(index + 1);
                    } else if s == index + 1 {
                        self.selected = Some(index);
                    }
                },
                None => {},
            }
        }
    }

    /// The links played, oldest first.
    pub fn history(&self) -> (h: &[String])
        ensures
            h@ == self@.history,
    {
        self.history.as_slice()
    }

    /// Replaces the history.
    pub fn set_history(&mut self, history: Vec<String>)
        ensures
            final(self)@ == (PlaylistModel { history: history@, ..old(self)@ }),
    {
        self.history = history;
    }
}

impl Default for PlaylistManager {
    fn default() -> (p: PlaylistManager)
        ensures
            p@ == (PlaylistModel { entries: Seq::empty(), selected: None, history: Seq::empty() }),
    {
        PlaylistManager::new()
    }
}

/// Moving an entry up and then back down leaves the playlist as it was: the
/// same entries in the same order, the same selection, the same history.
pub proof fn law_move_up_down(m: PlaylistModel, index: nat)
    requires
        0 < index < m.entries.len(),
    ensures
        moved_down(moved_up(m, index), (index - 1) as nat) == m,
{
    assert(moved_down(moved_up(m, index), (index - 1) as nat).entries =~= m.entries);
}

/// Whether a text is a local file path: no link scheme, and an absolute path
/// (`/...`, `\\...`, or a drive letter, a colon and a slash or backslash).
pub open spec fn is_local_path(s: Seq<char>) -> bool {
    if starts_with(s, "http://"@) || starts_with(s, "https://"@) || starts_with(s, "qvod://"@) || starts_with(
        s,
        "qvod:"@,
    ) || starts_with(s, "file://"@) {
        false
    } else {
        starts_with(s, "/"@) || starts_with(s, "\\\\"@) || (s.len() > 2 && (('a' <= s[0] && s[0] <= 'z') || (
        'A' <= s[0] && s[0] <= 'Z')) && s[1] == ':' && (s[2] == '\\' || s[2] == '/'))
    }
}

/// Whether the characters `cs` start with those of `p`.
fn has_prefix(cs: &Vec<char>, p: &str) -> (b: bool)
    ensures
        b == starts_with(cs@, p@),
{
    let pc = str_chars(p);
    chars_start_with(cs.as_slice(), pc.as_slice())
}

/// Whether a text is a local file path.
pub fn is_local_file_path(s: &str) -> (b: bool)
    ensures
        b == is_local_path(s@),
{
    let cs = str_chars(s);
    proof {
        reveal_strlit("http://");
        reveal_strlit("https://");
        reveal_strlit("qvod://");
        reveal_strlit("qvod:");
        reveal_strlit("file://");
        reveal_strlit("/");
        reveal_strlit("\\\\");
    }
    if has_prefix(&cs, "http://") || has_prefix(&cs, "https://") || has_prefix(&cs, "qvod://")
        || has_prefix(&cs, "qvod:") || has_prefix(&cs, "file://") {
        return false;
    }
    if has_prefix(&cs, "/") || has_prefix(&cs, "\\\\") {
        return true;
    }
    cs.len() > 2 && (('a' <= cs[0] && cs[0] <= 'z') || ('A' <= cs[0] && cs[0] <= 'Z')) && cs[1] == ':' && (cs[2]
        == '\\' || cs[2] == '/')
}

/// The characters of `s` before the first `|`.
pub open spec fn before_bar(s: Seq<char>) -> Seq<char>
    decreases s.len(),
{
    if s.len() == 0 {
        s
    } else if s[0] == '|' {
        Seq::empty()
    } else {
        seq![s[0]] + before_bar(s.drop_first())
    }
}

/// What identifies the stream of a link: a web link itself; for a `qvod://`
/// link the text before its first `|`, if not empty; nothing otherwise.
pub open spec fn hash_of_link(uri: Seq<char>) -> Option<Seq<char>> {
    if starts_with(uri, "http://"@) || starts_with(uri, "https://"@) {
        Some(uri)
    } else if starts_with(uri, "qvod://"@) {
        let h = before_bar(uri.subrange(7, uri.len() as int));
        if h.len() > 0 {
            Some(h)
        } else {
            None
        }
    } else {
        None
    }
}

/// What identifies the stream of a link.
pub fn extract_hash(uri: &str) -> (h: Option<String>)
    ensures
        match hash_of_link(uri@) {
            Some(t) => h matches Some(x) && x@ == t,
            None => h is None,
        },
{
    let cs = str_chars(uri);
    proof {
        reveal_strlit("http://");
        reveal_strlit("https://");
        reveal_strlit("qvod://");
    }
    if has_prefix(&cs, "http://") || has_prefix(&cs, "https://") {
        return Some(String::from_str(uri));
    }
    if !has_prefix(&cs, "qvod://") {
        return None;
    }
    let mut i: usize = 7;
    assert(uri@.subrange(7, 7) =~= Seq::<char>::empty());
    while i < cs.len() && cs[i] != '|'
        invariant
            7 <= i <= cs@.len(),
            cs@ == uri@,
            before_bar(uri@.subrange(7, uri@.len() as int)) == uri@.subrange(7, i as int) + before_bar(
                uri@.subrange(i as int, uri@.len() as int),
            ),
        decreases cs@.len() - i,
    {
        let ghost rest = uri@.subrange(i as int, uri@.len() as int);
        assert(rest.drop_first() =~= uri@.subrange(i + 1, uri@.len() as int));
        assert(before_bar(rest) == seq![cs@[i as int]] + before_bar(rest.drop_first()));
        assert(uri@.subrange(7, i + 1) =~= uri@.subrange(7, i as int) + seq![cs@[i as int]]);
        assert(uri@.subrange(7, i as int) + (seq![cs@[i as int]] + before_bar(rest.drop_first())) =~= uri@.subrange(
            7,
            i + 1,
        ) + before_bar(rest.drop_first()));
        i += 1;
    }
    proof {
        let rest = uri@.subrange(i as int, uri@.len() as int);
        assert(before_bar(rest) == Seq::<char>::empty());
        assert(uri@.subrange(7, i as int) + Seq::<char>::empty() =~= uri@.subrange(7, i as int));
    }
    if i == 7 {
        None
    } else {
        Some(String::from_str(uri.substring_char(7, i)))
    }
}

/// What the player does with a link or path it is asked to play.
#[derive(Debug, Clone)]
pub struct PlayPlan {
    /// The link recorded in the playlist: a local path becomes `file://<path>`.
    pub link: String,
    /// What identifies the stream.
    pub hash: Option<String>,
    /// Whether a local decoder is tried first.
    pub decode_locally: bool,
}

/// What the player does with `uri`.
pub fn plan_play(uri: &str) -> (p: PlayPlan)
    ensures
        is_local_path(uri@) ==> p.link@ == "file://"@ + uri@ && p.hash == Some(p.link),
        !is_local_path(uri@) ==> p.link@ == uri@ && match hash_of_link(uri@) {
            Some(t) => p.hash matches Some(x) && x@ == t,
            None => p.hash is None,
        },
        p.decode_locally == (is_local_path(uri@) || starts_with(uri@, "http://"@) || starts_with(uri@, "https://"@)
            || starts_with(uri@, "qvod://"@)),
{
    let is_file = is_local_file_path(uri);
    let cs = str_chars(uri);
    proof {
        reveal_strlit("http://");
        reveal_strlit("https://");
        reveal_strlit("qvod://");
    }
    let is_url = has_prefix(&cs, "http://") || has_prefix(&cs, "https://") || has_prefix(&cs, "qvod://");
    if is_file {
        let mut link = String::from_str("file://");
        push_str(&mut link, uri);
        let hash = Some(link.clone());
        PlayPlan { link, hash, decode_locally: true }
    } else {
        PlayPlan { link: String::from_str(uri), hash: extract_hash(uri), decode_locally: is_url }
    }
}

/// What the player does once a stream is set up, when it runs with a server:
/// plays locally, fails, or asks the server for a file or a hash.
#[derive(Debug, Clone)]
pub enum ServerStep {
    PlayLocally,
    Fail(String),
    RequestFile(String),
    RequestHash(Option<String>),
}

/// The step after setting up `plan`, with a remote server or a local one, and
/// with the local decoder running or not.
pub fn server_step(plan: &PlayPlan, is_file: bool, remote: bool, decoder_running: bool) -> (s: ServerStep)
    ensures
        remote && decoder_running ==> s is PlayLocally,
        remote && !decoder_running && is_file ==> (s matches ServerStep::Fail(m) && m@ == "无法播放本地文件：解码失败。"@),
        !(remote && (decoder_running || is_file)) && is_file ==> (s matches ServerStep::RequestFile(f) && f@ == plan.link@),
        !(remote && (decoder_running || is_file)) && !is_file ==> (s matches ServerStep::RequestHash(h) && h == plan.hash),
{
    if remote && decoder_running {
        ServerStep::PlayLocally
    } else if remote && is_file {
        ServerStep::Fail(String::from_str("无法播放本地文件：解码失败。"))
    } else if is_file {
        ServerStep::RequestFile(plan.link.clone())
    } else {
        ServerStep::RequestHash(plan.hash.clone())
    }
}

} // verus!

verus! {

/// A request the player sends its server.
#[derive(Debug, Clone, Copy, PartialEq, Eq, Structural)]
pub enum ServerCommand {
    Stop,
    Pause,
    Resume,
    Seek(u64),
}

/// The requests that bring the server in line with the controls after a frame
/// in which they went from playing `was_playing` at `was_at` to `playing` at
/// `at`: none without a stream; a pressed stop alone; otherwise a pause or a
/// resume when playing changed, then a seek when the position moved.
pub open spec fn sync_requests(
    has_stream: bool,
    stop_pressed: bool,
    was_playing: bool,
    playing: bool,
    was_at: u64,
    at: u64,
) -> Seq<ServerCommand> {
    if !has_stream {
        Seq::empty()
    } else if stop_pressed {
        seq![ServerCommand::Stop]
    } else {
        let toggle = if was_playing && !playing {
            seq![ServerCommand::Pause]
        } else if !was_playing && playing {
            seq![ServerCommand::Resume]
        } else {
            Seq::empty()
        };
        if at != was_at {
            toggle.push(ServerCommand::Seek(at))
        } else {
            toggle
        }
    }
}

/// The requests for the server after a frame that began with the controls
/// playing `was_playing` at `was_at`; a pressed stop is sent once and released.
pub fn sync_with_server(controls: &mut ControlsState, has_stream: bool, was_playing: bool, was_at: u64) -> (cmds: Vec<
    ServerCommand,
>)
    ensures
        cmds@ == sync_requests(
            has_stream,
            old(controls).stop_pressed,
            was_playing,
            old(controls).playing,
            was_at,
            old(controls).position_ms,
        ),
        *final(controls) == (if has_stream && old(controls).stop_pressed {
            ControlsState { stop_pressed: false, ..*old(controls) }
        } else {
            *old(controls)
        }),
{
    let mut cmds: Vec<ServerCommand> = Vec::new();
    if !has_stream {
        assert(cmds@ =~= Seq::<ServerCommand>::empty());
        return cmds;
    }
    if controls.stop_pressed {
        controls.stop_pressed = false;
        cmds.push(ServerCommand::Stop);
        assert(cmds@ =~= seq![ServerCommand::Stop]);
        return cmds;
    }
    if was_playing && !controls.playing {
        cmds.push(ServerCommand::Pause);
    } else if !was_playing && controls.playing {
        cmds.push(ServerCommand::Resume);
    }
    if controls.position_ms != was_at {
        cmds.push(ServerCommand::Seek(controls.position_ms));
    }
    proof {
        let toggle = if was_playing && !controls.playing {
            seq![ServerCommand::Pause]
        } else if !was_playing && controls.playing {
            seq![ServerCommand::Resume]
        } else {
            Seq::empty()
        };
        if controls.position_ms != was_at {
            assert(cmds@ =~= toggle.push(ServerCommand::Seek(controls.position_ms)));
        } else {
            assert(cmds@ =~= toggle);
        }
    }
    cmds
}

/// Takes in a status report of the server on the stream: the controls take its
/// position and duration, and the play state follows the stream's state:
/// `Playing` ends buffering, `Ended` ends anything but a stop, `Paused` pauses
/// playback, `Error` fails anything but a stop; other states change nothing.
pub fn on_server_status(
    player: &mut PlayerState,
    controls: &mut ControlsState,
    state: &str,
    position_ms: u64,
    duration_ms: u64,
)
    ensures
        final(controls).position_ms == position_ms,
        final(controls).duration_ms == duration_ms,
        final(controls).muted == old(controls).muted,
        final(controls).fullscreen == old(controls).fullscreen,
        final(controls).stop_pressed == old(controls).stop_pressed,
        state@ == "Playing"@ && *old(player) is Buffering ==> *final(player) is Playing && final(controls).playing,
        state@ == "Ended"@ && !(*old(player) is Stopped) ==> *final(player) is Ended && !final(controls).playing,
        state@ == "Paused"@ && *old(player) is Playing ==> *final(player) is Paused && !final(controls).playing,
        state@ == "Error"@ && !(*old(player) is Stopped) ==> (*final(player) matches PlayerState::Error(m) && m@
            == "服务器流错误"@) && !final(controls).playing,
        !(state@ == "Playing"@ && *old(player) is Buffering) && !(state@ == "Ended"@ && !(*old(player) is Stopped))
            && !(state@ == "Paused"@ && *old(player) is Playing) && !(state@ == "Error"@ && !(*old(
            player,
        ) is Stopped)) ==> *final(player) == *old(player) && final(controls).playing == old(controls).playing,
{
    proof {
        reveal_strlit("Playing");
        reveal_strlit("Ended");
        reveal_strlit("Paused");
        reveal_strlit("Error");
        assert("Playing"@.len() == 7 && "Ended"@.len() == 5 && "Paused"@.len() == 6 && "Error"@.len() == 5);
        assert("Error"@[1] != "Ended"@[1]);
    }
    controls.position_ms = position_ms;
    controls.duration_ms = duration_ms;
    let is_stopped = match player {
        PlayerState::Stopped => true,
        _ => false,
    };
    if crate::handler::str_eq(state, "Playing") {
        if let PlayerState::Buffering = player {
            *player = PlayerState::Playing;
            controls.playing = true;
        }
    } else if crate::handler::str_eq(state, "Ended") {
        if !is_stopped {
            *player = PlayerState::Ended;
            controls.playing = false;
        }
    } else if crate::handler::str_eq(state, "Paused") {
        if let PlayerState::Playing = player {
            *player = PlayerState::Paused;
            controls.playing = false;
        }
    } else if crate::handler::str_eq(state, "Error") {
        if !is_stopped {
            *player = PlayerState::Error(String::from_str("服务器流错误"));
            controls.playing = false;
        }
    }
}

/// A failed request to the server: the player shows its message and stops playing.
pub fn on_server_error(player: &mut PlayerState, controls: &mut ControlsState, message: String)
    ensures
        *final(player) == PlayerState::Error(message),
        *final(controls) == (ControlsState { playing: false, ..*old(controls) }),
{
    *player = PlayerState::Error(message);
    controls.playing = false;
}

/// The play state at the end of a frame: playing again when the controls play
/// while it is paused, paused when they do not while it plays.
pub fn reconcile_state(player: &mut PlayerState, playing: bool)
    ensures
        playing && *old(player) is Paused ==> *final(player) is Playing,
        !playing && *old(player) is Playing ==> *final(player) is Paused,
        !(playing && *old(player) is Paused) && !(!playing && *old(player) is Playing) ==> *final(player) == *old(
            player,
        ),
{
    let paused = match player {
        PlayerState::Paused => true,
        _ => false,
    };
    let is_playing = match player {
        PlayerState::Playing => true,
        _ => false,
    };
    if playing && paused {
        *player = PlayerState::Playing;
    }
    if !playing && is_playing {
        *player = PlayerState::Paused;
    }
}

} // verus!

verus! {

/// The title shown for a link: its second `|`-separated part (the file name of
/// a `qvod://` link), or the whole link when it has no `|`.
pub open spec fn link_title_of(uri: Seq<char>) -> Seq<char> {
    let parts = split_on(uri, '|');
    if parts.len() > 1 {
        parts[1]
    } else {
        uri
    }
}

/// The title shown for a link.
pub fn link_title(uri: &str) -> (t: String)
    ensures
        t@ == link_title_of(uri@),
{
    let cs = str_chars(uri);
    proof {
        assert(cs@.subrange(0, cs@.len() as int) =~= cs@);
    }
    let parts = split_ranges(cs.as_slice(), 0, cs.len(), '|');
    if parts.len() > 1 {
        String::from_str(uri.substring_char(parts[1].0, parts[1].1))
    } else {
        String::from_str(uri)
    }
}

} // verus!
