//! What the desktop player decides rather than draws: its settings, themes,
//! skins and the actions and states its widgets report.
use vstd::prelude::*;


verus! {

/// The colour scheme.
#[derive(Debug, Clone, Copy, PartialEq, Eq, Structural)]
pub enum QvodTheme {
    Dark,
    Light,
    System,
}

impl Default for QvodTheme {
    fn default() -> (t: QvodTheme)
        ensures
            t == QvodTheme::Dark,
    {
        QvodTheme::Dark
    }
}

/// The page shown.
#[derive(Debug, Clone, Copy, PartialEq, Eq, Structural)]
pub enum AppPage {
    Player,
    Settings,
    Status,
}

/// What the player is doing.
#[derive(Debug, Clone, PartialEq, Eq)]
pub enum PlayerState {
    Stopped,
    Playing,
    Paused,
    Buffering,
    Error(String),
    Ended,
}

/// A request from the playback controls.
#[derive(Debug, Clone, Copy, PartialEq, Eq, Structural)]
pub enum PlaybackAction {
    Play,
    Pause,
    Toggle,
    SeekForward,
    SeekBackward,
    VolumeUp,
    VolumeDown,
    Mute,
    Stop,
}

/// What is laid over the video.
#[derive(Debug, Clone, PartialEq, Eq)]
pub enum OverlayType {
    Buffering,
    Error(String),
    Info(String),
}

/// The state of a download task in the list.
#[derive(Debug, Clone, PartialEq, Eq)]
pub enum TaskStatus {
    Downloading,
    Paused,
    Completed,
    Error(String),
}

impl Default for TaskStatus {
    fn default() -> (s: TaskStatus)
        ensures
            s == TaskStatus::Downloading,
    {
        TaskStatus::Downloading
    }
}

/// A task in the list: its title and link, its state, and the bytes it has
/// of the bytes it needs.
#[derive(Debug)]
pub struct TaskEntry {
    pub title: String,
    pub uri: String,
    pub status: TaskStatus,
    pub downloaded: u64,
    pub total: u64,
}

/// A click on the title bar.
#[derive(Debug, Clone, Copy, PartialEq, Eq, Structural)]
pub enum TitleBarAction {
    /// Nothing was clicked.
    NoAction,
    Minimize,
    Maximize,
    Close,
    Drag,
}

/// A click on a task in the list.
#[derive(Debug, Clone, Copy, PartialEq, Eq, Structural)]
pub enum TaskAction {
    /// Nothing was clicked.
    NoAction,
    Select(usize),
    Play(usize),
    Remove(usize),
    ContextMenu(usize),
}

/// An entry of the context menu.
#[derive(Debug, Clone, Copy, PartialEq, Eq, Structural)]
pub enum ContextMenuAction {
    Play,
    Pause,
    Stop,
    Restart,
    Remove,
    Properties,
    ToggleFullscreen,
    AspectRatio4x3,
    AspectRatio16x9,
    AspectRatioOriginal,
    OpenSettings,
    About,
    PriorityHigh,
    PriorityNormal,
    PriorityLow,
}

/// The look of the classic 6.x player.
pub struct Qvod6Skin;

impl Qvod6Skin {
    pub fn new() -> (s: Qvod6Skin) {
        Qvod6Skin
    }

    /// The skin's name.
    pub fn name(&self) -> (n: &'static str)
        ensures
            n@ == "Qvod 6.x"@,
    {
        "Qvod 6.x"
    }
}

impl Default for Qvod6Skin {
    fn default() -> (s: Qvod6Skin) {
        Qvod6Skin::new()
    }
}

/// The reply of the local server's control endpoint.
#[derive(Debug, Clone)]
pub struct ControlResponse {
    pub success: bool,
    pub message: String,
}

/// The user's cache directory, if the platform has one.
///
/// Trusted: this calls `dirs::cache_dir`, which reads the environment; nothing
/// is claimed about the result.
#[verifier::external_body]
fn user_cache_dir() -> (d: Option<String>) {
    dirs::cache_dir().map(|p| p.to_string_lossy().into_owned())
}

/// The path that joining `part` onto `base` gives.
pub uninterp spec fn path_join_of(base: Seq<char>, part: Seq<char>) -> Seq<char>;

/// `base` joined with `part`, as `std::path::Path::join` joins them.
///
/// Trusted: the result depends on the two texts alone; the contract names it
/// `path_join_of`.
#[verifier::external_body]
pub(crate) fn path_join(base: &str, part: &str) -> (p: String)
    ensures
        p@ == path_join_of(base@, part@),
{
    std::path::Path::new(base).join(part).to_string_lossy().into_owned()
}

/// The player's settings.
#[derive(Debug, Clone)]
pub struct AppSettings {
    pub cache_dir: String,
    pub cache_size_gb: u32,
    pub local_server_port: u16,
    pub server_url: Option<String>,
    pub max_connections: u32,
    pub http_fallback: bool,
    pub tracker_urls: Vec<String>,
    pub dht_seed_nodes: Vec<String>,
    pub language: String,
    pub theme: String,
    pub playlist_history: Vec<String>,
}

impl Default for AppSettings {
    /// The defaults; the cache lives in `qvs` under the user's cache directory,
    /// or under `/tmp` without one.
    fn default() -> (s: AppSettings)
        ensures
            exists|base: Seq<char>| s.cache_dir@ == path_join_of(base, "qvs"@),
            s.cache_size_gb == 10,
            s.local_server_port == 8621,
            s.server_url is None,
            s.max_connections == 50,
            s.http_fallback,
            s.tracker_urls@.len() == 1,
            s.tracker_urls@[0]@ == "http://tracker.qvod.com:8621/announce"@,
            s.dht_seed_nodes@.len() == 1,
            s.dht_seed_nodes@[0]@ == "router.bittorrent.com:6881"@,
            s.language@ == "zh-CN"@,
            s.theme@ == "dark"@,
            s.playlist_history@.len() == 0,
    {
        let base = match user_cache_dir() {
            Some(d) => d,
            None => String::from_str("/tmp"),
        };
        let cache_dir = path_join(base.as_str(), "qvs");
        AppSettings {
            cache_dir,
            cache_size_gb: 10,
            local_server_port: 8621,
            server_url: None,
            max_connections: 50,
            http_fallback: true,
            tracker_urls: vec![String::from_str("http://tracker.qvod.com:8621/announce")],
            dht_seed_nodes: vec![String::from_str("router.bittorrent.com:6881")],
            language: String::from_str("zh-CN"),
            theme: String::from_str("dark"),
            playlist_history: Vec::new(),
        }
    }
}

impl AppSettings {
    /// The settings with the server address given on the command line, when
    /// one was given.
    pub fn with_cli_server_url(self, cli_server_url: Option<String>) -> (s: AppSettings)
        ensures
            s.server_url == (match cli_server_url {
                Some(u) => Some(u),
                None => self.server_url,
            }),
            s.cache_dir == self.cache_dir,
            s.cache_size_gb == self.cache_size_gb,
            s.local_server_port == self.local_server_port,
            s.max_connections == self.max_connections,
            s.http_fallback == self.http_fallback,
            s.tracker_urls == self.tracker_urls,
            s.dht_seed_nodes == self.dht_seed_nodes,
            s.language == self.language,
            s.theme == self.theme,
            s.playlist_history == self.playlist_history,
    {
        let mut s = self;
        if let Some(url) = cli_server_url {
            s.server_url = Some(url);
        }
        s
    }

    /// The cache size in bytes.
    pub fn cache_size_bytes(&self) -> (n: u64)
        ensures
            n == self.cache_size_gb * 1024 * 1024 * 1024,
    {
        (self.cache_size_gb as u64) * 1024 * 1024 * 1024
    }
}

/// The colour laid over the video for an overlay, as premultiplied red,
/// green, blue and alpha: dark for buffering and information, red for errors.
pub fn overlay_rgba(overlay: &OverlayType) -> (c: (u8, u8, u8, u8))
    ensures
        c == match *overlay {
            OverlayType::Buffering => (0u8, 0u8, 0u8, 180u8),
            OverlayType::Error(_) => (180u8, 0u8, 0u8, 200u8),
            OverlayType::Info(_) => (0u8, 0u8, 0u8, 160u8),
        },
{
    match overlay {
        OverlayType::Buffering => (0, 0, 0, 180),
        OverlayType::Error(_) => (180, 0, 0, 200),
        OverlayType::Info(_) => (0, 0, 0, 160),
    }
}

/// Which overlay is shown, if any, and whether it is visible.
pub struct OverlayState {
    pub current: Option<OverlayType>,
    pub visible: bool,
}

impl OverlayState {
    /// Nothing shown.
    pub fn new() -> (o: OverlayState)
        ensures
            o.current is None,
            !o.visible,
    {
        OverlayState { current: None, visible: false }
    }

    /// Shows `overlay`.
    pub fn show(&mut self, overlay: OverlayType)
        ensures
            final(self).current == Some(overlay),
            final(self).visible,
    {
        self.current = Some(overlay);
        self.visible = true;
    }

    /// Hides the overlay; it is forgotten at the next update.
    pub fn dismiss(&mut self)
        ensures
            final(self).current == old(self).current,
            !final(self).visible,
    {
        self.visible = false;
    }

    /// Forgets a hidden overlay and gives the one shown, if any.
    pub fn update(&mut self) -> (r: Option<&OverlayType>)
        ensures
            final(self).visible == old(self).visible,
            final(self).current == (if old(self).visible { old(self).current } else { None }),
            match r {
                Some(o) => final(self).current == Some(*o),
                None => final(self).current is None,
            },
    {
        if !self.visible {
            self.current = None;
        }
        self.current.as_ref()
    }

    /// Whether an overlay is visible.
    pub fn is_visible(&self) -> (b: bool)
        ensures
            b == self.visible,
    {
        self.visible
    }
}

/// Whether `p` occurs in `s`.
pub open spec fn contains_text(s: Seq<char>, p: Seq<char>) -> bool {
    exists|i: int| 0 <= i && i + p.len() <= s.len() && #[trigger] s.subrange(i, i + p.len()) == p
}

/// Whether `p` occurs in `s`.
pub fn text_contains(s: &str, p: &str) -> (b: bool)
    ensures
        b == contains_text(s@, p@),
{
    let sc = crate::seqs::str_chars(s);
    let pc = crate::seqs::str_chars(p);
    if pc.len() > sc.len() {
        return false;
    }
    let mut i: usize = 0;
    let last = sc.len() - pc.len();
    while i <= last
        invariant
            last == sc@.len() - pc@.len(),
            sc@ == s@,
            pc@ == p@,
            pc@.len() <= sc@.len(),
            i <= sc@.len() - pc@.len() + 1,
            forall|k: int| 0 <= k < i ==> #[trigger] s@.subrange(k, k + p@.len()) != p@,
        decreases sc@.len() - i,
    {
        let mut j: usize = 0;
        let mut same = true;
        while j < pc.len() && same
            invariant
                sc@ == s@,
                pc@ == p@,
                i + pc@.len() <= sc@.len(),
                sc@.len() == sc.len(),
                pc@.len() == pc.len(),
                j <= pc@.len(),
                same ==> forall|m: int| 0 <= m < j ==> sc@[i + m] == pc@[m],
                !same ==> j < pc@.len() && sc@[i + j] != pc@[j as int],
            decreases pc@.len() - j + (if same { 1int } else { 0int }),
        {
            assert(i + j < sc@.len());
            if sc[i + j] == pc[j] {
                j += 1;
            } else {
                same = false;
            }
        }
        if same {
            assert(s@.subrange(i as int, i + p@.len()) =~= p@);
            return true;
        }
        assert(s@.subrange(i as int, i + p@.len())[j as int] != p@[j as int]);
        i += 1;
    }
    proof {
        assert forall|k: int| 0 <= k && k + p@.len() <= s@.len() implies #[trigger] s@.subrange(k, k + p@.len()) != p@ by {
            assert(k < i);
        }
    }
    false
}

/// Whether a font file, by its lowercase name and lowercase extension, holds
/// Chinese, Japanese and Korean glyphs: a regular Noto CJK face, WenQuanYi, Droid
/// fallback, Source Han, or a Noto face for simplified Chinese in TrueType or
/// OpenType.
pub open spec fn is_cjk_font(name: Seq<char>, ext: Option<Seq<char>>) -> bool {
    let is_font = ext == Some("ttf"@) || ext == Some("otf"@);
    (contains_text(name, "noto"@) && contains_text(name, "cjk"@) && contains_text(name, "regular"@))
        || contains_text(name, "wqy"@) || contains_text(name, "wenquanyi"@) || (contains_text(name, "droid"@)
        && contains_text(name, "fallback"@)) || contains_text(name, "sourcehan"@) || (contains_text(name, "noto"@)
        && (contains_text(name, "sc"@) || contains_text(name, "cn"@)) && is_font)
}

/// Whether a font file holds Chinese, Japanese and Korean glyphs; see `is_cjk_font`.
pub fn is_cjk_font_name(name: &str, ext: Option<&str>) -> (b: bool)
    ensures
        b == is_cjk_font(name@, match ext {
            Some(e) => Some(e@),
            None => None,
        }),
{
    let is_font = match ext {
        Some(e) => crate::handler::str_eq(e, "ttf") || crate::handler::str_eq(e, "otf"),
        None => false,
    };
    (text_contains(name, "noto") && text_contains(name, "cjk") && text_contains(name, "regular"))
        || text_contains(name, "wqy") || text_contains(name, "wenquanyi") || (text_contains(name, "droid")
        && text_contains(name, "fallback")) || text_contains(name, "sourcehan") || (text_contains(name, "noto")
        && (text_contains(name, "sc") || text_contains(name, "cn")) && is_font)
}

} // verus!

verus! {

/// The window edge or corner a resize drags.
#[derive(Debug, Clone, Copy, PartialEq, Eq, Structural)]
pub enum ResizeEdge {
    North,
    South,
    East,
    West,
    NorthEast,
    NorthWest,
    SouthEast,
    SouthWest,
}

/// The mouse cursor shown over a resize edge.
#[derive(Debug, Clone, Copy, PartialEq, Eq, Structural)]
pub enum ResizeCursor {
    Vertical,
    Horizontal,
    NeSw,
    NwSe,
}

/// The edge a pointer near the window's left, right, top and bottom borders
/// resizes: a corner when it is near two borders (the left and top ones
/// first), a side when near one, none otherwise.
pub fn resize_edge(near_left: bool, near_right: bool, near_top: bool, near_bottom: bool) -> (e: Option<ResizeEdge>)
    ensures
        e == (if near_left && near_top {
            Some(ResizeEdge::NorthWest)
        } else if near_left && near_bottom {
            Some(ResizeEdge::SouthWest)
        } else if near_right && near_top {
            Some(ResizeEdge::NorthEast)
        } else if near_right && near_bottom {
            Some(ResizeEdge::SouthEast)
        } else if near_left {
            Some(ResizeEdge::West)
        } else if near_right {
            Some(ResizeEdge::East)
        } else if near_top {
            Some(ResizeEdge::North)
        } else if near_bottom {
            Some(ResizeEdge::South)
        } else {
            None
        }),
{
    match (near_left, near_right, near_top, near_bottom) {
        (true, _, true, _) => Some(ResizeEdge::NorthWest),
        (true, _, _, true) => Some(ResizeEdge::SouthWest),
        (_, true, true, _) => Some(ResizeEdge::NorthEast),
        (_, true, _, true) => Some(ResizeEdge::SouthEast),
        (true, _, _, _) => Some(ResizeEdge::West),
        (_, true, _, _) => Some(ResizeEdge::East),
        (_, _, true, _) => Some(ResizeEdge::North),
        (_, _, _, true) => Some(ResizeEdge::South),
        _ => None,
    }
}

/// The cursor over an edge: up-down over the top and bottom, left-right over
/// the sides, diagonal over the corners.
pub fn resize_cursor(edge: ResizeEdge) -> (c: ResizeCursor)
    ensures
        c == match edge {
            ResizeEdge::North | ResizeEdge::South => ResizeCursor::Vertical,
            ResizeEdge::East | ResizeEdge::West => ResizeCursor::Horizontal,
            ResizeEdge::NorthEast | ResizeEdge::SouthWest => ResizeCursor::NeSw,
            ResizeEdge::NorthWest | ResizeEdge::SouthEast => ResizeCursor::NwSe,
        },
{
    match edge {
        ResizeEdge::North | ResizeEdge::South => ResizeCursor::Vertical,
        ResizeEdge::East | ResizeEdge::West => ResizeCursor::Horizontal,
        ResizeEdge::NorthEast | ResizeEdge::SouthWest => ResizeCursor::NeSw,
        ResizeEdge::NorthWest | ResizeEdge::SouthEast => ResizeCursor::NwSe,
    }
}

} // verus!
