//! Media formats, audio/video synchronisation, and the codec stages of a build
//! without a media framework.
use vstd::prelude::*;

use crate::error::QvodError;
use crate::seqs::starts_with;
use crate::types::{FileMeta, InfoHash, MediaStream};

verus! {

/// A container format.
#[derive(Debug, Clone, Copy, PartialEq, Eq, Structural)]
pub enum MediaFormat {
    Rmvb,
    Avi,
    Mkv,
    Mp4,
    Wmv,
    Flv,
    Mov,
    Ts,
    Webm,
    Unknown,
}

/// The lowercase form of a text, as `str::to_lowercase` gives it.
pub uninterp spec fn lowercase_of(s: Seq<char>) -> Seq<char>;

/// Whether every character of a text is ASCII.
pub open spec fn ascii_text(s: Seq<char>) -> bool {
    forall|i: int| 0 <= i < s.len() ==> (#[trigger] s[i] as u32) < 128
}

/// The lowercase of an ASCII character: `A` to `Z` become `a` to `z`, and
/// every other character stays as it is.
pub open spec fn ascii_lower(c: char) -> char {
    if 'A' <= c && c <= 'Z' {
        ((c as u32 + 32) as u32) as char
    } else {
        c
    }
}

/// The lowercase form of `s`.
///
/// Trusted: this calls `str::to_lowercase`, whose result depends on the text
/// alone; the contract names it `lowercase_of`. Of ASCII text it also claims
/// what the documentation's Unicode definition gives: `A` to `Z` become `a` to
/// `z` and the other characters stay. Of other text it claims nothing more.
#[verifier::external_body]
fn to_lowercase(s: &str) -> (r: String)
    ensures
        r@ == lowercase_of(s@),
        ascii_text(s@) ==> r@ == s@.map_values(|c: char| ascii_lower(c)),
{
    s.to_lowercase()
}

/// The extension `std::path::Path` finds in a path, if any.
pub uninterp spec fn path_extension_of(path: Seq<char>) -> Option<Seq<char>>;

/// The extension of the last component of a path.
///
/// Trusted: this calls `std::path::Path::extension` on the path text and turns
/// the extension back into text; the result depends on the path alone and the
/// contract names it `path_extension_of`.
#[verifier::external_body]
fn path_extension(path: &str) -> (r: Option<String>)
    ensures
        match r {
            Some(e) => path_extension_of(path@) == Some(e@),
            None => path_extension_of(path@) is None,
        },
{
    std::path::Path::new(path).extension().map(|e| e.to_string_lossy().into_owned())
}

/// The format a lowercase extension names.
pub open spec fn format_of_lower_ext(e: Seq<char>) -> MediaFormat {
    if e == "rmvb"@ || e == "rm"@ {
        MediaFormat::Rmvb
    } else if e == "avi"@ {
        MediaFormat::Avi
    } else if e == "mkv"@ {
        MediaFormat::Mkv
    } else if e == "mp4"@ {
        MediaFormat::Mp4
    } else if e == "wmv"@ {
        MediaFormat::Wmv
    } else if e == "flv"@ {
        MediaFormat::Flv
    } else if e == "mov"@ {
        MediaFormat::Mov
    } else if e == "ts"@ {
        MediaFormat::Ts
    } else if e == "webm"@ {
        MediaFormat::Webm
    } else {
        MediaFormat::Unknown
    }
}

/// The format that the first bytes of a file announce.
pub open spec fn format_of_magic(b: Seq<u8>) -> MediaFormat {
    if b.len() < 4 {
        MediaFormat::Unknown
    } else if starts_with(b, seq![0x00u8, 0x00, 0x00, 0x18, 0x66, 0x74, 0x79, 0x70, 0x6d, 0x70, 0x34])
        || starts_with(b, seq![0x66u8, 0x74, 0x79, 0x70]) {
        MediaFormat::Mp4
    } else if starts_with(b, seq![0x1au8, 0x45, 0xdf, 0xa3]) {
        MediaFormat::Mkv
    } else if starts_with(b, seq![0x46u8, 0x4c, 0x56]) {
        MediaFormat::Flv
    } else if starts_with(b, seq![0x52u8, 0x49, 0x46, 0x46]) {
        MediaFormat::Avi
    } else if starts_with(b, seq![0x30u8, 0x26, 0xb2, 0x75]) {
        MediaFormat::Wmv
    } else if starts_with(b, seq![0x2eu8, 0x52, 0x4d, 0x46]) {
        MediaFormat::Rmvb
    } else if starts_with(b, seq![0x47u8, 0x40]) {
        MediaFormat::Ts
    } else {
        MediaFormat::Unknown
    }
}

/// `b` begins with the bytes of `p`.
fn bytes_start_with(b: &[u8], p: &[u8]) -> (r: bool)
    ensures
        r == starts_with(b@, p@),
{
    if b.len() < p.len() {
        return false;
    }
    let mut i: usize = 0;
    while i < p.len()
        invariant
            i <= p@.len(),
            p@.len() <= b@.len(),
            forall|j: int| 0 <= j < i ==> b@[j] == p@[j],
        decreases p@.len() - i,
    {
        if b[i] != p[i] {
            assert(b@.take(p@.len() as int)[i as int] != p@[i as int]);
            return false;
        }
        i += 1;
    }
    assert(b@.take(p@.len() as int) =~= p@);
    true
}

/// Text equal to a literal.
fn str_eq(a: &str, b: &str) -> (r: bool)
    ensures
        r == (a@ == b@),
{
    let x = crate::seqs::str_chars(a);
    let y = crate::seqs::str_chars(b);
    if x.len() != y.len() {
        return false;
    }
    let mut i: usize = 0;
    while i < x.len()
        invariant
            i <= x@.len(),
            x@.len() == y@.len(),
            x@ == a@,
            y@ == b@,
            forall|j: int| 0 <= j < i ==> x@[j] == y@[j],
        decreases x@.len() - i,
    {
        if x[i] != y[i] {
            assert(x@[i as int] != y@[i as int]);
            return false;
        }
        i += 1;
    }
    assert(x@ =~= y@);
    true
}

impl MediaFormat {
    /// The format an extension names, ignoring case.
    pub fn from_extension(ext: &str) -> (f: MediaFormat)
        ensures
            f == format_of_lower_ext(lowercase_of(ext@)),
            ascii_text(ext@) ==> f == format_of_lower_ext(ext@.map_values(|c: char| ascii_lower(c))),
    {
        let lower = to_lowercase(ext);
        MediaFormat::from_lowercase_extension(lower.as_str())
    }

    /// The format a lowercase extension names.
    pub fn from_lowercase_extension(e: &str) -> (f: MediaFormat)
        ensures
            f == format_of_lower_ext(e@),
    {
        if str_eq(e, "rmvb") || str_eq(e, "rm") {
            MediaFormat::Rmvb
        } else if str_eq(e, "avi") {
            MediaFormat::Avi
        } else if str_eq(e, "mkv") {
            MediaFormat::Mkv
        } else if str_eq(e, "mp4") {
            MediaFormat::Mp4
        } else if str_eq(e, "wmv") {
            MediaFormat::Wmv
        } else if str_eq(e, "flv") {
            MediaFormat::Flv
        } else if str_eq(e, "mov") {
            MediaFormat::Mov
        } else if str_eq(e, "ts") {
            MediaFormat::Ts
        } else if str_eq(e, "webm") {
            MediaFormat::Webm
        } else {
            MediaFormat::Unknown
        }
    }

    /// The format the first bytes of a file announce.
    pub fn from_magic(bytes: &[u8]) -> (f: MediaFormat)
        ensures
            f == format_of_magic(bytes@),
    {
        if bytes.len() < 4 {
            return MediaFormat::Unknown;
        }
        let mp4_box: [u8; 11] = [0x00, 0x00, 0x00, 0x18, 0x66, 0x74, 0x79, 0x70, 0x6d, 0x70, 0x34];
        let ftyp: [u8; 4] = [0x66, 0x74, 0x79, 0x70];
        let ebml: [u8; 4] = [0x1a, 0x45, 0xdf, 0xa3];
        let flv: [u8; 3] = [0x46, 0x4c, 0x56];
        let riff: [u8; 4] = [0x52, 0x49, 0x46, 0x46];
        let asf: [u8; 4] = [0x30, 0x26, 0xb2, 0x75];
        let rmf: [u8; 4] = [0x2e, 0x52, 0x4d, 0x46];
        let ts: [u8; 2] = [0x47, 0x40];
        assert(mp4_box@ =~= seq![0x00u8, 0x00, 0x00, 0x18, 0x66, 0x74, 0x79, 0x70, 0x6d, 0x70, 0x34]);
        assert(ftyp@ =~= seq![0x66u8, 0x74, 0x79, 0x70]);
        assert(ebml@ =~= seq![0x1au8, 0x45, 0xdf, 0xa3]);
        assert(flv@ =~= seq![0x46u8, 0x4c, 0x56]);
        assert(riff@ =~= seq![0x52u8, 0x49, 0x46, 0x46]);
        assert(asf@ =~= seq![0x30u8, 0x26, 0xb2, 0x75]);
        assert(rmf@ =~= seq![0x2eu8, 0x52, 0x4d, 0x46]);
        assert(ts@ =~= seq![0x47u8, 0x40]);
        if bytes_start_with(bytes, &mp4_box) || bytes_start_with(bytes, &ftyp) {
            MediaFormat::Mp4
        } else if bytes_start_with(bytes, &ebml) {
            MediaFormat::Mkv
        } else if bytes_start_with(bytes, &flv) {
            MediaFormat::Flv
        } else if bytes_start_with(bytes, &riff) {
            MediaFormat::Avi
        } else if bytes_start_with(bytes, &asf) {
            MediaFormat::Wmv
        } else if bytes_start_with(bytes, &rmf) {
            MediaFormat::Rmvb
        } else if bytes_start_with(bytes, &ts) {
            MediaFormat::Ts
        } else {
            MediaFormat::Unknown
        }
    }
}

/// The format a path's extension names; `Unknown` without a known extension.
pub fn probe_format(path: &str) -> (r: Result<MediaFormat, QvodError>)
    ensures
        r == Ok::<MediaFormat, QvodError>(
            match path_extension_of(path@) {
                Some(e) => format_of_lower_ext(lowercase_of(e)),
                None => MediaFormat::Unknown,
            },
        ),
{
    match path_extension(path) {
        Some(ext) => Ok(MediaFormat::from_extension(ext.as_str())),
        None => Ok(MediaFormat::Unknown),
    }
}

} // verus!

verus! {

/// Which clock the other stream follows.
#[derive(Debug, Clone, Copy, PartialEq, Eq, Structural)]
pub enum SyncStrategy {
    AudioMaster,
    VideoMaster,
    ExternalMaster,
}

impl Default for SyncStrategy {
    fn default() -> (s: SyncStrategy)
        ensures
            s == SyncStrategy::AudioMaster,
    {
        SyncStrategy::AudioMaster
    }
}

/// What to do with a video frame.
#[derive(Debug, Clone, Copy, PartialEq, Eq, Structural)]
pub enum SyncAction {
    Render,
    DropFrame,
    RepeatFrame,
}

/// The state of audio/video synchronisation as mathematics sees it.
pub struct SyncModel {
    pub strategy: SyncStrategy,
    pub last_video_pts: u64,
    pub last_audio_pts: u64,
    pub drift_ms: i64,
    pub dropped_frames: u64,
}

/// Keeps video frames in step with the audio clock.
#[derive(Debug)]
pub struct AudioVideoSync {
    strategy: SyncStrategy,
    last_video_pts: u64,
    last_audio_pts: u64,
    drift_ms: i64,
    dropped_frames: u64,
}

impl View for AudioVideoSync {
    type V = SyncModel;

    closed spec fn view(&self) -> SyncModel {
        SyncModel {
            strategy: self.strategy,
            last_video_pts: self.last_video_pts,
            last_audio_pts: self.last_audio_pts,
            drift_ms: self.drift_ms,
            dropped_frames: self.dropped_frames,
        }
    }
}

/// How far video runs ahead of audio: both times taken as `i64`, as the
/// machine casts them.
pub open spec fn pts_diff(video_pts_ms: u64, audio_pts_ms: u64) -> int {
    (video_pts_ms as i64) - (audio_pts_ms as i64)
}

/// The action for a frame, given the strategy and how far video runs ahead.
pub open spec fn sync_action(strategy: SyncStrategy, diff: int) -> SyncAction {
    match strategy {
        SyncStrategy::AudioMaster => if diff > 20 {
            SyncAction::DropFrame
        } else if diff < -100 {
            SyncAction::RepeatFrame
        } else {
            SyncAction::Render
        },
        SyncStrategy::VideoMaster => SyncAction::Render,
        SyncStrategy::ExternalMaster => if diff > 50 || diff < -50 {
            SyncAction::DropFrame
        } else {
            SyncAction::Render
        },
    }
}

/// The state with the master clock switched to `strategy`.
pub open spec fn with_strategy(m: SyncModel, strategy: SyncStrategy) -> SyncModel {
    SyncModel { strategy, ..m }
}

/// Switching the master clock keeps the drift and the count of dropped frames,
/// and from then on the new strategy alone decides what a video frame gets,
/// with `d` how far video runs ahead of audio: following video, every frame is
/// rendered; following an external clock, a frame more than 50 ms off either
/// way is dropped; following audio, a frame more than 20 ms ahead is dropped
/// and one more than 100 ms behind is repeated.
pub proof fn law_strategy_change(m: SyncModel, strategy: SyncStrategy, video_pts_ms: u64, audio_pts_ms: u64)
    ensures
        with_strategy(m, strategy).drift_ms == m.drift_ms,
        with_strategy(m, strategy).dropped_frames == m.dropped_frames,
        ({
            let d = pts_diff(video_pts_ms, audio_pts_ms);
            let a = sync_action(with_strategy(m, strategy).strategy, d);
            &&& strategy is VideoMaster ==> a == SyncAction::Render
            &&& strategy is ExternalMaster ==> a == if d > 50 || -d > 50 {
                SyncAction::DropFrame
            } else {
                SyncAction::Render
            }
            &&& strategy is AudioMaster ==> a == if d > 20 {
                SyncAction::DropFrame
            } else if d < -100 {
                SyncAction::RepeatFrame
            } else {
                SyncAction::Render
            }
        }),
{
}

impl AudioVideoSync {
    /// Following audio, with no drift and nothing dropped.
    pub fn new() -> (s: AudioVideoSync)
        ensures
            s@ == (SyncModel {
                strategy: SyncStrategy::AudioMaster,
                last_video_pts: 0,
                last_audio_pts: 0,
                drift_ms: 0,
                dropped_frames: 0,
            }),
    {
        AudioVideoSync {
            strategy: SyncStrategy::AudioMaster,
            last_video_pts: 0,
            last_audio_pts: 0,
            drift_ms: 0,
            dropped_frames: 0,
        }
    }

    /// Switches the master clock.
    pub fn set_strategy(&mut self, strategy: SyncStrategy)
        ensures
            final(self)@ == with_strategy(old(self)@, strategy),
    {
        self.strategy = strategy;
    }

    /// Records the two clocks and decides what to do with the video frame.
    pub fn sync_video(&mut self, video_pts_ms: u64, audio_pts_ms: u64) -> (a: SyncAction)
        requires
            i64::MIN <= pts_diff(video_pts_ms, audio_pts_ms) <= i64::MAX,
            old(self)@.strategy is ExternalMaster ==> i64::MIN < pts_diff(video_pts_ms, audio_pts_ms),
        ensures
            final(self)@ == (SyncModel {
                last_video_pts: video_pts_ms,
                last_audio_pts: audio_pts_ms,
                drift_ms: pts_diff(video_pts_ms, audio_pts_ms) as i64,
                ..old(self)@
            }),
            a == sync_action(old(self)@.strategy, pts_diff(video_pts_ms, audio_pts_ms)),
    {
        self.last_video_pts = video_pts_ms;
        self.last_audio_pts = audio_pts_ms;
        let diff = (video_pts_ms as i64) - (audio_pts_ms as i64);
        self.drift_ms = diff;
        match self.strategy {
            SyncStrategy::AudioMaster => {
                if diff > 20 {
                    SyncAction::DropFrame
                } else if diff < -100 {
                    SyncAction::RepeatFrame
                } else {
                    SyncAction::Render
                }
            },
            SyncStrategy::VideoMaster => SyncAction::Render,
            SyncStrategy::ExternalMaster => {
                if diff > 50 || diff < -50 {
                    SyncAction::DropFrame
                } else {
                    SyncAction::Render
                }
            },
        }
    }

    /// Audio frames are always played.
    pub fn sync_audio(&mut self, audio_pts_ms: u64) -> (a: SyncAction)
        ensures
            a == SyncAction::Render,
            final(self)@ == old(self)@,
    {
        SyncAction::Render
    }

    /// How far video ran ahead of audio at the last video frame.
    pub fn drift_ms(&self) -> (d: i64)
        ensures
            d == self@.drift_ms,
    {
        self.drift_ms
    }

    /// Frames dropped so far.
    pub fn dropped_frames(&self) -> (n: u64)
        ensures
            n == self@.dropped_frames,
    {
        self.dropped_frames
    }

    /// Forgets the clocks, the drift and the count; keeps the strategy.
    pub fn reset(&mut self)
        ensures
            final(self)@ == (SyncModel {
                last_video_pts: 0,
                last_audio_pts: 0,
                drift_ms: 0,
                dropped_frames: 0,
                ..old(self)@
            }),
    {
        self.last_video_pts = 0;
        self.last_audio_pts = 0;
        self.drift_ms = 0;
        self.dropped_frames = 0;
    }
}

impl Default for AudioVideoSync {
    fn default() -> (s: AudioVideoSync)
        ensures
            s@ == (SyncModel {
                strategy: SyncStrategy::AudioMaster,
                last_video_pts: 0,
                last_audio_pts: 0,
                drift_ms: 0,
                dropped_frames: 0,
            }),
    {
        AudioVideoSync::new()
    }
}

/// The bytes of one RGB24 picture of `width` by `height`: three per pixel;
/// refused when either side is unknown (0).
pub fn rgb_frame_size(width: u32, height: u32) -> (r: Result<usize, QvodError>)
    requires
        width * height * 3 <= u32::MAX,
    ensures
        width == 0 || height == 0 ==> (r matches Err(QvodError::Decode(m)) && m@
            == "could not determine video dimensions"@),
        width > 0 && height > 0 ==> r == Ok::<usize, QvodError>((width * height * 3) as usize),
{
    if width == 0 || height == 0 {
        return Err(QvodError::Decode(String::from_str("could not determine video dimensions")));
    }
    let n: u32 = width * height * 3;
    Ok(n as usize)
}

/// A decoded picture.
#[derive(Debug, Clone)]
pub struct VideoFrame {
    pub data: Vec<u8>,
    pub width: u32,
    pub height: u32,
    pub pts_ms: u64,
    pub keyframe: bool,
}

/// The video decoder of a build without a media framework: it decodes nothing.
pub struct VideoDecoder;

impl VideoDecoder {
    pub fn new() -> (d: VideoDecoder) {
        VideoDecoder
    }

    /// Always refuses: no decoder is available.
    pub fn decode_video(&mut self, packet: &[u8]) -> (r: Result<VideoFrame, QvodError>)
        ensures
            r matches Err(QvodError::Decode(m)) && m@ == "video decoder not available"@,
    {
        Err(QvodError::Decode(String::from_str("video decoder not available")))
    }
}

impl Default for VideoDecoder {
    fn default() -> (d: VideoDecoder) {
        VideoDecoder::new()
    }
}

/// The audio decoder of a build without a media framework.
pub struct AudioDecoder;

impl AudioDecoder {
    pub fn new() -> (d: AudioDecoder) {
        AudioDecoder
    }
}

impl Default for AudioDecoder {
    fn default() -> (d: AudioDecoder) {
        AudioDecoder::new()
    }
}

/// What a demuxer knows of a stream.
#[derive(Debug)]
pub struct MediaInfo {
    pub codec: String,
    pub resolution: (u32, u32),
    pub bitrate: u64,
    pub duration_ms: u64,
}

impl Default for MediaInfo {
    fn default() -> (i: MediaInfo)
        ensures
            i.codec@.len() == 0,
            i.resolution == (0u32, 0u32),
            i.bitrate == 0,
            i.duration_ms == 0,
    {
        MediaInfo { codec: String::new(), resolution: (0, 0), bitrate: 0, duration_ms: 0 }
    }
}

/// A packet read from a container.
#[derive(Debug, Clone)]
pub struct MediaFrame {
    pub data: Vec<u8>,
    pub pts_ms: u64,
    pub keyframe: bool,
}

/// The demuxer of a build without a media framework: it opens anything and reads nothing.
pub struct Demuxer;

impl Demuxer {
    pub fn new() -> (d: Demuxer) {
        Demuxer
    }

    /// Always succeeds.
    pub fn open(path: &str) -> (r: Result<Demuxer, QvodError>)
        ensures
            r is Ok,
    {
        Ok(Demuxer)
    }

    /// Always refuses: nothing can be read.
    pub fn read_frame(&mut self) -> (r: Result<MediaFrame, QvodError>)
        ensures
            r matches Err(QvodError::UnsupportedFormat(m)) && m@ == "ffmpeg not available"@,
    {
        Err(QvodError::UnsupportedFormat(String::from_str("ffmpeg not available")))
    }

    /// Always refuses: nothing can be sought.
    pub fn seek(&mut self, timestamp_ms: u64) -> (r: Result<(), QvodError>)
        ensures
            r matches Err(QvodError::UnsupportedFormat(m)) && m@ == "ffmpeg not available"@,
    {
        Err(QvodError::UnsupportedFormat(String::from_str("ffmpeg not available")))
    }

    /// Empty information.
    pub fn info(&self) -> (i: MediaInfo)
        ensures
            i.codec@.len() == 0,
            i.resolution == (0u32, 0u32),
            i.bitrate == 0,
            i.duration_ms == 0,
    {
        MediaInfo::default()
    }
}

impl Default for Demuxer {
    fn default() -> (d: Demuxer) {
        Demuxer::new()
    }
}

/// The framework-backed demuxer, absent from this build.
pub struct FfmpegDemuxer;

impl FfmpegDemuxer {
    /// Always refuses.
    pub fn open(path: &str) -> (r: Result<FfmpegDemuxer, QvodError>)
        ensures
            r matches Err(QvodError::UnsupportedFormat(m)) && m@ == "ffmpeg not available in this build"@,
    {
        Err(QvodError::UnsupportedFormat(String::from_str("ffmpeg not available in this build")))
    }
}

/// Metadata of a stream, as far as this build can tell: none, with the
/// default piece length.
pub fn extract_metadata(stream: &MediaStream) -> (m: FileMeta)
    ensures
        m.info_hash.0@ == Seq::new(20, |i: int| 0u8),
        m.filename@.len() == 0,
        m.file_size == 0,
        m.piece_length == 262_144,
        m.pieces@.len() == 0,
        m.keyframe_index is None,
        m.duration_ms == 0,
        m.video_codec is None,
        m.audio_codec is None,
        m.width == 0,
        m.height == 0,
        m.bitrate == 0,
        !m.from_cache,
{
    let m = FileMeta {
        info_hash: InfoHash([0u8; 20]),
        filename: String::new(),
        file_size: 0,
        piece_length: 262_144,
        pieces: Vec::new(),
        keyframe_index: None,
        duration_ms: 0,
        video_codec: None,
        audio_codec: None,
        width: 0,
        height: 0,
        bitrate: 0,
        from_cache: false,
    };
    assert(m.info_hash.0@ =~= Seq::new(20, |i: int| 0u8));
    m
}

/// The video output of a build without a window: it accepts every frame.
pub struct VideoRenderer;

impl VideoRenderer {
    pub fn new() -> (r: VideoRenderer) {
        VideoRenderer
    }

    /// Accepts the frame.
    pub fn render_frame(&mut self, frame: &[u8], width: u32, height: u32) -> (r: Result<(), QvodError>)
        ensures
            r is Ok,
    {
        Ok(())
    }

    /// Nothing to clear.
    pub fn clear(&mut self) {
    }
}

impl Default for VideoRenderer {
    fn default() -> (r: VideoRenderer) {
        VideoRenderer::new()
    }
}

/// The audio output of a build without a sound device.
pub struct AudioRenderer;

impl AudioRenderer {
    pub fn new() -> (r: AudioRenderer) {
        AudioRenderer
    }

    /// Nothing to stop.
    pub fn stop(&mut self) {
    }
}

impl Default for AudioRenderer {
    fn default() -> (r: AudioRenderer) {
        AudioRenderer::new()
    }
}

/// The audio resampler of a build without a media framework.
pub struct AudioResampler;

impl AudioResampler {
    pub fn new() -> (r: AudioResampler) {
        AudioResampler
    }
}

impl Default for AudioResampler {
    fn default() -> (r: AudioResampler) {
        AudioResampler::new()
    }
}

} // verus!
