//! The post entity and media classification of attachment filenames.

use vstd::prelude::*;

verus! {

/// Mathematical model of a stored post: every text field is a byte
/// sequence, the parent link and the attachment filename are optional.
pub struct PostView {
    pub id: Seq<u8>,
    pub parent_id: Option<Seq<u8>>,
    pub title: Seq<u8>,
    pub message: Seq<u8>,
    pub file: Option<Seq<u8>>,
    pub timestamp: u64,
}

/// The sole persistent entity of the board. Text is carried as bytes; the
/// surrounding application converts to and from strings at its edge.
///
/// `parent_id == None` marks a top-level post (an OP); `Some` marks a reply
/// to that OP. For an OP, `timestamp` is the bump timestamp: its own
/// creation time, overwritten by the time of the most recent reply. For a
/// reply it is the reply's own creation time.
#[derive(Clone)]
pub struct Post {
    pub id: Vec<u8>,
    pub parent_id: Option<Vec<u8>>,
    pub title: Vec<u8>,
    pub message: Vec<u8>,
    pub file: Option<Vec<u8>>,
    pub timestamp: u64,
}

/// The view of an optional byte field.
pub open spec fn opt_bytes_view(o: Option<Vec<u8>>) -> Option<Seq<u8>> {
    match o {
        Some(b) => Some(b@),
        None => None,
    }
}

impl View for Post {
    type V = PostView;

    open spec fn view(&self) -> PostView {
        PostView {
            id: self.id@,
            parent_id: opt_bytes_view(self.parent_id),
            title: self.title@,
            message: self.message@,
            file: opt_bytes_view(self.file),
            timestamp: self.timestamp,
        }
    }
}

impl Post {
    /// The stored attachment filename, when there is one.
    pub fn file_url(&self) -> (r: Option<&Vec<u8>>)
        ensures
            r is Some <==> self.file is Some,
            r matches Some(f) ==> self@.file == Some(f@),
    {
        self.file.as_ref()
    }

    /// The attachment is present and its filename carries an image suffix.
    pub fn is_image(&self) -> (r: bool)
        ensures
            r <==> (self@.file matches Some(f) && is_image_name(f)),
    {
        match self.file.as_ref() {
            Some(f) => classify_matches_image(f),
            None => false,
        }
    }

    /// The attachment is present and its filename carries a video suffix.
    pub fn is_video(&self) -> (r: bool)
        ensures
            r <==> (self@.file matches Some(f) && is_video_name(f)),
    {
        match self.file.as_ref() {
            Some(f) => classify_matches_video(f),
            None => false,
        }
    }

    /// The attachment is present and its filename carries the audio suffix.
    pub fn is_audio(&self) -> (r: bool)
        ensures
            r <==> (self@.file matches Some(f) && is_audio_name(f)),
    {
        match self.file.as_ref() {
            Some(f) => classify_matches_audio(f),
            None => false,
        }
    }
}

/// `filename@` matches the image suffix table.
fn classify_matches_image(filename: &Vec<u8>) -> (r: bool)
    ensures
        r == is_image_name(filename@),
{
    matches!(classify(filename), MediaKind::Image)
}

/// `filename@` matches the video suffix table.
fn classify_matches_video(filename: &Vec<u8>) -> (r: bool)
    ensures
        r == is_video_name(filename@),
{
    proof {
        lemma_classify_exhaustive(filename@);
    }
    matches!(classify(filename), MediaKind::Video)
}

/// `filename@` matches the audio suffix.
fn classify_matches_audio(filename: &Vec<u8>) -> (r: bool)
    ensures
        r == is_audio_name(filename@),
{
    proof {
        lemma_classify_exhaustive(filename@);
    }
    matches!(classify(filename), MediaKind::Audio)
}

/// The timestamp a record carries when it was stored before the field
/// existed: such records decode with a bump timestamp of zero.
pub fn default_timestamp() -> (r: u64)
    ensures
        r == 0,
{
    0
}

/// The kind of markup a stored attachment filename calls for.
#[derive(Clone, Copy, Debug, PartialEq, Eq, Structural)]
pub enum MediaKind {
    Image,
    Video,
    Audio,
    Other,
}

/// `suf` is a (case-sensitive) suffix of `s`.
pub open spec fn has_suffix(s: Seq<u8>, suf: Seq<u8>) -> bool {
    suf.len() <= s.len() && s.skip(s.len() - suf.len()) == suf
}

pub open spec fn ext_jpg() -> Seq<u8> {
    seq![46u8, 106u8, 112u8, 103u8]
}

pub open spec fn ext_jpeg() -> Seq<u8> {
    seq![46u8, 106u8, 112u8, 101u8, 103u8]
}

pub open spec fn ext_png() -> Seq<u8> {
    seq![46u8, 112u8, 110u8, 103u8]
}

pub open spec fn ext_gif() -> Seq<u8> {
    seq![46u8, 103u8, 105u8, 102u8]
}

pub open spec fn ext_webp() -> Seq<u8> {
    seq![46u8, 119u8, 101u8, 98u8, 112u8]
}

pub open spec fn ext_mp4() -> Seq<u8> {
    seq![46u8, 109u8, 112u8, 52u8]
}

pub open spec fn ext_webm() -> Seq<u8> {
    seq![46u8, 119u8, 101u8, 98u8, 109u8]
}

pub open spec fn ext_mp3() -> Seq<u8> {
    seq![46u8, 109u8, 112u8, 51u8]
}

pub open spec fn is_image_name(s: Seq<u8>) -> bool {
    ||| has_suffix(s, ext_jpg())
    ||| has_suffix(s, ext_jpeg())
    ||| has_suffix(s, ext_png())
    ||| has_suffix(s, ext_gif())
    ||| has_suffix(s, ext_webp())
}

pub open spec fn is_video_name(s: Seq<u8>) -> bool {
    has_suffix(s, ext_mp4()) || has_suffix(s, ext_webm())
}

pub open spec fn is_audio_name(s: Seq<u8>) -> bool {
    has_suffix(s, ext_mp3())
}

/// Every filename classifies to exactly one kind: the three suffix tables
/// are pairwise disjoint (shown by `lemma_classify_exhaustive`), and
/// anything that matches none of them is `Other`.
pub open spec fn classify_name(s: Seq<u8>) -> MediaKind {
    if is_image_name(s) {
        MediaKind::Image
    } else if is_video_name(s) {
        MediaKind::Video
    } else if is_audio_name(s) {
        MediaKind::Audio
    } else {
        MediaKind::Other
    }
}

/// `r == true` exactly when `suf@` is a suffix of `v@`.
pub fn ends_with(v: &Vec<u8>, suf: &Vec<u8>) -> (r: bool)
    ensures
        r == has_suffix(v@, suf@),
{
    if suf.len() > v.len() {
        return false;
    }
    let offset = v.len() - suf.len();
    for i in 0..suf.len()
        invariant
            suf.len() <= v.len(),
            offset == v.len() - suf.len(),
            forall|j: int| 0 <= j < i ==> v@[offset + j] == suf@[j],
    {
        if v[offset + i] != suf[i] {
            assert(v@.skip(offset as int)[i as int] != suf@[i as int]);
            return false;
        }
    }
    assert(v@.skip(offset as int) =~= suf@);
    true
}

/// Derives the attachment kind from a stored filename by case-sensitive
/// suffix match against a fixed extension table.
pub fn classify(filename: &Vec<u8>) -> (k: MediaKind)
    ensures
        k == classify_name(filename@),
{
    let jpg: Vec<u8> = vec![46u8, 106u8, 112u8, 103u8];
    let jpeg: Vec<u8> = vec![46u8, 106u8, 112u8, 101u8, 103u8];
    let png: Vec<u8> = vec![46u8, 112u8, 110u8, 103u8];
    let gif: Vec<u8> = vec![46u8, 103u8, 105u8, 102u8];
    let webp: Vec<u8> = vec![46u8, 119u8, 101u8, 98u8, 112u8];
    let mp4: Vec<u8> = vec![46u8, 109u8, 112u8, 52u8];
    let webm: Vec<u8> = vec![46u8, 119u8, 101u8, 98u8, 109u8];
    let mp3: Vec<u8> = vec![46u8, 109u8, 112u8, 51u8];
    proof {
        assert(jpg@ =~= ext_jpg());
        assert(jpeg@ =~= ext_jpeg());
        assert(png@ =~= ext_png());
        assert(gif@ =~= ext_gif());
        assert(webp@ =~= ext_webp());
        assert(mp4@ =~= ext_mp4());
        assert(webm@ =~= ext_webm());
        assert(mp3@ =~= ext_mp3());
    }
    if ends_with(filename, &jpg) || ends_with(filename, &jpeg) || ends_with(filename, &png)
        || ends_with(filename, &gif) || ends_with(filename, &webp) {
        MediaKind::Image
    } else if ends_with(filename, &mp4) || ends_with(filename, &webm) {
        MediaKind::Video
    } else if ends_with(filename, &mp3) {
        MediaKind::Audio
    } else {
        MediaKind::Other
    }
}

/// A filename with a suffix ends in that suffix's last byte.
proof fn lemma_suffix_last(s: Seq<u8>, suf: Seq<u8>)
    requires
        has_suffix(s, suf),
        suf.len() > 0,
    ensures
        s.len() > 0,
        s.last() == suf.last(),
{
    assert(s.skip(s.len() - suf.len()).last() == suf.last());
}

/// Classification is exhaustive and unambiguous: every filename maps to
/// exactly one of the four kinds. The three suffix tables are pairwise
/// disjoint (their extensions end in distinct bytes), so each of the
/// first three kinds is reported exactly when its own table matches, and
/// `Other` exactly when none does.
pub proof fn lemma_classify_exhaustive(s: Seq<u8>)
    ensures
        classify_name(s) == MediaKind::Image <==> is_image_name(s),
        classify_name(s) == MediaKind::Video <==> is_video_name(s),
        classify_name(s) == MediaKind::Audio <==> is_audio_name(s),
        classify_name(s) == MediaKind::Other <==> !is_image_name(s) && !is_video_name(s)
            && !is_audio_name(s),
{
    if is_image_name(s) && is_video_name(s) {
        lemma_suffix_pair_distinct(s);
    }
    if is_image_name(s) && is_audio_name(s) {
        lemma_suffix_pair_distinct(s);
    }
    if is_video_name(s) && is_audio_name(s) {
        lemma_suffix_pair_distinct(s);
    }
}

/// No filename matches two of the three suffix tables at once.
proof fn lemma_suffix_pair_distinct(s: Seq<u8>)
    ensures
        !(is_image_name(s) && is_video_name(s)),
        !(is_image_name(s) && is_audio_name(s)),
        !(is_video_name(s) && is_audio_name(s)),
{
    if has_suffix(s, ext_jpg()) {
        lemma_suffix_last(s, ext_jpg());
    }
    if has_suffix(s, ext_jpeg()) {
        lemma_suffix_last(s, ext_jpeg());
    }
    if has_suffix(s, ext_png()) {
        lemma_suffix_last(s, ext_png());
    }
    if has_suffix(s, ext_gif()) {
        lemma_suffix_last(s, ext_gif());
    }
    if has_suffix(s, ext_webp()) {
        lemma_suffix_last(s, ext_webp());
    }
    if has_suffix(s, ext_mp4()) {
        lemma_suffix_last(s, ext_mp4());
    }
    if has_suffix(s, ext_webm()) {
        lemma_suffix_last(s, ext_webm());
    }
    if has_suffix(s, ext_mp3()) {
        lemma_suffix_last(s, ext_mp3());
    }
}

} // verus!
