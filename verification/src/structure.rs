//! Data model shared by the pipeline stages: point metadata and side tables,
//! extension-triage records, GIF triage groups, and the final classification
//! of each similarity cluster.

use crate::point_id::PointId;
use vstd::prelude::*;

verus! {

/// Metadata of one stored point.
#[derive(Debug, Clone)]
pub struct NekoPoint {
    pub id: PointId,
    /// Pixel height of the image.
    pub height: usize,
    /// Pixel width of the image.
    pub weight: usize,
    /// Byte size of the stored file, when known.
    pub size: Option<usize>,
    /// Category tags attached to the point.
    pub categories: Option<Vec<String>>,
    /// Text recognised in the image, with its embedding, when present.
    pub text_info: Option<NekoPointText>,
}

/// Text found in an image and its 768-dimension embedding. Each coordinate is
/// kept as the raw bit pattern of a 32-bit float; similarity over the
/// embedding is computed by the embedding runtime outside this library.
#[derive(Debug, Clone)]
pub struct NekoPointText {
    pub text: String,
    pub text_vector: Vec<u32>,
}

/// Object-store side data of one point.
#[derive(Debug, Clone)]
pub struct NekoPointExt {
    pub file_path: String,
    pub source: Option<NekoPointExtResource>,
}

/// Where the bytes of a point's file can be found locally.
#[derive(Debug, Clone)]
pub enum NekoPointExtResource {
    LocalPath(String),
    Blob(Vec<u8>),
}

/// The text after the last `'.'` of a file path; the whole path when it has
/// no `'.'`.
pub open spec fn ext_of(s: Seq<char>) -> Seq<char> {
    match s.index_of_last('.') {
        Some(i) => s.subrange(i + 1, s.len() as int),
        None => s,
    }
}

impl NekoPointExt {
    /// The extension of the file path: what follows its last `'.'`.
    pub fn ext(&self) -> (r: &str)
        ensures
            r@ == ext_of(self.file_path@),
    {
        file_ext(self.file_path.as_str())
    }
}

/// The extension of a file path: what follows its last `'.'`, or the whole
/// path when it has none.
pub fn file_ext(s: &str) -> (r: &str)
    ensures
        r@ == ext_of(s@),
{
    let n: usize = s.unicode_len();
    let mut k: usize = n;
    while k > 0
        invariant
            k <= n,
            n == s@.len(),
            forall|j: int| k <= j < n ==> s@[j] != '.',
        decreases k,
    {
        if s.get_char(k - 1) == '.' {
            proof {
                s@.index_of_last_ensures('.');
                match s@.index_of_last('.') {
                    Some(i) => {
                        if i < k - 1 {
                            assert(s@[k - 1] != '.');
                        }
                        if i > k - 1 {
                            assert(s@[i] != '.');
                        }
                        assert(i == k - 1);
                    },
                    None => {
                        assert(!s@.contains('.'));
                        assert(s@[k - 1] == '.');
                    },
                }
            }
            return s.substring_char(k, n);
        }
        k = k - 1;
    }
    proof {
        s@.index_of_last_ensures('.');
        match s@.index_of_last('.') {
            Some(i) => {
                assert(s@[i] != '.');
            },
            None => {},
        }
    }
    s
}

/// The text before the first `'.'` of a file path; the whole path when it
/// has no `'.'`.
pub open spec fn stem_of(s: Seq<char>) -> Seq<char> {
    match s.index_of_first('.') {
        Some(i) => s.take(i),
        None => s,
    }
}

/// The text before the first `'.'` of a file path.
pub fn file_stem(s: &str) -> (r: &str)
    ensures
        r@ == stem_of(s@),
{
    let n: usize = s.unicode_len();
    let mut k: usize = 0;
    while k < n
        invariant
            k <= n,
            n == s@.len(),
            forall|j: int| 0 <= j < k ==> s@[j] != '.',
        decreases n - k,
    {
        if s.get_char(k) == '.' {
            proof {
                s@.index_of_first_ensures('.');
                match s@.index_of_first('.') {
                    Some(i) => {
                        if i < k {
                            assert(s@[i] != '.');
                        }
                        if i > k {
                            assert(s@[k as int] != '.');
                        }
                        assert(i == k as int);
                    },
                    None => {
                        assert(!s@.contains('.'));
                        assert(s@[k as int] == '.');
                    },
                }
                assert(s@.take(k as int) =~= s@.subrange(0, k as int));
            }
            return s.substring_char(0, k);
        }
        k = k + 1;
    }
    proof {
        s@.index_of_first_ensures('.');
        match s@.index_of_first('.') {
            Some(i) => {
                assert(s@[i] != '.');
            },
            None => {},
        }
        assert(s@ =~= s@.subrange(0, n as int));
    }
    s
}

/// A filesystem join of a base and a relative name: the name follows the
/// base, with a `'/'` between them unless the base is empty or already ends
/// with one.
pub open spec fn path_join_spec(base: Seq<char>, name: Seq<char>) -> Seq<char> {
    if base.len() == 0 {
        name
    } else if base.last() == '/' {
        base + name
    } else {
        base + seq!['/'] + name
    }
}

/// Join a base path and a relative file name.
pub fn path_join(base: &str, name: &str) -> (r: String)
    ensures
        r@ == path_join_spec(base@, name@),
{
    let n: usize = base.unicode_len();
    if n == 0 {
        let mut r = String::new();
        r.append(name);
        return r;
    }
    let mut r = String::new();
    r.append(base);
    if base.get_char(n - 1) != '/' {
        proof {
            reveal_strlit("/");
        }
        r.append("/");
        proof {
            assert(r@ =~= base@ + seq!['/']);
        }
    }
    r.append(name);
    r
}

/// A file whose stored extension disagrees with its inferred type.
#[derive(Debug, Clone)]
pub struct WrongExtFile {
    pub path: String,
    pub expected_ext: String,
}

/// A file whose type could not be inferred or read.
#[derive(Debug, Clone)]
pub struct FailedExtFile {
    pub path: String,
    pub error: String,
}

/// Outcome of checking one file's extension.
#[derive(Debug, Clone)]
pub enum TriageFile {
    Wrong(WrongExtFile),
    Failed(FailedExtFile),
}

/// Cosine threshold for text near-duplicates, in millionths.
pub const TEXT_SIM_THRESHOLD_MICRO: i64 = 900000;

/// Cosine threshold for image near-duplicates, in millionths.
pub const IMAGE_SIM_THRESHOLD_MICRO: i64 = 985000;

/// One GIF sent into the refinement pipeline.
#[derive(Debug, Clone)]
pub struct TriageGif {
    pub uuid: PointId,
    pub path: String,
    pub size: usize,
}

/// Packed RGB bytes of one extracted frame.
pub type GifFrame = Vec<u8>;

/// The extracted frames of one GIF.
pub type GifFrames = Vec<GifFrame>;

/// A GIF whose anchor frames are ready for the embedding runtime.
#[derive(Debug, Clone)]
pub struct TriageGifClip {
    pub id: PointId,
    pub path: String,
    pub size: usize,
    pub frame: GifFrames,
}

/// Result of the frame-extraction stage for one group of GIFs.
#[derive(Debug, Clone)]
pub struct TriageGifGroupsGifStagePair {
    /// GIFs whose bytes could not be decoded, with the reasons.
    pub invalid_gif_id: Option<(Vec<PointId>, Vec<String>)>,
    /// GIFs whose frames are all alike the first: static, to be discarded.
    pub discard_same_frame_gif_id: Option<Vec<PointId>>,
    /// Animated GIFs with their anchor frames, bound for the embedder.
    pub prepare_clip_gif_pair: Option<Vec<TriageGifClip>>,
}

/// Result of the embedding re-cluster stage for one group of GIFs.
#[derive(Debug, Clone)]
pub struct TriageGifGroupsClipStagePair {
    pub kept_gifs: Option<Vec<TriageGif>>,
    pub discard_duplicate_gifs: Option<Vec<TriageGif>>,
}

/// Final classification of one source cluster.
#[derive(Debug, Clone)]
pub struct FinalClassification {
    /// Kept survivors of the text-anomaly split.
    pub kept_text_anomalies_group: Option<Vec<PointId>>,
    /// Undecodable GIFs, with the failure reasons.
    pub triaged_gif_and_invalid_group: Option<(Vec<PointId>, Vec<String>)>,
    /// Static GIFs, to be discarded.
    pub triaged_gif_and_discard_same_frame_group: Option<Vec<PointId>>,
    /// GIFs kept after the embedding re-cluster.
    pub triaged_gif_and_then_will_keep_group: Option<Vec<PointId>>,
    /// GIFs judged duplicates after the embedding re-cluster.
    pub triaged_gif_and_then_will_delete_group: Option<Vec<PointId>>,
    /// The one kept non-GIF survivor, when the cluster has one.
    pub kept_non_gif: Option<PointId>,
    /// Everything else in the cluster: to be deleted.
    pub other_need_delete_group: Option<Vec<PointId>>,
}

/// Compare two strings by their character sequences.
pub fn str_eq(a: &str, b: &str) -> (r: bool)
    ensures
        r == (a@ == b@),
{
    let n: usize = a.unicode_len();
    let m: usize = b.unicode_len();
    if n != m {
        return false;
    }
    let mut i: usize = 0;
    while i < n
        invariant
            i <= n,
            n == a@.len(),
            n == b@.len(),
            forall|j: int| 0 <= j < i ==> a@[j] == b@[j],
        decreases n - i,
    {
        if a.get_char(i) != b.get_char(i) {
            return false;
        }
        i = i + 1;
    }
    proof {
        assert(a@ =~= b@);
    }
    true
}

} // verus!
