//! HLS playlists: choosing a variant, resolving addresses, finding the key.

use crate::segment::{hex_iv, iv_readable, parse_hex_iv, EncMethod, EncryptionInfo};
use crate::text::{
    begins_with, chars_of, contains_char, contains_text, find_char, first_pos, has_text,
    lemma_first_pos_is, lemma_texts_push, opt_text, stands_at, starts_with_text, text_of, texts,
};
use vstd::prelude::*;
use vstd::string::*;
use vstd::utf8::encode_utf8;

verus! {

/// Variants higher than this are passed over where a lower one exists.
pub const MAX_HEIGHT: u32 = 1080;

// ------------------------------------------------------------------ addresses

/// The last position of `c` in `s`, or -1.
pub open spec fn last_pos(s: Seq<char>, c: char) -> int
    decreases s.len(),
{
    if s.len() == 0 {
        -1
    } else if s.last() == c {
        s.len() - 1
    } else {
        last_pos(s.drop_last(), c)
    }
}

/// Whether `url` has a scheme of its own.
pub open spec fn is_absolute_url(url: Seq<char>) -> bool {
    begins_with(url, "http://"@) || begins_with(url, "https://"@)
}

/// `rel` in place of what follows the last slash of `path`; `rel` itself where `path`
/// has no slash.
pub open spec fn sibling(path: Seq<char>, rel: Seq<char>) -> Seq<char> {
    path.take(last_pos(path, '/') + 1) + rel
}

/// The address that `rel` means in a playlist at `base`. The query of `base` is
/// carried over where `rel` has none of its own.
pub open spec fn resolved_url(base: Seq<char>, rel: Seq<char>) -> Seq<char> {
    let q = first_pos(base, '?');
    if is_absolute_url(rel) {
        rel
    } else if q < base.len() && !rel.contains('?') {
        sibling(base.take(q), rel) + base.skip(q)
    } else {
        sibling(base.take(q), rel)
    }
}

/// Resolves `rel` against the address of the playlist that it stands in.
pub fn resolve_url(base: &str, rel: &str) -> (url: String)
    ensures
        url@ == resolved_url(base@, rel@),
{
    if starts_with_text(rel, "http://") || starts_with_text(rel, "https://") {
        return rel.to_owned();
    }
    let chars = chars_of(base);
    let q: usize = find_char(&chars, '?');
    let ghost path = base@.take(q as int);
    let mut keep: usize = q;
    assert(path.take(q as int) =~= path);
    while keep > 0 && chars[keep - 1] != '/'
        invariant
            keep <= q <= chars.len(),
            chars@ == base@,
            path == base@.take(q as int),
            last_pos(path, '/') == last_pos(path.take(keep as int), '/'),
        decreases keep,
    {
        assert(path.take(keep as int).drop_last() =~= path.take(keep - 1));
        keep -= 1;
    }
    let mut url = text_of(&chars, 0, keep);
    proof {
        assert(last_pos(path, '/') == keep - 1) by {
            if keep > 0 {
                assert(path.take(keep as int).last() == '/');
            }
        }
        assert(url@ =~= path.take(keep as int));
    }
    url.append(rel);
    if q < chars.len() && !contains_char(rel, '?') {
        let query = text_of(&chars, q, chars.len());
        url.append(query.as_str());
    }
    url
}

/// Whether an address is that of a CMAF stream with Common Encryption.
pub open spec fn cbcs_url(url: Seq<char>) -> bool {
    has_text(url, "/cbcs/"@) || has_text(url, "/cenc/"@)
}

/// True for CMAF Common Encryption streams: they are always DRM-protected, so that
/// there is no point in fetching the playlist.
pub fn is_cbcs_url(url: &str) -> (cbcs: bool)
    ensures
        cbcs == cbcs_url(url@),
{
    contains_text(url, "/cbcs/") || contains_text(url, "/cenc/")
}

/// Whether an error marks a stream as one with DRM.
pub open spec fn drm_skip(error: Seq<char>) -> bool {
    has_text(error, "drm:skip"@)
}

/// True for errors that mean that the stream has DRM which cannot be handled, so
/// that the next address is to be tried.
pub fn is_drm_skip(error: &str) -> (skip: bool)
    ensures
        skip == drm_skip(error@),
{
    contains_text(error, "drm:skip")
}

// ----------------------------------------------------------- master playlists

/// One variant of a master playlist.
#[derive(Clone, Debug)]
pub struct VariantStream {
    pub uri: String,
    /// Whether the variant holds I frames only.
    pub is_i_frame: bool,
    /// Height of the picture, where the playlist gives a resolution.
    pub height: Option<u64>,
}

/// What a [`VariantStream`] holds.
pub struct VariantView {
    pub uri: Seq<char>,
    pub is_i_frame: bool,
    pub height: Option<u64>,
}

impl View for VariantStream {
    type V = VariantView;

    open spec fn view(&self) -> VariantView {
        VariantView { uri: self.uri@, is_i_frame: self.is_i_frame, height: self.height }
    }
}

/// The variants of a master playlist.
#[derive(Clone, Debug)]
pub struct MasterPlaylist {
    pub variants: Vec<VariantStream>,
}

impl View for MasterPlaylist {
    type V = Seq<VariantView>;

    open spec fn view(&self) -> Seq<VariantView> {
        self.variants@.map_values(|v: VariantStream| v@)
    }
}

/// The variants that `m3u8_rs` reads out of a text as a master playlist; nothing
/// where the text is not one.
pub uninterp spec fn master_variants(text: Seq<u8>) -> Option<Seq<VariantView>>;

/// What an optional master playlist holds.
pub open spec fn opt_master(master: Option<MasterPlaylist>) -> Option<Seq<VariantView>> {
    match master {
        Some(master) => Some(master@),
        None => None,
    }
}

/// Calls `m3u8_rs::parse_master_playlist` and keeps the address, the kind and the
/// height of each variant, in order. Trusted: the result is a function of the text
/// alone, and it is what [`master_variants`] names.
#[verifier::external_body]
fn parse_master(text: &[u8]) -> (master: Option<MasterPlaylist>)
    ensures
        opt_master(master) == master_variants(text@),
{
    match m3u8_rs::parse_master_playlist(text) {
        Ok((_, list)) => Some(MasterPlaylist {
            variants: list.variants.into_iter().map(|v| VariantStream {
                uri: v.uri,
                is_i_frame: v.is_i_frame,
                height: v.resolution.map(|r| r.height),
            }).collect(),
        }),
        Err(_) => None,
    }
}

/// By which variants are ordered: the height, or 0 where it is not known.
pub open spec fn rank(v: VariantView) -> u64 {
    match v.height {
        Some(h) => h,
        None => 0,
    }
}

/// Whether a variant is no higher than `max_h`.
pub open spec fn fits(v: VariantView, max_h: u32) -> bool {
    !v.is_i_frame && rank(v) <= max_h
}

/// Whether `i` is the choice among variants some of which fit: none that fits is
/// higher, and of those as high none comes later.
pub open spec fn is_highest_fit(vs: Seq<VariantView>, max_h: u32, i: int) -> bool {
    &&& 0 <= i < vs.len()
    &&& fits(vs[i], max_h)
    &&& forall|k: int|
        0 <= k < vs.len() && fits(#[trigger] vs[k], max_h) ==> rank(vs[k]) <= rank(vs[i])
    &&& forall|k: int|
        i < k < vs.len() && fits(#[trigger] vs[k], max_h) ==> rank(vs[k]) < rank(vs[i])
}

/// Whether `i` is the choice where no variant fits: none is lower, and of those as
/// low none comes earlier.
pub open spec fn is_lowest(vs: Seq<VariantView>, i: int) -> bool {
    &&& 0 <= i < vs.len()
    &&& !vs[i].is_i_frame
    &&& forall|k: int|
        0 <= k < vs.len() && !(#[trigger] vs[k]).is_i_frame ==> rank(vs[i]) <= rank(vs[k])
    &&& forall|k: int|
        0 <= k < i && !(#[trigger] vs[k]).is_i_frame ==> rank(vs[i]) < rank(vs[k])
}

/// Whether the variant at `i` is the one to take: the highest up to `max_h`, or the
/// lowest of all where every one is higher. Variants with I frames only do not count.
pub open spec fn is_best(vs: Seq<VariantView>, max_h: u32, i: int) -> bool {
    if exists|k: int| 0 <= k < vs.len() && fits(#[trigger] vs[k], max_h) {
        is_highest_fit(vs, max_h, i)
    } else {
        is_lowest(vs, i)
    }
}

/// Whether there is anything to choose from.
pub open spec fn has_variant(vs: Seq<VariantView>) -> bool {
    exists|k: int| 0 <= k < vs.len() && !(#[trigger] vs[k]).is_i_frame
}

/// Chooses the best variant up to the height `max_h`: its index.
fn best_index(master: &MasterPlaylist, max_h: u32) -> (best: Option<usize>)
    ensures
        best is Some <==> has_variant(master@),
        best matches Some(i) ==> i < master.variants.len() && is_best(master@, max_h, i as int),
{
    let ghost vs = master@;
    let mut high: Option<usize> = None;
    let mut low: Option<usize> = None;
    let mut i: usize = 0;
    while i < master.variants.len()
        invariant
            i <= master.variants.len(),
            vs == master@,
            match high {
                Some(h) => h < i && is_highest_fit(vs.take(i as int), max_h, h as int),
                None => forall|k: int| 0 <= k < i ==> !fits(#[trigger] vs[k], max_h),
            },
            match low {
                Some(l) => l < i && is_lowest(vs.take(i as int), l as int),
                None => forall|k: int| 0 <= k < i ==> (#[trigger] vs[k]).is_i_frame,
            },
        decreases master.variants.len() - i,
    {
        let ghost before = vs.take(i as int);
        let ghost after = vs.take(i + 1);
        assert(forall|k: int| 0 <= k < i ==> before[k] == after[k]);
        assert(after[i as int] == vs[i as int]);
        let v = &master.variants[i];
        assert(v@ == vs[i as int]);
        if !v.is_i_frame {
            let h: u64 = match v.height {
                Some(h) => h,
                None => 0,
            };
            if h <= max_h as u64 {
                high = match high {
                    None => Some(i),
                    Some(k) => {
                        let best: u64 = match master.variants[k].height {
                            Some(h) => h,
                            None => 0,
                        };
                        assert(master.variants@[k as int]@ == vs[k as int]);
                        if best <= h {
                            Some(i)
                        } else {
                            Some(k)
                        }
                    },
                };
            }
            low = match low {
                None => Some(i),
                Some(k) => {
                    let least: u64 = match master.variants[k].height {
                        Some(h) => h,
                        None => 0,
                    };
                    assert(master.variants@[k as int]@ == vs[k as int]);
                    if h < least {
                        Some(i)
                    } else {
                        Some(k)
                    }
                },
            };
        }
        i += 1;
        assert(vs.take(i as int) == after);
    }
    assert(vs.take(i as int) =~= vs);
    match high {
        Some(_) => high,
        None => low,
    }
}

/// Chooses the best variant up to the height `max_h`.
pub fn best_variant(master: &MasterPlaylist, max_h: u32) -> (best: Option<&VariantStream>)
    ensures
        best is Some <==> has_variant(master@),
        best matches Some(v) ==> exists|i: int|
            0 <= i < master@.len() && master@[i] == v@ && is_best(master@, max_h, i),
{
    match best_index(master, max_h) {
        Some(i) => {
            assert(master@[i as int] == master.variants@[i as int]@);
            Some(&master.variants[i])
        },
        None => None,
    }
}

/// No two variants are both the best one.
pub proof fn law_best_variant_is_unique(vs: Seq<VariantView>, max_h: u32, i: int, j: int)
    requires
        is_best(vs, max_h, i),
        is_best(vs, max_h, j),
    ensures
        i == j,
{
    if exists|k: int| 0 <= k < vs.len() && fits(#[trigger] vs[k], max_h) {
        if i < j {
            assert(fits(vs[j], max_h));
            assert(fits(vs[i], max_h));
        } else if j < i {
            assert(fits(vs[i], max_h));
            assert(fits(vs[j], max_h));
        }
    } else {
        assert(!vs[i].is_i_frame && !vs[j].is_i_frame);
    }
}

/// The best variant.
pub open spec fn best_of(vs: Seq<VariantView>, max_h: u32) -> VariantView {
    vs[choose|i: int| is_best(vs, max_h, i)]
}

/// The address of the media playlist to download: that of the best variant, where
/// the text at `url` is a master playlist with variants, or else `url` itself.
pub open spec fn media_url(url: Seq<char>, master: Option<Seq<VariantView>>) -> Seq<char> {
    match master {
        Some(vs) => if has_variant(vs) {
            resolved_url(url, best_of(vs, MAX_HEIGHT).uri)
        } else {
            url
        },
        None => url,
    }
}

/// Gives the address of the media playlist that a parsed master playlist leads to.
pub fn variant_url(url: &str, master: &Option<MasterPlaylist>) -> (media: String)
    ensures
        media@ == media_url(url@, opt_master(*master)),
{
    if let Some(master) = master {
        if let Some(i) = best_index(master, MAX_HEIGHT) {
            proof {
                let chosen = choose|k: int| is_best(master@, MAX_HEIGHT, k);
                law_best_variant_is_unique(master@, MAX_HEIGHT, i as int, chosen);
                assert(master@[i as int] == master.variants@[i as int]@);
            }
            return resolve_url(url, master.variants[i].uri.as_str());
        }
    }
    url.to_owned()
}

/// Gives the address of the media playlist to download for the playlist `text` at `url`.
pub fn select_media_url(url: &str, text: &str) -> (media: String)
    ensures
        media@ == media_url(url@, master_variants(encode_utf8(text@))),
{
    let master = parse_master(text.as_bytes());
    variant_url(url, &master)
}

// ------------------------------------------------------------ media playlists

/// The encryption method that a segment names.
#[derive(Clone, Copy, Debug, PartialEq, Eq, Structural)]
pub enum KeyMethod {
    Unencrypted,
    Aes128,
    SampleAes,
    Other,
}

/// The key that a segment names.
#[derive(Clone, Debug)]
pub struct SegmentKey {
    pub method: KeyMethod,
    pub uri: Option<String>,
    pub iv: Option<String>,
    pub keyformat: Option<String>,
}

/// What a [`SegmentKey`] holds.
pub struct KeyView {
    pub method: KeyMethod,
    pub uri: Option<Seq<char>>,
    pub iv: Option<Seq<char>>,
    pub keyformat: Option<Seq<char>>,
}

impl View for SegmentKey {
    type V = KeyView;

    open spec fn view(&self) -> KeyView {
        KeyView {
            method: self.method,
            uri: opt_text(self.uri),
            iv: opt_text(self.iv),
            keyformat: opt_text(self.keyformat),
        }
    }
}

/// One segment of a media playlist.
#[derive(Clone, Debug)]
pub struct MediaSegment {
    pub uri: String,
    pub key: Option<SegmentKey>,
}

/// What a [`MediaSegment`] holds.
pub struct SegmentView {
    pub uri: Seq<char>,
    pub key: Option<KeyView>,
}

impl View for MediaSegment {
    type V = SegmentView;

    open spec fn view(&self) -> SegmentView {
        SegmentView {
            uri: self.uri@,
            key: match self.key {
                Some(key) => Some(key@),
                None => None,
            },
        }
    }
}

/// The segments of a media playlist and the number of the first of them.
#[derive(Clone, Debug)]
pub struct MediaPlaylist {
    pub media_sequence: u64,
    pub segments: Vec<MediaSegment>,
}

/// What a [`MediaPlaylist`] holds.
pub struct PlaylistView {
    pub media_sequence: u64,
    pub segments: Seq<SegmentView>,
}

impl View for MediaPlaylist {
    type V = PlaylistView;

    open spec fn view(&self) -> PlaylistView {
        PlaylistView {
            media_sequence: self.media_sequence,
            segments: self.segments@.map_values(|s: MediaSegment| s@),
        }
    }
}

/// What `m3u8_rs` reads out of a text as a media playlist, or how it describes what
/// is wrong with the text.
pub uninterp spec fn media_parse(text: Seq<u8>) -> Result<PlaylistView, Seq<char>>;

/// What the outcome of parsing holds.
pub open spec fn media_outcome(outcome: Result<MediaPlaylist, String>) -> Result<
    PlaylistView,
    Seq<char>,
> {
    match outcome {
        Ok(list) => Ok(list@),
        Err(e) => Err(e@),
    }
}

/// Calls `m3u8_rs::parse_media_playlist` and keeps the sequence number and, of each
/// segment in order, the address and the key; of an error, its debug text. Trusted:
/// the result is a function of the text alone, and it is what [`media_parse`] names.
#[verifier::external_body]
fn parse_media(text: &[u8]) -> (outcome: Result<MediaPlaylist, String>)
    ensures
        media_outcome(outcome) == media_parse(text@),
{
    let list = match m3u8_rs::parse_media_playlist(text) {
        Ok((_, list)) => list,
        Err(e) => return Err(format!("{e:?}")),
    };
    let segments = list.segments.into_iter().map(|s| MediaSegment { uri: s.uri, key: s.key.map(|k|
        SegmentKey { method: match k.method {
            m3u8_rs::KeyMethod::None => KeyMethod::Unencrypted,
            m3u8_rs::KeyMethod::AES128 => KeyMethod::Aes128,
            m3u8_rs::KeyMethod::SampleAES => KeyMethod::SampleAes,
            m3u8_rs::KeyMethod::Other(_) => KeyMethod::Other,
        }, uri: k.uri, iv: k.iv, keyformat: k.keyformat }) });
    Ok(MediaPlaylist { media_sequence: list.media_sequence, segments: segments.collect() })
}

/// Why a stream with sample encryption is passed over.
#[derive(Clone, Copy, Debug, PartialEq, Eq, Structural)]
pub enum DrmRefusal {
    /// FairPlay: the key needs Apple devices.
    FairPlay,
    /// There is no address to get the key from.
    NoKeyUri,
}

impl DrmRefusal {
    /// The text of the error.
    pub open spec fn text(self) -> Seq<char> {
        match self {
            DrmRefusal::FairPlay => "drm:skip FairPlay (Apple-only) on this HLS stream"@,
            DrmRefusal::NoKeyUri => "drm:skip SAMPLE-AES has no key URI"@,
        }
    }

    /// Gives the text of the error.
    pub fn message(&self) -> (s: String)
        ensures
            s@ == self.text(),
    {
        match self {
            DrmRefusal::FairPlay => "drm:skip FairPlay (Apple-only) on this HLS stream".to_owned(),
            DrmRefusal::NoKeyUri => "drm:skip SAMPLE-AES has no key URI".to_owned(),
        }
    }
}

/// What to do about the encryption of a stream.
#[derive(Debug)]
pub enum KeyPlan {
    /// The segments are not encrypted.
    Clear,
    /// The key is to be fetched.
    Fetch { method: EncMethod, url: String, iv: Option<String> },
    /// The stream cannot be decrypted.
    Refuse(DrmRefusal),
}

/// What a [`KeyPlan`] holds.
pub enum KeyPlanView {
    Clear,
    Fetch { method: EncMethod, url: Seq<char>, iv: Option<Seq<char>> },
    Refuse(DrmRefusal),
}

impl View for KeyPlan {
    type V = KeyPlanView;

    open spec fn view(&self) -> KeyPlanView {
        match self {
            KeyPlan::Clear => KeyPlanView::Clear,
            KeyPlan::Fetch { method, url, iv } => KeyPlanView::Fetch {
                method: *method,
                url: url@,
                iv: opt_text(*iv),
            },
            KeyPlan::Refuse(r) => KeyPlanView::Refuse(*r),
        }
    }
}

/// The text, or an empty one.
pub open spec fn text_or_empty(s: Option<Seq<char>>) -> Seq<char> {
    match s {
        Some(s) => s,
        None => seq![],
    }
}

/// Whether a key is handed out by FairPlay.
pub open spec fn is_fairplay(key: KeyView) -> bool {
    has_text(text_or_empty(key.keyformat), "com.apple.streamingkeydelivery"@) || begins_with(
        text_or_empty(key.uri),
        "skd://"@,
    )
}

/// What one segment says of the encryption of the stream, if anything.
pub open spec fn segment_key_plan(url: Seq<char>, segment: SegmentView) -> Option<KeyPlanView> {
    match segment.key {
        None => None,
        Some(key) => match key.method {
            KeyMethod::Aes128 => match key.uri {
                Some(uri) => Some(
                    KeyPlanView::Fetch {
                        method: EncMethod::Aes128,
                        url: resolved_url(url, uri),
                        iv: key.iv,
                    },
                ),
                None => None,
            },
            KeyMethod::SampleAes => if is_fairplay(key) {
                Some(KeyPlanView::Refuse(DrmRefusal::FairPlay))
            } else {
                match key.uri {
                    Some(uri) => Some(
                        KeyPlanView::Fetch {
                            method: EncMethod::SampleAes,
                            url: resolved_url(url, uri),
                            iv: key.iv,
                        },
                    ),
                    None => Some(KeyPlanView::Refuse(DrmRefusal::NoKeyUri)),
                }
            },
            _ => None,
        },
    }
}

/// What the first segment that says anything of the encryption says.
pub open spec fn key_plan(url: Seq<char>, segments: Seq<SegmentView>) -> KeyPlanView
    decreases segments.len(),
{
    if segments.len() == 0 {
        KeyPlanView::Clear
    } else {
        match segment_key_plan(url, segments[0]) {
            Some(plan) => plan,
            None => key_plan(url, segments.skip(1)),
        }
    }
}

/// What an optional key plan holds.
pub open spec fn opt_plan(plan: Option<KeyPlan>) -> Option<KeyPlanView> {
    match plan {
        Some(plan) => Some(plan@),
        None => None,
    }
}

fn plan_of_segment(url: &str, segment: &MediaSegment) -> (plan: Option<KeyPlan>)
    ensures
        opt_plan(plan) == segment_key_plan(url@, segment@),
{
    let key = match &segment.key {
        Some(key) => key,
        None => return None,
    };
    match key.method {
        KeyMethod::Aes128 => match &key.uri {
            Some(uri) => Some(
                KeyPlan::Fetch {
                    method: EncMethod::Aes128,
                    url: resolve_url(url, uri.as_str()),
                    iv: key.iv.clone(),
                },
            ),
            None => None,
        },
        KeyMethod::SampleAes => {
            let apple: bool = match &key.keyformat {
                Some(format) => contains_text(format.as_str(), "com.apple.streamingkeydelivery"),
                None => contains_text("", "com.apple.streamingkeydelivery"),
            };
            let skd: bool = match &key.uri {
                Some(uri) => starts_with_text(uri.as_str(), "skd://"),
                None => starts_with_text("", "skd://"),
            };
            proof {
                reveal_strlit("");
                assert(""@ =~= seq![]);
            }
            if apple || skd {
                return Some(KeyPlan::Refuse(DrmRefusal::FairPlay));
            }
            match &key.uri {
                Some(uri) => Some(
                    KeyPlan::Fetch {
                        method: EncMethod::SampleAes,
                        url: resolve_url(url, uri.as_str()),
                        iv: key.iv.clone(),
                    },
                ),
                None => Some(KeyPlan::Refuse(DrmRefusal::NoKeyUri)),
            }
        },
        _ => None,
    }
}

/// Finds out how the segments of a playlist at `url` are encrypted.
pub fn plan_key(url: &str, playlist: &MediaPlaylist) -> (plan: KeyPlan)
    ensures
        plan@ == key_plan(url@, playlist@.segments),
{
    let ghost all = playlist@.segments;
    let mut i: usize = 0;
    assert(all.skip(0) =~= all);
    while i < playlist.segments.len()
        invariant
            i <= playlist.segments.len(),
            all == playlist@.segments,
            key_plan(url@, all) == key_plan(url@, all.skip(i as int)),
        decreases playlist.segments.len() - i,
    {
        let ghost rest = all.skip(i as int);
        assert(rest[0] == playlist.segments@[i as int]@);
        assert(rest.skip(1) =~= all.skip(i + 1));
        if let Some(plan) = plan_of_segment(url, &playlist.segments[i]) {
            return plan;
        }
        i += 1;
    }
    KeyPlan::Clear
}

/// The addresses of the segments of a playlist at `url`.
pub open spec fn segment_urls(url: Seq<char>, segments: Seq<SegmentView>) -> Seq<Seq<char>> {
    segments.map_values(|s: SegmentView| resolved_url(url, s.uri))
}

fn urls_of(url: &str, playlist: &MediaPlaylist) -> (urls: Vec<String>)
    ensures
        texts(urls@) == segment_urls(url@, playlist@.segments),
{
    let mut urls: Vec<String> = Vec::new();
    let mut i: usize = 0;
    while i < playlist.segments.len()
        invariant
            i <= playlist.segments.len(),
            texts(urls@) == segment_urls(url@, playlist@.segments.take(i as int)),
        decreases playlist.segments.len() - i,
    {
        let ghost before = urls@;
        let ghost segments = playlist@.segments;
        let next = resolve_url(url, playlist.segments[i].uri.as_str());
        proof {
            lemma_texts_push(before, next);
            assert(segments[i as int] == playlist.segments@[i as int]@);
            assert(segments.take(i + 1) =~= segments.take(i as int).push(segments[i as int]));
            assert(segment_urls(url@, segments.take(i + 1)) =~= segment_urls(
                url@,
                segments.take(i as int),
            ).push(next@));
        }
        urls.push(next);
        i += 1;
    }
    assert(playlist@.segments.take(i as int) =~= playlist@.segments);
    urls
}

/// Everything that the download of a media playlist needs.
#[derive(Debug)]
pub struct MediaPlan {
    /// The addresses of the segments, in order.
    pub urls: Vec<String>,
    pub media_sequence: u64,
    pub key: KeyPlan,
}

/// Whether `plan` is what the playlist `list` at `url` asks for.
pub open spec fn plans(plan: MediaPlan, url: Seq<char>, list: PlaylistView) -> bool {
    &&& texts(plan.urls@) == segment_urls(url, list.segments)
    &&& plan.media_sequence == list.media_sequence
    &&& plan.key@ == key_plan(url, list.segments)
}

/// Plans the download of a parsed media playlist at `url`.
pub fn plan_playlist(url: &str, playlist: &MediaPlaylist) -> (plan: MediaPlan)
    ensures
        plans(plan, url@, playlist@),
{
    MediaPlan {
        urls: urls_of(url, playlist),
        media_sequence: playlist.media_sequence,
        key: plan_key(url, playlist),
    }
}

/// Whether `plan` is what is made of a playlist at `url` that was read, or that could not
/// be read.
pub open spec fn is_plan_of(
    plan: Result<MediaPlan, String>,
    url: Seq<char>,
    read: Result<PlaylistView, Seq<char>>,
) -> bool {
    match read {
        Ok(list) => plan matches Ok(p) && plans(p, url, list),
        Err(e) => plan matches Err(m) && m@ == "parse media playlist: "@ + e,
    }
}

/// Plans the download of the media playlist `text` at `url`, or says what is wrong
/// with the text.
pub fn plan_media(url: &str, text: &str) -> (plan: Result<MediaPlan, String>)
    ensures
        match media_parse(encode_utf8(text@)) {
            Ok(list) => plan matches Ok(p) && plans(p, url@, list),
            Err(e) => plan matches Err(m) && m@ == "parse media playlist: "@ + e,
        },
        is_plan_of(plan, url@, media_parse(encode_utf8(text@))),
{
    match parse_media(text.as_bytes()) {
        Ok(list) => Ok(plan_playlist(url, &list)),
        Err(e) => {
            let mut m = "parse media playlist: ".to_owned();
            m.append(e.as_str());
            Err(m)
        },
    }
}

/// With which method, key and IV the segments are decrypted when the key has been fetched.
pub open spec fn key_used(
    method: EncMethod,
    iv: Option<Seq<char>>,
    fetched: Result<Seq<u8>, Seq<char>>,
) -> Result<(EncMethod, Seq<u8>, Option<Seq<u8>>), Seq<char>> {
    match fetched {
        Ok(key) => Ok(
            (
                method,
                key,
                match iv {
                    Some(text) => Some(hex_iv(text)),
                    None => None,
                },
            ),
        ),
        Err(error) => Err(
            match method {
                EncMethod::Aes128 => error,
                EncMethod::SampleAes => "drm:skip SAMPLE-AES key fetch: "@ + error,
            },
        ),
    }
}

/// What the outcome of fetching a key holds.
pub open spec fn fetched_view(fetched: Result<Vec<u8>, String>) -> Result<Seq<u8>, Seq<char>> {
    match fetched {
        Ok(key) => Ok(key@),
        Err(e) => Err(e@),
    }
}

/// What is known of the encryption, or why nothing is.
pub open spec fn info_view(info: Result<EncryptionInfo, String>) -> Result<
    (EncMethod, Seq<u8>, Option<Seq<u8>>),
    Seq<char>,
> {
    match info {
        Ok(e) => Ok(
            (
                e.method,
                e.key@,
                match e.iv {
                    Some(iv) => Some(iv@),
                    None => None,
                },
            ),
        ),
        Err(m) => Err(m@),
    }
}

/// How the segments are to be decrypted once the key has been fetched.
pub fn use_key(method: EncMethod, iv: &Option<String>, fetched: Result<Vec<u8>, String>) -> (info:
    Result<EncryptionInfo, String>)
    requires
        fetched is Ok && iv is Some ==> iv_readable(iv->0@),
    ensures
        info_view(info) == key_used(method, opt_text(*iv), fetched_view(fetched)),
        match fetched {
            Ok(key) => {
                &&& info matches Ok(e)
                &&& e.method == method
                &&& e.key@ == key@
                &&& match iv {
                    Some(text) => e.iv matches Some(bytes) && bytes@ == hex_iv(text@),
                    None => e.iv is None,
                }
            },
            Err(error) => {
                &&& info matches Err(m)
                &&& m@ == match method {
                    EncMethod::Aes128 => error@,
                    EncMethod::SampleAes => "drm:skip SAMPLE-AES key fetch: "@ + error@,
                }
            },
        },
{
    match fetched {
        Ok(key) => {
            let iv: Option<[u8; 16]> = match iv {
                Some(text) => Some(parse_hex_iv(text.as_str())),
                None => None,
            };
            Ok(EncryptionInfo { method, key, iv })
        },
        Err(error) => match method {
            EncMethod::Aes128 => Err(error),
            EncMethod::SampleAes => {
                let mut m = "drm:skip SAMPLE-AES key fetch: ".to_owned();
                m.append(error.as_str());
                Err(m)
            },
        },
    }
}

/// A refusal, and a key that cannot be fetched for sample encryption, let the next
/// address be tried.
pub proof fn law_drm_errors_are_skipped(refusal: DrmRefusal, error: Seq<char>)
    ensures
        drm_skip(refusal.text()),
        drm_skip("drm:skip SAMPLE-AES key fetch: "@ + error),
{
    reveal_strlit("drm:skip");
    reveal_strlit("drm:skip FairPlay (Apple-only) on this HLS stream");
    reveal_strlit("drm:skip SAMPLE-AES has no key URI");
    reveal_strlit("drm:skip SAMPLE-AES key fetch: ");
    let t = refusal.text();
    let u = "drm:skip SAMPLE-AES key fetch: "@ + error;
    assert(t.subrange(0, 8) =~= "drm:skip"@);
    assert(u.subrange(0, 8) =~= "drm:skip"@);
    assert(stands_at(t, "drm:skip"@, 0));
    assert(stands_at(u, "drm:skip"@, 0));
}

// ------------------------------------------------------------------------ laws

/// An address with a scheme of its own means itself, wherever it stands.
pub proof fn law_full_addresses_stay(base: Seq<char>, rest: Seq<char>)
    ensures
        resolved_url(base, "http://"@ + rest) == "http://"@ + rest,
        resolved_url(base, "https://"@ + rest) == "https://"@ + rest,
{
    let a = "http://"@ + rest;
    let b = "https://"@ + rest;
    assert(a.subrange(0, "http://"@.len() as int) =~= "http://"@);
    assert(b.subrange(0, "https://"@.len() as int) =~= "https://"@);
}

proof fn lemma_last_pos_is(s: Seq<char>, c: char, i: int)
    requires
        -1 <= i < s.len(),
        i >= 0 ==> s[i] == c,
        forall|k: int| i < k < s.len() ==> #[trigger] s[k] != c,
    ensures
        last_pos(s, c) == i,
    decreases s.len(),
{
    if s.len() > 0 && i < s.len() - 1 {
        assert(s[s.len() - 1] != c);
        let before = s.drop_last();
        assert forall|k: int| i < k < before.len() implies #[trigger] before[k] != c by {
            assert(before[k] == s[k]);
        }
        lemma_last_pos_is(before, c, i);
    }
}

/// Any other address takes the place of the last name in the address of the playlist. The
/// query of the playlist, with its question mark, is carried over exactly where the address
/// has none of its own.
pub proof fn law_other_addresses_lie_beside_the_playlist(
    dir: Seq<char>,
    file: Seq<char>,
    query: Seq<char>,
    rel: Seq<char>,
)
    requires
        !dir.contains('?'),
        !file.contains('?') && !file.contains('/'),
        !begins_with(rel, "http://"@) && !begins_with(rel, "https://"@),
    ensures
        resolved_url(dir + seq!['/'] + file, rel) == dir + seq!['/'] + rel,
        resolved_url(file, rel) == rel,
        resolved_url(dir + seq!['/'] + file + seq!['?'] + query, rel) == if rel.contains('?') {
            dir + seq!['/'] + rel
        } else {
            dir + seq!['/'] + rel + seq!['?'] + query
        },
{
    let path = dir + seq!['/'] + file;
    let whole = path + seq!['?'] + query;
    let n = path.len() as int;
    assert forall|k: int| 0 <= k < n implies #[trigger] path[k] != '?' by {
        if k < dir.len() {
            assert(dir.contains(dir[k]));
        } else if k > dir.len() {
            assert(file.contains(file[k - dir.len() - 1]));
        }
    }
    assert forall|k: int| dir.len() < k < n implies #[trigger] path[k] != '/' by {
        assert(file.contains(file[k - dir.len() - 1]));
    }
    assert forall|k: int| 0 <= k < file.len() implies #[trigger] file[k] != '?' && file[k]
        != '/' by {
        assert(file.contains(file[k]));
    }
    lemma_first_pos_is(path, '?', n);
    lemma_first_pos_is(file, '?', file.len() as int);
    assert forall|k: int| 0 <= k < n implies #[trigger] whole[k] != '?' by {
        assert(whole[k] == path[k]);
    }
    lemma_first_pos_is(whole, '?', n);
    lemma_last_pos_is(path, '/', dir.len() as int);
    lemma_last_pos_is(file, '/', -1);
    assert(path.take(n) =~= path);
    assert(whole.take(n) =~= path);
    assert(whole.skip(n) =~= seq!['?'] + query);
    assert(file.take(file.len() as int) =~= file);
    assert(path.take(dir.len() as int + 1) =~= dir + seq!['/']);
    assert(file.take(0) + rel =~= rel);
    assert((dir + seq!['/'] + rel) + (seq!['?'] + query) =~= dir + seq!['/'] + rel + seq!['?']
        + query);
}

/// An address is one of Common Encryption exactly where `/cbcs/` or `/cenc/` stands in it.
pub proof fn law_protected_addresses_are_recognised(before: Seq<char>, after: Seq<char>, url: Seq<char>)
    ensures
        cbcs_url(before + "/cbcs/"@ + after),
        cbcs_url(before + "/cenc/"@ + after),
        cbcs_url(url) ==> has_text(url, "/cbcs/"@) || has_text(url, "/cenc/"@),
{
    let i = before.len() as int;
    let a = before + "/cbcs/"@ + after;
    let b = before + "/cenc/"@ + after;
    assert(a.subrange(i, i + "/cbcs/"@.len()) =~= "/cbcs/"@);
    assert(b.subrange(i, i + "/cenc/"@.len()) =~= "/cenc/"@);
    assert(stands_at(a, "/cbcs/"@, i));
    assert(stands_at(b, "/cenc/"@, i));
}

/// Errors without the mark are none to go on after.
pub proof fn law_unmarked_errors_are_not_skipped(error: Seq<char>)
    requires
        !has_text(error, "drm:skip"@),
    ensures
        !drm_skip(error),
{
}

/// The height by which a variant is compared with others.
pub open spec fn picture_height(v: VariantView) -> int {
    if v.height is Some {
        v.height->0 as int
    } else {
        0
    }
}

/// The variant that is taken is a proper one. As long as any proper variant is no higher
/// than the limit, so is the one that is taken, and no other such variant is higher; of
/// those as high it is the last one. Otherwise no variant is lower, and of those as low it
/// is the first one.
pub proof fn law_the_best_variant_is_taken(vs: Seq<VariantView>, max_h: u32, i: int, k: int)
    requires
        is_best(vs, max_h, i),
        0 <= k < vs.len(),
        !vs[k].is_i_frame,
    ensures
        0 <= i < vs.len(),
        !vs[i].is_i_frame,
        picture_height(vs[k]) <= max_h ==> {
            &&& picture_height(vs[i]) <= max_h
            &&& picture_height(vs[k]) <= picture_height(vs[i])
            &&& picture_height(vs[k]) == picture_height(vs[i]) ==> k <= i
        },
        picture_height(vs[i]) > max_h ==> {
            &&& picture_height(vs[i]) <= picture_height(vs[k])
            &&& picture_height(vs[k]) == picture_height(vs[i]) ==> i <= k
        },
{
    if picture_height(vs[k]) <= max_h {
        assert(fits(vs[k], max_h));
    }
    if !(exists|j: int| 0 <= j < vs.len() && fits(#[trigger] vs[j], max_h)) {
        assert(!fits(vs[i], max_h));
    }
}

/// A playlist that has no proper variants is itself the one to download; one that has any
/// leads to the address of the best of them up to 1080 lines.
pub proof fn law_master_playlists_lead_to_their_best_variant(
    url: Seq<char>,
    vs: Seq<VariantView>,
    i: int,
)
    ensures
        media_url(url, None) == url,
        (forall|k: int| 0 <= k < vs.len() ==> (#[trigger] vs[k]).is_i_frame) ==> media_url(
            url,
            Some(vs),
        ) == url,
        is_best(vs, 1080, i) ==> media_url(url, Some(vs)) == resolved_url(url, vs[i].uri),
{
    if is_best(vs, 1080, i) {
        let chosen = choose|k: int| is_best(vs, MAX_HEIGHT, k);
        law_best_variant_is_unique(vs, 1080, i, chosen);
        if exists|k: int| 0 <= k < vs.len() && fits(#[trigger] vs[k], 1080) {
            assert(fits(vs[i], 1080));
        }
        assert(!vs[i].is_i_frame);
    }
}

/// Whether a segment decides how the stream is encrypted: it names a key with an address
/// for the whole segments, or any key for the samples.
pub open spec fn decides(segment: SegmentView) -> bool {
    &&& segment.key matches Some(key)
    &&& (key.method == KeyMethod::Aes128 && key.uri is Some) || key.method == KeyMethod::SampleAes
}

/// Where no segment decides, the stream is not encrypted.
pub proof fn law_streams_without_keys_are_clear(url: Seq<char>, segments: Seq<SegmentView>)
    requires
        forall|k: int| 0 <= k < segments.len() ==> !decides(#[trigger] segments[k]),
    ensures
        key_plan(url, segments) == KeyPlanView::Clear,
    decreases segments.len(),
{
    if segments.len() > 0 {
        assert(!decides(segments[0]));
        let rest = segments.skip(1);
        assert forall|k: int| 0 <= k < rest.len() implies !decides(#[trigger] rest[k]) by {
            assert(rest[k] == segments[k + 1]);
        }
        law_streams_without_keys_are_clear(url, rest);
    }
}

/// The first segment that decides is the one that counts: its key is fetched from its
/// address, seen from the playlist, and used with its method and its IV attribute. A
/// stream with sample encryption is refused exactly where its key is one of FairPlay, by
/// its format or its address, or has no address.
pub proof fn law_the_first_key_counts(url: Seq<char>, segments: Seq<SegmentView>, k: int)
    requires
        0 <= k < segments.len(),
        decides(segments[k]),
        forall|j: int| 0 <= j < k ==> !decides(#[trigger] segments[j]),
    ensures
        ({
            let key = segments[k].key->0;
            let apple = (key.keyformat is Some && has_text(
                key.keyformat->0,
                "com.apple.streamingkeydelivery"@,
            )) || (key.uri is Some && begins_with(key.uri->0, "skd://"@));
            if key.method == KeyMethod::SampleAes && apple {
                key_plan(url, segments) == KeyPlanView::Refuse(DrmRefusal::FairPlay)
            } else if key.uri is None {
                key_plan(url, segments) == KeyPlanView::Refuse(DrmRefusal::NoKeyUri)
            } else {
                key_plan(url, segments) == (KeyPlanView::Fetch {
                    method: if key.method == KeyMethod::SampleAes {
                        EncMethod::SampleAes
                    } else {
                        EncMethod::Aes128
                    },
                    url: resolved_url(url, key.uri->0),
                    iv: key.iv,
                })
            }
        }),
    decreases k,
{
    if k > 0 {
        assert(!decides(segments[0]));
        let rest = segments.skip(1);
        assert(rest[k - 1] == segments[k]);
        assert forall|j: int| 0 <= j < k - 1 implies !decides(#[trigger] rest[j]) by {
            assert(rest[j] == segments[j + 1]);
        }
        law_the_first_key_counts(url, rest, k - 1);
    } else {
        let key = segments[0].key->0;
        reveal_strlit("com.apple.streamingkeydelivery");
        reveal_strlit("skd://");
        if key.keyformat is None {
            assert forall|i: int| !stands_at(
                text_or_empty(key.keyformat),
                "com.apple.streamingkeydelivery"@,
                i,
            ) by {}
        }
    }
}

/// Whatever key is fetched, it is used with the IV and the address that stand beside its
/// method in the playlist: those of the first segment that decides.
pub proof fn law_keys_keep_their_iv(url: Seq<char>, segments: Seq<SegmentView>)
    requires
        key_plan(url, segments) is Fetch,
    ensures
        exists|k: int| #[trigger]
            plans_key(url, segments, k, key_plan(url, segments)) && forall|j: int|
                0 <= j < k ==> !decides(#[trigger] segments[j]),
    decreases segments.len(),
{
    if segments.len() > 0 {
        if decides(segments[0]) {
            law_the_first_key_counts(url, segments, 0);
            assert(plans_key(url, segments, 0, key_plan(url, segments)));
        } else {
            let rest = segments.skip(1);
            law_keys_keep_their_iv(url, rest);
            let k = choose|k: int| #[trigger]
                plans_key(url, rest, k, key_plan(url, rest)) && forall|j: int|
                    0 <= j < k ==> !decides(#[trigger] rest[j]);
            assert(rest[k] == segments[k + 1]);
            assert(plans_key(url, segments, k + 1, key_plan(url, segments)));
            assert forall|j: int| 0 <= j < k + 1 implies !decides(#[trigger] segments[j]) by {
                if j > 0 {
                    assert(rest[j - 1] == segments[j]);
                }
            }
        }
    }
}

/// Whether `plan` is to fetch the key that segment `k` names.
pub open spec fn plans_key(
    url: Seq<char>,
    segments: Seq<SegmentView>,
    k: int,
    plan: KeyPlanView,
) -> bool {
    &&& 0 <= k < segments.len()
    &&& segments[k].key matches Some(key)
    &&& plan matches KeyPlanView::Fetch { method, url: address, iv }
    &&& method == EncMethod::SampleAes <==> key.method == KeyMethod::SampleAes
    &&& method == EncMethod::Aes128 <==> key.method == KeyMethod::Aes128
    &&& key.uri matches Some(uri)
    &&& address == resolved_url(url, uri)
    &&& iv == key.iv
}

/// A plan has the address of every segment of the playlist, in order, and its number of
/// the first segment and its key.
pub proof fn law_plans_have_every_segment(plan: MediaPlan, url: Seq<char>, list: PlaylistView, k: int)
    requires
        plans(plan, url, list),
    ensures
        plan.urls@.len() == list.segments.len(),
        0 <= k < list.segments.len() ==> plan.urls@[k]@ == resolved_url(url, list.segments[k].uri),
        plan.media_sequence == list.media_sequence,
        plan.key@ == key_plan(url, list.segments),
{
    assert(texts(plan.urls@).len() == plan.urls@.len());
    if 0 <= k < list.segments.len() {
        assert(texts(plan.urls@)[k] == plan.urls@[k]@);
    }
}

/// A key that was fetched is used as it came, with the IV that is written in the playlist.
/// A key that could not be fetched is an error; for sample encryption it is one that lets
/// the next address be tried, and that tells the reason.
pub proof fn law_fetched_keys_are_used(
    method: EncMethod,
    iv: Seq<char>,
    key: Seq<u8>,
    error: Seq<char>,
)
    ensures
        key_used(method, Some(iv), Ok(key)) == Ok::<(EncMethod, Seq<u8>, Option<Seq<u8>>), Seq<char>>(
            (method, key, Some(hex_iv(iv))),
        ),
        key_used(method, None, Ok(key)) == Ok::<(EncMethod, Seq<u8>, Option<Seq<u8>>), Seq<char>>(
            (method, key, None),
        ),
        key_used(EncMethod::Aes128, Some(iv), Err(error)) == Err::<
            (EncMethod, Seq<u8>, Option<Seq<u8>>),
            Seq<char>,
        >(error),
        key_used(EncMethod::SampleAes, Some(iv), Err(error)) matches Err(m) && drm_skip(m)
            && has_text(m, error),
{
    law_drm_errors_are_skipped(DrmRefusal::NoKeyUri, error);
    let lead = "drm:skip SAMPLE-AES key fetch: "@;
    let m = lead + error;
    assert(m.subrange(lead.len() as int, (lead.len() + error.len()) as int) =~= error);
    assert(stands_at(m, error, lead.len() as int));
}

/// A playlist that could not be read is an error that tells the reason, and one that could
/// is planned.
pub proof fn law_unreadable_playlists_are_errors(
    plan: Result<MediaPlan, String>,
    url: Seq<char>,
    read: Result<PlaylistView, Seq<char>>,
)
    requires
        is_plan_of(plan, url, read),
    ensures
        plan is Ok <==> read is Ok,
        read matches Ok(list) ==> plan->Ok_0.urls@.len() == list.segments.len()
            && plan->Ok_0.media_sequence == list.media_sequence && plan->Ok_0.key@ == key_plan(
            url,
            list.segments,
        ),
        read matches Err(e) ==> plan->Err_0@ == "parse media playlist: "@ + e,
{
    if let Ok(list) = read {
        law_plans_have_every_segment(plan->Ok_0, url, list, 0);
    }
}

/// An address beside a playlist whose own address is a name and a query is that name's
/// replacement, with the query carried over in the same way.
pub proof fn law_addresses_beside_a_bare_name(file: Seq<char>, query: Seq<char>, rel: Seq<char>)
    requires
        !file.contains('?') && !file.contains('/'),
        !begins_with(rel, "http://"@) && !begins_with(rel, "https://"@),
    ensures
        resolved_url(file + seq!['?'] + query, rel) == if rel.contains('?') {
            rel
        } else {
            rel + seq!['?'] + query
        },
{
    let base = file + seq!['?'] + query;
    let n = file.len() as int;
    assert forall|k: int| 0 <= k < n implies #[trigger] base[k] != '?' by {
        assert(file.contains(file[k]));
    }
    lemma_first_pos_is(base, '?', n);
    assert(base.take(n) =~= file);
    assert forall|k: int| -1 < k < file.len() implies #[trigger] file[k] != '/' by {
        assert(file.contains(file[k]));
    }
    lemma_last_pos_is(file, '/', -1);
    assert(file.take(0) + rel =~= rel);
    assert(base.skip(n) =~= seq!['?'] + query);
    assert(rel + (seq!['?'] + query) =~= rel + seq!['?'] + query);
}

} // verus!
