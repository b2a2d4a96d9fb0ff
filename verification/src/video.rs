//! Video embeds in markdown: `{{video URL [width=N] [height=N]}}` paragraphs,
//! trusted-host detection, YouTube id extraction, and the URLs and relay page
//! the renderer uses.
use vstd::prelude::*;
use crate::text::{
    chars_of, string_of, append, concat, eq, trim, trim_of, lower, to_lower, starts_with,
    starts_with_exec, ends_with, ends_with_exec, find_char, find_char_exec, contains_char_exec,
    split, split_char, words, split_ws, lines, lines_of, join, join_exec, decimal, decimal_exec,
    parse_unsigned, parse_unsigned_exec, slice_of, is_ascii_alnum, is_ascii_alnum_char,
    lemma_find_char_from_props, is_ws, lemma_decimal_digits, lemma_parse_decimal, lemma_words_cons,
    lemma_words_skip_leading_ws, lemma_trim_noop, lemma_trim_after_space, lemma_lines_no_newline,
    lemma_lines_of_join, lemma_lines_last_nonempty, lines_from,
};

verus! {

// ─────────────────────────────────────────────────────────────────────────────
// URL parsing (url crate)
// ─────────────────────────────────────────────────────────────────────────────

/// The parts of a parsed URL that embed detection reads.
#[derive(Debug, Clone)]
pub struct UrlParts {
    pub scheme: String,
    pub host: Option<String>,
    /// The normalized serialization (`Url::as_str`).
    pub serialized: String,
    pub path: String,
    /// Decoded `key=value` pairs of the query, in order.
    pub query: Vec<(String, String)>,
}

pub struct UrlPartsView {
    pub scheme: Seq<char>,
    pub host: Option<Seq<char>>,
    pub serialized: Seq<char>,
    pub path: Seq<char>,
    pub query: Seq<(Seq<char>, Seq<char>)>,
}

pub open spec fn url_parts_view(p: UrlParts) -> UrlPartsView {
    UrlPartsView {
        scheme: p.scheme@,
        host: match p.host {
            Some(h) => Some(h@),
            None => None,
        },
        serialized: p.serialized@,
        path: p.path@,
        query: p.query@.map_values(|q: (String, String)| (q.0@, q.1@)),
    }
}

/// What `url::Url::parse` makes of a string: `None` when it is not a valid
/// absolute URL.
pub uninterp spec fn spec_url_parse(raw: Seq<char>) -> Option<UrlPartsView>;

/// `url::Url::parse`, read into plain parts (scheme, host, serialization,
/// path, decoded query pairs). The parts are a function of the input alone.
#[verifier::external_body]
fn parse_url(raw: &str) -> (r: Option<UrlParts>)
    ensures
        match r {
            Some(p) => spec_url_parse(raw@) == Some(url_parts_view(p)),
            None => spec_url_parse(raw@) is None,
        },
{
    match url::Url::parse(raw) {
        Ok(u) => Some(UrlParts {
            scheme: u.scheme().to_string(),
            host: u.host_str().map(|h| h.to_string()),
            serialized: u.as_str().to_string(),
            path: u.path().to_string(),
            query: u.query_pairs().map(|(k, v)| (k.into_owned(), v.into_owned())).collect(),
        }),
        Err(_) => None,
    }
}

// ─────────────────────────────────────────────────────────────────────────────
// Embed metadata
// ─────────────────────────────────────────────────────────────────────────────

#[derive(Debug, Clone, Copy, PartialEq, Eq, Structural)]
pub enum VideoProvider {
    YouTube,
    Unknown,
}

/// Parsed video embed metadata.
#[derive(Debug, Clone)]
pub struct VideoEmbedInfo {
    pub provider: VideoProvider,
    pub video_id: Option<String>,
    /// Normalized URL.
    pub url: String,
    /// Trusted hosts may use the interactive player.
    pub trusted: bool,
    pub width: Option<u32>,
    pub height: Option<u32>,
    /// The markdown source the embed came from.
    pub source_text: String,
}

pub struct InfoView {
    pub provider: VideoProvider,
    pub video_id: Option<Seq<char>>,
    pub url: Seq<char>,
    pub trusted: bool,
    pub width: Option<u32>,
    pub height: Option<u32>,
    pub source_text: Seq<char>,
}

pub open spec fn info_view(i: VideoEmbedInfo) -> InfoView {
    InfoView {
        provider: i.provider,
        video_id: match i.video_id {
            Some(v) => Some(v@),
            None => None,
        },
        url: i.url@,
        trusted: i.trusted,
        width: i.width,
        height: i.height,
        source_text: i.source_text@,
    }
}

pub open spec fn is_trusted_host(host: Seq<char>) -> bool {
    let h = lower(host);
    h == "youtube.com"@ || h == "www.youtube.com"@ || h == "m.youtube.com"@ || h == "music.youtube.com"@
        || h == "youtu.be"@ || h == "www.youtu.be"@
}

fn is_trusted_video_host(host: &[char]) -> (r: bool)
    ensures
        r == is_trusted_host(host@),
{
    let h = to_lower(host);
    eq(&h, &chars_of("youtube.com")) || eq(&h, &chars_of("www.youtube.com")) || eq(&h, &chars_of("m.youtube.com"))
        || eq(&h, &chars_of("music.youtube.com")) || eq(&h, &chars_of("youtu.be")) || eq(&h, &chars_of("www.youtu.be"))
}

/// `s` without its leading slashes.
pub open spec fn slashes_dropped(s: Seq<char>) -> Seq<char>
    decreases s.len(),
{
    if s.len() > 0 && s[0] == '/' {
        slashes_dropped(s.drop_first())
    } else {
        s
    }
}

fn slashes_dropped_exec(v: &[char]) -> (r: Vec<char>)
    ensures
        r@ == slashes_dropped(v@),
{
    let mut i: usize = 0;
    assert(v@.skip(0) =~= v@);
    while i < v.len() && v[i] == '/'
        invariant
            i <= v@.len(),
            slashes_dropped(v@.skip(i as int)) == slashes_dropped(v@),
        decreases v@.len() - i,
    {
        assert(v@.skip(i as int).drop_first() =~= v@.skip(i + 1));
        i = i + 1;
    }
    slice_of(v, i, v.len())
}

/// First query value for key `v` that is not empty.
pub open spec fn query_v(q: Seq<(Seq<char>, Seq<char>)>) -> Option<Seq<char>>
    decreases q.len(),
{
    if q.len() == 0 {
        None
    } else if q[0].0 == "v"@ && q[0].1.len() > 0 {
        Some(q[0].1)
    } else {
        query_v(q.drop_first())
    }
}

/// The id segment after a YouTube path prefix: `Some(None)` when the prefix
/// matches but the segment is empty (no id at all), `None` when no prefix matches.
pub open spec fn path_id(path: Seq<char>) -> Option<Option<Seq<char>>> {
    let prefix = if starts_with(path, "/embed/"@) {
        7int
    } else if starts_with(path, "/shorts/"@) {
        8int
    } else if starts_with(path, "/v/"@) {
        3int
    } else {
        -1int
    };
    if prefix < 0 {
        None
    } else {
        let seg = split(path.skip(prefix), '/')[0];
        if seg.len() > 0 {
            Some(Some(seg))
        } else {
            Some(None)
        }
    }
}

/// The YouTube video id of a parsed URL: the path of a `youtu.be` link, the
/// `v` query value of a `youtube.com` link, or the segment after `/embed/`,
/// `/shorts/` or `/v/`.
pub open spec fn spec_youtube_video_id(u: UrlPartsView) -> Option<Seq<char>> {
    match u.host {
        None => None,
        Some(h0) => {
            let host = lower(h0);
            if host == "youtu.be"@ || host == "www.youtu.be"@ {
                let id = slashes_dropped(u.path);
                if id.len() > 0 && find_char(id, '/') is None {
                    Some(id)
                } else {
                    None
                }
            } else if ends_with(host, "youtube.com"@) {
                match query_v(u.query) {
                    Some(v) => Some(v),
                    None => match path_id(u.path) {
                        Some(Some(seg)) => Some(seg),
                        _ => None,
                    },
                }
            } else {
                None
            }
        },
    }
}

fn query_v_exec(q: &Vec<(String, String)>) -> (r: Option<Vec<char>>)
    ensures
        match r {
            Some(v) => query_v(q@.map_values(|p: (String, String)| (p.0@, p.1@))) == Some(v@),
            None => query_v(q@.map_values(|p: (String, String)| (p.0@, p.1@))) is None,
        },
{
    let ghost qv = q@.map_values(|p: (String, String)| (p.0@, p.1@));
    let mut i: usize = 0;
    assert(qv.skip(0) =~= qv);
    while i < q.len()
        invariant
            i <= q@.len(),
            qv == q@.map_values(|p: (String, String)| (p.0@, p.1@)),
            query_v(qv.skip(i as int)) == query_v(qv),
        decreases q@.len() - i,
    {
        assert(qv.skip(i as int)[0] == (q@[i as int].0@, q@[i as int].1@));
        assert(qv.skip(i as int).drop_first() =~= qv.skip(i + 1));
        let k = chars_of(q[i].0.as_str());
        let v = chars_of(q[i].1.as_str());
        if eq(&k, &chars_of("v")) && v.len() > 0 {
            return Some(v);
        }
        i = i + 1;
    }
    assert(qv.skip(i as int) =~= seq![]);
    None
}

fn path_id_exec(path: &[char]) -> (r: Option<Option<Vec<char>>>)
    ensures
        match r {
            None => path_id(path@) is None,
            Some(None) => path_id(path@) == Some(None::<Seq<char>>),
            Some(Some(v)) => path_id(path@) == Some(Some(v@)),
        },
{
    proof {
        reveal_strlit("/embed/");
        reveal_strlit("/shorts/");
        reveal_strlit("/v/");
    }
    let prefix: usize = if starts_with_exec(path, &chars_of("/embed/")) {
        7
    } else if starts_with_exec(path, &chars_of("/shorts/")) {
        8
    } else if starts_with_exec(path, &chars_of("/v/")) {
        3
    } else {
        return None;
    };
    let rest = slice_of(path, prefix, path.len());
    let parts = split_char(&rest, '/');
    proof {
        assert(rest@ =~= path@.skip(prefix as int));
        crate::text::lemma_find_char_from_props(rest@, '/', 0);
        assert(parts.deep_view().len() > 0) by {
            lemma_split_nonempty(rest@, '/');
        }
        assert(parts.deep_view()[0] == parts@[0]@);
    }
    let seg = slice_of(&parts[0], 0, parts[0].len());
    assert(seg@ =~= parts@[0]@);
    if seg.len() > 0 {
        Some(Some(seg))
    } else {
        Some(None)
    }
}

pub proof fn lemma_split_nonempty(s: Seq<char>, c: char)
    ensures
        split(s, c).len() > 0,
{
    crate::text::lemma_find_char_from_props(s, c, 0);
}

fn youtube_video_id(u: &UrlParts) -> (r: Option<Vec<char>>)
    ensures
        match r {
            Some(v) => spec_youtube_video_id(url_parts_view(*u)) == Some(v@),
            None => spec_youtube_video_id(url_parts_view(*u)) is None,
        },
{
    let h0 = match &u.host {
        Some(h) => chars_of(h.as_str()),
        None => return None,
    };
    let host = to_lower(&h0);
    let path = chars_of(u.path.as_str());
    if eq(&host, &chars_of("youtu.be")) || eq(&host, &chars_of("www.youtu.be")) {
        let id = slashes_dropped_exec(&path);
        if id.len() > 0 && find_char_exec(&id, '/').is_none() {
            return Some(id);
        }
        return None;
    }
    if ends_with_exec(&host, &chars_of("youtube.com")) {
        match query_v_exec(&u.query) {
            Some(v) => return Some(v),
            None => {},
        }
        return match path_id_exec(&path) {
            Some(Some(seg)) => Some(seg),
            _ => None,
        };
    }
    None
}

pub open spec fn is_http_scheme(s: Seq<char>) -> bool {
    s == "http"@ || s == "https"@
}

/// Embed metadata for a parsed URL: `None` unless http(s) with a host; a
/// trusted host with a recognizable video id is a YouTube embed, anything
/// else an unknown provider.
pub open spec fn spec_embed_from_url(u: UrlPartsView, source_text: Seq<char>, width: Option<u32>, height: Option<u32>) -> Option<InfoView> {
    if !is_http_scheme(u.scheme) {
        None
    } else {
        match u.host {
            None => None,
            Some(h) => {
                let trusted = is_trusted_host(h);
                match spec_youtube_video_id(u) {
                    Some(id) => if trusted {
                        Some(InfoView { provider: VideoProvider::YouTube, video_id: Some(id), url: u.serialized, trusted: true, width, height, source_text })
                    } else {
                        Some(InfoView { provider: VideoProvider::Unknown, video_id: None, url: u.serialized, trusted, width, height, source_text })
                    },
                    None => Some(InfoView { provider: VideoProvider::Unknown, video_id: None, url: u.serialized, trusted, width, height, source_text }),
                }
            },
        }
    }
}

pub open spec fn opt_info_view(o: Option<VideoEmbedInfo>) -> Option<InfoView> {
    match o {
        Some(i) => Some(info_view(i)),
        None => None,
    }
}

/// Embed metadata from the parts of an already-parsed URL.
pub fn embed_from_url_parts(u: &UrlParts, source_text: String, width: Option<u32>, height: Option<u32>) -> (r: Option<VideoEmbedInfo>)
    ensures
        opt_info_view(r) == spec_embed_from_url(url_parts_view(*u), source_text@, width, height),
{
    let scheme = chars_of(u.scheme.as_str());
    if !(eq(&scheme, &chars_of("http")) || eq(&scheme, &chars_of("https"))) {
        return None;
    }
    let host = match &u.host {
        Some(h) => chars_of(h.as_str()),
        None => return None,
    };
    let trusted = is_trusted_video_host(&host);
    let url_string = u.serialized.clone();
    if trusted {
        match youtube_video_id(u) {
            Some(id) => {
                return Some(VideoEmbedInfo {
                    provider: VideoProvider::YouTube,
                    video_id: Some(string_of(&id)),
                    url: url_string,
                    trusted: true,
                    width,
                    height,
                    source_text,
                });
            },
            None => {},
        }
    }
    let ghost idv = spec_youtube_video_id(url_parts_view(*u));
    Some(VideoEmbedInfo {
        provider: VideoProvider::Unknown,
        video_id: None,
        url: url_string,
        trusted,
        width,
        height,
        source_text,
    })
}

/// Embed metadata for `raw_url` (trimmed before parsing).
pub open spec fn spec_embed_with_source(raw: Seq<char>, source_text: Seq<char>, width: Option<u32>, height: Option<u32>) -> Option<InfoView> {
    match spec_url_parse(trim(raw)) {
        None => None,
        Some(u) => spec_embed_from_url(u, source_text, width, height),
    }
}

fn parse_video_embed_url_with_source(raw_url: &[char], source_text: String, width: Option<u32>, height: Option<u32>) -> (r: Option<VideoEmbedInfo>)
    ensures
        opt_info_view(r) == spec_embed_with_source(raw_url@, source_text@, width, height),
{
    let t = string_of(&trim_of(raw_url));
    match parse_url(t.as_str()) {
        Some(u) => embed_from_url_parts(&u, source_text, width, height),
        None => None,
    }
}

/// Parse a URL string into video embed metadata; `None` when the URL does not
/// parse, uses a non-http(s) scheme, or has no host.
pub fn parse_video_embed_url(raw_url: &str) -> (r: Option<VideoEmbedInfo>)
    ensures
        opt_info_view(r) == spec_embed_with_source(raw_url@, trim(raw_url@), None, None),
{
    let raw = chars_of(raw_url);
    let source = string_of(&trim_of(&raw));
    parse_video_embed_url_with_source(&raw, source, None, None)
}

// ─────────────────────────────────────────────────────────────────────────────
// Braced embed syntax
// ─────────────────────────────────────────────────────────────────────────────

pub const MIN_VIDEO_DIMENSION: u32 = 1;

pub const MAX_VIDEO_DIMENSION: u32 = 8192;

pub open spec fn clamp_dim(n: int) -> u32 {
    if n < MIN_VIDEO_DIMENSION {
        MIN_VIDEO_DIMENSION
    } else if n > MAX_VIDEO_DIMENSION {
        MAX_VIDEO_DIMENSION
    } else {
        n as u32
    }
}

/// A dimension parameter: a positive `u32`, clamped to `[1, 8192]`.
pub open spec fn spec_dimension(raw: Seq<char>) -> Option<u32> {
    match parse_unsigned(raw, 10, 0xffff_ffff) {
        Some(n) => if n == 0 { None } else { Some(clamp_dim(n as int)) },
        None => None,
    }
}

fn clamp_dim_exec(n: u32) -> (r: u32)
    ensures
        r == clamp_dim(n as int),
{
    if n < MIN_VIDEO_DIMENSION {
        MIN_VIDEO_DIMENSION
    } else if n > MAX_VIDEO_DIMENSION {
        MAX_VIDEO_DIMENSION
    } else {
        n
    }
}

fn parse_video_dimension_value(raw: &[char]) -> (r: Option<u32>)
    ensures
        r == spec_dimension(raw@),
{
    match parse_unsigned_exec(raw, 10, 0xffff_ffff) {
        Some(n) => if n == 0 {
            None
        } else {
            Some(clamp_dim_exec(n as u32))
        },
        None => None,
    }
}

/// Inner content of `{{video URL [key=value ...]}}`.
#[derive(Debug, Clone)]
pub struct BracedVideoContent {
    pub url: String,
    pub width: Option<u32>,
    pub height: Option<u32>,
}

/// Effect of the parameters from index `i` on (width, height): a later
/// `width=`/`height=` (key in any ASCII case) replaces an earlier one, even
/// with an invalid value; parameters without `=` or with other keys are ignored.
pub open spec fn dims_from(params: Seq<Seq<char>>, i: int, w: Option<u32>, h: Option<u32>) -> (Option<u32>, Option<u32>)
    decreases params.len() - i,
{
    if i < 0 || i >= params.len() {
        (w, h)
    } else {
        let p = params[i];
        match find_char(p, '=') {
            None => dims_from(params, i + 1, w, h),
            Some(e) => {
                let key = lower(p.take(e));
                let value = p.skip(e + 1);
                if key == "width"@ {
                    dims_from(params, i + 1, spec_dimension(value), h)
                } else if key == "height"@ {
                    dims_from(params, i + 1, w, spec_dimension(value))
                } else {
                    dims_from(params, i + 1, w, h)
                }
            },
        }
    }
}

pub struct BracedView {
    pub url: Seq<char>,
    pub width: Option<u32>,
    pub height: Option<u32>,
}

/// URL and dimensions of `{{video URL [width=N] [height=N]}}`; `None` when the
/// text is not that syntax or names no URL.
pub open spec fn spec_braced_video(text: Seq<char>) -> Option<BracedView> {
    let t = trim(text);
    if !starts_with(t, "{{video"@) || !ends_with(t, "}}"@) || t.len() < 9 {
        None
    } else {
        let inner = trim(t.subrange(7, t.len() - 2));
        let ws = words(inner);
        if inner.len() == 0 || ws.len() == 0 {
            None
        } else {
            let (w, h) = dims_from(ws, 1, None, None);
            Some(BracedView { url: ws[0], width: w, height: h })
        }
    }
}

pub open spec fn braced_view(b: BracedVideoContent) -> BracedView {
    BracedView { url: b.url@, width: b.width, height: b.height }
}

/// Extract URL and optional `width`/`height` params from braced video syntax.
pub fn parse_braced_video_content(text: &str) -> (r: Option<BracedVideoContent>)
    ensures
        match r {
            Some(b) => spec_braced_video(text@) == Some(braced_view(b)),
            None => spec_braced_video(text@) is None,
        },
{
    parse_braced_chars(&chars_of(text))
}

fn parse_braced_chars(text: &[char]) -> (r: Option<BracedVideoContent>)
    ensures
        match r {
            Some(b) => spec_braced_video(text@) == Some(braced_view(b)),
            None => spec_braced_video(text@) is None,
        },
{
    let t = trim_of(text);
    proof {
        reveal_strlit("{{video");
        reveal_strlit("}}");
    }
    if !starts_with_exec(&t, &chars_of("{{video")) || !ends_with_exec(&t, &chars_of("}}")) || t.len() < 9 {
        return None;
    }
    let inner = trim_of(&slice_of(&t, 7, t.len() - 2));
    let ws = split_ws(&inner);
    if inner.len() == 0 || ws.len() == 0 {
        return None;
    }
    let ghost wv = ws.deep_view();
    let mut w: Option<u32> = None;
    let mut h: Option<u32> = None;
    let mut i: usize = 1;
    while i < ws.len()
        invariant
            1 <= i <= ws@.len(),
            wv == ws.deep_view(),
            dims_from(wv, i as int, w, h) == dims_from(wv, 1, None, None),
        decreases ws@.len() - i,
    {
        let p = &ws[i];
        let plen = p.len();
        assert(wv[i as int] == p@);
        proof {
            lemma_find_char_from_props(p@, '=', 0);
        }
        match find_char_exec(p, '=') {
            None => {},
            Some(e) => {
                let key = to_lower(&slice_of(p, 0, e));
                let value = slice_of(p, e + 1, plen);
                if eq(&key, &chars_of("width")) {
                    w = parse_video_dimension_value(&value);
                } else if eq(&key, &chars_of("height")) {
                    h = parse_video_dimension_value(&value);
                }
            },
        }
        i = i + 1;
    }
    assert(wv[0] == ws@[0]@);
    Some(BracedVideoContent { url: string_of(&ws[0]), width: w, height: h })
}

/// The braced source syntax for an embed: `{{video URL[ width=W][ height=H]}}`.
pub open spec fn spec_format_source(url: Seq<char>, width: Option<u32>, height: Option<u32>) -> Seq<char> {
    let w = match width {
        Some(n) => " width="@ + decimal(n as nat),
        None => seq![],
    };
    let h = match height {
        Some(n) => " height="@ + decimal(n as nat),
        None => seq![],
    };
    "{{video "@ + url + w + h + "}}"@
}

/// Build `{{video URL [width=N] [height=N]}}` source syntax.
pub fn format_video_embed_source(url: &str, width: Option<u32>, height: Option<u32>) -> (r: String)
    ensures
        r@ == spec_format_source(url@, width, height),
{
    let mut out = chars_of("{{video ");
    append(&mut out, &chars_of(url));
    match width {
        Some(n) => {
            append(&mut out, &chars_of(" width="));
            append(&mut out, &decimal_exec(n as u64));
        },
        None => {},
    }
    match height {
        Some(n) => {
            append(&mut out, &chars_of(" height="));
            append(&mut out, &decimal_exec(n as u64));
        },
        None => {},
    }
    append(&mut out, &chars_of("}}"));
    let ghost wpart = match width { Some(n) => " width="@ + decimal(n as nat), None => seq![] };
    let ghost hpart = match height { Some(n) => " height="@ + decimal(n as nat), None => seq![] };
    assert(out@ =~= "{{video "@ + url@ + wpart + hpart + "}}"@);
    string_of(&out)
}

/// The source after replacing line `line` (1-indexed) with the embed syntax at
/// the new clamped dimensions. Lines are rejoined with `\n`, and a final line
/// break is kept. `None` when the line does not exist.
pub open spec fn spec_rewrite_dimensions(source: Seq<char>, line: int, url: Seq<char>, width: u32, height: u32) -> Option<Seq<char>> {
    let ls = lines(source);
    if line == 0 || line > ls.len() {
        None
    } else {
        let new_line = spec_format_source(url, Some(clamp_dim(width as int)), Some(clamp_dim(height as int)));
        let rebuilt = join(ls.update(line - 1, new_line), "\n"@);
        Some(if ends_with(source, "\n"@) && rebuilt.len() > 0 {
            rebuilt.push('\n')
        } else {
            rebuilt
        })
    }
}

/// Replace a video embed line in the markdown source with new explicit
/// dimensions; false (source unchanged) when the line does not exist.
pub fn rewrite_video_embed_dimensions(source: &mut String, line: usize, info: &VideoEmbedInfo, width: u32, height: u32) -> (r: bool)
    ensures
        match spec_rewrite_dimensions(old(source)@, line as int, info.url@, width, height) {
            Some(s) => r && final(source)@ == s,
            None => !r && final(source)@ == old(source)@,
        },
        r <==> (1 <= line <= lines(old(source)@).len()),
{
    if line == 0 {
        return false;
    }
    let w = clamp_dim_exec(width);
    let h = clamp_dim_exec(height);
    let new_line = format_video_embed_source(info.url.as_str(), Some(w), Some(h));
    let src = chars_of(source.as_str());
    let mut ls = lines_of(&src);
    if line > ls.len() {
        return false;
    }
    let had_trailing_nl = ends_with_exec(&src, &chars_of("\n"));
    let ghost before = ls.deep_view();
    let nl = chars_of(new_line.as_str());
    assert(nl.deep_view() =~= nl@);
    let ghost old_ls = ls@;
    ls.set(line - 1, nl);
    assert(ls@ == old_ls.update(line - 1, nl));
    assert(ls.deep_view() =~= before.update(line - 1, new_line@));
    let mut rebuilt = join_exec(&ls, &chars_of("\n"));
    if had_trailing_nl && rebuilt.len() > 0 {
        rebuilt.push('\n');
    }
    *source = string_of(&rebuilt);
    true
}

// ─────────────────────────────────────────────────────────────────────────────
// Markdown tree: embed paragraphs
// ─────────────────────────────────────────────────────────────────────────────

/// The node kinds of the markdown tree that embed detection distinguishes.
#[derive(Debug, Clone)]
pub enum MarkdownNodeType {
    Document,
    Paragraph,
    Heading { level: u8 },
    Text(String),
    Code(String),
    Emphasis,
    Strong,
    Link { url: String, title: String },
    SoftBreak,
    LineBreak,
    VideoEmbed(VideoEmbedInfo),
}

/// A node of the markdown tree with its 1-indexed source line span.
#[derive(Debug)]
pub struct MarkdownNode {
    pub node_type: MarkdownNodeType,
    pub children: Vec<MarkdownNode>,
    pub start_line: usize,
    pub end_line: usize,
}

pub enum KindView {
    Document,
    Paragraph,
    Heading { level: u8 },
    Text(Seq<char>),
    Code(Seq<char>),
    Emphasis,
    Strong,
    Link { url: Seq<char>, title: Seq<char> },
    SoftBreak,
    LineBreak,
    VideoEmbed(InfoView),
}

pub struct NodeView {
    pub kind: KindView,
    pub children: Seq<NodeView>,
    pub start_line: usize,
    pub end_line: usize,
}

pub open spec fn kind_view(k: MarkdownNodeType) -> KindView {
    match k {
        MarkdownNodeType::Document => KindView::Document,
        MarkdownNodeType::Paragraph => KindView::Paragraph,
        MarkdownNodeType::Heading { level } => KindView::Heading { level },
        MarkdownNodeType::Text(t) => KindView::Text(t@),
        MarkdownNodeType::Code(t) => KindView::Code(t@),
        MarkdownNodeType::Emphasis => KindView::Emphasis,
        MarkdownNodeType::Strong => KindView::Strong,
        MarkdownNodeType::Link { url, title } => KindView::Link { url: url@, title: title@ },
        MarkdownNodeType::SoftBreak => KindView::SoftBreak,
        MarkdownNodeType::LineBreak => KindView::LineBreak,
        MarkdownNodeType::VideoEmbed(i) => KindView::VideoEmbed(info_view(i)),
    }
}

pub open spec fn node_view(n: MarkdownNode) -> NodeView
    decreases n,
{
    NodeView {
        kind: kind_view(n.node_type),
        children: Seq::new(n.children@.len(), |i: int| if 0 <= i < n.children@.len() {
            node_view(n.children@[i])
        } else {
            arbitrary()
        }),
        start_line: n.start_line,
        end_line: n.end_line,
    }
}

/// All the text of a node: its own text for text and code, else its
/// children's text in order.
pub open spec fn text_content(n: NodeView) -> Seq<char>
    decreases n,
{
    match n.kind {
        KindView::Text(t) => t,
        KindView::Code(t) => t,
        _ => children_text(n.children, n.children.len() as int),
    }
}

/// Text of the first `k` nodes of `cs`.
pub open spec fn children_text(cs: Seq<NodeView>, k: int) -> Seq<char>
    decreases cs, k,
{
    if k <= 0 || k > cs.len() {
        seq![]
    } else {
        children_text(cs, k - 1) + text_content(cs[k - 1])
    }
}

/// The text one inline child contributes to a paragraph's source.
pub open spec fn inline_source(c: NodeView) -> Seq<char> {
    match c.kind {
        KindView::Text(t) => t,
        KindView::Link { url, .. } => url,
        KindView::SoftBreak => " "@,
        KindView::LineBreak => "\n"@,
        _ => text_content(c),
    }
}

/// A paragraph's inline text rebuilt as source (links by their URL, soft
/// breaks as spaces, hard breaks as line breaks).
pub open spec fn paragraph_source(cs: Seq<NodeView>, k: int) -> Seq<char>
    decreases k,
{
    if k <= 0 || k > cs.len() {
        seq![]
    } else {
        paragraph_source(cs, k - 1) + inline_source(cs[k - 1])
    }
}

fn text_content_exec(n: &MarkdownNode) -> (r: Vec<char>)
    ensures
        r@ == text_content(node_view(*n)),
    decreases n,
{
    match &n.node_type {
        MarkdownNodeType::Text(t) => chars_of(t.as_str()),
        MarkdownNodeType::Code(t) => chars_of(t.as_str()),
        _ => {
            let ghost nv = node_view(*n);
            let mut out: Vec<char> = Vec::new();
            let mut i: usize = 0;
            while i < n.children.len()
                invariant
                    i <= n.children@.len(),
                    nv == node_view(*n),
                    nv.children.len() == n.children@.len(),
                    out@ == children_text(nv.children, i as int),
                decreases n.children@.len() - i,
            {
                assert(nv.children[i as int] == node_view(n.children@[i as int]));
                let t = text_content_exec(&n.children[i]);
                append(&mut out, &t);
                i = i + 1;
            }
            out
        },
    }
}

fn paragraph_source_text(node: &MarkdownNode) -> (r: Vec<char>)
    ensures
        r@ == paragraph_source(node_view(*node).children, node.children@.len() as int),
{
    let ghost nv = node_view(*node);
    let mut out: Vec<char> = Vec::new();
    let mut i: usize = 0;
    while i < node.children.len()
        invariant
            i <= node.children@.len(),
            nv == node_view(*node),
            nv.children.len() == node.children@.len(),
            out@ == paragraph_source(nv.children, i as int),
        decreases node.children@.len() - i,
    {
        let child = &node.children[i];
        assert(nv.children[i as int] == node_view(*child));
        match &child.node_type {
            MarkdownNodeType::Text(t) => append(&mut out, &chars_of(t.as_str())),
            MarkdownNodeType::Link { url, .. } => append(&mut out, &chars_of(url.as_str())),
            MarkdownNodeType::SoftBreak => append(&mut out, &chars_of(" ")),
            MarkdownNodeType::LineBreak => append(&mut out, &chars_of("\n")),
            _ => append(&mut out, &text_content_exec(child)),
        }
        i = i + 1;
    }
    out
}

/// Embed metadata of a paragraph written in the braced video syntax.
pub open spec fn spec_video_paragraph(n: NodeView) -> Option<InfoView> {
    match n.kind {
        KindView::Paragraph => {
            let src = paragraph_source(n.children, n.children.len() as int);
            match spec_braced_video(src) {
                Some(b) => spec_embed_with_source(b.url, src, b.width, b.height),
                None => None,
            }
        },
        _ => None,
    }
}

/// If `node` is a video embed paragraph, return parsed embed metadata.
pub fn try_parse_video_paragraph(node: &MarkdownNode) -> (r: Option<VideoEmbedInfo>)
    ensures
        opt_info_view(r) == spec_video_paragraph(node_view(*node)),
{
    match &node.node_type {
        MarkdownNodeType::Paragraph => {},
        _ => return None,
    }
    let source = paragraph_source_text(node);
    let content = match parse_braced_chars(&source) {
        Some(c) => c,
        None => return None,
    };
    parse_video_embed_url_with_source(&chars_of(content.url.as_str()), string_of(&source), content.width, content.height)
}

/// A child after embed extraction: a video paragraph becomes an embed node
/// with no children over the same lines.
pub open spec fn embed_or_keep(c: NodeView) -> NodeView {
    match spec_video_paragraph(c) {
        Some(info) => NodeView { kind: KindView::VideoEmbed(info), children: seq![], start_line: c.start_line, end_line: c.end_line },
        None => c,
    }
}

/// The tree with every video paragraph (at any depth) replaced by an embed node.
pub open spec fn spec_extract(n: NodeView) -> NodeView
    decreases n,
{
    NodeView {
        children: Seq::new(n.children.len(), |i: int| if 0 <= i < n.children.len() {
            embed_or_keep(spec_extract(n.children[i]))
        } else {
            arbitrary()
        }),
        ..n
    }
}

fn copy_info(i: &VideoEmbedInfo) -> (r: VideoEmbedInfo)
    ensures
        info_view(r) == info_view(*i),
{
    VideoEmbedInfo {
        provider: i.provider,
        video_id: match &i.video_id {
            Some(v) => Some(v.clone()),
            None => None,
        },
        url: i.url.clone(),
        trusted: i.trusted,
        width: i.width,
        height: i.height,
        source_text: i.source_text.clone(),
    }
}

fn copy_kind(k: &MarkdownNodeType) -> (r: MarkdownNodeType)
    ensures
        kind_view(r) == kind_view(*k),
{
    match k {
        MarkdownNodeType::Document => MarkdownNodeType::Document,
        MarkdownNodeType::Paragraph => MarkdownNodeType::Paragraph,
        MarkdownNodeType::Heading { level } => MarkdownNodeType::Heading { level: *level },
        MarkdownNodeType::Text(t) => MarkdownNodeType::Text(t.clone()),
        MarkdownNodeType::Code(t) => MarkdownNodeType::Code(t.clone()),
        MarkdownNodeType::Emphasis => MarkdownNodeType::Emphasis,
        MarkdownNodeType::Strong => MarkdownNodeType::Strong,
        MarkdownNodeType::Link { url, title } => MarkdownNodeType::Link { url: url.clone(), title: title.clone() },
        MarkdownNodeType::SoftBreak => MarkdownNodeType::SoftBreak,
        MarkdownNodeType::LineBreak => MarkdownNodeType::LineBreak,
        MarkdownNodeType::VideoEmbed(i) => MarkdownNodeType::VideoEmbed(copy_info(i)),
    }
}

fn extracted(node: &MarkdownNode) -> (r: MarkdownNode)
    ensures
        node_view(r) == spec_extract(node_view(*node)),
    decreases node,
{
    let ghost nv = node_view(*node);
    let ghost goal = spec_extract(nv);
    let mut out: Vec<MarkdownNode> = Vec::new();
    let mut i: usize = 0;
    while i < node.children.len()
        invariant
            i <= node.children@.len(),
            nv == node_view(*node),
            goal == spec_extract(nv),
            out@.len() == i,
            forall|j: int| 0 <= j < i ==> node_view(#[trigger] out@[j]) == goal.children[j],
        decreases node.children@.len() - i,
    {
        let child = &node.children[i];
        assert(nv.children[i as int] == node_view(*child));
        let c2 = extracted(child);
        let replaced = match try_parse_video_paragraph(&c2) {
            Some(info) => MarkdownNode {
                node_type: MarkdownNodeType::VideoEmbed(info),
                children: Vec::new(),
                start_line: c2.start_line,
                end_line: c2.end_line,
            },
            None => c2,
        };
        proof {
            let e = embed_or_keep(spec_extract(nv.children[i as int]));
            assert(goal.children[i as int] == e);
            assert(node_view(replaced).children =~= e.children);
        }
        out.push(replaced);
        i = i + 1;
    }
    let r = MarkdownNode { node_type: copy_kind(&node.node_type), children: out, start_line: node.start_line, end_line: node.end_line };
    assert(node_view(r).children =~= goal.children);
    r
}

/// Walk the tree and replace video embed paragraphs with `VideoEmbed` nodes.
/// The tree it leaves is one that a second walk leaves unchanged.
pub fn extract_video_embeds(node: &mut MarkdownNode)
    ensures
        node_view(*final(node)) == spec_extract(node_view(*old(node))),
        spec_extract(node_view(*final(node))) == node_view(*final(node)),
{
    let r = extracted(node);
    proof {
        law_extract_idempotent(node_view(*node));
    }
    *node = r;
}

// ─────────────────────────────────────────────────────────────────────────────
// Renderer helpers
// ─────────────────────────────────────────────────────────────────────────────

/// Custom protocol that serves the local relay page.
pub const VIDEO_EMBED_PROTOCOL: &'static str = "ferrite-video";

/// YouTube thumbnail quality suffix used for embed previews.
pub const YOUTUBE_THUMBNAIL_SUFFIX: &'static str = "hqdefault.jpg";

/// A YouTube id that is safe to splice into URLs and the relay page: non-empty
/// ASCII letters, digits, `_` and `-`.
pub open spec fn spec_valid_youtube_id(id: Seq<char>) -> bool {
    id.len() > 0 && forall|i: int| 0 <= i < id.len() ==> is_ascii_alnum(#[trigger] id[i]) || id[i] == '_' || id[i] == '-'
}

pub fn is_valid_youtube_video_id(video_id: &str) -> (r: bool)
    ensures
        r == spec_valid_youtube_id(video_id@),
{
    let v = chars_of(video_id);
    if v.len() == 0 {
        return false;
    }
    let mut i: usize = 0;
    while i < v.len()
        invariant
            i <= v@.len(),
            v@ == video_id@,
            forall|j: int| 0 <= j < i ==> is_ascii_alnum(#[trigger] v@[j]) || v@[j] == '_' || v@[j] == '-',
        decreases v@.len() - i,
    {
        let c = v[i];
        if !(is_ascii_alnum_char(c) || c == '_' || c == '-') {
            assert(!(is_ascii_alnum(v@[i as int]) || v@[i as int] == '_' || v@[i as int] == '-'));
            return false;
        }
        i = i + 1;
    }
    true
}

/// Relay page URL the child WebView loads for a trusted YouTube embed with a
/// valid id.
pub open spec fn spec_provider_embed_url(i: InfoView) -> Option<Seq<char>> {
    if !i.trusted || i.provider != VideoProvider::YouTube {
        None
    } else {
        match i.video_id {
            Some(id) => if spec_valid_youtube_id(id) {
                Some(VIDEO_EMBED_PROTOCOL@ + "://localhost/embed?v="@ + id)
            } else {
                None
            },
            None => None,
        }
    }
}

pub open spec fn opt_string_view(o: Option<String>) -> Option<Seq<char>> {
    match o {
        Some(s) => Some(s@),
        None => None,
    }
}

/// The relay page URL for a trusted embed (the WebView never loads the raw
/// YouTube URL).
pub fn provider_embed_url(info: &VideoEmbedInfo) -> (r: Option<String>)
    ensures
        opt_string_view(r) == spec_provider_embed_url(info_view(*info)),
{
    if !info.trusted || info.provider != VideoProvider::YouTube {
        return None;
    }
    let id = match &info.video_id {
        Some(v) => v,
        None => return None,
    };
    if !is_valid_youtube_video_id(id.as_str()) {
        return None;
    }
    let mut out = chars_of(VIDEO_EMBED_PROTOCOL);
    append(&mut out, &chars_of("://localhost/embed?v="));
    append(&mut out, &chars_of(id.as_str()));
    Some(string_of(&out))
}

/// Whether an embed may use the interactive WebView: trusted, with a relay URL.
pub open spec fn spec_webview_eligible(i: InfoView) -> bool {
    i.trusted && spec_provider_embed_url(i) is Some
}

pub fn is_webview_eligible(info: &VideoEmbedInfo) -> (r: bool)
    ensures
        r == spec_webview_eligible(info_view(*info)),
{
    info.trusted && provider_embed_url(info).is_some()
}

/// Whether the WebView path is taken: eligible and not forced to the fallback.
pub fn would_use_webview(force_fallback: bool, info: &VideoEmbedInfo) -> (r: bool)
    ensures
        r == (!force_fallback && spec_webview_eligible(info_view(*info))),
{
    !force_fallback && is_webview_eligible(info)
}

/// Thumbnail URL of a YouTube embed with a non-empty id.
pub open spec fn spec_thumbnail_url(i: InfoView) -> Option<Seq<char>> {
    if i.provider != VideoProvider::YouTube {
        None
    } else {
        match i.video_id {
            Some(id) => if id.len() > 0 {
                Some("https://img.youtube.com/vi/"@ + id + "/"@ + YOUTUBE_THUMBNAIL_SUFFIX@)
            } else {
                None
            },
            None => None,
        }
    }
}

/// Build the YouTube thumbnail URL for a parsed embed, if applicable.
pub fn youtube_thumbnail_url(info: &VideoEmbedInfo) -> (r: Option<String>)
    ensures
        opt_string_view(r) == spec_thumbnail_url(info_view(*info)),
{
    if info.provider != VideoProvider::YouTube {
        return None;
    }
    let id = match &info.video_id {
        Some(v) => chars_of(v.as_str()),
        None => return None,
    };
    if id.len() == 0 {
        return None;
    }
    let mut out = chars_of("https://img.youtube.com/vi/");
    append(&mut out, &id);
    append(&mut out, &chars_of("/"));
    append(&mut out, &chars_of(YOUTUBE_THUMBNAIL_SUFFIX));
    Some(string_of(&out))
}

/// Key that identifies an embed across frames: its video id when non-empty,
/// else its URL.
pub open spec fn spec_embed_stable_key(i: InfoView) -> Seq<char> {
    match i.video_id {
        Some(id) => if id.len() > 0 { id } else { i.url },
        None => i.url,
    }
}

pub fn embed_stable_key(info: &VideoEmbedInfo) -> (r: String)
    ensures
        r@ == spec_embed_stable_key(info_view(*info)),
{
    match &info.video_id {
        Some(id) => {
            if !id.as_str().is_empty() {
                return id.clone();
            }
        },
        None => {},
    }
    info.url.clone()
}

/// Relay page text before the video id.
pub const RELAY_HTML_HEAD: &'static str = r#"<!doctype html>
<html lang="en">
<head>
  <meta charset="utf-8" />
  <meta name="viewport" content="width=device-width, initial-scale=1" />
  <meta name="referrer" content="strict-origin-when-cross-origin" />
  <style>
    html, body { height: 100%; margin: 0; background: #000; overflow: hidden; }
    iframe { width: 100%; height: 100%; border: 0; display: block; }
  </style>
</head>
<body>
  <iframe
    id="player"
    allow="accelerometer; autoplay; clipboard-write; encrypted-media; gyroscope; picture-in-picture; fullscreen"
    allowfullscreen
    referrerpolicy="strict-origin-when-cross-origin"
  ></iframe>
  <script>
    (function() {
      var v = ""#;

/// Relay page text after the video id.
pub const RELAY_HTML_TAIL: &'static str = r#"";
      var base = "https://www.youtube-nocookie.com/embed/" + encodeURIComponent(v);
      var params = new URLSearchParams({
        enablejsapi: "1",
        rel: "0",
        modestbranding: "1",
        playsinline: "1",
        origin: location.origin
      });
      document.getElementById("player").src = base + "?" + params.toString();
    })();
  </script>
</body>
</html>"#;

/// The relay page: a privacy-enhanced YouTube player iframe for `video_id`.
pub fn youtube_embed_relay_html(video_id: &str) -> (r: String)
    ensures
        r@ == RELAY_HTML_HEAD@ + video_id@ + RELAY_HTML_TAIL@,
{
    let mut out = chars_of(RELAY_HTML_HEAD);
    append(&mut out, &chars_of(video_id));
    append(&mut out, &chars_of(RELAY_HTML_TAIL));
    string_of(&out)
}

/// Navigation allowlist for the embed WebView: the local relay page and the
/// YouTube embed player origin only.
pub open spec fn spec_allowed_navigation(url: Seq<char>) -> bool {
    starts_with(url, "ferrite-video://"@) || starts_with(url, "http://ferrite-video.localhost"@)
        || starts_with(url, "https://ferrite-video.localhost"@) || starts_with(url, "https://www.youtube-nocookie.com/"@)
        || url == "about:blank"@
}

pub fn is_allowed_webview_navigation(url: &str) -> (r: bool)
    ensures
        r == spec_allowed_navigation(url@),
{
    let u = chars_of(url);
    starts_with_exec(&u, &chars_of("ferrite-video://")) || starts_with_exec(&u, &chars_of("http://ferrite-video.localhost"))
        || starts_with_exec(&u, &chars_of("https://ferrite-video.localhost"))
        || starts_with_exec(&u, &chars_of("https://www.youtube-nocookie.com/")) || eq(&u, &chars_of("about:blank"))
}

/// The `v` query value of a relay page URI (first pair named `v`, if non-empty).
pub open spec fn spec_video_id_from_relay_uri(uri: Seq<char>) -> Option<Seq<char>> {
    match spec_url_parse(uri) {
        None => None,
        Some(u) => first_v(u.query),
    }
}

/// Value of the first query pair named `v`, when it is not empty.
pub open spec fn first_v(q: Seq<(Seq<char>, Seq<char>)>) -> Option<Seq<char>>
    decreases q.len(),
{
    if q.len() == 0 {
        None
    } else if q[0].0 == "v"@ {
        if q[0].1.len() > 0 { Some(q[0].1) } else { None }
    } else {
        first_v(q.drop_first())
    }
}

pub fn video_id_from_relay_uri(uri: &str) -> (r: Option<String>)
    ensures
        opt_string_view(r) == spec_video_id_from_relay_uri(uri@),
{
    let u = match parse_url(uri) {
        Some(u) => u,
        None => return None,
    };
    let ghost qv = url_parts_view(u).query;
    let mut i: usize = 0;
    assert(qv.skip(0) =~= qv);
    while i < u.query.len()
        invariant
            i <= u.query@.len(),
            qv == url_parts_view(u).query,
            spec_url_parse(uri@) == Some(url_parts_view(u)),
            first_v(qv.skip(i as int)) == first_v(qv),
        decreases u.query@.len() - i,
    {
        assert(qv.skip(i as int)[0] == (u.query@[i as int].0@, u.query@[i as int].1@));
        assert(qv.skip(i as int).drop_first() =~= qv.skip(i + 1));
        if eq(&chars_of(u.query[i].0.as_str()), &chars_of("v")) {
            if !u.query[i].1.as_str().is_empty() {
                return Some(u.query[i].1.clone());
            }
            return None;
        }
        i = i + 1;
    }
    assert(qv.skip(i as int) =~= seq![]);
    None
}

/// An untrusted embed never reaches the WebView path.
pub proof fn law_untrusted_never_webview(i: InfoView, force_fallback: bool)
    requires
        !i.trusted,
    ensures
        !spec_webview_eligible(i),
        spec_provider_embed_url(i) is None,
{
}

/// Every relay URL the renderer builds passes the navigation allowlist.
pub proof fn law_relay_url_allowed(i: InfoView)
    ensures
        spec_provider_embed_url(i) matches Some(u) ==> spec_allowed_navigation(u),
{
    reveal_strlit("ferrite-video");
    reveal_strlit("://localhost/embed?v=");
    reveal_strlit("ferrite-video://");
    if let Some(u) = spec_provider_embed_url(i) {
        let id = i.video_id.unwrap();
        assert(u == VIDEO_EMBED_PROTOCOL@ + "://localhost/embed?v="@ + id);
        assert(u.take(16) =~= "ferrite-video://"@);
    }
}

/// ` key=N` where a dimension is given.
spec fn dim_part(key: Seq<char>, n: Option<u32>) -> Seq<char> {
    match n {
        Some(v) => seq![' '] + dim_word(key, v),
        None => seq![],
    }
}

/// `key=N`.
spec fn dim_word(key: Seq<char>, v: u32) -> Seq<char> {
    key + seq!['='] + decimal(v as nat)
}

spec fn dim_words(key: Seq<char>, n: Option<u32>) -> Seq<Seq<char>> {
    match n {
        Some(v) => seq![dim_word(key, v)],
        None => seq![],
    }
}

spec fn plain_key(key: Seq<char>) -> bool {
    &&& key.len() > 0
    &&& forall|k: int| 0 <= k < key.len() ==> !is_ws(#[trigger] key[k]) && key[k] != '='
}

proof fn lemma_format_shape(url: Seq<char>, width: Option<u32>, height: Option<u32>)
    ensures
        spec_format_source(url, width, height) =~= "{{video"@ + (seq![' '] + (url + dim_part(
            "width"@,
            width,
        ) + dim_part("height"@, height))) + "}}"@,
{
    reveal_strlit("{{video ");
    reveal_strlit("{{video");
    reveal_strlit(" width=");
    reveal_strlit(" height=");
    reveal_strlit("width");
    reveal_strlit("height");
}

/// A `key=N` word: no whitespace, its first `=` right after the key, the
/// number after it.
proof fn lemma_dim_word(key: Seq<char>, v: u32)
    requires
        plain_key(key),
    ensures
        dim_word(key, v).len() > 0,
        forall|k: int| 0 <= k < dim_word(key, v).len() ==> !is_ws(#[trigger] dim_word(key, v)[k]),
        !is_ws(dim_word(key, v).last()),
        find_char(dim_word(key, v), '=') == Some(key.len() as int),
        dim_word(key, v).take(key.len() as int) == key,
        dim_word(key, v).skip(key.len() as int + 1) == decimal(v as nat),
{
    let w = dim_word(key, v);
    let d = decimal(v as nat);
    lemma_decimal_digits(v as nat);
    assert forall|k: int| 0 <= k < w.len() implies !is_ws(#[trigger] w[k]) by {
        if k < key.len() {
            assert(w[k] == key[k]);
        } else if k > key.len() {
            assert(w[k] == d[k - key.len() - 1]);
        }
    }
    assert(w[key.len() as int] == '=');
    lemma_find_char_from_props(w, '=', 0);
    assert forall|k: int| 0 <= k < key.len() implies w[k] != '=' by {
        assert(w[k] == key[k]);
    }
    assert(w.take(key.len() as int) =~= key);
    assert(w.skip(key.len() as int + 1) =~= d);
}

/// The words of an optional ` key=N` followed by text that is empty or starts
/// with whitespace.
proof fn lemma_dim_part_words(key: Seq<char>, n: Option<u32>, rest: Seq<char>)
    requires
        plain_key(key),
        rest.len() == 0 || is_ws(rest[0]),
    ensures
        words(dim_part(key, n) + rest) == dim_words(key, n) + words(rest),
        dim_part(key, n).len() == 0 || is_ws(dim_part(key, n)[0]),
{
    if let Some(v) = n {
        let w = dim_word(key, v);
        lemma_dim_word(key, v);
        let s = dim_part(key, n) + rest;
        assert(s =~= seq![' '] + (w + rest));
        lemma_words_skip_leading_ws(s);
        assert(s.drop_first() =~= w + rest);
        lemma_words_cons(w, rest);
    } else {
        assert(dim_part(key, n) + rest =~= rest);
        assert(dim_words(key, n) + words(rest) =~= words(rest));
    }
}

/// The dimensions read from `key=N` words.
proof fn lemma_dims_read(url: Seq<char>, width: Option<u32>, height: Option<u32>)
    requires
        width matches Some(w) ==> MIN_VIDEO_DIMENSION <= w <= MAX_VIDEO_DIMENSION,
        height matches Some(h) ==> MIN_VIDEO_DIMENSION <= h <= MAX_VIDEO_DIMENSION,
    ensures
        dims_from(seq![url] + dim_words("width"@, width) + dim_words("height"@, height), 1, None, None)
            == (width, height),
{
    reveal_strlit("width");
    reveal_strlit("height");
    let wl = dim_words("width"@, width);
    let hl = dim_words("height"@, height);
    let ws = seq![url] + wl + hl;
    assert(plain_key("width"@));
    assert(plain_key("height"@));
    if let Some(v) = width {
        lemma_dim_word("width"@, v);
        lemma_parse_decimal(v as nat, 0xffff_ffff);
        assert(ws[1] == dim_word("width"@, v));
        assert(lower("width"@) =~= "width"@);
    }
    if let Some(v) = height {
        lemma_dim_word("height"@, v);
        lemma_parse_decimal(v as nat, 0xffff_ffff);
        assert(ws[1 + wl.len() as int] == dim_word("height"@, v));
        assert(lower("height"@) =~= "height"@);
    }
    let i1: int = 1 + wl.len() as int;
    assert(dims_from(ws, 1, None, None) == dims_from(ws, i1, width, None));
    assert(dims_from(ws, i1, width, None) == dims_from(ws, i1 + hl.len() as int, width, height));
}

/// A written embed reads back: the braced syntax that
/// `format_video_embed_source` writes parses to the same URL and dimensions,
/// for a URL that is not empty and holds no whitespace, and dimensions within
/// [`MIN_VIDEO_DIMENSION`, `MAX_VIDEO_DIMENSION`].
pub proof fn law_format_then_parse(url: Seq<char>, width: Option<u32>, height: Option<u32>)
    requires
        url.len() > 0,
        forall|k: int| 0 <= k < url.len() ==> !is_ws(#[trigger] url[k]),
        width matches Some(w) ==> MIN_VIDEO_DIMENSION <= w <= MAX_VIDEO_DIMENSION,
        height matches Some(h) ==> MIN_VIDEO_DIMENSION <= h <= MAX_VIDEO_DIMENSION,
    ensures
        spec_braced_video(spec_format_source(url, width, height)) matches Some(b) && b.url == url
            && b.width == width && b.height == height,
{
    reveal_strlit("{{video");
    reveal_strlit("}}");
    reveal_strlit("width");
    reveal_strlit("height");
    assert(plain_key("width"@));
    assert(plain_key("height"@));
    let wp = dim_part("width"@, width);
    let hp = dim_part("height"@, height);
    let body = url + wp + hp;
    let text = spec_format_source(url, width, height);
    lemma_format_shape(url, width, height);
    assert(text =~= "{{video"@ + (seq![' '] + body) + "}}"@);

    // The whole text needs no trimming and has the braces.
    assert(text[0] == '{');
    assert(text[text.len() - 1] == '}');
    lemma_trim_noop(text);
    assert(text.take(7) =~= "{{video"@);
    assert(text.skip(text.len() - 2) =~= "}}"@);
    assert(text.subrange(7, text.len() - 2) =~= seq![' '] + body);

    // The body starts with the URL and ends with a URL character or a digit.
    assert(body[0] == url[0]);
    if let Some(v) = height {
        lemma_dim_word("height"@, v);
        assert(body[body.len() - 1] == dim_word("height"@, v).last());
    } else if let Some(v) = width {
        lemma_dim_word("width"@, v);
        assert(hp =~= Seq::<char>::empty());
        assert(body[body.len() - 1] == dim_word("width"@, v).last());
    } else {
        assert(body =~= url);
    }
    lemma_trim_after_space(body);

    // Its words: the URL, then `width=W` and `height=H` where given.
    lemma_dim_part_words("height"@, height, Seq::<char>::empty());
    assert(hp + Seq::<char>::empty() =~= hp);
    assert(words(Seq::<char>::empty()) =~= Seq::<Seq<char>>::empty());
    lemma_dim_part_words("width"@, width, hp);
    lemma_words_cons(url, wp + hp);
    assert(body =~= url + (wp + hp));
    let ws = words(body);
    assert(ws =~= seq![url] + dim_words("width"@, width) + dim_words("height"@, height));
    lemma_dims_read(url, width, height);
}

/// Every character of the braced syntax is one of the URL's, a space, a brace,
/// a letter of the embed keywords or a digit: none is a line feed.
proof fn lemma_format_no_newline(url: Seq<char>, width: Option<u32>, height: Option<u32>)
    requires
        forall|k: int| 0 <= k < url.len() ==> !is_ws(#[trigger] url[k]),
    ensures
        forall|k: int| 0 <= k < spec_format_source(url, width, height).len() ==> (#[trigger] spec_format_source(url, width, height)[k]) != '\n',
        spec_format_source(url, width, height).len() > 0,
        spec_format_source(url, width, height).last() == '}',
{
    reveal_strlit("{{video");
    reveal_strlit("}}");
    reveal_strlit("width");
    reveal_strlit("height");
    lemma_format_shape(url, width, height);
    assert(plain_key("width"@));
    assert(plain_key("height"@));
    let wp = dim_part("width"@, width);
    let hp = dim_part("height"@, height);
    if let Some(v) = width {
        lemma_dim_word("width"@, v);
    }
    if let Some(v) = height {
        lemma_dim_word("height"@, v);
    }
    assert forall|k: int| 0 <= k < wp.len() implies wp[k] != '\n' by {
        if let Some(v) = width {
            if k > 0 {
                assert(wp[k] == dim_word("width"@, v)[k - 1]);
            }
        }
    }
    assert forall|k: int| 0 <= k < hp.len() implies hp[k] != '\n' by {
        if let Some(v) = height {
            if k > 0 {
                assert(hp[k] == dim_word("height"@, v)[k - 1]);
            }
        }
    }
    let body = url + wp + hp;
    assert forall|k: int| 0 <= k < body.len() implies body[k] != '\n' by {
        if k < url.len() {
            assert(body[k] == url[k]);
        } else if k < url.len() + wp.len() {
            assert(body[k] == wp[k - url.len()]);
        } else {
            assert(body[k] == hp[k - url.len() - wp.len()]);
        }
    }
    let text = spec_format_source(url, width, height);
    assert(text =~= "{{video"@ + (seq![' '] + body) + "}}"@);
    assert forall|k: int| 0 <= k < text.len() implies (#[trigger] text[k]) != '\n' by {
        if 8 <= k < 8 + body.len() {
            assert(text[k] == body[k - 8]);
        }
    }
}

proof fn lemma_query_v_nonempty(q: Seq<(Seq<char>, Seq<char>)>)
    ensures
        query_v(q) matches Some(v) ==> v.len() > 0,
    decreases q.len(),
{
    if q.len() > 0 && !(q[0].0 == "v"@ && q[0].1.len() > 0) {
        lemma_query_v_nonempty(q.drop_first());
    }
}

proof fn lemma_youtube_id_nonempty(u: UrlPartsView)
    ensures
        spec_youtube_video_id(u) matches Some(id) ==> id.len() > 0,
{
    lemma_query_v_nonempty(u.query);
}

/// The id of a trusted `youtube.com` URL: the first non-empty `v` query value,
/// else the path segment after `/embed/`, `/shorts/` or `/v/` (up to the next
/// `/`) when that segment is not empty; such a URL is a YouTube embed of that
/// id.
pub proof fn law_youtube_com_ids(u: UrlPartsView, source_text: Seq<char>, width: Option<u32>, height: Option<u32>)
    requires
        is_http_scheme(u.scheme),
        u.host matches Some(host) && is_trusted_host(host) && ends_with(lower(host), "youtube.com"@),
    ensures
        ({
            let yt = |id: Seq<char>|
                Some(
                    InfoView {
                        provider: VideoProvider::YouTube,
                        video_id: Some(id),
                        url: u.serialized,
                        trusted: true,
                        width,
                        height,
                        source_text,
                    },
                );
            let seg = |n: int| split(u.path.skip(n), '/')[0];
            &&& query_v(u.query) matches Some(v) ==> spec_embed_from_url(u, source_text, width, height) == yt(v)
            &&& (query_v(u.query) is None && starts_with(u.path, "/embed/"@) && seg(7).len() > 0) ==> spec_embed_from_url(
                u,
                source_text,
                width,
                height,
            ) == yt(seg(7))
            &&& (query_v(u.query) is None && starts_with(u.path, "/shorts/"@) && seg(8).len() > 0) ==> spec_embed_from_url(
                u,
                source_text,
                width,
                height,
            ) == yt(seg(8))
            &&& (query_v(u.query) is None && starts_with(u.path, "/v/"@) && seg(3).len() > 0) ==> spec_embed_from_url(
                u,
                source_text,
                width,
                height,
            ) == yt(seg(3))
        }),
{
    reveal_strlit("youtube.com");
    reveal_strlit("youtu.be");
    reveal_strlit("www.youtu.be");
    reveal_strlit("/embed/");
    reveal_strlit("/shorts/");
    reveal_strlit("/v/");
    let host = lower(u.host.unwrap());
    assert(host != "youtu.be"@ && host != "www.youtu.be"@) by {
        assert("youtu.be"@.len() == 8);
        assert("www.youtu.be"@.len() == 12);
        assert("youtube.com"@.len() == 11);
        if host == "www.youtu.be"@ {
            assert(host.skip(host.len() - 11)[0] == 'w');
        }
    }
    let p = u.path;
    if starts_with(p, "/v/"@) {
        assert(p.take(3)[1] == 'v');
        if starts_with(p, "/embed/"@) {
            assert(p.take(7)[1] == 'e');
        }
        if starts_with(p, "/shorts/"@) {
            assert(p.take(8)[1] == 's');
        }
    }
    if starts_with(p, "/shorts/"@) {
        assert(p.take(8)[1] == 's');
        if starts_with(p, "/embed/"@) {
            assert(p.take(7)[1] == 'e');
        }
    }
}

/// The id of a `youtu.be` link is its path without the leading slashes, when
/// that is not empty and holds no further `/`; such a link is a YouTube embed
/// of that id, any other `youtu.be` link an unknown (but trusted) embed.
pub proof fn law_youtu_be_ids(u: UrlPartsView, source_text: Seq<char>, width: Option<u32>, height: Option<u32>)
    requires
        is_http_scheme(u.scheme),
        u.host matches Some(host) && (lower(host) == "youtu.be"@ || lower(host) == "www.youtu.be"@),
    ensures
        ({
            let id = slashes_dropped(u.path);
            let good = id.len() > 0 && forall|k: int| 0 <= k < id.len() ==> #[trigger] id[k] != '/';
            &&& good ==> spec_embed_from_url(u, source_text, width, height) == Some(
                InfoView {
                    provider: VideoProvider::YouTube,
                    video_id: Some(id),
                    url: u.serialized,
                    trusted: true,
                    width,
                    height,
                    source_text,
                },
            )
            &&& !good ==> spec_embed_from_url(u, source_text, width, height) == Some(
                InfoView {
                    provider: VideoProvider::Unknown,
                    video_id: None,
                    url: u.serialized,
                    trusted: true,
                    width,
                    height,
                    source_text,
                },
            )
        }),
{
    let id = slashes_dropped(u.path);
    crate::text::lemma_find_char_from_props(id, '/', 0);
}

/// What a parsed embed URL gives: nothing when the trimmed URL does not
/// parse, is not http(s) or has no host; otherwise an embed of the
/// normalized URL, trusted exactly for the listed YouTube hosts, whose
/// YouTube provider always comes with a non-empty video id and whose unknown
/// provider never has one, with no dimensions and the trimmed URL as source.
pub proof fn law_parsed_embed_url(raw: Seq<char>)
    ensures
        spec_url_parse(trim(raw)) is None ==> spec_embed_with_source(raw, trim(raw), None, None) is None,
        spec_url_parse(trim(raw)) matches Some(u) ==> (spec_embed_with_source(raw, trim(raw), None, None) is None
            <==> (!is_http_scheme(u.scheme) || u.host is None)),
        spec_url_parse(trim(raw)) matches Some(u) ==> (spec_embed_with_source(raw, trim(raw), None, None) matches Some(i)
            ==> (u.host matches Some(h) && i.trusted == is_trusted_host(h) && i.url == u.serialized)),
        spec_embed_with_source(raw, trim(raw), None, None) matches Some(i) ==> {
            &&& i.width is None && i.height is None
            &&& i.source_text == trim(raw)
            &&& i.provider == VideoProvider::YouTube ==> i.trusted && (i.video_id matches Some(id) && id.len() > 0)
            &&& i.provider == VideoProvider::Unknown ==> i.video_id is None
        },
{
    if let Some(u) = spec_url_parse(trim(raw)) {
        lemma_youtube_id_nonempty(u);
    }
}

/// A rewritten embed reads back: after the rewrite, the line it replaced
/// parses as an embed of the same URL at the new (clamped) dimensions, for a
/// URL that is not empty and holds no whitespace.
pub proof fn law_rewrite_then_parse(source: Seq<char>, line: int, url: Seq<char>, width: u32, height: u32)
    requires
        1 <= line <= lines(source).len(),
        url.len() > 0,
        forall|k: int| 0 <= k < url.len() ==> !is_ws(#[trigger] url[k]),
    ensures
        spec_rewrite_dimensions(source, line, url, width, height) matches Some(s) && {
            &&& lines(s).len() >= line
            &&& spec_braced_video(lines(s)[line - 1]) matches Some(b) && b.url == url
                && b.width == Some(clamp_dim(width as int)) && b.height == Some(clamp_dim(height as int))
        },
{
    let w = clamp_dim(width as int);
    let h = clamp_dim(height as int);
    let new_line = spec_format_source(url, Some(w), Some(h));
    let ls = lines(source);
    let parts = ls.update(line - 1, new_line);
    let rebuilt = join(parts, "\n"@);
    reveal_strlit("\n");
    assert("\n"@ =~= seq!['\n']);
    lemma_format_no_newline(url, Some(w), Some(h));
    lemma_lines_no_newline(source, 0);
    assert forall|a: int, t: int| 0 <= a < parts.len() && 0 <= t < parts[a].len() implies (#[trigger] parts[a][t]) != '\n' by {
        if a == line - 1 {
            assert(parts[a] == new_line);
        } else {
            assert(parts[a] == ls[a]);
            assert(lines_from(source, 0)[a][t] != '\n');
        }
    }
    assert(parts[line - 1] == new_line);
    let tail: Seq<char> = if ends_with(source, "\n"@) && rebuilt.len() > 0 { seq!['\n'] } else { seq![] };
    lemma_lines_of_join(parts, tail, line - 1);
    let s = spec_rewrite_dimensions(source, line, url, width, height).unwrap();
    if tail.len() > 0 {
        assert(s =~= rebuilt + tail);
    } else {
        assert(s =~= rebuilt + tail);
    }
    law_format_then_parse(url, Some(w), Some(h));
}

/// A rewrite touches only its line: it is refused (`None`) exactly when the
/// line does not exist; otherwise the source keeps its number of lines, the
/// line becomes the embed syntax at the clamped dimensions, every other line
/// that does not end in `\r` reads the same, and a final line break is there
/// afterwards exactly when it was before (for a URL that holds no whitespace).
pub proof fn law_rewrite_lines(source: Seq<char>, line: int, url: Seq<char>, width: u32, height: u32)
    requires
        0 <= line,
        forall|i: int| 0 <= i < url.len() ==> !is_ws(#[trigger] url[i]),
    ensures
        spec_rewrite_dimensions(source, line, url, width, height) is None <==> (line == 0 || line > lines(source).len()),
        spec_rewrite_dimensions(source, line, url, width, height) matches Some(s) ==> {
            &&& lines(s).len() == lines(source).len()
            &&& lines(s)[line - 1] == spec_format_source(url, Some(clamp_dim(width as int)), Some(clamp_dim(height as int)))
            &&& forall|k: int|
                0 <= k < lines(source).len() && k != line - 1 && (lines(source)[k].len() > 0 ==> lines(source)[k].last()
                    != '\r') ==> #[trigger] lines(s)[k] == lines(source)[k]
            &&& ends_with(s, "\n"@) <==> ends_with(source, "\n"@)
        },
{
    if line == 0 || line > lines(source).len() {
        return;
    }
    let w = clamp_dim(width as int);
    let h = clamp_dim(height as int);
    let new_line = spec_format_source(url, Some(w), Some(h));
    let ls = lines(source);
    let parts = ls.update(line - 1, new_line);
    let rebuilt = join(parts, "\n"@);
    reveal_strlit("\n");
    assert("\n"@ =~= seq!['\n']);
    lemma_format_no_newline(url, Some(w), Some(h));
    lemma_lines_no_newline(source, 0);
    assert forall|a: int, t: int| 0 <= a < parts.len() && 0 <= t < parts[a].len() implies (#[trigger] parts[a][t]) != '\n' by {
        if a == line - 1 {
            assert(parts[a] == new_line);
        } else {
            assert(parts[a] == ls[a]);
            assert(lines_from(source, 0)[a][t] != '\n');
        }
    }
    let tail: Seq<char> = if ends_with(source, "\n"@) && rebuilt.len() > 0 { seq!['\n'] } else { seq![] };
    let s = spec_rewrite_dimensions(source, line, url, width, height).unwrap();
    assert(s =~= rebuilt + tail);
    lemma_lines_of_join(parts, tail, line - 1);
    assert(rebuilt.len() > 0) by {
        if rebuilt.len() == 0 {
            assert(rebuilt + tail =~= seq![]);
            assert(lines(seq![]) =~= seq![]);
        }
    }
    if !ends_with(source, "\n"@) {
        lemma_lines_last_nonempty(source, 0);
    }
    assert(parts.last().len() > 0 || tail.len() > 0) by {
        if line - 1 == parts.len() - 1 {
            assert(parts.last() == new_line);
        } else {
            assert(parts.last() == ls.last());
        }
    }
    assert forall|k: int|
        0 <= k < lines(source).len() && k != line - 1 && (lines(source)[k].len() > 0 ==> lines(source)[k].last() != '\r') implies
        #[trigger] lines(s)[k] == lines(source)[k] by {
        assert(parts[k] == ls[k]);
        lemma_lines_of_join(parts, tail, k);
    }
    if ends_with(source, "\n"@) {
        assert(s.skip(s.len() - 1) =~= seq!['\n']);
    } else {
        let last = parts.last();
        assert(last.len() > 0);
        if parts.len() == 1 {
            assert(rebuilt == parts[0]);
        } else {
            assert(rebuilt == join(parts.drop_last(), "\n"@) + "\n"@ + last);
        }
        assert(rebuilt.last() == last.last());
        assert(last[last.len() - 1] != '\n');
        if ends_with(s, "\n"@) {
            assert(s.skip(s.len() - 1)[0] == s.last());
        }
    }
}

proof fn lemma_extract_child(c: NodeView)
    requires
        spec_extract(spec_extract(c)) == spec_extract(c),
    ensures
        embed_or_keep(spec_extract(embed_or_keep(spec_extract(c)))) == embed_or_keep(spec_extract(c)),
{
    let c1 = spec_extract(c);
    match spec_video_paragraph(c1) {
        Some(info) => {
            let e = embed_or_keep(c1);
            assert(spec_extract(e).children =~= e.children);
            assert(spec_extract(e) == e);
        },
        None => {},
    }
}

/// Extracting embeds twice is extracting them once: an embed node is no
/// paragraph, and a paragraph left in place stays as it is.
pub proof fn law_extract_idempotent(n: NodeView)
    ensures
        spec_extract(spec_extract(n)) == spec_extract(n),
    decreases n,
{
    let e = spec_extract(n);
    assert forall|i: int| 0 <= i < n.children.len() implies embed_or_keep(spec_extract(e.children[i])) == e.children[i] by {
        law_extract_idempotent(n.children[i]);
        lemma_extract_child(n.children[i]);
    }
    assert(spec_extract(e).children =~= e.children);
}

} // verus!
