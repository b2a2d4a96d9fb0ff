use ferrite::video::{
    embed_stable_key, extract_video_embeds, format_video_embed_source, is_allowed_webview_navigation,
    is_valid_youtube_video_id, is_webview_eligible, parse_braced_video_content,
    parse_video_embed_url, provider_embed_url, rewrite_video_embed_dimensions,
    try_parse_video_paragraph, video_id_from_relay_uri, would_use_webview, youtube_embed_relay_html,
    youtube_thumbnail_url, MarkdownNode, MarkdownNodeType, VideoEmbedInfo, VideoProvider,
    MAX_VIDEO_DIMENSION,
};

fn node(node_type: MarkdownNodeType, children: Vec<MarkdownNode>) -> MarkdownNode {
    MarkdownNode { node_type, children, start_line: 1, end_line: 1 }
}

fn text(s: &str) -> MarkdownNode {
    node(MarkdownNodeType::Text(s.to_string()), Vec::new())
}

fn link(url: &str) -> MarkdownNode {
    node(
        MarkdownNodeType::Link { url: url.to_string(), title: String::new() },
        vec![text(url)],
    )
}

/// A one-paragraph document as the markdown parser builds it: plain text runs
/// with the autolinked URL between them.
fn document(before: &str, url: &str, after: &str) -> MarkdownNode {
    let mut inline = Vec::new();
    if !before.is_empty() {
        inline.push(text(before));
    }
    inline.push(link(url));
    if !after.is_empty() {
        inline.push(text(after));
    }
    let mut doc = node(
        MarkdownNodeType::Document,
        vec![node(MarkdownNodeType::Paragraph, inline)],
    );
    extract_video_embeds(&mut doc);
    doc
}

fn embed_of(doc: &MarkdownNode) -> Option<&VideoEmbedInfo> {
    match &doc.children[0].node_type {
        MarkdownNodeType::VideoEmbed(info) => Some(info),
        _ => None,
    }
}

#[test]
fn parse_braced_youtube_watch_url() {
    let info = parse_video_embed_url("https://youtube.com/watch?v=abc123XYZ_-").unwrap();
    assert_eq!(info.provider, VideoProvider::YouTube);
    assert_eq!(info.video_id.as_deref(), Some("abc123XYZ_-"));
    assert!(info.trusted);
}

#[test]
fn parse_braced_youtu_be_url() {
    let info = parse_video_embed_url("https://youtu.be/xyz789").unwrap();
    assert_eq!(info.provider, VideoProvider::YouTube);
    assert_eq!(info.video_id.as_deref(), Some("xyz789"));
    assert!(info.trusted);
}

#[test]
fn parse_non_youtube_url_is_untrusted() {
    let info = parse_video_embed_url("https://vimeo.com/123456").unwrap();
    assert_eq!(info.provider, VideoProvider::Unknown);
    assert!(info.video_id.is_none());
    assert!(!info.trusted);
}

#[test]
fn parse_rejects_non_http_scheme() {
    assert!(parse_video_embed_url("javascript:alert(1)").is_none());
}

#[test]
fn document_parses_braced_video_syntax() {
    let doc = document("{{video ", "https://youtube.com/watch?v=abc", "}}");
    let info = embed_of(&doc).expect("expected VideoEmbed node");
    assert_eq!(info.provider, VideoProvider::YouTube);
    assert_eq!(info.video_id.as_deref(), Some("abc"));
    assert_eq!(info.source_text, "{{video https://youtube.com/watch?v=abc}}");
    assert!(doc.children[0].children.is_empty());
}

#[test]
fn document_bare_youtube_url_stays_paragraph() {
    let doc = document("", "https://youtu.be/xyz", "");
    let node = &doc.children[0];
    assert!(matches!(node.node_type, MarkdownNodeType::Paragraph));
    assert!(
        !matches!(node.node_type, MarkdownNodeType::VideoEmbed(_)),
        "bare YouTube URL must not auto-embed"
    );
    let has_link = node
        .children
        .iter()
        .any(|child| matches!(child.node_type, MarkdownNodeType::Link { .. }));
    assert!(has_link, "bare URL should be a clickable link");
}

#[test]
fn bare_non_youtube_url_stays_paragraph() {
    let doc = document("", "https://vimeo.com/123456", "");
    assert!(!matches!(doc.children[0].node_type, MarkdownNodeType::VideoEmbed(_)));
}

#[test]
fn braced_non_youtube_url_becomes_untrusted_embed() {
    let doc = document("{{video ", "https://vimeo.com/123456", "}}");
    let info = embed_of(&doc).expect("expected VideoEmbed node");
    assert_eq!(info.provider, VideoProvider::Unknown);
    assert!(!info.trusted);
}

#[test]
fn video_embed_in_paragraph_with_other_text_stays_paragraph() {
    let doc = document("Watch this: ", "https://youtu.be/xyz", "");
    assert!(matches!(doc.children[0].node_type, MarkdownNodeType::Paragraph));
}

#[test]
fn braced_video_width_param_parsed() {
    let source = "{{video https://youtube.com/watch?v=abc width=640}}";
    let doc = document("{{video ", "https://youtube.com/watch?v=abc", " width=640}}");
    let info = embed_of(&doc).expect("expected VideoEmbed node");
    assert_eq!(info.width, Some(640));
    assert_eq!(info.height, None);
    assert_eq!(info.source_text, source);
}

#[test]
fn braced_video_width_and_height_params_parsed() {
    let source = "{{video https://youtube.com/watch?v=abc width=640 height=360}}";
    let doc = document("{{video ", "https://youtube.com/watch?v=abc", " width=640 height=360}}");
    let info = embed_of(&doc).expect("expected VideoEmbed node");
    assert_eq!(info.width, Some(640));
    assert_eq!(info.height, Some(360));
    assert_eq!(info.source_text, source);
}

#[test]
fn braced_video_width_only_keeps_16_9_height_at_render() {
    let content =
        parse_braced_video_content("{{video https://youtube.com/watch?v=abc width=400}}").unwrap();
    assert_eq!(content.width, Some(400));
    assert_eq!(content.height, None);
}

#[test]
fn braced_video_dimension_clamped_to_max() {
    let content = parse_braced_video_content("{{video https://youtu.be/xyz width=99999}}").unwrap();
    assert_eq!(content.width, Some(MAX_VIDEO_DIMENSION));
}

#[test]
fn braced_video_invalid_dimension_ignored() {
    let content =
        parse_braced_video_content("{{video https://youtu.be/xyz width=abc height=0}}").unwrap();
    assert_eq!(content.width, None);
    assert_eq!(content.height, None);
    assert_eq!(content.url, "https://youtu.be/xyz");
}

#[test]
fn format_video_embed_source_width_height() {
    assert_eq!(
        format_video_embed_source("https://youtu.be/abc", Some(640), Some(360)),
        "{{video https://youtu.be/abc width=640 height=360}}"
    );
}

#[test]
fn format_video_embed_source_url_only() {
    assert_eq!(
        format_video_embed_source("https://youtu.be/abc", None, None),
        "{{video https://youtu.be/abc}}"
    );
}

#[test]
fn rewrite_video_embed_dimensions_updates_source_line() {
    let info = parse_video_embed_url("https://youtube.com/watch?v=abc").unwrap();
    let mut source = "{{video https://youtube.com/watch?v=abc}}\n\nNext line".to_string();
    assert!(rewrite_video_embed_dimensions(&mut source, 1, &info, 800, 450));
    assert_eq!(
        source,
        "{{video https://youtube.com/watch?v=abc width=800 height=450}}\n\nNext line"
    );
}

#[test]
fn braced_video_unknown_params_ignored() {
    let source = "{{video https://youtu.be/xyz autoplay=1 width=320 foo=bar}}";
    let content = parse_braced_video_content(source).unwrap();
    assert_eq!(content.width, Some(320));
    assert_eq!(content.height, None);
    let doc = document("{{video ", "https://youtu.be/xyz", " autoplay=1 width=320 foo=bar}}");
    let info = embed_of(&doc).expect("expected VideoEmbed node");
    assert_eq!(info.source_text, source);
}

#[test]
fn rewrite_rejects_line_zero_and_past_end_and_keeps_trailing_newline() {
    let info = parse_video_embed_url("https://youtu.be/abc").unwrap();
    let mut source = "a\n{{video https://youtu.be/abc}}\n".to_string();
    assert!(!rewrite_video_embed_dimensions(&mut source, 0, &info, 10, 10));
    assert!(!rewrite_video_embed_dimensions(&mut source, 3, &info, 10, 10));
    assert_eq!(source, "a\n{{video https://youtu.be/abc}}\n");
    assert!(rewrite_video_embed_dimensions(&mut source, 2, &info, 0, 99999));
    assert_eq!(source, "a\n{{video https://youtu.be/abc width=1 height=8192}}\n");
}

#[test]
fn embeds_are_found_at_any_depth() {
    let quote = node(
        MarkdownNodeType::Emphasis,
        vec![node(
            MarkdownNodeType::Paragraph,
            vec![text("{{video "), link("https://youtu.be/deep"), text("}}")],
        )],
    );
    let mut doc = node(MarkdownNodeType::Document, vec![quote]);
    extract_video_embeds(&mut doc);
    match &doc.children[0].children[0].node_type {
        MarkdownNodeType::VideoEmbed(info) => assert_eq!(info.video_id.as_deref(), Some("deep")),
        other => panic!("expected VideoEmbed, got {other:?}"),
    }
    let para = node(MarkdownNodeType::Paragraph, vec![text("{{video https://youtu.be/x}}")]);
    assert!(try_parse_video_paragraph(&para).is_some());
    let heading = node(MarkdownNodeType::Heading { level: 1 }, vec![text("{{video https://youtu.be/x}}")]);
    assert!(try_parse_video_paragraph(&heading).is_none());
}

#[test]
fn youtube_url_forms() {
    let embed = parse_video_embed_url("https://www.youtube.com/embed/EMB1?x=1").unwrap();
    assert_eq!(embed.video_id.as_deref(), Some("EMB1"));
    let shorts = parse_video_embed_url("https://m.youtube.com/shorts/SH1/").unwrap();
    assert_eq!(shorts.video_id.as_deref(), Some("SH1"));
    let no_id = parse_video_embed_url("https://youtube.com/feed").unwrap();
    assert_eq!(no_id.provider, VideoProvider::Unknown);
    assert!(no_id.trusted);
    assert!(parse_video_embed_url("not a url").is_none());
    let upper = parse_video_embed_url("  HTTPS://YouTu.be/UP1  ").unwrap();
    assert_eq!(upper.video_id.as_deref(), Some("UP1"));
}

fn sample_info(provider: VideoProvider, video_id: Option<&str>, trusted: bool) -> VideoEmbedInfo {
    VideoEmbedInfo {
        provider,
        video_id: video_id.map(str::to_string),
        url: "https://youtube.com/watch?v=abc123XYZ_-".to_string(),
        trusted,
        width: None,
        height: None,
        source_text: "{{video https://youtube.com/watch?v=abc123XYZ_-}}".to_string(),
    }
}

#[test]
fn youtube_thumbnail_url_from_video_id() {
    let info = sample_info(VideoProvider::YouTube, Some("abc123XYZ_-"), true);
    assert_eq!(
        youtube_thumbnail_url(&info).as_deref(),
        Some("https://img.youtube.com/vi/abc123XYZ_-/hqdefault.jpg")
    );
}

#[test]
fn youtube_thumbnail_url_missing_id() {
    let info = sample_info(VideoProvider::YouTube, None, true);
    assert!(youtube_thumbnail_url(&info).is_none());
}

#[test]
fn youtube_thumbnail_url_empty_id() {
    let info = sample_info(VideoProvider::YouTube, Some(""), true);
    assert!(youtube_thumbnail_url(&info).is_none());
}

#[test]
fn non_youtube_provider_has_no_thumbnail_url() {
    let info = sample_info(VideoProvider::Unknown, None, false);
    assert!(youtube_thumbnail_url(&info).is_none());
}

#[test]
fn trusted_youtube_has_provider_embed_url() {
    let info = sample_info(VideoProvider::YouTube, Some("abc123XYZ_-"), true);
    assert_eq!(
        provider_embed_url(&info).as_deref(),
        Some("ferrite-video://localhost/embed?v=abc123XYZ_-")
    );
}

#[test]
fn relay_html_includes_video_id() {
    let html = youtube_embed_relay_html("abc123XYZ_-");
    assert!(html.contains("abc123XYZ_-"));
    assert!(html.contains("youtube-nocookie.com/embed/"));
    assert!(html.contains("referrerpolicy=\"strict-origin-when-cross-origin\""));
}

#[test]
fn video_id_from_relay_uri_parses_query() {
    assert_eq!(
        video_id_from_relay_uri("ferrite-video://localhost/embed?v=abc123XYZ_-").as_deref(),
        Some("abc123XYZ_-")
    );
}

#[test]
fn untrusted_embed_has_no_provider_embed_url() {
    let info = sample_info(VideoProvider::YouTube, Some("abc123XYZ_-"), false);
    assert!(provider_embed_url(&info).is_none());
}

#[test]
fn untrusted_embed_never_webview_eligible() {
    let info = sample_info(VideoProvider::YouTube, Some("abc123XYZ_-"), false);
    assert!(!is_webview_eligible(&info));
}

#[test]
fn trusted_youtube_is_webview_eligible() {
    let info = sample_info(VideoProvider::YouTube, Some("abc123XYZ_-"), true);
    assert!(is_webview_eligible(&info));
}

#[test]
fn webview_gate_blocks_untrusted_before_constructor() {
    let info = sample_info(VideoProvider::YouTube, Some("abc123XYZ_-"), false);
    assert!(
        !is_webview_eligible(&info),
        "untrusted embed must not reach WebView constructor"
    );
    assert!(provider_embed_url(&info).is_none());
}

#[test]
fn force_fallback_skips_webview_path() {
    let info = sample_info(VideoProvider::YouTube, Some("abc123XYZ_-"), true);
    assert!(would_use_webview(false, &info));
    assert!(!would_use_webview(true, &info));
}

#[test]
fn navigation_allowlist_permits_relay_and_player_only() {
    assert!(is_allowed_webview_navigation("ferrite-video://localhost/embed?v=abc"));
    assert!(is_allowed_webview_navigation("http://ferrite-video.localhost/embed?v=abc"));
    assert!(is_allowed_webview_navigation("https://ferrite-video.localhost/embed?v=abc"));
    assert!(is_allowed_webview_navigation("https://www.youtube-nocookie.com/embed/abc?rel=0"));
    assert!(is_allowed_webview_navigation("about:blank"));
    assert!(!is_allowed_webview_navigation("https://www.youtube.com/watch?v=abc"));
    assert!(!is_allowed_webview_navigation("https://evil.example.com/"));
    assert!(!is_allowed_webview_navigation("https://www.youtube-nocookie.com.evil.example.com/"));
    assert!(!is_allowed_webview_navigation("file:///C:/Windows/system32"));
}

#[test]
fn relay_url_passes_allowlist_and_round_trips_the_id() {
    let info = sample_info(VideoProvider::YouTube, Some("abc123XYZ_-"), true);
    let relay = provider_embed_url(&info).unwrap();
    assert!(is_allowed_webview_navigation(&relay));
    assert_eq!(video_id_from_relay_uri(&relay).as_deref(), Some("abc123XYZ_-"));
}

#[test]
fn video_id_validation_and_stable_keys() {
    assert!(is_valid_youtube_video_id("abc123XYZ_-"));
    assert!(!is_valid_youtube_video_id(""));
    assert!(!is_valid_youtube_video_id("bad id"));
    let info = sample_info(VideoProvider::YouTube, Some("abc123XYZ_-"), true);
    assert_eq!(embed_stable_key(&info), "abc123XYZ_-");
    let no_id = sample_info(VideoProvider::Unknown, None, false);
    assert_eq!(embed_stable_key(&no_id), "https://youtube.com/watch?v=abc123XYZ_-");
}

#[test]
fn formatted_embed_reads_back() {
    for (w, h) in [(Some(640), Some(360)), (Some(1), None), (None, Some(8192)), (None, None)] {
        let source = format_video_embed_source("https://youtu.be/abc?t=3", w, h);
        let content = parse_braced_video_content(&source).unwrap();
        assert_eq!(content.url, "https://youtu.be/abc?t=3");
        assert_eq!(content.width, w);
        assert_eq!(content.height, h);
    }
}

#[test]
fn rewritten_embed_line_reads_back_with_new_dimensions() {
    let info = parse_video_embed_url("https://youtu.be/xyz").unwrap();
    let mut source = "intro\r\n{{video https://youtu.be/xyz width=10}}\nouter\n".to_string();
    assert!(rewrite_video_embed_dimensions(&mut source, 2, &info, 0, 100_000));
    let line = source.lines().nth(1).unwrap();
    let content = parse_braced_video_content(line).unwrap();
    assert_eq!(content.url, "https://youtu.be/xyz");
    assert_eq!(content.width, Some(1));
    assert_eq!(content.height, Some(MAX_VIDEO_DIMENSION));
    assert!(source.ends_with('\n'));
}

#[test]
fn rewrite_leaves_other_lines_alone() {
    let info = parse_video_embed_url("https://youtu.be/xyz").unwrap();
    let mut source = "# Title\n{{video https://youtu.be/xyz}}\n\nafter\n".to_string();
    assert!(rewrite_video_embed_dimensions(&mut source, 2, &info, 640, 360));
    let lines: Vec<&str> = source.lines().collect();
    assert_eq!(lines, vec!["# Title", "{{video https://youtu.be/xyz width=640 height=360}}", "", "after"]);
    assert!(source.ends_with('\n'));
}

#[test]
fn extracting_twice_changes_nothing() {
    let mut doc = document("{{video ", "https://youtube.com/watch?v=abc", "}}");
    doc.children.push(node(MarkdownNodeType::Paragraph, vec![text("plain words")]));
    let once = format!("{:?}", doc);
    extract_video_embeds(&mut doc);
    assert_eq!(format!("{:?}", doc), once);
}

#[test]
fn rewrite_without_final_newline_adds_none() {
    let info = parse_video_embed_url("https://youtu.be/xyz").unwrap();
    let mut source = "{{video https://youtu.be/xyz}}\nlast".to_string();
    assert!(rewrite_video_embed_dimensions(&mut source, 1, &info, 320, 180));
    assert_eq!(source, "{{video https://youtu.be/xyz width=320 height=180}}\nlast");
}

#[test]
fn parsed_embed_url_fields() {
    let yt = parse_video_embed_url("  https://www.youtube.com/watch?v=abc  ").unwrap();
    assert_eq!(yt.provider, VideoProvider::YouTube);
    assert_eq!(yt.video_id.as_deref(), Some("abc"));
    assert!(yt.trusted);
    assert_eq!((yt.width, yt.height), (None, None));
    assert_eq!(yt.source_text, "https://www.youtube.com/watch?v=abc");

    let other = parse_video_embed_url("https://vimeo.com/123").unwrap();
    assert_eq!(other.provider, VideoProvider::Unknown);
    assert_eq!(other.video_id, None);
    assert!(!other.trusted);

    // A trusted host without a recognizable id is an unknown provider.
    let bare = parse_video_embed_url("https://www.youtube.com/").unwrap();
    assert_eq!(bare.provider, VideoProvider::Unknown);
    assert_eq!(bare.video_id, None);
    assert!(bare.trusted);

    assert!(parse_video_embed_url("ftp://youtube.com/watch?v=abc").is_none());
    assert!(parse_video_embed_url("not a url").is_none());
    assert!(parse_video_embed_url("mailto:someone@example.com").is_none());
}
