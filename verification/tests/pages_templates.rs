use wiki_core::jobs::plan_new_from_url;
use wiki_core::notes::{ensure_title, meta_get, strip_txt_suffix, Note};
use wiki_core::pages::{
    edit_redirect_uri, format_daily, journal_update_message, split_update_message,
    today_daily_title, update_message,
};
use wiki_core::templates::{extract_include_target, parse_tags};
use wiki_core::uploaded_files::UploadedFilesPage;
use wiki_core::{format_links, parse_block, render_template, to_template, BlockElement};

#[test]
fn collapses_heading_to_h2() {
    let block = parse_block(b"#hello world");
    let mut out: Vec<u8> = Vec::new();
    block[0].collapse_to(&mut out);
    assert_eq!(out, b"<h2>hello world</h2>".to_vec());
}

#[test]
fn collapses_quote_to_blockquote() {
    let block = parse_block(b">quoted words");
    let mut out: Vec<u8> = Vec::new();
    block[0].collapse_to(&mut out);
    assert_eq!(out, b"<blockquote>quoted words</blockquote>".to_vec());
}

#[test]
fn collapses_page_link_with_alias() {
    let e = BlockElement::PageLink(b"another link|some page".to_vec());
    let mut out: Vec<u8> = Vec::new();
    e.collapse_to(&mut out);
    assert_eq!(out, b"<a href=\"/some%20page\">another link</a>".to_vec());
}

#[test]
fn collapses_hyperlink_with_youtube_embed() {
    let e = BlockElement::HyperLink(b"https://youtube.com/watch?v=4".to_vec());
    let mut out: Vec<u8> = Vec::new();
    e.collapse_to(&mut out);
    let s = String::from_utf8(out).unwrap();
    assert_eq!(
        s,
        "<iframe src=\"https://youtube.com/watch?v=4\"></iframe>\
         <a href=\"https://youtube.com/watch?v=4\">https://youtube.com/watch?v=4</a>"
    );
}

#[test]
fn collapses_audio_hyperlink_with_audio_embed() {
    let e = BlockElement::HyperLink(b"https://example.com/song.mp3".to_vec());
    let mut out: Vec<u8> = Vec::new();
    e.collapse_to(&mut out);
    let s = String::from_utf8(out).unwrap();
    assert!(s.starts_with("<audio controls src=\"https://example.com/song.mp3\"></audio>"));
}

#[test]
fn format_links_passes_http_through_and_encodes_the_rest() {
    assert_eq!(format_links(b"http://example.com/x"), b"http://example.com/x".to_vec());
    assert_eq!(format_links(b"wiki page"), b"/wiki%20page".to_vec());
}

#[test]
fn to_template_defaults_title_and_filters_metadata() {
    let note = Note {
        header: vec![(b"author".to_vec(), b"someone".to_vec())],
        content: b"#hi".to_vec(),
    };
    let parsed = to_template(&note);
    assert_eq!(parsed.page.title, b"Untitled".to_vec());
    assert_eq!(parsed.page.body, b"<h2>hi</h2>".to_vec());
    assert_eq!(parsed.page.metadata, vec![(b"author".to_vec(), b"someone".to_vec())]);
    assert_eq!(parsed.page.desc, b"#hi".to_vec());
    assert!(parsed.page.tags.is_empty());
    assert!(parsed.outlinks.is_empty());
}

#[test]
fn to_template_collects_outlinks_and_truncates_desc() {
    let long = vec![b'x'; 120];
    let mut content = b"[[other page]] ".to_vec();
    content.extend_from_slice(&long);
    let note = Note {
        header: vec![
            (b"title".to_vec(), b"mine".to_vec()),
            (b"tags".to_vec(), b"wiki, daily".to_vec()),
        ],
        content,
    };
    let parsed = to_template(&note);
    assert_eq!(parsed.page.title, b"mine".to_vec());
    assert_eq!(parsed.outlinks, vec![b"other page".to_vec()]);
    assert_eq!(parsed.page.tags, vec![b"wiki".to_vec(), b"daily".to_vec()]);
    assert_eq!(parsed.page.desc.len(), 83);
    assert!(parsed.page.desc.ends_with(b"..."));
    assert!(parsed.page.metadata.is_empty());
}

#[test]
fn parse_tags_trims_and_drops_empty_segments() {
    let tags = parse_tags(b" a, b ,,c");
    assert_eq!(tags, vec![b"a".to_vec(), b"b".to_vec(), b"c".to_vec()]);
    assert!(parse_tags(b"").is_empty());
    assert!(parse_tags(b" , ").is_empty());
}

#[test]
fn render_template_substitutes_placeholders() {
    let note = Note {
        header: vec![(b"title".to_vec(), b"page".to_vec())],
        content: b"hello".to_vec(),
    };
    let parsed = to_template(&note);
    let template = b"<html><%= title %>|<%= body %>|<%= tags %>|<%= links %></html>";
    let links = vec![b"from".to_vec(), b"from".to_vec(), b"other".to_vec()];
    let out = render_template(&parsed.page, Some(&links), template);
    let s = String::from_utf8(out).unwrap();
    assert_eq!(
        s,
        "<html>page|hello||<a href=\"/from\">from</a>\n<a href=\"/other\">other</a></html>"
    );
}

#[test]
fn render_template_builds_tag_items() {
    let note = Note {
        header: vec![
            (b"title".to_vec(), b"page".to_vec()),
            (b"tags".to_vec(), b"wiki".to_vec()),
        ],
        content: b"hey".to_vec(),
    };
    let parsed = to_template(&note);
    let out = render_template(&parsed.page, None, b"<%= tags %>");
    assert_eq!(out, b"<li><a href=\"/tags/wiki\">#wiki</a></li>".to_vec());
}

#[test]
fn include_target_is_extracted() {
    let t = extract_include_target(b"<%= include \"nav\" %>").unwrap();
    assert_eq!(t, b"nav".to_vec());
    assert!(extract_include_target(b"<%= title %>").is_none());
}

#[test]
fn strips_note_file_suffix() {
    assert_eq!(strip_txt_suffix(b"my note.txt").unwrap(), b"my note".to_vec());
    assert!(strip_txt_suffix(b"image.png").is_none());
}

#[test]
fn ensure_title_defaults_to_filename() {
    let mut note = Note { header: vec![], content: b"c".to_vec() };
    ensure_title(&mut note, b"fixed name");
    let title = meta_get(&note.header, b"title").unwrap();
    assert_eq!(title, &b"fixed name".to_vec());

    let mut titled = Note {
        header: vec![(b"title".to_vec(), b"kept".to_vec())],
        content: b"c".to_vec(),
    };
    ensure_title(&mut titled, b"other");
    assert_eq!(meta_get(&titled.header, b"title").unwrap(), &b"kept".to_vec());
}

#[test]
fn redirect_uri_encodes_title() {
    assert_eq!(edit_redirect_uri(b"my page", None), b"/my%20page".to_vec());
    let seg = b"tags".to_vec();
    assert_eq!(edit_redirect_uri(b"my page", Some(&seg)), b"/tags/my%20page".to_vec());
}

#[test]
fn update_message_round_trip() {
    let msg = update_message(b"old name", b"  new name\n");
    assert_eq!(msg, b"old name~~new name".to_vec());
    let (old, new) = split_update_message(&msg).unwrap();
    assert_eq!(old, b"old name".to_vec());
    assert_eq!(new, b"new name".to_vec());
    assert!(split_update_message(b"no separator").is_none());
}

#[test]
fn daily_title_is_zero_padded() {
    assert_eq!(format_daily(2024, 3, 7), b"2024-03-07".to_vec());
    assert_eq!(format_daily(980, 12, 31), b"0980-12-31".to_vec());
    let msg = journal_update_message(b"2024-03-07");
    assert_eq!(msg, b"~~2024-03-07".to_vec());
}

#[test]
fn todays_title_has_date_shape() {
    let t = today_daily_title().unwrap();
    assert_eq!(t.len(), 10);
    assert_eq!(t[4], b'-');
    assert_eq!(t[7], b'-');
    assert!(t.iter().enumerate().all(|(i, b)| if i == 4 || i == 7 {
        *b == b'-'
    } else {
        b.is_ascii_digit()
    }));
}

#[test]
fn uploaded_files_render_entries() {
    let page = UploadedFilesPage::new(vec![b"a.png".to_vec(), b"b.pdf".to_vec()]);
    let out = page.render_entries();
    assert_eq!(
        out,
        b"<a href=\"/files/a.png\">a.png</a><a href=\"/files/b.pdf\">b.pdf</a>".to_vec()
    );
}

#[test]
fn new_from_url_sanitizes_and_plans() {
    let (patch, acts) = plan_new_from_url(
        b"https://example.com/article",
        vec![b"clipped".to_vec()],
        b"A Title? With/Bad:Chars.",
        b"extracted text",
        b"<p>safe</p>",
        b"zzzz",
    );
    assert_eq!(patch.title, b"A Title WithBadChars".to_vec());
    assert_eq!(patch.old_title, Vec::<u8>::new());
    assert_eq!(patch.body, b"<p>safe</p>".to_vec());
    assert_eq!(patch.metadata[0], (b"url".to_vec(), b"https://example.com/article".to_vec()));
    assert_eq!(patch.metadata[1], (b"content-type".to_vec(), b"html".to_vec()));
    assert_eq!(acts.len(), 6);
}
