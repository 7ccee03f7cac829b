use wiki_core::{parse_block, to_html, BlockElement};

#[test]
fn parses_empty_block_to_no_elements() {
    let block = parse_block(b"");
    assert!(block.is_empty());
}

#[test]
fn parses_block_headers() {
    let test_string = "# hello";
    let block = parse_block(test_string.as_bytes());
    assert_eq!(block.len(), 1);
}

#[test]
fn parses_block_headers_no_space() {
    let test_string = "#hello";
    let block = parse_block(test_string.as_bytes());
    let matching_block = BlockElement::Heading(vec![BlockElement::Text(b"hello".to_vec())]);
    assert_eq!(block.len(), 1);
    assert_eq!(block[0], matching_block);
}

#[test]
fn parses_multi_word_headers() {
    let test_string = "#hello world";
    let block = parse_block(test_string.as_bytes());
    let matching_block = BlockElement::Heading(vec![
        BlockElement::Text(b"hello".to_vec()),
        BlockElement::EmptySpace(b" ".to_vec()),
        BlockElement::Text(b"world".to_vec()),
    ]);
    assert_eq!(block.len(), 1);
    assert_eq!(block[0], matching_block);
}

#[test]
fn parses_no_block_headers_when_not_starting_with_sigil() {
    let test_string = "testing #again";
    let block = parse_block(test_string.as_bytes());
    assert_eq!(block.len(), 3);
    let matching_block = BlockElement::Text(b"testing".to_vec());
    assert_eq!(block[0], matching_block);
}

#[test]
fn parses_block_links_alone() {
    let test_string = "[[testing again]]";
    let block = parse_block(test_string.as_bytes());
    assert_eq!(block.len(), 1);
    let matching_block = BlockElement::PageLink(b"testing again".to_vec());
    assert_eq!(block[0], matching_block);
}

#[test]
fn parses_block_links_in_sentences() {
    let test_string = "parsing [[another link]]";
    let block = parse_block(test_string.as_bytes());
    assert_eq!(block.len(), 3);
    let matching_block = BlockElement::PageLink(b"another link".to_vec());
    assert_eq!(block[2], matching_block);
}

#[test]
fn parses_block_links_in_sentences_with_aliases() {
    let test_string = "parsing [[another link|some page]]";
    let block = parse_block(test_string.as_bytes());
    assert_eq!(block.len(), 3);
    let matching_block = BlockElement::PageLink(b"another link|some page".to_vec());
    assert_eq!(block[2], matching_block);
}

#[test]
fn parses_more_complex_sentences_with_links() {
    let test_string = "[[another page]] asdf do the things.";
    let block = parse_block(test_string.as_bytes());
    assert_eq!(block.len(), 9);
    let mut matching_block = BlockElement::PageLink(b"another page".to_vec());
    assert_eq!(block[0], matching_block);

    matching_block = BlockElement::Text(b"asdf".to_vec());
    assert_eq!(block[2], matching_block);
}

#[test]
fn parses_block_text() {
    let test_string = "testing again";
    let block = parse_block(test_string.as_bytes());
    assert_eq!(block.len(), 3);

    let mut matching_block = BlockElement::Text(b"testing".to_vec());
    assert_eq!(block[0], matching_block);

    matching_block = BlockElement::EmptySpace(b" ".to_vec());
    assert_eq!(block[1], matching_block);

    matching_block = BlockElement::Text(b"again".to_vec());
    assert_eq!(block[2], matching_block);
}

#[test]
fn parses_block_text_with_hyperlink() {
    let test_string = "testing http://example.com";
    let block = parse_block(test_string.as_bytes());
    assert_eq!(block.len(), 3);
    let matching_block = BlockElement::HyperLink(b"http://example.com".to_vec());
    assert_eq!(block[2], matching_block)
}

#[test]
fn parses_quotes() {
    let mut test_string = "> testing examples";
    let mut block = parse_block(test_string.as_bytes());
    assert_eq!(block.len(), 1);
    let mut matching_block = BlockElement::Quote(vec![
        BlockElement::Text(b"testing".to_vec()),
        BlockElement::EmptySpace(b" ".to_vec()),
        BlockElement::Text(b"examples".to_vec()),
    ]);
    assert_eq!(block[0], matching_block);

    test_string = "> be invented-according to";

    block = parse_block(test_string.as_bytes());
    assert_eq!(block.len(), 1);
    matching_block = BlockElement::Quote(vec![
        BlockElement::Text(b"be".to_vec()),
        BlockElement::EmptySpace(b" ".to_vec()),
        BlockElement::Text(b"invented-according".to_vec()),
        BlockElement::EmptySpace(b" ".to_vec()),
        BlockElement::Text(b"to".to_vec()),
    ]);

    assert_eq!(block[0], matching_block);
}

#[test]
fn leaf_spans_reconstruct_plain_text_block() {
    // Coverage invariant on a block of leaves alone: the stored contents
    // are the literal source spans, and their concatenation is the block.
    let test_string = "one two\tthree";
    let block = parse_block(test_string.as_bytes());
    let mut rebuilt: Vec<u8> = Vec::new();
    for e in &block {
        match e {
            BlockElement::Text(c) => rebuilt.extend_from_slice(c),
            // An empty-space element stands for exactly one whitespace
            // byte of the source.
            BlockElement::EmptySpace(_) => rebuilt.push(b' '),
            _ => panic!("unexpected element"),
        }
    }
    assert_eq!(rebuilt, b"one two\tthree".map(|b| if b == b'\t' { b' ' } else { b }).to_vec());
    assert_eq!(block.len(), 5);
}

#[test]
fn extracts_alias_and_target_from_embedded_link() {
    let html = to_html(b"before [[another link|some page]] after");
    assert_eq!(html.outlinks.len(), 1);
    assert_eq!(html.outlinks[0], b"some page".to_vec());
    let body = String::from_utf8(html.body).unwrap();
    assert!(body.contains("<a href=\"/some%20page\">another link</a>"));
}

#[test]
fn hyperlink_block_has_three_elements() {
    let block = parse_block(b"testing http://example.com");
    assert_eq!(block.len(), 3);
    assert_eq!(block[2], BlockElement::HyperLink(b"http://example.com".to_vec()));
}
