//! Rendering of parsed block elements to HTML fragments, and extraction of
//! the outlinks (page-link targets) a parse contains.
//!
//! A page link's content may hold `|` separators: the display text is the
//! first segment, the link target the second.  A target that is not itself
//! an HTTP URL resolves to a wiki path, `/` followed by the percent-encoded
//! target.  A hyperlink that matches a known media provider gets that
//! provider's embed fragment prepended before its plain anchor tag.
use vstd::prelude::*;
use vstd::string::StringSliceAdditionalSpecFns;

use crate::block::{is_http, nodes_of, parse_block, parse_elems, BlockElement, BlockNode};
use crate::bytes::{
    contains_bytes, contains_seq, ends_with_bytes, find_byte, index_of, lemma_index_of,
    starts_with_bytes,
};
use crate::trusted::{encoded_of, url_encode};

verus! {

/// The display text of a page link: the segment before the first `|`, or
/// the whole content when there is none.
pub open spec fn link_display(c: Seq<u8>) -> Seq<u8> {
    c.take(index_of(c, 124) as int)
}

/// The target of a page link: the segment between the first and second `|`,
/// or the whole content when there is no separator.
pub open spec fn link_target(c: Seq<u8>) -> Seq<u8> {
    if index_of(c, 124) < c.len() {
        let rest = c.skip(index_of(c, 124) as int + 1);
        rest.take(index_of(rest, 124) as int)
    } else {
        c
    }
}

/// Where a page-link target points: an HTTP URL stays as it is; anything
/// else becomes a wiki path, `/` followed by the percent-encoded target.
pub open spec fn resolve_link(t: Seq<u8>) -> Seq<u8> {
    if is_http(t) {
        t
    } else {
        seq![47u8] + encoded_of(t)
    }
}

/// A plain anchor tag.
pub open spec fn anchor(href: Seq<u8>, text: Seq<u8>) -> Seq<u8> {
    "<a href=\"".spec_bytes() + href + "\">".spec_bytes() + text + "</a>".spec_bytes()
}

/// This library's embed fragment for frame-embeddable providers.
pub open spec fn iframe_embed(url: Seq<u8>) -> Seq<u8> {
    "<iframe src=\"".spec_bytes() + url + "\"></iframe>".spec_bytes()
}

/// This library's embed fragment for audio files.
pub open spec fn audio_embed(url: Seq<u8>) -> Seq<u8> {
    "<audio controls src=\"".spec_bytes() + url + "\"></audio>".spec_bytes()
}

pub open spec fn ends_with_seq(h: Seq<u8>, n: Seq<u8>) -> bool {
    h.len() >= n.len() && h.skip(h.len() - n.len()) == n
}

/// Is the URL an audio file by extension?
pub open spec fn is_audio_url(url: Seq<u8>) -> bool {
    ||| ends_with_seq(url, ".mp3".spec_bytes())
    ||| ends_with_seq(url, ".ogg".spec_bytes())
    ||| ends_with_seq(url, ".flac".spec_bytes())
}

/// The embed fragments a hyperlink earns, one per matching provider, in the
/// order the providers are tested; a URL matching several predicates stacks
/// their fragments.
pub open spec fn hyperlink_embeds(url: Seq<u8>) -> Seq<u8> {
    (if contains_seq(url, "youtube.com".spec_bytes()) || contains_seq(
        url,
        "youtu.be".spec_bytes(),
    ) {
        iframe_embed(url)
    } else {
        Seq::empty()
    }) + (if contains_seq(url, "codesandbox.io".spec_bytes()) {
        iframe_embed(url)
    } else {
        Seq::empty()
    }) + (if contains_seq(url, "codepen.io".spec_bytes()) {
        iframe_embed(url)
    } else {
        Seq::empty()
    }) + (if is_audio_url(url) {
        audio_embed(url)
    } else {
        Seq::empty()
    }) + (if contains_seq(url, "vimeo.com".spec_bytes()) {
        iframe_embed(url)
    } else {
        Seq::empty()
    }) + (if contains_seq(url, "spotify.com".spec_bytes()) {
        iframe_embed(url)
    } else {
        Seq::empty()
    })
}

/// The HTML fragment of one block element.
pub open spec fn render_node(n: BlockNode) -> Seq<u8>
    decreases n, 0nat,
{
    match n {
        BlockNode::Heading(cs) => "<h2>".spec_bytes() + render_nodes(cs) + "</h2>".spec_bytes(),
        BlockNode::Quote(cs) => "<blockquote>".spec_bytes() + render_nodes(cs)
            + "</blockquote>".spec_bytes(),
        BlockNode::PageLink(c) => anchor(resolve_link(link_target(c)), link_display(c)),
        BlockNode::EmptySpace(c) => c,
        BlockNode::Text(c) => c,
        BlockNode::HyperLink(url) => hyperlink_embeds(url) + anchor(url, url),
    }
}

/// The HTML fragments of a sequence of elements, concatenated in order.
pub open spec fn render_nodes(ns: Seq<BlockNode>) -> Seq<u8>
    decreases ns, 1nat,
{
    if ns.len() == 0 {
        Seq::empty()
    } else {
        render_node(ns[0]) + render_nodes(ns.drop_first())
    }
}

proof fn lemma_render_nodes_snoc(ns: Seq<BlockNode>, n: BlockNode)
    ensures
        render_nodes(ns.push(n)) == render_nodes(ns) + render_node(n),
    decreases ns.len(),
{
    let p = ns.push(n);
    assert(p.len() == ns.len() + 1);
    assert(render_nodes(p) == render_node(p[0]) + render_nodes(p.drop_first()));
    if ns.len() == 0 {
        assert(p[0] == n);
        assert(p.drop_first() =~= Seq::<BlockNode>::empty());
        assert(render_nodes(Seq::<BlockNode>::empty()) == Seq::<u8>::empty());
        assert(render_node(n) + Seq::<u8>::empty() =~= render_node(n));
        assert(Seq::<u8>::empty() + render_node(n) =~= render_node(n));
    } else {
        assert(p[0] == ns[0]);
        assert(p.drop_first() =~= ns.drop_first().push(n));
        lemma_render_nodes_snoc(ns.drop_first(), n);
        assert(render_nodes(ns) == render_node(ns[0]) + render_nodes(ns.drop_first()));
        assert(render_node(ns[0]) + (render_nodes(ns.drop_first()) + render_node(n)) =~= (
        render_node(ns[0]) + render_nodes(ns.drop_first())) + render_node(n));
    }
}

/// Append the bytes of `incl` to the rendering target.
pub fn write_to_string(target: &mut Vec<u8>, incl: &[u8])
    ensures
        final(target)@ == old(target)@ + incl@,
{
    target.extend_from_slice(incl);
}

/// Resolve a page-link target to the URL path its anchor uses.
pub fn format_links(link: &[u8]) -> (r: Vec<u8>)
    ensures
        r@ == resolve_link(link@),
{
    let http = starts_with_bytes(link, "http://".as_bytes());
    let https = starts_with_bytes(link, "https://".as_bytes());
    if http || https {
        vstd::slice::slice_to_vec(link)
    } else {
        let mut out: Vec<u8> = vec![47u8];
        let ghost out0 = out@;
        let enc = url_encode(link);
        out.extend_from_slice(enc.as_slice());
        proof {
            assert(out0 =~= seq![47u8]);
        }
        out
    }
}


/// Append the anchor of a page link: display text from the first segment,
/// href resolved from the target segment.
fn write_page_link(target: &mut Vec<u8>, content: &Vec<u8>)
    ensures
        final(target)@ == old(target)@ + anchor(
            resolve_link(link_target(content@)),
            link_display(content@),
        ),
{
    let c = content.as_slice();
    let bar = find_byte(c, 124);
    proof {
        lemma_index_of(c@, 124);
    }
    let display = &c[0..bar];
    let target_seg: &[u8] = if bar < c.len() {
        let rest = &c[bar + 1..c.len()];
        let bar2 = find_byte(rest, 124);
        proof {
            lemma_index_of(rest@, 124);
        }
        &rest[0..bar2]
    } else {
        c
    };
    proof {
        assert(display@ =~= link_display(content@));
        assert(target_seg@ =~= link_target(content@));
    }
    let href = format_links(target_seg);
    write_to_string(target, "<a href=\"".as_bytes());
    write_to_string(target, href.as_slice());
    write_to_string(target, "\">".as_bytes());
    write_to_string(target, display);
    write_to_string(target, "</a>".as_bytes());
}

/// Append a plain anchor tag.
fn write_anchor(target: &mut Vec<u8>, href: &[u8], text: &[u8])
    ensures
        final(target)@ == old(target)@ + anchor(href@, text@),
{
    write_to_string(target, "<a href=\"".as_bytes());
    write_to_string(target, href);
    write_to_string(target, "\">".as_bytes());
    write_to_string(target, text);
    write_to_string(target, "</a>".as_bytes());
}

/// The embed fragments a hyperlink earns, as bytes.
fn hyperlink_embeds_vec(url: &[u8]) -> (r: Vec<u8>)
    ensures
        r@ == hyperlink_embeds(url@),
{
    let ghost f1: Seq<u8> = if contains_seq(url@, "youtube.com".spec_bytes()) || contains_seq(
        url@,
        "youtu.be".spec_bytes(),
    ) {
        iframe_embed(url@)
    } else {
        Seq::empty()
    };
    let ghost f2: Seq<u8> = if contains_seq(url@, "codesandbox.io".spec_bytes()) {
        iframe_embed(url@)
    } else {
        Seq::empty()
    };
    let ghost f3: Seq<u8> = if contains_seq(url@, "codepen.io".spec_bytes()) {
        iframe_embed(url@)
    } else {
        Seq::empty()
    };
    let ghost f4: Seq<u8> = if is_audio_url(url@) {
        audio_embed(url@)
    } else {
        Seq::empty()
    };
    let ghost f5: Seq<u8> = if contains_seq(url@, "vimeo.com".spec_bytes()) {
        iframe_embed(url@)
    } else {
        Seq::empty()
    };
    let ghost f6: Seq<u8> = if contains_seq(url@, "spotify.com".spec_bytes()) {
        iframe_embed(url@)
    } else {
        Seq::empty()
    };
    let mut e: Vec<u8> = Vec::new();
    proof {
        assert(e@ =~= Seq::<u8>::empty());
    }
    if contains_bytes(url, "youtube.com".as_bytes()) || contains_bytes(
        url,
        "youtu.be".as_bytes(),
    ) {
        write_iframe_embed(&mut e, url);
    }
    proof {
        assert(e@ =~= f1);
    }
    if contains_bytes(url, "codesandbox.io".as_bytes()) {
        write_iframe_embed(&mut e, url);
    }
    proof {
        assert(e@ =~= f1 + f2);
    }
    if contains_bytes(url, "codepen.io".as_bytes()) {
        write_iframe_embed(&mut e, url);
    }
    proof {
        assert(e@ =~= (f1 + f2) + f3);
    }
    if ends_with_bytes(url, ".mp3".as_bytes()) || ends_with_bytes(url, ".ogg".as_bytes())
        || ends_with_bytes(url, ".flac".as_bytes()) {
        write_to_string(&mut e, "<audio controls src=\"".as_bytes());
        write_to_string(&mut e, url);
        write_to_string(&mut e, "\"></audio>".as_bytes());
    }
    proof {
        assert(e@ =~= ((f1 + f2) + f3) + f4);
    }
    if contains_bytes(url, "vimeo.com".as_bytes()) {
        write_iframe_embed(&mut e, url);
    }
    proof {
        assert(e@ =~= (((f1 + f2) + f3) + f4) + f5);
    }
    if contains_bytes(url, "spotify.com".as_bytes()) {
        write_iframe_embed(&mut e, url);
    }
    proof {
        assert(e@ =~= ((((f1 + f2) + f3) + f4) + f5) + f6);
    }
    e
}

/// Append the embed fragments and the plain anchor of a hyperlink.
fn write_hyperlink(target: &mut Vec<u8>, url: &[u8])
    ensures
        final(target)@ == old(target)@ + hyperlink_embeds(url@) + anchor(url@, url@),
{
    let embeds = hyperlink_embeds_vec(url);
    write_to_string(target, embeds.as_slice());
    write_anchor(target, url, url);
}

impl BlockElement {
    /// Append this element's HTML fragment to `target`.
    #[verifier::rlimit(60)]
    pub fn collapse_to(&self, target: &mut Vec<u8>)
        ensures
            final(target)@ == old(target)@ + render_node(self@),
        decreases self,
    {
        match self {
            BlockElement::Heading(content) => {
                write_to_string(target, "<h2>".as_bytes());
                collapse_children(content, target);
                write_to_string(target, "</h2>".as_bytes());
                proof {
                    assert((BlockElement::Heading(*content))@->Heading_0 =~= nodes_of(content@));
                }
            },
            BlockElement::Quote(content) => {
                write_to_string(target, "<blockquote>".as_bytes());
                collapse_children(content, target);
                write_to_string(target, "</blockquote>".as_bytes());
                proof {
                    assert((BlockElement::Quote(*content))@->Quote_0 =~= nodes_of(content@));
                }
            },
            BlockElement::PageLink(content) => {
                write_page_link(target, content);
            },
            BlockElement::EmptySpace(content) => {
                write_to_string(target, content.as_slice());
            },
            BlockElement::Text(content) => {
                write_to_string(target, content.as_slice());
            },
            BlockElement::HyperLink(content) => {
                write_hyperlink(target, content.as_slice());
            },
        }
    }
}

/// Append an iframe embed fragment for `url`.
fn write_iframe_embed(target: &mut Vec<u8>, url: &[u8])
    ensures
        final(target)@ == old(target)@ + iframe_embed(url@),
{
    write_to_string(target, "<iframe src=\"".as_bytes());
    write_to_string(target, url);
    write_to_string(target, "\"></iframe>".as_bytes());
}

/// Append the HTML fragments of all elements of `content`, in order.
fn collapse_children(content: &Vec<BlockElement>, target: &mut Vec<u8>)
    ensures
        final(target)@ == old(target)@ + render_nodes(nodes_of(content@)),
    decreases content,
{
    let ghost base = target@;
    let n = content.len();
    let mut i: usize = 0;
    proof {
        assert(nodes_of(content@).take(0) =~= Seq::<BlockNode>::empty());
        assert(base + Seq::<u8>::empty() =~= base);
    }
    while i < n
        invariant
            0 <= i <= n == content@.len(),
            target@ == base + render_nodes(nodes_of(content@).take(i as int)),
        decreases n - i,
    {
        content[i].collapse_to(target);
        proof {
            let ns = nodes_of(content@);
            assert(ns.take(i + 1) =~= ns.take(i as int).push(ns[i as int]));
            lemma_render_nodes_snoc(ns.take(i as int), ns[i as int]);
        }
        i = i + 1;
    }
    proof {
        assert(nodes_of(content@).take(n as int) =~= nodes_of(content@));
    }
}

/// The outlinks of one element: the targets of its page links, in order,
/// looking through headings and quotes.
pub open spec fn outlinks_of_node(n: BlockNode) -> Seq<Seq<u8>>
    decreases n, 0nat,
{
    match n {
        BlockNode::Heading(cs) => outlinks_of_nodes(cs),
        BlockNode::Quote(cs) => outlinks_of_nodes(cs),
        BlockNode::PageLink(c) => seq![link_target(c)],
        _ => Seq::empty(),
    }
}

/// The outlinks of a sequence of elements, in order.
pub open spec fn outlinks_of_nodes(ns: Seq<BlockNode>) -> Seq<Seq<u8>>
    decreases ns, 1nat,
{
    if ns.len() == 0 {
        Seq::empty()
    } else {
        outlinks_of_node(ns[0]) + outlinks_of_nodes(ns.drop_first())
    }
}

proof fn lemma_outlinks_snoc(ns: Seq<BlockNode>, n: BlockNode)
    ensures
        outlinks_of_nodes(ns.push(n)) == outlinks_of_nodes(ns) + outlinks_of_node(n),
    decreases ns.len(),
{
    let p = ns.push(n);
    assert(p.len() == ns.len() + 1);
    assert(outlinks_of_nodes(p) == outlinks_of_node(p[0]) + outlinks_of_nodes(p.drop_first()));
    if ns.len() == 0 {
        assert(p[0] == n);
        assert(p.drop_first() =~= Seq::<BlockNode>::empty());
        assert(outlinks_of_nodes(Seq::<BlockNode>::empty()) == Seq::<Seq<u8>>::empty());
        assert(outlinks_of_node(n) + Seq::<Seq<u8>>::empty() =~= outlinks_of_node(n));
        assert(Seq::<Seq<u8>>::empty() + outlinks_of_node(n) =~= outlinks_of_node(n));
    } else {
        assert(p[0] == ns[0]);
        assert(p.drop_first() =~= ns.drop_first().push(n));
        lemma_outlinks_snoc(ns.drop_first(), n);
        assert(outlinks_of_nodes(ns) == outlinks_of_node(ns[0]) + outlinks_of_nodes(
            ns.drop_first(),
        ));
        assert(outlinks_of_node(ns[0]) + (outlinks_of_nodes(ns.drop_first()) + outlinks_of_node(n))
            =~= (outlinks_of_node(ns[0]) + outlinks_of_nodes(ns.drop_first())) + outlinks_of_node(
            n,
        ));
    }
}

/// The views of a vector of byte vectors.
pub open spec fn seqs_of(s: Seq<Vec<u8>>) -> Seq<Seq<u8>> {
    Seq::new(s.len(), |i: int| s[i]@)
}

/// Collect the outlinks of one element into `out`.
fn collect_outlinks_from(e: &BlockElement, out: &mut Vec<Vec<u8>>)
    ensures
        seqs_of(final(out)@) == seqs_of(old(out)@) + outlinks_of_node(e@),
    decreases e,
{
    match e {
        BlockElement::Heading(content) => {
            collect_outlinks_children(content, out);
            proof {
                assert((BlockElement::Heading(*content))@->Heading_0 =~= nodes_of(content@));
            }
        },
        BlockElement::Quote(content) => {
            collect_outlinks_children(content, out);
            proof {
                assert((BlockElement::Quote(*content))@->Quote_0 =~= nodes_of(content@));
            }
        },
        BlockElement::PageLink(content) => {
            let c = content.as_slice();
            let bar = find_byte(c, 124);
            proof {
                lemma_index_of(c@, 124);
            }
            let target_seg: &[u8] = if bar < c.len() {
                let rest = &c[bar + 1..c.len()];
                let bar2 = find_byte(rest, 124);
                proof {
                    lemma_index_of(rest@, 124);
                }
                &rest[0..bar2]
            } else {
                c
            };
            proof {
                assert(target_seg@ =~= link_target(content@));
            }
            out.push(vstd::slice::slice_to_vec(target_seg));
            proof {
                assert(seqs_of(out@) =~= seqs_of(old(out)@) + seq![link_target(content@)]);
            }
        },
        _ => {
            proof {
                assert(seqs_of(out@) =~= seqs_of(out@) + Seq::<Seq<u8>>::empty());
            }
        },
    }
}

/// Collect the outlinks of all elements of `content` into `out`, in order.
fn collect_outlinks_children(content: &Vec<BlockElement>, out: &mut Vec<Vec<u8>>)
    ensures
        seqs_of(final(out)@) == seqs_of(old(out)@) + outlinks_of_nodes(nodes_of(content@)),
    decreases content,
{
    let ghost base = seqs_of(out@);
    let n = content.len();
    let mut i: usize = 0;
    proof {
        assert(outlinks_of_nodes(nodes_of(content@).take(0)) =~= Seq::<Seq<u8>>::empty());
        assert(base + Seq::<Seq<u8>>::empty() =~= base);
    }
    while i < n
        invariant
            0 <= i <= n == content@.len(),
            seqs_of(out@) == base + outlinks_of_nodes(nodes_of(content@).take(i as int)),
        decreases n - i,
    {
        collect_outlinks_from(&content[i], out);
        proof {
            let ns = nodes_of(content@);
            assert(ns.take(i + 1) =~= ns.take(i as int).push(ns[i as int]));
            lemma_outlinks_snoc(ns.take(i as int), ns[i as int]);
            assert((base + outlinks_of_nodes(ns.take(i as int))) + outlinks_of_node(ns[i as int])
                =~= base + (outlinks_of_nodes(ns.take(i as int)) + outlinks_of_node(
                ns[i as int],
            )));
        }
        i = i + 1;
    }
    proof {
        assert(nodes_of(content@).take(n as int) =~= nodes_of(content@));
    }
}

/// A note body rendered to HTML, with the outlinks its page links name.
pub struct Html {
    pub outlinks: Vec<Vec<u8>>,
    pub body: Vec<u8>,
}

/// Parse a note body and render it: the HTML fragment of every block
/// element in order, and the targets of every page link.
pub fn to_html(content: &[u8]) -> (r: Html)
    ensures
        r.body@ == render_nodes(parse_elems(content@, true)),
        seqs_of(r.outlinks@) == outlinks_of_nodes(parse_elems(content@, true)),
{
    let elements = parse_block(content);
    let mut body: Vec<u8> = Vec::new();
    collapse_children(&elements, &mut body);
    let mut outlinks: Vec<Vec<u8>> = Vec::new();
    collect_outlinks_children(&elements, &mut outlinks);
    proof {
        assert(seqs_of(Seq::<Vec<u8>>::empty()) =~= Seq::<Seq<u8>>::empty());
        assert(Seq::<Seq<u8>>::empty() + outlinks_of_nodes(nodes_of(elements@)) =~= outlinks_of_nodes(
            nodes_of(elements@),
        ));
        assert(Seq::<u8>::empty() + render_nodes(nodes_of(elements@)) =~= render_nodes(
            nodes_of(elements@),
        ));
    }
    Html { outlinks, body }
}

} // verus!
