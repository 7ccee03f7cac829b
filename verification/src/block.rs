//! The wikitext block parser: the raw bytes of one block in, an ordered tree
//! of typed block elements out.
//!
//! The scanner walks the block one byte at a time.  At each unconsumed
//! position a sub-parser is chosen: `#` or `>` at the very start of the
//! slice being scanned opens a heading or quote that swallows the rest of
//! the slice; `[` opens a page link; a space or tab becomes a single
//! empty-space element; anything else is text up to the next whitespace,
//! reclassified as a hyperlink when it starts with an HTTP scheme.
use vstd::prelude::*;
use vstd::string::StringSliceAdditionalSpecFns;

verus! {

/// One parsed element of a block. Container variants (`Heading`, `Quote`)
/// hold the elements parsed from the rest of their slice; leaf variants hold
/// the bytes of their content (for `EmptySpace`, a single space regardless
/// of which whitespace byte was consumed).
#[derive(Debug, PartialEq)]
pub enum BlockElement {
    Heading(Vec<BlockElement>),
    PageLink(Vec<u8>),
    Quote(Vec<BlockElement>),
    EmptySpace(Vec<u8>),
    Text(Vec<u8>),
    HyperLink(Vec<u8>),
}

/// The mathematical shape of a parsed element: the same tree over `Seq`.
pub enum BlockNode {
    Heading(Seq<BlockNode>),
    PageLink(Seq<u8>),
    Quote(Seq<BlockNode>),
    EmptySpace(Seq<u8>),
    Text(Seq<u8>),
    HyperLink(Seq<u8>),
}

impl View for BlockElement {
    type V = BlockNode;

    open spec fn view(&self) -> BlockNode
        decreases self,
    {
        match self {
            BlockElement::Heading(children) => BlockNode::Heading(
                Seq::new(
                    children@.len(),
                    |i: int|
                        if 0 <= i < children@.len() {
                            children@[i]@
                        } else {
                            BlockNode::Text(Seq::empty())
                        },
                ),
            ),
            BlockElement::Quote(children) => BlockNode::Quote(
                Seq::new(
                    children@.len(),
                    |i: int|
                        if 0 <= i < children@.len() {
                            children@[i]@
                        } else {
                            BlockNode::Text(Seq::empty())
                        },
                ),
            ),
            BlockElement::PageLink(s) => BlockNode::PageLink(s@),
            BlockElement::EmptySpace(s) => BlockNode::EmptySpace(s@),
            BlockElement::Text(s) => BlockNode::Text(s@),
            BlockElement::HyperLink(s) => BlockNode::HyperLink(s@),
        }
    }
}

/// The views of a sequence of elements, in order.
pub open spec fn nodes_of(s: Seq<BlockElement>) -> Seq<BlockNode> {
    Seq::new(s.len(), |i: int| s[i]@)
}

pub broadcast proof fn lemma_nodes_of_push(s: Seq<BlockElement>, e: BlockElement)
    ensures
        #[trigger] nodes_of(s.push(e)) == nodes_of(s).push(e@),
{
    assert(nodes_of(s.push(e)) =~= nodes_of(s).push(e@));
}

/// Space or tab: the bytes that open an empty-space element and that a
/// heading or quote sigil skips over.
pub open spec fn is_space(b: u8) -> bool {
    b == 32 || b == 9
}

/// The bytes that end a text span: space, tab, carriage return, line feed.
pub open spec fn is_break(b: u8) -> bool {
    b == 32 || b == 9 || b == 13 || b == 10
}

/// Position of the first text-breaking byte of `s` (`s.len()` if none).
pub open spec fn first_break(s: Seq<u8>) -> nat
    decreases s.len(),
{
    if s.len() == 0 {
        0
    } else if is_break(s[0]) {
        0
    } else {
        1 + first_break(s.drop_first())
    }
}

pub proof fn lemma_first_break(s: Seq<u8>)
    ensures
        first_break(s) <= s.len(),
        forall|j: int| 0 <= j < first_break(s) ==> !is_break(s[j]),
        first_break(s) < s.len() ==> is_break(s[first_break(s) as int]),
    decreases s.len(),
{
    if s.len() > 0 && !is_break(s[0]) {
        lemma_first_break(s.drop_first());
        assert forall|j: int| 0 <= j < first_break(s) implies !is_break(s[j]) by {
            if j > 0 {
                assert(s[j] == s.drop_first()[j - 1]);
            }
        }
    }
}

pub proof fn lemma_strip_spaces_len(s: Seq<u8>)
    ensures
        strip_spaces(s).len() <= s.len(),
    decreases s.len(),
{
    if s.len() > 0 && is_space(s[0]) {
        lemma_strip_spaces_len(s.drop_first());
    }
}

/// Width of a text span: at least one byte is always consumed, even when the
/// scanner stands on a carriage return or line feed.
pub open spec fn text_width(s: Seq<u8>) -> nat {
    if first_break(s) == 0 {
        1
    } else {
        first_break(s)
    }
}

pub open spec fn http_prefix() -> Seq<u8> {
    "http://".spec_bytes()
}

pub open spec fn https_prefix() -> Seq<u8> {
    "https://".spec_bytes()
}

/// Does a text span name a hyperlink?
pub open spec fn is_http(c: Seq<u8>) -> bool {
    ||| (c.len() >= http_prefix().len() && c.take(http_prefix().len() as int) == http_prefix())
    ||| (c.len() >= https_prefix().len() && c.take(https_prefix().len() as int) == https_prefix())
}

/// `s` with its leading run of spaces and tabs removed.
pub open spec fn strip_spaces(s: Seq<u8>) -> Seq<u8>
    decreases s.len(),
{
    if s.len() > 0 && is_space(s[0]) {
        strip_spaces(s.drop_first())
    } else {
        s
    }
}

/// The content of a page link, scanned from the bytes after the opening
/// bracket: further `[` bytes are skipped, the first `]` is noted, the
/// second ends the link, and everything else is content.
pub open spec fn link_inner(s: Seq<u8>, end_detected: bool) -> Seq<u8>
    decreases s.len(),
{
    if s.len() == 0 {
        Seq::empty()
    } else if s[0] == 91 {
        link_inner(s.drop_first(), end_detected)
    } else if s[0] == 93 {
        if end_detected {
            Seq::empty()
        } else {
            link_inner(s.drop_first(), true)
        }
    } else {
        seq![s[0]] + link_inner(s.drop_first(), end_detected)
    }
}

/// How many bytes the scanner advances for the first element of a non-empty
/// slice `s`; `at_start` is whether `s` begins the slice being scanned,
/// where alone heading and quote sigils count.
pub open spec fn elem_width(s: Seq<u8>, at_start: bool) -> nat
    recommends
        s.len() > 0,
{
    if (s[0] == 35 || s[0] == 62) && at_start {
        s.len()
    } else if s[0] == 91 {
        link_inner(s.drop_first(), false).len() + 4
    } else if is_space(s[0]) {
        1
    } else {
        text_width(s)
    }
}

/// The first element parsed from a non-empty slice `s`.
pub open spec fn first_node(s: Seq<u8>, at_start: bool) -> BlockNode
    recommends
        s.len() > 0,
    decreases s.len(), 0nat,
    via first_node_decreases
{
    if s.len() == 0 {
        BlockNode::Text(Seq::empty())
    } else if s[0] == 35 && at_start {
        BlockNode::Heading(parse_elems(strip_spaces(s.drop_first()), true))
    } else if s[0] == 62 && at_start {
        BlockNode::Quote(parse_elems(strip_spaces(s.drop_first()), true))
    } else if s[0] == 91 {
        BlockNode::PageLink(link_inner(s.drop_first(), false))
    } else if is_space(s[0]) {
        BlockNode::EmptySpace(seq![32u8])
    } else {
        let c = s.take(text_width(s) as int);
        if is_http(c) {
            BlockNode::HyperLink(c)
        } else {
            BlockNode::Text(c)
        }
    }
}

#[via_fn]
proof fn first_node_decreases(s: Seq<u8>, at_start: bool) {
    if s.len() > 0 {
        lemma_strip_spaces_len(s.drop_first());
    }
}

/// The parse of a whole slice: the first element, then the parse of what
/// lies beyond its span. Heading and quote sigils count only at the very
/// first position; the scanner stops once an element's span reaches or
/// passes the end of the slice.
pub open spec fn parse_elems(s: Seq<u8>, at_start: bool) -> Seq<BlockNode>
    decreases s.len(), 1nat,
{
    if s.len() == 0 {
        Seq::empty()
    } else {
        let w = elem_width(s, at_start);
        let e = first_node(s, at_start);
        if w >= s.len() {
            seq![e]
        } else {
            seq![e] + parse_elems(s.skip(w as int), false)
        }
    }
}

/// The literal source spans of the parse of `s`, in order: the region of
/// the input each produced element consumed, the last clamped to the end of
/// the slice.
pub open spec fn elem_spans(s: Seq<u8>, at_start: bool) -> Seq<Seq<u8>>
    decreases s.len(),
{
    if s.len() == 0 {
        Seq::empty()
    } else {
        let w = elem_width(s, at_start);
        if w >= s.len() {
            seq![s]
        } else {
            seq![s.take(w as int)] + elem_spans(s.skip(w as int), false)
        }
    }
}

/// Concatenation of a sequence of byte sequences.
pub open spec fn concat_all(ss: Seq<Seq<u8>>) -> Seq<u8>
    decreases ss.len(),
{
    if ss.len() == 0 {
        Seq::empty()
    } else {
        ss[0] + concat_all(ss.drop_first())
    }
}

/// Coverage law of the parser: the literal source spans of the produced
/// elements, one span per element, concatenate back to the original block
/// exactly — no gaps, no overlaps.
pub proof fn lemma_spans_reconstruct_block(s: Seq<u8>)
    ensures
        concat_all(elem_spans(s, true)) == s,
        elem_spans(s, true).len() == parse_elems(s, true).len(),
{
    lemma_spans_cover(s, true);
}

proof fn lemma_spans_cover(s: Seq<u8>, at_start: bool)
    ensures
        concat_all(elem_spans(s, at_start)) == s,
        elem_spans(s, at_start).len() == parse_elems(s, at_start).len(),
    decreases s.len(),
{
    if s.len() == 0 {
        assert(concat_all(elem_spans(s, at_start)) =~= s);
    } else {
        let w = elem_width(s, at_start);
        if w >= s.len() {
            assert(elem_spans(s, at_start) =~= seq![s]);
            assert(seq![s].drop_first() =~= Seq::<Seq<u8>>::empty());
            assert(concat_all(seq![s]) == s + concat_all(Seq::<Seq<u8>>::empty()));
            assert(s + Seq::<u8>::empty() =~= s);
        } else {
            let rest = s.skip(w as int);
            lemma_spans_cover(rest, false);
            let spans = elem_spans(s, at_start);
            assert(spans.drop_first() =~= elem_spans(rest, false));
            assert(spans[0] == s.take(w as int));
            assert(concat_all(spans) == s.take(w as int) + concat_all(elem_spans(rest, false)));
            assert(s.take(w as int) + rest =~= s);
        }
    }
}


/// The text-node rule: the span up to the next whitespace, reclassified as
/// a hyperlink when it starts with an HTTP scheme.
pub open spec fn text_node(s: Seq<u8>) -> BlockNode {
    let c = s.take(text_width(s) as int);
    if is_http(c) {
        BlockNode::HyperLink(c)
    } else {
        BlockNode::Text(c)
    }
}

proof fn lemma_first_break_is(s: Seq<u8>, m: int)
    requires
        0 <= m <= s.len(),
        forall|k: int| 0 <= k < m ==> !is_break(s[k]),
        m < s.len() ==> is_break(s[m]),
    ensures
        first_break(s) == m,
    decreases s.len(),
{
    if s.len() > 0 && !is_break(s[0]) {
        assert forall|k: int| 0 <= k < m - 1 implies !is_break(s.drop_first()[k]) by {
            assert(s.drop_first()[k] == s[k + 1]);
        }
        assert(m - 1 < s.drop_first().len() ==> is_break(s.drop_first()[m - 1]));
        lemma_first_break_is(s.drop_first(), m - 1);
    }
}

pub broadcast proof fn lemma_heading_view(c: Vec<BlockElement>)
    ensures
        #[trigger] (BlockElement::Heading(c))@ == BlockNode::Heading(nodes_of(c@)),
{
    let e = BlockElement::Heading(c);
    assert(e@->Heading_0 =~= nodes_of(c@));
}

pub broadcast proof fn lemma_quote_view(c: Vec<BlockElement>)
    ensures
        #[trigger] (BlockElement::Quote(c))@ == BlockNode::Quote(nodes_of(c@)),
{
    let e = BlockElement::Quote(c);
    assert(e@->Quote_0 =~= nodes_of(c@));
}

/// Does `v` begin with the bytes of `p`?
fn starts_with_bytes(v: &[u8], p: &[u8]) -> (r: bool)
    ensures
        r == (v@.len() >= p@.len() && v@.take(p@.len() as int) == p@),
{
    if v.len() < p.len() {
        return false;
    }
    let mut i: usize = 0;
    while i < p.len()
        invariant
            0 <= i <= p.len() <= v.len(),
            forall|k: int| 0 <= k < i ==> v@[k] == p@[k],
        decreases p.len() - i,
    {
        if v[i] != p[i] {
            assert(v@.take(p@.len() as int)[i as int] != p@[i as int]);
            return false;
        }
        i = i + 1;
    }
    proof {
        assert(v@.take(p@.len() as int) =~= p@);
    }
    true
}

/// The text sub-parser: the bytes from `pos` up to the next whitespace (at
/// least one byte).
fn until_empty_space(input: &[u8], pos: usize) -> (content: Vec<u8>)
    requires
        pos < input@.len(),
    ensures
        content@ == input@.skip(pos as int).take(text_width(input@.skip(pos as int)) as int),
        content@.len() == text_width(input@.skip(pos as int)),
        pos + content@.len() <= input@.len(),
{
    let ghost s = input@.skip(pos as int);
    let n = input.len();
    let mut j: usize = pos;
    while j < n && input[j] != 32 && input[j] != 9 && input[j] != 13 && input[j] != 10
        invariant
            pos <= j <= n == input@.len(),
            forall|k: int| pos <= k < j ==> !is_break(input@[k]),
        decreases input@.len() - j,
    {
        j = j + 1;
    }
    proof {
        assert forall|k: int| 0 <= k < j - pos implies !is_break(s[k]) by {
            assert(s[k] == input@[pos + k]);
        }
        if (j as int) - (pos as int) < s.len() {
            assert(s[j - pos] == input@[j as int]);
        }
        lemma_first_break_is(s, j as int - pos as int);
    }
    if j == pos {
        let content = vec![input[pos]];
        proof {
            assert(content@ =~= s.take(1));
        }
        content
    } else {
        let content = vstd::slice::slice_to_vec(&input[pos..j]);
        proof {
            assert(input@.subrange(pos as int, j as int) =~= s.take(j - pos));
        }
        content
    }
}

/// The page-link sub-parser: scans from the byte after the opening bracket,
/// skipping stray `[`, through the second `]`.
fn parse_link(input: &[u8], pos: usize) -> (content: Vec<u8>)
    requires
        pos < input@.len(),
    ensures
        content@ == link_inner(input@.skip(pos as int + 1), false),
{
    let ghost s1 = input@.skip(pos as int + 1);
    let n = input.len();
    let mut link: Vec<u8> = Vec::new();
    let mut j: usize = pos + 1;
    let mut end_detected = false;
    loop
        invariant
            pos + 1 <= j <= n == input@.len(),
            link_inner(s1, false) == link@ + link_inner(input@.skip(j as int), end_detected),
        ensures
            link@ == link_inner(s1, false),
        decreases input@.len() - j,
    {
        if j == n {
            proof {
                assert(input@.skip(j as int) =~= Seq::<u8>::empty());
                assert(link@ + Seq::<u8>::empty() =~= link@);
            }
            break;
        }
        let ghost sj = input@.skip(j as int);
        proof {
            assert(sj[0] == input@[j as int]);
            assert(sj.drop_first() =~= input@.skip(j as int + 1));
        }
        let b = input[j];
        if b == 91 {
            j = j + 1;
        } else if b == 93 {
            if !end_detected {
                end_detected = true;
                j = j + 1;
            } else {
                proof {
                    assert(link_inner(sj, true) =~= Seq::<u8>::empty());
                    assert(link@ + Seq::<u8>::empty() =~= link@);
                }
                break;
            }
        } else {
            link.push(b);
            proof {
                assert(link@ + link_inner(input@.skip(j as int + 1), end_detected) =~= link@.drop_last()
                    + (seq![b] + link_inner(input@.skip(j as int + 1), end_detected)));
            }
            j = j + 1;
        }
    }
    link
}

/// Skips the sigil at `pos` and the spaces and tabs after it, then parses
/// the rest of the slice as the children of a heading or quote.
fn container_children(input: &[u8], pos: usize) -> (children: Vec<BlockElement>)
    requires
        pos < input@.len(),
    ensures
        nodes_of(children@) == parse_elems(strip_spaces(input@.skip(pos as int + 1)), true),
    decreases input@.len() - pos, 0nat,
{
    let ghost t = input@.skip(pos as int + 1);
    let n = input.len();
    let mut k: usize = pos + 1;
    while k < n && (input[k] == 32 || input[k] == 9)
        invariant
            pos + 1 <= k <= n == input@.len(),
            strip_spaces(t) == strip_spaces(input@.skip(k as int)),
        decreases input@.len() - k,
    {
        proof {
            let sk = input@.skip(k as int);
            assert(sk[0] == input@[k as int]);
            assert(sk.drop_first() =~= input@.skip(k as int + 1));
        }
        k = k + 1;
    }
    proof {
        let sk = input@.skip(k as int);
        if k < input@.len() {
            assert(sk[0] == input@[k as int]);
        }
        assert(strip_spaces(sk) == sk);
    }
    iterate_slice(input, k)
}

/// The heading sub-parser: wraps the parse of the rest of the slice.
fn parse_heading(input: &[u8], pos: usize) -> (e: BlockElement)
    requires
        pos < input@.len(),
    ensures
        e@ == BlockNode::Heading(parse_elems(strip_spaces(input@.skip(pos as int + 1)), true)),
    decreases input@.len() - pos, 1nat,
{
    broadcast use lemma_heading_view;

    BlockElement::Heading(container_children(input, pos))
}

/// The quote sub-parser: wraps the parse of the rest of the slice.
fn parse_quote(input: &[u8], pos: usize) -> (e: BlockElement)
    requires
        pos < input@.len(),
    ensures
        e@ == BlockNode::Quote(parse_elems(strip_spaces(input@.skip(pos as int + 1)), true)),
    decreases input@.len() - pos, 1nat,
{
    broadcast use lemma_quote_view;

    BlockElement::Quote(container_children(input, pos))
}

/// The empty-space sub-parser: always a single space.
fn parse_empty_space() -> (e: BlockElement)
    ensures
        e@ == BlockNode::EmptySpace(seq![32u8]),
{
    let content = vec![32u8];
    proof {
        assert(content@ =~= seq![32u8]);
    }
    BlockElement::EmptySpace(content)
}

/// The text sub-parser: the span up to the next whitespace, reclassified as
/// a hyperlink when it begins with an HTTP scheme.
fn parse_text(input: &[u8], pos: usize) -> (r: (BlockElement, usize))
    requires
        pos < input@.len(),
    ensures
        r.0@ == text_node(input@.skip(pos as int)),
        r.1 == text_width(input@.skip(pos as int)),
        pos + r.1 <= input@.len(),
        r.1 >= 1,
    decreases input@.len() - pos,
{
    let content = until_empty_space(input, pos);
    let w = content.len();
    let is_link = starts_with_bytes(content.as_slice(), "http://".as_bytes())
        || starts_with_bytes(content.as_slice(), "https://".as_bytes());
    if is_link {
        (BlockElement::HyperLink(content), w)
    } else {
        (BlockElement::Text(content), w)
    }
}

/// The scanner over one slice: dispatches a sub-parser at every unconsumed
/// position, stepping forward by each element\'s span.
fn iterate_slice(input: &[u8], from: usize) -> (r: Vec<BlockElement>)
    requires
        from <= input@.len(),
    ensures
        nodes_of(r@) == parse_elems(input@.skip(from as int), true),
    decreases input@.len() - from, 2nat,
{
    broadcast use lemma_nodes_of_push;

    let ghost s0 = input@.skip(from as int);
    let mut elements: Vec<BlockElement> = Vec::new();
    let mut pos: usize = from;
    let mut at_start = true;
    proof {
        assert(nodes_of(elements@) + parse_elems(s0, true) =~= parse_elems(s0, true));
    }
    let n = input.len();
    loop
        invariant
            from <= pos <= n == input@.len(),
            at_start ==> pos == from,
            parse_elems(s0, true) == nodes_of(elements@) + parse_elems(
                input@.skip(pos as int),
                at_start,
            ),
        ensures
            nodes_of(elements@) == parse_elems(s0, true),
        decreases input@.len() - pos,
    {
        if pos == n {
            proof {
                assert(input@.skip(pos as int) =~= Seq::<u8>::empty());
                assert(parse_elems(input@.skip(pos as int), at_start) =~= Seq::<
                    BlockNode,
                >::empty());
                assert(nodes_of(elements@) + Seq::<BlockNode>::empty() =~= nodes_of(elements@));
            }
            break;
        }
        let ghost st = input@.skip(pos as int);
        proof {
            assert(st[0] == input@[pos as int]);
            assert(st.drop_first() =~= input@.skip(pos as int + 1));
        }
        let b = input[pos];
        let new_pos: usize;
        let elem: BlockElement;
        if (b == 35 || b == 62) && at_start {
            if b == 35 {
                elem = parse_heading(input, pos);
            } else {
                elem = parse_quote(input, pos);
            }
            new_pos = input.len();
            proof {
                assert(elem@ == first_node(st, at_start));
                assert(elem_width(st, at_start) == st.len());
            }
        } else if b == 91 {
            let content = parse_link(input, pos);
            let clen = content.len();
            elem = BlockElement::PageLink(content);
            let remaining = input.len() - pos;
            if remaining <= 4 || clen >= remaining - 4 {
                new_pos = input.len();
                proof {
                    assert(elem_width(st, at_start) >= st.len());
                }
            } else {
                new_pos = pos + clen + 4;
                proof {
                    assert(elem_width(st, at_start) == clen + 4 < st.len());
                }
            }
            proof {
                assert(elem@ == first_node(st, at_start));
            }
        } else if b == 32 || b == 9 {
            elem = parse_empty_space();
            new_pos = pos + 1;
            proof {
                assert(elem@ == first_node(st, at_start));
                assert(elem_width(st, at_start) == 1);
            }
        } else {
            let (e, w) = parse_text(input, pos);
            elem = e;
            new_pos = pos + w;
            proof {
                assert(elem@ == first_node(st, at_start));
                assert(elem_width(st, at_start) == text_width(st));
            }
        }
        proof {
            let w = elem_width(st, at_start);
            if w >= st.len() {
                assert(parse_elems(st, at_start) == seq![elem@]);
                assert(new_pos == input@.len());
                assert(input@.skip(new_pos as int) =~= Seq::<u8>::empty());
                assert(parse_elems(input@.skip(new_pos as int), false) =~= Seq::<
                    BlockNode,
                >::empty());
                assert(nodes_of(elements@.push(elem)) + Seq::<BlockNode>::empty() =~= nodes_of(
                    elements@,
                ) + seq![elem@]);
            } else {
                assert(st.skip(w as int) =~= input@.skip(pos as int + w));
                assert(new_pos == pos + w);
                assert(parse_elems(st, at_start) == seq![elem@] + parse_elems(
                    input@.skip(new_pos as int),
                    false,
                ));
                assert(nodes_of(elements@.push(elem)) + parse_elems(
                    input@.skip(new_pos as int),
                    false,
                ) =~= nodes_of(elements@) + (seq![elem@] + parse_elems(
                    input@.skip(new_pos as int),
                    false,
                )));
            }
        }
        elements.push(elem);
        pos = new_pos;
        at_start = false;
    }
    elements
}

/// Parse one block of raw bytes into its ordered tree of block elements.
pub fn parse_block(block: &[u8]) -> (r: Vec<BlockElement>)
    ensures
        nodes_of(r@) == parse_elems(block@, true),
{
    proof {
        assert(block@.skip(0) =~= block@);
    }
    iterate_slice(block, 0)
}

} // verus!
