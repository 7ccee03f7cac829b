//! Page templates and the note-to-template step: a note's metadata and
//! parsed body become a renderable page, and a page plus a template file's
//! bytes become the final HTML through placeholder substitution.
use vstd::prelude::*;
use vstd::string::StringSliceAdditionalSpecFns;

use crate::block::{is_space, parse_elems, strip_spaces};
use crate::bytes::{eq_bytes, find_byte, index_of, lemma_index_of, replace_all, replaced};
use crate::notes::{kv_lookup, meta_get, Note};
use crate::render::{
    outlinks_of_nodes, render_nodes, resolve_link, seqs_of, to_html, write_to_string,
};

verus! {

pub struct BasicPage {
    pub title: Vec<u8>,
    pub body: Vec<u8>,
    pub tags: Vec<Vec<u8>>,
    pub raw_md: Vec<u8>,
    pub metadata: Vec<(Vec<u8>, Vec<u8>)>,
    pub backlinks: Vec<Vec<u8>>,
    pub render_static: bool,
}

pub struct StylesPage {
    pub body: Vec<u8>,
}

pub struct NewPage {
    pub title: Option<Vec<u8>>,
    pub linkto: Option<Vec<u8>>,
    pub action_params: Option<Vec<u8>>,
}

pub struct LoginPage {}

pub struct HelpPage {}

pub struct SearchPage {}

pub struct SearchResultsPage {
    pub pages: Vec<Vec<u8>>,
}

pub struct FileUploader {}

pub struct TagIndex {
    pub tags: Vec<(Vec<u8>, Vec<Vec<u8>>)>,
}

pub struct IndexPage {
    pub user: Vec<u8>,
}

pub struct TagPage {
    pub title: Vec<u8>,
    pub tags: Vec<Vec<u8>>,
}

pub struct LinkPage {
    pub links: Vec<(Vec<u8>, Vec<Vec<u8>>)>,
}

/// A note rendered for templating: title, HTML body, tags, the raw
/// wikitext, the metadata left to display, and a short description.
pub struct TemplattedPage {
    pub title: Vec<u8>,
    pub body: Vec<u8>,
    pub tags: Vec<Vec<u8>>,
    pub raw_md: Vec<u8>,
    pub metadata: Vec<(Vec<u8>, Vec<u8>)>,
    pub desc: Vec<u8>,
}

/// A templated page together with the outlinks its body names.
pub struct ParsedTemplate {
    pub outlinks: Vec<Vec<u8>>,
    pub page: TemplattedPage,
}

/// `s` without trailing spaces and tabs.
pub open spec fn strip_spaces_end(s: Seq<u8>) -> Seq<u8>
    decreases s.len(),
{
    if s.len() > 0 && is_space(s.last()) {
        strip_spaces_end(s.drop_last())
    } else {
        s
    }
}

/// `s` trimmed of spaces and tabs on both ends.
pub open spec fn trimmed(s: Seq<u8>) -> Seq<u8> {
    strip_spaces_end(strip_spaces(s))
}

/// The tags recorded in a raw comma-separated tags value: each segment
/// trimmed, empty segments dropped.
pub open spec fn split_tags(s: Seq<u8>) -> Seq<Seq<u8>>
    decreases s.len(),
{
    if s.len() == 0 {
        Seq::empty()
    } else {
        let c = index_of(s, 44);
        let seg = trimmed(s.take(c as int));
        let rest = if c < s.len() {
            split_tags(s.skip(c as int + 1))
        } else {
            Seq::<Seq<u8>>::empty()
        };
        (if seg.len() > 0 {
            seq![seg]
        } else {
            Seq::<Seq<u8>>::empty()
        }) + rest
    }
}

/// Trim spaces and tabs from both ends of `v`.
fn trim_bytes(v: &[u8]) -> (r: Vec<u8>)
    ensures
        r@ == trimmed(v@),
{
    let n = v.len();
    let mut a: usize = 0;
    proof {
        assert(v@.skip(0) =~= v@);
    }
    while a < n && (v[a] == 32 || v[a] == 9)
        invariant
            0 <= a <= n == v@.len(),
            strip_spaces(v@) == strip_spaces(v@.skip(a as int)),
        decreases n - a,
    {
        proof {
            let sa = v@.skip(a as int);
            assert(sa[0] == v@[a as int]);
            assert(sa.drop_first() =~= v@.skip(a as int + 1));
        }
        a = a + 1;
    }
    proof {
        let sa = v@.skip(a as int);
        if a < n {
            assert(sa[0] == v@[a as int]);
        }
        assert(strip_spaces(sa) == sa);
    }
    let mut b: usize = n;
    while b > a && (v[b - 1] == 32 || v[b - 1] == 9)
        invariant
            a <= b <= n == v@.len(),
            strip_spaces_end(v@.skip(a as int)) == strip_spaces_end(v@.subrange(a as int, b as int)),
        decreases b,
    {
        proof {
            let sub = v@.subrange(a as int, b as int);
            assert(sub.last() == v@[b - 1]);
            assert(sub.drop_last() =~= v@.subrange(a as int, b - 1));
        }
        b = b - 1;
    }
    proof {
        let sub = v@.subrange(a as int, b as int);
        if b > a {
            assert(sub.last() == v@[b - 1]);
        }
        assert(strip_spaces_end(sub) == sub);
    }
    vstd::slice::slice_to_vec(&v[a..b])
}

/// Parse a raw comma-separated tags value into its tag list.
pub fn parse_tags(raw: &[u8]) -> (r: Vec<Vec<u8>>)
    ensures
        seqs_of(r@) == split_tags(raw@),
{
    let n = raw.len();
    let mut out: Vec<Vec<u8>> = Vec::new();
    let mut pos: usize = 0;
    proof {
        assert(raw@.skip(0) =~= raw@);
        assert(seqs_of(out@) =~= Seq::<Seq<u8>>::empty());
        assert(Seq::<Seq<u8>>::empty() + split_tags(raw@) =~= split_tags(raw@));
    }
    while pos < n
        invariant
            0 <= pos <= n == raw@.len(),
            split_tags(raw@) == seqs_of(out@) + split_tags(raw@.skip(pos as int)),
        decreases n - pos,
    {
        let ghost sp = raw@.skip(pos as int);
        let c = find_byte(&raw[pos..n], 44);
        proof {
            assert(raw@.subrange(pos as int, n as int) =~= sp);
            lemma_index_of(sp, 44);
        }
        let seg = trim_bytes(&raw[pos..pos + c]);
        proof {
            assert(raw@.subrange(pos as int, pos + c) =~= sp.take(c as int));
        }
        let ghost out0 = out@;
        if seg.len() > 0 {
            out.push(seg);
            proof {
                assert(seqs_of(out@) =~= seqs_of(out0) + seq![trimmed(sp.take(c as int))]);
            }
        } else {
            proof {
                assert(seqs_of(out@) =~= seqs_of(out0) + Seq::<Seq<u8>>::empty());
            }
        }
        if pos + c == n {
            pos = n;
            proof {
                assert(split_tags(raw@.skip(n as int)) =~= Seq::<Seq<u8>>::empty());
                assert(seqs_of(out@) + Seq::<Seq<u8>>::empty() =~= seqs_of(out@));
                assert(seqs_of(out0) + ((if trimmed(sp.take(c as int)).len() > 0 {
                    seq![trimmed(sp.take(c as int))]
                } else {
                    Seq::<Seq<u8>>::empty()
                }) + Seq::<Seq<u8>>::empty()) =~= seqs_of(out@));
            }
        } else {
            proof {
                assert(sp.skip(c as int + 1) =~= raw@.skip(pos + c + 1));
                assert(seqs_of(out0) + ((if trimmed(sp.take(c as int)).len() > 0 {
                    seq![trimmed(sp.take(c as int))]
                } else {
                    Seq::<Seq<u8>>::empty()
                }) + split_tags(raw@.skip(pos + c + 1))) =~= seqs_of(out@) + split_tags(
                    raw@.skip(pos + c + 1),
                ));
            }
            pos = pos + c + 1;
        }
    }
    proof {
        assert(raw@.skip(n as int) =~= Seq::<u8>::empty());
        assert(seqs_of(out@) + split_tags(Seq::<u8>::empty()) =~= seqs_of(out@));
    }
    out
}

/// The title a note presents: its `title` metadata, or `Untitled`.
pub open spec fn title_of(h: Seq<(Vec<u8>, Vec<u8>)>) -> Seq<u8> {
    match kv_lookup(h, "title".spec_bytes()) {
        Option::Some(t) => t,
        Option::None => "Untitled".spec_bytes(),
    }
}

/// The raw tags value of a note: its `tags` metadata, or nothing.
pub open spec fn tags_raw_of(h: Seq<(Vec<u8>, Vec<u8>)>) -> Seq<u8> {
    match kv_lookup(h, "tags".spec_bytes()) {
        Option::Some(t) => t,
        Option::None => Seq::empty(),
    }
}

/// The metadata shown in a page's table: everything but the `title` and
/// `tags` entries, which the page already presents.
pub open spec fn shown_meta(h: Seq<(Vec<u8>, Vec<u8>)>) -> Seq<(Seq<u8>, Seq<u8>)>
    decreases h.len(),
{
    if h.len() == 0 {
        Seq::empty()
    } else if h[0].0@ == "title".spec_bytes() || h[0].0@ == "tags".spec_bytes() {
        shown_meta(h.drop_first())
    } else {
        seq![(h[0].0@, h[0].1@)] + shown_meta(h.drop_first())
    }
}

/// The views of a metadata list.
pub open spec fn kv_views(s: Seq<(Vec<u8>, Vec<u8>)>) -> Seq<(Seq<u8>, Seq<u8>)> {
    Seq::new(s.len(), |i: int| (s[i].0@, s[i].1@))
}

/// A note's short description: its content, cut to eighty bytes with an
/// ellipsis when it runs a hundred bytes or more.
pub open spec fn desc_of(content: Seq<u8>) -> Seq<u8> {
    if content.len() >= 100 {
        content.take(80) + "...".spec_bytes()
    } else {
        content
    }
}

/// Turn a note into its renderable page: parse and render the body,
/// resolve title and tags from the metadata, keep the rest of the metadata
/// for display, and cut a short description.
pub fn to_template(note: &Note) -> (r: ParsedTemplate)
    ensures
        r.page.title@ == title_of(note.header@),
        r.page.body@ == render_nodes(parse_elems(note.content@, true)),
        seqs_of(r.outlinks@) == outlinks_of_nodes(parse_elems(note.content@, true)),
        seqs_of(r.page.tags@) == split_tags(tags_raw_of(note.header@)),
        kv_views(r.page.metadata@) == shown_meta(note.header@),
        r.page.raw_md@ == note.content@,
        r.page.desc@ == desc_of(note.content@),
{
    proof {
        reveal_strlit("title");
        reveal_strlit("tags");
    }
    let html = to_html(note.content.as_slice());
    let title: Vec<u8> = match meta_get(&note.header, "title".as_bytes()) {
        Some(t) => vstd::slice::slice_to_vec(t.as_slice()),
        None => {
            let u: &[u8] = "Untitled".as_bytes();
            vstd::slice::slice_to_vec(u)
        },
    };
    let tags: Vec<Vec<u8>> = match meta_get(&note.header, "tags".as_bytes()) {
        Some(t) => parse_tags(t.as_slice()),
        None => {
            let r = Vec::new();
            proof {
                assert(seqs_of(r@) =~= split_tags(Seq::<u8>::empty()));
            }
            r
        },
    };
    let n = note.header.len();
    let mut metadata: Vec<(Vec<u8>, Vec<u8>)> = Vec::new();
    let mut i: usize = 0;
    proof {
        assert(note.header@.skip(0) =~= note.header@);
        assert(kv_views(metadata@) =~= Seq::<(Seq<u8>, Seq<u8>)>::empty());
        assert(Seq::<(Seq<u8>, Seq<u8>)>::empty() + shown_meta(note.header@) =~= shown_meta(
            note.header@,
        ));
    }
    while i < n
        invariant
            0 <= i <= n == note.header@.len(),
            shown_meta(note.header@) == kv_views(metadata@) + shown_meta(
                note.header@.skip(i as int),
            ),
        decreases n - i,
    {
        let ghost hi = note.header@.skip(i as int);
        proof {
            assert(hi[0] == note.header@[i as int]);
            assert(hi.drop_first() =~= note.header@.skip(i as int + 1));
        }
        let e = &note.header[i];
        let hidden = eq_bytes(e.0.as_slice(), "title".as_bytes()) || eq_bytes(
            e.0.as_slice(),
            "tags".as_bytes(),
        );
        if !hidden {
            metadata.push(
                (vstd::slice::slice_to_vec(e.0.as_slice()), vstd::slice::slice_to_vec(
                    e.1.as_slice(),
                )),
            );
            proof {
                assert(kv_views(metadata@) + shown_meta(note.header@.skip(i as int + 1))
                    =~= kv_views(metadata@.drop_last()) + (seq![(hi[0].0@, hi[0].1@)] + shown_meta(
                    note.header@.skip(i as int + 1),
                )));
            }
        }
        i = i + 1;
    }
    proof {
        assert(note.header@.skip(n as int) =~= Seq::<(Vec<u8>, Vec<u8>)>::empty());
        assert(kv_views(metadata@) + Seq::<(Seq<u8>, Seq<u8>)>::empty() =~= kv_views(metadata@));
    }
    let desc: Vec<u8> = if note.content.len() >= 100 {
        let mut d = vstd::slice::slice_to_vec(&note.content.as_slice()[0..80]);
        write_to_string(&mut d, "...".as_bytes());
        proof {
            assert(d@ =~= desc_of(note.content@));
        }
        d
    } else {
        vstd::slice::slice_to_vec(note.content.as_slice())
    };
    let page = TemplattedPage {
        title,
        body: html.body,
        tags,
        raw_md: vstd::slice::slice_to_vec(note.content.as_slice()),
        metadata,
        desc,
    };
    ParsedTemplate { outlinks: html.outlinks, page }
}

/// Consecutive-duplicate removal, scanning left to right; `prev` is the
/// element last kept.
pub open spec fn dedup_from(s: Seq<Seq<u8>>, prev: Option<Seq<u8>>) -> Seq<Seq<u8>>
    decreases s.len(),
{
    if s.len() == 0 {
        Seq::empty()
    } else if prev == Option::Some(s[0]) {
        dedup_from(s.drop_first(), prev)
    } else {
        seq![s[0]] + dedup_from(s.drop_first(), Option::Some(s[0]))
    }
}

/// One tag's list item in a page's tag line.
pub open spec fn tag_line(t: Seq<u8>) -> Seq<u8> {
    "<li><a href=\"/tags/".spec_bytes() + t + "\">#".spec_bytes() + t + "</a></li>".spec_bytes()
}

/// One backlink's anchor in a page's links block.
pub open spec fn backlink_line(l: Seq<u8>) -> Seq<u8> {
    "<a href=\"".spec_bytes() + resolve_link(l) + "\">".spec_bytes() + l + "</a>".spec_bytes()
}

/// The tag list items of a tag sequence.
pub open spec fn mapped_tag_lines(ts: Seq<Seq<u8>>) -> Seq<Seq<u8>> {
    Seq::new(ts.len(), |i: int| tag_line(ts[i]))
}

/// The backlink anchors of a backlink sequence.
pub open spec fn mapped_backlink_lines(ls: Seq<Seq<u8>>) -> Seq<Seq<u8>> {
    Seq::new(ls.len(), |i: int| backlink_line(ls[i]))
}

/// Lines joined by a single line feed.
pub open spec fn joined_lines(s: Seq<Seq<u8>>) -> Seq<u8>
    decreases s.len(),
{
    if s.len() == 0 {
        Seq::empty()
    } else if s.len() == 1 {
        s[0]
    } else {
        s[0] + seq![10u8] + joined_lines(s.drop_first())
    }
}

proof fn lemma_joined_snoc(s: Seq<Seq<u8>>, x: Seq<u8>)
    ensures
        joined_lines(s.push(x)) == if s.len() == 0 {
            x
        } else {
            joined_lines(s) + seq![10u8] + x
        },
    decreases s.len(),
{
    let p = s.push(x);
    if s.len() == 0 {
        assert(p.len() == 1);
        assert(p[0] == x);
    } else {
        assert(p[0] == s[0]);
        assert(p.drop_first() =~= s.drop_first().push(x));
        lemma_joined_snoc(s.drop_first(), x);
        if s.len() == 1 {
            assert(joined_lines(s) == s[0]);
        } else {
            assert(s[0] + seq![10u8] + (joined_lines(s.drop_first()) + seq![10u8] + x) =~= (s[0]
                + seq![10u8] + joined_lines(s.drop_first())) + seq![10u8] + x);
        }
    }
}

/// What rendering a page into a template produces: the template's four
/// placeholders substituted with the page's title, body, tag line items
/// and backlink anchors (backlinks deduplicated of consecutive repeats).
pub open spec fn rendered_template(
    template: Seq<u8>,
    title: Seq<u8>,
    body: Seq<u8>,
    tags: Seq<Seq<u8>>,
    backlinks: Seq<Seq<u8>>,
) -> Seq<u8> {
    let tag_string = joined_lines(mapped_tag_lines(tags));
    let links_string = joined_lines(mapped_backlink_lines(dedup_from(backlinks, Option::None)));
    replaced(
        replaced(
            replaced(
                replaced(template, "<%= title %>".spec_bytes(), title),
                "<%= body %>".spec_bytes(),
                body,
            ),
            "<%= tags %>".spec_bytes(),
            tag_string,
        ),
        "<%= links %>".spec_bytes(),
        links_string,
    )
}

/// Build the joined fragment of a list of lines, one fragment per line.
fn join_fragments(lines: &Vec<Vec<u8>>) -> (r: Vec<u8>)
    ensures
        r@ == joined_lines(seqs_of(lines@)),
{
    let n = lines.len();
    let mut out: Vec<u8> = Vec::new();
    let mut i: usize = 0;
    while i < n
        invariant
            0 <= i <= n == lines@.len(),
            out@ == joined_lines(seqs_of(lines@).take(i as int)),
        decreases n - i,
    {
        if i > 0 {
            out.push(10u8);
        }
        out.extend_from_slice(lines[i].as_slice());
        proof {
            let all = seqs_of(lines@);
            assert(all.take(i + 1) =~= all.take(i as int).push(all[i as int]));
            lemma_joined_snoc(all.take(i as int), all[i as int]);
            if i == 0 {
                assert(out@ =~= all[0]);
            } else {
                assert(all.take(i as int).len() == i);
                assert(out@ =~= (joined_lines(all.take(i as int)) + seq![10u8]) + all[i as int]);
                assert((joined_lines(all.take(i as int)) + seq![10u8]) + all[i as int]
                    =~= joined_lines(all.take(i as int)) + seq![10u8] + all[i as int]);
            }
        }
        i = i + 1;
    }
    proof {
        assert(seqs_of(lines@).take(n as int) =~= seqs_of(lines@));
    }
    out
}

/// Render a page into a template: substitute the page's title, its body,
/// its tags as list items, and its backlinks (consecutive duplicates
/// dropped) as anchors, for the template's placeholders.
pub fn render_template(
    page: &TemplattedPage,
    links: Option<&Vec<Vec<u8>>>,
    template: &[u8],
) -> (r: Vec<u8>)
    ensures
        r@ == rendered_template(
            template@,
            page.title@,
            page.body@,
            seqs_of(page.tags@),
            match links {
                Some(ls) => seqs_of(ls@),
                None => Seq::empty(),
            },
        ),
{
    // Deduplicate consecutive repeated backlinks.
    let ghost orig_links: Seq<Seq<u8>> = match links {
        Some(ls) => seqs_of(ls@),
        None => Seq::empty(),
    };
    let mut backlinks: Vec<Vec<u8>> = Vec::new();
    if let Some(ls) = links {
        let n = ls.len();
        let mut i: usize = 0;
        proof {
            assert(orig_links.skip(0) =~= orig_links);
            assert(seqs_of(backlinks@) =~= Seq::<Seq<u8>>::empty());
            assert(Seq::<Seq<u8>>::empty() + dedup_from(orig_links, Option::None) =~= dedup_from(
                orig_links,
                Option::None,
            ));
        }
        while i < n
            invariant
                0 <= i <= n == ls@.len(),
                orig_links == seqs_of(ls@),
                dedup_from(orig_links, Option::None) == seqs_of(backlinks@) + dedup_from(
                    orig_links.skip(i as int),
                    if backlinks@.len() == 0 {
                        Option::<Seq<u8>>::None
                    } else {
                        Option::Some(backlinks@.last()@)
                    },
                ),
            decreases n - i,
        {
            let ghost li = orig_links.skip(i as int);
            proof {
                assert(li[0] == orig_links[i as int]);
                assert(li.drop_first() =~= orig_links.skip(i as int + 1));
            }
            let same = if backlinks.len() > 0 {
                eq_bytes(backlinks[backlinks.len() - 1].as_slice(), ls[i].as_slice())
            } else {
                false
            };
            if !same {
                backlinks.push(vstd::slice::slice_to_vec(ls[i].as_slice()));
                proof {
                    assert(seqs_of(backlinks@) =~= seqs_of(backlinks@.drop_last()) + seq![
                        orig_links[i as int],
                    ]);
                    assert(seqs_of(backlinks@) + dedup_from(
                        orig_links.skip(i as int + 1),
                        Option::Some(orig_links[i as int]),
                    ) =~= seqs_of(backlinks@.drop_last()) + (seq![li[0]] + dedup_from(
                        li.drop_first(),
                        Option::Some(li[0]),
                    )));
                }
            }
            i = i + 1;
        }
        proof {
            assert(orig_links.skip(n as int) =~= Seq::<Seq<u8>>::empty());
            assert(seqs_of(backlinks@) + Seq::<Seq<u8>>::empty() =~= seqs_of(backlinks@));
        }
    } else {
        proof {
            assert(dedup_from(orig_links, Option::None) =~= seqs_of(backlinks@));
        }
    }
    // Tag list items.
    let tn = page.tags.len();
    let mut tag_lines_v: Vec<Vec<u8>> = Vec::new();
    let mut ti: usize = 0;
    while ti < tn
        invariant
            0 <= ti <= tn == page.tags@.len(),
            seqs_of(tag_lines_v@) == mapped_tag_lines(seqs_of(page.tags@).take(ti as int)),
        decreases tn - ti,
    {
        let mut line: Vec<u8> = Vec::new();
        write_to_string(&mut line, "<li><a href=\"/tags/".as_bytes());
        write_to_string(&mut line, page.tags[ti].as_slice());
        write_to_string(&mut line, "\">#".as_bytes());
        write_to_string(&mut line, page.tags[ti].as_slice());
        write_to_string(&mut line, "</a></li>".as_bytes());
        proof {
            let all = seqs_of(page.tags@);
            assert(line@ =~= tag_line(all[ti as int]));
        }
        let ghost tl0 = tag_lines_v@;
        tag_lines_v.push(line);
        proof {
            let all = seqs_of(page.tags@);
            assert(tag_lines_v@ == tl0.push(line));
            assert(seqs_of(tl0).len() == ti);
            assert(tl0.len() == ti);
            assert(all.take(ti + 1) =~= all.take(ti as int).push(all[ti as int]));
            assert forall|j: int| 0 <= j < tag_lines_v@.len() implies seqs_of(tag_lines_v@)[j]
                == mapped_tag_lines(all.take(ti + 1))[j] by {
                if j < ti {
                    assert(tag_lines_v@[j] == tl0[j]);
                    assert(seqs_of(tl0)[j] == mapped_tag_lines(all.take(ti as int))[j]);
                    assert(all.take(ti + 1)[j] == all.take(ti as int)[j]);
                } else {
                    assert(tag_lines_v@[j] == line);
                    assert(all.take(ti + 1)[j] == all[ti as int]);
                }
            }
            assert(seqs_of(tag_lines_v@) =~= mapped_tag_lines(all.take(ti + 1)));
        }
        ti = ti + 1;
    }
    proof {
        assert(seqs_of(page.tags@).take(tn as int) =~= seqs_of(page.tags@));
    }
    let tag_string = join_fragments(&tag_lines_v);
    // Backlink anchors.
    let bn = backlinks.len();
    let mut link_lines_v: Vec<Vec<u8>> = Vec::new();
    let mut bi: usize = 0;
    while bi < bn
        invariant
            0 <= bi <= bn == backlinks@.len(),
            seqs_of(link_lines_v@) == mapped_backlink_lines(seqs_of(backlinks@).take(bi as int)),
        decreases bn - bi,
    {
        let href = crate::render::format_links(backlinks[bi].as_slice());
        let mut line: Vec<u8> = Vec::new();
        write_to_string(&mut line, "<a href=\"".as_bytes());
        write_to_string(&mut line, href.as_slice());
        write_to_string(&mut line, "\">".as_bytes());
        write_to_string(&mut line, backlinks[bi].as_slice());
        write_to_string(&mut line, "</a>".as_bytes());
        proof {
            let all = seqs_of(backlinks@);
            assert(line@ =~= backlink_line(all[bi as int]));
        }
        let ghost ll0 = link_lines_v@;
        link_lines_v.push(line);
        proof {
            let all = seqs_of(backlinks@);
            assert(link_lines_v@ == ll0.push(line));
            assert(seqs_of(ll0).len() == bi);
            assert(ll0.len() == bi);
            assert(all.take(bi + 1) =~= all.take(bi as int).push(all[bi as int]));
            assert forall|j: int| 0 <= j < link_lines_v@.len() implies seqs_of(link_lines_v@)[j]
                == mapped_backlink_lines(all.take(bi + 1))[j] by {
                if j < bi {
                    assert(link_lines_v@[j] == ll0[j]);
                    assert(seqs_of(ll0)[j] == mapped_backlink_lines(all.take(bi as int))[j]);
                    assert(all.take(bi + 1)[j] == all.take(bi as int)[j]);
                } else {
                    assert(link_lines_v@[j] == line);
                    assert(all.take(bi + 1)[j] == all[bi as int]);
                }
            }
            assert(seqs_of(link_lines_v@) =~= mapped_backlink_lines(all.take(bi + 1)));
        }
        bi = bi + 1;
    }
    proof {
        assert(seqs_of(backlinks@).take(bn as int) =~= seqs_of(backlinks@));
    }
    let links_string = join_fragments(&link_lines_v);
    // Substitute the four placeholders.
    proof {
        reveal_strlit("<%= title %>");
        reveal_strlit("<%= body %>");
        reveal_strlit("<%= tags %>");
        reveal_strlit("<%= links %>");
        vstd::string::is_ascii_spec_bytes("<%= title %>");
        vstd::string::is_ascii_spec_bytes("<%= body %>");
        vstd::string::is_ascii_spec_bytes("<%= tags %>");
        vstd::string::is_ascii_spec_bytes("<%= links %>");
    }
    let s1 = replace_all(template, "<%= title %>".as_bytes(), page.title.as_slice());
    let s2 = replace_all(s1.as_slice(), "<%= body %>".as_bytes(), page.body.as_slice());
    let s3 = replace_all(s2.as_slice(), "<%= tags %>".as_bytes(), tag_string.as_slice());
    let out = replace_all(s3.as_slice(), "<%= links %>".as_bytes(), links_string.as_slice());
    proof {
        assert(seqs_of(page.tags@).take(tn as int) =~= seqs_of(page.tags@));
        assert(seqs_of(backlinks@).take(bn as int) =~= seqs_of(backlinks@));
    }
    out
}

/// The file a template include line names, when the line is one: the text
/// between the include opening and its closing marker.
pub fn extract_include_target(line: &[u8]) -> (r: Option<Vec<u8>>)
    ensures
        match r {
            Some(v) => line@.len() >= "<%= include \"".spec_bytes().len()
                + "\" %>".spec_bytes().len() && v@ == line@.subrange(
                "<%= include \"".spec_bytes().len() as int,
                line@.len() - "\" %>".spec_bytes().len(),
            ),
            None => true,
        },
{
    let prefix: &[u8] = "<%= include \"".as_bytes();
    let suffix: &[u8] = "\" %>".as_bytes();
    if line.len() < prefix.len() || line.len() - prefix.len() < suffix.len() {
        return None;
    }
    let starts = crate::bytes::starts_with_bytes(line, prefix);
    let ends = crate::bytes::ends_with_bytes(line, suffix);
    if starts && ends {
        let inner = vstd::slice::slice_to_vec(&line[prefix.len()..line.len() - suffix.len()]);
        Some(inner)
    } else {
        None
    }
}


/// The page with a given title among a list of templated pages, if any.
pub fn find_page<'a>(pages: &'a Vec<TemplattedPage>, title: &[u8]) -> (r: Option<
    &'a TemplattedPage,
>)
    ensures
        match r {
            Some(p) => exists|i: int|
                {
                    &&& 0 <= i < pages@.len()
                    &&& #[trigger] pages@[i].title@ == title@
                    &&& forall|m: int| 0 <= m < i ==> pages@[m].title@ != title@
                    &&& p == &pages[i]
                },
            None => forall|i: int| 0 <= i < pages@.len() ==> pages@[i].title@ != title@,
        },
{
    let n = pages.len();
    let mut i: usize = 0;
    while i < n
        invariant
            0 <= i <= n == pages@.len(),
            forall|m: int| 0 <= m < i ==> pages@[m].title@ != title@,
        decreases n - i,
    {
        if eq_bytes(pages[i].title.as_slice(), title) {
            return Some(&pages[i]);
        }
        i = i + 1;
    }
    None
}

} // verus!
