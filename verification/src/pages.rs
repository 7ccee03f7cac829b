//! The compute side of the edit-path handlers: redirect URIs, the update
//! messages the watcher consumes, and the daily journal title.
use vstd::prelude::*;
use vstd::string::StringSliceAdditionalSpecFns;

use crate::block::is_break;
use crate::bytes::{contains_seq, occurs_at};
use crate::trusted::{current_date, encoded_of, url_encode};

verus! {

/// `s` without leading whitespace (space, tab, carriage return, line
/// feed).
pub open spec fn strip_ws(s: Seq<u8>) -> Seq<u8>
    decreases s.len(),
{
    if s.len() > 0 && is_break(s[0]) {
        strip_ws(s.drop_first())
    } else {
        s
    }
}

/// `s` without trailing whitespace.
pub open spec fn strip_ws_end(s: Seq<u8>) -> Seq<u8>
    decreases s.len(),
{
    if s.len() > 0 && is_break(s.last()) {
        strip_ws_end(s.drop_last())
    } else {
        s
    }
}

/// `s` trimmed of whitespace on both ends.
pub open spec fn trimmed_ws(s: Seq<u8>) -> Seq<u8> {
    strip_ws_end(strip_ws(s))
}

/// Trim whitespace from both ends of a title.
pub fn trim_ws_bytes(v: &[u8]) -> (r: Vec<u8>)
    ensures
        r@ == trimmed_ws(v@),
{
    let n = v.len();
    let mut a: usize = 0;
    proof {
        assert(v@.skip(0) =~= v@);
    }
    while a < n && (v[a] == 32 || v[a] == 9 || v[a] == 13 || v[a] == 10)
        invariant
            0 <= a <= n == v@.len(),
            strip_ws(v@) == strip_ws(v@.skip(a as int)),
        decreases n - a,
    {
        proof {
            let sa = v@.skip(a as int);
            assert(sa[0] == v@[a as int]);
            assert(sa.drop_first() =~= v@.skip(a as int + 1));
        }
        a = a + 1;
    }
    proof {
        let sa = v@.skip(a as int);
        if a < n {
            assert(sa[0] == v@[a as int]);
        }
        assert(strip_ws(sa) == sa);
    }
    let mut b: usize = n;
    while b > a && (v[b - 1] == 32 || v[b - 1] == 9 || v[b - 1] == 13 || v[b - 1] == 10)
        invariant
            a <= b <= n == v@.len(),
            strip_ws_end(v@.skip(a as int)) == strip_ws_end(v@.subrange(a as int, b as int)),
        decreases b,
    {
        proof {
            let sub = v@.subrange(a as int, b as int);
            assert(sub.last() == v@[b - 1]);
            assert(sub.drop_last() =~= v@.subrange(a as int, b - 1));
        }
        b = b - 1;
    }
    proof {
        let sub = v@.subrange(a as int, b as int);
        if b > a {
            assert(sub.last() == v@[b - 1]);
        }
        assert(strip_ws_end(sub) == sub);
    }
    vstd::slice::slice_to_vec(&v[a..b])
}

/// Where the edit handler redirects after a write: the percent-encoded
/// title, under the extra path segment when one was asked for.
pub fn edit_redirect_uri(title: &[u8], redir_to: Option<&Vec<u8>>) -> (r: Vec<u8>)
    ensures
        match redir_to {
            Some(seg) => r@ == seq![47u8] + seg@ + seq![47u8] + encoded_of(title@),
            None => r@ == seq![47u8] + encoded_of(title@),
        },
{
    let mut out: Vec<u8> = vec![47u8];
    proof {
        assert(out@ =~= seq![47u8]);
    }
    if let Some(seg) = redir_to {
        out.extend_from_slice(seg.as_slice());
        out.push(47u8);
        proof {
            assert(out@ =~= seq![47u8] + seg@ + seq![47u8]);
        }
    }
    let enc = url_encode(title);
    out.extend_from_slice(enc.as_slice());
    out
}

/// The separator between the old and new title in an update message.
pub open spec fn msg_sep() -> Seq<u8> {
    seq![126u8, 126u8]
}

/// The update message the edit handler sends: the old title and the
/// trimmed new title, joined by the separator.
pub fn update_message(old_title: &[u8], title: &[u8]) -> (r: Vec<u8>)
    ensures
        r@ == old_title@ + msg_sep() + trimmed_ws(title@),
{
    let trimmed_title = trim_ws_bytes(title);
    let mut out: Vec<u8> = Vec::new();
    out.extend_from_slice(old_title);
    out.push(126u8);
    out.push(126u8);
    out.extend_from_slice(trimmed_title.as_slice());
    proof {
        assert(out@ =~= old_title@ + msg_sep() + trimmed_ws(title@));
    }
    out
}

/// Split an update message at the first separator into the old and the
/// current title; `None` when no separator occurs.
pub fn split_update_message(msg: &[u8]) -> (r: Option<(Vec<u8>, Vec<u8>)>)
    ensures
        match r {
            Some(parts) => exists|i: int|
                {
                    &&& #[trigger] occurs_at(msg@, msg_sep(), i)
                    &&& forall|k: int| 0 <= k < i ==> !occurs_at(msg@, msg_sep(), k)
                    &&& parts.0@ == msg@.take(i)
                    &&& parts.1@ == msg@.skip(i + 2)
                },
            None => !contains_seq(msg@, msg_sep()),
        },
{
    let n = msg.len();
    if n < 2 {
        proof {
            if contains_seq(msg@, msg_sep()) {
                let i = choose|i: int| occurs_at(msg@, msg_sep(), i);
            }
        }
        return None;
    }
    let mut i: usize = 0;
    while i < n - 1
        invariant
            0 <= i <= n - 1,
            n == msg@.len(),
            n >= 2,
            forall|k: int| 0 <= k < i ==> !occurs_at(msg@, msg_sep(), k),
        decreases n - i,
    {
        if msg[i] == 126 && msg[i + 1] == 126 {
            let before = vstd::slice::slice_to_vec(&msg[0..i]);
            let after = vstd::slice::slice_to_vec(&msg[i + 2..n]);
            proof {
                assert(msg@.subrange(i as int, i + 2) =~= msg_sep());
                assert(occurs_at(msg@, msg_sep(), i as int));
                assert(before@ =~= msg@.take(i as int));
                assert(after@ =~= msg@.skip(i as int + 2));
            }
            return Some((before, after));
        }
        proof {
            if occurs_at(msg@, msg_sep(), i as int) {
                assert(msg@.subrange(i as int, i + 2)[0] == msg@[i as int]);
                assert(msg@.subrange(i as int, i + 2)[1] == msg@[i + 1]);
            }
        }
        i = i + 1;
    }
    proof {
        if contains_seq(msg@, msg_sep()) {
            let k = choose|k: int| occurs_at(msg@, msg_sep(), k);
            assert(k < n - 1);
        }
    }
    None
}

/// The decimal digits of `n`, zero-padded to two places.
pub open spec fn two_digits(n: int) -> Seq<u8> {
    seq![(48 + n / 10 % 10) as u8, (48 + n % 10) as u8]
}

/// The decimal digits of `n`, zero-padded to four places.
pub open spec fn four_digits(n: int) -> Seq<u8> {
    seq![
        (48 + n / 1000 % 10) as u8,
        (48 + n / 100 % 10) as u8,
        (48 + n / 10 % 10) as u8,
        (48 + n % 10) as u8,
    ]
}

/// The daily journal title of a date: year, month and day, zero-padded,
/// joined by hyphens.
pub open spec fn daily_title(y: int, m: int, d: int) -> Seq<u8> {
    four_digits(y) + seq![45u8] + two_digits(m) + seq![45u8] + two_digits(d)
}

/// Format a civil date as its daily journal title.
pub fn format_daily(y: u32, m: u32, d: u32) -> (r: Vec<u8>)
    requires
        y <= 9999,
        1 <= m <= 12,
        1 <= d <= 31,
    ensures
        r@ == daily_title(y as int, m as int, d as int),
{
    let mut out: Vec<u8> = Vec::new();
    out.push((48 + y / 1000 % 10) as u8);
    out.push((48 + y / 100 % 10) as u8);
    out.push((48 + y / 10 % 10) as u8);
    out.push((48 + y % 10) as u8);
    out.push(45u8);
    out.push((48 + m / 10 % 10) as u8);
    out.push((48 + m % 10) as u8);
    out.push(45u8);
    out.push((48 + d / 10 % 10) as u8);
    out.push((48 + d % 10) as u8);
    proof {
        assert(out@ =~= daily_title(y as int, m as int, d as int));
    }
    out
}

/// Today's daily journal title, from this machine's clock; `None` for a
/// clock outside the four-digit years.
pub fn today_daily_title() -> (r: Option<Vec<u8>>)
    ensures
        r matches Some(v) ==> exists|y: int, m: int, d: int|
            0 <= y <= 9999 && 1 <= m <= 12 && 1 <= d <= 31 && v@ == #[trigger] daily_title(
                y,
                m,
                d,
            ),
{
    let (y, m, d) = current_date();
    if 0 <= y && y <= 9999 {
        let t = format_daily(y as u32, m, d);
        proof {
            assert(t@ == daily_title(y as int, m as int, d as int));
        }
        Some(t)
    } else {
        None
    }
}

/// The update message the quick-add handler sends for a journal entry: no
/// old title, the daily title as the new one.
pub fn journal_update_message(daily: &[u8]) -> (r: Vec<u8>)
    ensures
        r@ == msg_sep() + daily@,
{
    let mut out: Vec<u8> = Vec::new();
    out.push(126u8);
    out.push(126u8);
    out.extend_from_slice(daily);
    proof {
        assert(out@ =~= msg_sep() + daily@);
    }
    out
}

} // verus!
