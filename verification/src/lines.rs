//! Decoding a record body and extracting its candidate sentences.
//!
//! A record body is a raw byte buffer.  A body that is not valid UTF-8
//! yields no sentences at all.  A decoded body is split into lines, and
//! only lines with more than 100 characters are kept: shorter fragments
//! are too noisy to classify and are never handed to the oracle.

use crate::text::{chars_of, string_of};
use vstd::prelude::*;
use vstd::utf8::{decode_utf8, valid_utf8};

verus! {

/// A finished line drops a carriage return standing immediately before
/// the newline that ended it.
pub open spec fn strip_cr(l: Seq<char>) -> Seq<char> {
    if l.len() > 0 && l.last() == '\r' {
        l.drop_last()
    } else {
        l
    }
}

/// The lines of `s`, read character by character: `cur` is the line
/// being read and `acc` the lines already complete.  A newline ends a
/// line; the final line needs no newline; an empty final segment is no
/// line.
pub open spec fn lines_rec(s: Seq<char>, cur: Seq<char>, acc: Seq<Seq<char>>) -> Seq<Seq<char>>
    decreases s.len(),
{
    if s.len() == 0 {
        if cur.len() == 0 {
            acc
        } else {
            acc.push(cur)
        }
    } else if s[0] == '\n' {
        lines_rec(s.skip(1), Seq::empty(), acc.push(strip_cr(cur)))
    } else {
        lines_rec(s.skip(1), cur.push(s[0]), acc)
    }
}

/// The lines of a decoded body.
pub open spec fn spec_lines(s: Seq<char>) -> Seq<Seq<char>> {
    lines_rec(s, Seq::empty(), Seq::empty())
}

/// The lines whose character count is above the classification floor,
/// in their original order.
pub open spec fn keep_long(ls: Seq<Seq<char>>) -> Seq<Seq<char>>
    decreases ls.len(),
{
    if ls.len() == 0 {
        Seq::empty()
    } else {
        let rest = keep_long(ls.drop_last());
        if ls.last().len() > 100 {
            rest.push(ls.last())
        } else {
            rest
        }
    }
}

/// A line of 100 characters or fewer is dropped before classification:
/// it is never among the kept lines, so it is never handed to the
/// oracle.
pub proof fn lemma_short_lines_dropped(ls: Seq<Seq<char>>, l: Seq<char>)
    requires
        l.len() <= 100,
    ensures
        !keep_long(ls).contains(l),
    decreases ls.len(),
{
    if ls.len() > 0 {
        lemma_short_lines_dropped(ls.drop_last(), l);
        if ls.last().len() > 100 {
            let rest = keep_long(ls.drop_last());
            assert forall|i: int| 0 <= i < rest.push(ls.last()).len() implies rest.push(
                ls.last(),
            )[i] != l by {
                if i < rest.len() {
                    assert(!rest.contains(l));
                }
            }
        }
    }
}

/// Every kept line is longer than the floor.
pub proof fn lemma_kept_lines_long(ls: Seq<Seq<char>>)
    ensures
        forall|i: int| 0 <= i < keep_long(ls).len() ==> #[trigger] keep_long(ls)[i].len() > 100,
    decreases ls.len(),
{
    if ls.len() > 0 {
        lemma_kept_lines_long(ls.drop_last());
        let rest = keep_long(ls.drop_last());
        if ls.last().len() > 100 {
            assert forall|i: int|
                0 <= i < keep_long(ls).len() implies #[trigger] keep_long(ls)[i].len() > 100 by {
                if i < rest.len() {
                    assert(keep_long(ls)[i] == rest[i]);
                }
            }
        }
    }
}

/// Relies on `String::from_utf8`: succeeds exactly on a valid UTF-8
/// byte sequence and decodes it to its characters.
#[verifier::external_body]
pub(crate) fn decode_body(body: &Vec<u8>) -> (r: Option<String>)
    ensures
        r is Some <==> valid_utf8(body@),
        r is Some ==> r.unwrap()@ == decode_utf8(body@),
{
    String::from_utf8(body.clone()).ok()
}

/// The candidate sentences of a decoded body: its lines, in order,
/// keeping exactly those with more than 100 characters.
pub fn retained_lines(text: &String) -> (r: Vec<String>)
    ensures
        r.deep_view() == keep_long(spec_lines(text@)),
        forall|i: int| 0 <= i < r.deep_view().len() ==> #[trigger] r.deep_view()[i].len() > 100,
{
    let chars = chars_of(text.as_str());
    let mut out: Vec<String> = Vec::new();
    let mut cur: Vec<char> = Vec::new();
    let ghost mut acc: Seq<Seq<char>> = Seq::empty();
    let mut i: usize = 0;
    proof {
        assert(chars@.skip(0) =~= chars@);
    }
    while i < chars.len()
        invariant
            i <= chars.len(),
            chars@ == text@,
            spec_lines(text@) == lines_rec(chars@.skip(i as int), cur@, acc),
            out.deep_view() == keep_long(acc),
        decreases chars.len() - i,
    {
        let c = chars[i];
        proof {
            assert(chars@.skip(i as int).skip(1) =~= chars@.skip(i as int + 1));
        }
        if c == '\n' {
            let ghost prev = cur@;
            if cur.len() > 0 && cur[cur.len() - 1] == '\r' {
                cur.pop();
            }
            proof {
                assert(cur@ == strip_cr(prev));
            }
            if cur.len() > 100 {
                let line = string_of(&cur);
                out.push(line);
            }
            proof {
                let next = acc.push(strip_cr(prev));
                assert(next.drop_last() =~= acc);
                assert(out.deep_view() =~= keep_long(next));
                acc = next;
            }
            cur = Vec::new();
        } else {
            cur.push(c);
        }
        i = i + 1;
    }
    proof {
        assert(chars@.skip(chars.len() as int) =~= Seq::<char>::empty());
    }
    if cur.len() > 0 {
        if cur.len() > 100 {
            let line = string_of(&cur);
            out.push(line);
        }
        proof {
            let next = acc.push(cur@);
            assert(next.drop_last() =~= acc);
            assert(out.deep_view() =~= keep_long(next));
            acc = next;
        }
    }
    proof {
        lemma_kept_lines_long(spec_lines(text@));
    }
    out
}

} // verus!
