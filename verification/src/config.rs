//! The feed source list: a newline-delimited list of feed URLs, each
//! line trimmed, blank lines ignored.
use vstd::prelude::*;
use crate::text::spec_find_byte;
use crate::timestamp::spec_trim;

verus! {

/// The URLs of a source list, in order: one per non-blank line, trimmed.
pub open spec fn spec_parse_feed_list(s: Seq<u8>) -> Seq<Seq<u8>>
    decreases s.len(),
{
    if s.len() == 0 {
        seq![]
    } else {
        let j0 = spec_find_byte(s, 10, 0);
        let j = if 0 <= j0 <= s.len() {
            j0
        } else {
            s.len() as int
        };
        let t = spec_trim(s.subrange(0, j));
        let rest = if j < s.len() {
            s.skip(j + 1)
        } else {
            Seq::<u8>::empty()
        };
        (if t.len() > 0 {
            seq![t]
        } else {
            Seq::<Seq<u8>>::empty()
        }) + spec_parse_feed_list(rest)
    }
}

/// Parse a feed source list.
pub fn parse_feed_list(contents: &[u8]) -> (r: Vec<Vec<u8>>)
    ensures
        r@.map_values(|u: Vec<u8>| u@) == spec_parse_feed_list(contents@),
{
    let mut r: Vec<Vec<u8>> = Vec::new();
    let mut pos: usize = 0;
    let ghost whole = contents@;
    proof {
        assert(whole.skip(0) =~= whole);
        assert(r@.map_values(|u: Vec<u8>| u@) + spec_parse_feed_list(whole) =~= spec_parse_feed_list(
            whole,
        ));
    }
    while pos < contents.len()
        invariant
            pos <= contents@.len(),
            whole == contents@,
            r@.map_values(|u: Vec<u8>| u@) + spec_parse_feed_list(whole.skip(pos as int))
                == spec_parse_feed_list(whole),
        decreases contents@.len() - pos,
    {
        let ghost seg = whole.skip(pos as int);
        let j = crate::text::find_byte(contents, 10, pos);
        proof {
            crate::text::lemma_find_byte_range(whole, 10, pos as int);
            crate::store::lemma_find_byte_skip(whole, 10, pos as int);
            assert(whole.subrange(pos as int, j as int) =~= seg.subrange(
                0,
                spec_find_byte(seg, 10, 0),
            ));
        }
        let t = crate::timestamp::trim_bytes(&contents[pos..j]);
        if t.len() > 0 {
            r.push(t);
            proof {
                assert(r@.map_values(|u: Vec<u8>| u@) =~= r@.map_values(
                    |u: Vec<u8>| u@,
                ).drop_last().push(r@.last()@));
            }
        }
        let next = if j < contents.len() {
            j + 1
        } else {
            j
        };
        proof {
            if (j as int) < whole.len() {
                assert(whole.skip(j as int + 1) =~= seg.skip(j - pos as int + 1));
            }
            assert(whole.skip(next as int).len() == 0 ==> whole.skip(next as int)
                =~= Seq::<u8>::empty());
        }
        pos = next;
        proof {
            assert(r@.map_values(|u: Vec<u8>| u@) + spec_parse_feed_list(whole.skip(pos as int))
                =~= spec_parse_feed_list(whole));
        }
    }
    proof {
        assert(whole.skip(whole.len() as int) =~= Seq::<u8>::empty());
        assert(r@.map_values(|u: Vec<u8>| u@) + spec_parse_feed_list(whole.skip(whole.len() as int))
            =~= r@.map_values(|u: Vec<u8>| u@));
    }
    r
}

} // verus!
