//! The bytes of a source, taken apart into text and what is no text.

use vstd::prelude::*;
use vstd::slice::slice_subrange;
use vstd::utf8::{decode_utf8, valid_utf8};
use crate::text::chars_of;

verus! {

/// The characters that bytes are in UTF-8, if they are UTF-8.
pub open spec fn utf8_text(bytes: Seq<u8>) -> Option<Seq<char>> {
    if valid_utf8(bytes) {
        Some(decode_utf8(bytes))
    } else {
        None
    }
}

/// Reads bytes as UTF-8. `std::str::from_utf8`: the text, or, where the
/// bytes are no UTF-8, how far they are (`valid_up_to`) and how many
/// bytes, one to three, are in the way there (`error_len`); none if the
/// bytes end, one to three bytes on, within a character.
#[verifier::external_body]
fn utf8_str(bytes: &[u8]) -> (r: Result<&str, (usize, Option<u8>)>)
    ensures
        match r {
            Ok(s) => utf8_text(bytes@) == Some(s@),
            Err((k, n)) => utf8_text(bytes@) is None && k < bytes@.len() && utf8_text(bytes@.take(k as int)) is Some
                && match n {
                Some(m) => 1 <= m <= 3 && k + m <= bytes@.len(),
                None => bytes@.len() - k <= 3,
            },
        },
{
    match std::str::from_utf8(bytes) {
        Ok(s) => Ok(s),
        Err(e) => Err(
            (
                e.valid_up_to(),
                match e.error_len() {
                    Some(n) => Some(n as u8),
                    None => None,
                },
            ),
        ),
    }
}

/// Reads bytes as UTF-8: the characters, or how far the bytes are UTF-8
/// and how many bytes are in the way there.
fn from_utf8(bytes: &[u8]) -> (r: Result<Vec<char>, (usize, Option<u8>)>)
    ensures
        match r {
            Ok(v) => utf8_text(bytes@) == Some(v@),
            Err((k, n)) => utf8_text(bytes@) is None && k < bytes@.len() && utf8_text(bytes@.take(k as int)) is Some
                && match n {
                Some(m) => 1 <= m <= 3 && k + m <= bytes@.len(),
                None => bytes@.len() - k <= 3,
            },
        },
{
    match utf8_str(bytes) {
        Ok(s) => Ok(chars_of(s)),
        Err(e) => Err(e),
    }
}

/// A stretch of the bytes of a source, from `begin` up to `end`: its text,
/// or none if the bytes are no UTF-8.
#[derive(Debug, Clone, PartialEq, Eq)]
pub struct Segment {
    pub begin: usize,
    pub end: usize,
    pub text: Option<Vec<char>>,
}

/// The segment is in order: it is not empty, its text is the text of its
/// bytes, and bytes that are no text are three at most.
pub open spec fn segment_ok(bytes: Seq<u8>, s: Segment) -> bool {
    &&& s.begin < s.end <= bytes.len()
    &&& match s.text {
        Some(t) => utf8_text(bytes.subrange(s.begin as int, s.end as int)) == Some(t@),
        None => s.end - s.begin <= 3,
    }
}

/// The segments take the first `n` bytes apart: they follow one another
/// without a gap.
pub open spec fn segments_upto(bytes: Seq<u8>, segments: Seq<Segment>, n: int) -> bool {
    &&& forall|i: int| 0 <= i < segments.len() ==> segment_ok(bytes, #[trigger] segments[i])
    &&& forall|i: int| 0 <= i < segments.len() - 1 ==> (#[trigger] segments[i]).end == segments[i + 1].begin
    &&& if segments.len() == 0 {
        n == 0
    } else {
        segments[0].begin == 0 && segments.last().end == n
    }
}

/// Takes the bytes of a source apart into stretches of text and stretches
/// that are no UTF-8, in order. If all the bytes are UTF-8, they are one
/// stretch.
pub fn decode(bytes: &[u8]) -> (segments: Vec<Segment>)
    ensures
        segments_upto(bytes@, segments@, bytes@.len() as int),
        utf8_text(bytes@) is Some && bytes@.len() > 0 ==> segments@.len() == 1,
{
    let mut segments: Vec<Segment> = Vec::new();
    let mut at: usize = 0;
    while at < bytes.len()
        invariant
            at <= bytes@.len(),
            segments_upto(bytes@, segments@, at as int),
            utf8_text(bytes@) is Some && bytes@.len() > 0 ==> at == 0 && segments@.len() == 0,
        decreases bytes@.len() - at,
    {
        let rest = slice_subrange(bytes, at, bytes.len());
        let ghost before = segments@;
        proof {
            if at == 0 {
                assert(rest@ =~= bytes@);
            }
        }
        match from_utf8(rest) {
            Ok(text) => {
                segments.push(Segment { begin: at, end: bytes.len(), text: Some(text) });
                proof {
                    assert forall|i: int| 0 <= i < segments@.len() - 1 implies (#[trigger] segments@[i]).end
                        == segments@[i + 1].begin by {
                        if i < before.len() - 1 {
                            assert(segments@[i] == before[i]);
                            assert(segments@[i + 1] == before[i + 1]);
                        }
                    }
                }
                return segments;
            },
            Err((k, n)) => {
                if k > 0 {
                    let valid = slice_subrange(bytes, at, at + k);
                    proof {
                        assert(valid@ =~= rest@.take(k as int));
                    }
                    match from_utf8(valid) {
                        Ok(text) => {
                            segments.push(Segment { begin: at, end: at + k, text: Some(text) });
                        },
                        Err(_) => {},
                    }
                }
                let width: usize = match n {
                    Some(m) => m as usize,
                    None => bytes.len() - at - k,
                };
                segments.push(Segment { begin: at + k, end: at + k + width, text: None });
                proof {
                    assert forall|i: int| 0 <= i < segments@.len() - 1 implies (#[trigger] segments@[i]).end
                        == segments@[i + 1].begin by {
                        if i < before.len() - 1 {
                            assert(segments@[i] == before[i]);
                            assert(segments@[i + 1] == before[i + 1]);
                        }
                    }
                }
                at = at + k + width;
            },
        }
    }
    segments
}

/// All the text of the segments, in order.
pub open spec fn texts_upto(segments: Seq<Segment>, n: nat) -> Seq<char>
    decreases n,
{
    if n == 0 || n > segments.len() {
        Seq::empty()
    } else {
        texts_upto(segments, (n - 1) as nat) + match segments[n - 1].text {
            Some(t) => t@,
            None => Seq::empty(),
        }
    }
}

/// All the text of the segments, in order: the characters of the source
/// without what is no UTF-8.
pub fn characters(segments: &Vec<Segment>) -> (chars: Vec<char>)
    ensures
        chars@ == texts_upto(segments@, segments@.len()),
{
    let mut chars: Vec<char> = Vec::new();
    let mut i: usize = 0;
    while i < segments.len()
        invariant
            i <= segments@.len(),
            chars@ == texts_upto(segments@, i as nat),
        decreases segments@.len() - i,
    {
        match &segments[i].text {
            Some(t) => {
                let mut k: usize = 0;
                let ghost before = chars@;
                while k < t.len()
                    invariant
                        k <= t@.len(),
                        chars@ == before + t@.take(k as int),
                    decreases t@.len() - k,
                {
                    chars.push(t[k]);
                    proof {
                        assert(chars@ =~= before + t@.take(k + 1));
                    }
                    k += 1;
                }
                proof {
                    assert(t@.take(t@.len() as int) =~= t@);
                }
            },
            None => {
                proof {
                    assert(chars@ + Seq::<char>::empty() =~= chars@);
                }
            },
        }
        i += 1;
    }
    chars
}

} // verus!
