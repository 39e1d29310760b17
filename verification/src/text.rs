//! Text layout logic.

use core::ops::Range;

use vstd::prelude::*;
use vstd::string::StringSliceAdditionalSpecFns;
use vstd::utf8::{is_char_boundary, valid_utf8};

verus! {

broadcast use vstd::utf8::encode_utf8_valid_utf8;

/// The way in which text should wrap around the width.
#[derive(Copy, Clone, Debug, PartialEq, Eq, Structural)]
pub enum Wrap {
    NoWrap,
    /// Wrap at the first character that exceeds the width.
    Character,
    /// Wrap at the first word that exceeds the width.
    Whitespace,
}

/// `start..end` is a range of byte indices of `text` that starts and ends on character boundaries.
pub open spec fn is_byte_range_of(text: &str, start: usize, end: usize) -> bool {
    &&& start <= end <= text.spec_bytes().len()
    &&& is_char_boundary(text.spec_bytes(), start as int)
    &&& is_char_boundary(text.spec_bytes(), end as int)
}

/// The part of `text` between two byte indices on character boundaries.
fn slice_bytes<'a>(text: &'a str, start: usize, end: usize) -> (part: &'a str)
    requires
        is_byte_range_of(text, start, end),
    ensures
        part.spec_bytes() == text.spec_bytes().subrange(start as int, end as int),
{
    let ghost bytes = text.spec_bytes();
    let (prefix, _) = text.split_at(end);
    proof {
        let pb = prefix.spec_bytes();
        assert(pb =~= bytes.subrange(0, end as int));
        assert(valid_utf8(pb));
        if start == end {
            vstd::utf8::is_char_boundary_start_end_of_seq(pb);
            assert(pb.len() == end);
        } else if start > 0 {
            vstd::utf8::is_char_boundary_iff_not_is_continuation_byte(bytes, start as int);
            vstd::utf8::is_char_boundary_iff_not_is_continuation_byte(pb, start as int);
            assert(pb[start as int] == bytes[start as int]);
        } else {
            vstd::utf8::is_char_boundary_start_end_of_seq(pb);
        }
    }
    let (_, part) = prefix.split_at(start);
    proof {
        assert(part.spec_bytes() =~= bytes.subrange(start as int, end as int));
    }
    part
}

/// An iterator yielding each line within the given `text` as a new `&str`, where the start and end
/// indices into each line are provided by the given ranges.
pub struct Lines<'a> {
    text: &'a str,
    ranges: Vec<Range<usize>>,
    next: usize,
}

impl<'a> Lines<'a> {
    /// The text the lines are taken from.
    pub closed spec fn text(&self) -> &'a str {
        self.text
    }

    /// The byte ranges of the lines not yet yielded.
    pub closed spec fn remaining(&self) -> Seq<Range<usize>> {
        self.ranges@.subrange(self.next as int, self.ranges@.len() as int)
    }

    /// The position of the next line is within the ranges.
    pub closed spec fn wf(&self) -> bool {
        self.next <= self.ranges@.len()
    }

    /// Every remaining range is a range of the text on character boundaries.
    pub open spec fn valid(&self) -> bool {
        &&& self.wf()
        &&& forall|i: int|
            0 <= i < self.remaining().len() ==> is_byte_range_of(
                self.text(),
                #[trigger] self.remaining()[i].start,
                self.remaining()[i].end,
            )
    }

    /// Yields the next line.
    pub fn next(&mut self) -> (line: Option<&'a str>)
        requires
            old(self).valid(),
        ensures
            final(self).text() == old(self).text(),
            final(self).valid(),
            old(self).remaining().len() == 0 ==> line is None && final(self).remaining() == old(self).remaining(),
            old(self).remaining().len() > 0 ==> {
                let r = old(self).remaining()[0];
                &&& line is Some
                &&& line.unwrap().spec_bytes() == old(self).text().spec_bytes().subrange(
                    r.start as int,
                    r.end as int,
                )
                &&& final(self).remaining() == old(self).remaining().drop_first()
            },
    {
        if self.next < self.ranges.len() {
            let start = self.ranges[self.next].start;
            let end = self.ranges[self.next].end;
            proof {
                assert(self.remaining()[0] == self.ranges@[self.next as int]);
                assert(start == self.remaining()[0].start);
                assert(end == self.remaining()[0].end);
            }
            let line = slice_bytes(self.text, start, end);
            self.next = self.next + 1;
            proof {
                assert(self.remaining() =~= old(self).remaining().drop_first());
                assert forall|i: int| 0 <= i < self.remaining().len() implies is_byte_range_of(
                    self.text(),
                    #[trigger] self.remaining()[i].start,
                    self.remaining()[i].end,
                ) by {
                    assert(self.remaining()[i] == old(self).remaining()[i + 1]);
                }
            }
            Some(line)
        } else {
            None
        }
    }
}

/// Produce an iterator yielding each line within the given `text` as a new `&str`, where the
/// start and end indices into each line are provided by the given ranges.
pub fn lines<'a>(text: &'a str, ranges: Vec<Range<usize>>) -> (l: Lines<'a>)
    ensures
        l.wf(),
        l.text() == text,
        l.remaining() == ranges@,
{
    let l = Lines { text: text, ranges: ranges, next: 0 };
    assert(l.remaining() =~= ranges@);
    l
}

} // verus!
