//! Source locations: byte-offset spans and their line/column form.
use vstd::prelude::*;
use crate::text::{dec_text, nat_to_string};
use vstd::string::{StringSliceAdditionalSpecFns, StrSliceExecFns};

verus! {

/// A span of source text by byte offsets.
#[derive(Clone, Copy, Debug, PartialEq, Eq, Structural)]
pub struct Span1 {
    pub start_ix: usize,
    /// exclusive
    pub end_ix: usize,
}

/// A span of source text by lines and columns.
#[derive(Clone, Copy, Debug, PartialEq, Eq, Structural)]
pub struct Span2 {
    pub start_line: usize,
    pub start_col: usize,
    /// inclusive
    pub end_line: usize,
    /// exclusive
    pub end_col: usize,
}

pub open spec fn span2_text(s: Span2) -> Seq<char> {
    "line "@ + dec_text(s.start_line as nat) + ", column "@ + dec_text(s.start_col as nat)
        + " to line "@ + dec_text(s.end_line as nat) + ", column "@ + dec_text(s.end_col as nat)
}

impl Span2 {
    /// The span as it appears in messages.
    pub fn describe(&self) -> (s: String)
        ensures
            s@ == span2_text(*self),
    {
        let mut s = String::from_str("line ");
        s.append(nat_to_string(self.start_line as u64).as_str());
        s.append(", column ");
        s.append(nat_to_string(self.start_col as u64).as_str());
        s.append(" to line ");
        s.append(nat_to_string(self.end_line as u64).as_str());
        s.append(", column ");
        s.append(nat_to_string(self.end_col as u64).as_str());
        s
    }
}

/// The byte offsets of the newlines of a text, and its length in bytes.
#[derive(Clone, Debug)]
pub struct FileInfo {
    newlines: Vec<usize>,
    len: usize,
}

/// The offsets `i` with `bytes[i]` a newline, in increasing order.
pub open spec fn newline_offsets(bytes: Seq<u8>) -> Seq<usize>
    decreases bytes.len(),
{
    if bytes.len() == 0 {
        Seq::empty()
    } else if bytes.last() == 10u8 {
        newline_offsets(bytes.drop_last()).push((bytes.len() - 1) as usize)
    } else {
        newline_offsets(bytes.drop_last())
    }
}

impl FileInfo {
    /// The newline offsets increase and lie within the text.
    pub closed spec fn wf(self) -> bool {
        &&& forall|i: int, j: int| 0 <= i < j < self.newlines@.len() ==> self.newlines@[i] < self.newlines@[j]
        &&& forall|i: int| 0 <= i < self.newlines@.len() ==> self.newlines@[i] < self.len
        &&& self.newlines@.len() <= self.len
        &&& forall|i: int| 0 <= i < self.newlines@.len() ==> self.newlines@[i] >= i
    }

    pub closed spec fn newlines(self) -> Seq<usize> {
        self.newlines@
    }

    pub closed spec fn len(self) -> usize {
        self.len
    }

    /// The offset at which line `k` (from 0) starts: 0 for the first line,
    /// one past the `k`-th newline otherwise, and the length of the text
    /// one past the last line.
    pub open spec fn line_start(self, k: int) -> int {
        if k == 0 {
            0
        } else if k <= self.newlines().len() {
            self.newlines()[k - 1] + 1
        } else {
            self.len() as int
        }
    }

    /// `off` lies on line `k` (from 0).
    pub open spec fn on_line(self, off: int, k: int) -> bool {
        &&& 0 <= k <= self.newlines().len()
        &&& self.line_start(k) <= off < self.line_start(k + 1)
    }
}

proof fn lemma_newline_offsets(bytes: Seq<u8>)
    requires
        bytes.len() <= usize::MAX,
    ensures
        forall|i: int, j: int| 0 <= i < j < newline_offsets(bytes).len()
            ==> newline_offsets(bytes)[i] < newline_offsets(bytes)[j],
        forall|i: int| 0 <= i < newline_offsets(bytes).len() ==> newline_offsets(bytes)[i] < bytes.len(),
        newline_offsets(bytes).len() <= bytes.len(),
        forall|i: int| 0 <= i < newline_offsets(bytes).len() ==> newline_offsets(bytes)[i] >= i,
    decreases bytes.len(),
{
    if bytes.len() > 0 {
        let prev = bytes.drop_last();
        lemma_newline_offsets(prev);
        let p = newline_offsets(prev);
        let q = newline_offsets(bytes);
        if bytes.last() == 10u8 {
            assert(q == p.push((bytes.len() - 1) as usize));
            assert forall|i: int, j: int| 0 <= i < j < q.len() implies q[i] < q[j] by {
                if j == q.len() - 1 {
                    assert(q[i] == p[i]);
                    assert(p[i] < prev.len());
                } else {
                    assert(q[i] == p[i]);
                    assert(q[j] == p[j]);
                }
            }
            assert forall|i: int| 0 <= i < q.len() implies q[i] >= i by {
                if i < p.len() {
                    assert(q[i] == p[i]);
                }
            }
        }
    }
}

/// The newline offsets and byte length of a text.
pub fn file_info(s: &str) -> (info: FileInfo)
    ensures
        info.wf(),
        info.newlines() == newline_offsets(s.spec_bytes()),
        info.len() == s.spec_bytes().len(),
{
    let bytes = s.as_bytes_vec();
    let mut newlines: Vec<usize> = Vec::new();
    let mut i: usize = 0;
    while i < bytes.len()
        invariant
            i <= bytes@.len(),
            newlines@ == newline_offsets(bytes@.subrange(0, i as int)),
        decreases bytes@.len() - i,
    {
        proof {
            assert(bytes@.subrange(0, i + 1).drop_last() =~= bytes@.subrange(0, i as int));
        }
        if bytes[i] == 10u8 {
            newlines.push(i);
        }
        i = i + 1;
    }
    proof {
        assert(bytes@.subrange(0, bytes@.len() as int) =~= bytes@);
        lemma_newline_offsets(bytes@);
    }
    FileInfo { newlines, len: bytes.len() }
}

/// The line (from 1) and column (from 0) of a byte offset.
fn offset_to_line_col(info: &FileInfo, offset: usize) -> (lc: (usize, usize))
    requires
        info.wf(),
        offset < info.len(),
    ensures
        info.on_line(offset as int, lc.0 - 1),
        lc.1 == offset - info.line_start(lc.0 - 1),
{
    let n = info.newlines.len();
    let mut k: usize = 0;
    let mut start: usize = 0;
    while k < n
        invariant
            n == info.newlines@.len(),
            k <= n,
            start as int == info.line_start(k as int),
            start <= offset,
            offset < info.len,
            info.wf(),
        decreases n - k,
    {
        let end = info.newlines[k] + 1;
        if offset < end {
            return (k + 1, offset - start);
        }
        start = end;
        k = k + 1;
    }
    (k + 1, offset - start)
}

/// The line (from 0) on which `off` lies.
pub open spec fn line_of(info: FileInfo, off: int) -> int {
    choose|k: int| info.on_line(off, k)
}

/// The line/column form of a span: lines from 1, columns from 0, the end
/// column one past the last character.
pub open spec fn span2_of(info: FileInfo, s: Span1) -> Span2 {
    let sl = line_of(info, s.start_ix as int);
    let el = line_of(info, s.end_ix - 1);
    Span2 {
        start_line: (sl + 1) as usize,
        start_col: (s.start_ix - info.line_start(sl)) as usize,
        end_line: (el + 1) as usize,
        end_col: (s.end_ix - info.line_start(el)) as usize,
    }
}

/// The span lies within the text that `info` describes.
pub open spec fn span_fits(info: FileInfo, s: Span1) -> bool {
    s.start_ix < info.len() && 1 <= s.end_ix <= info.len()
}

/// Whether the span lies within the text that `info` describes.
pub fn fits(info: &FileInfo, s: Span1) -> (b: bool)
    ensures
        b == span_fits(*info, s),
{
    s.start_ix < info.len && 1 <= s.end_ix && s.end_ix <= info.len
}

/// The line/column form of a byte-offset span.
pub fn span1_to_span2(info: &FileInfo, offsets: Span1) -> (s: Span2)
    requires
        info.wf(),
        span_fits(*info, offsets),
    ensures
        info.on_line(offsets.start_ix as int, s.start_line - 1),
        s.start_col == offsets.start_ix - info.line_start(s.start_line - 1),
        info.on_line(offsets.end_ix - 1, s.end_line - 1),
        s.end_col == offsets.end_ix - info.line_start(s.end_line - 1),
        s == span2_of(*info, offsets),
{
    let (start_line, start_col) = offset_to_line_col(info, offsets.start_ix);
    let (end_line, end_col) = offset_to_line_col(info, offsets.end_ix - 1);
    proof {
        let sl = line_of(*info, offsets.start_ix as int);
        let el = line_of(*info, offsets.end_ix - 1);
        lemma_line_unique(*info, offsets.start_ix as int, sl, start_line - 1);
        lemma_line_unique(*info, offsets.end_ix - 1, el, end_line - 1);
    }
    Span2 { start_line, start_col, end_line, end_col: end_col + 1 }
}

/// Distinct lines do not overlap: the line of an offset is unique.
pub proof fn lemma_line_unique(info: FileInfo, off: int, k1: int, k2: int)
    requires
        info.wf(),
        info.on_line(off, k1),
        info.on_line(off, k2),
    ensures
        k1 == k2,
{
    if k1 < k2 {
        assert(info.line_start(k1 + 1) <= info.line_start(k2));
    } else if k2 < k1 {
        assert(info.line_start(k2 + 1) <= info.line_start(k1));
    }
}

} // verus!
