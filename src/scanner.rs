use crate::chunk_info::ChunkInfo;
use vstd::prelude::*;

verus! {

/// `{`
pub const OPEN_BRACE: u8 = 123;

/// `}`
pub const CLOSE_BRACE: u8 = 125;

/// `[`
pub const OPEN_BRACKET: u8 = 91;

/// `]`
pub const CLOSE_BRACKET: u8 = 93;

/// `,`
pub const COMMA: u8 = 44;

/// `"`
pub const QUOTE: u8 = 34;

/// `\`
pub const BACKSLASH: u8 = 92;

/// What the scanner knows after some bytes: whether it is inside a quoted
/// string, whether the next byte is escaped, how deeply braces are nested
/// outside strings, and the text of the object that is being collected.
pub struct ScanState {
    pub in_string: bool,
    pub escape_next: bool,
    pub depth: int,
    pub current: Seq<u8>,
}

/// The state before any byte, and between two top-level objects.
pub open spec fn at_rest() -> ScanState {
    ScanState { in_string: false, escape_next: false, depth: 0, current: Seq::empty() }
}

/// Top-level `[`, `]` and `,` separate objects and are dropped.
pub open spec fn is_separator(b: u8) -> bool {
    b == OPEN_BRACKET || b == CLOSE_BRACKET || b == COMMA
}

/// The effect of one byte: the next state, and the object text that the
/// byte completes, if any.
///
/// An escaped byte is kept as it is. A quote opens or closes a string, and
/// inside a string a backslash escapes the next byte; both are kept. Outside
/// strings, a `[`, `]` or `,` at depth zero is dropped, `{` opens a level and
/// `}` closes one. A byte is kept while the depth is positive, and so is the
/// `}` that brings it back to zero. The text is complete when the depth is
/// back to zero and the text starts with `{`; it is then handed out and the
/// collection starts afresh.
pub open spec fn step(s: ScanState, b: u8) -> (ScanState, Seq<Seq<u8>>) {
    if s.escape_next {
        (ScanState { escape_next: false, current: s.current.push(b), ..s }, Seq::empty())
    } else if b == BACKSLASH && s.in_string {
        (ScanState { escape_next: true, current: s.current.push(b), ..s }, Seq::empty())
    } else if b == QUOTE {
        (ScanState { in_string: !s.in_string, current: s.current.push(b), ..s }, Seq::empty())
    } else if !s.in_string && s.depth == 0 && is_separator(b) {
        (s, Seq::empty())
    } else {
        let d = if !s.in_string && b == OPEN_BRACE {
            s.depth + 1
        } else if !s.in_string && b == CLOSE_BRACE {
            s.depth - 1
        } else {
            s.depth
        };
        let cur = if d > 0 || (!s.in_string && b == CLOSE_BRACE && d == 0) {
            s.current.push(b)
        } else {
            s.current
        };
        if d == 0 && cur.len() > 0 && cur[0] == OPEN_BRACE {
            (ScanState { depth: d, current: Seq::empty(), ..s }, seq![cur])
        } else {
            (ScanState { depth: d, current: cur, ..s }, Seq::empty())
        }
    }
}

/// The effect of a run of bytes: the state after them, and the object texts
/// that they complete, in order.
pub open spec fn scan(s: ScanState, bytes: Seq<u8>) -> (ScanState, Seq<Seq<u8>>)
    decreases bytes.len(),
{
    if bytes.len() == 0 {
        (s, Seq::empty())
    } else {
        let (s1, out1) = scan(s, bytes.drop_last());
        let (s2, out2) = step(s1, bytes.last());
        (s2, out1 + out2)
    }
}

/// Scanning two runs of bytes one after the other is scanning their
/// concatenation: feeding a chunk in buffers of any size frames the same
/// objects.
pub proof fn lemma_scan_concat(s: ScanState, a: Seq<u8>, b: Seq<u8>)
    ensures
        scan(s, a + b) == (scan(scan(s, a).0, b).0, scan(s, a).1 + scan(scan(s, a).0, b).1),
    decreases b.len(),
{
    if b.len() == 0 {
        assert(a + b =~= a);
        assert(scan(s, a).1 + Seq::<Seq<u8>>::empty() =~= scan(s, a).1);
    } else {
        assert((a + b).drop_last() =~= a + b.drop_last());
        assert((a + b).last() == b.last());
        lemma_scan_concat(s, a, b.drop_last());
        let s1 = scan(s, a).0;
        let (s2, o2) = scan(s1, b.drop_last());
        let (s3, o3) = step(s2, b.last());
        assert(scan(s, a).1 + o2 + o3 =~= scan(s, a).1 + (o2 + o3));
    }
}

/// The input split into consecutive parts, each of which leaves the scanner
/// at rest, frames the same objects part by part as it does whole: the
/// objects framed per chunk, taken in chunk order, are those of the whole
/// input, whatever the number of chunks.
pub proof fn lemma_split_at_rest(parts: Seq<Seq<u8>>)
    requires
        forall|i: int| 0 <= i < parts.len() ==> (#[trigger] scan(at_rest(), parts[i])).0 == at_rest(),
    ensures
        scan(at_rest(), parts.flatten_alt()) == (
            at_rest(),
            parts.map_values(|p: Seq<u8>| scan(at_rest(), p).1).flatten_alt(),
        ),
    decreases parts.len(),
{
    let per_part = parts.map_values(|p: Seq<u8>| scan(at_rest(), p).1);
    if parts.len() == 0 {
        assert(scan(at_rest(), parts.flatten_alt()).1 =~= per_part.flatten_alt());
    } else {
        let init = parts.drop_last();
        assert forall|i: int| 0 <= i < init.len() implies (#[trigger] scan(
            at_rest(),
            init[i],
        )).0 == at_rest() by {
            assert(init[i] == parts[i]);
        }
        lemma_split_at_rest(init);
        lemma_scan_concat(at_rest(), init.flatten_alt(), parts.last());
        assert(scan(at_rest(), parts[parts.len() - 1]).0 == at_rest());
        assert(per_part.drop_last() =~= init.map_values(|p: Seq<u8>| scan(at_rest(), p).1));
    }
}

/// A byte that the scanner at rest passes over: anything but a brace or a
/// quote (top-level separators, whitespace, line breaks).
pub open spec fn is_gap_byte(b: u8) -> bool {
    b != OPEN_BRACE && b != CLOSE_BRACE && b != QUOTE
}

/// An object text that the scanner frames on its own: scanned from rest it
/// is delivered whole, and the scanner is at rest again.
pub open spec fn frames_alone(o: Seq<u8>) -> bool {
    scan(at_rest(), o) == (at_rest(), seq![o])
}

/// Object texts, each preceded by its run of gap bytes.
pub open spec fn joined(gaps: Seq<Seq<u8>>, objs: Seq<Seq<u8>>) -> Seq<u8>
    decreases objs.len(),
{
    if objs.len() == 0 || gaps.len() != objs.len() {
        Seq::empty()
    } else {
        joined(gaps.drop_last(), objs.drop_last()) + gaps.last() + objs.last()
    }
}

proof fn lemma_gap_at_rest(g: Seq<u8>)
    requires
        forall|j: int| 0 <= j < g.len() ==> is_gap_byte(#[trigger] g[j]),
    ensures
        scan(at_rest(), g) == (at_rest(), Seq::<Seq<u8>>::empty()),
    decreases g.len(),
{
    if g.len() > 0 {
        lemma_gap_at_rest(g.drop_last());
        assert(is_gap_byte(g[g.len() - 1]));
        assert(Seq::<Seq<u8>>::empty() + Seq::<Seq<u8>>::empty() =~= Seq::<Seq<u8>>::empty());
    }
}

/// A byte range that holds exactly `k` objects, each of which frames on its
/// own, separated by gap bytes, yields exactly those `k` texts, in order.
pub proof fn lemma_delivery_count(gaps: Seq<Seq<u8>>, objs: Seq<Seq<u8>>)
    requires
        gaps.len() == objs.len(),
        forall|i: int| 0 <= i < objs.len() ==> frames_alone(#[trigger] objs[i]),
        forall|i: int, j: int|
            0 <= i < gaps.len() && 0 <= j < gaps[i].len() ==> is_gap_byte(#[trigger] gaps[i][j]),
    ensures
        scan(at_rest(), joined(gaps, objs)) == (at_rest(), objs),
        scan(at_rest(), joined(gaps, objs)).1.len() == objs.len(),
    decreases objs.len(),
{
    if objs.len() == 0 {
        assert(objs =~= Seq::<Seq<u8>>::empty());
    } else {
        let k = objs.len() - 1;
        let gi = gaps.drop_last();
        let oi = objs.drop_last();
        assert forall|i: int| 0 <= i < oi.len() implies frames_alone(#[trigger] oi[i]) by {
            assert(oi[i] == objs[i]);
        }
        assert forall|i: int, j: int|
            0 <= i < gi.len() && 0 <= j < gi[i].len() implies is_gap_byte(#[trigger] gi[i][j]) by {
            assert(gi[i] == gaps[i]);
        }
        lemma_delivery_count(gi, oi);
        let g = gaps[k];
        let o = objs[k];
        assert forall|j: int| 0 <= j < g.len() implies is_gap_byte(#[trigger] g[j]) by {
            assert(is_gap_byte(gaps[k][j]));
        }
        lemma_gap_at_rest(g);
        assert(frames_alone(o));
        lemma_scan_concat(at_rest(), joined(gi, oi), g);
        lemma_scan_concat(at_rest(), joined(gi, oi) + g, o);
        assert(oi + Seq::<Seq<u8>>::empty() =~= oi);
        assert(oi + seq![o] =~= objs);
    }
}

/// Rebuilds object texts out of one chunk of the input, fed to it in
/// buffers of any size.
///
/// It reads no more than the chunk's size in total: bytes past it belong to
/// the next chunk and are ignored.
pub struct ObjectScanner {
    in_string: bool,
    escape_next: bool,
    depth: i128,
    current: Vec<u8>,
    consumed: u64,
    remaining: u64,
}

impl ObjectScanner {
    /// The scanning state.
    pub closed spec fn state(&self) -> ScanState {
        ScanState {
            in_string: self.in_string,
            escape_next: self.escape_next,
            depth: self.depth as int,
            current: self.current@,
        }
    }

    /// How many more bytes of the chunk the scanner takes.
    pub closed spec fn remaining(&self) -> nat {
        self.remaining as nat
    }

    /// The nesting depth stays within what the bytes taken so far allow.
    pub closed spec fn wf(&self) -> bool {
        &&& self.consumed + self.remaining <= u64::MAX
        &&& -(self.consumed as int) <= self.depth <= self.consumed
    }

    /// A scanner at rest for the bytes of `chunk`.
    pub fn new(chunk: &ChunkInfo) -> (r: ObjectScanner)
        ensures
            r.wf(),
            r.state() == at_rest(),
            r.remaining() == chunk.size,
    {
        let r = ObjectScanner {
            in_string: false,
            escape_next: false,
            depth: 0,
            current: Vec::new(),
            consumed: 0,
            remaining: chunk.size,
        };
        assert(r.state().current =~= at_rest().current);
        r
    }

    /// How many more bytes of the chunk the scanner takes.
    pub fn bytes_left(&self) -> (r: u64)
        ensures
            r == self.remaining(),
    {
        self.remaining
    }

    fn step_byte(&mut self, b: u8, out: &mut Vec<Vec<u8>>)
        requires
            old(self).wf(),
            old(self).remaining > 0,
        ensures
            final(self).wf(),
            final(self).remaining == old(self).remaining - 1,
            final(self).state() == step(old(self).state(), b).0,
            final(out)@.map_values(|v: Vec<u8>| v@) == old(out)@.map_values(|v: Vec<u8>| v@)
                + step(old(self).state(), b).1,
    {
        let ghost s = self.state();
        let ghost out0 = out@.map_values(|v: Vec<u8>| v@);
        self.consumed = self.consumed + 1;
        self.remaining = self.remaining - 1;
        if self.escape_next {
            self.current.push(b);
            self.escape_next = false;
        } else if b == BACKSLASH && self.in_string {
            self.escape_next = true;
            self.current.push(b);
        } else if b == QUOTE {
            self.in_string = !self.in_string;
            self.current.push(b);
        } else if !self.in_string && self.depth == 0 && (b == OPEN_BRACKET || b == CLOSE_BRACKET
            || b == COMMA) {
        } else {
            if !self.in_string && b == OPEN_BRACE {
                self.depth = self.depth + 1;
            } else if !self.in_string && b == CLOSE_BRACE {
                self.depth = self.depth - 1;
            }
            if self.depth > 0 || (!self.in_string && b == CLOSE_BRACE && self.depth == 0) {
                self.current.push(b);
            }
            if self.depth == 0 && self.current.len() > 0 && self.current[0] == OPEN_BRACE {
                let mut done: Vec<u8> = Vec::new();
                std::mem::swap(&mut done, &mut self.current);
                out.push(done);
                assert(out@.map_values(|v: Vec<u8>| v@) =~= out0 + step(s, b).1);
                assert(self.current@ =~= Seq::<u8>::empty());
            }
        }
        assert(out@.map_values(|v: Vec<u8>| v@) =~= out0 + step(s, b).1);
    }

    /// Takes the next bytes of the chunk, at most as many as remain of it,
    /// and returns the object texts that they complete, in order.
    pub fn feed(&mut self, bytes: &[u8]) -> (r: Vec<Vec<u8>>)
        requires
            old(self).wf(),
        ensures
            final(self).wf(),
            ({
                let n = if bytes@.len() < old(self).remaining() {
                    bytes@.len() as int
                } else {
                    old(self).remaining() as int
                };
                &&& final(self).remaining() == old(self).remaining() - n
                &&& final(self).state() == scan(old(self).state(), bytes@.take(n)).0
                &&& r@.map_values(|v: Vec<u8>| v@) == scan(old(self).state(), bytes@.take(n)).1
            }),
    {
        let ghost s0 = self.state();
        let ghost r0 = self.remaining();
        let n: usize = if (bytes.len() as u64) < self.remaining {
            bytes.len()
        } else {
            self.remaining as usize
        };
        let mut out: Vec<Vec<u8>> = Vec::new();
        let mut i: usize = 0;
        assert(bytes@.take(0) =~= Seq::<u8>::empty());
        assert(out@.map_values(|v: Vec<u8>| v@) =~= Seq::<Seq<u8>>::empty());
        while i < n
            invariant
                n <= bytes@.len(),
                n <= r0,
                0 <= i <= n,
                self.wf(),
                self.remaining() == r0 - i,
                self.state() == scan(s0, bytes@.take(i as int)).0,
                out@.map_values(|v: Vec<u8>| v@) == scan(s0, bytes@.take(i as int)).1,
            decreases n - i,
        {
            assert(bytes@.take(i + 1).drop_last() =~= bytes@.take(i as int));
            self.step_byte(bytes[i], &mut out);
            i = i + 1;
        }
        out
    }
}

} // verus!
