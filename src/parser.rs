use crate::chunk_info::ChunkInfo;
use crate::error::Error;
use vstd::prelude::*;
use vstd::string::StringExecFns;

verus! {

/// How far past a candidate split point the boundary search looks: a
/// boundary is an object terminator that starts within this many bytes.
pub const BOUNDARY_LOOKAHEAD: usize = 1_048_576;

/// `w[i]` is a `}` immediately followed by `,` or `]`: a complete object
/// ends at `i`, and a chunk may start at `i + 1`.
pub open spec fn is_boundary_at(w: Seq<u8>, i: int) -> bool {
    &&& 0 <= i
    &&& i + 1 < w.len()
    &&& w[i] == 125u8
    &&& (w[i + 1] == 44u8 || w[i + 1] == 93u8)
}

/// The part of a window that the boundary search looks at: the lookahead,
/// plus the one byte that may follow a `}` found at its last position.
pub open spec fn lookahead(w: Seq<u8>) -> Seq<u8> {
    if w.len() > BOUNDARY_LOOKAHEAD + 1 {
        w.take(BOUNDARY_LOOKAHEAD + 1)
    } else {
        w
    }
}

/// The first index at or after `i` where a boundary pattern starts, or
/// `w.len()` when there is none.
pub open spec fn first_boundary_from(w: Seq<u8>, i: int) -> int
    decreases w.len() - i,
{
    if i < 0 || i + 1 >= w.len() {
        w.len() as int
    } else if is_boundary_at(w, i) {
        i
    } else {
        first_boundary_from(w, i + 1)
    }
}

/// Where the boundary search that starts at offset `candidate`, over the
/// bytes `w` read from there, places the split: right after the first
/// object terminator in the lookahead, or the candidate itself.
pub open spec fn located_boundary(w: Seq<u8>, candidate: int) -> int {
    let f = first_boundary_from(lookahead(w), 0);
    if f < lookahead(w).len() {
        candidate + f + 1
    } else {
        candidate
    }
}

proof fn lemma_first_boundary_from(w: Seq<u8>, i: int)
    requires
        0 <= i,
    ensures
        first_boundary_from(w, i) == w.len() || i <= first_boundary_from(w, i) < w.len(),
        first_boundary_from(w, i) < w.len() ==> is_boundary_at(w, first_boundary_from(w, i)),
        forall|j: int| i <= j < first_boundary_from(w, i) ==> !is_boundary_at(w, j),
        first_boundary_from(w, i) >= w.len() ==> forall|j: int| i <= j ==> !is_boundary_at(w, j),
    decreases w.len() - i,
{
    if i + 1 >= w.len() {
    } else if is_boundary_at(w, i) {
    } else {
        lemma_first_boundary_from(w, i + 1);
    }
}

/// Finds the split point that follows offset `start_pos`, given the bytes
/// `window` of the input that start there.
///
/// The result is the offset right after the first `}` that is immediately
/// followed by `,` or `]` and that starts within the lookahead; when there
/// is no such pattern, it is `start_pos` itself. The search does not know
/// about quoted strings: a string value that holds `},` or `}]` is taken for
/// a terminator.
pub fn find_next_object_boundary(window: &[u8], start_pos: u64) -> (r: u64)
    requires
        start_pos + lookahead(window@).len() <= u64::MAX,
    ensures
        r == located_boundary(window@, start_pos as int),
        forall|p: int|
            #![trigger is_boundary_at(lookahead(window@), p)]
            is_boundary_at(lookahead(window@), p) ==> start_pos < r <= start_pos + p + 1,
        r > start_pos ==> is_boundary_at(lookahead(window@), r - start_pos - 1),
        r == start_pos ==> forall|p: int| !is_boundary_at(lookahead(window@), p),
{
    let ghost w = lookahead(window@);
    let len: usize = if window.len() > BOUNDARY_LOOKAHEAD + 1 {
        BOUNDARY_LOOKAHEAD + 1
    } else {
        window.len()
    };
    assert(w.len() == len);
    proof {
        lemma_first_boundary_from(w, 0);
    }
    let mut i: usize = 0;
    while i + 1 < len
        invariant
            len == w.len(),
            w == lookahead(window@),
            start_pos + len <= u64::MAX,
            len <= window@.len(),
            i <= len,
            forall|j: int| 0 <= j < i ==> !is_boundary_at(w, j),
            first_boundary_from(w, 0) == first_boundary_from(w, i as int),
        decreases len - i,
    {
        assert(window[i as int] == w[i as int] && window[i + 1] == w[i + 1]);
        if window[i] == 125u8 && (window[i + 1] == 44u8 || window[i + 1] == 93u8) {
            assert(is_boundary_at(w, i as int));
            return start_pos + i as u64 + 1;
        }
        i = i + 1;
    }
    assert forall|p: int| !is_boundary_at(w, p) by {
        if 0 <= p && p + 1 < w.len() {
            assert(p < i);
        }
    }
    start_pos
}

/// The even split point of boundary `i`: `i` times the even share of the
/// input that each of `n` workers gets.
pub open spec fn split_candidate(file_size: int, n: int, i: int) -> int {
    i * (file_size / n)
}

/// The end of chunk `i` of a plan for `n` workers over `file_size` bytes,
/// where `windows[i]` holds the bytes that start at the candidate of the
/// boundary after chunk `i`.
///
/// The last chunk ends at `file_size`. Every other one ends where the
/// boundary search from its candidate lands, but never before the previous
/// chunk's end, so that no range runs backwards.
pub open spec fn chunk_end(file_size: int, n: int, windows: Seq<Seq<u8>>, i: int) -> int
    decreases i + 1,
{
    if i < 0 {
        0
    } else if i + 1 >= n {
        file_size
    } else {
        let prev = chunk_end(file_size, n, windows, i - 1);
        let loc = located_boundary(windows[i], split_candidate(file_size, n, i + 1));
        if loc < prev {
            prev
        } else {
            loc
        }
    }
}

/// The start of chunk `i`: the end of the one before, or `0`.
pub open spec fn chunk_start(file_size: int, n: int, windows: Seq<Seq<u8>>, i: int) -> int {
    chunk_end(file_size, n, windows, i - 1)
}

/// Each window is a run of input bytes that starts at its candidate, so it
/// does not reach past the end of the input.
pub open spec fn windows_fit(file_size: int, n: int, windows: Seq<Seq<u8>>) -> bool {
    &&& windows.len() + 1 == n
    &&& forall|i: int|
        0 <= i < windows.len() ==> split_candidate(file_size, n, i + 1) + #[trigger] windows[i].len()
            <= file_size
}

proof fn lemma_candidate_bounds(file_size: int, n: int, i: int)
    requires
        0 <= file_size,
        1 <= n,
        0 <= i <= n,
    ensures
        0 <= split_candidate(file_size, n, i) <= file_size,
{
    let q = file_size / n;
    assert(0 <= q) by (nonlinear_arith)
        requires
            0 <= file_size,
            1 <= n,
            q == file_size / n,
    ;
    assert(q * n <= file_size) by (nonlinear_arith)
        requires
            0 <= file_size,
            1 <= n,
            q == file_size / n,
    ;
    assert(0 <= i * q <= n * q) by (nonlinear_arith)
        requires
            0 <= i <= n,
            0 <= q,
    ;
}

proof fn lemma_chunk_end_bounds(file_size: int, n: int, windows: Seq<Seq<u8>>, i: int)
    requires
        0 <= file_size,
        1 <= n,
        windows_fit(file_size, n, windows),
        -1 <= i < n,
    ensures
        0 <= chunk_end(file_size, n, windows, i) <= file_size,
        0 <= i ==> chunk_end(file_size, n, windows, i - 1) <= chunk_end(file_size, n, windows, i),
    decreases i + 1,
{
    if i >= 0 {
        lemma_chunk_end_bounds(file_size, n, windows, i - 1);
        if i + 1 < n {
            let c = split_candidate(file_size, n, i + 1);
            lemma_candidate_bounds(file_size, n, i + 1);
            assert(c + windows[i].len() <= file_size);
            lemma_first_boundary_from(lookahead(windows[i]), 0);
        }
    }
}

/// The even split point of boundary `index` for `num_threads` workers over
/// `file_size` bytes; the caller reads the boundary search's window there.
pub fn split_candidate_at(file_size: u64, num_threads: usize, index: usize) -> (r: u64)
    requires
        1 <= num_threads,
        index <= num_threads,
    ensures
        r == split_candidate(file_size as int, num_threads as int, index as int),
{
    proof {
        lemma_candidate_bounds(file_size as int, num_threads as int, index as int);
    }
    (index as u64) * (file_size / (num_threads as u64))
}

/// Divides `[0, file_size)` into `num_threads` contiguous ranges.
///
/// `windows[i]` holds the input bytes that start at the candidate of the
/// boundary between chunk `i` and chunk `i + 1` (see `split_candidate_at`),
/// as many as the caller read there, at most the rest of the input.
/// Fails with a configuration error when `num_threads` is zero.
pub fn plan_chunks(file_size: u64, num_threads: usize, windows: &Vec<Vec<u8>>) -> (r: Result<
    Vec<ChunkInfo>,
    Error,
>)
    requires
        num_threads >= 1 ==> windows_fit(
            file_size as int,
            num_threads as int,
            windows@.map_values(|w: Vec<u8>| w@),
        ),
    ensures
        r is Err <==> num_threads == 0,
        r is Err ==> r->Err_0 is ConfigurationError,
        r matches Ok(chunks) ==> {
            let ws = windows@.map_values(|w: Vec<u8>| w@);
            &&& chunks.len() == num_threads
            &&& forall|i: int|
                0 <= i < chunks.len() ==> {
                    &&& (#[trigger] chunks[i]).wf()
                    &&& chunks[i].start == chunk_start(file_size as int, num_threads as int, ws, i)
                    &&& chunks[i].end == chunk_end(file_size as int, num_threads as int, ws, i)
                }
            &&& chunks[0].start == 0
            &&& chunks[chunks.len() - 1].end == file_size
            &&& forall|i: int| 0 <= i < chunks.len() - 1 ==> #[trigger] chunks[i].end == chunks[i + 1].start
        },
{
    if num_threads == 0 {
        return Err(Error::ConfigurationError(String::from_str("the number of workers must be at least one")));
    }
    let ghost fs = file_size as int;
    let ghost n = num_threads as int;
    let ghost ws = windows@.map_values(|w: Vec<u8>| w@);
    let mut chunks: Vec<ChunkInfo> = Vec::new();
    let mut start: u64 = 0;
    let mut i: usize = 0;
    while i < num_threads
        invariant
            n == num_threads,
            1 <= n,
            fs == file_size,
            ws == windows@.map_values(|w: Vec<u8>| w@),
            windows_fit(fs, n, ws),
            0 <= i <= n,
            chunks.len() == i,
            start == chunk_end(fs, n, ws, i - 1),
            forall|j: int|
                0 <= j < i ==> {
                    &&& (#[trigger] chunks[j]).wf()
                    &&& chunks[j].start == chunk_start(fs, n, ws, j)
                    &&& chunks[j].end == chunk_end(fs, n, ws, j)
                },
        decreases num_threads - i,
    {
        proof {
            lemma_chunk_end_bounds(fs, n, ws, i as int);
        }
        let end: u64 = if i + 1 == num_threads {
            file_size
        } else {
            let candidate = split_candidate_at(file_size, num_threads, i + 1);
            let window = &windows[i];
            assert(ws[i as int] == window@);
            proof {
                lemma_candidate_bounds(fs, n, i + 1);
                assert(candidate + ws[i as int].len() <= fs);
            }
            let loc = find_next_object_boundary(window.as_slice(), candidate);
            if loc < start {
                start
            } else {
                loc
            }
        };
        chunks.push(ChunkInfo { start, end, size: end - start });
        start = end;
        i = i + 1;
    }
    proof {
        assert forall|j: int| 0 <= j < chunks.len() - 1 implies #[trigger] chunks[j].end == chunks[j + 1].start by {
            assert(chunks[j + 1].start == chunk_start(fs, n, ws, j + 1));
        }
    }
    Ok(chunks)
}

} // verus!
