//! The executor's decisions: which id a run gets, whether its output changed
//! since the previous run (and by how much), and how long to wait before the
//! next run. Running the command, storing the record and sleeping are left to
//! the caller, which feeds the outcomes back.

use vstd::prelude::*;
use vstd::utf8::{decode_utf8, valid_utf8};
use crate::text::chars_of;
use dissimilar::Chunk;

verus! {

/// The kind of a piece of a diff.
#[derive(Debug, Clone, Copy, PartialEq, Eq, Structural)]
pub enum ChunkKind {
    Equal,
    Delete,
    Insert,
}

/// A piece of a diff between an old and a new text.
#[derive(Debug, Clone, PartialEq, Eq)]
pub struct DiffChunk {
    pub kind: ChunkKind,
    pub text: String,
}

/// The views of a list of diff pieces.
pub open spec fn chunk_views(v: Seq<DiffChunk>) -> Seq<(ChunkKind, Seq<char>)> {
    v.map_values(|c: DiffChunk| (c.kind, c.text@))
}

/// The pieces that `dissimilar::diff` finds between `old` and `new`.
pub uninterp spec fn text_diff(old: Seq<char>, new: Seq<char>) -> Seq<(ChunkKind, Seq<char>)>;

/// The old text that a list of pieces describes: its equal and deleted
/// pieces, in order.
pub open spec fn old_side(chunks: Seq<(ChunkKind, Seq<char>)>) -> Seq<char>
    decreases chunks.len(),
{
    if chunks.len() == 0 {
        Seq::empty()
    } else if chunks.last().0 == ChunkKind::Insert {
        old_side(chunks.drop_last())
    } else {
        old_side(chunks.drop_last()) + chunks.last().1
    }
}

/// The new text that a list of pieces describes: its equal and inserted
/// pieces, in order.
pub open spec fn new_side(chunks: Seq<(ChunkKind, Seq<char>)>) -> Seq<char>
    decreases chunks.len(),
{
    if chunks.len() == 0 {
        Seq::empty()
    } else if chunks.last().0 == ChunkKind::Delete {
        new_side(chunks.drop_last())
    } else {
        new_side(chunks.drop_last()) + chunks.last().1
    }
}

/// The number of characters in the pieces of kind `kind`.
pub open spec fn chars_of_kind(chunks: Seq<(ChunkKind, Seq<char>)>, kind: ChunkKind) -> int
    decreases chunks.len(),
{
    if chunks.len() == 0 {
        0
    } else if chunks.last().0 == kind {
        chars_of_kind(chunks.drop_last(), kind) + chunks.last().1.len()
    } else {
        chars_of_kind(chunks.drop_last(), kind)
    }
}

/// Calls `dissimilar::diff`, converting each chunk to a `DiffChunk`; the
/// pieces are named by `text_diff`. The contract also says what makes the
/// result a diff: its equal and deleted pieces spell the old text, and its
/// equal and inserted pieces the new one; and, as dissimilar's source shows by
/// trimming the common prefix first, two equal texts differ by equal pieces
/// only.
#[verifier::external_body]
fn diff_chunks(old: &str, new: &str) -> (r: Vec<DiffChunk>)
    ensures
        chunk_views(r@) == text_diff(old@, new@),
        old_side(chunk_views(r@)) == old@,
        new_side(chunk_views(r@)) == new@,
        old@ == new@ ==> forall|i: int| 0 <= i < r@.len() ==> #[trigger] r@[i].kind == ChunkKind::Equal,
{
    dissimilar::diff(old, new).into_iter().map(
        |c| match c {
            Chunk::Equal(s) => DiffChunk { kind: ChunkKind::Equal, text: s.to_string() },
            Chunk::Delete(s) => DiffChunk { kind: ChunkKind::Delete, text: s.to_string() },
            Chunk::Insert(s) => DiffChunk { kind: ChunkKind::Insert, text: s.to_string() },
        },
    ).collect()
}

/// Counting a list of pieces: the inserted characters are at most the new
/// text's, the deleted at most the old text's, and their difference is the
/// change in length.
pub proof fn lemma_chunk_counts(chunks: Seq<(ChunkKind, Seq<char>)>)
    ensures
        0 <= chars_of_kind(chunks, ChunkKind::Insert) <= new_side(chunks).len(),
        0 <= chars_of_kind(chunks, ChunkKind::Delete) <= old_side(chunks).len(),
        chars_of_kind(chunks, ChunkKind::Insert) - chars_of_kind(chunks, ChunkKind::Delete)
            == new_side(chunks).len() - old_side(chunks).len(),
    decreases chunks.len(),
{
    if chunks.len() > 0 {
        lemma_chunk_counts(chunks.drop_last());
    }
}

/// A list of equal pieces inserts and deletes nothing.
pub proof fn lemma_equal_chunks_count_nothing(chunks: Seq<(ChunkKind, Seq<char>)>)
    requires
        forall|i: int| 0 <= i < chunks.len() ==> #[trigger] chunks[i].0 == ChunkKind::Equal,
    ensures
        chars_of_kind(chunks, ChunkKind::Insert) == 0,
        chars_of_kind(chunks, ChunkKind::Delete) == 0,
    decreases chunks.len(),
{
    if chunks.len() > 0 {
        let prev = chunks.drop_last();
        assert forall|i: int| 0 <= i < prev.len() implies #[trigger] prev[i].0 == ChunkKind::Equal by {
            assert(prev[i] == chunks[i]);
        }
        assert(chunks.last() == chunks[chunks.len() - 1]);
        lemma_equal_chunks_count_nothing(prev);
    }
}

/// A list of pieces with nothing inserted or deleted describes the same old
/// and new text.
pub proof fn lemma_no_changes_same_text(chunks: Seq<(ChunkKind, Seq<char>)>)
    requires
        chars_of_kind(chunks, ChunkKind::Insert) == 0,
        chars_of_kind(chunks, ChunkKind::Delete) == 0,
    ensures
        old_side(chunks) == new_side(chunks),
    decreases chunks.len(),
{
    if chunks.len() > 0 {
        let prev = chunks.drop_last();
        lemma_chunk_counts(prev);
        lemma_no_changes_same_text(prev);
        if chunks.last().0 == ChunkKind::Insert {
            assert(chunks.last().1 =~= Seq::<char>::empty());
            assert(new_side(chunks) =~= new_side(prev) + chunks.last().1);
        } else if chunks.last().0 == ChunkKind::Delete {
            assert(chunks.last().1 =~= Seq::<char>::empty());
            assert(old_side(chunks) =~= old_side(prev) + chunks.last().1);
        }
    }
}

proof fn lemma_chars_of_kind_nonneg(chunks: Seq<(ChunkKind, Seq<char>)>, kind: ChunkKind)
    ensures
        chars_of_kind(chunks, kind) >= 0,
    decreases chunks.len(),
{
    if chunks.len() > 0 {
        lemma_chars_of_kind_nonneg(chunks.drop_last(), kind);
    }
}

proof fn lemma_chars_of_kind_prefix(chunks: Seq<(ChunkKind, Seq<char>)>, kind: ChunkKind, i: int)
    requires
        0 <= i <= chunks.len(),
    ensures
        0 <= chars_of_kind(chunks.take(i), kind) <= chars_of_kind(chunks, kind),
    decreases chunks.len() - i,
{
    if i < chunks.len() {
        lemma_chars_of_kind_prefix(chunks, kind, i + 1);
        assert(chunks.take(i + 1).drop_last() =~= chunks.take(i));
        lemma_chars_of_kind_nonneg(chunks.take(i), kind);
    } else {
        assert(chunks.take(i) =~= chunks);
        lemma_chars_of_kind_nonneg(chunks, kind);
    }
}

/// The number of characters inserted and deleted between `old` and
/// `current`, as the diff counts them.
pub fn count_diff(old: &str, current: &str) -> (r: (u32, u32))
    requires
        old@.len() <= u32::MAX,
        current@.len() <= u32::MAX,
    ensures
        r.0 == chars_of_kind(text_diff(old@, current@), ChunkKind::Insert),
        r.1 == chars_of_kind(text_diff(old@, current@), ChunkKind::Delete),
        r.0 <= current@.len(),
        r.1 <= old@.len(),
        r.0 - r.1 == current@.len() - old@.len(),
        r.0 == 0 && r.1 == 0 <==> old@ == current@,
        old@.len() == 0 ==> r.0 == current@.len() && r.1 == 0,
{
    let chunks = diff_chunks(old, current);
    let ghost cv = chunk_views(chunks@);
    proof {
        lemma_chunk_counts(cv);
    }
    let mut inserted: u32 = 0;
    let mut deleted: u32 = 0;
    let mut i: usize = 0;
    while i < chunks.len()
        invariant
            i <= chunks@.len() == cv.len(),
            cv == chunk_views(chunks@),
            chars_of_kind(cv, ChunkKind::Insert) <= u32::MAX,
            chars_of_kind(cv, ChunkKind::Delete) <= u32::MAX,
            inserted == chars_of_kind(cv.take(i as int), ChunkKind::Insert),
            deleted == chars_of_kind(cv.take(i as int), ChunkKind::Delete),
        decreases chunks@.len() - i,
    {
        proof {
            assert(cv.take(i + 1).drop_last() =~= cv.take(i as int));
            lemma_chars_of_kind_prefix(cv, ChunkKind::Insert, i + 1);
            lemma_chars_of_kind_prefix(cv, ChunkKind::Delete, i + 1);
        }
        let chunk = &chunks[i];
        let n = chars_of(chunk.text.as_str()).len();
        match chunk.kind {
            ChunkKind::Delete => {
                deleted = deleted + n as u32;
            },
            ChunkKind::Insert => {
                inserted = inserted + n as u32;
            },
            ChunkKind::Equal => {},
        }
        i = i + 1;
    }
    assert(cv.take(cv.len() as int) =~= cv);
    proof {
        if inserted == 0 && deleted == 0 {
            lemma_no_changes_same_text(cv);
        }
        if old@ == current@ {
            assert forall|i: int| 0 <= i < cv.len() implies #[trigger] cv[i].0 == ChunkKind::Equal by {
                assert(chunks@[i].kind == ChunkKind::Equal);
            }
            lemma_equal_chunks_count_nothing(cv);
        }
    }
    (inserted, deleted)
}


/// What `String::from_utf8_lossy` makes of `bytes`.
pub uninterp spec fn utf8_lossy(bytes: Seq<u8>) -> Seq<char>;

/// Calls `String::from_utf8_lossy` and takes the text as a `String`; the text
/// is named by `utf8_lossy`. The contract also says what std documents: valid
/// UTF-8 is decoded as it stands, and every character of the result stands for
/// at least one byte (a decoded character, or U+FFFD for an invalid sequence).
#[verifier::external_body]
fn decode_lossy(bytes: &[u8]) -> (r: String)
    ensures
        r@ == utf8_lossy(bytes@),
        r@.len() <= bytes@.len(),
        valid_utf8(bytes@) ==> r@ == decode_utf8(bytes@),
{
    String::from_utf8_lossy(bytes).to_string()
}

/// How long a suspended executor waits before it looks again, in
/// milliseconds.
pub const SUSPENDED_POLL_MILLIS: u64 = 1000;

/// A span of time as `std::time::Duration::new` takes it.
#[derive(Debug, Clone, Copy, PartialEq, Eq)]
pub struct WaitTime {
    pub secs: u64,
    pub nanos: u32,
}

/// The length of a wait, in nanoseconds.
pub open spec fn wait_nanos(w: WaitTime) -> int {
    w.secs * 1_000_000_000 + w.nanos
}

/// The wait of `n` nanoseconds.
fn wait_from_nanos(n: u128) -> (r: WaitTime)
    requires
        n <= u64::MAX as int * 1_000_000,
    ensures
        wait_nanos(r) == n,
        r.nanos < 1_000_000_000,
{
    let secs = n / 1_000_000_000;
    let nanos = n % 1_000_000_000;
    assert(secs <= u64::MAX);
    WaitTime { secs: secs as u64, nanos: nanos as u32 }
}

/// What the executor does at the start of an iteration.
#[derive(Debug, Clone, Copy, PartialEq, Eq)]
pub enum IterationStart {
    /// Execution is suspended: wait, then start the next iteration.
    Suspended { wait: WaitTime },
    /// Run the command; the record gets this id.
    Run { id: u64 },
}

/// What the executor concludes from a run's output.
#[derive(Debug, Clone, Copy, PartialEq, Eq)]
pub struct RunOutcome {
    /// Characters inserted and deleted since the previous record, if there is
    /// one.
    pub diff: Option<(u32, u32)>,
    /// The output changed: announce it.
    pub diff_detected: bool,
}

/// The interval in force: the one stored with the session, else the one the
/// executor was started with.
pub open spec fn interval_millis(stored: Option<u64>, default_millis: u64) -> int {
    match stored {
        Some(ms) => ms as int,
        None => default_millis as int,
    }
}

/// The wait after a run, in nanoseconds: the whole interval; or, on precise
/// timing, what is left of the interval after the run took `elapsed`, none
/// when nothing is left or the elapsed time is unknown (the clock went back).
pub open spec fn next_wait(precise: bool, interval_ms: int, elapsed: Option<u128>) -> Option<int> {
    let interval = interval_ms * 1_000_000;
    if !precise {
        Some(interval)
    } else {
        match elapsed {
            Some(e) => if (e as int) < interval {
                Some(interval - e)
            } else {
                None
            },
            None => None,
        }
    }
}

/// The diff of a run against the previous record's output, both decoded
/// leniently: `None` when there is no previous record.
pub open spec fn run_diff(previous: Option<Seq<u8>>, stdout: Seq<u8>) -> Option<(int, int)> {
    match previous {
        Some(p) => {
            let d = text_diff(utf8_lossy(p), utf8_lossy(stdout));
            Some((chars_of_kind(d, ChunkKind::Insert), chars_of_kind(d, ChunkKind::Delete)))
        },
        None => None,
    }
}

/// The view of optional bytes.
pub open spec fn bytes_view(o: Option<&[u8]>) -> Option<Seq<u8>> {
    match o {
        Some(p) => Some(p@),
        None => None,
    }
}

/// The executor's view: the last id handed out, whether timing is precise,
/// and the interval it was started with.
pub struct ExecutorView {
    pub counter: u64,
    pub precise: bool,
    pub default_interval_millis: u64,
}

/// The id of a run, if the iteration runs the command.
pub open spec fn run_id(start: IterationStart) -> Option<u64> {
    match start {
        IterationStart::Run { id } => Some(id),
        IterationStart::Suspended { .. } => None,
    }
}

impl ExecutorView {
    /// One iteration's start: the counter moves on, and the run, unless
    /// suspended, gets the new counter as its id.
    pub open spec fn begun(self, suspended: bool) -> (ExecutorView, Option<u64>) {
        let next = ExecutorView { counter: (self.counter + 1) as u64, ..self };
        (next, if suspended {
            None
        } else {
            Some(next.counter)
        })
    }

    /// The state and the run ids after iterations that start suspended or
    /// not as `suspended` says, in order.
    pub open spec fn iterated(self, suspended: Seq<bool>) -> (ExecutorView, Seq<Option<u64>>)
        decreases suspended.len(),
    {
        if suspended.len() == 0 {
            (self, Seq::empty())
        } else {
            let (before, ids) = self.iterated(suspended.drop_last());
            let (after, id) = before.begun(suspended.last());
            (after, ids.push(id))
        }
    }
}

/// Over any sequence of iterations, the runs get ids that strictly increase,
/// all larger than the counter the executor started from (so larger than the
/// latest stored id); the suspended iterations run nothing.
pub proof fn lemma_run_ids_increase(start: ExecutorView, suspended: Seq<bool>)
    requires
        start.counter + suspended.len() <= u64::MAX,
    ensures
        start.iterated(suspended).0.counter == start.counter + suspended.len(),
        start.iterated(suspended).1.len() == suspended.len(),
        forall|i: int|
            0 <= i < suspended.len() ==> (#[trigger] start.iterated(suspended).1[i] is None
                <==> suspended[i]),
        forall|i: int|
            0 <= i < suspended.len() && start.iterated(suspended).1[i] is Some ==> start.counter
                < (#[trigger] start.iterated(suspended).1[i])->0 <= start.counter + suspended.len(),
        forall|i: int, j: int|
            0 <= i < j < suspended.len() && start.iterated(suspended).1[i] is Some
                && start.iterated(suspended).1[j] is Some ==> (#[trigger] start.iterated(
                suspended,
            ).1[i])->0 < (#[trigger] start.iterated(suspended).1[j])->0,
    decreases suspended.len(),
{
    if suspended.len() > 0 {
        let prev = suspended.drop_last();
        lemma_run_ids_increase(start, prev);
        let ids = start.iterated(suspended).1;
        let before = start.iterated(prev).1;
        assert forall|i: int| 0 <= i < prev.len() implies ids[i] == before[i] && suspended[i] == prev[i] by {}
        assert(suspended.last() == suspended[suspended.len() - 1]);
    }
}

/// The decisions of the loop that runs a command again and again.
pub struct Executor {
    counter: u64,
    precise: bool,
    default_interval_millis: u64,
}

impl View for Executor {
    type V = ExecutorView;

    closed spec fn view(&self) -> ExecutorView {
        ExecutorView {
            counter: self.counter,
            precise: self.precise,
            default_interval_millis: self.default_interval_millis,
        }
    }
}

impl Executor {
    /// An executor that continues after the latest stored id, if any; with
    /// `precise`, the time a run takes counts against the interval.
    pub fn new(latest_id: Option<u64>, precise: bool, default_interval_millis: u64) -> (r: Self)
        requires
            latest_id matches Some(id) ==> id < u64::MAX,
        ensures
            r@.counter == (match latest_id {
                Some(id) => id + 1,
                None => 0,
            }),
            r@.precise == precise,
            r@.default_interval_millis == default_interval_millis,
    {
        let counter = match latest_id {
            Some(id) => id + 1,
            None => 0,
        };
        Executor { counter, precise, default_interval_millis }
    }

    /// The last id handed out (or the one before the first).
    pub fn counter(&self) -> (r: u64)
        ensures
            r == self@.counter,
    {
        self.counter
    }

    /// Starts an iteration: the counter moves on whether or not execution is
    /// suspended, and a run gets the new counter as its id, so every run's id
    /// is larger than all ids before it.
    pub fn begin_iteration(&mut self, suspended: bool) -> (r: IterationStart)
        requires
            old(self)@.counter < u64::MAX,
        ensures
            final(self)@ == (ExecutorView { counter: (old(self)@.counter + 1) as u64, ..old(self)@ }),
            suspended ==> (r matches IterationStart::Suspended { wait } && wait_nanos(wait)
                == SUSPENDED_POLL_MILLIS * 1_000_000),
            !suspended ==> r == (IterationStart::Run { id: final(self)@.counter }),
            (final(self)@, run_id(r)) == old(self)@.begun(suspended),
    {
        self.counter = self.counter + 1;
        if suspended {
            IterationStart::Suspended { wait: wait_from_nanos(SUSPENDED_POLL_MILLIS as u128 * 1_000_000) }
        } else {
            IterationStart::Run { id: self.counter }
        }
    }

    /// Compares the output of a run with the previous record's output, if
    /// there is one.
    pub fn finish_run(&self, previous_stdout: Option<&[u8]>, stdout: &[u8]) -> (r: RunOutcome)
        requires
            stdout@.len() <= u32::MAX,
            previous_stdout matches Some(p) ==> p@.len() <= u32::MAX,
        ensures
            r.diff is Some == previous_stdout is Some,
            r.diff matches Some(d) ==> run_diff(bytes_view(previous_stdout), stdout@) == Some(
                (d.0 as int, d.1 as int),
            ),
            r.diff_detected == (r.diff matches Some(d) && (d.0 != 0 || d.1 != 0)),
    {
        let diff = match previous_stdout {
            Some(previous) => {
                let old_text = decode_lossy(previous);
                let new_text = decode_lossy(stdout);
                Some(count_diff(old_text.as_str(), new_text.as_str()))
            },
            None => None,
        };
        let diff_detected = match diff {
            Some((added, deleted)) => added != 0 || deleted != 0,
            None => false,
        };
        RunOutcome { diff, diff_detected }
    }

    /// The wait before the next iteration, from the interval stored with the
    /// session (else the one the executor started with) and, on precise
    /// timing, the time the run took in nanoseconds.
    pub fn wait_after_run(&self, stored_interval_millis: Option<u64>, elapsed_nanos: Option<u128>) -> (r:
        Option<WaitTime>)
        ensures
            r is Some == next_wait(
                self@.precise,
                interval_millis(stored_interval_millis, self@.default_interval_millis),
                elapsed_nanos,
            ) is Some,
            r matches Some(w) ==> Some(wait_nanos(w)) == next_wait(
                self@.precise,
                interval_millis(stored_interval_millis, self@.default_interval_millis),
                elapsed_nanos,
            ),
    {
        let interval_millis = match stored_interval_millis {
            Some(ms) => ms,
            None => self.default_interval_millis,
        };
        let interval: u128 = interval_millis as u128 * 1_000_000;
        if !self.precise {
            Some(wait_from_nanos(interval))
        } else {
            match elapsed_nanos {
                Some(elapsed) => if elapsed < interval {
                    Some(wait_from_nanos(interval - elapsed))
                } else {
                    None
                },
                None => None,
            }
        }
    }
}

} // verus!
