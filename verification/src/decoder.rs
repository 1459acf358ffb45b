//! The stream decoder: turns transport chunks, whose boundaries are
//! arbitrary, into the ordered sequence of decoded text fragments.
//!
//! The decoder buffers the trailing incomplete line of each chunk (the
//! residual) and resolves the stream at line granularity: a line
//! starting with `data: ` carries either the terminal sentinel
//! `[DONE]` or a JSON event whose choices' `delta.content` strings are
//! emitted, each with a single trailing line feed trimmed. A line
//! without the prefix is skipped; a prefixed line whose payload is
//! malformed fails the stream.

use vstd::prelude::*;
use crate::json::event_deltas_of;
use crate::json::parse_event_deltas;

verus! {

/// Progress of the decoder: still reading, terminated by the sentinel,
/// or failed on a malformed event.
#[derive(Clone, Copy, Debug, PartialEq, Eq, Structural)]
pub enum StreamStatus {
    Open,
    Done,
    Failed,
}

/// Mathematical decoder state: the buffered residual bytes and the
/// progress reached so far.
pub ghost struct DecoderModel {
    pub residual: Seq<u8>,
    pub status: StreamStatus,
}

/// Mathematical result of feeding bytes: the state afterwards and the
/// fragments emitted, in order.
pub ghost struct StepResult {
    pub state: DecoderModel,
    pub out: Seq<Seq<u8>>,
}

/// The state of a decoder that has read nothing.
pub open spec fn initial_model() -> DecoderModel {
    DecoderModel { residual: Seq::empty(), status: StreamStatus::Open }
}

/// A reachable state: while open, the residual holds no complete line,
/// and a terminated stream buffers nothing.
pub open spec fn model_wf(st: DecoderModel) -> bool {
    &&& st.status == StreamStatus::Open ==> first_nl(st.residual) < 0
    &&& st.status != StreamStatus::Open ==> st.residual == Seq::<u8>::empty()
}

/// Index of the first line feed in `s`, or -1 when `s` holds none.
pub open spec fn first_nl(s: Seq<u8>) -> int
    decreases s.len(),
{
    if s.len() == 0 {
        -1
    } else if s[0] == 10u8 {
        0
    } else {
        let r = first_nl(s.drop_first());
        if r < 0 {
            -1
        } else {
            r + 1
        }
    }
}

/// The bytes of the event-line marker `data: `.
pub open spec fn data_prefix() -> Seq<u8> {
    seq![100u8, 97u8, 116u8, 97u8, 58u8, 32u8]
}

/// The bytes of the terminal sentinel `[DONE]`.
pub open spec fn sentinel_bytes() -> Seq<u8> {
    seq![91u8, 68u8, 79u8, 78u8, 69u8, 93u8]
}

/// Whether a line starts with the event-line marker `data: `.
pub open spec fn has_data_prefix(line: Seq<u8>) -> bool {
    line.len() >= 6 && line.take(6) == data_prefix()
}

/// Trims a single trailing line feed from an emitted content string,
/// and nothing else.
pub open spec fn trim_trailing_nl(c: Seq<u8>) -> Seq<u8> {
    if c.len() > 0 && c.last() == 10u8 {
        c.drop_last()
    } else {
        c
    }
}

/// The fragments one parsed event emits: the content of each choice
/// that carries one, in order, each with a trailing line feed trimmed.
pub open spec fn fragments_of(ds: Seq<Option<Seq<u8>>>) -> Seq<Seq<u8>>
    decreases ds.len(),
{
    if ds.len() == 0 {
        Seq::empty()
    } else {
        let rest = fragments_of(ds.drop_first());
        match ds[0] {
            Option::Some(c) => seq![trim_trailing_nl(c)] + rest,
            Option::None => rest,
        }
    }
}

/// Resolves buffered bytes line by line, from an open state: complete
/// lines are handled in order (skipped, terminal, emitting, or
/// failing), and the trailing incomplete line becomes the residual.
pub open spec fn step_bytes(data: Seq<u8>) -> StepResult
    decreases data.len(),
{
    let k = first_nl(data);
    if 0 <= k < data.len() {
        let line = data.take(k);
        let rest = data.skip(k + 1);
        if !has_data_prefix(line) {
            step_bytes(rest)
        } else if line.skip(6) == sentinel_bytes() {
            StepResult {
                state: DecoderModel { residual: Seq::empty(), status: StreamStatus::Done },
                out: Seq::empty(),
            }
        } else {
            match event_deltas_of(line.skip(6)) {
                Option::None => StepResult {
                    state: DecoderModel { residual: Seq::empty(), status: StreamStatus::Failed },
                    out: Seq::empty(),
                },
                Option::Some(ds) => {
                    let r = step_bytes(rest);
                    StepResult { state: r.state, out: fragments_of(ds) + r.out }
                },
            }
        }
    } else {
        StepResult {
            state: DecoderModel { residual: data, status: StreamStatus::Open },
            out: Seq::empty(),
        }
    }
}

/// Feeding one chunk: a terminated decoder ignores it; an open decoder
/// prepends its residual and resolves the merged bytes.
pub open spec fn step_chunk(st: DecoderModel, chunk: Seq<u8>) -> StepResult {
    if st.status == StreamStatus::Open {
        step_bytes(st.residual + chunk)
    } else {
        StepResult { state: st, out: Seq::empty() }
    }
}

/// Feeding a sequence of chunks in order, concatenating the fragments
/// each one emits.
pub open spec fn run_chunks(st: DecoderModel, chunks: Seq<Seq<u8>>) -> StepResult
    decreases chunks.len(),
{
    if chunks.len() == 0 {
        StepResult { state: st, out: Seq::empty() }
    } else {
        let r0 = step_chunk(st, chunks[0]);
        let r1 = run_chunks(r0.state, chunks.drop_first());
        StepResult { state: r1.state, out: r0.out + r1.out }
    }
}

/// `first_nl` finds a line feed exactly when one is present, and finds
/// the earliest one.
pub proof fn lemma_first_nl_bounds(s: Seq<u8>)
    ensures
        first_nl(s) < 0 ==> forall|k: int| 0 <= k < s.len() ==> s[k] != 10u8,
        first_nl(s) >= 0 ==> 0 <= first_nl(s) < s.len() && s[first_nl(s)] == 10u8,
        first_nl(s) >= 0 ==> forall|k: int| 0 <= k < first_nl(s) ==> s[k] != 10u8,
    decreases s.len(),
{
    if s.len() == 0 {
    } else if s[0] == 10u8 {
    } else {
        lemma_first_nl_bounds(s.drop_first());
        let r = first_nl(s.drop_first());
        if r < 0 {
            assert forall|k: int| 0 <= k < s.len() implies s[k] != 10u8 by {
                if k > 0 {
                    assert(s.drop_first()[k - 1] == s[k]);
                }
            }
        } else {
            assert(s[r + 1] == s.drop_first()[r]);
            assert forall|k: int| 0 <= k < r + 1 implies s[k] != 10u8 by {
                if k > 0 {
                    assert(s.drop_first()[k - 1] == s[k]);
                }
            }
        }
    }
}

/// The first line feed is at `i` exactly when no earlier byte is one
/// and the byte at `i` is (or `i` is the length, for none at all).
pub proof fn lemma_first_nl_of(s: Seq<u8>, i: int)
    requires
        0 <= i <= s.len(),
        forall|k: int| 0 <= k < i ==> s[k] != 10u8,
        i == s.len() || s[i] == 10u8,
    ensures
        first_nl(s) == if i == s.len() {
            -1
        } else {
            i
        },
    decreases s.len(),
{
    if s.len() == 0 {
    } else if s[0] == 10u8 {
        assert(i == 0);
    } else {
        assert(i >= 1);
        assert forall|k: int| 0 <= k < i - 1 implies s.drop_first()[k] != 10u8 by {
            assert(s.drop_first()[k] == s[k + 1]);
        }
        if i < s.len() {
            assert(s.drop_first()[i - 1] == s[i]);
        }
        lemma_first_nl_of(s.drop_first(), i - 1);
    }
}

/// Appending bytes does not move an existing first line feed, and a
/// new one is found in the appended part.
pub proof fn lemma_first_nl_append(a: Seq<u8>, b: Seq<u8>)
    ensures
        first_nl(a) >= 0 ==> first_nl(a + b) == first_nl(a),
        first_nl(a) < 0 && first_nl(b) >= 0 ==> first_nl(a + b) == a.len() + first_nl(b),
        first_nl(a) < 0 && first_nl(b) < 0 ==> first_nl(a + b) < 0,
{
    lemma_first_nl_bounds(a);
    lemma_first_nl_bounds(b);
    let s = a + b;
    if first_nl(a) >= 0 {
        let k = first_nl(a);
        assert forall|j: int| 0 <= j < k implies s[j] != 10u8 by {
            assert(s[j] == a[j]);
        }
        assert(s[k] == a[k]);
        lemma_first_nl_of(s, k);
    } else if first_nl(b) >= 0 {
        let m = first_nl(b);
        assert forall|j: int| 0 <= j < a.len() + m implies s[j] != 10u8 by {
            if j < a.len() {
                assert(s[j] == a[j]);
            } else {
                assert(s[j] == b[j - a.len()]);
            }
        }
        assert(s[a.len() + m] == b[m]);
        lemma_first_nl_of(s, a.len() + m);
    } else {
        assert forall|j: int| 0 <= j < s.len() implies s[j] != 10u8 by {
            if j < a.len() {
                assert(s[j] == a[j]);
            } else {
                assert(s[j] == b[j - a.len()]);
            }
        }
        lemma_first_nl_of(s, s.len() as int);
    }
}

/// Every state `step_bytes` reaches is well formed.
pub proof fn lemma_step_bytes_wf(data: Seq<u8>)
    ensures
        model_wf(step_bytes(data).state),
    decreases data.len(),
{
    lemma_first_nl_bounds(data);
    let k = first_nl(data);
    if 0 <= k < data.len() {
        let line = data.take(k);
        let rest = data.skip(k + 1);
        if !has_data_prefix(line) {
            lemma_step_bytes_wf(rest);
        } else if line.skip(6) == sentinel_bytes() {
        } else {
            match event_deltas_of(line.skip(6)) {
                Option::None => {},
                Option::Some(ds) => {
                    lemma_step_bytes_wf(rest);
                },
            }
        }
    }
}

/// Resolving `data` and then `more` equals resolving `data + more`:
/// the single-step heart of chunk-boundary invariance.
pub proof fn lemma_step_bytes_append(data: Seq<u8>, more: Seq<u8>)
    ensures
        ({
            let r1 = step_bytes(data);
            let whole = step_bytes(data + more);
            &&& (r1.state.status == StreamStatus::Open ==> {
                let r2 = step_bytes(r1.state.residual + more);
                whole.state == r2.state && whole.out == r1.out + r2.out
            })
            &&& (r1.state.status != StreamStatus::Open ==> whole.state == r1.state && whole.out
                == r1.out)
        }),
    decreases data.len(),
{
    lemma_first_nl_bounds(data);
    lemma_first_nl_append(data, more);
    let k = first_nl(data);
    let r1 = step_bytes(data);
    let whole = step_bytes(data + more);
    if !(0 <= k < data.len()) {
        assert(r1.state.residual == data);
        assert(r1.out + step_bytes(data + more).out =~= step_bytes(data + more).out);
    } else {
        let line = data.take(k);
        let rest = data.skip(k + 1);
        let wd = data + more;
        assert(first_nl(wd) == k);
        assert(wd.take(k) =~= line);
        assert(wd.skip(k + 1) =~= rest + more);
        if !has_data_prefix(line) {
            lemma_step_bytes_append(rest, more);
        } else if line.skip(6) == sentinel_bytes() {
        } else {
            match event_deltas_of(line.skip(6)) {
                Option::None => {},
                Option::Some(ds) => {
                    lemma_step_bytes_append(rest, more);
                    let sr = step_bytes(rest);
                    let sw = step_bytes(rest + more);
                    if sr.state.status == StreamStatus::Open {
                        let r2 = step_bytes(sr.state.residual + more);
                        assert((fragments_of(ds) + sr.out) + r2.out =~= fragments_of(ds) + (sr.out
                            + r2.out));
                    }
                },
            }
        }
    }
}

/// Feeding `a + b` as one chunk equals feeding `a` and then `b`.
pub proof fn lemma_step_chunk_split(st: DecoderModel, a: Seq<u8>, b: Seq<u8>)
    ensures
        ({
            let whole = step_chunk(st, a + b);
            let r1 = step_chunk(st, a);
            let r2 = step_chunk(r1.state, b);
            whole.state == r2.state && whole.out == r1.out + r2.out
        }),
{
    if st.status == StreamStatus::Open {
        assert((st.residual + a) + b =~= st.residual + (a + b));
        lemma_step_bytes_append(st.residual + a, b);
        let r1 = step_chunk(st, a);
        if r1.state.status != StreamStatus::Open {
            assert(r1.out + step_chunk(r1.state, b).out =~= r1.out);
        }
    } else {
        assert(step_chunk(st, a + b).out =~= step_chunk(st, a).out + step_chunk(st, b).out);
    }
}

/// Feeding any chunk sequence equals feeding its concatenation, from
/// any well-formed state.
pub proof fn lemma_run_chunks_flatten(st: DecoderModel, chunks: Seq<Seq<u8>>)
    requires
        model_wf(st),
    ensures
        run_chunks(st, chunks).state == step_chunk(st, chunks.flatten()).state,
        run_chunks(st, chunks).out == step_chunk(st, chunks.flatten()).out,
    decreases chunks.len(),
{
    if chunks.len() == 0 {
        if st.status == StreamStatus::Open {
            assert(st.residual + chunks.flatten() =~= st.residual);
            lemma_first_nl_bounds(st.residual);
        }
    } else {
        let r0 = step_chunk(st, chunks[0]);
        lemma_step_chunk_split(st, chunks[0], chunks.drop_first().flatten());
        if st.status == StreamStatus::Open {
            lemma_step_bytes_wf(st.residual + chunks[0]);
        }
        lemma_run_chunks_flatten(r0.state, chunks.drop_first());
        assert(chunks.flatten() == chunks[0] + chunks.drop_first().flatten());
    }
}

/// Chunk-boundary invariance: however a stream is split into chunks
/// (mid-line, mid-prefix, or mid-payload), the decoder emits exactly
/// the fragments, and reaches exactly the state, of the unsplit stream.
pub proof fn lemma_chunk_boundary_invariance(chunks: Seq<Seq<u8>>)
    ensures
        run_chunks(initial_model(), chunks).out == step_chunk(
            initial_model(),
            chunks.flatten(),
        ).out,
        run_chunks(initial_model(), chunks).state == step_chunk(
            initial_model(),
            chunks.flatten(),
        ).state,
{
    lemma_run_chunks_flatten(initial_model(), chunks);
}

/// A stream whose first complete line is the sentinel event line
/// terminates at once: no fragment is emitted, no error is raised, and
/// everything after the sentinel line is discarded.
pub proof fn lemma_sentinel_first_line(data: Seq<u8>)
    requires
        ({
            let k = first_nl(data);
            0 <= k < data.len() && data.take(k) == data_prefix() + sentinel_bytes()
        }),
    ensures
        step_bytes(data).state.status == StreamStatus::Done,
        step_bytes(data).state.residual == Seq::<u8>::empty(),
        step_bytes(data).out == Seq::<Seq<u8>>::empty(),
{
    let k = first_nl(data);
    let line = data.take(k);
    assert(line.take(6) =~= data_prefix());
    assert(line.skip(6) =~= sentinel_bytes());
}

/// After the sentinel, nothing more is ever emitted, whatever chunks
/// still arrive, and the state never changes.
pub proof fn lemma_done_is_final(st: DecoderModel, chunks: Seq<Seq<u8>>)
    requires
        st.status == StreamStatus::Done,
    ensures
        run_chunks(st, chunks).state == st,
        run_chunks(st, chunks).out == Seq::<Seq<u8>>::empty(),
    decreases chunks.len(),
{
    if chunks.len() == 0 {
    } else {
        lemma_done_is_final(st, chunks.drop_first());
        assert(run_chunks(st, chunks).out =~= Seq::<Seq<u8>>::empty());
    }
}

/// A line without the `data: ` prefix emits nothing and leaves no
/// trace: resolving continues exactly as if the line were absent.
pub proof fn lemma_non_prefixed_line_skipped(data: Seq<u8>)
    requires
        ({
            let k = first_nl(data);
            0 <= k < data.len() && !has_data_prefix(data.take(k))
        }),
    ensures
        step_bytes(data) == step_bytes(data.skip(first_nl(data) + 1)),
{
}

/// A prefixed line whose payload is neither the sentinel nor a
/// well-formed event fails the stream: no fragment is emitted from it
/// and everything after it is discarded.
pub proof fn lemma_malformed_event_fails(data: Seq<u8>)
    requires
        ({
            let k = first_nl(data);
            &&& 0 <= k < data.len()
            &&& has_data_prefix(data.take(k))
            &&& data.take(k).skip(6) != sentinel_bytes()
            &&& event_deltas_of(data.take(k).skip(6)) is None
        }),
    ensures
        step_bytes(data).state.status == StreamStatus::Failed,
        step_bytes(data).state.residual == Seq::<u8>::empty(),
        step_bytes(data).out == Seq::<Seq<u8>>::empty(),
{
}

/// `fragments_of` distributes over concatenation.
pub proof fn lemma_fragments_of_append(a: Seq<Option<Seq<u8>>>, b: Seq<Option<Seq<u8>>>)
    ensures
        fragments_of(a + b) == fragments_of(a) + fragments_of(b),
    decreases a.len(),
{
    if a.len() == 0 {
        assert(a + b =~= b);
        assert(fragments_of(a) + fragments_of(b) =~= fragments_of(b));
    } else {
        assert((a + b).drop_first() =~= a.drop_first() + b);
        assert((a + b)[0] == a[0]);
        lemma_fragments_of_append(a.drop_first(), b);
        match a[0] {
            Option::Some(c) => {
                assert(seq![trim_trailing_nl(c)] + (fragments_of(a.drop_first()) + fragments_of(b))
                    =~= (seq![trim_trailing_nl(c)] + fragments_of(a.drop_first())) + fragments_of(
                    b,
                ));
            },
            Option::None => {},
        }
    }
}

/// Extending the handled prefix of an event's choices by one choice
/// appends that choice's fragment, if it carries one.
pub proof fn lemma_fragments_of_take_step(ds: Seq<Option<Seq<u8>>>, q: int)
    requires
        0 <= q < ds.len(),
    ensures
        fragments_of(ds.take(q + 1)) == fragments_of(ds.take(q)) + (match ds[q] {
            Option::Some(c) => seq![trim_trailing_nl(c)],
            Option::None => Seq::<Seq<u8>>::empty(),
        }),
{
    assert(ds.take(q + 1) =~= ds.take(q) + seq![ds[q]]);
    lemma_fragments_of_append(ds.take(q), seq![ds[q]]);
    assert(seq![ds[q]].drop_first() =~= Seq::<Option<Seq<u8>>>::empty());
    assert(fragments_of(Seq::<Option<Seq<u8>>>::empty()) == Seq::<Seq<u8>>::empty());
    assert(seq![ds[q]][0] == ds[q]);
    match ds[q] {
        Option::Some(c) => {
            assert(fragments_of(seq![ds[q]]) =~= seq![trim_trailing_nl(c)]);
        },
        Option::None => {
            assert(fragments_of(seq![ds[q]]) =~= Seq::<Seq<u8>>::empty());
        },
    }
}

/// The streamed-protocol decoder: buffers the trailing incomplete line
/// across chunk boundaries and emits decoded fragments per chunk.
pub struct Decoder {
    residual: Vec<u8>,
    status: StreamStatus,
}

impl View for Decoder {
    type V = DecoderModel;

    closed spec fn view(&self) -> DecoderModel {
        DecoderModel { residual: self.residual@, status: self.status }
    }
}

impl Decoder {
    /// A fresh decoder: nothing buffered, stream open.
    pub fn new() -> (d: Decoder)
        ensures
            d@ == initial_model(),
    {
        Decoder { residual: Vec::new(), status: StreamStatus::Open }
    }

    /// The progress reached so far.
    pub fn status(&self) -> (s: StreamStatus)
        ensures
            s == self@.status,
    {
        self.status
    }

    /// Feeds one transport chunk and returns the fragments it
    /// resolves, in order, exactly as `step_chunk` prescribes: complete
    /// lines are handled now, the trailing incomplete line is buffered,
    /// the sentinel closes the stream, and a malformed event fails it.
    pub fn push_chunk(&mut self, chunk: &[u8]) -> (frags: Vec<Vec<u8>>)
        ensures
            final(self)@ == step_chunk(old(self)@, chunk@).state,
            frags.deep_view() == step_chunk(old(self)@, chunk@).out,
    {
        if !(self.status == StreamStatus::Open) {
            let r: Vec<Vec<u8>> = Vec::new();
            proof {
                assert(r.deep_view() =~= step_chunk(old(self)@, chunk@).out);
            }
            return r;
        }
        let mut data: Vec<u8> = Vec::new();
        let mut i: usize = 0;
        while i < self.residual.len()
            invariant
                i <= self.residual@.len(),
                self.residual@ == old(self)@.residual,
                data@ == old(self)@.residual.take(i as int),
            decreases self.residual@.len() - i,
        {
            data.push(self.residual[i]);
            proof {
                assert(old(self)@.residual.take(i + 1) =~= old(self)@.residual.take(
                    i as int,
                ).push(old(self)@.residual[i as int]));
            }
            i = i + 1;
        }
        proof {
            assert(old(self)@.residual.take(old(self)@.residual.len() as int) =~= old(
                self,
            )@.residual);
        }
        let mut j: usize = 0;
        while j < chunk.len()
            invariant
                j <= chunk@.len(),
                data@ == old(self)@.residual + chunk@.take(j as int),
            decreases chunk@.len() - j,
        {
            data.push(chunk[j]);
            proof {
                assert(old(self)@.residual + chunk@.take(j + 1) =~= (old(self)@.residual
                    + chunk@.take(j as int)).push(chunk@[j as int]));
            }
            j = j + 1;
        }
        let ghost full = old(self)@.residual + chunk@;
        proof {
            assert(chunk@.take(chunk@.len() as int) =~= chunk@);
            assert(data@ == full);
        }
        self.residual = Vec::new();
        let mut frags: Vec<Vec<u8>> = Vec::new();
        let mut start: usize = 0;
        let mut scan: usize = 0;
        proof {
            assert(frags.deep_view() =~= Seq::<Seq<u8>>::empty());
            assert(full.skip(0) =~= full);
            assert(Seq::<Seq<u8>>::empty() + step_bytes(full).out =~= step_bytes(full).out);
        }
        while scan < data.len()
            invariant
                start <= scan <= data@.len(),
                data@ == full,
                full == old(self)@.residual + chunk@,
                forall|t: int| start <= t < scan ==> full[t] != 10u8,
                self.status == StreamStatus::Open,
                self.residual@ == Seq::<u8>::empty(),
                old(self)@.status == StreamStatus::Open,
                step_bytes(full).state == step_bytes(full.skip(start as int)).state,
                step_bytes(full).out == frags.deep_view() + step_bytes(
                    full.skip(start as int),
                ).out,
            decreases data@.len() - scan,
        {
            if data[scan] == 10u8 {
                let ghost suffix = full.skip(start as int);
                let ghost k = scan - start;
                proof {
                    assert forall|u: int| 0 <= u < k implies suffix[u] != 10u8 by {
                        assert(suffix[u] == full[start + u]);
                    }
                    assert(suffix[k] == full[scan as int]);
                    lemma_first_nl_of(suffix, k);
                    assert(suffix.take(k) =~= full.subrange(start as int, scan as int));
                    assert(suffix.skip(k + 1) =~= full.skip(scan + 1));
                }
                let ghost line = suffix.take(k);
                let linelen: usize = scan - start;
                let prefixed: bool = linelen >= 6 && data[start] == 100u8 && data[start + 1]
                    == 97u8 && data[start + 2] == 116u8 && data[start + 3] == 97u8 && data[start
                    + 4] == 58u8 && data[start + 5] == 32u8;
                if !prefixed {
                    proof {
                        assert(data_prefix()[0] == 100u8);
                        assert(data_prefix()[1] == 97u8);
                        assert(data_prefix()[2] == 116u8);
                        assert(data_prefix()[3] == 97u8);
                        assert(data_prefix()[4] == 58u8);
                        assert(data_prefix()[5] == 32u8);
                        if has_data_prefix(line) {
                            assert(line.take(6)[0] == full[start as int]);
                            assert(line.take(6)[1] == full[start + 1]);
                            assert(line.take(6)[2] == full[start + 2]);
                            assert(line.take(6)[3] == full[start + 3]);
                            assert(line.take(6)[4] == full[start + 4]);
                            assert(line.take(6)[5] == full[start + 5]);
                            assert(false);
                        }
                    }
                    start = scan + 1;
                    scan = scan + 1;
                } else {
                    proof {
                        assert(line.take(6) =~= data_prefix());
                    }
                    let is_sentinel: bool = linelen == 12 && data[start + 6] == 91u8 && data[start
                        + 7] == 68u8 && data[start + 8] == 79u8 && data[start + 9] == 78u8
                        && data[start + 10] == 69u8 && data[start + 11] == 93u8;
                    if is_sentinel {
                        proof {
                            assert(line.skip(6) =~= sentinel_bytes());
                            assert(line.len() == k >= 6);
                            assert(has_data_prefix(line));
                            assert(first_nl(suffix) == k);
                            assert(step_bytes(suffix).state == DecoderModel {
                                residual: Seq::<u8>::empty(),
                                status: StreamStatus::Done,
                            });
                            assert(step_bytes(suffix).out == Seq::<Seq<u8>>::empty());
                            assert(frags.deep_view() + Seq::<Seq<u8>>::empty()
                                =~= frags.deep_view());
                        }
                        self.status = StreamStatus::Done;
                        proof {
                            assert(self@ == step_bytes(full).state);
                        }
                        return frags;
                    }
                    proof {
                        assert(sentinel_bytes()[0] == 91u8);
                        assert(sentinel_bytes()[1] == 68u8);
                        assert(sentinel_bytes()[2] == 79u8);
                        assert(sentinel_bytes()[3] == 78u8);
                        assert(sentinel_bytes()[4] == 69u8);
                        assert(sentinel_bytes()[5] == 93u8);
                        if line.skip(6) == sentinel_bytes() {
                            assert(line.skip(6).len() == 6);
                            assert(line.skip(6)[0] == full[start + 6]);
                            assert(line.skip(6)[1] == full[start + 7]);
                            assert(line.skip(6)[2] == full[start + 8]);
                            assert(line.skip(6)[3] == full[start + 9]);
                            assert(line.skip(6)[4] == full[start + 10]);
                            assert(line.skip(6)[5] == full[start + 11]);
                            assert(false);
                        }
                    }
                    let mut payload: Vec<u8> = Vec::new();
                    let mut t: usize = start + 6;
                    while t < scan
                        invariant
                            start + 6 <= t <= scan <= data@.len(),
                            data@ == full,
                            payload@ == full.subrange(start + 6, t as int),
                        decreases scan - t,
                    {
                        payload.push(data[t]);
                        proof {
                            assert(full.subrange(start + 6, t + 1) =~= full.subrange(
                                start + 6,
                                t as int,
                            ).push(full[t as int]));
                        }
                        t = t + 1;
                    }
                    proof {
                        assert(payload@ =~= line.skip(6));
                    }
                    match parse_event_deltas(payload.as_slice()) {
                        Option::None => {
                            proof {
                                assert(event_deltas_of(line.skip(6)) is None);
                                assert(line.len() == k >= 6);
                                assert(has_data_prefix(line));
                                assert(first_nl(suffix) == k);
                                assert(step_bytes(suffix).state == DecoderModel {
                                    residual: Seq::<u8>::empty(),
                                    status: StreamStatus::Failed,
                                });
                                assert(step_bytes(suffix).out == Seq::<Seq<u8>>::empty());
                                assert(frags.deep_view() + Seq::<Seq<u8>>::empty()
                                    =~= frags.deep_view());
                            }
                            self.status = StreamStatus::Failed;
                            proof {
                                assert(self@ == step_bytes(full).state);
                            }
                            return frags;
                        },
                        Option::Some(ds) => {
                            proof {
                                assert(event_deltas_of(line.skip(6)) == Some(ds.deep_view()));
                            }
                            let ghost pre_dv = frags.deep_view();
                            let ghost dsdv = ds.deep_view();
                            proof {
                                assert(dsdv.take(0) =~= Seq::<Option<Seq<u8>>>::empty());
                                assert(pre_dv + fragments_of(dsdv.take(0)) =~= pre_dv);
                            }
                            let mut q: usize = 0;
                            while q < ds.len()
                                invariant
                                    q <= ds@.len(),
                                    dsdv == ds.deep_view(),
                                    frags.deep_view() == pre_dv + fragments_of(
                                        dsdv.take(q as int),
                                    ),
                                decreases ds@.len() - q,
                            {
                                let ghost frags_dv = frags.deep_view();
                                match &ds[q] {
                                    Option::None => {
                                        proof {
                                            lemma_fragments_of_take_step(dsdv, q as int);
                                            assert(dsdv[q as int] is None);
                                            assert(pre_dv + fragments_of(dsdv.take(q + 1))
                                                =~= frags_dv);
                                        }
                                    },
                                    Option::Some(c) => {
                                        let mut f: Vec<u8> = Vec::new();
                                        let mut u: usize = 0;
                                        while u < c.len()
                                            invariant
                                                u <= c@.len(),
                                                f@ == c@.take(u as int),
                                            decreases c@.len() - u,
                                        {
                                            f.push(c[u]);
                                            proof {
                                                assert(c@.take(u + 1) =~= c@.take(u as int).push(
                                                    c@[u as int],
                                                ));
                                            }
                                            u = u + 1;
                                        }
                                        proof {
                                            assert(c@.take(c@.len() as int) =~= c@);
                                        }
                                        if f.len() > 0 && f[f.len() - 1] == 10u8 {
                                            f.pop();
                                            proof {
                                                assert(f@ =~= trim_trailing_nl(c@));
                                            }
                                        }
                                        proof {
                                            assert(f@ == trim_trailing_nl(c@));
                                        }
                                        frags.push(f);
                                        proof {
                                            assert(f.deep_view() =~= f@);
                                            assert(frags.deep_view() =~= frags_dv.push(f@));
                                            lemma_fragments_of_take_step(dsdv, q as int);
                                            assert(dsdv[q as int] == Some(c@));
                                            assert(pre_dv + fragments_of(dsdv.take(q + 1)) =~= (
                                            pre_dv + fragments_of(dsdv.take(q as int))).push(
                                                trim_trailing_nl(c@),
                                            ));
                                        }
                                    },
                                }
                                q = q + 1;
                            }
                            proof {
                                assert(dsdv.take(dsdv.len() as int) =~= dsdv);
                                assert(frags.deep_view() == pre_dv + fragments_of(dsdv));
                                assert(pre_dv + (fragments_of(dsdv) + step_bytes(
                                    full.skip(scan + 1),
                                ).out) =~= (pre_dv + fragments_of(dsdv)) + step_bytes(
                                    full.skip(scan + 1),
                                ).out);
                            }
                            start = scan + 1;
                            scan = scan + 1;
                        },
                    }
                }
            } else {
                scan = scan + 1;
            }
        }
        let ghost suffix = full.skip(start as int);
        proof {
            assert forall|u: int| 0 <= u < suffix.len() implies suffix[u] != 10u8 by {
                assert(suffix[u] == full[start + u]);
            }
            lemma_first_nl_of(suffix, suffix.len() as int);
            assert(frags.deep_view() + Seq::<Seq<u8>>::empty() =~= frags.deep_view());
        }
        let mut res: Vec<u8> = Vec::new();
        let mut w: usize = start;
        while w < data.len()
            invariant
                start <= w <= data@.len(),
                data@ == full,
                res@ == full.subrange(start as int, w as int),
            decreases data@.len() - w,
        {
            res.push(data[w]);
            proof {
                assert(full.subrange(start as int, w + 1) =~= full.subrange(
                    start as int,
                    w as int,
                ).push(full[w as int]));
            }
            w = w + 1;
        }
        proof {
            assert(res@ =~= suffix);
        }
        self.residual = res;
        frags
    }

    /// Resolves the buffered trailing line at end of stream, as if a
    /// closing line feed arrived, and returns what it emits.
    pub fn finish(&mut self) -> (frags: Vec<Vec<u8>>)
        ensures
            final(self)@ == step_chunk(old(self)@, seq![10u8]).state,
            frags.deep_view() == step_chunk(old(self)@, seq![10u8]).out,
    {
        let mut nl: Vec<u8> = Vec::new();
        nl.push(10u8);
        proof {
            assert(nl@ =~= seq![10u8]);
        }
        self.push_chunk(nl.as_slice())
    }
}

} // verus!
