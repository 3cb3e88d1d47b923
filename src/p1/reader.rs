//! The frame assembler: a resumable state machine that is handed whatever
//! bytes the byte source has ready and tells how many of them it used.
use vstd::prelude::*;

verus! {

/// The byte that opens a telegram (`/`).
pub const START_MARKER: u8 = 47;

/// The byte that ends a telegram's body (`!`).
pub const TERMINATOR: u8 = 33;

/// How many checksum digits follow the terminator.
pub const CHECKSUM_DIGITS: usize = 4;

/// One assembled stretch of the stream.
#[derive(Debug, PartialEq, Eq)]
pub enum ReadDatagram {
    /// A telegram from its start marker through its four checksum digits.
    Datagram(Vec<u8>),
    /// A telegram cut short by the end of input or by the next start marker.
    IncompleteDatagram(Vec<u8>),
}

/// The mathematical value of a [`ReadDatagram`].
pub enum Outcome {
    Datagram(Seq<u8>),
    Incomplete(Seq<u8>),
}

impl View for ReadDatagram {
    type V = Outcome;

    open spec fn view(&self) -> Outcome {
        match self {
            ReadDatagram::Datagram(d) => Outcome::Datagram(d@),
            ReadDatagram::IncompleteDatagram(d) => Outcome::Incomplete(d@),
        }
    }
}

/// Where the assembler stands within the current telegram.
#[derive(Debug, Clone, Copy, PartialEq, Eq, Structural)]
pub enum Phase {
    /// Dropping bytes until a start marker shows up.
    Sync,
    /// Copying the body, up to the terminator.
    Body,
    /// Copying the checksum digits; the field holds how many are still wanted.
    Trailer(usize),
}

/// The mathematical state of a [`DatagramReader`]: its phase and the bytes
/// gathered so far for the telegram in progress.
pub struct ReaderState {
    pub phase: Phase,
    pub buf: Seq<u8>,
}

/// The state of a new assembler, and of one that has just decided an outcome.
pub open spec fn initial_state() -> ReaderState {
    ReaderState { phase: Phase::Sync, buf: Seq::empty() }
}

/// The states that an assembler can be in.
pub open spec fn well_formed(st: ReaderState) -> bool {
    match st.phase {
        Phase::Sync => st.buf.len() == 0,
        Phase::Body => true,
        Phase::Trailer(k) => 1 <= k <= CHECKSUM_DIGITS,
    }
}

/// The effect of one byte: the next state, whether the byte was used, and the
/// outcome decided by it. A start marker that cuts a telegram short is left
/// unused, so that it opens the next telegram.
pub open spec fn feed(st: ReaderState, b: u8) -> (ReaderState, bool, Option<Outcome>) {
    match st.phase {
        Phase::Sync => {
            if b == START_MARKER {
                (ReaderState { phase: Phase::Body, buf: seq![b] }, true, None)
            } else {
                (st, true, None)
            }
        },
        Phase::Body => {
            if b == START_MARKER {
                (initial_state(), false, Some(Outcome::Incomplete(st.buf)))
            } else if b == TERMINATOR {
                (ReaderState { phase: Phase::Trailer(CHECKSUM_DIGITS), buf: st.buf.push(b) }, true, None)
            } else {
                (ReaderState { phase: Phase::Body, buf: st.buf.push(b) }, true, None)
            }
        },
        Phase::Trailer(k) => {
            if b == START_MARKER {
                (initial_state(), false, Some(Outcome::Incomplete(st.buf)))
            } else if k <= 1 {
                (initial_state(), true, Some(Outcome::Datagram(st.buf.push(b))))
            } else {
                (ReaderState { phase: Phase::Trailer((k - 1) as usize), buf: st.buf.push(b) }, true, None)
            }
        },
    }
}

/// The outcome owed when the input ends in the given state.
pub open spec fn finish(st: ReaderState) -> Option<Outcome> {
    match st.phase {
        Phase::Sync => None,
        _ => Some(Outcome::Incomplete(st.buf)),
    }
}

/// An optional outcome as a sequence of none or one.
pub open spec fn emitted(o: Option<Outcome>) -> Seq<Outcome> {
    match o {
        Some(x) => seq![x],
        None => Seq::empty(),
    }
}

/// How far a phase is from having nothing in progress.
pub open spec fn rank(p: Phase) -> nat {
    match p {
        Phase::Sync => 0,
        _ => 1,
    }
}

/// Every outcome of the stream `s`, read to its end from state `st`.
pub open spec fn outcomes_from(st: ReaderState, s: Seq<u8>) -> Seq<Outcome>
    decreases s.len(), rank(st.phase),
{
    if s.len() == 0 {
        emitted(finish(st))
    } else {
        let (next, used, out) = feed(st, s[0]);
        emitted(out) + outcomes_from(next, if used { s.drop_first() } else { s })
    }
}

/// Every outcome of a whole byte stream.
pub open spec fn telegram_outcomes(s: Seq<u8>) -> Seq<Outcome> {
    outcomes_from(initial_state(), s)
}

/// Reads `c` from index `i` on until an outcome is decided or `c` runs out:
/// the state reached, the index up to which bytes were used, and the outcome.
pub open spec fn scan(st: ReaderState, c: Seq<u8>, i: int) -> (ReaderState, nat, Option<Outcome>)
    decreases c.len() - i,
{
    if i < 0 || i >= c.len() {
        (st, c.len(), None)
    } else {
        let (next, used, out) = feed(st, c[i]);
        if out is Some {
            (next, if used { (i + 1) as nat } else { i as nat }, out)
        } else {
            scan(next, c, i + 1)
        }
    }
}

/// One call of the assembler on the bytes `c` that the source has ready; an
/// empty `c` means that the input has ended.
pub open spec fn step_spec(st: ReaderState, c: Seq<u8>) -> (ReaderState, nat, Option<Outcome>) {
    if c.len() == 0 {
        (initial_state(), 0, finish(st))
    } else {
        scan(st, c, 0)
    }
}

/// The value of an optional [`ReadDatagram`].
pub open spec fn outcome_of(o: Option<ReadDatagram>) -> Option<Outcome> {
    match o {
        Some(d) => Some(d@),
        None => None,
    }
}

/// A well-formed telegram: a start marker, a body free of start markers and
/// terminators, the terminator, and four checksum bytes that are no start
/// marker.
pub open spec fn is_frame(f: Seq<u8>) -> bool {
    let n = f.len();
    &&& n >= 6
    &&& f[0] == START_MARKER
    &&& f[n - 5] == TERMINATOR
    &&& forall|i: int| 1 <= i < n - 5 ==> f[i] != START_MARKER && f[i] != TERMINATOR
    &&& forall|i: int| n - 4 <= i < n ==> f[i] != START_MARKER
}

/// The outcomes that a caller pulls out of the assembler when the source
/// hands out the stream in the given chunks: each call sees what is left of
/// the current chunk, and the unused part is offered again.
pub open spec fn drive(st: ReaderState, chunks: Seq<Seq<u8>>) -> Seq<Outcome>
    decreases chunks.flatten().len(), rank(st.phase), chunks.len(),
    via drive_decreases
{
    if chunks.len() == 0 {
        emitted(step_spec(st, Seq::empty()).2)
    } else if chunks[0].len() == 0 {
        drive(st, chunks.drop_first())
    } else {
        let (next, used, out) = step_spec(st, chunks[0]);
        emitted(out) + drive(next, chunks.drop_first().insert(0, chunks[0].skip(used as int)))
    }
}

proof fn lemma_flatten_cons(x: Seq<u8>, rest: Seq<Seq<u8>>)
    ensures
        rest.insert(0, x).flatten() == x + rest.flatten(),
{
    let s = rest.insert(0, x);
    assert(s.drop_first() =~= rest);
}

proof fn lemma_flatten_split(chunks: Seq<Seq<u8>>)
    requires
        chunks.len() > 0,
    ensures
        chunks.flatten() == chunks[0] + chunks.drop_first().flatten(),
{
}

proof fn lemma_scan_progress(st: ReaderState, c: Seq<u8>, i: int)
    requires
        0 <= i <= c.len(),
    ensures
        i <= scan(st, c, i).1 <= c.len(),
        scan(st, c, i).1 == i && i < c.len() ==> rank(scan(st, c, i).0.phase) < rank(st.phase),
    decreases c.len() - i,
{
    if i < c.len() {
        let (next, used, out) = feed(st, c[i]);
        if out is None {
            lemma_scan_progress(next, c, i + 1);
        }
    }
}

#[via_fn]
proof fn drive_decreases(st: ReaderState, chunks: Seq<Seq<u8>>) {
    if chunks.len() > 0 {
        lemma_flatten_split(chunks);
        if chunks[0].len() > 0 {
            let c = chunks[0];
            lemma_scan_progress(st, c, 0);
            lemma_flatten_cons(c.skip(step_spec(st, c).1 as int), chunks.drop_first());
        }
    }
}

/// Reading a chunk from index `i` on and then going on with the unused rest
/// yields the outcomes of the whole stream.
proof fn lemma_scan_resumes(st: ReaderState, c: Seq<u8>, i: int, f: Seq<u8>)
    requires
        0 <= i <= c.len(),
    ensures
        ({
            let (next, used, out) = scan(st, c, i);
            outcomes_from(st, c.skip(i) + f) == emitted(out) + outcomes_from(
                next,
                c.skip(used as int) + f,
            )
        }),
    decreases c.len() - i,
{
    let s = c.skip(i) + f;
    if i == c.len() {
        assert(emitted(None) + outcomes_from(st, s) =~= outcomes_from(st, s));
    } else {
        assert(s[0] == c[i]);
        assert(s.drop_first() =~= c.skip(i + 1) + f);
        let (next, used, out) = feed(st, c[i]);
        if out is None {
            lemma_scan_resumes(next, c, i + 1, f);
            assert(emitted(None) + outcomes_from(next, s.drop_first()) =~= outcomes_from(next, s.drop_first()));
        }
    }
}

/// However the source splits a stream into chunks, the outcomes are those of
/// the whole stream.
pub proof fn lemma_chunking_invariance(st: ReaderState, chunks: Seq<Seq<u8>>)
    ensures
        drive(st, chunks) == outcomes_from(st, chunks.flatten()),
    decreases chunks.flatten().len(), rank(st.phase), chunks.len(),
{
    if chunks.len() > 0 {
        lemma_flatten_split(chunks);
        let c = chunks[0];
        let rest = chunks.drop_first();
        if c.len() == 0 {
            assert(c + rest.flatten() =~= rest.flatten());
            lemma_chunking_invariance(st, rest);
        } else {
            let (next, used, out) = step_spec(st, c);
            lemma_scan_progress(st, c, 0);
            lemma_flatten_cons(c.skip(used as int), rest);
            lemma_scan_resumes(st, c, 0, rest.flatten());
            assert(c.skip(0) =~= c);
            lemma_chunking_invariance(next, rest.insert(0, c.skip(used as int)));
        }
    }
}

/// An empty stream yields no outcome at all.
pub proof fn lemma_end_of_stream()
    ensures
        telegram_outcomes(Seq::empty()) == Seq::<Outcome>::empty(),
{
}

proof fn lemma_skip_noise(g: Seq<u8>, r: Seq<u8>)
    requires
        forall|i: int| 0 <= i < g.len() ==> g[i] != START_MARKER,
    ensures
        outcomes_from(initial_state(), g + r) == outcomes_from(initial_state(), r),
    decreases g.len(),
{
    if g.len() > 0 {
        let s = g + r;
        assert(s[0] == g[0]);
        assert(s.drop_first() =~= g.drop_first() + r);
        lemma_skip_noise(g.drop_first(), r);
        assert(emitted(None) + outcomes_from(initial_state(), s.drop_first()) =~= outcomes_from(
            initial_state(),
            s.drop_first(),
        ));
    } else {
        assert(g + r =~= r);
    }
}

proof fn lemma_body(buf: Seq<u8>, x: Seq<u8>, r: Seq<u8>)
    requires
        forall|i: int| 0 <= i < x.len() ==> x[i] != START_MARKER && x[i] != TERMINATOR,
    ensures
        outcomes_from(ReaderState { phase: Phase::Body, buf }, x + r) == outcomes_from(
            ReaderState { phase: Phase::Body, buf: buf + x },
            r,
        ),
    decreases x.len(),
{
    if x.len() > 0 {
        let s = x + r;
        assert(s[0] == x[0]);
        assert(s.drop_first() =~= x.drop_first() + r);
        lemma_body(buf.push(x[0]), x.drop_first(), r);
        assert(buf.push(x[0]) + x.drop_first() =~= buf + x);
        let next = ReaderState { phase: Phase::Body, buf: buf.push(x[0]) };
        assert(emitted(None) + outcomes_from(next, s.drop_first()) =~= outcomes_from(
            next,
            s.drop_first(),
        ));
    } else {
        assert(x + r =~= r);
        assert(buf + x =~= buf);
    }
}

proof fn lemma_trailer(buf: Seq<u8>, k: usize, t: Seq<u8>, r: Seq<u8>)
    requires
        1 <= k <= CHECKSUM_DIGITS,
        t.len() == k,
        forall|i: int| 0 <= i < t.len() ==> t[i] != START_MARKER,
    ensures
        outcomes_from(ReaderState { phase: Phase::Trailer(k), buf }, t + r) == seq![
            Outcome::Datagram(buf + t),
        ] + outcomes_from(initial_state(), r),
    decreases t.len(),
{
    let s = t + r;
    assert(s[0] == t[0]);
    assert(s.drop_first() =~= t.drop_first() + r);
    if k == 1 {
        assert(t.drop_first() + r =~= r);
        assert(buf.push(t[0]) =~= buf + t);
    } else {
        lemma_trailer(buf.push(t[0]), (k - 1) as usize, t.drop_first(), r);
        assert(buf.push(t[0]) + t.drop_first() =~= buf + t);
        let next = ReaderState { phase: Phase::Trailer((k - 1) as usize), buf: buf.push(t[0]) };
        assert(emitted(None) + outcomes_from(next, s.drop_first()) =~= outcomes_from(
            next,
            s.drop_first(),
        ));
    }
}

proof fn lemma_frame(f: Seq<u8>, r: Seq<u8>)
    requires
        is_frame(f),
    ensures
        outcomes_from(initial_state(), f + r) == seq![Outcome::Datagram(f)] + outcomes_from(
            initial_state(),
            r,
        ),
{
    let n = f.len() as int;
    let s = f + r;
    let payload = f.subrange(1, n - 5);
    let rest = f.skip(n - 5) + r;
    let open = ReaderState { phase: Phase::Body, buf: seq![START_MARKER] };
    assert(s[0] == START_MARKER);
    assert(s.drop_first() =~= payload + rest);
    assert(emitted(None) + outcomes_from(open, s.drop_first()) =~= outcomes_from(
        open,
        s.drop_first(),
    ));
    lemma_body(seq![START_MARKER], payload, rest);
    let body = ReaderState { phase: Phase::Body, buf: seq![START_MARKER] + payload };
    assert(seq![START_MARKER] + payload =~= f.take(n - 5));
    assert(rest[0] == TERMINATOR);
    let trailer = f.skip(n - 4);
    assert(rest.drop_first() =~= trailer + r);
    let tail = ReaderState { phase: Phase::Trailer(CHECKSUM_DIGITS), buf: f.take(n - 4) };
    assert(f.take(n - 5).push(TERMINATOR) =~= f.take(n - 4));
    assert(emitted(None) + outcomes_from(tail, rest.drop_first()) =~= outcomes_from(
        tail,
        rest.drop_first(),
    ));
    lemma_trailer(f.take(n - 4), CHECKSUM_DIGITS, trailer, r);
    assert(f.take(n - 4) + trailer =~= f);
}

/// A well-formed telegram on its own yields exactly one complete datagram,
/// equal to its bytes.
pub proof fn lemma_single_frame(f: Seq<u8>)
    requires
        is_frame(f),
    ensures
        telegram_outcomes(f) == seq![Outcome::Datagram(f)],
{
    lemma_frame(f, Seq::empty());
    assert(f + Seq::<u8>::empty() =~= f);
    assert(seq![Outcome::Datagram(f)] + Seq::<Outcome>::empty() =~= seq![Outcome::Datagram(f)]);
}

/// Bytes other than a start marker between two telegrams are dropped: the
/// two datagrams come out unchanged.
pub proof fn lemma_resynchronization(f1: Seq<u8>, g: Seq<u8>, f2: Seq<u8>)
    requires
        is_frame(f1),
        is_frame(f2),
        forall|i: int| 0 <= i < g.len() ==> g[i] != START_MARKER,
    ensures
        telegram_outcomes(f1 + g + f2) == seq![Outcome::Datagram(f1), Outcome::Datagram(f2)],
{
    assert(f1 + g + f2 =~= f1 + (g + f2));
    lemma_frame(f1, g + f2);
    lemma_skip_noise(g, f2);
    lemma_single_frame(f2);
    assert(seq![Outcome::Datagram(f1)] + seq![Outcome::Datagram(f2)] =~= seq![
        Outcome::Datagram(f1),
        Outcome::Datagram(f2),
    ]);
}

/// A telegram cut before its terminator by the start of the next one yields
/// the cut prefix as an incomplete datagram, then the next telegram.
pub proof fn lemma_truncation(p: Seq<u8>, f: Seq<u8>)
    requires
        p.len() >= 1,
        p[0] == START_MARKER,
        forall|i: int| 1 <= i < p.len() ==> p[i] != START_MARKER && p[i] != TERMINATOR,
        is_frame(f),
    ensures
        telegram_outcomes(p + f) == seq![Outcome::Incomplete(p), Outcome::Datagram(f)],
{
    let s = p + f;
    let open = ReaderState { phase: Phase::Body, buf: seq![START_MARKER] };
    assert(s[0] == START_MARKER);
    assert(s.drop_first() =~= p.skip(1) + f);
    assert(emitted(None) + outcomes_from(open, s.drop_first()) =~= outcomes_from(
        open,
        s.drop_first(),
    ));
    lemma_body(seq![START_MARKER], p.skip(1), f);
    assert(seq![START_MARKER] + p.skip(1) =~= p);
    assert(f[0] == START_MARKER);
    lemma_single_frame(f);
    assert(seq![Outcome::Incomplete(p)] + seq![Outcome::Datagram(f)] =~= seq![
        Outcome::Incomplete(p),
        Outcome::Datagram(f),
    ]);
}

/// Assembles telegrams out of the bytes of a source that hands them out in
/// chunks of any size.
pub struct DatagramReader {
    phase: Phase,
    datagram: Vec<u8>,
}

impl View for DatagramReader {
    type V = ReaderState;

    closed spec fn view(&self) -> ReaderState {
        ReaderState { phase: self.phase, buf: self.datagram@ }
    }
}

impl DatagramReader {
    pub fn new() -> (r: DatagramReader)
        ensures
            r@ == initial_state(),
    {
        DatagramReader { phase: Phase::Sync, datagram: Vec::new() }
    }

    fn take_datagram(&mut self) -> (d: Vec<u8>)
        ensures
            d@ == old(self)@.buf,
            final(self)@ == initial_state(),
    {
        let mut d = Vec::new();
        std::mem::swap(&mut d, &mut self.datagram);
        self.phase = Phase::Sync;
        d
    }

    /// Drops bytes from `start` on until a start marker, which it takes.
    fn sync_to_datagram(&mut self, available: &[u8], start: usize) -> (end: usize)
        requires
            old(self)@.phase == Phase::Sync,
            well_formed(old(self)@),
            start < available@.len(),
        ensures
            well_formed(final(self)@),
            start < end <= available@.len(),
            scan(old(self)@, available@, start as int) == scan(final(self)@, available@, end as int),
    {
        let mut i = start;
        while i < available.len()
            invariant
                self@.phase == Phase::Sync,
                well_formed(self@),
                start <= i <= available@.len(),
                scan(old(self)@, available@, start as int) == scan(self@, available@, i as int),
            decreases available@.len() - i,
        {
            if available[i] == START_MARKER {
                self.datagram.push(START_MARKER);
                self.phase = Phase::Body;
                assert(self@.buf =~= seq![START_MARKER]);
                return i + 1;
            }
            i += 1;
        }
        i
    }

    /// Copies body bytes from `start` on, up to the terminator, which it
    /// takes; a start marker first makes the telegram incomplete.
    fn read_datagram(&mut self, available: &[u8], start: usize) -> (r: (usize, Option<ReadDatagram>))
        requires
            old(self)@.phase == Phase::Body,
            start < available@.len(),
        ensures
            well_formed(final(self)@),
            start <= r.0 <= available@.len(),
            r.1 is None ==> start < r.0 && scan(old(self)@, available@, start as int) == scan(
                final(self)@,
                available@,
                r.0 as int,
            ),
            r.1 is Some ==> scan(old(self)@, available@, start as int) == (
                final(self)@,
                r.0 as nat,
                outcome_of(r.1),
            ),
    {
        let mut i = start;
        while i < available.len()
            invariant
                self@.phase == Phase::Body,
                start <= i <= available@.len(),
                scan(old(self)@, available@, start as int) == scan(self@, available@, i as int),
            decreases available@.len() - i,
        {
            let b = available[i];
            if b == START_MARKER {
                let d = self.take_datagram();
                return (i, Some(ReadDatagram::IncompleteDatagram(d)));
            }
            self.datagram.push(b);
            if b == TERMINATOR {
                self.phase = Phase::Trailer(CHECKSUM_DIGITS);
                return (i + 1, None);
            }
            i += 1;
        }
        (i, None)
    }

    /// Copies checksum digits from `start` on, until as many as the phase
    /// wants are there; a start marker first makes the telegram incomplete.
    fn read_crc_bytes(&mut self, available: &[u8], start: usize) -> (r: (usize, Option<ReadDatagram>))
        requires
            old(self)@.phase is Trailer,
            well_formed(old(self)@),
            start < available@.len(),
        ensures
            well_formed(final(self)@),
            start <= r.0 <= available@.len(),
            r.1 is None ==> start < r.0 && scan(old(self)@, available@, start as int) == scan(
                final(self)@,
                available@,
                r.0 as int,
            ),
            r.1 is Some ==> scan(old(self)@, available@, start as int) == (
                final(self)@,
                r.0 as nat,
                outcome_of(r.1),
            ),
    {
        let mut i = start;
        while i < available.len()
            invariant
                self@.phase is Trailer,
                well_formed(self@),
                start <= i <= available@.len(),
                scan(old(self)@, available@, start as int) == scan(self@, available@, i as int),
            decreases available@.len() - i,
        {
            let b = available[i];
            if b == START_MARKER {
                let d = self.take_datagram();
                return (i, Some(ReadDatagram::IncompleteDatagram(d)));
            }
            self.datagram.push(b);
            let wanted = match self.phase {
                Phase::Trailer(k) => k,
                _ => 1,
            };
            if wanted <= 1 {
                let d = self.take_datagram();
                return (i + 1, Some(ReadDatagram::Datagram(d)));
            }
            self.phase = Phase::Trailer(wanted - 1);
            i += 1;
        }
        (i, None)
    }

    /// Hands the assembler the bytes that the source has ready (none at the
    /// end of input). Returns how many of them it used, which the caller then
    /// consumes from the source, and the outcome, if one was decided. `None`
    /// on an empty `available` means that the stream has ended.
    pub fn next_datagram(&mut self, available: &[u8]) -> (r: (usize, Option<ReadDatagram>))
        requires
            well_formed(old(self)@),
        ensures
            well_formed(final(self)@),
            r.0 <= available@.len(),
            (final(self)@, r.0 as nat, outcome_of(r.1)) == step_spec(old(self)@, available@),
    {
        if available.len() == 0 {
            return match self.phase {
                Phase::Sync => {
                    assert(self@.buf =~= Seq::<u8>::empty());
                    (0, None)
                },
                _ => {
                    let d = self.take_datagram();
                    (0, Some(ReadDatagram::IncompleteDatagram(d)))
                },
            };
        }
        let mut i: usize = 0;
        while i < available.len()
            invariant
                well_formed(self@),
                i <= available@.len(),
                scan(old(self)@, available@, 0) == scan(self@, available@, i as int),
            decreases available@.len() - i,
        {
            match self.phase {
                Phase::Sync => {
                    i = self.sync_to_datagram(available, i);
                },
                Phase::Body => {
                    let (j, out) = self.read_datagram(available, i);
                    if out.is_some() {
                        return (j, out);
                    }
                    i = j;
                },
                Phase::Trailer(_) => {
                    let (j, out) = self.read_crc_bytes(available, i);
                    if out.is_some() {
                        return (j, out);
                    }
                    i = j;
                },
            }
        }
        (i, None)
    }
}

} // verus!
