//! Filling memory with words and checking that they are still there.

use vstd::prelude::*;

use crate::failure::{Failure, FailureBudget};
use crate::memory::{self, Memory, Monitor};

pub mod avx512;
pub mod scalar;

verus! {

broadcast use crate::memory::lemma_slots_nonnegative;

/// Chunk granularity, in words, shared by every orchestration: 64 Ki words are
/// 512 KiB. A multiple of 8, so that every chunk boundary is 64-byte aligned.
pub const CHUNK_WORDS: usize = 65536;

/// A sequence of words, one per word of memory, produced in order.
pub trait WordSource {
    /// The word for each word index.
    spec fn words(&self) -> spec_fn(int) -> u64;

    /// How many words have been produced.
    spec fn position(&self) -> int;

    /// Whether the source is in a state that it can produce words from.
    spec fn valid(&self) -> bool;

    /// The next word.
    fn next_word(&mut self) -> (word: u64)
        requires
            old(self).valid(),
            0 <= old(self).position() < usize::MAX,
        ensures
            final(self).valid(),
            final(self).words() == old(self).words(),
            final(self).position() == old(self).position() + 1,
            word == old(self).words()(old(self).position()),
    ;
}

/// The same word everywhere.
pub struct Constant {
    word: u64,
    produced: Ghost<int>,
}

/// The sequence that is `word` at each index.
pub open spec fn constant_words(word: u64) -> spec_fn(int) -> u64 {
    |i: int| word
}

impl Constant {
    /// Produce `word` over and over.
    pub fn new(word: u64) -> (source: Self)
        ensures
            source.words() == constant_words(word),
            source.position() == 0,
            source.valid(),
    {
        Constant { word, produced: Ghost(0) }
    }
}

impl WordSource for Constant {
    closed spec fn words(&self) -> spec_fn(int) -> u64 {
        constant_words(self.word)
    }

    closed spec fn position(&self) -> int {
        self.produced@
    }

    closed spec fn valid(&self) -> bool {
        true
    }

    fn next_word(&mut self) -> (word: u64) {
        self.produced = Ghost(self.produced@ + 1);
        self.word
    }
}

/// Each word holds its own index.
pub struct Indexed {
    next: usize,
}

/// The sequence that is its own index at each index.
pub open spec fn indexed_words() -> spec_fn(int) -> u64 {
    |i: int| i as u64
}

impl Indexed {
    /// Count up from zero.
    pub fn new() -> (source: Self)
        ensures
            source.words() == indexed_words(),
            source.position() == 0,
            source.valid(),
    {
        Indexed { next: 0 }
    }
}

impl WordSource for Indexed {
    closed spec fn words(&self) -> spec_fn(int) -> u64 {
        indexed_words()
    }

    closed spec fn position(&self) -> int {
        self.next as int
    }

    closed spec fn valid(&self) -> bool {
        true
    }

    fn next_word(&mut self) -> (word: u64) {
        let word: u64 = self.next as u64;
        self.next = self.next + 1;
        word
    }
}

/// Store `words` everywhere, in address order.
pub open spec fn fill_script(words: spec_fn(int) -> u64, len: int) -> Seq<memory::Step> {
    Seq::new(len as nat, |i: int| memory::Step::Write { index: i, word: words(i) })
}

/// Load everything in address order, expecting `words`.
pub open spec fn verify_script(words: spec_fn(int) -> u64, len: int) -> Seq<memory::Step> {
    Seq::new(len as nat, |i: int| memory::Step::Read { index: i, expected: words(i) })
}

/// Store `words` everywhere, then load everything.
pub open spec fn round_script(words: spec_fn(int) -> u64, len: int) -> Seq<memory::Step> {
    fill_script(words, len) + verify_script(words, len)
}

/// The announcement of the first `n` chunks of a memory of `len` words.
pub open spec fn chunk_signals(len: int, n: int) -> Seq<memory::Signal> {
    Seq::new(
        n as nat,
        |c: int| memory::Signal::Activity { index: c * CHUNK_WORDS, total: len },
    )
}

/// How many chunks `len` words take.
pub open spec fn chunk_count(len: int) -> int {
    (len + CHUNK_WORDS - 1) / (CHUNK_WORDS as int)
}

/// What is announced by a check that got through `read` of `len` words.
pub open spec fn check_signals(len: int, read: int, announced: bool) -> Seq<memory::Signal> {
    if announced {
        chunk_signals(len, chunk_count(read))
    } else {
        Seq::empty()
    }
}

/// Announcements end no sub-pass and ask for no stop.
pub proof fn lemma_chunk_signals_quiet(len: int, n: int)
    requires
        0 <= n,
    ensures
        memory::subpasses(chunk_signals(len, n)) == 0,
        !memory::quits(chunk_signals(len, n)),
    decreases n,
{
    if n > 0 {
        lemma_chunk_signals_quiet(len, n - 1);
        assert(chunk_signals(len, n).drop_last() =~= chunk_signals(len, n - 1));
    }
}

/// Store the words of `source` everywhere, chunk by chunk in address order.
pub fn fill_pass<M: Memory, N: Monitor, S: WordSource>(mem: &mut M, monitor: &mut N, source: S)
    requires
        source.valid(),
        source.position() == 0,
    ensures
        final(mem).size() == old(mem).size(),
        final(mem).base() == old(mem).base(),
        memory::extends(old(mem).trace(), final(mem).trace()),
        memory::extends(old(monitor).log(), final(monitor).log()),
        memory::since(old(mem).trace(), final(mem).trace()).len() == old(mem).size(),
        memory::performs(
            fill_script(source.words(), old(mem).size()),
            memory::since(old(mem).trace(), final(mem).trace()),
        ),
        memory::since(old(monitor).log(), final(monitor).log()) == chunk_signals(
            old(mem).size(),
            chunk_count(old(mem).size()),
        ),
{
    let ghost trace0 = mem.trace();
    let ghost log0 = monitor.log();
    let ghost words = source.words();
    let len: usize = mem.word_count();
    let ghost script = fill_script(words, len as int);
    let mut source = source;
    let mut start: usize = 0;
    let ghost mut chunks: int = 0;
    proof {
        memory::lemma_since_self(trace0);
        memory::lemma_since_self(log0);
        assert(chunk_signals(len as int, 0) =~= Seq::empty());
    }
    while start < len
        invariant
            start <= len,
            len == mem.size(),
            len == old(mem).size(),
            mem.base() == old(mem).base(),
            script == fill_script(words, len as int),
            source.valid(),
            source.words() == words,
            source.position() == start,
            memory::extends(trace0, mem.trace()),
            memory::extends(log0, monitor.log()),
            memory::since(trace0, mem.trace()).len() == start,
            memory::performs(script, memory::since(trace0, mem.trace())),
            memory::since(log0, monitor.log()) == chunk_signals(len as int, chunks),
            0 <= chunks,
            start < len ==> start == chunks * CHUNK_WORDS,
            start == len ==> chunks == chunk_count(len as int),
        decreases len - start,
    {
        let end: usize = if len - start <= CHUNK_WORDS {
            len
        } else {
            start + CHUNK_WORDS
        };
        let mut i: usize = start;
        while i < end
            invariant
                start <= i <= end <= len,
                len == mem.size(),
                mem.base() == old(mem).base(),
                script == fill_script(words, len as int),
                source.valid(),
                source.words() == words,
                source.position() == i,
                memory::extends(trace0, mem.trace()),
                memory::since(trace0, mem.trace()).len() == i,
                memory::performs(script, memory::since(trace0, mem.trace())),
            decreases end - i,
        {
            let ghost before = memory::since(trace0, mem.trace());
            let ghost trace1 = mem.trace();
            let word: u64 = source.next_word();
            mem.write(i, word);
            proof {
                let after = memory::since(trace0, mem.trace());
                assert(after =~= before.push(memory::Access::Write { index: i as int, word }));
                assert(mem.trace().take(trace0.len() as int) =~= trace1.take(trace0.len() as int));
                assert forall|k: int| 0 <= k < after.len() implies memory::obeys(
                    script[k],
                    #[trigger] after[k],
                ) by {
                    if k < before.len() {
                        assert(memory::obeys(script[k], before[k]));
                    }
                }
            }
            i = i + 1;
        }
        let ghost log1 = monitor.log();
        monitor.activity(start, len);
        proof {
            assert(monitor.log().take(log0.len() as int) =~= log1.take(log0.len() as int));
            let said = memory::Signal::Activity { index: start as int, total: len as int };
            assert(memory::since(log0, monitor.log()) =~= memory::since(log0, log1).push(said));
            assert(start == chunks * CHUNK_WORDS);
            assert(chunk_signals(len as int, chunks + 1) =~= chunk_signals(
                len as int,
                chunks,
            ).push(said));
            chunks = chunks + 1;
        }
        start = end;
    }
}

/// Where a check of everything ends: at the end of the memory, or at the first
/// chunk boundary where the budget is used up. Each chunk is announced if
/// `announced`.
pub open spec fn verify_ends(
    words: spec_fn(int) -> u64,
    len: int,
    base: int,
    slots: int,
    announced: bool,
    done: Seq<memory::Access>,
    signals: Seq<memory::Signal>,
) -> bool {
    let script = verify_script(words, len);
    &&& memory::performs(script, done)
    &&& forall|c: int|
        0 <= c && c * CHUNK_WORDS < done.len() ==> memory::mismatches(
            script,
            #[trigger] done.take(c * CHUNK_WORDS),
            base,
        ).len() < slots
    &&& done.len() < len ==> {
        &&& done.len() % (CHUNK_WORDS as nat) == 0
        &&& memory::mismatches(script, done, base).len() >= slots
    }
    &&& signals == check_signals(len, done.len() as int, announced)
}

/// Load everything, chunk by chunk in address order, and record a [`Failure`] for
/// each word that differs from that of `source`. No chunk is begun once the
/// budget is used up. Each chunk is announced if `announce`.
pub fn verify_pass<M: Memory, N: Monitor, S: WordSource>(
    mem: &mut M,
    monitor: &mut N,
    source: S,
    announce: bool,
    budget: &mut FailureBudget,
) -> (failures: Vec<Failure>)
    requires
        source.valid(),
        source.position() == 0,
    ensures
        final(mem).size() == old(mem).size(),
        final(mem).base() == old(mem).base(),
        memory::extends(old(mem).trace(), final(mem).trace()),
        memory::extends(old(monitor).log(), final(monitor).log()),
        verify_ends(
            source.words(),
            old(mem).size(),
            old(mem).base(),
            old(budget).slots(),
            announce,
            memory::since(old(mem).trace(), final(mem).trace()),
            memory::since(old(monitor).log(), final(monitor).log()),
        ),
        memory::settles(
            *old(budget),
            *final(budget),
            memory::mismatches(
                verify_script(source.words(), old(mem).size()),
                memory::since(old(mem).trace(), final(mem).trace()),
                old(mem).base(),
            ),
            failures@,
        ),
{
    let ghost trace0 = mem.trace();
    let ghost log0 = monitor.log();
    let ghost budget0 = *budget;
    let ghost slots = budget.slots();
    let ghost words = source.words();
    let len: usize = mem.word_count();
    let base_addr: usize = mem.base_addr();
    let ghost base = mem.base();
    let ghost script = verify_script(words, len as int);
    let mut source = source;
    let mut failures: Vec<Failure> = Vec::new();
    let mut start: usize = 0;
    let ghost mut chunks: int = 0;
    proof {
        memory::lemma_since_self(trace0);
        memory::lemma_since_self(log0);
        assert(chunk_signals(len as int, 0) =~= Seq::empty());
        assert(Seq::<Failure>::empty() =~= Seq::<Failure>::empty().take(0));
    }
    while start < len && !budget.is_exhausted()
        invariant
            start <= len,
            len == mem.size(),
            len == old(mem).size(),
            base == mem.base(),
            base == old(mem).base(),
            base_addr == base,
            base + len * 8 <= usize::MAX + 1,
            slots == budget0.slots(),
            script == verify_script(words, len as int),
            source.valid(),
            source.words() == words,
            source.position() == start,
            memory::extends(trace0, mem.trace()),
            memory::extends(log0, monitor.log()),
            memory::since(trace0, mem.trace()).len() == start,
            memory::performs(script, memory::since(trace0, mem.trace())),
            memory::settles(
                budget0,
                *budget,
                memory::mismatches(script, memory::since(trace0, mem.trace()), base),
                failures@,
            ),
            forall|c: int|
                0 <= c && c * CHUNK_WORDS < start ==> memory::mismatches(
                    script,
                    #[trigger] memory::since(trace0, mem.trace()).take(c * CHUNK_WORDS),
                    base,
                ).len() < slots,
            memory::since(log0, monitor.log()) == (if announce {
                chunk_signals(len as int, chunks)
            } else {
                Seq::empty()
            }),
            0 <= chunks,
            start < len ==> start == chunks * CHUNK_WORDS,
            chunks == chunk_count(start as int),
        decreases len - start,
    {
        let ghost done1 = memory::since(trace0, mem.trace());
        let ghost found1 = memory::mismatches(script, done1, base);
        let ghost kept1 = failures@;
        let ghost budget1 = *budget;
        let ghost log1 = monitor.log();
        if announce {
            monitor.activity(start, len);
            proof {
                assert(monitor.log().take(log0.len() as int) =~= log1.take(log0.len() as int));
                let said = memory::Signal::Activity { index: start as int, total: len as int };
                assert(memory::since(log0, monitor.log()) =~= memory::since(log0, log1).push(said));
                assert(start == chunks * CHUNK_WORDS);
                assert(chunk_signals(len as int, chunks + 1) =~= chunk_signals(
                    len as int,
                    chunks,
                ).push(said));
            }
        }
        assert(found1.len() < slots);
        let end: usize = if len - start <= CHUNK_WORDS {
            len
        } else {
            start + CHUNK_WORDS
        };
        let mut batch: Vec<Failure> = Vec::new();
        let mut i: usize = start;
        assert(batch@ =~= Seq::empty());
        assert(found1 =~= found1 + batch@);
        while i < end
            invariant
                start <= i <= end <= len,
                len == mem.size(),
                base == mem.base(),
                base_addr == base,
                base + len * 8 <= usize::MAX + 1,
                script == verify_script(words, len as int),
                source.valid(),
                source.words() == words,
                source.position() == i,
                done1.len() == start,
                memory::extends(trace0, mem.trace()),
                memory::since(trace0, mem.trace()).len() == i,
                memory::since(trace0, mem.trace()).take(start as int) == done1,
                memory::performs(script, memory::since(trace0, mem.trace())),
                memory::mismatches(script, memory::since(trace0, mem.trace()), base) == found1
                    + batch@,
            decreases end - i,
        {
            let ghost before = memory::since(trace0, mem.trace());
            let ghost trace1 = mem.trace();
            let ghost batch1 = batch@;
            let expected: u64 = source.next_word();
            let actual: u64 = mem.read(i);
            if actual != expected {
                batch.push(
                    Failure {
                        addr: base_addr + i * 8,
                        expected,
                        actual,
                        word_index: i,
                        phys_addr: None,
                    },
                );
            }
            proof {
                let after = memory::since(trace0, mem.trace());
                let access = memory::Access::Read { index: i as int, word: actual };
                assert(after =~= before.push(access));
                assert(after.drop_last() =~= before);
                assert(after.take(start as int) =~= before.take(start as int));
                assert(mem.trace().take(trace0.len() as int) =~= trace1.take(trace0.len() as int));
                assert(script[i as int] == memory::Step::Read { index: i as int, expected });
                assert forall|k: int| 0 <= k < after.len() implies memory::obeys(
                    script[k],
                    #[trigger] after[k],
                ) by {
                    if k < before.len() {
                        assert(memory::obeys(script[k], before[k]));
                    }
                }
                assert(batch@ =~= batch1 + memory::mismatch(script[i as int], access, base));
                assert(memory::mismatches(script, after, base) =~= found1 + batch@);
            }
            i = i + 1;
        }
        let ghost batch2 = batch@;
        budget.cap(&mut batch);
        let ghost capped = batch@;
        failures.append(&mut batch);
        proof {
            let done2 = memory::since(trace0, mem.trace());
            assert(failures@ =~= kept1 + capped);
            memory::lemma_settles_compose(
                budget0,
                budget1,
                *budget,
                found1,
                kept1,
                batch2,
                capped,
            );
            assert forall|c: int| 0 <= c && c * CHUNK_WORDS < end implies memory::mismatches(
                script,
                #[trigger] done2.take(c * CHUNK_WORDS),
                base,
            ).len() < slots by {
                if c * CHUNK_WORDS < start {
                    assert(done2.take(c * CHUNK_WORDS) =~= done1.take(c * CHUNK_WORDS));
                    assert(memory::mismatches(
                        script,
                        done1.take(c * CHUNK_WORDS),
                        base,
                    ).len() < slots);
                } else {
                    assert(c * CHUNK_WORDS == start);
                    assert(done2.take(start as int) == done1);
                }
            }
            chunks = chunks + 1;
        }
        start = end;
    }
    failures
}

/// Store the words of one source everywhere, then load everything and compare
/// with the same words from another. The chunks of the check are announced if
/// `parallel`.
fn fill_verify<M: Memory, N: Monitor, S: WordSource>(
    mem: &mut M,
    monitor: &mut N,
    source: S,
    replay: S,
    parallel: bool,
    budget: &mut FailureBudget,
) -> (failures: Vec<Failure>)
    requires
        source.valid(),
        source.position() == 0,
        replay.valid(),
        replay.position() == 0,
        replay.words() == source.words(),
    ensures
        final(mem).size() == old(mem).size(),
        final(mem).base() == old(mem).base(),
        memory::extends(old(mem).trace(), final(mem).trace()),
        memory::extends(old(monitor).log(), final(monitor).log()),
        round_ends(
            source.words(),
            old(mem).size(),
            old(mem).base(),
            parallel,
            *old(budget),
            *final(budget),
            memory::since(old(mem).trace(), final(mem).trace()),
            memory::since(old(monitor).log(), final(monitor).log()),
            failures@,
        ),
{
    let ghost trace0 = mem.trace();
    let ghost log0 = monitor.log();
    let ghost len = mem.size();
    let ghost words = source.words();
    fill_pass(mem, monitor, source);
    let ghost trace1 = mem.trace();
    let ghost log1 = monitor.log();
    let failures = verify_pass(mem, monitor, replay, parallel, budget);
    proof {
        memory::lemma_since_since(trace0, trace1, mem.trace());
        memory::lemma_since_since(log0, log1, monitor.log());
        assert(memory::since(trace0, mem.trace()).take(len) =~= memory::since(trace0, trace1));
        assert(memory::since(trace0, mem.trace()).skip(len) =~= memory::since(
            trace1,
            mem.trace(),
        ));
        assert(memory::since(log0, monitor.log()).take(chunk_count(len)) =~= memory::since(
            log0,
            log1,
        ));
        assert(memory::since(log0, monitor.log()).skip(chunk_count(len)) =~= memory::since(
            log1,
            monitor.log(),
        ));
    }
    failures
}

/// Whether a fill-and-verify round went as it should: everything stored and
/// announced chunk by chunk, then the check as [`verify_ends`] says, announced only
/// if `parallel`.
pub open spec fn round_ends(
    words: spec_fn(int) -> u64,
    len: int,
    base: int,
    parallel: bool,
    before: FailureBudget,
    after: FailureBudget,
    done: Seq<memory::Access>,
    signals: Seq<memory::Signal>,
    kept: Seq<Failure>,
) -> bool {
    let filled = done.take(len);
    let read = done.skip(len);
    let announced = chunk_count(len);
    &&& len <= done.len()
    &&& memory::performs(fill_script(words, len), filled)
    &&& announced <= signals.len()
    &&& signals.take(announced) == chunk_signals(len, announced)
    &&& verify_ends(words, len, base, before.slots(), parallel, read, signals.skip(announced))
    &&& memory::settles(
        before,
        after,
        memory::mismatches(verify_script(words, len), read, base),
        kept,
    )
}

/// A fill-and-verify round is a run of its script, with no sub-pass announced
/// and no stop asked for.
pub proof fn lemma_round_ran(
    words: spec_fn(int) -> u64,
    len: int,
    base: int,
    parallel: bool,
    before: FailureBudget,
    after: FailureBudget,
    done: Seq<memory::Access>,
    signals: Seq<memory::Signal>,
    kept: Seq<Failure>,
)
    requires
        0 <= len,
        round_ends(words, len, base, parallel, before, after, done, signals, kept),
    ensures
        memory::ran(round_script(words, len), 0, base, before, after, done, signals, kept),
        memory::subpasses(signals) == 0,
        !memory::quits(signals),
        done.len() < round_script(words, len).len() ==> after.slots() == 0,
{
    let read = done.skip(len);
    assert(done =~= done.take(len) + read);
    lemma_round_parts(
        words,
        len,
        base,
        parallel,
        before,
        after,
        done.take(len),
        read,
        signals.skip(chunk_count(len)),
        kept,
    );
    let announced = chunk_count(len);
    let more = signals.skip(announced);
    assert(signals =~= signals.take(announced) + more);
    lemma_chunk_signals_quiet(len, announced);
    lemma_chunk_signals_quiet(len, chunk_count(read.len() as int));
    memory::lemma_subpasses_concat(signals.take(announced), more);
    memory::lemma_quits_concat(signals.take(announced), more);
}

/// A fill and a check of it, joined: what the check found is what the round
/// found.
pub proof fn lemma_round_parts(
    words: spec_fn(int) -> u64,
    len: int,
    base: int,
    announced: bool,
    before: FailureBudget,
    after: FailureBudget,
    filled: Seq<memory::Access>,
    read: Seq<memory::Access>,
    signals: Seq<memory::Signal>,
    kept: Seq<Failure>,
)
    requires
        0 <= len,
        filled.len() == len,
        memory::performs(fill_script(words, len), filled),
        verify_ends(words, len, base, before.slots(), announced, read, signals),
        memory::settles(
            before,
            after,
            memory::mismatches(verify_script(words, len), read, base),
            kept,
        ),
    ensures
        memory::performs(round_script(words, len), filled + read),
        memory::settles(
            before,
            after,
            memory::mismatches(round_script(words, len), filled + read, base),
            kept,
        ),
        (filled + read).len() < round_script(words, len).len() ==> after.slots() == 0,
{
    let fill = fill_script(words, len);
    let check = verify_script(words, len);
    memory::lemma_performs_concat(fill, filled, check, read);
    lemma_fill_has_no_mismatch(words, len, filled, base);
    memory::lemma_mismatches_concat(fill, filled, check, read, base);
    assert(memory::mismatches(round_script(words, len), filled + read, base)
        =~= memory::mismatches(check, read, base));
}

/// Storing reports nothing.
pub proof fn lemma_fill_has_no_mismatch(
    words: spec_fn(int) -> u64,
    len: int,
    done: Seq<memory::Access>,
    base: int,
)
    requires
        done.len() <= len,
    ensures
        memory::mismatches(fill_script(words, len), done, base) == Seq::<Failure>::empty(),
    decreases done.len(),
{
    if done.len() > 0 {
        lemma_fill_has_no_mismatch(words, len, done.drop_last(), base);
        assert(memory::mismatches(fill_script(words, len), done, base) =~= Seq::empty());
    }
}

/// Fill every word with `pattern`, then verify. Returns the mismatches, capped
/// at the budget. The fill is announced chunk by chunk, and so is the check if it is
/// one of several side by side.
pub fn fill_verify_constant<M: Memory, N: Monitor>(
    mem: &mut M,
    monitor: &mut N,
    pattern: u64,
    parallel: bool,
    budget: &mut FailureBudget,
) -> (failures: Vec<Failure>)
    ensures
        final(mem).size() == old(mem).size(),
        final(mem).base() == old(mem).base(),
        memory::extends(old(mem).trace(), final(mem).trace()),
        memory::extends(old(monitor).log(), final(monitor).log()),
        round_ends(
            constant_words(pattern),
            old(mem).size(),
            old(mem).base(),
            parallel,
            *old(budget),
            *final(budget),
            memory::since(old(mem).trace(), final(mem).trace()),
            memory::since(old(monitor).log(), final(monitor).log()),
            failures@,
        ),
{
    fill_verify(mem, monitor, Constant::new(pattern), Constant::new(pattern), parallel, budget)
}

/// Fill every word with its index, then verify. Returns the mismatches, capped
/// at the budget. What is announced is as with [`fill_verify_constant`].
pub fn fill_verify_indexed<M: Memory, N: Monitor>(
    mem: &mut M,
    monitor: &mut N,
    parallel: bool,
    budget: &mut FailureBudget,
) -> (failures: Vec<Failure>)
    ensures
        final(mem).size() == old(mem).size(),
        final(mem).base() == old(mem).base(),
        memory::extends(old(mem).trace(), final(mem).trace()),
        memory::extends(old(monitor).log(), final(monitor).log()),
        round_ends(
            indexed_words(),
            old(mem).size(),
            old(mem).base(),
            parallel,
            *old(budget),
            *final(budget),
            memory::since(old(mem).trace(), final(mem).trace()),
            memory::since(old(monitor).log(), final(monitor).log()),
            failures@,
        ),
{
    fill_verify(mem, monitor, Indexed::new(), Indexed::new(), parallel, budget)
}

/// The chunks make up the memory: all are full but the last, which is not empty; the
/// announcements name where each begins and how much there is in all.
pub proof fn law_chunks_make_up_the_memory(len: int, c: int)
    requires
        0 < len,
        0 <= c < chunk_count(len),
    ensures
        (chunk_count(len) - 1) * 65536 < len <= chunk_count(len) * 65536,
        chunk_signals(len, chunk_count(len)).len() == chunk_count(len),
        chunk_signals(len, chunk_count(len))[c] == (memory::Signal::Activity {
            index: c * 65536,
            total: len,
        }),
{
}

/// A check leaves something out only if the failures use up the budget, and then it ends
/// where a chunk does.
pub proof fn law_check_reads_on_while_failures_fit(
    words: spec_fn(int) -> u64,
    len: int,
    base: int,
    slots: int,
    announced: bool,
    done: Seq<memory::Access>,
    signals: Seq<memory::Signal>,
)
    requires
        0 <= len,
        verify_ends(words, len, base, slots, announced, done, signals),
    ensures
        memory::mismatches(verify_script(words, len), done, base).len() < slots ==> done.len()
            == len,
        done.len() == len || done.len() % 65536 == 0,
        !announced ==> signals.len() == 0,
{
}

} // verus!
