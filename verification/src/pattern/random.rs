//! Random fill: write a reproducible pseudorandom sequence to every word, then
//! replay the same sequence to check it. Random data exercises bit combinations
//! that fixed patterns never produce, and gives two distinct addresses different
//! contents, so that an address decoder fault that aliases them shows.
//!
//! The generator is xoshiro256**. Each chunk gets a stream of its own, 2^128
//! outputs past the previous one, and successive passes are 2^192 apart, so fill
//! and check regenerate the same words whatever the order of the chunks.

use rand_xoshiro::rand_core::{Rng, SeedableRng};
use rand_xoshiro::Xoshiro256StarStar;
use vstd::prelude::*;

use crate::failure::{Failure, FailureBudget};
use crate::memory::{self, Memory, Monitor};
use crate::ops::{self, fill_pass, verify_pass, WordSource, CHUNK_WORDS};

verus! {

broadcast use crate::memory::lemma_slots_nonnegative;

/// The generator of `rand_xoshiro`.
#[verifier::external_type_specification]
#[verifier::external_body]
pub struct ExXoshiro256StarStar(Xoshiro256StarStar);

/// The `n`-th word, from zero, that `Xoshiro256StarStar::next_u64` gives on a
/// generator made by `seed_from_u64(seed)`.
pub uninterp spec fn xoshiro_word(seed: u64, n: nat) -> u64;

/// A position in the word sequence of one seed.
pub struct Stream {
    rng: Xoshiro256StarStar,
    seed: Ghost<u64>,
    drawn: Ghost<nat>,
}

impl Stream {
    /// The seed that the sequence belongs to.
    pub closed spec fn seed(&self) -> u64 {
        self.seed@
    }

    /// How many words of the sequence lie behind.
    pub closed spec fn drawn(&self) -> nat {
        self.drawn@
    }

    /// The start of the sequence of `seed`.
    pub fn new(seed: u64) -> (stream: Self)
        ensures
            stream.seed() == seed,
            stream.drawn() == 0,
    {
        Self::seed_from_u64(seed)
    }

    /// `Xoshiro256StarStar::seed_from_u64`: the start of the sequence of `seed`.
    #[verifier::external_body]
    fn seed_from_u64(seed: u64) -> (stream: Self)
        ensures
            stream.seed() == seed,
            stream.drawn() == 0,
    {
        Stream { rng: Xoshiro256StarStar::seed_from_u64(seed), seed: Ghost(seed), drawn: Ghost(0) }
    }

    /// `Xoshiro256StarStar::clone`: another stream at the same position.
    #[verifier::external_body]
    fn duplicate(&self) -> (stream: Self)
        ensures
            stream.seed() == self.seed(),
            stream.drawn() == self.drawn(),
    {
        Stream { rng: self.rng.clone(), seed: self.seed, drawn: self.drawn }
    }

    /// `Xoshiro256StarStar::next_u64`: the word at the current position, which
    /// moves on by one. The word depends on seed and position alone.
    #[verifier::external_body]
    fn next_u64(&mut self) -> (word: u64)
        ensures
            word == xoshiro_word(old(self).seed(), old(self).drawn()),
            final(self).seed() == old(self).seed(),
            final(self).drawn() == old(self).drawn() + 1,
    {
        self.rng.next_u64()
    }

    /// `Xoshiro256StarStar::jump`: the same as drawing 2^128 words.
    #[verifier::external_body]
    fn jump(&mut self)
        ensures
            final(self).seed() == old(self).seed(),
            final(self).drawn() == old(self).drawn() + vstd::arithmetic::power2::pow2(128),
    {
        self.rng.jump()
    }

    /// `Xoshiro256StarStar::long_jump`: the same as drawing 2^192 words.
    #[verifier::external_body]
    fn long_jump(&mut self)
        ensures
            final(self).seed() == old(self).seed(),
            final(self).drawn() == old(self).drawn() + vstd::arithmetic::power2::pow2(192),
    {
        self.rng.long_jump()
    }
}

/// The words of one pass whose stream starts at `root`: chunk `c` holds what the
/// sequence gives from `c` jumps past `root`.
pub open spec fn stream_words(seed: u64, root: nat) -> spec_fn(int) -> u64 {
    |i: int|
        xoshiro_word(
            seed,
            (root + (i / (CHUNK_WORDS as int)) * vstd::arithmetic::power2::pow2(128) + i % (CHUNK_WORDS as int)) as nat,
        )
}

/// The words of pass `pass`, from zero, of `seed`.
pub open spec fn pass_words(seed: u64, pass: int) -> spec_fn(int) -> u64 {
    stream_words(seed, (pass * vstd::arithmetic::power2::pow2(192)) as nat)
}

/// The first `n` passes over `len` words: each is a fill and a check.
pub open spec fn random_script(seed: u64, len: int, n: int) -> Seq<memory::Step>
    decreases n,
{
    if n <= 0 {
        Seq::empty()
    } else {
        random_script(seed, len, n - 1) + ops::round_script(pass_words(seed, n - 1), len)
    }
}

/// How many steps the first sub-passes take, when each pass has two.
pub open spec fn random_ends(seed: u64, len: int) -> spec_fn(int) -> int {
    |n: int|
        if n % 2 == 0 {
            random_script(seed, len, n / 2).len() as int
        } else {
            random_script(seed, len, n / 2).len() + len
        }
}

/// The words of one pass, in address order.
pub struct RandomWords {
    /// Where the next chunk's words start.
    next_chunk: Stream,
    /// The words of the current chunk.
    current: Stream,
    /// Words left in the current chunk.
    left: usize,
    root: Ghost<nat>,
    produced: Ghost<int>,
}

impl RandomWords {
    /// The words of a pass whose stream is at `root`.
    pub fn new(root: &Stream) -> (words: Self)
        ensures
            words.valid(),
            words.position() == 0,
            words.words() == stream_words(root.seed(), root.drawn()),
    {
        let words = RandomWords {
            next_chunk: root.duplicate(),
            current: root.duplicate(),
            left: 0,
            root: Ghost(root.drawn()),
            produced: Ghost(0),
        };
        assert(0 * vstd::arithmetic::power2::pow2(128) == 0) by (nonlinear_arith);
        words
    }
}

impl WordSource for RandomWords {
    closed spec fn words(&self) -> spec_fn(int) -> u64 {
        stream_words(self.next_chunk.seed(), self.root@)
    }

    closed spec fn position(&self) -> int {
        self.produced@
    }

    closed spec fn valid(&self) -> bool {
        let chunk = CHUNK_WORDS as int;
        let i = self.produced@;
        &&& 0 <= i
        &&& self.left < chunk
        &&& self.left == (if i % chunk == 0 {
            0
        } else {
            chunk - i % chunk
        })
        &&& self.current.seed() == self.next_chunk.seed()
        &&& self.left > 0 ==> self.current.drawn() == self.root@ + (i / chunk) * vstd::arithmetic::power2::pow2(128) + i
            % chunk
        &&& self.next_chunk.drawn() == self.root@ + (if self.left == 0 {
            i / chunk
        } else {
            i / chunk + 1
        }) * vstd::arithmetic::power2::pow2(128)
    }

    fn next_word(&mut self) -> (word: u64) {
        let ghost chunk = CHUNK_WORDS as int;
        let ghost i = self.produced@;
        if self.left == 0 {
            self.current = self.next_chunk.duplicate();
            self.next_chunk.jump();
            self.left = CHUNK_WORDS;
            proof {
                assert((i / chunk) * vstd::arithmetic::power2::pow2(128) + vstd::arithmetic::power2::pow2(128) == (i / chunk + 1) * vstd::arithmetic::power2::pow2(128))
                    by (nonlinear_arith);
            }
        }
        let word: u64 = self.current.next_u64();
        self.left = self.left - 1;
        proof {
            self.produced@ = self.produced@ + 1;
            if (i + 1) % chunk == 0 {
                assert((i + 1) / chunk == i / chunk + 1);
            } else {
                assert((i + 1) / chunk == i / chunk);
                assert((i + 1) % chunk == i % chunk + 1);
            }
        }
        word
    }
}

/// Each pass adds its round to the script.
proof fn lemma_random_grows(seed: u64, len: int, m: int, n: int)
    requires
        0 <= m <= n,
    ensures
        random_script(seed, len, m).len() <= random_script(seed, len, n).len(),
        random_script(seed, len, n) == random_script(seed, len, m) + random_script(
            seed,
            len,
            n,
        ).skip(random_script(seed, len, m).len() as int),
    decreases n,
{
    let short = random_script(seed, len, m);
    let long = random_script(seed, len, n);
    if m == n {
        assert(long =~= short + long.skip(short.len() as int));
    } else {
        lemma_random_grows(seed, len, m, n - 1);
        let middle = random_script(seed, len, n - 1);
        assert(forall|k: int| 0 <= k < short.len() ==> #[trigger] long[k] == middle[k]);
        assert(forall|k: int|
            0 <= k < short.len() ==> #[trigger] middle[k] == (short + middle.skip(
                short.len() as int,
            ))[k]);
        assert(long =~= short + long.skip(short.len() as int));
    }
}

/// One poll more, after signals that end no sub-pass.
proof fn lemma_poll(signals: Seq<memory::Signal>, quit: bool)
    ensures
        memory::subpasses(signals.push(memory::Signal::Poll { quit })) == memory::subpasses(
            signals,
        ),
        memory::quits(signals.push(memory::Signal::Poll { quit })) == (memory::quits(signals)
            || quit),
{
    let poll = seq![memory::Signal::Poll { quit }];
    assert(signals.push(memory::Signal::Poll { quit }) =~= signals + poll);
    memory::lemma_subpasses_concat(signals, poll);
    memory::lemma_quits_concat(signals, poll);
    assert(poll.drop_last() =~= Seq::empty());
    assert(memory::subpasses(poll.drop_last()) == 0);
    if quit {
        assert(poll[0] == memory::Signal::Poll { quit: true });
    }
}

/// One sub-pass more.
proof fn lemma_subpass(signals: Seq<memory::Signal>)
    ensures
        memory::subpasses(signals.push(memory::Signal::Subpass)) == memory::subpasses(signals) + 1,
        memory::quits(signals.push(memory::Signal::Subpass)) == memory::quits(signals),
{
    let one = seq![memory::Signal::Subpass];
    assert(signals.push(memory::Signal::Subpass) =~= signals + one);
    memory::lemma_subpasses_concat(signals, one);
    memory::lemma_quits_concat(signals, one);
    assert(one.drop_last() =~= Seq::empty());
    assert(memory::subpasses(one.drop_last()) == 0);
}

/// The sub-passes take their steps one after the other.
proof fn lemma_ends_grow(seed: u64, len: int, n: int)
    requires
        0 <= len,
        0 <= n,
    ensures
        random_ends(seed, len)(n + 1) == random_ends(seed, len)(n) + len,
        forall|j: int|
            0 <= j <= n ==> 0 <= #[trigger] random_ends(seed, len)(j) <= random_ends(seed, len)(n),
    decreases n,
{
    let ends = random_ends(seed, len);
    let half = n / 2;
    assert(random_script(seed, len, half + 1).len() == random_script(seed, len, half).len() + 2
        * len);
    assert(ends(n + 1) == ends(n) + len) by {
        if n % 2 == 0 {
            assert((n + 1) / 2 == half && (n + 1) % 2 == 1);
        } else {
            assert((n + 1) / 2 == half + 1 && (n + 1) % 2 == 0);
        }
    }
    if n > 0 {
        lemma_ends_grow(seed, len, n - 1);
    }
    assert forall|j: int| 0 <= j <= n implies 0 <= #[trigger] ends(j) <= ends(n) by {
        if j < n {
            assert(0 <= ends(j) <= ends(n - 1));
        }
    }
}

/// A fill after what was done before adds no mismatch.
proof fn lemma_fill_finds_nothing(
    prior: Seq<memory::Step>,
    words: spec_fn(int) -> u64,
    len: int,
    rest: Seq<memory::Step>,
    done: Seq<memory::Access>,
    filled: Seq<memory::Access>,
    base: int,
)
    requires
        0 <= len,
        done.len() == prior.len(),
        filled.len() == len,
        memory::performs(ops::fill_script(words, len), filled),
    ensures
        memory::mismatches(prior + ops::round_script(words, len) + rest, done + filled, base)
            == memory::mismatches(prior, done, base),
{
    let fill = ops::fill_script(words, len);
    let check = ops::verify_script(words, len);
    ops::lemma_fill_has_no_mismatch(words, len, filled, base);
    memory::lemma_mismatches_concat(prior, done, fill, filled, base);
    memory::lemma_mismatches_of_prefix(prior + fill, check + rest, done + filled, base);
    assert(prior + fill + (check + rest) =~= prior + ops::round_script(words, len) + rest);
    assert(memory::mismatches(prior, done, base) + Seq::<Failure>::empty() =~= memory::mismatches(
        prior,
        done,
        base,
    ));
}

/// Announce the end of a sub-pass and find out whether to go on: not once the
/// budget is used up, nor when the operator asks for a stop.
fn end_subpass<N: Monitor>(monitor: &mut N, budget: &FailureBudget) -> (stop: bool)
    ensures
        memory::extends(old(monitor).log(), final(monitor).log()),
        memory::subpasses(memory::since(old(monitor).log(), final(monitor).log())) == 1,
        memory::since(old(monitor).log(), final(monitor).log()) == (if budget.slots() == 0 {
            seq![memory::Signal::Subpass]
        } else {
            seq![memory::Signal::Subpass, memory::Signal::Poll { quit: stop }]
        }),
        stop == (budget.slots() == 0 || memory::quits(
            memory::since(old(monitor).log(), final(monitor).log()),
        )),
{
    let ghost log0 = monitor.log();
    monitor.subpass();
    proof {
        lemma_subpass(Seq::empty());
        memory::lemma_ran_nothing(0, *budget);
        assert(memory::since(log0, monitor.log()) =~= Seq::empty().push(memory::Signal::Subpass));
        assert(monitor.log().take(log0.len() as int) =~= log0);
    }
    if budget.is_exhausted() {
        return true;
    }
    let ghost said = memory::since(log0, monitor.log());
    let ghost log1 = monitor.log();
    let quit: bool = monitor.quit_requested();
    proof {
        lemma_poll(said, quit);
        assert(memory::since(log0, monitor.log()) =~= said.push(memory::Signal::Poll { quit }));
        assert(memory::since(log0, monitor.log()) =~= seq![
            memory::Signal::Subpass,
            memory::Signal::Poll { quit },
        ]);
        assert(monitor.log().take(log0.len() as int) =~= log1.take(log0.len() as int));
    }
    quit
}

/// Run `passes` seeded fill-and-check rounds. The operator hears of each fill
/// and of each check that ended.
#[verifier::rlimit(60)]
pub fn run<M: Memory, N: Monitor>(
    mem: &mut M,
    monitor: &mut N,
    seed: u64,
    passes: usize,
    budget: &mut FailureBudget,
) -> (failures: Vec<Failure>)
    ensures
        final(mem).size() == old(mem).size(),
        final(mem).base() == old(mem).base(),
        memory::extends(old(mem).trace(), final(mem).trace()),
        memory::extends(old(monitor).log(), final(monitor).log()),
        memory::ran(
            random_script(seed, old(mem).size(), passes as int),
            2 * passes,
            old(mem).base(),
            *old(budget),
            *final(budget),
            memory::since(old(mem).trace(), final(mem).trace()),
            memory::since(old(monitor).log(), final(monitor).log()),
            failures@,
        ),
        memory::heeds(
            random_script(seed, old(mem).size(), passes as int),
            random_ends(seed, old(mem).size()),
            2 * passes,
            false,
            old(mem).base(),
            old(budget).slots(),
            memory::since(old(mem).trace(), final(mem).trace()),
            memory::since(old(monitor).log(), final(monitor).log()),
        ),
{
    let ghost trace0 = mem.trace();
    let ghost log0 = monitor.log();
    let ghost budget0 = *budget;
    let ghost slots = budget.slots();
    let len: usize = mem.word_count();
    let ghost base = mem.base();
    let ghost script = random_script(seed, len as int, passes as int);
    let ghost ends = random_ends(seed, len as int);
    let mut failures: Vec<Failure> = Vec::new();
    let mut master = Stream::new(seed);
    let mut pass: usize = 0;
    proof {
        memory::lemma_since_self(trace0);
        memory::lemma_since_self(log0);
        memory::lemma_ran_nothing(base, budget0);
        assert(failures@ =~= Seq::empty());
        assert(0 * vstd::arithmetic::power2::pow2(192) == 0) by (nonlinear_arith);
        memory::lemma_may_begin(script, ends, base, slots);
        if passes == 0 {
            memory::lemma_heeds_nothing(script, ends, 0, false, base, slots);
        }
    }
    while pass < passes
        invariant
            pass <= passes,
            slots == budget0.slots(),
            script == random_script(seed, len as int, passes as int),
            ends == random_ends(seed, len as int),
            pass < passes ==> memory::may_go_on(
                script,
                ends,
                false,
                base,
                slots,
                memory::since(trace0, mem.trace()),
                memory::since(log0, monitor.log()),
                2 * pass,
            ),
            pass == passes ==> memory::heeds(
                script,
                ends,
                2 * passes,
                false,
                base,
                slots,
                memory::since(trace0, mem.trace()),
                memory::since(log0, monitor.log()),
            ),
            len == mem.size(),
            base == mem.base(),
            trace0 == old(mem).trace(),
            log0 == old(monitor).log(),
            budget0 == *old(budget),
            len == old(mem).size(),
            base == old(mem).base(),
            master.seed() == seed,
            master.drawn() == pass * vstd::arithmetic::power2::pow2(192),
            memory::extends(trace0, mem.trace()),
            memory::extends(log0, monitor.log()),
            memory::subpasses(memory::since(log0, monitor.log())) == 2 * pass,
            memory::since(trace0, mem.trace()).len() == random_script(
                seed,
                len as int,
                pass as int,
            ).len(),
            memory::ran(
                random_script(seed, len as int, pass as int),
                2 * pass,
                base,
                budget0,
                *budget,
                memory::since(trace0, mem.trace()),
                memory::since(log0, monitor.log()),
                failures@,
            ),
        decreases passes - pass,
    {
        let root = master.duplicate();
        master.long_jump();
        let ghost words = pass_words(seed, pass as int);
        let ghost script1 = random_script(seed, len as int, pass as int);
        let ghost round = ops::round_script(words, len as int);
        let ghost script2 = random_script(seed, len as int, pass + 1);
        let ghost trace1 = mem.trace();
        let ghost log1 = monitor.log();
        let ghost budget1 = *budget;
        let ghost kept1 = failures@;
        proof {
            assert(pass * vstd::arithmetic::power2::pow2(192) + vstd::arithmetic::power2::pow2(192)
                == (pass + 1) * vstd::arithmetic::power2::pow2(192)) by (nonlinear_arith);
            assert(script2 == script1 + round);
        }
        fill_pass(mem, monitor, RandomWords::new(&root));
        let ghost trace2 = mem.trace();
        let ghost log2 = monitor.log();
        let ghost filled = memory::since(trace1, trace2);
        let stop: bool = end_subpass(monitor, budget);
        let ghost log3 = monitor.log();
        proof {
            ops::lemma_chunk_signals_quiet(len as int, ops::chunk_count(len as int));
            memory::lemma_since_since(log1, log2, log3);
            memory::lemma_subpasses_concat(memory::since(log1, log2), memory::since(log2, log3));
            memory::lemma_quits_concat(memory::since(log1, log2), memory::since(log2, log3));
            memory::lemma_since_since(trace0, trace1, trace2);
            memory::lemma_since_since(log0, log1, log3);
            let quiet = memory::since(log1, log2);
            let polls = memory::since(log2, log3).drop_first();
            let done1 = memory::since(trace0, trace1);
            assert(quiet.push(memory::Signal::Subpass) + polls =~= memory::since(log1, log3));
            lemma_random_grows(seed, len as int, pass + 1, passes as int);
            lemma_fill_finds_nothing(
                script1,
                words,
                len as int,
                script.skip(script2.len() as int),
                done1,
                filled,
                base,
            );
            assert(script1 + round + script.skip(script2.len() as int) =~= script);
            lemma_ends_grow(seed, len as int, 2 * pass);
            memory::lemma_quiet_obedient(quiet);
            memory::lemma_heeds_step(
                script,
                ends,
                2 * passes,
                false,
                base,
                slots,
                done1,
                memory::since(log0, log1),
                2 * pass,
                filled,
                quiet,
                polls,
            );
            if !stop {
                assert(polls =~= seq![memory::Signal::Poll { quit: false }]);
                assert(memory::may_go_on(
                    script,
                    ends,
                    false,
                    base,
                    slots,
                    memory::since(trace0, trace2),
                    memory::since(log0, log3),
                    2 * pass + 1,
                ));
            }
        }
        if stop {
            proof {
                let said = memory::since(log1, log3);
                let fill = ops::fill_script(words, len as int);
                let check = ops::verify_script(words, len as int);
                ops::lemma_fill_has_no_mismatch(words, len as int, filled, base);
                memory::lemma_mismatches_of_prefix(fill, check, filled, base);
                assert forall|k: int| 0 <= k < filled.len() implies memory::obeys(
                    round[k],
                    #[trigger] filled[k],
                ) by {
                    assert(memory::obeys(fill[k], filled[k]));
                }
                assert(Seq::<Failure>::empty().take(0) =~= Seq::<Failure>::empty());
                assert(memory::ran(
                    round,
                    2,
                    base,
                    budget1,
                    *budget,
                    filled,
                    said,
                    Seq::<Failure>::empty(),
                ));
                memory::lemma_ran_both(
                    script1,
                    2 * pass,
                    round,
                    2,
                    base,
                    budget0,
                    budget1,
                    *budget,
                    memory::since(trace0, trace1),
                    memory::since(log0, log1),
                    kept1,
                    filled,
                    said,
                    Seq::<Failure>::empty(),
                );
                assert(kept1 =~= kept1 + Seq::<Failure>::empty());
                lemma_random_grows(seed, len as int, pass + 1, passes as int);
                memory::lemma_ran_early(
                    script2,
                    random_script(seed, len as int, passes as int).skip(script2.len() as int),
                    2 * (pass + 1),
                    2 * (passes - (pass + 1)),
                    base,
                    budget0,
                    *budget,
                    memory::since(trace0, mem.trace()),
                    memory::since(log0, monitor.log()),
                    failures@,
                );
            }
            return failures;
        }
        let mut found = verify_pass(mem, monitor, RandomWords::new(&root), true, budget);
        let ghost fresh_kept = found@;
        failures.append(&mut found);
        let ghost trace4 = mem.trace();
        let ghost log4 = monitor.log();
        let ghost read = memory::since(trace2, trace4);
        let stop: bool = end_subpass(monitor, budget);
        let ghost log5 = monitor.log();
        proof {
            let said = memory::since(log1, log5);
            ops::lemma_chunk_signals_quiet(len as int, ops::chunk_count(read.len() as int));
            memory::lemma_since_since(log3, log4, log5);
            memory::lemma_subpasses_concat(memory::since(log3, log4), memory::since(log4, log5));
            memory::lemma_quits_concat(memory::since(log3, log4), memory::since(log4, log5));
            memory::lemma_since_since(log1, log3, log5);
            memory::lemma_subpasses_concat(memory::since(log1, log3), memory::since(log3, log5));
            memory::lemma_quits_concat(memory::since(log1, log3), memory::since(log3, log5));
            ops::lemma_round_parts(
                words,
                len as int,
                base,
                true,
                budget1,
                *budget,
                filled,
                read,
                memory::since(log3, log4),
                fresh_kept,
            );
            memory::lemma_since_since(trace1, trace2, trace4);
            memory::lemma_since_since(trace0, trace1, trace4);
            memory::lemma_since_since(log0, log1, log5);
            assert(failures@ =~= kept1 + fresh_kept);
            assert(memory::ran(
                round,
                2,
                base,
                budget1,
                *budget,
                filled + read,
                said,
                fresh_kept,
            ));
            memory::lemma_ran_both(
                script1,
                2 * pass,
                round,
                2,
                base,
                budget0,
                budget1,
                *budget,
                memory::since(trace0, trace1),
                memory::since(log0, log1),
                kept1,
                filled + read,
                said,
                fresh_kept,
            );
            let quiet = memory::since(log3, log4);
            let polls = memory::since(log4, log5).drop_first();
            let done2 = memory::since(trace0, trace2);
            assert(quiet.push(memory::Signal::Subpass) + polls =~= memory::since(log3, log5));
            memory::lemma_since_since(log0, log3, log5);
            memory::lemma_since_since(trace0, trace2, trace4);
            lemma_random_grows(seed, len as int, pass + 1, passes as int);
            memory::lemma_mismatches_of_prefix(
                script2,
                script.skip(script2.len() as int),
                done2 + read,
                base,
            );
            lemma_ends_grow(seed, len as int, 2 * pass + 1);
            memory::lemma_quiet_obedient(quiet);
            memory::lemma_heeds_step(
                script,
                ends,
                2 * passes,
                false,
                base,
                slots,
                done2,
                memory::since(log0, log3),
                2 * pass + 1,
                read,
                quiet,
                polls,
            );
            if !stop {
                assert(polls =~= seq![memory::Signal::Poll { quit: false }]);
            }
            if stop {
                lemma_random_grows(seed, len as int, pass + 1, passes as int);
                memory::lemma_ran_early(
                    script2,
                    random_script(seed, len as int, passes as int).skip(script2.len() as int),
                    2 * (pass + 1),
                    2 * (passes - (pass + 1)),
                    base,
                    budget0,
                    *budget,
                    memory::since(trace0, mem.trace()),
                    memory::since(log0, monitor.log()),
                    failures@,
                );
            }
        }
        pass = pass + 1;
        if stop {
            return failures;
        }
    }
    failures
}

/// Where in the sequence of a seed word `i` of a pass is drawn.
pub open spec fn word_place(pass: int, i: int) -> nat {
    (pass * vstd::arithmetic::power2::pow2(192) + (i / 65536) * vstd::arithmetic::power2::pow2(128)
        + i % 65536) as nat
}

/// Each word of each pass is drawn from a place of its own in the sequence of the seed.
pub proof fn law_every_word_is_drawn_once(seed: u64, pass: int, i: int, other: int, j: int)
    requires
        0 <= pass,
        0 <= other,
        0 <= i < 0x1_0000_0000_0000_0000,
        0 <= j < 0x1_0000_0000_0000_0000,
    ensures
        (pass_words(seed, pass))(i) == xoshiro_word(seed, word_place(pass, i)),
        word_place(pass, i) == word_place(other, j) ==> pass == other && i == j,
{
    let a = vstd::arithmetic::power2::pow2(128) as int;
    let b = vstd::arithmetic::power2::pow2(192) as int;
    vstd::arithmetic::power2::lemma_pow2_adds(64, 128);
    vstd::arithmetic::power2::lemma_pow2_adds(64, 64);
    vstd::arithmetic::power2::lemma2_to64();
    assert(a == 0x1_0000_0000_0000_0000 * 0x1_0000_0000_0000_0000);
    assert(b == 0x1_0000_0000_0000_0000 * a);
    let c = i / 65536;
    let d = j / 65536;
    let r = i % 65536;
    let t = j % 65536;
    assert(0 <= c < 0x1_0000_0000_0000_0000);
    assert(0 <= d < 0x1_0000_0000_0000_0000);
    assert(pass * b >= 0) by (nonlinear_arith)
        requires
            pass >= 0,
            b >= 0,
    ;
    assert(other * b >= 0) by (nonlinear_arith)
        requires
            other >= 0,
            b >= 0,
    ;
    if pass < other {
        assert(other * b >= pass * b + b) by (nonlinear_arith)
            requires
                pass < other,
                b >= 0,
        ;
    } else if other < pass {
        assert(pass * b >= other * b + b) by (nonlinear_arith)
            requires
                other < pass,
                b >= 0,
        ;
    }
}

} // verus!
