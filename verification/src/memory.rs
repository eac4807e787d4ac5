//! The memory under test, the operator watching a test, and what it means for
//! a test to have run.
//!
//! Memory under test may be broken: a read may give back anything. So a test
//! is not specified by the contents that it leaves behind but by the accesses
//! that it makes. A test is a *script*, a sequence of [`Step`]s; running it on a
//! [`Memory`] yields a *trace* of [`Access`]es; what the test reports are the
//! [`mismatches`]: the reads in the trace that did not give back the word that
//! the script expects there.

use vstd::prelude::*;

use crate::failure::{self, at_most, Failure, FailureBudget};

verus! {

/// One access that was made to a memory under test.
#[verifier::ext_equal]
pub enum Access {
    /// A word was stored at a word index.
    Write {
        /// Word index.
        index: int,
        /// Word stored.
        word: u64,
    },
    /// A word was loaded from a word index.
    Read {
        /// Word index.
        index: int,
        /// Word that came back.
        word: u64,
    },
}

/// One access that a test prescribes.
#[verifier::ext_equal]
pub enum Step {
    /// Store a word at a word index.
    Write {
        /// Word index.
        index: int,
        /// Word to store.
        word: u64,
    },
    /// Load from a word index, expecting a word.
    Read {
        /// Word index.
        index: int,
        /// Word that sound memory gives back.
        expected: u64,
    },
}

/// A memory under test: words that can be stored to and loaded from, one at a
/// time and in the order of the calls.
///
/// Nothing is promised of what a load gives back. Each kind of memory says for
/// itself what `size`, `base` and `trace` are; ordinary Rust code, which has no
/// ghost state to keep, may leave that out.
pub trait Memory {
    /// Number of words.
    open spec fn size(&self) -> int {
        0
    }

    /// Virtual address of the first word.
    open spec fn base(&self) -> int {
        0
    }

    /// Every access made so far, oldest first.
    open spec fn trace(&self) -> Seq<Access> {
        Seq::empty()
    }

    /// Number of words.
    fn word_count(&self) -> (n: usize)
        ensures
            n == self.size(),
    ;

    /// Virtual address of the first word. The words that follow it are all
    /// addressable.
    fn base_addr(&self) -> (addr: usize)
        ensures
            addr == self.base(),
            self.base() + self.size() * 8 <= usize::MAX + 1,
    ;

    /// Store `word` at `index`.
    fn write(&mut self, index: usize, word: u64)
        requires
            index < old(self).size(),
        ensures
            final(self).size() == old(self).size(),
            final(self).base() == old(self).base(),
            final(self).trace() == old(self).trace().push(
                Access::Write { index: index as int, word },
            ),
    ;

    /// Load the word at `index`.
    fn read(&mut self, index: usize) -> (word: u64)
        requires
            index < old(self).size(),
        ensures
            final(self).size() == old(self).size(),
            final(self).base() == old(self).base(),
            final(self).trace() == old(self).trace().push(
                Access::Read { index: index as int, word },
            ),
    ;
}

/// One thing said between a running test and its operator.
#[verifier::ext_equal]
pub enum Signal {
    /// A sub-pass of the test came to its end.
    Subpass,
    /// The test is at word `index` of `total`.
    Activity {
        /// Word index reached.
        index: int,
        /// Number of words.
        total: int,
    },
    /// The test asked whether to stop, and was told.
    Poll {
        /// The answer.
        quit: bool,
    },
}

/// The operator of a running test: hears of its progress and may ask it to
/// stop.
///
/// Nothing is promised of when a stop is asked for. Each kind of monitor says for
/// itself what `log` is, unless it is ordinary Rust code.
pub trait Monitor {
    /// Everything said so far, oldest first.
    open spec fn log(&self) -> Seq<Signal> {
        Seq::empty()
    }

    /// A sub-pass came to its end.
    fn subpass(&mut self)
        ensures
            final(self).log() == old(self).log().push(Signal::Subpass),
    ;

    /// The test is at word `index` of `total`.
    fn activity(&mut self, index: usize, total: usize)
        ensures
            final(self).log() == old(self).log().push(
                Signal::Activity { index: index as int, total: total as int },
            ),
    ;

    /// Whether the test should stop.
    fn quit_requested(&mut self) -> (quit: bool)
        ensures
            final(self).log() == old(self).log().push(Signal::Poll { quit }),
    ;
}

/// What came after `earlier` in `later`.
pub open spec fn since<T>(earlier: Seq<T>, later: Seq<T>) -> Seq<T> {
    later.skip(earlier.len() as int)
}

/// Whether `later` is `earlier` with something added at the end.
pub open spec fn extends<T>(earlier: Seq<T>, later: Seq<T>) -> bool {
    earlier.len() <= later.len() && later.take(earlier.len() as int) == earlier
}

/// Whether the access is the one that the step prescribes.
pub open spec fn obeys(step: Step, access: Access) -> bool {
    match (step, access) {
        (
            Step::Write { index: i, word: w },
            Access::Write { index: j, word: v },
        ) => i == j && w == v,
        (Step::Read { index: i, .. }, Access::Read { index: j, .. }) => i == j,
        _ => false,
    }
}

/// Whether `done` is the beginning of `script`, step by step.
pub open spec fn performs(script: Seq<Step>, done: Seq<Access>) -> bool {
    &&& done.len() <= script.len()
    &&& forall|k: int| 0 <= k < done.len() ==> obeys(script[k], #[trigger] done[k])
}

/// The record of a word that should have been `expected`.
pub open spec fn failure_at(base: int, index: int, expected: u64, actual: u64) -> Failure {
    Failure {
        addr: (base + index * 8) as usize,
        expected,
        actual,
        word_index: index as usize,
        phys_addr: None,
    }
}

/// What one access reports: a read that gave back another word than expected.
pub open spec fn mismatch(step: Step, access: Access, base: int) -> Seq<Failure> {
    match (step, access) {
        (Step::Read { index, expected }, Access::Read { word, .. }) => if word != expected {
            seq![failure_at(base, index, expected, word)]
        } else {
            Seq::empty()
        },
        _ => Seq::empty(),
    }
}

/// Every read of `done` that gave back another word than `script` expects
/// there, in order.
pub open spec fn mismatches(script: Seq<Step>, done: Seq<Access>, base: int) -> Seq<Failure>
    decreases done.len(),
{
    if done.len() == 0 {
        Seq::empty()
    } else {
        mismatches(script, done.drop_last(), base) + mismatch(
            script[done.len() - 1],
            done.last(),
            base,
        )
    }
}

/// What a budget makes of the failures found: as many as it has slots are kept,
/// the slots are used up, and a failure dropped is remembered.
pub open spec fn settles(
    before: FailureBudget,
    after: FailureBudget,
    found: Seq<Failure>,
    kept: Seq<Failure>,
) -> bool {
    failure::capped(before, after, found, kept)
}

/// Whether the operator asked for a stop.
pub open spec fn quits(signals: Seq<Signal>) -> bool {
    exists|k: int| 0 <= k < signals.len() && #[trigger] signals[k] == (Signal::Poll { quit: true })
}

/// How many sub-passes came to their end.
pub open spec fn subpasses(signals: Seq<Signal>) -> int
    decreases signals.len(),
{
    if signals.len() == 0 {
        0
    } else {
        subpasses(signals.drop_last()) + (if signals.last() == Signal::Subpass {
            1int
        } else {
            0int
        })
    }
}

/// Only the beginning of a script matters to what has been done of it.
pub proof fn lemma_mismatches_of_prefix(
    script: Seq<Step>,
    more: Seq<Step>,
    done: Seq<Access>,
    base: int,
)
    requires
        done.len() <= script.len(),
    ensures
        mismatches(script + more, done, base) == mismatches(script, done, base),
    decreases done.len(),
{
    if done.len() > 0 {
        lemma_mismatches_of_prefix(script, more, done.drop_last(), base);
        assert((script + more)[done.len() - 1] == script[done.len() - 1]);
    }
}

/// The mismatches of two scripts run one after the other are those of the first
/// followed by those of the second.
pub proof fn lemma_mismatches_concat(
    first: Seq<Step>,
    first_done: Seq<Access>,
    second: Seq<Step>,
    second_done: Seq<Access>,
    base: int,
)
    requires
        first.len() == first_done.len(),
        second_done.len() <= second.len(),
    ensures
        mismatches(first + second, first_done + second_done, base) == mismatches(
            first,
            first_done,
            base,
        ) + mismatches(second, second_done, base),
    decreases second_done.len(),
{
    let both = first_done + second_done;
    if second_done.len() == 0 {
        assert(both =~= first_done);
        lemma_mismatches_of_prefix(first, second, first_done, base);
        assert(mismatches(second, second_done, base) =~= Seq::empty());
    } else {
        lemma_mismatches_concat(first, first_done, second, second_done.drop_last(), base);
        assert(both.drop_last() =~= first_done + second_done.drop_last());
        assert((first + second)[both.len() - 1] == second[second_done.len() - 1]);
        assert(mismatches(first + second, both, base) =~= mismatches(first, first_done, base)
            + mismatches(second, second_done, base));
    }
}

/// Two scripts performed one after the other perform the joined script.
pub proof fn lemma_performs_concat(
    first: Seq<Step>,
    first_done: Seq<Access>,
    second: Seq<Step>,
    second_done: Seq<Access>,
)
    requires
        first.len() == first_done.len(),
        performs(first, first_done),
        performs(second, second_done),
    ensures
        performs(first + second, first_done + second_done),
{
    let script = first + second;
    let both = first_done + second_done;
    assert forall|k: int| 0 <= k < both.len() implies obeys(script[k], #[trigger] both[k]) by {
        if k < first.len() {
            assert(obeys(first[k], first_done[k]));
        } else {
            assert(obeys(second[k - first.len()], second_done[k - first.len()]));
        }
    }
}

/// A longer trace of a script has the mismatches of a shorter one and maybe
/// more.
pub proof fn lemma_mismatches_grow(script: Seq<Step>, done: Seq<Access>, n: int, base: int)
    requires
        0 <= n <= done.len(),
    ensures
        mismatches(script, done.take(n), base).len() <= mismatches(script, done, base).len(),
        mismatches(script, done, base).take(
            mismatches(script, done.take(n), base).len() as int,
        ) == mismatches(script, done.take(n), base),
    decreases done.len(),
{
    if n == done.len() {
        assert(done.take(n) =~= done);
        assert(mismatches(script, done, base) =~= mismatches(script, done, base).take(
            mismatches(script, done, base).len() as int,
        ));
    } else {
        let rest = done.drop_last();
        lemma_mismatches_grow(script, rest, n, base);
        assert(rest.take(n) =~= done.take(n));
        let shorter = mismatches(script, done.take(n), base);
        assert(mismatches(script, done, base).take(shorter.len() as int) =~= mismatches(
            script,
            rest,
            base,
        ).take(shorter.len() as int));
    }
}

/// Two budgeted runs, one after the other, come to one budgeted run over all
/// that was found.
pub proof fn lemma_settles_compose(
    before: FailureBudget,
    between: FailureBudget,
    after: FailureBudget,
    found1: Seq<Failure>,
    kept1: Seq<Failure>,
    found2: Seq<Failure>,
    kept2: Seq<Failure>,
)
    requires
        before.slots() >= 0,
        settles(before, between, found1, kept1),
        settles(between, after, found2, kept2),
    ensures
        settles(before, after, found1 + found2, kept1 + kept2),
{
    let found = found1 + found2;
    if found1.len() > before.slots() {
        assert(found.take(at_most(found.len() as int, before.slots())) =~= kept1 + kept2);
    } else {
        assert(kept1 =~= found1);
        assert(found.take(at_most(found.len() as int, before.slots())) =~= kept1 + kept2);
    }
}

/// Signals of two stretches of a run count together.
pub proof fn lemma_subpasses_concat(a: Seq<Signal>, b: Seq<Signal>)
    ensures
        subpasses(a + b) == subpasses(a) + subpasses(b),
    decreases b.len(),
{
    if b.len() == 0 {
        assert(a + b =~= a);
    } else {
        lemma_subpasses_concat(a, b.drop_last());
        assert((a + b).drop_last() =~= a + b.drop_last());
    }
}

/// A stop was asked for in a run if it was in one of its stretches.
pub proof fn lemma_quits_concat(a: Seq<Signal>, b: Seq<Signal>)
    ensures
        quits(a + b) == (quits(a) || quits(b)),
{
    let both = a + b;
    if quits(both) {
        let k = choose|k: int|
            0 <= k < both.len() && #[trigger] both[k] == (Signal::Poll { quit: true });
        if k < a.len() {
            assert(a[k] == Signal::Poll { quit: true });
        } else {
            assert(b[k - a.len()] == Signal::Poll { quit: true });
        }
    }
    if quits(a) {
        let k = choose|k: int|
            0 <= k < a.len() && #[trigger] a[k] == (Signal::Poll { quit: true });
        assert(both[k] == Signal::Poll { quit: true });
    }
    if quits(b) {
        let k = choose|k: int|
            0 <= k < b.len() && #[trigger] b[k] == (Signal::Poll { quit: true });
        assert(both[a.len() + k] == Signal::Poll { quit: true });
    }
}

/// A budget has no fewer than zero slots.
pub broadcast proof fn lemma_slots_nonnegative(budget: FailureBudget)
    ensures
        #[trigger] budget.slots() >= 0,
        budget.slots() <= usize::MAX,
{
    crate::failure::lemma_slots_range(budget);
}

/// Whether a run of `script`, which has `passes` sub-passes, went as it should:
/// it made the accesses that the script prescribes, in order; it kept the
/// mismatches, as many as the budget holds; and it only left something out
/// after the operator asked for a stop or once the budget was used up.
pub open spec fn ran(
    script: Seq<Step>,
    passes: int,
    base: int,
    before: FailureBudget,
    after: FailureBudget,
    done: Seq<Access>,
    signals: Seq<Signal>,
    kept: Seq<Failure>,
) -> bool {
    &&& performs(script, done)
    &&& settles(before, after, mismatches(script, done, base), kept)
    &&& subpasses(signals) <= passes
    &&& done.len() < script.len() || subpasses(signals) < passes ==> quits(signals)
        || after.slots() == 0
}

/// Whether a sub-pass came to its end with signal `k`.
pub open spec fn ends_subpass(signals: Seq<Signal>, k: int) -> bool {
    0 <= k < signals.len() && signals[k] == Signal::Subpass
}

/// Whether a stop was asked for with signal `k`.
pub open spec fn asks_stop(signals: Seq<Signal>, k: int) -> bool {
    0 <= k < signals.len() && signals[k] == (Signal::Poll { quit: true })
}

/// Whether between any two sub-passes the test asked whether to stop, as soon as
/// the first of them had ended, and was told to go on.
pub open spec fn spaced(signals: Seq<Signal>) -> bool {
    forall|k: int, m: int|
        k < m && #[trigger] ends_subpass(signals, k) && #[trigger] ends_subpass(signals, m)
            ==> signals[k + 1] == (Signal::Poll { quit: false })
}

/// Whether the test stopped when it was asked to: nothing is said after that, but
/// that the sub-pass in which it was asked came to its end.
pub open spec fn obedient(signals: Seq<Signal>) -> bool {
    forall|k: int| #[trigger]
        asks_stop(signals, k) ==> {
            ||| k == signals.len() - 1
            ||| 0 < k == signals.len() - 2 && signals[k - 1] is Activity && signals.last()
                == Signal::Subpass
        }
}

/// How many mismatches were found before sub-pass `j`, from zero, when the first
/// `j` sub-passes take `ends(j)` steps.
pub open spec fn found_before(
    script: Seq<Step>,
    ends: spec_fn(int) -> int,
    base: int,
    done: Seq<Access>,
    j: int,
) -> int {
    mismatches(script, done.take(ends(j)), base).len() as int
}

/// Whether a run of `script` stopped when it should. The script has `passes`
/// sub-passes, the first `j` of which take `ends(j)` steps.
///
/// No sub-pass is begun once the budget is used up or after the operator asked
/// for a stop, and the operator is asked between any two of them. This holds of
/// the first sub-pass too if `first`; otherwise it is begun in any case. Each
/// sub-pass is done to its end but for the last one begun, which is cut short
/// only when the budget is used up or when a stop is asked for in its midst.
pub open spec fn heeds(
    script: Seq<Step>,
    ends: spec_fn(int) -> int,
    passes: int,
    first: bool,
    base: int,
    slots: int,
    done: Seq<Access>,
    signals: Seq<Signal>,
) -> bool {
    let begun = subpasses(signals);
    &&& begun <= passes
    &&& begun == 0 ==> done.len() == 0
    &&& begun == 0 && passes > 0 ==> first
    &&& begun > 0 ==> ends(begun - 1) <= done.len() <= ends(begun)
    &&& begun > 0 && first ==> signals[0] == (Signal::Poll { quit: false })
    &&& begun > 0 && done.len() < ends(begun) ==> {
        ||| mismatches(script, done, base).len() >= slots
        ||| quits(signals) && signals.last() == Signal::Subpass
    }
    &&& forall|j: int|
        0 <= j < begun && (j > 0 || first) ==> #[trigger] found_before(script, ends, base, done, j)
            < slots
    &&& spaced(signals)
    &&& obedient(signals)
}

/// Whether `n` sub-passes were done to their end and another may begin.
pub open spec fn may_go_on(
    script: Seq<Step>,
    ends: spec_fn(int) -> int,
    first: bool,
    base: int,
    slots: int,
    done: Seq<Access>,
    signals: Seq<Signal>,
    n: int,
) -> bool {
    &&& subpasses(signals) == n
    &&& done.len() == ends(n)
    &&& !quits(signals)
    &&& first ==> signals.len() > 0 && signals[0] == (Signal::Poll { quit: false })
    &&& forall|k: int| #[trigger]
        ends_subpass(signals, k) ==> k + 1 < signals.len() && signals[k + 1] == (Signal::Poll {
            quit: false,
        })
    &&& forall|j: int|
        0 <= j < n && (j > 0 || first) ==> #[trigger] found_before(script, ends, base, done, j)
            < slots
    &&& n > 0 || first ==> mismatches(script, done, base).len() < slots
}

/// Signals without a sub-pass.
proof fn lemma_no_subpass(signals: Seq<Signal>, k: int)
    requires
        subpasses(signals) == 0,
    ensures
        !ends_subpass(signals, k),
    decreases signals.len(),
{
    lemma_subpasses_nonnegative(signals);
    if signals.len() > 0 {
        lemma_subpasses_nonnegative(signals.drop_last());
        lemma_no_subpass(signals.drop_last(), k);
        if ends_subpass(signals, k) && k < signals.len() - 1 {
            assert(signals.drop_last()[k] == signals[k]);
        }
    }
}

/// Sub-passes are counted from zero.
proof fn lemma_subpasses_nonnegative(signals: Seq<Signal>)
    ensures
        0 <= subpasses(signals),
    decreases signals.len(),
{
    if signals.len() > 0 {
        lemma_subpasses_nonnegative(signals.drop_last());
    }
}

/// What has been found by then does not change as a run goes on.
proof fn lemma_found_before_stable(
    script: Seq<Step>,
    ends: spec_fn(int) -> int,
    base: int,
    done: Seq<Access>,
    fresh: Seq<Access>,
    j: int,
)
    requires
        0 <= ends(j) <= done.len(),
    ensures
        found_before(script, ends, base, done + fresh, j) == found_before(
            script,
            ends,
            base,
            done,
            j,
        ),
{
    assert((done + fresh).take(ends(j)) =~= done.take(ends(j)));
}

/// A run may go on with one more sub-pass, and if that ended well with one more
/// still.
pub proof fn lemma_heeds_step(
    script: Seq<Step>,
    ends: spec_fn(int) -> int,
    passes: int,
    first: bool,
    base: int,
    slots: int,
    done: Seq<Access>,
    signals: Seq<Signal>,
    n: int,
    fresh: Seq<Access>,
    quiet: Seq<Signal>,
    polls: Seq<Signal>,
)
    requires
        may_go_on(script, ends, first, base, slots, done, signals, n),
        0 <= n < passes,
        forall|j: int| 0 <= j <= n ==> 0 <= #[trigger] ends(j) <= ends(n),
        ends(n) + fresh.len() <= ends(n + 1),
        subpasses(quiet) == 0,
        polls.len() <= 1,
        polls.len() == 1 ==> polls[0] is Poll && !quits(quiet),
        obedient(quiet.push(Signal::Subpass)),
        ends(n) + fresh.len() < ends(n + 1) ==> {
            ||| mismatches(script, done + fresh, base).len() >= slots
            ||| quits(quiet) && polls.len() == 0
        },
    ensures
        heeds(
            script,
            ends,
            passes,
            first,
            base,
            slots,
            done + fresh,
            signals + (quiet.push(Signal::Subpass) + polls),
        ),
        ends(n) + fresh.len() == ends(n + 1) && mismatches(script, done + fresh, base).len() < slots
            && polls == seq![Signal::Poll { quit: false }] ==> may_go_on(
            script,
            ends,
            first,
            base,
            slots,
            done + fresh,
            signals + (quiet.push(Signal::Subpass) + polls),
            n + 1,
        ),
{
    let said = quiet.push(Signal::Subpass) + polls;
    let all = signals + said;
    let after = done + fresh;
    let one = seq![Signal::Subpass];
    assert(quiet.push(Signal::Subpass) =~= quiet + one);
    lemma_subpasses_concat(quiet, one);
    lemma_quits_concat(quiet, one);
    assert(one.drop_last() =~= Seq::empty());
    assert(subpasses(one.drop_last()) == 0);
    lemma_subpasses_concat(quiet + one, polls);
    lemma_quits_concat(quiet + one, polls);
    if polls.len() == 1 {
        assert(polls.drop_last() =~= Seq::empty());
        assert(subpasses(polls.drop_last()) == 0);
    }
    assert(subpasses(polls) == 0);
    lemma_subpasses_concat(signals, said);
    lemma_quits_concat(signals, said);
    assert(subpasses(all) == n + 1);
    let at = signals.len() + quiet.len();
    assert(all[at as int] == Signal::Subpass);
    assert forall|k: int| #[trigger] ends_subpass(all, k) implies k == at || (k < signals.len()
        && ends_subpass(signals, k)) by {
        if signals.len() <= k < at {
            lemma_no_subpass(quiet, k - signals.len());
            assert(all[k] == quiet[k - signals.len()]);
        }
    }
    assert forall|k: int, m: int|
        k < m && #[trigger] ends_subpass(all, k) && #[trigger] ends_subpass(all, m) implies all[k
        + 1] == (Signal::Poll { quit: false }) by {
        assert(ends_subpass(signals, k));
        assert(all[k + 1] == signals[k + 1]);
    }
    assert forall|k: int| #[trigger] asks_stop(all, k) implies {
        ||| k == all.len() - 1
        ||| 0 < k == all.len() - 2 && all[k - 1] is Activity && all.last() == Signal::Subpass
    } by {
        if k < signals.len() {
            assert(signals[k] == all[k]);
        } else if k < at {
            let i = k - signals.len();
            let inner = quiet.push(Signal::Subpass);
            assert(all[k] == quiet[i]);
            assert(quits(quiet));
            assert(asks_stop(inner, i));
            assert(all[k - 1] == inner[i - 1]);
        }
    }
    assert forall|j: int| 0 <= j < n + 1 && (j > 0 || first) implies #[trigger] found_before(
        script,
        ends,
        base,
        after,
        j,
    ) < slots by {
        assert(0 <= ends(j) <= ends(n));
        lemma_found_before_stable(script, ends, base, done, fresh, j);
        if j == n {
            assert(done.take(ends(n)) =~= done);
        } else {
            assert(found_before(script, ends, base, done, j) < slots);
        }
    }
    if first {
        assert(all[0] == signals[0]);
    }
    if quits(quiet) && polls.len() == 0 {
        assert(all.last() == Signal::Subpass);
    }
    if polls == seq![Signal::Poll { quit: false }] {
        assert forall|k: int| #[trigger] ends_subpass(all, k) implies k + 1 < all.len() && all[k + 1]
            == (Signal::Poll { quit: false }) by {
            if k < signals.len() {
                assert(ends_subpass(signals, k));
                assert(all[k + 1] == signals[k + 1]);
            }
        }
        assert(!quits(polls));
    }
}

/// A sub-pass in which no stop was asked for.
pub proof fn lemma_quiet_obedient(quiet: Seq<Signal>)
    requires
        !quits(quiet),
    ensures
        obedient(quiet.push(Signal::Subpass)),
{
    let all = quiet.push(Signal::Subpass);
    assert forall|k: int| #[trigger] asks_stop(all, k) implies false by {
        assert(quiet[k] == Signal::Poll { quit: true });
    }
}

/// A run that has begun nothing yet may begin.
pub proof fn lemma_may_begin(
    script: Seq<Step>,
    ends: spec_fn(int) -> int,
    base: int,
    slots: int,
)
    requires
        ends(0) == 0,
    ensures
        may_go_on(script, ends, false, base, slots, Seq::empty(), Seq::empty(), 0),
{
    assert(subpasses(Seq::empty()) == 0);
}

/// A run that asked before it began anything.
pub proof fn lemma_polled_first(
    script: Seq<Step>,
    ends: spec_fn(int) -> int,
    passes: int,
    base: int,
    slots: int,
    quit: bool,
)
    requires
        ends(0) == 0,
        0 < passes,
    ensures
        subpasses(seq![Signal::Poll { quit }]) == 0,
        quits(seq![Signal::Poll { quit }]) == quit,
        heeds(
            script,
            ends,
            passes,
            true,
            base,
            slots,
            Seq::empty(),
            seq![Signal::Poll { quit }],
        ),
        !quit && slots > 0 ==> may_go_on(
            script,
            ends,
            true,
            base,
            slots,
            Seq::empty(),
            seq![Signal::Poll { quit }],
            0,
        ),
{
    let said = seq![Signal::Poll { quit }];
    assert(said.drop_last() =~= Seq::empty());
    assert(subpasses(said.drop_last()) == 0);
    if quit {
        assert(said[0] == Signal::Poll { quit: true });
    }
}

/// A run that begins nothing, for want of slots or of anything to begin.
pub proof fn lemma_heeds_nothing(
    script: Seq<Step>,
    ends: spec_fn(int) -> int,
    passes: int,
    first: bool,
    base: int,
    slots: int,
)
    requires
        0 <= passes,
        first || passes == 0,
    ensures
        heeds(script, ends, passes, first, base, slots, Seq::empty(), Seq::empty()),
{
    assert(subpasses(Seq::empty()) == 0);
}

/// A run that ended early is also a run of a longer script.
pub proof fn lemma_ran_early(
    script: Seq<Step>,
    more: Seq<Step>,
    passes: int,
    more_passes: int,
    base: int,
    before: FailureBudget,
    after: FailureBudget,
    done: Seq<Access>,
    signals: Seq<Signal>,
    kept: Seq<Failure>,
)
    requires
        ran(script, passes, base, before, after, done, signals, kept),
        quits(signals) || after.slots() == 0,
        more_passes >= 0,
    ensures
        ran(script + more, passes + more_passes, base, before, after, done, signals, kept),
{
    lemma_mismatches_of_prefix(script, more, done, base);
    assert forall|k: int| 0 <= k < done.len() implies obeys(
        (script + more)[k],
        #[trigger] done[k],
    ) by {
        assert(obeys(script[k], done[k]));
    }
}

/// A complete run followed by another run is a run of both scripts.
pub proof fn lemma_ran_both(
    script1: Seq<Step>,
    passes1: int,
    script2: Seq<Step>,
    passes2: int,
    base: int,
    before: FailureBudget,
    between: FailureBudget,
    after: FailureBudget,
    done1: Seq<Access>,
    signals1: Seq<Signal>,
    kept1: Seq<Failure>,
    done2: Seq<Access>,
    signals2: Seq<Signal>,
    kept2: Seq<Failure>,
)
    requires
        ran(script1, passes1, base, before, between, done1, signals1, kept1),
        ran(script2, passes2, base, between, after, done2, signals2, kept2),
        done1.len() == script1.len(),
        subpasses(signals1) == passes1,
    ensures
        ran(
            script1 + script2,
            passes1 + passes2,
            base,
            before,
            after,
            done1 + done2,
            signals1 + signals2,
            kept1 + kept2,
        ),
        subpasses(signals1 + signals2) == subpasses(signals1) + subpasses(signals2),
        quits(signals1 + signals2) == (quits(signals1) || quits(signals2)),
{
    lemma_performs_concat(script1, done1, script2, done2);
    lemma_mismatches_concat(script1, done1, script2, done2, base);
    lemma_slots_nonnegative(before);
    lemma_settles_compose(
        before,
        between,
        after,
        mismatches(script1, done1, base),
        kept1,
        mismatches(script2, done2, base),
        kept2,
    );
    lemma_subpasses_concat(signals1, signals2);
    lemma_quits_concat(signals1, signals2);
}

/// A run that has done nothing yet.
pub proof fn lemma_ran_nothing(base: int, budget: FailureBudget)
    ensures
        ran(
            Seq::empty(),
            0,
            base,
            budget,
            budget,
            Seq::empty(),
            Seq::empty(),
            Seq::<Failure>::empty(),
        ),
        subpasses(Seq::empty()) == 0,
        !quits(Seq::empty()),
{
    lemma_slots_nonnegative(budget);
    assert(Seq::<Failure>::empty().take(0) =~= Seq::empty());
}

/// What was added in two goes is what was added first and what was added then.
pub proof fn lemma_since_since<T>(a: Seq<T>, b: Seq<T>, c: Seq<T>)
    requires
        extends(a, b),
        extends(b, c),
    ensures
        extends(a, c),
        since(a, c) == since(a, b) + since(b, c),
{
    assert(c.take(a.len() as int) =~= b.take(a.len() as int));
    assert(since(a, c) =~= since(a, b) + since(b, c));
}

/// One more entry extends a record, and is the last of what was added.
pub proof fn lemma_extends_push<T>(a: Seq<T>, b: Seq<T>, x: T)
    requires
        extends(a, b),
    ensures
        extends(a, b.push(x)),
        since(a, b.push(x)) == since(a, b).push(x),
{
    assert(b.push(x).take(a.len() as int) =~= b.take(a.len() as int));
    assert(since(a, b.push(x)) =~= since(a, b).push(x));
}

/// Nothing has been added yet.
pub proof fn lemma_since_self<T>(a: Seq<T>)
    ensures
        extends(a, a),
        since(a, a) == Seq::<T>::empty(),
{
    assert(a.take(a.len() as int) =~= a);
    assert(since(a, a) =~= Seq::empty());
}

/// The word index that a step is about.
pub open spec fn step_at(step: Step) -> int {
    match step {
        Step::Write { index, .. } => index,
        Step::Read { index, .. } => index,
    }
}

/// Where the mismatches of a trace come from: one read each, in order, and every
/// wrong read is among them.
proof fn lemma_mismatches_come_from(
    script: Seq<Step>,
    done: Seq<Access>,
    base: int,
    size: int,
) -> (at: Seq<int>)
    requires
        performs(script, done),
        0 <= base,
        base + 8 * size <= usize::MAX + 1,
        forall|k: int| 0 <= k < script.len() ==> 0 <= step_at(#[trigger] script[k]) < size,
    ensures
        at.len() == mismatches(script, done, base).len(),
        forall|i: int, j: int| 0 <= i < j < at.len() ==> #[trigger] at[i] < #[trigger] at[j],
        forall|i: int|
            0 <= i < at.len() ==> {
                let f = mismatches(script, done, base)[i];
                &&& 0 <= #[trigger] at[i] < done.len()
                &&& done[at[i]] == (Access::Read { index: f.word_index as int, word: f.actual })
                &&& script[at[i]] == (Step::Read {
                    index: f.word_index as int,
                    expected: f.expected,
                })
                &&& f.actual != f.expected
                &&& f.word_index < size
                &&& f.addr == base + 8 * f.word_index
                &&& f.phys_addr is None
            },
        forall|k: int|
            0 <= k < done.len() ==> match (script[k], #[trigger] done[k]) {
                (Step::Read { expected, .. }, Access::Read { word, .. }) => word != expected
                    ==> at.contains(k),
                _ => true,
            },
    decreases done.len(),
{
    if done.len() == 0 {
        Seq::empty()
    } else {
        let n = done.len() - 1;
        let shorter = done.drop_last();
        assert forall|k: int| 0 <= k < shorter.len() implies obeys(
            script[k],
            #[trigger] shorter[k],
        ) by {
            assert(obeys(script[k], done[k]));
        }
        let before = lemma_mismatches_come_from(script, shorter, base, size);
        let found = mismatches(script, shorter, base);
        let all = mismatches(script, done, base);
        assert(obeys(script[n], done[n]));
        assert(0 <= step_at(script[n]) < size);
        let at = if all.len() == found.len() {
            before
        } else {
            before.push(n)
        };
        assert forall|i: int| 0 <= i < at.len() implies {
            let f = all[i];
            &&& 0 <= #[trigger] at[i] < done.len()
            &&& done[at[i]] == (Access::Read { index: f.word_index as int, word: f.actual })
            &&& script[at[i]] == (Step::Read { index: f.word_index as int, expected: f.expected })
            &&& f.actual != f.expected
            &&& f.word_index < size
            &&& f.addr == base + 8 * f.word_index
            &&& f.phys_addr is None
        } by {
            if i < before.len() {
                assert(at[i] == before[i]);
                assert(all[i] == found[i]);
                assert(shorter[before[i]] == done[before[i]]);
            }
        }
        assert forall|i: int, j: int| 0 <= i < j < at.len() implies #[trigger] at[i]
            < #[trigger] at[j] by {
            assert(at[i] == before[i]);
            if j < before.len() {
                assert(at[j] == before[j]);
            }
        }
        assert forall|k: int| 0 <= k < done.len() implies match (script[k], #[trigger] done[k]) {
            (Step::Read { expected, .. }, Access::Read { word, .. }) => word != expected
                ==> at.contains(k),
            _ => true,
        } by {
            if k < n {
                assert(shorter[k] == done[k]);
                if before.contains(k) {
                    let i = before.index_of(k);
                    assert(at[i] == k);
                }
            } else if at.len() > before.len() {
                assert(at[before.len() as int] == k);
            }
        }
        at
    }
}

/// What a run reports are its wrong reads. For each failure there is one read in the
/// trace, and they come in the order of these reads: of the word with the index of the
/// failure, it gave back the word that the failure says, which is not the one that was
/// expected of this read; and the failure is at the address of that word, eight bytes to
/// a word from the first on. No wrong read is left out before the last one that is
/// reported, and none at all as long as the budget has a slot left.
pub proof fn law_failures_are_the_wrong_reads(
    script: Seq<Step>,
    passes: int,
    base: int,
    before: FailureBudget,
    after: FailureBudget,
    done: Seq<Access>,
    signals: Seq<Signal>,
    kept: Seq<Failure>,
    size: int,
) -> (at: Seq<int>)
    requires
        ran(script, passes, base, before, after, done, signals, kept),
        0 <= base,
        base + 8 * size <= usize::MAX + 1,
        forall|k: int| 0 <= k < script.len() ==> 0 <= step_at(#[trigger] script[k]) < size,
    ensures
        at.len() == kept.len(),
        kept.len() <= before.slots(),
        forall|i: int, j: int| 0 <= i < j < at.len() ==> #[trigger] at[i] < #[trigger] at[j],
        forall|i: int|
            0 <= i < at.len() ==> {
                let f = kept[i];
                &&& 0 <= #[trigger] at[i] < done.len()
                &&& done[at[i]] == (Access::Read { index: f.word_index as int, word: f.actual })
                &&& script[at[i]] == (Step::Read {
                    index: f.word_index as int,
                    expected: f.expected,
                })
                &&& f.actual != f.expected
                &&& f.word_index < size
                &&& f.addr == base + 8 * f.word_index
                &&& f.phys_addr is None
            },
        forall|k: int|
            0 <= k < done.len() && (kept.len() < before.slots() || kept.len() > 0 && k
                <= at.last()) ==> match (script[k], #[trigger] done[k]) {
                (Step::Read { expected, .. }, Access::Read { word, .. }) => word != expected
                    ==> at.contains(k),
                _ => true,
            },
{
    lemma_slots_nonnegative(before);
    let all = lemma_mismatches_come_from(script, done, base, size);
    let found = mismatches(script, done, base);
    let at = all.take(kept.len() as int);
    assert forall|i: int| 0 <= i < at.len() implies {
        let f = kept[i];
        &&& 0 <= #[trigger] at[i] < done.len()
        &&& done[at[i]] == (Access::Read { index: f.word_index as int, word: f.actual })
        &&& script[at[i]] == (Step::Read { index: f.word_index as int, expected: f.expected })
        &&& f.actual != f.expected
        &&& f.word_index < size
        &&& f.addr == base + 8 * f.word_index
        &&& f.phys_addr is None
    } by {
        assert(at[i] == all[i]);
        assert(kept[i] == found[i]);
    }
    assert forall|k: int|
        0 <= k < done.len() && (kept.len() < before.slots() || kept.len() > 0 && k
            <= at.last()) implies match (script[k], #[trigger] done[k]) {
        (Step::Read { expected, .. }, Access::Read { word, .. }) => word != expected
            ==> at.contains(k),
        _ => true,
    } by {
        if all.contains(k) {
            let i = all.index_of(k);
            assert(all[i] == k);
            if i < at.len() {
                assert(at[i] == k);
            } else {
                assert(all[at.len() - 1] < all[i]);
            }
        }
    }
    at
}

/// A memory of which one word only ever read wrong yields failures of that word only,
/// all with its index and at its address.
pub proof fn law_only_the_broken_word_is_reported(
    script: Seq<Step>,
    passes: int,
    base: int,
    before: FailureBudget,
    after: FailureBudget,
    done: Seq<Access>,
    signals: Seq<Signal>,
    kept: Seq<Failure>,
    size: int,
    broken: int,
)
    requires
        ran(script, passes, base, before, after, done, signals, kept),
        0 <= base,
        base + 8 * size <= usize::MAX + 1,
        forall|k: int| 0 <= k < script.len() ==> 0 <= step_at(#[trigger] script[k]) < size,
        forall|k: int|
            0 <= k < done.len() ==> match (script[k], #[trigger] done[k]) {
                (Step::Read { expected, .. }, Access::Read { index, word }) => index != broken
                    ==> word == expected,
                _ => true,
            },
    ensures
        forall|i: int|
            0 <= i < kept.len() ==> (#[trigger] kept[i]).word_index == broken && kept[i].addr
                == base + 8 * broken,
{
    let at = law_failures_are_the_wrong_reads(
        script,
        passes,
        base,
        before,
        after,
        done,
        signals,
        kept,
        size,
    );
    assert forall|i: int| 0 <= i < kept.len() implies (#[trigger] kept[i]).word_index == broken
        && kept[i].addr == base + 8 * broken by {
        let k = at[i];
        assert(0 <= k < done.len());
        assert(done[k] == Access::Read {
            index: kept[i].word_index as int,
            word: kept[i].actual,
        });
    }
}

/// Failures of one run are at the same address if and only if they are of the same word.
pub proof fn law_each_word_has_its_address(
    script: Seq<Step>,
    passes: int,
    base: int,
    before: FailureBudget,
    after: FailureBudget,
    done: Seq<Access>,
    signals: Seq<Signal>,
    kept: Seq<Failure>,
    size: int,
    i: int,
    j: int,
)
    requires
        ran(script, passes, base, before, after, done, signals, kept),
        0 <= base,
        base + 8 * size <= usize::MAX + 1,
        forall|k: int| 0 <= k < script.len() ==> 0 <= step_at(#[trigger] script[k]) < size,
        0 <= i < kept.len(),
        0 <= j < kept.len(),
    ensures
        kept[i].addr == kept[j].addr <==> kept[i].word_index == kept[j].word_index,
        kept[j].addr - kept[i].addr == 8 * (kept[j].word_index - kept[i].word_index),
{
    let at = law_failures_are_the_wrong_reads(
        script,
        passes,
        base,
        before,
        after,
        done,
        signals,
        kept,
        size,
    );
    assert(0 <= at[i] < done.len());
    assert(0 <= at[j] < done.len());
}

/// A run that nobody stops and that leaves room in the budget does everything: every
/// access of the script is made and every sub-pass comes to its end.
pub proof fn law_undisturbed_run_is_complete(
    script: Seq<Step>,
    passes: int,
    base: int,
    before: FailureBudget,
    after: FailureBudget,
    done: Seq<Access>,
    signals: Seq<Signal>,
    kept: Seq<Failure>,
)
    requires
        ran(script, passes, base, before, after, done, signals, kept),
        forall|k: int| 0 <= k < signals.len() ==> #[trigger] signals[k] != (Signal::Poll {
            quit: true,
        }),
        after.slots() > 0,
    ensures
        done.len() == script.len(),
        subpasses(signals) == passes,
{
}

/// Once the operator asks for a stop no sub-pass begins any more: at most the end of the
/// one in which it was asked is still announced.
pub proof fn law_stop_is_heeded(
    script: Seq<Step>,
    ends: spec_fn(int) -> int,
    passes: int,
    first: bool,
    base: int,
    slots: int,
    done: Seq<Access>,
    signals: Seq<Signal>,
    k: int,
)
    requires
        heeds(script, ends, passes, first, base, slots, done, signals),
        0 <= k < signals.len(),
        signals[k] == (Signal::Poll { quit: true }),
    ensures
        signals.len() <= k + 2,
        signals.len() == k + 2 ==> signals[k + 1] == Signal::Subpass,
        subpasses(signals) > 0 ==> done.len() <= ends(subpasses(signals)),
        subpasses(signals) == 0 ==> done.len() == 0,
{
    assert(asks_stop(signals, k));
}

/// Once the failures use up the budget no sub-pass begins any more.
pub proof fn law_budget_is_heeded(
    script: Seq<Step>,
    ends: spec_fn(int) -> int,
    passes: int,
    first: bool,
    base: int,
    slots: int,
    done: Seq<Access>,
    signals: Seq<Signal>,
    j: int,
)
    requires
        heeds(script, ends, passes, first, base, slots, done, signals),
        0 < j,
        mismatches(script, done.take(ends(j)), base).len() >= slots,
    ensures
        subpasses(signals) <= j,
{
    if j < subpasses(signals) {
        assert(found_before(script, ends, base, done, j) < slots);
    }
}

/// Between the ends of two sub-passes the operator was asked and did not want to stop.
pub proof fn law_operator_is_asked_between_sub_passes(
    script: Seq<Step>,
    ends: spec_fn(int) -> int,
    passes: int,
    first: bool,
    base: int,
    slots: int,
    done: Seq<Access>,
    signals: Seq<Signal>,
    k: int,
    m: int,
)
    requires
        heeds(script, ends, passes, first, base, slots, done, signals),
        0 <= k < m < signals.len(),
        signals[k] == Signal::Subpass,
        signals[m] == Signal::Subpass,
    ensures
        signals[k + 1] == (Signal::Poll { quit: false }),
{
    assert(ends_subpass(signals, k));
    assert(ends_subpass(signals, m));
}

/// A test that asks before its first sub-pass begins none unless it is told to go on; any
/// other begins its first sub-pass unasked.
pub proof fn law_first_sub_pass(
    script: Seq<Step>,
    ends: spec_fn(int) -> int,
    passes: int,
    first: bool,
    base: int,
    slots: int,
    done: Seq<Access>,
    signals: Seq<Signal>,
)
    requires
        heeds(script, ends, passes, first, base, slots, done, signals),
    ensures
        first && done.len() > 0 ==> signals[0] == (Signal::Poll { quit: false }),
        !first && passes > 0 ==> subpasses(signals) != 0,
        subpasses(signals) <= passes,
{
    lemma_subpasses_nonnegative(signals);
}

} // verus!
