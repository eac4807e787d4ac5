//! The memory in shares, to be tested side by side.

use crate::failure::{Failure, FailureBudget};
use crate::memory;
use crate::ops;
use crate::pattern::{rounds, Pattern};
use vstd::prelude::*;

verus! {

/// A share of the memory, in words.
#[derive(Debug, Clone, Copy, PartialEq, Eq, Structural)]
pub struct Share {
    /// Where it begins.
    pub first: usize,
    /// How many words it has.
    pub count: usize,
}

impl Share {
    /// The word behind the last one.
    pub open spec fn end(self) -> int {
        self.first + self.count
    }

    /// Whether a word is in the share.
    pub open spec fn holds(self, word: int) -> bool {
        self.first <= word < self.end()
    }
}

/// Whether the shares follow each other from the first word to the last, none of them
/// empty.
pub open spec fn tiles(shares: Seq<Share>, total: int) -> bool {
    &&& forall|i: int| 0 <= i < shares.len() ==> (#[trigger] shares[i]).count > 0
    &&& forall|i: int, j: int|
        0 <= i < shares.len() - 1 && j == i + 1 ==> (#[trigger] shares[i]).end() == (
        #[trigger] shares[j]).first
    &&& shares.len() == 0 ==> total == 0
    &&& shares.len() > 0 ==> shares[0].first == 0 && shares.last().end() == total
}

/// How many words a share has, but for the last, which has what is left.
pub open spec fn share_size(total: int, parts: int) -> int {
    (total - 1) / parts + 1
}

/// Divide words into at most `parts` shares, all of one size but the last.
pub fn divide(total: usize, parts: usize) -> (shares: Vec<Share>)
    requires
        parts > 0,
    ensures
        tiles(shares@, total as int),
        shares@.len() <= parts,
        forall|i: int|
            0 <= i < shares@.len() - 1 ==> (#[trigger] shares@[i]).count == share_size(
                total as int,
                parts as int,
            ),
        total > 0 ==> 0 < shares@.last().count <= share_size(total as int, parts as int),
{
    let mut shares: Vec<Share> = Vec::new();
    if total == 0 {
        return shares;
    }
    let size: usize = (total - 1) / parts + 1;
    assert(total <= parts * size) by (nonlinear_arith)
        requires
            size == (total - 1) / (parts as int) + 1,
            parts > 0,
            total > 0,
    ;
    let mut first: usize = 0;
    while first < total
        invariant
            0 < size,
            0 < total,
            size == share_size(total as int, parts as int),
            first <= total,
            total <= parts * size,
            shares@.len() <= parts,
            first == total || first == shares@.len() * size,
            first < total ==> forall|i: int|
                0 <= i < shares@.len() ==> (#[trigger] shares@[i]).count == size,
            forall|i: int| 0 <= i < shares@.len() ==> 0 < (#[trigger] shares@[i]).count <= size,
            forall|i: int|
                0 <= i < shares@.len() - 1 ==> (#[trigger] shares@[i]).count == size,
            shares@.len() == 0 <==> first == 0,
            tiles(shares@, first as int),
        decreases total - first,
    {
        let n: usize = shares.len();
        assert(n < parts) by (nonlinear_arith)
            requires
                first == n * size,
                first < total,
                total <= parts * size,
        ;
        let count: usize = if total - first < size {
            total - first
        } else {
            size
        };
        let ghost before = shares@;
        shares.push(Share { first, count });
        assert((n + 1) * size == n * size + size) by (nonlinear_arith);
        assert forall|i: int, j: int| 0 <= i < shares@.len() - 1 && j == i + 1 implies (
        #[trigger] shares@[i]).end() == (#[trigger] shares@[j]).first by {
            assert(shares@[i] == before[i]);
            if j < n {
                assert(shares@[j] == before[j]);
            }
        }
        first = first + count;
    }
    shares
}

/// Every word is in one share, and in one only.
pub proof fn law_every_word_has_one_share(shares: Seq<Share>, total: int, word: int)
    requires
        tiles(shares, total),
        0 <= word < total,
    ensures
        exists|i: int| 0 <= i < shares.len() && (#[trigger] shares[i]).holds(word),
        forall|i: int, j: int|
            0 <= i < shares.len() && 0 <= j < shares.len() && (#[trigger] shares[i]).holds(word) && (
            #[trigger] shares[j]).holds(word) ==> i == j,
{
    lemma_some_share_holds(shares, total, word, shares.len() as int);
    assert forall|i: int, j: int|
        0 <= i < shares.len() && 0 <= j < shares.len() && (#[trigger] shares[i]).holds(word) && (
        #[trigger] shares[j]).holds(word) implies i == j by {
        if i < j {
            lemma_shares_are_sorted(shares, total, i, j);
        } else if j < i {
            lemma_shares_are_sorted(shares, total, j, i);
        }
    }
}

proof fn lemma_shares_are_sorted(shares: Seq<Share>, total: int, i: int, j: int)
    requires
        tiles(shares, total),
        0 <= i < j < shares.len(),
    ensures
        shares[i].end() <= shares[j].first,
    decreases j - i,
{
    assert(shares[j - 1].end() == shares[j].first);
    if i < j - 1 {
        lemma_shares_are_sorted(shares, total, i, j - 1);
        assert(shares[j - 1].count > 0);
    }
}

proof fn lemma_some_share_holds(shares: Seq<Share>, total: int, word: int, n: int)
    requires
        tiles(shares, total),
        0 <= n <= shares.len(),
        0 <= word < (if n == shares.len() {
            total
        } else {
            shares[n].first as int
        }),
    ensures
        exists|i: int| 0 <= i < shares.len() && (#[trigger] shares[i]).holds(word),
    decreases n,
{
    if n > 0 {
        assert(n < shares.len() ==> shares[n - 1].end() == shares[n].first);
        if shares[n - 1].first <= word {
            assert(shares[n - 1].holds(word));
        } else {
            lemma_some_share_holds(shares, total, word, n - 1);
        }
    }
}

/// Whether shares can be tested side by side: what such a pattern writes to a word
/// depends neither on where the word is nor on the words before it.
pub fn is_divisible(pattern: Pattern) -> (divisible: bool)
    ensures
        divisible == !(pattern == Pattern::StuckAddress || pattern == Pattern::MarchCMinus),
{
    match pattern {
        Pattern::StuckAddress | Pattern::MarchCMinus => false,
        _ => true,
    }
}

/// What a script does to one word, step by step, wherever the word is.
pub open spec fn done_to(script: Seq<memory::Step>, word: int) -> Seq<memory::Step>
    decreases script.len(),
{
    if script.len() == 0 {
        Seq::empty()
    } else {
        let before = done_to(script.drop_last(), word);
        match script.last() {
            memory::Step::Write { index, word: w } => if index == word {
                before.push(memory::Step::Write { index: 0, word: w })
            } else {
                before
            },
            memory::Step::Read { index, expected } => if index == word {
                before.push(memory::Step::Read { index: 0, expected })
            } else {
                before
            },
        }
    }
}

proof fn lemma_done_to_both(first: Seq<memory::Step>, second: Seq<memory::Step>, word: int)
    ensures
        done_to(first + second, word) == done_to(first, word) + done_to(second, word),
    decreases second.len(),
{
    if second.len() == 0 {
        assert(first + second =~= first);
        assert(done_to(first, word) + done_to(second, word) =~= done_to(first, word));
    } else {
        lemma_done_to_both(first, second.drop_last(), word);
        assert((first + second).drop_last() =~= first + second.drop_last());
        assert((first + second).last() == second.last());
        assert(done_to(first + second, word) =~= done_to(first, word) + done_to(second, word));
    }
}

proof fn lemma_filled_once(w: u64, len: int, word: int)
    requires
        0 <= len,
        0 <= word,
    ensures
        done_to(ops::fill_script(ops::constant_words(w), len), word) == if word < len {
            seq![memory::Step::Write { index: 0, word: w }]
        } else {
            seq![]
        },
    decreases len,
{
    let script = ops::fill_script(ops::constant_words(w), len);
    if len > 0 {
        lemma_filled_once(w, len - 1, word);
        assert(script.drop_last() =~= ops::fill_script(ops::constant_words(w), len - 1));
    }
}

proof fn lemma_verified_once(w: u64, len: int, word: int)
    requires
        0 <= len,
        0 <= word,
    ensures
        done_to(ops::verify_script(ops::constant_words(w), len), word) == if word < len {
            seq![memory::Step::Read { index: 0, expected: w }]
        } else {
            seq![]
        },
    decreases len,
{
    let script = ops::verify_script(ops::constant_words(w), len);
    if len > 0 {
        lemma_verified_once(w, len - 1, word);
        assert(script.drop_last() =~= ops::verify_script(ops::constant_words(w), len - 1));
    }
}

proof fn lemma_rounds_alike(words: Seq<u64>, n: int, len: int, word: int, size: int, place: int)
    requires
        0 <= word < len,
        0 <= place < size,
    ensures
        done_to(rounds::rounds_script(words, len, n), word) == done_to(
            rounds::rounds_script(words, size, n),
            place,
        ),
    decreases n,
{
    if n > 0 {
        lemma_rounds_alike(words, n - 1, len, word, size, place);
        let w = words[n - 1];
        let constant = ops::constant_words(w);
        lemma_done_to_both(
            rounds::rounds_script(words, len, n - 1),
            ops::round_script(constant, len),
            word,
        );
        lemma_done_to_both(
            rounds::rounds_script(words, size, n - 1),
            ops::round_script(constant, size),
            place,
        );
        lemma_done_to_both(
            ops::fill_script(constant, len),
            ops::verify_script(constant, len),
            word,
        );
        lemma_done_to_both(
            ops::fill_script(constant, size),
            ops::verify_script(constant, size),
            place,
        );
        lemma_filled_once(w, len, word);
        lemma_filled_once(w, size, place);
        lemma_verified_once(w, len, word);
        lemma_verified_once(w, size, place);
    }
}

/// Shares can be tested side by side: the pattern does the same to a word, in the same
/// order, whether it runs on the whole memory or on the share that holds the word.
pub proof fn law_shares_are_tested_alike(pattern: Pattern, total: int, share: Share, word: int)
    requires
        !(pattern == Pattern::StuckAddress || pattern == Pattern::MarchCMinus),
        share.end() <= total,
        share.holds(word),
    ensures
        done_to(pattern.script(total), word) == done_to(
            pattern.script(share.count as int),
            word - share.first,
        ),
{
    let size = share.count as int;
    let place = word - share.first;
    match pattern {
        Pattern::SolidBits => lemma_rounds_alike(
            crate::pattern::solid::solid_words(),
            2,
            total,
            word,
            size,
            place,
        ),
        Pattern::WalkingOnes => lemma_rounds_alike(
            crate::pattern::walking::walking_ones(),
            64,
            total,
            word,
            size,
            place,
        ),
        Pattern::WalkingZeros => lemma_rounds_alike(
            crate::pattern::walking::walking_zeros(),
            64,
            total,
            word,
            size,
            place,
        ),
        Pattern::Checkerboard => lemma_rounds_alike(
            crate::pattern::checkerboard::checker_words(),
            2,
            total,
            word,
            size,
            place,
        ),
        _ => {},
    }
}

/// What came of testing a share.
#[derive(Debug)]
pub struct ShareOutcome {
    /// Where the share begins.
    pub first: usize,
    /// The failures, by their place in the share.
    pub failures: Vec<Failure>,
    /// Whether there were more than are listed.
    pub overflowed: bool,
}

/// A failure by its place in the whole.
pub open spec fn placed(f: Failure, first: usize) -> Failure {
    Failure { word_index: (f.word_index + first) as usize, ..f }
}

/// The failures of the first `n` shares, by their place in the whole.
pub open spec fn found_in(outcomes: Seq<ShareOutcome>, n: int) -> Seq<Failure>
    decreases n,
{
    if n <= 0 {
        Seq::empty()
    } else {
        let outcome = outcomes[n - 1];
        found_in(outcomes, n - 1) + Seq::new(
            outcome.failures@.len(),
            |i: int| placed(outcome.failures@[i], outcome.first),
        )
    }
}

/// Put together what came of the shares, within the budget. Says also whether there
/// were more failures than are listed.
pub fn gather(outcomes: &Vec<ShareOutcome>, budget: &mut FailureBudget) -> (r: (Vec<Failure>, bool))
    requires
        forall|i: int, k: int|
            0 <= i < outcomes@.len() && 0 <= k < outcomes@[i].failures@.len() ==> (
            #[trigger] outcomes@[i].failures@[k]).word_index + outcomes@[i].first <= usize::MAX,
    ensures
        memory::settles(
            *old(budget),
            *final(budget),
            found_in(outcomes@, outcomes@.len() as int),
            r.0@,
        ),
        r.1 == (final(budget).has_overflowed() || exists|i: int|
            0 <= i < outcomes@.len() && (#[trigger] outcomes@[i]).overflowed),
{
    let mut failures: Vec<Failure> = Vec::new();
    let mut more: bool = false;
    let mut i: usize = 0;
    while i < outcomes.len()
        invariant
            i <= outcomes@.len(),
            forall|i: int, k: int|
                0 <= i < outcomes@.len() && 0 <= k < outcomes@[i].failures@.len() ==> (
                #[trigger] outcomes@[i].failures@[k]).word_index + outcomes@[i].first <= usize::MAX,
            failures@ == found_in(outcomes@, i as int),
            more == exists|j: int| 0 <= j < i && (#[trigger] outcomes@[j]).overflowed,
        decreases outcomes@.len() - i,
    {
        let outcome = &outcomes[i];
        let ghost before = failures@;
        let mut k: usize = 0;
        while k < outcome.failures.len()
            invariant
                i < outcomes@.len(),
                *outcome == outcomes@[i as int],
                k <= outcome.failures@.len(),
                forall|i: int, k: int|
                    0 <= i < outcomes@.len() && 0 <= k < outcomes@[i].failures@.len() ==> (
                    #[trigger] outcomes@[i].failures@[k]).word_index + outcomes@[i].first
                        <= usize::MAX,
                failures@ == before + Seq::new(
                    k as nat,
                    |j: int| placed(outcome.failures@[j], outcome.first),
                ),
            decreases outcome.failures@.len() - k,
        {
            let mut f = outcome.failures[k];
            assert(outcomes@[i as int].failures@[k as int].word_index + outcome.first <= usize::MAX);
            f.word_index = f.word_index + outcome.first;
            failures.push(f);
            assert(failures@ =~= before + Seq::new(
                (k + 1) as nat,
                |j: int| placed(outcome.failures@[j], outcome.first),
            ));
            k = k + 1;
        }
        assert(failures@ =~= found_in(outcomes@, i + 1));
        if outcome.overflowed {
            assert(outcomes@[i as int].overflowed);
            more = true;
        }
        i = i + 1;
    }
    budget.cap(&mut failures);
    (failures, more || budget.overflowed())
}

/// The failures of the shares, put together, point to their words in the whole. Each comes
/// from one failure of one share, with the same words and at the same address, and its index
/// is counted from the start of the memory; so if the failures of a share are at the
/// addresses of the words of that share, they are at those of the words of the memory.
pub proof fn law_gathered_failures_keep_their_place(
    outcomes: Seq<ShareOutcome>,
    n: int,
    base: int,
    i: int,
) -> (r: (int, int))
    requires
        0 <= n <= outcomes.len(),
        0 <= i < found_in(outcomes, n).len(),
        forall|s: int, k: int|
            0 <= s < outcomes.len() && 0 <= k < outcomes[s].failures@.len() ==> {
                let f = #[trigger] outcomes[s].failures@[k];
                &&& f.word_index + outcomes[s].first <= usize::MAX
                &&& f.addr == (base + 8 * outcomes[s].first) + 8 * f.word_index
            },
    ensures
        ({
            let (s, k) = r;
            let found = found_in(outcomes, n)[i];
            let f = outcomes[s].failures@[k];
            &&& 0 <= s < n
            &&& 0 <= k < outcomes[s].failures@.len()
            &&& found.word_index == outcomes[s].first + f.word_index
            &&& found.expected == f.expected && found.actual == f.actual && found.phys_addr
                == f.phys_addr
            &&& found.addr == f.addr
            &&& found.addr == base + 8 * found.word_index
        }),
    decreases n,
{
    let rest = found_in(outcomes, n - 1);
    if i < rest.len() {
        assert(found_in(outcomes, n)[i] == rest[i]);
        law_gathered_failures_keep_their_place(outcomes, n - 1, base, i)
    } else {
        let k = i - rest.len();
        assert(found_in(outcomes, n)[i] == placed(
            outcomes[n - 1].failures@[k],
            outcomes[n - 1].first,
        ));
        assert(outcomes[n - 1].failures@[k].word_index + outcomes[n - 1].first <= usize::MAX);
        (n - 1, k)
    }
}

/// No failure of a share is lost when they are put together.
pub proof fn law_every_share_is_gathered(outcomes: Seq<ShareOutcome>, n: int, s: int, k: int) -> (i: int)
    requires
        0 <= s < n <= outcomes.len(),
        0 <= k < outcomes[s].failures@.len(),
        outcomes[s].failures@[k].word_index + outcomes[s].first <= usize::MAX,
    ensures
        0 <= i < found_in(outcomes, n).len(),
        found_in(outcomes, n)[i].word_index == outcomes[s].first
            + outcomes[s].failures@[k].word_index,
        found_in(outcomes, n)[i].addr == outcomes[s].failures@[k].addr,
        found_in(outcomes, n)[i].expected == outcomes[s].failures@[k].expected,
        found_in(outcomes, n)[i].actual == outcomes[s].failures@[k].actual,
    decreases n,
{
    let rest = found_in(outcomes, n - 1);
    if s < n - 1 {
        let i = law_every_share_is_gathered(outcomes, n - 1, s, k);
        assert(found_in(outcomes, n)[i] == rest[i]);
        i
    } else {
        assert(found_in(outcomes, n)[rest.len() + k] == placed(
            outcomes[s].failures@[k],
            outcomes[s].first,
        ));
        rest.len() + k
    }
}

/// A share is as small as it can be for so many of them to hold all the words.
pub proof fn law_shares_are_even(total: int, parts: int)
    requires
        0 < total,
        0 < parts,
    ensures
        share_size(total, parts) * parts >= total,
        (share_size(total, parts) - 1) * parts < total,
{
    let q = (total - 1) / parts;
    vstd::arithmetic::div_mod::lemma_fundamental_div_mod(total - 1, parts);
    vstd::arithmetic::div_mod::lemma_mod_bound(total - 1, parts);
    assert((q + 1) * parts == parts * q + parts && q * parts == parts * q) by (nonlinear_arith);
}

} // verus!
