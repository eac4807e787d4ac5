//! What the patterns find in memory whose cells disturb each other, or do not
//! follow what is stored in them.
//!
//! A fault is described by what the faulty bit holds after the accesses made so
//! far, as far as these tell: `None` is a bit of which nothing is known, and reads
//! of it may give anything.

use vstd::prelude::*;

use crate::failure;
use crate::memory;
use crate::ops;
use crate::pattern::metadata::FaultClass;
use crate::pattern::sweep::{CellOp, Direction};
use crate::pattern::{checkerboard, march, moving_inversions, rounds, sweep, walking, Pattern};
use crate::soundness;

verus! {

/// What one cell does to another.
pub enum Effect {
    /// A turn of the one sets the other to a value.
    Sets(bool),
    /// A turn of the one inverts the other.
    Inverts,
    /// As long as the one is in its state, the other is kept at a value.
    Keeps(bool),
}

/// A bit of one cell that disturbs a bit of another.
pub struct Coupling {
    /// Word index of the cell that disturbs.
    pub aggressor: int,
    /// Position of the bit that disturbs.
    pub from: int,
    /// Word index of the cell that is disturbed.
    pub victim: int,
    /// Position of the bit that is disturbed.
    pub at: int,
    /// The value that the aggressor turns to, or is in, when it disturbs.
    pub to: bool,
    /// What happens to the victim then.
    pub effect: Effect,
}

/// The bit last stored at a position of a cell, if any was.
pub open spec fn stored_bit(done: Seq<memory::Access>, cell: int, b: int) -> Option<bool> {
    match soundness::stored(done, cell) {
        Some(word) => Some(failure::bit(word, b)),
        None => None,
    }
}

/// What the victim holds after `word` was stored at `index`, when the aggressor
/// held `held` and the victim `before`.
pub open spec fn disturbed(
    fault: Coupling,
    held: Option<bool>,
    before: Option<bool>,
    index: int,
    word: u64,
) -> Option<bool> {
    if index == fault.victim {
        match (fault.effect, held) {
            (Effect::Keeps(_), None) => None,
            (Effect::Keeps(v), Some(h)) if h == fault.to => Some(v),
            _ => Some(failure::bit(word, fault.at)),
        }
    } else if index == fault.aggressor && failure::bit(word, fault.from) == fault.to {
        match (fault.effect, held) {
            (Effect::Keeps(v), _) => Some(v),
            (_, None) => None,
            (_, Some(h)) if h == fault.to => before,
            (Effect::Sets(v), _) => Some(v),
            (Effect::Inverts, _) => match before {
                Some(x) => Some(!x),
                None => None,
            },
        }
    } else {
        before
    }
}

/// What the victim of a coupling holds.
pub open spec fn coupled_bit(done: Seq<memory::Access>, fault: Coupling) -> Option<bool>
    decreases done.len(),
{
    if done.len() == 0 {
        None
    } else {
        let rest = done.drop_last();
        match done.last() {
            memory::Access::Write { index, word } => disturbed(
                fault,
                stored_bit(rest, fault.aggressor, fault.from),
                coupled_bit(rest, fault),
                index,
                word,
            ),
            memory::Access::Read { .. } => coupled_bit(rest, fault),
        }
    }
}

/// Whether memory has a coupling: each read of the victim gives back the bit that
/// it then holds.
pub open spec fn coupled(done: Seq<memory::Access>, fault: Coupling) -> bool {
    forall|k: int|
        0 <= k < done.len() ==> match #[trigger] done[k] {
            memory::Access::Read { index, word } => index == fault.victim && coupled_bit(
                done.take(k),
                fault,
            ) is Some ==> coupled_bit(done.take(k), fault) == Some(failure::bit(word, fault.at)),
            _ => true,
        }
}

/// What a bit holds that does not turn to `to`.
pub open spec fn sluggish_bit(
    done: Seq<memory::Access>,
    cell: int,
    b: int,
    to: bool,
) -> Option<bool>
    decreases done.len(),
{
    if done.len() == 0 {
        None
    } else {
        let before = sluggish_bit(done.drop_last(), cell, b, to);
        match done.last() {
            memory::Access::Write { index, word } if index == cell => if failure::bit(word, b)
                == to {
                before
            } else {
                Some(!to)
            },
            _ => before,
        }
    }
}

/// Whether memory has a cell with a bit that does not turn to `to`: each read of
/// it gives back the bit that it then holds.
pub open spec fn sluggish(done: Seq<memory::Access>, cell: int, b: int, to: bool) -> bool {
    forall|k: int|
        0 <= k < done.len() ==> match #[trigger] done[k] {
            memory::Access::Read { index, word } => index == cell && sluggish_bit(
                done.take(k),
                cell,
                b,
                to,
            ) is Some ==> sluggish_bit(done.take(k), cell, b, to) == Some(failure::bit(word, b)),
            _ => true,
        }
}

/// What comes of a state when each word that a script stores changes it.
spec fn follow<S>(step: spec_fn(S, int, u64) -> S, start: S, script: Seq<memory::Step>) -> S
    decreases script.len(),
{
    if script.len() == 0 {
        start
    } else {
        let before = follow(step, start, script.drop_last());
        match script.last() {
            memory::Step::Write { index, word } => step(before, index, word),
            memory::Step::Read { .. } => before,
        }
    }
}

/// What comes of a state when the first `n` operations are applied to one cell.
spec fn visited<S>(
    step: spec_fn(S, int, u64) -> S,
    start: S,
    ops: Seq<CellOp>,
    cell: int,
    n: int,
) -> S
    decreases n,
{
    if n <= 0 {
        start
    } else {
        let before = visited(step, start, ops, cell, n - 1);
        match ops[n - 1] {
            CellOp::Write(word) => step(before, cell, word),
            CellOp::Read(_) => before,
        }
    }
}

/// One part of a script changes what the part before it left.
proof fn lemma_follow_concat<S>(
    step: spec_fn(S, int, u64) -> S,
    start: S,
    a: Seq<memory::Step>,
    b: Seq<memory::Step>,
)
    ensures
        follow(step, start, a + b) == follow(step, follow(step, start, a), b),
    decreases b.len(),
{
    if b.len() == 0 {
        assert(a + b =~= a);
    } else {
        lemma_follow_concat(step, start, a, b.drop_last());
        assert((a + b).drop_last() =~= a + b.drop_last());
    }
}

/// Following the operations at one cell.
proof fn lemma_follow_cell<S>(
    step: spec_fn(S, int, u64) -> S,
    start: S,
    ops: Seq<CellOp>,
    cell: int,
    n: int,
)
    requires
        0 <= n <= ops.len(),
    ensures
        follow(step, start, sweep::cell_script(ops, cell).take(n)) == visited(
            step,
            start,
            ops,
            cell,
            n,
        ),
    decreases n,
{
    if n > 0 {
        lemma_follow_cell(step, start, ops, cell, n - 1);
        let script = sweep::cell_script(ops, cell);
        assert(script.take(n).drop_last() =~= script.take(n - 1));
        assert(script.take(n).last() == sweep::cell_step(ops[n - 1], cell));
    }
}

/// One more cell of a sweep.
proof fn lemma_follow_visit<S>(
    step: spec_fn(S, int, u64) -> S,
    start: S,
    dir: Direction,
    ops: Seq<CellOp>,
    len: int,
    n: int,
)
    requires
        0 <= n,
    ensures
        follow(step, start, sweep::sweep_script(dir, ops, len, n + 1)) == visited(
            step,
            follow(step, start, sweep::sweep_script(dir, ops, len, n)),
            ops,
            sweep::cell(dir, len, n),
            ops.len() as int,
        ),
{
    let cell = sweep::cell(dir, len, n);
    let script = sweep::cell_script(ops, cell);
    let before = sweep::sweep_script(dir, ops, len, n);
    lemma_follow_concat(step, start, before, script);
    lemma_follow_cell(step, follow(step, start, before), ops, cell, ops.len() as int);
    assert(script.take(ops.len() as int) =~= script);
}

/// Cells that do not matter to a state leave it alone.
proof fn lemma_follow_others<S>(
    step: spec_fn(S, int, u64) -> S,
    start: S,
    dir: Direction,
    ops: Seq<CellOp>,
    len: int,
    m: int,
    n: int,
)
    requires
        0 <= m <= n,
        forall|k: int, s: S, word: u64|
            m <= k < n ==> #[trigger] step(s, sweep::cell(dir, len, k), word) == s,
    ensures
        follow(step, start, sweep::sweep_script(dir, ops, len, n)) == follow(
            step,
            start,
            sweep::sweep_script(dir, ops, len, m),
        ),
    decreases n,
{
    if m < n {
        lemma_follow_others(step, start, dir, ops, len, m, n - 1);
        lemma_follow_visit(step, start, dir, ops, len, n - 1);
        lemma_visited_other(
            step,
            follow(step, start, sweep::sweep_script(dir, ops, len, n - 1)),
            ops,
            sweep::cell(dir, len, n - 1),
            ops.len() as int,
        );
    }
}

/// A cell that does not matter to a state leaves it alone.
proof fn lemma_visited_other<S>(
    step: spec_fn(S, int, u64) -> S,
    start: S,
    ops: Seq<CellOp>,
    cell: int,
    n: int,
)
    requires
        forall|s: S, word: u64| #[trigger] step(s, cell, word) == s,
    ensures
        visited(step, start, ops, cell, n) == start,
    decreases n,
{
    if n > 0 {
        lemma_visited_other(step, start, ops, cell, n - 1);
    }
}

/// A sweep in which two cells matter, visited as the `k1`-th and `k2`-th.
proof fn lemma_follow_sweep<S>(
    step: spec_fn(S, int, u64) -> S,
    start: S,
    dir: Direction,
    ops: Seq<CellOp>,
    len: int,
    k1: int,
    k2: int,
)
    requires
        0 <= k1 < k2 < len,
        forall|k: int, s: S, word: u64|
            0 <= k < len && k != k1 && k != k2 ==> #[trigger] step(
                s,
                sweep::cell(dir, len, k),
                word,
            ) == s,
    ensures
        ({
            let n = ops.len() as int;
            let first = visited(step, start, ops, sweep::cell(dir, len, k1), n);
            let second = visited(step, first, ops, sweep::cell(dir, len, k2), n);
            &&& follow(step, start, sweep::sweep_script(dir, ops, len, k1)) == start
            &&& follow(step, start, sweep::sweep_script(dir, ops, len, k2)) == first
            &&& follow(step, start, sweep::sweep_script(dir, ops, len, len)) == second
        }),
{
    lemma_follow_others(step, start, dir, ops, len, 0, k1);
    lemma_follow_visit(step, start, dir, ops, len, k1);
    lemma_follow_others(step, start, dir, ops, len, k1 + 1, k2);
    lemma_follow_visit(step, start, dir, ops, len, k2);
    lemma_follow_others(step, start, dir, ops, len, k2 + 1, len);
}

/// How a word stored changes what the two cells of a coupling hold.
spec fn coupling_step(fault: Coupling) -> spec_fn(
    (Option<bool>, Option<bool>),
    int,
    u64,
) -> (Option<bool>, Option<bool>) {
    |s: (Option<bool>, Option<bool>), index: int, word: u64|
        (
            if index == fault.aggressor {
                Some(failure::bit(word, fault.from))
            } else {
                s.0
            },
            disturbed(fault, s.0, s.1, index, word),
        )
}

/// What the two cells of a coupling hold before anything is stored.
spec fn unknown() -> (Option<bool>, Option<bool>) {
    (None, None)
}

/// What the two cells of a coupling hold follows from the script.
proof fn lemma_coupled_by_script(
    script: Seq<memory::Step>,
    done: Seq<memory::Access>,
    fault: Coupling,
)
    requires
        fault.aggressor != fault.victim,
        memory::performs(script, done),
    ensures
        follow(coupling_step(fault), unknown(), script.take(done.len() as int)) == (
            stored_bit(done, fault.aggressor, fault.from),
            coupled_bit(done, fault),
        ),
    decreases done.len(),
{
    let n = done.len() as int;
    if n > 0 {
        let rest = done.drop_last();
        assert(memory::performs(script, rest)) by {
            assert forall|k: int| 0 <= k < rest.len() implies memory::obeys(
                script[k],
                #[trigger] rest[k],
            ) by {
                assert(memory::obeys(script[k], done[k]));
            }
        }
        lemma_coupled_by_script(script, rest, fault);
        assert(script.take(n).drop_last() =~= script.take(n - 1));
        assert(memory::obeys(script[n - 1], done[n - 1]));
        assert(script.take(n).last() == script[n - 1]);
    }
}

/// A read of the victim that expects another bit than it holds is a mismatch.
proof fn lemma_coupled_read(
    script: Seq<memory::Step>,
    done: Seq<memory::Access>,
    base: int,
    fault: Coupling,
    k: int,
)
    requires
        fault.aggressor != fault.victim,
        memory::performs(script, done),
        0 <= k < done.len(),
        coupled(done, fault),
        match script[k] {
            memory::Step::Read { index, expected } => index == fault.victim && follow(
                coupling_step(fault),
                unknown(),
                script.take(k),
            ).1 == Some(!failure::bit(expected, fault.at)),
            _ => false,
        },
    ensures
        memory::mismatches(script, done, base).len() > 0,
{
    assert(memory::obeys(script[k], done[k]));
    let prefix = done.take(k);
    assert forall|m: int| 0 <= m < prefix.len() implies memory::obeys(
        script[m],
        #[trigger] prefix[m],
    ) by {
        assert(memory::obeys(script[m], done[m]));
    }
    lemma_coupled_by_script(script, prefix, fault);
    soundness::lemma_wrong_read_is_reported(script, done, base, k);
}

/// Whether a sweep visits the aggressor before the victim.
spec fn aggressor_first(fault: Coupling, dir: Direction) -> bool {
    (dir == Direction::Ascending) == (fault.aggressor < fault.victim)
}

/// What the two cells hold when a sweep comes to the victim.
spec fn seen_in(
    fault: Coupling,
    pass: sweep::Pass,
    s: (Option<bool>, Option<bool>),
) -> (Option<bool>, Option<bool>) {
    if aggressor_first(fault, pass.dir) {
        visited(coupling_step(fault), s, pass.ops, fault.aggressor, pass.ops.len() as int)
    } else {
        s
    }
}

/// What the two cells hold after a sweep.
spec fn left_by(
    fault: Coupling,
    pass: sweep::Pass,
    s: (Option<bool>, Option<bool>),
) -> (Option<bool>, Option<bool>) {
    let step = coupling_step(fault);
    let n = pass.ops.len() as int;
    let at_victim = visited(step, seen_in(fault, pass, s), pass.ops, fault.victim, n);
    if aggressor_first(fault, pass.dir) {
        at_victim
    } else {
        visited(step, at_victim, pass.ops, fault.aggressor, n)
    }
}

/// The visit of the victim in pass `p`, and what the pass leaves.
proof fn lemma_coupled_pass(
    passes: Seq<sweep::Pass>,
    len: int,
    n: int,
    p: int,
    fault: Coupling,
) -> (k: int)
    requires
        0 <= p < n,
        0 <= fault.aggressor < len,
        0 <= fault.victim < len,
        fault.aggressor != fault.victim,
        passes[p].ops.len() > 0,
    ensures
        ({
            let step = coupling_step(fault);
            let script = sweep::passes_script(passes, len, n);
            let s = follow(step, unknown(), sweep::passes_script(passes, len, p));
            &&& 0 <= k < script.len()
            &&& script[k] == sweep::cell_step(passes[p].ops[0], fault.victim)
            &&& follow(step, unknown(), script.take(k)) == seen_in(fault, passes[p], s)
            &&& follow(step, unknown(), sweep::passes_script(passes, len, p + 1)) == left_by(
                fault,
                passes[p],
                s,
            )
        }),
{
    let step = coupling_step(fault);
    let pass = passes[p];
    let prior = sweep::passes_script(passes, len, p);
    let s = follow(step, unknown(), prior);
    let (ka, kv): (int, int) = match pass.dir {
        Direction::Ascending => (fault.aggressor, fault.victim),
        Direction::Descending => (len - 1 - fault.aggressor, len - 1 - fault.victim),
    };
    assert(sweep::cell(pass.dir, len, ka) == fault.aggressor);
    assert(sweep::cell(pass.dir, len, kv) == fault.victim);
    if ka < kv {
        lemma_follow_sweep(step, s, pass.dir, pass.ops, len, ka, kv);
    } else {
        lemma_follow_sweep(step, s, pass.dir, pass.ops, len, kv, ka);
    }
    lemma_follow_concat(
        step,
        unknown(),
        prior,
        sweep::sweep_script(pass.dir, pass.ops, len, kv),
    );
    lemma_follow_concat(
        step,
        unknown(),
        prior,
        sweep::sweep_script(pass.dir, pass.ops, len, len),
    );
    soundness::lemma_visit_at(passes, len, n, p, kv)
}

/// The March C- sequence finds coupling: run to its end on memory where one cell
/// disturbs another, it reports a failure, whichever of the two has the lower
/// address.
pub proof fn law_coupling_is_found(
    len: int,
    done: Seq<memory::Access>,
    base: int,
    fault: Coupling,
)
    requires
        0 <= fault.aggressor < len,
        0 <= fault.victim < len,
        fault.aggressor != fault.victim,
        0 <= fault.from < 64,
        0 <= fault.at < 64,
        memory::performs(march::march_script(len), done),
        done.len() == march::march_script(len).len(),
        coupled(done, fault),
    ensures
        memory::mismatches(march::march_script(len), done, base).len() > 0,
{
    let script = march::march_script(len);
    let passes = march::march_passes();
    soundness::lemma_pattern_bits(fault.from as u64);
    soundness::lemma_pattern_bits(fault.at as u64);
    assert(forall|x: bool| failure::bit(#[trigger] march::word_of(x), fault.from) == x);
    assert(forall|x: bool| failure::bit(#[trigger] march::word_of(x), fault.at) == x);
    reveal_with_fuel(visited, 3);
    assert(sweep::passes_script(passes, len, 0) =~= Seq::empty());
    let k0 = lemma_coupled_pass(passes, len, 6, 0, fault);
    let k1 = lemma_coupled_pass(passes, len, 6, 1, fault);
    let k2 = lemma_coupled_pass(passes, len, 6, 2, fault);
    let k3 = lemma_coupled_pass(passes, len, 6, 3, fault);
    let k4 = lemma_coupled_pass(passes, len, 6, 4, fault);
    let k5 = lemma_coupled_pass(passes, len, 6, 5, fault);
    let lower = fault.aggressor < fault.victim;
    let k: int = match fault.effect {
        Effect::Inverts => if lower {
            if fault.to {
                k1
            } else {
                k2
            }
        } else {
            if fault.to {
                k3
            } else {
                k4
            }
        },
        Effect::Sets(v) => if lower {
            if fault.to {
                if v {
                    k1
                } else {
                    k4
                }
            } else {
                if v {
                    k5
                } else {
                    k2
                }
            }
        } else {
            if v {
                k3
            } else if fault.to {
                k2
            } else {
                k4
            }
        },
        Effect::Keeps(v) => if lower {
            if v {
                k1
            } else if fault.to {
                k4
            } else {
                k2
            }
        } else {
            if fault.to {
                if v {
                    k3
                } else {
                    k2
                }
            } else {
                if v {
                    k1
                } else {
                    k4
                }
            }
        },
    };
    lemma_coupled_read(script, done, base, fault, k);
}

/// The words of the first seed.
proof fn lemma_solid_seed()
    ensures
        moving_inversions::SEED_SOLID == march::word_of(false),
        !moving_inversions::SEED_SOLID == march::word_of(true),
{
    assert(!0u64 == 0xFFFF_FFFF_FFFF_FFFFu64) by (bit_vector);
}

/// Moving inversions find every cell that inverts another when it turns: run to
/// their end on such memory, they report a failure.
pub proof fn law_inverting_coupling_is_found_by_inversions(
    len: int,
    done: Seq<memory::Access>,
    base: int,
    fault: Coupling,
)
    requires
        fault.effect is Inverts,
        0 <= fault.aggressor < len,
        0 <= fault.victim < len,
        fault.aggressor != fault.victim,
        0 <= fault.from < 64,
        0 <= fault.at < 64,
        memory::performs(moving_inversions::inversion_script(len), done),
        done.len() == moving_inversions::inversion_script(len).len(),
        coupled(done, fault),
    ensures
        memory::mismatches(moving_inversions::inversion_script(len), done, base).len() > 0,
{
    let script = moving_inversions::inversion_script(len);
    let passes = moving_inversions::inversion_passes();
    soundness::lemma_pattern_bits(fault.from as u64);
    soundness::lemma_pattern_bits(fault.at as u64);
    lemma_solid_seed();
    reveal_with_fuel(visited, 3);
    assert(sweep::passes_script(passes, len, 0) =~= Seq::empty());
    let k0 = lemma_coupled_pass(passes, len, 8, 0, fault);
    let k1 = lemma_coupled_pass(passes, len, 8, 1, fault);
    let k2 = lemma_coupled_pass(passes, len, 8, 2, fault);
    let k3 = lemma_coupled_pass(passes, len, 8, 3, fault);
    let k: int = if fault.aggressor < fault.victim {
        if fault.to {
            k1
        } else {
            k3
        }
    } else {
        k2
    };
    lemma_coupled_read(script, done, base, fault, k);
}

/// A fill with one word is a sweep that stores it.
proof fn lemma_fill_is_sweep(word: u64, len: int, n: int)
    requires
        0 <= n <= len,
    ensures
        sweep::sweep_script(Direction::Ascending, seq![CellOp::Write(word)], len, n)
            == ops::fill_script(ops::constant_words(word), len).take(n),
    decreases n,
{
    let fill = ops::fill_script(ops::constant_words(word), len);
    let ops = seq![CellOp::Write(word)];
    if n > 0 {
        lemma_fill_is_sweep(word, len, n - 1);
        assert(sweep::cell_script(ops, n - 1) =~= seq![fill[n - 1]]);
        assert(fill.take(n) =~= fill.take(n - 1) + seq![fill[n - 1]]);
    } else {
        assert(fill.take(0) =~= Seq::empty());
    }
}

/// A check for one word is a sweep that loads it.
proof fn lemma_check_is_sweep(word: u64, len: int, n: int)
    requires
        0 <= n <= len,
    ensures
        sweep::sweep_script(Direction::Ascending, seq![CellOp::Read(word)], len, n)
            == ops::verify_script(ops::constant_words(word), len).take(n),
    decreases n,
{
    let check = ops::verify_script(ops::constant_words(word), len);
    let ops = seq![CellOp::Read(word)];
    if n > 0 {
        lemma_check_is_sweep(word, len, n - 1);
        assert(sweep::cell_script(ops, n - 1) =~= seq![check[n - 1]]);
        assert(check.take(n) =~= check.take(n - 1) + seq![check[n - 1]]);
    } else {
        assert(check.take(0) =~= Seq::empty());
    }
}

/// The sweeps that rounds over a list of words come to: for each word one that stores
/// it and one that loads it.
spec fn round_passes(words: Seq<u64>) -> Seq<sweep::Pass> {
    Seq::new(
        2 * words.len(),
        |k: int|
            sweep::Pass {
                dir: Direction::Ascending,
                ops: if k % 2 == 0 {
                    seq![CellOp::Write(words[k / 2])]
                } else {
                    seq![CellOp::Read(words[k / 2])]
                },
            },
    )
}

/// Rounds are sweeps.
proof fn lemma_rounds_are_sweeps(words: Seq<u64>, len: int, n: int)
    requires
        0 <= len,
        0 <= n <= words.len(),
    ensures
        rounds::rounds_script(words, len, n) == sweep::passes_script(
            round_passes(words),
            len,
            2 * n,
        ),
    decreases n,
{
    let passes = round_passes(words);
    if n > 0 {
        lemma_rounds_are_sweeps(words, len, n - 1);
        let word = words[n - 1];
        let fill = ops::fill_script(ops::constant_words(word), len);
        let check = ops::verify_script(ops::constant_words(word), len);
        lemma_fill_is_sweep(word, len, len);
        lemma_check_is_sweep(word, len, len);
        assert(fill.take(len) =~= fill);
        assert(check.take(len) =~= check);
        assert((2 * n - 2) / 2 == n - 1 && (2 * n - 2) % 2 == 0);
        assert((2 * n - 1) / 2 == n - 1 && (2 * n - 1) % 2 == 1);
        assert(passes[2 * n - 2].ops == seq![CellOp::Write(word)]);
        assert(passes[2 * n - 1].ops == seq![CellOp::Read(word)]);
        let prior = sweep::passes_script(passes, len, 2 * n - 2);
        assert(sweep::passes_script(passes, len, 2 * n - 1) == prior + fill);
        assert(sweep::passes_script(passes, len, 2 * n) == prior + fill + check);
        assert(prior + fill + check =~= prior + ops::round_script(
            ops::constant_words(word),
            len,
        ));
    }
}

/// Whether round `r` of a list of words shows a coupling. Its fill brings the
/// aggressor to the state in which it disturbs, after the victim was filled unless
/// the victim is kept at its value, and the check expects another bit of the victim.
pub open spec fn shown_in_round(words: Seq<u64>, r: int, fault: Coupling) -> bool {
    &&& 0 <= r < words.len()
    &&& failure::bit(words[r], fault.from) == fault.to
    &&& match fault.effect {
        Effect::Keeps(v) => v != failure::bit(words[r], fault.at),
        Effect::Sets(v) => v != failure::bit(words[r], fault.at) && turned_in_round(
            words,
            r,
            fault,
        ),
        Effect::Inverts => turned_in_round(words, r, fault),
    }
}

/// Whether the fill of round `r` turns the aggressor, after it filled the victim.
pub open spec fn turned_in_round(words: Seq<u64>, r: int, fault: Coupling) -> bool {
    &&& 0 < r < words.len()
    &&& fault.victim < fault.aggressor
    &&& failure::bit(words[r - 1], fault.from) != fault.to
    &&& failure::bit(words[r], fault.from) == fault.to
}

/// Fill-and-verify rounds find the couplings that one of their words shows: run to
/// their end on memory with such a coupling, they report a failure.
pub proof fn law_rounds_find_coupling(
    words: Seq<u64>,
    r: int,
    len: int,
    done: Seq<memory::Access>,
    base: int,
    fault: Coupling,
)
    requires
        0 <= fault.aggressor < len,
        0 <= fault.victim < len,
        fault.aggressor != fault.victim,
        shown_in_round(words, r, fault),
        memory::performs(rounds::rounds_script(words, len, words.len() as int), done),
        done.len() == rounds::rounds_script(words, len, words.len() as int).len(),
        coupled(done, fault),
    ensures
        memory::mismatches(
            rounds::rounds_script(words, len, words.len() as int),
            done,
            base,
        ).len() > 0,
{
    let passes = round_passes(words);
    let n = 2 * words.len() as int;
    let script = sweep::passes_script(passes, len, n);
    lemma_rounds_are_sweeps(words, len, words.len() as int);
    reveal_with_fuel(visited, 2);
    assert((2 * r) / 2 == r && (2 * r) % 2 == 0);
    assert((2 * r + 1) / 2 == r && (2 * r + 1) % 2 == 1);
    assert(passes[2 * r].ops == seq![CellOp::Write(words[r])]);
    assert(passes[2 * r + 1].ops == seq![CellOp::Read(words[r])]);
    if turned_in_round(words, r, fault) {
        assert((2 * r - 2) / 2 == r - 1 && (2 * r - 2) % 2 == 0);
        assert((2 * r - 1) / 2 == r - 1 && (2 * r - 1) % 2 == 1);
        assert(passes[2 * r - 2].ops == seq![CellOp::Write(words[r - 1])]);
        assert(passes[2 * r - 1].ops == seq![CellOp::Read(words[r - 1])]);
        let before = lemma_coupled_pass(passes, len, n, 2 * r - 2, fault);
        let between = lemma_coupled_pass(passes, len, n, 2 * r - 1, fault);
    }
    let fill = lemma_coupled_pass(passes, len, n, 2 * r, fault);
    let check = lemma_coupled_pass(passes, len, n, 2 * r + 1, fault);
    lemma_coupled_read(script, done, base, fault, check);
}

/// The bits of the words that the fill-and-verify patterns store.
proof fn lemma_round_bits(r: u64, b: u64)
    requires
        r < 64,
        b < 64,
    ensures
        failure::bit(1u64 << r, b as int) == (r == b),
        failure::bit(!(1u64 << r), b as int) == (r != b),
        failure::bit(0xAAAA_AAAA_AAAA_AAAA, b as int) == (b % 2 == 1),
        failure::bit(0x5555_5555_5555_5555, b as int) == (b % 2 == 0),
{
    assert((((1u64 << r) >> b) & 1 == 1) == (r == b) && (((!(1u64 << r)) >> b) & 1 == 1) == (r
        != b)) by (bit_vector)
        requires
            r < 64,
            b < 64,
    ;
    assert(((0xAAAA_AAAA_AAAA_AAAAu64 >> b) & 1 == 1) == (b % 2 == 1) && ((
    0x5555_5555_5555_5555u64 >> b) & 1 == 1) == (b % 2 == 0)) by (bit_vector)
        requires
            b < 64,
    ;
}

/// Every pattern that claims coupling finds a bit that is tied to a bit of another
/// cell, as by a bridge between neighbouring lines: run to its end on memory where a
/// bit is kept at 1 while the other is 1, or at 0 while the other is 0, and one of the
/// two is at an odd and the other at an even position, it reports a failure.
pub proof fn law_tied_bits_are_found(
    pattern: Pattern,
    len: int,
    done: Seq<memory::Access>,
    base: int,
    fault: Coupling,
)
    requires
        pattern.detects().contains(FaultClass::Coupling),
        0 <= fault.aggressor < len,
        0 <= fault.victim < len,
        fault.aggressor != fault.victim,
        0 <= fault.from < 64,
        0 <= fault.at < 64,
        fault.from % 2 != fault.at % 2,
        fault.effect == Effect::Keeps(fault.to),
        memory::performs(pattern.script(len), done),
        done.len() == pattern.script(len).len(),
        coupled(done, fault),
    ensures
        memory::mismatches(pattern.script(len), done, base).len() > 0,
{
    let from = fault.from as u64;
    let at = fault.at as u64;
    lemma_round_bits(from, from);
    lemma_round_bits(from, at);
    lemma_round_bits(at, from);
    lemma_round_bits(at, at);
    match pattern {
        Pattern::WalkingOnes => {
            let r: int = if fault.to {
                fault.from
            } else {
                fault.at
            };
            law_rounds_find_coupling(walking::walking_ones(), r, len, done, base, fault);
        },
        Pattern::WalkingZeros => {
            let r: int = if fault.to {
                fault.at
            } else {
                fault.from
            };
            law_rounds_find_coupling(walking::walking_zeros(), r, len, done, base, fault);
        },
        Pattern::Checkerboard => {
            let r: int = if fault.to == (fault.from % 2 == 1) {
                0
            } else {
                1
            };
            law_rounds_find_coupling(checkerboard::checker_words(), r, len, done, base, fault);
        },
        Pattern::MarchCMinus => {
            law_coupling_is_found(len, done, base, fault);
        },
        Pattern::SolidBits => {
            assert(pattern.detects()[0] == FaultClass::StuckAt);
        },
        Pattern::StuckAddress => {
            assert(pattern.detects()[0] == FaultClass::AddressDecoder);
        },
    }
}

/// How a word stored changes what a bit holds that does not turn to `to`.
spec fn sluggish_step(cell: int, b: int, to: bool) -> spec_fn(Option<bool>, int, u64) -> Option<
    bool,
> {
    |s: Option<bool>, index: int, word: u64|
        if index != cell || failure::bit(word, b) == to {
            s
        } else {
            Some(!to)
        }
}

/// What such a bit holds follows from the script.
proof fn lemma_sluggish_by_script(
    script: Seq<memory::Step>,
    done: Seq<memory::Access>,
    cell: int,
    b: int,
    to: bool,
)
    requires
        memory::performs(script, done),
    ensures
        follow(sluggish_step(cell, b, to), None, script.take(done.len() as int)) == sluggish_bit(
            done,
            cell,
            b,
            to,
        ),
    decreases done.len(),
{
    let n = done.len() as int;
    if n > 0 {
        let rest = done.drop_last();
        assert(memory::performs(script, rest)) by {
            assert forall|k: int| 0 <= k < rest.len() implies memory::obeys(
                script[k],
                #[trigger] rest[k],
            ) by {
                assert(memory::obeys(script[k], done[k]));
            }
        }
        lemma_sluggish_by_script(script, rest, cell, b, to);
        assert(script.take(n).drop_last() =~= script.take(n - 1));
        assert(memory::obeys(script[n - 1], done[n - 1]));
        assert(script.take(n).last() == script[n - 1]);
    }
}

/// The visit of such a cell in pass `p`, and what the pass leaves in it.
proof fn lemma_sluggish_pass(
    passes: Seq<sweep::Pass>,
    len: int,
    n: int,
    p: int,
    cell: int,
    b: int,
    to: bool,
) -> (k: int)
    requires
        0 <= p < n,
        0 <= cell < len,
        passes[p].ops.len() > 0,
    ensures
        ({
            let step = sluggish_step(cell, b, to);
            let script = sweep::passes_script(passes, len, n);
            let s = follow(step, None, sweep::passes_script(passes, len, p));
            &&& 0 <= k < script.len()
            &&& script[k] == sweep::cell_step(passes[p].ops[0], cell)
            &&& follow(step, None, script.take(k)) == s
            &&& follow(step, None, sweep::passes_script(passes, len, p + 1)) == visited(
                step,
                s,
                passes[p].ops,
                cell,
                passes[p].ops.len() as int,
            )
        }),
{
    let step = sluggish_step(cell, b, to);
    let pass = passes[p];
    let prior = sweep::passes_script(passes, len, p);
    let s = follow(step, None, prior);
    let c: int = match pass.dir {
        Direction::Ascending => cell,
        Direction::Descending => len - 1 - cell,
    };
    assert(sweep::cell(pass.dir, len, c) == cell);
    lemma_follow_others(step, s, pass.dir, pass.ops, len, 0, c);
    lemma_follow_visit(step, s, pass.dir, pass.ops, len, c);
    lemma_follow_others(step, s, pass.dir, pass.ops, len, c + 1, len);
    lemma_follow_concat(step, None, prior, sweep::sweep_script(pass.dir, pass.ops, len, c));
    lemma_follow_concat(step, None, prior, sweep::sweep_script(pass.dir, pass.ops, len, len));
    soundness::lemma_visit_at(passes, len, n, p, c)
}

/// A read of such a bit that expects it to have turned is a mismatch.
proof fn lemma_sluggish_read(
    script: Seq<memory::Step>,
    done: Seq<memory::Access>,
    base: int,
    cell: int,
    b: int,
    to: bool,
    k: int,
)
    requires
        memory::performs(script, done),
        0 <= k < done.len(),
        sluggish(done, cell, b, to),
        match script[k] {
            memory::Step::Read { index, expected } => index == cell && follow(
                sluggish_step(cell, b, to),
                None,
                script.take(k),
            ) == Some(!failure::bit(expected, b)),
            _ => false,
        },
    ensures
        memory::mismatches(script, done, base).len() > 0,
{
    assert(memory::obeys(script[k], done[k]));
    let prefix = done.take(k);
    assert forall|m: int| 0 <= m < prefix.len() implies memory::obeys(
        script[m],
        #[trigger] prefix[m],
    ) by {
        assert(memory::obeys(script[m], done[m]));
    }
    lemma_sluggish_by_script(script, prefix, cell, b, to);
    soundness::lemma_wrong_read_is_reported(script, done, base, k);
}

/// Every pattern that claims transition faults finds a bit that does not turn: run
/// to its end on memory where one bit of one cell does not turn from 0 to 1, or
/// from 1 to 0, it reports a failure.
pub proof fn law_transition_fault_is_found(
    pattern: Pattern,
    len: int,
    done: Seq<memory::Access>,
    base: int,
    cell: int,
    b: int,
    to: bool,
)
    requires
        pattern.detects().contains(FaultClass::Transition),
        0 <= cell < len,
        0 <= b < 64,
        memory::performs(pattern.script(len), done),
        done.len() == pattern.script(len).len(),
        sluggish(done, cell, b, to),
    ensures
        memory::mismatches(pattern.script(len), done, base).len() > 0,
{
    match pattern {
        Pattern::MarchCMinus => {
            let passes = march::march_passes();
            soundness::lemma_pattern_bits(b as u64);
            reveal_with_fuel(visited, 3);
            assert(sweep::passes_script(passes, len, 0) =~= Seq::empty());
            let k0 = lemma_sluggish_pass(passes, len, 6, 0, cell, b, to);
            let k1 = lemma_sluggish_pass(passes, len, 6, 1, cell, b, to);
            let k2 = lemma_sluggish_pass(passes, len, 6, 2, cell, b, to);
            let k3 = lemma_sluggish_pass(passes, len, 6, 3, cell, b, to);
            let k: int = if to {
                k2
            } else {
                k3
            };
            lemma_sluggish_read(pattern.script(len), done, base, cell, b, to, k);
        },
        Pattern::SolidBits => {
            assert(pattern.detects()[0] == FaultClass::StuckAt);
        },
        Pattern::StuckAddress => {
            assert(pattern.detects()[0] == FaultClass::AddressDecoder);
        },
        _ => {
            assert(pattern.detects()[0] == FaultClass::StuckAt);
            assert(pattern.detects()[1] == FaultClass::Coupling);
        },
    }
}

/// Moving inversions find a bit that does not turn: run to their end on memory
/// where one bit of one cell does not turn from 0 to 1, or from 1 to 0, they
/// report a failure.
pub proof fn law_transition_fault_is_found_by_inversions(
    len: int,
    done: Seq<memory::Access>,
    base: int,
    cell: int,
    b: int,
    to: bool,
)
    requires
        0 <= cell < len,
        0 <= b < 64,
        memory::performs(moving_inversions::inversion_script(len), done),
        done.len() == moving_inversions::inversion_script(len).len(),
        sluggish(done, cell, b, to),
    ensures
        memory::mismatches(moving_inversions::inversion_script(len), done, base).len() > 0,
{
    let script = moving_inversions::inversion_script(len);
    let passes = moving_inversions::inversion_passes();
    soundness::lemma_pattern_bits(b as u64);
    lemma_solid_seed();
    reveal_with_fuel(visited, 3);
    assert(sweep::passes_script(passes, len, 0) =~= Seq::empty());
    let k0 = lemma_sluggish_pass(passes, len, 8, 0, cell, b, to);
    let k1 = lemma_sluggish_pass(passes, len, 8, 1, cell, b, to);
    let k2 = lemma_sluggish_pass(passes, len, 8, 2, cell, b, to);
    let k3 = lemma_sluggish_pass(passes, len, 8, 3, cell, b, to);
    let k: int = if to {
        k2
    } else {
        k3
    };
    lemma_sluggish_read(script, done, base, cell, b, to, k);
}

} // verus!
