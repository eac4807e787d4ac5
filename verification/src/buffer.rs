//! Memory that is not broken, and an operator who never interrupts: for dry
//! runs.

use vstd::prelude::*;

use crate::memory::{self, Memory, Monitor};
use crate::soundness;

verus! {

/// Sound memory: ordinary words, each load giving back what was stored last.
pub struct WordBuffer {
    words: Vec<u64>,
    base: usize,
    trace: Ghost<Seq<memory::Access>>,
}

impl WordBuffer {
    #[verifier::type_invariant]
    spec fn inv(self) -> bool {
        &&& self.base + self.words@.len() * 8 <= usize::MAX + 1
        &&& soundness::faithful(self.trace@)
        &&& forall|i: int|
            0 <= i < self.words@.len() && (#[trigger] soundness::stored(self.trace@, i)) is Some
                ==> soundness::stored(self.trace@, i) == Some(self.words@[i])
    }

    /// The words as they stand.
    pub closed spec fn contents(&self) -> Seq<u64> {
        self.words@
    }

    /// Memory that holds `words`, the first of them at address `base`. The words
    /// must all be addressable.
    pub fn new(words: Vec<u64>, base: usize) -> (buffer: Self)
        requires
            base + words@.len() * 8 <= usize::MAX + 1,
        ensures
            buffer.size() == words@.len(),
            buffer.base() == base,
            buffer.contents() == words@,
            buffer.trace() == Seq::<memory::Access>::empty(),
    {
        WordBuffer { words, base, trace: Ghost(Seq::empty()) }
    }

    /// The word at `index`, without an access to the memory.
    pub fn peek(&self, index: usize) -> (word: u64)
        requires
            index < self.size(),
        ensures
            word == self.contents()[index as int],
    {
        self.words[index]
    }
}

/// One access more to sound memory: it stays sound, and what is stored where is
/// as the access says.
proof fn lemma_faithful_push(done: Seq<memory::Access>, access: memory::Access)
    requires
        soundness::faithful(done),
        match access {
            memory::Access::Read { index, word } => soundness::stored(done, index) is Some
                ==> soundness::stored(done, index) == Some(word),
            _ => true,
        },
    ensures
        soundness::faithful(done.push(access)),
        forall|i: int| #[trigger]
            soundness::stored(done.push(access), i) == (match access {
                memory::Access::Write { index, word } if index == i => Some(word),
                _ => soundness::stored(done, i),
            }),
{
    let more = done.push(access);
    assert(more.drop_last() =~= done);
    assert forall|k: int| 0 <= k < more.len() implies match #[trigger] more[k] {
        memory::Access::Read { index, word } => soundness::stored(more.take(k), index) is Some
            ==> soundness::stored(more.take(k), index) == Some(word),
        _ => true,
    } by {
        assert(more.take(k) =~= done.take(k));
        if k < done.len() {
            assert(more[k] == done[k]);
        } else {
            assert(done.take(k) =~= done);
        }
    }
}

impl Memory for WordBuffer {
    closed spec fn size(&self) -> int {
        self.words@.len() as int
    }

    closed spec fn base(&self) -> int {
        self.base as int
    }

    closed spec fn trace(&self) -> Seq<memory::Access> {
        self.trace@
    }

    fn word_count(&self) -> (n: usize) {
        self.words.len()
    }

    fn base_addr(&self) -> (addr: usize) {
        proof {
            use_type_invariant(self);
        }
        self.base
    }

    fn write(&mut self, index: usize, word: u64)
        ensures
            final(self).contents() == old(self).contents().update(index as int, word),
            soundness::faithful(final(self).trace()),
    {
        proof {
            use_type_invariant(&*self);
            lemma_faithful_push(
                self.trace@,
                memory::Access::Write { index: index as int, word },
            );
        }
        let mut words: Vec<u64> = Vec::new();
        core::mem::swap(&mut words, &mut self.words);
        words.set(index, word);
        let ghost trace = self.trace@.push(memory::Access::Write { index: index as int, word });
        *self = WordBuffer { words, base: self.base, trace: Ghost(trace) };
    }

    fn read(&mut self, index: usize) -> (word: u64)
        ensures
            final(self).contents() == old(self).contents(),
            word == old(self).contents()[index as int],
            soundness::faithful(final(self).trace()),
    {
        let word: u64 = self.words[index];
        proof {
            use_type_invariant(&*self);
            lemma_faithful_push(self.trace@, memory::Access::Read { index: index as int, word });
        }
        self.trace = Ghost(self.trace@.push(memory::Access::Read { index: index as int, word }));
        word
    }
}

/// An operator who listens and never asks for a stop.
pub struct Unattended {
    log: Ghost<Seq<memory::Signal>>,
}

impl Unattended {
    /// Nothing heard yet.
    pub fn new() -> (monitor: Self)
        ensures
            monitor.log() == Seq::<memory::Signal>::empty(),
    {
        Unattended { log: Ghost(Seq::empty()) }
    }
}

impl Monitor for Unattended {
    closed spec fn log(&self) -> Seq<memory::Signal> {
        self.log@
    }

    fn subpass(&mut self) {
        self.log = Ghost(self.log@.push(memory::Signal::Subpass));
    }

    fn activity(&mut self, index: usize, total: usize) {
        self.log = Ghost(
            self.log@.push(
                memory::Signal::Activity { index: index as int, total: total as int },
            ),
        );
    }

    fn quit_requested(&mut self) -> (quit: bool)
        ensures
            !quit,
    {
        self.log = Ghost(self.log@.push(memory::Signal::Poll { quit: false }));
        false
    }
}

} // verus!
