//! The memory of the runtime: machine words at addresses.
use vstd::prelude::*;

verus! {

/// The number of bytes of a machine word, which is also how words are aligned.
pub const WORD: usize = 8;

/// A range of machine words that grows at its end.
pub struct Memory {
    base: usize,
    words: Vec<usize>,
}

/// The address of the `i`-th of the words that start at `address`.
pub open spec fn nth(address: int, i: int) -> int {
    address + 8 * i
}

/// Whether `n` words that start at `address` are in `mem`.
pub open spec fn has_words(mem: Map<int, usize>, address: int, n: nat) -> bool {
    forall|i: int| 0 <= i < n ==> mem.contains_key(#[trigger] nth(address, i))
}

/// The `n` words of `mem` that start at `address`.
pub open spec fn words_at(mem: Map<int, usize>, address: int, n: nat) -> Seq<usize> {
    Seq::new(n, |i: int| mem[nth(address, i)])
}

/// Whether `a` is the address of one of `n` words that start at `address`.
pub open spec fn is_among(a: int, address: int, n: nat) -> bool {
    address <= a < address + 8 * n && (a - address) % 8 == 0
}

/// The memory `mem` with `values` written one after the other from `address` on.
pub open spec fn write_words(mem: Map<int, usize>, address: int, values: Seq<usize>) -> Map<
    int,
    usize,
> {
    Map::new(
        |a: int| mem.contains_key(a) || is_among(a, address, values.len()),
        |a: int|
            if is_among(a, address, values.len()) {
                values[(a - address) / 8]
            } else {
                mem[a]
            },
    )
}

impl View for Memory {
    type V = Map<int, usize>;

    /// The words by address.
    closed spec fn view(&self) -> Map<int, usize> {
        Map::new(
            |a: int| is_among(a, self.base as int, self.words@.len()),
            |a: int| self.words@[(a - self.base) / 8],
        )
    }
}

impl Memory {
    /// The address of the first word.
    pub closed spec fn start(self) -> int {
        self.base as int
    }

    /// The address behind the last word.
    pub closed spec fn end(self) -> int {
        self.base + 8 * self.words@.len()
    }

    /// Whether all addresses are aligned and fit in a machine word.
    pub closed spec fn wf(self) -> bool {
        &&& self.base % 8 == 0
        &&& self.base + 8 * self.words@.len() <= usize::MAX
    }

    /// Where the words are.
    pub proof fn lemma_addresses(self)
        requires
            self.wf(),
        ensures
            0 <= self.start() <= self.end() <= usize::MAX,
            self.start() % 8 == 0,
            self.end() % 8 == 0,
            forall|a: int| #[trigger]
                self@.contains_key(a) <==> self.start() <= a < self.end() && a % 8 == 0,
    {
    }

    /// A memory without words, which grows from the address `base` on.
    pub fn new(base: usize) -> (r: Self)
        requires
            base % 8 == 0,
        ensures
            r.wf(),
            r.start() == base,
            r.end() == base,
            r@ == Map::<int, usize>::empty(),
    {
        let r = Memory { base, words: Vec::new() };
        assert(r@ =~= Map::<int, usize>::empty());
        r
    }

    /// Whether there is a word at `address`.
    pub fn contains(&self, address: usize) -> (r: bool)
        requires
            self.wf(),
        ensures
            r == self@.contains_key(address as int),
    {
        address >= self.base && (address - self.base) % 8 == 0 && (address - self.base) / 8
            < self.words.len()
    }

    /// The address behind the last word.
    pub fn limit(&self) -> (r: usize)
        requires
            self.wf(),
        ensures
            r == self.end(),
    {
        self.base + self.words.len() * 8
    }

    /// The word at `address`.
    pub fn read(&self, address: usize) -> (r: usize)
        requires
            self.wf(),
            self@.contains_key(address as int),
        ensures
            r == self@[address as int],
    {
        self.words[(address - self.base) / 8]
    }

    /// Writes the word at `address`.
    pub fn write(&mut self, address: usize, value: usize)
        requires
            old(self).wf(),
            old(self)@.contains_key(address as int),
        ensures
            final(self).wf(),
            final(self).start() == old(self).start(),
            final(self).end() == old(self).end(),
            final(self)@ == old(self)@.insert(address as int, value),
    {
        let i = (address - self.base) / 8;
        self.words[i] = value;
        assert(self@ =~= old(self)@.insert(address as int, value));
    }

    /// Adds `n` words, all 0, and returns the address of the first.
    pub fn grow(&mut self, n: usize) -> (r: usize)
        requires
            old(self).wf(),
            old(self).end() + 8 * n <= usize::MAX,
        ensures
            final(self).wf(),
            final(self).start() == old(self).start(),
            final(self).end() == old(self).end() + 8 * n,
            r == old(self).end(),
            final(self)@ == write_words(
                old(self)@,
                old(self).end(),
                Seq::new(n as nat, |i: int| 0usize),
            ),
    {
        let r = self.limit();
        for i in 0..n
            invariant
                self.base == old(self).base,
                old(self).end() + 8 * n <= usize::MAX,
                self.words@ == old(self).words@ + Seq::new(i as nat, |j: int| 0usize),
        {
            self.words.push(0);
            assert(self.words@ =~= old(self).words@ + Seq::new((i + 1) as nat, |j: int| 0usize));
        }
        assert(self@ =~= write_words(
            old(self)@,
            old(self).end(),
            Seq::new(n as nat, |i: int| 0usize),
        ));
        r
    }

    /// A copy of the words, at the same addresses.
    pub fn copy(&self) -> (r: Self)
        requires
            self.wf(),
        ensures
            r.wf(),
            r.start() == self.start(),
            r.end() == self.end(),
            r@ == self@,
    {
        let words = self.words.clone();
        assert(words@ =~= self.words@);
        Memory { base: self.base, words }
    }

    /// Whether there is a word `offset` bytes behind `address`.
    pub fn contains_at(&self, address: usize, offset: usize) -> (r: bool)
        requires
            self.wf(),
        ensures
            r == self@.contains_key(address + offset),
    {
        proof {
            self.lemma_addresses();
        }
        address <= usize::MAX - offset && self.contains(address + offset)
    }

    /// Whether there are `n` words that start at `address`.
    pub fn contains_words(&self, address: usize, n: usize) -> (r: bool)
        requires
            self.wf(),
        ensures
            r == has_words(self@, address as int, n as nat),
    {
        if n == 0 {
            return true;
        }
        proof {
            self.lemma_addresses();
            assert(nth(address as int, 0) == address);
        }
        if !self.contains(address) {
            assert(!self@.contains_key(nth(address as int, 0)));
            return false;
        }
        let limit = self.limit();
        let r = n <= (limit - address) / 8;
        proof {
            if r {
                assert forall|i: int| 0 <= i < n implies self@.contains_key(
                    #[trigger] nth(address as int, i),
                ) by {}
            } else {
                assert(!self@.contains_key(nth(address as int, n - 1)));
            }
        }
        r
    }

    /// The `n` words that start at `address`.
    pub fn read_words(&self, address: usize, n: usize) -> (r: Vec<usize>)
        requires
            self.wf(),
            has_words(self@, address as int, n as nat),
        ensures
            r@ == words_at(self@, address as int, n as nat),
    {
        let mut r: Vec<usize> = Vec::new();
        for i in 0..n
            invariant
                self.wf(),
                has_words(self@, address as int, n as nat),
                r@ == words_at(self@, address as int, i as nat),
        {
            proof {
                self.lemma_addresses();
            }
            assert(self@.contains_key(nth(address as int, i as int)));
            r.push(self.read(address + i * 8));
            assert(r@ =~= words_at(self@, address as int, (i + 1) as nat));
        }
        r
    }

    /// Writes `values` one after the other from `address` on.
    pub fn write_all(&mut self, address: usize, values: &Vec<usize>)
        requires
            old(self).wf(),
            has_words(old(self)@, address as int, values@.len()),
        ensures
            final(self).wf(),
            final(self).start() == old(self).start(),
            final(self).end() == old(self).end(),
            final(self)@ == write_words(old(self)@, address as int, values@),
    {
        assert(self@ =~= write_words(old(self)@, address as int, values@.take(0)));
        for i in 0..values.len()
            invariant
                self.wf(),
                self.start() == old(self).start(),
                self.end() == old(self).end(),
                old(self).wf(),
                has_words(old(self)@, address as int, values@.len()),
                self@ == write_words(old(self)@, address as int, values@.take(i as int)),
        {
            proof {
                self.lemma_addresses();
                old(self).lemma_addresses();
            }
            let ghost before = self@;
            assert(old(self)@.contains_key(nth(address as int, i as int)));
            self.write(address + i * 8, values[i]);
            assert(self@ =~= write_words(old(self)@, address as int, values@.take(i + 1)));
        }
        assert(values@.take(values@.len() as int) =~= values@);
    }
}

/// What was written can be read.
pub proof fn lemma_read_written(mem: Map<int, usize>, address: int, values: Seq<usize>)
    ensures
        has_words(write_words(mem, address, values), address, values.len()),
        words_at(write_words(mem, address, values), address, values.len()) == values,
{
    assert(words_at(write_words(mem, address, values), address, values.len()) =~= values);
}

} // verus!
