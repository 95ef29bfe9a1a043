use vstd::prelude::*;

verus! {

/// Bytes per stripe, the unit of every transactional read and write.
pub const STRIPE_SIZE: usize = 8;

/// Bytes of shared memory.
pub const MEM_SIZE: usize = 512;

/// Number of stripes, `MEM_SIZE / STRIPE_SIZE`.
pub const NUM_STRIPES: usize = 64;

/// The top bit of a versioned-lock word; the other bits hold the version.
pub const LOCK_BIT: u64 = 0x8000_0000_0000_0000;

/// `addr` names the first byte of a stripe.
pub open spec fn is_stripe_addr(addr: int) -> bool {
    0 <= addr < MEM_SIZE as int && addr % (STRIPE_SIZE as int) == 0
}

pub open spec fn stripe_index(addr: int) -> int {
    addr / (STRIPE_SIZE as int)
}

pub open spec fn is_locked(w: u64) -> bool {
    w >= LOCK_BIT
}

/// The version held by a versioned-lock word: the word without its lock bit.
pub open spec fn version_of_word(w: u64) -> u64 {
    if w >= LOCK_BIT {
        (w - LOCK_BIT) as u64
    } else {
        w
    }
}

proof fn lemma_stripe_shift(addr: usize)
    ensures
        addr >> 3u32 == addr / 8,
{
    assert(addr >> 3u32 == addr / 8) by (bit_vector);
}

proof fn lemma_word_bits(w: u64)
    ensures
        w & !(1u64 << 63u64) == version_of_word(w),
        (w & (1u64 << 63u64) == 0) == !is_locked(w),
        !is_locked(w) ==> w | (1u64 << 63u64) == w + LOCK_BIT,
{
    assert(w & !(1u64 << 63u64) == (if w >= 0x8000_0000_0000_0000u64 {
        (w - 0x8000_0000_0000_0000u64) as u64
    } else {
        w
    })) by (bit_vector);
    assert((w & (1u64 << 63u64) == 0) == (w < 0x8000_0000_0000_0000u64)) by (bit_vector);
    assert(w < 0x8000_0000_0000_0000u64 ==> w | (1u64 << 63u64) == w + 0x8000_0000_0000_0000u64)
        by (bit_vector);
}

/// Whether `addr` is a valid stripe address: in range and stripe-aligned.
pub fn valid_stripe_addr(addr: usize) -> (r: bool)
    ensures
        r == is_stripe_addr(addr as int),
{
    addr < MEM_SIZE && addr % STRIPE_SIZE == 0
}

/// The shared region: bytes split into stripes, one versioned-lock word per
/// stripe, and the global version clock.
pub struct Memory {
    mem: Vec<u8>,
    lock_ver: Vec<u64>,
    global_clock: u64,
    shift_size: u32,
}

impl Memory {
    pub closed spec fn bytes(&self) -> Seq<u8> {
        self.mem@
    }

    pub closed spec fn words(&self) -> Seq<u64> {
        self.lock_ver@
    }

    pub closed spec fn clock(&self) -> u64 {
        self.global_clock
    }

    pub closed spec fn shift_ok(&self) -> bool {
        self.shift_size == 3
    }

    /// The sizes fit the configuration, the clock leaves room for the lock
    /// bit, and no stripe's version is ahead of the clock.
    pub open spec fn wf(&self) -> bool {
        &&& self.shift_ok()
        &&& self.bytes().len() == MEM_SIZE
        &&& self.words().len() == NUM_STRIPES
        &&& self.clock() < LOCK_BIT
        &&& forall|s: int|
            0 <= s < NUM_STRIPES ==> version_of_word(#[trigger] self.words()[s]) <= self.clock()
    }

    /// No stripe's lock bit is set.
    pub open spec fn all_unlocked(&self) -> bool {
        forall|s: int| 0 <= s < NUM_STRIPES ==> !is_locked(#[trigger] self.words()[s])
    }

    pub open spec fn word_at(&self, addr: int) -> u64 {
        self.words()[stripe_index(addr)]
    }

    /// The bytes of the stripe that starts at `addr`.
    pub open spec fn stripe(&self, addr: int) -> Seq<u8> {
        self.bytes().subrange(addr, addr + STRIPE_SIZE as int)
    }

    /// Every stripe still at version 0, which no commit has written, holds
    /// its initial zero bytes.
    pub open spec fn unwritten_zero(&self) -> bool {
        forall|i: int|
            0 <= i < MEM_SIZE && version_of_word(self.words()[stripe_index(i)]) == 0
                ==> #[trigger] self.bytes()[i] == 0
    }

    /// No stripe's version is lower in `next` than in `self`.
    pub open spec fn versions_le(&self, next: &Memory) -> bool {
        forall|s: int|
            0 <= s < NUM_STRIPES ==> version_of_word(#[trigger] self.words()[s]) <= version_of_word(
                next.words()[s],
            )
    }

    pub fn new() -> (r: Self)
        ensures
            r.wf(),
            r.all_unlocked(),
            r.clock() == 0,
            forall|i: int| 0 <= i < MEM_SIZE ==> #[trigger] r.bytes()[i] == 0,
            forall|s: int| 0 <= s < NUM_STRIPES ==> #[trigger] r.words()[s] == 0,
    {
        let mut mem: Vec<u8> = Vec::new();
        let mut i: usize = 0;
        while i < MEM_SIZE
            invariant
                i <= MEM_SIZE,
                mem@.len() == i,
                forall|j: int| 0 <= j < i ==> #[trigger] mem@[j] == 0,
            decreases MEM_SIZE - i,
        {
            mem.push(0);
            i = i + 1;
        }
        let shift: u32 = 3;
        let mut lock_ver: Vec<u64> = Vec::new();
        let n: usize = MEM_SIZE >> shift;
        assert(512usize >> 3u32 == 64usize) by (bit_vector);
        let mut k: usize = 0;
        while k < n
            invariant
                n == NUM_STRIPES,
                k <= n,
                lock_ver@.len() == k,
                forall|j: int| 0 <= j < k ==> #[trigger] lock_ver@[j] == 0,
            decreases n - k,
        {
            lock_ver.push(0);
            k = k + 1;
        }
        Memory { mem, lock_ver, global_clock: 0, shift_size: shift }
    }

    /// Advances the clock by one and returns its new value.
    fn inc_global_clock(&mut self) -> (r: u64)
        requires
            old(self).wf(),
            old(self).clock() + 1 < LOCK_BIT,
        ensures
            final(self).wf(),
            r == old(self).clock() + 1,
            final(self).clock() == r,
            final(self).bytes() == old(self).bytes(),
            final(self).words() == old(self).words(),
    {
        self.global_clock = self.global_clock + 1;
        self.global_clock
    }

    /// The version of the stripe at `addr`, without its lock bit.
    fn get_version(&self, addr: usize) -> (r: u64)
        requires
            self.wf(),
            is_stripe_addr(addr as int),
        ensures
            r == version_of_word(self.word_at(addr as int)),
    {
        let stripe = addr >> self.shift_size;
        proof {
            lemma_stripe_shift(addr);
        }
        let n = self.lock_ver[stripe];
        proof {
            lemma_word_bits(n);
        }
        n & !(1u64 << 63u64)
    }

    /// Whether the stripe at `addr` is unlocked with a version no newer than
    /// `version`: one comparison of the whole word, the lock bit being on top.
    fn test_not_modify(&self, addr: usize, version: u64) -> (r: bool)
        requires
            self.wf(),
            is_stripe_addr(addr as int),
        ensures
            r == (self.word_at(addr as int) <= version),
    {
        let stripe = addr >> self.shift_size;
        proof {
            lemma_stripe_shift(addr);
        }
        let n = self.lock_ver[stripe];
        n <= version
    }

    /// Sets the lock bit of the stripe at `addr` if it was clear.
    fn lock_addr(&mut self, addr: usize) -> (r: bool)
        requires
            old(self).wf(),
            is_stripe_addr(addr as int),
        ensures
            final(self).wf(),
            r == !is_locked(old(self).word_at(addr as int)),
            r ==> final(self).words() == old(self).words().update(
                stripe_index(addr as int),
                (old(self).word_at(addr as int) + LOCK_BIT) as u64,
            ),
            !r ==> final(self).words() == old(self).words(),
            version_of_word(final(self).word_at(addr as int)) == version_of_word(
                old(self).word_at(addr as int),
            ),
            final(self).bytes() == old(self).bytes(),
            final(self).clock() == old(self).clock(),
    {
        let stripe = addr >> self.shift_size;
        proof {
            lemma_stripe_shift(addr);
        }
        let val = self.lock_ver[stripe];
        proof {
            lemma_word_bits(val);
        }
        if val & (1u64 << 63u64) == 0 {
            self.lock_ver.set(stripe, val | (1u64 << 63u64));
            proof {
                assert forall|s: int| 0 <= s < NUM_STRIPES implies version_of_word(
                    #[trigger] self.words()[s],
                ) <= self.clock() by {
                    if s != stripe as int {
                        assert(self.words()[s] == old(self).words()[s]);
                    }
                }
            }
            true
        } else {
            false
        }
    }

    /// Clears the lock bit of the stripe at `addr`, keeping its version.
    fn unlock_addr(&mut self, addr: usize)
        requires
            old(self).wf(),
            is_stripe_addr(addr as int),
        ensures
            final(self).wf(),
            final(self).words() == old(self).words().update(
                stripe_index(addr as int),
                version_of_word(old(self).word_at(addr as int)),
            ),
            final(self).bytes() == old(self).bytes(),
            final(self).clock() == old(self).clock(),
    {
        let stripe = addr >> self.shift_size;
        proof {
            lemma_stripe_shift(addr);
        }
        let val = self.lock_ver[stripe];
        proof {
            lemma_word_bits(val);
        }
        self.lock_ver.set(stripe, val & !(1u64 << 63u64));
        proof {
            assert forall|s: int| 0 <= s < NUM_STRIPES implies version_of_word(
                #[trigger] self.words()[s],
            ) <= self.clock() by {
                if s != stripe as int {
                    assert(self.words()[s] == old(self).words()[s]);
                }
            }
        }
    }

    /// Overwrites the bytes of the stripe at `addr` with `val`.
    fn write_stripe(&mut self, addr: usize, val: [u8; STRIPE_SIZE])
        requires
            old(self).wf(),
            is_stripe_addr(addr as int),
        ensures
            final(self).wf(),
            final(self).words() == old(self).words(),
            final(self).clock() == old(self).clock(),
            forall|i: int|
                0 <= i < MEM_SIZE ==> #[trigger] final(self).bytes()[i] == if stripe_index(i)
                    == stripe_index(addr as int) {
                    val@[i - addr]
                } else {
                    old(self).bytes()[i]
                },
    {
        let mut i: usize = 0;
        while i < STRIPE_SIZE
            invariant
                i <= STRIPE_SIZE,
                self.wf(),
                is_stripe_addr(addr as int),
                self.words() == old(self).words(),
                self.clock() == old(self).clock(),
                forall|j: int|
                    0 <= j < MEM_SIZE ==> #[trigger] self.bytes()[j] == if addr <= j < addr + i {
                        val@[j - addr]
                    } else {
                        old(self).bytes()[j]
                    },
            decreases STRIPE_SIZE - i,
        {
            self.mem.set(addr + i, val[i]);
            i = i + 1;
        }
    }

    /// Stores `version` as the whole lock word of the stripe at `addr`:
    /// the lock bit is cleared and the version installed at once.
    fn publish(&mut self, addr: usize, version: u64)
        requires
            old(self).wf(),
            is_stripe_addr(addr as int),
            version <= old(self).clock(),
        ensures
            final(self).wf(),
            final(self).words() == old(self).words().update(stripe_index(addr as int), version),
            final(self).bytes() == old(self).bytes(),
            final(self).clock() == old(self).clock(),
    {
        let stripe = addr >> self.shift_size;
        proof {
            lemma_stripe_shift(addr);
        }
        self.lock_ver.set(stripe, version);
        proof {
            assert forall|s: int| 0 <= s < NUM_STRIPES implies version_of_word(
                #[trigger] self.words()[s],
            ) <= self.clock() by {
                if s != stripe as int {
                    assert(self.words()[s] == old(self).words()[s]);
                }
            }
        }
    }

    /// Copies the bytes of the stripe at `addr`.
    fn read_stripe(&self, addr: usize) -> (r: [u8; STRIPE_SIZE])
        requires
            self.wf(),
            is_stripe_addr(addr as int),
        ensures
            r@ == self.stripe(addr as int),
    {
        let mut buf: [u8; STRIPE_SIZE] = [0u8; STRIPE_SIZE];
        let mut i: usize = 0;
        while i < STRIPE_SIZE
            invariant
                i <= STRIPE_SIZE,
                self.wf(),
                is_stripe_addr(addr as int),
                buf@.len() == STRIPE_SIZE,
                forall|j: int| 0 <= j < i ==> buf@[j] == self.bytes()[addr + j],
            decreases STRIPE_SIZE - i,
        {
            buf[i] = self.mem[addr + i];
            i = i + 1;
        }
        assert(buf@ =~= self.stripe(addr as int));
        buf
    }
}

/// A read-only transaction: a snapshot of the clock and a conflict flag.
pub struct ReadTrans<'a> {
    read_version: u64,
    conflict: bool,
    mem: &'a Memory,
}

impl<'a> ReadTrans<'a> {
    #[verifier::type_invariant]
    spec fn inv(&self) -> bool {
        self.mem.wf() && self.read_version <= self.mem.global_clock
    }

    pub closed spec fn read_version(&self) -> u64 {
        self.read_version
    }

    pub closed spec fn conflict(&self) -> bool {
        self.conflict
    }

    pub closed spec fn memory(&self) -> Memory {
        *self.mem
    }

    /// `next` is `self` after `load(addr)` returned `r`: the stripe's bytes
    /// exactly when the transaction was free of conflict and the stripe was
    /// unlocked and no newer than the snapshot; a conflict otherwise.
    pub open spec fn load_step(self, next: Self, addr: int, r: Option<[u8; STRIPE_SIZE]>) -> bool {
        &&& next.memory() == self.memory()
        &&& next.read_version() == self.read_version()
        &&& next.conflict() == (self.conflict() || r is None)
        &&& r is Some <==> (!self.conflict() && self.memory().word_at(addr) <= self.read_version())
        &&& r matches Some(v) ==> v@ == self.memory().stripe(addr)
    }

    fn new(mem: &'a Memory) -> (r: Self)
        requires
            mem.wf(),
        ensures
            r.read_version() == mem.clock(),
            !r.conflict(),
            r.memory() == *mem,
    {
        ReadTrans { read_version: mem.global_clock, conflict: false, mem }
    }

    /// Reads the stripe at `addr` if it is unlocked and no newer than the
    /// snapshot; otherwise marks the transaction as conflicted and returns
    /// `None`. Once conflicted, every load returns `None`.
    pub fn load(&mut self, addr: usize) -> (r: Option<[u8; STRIPE_SIZE]>)
        requires
            is_stripe_addr(addr as int),
        ensures
            old(self).load_step(*final(self), addr as int, r),
            old(self).read_version() <= old(self).memory().clock(),
            old(self).memory().wf(),
    {
        proof {
            use_type_invariant(&*self);
        }
        if self.conflict {
            return None;
        }
        if !self.mem.test_not_modify(addr, self.read_version) {
            self.conflict = true;
            return None;
        }
        let buf = self.mem.read_stripe(addr);
        if !self.mem.test_not_modify(addr, self.read_version) {
            self.conflict = true;
            return None;
        }
        Some(buf)
    }
}

/// A read-write transaction: a snapshot of the clock, the stripes it has
/// read, its pending stripe updates, and a conflict flag. Both sets are
/// indexed by stripe.
pub struct WriteTrans<'a> {
    read_version: u64,
    read_set: Vec<bool>,
    write_set: Vec<Option<[u8; STRIPE_SIZE]>>,
    conflict: bool,
    mem: &'a Memory,
}

impl<'a> WriteTrans<'a> {
    #[verifier::type_invariant]
    spec fn inv(&self) -> bool {
        &&& self.mem.wf()
        &&& self.read_version <= self.mem.global_clock
        &&& self.read_set@.len() == NUM_STRIPES
        &&& self.write_set@.len() == NUM_STRIPES
    }

    pub closed spec fn read_version(&self) -> u64 {
        self.read_version
    }

    pub closed spec fn conflict(&self) -> bool {
        self.conflict
    }

    pub closed spec fn memory(&self) -> Memory {
        *self.mem
    }

    /// Whether the stripe at `addr` is in the read-set.
    pub closed spec fn has_read(&self, addr: int) -> bool {
        self.read_set@[stripe_index(addr)]
    }

    /// The pending value of the stripe at `addr`, if the write-set holds one.
    pub closed spec fn pending(&self, addr: int) -> Option<[u8; STRIPE_SIZE]> {
        self.write_set@[stripe_index(addr)]
    }

    /// `next` is `self` after `store(addr, val)`.
    pub open spec fn store_step(self, next: Self, addr: int, val: [u8; STRIPE_SIZE]) -> bool {
        &&& next.memory() == self.memory()
        &&& next.read_version() == self.read_version()
        &&& next.conflict() == self.conflict()
        &&& forall|a: int| is_stripe_addr(a) ==> #[trigger] next.has_read(a) == self.has_read(a)
        &&& forall|a: int|
            is_stripe_addr(a) ==> #[trigger] next.pending(a) == if a == addr {
                Some(val)
            } else {
                self.pending(a)
            }
    }

    /// `next` is `self` after `load(addr)` returned `r`.
    pub open spec fn load_step(self, next: Self, addr: int, r: Option<[u8; STRIPE_SIZE]>) -> bool {
        &&& next.memory() == self.memory()
        &&& next.read_version() == self.read_version()
        &&& forall|a: int| is_stripe_addr(a) ==> #[trigger] next.pending(a) == self.pending(a)
        &&& self.conflict() ==> {
            &&& r is None
            &&& next.conflict()
            &&& forall|a: int| is_stripe_addr(a) ==> #[trigger] next.has_read(a) == self.has_read(a)
        }
        &&& !self.conflict() ==> {
            &&& forall|a: int|
                is_stripe_addr(a) ==> #[trigger] next.has_read(a) == (a == addr || self.has_read(a))
            &&& self.pending(addr) is Some ==> r == self.pending(addr) && !next.conflict()
            &&& self.pending(addr) is None ==> {
                &&& r is Some <==> self.memory().word_at(addr) <= self.read_version()
                &&& r matches Some(v) ==> v@ == self.memory().stripe(addr)
                &&& next.conflict() == r is None
            }
        }
    }

    /// `next` is `prev` with this transaction's write-set installed at
    /// `version`: each written stripe holds its pending bytes and the
    /// version, every other stripe is as it was.
    pub open spec fn installed(self, prev: Memory, next: Memory, version: u64) -> bool {
        &&& next.clock() == version
        &&& forall|a: int|
            is_stripe_addr(a) ==> #[trigger] next.word_at(a) == if self.pending(a) is Some {
                version
            } else {
                prev.word_at(a)
            }
        &&& forall|a: int|
            is_stripe_addr(a) ==> #[trigger] next.stripe(a) == match self.pending(a) {
                Some(v) => v@,
                None => prev.stripe(a),
            }
    }

    fn new(mem: &'a Memory) -> (r: Self)
        requires
            mem.wf(),
        ensures
            r.read_version() == mem.clock(),
            !r.conflict(),
            r.memory() == *mem,
            forall|a: int| is_stripe_addr(a) ==> !#[trigger] r.has_read(a),
            forall|a: int| is_stripe_addr(a) ==> #[trigger] r.pending(a) is None,
    {
        let mut read_set: Vec<bool> = Vec::new();
        let mut write_set: Vec<Option<[u8; STRIPE_SIZE]>> = Vec::new();
        let mut k: usize = 0;
        while k < NUM_STRIPES
            invariant
                k <= NUM_STRIPES,
                read_set@.len() == k,
                write_set@.len() == k,
                forall|j: int| 0 <= j < k ==> !#[trigger] read_set@[j],
                forall|j: int| 0 <= j < k ==> #[trigger] write_set@[j] is None,
            decreases NUM_STRIPES - k,
        {
            read_set.push(false);
            write_set.push(None);
            k = k + 1;
        }
        WriteTrans { read_version: mem.global_clock, read_set, write_set, conflict: false, mem }
    }

    /// Records `val` as the pending value of the stripe at `addr`, replacing
    /// any earlier one. Memory is not touched.
    pub fn store(&mut self, addr: usize, val: [u8; STRIPE_SIZE])
        requires
            is_stripe_addr(addr as int),
        ensures
            old(self).store_step(*final(self), addr as int, val),
            old(self).read_version() <= old(self).memory().clock(),
            old(self).memory().wf(),
    {
        proof {
            use_type_invariant(&*self);
            lemma_stripe_shift(addr);
        }
        let stripe = addr >> self.mem.shift_size;
        self.write_set[stripe] = Some(val);
    }

    /// Adds `addr` to the read-set and returns the pending value if the
    /// write-set holds one; otherwise reads memory as a read transaction does.
    pub fn load(&mut self, addr: usize) -> (r: Option<[u8; STRIPE_SIZE]>)
        requires
            is_stripe_addr(addr as int),
        ensures
            old(self).load_step(*final(self), addr as int, r),
            old(self).read_version() <= old(self).memory().clock(),
            old(self).memory().wf(),
    {
        proof {
            use_type_invariant(&*self);
            lemma_stripe_shift(addr);
        }
        if self.conflict {
            return None;
        }
        let stripe = addr >> self.mem.shift_size;
        self.read_set[stripe] = true;
        if let Some(m) = self.write_set[stripe] {
            return Some(m);
        }
        if !self.mem.test_not_modify(addr, self.read_version) {
            self.conflict = true;
            return None;
        }
        let buf = self.mem.read_stripe(addr);
        if !self.mem.test_not_modify(addr, self.read_version) {
            self.conflict = true;
            return None;
        }
        Some(buf)
    }
}

/// What a write transaction hands to the commit protocol once its body has
/// finished: the snapshot, both sets, and the stripes locked so far.
struct Commit {
    read_version: u64,
    read_set: Vec<bool>,
    write_set: Vec<Option<[u8; STRIPE_SIZE]>>,
    locked: Vec<usize>,
}

impl Commit {
    spec fn sets_ok(&self) -> bool {
        &&& self.read_set@.len() == NUM_STRIPES
        &&& self.write_set@.len() == NUM_STRIPES
    }

    spec fn same_sets(&self, other: &Commit) -> bool {
        &&& self.read_version == other.read_version
        &&& self.read_set@ == other.read_set@
        &&& self.write_set@ == other.write_set@
    }

    /// Tries to lock every stripe of the write-set, in ascending order,
    /// recording each lock taken; stops at the first stripe already locked.
    fn lock_write_set(&mut self, mem: &mut Memory) -> (r: bool)
        requires
            old(self).sets_ok(),
            old(self).locked@.len() == 0,
            old(mem).wf(),
        ensures
            final(self).same_sets(old(self)),
            final(mem).wf(),
            final(mem).bytes() == old(mem).bytes(),
            final(mem).clock() == old(mem).clock(),
            forall|j: int|
                0 <= j < final(self).locked@.len() ==> is_stripe_addr(
                    #[trigger] final(self).locked@[j] as int,
                ),
            forall|s: int|
                0 <= s < NUM_STRIPES ==> version_of_word(#[trigger] final(mem).words()[s])
                    == version_of_word(old(mem).words()[s]),
            forall|s: int|
                0 <= s < NUM_STRIPES && is_locked(#[trigger] final(mem).words()[s]) ==> is_locked(
                    old(mem).words()[s],
                ) || old(self).write_set@[s] is Some,
            forall|s: int|
                0 <= s < NUM_STRIPES && #[trigger] final(mem).words()[s] != old(mem).words()[s]
                    ==> final(self).locked@.contains((s * 8) as usize),
            r == forall|s: int|
                0 <= s < NUM_STRIPES && (#[trigger] old(self).write_set@[s]) is Some ==> !is_locked(
                    old(mem).words()[s],
                ),
            forall|j: int|
                0 <= j < final(self).locked@.len() ==> {
                    let a = #[trigger] final(self).locked@[j] as int;
                    &&& old(self).write_set@[stripe_index(a)] is Some
                    &&& !is_locked(old(mem).word_at(a))
                    &&& final(mem).word_at(a) == old(mem).word_at(a) + LOCK_BIT
                },
            forall|i: int, j: int|
                0 <= i < j < final(self).locked@.len() ==> #[trigger] final(self).locked@[i]
                    < #[trigger] final(self).locked@[j],
            r ==> forall|s: int|
                0 <= s < NUM_STRIPES && (#[trigger] old(self).write_set@[s]) is Some ==> {
                    &&& final(mem).words()[s] == old(mem).words()[s] + LOCK_BIT
                    &&& final(self).locked@.contains((s * 8) as usize)
                },
    {
        let ghost mem0 = *mem;
        let mut k: usize = 0;
        while k < NUM_STRIPES
            invariant
                k <= NUM_STRIPES,
                self.sets_ok(),
                self.same_sets(old(self)),
                mem.wf(),
                mem.bytes() == mem0.bytes(),
                mem.clock() == mem0.clock(),
                mem0.wf(),
                mem0 == *old(mem),
                forall|j: int|
                    0 <= j < self.locked@.len() ==> is_stripe_addr(#[trigger] self.locked@[j] as int),
                forall|s: int|
                    0 <= s < NUM_STRIPES ==> version_of_word(#[trigger] mem.words()[s])
                        == version_of_word(mem0.words()[s]),
                forall|s: int| k <= s < NUM_STRIPES ==> #[trigger] mem.words()[s] == mem0.words()[s],
                forall|s: int|
                    0 <= s < NUM_STRIPES && is_locked(#[trigger] mem.words()[s]) ==> is_locked(
                        mem0.words()[s],
                    ) || self.write_set@[s] is Some,
                forall|s: int|
                    0 <= s < NUM_STRIPES && #[trigger] mem.words()[s] != mem0.words()[s]
                        ==> self.locked@.contains((s * 8) as usize),
                forall|s: int|
                    0 <= s < k && (#[trigger] self.write_set@[s]) is Some ==> !is_locked(
                        mem0.words()[s],
                    ),
                forall|s: int|
                    0 <= s < k && (#[trigger] self.write_set@[s]) is Some ==> {
                        &&& mem.words()[s] == mem0.words()[s] + LOCK_BIT
                        &&& self.locked@.contains((s * 8) as usize)
                    },
                forall|j: int|
                    0 <= j < self.locked@.len() ==> {
                        let a = #[trigger] self.locked@[j] as int;
                        &&& a < k * 8
                        &&& self.write_set@[stripe_index(a)] is Some
                        &&& !is_locked(mem0.word_at(a))
                        &&& mem.word_at(a) == mem0.word_at(a) + LOCK_BIT
                    },
                forall|i: int, j: int|
                    0 <= i < j < self.locked@.len() ==> #[trigger] self.locked@[i]
                        < #[trigger] self.locked@[j],
            decreases NUM_STRIPES - k,
        {
            if self.write_set[k].is_some() {
                let addr: usize = k * 8;
                assert(stripe_index(addr as int) == k as int);
                if mem.lock_addr(addr) {
                    let ghost before = self.locked@;
                    self.locked.push(addr);
                    proof {
                        assert forall|s: int|
                            0 <= s < NUM_STRIPES && #[trigger] mem.words()[s]
                                != mem0.words()[s] implies self.locked@.contains(
                            (s * 8) as usize,
                        ) by {
                            if s == k as int {
                                assert(self.locked@[before.len() as int] == addr);
                            } else {
                                let j = choose|j: int| 0 <= j < before.len() && before[j] == (s
                                    * 8) as usize;
                                assert(self.locked@[j] == before[j]);
                            }
                        }
                        assert forall|s: int|
                            0 <= s < NUM_STRIPES implies version_of_word(
                                #[trigger] mem.words()[s],
                            ) == version_of_word(mem0.words()[s]) by {
                            if s == k as int {
                                lemma_word_bits(mem0.words()[s]);
                            }
                        }
                        assert forall|s: int|
                            0 <= s < k + 1 && (#[trigger] self.write_set@[s]) is Some implies {
                                &&& mem.words()[s] == mem0.words()[s] + LOCK_BIT
                                &&& self.locked@.contains((s * 8) as usize)
                            } by {
                            if s == k as int {
                                assert(self.locked@[before.len() as int] == addr);
                            } else {
                                let j = choose|j: int| 0 <= j < before.len() && before[j] == (s
                                    * 8) as usize;
                                assert(self.locked@[j] == before[j]);
                            }
                        }
                        assert forall|j: int| 0 <= j < self.locked@.len() implies {
                            let a = #[trigger] self.locked@[j] as int;
                            &&& a < (k + 1) * 8
                            &&& self.write_set@[stripe_index(a)] is Some
                            &&& !is_locked(mem0.word_at(a))
                            &&& mem.word_at(a) == mem0.word_at(a) + LOCK_BIT
                        } by {
                            if j < before.len() {
                                assert(self.locked@[j] == before[j]);
                                assert(stripe_index(before[j] as int) < k);
                            }
                        }
                    }
                } else {
                    return false;
                }
            }
            k = k + 1;
        }
        true
    }

    /// Clears the lock bit of every stripe in the locked list, then empties
    /// the list.
    fn release(&mut self, mem: &mut Memory)
        requires
            old(mem).wf(),
            forall|j: int|
                0 <= j < old(self).locked@.len() ==> is_stripe_addr(
                    #[trigger] old(self).locked@[j] as int,
                ),
        ensures
            final(self).same_sets(old(self)),
            final(self).locked@.len() == 0,
            final(mem).wf(),
            final(mem).bytes() == old(mem).bytes(),
            final(mem).clock() == old(mem).clock(),
            forall|s: int|
                0 <= s < NUM_STRIPES ==> version_of_word(#[trigger] final(mem).words()[s])
                    == version_of_word(old(mem).words()[s]),
            forall|j: int|
                0 <= j < old(self).locked@.len() ==> !is_locked(
                    final(mem).word_at(#[trigger] old(self).locked@[j] as int),
                ),
            forall|s: int|
                0 <= s < NUM_STRIPES && !old(self).locked@.contains((s * 8) as usize)
                    ==> #[trigger] final(mem).words()[s] == old(mem).words()[s],
    {
        let ghost mem0 = *mem;
        let mut i: usize = 0;
        while i < self.locked.len()
            invariant
                i <= self.locked@.len(),
                self.same_sets(old(self)),
                self.locked@ == old(self).locked@,
                mem.wf(),
                mem0.wf(),
                mem0 == *old(mem),
                mem.bytes() == mem0.bytes(),
                mem.clock() == mem0.clock(),
                forall|j: int|
                    0 <= j < self.locked@.len() ==> is_stripe_addr(#[trigger] self.locked@[j] as int),
                forall|s: int|
                    0 <= s < NUM_STRIPES ==> version_of_word(#[trigger] mem.words()[s])
                        == version_of_word(mem0.words()[s]),
                forall|j: int|
                    0 <= j < i ==> !is_locked(mem.word_at(#[trigger] self.locked@[j] as int)),
                forall|s: int|
                    0 <= s < NUM_STRIPES && (forall|j: int|
                        0 <= j < i ==> self.locked@[j] != (s * 8) as usize)
                        ==> #[trigger] mem.words()[s] == mem0.words()[s],
            decreases self.locked@.len() - i,
        {
            let addr = self.locked[i];
            let ghost before = *mem;
            mem.unlock_addr(addr);
            proof {
                let si = stripe_index(addr as int);
                lemma_word_bits(before.words()[si]);
                lemma_word_bits(version_of_word(before.words()[si]));
                assert forall|j: int| 0 <= j < i + 1 implies !is_locked(
                    mem.word_at(#[trigger] self.locked@[j] as int),
                ) by {
                    let sj = stripe_index(self.locked@[j] as int);
                    if sj != si {
                        assert(mem.words()[sj] == before.words()[sj]);
                    }
                }
                assert forall|s: int|
                    0 <= s < NUM_STRIPES && (forall|j: int|
                        0 <= j < i + 1 ==> self.locked@[j] != (s * 8) as usize) implies #[trigger] mem.words()[s]
                    == mem0.words()[s] by {
                    assert(self.locked@[i as int] != (s * 8) as usize);
                    assert(s != si);
                }
            }
            i = i + 1;
        }
        proof {
            assert forall|s: int|
                0 <= s < NUM_STRIPES && !self.locked@.contains((s * 8) as usize) implies #[trigger] mem.words()[s]
                == mem0.words()[s] by {
                assert forall|j: int| 0 <= j < i implies self.locked@[j] != (s * 8) as usize by {
                    if self.locked@[j] == (s * 8) as usize {
                        assert(self.locked@.contains((s * 8) as usize));
                    }
                }
            }
        }
        self.locked = Vec::new();
    }

    /// Whether no stripe of the read-set changed since the snapshot: a
    /// stripe this transaction holds locked must carry a version no newer
    /// than the snapshot; any other must also be unlocked.
    fn validate_read_set(&self, mem: &Memory) -> (r: bool)
        requires
            self.sets_ok(),
            mem.wf(),
        ensures
            r == forall|s: int|
                0 <= s < NUM_STRIPES && #[trigger] self.read_set@[s] ==> if self.write_set@[s] is Some {
                    version_of_word(mem.words()[s]) <= self.read_version
                } else {
                    mem.words()[s] <= self.read_version
                },
    {
        let mut k: usize = 0;
        while k < NUM_STRIPES
            invariant
                k <= NUM_STRIPES,
                self.sets_ok(),
                mem.wf(),
                forall|s: int|
                    0 <= s < k && #[trigger] self.read_set@[s] ==> if self.write_set@[s] is Some {
                        version_of_word(mem.words()[s]) <= self.read_version
                    } else {
                        mem.words()[s] <= self.read_version
                    },
            decreases NUM_STRIPES - k,
        {
            if self.read_set[k] {
                let addr: usize = k * 8;
                assert(stripe_index(addr as int) == k as int);
                if self.write_set[k].is_some() {
                    let version = mem.get_version(addr);
                    if version > self.read_version {
                        return false;
                    }
                } else {
                    if !mem.test_not_modify(addr, self.read_version) {
                        return false;
                    }
                }
            }
            k = k + 1;
        }
        true
    }

    /// Copies every pending value into memory, then installs `version` as
    /// the lock word of every written stripe, which also unlocks it. The
    /// locked list is emptied: no unlock is owed afterwards.
    fn commit(&mut self, mem: &mut Memory, version: u64)
        requires
            old(self).sets_ok(),
            old(mem).wf(),
            version == old(mem).clock(),
            forall|s: int|
                0 <= s < NUM_STRIPES ==> version_of_word(#[trigger] old(mem).words()[s]) < version,
        ensures
            final(self).same_sets(old(self)),
            final(self).locked@.len() == 0,
            final(mem).wf(),
            final(mem).clock() == old(mem).clock(),
            forall|s: int|
                0 <= s < NUM_STRIPES && (#[trigger] old(self).write_set@[s]) is Some
                    ==> version_of_word(old(mem).words()[s]) < version_of_word(
                    final(mem).words()[s],
                ),
            forall|s: int|
                0 <= s < NUM_STRIPES ==> #[trigger] final(mem).words()[s] == if old(self).write_set@[s] is Some {
                    version
                } else {
                    old(mem).words()[s]
                },
            forall|i: int|
                0 <= i < MEM_SIZE ==> #[trigger] final(mem).bytes()[i] == match old(self).write_set@[stripe_index(i)] {
                    Some(v) => v@[i - stripe_index(i) * 8],
                    None => old(mem).bytes()[i],
                },
    {
        let ghost mem0 = *mem;
        let mut k: usize = 0;
        while k < NUM_STRIPES
            invariant
                k <= NUM_STRIPES,
                self.sets_ok(),
                self.same_sets(old(self)),
                mem.wf(),
                mem.words() == mem0.words(),
                mem.clock() == mem0.clock(),
                mem0.wf(),
                mem0 == *old(mem),
                forall|i: int|
                    0 <= i < MEM_SIZE ==> #[trigger] mem.bytes()[i] == match self.write_set@[stripe_index(i)] {
                        Some(v) => if stripe_index(i) < k { v@[i - stripe_index(i) * 8] } else { mem0.bytes()[i] },
                        None => mem0.bytes()[i],
                    },
            decreases NUM_STRIPES - k,
        {
            if let Some(val) = self.write_set[k] {
                let addr: usize = k * 8;
                assert(stripe_index(addr as int) == k as int);
                mem.write_stripe(addr, val);
            }
            k = k + 1;
        }
        let mut k: usize = 0;
        while k < NUM_STRIPES
            invariant
                k <= NUM_STRIPES,
                self.sets_ok(),
                self.same_sets(old(self)),
                mem.wf(),
                mem.clock() == mem0.clock(),
                version == mem0.clock(),
                mem0.wf(),
                mem0 == *old(mem),
                forall|i: int|
                    0 <= i < MEM_SIZE ==> #[trigger] mem.bytes()[i] == match self.write_set@[stripe_index(i)] {
                        Some(v) => v@[i - stripe_index(i) * 8],
                        None => mem0.bytes()[i],
                    },
                forall|s: int|
                    0 <= s < NUM_STRIPES ==> #[trigger] mem.words()[s] == if s < k && self.write_set@[s] is Some {
                        version
                    } else {
                        mem0.words()[s]
                    },
            decreases NUM_STRIPES - k,
        {
            if self.write_set[k].is_some() {
                let addr: usize = k * 8;
                assert(stripe_index(addr as int) == k as int);
                mem.publish(addr, version);
            }
            k = k + 1;
        }
        self.locked = Vec::new();
    }
}

/// What a transaction body returns: its value (`Done`), a request to retry, or a
/// request to give up.
pub enum STMResult<T> {
    Done(T),
    Retry,
    Abort,
}

/// The engine: the shared memory that transactions run against. A write
/// transaction borrows the engine exclusively for its whole run, from its
/// snapshot to its commit; read transactions share it.
pub struct STM {
    mem: Memory,
}

impl STM {
    pub closed spec fn memory(&self) -> Memory {
        self.mem
    }

    /// The memory is well formed, no stripe is locked (no transaction is
    /// under way), and unwritten stripes hold their initial bytes.
    pub open spec fn wf(&self) -> bool {
        &&& self.memory().wf()
        &&& self.memory().all_unlocked()
        &&& self.memory().unwritten_zero()
    }

    /// The global version clock.
    pub fn global_clock(&self) -> (r: u64)
        ensures
            r == self.memory().clock(),
    {
        self.mem.global_clock
    }

    /// The versioned-lock word of the stripe at `addr`.
    pub fn lock_word(&self, addr: usize) -> (r: u64)
        requires
            self.memory().wf(),
            is_stripe_addr(addr as int),
        ensures
            r == self.memory().word_at(addr as int),
    {
        let stripe = addr >> self.mem.shift_size;
        proof {
            lemma_stripe_shift(addr);
        }
        self.mem.lock_ver[stripe]
    }

    pub fn new() -> (r: Self)
        ensures
            r.wf(),
            r.memory().clock() == 0,
            forall|i: int| 0 <= i < MEM_SIZE ==> #[trigger] r.memory().bytes()[i] == 0,
            forall|s: int| 0 <= s < NUM_STRIPES ==> #[trigger] r.memory().words()[s] == 0,
    {
        STM { mem: Memory::new() }
    }

    /// Runs `f` on fresh read transactions until it finishes without a
    /// conflict. `Done(v)` then gives `Some(v)`; `Abort`, or `Retry` without a
    /// conflict, gives `None`. Gives up with `None` after `u64::MAX`
    /// conflicted attempts.
    pub fn read_transaction<F, R>(&self, f: F) -> (r: Option<R>) where
        F: Fn(&mut ReadTrans) -> STMResult<R>,

        requires
            self.wf(),
            forall|t: &mut ReadTrans| f.requires((t,)),
        ensures
            r matches Some(v) ==> exists|t: &mut ReadTrans|
                {
                    &&& f.ensures((t,), STMResult::Done(v))
                    &&& (*t).memory() == self.memory()
                    &&& (*t).read_version() == self.memory().clock()
                    &&& !(*t).conflict()
                    &&& !final(t).conflict()
                },
            (forall|t: &mut ReadTrans, res: STMResult<R>|
                #[trigger] f.ensures((t,), res) && (*t).memory() == self.memory()
                    && (*t).read_version() == self.memory().clock() && !(*t).conflict()
                    ==> res is Done && !final(t).conflict()) ==> r is Some,
    {
        let mut attempts: u64 = 0;
        while attempts < u64::MAX
            invariant
                self.wf(),
                forall|t: &mut ReadTrans| f.requires((t,)),
                attempts > 0 ==> !(forall|t: &mut ReadTrans, res: STMResult<R>|
                    #[trigger] f.ensures((t,), res) && (*t).memory() == self.memory()
                        && (*t).read_version() == self.memory().clock() && !(*t).conflict()
                        ==> res is Done && !final(t).conflict()),
            decreases u64::MAX - attempts,
        {
            attempts = attempts + 1;
            let mut read_trans = ReadTrans::new(&self.mem);
            match f(&mut read_trans) {
                STMResult::Abort => return None,
                STMResult::Retry => {
                    if read_trans.conflict {
                        continue;
                    } else {
                        return None;
                    }
                },
                STMResult::Done(val) => {
                    if read_trans.conflict {
                        continue;
                    } else {
                        return Some(val);
                    }
                },
            }
        }
        None
    }

    /// Runs `f` on fresh write transactions until it finishes without a
    /// conflict and its commit succeeds. `Done(v)` with a successful commit
    /// gives `Some(v)`; `Abort`, or `Retry` without a conflict, gives `None`.
    /// Gives up with `None` after `u64::MAX` failed attempts.
    pub fn write_transaction<F, R>(&mut self, f: F) -> (r: Option<R>) where
        F: Fn(&mut WriteTrans) -> STMResult<R>,

        requires
            old(self).wf(),
            old(self).memory().clock() + 1 < LOCK_BIT,
            forall|t: &mut WriteTrans| f.requires((t,)),
        ensures
            final(self).wf(),
            old(self).memory().versions_le(&final(self).memory()),
            final(self).memory().clock() == old(self).memory().clock() + if r is Some {
                1int
            } else {
                0int
            },
            r is None ==> final(self).memory().bytes() == old(self).memory().bytes()
                && final(self).memory().words() == old(self).memory().words(),
            r matches Some(v) ==> exists|t: &mut WriteTrans|
                {
                    &&& f.ensures((t,), STMResult::Done(v))
                    &&& (*t).memory() == old(self).memory()
                    &&& (*t).read_version() == old(self).memory().clock()
                    &&& !(*t).conflict()
                    &&& forall|a: int|
                        is_stripe_addr(a) ==> !(*t).has_read(a) && (*t).pending(a) is None
                    &&& !final(t).conflict()
                    &&& final(t).installed(
                        old(self).memory(),
                        final(self).memory(),
                        (old(self).memory().clock() + 1) as u64,
                    )
                },
            (forall|t: &mut WriteTrans, res: STMResult<R>|
                #[trigger] f.ensures((t,), res) && (*t).memory() == old(self).memory()
                    && (*t).read_version() == old(self).memory().clock() && !(*t).conflict()
                    && (forall|a: int|
                    is_stripe_addr(a) ==> !(*t).has_read(a) && (*t).pending(a) is None)
                    ==> res is Done && !final(t).conflict()) ==> r is Some,
    {
        let mut attempts: u64 = 0;
        while attempts < u64::MAX
            invariant
                self.wf(),
                self.memory() == old(self).memory(),
                old(self).memory().clock() + 1 < LOCK_BIT,
                forall|t: &mut WriteTrans| f.requires((t,)),
                attempts > 0 ==> !(forall|t: &mut WriteTrans, res: STMResult<R>|
                    #[trigger] f.ensures((t,), res) && (*t).memory() == old(self).memory()
                        && (*t).read_version() == old(self).memory().clock() && !(*t).conflict()
                        && (forall|a: int|
                        is_stripe_addr(a) ==> !(*t).has_read(a) && (*t).pending(a) is None)
                        ==> res is Done && !final(t).conflict()),
            decreases u64::MAX - attempts,
        {
            attempts = attempts + 1;
            let rv = self.mem.global_clock;
            let mut write_trans = WriteTrans::new(&self.mem);
            let result = f(&mut write_trans);
            proof {
                use_type_invariant(&write_trans);
            }
            let WriteTrans { read_version: _, read_set, write_set, conflict, mem: _ } = write_trans;
            let val = match result {
                STMResult::Abort => return None,
                STMResult::Retry => {
                    if conflict {
                        continue;
                    } else {
                        return None;
                    }
                },
                STMResult::Done(val) => {
                    if conflict {
                        continue;
                    } else {
                        val
                    }
                },
            };
            let mut commit = Commit { read_version: rv, read_set, write_set, locked: Vec::new() };
            let ghost before = self.mem;
            if !commit.lock_write_set(&mut self.mem) {
                commit.release(&mut self.mem);
                continue;
            }
            let ghost locked_mem = self.mem;
            proof {
                assert forall|s: int| 0 <= s < NUM_STRIPES && commit.write_set@[s] is None implies
                    #[trigger] locked_mem.words()[s] == before.words()[s] by {
                    assert(!is_locked(before.words()[s]));
                    assert(!is_locked(locked_mem.words()[s]));
                }
            }
            let new_version = self.mem.inc_global_clock();
            if rv + 1 != new_version && !commit.validate_read_set(&self.mem) {
                commit.release(&mut self.mem);
                continue;
            }
            commit.commit(&mut self.mem, new_version);
            proof {
                let m = self.mem;
                assert forall|s: int| 0 <= s < NUM_STRIPES implies !is_locked(#[trigger] m.words()[s])
                    && version_of_word(before.words()[s]) <= version_of_word(m.words()[s]) by {
                    if commit.write_set@[s] is None {
                        assert(locked_mem.words()[s] == before.words()[s]);
                    }
                }
                assert forall|a: int| is_stripe_addr(a) implies #[trigger] m.stripe(a) == match write_trans.pending(a) {
                    Some(v) => v@,
                    None => before.stripe(a),
                } by {
                    let s = stripe_index(a);
                    match commit.write_set@[s] {
                        Some(v) => {
                            assert(m.stripe(a) =~= v@);
                        },
                        None => {
                            assert(m.stripe(a) =~= before.stripe(a));
                        },
                    }
                }
                assert forall|i: int|
                    0 <= i < MEM_SIZE && version_of_word(m.words()[stripe_index(i)]) == 0 implies #[trigger] m.bytes()[i]
                    == 0 by {
                    let s = stripe_index(i);
                    if commit.write_set@[s] is None {
                        assert(locked_mem.words()[s] == before.words()[s]);
                    }
                }
            }
            return Some(val);
        }
        None
    }
}

/// Read-your-own-writes: in a transaction free of conflict, a load of the
/// stripe just stored returns the stored value, whatever memory holds, and
/// leaves the transaction free of conflict.
pub proof fn lemma_read_your_own_write(
    t0: WriteTrans,
    t1: WriteTrans,
    t2: WriteTrans,
    addr: int,
    val: [u8; STRIPE_SIZE],
    r: Option<[u8; STRIPE_SIZE]>,
)
    requires
        is_stripe_addr(addr),
        !t0.conflict(),
        t0.store_step(t1, addr, val),
        t1.load_step(t2, addr, r),
    ensures
        r == Some(val),
        !t2.conflict(),
        t2.has_read(addr),
{
}

/// Versions never go down: if each step keeps every stripe's version or
/// raises it, so does the whole run, for any two sampling points.
pub proof fn lemma_versions_monotone(m0: Memory, m1: Memory, m2: Memory)
    requires
        m0.versions_le(&m1),
        m1.versions_le(&m2),
    ensures
        m0.versions_le(&m2),
{
}

/// Atomicity for readers: against memory in which a write-set was installed
/// at version `version`, a reader whose snapshot is older than `version`
/// gets no stripe of that write-set, and one whose snapshot is not older gets
/// every one of them with its new bytes. No reader mixes the two.
pub proof fn lemma_reader_sees_all_or_none(
    t: WriteTrans,
    prev: Memory,
    next: Memory,
    version: u64,
    r0: ReadTrans,
    r1: ReadTrans,
    addr: int,
    res: Option<[u8; STRIPE_SIZE]>,
)
    requires
        t.installed(prev, next, version),
        r0.memory() == next,
        !r0.conflict(),
        is_stripe_addr(addr),
        t.pending(addr) is Some,
        r0.load_step(r1, addr, res),
    ensures
        r0.read_version() < version ==> res is None,
        r0.read_version() >= version ==> res is Some && res->0@ == t.pending(addr)->0@,
{
}

/// Opacity for readers: a load that succeeds against the engine's memory
/// returns bytes committed at a version no later than the reader's
/// snapshot, from an unlocked stripe; a stripe that no commit has written
/// (version 0) yields its initial zeros.
pub proof fn lemma_load_is_committed(
    stm: STM,
    r0: ReadTrans,
    r1: ReadTrans,
    addr: int,
    res: Option<[u8; STRIPE_SIZE]>,
)
    requires
        stm.wf(),
        r0.memory() == stm.memory(),
        is_stripe_addr(addr),
        r0.load_step(r1, addr, res),
        res is Some,
    ensures
        !is_locked(stm.memory().word_at(addr)),
        version_of_word(stm.memory().word_at(addr)) <= r0.read_version(),
        res->0@ == stm.memory().stripe(addr),
        version_of_word(stm.memory().word_at(addr)) == 0 ==> res->0@ == seq![0u8; 8],
{
    let m = stm.memory();
    if version_of_word(m.word_at(addr)) == 0 {
        assert forall|j: int| 0 <= j < 8 implies #[trigger] m.stripe(addr)[j] == 0u8 by {
            assert(stripe_index(addr + j) == stripe_index(addr));
            assert(m.bytes()[addr + j] == 0);
        }
        assert(m.stripe(addr) =~= seq![0u8; 8]);
    }
}

/// A committed write-set of `n` stripes moves the clock by exactly one,
/// and every written stripe carries that same new version: the commit
/// takes effect at one point of the version order.
pub proof fn lemma_commit_single_version(t: WriteTrans, prev: Memory, next: Memory, a: int, b: int)
    requires
        t.installed(prev, next, (prev.clock() + 1) as u64),
        prev.clock() + 1 < LOCK_BIT,
        is_stripe_addr(a),
        is_stripe_addr(b),
        t.pending(a) is Some,
        t.pending(b) is Some,
    ensures
        next.word_at(a) == next.word_at(b),
        next.word_at(a) == next.clock(),
        next.clock() == prev.clock() + 1,
{
}

} // verus!
