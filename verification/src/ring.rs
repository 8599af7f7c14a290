//! The ring synchronization layer: one `IoUring` value models a single
//! asynchronous I/O context, holding a submission ring and a completion ring
//! whose head/tail cursors are free-running 32-bit counters that wrap via a
//! power-of-two bitmask, exactly as the kernel-shared layout prescribes.
//!
//! The kernel collaborator is modeled inside the same value: submissions that
//! have been published but not yet answered sit in an `inflight` sequence, and
//! each completion the collaborator posts carries the correlation tag of the
//! submission it answers.

use vstd::prelude::*;

verus! {

use vstd::arithmetic::power2::{lemma2_to64, lemma_pow2_adds, lemma_pow2_pos, lemma_pow2_strictly_increases, pow2};
use vstd::arithmetic::div_mod::{lemma_fundamental_div_mod, lemma_fundamental_div_mod_converse,
    lemma_mod_mod, lemma_mod_multiples_vanish, lemma_small_mod};
use vstd::bits::{lemma_u32_low_bits_mask_is_mod, low_bits_mask};

/// Setup flag requesting 32-byte completion entries; it doubles the stride of
/// the completion array, which `io_uring_cqe_index` accounts for.
pub const IORING_SETUP_CQE32: u32 = 0x800;

/// Setup flag promising that a single thread submits.
pub const IORING_SETUP_SINGLE_ISSUER: u32 = 0x1000;

/// Setup flag deferring kernel-side task work to the waiting call.
pub const IORING_SETUP_DEFER_TASKRUN: u32 = 0x2000;

/// The largest submission ring depth a ring can be created with.
pub const MAX_RING_ENTRIES: u32 = 32768;

/// The operation requested by one submission entry.
#[derive(Clone, Copy, PartialEq, Eq, Structural, Debug)]
pub enum Opcode {
    /// Completes with result 0 and no side effect.
    Nop,
    /// Listens for incoming connections and keeps producing one completion
    /// per accepted peer without being resubmitted.
    MultishotAccept,
    /// Receives into a caller-owned buffer.
    Recv,
}

/// One submission entry: the operation, its target descriptor, the length of
/// the buffer it may use, operation flags, and the caller-chosen 64-bit
/// correlation tag that the kernel echoes back verbatim.
#[derive(Clone, Copy, PartialEq, Eq, Structural, Debug)]
pub struct Sqe {
    pub opcode: Opcode,
    pub fd: i32,
    pub buf_len: u32,
    pub op_flags: u32,
    pub user_data: u64,
}

/// One completion entry: the result code (negative values are negated error
/// codes) and the correlation tag of the submission it answers.
#[derive(Clone, Copy, PartialEq, Eq, Structural, Debug)]
pub struct Cqe {
    pub user_data: u64,
    pub res: i32,
}

/// Why a ring could not be created.
#[derive(Clone, Copy, PartialEq, Eq, Structural, Debug)]
pub enum SetupError {
    /// The requested depth is zero, above `MAX_RING_ENTRIES`, or not a power
    /// of two.
    InvalidEntries,
}

/// The abstract state of a ring: what the cursors and slot arithmetic of the
/// concrete representation amount to.
#[verifier::ext_equal]
pub ghost struct RingView {
    /// The setup flags the ring was created with.
    pub flags: u32,
    /// Capacity of the submission ring.
    pub sq_capacity: nat,
    /// Capacity of the completion ring.
    pub cq_capacity: nat,
    /// Entries filled by the caller and not yet published to the kernel,
    /// oldest first.
    pub sq_pending: Seq<Sqe>,
    /// Entries published to the kernel and not yet answered, oldest first.
    pub inflight: Seq<Sqe>,
    /// Completions posted by the kernel and not yet consumed, oldest first.
    pub ready: Seq<Cqe>,
}

/// `x` reduced into the 32-bit cursor space.
pub open spec fn w32(x: int) -> u32 {
    (x % 0x1_0000_0000) as u32
}

/// How many slots lie between cursor `head` and cursor `tail`, the cursors
/// being free-running and wrapping at 2^32.
pub open spec fn ring_used(head: u32, tail: u32) -> nat {
    w32(tail - head) as nat
}

/// The entry-size shift that the given setup flags select: completion indices
/// are doubled when 32-byte completion entries were requested.
pub open spec fn spec_cqe_shift(flags: u32) -> u32 {
    if flags & IORING_SETUP_CQE32 != 0 {
        1
    } else {
        0
    }
}

/// How many array slots one completion entry occupies under the given setup
/// flags.
pub open spec fn spec_cqe_stride(flags: u32) -> nat {
    if flags & IORING_SETUP_CQE32 != 0 {
        2
    } else {
        1
    }
}

/// Index of the array slot that cursor value `ptr` addresses in a ring with
/// the given capacity mask and entry-size shift.
pub open spec fn spec_slot(ptr: u32, mask: u32, shift: u32) -> int {
    ((ptr & mask) << shift) as int
}

/// One asynchronous I/O context: a submission ring, a completion ring, and
/// the modeled kernel collaborator's queue of unanswered submissions.
pub struct IoUring {
    flags: u32,
    sq_entries: Vec<Sqe>,
    sq_khead: u32,
    sq_ktail: u32,
    sq_mask: u32,
    sq_log: Ghost<nat>,
    cq_entries: Vec<Cqe>,
    cq_khead: u32,
    cq_ktail: u32,
    cq_mask: u32,
    cq_log: Ghost<nat>,
    inflight: Vec<Sqe>,
}

impl View for IoUring {
    type V = RingView;

    closed spec fn view(&self) -> RingView {
        RingView {
            flags: self.flags,
            sq_capacity: (self.sq_mask + 1) as nat,
            cq_capacity: (self.cq_mask + 1) as nat,
            sq_pending: Seq::new(
                ring_used(self.sq_khead, self.sq_ktail),
                |i: int| self.sq_entries@[spec_slot(w32(self.sq_khead + i), self.sq_mask, 0)],
            ),
            inflight: self.inflight@,
            ready: Seq::new(
                ring_used(self.cq_khead, self.cq_ktail),
                |i: int| self.cq_entries@[
                    spec_slot(w32(self.cq_khead + i), self.cq_mask, spec_cqe_shift(self.flags))
                ],
            ),
        }
    }
}

impl IoUring {
    /// The representation invariant: capacities are powers of two, masks are
    /// their low-bit masks, the arrays have exactly one stride per slot, and
    /// each window holds at most capacity entries.
    pub closed spec fn wf(&self) -> bool {
        &&& self.sq_mask as nat == low_bits_mask(self.sq_log@)
        &&& self.sq_log@ <= 15
        &&& self.sq_entries@.len() == self.sq_mask + 1
        &&& ring_used(self.sq_khead, self.sq_ktail) <= self.sq_mask + 1
        &&& self.cq_mask as nat == low_bits_mask(self.cq_log@)
        &&& self.cq_log@ <= 16
        &&& self.cq_entries@.len() == (self.cq_mask + 1) * spec_cqe_stride(self.flags)
        &&& ring_used(self.cq_khead, self.cq_ktail) <= self.cq_mask + 1
    }

    /// An acceptable submission ring depth: a power of two between 1 and
    /// `MAX_RING_ENTRIES`.
    pub open spec fn valid_entries(entries: u32) -> bool {
        exists|k: nat| k <= 15 && entries == pow2(k)
    }

    /// Creates a ring of the requested depth with the given setup flags; the
    /// completion ring gets twice the depth of the submission ring, as the
    /// kernel interface documents. Fails exactly on an unacceptable depth.
    pub fn queue_init(entries: u32, flags: u32) -> (r: Result<IoUring, SetupError>)
        ensures
            Self::valid_entries(entries) ==> {
                &&& r matches Ok(ring)
                &&& ring.wf()
                &&& ring@ == (RingView {
                    flags,
                    sq_capacity: entries as nat,
                    cq_capacity: 2 * (entries as nat),
                    sq_pending: Seq::<Sqe>::empty(),
                    inflight: Seq::<Sqe>::empty(),
                    ready: Seq::<Cqe>::empty(),
                })
            },
            !Self::valid_entries(entries) ==> r === Err(SetupError::InvalidEntries),
    {
        if entries == 0 || entries > MAX_RING_ENTRIES {
            proof {
                assert forall|k: nat| k <= 15 implies pow2(k) != entries by {
                    lemma_pow2_pos(k);
                    lemma2_to64();
                    if k < 15 {
                        lemma_pow2_strictly_increases(k, 15);
                    }
                }
            }
            return Err(SetupError::InvalidEntries);
        }
        let mut size: u32 = 1;
        let ghost mut lg: nat = 0;
        proof {
            lemma2_to64();
        }
        while size < entries
            invariant
                size as nat == pow2(lg),
                1 <= size <= 2 * entries,
                1 <= entries <= 32768,
                lg == 0 || pow2((lg - 1) as nat) < entries,
            decreases 2 * entries - size,
        {
            proof {
                lemma2_to64();
                if lg > 15 {
                    lemma_pow2_strictly_increases(15, lg);
                }
                assert(lg <= 15);
                lemma_pow2_strictly_increases(lg, (lg + 1) as nat);
                assert(pow2((lg + 1) as nat) == 2 * pow2(lg)) by {
                    lemma_pow2_adds(lg, 1);
                    lemma2_to64();
                }
            }
            size = size * 2;
            proof {
                lg = lg + 1;
            }
        }
        if size != entries {
            proof {
                assert forall|k: nat| k <= 15 implies pow2(k) != entries by {
                    if pow2(k) == entries {
                        // entries < pow2(lg), so k < lg, so pow2(k) <= pow2(lg - 1) < entries
                        if k >= lg {
                            if k > lg {
                                lemma_pow2_strictly_increases(lg, k);
                            }
                            assert(false);
                        }
                        if k < (lg - 1) as nat {
                            lemma_pow2_strictly_increases(k, (lg - 1) as nat);
                        }
                        assert(false);
                    }
                }
            }
            return Err(SetupError::InvalidEntries);
        }
        proof {
            lemma2_to64();
            if lg > 15 {
                lemma_pow2_strictly_increases(15, lg);
            }
            assert(lg <= 15 && entries == pow2(lg));
            assert(Self::valid_entries(entries));
        }
        let sq_mask: u32 = entries - 1;
        let cq_mask: u32 = 2 * entries - 1;
        let cqe32: bool = flags & IORING_SETUP_CQE32 != 0;
        let cq_slots: usize = if cqe32 {
            (entries as usize) * 4
        } else {
            (entries as usize) * 2
        };
        proof {
            assert(pow2((lg + 1) as nat) == 2 * pow2(lg)) by {
                lemma_pow2_adds(lg, 1);
                lemma2_to64();
            }
            assert(sq_mask as nat == low_bits_mask(lg));
            assert(cq_mask as nat == low_bits_mask((lg + 1) as nat));
        }
        let mut sq_entries: Vec<Sqe> = Vec::new();
        let mut i: u32 = 0;
        while i < entries
            invariant
                sq_entries@.len() == i,
                i <= entries,
            decreases entries - i,
        {
            sq_entries.push(Sqe {
                opcode: Opcode::Nop,
                fd: -1,
                buf_len: 0,
                op_flags: 0,
                user_data: 0,
            });
            i = i + 1;
        }
        let mut cq_entries: Vec<Cqe> = Vec::new();
        let mut j: usize = 0;
        while j < cq_slots
            invariant
                cq_entries@.len() == j,
                j <= cq_slots,
            decreases cq_slots - j,
        {
            cq_entries.push(Cqe { user_data: 0, res: 0 });
            j = j + 1;
        }
        let ring = IoUring {
            flags,
            sq_entries,
            sq_khead: 0,
            sq_ktail: 0,
            sq_mask,
            sq_log: Ghost(lg),
            cq_entries,
            cq_khead: 0,
            cq_ktail: 0,
            cq_mask,
            cq_log: Ghost((lg + 1) as nat),
            inflight: Vec::new(),
        };
        proof {
            assert(ring_used(0, 0) == 0) by {
                lemma_small_mod(0, 0x1_0000_0000);
            }
            assert(ring@.sq_pending =~= Seq::<Sqe>::empty());
            assert(ring@.ready =~= Seq::<Cqe>::empty());
        }
        Ok(ring)
    }

    /// The setup flags this ring was created with.
    pub fn setup_flags(&self) -> (r: u32)
        ensures
            r == self@.flags,
    {
        self.flags
    }
}

/// The entry-size shift of the completion ring: 1 when the ring was set up
/// with 32-byte completion entries, else 0.
pub fn io_uring_cqe_shift(ring: &IoUring) -> (r: u32)
    ensures
        r == spec_cqe_shift(ring@.flags),
{
    if (ring.flags & IORING_SETUP_CQE32) != 0 {
        1
    } else {
        0
    }
}

/// The completion-array index that cursor value `ptr` addresses under the
/// given capacity mask, with the ring's entry-size shift applied.
pub fn io_uring_cqe_index(ring: &IoUring, ptr: u32, mask: u32) -> (r: u32)
    requires
        mask < 0x8000_0000,
    ensures
        r == spec_slot(ptr, mask, spec_cqe_shift(ring@.flags)),
{
    let shift = io_uring_cqe_shift(ring);
    proof {
        assert((ptr & mask) <= mask) by (bit_vector);
        lemma_shl_u32(ptr & mask, shift);
    }
    (ptr & mask) << shift
}


/// The cursor space is 2^32 wide.
pub open spec fn cursor_modulus() -> int {
    0x1_0000_0000
}

/// Adding a multiple of the cursor modulus does not change a reduced cursor.
proof fn lemma_w32_shift(x: int, k: int)
    ensures
        w32(x + cursor_modulus() * k) == w32(x),
{
    lemma_mod_multiples_vanish(k, x, cursor_modulus());
}

/// A cursor already reduced absorbs into a sum before reduction.
proof fn lemma_w32_absorb(x: int, y: int)
    ensures
        w32(w32(x) + y) == w32(x + y),
        w32(y - w32(x)) == w32(y - x),
{
    let m = cursor_modulus();
    lemma_fundamental_div_mod(x, m);
    assert(w32(x) == x - m * (x / m));
    lemma_w32_shift(x + y, -(x / m));
    assert(w32(x) + y == x + y + m * (-(x / m))) by (nonlinear_arith)
        requires w32(x) == x - m * (x / m);
    lemma_w32_shift(y - x, x / m);
    assert(y - w32(x) == y - x + m * (x / m)) by (nonlinear_arith)
        requires w32(x) == x - m * (x / m);
}

/// Stepping a cursor forward by one grows the reduced distance by one, as
/// long as the distance has room below the modulus.
proof fn lemma_w32_add_one(x: int)
    requires
        w32(x) < 0xffff_ffff,
    ensures
        w32(x + 1) == w32(x) + 1,
{
    lemma_w32_absorb(x, 1);
    lemma_small_mod((w32(x) + 1) as nat, cursor_modulus() as nat);
}

/// A reduced distance is zero exactly when the cursors are equal.
proof fn lemma_used_iff_ne(head: u32, tail: u32)
    ensures
        ring_used(head, tail) == 0 <==> head == tail,
{
    if head <= tail {
        lemma_small_mod((tail - head) as nat, cursor_modulus() as nat);
    } else {
        lemma_w32_shift(tail - head, 1);
        lemma_small_mod((tail - head + cursor_modulus()) as nat, cursor_modulus() as nat);
    }
}

/// The tail cursor is the head cursor advanced by the number of used slots.
proof fn lemma_tail_is_head_plus_used(head: u32, tail: u32)
    ensures
        w32(head + ring_used(head, tail)) == tail,
{
    lemma_w32_absorb(tail - head, head as int);
    assert(w32(head + (tail - head)) == tail) by {
        lemma_small_mod(tail as nat, cursor_modulus() as nat);
    }
}

/// Advancing the head by `k` slots shrinks the window by `k`, and the
/// remaining window starts `k` entries later: the reduced distance obeys
/// ordinary subtraction while it stays non-negative.
proof fn lemma_used_after_advance(head: u32, tail: u32, k: int)
    requires
        0 <= k <= ring_used(head, tail),
    ensures
        ring_used(w32(head + k), tail) == ring_used(head, tail) - k,
{
    lemma_w32_absorb(head + k, tail as int);
    assert(w32(tail - w32(head + k)) == w32(tail - head - k)) by {
        lemma_w32_absorb(head + k, tail as int);
    }
    let d = tail - head;
    lemma_fundamental_div_mod(d, cursor_modulus());
    let q = d / cursor_modulus();
    assert(d - k == cursor_modulus() * q + (ring_used(head, tail) - k)) by (nonlinear_arith)
        requires d == cursor_modulus() * q + ring_used(head, tail);
    lemma_w32_shift(ring_used(head, tail) - k, q);
    assert(w32(d - k) == w32(ring_used(head, tail) - k));
    lemma_small_mod((ring_used(head, tail) - k) as nat, cursor_modulus() as nat);
}


/// The executable wrapping addition computes exactly the reduced cursor sum.
proof fn lemma_wrapping_add_is_w32(x: u32, y: u32)
    ensures
        vstd::wrapping::u32_specs::wrapping_add(x, y) == w32(x + y),
{
    if x + y > u32::MAX {
        lemma_w32_shift(x + y - cursor_modulus(), 1);
        lemma_small_mod((x + y - cursor_modulus()) as nat, cursor_modulus() as nat);
    } else {
        lemma_small_mod((x + y) as nat, cursor_modulus() as nat);
    }
}

/// The executable wrapping subtraction of head from tail computes exactly the
/// number of used slots.
proof fn lemma_wrapping_sub_is_used(head: u32, tail: u32)
    ensures
        vstd::wrapping::u32_specs::wrapping_sub(tail, head) == ring_used(head, tail),
{
    if tail - head < 0 {
        lemma_w32_shift(tail - head, 1);
        lemma_small_mod((tail - head + cursor_modulus()) as nat, cursor_modulus() as nat);
    } else {
        lemma_small_mod((tail - head) as nat, cursor_modulus() as nat);
    }
}

/// Cursor-wrap correctness: two distinct offsets within one capacity window
/// land on distinct array slots, whatever the head cursor's value, including
/// across the 32-bit wrap. A producer that stays within the window can
/// therefore never be handed a slot holding an entry the consumer has not
/// yet released, and no entry in the window is lost or duplicated.
pub proof fn lemma_live_slots_distinct(head: u32, i: int, j: int, mask: u32, k: nat, shift: u32)
    requires
        mask as nat == low_bits_mask(k),
        k <= 16,
        shift == 0 || shift == 1,
        0 <= i < j <= mask,
    ensures
        spec_slot(w32(head + i), mask, shift) != spec_slot(w32(head + j), mask, shift),
{
    let m = cursor_modulus();
    let c = pow2(k) as int;
    lemma2_to64();
    assert(c == mask + 1);
    // the masked cursor is the cursor modulo the capacity
    lemma_u32_low_bits_mask_is_mod(w32(head + i), k);
    lemma_u32_low_bits_mask_is_mod(w32(head + j), k);
    // reducing modulo 2^32 first does not change the residue modulo capacity
    lemma_pow2_adds(k, (32 - k) as nat);
    assert(pow2(32) == 0x1_0000_0000) by {
        lemma2_to64();
    }
    lemma_pow2_pos((32 - k) as nat);
    lemma_mod_mod(head + i, c, pow2((32 - k) as nat) as int);
    lemma_mod_mod(head + j, c, pow2((32 - k) as nat) as int);
    assert(w32(head + i) % (c as u32) == (head + i) % c) by {
        assert(c * pow2((32 - k) as nat) == m);
    }
    assert(w32(head + j) % (c as u32) == (head + j) % c) by {
        assert(c * pow2((32 - k) as nat) == m);
    }
    // distinct offsets below the capacity give distinct residues
    let r = (head + i) % c;
    let d = j - i;
    lemma_fundamental_div_mod(head + i, c);
    let q = (head + i) / c;
    if r + d < c {
        assert(head + j == q * c + (r + d)) by (nonlinear_arith)
            requires head + i == q * c + r, d == j - i;
        lemma_fundamental_div_mod_converse(head + j, c, q, r + d);
    } else {
        assert(head + j == (q + 1) * c + (r + d - c)) by (nonlinear_arith)
            requires head + i == q * c + r, head + j == head + i + d;
        lemma_fundamental_div_mod_converse(head + j, c, q + 1, r + d - c);
    }
    assert((head + i) % c != (head + j) % c);
    let a = w32(head + i) & mask;
    let b = w32(head + j) & mask;
    assert(a != b);
    lemma_shl_u32(a, shift);
    lemma_shl_u32(b, shift);
    assert((w32(head + i) & mask) < 0x8000_0000 && (w32(head + j) & mask) < 0x8000_0000) by {
        let x = w32(head + i);
        let y = w32(head + j);
        assert((x & mask) <= mask && (y & mask) <= mask) by (bit_vector);
    }
}

/// A capacity mask of at most sixteen low bits is small.
proof fn lemma_mask_small(mask: u32, k: nat)
    requires
        mask as nat == low_bits_mask(k),
        k <= 16,
    ensures
        mask <= 0xffff,
{
    lemma2_to64();
    if k < 16 {
        lemma_pow2_strictly_increases(k, 16);
    }
}

impl IoUring {
    /// The array slot the completion cursor value `ptr` addresses, inside the
    /// completion array.
    fn cq_slot(&self, ptr: u32) -> (r: usize)
        requires
            self.wf(),
        ensures
            r == spec_slot(ptr, self.cq_mask, spec_cqe_shift(self.flags)),
            r < self.cq_entries@.len(),
    {
        proof {
            lemma_mask_small(self.cq_mask, self.cq_log@);
            let m = self.cq_mask;
            assert((ptr & m) <= m) by (bit_vector);
            lemma_shl_u32(ptr & m, spec_cqe_shift(self.flags));
            assert(self.cq_entries@.len() == (m + 1) * spec_cqe_stride(self.flags));
            if spec_cqe_shift(self.flags) == 1 {
                assert(spec_cqe_stride(self.flags) == 2);
                assert(spec_slot(ptr, m, 1) == 2 * (ptr & m));
            } else {
                assert(spec_cqe_stride(self.flags) == 1);
                assert(spec_slot(ptr, m, 0) == (ptr & m));
            }
        }
        let shift: u32 = if self.flags & IORING_SETUP_CQE32 != 0 {
            1
        } else {
            0
        };
        ((ptr & self.cq_mask) << shift) as usize
    }

    /// The array slot the submission cursor value `ptr` addresses.
    fn sq_slot(&self, ptr: u32) -> (r: usize)
        requires
            self.wf(),
        ensures
            r == spec_slot(ptr, self.sq_mask, 0),
            r < self.sq_entries@.len(),
    {
        proof {
            lemma_mask_small(self.sq_mask, self.sq_log@);
            let m = self.sq_mask;
            assert((ptr & m) <= m) by (bit_vector);
            lemma_shl_u32(ptr & m, 0);
        }
        (ptr & self.sq_mask) as usize
    }

    /// Claims the next free submission slot and fills it with `e`, leaving the
    /// entry pending publication. Fails exactly when the submission ring is
    /// full: a slot the kernel has not yet consumed is never handed out, and
    /// no pending entry is lost or duplicated.
    pub fn push_sqe(&mut self, e: Sqe) -> (ok: bool)
        requires
            old(self).wf(),
        ensures
            final(self).wf(),
            old(self)@.sq_pending.len() < old(self)@.sq_capacity ==> ok && final(self)@
                == (RingView { sq_pending: old(self)@.sq_pending.push(e), ..old(self)@ }),
            old(self)@.sq_pending.len() >= old(self)@.sq_capacity ==> !ok && final(self)@
                == old(self)@,
    {
        proof {
            lemma_mask_small(self.sq_mask, self.sq_log@);
            lemma_wrapping_sub_is_used(self.sq_khead, self.sq_ktail);
        }
        let used = self.sq_ktail.wrapping_sub(self.sq_khead);
        if used > self.sq_mask {
            return false;
        }
        let idx = self.sq_slot(self.sq_ktail);
        let ghost before = *self;
        self.sq_entries[idx] = e;
        self.sq_ktail = self.sq_ktail.wrapping_add(1);
        proof {
            let h = before.sq_khead;
            let t = before.sq_ktail;
            let u = ring_used(h, t) as int;
            lemma_wrapping_add_is_w32(t, 1);
            assert(self.sq_ktail == w32(t + 1));
            assert(ring_used(h, self.sq_ktail) == u + 1) by {
                lemma_w32_absorb(t + 1, -(h as int));
                assert(w32(self.sq_ktail - h) == w32(t + 1 - h));
                lemma_w32_add_one(t - h);
            }
            lemma_tail_is_head_plus_used(h, t);
            let m = before.sq_mask;
            assert(w32(h + u) == t);
            assert forall|i: int| 0 <= i < u implies self@.sq_pending[i]
                == before@.sq_pending[i] by {
                lemma_live_slots_distinct(h, i, u, m, before.sq_log@, 0);
                let xi = w32(h + i);
                assert((xi & m) <= m) by (bit_vector);
                lemma_shl_u32(xi & m, 0);
                assert(spec_slot(xi, m, 0) != idx as int);
                assert(self.sq_entries@[spec_slot(xi, m, 0)]
                    == before.sq_entries@[spec_slot(xi, m, 0)]);
            }
            assert(self@.sq_pending[u] == self.sq_entries@[spec_slot(t, m, 0)]);
            assert(self@.sq_pending[u] == e);
            assert(self@.sq_pending =~= before@.sq_pending.push(e));
            assert(self@.ready =~= before@.ready);
            assert(self@ =~= (RingView { sq_pending: before@.sq_pending.push(e), ..before@ }));
        }
        true
    }
}

impl IoUring {
    /// Publishes every filled submission slot to the kernel collaborator, in
    /// submission order, and returns how many were published. The submission
    /// window empties; nothing is lost or duplicated across the wrap.
    pub fn submit(&mut self) -> (n: u32)
        requires
            old(self).wf(),
        ensures
            final(self).wf(),
            n == old(self)@.sq_pending.len(),
            final(self)@ == (RingView {
                sq_pending: Seq::<Sqe>::empty(),
                inflight: old(self)@.inflight + old(self)@.sq_pending,
                ..old(self)@
            }),
    {
        let ghost before = *self;
        let mut count: u32 = 0;
        proof {
            lemma_mask_small(self.sq_mask, self.sq_log@);
            lemma_small_mod(before.sq_khead as nat, cursor_modulus() as nat);
            assert(before@.sq_pending.take(0) =~= Seq::<Sqe>::empty());
        }
        while self.sq_khead != self.sq_ktail
            invariant
                self.wf(),
                self.flags == before.flags,
                self.sq_entries == before.sq_entries,
                self.sq_ktail == before.sq_ktail,
                self.sq_mask == before.sq_mask,
                self.sq_log == before.sq_log,
                self.cq_entries == before.cq_entries,
                self.cq_khead == before.cq_khead,
                self.cq_ktail == before.cq_ktail,
                self.cq_mask == before.cq_mask,
                self.cq_log == before.cq_log,
                count as nat <= before@.sq_pending.len(),
                self.sq_khead == w32(before.sq_khead + count),
                ring_used(self.sq_khead, self.sq_ktail) == before@.sq_pending.len() - count,
                self.inflight@ == before.inflight@ + before@.sq_pending.take(count as int),
            decreases ring_used(self.sq_khead, self.sq_ktail),
        {
            proof {
                lemma_used_iff_ne(self.sq_khead, self.sq_ktail);
            }
            let ghost h0 = before.sq_khead;
            let ghost c = count as int;
            let idx = self.sq_slot(self.sq_khead);
            let e = self.sq_entries[idx];
            proof {
                assert(e == before@.sq_pending[c]);
                assert(before.inflight@ + before@.sq_pending.take(c + 1)
                    =~= (before.inflight@ + before@.sq_pending.take(c)).push(e));
                lemma_wrapping_add_is_w32(self.sq_khead, 1);
                lemma_w32_absorb(h0 + c, 1);
                lemma_used_after_advance(self.sq_khead, self.sq_ktail, 1);
            }
            self.inflight.push(e);
            self.sq_khead = self.sq_khead.wrapping_add(1);
            count = count + 1;
        }
        proof {
            lemma_used_iff_ne(self.sq_khead, self.sq_ktail);
            assert(count as nat == before@.sq_pending.len());
            assert(before@.sq_pending.take(count as int) =~= before@.sq_pending);
            assert(self@.sq_pending =~= Seq::<Sqe>::empty());
            assert(self@.ready =~= before@.ready);
            assert(self@ =~= (RingView {
                sq_pending: Seq::<Sqe>::empty(),
                inflight: before@.inflight + before@.sq_pending,
                ..before@
            }));
        }
        count
    }

    /// Publishes the consumed head cursor back to the kernel: the first `nr`
    /// ready completion entries are released for reuse and no accessor
    /// exposes them again. Must be called once per drained batch, after the
    /// whole batch has been read.
    pub fn cq_advance(&mut self, nr: u32)
        requires
            old(self).wf(),
            nr as nat <= old(self)@.ready.len(),
        ensures
            final(self).wf(),
            final(self)@ == advanced_ring(old(self)@, nr as int),
    {
        let ghost before = *self;
        proof {
            lemma_wrapping_add_is_w32(self.cq_khead, nr);
            lemma_used_after_advance(self.cq_khead, self.cq_ktail, nr as int);
        }
        self.cq_khead = self.cq_khead.wrapping_add(nr);
        proof {
            let h = before.cq_khead;
            let u = before@.ready.len() as int;
            assert forall|i: int| 0 <= i < u - nr implies self@.ready[i]
                == before@.ready[nr + i] by {
                lemma_w32_absorb(h + nr, i);
            }
            assert(self@.ready =~= before@.ready.skip(nr as int));
            assert(self@.sq_pending =~= before@.sq_pending);
            assert(self@ =~= (RingView { ready: before@.ready.skip(nr as int), ..before@ }));
        }
    }

    /// The kernel collaborator answers the unanswered submission at position
    /// `i` with result `res`: a completion carrying that submission's
    /// correlation tag verbatim is appended to the ready window. A multishot
    /// accept stays armed; any other operation leaves the unanswered queue.
    pub fn kernel_complete(&mut self, i: usize, res: i32)
        requires
            old(self).wf(),
            i < old(self)@.inflight.len(),
            old(self)@.ready.len() < old(self)@.cq_capacity,
        ensures
            final(self).wf(),
            final(self)@ == completed_ring(old(self)@, i as int, res),
    {
        let ghost before = *self;
        let op = self.inflight[i];
        let cqe = Cqe { user_data: op.user_data, res };
        let idx = self.cq_slot(self.cq_ktail);
        proof {
            lemma_mask_small(self.cq_mask, self.cq_log@);
        }
        self.cq_entries[idx] = cqe;
        self.cq_ktail = self.cq_ktail.wrapping_add(1);
        match op.opcode {
            Opcode::MultishotAccept => {},
            _ => {
                self.inflight.remove(i);
            },
        }
        proof {
            let h = before.cq_khead;
            let t = before.cq_ktail;
            let u = before@.ready.len() as int;
            let m = before.cq_mask;
            let sh = spec_cqe_shift(before.flags);
            lemma_wrapping_add_is_w32(t, 1);
            assert(self.cq_ktail == w32(t + 1));
            assert(ring_used(h, self.cq_ktail) == u + 1) by {
                lemma_w32_absorb(t + 1, -(h as int));
                assert(w32(self.cq_ktail - h) == w32(t + 1 - h));
                lemma_w32_add_one(t - h);
            }
            lemma_tail_is_head_plus_used(h, t);
            assert(w32(h + u) == t);
            assert forall|j: int| 0 <= j < u implies self@.ready[j] == before@.ready[j] by {
                lemma_live_slots_distinct(h, j, u, m, before.cq_log@, sh);
                let xj = w32(h + j);
                assert((xj & m) <= m) by (bit_vector);
                lemma_shl_u32(xj & m, sh);
                assert(before.cq_entries@.len() == (m + 1) * spec_cqe_stride(before.flags));
                if sh == 1 {
                    assert(spec_cqe_stride(before.flags) == 2);
                    assert(spec_slot(xj, m, sh) == 2 * (xj & m));
                } else {
                    assert(spec_cqe_stride(before.flags) == 1);
                    assert(spec_slot(xj, m, sh) == (xj & m));
                }
                assert(spec_slot(xj, m, sh) < before.cq_entries@.len());
                assert(spec_slot(xj, m, sh) != idx as int);
                assert(self.cq_entries@[spec_slot(xj, m, sh)]
                    == before.cq_entries@[spec_slot(xj, m, sh)]);
            }
            assert(self@.ready[u] == self.cq_entries@[spec_slot(t, m, sh)]);
            assert(self@.ready[u] == cqe);
            assert(self@.ready =~= before@.ready.push(cqe));
            assert(self@.sq_pending =~= before@.sq_pending);
            assert(self@ =~= (RingView {
                inflight: self.inflight@,
                ready: before@.ready.push(cqe),
                ..before@
            }));
        }
    }
}

/// Reads the completion ring's ready window without consuming it: every entry
/// from the last-consumed head up to the published tail, oldest first, each
/// addressed through the masked, shift-adjusted slot index. The head cursor is
/// not advanced; `cq_advance` publishes consumption separately, so a handler
/// may fill new submission slots while the batch is being processed.
pub fn io_uring_for_each_cqe(ring: &IoUring) -> (r: Vec<Cqe>)
    requires
        ring.wf(),
    ensures
        r@ == ring@.ready,
{
    let mut out: Vec<Cqe> = Vec::new();
    let mut head = ring.cq_khead;
    let tail = ring.cq_ktail;
    proof {
        lemma_mask_small(ring.cq_mask, ring.cq_log@);
        lemma_small_mod(ring.cq_khead as nat, cursor_modulus() as nat);
        assert(ring@.ready.take(0) =~= Seq::<Cqe>::empty());
    }
    while head != tail
        invariant
            ring.wf(),
            tail == ring.cq_ktail,
            out@.len() <= ring@.ready.len(),
            head == w32(ring.cq_khead + out@.len()),
            ring_used(head, tail) == ring@.ready.len() - out@.len(),
            out@ == ring@.ready.take(out@.len() as int),
        decreases ring_used(head, tail),
    {
        proof {
            lemma_used_iff_ne(head, tail);
            lemma_mask_small(ring.cq_mask, ring.cq_log@);
        }
        let ghost c = out@.len() as int;
        let idx = io_uring_cqe_index(ring, head, ring.cq_mask);
        proof {
            let m = ring.cq_mask;
            let sh = spec_cqe_shift(ring.flags);
            assert((head & m) <= m) by (bit_vector);
            lemma_shl_u32(head & m, sh);
            assert(ring.cq_entries@.len() == (m + 1) * spec_cqe_stride(ring.flags));
            if sh == 1 {
                assert(spec_cqe_stride(ring.flags) == 2);
                assert(idx == 2 * (head & m));
            } else {
                assert(spec_cqe_stride(ring.flags) == 1);
                assert(idx == (head & m));
            }
            assert(idx < ring.cq_entries@.len());
            assert(ring.cq_entries@[idx as int] == ring@.ready[c]);
            assert(ring@.ready.take(c + 1) =~= ring@.ready.take(c).push(ring@.ready[c]));
            lemma_wrapping_add_is_w32(head, 1);
            lemma_w32_absorb(ring.cq_khead + c, 1);
            lemma_used_after_advance(head, tail, 1);
        }
        out.push(ring.cq_entries[idx as usize]);
        head = head.wrapping_add(1);
    }
    proof {
        lemma_used_iff_ne(head, tail);
        assert(out@ =~= ring@.ready);
    }
    out
}

/// What the kernel collaborator does to the unanswered queue when asked to
/// run: every no-op is answered in queue order with result 0, as long as the
/// completion ring has room; everything else stays unanswered. Returns the
/// queue that remains and the completions that were posted, in order.
pub open spec fn nop_completions(infl: Seq<Sqe>, room: nat) -> (Seq<Sqe>, Seq<Cqe>)
    decreases infl.len(),
{
    if infl.len() == 0 {
        (Seq::<Sqe>::empty(), Seq::<Cqe>::empty())
    } else {
        let op = infl[0];
        if op.opcode is Nop && room > 0 {
            let rest = nop_completions(infl.drop_first(), (room - 1) as nat);
            (rest.0, seq![Cqe { user_data: op.user_data, res: 0 }] + rest.1)
        } else {
            let rest = nop_completions(infl.drop_first(), room);
            (seq![op] + rest.0, rest.1)
        }
    }
}

/// The ring after the kernel collaborator answers the unanswered submission
/// at position `i` with result `res`: the posted completion carries that
/// submission's correlation tag verbatim, and the submission leaves the
/// unanswered queue unless it is a multishot accept, which stays armed.
pub open spec fn completed_ring(rv: RingView, i: int, res: i32) -> RingView {
    RingView {
        inflight: if rv.inflight[i].opcode is MultishotAccept {
            rv.inflight
        } else {
            rv.inflight.remove(i)
        },
        ready: rv.ready.push(Cqe { user_data: rv.inflight[i].user_data, res }),
        ..rv
    }
}

/// The ring after the consumer publishes `n` consumed entries back to the
/// kernel.
pub open spec fn advanced_ring(rv: RingView, n: int) -> RingView {
    RingView { ready: rv.ready.skip(n), ..rv }
}

/// Tag round trip: for every submission the kernel collaborator answers, the
/// completion it posts carries exactly the correlation tag that the
/// submission was given, whatever the result code.
pub proof fn lemma_tag_round_trip(rv: RingView, i: int, res: i32)
    requires
        0 <= i < rv.inflight.len(),
    ensures
        completed_ring(rv, i, res).ready.last().user_data == rv.inflight[i].user_data,
        completed_ring(rv, i, res).ready.last().res == res,
        completed_ring(rv, i, res).ready.drop_last() == rv.ready,
{
    assert(completed_ring(rv, i, res).ready.drop_last() =~= rv.ready);
}

/// Drain-then-advance ordering: draining exposes exactly the ready window,
/// and advancing the head by `n` removes exactly its first `n` entries from
/// every later view of the ring. Once the head has moved, no accessor exposes
/// the released entries again, so a batch must be fully read before the
/// advance that releases it.
pub proof fn lemma_advance_discards_prefix(rv: RingView, n: int)
    requires
        0 <= n <= rv.ready.len(),
    ensures
        advanced_ring(rv, n).ready.len() == rv.ready.len() - n,
        forall|i: int| 0 <= i < rv.ready.len() - n ==> advanced_ring(rv, n).ready[i]
            == rv.ready[n + i],
{
}

/// Every completion of the kernel collaborator's no-op pass has result 0 and
/// echoes the correlation tag of a no-op that was waiting in the unanswered
/// queue.
pub proof fn lemma_nop_pass_echoes_tags(infl: Seq<Sqe>, room: nat)
    ensures
        forall|j: int| 0 <= j < nop_completions(infl, room).1.len() ==> {
            &&& (#[trigger] nop_completions(infl, room).1[j]).res == 0
            &&& exists|k: int| 0 <= k < infl.len() && (#[trigger] infl[k]).opcode is Nop
                && nop_completions(infl, room).1[j].user_data == infl[k].user_data
        },
    decreases infl.len(),
{
    if infl.len() == 0 {
    } else {
        let op = infl[0];
        let rest = infl.drop_first();
        if op.opcode is Nop && room > 0 {
            lemma_nop_pass_echoes_tags(rest, (room - 1) as nat);
            let posted = nop_completions(infl, room).1;
            let posted_rest = nop_completions(rest, (room - 1) as nat).1;
            assert forall|j: int| 0 <= j < posted.len() implies {
                &&& (#[trigger] posted[j]).res == 0
                &&& exists|k: int| 0 <= k < infl.len() && (#[trigger] infl[k]).opcode is Nop
                    && posted[j].user_data == infl[k].user_data
            } by {
                if j == 0 {
                    assert(infl[0].opcode is Nop && posted[0].user_data == infl[0].user_data);
                } else {
                    assert(posted[j] == posted_rest[j - 1]);
                    let k0 = choose|k: int| 0 <= k < rest.len() && (#[trigger] rest[k]).opcode
                        is Nop && posted_rest[j - 1].user_data == rest[k].user_data;
                    assert(infl[k0 + 1] == rest[k0]);
                    assert(infl[k0 + 1].opcode is Nop
                        && posted[j].user_data == infl[k0 + 1].user_data);
                }
            }
        } else {
            lemma_nop_pass_echoes_tags(rest, room);
            let posted = nop_completions(infl, room).1;
            let posted_rest = nop_completions(rest, room).1;
            assert forall|j: int| 0 <= j < posted.len() implies {
                &&& (#[trigger] posted[j]).res == 0
                &&& exists|k: int| 0 <= k < infl.len() && (#[trigger] infl[k]).opcode is Nop
                    && posted[j].user_data == infl[k].user_data
            } by {
                assert(posted[j] == posted_rest[j]);
                let k0 = choose|k: int| 0 <= k < rest.len() && (#[trigger] rest[k]).opcode
                    is Nop && posted_rest[j].user_data == rest[k].user_data;
                assert(infl[k0 + 1] == rest[k0]);
                assert(infl[k0 + 1].opcode is Nop
                    && posted[j].user_data == infl[k0 + 1].user_data);
            }
        }
    }
}


/// When every unanswered submission is a no-op and the completion ring has
/// room for all of them, the kernel collaborator answers them all, in
/// submission order, each with result 0 and its own correlation tag.
pub proof fn lemma_nop_pass_in_order(infl: Seq<Sqe>, room: nat)
    requires
        room >= infl.len(),
        forall|i: int| 0 <= i < infl.len() ==> (#[trigger] infl[i]).opcode is Nop,
    ensures
        nop_completions(infl, room).0 == Seq::<Sqe>::empty(),
        nop_completions(infl, room).1 == infl.map_values(
            |e: Sqe| Cqe { user_data: e.user_data, res: 0 },
        ),
    decreases infl.len(),
{
    let answer = |e: Sqe| Cqe { user_data: e.user_data, res: 0 };
    if infl.len() == 0 {
        assert(infl.map_values(answer) =~= Seq::<Cqe>::empty());
    } else {
        let rest = infl.drop_first();
        lemma_nop_pass_in_order(rest, (room - 1) as nat);
        assert(nop_completions(infl, room).1 =~= infl.map_values(answer)) by {
            assert(nop_completions(infl, room).1 == seq![answer(infl[0])] + rest.map_values(
                answer,
            ));
        }
    }
}

/// How many more completions the completion ring can hold.
pub open spec fn cq_room(rv: RingView) -> nat {
    if rv.ready.len() <= rv.cq_capacity {
        (rv.cq_capacity - rv.ready.len()) as nat
    } else {
        0
    }
}

/// The ring after publishing all filled submission slots.
pub open spec fn submitted_ring(rv: RingView) -> RingView {
    RingView {
        sq_pending: Seq::<Sqe>::empty(),
        inflight: rv.inflight + rv.sq_pending,
        ..rv
    }
}

/// The ring after the kernel collaborator has answered the no-ops it can.
pub open spec fn nop_drained_ring(rv: RingView) -> RingView {
    RingView {
        inflight: nop_completions(rv.inflight, cq_room(rv)).0,
        ready: rv.ready + nop_completions(rv.inflight, cq_room(rv)).1,
        ..rv
    }
}

/// The ring after one submit-and-wait call: publication followed by the
/// kernel collaborator's no-op pass.
pub open spec fn waited_ring(rv: RingView) -> RingView {
    nop_drained_ring(submitted_ring(rv))
}

/// Why a submit-and-wait call could not hand back enough completions.
#[derive(Clone, Copy, PartialEq, Eq, Structural, Debug)]
pub enum WaitError {
    /// Fewer completions are ready than were asked for, and none can arrive
    /// until the kernel collaborator is driven again: a real ring would block
    /// here.
    WouldBlock,
}

impl IoUring {
    /// Publishes all filled submission slots and lets the kernel collaborator
    /// run its no-op pass, then reports whether at least `wait_nr`
    /// completions are ready. `Ok` carries the number of entries published;
    /// `Err(WouldBlock)` says the ready window is still short of `wait_nr`,
    /// which on a real ring is where the call would sleep.
    pub fn submit_and_wait(&mut self, wait_nr: u32) -> (r: Result<u32, WaitError>)
        requires
            old(self).wf(),
        ensures
            final(self).wf(),
            final(self)@ == waited_ring(old(self)@),
            r matches Ok(n) ==> n == old(self)@.sq_pending.len(),
            r is Ok <==> waited_ring(old(self)@).ready.len() >= wait_nr,
            r is Err ==> r == Result::<u32, WaitError>::Err(WaitError::WouldBlock),
    {
        let n = self.submit();
        let ghost mid = *self;
        let ghost room0 = cq_room(mid@);
        let ghost target = nop_completions(mid@.inflight, room0);
        let ghost base = mid@.ready.len() as int;
        let mut i: usize = 0;
        proof {
            assert(mid@.inflight.take(0) =~= Seq::<Sqe>::empty());
            assert(mid@.inflight.skip(0) =~= mid@.inflight);
            assert(mid@.ready.skip(base) =~= Seq::<Cqe>::empty());
            assert(mid@.ready.take(base) =~= mid@.ready);
        }
        while i < self.inflight.len()
            invariant
                self.wf(),
                i <= self@.inflight.len(),
                self@.flags == mid@.flags,
                self@.sq_capacity == mid@.sq_capacity,
                self@.cq_capacity == mid@.cq_capacity,
                self@.sq_pending == mid@.sq_pending,
                base == mid@.ready.len(),
                base <= self@.ready.len(),
                self@.ready.take(base) == mid@.ready,
                target.0 == self@.inflight.take(i as int) + nop_completions(
                    self@.inflight.skip(i as int),
                    cq_room(self@),
                ).0,
                target.1 == self@.ready.skip(base) + nop_completions(
                    self@.inflight.skip(i as int),
                    cq_room(self@),
                ).1,
            decreases self@.inflight.len() - i,
        {
            let op = self.inflight[i];
            proof {
                lemma_wrapping_sub_is_used(self.cq_khead, self.cq_ktail);
                lemma_mask_small(self.cq_mask, self.cq_log@);
            }
            let used = self.cq_ktail.wrapping_sub(self.cq_khead);
            let has_room = used <= self.cq_mask;
            let is_nop = match op.opcode {
                Opcode::Nop => true,
                _ => false,
            };
            let ghost snap = *self;
            let ghost j = i as int;
            if is_nop && has_room {
                self.kernel_complete(i, 0);
                proof {
                    let cqe = Cqe { user_data: op.user_data, res: 0 };
                    assert(snap@.inflight.skip(j)[0] == op);
                    assert(snap@.inflight.skip(j).drop_first() =~= snap@.inflight.skip(j + 1));
                    assert(cq_room(snap@) > 0);
                    assert(nop_completions(snap@.inflight.skip(j), cq_room(snap@)).0
                        == nop_completions(snap@.inflight.skip(j + 1), (cq_room(snap@) - 1) as nat).0);
                    assert(nop_completions(snap@.inflight.skip(j), cq_room(snap@)).1
                        == seq![cqe] + nop_completions(
                            snap@.inflight.skip(j + 1),
                            (cq_room(snap@) - 1) as nat,
                        ).1);
                    assert(self@.inflight =~= snap@.inflight.remove(j));
                    assert(self@.inflight.take(j) =~= snap@.inflight.take(j));
                    assert(self@.inflight.skip(j) =~= snap@.inflight.skip(j + 1));
                    assert(cq_room(self@) == (cq_room(snap@) - 1) as nat);
                    assert(op == snap@.inflight[j]);
                    assert(self@.ready == snap@.ready.push(cqe));
                    assert(self@.ready.len() == snap@.ready.len() + 1);
                    assert forall|k: int| 0 <= k < self@.ready.len() implies self@.ready[k]
                        == (if k < snap@.ready.len() {
                            snap@.ready[k]
                        } else {
                            cqe
                        }) by {
                        assert(self@.ready[k] == snap@.ready.push(cqe)[k]);
                    }
                    assert(self@.ready.take(base) =~= snap@.ready.take(base));
                    assert(self@.ready.skip(base) =~= snap@.ready.skip(base).push(cqe));
                    assert(snap@.ready.skip(base).push(cqe)
                        =~= snap@.ready.skip(base) + seq![cqe]);
                    assert(self@.ready.skip(base) + nop_completions(
                        self@.inflight.skip(j),
                        cq_room(self@),
                    ).1 =~= snap@.ready.skip(base) + nop_completions(
                        snap@.inflight.skip(j),
                        cq_room(snap@),
                    ).1);
                }
            } else {
                proof {
                    assert(snap@.inflight.skip(j)[0] == op);
                    assert(snap@.inflight.skip(j).drop_first() =~= snap@.inflight.skip(j + 1));
                    if is_nop {
                        assert(snap@.ready.len() == snap@.cq_capacity);
                        assert(cq_room(snap@) == 0);
                    }
                    assert(nop_completions(snap@.inflight.skip(j), cq_room(snap@)).0
                        == seq![op] + nop_completions(snap@.inflight.skip(j + 1), cq_room(snap@)).0);
                    assert(nop_completions(snap@.inflight.skip(j), cq_room(snap@)).1
                        == nop_completions(snap@.inflight.skip(j + 1), cq_room(snap@)).1);
                    assert(snap@.inflight.take(j + 1) =~= snap@.inflight.take(j).push(op));
                    assert(snap@.inflight.take(j) + (seq![op] + nop_completions(
                        snap@.inflight.skip(j + 1),
                        cq_room(snap@),
                    ).0) =~= snap@.inflight.take(j + 1) + nop_completions(
                        snap@.inflight.skip(j + 1),
                        cq_room(snap@),
                    ).0);
                }
                i = i + 1;
            }
        }
        proof {
            let len = self@.inflight.len() as int;
            assert(self@.inflight.skip(len) =~= Seq::<Sqe>::empty());
            assert(self@.inflight.take(len) =~= self@.inflight);
            assert(target.0 =~= self@.inflight);
            assert(self@.ready =~= self@.ready.take(base) + self@.ready.skip(base));
            assert(self@.ready =~= mid@.ready + target.1);
            assert(submitted_ring(old(self)@) =~= mid@);
            assert(self@ =~= waited_ring(old(self)@));
            lemma_wrapping_sub_is_used(self.cq_khead, self.cq_ktail);
        }
        let ready_now = self.cq_ktail.wrapping_sub(self.cq_khead);
        if ready_now >= wait_nr {
            Ok(n)
        } else {
            Err(WaitError::WouldBlock)
        }
    }
}

impl IoUring {
    /// How many submission entries are filled and not yet published.
    pub fn sq_pending_len(&self) -> (r: u32)
        requires
            self.wf(),
        ensures
            r == self@.sq_pending.len(),
    {
        proof {
            lemma_wrapping_sub_is_used(self.sq_khead, self.sq_ktail);
        }
        self.sq_ktail.wrapping_sub(self.sq_khead)
    }

    /// How many completion entries are ready and not yet consumed.
    pub fn ready_len(&self) -> (r: u32)
        requires
            self.wf(),
        ensures
            r == self@.ready.len(),
    {
        proof {
            lemma_wrapping_sub_is_used(self.cq_khead, self.cq_ktail);
        }
        self.cq_ktail.wrapping_sub(self.cq_khead)
    }

    /// How many published submissions the kernel collaborator has not yet
    /// answered.
    pub fn inflight_len(&self) -> (r: usize)
        ensures
            r == self@.inflight.len(),
    {
        self.inflight.len()
    }

    /// The unanswered submission at position `i`, oldest first.
    pub fn inflight_at(&self, i: usize) -> (r: Sqe)
        requires
            i < self@.inflight.len(),
        ensures
            r == self@.inflight[i as int],
    {
        self.inflight[i]
    }

    /// The filled, unpublished submission entry at position `i`, oldest
    /// first.
    pub fn sq_pending_at(&self, i: u32) -> (r: Sqe)
        requires
            self.wf(),
            (i as nat) < self@.sq_pending.len(),
        ensures
            r == self@.sq_pending[i as int],
    {
        proof {
            lemma_wrapping_add_is_w32(self.sq_khead, i);
        }
        let ptr = self.sq_khead.wrapping_add(i);
        let idx = self.sq_slot(ptr);
        self.sq_entries[idx]
    }

    /// The submission ring's capacity.
    pub fn sq_capacity(&self) -> (r: u32)
        requires
            self.wf(),
        ensures
            r == self@.sq_capacity,
    {
        proof {
            lemma_mask_small(self.sq_mask, self.sq_log@);
        }
        self.sq_mask + 1
    }

    /// The completion ring's capacity.
    pub fn cq_capacity(&self) -> (r: u32)
        requires
            self.wf(),
        ensures
            r == self@.cq_capacity,
    {
        proof {
            lemma_mask_small(self.cq_mask, self.cq_log@);
        }
        self.cq_mask + 1
    }
}

/// The submission entry a no-op request fills in: no descriptor, no buffer,
/// only the correlation tag.
pub open spec fn nop_sqe(tag: u64) -> Sqe {
    Sqe { opcode: Opcode::Nop, fd: -1i32, buf_len: 0, op_flags: 0, user_data: tag }
}

/// Fills a no-op submission entry carrying `tag`.
pub fn io_uring_prep_nop(tag: u64) -> (r: Sqe)
    ensures
        r == nop_sqe(tag),
{
    Sqe { opcode: Opcode::Nop, fd: -1i32, buf_len: 0, op_flags: 0, user_data: tag }
}

/// The submission entry a receive request fills in.
pub open spec fn recv_sqe(fd: i32, buf_len: u32, op_flags: u32, tag: u64) -> Sqe {
    Sqe { opcode: Opcode::Recv, fd, buf_len, op_flags, user_data: tag }
}

/// Fills a receive submission entry: read into the connection's buffer of
/// length `buf_len` on descriptor `fd`, with the given receive flags,
/// carrying `tag`.
pub fn io_uring_prep_recv(fd: i32, buf_len: u32, op_flags: u32, tag: u64) -> (r: Sqe)
    ensures
        r == recv_sqe(fd, buf_len, op_flags, tag),
{
    Sqe { opcode: Opcode::Recv, fd, buf_len, op_flags, user_data: tag }
}

/// The submission entry a multishot accept request fills in.
pub open spec fn multishot_accept_sqe(fd: i32, tag: u64) -> Sqe {
    Sqe { opcode: Opcode::MultishotAccept, fd, buf_len: 0, op_flags: 0, user_data: tag }
}

/// Fills a multishot accept submission entry on listening descriptor `fd`,
/// carrying `tag`; once published it keeps producing one completion per
/// accepted peer.
pub fn io_uring_prep_multishot_accept(fd: i32, tag: u64) -> (r: Sqe)
    ensures
        r == multishot_accept_sqe(fd, tag),
{
    Sqe { opcode: Opcode::MultishotAccept, fd, buf_len: 0, op_flags: 0, user_data: tag }
}

impl IoUring {
    /// Bounds that every well-formed ring obeys: each window fits its
    /// capacity and the capacities are modest powers of two.
    pub proof fn lemma_ring_bounds(&self)
        requires
            self.wf(),
        ensures
            self@.sq_pending.len() <= self@.sq_capacity,
            self@.ready.len() <= self@.cq_capacity,
            1 <= self@.sq_capacity <= 32768,
            1 <= self@.cq_capacity <= 65536,
    {
        lemma_mask_small(self.sq_mask, self.sq_log@);
        lemma_mask_small(self.cq_mask, self.cq_log@);
        lemma2_to64();
        if self.sq_log@ < 15 {
            lemma_pow2_strictly_increases(self.sq_log@, 15);
        }
        if self.cq_log@ < 16 {
            lemma_pow2_strictly_increases(self.cq_log@, 16);
        }
    }
}

/// A left shift by 0 or 1 on a value with room to spare is multiplication.
proof fn lemma_shl_u32(x: u32, shift: u32)
    requires
        shift == 0 || (shift == 1 && x < 0x8000_0000),
    ensures
        shift == 0 ==> (x << shift) == x,
        shift == 1 ==> (x << shift) == 2 * x,
{
    assert(x << 0u32 == x) by (bit_vector);
    if shift == 1 {
        assert(x < 0x8000_0000u32 ==> (x << 1u32) == 2 * x) by (bit_vector);
    }
}

} // verus!
