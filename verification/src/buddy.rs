//! The buddy-system physical frame allocator.
//!
//! Physical memory is carved into zones (user, kernel, DMA). Each zone owns a
//! metadata table with one record per page and an array of free lists, one
//! per block order: a block of order `n` spans `2^n` contiguous pages. An
//! allocation takes the head of the first non-empty bucket of sufficient
//! order and splits it down to the requested order; a free coalesces the
//! block with its free buddies and relinks the result.
//!
//! Frame "pointers" are plain indices into the metadata table, so the free
//! lists are ordinary integer-linked lists inside an arena. The verified
//! invariant ties the linked lists to ghost bucket sequences and keeps every
//! tracked block aligned, in range, and disjoint from all others.

use vstd::prelude::*;

verus! {

use vstd::arithmetic::power2::pow2;
use vstd::arithmetic::power2::lemma_pow2_adds;
use vstd::arithmetic::power2::lemma_pow2_pos;
use vstd::arithmetic::power2::lemma_pow2_strictly_increases;
use vstd::arithmetic::power2::lemma2_to64;
use vstd::bits::lemma_u32_shl_is_mul;
use vstd::bits::lemma_u32_pow2_no_overflow;
use vstd::bits::lemma_usize_shl_is_mul;
use vstd::bits::lemma_usize_pow2_no_overflow;

/// Type representing the order of a memory frame: a frame of order `n`
/// spans `2^n` pages.
pub type FrameOrder = u8;

/// Type representing the identifier of a frame: its index into the owning
/// zone's metadata table.
pub type FrameID = u32;

/// The maximum order of a buddy-allocated frame.
pub const MAX_ORDER: FrameOrder = 17;

/// The number of free-list buckets of a zone: one per order.
pub const BUCKETS_COUNT: usize = (MAX_ORDER as usize) + 1;

/// The size in bytes of a memory page.
pub const PAGE_SIZE: usize = 4096;

/// Linkage value indicating that a frame is used.
pub const FRAME_STATE_USED: FrameID = 0xffff_ffff;

/// Upper bound on the number of pages a zone may manage, keeping every
/// frame identifier and buddy computation comfortably inside `u32`.
pub const MAX_ZONE_PAGES: u32 = 0x4000_0000;

/// The size in bytes of one frame metadata record.
pub const FRAME_METADATA_SIZE: usize = 9;

/// Metadata record for one physical page slot.
///
/// The record carries the free-list linkage of the block the page heads. If
/// either linkage field holds [`FRAME_STATE_USED`], the frame is not on any
/// free list. A frame pointing to itself is the first/last element of its
/// list.
#[derive(Clone, Copy, Debug)]
pub struct Frame {
    /// Identifier of the previous frame in the free list.
    pub prev: FrameID,
    /// Identifier of the next frame in the free list.
    pub next: FrameID,
    /// Order of the block this frame heads.
    pub order: FrameOrder,
}

impl Frame {
    /// Whether the linkage fields mark this frame as used.
    pub open spec fn spec_is_used(self) -> bool {
        self.prev == FRAME_STATE_USED || self.next == FRAME_STATE_USED
    }

    /// Tells whether the frame is used or not.
    pub fn is_used(&self) -> (r: bool)
        ensures
            r == self.spec_is_used(),
    {
        self.prev == FRAME_STATE_USED || self.next == FRAME_STATE_USED
    }

    /// Marks the frame as used. The frame must not be linked to any free
    /// list.
    pub fn mark_used(&mut self)
        ensures
            final(self).prev == FRAME_STATE_USED,
            final(self).next == FRAME_STATE_USED,
            final(self).order == old(self).order,
            final(self).spec_is_used(),
    {
        self.prev = FRAME_STATE_USED;
        self.next = FRAME_STATE_USED;
    }

    /// Marks the frame as free, with cleared linkage. The frame must not be
    /// linked to any free list.
    pub fn mark_free(&mut self)
        ensures
            final(self).prev == 0,
            final(self).next == 0,
            final(self).order == old(self).order,
            !final(self).spec_is_used(),
    {
        self.prev = 0;
        self.next = 0;
    }

    /// Returns the identifier of the buddy of the block headed by this
    /// frame, `id` being the frame's own identifier: the identifier with
    /// the bit of the block's own size flipped.
    pub fn get_buddy_id(&self, id: FrameID) -> (r: FrameID)
        requires
            self.order <= MAX_ORDER,
            id < MAX_ZONE_PAGES,
            id as nat % pow2(self.order as nat) == 0,
        ensures
            r as nat == buddy_of(id as nat, self.order as nat),
    {
        proof {
            lemma_xor_is_buddy(id, self.order);
        }
        id ^ (1u32 << (self.order as u32))
    }
}

/// Identifier of the buddy of the block of the given order based at `id`:
/// the other half of the aligned block one order higher.
pub open spec fn buddy_of(id: nat, order: nat) -> nat {
    if id % pow2(order + 1) == 0 {
        id + pow2(order)
    } else {
        (id - pow2(order)) as nat
    }
}

/// Whether page `p` lies within the block of the given order based at `id`.
pub open spec fn block_contains(id: nat, order: nat, p: nat) -> bool {
    id <= p < id + pow2(order)
}

/// Whether the two blocks, each given as a base identifier and an order,
/// share at least one page.
pub open spec fn blocks_overlap(a: (nat, nat), b: (nat, nat)) -> bool {
    a.0 < b.0 + pow2(b.1) && b.0 < a.0 + pow2(a.1)
}

/// Base of the block of order `order + 1` formed by a block of the given
/// order based at `id` together with its buddy: the lower of the two bases.
pub open spec fn merge_base(id: nat, order: nat) -> nat {
    if buddy_of(id, order) < id {
        buddy_of(id, order)
    } else {
        id
    }
}

/// The blocks released while splitting a block based at `id` from order
/// `from` down to order `to`: the upper halves cut off at each order.
pub open spec fn split_remnants(id: nat, from: nat, to: nat) -> Set<(nat, nat)> {
    Set::new(|b: (nat, nat)| to <= b.1 < from && b.0 == id + pow2(b.1))
}

/// The block that results from coalescing a pending block of the given
/// order based at `id` with its successively free buddies, over the given
/// set `fb` of free blocks of a zone of `n` pages: while the buddy at the
/// current order lies in the zone and is free at that same order, it is
/// absorbed and the block grows to the aligned union of the two.
pub open spec fn coalesced_block(fb: Set<(nat, nat)>, n: nat, id: nat, order: nat) -> (nat, nat)
    decreases MAX_ORDER as nat - order,
{
    if order < MAX_ORDER as nat && buddy_of(id, order) < n && fb.contains(
        (buddy_of(id, order), order),
    ) {
        coalesced_block(
            fb.remove((buddy_of(id, order), order)),
            n,
            merge_base(id, order),
            order + 1,
        )
    } else {
        (id, order)
    }
}

/// The free blocks absorbed by that same coalescing.
pub open spec fn coalesced_absorbed(fb: Set<(nat, nat)>, n: nat, id: nat, order: nat) -> Set<
    (nat, nat),
>
    decreases MAX_ORDER as nat - order,
{
    if order < MAX_ORDER as nat && buddy_of(id, order) < n && fb.contains(
        (buddy_of(id, order), order),
    ) {
        coalesced_absorbed(
            fb.remove((buddy_of(id, order), order)),
            n,
            merge_base(id, order),
            order + 1,
        ).insert((buddy_of(id, order), order))
    } else {
        Set::empty()
    }
}

/// The blocks that filling a zone of `n` pages emits from page `frame` on
/// with the given starting order: the largest aligned block that fits is
/// emitted and the scan moves past it; the order is decremented whenever a
/// full block would overflow the zone.
pub open spec fn greedy_fill_blocks(n: nat, frame: nat, order: nat) -> Set<(nat, nat)>
    decreases n - frame, order,
        via greedy_fill_blocks_decreases
{
    if frame >= n {
        Set::empty()
    } else if frame + pow2(order) > n {
        if order == 0 {
            Set::empty()
        } else {
            greedy_fill_blocks(n, frame, (order - 1) as nat)
        }
    } else {
        greedy_fill_blocks(n, frame + pow2(order), order).insert((frame, order))
    }
}

#[via_fn]
proof fn greedy_fill_blocks_decreases(n: nat, frame: nat, order: nat) {
    lemma_pow2_pos(order);
}

/// No two distinct blocks of the set share a page.
pub open spec fn blocks_disjoint(s: Set<(nat, nat)>) -> bool {
    forall|a: (nat, nat), b: (nat, nat)|
        #![trigger s.contains(a), s.contains(b)]
        s.contains(a) && s.contains(b) && a != b ==> !blocks_overlap(a, b)
}

/// Some block of the set contains page `p`.
pub open spec fn covered_by(s: Set<(nat, nat)>, p: nat) -> bool {
    exists|b: (nat, nat)| s.contains(b) && #[trigger] block_contains(b.0, b.1, p)
}

/// Every page below `n` lies in some block of the set.
pub open spec fn blocks_cover(s: Set<(nat, nat)>, n: nat) -> bool {
    forall|p: nat| p < n ==> #[trigger] covered_by(s, p)
}

/// The pages of a block, as a set of integers.
pub open spec fn block_pages(b: (nat, nat)) -> Set<int> {
    vstd::set_lib::set_int_range(b.0 as int, b.0 as int + pow2(b.1) as int)
}

/// Total pages held by the first `upto` buckets of a free list, every
/// entry of a bucket owning one block of the bucket's order.
pub open spec fn buckets_pages_upto(bs: Seq<Seq<u32>>, upto: int) -> nat
    decreases upto,
{
    if upto <= 0 {
        0
    } else {
        buckets_pages_upto(bs, upto - 1) + bs[upto - 1].len() * pow2((upto - 1) as nat)
    }
}

/// Empty buckets hold no pages.
proof fn lemma_buckets_pages_zero(bs: Seq<Seq<u32>>, upto: int)
    requires
        forall|j: int| 0 <= j < upto ==> (#[trigger] bs[j]).len() == 0,
    ensures
        buckets_pages_upto(bs, upto) == 0,
    decreases upto,
{
    if upto > 0 {
        lemma_buckets_pages_zero(bs, upto - 1);
    }
}

/// Buckets that agree entry-wise hold the same number of pages.
proof fn lemma_buckets_pages_congruent(bs1: Seq<Seq<u32>>, bs2: Seq<Seq<u32>>, upto: int)
    requires
        forall|j: int| 0 <= j < upto ==> bs1[j] == bs2[j],
    ensures
        buckets_pages_upto(bs1, upto) == buckets_pages_upto(bs2, upto),
    decreases upto,
{
    if upto > 0 {
        lemma_buckets_pages_congruent(bs1, bs2, upto - 1);
    }
}

/// Replacing one bucket changes the page total by the difference of the
/// two buckets' contributions.
proof fn lemma_buckets_pages_update(bs: Seq<Seq<u32>>, o: int, nb: Seq<u32>, upto: int)
    requires
        0 <= o < upto <= bs.len(),
    ensures
        buckets_pages_upto(bs.update(o, nb), upto) + bs[o].len() * pow2(o as nat)
            == buckets_pages_upto(bs, upto) + nb.len() * pow2(o as nat),
    decreases upto,
{
    let bs2 = bs.update(o, nb);
    if o == upto - 1 {
        lemma_buckets_pages_congruent(bs2, bs, upto - 1);
    } else {
        lemma_buckets_pages_update(bs, o, nb, upto - 1);
    }
}

/// The pages of the blocks headed by the first `upto` entries of one
/// bucket of the given order.
spec fn bucket_pages_set(b: Seq<u32>, o: nat, upto: int) -> Set<int>
    decreases upto,
{
    if upto <= 0 {
        Set::empty()
    } else {
        bucket_pages_set(b, o, upto - 1).union(block_pages((b[upto - 1] as nat, o)))
    }
}

/// The pages of all blocks of the first `upto` buckets.
spec fn buckets_pages_set(bs: Seq<Seq<u32>>, upto: int) -> Set<int>
    decreases upto,
{
    if upto <= 0 {
        Set::empty()
    } else {
        buckets_pages_set(bs, upto - 1).union(
            bucket_pages_set(bs[upto - 1], (upto - 1) as nat, bs[upto - 1].len() as int),
        )
    }
}

/// Monotonicity of `pow2`.
proof fn lemma_pow2_le(o1: nat, o2: nat)
    requires
        o1 <= o2,
    ensures
        pow2(o1) <= pow2(o2),
{
    if o1 < o2 {
        lemma_pow2_strictly_increases(o1, o2);
    }
}

/// A base aligned to a block order is aligned to every smaller order.
proof fn lemma_pow2_align_down(id: nat, o1: nat, o2: nat)
    requires
        o2 <= o1,
        id % pow2(o1) == 0,
    ensures
        id % pow2(o2) == 0,
{
    lemma_pow2_pos(o1);
    lemma_pow2_pos(o2);
    lemma_pow2_adds(o2, (o1 - o2) as nat);
    let p1 = pow2(o1) as int;
    let p2 = pow2(o2) as int;
    let rest = pow2((o1 - o2) as nat) as int;
    let k = id as int / p1;
    vstd::arithmetic::div_mod::lemma_fundamental_div_mod(id as int, p1);
    assert(id as int == k * (p2 * rest)) by (nonlinear_arith)
        requires
            id as int == p1 * k + (id as int % p1),
            id as int % p1 == 0,
            p1 == p2 * rest,
    ;
    assert(k * (p2 * rest) == (k * rest) * p2) by (nonlinear_arith);
    vstd::arithmetic::div_mod::lemma_mod_multiples_basic(k * rest, p2);
}

/// Geometry of a block and its buddy: both are aligned to their order, they
/// are the two halves of the aligned block one order higher, and the buddy
/// relation is an involution.
proof fn lemma_buddy_props(id: nat, o: nat)
    requires
        id % pow2(o) == 0,
    ensures
        buddy_of(id, o) % pow2(o) == 0,
        buddy_of(buddy_of(id, o), o) == id,
        id % pow2(o + 1) == 0 || id % pow2(o + 1) == pow2(o),
        merge_base(id, o) % pow2(o + 1) == 0,
        merge_base(id, o) + pow2(o + 1) == (if buddy_of(id, o) < id { id } else { buddy_of(id, o) })
            + pow2(o),
        buddy_of(id, o) != id,
        merge_base(id, o) == merge_base(buddy_of(id, o), o),
{
    lemma_pow2_pos(o);
    lemma_pow2_adds(o, 1);
    lemma2_to64();
    let p = pow2(o) as int;
    let p2 = pow2(o + 1) as int;
    assert(p2 == 2 * p);
    let q = id as int / p;
    vstd::arithmetic::div_mod::lemma_fundamental_div_mod(id as int, p);
    assert(id as int == q * p);
    assert(q >= 0) by (nonlinear_arith)
        requires
            id as int == q * p,
            id >= 0,
            p > 0,
    ;
    if q % 2 == 0 {
        let h = q / 2;
        vstd::arithmetic::div_mod::lemma_fundamental_div_mod(q, 2);
        assert(q == 2 * h);
        assert(id as int == h * p2) by (nonlinear_arith)
            requires
                id as int == q * p,
                q == 2 * h,
                p2 == 2 * p,
        ;
        vstd::arithmetic::div_mod::lemma_mod_multiples_basic(h, p2);
        assert(id % pow2(o + 1) == 0);
        // The buddy is the upper half.
        let b = id + pow2(o);
        assert(buddy_of(id, o) == b);
        assert(b as int == h * p2 + p);
        assert(p2 * h + p == b as int) by (nonlinear_arith)
            requires
                b as int == h * p2 + p,
        ;
        vstd::arithmetic::div_mod::lemma_mod_multiples_vanish(h, p, p2);
        vstd::arithmetic::div_mod::lemma_small_mod(p as nat, p2 as nat);
        assert(b % pow2(o + 1) == pow2(o));
        vstd::arithmetic::div_mod::lemma_add_mod_noop(id as int, p, p);
        vstd::arithmetic::div_mod::lemma_mod_multiples_basic(1, p);
        vstd::arithmetic::div_mod::lemma_small_mod(0, p as nat);
        assert(b % pow2(o) == 0);
        assert(buddy_of(b, o) == id);
    } else {
        let h = (q - 1) / 2;
        vstd::arithmetic::div_mod::lemma_fundamental_div_mod(q, 2);
        assert(q == 2 * h + 1);
        assert(id as int == h * p2 + p) by (nonlinear_arith)
            requires
                id as int == q * p,
                q == 2 * h + 1,
                p2 == 2 * p,
        ;
        assert(p2 * h + p == id as int) by (nonlinear_arith)
            requires
                id as int == h * p2 + p,
        ;
        vstd::arithmetic::div_mod::lemma_mod_multiples_vanish(h, p, p2);
        vstd::arithmetic::div_mod::lemma_small_mod(p as nat, p2 as nat);
        assert(id % pow2(o + 1) == pow2(o));
        // The buddy is the lower half.
        assert(h >= 0) by (nonlinear_arith)
            requires
                id as int == h * p2 + p,
                p > 0,
                p2 == 2 * p,
                id >= 0,
        ;
        let b = (id - pow2(o)) as nat;
        assert(buddy_of(id, o) == b);
        assert(b as int == h * p2);
        vstd::arithmetic::div_mod::lemma_mod_multiples_basic(h, p2);
        assert(b % pow2(o + 1) == 0);
        assert(b as int == (2 * h) * p) by (nonlinear_arith)
            requires
                b as int == h * p2,
                p2 == 2 * p,
        ;
        vstd::arithmetic::div_mod::lemma_mod_multiples_basic(2 * h, p);
        assert(b % pow2(o) == 0);
        assert(buddy_of(b, o) == id);
    }
}

/// Returns `2^order`.
fn pow2_u32(order: FrameOrder) -> (r: u32)
    requires
        order <= 30,
    ensures
        r == pow2(order as nat),
        r >= 1,
{
    proof {
        lemma_u32_pow2_no_overflow(order as nat);
        lemma_u32_shl_is_mul(1u32, order as u32);
        lemma_pow2_pos(order as nat);
    }
    1u32 << (order as u32)
}

/// The size in bytes of a frame allocated by the buddy allocator with the
/// given `order`.
pub fn get_frame_size(order: FrameOrder) -> (r: usize)
    requires
        order <= MAX_ORDER,
    ensures
        r == PAGE_SIZE * pow2(order as nat),
{
    proof {
        lemma2_to64();
        if (order as nat) < 17 {
            lemma_pow2_strictly_increases(order as nat, 17);
        }
        lemma_usize_shl_is_mul(PAGE_SIZE, order as usize);
    }
    PAGE_SIZE << (order as usize)
}

/// Returns the buddy order required to fit the given number of pages.
pub fn get_order(pages: usize) -> (r: FrameOrder)
    requires
        pages <= pow2(MAX_ORDER as nat),
    ensures
        r <= MAX_ORDER,
        pages <= pow2(r as nat),
        r > 0 ==> pow2((r - 1) as nat) < pages,
{
    let mut order: FrameOrder = 0;
    let mut i: usize = 1;

    proof {
        lemma2_to64();
    }
    while i < pages
        invariant
            pages <= pow2(MAX_ORDER as nat),
            order <= MAX_ORDER,
            i == pow2(order as nat),
            order > 0 ==> pow2((order - 1) as nat) < pages,
        decreases pow2(MAX_ORDER as nat) - i,
    {
        proof {
            lemma_pow2_adds(order as nat, 1);
            lemma2_to64();
            if (order as nat) + 1 <= MAX_ORDER as nat && (order as nat) + 1 < MAX_ORDER as nat {
                lemma_pow2_strictly_increases((order + 1) as nat, MAX_ORDER as nat);
            }
            if order as nat >= MAX_ORDER as nat {
                // then i == pow2(MAX_ORDER) >= pages, contradicting i < pages
                assert(false);
            }
        }
        i = i * 2;
        order = order + 1;
    }
    order
}

/// Flipping the bit of a block's own size in its base identifier yields the
/// buddy's identifier.
proof fn lemma_xor_is_buddy(id: u32, o: FrameOrder)
    requires
        o < 31,
        id < MAX_ZONE_PAGES,
        id as nat % pow2(o as nat) == 0,
    ensures
        (id ^ (1u32 << (o as u32))) as nat == buddy_of(id as nat, o as nat),
{
    let s = o as u32;
    lemma_u32_pow2_no_overflow(o as nat);
    lemma_u32_pow2_no_overflow(o as nat + 1);
    lemma_u32_shl_is_mul(1u32, s);
    lemma_u32_shl_is_mul(1u32, (s + 1) as u32);
    lemma_buddy_props(id as nat, o as nat);
    if id as nat % pow2(o as nat + 1) == 0 {
        assert((id ^ (1u32 << s)) == id + (1u32 << s)) by (bit_vector)
            requires
                s < 31,
                id < 0x4000_0000u32,
                id % (1u32 << (s + 1)) == 0,
        ;
    } else {
        assert(id as nat % pow2(o as nat + 1) == pow2(o as nat));
        assert((id ^ (1u32 << s)) == id - (1u32 << s)) by (bit_vector)
            requires
                s < 31,
                id < 0x4000_0000u32,
                id % (1u32 << (s + 1)) == (1u32 << s),
        ;
    }
}

/// Class of a zone, defining which allocation requests it may serve.
#[derive(Clone, Copy, Debug, PartialEq, Eq, Structural)]
pub enum ZoneClass {
    /// Memory mapped into user address spaces.
    User,
    /// Memory for kernel structures.
    Kernel,
    /// DMA-capable memory.
    Dma,
}

/// An allocatable zone of memory: a contiguous physical range with its
/// metadata table and per-order free lists.
pub struct Zone {
    /// The class of the zone.
    class: ZoneClass,
    /// The number of currently allocated pages in the zone.
    allocated_pages: usize,
    /// The physical address of the beginning of the allocatable memory.
    begin: usize,
    /// The number of allocatable pages.
    pages_count: u32,
    /// The metadata table: one record per page slot.
    frames: Vec<Frame>,
    /// The free-list heads, indexed by block order.
    free_list: Vec<Option<FrameID>>,
    /// Ghost mirror of the free lists: the frame identifiers of each
    /// bucket, in list order.
    buckets: Ghost<Seq<Seq<FrameID>>>,
    /// Ghost set of live (allocated and not yet freed) blocks, each a pair
    /// of a base frame identifier and an order.
    live: Ghost<Set<(nat, nat)>>,
}

impl Zone {
    /// The number of page slots of the zone, as a mathematical integer.
    pub closed spec fn n(self) -> int {
        self.pages_count as int
    }

    /// The metadata record of frame `i`.
    pub closed spec fn fr(self, i: int) -> Frame {
        self.frames@[i]
    }

    /// Whether frame `i` exists and is marked free (that is, heads a block
    /// sitting on some free list).
    pub closed spec fn is_free_frame(self, i: int) -> bool {
        0 <= i < self.n() && !self.fr(i).spec_is_used()
    }

    /// The set of free blocks: each free frame together with the order it
    /// carries.
    pub closed spec fn free_blocks(self) -> Set<(nat, nat)> {
        Set::new(
            |b: (nat, nat)|
                self.is_free_frame(b.0 as int) && b.1 == self.fr(b.0 as int).order as nat,
        )
    }

    /// The set of live blocks: blocks handed out by an allocation and not
    /// yet freed.
    pub closed spec fn live_blocks(self) -> Set<(nat, nat)> {
        self.live@
    }

    /// All blocks the zone currently tracks, free and live together.
    pub open spec fn all_blocks(self) -> Set<(nat, nat)> {
        self.free_blocks().union(self.live_blocks())
    }

    /// Whether the pair describes a block of valid geometry for this zone:
    /// order in range, base aligned to the block size, block fully inside
    /// the zone.
    pub closed spec fn valid_block(self, id: nat, order: nat) -> bool {
        &&& order <= MAX_ORDER as nat
        &&& id % pow2(order) == 0
        &&& id + pow2(order) <= self.n()
    }

    spec fn inv_lens(self) -> bool {
        &&& self.frames@.len() == self.n()
        &&& self.free_list@.len() == BUCKETS_COUNT as int
        &&& self.buckets@.len() == BUCKETS_COUNT as int
        &&& self.pages_count <= MAX_ZONE_PAGES
        &&& self.begin as int % PAGE_SIZE as int == 0
        &&& self.begin + self.n() * PAGE_SIZE as int <= usize::MAX as int
    }

    /// The free-list head of order `o` agrees with the ghost bucket.
    spec fn head_ok(self, o: int) -> bool {
        match self.free_list@[o] {
            Option::None => self.buckets@[o].len() == 0,
            Option::Some(h) => self.buckets@[o].len() > 0 && self.buckets@[o][0] == h,
        }
    }

    spec fn inv_heads(self) -> bool {
        forall|o: int| 0 <= o < BUCKETS_COUNT as int ==> #[trigger] self.head_ok(o)
    }

    /// The element at position `k` of bucket `o` is a free, in-range,
    /// aligned block head of order `o`, with linkage pointing at its
    /// neighbours in the bucket (or at itself at either end).
    spec fn bucket_elem_ok(self, o: int, k: int) -> bool {
        let b = self.buckets@[o];
        let i = b[k] as int;
        &&& 0 <= i < self.n()
        &&& !self.fr(i).spec_is_used()
        &&& self.fr(i).order as int == o
        &&& self.valid_block(i as nat, o as nat)
        &&& self.fr(i).prev == if k == 0 { b[k] } else { b[k - 1] }
        &&& self.fr(i).next == if k == b.len() - 1 { b[k] } else { b[k + 1] }
    }

    spec fn inv_elems(self) -> bool {
        forall|o: int, k: int|
            0 <= o < BUCKETS_COUNT as int && 0 <= k < self.buckets@[o].len()
                ==> #[trigger] self.bucket_elem_ok(o, k)
    }

    spec fn inv_distinct(self) -> bool {
        forall|o: int, k1: int, k2: int|
            0 <= o < BUCKETS_COUNT as int && 0 <= k1 < k2 < self.buckets@[o].len()
                ==> #[trigger] self.buckets@[o][k1] != #[trigger] self.buckets@[o][k2]
    }

    /// Whether frame `i` appears in some bucket.
    spec fn listed(self, i: int) -> bool {
        exists|o: int, k: int|
            0 <= o < BUCKETS_COUNT as int && 0 <= k < self.buckets@[o].len()
                && #[trigger] self.buckets@[o][k] == i
    }

    spec fn inv_complete(self) -> bool {
        forall|i: int| #[trigger] self.is_free_frame(i) ==> self.listed(i)
    }

    /// Structural well-formedness: the free lists and the ghost buckets
    /// describe each other exactly, and every listed block is geometrically
    /// valid.
    pub closed spec fn wf_lists(self) -> bool {
        &&& self.inv_lens()
        &&& self.inv_heads()
        &&& self.inv_elems()
        &&& self.inv_distinct()
        &&& self.inv_complete()
    }

    /// Every live block is geometrically valid and heads a used frame.
    spec fn inv_live(self) -> bool {
        forall|b: (nat, nat)| #[trigger] self.live@.contains(b)
            ==> self.valid_block(b.0, b.1) && self.fr(b.0 as int).spec_is_used()
    }

    /// With the given extra blocks added, the blocks tracked by the zone are
    /// pairwise disjoint and cover every page of the zone.
    spec fn mem_ok_with(self, extra: Set<(nat, nat)>) -> bool {
        &&& blocks_disjoint(self.all_blocks().union(extra))
        &&& blocks_cover(self.all_blocks().union(extra), self.pages_count as nat)
    }

    /// The number of pages sitting on the zone's free lists.
    pub closed spec fn free_pages(self) -> nat {
        buckets_pages_upto(self.buckets@, BUCKETS_COUNT as int)
    }

    /// The allocated-pages counter accounts exactly for the pages that are
    /// not on a free list.
    spec fn inv_count(self) -> bool {
        self.allocated_pages as nat + self.free_pages() == self.pages_count as nat
    }

    /// Full well-formedness of a zone: the free lists are intact, the free
    /// and live blocks together partition the zone's pages, and the
    /// allocated-pages counter is exact.
    pub closed spec fn wf(self) -> bool {
        &&& self.wf_lists()
        &&& self.inv_live()
        &&& self.mem_ok_with(Set::empty())
        &&& self.inv_count()
    }

    /// Pairwise disjointness restricted to the free blocks, from the full
    /// partition invariant.
    proof fn lemma_free_disjoint(self)
        requires
            self.mem_ok_with(Set::empty()),
        ensures
            blocks_disjoint(self.free_blocks()),
    {
        let all = self.all_blocks().union(Set::<(nat, nat)>::empty());
        assert forall|a: (nat, nat), b: (nat, nat)|
            #![trigger self.free_blocks().contains(a), self.free_blocks().contains(b)]
            self.free_blocks().contains(a) && self.free_blocks().contains(b) && a != b
            implies !blocks_overlap(a, b) by {
            assert(all.contains(a));
            assert(all.contains(b));
        }
    }

    /// A zone that differs only in its allocated-pages counter and its
    /// live set keeps well-formed free lists, with the same free blocks and
    /// free-page count.
    proof fn lemma_wf_lists_congruent(self, other: Zone)
        requires
            self.wf_lists(),
            other.frames@ == self.frames@,
            other.free_list@ == self.free_list@,
            other.buckets@ == self.buckets@,
            other.pages_count == self.pages_count,
            other.begin == self.begin,
        ensures
            other.wf_lists(),
            other.free_blocks() == self.free_blocks(),
            other.free_pages() == self.free_pages(),
    {
        assert forall|o: int, k: int|
            0 <= o < BUCKETS_COUNT as int && 0 <= k < other.buckets@[o].len()
            implies #[trigger] other.bucket_elem_ok(o, k) by {
            assert(self.bucket_elem_ok(o, k));
        }
        assert forall|o: int| 0 <= o < BUCKETS_COUNT as int
            implies #[trigger] other.head_ok(o) by {
            assert(self.head_ok(o));
        }
        assert forall|i: int| #[trigger] other.is_free_frame(i)
            implies other.listed(i) by {
            assert(self.is_free_frame(i));
            let (o2, k2): (int, int) = choose|o2: int, k2: int|
                0 <= o2 < BUCKETS_COUNT as int && 0 <= k2 < self.buckets@[o2].len()
                    && #[trigger] self.buckets@[o2][k2] == i;
            assert(other.buckets@[o2][k2] == i);
        }
        assert(other.free_blocks() =~= self.free_blocks());
    }

    /// The page sets of the blocks of one bucket are disjoint, and their
    /// total cardinality is the bucket's page contribution.
    proof fn lemma_bucket_measure(self, o: int, upto: int)
        requires
            self.wf_lists(),
            blocks_disjoint(self.free_blocks()),
            0 <= o < BUCKETS_COUNT as int,
            0 <= upto <= self.buckets@[o].len(),
        ensures
            ({
                let s = bucket_pages_set(self.buckets@[o], o as nat, upto);
                &&& s.finite()
                &&& s.len() == upto * pow2(o as nat)
                &&& forall|p: int| #[trigger] s.contains(p) ==> exists|k: int|
                    0 <= k < upto && block_pages(
                        (self.buckets@[o][k] as nat, o as nat),
                    ).contains(p)
            }),
        decreases upto,
    {
        let b = self.buckets@[o];
        if upto > 0 {
            self.lemma_bucket_measure(o, upto - 1);
            let prev = bucket_pages_set(b, o as nat, upto - 1);
            let blk = (b[upto - 1] as nat, o as nat);
            let nb = block_pages(blk);
            vstd::set_lib::lemma_int_range(blk.0 as int, blk.0 as int + pow2(o as nat) as int);
            assert(self.bucket_elem_ok(o, upto - 1));
            assert(self.free_blocks().contains(blk));
            assert forall|p: int| prev.contains(p) implies !nb.contains(p) by {
                let k = choose|k: int|
                    0 <= k < upto - 1 && block_pages(
                        (b[k] as nat, o as nat),
                    ).contains(p);
                assert(self.bucket_elem_ok(o, k));
                let ob = (b[k] as nat, o as nat);
                assert(self.free_blocks().contains(ob));
                assert(ob != blk);
                assert(!blocks_overlap(ob, blk));
            }
            assert(prev.disjoint(nb));
            vstd::set_lib::lemma_set_disjoint_lens(prev, nb);
            assert(prev + nb =~= prev.union(nb));
            assert((upto - 1) * pow2(o as nat) + pow2(o as nat) == upto * pow2(o as nat))
                by (nonlinear_arith);
        }
    }

    /// The page sets of all free blocks are disjoint across buckets, and
    /// their total cardinality is the zone's free-page count.
    proof fn lemma_buckets_measure(self, upto: int)
        requires
            self.wf_lists(),
            blocks_disjoint(self.free_blocks()),
            0 <= upto <= BUCKETS_COUNT as int,
        ensures
            ({
                let s = buckets_pages_set(self.buckets@, upto);
                &&& s.finite()
                &&& s.len() == buckets_pages_upto(self.buckets@, upto)
                &&& forall|p: int| #[trigger] s.contains(p) ==> exists|bl: (nat, nat)|
                    self.free_blocks().contains(bl) && (bl.1 as int) < upto
                        && block_pages(bl).contains(p)
            }),
        decreases upto,
    {
        if upto > 0 {
            let o = upto - 1;
            self.lemma_buckets_measure(o);
            self.lemma_bucket_measure(o, self.buckets@[o].len() as int);
            let prev = buckets_pages_set(self.buckets@, o);
            let cur = bucket_pages_set(
                self.buckets@[o],
                o as nat,
                self.buckets@[o].len() as int,
            );
            assert forall|p: int| #[trigger] cur.contains(p) implies exists|bl: (nat, nat)|
                self.free_blocks().contains(bl) && (bl.1 as int) < upto
                    && block_pages(bl).contains(p) by {
                let k = choose|k: int|
                    0 <= k < self.buckets@[o].len() && block_pages(
                        (self.buckets@[o][k] as nat, o as nat),
                    ).contains(p);
                assert(self.bucket_elem_ok(o, k));
                let bl = (self.buckets@[o][k] as nat, o as nat);
                assert(self.free_blocks().contains(bl) && (bl.1 as int) < upto
                    && block_pages(bl).contains(p));
            }
            assert forall|p: int| prev.contains(p) implies !cur.contains(p) by {
                let b1 = choose|b1: (nat, nat)|
                    self.free_blocks().contains(b1) && (b1.1 as int) < o
                        && block_pages(b1).contains(p);
                if cur.contains(p) {
                    let k = choose|k: int|
                        0 <= k < self.buckets@[o].len() && block_pages(
                            (self.buckets@[o][k] as nat, o as nat),
                        ).contains(p);
                    assert(self.bucket_elem_ok(o, k));
                    let b2 = (self.buckets@[o][k] as nat, o as nat);
                    assert(self.free_blocks().contains(b2));
                    assert(b1 != b2);
                    assert(!blocks_overlap(b1, b2));
                }
            }
            assert(prev.disjoint(cur));
            vstd::set_lib::lemma_set_disjoint_lens(prev, cur);
            assert(prev + cur =~= prev.union(cur));
        }
    }

    /// Together with one more block disjoint from every free block, the
    /// free pages fit inside the zone.
    proof fn lemma_free_pages_bound(self, extra: (nat, nat))
        requires
            self.wf_lists(),
            blocks_disjoint(self.free_blocks()),
            self.valid_block(extra.0, extra.1),
            !self.free_blocks().contains(extra),
            forall|b: (nat, nat)| #[trigger] self.free_blocks().contains(b)
                ==> !blocks_overlap(b, extra),
        ensures
            self.free_pages() + pow2(extra.1) <= self.pages_count,
    {
        self.lemma_buckets_measure(BUCKETS_COUNT as int);
        let u = buckets_pages_set(self.buckets@, BUCKETS_COUNT as int);
        let ep = block_pages(extra);
        vstd::set_lib::lemma_int_range(extra.0 as int, extra.0 as int + pow2(extra.1) as int);
        assert forall|p: int| u.contains(p) implies !ep.contains(p) by {
            let bl = choose|bl: (nat, nat)|
                self.free_blocks().contains(bl) && (bl.1 as int) < BUCKETS_COUNT as int
                    && block_pages(bl).contains(p);
            assert(!blocks_overlap(bl, extra));
        }
        assert(u.disjoint(ep));
        vstd::set_lib::lemma_set_disjoint_lens(u, ep);
        let whole = vstd::set_lib::set_int_range(0, self.pages_count as int);
        assert forall|p: int| #[trigger] (u + ep).contains(p) implies whole.contains(p) by {
            if u.contains(p) {
                let bl = choose|bl: (nat, nat)|
                    self.free_blocks().contains(bl) && (bl.1 as int) < BUCKETS_COUNT as int
                        && block_pages(bl).contains(p);
                assert(self.is_free_frame(bl.0 as int));
                self.lemma_free_valid(bl.0 as int);
            }
        }
        vstd::set_lib::lemma_int_range(0, self.pages_count as int);
        assert((u + ep).subset_of(whole));
        vstd::set_lib::lemma_len_subset(u + ep, whole);
    }

    /// The free pages fit inside the zone.
    proof fn lemma_free_pages_le(self)
        requires
            self.wf_lists(),
            blocks_disjoint(self.free_blocks()),
        ensures
            self.free_pages() <= self.pages_count,
    {
        self.lemma_buckets_measure(BUCKETS_COUNT as int);
        let u = buckets_pages_set(self.buckets@, BUCKETS_COUNT as int);
        let whole = vstd::set_lib::set_int_range(0, self.pages_count as int);
        assert forall|p: int| #[trigger] u.contains(p) implies whole.contains(p) by {
            let bl = choose|bl: (nat, nat)|
                self.free_blocks().contains(bl) && (bl.1 as int) < BUCKETS_COUNT as int
                    && block_pages(bl).contains(p);
            assert(self.is_free_frame(bl.0 as int));
            self.lemma_free_valid(bl.0 as int);
        }
        vstd::set_lib::lemma_int_range(0, self.pages_count as int);
        assert(u.subset_of(whole));
        vstd::set_lib::lemma_len_subset(u, whole);
    }

    /// Every free frame heads a geometrically valid block.
    proof fn lemma_free_valid(self, i: int)
        requires
            self.wf_lists(),
            self.is_free_frame(i),
        ensures
            self.valid_block(i as nat, self.fr(i).order as nat),
    {
        assert(self.listed(i));
        let (o2, k2): (int, int) = choose|o2: int, k2: int|
            0 <= o2 < BUCKETS_COUNT as int && 0 <= k2 < self.buckets@[o2].len()
                && #[trigger] self.buckets@[o2][k2] == i;
        assert(self.bucket_elem_ok(o2, k2));
    }

    /// Pages strictly inside a free block head no free frame of their own.
    proof fn lemma_free_interior_used(self, i: int, j: int)
        requires
            self.wf(),
            self.is_free_frame(i),
            i < j < i + pow2(self.fr(i).order as nat),
            0 <= j < self.n(),
        ensures
            self.fr(j).spec_is_used(),
    {
        if !self.fr(j).spec_is_used() {
            let bi = (i as nat, self.fr(i).order as nat);
            let bj = (j as nat, self.fr(j).order as nat);
            assert(self.free_blocks().contains(bi));
            assert(self.free_blocks().contains(bj));
            let all = self.all_blocks().union(Set::<(nat, nat)>::empty());
            assert(all.contains(bi));
            assert(all.contains(bj));
            lemma_pow2_pos(self.fr(j).order as nat);
            assert(blocks_overlap(bi, bj));
            assert(false);
        }
    }

    /// Everything but the metadata table and the ghost state is the same in
    /// the two zones.
    spec fn same_shape(self, other: Zone) -> bool {
        &&& self.class == other.class
        &&& self.allocated_pages == other.allocated_pages
        &&& self.begin == other.begin
        &&& self.pages_count == other.pages_count
    }

    /// The free-list heads, indexed by order, as seen by contracts.
    pub closed spec fn spec_free_list(self) -> Seq<Option<FrameID>> {
        self.free_list@
    }

    /// Whether some free-list bucket of order at least `order` is
    /// non-empty.
    pub closed spec fn has_free(self, order: FrameOrder) -> bool {
        exists|o: int|
            order as int <= o < BUCKETS_COUNT as int && !((#[trigger] self.free_list@[o]) is None)
    }

    /// Returns the head of the first non-empty free-list bucket of order at
    /// least `order`, if any bucket up to the maximum order has one.
    pub fn get_available_frame(&self, order: FrameOrder) -> (r: Option<FrameID>)
        requires
            self.wf(),
            order <= MAX_ORDER,
        ensures
            match r {
                Option::None => !self.has_free(order),
                Option::Some(id) => {
                    &&& self.is_free_frame(id as int)
                    &&& self.fr(id as int).order >= order
                    &&& exists|o: int|
                        order as int <= o < BUCKETS_COUNT as int
                            && #[trigger] self.spec_free_list()[o] == Option::Some(id) && (forall|
                            o2: int,
                        | order as int <= o2 < o ==> self.spec_free_list()[o2] is None)
                },
            },
    {
        let mut i: usize = order as usize;
        while i < BUCKETS_COUNT
            invariant
                self.wf(),
                order as int <= i as int <= BUCKETS_COUNT as int,
                forall|o2: int| order as int <= o2 < i as int ==> self.free_list@[o2] is None,
            decreases BUCKETS_COUNT - i,
        {
            let h = self.free_list[i];
            if let Option::Some(id) = h {
                proof {
                    assert(self.head_ok(i as int));
                    assert(self.bucket_elem_ok(i as int, 0));
                    assert(self.spec_free_list()[i as int] == Option::Some(id));
                }
                return Option::Some(id);
            }
            i = i + 1;
        }
        Option::None
    }

    /// Initializes a zone of the given class covering `pages_count` pages
    /// of physical memory starting at address `begin`, with every page
    /// initially free.
    pub fn init(class: ZoneClass, pages_count: FrameID, begin: usize) -> (z: Zone)
        requires
            pages_count <= MAX_ZONE_PAGES,
            begin as int % PAGE_SIZE as int == 0,
            begin + pages_count as int * PAGE_SIZE as int <= usize::MAX as int,
        ensures
            z.wf(),
            z.spec_class() == class,
            z.spec_begin() == begin,
            z.spec_pages_count() == pages_count,
            z.spec_allocated_pages() == 0,
            z.live_blocks() == Set::<(nat, nat)>::empty(),
            z.free_blocks() == greedy_fill_blocks(pages_count as nat, 0, MAX_ORDER as nat),
    {
        let mut frames: Vec<Frame> = Vec::new();
        let mut i: u32 = 0;
        while i < pages_count
            invariant
                i <= pages_count,
                frames@.len() == i as int,
                forall|j: int| 0 <= j < i as int ==> (#[trigger] frames@[j]).spec_is_used(),
            decreases pages_count - i,
        {
            frames.push(Frame { prev: FRAME_STATE_USED, next: FRAME_STATE_USED, order: 0 });
            i = i + 1;
        }
        let mut free_list: Vec<Option<FrameID>> = Vec::new();
        let mut k: usize = 0;
        while k < BUCKETS_COUNT
            invariant
                k <= BUCKETS_COUNT,
                free_list@.len() == k as int,
                forall|j: int| 0 <= j < k as int ==> (#[trigger] free_list@[j]) is None,
            decreases BUCKETS_COUNT - k,
        {
            free_list.push(Option::None);
            k = k + 1;
        }
        let mut z = Zone {
            class,
            allocated_pages: 0,
            begin,
            pages_count,
            frames,
            free_list,
            buckets: Ghost(Seq::new(BUCKETS_COUNT as nat, |o: int| Seq::<FrameID>::empty())),
            live: Ghost(Set::empty()),
        };
        proof {
            assert forall|o: int| 0 <= o < BUCKETS_COUNT as int
                implies #[trigger] z.head_ok(o) by {
                assert(z.free_list@[o] is None);
            }
            assert(z.free_blocks() =~= Set::<(nat, nat)>::empty());
            lemma_buckets_pages_zero(z.buckets@, BUCKETS_COUNT as int);
        }
        z.fill_free_list();
        z
    }

    /// Fills the free list during initialization: starting at the highest
    /// order and the lowest frame identifier, emits the largest aligned
    /// block that fits within the remaining page count, decrementing the
    /// order whenever a full block would overflow the zone.
    fn fill_free_list(&mut self)
        requires
            old(self).wf_lists(),
            old(self).free_blocks() == Set::<(nat, nat)>::empty(),
            old(self).live@ == Set::<(nat, nat)>::empty(),
            old(self).free_pages() == 0,
            old(self).allocated_pages == 0,
        ensures
            final(self).wf(),
            final(self).same_shape(*old(self)),
            final(self).live@ == old(self).live@,
            final(self).free_blocks() == greedy_fill_blocks(
                old(self).pages_count as nat,
                0,
                MAX_ORDER as nat,
            ),
    {
        let pages_count = self.pages_count;
        let mut frame: FrameID = 0;
        let mut order = MAX_ORDER;
        proof {
            lemma2_to64();
            assert(Set::<(nat, nat)>::empty().union(
                greedy_fill_blocks(pages_count as nat, 0, MAX_ORDER as nat),
            ) =~= greedy_fill_blocks(pages_count as nat, 0, MAX_ORDER as nat));
        }
        while frame < pages_count
            invariant
                self.wf_lists(),
                self.live@ == Set::<(nat, nat)>::empty(),
                self.same_shape(*old(self)),
                self.allocated_pages == 0,
                pages_count == self.pages_count,
                order <= MAX_ORDER,
                frame <= pages_count,
                frame as nat % pow2(order as nat) == 0,
                forall|b: (nat, nat)| #[trigger] self.free_blocks().contains(b)
                    ==> b.0 + pow2(b.1) <= frame as nat,
                blocks_disjoint(self.all_blocks()),
                forall|p: nat| p < frame as nat ==> #[trigger] covered_by(self.all_blocks(), p),
                self.free_pages() == frame as nat,
                self.free_blocks().union(
                    greedy_fill_blocks(pages_count as nat, frame as nat, order as nat),
                ) == greedy_fill_blocks(pages_count as nat, 0, MAX_ORDER as nat),
            decreases pages_count - frame, order,
        {
            proof {
                lemma2_to64();
                if order < MAX_ORDER {
                    lemma_pow2_strictly_increases(order as nat, MAX_ORDER as nat);
                }
            }
            let p = pow2_u32(order);
            if frame + p > pages_count {
                proof {
                    if order == 0 {
                        assert(pow2(0) == 1);
                        assert(false);
                    }
                    lemma_pow2_align_down(frame as nat, order as nat, (order - 1) as nat);
                    assert(greedy_fill_blocks(pages_count as nat, frame as nat, order as nat)
                        == greedy_fill_blocks(
                        pages_count as nat,
                        frame as nat,
                        (order - 1) as nat,
                    ));
                }
                order = order - 1;
            } else {
                proof {
                    lemma_pow2_pos(order as nat);
                    if !self.fr(frame as int).spec_is_used() {
                        let b = (frame as nat, self.fr(frame as int).order as nat);
                        assert(self.free_blocks().contains(b));
                        lemma_pow2_pos(b.1);
                        assert(false);
                    }
                    assert(self.valid_block(frame as nat, order as nat));
                }
                let ghost pre = *self;
                self.link(frame, order);
                proof {
                    let pi = pow2(order as nat) as int;
                    vstd::arithmetic::div_mod::lemma_add_mod_noop(frame as int, pi, pi);
                    vstd::arithmetic::div_mod::lemma_mod_multiples_basic(1, pi);
                    assert(1 * pi == pi) by (nonlinear_arith);
                    vstd::arithmetic::div_mod::lemma_small_mod(0, pow2(order as nat));
                    let nb = (frame as nat, order as nat);
                    assert forall|b: (nat, nat)| #[trigger] self.free_blocks().contains(b)
                        implies b.0 + pow2(b.1) <= (frame + p) as nat by {
                        if b != nb {
                            assert(pre.free_blocks().contains(b));
                        }
                    }
                    assert forall|a: (nat, nat), b: (nat, nat)|
                        self.all_blocks().contains(a) && self.all_blocks().contains(b) && a != b
                        implies !blocks_overlap(a, b) by {
                        if a != nb && b != nb {
                            assert(pre.all_blocks().contains(a));
                            assert(pre.all_blocks().contains(b));
                        } else {
                            let other = if a == nb { b } else { a };
                            assert(pre.all_blocks().contains(other));
                            if pre.free_blocks().contains(other) {
                                assert(other.0 + pow2(other.1) <= frame as nat);
                            }
                        }
                    }
                    assert forall|q: nat| q < (frame + p) as nat
                        implies #[trigger] covered_by(self.all_blocks(), q) by {
                        if q < frame as nat {
                            assert(covered_by(pre.all_blocks(), q));
                            let c = choose|c: (nat, nat)|
                                pre.all_blocks().contains(c) && #[trigger] block_contains(
                                    c.0,
                                    c.1,
                                    q,
                                );
                            assert(self.all_blocks().contains(c));
                        } else {
                            assert(block_contains(nb.0, nb.1, q));
                            assert(self.all_blocks().contains(nb));
                        }
                    }
                }
                proof {
                    assert(greedy_fill_blocks(pages_count as nat, frame as nat, order as nat)
                        == greedy_fill_blocks(
                        pages_count as nat,
                        (frame + p) as nat,
                        order as nat,
                    ).insert((frame as nat, order as nat)));
                    assert(self.free_blocks().union(
                        greedy_fill_blocks(
                            pages_count as nat,
                            (frame + p) as nat,
                            order as nat,
                        ),
                    ) =~= pre.free_blocks().union(
                        greedy_fill_blocks(pages_count as nat, frame as nat, order as nat),
                    ));
                }
                frame = frame + p;
            }
        }
        proof {
            assert(frame == pages_count);
            assert(greedy_fill_blocks(pages_count as nat, frame as nat, order as nat)
                =~= Set::<(nat, nat)>::empty());
            assert(self.free_blocks() =~= self.free_blocks().union(
                greedy_fill_blocks(pages_count as nat, frame as nat, order as nat),
            ));
            assert(self.mem_ok_with(Set::empty())) by {
                assert(self.all_blocks().union(Set::empty()) =~= self.all_blocks());
            }
        }
    }

    /// Returns the number of allocated pages in the current zone of memory.
    pub fn get_allocated_pages(&self) -> (r: usize)
        ensures
            r == self.spec_allocated_pages(),
    {
        self.allocated_pages
    }

    /// The number of currently allocated pages.
    pub closed spec fn spec_allocated_pages(self) -> usize {
        self.allocated_pages
    }

    /// The physical address of the beginning of the zone.
    pub closed spec fn spec_begin(self) -> usize {
        self.begin
    }

    /// The class of the zone.
    pub closed spec fn spec_class(self) -> ZoneClass {
        self.class
    }

    /// The number of allocatable pages, as seen by contracts.
    pub closed spec fn spec_pages_count(self) -> u32 {
        self.pages_count
    }

    /// Returns the number of allocatable pages.
    pub fn get_pages_count(&self) -> (r: FrameID)
        ensures
            r == self.spec_pages_count(),
    {
        self.pages_count
    }

    /// Returns the size in bytes of the allocatable memory.
    pub fn get_size(&self) -> (r: usize)
        requires
            self.wf(),
        ensures
            r == self.spec_pages_count() * PAGE_SIZE,
    {
        (self.pages_count as usize) * PAGE_SIZE
    }

    /// Returns a copy of the metadata record of the frame with the given
    /// identifier, which must be in the range of the zone.
    pub fn get_frame(&self, id: FrameID) -> (f: Frame)
        requires
            self.wf(),
            id < self.spec_pages_count(),
        ensures
            f == self.fr(id as int),
    {
        self.frames[id as usize]
    }

    /// Returns the physical address of the frame with the given identifier.
    pub fn get_ptr(&self, id: FrameID) -> (r: usize)
        requires
            self.wf(),
            id < self.spec_pages_count(),
        ensures
            r == self.spec_begin() + id as int * PAGE_SIZE as int,
    {
        proof {
            assert(id as int * PAGE_SIZE as int <= (self.pages_count as int - 1)
                * PAGE_SIZE as int) by (nonlinear_arith)
                requires
                    id as int <= self.pages_count as int - 1,
            ;
            assert((self.pages_count as int - 1) * PAGE_SIZE as int
                <= self.pages_count as int * PAGE_SIZE as int) by (nonlinear_arith);
        }
        self.begin + (id as usize) * PAGE_SIZE
    }

    /// Returns the identifier of the frame at the given physical address,
    /// which must lie within the zone.
    pub fn get_frame_id_from_ptr(&self, ptr: usize) -> (r: FrameID)
        requires
            self.wf(),
            self.spec_begin() <= ptr,
            ptr < self.spec_begin() + self.spec_pages_count() * PAGE_SIZE,
        ensures
            r as int == (ptr - self.spec_begin()) as int / PAGE_SIZE as int,
            r < self.spec_pages_count(),
            ptr as int % PAGE_SIZE as int == 0 ==> ptr == self.spec_begin() + r as int
                * PAGE_SIZE as int,
    {
        let off = ptr - self.begin;
        let id = off / PAGE_SIZE;
        proof {
            let q = off as int / PAGE_SIZE as int;
            vstd::arithmetic::div_mod::lemma_fundamental_div_mod(off as int, PAGE_SIZE as int);
            if q >= self.pages_count as int {
                assert(q * PAGE_SIZE as int >= self.pages_count as int * PAGE_SIZE as int)
                    by (nonlinear_arith)
                    requires
                        q >= self.pages_count as int,
                ;
            }
            if ptr as int % PAGE_SIZE as int == 0 {
                vstd::arithmetic::div_mod::lemma_add_mod_noop(
                    ptr as int,
                    0 - (self.begin as int),
                    PAGE_SIZE as int,
                );
                assert((0 - (self.begin as int)) % PAGE_SIZE as int == 0) by {
                    vstd::arithmetic::div_mod::lemma_mod_multiples_basic(
                        0 - (self.begin as int / PAGE_SIZE as int),
                        PAGE_SIZE as int,
                    );
                    vstd::arithmetic::div_mod::lemma_fundamental_div_mod(
                        self.begin as int,
                        PAGE_SIZE as int,
                    );
                    assert((0 - (self.begin as int / PAGE_SIZE as int)) * PAGE_SIZE as int
                        == 0 - (self.begin as int)) by (nonlinear_arith)
                        requires
                            self.begin as int == (self.begin as int / PAGE_SIZE as int)
                                * PAGE_SIZE as int,
                    ;
                }
                vstd::arithmetic::div_mod::lemma_small_mod(0, PAGE_SIZE as nat);
                assert(off as int % PAGE_SIZE as int == 0);
            }
        }
        id as FrameID
    }

    /// Returns the metadata record of the frame with identifier `id`.
    fn frame_at(&self, id: FrameID) -> (f: Frame)
        requires
            id < self.frames@.len(),
        ensures
            f == self.fr(id as int),
    {
        self.frames[id as usize]
    }

    fn set_frame(&mut self, id: FrameID, f: Frame)
        requires
            id < old(self).frames@.len(),
        ensures
            final(self).frames@ == old(self).frames@.update(id as int, f),
            final(self).same_shape(*old(self)),
            final(self).free_list == old(self).free_list,
            final(self).buckets == old(self).buckets,
            final(self).live == old(self).live,
    {
        self.frames.set(id as usize, f);
    }

    /// Links the block of the given order based at frame `id` at the head
    /// of its order's free list.
    fn link(&mut self, id: FrameID, order: FrameOrder)
        requires
            old(self).wf_lists(),
            old(self).valid_block(id as nat, order as nat),
            old(self).fr(id as int).spec_is_used(),
        ensures
            final(self).wf_lists(),
            final(self).free_blocks() == old(self).free_blocks().insert(
                (id as nat, order as nat),
            ),
            final(self).live == old(self).live,
            final(self).same_shape(*old(self)),
            final(self).buckets@ == old(self).buckets@.update(
                order as int,
                seq![id] + old(self).buckets@[order as int],
            ),
            final(self).free_list@ == old(self).free_list@.update(
                order as int,
                Option::Some(id),
            ),
            final(self).fr(id as int).order == order,
            final(self).free_pages() == old(self).free_pages() + pow2(order as nat),
            forall|i: int|
                0 <= i < old(self).n() && i != id as int
                    && (#[trigger] old(self).fr(i)).spec_is_used()
                    ==> final(self).fr(i) == old(self).fr(i),
    {
        proof {
            lemma_pow2_pos(order as nat);
        }
        let oi = order as usize;
        let h_opt = self.free_list[oi];
        let mut f = self.frame_at(id);
        f.order = order;
        f.prev = id;
        match h_opt {
            Option::Some(h) => {
                proof {
                    assert(old(self).head_ok(order as int));
                    assert(old(self).bucket_elem_ok(order as int, 0));
                }
                f.next = h;
                let mut hf = self.frame_at(h);
                hf.prev = id;
                self.set_frame(h, hf);
            },
            Option::None => {
                f.next = id;
            },
        }
        self.set_frame(id, f);
        self.free_list.set(oi, Option::Some(id));
        proof {
            let o = order as int;
            let b0 = old(self).buckets@[o];
            self.buckets@ = self.buckets@.update(o, seq![id] + b0);
            let nb = self.buckets@[o];
            assert(old(self).head_ok(o));

            // Every bucket element of the new state is well formed.
            assert forall|o2: int, k: int|
                0 <= o2 < BUCKETS_COUNT as int && 0 <= k < self.buckets@[o2].len()
                implies #[trigger] self.bucket_elem_ok(o2, k) by {
                if o2 != o {
                    assert(old(self).bucket_elem_ok(o2, k));
                    let i = old(self).buckets@[o2][k] as int;
                    assert(old(self).fr(i).order as int == o2);
                    if b0.len() > 0 {
                        assert(old(self).bucket_elem_ok(o, 0));
                    }
                } else {
                    if k == 0 {
                        assert(nb[0] == id);
                        if b0.len() > 0 {
                            assert(old(self).bucket_elem_ok(o, 0));
                        }
                    } else if k == 1 {
                        assert(old(self).bucket_elem_ok(o, 0));
                        if b0.len() > 1 {
                            assert(old(self).bucket_elem_ok(o, 1));
                        }
                    } else {
                        assert(old(self).bucket_elem_ok(o, k - 1));
                        assert(old(self).bucket_elem_ok(o, 0));
                        if k - 1 > 0 {
                            assert(old(self).bucket_elem_ok(o, k - 2));
                        }
                    }
                }
            }

            // Heads still match the buckets.
            assert forall|o2: int| 0 <= o2 < BUCKETS_COUNT as int
                implies #[trigger] self.head_ok(o2) by {
                if o2 != o {
                    assert(old(self).head_ok(o2));
                }
            }

            // Distinctness: the new head was a used frame, so it cannot
            // already sit in the bucket.
            assert forall|o2: int, k1: int, k2: int|
                0 <= o2 < BUCKETS_COUNT as int && 0 <= k1 < k2 < self.buckets@[o2].len()
                implies self.buckets@[o2][k1] != self.buckets@[o2][k2] by {
                if o2 != o {
                    assert(old(self).bucket_elem_ok(o2, k1));
                    assert(old(self).bucket_elem_ok(o2, k2));
                } else {
                    if k1 == 0 {
                        assert(old(self).bucket_elem_ok(o, k2 - 1));
                    } else {
                        assert(old(self).bucket_elem_ok(o, k1 - 1));
                        assert(old(self).bucket_elem_ok(o, k2 - 1));
                    }
                }
            }

            // Completeness: every free frame is listed.
            assert forall|i: int| #[trigger] self.is_free_frame(i)
                implies self.listed(i) by {
                if i == id as int {
                    assert(self.buckets@[o][0] == id);
                } else if b0.len() > 0 && i == b0[0] as int {
                    assert(self.buckets@[o][1] == b0[0]);
                } else {
                    assert(old(self).is_free_frame(i));
                    let (o2, k): (int, int) = choose|o2: int, k: int|
                        0 <= o2 < BUCKETS_COUNT as int
                            && 0 <= k < old(self).buckets@[o2].len()
                            && #[trigger] old(self).buckets@[o2][k] == i;
                    if o2 == o {
                        assert(self.buckets@[o][k + 1] == i);
                    } else {
                        assert(self.buckets@[o2][k] == i);
                    }
                }
            }

            assert(self.free_blocks() =~= old(self).free_blocks().insert(
                (id as nat, order as nat),
            ));

            lemma_buckets_pages_update(
                old(self).buckets@,
                order as int,
                seq![id] + b0,
                BUCKETS_COUNT as int,
            );
            assert((b0.len() + 1) * pow2(order as nat)
                == b0.len() * pow2(order as nat) + pow2(order as nat)) by (nonlinear_arith);
        }
    }
    /// Unlinks the free block headed by frame `id` from its free list and
    /// marks the frame used, re-stitching its neighbours.
    fn unlink(&mut self, id: FrameID)
        requires
            old(self).wf_lists(),
            old(self).is_free_frame(id as int),
        ensures
            final(self).wf_lists(),
            final(self).free_blocks() == old(self).free_blocks().remove(
                (id as nat, old(self).fr(id as int).order as nat),
            ),
            final(self).live == old(self).live,
            final(self).same_shape(*old(self)),
            final(self).fr(id as int).spec_is_used(),
            final(self).fr(id as int).order == old(self).fr(id as int).order,
            final(self).free_pages() + pow2(old(self).fr(id as int).order as nat)
                == old(self).free_pages(),
            forall|i: int|
                0 <= i < old(self).n() && (#[trigger] old(self).fr(i)).spec_is_used()
                    ==> final(self).fr(i) == old(self).fr(i),
            exists|k: int|
                #![trigger old(self).buckets@[old(self).fr(id as int).order as int][k]]
                {
                    let o = old(self).fr(id as int).order as int;
                    let b0 = old(self).buckets@[o];
                    &&& 0 <= k < b0.len()
                    &&& b0[k] == id
                    &&& final(self).buckets@ == old(self).buckets@.update(o, b0.remove(k))
                },
    {
        let f = self.frame_at(id);
        let o = f.order as usize;
        let ghost oo = f.order as int;
        let ghost b0 = old(self).buckets@[oo];
        proof {
            assert(old(self).is_free_frame(id as int));
            assert(old(self).listed(id as int));
            let (o2, k2): (int, int) = choose|o2: int, k2: int|
                0 <= o2 < BUCKETS_COUNT as int && 0 <= k2 < old(self).buckets@[o2].len()
                    && #[trigger] old(self).buckets@[o2][k2] == id;
            assert(old(self).bucket_elem_ok(o2, k2));
            assert(o2 == oo);
        }
        let ghost k: int = choose|k: int|
            0 <= k < b0.len() && #[trigger] b0[k] == id;
        proof {
            assert(old(self).bucket_elem_ok(oo, k));
            if k > 0 {
                assert(old(self).bucket_elem_ok(oo, k - 1));
            }
            if k < b0.len() - 1 {
                assert(old(self).bucket_elem_ok(oo, k + 1));
            }
        }
        let has_prev = f.prev != id;
        let has_next = f.next != id;
        if has_prev {
            let mut pf = self.frame_at(f.prev);
            pf.next = if has_next { f.next } else { f.prev };
            self.set_frame(f.prev, pf);
        } else {
            proof {
                assert(old(self).head_ok(oo));
            }
            self.free_list.set(o, if has_next { Option::Some(f.next) } else { Option::None });
        }
        if has_next {
            let mut nf = self.frame_at(f.next);
            nf.prev = if has_prev { f.prev } else { f.next };
            self.set_frame(f.next, nf);
        }
        let mut ff = f;
        ff.prev = FRAME_STATE_USED;
        ff.next = FRAME_STATE_USED;
        self.set_frame(id, ff);
        proof {
            self.buckets@ = self.buckets@.update(oo, b0.remove(k));
            let nb = self.buckets@[oo];

            assert forall|o2: int, k2: int|
                0 <= o2 < BUCKETS_COUNT as int && 0 <= k2 < self.buckets@[o2].len()
                implies #[trigger] self.bucket_elem_ok(o2, k2) by {
                if o2 != oo {
                    assert(old(self).bucket_elem_ok(o2, k2));
                    let i = old(self).buckets@[o2][k2] as int;
                    assert(old(self).fr(i).order as int == o2);
                } else {
                    // Position in the old bucket corresponding to k2.
                    let kk = if k2 < k { k2 } else { k2 + 1 };
                    assert(old(self).bucket_elem_ok(oo, kk));
                    if kk > 0 {
                        assert(old(self).bucket_elem_ok(oo, kk - 1));
                    }
                    if kk < b0.len() - 1 {
                        assert(old(self).bucket_elem_ok(oo, kk + 1));
                    }
                    if kk + 1 < b0.len() - 1 {
                        assert(old(self).bucket_elem_ok(oo, kk + 2));
                    }
                    if kk - 1 > 0 {
                        assert(old(self).bucket_elem_ok(oo, kk - 2));
                    }
                }
            }

            assert forall|o2: int| 0 <= o2 < BUCKETS_COUNT as int
                implies #[trigger] self.head_ok(o2) by {
                if o2 != oo {
                    assert(old(self).head_ok(o2));
                } else {
                    assert(old(self).head_ok(oo));
                    if k == 0 && b0.len() > 1 {
                        assert(old(self).bucket_elem_ok(oo, 0));
                    }
                }
            }

            assert forall|o2: int, k1: int, k2: int|
                0 <= o2 < BUCKETS_COUNT as int && 0 <= k1 < k2 < self.buckets@[o2].len()
                implies self.buckets@[o2][k1] != self.buckets@[o2][k2] by {
                if o2 == oo {
                    let j1 = if k1 < k { k1 } else { k1 + 1 };
                    let j2 = if k2 < k { k2 } else { k2 + 1 };
                    assert(b0[j1] != b0[j2]);
                }
            }

            assert forall|i: int| #[trigger] self.is_free_frame(i)
                implies self.listed(i) by {
                assert(old(self).is_free_frame(i));
                assert(i != id as int);
                let (o2, k2): (int, int) = choose|o2: int, k2: int|
                    0 <= o2 < BUCKETS_COUNT as int
                        && 0 <= k2 < old(self).buckets@[o2].len()
                        && #[trigger] old(self).buckets@[o2][k2] == i;
                if o2 == oo {
                    assert(old(self).bucket_elem_ok(oo, k2));
                    assert(k2 != k);
                    if k2 < k {
                        assert(self.buckets@[oo][k2] == i);
                    } else {
                        assert(self.buckets@[oo][k2 - 1] == i);
                    }
                } else {
                    assert(self.buckets@[o2][k2] == i);
                }
            }

            assert(self.free_blocks() =~= old(self).free_blocks().remove(
                (id as nat, old(self).fr(id as int).order as nat),
            ));

            lemma_buckets_pages_update(
                old(self).buckets@,
                oo,
                b0.remove(k),
                BUCKETS_COUNT as int,
            );
            assert((b0.len() - 1) * pow2(oo as nat) + pow2(oo as nat)
                == b0.len() * pow2(oo as nat)) by (nonlinear_arith)
                requires
                    b0.len() >= 1,
            ;
        }
    }

    /// Rewrites the stored order of a frame that is not on any free list.
    fn set_used_order(&mut self, id: FrameID, order: FrameOrder)
        requires
            old(self).wf_lists(),
            id < old(self).pages_count,
            old(self).fr(id as int).spec_is_used(),
        ensures
            final(self).wf_lists(),
            final(self).free_blocks() == old(self).free_blocks(),
            final(self).live == old(self).live,
            final(self).buckets == old(self).buckets,
            final(self).free_list == old(self).free_list,
            final(self).same_shape(*old(self)),
            final(self).fr(id as int).spec_is_used(),
            final(self).fr(id as int).order == order,
            forall|i: int|
                0 <= i < old(self).n() && i != id as int
                    ==> final(self).fr(i) == old(self).fr(i),
    {
        let mut f = self.frame_at(id);
        f.order = order;
        self.set_frame(id, f);
        proof {
            assert forall|o2: int, k: int|
                0 <= o2 < BUCKETS_COUNT as int && 0 <= k < self.buckets@[o2].len()
                implies #[trigger] self.bucket_elem_ok(o2, k) by {
                assert(old(self).bucket_elem_ok(o2, k));
            }
            assert forall|o2: int| 0 <= o2 < BUCKETS_COUNT as int
                implies #[trigger] self.head_ok(o2) by {
                assert(old(self).head_ok(o2));
            }
            assert forall|i: int| #[trigger] self.is_free_frame(i)
                implies self.listed(i) by {
                assert(old(self).is_free_frame(i));
            }
            assert(self.free_blocks() =~= old(self).free_blocks());
        }
    }

    /// Unlinks the free block headed by `id` and splits it until it reaches
    /// the required order, linking the freed upper half at each halving
    /// step. The block itself is left unlinked, at the target order.
    fn split(&mut self, id: FrameID, order: FrameOrder)
        requires
            old(self).wf(),
            old(self).is_free_frame(id as int),
            order <= old(self).fr(id as int).order,
        ensures
            final(self).wf_lists(),
            final(self).inv_live(),
            final(self).live == old(self).live,
            final(self).same_shape(*old(self)),
            final(self).fr(id as int).spec_is_used(),
            final(self).fr(id as int).order == order,
            final(self).valid_block(id as nat, order as nat),
            final(self).free_blocks() == old(self).free_blocks().remove(
                (id as nat, old(self).fr(id as int).order as nat),
            ).union(
                split_remnants(id as nat, old(self).fr(id as int).order as nat, order as nat),
            ),
            final(self).mem_ok_with(set![(id as nat, order as nat)]),
            final(self).free_pages() + pow2(order as nat) == old(self).free_pages(),
            forall|b: (nat, nat)| #[trigger] final(self).live@.contains(b)
                ==> !blocks_overlap(b, (id as nat, order as nat)),
    {
        let f = self.frame_at(id);
        let from = f.order;
        let ghost bb = (id as nat, from as nat);
        let ghost fb0 = old(self).free_blocks();
        let ghost fp0 = old(self).free_pages();
        proof {
            old(self).lemma_free_valid(id as int);
            lemma_pow2_pos(from as nat);
            // Nothing in the live set overlaps the block being split.
            assert forall|b: (nat, nat)| #[trigger] old(self).live@.contains(b)
                implies !blocks_overlap(b, bb) by {
                let all = old(self).all_blocks().union(Set::<(nat, nat)>::empty());
                assert(old(self).free_blocks().contains(bb));
                assert(all.contains(bb));
                assert(all.contains(b));
                if b == bb {
                    assert(old(self).fr(id as int).spec_is_used());
                    assert(false);
                }
            }
            // Pages strictly inside the block head no free frame.
            assert forall|j: int| id < j < id + pow2(from as nat) && j < old(self).n()
                implies (#[trigger] old(self).fr(j)).spec_is_used() by {
                old(self).lemma_free_interior_used(id as int, j);
            }
        }
        self.unlink(id);
        self.set_used_order(id, order);
        proof {
            assert(self.free_blocks() =~= fb0.remove(bb).union(
                split_remnants(id as nat, from as nat, from as nat),
            ));
            let all0 = old(self).all_blocks().union(Set::<(nat, nat)>::empty());
            let y = self.all_blocks().union(set![(id as nat, from as nat)]);
            assert(y =~= all0);
            assert forall|j: int| id < j < id + pow2(from as nat) && j < self.n()
                implies (#[trigger] self.fr(j)).spec_is_used() by {
                assert(old(self).fr(j).spec_is_used());
            }
            assert forall|b: (nat, nat)| #[trigger] self.live@.contains(b)
                implies self.valid_block(b.0, b.1) && self.fr(b.0 as int).spec_is_used() by {
                assert(old(self).live@.contains(b));
                lemma_pow2_pos(b.1);
                assert(old(self).fr(b.0 as int).spec_is_used());
            }
        }
        let mut o = from;
        while o > order
            invariant
                self.wf_lists(),
                self.inv_live(),
                self.live == old(self).live,
                self.same_shape(*old(self)),
                order <= o <= from,
                from <= MAX_ORDER,
                id < self.pages_count,
                self.pages_count == old(self).pages_count,
                (id as nat) % pow2(from as nat) == 0,
                id + pow2(from as nat) <= self.pages_count,
                self.fr(id as int).spec_is_used(),
                self.fr(id as int).order == order,
                self.free_blocks() == fb0.remove((id as nat, from as nat)).union(
                    split_remnants(id as nat, from as nat, o as nat),
                ),
                self.free_pages() + pow2(o as nat) == fp0,
                self.mem_ok_with(set![(id as nat, o as nat)]),
                forall|j: int|
                    id < j < id + pow2(o as nat) && j < self.n()
                        ==> (#[trigger] self.fr(j)).spec_is_used(),
                forall|b: (nat, nat)| #[trigger] self.live@.contains(b)
                    ==> !blocks_overlap(b, (id as nat, from as nat)),
            decreases o,
        {
            o = o - 1;
            proof {
                lemma_pow2_align_down(id as nat, from as nat, o as nat + 1);
                lemma_pow2_align_down(id as nat, from as nat, o as nat);
                lemma_buddy_props(id as nat, o as nat);
                lemma_pow2_adds(o as nat, 1);
                lemma2_to64();
                lemma_pow2_le(o as nat + 1, from as nat);
                lemma_pow2_pos(o as nat);
            }
            let buddy = id + pow2_u32(o);
            proof {
                assert(buddy_of(id as nat, o as nat) == id as nat + pow2(o as nat));
                assert(buddy as nat % pow2(o as nat) == 0);
                assert(buddy as nat + pow2(o as nat) == id as nat + pow2(o as nat + 1));
                assert(id as nat + pow2(o as nat + 1) <= self.pages_count as nat);
                assert(self.valid_block(buddy as nat, o as nat));
                assert(self.fr(buddy as int).spec_is_used());
            }
            let ghost pre = *self;
            self.link(buddy, o);
            proof {
                // The released upper half joins the remnant set.
                assert(self.free_blocks() =~= fb0.remove((id as nat, from as nat)).union(
                    split_remnants(id as nat, from as nat, o as nat),
                ));
                // Pages inside the still-pending lower half stay used.
                assert forall|j: int|
                    id < j < id + pow2(o as nat) && j < self.n()
                    implies (#[trigger] self.fr(j)).spec_is_used() by {
                    assert(pre.fr(j).spec_is_used());
                    assert(j != buddy as int);
                }
                // Disjointness and coverage with the pending half excluded.
                let x = pre.all_blocks().union(set![(id as nat, o as nat + 1)]);
                let y = self.all_blocks().union(set![(id as nat, o as nat)]);
                let half_lo = (id as nat, o as nat);
                let half_hi = (buddy as nat, o as nat);
                let parent = (id as nat, o as nat + 1);
                assert(y =~= pre.all_blocks().insert(half_hi).insert(half_lo));
                // The parent pending block is tracked by nothing else.
                assert(!pre.all_blocks().contains(parent)) by {
                    if pre.free_blocks().contains(parent) {
                        assert(pre.is_free_frame(id as int));
                        assert(false);
                    }
                    if pre.live@.contains(parent) {
                        assert(!blocks_overlap(parent, (id as nat, from as nat)));
                        assert(false);
                    }
                }
                assert forall|a: (nat, nat), b: (nat, nat)|
                    y.contains(a) && y.contains(b) && a != b
                    implies !blocks_overlap(a, b) by {
                    if pre.all_blocks().contains(a) && pre.all_blocks().contains(b) {
                        assert(x.contains(a) && x.contains(b));
                    } else if pre.all_blocks().contains(a) {
                        // b is one of the two halves, contained in the parent
                        assert(x.contains(a));
                        assert(x.contains(parent));
                        assert(a != parent);
                        assert(!blocks_overlap(a, parent));
                    } else if pre.all_blocks().contains(b) {
                        assert(x.contains(b));
                        assert(x.contains(parent));
                        assert(b != parent);
                        assert(!blocks_overlap(b, parent));
                    } else {
                        // the two halves are adjacent
                        assert((a == half_lo && b == half_hi) || (a == half_hi && b == half_lo));
                    }
                }
                assert forall|p: nat| p < self.pages_count as nat
                    implies #[trigger] covered_by(y, p) by {
                    assert(covered_by(x, p));
                    let c = choose|c: (nat, nat)| x.contains(c)
                        && #[trigger] block_contains(c.0, c.1, p);
                    if c == parent {
                        if p < id as nat + pow2(o as nat) {
                            assert(block_contains(half_lo.0, half_lo.1, p));
                            assert(y.contains(half_lo));
                        } else {
                            assert(block_contains(half_hi.0, half_hi.1, p));
                            assert(y.contains(half_hi));
                        }
                    } else {
                        assert(pre.all_blocks().contains(c));
                        assert(y.contains(c));
                    }
                }
            }
        }
        proof {
            lemma_pow2_align_down(id as nat, from as nat, order as nat);
            lemma_pow2_le(order as nat, from as nat);
            assert(self.valid_block(id as nat, order as nat));
            assert forall|b: (nat, nat)| #[trigger] self.live@.contains(b)
                implies !blocks_overlap(b, (id as nat, order as nat)) by {
                assert(!blocks_overlap(b, (id as nat, from as nat)));
            }
        }
    }

    /// Coalesces the pending block of the given order based at frame `id`
    /// with its free buddies as long as one is available, unlinking each
    /// absorbed buddy, then links the grown block into the free list.
    /// Returns the base identifier and order of the final block.
    fn coalesce(&mut self, id: FrameID, order: FrameOrder) -> (r: (FrameID, FrameOrder))
        requires
            old(self).wf_lists(),
            old(self).inv_live(),
            old(self).valid_block(id as nat, order as nat),
            old(self).fr(id as int).spec_is_used(),
            old(self).mem_ok_with(set![(id as nat, order as nat)]),
            old(self).spec_allocated_pages() as nat + old(self).free_pages()
                + pow2(order as nat) == old(self).pages_count as nat,
            forall|b: (nat, nat)| #[trigger] old(self).live@.contains(b)
                ==> !blocks_overlap(b, (id as nat, order as nat)),
        ensures
            final(self).wf(),
            final(self).live == old(self).live,
            final(self).same_shape(*old(self)),
            ({
                let cb = coalesced_block(
                    old(self).free_blocks(),
                    old(self).pages_count as nat,
                    id as nat,
                    order as nat,
                );
                &&& r.0 as nat == cb.0
                &&& r.1 as nat == cb.1
                &&& r.1 <= MAX_ORDER
                &&& cb.0 <= id as nat
                &&& id as nat + pow2(order as nat) <= cb.0 + pow2(cb.1)
                &&& final(self).free_blocks() == old(self).free_blocks().difference(
                    coalesced_absorbed(
                        old(self).free_blocks(),
                        old(self).pages_count as nat,
                        id as nat,
                        order as nat,
                    ),
                ).insert(cb)
                &&& final(self).spec_free_list()[r.1 as int] == Option::Some(r.0)
            }),
    {
        let ghost fb0 = old(self).free_blocks();
        let ghost fp0 = old(self).free_pages();
        let ghost nn = old(self).pages_count as nat;
        let ghost mut acc = Set::<(nat, nat)>::empty();
        let mut cur = id;
        let mut o = order;
        let mut done = false;
        proof {
            lemma_pow2_pos(order as nat);
            assert(fb0.difference(acc) =~= fb0);
        }
        while !done
            invariant
                self.wf_lists(),
                self.inv_live(),
                self.live == old(self).live,
                self.same_shape(*old(self)),
                self.pages_count == old(self).pages_count,
                nn == self.pages_count as nat,
                order <= o <= MAX_ORDER,
                cur < self.pages_count,
                self.valid_block(cur as nat, o as nat),
                self.fr(cur as int).spec_is_used(),
                cur <= id,
                id as nat + pow2(order as nat) <= cur as nat + pow2(o as nat),
                self.free_blocks() == fb0.difference(acc),
                self.free_pages() + pow2(o as nat) == fp0 + pow2(order as nat),
                self.mem_ok_with(set![(cur as nat, o as nat)]),
                forall|b: (nat, nat)| #[trigger] self.live@.contains(b)
                    ==> !blocks_overlap(b, (cur as nat, o as nat)),
                coalesced_block(self.free_blocks(), nn, cur as nat, o as nat)
                    == coalesced_block(fb0, nn, id as nat, order as nat),
                coalesced_absorbed(self.free_blocks(), nn, cur as nat, o as nat).union(acc)
                    == coalesced_absorbed(fb0, nn, id as nat, order as nat),
                done ==> !(o < MAX_ORDER && buddy_of(cur as nat, o as nat) < nn
                    && self.free_blocks().contains((buddy_of(cur as nat, o as nat), o as nat))),
            decreases (MAX_ORDER as int - o as int) * 2 + (if done { 0int } else { 1int }),
        {
            if o >= MAX_ORDER {
                done = true;
            } else {
                proof {
                    lemma_pow2_pos(o as nat);
                    lemma_pow2_adds(o as nat, 1);
                    lemma2_to64();
                    lemma_buddy_props(cur as nat, o as nat);
                    lemma_xor_is_buddy(cur, o);
                    lemma_u32_pow2_no_overflow(o as nat);
                    lemma_u32_shl_is_mul(1u32, o as u32);
                }
                let buddy = cur ^ (1u32 << (o as u32));
                if buddy >= self.get_pages_count() {
                    done = true;
                } else {
                    let bf = self.frame_at(buddy);
                    if bf.is_used() || bf.order != o {
                        proof {
                            if self.free_blocks().contains((buddy as nat, o as nat)) {
                                assert(self.is_free_frame(buddy as int));
                            }
                        }
                        done = true;
                    } else {
                        let ghost pre = *self;
                        let ghost bd = (buddy as nat, o as nat);
                        let ghost pending = (cur as nat, o as nat);
                        proof {
                            assert(pre.is_free_frame(buddy as int));
                            pre.lemma_free_valid(buddy as int);
                            assert(pre.free_blocks().contains(bd));
                        }
                        self.unlink(buddy);
                        if buddy < cur {
                            cur = buddy;
                        }
                        o = o + 1;
                        proof {
                            let base = merge_base(pending.0, pending.1);
                            let grown = (base, pending.1 + 1);
                            assert(cur as nat == base);
                            assert(pending.1 < MAX_ORDER as nat);
                            assert(buddy_of(pending.0, pending.1) == bd.0);
                            assert(bd.0 < nn);
                            assert(pre.free_blocks().contains(bd));
                            assert(self.free_blocks() == pre.free_blocks().remove(bd));
                            acc = acc.insert(bd);
                            assert(self.free_blocks() =~= fb0.difference(acc));
                            // The merged block is the aligned union of the
                            // pending block and its buddy.
                            assert(base % pow2(pending.1 + 1) == 0);
                            assert(base + pow2(pending.1 + 1) <= self.pages_count as nat) by {
                                assert(pending.0 + pow2(pending.1) <= self.pages_count as nat);
                                assert(bd.0 + pow2(bd.1) <= self.pages_count as nat);
                            }
                            assert(self.valid_block(cur as nat, o as nat));
                            // Recursive spec functions advance by one step.
                            assert(coalesced_block(pre.free_blocks(), nn, pending.0, pending.1)
                                == coalesced_block(self.free_blocks(), nn, base, pending.1 + 1));
                            assert(coalesced_absorbed(pre.free_blocks(), nn, pending.0, pending.1)
                                == coalesced_absorbed(self.free_blocks(), nn, base, pending.1 + 1)
                                    .insert(bd));
                            assert(coalesced_absorbed(self.free_blocks(), nn, cur as nat, o as nat)
                                .union(acc)
                                =~= coalesced_absorbed(pre.free_blocks(), nn, pending.0, pending.1)
                                    .union(acc.remove(bd)));
                            // The pending block is tracked by nothing else.
                            assert(!pre.all_blocks().contains(pending)) by {
                                if pre.free_blocks().contains(pending) {
                                    assert(pre.is_free_frame(pending.0 as int));
                                }
                                if pre.live@.contains(pending) {
                                    lemma_pow2_pos(pending.1);
                                    assert(blocks_overlap(pending, pending));
                                }
                            }
                            // Disjointness with the grown pending block.
                            let x = pre.all_blocks().union(set![pending]);
                            let y = self.all_blocks().union(set![grown]);
                            assert forall|a: (nat, nat), b: (nat, nat)|
                                y.contains(a) && y.contains(b) && a != b
                                implies !blocks_overlap(a, b) by {
                                if a != grown && b != grown {
                                    assert(x.contains(a) && x.contains(b));
                                } else {
                                    let other = if a == grown { b } else { a };
                                    assert(self.all_blocks().contains(other));
                                    assert(other != bd) by {
                                        if self.free_blocks().contains(bd) {
                                            assert(self.is_free_frame(bd.0 as int));
                                        }
                                        if self.live@.contains(bd) {
                                            assert(pre.live@.contains(bd));
                                            assert(pre.fr(bd.0 as int).spec_is_used());
                                        }
                                    }
                                    assert(other != pending) by {
                                        if self.free_blocks().contains(pending) {
                                            assert(pre.all_blocks().contains(pending));
                                        }
                                        if self.live@.contains(pending) {
                                            assert(pre.all_blocks().contains(pending));
                                        }
                                    }
                                    assert(x.contains(other));
                                    assert(x.contains(pending));
                                    assert(pre.free_blocks().contains(bd));
                                    assert(pre.all_blocks().contains(bd));
                                    assert(x.contains(bd));
                                    assert(!blocks_overlap(other, pending));
                                    assert(!blocks_overlap(other, bd));
                                }
                            }
                            // Coverage with the grown pending block.
                            assert forall|p: nat| p < self.pages_count as nat
                                implies #[trigger] covered_by(y, p) by {
                                assert(covered_by(x, p));
                                let c = choose|c: (nat, nat)| x.contains(c)
                                    && #[trigger] block_contains(c.0, c.1, p);
                                if c == pending || c == bd {
                                    assert(block_contains(grown.0, grown.1, p));
                                    assert(y.contains(grown));
                                } else {
                                    assert(pre.all_blocks().contains(c));
                                    if pre.free_blocks().contains(c) {
                                        assert(self.free_blocks().contains(c));
                                    }
                                    assert(y.contains(c));
                                }
                            }
                            // Live blocks stay clear of the grown block.
                            assert forall|b: (nat, nat)| #[trigger] self.live@.contains(b)
                                implies !blocks_overlap(b, grown) by {
                                assert(!blocks_overlap(b, pending));
                                assert(pre.live@.contains(b));
                                assert(pre.all_blocks().contains(b));
                                assert(pre.free_blocks().contains(bd));
                                assert(pre.all_blocks().contains(bd));
                                assert(x.contains(b));
                                assert(x.contains(bd));
                                assert(b != bd) by {
                                    assert(pre.fr(bd.0 as int).spec_is_used()
                                        == false);
                                }
                                assert(!blocks_overlap(b, bd));
                            }
                        }
                    }
                }
            }
        }
        let ghost pending = (cur as nat, o as nat);
        let ghost pre = *self;
        self.link(cur, o);
        proof {
            lemma_pow2_pos(o as nat);
            assert(coalesced_block(pre.free_blocks(), nn, cur as nat, o as nat)
                == (cur as nat, o as nat));
            let cb = coalesced_block(fb0, nn, id as nat, order as nat);
            assert(cb == pending);
            assert(coalesced_absorbed(pre.free_blocks(), nn, cur as nat, o as nat)
                =~= Set::<(nat, nat)>::empty());
            assert(coalesced_absorbed(fb0, nn, id as nat, order as nat) =~= acc);
            assert(self.free_blocks() =~= fb0.difference(
                coalesced_absorbed(fb0, nn, id as nat, order as nat),
            ).insert(cb));
            // Full well-formedness: the pending block has rejoined the free
            // set, so the tracked blocks partition the zone again.
            let y = pre.all_blocks().union(set![pending]);
            let z = self.all_blocks().union(Set::<(nat, nat)>::empty());
            assert(z =~= y);
            assert forall|b: (nat, nat)| #[trigger] self.live@.contains(b)
                implies self.valid_block(b.0, b.1) && self.fr(b.0 as int).spec_is_used() by {
                assert(pre.live@.contains(b));
                assert(pre.fr(b.0 as int).spec_is_used());
                lemma_pow2_pos(b.1);
                assert(!blocks_overlap(b, pending));
                assert(b.0 != cur as nat);
            }
        }
        (cur, o)
    }

    /// Checks the consistency of the zone's free lists: every frame
    /// reachable from a bucket must be free and have an order no higher
    /// than the maximum, and the first frame of a list must have no
    /// dangling previous link. Under the zone's invariant the check always
    /// passes; it is kept as a runtime cross-check for debugging.
    pub fn check_free_list(&self) -> (r: bool)
        requires
            self.wf(),
        ensures
            r,
    {
        let mut o: usize = 0;
        while o < BUCKETS_COUNT
            invariant
                self.wf(),
                o <= BUCKETS_COUNT,
            decreases BUCKETS_COUNT - o,
        {
            let head = self.free_list[o];
            if let Option::Some(first) = head {
                proof {
                    assert(self.head_ok(o as int));
                }
                let mut frame = first;
                let mut is_first = true;
                let mut done = false;
                let ghost mut k: int = 0;
                while !done
                    invariant
                        self.wf(),
                        o < BUCKETS_COUNT,
                        0 <= k < self.buckets@[o as int].len(),
                        self.buckets@[o as int][k] == frame,
                        is_first <==> k == 0,
                    decreases self.buckets@[o as int].len() - k
                        + (if done { 0int } else { 1int }),
                {
                    proof {
                        assert(self.bucket_elem_ok(o as int, k));
                        if k + 1 < self.buckets@[o as int].len() {
                            assert(self.bucket_elem_ok(o as int, k + 1));
                            assert(self.buckets@[o as int][k]
                                != self.buckets@[o as int][k + 1]);
                        }
                    }
                    let f = self.frame_at(frame);
                    if f.is_used() {
                        return false;
                    }
                    if f.order > MAX_ORDER {
                        return false;
                    }
                    if is_first && f.prev != frame {
                        return false;
                    }
                    if f.next == frame {
                        done = true;
                    } else {
                        frame = f.next;
                        is_first = false;
                        proof {
                            k = k + 1;
                        }
                    }
                }
            }
            o = o + 1;
        }
        true
    }

    /// A zone with no pages, used to momentarily stand in for a real zone
    /// while that one is being operated on.
    fn placeholder() -> Zone {
        Zone {
            class: ZoneClass::User,
            allocated_pages: 0,
            begin: 0,
            pages_count: 0,
            frames: Vec::new(),
            free_list: Vec::new(),
            buckets: Ghost(Seq::empty()),
            live: Ghost(Set::empty()),
        }
    }

    /// Whether the given physical address lies within the zone.
    pub open spec fn contains_ptr(self, ptr: usize) -> bool {
        self.spec_begin() <= ptr < self.spec_begin() + self.spec_pages_count() * PAGE_SIZE
    }
}

/// One past the last byte of the zone's physical range.
pub open spec fn zone_end(z: Zone) -> int {
    z.spec_begin() + z.spec_pages_count() * PAGE_SIZE
}

/// The two zones' physical ranges do not intersect.
pub open spec fn zones_ranges_disjoint(a: Zone, b: Zone) -> bool {
    zone_end(a) <= b.spec_begin() || zone_end(b) <= a.spec_begin()
}

/// What a successful allocation of the given order at address `ptr` does
/// to its zone: the address is page-aligned and in range, the block joins
/// the live set, and the allocated-pages counter grows by the block size.
pub open spec fn alloc_zone_post(z0: Zone, z1: Zone, order: FrameOrder, ptr: usize) -> bool {
    let id = ((ptr - z0.spec_begin()) as int / PAGE_SIZE as int) as nat;
    &&& ptr as int % PAGE_SIZE as int == 0
    &&& z0.spec_begin() <= ptr
    &&& ptr + pow2(order as nat) * PAGE_SIZE <= zone_end(z0)
    &&& ptr == z0.spec_begin() + id * PAGE_SIZE
    &&& z1.spec_class() == z0.spec_class()
    &&& z1.spec_begin() == z0.spec_begin()
    &&& z1.spec_pages_count() == z0.spec_pages_count()
    &&& z1.spec_allocated_pages() == z0.spec_allocated_pages() + pow2(order as nat)
    &&& !z0.live_blocks().contains((id, order as nat))
    &&& z1.live_blocks() == z0.live_blocks().insert((id, order as nat))
}

/// What freeing the block of the given order at address `ptr` does to its
/// zone: the block leaves the live set, the allocated-pages counter
/// shrinks by the block size, and the block is coalesced with its free
/// buddies as long as one is available -- the free set loses exactly the
/// absorbed buddies and gains the single grown block, which covers the
/// freed one and sits at the head of the free bucket of its final order.
pub open spec fn free_zone_post(z0: Zone, z1: Zone, order: FrameOrder, ptr: usize) -> bool {
    let id = ((ptr - z0.spec_begin()) as int / PAGE_SIZE as int) as nat;
    let fb = z0.free_blocks();
    let n = z0.spec_pages_count() as nat;
    let cb = coalesced_block(fb, n, id, order as nat);
    &&& z1.spec_class() == z0.spec_class()
    &&& z1.spec_begin() == z0.spec_begin()
    &&& z1.spec_pages_count() == z0.spec_pages_count()
    &&& z1.spec_allocated_pages() + pow2(order as nat) == z0.spec_allocated_pages()
    &&& z1.live_blocks() == z0.live_blocks().remove((id, order as nat))
    &&& z1.free_blocks() == fb.difference(coalesced_absorbed(fb, n, id, order as nat)).insert(
        cb,
    )
    &&& cb.0 <= id
    &&& id + pow2(order as nat) <= cb.0 + pow2(cb.1)
    &&& cb.1 <= MAX_ORDER
    &&& z1.spec_free_list()[cb.1 as int] == Option::Some((cb.0 as FrameID))
}

/// Errors returned by the allocator.
#[derive(Clone, Copy, Debug, PartialEq, Eq, Structural)]
pub enum AllocError {
    /// No zone matches the requested class.
    NoSuitableZone,
    /// The matching zone has no free block of sufficient order.
    OutOfMemory,
}

/// The byte offset between a physical kernel-zone address and its
/// kernel-virtual counterpart.
pub const KERNEL_VIRT_OFFSET: usize = 0xc000_0000;

/// One past the highest physical address the kernel zone may reach, so
/// that every kernel-zone address has a virtual counterpart.
pub const KERNEL_ZONE_LIMIT: usize = 0x4000_0000;

/// The number of zones of the allocator, one per class.
pub const ZONES_COUNT: usize = 3;

/// Index of the first zone of the given class among `zs`, searching from
/// position `i` on.
pub open spec fn first_zone_of_class(zs: Seq<Zone>, class: ZoneClass, i: int) -> Option<int>
    decreases zs.len() - i,
{
    if i < 0 || i >= zs.len() {
        Option::None
    } else if zs[i].spec_class() == class {
        Option::Some(i)
    } else {
        first_zone_of_class(zs, class, i + 1)
    }
}

/// Index of the first zone among `zs` whose range contains `ptr`,
/// searching from position `i` on.
pub open spec fn first_zone_of_ptr(zs: Seq<Zone>, ptr: usize, i: int) -> Option<int>
    decreases zs.len() - i,
{
    if i < 0 || i >= zs.len() {
        Option::None
    } else if zs[i].contains_ptr(ptr) {
        Option::Some(i)
    } else {
        first_zone_of_ptr(zs, ptr, i + 1)
    }
}

/// A zone found by class search indeed has the class, and lies at or after
/// the search's starting point.
pub proof fn lemma_first_zone_of_class(zs: Seq<Zone>, class: ZoneClass, i: int, j: int)
    requires
        first_zone_of_class(zs, class, i) == Option::<int>::Some(j),
    ensures
        i <= j < zs.len(),
        zs[j].spec_class() == class,
    decreases zs.len() - i,
{
    if 0 <= i < zs.len() && zs[i].spec_class() != class {
        lemma_first_zone_of_class(zs, class, i + 1, j);
    }
}

/// A zone found by pointer search indeed contains the pointer.
pub proof fn lemma_first_zone_of_ptr(zs: Seq<Zone>, ptr: usize, i: int, j: int)
    requires
        first_zone_of_ptr(zs, ptr, i) == Option::<int>::Some(j),
    ensures
        i <= j < zs.len(),
        zs[j].contains_ptr(ptr),
    decreases zs.len() - i,
{
    if 0 <= i < zs.len() && !zs[i].contains_ptr(ptr) {
        lemma_first_zone_of_ptr(zs, ptr, i + 1, j);
    }
}

/// Total of the zones' allocated-pages counters, over the first `upto`
/// zones.
pub open spec fn zones_allocated_upto(zs: Seq<Zone>, upto: int) -> nat
    decreases upto,
{
    if upto <= 0 {
        0
    } else {
        zones_allocated_upto(zs, upto - 1) + zs[upto - 1].spec_allocated_pages() as nat
    }
}

/// Description of the physical memory available to the allocator,
/// discovered at boot.
pub struct MemmapInfo {
    /// Amount of available physical memory, in bytes.
    pub available_memory: usize,
    /// Physical address of the beginning of allocatable memory.
    pub phys_alloc_begin: usize,
    /// Physical address of the end of allocatable memory.
    pub phys_alloc_end: usize,
}

/// `x` rounded up to the next page boundary.
pub open spec fn spec_page_align_up(x: int) -> int {
    ((x + PAGE_SIZE - 1) / PAGE_SIZE as int) * PAGE_SIZE
}

/// Rounds the address up to the next page boundary.
fn page_align_up(x: usize) -> (r: usize)
    requires
        x + PAGE_SIZE - 1 <= usize::MAX,
    ensures
        r == spec_page_align_up(x as int),
        x <= r < x + PAGE_SIZE,
        r as int % PAGE_SIZE as int == 0,
{
    let q = (x + (PAGE_SIZE - 1)) / PAGE_SIZE;
    proof {
        let pi = PAGE_SIZE as int;
        let y = x as int + pi - 1;
        vstd::arithmetic::div_mod::lemma_fundamental_div_mod(y, pi);
        vstd::arithmetic::div_mod::lemma_mod_multiples_basic(y / pi, pi);
        assert((y / pi) * pi == pi * (y / pi)) by (nonlinear_arith);
    }
    q * PAGE_SIZE
}

/// Rounds the address down to the previous page boundary.
fn page_align_down(x: usize) -> (r: usize)
    ensures
        r == (x as int / PAGE_SIZE as int) * PAGE_SIZE,
        r <= x,
        r as int % PAGE_SIZE as int == 0,
        x - r < PAGE_SIZE,
{
    let q = x / PAGE_SIZE;
    proof {
        let pi = PAGE_SIZE as int;
        vstd::arithmetic::div_mod::lemma_fundamental_div_mod(x as int, pi);
        vstd::arithmetic::div_mod::lemma_mod_multiples_basic(x as int / pi, pi);
        assert((x as int / pi) * pi == pi * (x as int / pi)) by (nonlinear_arith);
    }
    q * PAGE_SIZE
}

/// Whether the metadata-table layout derived from the memory map fits in
/// the kernel address space.
pub open spec fn layout_ok(m: MemmapInfo) -> bool {
    let virt = m.phys_alloc_begin as int + KERNEL_VIRT_OFFSET;
    let mb = spec_page_align_up(virt);
    let fc = m.available_memory as int / (PAGE_SIZE + FRAME_METADATA_SIZE) as int;
    &&& virt + PAGE_SIZE - 1 <= usize::MAX as int
    &&& mb + fc * FRAME_METADATA_SIZE <= usize::MAX as int
    &&& mb + fc * FRAME_METADATA_SIZE - KERNEL_VIRT_OFFSET + PAGE_SIZE - 1 <= usize::MAX as int
}

/// The physical address one past the frame metadata table: the table
/// starts at the first page boundary of the allocatable region and holds
/// one record per frame that the available memory can back.
pub open spec fn spec_metadata_phys_end(m: MemmapInfo) -> int {
    let virt = m.phys_alloc_begin as int + KERNEL_VIRT_OFFSET;
    let mb = spec_page_align_up(virt);
    let fc = m.available_memory as int / (PAGE_SIZE + FRAME_METADATA_SIZE) as int;
    mb + fc * FRAME_METADATA_SIZE - KERNEL_VIRT_OFFSET
}

/// The physical address where the kernel zone ends: the end of the
/// allocatable region, capped at the kernel zone limit and rounded down to
/// a page boundary.
pub open spec fn spec_kernel_zone_end(m: MemmapInfo) -> int {
    let limit = if KERNEL_ZONE_LIMIT < m.phys_alloc_end {
        KERNEL_ZONE_LIMIT as int
    } else {
        m.phys_alloc_end as int
    };
    (limit / PAGE_SIZE as int) * PAGE_SIZE
}

/// The physical address where the kernel zone begins: the page-aligned
/// address just after the metadata table, or zero when not a single page
/// remains below the kernel zone end.
pub open spec fn spec_kernel_zone_begin(m: MemmapInfo) -> int {
    let kzb = spec_page_align_up(spec_metadata_phys_end(m));
    if spec_kernel_zone_end(m) > kzb {
        kzb
    } else {
        0
    }
}

/// The number of pages of the kernel zone: what fits between the zone's
/// begin and end.
pub open spec fn spec_kernel_zone_pages(m: MemmapInfo) -> int {
    let kzb = spec_page_align_up(spec_metadata_phys_end(m));
    let kze = spec_kernel_zone_end(m);
    if kze > kzb {
        (kze - kzb) / PAGE_SIZE as int
    } else {
        0
    }
}

/// Initializes the buddy allocator from the memory map: the frame metadata
/// table is laid out at the start of the allocatable region, the kernel
/// zone covers what remains below the kernel zone limit, and the user and
/// DMA zones are left empty. Returns `None` exactly when the layout would
/// exceed the address space.
#[verifier::rlimit(50)]
pub fn init(mmap: &MemmapInfo) -> (r: Option<BuddyAllocator>)
    ensures
        r is Some <==> layout_ok(*mmap),
        r matches Some(a) ==> a.wf(),
        r matches Some(a) ==> a.suitable_zone_idx(ZoneClass::Kernel) == Option::<int>::Some(1int)
            && a.suitable_zone_idx(ZoneClass::User) == Option::<int>::Some(0int)
            && a.suitable_zone_idx(ZoneClass::Dma) == Option::<int>::Some(2int)
            && zones_allocated_upto(a.zs(), a.zs().len() as int) == 0,
        r matches Some(a) ==> {
            &&& a.zs()[0].spec_begin() == 0 && a.zs()[0].spec_pages_count() == 0
            &&& a.zs()[2].spec_begin() == 0 && a.zs()[2].spec_pages_count() == 0
            &&& a.zs()[1].spec_begin() == spec_kernel_zone_begin(*mmap)
            &&& a.zs()[1].spec_pages_count() == spec_kernel_zone_pages(*mmap)
        },
{
    if mmap.phys_alloc_begin > usize::MAX - KERNEL_VIRT_OFFSET - (PAGE_SIZE - 1) {
        return Option::None;
    }
    let virt_alloc_begin = kern_to_virt(mmap.phys_alloc_begin);
    let metadata_begin = page_align_up(virt_alloc_begin);
    let frames_count = mmap.available_memory / (PAGE_SIZE + FRAME_METADATA_SIZE);
    proof {
        let pi = PAGE_SIZE as int;
        let fm = FRAME_METADATA_SIZE as int;
        let cap = usize::MAX as int - metadata_begin as int;
        vstd::arithmetic::div_mod::lemma_fundamental_div_mod(cap, fm);
        vstd::arithmetic::div_mod::lemma_fundamental_div_mod(
            mmap.available_memory as int,
            pi + fm,
        );
        if frames_count as int <= cap / fm {
            assert(frames_count as int * fm <= (cap / fm) * fm) by (nonlinear_arith)
                requires
                    frames_count as int <= cap / fm,
                    fm > 0,
            ;
            assert((cap / fm) * fm <= cap) by (nonlinear_arith)
                requires
                    cap == fm * (cap / fm) + cap % fm,
                    cap % fm >= 0,
            ;
        } else {
            assert(frames_count as int * fm > cap) by (nonlinear_arith)
                requires
                    frames_count as int >= cap / fm + 1,
                    cap == fm * (cap / fm) + cap % fm,
                    cap % fm < fm,
                    fm > 0,
            ;
        }
    }
    if frames_count > (usize::MAX - metadata_begin) / FRAME_METADATA_SIZE {
        return Option::None;
    }
    let metadata_end = metadata_begin + frames_count * FRAME_METADATA_SIZE;
    let phys_metadata_end = kern_to_phys(metadata_end);
    if phys_metadata_end > usize::MAX - (PAGE_SIZE - 1) {
        return Option::None;
    }
    let metadata_zone_end = page_align_up(phys_metadata_end);
    let limit = if KERNEL_ZONE_LIMIT < mmap.phys_alloc_end {
        KERNEL_ZONE_LIMIT
    } else {
        mmap.phys_alloc_end
    };
    let kernel_zone_end = page_align_down(limit);
    let kernel_zone_fits = kernel_zone_end > metadata_zone_end;
    let kernel_zone_begin = if kernel_zone_fits {
        metadata_zone_end
    } else {
        0
    };
    let kernel_frames_count: usize = if kernel_zone_fits {
        (kernel_zone_end - metadata_zone_end) / PAGE_SIZE
    } else {
        0
    };
    proof {
        assert(phys_metadata_end as int == spec_metadata_phys_end(*mmap));
        assert(kernel_zone_end as int == spec_kernel_zone_end(*mmap));
        assert(kernel_zone_begin as int == spec_kernel_zone_begin(*mmap));
        assert(kernel_frames_count as int == spec_kernel_zone_pages(*mmap));
    }
    proof {
        let pi = PAGE_SIZE as int;
        let span = kernel_zone_end as int - metadata_zone_end as int;
        if span > 0 {
            vstd::arithmetic::div_mod::lemma_fundamental_div_mod(span, pi);
            assert(span / pi <= span) by (nonlinear_arith)
                requires
                    span == pi * (span / pi) + span % pi,
                    span % pi >= 0,
                    pi > 1,
                    span / pi >= 0,
                    span > 0,
            ;
            assert(span / pi >= 0) by (nonlinear_arith)
                requires
                    span == pi * (span / pi) + span % pi,
                    span % pi < pi,
                    pi > 0,
                    span > 0,
            ;
            assert((span / pi) * pi <= span) by (nonlinear_arith)
                requires
                    span == pi * (span / pi) + span % pi,
                    span % pi >= 0,
            ;
            assert(kernel_zone_end as int <= KERNEL_ZONE_LIMIT as int);
            assert(span / pi <= MAX_ZONE_PAGES as int);
        }
    }
    let mut zones: Vec<Zone> = Vec::new();
    zones.push(Zone::init(ZoneClass::User, 0, 0));
    zones.push(Zone::init(ZoneClass::Kernel, kernel_frames_count as u32, kernel_zone_begin));
    zones.push(Zone::init(ZoneClass::Dma, 0, 0));
    let a = BuddyAllocator { zones };
    proof {
        assert(zone_end(a.zones@[0]) == 0);
        assert(zone_end(a.zones@[2]) == 0);
        assert(zone_end(a.zones@[1]) <= KERNEL_ZONE_LIMIT as int);
        assert forall|i: int, j: int|
            0 <= i < a.zones@.len() && 0 <= j < a.zones@.len() && i != j
            implies zones_ranges_disjoint(#[trigger] a.zones@[i], #[trigger] a.zones@[j]) by {
            assert(a.zones@[0].spec_begin() == 0);
            assert(a.zones@[2].spec_begin() == 0);
        }
        assert(a.wf());
        assert(a.zs()[0].spec_class() == ZoneClass::User);
        assert(a.zs()[1].spec_class() == ZoneClass::Kernel);
        assert(a.zs()[2].spec_class() == ZoneClass::Dma);
        assert(first_zone_of_class(a.zs(), ZoneClass::User, 0) == Option::<int>::Some(0int));
        assert(first_zone_of_class(a.zs(), ZoneClass::Kernel, 1) == Option::<int>::Some(1int));
        assert(first_zone_of_class(a.zs(), ZoneClass::Kernel, 0) == Option::<int>::Some(1int));
        assert(first_zone_of_class(a.zs(), ZoneClass::Dma, 2) == Option::<int>::Some(2int));
        assert(first_zone_of_class(a.zs(), ZoneClass::Dma, 1) == Option::<int>::Some(2int));
        assert(first_zone_of_class(a.zs(), ZoneClass::Dma, 0) == Option::<int>::Some(2int));
        assert(zones_allocated_upto(a.zs(), 0) == 0);
        assert(zones_allocated_upto(a.zs(), 1) == 0);
        assert(zones_allocated_upto(a.zs(), 2) == 0);
        assert(zones_allocated_upto(a.zs(), 3) == 0);
    }
    Option::Some(a)
}

/// Law: two distinct live blocks of a well-formed zone never share a page.
/// Every allocation is exclusively owned by its caller until freed.
pub proof fn lemma_live_blocks_no_overlap(z: Zone, a: (nat, nat), b: (nat, nat))
    requires
        z.wf(),
        z.live_blocks().contains(a),
        z.live_blocks().contains(b),
        a != b,
    ensures
        !blocks_overlap(a, b),
{
    let all = z.all_blocks().union(Set::<(nat, nat)>::empty());
    assert(all.contains(a));
    assert(all.contains(b));
}

/// Law: the physical byte ranges of two concurrently live allocations
/// never overlap, whether the blocks live in the same zone or in two
/// different zones of a well-formed allocator.
pub proof fn lemma_live_ranges_no_overlap(
    al: BuddyAllocator,
    i: int,
    j: int,
    a: (nat, nat),
    b: (nat, nat),
)
    requires
        al.wf(),
        0 <= i < al.zs().len(),
        0 <= j < al.zs().len(),
        al.zs()[i].live_blocks().contains(a),
        al.zs()[j].live_blocks().contains(b),
        i != j || a != b,
    ensures
        ({
            let sa = al.zs()[i].spec_begin() + a.0 * PAGE_SIZE;
            let ea = sa + pow2(a.1) * PAGE_SIZE;
            let sb = al.zs()[j].spec_begin() + b.0 * PAGE_SIZE;
            let eb = sb + pow2(b.1) * PAGE_SIZE;
            ea <= sb || eb <= sa
        }),
{
    let zi = al.zs()[i];
    let zj = al.zs()[j];
    let pi = PAGE_SIZE as int;
    assert(zi.wf());
    assert(zj.wf());
    let alli = zi.all_blocks().union(Set::<(nat, nat)>::empty());
    let allj = zj.all_blocks().union(Set::<(nat, nat)>::empty());
    assert(alli.contains(a));
    assert(allj.contains(b));
    if i == j {
        assert(!blocks_overlap(a, b));
        if a.0 + pow2(a.1) <= b.0 {
            assert((a.0 + pow2(a.1)) * pi <= b.0 * pi) by (nonlinear_arith)
                requires
                    a.0 + pow2(a.1) <= b.0,
                    pi > 0,
            ;
            assert((a.0 + pow2(a.1)) * pi == a.0 * pi + pow2(a.1) * pi) by (nonlinear_arith);
        } else {
            assert(b.0 + pow2(b.1) <= a.0);
            assert((b.0 + pow2(b.1)) * pi <= a.0 * pi) by (nonlinear_arith)
                requires
                    b.0 + pow2(b.1) <= a.0,
                    pi > 0,
            ;
            assert((b.0 + pow2(b.1)) * pi == b.0 * pi + pow2(b.1) * pi) by (nonlinear_arith);
        }
    } else {
        assert(zones_ranges_disjoint(zi, zj));
        assert((a.0 + pow2(a.1)) * pi <= zi.spec_pages_count() as int * pi) by (nonlinear_arith)
            requires
                a.0 + pow2(a.1) <= zi.spec_pages_count() as int,
                pi > 0,
        ;
        assert((b.0 + pow2(b.1)) * pi <= zj.spec_pages_count() as int * pi) by (nonlinear_arith)
            requires
                b.0 + pow2(b.1) <= zj.spec_pages_count() as int,
                pi > 0,
        ;
        assert((a.0 + pow2(a.1)) * pi == a.0 * pi + pow2(a.1) * pi) by (nonlinear_arith);
        assert((b.0 + pow2(b.1)) * pi == b.0 * pi + pow2(b.1) * pi) by (nonlinear_arith);
        assert(a.0 * pi >= 0 && b.0 * pi >= 0) by (nonlinear_arith)
            requires
                pi > 0,
        ;
    }
}

/// Law: when a well-formed zone has no free block left in any bucket --
/// which is exactly when an allocation of order zero reports that memory
/// is exhausted -- the zone is consumed entirely: the allocated-pages
/// counter equals the zone's total page count, and the live blocks cover
/// every page.
pub proof fn lemma_exhaustion(z: Zone)
    requires
        z.wf(),
        !z.has_free(0),
    ensures
        z.spec_allocated_pages() == z.spec_pages_count(),
        forall|p: nat| p < z.spec_pages_count() ==> #[trigger] covered_by(z.live_blocks(), p),
{
    assert forall|o: int| 0 <= o < BUCKETS_COUNT as int
        implies (#[trigger] z.buckets@[o]).len() == 0 by {
        assert(z.head_ok(o));
        if !(z.spec_free_list()[o] is None) {
            assert(z.has_free(0));
        }
    }
    lemma_buckets_pages_zero(z.buckets@, BUCKETS_COUNT as int);
    assert(z.free_pages() == 0);
    assert forall|p: nat| p < z.spec_pages_count()
        implies #[trigger] covered_by(z.live_blocks(), p) by {
        assert(covered_by(z.all_blocks().union(Set::empty()), p));
        let c = choose|c: (nat, nat)|
            z.all_blocks().union(Set::<(nat, nat)>::empty()).contains(c)
                && #[trigger] block_contains(c.0, c.1, p);
        if z.free_blocks().contains(c) {
            assert(z.is_free_frame(c.0 as int));
            assert(z.listed(c.0 as int));
            let (o2, k2): (int, int) = choose|o2: int, k2: int|
                0 <= o2 < BUCKETS_COUNT as int && 0 <= k2 < z.buckets@[o2].len()
                    && #[trigger] z.buckets@[o2][k2] == c.0 as int;
            assert(z.buckets@[o2].len() == 0);
            assert(false);
        }
        assert(z.live_blocks().contains(c));
    }
}

/// Law: splitting a block of order `k` down to order `j` and then
/// coalescing the bottom block back over exactly the released sibling
/// blocks reconstructs a single block of order `k` at the original base.
pub proof fn lemma_split_coalesce_inverse(n: nat, id: nat, k: nat, j: nat)
    requires
        j <= k <= MAX_ORDER as nat,
        id % pow2(k) == 0,
        id + pow2(k) <= n,
    ensures
        coalesced_block(split_remnants(id, k, j), n, id, j) == (id, k),
        coalesced_absorbed(split_remnants(id, k, j), n, id, j) == split_remnants(id, k, j),
    decreases k - j,
{
    let sr = split_remnants(id, k, j);
    if j == k {
        assert(sr =~= Set::<(nat, nat)>::empty());
        assert(!sr.contains((buddy_of(id, j), j)));
    } else {
        lemma_pow2_align_down(id, k, j + 1);
        lemma_pow2_align_down(id, k, j);
        lemma_pow2_pos(j);
        lemma_pow2_strictly_increases(j, k);
        assert(buddy_of(id, j) == id + pow2(j));
        assert(sr.contains((id + pow2(j), j)));
        assert(id + pow2(j) < n);
        assert(sr.remove((id + pow2(j), j)) =~= split_remnants(id, k, j + 1));
        assert(merge_base(id, j) == id);
        lemma_split_coalesce_inverse(n, id, k, j + 1);
        assert(coalesced_absorbed(sr, n, id, j) =~= sr);
    }
}

/// Law: allocating a block and freeing it again returns its zone's
/// allocated-pages counter to its starting value and leaves the same
/// blocks live, so alternating allocations and frees of matching orders
/// end where they began.
pub proof fn lemma_alloc_free_round_trip(
    z0: Zone,
    z1: Zone,
    z2: Zone,
    order: FrameOrder,
    ptr: usize,
)
    requires
        alloc_zone_post(z0, z1, order, ptr),
        free_zone_post(z1, z2, order, ptr),
    ensures
        z2.spec_allocated_pages() == z0.spec_allocated_pages(),
        z2.live_blocks() == z0.live_blocks(),
{
    let id = ((ptr - z0.spec_begin()) as int / PAGE_SIZE as int) as nat;
    assert(z2.live_blocks() =~= z0.live_blocks());
}

/// Law: an address inside the kernel zone of an allocator laid out by
/// `init` -- user and DMA zones empty, the kernel zone second -- is owned
/// by that kernel zone, so a caller can discharge `free`'s precondition
/// for any block the allocator handed out.
pub proof fn lemma_kernel_zone_owns(a: BuddyAllocator, ptr: usize)
    requires
        a.zs().len() == ZONES_COUNT as int,
        a.zs()[0].spec_pages_count() == 0,
        a.zs()[1].contains_ptr(ptr),
    ensures
        a.owner_zone_idx(ptr) == Option::<int>::Some(1int),
{
    assert(!a.zs()[0].contains_ptr(ptr)) by {
        assert(zone_end(a.zs()[0]) == a.zs()[0].spec_begin());
    }
    assert(first_zone_of_ptr(a.zs(), ptr, 1) == Option::<int>::Some(1int));
}

/// Law: when a zone's free memory is the single block of order `k` based
/// at `id`, carving an order-`j` piece out of it leaves exactly the
/// released sibling halves free -- the free-set change `alloc_frame`
/// publishes -- and freeing that piece coalesces them all back into the
/// original block -- the free-set change `free` publishes. One allocation
/// and one free over a lone block are therefore the identity on the
/// zone's free blocks.
pub proof fn lemma_split_coalesce_run(n: nat, id: nat, k: nat, j: nat)
    requires
        j <= k <= MAX_ORDER as nat,
        id % pow2(k) == 0,
        id + pow2(k) <= n,
    ensures
        ({
            let after_alloc = set![(id, k)].remove((id, k)).union(split_remnants(id, k, j));
            after_alloc.difference(coalesced_absorbed(after_alloc, n, id, j)).insert(
                coalesced_block(after_alloc, n, id, j),
            ) == set![(id, k)]
        }),
{
    let sr = split_remnants(id, k, j);
    assert(set![(id, k)].remove((id, k)).union(sr) =~= sr);
    lemma_split_coalesce_inverse(n, id, k, j);
    assert(sr.difference(coalesced_absorbed(sr, n, id, j)).insert(
        coalesced_block(sr, n, id, j),
    ) =~= set![(id, k)]);
}

/// The block that an allocation or a free at address `ptr` with the given
/// order concerns, in a zone based at `begin`.
pub open spec fn block_at(begin: usize, ptr: usize, order: FrameOrder) -> (nat, nat) {
    (((ptr - begin) as int / PAGE_SIZE as int) as nat, order as nat)
}

/// All states of a run of `n` allocations followed by `n` frees share the
/// zone's base address.
#[verifier::rlimit(100)]
proof fn lemma_chain_begin_upto(
    states: Seq<Zone>,
    orders: Seq<FrameOrder>,
    ptrs: Seq<usize>,
    k: int,
)
    requires
        orders.len() == ptrs.len(),
        states.len() == 2 * orders.len() + 1,
        forall|i: int|
            #![trigger ptrs[i]]
            0 <= i < orders.len() ==> alloc_zone_post(
                states[i],
                states[i + 1],
                orders[i],
                ptrs[i],
            ),
        forall|i: int|
            #![trigger ptrs[orders.len() - 1 - i]]
            0 <= i < orders.len() ==> free_zone_post(
                states[orders.len() + i],
                states[orders.len() + i + 1],
                orders[orders.len() - 1 - i],
                ptrs[orders.len() - 1 - i],
            ),
        0 <= k < states.len(),
    ensures
        states[k].spec_begin() == states[0].spec_begin(),
    decreases k,
{
    if k > 0 {
        lemma_chain_begin_upto(states, orders, ptrs, k - 1);
        let n = orders.len() as int;
        if k - 1 < n {
            assert(alloc_zone_post(states[k - 1], states[k], orders[k - 1], ptrs[k - 1]));
        } else {
            assert(free_zone_post(
                states[k - 1],
                states[k],
                orders[n - 1 - (k - 1 - n)],
                ptrs[n - 1 - (k - 1 - n)],
            ));
        }
    }
}

/// Law: a run of allocations followed by frees of the same blocks, with
/// matching orders, in reverse (last-in first-out) order, returns the
/// zone's allocated-pages counter and live set exactly to their starting
/// values. The states are the zone after each step; step `i` of the first
/// half allocates block `i`, step `i` of the second half frees block
/// `n - 1 - i`.
pub proof fn lemma_round_trip_lifo(states: Seq<Zone>, orders: Seq<FrameOrder>, ptrs: Seq<usize>)
    requires
        orders.len() == ptrs.len(),
        states.len() == 2 * orders.len() + 1,
        forall|i: int|
            #![trigger ptrs[i]]
            0 <= i < orders.len() ==> alloc_zone_post(
                states[i],
                states[i + 1],
                orders[i],
                ptrs[i],
            ),
        forall|i: int|
            #![trigger ptrs[orders.len() - 1 - i]]
            0 <= i < orders.len() ==> free_zone_post(
                states[orders.len() + i],
                states[orders.len() + i + 1],
                orders[orders.len() - 1 - i],
                ptrs[orders.len() - 1 - i],
            ),
    ensures
        states.last().spec_allocated_pages() == states[0].spec_allocated_pages(),
        states.last().live_blocks() == states[0].live_blocks(),
{
    let n = orders.len() as int;
    lemma_round_trip_lifo_inner(states, orders, ptrs, n);
}

/// The inner `j` alloc/free pairs of a last-in first-out run cancel out.
#[verifier::rlimit(100)]
proof fn lemma_round_trip_lifo_inner(
    states: Seq<Zone>,
    orders: Seq<FrameOrder>,
    ptrs: Seq<usize>,
    j: int,
)
    requires
        orders.len() == ptrs.len(),
        states.len() == 2 * orders.len() + 1,
        forall|i: int|
            #![trigger ptrs[i]]
            0 <= i < orders.len() ==> alloc_zone_post(
                states[i],
                states[i + 1],
                orders[i],
                ptrs[i],
            ),
        forall|i: int|
            #![trigger ptrs[orders.len() - 1 - i]]
            0 <= i < orders.len() ==> free_zone_post(
                states[orders.len() + i],
                states[orders.len() + i + 1],
                orders[orders.len() - 1 - i],
                ptrs[orders.len() - 1 - i],
            ),
        0 <= j <= orders.len(),
    ensures
        states[orders.len() + j].spec_allocated_pages() == states[orders.len()
            - j].spec_allocated_pages(),
        states[orders.len() + j].live_blocks() == states[orders.len() - j].live_blocks(),
    decreases j,
{
    let n = orders.len() as int;
    if j > 0 {
        lemma_round_trip_lifo_inner(states, orders, ptrs, j - 1);
        // The free at position j - 1 undoes the allocation at the mirrored
        // position, whose block it names at the same zone base. Naming the
        // hypothesis's own index form brings the step's contract in.
        let i0 = j - 1;
        assert(ptrs[orders.len() - 1 - i0] == ptrs[n - j]);
        assert(free_zone_post(
            states[n + j - 1],
            states[n + j],
            orders[n - j],
            ptrs[n - j],
        ));
        assert(alloc_zone_post(states[n - j], states[n - j + 1], orders[n - j], ptrs[n - j]));
        lemma_chain_begin_upto(states, orders, ptrs, n + j - 1);
        lemma_chain_begin_upto(states, orders, ptrs, n - j);
        let b = block_at(states[0].spec_begin(), ptrs[n - j], orders[n - j]);
        assert(states[n + j].live_blocks() =~= states[n - j].live_blocks());
    }
}

/// Total pages of the first `upto` blocks of a run of allocations.
pub open spec fn blocks_pages_sum(orders: Seq<FrameOrder>, upto: int) -> nat
    decreases upto,
{
    if upto <= 0 {
        0
    } else {
        blocks_pages_sum(orders, upto - 1) + pow2(orders[upto - 1] as nat)
    }
}

/// The blocks numbered `lo` to `hi` (exclusive) of a run of allocations at
/// the given zone base.
pub open spec fn run_blocks(
    begin: usize,
    orders: Seq<FrameOrder>,
    ptrs: Seq<usize>,
    lo: int,
    hi: int,
) -> Set<(nat, nat)> {
    Set::new(
        |b: (nat, nat)|
            exists|j: int| lo <= j < hi && b == #[trigger] block_at(begin, ptrs[j], orders[j]),
    )
}

/// All states of a run of `n` allocations followed by `n` frees in the
/// original (first-in first-out) order share the zone's base address, and
/// the allocation prefix grows the counter and the live set block by
/// block.
#[verifier::rlimit(100)]
proof fn lemma_fifo_alloc_prefix(
    states: Seq<Zone>,
    orders: Seq<FrameOrder>,
    ptrs: Seq<usize>,
    k: int,
)
    requires
        orders.len() == ptrs.len(),
        states.len() == 2 * orders.len() + 1,
        forall|i: int|
            #![trigger ptrs[i]]
            0 <= i < orders.len() ==> alloc_zone_post(
                states[i],
                states[i + 1],
                orders[i],
                ptrs[i],
            ),
        0 <= k <= orders.len(),
    ensures
        states[k].spec_begin() == states[0].spec_begin(),
        states[k].spec_allocated_pages() == states[0].spec_allocated_pages()
            + blocks_pages_sum(orders, k),
        states[k].live_blocks() == states[0].live_blocks().union(
            run_blocks(states[0].spec_begin(), orders, ptrs, 0, k),
        ),
    decreases k,
{
    let begin = states[0].spec_begin();
    if k == 0 {
        assert(states[0].live_blocks() =~= states[0].live_blocks().union(
            run_blocks(begin, orders, ptrs, 0, 0),
        ));
    } else {
        lemma_fifo_alloc_prefix(states, orders, ptrs, k - 1);
        // Naming the hypothesis's own index form brings the step in.
        let i0 = k - 1;
        assert(ptrs[i0] == ptrs[k - 1]);
        assert(alloc_zone_post(states[k - 1], states[k], orders[k - 1], ptrs[k - 1]));
        let b = block_at(begin, ptrs[k - 1], orders[k - 1]);
        assert forall|x: (nat, nat)| states[k].live_blocks().contains(x)
            implies states[0].live_blocks().union(
            run_blocks(begin, orders, ptrs, 0, k),
        ).contains(x) by {
            if x != b && run_blocks(begin, orders, ptrs, 0, k - 1).contains(x) {
                let j = choose|j: int|
                    0 <= j < k - 1 && x == #[trigger] block_at(begin, ptrs[j], orders[j]);
                assert(run_blocks(begin, orders, ptrs, 0, k).contains(x));
            }
        }
        assert forall|x: (nat, nat)| states[0].live_blocks().union(
            run_blocks(begin, orders, ptrs, 0, k),
        ).contains(x) implies states[k].live_blocks().contains(x) by {
            if run_blocks(begin, orders, ptrs, 0, k).contains(x) {
                let j = choose|j: int|
                    0 <= j < k && x == #[trigger] block_at(begin, ptrs[j], orders[j]);
                if j < k - 1 {
                    assert(run_blocks(begin, orders, ptrs, 0, k - 1).contains(x));
                }
            }
        }
        assert(states[k].live_blocks() =~= states[0].live_blocks().union(
            run_blocks(begin, orders, ptrs, 0, k),
        ));
    }
}

/// Law: a run of allocations followed by frees of the same blocks, with
/// matching orders, in the original (first-in first-out) order, returns
/// the zone's allocated-pages counter and live set exactly to their
/// starting values. Step `i` of each half concerns block `i`.
pub proof fn lemma_round_trip_fifo(states: Seq<Zone>, orders: Seq<FrameOrder>, ptrs: Seq<usize>)
    requires
        orders.len() == ptrs.len(),
        states.len() == 2 * orders.len() + 1,
        forall|i: int|
            #![trigger ptrs[i]]
            0 <= i < orders.len() ==> alloc_zone_post(
                states[i],
                states[i + 1],
                orders[i],
                ptrs[i],
            ),
        forall|i: int|
            #![trigger orders[i]]
            0 <= i < orders.len() ==> free_zone_post(
                states[orders.len() + i],
                states[orders.len() + i + 1],
                orders[i],
                ptrs[i],
            ),
    ensures
        states.last().spec_allocated_pages() == states[0].spec_allocated_pages(),
        states.last().live_blocks() == states[0].live_blocks(),
{
    let n = orders.len() as int;
    lemma_fifo_alloc_prefix(states, orders, ptrs, n);
    lemma_fifo_free_prefix(states, orders, ptrs, n);
    assert(run_blocks(states[0].spec_begin(), orders, ptrs, n, n)
        =~= Set::<(nat, nat)>::empty());
    assert(states[2 * n].live_blocks() =~= states[0].live_blocks());
}

/// After `k` frees of a first-in first-out run, exactly the blocks from
/// `k` on are still live, and the counter has dropped by their pages.
#[verifier::rlimit(100)]
proof fn lemma_fifo_free_prefix(
    states: Seq<Zone>,
    orders: Seq<FrameOrder>,
    ptrs: Seq<usize>,
    k: int,
)
    requires
        orders.len() == ptrs.len(),
        states.len() == 2 * orders.len() + 1,
        forall|i: int|
            #![trigger ptrs[i]]
            0 <= i < orders.len() ==> alloc_zone_post(
                states[i],
                states[i + 1],
                orders[i],
                ptrs[i],
            ),
        forall|i: int|
            #![trigger orders[i]]
            0 <= i < orders.len() ==> free_zone_post(
                states[orders.len() + i],
                states[orders.len() + i + 1],
                orders[i],
                ptrs[i],
            ),
        0 <= k <= orders.len(),
    ensures
        states[orders.len() + k].spec_begin() == states[0].spec_begin(),
        states[orders.len() + k].spec_allocated_pages() + blocks_pages_sum(orders, k)
            == states[orders.len() as int].spec_allocated_pages(),
        states[orders.len() + k].live_blocks() == states[0].live_blocks().union(
            run_blocks(states[0].spec_begin(), orders, ptrs, k, orders.len() as int),
        ),
    decreases k,
{
    let n = orders.len() as int;
    let begin = states[0].spec_begin();
    if k == 0 {
        lemma_fifo_alloc_prefix(states, orders, ptrs, n);
    } else {
        lemma_fifo_free_prefix(states, orders, ptrs, k - 1);
        // Naming the hypothesis's own index form brings the step in.
        let i0 = k - 1;
        assert(orders[i0] == orders[k - 1]);
        assert(free_zone_post(states[n + k - 1], states[n + k], orders[k - 1], ptrs[k - 1]));
        let b = block_at(begin, ptrs[k - 1], orders[k - 1]);
        // The freed block is distinct from every block still to be freed:
        // each was fresh against all earlier ones when it was allocated.
        assert forall|j: int| k <= j < n
            implies #[trigger] block_at(begin, ptrs[j], orders[j]) != b by {
            lemma_fifo_alloc_prefix(states, orders, ptrs, j);
            assert(alloc_zone_post(states[j], states[j + 1], orders[j], ptrs[j]));
            assert(run_blocks(begin, orders, ptrs, 0, j).contains(b));
        }
        // The freed block is not live at the start either.
        assert(!states[0].live_blocks().contains(b)) by {
            lemma_fifo_alloc_prefix(states, orders, ptrs, k - 1);
            assert(ptrs[i0] == ptrs[k - 1]);
            assert(alloc_zone_post(states[k - 1], states[k], orders[k - 1], ptrs[k - 1]));
        }
        assert forall|x: (nat, nat)| states[n + k].live_blocks().contains(x)
            implies states[0].live_blocks().union(
            run_blocks(begin, orders, ptrs, k, n),
        ).contains(x) by {
            if run_blocks(begin, orders, ptrs, k - 1, n).contains(x) {
                let j = choose|j: int|
                    k - 1 <= j < n && x == #[trigger] block_at(begin, ptrs[j], orders[j]);
                if j >= k {
                    assert(run_blocks(begin, orders, ptrs, k, n).contains(x));
                }
            }
        }
        assert forall|x: (nat, nat)| states[0].live_blocks().union(
            run_blocks(begin, orders, ptrs, k, n),
        ).contains(x) implies states[n + k].live_blocks().contains(x) by {
            if run_blocks(begin, orders, ptrs, k, n).contains(x) {
                let j = choose|j: int|
                    k <= j < n && x == #[trigger] block_at(begin, ptrs[j], orders[j]);
                assert(run_blocks(begin, orders, ptrs, k - 1, n).contains(x));
                assert(x != b);
            } else {
                assert(x != b);
                assert(run_blocks(begin, orders, ptrs, k - 1, n).contains(x)
                    || states[0].live_blocks().contains(x));
            }
        }
        assert(states[n + k].live_blocks() =~= states[0].live_blocks().union(
            run_blocks(begin, orders, ptrs, k, n),
        ));
    }
}

/// Translates a physical kernel-zone address to a kernel-virtual address.
pub fn kern_to_virt(ptr: usize) -> (r: usize)
    requires
        ptr + KERNEL_VIRT_OFFSET <= usize::MAX,
    ensures
        r == ptr + KERNEL_VIRT_OFFSET,
{
    ptr + KERNEL_VIRT_OFFSET
}

/// Translates a kernel-virtual address back to its physical address.
pub fn kern_to_phys(ptr: usize) -> (r: usize)
    requires
        ptr >= KERNEL_VIRT_OFFSET,
    ensures
        r == ptr - KERNEL_VIRT_OFFSET,
{
    ptr - KERNEL_VIRT_OFFSET
}

/// The buddy allocator: a fixed registry of zones, one per class,
/// constructed once at boot.
pub struct BuddyAllocator {
    /// The zones, in lookup order.
    zones: Vec<Zone>,
}

impl BuddyAllocator {
    /// The zones, as seen by contracts.
    pub closed spec fn zs(self) -> Seq<Zone> {
        self.zones@
    }

    /// Well-formedness: every zone is well formed, the zones' physical
    /// ranges are pairwise disjoint, and kernel zones lie below the limit
    /// that keeps their virtual translations in range.
    pub closed spec fn wf(self) -> bool {
        &&& self.zones@.len() == ZONES_COUNT as int
        &&& forall|i: int| 0 <= i < self.zones@.len() ==> (#[trigger] self.zones@[i]).wf()
        &&& forall|i: int, j: int|
            0 <= i < self.zones@.len() && 0 <= j < self.zones@.len() && i != j
                ==> zones_ranges_disjoint(#[trigger] self.zones@[i], #[trigger] self.zones@[j])
        &&& forall|i: int|
            0 <= i < self.zones@.len() && (#[trigger] self.zones@[i]).spec_class()
                == ZoneClass::Kernel ==> zone_end(self.zones@[i]) <= KERNEL_ZONE_LIMIT as int
    }

    /// Index of the first zone matching the given class.
    pub open spec fn suitable_zone_idx(self, class: ZoneClass) -> Option<int> {
        first_zone_of_class(self.zs(), class, 0)
    }

    /// Index of the zone owning the given physical address.
    pub open spec fn owner_zone_idx(self, ptr: usize) -> Option<int> {
        first_zone_of_ptr(self.zs(), ptr, 0)
    }

    /// Returns the index of the first zone suitable for an allocation of
    /// the given class.
    fn get_suitable_zone(&self, class: ZoneClass) -> (r: Option<usize>)
        requires
            self.wf(),
        ensures
            match r {
                Option::None => self.suitable_zone_idx(class) is None,
                Option::Some(i) => self.suitable_zone_idx(class) == Option::Some(i as int)
                    && i < ZONES_COUNT,
            },
    {
        let mut i: usize = 0;
        while i < ZONES_COUNT
            invariant
                self.wf(),
                i <= ZONES_COUNT,
                first_zone_of_class(self.zs(), class, 0) == first_zone_of_class(
                    self.zs(),
                    class,
                    i as int,
                ),
            decreases ZONES_COUNT - i,
        {
            if self.zones[i].class == class {
                return Option::Some(i);
            }
            i = i + 1;
        }
        Option::None
    }

    /// Returns the index of the zone that contains the given physical
    /// address.
    fn get_zone_for_pointer(&self, ptr: usize) -> (r: Option<usize>)
        requires
            self.wf(),
        ensures
            match r {
                Option::None => self.owner_zone_idx(ptr) is None,
                Option::Some(i) => self.owner_zone_idx(ptr) == Option::Some(i as int)
                    && i < ZONES_COUNT,
            },
    {
        let mut i: usize = 0;
        while i < ZONES_COUNT
            invariant
                self.wf(),
                i <= ZONES_COUNT,
                first_zone_of_ptr(self.zs(), ptr, 0) == first_zone_of_ptr(
                    self.zs(),
                    ptr,
                    i as int,
                ),
            decreases ZONES_COUNT - i,
        {
            let z = &self.zones[i];
            let zb = z.begin;
            if ptr >= zb && ptr - zb < z.get_size() {
                return Option::Some(i);
            }
            i = i + 1;
        }
        Option::None
    }

    /// Allocates a frame of memory of `2^order` pages in the zone matching
    /// the given class. On success the returned physical address is
    /// page-aligned, the allocated block lies entirely inside the matching
    /// zone, and the block is live until it is freed. The call fails with
    /// [`AllocError::NoSuitableZone`] exactly when no zone matches the
    /// class, and with [`AllocError::OutOfMemory`] exactly when the
    /// matching zone has no free block of sufficient order.
    pub fn alloc_frame(&mut self, order: FrameOrder, class: ZoneClass) -> (r: Result<
        usize,
        AllocError,
    >)
        requires
            old(self).wf(),
            order <= MAX_ORDER,
        ensures
            final(self).wf(),
            match r {
                Result::Err(e) => final(self).zs() == old(self).zs() && (match e {
                    AllocError::NoSuitableZone => old(self).suitable_zone_idx(class) is None,
                    AllocError::OutOfMemory => {
                        &&& old(self).suitable_zone_idx(class) is Some
                        &&& !old(self).zs()[old(self).suitable_zone_idx(class).unwrap()]
                            .has_free(order)
                    },
                }),
                Result::Ok(ptr) => {
                    let zi = old(self).suitable_zone_idx(class).unwrap();
                    let z0 = old(self).zs()[zi];
                    let id = ((ptr - z0.spec_begin()) as int / PAGE_SIZE as int) as FrameID;
                    &&& old(self).suitable_zone_idx(class) is Some
                    &&& z0.has_free(order)
                    &&& final(self).zs().len() == old(self).zs().len()
                    &&& (forall|j: int|
                        0 <= j < old(self).zs().len() && j != zi
                            ==> final(self).zs()[j] == old(self).zs()[j])
                    &&& alloc_zone_post(z0, final(self).zs()[zi], order, ptr)
                    // The served block is deterministic: the head of the
                    // first non-empty bucket of sufficient order is taken,
                    // and the free set loses it and gains the upper halves
                    // cut off while splitting it down.
                    &&& exists|o: int|
                        order as int <= o < BUCKETS_COUNT as int
                            && #[trigger] z0.spec_free_list()[o] == Option::Some(id) && (forall|
                            o2: int,
                        | order as int <= o2 < o ==> z0.spec_free_list()[o2] is None)
                            && final(self).zs()[zi].free_blocks() == z0.free_blocks().remove(
                            (id as nat, o as nat),
                        ).union(split_remnants(id as nat, o as nat, order as nat))
                },
            },
    {
        let zi_opt = self.get_suitable_zone(class);
        match zi_opt {
            Option::None => Result::Err(AllocError::NoSuitableZone),
            Option::Some(zi) => {
                let mut z = Zone::placeholder();
                self.zones.set_and_swap(zi, &mut z);
                let ghost z0 = z;
                let frame_opt = z.get_available_frame(order);
                match frame_opt {
                    Option::None => {
                        self.zones.set_and_swap(zi, &mut z);
                        proof {
                            assert(self.zones@ =~= old(self).zones@);
                        }
                        Result::Err(AllocError::OutOfMemory)
                    },
                    Option::Some(f) => {
                        proof {
                            z0.lemma_free_valid(f as int);
                            lemma_pow2_pos(z0.fr(f as int).order as nat);
                            z0.lemma_free_disjoint();
                            z0.lemma_free_pages_le();
                        }
                        z.split(f, order);
                        let ghost z1 = z;
                        let pages = pow2_u32(order);
                        z.allocated_pages = z.allocated_pages + pages as usize;
                        proof {
                            z.live@ = z.live@.insert((f as nat, order as nat));
                            let b = (f as nat, order as nat);
                            z1.lemma_wf_lists_congruent(z);
                            assert forall|bl: (nat, nat)| #[trigger] z.live@.contains(bl)
                                implies z.valid_block(bl.0, bl.1)
                                    && z.fr(bl.0 as int).spec_is_used() by {
                                if bl != b {
                                    assert(z0.live@.contains(bl));
                                    assert(z1.live@.contains(bl));
                                }
                            }
                            assert(z.all_blocks().union(Set::empty())
                                =~= z1.all_blocks().union(set![b]));
                            assert(z0.wf());
                            assert(z1.free_pages() + pow2(order as nat) == z0.free_pages());
                            assert(z.free_pages() == z1.free_pages());
                            assert(z.allocated_pages as nat
                                == z0.allocated_pages as nat + pow2(order as nat));
                            assert(z.wf());
                        }
                        let ptr = z.get_ptr(f);
                        proof {
                            let pi = PAGE_SIZE as int;
                            vstd::arithmetic::div_mod::lemma_fundamental_div_mod_converse_div(
                                f as int * pi,
                                pi,
                                f as int,
                                0,
                            );
                            vstd::arithmetic::div_mod::lemma_add_mod_noop(
                                z0.spec_begin() as int,
                                f as int * pi,
                                pi,
                            );
                            vstd::arithmetic::div_mod::lemma_mod_multiples_basic(f as int, pi);
                            vstd::arithmetic::div_mod::lemma_small_mod(0, PAGE_SIZE as nat);
                            assert((f as int + pow2(order as nat)) * pi
                                <= z0.spec_pages_count() as int * pi) by (nonlinear_arith)
                                requires
                                    f as int + pow2(order as nat)
                                        <= z0.spec_pages_count() as int,
                                    pi > 0,
                            ;
                            assert((f as int + pow2(order as nat)) * pi
                                == f as int * pi + pow2(order as nat) * pi) by (nonlinear_arith);
                        }
                        self.zones.set_and_swap(zi, &mut z);
                        proof {
                            assert forall|i: int| 0 <= i < self.zones@.len()
                                implies (#[trigger] self.zones@[i]).wf() by {
                                if i != zi as int {
                                    assert(self.zones@[i] == old(self).zones@[i]);
                                }
                            }
                            assert forall|i: int, j: int|
                                0 <= i < self.zones@.len() && 0 <= j < self.zones@.len()
                                    && i != j
                                implies zones_ranges_disjoint(
                                #[trigger] self.zones@[i],
                                #[trigger] self.zones@[j],
                            ) by {
                                assert(zones_ranges_disjoint(
                                    old(self).zones@[i],
                                    old(self).zones@[j],
                                ));
                            }
                            assert forall|i: int|
                                0 <= i < self.zones@.len()
                                    && (#[trigger] self.zones@[i]).spec_class()
                                    == ZoneClass::Kernel
                                implies zone_end(self.zones@[i])
                                    <= KERNEL_ZONE_LIMIT as int by {
                                assert(zone_end(old(self).zones@[i])
                                    <= KERNEL_ZONE_LIMIT as int);
                            }
                            // The witness bucket: the first non-empty one,
                            // whose head carried the order it was split
                            // from.
                            let o = choose|o: int|
                                order as int <= o < BUCKETS_COUNT as int
                                    && #[trigger] z0.spec_free_list()[o] == Option::Some(f)
                                    && (forall|o2: int|
                                    order as int <= o2 < o ==> z0.spec_free_list()[
                                    o2] is None);
                            assert(z0.head_ok(o));
                            assert(z0.bucket_elem_ok(o, 0));
                            assert(self.zones@[zi as int].free_blocks()
                                == z0.free_blocks().remove((f as nat, o as nat)).union(
                                split_remnants(f as nat, o as nat, order as nat),
                            ));
                        }
                        Result::Ok(ptr)
                    },
                }
            },
        }
    }

    /// Frees the block of the given order at the given physical address,
    /// previously returned by an allocation of the same order. The block
    /// is coalesced with its free buddies and relinked into the free list;
    /// the owning zone's allocated-page counter shrinks by the block's
    /// page count. An address owned by no zone is silently ignored.
    pub fn free(&mut self, ptr: usize, order: FrameOrder)
        requires
            old(self).wf(),
            order <= MAX_ORDER,
            match old(self).owner_zone_idx(ptr) {
                Option::None => true,
                Option::Some(zi) => {
                    let z = old(self).zs()[zi];
                    &&& ptr as int % PAGE_SIZE as int == 0
                    &&& z.live_blocks().contains(
                        (
                            ((ptr - z.spec_begin()) as int / PAGE_SIZE as int) as nat,
                            order as nat,
                        ),
                    )
                },
            },
        ensures
            final(self).wf(),
            match old(self).owner_zone_idx(ptr) {
                Option::None => final(self).zs() == old(self).zs(),
                Option::Some(zi) => {
                    &&& final(self).zs().len() == old(self).zs().len()
                    &&& (forall|j: int|
                        0 <= j < old(self).zs().len() && j != zi
                            ==> final(self).zs()[j] == old(self).zs()[j])
                    &&& free_zone_post(old(self).zs()[zi], final(self).zs()[zi], order, ptr)
                },
            },
    {
        let zi_opt = self.get_zone_for_pointer(ptr);
        match zi_opt {
            Option::None => {},
            Option::Some(zi) => {
                proof {
                    lemma_first_zone_of_ptr(old(self).zs(), ptr, 0, zi as int);
                }
                let mut z = Zone::placeholder();
                self.zones.set_and_swap(zi, &mut z);
                let ghost z0 = z;
                let id = z.get_frame_id_from_ptr(ptr);
                let ghost b = (id as nat, order as nat);
                proof {
                    assert(z.live@.contains(b));
                    lemma_pow2_pos(order as nat);
                    assert forall|fb: (nat, nat)| #[trigger] z.free_blocks().contains(fb)
                        implies !blocks_overlap(fb, b) by {
                        let all = z.all_blocks().union(Set::<(nat, nat)>::empty());
                        assert(all.contains(fb));
                        assert(all.contains(b));
                        if fb == b {
                            assert(z.is_free_frame(b.0 as int));
                            assert(false);
                        }
                    }
                    assert(!z.free_blocks().contains(b));
                    z.lemma_free_disjoint();
                    z.lemma_free_pages_bound(b);
                }
                let pages = pow2_u32(order);
                z.allocated_pages = z.allocated_pages - pages as usize;
                proof {
                    z.live@ = z.live@.remove(b);
                    z0.lemma_wf_lists_congruent(z);
                    assert forall|bl: (nat, nat)| #[trigger] z.live@.contains(bl)
                        implies z.valid_block(bl.0, bl.1)
                            && z.fr(bl.0 as int).spec_is_used() by {
                        assert(z0.live@.contains(bl));
                    }
                    assert(z.all_blocks().union(set![b])
                        =~= z0.all_blocks().union(Set::empty()));
                    assert forall|bl: (nat, nat)| #[trigger] z.live@.contains(bl)
                        implies !blocks_overlap(bl, b) by {
                        let all0 = z0.all_blocks().union(Set::<(nat, nat)>::empty());
                        assert(z0.live@.contains(bl));
                        assert(all0.contains(bl));
                        assert(all0.contains(b));
                        assert(bl != b);
                    }
                }
                let _coalesced = z.coalesce(id, order);
                self.zones.set_and_swap(zi, &mut z);
                proof {
                    assert forall|i: int| 0 <= i < self.zones@.len()
                        implies (#[trigger] self.zones@[i]).wf() by {
                        if i != zi as int {
                            assert(self.zones@[i] == old(self).zones@[i]);
                        }
                    }
                    assert forall|i: int, j: int|
                        0 <= i < self.zones@.len() && 0 <= j < self.zones@.len() && i != j
                        implies zones_ranges_disjoint(
                        #[trigger] self.zones@[i],
                        #[trigger] self.zones@[j],
                    ) by {
                        assert(zones_ranges_disjoint(old(self).zones@[i], old(self).zones@[j]));
                    }
                    assert forall|i: int|
                        0 <= i < self.zones@.len() && (#[trigger] self.zones@[i]).spec_class()
                            == ZoneClass::Kernel
                        implies zone_end(self.zones@[i]) <= KERNEL_ZONE_LIMIT as int by {
                        assert(zone_end(old(self).zones@[i]) <= KERNEL_ZONE_LIMIT as int);
                    }
                }
            },
        }
    }

    /// Allocates a frame in the kernel zone with the given order and
    /// returns its kernel-virtual address.
    pub fn alloc_kernel(&mut self, order: FrameOrder) -> (r: Result<usize, AllocError>)
        requires
            old(self).wf(),
            order <= MAX_ORDER,
        ensures
            final(self).wf(),
            match r {
                Result::Err(e) => final(self).zs() == old(self).zs() && (match e {
                    AllocError::NoSuitableZone => old(self).suitable_zone_idx(
                        ZoneClass::Kernel,
                    ) is None,
                    AllocError::OutOfMemory => {
                        &&& old(self).suitable_zone_idx(ZoneClass::Kernel) is Some
                        &&& !old(self).zs()[old(self).suitable_zone_idx(
                            ZoneClass::Kernel,
                        ).unwrap()].has_free(order)
                    },
                }),
                Result::Ok(virt) => {
                    let zi = old(self).suitable_zone_idx(ZoneClass::Kernel).unwrap();
                    &&& old(self).suitable_zone_idx(ZoneClass::Kernel) is Some
                    &&& virt >= KERNEL_VIRT_OFFSET
                    &&& final(self).zs().len() == old(self).zs().len()
                    &&& (forall|j: int|
                        0 <= j < old(self).zs().len() && j != zi
                            ==> final(self).zs()[j] == old(self).zs()[j])
                    &&& alloc_zone_post(
                        old(self).zs()[zi],
                        final(self).zs()[zi],
                        order,
                        (virt - KERNEL_VIRT_OFFSET) as usize,
                    )
                },
            },
    {
        let r = self.alloc_frame(order, ZoneClass::Kernel);
        match r {
            Result::Err(e) => Result::Err(e),
            Result::Ok(ptr) => {
                proof {
                    let zi = old(self).suitable_zone_idx(ZoneClass::Kernel).unwrap();
                    lemma_first_zone_of_class(old(self).zs(), ZoneClass::Kernel, 0, zi);
                    lemma_pow2_pos(order as nat);
                    assert(pow2(order as nat) * PAGE_SIZE >= PAGE_SIZE) by (nonlinear_arith)
                        requires
                            pow2(order as nat) >= 1,
                    ;
                    assert(zone_end(old(self).zs()[zi]) <= KERNEL_ZONE_LIMIT as int);
                }
                Result::Ok(kern_to_virt(ptr))
            },
        }
    }

    /// Frees the frame at the given kernel-virtual address with the given
    /// order: translates the address back to its physical counterpart and
    /// frees that.
    pub fn free_kernel(&mut self, ptr: usize, order: FrameOrder)
        requires
            old(self).wf(),
            order <= MAX_ORDER,
            ptr >= KERNEL_VIRT_OFFSET,
            match old(self).owner_zone_idx((ptr - KERNEL_VIRT_OFFSET) as usize) {
                Option::None => true,
                Option::Some(zi) => {
                    let z = old(self).zs()[zi];
                    let phys = (ptr - KERNEL_VIRT_OFFSET) as usize;
                    &&& phys as int % PAGE_SIZE as int == 0
                    &&& z.live_blocks().contains(
                        (
                            ((phys - z.spec_begin()) as int / PAGE_SIZE as int) as nat,
                            order as nat,
                        ),
                    )
                },
            },
        ensures
            final(self).wf(),
            match old(self).owner_zone_idx((ptr - KERNEL_VIRT_OFFSET) as usize) {
                Option::None => final(self).zs() == old(self).zs(),
                Option::Some(zi) => {
                    &&& final(self).zs().len() == old(self).zs().len()
                    &&& (forall|j: int|
                        0 <= j < old(self).zs().len() && j != zi
                            ==> final(self).zs()[j] == old(self).zs()[j])
                    &&& free_zone_post(
                        old(self).zs()[zi],
                        final(self).zs()[zi],
                        order,
                        (ptr - KERNEL_VIRT_OFFSET) as usize,
                    )
                },
            },
    {
        let phys = kern_to_phys(ptr);
        self.free(phys, order);
    }

    /// Returns the total number of pages currently allocated across every
    /// zone. The counters are read one zone at a time, so the figure is a
    /// diagnostic aggregate, not a cross-zone snapshot.
    pub fn allocated_pages(&self) -> (r: usize)
        requires
            self.wf(),
        ensures
            r == zones_allocated_upto(self.zs(), self.zs().len() as int),
    {
        let mut n: usize = 0;
        let mut i: usize = 0;
        while i < ZONES_COUNT
            invariant
                self.wf(),
                i <= ZONES_COUNT,
                n == zones_allocated_upto(self.zs(), i as int),
                n <= i * (MAX_ZONE_PAGES as usize),
            decreases ZONES_COUNT - i,
        {
            proof {
                assert(self.zones@[i as int].wf());
                assert((i + 1) * (MAX_ZONE_PAGES as int) == i * (MAX_ZONE_PAGES as int)
                    + MAX_ZONE_PAGES as int) by (nonlinear_arith);
            }
            n = n + self.zones[i].get_allocated_pages();
            i = i + 1;
        }
        n
    }
}

} // verus!

