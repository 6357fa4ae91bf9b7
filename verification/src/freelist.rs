use crate::allocator::Alloc;
use crate::allocator::AllocErr;
use crate::extent::covered;
use crate::extent::extents_wf;
use crate::extent::lemma_extents_ordered;
use crate::extent::lemma_unique_decomposition;
use crate::extent::Extent;
use crate::layout::is_power_of_two;
use crate::layout::lemma_align_up_props;
use crate::layout::lemma_align_up_unique;
use crate::layout::lemma_positive_multiple;
use crate::layout::spec_align_up;
use crate::layout::Layout;
use crate::memory::Block;
use crate::memory::Memory;
use crate::memory::Node;
use crate::typed_ptr::TypedPtr;
use vstd::prelude::*;

verus! {

/// Footprint, in addresses of the managed space, of an in-band free-list
/// node: two 16-bit address words (`max` and `next`).
pub const NODE_SIZE: usize = 4;

/// Alignment, in the managed space, of an in-band free-list node.
pub const NODE_ALIGN: usize = 2;

/// Footprint, in addresses of the managed space, of a block trailer: two
/// 16-bit address words (`start` and `end`).
pub const BLOCK_SIZE: usize = 4;

/// Alignment, in the managed space, of a block trailer.
pub const BLOCK_ALIGN: usize = 2;

/// First address of the user data when an extent starting at `lo` is carved
/// for `layout`.
pub open spec fn spec_data_start(lo: int, layout: Layout) -> int {
    spec_align_up(lo, layout.align as int)
}

/// First address of the block trailer written just past the user data.
pub open spec fn spec_trailer_start(lo: int, layout: Layout) -> int {
    spec_align_up(spec_data_start(lo, layout) + layout.size, BLOCK_ALIGN as int)
}

/// First address past the whole footprint (padding, data, trailer padding,
/// trailer), rounded so a free node could start there.
pub open spec fn spec_tail_start(lo: int, layout: Layout) -> int {
    spec_align_up(spec_trailer_start(lo, layout) + BLOCK_SIZE, NODE_ALIGN as int)
}

/// First-fit test: the whole footprint must lie inside the extent.
pub open spec fn spec_fits(e: Extent, layout: Layout) -> bool {
    spec_tail_start(e.lo, layout) <= e.hi + 1
}

/// The least extent length that can still host a viable free node or a
/// trailer, in the worst case of alignment padding.
pub open spec fn spec_min_free_total() -> int {
    if BLOCK_SIZE + BLOCK_ALIGN >= NODE_SIZE + NODE_ALIGN {
        BLOCK_SIZE + BLOCK_ALIGN - 1
    } else {
        NODE_SIZE + NODE_ALIGN - 1
    }
}

/// The outcome of carving `layout` out of free extent `i` of `frees`: the
/// free list afterwards, and the extent that went live.  A remainder of at
/// least [`spec_min_free_total`] is split off as a new free extent; a
/// smaller one is absorbed into the live extent.
pub open spec fn spec_carve(frees: Seq<Extent>, i: int, layout: Layout) -> (Seq<Extent>, Extent) {
    let e = frees[i];
    let tail = spec_tail_start(e.lo, layout);
    if tail + spec_min_free_total() <= e.hi + 1 {
        (frees.update(i, Extent { lo: tail, hi: e.hi }), Extent { lo: e.lo, hi: tail - 1 })
    } else {
        (frees.remove(i), Extent { lo: e.lo, hi: e.hi })
    }
}

/// `2` is a power of two in the sense of [`is_power_of_two`]; both in-band
/// record alignments are this constant.
proof fn lemma_align_two()
    ensures
        is_power_of_two(2),
{
    assert((2 as usize) & (1 as usize) == 0) by (bit_vector);
}

/// The three geometry marks move strictly forward through the extent, and
/// each is tightly bounded by its alignment padding.
proof fn lemma_geometry_monotone(lo: int, layout: Layout)
    requires
        0 <= lo,
        layout.wf(),
        1 <= layout.size,
    ensures
        lo <= spec_data_start(lo, layout),
        spec_data_start(lo, layout) < lo + layout.align,
        spec_data_start(lo, layout) % (layout.align as int) == 0,
        spec_data_start(lo, layout) + layout.size <= spec_trailer_start(lo, layout),
        spec_trailer_start(lo, layout) < spec_data_start(lo, layout) + layout.size + BLOCK_ALIGN,
        spec_trailer_start(lo, layout) + BLOCK_SIZE <= spec_tail_start(lo, layout),
        spec_tail_start(lo, layout) < spec_trailer_start(lo, layout) + BLOCK_SIZE + NODE_ALIGN,
{
    lemma_align_up_props(lo, layout.align as int);
    lemma_align_up_props(spec_data_start(lo, layout) + layout.size, BLOCK_ALIGN as int);
    lemma_align_up_props(spec_trailer_start(lo, layout) + BLOCK_SIZE, NODE_ALIGN as int);
}

/// The free-extent list after a freed extent `[lo, hi]` rejoins it at
/// position `ins`, merging with an adjacent predecessor (`has_pre`) and
/// successor (`has_succ`) where they exist.
pub open spec fn spec_merge(
    frees: Seq<Extent>,
    ins: int,
    lo: int,
    hi: int,
    has_pre: bool,
    has_succ: bool,
) -> Seq<Extent> {
    if has_pre && has_succ {
        frees.update(ins - 1, Extent { lo: frees[ins - 1].lo, hi: frees[ins].hi }).remove(ins)
    } else if has_succ {
        frees.update(ins, Extent { lo: lo, hi: frees[ins].hi })
    } else if has_pre {
        frees.update(ins - 1, Extent { lo: frees[ins - 1].lo, hi: hi })
    } else {
        frees.insert(ins, Extent { lo: lo, hi: hi })
    }
}

/// What the allocator remembers of one live allocation, keyed by its user
/// address: the full footprint `[lo, hi]` and the size it was requested
/// with.
pub struct LiveRec {
    pub lo: int,
    pub hi: int,
    pub size: int,
}

/// The heap allocator: manages `[start, max]` through an in-band singly
/// linked list of free extents, kept sorted by ascending address and fully
/// coalesced.  The ghost `chain` lists the free-node addresses in list
/// order, and the ghost `live` records the outstanding allocations; both
/// exist only for specification.
pub struct FreeList<M: Memory> {
    start: usize,
    max: usize,
    free: usize,
    memory: M,
    chain: Ghost<Seq<int>>,
    live: Ghost<Map<int, LiveRec>>,
}

impl<M: Memory> FreeList<M> {
    /// First address of the managed region.
    pub closed spec fn region_start(&self) -> int {
        self.start as int
    }

    /// Last address of the managed region (inclusive).
    pub closed spec fn region_max(&self) -> int {
        self.max as int
    }

    /// The free extents, in list order.
    pub closed spec fn frees(&self) -> Seq<Extent> {
        Seq::new(
            self.chain@.len(),
            |i: int|
                Extent {
                    lo: self.chain@[i],
                    hi: self.memory.nodes()[self.chain@[i]].max as int,
                },
        )
    }

    /// The live allocations, keyed by user address.
    pub closed spec fn lives(&self) -> Map<int, LiveRec> {
        self.live@
    }

    /// Whether address `x` lies inside one of the live allocations.
    pub open spec fn in_live(&self, x: int) -> bool {
        exists|p: int|
            #[trigger] self.lives().contains_key(p) && self.lives()[p].lo <= x <= self.lives()[p].hi
    }

    spec fn node_at(&self, i: int) -> Node {
        self.memory.nodes()[self.chain@[i]]
    }

    spec fn region_wf(&self) -> bool {
        &&& self.start <= self.max
        &&& (self.max as int) < self.memory.nodes().len()
        &&& (self.max as int) < self.memory.blocks().len()
        &&& self.max <= (usize::MAX - 8) / 4
    }

    spec fn chain_wf(&self) -> bool {
        let c = self.chain@;
        &&& self.free as int == if c.len() == 0 {
            self.max as int + 1
        } else {
            c[0]
        }
        &&& forall|i: int| 0 <= i < c.len() ==> self.start as int <= #[trigger] c[i]
        &&& forall|i: int| 0 <= i < c.len() ==> (#[trigger] self.node_at(i)).max <= self.max
        &&& forall|i: int| 0 <= i < c.len() ==> c[i] + NODE_SIZE <= #[trigger] self.node_at(i).max + 1
        &&& forall|i: int|
            0 <= i < c.len() ==> (#[trigger] self.node_at(i)).next as int == if i == c.len() - 1 {
                self.max as int + 1
            } else {
                c[i + 1]
            }
        &&& forall|i: int|
            0 <= i && i + 1 < c.len() ==> (#[trigger] self.node_at(i)).max + 2 <= c[i + 1]
    }

    /// The trailer address of a live allocation at user address `p`.
    pub open spec fn spec_trailer_of(p: int, size: int) -> int {
        spec_align_up(p + size, BLOCK_ALIGN as int)
    }

    spec fn live_rec_wf(&self, p: int, r: LiveRec) -> bool {
        let t = Self::spec_trailer_of(p, r.size);
        &&& self.start as int <= r.lo
        &&& r.hi <= self.max as int
        &&& 1 <= r.size
        &&& r.lo <= p
        &&& p + r.size <= t
        &&& t + BLOCK_SIZE <= r.hi + 1
        &&& self.memory.blocks()[t].start as int == r.lo
        &&& self.memory.blocks()[t].end as int == r.hi
    }

    spec fn live_wf(&self) -> bool {
        forall|p: int|
            #[trigger] self.lives().contains_key(p) ==> self.live_rec_wf(p, self.lives()[p])
    }

    spec fn lives_disjoint(&self) -> bool {
        forall|p: int, q: int|
            #[trigger] self.lives().contains_key(p) && #[trigger] self.lives().contains_key(q) && p
                != q ==> (self.lives()[p].hi < self.lives()[q].lo || self.lives()[q].hi
                < self.lives()[p].lo)
    }

    spec fn live_free_disjoint(&self) -> bool {
        forall|p: int, i: int|
            #[trigger] self.lives().contains_key(p) && 0 <= i < self.chain@.len() ==> (
            self.lives()[p].hi < #[trigger] self.chain@[i] || self.node_at(i).max
                < self.lives()[p].lo)
    }

    spec fn covered_all(&self) -> bool {
        forall|x: int|
            self.region_start() <= x <= self.region_max() ==> covered(self.frees(), x)
                || #[trigger] self.in_live(x)
    }

    /// The allocator's invariant: free extents ordered, coalesced and large
    /// enough to host their node; live records matched by intact trailers;
    /// free and live extents pairwise disjoint; and together they cover the
    /// whole region.
    pub closed spec fn wf(&self) -> bool {
        &&& self.region_wf()
        &&& self.chain_wf()
        &&& self.live_wf()
        &&& self.lives_disjoint()
        &&& self.live_free_disjoint()
        &&& self.covered_all()
    }

    /// Creates an allocator owning `[beginning, max]`, with a single free
    /// node spanning the whole region written at `beginning`.  The region
    /// must be large enough for that node, and the backend must reach every
    /// address up to `max`; the bound on `max` itself leaves headroom for
    /// the geometry arithmetic.
    pub fn new(memory: M, beginning: usize, max: usize) -> (r: Self)
        requires
            beginning + NODE_SIZE < max,
            (max as int) < memory.nodes().len(),
            (max as int) < memory.blocks().len(),
            max <= (usize::MAX - 8) / 4,
        ensures
            r.wf(),
            r.region_start() == beginning,
            r.region_max() == max,
            r.frees() =~= seq![Extent { lo: beginning as int, hi: max as int }],
            r.lives() =~= Map::<int, LiveRec>::empty(),
    {
        let mut memory = memory;
        let invalid: usize = max + 1;
        memory.write_node(beginning, Node { max, next: invalid });
        let ghost initial_chain: Seq<int> = seq![beginning as int];
        let ghost no_lives: Map<int, LiveRec> = Map::empty();
        let r = FreeList {
            start: beginning,
            max,
            free: beginning,
            memory,
            chain: Ghost(initial_chain),
            live: Ghost(no_lives),
        };
        proof {
            assert forall|x: int|
                r.region_start() <= x <= r.region_max() implies covered(r.frees(), x)
                || r.in_live(x) by {
                assert(r.frees()[0].lo <= x <= r.frees()[0].hi);
                assert(covered(r.frees(), x));
            }
        }
        r
    }

    /// The free extents of a well-formed chain are a well-formed extent
    /// list, with the node addresses as their starts.
    proof fn lemma_frees_wf(&self)
        requires
            self.region_wf(),
            self.chain_wf(),
        ensures
            extents_wf(self.frees()),
            self.frees().len() == self.chain@.len(),
            forall|i: int|
                0 <= i < self.chain@.len() ==> (#[trigger] self.frees()[i]).lo == self.chain@[i]
                    && self.frees()[i].hi == self.node_at(i).max,
    {
        assert forall|i: int|
            0 <= i < self.frees().len() implies (#[trigger] self.frees()[i]).lo
            <= self.frees()[i].hi by {
            assert(self.chain@[i] + NODE_SIZE <= self.node_at(i).max + 1);
        }
        assert forall|i: int|
            0 <= i && i + 1 < self.frees().len() implies (#[trigger] self.frees()[i]).hi + 2
            <= self.frees()[i + 1].lo by {
            assert(self.node_at(i).max + 2 <= self.chain@[i + 1]);
        }
    }

    /// Whether `ptr` lies inside the managed region; anything outside plays
    /// the role of the "no such node" sentinel.
    pub fn is_valid(&self, ptr: usize) -> (r: bool)
        ensures
            r == (self.region_start() <= ptr <= self.region_max()),
    {
        ptr >= self.start && ptr <= self.max
    }

    /// [`FreeList::is_valid`] lifted to typed addresses.
    pub fn is_valid_t<T>(&self, ptr: &TypedPtr<T>) -> (r: bool)
        ensures
            r == (self.region_start() <= ptr.ptr <= self.region_max()),
    {
        self.is_valid(ptr.address())
    }

    /// The sentinel address: one past the region's last address.
    pub fn invalid(&self) -> (r: usize)
        requires
            self.region_max() < usize::MAX,
        ensures
            r == self.region_max() + 1,
    {
        self.max + 1
    }

    /// The least extent length that can still host a viable free node (or a
    /// trailer), conservative over worst-case alignment padding.
    fn minimum_free_block_total_size(&self) -> (r: usize)
        ensures
            r == spec_min_free_total(),
    {
        let empty_size: usize = NODE_SIZE + NODE_ALIGN - 1;
        let allocated_size: usize = BLOCK_SIZE + BLOCK_ALIGN - 1;
        if allocated_size >= empty_size {
            allocated_size
        } else {
            empty_size
        }
    }

    /// The carving geometry for an extent starting at `lo`: user data
    /// start, trailer start, and the first address past the whole
    /// footprint.  `None` when the footprint arithmetic runs past the whole
    /// region, in which case nothing starting at `lo` fits anywhere.
    fn compute_geometry(&self, lo: usize, layout: &Layout) -> (g: Option<(usize, usize, usize)>)
        requires
            layout.wf(),
            1 <= layout.size,
            self.start <= lo <= self.max,
            self.max <= (usize::MAX - 8) / 4,
        ensures
            match g {
                Some(t) => {
                    &&& t.0 as int == spec_data_start(lo as int, *layout)
                    &&& t.1 as int == spec_trailer_start(lo as int, *layout)
                    &&& t.2 as int == spec_tail_start(lo as int, *layout)
                    &&& lo <= t.0
                    &&& t.0 + layout.size <= t.1
                    &&& t.1 + BLOCK_SIZE <= t.2
                    &&& (t.0 as int) % (layout.align as int) == 0
                },
                None => spec_tail_start(lo as int, *layout) > self.region_max() + 1,
            },
    {
        proof {
            lemma_geometry_monotone(lo as int, *layout);
        }
        let size = layout.size();
        let a = layout.align();
        // A request larger than the region cannot fit anywhere: the
        // trailer alone pushes the footprint past `max`.
        if size > self.max {
            return None;
        }
        let ds: usize;
        if a <= self.max {
            ds = layout.align_offset(lo);
        } else if lo == 0 {
            proof {
                lemma_align_up_unique(0, a as int, 0);
            }
            ds = 0;
        } else {
            proof {
                // The data start would be a positive multiple of an
                // alignment that already exceeds the region.
                lemma_positive_multiple(a as int, spec_data_start(lo as int, *layout));
            }
            return None;
        }
        let tlayout = Layout::from_size_align_unchecked(BLOCK_SIZE, BLOCK_ALIGN);
        let nlayout = Layout::from_size_align_unchecked(NODE_SIZE, NODE_ALIGN);
        proof {
            lemma_align_two();
        }
        let ts = tlayout.align_offset(ds + size);
        let tail = nlayout.align_offset(ts + BLOCK_SIZE);
        Some((ds, ts, tail))
    }

    /// First-fit test: whether the free extent `[lo, node_max]` can host
    /// the whole footprint of `layout`.
    fn fits(&self, lo: usize, node_max: usize, layout: &Layout) -> (r: bool)
        requires
            layout.wf(),
            1 <= layout.size,
            self.start <= lo <= self.max,
            node_max <= self.max,
            self.max <= (usize::MAX - 8) / 4,
        ensures
            r == spec_fits(Extent { lo: lo as int, hi: node_max as int }, *layout),
    {
        match self.compute_geometry(lo, layout) {
            Option::None => false,
            Option::Some((_ds, _ts, tail)) => tail <= node_max + 1,
        }
    }

    /// Rewires the link that points at some node: the `next` field of
    /// `node_or_invalid`, or the list head when it is the sentinel.
    fn set_next(&mut self, node_or_invalid: usize, next: usize)
        requires
            old(self).start <= node_or_invalid && node_or_invalid <= old(self).max ==> (
            node_or_invalid as int) < old(self).memory.nodes().len(),
        ensures
            final(self).start == old(self).start,
            final(self).max == old(self).max,
            final(self).chain == old(self).chain,
            final(self).live == old(self).live,
            final(self).memory.blocks() == old(self).memory.blocks(),
            final(self).memory.words() == old(self).memory.words(),
            old(self).start <= node_or_invalid && node_or_invalid <= old(self).max ==> {
                &&& final(self).memory.nodes() == old(self).memory.nodes().update(
                    node_or_invalid as int,
                    Node {
                        max: old(self).memory.nodes()[node_or_invalid as int].max,
                        next,
                    },
                )
                &&& final(self).free == old(self).free
            },
            !(old(self).start <= node_or_invalid && node_or_invalid <= old(self).max) ==> {
                &&& final(self).memory.nodes() == old(self).memory.nodes()
                &&& final(self).free == next
            },
    {
        if self.is_valid(node_or_invalid) {
            let mut node_value = self.memory.read_node(node_or_invalid);
            node_value.next = next;
            self.memory.write_node(node_or_invalid, node_value);
        } else {
            self.free = next;
        }
    }

    /// Unlinks `node` from the list; `prev` is its predecessor, or the
    /// sentinel when `node` is the head.
    fn remove(&mut self, node: usize, prev: usize)
        requires
            (node as int) < old(self).memory.nodes().len(),
            old(self).start <= prev && prev <= old(self).max ==> (prev as int) < old(
                self,
            ).memory.nodes().len(),
        ensures
            final(self).start == old(self).start,
            final(self).max == old(self).max,
            final(self).chain == old(self).chain,
            final(self).live == old(self).live,
            final(self).memory.blocks() == old(self).memory.blocks(),
            final(self).memory.words() == old(self).memory.words(),
            old(self).start <= prev && prev <= old(self).max ==> {
                &&& final(self).memory.nodes() == old(self).memory.nodes().update(
                    prev as int,
                    Node {
                        max: old(self).memory.nodes()[prev as int].max,
                        next: old(self).memory.nodes()[node as int].next,
                    },
                )
                &&& final(self).free == old(self).free
            },
            !(old(self).start <= prev && prev <= old(self).max) ==> {
                &&& final(self).memory.nodes() == old(self).memory.nodes()
                &&& final(self).free == old(self).memory.nodes()[node as int].next
            },
    {
        let next = self.memory.read_node(node).next;
        self.set_next(prev, next);
    }

    /// The exact state relation that the carve surgery of [`FreeList::allocate`]
    /// establishes between the old state `o` and the new state `n`: which
    /// node and trailer records were rewritten, and how the ghost state
    /// advanced.  Recorded once so the pieces of the proof can share it.
    spec fn carve_shape(
        o: Self,
        n: Self,
        k: int,
        layout: Layout,
        ds: usize,
        ts: usize,
        tail: usize,
        splitting: bool,
        live_end: usize,
        target: usize,
    ) -> bool {
        &&& o.wf()
        &&& layout.wf()
        &&& 1 <= layout.size
        &&& 0 <= k < o.chain@.len()
        &&& target as int == o.chain@[k]
        &&& spec_fits(o.frees()[k], layout)
        &&& ds as int == spec_data_start(o.frees()[k].lo, layout)
        &&& ts as int == spec_trailer_start(o.frees()[k].lo, layout)
        &&& tail as int == spec_tail_start(o.frees()[k].lo, layout)
        &&& splitting == (tail as int + spec_min_free_total() <= o.frees()[k].hi + 1)
        &&& live_end as int == (if splitting {
            tail as int - 1
        } else {
            o.frees()[k].hi
        })
        &&& n.start == o.start
        &&& n.max == o.max
        &&& n.chain@ == (if splitting {
            o.chain@.update(k, tail as int)
        } else {
            o.chain@.remove(k)
        })
        &&& n.live@ == o.live@.insert(
            ds as int,
            LiveRec { lo: o.chain@[k], hi: live_end as int, size: layout.size as int },
        )
        &&& n.memory.blocks() == o.memory.blocks().update(
            ts as int,
            Block { start: target, end: live_end },
        )
        &&& (splitting && k > 0 ==> n.memory.nodes() == o.memory.nodes().update(
            tail as int,
            o.node_at(k),
        ).update(o.chain@[k - 1], Node { max: o.node_at(k - 1).max, next: tail }) && n.free
            == o.free)
        &&& (splitting && k == 0 ==> n.memory.nodes() == o.memory.nodes().update(
            tail as int,
            o.node_at(k),
        ) && n.free == tail)
        &&& (!splitting && k > 0 ==> n.memory.nodes() == o.memory.nodes().update(
            o.chain@[k - 1],
            Node { max: o.node_at(k - 1).max, next: o.node_at(k).next },
        ) && n.free == o.free)
        &&& (!splitting && k == 0 ==> n.memory.nodes() == o.memory.nodes() && n.free == o.node_at(
            k,
        ).next)
    }

    /// After the carve, the chain is well formed again and the free
    /// extents match [`spec_carve`].
    proof fn lemma_carve_chain(
        o: Self,
        n: Self,
        k: int,
        layout: Layout,
        ds: usize,
        ts: usize,
        tail: usize,
        splitting: bool,
        live_end: usize,
        target: usize,
    )
        requires
            Self::carve_shape(o, n, k, layout, ds, ts, tail, splitting, live_end, target),
        ensures
            n.region_wf(),
            n.chain_wf(),
            n.frees() == spec_carve(o.frees(), k, layout).0,
    {
        if splitting {
            Self::lemma_carve_chain_split_wf(o, n, k, layout, ds, ts, tail, live_end, target);
        } else {
            Self::lemma_carve_chain_consume_wf(o, n, k, layout, ds, ts, tail, live_end, target);
        }
        Self::lemma_carve_frees(o, n, k, layout, ds, ts, tail, splitting, live_end, target);
    }

    /// Chain addresses and extent ends grow along the list, with a gap
    /// between consecutive extents.
    proof fn lemma_chain_ordered(s: Self, i: int, j: int)
        requires
            s.chain_wf(),
            0 <= i <= j < s.chain@.len(),
        ensures
            s.chain@[i] <= s.chain@[j],
            s.node_at(i).max <= s.node_at(j).max,
            i < j ==> s.node_at(i).max + 2 <= s.chain@[j],
        decreases j - i,
    {
        if i < j {
            Self::lemma_chain_ordered(s, i, j - 1);
            assert(s.node_at(j - 1).max + 2 <= s.chain@[j]);
            assert(s.chain@[j] + NODE_SIZE <= s.node_at(j).max + 1);
        }
    }

    /// After a split, where each listed node record now sits: index `k`
    /// moved to `tail` keeping the old record, the predecessor points at
    /// it, and everything else is untouched.
    #[verifier::rlimit(100)]
    proof fn lemma_carve_nodes_split(
        o: Self,
        n: Self,
        k: int,
        layout: Layout,
        ds: usize,
        ts: usize,
        tail: usize,
        live_end: usize,
        target: usize,
    )
        requires
            Self::carve_shape(o, n, k, layout, ds, ts, tail, true, live_end, target),
        ensures
            n.chain@.len() == o.chain@.len(),
            forall|i: int|
                #![trigger n.node_at(i)]
                0 <= i < n.chain@.len() && i != k && i != k - 1 ==> n.node_at(i) == o.node_at(i),
            forall|i: int|
                0 <= i < n.chain@.len() && i != k ==> #[trigger] n.chain@[i] == o.chain@[i],
            n.chain@[k] == tail as int,
            n.node_at(k) == o.node_at(k),
            k > 0 ==> n.node_at(k - 1) == (Node { max: o.node_at(k - 1).max, next: tail }),
            target as int <= ds as int <= ts as int && ts + BLOCK_SIZE <= tail,
            tail as int <= o.node_at(k).max + 1,
    {
        let c = o.chain@;
        o.lemma_frees_wf();
        lemma_geometry_monotone(o.frees()[k].lo, layout);
        assert(tail as int <= o.node_at(k).max + 1);
        if k > 0 {
            Self::lemma_chain_ordered(o, k - 1, k);
            assert(c[k - 1] < tail as int);
        }
        assert forall|i: int|
            #![trigger n.node_at(i)]
            0 <= i < n.chain@.len() && i != k && i != k - 1 implies n.node_at(i) == o.node_at(
            i,
        ) by {
            if i < k {
                Self::lemma_chain_ordered(o, i, k);
                if k > 0 {
                    Self::lemma_chain_ordered(o, i, k - 1);
                }
                assert(c[i] + NODE_SIZE <= o.node_at(i).max + 1);
                assert(c[i] < tail as int);
            } else {
                Self::lemma_chain_ordered(o, k, i);
                assert(c[i] > tail as int);
                if k > 0 {
                    Self::lemma_chain_ordered(o, k - 1, i);
                }
            }
        }
        assert(n.node_at(k) == o.node_at(k)) by {
            if k > 0 {
                assert(c[k - 1] != tail as int);
            }
        }
    }

    /// After a consume, where each listed node record now sits: index `k`
    /// is gone, the predecessor points past it, everything else is
    /// untouched.
    #[verifier::rlimit(100)]
    proof fn lemma_carve_nodes_consume(
        o: Self,
        n: Self,
        k: int,
        layout: Layout,
        ds: usize,
        ts: usize,
        tail: usize,
        live_end: usize,
        target: usize,
    )
        requires
            Self::carve_shape(o, n, k, layout, ds, ts, tail, false, live_end, target),
        ensures
            n.chain@.len() == o.chain@.len() - 1,
            forall|i: int|
                #![trigger n.node_at(i)]
                0 <= i < n.chain@.len() && i != k - 1 ==> n.node_at(i) == (if i >= k {
                    o.node_at(i + 1)
                } else {
                    o.node_at(i)
                }),
            forall|i: int|
                0 <= i < n.chain@.len() ==> #[trigger] n.chain@[i] == (if i >= k {
                    o.chain@[i + 1]
                } else {
                    o.chain@[i]
                }),
            k > 0 && k - 1 < n.chain@.len() ==> n.node_at(k - 1) == (Node {
                max: o.node_at(k - 1).max,
                next: o.node_at(k).next,
            }),
            target as int <= ds as int <= ts as int && ts + BLOCK_SIZE <= tail,
            tail as int <= o.node_at(k).max + 1,
    {
        let c = o.chain@;
        o.lemma_frees_wf();
        lemma_geometry_monotone(o.frees()[k].lo, layout);
        assert(tail as int <= o.node_at(k).max + 1);
        assert forall|i: int|
            #![trigger n.node_at(i)]
            0 <= i < n.chain@.len() && i != k - 1 implies n.node_at(i) == (if i >= k {
            o.node_at(i + 1)
        } else {
            o.node_at(i)
        }) by {
            let oi: int = if i >= k {
                i + 1
            } else {
                i
            };
            if k > 0 {
                if oi < k - 1 {
                    Self::lemma_chain_ordered(o, oi, k - 1);
                }
                if oi > k - 1 {
                    Self::lemma_chain_ordered(o, k - 1, oi);
                }
            }
        }
    }

    /// The chain after a split: extent `k` is replaced by its remainder
    /// `[tail, hi]`, whose node carries the old record.
    #[verifier::rlimit(100)]
    proof fn lemma_carve_chain_split_wf(
        o: Self,
        n: Self,
        k: int,
        layout: Layout,
        ds: usize,
        ts: usize,
        tail: usize,
        live_end: usize,
        target: usize,
    )
        requires
            Self::carve_shape(o, n, k, layout, ds, ts, tail, true, live_end, target),
        ensures
            n.region_wf(),
            n.chain_wf(),
    {
        let c = o.chain@;
        let cn = n.chain@;
        Self::lemma_carve_nodes_split(o, n, k, layout, ds, ts, tail, live_end, target);
        o.lemma_frees_wf();
        assert(n.chain_wf()) by {
            assert forall|i: int| 0 <= i < cn.len() implies n.start as int <= #[trigger] cn[i] by {}
            assert forall|i: int|
                0 <= i < cn.len() implies (#[trigger] n.node_at(i)).max <= n.max by {}
            assert forall|i: int|
                0 <= i < cn.len() implies cn[i] + NODE_SIZE <= #[trigger] n.node_at(i).max
                    + 1 by {}
            assert forall|i: int|
                0 <= i < cn.len() implies (#[trigger] n.node_at(i)).next as int == (if i == cn.len()
                    - 1 {
                    n.max as int + 1
                } else {
                    cn[i + 1]
                }) by {}
            assert forall|i: int|
                0 <= i && i + 1 < cn.len() implies (#[trigger] n.node_at(i)).max + 2 <= cn[i
                    + 1] by {
                if i + 1 == k && k > 0 {
                    assert(o.node_at(k - 1).max + 2 <= c[k]);
                    assert(c[k] <= tail as int);
                }
            }
            if cn.len() > 0 {
                assert(n.free as int == cn[0]);
            } else {
                assert(n.free as int == n.max as int + 1);
            }
        }
    }

    /// The chain after a consume: extent `k` leaves the list whole, its
    /// predecessor (or the head) now pointing past it.
    #[verifier::rlimit(100)]
    proof fn lemma_carve_chain_consume_wf(
        o: Self,
        n: Self,
        k: int,
        layout: Layout,
        ds: usize,
        ts: usize,
        tail: usize,
        live_end: usize,
        target: usize,
    )
        requires
            Self::carve_shape(o, n, k, layout, ds, ts, tail, false, live_end, target),
        ensures
            n.region_wf(),
            n.chain_wf(),
    {
        let c = o.chain@;
        let cn = n.chain@;
        Self::lemma_carve_nodes_consume(o, n, k, layout, ds, ts, tail, live_end, target);
        o.lemma_frees_wf();
        assert(n.chain_wf()) by {
            assert forall|i: int| 0 <= i < cn.len() implies n.start as int <= #[trigger] cn[i] by {}
            assert forall|i: int|
                0 <= i < cn.len() implies (#[trigger] n.node_at(i)).max <= n.max by {}
            assert forall|i: int|
                0 <= i < cn.len() implies cn[i] + NODE_SIZE <= #[trigger] n.node_at(i).max
                    + 1 by {}
            assert forall|i: int|
                0 <= i < cn.len() implies (#[trigger] n.node_at(i)).next as int == (if i == cn.len()
                    - 1 {
                    n.max as int + 1
                } else {
                    cn[i + 1]
                }) by {}
            assert forall|i: int|
                0 <= i && i + 1 < cn.len() implies (#[trigger] n.node_at(i)).max + 2 <= cn[i
                    + 1] by {
                if i + 1 == k && k > 0 {
                    Self::lemma_chain_ordered(o, k - 1, k);
                    if k + 1 < c.len() {
                        Self::lemma_chain_ordered(o, k, k + 1);
                    }
                }
                if i + 1 >= k {
                    Self::lemma_chain_ordered(o, i + 1, i + 2);
                }
            }
            if cn.len() > 0 {
                assert(n.free as int == cn[0]);
            } else {
                assert(n.free as int == n.max as int + 1);
            }
        }
    }

    /// After either carve the free extents match [`spec_carve`].
    proof fn lemma_carve_frees(
        o: Self,
        n: Self,
        k: int,
        layout: Layout,
        ds: usize,
        ts: usize,
        tail: usize,
        splitting: bool,
        live_end: usize,
        target: usize,
    )
        requires
            Self::carve_shape(o, n, k, layout, ds, ts, tail, splitting, live_end, target),
            n.chain_wf(),
        ensures
            n.frees() == spec_carve(o.frees(), k, layout).0,
    {
        if splitting {
            Self::lemma_carve_frees_split(o, n, k, layout, ds, ts, tail, live_end, target);
        } else {
            Self::lemma_carve_frees_consume(o, n, k, layout, ds, ts, tail, live_end, target);
        }
    }

    /// After a split the free extents are the old ones with extent `k`
    /// shrunk to its remainder.
    #[verifier::rlimit(100)]
    proof fn lemma_carve_frees_split(
        o: Self,
        n: Self,
        k: int,
        layout: Layout,
        ds: usize,
        ts: usize,
        tail: usize,
        live_end: usize,
        target: usize,
    )
        requires
            Self::carve_shape(o, n, k, layout, ds, ts, tail, true, live_end, target),
            n.chain_wf(),
        ensures
            n.frees() == spec_carve(o.frees(), k, layout).0,
    {
        let cn = n.chain@;
        Self::lemma_carve_nodes_split(o, n, k, layout, ds, ts, tail, live_end, target);
        o.lemma_frees_wf();
        let cv = spec_carve(o.frees(), k, layout).0;
        assert(cv == o.frees().update(k, Extent { lo: tail as int, hi: o.frees()[k].hi }));
        assert(n.frees() =~= cv) by {
            assert forall|i: int| 0 <= i < cn.len() implies n.frees()[i] == cv[i] by {
                if i == k {
                    assert(n.frees()[i].lo == tail as int);
                    assert(n.node_at(k) == o.node_at(k));
                } else {
                    assert(n.node_at(i).max == o.node_at(i).max);
                }
            }
        }
    }

    /// After a consume the free extents are the old ones with extent `k`
    /// taken out.
    #[verifier::rlimit(100)]
    proof fn lemma_carve_frees_consume(
        o: Self,
        n: Self,
        k: int,
        layout: Layout,
        ds: usize,
        ts: usize,
        tail: usize,
        live_end: usize,
        target: usize,
    )
        requires
            Self::carve_shape(o, n, k, layout, ds, ts, tail, false, live_end, target),
            n.chain_wf(),
        ensures
            n.frees() == spec_carve(o.frees(), k, layout).0,
    {
        let cn = n.chain@;
        Self::lemma_carve_nodes_consume(o, n, k, layout, ds, ts, tail, live_end, target);
        o.lemma_frees_wf();
        let cv = spec_carve(o.frees(), k, layout).0;
        assert(cv == o.frees().remove(k));
        assert(n.frees() =~= cv) by {
            assert forall|i: int| 0 <= i < cn.len() implies n.frees()[i] == cv[i] by {
                if i >= k {
                    assert(n.node_at(i).max == o.node_at(i + 1).max);
                    assert(cv[i] == o.frees()[i + 1]);
                } else {
                    assert(n.node_at(i).max == o.node_at(i).max);
                }
            }
        }
    }

    /// After the carve, the live map is well formed: the fresh record has
    /// its trailer in place, the old trailers are untouched, and the live
    /// extents avoid each other and every free extent.
    #[verifier::rlimit(100)]
    proof fn lemma_carve_live(
        o: Self,
        n: Self,
        k: int,
        layout: Layout,
        ds: usize,
        ts: usize,
        tail: usize,
        splitting: bool,
        live_end: usize,
        target: usize,
    )
        requires
            Self::carve_shape(o, n, k, layout, ds, ts, tail, splitting, live_end, target),
            n.region_wf(),
            n.chain_wf(),
            n.frees() == spec_carve(o.frees(), k, layout).0,
        ensures
            n.live_wf(),
            n.lives_disjoint(),
            n.live_free_disjoint(),
            !o.lives().contains_key(ds as int),
    {
        let c = o.chain@;
        let e = o.frees()[k];
        let sz = layout.size as int;
        o.lemma_frees_wf();
        n.lemma_frees_wf();
        lemma_geometry_monotone(e.lo, layout);
        assert(e.lo == c[k] && e.hi == o.node_at(k).max as int);
        assert(target as int == e.lo);
        assert(tail as int <= e.hi + 1);
        assert(target <= ds && ds + layout.size <= ts && ts + BLOCK_SIZE <= tail);
        assert(ds as int <= live_end as int);
        assert(ts + BLOCK_SIZE <= live_end + 1);
        assert(live_end as int <= o.region_max());
        assert(FreeList::<M>::spec_trailer_of(ds as int, sz) == ts as int);
        // the user address cannot be a live key already: it lies in a free
        // extent, and live extents avoid all of those
        assert(!o.lives().contains_key(ds as int)) by {
            if o.lives().contains_key(ds as int) {
                let rr = o.lives()[ds as int];
                assert(o.live_rec_wf(ds as int, rr));
                assert(rr.lo <= ds as int <= rr.hi);
                assert(rr.hi < c[k] || o.node_at(k).max < rr.lo);
                assert(false);
            }
        }
        assert forall|p: int|
            #[trigger] n.lives().contains_key(p) implies n.live_rec_wf(p, n.lives()[p]) by {
            if p == ds as int {
                assert(n.memory.blocks()[ts as int].start as int == target as int);
            } else {
                let rr = o.lives()[p];
                assert(o.live_rec_wf(p, rr));
                let tp = FreeList::<M>::spec_trailer_of(p, rr.size);
                assert(rr.hi < c[k] || o.node_at(k).max < rr.lo);
                assert(tp != ts as int);
            }
        }
        assert forall|p: int, q: int|
            #[trigger] n.lives().contains_key(p) && #[trigger] n.lives().contains_key(q) && p
                != q implies (n.lives()[p].hi < n.lives()[q].lo || n.lives()[q].hi
            < n.lives()[p].lo) by {
            if p == ds as int {
                assert(o.lives()[q].hi < c[k] || o.node_at(k).max < o.lives()[q].lo);
            } else if q == ds as int {
                assert(o.lives()[p].hi < c[k] || o.node_at(k).max < o.lives()[p].lo);
            }
        }
        assert forall|p: int, i: int|
            #[trigger] n.lives().contains_key(p) && 0 <= i < n.chain@.len() implies (n.lives()[p].hi
            < #[trigger] n.chain@[i] || n.node_at(i).max < n.lives()[p].lo) by {
            assert(n.chain@[i] == n.frees()[i].lo && n.node_at(i).max as int == n.frees()[i].hi);
            let oi: int = if !splitting && i >= k {
                i + 1
            } else {
                i
            };
            if splitting && i == k {
                assert(n.frees()[i] == (Extent { lo: tail as int, hi: e.hi }));
            } else {
                assert(n.frees()[i] == o.frees()[oi]);
            }
            if p == ds as int {
                if oi < k {
                    lemma_extents_ordered(o.frees(), oi, k);
                }
                if oi > k {
                    lemma_extents_ordered(o.frees(), k, oi);
                }
            } else {
                assert(o.lives().contains_key(p));
                assert(o.lives()[p].hi < c[oi] || o.node_at(oi).max < o.lives()[p].lo);
                if splitting && i == k {
                    assert(o.lives()[p].hi < c[k] || o.node_at(k).max < o.lives()[p].lo);
                    assert(c[k] <= tail as int);
                }
            }
        }
    }

    /// After the carve the region stays covered: what left the free list
    /// is exactly the extent that went live.
    #[verifier::rlimit(100)]
    proof fn lemma_carve_cover(
        o: Self,
        n: Self,
        k: int,
        layout: Layout,
        ds: usize,
        ts: usize,
        tail: usize,
        splitting: bool,
        live_end: usize,
        target: usize,
    )
        requires
            Self::carve_shape(o, n, k, layout, ds, ts, tail, splitting, live_end, target),
            n.frees() == spec_carve(o.frees(), k, layout).0,
            !o.lives().contains_key(ds as int),
        ensures
            n.covered_all(),
    {
        let e = o.frees()[k];
        o.lemma_frees_wf();
        lemma_geometry_monotone(e.lo, layout);
        assert(target as int == e.lo);
        assert(tail as int <= e.hi + 1);
        assert(ds as int <= live_end as int);
        assert forall|x: int|
            n.region_start() <= x <= n.region_max() implies covered(n.frees(), x)
                || n.in_live(x) by {
            if o.in_live(x) {
                let p = choose|p: int|
                    #[trigger] o.lives().contains_key(p) && o.lives()[p].lo <= x <= o.lives()[p].hi;
                assert(n.lives().contains_key(p));
                assert(n.lives()[p] == o.lives()[p]);
                assert(n.in_live(x));
            } else {
                assert(covered(o.frees(), x));
                let j = choose|j: int|
                    0 <= j < o.frees().len() && (#[trigger] o.frees()[j]).lo <= x
                        <= o.frees()[j].hi;
                if j == k {
                    if x <= live_end as int {
                        assert(n.lives().contains_key(ds as int));
                        assert(n.lives()[ds as int].lo <= x <= n.lives()[ds as int].hi);
                        assert(n.in_live(x));
                    } else {
                        assert(splitting);
                        assert(n.frees()[k].lo <= x <= n.frees()[k].hi);
                        assert(covered(n.frees(), x));
                    }
                } else {
                    let ni: int = if !splitting && j > k {
                        j - 1
                    } else {
                        j
                    };
                    assert(n.frees()[ni] == o.frees()[j]);
                    assert(covered(n.frees(), x));
                }
            }
        }
    }

    /// After the carve surgery the allocator is well formed again, its
    /// free extents match [`spec_carve`], and the new allocation is on the
    /// live map.
    proof fn lemma_carve_wf(
        &self,
        o: Self,
        k: int,
        layout: Layout,
        ds: usize,
        ts: usize,
        tail: usize,
        splitting: bool,
        live_end: usize,
        target: usize,
    )
        requires
            Self::carve_shape(o, *self, k, layout, ds, ts, tail, splitting, live_end, target),
        ensures
            self.wf(),
            self.frees() == spec_carve(o.frees(), k, layout).0,
            self.lives() == o.lives().insert(
                ds as int,
                LiveRec {
                    lo: o.frees()[k].lo,
                    hi: spec_carve(o.frees(), k, layout).1.hi,
                    size: layout.size as int,
                },
            ),
            self.region_start() == o.region_start(),
            self.region_max() == o.region_max(),
    {
        let n = *self;
        Self::lemma_carve_chain(o, n, k, layout, ds, ts, tail, splitting, live_end, target);
        Self::lemma_carve_live(o, n, k, layout, ds, ts, tail, splitting, live_end, target);
        Self::lemma_carve_cover(o, n, k, layout, ds, ts, tail, splitting, live_end, target);
        o.lemma_frees_wf();
        assert(self.lives() =~= o.lives().insert(
            ds as int,
            LiveRec {
                lo: o.frees()[k].lo,
                hi: spec_carve(o.frees(), k, layout).1.hi,
                size: layout.size as int,
            },
        ));
        assert(self.wf());
    }

    /// zero or no extent fits, leaving the allocator unchanged.  A returned
    /// address is aligned to `layout.align`.
    pub fn allocate(&mut self, layout: Layout) -> (r: Result<usize, AllocErr>)
        requires
            old(self).wf(),
            layout.wf(),
        ensures
            final(self).wf(),
            final(self).region_start() == old(self).region_start(),
            final(self).region_max() == old(self).region_max(),
            match r {
                Ok(a) => {
                    &&& 1 <= layout.size
                    &&& (a as int) % (layout.align as int) == 0
                    &&& old(self).region_start() <= a as int <= old(self).region_max()
                    &&& exists|i: int|
                        #![trigger old(self).frees()[i]]
                        {
                            &&& 0 <= i < old(self).frees().len()
                            &&& forall|j: int|
                                0 <= j < i ==> !spec_fits(#[trigger] old(self).frees()[j], layout)
                            &&& spec_fits(old(self).frees()[i], layout)
                            &&& a as int == spec_data_start(old(self).frees()[i].lo, layout)
                            &&& final(self).frees() == spec_carve(old(self).frees(), i, layout).0
                            &&& final(self).lives() == old(self).lives().insert(
                                a as int,
                                LiveRec {
                                    lo: old(self).frees()[i].lo,
                                    hi: spec_carve(old(self).frees(), i, layout).1.hi,
                                    size: layout.size as int,
                                },
                            )
                        }
                },
                Err(_) => {
                    &&& *final(self) == *old(self)
                    &&& (layout.size == 0 || forall|i: int|
                        0 <= i < old(self).frees().len() ==> !spec_fits(
                            #[trigger] old(self).frees()[i],
                            layout,
                        ))
                },
            },
    {
        if layout.size() == 0 {
            return Err(AllocErr);
        }
        proof {
            old(self).lemma_frees_wf();
        }
        let invalid: usize = self.invalid();
        let ghost c = self.chain@;
        let mut current: usize = self.free;
        let mut prev: usize = invalid;
        let ghost mut k: int = 0;
        let mut searching: bool = true;
        while searching
            invariant
                *self == *old(self),
                old(self).wf(),
                layout.wf(),
                1 <= layout.size,
                c == self.chain@,
                invalid == self.max + 1,
                0 <= k <= c.len(),
                forall|j: int| 0 <= j < k ==> !spec_fits(#[trigger] self.frees()[j], layout),
                searching ==> current as int == (if k == c.len() {
                    self.max as int + 1
                } else {
                    c[k]
                }),
                searching ==> prev as int == (if k == 0 {
                    self.max as int + 1
                } else {
                    c[k - 1]
                }),
                !searching ==> (k == c.len() && current == invalid) || (k < c.len() && current as int
                    == c[k] && spec_fits(self.frees()[k], layout) && prev as int == (if k == 0 {
                    self.max as int + 1
                } else {
                    c[k - 1]
                })),
            decreases c.len() - k + (if searching {
                1int
            } else {
                0int
            }),
        {
            if current == invalid {
                proof {
                    if k < c.len() {
                        assert(self.node_at(k).max <= self.max);
                        assert(c[k] + NODE_SIZE <= self.node_at(k).max + 1);
                        assert(false);
                    }
                }
                searching = false;
            } else {
                proof {
                    if k == c.len() {
                        assert(false);
                    }
                    assert(self.start as int <= c[k]);
                    assert(c[k] + NODE_SIZE <= self.node_at(k).max + 1);
                    assert(self.node_at(k).max <= self.max);
                }
                let node = self.memory.read_node(current);
                if self.fits(current, node.max, &layout) {
                    proof {
                        assert(self.frees()[k] == (Extent {
                            lo: current as int,
                            hi: node.max as int,
                        }));
                    }
                    searching = false;
                } else {
                    proof {
                        assert(self.frees()[k] == (Extent {
                            lo: current as int,
                            hi: node.max as int,
                        }));
                    }
                    prev = current;
                    current = node.next;
                    proof {
                        k = k + 1;
                    }
                }
            }
        }
        if current == invalid {
            proof {
                assert(k == c.len());
            }
            return Err(AllocErr);
        }
        proof {
            assert(k < c.len() && current as int == c[k]);
        }
        let target = current;
        let node = self.memory.read_node(target);
        let g = self.compute_geometry(target, &layout);
        proof {
            assert(self.frees()[k] == (Extent { lo: target as int, hi: node.max as int }));
            if g is None {
                assert(spec_fits(self.frees()[k], layout));
                assert(false);
            }
        }
        let (ds, ts, tail) = g.unwrap();
        let min_total = self.minimum_free_block_total_size();
        let splitting: bool = tail + min_total <= node.max + 1;
        let live_end: usize = if splitting {
            tail - 1
        } else {
            node.max
        };
        proof {
            // The footprint, and with it the trailer and the data, lie
            // inside the chosen extent.
            assert(tail <= node.max + 1);
            assert(target <= ds && ds + layout.size <= ts && ts + BLOCK_SIZE <= tail);
        }
        if splitting {
            self.memory.write_node(tail, Node { max: node.max, next: node.next });
            self.set_next(prev, tail);
        } else {
            self.remove(target, prev);
        }
        self.memory.write_block(ts, Block { start: target, end: live_end });
        let ghost new_chain = if splitting {
            c.update(k, tail as int)
        } else {
            c.remove(k)
        };
        let ghost new_rec = LiveRec {
            lo: target as int,
            hi: live_end as int,
            size: layout.size as int,
        };
        self.chain = Ghost(new_chain);
        self.live = Ghost(old(self).lives().insert(ds as int, new_rec));
        proof {
            let o = *old(self);
            o.lemma_frees_wf();
            if k > 0 {
                lemma_extents_ordered(o.frees(), k - 1, k);
                assert(c[k - 1] < target as int);
            }
            self.lemma_carve_wf(o, k, layout, ds, ts, tail, splitting, live_end, target);
            assert(spec_fits(o.frees()[k], layout));
            assert(ds as int == spec_data_start(o.frees()[k].lo, layout));
        }
        Ok(ds)
    }

    /// The exact state relation that the merge surgery of
    /// [`FreeList::deallocate`] establishes between the old state `o` and
    /// the new state `n`, for the freed extent `[t_lo, t_hi]` rejoining the
    /// list at position `ins`.
    spec fn merge_shape(
        o: Self,
        n: Self,
        p: int,
        ins: int,
        t_lo: usize,
        t_hi: usize,
        has_pre: bool,
        has_succ: bool,
    ) -> bool {
        let c = o.chain@;
        &&& o.wf()
        &&& o.lives().contains_key(p)
        &&& t_lo as int == o.lives()[p].lo
        &&& t_hi as int == o.lives()[p].hi
        &&& 0 <= ins <= c.len()
        &&& (forall|j: int| 0 <= j < ins ==> (#[trigger] o.node_at(j)).max < t_lo)
        &&& (forall|j: int| ins <= j < c.len() ==> #[trigger] c[j] > t_hi as int)
        &&& has_pre == (ins > 0 && o.node_at(ins - 1).max + 1 == t_lo)
        &&& has_succ == (ins < c.len() && c[ins] == t_hi + 1)
        &&& n.start == o.start
        &&& n.max == o.max
        &&& n.live@ == o.live@.remove(p)
        &&& n.memory.blocks() == o.memory.blocks()
        &&& n.chain@ == (if has_pre && has_succ {
            c.remove(ins)
        } else if has_succ {
            c.update(ins, t_lo as int)
        } else if has_pre {
            c
        } else {
            c.insert(ins, t_lo as int)
        })
        &&& (has_pre && has_succ ==> n.memory.nodes() =~= o.memory.nodes().update(
            c[ins - 1],
            Node { max: o.node_at(ins).max, next: o.node_at(ins).next },
        ) && n.free == o.free)
        &&& (!has_pre && has_succ && ins > 0 ==> n.memory.nodes() == o.memory.nodes().update(
            t_lo as int,
            Node { max: o.node_at(ins).max, next: o.node_at(ins).next },
        ).update(c[ins - 1], Node { max: o.node_at(ins - 1).max, next: t_lo }) && n.free == o.free)
        &&& (!has_pre && has_succ && ins == 0 ==> n.memory.nodes() == o.memory.nodes().update(
            t_lo as int,
            Node { max: o.node_at(ins).max, next: o.node_at(ins).next },
        ) && n.free == t_lo)
        &&& (has_pre && !has_succ ==> n.memory.nodes() == o.memory.nodes().update(
            c[ins - 1],
            Node { max: t_hi, next: o.node_at(ins - 1).next },
        ) && n.free == o.free)
        &&& (!has_pre && !has_succ && ins > 0 ==> n.memory.nodes() == o.memory.nodes().update(
            t_lo as int,
            Node {
                max: t_hi,
                next: (if ins < c.len() {
                    c[ins] as usize
                } else {
                    (o.max + 1) as usize
                }),
            },
        ).update(c[ins - 1], Node { max: o.node_at(ins - 1).max, next: t_lo }) && n.free == o.free)
        &&& (!has_pre && !has_succ && ins == 0 ==> n.memory.nodes() == o.memory.nodes().update(
            t_lo as int,
            Node {
                max: t_hi,
                next: (if ins < c.len() {
                    c[ins] as usize
                } else {
                    (o.max + 1) as usize
                }),
            },
        ) && n.free == t_lo)
    }

    /// Both neighbours exist: the predecessor absorbs the freed extent and
    /// the successor, which leaves the list.
    #[verifier::rlimit(100)]
    proof fn lemma_merge_chain_both(o: Self, n: Self, p: int, ins: int, t_lo: usize, t_hi: usize)
        requires
            Self::merge_shape(o, n, p, ins, t_lo, t_hi, true, true),
        ensures
            n.region_wf(),
            n.chain_wf(),
            n.frees() == spec_merge(o.frees(), ins, t_lo as int, t_hi as int, true, true),
    {
        let c = o.chain@;
        let cn = n.chain@;
        assert(o.live_rec_wf(p, o.lives()[p]));
        assert forall|i: int| #![trigger n.node_at(i)] 0 <= i < cn.len() implies {
            &&& i < ins - 1 ==> cn[i] == c[i] && n.node_at(i) == o.node_at(i)
            &&& i == ins - 1 ==> cn[i] == c[i] && n.node_at(i) == (Node {
                max: o.node_at(ins).max,
                next: o.node_at(ins).next,
            })
            &&& i > ins - 1 ==> cn[i] == c[i + 1] && n.node_at(i) == o.node_at(i + 1)
        } by {
            if i < ins - 1 {
                Self::lemma_chain_ordered(o, i, ins - 1);
            }
            if i > ins - 1 {
                Self::lemma_chain_ordered(o, ins - 1, i + 1);
            }
        }
        assert(n.chain_wf()) by {
            assert forall|i: int| 0 <= i < cn.len() implies n.start as int <= #[trigger] cn[i] by {}
            assert forall|i: int|
                0 <= i < cn.len() implies (#[trigger] n.node_at(i)).max <= n.max by {}
            assert forall|i: int|
                0 <= i < cn.len() implies cn[i] + NODE_SIZE <= #[trigger] n.node_at(i).max
                    + 1 by {
                if i == ins - 1 {
                    Self::lemma_chain_ordered(o, ins - 1, ins);
                }
            }
            assert forall|i: int|
                0 <= i < cn.len() implies (#[trigger] n.node_at(i)).next as int == (if i == cn.len()
                    - 1 {
                    n.max as int + 1
                } else {
                    cn[i + 1]
                }) by {}
            assert forall|i: int|
                0 <= i && i + 1 < cn.len() implies (#[trigger] n.node_at(i)).max + 2 <= cn[i
                    + 1] by {
                if i + 1 == ins - 1 {
                    Self::lemma_chain_ordered(o, i, ins - 1);
                }
            }
            if cn.len() > 0 {
                assert(n.free as int == cn[0]);
            } else {
                assert(n.free as int == n.max as int + 1);
            }
        }
        o.lemma_frees_wf();
        assert(n.frees() =~= spec_merge(o.frees(), ins, t_lo as int, t_hi as int, true, true)) by {
            assert forall|i: int|
                0 <= i < cn.len() implies n.frees()[i] == spec_merge(
                o.frees(),
                ins,
                t_lo as int,
                t_hi as int,
                true,
                true,
            )[i] by {}
        }
    }

    /// Only a successor exists: its node moves down to the freed extent's
    /// first address, taking the successor's record.
    #[verifier::rlimit(100)]
    proof fn lemma_merge_chain_succ(o: Self, n: Self, p: int, ins: int, t_lo: usize, t_hi: usize)
        requires
            Self::merge_shape(o, n, p, ins, t_lo, t_hi, false, true),
        ensures
            n.region_wf(),
            n.chain_wf(),
            n.frees() == spec_merge(o.frees(), ins, t_lo as int, t_hi as int, false, true),
    {
        let c = o.chain@;
        let cn = n.chain@;
        assert(o.live_rec_wf(p, o.lives()[p]));
        assert(t_lo + NODE_SIZE <= t_hi + 1);
        assert forall|i: int| #![trigger n.node_at(i)] 0 <= i < cn.len() implies {
            &&& (i < ins - 1 || i > ins) ==> cn[i] == c[i] && n.node_at(i) == o.node_at(i)
            &&& (i == ins - 1) ==> cn[i] == c[i] && n.node_at(i) == (Node {
                max: o.node_at(ins - 1).max,
                next: t_lo,
            })
            &&& i == ins ==> cn[i] == t_lo as int && n.node_at(i) == (Node {
                max: o.node_at(ins).max,
                next: o.node_at(ins).next,
            })
        } by {
            if i < ins {
                Self::lemma_chain_ordered(o, i, ins);
                if i < ins - 1 {
                    Self::lemma_chain_ordered(o, i, ins - 1);
                }
                assert(o.node_at(i).max < t_lo);
                assert(c[i] < t_lo as int);
            }
            if i > ins {
                Self::lemma_chain_ordered(o, ins, i);
                if ins > 0 {
                    Self::lemma_chain_ordered(o, ins - 1, i);
                }
                assert(c[i] > t_hi as int);
            }
        }
        assert(n.chain_wf()) by {
            assert forall|i: int| 0 <= i < cn.len() implies n.start as int <= #[trigger] cn[i] by {}
            assert forall|i: int|
                0 <= i < cn.len() implies (#[trigger] n.node_at(i)).max <= n.max by {}
            assert forall|i: int|
                0 <= i < cn.len() implies cn[i] + NODE_SIZE <= #[trigger] n.node_at(i).max
                    + 1 by {
                if i == ins {
                    assert(o.node_at(ins).max >= c[ins]);
                }
            }
            assert forall|i: int|
                0 <= i < cn.len() implies (#[trigger] n.node_at(i)).next as int == (if i == cn.len()
                    - 1 {
                    n.max as int + 1
                } else {
                    cn[i + 1]
                }) by {}
            assert forall|i: int|
                0 <= i && i + 1 < cn.len() implies (#[trigger] n.node_at(i)).max + 2 <= cn[i
                    + 1] by {
                if i + 1 == ins {
                    // no adjacent predecessor: the gap below `t_lo` stays
                    assert(o.node_at(ins - 1).max < t_lo);
                    assert(o.node_at(ins - 1).max + 1 != t_lo as int);
                }
                if i == ins {
                    assert(o.node_at(ins).max + 2 <= c[ins + 1]) by {
                        if i + 1 < cn.len() {
                            Self::lemma_chain_ordered(o, ins, ins + 1);
                        }
                    }
                }
            }
            if cn.len() > 0 {
                assert(n.free as int == cn[0]);
            } else {
                assert(n.free as int == n.max as int + 1);
            }
        }
        o.lemma_frees_wf();
        assert(n.frees() =~= spec_merge(o.frees(), ins, t_lo as int, t_hi as int, false, true)) by {
            assert forall|i: int|
                0 <= i < cn.len() implies n.frees()[i] == spec_merge(
                o.frees(),
                ins,
                t_lo as int,
                t_hi as int,
                false,
                true,
            )[i] by {}
        }
    }

    /// Only a predecessor exists: it extends over the freed extent.
    #[verifier::rlimit(100)]
    proof fn lemma_merge_chain_pre(o: Self, n: Self, p: int, ins: int, t_lo: usize, t_hi: usize)
        requires
            Self::merge_shape(o, n, p, ins, t_lo, t_hi, true, false),
        ensures
            n.region_wf(),
            n.chain_wf(),
            n.frees() == spec_merge(o.frees(), ins, t_lo as int, t_hi as int, true, false),
    {
        let c = o.chain@;
        let cn = n.chain@;
        assert(o.live_rec_wf(p, o.lives()[p]));
        assert forall|i: int| #![trigger n.node_at(i)] 0 <= i < cn.len() implies {
            &&& i != ins - 1 ==> cn[i] == c[i] && n.node_at(i) == o.node_at(i)
            &&& i == ins - 1 ==> cn[i] == c[i] && n.node_at(i) == (Node {
                max: t_hi,
                next: o.node_at(ins - 1).next,
            })
        } by {
            if i < ins - 1 {
                Self::lemma_chain_ordered(o, i, ins - 1);
            }
            if i > ins - 1 {
                Self::lemma_chain_ordered(o, ins - 1, i);
            }
        }
        assert(n.chain_wf()) by {
            assert forall|i: int| 0 <= i < cn.len() implies n.start as int <= #[trigger] cn[i] by {}
            assert forall|i: int|
                0 <= i < cn.len() implies (#[trigger] n.node_at(i)).max <= n.max by {}
            assert forall|i: int|
                0 <= i < cn.len() implies cn[i] + NODE_SIZE <= #[trigger] n.node_at(i).max
                    + 1 by {
                if i == ins - 1 {
                    assert(c[ins - 1] + NODE_SIZE <= o.node_at(ins - 1).max + 1);
                }
            }
            assert forall|i: int|
                0 <= i < cn.len() implies (#[trigger] n.node_at(i)).next as int == (if i == cn.len()
                    - 1 {
                    n.max as int + 1
                } else {
                    cn[i + 1]
                }) by {}
            assert forall|i: int|
                0 <= i && i + 1 < cn.len() implies (#[trigger] n.node_at(i)).max + 2 <= cn[i
                    + 1] by {
                if i == ins - 1 {
                    // no adjacent successor: the next extent starts past
                    // `t_hi + 1`
                    assert(c[ins] > t_hi as int);
                    assert(c[ins] != t_hi as int + 1);
                }
            }
            if cn.len() > 0 {
                assert(n.free as int == cn[0]);
            } else {
                assert(n.free as int == n.max as int + 1);
            }
        }
        o.lemma_frees_wf();
        assert(n.frees() =~= spec_merge(o.frees(), ins, t_lo as int, t_hi as int, true, false)) by {
            assert forall|i: int|
                0 <= i < cn.len() implies n.frees()[i] == spec_merge(
                o.frees(),
                ins,
                t_lo as int,
                t_hi as int,
                true,
                false,
            )[i] by {}
        }
    }

    /// No neighbour exists: a fresh node for the freed extent is spliced in
    /// at its sorted position.
    #[verifier::rlimit(100)]
    proof fn lemma_merge_chain_neither(
        o: Self,
        n: Self,
        p: int,
        ins: int,
        t_lo: usize,
        t_hi: usize,
    )
        requires
            Self::merge_shape(o, n, p, ins, t_lo, t_hi, false, false),
        ensures
            n.region_wf(),
            n.chain_wf(),
            n.frees() == spec_merge(o.frees(), ins, t_lo as int, t_hi as int, false, false),
    {
        let c = o.chain@;
        let cn = n.chain@;
        assert(o.live_rec_wf(p, o.lives()[p]));
        assert(t_lo + NODE_SIZE <= t_hi + 1);
        assert forall|i: int| #![trigger n.node_at(i)] 0 <= i < cn.len() implies {
            &&& i < ins - 1 ==> cn[i] == c[i] && n.node_at(i) == o.node_at(i)
            &&& i == ins - 1 ==> cn[i] == c[i] && n.node_at(i) == (Node {
                max: o.node_at(ins - 1).max,
                next: t_lo,
            })
            &&& i == ins ==> cn[i] == t_lo as int && n.node_at(i) == (Node {
                max: t_hi,
                next: (if ins < c.len() {
                    c[ins] as usize
                } else {
                    (o.max + 1) as usize
                }),
            })
            &&& i > ins ==> cn[i] == c[i - 1] && n.node_at(i) == o.node_at(i - 1)
        } by {
            if i < ins {
                Self::lemma_chain_ordered(o, i, ins - 1);
                assert(o.node_at(i).max < t_lo);
                assert(c[i] < t_lo as int);
            }
            if i > ins {
                if ins > 0 {
                    Self::lemma_chain_ordered(o, ins - 1, i - 1);
                }
                assert(c[i - 1] > t_hi as int);
            }
        }
        assert(n.chain_wf()) by {
            assert forall|i: int| 0 <= i < cn.len() implies n.start as int <= #[trigger] cn[i] by {}
            assert forall|i: int|
                0 <= i < cn.len() implies (#[trigger] n.node_at(i)).max <= n.max by {}
            assert forall|i: int|
                0 <= i < cn.len() implies cn[i] + NODE_SIZE <= #[trigger] n.node_at(i).max
                    + 1 by {}
            assert forall|i: int|
                0 <= i < cn.len() implies (#[trigger] n.node_at(i)).next as int == (if i == cn.len()
                    - 1 {
                    n.max as int + 1
                } else {
                    cn[i + 1]
                }) by {}
            assert forall|i: int|
                0 <= i && i + 1 < cn.len() implies (#[trigger] n.node_at(i)).max + 2 <= cn[i
                    + 1] by {
                if i + 1 == ins {
                    assert(o.node_at(ins - 1).max < t_lo);
                    assert(o.node_at(ins - 1).max + 1 != t_lo as int);
                }
                if i == ins && ins < c.len() {
                    assert(c[ins] > t_hi as int);
                    assert(c[ins] != t_hi as int + 1);
                }
            }
            if cn.len() > 0 {
                assert(n.free as int == cn[0]);
            } else {
                assert(n.free as int == n.max as int + 1);
            }
        }
        o.lemma_frees_wf();
        assert(n.frees() =~= spec_merge(o.frees(), ins, t_lo as int, t_hi as int, false, false))
            by {
            assert forall|i: int|
                0 <= i < cn.len() implies n.frees()[i] == spec_merge(
                o.frees(),
                ins,
                t_lo as int,
                t_hi as int,
                false,
                false,
            )[i] by {}
        }
    }

    /// After the merge the remaining live records are intact and still
    /// avoid each other and every free extent.
    #[verifier::rlimit(100)]
    proof fn lemma_merge_live(
        o: Self,
        n: Self,
        p: int,
        ins: int,
        t_lo: usize,
        t_hi: usize,
        has_pre: bool,
        has_succ: bool,
    )
        requires
            Self::merge_shape(o, n, p, ins, t_lo, t_hi, has_pre, has_succ),
            n.chain_wf(),
            n.region_wf(),
            n.frees() == spec_merge(o.frees(), ins, t_lo as int, t_hi as int, has_pre, has_succ),
        ensures
            n.live_wf(),
            n.lives_disjoint(),
            n.live_free_disjoint(),
    {
        let c = o.chain@;
        o.lemma_frees_wf();
        n.lemma_frees_wf();
        assert(o.live_rec_wf(p, o.lives()[p]));
        assert forall|q: int|
            #[trigger] n.lives().contains_key(q) implies n.live_rec_wf(q, n.lives()[q]) by {
            assert(o.live_rec_wf(q, o.lives()[q]));
        }
        assert forall|q: int, r: int|
            #[trigger] n.lives().contains_key(q) && #[trigger] n.lives().contains_key(r) && q
                != r implies (n.lives()[q].hi < n.lives()[r].lo || n.lives()[r].hi
            < n.lives()[q].lo) by {
            assert(o.lives().contains_key(q) && o.lives().contains_key(r));
        }
        assert forall|q: int, i: int|
            #[trigger] n.lives().contains_key(q) && 0 <= i < n.chain@.len() implies (n.lives()[q].hi
            < #[trigger] n.chain@[i] || n.node_at(i).max < n.lives()[q].lo) by {
            let rq = o.lives()[q];
            assert(o.live_rec_wf(q, rq));
            assert(rq.lo <= rq.hi);
            assert(n.chain@[i] == n.frees()[i].lo && n.node_at(i).max as int == n.frees()[i].hi);
            let m = n.frees()[i];
            // which old pieces make up extent `i`
            let merged: int = if has_pre {
                ins - 1
            } else {
                ins
            };
            let oi: int = if has_pre && has_succ && i >= ins {
                i + 1
            } else if !has_pre && !has_succ && i > ins {
                i - 1
            } else {
                i
            };
            if i == merged {
                // the merged extent: its points are the predecessor's, the
                // freed extent's, or the successor's
                assert(rq.hi < t_lo as int || rq.lo > t_hi as int);
                if has_pre {
                    assert(rq.hi < c[ins - 1] || o.node_at(ins - 1).max < rq.lo);
                    assert(o.node_at(ins - 1).max + 1 == t_lo as int);
                }
                if has_succ {
                    assert(rq.hi < c[ins] || o.node_at(ins).max < rq.lo);
                    assert(c[ins] == t_hi as int + 1);
                }
                assert(m.lo == (if has_pre {
                    c[ins - 1]
                } else {
                    t_lo as int
                }));
                assert(m.hi == (if has_succ {
                    o.node_at(ins).max as int
                } else {
                    t_hi as int
                }));
            } else {
                assert(m == o.frees()[oi]);
                assert(rq.hi < c[oi] || o.node_at(oi).max < rq.lo);
            }
        }
    }

    /// After the merge the covered addresses are the old ones plus the
    /// freed extent, and the whole region stays covered.
    #[verifier::rlimit(100)]
    proof fn lemma_merge_cover(
        o: Self,
        n: Self,
        p: int,
        ins: int,
        t_lo: usize,
        t_hi: usize,
        has_pre: bool,
        has_succ: bool,
    )
        requires
            Self::merge_shape(o, n, p, ins, t_lo, t_hi, has_pre, has_succ),
            n.chain_wf(),
            n.region_wf(),
            n.frees() == spec_merge(o.frees(), ins, t_lo as int, t_hi as int, has_pre, has_succ),
        ensures
            forall|x: int|
                covered(n.frees(), x) <==> (covered(o.frees(), x) || (t_lo as int <= x
                    <= t_hi as int)),
    {
        let c = o.chain@;
        o.lemma_frees_wf();
        n.lemma_frees_wf();
        assert(o.live_rec_wf(p, o.lives()[p]));
        let merged: int = if has_pre {
            ins - 1
        } else {
            ins
        };
        let m_lo: int = if has_pre {
            c[ins - 1]
        } else {
            t_lo as int
        };
        let m_hi: int = if has_succ {
            o.node_at(ins).max as int
        } else {
            t_hi as int
        };
        assert(n.frees()[merged] == (Extent { lo: m_lo, hi: m_hi }));
        assert forall|x: int| covered(n.frees(), x) implies (covered(o.frees(), x) || (
        t_lo as int <= x <= t_hi as int)) by {
            let i = choose|i: int|
                0 <= i < n.frees().len() && (#[trigger] n.frees()[i]).lo <= x <= n.frees()[i].hi;
            if i == merged {
                if x < t_lo as int {
                    assert(has_pre);
                    assert(o.frees()[ins - 1].lo <= x <= o.frees()[ins - 1].hi);
                    assert(covered(o.frees(), x));
                } else if x > t_hi as int {
                    assert(has_succ);
                    assert(o.frees()[ins].lo <= x <= o.frees()[ins].hi);
                    assert(covered(o.frees(), x));
                }
            } else {
                let oi: int = if has_pre && has_succ && i >= ins {
                    i + 1
                } else if !has_pre && !has_succ && i > ins {
                    i - 1
                } else {
                    i
                };
                assert(n.frees()[i] == o.frees()[oi]);
                assert(covered(o.frees(), x));
            }
        }
        assert forall|x: int| covered(o.frees(), x) implies covered(n.frees(), x) by {
            let j = choose|j: int|
                0 <= j < o.frees().len() && (#[trigger] o.frees()[j]).lo <= x <= o.frees()[j].hi;
            if has_pre && j == ins - 1 {
                assert(m_lo <= x <= m_hi);
                assert(covered(n.frees(), x));
            } else if has_succ && j == ins {
                assert(c[ins] == t_hi as int + 1);
                assert(m_lo <= x <= m_hi);
                assert(covered(n.frees(), x));
            } else {
                let ni: int = if has_pre && has_succ && j > ins {
                    j - 1
                } else if !has_pre && !has_succ && j >= ins {
                    j + 1
                } else {
                    j
                };
                assert(n.frees()[ni] == o.frees()[j]);
                assert(covered(n.frees(), x));
            }
        }
        assert forall|x: int| t_lo as int <= x <= t_hi as int implies covered(n.frees(), x) by {
            assert(m_lo <= x <= m_hi) by {
                if has_succ {
                    assert(c[ins] + NODE_SIZE <= o.node_at(ins).max + 1);
                }
            }
            assert(covered(n.frees(), x));
        }
    }

    /// With the coverage of the free list grown by exactly the freed
    /// extent, the whole region stays covered.
    #[verifier::rlimit(100)]
    proof fn lemma_merge_cover_all(
        o: Self,
        n: Self,
        p: int,
        ins: int,
        t_lo: usize,
        t_hi: usize,
        has_pre: bool,
        has_succ: bool,
    )
        requires
            Self::merge_shape(o, n, p, ins, t_lo, t_hi, has_pre, has_succ),
            forall|x: int|
                covered(n.frees(), x) <==> (covered(o.frees(), x) || (t_lo as int <= x
                    <= t_hi as int)),
        ensures
            n.covered_all(),
    {
        assert(o.live_rec_wf(p, o.lives()[p]));
        assert forall|x: int|
            n.region_start() <= x <= n.region_max() implies covered(n.frees(), x)
                || n.in_live(x) by {
            if o.in_live(x) {
                let q = choose|q: int|
                    #[trigger] o.lives().contains_key(q) && o.lives()[q].lo <= x <= o.lives()[q].hi;
                if q == p {
                    assert(covered(n.frees(), x));
                } else {
                    assert(n.lives().contains_key(q));
                    assert(n.in_live(x));
                }
            } else {
                assert(covered(o.frees(), x));
            }
        }
    }

    /// After the merge surgery the allocator is well formed again, the
    /// record is off the live map, and the free extents cover exactly what
    /// they did before plus the freed extent.
    proof fn lemma_merge_wf(
        &self,
        o: Self,
        p: int,
        ins: int,
        t_lo: usize,
        t_hi: usize,
        has_pre: bool,
        has_succ: bool,
    )
        requires
            Self::merge_shape(o, *self, p, ins, t_lo, t_hi, has_pre, has_succ),
        ensures
            self.wf(),
            self.lives() == o.lives().remove(p),
            self.region_start() == o.region_start(),
            self.region_max() == o.region_max(),
            forall|x: int|
                covered(self.frees(), x) <==> (covered(o.frees(), x) || (o.lives()[p].lo <= x
                    <= o.lives()[p].hi)),
    {
        let n = *self;
        if has_pre && has_succ {
            Self::lemma_merge_chain_both(o, n, p, ins, t_lo, t_hi);
        } else if has_succ {
            Self::lemma_merge_chain_succ(o, n, p, ins, t_lo, t_hi);
        } else if has_pre {
            Self::lemma_merge_chain_pre(o, n, p, ins, t_lo, t_hi);
        } else {
            Self::lemma_merge_chain_neither(o, n, p, ins, t_lo, t_hi);
        }
        Self::lemma_merge_live(o, n, p, ins, t_lo, t_hi, has_pre, has_succ);
        Self::lemma_merge_cover(o, n, p, ins, t_lo, t_hi, has_pre, has_succ);
        Self::lemma_merge_cover_all(o, n, p, ins, t_lo, t_hi, has_pre, has_succ);
        assert(self.wf());
    }

    /// Releases the allocation at `ptr` made with `layout`: reads the
    /// trailer past the user data, reconstructs the footprint, and splices
    /// it back into the free list at its sorted position, coalescing with
    /// an adjacent free extent on either side.
    pub fn deallocate(&mut self, ptr: usize, layout: Layout)
        requires
            old(self).wf(),
            layout.wf(),
            1 <= layout.size,
            old(self).lives().contains_key(ptr as int),
            old(self).lives()[ptr as int].size == layout.size,
        ensures
            final(self).wf(),
            final(self).region_start() == old(self).region_start(),
            final(self).region_max() == old(self).region_max(),
            final(self).lives() == old(self).lives().remove(ptr as int),
            forall|x: int|
                covered(final(self).frees(), x) <==> (covered(old(self).frees(), x) || (old(
                    self,
                ).lives()[ptr as int].lo <= x <= old(self).lives()[ptr as int].hi)),
    {
        let ghost o = *old(self);
        let ghost p = ptr as int;
        let ghost rec = o.lives()[p];
        let ghost c = o.chain@;
        proof {
            assert(o.live_rec_wf(p, rec));
            o.lemma_frees_wf();
        }
        let tlayout = Layout::from_size_align_unchecked(BLOCK_SIZE, BLOCK_ALIGN);
        proof {
            lemma_align_two();
        }
        let ts = tlayout.align_offset(ptr + layout.size());
        let metadata = self.memory.read_block(ts);
        let t_lo = metadata.start;
        let t_hi = metadata.end;
        proof {
            assert(t_lo as int == rec.lo && t_hi as int == rec.hi);
        }
        let invalid: usize = self.invalid();
        let mut current: usize = self.free;
        let mut before: usize = invalid;
        let mut preceding: usize = invalid;
        let mut succeeding: usize = invalid;
        let ghost mut kk: int = 0;
        let ghost mut ins: int = 0;
        while current != invalid
            invariant
                *self == *old(self),
                o == *old(self),
                o.wf(),
                c == o.chain@,
                o.lives().contains_key(p),
                rec == o.lives()[p],
                t_lo as int == rec.lo && t_hi as int == rec.hi,
                o.region_start() <= rec.lo && rec.hi <= o.region_max(),
                invalid == o.max + 1,
                0 <= ins <= kk <= c.len(),
                current as int == (if kk == c.len() {
                    o.max as int + 1
                } else {
                    c[kk]
                }),
                forall|j: int| 0 <= j < ins ==> (#[trigger] o.node_at(j)).max < t_lo,
                forall|j: int| ins <= j < kk ==> #[trigger] c[j] > t_hi as int,
                before as int == (if ins == 0 {
                    o.max as int + 1
                } else {
                    c[ins - 1]
                }),
                preceding as int == (if ins > 0 && o.node_at(ins - 1).max + 1 == t_lo {
                    c[ins - 1]
                } else {
                    o.max as int + 1
                }),
                succeeding as int == (if ins < kk && c[ins] == t_hi + 1 {
                    t_hi as int + 1
                } else {
                    o.max as int + 1
                }),
            decreases c.len() - kk,
        {
            proof {
                if kk == c.len() {
                    assert(false);
                }
                assert(o.lives().contains_key(p) && 0 <= kk < o.chain@.len());
                assert(rec.hi < c[kk] || o.node_at(kk).max < rec.lo);
                assert(o.region_start() <= c[kk]);
                assert(c[kk] + NODE_SIZE <= o.node_at(kk).max + 1);
                assert(o.node_at(kk).max <= o.max);
            }
            let node = self.memory.read_node(current);
            if node.max + 1 == t_lo {
                proof {
                    // an extent ending right before the freed one lies below
                    assert(current < t_lo);
                    assert(ins == kk) by {
                        if ins < kk {
                            Self::lemma_chain_ordered(o, ins, kk);
                        }
                    }
                }
                preceding = current;
            }
            if t_hi + 1 == current {
                proof {
                    assert(ins == kk) by {
                        if ins < kk {
                            Self::lemma_chain_ordered(o, ins, kk);
                        }
                    }
                }
                succeeding = current;
            }
            if current < t_lo {
                proof {
                    // a node below the freed extent heads an extent that is
                    // entirely below it
                    assert(o.node_at(kk).max < t_lo);
                    assert(ins == kk) by {
                        if ins < kk {
                            Self::lemma_chain_ordered(o, ins, kk);
                        }
                    }
                }
                before = current;
                proof {
                    ins = kk + 1;
                }
            } else {
                proof {
                    assert(c[kk] > t_hi as int);
                    if ins > 0 && o.node_at(ins - 1).max + 1 == t_lo as int {
                        Self::lemma_chain_ordered(o, ins - 1, kk);
                    }
                }
            }
            current = node.next;
            proof {
                kk = kk + 1;
            }
        }
        proof {
            if kk < c.len() {
                assert(c[kk] + NODE_SIZE <= o.node_at(kk).max + 1);
                assert(o.node_at(kk).max <= o.max);
                assert(false);
            }
        }
        let pre_found: bool = preceding != invalid;
        let succ_found: bool = succeeding != invalid;
        proof {
            if ins > 0 {
                assert(c[ins - 1] + NODE_SIZE <= o.node_at(ins - 1).max + 1);
                assert(o.node_at(ins - 1).max <= o.max);
                assert(c[ins - 1] <= o.node_at(ins - 1).max < t_lo as int);
            }
            if ins < c.len() {
                assert(c[ins] + NODE_SIZE <= o.node_at(ins).max + 1);
                assert(o.node_at(ins).max <= o.max);
                assert(c[ins] < o.memory.nodes().len());
            }
            assert(pre_found == (ins > 0 && o.node_at(ins - 1).max + 1 == t_lo));
            assert(succ_found == (ins < c.len() && c[ins] == t_hi + 1));
        }
        if succ_found && pre_found {
            let succ_node = self.memory.read_node(succeeding);
            self.remove(succeeding, preceding);
            let pre_node = self.memory.read_node(preceding);
            self.memory.write_node(preceding, Node { max: succ_node.max, next: pre_node.next });
            self.chain = Ghost(c.remove(ins));
        } else if succ_found {
            let succ_node = self.memory.read_node(succeeding);
            self.memory.write_node(t_lo, Node { max: succ_node.max, next: succ_node.next });
            self.set_next(before, t_lo);
            self.chain = Ghost(c.update(ins, t_lo as int));
        } else if pre_found {
            let pre_node = self.memory.read_node(preceding);
            self.memory.write_node(preceding, Node { max: t_hi, next: pre_node.next });
        } else {
            let next0: usize = if before != invalid {
                self.memory.read_node(before).next
            } else {
                self.free
            };
            proof {
                assert(next0 as int == (if ins < c.len() {
                    c[ins]
                } else {
                    o.max as int + 1
                }));
            }
            self.memory.write_node(t_lo, Node { max: t_hi, next: next0 });
            self.set_next(before, t_lo);
            self.chain = Ghost(c.insert(ins, t_lo as int));
        }
        self.live = Ghost(o.lives().remove(p));
        proof {
            assert(Self::merge_shape(o, *self, p, ins, t_lo, t_hi, pre_found, succ_found));
            self.lemma_merge_wf(o, p, ins, t_lo, t_hi, pre_found, succ_found);
        }
    }

    /// The free extents in list order, each as its `(first, last)` address
    /// pair.
    pub fn free_extents(&self) -> (v: Vec<(usize, usize)>)
        requires
            self.wf(),
        ensures
            v@.len() == self.frees().len(),
            forall|i: int|
                0 <= i < v@.len() ==> v@[i].0 as int == (#[trigger] self.frees()[i]).lo
                    && v@[i].1 as int == self.frees()[i].hi,
    {
        let ghost c = self.chain@;
        let invalid: usize = self.invalid();
        let mut v: Vec<(usize, usize)> = Vec::new();
        let mut current: usize = self.free;
        let ghost mut k: int = 0;
        while current != invalid
            invariant
                self.wf(),
                c == self.chain@,
                invalid == self.max + 1,
                0 <= k <= c.len(),
                current as int == (if k == c.len() {
                    self.max as int + 1
                } else {
                    c[k]
                }),
                v@.len() == k,
                forall|i: int|
                    0 <= i < k ==> v@[i].0 as int == (#[trigger] self.frees()[i]).lo
                        && v@[i].1 as int == self.frees()[i].hi,
            decreases c.len() - k,
        {
            proof {
                if k == c.len() {
                    assert(false);
                }
                assert(self.start as int <= c[k]);
                assert(c[k] + NODE_SIZE <= self.node_at(k).max + 1);
                assert(self.node_at(k).max <= self.max);
            }
            let node = self.memory.read_node(current);
            v.push((current, node.max));
            current = node.next;
            proof {
                k = k + 1;
            }
        }
        proof {
            if k < c.len() {
                assert(c[k] + NODE_SIZE <= self.node_at(k).max + 1);
                assert(self.node_at(k).max <= self.max);
                assert(false);
            }
        }
        v
    }

    /// Disjointness: no two live extents overlap, and no live extent
    /// overlaps any free extent.
    pub proof fn lemma_disjointness(&self)
        requires
            self.wf(),
        ensures
            forall|p: int, q: int|
                #[trigger] self.lives().contains_key(p) && #[trigger] self.lives().contains_key(q)
                    && p != q ==> (self.lives()[p].hi < self.lives()[q].lo || self.lives()[q].hi
                    < self.lives()[p].lo),
            forall|p: int, i: int|
                #[trigger] self.lives().contains_key(p) && 0 <= i < self.frees().len() ==> (
                self.lives()[p].hi < (#[trigger] self.frees()[i]).lo || self.frees()[i].hi
                    < self.lives()[p].lo),
    {
        self.lemma_frees_wf();
        assert forall|p: int, i: int|
            #[trigger] self.lives().contains_key(p) && 0 <= i < self.frees().len() implies (
        self.lives()[p].hi < (#[trigger] self.frees()[i]).lo || self.frees()[i].hi
            < self.lives()[p].lo) by {
            assert(self.lives()[p].hi < self.chain@[i] || self.node_at(i).max
                < self.lives()[p].lo);
        }
    }

    /// Coverage: the free extents and the live extents together are exactly
    /// the managed region.
    pub proof fn lemma_coverage(&self)
        requires
            self.wf(),
        ensures
            forall|x: int|
                self.region_start() <= x <= self.region_max() <==> (covered(self.frees(), x)
                    || #[trigger] self.in_live(x)),
    {
        self.lemma_frees_wf();
        assert forall|x: int|
            self.region_start() <= x <= self.region_max() <==> (covered(self.frees(), x)
                || #[trigger] self.in_live(x)) by {
            if covered(self.frees(), x) {
                let i = choose|i: int|
                    0 <= i < self.frees().len() && (#[trigger] self.frees()[i]).lo <= x
                        <= self.frees()[i].hi;
                assert(self.start as int <= self.chain@[i]);
                assert(self.node_at(i).max <= self.max);
            }
            if self.in_live(x) {
                let p = choose|p: int|
                    #[trigger] self.lives().contains_key(p) && self.lives()[p].lo <= x
                        <= self.lives()[p].hi;
                assert(self.live_rec_wf(p, self.lives()[p]));
            }
        }
    }

    /// Sorted free list, fully coalesced: along the list the extents ascend
    /// strictly, and consecutive free extents are separated by at least one
    /// address.
    pub proof fn lemma_free_list_sorted(&self)
        requires
            self.wf(),
        ensures
            extents_wf(self.frees()),
            forall|i: int|
                0 <= i && i + 1 < self.frees().len() ==> (#[trigger] self.frees()[i]).lo
                    < self.frees()[i + 1].lo,
            forall|i: int|
                0 <= i && i + 1 < self.frees().len() ==> (#[trigger] self.frees()[i]).hi + 1
                    < self.frees()[i + 1].lo,
    {
        self.lemma_frees_wf();
    }

    /// Idempotent emptying: with no live allocation outstanding, the free
    /// list is exactly one extent spanning the whole region.
    pub proof fn lemma_empty_single_extent(&self)
        requires
            self.wf(),
            self.lives() =~= Map::<int, LiveRec>::empty(),
        ensures
            self.frees() =~= seq![Extent { lo: self.region_start(), hi: self.region_max() }],
    {
        self.lemma_frees_wf();
        let full = seq![Extent { lo: self.region_start(), hi: self.region_max() }];
        assert(extents_wf(full));
        assert forall|x: int| covered(self.frees(), x) <==> covered(full, x) by {
            if covered(self.frees(), x) {
                let i = choose|i: int|
                    0 <= i < self.frees().len() && (#[trigger] self.frees()[i]).lo <= x
                        <= self.frees()[i].hi;
                assert(self.start as int <= self.chain@[i]);
                assert(self.node_at(i).max <= self.max);
                assert(full[0].lo <= x <= full[0].hi);
                assert(covered(full, x));
            }
            if covered(full, x) {
                assert(self.region_start() <= x <= self.region_max());
                assert(covered(self.frees(), x) || self.in_live(x));
                if self.in_live(x) {
                    let p = choose|p: int|
                        #[trigger] self.lives().contains_key(p) && self.lives()[p].lo <= x
                            <= self.lives()[p].hi;
                    assert(false);
                }
            }
        }
        lemma_unique_decomposition(self.frees(), full);
    }
}

/// Round trip: a release directly after an allocation restores the free
/// list exactly, extent for extent.  The hypotheses are what
/// [`FreeList::allocate`] and [`FreeList::deallocate`] guarantee of the
/// free extents: the carve took the live extent out of free extent `k`, and
/// the merge made free exactly the old coverage plus that extent.
pub proof fn lemma_alloc_dealloc_round_trip(
    pre: Seq<Extent>,
    mid: Seq<Extent>,
    post: Seq<Extent>,
    k: int,
    layout: Layout,
)
    requires
        extents_wf(pre),
        extents_wf(post),
        layout.wf(),
        1 <= layout.size,
        0 <= k < pre.len(),
        0 <= pre[k].lo,
        spec_fits(pre[k], layout),
        mid == spec_carve(pre, k, layout).0,
        forall|x: int|
            covered(post, x) <==> (covered(mid, x) || (spec_carve(pre, k, layout).1.lo <= x
                <= spec_carve(pre, k, layout).1.hi)),
    ensures
        post =~= pre,
{
    let e = pre[k];
    let live = spec_carve(pre, k, layout).1;
    let tail = spec_tail_start(e.lo, layout);
    let splitting = tail + spec_min_free_total() <= e.hi + 1;
    lemma_geometry_monotone(e.lo, layout);
    assert(e.lo <= live.hi <= e.hi);
    assert forall|x: int| covered(post, x) <==> covered(pre, x) by {
        if covered(mid, x) {
            let i = choose|i: int|
                0 <= i < mid.len() && (#[trigger] mid[i]).lo <= x <= mid[i].hi;
            if splitting && i == k {
                assert(pre[k].lo <= x <= pre[k].hi);
                assert(covered(pre, x));
            } else {
                let oi: int = if !splitting && i >= k {
                    i + 1
                } else {
                    i
                };
                assert(mid[i] == pre[oi]);
                assert(covered(pre, x));
            }
        }
        if live.lo <= x <= live.hi {
            assert(pre[k].lo <= x <= pre[k].hi);
            assert(covered(pre, x));
        }
        if covered(pre, x) {
            let j = choose|j: int|
                0 <= j < pre.len() && (#[trigger] pre[j]).lo <= x <= pre[j].hi;
            if j == k {
                if x <= live.hi {
                    assert(covered(post, x));
                } else {
                    assert(splitting);
                    assert(mid[k].lo <= x <= mid[k].hi);
                    assert(covered(mid, x));
                    assert(covered(post, x));
                }
            } else {
                let ni: int = if !splitting && j > k {
                    j - 1
                } else {
                    j
                };
                assert(mid[ni] == pre[j]);
                assert(covered(mid, x));
                assert(covered(post, x));
            }
        }
    }
    lemma_unique_decomposition(post, pre);
}

impl<M: Memory> Alloc for FreeList<M> {
    open spec fn allocate_pre(&self, layout: Layout) -> bool {
        self.wf() && layout.wf()
    }

    open spec fn deallocate_pre(&self, ptr: usize, layout: Layout) -> bool {
        &&& self.wf()
        &&& layout.wf()
        &&& 1 <= layout.size
        &&& self.lives().contains_key(ptr as int)
        &&& self.lives()[ptr as int].size == layout.size
    }

    fn allocate(&mut self, layout: Layout) -> Result<usize, AllocErr> {
        self.allocate(layout)
    }

    fn deallocate(&mut self, ptr: usize, layout: Layout) {
        self.deallocate(ptr, layout)
    }
}

} // verus!
