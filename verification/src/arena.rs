//! A bump allocator: memory from fixed-size blocks, freed all at once.

use vstd::prelude::*;

verus! {

/// Size of a block unless another is chosen.
pub const DEFAULT_BLOCK_SIZE: usize = 8192;

/// A bump allocator. Each request is carved out of the last block if it fits
/// there; else a new block is made.
pub struct Arena {
    /// Size of an ordinary block.
    pub block_size: usize,
    blocks: Vec<Vec<u8>>,
    /// Where the free part of the last block starts.
    current_offset: usize,
    /// Sum of the sizes of the blocks.
    memory_usage: usize,
}

/// The contents of an [`Arena`].
pub struct ArenaView {
    pub block_size: nat,
    pub blocks: Seq<Seq<u8>>,
    /// Where the free part of the last block starts.
    pub offset: nat,
}

/// That many zero bytes.
pub open spec fn zeros(n: nat) -> Seq<u8> {
    Seq::new(n, |i: int| 0u8)
}

/// The sum of the sizes of the blocks.
pub open spec fn total(blocks: Seq<Seq<u8>>) -> nat
    decreases blocks.len(),
{
    if blocks.len() == 0 {
        0
    } else {
        total(blocks.drop_last()) + blocks.last().len()
    }
}

/// The contents of each block.
pub open spec fn contents(blocks: Seq<Vec<u8>>) -> Seq<Seq<u8>> {
    Seq::new(blocks.len(), |i: int| blocks[i]@)
}

/// `size` bytes fit in the last block, after `skip` more.
pub open spec fn fits(v: ArenaView, skip: nat, size: nat) -> bool {
    v.blocks.len() > 0 && v.offset + skip + size <= v.blocks.last().len()
}

/// The size of the block made for a request that does not fit: a block of its
/// own for a request above the ordinary size.
pub open spec fn new_block_size(v: ArenaView, size: nat) -> nat {
    if size > v.block_size {
        size
    } else {
        v.block_size
    }
}

/// The arena with one more block, of `n` zero bytes.
pub open spec fn with_block(v: ArenaView, n: nat) -> ArenaView {
    ArenaView { blocks: v.blocks.push(zeros(n)), offset: 0, block_size: v.block_size }
}

/// The arena when the bytes `skip` on in the last block have been handed out
/// and `data` has been written to them.
pub open spec fn carved(v: ArenaView, skip: nat, data: Seq<u8>) -> ArenaView {
    written(ArenaView { offset: v.offset + skip + data.len(), ..v }, v.offset + skip, data)
}

/// The arena that a request for `size` bytes is carved out of: as it is if they
/// fit, else with a new block.
pub open spec fn with_room(v: ArenaView, size: nat) -> ArenaView {
    if fits(v, 0, size) {
        v
    } else {
        with_block(v, new_block_size(v, size))
    }
}

/// A new block of `n` bytes can be counted.
pub open spec fn can_add(v: ArenaView, n: nat) -> bool {
    total(v.blocks) + n <= usize::MAX
}

/// What holds of every arena: the offset lies in the last block, and the free
/// part of that block is zero.
pub open spec fn valid(v: ArenaView) -> bool {
    &&& v.block_size > 0
    &&& v.blocks.len() > 0 ==> v.offset <= v.blocks.last().len()
    &&& v.blocks.len() > 0 ==> forall|i: int|
        v.offset <= i < v.blocks.last().len() ==> #[trigger] v.blocks.last()[i] == 0
    &&& v.blocks.len() == 0 ==> v.offset == 0
}

/// `skip` bytes lead from `offset` bytes after `address` to a multiple of
/// `align`.
pub open spec fn is_padding(address: usize, offset: nat, align: usize, skip: nat) -> bool {
    &&& skip < align
    &&& (address + offset + skip) % align as int == 0
}

/// The arena with `data` from `start` on in the last block.
pub open spec fn written(v: ArenaView, start: nat, data: Seq<u8>) -> ArenaView {
    ArenaView { blocks: put(v.blocks, start, data, data.len()), ..v }
}

/// The blocks with `data` in place of `size` bytes from `start` on in the last.
pub open spec fn put(blocks: Seq<Seq<u8>>, start: nat, data: Seq<u8>, size: nat) -> Seq<Seq<u8>> {
    let b = blocks.last();
    blocks.update(blocks.len() - 1, b.take(start as int) + data + b.skip((start + size) as int))
}

proof fn lemma_put(blocks: Seq<Seq<u8>>, start: nat, size: nat)
    requires
        blocks.len() > 0,
        start + size <= blocks.last().len(),
    ensures
        forall|data: Seq<u8>|
            data.len() == size ==> same_but(
                #[trigger] put(blocks, start, data, size),
                blocks,
                start + size,
            ),
{
    assert forall|data: Seq<u8>| data.len() == size implies same_but(
        #[trigger] put(blocks, start, data, size),
        blocks,
        start + size,
    ) by {
        let b = blocks.last();
        lemma_total_update(blocks, b.take(start as int) + data + b.skip((start + size) as int));
    }
}

/// Blocks of the same sizes, the last the same from `end` on.
spec fn same_but(a: Seq<Seq<u8>>, b: Seq<Seq<u8>>, end: nat) -> bool {
    &&& a.len() == b.len()
    &&& total(a) == total(b)
    &&& a.last().len() == b.last().len()
    &&& forall|i: int| end <= i < b.last().len() ==> #[trigger] a.last()[i] == b.last()[i]
}

/// `n` is a power of two.
pub open spec fn is_power_of_two(n: nat) -> bool {
    exists|k: nat| n == #[trigger] vstd::arithmetic::power2::pow2(k)
}

/// The address of a block's first byte.
///
/// `Vec::as_ptr` points to the buffer. Where that is depends on the allocator,
/// so nothing is said of the result.
#[verifier::external_body]
fn address_of(block: &Vec<u8>) -> (r: usize) {
    block.as_ptr() as usize
}

/// The least number of bytes after `address` at which a multiple of `align`
/// lies.
pub fn align_padding(address: usize, align: usize) -> (r: usize)
    requires
        is_power_of_two(align as nat),
    ensures
        r < align,
        (address + r) % align as int == 0,
{
    proof {
        let k = choose|k: nat| align as nat == #[trigger] vstd::arithmetic::power2::pow2(k);
        vstd::arithmetic::power2::lemma_pow2_pos(k);
    }
    let over: usize = address % align;
    let r: usize = if over == 0 {
        0
    } else {
        align - over
    };
    proof {
        let a = address as int;
        let m = align as int;
        let q = a / m;
        vstd::arithmetic::div_mod::lemma_fundamental_div_mod(a, m);
        if over == 0 {
            assert((a + r) % m == 0);
        } else {
            assert(a + r == m * q + m);
            assert(m * q + m == (q + 1) * m) by (nonlinear_arith);
            vstd::arithmetic::div_mod::lemma_mod_multiples_basic(q + 1, m);
        }
    }
    r
}

/// The least number of bytes after `address + offset` at which a multiple of
/// `align` lies.
fn padding_at(address: usize, offset: usize, align: usize) -> (r: usize)
    requires
        is_power_of_two(align as nat),
    ensures
        is_padding(address, offset as nat, align, r as nat),
{
    let from_address: usize = align_padding(address, align);
    let over: usize = offset % align;
    let r: usize = if over <= from_address {
        from_address - over
    } else {
        from_address + (align - over)
    };
    proof {
        let m = align as int;
        let a = address + from_address;
        let q1 = a / m;
        let q2 = offset as int / m;
        vstd::arithmetic::div_mod::lemma_fundamental_div_mod(a, m);
        vstd::arithmetic::div_mod::lemma_fundamental_div_mod(offset as int, m);
        let q = if over <= from_address {
            q1 + q2
        } else {
            q1 + q2 + 1
        };
        assert(m * q1 + m * q2 == (q1 + q2) * m) by (nonlinear_arith);
        assert(m * q1 + m * q2 + m == (q1 + q2 + 1) * m) by (nonlinear_arith);
        assert(address + offset + r == q * m);
        vstd::arithmetic::div_mod::lemma_mod_multiples_basic(q, m);
    }
    r
}

proof fn lemma_total_push(blocks: Seq<Seq<u8>>, b: Seq<u8>)
    ensures
        total(blocks.push(b)) == total(blocks) + b.len(),
{
    assert(blocks.push(b).drop_last() =~= blocks);
}

proof fn lemma_total_update(blocks: Seq<Seq<u8>>, b: Seq<u8>)
    requires
        blocks.len() > 0,
        b.len() == blocks.last().len(),
    ensures
        total(blocks.update(blocks.len() - 1, b)) == total(blocks),
{
    assert(blocks.update(blocks.len() - 1, b).drop_last() =~= blocks.drop_last());
}

impl View for Arena {
    type V = ArenaView;

    closed spec fn view(&self) -> ArenaView {
        ArenaView {
            block_size: self.block_size as nat,
            blocks: contents(self.blocks@),
            offset: self.current_offset as nat,
        }
    }
}

impl Arena {
    /// The contents are valid and the sizes add up.
    pub closed spec fn wf(&self) -> bool {
        valid(self@) && self.memory_usage == total(self@.blocks)
    }

    /// `address` may be where the last block starts, as `Vec::as_ptr` gives it.
    pub closed spec fn starts_at(&self, address: usize) -> bool {
        call_ensures(address_of, (&self.blocks@.last(),), address)
    }

    /// `address` may be where a new block of `n` zero bytes starts, as
    /// `Vec::as_ptr` gives it.
    pub closed spec fn new_block_starts_at(n: nat, address: usize) -> bool {
        exists|b: Vec<u8>| b@ == zeros(n) && #[trigger] call_ensures(address_of, (&b,), address)
    }

    /// An empty arena with blocks of the default size.
    pub fn new() -> (r: Self)
        ensures
            r.wf(),
            r@ == (ArenaView {
                block_size: DEFAULT_BLOCK_SIZE as nat,
                blocks: Seq::empty(),
                offset: 0,
            }),
    {
        Self::with_block_size(DEFAULT_BLOCK_SIZE)
    }

    /// An empty arena with blocks of `block_size` bytes.
    pub fn with_block_size(block_size: usize) -> (r: Self)
        requires
            block_size > 0,
        ensures
            r.wf(),
            r@ == (ArenaView { block_size: block_size as nat, blocks: Seq::empty(), offset: 0 }),
    {
        let r = Arena { block_size, blocks: Vec::new(), current_offset: 0, memory_usage: 0 };
        assert(contents(r.blocks@) =~= Seq::<Seq<u8>>::empty());
        r
    }

    /// A request for `size` bytes, all zero. What the caller writes to them
    /// stays in the arena.
    pub fn allocate(&mut self, size: usize) -> (r: &mut [u8])
        requires
            old(self).wf(),
            size == 0 || fits(old(self)@, 0, size as nat) || can_add(
                old(self)@,
                new_block_size(old(self)@, size as nat),
            ),
        ensures
            r@ == zeros(size as nat),
            size == 0 ==> final(self)@ == old(self)@ && final(self).wf(),
            size > 0 && final(r)@.len() == size ==> final(self).wf() && final(self)@ == carved(
                with_room(old(self)@, size as nat),
                0,
                final(r)@,
            ),
    {
        if size == 0 {
            return &mut [];
        }
        if !self.has_room(0, size) {
            let block_size: usize = if size > self.block_size {
                size
            } else {
                self.block_size
            };
            self.allocate_new_block(block_size);
        }
        self.hand_out(0, size)
    }

    /// A request for `size` bytes, all zero, at an address that is a multiple
    /// of `align`: in the last block if they fit there, else in a new block
    /// that is large enough wherever the allocator puts it.
    pub fn allocate_aligned(&mut self, size: usize, align: usize) -> (r: &mut [u8])
        requires
            old(self).wf(),
            is_power_of_two(align as nat),
            size == 0 || fits(old(self)@, (align - 1) as nat, size as nat) || can_add(
                old(self)@,
                new_block_size(old(self)@, (size + align - 1) as nat),
            ),
        ensures
            r@ == zeros(size as nat),
            size == 0 ==> final(self)@ == old(self)@ && final(self).wf(),
            size > 0 && final(r)@.len() == size ==> {
                let v = old(self)@;
                let n = new_block_size(v, (size + align - 1) as nat);
                &&& final(self).wf()
                &&& {
                    ||| exists|address: usize, skip: nat|
                        {
                            &&& #[trigger] old(self).starts_at(address)
                            &&& #[trigger] is_padding(address, v.offset, align, skip)
                            &&& fits(v, skip, size as nat)
                            &&& final(self)@ == carved(v, skip, final(r)@)
                        }
                    ||| {
                        &&& v.blocks.len() > 0 ==> exists|address: usize, skip: nat|
                            {
                                &&& #[trigger] old(self).starts_at(address)
                                &&& #[trigger] is_padding(address, v.offset, align, skip)
                                &&& !fits(v, skip, size as nat)
                            }
                        &&& exists|address: usize, skip: nat|
                            {
                                &&& #[trigger] Self::new_block_starts_at(n, address)
                                &&& #[trigger] is_padding(address, 0, align, skip)
                                &&& final(self)@ == carved(with_block(v, n), skip, final(r)@)
                            }
                    }
                }
            },
    {
        proof {
            let k = choose|k: nat| align as nat == #[trigger] vstd::arithmetic::power2::pow2(k);
            vstd::arithmetic::power2::lemma_pow2_pos(k);
        }
        if size == 0 {
            return &mut [];
        }
        let n: usize = self.blocks.len();
        if n > 0 {
            let address: usize = address_of(&self.blocks[n - 1]);
            let padding: usize = padding_at(address, self.current_offset, align);
            assert(self.starts_at(address));
            if self.has_room(padding, size) {
                return self.hand_out(padding, size);
            }
        }
        let needed: usize = size + (align - 1);
        let block_size: usize = if needed > self.block_size {
            needed
        } else {
            self.block_size
        };
        self.allocate_new_block(block_size);
        let address: usize = address_of(&self.blocks[n]);
        let padding: usize = padding_at(address, 0, align);
        proof {
            assert(self@.blocks.last() == self.blocks@[n as int]@);
            assert(Self::new_block_starts_at(block_size as nat, address));
        }
        self.hand_out(padding, size)
    }

    /// Whether `size` bytes fit in the last block, after `skip` more.
    fn has_room(&self, skip: usize, size: usize) -> (r: bool)
        requires
            self.wf(),
        ensures
            r == fits(self@, skip as nat, size as nat),
    {
        let n: usize = self.blocks.len();
        if n == 0 {
            return false;
        }
        assert(self@.blocks.last() == self.blocks@[n - 1]@);
        let remaining: usize = self.blocks[n - 1].len() - self.current_offset;
        skip <= remaining && size <= remaining - skip
    }

    /// Hands out `size` bytes of the last block, after `skip` more.
    fn hand_out(&mut self, skip: usize, size: usize) -> (r: &mut [u8])
        requires
            old(self).wf(),
            fits(old(self)@, skip as nat, size as nat),
        ensures
            r@ == zeros(size as nat),
            final(r)@.len() == size ==> final(self).wf() && final(self)@ == carved(
                old(self)@,
                skip as nat,
                final(r)@,
            ),
    {
        assert(self@.blocks.last() == self.blocks@.last()@);
        let start: usize = self.current_offset + skip;
        self.current_offset = start + size;
        let ghost mid = self@.blocks;
        let r = carve(&mut self.blocks, start, size);
        proof {
            assert(r@ =~= zeros(size as nat));
            lemma_put(mid, start as nat, size as nat);
        }
        r
    }

    /// The number of bytes in all blocks, used or not.
    pub fn memory_usage(&self) -> (r: usize)
        requires
            self.wf(),
        ensures
            r == total(self@.blocks),
    {
        self.memory_usage
    }

    /// The number of blocks.
    pub fn block_count(&self) -> (r: usize)
        ensures
            r == self@.blocks.len(),
    {
        self.blocks.len()
    }

    /// Appends a block of `size` zero bytes.
    fn allocate_new_block(&mut self, size: usize)
        requires
            old(self).wf(),
            total(old(self)@.blocks) + size <= usize::MAX,
        ensures
            final(self).wf(),
            final(self)@ == with_block(old(self)@, size as nat),
    {
        let block: Vec<u8> = vec![0u8; size];
        proof {
            assert(block@ =~= zeros(size as nat));
            lemma_total_push(self@.blocks, block@);
        }
        self.memory_usage = self.memory_usage + size;
        self.blocks.push(block);
        self.current_offset = 0;
        assert(contents(self.blocks@) =~= old(self)@.blocks.push(zeros(size as nat)));
    }
}

impl Default for Arena {
    fn default() -> (r: Self)
        ensures
            r.wf(),
            r@ == (ArenaView {
                block_size: DEFAULT_BLOCK_SIZE as nat,
                blocks: Seq::empty(),
                offset: 0,
            }),
    {
        Self::new()
    }
}

/// The last block holds `data` from `start` on, and they are handed out.
pub open spec fn holds_at(v: ArenaView, start: nat, data: Seq<u8>) -> bool {
    &&& start + data.len() <= v.blocks.last().len()
    &&& v.blocks.last().subrange(start as int, (start + data.len()) as int) == data
    &&& v.offset == start + data.len()
}

/// What holds of the contents of every well-formed arena.
pub proof fn lemma_wf(a: Arena)
    requires
        a.wf(),
    ensures
        valid(a@),
{
}

/// What was handed out stays as it was: a later request, aligned or not, in the
/// last block or in a new one, lies in bytes that were not handed out, holds
/// what is written to it, and changes no byte that was handed out before.
pub proof fn law_allocations_are_apart(a: Arena, skip: nat, n: nat, data: Seq<u8>, b: int, i: int)
    requires
        a.wf(),
        0 <= b < a@.blocks.len(),
        0 <= i < a@.blocks[b].len(),
        b < a@.blocks.len() - 1 || i < a@.offset,
    ensures
        fits(a@, skip, data.len()) ==> {
            let after = carved(a@, skip, data);
            &&& after.blocks[b][i] == a@.blocks[b][i]
            &&& holds_at(after, a@.offset + skip, data)
        },
        skip + data.len() <= n ==> {
            let after = carved(with_block(a@, n), skip, data);
            &&& after.blocks[b][i] == a@.blocks[b][i]
            &&& holds_at(after, skip, data)
        },
{
    if fits(a@, skip, data.len()) {
        let start = (a@.offset + skip) as int;
        assert(carved(a@, skip, data).blocks.last().subrange(start, start + data.len()) =~= data);
    }
    if skip + data.len() <= n {
        assert(carved(with_block(a@, n), skip, data).blocks.last().subrange(
            skip as int,
            (skip + data.len()) as int,
        ) =~= data);
    }
}

/// The `size` bytes from `start` on in the last block.
fn carve(blocks: &mut Vec<Vec<u8>>, start: usize, size: usize) -> (r: &mut [u8])
    requires
        old(blocks)@.len() > 0,
        start + size <= old(blocks)@.last()@.len(),
    ensures
        r@ == old(blocks)@.last()@.subrange(start as int, start + size),
        contents(final(blocks)@) =~~= put(
            contents(old(blocks)@),
            start as nat,
            final(r)@,
            size as nat,
        ),
{
    let n: usize = blocks.len();
    let block: &mut Vec<u8> = &mut blocks[n - 1];
    let all: &mut [u8] = block.as_mut_slice();
    let (head, rest) = all.split_at_mut(start);
    let (mid, tail) = rest.split_at_mut(size);
    mid
}

/// An allocation goes behind the last one where the last block has room for it. Else
/// a new block of zeros is added, of the usual size or, for a larger allocation, of
/// its own, and it goes to the start of that. Blocks and their sizes stay.
pub proof fn law_allocations_fill_blocks(v: ArenaView, size: nat, skip: nat, data: Seq<u8>, b: int)
    requires
        0 <= b < v.blocks.len(),
        v.offset + skip + data.len() <= v.blocks.last().len(),
    ensures
        fits(v, skip, size) <==> v.offset + skip + size <= v.blocks.last().len(),
        fits(v, 0, size) ==> with_room(v, size) == v,
        !fits(v, 0, size) ==> {
            let w = with_room(v, size);
            &&& w.blocks.len() == v.blocks.len() + 1
            &&& w.blocks[b] == v.blocks[b]
            &&& w.blocks.last().len() == if size > v.block_size {
                size
            } else {
                v.block_size
            }
            &&& forall|i: int| 0 <= i < w.blocks.last().len() ==> #[trigger] w.blocks.last()[i] == 0
            &&& w.offset == 0
            &&& w.block_size == v.block_size
        },
        ({
            let w = carved(v, skip, data);
            let start = (v.offset + skip) as int;
            &&& w.offset == start + data.len()
            &&& w.block_size == v.block_size
            &&& w.blocks.len() == v.blocks.len()
            &&& w.blocks[b].len() == v.blocks[b].len()
            &&& b < v.blocks.len() - 1 ==> w.blocks[b] == v.blocks[b]
            &&& w.blocks.last().subrange(start, start + data.len()) == data
            &&& forall|i: int|
                0 <= i < start || start + data.len() <= i < v.blocks.last().len()
                    ==> #[trigger] w.blocks.last()[i] == v.blocks.last()[i]
        }),
{
    let w = carved(v, skip, data);
    let start = (v.offset + skip) as int;
    assert(w.blocks.last().subrange(start, start + data.len()) =~= data);
    let r = with_room(v, size);
    if !fits(v, 0, size) {
        assert(r.blocks.last() == zeros(new_block_size(v, size)));
    }
}

/// An arena without blocks has no room; the first allocation gets it one.
pub proof fn law_empty_arena_gets_a_block(v: ArenaView, size: nat, skip: nat)
    requires
        v.blocks.len() == 0,
    ensures
        !fits(v, skip, size),
        with_room(v, size).blocks.len() == 1,
        with_room(v, size).blocks[0] == Seq::new(
            if size > v.block_size {
                size
            } else {
                v.block_size
            },
            |i: int| 0u8,
        ),
        with_room(v, size).offset == 0,
        with_room(v, size).block_size == v.block_size,
{
}

/// The memory in use is the sizes of the blocks, added up.
pub proof fn law_memory_is_the_sum_of_blocks(blocks: Seq<Seq<u8>>, last: Seq<u8>)
    ensures
        total(Seq::empty()) == 0,
        total(blocks.push(last)) == total(blocks) + last.len(),
{
    assert(blocks.push(last).drop_last() =~= blocks);
}

/// Padding brings an address up to the next multiple of the alignment, and no further.
pub proof fn law_padding_is_the_least(address: usize, offset: nat, align: usize, skip: nat, less: nat)
    requires
        align > 0,
        is_padding(address, offset, align, skip),
    ensures
        (address + offset + skip) % align as int == 0,
        skip < align,
        less < skip ==> (address + offset + less) % align as int != 0,
{
    if less < skip {
        let a = align as int;
        let x = address + offset + less;
        let y = address + offset + skip;
        if x % a == 0 {
            vstd::arithmetic::div_mod::lemma_fundamental_div_mod(x, a);
            vstd::arithmetic::div_mod::lemma_fundamental_div_mod(y, a);
            assert(y - x == a * (y / a) - a * (x / a));
            assert(a * (y / a) - a * (x / a) == a * (y / a - x / a)) by (nonlinear_arith);
            let d = y / a - x / a;
            assert(0 < a * d < a);
            assert(d > 0) by (nonlinear_arith)
                requires
                    a * d > 0,
                    a > 0,
            ;
            assert(a * d >= a) by (nonlinear_arith)
                requires
                    d >= 1,
                    a > 0,
            ;
        }
    }
}

} // verus!
