//! A model of the OS anonymous paging primitive: a set of disjoint,
//! page-aligned regions keyed by base address, with a byte capacity that
//! mapping consumes and unmapping returns. Mapping yields zero-filled
//! pages at fresh, increasing bases; unmapping demands the exact length
//! the region was mapped with.

use vstd::prelude::*;

verus! {

/// Granularity of the paging primitive: lengths are rounded up to this.
pub const PAGE_SIZE: usize = 4096;

/// One mapped span of the address space.
pub struct MappedRegion {
    pub base: usize,
    pub bytes: Vec<u8>,
}

/// The paging primitive's whole state: the mapped regions in increasing
/// base order, the next fresh base, and the capacity still available.
pub struct PageMapper {
    pub regions: Vec<MappedRegion>,
    pub next_base: usize,
    pub avail: usize,
}

/// `n` zero bytes.
pub open spec fn zero_seq(n: nat) -> Seq<u8> {
    Seq::new(n, |i: int| 0u8)
}

/// `len` rounded up to a whole number of pages.
pub open spec fn spec_rounded(len: int) -> int {
    if len % (PAGE_SIZE as int) == 0 {
        len
    } else {
        len - (len % (PAGE_SIZE as int)) + PAGE_SIZE
    }
}

/// `s` with `d` written over its bytes starting at `off`.
pub open spec fn spec_splice(s: Seq<u8>, off: int, d: Seq<u8>) -> Seq<u8> {
    s.take(off) + d + s.skip(off + d.len())
}

/// The pages charged against capacity for the regions of `s`.
pub open spec fn spec_footprint(s: Seq<MappedRegion>) -> int
    decreases s.len(),
{
    if s.len() == 0 {
        0
    } else {
        spec_footprint(s.drop_last()) + spec_rounded(s.last().bytes@.len() as int)
    }
}

/// Rounding a length up to whole pages gives a multiple of the page
/// size.
pub proof fn lemma_rounded_aligned(len: int)
    requires
        0 <= len,
    ensures
        spec_rounded(len) % (PAGE_SIZE as int) == 0,
{
    let p = PAGE_SIZE as int;
    let q = len / p;
    if len % p != 0 {
        vstd::arithmetic::div_mod::lemma_fundamental_div_mod(len, p);
        assert((q + 1) * p == q * p + p) by (nonlinear_arith);
        vstd::arithmetic::div_mod::lemma_mod_multiples_basic(q + 1, p);
    }
}

proof fn lemma_footprint_nonneg(s: Seq<MappedRegion>)
    ensures
        spec_footprint(s) >= 0,
    decreases s.len(),
{
    if s.len() > 0 {
        lemma_footprint_nonneg(s.drop_last());
    }
}

proof fn lemma_footprint_push(s: Seq<MappedRegion>, r: MappedRegion)
    ensures
        spec_footprint(s.push(r)) == spec_footprint(s) + spec_rounded(r.bytes@.len() as int),
{
    assert(s.push(r).drop_last() == s);
    assert(s.push(r).last() == r);
}

proof fn lemma_footprint_remove(s: Seq<MappedRegion>, i: int)
    requires
        0 <= i < s.len(),
    ensures
        spec_footprint(s.remove(i)) == spec_footprint(s) - spec_rounded(
            s[i].bytes@.len() as int,
        ),
    decreases s.len(),
{
    if i == s.len() - 1 {
        assert(s.remove(i) == s.drop_last());
    } else {
        assert(s.remove(i).drop_last() == s.drop_last().remove(i));
        assert(s.remove(i).last() == s.last());
        lemma_footprint_remove(s.drop_last(), i);
    }
}

proof fn lemma_footprint_update(s: Seq<MappedRegion>, i: int, r: MappedRegion)
    requires
        0 <= i < s.len(),
        r.bytes@.len() == s[i].bytes@.len(),
    ensures
        spec_footprint(s.update(i, r)) == spec_footprint(s),
    decreases s.len(),
{
    if i == s.len() - 1 {
        assert(s.update(i, r).drop_last() == s.drop_last());
        assert(s.update(i, r).last() == r);
    } else {
        assert(s.update(i, r).drop_last() == s.drop_last().update(i, r));
        assert(s.update(i, r).last() == s.last());
        lemma_footprint_update(s.drop_last(), i, r);
    }
}

/// `n` zero bytes, as a vector.
pub fn zero_vec(n: usize) -> (r: Vec<u8>)
    ensures
        r@ == zero_seq(n as nat),
{
    let mut out: Vec<u8> = Vec::new();
    let mut i: usize = 0;
    while i < n
        invariant
            i <= n,
            out@ == zero_seq(i as nat),
        decreases n - i,
    {
        out.push(0);
        assert(out@ =~= zero_seq(i as nat + 1));
        i = i + 1;
    }
    out
}

/// `len` rounded up to a whole number of pages.
pub fn round_up(len: usize) -> (r: usize)
    requires
        len <= usize::MAX - PAGE_SIZE,
    ensures
        r == spec_rounded(len as int),
{
    let rem = len % PAGE_SIZE;
    if rem == 0 {
        len
    } else {
        len - rem + PAGE_SIZE
    }
}

impl View for PageMapper {
    type V = Map<usize, Seq<u8>>;

    open spec fn view(&self) -> Map<usize, Seq<u8>> {
        Map::new(|b: usize| self.has_base(b), |b: usize| self.bytes_at(b))
    }
}

impl PageMapper {
    /// The regions are nonempty, lie below the next fresh base in
    /// increasing disjoint order, and the capacity cannot overflow when
    /// a region is returned to it.
    pub open spec fn wf(self) -> bool {
        &&& self.next_base >= PAGE_SIZE
        &&& self.next_base as int % (PAGE_SIZE as int) == 0
        &&& forall|i: int|
            0 <= i < self.regions@.len() ==> {
                let r = #[trigger] self.regions@[i];
                &&& r.bytes@.len() > 0
                &&& r.base >= PAGE_SIZE
                &&& r.base as int % (PAGE_SIZE as int) == 0
                &&& r.base + r.bytes@.len() <= self.next_base
            }
        &&& forall|i: int, j: int|
            0 <= i < j < self.regions@.len() ==> #[trigger] self.regions@[i].base
                + self.regions@[i].bytes@.len() <= #[trigger] self.regions@[j].base
        &&& self.avail + spec_footprint(self.regions@) <= usize::MAX
    }

    /// Some region is mapped at `base`.
    pub open spec fn has_base(self, base: usize) -> bool {
        exists|i: int| 0 <= i < self.regions@.len() && (#[trigger] self.regions@[i]).base == base
    }

    /// The position of the region mapped at `base`.
    pub open spec fn index_of(self, base: usize) -> int {
        choose|i: int| 0 <= i < self.regions@.len() && (#[trigger] self.regions@[i]).base == base
    }

    /// The bytes of the region mapped at `base`.
    pub open spec fn bytes_at(self, base: usize) -> Seq<u8> {
        self.regions@[self.index_of(base)].bytes@
    }

    /// Whether a request of `len` bytes can be satisfied: the rounded
    /// length must fit the address space and the remaining capacity.
    pub open spec fn can_map(self, len: int) -> bool {
        &&& 0 < len
        &&& len <= usize::MAX - PAGE_SIZE
        &&& spec_rounded(len) <= self.avail
        &&& self.next_base + spec_rounded(len) <= usize::MAX
    }

    /// Under `wf`, bases are unique: position `i` is the one
    /// `index_of` finds for its base.
    pub proof fn lemma_index_of(self, i: int)
        requires
            self.wf(),
            0 <= i < self.regions@.len(),
        ensures
            self.has_base(self.regions@[i].base),
            self.index_of(self.regions@[i].base) == i,
    {
        let b = self.regions@[i].base;
        assert(self.has_base(b));
        let j = self.index_of(b);
        if j < i {
            assert(self.regions@[j].base + self.regions@[j].bytes@.len()
                <= self.regions@[i].base);
        } else if i < j {
            assert(self.regions@[i].base + self.regions@[i].bytes@.len()
                <= self.regions@[j].base);
        }
    }

    /// What `wf` gives of any mapped base, read off the map view.
    pub proof fn lemma_dom(self, b: usize)
        requires
            self.wf(),
            self@.contains_key(b),
        ensures
            self.has_base(b),
            self@[b] == self.bytes_at(b),
            self@[b].len() > 0,
            b >= PAGE_SIZE,
            b as int % (PAGE_SIZE as int) == 0,
            b + self@[b].len() <= self.next_base,
    {
        let i = self.index_of(b);
        assert(0 <= i < self.regions@.len() && self.regions@[i].base == b);
    }

    proof fn lemma_view_push(pre: Self, post: Self, nr: MappedRegion)
        requires
            pre.wf(),
            post.wf(),
            post.regions@ == pre.regions@.push(nr),
            !pre.has_base(nr.base),
        ensures
            post@ == pre@.insert(nr.base, nr.bytes@),
    {
        let n = pre.regions@.len() as int;
        assert forall|b: usize| true implies {
            (post.has_base(b) <==> (b == nr.base || pre.has_base(b))) && (post.has_base(b)
                ==> post.bytes_at(b) == if b == nr.base {
                nr.bytes@
            } else {
                pre.bytes_at(b)
            })
        } by {
            if b == nr.base {
                assert(post.regions@[n].base == b);
                post.lemma_index_of(n);
            } else {
                if pre.has_base(b) {
                    let i = pre.index_of(b);
                    pre.lemma_index_of(i);
                    assert(post.regions@[i].base == b);
                    post.lemma_index_of(i);
                }
                if post.has_base(b) {
                    let i = post.index_of(b);
                    assert(0 <= i < n + 1 && post.regions@[i].base == b);
                    assert(i != n);
                    assert(pre.regions@[i].base == b);
                    assert(pre.has_base(b));
                }
            }
        }
        assert(post@ =~= pre@.insert(nr.base, nr.bytes@));
    }

    proof fn lemma_view_remove(pre: Self, post: Self, i: int)
        requires
            pre.wf(),
            post.wf(),
            0 <= i < pre.regions@.len(),
            post.regions@ == pre.regions@.remove(i),
        ensures
            post@ == pre@.remove(pre.regions@[i].base),
    {
        let rb = pre.regions@[i].base;
        assert forall|b: usize| true implies {
            (post.has_base(b) <==> (b != rb && pre.has_base(b))) && (post.has_base(b)
                ==> post.bytes_at(b) == pre.bytes_at(b))
        } by {
            pre.lemma_index_of(i);
            if post.has_base(b) {
                let j = post.index_of(b);
                assert(0 <= j < post.regions@.len() && post.regions@[j].base == b);
                let k: int = if j < i {
                    j
                } else {
                    j + 1
                };
                assert(pre.regions@[k].base == b);
                pre.lemma_index_of(k);
                assert(b != rb);
                assert(pre.has_base(b));
                assert(pre.bytes_at(b) == post.regions@[j].bytes@);
                post.lemma_index_of(j);
            }
            if b != rb && pre.has_base(b) {
                let k = pre.index_of(b);
                pre.lemma_index_of(k);
                assert(k != i);
                let j: int = if k < i {
                    k
                } else {
                    k - 1
                };
                assert(post.regions@[j].base == b);
                assert(post.has_base(b));
            }
        }
        assert(post@ =~= pre@.remove(rb));
    }

    proof fn lemma_view_update(pre: Self, post: Self, i: int, nr: MappedRegion)
        requires
            pre.wf(),
            post.wf(),
            0 <= i < pre.regions@.len(),
            nr.base == pre.regions@[i].base,
            post.regions@ == pre.regions@.update(i, nr),
        ensures
            post@ == pre@.insert(nr.base, nr.bytes@),
    {
        assert forall|b: usize| true implies {
            (post.has_base(b) <==> pre.has_base(b)) && (post.has_base(b) ==> post.bytes_at(b)
                == if b == nr.base {
                nr.bytes@
            } else {
                pre.bytes_at(b)
            })
        } by {
            if pre.has_base(b) {
                let k = pre.index_of(b);
                pre.lemma_index_of(k);
                assert(post.regions@[k].base == b);
                post.lemma_index_of(k);
            }
            if post.has_base(b) {
                let k = post.index_of(b);
                post.lemma_index_of(k);
                assert(pre.regions@[k].base == b);
                pre.lemma_index_of(k);
            }
        }
        assert(post@ =~= pre@.insert(nr.base, nr.bytes@));
    }

    /// An empty mapper with `capacity` bytes to hand out.
    pub fn new(capacity: usize) -> (r: PageMapper)
        ensures
            r.wf(),
            r@ == Map::<usize, Seq<u8>>::empty(),
            r.avail == capacity,
            r.next_base == PAGE_SIZE,
    {
        let r = PageMapper { regions: Vec::new(), next_base: PAGE_SIZE, avail: capacity };
        proof {
            assert(r@ =~= Map::<usize, Seq<u8>>::empty());
        }
        r
    }

    /// The position of the region at `base`, if one is mapped there.
    fn find_index(&self, base: usize) -> (r: Option<usize>)
        ensures
            match r {
                Some(i) => i < self.regions@.len() && self.regions@[i as int].base == base,
                None => !self.has_base(base),
            },
    {
        let mut i: usize = 0;
        while i < self.regions.len()
            invariant
                i <= self.regions@.len(),
                forall|k: int| 0 <= k < i ==> (#[trigger] self.regions@[k]).base != base,
            decreases self.regions@.len() - i,
        {
            if self.regions[i].base == base {
                return Some(i);
            }
            i = i + 1;
        }
        None
    }

    /// Map `len` fresh zero-filled bytes, page-rounded against capacity,
    /// at the next fresh base; refuse exactly when `can_map` fails.
    pub fn map(&mut self, len: usize) -> (r: Option<usize>)
        requires
            old(self).wf(),
            len > 0,
        ensures
            final(self).wf(),
            r is Some <==> old(self).can_map(len as int),
            r is Some ==> {
                &&& r == Some(old(self).next_base)
                &&& !old(self)@.contains_key(old(self).next_base)
                &&& final(self)@ == old(self)@.insert(old(self).next_base, zero_seq(len as nat))
                &&& final(self).avail == old(self).avail - spec_rounded(len as int)
                &&& final(self).next_base == old(self).next_base + spec_rounded(len as int)
            },
            r is None ==> *final(self) == *old(self),
    {
        if len > usize::MAX - PAGE_SIZE {
            return None;
        }
        let rounded = round_up(len);
        if rounded > self.avail {
            return None;
        }
        if rounded > usize::MAX - self.next_base {
            return None;
        }
        let base = self.next_base;
        let bytes = zero_vec(len);
        let ghost pre = *self;
        proof {
            if pre.has_base(base) {
                let i = pre.index_of(base);
                assert(pre.regions@[i].base + pre.regions@[i].bytes@.len() <= pre.next_base);
            }
        }
        let nr = MappedRegion { base, bytes };
        self.regions.push(nr);
        self.avail = self.avail - rounded;
        self.next_base = self.next_base + rounded;
        proof {
            let n = pre.regions@.len() as int;
            assert(len <= rounded);
            lemma_rounded_aligned(len as int);
            vstd::arithmetic::div_mod::lemma_add_mod_noop(
                pre.next_base as int,
                rounded as int,
                PAGE_SIZE as int,
            );
            assert forall|i: int| 0 <= i < self.regions@.len() implies {
                let r = #[trigger] self.regions@[i];
                r.bytes@.len() > 0 && r.base >= PAGE_SIZE && r.base as int % (PAGE_SIZE as int)
                    == 0 && r.base + r.bytes@.len() <= self.next_base
            } by {
                if i < n {
                    assert(self.regions@[i] == pre.regions@[i]);
                }
            }
            lemma_footprint_push(pre.regions@, self.regions@[n]);
            assert(self.wf());
            PageMapper::lemma_view_push(pre, *self, self.regions@[n]);
        }
        Some(base)
    }

    /// Unmap the region at `base`, whose recorded length must equal
    /// `len` exactly; its pages return to capacity. Reports failure
    /// instead of touching anything else.
    pub fn unmap(&mut self, base: usize, len: usize) -> (r: bool)
        requires
            old(self).wf(),
        ensures
            final(self).wf(),
            r == (old(self)@.contains_key(base) && old(self)@[base].len() == len),
            r ==> {
                &&& final(self)@ == old(self)@.remove(base)
                &&& final(self).avail == old(self).avail + spec_rounded(len as int)
                &&& final(self).next_base == old(self).next_base
            },
            !r ==> *final(self) == *old(self),
    {
        let idx_opt = self.find_index(base);
        let idx = match idx_opt {
            Some(i) => i,
            None => {
                return false;
            },
        };
        proof {
            self.lemma_index_of(idx as int);
            assert(self@.contains_key(base));
            assert(self@[base] == self.regions@[idx as int].bytes@);
        }
        if self.regions[idx].bytes.len() != len {
            return false;
        }
        let ghost pre = *self;
        let _removed = self.regions.remove(idx);
        proof {
            let s = pre.regions@;
            assert forall|i: int, j: int| 0 <= i < j < self.regions@.len() implies #[trigger] self
                .regions@[i].base + self.regions@[i].bytes@.len() <= #[trigger] self.regions@[j].base by {
                let i2: int = if i < idx {
                    i
                } else {
                    i + 1
                };
                let j2: int = if j < idx {
                    j
                } else {
                    j + 1
                };
                assert(self.regions@[i] == s[i2] && self.regions@[j] == s[j2]);
            }
            lemma_footprint_remove(s, idx as int);
            lemma_footprint_nonneg(self.regions@);
        }
        self.avail = self.avail + round_up(len);
        proof {
            assert(self.wf());
            PageMapper::lemma_view_remove(pre, *self, idx as int);
        }
        true
    }

    /// Read `n` bytes of the region at `base`, starting at `off`.
    pub fn read_bytes(&self, base: usize, off: usize, n: usize) -> (r: Vec<u8>)
        requires
            self.wf(),
            self@.contains_key(base),
            off + n <= self@[base].len(),
        ensures
            r@ == self@[base].subrange(off as int, off + n),
    {
        proof {
            self.lemma_dom(base);
        }
        let idx_opt = self.find_index(base);
        let idx = idx_opt.unwrap();
        proof {
            self.lemma_index_of(idx as int);
        }
        let mut out: Vec<u8> = Vec::new();
        let mut j: usize = 0;
        while j < n
            invariant
                j <= n,
                self.wf(),
                idx < self.regions@.len(),
                self.regions@[idx as int].bytes@ == self@[base],
                off + n <= self@[base].len(),
                out@ == self@[base].subrange(off as int, off + j),
            decreases n - j,
        {
            let region: &MappedRegion = &self.regions[idx];
            out.push(region.bytes[off + j]);
            assert(out@ =~= self@[base].subrange(off as int, off + j + 1));
            j = j + 1;
        }
        out
    }

    /// Overwrite the bytes of the region at `base` from `off` on with
    /// `data`; every other region, the capacity and the fresh base stay
    /// as they were.
    pub fn write_bytes(&mut self, base: usize, off: usize, data: &Vec<u8>)
        requires
            old(self).wf(),
            old(self)@.contains_key(base),
            off + data@.len() <= old(self)@[base].len(),
        ensures
            final(self).wf(),
            final(self)@ == old(self)@.insert(base, spec_splice(old(self)@[base], off as int, data@)),
            final(self).avail == old(self).avail,
            final(self).next_base == old(self).next_base,
    {
        proof {
            old(self).lemma_dom(base);
        }
        let idx_opt = self.find_index(base);
        let idx = idx_opt.unwrap();
        proof {
            self.lemma_index_of(idx as int);
        }
        let ghost pre = *self;
        let ghost orig = pre@[base];
        let mut region = self.regions.remove(idx);
        let mut j: usize = 0;
        while j < data.len()
            invariant
                j <= data@.len(),
                off + data@.len() <= orig.len(),
                orig.len() <= usize::MAX,
                region.base == base,
                region.bytes@ == spec_splice(orig, off as int, data@.take(j as int)),
            decreases data@.len() - j,
        {
            assert(region.bytes@.len() == orig.len());
            region.bytes[off + j] = data[j];
            assert(region.bytes@ =~= spec_splice(orig, off as int, data@.take(j as int + 1)));
            j = j + 1;
        }
        assert(data@.take(data@.len() as int) == data@);
        self.regions.insert(idx, region);
        proof {
            assert(self.regions@ =~= pre.regions@.update(idx as int, self.regions@[idx as int]));
            let nr = self.regions@[idx as int];
            assert(nr.bytes@.len() == orig.len());
            lemma_footprint_update(pre.regions@, idx as int, nr);
            assert forall|i: int, j2: int| 0 <= i < j2 < self.regions@.len() implies #[trigger] self
                .regions@[i].base + self.regions@[i].bytes@.len() <= #[trigger] self.regions@[j2].base by {
                assert(pre.regions@[i].base + pre.regions@[i].bytes@.len()
                    <= pre.regions@[j2].base);
            }
            assert(self.wf());
            PageMapper::lemma_view_update(pre, *self, idx as int, nr);
        }
    }
}

} // verus!
