//! The region allocator: `malloc`, `calloc`, `realloc` and `free` over
//! the paging primitive. Every allocation is one region holding the
//! in-band size header followed by the payload; failures set the
//! process-wide error code to "out of memory"; every operation appends
//! its trace lines.

use vstd::prelude::*;
use crate::header::{HEADER_SIZE, spec_header_bytes, spec_header_value, header_bytes, header_value,
    lemma_header_round_trip};
use crate::os::{PageMapper, spec_rounded, spec_splice, zero_seq, zero_vec, PAGE_SIZE};
use crate::trace::{spec_line, render_line, append_bytes};

verus! {

/// The error code written on every failure path: "out of memory".
pub const ENOMEM: i32 = 12;

/// The allocator's state: the paging primitive, the process-wide error
/// code cell, and everything written to the trace stream so far.
pub struct Allocator {
    pub os: PageMapper,
    pub errno: i32,
    pub trace: Vec<u8>,
}

/// The label of a successful `malloc` trace line.
pub open spec fn spec_malloc_label() -> Seq<u8> {
    seq!['m' as u8, 'a' as u8, 'l' as u8, 'l' as u8, 'o' as u8, 'c' as u8, ' ' as u8]
}

/// The label of a failed `malloc` trace line.
pub open spec fn spec_malloc_null_label() -> Seq<u8> {
    seq![
        'm' as u8, 'a' as u8, 'l' as u8, 'l' as u8, 'o' as u8, 'c' as u8, ' ' as u8, 'n' as u8,
        'u' as u8, 'l' as u8, 'l' as u8, ' ' as u8,
    ]
}

/// The label of the `free` entry trace line.
pub open spec fn spec_free_label() -> Seq<u8> {
    seq!['f' as u8, 'r' as u8, 'e' as u8, 'e' as u8, ' ' as u8]
}

/// The label of the `free` base-address trace line.
pub open spec fn spec_free_base_label() -> Seq<u8> {
    seq![
        'f' as u8, 'r' as u8, 'e' as u8, 'e' as u8, ' ' as u8, 'b' as u8, 'a' as u8, 's' as u8,
        'e' as u8, ' ' as u8,
    ]
}

/// The label of the `free` recovered-size trace line.
pub open spec fn spec_free_size_label() -> Seq<u8> {
    seq![
        'f' as u8, 'r' as u8, 'e' as u8, 'e' as u8, ' ' as u8, 's' as u8, 'i' as u8, 'z' as u8,
        'e' as u8, ' ' as u8,
    ]
}

/// Build the label of a successful `malloc` trace line.
pub fn malloc_label() -> (r: Vec<u8>)
    ensures
        r@ == spec_malloc_label(),
{
    let mut v: Vec<u8> = Vec::new();
    v.push('m' as u8);
    v.push('a' as u8);
    v.push('l' as u8);
    v.push('l' as u8);
    v.push('o' as u8);
    v.push('c' as u8);
    v.push(' ' as u8);
    assert(v@ =~= spec_malloc_label());
    v
}

/// Build the label of a failed `malloc` trace line.
pub fn malloc_null_label() -> (r: Vec<u8>)
    ensures
        r@ == spec_malloc_null_label(),
{
    let mut v = malloc_label();
    v.push('n' as u8);
    v.push('u' as u8);
    v.push('l' as u8);
    v.push('l' as u8);
    v.push(' ' as u8);
    assert(v@ =~= spec_malloc_null_label());
    v
}

/// Build the label of the `free` entry trace line.
pub fn free_label() -> (r: Vec<u8>)
    ensures
        r@ == spec_free_label(),
{
    let mut v: Vec<u8> = Vec::new();
    v.push('f' as u8);
    v.push('r' as u8);
    v.push('e' as u8);
    v.push('e' as u8);
    v.push(' ' as u8);
    assert(v@ =~= spec_free_label());
    v
}

/// Build the label of the `free` base-address trace line.
pub fn free_base_label() -> (r: Vec<u8>)
    ensures
        r@ == spec_free_base_label(),
{
    let mut v = free_label();
    v.push('b' as u8);
    v.push('a' as u8);
    v.push('s' as u8);
    v.push('e' as u8);
    v.push(' ' as u8);
    assert(v@ =~= spec_free_base_label());
    v
}

/// Build the label of the `free` recovered-size trace line.
pub fn free_size_label() -> (r: Vec<u8>)
    ensures
        r@ == spec_free_size_label(),
{
    let mut v = free_label();
    v.push('s' as u8);
    v.push('i' as u8);
    v.push('z' as u8);
    v.push('e' as u8);
    v.push(' ' as u8);
    assert(v@ =~= spec_free_size_label());
    v
}

/// Exactly what `malloc(size)` does: on success, one fresh region whose
/// header records `size` and whose payload is `size` zero bytes, the
/// pointer just past the header, the error code untouched, and one
/// trace line naming the size and the returned address; on exhaustion,
/// a null result, the error code set, a distinguishing trace line,
/// nothing mapped.
pub open spec fn malloc_post(pre: Allocator, post: Allocator, size: usize, r: usize) -> bool {
    if pre.os.can_map(size + HEADER_SIZE) {
        &&& r == pre.os.next_base + HEADER_SIZE
        &&& post.os@ == pre.os@.insert(
            pre.os.next_base,
            spec_header_bytes(size as u64) + zero_seq(size as nat),
        )
        &&& post.os.avail == pre.os.avail - spec_rounded(size + HEADER_SIZE)
        &&& post.os.next_base == pre.os.next_base + spec_rounded(size + HEADER_SIZE)
        &&& post.errno == pre.errno
        &&& post.trace@ == pre.trace@ + spec_line(
            spec_malloc_label(),
            size as u64,
            (pre.os.next_base + HEADER_SIZE) as u64,
        )
    } else {
        &&& r == 0
        &&& post.os@ == pre.os@
        &&& post.os.avail == pre.os.avail
        &&& post.os.next_base == pre.os.next_base
        &&& post.errno == ENOMEM
        &&& post.trace@ == pre.trace@ + spec_line(spec_malloc_null_label(), size as u64, 0)
    }
}

/// What `free(p)` does to the regions and the trace: nothing but the
/// entry trace line for null; otherwise the region behind `p` is gone,
/// its pages returned, and three trace lines were written.
pub open spec fn free_effect(pre: Allocator, post: Allocator, p: usize) -> bool {
    if p == 0 {
        &&& post.os@ == pre.os@
        &&& post.os.avail == pre.os.avail
        &&& post.os.next_base == pre.os.next_base
        &&& post.trace@ == pre.trace@ + spec_line(spec_free_label(), 0, 0)
    } else {
        let base = (p - HEADER_SIZE) as usize;
        let len = pre.os@[base].len();
        &&& post.os@ == pre.os@.remove(base)
        &&& post.os.avail == pre.os.avail + spec_rounded(len as int)
        &&& post.os.next_base == pre.os.next_base
        &&& post.trace@ == pre.trace@ + spec_line(spec_free_label(), 0, p as u64) + spec_line(
            spec_free_base_label(),
            0,
            base as u64,
        ) + spec_line(spec_free_size_label(), ((len - HEADER_SIZE) as int) as u64, base as u64)
    }
}

/// Exactly what `free(p)` does: `free_effect`, and the error code is
/// never touched.
pub open spec fn free_post(pre: Allocator, post: Allocator, p: usize) -> bool {
    &&& free_effect(pre, post, p)
    &&& post.errno == pre.errno
}

/// Exactly what `calloc(num, size)` does: on multiplication overflow a
/// null result and the error code set, before anything is mapped and
/// without a trace line; otherwise exactly `malloc(num * size)` with a
/// zero-filled payload.
pub open spec fn calloc_post(pre: Allocator, post: Allocator, num: usize, size: usize, r: usize) -> bool {
    if num * size > usize::MAX {
        &&& r == 0
        &&& post.os@ == pre.os@
        &&& post.os.avail == pre.os.avail
        &&& post.os.next_base == pre.os.next_base
        &&& post.errno == ENOMEM
        &&& post.trace@ == pre.trace@
    } else {
        malloc_post(pre, post, (num * size) as usize, r)
    }
}

/// Exactly what `realloc(p, size)` does, the policy table top to
/// bottom: `size == 0` frees `p` and fails with the error code set;
/// null `p` is exactly `malloc(size)`; an unchanged payload size
/// returns `p` itself untouched; otherwise a fresh allocation carrying
/// the old payload's prefix replaces the old region, or on exhaustion
/// null comes back with the old allocation kept.
pub open spec fn realloc_post(pre: Allocator, post: Allocator, p: usize, size: usize, r: usize) -> bool {
    if size == 0 {
        &&& free_effect(pre, post, p)
        &&& post.errno == ENOMEM
        &&& r == 0
    } else if p == 0 {
        malloc_post(pre, post, size, r)
    } else if pre.payload_len(p) == size {
        &&& r == p
        &&& post.os@ == pre.os@
        &&& post.os.avail == pre.os.avail
        &&& post.os.next_base == pre.os.next_base
        &&& post.errno == pre.errno
        &&& post.trace@ == pre.trace@
    } else {
        let base_old = (p - HEADER_SIZE) as usize;
        let old_len = pre.os@[base_old].len() as int;
        let old_size = old_len - HEADER_SIZE;
        let m = if old_size < size {
            old_size
        } else {
            size as int
        };
        if pre.os.can_map(size + HEADER_SIZE) {
            let base_new = pre.os.next_base;
            &&& r == base_new + HEADER_SIZE
            &&& post.os@ == pre.os@.insert(
                base_new,
                spec_header_bytes(size as u64) + (pre.payload(p).take(m) + zero_seq(
                    (size - m) as nat,
                )),
            ).remove(base_old)
            &&& post.os.avail == pre.os.avail - spec_rounded(size + HEADER_SIZE) + spec_rounded(
                old_len,
            )
            &&& post.os.next_base == pre.os.next_base + spec_rounded(size + HEADER_SIZE)
            &&& post.errno == pre.errno
            &&& post.trace@ == pre.trace@ + spec_line(spec_malloc_label(), size as u64,
                (base_new + HEADER_SIZE) as u64) + spec_line(spec_free_label(), 0, p as u64) + spec_line(
                spec_free_base_label(), 0, base_old as u64) + spec_line(spec_free_size_label(),
                old_size as u64, base_old as u64)
        } else {
            &&& r == 0
            &&& post.os@ == pre.os@
            &&& post.os.avail == pre.os.avail
            &&& post.os.next_base == pre.os.next_base
            &&& post.errno == ENOMEM
            &&& post.trace@ == pre.trace@ + spec_line(spec_malloc_null_label(), size as u64, 0)
        }
    }
}

impl Allocator {
    /// Every region is an allocation: long enough for its header, and
    /// the header records the payload size exactly.
    pub open spec fn wf(self) -> bool {
        &&& self.os.wf()
        &&& forall|b: usize|
            #[trigger] self.os@.contains_key(b) ==> {
                let bytes = self.os@[b];
                &&& bytes.len() >= HEADER_SIZE
                &&& bytes.len() <= usize::MAX
                &&& spec_header_value(bytes.take(HEADER_SIZE as int)) == ((bytes.len()
                    - HEADER_SIZE) as int) as u64
            }
    }

    /// `p` was handed out by this allocator and not yet freed: a region
    /// sits exactly one header before it.
    pub open spec fn valid_ptr(self, p: usize) -> bool {
        &&& p >= HEADER_SIZE
        &&& self.os@.contains_key((p - HEADER_SIZE) as usize)
    }

    /// The payload bytes behind `p`.
    pub open spec fn payload(self, p: usize) -> Seq<u8> {
        self.os@[(p - HEADER_SIZE) as usize].skip(HEADER_SIZE as int)
    }

    /// The payload size behind `p`.
    pub open spec fn payload_len(self, p: usize) -> int {
        self.payload(p).len() as int
    }

    /// A fresh allocator over `capacity` bytes of mappable memory, with
    /// no allocations, a clear error code and an empty trace.
    pub fn new(capacity: usize) -> (r: Allocator)
        ensures
            r.wf(),
            r.os@ == Map::<usize, Seq<u8>>::empty(),
            r.os.avail == capacity,
            r.os.next_base == PAGE_SIZE,
            r.errno == 0,
            r.trace@ == Seq::<u8>::empty(),
    {
        let r = Allocator { os: PageMapper::new(capacity), errno: 0, trace: Vec::new() };
        proof {
            assert(r.trace@ =~= Seq::<u8>::empty());
        }
        r
    }

    /// Allocate `size` bytes: map a region of `size` plus one header,
    /// record `size` in the header, and return the address just past
    /// it; on exhaustion set the error code and return null.
    pub fn malloc(&mut self, size: usize) -> (r: usize)
        requires
            old(self).wf(),
            size + HEADER_SIZE <= usize::MAX,
        ensures
            final(self).wf(),
            malloc_post(*old(self), *final(self), size, r),
            r != 0 <==> old(self).os.can_map(size + HEADER_SIZE),
            r != 0 ==> final(self).valid_ptr(r) && final(self).payload(r) == zero_seq(size as nat)
                && r == old(self).os.next_base + HEADER_SIZE,
            r != 0 ==> r as int % (HEADER_SIZE as int) == 0,
    {
        let total = size + HEADER_SIZE;
        let ghost pre = *self;
        let mapped = self.os.map(total);
        match mapped {
            Some(base) => {
                proof {
                    assert(total <= spec_rounded(total as int));
                }
                let user = base + HEADER_SIZE;
                let lbl = malloc_label();
                let line = render_line(&lbl, size, user);
                append_bytes(&mut self.trace, &line);
                let hdr = header_bytes(size as u64);
                proof {
                    assert(self.os@.contains_key(base));
                    assert(self.os@[base].len() == total);
                }
                self.os.write_bytes(base, 0, &hdr);
                proof {
                    let full = spec_header_bytes(size as u64) + zero_seq(size as nat);
                    assert(spec_splice(zero_seq(total as nat), 0, spec_header_bytes(size as u64))
                        =~= full);
                    assert(self.os@ =~= pre.os@.insert(base, full));
                    lemma_header_round_trip(size as u64);
                    assert(full.take(HEADER_SIZE as int) =~= spec_header_bytes(size as u64));
                    assert forall|b: usize| #[trigger] self.os@.contains_key(b) implies {
                        let bytes = self.os@[b];
                        bytes.len() >= HEADER_SIZE && bytes.len() <= usize::MAX
                            && spec_header_value(bytes.take(HEADER_SIZE as int)) == ((bytes.len()
                            - HEADER_SIZE) as int) as u64
                    } by {
                        if b != base {
                            assert(pre.os@.contains_key(b));
                            assert(self.os@[b] == pre.os@[b]);
                        }
                    }
                    assert(full.skip(HEADER_SIZE as int) =~= zero_seq(size as nat));
                    lemma_ptr_aligned(base as int);
                }
                user
            },
            None => {
                let lbl = malloc_null_label();
                let line = render_line(&lbl, size, 0);
                append_bytes(&mut self.trace, &line);
                self.errno = ENOMEM;
                0
            },
        }
    }

    /// Release the allocation behind `p`; null is a no-op beyond the
    /// entry trace line. The payload size is recovered from the in-band
    /// header and the whole region, header included, is unmapped. The
    /// error code is never touched.
    pub fn free(&mut self, p: usize)
        requires
            old(self).wf(),
            p == 0 || old(self).valid_ptr(p),
        ensures
            final(self).wf(),
            free_post(*old(self), *final(self), p),
    {
        let ghost pre = *self;
        let lbl = free_label();
        let line = render_line(&lbl, 0, p);
        append_bytes(&mut self.trace, &line);
        if p == 0 {
            return ;
        }
        let base = p - HEADER_SIZE;
        proof {
            pre.os.lemma_dom(base);
        }
        let hdr = self.os.read_bytes(base, 0, HEADER_SIZE);
        let size64 = header_value(&hdr);
        proof {
            assert(hdr@ =~= self.os@[base].take(HEADER_SIZE as int));
            assert(size64 == ((self.os@[base].len() - HEADER_SIZE) as int) as u64);
        }
        let size = size64 as usize;
        let lbl2 = free_base_label();
        let line2 = render_line(&lbl2, 0, base);
        append_bytes(&mut self.trace, &line2);
        let lbl3 = free_size_label();
        let line3 = render_line(&lbl3, size, base);
        append_bytes(&mut self.trace, &line3);
        let ok = self.os.unmap(base, size + HEADER_SIZE);
        proof {
            assert(ok);
            assert forall|b: usize| #[trigger] self.os@.contains_key(b) implies {
                let bytes = self.os@[b];
                bytes.len() >= HEADER_SIZE && bytes.len() <= usize::MAX && spec_header_value(
                    bytes.take(HEADER_SIZE as int)) == ((bytes.len() - HEADER_SIZE) as int) as u64
            } by {
                assert(pre.os@.contains_key(b));
                assert(self.os@[b] == pre.os@[b]);
            }
            assert(self.trace@ =~= pre.trace@ + spec_line(spec_free_label(), 0, p as u64)
                + spec_line(spec_free_base_label(), 0, base as u64) + spec_line(
                spec_free_size_label(), ((pre.os@[base].len() - HEADER_SIZE) as int) as u64,
                base as u64));
        }
    }

    /// Allocate `num` records of `size` bytes each, zero-filled. An
    /// overflowing product fails with the error code set, before the
    /// paging primitive is ever consulted.
    pub fn calloc(&mut self, num: usize, size: usize) -> (r: usize)
        requires
            old(self).wf(),
            num * size > usize::MAX || num * size + HEADER_SIZE <= usize::MAX,
        ensures
            final(self).wf(),
            calloc_post(*old(self), *final(self), num, size, r),
            r != 0 ==> final(self).valid_ptr(r) && final(self).payload(r) == zero_seq(
                (num * size) as nat,
            ),
    {
        let total_opt = num.checked_mul(size);
        let total = match total_opt {
            Some(t) => t,
            None => {
                self.errno = ENOMEM;
                return 0;
            },
        };
        let r = self.malloc(total);
        if r == 0 {
            return 0;
        }
        let zeros = zero_vec(total);
        let ghost mid = *self;
        let base = r - HEADER_SIZE;
        proof {
            assert(mid.os@.contains_key(base as usize));
            assert(mid.os@[base as usize].len() == total + HEADER_SIZE);
        }
        self.os.write_bytes(base, HEADER_SIZE, &zeros);
        proof {
            assert(spec_splice(mid.os@[base as usize], HEADER_SIZE as int, zero_seq(total as nat))
                =~= mid.os@[base as usize]);
            assert(self.os@ =~= mid.os@);
        }
        r
    }

    /// Resize the allocation behind `p` following the policy table:
    /// size zero frees and fails, a null pointer allocates afresh, an
    /// unchanged size returns `p` itself, and anything else moves the
    /// payload into a fresh allocation and frees the old one.
    pub fn realloc(&mut self, p: usize, size: usize) -> (r: usize)
        requires
            old(self).wf(),
            p == 0 || old(self).valid_ptr(p),
            size + HEADER_SIZE <= usize::MAX,
        ensures
            final(self).wf(),
            realloc_post(*old(self), *final(self), p, size, r),
            p != 0 && size != 0 && old(self).payload_len(p) == size ==> r == p,
            p != 0 && size != 0 && old(self).payload_len(p) != size && r != 0 ==> {
                let m = if old(self).payload_len(p) < size {
                    old(self).payload_len(p)
                } else {
                    size as int
                };
                &&& final(self).valid_ptr(r)
                &&& final(self).payload_len(r) == size
                &&& final(self).payload(r).take(m) == old(self).payload(p).take(m)
                &&& !final(self).os@.contains_key((p - HEADER_SIZE) as usize)
            },
    {
        if size == 0 {
            self.free(p);
            self.errno = ENOMEM;
            return 0;
        }
        if p == 0 {
            let r = self.malloc(size);
            return r;
        }
        let ghost pre = *self;
        let base_old = p - HEADER_SIZE;
        proof {
            pre.os.lemma_dom(base_old);
        }
        let hdr = self.os.read_bytes(base_old, 0, HEADER_SIZE);
        let orig64 = header_value(&hdr);
        proof {
            assert(hdr@ =~= self.os@[base_old].take(HEADER_SIZE as int));
            assert(orig64 == ((self.os@[base_old].len() - HEADER_SIZE) as int) as u64);
        }
        let orig = orig64 as usize;
        proof {
            assert(orig == pre.os@[base_old].len() - HEADER_SIZE);
            assert(orig == pre.payload_len(p));
        }
        if orig == size {
            return p;
        }
        let newp = self.malloc(size);
        if newp == 0 {
            return 0;
        }
        let ghost mid1 = *self;
        let ghost nb = pre.os.next_base;
        let m = if orig < size {
            orig
        } else {
            size
        };
        let base_new = newp - HEADER_SIZE;
        proof {
            assert(base_new == nb);
            assert(base_old < nb);
            assert(mid1.os@[base_old] == pre.os@[base_old]);
        }
        let data = self.os.read_bytes(base_old, HEADER_SIZE, m);
        proof {
            assert(data@ =~= pre.payload(p).take(m as int));
            assert(mid1.os@[base_new as usize].len() == size + HEADER_SIZE);
        }
        self.os.write_bytes(base_new, HEADER_SIZE, &data);
        let ghost mid2 = *self;
        let ghost newbytes = spec_header_bytes(size as u64) + (pre.payload(p).take(m as int)
            + zero_seq((size - m) as nat));
        proof {
            assert(spec_splice(mid1.os@[nb], HEADER_SIZE as int, data@) =~= newbytes);
            assert(mid2.os@ =~= pre.os@.insert(nb, newbytes));
            assert(newbytes.take(HEADER_SIZE as int) =~= spec_header_bytes(size as u64));
            assert(newbytes.len() == size + HEADER_SIZE);
            lemma_header_round_trip(size as u64);
            assert forall|b: usize| #[trigger] mid2.os@.contains_key(b) implies {
                let bytes = mid2.os@[b];
                bytes.len() >= HEADER_SIZE && bytes.len() <= usize::MAX && spec_header_value(
                    bytes.take(HEADER_SIZE as int)) == ((bytes.len() - HEADER_SIZE) as int) as u64
            } by {
                if b != nb {
                    assert(pre.os@.contains_key(b));
                    assert(mid2.os@[b] == pre.os@[b]);
                }
            }
            assert(mid2.wf());
            assert(mid2.valid_ptr(p));
            assert(mid2.os@[base_old] == pre.os@[base_old]);
        }
        self.free(p);
        proof {
            assert(self.os@ =~= pre.os@.insert(nb, newbytes).remove(base_old));
            assert(newbytes.skip(HEADER_SIZE as int) =~= pre.payload(p).take(m as int) + zero_seq(
                (size - m) as nat));
            assert(self.payload(newp).take(m as int) =~= pre.payload(p).take(m as int));
            assert(self.trace@ =~= pre.trace@ + spec_line(spec_malloc_label(), size as u64,
                (nb + HEADER_SIZE) as u64) + spec_line(spec_free_label(), 0, p as u64) + spec_line(
                spec_free_base_label(), 0, base_old as u64) + spec_line(spec_free_size_label(),
                orig as u64, base_old as u64));
        }
        newp
    }

    /// Read byte `i` of the payload behind `p`.
    pub fn read_byte(&self, p: usize, i: usize) -> (r: u8)
        requires
            self.wf(),
            self.valid_ptr(p),
            i < self.payload_len(p),
        ensures
            r == self.payload(p)[i as int],
    {
        let base = p - HEADER_SIZE;
        proof {
            self.os.lemma_dom(base);
        }
        let v = self.os.read_bytes(base, HEADER_SIZE + i, 1);
        let r = v[0];
        proof {
            assert(r == self.os@[base][HEADER_SIZE + i]);
        }
        r
    }

    /// Write byte `i` of the payload behind `p`. Nothing else moves:
    /// not this allocation's header, not any other allocation, not the
    /// error code, not the trace.
    pub fn write_byte(&mut self, p: usize, i: usize, v: u8)
        requires
            old(self).wf(),
            old(self).valid_ptr(p),
            i < old(self).payload_len(p),
        ensures
            final(self).wf(),
            final(self).os@ == old(self).os@.insert(
                (p - HEADER_SIZE) as usize,
                old(self).os@[(p - HEADER_SIZE) as usize].update(HEADER_SIZE + i, v),
            ),
            final(self).valid_ptr(p),
            final(self).payload(p) == old(self).payload(p).update(i as int, v),
            forall|q: usize| final(self).valid_ptr(q) <==> old(self).valid_ptr(q),
            forall|q: usize|
                old(self).valid_ptr(q) && (q - HEADER_SIZE) as usize != (p - HEADER_SIZE) as usize
                    ==> final(self).payload(q) == old(self).payload(q),
            final(self).os.avail == old(self).os.avail,
            final(self).os.next_base == old(self).os.next_base,
            final(self).errno == old(self).errno,
            final(self).trace@ == old(self).trace@,
    {
        let ghost pre = *self;
        let base = p - HEADER_SIZE;
        proof {
            pre.os.lemma_dom(base);
        }
        let mut data: Vec<u8> = Vec::new();
        data.push(v);
        self.os.write_bytes(base, HEADER_SIZE + i, &data);
        proof {
            let updated = pre.os@[base].update(HEADER_SIZE + i, v);
            assert(spec_splice(pre.os@[base], (HEADER_SIZE + i) as int, data@) =~= updated);
            assert(updated.take(HEADER_SIZE as int) =~= pre.os@[base].take(HEADER_SIZE as int));
            assert forall|b: usize| #[trigger] self.os@.contains_key(b) implies {
                let bytes = self.os@[b];
                bytes.len() >= HEADER_SIZE && bytes.len() <= usize::MAX && spec_header_value(
                    bytes.take(HEADER_SIZE as int)) == ((bytes.len() - HEADER_SIZE) as int) as u64
            } by {
                if b != base {
                    assert(pre.os@.contains_key(b));
                    assert(self.os@[b] == pre.os@[b]);
                }
            }
            assert(self.payload(p) =~= pre.payload(p).update(i as int, v));
            assert forall|q: usize|
                pre.valid_ptr(q) && (q - HEADER_SIZE) as usize != base implies self.payload(q)
                == pre.payload(q) by {
                assert(self.os@[(q - HEADER_SIZE) as usize] == pre.os@[(q - HEADER_SIZE) as usize]);
            }
        }
    }
}

/// A page-aligned base plus one header yields a pointer aligned to the
/// header width, which is the pointer width.
proof fn lemma_ptr_aligned(base: int)
    requires
        0 <= base,
        base % (PAGE_SIZE as int) == 0,
    ensures
        (base + HEADER_SIZE) % (HEADER_SIZE as int) == 0,
{
    vstd::arithmetic::div_mod::lemma_fundamental_div_mod(base, PAGE_SIZE as int);
    let q = base / (PAGE_SIZE as int);
    assert(base + 8 == 8 * (512 * q + 1)) by (nonlinear_arith)
        requires
            base == 4096 * q,
    ;
    vstd::arithmetic::div_mod::lemma_mod_multiples_basic(512 * q + 1, 8);
}

/// Writing a payload byte and reading it back gives the byte written:
/// a non-null allocation supports writing and reading its payload.
pub proof fn lemma_write_then_read(pre: Allocator, post: Allocator, p: usize, i: usize, v: u8)
    requires
        i < pre.payload_len(p),
        post.payload(p) == pre.payload(p).update(i as int, v),
    ensures
        post.payload(p)[i as int] == v,
        post.payload(p).len() == pre.payload(p).len(),
{
}

/// Round trip: freeing what `malloc` returned leaves the paging
/// primitive exactly as it was — same regions, same capacity — and the
/// error code untouched, so a subsequent allocation that the address
/// space can still hold succeeds exactly as before.
pub proof fn lemma_malloc_free_round_trip(
    pre: Allocator,
    mid: Allocator,
    post: Allocator,
    size: usize,
    p: usize,
)
    requires
        pre.wf(),
        malloc_post(pre, mid, size, p),
        p != 0,
        free_post(mid, post, p),
    ensures
        post.os@ == pre.os@,
        post.os.avail == pre.os.avail,
        post.os.next_base == pre.os.next_base + spec_rounded(size + HEADER_SIZE),
        post.errno == pre.errno,
        forall|l: int|
            pre.os.can_map(l) && post.os.next_base + spec_rounded(l) <= usize::MAX
                ==> post.os.can_map(l),
{
    assert(pre.os.can_map(size + HEADER_SIZE));
    let base = pre.os.next_base;
    assert(p == base + HEADER_SIZE);
    assert((p - HEADER_SIZE) as usize == base);
    assert(mid.os@[base].len() == size + HEADER_SIZE);
    assert(post.os@ =~= pre.os@);
}

/// `realloc(null, size)` behaves exactly as `malloc(size)` for every
/// nonzero `size`.
pub proof fn lemma_realloc_null_is_malloc(pre: Allocator, post: Allocator, size: usize, r: usize)
    requires
        size != 0,
        realloc_post(pre, post, 0, size, r),
    ensures
        malloc_post(pre, post, size, r),
{
}

} // verus!
