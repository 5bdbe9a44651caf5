//! Anonymous virtual-memory mapping: an address space of mapped virtual
//! pages, each carrying its permission bits, plus the program-break pointer.
//!
//! `sys_mmap` rejects a misaligned start, permission bits outside the low
//! three, all-zero permission bits, and any overlap with an existing mapping,
//! in each case leaving the address space unchanged; on success it installs
//! the whole page range.  `sys_munmap` rejects a misaligned start and a range
//! with any unmapped page, validating the whole range (end exclusive) before
//! removing anything.

use vstd::prelude::*;

verus! {

/// Bytes per virtual page.
pub const PAGE_SIZE: usize = 4096;

/// Whether some entry carries the page `vpn`.
pub open spec fn is_mapped(s: Seq<(usize, u8)>, vpn: usize) -> bool {
    exists|i: int| 0 <= i < s.len() && (#[trigger] s[i]).0 == vpn
}

/// The permission byte of the page `vpn`, when it is mapped.
pub open spec fn perm_of(s: Seq<(usize, u8)>, vpn: usize) -> u8 {
    s[choose|i: int| 0 <= i < s.len() && (#[trigger] s[i]).0 == vpn].1
}

/// What `vpn` translates to: its permission byte, or nothing when unmapped.
pub open spec fn lookup(s: Seq<(usize, u8)>, vpn: usize) -> Option<u8> {
    if is_mapped(s, vpn) {
        Some(perm_of(s, vpn))
    } else {
        None
    }
}

/// Each page has at most one entry.
pub open spec fn no_dup_pages(s: Seq<(usize, u8)>) -> bool {
    forall|i: int, j: int|
        0 <= i < s.len() && 0 <= j < s.len() && i != j ==> (#[trigger] s[i]).0 != (#[trigger] s[j]).0
}

/// Every page in `[lo, hi)` is unmapped.
pub open spec fn range_free(s: Seq<(usize, u8)>, lo: usize, hi: usize) -> bool {
    forall|p: usize| lo <= p < hi ==> #[trigger] lookup(s, p) is None
}

/// Every page in `[lo, hi)` is mapped.
pub open spec fn range_mapped(s: Seq<(usize, u8)>, lo: usize, hi: usize) -> bool {
    forall|p: usize| lo <= p < hi ==> #[trigger] lookup(s, p) is Some
}

/// An entry whose page is `vpn` pins down what `vpn` translates to.
proof fn lemma_entry_translates(s: Seq<(usize, u8)>, i: int, vpn: usize)
    requires
        no_dup_pages(s),
        0 <= i < s.len(),
        s[i].0 == vpn,
    ensures
        lookup(s, vpn) == Some(s[i].1),
{
    assert(is_mapped(s, vpn));
    let j = choose|j: int| 0 <= j < s.len() && (#[trigger] s[j]).0 == vpn;
    assert(j == i);
}

/// Appending a fresh page maps it and translates nothing else differently.
proof fn lemma_lookup_push(s: Seq<(usize, u8)>, vpn: usize, perm: u8, x: usize)
    requires
        no_dup_pages(s),
        lookup(s, vpn) is None,
    ensures
        no_dup_pages(s.push((vpn, perm))),
        lookup(s.push((vpn, perm)), x) == if x == vpn {
            Some(perm)
        } else {
            lookup(s, x)
        },
{
    let s2 = s.push((vpn, perm));
    assert forall|i: int, j: int|
        0 <= i < s2.len() && 0 <= j < s2.len() && i != j implies (#[trigger] s2[i]).0 != (
    #[trigger] s2[j]).0 by {
        if i < s.len() && j < s.len() {
            assert(s[i].0 != s[j].0);
        } else if i < s.len() {
            assert(s[i].0 != vpn);
        } else {
            assert(s[j].0 != vpn);
        }
    }
    if x == vpn {
        lemma_entry_translates(s2, s.len() as int, vpn);
    } else {
        if is_mapped(s, x) {
            let i = choose|i: int| 0 <= i < s.len() && (#[trigger] s[i]).0 == x;
            assert(s2[i].0 == x);
            lemma_entry_translates(s2, i, x);
            lemma_entry_translates(s, i, x);
        } else {
            if is_mapped(s2, x) {
                let i = choose|i: int| 0 <= i < s2.len() && (#[trigger] s2[i]).0 == x;
                assert(i < s.len());
                assert(false);
            }
        }
    }
}

/// Removing a page's entry unmaps it and translates nothing else differently.
proof fn lemma_lookup_remove(s: Seq<(usize, u8)>, idx: int, x: usize)
    requires
        no_dup_pages(s),
        0 <= idx < s.len(),
    ensures
        no_dup_pages(s.remove(idx)),
        lookup(s.remove(idx), x) == if x == s[idx].0 {
            None
        } else {
            lookup(s, x)
        },
{
    let s2 = s.remove(idx);
    s.remove_ensures(idx);
    assert forall|i: int, j: int|
        0 <= i < s2.len() && 0 <= j < s2.len() && i != j implies (#[trigger] s2[i]).0 != (
    #[trigger] s2[j]).0 by {
        let i0 = if i < idx { i } else { i + 1 };
        let j0 = if j < idx { j } else { j + 1 };
        assert(s2[i] == s[i0]);
        assert(s2[j] == s[j0]);
        assert(s[i0].0 != s[j0].0);
    }
    if x == s[idx].0 {
        if is_mapped(s2, x) {
            let i = choose|i: int| 0 <= i < s2.len() && (#[trigger] s2[i]).0 == x;
            let i0 = if i < idx { i } else { i + 1 };
            assert(s2[i] == s[i0]);
            assert(s[i0].0 != s[idx].0);
            assert(false);
        }
    } else {
        if is_mapped(s, x) {
            let i = choose|i: int| 0 <= i < s.len() && (#[trigger] s[i]).0 == x;
            assert(i != idx);
            let i2 = if i < idx { i } else { i - 1 };
            assert(s2[i2] == s[i]);
            lemma_entry_translates(s2, i2, x);
            lemma_entry_translates(s, i, x);
        } else {
            if is_mapped(s2, x) {
                let i = choose|i: int| 0 <= i < s2.len() && (#[trigger] s2[i]).0 == x;
                let i0 = if i < idx { i } else { i + 1 };
                assert(s2[i] == s[i0]);
                assert(false);
            }
        }
    }
}

/// A user address space: the mapped anonymous pages with their permission
/// bytes, and the heap bounds moved by `sys_sbrk`.
pub struct AddressSpace {
    /// The mapped pages, one entry per page.
    pub entries: Vec<(usize, u8)>,
    /// Lowest legal program break.
    pub heap_bottom: usize,
    /// Current program break.
    pub program_brk: usize,
}

impl View for AddressSpace {
    type V = Seq<(usize, u8)>;

    open spec fn view(&self) -> Seq<(usize, u8)> {
        self.entries@
    }
}

impl AddressSpace {
    /// No page is mapped twice.
    pub open spec fn wf(self) -> bool {
        no_dup_pages(self@)
    }

    /// An empty address space with the given heap bounds.
    pub fn new(heap_bottom: usize) -> (s: AddressSpace)
        ensures
            s.wf(),
            s@ =~= Seq::<(usize, u8)>::empty(),
            s.heap_bottom == heap_bottom,
            s.program_brk == heap_bottom,
    {
        AddressSpace { entries: Vec::new(), heap_bottom, program_brk: heap_bottom }
    }

    /// What `vpn` translates to, as the page-table abstraction reports it.
    pub fn translate(&self, vpn: usize) -> (r: Option<u8>)
        requires
            self.wf(),
        ensures
            r == lookup(self@, vpn),
    {
        let n = self.entries.len();
        for i in 0..n
            invariant
                n == self@.len(),
                self.wf(),
                forall|k: int| 0 <= k < i ==> (#[trigger] self@[k]).0 != vpn,
        {
            let e: (usize, u8) = self.entries[i];
            if e.0 == vpn {
                proof {
                    lemma_entry_translates(self@, i as int, vpn);
                }
                return Some(e.1);
            }
        }
        proof {
            if is_mapped(self@, vpn) {
                let i = choose|i: int| 0 <= i < self@.len() && (#[trigger] self@[i]).0 == vpn;
                assert(false);
            }
        }
        None
    }

    /// Whether `vpn` is currently mapped.
    pub fn check(&self, vpn: usize) -> (r: bool)
        requires
            self.wf(),
        ensures
            r == (lookup(self@, vpn) is Some),
    {
        self.translate(vpn).is_some()
    }

    /// Map every page in `[start_vpn, end_vpn)` with the permission byte
    /// `flags`; the range must be wholly unmapped.
    pub fn map_all(&mut self, start_vpn: usize, end_vpn: usize, flags: u8)
        requires
            old(self).wf(),
            range_free(old(self)@, start_vpn, end_vpn),
        ensures
            final(self).wf(),
            forall|p: usize|
                start_vpn <= p < end_vpn ==> #[trigger] lookup(final(self)@, p) == Some(flags),
            forall|p: usize|
                !(start_vpn <= p < end_vpn) ==> #[trigger] lookup(final(self)@, p) == lookup(
                    old(self)@,
                    p,
                ),
            final(self).heap_bottom == old(self).heap_bottom,
            final(self).program_brk == old(self).program_brk,
    {
        if start_vpn >= end_vpn {
            return ;
        }
        let mut vpn = start_vpn;
        while vpn < end_vpn
            invariant
                start_vpn <= vpn <= end_vpn,
                self.wf(),
                forall|p: usize|
                    start_vpn <= p < vpn ==> #[trigger] lookup(self@, p) == Some(flags),
                forall|p: usize|
                    !(start_vpn <= p < vpn) ==> #[trigger] lookup(self@, p) == lookup(old(self)@, p),
                range_free(old(self)@, start_vpn, end_vpn),
                self.heap_bottom == old(self).heap_bottom,
                self.program_brk == old(self).program_brk,
            decreases end_vpn - vpn,
        {
            proof {
                assert(lookup(self@, vpn) == lookup(old(self)@, vpn));
                assert(lookup(self@, vpn) is None);
            }
            let ghost pre: Seq<(usize, u8)> = self@;
            self.entries.push((vpn, flags));
            proof {
                assert forall|x: usize| true implies #[trigger] lookup(self@, x) == (if x == vpn {
                    Some(flags)
                } else {
                    lookup(pre, x)
                }) by {
                    lemma_lookup_push(pre, vpn, flags, x);
                }
                lemma_lookup_push(pre, vpn, flags, vpn);
            }
            vpn = vpn + 1;
        }
    }

    /// Remove the mapping of every page in `[start_vpn, end_vpn)`; the range
    /// must be wholly mapped.
    pub fn unmap_all(&mut self, start_vpn: usize, end_vpn: usize)
        requires
            old(self).wf(),
            range_mapped(old(self)@, start_vpn, end_vpn),
        ensures
            final(self).wf(),
            forall|p: usize| start_vpn <= p < end_vpn ==> #[trigger] lookup(final(self)@, p) is None,
            forall|p: usize|
                !(start_vpn <= p < end_vpn) ==> #[trigger] lookup(final(self)@, p) == lookup(
                    old(self)@,
                    p,
                ),
            final(self).heap_bottom == old(self).heap_bottom,
            final(self).program_brk == old(self).program_brk,
    {
        if start_vpn >= end_vpn {
            return ;
        }
        let mut vpn = start_vpn;
        while vpn < end_vpn
            invariant
                start_vpn <= vpn <= end_vpn,
                self.wf(),
                forall|p: usize| start_vpn <= p < vpn ==> #[trigger] lookup(self@, p) is None,
                forall|p: usize|
                    !(start_vpn <= p < vpn) ==> #[trigger] lookup(self@, p) == lookup(old(self)@, p),
                range_mapped(old(self)@, start_vpn, end_vpn),
                self.heap_bottom == old(self).heap_bottom,
                self.program_brk == old(self).program_brk,
            decreases end_vpn - vpn,
        {
            self.remove_page(vpn);
            vpn = vpn + 1;
        }
    }

    /// Remove the entry of one mapped page.
    fn remove_page(&mut self, vpn: usize)
        requires
            old(self).wf(),
            lookup(old(self)@, vpn) is Some,
        ensures
            final(self).wf(),
            lookup(final(self)@, vpn) is None,
            forall|x: usize|
                x != vpn ==> #[trigger] lookup(final(self)@, x) == lookup(old(self)@, x),
            final(self).heap_bottom == old(self).heap_bottom,
            final(self).program_brk == old(self).program_brk,
    {
        let n = self.entries.len();
        let mut idx: usize = 0;
        while idx < n
            invariant
                n == self@.len(),
                idx <= n,
                self.wf(),
                self@ == old(self)@,
                self.heap_bottom == old(self).heap_bottom,
                self.program_brk == old(self).program_brk,
                lookup(old(self)@, vpn) is Some,
                forall|k: int| 0 <= k < idx ==> (#[trigger] self@[k]).0 != vpn,
            decreases n - idx,
        {
            let e: (usize, u8) = self.entries[idx];
            if e.0 == vpn {
                let ghost pre: Seq<(usize, u8)> = self@;
                self.entries.remove(idx);
                proof {
                    assert forall|x: usize| true implies #[trigger] lookup(self@, x) == (if x
                        == vpn {
                        None
                    } else {
                        lookup(pre, x)
                    }) by {
                        lemma_lookup_remove(pre, idx as int, x);
                    }
                    lemma_lookup_remove(pre, idx as int, vpn);
                }
                return ;
            }
            idx = idx + 1;
        }
        proof {
            let i = choose|i: int| 0 <= i < self@.len() && (#[trigger] self@[i]).0 == vpn;
            assert(false);
        }
    }
}

/// The page holding `addr`.
pub open spec fn page_floor(addr: usize) -> int {
    addr as int / PAGE_SIZE as int
}

/// The first page at or after `addr`.
pub open spec fn page_ceil(addr: int) -> int {
    addr / PAGE_SIZE as int + if addr % PAGE_SIZE as int != 0 {
        1int
    } else {
        0
    }
}

/// The permission byte installed for the user permission bits `port`: the
/// low three bits moved into the read/write/execute positions, plus the
/// user-accessible bit.
pub open spec fn perm_bits(port: usize) -> u8 {
    (2 * (port % 8) + 16) as u8
}

/// `sys_mmap` succeeds exactly when: only the low three permission bits are
/// set, at least one of them is set, the start is page-aligned, and every
/// page of the range is unmapped.
pub open spec fn mmap_accepts(s: Seq<(usize, u8)>, start: usize, len: usize, port: usize) -> bool {
    &&& port & !0x7usize == 0
    &&& port & 0x7usize != 0
    &&& start % PAGE_SIZE == 0
    &&& forall|p: usize|
        page_floor(start) <= p < page_ceil(start as int + len) ==> #[trigger] lookup(s, p) is None
}

/// `sys_munmap` succeeds exactly when the start is page-aligned and every
/// page of the range (end exclusive) is mapped.
pub open spec fn munmap_accepts(s: Seq<(usize, u8)>, start: usize, len: usize) -> bool {
    &&& start % PAGE_SIZE == 0
    &&& forall|p: usize|
        page_floor(start) <= p < page_ceil(start as int + len) ==> #[trigger] lookup(s, p) is Some
}

/// Map the anonymous region `[start, start + len)`: reject a misaligned
/// start, permission bits outside the low three, all-zero permission bits,
/// or any overlap with an existing mapping, leaving the space unchanged;
/// otherwise install every page of the range with the requested permissions
/// plus the user bit, and no partial effect either way.
pub fn sys_mmap(space: &mut AddressSpace, start: usize, len: usize, port: usize) -> (r: isize)
    requires
        old(space).wf(),
        start + len <= usize::MAX,
    ensures
        final(space).wf(),
        r == 0 || r == -1,
        (r == 0) <==> mmap_accepts(old(space)@, start, len, port),
        r == -1 ==> final(space)@ == old(space)@,
        r == 0 ==> forall|p: usize|
            page_floor(start) <= p < page_ceil(start as int + len) ==> #[trigger] lookup(
                final(space)@,
                p,
            ) == Some(perm_bits(port)),
        r == 0 ==> forall|p: usize|
            !(page_floor(start) <= p < page_ceil(start as int + len)) ==> #[trigger] lookup(
                final(space)@,
                p,
            ) == lookup(old(space)@, p),
        final(space).heap_bottom == old(space).heap_bottom,
        final(space).program_brk == old(space).program_brk,
{
    if (port & !0x7) != 0 || (port & 0x7) == 0 || start % PAGE_SIZE != 0 {
        return -1;
    }
    let end: usize = start + len;
    let lo: usize = start / PAGE_SIZE;
    proof {
        vstd::arithmetic::div_mod::lemma_div_is_ordered(end as int, usize::MAX as int, PAGE_SIZE as int);
    }
    let hi: usize = end / PAGE_SIZE + if end % PAGE_SIZE != 0 {
        1
    } else {
        0
    };
    proof {
        assert(lo as int == page_floor(start));
        assert(hi as int == page_ceil(start as int + len));
    }
    let mut vpn = lo;
    while vpn < hi
        invariant
            lo <= vpn <= hi,
            space.wf(),
            space@ == old(space)@,
            space.heap_bottom == old(space).heap_bottom,
            space.program_brk == old(space).program_brk,
            lo as int == page_floor(start),
            hi as int == page_ceil(start as int + len),
            forall|p: usize| lo <= p < vpn ==> #[trigger] lookup(space@, p) is None,
        decreases hi - vpn,
    {
        if space.check(vpn) {
            proof {
                assert(!(lookup(old(space)@, vpn) is None));
            }
            return -1;
        }
        vpn = vpn + 1;
    }
    let perm: u8 = (2 * (port % 8) + 16) as u8;
    proof {
        assert(perm == perm_bits(port));
        assert(range_free(old(space)@, lo, hi));
    }
    space.map_all(lo, hi, perm);
    0
}

/// Unmap the region `[start, start + len)`: reject a misaligned start, and
/// require every page of the range (end exclusive) to be mapped, validating
/// the whole range before removing anything; no partial effect either way.
pub fn sys_munmap(space: &mut AddressSpace, start: usize, len: usize) -> (r: isize)
    requires
        old(space).wf(),
        start + len <= usize::MAX,
    ensures
        final(space).wf(),
        r == 0 || r == -1,
        (r == 0) <==> munmap_accepts(old(space)@, start, len),
        r == -1 ==> final(space)@ == old(space)@,
        r == 0 ==> forall|p: usize|
            page_floor(start) <= p < page_ceil(start as int + len) ==> #[trigger] lookup(
                final(space)@,
                p,
            ) is None,
        r == 0 ==> forall|p: usize|
            !(page_floor(start) <= p < page_ceil(start as int + len)) ==> #[trigger] lookup(
                final(space)@,
                p,
            ) == lookup(old(space)@, p),
        final(space).heap_bottom == old(space).heap_bottom,
        final(space).program_brk == old(space).program_brk,
{
    if start % PAGE_SIZE != 0 {
        return -1;
    }
    let end: usize = start + len;
    let lo: usize = start / PAGE_SIZE;
    proof {
        vstd::arithmetic::div_mod::lemma_div_is_ordered(end as int, usize::MAX as int, PAGE_SIZE as int);
    }
    let hi: usize = end / PAGE_SIZE + if end % PAGE_SIZE != 0 {
        1
    } else {
        0
    };
    proof {
        assert(lo as int == page_floor(start));
        assert(hi as int == page_ceil(start as int + len));
    }
    let mut vpn = lo;
    while vpn < hi
        invariant
            lo <= vpn <= hi,
            space.wf(),
            space@ == old(space)@,
            space.heap_bottom == old(space).heap_bottom,
            space.program_brk == old(space).program_brk,
            lo as int == page_floor(start),
            hi as int == page_ceil(start as int + len),
            forall|p: usize| lo <= p < vpn ==> #[trigger] lookup(space@, p) is Some,
        decreases hi - vpn,
    {
        if !space.check(vpn) {
            proof {
                assert(!(lookup(old(space)@, vpn) is Some));
            }
            return -1;
        }
        vpn = vpn + 1;
    }
    proof {
        assert(range_mapped(old(space)@, lo, hi));
    }
    space.unmap_all(lo, hi);
    0
}

/// Move the program break by `size` bytes: reject a move below the heap
/// bottom or beyond the sentinel-representable top, leaving the break where
/// it was; otherwise move it and return the old break.
pub fn sys_sbrk(space: &mut AddressSpace, size: i32) -> (r: isize)
    requires
        old(space).wf(),
        old(space).program_brk <= isize::MAX as usize,
    ensures
        final(space).wf(),
        final(space)@ == old(space)@,
        final(space).heap_bottom == old(space).heap_bottom,
        (r == -1) <==> (old(space).program_brk + size < old(space).heap_bottom
            || old(space).program_brk + size > isize::MAX),
        r == -1 ==> final(space).program_brk == old(space).program_brk,
        r != -1 ==> final(space).program_brk == old(space).program_brk + size && r == old(
            space,
        ).program_brk,
{
    let brk: usize = space.program_brk;
    if size >= 0 {
        let d: usize = size as usize;
        let nb: usize = brk + d;
        if nb > (isize::MAX as usize) || nb < space.heap_bottom {
            return -1;
        }
        space.program_brk = nb;
        brk as isize
    } else {
        let d: usize = (-(size as i64)) as usize;
        if d > brk || brk - d < space.heap_bottom {
            return -1;
        }
        space.program_brk = brk - d;
        brk as isize
    }
}

/// Round trip: after an accepted `sys_mmap` of a range and an accepted
/// `sys_munmap` of the same range, every page translates exactly as before
/// the pair - in particular the range is unmapped again - and a second
/// identical `sys_mmap` is accepted.  The hypotheses on `s1` and `s2` are
/// what `sys_mmap` and `sys_munmap` ensure for their accepted calls; the
/// first conclusion says the intervening `sys_munmap` is indeed accepted.
pub proof fn lemma_mmap_munmap_round_trip(
    s0: Seq<(usize, u8)>,
    s1: Seq<(usize, u8)>,
    s2: Seq<(usize, u8)>,
    start: usize,
    len: usize,
    port: usize,
)
    requires
        mmap_accepts(s0, start, len, port),
        forall|p: usize|
            page_floor(start) <= p < page_ceil(start as int + len) ==> #[trigger] lookup(s1, p)
                == Some(perm_bits(port)),
        forall|p: usize|
            !(page_floor(start) <= p < page_ceil(start as int + len)) ==> #[trigger] lookup(s1, p)
                == lookup(s0, p),
        forall|p: usize|
            page_floor(start) <= p < page_ceil(start as int + len) ==> #[trigger] lookup(s2, p)
                is None,
        forall|p: usize|
            !(page_floor(start) <= p < page_ceil(start as int + len)) ==> #[trigger] lookup(s2, p)
                == lookup(s1, p),
    ensures
        munmap_accepts(s1, start, len),
        forall|p: usize| #[trigger] lookup(s2, p) == lookup(s0, p),
        mmap_accepts(s2, start, len, port),
{
    assert forall|p: usize| true implies #[trigger] lookup(s2, p) == lookup(s0, p) by {
        if page_floor(start) <= p < page_ceil(start as int + len) {
            assert(lookup(s0, p) is None);
            assert(lookup(s2, p) is None);
        }
    }
}

} // verus!

