//! Data segments and the table that lays them out in address order.

use vstd::prelude::*;

verus! {

/// A block of bytes to be copied to a fixed address of linear memory before
/// the program runs.
#[derive(Debug)]
pub struct DataSegment {
    /// The memory that owns the segment.
    pub memory: u32,
    /// The address of the first byte.
    pub offset: u32,
    /// The bytes.
    pub init: Vec<u8>,
    /// True when the program may not write to the segment.
    pub readonly: bool,
}

/// What a data segment is, as a mathematical value.
pub ghost struct SegmentView {
    pub memory: u32,
    pub offset: u32,
    pub init: Seq<u8>,
    pub readonly: bool,
}

impl SegmentView {
    /// The address of the first byte.
    pub open spec fn start(self) -> int {
        self.offset as int
    }

    /// The address one past the last byte.
    pub open spec fn end(self) -> int {
        self.offset + self.init.len()
    }

    /// True when `addr` lies inside the segment.
    pub open spec fn contains(self, addr: int) -> bool {
        self.start() <= addr < self.end()
    }

    /// True when both segments claim a common stretch of the address space:
    /// each starts before the other ends.
    pub open spec fn overlaps(self, other: SegmentView) -> bool {
        self.start() < other.end() && other.start() < self.end()
    }
}

impl View for DataSegment {
    type V = SegmentView;

    open spec fn view(&self) -> SegmentView {
        SegmentView {
            memory: self.memory,
            offset: self.offset,
            init: self.init@,
            readonly: self.readonly,
        }
    }
}

impl Clone for DataSegment {
    fn clone(&self) -> (r: Self)
        ensures
            r@ == self@,
    {
        let init = self.init.clone();
        assert(init@ =~= self.init@);
        DataSegment { memory: self.memory, offset: self.offset, init, readonly: self.readonly }
    }
}

impl DataSegment {
    /// A segment of `memory` that holds `init` from address `offset` on.
    pub fn new(memory: u32, offset: u32, init: Vec<u8>, readonly: bool) -> (s: Self)
        ensures
            s@ == (SegmentView { memory, offset, init: init@, readonly }),
    {
        DataSegment { memory, offset, init, readonly }
    }

    /// The address of the first byte.
    pub fn start(&self) -> (a: u128)
        ensures
            a == self@.start(),
    {
        self.offset as u128
    }

    /// The address one past the last byte.
    pub fn end(&self) -> (a: u128)
        ensures
            a == self@.end(),
    {
        self.offset as u128 + self.init.len() as u128
    }

    /// The number of bytes in the segment.
    pub fn size(&self) -> (n: usize)
        ensures
            n == self@.init.len(),
    {
        self.init.len()
    }

    /// True when `self` and `other` claim a common stretch of the address space.
    pub fn overlaps(&self, other: &DataSegment) -> (r: bool)
        ensures
            r == self@.overlaps(other@),
    {
        self.start() < other.end() && other.start() < self.end()
    }
}

/// True when the segments of `s` stand in address order and no two of them
/// overlap: each ends where a later one starts, or before.
pub open spec fn address_ordered(s: Seq<SegmentView>) -> bool {
    forall|i: int, j: int| 0 <= i < j < s.len() ==> (#[trigger] s[i]).end() <= (#[trigger] s[j]).start()
}

/// True when `seg` overlaps some segment of `s`.
pub open spec fn overlaps_any(s: Seq<SegmentView>, seg: SegmentView) -> bool {
    exists|i: int| 0 <= i < s.len() && (#[trigger] s[i]).overlaps(seg)
}

/// The place of `seg` in the address-ordered `s`: behind every segment that
/// ends at its start or before, in front of the others.
pub open spec fn insertion_point(s: Seq<SegmentView>, seg: SegmentView) -> int
    decreases s.len(),
{
    if s.len() > 0 && s[0].end() <= seg.start() {
        1 + insertion_point(s.drop_first(), seg)
    } else {
        0
    }
}

/// `insertion_point` splits an address-ordered `s` in two: the segments in front
/// of it end at the start of `seg` or before, the one at it ends later.
pub proof fn lemma_insertion_point(s: Seq<SegmentView>, seg: SegmentView)
    ensures
        0 <= insertion_point(s, seg) <= s.len(),
        forall|i: int| 0 <= i < insertion_point(s, seg) ==> (#[trigger] s[i]).end() <= seg.start(),
        insertion_point(s, seg) < s.len() ==> s[insertion_point(s, seg)].end() > seg.start(),
    decreases s.len(),
{
    if s.len() > 0 && s[0].end() <= seg.start() {
        let t = s.drop_first();
        lemma_insertion_point(t, seg);
        let p = insertion_point(t, seg);
        assert forall|i: int| 0 <= i < p + 1 implies (#[trigger] s[i]).end() <= seg.start() by {
            if i > 0 {
                assert(s[i] == t[i - 1]);
            }
        }
        if p + 1 < s.len() {
            assert(s[p + 1] == t[p]);
        }
    }
}

/// In an address-ordered `s`, the index `p` is the insertion point of `seg`
/// when the segments in front of `p` end at the start of `seg` or before and
/// the one at `p` ends later.
pub proof fn lemma_insertion_point_unique(s: Seq<SegmentView>, seg: SegmentView, p: int)
    requires
        0 <= p <= s.len(),
        forall|i: int| 0 <= i < p ==> (#[trigger] s[i]).end() <= seg.start(),
        p < s.len() ==> s[p].end() > seg.start(),
    ensures
        insertion_point(s, seg) == p,
    decreases s.len(),
{
    if p > 0 {
        let t = s.drop_first();
        assert(s[0].end() <= seg.start());
        assert forall|i: int| 0 <= i < p - 1 implies (#[trigger] t[i]).end() <= seg.start() by {
            assert(t[i] == s[i + 1]);
        }
        if p - 1 < t.len() {
            assert(t[p - 1] == s[p]);
        }
        lemma_insertion_point_unique(t, seg, p - 1);
    }
}

/// The table `t` after `seg` has taken its place in it, where `seg` overlaps
/// none of its segments.
pub open spec fn insert_segment(t: Seq<SegmentView>, seg: SegmentView) -> Option<Seq<SegmentView>> {
    if overlaps_any(t, seg) {
        None
    } else {
        Some(t.insert(insertion_point(t, seg), seg))
    }
}

/// The table `t` after the segments of `segs` have taken their places in it,
/// one after another. Where one of them overlaps a segment that is there by
/// then, the result is the place of the first such segment in `segs`.
pub open spec fn merge_segments(t: Seq<SegmentView>, segs: Seq<SegmentView>) -> Result<
    Seq<SegmentView>,
    int,
>
    decreases segs.len(),
{
    if segs.len() == 0 {
        Ok(t)
    } else {
        match merge_segments(t, segs.drop_last()) {
            Err(i) => Err(i),
            Ok(merged) => match insert_segment(merged, segs.last()) {
                Some(r) => Ok(r),
                None => Err(segs.len() - 1),
            },
        }
    }
}

/// Where merging a front part of `segs` fails, merging all of `segs` fails
/// at the same segment.
pub proof fn lemma_merge_failure_stays(t: Seq<SegmentView>, segs: Seq<SegmentView>, k: int)
    requires
        0 <= k <= segs.len(),
        merge_segments(t, segs.take(k)) is Err,
    ensures
        merge_segments(t, segs) == merge_segments(t, segs.take(k)),
    decreases segs.len() - k,
{
    if k < segs.len() {
        assert(segs.take(k + 1).drop_last() =~= segs.take(k));
        lemma_merge_failure_stays(t, segs, k + 1);
    } else {
        assert(segs.take(k) =~= segs);
    }
}

/// A segment that overlaps none of an address-ordered table leaves the
/// table address-ordered when it takes its place, and the table then holds
/// the segments it held and the new one.
pub proof fn lemma_insert_segment(t: Seq<SegmentView>, seg: SegmentView)
    requires
        address_ordered(t),
        !overlaps_any(t, seg),
    ensures
        address_ordered(t.insert(insertion_point(t, seg), seg)),
        t.insert(insertion_point(t, seg), seg).to_multiset() == t.to_multiset().insert(seg),
{
    lemma_insertion_point(t, seg);
    let p = insertion_point(t, seg);
    let r = t.insert(p, seg);
    vstd::seq_lib::to_multiset_insert(t, p, seg);
    assert forall|i: int, j: int| 0 <= i < j < r.len() implies (#[trigger] r[i]).end() <= (
    #[trigger] r[j]).start() by {
        if j < p {
            assert(r[i] == t[i] && r[j] == t[j]);
        } else if j == p {
            assert(r[i] == t[i]);
        } else if i < p {
            assert(r[i] == t[i] && r[j] == t[j - 1]);
            if j - 1 > p {
                assert(t[p].end() <= t[j - 1].start());
            }
        } else if i == p {
            assert(r[j] == t[j - 1]);
            assert(!t[p].overlaps(seg));
            if j - 1 > p {
                assert(t[p].end() <= t[j - 1].start());
            }
        } else {
            assert(r[i] == t[i - 1] && r[j] == t[j - 1]);
        }
    }
}

/// Merging succeeds exactly when no segment of `segs` overlaps a segment of
/// the table or another segment of `segs`. The merged table is then
/// address-ordered and holds the segments of both. Where merging fails, the
/// segment it names overlaps one of the table or one in front of it in `segs`.
pub proof fn lemma_merge_segments(t: Seq<SegmentView>, segs: Seq<SegmentView>)
    requires
        address_ordered(t),
    ensures
        match merge_segments(t, segs) {
            Ok(r) => {
                &&& address_ordered(r)
                &&& r.to_multiset() == t.to_multiset().add(segs.to_multiset())
                &&& forall|i: int, k: int|
                    0 <= i < segs.len() && 0 <= k < t.len() ==> !(#[trigger] segs[i]).overlaps(
                        #[trigger] t[k],
                    )
                &&& forall|i: int, j: int|
                    0 <= i < j < segs.len() ==> !(#[trigger] segs[i]).overlaps(#[trigger] segs[j])
            },
            Err(i) => {
                &&& 0 <= i < segs.len()
                &&& (exists|k: int| 0 <= k < t.len() && (#[trigger] t[k]).overlaps(segs[i]))
                    || (exists|k: int| 0 <= k < i && (#[trigger] segs[k]).overlaps(segs[i]))
            },
        },
    decreases segs.len(),
{
    broadcast use vstd::seq_lib::group_to_multiset_ensures;

    if segs.len() == 0 {
        assert(segs.to_multiset() =~= vstd::multiset::Multiset::<SegmentView>::empty());
        assert(t.to_multiset().add(segs.to_multiset()) =~= t.to_multiset());
    } else {
        let front = segs.drop_last();
        let last = segs.last();
        lemma_merge_segments(t, front);
        assert forall|i: int| 0 <= i < front.len() implies front[i] == segs[i] by {}
        match merge_segments(t, front) {
            Err(i) => {
                if exists|k: int| 0 <= k < i && (#[trigger] front[k]).overlaps(front[i]) {
                    let k = choose|k: int| 0 <= k < i && (#[trigger] front[k]).overlaps(front[i]);
                    assert(segs[k].overlaps(segs[i]));
                }
            },
            Ok(merged) => {
                assert(segs =~= front.push(last));
                assert(merged.to_multiset().insert(last) =~= t.to_multiset().add(
                    segs.to_multiset(),
                ));
                if overlaps_any(merged, last) {
                    let k = choose|k: int| 0 <= k < merged.len() && (#[trigger] merged[k]).overlaps(
                        last,
                    );
                    let hit = merged[k];
                    assert(merged.contains(hit));
                    assert(merged.to_multiset().count(hit) > 0);
                    if t.to_multiset().count(hit) > 0 {
                        assert(t.contains(hit));
                        let a = choose|a: int| 0 <= a < t.len() && t[a] == hit;
                        assert(t[a].overlaps(segs[segs.len() - 1]));
                    } else {
                        assert(front.to_multiset().count(hit) > 0);
                        assert(front.contains(hit));
                        let a = choose|a: int| 0 <= a < front.len() && front[a] == hit;
                        assert(segs[a].overlaps(segs[segs.len() - 1]));
                    }
                } else {
                    lemma_insert_segment(merged, last);
                    assert forall|i: int, k: int|
                        0 <= i < segs.len() && 0 <= k < t.len() implies !(#[trigger] segs[i]).overlaps(
                        #[trigger] t[k],
                    ) by {
                        if i == segs.len() - 1 {
                            assert(t.contains(t[k]));
                            assert(merged.to_multiset().count(t[k]) > 0);
                            assert(merged.contains(t[k]));
                            let a = choose|a: int| 0 <= a < merged.len() && merged[a] == t[k];
                            assert(!merged[a].overlaps(last));
                        } else {
                            assert(!front[i].overlaps(t[k]));
                        }
                    }
                    assert forall|i: int, j: int| 0 <= i < j < segs.len() implies !(
                    #[trigger] segs[i]).overlaps(#[trigger] segs[j]) by {
                        if j == segs.len() - 1 {
                            assert(front.contains(front[i]));
                            assert(merged.to_multiset().count(front[i]) > 0);
                            assert(merged.contains(front[i]));
                            let a = choose|a: int| 0 <= a < merged.len() && merged[a] == front[i];
                            assert(!merged[a].overlaps(last));
                        } else {
                            assert(!front[i].overlaps(front[j]));
                        }
                    }
                }
            },
        }
    }
}

/// Data segments in address order, no two of them overlapping.
#[derive(Debug)]
pub struct DataSegmentTable {
    segments: Vec<DataSegment>,
}

impl View for DataSegmentTable {
    type V = Seq<SegmentView>;

    closed spec fn view(&self) -> Seq<SegmentView> {
        self.segments@.map_values(|s: DataSegment| s@)
    }
}

impl DataSegmentTable {
    /// The invariant of the table: address order without overlap.
    pub open spec fn wf(&self) -> bool {
        address_ordered(self@)
    }

    /// The empty table.
    pub fn new() -> (t: Self)
        ensures
            t@ == Seq::<SegmentView>::empty(),
            t.wf(),
    {
        let t = DataSegmentTable { segments: Vec::new() };
        assert(t@ =~= Seq::<SegmentView>::empty());
        t
    }

    /// The number of segments.
    pub fn len(&self) -> (n: usize)
        ensures
            n == self@.len(),
    {
        self.segments.len()
    }

    /// True when the table holds no segment.
    pub fn is_empty(&self) -> (r: bool)
        ensures
            r == (self@.len() == 0),
    {
        self.segments.len() == 0
    }

    /// The segment at place `index` in address order.
    pub fn get(&self, index: usize) -> (s: Option<&DataSegment>)
        ensures
            index < self@.len() ==> s.is_some() && s.unwrap()@ == self@[index as int],
            index >= self@.len() ==> s.is_none(),
    {
        if index < self.segments.len() {
            Some(&self.segments[index])
        } else {
            None
        }
    }

    /// The place at which `seg` belongs: the number of segments that end at
    /// its start or before.
    pub fn position(&self, seg: &DataSegment) -> (p: usize)
        requires
            self.wf(),
        ensures
            p == insertion_point(self@, seg@),
            p <= self@.len(),
    {
        let mut i: usize = 0;
        while i < self.segments.len() && self.segments[i].end() <= seg.start()
            invariant
                0 <= i <= self.segments.len(),
                forall|k: int| 0 <= k < i ==> (#[trigger] self@[k]).end() <= seg@.start(),
            decreases self.segments.len() - i,
        {
            i += 1;
        }
        proof {
            lemma_insertion_point_unique(self@, seg@, i as int);
        }
        i
    }

    /// The first segment of the table that overlaps `seg`, if there is one.
    pub fn find_overlap(&self, seg: &DataSegment) -> (r: Option<usize>)
        requires
            self.wf(),
        ensures
            r.is_some() == overlaps_any(self@, seg@),
            r matches Some(i) ==> i < self@.len() && self@[i as int].overlaps(seg@) && forall|k: int|
                0 <= k < i ==> !(#[trigger] self@[k]).overlaps(seg@),
    {
        let p = self.position(seg);
        proof {
            lemma_insertion_point(self@, seg@);
        }
        if p < self.segments.len() && self.segments[p].start() < seg.end() {
            Some(p)
        } else {
            assert forall|k: int| 0 <= k < self@.len() implies !(#[trigger] self@[k]).overlaps(
                seg@,
            ) by {
                if k > p {
                    assert(self@[p as int].end() <= self@[k].start());
                }
            }
            None
        }
    }

    /// Puts `seg` at its place in address order, unless it overlaps a segment
    /// of the table: then the table stays as it is, and the place of the first
    /// segment that `seg` overlaps is returned as the error.
    pub fn insert(&mut self, seg: DataSegment) -> (r: Result<usize, usize>)
        requires
            old(self).wf(),
        ensures
            final(self).wf(),
            r.is_err() == overlaps_any(old(self)@, seg@),
            r matches Ok(p) ==> p == insertion_point(old(self)@, seg@) && insert_segment(
                old(self)@,
                seg@,
            ) == Some(final(self)@),
            r matches Err(i) ==> final(self)@ == old(self)@ && i < old(self)@.len() && old(
                self,
            )@[i as int].overlaps(seg@) && forall|k: int|
                0 <= k < i ==> !(#[trigger] old(self)@[k]).overlaps(seg@),
    {
        match self.find_overlap(&seg) {
            Some(i) => Err(i),
            None => {
                let p = self.position(&seg);
                proof {
                    lemma_insertion_point(self@, seg@);
                }
                let ghost before = self@;
                self.segments.insert(p, seg);
                proof {
                    assert(self@ =~= before.insert(p as int, seg@));
                    lemma_insert_segment(before, seg@);
                }
                Ok(p)
            },
        }
    }

    /// The segment that holds the byte at `addr`, if there is one.
    pub fn find(&self, addr: u32) -> (r: Option<usize>)
        requires
            self.wf(),
        ensures
            r matches Some(i) ==> i < self@.len() && self@[i as int].contains(addr as int),
            r.is_none() ==> forall|k: int| 0 <= k < self@.len() ==> !(#[trigger] self@[k]).contains(
                addr as int,
            ),
    {
        let mut i: usize = 0;
        while i < self.segments.len()
            invariant
                0 <= i <= self.segments.len(),
                forall|k: int| 0 <= k < i ==> !(#[trigger] self@[k]).contains(addr as int),
            decreases self.segments.len() - i,
        {
            let s = &self.segments[i];
            if s.start() <= addr as u128 && (addr as u128) < s.end() {
                return Some(i);
            }
            i += 1;
        }
        None
    }
}

impl Clone for DataSegmentTable {
    fn clone(&self) -> (r: Self)
        ensures
            r@ == self@,
    {
        let mut segments: Vec<DataSegment> = Vec::new();
        let mut i: usize = 0;
        while i < self.segments.len()
            invariant
                0 <= i <= self.segments.len(),
                segments@.len() == i,
                forall|k: int| 0 <= k < i ==> (#[trigger] segments@[k])@ == self.segments@[k]@,
            decreases self.segments.len() - i,
        {
            segments.push(self.segments[i].clone());
            i += 1;
        }
        let r = DataSegmentTable { segments };
        assert(r@ =~= self@);
        r
    }
}

} // verus!
