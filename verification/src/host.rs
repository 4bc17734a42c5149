//! What a host shares between the connections of a database: the write lane, the
//! ids of writers, and the places where index pages go.
use vstd::prelude::*;
use vstd::utf8::*;
use crate::error::StorageFault;
use crate::group_commit::GroupCommit;
use crate::store::Store;
use crate::text::{from_chars, lower_chars, lower_text};

verus! {

/// The write lane: one writer at a time holds it, across the statements of its
/// transaction.
pub struct WriteLane {
    pub locked: bool,
}

/// Whether a lane goes to whoever asks for it.
pub open spec fn grants(lane: WriteLane) -> bool {
    !lane.locked
}

/// A lane that somebody holds.
pub open spec fn held_lane() -> WriteLane {
    WriteLane { locked: true }
}

/// A lane that nobody holds.
pub open spec fn free_lane() -> WriteLane {
    WriteLane { locked: false }
}

impl WriteLane {
    pub fn new() -> (r: WriteLane)
        ensures
            r == free_lane(),
    {
        WriteLane { locked: false }
    }

    /// Take the lane if it is free; whether it was. One who is refused asks again when
    /// it was given back.
    pub fn acquire(&mut self) -> (r: bool)
        ensures
            r == grants(*old(self)),
            *final(self) == held_lane(),
    {
        if self.locked {
            return false;
        }
        self.locked = true;
        true
    }

    /// Give the lane back.
    pub fn release(&mut self)
        ensures
            *final(self) == free_lane(),
    {
        self.locked = false;
    }
}

/// Somebody asks for the lane, or gives it back.
pub enum LaneStep {
    Acquire(nat),
    Release(nat),
}

/// A lane, and those to whom it went and who did not give it back.
pub struct LaneUseV {
    pub lane: WriteLane,
    pub holders: Set<nat>,
}

/// Only who holds a lane gives it back.
pub open spec fn lane_step(u: LaneUseV, step: LaneStep) -> LaneUseV {
    match step {
        LaneStep::Acquire(who) => LaneUseV {
            lane: held_lane(),
            holders: if grants(u.lane) {
                u.holders.insert(who)
            } else {
                u.holders
            },
        },
        LaneStep::Release(who) => if u.holders.contains(who) {
            LaneUseV { lane: free_lane(), holders: u.holders.remove(who) }
        } else {
            u
        },
    }
}

/// A new lane after what was done with it.
pub open spec fn lane_use(steps: Seq<LaneStep>) -> LaneUseV
    decreases steps.len(),
{
    if steps.len() == 0 {
        LaneUseV { lane: free_lane(), holders: Set::empty() }
    } else {
        lane_step(lane_use(steps.drop_last()), steps.last())
    }
}

/// At most one holds the lane at any time, and it is free just when nobody does.
pub proof fn law_one_writer_at_a_time(steps: Seq<LaneStep>)
    ensures
        forall|a: nat, b: nat|
            #![trigger lane_use(steps).holders.contains(a), lane_use(steps).holders.contains(b)]
            lane_use(steps).holders.contains(a) && lane_use(steps).holders.contains(b) ==> a == b,
        grants(lane_use(steps).lane) <==> lane_use(steps).holders == Set::<nat>::empty(),
    decreases steps.len(),
{
    if steps.len() > 0 {
        law_one_writer_at_a_time(steps.drop_last());
        let before = lane_use(steps.drop_last());
        let after = lane_use(steps);
        match steps.last() {
            LaneStep::Acquire(who) => {
                if grants(before.lane) {
                    assert(after.holders.contains(who));
                } else {
                    assert(after.holders == before.holders);
                }
            },
            LaneStep::Release(who) => {
                if before.holders.contains(who) {
                    assert forall|a: nat| !after.holders.contains(a) by {
                        if after.holders.contains(a) {
                            assert(before.holders.contains(a));
                        }
                    }
                    assert(after.holders =~= Set::<nat>::empty());
                }
            },
        }
    }
}

/// While somebody holds the lane nobody else gets it, however many ask.
pub proof fn law_a_held_lane_is_refused(steps: Seq<LaneStep>, holder: nat, who: nat)
    requires
        lane_use(steps).holders.contains(holder),
    ensures
        !grants(lane_use(steps).lane),
        lane_use(steps.push(LaneStep::Acquire(who))).holders == lane_use(steps).holders,
{
    law_one_writer_at_a_time(steps);
    assert(steps.push(LaneStep::Acquire(who)).drop_last() =~= steps);
    assert(lane_use(steps).holders != Set::<nat>::empty());
}

/// Once the lane is given back it goes to the next who asks, and to them alone.
pub proof fn law_a_freed_lane_is_granted(steps: Seq<LaneStep>, holder: nat, next: nat)
    requires
        lane_use(steps).holders.contains(holder),
    ensures
        ({
            let freed = steps.push(LaneStep::Release(holder));
            &&& grants(lane_use(freed).lane)
            &&& lane_use(freed.push(LaneStep::Acquire(next))).holders == set![next]
        }),
{
    let freed = steps.push(LaneStep::Release(holder));
    let taken = freed.push(LaneStep::Acquire(next));
    assert(freed.drop_last() =~= steps);
    assert(taken.drop_last() =~= freed);
    law_one_writer_at_a_time(freed);
    assert(lane_use(taken).holders =~= set![next]);
}

/// Gives out the ids of writers.
pub struct OwnerIds {
    pub next: u64,
}

pub open spec fn owner_after(next: u64) -> u64 {
    if next == 0 {
        1
    } else {
        next
    }
}

impl OwnerIds {
    pub fn new() -> (r: OwnerIds)
        ensures
            r.next == 1,
    {
        OwnerIds { next: 1 }
    }

    /// A fresh id. Zero stands for what is committed, and is never given out.
    pub fn next_owner(&mut self) -> (r: u64)
        ensures
            r == owner_after(old(self).next),
            r != 0,
            final(self).next == r.wrapping_add(1),
    {
        let id: u64 = if self.next == 0 {
            1
        } else {
            self.next
        };
        self.next = id.wrapping_add(1);
        id
    }
}

/// Counters of a database, as they stand.
pub struct EngineStats {
    pub commits: u64,
    pub durable_appends: u64,
    pub committed_lsn: u64,
}

pub fn stats(group: &GroupCommit, store: &Store) -> (r: EngineStats)
    ensures
        r.commits == group@.commits,
        r.durable_appends == group@.batches,
        r.committed_lsn == store@.committed_lsn,
{
    let (durable_appends, commits): (u64, u64) = group.metrics();
    EngineStats { commits, durable_appends, committed_lsn: store.committed_lsn }
}

/// Whether a fault on renewing the writer's lease means that a newer writer took
/// over, so that this one has to stop.
pub fn lost_lease(fault: StorageFault) -> (r: bool)
    ensures
        r == (fault == StorageFault::Fenced),
{
    match fault {
        StorageFault::Fenced => true,
        _ => false,
    }
}

// ---- index pages ----------------------------------------------------------------------------------

pub const FNV_BASIS: u64 = 0xcbf2_9ce4_8422_2325;

pub const FNV_PRIME: u64 = 0x0000_0100_0000_01b3;

/// The 64-bit FNV-1a hash of the first `n` bytes.
pub open spec fn fnv(b: Seq<u8>, n: int) -> u64
    decreases n,
{
    if n <= 0 || n > b.len() {
        FNV_BASIS
    } else {
        (fnv(b, n - 1) ^ (b[n - 1] as u64)).wrapping_mul(FNV_PRIME)
    }
}

/// The first page of the region of a hash: a high band, with the low bits left for
/// the pages of one index.
pub open spec fn region_of(h: u64) -> u64 {
    (1u64 << 63) | ((h & 0xFF_FFFF_FFFF) << 23)
}

/// The first page of an index's checkpoint. Names that differ in case alone share it;
/// so may others, which the name on the first page tells apart.
pub fn index_page_region(name: &str) -> (r: u64)
    ensures
        r == region_of(
            fnv(encode_utf8(lower_text(name@)), encode_utf8(lower_text(name@)).len() as int),
        ),
{
    let low = from_chars(lower_chars(name).as_slice());
    let ghost b = encode_utf8(lower_text(name@));
    let text = low.as_str();
    let bytes = text.as_bytes();
    let mut h: u64 = FNV_BASIS;
    let mut i: usize = 0;
    while i < bytes.len()
        invariant
            i <= bytes@.len(),
            bytes@ == b,
            h == fnv(b, i as int),
        decreases bytes@.len() - i,
    {
        h = (h ^ (bytes[i] as u64)).wrapping_mul(FNV_PRIME);
        i += 1;
    }
    (1u64 << 63) | ((h & 0xFF_FFFF_FFFF) << 23)
}

/// The regions lie in the upper half of the page ids, and the pages of two regions
/// do not mix: they start as far apart as an index may have pages.
pub proof fn law_regions_are_apart(h: u64, g: u64)
    ensures
        region_of(h) >= 0x8000_0000_0000_0000,
        region_of(h) % 0x80_0000 == 0,
        region_of(h) < region_of(g) ==> region_of(g) - region_of(h) >= 0x80_0000,
{
    let a = (1u64 << 63) | ((h & 0xFF_FFFF_FFFF) << 23);
    let b = (1u64 << 63) | ((g & 0xFF_FFFF_FFFF) << 23);
    assert(a >= 0x8000_0000_0000_0000 && a % 0x80_0000 == 0) by (bit_vector)
        requires
            a == (1u64 << 63) | ((h & 0xFF_FFFF_FFFF) << 23),
    ;
    assert(b % 0x80_0000 == 0) by (bit_vector)
        requires
            b == (1u64 << 63) | ((g & 0xFF_FFFF_FFFF) << 23),
    ;
}

} // verus!
