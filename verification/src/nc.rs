//! The neighbour cache: sixteen address resolutions in software, of which up
//! to eight are mirrored into the NIC's neighbour table.

use vstd::prelude::*;
use crate::bus::{Bus, BusOpView};
use crate::cmd::{byte_data, cmd_stores, ip_data, mac_data, Cmd, Op};
use crate::routing::ip_eq;

verus! {

/// Entries of the software cache.
pub const NC_ENT_COUNT: usize = 16;

/// Slots of the hardware table.
pub const NC_ENT_HW_COUNT: usize = 8;

/// One resolution: the address, the hardware address that answers for it,
/// and the port behind which it lives.
#[derive(Clone, Copy, Debug)]
pub struct NCEntry {
    pub ip: [u8; 4],
    pub mac: [u8; 6],
    pub port: u8,
    /// The slot of the hardware table that mirrors this entry, if one does.
    pub hardware_slot: Option<usize>,
    /// Whether the entry holds a resolution at all.
    pub valid: bool,
}

impl Default for NCEntry {
    fn default() -> (r: Self)
        ensures
            !r.valid,
            r.hardware_slot is None,
    {
        NCEntry { ip: [0;4], mac: [0;6], port: 0, hardware_slot: None, valid: false }
    }
}

/// The software cache with its two cursors: where the next resolution goes,
/// and which hardware slot the next promotion takes.
pub struct NeighboorCache {
    entries: [NCEntry; 16],
    nptr: usize,
    nhwptr: usize,
}

/// The entry that `put` writes.
pub open spec fn fresh_entry(ip: [u8; 4], mac: [u8; 6], port: u8) -> NCEntry {
    NCEntry { ip, mac, port, hardware_slot: None, valid: true }
}

/// The index of the first valid entry for `ip` among the first `n`.
pub open spec fn first_match(entries: Seq<NCEntry>, ip: [u8; 4], n: int) -> Option<int>
    decreases n,
{
    if n <= 0 {
        None
    } else {
        match first_match(entries, ip, n - 1) {
            Some(i) => Some(i),
            None => if entries[n - 1].valid && entries[n - 1].ip == ip {
                Some(n - 1)
            } else {
                None
            },
        }
    }
}

/// The entries once the entry at `at` is mirrored into hardware slot `slot`:
/// that entry names the slot, and the valid entry that named it before, if
/// there was one, names none.
pub open spec fn promoted(entries: Seq<NCEntry>, slot: int, at: int) -> Seq<NCEntry> {
    Seq::new(
        16,
        |i: int|
            if i == at {
                NCEntry { hardware_slot: Some(slot as usize), ..entries[i] }
            } else if entries[i].valid && entries[i].hardware_slot == Some(slot as usize) {
                NCEntry { hardware_slot: None, ..entries[i] }
            } else {
                entries[i]
            },
    )
}

/// The entries after the resolutions `puts` went in, one after the other,
/// starting with the insert cursor at `nptr`.
pub open spec fn after_puts(entries: Seq<NCEntry>, nptr: int, puts: Seq<NCEntry>) -> Seq<NCEntry>
    decreases puts.len(),
{
    if puts.len() == 0 {
        entries
    } else {
        after_puts(entries, nptr, puts.drop_last()).update(
            (nptr + puts.len() - 1) % 16,
            puts.last(),
        )
    }
}

/// The entries after the entries at `ats` were mirrored into hardware, one
/// after the other, starting with the hardware cursor at `slot`.
pub open spec fn after_promotions(entries: Seq<NCEntry>, slot: int, ats: Seq<int>) -> Seq<NCEntry>
    decreases ats.len(),
{
    if ats.len() == 0 {
        entries
    } else {
        promoted(
            after_promotions(entries, slot, ats.drop_last()),
            (slot + ats.len() - 1) % 8,
            ats.last(),
        )
    }
}

/// The requests that program hardware slot `slot` with an entry: its
/// address, its hardware address, its port, then the enable.
pub open spec fn promote_stores(e: NCEntry, slot: u8) -> Seq<BusOpView> {
    cmd_stores(Op::WriteNCEntIP, slot, ip_data(e.ip)) + cmd_stores(
        Op::WriteNCEntMAC,
        slot,
        mac_data(e.mac),
    ) + cmd_stores(Op::WriteNCEntPort, slot, byte_data(e.port)) + cmd_stores(
        Op::EnableNCEnt,
        slot,
        byte_data(0),
    )
}

impl Default for NeighboorCache {
    fn default() -> (r: Self)
        ensures
            r.wf(),
            r.nptr() == 0,
            r.nhwptr() == 0,
            forall|i: int| 0 <= i < 16 ==> !(#[trigger] r.entries()[i]).valid,
    {
        let e = NCEntry::default();
        NeighboorCache { entries: [e;16], nptr: 0, nhwptr: 0 }
    }
}

impl NeighboorCache {
    /// The sixteen entries.
    pub closed spec fn entries(&self) -> Seq<NCEntry> {
        self.entries@
    }

    /// Where the next `put` writes.
    pub closed spec fn nptr(&self) -> int {
        self.nptr as int
    }

    /// The hardware slot that the next promotion takes.
    pub closed spec fn nhwptr(&self) -> int {
        self.nhwptr as int
    }

    /// Both cursors are in range, every mirrored entry names a slot of the
    /// hardware table, and no two valid entries name the same slot.
    pub open spec fn wf(&self) -> bool {
        &&& self.entries().len() == 16
        &&& 0 <= self.nptr() < 16
        &&& 0 <= self.nhwptr() < 8
        &&& forall|i: int|
            0 <= i < 16 ==> match (#[trigger] self.entries()[i]).hardware_slot {
                Some(s) => s < 8,
                None => true,
            }
        &&& forall|i: int, j: int|
            0 <= i < 16 && 0 <= j < 16 && i != j && (#[trigger] self.entries()[i]).valid && (
            #[trigger] self.entries()[j]).valid && self.entries()[i].hardware_slot is Some
                ==> self.entries()[i].hardware_slot != self.entries()[j].hardware_slot
    }

    /// The index of the first valid entry for `ip`.
    pub fn lookup(&self, ip: &[u8; 4]) -> (r: Option<usize>)
        ensures
            match r {
                Some(i) => first_match(self.entries(), *ip, 16) == Some(i as int) && i < 16
                    && self.entries()[i as int].valid && self.entries()[i as int].ip == *ip,
                None => first_match(self.entries(), *ip, 16) is None && forall|j: int|
                    0 <= j < 16 ==> !((#[trigger] self.entries()[j]).valid && self.entries()[j].ip
                        == *ip),
            },
    {
        let mut i: usize = 0;
        while i < NC_ENT_COUNT
            invariant
                0 <= i <= 16,
                first_match(self.entries(), *ip, i as int) is None,
                forall|j: int|
                    0 <= j < i ==> !((#[trigger] self.entries()[j]).valid && self.entries()[j].ip
                        == *ip),
            decreases 16 - i,
        {
            if self.entries[i].valid && ip_eq(&self.entries[i].ip, ip) {
                proof {
                    lemma_first_match_found(self.entries(), *ip, i as int, 16);
                }
                return Some(i);
            }
            i = i + 1;
        }
        None
    }

    /// The entry at `at`.
    pub fn get(&self, at: usize) -> (r: &NCEntry)
        requires
            at < 16,
        ensures
            *r == self.entries()[at as int],
    {
        &self.entries[at]
    }

    /// Records a resolution in the slot under the insert cursor and advances
    /// the cursor. What the slot held is lost; where that was mirrored into
    /// the hardware table, its hardware slot is disabled first.
    pub fn put(&mut self, ip: [u8; 4], mac: [u8; 6], port: u8, bus: &mut Bus)
        requires
            old(self).wf(),
        ensures
            final(self).wf(),
            final(self).entries() == old(self).entries().update(
                old(self).nptr(),
                fresh_entry(ip, mac, port),
            ),
            final(self).nptr() == (old(self).nptr() + 1) % 16,
            final(self).nhwptr() == old(self).nhwptr(),
            final(bus).wf() == old(bus).wf(),
            final(bus).mem() == old(bus).mem(),
            final(bus).trace() == old(bus).trace() + ({
                let evicted = old(self).entries()[old(self).nptr()];
                if evicted.valid && evicted.hardware_slot is Some {
                    cmd_stores(
                        Op::DisableNCEnt,
                        evicted.hardware_slot.unwrap() as u8,
                        byte_data(0),
                    )
                } else {
                    Seq::<BusOpView>::empty()
                }
            }),
    {
        let at = self.nptr;
        let mut sent = false;
        if self.entries[at].valid {
            if let Some(hwidx) = self.entries[at].hardware_slot {
                let dis_cmd = Cmd::with_byte(Op::DisableNCEnt, hwidx as u8, 0);
                dis_cmd.send(bus);
                sent = true;
            }
        }
        proof {
            if !sent {
                assert(bus.trace() =~= old(bus).trace() + Seq::<BusOpView>::empty());
            }
        }
        self.entries[at] = NCEntry { valid: true, hardware_slot: None, ip, mac, port };
        self.nptr = if self.nptr == NC_ENT_COUNT - 1 {
            0
        } else {
            self.nptr + 1
        };
    }

    /// What `put` asks of the hardware: the disable of the slot that mirrored
    /// the entry under the insert cursor, where one did.
    pub open spec fn put_stores(&self) -> Seq<BusOpView> {
        let evicted = self.entries()[self.nptr()];
        if evicted.valid && evicted.hardware_slot is Some {
            cmd_stores(Op::DisableNCEnt, evicted.hardware_slot.unwrap() as u8, byte_data(0))
        } else {
            Seq::<BusOpView>::empty()
        }
    }

    /// No valid entry is for `ip`.
    pub open spec fn unknown(&self, ip: [u8; 4]) -> bool {
        first_match(self.entries(), ip, 16) is None
    }

    /// Records the resolution unless the cache has one for `ip` already.
    pub fn learn(&mut self, ip: [u8; 4], mac: [u8; 6], port: u8, bus: &mut Bus) -> (added: bool)
        requires
            old(self).wf(),
        ensures
            final(self).wf(),
            added == old(self).unknown(ip),
            final(self).nhwptr() == old(self).nhwptr(),
            final(bus).wf() == old(bus).wf(),
            final(bus).mem() == old(bus).mem(),
            added ==> {
                &&& final(self).entries() == old(self).entries().update(
                    old(self).nptr(),
                    fresh_entry(ip, mac, port),
                )
                &&& final(self).nptr() == (old(self).nptr() + 1) % 16
                &&& final(bus).trace() == old(bus).trace() + old(self).put_stores()
            },
            !added ==> {
                &&& final(self).entries() == old(self).entries()
                &&& final(self).nptr() == old(self).nptr()
                &&& final(bus).trace() == old(bus).trace()
            },
    {
        if self.lookup(&ip).is_none() {
            self.put(ip, mac, port, bus);
            true
        } else {
            false
        }
    }

    /// Mirrors the entry at `at` into the hardware slot under the hardware
    /// cursor and advances that cursor. The valid entry that the slot
    /// mirrored until now, if there is one, is software-only from here on.
    pub fn write_hardware(&mut self, at: usize, bus: &mut Bus)
        requires
            old(self).wf(),
            at < 16,
        ensures
            final(self).wf(),
            final(self).nptr() == old(self).nptr(),
            final(self).nhwptr() == (old(self).nhwptr() + 1) % 8,
            final(self).entries() == promoted(
                old(self).entries(),
                old(self).nhwptr(),
                at as int,
            ),
            final(self).entries().len() == 16,
            forall|i: int|
                0 <= i < 16 ==> #[trigger] final(self).entries()[i] == (if i == at {
                    NCEntry {
                        hardware_slot: Some(old(self).nhwptr() as usize),
                        ..old(self).entries()[i]
                    }
                } else if old(self).entries()[i].valid && old(self).entries()[i].hardware_slot
                    == Some(old(self).nhwptr() as usize) {
                    NCEntry { hardware_slot: None, ..old(self).entries()[i] }
                } else {
                    old(self).entries()[i]
                }),
            final(bus).wf() == old(bus).wf(),
            final(bus).mem() == old(bus).mem(),
            final(bus).trace() == old(bus).trace() + promote_stores(
                old(self).entries()[at as int],
                old(self).nhwptr() as u8,
            ),
    {
        let slot = self.nhwptr;
        // The slot is taken from whoever has it.
        let mut owner: usize = NC_ENT_COUNT;
        let mut i: usize = 0;
        while i < NC_ENT_COUNT && owner == NC_ENT_COUNT
            invariant
                0 <= i <= 16,
                owner <= 16,
                *self == *old(self),
                slot == self.nhwptr,
                self.wf(),
                owner == 16 ==> forall|j: int|
                    0 <= j < i ==> !((#[trigger] self.entries@[j]).valid
                        && self.entries@[j].hardware_slot == Some(slot)),
                owner < 16 ==> self.entries@[owner as int].valid
                    && self.entries@[owner as int].hardware_slot == Some(slot),
            decreases 16 - i,
        {
            if self.entries[i].valid {
                if let Some(s) = self.entries[i].hardware_slot {
                    if s == slot {
                        owner = i;
                    }
                }
            }
            i = i + 1;
        }
        if owner < NC_ENT_COUNT {
            self.entries[owner].hardware_slot = None;
        }
        proof {
            assert forall|j: int| 0 <= j < 16 implies #[trigger] self.entries@[j] == (if old(
                self,
            ).entries@[j].valid && old(self).entries@[j].hardware_slot == Some(slot) {
                NCEntry { hardware_slot: None, ..old(self).entries@[j] }
            } else {
                old(self).entries@[j]
            }) by {
                if owner < 16 && j != owner {
                    if old(self).entries@[j].valid && old(self).entries@[j].hardware_slot == Some(
                        slot,
                    ) {
                        assert(old(self).entries()[owner as int].hardware_slot != old(
                            self,
                        ).entries()[j].hardware_slot);
                    }
                }
            }
        }
        let e = self.entries[at];
        Cmd::with_ip(Op::WriteNCEntIP, slot as u8, &e.ip).send(bus);
        Cmd::with_mac(Op::WriteNCEntMAC, slot as u8, &e.mac).send(bus);
        Cmd::with_byte(Op::WriteNCEntPort, slot as u8, e.port).send(bus);
        Cmd::with_byte(Op::EnableNCEnt, slot as u8, 0).send(bus);
        proof {
            assert(bus.trace() =~= old(bus).trace() + promote_stores(
                old(self).entries()[at as int],
                slot as u8,
            ));
        }
        self.entries[at].hardware_slot = Some(slot);
        proof {
            assert(self.entries@ =~= promoted(old(self).entries(), slot as int, at as int));
        }
        self.nhwptr = if self.nhwptr == NC_ENT_HW_COUNT - 1 {
            0
        } else {
            self.nhwptr + 1
        };
    }
}

/// A valid entry for `ip` with none before it is the first match.
pub proof fn lemma_first_match_found(entries: Seq<NCEntry>, ip: [u8; 4], i: int, n: int)
    requires
        0 <= i < n,
        entries[i].valid,
        entries[i].ip == ip,
        first_match(entries, ip, i) is None,
    ensures
        first_match(entries, ip, n) == Some(i),
    decreases n - i,
{
    if n > i + 1 {
        lemma_first_match_found(entries, ip, i, n - 1);
    }
}

/// No valid entry for `ip` among the first `n` means no match.
pub proof fn lemma_first_match_none(entries: Seq<NCEntry>, ip: [u8; 4], n: int)
    requires
        forall|j: int| 0 <= j < n ==> !((#[trigger] entries[j]).valid && entries[j].ip == ip),
    ensures
        first_match(entries, ip, n) is None,
    decreases n,
{
    if n > 0 {
        lemma_first_match_none(entries, ip, n - 1);
    }
}

/// The single valid entry for `ip` is the first match.
pub proof fn lemma_first_match_only(entries: Seq<NCEntry>, ip: [u8; 4], i: int)
    requires
        0 <= i < 16,
        entries[i].valid,
        entries[i].ip == ip,
        forall|j: int|
            0 <= j < 16 && j != i ==> !((#[trigger] entries[j]).valid && entries[j].ip == ip),
    ensures
        first_match(entries, ip, 16) == Some(i),
{
    lemma_first_match_none(entries, ip, i);
    lemma_first_match_found(entries, ip, i, 16);
}

/// Each of the last sixteen resolutions that went in sits in the slot that
/// the insert cursor stood on when it went in.
pub proof fn lemma_last_puts_stay(entries: Seq<NCEntry>, nptr: int, puts: Seq<NCEntry>, j: int)
    requires
        entries.len() == 16,
        0 <= nptr < 16,
        0 <= j < puts.len(),
        puts.len() - 16 <= j,
    ensures
        after_puts(entries, nptr, puts).len() == 16,
        after_puts(entries, nptr, puts)[(nptr + j) % 16] == puts[j],
    decreases puts.len(),
{
    lemma_puts_len(entries, nptr, puts);
    if j < puts.len() - 1 {
        let init = puts.drop_last();
        lemma_puts_len(entries, nptr, init);
        lemma_last_puts_stay(entries, nptr, init, j);
        assert(init[j] == puts[j]);
        assert((nptr + j) % 16 != (nptr + puts.len() - 1) % 16);
    } else {
        lemma_puts_len(entries, nptr, puts.drop_last());
    }
}

/// Puts keep the number of entries.
pub proof fn lemma_puts_len(entries: Seq<NCEntry>, nptr: int, puts: Seq<NCEntry>)
    requires
        entries.len() == 16,
        0 <= nptr < 16,
    ensures
        after_puts(entries, nptr, puts).len() == 16,
    decreases puts.len(),
{
    if puts.len() > 0 {
        lemma_puts_len(entries, nptr, puts.drop_last());
    }
}

/// First in, first out. After sixteen or more resolutions for distinct
/// addresses went in, the cache finds the last sixteen of them, each with
/// what came with it, and none of the ones before.
pub proof fn lemma_fifo(entries: Seq<NCEntry>, nptr: int, puts: Seq<NCEntry>, j: int)
    requires
        entries.len() == 16,
        0 <= nptr < 16,
        puts.len() >= 16,
        0 <= j < puts.len(),
        forall|a: int| 0 <= a < puts.len() ==> (#[trigger] puts[a]).valid,
        forall|a: int, b: int| 0 <= a < b < puts.len() ==> puts[a].ip != puts[b].ip,
    ensures
        j >= puts.len() - 16 ==> first_match(after_puts(entries, nptr, puts), puts[j].ip, 16)
            == Some((nptr + j) % 16) && after_puts(entries, nptr, puts)[(nptr + j) % 16]
            == puts[j],
        j < puts.len() - 16 ==> first_match(after_puts(entries, nptr, puts), puts[j].ip, 16)
            is None,
{
    let now = after_puts(entries, nptr, puts);
    let n = puts.len() as int;
    lemma_puts_len(entries, nptr, puts);
    // Every slot holds one of the last sixteen.
    assert forall|i: int| 0 <= i < 16 implies exists|b: int|
        n - 16 <= b < n && (nptr + b) % 16 == i && #[trigger] now[i] == puts[b] by {
        let first = n - 16;
        let b = first + ((i - (nptr + first) % 16) + 16) % 16;
        assert(n - 16 <= b < n);
        assert((nptr + b) % 16 == i);
        lemma_last_puts_stay(entries, nptr, puts, b);
    }
    if j >= n - 16 {
        lemma_last_puts_stay(entries, nptr, puts, j);
        let at = (nptr + j) % 16;
        assert forall|i: int| 0 <= i < 16 && i != at implies !((#[trigger] now[i]).valid
            && now[i].ip == puts[j].ip) by {
            let b = choose|b: int| n - 16 <= b < n && (nptr + b) % 16 == i && now[i] == puts[b];
            assert(b != j);
        }
        lemma_first_match_only(now, puts[j].ip, at);
    } else {
        assert forall|i: int| 0 <= i < 16 implies !((#[trigger] now[i]).valid && now[i].ip
            == puts[j].ip) by {
            let b = choose|b: int| n - 16 <= b < n && (nptr + b) % 16 == i && now[i] == puts[b];
            assert(b != j);
        }
        lemma_first_match_none(now, puts[j].ip, 16);
    }
}

/// Round robin. After promotions of distinct valid entries of a cache in
/// which no entry was mirrored, the last eight of them are mirrored, each
/// into the slot that the hardware cursor stood on at its promotion, and no
/// other entry is.
pub proof fn lemma_round_robin(entries: Seq<NCEntry>, slot: int, ats: Seq<int>, i: int)
    requires
        entries.len() == 16,
        0 <= slot < 8,
        0 <= i < 16,
        forall|a: int| 0 <= a < 16 ==> (#[trigger] entries[a]).hardware_slot is None,
        forall|a: int| 0 <= a < ats.len() ==> 0 <= #[trigger] ats[a] < 16 && entries[ats[a]].valid,
        forall|a: int, b: int| 0 <= a < b < ats.len() ==> ats[a] != ats[b],
    ensures
        after_promotions(entries, slot, ats).len() == 16,
        after_promotions(entries, slot, ats)[i] == (NCEntry {
            hardware_slot: after_promotions(entries, slot, ats)[i].hardware_slot,
            ..entries[i]
        }),
        forall|a: int|
            0 <= a < ats.len() && ats.len() - 8 <= a && ats[a] == i ==> after_promotions(
                entries,
                slot,
                ats,
            )[i].hardware_slot == Some(((slot + a) % 8) as usize),
        (forall|a: int| 0 <= a < ats.len() && ats.len() - 8 <= a ==> ats[a] != i)
            ==> after_promotions(entries, slot, ats)[i].hardware_slot is None,
    decreases ats.len(),
{
    if ats.len() > 0 {
        let n = ats.len() as int;
        let init = ats.drop_last();
        let before = after_promotions(entries, slot, init);
        let now = after_promotions(entries, slot, ats);
        let s = (slot + n - 1) % 8;
        assert forall|a: int| 0 <= a < init.len() implies 0 <= #[trigger] init[a] < 16
            && entries[init[a]].valid by {
            assert(init[a] == ats[a]);
        }
        assert forall|a: int, b: int| 0 <= a < b < init.len() implies init[a] != init[b] by {
            assert(init[a] == ats[a]);
            assert(init[b] == ats[b]);
        }
        lemma_round_robin(entries, slot, init, i);
        assert(now[i] == promoted(before, s, ats.last())[i]);
        if i != ats.last() {
            assert forall|a: int| 0 <= a < n && n - 8 <= a && ats[a] == i implies now[i].hardware_slot
                == Some(((slot + a) % 8) as usize) by {
                assert(a < n - 1);
                assert(init[a] == ats[a]);
                assert(before[i].hardware_slot == Some(((slot + a) % 8) as usize));
                assert((slot + a) % 8 != s);
            }
            if forall|a: int| 0 <= a < n && n - 8 <= a ==> ats[a] != i {
                // The entry named none before, or named the slot that is
                // taken from it now.
                if before[i].hardware_slot is Some {
                    if exists|a: int| 0 <= a < n - 1 && n - 9 <= a && init[a] == i {
                        let a = choose|a: int| 0 <= a < n - 1 && n - 9 <= a && init[a] == i;
                        assert(ats[a] == i);
                        assert(a == n - 9);
                        assert(before[i].hardware_slot == Some(((slot + a) % 8) as usize));
                        assert((slot + a) % 8 == s);
                        assert(before[i].valid);
                    } else {
                        assert forall|a: int| 0 <= a < init.len() && init.len() - 8
                            <= a implies init[a] != i by {
                        }
                    }
                }
            }
        }
    }
}

} // verus!
