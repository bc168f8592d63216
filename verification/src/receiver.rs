//! Transport receiver / reassembler.
//!
//! Tracks in-flight frames by identifier, places incoming chunks by index
//! (out-of-order and duplicate arrivals tolerated), evicts entries that
//! have gone stale, and emits a frame's payload once every slot is filled
//! (complete) or once the fill ratio reaches the salvage threshold with
//! the terminal chunk still missing (salvaged).  Emitted payloads are
//! validated against a minimum size and the JPEG start marker, and
//! complete frames also against the JPEG end marker.
//!
//! The whole behaviour of one receive event is pinned by the model-level
//! transition function [`step_of`].

use vstd::prelude::*;
use crate::wire::HEADER_LEN;
use crate::wire::header_of;
use crate::wire::payload_of;
use crate::wire::parse_header;
use crate::wire::concat_all;
use crate::wire::chunks_of;
use crate::wire::lemma_chunking_round_trip;

verus! {

/// An in-flight frame whose latest chunk arrived longer ago than this is
/// stale and is evicted before the next arrival is processed.
pub const FRAME_TIMEOUT_MS: u64 = 500;

/// Reconstructed payloads shorter than this are dropped as invalid.
pub const MIN_FRAME_LEN: usize = 100;

/// The ghost model of one in-flight frame entry.
pub struct EntryModel {
    /// Identifier of the frame being reassembled.
    pub frame_id: u32,
    /// One slot per expected chunk; an empty slot is one whose chunk has
    /// not arrived.
    pub slots: Seq<Seq<u8>>,
    /// When the latest chunk for this frame arrived.
    pub last_update_ms: u64,
}

/// How many slots hold an arrived (non-empty) chunk.
pub open spec fn count_filled(slots: Seq<Seq<u8>>) -> int
    decreases slots.len(),
{
    if slots.len() == 0 {
        0
    } else {
        count_filled(slots.drop_last()) + if slots.last().len() > 0 {
            1int
        } else {
            0int
        }
    }
}

/// Every expected chunk has arrived.
pub open spec fn is_complete(slots: Seq<Seq<u8>>) -> bool {
    count_filled(slots) == slots.len()
}

/// Not complete, but the fill ratio is at or above the salvage threshold
/// of 98 percent.
pub open spec fn is_salvageable(slots: Seq<Seq<u8>>) -> bool {
    count_filled(slots) < slots.len() && 100 * count_filled(slots) >= 98 * slots.len()
}

/// A frame entry is finished as soon as it is complete or salvageable.
pub open spec fn entry_terminal(e: EntryModel) -> bool {
    is_complete(e.slots) || is_salvageable(e.slots)
}

/// The payload reconstructed from a slot sequence: the arrived chunks
/// concatenated in index order, missing slots skipped.
pub open spec fn assembled(slots: Seq<Seq<u8>>) -> Seq<u8>
    decreases slots.len(),
{
    if slots.len() == 0 {
        Seq::empty()
    } else {
        assembled(slots.drop_last()) + if slots.last().len() > 0 {
            slots.last()
        } else {
            Seq::empty()
        }
    }
}

/// Structural validation of a reconstructed payload: a minimum size and
/// the JPEG start marker, and for fully complete frames also the JPEG end
/// marker (a salvaged frame may have lost its terminal chunk).
pub open spec fn valid_payload(p: Seq<u8>, complete: bool) -> bool {
    &&& p.len() >= MIN_FRAME_LEN
    &&& p[0] == 0xFF
    &&& p[1] == 0xD8
    &&& complete ==> p[p.len() - 2] == 0xFF && p[p.len() - 1] == 0xD9
}

/// Whether an entry is still fresh at `now`.
pub open spec fn fresh_at(e: EntryModel, now: u64) -> bool {
    now < e.last_update_ms + FRAME_TIMEOUT_MS
}

/// The table with every stale entry removed, order kept.
pub open spec fn evict_model(m: Seq<EntryModel>, now: u64) -> Seq<EntryModel>
    decreases m.len(),
{
    if m.len() == 0 {
        m
    } else if fresh_at(m[0], now) {
        seq![m[0]] + evict_model(m.drop_first(), now)
    } else {
        evict_model(m.drop_first(), now)
    }
}

/// Whether some in-flight entry carries this frame identifier.
pub open spec fn has_id(m: Seq<EntryModel>, id: u32) -> bool {
    exists|i: int| 0 <= i < m.len() && m[i].frame_id == id
}

/// The index of the entry carrying this frame identifier (unique under
/// [`table_wf`]).
pub open spec fn index_of_id(m: Seq<EntryModel>, id: u32) -> int {
    choose|i: int| 0 <= i < m.len() && m[i].frame_id == id
}

/// Well-formedness of the in-flight table: identifiers are unique, and
/// every entry has between 1 and `u32::MAX` slots (the slot count comes
/// from the 32-bit `total_chunks` header field of its first chunk).
pub open spec fn table_wf(m: Seq<EntryModel>) -> bool {
    &&& forall|i: int, j: int|
        0 <= i < j < m.len() ==> m[i].frame_id != m[j].frame_id
    &&& forall|i: int| 0 <= i < m.len() ==> 1 <= (#[trigger] m[i]).slots.len() <= u32::MAX
}

/// A slot sequence with `n` slots, none yet arrived.
pub open spec fn empty_slots(n: nat) -> Seq<Seq<u8>> {
    Seq::new(n, |i: int| Seq::<u8>::empty())
}

/// What a finished entry emits: its reconstructed payload if that passes
/// validation, nothing otherwise.
pub open spec fn settle_emit(e: EntryModel) -> Option<Seq<u8>> {
    if valid_payload(assembled(e.slots), is_complete(e.slots)) {
        Some(assembled(e.slots))
    } else {
        None
    }
}

/// Applies the completion check to the entry at index `j` (whose model is
/// `e`): a finished entry leaves the table and possibly emits; an
/// unfinished one stays.
pub open spec fn settle(m: Seq<EntryModel>, j: int, e: EntryModel) -> (Seq<EntryModel>, Option<
    Seq<u8>,
>) {
    if entry_terminal(e) {
        (m.remove(j), settle_emit(e))
    } else {
        (m, None)
    }
}

/// The complete transition of one receive event: the new in-flight table
/// and the payload emitted, if any.
///
/// An undersized datagram changes nothing.  Otherwise stale entries are
/// evicted first; then the chunk is placed into its frame's entry
/// (created from the header's `total_chunks` on first contact), unless
/// its index is out of range, in which case the table (after eviction) is
/// left as it is; finally the touched entry is checked for completion.
pub open spec fn step_of(m: Seq<EntryModel>, d: Seq<u8>, now: u64) -> (Seq<EntryModel>, Option<
    Seq<u8>,
>) {
    if d.len() < HEADER_LEN {
        (m, None)
    } else {
        let h = header_of(d);
        let payload = payload_of(d);
        let m1 = evict_model(m, now);
        if has_id(m1, h.frame_id) {
            let j = index_of_id(m1, h.frame_id);
            let e = m1[j];
            if (h.chunk_index as int) < e.slots.len() {
                let e2 = EntryModel {
                    frame_id: e.frame_id,
                    slots: e.slots.update(h.chunk_index as int, payload),
                    last_update_ms: now,
                };
                settle(m1.update(j, e2), j, e2)
            } else {
                (m1, None)
            }
        } else {
            if h.chunk_index < h.total_chunks {
                let e2 = EntryModel {
                    frame_id: h.frame_id,
                    slots: empty_slots(h.total_chunks as nat).update(
                        h.chunk_index as int,
                        payload,
                    ),
                    last_update_ms: now,
                };
                settle(m1.push(e2), m1.len() as int, e2)
            } else {
                (m1, None)
            }
        }
    }
}

struct FrameEntry {
    frame_id: u32,
    slots: Vec<Vec<u8>>,
    last_update_ms: u64,
}

spec fn entry_model(e: FrameEntry) -> EntryModel {
    EntryModel {
        frame_id: e.frame_id,
        slots: e.slots@.map_values(|v: Vec<u8>| v@),
        last_update_ms: e.last_update_ms,
    }
}

/// Receiver-side reassembly engine: the in-flight frame table and the
/// per-arrival state machine over it.
pub struct Reassembler {
    entries: Vec<FrameEntry>,
}

impl View for Reassembler {
    type V = Seq<EntryModel>;

    closed spec fn view(&self) -> Seq<EntryModel> {
        self.entries@.map_values(|e: FrameEntry| entry_model(e))
    }
}

impl Reassembler {
    /// The in-flight table is well-formed.
    pub open spec fn wf(self) -> bool {
        table_wf(self@)
    }

    pub fn new() -> (r: Self)
        ensures
            r.wf(),
            r@ == Seq::<EntryModel>::empty(),
    {
        let r = Reassembler { entries: Vec::new() };
        proof {
            assert(r@ =~= Seq::<EntryModel>::empty());
        }
        r
    }

    /// Whether a frame with this identifier is currently in flight.
    pub fn is_pending(&self, frame_id: u32) -> (b: bool)
        ensures
            b == has_id(self@, frame_id),
    {
        let n = self.entries.len();
        let mut i: usize = 0;
        while i < n
            invariant
                n == self.entries@.len(),
                0 <= i <= n,
                forall|k: int| 0 <= k < i ==> self@[k].frame_id != frame_id,
                self@.len() == n,
            decreases n - i,
        {
            if self.entries[i].frame_id == frame_id {
                proof {
                    assert(self@[i as int].frame_id == frame_id);
                }
                return true;
            }
            proof {
                assert(self@[i as int] == entry_model(self.entries@[i as int]));
            }
            i = i + 1;
        }
        false
    }

    /// The number of frames currently in flight.
    pub fn pending_count(&self) -> (n: usize)
        ensures
            n == self@.len(),
    {
        self.entries.len()
    }

    /// Removes every entry whose latest chunk is older than the timeout
    /// window.
    fn evict_stale(&mut self, now_ms: u64)
        ensures
            final(self)@ == evict_model(old(self)@, now_ms),
    {
        let ghost m0 = self@;
        let mut kept: Vec<FrameEntry> = Vec::new();
        proof {
            assert(kept@.map_values(|e: FrameEntry| entry_model(e)) =~= Seq::<
                EntryModel,
            >::empty());
            assert(Seq::<EntryModel>::empty() + evict_model(m0, now_ms) =~= evict_model(
                m0,
                now_ms,
            ));
        }
        while self.entries.len() > 0
            invariant
                kept@.map_values(|e: FrameEntry| entry_model(e)) + evict_model(self@, now_ms)
                    == evict_model(m0, now_ms),
            decreases self.entries@.len(),
        {
            let ghost prevm = self@;
            let ghost keptm = kept@.map_values(|e: FrameEntry| entry_model(e));
            let e = self.entries.remove(0);
            proof {
                assert(prevm =~= seq![entry_model(e)] + self@);
                assert(prevm.drop_first() =~= self@);
                assert(prevm[0] == entry_model(e));
            }
            let keep = now_ms.saturating_sub(e.last_update_ms) < FRAME_TIMEOUT_MS;
            proof {
                assert(keep == fresh_at(entry_model(e), now_ms));
            }
            if keep {
                kept.push(e);
                proof {
                    assert(kept@.map_values(|e: FrameEntry| entry_model(e)) =~= keptm.push(
                        entry_model(e),
                    ));
                    assert(keptm.push(entry_model(e)) + evict_model(self@, now_ms) =~= keptm + (
                    seq![entry_model(e)] + evict_model(self@, now_ms)));
                    assert(evict_model(prevm, now_ms) == seq![entry_model(e)] + evict_model(
                        self@,
                        now_ms,
                    ));
                }
            } else {
                proof {
                    assert(evict_model(prevm, now_ms) == evict_model(self@, now_ms));
                }
            }
        }
        proof {
            assert(self@ =~= Seq::<EntryModel>::empty());
            assert(evict_model(self@, now_ms) == Seq::<EntryModel>::empty());
            assert(kept@.map_values(|e: FrameEntry| entry_model(e)) + evict_model(self@, now_ms)
                =~= kept@.map_values(|e: FrameEntry| entry_model(e)));
        }
        self.entries = kept;
    }

    /// The index of the first entry carrying `frame_id`, if any.
    fn find_entry(&self, frame_id: u32) -> (r: Option<usize>)
        ensures
            r matches Some(i) ==> 0 <= i < self@.len() && self@[i as int].frame_id == frame_id,
            r is None ==> !has_id(self@, frame_id),
    {
        let n = self.entries.len();
        let mut i: usize = 0;
        while i < n
            invariant
                n == self.entries@.len(),
                self@.len() == n,
                0 <= i <= n,
                forall|k: int| 0 <= k < i ==> self@[k].frame_id != frame_id,
            decreases n - i,
        {
            proof {
                assert(self@[i as int] == entry_model(self.entries@[i as int]));
            }
            if self.entries[i].frame_id == frame_id {
                return Some(i);
            }
            i = i + 1;
        }
        None
    }

    /// Processes one received datagram at time `now_ms` and returns the
    /// reconstructed frame payload when this arrival finishes a frame that
    /// passes validation.  The exact transition is [`step_of`].
    #[verifier::rlimit(100)]
    #[verifier::spinoff_prover]
    pub fn handle_datagram(&mut self, datagram: &[u8], now_ms: u64) -> (emitted: Option<Vec<u8>>)
        requires
            old(self).wf(),
        ensures
            final(self).wf(),
            final(self)@ == step_of(old(self)@, datagram@, now_ms).0,
            emitted.deep_view() == step_of(old(self)@, datagram@, now_ms).1,
    {
        let ghost m0 = self@;
        let header = match parse_header(datagram) {
            None => {
                return None;
            },
            Some(h) => h,
        };
        let payload = vstd::slice::slice_to_vec(
            vstd::slice::slice_subrange(datagram, HEADER_LEN, datagram.len()),
        );
        proof {
            assert(payload@ =~= payload_of(datagram@));
        }
        self.evict_stale(now_ms);
        let ghost m1 = self@;
        proof {
            lemma_evict_wf(m0, now_ms);
        }
        match self.find_entry(header.frame_id) {
            Some(j) => {
                proof {
                    assert(has_id(m1, header.frame_id));
                    let j2 = index_of_id(m1, header.frame_id);
                    assert(0 <= j2 < m1.len() && m1[j2].frame_id == header.frame_id);
                    if j2 != j {
                        assert(m1[j2].frame_id != m1[j as int].frame_id);
                    }
                    assert(j2 == j);
                }
                let mut e = self.entries.remove(j);
                proof {
                    assert(self@ =~= m1.remove(j as int));
                    assert(entry_model(e) == m1[j as int]);
                }
                let slot_count = e.slots.len();
                if (header.chunk_index as usize) < slot_count {
                    let ghost eold = entry_model(e);
                    e.slots[header.chunk_index as usize] = payload;
                    e.last_update_ms = now_ms;
                    let ghost e2 = EntryModel {
                        frame_id: eold.frame_id,
                        slots: eold.slots.update(header.chunk_index as int, payload_of(datagram@)),
                        last_update_ms: now_ms,
                    };
                    proof {
                        assert(entry_model(e).slots =~= e2.slots);
                        assert(entry_model(e) == e2);
                    }
                    match settle_entry(e) {
                        Settled::Keep(kept_entry) => {
                            self.entries.insert(j, kept_entry);
                            proof {
                                assert(self@ =~= m1.update(j as int, e2));
                                assert(table_wf(self@)) by {
                                    let mu = m1.update(j as int, e2);
                                    assert forall|a: int, b: int| 0 <= a < b < mu.len() implies
                                        mu[a].frame_id != mu[b].frame_id by {
                                        assert(mu[a].frame_id == m1[a].frame_id && mu[b].frame_id
                                            == m1[b].frame_id);
                                    }
                                    assert forall|a: int| 0 <= a < mu.len() implies 1 <= (
                                    #[trigger] mu[a]).slots.len() <= u32::MAX by {
                                        assert(m1[a].slots.len() >= 1);
                                    }
                                }
                            }
                            None
                        },
                        Settled::Finished(emit) => {
                            proof {
                                assert(m1.update(j as int, e2).remove(j as int) =~= m1.remove(
                                    j as int,
                                ));
                                assert(table_wf(self@)) by {
                                    let mr = m1.remove(j as int);
                                    assert forall|a: int, b: int| 0 <= a < b < mr.len() implies
                                        mr[a].frame_id != mr[b].frame_id by {}
                                    assert forall|a: int| 0 <= a < mr.len() implies 1 <= (
                                    #[trigger] mr[a]).slots.len() <= u32::MAX by {}
                                }
                            }
                            emit
                        },
                    }
                } else {
                    self.entries.insert(j, e);
                    proof {
                        assert(self@ =~= m1.remove(j as int).insert(j as int, m1[j as int]));
                        assert(self@ =~= m1);
                    }
                    None
                }
            },
            None => {
                if header.chunk_index < header.total_chunks {
                    let total = header.total_chunks as usize;
                    let mut slots: Vec<Vec<u8>> = Vec::new();
                    let mut k: usize = 0;
                    while k < total
                        invariant
                            0 <= k <= total,
                            slots@.len() == k,
                            forall|t: int| 0 <= t < k ==> slots@[t]@ == Seq::<u8>::empty(),
                        decreases total - k,
                    {
                        slots.push(Vec::new());
                        k = k + 1;
                    }
                    slots[header.chunk_index as usize] = payload;
                    let e = FrameEntry {
                        frame_id: header.frame_id,
                        slots,
                        last_update_ms: now_ms,
                    };
                    let ghost e2 = EntryModel {
                        frame_id: header.frame_id,
                        slots: empty_slots(header.total_chunks as nat).update(
                            header.chunk_index as int,
                            payload_of(datagram@),
                        ),
                        last_update_ms: now_ms,
                    };
                    proof {
                        assert(entry_model(e).slots =~= e2.slots);
                        assert(entry_model(e) == e2);
                    }
                    match settle_entry(e) {
                        Settled::Keep(kept_entry) => {
                            self.entries.push(kept_entry);
                            proof {
                                assert(self@ =~= m1.push(e2));
                                assert(table_wf(self@)) by {
                                    let mp = m1.push(e2);
                                    assert forall|a: int, b: int| 0 <= a < b < mp.len() implies
                                        mp[a].frame_id != mp[b].frame_id by {
                                        if b == m1.len() {
                                            assert(mp[a] == m1[a]);
                                        }
                                    }
                                    assert forall|a: int| 0 <= a < mp.len() implies 1 <= (
                                    #[trigger] mp[a]).slots.len() <= u32::MAX by {
                                        if a < m1.len() {
                                            assert(mp[a] == m1[a]);
                                        }
                                    }
                                }
                            }
                            None
                        },
                        Settled::Finished(emit) => {
                            proof {
                                assert(m1.push(e2).remove(m1.len() as int) =~= m1);
                            }
                            emit
                        },
                    }
                } else {
                    None
                }
            },
        }
    }
}

fn count_filled_exec(slots: &Vec<Vec<u8>>) -> (c: usize)
    ensures
        c == count_filled(slots@.map_values(|v: Vec<u8>| v@)),
        c <= slots@.len(),
{
    let ghost ss = slots@.map_values(|v: Vec<u8>| v@);
    let n = slots.len();
    let mut c: usize = 0;
    let mut i: usize = 0;
    while i < n
        invariant
            n == slots@.len(),
            ss == slots@.map_values(|v: Vec<u8>| v@),
            0 <= i <= n,
            c <= i,
            c == count_filled(ss.take(i as int)),
        decreases n - i,
    {
        proof {
            assert(ss.take(i + 1).drop_last() =~= ss.take(i as int));
            assert(ss.take(i + 1).last() == ss[i as int]);
            assert(ss[i as int] == slots@[i as int]@);
        }
        if slots[i].len() > 0 {
            c = c + 1;
        }
        i = i + 1;
    }
    proof {
        assert(ss.take(n as int) =~= ss);
    }
    c
}

fn assemble_exec(slots: &Vec<Vec<u8>>) -> (p: Vec<u8>)
    ensures
        p@ == assembled(slots@.map_values(|v: Vec<u8>| v@)),
{
    let ghost ss = slots@.map_values(|v: Vec<u8>| v@);
    let n = slots.len();
    let mut p: Vec<u8> = Vec::new();
    let mut i: usize = 0;
    while i < n
        invariant
            n == slots@.len(),
            ss == slots@.map_values(|v: Vec<u8>| v@),
            0 <= i <= n,
            p@ == assembled(ss.take(i as int)),
        decreases n - i,
    {
        proof {
            assert(ss.take(i + 1).drop_last() =~= ss.take(i as int));
            assert(ss.take(i + 1).last() == ss[i as int]);
            assert(ss[i as int] == slots@[i as int]@);
        }
        if slots[i].len() > 0 {
            p.extend_from_slice(slots[i].as_slice());
            proof {
                assert(p@ =~= assembled(ss.take(i as int)) + ss[i as int]);
            }
        } else {
            proof {
                assert(assembled(ss.take(i + 1)) =~= assembled(ss.take(i as int)) + Seq::<
                    u8,
                >::empty());
                assert(assembled(ss.take(i as int)) + Seq::<u8>::empty() =~= assembled(
                    ss.take(i as int),
                ));
            }
        }
        i = i + 1;
    }
    proof {
        assert(ss.take(n as int) =~= ss);
    }
    p
}

fn validate_exec(p: &Vec<u8>, complete: bool) -> (b: bool)
    ensures
        b == valid_payload(p@, complete),
{
    if p.len() < MIN_FRAME_LEN {
        return false;
    }
    if !(p[0] == 0xFF && p[1] == 0xD8) {
        return false;
    }
    if complete {
        let n = p.len();
        p[n - 2] == 0xFF && p[n - 1] == 0xD9
    } else {
        true
    }
}

/// What became of an entry after its completion check: either it stays in
/// flight, or it is finished and possibly emits its payload.
enum Settled {
    Keep(FrameEntry),
    Finished(Option<Vec<u8>>),
}

fn settle_entry(e: FrameEntry) -> (r: Settled)
    requires
        e.slots@.len() <= u32::MAX,
    ensures
        !entry_terminal(entry_model(e)) ==> (r matches Settled::Keep(kept) && kept == e),
        entry_terminal(entry_model(e)) ==> (r matches Settled::Finished(emit)
            && emit.deep_view() == settle_emit(entry_model(e))),
{
    let ghost em = entry_model(e);
    let c = count_filled_exec(&e.slots);
    let total = e.slots.len();
    let complete = c == total;
    let salvage = !complete && 100 * (c as u64) >= 98 * (total as u64);
    proof {
        assert(complete == is_complete(em.slots));
        assert(salvage == is_salvageable(em.slots));
    }
    if complete || salvage {
        let p = assemble_exec(&e.slots);
        let ok = validate_exec(&p, complete);
        if ok {
            Settled::Finished(Some(p))
        } else {
            Settled::Finished(None)
        }
    } else {
        Settled::Keep(e)
    }
}

/// Eviction keeps the table well-formed: it keeps a subsequence of the
/// entries (exactly the fresh ones, in order), so identifiers stay
/// unique.
pub proof fn lemma_evict_wf(m: Seq<EntryModel>, now: u64)
    ensures
        table_wf(m) ==> table_wf(evict_model(m, now)),
        forall|k: int|
            0 <= k < evict_model(m, now).len() ==> exists|i: int|
                0 <= i < m.len() && #[trigger] evict_model(m, now)[k] == m[i],
        forall|k: int|
            0 <= k < evict_model(m, now).len() ==> fresh_at(
                #[trigger] evict_model(m, now)[k],
                now,
            ),
        forall|i: int|
            0 <= i < m.len() && fresh_at(#[trigger] m[i], now) ==> exists|k: int|
                0 <= k < evict_model(m, now).len() && evict_model(m, now)[k] == m[i],
    decreases m.len(),
{
    let ev = evict_model(m, now);
    if m.len() == 0 {
    } else {
        let rest = m.drop_first();
        lemma_evict_wf(rest, now);
        let evr = evict_model(rest, now);
        assert forall|i: int| 0 <= i < rest.len() implies rest[i] == m[i + 1] by {}
        if table_wf(m) {
            assert(table_wf(rest)) by {
                assert forall|i: int, j: int| 0 <= i < j < rest.len() implies rest[i].frame_id
                    != rest[j].frame_id by {
                    assert(rest[i] == m[i + 1] && rest[j] == m[j + 1]);
                }
                assert forall|i: int| 0 <= i < rest.len() implies 1 <= (
                #[trigger] rest[i]).slots.len() <= u32::MAX by {
                    assert(rest[i] == m[i + 1]);
                }
            }
        }
        if fresh_at(m[0], now) {
            assert(ev == seq![m[0]] + evr);
            assert(ev[0] == m[0]);
            assert forall|k: int| 1 <= k < ev.len() implies ev[k] == evr[k - 1] by {}
            if table_wf(m) {
                assert(table_wf(ev)) by {
                    assert forall|i: int, j: int| 0 <= i < j < ev.len() implies ev[i].frame_id
                        != ev[j].frame_id by {
                        if i == 0 {
                            let w = choose|w: int|
                                0 <= w < rest.len() && evr[j - 1] == rest[w];
                            assert(0 <= w < rest.len() && ev[j] == rest[w]);
                            assert(rest[w] == m[w + 1]);
                            assert(m[0].frame_id != m[w + 1].frame_id);
                        } else {
                            assert(ev[i] == evr[i - 1] && ev[j] == evr[j - 1]);
                            assert(table_wf(evr));
                        }
                    }
                    assert forall|i: int| 0 <= i < ev.len() implies 1 <= (
                    #[trigger] ev[i]).slots.len() <= u32::MAX by {
                        if i == 0 {
                            assert(ev[0] == m[0]);
                        } else {
                            assert(ev[i] == evr[i - 1]);
                            assert(table_wf(evr));
                        }
                    }
                }
            }
            assert forall|k: int| 0 <= k < ev.len() implies exists|i: int|
                0 <= i < m.len() && #[trigger] ev[k] == m[i] by {
                if k == 0 {
                    assert(ev[0] == m[0]);
                } else {
                    let w = choose|w: int| 0 <= w < rest.len() && evr[k - 1] == rest[w];
                    assert(ev[k] == rest[w] && rest[w] == m[w + 1]);
                }
            }
            assert forall|i: int| 0 <= i < m.len() && fresh_at(#[trigger] m[i], now) implies
                exists|k: int| 0 <= k < ev.len() && ev[k] == m[i] by {
                if i == 0 {
                    assert(ev[0] == m[0]);
                } else {
                    assert(rest[i - 1] == m[i] && fresh_at(rest[i - 1], now));
                    let w = choose|w: int| 0 <= w < evr.len() && evr[w] == rest[i - 1];
                    assert(ev[w + 1] == evr[w]);
                }
            }
        } else {
            assert(ev == evr);
            assert forall|k: int| 0 <= k < ev.len() implies exists|i: int|
                0 <= i < m.len() && #[trigger] ev[k] == m[i] by {
                let w = choose|w: int| 0 <= w < rest.len() && evr[k] == rest[w];
                assert(ev[k] == rest[w] && rest[w] == m[w + 1]);
            }
            assert forall|i: int| 0 <= i < m.len() && fresh_at(#[trigger] m[i], now) implies
                exists|k: int| 0 <= k < ev.len() && ev[k] == m[i] by {
                assert(i != 0);
                assert(rest[i - 1] == m[i] && fresh_at(rest[i - 1], now));
                let w = choose|w: int| 0 <= w < evr.len() && evr[w] == rest[i - 1];
                assert(ev[w] == evr[w]);
            }
        }
    }
}

/// A table whose entries are all fresh is untouched by eviction.
pub proof fn lemma_evict_all_fresh(m: Seq<EntryModel>, now: u64)
    requires
        forall|k: int| 0 <= k < m.len() ==> fresh_at(#[trigger] m[k], now),
    ensures
        evict_model(m, now) == m,
    decreases m.len(),
{
    if m.len() == 0 {
    } else {
        let rest = m.drop_first();
        assert forall|k: int| 0 <= k < rest.len() implies fresh_at(#[trigger] rest[k], now) by {
            assert(rest[k] == m[k + 1]);
        }
        lemma_evict_all_fresh(rest, now);
        assert(seq![m[0]] + rest =~= m);
    }
}

/// Under a well-formed table the entry index for an identifier is unique.
pub proof fn lemma_index_unique(m: Seq<EntryModel>, id: u32, i: int)
    requires
        table_wf(m),
        0 <= i < m.len(),
        m[i].frame_id == id,
    ensures
        has_id(m, id),
        index_of_id(m, id) == i,
{
    assert(has_id(m, id));
    let j = index_of_id(m, id);
    assert(0 <= j < m.len() && m[j].frame_id == id);
    if j != i {
        if i < j {
            assert(m[i].frame_id != m[j].frame_id);
        } else {
            assert(m[j].frame_id != m[i].frame_id);
        }
    }
}

/// Placing two chunks with distinct indices commutes: the slot contents a
/// frame ends with, and hence its reconstructed payload, do not depend on
/// the order in which its chunks arrive.
pub proof fn lemma_chunk_order_irrelevant(
    slots: Seq<Seq<u8>>,
    i: int,
    j: int,
    p: Seq<u8>,
    q: Seq<u8>,
)
    requires
        0 <= i < slots.len(),
        0 <= j < slots.len(),
        i != j,
    ensures
        slots.update(i, p).update(j, q) == slots.update(j, q).update(i, p),
{
    assert(slots.update(i, p).update(j, q) =~= slots.update(j, q).update(i, p));
}

/// One receive event keeps the in-flight table well-formed.
#[verifier::rlimit(100)]
#[verifier::spinoff_prover]
pub proof fn lemma_step_wf(m: Seq<EntryModel>, d: Seq<u8>, now: u64)
    requires
        table_wf(m),
    ensures
        table_wf(step_of(m, d, now).0),
{
    if d.len() < HEADER_LEN {
    } else {
        let h = header_of(d);
        let m1 = evict_model(m, now);
        lemma_evict_wf(m, now);
        if has_id(m1, h.frame_id) {
            let j = index_of_id(m1, h.frame_id);
            let e = m1[j];
            if (h.chunk_index as int) < e.slots.len() {
                let e2 = EntryModel {
                    frame_id: e.frame_id,
                    slots: e.slots.update(h.chunk_index as int, payload_of(d)),
                    last_update_ms: now,
                };
                let mu = m1.update(j, e2);
                assert(table_wf(mu)) by {
                    assert forall|a: int, b: int| 0 <= a < b < mu.len() implies mu[a].frame_id
                        != mu[b].frame_id by {
                        assert(mu[a].frame_id == m1[a].frame_id && mu[b].frame_id
                            == m1[b].frame_id);
                    }
                    assert forall|a: int| 0 <= a < mu.len() implies 1 <= (
                    #[trigger] mu[a]).slots.len() <= u32::MAX by {
                        assert(m1[a].slots.len() >= 1);
                    }
                }
                if entry_terminal(e2) {
                    let mr = mu.remove(j);
                    assert(table_wf(mr)) by {
                        assert forall|a: int, b: int| 0 <= a < b < mr.len() implies mr[a].frame_id
                            != mr[b].frame_id by {}
                        assert forall|a: int| 0 <= a < mr.len() implies 1 <= (
                        #[trigger] mr[a]).slots.len() <= u32::MAX by {}
                    }
                }
            }
        } else {
            if h.chunk_index < h.total_chunks {
                let e2 = EntryModel {
                    frame_id: h.frame_id,
                    slots: empty_slots(h.total_chunks as nat).update(
                        h.chunk_index as int,
                        payload_of(d),
                    ),
                    last_update_ms: now,
                };
                let mp = m1.push(e2);
                assert(table_wf(mp)) by {
                    assert forall|a: int, b: int| 0 <= a < b < mp.len() implies mp[a].frame_id
                        != mp[b].frame_id by {
                        if b == m1.len() {
                            assert(mp[a] == m1[a]);
                        }
                    }
                    assert forall|a: int| 0 <= a < mp.len() implies 1 <= (
                    #[trigger] mp[a]).slots.len() <= u32::MAX by {
                        if a < m1.len() {
                            assert(mp[a] == m1[a]);
                        }
                    }
                }
                if entry_terminal(e2) {
                    assert(mp.remove(m1.len() as int) =~= m1);
                }
            }
        }
    }
}

/// Partial-frame eviction: an in-flight frame whose latest chunk is older
/// than the timeout window when the next datagram for some other frame is
/// processed is removed from the table (and so can never be emitted
/// afterwards).
#[verifier::rlimit(100)]
#[verifier::spinoff_prover]
pub proof fn lemma_stale_frame_evicted(m: Seq<EntryModel>, d: Seq<u8>, now: u64, id: u32)
    requires
        table_wf(m),
        has_id(m, id),
        !fresh_at(m[index_of_id(m, id)], now),
        d.len() >= HEADER_LEN,
        header_of(d).frame_id != id,
    ensures
        !has_id(step_of(m, d, now).0, id),
{
    let h = header_of(d);
    let m1 = evict_model(m, now);
    lemma_evict_wf(m, now);
    let j0 = index_of_id(m, id);
    assert(0 <= j0 < m.len() && m[j0].frame_id == id);
    assert(!has_id(m1, id)) by {
        if has_id(m1, id) {
            let k = choose|k: int| 0 <= k < m1.len() && m1[k].frame_id == id;
            let i = choose|i: int| 0 <= i < m.len() && m1[k] == m[i];
            assert(m[i].frame_id == id);
            lemma_index_unique(m, id, i);
            assert(i == j0);
            assert(fresh_at(m1[k], now));
        }
    }
    if has_id(m1, h.frame_id) {
        let j = index_of_id(m1, h.frame_id);
        let e = m1[j];
        if (h.chunk_index as int) < e.slots.len() {
            let e2 = EntryModel {
                frame_id: e.frame_id,
                slots: e.slots.update(h.chunk_index as int, payload_of(d)),
                last_update_ms: now,
            };
            let mu = m1.update(j, e2);
            assert(!has_id(mu, id)) by {
                if has_id(mu, id) {
                    let k = choose|k: int| 0 <= k < mu.len() && mu[k].frame_id == id;
                    assert(mu[k].frame_id == m1[k].frame_id);
                    assert(has_id(m1, id));
                }
            }
            if entry_terminal(e2) {
                let mr = mu.remove(j);
                assert(!has_id(mr, id)) by {
                    if has_id(mr, id) {
                        let k = choose|k: int| 0 <= k < mr.len() && mr[k].frame_id == id;
                        if k < j {
                            assert(mr[k] == mu[k]);
                        } else {
                            assert(mr[k] == mu[k + 1]);
                        }
                        assert(has_id(mu, id));
                    }
                }
            }
        }
    } else {
        if h.chunk_index < h.total_chunks {
            let e2 = EntryModel {
                frame_id: h.frame_id,
                slots: empty_slots(h.total_chunks as nat).update(
                    h.chunk_index as int,
                    payload_of(d),
                ),
                last_update_ms: now,
            };
            let mp = m1.push(e2);
            assert(!has_id(mp, id)) by {
                if has_id(mp, id) {
                    let k = choose|k: int| 0 <= k < mp.len() && mp[k].frame_id == id;
                    if k < m1.len() {
                        assert(mp[k] == m1[k]);
                        assert(has_id(m1, id));
                    } else {
                        assert(mp[k] == e2);
                    }
                }
            }
            if entry_terminal(e2) {
                assert(mp.remove(m1.len() as int) =~= m1);
            }
        }
    }
}

/// Reassembly idempotence: delivering the same chunk twice (same frame
/// identifier, chunk index and payload, within the timeout window) leaves
/// the in-flight table -- and hence the frame eventually reconstructed
/// from it -- exactly as delivering it once, and emits nothing the second
/// time.  The premise that the frame is still in flight after the first
/// delivery excludes a chunk that finishes its frame: a finished frame
/// leaves the table, so its duplicate would start a new entry.
#[verifier::rlimit(100)]
#[verifier::spinoff_prover]
pub proof fn lemma_duplicate_chunk_idempotent(m: Seq<EntryModel>, d: Seq<u8>, now: u64)
    requires
        table_wf(m),
        d.len() >= HEADER_LEN,
        step_of(m, d, now).1 is None,
        has_id(step_of(m, d, now).0, header_of(d).frame_id),
    ensures
        step_of(step_of(m, d, now).0, d, now) == (step_of(m, d, now).0, None::<Seq<u8>>),
{
    let h = header_of(d);
    let p = payload_of(d);
    let m1 = evict_model(m, now);
    let s1 = step_of(m, d, now).0;
    lemma_evict_wf(m, now);
    lemma_step_wf(m, d, now);
    if has_id(m1, h.frame_id) {
        let j = index_of_id(m1, h.frame_id);
        let e = m1[j];
        if (h.chunk_index as int) < e.slots.len() {
            let e2 = EntryModel {
                frame_id: e.frame_id,
                slots: e.slots.update(h.chunk_index as int, p),
                last_update_ms: now,
            };
            let mu = m1.update(j, e2);
            if entry_terminal(e2) {
                let mr = mu.remove(j);
                assert(!has_id(mr, h.frame_id)) by {
                    if has_id(mr, h.frame_id) {
                        let k = choose|k: int| 0 <= k < mr.len() && mr[k].frame_id == h.frame_id;
                        if k < j {
                            assert(mr[k] == mu[k] && mu[k] == m1[k]);
                            lemma_index_unique(m1, h.frame_id, k);
                        } else {
                            assert(mr[k] == mu[k + 1] && mu[k + 1] == m1[k + 1]);
                            lemma_index_unique(m1, h.frame_id, k + 1);
                        }
                    }
                }
                assert(false);
            }
            assert(s1 == mu);
            assert forall|k: int| 0 <= k < s1.len() implies fresh_at(#[trigger] s1[k], now) by {
                if k != j {
                    assert(s1[k] == m1[k]);
                }
            }
            lemma_evict_all_fresh(s1, now);
            assert(s1[j] == e2 && e2.frame_id == h.frame_id);
            lemma_index_unique(s1, h.frame_id, j);
            let e3 = EntryModel {
                frame_id: e2.frame_id,
                slots: e2.slots.update(h.chunk_index as int, p),
                last_update_ms: now,
            };
            assert(e3.slots =~= e2.slots);
            assert(e3 == e2);
            assert(s1.update(j, e3) =~= s1);
            assert(step_of(s1, d, now) == settle(s1, j, e2));
            assert(!entry_terminal(e2));
        } else {
            assert(s1 == m1);
            assert forall|k: int| 0 <= k < s1.len() implies fresh_at(#[trigger] s1[k], now) by {}
            lemma_evict_all_fresh(s1, now);
            lemma_index_unique(m1, h.frame_id, j);
            assert(step_of(s1, d, now) == (m1, None::<Seq<u8>>));
        }
    } else {
        if h.chunk_index < h.total_chunks {
            let e2 = EntryModel {
                frame_id: h.frame_id,
                slots: empty_slots(h.total_chunks as nat).update(h.chunk_index as int, p),
                last_update_ms: now,
            };
            let mp = m1.push(e2);
            if entry_terminal(e2) {
                assert(mp.remove(m1.len() as int) =~= m1);
                assert(s1 == m1);
                assert(false);
            }
            assert(s1 == mp);
            assert forall|k: int| 0 <= k < s1.len() implies fresh_at(#[trigger] s1[k], now) by {
                if k < m1.len() {
                    assert(s1[k] == m1[k]);
                }
            }
            lemma_evict_all_fresh(s1, now);
            assert(s1[m1.len() as int] == e2);
            lemma_index_unique(s1, h.frame_id, m1.len() as int);
            let e3 = EntryModel {
                frame_id: e2.frame_id,
                slots: e2.slots.update(h.chunk_index as int, p),
                last_update_ms: now,
            };
            assert(e3.slots =~= e2.slots);
            assert(e3 == e2);
            assert(s1.update(m1.len() as int, e3) =~= s1);
            assert(step_of(s1, d, now) == settle(s1, m1.len() as int, e2));
        } else {
            assert(s1 == m1);
            assert(false);
        }
    }
}

/// After a step that leaves the frame in flight, every entry is fresh at
/// the same instant, the table is well-formed, the frame's entry sits at
/// a known index, and the step placed no emission.
#[verifier::rlimit(100)]
#[verifier::spinoff_prover]
proof fn lemma_step_kept_entry(m: Seq<EntryModel>, d: Seq<u8>, now: u64)
    requires
        table_wf(m),
        d.len() >= HEADER_LEN,
        step_of(m, d, now).1 is None,
        has_id(step_of(m, d, now).0, header_of(d).frame_id),
    ensures
        table_wf(step_of(m, d, now).0),
        evict_model(step_of(m, d, now).0, now) == step_of(m, d, now).0,
    decreases 0int,
{
    let s1 = step_of(m, d, now).0;
    let h = header_of(d);
    let p = payload_of(d);
    let m1 = evict_model(m, now);
    lemma_evict_wf(m, now);
    lemma_step_wf(m, d, now);
    if has_id(m1, h.frame_id) {
        let j = index_of_id(m1, h.frame_id);
        let e = m1[j];
        if (h.chunk_index as int) < e.slots.len() {
            let e2 = EntryModel {
                frame_id: e.frame_id,
                slots: e.slots.update(h.chunk_index as int, p),
                last_update_ms: now,
            };
            let mu = m1.update(j, e2);
            if entry_terminal(e2) {
                let mr = mu.remove(j);
                assert(!has_id(mr, h.frame_id)) by {
                    if has_id(mr, h.frame_id) {
                        let k = choose|k: int| 0 <= k < mr.len() && mr[k].frame_id == h.frame_id;
                        if k < j {
                            assert(mr[k] == mu[k] && mu[k] == m1[k]);
                            lemma_index_unique(m1, h.frame_id, k);
                        } else {
                            assert(mr[k] == mu[k + 1] && mu[k + 1] == m1[k + 1]);
                            lemma_index_unique(m1, h.frame_id, k + 1);
                        }
                    }
                }
                assert(false);
            }
            assert(s1 == mu);
            assert forall|k: int| 0 <= k < s1.len() implies fresh_at(#[trigger] s1[k], now) by {
                if k != j {
                    assert(s1[k] == m1[k]);
                }
            }
            lemma_evict_all_fresh(s1, now);
        } else {
            assert(s1 == m1);
            assert forall|k: int| 0 <= k < s1.len() implies fresh_at(#[trigger] s1[k], now) by {}
            lemma_evict_all_fresh(s1, now);
        }
    } else {
        if h.chunk_index < h.total_chunks {
            let e2 = EntryModel {
                frame_id: h.frame_id,
                slots: empty_slots(h.total_chunks as nat).update(h.chunk_index as int, p),
                last_update_ms: now,
            };
            let mp = m1.push(e2);
            if entry_terminal(e2) {
                assert(mp.remove(m1.len() as int) =~= m1);
                assert(s1 == m1);
                assert(false);
            }
            assert(s1 == mp);
            assert forall|k: int| 0 <= k < s1.len() implies fresh_at(#[trigger] s1[k], now) by {
                if k < m1.len() {
                    assert(s1[k] == m1[k]);
                }
            }
            lemma_evict_all_fresh(s1, now);
        } else {
            assert(s1 == m1);
            assert(false);
        }
    }
}

/// Out-of-order delivery: two chunks of one frame with distinct indices
/// may arrive in either order; as long as neither order finishes the
/// frame, the in-flight table ends up identical, so the payload the frame
/// eventually reconstructs is the same.  Together with
/// [`lemma_duplicate_chunk_idempotent`] and [`lemma_chunk_order_irrelevant`]
/// this pins reassembly down to the set of chunks delivered, independent
/// of arrival order.
#[verifier::rlimit(100)]
#[verifier::spinoff_prover]
pub proof fn lemma_chunk_exchange(m: Seq<EntryModel>, da: Seq<u8>, db: Seq<u8>, now: u64)
    requires
        table_wf(m),
        da.len() >= HEADER_LEN,
        db.len() >= HEADER_LEN,
        header_of(da).frame_id == header_of(db).frame_id,
        header_of(da).total_chunks == header_of(db).total_chunks,
        header_of(da).chunk_index != header_of(db).chunk_index,
        step_of(m, da, now).1 is None,
        has_id(step_of(m, da, now).0, header_of(da).frame_id),
        step_of(m, db, now).1 is None,
        has_id(step_of(m, db, now).0, header_of(db).frame_id),
        step_of(step_of(m, da, now).0, db, now).1 is None,
        has_id(step_of(step_of(m, da, now).0, db, now).0, header_of(da).frame_id),
    ensures
        step_of(step_of(m, da, now).0, db, now).0 == step_of(step_of(m, db, now).0, da, now).0,
        step_of(step_of(m, db, now).0, da, now).1 is None,
{
    let ha = header_of(da);
    let hb = header_of(db);
    let pa = payload_of(da);
    let pb = payload_of(db);
    let id = ha.frame_id;
    let m1 = evict_model(m, now);
    lemma_evict_wf(m, now);
    let sa = step_of(m, da, now).0;
    let sb = step_of(m, db, now).0;
    lemma_step_kept_entry(m, da, now);
    lemma_step_kept_entry(m, db, now);
    lemma_step_kept_entry(sa, db, now);
    let sab = step_of(sa, db, now).0;
    let sba = step_of(sb, da, now).0;
    if has_id(m1, id) {
        let j = index_of_id(m1, id);
        let e = m1[j];
        if (ha.chunk_index as int) < e.slots.len() {
            let ea = EntryModel {
                frame_id: e.frame_id,
                slots: e.slots.update(ha.chunk_index as int, pa),
                last_update_ms: now,
            };
            assert(!entry_terminal(ea) && sa == m1.update(j, ea)) by {
                if entry_terminal(ea) {
                    let mr = m1.update(j, ea).remove(j);
                    assert(!has_id(mr, id)) by {
                        if has_id(mr, id) {
                            let k = choose|k: int| 0 <= k < mr.len() && mr[k].frame_id == id;
                            if k < j {
                                lemma_index_unique(m1, id, k);
                            } else {
                                lemma_index_unique(m1, id, k + 1);
                            }
                        }
                    }
                }
            }
            assert(sa[j] == ea);
            lemma_index_unique(sa, id, j);
            if (hb.chunk_index as int) < e.slots.len() {
                let eb = EntryModel {
                    frame_id: e.frame_id,
                    slots: e.slots.update(hb.chunk_index as int, pb),
                    last_update_ms: now,
                };
                assert(!entry_terminal(eb) && sb == m1.update(j, eb)) by {
                    if entry_terminal(eb) {
                        let mr = m1.update(j, eb).remove(j);
                        assert(!has_id(mr, id)) by {
                            if has_id(mr, id) {
                                let k = choose|k: int| 0 <= k < mr.len() && mr[k].frame_id == id;
                                if k < j {
                                    lemma_index_unique(m1, id, k);
                                } else {
                                    lemma_index_unique(m1, id, k + 1);
                                }
                            }
                        }
                    }
                }
                assert(sb[j] == eb);
                lemma_index_unique(sb, id, j);
                let eab = EntryModel {
                    frame_id: ea.frame_id,
                    slots: ea.slots.update(hb.chunk_index as int, pb),
                    last_update_ms: now,
                };
                let eba = EntryModel {
                    frame_id: eb.frame_id,
                    slots: eb.slots.update(ha.chunk_index as int, pa),
                    last_update_ms: now,
                };
                assert(eab.slots =~= eba.slots);
                assert(eab == eba);
                assert(!entry_terminal(eab) && sab == sa.update(j, eab)) by {
                    if entry_terminal(eab) {
                        let mr = sa.update(j, eab).remove(j);
                        assert(!has_id(mr, id)) by {
                            if has_id(mr, id) {
                                let k = choose|k: int| 0 <= k < mr.len() && mr[k].frame_id == id;
                                if k < j {
                                    lemma_index_unique(sa, id, k);
                                } else {
                                    lemma_index_unique(sa, id, k + 1);
                                }
                            }
                        }
                    }
                }
                assert(sba == sb.update(j, eba));
                assert(sab =~= m1.update(j, eab));
                assert(sba =~= m1.update(j, eba));
            } else {
                assert(sb == m1);
                assert(sab == sa.update(j, EntryModel {
                    frame_id: ea.frame_id,
                    slots: ea.slots.update(hb.chunk_index as int, pb),
                    last_update_ms: now,
                }) || sab == sa);
                assert((hb.chunk_index as int) >= ea.slots.len());
                assert(sab == sa);
                lemma_index_unique(m1, id, j);
                assert(sba == sa);
            }
        } else {
            assert(sa == m1);
            if (hb.chunk_index as int) < e.slots.len() {
                let eb = EntryModel {
                    frame_id: e.frame_id,
                    slots: e.slots.update(hb.chunk_index as int, pb),
                    last_update_ms: now,
                };
                assert(!entry_terminal(eb) && sb == m1.update(j, eb)) by {
                    if entry_terminal(eb) {
                        let mr = m1.update(j, eb).remove(j);
                        assert(!has_id(mr, id)) by {
                            if has_id(mr, id) {
                                let k = choose|k: int| 0 <= k < mr.len() && mr[k].frame_id == id;
                                if k < j {
                                    lemma_index_unique(m1, id, k);
                                } else {
                                    lemma_index_unique(m1, id, k + 1);
                                }
                            }
                        }
                    }
                }
                assert(sab == sb);
                assert(sb[j] == eb);
                lemma_index_unique(sb, id, j);
                assert((ha.chunk_index as int) >= eb.slots.len());
                assert(sba == sb);
            } else {
                assert(sb == m1 && sab == m1 && sba == m1);
            }
        }
    } else {
        let total = ha.total_chunks;
        assert(ha.chunk_index < total) by {
            if ha.chunk_index >= total {
                assert(step_of(m, da, now).0 == m1);
            }
        }
        assert(hb.chunk_index < total) by {
            if hb.chunk_index >= total {
                assert(step_of(m, db, now).0 == m1);
            }
        }
        let ea = EntryModel {
            frame_id: id,
            slots: empty_slots(total as nat).update(ha.chunk_index as int, pa),
            last_update_ms: now,
        };
        let eb = EntryModel {
            frame_id: id,
            slots: empty_slots(total as nat).update(hb.chunk_index as int, pb),
            last_update_ms: now,
        };
        assert(!entry_terminal(ea) && sa == m1.push(ea)) by {
            if entry_terminal(ea) {
                assert(m1.push(ea).remove(m1.len() as int) =~= m1);
            }
        }
        assert(!entry_terminal(eb) && sb == m1.push(eb)) by {
            if entry_terminal(eb) {
                assert(m1.push(eb).remove(m1.len() as int) =~= m1);
            }
        }
        let j = m1.len() as int;
        assert(sa[j] == ea && sb[j] == eb);
        lemma_index_unique(sa, id, j);
        lemma_index_unique(sb, id, j);
        let eab = EntryModel {
            frame_id: id,
            slots: ea.slots.update(hb.chunk_index as int, pb),
            last_update_ms: now,
        };
        let eba = EntryModel {
            frame_id: id,
            slots: eb.slots.update(ha.chunk_index as int, pa),
            last_update_ms: now,
        };
        assert(eab.slots =~= eba.slots);
        assert(eab == eba);
        assert(!entry_terminal(eab) && sab == sa.update(j, eab)) by {
            if entry_terminal(eab) {
                let mr = sa.update(j, eab).remove(j);
                assert(!has_id(mr, id)) by {
                    if has_id(mr, id) {
                        let k = choose|k: int| 0 <= k < mr.len() && mr[k].frame_id == id;
                        if k < j {
                            lemma_index_unique(sa, id, k);
                        } else {
                            lemma_index_unique(sa, id, k + 1);
                        }
                    }
                }
            }
        }
        assert(sba == sb.update(j, eba));
        assert(sab =~= sba);
    }
}

proof fn lemma_concat_all_back(s: Seq<Seq<u8>>)
    requires
        s.len() > 0,
    ensures
        concat_all(s) == concat_all(s.drop_last()) + s.last(),
    decreases s.len(),
{
    if s.len() == 1 {
        assert(s.drop_first().len() == 0);
        assert(concat_all(s.drop_first()) =~= Seq::<u8>::empty());
        assert(concat_all(s) =~= s[0]);
        assert(s.drop_last().len() == 0);
        assert(concat_all(s.drop_last()) =~= Seq::<u8>::empty());
        assert(concat_all(s.drop_last()) + s.last() =~= s[0]);
    } else {
        let t = s.drop_first();
        lemma_concat_all_back(t);
        assert(t.drop_last() =~= s.drop_last().drop_first());
        assert(t.last() == s.last());
        assert(s.drop_last()[0] == s[0]);
        assert(concat_all(s.drop_last()) == s[0] + concat_all(s.drop_last().drop_first()));
        assert(s[0] + (concat_all(t.drop_last()) + t.last()) =~= (s[0] + concat_all(
            t.drop_last(),
        )) + t.last());
    }
}

/// Reassembly concatenates exactly what chunking produced: on a fully
/// delivered frame the skip-missing assembly equals the plain
/// concatenation of the slots (an absent chunk is an empty slot and an
/// empty slot contributes nothing either way).
pub proof fn lemma_assembled_is_concat(s: Seq<Seq<u8>>)
    ensures
        assembled(s) == concat_all(s),
    decreases s.len(),
{
    if s.len() == 0 {
        assert(assembled(s) =~= concat_all(s));
    } else {
        lemma_assembled_is_concat(s.drop_last());
        lemma_concat_all_back(s);
        if s.last().len() > 0 {
        } else {
            assert(assembled(s) =~= assembled(s.drop_last()));
            assert(concat_all(s.drop_last()) + s.last() =~= concat_all(s.drop_last()));
        }
    }
}

/// End to end: splitting a payload into chunks and letting the receiver
/// assemble every one of them in index order reproduces the payload
/// byte for byte, for every payload length and every positive chunk
/// size.
pub proof fn lemma_reassembly_inverts_chunking(data: Seq<u8>, c: int)
    requires
        c >= 1,
    ensures
        assembled(chunks_of(data, c)) == data,
{
    lemma_assembled_is_concat(chunks_of(data, c));
    lemma_chunking_round_trip(data, c);
}

} // verus!
