//! Transport-sender logic: turns an encoded frame payload into the full
//! list of datagrams to transmit, and drives the per-cycle decisions of
//! the streaming loop (skip degenerate payloads, recompress oversized
//! ones, stop after too many consecutive capture failures).
//!
//! The caller performs the actual socket sends and capture calls; every
//! decision between them is made here.

use vstd::prelude::*;
use crate::wire::CHUNK_SIZE;
use crate::wire::chunk_at;
use crate::wire::chunk_count;
use crate::wire::chunks_of;
use crate::wire::packet_bytes;
use crate::wire::build_packet;
use crate::wire::split_into_chunks;
use crate::codec::recompress_of;
use crate::codec::recompress_jpeg;

verus! {

/// Consecutive capture failures after which the streaming loop halts.
pub const MAX_CONSECUTIVE_FAILURES: u32 = 10;

/// Payloads shorter than this are degenerate (black screens, torn
/// captures) and are skipped rather than sent.
pub const MIN_PAYLOAD_LEN: usize = 100;

/// Payloads longer than this are recompressed before transmission.
pub const RECOMPRESS_THRESHOLD: usize = 500000;

/// JPEG quality used when recompressing an oversized payload.
pub const RECOMPRESS_QUALITY: u8 = 60;

/// Longest payload the chunked wire format accepts; keeps the chunk count
/// within the 32-bit header field with room to spare.
pub const MAX_PAYLOAD_LEN: usize = 0xFFFF_FFFF;

/// The datagrams transmitted for one frame: every chunk in index order
/// and, when there are more than two chunks, the first and last chunks a
/// second time (their header and terminator bytes are disproportionately
/// valuable for salvage at the receiver).
pub open spec fn packet_plan(frame_id: u32, payload: Seq<u8>) -> Seq<Seq<u8>>
    recommends
        chunk_count(payload.len() as int, CHUNK_SIZE as int) <= u32::MAX,
{
    let n = chunk_count(payload.len() as int, CHUNK_SIZE as int);
    let base = Seq::new(
        n as nat,
        |i: int| packet_bytes(frame_id, i as u32, n as u32, chunk_at(payload, CHUNK_SIZE as int, i)),
    );
    if n > 2 {
        base + seq![base[0], base[n - 1]]
    } else {
        base
    }
}

/// Builds every datagram to transmit for one frame payload.
pub fn frame_packets(frame_id: u32, payload: &[u8]) -> (packets: Vec<Vec<u8>>)
    requires
        payload@.len() <= MAX_PAYLOAD_LEN,
    ensures
        packets@.map_values(|v: Vec<u8>| v@) == packet_plan(frame_id, payload@),
{
    let chunks = split_into_chunks(payload);
    let total = chunks.len();
    proof {
        let c = CHUNK_SIZE as int;
        assert(0 <= chunk_count(payload@.len() as int, c) <= 0xFFFF_FFFF) by (nonlinear_arith)
            requires
                payload@.len() <= 0xFFFF_FFFF && c == 8192,
        ;
        assert(chunks_of(payload@, c).len() == chunk_count(payload@.len() as int, c));
        assert forall|j: int| 0 <= j < chunks@.len() implies chunks@[j]@ == chunk_at(
            payload@,
            c,
            j,
        ) by {
            assert(chunks@.map_values(|v: Vec<u8>| v@)[j] == chunks@[j]@);
            assert(chunks_of(payload@, c)[j] == chunk_at(payload@, c, j));
        }
    }
    let mut packets: Vec<Vec<u8>> = Vec::new();
    let mut i: usize = 0;
    while i < total
        invariant
            total == chunks@.len(),
            total <= u32::MAX,
            total == chunk_count(payload@.len() as int, CHUNK_SIZE as int),
            forall|j: int|
                0 <= j < total ==> chunks@[j]@ == chunk_at(payload@, CHUNK_SIZE as int, j),
            0 <= i <= total,
            packets@.len() == i,
            forall|j: int|
                0 <= j < i ==> packets@[j]@ == packet_bytes(
                    frame_id,
                    j as u32,
                    total as u32,
                    chunk_at(payload@, CHUNK_SIZE as int, j),
                ),
        decreases total - i,
    {
        let p = build_packet(frame_id, i as u32, total as u32, chunks[i].as_slice());
        packets.push(p);
        i = i + 1;
    }
    if total > 2 {
        let first = build_packet(frame_id, 0, total as u32, chunks[0].as_slice());
        let last = build_packet(
            frame_id,
            (total - 1) as u32,
            total as u32,
            chunks[total - 1].as_slice(),
        );
        packets.push(first);
        packets.push(last);
    }
    proof {
        assert(packets@.map_values(|v: Vec<u8>| v@) =~~= packet_plan(frame_id, payload@));
    }
    packets
}

/// What one call into the capture/encode stage produced.
pub enum CaptureEvent {
    /// A fresh encoded frame payload.
    Frame(Vec<u8>),
    /// No new frame is ready yet; not an error.
    NotReady,
    /// The capture or encode stage failed.
    Failed,
}

/// What the streaming loop must do next.
pub enum SendAction {
    /// Transmit each datagram, in order, to the multicast group.
    Transmit(Vec<Vec<u8>>),
    /// Do nothing this cycle.
    Skip,
    /// The stream has stopped; leave the loop.
    Stop,
}

/// Decision state of the streaming loop.
///
/// Frame-identifier policy: the identifier advances exactly when a
/// transmission is initiated (a [`SendAction::Transmit`] is handed out),
/// wrapping on overflow; skipped cycles and failures do not consume an
/// identifier, so receivers may treat identifier gaps as loss.
pub struct StreamSender {
    /// Identifier the next transmitted frame will carry.
    pub frame_id: u32,
    /// Consecutive capture failures seen; `NotReady` neither advances nor
    /// resets this count.
    pub consecutive_failures: u32,
    /// Whether the streaming loop should keep running.
    pub running: bool,
}

impl StreamSender {
    /// The failure count never passes the stop threshold, and the loop
    /// only keeps running strictly below it.
    pub open spec fn wf(self) -> bool {
        &&& self.consecutive_failures <= MAX_CONSECUTIVE_FAILURES
        &&& self.running ==> self.consecutive_failures < MAX_CONSECUTIVE_FAILURES
    }

    pub fn new() -> (s: Self)
        ensures
            s.wf(),
            s.frame_id == 0,
            s.consecutive_failures == 0,
            s.running,
    {
        StreamSender { frame_id: 0, consecutive_failures: 0, running: true }
    }

    /// Requests that the streaming loop stop at its next cycle.
    pub fn stop(&mut self)
        ensures
            *final(self) == (StreamSender { running: false, ..*old(self) }),
            old(self).wf() ==> final(self).wf(),
    {
        self.running = false;
    }

    /// Decides what the streaming loop does with one capture outcome.
    ///
    /// A payload under [`MIN_PAYLOAD_LEN`] bytes or over
    /// [`MAX_PAYLOAD_LEN`] bytes is skipped.  A payload over
    /// [`RECOMPRESS_THRESHOLD`] bytes is recompressed first and skipped if
    /// recompression fails.  The [`MAX_CONSECUTIVE_FAILURES`]-th
    /// consecutive failure stops the loop; `NotReady` leaves the failure
    /// count untouched.
    pub fn on_capture_event(&mut self, event: CaptureEvent) -> (action: SendAction)
        requires
            old(self).wf(),
        ensures
            final(self).wf(),
            !old(self).running ==> action is Stop && *final(self) == *old(self),
            old(self).running && event is NotReady ==> action is Skip && *final(self) == *old(
                self,
            ),
            old(self).running && event is Failed ==> {
                &&& final(self).frame_id == old(self).frame_id
                &&& final(self).consecutive_failures == old(self).consecutive_failures + 1
                &&& if old(self).consecutive_failures + 1 >= MAX_CONSECUTIVE_FAILURES {
                    action is Stop && !final(self).running
                } else {
                    action is Skip && final(self).running
                }
            },
            event matches CaptureEvent::Frame(data) ==> old(self).running ==> {
                &&& final(self).running
                &&& final(self).consecutive_failures == 0
                &&& data@.len() < MIN_PAYLOAD_LEN || data@.len() > MAX_PAYLOAD_LEN ==> action
                    is Skip && final(self).frame_id == old(self).frame_id
                &&& MIN_PAYLOAD_LEN <= data@.len() <= RECOMPRESS_THRESHOLD ==> (action matches
                SendAction::Transmit(packets) && packets@.map_values(|v: Vec<u8>| v@)
                    == packet_plan(old(self).frame_id, data@) && final(self).frame_id == old(
                    self,
                ).frame_id.wrapping_add(1))
                &&& RECOMPRESS_THRESHOLD < data@.len() <= MAX_PAYLOAD_LEN ==> {
                    let recompressed = recompress_of(data@, RECOMPRESS_QUALITY);
                    &&& (action matches SendAction::Transmit(packets) ==> packets@.map_values(
                        |v: Vec<u8>| v@,
                    ) == packet_plan(old(self).frame_id, recompressed) && final(self).frame_id
                        == old(self).frame_id.wrapping_add(1))
                    &&& (action is Skip ==> final(self).frame_id == old(self).frame_id)
                    &&& (action is Transmit || action is Skip)
                }
            },
    {
        if !self.running {
            return SendAction::Stop;
        }
        match event {
            CaptureEvent::NotReady => SendAction::Skip,
            CaptureEvent::Failed => {
                self.consecutive_failures = self.consecutive_failures + 1;
                if self.consecutive_failures >= MAX_CONSECUTIVE_FAILURES {
                    self.running = false;
                    SendAction::Stop
                } else {
                    SendAction::Skip
                }
            },
            CaptureEvent::Frame(data) => {
                self.consecutive_failures = 0;
                if data.len() < MIN_PAYLOAD_LEN || data.len() > MAX_PAYLOAD_LEN {
                    return SendAction::Skip;
                }
                if data.len() > RECOMPRESS_THRESHOLD {
                    match recompress_jpeg(data.as_slice(), RECOMPRESS_QUALITY) {
                        Ok(recompressed) => {
                            if recompressed.len() > MAX_PAYLOAD_LEN {
                                return SendAction::Skip;
                            }
                            let packets = frame_packets(self.frame_id, recompressed.as_slice());
                            self.frame_id = self.frame_id.wrapping_add(1);
                            SendAction::Transmit(packets)
                        },
                        Err(_) => SendAction::Skip,
                    }
                } else {
                    let packets = frame_packets(self.frame_id, data.as_slice());
                    self.frame_id = self.frame_id.wrapping_add(1);
                    SendAction::Transmit(packets)
                }
            },
        }
    }
}

} // verus!
