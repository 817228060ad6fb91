//! What the sending side of a reliable channel remembers of what it sent, and how it sends it again.

use vstd::prelude::*;

use crate::reliable_channel::segment::{law_parse_data_packet, parsed, Segment};
use crate::reliable_channel::{SenderView, UnackedRange};
use crate::windows::send::{law_ack_needs_range, law_ack_takes_bytes, AckResult};
use crate::windows::stream::{
    advance, lemma_advance, lemma_advance_twice, lemma_steps, steps, StreamPos,
};

verus! {

/// A packet that is sent again at once is the packet that was sent.
pub proof fn law_resend_repeats_packet<I>(sender: SenderView<I>, limit: nat, now: I)
    requires
        sender.consistent(),
        limit >= 10,
        sender.window.pending.len() > 0,
        sender.remote_recv_available > 0,
    ensures
        sender.after_send(limit, now).resend_packet(sender.unacked.len() as int)
            == sender.next_packet(limit),
{
    let n = sender.next_amount(limit) as int;
    let next = sender.after_send(limit, now);
    let sent = sender.window.sent.len() as int;
    let start = sender.window.send_pos;
    lemma_advance(start, n);
    lemma_advance_twice(start, n, -(sent + n));
    lemma_advance_twice(start, -sent, sent);
    lemma_advance(advance(start, -sent), sent);
    assert(next.window.unacked_start() == sender.window.unacked_start());
    assert(next.window.offset(start) == sent);
    assert(next.window.sent.subrange(sent, sent + n) =~= sender.window.pending.take(n));
}

/// Sending an unacked range again transmits all of its bytes, at their position. What is known of the
/// range is then that it was sent again, and when, and nothing else changes.
pub proof fn law_resend_transmits_range<I>(sender: SenderView<I>, index: int, now: I)
    requires
        sender.consistent(),
        0 <= index < sender.unacked.len(),
        steps(sender.unacked[index].start, sender.unacked[index].end) <= 32767,
    ensures
        ({
            let range = sender.unacked[index];
            let packet = sender.resend_packet(index);
            let next = sender.after_resend(index, now);
            let first = steps(sender.window.unacked_start(), range.start);
            &&& parsed(packet) == Some(Segment::Data { start: range.start })
            &&& packet.len() == 6 + steps(range.start, range.end)
            &&& forall|k: int|
                0 <= k < steps(range.start, range.end) ==> #[trigger] packet[6 + k]
                    == sender.window.sent[first + k]
            &&& next.window == sender.window
            &&& next.remote_recv_available == sender.remote_recv_available
            &&& next.unacked.len() == sender.unacked.len()
            &&& next.unacked[index] == (UnackedRange {
                start: range.start,
                end: range.end,
                last_sent: Some(now),
                retransmit: true,
            })
            &&& forall|i: int|
                0 <= i < sender.unacked.len() && i != index ==> #[trigger] next.unacked[i]
                    == sender.unacked[i]
        }),
{
    let range = sender.unacked[index];
    let first = sender.window.offset(range.start);
    assert(sender.window.unacked[index] == (range.start, range.end));
    lemma_steps(range.start, range.end);
    let data = sender.window.sent.subrange(first, first + steps(range.start, range.end));
    law_parse_data_packet(range.start, data);
}

/// An acknowledgement of the first `n` bytes of an unacked range makes the range forgotten if they are all
/// of it. If they are not, the rest is due to be sent again at once: it counts as sent again, at no
/// known instant. Nothing else is forgotten, and it says nothing of what the remote has room for.
pub proof fn law_ack_forgets_range<I>(sender: SenderView<I>, index: int, n: int)
    requires
        sender.consistent(),
        0 <= index < sender.unacked.len(),
        0 <= n < 0x1_0000_0000,
    ensures
        ({
            let range = sender.unacked[index];
            let len = steps(range.start, range.end);
            let end = advance(range.start, n);
            let next = sender.after_ack(range.start, end);
            &&& next.remote_recv_available == sender.remote_recv_available
            &&& n == 0 || n > len ==> next == sender
            &&& n == len ==> next.unacked == sender.unacked.remove(index)
            &&& 0 < n < len ==> next.unacked == sender.unacked.update(
                index,
                UnackedRange { start: end, end: range.end, last_sent: None, retransmit: true },
            )
            &&& sender.timed_by(range.start, end) == (if 0 < n <= len && !range.retransmit {
                range.last_sent
            } else {
                None
            })
        }),
{
    let range = sender.unacked[index];
    let end = advance(range.start, n);
    assert(sender.window.unacked[index] == (range.start, range.end));
    law_ack_takes_bytes(sender.window, index, n);
    sender.window.lemma_range_index(index);
}

/// An acknowledgement that starts where no unacked range starts changes nothing and tells nothing.
pub proof fn law_unknown_ack_ignored<I>(sender: SenderView<I>, start: StreamPos, end: StreamPos)
    requires
        sender.consistent(),
        forall|i: int| 0 <= i < sender.unacked.len() ==> (#[trigger] sender.unacked[i]).start != start,
    ensures
        sender.after_ack(start, end) == sender,
        sender.timed_by(start, end) is None,
{
    assert forall|i: int| 0 <= i < sender.window.unacked.len() implies (
    #[trigger] sender.window.unacked[i]).0 != start by {
        assert(sender.unacked[i].start != start);
    }
    law_ack_needs_range(sender.window, start, end);
    assert(sender.window.ack_result(start, end) == AckResult::NotFound);
}

} // verus!
