//! Messages with a length prefix.

use vstd::prelude::*;

use crate::codec::{decode_u16, encode_u16, law_decode_encode_u16, law_encode_decode_u16};

verus! {

/// The number of bytes that encode the length of a message.
pub const PREFIX_LEN: usize = 2;

/// Non-fatal error, message is unsent because it serializes to more than the maximum message length.
#[derive(Debug, Clone, Copy, PartialEq, Eq, Structural)]
pub struct SizeLimit;

/// A message as it is transmitted: its length and its bytes.
pub open spec fn framed(msg: Seq<u8>) -> Seq<u8> {
    encode_u16(msg.len() as u16) + msg
}

/// Messages as they are transmitted, one after the other.
pub open spec fn coalesced(msgs: Seq<Seq<u8>>) -> Seq<u8>
    decreases msgs.len(),
{
    if msgs.len() == 0 {
        Seq::empty()
    } else {
        coalesced(msgs.drop_last()) + framed(msgs.last())
    }
}

/// The message at the start of `unread`, if it has the right format.
pub open spec fn first_message(unread: Seq<u8>) -> Option<Seq<u8>> {
    if unread.len() < PREFIX_LEN || PREFIX_LEN + decode_u16(unread) > unread.len() {
        None
    } else {
        Some(unread.subrange(PREFIX_LEN as int, PREFIX_LEN + decode_u16(unread)))
    }
}

/// What remains of `unread` after the message at its start, nothing if that has a bad format.
pub open spec fn after_message(unread: Seq<u8>) -> Seq<u8> {
    match first_message(unread) {
        Some(msg) => unread.skip(PREFIX_LEN + msg.len()),
        None => Seq::empty(),
    }
}

/// The messages that are read one after the other from `unread`, up to the first bad format.
pub open spec fn messages(unread: Seq<u8>) -> Seq<Seq<u8>>
    decreases unread.len(),
{
    match first_message(unread) {
        Some(msg) => seq![msg] + messages(after_message(unread)),
        None => Seq::empty(),
    }
}

/// Reading a message gives back the message that was written, and leaves what was written after it.
pub proof fn law_read_back(msg: Seq<u8>, rest: Seq<u8>)
    requires
        msg.len() <= u16::MAX,
    ensures
        first_message(framed(msg) + rest) == Some(msg),
        after_message(framed(msg) + rest) == rest,
{
    let bytes = framed(msg) + rest;
    law_decode_encode_u16(msg.len() as u16, msg + rest);
    assert(bytes =~= encode_u16(msg.len() as u16) + (msg + rest));
    assert(bytes.subrange(PREFIX_LEN as int, PREFIX_LEN + msg.len()) =~= msg);
    assert(bytes.skip(PREFIX_LEN + msg.len()) =~= rest);
}

/// A message is transmitted as its length, low byte first, and its bytes.
pub proof fn law_frame_layout(msg: Seq<u8>)
    requires
        msg.len() <= 65535,
    ensures
        framed(msg).len() == 2 + msg.len(),
        framed(msg)[0] + 256 * framed(msg)[1] == msg.len(),
        framed(msg).skip(2) == msg,
{
    assert(framed(msg).skip(2) =~= msg);
}

/// A message is read exactly if its length and all of its bytes are there, and what is read is what they
/// say.
pub proof fn law_bad_format(unread: Seq<u8>)
    ensures
        first_message(unread) is Some <==> unread.len() >= 2 && unread.len() >= 2 + unread[0] + 256
            * unread[1],
        first_message(unread) matches Some(msg) ==> {
            &&& msg.len() == unread[0] + 256 * unread[1]
            &&& unread == framed(msg) + after_message(unread)
        },
        first_message(unread) is None ==> after_message(unread).len() == 0,
{
    if let Some(msg) = first_message(unread) {
        law_encode_decode_u16(unread);
        assert(unread =~= framed(msg) + after_message(unread));
    }
}

/// The first of some messages is transmitted first.
proof fn lemma_coalesced_first(msgs: Seq<Seq<u8>>)
    requires
        msgs.len() > 0,
    ensures
        coalesced(msgs) == framed(msgs[0]) + coalesced(msgs.skip(1)),
    decreases msgs.len(),
{
    let rest = msgs.skip(1);
    if msgs.len() == 1 {
        assert(coalesced(msgs.drop_last()) =~= Seq::<u8>::empty());
        assert(coalesced(rest) =~= Seq::<u8>::empty());
        assert(coalesced(msgs) =~= framed(msgs[0]) + coalesced(rest));
    } else {
        lemma_coalesced_first(msgs.drop_last());
        assert(msgs.drop_last().skip(1) =~= rest.drop_last());
        assert(coalesced(msgs) =~= framed(msgs[0]) + (coalesced(rest.drop_last()) + framed(
            msgs.last(),
        )));
    }
}

/// Writing one more message after some messages transmits that message after them.
pub proof fn law_write_coalesces(msgs: Seq<Seq<u8>>, msg: Seq<u8>)
    ensures
        coalesced(msgs.push(msg)) == coalesced(msgs) + framed(msg),
{
    assert(msgs.push(msg).drop_last() =~= msgs);
}

/// The messages that are read are exactly those that were written, in order.
pub proof fn law_messages_read_back(msgs: Seq<Seq<u8>>)
    requires
        forall|i: int| 0 <= i < msgs.len() ==> (#[trigger] msgs[i]).len() <= u16::MAX,
    ensures
        messages(coalesced(msgs)) == msgs,
    decreases msgs.len(),
{
    if msgs.len() == 0 {
        assert(messages(coalesced(msgs)) =~= msgs);
    } else {
        let rest = msgs.skip(1);
        lemma_coalesced_first(msgs);
        law_read_back(msgs[0], coalesced(rest));
        law_messages_read_back(rest);
        assert(messages(coalesced(msgs)) =~= seq![msgs[0]] + rest);
        assert(seq![msgs[0]] + rest =~= msgs);
    }
}

/// The messages that are read from the first bytes of what was written are the first messages that
/// were written. A message that has not arrived completely is not read.
pub proof fn law_prefix_read_back(msgs: Seq<Seq<u8>>, n: int)
    requires
        forall|i: int| 0 <= i < msgs.len() ==> (#[trigger] msgs[i]).len() <= u16::MAX,
        0 <= n <= coalesced(msgs).len(),
    ensures
        messages(coalesced(msgs).take(n)).is_prefix_of(msgs),
    decreases msgs.len(),
{
    let bytes = coalesced(msgs).take(n);
    if msgs.len() == 0 {
        assert(messages(bytes) =~= Seq::<Seq<u8>>::empty());
    } else {
        let rest = msgs.skip(1);
        let first = framed(msgs[0]);
        lemma_coalesced_first(msgs);
        law_decode_encode_u16(msgs[0].len() as u16, msgs[0]);
        if n < first.len() {
            if n >= PREFIX_LEN {
                assert(decode_u16(bytes) == decode_u16(first));
            }
            assert(messages(bytes) =~= Seq::<Seq<u8>>::empty());
        } else {
            let m = n - first.len();
            assert(bytes =~= first + coalesced(rest).take(m));
            law_read_back(msgs[0], coalesced(rest).take(m));
            law_prefix_read_back(rest, m);
            assert(messages(bytes) =~= seq![msgs[0]] + messages(coalesced(rest).take(m)));
            assert(seq![msgs[0]] + rest =~= msgs);
        }
    }
}

} // verus!
