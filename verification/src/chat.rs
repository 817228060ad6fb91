//! The replies of a chat server.

use vstd::prelude::*;

verus! {

/// How a message starts that introduces its sender: `I'm `.
pub open spec fn introduction() -> Seq<u8> {
    seq![0x49u8, 0x27, 0x6d, 0x20]
}

/// How the reply to an introduction starts: `Hi `.
pub open spec fn greeting() -> Seq<u8> {
    seq![0x48u8, 0x69, 0x20]
}

/// How the reply to an introduction ends: `, I'm server!`.
pub open spec fn closing() -> Seq<u8> {
    seq![0x2cu8, 0x20, 0x49, 0x27, 0x6d, 0x20, 0x73, 0x65, 0x72, 0x76, 0x65, 0x72, 0x21]
}

/// A message that starts with an introduction and goes on.
pub open spec fn introduces(msg: Seq<u8>) -> bool {
    msg.len() > introduction().len() && msg.take(introduction().len() as int) == introduction()
}

/// A character starts behind the place of an introduction, as far as the message goes there.
pub open spec fn cut_between_characters(msg: Seq<u8>) -> bool {
    msg.len() > introduction().len() ==> !(128 <= msg[introduction().len() as int] < 192)
}

/// The reply to a message, both in UTF-8.
///
/// Messages that start with `I'm ` get special treatment, otherwise they are sent back.
pub fn reply(msg: Vec<u8>) -> (response: Vec<u8>)
    requires
        cut_between_characters(msg@),
    ensures
        response@ == (if introduces(msg@) {
            greeting() + msg@.skip(introduction().len() as int) + closing()
        } else {
            msg@
        }),
        msg@.len() > 4 && msg@[0] == 0x49 && msg@[1] == 0x27 && msg@[2] == 0x6d && msg@[3] == 0x20
            ==> {
            &&& response@.len() == msg@.len() + 12
            &&& response@.take(3) == seq![0x48u8, 0x69, 0x20]
            &&& response@.subrange(3, msg@.len() - 1) == msg@.skip(4)
            &&& response@.skip(msg@.len() - 1) == seq![
                0x2cu8,
                0x20,
                0x49,
                0x27,
                0x6d,
                0x20,
                0x73,
                0x65,
                0x72,
                0x76,
                0x65,
                0x72,
                0x21,
            ]
        },
        !(msg@.len() > 4 && msg@[0] == 0x49 && msg@[1] == 0x27 && msg@[2] == 0x6d && msg@[3]
            == 0x20) ==> response@ == msg@,
{
    if msg.len() > 4 && msg[0] == 0x49 && msg[1] == 0x27 && msg[2] == 0x6d && msg[3] == 0x20 {
        assert(msg@.take(4) =~= introduction());
        let mut response: Vec<u8> = vec![0x48, 0x69, 0x20];
        response.extend_from_slice(vstd::slice::slice_subrange(msg.as_slice(), 4, msg.len()));
        let mut end: Vec<u8> = vec![
            0x2c,
            0x20,
            0x49,
            0x27,
            0x6d,
            0x20,
            0x73,
            0x65,
            0x72,
            0x76,
            0x65,
            0x72,
            0x21,
        ];
        response.append(&mut end);
        assert(response@ =~= greeting() + msg@.skip(4) + closing());
        response
    } else {
        proof {
            if introduces(msg@) {
                assert(msg@.take(4)[0] == msg@[0] && msg@.take(4)[1] == msg@[1] && msg@.take(4)[2]
                    == msg@[2] && msg@.take(4)[3] == msg@[3]);
            }
        }
        msg
    }
}

} // verus!
