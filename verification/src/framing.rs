//! The wire format between nodes: each message is its serialized bytes
//! followed by a newline, and a reader takes everything up to and including
//! the next newline as one message. Node id zero is the client.
use vstd::prelude::*;

verus! {

/// The byte that ends every frame (`b'\n'`).
pub open spec fn newline() -> u8 {
    10u8
}

/// The frame that carries `payload`.
pub open spec fn frame_of(payload: Seq<u8>) -> Seq<u8> {
    payload.push(newline())
}

/// What reading until the first newline takes from `stream`: everything up to
/// and including that newline, or the whole stream when it holds none.
pub open spec fn first_line(stream: Seq<u8>) -> Seq<u8>
    decreases stream.len(),
{
    if stream.len() == 0 {
        Seq::empty()
    } else if stream[0] == newline() {
        seq![newline()]
    } else {
        seq![stream[0]] + first_line(stream.drop_first())
    }
}

/// A line read from a non-empty stream is a non-empty prefix of it.
pub proof fn lemma_first_line_len(stream: Seq<u8>)
    ensures
        stream.len() > 0 ==> first_line(stream).len() >= 1,
        first_line(stream).len() <= stream.len(),
        first_line(stream) == stream.take(first_line(stream).len() as int),
    decreases stream.len(),
{
    if stream.len() > 0 {
        lemma_first_line_len(stream.drop_first());
        if stream[0] != newline() {
            let rest = first_line(stream.drop_first());
            assert(seq![stream[0]] + rest =~= stream.take(rest.len() + 1int));
        } else {
            assert(seq![newline()] =~= stream.take(1));
        }
    }
}

/// The successive lines that repeated reads until a newline take from `stream`.
pub open spec fn read_lines(stream: Seq<u8>) -> Seq<Seq<u8>>
    decreases stream.len(),
{
    if stream.len() == 0 {
        Seq::empty()
    } else {
        let line = first_line(stream);
        proof {
            lemma_first_line_len(stream);
        }
        seq![line] + read_lines(stream.skip(line.len() as int))
    }
}

/// The bytes sent for the messages `payloads`, in order.
pub open spec fn concat_frames(payloads: Seq<Seq<u8>>) -> Seq<u8>
    decreases payloads.len(),
{
    if payloads.len() == 0 {
        Seq::empty()
    } else {
        frame_of(payloads[0]) + concat_frames(payloads.drop_first())
    }
}

/// The frame that carries `payload`: its bytes and a trailing newline.
pub fn encode_frame(payload: Vec<u8>) -> (frame: Vec<u8>)
    ensures
        frame@ == frame_of(payload@),
{
    let mut frame = payload;
    frame.push(10u8);
    frame
}

proof fn lemma_first_line_of_frame(payload: Seq<u8>, rest: Seq<u8>)
    requires
        !payload.contains(newline()),
    ensures
        first_line(frame_of(payload) + rest) == frame_of(payload),
    decreases payload.len(),
{
    let s = frame_of(payload) + rest;
    if payload.len() == 0 {
        assert(s[0] == newline());
        assert(seq![newline()] =~= frame_of(payload));
    } else {
        let p1 = payload.drop_first();
        assert(!p1.contains(newline())) by {
            if p1.contains(newline()) {
                let j = choose|j: int| 0 <= j < p1.len() && p1[j] == newline();
                assert(payload[j + 1] == newline());
            }
        }
        assert(payload[0] != newline()) by {
            assert(payload.contains(payload[0]));
        }
        lemma_first_line_of_frame(p1, rest);
        assert(s.drop_first() =~= frame_of(p1) + rest);
        assert(seq![payload[0]] + frame_of(p1) =~= frame_of(payload));
    }
}

/// A reader that takes one line at a time gets back exactly the frames that
/// were sent, one per message, provided no message holds a newline of its own.
pub proof fn lemma_frames_read_back(payloads: Seq<Seq<u8>>)
    requires
        forall|i: int| 0 <= i < payloads.len() ==> !(#[trigger] payloads[i]).contains(newline()),
    ensures
        read_lines(concat_frames(payloads)) == payloads.map_values(|p: Seq<u8>| frame_of(p)),
    decreases payloads.len(),
{
    if payloads.len() == 0 {
        assert(read_lines(Seq::<u8>::empty()) =~= Seq::<Seq<u8>>::empty());
        assert(payloads.map_values(|p: Seq<u8>| frame_of(p)) =~= Seq::<Seq<u8>>::empty());
    } else {
        let rest = payloads.drop_first();
        assert forall|i: int| 0 <= i < rest.len() implies !(#[trigger] rest[i]).contains(newline()) by {
            assert(rest[i] == payloads[i + 1]);
        }
        lemma_frames_read_back(rest);
        let s = concat_frames(payloads);
        lemma_first_line_of_frame(payloads[0], concat_frames(rest));
        assert(s.skip(frame_of(payloads[0]).len() as int) =~= concat_frames(rest));
        assert(payloads.map_values(|p: Seq<u8>| frame_of(p)) =~= seq![frame_of(payloads[0])]
            + rest.map_values(|p: Seq<u8>| frame_of(p)));
    }
}

/// Where a message addressed to a node id goes.
#[derive(Clone, Copy, Debug, PartialEq, Eq, Structural)]
pub enum Destination {
    /// The client, through the network actor's connection.
    Client,
    /// The replica with this node id.
    Peer(u64),
}

/// Where a message for `receiver` goes: id zero is the client, any other id a replica.
pub fn route(receiver: u64) -> (dest: Destination)
    ensures
        dest == (if receiver == 0 { Destination::Client } else { Destination::Peer(receiver) }),
{
    if receiver == 0 {
        Destination::Client
    } else {
        Destination::Peer(receiver)
    }
}

} // verus!
