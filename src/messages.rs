use vstd::prelude::*;
use crate::binary_io::{
    be_bytes, lemma_be_bytes_len, lemma_be_field, lemma_pow256_8, lemma_string_round_trip, lemma_string_truncated,
    string_decode, string_encode, string_fits, InputStream, IOAble, OutputStream,
};
use crate::grid::{grid_fits, lemma_grid_round_trip, lemma_grid_truncated, Grid, GridView};

verus! {

pub ghost enum MessageView {
    GetGrid,
    SetGrid(GridView),
    SetCell(u16, u16, Seq<char>, u8),
    Delete(u16, u16),
}

/// One protocol message.
#[derive(Clone, Debug)]
pub enum JMMessage {
    GetGrid,
    SetGrid(Grid),
    SetCell(u16, u16, String, u8),
    Delete(u16, u16),
}

impl View for JMMessage {
    type V = MessageView;

    open spec fn view(&self) -> MessageView {
        match self {
            JMMessage::GetGrid => MessageView::GetGrid,
            JMMessage::SetGrid(g) => MessageView::SetGrid(g@),
            JMMessage::SetCell(x, y, id, d) => MessageView::SetCell(*x, *y, id@, *d),
            JMMessage::Delete(x, y) => MessageView::Delete(*x, *y),
        }
    }
}

pub open spec fn u16_encode(v: u16) -> Seq<u8> {
    <u16 as IOAble>::encode(v)
}

/// Version 1 of the wire format: an opcode byte, then the payload.
pub open spec fn encode_v1(m: MessageView) -> Seq<u8> {
    match m {
        MessageView::GetGrid => seq![0u8],
        MessageView::SetGrid(g) => seq![1u8] + <Grid as IOAble>::encode(g),
        MessageView::SetCell(x, y, id, d) => seq![2u8] + u16_encode(x) + u16_encode(y) + string_encode(id)
            + seq![d],
        MessageView::Delete(x, y) => seq![3u8] + u16_encode(x) + u16_encode(y),
    }
}

/// Decoding under version 1: the message and the number of bytes it took, or
/// `None` for an unknown opcode or a payload that does not decode.
pub open spec fn decode_v1(b: Seq<u8>) -> Option<(MessageView, nat)> {
    if b.len() == 0 {
        None
    } else {
        let rest = b.skip(1);
        if b[0] == 0 {
            Some((MessageView::GetGrid, 1))
        } else if b[0] == 1 {
            match <Grid as IOAble>::decode(rest) {
                Some((g, n)) => Some((MessageView::SetGrid(g), n + 1)),
                None => None,
            }
        } else if b[0] == 2 {
            match (<u16 as IOAble>::decode(rest), <u16 as IOAble>::decode(rest.skip(2)), string_decode(rest.skip(4))) {
                (Some((x, _)), Some((y, _)), Some((id, n))) => if rest.len() > 4 + n {
                    Some((MessageView::SetCell(x, y, id, rest[4 + n as int]), 1 + 4 + n + 1))
                } else {
                    None
                },
                _ => None,
            }
        } else if b[0] == 3 {
            match (<u16 as IOAble>::decode(rest), <u16 as IOAble>::decode(rest.skip(2))) {
                (Some((x, _)), Some((y, _))) => Some((MessageView::Delete(x, y), 5)),
                _ => None,
            }
        } else {
            None
        }
    }
}

impl JMMessage {
    /// Appends the version 1 encoding of the message.
    pub fn write_v1(&self, stream: &mut OutputStream)
        ensures
            final(stream).bytes@ == old(stream).bytes@ + encode_v1(self@),
    {
        match self {
            JMMessage::GetGrid => {
                stream.write(0u8);
            },
            JMMessage::SetGrid(grid) => {
                stream.write(1u8);
                stream.write(grid);
            },
            JMMessage::SetCell(x, y, id, direction) => {
                stream.write(2u8);
                stream.write(*x);
                stream.write(*y);
                stream.write(id);
                stream.write(*direction);
            },
            JMMessage::Delete(x, y) => {
                stream.write(3u8);
                stream.write(*x);
                stream.write(*y);
            },
        }
        assert(stream.bytes@ =~= old(stream).bytes@ + encode_v1(self@));
    }

    /// Decodes one message under version 1 from the front of the stream.
    pub fn parse_v1(stream: &mut InputStream) -> (r: Option<JMMessage>)
        ensures
            match decode_v1(old(stream).bytes@) {
                Some((m, n)) => r matches Some(v) && v@ == m && n <= old(stream).bytes@.len()
                    && final(stream).bytes@ == old(stream).bytes@.skip(n as int),
                None => r is None,
            },
    {
        let ghost start = stream.bytes@;
        let op = match stream.read::<u8>() {
            Some(op) => op,
            None => return None,
        };
        let ghost rest = stream.bytes@;
        if op == 0 {
            Some(JMMessage::GetGrid)
        } else if op == 1 {
            match stream.read::<Grid>() {
                Some(g) => {
                    assert(stream.bytes@ =~= start.skip((<Grid as IOAble>::decode(rest)->0).1 + 1int));
                    Some(JMMessage::SetGrid(g))
                },
                None => None,
            }
        } else if op == 2 {
            let x = match stream.read::<u16>() {
                Some(v) => v,
                None => return None,
            };
            assert(stream.bytes@ =~= rest.skip(2));
            let y = match stream.read::<u16>() {
                Some(v) => v,
                None => return None,
            };
            assert(stream.bytes@ =~= rest.skip(4));
            let id = match stream.read::<String>() {
                Some(v) => v,
                None => return None,
            };
            let ghost n = (string_decode(rest.skip(4))->0).1;
            assert(stream.bytes@ =~= rest.skip(4 + n as int));
            let direction = match stream.read::<u8>() {
                Some(v) => v,
                None => return None,
            };
            assert(stream.bytes@ =~= start.skip(1 + 4 + n as int + 1));
            Some(JMMessage::SetCell(x, y, id, direction))
        } else if op == 3 {
            let x = match stream.read::<u16>() {
                Some(v) => v,
                None => return None,
            };
            assert(stream.bytes@ =~= rest.skip(2));
            let y = match stream.read::<u16>() {
                Some(v) => v,
                None => return None,
            };
            assert(stream.bytes@ =~= start.skip(5));
            Some(JMMessage::Delete(x, y))
        } else {
            None
        }
    }
}

/// A message whose variable-length fields fit their length prefixes, and whose
/// grid holds no occupied cell with an empty identifier.
pub open spec fn message_fits(m: MessageView) -> bool {
    match m {
        MessageView::SetGrid(g) => grid_fits(g),
        MessageView::SetCell(_, _, id, _) => string_fits(id),
        _ => true,
    }
}

/// Round trip: decoding the version 1 encoding of a message, followed by any
/// bytes at all, yields that message and takes exactly its encoding.
pub proof fn lemma_round_trip_v1(m: MessageView, rest: Seq<u8>)
    requires
        message_fits(m),
    ensures
        decode_v1(encode_v1(m) + rest) == Some((m, encode_v1(m).len())),
{
    lemma_pow256_8();
    let b = encode_v1(m) + rest;
    match m {
        MessageView::GetGrid => {},
        MessageView::SetGrid(g) => {
            assert(b.skip(1) =~= <Grid as IOAble>::encode(g) + rest);
            lemma_grid_round_trip(g, rest);
        },
        MessageView::SetCell(x, y, id, d) => {
            let tail = string_encode(id) + (seq![d] + rest);
            let p = be_bytes(x as nat, 2) + (be_bytes(y as nat, 2) + tail);
            assert(b.skip(1) =~= p);
            lemma_be_field(x as nat, 2, be_bytes(y as nat, 2) + tail);
            assert(p.skip(2) =~= be_bytes(y as nat, 2) + tail);
            lemma_be_field(y as nat, 2, tail);
            assert(p.skip(4) =~= tail);
            lemma_string_round_trip(id, seq![d] + rest);
            assert(p[4 + string_encode(id).len() as int] == d);
        },
        MessageView::Delete(x, y) => {
            let p = be_bytes(x as nat, 2) + (be_bytes(y as nat, 2) + rest);
            assert(b.skip(1) =~= p);
            lemma_be_field(x as nat, 2, be_bytes(y as nat, 2) + rest);
            assert(p.skip(2) =~= be_bytes(y as nat, 2) + rest);
            lemma_be_field(y as nat, 2, rest);
            lemma_be_bytes_len(x as nat, 2);
            lemma_be_bytes_len(y as nat, 2);
        },
    }
}

/// Truncation safety: every proper prefix of the version 1 encoding of a
/// message fails to decode.
pub proof fn lemma_truncated_v1(m: MessageView, k: nat)
    requires
        message_fits(m),
        k < encode_v1(m).len(),
    ensures
        decode_v1(encode_v1(m).take(k as int)) is None,
{
    lemma_pow256_8();
    let b = encode_v1(m).take(k as int);
    if k > 0 {
        match m {
            MessageView::GetGrid => {},
            MessageView::SetGrid(g) => {
                assert(b.skip(1) =~= <Grid as IOAble>::encode(g).take(k - 1));
                lemma_grid_truncated(g, (k - 1) as nat);
            },
            MessageView::SetCell(x, y, id, d) => {
                lemma_be_bytes_len(x as nat, 2);
                lemma_be_bytes_len(y as nat, 2);
                let se = string_encode(id);
                let j = k - 1;
                if j >= 4 {
                    let t = if j - 4 < se.len() {
                        se.take(j - 4)
                    } else {
                        se
                    };
                    let p = be_bytes(x as nat, 2) + (be_bytes(y as nat, 2) + t);
                    assert(b.skip(1) =~= p);
                    lemma_be_field(x as nat, 2, be_bytes(y as nat, 2) + t);
                    assert(p.skip(2) =~= be_bytes(y as nat, 2) + t);
                    lemma_be_field(y as nat, 2, t);
                    assert(p.skip(4) =~= t);
                    if j - 4 < se.len() {
                        lemma_string_truncated(id, (j - 4) as nat);
                    } else {
                        assert(t =~= t + Seq::<u8>::empty());
                        lemma_string_round_trip(id, Seq::<u8>::empty());
                    }
                }
            },
            MessageView::Delete(x, y) => {
                lemma_be_bytes_len(x as nat, 2);
                lemma_be_bytes_len(y as nat, 2);
            },
        }
    }
}

} // verus!
