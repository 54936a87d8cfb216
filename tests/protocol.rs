use gridsync::binary_io::{InputStream, OutputStream};
use gridsync::grid::Grid;
use gridsync::messages::JMMessage;

fn encode(m: &JMMessage) -> Vec<u8> {
    let mut out = OutputStream::new();
    m.write_v1(&mut out);
    out.bytes
}

fn parse(bytes: Vec<u8>) -> Option<JMMessage> {
    JMMessage::parse_v1(&mut InputStream::new(bytes))
}

fn set_cell_fields(m: Option<JMMessage>) -> Option<(u16, u16, String, u8)> {
    match m {
        Some(JMMessage::SetCell(x, y, id, d)) => Some((x, y, id, d)),
        _ => None,
    }
}

#[test]
fn set_cell_bytes() {
    let m = JMMessage::SetCell(5, 5, String::from("wire"), 2);
    assert_eq!(encode(&m), vec![2, 0, 5, 0, 5, 0, 0, 0, 4, b'w', b'i', b'r', b'e', 2]);
}

#[test]
fn short_messages_bytes() {
    assert_eq!(encode(&JMMessage::GetGrid), vec![0]);
    assert_eq!(encode(&JMMessage::Delete(1, 258)), vec![3, 0, 1, 1, 2]);
}

#[test]
fn set_grid_bytes() {
    let mut g = Grid::new(2, 1);
    g.set(1, 0, Some((String::from("a"), 3)));
    let bytes = encode(&JMMessage::SetGrid(g));
    assert_eq!(bytes, vec![1, 0, 2, 0, 1, 0, 0, 0, 2, 0, 0, 0, 0, 0, 0, 0, 0, 1, b'a', 3]);
}

#[test]
fn round_trip_each_variant() {
    assert!(matches!(parse(encode(&JMMessage::GetGrid)), Some(JMMessage::GetGrid)));
    assert_eq!(
        set_cell_fields(parse(encode(&JMMessage::SetCell(7, 9, String::from("pipe"), 4)))),
        Some((7, 9, String::from("pipe"), 4))
    );
    assert!(matches!(parse(encode(&JMMessage::Delete(3, 4))), Some(JMMessage::Delete(3, 4))));
    let mut g = Grid::new(3, 2);
    g.set(2, 1, Some((String::from("lamp"), 1)));
    match parse(encode(&JMMessage::SetGrid(g))) {
        Some(JMMessage::SetGrid(back)) => {
            assert_eq!((back.width, back.height), (3, 2));
            assert_eq!(back.cells.len(), 6);
            assert_eq!(back.get(2, 1), &Some((String::from("lamp"), 1)));
            assert_eq!(back.get(0, 0), &None);
        }
        _ => panic!("grid did not decode"),
    }
}

#[test]
fn truncated_messages_fail() {
    let mut g = Grid::new(2, 2);
    g.set(0, 1, Some((String::from("x"), 9)));
    let messages = vec![
        JMMessage::GetGrid,
        JMMessage::SetGrid(g),
        JMMessage::SetCell(1, 2, String::from("wire"), 3),
        JMMessage::Delete(4, 5),
    ];
    for m in &messages {
        let full = encode(m);
        for k in 0..full.len() {
            assert!(parse(full[..k].to_vec()).is_none(), "prefix of length {} decoded", k);
        }
    }
}

#[test]
fn unknown_opcode_fails() {
    assert!(parse(vec![4]).is_none());
    assert!(parse(vec![255, 0, 0]).is_none());
}

#[test]
fn invalid_identifier_fails() {
    assert!(parse(vec![2, 0, 1, 0, 1, 0, 0, 0, 1, 0xff, 0]).is_none());
}

#[test]
fn grid_new_is_empty() {
    let g = Grid::new(4, 3);
    assert_eq!(g.cells.len(), 12);
    assert!(g.cells.iter().all(|c| c.is_none()));
}

#[test]
fn grid_set_is_row_major() {
    let mut g = Grid::new(4, 3);
    g.set(1, 2, Some((String::from("k"), 0)));
    assert_eq!(g.cells[9], Some((String::from("k"), 0)));
    assert_eq!(g.get(1, 2), &Some((String::from("k"), 0)));
    let copy = g.duplicate();
    assert_eq!(copy.cells, g.cells);
}

#[test]
fn grid_with_wrong_cell_count_fails() {
    assert!(parse(vec![1, 0, 1, 0, 1, 0, 0, 0, 0]).is_none());
    assert!(parse(vec![1, 0, 1, 0, 1, 0, 0, 0, 2, 0, 0, 0, 0, 0, 0, 0, 0, 0, 0]).is_none());
    assert!(parse(vec![1, 0, 1, 0, 1, 0, 0, 0, 1, 0, 0, 0, 0, 0]).is_some());
}

#[test]
fn grid_read_directly() {
    let mut input = InputStream::new(vec![0, 1, 0, 1, 0, 0, 0, 0]);
    assert!(input.read::<Grid>().is_none());
}
