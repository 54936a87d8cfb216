use gridsync::binary_io::{InputStream, OutputStream};
use gridsync::chat::ChatMessage;
use gridsync::log::{format_chat, format_log};
use gridsync::messages::JMMessage;
use gridsync::server::{select_version, Engine, ProtocolVersion};

const V: ProtocolVersion = ProtocolVersion::V1;

fn frame(m: &JMMessage) -> Vec<u8> {
    let mut out = OutputStream::new();
    m.write_v1(&mut out);
    out.bytes
}

fn grid_of(bytes: Vec<u8>) -> gridsync::grid::Grid {
    match JMMessage::parse_v1(&mut InputStream::new(bytes)) {
        Some(JMMessage::SetGrid(g)) => g,
        _ => panic!("not a SetGrid frame"),
    }
}

#[test]
fn concrete_scenario() {
    let mut engine = Engine::new(100, 100);
    let b = 2u64;
    engine.connect(V, b, String::from("b"));
    let a = 1u64;
    let first = grid_of(engine.connect(V, a, String::from("a")));
    assert_eq!((first.width, first.height), (100, 100));
    assert!(first.cells.iter().all(|c| c.is_none()));

    let set = frame(&JMMessage::SetCell(5, 5, String::from("wire"), 2));
    let out = engine.handle_frame(V, a, set.clone());
    assert_eq!(out, vec![(b, set)]);

    let c = 3u64;
    let snap = grid_of(engine.connect(V, c, String::from("c")));
    assert_eq!(snap.get(5, 5), &Some((String::from("wire"), 2)));
}

#[test]
fn broadcast_skips_sender_only() {
    let mut engine = Engine::new(10, 10);
    for addr in 1..=4u64 {
        engine.connect(V, addr, format!("{}", addr));
    }
    let set = frame(&JMMessage::SetCell(0, 9, String::from("x"), 1));
    let out = engine.handle_frame(V, 3, set.clone());
    assert_eq!(out, vec![(1, set.clone()), (2, set.clone()), (4, set)]);
}

#[test]
fn out_of_bounds_is_ignored() {
    let mut engine = Engine::new(10, 10);
    engine.connect(V, 1, String::from("a"));
    engine.connect(V, 2, String::from("b"));
    let before = engine.grid.cells.clone();
    assert!(engine.handle_frame(V, 1, frame(&JMMessage::SetCell(10, 0, String::from("x"), 0))).is_empty());
    assert!(engine.handle_frame(V, 1, frame(&JMMessage::SetCell(0, 10, String::from("x"), 0))).is_empty());
    assert!(engine.handle_frame(V, 1, frame(&JMMessage::Delete(10, 10))).is_empty());
    assert_eq!(engine.grid.cells, before);
}

#[test]
fn clearing_an_empty_cell_changes_nothing() {
    let mut engine = Engine::new(5, 5);
    engine.connect(V, 1, String::from("a"));
    let before = engine.grid.cells.clone();
    engine.handle_frame(V, 1, frame(&JMMessage::SetCell(2, 2, String::new(), 3)));
    assert_eq!(engine.grid.cells, before);
    engine.handle_frame(V, 1, frame(&JMMessage::Delete(2, 2)));
    assert_eq!(engine.grid.cells, before);
}

#[test]
fn delete_clears_without_broadcast() {
    let mut engine = Engine::new(5, 5);
    engine.connect(V, 1, String::from("a"));
    engine.connect(V, 2, String::from("b"));
    engine.handle_frame(V, 1, frame(&JMMessage::SetCell(1, 1, String::from("w"), 0)));
    let out = engine.handle_frame(V, 1, frame(&JMMessage::Delete(1, 1)));
    assert!(out.is_empty());
    assert_eq!(engine.grid.get(1, 1), &None);
}

#[test]
fn empty_identifier_clears_an_occupied_cell() {
    let mut engine = Engine::new(5, 5);
    engine.connect(V, 1, String::from("a"));
    engine.handle_frame(V, 1, frame(&JMMessage::SetCell(4, 0, String::from("w"), 0)));
    engine.handle_frame(V, 1, frame(&JMMessage::SetCell(4, 0, String::new(), 7)));
    assert_eq!(engine.grid.get(4, 0), &None);
}

#[test]
fn get_grid_answers_the_requester_only() {
    let mut engine = Engine::new(3, 3);
    engine.connect(V, 1, String::from("a"));
    engine.connect(V, 2, String::from("b"));
    engine.handle_frame(V, 2, frame(&JMMessage::SetCell(0, 0, String::from("p"), 1)));
    engine.handle_frame(V, 2, frame(&JMMessage::SetCell(2, 2, String::from("q"), 2)));
    let out = engine.handle_frame(V, 1, frame(&JMMessage::GetGrid));
    assert_eq!(out.len(), 1);
    assert_eq!(out[0].0, 1);
    let g = grid_of(out[0].1.clone());
    assert_eq!(g.get(0, 0), &Some((String::from("p"), 1)));
    assert_eq!(g.get(2, 2), &Some((String::from("q"), 2)));
    assert_eq!(g.get(1, 1), &None);
}

#[test]
fn client_set_grid_and_garbage_are_ignored() {
    let mut engine = Engine::new(3, 3);
    engine.connect(V, 1, String::from("a"));
    engine.connect(V, 2, String::from("b"));
    let mut other = gridsync::grid::Grid::new(3, 3);
    other.set(0, 0, Some((String::from("z"), 0)));
    assert!(engine.handle_frame(V, 1, frame(&JMMessage::SetGrid(other))).is_empty());
    assert!(engine.handle_frame(V, 1, vec![2, 0]).is_empty());
    assert!(engine.handle_frame(V, 1, vec![]).is_empty());
    assert_eq!(engine.grid.get(0, 0), &None);
}

#[test]
fn disconnected_session_gets_nothing() {
    let mut engine = Engine::new(3, 3);
    engine.connect(V, 1, String::from("a"));
    engine.connect(V, 2, String::from("b"));
    engine.connect(V, 3, String::from("c"));
    engine.disconnect(2);
    engine.disconnect(2);
    assert!(!engine.is_registered(2));
    let set = frame(&JMMessage::SetCell(1, 1, String::from("w"), 0));
    let out = engine.handle_frame(V, 1, set.clone());
    assert_eq!(out, vec![(3, set)]);
}

#[test]
fn reconnect_replaces_session() {
    let mut engine = Engine::new(3, 3);
    engine.connect(V, 1, String::from("a"));
    engine.connect(V, 1, String::from("a2"));
    assert_eq!(engine.sessions.len(), 1);
    assert_eq!(engine.sessions[0].1, "a2");
}

#[test]
fn version_selection() {
    assert_eq!(select_version("1"), Some(ProtocolVersion::V1));
    assert_eq!(select_version("2"), None);
    assert_eq!(select_version(""), None);
    assert_eq!(select_version("11"), None);
}

#[test]
fn log_lines() {
    assert_eq!(format_chat("server", "hi"), "\x1b[94m[CHAT:\x1b[3mserver\x1b[23m]\x1b[0m hi");
    assert_eq!(format_log("94", "COMMAND", "/kick x"), "\x1b[94m[COMMAND]\x1b[0m /kick x");
}

#[test]
fn chat_message_holds_fields() {
    let m = ChatMessage { content: String::from("hello"), sender: String::from("server") };
    assert_eq!(format_chat(&m.sender, &m.content), "\x1b[94m[CHAT:\x1b[3mserver\x1b[23m]\x1b[0m hello");
}
