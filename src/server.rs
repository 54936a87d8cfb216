use vstd::prelude::*;
use vstd::string::StrSliceExecFns;
use crate::binary_io::{InputStream, OutputStream};
use crate::grid::{cell_index, CellView, Grid, GridView};
use crate::messages::{decode_v1, encode_v1, JMMessage, MessageView};

verus! {

/// The wire format versions that a client may declare at handshake.
#[derive(Clone, Copy, PartialEq, Eq, Structural, Debug)]
pub enum ProtocolVersion {
    V1,
}

/// The version named by a client's declared version string, if it is supported.
pub fn select_version(declared: &str) -> (r: Option<ProtocolVersion>)
    ensures
        r == (if declared@ == seq!['1'] { Some(ProtocolVersion::V1) } else { None }),
{
    if declared.unicode_len() == 1 && declared.get_char(0) == '1' {
        assert(declared@ =~= seq!['1']);
        Some(ProtocolVersion::V1)
    } else {
        None
    }
}

/// Decoding of a frame under a protocol version.
pub open spec fn decode_frame(v: ProtocolVersion, b: Seq<u8>) -> Option<MessageView> {
    match v {
        ProtocolVersion::V1 => match decode_v1(b) {
            Some((m, _)) => Some(m),
            None => None,
        },
    }
}

/// The encoding of a message under a protocol version.
pub open spec fn encode_frame(v: ProtocolVersion, m: MessageView) -> Seq<u8> {
    match v {
        ProtocolVersion::V1 => encode_v1(m),
    }
}

/// Decodes one frame under the given version.
pub fn parse_frame(v: ProtocolVersion, frame: Vec<u8>) -> (r: Option<JMMessage>)
    ensures
        match decode_frame(v, frame@) {
            Some(m) => r matches Some(msg) && msg@ == m,
            None => r is None,
        },
{
    match v {
        ProtocolVersion::V1 => {
            let mut stream = InputStream::new(frame);
            JMMessage::parse_v1(&mut stream)
        },
    }
}

/// Encodes one message as a frame under the given version.
pub fn encode_message(v: ProtocolVersion, msg: &JMMessage) -> (r: Vec<u8>)
    ensures
        r@ == encode_frame(v, msg@),
{
    match v {
        ProtocolVersion::V1 => {
            let mut stream = OutputStream::new();
            msg.write_v1(&mut stream);
            assert(stream.bytes@ =~= encode_v1(msg@));
            stream.bytes
        },
    }
}

/// The addresses in `s` other than `a`, in order.
pub open spec fn without(s: Seq<u64>, a: u64) -> Seq<u64>
    decreases s.len(),
{
    if s.len() == 0 {
        seq![]
    } else if s.last() == a {
        without(s.drop_last(), a)
    } else {
        without(s.drop_last(), a).push(s.last())
    }
}

/// The sessions in `s` other than the one at address `a`, in order.
pub open spec fn sessions_without(s: Seq<(u64, String)>, a: u64) -> Seq<(u64, String)>
    decreases s.len(),
{
    if s.len() == 0 {
        seq![]
    } else if s.last().0 == a {
        sessions_without(s.drop_last(), a)
    } else {
        sessions_without(s.drop_last(), a).push(s.last())
    }
}

/// One copy of `frame` for each address in `addrs` other than `sender`, in order.
pub open spec fn fan_out(addrs: Seq<u64>, sender: u64, frame: Seq<u8>) -> Seq<(u64, Seq<u8>)>
    decreases addrs.len(),
{
    if addrs.len() == 0 {
        seq![]
    } else if addrs.last() == sender {
        fan_out(addrs.drop_last(), sender, frame)
    } else {
        fan_out(addrs.drop_last(), sender, frame).push((addrs.last(), frame))
    }
}

/// How many of the `out` frames go to `a`.
pub open spec fn deliveries(out: Seq<(u64, Seq<u8>)>, a: u64) -> nat
    decreases out.len(),
{
    if out.len() == 0 {
        0
    } else {
        deliveries(out.drop_last(), a) + if out.last().0 == a { 1nat } else { 0nat }
    }
}

pub open spec fn frames_view(out: Seq<(u64, Vec<u8>)>) -> Seq<(u64, Seq<u8>)> {
    out.map_values(|o: (u64, Vec<u8>)| (o.0, o.1@))
}

/// The cell that a `SetCell` with these fields leaves: an empty identifier clears it.
pub open spec fn placed(id: Seq<char>, d: u8) -> CellView {
    if id.len() == 0 {
        None
    } else {
        Some((id, d))
    }
}

/// The grid after a decoded frame: an in-bounds `SetCell` or `Delete` changes
/// its cell; anything else leaves the grid as it is.
pub open spec fn apply_message(g: GridView, m: Option<MessageView>) -> GridView {
    match m {
        Some(MessageView::SetCell(x, y, id, d)) => if g.in_bounds(x, y) {
            g.with_cell(x, y, placed(id, d))
        } else {
            g
        },
        Some(MessageView::Delete(x, y)) => if g.in_bounds(x, y) {
            g.with_cell(x, y, None)
        } else {
            g
        },
        _ => g,
    }
}

/// The grid after the frames in `frames`, in order.
pub open spec fn apply_frames(v: ProtocolVersion, g: GridView, frames: Seq<Seq<u8>>) -> GridView
    decreases frames.len(),
{
    if frames.len() == 0 {
        g
    } else {
        apply_message(apply_frames(v, g, frames.drop_last()), decode_frame(v, frames.last()))
    }
}

/// The world state and the registry of live sessions, each keyed by its
/// connection address and carrying a diagnostic identifier.
pub struct Engine {
    pub grid: Grid,
    pub sessions: Vec<(u64, String)>,
}

impl Engine {
    pub open spec fn addrs(&self) -> Seq<u64> {
        self.sessions@.map_values(|p: (u64, String)| p.0)
    }

    pub open spec fn wf(&self) -> bool {
        &&& self.grid@.wf()
        &&& self.grid@.ids_nonempty()
        &&& self.addrs().no_duplicates()
    }

    /// An engine over an empty grid of the given size, with no sessions.
    pub fn new(width: u16, height: u16) -> (r: Self)
        ensures
            r.wf(),
            r.grid@.width == width,
            r.grid@.height == height,
            forall|i: int| 0 <= i < r.grid@.cells.len() ==> #[trigger] r.grid@.cells[i] is None,
            r.addrs() == Seq::<u64>::empty(),
    {
        let r = Engine { grid: Grid::new(width, height), sessions: Vec::new() };
        assert(r.addrs() =~= Seq::<u64>::empty());
        r
    }

    /// Registers a session for `addr`, replacing any earlier one, and returns
    /// the `SetGrid` snapshot frame that the new session is sent first.
    pub fn connect(&mut self, v: ProtocolVersion, addr: u64, client_id: String) -> (r: Vec<u8>)
        requires
            old(self).wf(),
        ensures
            final(self).wf(),
            final(self).grid == old(self).grid,
            final(self).sessions@ == sessions_without(old(self).sessions@, addr).push((addr, client_id)),
            final(self).addrs() == without(old(self).addrs(), addr).push(addr),
            r@ == encode_frame(v, MessageView::SetGrid(old(self).grid@)),
    {
        self.disconnect(addr);
        self.sessions.push((addr, client_id));
        proof {
            lemma_without_not_contains(old(self).addrs(), addr);
            assert(self.addrs() =~= without(old(self).addrs(), addr).push(addr));
        }
        self.snapshot(v)
    }

    /// The encoded `SetGrid` message holding the current grid.
    pub fn snapshot(&self, v: ProtocolVersion) -> (r: Vec<u8>)
        ensures
            r@ == encode_frame(v, MessageView::SetGrid(self.grid@)),
    {
        let msg = JMMessage::SetGrid(self.grid.duplicate());
        encode_message(v, &msg)
    }

    /// Removes the session for `addr`, if there is one.
    pub fn disconnect(&mut self, addr: u64)
        requires
            old(self).wf(),
        ensures
            final(self).wf(),
            final(self).grid == old(self).grid,
            final(self).sessions@ == sessions_without(old(self).sessions@, addr),
            final(self).addrs() == without(old(self).addrs(), addr),
            !final(self).addrs().contains(addr),
    {
        let mut kept: Vec<(u64, String)> = Vec::new();
        let mut i: usize = 0;
        while i < self.sessions.len()
            invariant
                i <= self.sessions@.len(),
                kept@.map_values(|p: (u64, String)| p.0) == without(
                    self.sessions@.map_values(|p: (u64, String)| p.0).take(i as int),
                    addr,
                ),
                kept@ == sessions_without(self.sessions@.take(i as int), addr),
            decreases self.sessions@.len() - i,
        {
            let a = self.sessions[i].0;
            let ghost prev = kept@;
            if a != addr {
                let id = self.sessions[i].1.clone();
                assert((a, id) == self.sessions@[i as int]);
                kept.push((a, id));
                assert(kept@.map_values(|p: (u64, String)| p.0) =~= prev.map_values(
                    |p: (u64, String)| p.0,
                ).push(a));
            }
            assert(self.sessions@.map_values(|p: (u64, String)| p.0).take(i + 1).drop_last()
                =~= self.sessions@.map_values(|p: (u64, String)| p.0).take(i as int));
            assert(self.sessions@.take(i + 1).drop_last() =~= self.sessions@.take(i as int));
            i = i + 1;
        }
        assert(self.sessions@.map_values(|p: (u64, String)| p.0).take(i as int) =~= self.addrs());
        assert(self.sessions@.take(i as int) =~= self.sessions@);
        self.sessions = kept;
        proof {
            lemma_without_not_contains(old(self).addrs(), addr);
            lemma_without_no_duplicates(old(self).addrs(), addr);
        }
    }

    /// One frame for every session but `sender`.
    fn broadcast(&self, sender: u64, frame: &Vec<u8>) -> (r: Vec<(u64, Vec<u8>)>)
        ensures
            frames_view(r@) == fan_out(self.addrs(), sender, frame@),
    {
        let mut out: Vec<(u64, Vec<u8>)> = Vec::new();
        let mut i: usize = 0;
        while i < self.sessions.len()
            invariant
                i <= self.sessions@.len(),
                frames_view(out@) == fan_out(self.addrs().take(i as int), sender, frame@),
            decreases self.sessions@.len() - i,
        {
            let a = self.sessions[i].0;
            let ghost prev = out@;
            if a != sender {
                let copy = frame.clone();
                assert(copy@ =~= frame@);
                out.push((a, copy));
                assert(frames_view(out@) =~= frames_view(prev).push((a, frame@)));
            }
            assert(self.addrs().take(i + 1).drop_last() =~= self.addrs().take(i as int));
            i = i + 1;
        }
        assert(self.addrs().take(i as int) =~= self.addrs());
        out
    }

    /// Handles one inbound frame from the session at `sender`: applies an
    /// accepted mutation to the grid and returns the frames to deliver, each
    /// with the address it goes to.
    pub fn handle_frame(&mut self, v: ProtocolVersion, sender: u64, frame: Vec<u8>) -> (r: Vec<(u64, Vec<u8>)>)
        requires
            old(self).wf(),
        ensures
            final(self).wf(),
            final(self).sessions@ == old(self).sessions@,
            final(self).grid@ == apply_message(old(self).grid@, decode_frame(v, frame@)),
            ({
                let g = old(self).grid@;
                match decode_frame(v, frame@) {
                    Some(MessageView::GetGrid) => final(self).grid@ == g && frames_view(r@) == (
                    if old(self).addrs().contains(sender) {
                        seq![(sender, encode_frame(v, MessageView::SetGrid(g)))]
                    } else {
                        seq![]
                    }),
                    Some(MessageView::SetCell(x, y, id, d)) => if g.in_bounds(x, y) {
                        final(self).grid@ == g.with_cell(x, y, placed(id, d)) && frames_view(r@) == fan_out(
                            old(self).addrs(),
                            sender,
                            encode_frame(v, MessageView::SetCell(x, y, id, d)),
                        )
                    } else {
                        final(self).grid@ == g && r@.len() == 0
                    },
                    Some(MessageView::Delete(x, y)) => r@.len() == 0 && final(self).grid@ == (
                    if g.in_bounds(x, y) {
                        g.with_cell(x, y, None)
                    } else {
                        g
                    }),
                    _ => final(self).grid@ == g && r@.len() == 0,
                }
            }),
    {
        let msg = match parse_frame(v, frame) {
            Some(m) => m,
            None => return Vec::new(),
        };
        match msg {
            JMMessage::GetGrid => {
                let mut out: Vec<(u64, Vec<u8>)> = Vec::new();
                if self.is_registered(sender) {
                    let snap = self.snapshot(v);
                    out.push((sender, snap));
                    assert(frames_view(out@) =~= seq![(sender, encode_frame(v, MessageView::SetGrid(self.grid@)))]);
                } else {
                    assert(frames_view(out@) =~= seq![]);
                }
                out
            },
            JMMessage::SetGrid(_) => Vec::new(),
            JMMessage::SetCell(x, y, cell_id, direction) => {
                if x >= self.grid.width || y >= self.grid.height {
                    return Vec::new();
                }
                let reply = JMMessage::SetCell(x, y, cell_id.clone(), direction);
                let bytes = encode_message(v, &reply);
                if cell_id.as_str().is_empty() {
                    proof {
                        lemma_with_cell_keeps_ids(self.grid@, x, y, None);
                    }
                    self.grid.set(x, y, None);
                } else {
                    proof {
                        lemma_with_cell_keeps_ids(self.grid@, x, y, Some((cell_id@, direction)));
                    }
                    self.grid.set(x, y, Some((cell_id, direction)));
                }
                self.broadcast(sender, &bytes)
            },
            JMMessage::Delete(x, y) => {
                if x < self.grid.width && y < self.grid.height {
                    self.grid.set(x, y, None);
                    proof {
                        lemma_with_cell_keeps_ids(old(self).grid@, x, y, None);
                    }
                }
                Vec::new()
            },
        }
    }

    /// Whether a session is registered for `addr`.
    pub fn is_registered(&self, addr: u64) -> (r: bool)
        ensures
            r == self.addrs().contains(addr),
    {
        let mut i: usize = 0;
        while i < self.sessions.len()
            invariant
                i <= self.sessions@.len(),
                forall|j: int| 0 <= j < i ==> self.addrs()[j] != addr,
            decreases self.sessions@.len() - i,
        {
            if self.sessions[i].0 == addr {
                assert(self.addrs()[i as int] == addr);
                return true;
            }
            i = i + 1;
        }
        false
    }
}

pub proof fn lemma_with_cell_keeps_ids(g: GridView, x: u16, y: u16, c: CellView)
    requires
        g.wf(),
        g.in_bounds(x, y),
        g.ids_nonempty(),
        c matches Some((id, _)) ==> id.len() > 0,
    ensures
        g.with_cell(x, y, c).ids_nonempty(),
{
    crate::grid::lemma_index_in_range(g.width, g.height, x, y);
    let h = g.with_cell(x, y, c);
    assert forall|i: int| 0 <= i < h.cells.len() implies (#[trigger] h.cells[i] matches Some((id, _)) ==> id.len()
        > 0) by {
        if i != cell_index(g.width, x, y) {
            assert(h.cells[i] == g.cells[i]);
        }
    }
}

pub proof fn lemma_without_not_contains(s: Seq<u64>, a: u64)
    ensures
        !without(s, a).contains(a),
        forall|b: u64| b != a ==> (without(s, a).contains(b) <==> s.contains(b)),
    decreases s.len(),
{
    if s.len() > 0 {
        lemma_without_not_contains(s.drop_last(), a);
        assert forall|b: u64| b != a implies (s.contains(b) <==> (s.drop_last().contains(b) || s.last() == b)) by {
            lemma_contains_split(s, b);
        }
        let w = without(s.drop_last(), a);
        if s.last() != a {
            let wp = w.push(s.last());
            assert(wp.drop_last() =~= w);
            assert forall|b: u64| wp.contains(b) <==> (w.contains(b) || b == s.last()) by {
                lemma_contains_split(wp, b);
            }
        }
    }
}

pub proof fn lemma_without_no_duplicates(s: Seq<u64>, a: u64)
    requires
        s.no_duplicates(),
    ensures
        without(s, a).no_duplicates(),
    decreases s.len(),
{
    if s.len() > 0 {
        assert(s.drop_last().no_duplicates());
        lemma_without_no_duplicates(s.drop_last(), a);
        lemma_without_not_contains(s.drop_last(), a);
        let w = without(s.drop_last(), a);
        if s.last() != a {
            assert(!s.drop_last().contains(s.last())) by {
                if s.drop_last().contains(s.last()) {
                    let j = choose|j: int| 0 <= j < s.drop_last().len() && s.drop_last()[j] == s.last();
                    assert(s[j] == s[s.len() - 1]);
                }
            }
            assert(!w.contains(s.last()));
            assert forall|i: int, j: int| 0 <= i < j < w.push(s.last()).len() implies w.push(s.last())[i]
                != w.push(s.last())[j] by {
                if j == w.len() {
                    assert(w[i] != s.last()) by {
                        if w[i] == s.last() {
                            assert(w.contains(s.last()));
                        }
                    }
                }
            }
        }
    }
}

proof fn lemma_contains_split(s: Seq<u64>, a: u64)
    requires
        s.len() > 0,
    ensures
        s.contains(a) <==> (s.drop_last().contains(a) || s.last() == a),
{
    if s.contains(a) {
        let j = choose|j: int| 0 <= j < s.len() && s[j] == a;
        if j < s.len() - 1 {
            assert(s.drop_last()[j] == a);
        }
    }
    if s.drop_last().contains(a) {
        let j = choose|j: int| 0 <= j < s.drop_last().len() && s.drop_last()[j] == a;
        assert(s[j] == a);
    }
    if s.last() == a {
        assert(s[s.len() - 1] == a);
    }
}

proof fn lemma_deliveries_to(addrs: Seq<u64>, sender: u64, frame: Seq<u8>, a: u64)
    requires
        addrs.no_duplicates(),
    ensures
        deliveries(fan_out(addrs, sender, frame), a) == (if a != sender && addrs.contains(a) {
            1nat
        } else {
            0nat
        }),
    decreases addrs.len(),
{
    if addrs.len() > 0 {
        let init = addrs.drop_last();
        assert(init.no_duplicates());
        lemma_deliveries_to(init, sender, frame, a);
        lemma_contains_split(addrs, a);
        if addrs.last() == a {
            assert(!init.contains(a)) by {
                if init.contains(a) {
                    let j = choose|j: int| 0 <= j < init.len() && init[j] == a;
                    assert(addrs[j] == addrs[addrs.len() - 1]);
                }
            }
        }
        if addrs.last() != sender {
            let rest = fan_out(init, sender, frame);
            assert(rest.push((addrs.last(), frame)).drop_last() =~= rest);
        }
    }
}

proof fn lemma_fan_out_frames(addrs: Seq<u64>, sender: u64, frame: Seq<u8>)
    ensures
        forall|i: int| 0 <= i < fan_out(addrs, sender, frame).len() ==> (#[trigger] fan_out(addrs, sender, frame)[i]).1
            == frame && fan_out(addrs, sender, frame)[i].0 != sender,
    decreases addrs.len(),
{
    if addrs.len() > 0 {
        lemma_fan_out_frames(addrs.drop_last(), sender, frame);
        let rest = fan_out(addrs.drop_last(), sender, frame);
        if addrs.last() != sender {
            assert forall|i: int| 0 <= i < rest.len() + 1 implies (#[trigger] rest.push((addrs.last(), frame))[i]).1
                == frame && rest.push((addrs.last(), frame))[i].0 != sender by {
                if i < rest.len() {
                    assert(rest.push((addrs.last(), frame))[i] == rest[i]);
                }
            }
        }
    }
}

/// Broadcast exclusion: fanning out a frame from `sender` over a registry
/// without repeated addresses delivers exactly one copy, carrying the frame
/// unchanged, to every registered address other than the sender's, and none
/// to the sender or to any unregistered address.
pub proof fn lemma_broadcast_exclusion(addrs: Seq<u64>, sender: u64, frame: Seq<u8>)
    requires
        addrs.no_duplicates(),
    ensures
        forall|a: u64| #[trigger]
            deliveries(fan_out(addrs, sender, frame), a) == (if a != sender && addrs.contains(a) {
                1nat
            } else {
                0nat
            }),
        forall|i: int| 0 <= i < fan_out(addrs, sender, frame).len() ==> (#[trigger] fan_out(addrs, sender, frame)[i]).1
            == frame,
{
    assert forall|a: u64| #[trigger]
        deliveries(fan_out(addrs, sender, frame), a) == (if a != sender && addrs.contains(a) {
            1nat
        } else {
            0nat
        }) by {
        lemma_deliveries_to(addrs, sender, frame, a);
    }
    lemma_fan_out_frames(addrs, sender, frame);
}

/// Session teardown: once the session at `a` is removed from a registry
/// without repeated addresses, no later broadcast, from any sender, delivers
/// a frame to `a`.
pub proof fn lemma_teardown(addrs: Seq<u64>, a: u64, sender: u64, frame: Seq<u8>)
    requires
        addrs.no_duplicates(),
    ensures
        deliveries(fan_out(without(addrs, a), sender, frame), a) == 0,
{
    lemma_without_not_contains(addrs, a);
    lemma_without_no_duplicates(addrs, a);
    lemma_deliveries_to(without(addrs, a), sender, frame, a);
}

/// Clearing is idempotent: on an empty cell in bounds, a `SetCell` with an
/// empty identifier and a `Delete` both leave the grid as it was.
pub proof fn lemma_clear_empty_cell(g: GridView, x: u16, y: u16, d: u8)
    requires
        g.wf(),
        g.in_bounds(x, y),
        g.at(x, y) is None,
    ensures
        g.with_cell(x, y, placed(seq![], d)) == g,
        g.with_cell(x, y, None) == g,
{
    crate::grid::lemma_index_in_range(g.width, g.height, x, y);
    assert(g.with_cell(x, y, None).cells =~= g.cells);
    assert(g.with_cell(x, y, placed(seq![], d)).cells =~= g.cells);
}

/// Snapshot correctness: when each grid in `grids` is the one `handle_frame`
/// leaves after the matching frame in `frames`, from any senders and whatever
/// sessions are registered, the last grid, which a following `GetGrid` is
/// answered with, is the first grid with exactly those frames' mutations
/// applied in order.
pub proof fn lemma_snapshot_after_frames(v: ProtocolVersion, grids: Seq<GridView>, frames: Seq<Seq<u8>>)
    requires
        grids.len() == frames.len() + 1,
        forall|i: int| 0 <= i < frames.len() ==> #[trigger] grids[i + 1] == apply_message(
            grids[i],
            decode_frame(v, frames[i]),
        ),
    ensures
        grids.last() == apply_frames(v, grids[0], frames),
    decreases frames.len(),
{
    if frames.len() > 0 {
        let gs = grids.drop_last();
        let fs = frames.drop_last();
        assert forall|i: int| 0 <= i < fs.len() implies #[trigger] gs[i + 1] == apply_message(
            gs[i],
            decode_frame(v, fs[i]),
        ) by {
            assert(grids[i + 1] == apply_message(grids[i], decode_frame(v, frames[i])));
        }
        lemma_snapshot_after_frames(v, gs, fs);
        let k = frames.len() - 1;
        assert(grids[k + 1] == apply_message(grids[k], decode_frame(v, frames[k])));
    }
}

} // verus!
