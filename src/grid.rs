use vstd::prelude::*;
use crate::binary_io::{
    be_bytes, lemma_be_field, lemma_pow256_8, lemma_string_round_trip, lemma_string_truncated, string_decode,
    string_encode, string_fits, InputStream, IOAble, OutputStream,
};
use vstd::utf8::encode_utf8;

verus! {

/// What a cell holds: nothing, or a placed item's identifier and orientation.
pub type CellView = Option<(Seq<char>, u8)>;

pub ghost struct GridView {
    pub width: u16,
    pub height: u16,
    pub cells: Seq<CellView>,
}

pub open spec fn cell_view(c: Option<(String, u8)>) -> CellView {
    match c {
        Some((id, d)) => Some((id@, d)),
        None => None,
    }
}

/// Index of `(x, y)` in the row-major cell sequence.
pub open spec fn cell_index(width: u16, x: u16, y: u16) -> int {
    y as int * width as int + x as int
}

/// The world's grid: `width * height` cells in row-major order.
#[derive(Clone, Debug)]
pub struct Grid {
    pub width: u16,
    pub height: u16,
    pub cells: Vec<Option<(String, u8)>>,
}

impl View for Grid {
    type V = GridView;

    open spec fn view(&self) -> GridView {
        GridView { width: self.width, height: self.height, cells: self.cells@.map_values(|c| cell_view(c)) }
    }
}

impl GridView {
    pub open spec fn wf(self) -> bool {
        self.cells.len() == self.width as int * self.height as int
    }

    pub open spec fn in_bounds(self, x: u16, y: u16) -> bool {
        x < self.width && y < self.height
    }

    pub open spec fn at(self, x: u16, y: u16) -> CellView {
        self.cells[cell_index(self.width, x, y)]
    }

    /// The grid with the cell at `(x, y)` replaced by `c`.
    pub open spec fn with_cell(self, x: u16, y: u16, c: CellView) -> GridView {
        GridView { cells: self.cells.update(cell_index(self.width, x, y), c), ..self }
    }

    /// Every occupied cell has a non-empty identifier.
    pub open spec fn ids_nonempty(self) -> bool {
        forall|i: int| 0 <= i < self.cells.len() ==> (#[trigger] self.cells[i] matches Some((id, _)) ==> id.len() > 0)
    }
}

pub proof fn lemma_index_in_range(width: u16, height: u16, x: u16, y: u16)
    requires
        x < width,
        y < height,
    ensures
        0 <= cell_index(width, x, y) < width as int * height as int,
{
    assert((y as int) * (width as int) + (x as int) < (width as int) * (height as int)) by (nonlinear_arith)
        requires
            x < width,
            y < height,
    ;
    assert(0 <= (y as int) * (width as int)) by (nonlinear_arith);
}

fn cell_offset(width: u16, height: u16, x: u16, y: u16) -> (r: usize)
    requires
        x < width,
        y < height,
    ensures
        r as int == cell_index(width, x, y),
        r < (width as int) * (height as int),
{
    proof {
        lemma_index_in_range(width, height, x, y);
        assert((width as int) * (height as int) <= 0xffff_ffff) by (nonlinear_arith)
            requires
                width <= 0xffff,
                height <= 0xffff,
        ;
        assert(0 <= (y as int) * (width as int)) by (nonlinear_arith);
    }
    (y as u32 * width as u32 + x as u32) as usize
}

impl Grid {
    /// A grid of the given size with every cell empty.
    pub fn new(width: u16, height: u16) -> (r: Self)
        ensures
            r@.wf(),
            r@.width == width,
            r@.height == height,
            forall|i: int| 0 <= i < r@.cells.len() ==> #[trigger] r@.cells[i] is None,
    {
        assert((width as int) * (height as int) <= 0xffff_ffff) by (nonlinear_arith)
            requires
                width <= 0xffff,
                height <= 0xffff,
        ;
        let n: usize = (width as u32 * height as u32) as usize;
        let mut cells: Vec<Option<(String, u8)>> = Vec::new();
        let mut i: usize = 0;
        while i < n
            invariant
                i <= n,
                cells@.len() == i,
                forall|j: int| 0 <= j < i ==> #[trigger] cells@[j] is None,
            decreases n - i,
        {
            cells.push(None);
            i = i + 1;
        }
        Grid { width, height, cells }
    }

    /// The cell at `(x, y)`.
    pub fn get(&self, x: u16, y: u16) -> (r: &Option<(String, u8)>)
        requires
            self@.wf(),
            self@.in_bounds(x, y),
        ensures
            cell_view(*r) == self@.at(x, y),
    {
        &self.cells[cell_offset(self.width, self.height, x, y)]
    }

    /// A deep copy of the grid.
    pub fn duplicate(&self) -> (r: Grid)
        ensures
            r@ == self@,
    {
        let mut cells: Vec<Option<(String, u8)>> = Vec::new();
        let mut i: usize = 0;
        while i < self.cells.len()
            invariant
                i <= self.cells@.len(),
                cells@.map_values(|c| cell_view(c)) == self.cells@.take(i as int).map_values(|c| cell_view(c)),
            decreases self.cells@.len() - i,
        {
            let c = match &self.cells[i] {
                Some((id, d)) => Some((id.clone(), *d)),
                None => None,
            };
            assert(cell_view(c) == cell_view(self.cells@[i as int]));
            let ghost prev = cells@;
            cells.push(c);
            assert(cells@.map_values(|c| cell_view(c)) =~= prev.map_values(|c| cell_view(c)).push(cell_view(c)));
            assert(self.cells@.take(i + 1).map_values(|c| cell_view(c)) =~= self.cells@.take(i as int).map_values(
                |c| cell_view(c),
            ).push(cell_view(self.cells@[i as int])));
            assert(cells@.map_values(|c| cell_view(c)) =~= self.cells@.take(i + 1).map_values(|c| cell_view(c)));
            i = i + 1;
        }
        assert(self.cells@.take(i as int) =~= self.cells@);
        let r = Grid { width: self.width, height: self.height, cells };
        assert(r@.cells =~= self@.cells);
        r
    }

    /// Replaces the cell at `(x, y)`.
    pub fn set(&mut self, x: u16, y: u16, cell: Option<(String, u8)>)
        requires
            old(self)@.wf(),
            old(self)@.in_bounds(x, y),
        ensures
            final(self)@ == old(self)@.with_cell(x, y, cell_view(cell)),
            final(self)@.wf(),
    {
        let i = cell_offset(self.width, self.height, x, y);
        self.cells.set(i, cell);
        assert(self@.cells =~= old(self)@.with_cell(x, y, cell_view(cell)).cells);
    }
}

/// A cell is an identifier string (empty for an empty cell) and an orientation byte.
pub open spec fn cell_encode(c: CellView) -> Seq<u8> {
    match c {
        Some((id, d)) => string_encode(id).push(d),
        None => string_encode(seq![]).push(0u8),
    }
}

/// An empty identifier reads back as an empty cell.
pub open spec fn cell_decode(b: Seq<u8>) -> Option<(CellView, nat)> {
    match string_decode(b) {
        Some((id, n)) => if b.len() > n {
            Some((if id.len() == 0 { None } else { Some((id, b[n as int])) }, n + 1))
        } else {
            None
        },
        None => None,
    }
}

pub open spec fn cells_encode(cs: Seq<CellView>) -> Seq<u8>
    decreases cs.len(),
{
    if cs.len() == 0 {
        seq![]
    } else {
        cells_encode(cs.drop_last()) + cell_encode(cs.last())
    }
}

pub open spec fn cells_decode(b: Seq<u8>, count: nat) -> Option<(Seq<CellView>, nat)>
    decreases count,
{
    if count == 0 {
        Some((seq![], 0))
    } else {
        match cell_decode(b) {
            Some((c, n)) => if n <= b.len() {
                match cells_decode(b.skip(n as int), (count - 1) as nat) {
                    Some((cs, k)) => Some((seq![c] + cs, n + k)),
                    None => None,
                }
            } else {
                None
            },
            None => None,
        }
    }
}

fn read_cell(stream: &mut InputStream) -> (r: Option<Option<(String, u8)>>)
    ensures
        match cell_decode(old(stream).bytes@) {
            Some((c, n)) => r matches Some(v) && cell_view(v) == c && n <= old(stream).bytes@.len()
                && final(stream).bytes@ == old(stream).bytes@.skip(n as int),
            None => r is None,
        },
{
    let ghost start = stream.bytes@;
    let id = match stream.read::<String>() {
        Some(id) => id,
        None => return None,
    };
    let ghost mid = stream.bytes@;
    let direction = match stream.read::<u8>() {
        Some(d) => d,
        None => return None,
    };
    assert(mid.skip(1) =~= start.skip((string_decode(start)->0).1 + 1int));
    if id.as_str().is_empty() {
        Some(None)
    } else {
        Some(Some((id, direction)))
    }
}

fn write_cell(c: &Option<(String, u8)>, stream: &mut OutputStream)
    ensures
        final(stream).bytes@ == old(stream).bytes@ + cell_encode(cell_view(*c)),
{
    match c {
        Some((id, direction)) => {
            id.write_to(stream);
            direction.write_to(stream);
        },
        None => {
            let empty: &str = "";
            proof {
                reveal_strlit("");
            }
            empty.write_to(stream);
            0u8.write_to(stream);
        },
    }
    assert(stream.bytes@ =~= old(stream).bytes@ + cell_encode(cell_view(*c)));
}

impl IOAble for Grid {
    type Model = GridView;

    open spec fn model(&self) -> GridView {
        self@
    }

    /// Width and height, the cell count as four bytes, then each cell. A
    /// count other than `width * height` does not decode.
    open spec fn encode(g: GridView) -> Seq<u8> {
        be_header(g) + cells_encode(g.cells)
    }

    open spec fn decode(b: Seq<u8>) -> Option<(GridView, nat)> {
        match (<u16 as IOAble>::decode(b), <u16 as IOAble>::decode(b.skip(2)), <u32 as IOAble>::decode(b.skip(4))) {
            (Some((w, _)), Some((h, _)), Some((len, _))) => if len as int != w as int * h as int {
                None
            } else {
                match cells_decode(b.skip(8), len as nat) {
                    Some((cs, n)) => Some((GridView { width: w, height: h, cells: cs }, 8 + n)),
                    None => None,
                }
            },
            _ => None,
        }
    }

    fn read_from(stream: &mut InputStream) -> (r: Option<Grid>) {
        let ghost start = stream.bytes@;
        let width = match stream.read::<u16>() {
            Some(v) => v,
            None => return None,
        };
        assert(stream.bytes@ =~= start.skip(2));
        let height = match stream.read::<u16>() {
            Some(v) => v,
            None => return None,
        };
        assert(stream.bytes@ =~= start.skip(4));
        let len = match stream.read::<u32>() {
            Some(v) => v,
            None => return None,
        };
        assert(stream.bytes@ =~= start.skip(8));
        assert((width as int) * (height as int) <= 0xffff_ffff) by (nonlinear_arith)
            requires
                width <= 0xffff,
                height <= 0xffff,
        ;
        if len as u64 != width as u64 * height as u64 {
            return None;
        }
        let mut cells: Vec<Option<(String, u8)>> = Vec::new();
        let mut i: u32 = 0;
        let ghost mut consumed: int = 0;
        assert(cells@.map_values(|c| cell_view(c)) + seq![] =~= cells@.map_values(|c| cell_view(c)));
        while i < len
            invariant
                start == old(stream).bytes@,
                <u16 as IOAble>::decode(start) == Some((width, 2nat)),
                <u16 as IOAble>::decode(start.skip(2)) == Some((height, 2nat)),
                <u32 as IOAble>::decode(start.skip(4)) == Some((len, 4nat)),
                len as int == width as int * height as int,
                i <= len,
                0 <= consumed,
                8 + consumed <= start.len(),
                stream.bytes@ == start.skip(8 + consumed),
                cells_decode(start.skip(8), len as nat) == match cells_decode(stream.bytes@, (len - i) as nat) {
                    Some((cs, n)) => Some((cells@.map_values(|c| cell_view(c)) + cs, (consumed + n) as nat)),
                    None => None,
                },
            decreases len - i,
        {
            let ghost cur = stream.bytes@;
            let ghost before = cells@.map_values(|c| cell_view(c));
            match read_cell(stream) {
                Some(c) => {
                    cells.push(c);
                    proof {
                        let n = (cell_decode(cur)->0).1;
                        assert(cells@.map_values(|c| cell_view(c)) =~= before.push(cell_view(c)));
                        assert(cur.skip(n as int) =~= start.skip(8 + consumed + n));
                        match cells_decode(cur.skip(n as int), (len - i - 1) as nat) {
                            Some((cs, k)) => {
                                assert(before + (seq![cell_view(c)] + cs) =~= cells@.map_values(|c| cell_view(c)) + cs);
                            },
                            None => {},
                        }
                        consumed = consumed + n;
                    }
                },
                None => {
                    assert(cells_decode(cur, (len - i) as nat) is None);
                    return None;
                },
            }
            i = i + 1;
        }
        assert(cells@.map_values(|c| cell_view(c)) + seq![] =~= cells@.map_values(|c| cell_view(c)));
        Some(Grid { width, height, cells })
    }

    fn write_to(&self, stream: &mut OutputStream) {
        self.width.write_to(stream);
        self.height.write_to(stream);
        stream.write_be(self.cells.len() as u64, 4);
        let ghost head = stream.bytes@;
        let mut i: usize = 0;
        while i < self.cells.len()
            invariant
                i <= self.cells@.len(),
                stream.bytes@ == head + cells_encode(self.cells@.take(i as int).map_values(|c| cell_view(c))),
            decreases self.cells@.len() - i,
        {
            write_cell(&self.cells[i], stream);
            assert(self.cells@.take(i + 1).map_values(|c| cell_view(c)).drop_last()
                =~= self.cells@.take(i as int).map_values(|c| cell_view(c)));
            i = i + 1;
        }
        assert(self.cells@.take(i as int) =~= self.cells@);
        assert(stream.bytes@ =~= old(stream).bytes@ + Self::encode(self.model()));
    }
}

/// The fixed-width fields at the front of an encoded grid.
pub open spec fn be_header(g: GridView) -> Seq<u8> {
    be_bytes(g.width as nat, 2) + be_bytes(g.height as nat, 2) + be_bytes(g.cells.len(), 4)
}

/// A cell that reads back as itself: an occupied cell has a non-empty
/// identifier, and every identifier fits its length prefix.
pub open spec fn cell_fits(c: CellView) -> bool {
    match c {
        Some((id, _)) => id.len() > 0 && string_fits(id),
        None => true,
    }
}

/// A grid that reads back as itself.
pub open spec fn grid_fits(g: GridView) -> bool {
    &&& g.wf()
    &&& g.cells.len() < 0x1_0000_0000
    &&& forall|i: int| 0 <= i < g.cells.len() ==> cell_fits(#[trigger] g.cells[i])
}

proof fn lemma_empty_id()
    ensures
        encode_utf8(Seq::<char>::empty()) == Seq::<u8>::empty(),
        string_fits(Seq::<char>::empty()),
{
}

pub proof fn lemma_cell_round_trip(c: CellView, rest: Seq<u8>)
    requires
        cell_fits(c),
    ensures
        cell_decode(cell_encode(c) + rest) == Some((c, cell_encode(c).len())),
{
    lemma_empty_id();
    let (id, d) = match c {
        Some((id, d)) => (id, d),
        None => (Seq::<char>::empty(), 0u8),
    };
    assert(cell_encode(c) =~= string_encode(id).push(d));
    lemma_string_round_trip(id, seq![d] + rest);
    assert(cell_encode(c) + rest =~= string_encode(id) + (seq![d] + rest));
    assert((cell_encode(c) + rest)[string_encode(id).len() as int] == d);
}

pub proof fn lemma_cell_truncated(c: CellView, k: nat)
    requires
        cell_fits(c),
        k < cell_encode(c).len(),
    ensures
        cell_decode(cell_encode(c).take(k as int)) is None,
{
    lemma_empty_id();
    let (id, d) = match c {
        Some((id, d)) => (id, d),
        None => (Seq::<char>::empty(), 0u8),
    };
    let se = string_encode(id);
    assert(cell_encode(c) =~= se.push(d));
    if k < se.len() {
        assert(cell_encode(c).take(k as int) =~= se.take(k as int));
        lemma_string_truncated(id, k);
    } else {
        assert(cell_encode(c).take(k as int) =~= se + Seq::<u8>::empty());
        lemma_string_round_trip(id, Seq::<u8>::empty());
    }
}

proof fn lemma_cells_encode_front(cs: Seq<CellView>)
    requires
        cs.len() > 0,
    ensures
        cells_encode(cs) == cell_encode(cs[0]) + cells_encode(cs.skip(1)),
    decreases cs.len(),
{
    if cs.len() == 1 {
        assert(cs.drop_last() =~= Seq::<CellView>::empty());
        assert(cs.skip(1) =~= Seq::<CellView>::empty());
        assert(cells_encode(cs) =~= cell_encode(cs[0]) + cells_encode(cs.skip(1)));
    } else {
        lemma_cells_encode_front(cs.drop_last());
        assert(cs.drop_last().skip(1) =~= cs.skip(1).drop_last());
        assert(cs.drop_last()[0] == cs[0]);
        assert(cs.skip(1).last() == cs.last());
        assert(cells_encode(cs) =~= cell_encode(cs[0]) + cells_encode(cs.skip(1)));
    }
}

pub proof fn lemma_cells_round_trip(cs: Seq<CellView>, rest: Seq<u8>)
    requires
        forall|i: int| 0 <= i < cs.len() ==> cell_fits(#[trigger] cs[i]),
    ensures
        cells_decode(cells_encode(cs) + rest, cs.len()) == Some((cs, cells_encode(cs).len())),
    decreases cs.len(),
{
    if cs.len() == 0 {
        assert(cells_encode(cs) + rest =~= rest);
        assert(cs =~= seq![]);
    } else {
        lemma_cells_encode_front(cs);
        let e0 = cell_encode(cs[0]);
        let tail = cs.skip(1);
        let b = cells_encode(cs) + rest;
        assert(b =~= e0 + (cells_encode(tail) + rest));
        assert(cell_fits(cs[0]));
        lemma_cell_round_trip(cs[0], cells_encode(tail) + rest);
        assert(b.skip(e0.len() as int) =~= cells_encode(tail) + rest);
        assert forall|i: int| 0 <= i < tail.len() implies cell_fits(#[trigger] tail[i]) by {
            assert(tail[i] == cs[i + 1]);
        }
        lemma_cells_round_trip(tail, rest);
        assert(seq![cs[0]] + tail =~= cs);
    }
}

pub proof fn lemma_cells_truncated(cs: Seq<CellView>, k: nat)
    requires
        forall|i: int| 0 <= i < cs.len() ==> cell_fits(#[trigger] cs[i]),
        k < cells_encode(cs).len(),
    ensures
        cells_decode(cells_encode(cs).take(k as int), cs.len()) is None,
    decreases cs.len(),
{
    if cs.len() == 0 {
        assert(cells_encode(cs).len() == 0);
    } else {
        lemma_cells_encode_front(cs);
        let e0 = cell_encode(cs[0]);
        let tail = cs.skip(1);
        let b = cells_encode(cs).take(k as int);
        assert(cell_fits(cs[0]));
        if k < e0.len() {
            assert(b =~= e0.take(k as int));
            lemma_cell_truncated(cs[0], k);
        } else {
            let t = cells_encode(tail).take(k - e0.len());
            assert(b =~= e0 + t);
            lemma_cell_round_trip(cs[0], t);
            assert(b.skip(e0.len() as int) =~= t);
            assert forall|i: int| 0 <= i < tail.len() implies cell_fits(#[trigger] tail[i]) by {
                assert(tail[i] == cs[i + 1]);
            }
            lemma_cells_truncated(tail, (k - e0.len()) as nat);
        }
    }
}

/// An encoded grid decodes to itself, taking exactly its own bytes.
pub proof fn lemma_grid_round_trip(g: GridView, rest: Seq<u8>)
    requires
        grid_fits(g),
    ensures
        <Grid as IOAble>::decode(<Grid as IOAble>::encode(g) + rest) == Some((g, <Grid as IOAble>::encode(g).len())),
{
    lemma_pow256_8();
    let len = g.cells.len();
    let c = cells_encode(g.cells) + rest;
    let b = <Grid as IOAble>::encode(g) + rest;
    assert(b =~= be_bytes(g.width as nat, 2) + (be_bytes(g.height as nat, 2) + (be_bytes(len, 4) + c)));
    lemma_be_field(g.width as nat, 2, be_bytes(g.height as nat, 2) + (be_bytes(len, 4) + c));
    assert(b.skip(2) =~= be_bytes(g.height as nat, 2) + (be_bytes(len, 4) + c));
    lemma_be_field(g.height as nat, 2, be_bytes(len, 4) + c);
    assert(b.skip(4) =~= be_bytes(len, 4) + c);
    lemma_be_field(len, 4, c);
    assert(b.skip(8) =~= c);
    lemma_cells_round_trip(g.cells, rest);
}

/// Every proper prefix of an encoded grid fails to decode.
pub proof fn lemma_grid_truncated(g: GridView, k: nat)
    requires
        grid_fits(g),
        k < <Grid as IOAble>::encode(g).len(),
    ensures
        <Grid as IOAble>::decode(<Grid as IOAble>::encode(g).take(k as int)) is None,
{
    lemma_pow256_8();
    let len = g.cells.len();
    let e = <Grid as IOAble>::encode(g);
    let b = e.take(k as int);
    crate::binary_io::lemma_be_bytes_len(g.width as nat, 2);
    crate::binary_io::lemma_be_bytes_len(g.height as nat, 2);
    crate::binary_io::lemma_be_bytes_len(len, 4);
    if k >= 8 {
        let t = cells_encode(g.cells).take(k - 8);
        assert(b =~= be_bytes(g.width as nat, 2) + (be_bytes(g.height as nat, 2) + (be_bytes(len, 4) + t)));
        lemma_be_field(g.width as nat, 2, be_bytes(g.height as nat, 2) + (be_bytes(len, 4) + t));
        assert(b.skip(2) =~= be_bytes(g.height as nat, 2) + (be_bytes(len, 4) + t));
        lemma_be_field(g.height as nat, 2, be_bytes(len, 4) + t);
        assert(b.skip(4) =~= be_bytes(len, 4) + t);
        lemma_be_field(len, 4, t);
        assert(b.skip(8) =~= t);
        lemma_cells_truncated(g.cells, (k - 8) as nat);
    }
}

proof fn lemma_cells_decode_shape(b: Seq<u8>, count: nat)
    ensures
        cells_decode(b, count) matches Some((cs, _)) ==> cs.len() == count && forall|i: int|
            0 <= i < cs.len() ==> (#[trigger] cs[i] matches Some((id, _)) ==> id.len() > 0),
    decreases count,
{
    if count > 0 {
        if let Some((c, n)) = cell_decode(b) {
            if n <= b.len() {
                lemma_cells_decode_shape(b.skip(n as int), (count - 1) as nat);
                if let Some((cs, k)) = cells_decode(b.skip(n as int), (count - 1) as nat) {
                    let all = seq![c] + cs;
                    assert forall|i: int| 0 <= i < all.len() implies (#[trigger] all[i] matches Some((id, _))
                        ==> id.len() > 0) by {
                        if i > 0 {
                            assert(all[i] == cs[i - 1]);
                        }
                    }
                }
            }
        }
    }
}

/// A decoded grid is well formed: it has `width * height` cells, and no
/// occupied cell has an empty identifier.
pub proof fn lemma_decoded_grid_wf(b: Seq<u8>)
    ensures
        <Grid as IOAble>::decode(b) matches Some((g, _)) ==> g.wf() && g.ids_nonempty(),
{
    if let (Some((w, _)), Some((h, _)), Some((len, _))) = (
        <u16 as IOAble>::decode(b),
        <u16 as IOAble>::decode(b.skip(2)),
        <u32 as IOAble>::decode(b.skip(4)),
    ) {
        lemma_cells_decode_shape(b.skip(8), len as nat);
    }
}

} // verus!
