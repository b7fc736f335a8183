use vstd::prelude::*;
use vstd::arithmetic::div_mod::lemma_fundamental_div_mod;
use crate::grid::{Grid, GridCell};
use crate::config::MAX_CELLS;
use crate::MAX_PLAYER_ID;

verus! {

/// Sentinel byte of an Available cell on the wire.
pub const BYTE_AVAILABLE: u8 = 255;

/// Sentinel byte of a Water cell on the wire.
pub const BYTE_WATER: u8 = 254;

/// Sentinel byte of a Mountain cell on the wire.
pub const BYTE_MOUNTAIN: u8 = 253;

/// The wire frame of one grid snapshot: the cells as one byte each,
/// compressed and hex-armored, with the dimensions needed to decode.
#[derive(Clone, Debug)]
pub struct GridMessage {
    pub grid: String,
    pub width: usize,
    pub height: usize,
}

/// One byte per cell: the owner id, or a sentinel for unclaimed, water
/// and mountain cells.
pub open spec fn spec_cell_byte(c: GridCell) -> u8 {
    match c {
        GridCell::Available => BYTE_AVAILABLE,
        GridCell::Water => BYTE_WATER,
        GridCell::Mountain => BYTE_MOUNTAIN,
        GridCell::PlayerId(id) => id as u8,
    }
}

/// The cell a wire byte stands for.
pub open spec fn spec_byte_cell(b: u8) -> GridCell {
    if b == BYTE_AVAILABLE {
        GridCell::Available
    } else if b == BYTE_WATER {
        GridCell::Water
    } else if b == BYTE_MOUNTAIN {
        GridCell::Mountain
    } else {
        GridCell::PlayerId(b as u32)
    }
}

/// The flattened byte image of a grid's cells.
pub open spec fn spec_grid_bytes(cells: Seq<GridCell>) -> Seq<u8> {
    Seq::new(cells.len(), |i: int| spec_cell_byte(cells[i]))
}

/// The cells a byte image stands for.
pub open spec fn spec_cells_of_bytes(b: Seq<u8>) -> Seq<GridCell> {
    Seq::new(b.len(), |i: int| spec_byte_cell(b[i]))
}

/// Every cell survives the byte encoding, because player ids stay below
/// the smallest sentinel.
pub proof fn lemma_cell_bytes_round_trip(cells: Seq<GridCell>)
    requires
        forall|i: int|
            0 <= i < cells.len() ==> ((#[trigger] cells[i]) matches GridCell::PlayerId(id) ==> 1
                <= id <= MAX_PLAYER_ID),
    ensures
        spec_cells_of_bytes(spec_grid_bytes(cells)) == cells,
{
    assert(spec_cells_of_bytes(spec_grid_bytes(cells)) =~= cells);
}

/// Upper-case hex digit of a nibble value.
pub open spec fn spec_hex_char(n: int) -> char {
    if n < 10 {
        ((48 + n) as u8) as char
    } else {
        ((55 + n) as u8) as char
    }
}

/// Upper-case hex armor: two digits per byte, high nibble first.
pub open spec fn spec_hex_upper(b: Seq<u8>) -> Seq<char> {
    Seq::new(
        2 * b.len(),
        |i: int|
            if i % 2 == 0 {
                spec_hex_char(b[i / 2] as int / 16)
            } else {
                spec_hex_char(b[i / 2] as int % 16)
            },
    )
}

/// Value of an upper-case hex digit, or -1.
pub open spec fn spec_nibble(c: char) -> int {
    let v = c as u32;
    if 48 <= v <= 57 {
        v - 48
    } else if 65 <= v <= 70 {
        v - 55
    } else {
        -1
    }
}

/// Parse upper-case hex text back into bytes: defined exactly on
/// even-length strings of upper-case hex digits.
pub open spec fn spec_hex_parse(s: Seq<char>) -> Option<Seq<u8>> {
    if s.len() % 2 == 0 && (forall|i: int| 0 <= i < s.len() ==> spec_nibble(#[trigger] s[i]) >= 0) {
        Some(
            Seq::new(
                s.len() / 2,
                |k: int| (spec_nibble(s[2 * k]) * 16 + spec_nibble(s[2 * k + 1])) as u8,
            ),
        )
    } else {
        None
    }
}

/// Hex armor loses nothing: parsing the armor of any bytes gives them back.
pub proof fn lemma_hex_round_trip(b: Seq<u8>)
    ensures
        spec_hex_parse(spec_hex_upper(b)) == Some(b),
{
    let s = spec_hex_upper(b);
    assert(s.len() == 2 * b.len());
    assert(s.len() % 2 == 0) by {
        assert((2 * b.len()) % 2 == 0) by (nonlinear_arith);
    }
    assert forall|i: int| 0 <= i < s.len() implies spec_nibble(#[trigger] s[i]) >= 0 by {
        assert(0 <= b[i / 2] as int / 16 < 16);
        assert(0 <= b[i / 2] as int % 16 < 16);
    }
    let parsed = spec_hex_parse(s).unwrap();
    assert forall|k: int| 0 <= k < b.len() implies parsed[k] == b[k] by {
        assert(s[2 * k] == spec_hex_char(b[k] as int / 16)) by {
            assert((2 * k) % 2 == 0 && (2 * k) / 2 == k);
        }
        assert(s[2 * k + 1] == spec_hex_char(b[k] as int % 16)) by {
            assert((2 * k + 1) % 2 == 1 && (2 * k + 1) / 2 == k);
        }
        assert(spec_nibble(spec_hex_char(b[k] as int / 16)) == b[k] as int / 16);
        assert(spec_nibble(spec_hex_char(b[k] as int % 16)) == b[k] as int % 16);
        lemma_fundamental_div_mod(b[k] as int, 16);
    }
    assert(parsed =~= b);
}

/// The zlib stream that the compressor produces for a byte string.
pub uninterp spec fn zlib_of(b: Seq<u8>) -> Seq<u8>;

/// What the zlib decompressor recovers from a byte string: the original
/// data of a valid stream, nothing otherwise.
pub uninterp spec fn unzlib_of(b: Seq<u8>) -> Option<Seq<u8>>;

/// Relies on flate2's ZlibEncoder: writing into a Vec sink either yields
/// the zlib stream of the input, from which the matching decoder recovers
/// exactly the input (zlib compression is lossless), or reports an error.
#[verifier::external_body]
fn zlib_compress(data: &Vec<u8>) -> (r: Option<Vec<u8>>)
    ensures
        r matches Some(v) ==> v@ == zlib_of(data@) && unzlib_of(v@) == Some(data@),
{
    let mut encoder = flate2::write::ZlibEncoder::new(Vec::new(), flate2::Compression::default());
    match std::io::Write::write_all(&mut encoder, data.as_slice()) {
        Ok(()) => encoder.finish().ok(),
        Err(_) => None,
    }
}

/// Relies on flate2's ZlibDecoder: reading a valid zlib stream to its end
/// yields the decompressed bytes; an invalid stream reports an error. The
/// result is a function of the input bytes alone.
#[verifier::external_body]
fn zlib_decompress(data: &Vec<u8>) -> (r: Option<Vec<u8>>)
    ensures
        r matches Some(v) ==> unzlib_of(data@) == Some(v@),
        r is None ==> unzlib_of(data@) is None,
{
    let mut out: Vec<u8> = Vec::new();
    let mut decoder = flate2::read::ZlibDecoder::new(data.as_slice());
    match std::io::Read::read_to_end(&mut decoder, &mut out) {
        Ok(_) => Some(out),
        Err(_) => None,
    }
}

/// Relies on base16ct's upper-case encoder: two upper-case hex digits per
/// input byte, high nibble first.
#[verifier::external_body]
fn hex_encode_upper(data: &Vec<u8>) -> (r: String)
    requires
        data@.len() <= usize::MAX / 2,
    ensures
        r@ == spec_hex_upper(data@),
{
    base16ct::upper::encode_string(data.as_slice())
}

/// Flatten a grid into its wire bytes.
fn encode_cells(grid: &Grid) -> (r: Vec<u8>)
    requires
        grid.wf(),
        forall|i: int|
            0 <= i < grid.cells@.len() ==> ((#[trigger] grid.cells@[i]) matches GridCell::PlayerId(
                id,
            ) ==> 1 <= id <= MAX_PLAYER_ID),
    ensures
        r@ == spec_grid_bytes(grid.cells@),
{
    let len: usize = grid.cells.len();
    let mut r: Vec<u8> = Vec::new();
    let mut i: usize = 0;
    while i < len
        invariant
            len == grid.cells@.len(),
            i <= len,
            forall|j: int|
                0 <= j < len ==> ((#[trigger] grid.cells@[j]) matches GridCell::PlayerId(id) ==> 1
                    <= id <= MAX_PLAYER_ID),
            r@.len() == i,
            forall|j: int| 0 <= j < i ==> r@[j] == spec_cell_byte(grid.cells@[j]),
        decreases len - i,
    {
        let c: GridCell = grid.cells[i];
        let b: u8 = match c {
            GridCell::Available => BYTE_AVAILABLE,
            GridCell::Water => BYTE_WATER,
            GridCell::Mountain => BYTE_MOUNTAIN,
            GridCell::PlayerId(id) => id as u8,
        };
        r.push(b);
        i = i + 1;
    }
    proof {
        assert(r@ =~= spec_grid_bytes(grid.cells@));
    }
    r
}

/// Snapshot a grid for the wire: one byte per cell, zlib-compressed, then
/// hex-armored and framed with the dimensions. Nothing comes back only if
/// the compressor fails or its output would overflow the hex armor.
pub fn serialize_grid(grid: &Grid) -> (r: Option<GridMessage>)
    requires
        grid.wf(),
        forall|i: int|
            0 <= i < grid.cells@.len() ==> ((#[trigger] grid.cells@[i]) matches GridCell::PlayerId(
                id,
            ) ==> 1 <= id <= MAX_PLAYER_ID),
    ensures
        r matches Some(msg) ==> {
            &&& msg.width == grid.width
            &&& msg.height == grid.height
            &&& msg.grid@ == spec_hex_upper(zlib_of(spec_grid_bytes(grid.cells@)))
            &&& unzlib_of(zlib_of(spec_grid_bytes(grid.cells@))) == Some(
                spec_grid_bytes(grid.cells@),
            )
        },
{
    let bytes: Vec<u8> = encode_cells(grid);
    let compressed: Vec<u8> = match zlib_compress(&bytes) {
        Some(v) => v,
        None => {
            return None;
        },
    };
    if compressed.len() > usize::MAX / 2 {
        return None;
    }
    let armored: String = hex_encode_upper(&compressed);
    Some(GridMessage { grid: armored, width: grid.width, height: grid.height })
}

/// Parse hex armor back into bytes; exact inverse of the armor on its
/// image, nothing on anything else.
fn hex_decode_upper(s: &str) -> (r: Option<Vec<u8>>)
    ensures
        r matches Some(v) ==> spec_hex_parse(s@) == Some(v@),
        r is None ==> spec_hex_parse(s@) is None,
{
    let len: usize = s.unicode_len();
    if len % 2 != 0 {
        return None;
    }
    let mut i: usize = 0;
    while i < len
        invariant
            len == s@.len(),
            i <= len,
            forall|j: int| 0 <= j < i ==> spec_nibble(#[trigger] s@[j]) >= 0,
        decreases len - i,
    {
        let c: char = s.get_char(i);
        let v: u32 = c as u32;
        if !(48 <= v && v <= 57 || 65 <= v && v <= 70) {
            proof {
                assert(spec_nibble(s@[i as int]) < 0);
            }
            return None;
        }
        i = i + 1;
    }
    let half: usize = len / 2;
    let ghost parsed = spec_hex_parse(s@).unwrap();
    let mut out: Vec<u8> = Vec::new();
    let mut k: usize = 0;
    while k < half
        invariant
            len == s@.len(),
            len % 2 == 0,
            half == len / 2,
            k <= half,
            forall|j: int| 0 <= j < len ==> spec_nibble(#[trigger] s@[j]) >= 0,
            parsed == spec_hex_parse(s@).unwrap(),
            spec_hex_parse(s@) is Some,
            parsed.len() == half,
            out@.len() == k,
            forall|j: int| 0 <= j < k ==> out@[j] == parsed[j],
        decreases half - k,
    {
        let hi: char = s.get_char(2 * k);
        let lo: char = s.get_char(2 * k + 1);
        let hv: u32 = hi as u32;
        let lv: u32 = lo as u32;
        let hn: u32 = if hv <= 57 {
            hv - 48
        } else {
            hv - 55
        };
        let ln: u32 = if lv <= 57 {
            lv - 48
        } else {
            lv - 55
        };
        proof {
            assert(spec_nibble(s@[2 * k as int]) >= 0);
            assert(spec_nibble(s@[2 * k + 1int]) >= 0);
            assert((2 * k as int) / 2 == k as int && (2 * k + 1int) / 2 == k as int);
        }
        let b: u8 = (hn * 16 + ln) as u8;
        out.push(b);
        k = k + 1;
    }
    proof {
        assert(out@ =~= parsed);
    }
    Some(out)
}

/// Decode a wire frame back into a grid: strip the hex armor, decompress,
/// and check that exactly one byte per configured cell came out. Any
/// malformed armor, invalid stream, impossible dimensions or length
/// mismatch yields nothing.
pub fn decode_grid(msg: &GridMessage) -> (r: Option<Grid>)
    ensures
        r matches Some(g) ==> {
            &&& g.wf()
            &&& g.width == msg.width
            &&& g.height == msg.height
            &&& spec_hex_parse(msg.grid@) matches Some(z)
            &&& unzlib_of(z) matches Some(bytes)
            &&& g.cells@ == spec_cells_of_bytes(bytes)
        },
        (spec_hex_parse(msg.grid@) matches Some(z) && unzlib_of(z) matches Some(bytes) && 1
            <= msg.width && 1 <= msg.height && msg.width * msg.height <= MAX_CELLS && bytes.len()
            == msg.width * msg.height) ==> r is Some,
{
    if msg.width < 1 || msg.height < 1 {
        return None;
    }
    if msg.width > MAX_CELLS / msg.height {
        proof {
            assert(msg.width * msg.height > MAX_CELLS) by (nonlinear_arith)
                requires
                    msg.width > MAX_CELLS as int / msg.height as int,
                    1 <= msg.height,
            ;
        }
        return None;
    }
    proof {
        assert(msg.width * msg.height <= MAX_CELLS) by (nonlinear_arith)
            requires
                msg.width <= MAX_CELLS as int / msg.height as int,
                1 <= msg.height,
                MAX_CELLS == 1000000,
        ;
    }
    let n: usize = msg.width * msg.height;
    let z: Vec<u8> = match hex_decode_upper(msg.grid.as_str()) {
        Some(v) => v,
        None => {
            return None;
        },
    };
    let bytes: Vec<u8> = match zlib_decompress(&z) {
        Some(v) => v,
        None => {
            return None;
        },
    };
    if bytes.len() != n {
        return None;
    }
    let mut cells: Vec<GridCell> = Vec::new();
    let mut i: usize = 0;
    while i < n
        invariant
            i <= n,
            n == bytes@.len(),
            cells@.len() == i,
            forall|j: int| 0 <= j < i ==> cells@[j] == spec_byte_cell(bytes@[j]),
        decreases n - i,
    {
        let b: u8 = bytes[i];
        let c: GridCell = if b == BYTE_AVAILABLE {
            GridCell::Available
        } else if b == BYTE_WATER {
            GridCell::Water
        } else if b == BYTE_MOUNTAIN {
            GridCell::Mountain
        } else {
            GridCell::PlayerId(b as u32)
        };
        cells.push(c);
        i = i + 1;
    }
    proof {
        assert(cells@ =~= spec_cells_of_bytes(bytes@));
    }
    Some(Grid { width: msg.width, height: msg.height, cells })
}

/// The round trip is the identity: a snapshot of any valid grid, decoded,
/// gives back every cell's tag exactly. The compressed stream recovers
/// (second premise, supplied by the compressor's contract), the hex armor
/// parses back to it, and the byte image maps back cell for cell.
pub proof fn lemma_grid_round_trip(cells: Seq<GridCell>)
    requires
        forall|i: int|
            0 <= i < cells.len() ==> ((#[trigger] cells[i]) matches GridCell::PlayerId(id) ==> 1
                <= id <= MAX_PLAYER_ID),
        unzlib_of(zlib_of(spec_grid_bytes(cells))) == Some(spec_grid_bytes(cells)),
    ensures
        spec_hex_parse(spec_hex_upper(zlib_of(spec_grid_bytes(cells)))) == Some(
            zlib_of(spec_grid_bytes(cells)),
        ),
        spec_cells_of_bytes(unzlib_of(zlib_of(spec_grid_bytes(cells))).unwrap()) == cells,
{
    lemma_hex_round_trip(zlib_of(spec_grid_bytes(cells)));
    lemma_cell_bytes_round_trip(cells);
}

} // verus!
