//! Windowed hex rendering: the hex and ASCII text of an arbitrary row range
//! is computed on demand, without ever materializing the whole buffer as
//! text. A row covers sixteen bytes; offsets are zero-padded eight-digit
//! lowercase hex addresses, row bytes are two lowercase hex digits joined by
//! single spaces, and the ASCII companion shows graphic characters and the
//! space as they are, with a dot for every other byte.
use vstd::prelude::*;

use vstd::arithmetic::div_mod::lemma_fundamental_div_mod;
use vstd::arithmetic::div_mod::lemma_fundamental_div_mod_converse;
use vstd::arithmetic::div_mod::lemma_mod_bound;
use vstd::arithmetic::mul::lemma_mul_inequality;

use crate::ascii::{ascii_to_string, chars_of_bytes};
use crate::Event;

verus! {

/// Bytes shown per row.
pub const BYTES_PER_ROW: usize = 16;

/// The ASCII code of the lowercase hex digit with value `n`.
pub open spec fn hex_digit(n: int) -> u8 {
    if n < 10 {
        (0x30 + n) as u8
    } else {
        (0x57 + n) as u8
    }
}

/// Executable form of `hex_digit`.
fn hex_digit_of(n: u8) -> (r: u8)
    requires
        n < 16,
    ensures
        r == hex_digit(n as int),
        r < 128,
{
    if n < 10 {
        0x30 + n
    } else {
        0x57 + n
    }
}

/// The big-endian lowercase hex digits of `v`, zero-padded to at least `d`
/// digits (ASCII codes).
pub open spec fn hex_rep(v: nat, d: nat) -> Seq<u8>
    decreases v, d,
{
    if v < 16 && d <= 1 {
        seq![hex_digit(v as int)]
    } else {
        hex_rep(v / 16, if d == 0 {
            0
        } else {
            (d - 1) as nat
        }) + seq![hex_digit(v as int % 16)]
    }
}

/// Hex digits are ASCII.
proof fn lemma_hex_rep_ascii(v: nat, d: nat)
    ensures
        forall|k: int| 0 <= k < hex_rep(v, d).len() ==> #[trigger] hex_rep(v, d)[k] < 128,
    decreases v, d,
{
    if v < 16 && d <= 1 {
    } else {
        let dd: nat = if d == 0 {
            0
        } else {
            (d - 1) as nat
        };
        lemma_hex_rep_ascii(v / 16, dd);
        let whole = hex_rep(v, d);
        let head = hex_rep(v / 16, dd);
        assert forall|k: int| 0 <= k < whole.len() implies #[trigger] whole[k] < 128 by {
            if k < head.len() {
                assert(whole[k] == head[k]);
            }
        }
    }
}

/// The hex text of a row's bytes: two hex digits per byte, single spaces in
/// between (ASCII codes).
pub open spec fn hex_line(s: Seq<u8>) -> Seq<u8>
    decreases s.len(),
{
    if s.len() == 0 {
        Seq::empty()
    } else if s.len() == 1 {
        hex_rep(s[0] as nat, 2)
    } else {
        hex_line(s.drop_last()) + seq![0x20u8] + hex_rep(s.last() as nat, 2)
    }
}

/// What the ASCII companion column shows for a byte: graphic characters and
/// the space stand as they are, every other byte as a dot.
pub open spec fn display_byte(b: u8) -> u8 {
    if 0x20 <= b <= 0x7e {
        b
    } else {
        0x2eu8
    }
}

/// The ASCII companion text of a row's bytes.
pub open spec fn ascii_line(s: Seq<u8>) -> Seq<u8> {
    s.map_values(|b: u8| display_byte(b))
}

/// The number of rows of a buffer: sixteen bytes per row, the last row
/// possibly shorter.
pub open spec fn row_count_spec(len: nat) -> nat {
    (len + 15) / 16
}

/// The bytes of row `r`: sixteen bytes starting at `r * 16`, clipped at the
/// end of the buffer.
pub open spec fn row_bytes(s: Seq<u8>, r: int) -> Seq<u8> {
    let start = r * 16;
    let end = if start + 16 <= s.len() {
        start + 16
    } else {
        s.len() as int
    };
    s.subrange(start, end)
}

/// One rendered row: its starting address and the formatted texts.
pub struct HexRow {
    /// The row's starting file address.
    pub offset: usize,
    /// Zero-padded eight-digit lowercase hex text of `offset`.
    pub offset_text: String,
    /// Space-joined two-digit lowercase hex values of the row's bytes.
    pub hex_text: String,
    /// The row's bytes as characters, a dot for non-graphic bytes.
    pub ascii_text: String,
}

/// `rows` renders rows `row_start..row_end` of buffer `s`.
pub open spec fn rows_rendered(rows: Seq<HexRow>, s: Seq<u8>, row_start: int, row_end: int) -> bool {
    &&& rows.len() == row_end - row_start
    &&& forall|k: int|
        0 <= k < rows.len() ==> {
            let row = row_start + k;
            &&& (#[trigger] rows[k]).offset == row * 16
            &&& rows[k].offset_text@ == chars_of_bytes(hex_rep((row * 16) as nat, 8))
            &&& rows[k].hex_text@ == chars_of_bytes(hex_line(row_bytes(s, row)))
            &&& rows[k].ascii_text@ == chars_of_bytes(ascii_line(row_bytes(s, row)))
        }
}

/// Appends the hex digits of `v`, zero-padded to at least `d` digits.
fn push_hex(out: &mut Vec<u8>, v: usize, d: usize)
    ensures
        final(out)@ == old(out)@ + hex_rep(v as nat, d as nat),
    decreases v, d,
{
    if v < 16 && d <= 1 {
        out.push(hex_digit_of(v as u8));
        proof {
            assert(final(out)@ =~= old(out)@ + hex_rep(v as nat, d as nat));
        }
    } else {
        let dd: usize = if d == 0 {
            0
        } else {
            d - 1
        };
        push_hex(out, v / 16, dd);
        out.push(hex_digit_of((v % 16) as u8));
        proof {
            assert(final(out)@ =~= old(out)@ + hex_rep(v as nat, d as nat));
        }
    }
}

/// The number of rows the buffer renders to.
pub fn total_rows(len: usize) -> (r: usize)
    ensures
        r == row_count_spec(len as nat),
{
    let q = len / 16;
    let rem = len % 16;
    proof {
        lemma_fundamental_div_mod(len as int, 16);
        if rem == 0 {
            lemma_fundamental_div_mod_converse(len as int + 15, 16, q as int, 15);
        } else {
            lemma_fundamental_div_mod_converse(len as int + 15, 16, q as int + 1, rem as int - 1);
        }
    }
    if rem == 0 {
        q
    } else {
        q + 1
    }
}

/// Renders one row of the buffer.
fn render_row(file: &[u8], row: usize) -> (r: HexRow)
    requires
        (row as int) * 16 <= file@.len(),
        (row as int) * 16 <= usize::MAX,
    ensures
        r.offset == (row as int) * 16,
        r.offset_text@ == chars_of_bytes(hex_rep(((row as int) * 16) as nat, 8)),
        r.hex_text@ == chars_of_bytes(hex_line(row_bytes(file@, row as int))),
        r.ascii_text@ == chars_of_bytes(ascii_line(row_bytes(file@, row as int))),
{
    let len = file.len();
    let start = row * BYTES_PER_ROW;
    let end = if len - start > BYTES_PER_ROW {
        start + BYTES_PER_ROW
    } else {
        len
    };
    let mut offset_bytes: Vec<u8> = Vec::new();
    push_hex(&mut offset_bytes, start, 8);
    proof {
        lemma_hex_rep_ascii(start as nat, 8);
        assert(offset_bytes@ =~= hex_rep(start as nat, 8));
    }
    let offset_text = ascii_to_string(offset_bytes);

    let ghost rb = row_bytes(file@, row as int);
    proof {
        assert(rb =~= file@.subrange(start as int, end as int));
    }
    let mut hex_bytes: Vec<u8> = Vec::new();
    let mut ascii_bytes: Vec<u8> = Vec::new();
    let mut i: usize = start;
    while i < end
        invariant
            start <= i <= end <= file@.len(),
            end <= start + 16,
            hex_bytes@ == hex_line(file@.subrange(start as int, i as int)),
            forall|k: int| 0 <= k < hex_bytes@.len() ==> #[trigger] hex_bytes@[k] < 128,
            ascii_bytes@ == ascii_line(file@.subrange(start as int, i as int)),
        decreases end - i,
    {
        let b = file[i];
        let ghost pre_hex = hex_bytes@;
        if i > start {
            hex_bytes.push(0x20);
        }
        push_hex(&mut hex_bytes, b as usize, 2);
        ascii_bytes.push(if 0x20 <= b && b <= 0x7e {
            b
        } else {
            0x2e
        });
        proof {
            lemma_hex_rep_ascii(b as nat, 2);
            let sub1 = file@.subrange(start as int, i + 1);
            assert(sub1.drop_last() =~= file@.subrange(start as int, i as int));
            assert(sub1.last() == file@[i as int]);
            if i == start {
                assert(hex_bytes@ =~= hex_line(sub1));
            } else {
                assert(hex_bytes@ =~= hex_line(sub1.drop_last()) + seq![0x20u8] + hex_rep(
                    sub1.last() as nat,
                    2,
                ));
            }
            assert(ascii_bytes@ =~= ascii_line(sub1));
        }
        i = i + 1;
    }
    proof {
        assert(forall|k: int| 0 <= k < ascii_bytes@.len() ==> #[trigger] ascii_bytes@[k] < 128);
    }
    let hex_text = ascii_to_string(hex_bytes);
    let ascii_text = ascii_to_string(ascii_bytes);
    HexRow { offset: start, offset_text, hex_text, ascii_text }
}

/// Renders rows `row_start..row_end` of the buffer: only the bytes of those
/// rows are read and formatted, so the cost is bounded by the requested
/// window however large the buffer is.
pub fn render_rows(file: &[u8], row_start: usize, row_end: usize) -> (rows: Vec<HexRow>)
    requires
        row_start <= row_end,
        row_end <= row_count_spec(file@.len()),
    ensures
        rows_rendered(rows@, file@, row_start as int, row_end as int),
{
    let len = file.len();
    proof {
        lemma_fundamental_div_mod(file@.len() as int + 15, 16);
        lemma_mod_bound(file@.len() as int + 15, 16);
    }
    let mut rows: Vec<HexRow> = Vec::new();
    let mut r: usize = row_start;
    while r < row_end
        invariant
            row_start <= r <= row_end,
            row_end <= row_count_spec(file@.len()),
            file@.len() == len,
            (row_count_spec(file@.len()) as int) * 16 <= file@.len() + 15,
            rows@.len() == r - row_start,
            forall|k: int|
                0 <= k < rows@.len() ==> {
                    let row = row_start + k;
                    &&& (#[trigger] rows@[k]).offset == row * 16
                    &&& rows@[k].offset_text@ == chars_of_bytes(hex_rep((row * 16) as nat, 8))
                    &&& rows@[k].hex_text@ == chars_of_bytes(hex_line(row_bytes(file@, row)))
                    &&& rows@[k].ascii_text@ == chars_of_bytes(ascii_line(row_bytes(file@, row)))
                },
        decreases row_end - r,
    {
        proof {
            lemma_mul_inequality(r as int + 1, row_count_spec(file@.len()) as int, 16);
        }
        let row = render_row(file, r);
        rows.push(row);
        r = r + 1;
    }
    rows
}

/// The hex-view analyzer. It caches nothing: its text is computed per
/// visible row range on demand through `render_rows`, so a buffer change
/// leaves nothing to recompute.
pub struct HexViewer {}

impl HexViewer {
    /// Creates the analyzer.
    pub fn new(_file: &[u8]) -> (r: Self) {
        HexViewer {  }
    }

    /// Display name of the analyzer.
    pub fn title(&self) -> (r: String)
        ensures
            r@ == "Hex Viewer"@,
    {
        "Hex Viewer".to_owned()
    }

    /// Nothing is cached, so a buffer change leaves nothing to recompute:
    /// the next render reads the buffer afresh.
    pub fn notify(&mut self, _event: Event, _file: &[u8]) {
    }
}

} // verus!
