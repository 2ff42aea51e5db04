use vstd::prelude::*;

use crate::keypad::{extends, lemma_extends_concat, lemma_extends_trans};

verus! {

#[derive(Debug, Clone, Copy, PartialEq, Eq, Structural)]
pub enum Error {
    Spi,
    ChipSelect,
    Mode,
    Reset,
}

/// One operation seen on the panel's bus: a control line driven to a level,
/// or bytes written over the serial channel.
#[derive(Debug, Clone, PartialEq, Eq)]
pub enum BusEvent<B> {
    ChipSelect(bool),
    Mode(bool),
    Reset(bool),
    Write(B),
}

/// The serial channel of the panel: a byte writer and three control lines.
/// Every operation that succeeds is recorded, in order, in `events`; every
/// one that fails is counted in `failures`. An implementation must override
/// both to be described truly: with the defaults, every call contradicts the
/// contracts below, and nothing proved here holds of it.
pub trait PanelBus {
    closed spec fn events(&self) -> Seq<BusEvent<Seq<u8>>> {
        Seq::empty()
    }

    closed spec fn failures(&self) -> nat {
        0
    }

    fn set_chip_select(&mut self, high: bool) -> (r: Result<(), ()>)
        ensures
            r is Ok ==> final(self).events() == old(self).events().push(BusEvent::ChipSelect(high)),
            r is Err ==> final(self).events() == old(self).events(),
            r is Ok ==> final(self).failures() == old(self).failures(),
            r is Err ==> final(self).failures() == old(self).failures() + 1,
    ;

    fn set_mode(&mut self, high: bool) -> (r: Result<(), ()>)
        ensures
            r is Ok ==> final(self).events() == old(self).events().push(BusEvent::Mode(high)),
            r is Err ==> final(self).events() == old(self).events(),
            r is Ok ==> final(self).failures() == old(self).failures(),
            r is Err ==> final(self).failures() == old(self).failures() + 1,
    ;

    fn set_reset(&mut self, high: bool) -> (r: Result<(), ()>)
        ensures
            r is Ok ==> final(self).events() == old(self).events().push(BusEvent::Reset(high)),
            r is Err ==> final(self).events() == old(self).events(),
            r is Ok ==> final(self).failures() == old(self).failures(),
            r is Err ==> final(self).failures() == old(self).failures() + 1,
    ;

    fn write(&mut self, bytes: &[u8]) -> (r: Result<(), ()>)
        ensures
            r is Ok ==> final(self).events() == old(self).events().push(BusEvent::Write(bytes@)),
            r is Err ==> final(self).events() == old(self).events(),
            r is Ok ==> final(self).failures() == old(self).failures(),
            r is Err ==> final(self).failures() == old(self).failures() + 1,
    ;
}

/// A framed transaction: the mode line (high for pixel data, low for
/// commands), chip select asserted low, the bytes, chip select released.
pub open spec fn frame(data: bool, bytes: Seq<u8>) -> Seq<BusEvent<Seq<u8>>> {
    seq![
        BusEvent::Mode(data),
        BusEvent::ChipSelect(false),
        BusEvent::Write(bytes),
        BusEvent::ChipSelect(true),
    ]
}

pub open spec fn cmd_frame(c: u8) -> Seq<BusEvent<Seq<u8>>> {
    frame(false, seq![c])
}

pub open spec fn param_frame(c: u8, p: u8) -> Seq<BusEvent<Seq<u8>>> {
    frame(false, seq![c, p])
}

pub open spec fn lower_col_cmd(col: u8) -> u8 {
    col & 0x0F
}

pub open spec fn higher_col_cmd(col: u8) -> u8 {
    0x10 | (col & 0x7)
}

/// Setting the column address: low nibble, then high nibble.
pub open spec fn col_events(col: u8) -> Seq<BusEvent<Seq<u8>>> {
    cmd_frame(lower_col_cmd(col)) + cmd_frame(higher_col_cmd(col >> 4))
}

/// Bit `t` of `v`, counting from the least significant.
pub open spec fn bit(v: u8, t: u8) -> bool {
    (v >> t) & 1u8 == 1u8
}

/// A byte with its bit order reversed: bit `i` of the result is bit `7 - i` of `b`.
pub open spec fn rev8(b: u8) -> u8 {
    ((b >> 7u8) & 1u8) | (((b >> 6u8) & 1u8) << 1u8) | (((b >> 5u8) & 1u8) << 2u8) | (((b >> 4u8)
        & 1u8) << 3u8) | (((b >> 3u8) & 1u8) << 4u8) | (((b >> 2u8) & 1u8) << 5u8) | (((b >> 1u8)
        & 1u8) << 6u8) | ((b & 1u8) << 7u8)
}

/// A nibble with each bit doubled: bits `2t` and `2t + 1` of the result are bit `t` of `n`.
pub open spec fn doubled_nibble(n: u8) -> u8 {
    (n & 1u8) | ((n & 1u8) << 1u8) | (((n >> 1u8) & 1u8) << 2u8) | (((n >> 1u8) & 1u8) << 3u8) | (((n
        >> 2u8) & 1u8) << 4u8) | (((n >> 2u8) & 1u8) << 5u8) | (((n >> 3u8) & 1u8) << 6u8) | (((n >> 3u8)
        & 1u8) << 7u8)
}

/// Reversing moves bit `7 - i` to bit `i`.
pub proof fn lemma_rev8_bits(b: u8, i: u8)
    requires
        i < 8,
    ensures
        bit(rev8(b), i) == bit(b, (7 - i) as u8),
{
    assert(((((b >> 7u8) & 1u8) | (((b >> 6u8) & 1u8) << 1u8) | (((b >> 5u8) & 1u8) << 2u8) | (((b
        >> 4u8) & 1u8) << 3u8) | (((b >> 3u8) & 1u8) << 4u8) | (((b >> 2u8) & 1u8) << 5u8) | (((b
        >> 1u8) & 1u8) << 6u8) | ((b & 1u8) << 7u8)) >> i) & 1u8 == (b >> ((7 - i) as u8)) & 1u8)
        by (bit_vector)
        requires
            i < 8,
    ;
}

/// Doubling a nibble copies bit `t / 2` into bit `t`.
pub proof fn lemma_doubled_bits(n: u8, t: u8)
    requires
        n < 16,
        t < 8,
    ensures
        bit(doubled_nibble(n), t) == bit(n, t / 2),
{
    assert((((n & 1u8) | ((n & 1u8) << 1u8) | (((n >> 1u8) & 1u8) << 2u8) | (((n >> 1u8) & 1u8) << 3u8) | (((n
        >> 2u8) & 1u8) << 4u8) | (((n >> 2u8) & 1u8) << 5u8) | (((n >> 3u8) & 1u8) << 6u8) | (((n >> 3u8)
        & 1u8) << 7u8)) >> t) & 1u8 == (n >> (t / 2)) & 1u8) by (bit_vector)
        requires
            n < 16,
            t < 8,
    ;
}

/// The two physical bytes for one framebuffer byte: reversed, then each
/// nibble bit-doubled, low nibble first.
pub open spec fn scaled(b: u8) -> (u8, u8) {
    (doubled_nibble(rev8(b) & 0x0F), doubled_nibble(rev8(b) >> 4u8))
}

/// The 16-byte physical payload of an 8-byte framebuffer row.
pub open spec fn payload(row: Seq<u8>) -> Seq<u8> {
    Seq::new(
        16,
        |i: int|
            if i % 2 == 0 {
                scaled(row[i / 2]).0
            } else {
                scaled(row[i / 2]).1
            },
    )
}

/// The physical column address of logical row `r`: rows are flipped and doubled.
pub open spec fn phys_col(r: int) -> int {
    2 * (31 - r % 32)
}

pub open spec fn fb_row(fb: Seq<u8>, r: int) -> Seq<u8> {
    fb.subrange(8 * r, 8 * r + 8)
}

/// Rendering one logical row: its payload written at both physical columns.
pub open spec fn render_events(r: int, row: Seq<u8>) -> Seq<BusEvent<Seq<u8>>> {
    col_events(phys_col(r) as u8) + frame(true, payload(row)) + col_events((phys_col(r) + 1) as u8)
        + frame(true, payload(row))
}

/// What a sprite byte `s` drawn at column `x` XORs into byte `b` of its row.
pub open spec fn byte_mask(x: u8, b: int, s: u8) -> u8 {
    let off = x % 8;
    let idx = ((x % 64) / 8) as int;
    if off == 0 {
        if b == idx {
            s
        } else {
            0
        }
    } else if b == idx {
        s >> off
    } else if b == (idx + 1) % 8 {
        s << ((8 - off) as u8)
    } else {
        0
    }
}

pub open spec fn row_after(row: Seq<u8>, x: u8, s: u8) -> Seq<u8> {
    Seq::new(8, |b: int| row[b] ^ byte_mask(x, b, s))
}

/// The first row a sprite drawn at `y` lands on.
pub open spec fn start_row(y: u8) -> int {
    (y % 32) as int
}

/// How many of `len` sprite bytes are drawn from `y` on: those that would
/// fall below the last row are clipped.
pub open spec fn drawn_rows(y: u8, len: int) -> int {
    if len < 32 - start_row(y) {
        len
    } else {
        32 - start_row(y)
    }
}

/// The framebuffer after XOR-compositing `data` at (`x`, `y`).
pub open spec fn composite(fb: Seq<u8>, x: u8, y: u8, data: Seq<u8>) -> Seq<u8> {
    Seq::new(
        fb.len(),
        |i: int|
            {
                let k = i / 8 - start_row(y);
                if 0 <= k < drawn_rows(y, data.len() as int) {
                    fb[i] ^ byte_mask(x, i % 8, data[k])
                } else {
                    fb[i]
                }
            },
    )
}

/// The bus traffic of compositing the first `n` drawn bytes of `data`.
pub open spec fn xor_events(fb: Seq<u8>, x: u8, y: u8, data: Seq<u8>, n: int) -> Seq<
    BusEvent<Seq<u8>>,
>
    decreases n,
{
    if n <= 0 {
        seq![]
    } else {
        let r = start_row(y) + n - 1;
        xor_events(fb, x, y, data, n - 1) + render_events(
            r,
            row_after(fb_row(fb, r), x, data[n - 1]),
        )
    }
}

/// The bus traffic of clearing physical columns `0..n`.
pub open spec fn clear_events(n: int) -> Seq<BusEvent<Seq<u8>>>
    decreases n,
{
    if n <= 0 {
        seq![]
    } else {
        clear_events(n - 1) + col_events((n - 1) as u8) + frame(true, Seq::new(16, |i: int| 0u8))
    }
}

pub open spec fn blank() -> Seq<u8> {
    Seq::new(256, |i: int| 0u8)
}


/// What a framed transaction in mode `mode` leaves on the bus when it fails
/// with `e`: nothing when the mode line fails; the mode alone, or everything
/// but the release, when chip select fails; and when the byte write fails,
/// chip select asserted and then released if that succeeded.
pub open spec fn frame_failed(mode: bool, bytes: Seq<u8>, e: Error, sent: Seq<BusEvent<Seq<u8>>>) -> bool {
    match e {
        Error::Mode => sent == Seq::<BusEvent<Seq<u8>>>::empty(),
        Error::ChipSelect => sent == seq![BusEvent::<Seq<u8>>::Mode(mode)] || sent == seq![
            BusEvent::Mode(mode),
            BusEvent::ChipSelect(false),
            BusEvent::Write(bytes),
        ],
        Error::Spi => sent == seq![BusEvent::<Seq<u8>>::Mode(mode), BusEvent::ChipSelect(false)] || sent
            == seq![
            BusEvent::<Seq<u8>>::Mode(mode),
            BusEvent::ChipSelect(false),
            BusEvent::ChipSelect(true),
        ],
        Error::Reset => false,
    }
}

/// `now` is `before` followed by the traffic of a framed transaction that failed with `e`.
pub open spec fn failed_frame(
    before: Seq<BusEvent<Seq<u8>>>,
    now: Seq<BusEvent<Seq<u8>>>,
    mode: bool,
    bytes: Seq<u8>,
    e: Error,
) -> bool {
    extends(before, now) && frame_failed(mode, bytes, e, now.subrange(before.len() as int, now.len() as int))
}

/// `now` is `before` followed by the traffic of a column-address setting that failed with `e`.
pub open spec fn failed_col(before: Seq<BusEvent<Seq<u8>>>, now: Seq<BusEvent<Seq<u8>>>, col: u8, e: Error) -> bool {
    failed_frame(before, now, false, seq![lower_col_cmd(col)], e) || failed_frame(
        before + cmd_frame(lower_col_cmd(col)),
        now,
        false,
        seq![higher_col_cmd(col >> 4)],
        e,
    )
}

/// `now` is `before` followed by the traffic of rendering logical row `r`
/// (holding `row`) that failed with `e`: the steps before the failing one
/// complete, the failing one cut short, nothing after it.
pub open spec fn failed_render(
    before: Seq<BusEvent<Seq<u8>>>,
    now: Seq<BusEvent<Seq<u8>>>,
    r: int,
    row: Seq<u8>,
    e: Error,
) -> bool {
    let c0 = phys_col(r) as u8;
    let c1 = (phys_col(r) + 1) as u8;
    let p = payload(row);
    failed_col(before, now, c0, e) || failed_frame(before + col_events(c0), now, true, p, e)
        || failed_col(before + col_events(c0) + frame(true, p), now, c1, e) || failed_frame(
        before + col_events(c0) + frame(true, p) + col_events(c1),
        now,
        true,
        p,
        e,
    )
}

/// `now` is `before` followed by the traffic of a clear that failed with `e`
/// at physical column `c`.
pub open spec fn failed_clear_at(before: Seq<BusEvent<Seq<u8>>>, now: Seq<BusEvent<Seq<u8>>>, c: int, e: Error) -> bool {
    failed_col(before + clear_events(c), now, c as u8, e) || failed_frame(
        before + clear_events(c) + col_events(c as u8),
        now,
        true,
        Seq::new(16, |i: int| 0u8),
        e,
    )
}

/// The bytes of configuration step `i` of `init`: display start line,
/// contrast, vertical addressing, oscillator, pre-charge, VCOM deselect level,
/// display offset.
pub open spec fn config_bytes(i: int) -> Seq<u8> {
    if i == 0 {
        seq![0xDCu8, 0u8]
    } else if i == 1 {
        seq![0x81u8, 0x80u8]
    } else if i == 2 {
        seq![0x21u8]
    } else if i == 3 {
        seq![0xD5u8, 0x41u8]
    } else if i == 4 {
        seq![0xD9u8, 0x22u8]
    } else if i == 5 {
        seq![0xD8u8, 0x35u8]
    } else {
        seq![0xD3u8, 0x60u8]
    }
}

/// The first `k` configuration steps, each one framed command.
pub open spec fn config_events(k: int) -> Seq<BusEvent<Seq<u8>>>
    decreases k,
{
    if k <= 0 {
        seq![]
    } else {
        config_events(k - 1) + frame(false, config_bytes(k - 1))
    }
}

/// `now` is `before` followed by the traffic of an `init` that got past the
/// reset pulse and then failed with `e`: the steps before the failing one
/// complete, the failing one cut short, nothing after it.
pub open spec fn failed_setup(before: Seq<BusEvent<Seq<u8>>>, now: Seq<BusEvent<Seq<u8>>>, e: Error) -> bool {
    (exists|k: int|
        0 <= k < 7 && failed_frame(before + #[trigger] config_events(k), now, false, config_bytes(k), e))
        || (exists|c: int| 0 <= c < 64 && #[trigger] failed_clear_at(before + config_events(7), now, c, e))
        || failed_frame(before + config_events(7) + clear_events(64), now, false, seq![0xAFu8], e)
}

/// The reset line driven high, low, high.
pub open spec fn reset_pulse() -> Seq<BusEvent<Seq<u8>>> {
    seq![BusEvent::Reset(true), BusEvent::Reset(false), BusEvent::Reset(true)]
}

/// What `init` sends: the reset pulse, the configuration commands, a blank
/// panel, and display on.
pub open spec fn init_events() -> Seq<BusEvent<Seq<u8>>> {
    reset_pulse() + config_events(7) + clear_events(64) + cmd_frame(0xAF)
}

proof fn lemma_xor_zero(a: u8)
    ensures
        a ^ 0 == a,
{
    assert(a ^ 0u8 == a) by (bit_vector);
}

fn reverse(b: u8) -> (r: u8)
    ensures
        r == rev8(b),
{
    let r = ((b & 0x01) << 7u8) | ((b & 0x02) << 5u8) | ((b & 0x04) << 3u8) | ((b & 0x08) << 1u8)
        | ((b & 0x10) >> 1u8) | ((b & 0x20) >> 3u8) | ((b & 0x40) >> 5u8) | ((b & 0x80) >> 7u8);
    assert(r == ((b >> 7u8) & 1u8) | (((b >> 6u8) & 1u8) << 1u8) | (((b >> 5u8) & 1u8) << 2u8) | (((b
        >> 4u8) & 1u8) << 3u8) | (((b >> 3u8) & 1u8) << 4u8) | (((b >> 2u8) & 1u8) << 5u8) | (((b
        >> 1u8) & 1u8) << 6u8) | ((b & 1u8) << 7u8)) by (bit_vector)
        requires
            r == ((b & 0x01) << 7u8) | ((b & 0x02) << 5u8) | ((b & 0x04) << 3u8) | ((b & 0x08)
                << 1u8) | ((b & 0x10) >> 1u8) | ((b & 0x20) >> 3u8) | ((b & 0x40) >> 5u8) | ((b
                & 0x80) >> 7u8),
    ;
    r
}

fn double_nibble(n: u8) -> (r: u8)
    requires
        n < 16,
    ensures
        r == doubled_nibble(n),
{
    let ghost d = doubled_nibble(n);
    assert((n == 0u8 ==> d == 0x00u8) && (n == 1u8 ==> d == 0x03u8) && (n == 2u8 ==> d == 0x0Cu8) && (n == 3u8 ==> d == 0x0Fu8) && (n == 4u8 ==> d == 0x30u8) && (n == 5u8 ==> d == 0x33u8) && (n == 6u8 ==> d == 0x3Cu8) && (n == 7u8 ==> d == 0x3Fu8) && (n == 8u8 ==> d == 0xC0u8) && (n == 9u8 ==> d == 0xC3u8) && (n == 10u8 ==> d == 0xCCu8) && (n == 11u8 ==> d == 0xCFu8) && (n == 12u8 ==> d == 0xF0u8) && (n == 13u8 ==> d == 0xF3u8) && (n == 14u8 ==> d == 0xFCu8) && (n == 15u8 ==> d == 0xFFu8)) by (bit_vector)
        requires
            d == (n & 1u8) | ((n & 1u8) << 1u8) | (((n >> 1u8) & 1u8) << 2u8) | (((n >> 1u8) & 1u8) << 3u8) | (((n
                >> 2u8) & 1u8) << 4u8) | (((n >> 2u8) & 1u8) << 5u8) | (((n >> 3u8) & 1u8) << 6u8) | (((n >> 3u8)
                & 1u8) << 7u8),
    ;
    match n {
        0 => 0x00,
        1 => 0x03,
        2 => 0x0C,
        3 => 0x0F,
        4 => 0x30,
        5 => 0x33,
        6 => 0x3C,
        7 => 0x3F,
        8 => 0xC0,
        9 => 0xC3,
        10 => 0xCC,
        11 => 0xCF,
        12 => 0xF0,
        13 => 0xF3,
        14 => 0xFC,
        _ => 0xFF,
    }
}

fn scale(byte: u8) -> (r: [u8; 2])
    ensures
        r@[0] == scaled(byte).0,
        r@[1] == scaled(byte).1,
{
    let b = reverse(byte);
    assert(b & 0x0F < 16 && b >> 4u8 < 16) by (bit_vector);
    [double_nibble(b & 0x0F), double_nibble(b >> 4u8)]
}

/// Compositing a sprite whose bytes are all zero leaves the framebuffer as it was.
pub proof fn lemma_zero_sprite_keeps(fb: Seq<u8>, x: u8, y: u8, data: Seq<u8>)
    requires
        forall|k: int| 0 <= k < data.len() ==> data[k] == 0,
    ensures
        composite(fb, x, y, data) == fb,
{
    assert forall|i: int| 0 <= i < fb.len() implies #[trigger] composite(fb, x, y, data)[i]
        == fb[i] by {
        let k = i / 8 - start_row(y);
        if 0 <= k < drawn_rows(y, data.len() as int) {
            let s = data[k];
            let m = byte_mask(x, i % 8, s);
            let off = x % 8;
            assert(s >> off == 0u8) by (bit_vector)
                requires
                    s == 0u8,
            ;
            assert(s << ((8 - off) as u8) == 0u8) by (bit_vector)
                requires
                    s == 0u8,
            ;
            assert(m == 0);
            lemma_xor_zero(fb[i]);
        }
    }
    assert(composite(fb, x, y, data) =~= fb);
}

/// Compositing the same sprite twice at the same place restores the framebuffer.
pub proof fn lemma_xor_involution(fb: Seq<u8>, x: u8, y: u8, data: Seq<u8>)
    ensures
        composite(composite(fb, x, y, data), x, y, data) == fb,
{
    let once = composite(fb, x, y, data);
    assert forall|i: int| 0 <= i < fb.len() implies #[trigger] composite(once, x, y, data)[i]
        == fb[i] by {
        let k = i / 8 - start_row(y);
        if 0 <= k < drawn_rows(y, data.len() as int) {
            let a = fb[i];
            let m = byte_mask(x, i % 8, data[k]);
            assert((a ^ m) ^ m == a) by (bit_vector);
        }
    }
    assert(composite(once, x, y, data) =~= fb);
}

/// A sprite byte at a column that is not a multiple of 8 changes exactly two
/// adjacent row bytes, the second one wrapping to byte 0 after byte 7: its
/// high bits land in the first and its low bits in the second.
pub proof fn lemma_straddle(row: Seq<u8>, x: u8, s: u8)
    requires
        row.len() == 8,
        x % 8 != 0,
    ensures
        ({
            let off = x % 8;
            let idx = ((x % 64) / 8) as int;
            let next = (idx + 1) % 8;
            &&& idx != next
            &&& row_after(row, x, s)[idx] == row[idx] ^ (s >> off)
            &&& row_after(row, x, s)[next] == row[next] ^ (s << ((8 - off) as u8))
            &&& forall|b: int|
                0 <= b < 8 && b != idx && b != next ==> #[trigger] row_after(row, x, s)[b]
                    == row[b]
        }),
{
    assert forall|b: int| 0 <= b < 8 && b != ((x % 64) / 8) as int && b != (((x % 64) / 8) as int + 1) % 8
        implies #[trigger] row_after(row, x, s)[b] == row[b] by {
        lemma_xor_zero(row[b]);
    }
}

/// Physical column `c` is the `c`-th block of what `clear` sends: its address,
/// then a blank payload.
pub proof fn lemma_clear_blocks(n: int, c: int)
    requires
        0 <= c < n,
    ensures
        clear_events(n).len() == 12 * n,
        clear_events(n).subrange(12 * c, 12 * c + 12) == col_events(c as u8) + frame(
            true,
            Seq::new(16, |i: int| 0u8),
        ),
    decreases n,
{
    lemma_clear_len(n);
    lemma_clear_len(n - 1);
    let block = col_events((n - 1) as u8) + frame(true, Seq::new(16, |i: int| 0u8));
    assert(clear_events(n) == clear_events(n - 1) + block);
    if c < n - 1 {
        lemma_clear_blocks(n - 1, c);
        assert(clear_events(n).subrange(12 * c, 12 * c + 12) =~= clear_events(n - 1).subrange(
            12 * c,
            12 * c + 12,
        ));
    } else {
        assert(clear_events(n).subrange(12 * c, 12 * c + 12) =~= block);
    }
}

proof fn lemma_clear_len(n: int)
    ensures
        n >= 0 ==> clear_events(n).len() == 12 * n,
    decreases n,
{
    if n > 0 {
        lemma_clear_len(n - 1);
    }
}

pub open spec fn event_view(e: BusEvent<Vec<u8>>) -> BusEvent<Seq<u8>> {
    match e {
        BusEvent::ChipSelect(b) => BusEvent::ChipSelect(b),
        BusEvent::Mode(b) => BusEvent::Mode(b),
        BusEvent::Reset(b) => BusEvent::Reset(b),
        BusEvent::Write(v) => BusEvent::Write(v@),
    }
}

/// A panel bus held in memory: it records every operation, and can be told
/// to fail byte writes once a given number of them have gone through.
pub struct SimPanel {
    log: Vec<BusEvent<Vec<u8>>>,
    writes_left: Option<usize>,
    failed: Ghost<nat>,
}

impl SimPanel {
    pub fn new() -> (r: Self)
        ensures
            r.events() == Seq::<BusEvent<Seq<u8>>>::empty(),
            r.failures() == 0,
    {
        let r = SimPanel { log: Vec::new(), writes_left: None, failed: Ghost(0) };
        assert(r.events() =~= Seq::<BusEvent<Seq<u8>>>::empty());
        r
    }

    /// Lets `n` more byte writes succeed, then fails every later one.
    pub fn fail_writes_after(&mut self, n: usize)
        ensures
            final(self).events() == old(self).events(),
            final(self).failures() == old(self).failures(),
    {
        self.writes_left = Some(n);
    }

    /// Everything recorded so far, in order.
    pub fn recorded(&self) -> (r: &Vec<BusEvent<Vec<u8>>>)
        ensures
            r@.map_values(|e: BusEvent<Vec<u8>>| event_view(e)) == self.events(),
    {
        &self.log
    }

    fn record(&mut self, e: BusEvent<Vec<u8>>)
        ensures
            final(self).events() == old(self).events().push(event_view(e)),
            final(self).writes_left == old(self).writes_left,
            final(self).failed == old(self).failed,
    {
        self.log.push(e);
        assert(final(self).events() =~= old(self).events().push(event_view(e)));
    }
}

impl PanelBus for SimPanel {
    closed spec fn events(&self) -> Seq<BusEvent<Seq<u8>>> {
        self.log@.map_values(|e: BusEvent<Vec<u8>>| event_view(e))
    }

    closed spec fn failures(&self) -> nat {
        self.failed@
    }

    fn set_chip_select(&mut self, high: bool) -> (r: Result<(), ()>) {
        self.record(BusEvent::ChipSelect(high));
        Ok(())
    }

    fn set_mode(&mut self, high: bool) -> (r: Result<(), ()>) {
        self.record(BusEvent::Mode(high));
        Ok(())
    }

    fn set_reset(&mut self, high: bool) -> (r: Result<(), ()>) {
        self.record(BusEvent::Reset(high));
        Ok(())
    }

    fn write(&mut self, bytes: &[u8]) -> (r: Result<(), ()>) {
        match self.writes_left {
            Some(0) => {
                self.failed = Ghost(self.failed@ + 1);
                return Err(());
            },
            Some(k) => {
                self.writes_left = Some(k - 1);
            },
            None => {},
        }
        let v = vstd::slice::slice_to_vec(bytes);
        self.record(BusEvent::Write(v));
        Ok(())
    }
}

/// SH1106 panel controller holding the logical 64x32 framebuffer.
pub struct Sh1106<B: PanelBus> {
    bus: B,
    buf: Vec<u8>,
}

impl<B: PanelBus> Sh1106<B> {
    pub closed spec fn bus_spec(&self) -> B {
        self.bus
    }

    /// The framebuffer, row by row, eight bytes a row, most significant bit leftmost.
    pub closed spec fn fb(&self) -> Seq<u8> {
        self.buf@
    }

    /// Everything the bus has recorded.
    pub open spec fn log(&self) -> Seq<BusEvent<Seq<u8>>> {
        self.bus_spec().events()
    }

    /// How many bus calls have failed.
    pub open spec fn failures(&self) -> nat {
        self.bus_spec().failures()
    }

    pub open spec fn wf(&self) -> bool {
        self.fb().len() == 256
    }

    pub fn new(bus: B) -> (r: Self)
        ensures
            r.bus_spec() == bus,
            r.fb() == blank(),
            r.wf(),
    {
        let r = Sh1106 { bus, buf: vec![0u8; 256] };
        assert(r.buf@ =~= blank());
        r
    }

    pub fn bus(&self) -> (r: &B)
        ensures
            *r == self.bus_spec(),
    {
        &self.bus
    }

    pub fn into_bus(self) -> (r: B)
        ensures
            r == self.bus_spec(),
    {
        self.bus
    }

    /// A copy of the framebuffer.
    pub fn framebuffer(&self) -> (r: Vec<u8>)
        ensures
            r@ == self.fb(),
    {
        self.buf.clone()
    }

    fn chip_select(&mut self) -> (r: Result<(), Error>)
        ensures
            final(self).fb() == old(self).fb(),
            r is Ok ==> final(self).log() == old(self).log().push(BusEvent::ChipSelect(false)),
            r is Err ==> final(self).log() == old(self).log() && r == Err::<(), Error>(
                Error::ChipSelect,
            ),
            final(self).failures() >= old(self).failures(),
            r is Ok <==> final(self).failures() == old(self).failures(),
            r is Err ==> final(self).failures() == old(self).failures() + 1,
    {
        match self.bus.set_chip_select(false) {
            Ok(()) => Ok(()),
            Err(()) => Err(Error::ChipSelect),
        }
    }

    fn chip_deselect(&mut self) -> (r: Result<(), Error>)
        ensures
            final(self).fb() == old(self).fb(),
            r is Ok ==> final(self).log() == old(self).log().push(BusEvent::ChipSelect(true)),
            r is Err ==> final(self).log() == old(self).log() && r == Err::<(), Error>(
                Error::ChipSelect,
            ),
            final(self).failures() >= old(self).failures(),
            r is Ok <==> final(self).failures() == old(self).failures(),
            r is Err ==> final(self).failures() == old(self).failures() + 1,
    {
        match self.bus.set_chip_select(true) {
            Ok(()) => Ok(()),
            Err(()) => Err(Error::ChipSelect),
        }
    }

    fn set_mode(&mut self, data: bool) -> (r: Result<(), Error>)
        ensures
            final(self).fb() == old(self).fb(),
            r is Ok ==> final(self).log() == old(self).log().push(BusEvent::Mode(data)),
            r is Err ==> final(self).log() == old(self).log() && r == Err::<(), Error>(Error::Mode),
            final(self).failures() >= old(self).failures(),
            r is Ok <==> final(self).failures() == old(self).failures(),
            r is Err ==> final(self).failures() == old(self).failures() + 1,
    {
        match self.bus.set_mode(data) {
            Ok(()) => Ok(()),
            Err(()) => Err(Error::Mode),
        }
    }

    /// Writes `data` with chip select held low; chip select is released
    /// afterwards even when the write fails.
    fn write(&mut self, data: &[u8]) -> (r: Result<(), Error>)
        ensures
            final(self).fb() == old(self).fb(),
            r is Ok ==> final(self).log() == old(self).log() + seq![
                BusEvent::ChipSelect(false),
                BusEvent::Write(data@),
                BusEvent::ChipSelect(true),
            ],
            r == Err::<(), Error>(Error::Spi) ==> final(self).log() == old(self).log().push(
                BusEvent::ChipSelect(false),
            ).push(BusEvent::ChipSelect(true)) || final(self).log() == old(self).log().push(
                BusEvent::ChipSelect(false),
            ),
            r == Err::<(), Error>(Error::Spi) && final(self).log() == old(self).log().push(
                BusEvent::ChipSelect(false),
            ) ==> final(self).failures() == old(self).failures() + 2,
            r == Err::<(), Error>(Error::ChipSelect) ==> final(self).log() == old(self).log()
                || final(self).log() == old(self).log().push(BusEvent::ChipSelect(false)).push(
                BusEvent::Write(data@),
            ),
            r is Err ==> r == Err::<(), Error>(Error::Spi) || r == Err::<(), Error>(
                Error::ChipSelect,
            ),
            final(self).failures() >= old(self).failures(),
            r is Ok <==> final(self).failures() == old(self).failures(),
    {
        match self.chip_select() {
            Ok(()) => {},
            Err(e) => {
                return Err(e);
            },
        }
        match self.bus.write(data) {
            Ok(()) => {},
            Err(()) => {
                let _ = self.chip_deselect();
                return Err(Error::Spi);
            },
        }
        let r = self.chip_deselect();
        assert(r is Ok ==> final(self).log() =~= old(self).log() + seq![
            BusEvent::ChipSelect(false),
            BusEvent::Write(data@),
            BusEvent::ChipSelect(true),
        ]);
        r
    }

    fn framed(&mut self, mode: bool, data: &[u8]) -> (r: Result<(), Error>)
        ensures
            final(self).fb() == old(self).fb(),
            r is Ok ==> final(self).log() == old(self).log() + frame(mode, data@),
            r is Err ==> failed_frame(old(self).log(), final(self).log(), mode, data@, r->Err_0),
            extends(old(self).log(), final(self).log()),
            final(self).failures() >= old(self).failures(),
            r is Ok <==> final(self).failures() == old(self).failures(),
    {
        let ghost l0 = self.log();
        proof {
            lemma_extends_concat(l0, frame(mode, data@));
        }
        proof {
            assert(l0.subrange(0, l0.len() as int) =~= l0);
            assert(l0.subrange(l0.len() as int, l0.len() as int) =~= Seq::<BusEvent<Seq<u8>>>::empty());
        }
        match self.set_mode(mode) {
            Ok(()) => {},
            Err(e) => {
                return Err(e);
            },
        }
        let ghost l1 = self.log();
        let r = self.write(data);
        proof {
            let l = self.log();
            let sent = l.subrange(l0.len() as int, l.len() as int);
            if r is Err {
                if l == l1.push(BusEvent::ChipSelect(false)).push(BusEvent::ChipSelect(true)) {
                    assert(sent =~= seq![BusEvent::<Seq<u8>>::Mode(mode), BusEvent::ChipSelect(false), BusEvent::ChipSelect(true)]);
                } else if l == l1.push(BusEvent::ChipSelect(false)) {
                    assert(sent =~= seq![BusEvent::<Seq<u8>>::Mode(mode), BusEvent::ChipSelect(false)]);
                } else if l == l1 {
                    assert(sent =~= seq![BusEvent::<Seq<u8>>::Mode(mode)]);
                } else {
                    assert(sent =~= seq![BusEvent::Mode(mode), BusEvent::ChipSelect(false), BusEvent::Write(data@)]);
                }
                assert(l.subrange(0, l0.len() as int) =~= l0);
            }
        }
        assert(r is Ok ==> final(self).log() =~= old(self).log() + frame(mode, data@));
        r
    }

    fn cmd(&mut self, c: u8) -> (r: Result<(), Error>)
        ensures
            final(self).fb() == old(self).fb(),
            r is Ok ==> final(self).log() == old(self).log() + cmd_frame(c),
            r is Err ==> failed_frame(old(self).log(), final(self).log(), false, seq![c], r->Err_0),
            extends(old(self).log(), final(self).log()),
            final(self).failures() >= old(self).failures(),
            r is Ok <==> final(self).failures() == old(self).failures(),
    {
        let v = vec![c];
        assert(v@ =~= seq![c]);
        self.framed(false, v.as_slice())
    }

    fn data(&mut self, d: &[u8]) -> (r: Result<(), Error>)
        ensures
            final(self).fb() == old(self).fb(),
            r is Ok ==> final(self).log() == old(self).log() + frame(true, d@),
            r is Err ==> failed_frame(old(self).log(), final(self).log(), true, d@, r->Err_0),
            extends(old(self).log(), final(self).log()),
            final(self).failures() >= old(self).failures(),
            r is Ok <==> final(self).failures() == old(self).failures(),
    {
        self.framed(true, d)
    }

    fn multibyte_cmd(&mut self, c: u8, p: u8) -> (r: Result<(), Error>)
        ensures
            final(self).fb() == old(self).fb(),
            r is Ok ==> final(self).log() == old(self).log() + param_frame(c, p),
            r is Err ==> failed_frame(old(self).log(), final(self).log(), false, seq![c, p], r->Err_0),
            extends(old(self).log(), final(self).log()),
            final(self).failures() >= old(self).failures(),
            r is Ok <==> final(self).failures() == old(self).failures(),
    {
        let v = vec![c, p];
        assert(v@ =~= seq![c, p]);
        self.framed(false, v.as_slice())
    }

    pub fn set_display_start(&mut self, start: u8) -> (r: Result<(), Error>)
        ensures
            final(self).fb() == old(self).fb(),
            r is Ok ==> final(self).log() == old(self).log() + param_frame(0xDC, start),
            r is Err ==> failed_frame(old(self).log(), final(self).log(), false, seq![0xDC, start], r->Err_0),
            extends(old(self).log(), final(self).log()),
            final(self).failures() >= old(self).failures(),
            r is Ok <==> final(self).failures() == old(self).failures(),
    {
        self.multibyte_cmd(0xDC, start)
    }

    pub fn set_vertical_addressing(&mut self) -> (r: Result<(), Error>)
        ensures
            final(self).fb() == old(self).fb(),
            r is Ok ==> final(self).log() == old(self).log() + cmd_frame(0x21),
            r is Err ==> failed_frame(old(self).log(), final(self).log(), false, seq![0x21], r->Err_0),
            extends(old(self).log(), final(self).log()),
            final(self).failures() >= old(self).failures(),
            r is Ok <==> final(self).failures() == old(self).failures(),
    {
        self.cmd(0x21)
    }

    pub fn set_contrast(&mut self, contrast: u8) -> (r: Result<(), Error>)
        ensures
            final(self).fb() == old(self).fb(),
            r is Ok ==> final(self).log() == old(self).log() + param_frame(0x81, contrast),
            r is Err ==> failed_frame(old(self).log(), final(self).log(), false, seq![0x81, contrast], r->Err_0),
            extends(old(self).log(), final(self).log()),
            final(self).failures() >= old(self).failures(),
            r is Ok <==> final(self).failures() == old(self).failures(),
    {
        self.multibyte_cmd(0x81, contrast)
    }

    pub fn display_on(&mut self) -> (r: Result<(), Error>)
        ensures
            final(self).fb() == old(self).fb(),
            r is Ok ==> final(self).log() == old(self).log() + cmd_frame(0xAF),
            r is Err ==> failed_frame(old(self).log(), final(self).log(), false, seq![0xAF], r->Err_0),
            extends(old(self).log(), final(self).log()),
            final(self).failures() >= old(self).failures(),
            r is Ok <==> final(self).failures() == old(self).failures(),
    {
        self.cmd(0xAF)
    }

    pub fn set_display_offset(&mut self, offset: u8) -> (r: Result<(), Error>)
        ensures
            final(self).fb() == old(self).fb(),
            r is Ok ==> final(self).log() == old(self).log() + param_frame(0xD3, offset),
            r is Err ==> failed_frame(old(self).log(), final(self).log(), false, seq![0xD3, offset], r->Err_0),
            extends(old(self).log(), final(self).log()),
            final(self).failures() >= old(self).failures(),
            r is Ok <==> final(self).failures() == old(self).failures(),
    {
        self.multibyte_cmd(0xD3, offset)
    }

    pub fn set_dclk_osc_freq(&mut self, setting: u8) -> (r: Result<(), Error>)
        ensures
            final(self).fb() == old(self).fb(),
            r is Ok ==> final(self).log() == old(self).log() + param_frame(0xD5, setting),
            r is Err ==> failed_frame(old(self).log(), final(self).log(), false, seq![0xD5, setting], r->Err_0),
            extends(old(self).log(), final(self).log()),
            final(self).failures() >= old(self).failures(),
            r is Ok <==> final(self).failures() == old(self).failures(),
    {
        self.multibyte_cmd(0xD5, setting)
    }

    pub fn set_pre_charge_period(&mut self, setting: u8) -> (r: Result<(), Error>)
        ensures
            final(self).fb() == old(self).fb(),
            r is Ok ==> final(self).log() == old(self).log() + param_frame(0xD9, setting),
            r is Err ==> failed_frame(old(self).log(), final(self).log(), false, seq![0xD9, setting], r->Err_0),
            extends(old(self).log(), final(self).log()),
            final(self).failures() >= old(self).failures(),
            r is Ok <==> final(self).failures() == old(self).failures(),
    {
        self.multibyte_cmd(0xD9, setting)
    }

    pub fn set_vcom_deselect_level(&mut self, level: u8) -> (r: Result<(), Error>)
        ensures
            final(self).fb() == old(self).fb(),
            r is Ok ==> final(self).log() == old(self).log() + param_frame(0xD8, level),
            r is Err ==> failed_frame(old(self).log(), final(self).log(), false, seq![0xD8, level], r->Err_0),
            extends(old(self).log(), final(self).log()),
            final(self).failures() >= old(self).failures(),
            r is Ok <==> final(self).failures() == old(self).failures(),
    {
        self.multibyte_cmd(0xD8, level)
    }

    pub fn set_lower_col_addr(&mut self, col: u8) -> (r: Result<(), Error>)
        ensures
            final(self).fb() == old(self).fb(),
            r is Ok ==> final(self).log() == old(self).log() + cmd_frame(lower_col_cmd(col)),
            r is Err ==> failed_frame(old(self).log(), final(self).log(), false, seq![lower_col_cmd(col)], r->Err_0),
            extends(old(self).log(), final(self).log()),
            final(self).failures() >= old(self).failures(),
            r is Ok <==> final(self).failures() == old(self).failures(),
    {
        self.cmd(col & 0x0F)
    }

    pub fn set_higher_col_addr(&mut self, col: u8) -> (r: Result<(), Error>)
        ensures
            final(self).fb() == old(self).fb(),
            r is Ok ==> final(self).log() == old(self).log() + cmd_frame(higher_col_cmd(col)),
            r is Err ==> failed_frame(old(self).log(), final(self).log(), false, seq![higher_col_cmd(col)], r->Err_0),
            extends(old(self).log(), final(self).log()),
            final(self).failures() >= old(self).failures(),
            r is Ok <==> final(self).failures() == old(self).failures(),
    {
        self.cmd(0x10 | (col & 0x7))
    }

    /// Sets the physical column address, low nibble first.
    pub fn set_col(&mut self, col: u8) -> (r: Result<(), Error>)
        ensures
            final(self).fb() == old(self).fb(),
            r is Ok ==> final(self).log() == old(self).log() + col_events(col),
            r is Err ==> failed_col(old(self).log(), final(self).log(), col, r->Err_0),
            extends(old(self).log(), final(self).log()),
            final(self).failures() >= old(self).failures(),
            r is Ok <==> final(self).failures() == old(self).failures(),
    {
        let ghost l0 = self.log();
        proof {
            lemma_extends_concat(l0, col_events(col));
            lemma_extends_concat(l0, cmd_frame(lower_col_cmd(col)));
        }
        match self.set_lower_col_addr(col) {
            Ok(()) => {},
            Err(e) => {
                return Err(e);
            },
        }
        let r = self.set_higher_col_addr(col >> 4);
        proof {
            if r is Err {
                lemma_extends_trans(l0, l0 + cmd_frame(lower_col_cmd(col)), self.log());
            }
        }
        assert(r is Ok ==> final(self).log() =~= old(self).log() + col_events(col));
        r
    }
    fn row_payload(&self, row: usize) -> (p: Vec<u8>)
        requires
            self.wf(),
            row < 32,
        ensures
            p@ == payload(fb_row(self.fb(), row as int)),
    {
        let ghost r = fb_row(self.fb(), row as int);
        let mut p: Vec<u8> = Vec::new();
        let mut b: usize = 0;
        while b < 8
            invariant
                self.wf(),
                row < 32,
                r == fb_row(self.fb(), row as int),
                b <= 8,
                p@.len() == 2 * b,
                forall|i: int| 0 <= i < 2 * b ==> p@[i] == #[trigger] payload(r)[i],
            decreases 8 - b,
        {
            let pair = scale(self.buf[row * 8 + b]);
            p.push(pair[0]);
            p.push(pair[1]);
            b += 1;
        }
        assert(p@ =~= payload(r));
        p
    }

    /// Renders logical row `row` at its two physical columns.
    fn render_row(&mut self, row: usize) -> (r: Result<(), Error>)
        requires
            old(self).wf(),
            row < 32,
        ensures
            final(self).fb() == old(self).fb(),
            r is Ok ==> final(self).log() == old(self).log() + render_events(
                row as int,
                fb_row(old(self).fb(), row as int),
            ),
            r is Err ==> failed_render(
                old(self).log(),
                final(self).log(),
                row as int,
                fb_row(old(self).fb(), row as int),
                r->Err_0,
            ),
            extends(old(self).log(), final(self).log()),
            final(self).failures() >= old(self).failures(),
            r is Ok <==> final(self).failures() == old(self).failures(),
    {
        let ghost l0 = self.log();
        let col: u8 = (2 * (31 - row)) as u8;
        let p = self.row_payload(row);
        match self.set_col(col) {
            Ok(()) => {},
            Err(e) => {
                return Err(e);
            },
        }
        let ghost l1 = self.log();
        match self.data(p.as_slice()) {
            Ok(()) => {},
            Err(e) => {
                proof {
                    lemma_extends_trans(l0, l1, self.log());
                }
                return Err(e);
            },
        }
        let ghost l2 = self.log();
        proof {
            lemma_extends_trans(l0, l1, l2);
        }
        match self.set_col(col + 1) {
            Ok(()) => {},
            Err(e) => {
                proof {
                    lemma_extends_trans(l0, l2, self.log());
                }
                return Err(e);
            },
        }
        let ghost l3 = self.log();
        proof {
            lemma_extends_trans(l0, l2, l3);
        }
        let r = self.data(p.as_slice());
        proof {
            lemma_extends_trans(l0, l3, self.log());
        }
        assert(r is Ok ==> final(self).log() =~= old(self).log() + render_events(
            row as int,
            fb_row(old(self).fb(), row as int),
        ));
        r
    }

    /// XOR-composites `data`, one byte a row, at column `x` and row `y`, and
    /// renders each row it touches. The column wraps at 64 pixels and the
    /// start row at 32 rows; bytes that would fall below the last row are
    /// not drawn. Returns `true` on success.
    #[verifier::rlimit(60)]
    pub fn xor(&mut self, x: u8, y: u8, data: &[u8]) -> (r: Result<bool, Error>)
        requires
            old(self).wf(),
        ensures
            final(self).wf(),
            r is Ok ==> r == Ok::<bool, Error>(true),
            r is Ok ==> final(self).fb() == composite(old(self).fb(), x, y, data@),
            r is Ok ==> final(self).log() == old(self).log() + xor_events(
                old(self).fb(),
                x,
                y,
                data@,
                drawn_rows(y, data@.len() as int),
            ),
            data@.len() == 0 ==> r == Ok::<bool, Error>(true) && final(self).fb() == old(
                self,
            ).fb() && final(self).log() == old(self).log(),
            r is Err ==> exists|j: int|
                0 <= j < drawn_rows(y, data@.len() as int) && final(self).fb() == composite(
                    old(self).fb(),
                    x,
                    y,
                    data@.take(j + 1),
                ) && failed_render(
                    old(self).log() + #[trigger] xor_events(old(self).fb(), x, y, data@, j),
                    final(self).log(),
                    start_row(y) + j,
                    row_after(fb_row(old(self).fb(), start_row(y) + j), x, data@[j]),
                    r->Err_0,
                ),
            extends(old(self).log(), final(self).log()),
            final(self).failures() >= old(self).failures(),
            r is Ok <==> final(self).failures() == old(self).failures(),
    {
        let ghost fb0 = self.fb();
        let ghost log0 = self.log();
        let off: u8 = x % 8;
        let idx: usize = ((x % 64) / 8) as usize;
        let y0: usize = (y % 32) as usize;
        let n: usize = if data.len() < 32 - y0 {
            data.len()
        } else {
            32 - y0
        };
        assert(self.buf@ =~= composite(fb0, x, y, data@.take(0))) by {
            assert forall|i: int| 0 <= i < 256 implies self.buf@[i] == #[trigger] composite(
                fb0,
                x,
                y,
                data@.take(0),
            )[i] by {}
        }
        let mut k: usize = 0;
        while k < n
            invariant
                self.wf(),
                fb0.len() == 256,
                k <= n,
                n == drawn_rows(y, data@.len() as int),
                y0 == start_row(y),
                off == x % 8,
                idx == (x % 64) / 8,
                self.buf@ == composite(fb0, x, y, data@.take(k as int)),
                fb0 == old(self).fb(),
                log0 == old(self).log(),
                self.failures() == old(self).failures(),
                self.log() == log0 + xor_events(fb0, x, y, data@, k as int),
            decreases n - k,
        {
            let row = y0 + k;
            let base = row * 8;
            let s = data[k];
            let ghost before = self.buf@;
            if off == 0 {
                let v = self.buf[base + idx] ^ s;
                self.buf.set(base + idx, v);
            } else {
                let v = self.buf[base + idx] ^ (s >> off);
                self.buf.set(base + idx, v);
                let j = base + (idx + 1) % 8;
                let w = self.buf[j] ^ (s << (8 - off));
                self.buf.set(j, w);
            }
            assert(self.buf@ =~= composite(fb0, x, y, data@.take(k + 1))) by {
                assert forall|i: int| 0 <= i < 256 implies self.buf@[i] == #[trigger] composite(
                    fb0,
                    x,
                    y,
                    data@.take(k + 1),
                )[i] by {
                    if i / 8 == row as int {
                        lemma_xor_zero(fb0[i]);
                    } else {
                        assert(before[i] == composite(fb0, x, y, data@.take(k as int))[i]);
                    }
                }
            }
            assert(fb_row(self.buf@, row as int) =~= row_after(fb_row(fb0, row as int), x, s));
            let ghost l_k = self.log();
            match self.render_row(row) {
                Ok(()) => {},
                Err(e) => {
                    proof {
                        assert(self.buf@ == composite(fb0, x, y, data@.take(k + 1)));
                        assert(l_k == log0 + xor_events(fb0, x, y, data@, (k + 1) - 1));
                        assert(extends(l_k, self.log()));
                        let j: int = k as int;
                        assert(0 <= j < drawn_rows(y, data@.len() as int));
                        assert(self.fb() == composite(fb0, x, y, data@.take(j + 1)));
                        assert(l_k == log0 + xor_events(fb0, x, y, data@, j));
                        assert(start_row(y) + j == row as int);
                        assert(data@[j] == s);
                        lemma_extends_concat(log0, xor_events(fb0, x, y, data@, k as int));
                        lemma_extends_trans(log0, l_k, self.log());
                    }
                    return Err(e);
                },
            }
            assert(self.log() =~= log0 + xor_events(fb0, x, y, data@, k + 1));
            k += 1;
        }
        assert(self.buf@ =~= composite(fb0, x, y, data@));
        proof {
            lemma_extends_concat(log0, xor_events(fb0, x, y, data@, n as int));
            if data@.len() == 0 {
                assert(self.buf@ =~= fb0);
                assert(self.log() =~= log0);
            }
        }
        Ok(true)
    }

    /// Writes a blank payload to every physical column, then empties the framebuffer.
    pub fn clear(&mut self) -> (r: Result<(), Error>)
        requires
            old(self).wf(),
        ensures
            final(self).wf(),
            r is Ok ==> final(self).fb() == blank(),
            r is Ok ==> final(self).log() == old(self).log() + clear_events(64),
            r is Err ==> final(self).fb() == old(self).fb(),
            r is Err ==> exists|c: int|
                0 <= c < 64 && extends(old(self).log() + #[trigger] clear_events(c), final(self).log())
                    && failed_clear_at(old(self).log(), final(self).log(), c, r->Err_0),
            r != Err::<(), Error>(Error::Reset),
            extends(old(self).log(), final(self).log()),
            final(self).failures() >= old(self).failures(),
            r is Ok <==> final(self).failures() == old(self).failures(),
    {
        let ghost log0 = self.log();
        let zeros = vec![0u8; 16];
        assert(zeros@ =~= Seq::new(16, |i: int| 0u8));
        let mut col: u8 = 0;
        while col < 64
            invariant
                col <= 64,
                self.wf(),
                self.fb() == old(self).fb(),
                zeros@ == Seq::new(16, |i: int| 0u8),
                self.log() == log0 + clear_events(col as int),
                log0 == old(self).log(),
                self.failures() == old(self).failures(),
            decreases 64 - col,
        {
            let ghost l_c = self.log();
            match self.set_col(col) {
                Ok(()) => {},
                Err(e) => {
                    proof {
                        assert(extends(log0 + clear_events(col as int), self.log()));
                        lemma_extends_concat(log0, clear_events(col as int));
                        lemma_extends_trans(log0, l_c, self.log());
                    }
                    return Err(e);
                },
            }
            let ghost l_m = self.log();
            match self.data(zeros.as_slice()) {
                Ok(()) => {},
                Err(e) => {
                    proof {
                        lemma_extends_concat(l_c, col_events(col));
                        lemma_extends_trans(l_c, l_m, self.log());
                        assert(extends(log0 + clear_events(col as int), self.log()));
                        lemma_extends_concat(log0, clear_events(col as int));
                        lemma_extends_trans(log0, l_c, self.log());
                    }
                    return Err(e);
                },
            }
            assert(self.log() =~= log0 + clear_events(col + 1));
            col += 1;
        }
        proof {
            lemma_extends_concat(log0, clear_events(64));
        }
        self.buf = vec![0u8; 256];
        assert(self.buf@ =~= blank());
        Ok(())
    }

    /// Pulses the reset line, configures the panel, blanks it and turns it on,
    /// stopping at the first step that fails.
    #[verifier::rlimit(60)]
    pub fn init(&mut self) -> (r: Result<(), Error>)
        requires
            old(self).wf(),
        ensures
            final(self).wf(),
            r is Ok ==> final(self).fb() == blank(),
            r is Ok ==> final(self).log() == old(self).log() + init_events(),
            r == Err::<(), Error>(Error::Reset) ==> final(self).fb() == old(self).fb() && (
            final(self).log() == old(self).log() || final(self).log() == old(self).log().push(
                BusEvent::Reset(true),
            ) || final(self).log() == old(self).log().push(BusEvent::Reset(true)).push(
                BusEvent::Reset(false),
            )),
            r is Err && r != Err::<(), Error>(Error::Reset) ==> failed_setup(
                old(self).log() + reset_pulse(),
                final(self).log(),
                r->Err_0,
            ),
            final(self).failures() >= old(self).failures(),
            r is Ok <==> final(self).failures() == old(self).failures(),
    {
        let ghost log0 = self.log();
        let pulse = match self.bus.set_reset(true) {
            Ok(()) => match self.bus.set_reset(false) {
                Ok(()) => self.bus.set_reset(true),
                Err(()) => Err(()),
            },
            Err(()) => Err(()),
        };
        match pulse {
            Ok(()) => {},
            Err(()) => {
                return Err(Error::Reset);
            },
        }
        let ghost lp = self.log();
        proof {
            assert(lp =~= log0 + reset_pulse());
            assert(lp + config_events(0) =~= lp);
        }
        proof {
            assert(config_events(1) == config_events(0) + frame(false, config_bytes(0)));
        }
        match self.set_display_start(0) {
            Ok(()) => {},
            Err(e) => {
                proof {
                    assert(failed_frame(lp + config_events(0), self.log(), false, config_bytes(0), e));
                }
                return Err(e);
            },
        }
        assert(self.log() =~= lp + config_events(1));
        proof {
            assert(config_events(2) == config_events(1) + frame(false, config_bytes(1)));
        }
        match self.set_contrast(0x80) {
            Ok(()) => {},
            Err(e) => {
                proof {
                    assert(failed_frame(lp + config_events(1), self.log(), false, config_bytes(1), e));
                }
                return Err(e);
            },
        }
        assert(self.log() =~= lp + config_events(2));
        proof {
            assert(config_events(3) == config_events(2) + frame(false, config_bytes(2)));
        }
        match self.set_vertical_addressing() {
            Ok(()) => {},
            Err(e) => {
                proof {
                    assert(failed_frame(lp + config_events(2), self.log(), false, config_bytes(2), e));
                }
                return Err(e);
            },
        }
        assert(self.log() =~= lp + config_events(3));
        proof {
            assert(config_events(4) == config_events(3) + frame(false, config_bytes(3)));
        }
        match self.set_dclk_osc_freq(0x41) {
            Ok(()) => {},
            Err(e) => {
                proof {
                    assert(failed_frame(lp + config_events(3), self.log(), false, config_bytes(3), e));
                }
                return Err(e);
            },
        }
        assert(self.log() =~= lp + config_events(4));
        proof {
            assert(config_events(5) == config_events(4) + frame(false, config_bytes(4)));
        }
        match self.set_pre_charge_period(0x22) {
            Ok(()) => {},
            Err(e) => {
                proof {
                    assert(failed_frame(lp + config_events(4), self.log(), false, config_bytes(4), e));
                }
                return Err(e);
            },
        }
        assert(self.log() =~= lp + config_events(5));
        proof {
            assert(config_events(6) == config_events(5) + frame(false, config_bytes(5)));
        }
        match self.set_vcom_deselect_level(0x35) {
            Ok(()) => {},
            Err(e) => {
                proof {
                    assert(failed_frame(lp + config_events(5), self.log(), false, config_bytes(5), e));
                }
                return Err(e);
            },
        }
        assert(self.log() =~= lp + config_events(6));
        proof {
            assert(config_events(7) == config_events(6) + frame(false, config_bytes(6)));
        }
        match self.set_display_offset(0x60) {
            Ok(()) => {},
            Err(e) => {
                proof {
                    assert(failed_frame(lp + config_events(6), self.log(), false, config_bytes(6), e));
                }
                return Err(e);
            },
        }
        assert(self.log() =~= lp + config_events(7));
        match self.clear() {
            Ok(()) => {},
            Err(e) => {
                proof {
                    let c = choose|c: int|
                        0 <= c < 64 && extends(lp + config_events(7) + #[trigger] clear_events(c), self.log())
                            && failed_clear_at(lp + config_events(7), self.log(), c, e);
                    assert(failed_clear_at(lp + config_events(7), self.log(), c, e));
                }
                return Err(e);
            },
        }
        let r = self.display_on();
        proof {
            if r is Err {
                assert(seq![0xAFu8] =~= seq![0xAFu8]);
            }
        }
        assert(r is Ok ==> self.log() =~= log0 + init_events());
        r
    }
}

} // verus!
