use vstd::prelude::*;

verus! {

/// A 4x4 table from (row, column) to the key value printed on the pad.
pub type Keymap = [[u8; 4]; 4];

/// Settle time after a column is energized, in microseconds.
pub const SETTLE_US: u32 = 500;

#[derive(Debug, Clone, Copy, PartialEq, Eq, Structural)]
pub enum Error {
    WritePin,
    ReadPin,
    Delay,
}

/// The rows that read high when the columns carry the levels `cols`: row `r`
/// is pulled high exactly when some energized column `c` has the switch at
/// `(r, c)` closed.
pub open spec fn row_high(pressed: Set<(int, int)>, cols: Seq<bool>, r: int) -> bool {
    exists|c: int| 0 <= c < 4 && cols[c] && #[trigger] pressed.contains((r, c))
}

pub open spec fn sensed(pressed: Set<(int, int)>, cols: Seq<bool>) -> Seq<bool> {
    Seq::new(4, |r: int| row_high(pressed, cols, r))
}

pub open spec fn any_high(rows: Seq<bool>) -> bool {
    rows[0] || rows[1] || rows[2] || rows[3]
}

/// Strict one-hot decoding of a row pattern.
pub open spec fn decode_rows(rows: Seq<bool>) -> Option<int> {
    if rows =~= seq![true, false, false, false] {
        Some(0)
    } else if rows =~= seq![false, true, false, false] {
        Some(1)
    } else if rows =~= seq![false, false, true, false] {
        Some(2)
    } else if rows =~= seq![false, false, false, true] {
        Some(3)
    } else {
        None
    }
}

/// Column levels with only column `c` energized.
pub open spec fn only_column(c: int) -> Seq<bool> {
    Seq::new(4, |i: int| i == c)
}

pub open spec fn all_columns(level: bool) -> Seq<bool> {
    seq![level, level, level, level]
}

pub open spec fn keymap_at(keymap: Keymap, r: int, c: int) -> u8 {
    keymap@[r]@[c]
}

/// The resolving scan from column `c` on: the first column whose rows decode
/// to a single row gives the key at that row and column.
pub open spec fn scan_from(keymap: Keymap, pressed: Set<(int, int)>, c: int) -> Option<u8>
    decreases 4 - c,
{
    if c >= 4 {
        None
    } else {
        match decode_rows(sensed(pressed, only_column(c))) {
            Some(r) => Some(keymap_at(keymap, r, c)),
            None => scan_from(keymap, pressed, c + 1),
        }
    }
}

/// What a scan reports for the switches `pressed` when the columns start at
/// the levels `idle`: no key unless some row reads high, else the resolving scan.
pub open spec fn key_outcome(keymap: Keymap, pressed: Set<(int, int)>, idle: Seq<bool>) -> Option<
    u8,
> {
    if !any_high(sensed(pressed, idle)) {
        None
    } else {
        scan_from(keymap, pressed, 0)
    }
}

proof fn lemma_scan_reaches(keymap: Keymap, r: int, c: int, j: int)
    requires
        0 <= r < 4,
        0 <= j <= c < 4,
    ensures
        scan_from(keymap, set![(r, c)], j) == Some(keymap_at(keymap, r, c)),
    decreases c - j,
{
    let p = set![(r, c)];
    let s = sensed(p, only_column(j));
    if j == c {
        assert(p.contains((r, c)));
        assert forall|i: int| 0 <= i < 4 implies s[i] == (i == r) by {
            if s[i] {
                let k = choose|k: int| 0 <= k < 4 && only_column(j)[k] && #[trigger] p.contains((i, k));
                assert(p.contains((i, k)));
            }
        }
        if r == 0 {
            assert(s =~= seq![true, false, false, false]);
        } else if r == 1 {
            assert(s =~= seq![false, true, false, false]);
        } else if r == 2 {
            assert(s =~= seq![false, false, true, false]);
        } else {
            assert(s =~= seq![false, false, false, true]);
        }
    } else {
        assert forall|i: int| 0 <= i < 4 implies !s[i] by {
            if s[i] {
                let k = choose|k: int| 0 <= k < 4 && only_column(j)[k] && #[trigger] p.contains((i, k));
                assert(p.contains((i, k)));
            }
        }
        assert(s =~= seq![false, false, false, false]);
        lemma_scan_reaches(keymap, r, c, j + 1);
    }
}

/// With a single switch closed and the columns idle high, a scan reports the
/// keymap's value at that switch's row and column, and nothing else.
pub proof fn lemma_single_key_resolves(keymap: Keymap, r: int, c: int)
    requires
        0 <= r < 4,
        0 <= c < 4,
    ensures
        key_outcome(keymap, set![(r, c)], all_columns(true)) == Some(keymap_at(keymap, r, c)),
{
    let p = set![(r, c)];
    assert(p.contains((r, c)));
    assert(all_columns(true)[c]);
    assert(row_high(p, all_columns(true), r));
    assert(sensed(p, all_columns(true))[r]);
    lemma_scan_reaches(keymap, r, c, 0);
}

/// One call made on the key matrix: a column driven to a level, or a row
/// read; the last field says whether the call succeeded.
#[derive(Debug, Clone, Copy, PartialEq, Eq, Structural)]
pub enum PinOp {
    Drive(usize, bool, bool),
    Read(usize, bool),
}

/// Rows `0..k` read successfully, in order.
pub open spec fn reads(k: int) -> Seq<PinOp> {
    Seq::new(k as nat, |i: int| PinOp::Read(i as usize, true))
}

/// Rows `0..k` read successfully, then a failed read of row `k`.
pub open spec fn failed_reads(k: int) -> Seq<PinOp> {
    reads(k).push(PinOp::Read(k as usize, false))
}

/// Columns `0..k` driven to `level` successfully, in order.
pub open spec fn writes(level: bool, k: int) -> Seq<PinOp> {
    Seq::new(k as nat, |i: int| PinOp::Drive(i as usize, level, true))
}

/// Columns `0..k` driven to `level`, then a failed write to column `k`.
pub open spec fn failed_writes(level: bool, k: int) -> Seq<PinOp> {
    writes(level, k).push(PinOp::Drive(k as usize, level, false))
}

/// The calls of the resolving scan from column `c` on when every call
/// succeeds: energize the column, read the four rows, and unless they
/// decode to one row, drive it low again and go on.
pub open spec fn scan_ops(pressed: Set<(int, int)>, c: int) -> Seq<PinOp>
    decreases 4 - c,
{
    if c >= 4 {
        seq![]
    } else {
        let head = seq![PinOp::Drive(c as usize, true, true)] + reads(4);
        match decode_rows(sensed(pressed, only_column(c))) {
            Some(_) => head,
            None => head.push(PinOp::Drive(c as usize, false, true)) + scan_ops(pressed, c + 1),
        }
    }
}

/// How many columns the resolving scan energizes from column `c` on.
pub open spec fn scanned_columns(pressed: Set<(int, int)>, c: int) -> nat
    decreases 4 - c,
{
    if c >= 4 {
        0
    } else {
        match decode_rows(sensed(pressed, only_column(c))) {
            Some(_) => 1,
            None => 1 + scanned_columns(pressed, c + 1),
        }
    }
}

/// `n` successful settle waits.
pub open spec fn settle_waits(n: nat) -> Seq<(u32, bool)> {
    Seq::new(n, |i: int| (SETTLE_US, true))
}

/// Every call of a full read, a whole scan and the restore, all succeeding.
pub open spec fn read_key_ops(pressed: Set<(int, int)>) -> Seq<PinOp> {
    reads(4) + writes(false, 4) + scan_ops(pressed, 0) + writes(true, 4)
}

/// The last call was a failed write driving a column high.
pub open spec fn ends_in_failed_raise(ops: Seq<PinOp>) -> bool {
    ops.len() > 0 && match ops.last() {
        PinOp::Drive(_, level, ok) => level && !ok,
        PinOp::Read(_, _) => false,
    }
}

/// `b` is `a` followed by more calls.
pub open spec fn extends<T>(a: Seq<T>, b: Seq<T>) -> bool {
    a.len() <= b.len() && b.subrange(0, a.len() as int) == a
}

pub open spec fn failed_read_in(ops: Seq<PinOp>, from: int) -> bool {
    exists|i: int| from <= i < ops.len() && #[trigger] ops[i] matches PinOp::Read(_, false)
}

pub open spec fn failed_write_in(ops: Seq<PinOp>, from: int) -> bool {
    exists|i: int| from <= i < ops.len() && #[trigger] ops[i] matches PinOp::Drive(_, _, false)
}

pub open spec fn failed_wait_in(waits: Seq<(u32, bool)>, from: int) -> bool {
    exists|i: int| from <= i < waits.len() && !(#[trigger] waits[i]).1
}

pub open spec fn ok_op(op: PinOp) -> bool {
    match op {
        PinOp::Drive(_, _, ok) => ok,
        PinOp::Read(_, ok) => ok,
    }
}

/// The shape of the calls `t` and waits `w` of one resolving scan: every
/// call but the last succeeded, and at most four waits, each of the settle
/// time, every one but the last successful.
pub open spec fn scan_shape(t: Seq<PinOp>, w: Seq<(u32, bool)>) -> bool {
    &&& t.len() > 0
    &&& w.len() <= 4
    &&& forall|j: int| 0 <= j < t.len() - 1 ==> ok_op(#[trigger] t[j])
    &&& forall|j: int|
        0 <= j < w.len() ==> (#[trigger] w[j]).0 == SETTLE_US && (j < w.len() - 1 ==> w[j].1)
}

/// The scan's error is the kind of its first failed call, which ended it.
pub open spec fn scan_result_matches(t: Seq<PinOp>, w: Seq<(u32, bool)>, r: Result<Option<u8>, Error>) -> bool {
    &&& (r == Err::<Option<u8>, Error>(Error::ReadPin) <==> t.last() matches PinOp::Read(_, false))
    &&& (r == Err::<Option<u8>, Error>(Error::WritePin) <==> t.last() matches PinOp::Drive(_, _, false))
    &&& (r == Err::<Option<u8>, Error>(Error::Delay) <==> (w.len() > 0 && !w.last().1))
}

/// The calls that drive every column high again: all four, or up to the first failure.
pub open spec fn restore_tail(s: Seq<PinOp>) -> bool {
    s == writes(true, 4) || exists|k: int| 0 <= k < 4 && s == #[trigger] failed_writes(true, k)
}

/// Four column outputs and four row inputs of a key matrix. An implementation
/// models its pins by overriding the spec functions. One that keeps the
/// defaults is described falsely: its calls do not change the default model
/// as the contracts say, and nothing proved here holds of it.
pub trait KeypadPins {
    /// The levels of the four column outputs.
    closed spec fn columns(&self) -> Seq<bool> {
        seq![false, false, false, false]
    }

    /// The closed switches, as (row, column) pairs.
    closed spec fn pressed(&self) -> Set<(int, int)> {
        Set::empty()
    }

    /// Every call made so far, in order.
    closed spec fn ops(&self) -> Seq<PinOp> {
        Seq::empty()
    }

    fn set_column(&mut self, col: usize, high: bool) -> (r: Result<(), ()>)
        requires
            old(self).columns().len() == 4,
            col < 4,
        ensures
            final(self).columns().len() == 4,
            final(self).pressed() == old(self).pressed(),
            final(self).ops() == old(self).ops().push(PinOp::Drive(col, high, r is Ok)),
            r is Ok ==> final(self).columns() == old(self).columns().update(col as int, high),
            r is Err ==> final(self).columns() == old(self).columns(),
    ;

    fn read_row(&mut self, row: usize) -> (r: Result<bool, ()>)
        requires
            old(self).columns().len() == 4,
            row < 4,
        ensures
            final(self).columns() == old(self).columns(),
            final(self).pressed() == old(self).pressed(),
            final(self).ops() == old(self).ops().push(PinOp::Read(row, r is Ok)),
            r is Ok ==> r->Ok_0 == row_high(old(self).pressed(), old(self).columns(), row as int),
    ;
}

/// A blocking microsecond delay. An implementation that keeps the default
/// `waits` is described falsely, as for `KeypadPins`.
pub trait DelayUs {
    /// Every wait asked for so far, with whether it succeeded.
    closed spec fn waits(&self) -> Seq<(u32, bool)> {
        Seq::empty()
    }

    fn delay_us(&mut self, us: u32) -> (r: Result<(), ()>)
        ensures
            final(self).waits() == old(self).waits().push((us, r is Ok)),
    ;
}

pub struct GpioKeypad<P: KeypadPins> {
    pins: P,
    keymap: Keymap,
}

pub open spec fn default_keymap() -> Keymap {
    [[0x1, 0x2, 0x3, 0xF], [0x4, 0x5, 0x6, 0xE], [0x7, 0x8, 0x9, 0xD], [0xA, 0x0, 0xB, 0xC]]
}

impl<P: KeypadPins> GpioKeypad<P> {
    pub closed spec fn pins_spec(&self) -> P {
        self.pins
    }

    pub closed spec fn keymap_spec(&self) -> Keymap {
        self.keymap
    }

    pub open spec fn wf(&self) -> bool {
        self.pins_spec().columns().len() == 4
    }

    pub fn new(pins: P) -> (r: Self)
        ensures
            r.pins_spec() == pins,
            r.keymap_spec() == default_keymap(),
    {
        GpioKeypad {
            pins,
            keymap: [[0x1, 0x2, 0x3, 0xF], [0x4, 0x5, 0x6, 0xE], [0x7, 0x8, 0x9, 0xD], [0xA, 0x0, 0xB, 0xC]],
        }
    }

    pub fn with_keymap(self, keymap: Keymap) -> (r: Self)
        ensures
            r.pins_spec() == self.pins_spec(),
            r.keymap_spec() == keymap,
    {
        GpioKeypad { pins: self.pins, keymap }
    }

    pub fn keymap(&self) -> (r: Keymap)
        ensures
            r == self.keymap_spec(),
    {
        self.keymap
    }

    pub fn pins(&self) -> (r: &P)
        ensures
            *r == self.pins_spec(),
    {
        &self.pins
    }

    pub fn into_pins(self) -> (r: P)
        ensures
            r == self.pins_spec(),
    {
        self.pins
    }

    /// Drives columns 0..3 to `high` in order, stopping at the first failed write.
    fn set_all(&mut self, high: bool) -> (r: Result<(), Error>)
        requires
            old(self).wf(),
        ensures
            final(self).wf(),
            final(self).keymap_spec() == old(self).keymap_spec(),
            final(self).pins_spec().pressed() == old(self).pins_spec().pressed(),
            r is Ok ==> final(self).pins_spec().columns() == all_columns(high)
                && final(self).pins_spec().ops() == old(self).pins_spec().ops() + writes(high, 4),
            r is Err ==> r == Err::<(), Error>(Error::WritePin) && exists|k: int|
                0 <= k < 4 && final(self).pins_spec().ops() == old(self).pins_spec().ops()
                    + #[trigger] failed_writes(high, k),
    {
        let ghost ops0 = self.pins.ops();
        let mut col: usize = 0;
        while col < 4
            invariant
                col <= 4,
                self.wf(),
                self.keymap == old(self).keymap_spec(),
                self.pins.pressed() == old(self).pins_spec().pressed(),
                ops0 == old(self).pins_spec().ops(),
                self.pins.ops() == ops0 + writes(high, col as int),
                forall|i: int| 0 <= i < col ==> self.pins.columns()[i] == high,
            decreases 4 - col,
        {
            match self.pins.set_column(col, high) {
                Ok(()) => {},
                Err(()) => {
                    assert(self.pins.ops() =~= ops0 + failed_writes(high, col as int));
                    return Err(Error::WritePin);
                },
            }
            assert(self.pins.ops() =~= ops0 + writes(high, col + 1));
            col += 1;
        }
        assert(self.pins.columns() =~= all_columns(high));
        Ok(())
    }

    /// Drives every column high, in order, the idle state in which a press on
    /// any column shows on its row.
    pub fn init(&mut self) -> (r: Result<(), Error>)
        requires
            old(self).wf(),
        ensures
            final(self).wf(),
            final(self).keymap_spec() == old(self).keymap_spec(),
            final(self).pins_spec().pressed() == old(self).pins_spec().pressed(),
            r is Ok ==> final(self).pins_spec().columns() == all_columns(true)
                && final(self).pins_spec().ops() == old(self).pins_spec().ops() + writes(true, 4),
            r is Err ==> r == Err::<(), Error>(Error::WritePin) && exists|k: int|
                0 <= k < 4 && final(self).pins_spec().ops() == old(self).pins_spec().ops()
                    + #[trigger] failed_writes(true, k),
    {
        self.set_all(true)
    }

    /// One settle wait.
    fn wait<D: DelayUs>(&self, delay: &mut D) -> (r: Result<(), Error>)
        ensures
            final(delay).waits() == old(delay).waits().push((SETTLE_US, r is Ok)),
            r is Err ==> r == Err::<(), Error>(Error::Delay),
    {
        match delay.delay_us(SETTLE_US) {
            Ok(()) => Ok(()),
            Err(()) => Err(Error::Delay),
        }
    }

    /// Reads rows 0..3 in order, stopping at the first failed read.
    fn read(&mut self) -> (r: Result<[bool; 4], Error>)
        requires
            old(self).wf(),
        ensures
            final(self).wf(),
            final(self).keymap_spec() == old(self).keymap_spec(),
            final(self).pins_spec().pressed() == old(self).pins_spec().pressed(),
            final(self).pins_spec().columns() == old(self).pins_spec().columns(),
            r is Ok ==> r->Ok_0@ == sensed(old(self).pins_spec().pressed(), old(self).pins_spec().columns())
                && final(self).pins_spec().ops() == old(self).pins_spec().ops() + reads(4),
            r is Err ==> r == Err::<[bool; 4], Error>(Error::ReadPin) && exists|k: int|
                0 <= k < 4 && final(self).pins_spec().ops() == old(self).pins_spec().ops()
                    + #[trigger] failed_reads(k),
    {
        let ghost ops0 = self.pins.ops();
        let ghost s = sensed(self.pins.pressed(), self.pins.columns());
        let mut rows: Vec<bool> = Vec::new();
        let mut row: usize = 0;
        while row < 4
            invariant
                row <= 4,
                self.wf(),
                self.keymap == old(self).keymap_spec(),
                self.pins.pressed() == old(self).pins_spec().pressed(),
                self.pins.columns() == old(self).pins_spec().columns(),
                s == sensed(self.pins.pressed(), self.pins.columns()),
                ops0 == old(self).pins_spec().ops(),
                self.pins.ops() == ops0 + reads(row as int),
                rows@ == s.take(row as int),
            decreases 4 - row,
        {
            match self.pins.read_row(row) {
                Ok(b) => {
                    rows.push(b);
                },
                Err(()) => {
                    assert(self.pins.ops() =~= ops0 + failed_reads(row as int));
                    return Err(Error::ReadPin);
                },
            }
            assert(self.pins.ops() =~= ops0 + reads(row + 1));
            assert(rows@ =~= s.take(row + 1));
            row += 1;
        }
        let a = [rows[0], rows[1], rows[2], rows[3]];
        assert(a@ =~= s);
        Ok(a)
    }

    fn try_rows(&mut self, col: usize) -> (r: Result<Option<u8>, Error>)
        requires
            old(self).wf(),
            col < 4,
        ensures
            final(self).wf(),
            final(self).keymap_spec() == old(self).keymap_spec(),
            final(self).pins_spec().pressed() == old(self).pins_spec().pressed(),
            final(self).pins_spec().columns() == old(self).pins_spec().columns(),
            r is Ok ==> final(self).pins_spec().ops() == old(self).pins_spec().ops() + reads(4)
                && r->Ok_0 == match decode_rows(
                sensed(old(self).pins_spec().pressed(), old(self).pins_spec().columns()),
            ) {
                Some(row) => Some(keymap_at(old(self).keymap_spec(), row, col as int)),
                None => None::<u8>,
            },
            r is Err ==> r == Err::<Option<u8>, Error>(Error::ReadPin) && exists|k: int|
                0 <= k < 4 && final(self).pins_spec().ops() == old(self).pins_spec().ops()
                    + #[trigger] failed_reads(k),
    {
        let rows = match self.read() {
            Ok(rows) => rows,
            Err(e) => {
                return Err(e);
            },
        };
        let row: Option<usize> = if rows[0] && !rows[1] && !rows[2] && !rows[3] {
            Some(0)
        } else if !rows[0] && rows[1] && !rows[2] && !rows[3] {
            Some(1)
        } else if !rows[0] && !rows[1] && rows[2] && !rows[3] {
            Some(2)
        } else if !rows[0] && !rows[1] && !rows[2] && rows[3] {
            Some(3)
        } else {
            None
        };
        proof {
            let s = rows@;
            if s =~= seq![true, false, false, false] {
            } else if s =~= seq![false, true, false, false] {
            } else if s =~= seq![false, false, true, false] {
            } else if s =~= seq![false, false, false, true] {
            }
        }
        match row {
            Some(i) => Ok(Some(self.keymap[i][col])),
            None => Ok(None),
        }
    }

    /// Whether any row reads high with the columns as they stand: reads rows
    /// 0..3 in order and writes nothing.
    pub fn key_is_pressed(&mut self) -> (r: Result<bool, Error>)
        requires
            old(self).wf(),
        ensures
            final(self).wf(),
            final(self).keymap_spec() == old(self).keymap_spec(),
            final(self).pins_spec().pressed() == old(self).pins_spec().pressed(),
            final(self).pins_spec().columns() == old(self).pins_spec().columns(),
            r is Ok ==> r->Ok_0 == any_high(
                sensed(old(self).pins_spec().pressed(), old(self).pins_spec().columns()),
            ) && final(self).pins_spec().ops() == old(self).pins_spec().ops() + reads(4),
            r is Err ==> r == Err::<bool, Error>(Error::ReadPin) && exists|k: int|
                0 <= k < 4 && final(self).pins_spec().ops() == old(self).pins_spec().ops()
                    + #[trigger] failed_reads(k),
    {
        match self.read() {
            Ok(rows) => Ok(rows[0] || rows[1] || rows[2] || rows[3]),
            Err(e) => Err(e),
        }
    }

    /// De-energizes all columns, then energizes them one at a time in order,
    /// each followed by a settle wait and a read of the rows, stopping at the
    /// first column whose rows decode to a single row.
    fn scan<D: DelayUs>(&mut self, delay: &mut D) -> (r: Result<Option<u8>, Error>)
        requires
            old(self).wf(),
        ensures
            final(self).wf(),
            final(self).keymap_spec() == old(self).keymap_spec(),
            final(self).pins_spec().pressed() == old(self).pins_spec().pressed(),
            extends(old(self).pins_spec().ops(), final(self).pins_spec().ops()),
            final(self).pins_spec().ops().len() > old(self).pins_spec().ops().len(),
            extends(old(delay).waits(), final(delay).waits()),
            r is Ok ==> r->Ok_0 == scan_from(
                old(self).keymap_spec(),
                old(self).pins_spec().pressed(),
                0,
            ) && final(self).pins_spec().ops() == old(self).pins_spec().ops() + writes(false, 4)
                + scan_ops(old(self).pins_spec().pressed(), 0) && final(delay).waits() == old(
                delay,
            ).waits() + settle_waits(scanned_columns(old(self).pins_spec().pressed(), 0)),
            r == Err::<Option<u8>, Error>(Error::ReadPin) ==> failed_read_in(
                final(self).pins_spec().ops(),
                old(self).pins_spec().ops().len() as int,
            ),
            r == Err::<Option<u8>, Error>(Error::WritePin) ==> failed_write_in(
                final(self).pins_spec().ops(),
                old(self).pins_spec().ops().len() as int,
            ),
            r == Err::<Option<u8>, Error>(Error::Delay) ==> failed_wait_in(
                final(delay).waits(),
                old(delay).waits().len() as int,
            ),
            scan_shape(
                final(self).pins_spec().ops().subrange(
                    old(self).pins_spec().ops().len() as int,
                    final(self).pins_spec().ops().len() as int,
                ),
                final(delay).waits().subrange(
                    old(delay).waits().len() as int,
                    final(delay).waits().len() as int,
                ),
            ),
            scan_result_matches(
                final(self).pins_spec().ops().subrange(
                    old(self).pins_spec().ops().len() as int,
                    final(self).pins_spec().ops().len() as int,
                ),
                final(delay).waits().subrange(
                    old(delay).waits().len() as int,
                    final(delay).waits().len() as int,
                ),
                r,
            ),
    {
        let ghost ops0 = self.pins.ops();
        let ghost w0 = delay.waits();
        proof {
            lemma_extends_concat(w0, Seq::empty());
            assert(w0 + Seq::<(u32, bool)>::empty() =~= w0);
        }
        match self.set_all(false) {
            Ok(()) => {},
            Err(e) => {
                proof {
                    let k = choose|k: int|
                        0 <= k < 4 && self.pins.ops() == ops0 + #[trigger] failed_writes(false, k);
                    assert(self.pins.ops()[ops0.len() + k] == PinOp::Drive(k as usize, false, false));
                    lemma_extends_concat(ops0, failed_writes(false, k));
                }
                return Err(e);
            },
        }
        let ghost base = self.pins.ops();
        proof {
            lemma_extends_concat(ops0, writes(false, 4));
        }
        let ghost keymap = self.keymap;
        let ghost pressed = self.pins.pressed();
        let mut col: usize = 0;
        while col < 4
            invariant
                col <= 4,
                self.wf(),
                self.keymap == keymap,
                keymap == old(self).keymap_spec(),
                self.pins.pressed() == pressed,
                pressed == old(self).pins_spec().pressed(),
                ops0 == old(self).pins_spec().ops(),
                w0 == old(delay).waits(),
                base == ops0 + writes(false, 4),
                extends(ops0, self.pins.ops()),
                self.pins.ops().len() > ops0.len(),
                extends(w0, delay.waits()),
                self.pins.columns() == all_columns(false),
                self.pins.ops() + scan_ops(pressed, col as int) == base + scan_ops(pressed, 0),
                delay.waits() + settle_waits(scanned_columns(pressed, col as int)) == w0
                    + settle_waits(scanned_columns(pressed, 0)),
                scan_from(keymap, pressed, 0) == scan_from(keymap, pressed, col as int),
                forall|j: int| ops0.len() <= j < self.pins.ops().len() ==> ok_op(#[trigger] self.pins.ops()[j]),
                delay.waits().len() == w0.len() + col,
                forall|j: int| w0.len() <= j < delay.waits().len() ==> #[trigger] delay.waits()[j] == (SETTLE_US, true),
            decreases 4 - col,
        {
            let ghost ops_c = self.pins.ops();
            let ghost w_c = delay.waits();
            match self.pins.set_column(col, true) {
                Ok(()) => {},
                Err(()) => {
                    proof {
                        lemma_extends_concat(ops_c, seq![PinOp::Drive(col, true, false)]);
                        assert(self.pins.ops() =~= ops_c + seq![PinOp::Drive(col, true, false)]);
                        lemma_extends_trans(ops0, ops_c, self.pins.ops());
                        assert(self.pins.ops()[ops_c.len() as int] == PinOp::Drive(col, true, false));
                    }
                    return Err(Error::WritePin);
                },
            }
            assert(self.pins.columns() =~= only_column(col as int));
            match self.wait(delay) {
                Ok(()) => {},
                Err(e) => {
                    proof {
                        lemma_extends_concat(w_c, seq![(SETTLE_US, false)]);
                        assert(delay.waits() =~= w_c + seq![(SETTLE_US, false)]);
                        lemma_extends_trans(w0, w_c, delay.waits());
                        assert(!delay.waits()[w_c.len() as int].1);
                        lemma_extends_concat(ops_c, seq![PinOp::Drive(col, true, true)]);
                        assert(self.pins.ops() =~= ops_c + seq![PinOp::Drive(col, true, true)]);
                        lemma_extends_trans(ops0, ops_c, self.pins.ops());
                    }
                    return Err(e);
                },
            }
            let ghost ops1 = self.pins.ops();
            let ghost head = seq![PinOp::Drive(col, true, true)] + reads(4);
            match self.try_rows(col) {
                Ok(Some(key)) => {
                    proof {
                        assert(self.pins.ops() =~= ops_c + head);
                        assert(scan_ops(pressed, col as int) == head);
                        lemma_extends_concat(ops_c, head);
                        lemma_extends_trans(ops0, ops_c, self.pins.ops());
                        assert(scanned_columns(pressed, col as int) == 1);
                        assert(settle_waits(1) =~= seq![(SETTLE_US, true)]);
                        assert(delay.waits() =~= w_c + settle_waits(1));
                        lemma_extends_concat(w_c, settle_waits(1));
                        lemma_extends_trans(w0, w_c, delay.waits());
                        assert(base + scan_ops(pressed, 0) =~= ops0 + writes(false, 4) + scan_ops(pressed, 0));
                    }
                    return Ok(Some(key));
                },
                Ok(None) => {},
                Err(e) => {
                    proof {
                        let k = choose|k: int|
                            0 <= k < 4 && self.pins.ops() == ops1 + #[trigger] failed_reads(k);
                        assert(self.pins.ops()[ops1.len() + k] == PinOp::Read(k as usize, false));
                        let suffix = seq![PinOp::Drive(col, true, true)] + failed_reads(k);
                        assert(self.pins.ops() =~= ops_c + suffix);
                        lemma_extends_concat(ops_c, suffix);
                        lemma_extends_trans(ops0, ops_c, self.pins.ops());
                        lemma_extends_concat(w_c, seq![(SETTLE_US, true)]);
                        assert(delay.waits() =~= w_c + seq![(SETTLE_US, true)]);
                        lemma_extends_trans(w0, w_c, delay.waits());
                    }
                    return Err(e);
                },
            }
            match self.pins.set_column(col, false) {
                Ok(()) => {},
                Err(()) => {
                    proof {
                        let suffix = head.push(PinOp::Drive(col, false, false));
                        assert(self.pins.ops() =~= ops_c + suffix);
                        lemma_extends_concat(ops_c, suffix);
                        lemma_extends_trans(ops0, ops_c, self.pins.ops());
                        assert(self.pins.ops()[self.pins.ops().len() - 1] == PinOp::Drive(col, false, false));
                        lemma_extends_concat(w_c, seq![(SETTLE_US, true)]);
                        assert(delay.waits() =~= w_c + seq![(SETTLE_US, true)]);
                        lemma_extends_trans(w0, w_c, delay.waits());
                    }
                    return Err(Error::WritePin);
                },
            }
            proof {
                let suffix = head.push(PinOp::Drive(col, false, true));
                assert(self.pins.ops() =~= ops_c + suffix);
                lemma_extends_concat(ops_c, suffix);
                lemma_extends_trans(ops0, ops_c, self.pins.ops());
                assert(scan_ops(pressed, col as int) == suffix + scan_ops(pressed, col + 1));
                assert(self.pins.ops() + scan_ops(pressed, col + 1) =~= ops_c + scan_ops(pressed, col as int));
                assert(scanned_columns(pressed, col as int) == 1 + scanned_columns(pressed, col + 1));
                assert(delay.waits() + settle_waits(scanned_columns(pressed, col + 1)) =~= w_c
                    + settle_waits(scanned_columns(pressed, col as int)));
                lemma_extends_concat(w_c, seq![(SETTLE_US, true)]);
                assert(delay.waits() =~= w_c + seq![(SETTLE_US, true)]);
                lemma_extends_trans(w0, w_c, delay.waits());
            }
            assert(self.pins.columns() =~= all_columns(false));
            col += 1;
        }
        proof {
            assert(self.pins.ops() =~= self.pins.ops() + scan_ops(pressed, 4));
            assert(delay.waits() =~= delay.waits() + settle_waits(0));
        }
        Ok(None)
    }

    /// Reads the pressed key, if exactly one can be resolved. Reads the rows
    /// first; when none is high it returns `None` with no write and no wait.
    /// Otherwise it scans, then drives every column high again, whatever the
    /// scan gave.
    pub fn read_key<D: DelayUs>(&mut self, delay: &mut D) -> (r: Result<Option<u8>, Error>)
        requires
            old(self).wf(),
        ensures
            final(self).wf(),
            final(self).keymap_spec() == old(self).keymap_spec(),
            final(self).pins_spec().pressed() == old(self).pins_spec().pressed(),
            extends(old(self).pins_spec().ops(), final(self).pins_spec().ops()),
            extends(old(delay).waits(), final(delay).waits()),
            r is Ok ==> r->Ok_0 == key_outcome(
                old(self).keymap_spec(),
                old(self).pins_spec().pressed(),
                old(self).pins_spec().columns(),
            ),
            !any_high(sensed(old(self).pins_spec().pressed(), old(self).pins_spec().columns()))
                ==> final(self).pins_spec().columns() == old(self).pins_spec().columns()
                && final(delay).waits() == old(delay).waits() && (final(self).pins_spec().ops()
                == old(self).pins_spec().ops() + reads(4) || exists|k: int|
                0 <= k < 4 && final(self).pins_spec().ops() == old(self).pins_spec().ops()
                    + #[trigger] failed_reads(k)),
            r is Ok && any_high(
                sensed(old(self).pins_spec().pressed(), old(self).pins_spec().columns()),
            ) ==> final(self).pins_spec().ops() == old(self).pins_spec().ops() + read_key_ops(
                old(self).pins_spec().pressed(),
            ) && final(delay).waits() == old(delay).waits() + settle_waits(
                scanned_columns(old(self).pins_spec().pressed(), 0),
            ) && final(self).pins_spec().columns() == all_columns(true),
            final(self).pins_spec().ops().len() <= old(self).pins_spec().ops().len() + 4
                ==> final(self).pins_spec().columns() == old(self).pins_spec().columns()
                && final(delay).waits() == old(delay).waits(),
            final(self).pins_spec().ops().len() > old(self).pins_spec().ops().len() + 4
                ==> final(self).pins_spec().columns() == all_columns(true) || ends_in_failed_raise(
                final(self).pins_spec().ops(),
            ),
            old(self).pins_spec().columns() == all_columns(true) ==> final(self).pins_spec().columns()
                == all_columns(true) || ends_in_failed_raise(
                final(self).pins_spec().ops(),
            ),
            r == Err::<Option<u8>, Error>(Error::ReadPin) ==> failed_read_in(
                final(self).pins_spec().ops(),
                old(self).pins_spec().ops().len() as int,
            ),
            r == Err::<Option<u8>, Error>(Error::WritePin) ==> failed_write_in(
                final(self).pins_spec().ops(),
                old(self).pins_spec().ops().len() as int,
            ),
            r == Err::<Option<u8>, Error>(Error::Delay) ==> failed_wait_in(
                final(delay).waits(),
                old(delay).waits().len() as int,
            ),
            final(self).pins_spec().ops().len() > old(self).pins_spec().ops().len() + 4 ==> exists|
                m: int,
            |
                old(self).pins_spec().ops().len() + 4 < m <= final(self).pins_spec().ops().len()
                    && final(self).pins_spec().ops().subrange(
                    old(self).pins_spec().ops().len() as int,
                    old(self).pins_spec().ops().len() + 4int,
                ) == reads(4) && #[trigger] restore_tail(
                    final(self).pins_spec().ops().subrange(m, final(self).pins_spec().ops().len() as int),
                ) && scan_shape(
                    final(self).pins_spec().ops().subrange(old(self).pins_spec().ops().len() + 4int, m),
                    final(delay).waits().subrange(
                        old(delay).waits().len() as int,
                        final(delay).waits().len() as int,
                    ),
                ) && (final(self).pins_spec().ops().subrange(
                    m,
                    final(self).pins_spec().ops().len() as int,
                ) == writes(true, 4) ==> scan_result_matches(
                    final(self).pins_spec().ops().subrange(old(self).pins_spec().ops().len() + 4int, m),
                    final(delay).waits().subrange(
                        old(delay).waits().len() as int,
                        final(delay).waits().len() as int,
                    ),
                    r,
                )),
    {
        let ghost ops0 = self.pins.ops();
        let ghost w0 = delay.waits();
        proof {
            assert(w0.subrange(0, w0.len() as int) =~= w0);
        }
        match self.key_is_pressed() {
            Ok(true) => {},
            Ok(false) => {
                proof {
                    lemma_extends_concat(ops0, reads(4));
                }
                return Ok(None);
            },
            Err(e) => {
                proof {
                    let k = choose|k: int|
                        0 <= k < 4 && self.pins.ops() == ops0 + #[trigger] failed_reads(k);
                    assert(self.pins.ops()[ops0.len() + k] == PinOp::Read(k as usize, false));
                    lemma_extends_concat(ops0, failed_reads(k));
                }
                return Err(e);
            },
        }
        let ghost ops1 = self.pins.ops();
        proof {
            lemma_extends_concat(ops0, reads(4));
        }
        let scanned = self.scan(delay);
        let ghost ops2 = self.pins.ops();
        proof {
            lemma_extends_trans(ops0, ops1, ops2);
        }
        match self.set_all(true) {
            Ok(()) => {
                proof {
                    lemma_extends_concat(ops2, writes(true, 4));
                    lemma_extends_trans(ops0, ops2, self.pins.ops());
                    if scanned == Err::<Option<u8>, Error>(Error::ReadPin) {
                        let i = choose|i: int| ops1.len() <= i < ops2.len() && #[trigger] ops2[i] matches PinOp::Read(_, false);
                        assert(self.pins.ops()[i] == ops2[i]);
                    }
                    if scanned == Err::<Option<u8>, Error>(Error::WritePin) {
                        let i = choose|i: int| ops1.len() <= i < ops2.len() && #[trigger] ops2[i] matches PinOp::Drive(_, _, false);
                        assert(self.pins.ops()[i] == ops2[i]);
                    }
                    if scanned is Ok {
                        assert(self.pins.ops() =~= ops0 + read_key_ops(self.pins.pressed()));
                    }
                    let l = self.pins.ops();
                    let m = ops2.len() as int;
                    assert(l.subrange(m, l.len() as int) =~= writes(true, 4));
                    assert(l.subrange(ops0.len() + 4int, m) =~= ops2.subrange(ops1.len() as int, m));
                    lemma_extends_trans(ops1, ops2, l);
                    assert(ops1 == ops0 + reads(4));
                    assert forall|i: int| 0 <= i < 4 implies l[ops0.len() + i] == reads(4)[i] by {
                        assert(l.subrange(0, ops1.len() as int)[ops0.len() + i] == l[ops0.len() + i]);
                    }
                    assert(l.subrange(ops0.len() as int, ops0.len() + 4int) =~= reads(4));
                    assert(restore_tail(l.subrange(m, l.len() as int)));
                }
                scanned
            },
            Err(e) => {
                proof {
                    let k = choose|k: int|
                        0 <= k < 4 && self.pins.ops() == ops2 + #[trigger] failed_writes(true, k);
                    assert(self.pins.ops()[ops2.len() + k] == PinOp::Drive(k as usize, true, false));
                    lemma_extends_concat(ops2, failed_writes(true, k));
                    lemma_extends_trans(ops0, ops2, self.pins.ops());
                    let l = self.pins.ops();
                    let m = ops2.len() as int;
                    assert(l.subrange(m, l.len() as int) =~= failed_writes(true, k));
                    assert(l.subrange(ops0.len() + 4int, m) =~= ops2.subrange(ops1.len() as int, m));
                    lemma_extends_trans(ops1, ops2, l);
                    assert(ops1 == ops0 + reads(4));
                    assert forall|i: int| 0 <= i < 4 implies l[ops0.len() + i] == reads(4)[i] by {
                        assert(l.subrange(0, ops1.len() as int)[ops0.len() + i] == l[ops0.len() + i]);
                    }
                    assert(l.subrange(ops0.len() as int, ops0.len() + 4int) =~= reads(4));
                    assert(restore_tail(l.subrange(m, l.len() as int)));
                    assert(l.subrange(m, l.len() as int) != writes(true, 4));
                }
                Err(e)
            },
        }
    }
}

pub proof fn lemma_extends_concat<T>(a: Seq<T>, s: Seq<T>)
    ensures
        extends(a, a + s),
{
    assert((a + s).subrange(0, a.len() as int) =~= a);
}

pub proof fn lemma_extends_trans<T>(a: Seq<T>, b: Seq<T>, c: Seq<T>)
    requires
        extends(a, b),
        extends(b, c),
    ensures
        extends(a, c),
{
    assert forall|i: int| 0 <= i < a.len() implies c[i] == a[i] by {
        assert(c.subrange(0, b.len() as int)[i] == c[i]);
        assert(b.subrange(0, a.len() as int)[i] == b[i]);
    }
    assert(c.subrange(0, a.len() as int) =~= a);
}

/// A key matrix held in memory: the closed switches, the column levels, a log
/// of every call, and optional faults to inject on a column.
pub struct SimKeypad {
    closed: Vec<bool>,
    levels: Vec<bool>,
    log: Vec<PinOp>,
    failing_read_column: Option<usize>,
    failing_write_column: Option<usize>,
}

impl SimKeypad {
    /// A matrix with every switch open and every column low.
    pub fn new() -> (r: Self)
        ensures
            r.columns() == all_columns(false),
            r.pressed() == Set::<(int, int)>::empty(),
            r.ops() == Seq::<PinOp>::empty(),
    {
        let r = SimKeypad {
            closed: vec![false; 16],
            levels: vec![false; 4],
            log: Vec::new(),
            failing_read_column: None,
            failing_write_column: None,
        };
        assert(r.levels@ =~= all_columns(false));
        assert(r.pressed() =~= Set::<(int, int)>::empty());
        r
    }

    /// Closes the switch at (`row`, `col`).
    pub fn press(&mut self, row: usize, col: usize)
        requires
            row < 4,
            col < 4,
        ensures
            final(self).columns() == old(self).columns(),
            final(self).ops() == old(self).ops(),
            final(self).pressed() == old(self).pressed().insert((row as int, col as int)),
    {
        let i = row * 4 + col;
        while self.closed.len() <= i
            invariant
                i == row * 4 + col,
                i < 16,
                self.levels == old(self).levels,
                self.log == old(self).log,
                self.closed@.len() >= old(self).closed@.len(),
                forall|k: int|
                    0 <= k < self.closed@.len() ==> #[trigger] self.closed@[k] == (k
                        < old(self).closed@.len() && old(self).closed@[k]),
            decreases 16 - self.closed.len(),
        {
            self.closed.push(false);
        }
        self.closed.set(i, true);
        assert(final(self).pressed() =~= old(self).pressed().insert((row as int, col as int))) by {
            assert forall|p: (int, int)| #[trigger] final(self).pressed().contains(p) == old(self).pressed().insert((row as int, col as int)).contains(p) by {
                if 0 <= p.0 < 4 && 0 <= p.1 < 4 {
                    assert(4 * p.0 + p.1 < 16);
                }
            }
        }
    }

    /// Makes every row read fail while column `col` is high.
    pub fn fail_reads_on(&mut self, col: usize)
        ensures
            final(self).columns() == old(self).columns(),
            final(self).ops() == old(self).ops(),
            final(self).pressed() == old(self).pressed(),
    {
        self.failing_read_column = Some(col);
    }

    /// Makes every write to column `col` fail.
    pub fn fail_writes_on(&mut self, col: usize)
        ensures
            final(self).columns() == old(self).columns(),
            final(self).ops() == old(self).ops(),
            final(self).pressed() == old(self).pressed(),
    {
        self.failing_write_column = Some(col);
    }

    /// The column levels.
    pub fn levels(&self) -> (r: Vec<bool>)
        ensures
            r@ == self.columns(),
    {
        self.levels.clone()
    }

    /// Every call made so far, in order.
    pub fn op_log(&self) -> (r: &Vec<PinOp>)
        ensures
            r@ == self.ops(),
    {
        &self.log
    }

    fn row_is_high(&self, r: usize) -> (b: bool)
        requires
            r < 4,
            self.levels@.len() == 4,
        ensures
            b == row_high(self.pressed(), self.columns(), r as int),
    {
        let mut c: usize = 0;
        while c < 4
            invariant
                c <= 4,
                r < 4,
                self.levels@.len() == 4,
                forall|k: int| 0 <= k < c ==> !(self.columns()[k] && self.pressed().contains((r as int, k))),
            decreases 4 - c,
        {
            let i = r * 4 + c;
            if self.levels[c] && i < self.closed.len() && self.closed[i] {
                assert(self.pressed().contains((r as int, c as int)));
                return true;
            }
            c += 1;
        }
        false
    }
}

impl KeypadPins for SimKeypad {
    closed spec fn columns(&self) -> Seq<bool> {
        self.levels@
    }

    closed spec fn pressed(&self) -> Set<(int, int)> {
        Set::new(
            |p: (int, int)|
                0 <= p.0 < 4 && 0 <= p.1 < 4 && 4 * p.0 + p.1 < self.closed@.len() && self.closed@[4
                    * p.0 + p.1],
        )
    }

    closed spec fn ops(&self) -> Seq<PinOp> {
        self.log@
    }

    fn set_column(&mut self, col: usize, high: bool) -> (r: Result<(), ()>) {
        match self.failing_write_column {
            Some(c) => {
                if c == col {
                    self.log.push(PinOp::Drive(col, high, false));
                    return Err(());
                }
            },
            None => {},
        }
        self.log.push(PinOp::Drive(col, high, true));
        self.levels.set(col, high);
        Ok(())
    }

    fn read_row(&mut self, row: usize) -> (r: Result<bool, ()>) {
        match self.failing_read_column {
            Some(c) => {
                if c < 4 && self.levels[c] {
                    self.log.push(PinOp::Read(row, false));
                    return Err(());
                }
            },
            None => {},
        }
        let b = self.row_is_high(row);
        self.log.push(PinOp::Read(row, true));
        Ok(b)
    }
}

/// A delay that does not wait: it records every wait asked for, and can be
/// told to fail them all.
pub struct SimDelay {
    log: Vec<(u32, bool)>,
    failing: bool,
}

impl SimDelay {
    pub fn new() -> (r: Self)
        ensures
            r.waits() == Seq::<(u32, bool)>::empty(),
    {
        SimDelay { log: Vec::new(), failing: false }
    }

    /// Makes every later wait fail.
    pub fn fail(&mut self)
        ensures
            final(self).waits() == old(self).waits(),
    {
        self.failing = true;
    }

    /// Every wait asked for so far, in microseconds, with whether it succeeded.
    pub fn wait_log(&self) -> (r: &Vec<(u32, bool)>)
        ensures
            r@ == self.waits(),
    {
        &self.log
    }
}

impl DelayUs for SimDelay {
    closed spec fn waits(&self) -> Seq<(u32, bool)> {
        self.log@
    }

    fn delay_us(&mut self, us: u32) -> (r: Result<(), ()>) {
        if self.failing {
            self.log.push((us, false));
            Err(())
        } else {
            self.log.push((us, true));
            Ok(())
        }
    }
}

} // verus!
