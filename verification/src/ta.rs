//! Trim-area (`.ta`) files: a text format that lists a partition number and
//! the units to write into it, each unit a number, a size and the bytes of
//! its data in hexadecimal.

use vstd::prelude::*;
use vstd::string::StringSliceAdditionalSpecFns;

use vstd::utf8::{encode_utf8, is_char_boundary};

use crate::number::{
    all_radix_digits, format_radix, is_radix_digit, lemma_parse_padded, lemma_radix_digits_len,
    lemma_radix_digits_value, pad_left, parse_bounded, parse_unsigned_bytes, radix_digits,
};
use crate::text::push_all;
use crate::text::{is_ascii_digit, is_comment, trim, trim_chars, trim_end_chars, trim_start_chars};
use crate::types::ByteVec;

verus! {

/// The pieces of `s` between single spaces, as `split(|b| b == b' ')`
/// yields them (an empty `s` gives one empty piece).
pub open spec fn split_spaces(s: Seq<u8>) -> Seq<Seq<u8>>
    decreases s.len(),
{
    if s.len() == 0 {
        seq![Seq::<u8>::empty()]
    } else {
        let prev = split_spaces(s.drop_last());
        if s.last() == 32u8 {
            prev.push(Seq::<u8>::empty())
        } else {
            prev.update(prev.len() - 1, prev.last().push(s.last()))
        }
    }
}

/// The byte that a two-character hexadecimal piece denotes.
pub open spec fn hex_byte(p: Seq<u8>) -> Option<u8> {
    if p.len() == 2 {
        match parse_bounded(p, 16, 255) {
            Some(v) => Some(v as u8),
            None => None,
        }
    } else {
        None
    }
}

/// The bytes that a list of pieces denotes, if each is a hexadecimal byte.
pub open spec fn hex_pieces_value(ps: Seq<Seq<u8>>) -> Option<Seq<u8>>
    decreases ps.len(),
{
    if ps.len() == 0 {
        Some(Seq::<u8>::empty())
    } else {
        match (hex_pieces_value(ps.drop_last()), hex_byte(ps.last())) {
            (Some(v), Some(b)) => Some(v.push(b)),
            _ => None,
        }
    }
}

/// The bytes that a line of space-separated two-digit hexadecimal numbers
/// denotes; `None` if any piece is not such a number.
pub open spec fn parse_hex_bytes(s: Seq<u8>) -> Option<Seq<u8>> {
    hex_pieces_value(split_spaces(s))
}

fn hex_byte_of(p: &[u8]) -> (r: Option<u8>)
    ensures
        r == hex_byte(p@),
{
    if p.len() != 2 {
        return None;
    }
    match parse_unsigned_bytes(p, 16, 255) {
        Some(v) => Some(v as u8),
        None => None,
    }
}

fn hex_bytes_of(s: &[u8]) -> (r: Option<Vec<u8>>)
    ensures
        match parse_hex_bytes(s@) {
            Some(v) => r is Some && r->0@ == v,
            None => r is None,
        },
{
    let mut out: Vec<u8> = Vec::new();
    let mut cur: Vec<u8> = Vec::new();
    let mut ok = true;
    let mut i: usize = 0;
    assert(s@.take(0) =~= Seq::<u8>::empty());
    assert(split_spaces(Seq::<u8>::empty()).drop_last() =~= Seq::<Seq<u8>>::empty());
    while i < s.len()
        invariant
            i <= s.len(),
            split_spaces(s@.take(i as int)).len() >= 1,
            cur@ == split_spaces(s@.take(i as int)).last(),
            ok ==> hex_pieces_value(split_spaces(s@.take(i as int)).drop_last()) == Some(out@),
            !ok ==> hex_pieces_value(split_spaces(s@.take(i as int)).drop_last()) is None,
        decreases s.len() - i,
    {
        let b = s[i];
        let ghost sp = split_spaces(s@.take(i as int));
        let ghost next = s@.take(i + 1);
        assert(next.drop_last() =~= s@.take(i as int));
        assert(next.last() == b);
        if b == 32u8 {
            assert(split_spaces(next) == sp.push(Seq::<u8>::empty()));
            assert(split_spaces(next).drop_last() =~= sp);
            if ok {
                match hex_byte_of(cur.as_slice()) {
                    Some(v) => {
                        out.push(v);
                    },
                    None => {
                        ok = false;
                    },
                }
            }
            cur = Vec::new();
        } else {
            assert(split_spaces(next) == sp.update(sp.len() - 1, sp.last().push(b)));
            assert(split_spaces(next).drop_last() =~= sp.drop_last());
            cur.push(b);
        }
        i = i + 1;
    }
    assert(s@.take(s.len() as int) =~= s@);
    if ok {
        match hex_byte_of(cur.as_slice()) {
            Some(v) => {
                out.push(v);
                Some(out)
            },
            None => None,
        }
    } else {
        None
    }
}

/// The data of a line of a trim-area unit: space-separated two-digit
/// hexadecimal bytes.
pub fn parse_hex_string(hex: &str) -> (r: Result<ByteVec, TaError>)
    ensures
        match parse_hex_bytes(hex.spec_bytes()) {
            Some(v) => r is Ok && r->Ok_0@ == v,
            None => r == Err::<ByteVec, TaError>(TaError::InvalidUnitData),
        },
{
    match hex_bytes_of(hex.as_bytes()) {
        Some(v) => Ok(ByteVec::from_vec(v)),
        None => Err(TaError::InvalidUnitData),
    }
}

/// The units that are never written from a trim-area file spread over
/// several lines: hardware configuration, SIM lock and its signature, device
/// name, device id and DRM key.
pub open spec fn spec_is_blacklisted(unit: usize) -> bool {
    unit == 0x7D3 || unit == 0x7DA || unit == 0x851 || unit == 0x8A2 || unit == 0x1324 || unit
        == 0x1046B
}

/// Whether `unit` is one of the units that are kept from being written.
pub fn is_blacklisted(unit: usize) -> (r: bool)
    ensures
        r == spec_is_blacklisted(unit),
{
    unit == 0x7D3 || unit == 0x7DA || unit == 0x851 || unit == 0x8A2 || unit == 0x1324 || unit
        == 0x1046B
}

/// Why a trim-area text was refused.
#[derive(Clone, Copy, Debug, PartialEq, Eq, Structural)]
pub enum TaError {
    /// The partition line is not two characters long.
    InvalidPartition,
    /// A unit line is shorter than eight bytes.
    InvalidUnit,
    /// A unit number is not hexadecimal.
    InvalidUnitNumber,
    /// A unit size is not hexadecimal.
    InvalidUnitSize,
    /// Unit data is not space-separated hexadecimal bytes.
    InvalidUnitData,
    /// A unit line holds more data than its size.
    CorruptedUnit,
    /// Continuation data came with no unit size.
    MissingUnitSize,
    /// No partition line was found.
    PartitionNotFound,
}

/// One unit to write: its number and its bytes.
#[derive(Debug, PartialEq)]
pub struct BootConfigUnit {
    pub unit: usize,
    pub data: ByteVec,
}

impl View for BootConfigUnit {
    type V = (usize, Seq<u8>);

    open spec fn view(&self) -> (usize, Seq<u8>) {
        (self.unit, self.data@)
    }
}

/// The contents of a trim-area file: a partition and its units in order.
#[derive(Debug, PartialEq)]
pub struct TrimArea {
    pub partition: u8,
    pub boot_config_units: Vec<BootConfigUnit>,
}

impl View for TrimArea {
    type V = (u8, Seq<(usize, Seq<u8>)>);

    open spec fn view(&self) -> (u8, Seq<(usize, Seq<u8>)>) {
        (self.partition, self.boot_config_units@.map_values(|u: BootConfigUnit| u@))
    }
}

impl TrimArea {
    /// The trim area of `partition` with these units.
    pub fn new(partition: u8, boot_config_units: Vec<BootConfigUnit>) -> (r: TrimArea)
        ensures
            r.partition == partition,
            r.boot_config_units@ == boot_config_units@,
    {
        TrimArea { partition, boot_config_units }
    }
}

/// A unit being read: its number and size once known, and the data so far.
#[derive(Debug)]
pub struct BootConfigUnitBuilder {
    pub unit: Option<usize>,
    pub size: Option<usize>,
    pub data: ByteVec,
}

impl Default for BootConfigUnitBuilder {
    fn default() -> (r: BootConfigUnitBuilder)
        ensures
            r.unit is None,
            r.size is None,
            r.data@ == Seq::<u8>::empty(),
    {
        BootConfigUnitBuilder::new()
    }
}

impl BootConfigUnitBuilder {
    /// A builder with nothing known yet.
    pub fn new() -> (r: BootConfigUnitBuilder)
        ensures
            r.unit is None,
            r.size is None,
            r.data@ == Seq::<u8>::empty(),
    {
        BootConfigUnitBuilder { unit: None, size: None, data: ByteVec::new() }
    }

    /// Appends `data` to the unit's data.
    pub fn append(&mut self, data: ByteVec)
        ensures
            final(self).unit == old(self).unit,
            final(self).size == old(self).size,
            final(self).data@ == old(self).data@ + data@,
    {
        self.data.append(&data);
    }

    /// The unit read, once its number is known.
    pub fn build(self) -> (r: BootConfigUnit)
        requires
            self.unit is Some,
        ensures
            r.unit == self.unit->0,
            r.data@ == self.data@,
    {
        BootConfigUnit { unit: self.unit.unwrap(), data: self.data }
    }

    /// Forgets the unit being read.
    pub fn clear(&mut self)
        ensures
            final(self).unit is None,
            final(self).size is None,
            final(self).data@ == Seq::<u8>::empty(),
    {
        self.unit = None;
        self.size = None;
        self.data.clear();
    }
}

/// Which kind of line a trim-area reader expects next.
#[derive(Clone, Copy, Debug, PartialEq, Eq, Structural)]
pub enum TAParseState {
    Partition,
    UnitData,
    ExtraData,
}

/// Where the reading of a trim-area text stands: the partition once read,
/// the units completed, the unit being read and its data so far, and the
/// kind of line expected.
pub struct TaModel {
    pub partition: Option<u8>,
    pub units: Seq<(usize, Seq<u8>)>,
    pub unit: Option<usize>,
    pub size: Option<usize>,
    pub pending: Seq<u8>,
    pub state: TAParseState,
}

/// What reading one line does: go on from a new position, refuse the text,
/// or abort (where reading would index a line out of its bounds).
pub enum TaStep {
    Next(TaModel),
    Fail(TaError),
    Abort,
}

/// What the fields of a unit line give: an abort, an error, a unit that
/// declares size zero (its number), or a unit number, size and the data on
/// the line.
pub enum UnitLine {
    Abort,
    Fail(TaError),
    Empty(usize),
    Unit(usize, usize, Seq<u8>),
}

/// The position before any line is read.
pub open spec fn ta_initial() -> TaModel {
    TaModel {
        partition: None,
        units: Seq::empty(),
        unit: None,
        size: None,
        pending: Seq::empty(),
        state: TAParseState::Partition,
    }
}

/// `b` can be cut at `lo` and `hi`: `b[lo..hi]` lies on character
/// boundaries.
pub open spec fn can_slice(b: Seq<u8>, lo: int, hi: int) -> bool {
    lo <= hi && is_char_boundary(b, lo) && is_char_boundary(b, hi)
}

/// Where the size field of a unit line lies, and where its data starts:
/// a 32-bit size `[9, 17)` when characters 8 and 17 are spaces in a line of
/// at least 18 bytes, else a 16-bit size `[9, 13)`. `None` where the line
/// has too few characters for the test.
pub open spec fn size_field(t: Seq<char>, tb: Seq<u8>) -> Option<(int, int, int)> {
    if tb.len() >= 18 {
        if t.len() <= 8 {
            None
        } else if t[8] == ' ' {
            if t.len() <= 17 {
                None
            } else if t[17] == ' ' {
                Some((9, 17, 18))
            } else {
                Some((9, 13, 14))
            }
        } else {
            Some((9, 13, 14))
        }
    } else {
        Some((9, 13, 14))
    }
}

/// The fields of a unit line, `t` trimmed from `line`: eight hexadecimal
/// digits of unit number, a hexadecimal size, and, in the untrimmed line
/// after the size field, the unit's data.
pub open spec fn unit_line(t: Seq<char>, line: Seq<char>) -> UnitLine {
    let tb = encode_utf8(t);
    if tb.len() < 8 {
        UnitLine::Fail(TaError::InvalidUnit)
    } else if !is_char_boundary(tb, 8) {
        UnitLine::Abort
    } else {
        match parse_bounded(tb.take(8), 16, u32::MAX as nat) {
            None => UnitLine::Fail(TaError::InvalidUnitNumber),
            Some(unit) => match size_field(t, tb) {
                None => UnitLine::Abort,
                Some((lo, hi, offset)) => if !can_slice(tb, lo, hi) {
                    UnitLine::Abort
                } else {
                    match parse_bounded(tb.subrange(lo, hi), 16, usize::MAX as nat) {
                        None => UnitLine::Fail(TaError::InvalidUnitSize),
                        Some(size) => if size == 0 {
                            UnitLine::Empty(unit as usize)
                        } else {
                            let lb = encode_utf8(line);
                            if !is_char_boundary(lb, offset) {
                                UnitLine::Abort
                            } else {
                                match parse_hex_bytes(lb.skip(offset)) {
                                    None => UnitLine::Fail(TaError::InvalidUnitData),
                                    Some(data) => UnitLine::Unit(unit as usize, size as usize, data),
                                }
                            }
                        },
                    }
                },
            },
        }
    }
}

/// Reading the partition line `tb`: two decimal digits set the partition;
/// a two-byte line of anything else is passed over.
pub open spec fn ta_partition_step(m: TaModel, tb: Seq<u8>) -> TaStep {
    if tb.len() != 2 {
        TaStep::Fail(TaError::InvalidPartition)
    } else if is_ascii_digit(tb[0]) && is_ascii_digit(tb[1]) {
        TaStep::Next(
            TaModel {
                partition: Some(((tb[0] - 48) * 10 + (tb[1] - 48)) as u8),
                state: TAParseState::UnitData,
                ..m
            },
        )
    } else {
        TaStep::Next(m)
    }
}

/// Reading a unit line: a unit of size zero is added with no data; a unit
/// whose data is complete on the line is added; one whose data is shorter
/// than its size waits for more lines.
pub open spec fn ta_unit_step(m: TaModel, t: Seq<char>, line: Seq<char>) -> TaStep {
    match unit_line(t, line) {
        UnitLine::Abort => TaStep::Abort,
        UnitLine::Fail(e) => TaStep::Fail(e),
        UnitLine::Empty(unit) => TaStep::Next(
            TaModel { units: m.units.push((unit, Seq::<u8>::empty())), ..m },
        ),
        UnitLine::Unit(unit, size, data) => {
            let pending = m.pending + data;
            if size == pending.len() {
                TaStep::Next(
                    TaModel {
                        units: m.units.push((unit, pending)),
                        unit: None,
                        size: None,
                        pending: Seq::empty(),
                        ..m
                    },
                )
            } else if size > pending.len() {
                TaStep::Next(
                    TaModel {
                        unit: Some(unit),
                        size: Some(size),
                        pending,
                        state: TAParseState::ExtraData,
                        ..m
                    },
                )
            } else {
                TaStep::Fail(TaError::CorruptedUnit)
            }
        },
    }
}

/// Reading a continuation line `tb`: its bytes are added to the unit's
/// data; once the data has the unit's size the unit is complete, and added
/// unless it is blacklisted.
pub open spec fn ta_extra_step(m: TaModel, tb: Seq<u8>) -> TaStep {
    match parse_hex_bytes(tb) {
        None => TaStep::Fail(TaError::InvalidUnitData),
        Some(data) => {
            let pending = m.pending + data;
            match m.size {
                None => TaStep::Fail(TaError::MissingUnitSize),
                Some(size) => if size == pending.len() {
                    match m.unit {
                        None => TaStep::Abort,
                        Some(u) => TaStep::Next(
                            TaModel {
                                units: if spec_is_blacklisted(u) {
                                    m.units
                                } else {
                                    m.units.push((u, pending))
                                },
                                unit: None,
                                size: None,
                                pending: Seq::empty(),
                                state: TAParseState::UnitData,
                                ..m
                            },
                        ),
                    }
                } else {
                    TaStep::Next(TaModel { pending, ..m })
                },
            }
        },
    }
}

/// Reading one line of a trim-area text. Blank lines and `//` comments
/// change nothing; other lines are read by the kind of line expected.
pub open spec fn ta_step(m: TaModel, line: Seq<char>) -> TaStep {
    let t = trim_chars(line);
    if t.len() == 0 || is_comment(t) {
        TaStep::Next(m)
    } else {
        match m.state {
            TAParseState::Partition => ta_partition_step(m, encode_utf8(t)),
            TAParseState::UnitData => ta_unit_step(m, t, line),
            TAParseState::ExtraData => ta_extra_step(m, encode_utf8(t)),
        }
    }
}

/// Reading the lines in order from `m`, stopping at the first refusal or
/// abort.
pub open spec fn ta_run(m: TaModel, lines: Seq<Seq<char>>) -> TaStep
    decreases lines.len(),
{
    if lines.len() == 0 {
        TaStep::Next(m)
    } else {
        match ta_run(m, lines.drop_last()) {
            TaStep::Next(m2) => ta_step(m2, lines.last()),
            other => other,
        }
    }
}

/// The trim area read once every line is: the partition and the units, or
/// an error when no partition line was found.
pub open spec fn ta_finish(m: TaModel) -> Result<(u8, Seq<(usize, Seq<u8>)>), TaError> {
    match m.partition {
        Some(p) => Ok((p, m.units)),
        None => Err(TaError::PartitionNotFound),
    }
}

/// The fields of a unit line, computed.
enum UnitFields {
    Abort,
    Fail(TaError),
    Empty { unit: usize },
    Unit { unit: usize, size: usize, data: Vec<u8> },
}

fn unit_fields(t: &str, line: &str) -> (r: UnitFields)
    requires
        t@ == trim_chars(line@),
    ensures
        match unit_line(t@, line@) {
            UnitLine::Abort => r is Abort,
            UnitLine::Fail(e) => r == UnitFields::Fail(e),
            UnitLine::Empty(unit) => r matches UnitFields::Empty { unit: u } && u == unit,
            UnitLine::Unit(unit, size, data) => r matches UnitFields::Unit { unit: u, size: s, data: d }
                && u == unit && s == size && d@ == data,
        },
{
    let tb = t.as_bytes();
    if tb.len() < 8 {
        return UnitFields::Fail(TaError::InvalidUnit);
    }
    if !t.is_char_boundary(8) {
        return UnitFields::Abort;
    }
    let unit = match parse_unsigned_bytes(vstd::slice::slice_subrange(tb, 0, 8), 16, u32::MAX as u64) {
        None => {
            return UnitFields::Fail(TaError::InvalidUnitNumber);
        },
        Some(v) => v as usize,
    };
    let n = t.unicode_len();
    let wide: bool = if tb.len() >= 18 {
        if n <= 8 {
            return UnitFields::Abort;
        }
        if t.get_char(8) == ' ' {
            if n <= 17 {
                return UnitFields::Abort;
            }
            t.get_char(17) == ' '
        } else {
            false
        }
    } else {
        false
    };
    let lo: usize = 9;
    let hi: usize = if wide {
        17
    } else {
        13
    };
    let offset: usize = if wide {
        18
    } else {
        14
    };
    if !(t.is_char_boundary(lo) && t.is_char_boundary(hi)) {
        return UnitFields::Abort;
    }
    proof {
        vstd::utf8::encode_utf8_valid_utf8(t@);
        if hi > tb@.len() {
            assert(!is_char_boundary(tb@, hi as int));
        }
    }
    let size = match parse_unsigned_bytes(
        vstd::slice::slice_subrange(tb, lo, hi),
        16,
        usize::MAX as u64,
    ) {
        None => {
            return UnitFields::Fail(TaError::InvalidUnitSize);
        },
        Some(v) => v as usize,
    };
    if size == 0 {
        return UnitFields::Empty { unit };
    }
    let lb = line.as_bytes();
    if !line.is_char_boundary(offset) {
        return UnitFields::Abort;
    }
    proof {
        vstd::utf8::encode_utf8_valid_utf8(line@);
        if offset > lb@.len() {
            assert(!is_char_boundary(lb@, offset as int));
        }
    }
    match hex_bytes_of(vstd::slice::slice_subrange(lb, offset, lb.len())) {
        None => UnitFields::Fail(TaError::InvalidUnitData),
        Some(data) => {
            assert(lb@.subrange(offset as int, lb@.len() as int) =~= lb@.skip(offset as int));
            UnitFields::Unit { unit, size, data }
        },
    }
}

/// Reads a trim-area text line by line.
pub struct TrimAreaParser {
    partition: Option<u8>,
    units: Vec<BootConfigUnit>,
    builder: BootConfigUnitBuilder,
    state: TAParseState,
}

/// The model of a list of units.
pub open spec fn units_view(units: Seq<BootConfigUnit>) -> Seq<(usize, Seq<u8>)> {
    units.map_values(|u: BootConfigUnit| u@)
}

impl View for TrimAreaParser {
    type V = TaModel;

    closed spec fn view(&self) -> TaModel {
        TaModel {
            partition: self.partition,
            units: units_view(self.units@),
            unit: self.builder.unit,
            size: self.builder.size,
            pending: self.builder.data@,
            state: self.state,
        }
    }
}

/// A position from which reading goes on without aborting on a unit's
/// number: while data lines are expected, the unit and its size are known.
pub open spec fn ta_wf(m: TaModel) -> bool {
    m.state == TAParseState::ExtraData ==> m.unit is Some && m.size is Some
}

impl TrimAreaParser {
    /// The parser's position is one that reading reaches.
    pub closed spec fn wf(&self) -> bool {
        ta_wf(self@)
    }

    /// A parser before any line.
    pub fn new() -> (r: TrimAreaParser)
        ensures
            r@ == ta_initial(),
            r.wf(),
    {
        let r = TrimAreaParser {
            partition: None,
            units: Vec::new(),
            builder: BootConfigUnitBuilder::new(),
            state: TAParseState::Partition,
        };
        assert(units_view(r.units@) =~= Seq::<(usize, Seq<u8>)>::empty());
        r
    }

    fn push_unit(&mut self, unit: BootConfigUnit)
        ensures
            final(self).partition == old(self).partition,
            final(self).builder == old(self).builder,
            final(self).state == old(self).state,
            units_view(final(self).units@) == units_view(old(self).units@).push(unit@),
    {
        self.units.push(unit);
        assert(units_view(self.units@) =~= units_view(old(self).units@).push(unit@));
    }

    fn feed_partition(&mut self, tb: &[u8]) -> (r: Result<(), TaError>)
        requires
            old(self).wf(),
        ensures
            final(self).wf(),
            match ta_partition_step(old(self)@, tb@) {
                TaStep::Next(m) => r is Ok && final(self)@ == m,
                TaStep::Fail(e) => r == Err::<(), TaError>(e),
                TaStep::Abort => false,
            },
    {
        if tb.len() != 2 {
            return Err(TaError::InvalidPartition);
        }
        if 48 <= tb[0] && tb[0] <= 57 && 48 <= tb[1] && tb[1] <= 57 {
            self.partition = Some((tb[0] - 48) * 10 + (tb[1] - 48));
            self.state = TAParseState::UnitData;
        }
        Ok(())
    }

    fn feed_unit(&mut self, t: &str, line: &str) -> (r: Result<(), TaError>)
        requires
            old(self).wf(),
            old(self).state == TAParseState::UnitData,
            t@ == trim_chars(line@),
            !(ta_unit_step(old(self)@, t@, line@) is Abort),
        ensures
            final(self).wf(),
            match ta_unit_step(old(self)@, t@, line@) {
                TaStep::Next(m) => r is Ok && final(self)@ == m,
                TaStep::Fail(e) => r == Err::<(), TaError>(e),
                TaStep::Abort => false,
            },
    {
        match unit_fields(t, line) {
            UnitFields::Abort => Err(TaError::InvalidUnit),
            UnitFields::Fail(e) => Err(e),
            UnitFields::Empty { unit } => {
                self.push_unit(BootConfigUnit { unit, data: ByteVec::new() });
                Ok(())
            },
            UnitFields::Unit { unit, size, data } => {
                self.builder.unit = Some(unit);
                self.builder.size = Some(size);
                self.builder.append(ByteVec::from_vec(data));
                let have = self.builder.data.len();
                if size == have {
                    let mut done = BootConfigUnitBuilder::new();
                    std::mem::swap(&mut done, &mut self.builder);
                    self.push_unit(done.build());
                    Ok(())
                } else if size > have {
                    self.state = TAParseState::ExtraData;
                    Ok(())
                } else {
                    Err(TaError::CorruptedUnit)
                }
            },
        }
    }

    fn feed_extra(&mut self, tb: &[u8]) -> (r: Result<(), TaError>)
        requires
            old(self).wf(),
            old(self).state == TAParseState::ExtraData,
        ensures
            final(self).wf(),
            match ta_extra_step(old(self)@, tb@) {
                TaStep::Next(m) => r is Ok && final(self)@ == m,
                TaStep::Fail(e) => r == Err::<(), TaError>(e),
                TaStep::Abort => false,
            },
    {
        let data = match hex_bytes_of(tb) {
            None => {
                return Err(TaError::InvalidUnitData);
            },
            Some(d) => d,
        };
        self.builder.append(ByteVec::from_vec(data));
        let size = match self.builder.size {
            None => {
                return Err(TaError::MissingUnitSize);
            },
            Some(s) => s,
        };
        if size == self.builder.data.len() {
            let unit = match self.builder.unit {
                Some(u) => u,
                None => {
                    return Err(TaError::MissingUnitSize);
                },
            };
            if is_blacklisted(unit) {
                self.builder.clear();
            } else {
                let mut done = BootConfigUnitBuilder::new();
                std::mem::swap(&mut done, &mut self.builder);
                self.push_unit(done.build());
            }
            self.state = TAParseState::UnitData;
        }
        Ok(())
    }

    /// Reading `line` would index it out of bounds: a unit line whose
    /// fields do not fall on character boundaries, or is too short for the
    /// size field.
    pub fn would_abort(&self, line: &str) -> (r: bool)
        requires
            self.wf(),
        ensures
            r == (ta_step(self@, line@) is Abort),
    {
        let t = trim(line);
        let n = t.unicode_len();
        if n == 0 {
            return false;
        }
        if n >= 2 && t.get_char(0) == '/' && t.get_char(1) == '/' {
            return false;
        }
        match self.state {
            TAParseState::UnitData => match unit_fields(t, line) {
                UnitFields::Abort => true,
                _ => false,
            },
            _ => false,
        }
    }

    /// Reads one line of the text.
    pub fn feed_line(&mut self, line: &str) -> (r: Result<(), TaError>)
        requires
            old(self).wf(),
            !(ta_step(old(self)@, line@) is Abort),
        ensures
            final(self).wf(),
            match ta_step(old(self)@, line@) {
                TaStep::Next(m) => r is Ok && final(self)@ == m,
                TaStep::Fail(e) => r == Err::<(), TaError>(e),
                TaStep::Abort => false,
            },
    {
        let t = trim(line);
        let n = t.unicode_len();
        if n == 0 {
            return Ok(());
        }
        if n >= 2 && t.get_char(0) == '/' && t.get_char(1) == '/' {
            return Ok(());
        }
        match self.state {
            TAParseState::Partition => self.feed_partition(t.as_bytes()),
            TAParseState::UnitData => self.feed_unit(t, line),
            TAParseState::ExtraData => self.feed_extra(t.as_bytes()),
        }
    }

    /// The trim area read: its partition and units, or an error when no
    /// partition line was read.
    pub fn finish(self) -> (r: Result<TrimArea, TaError>)
        ensures
            match ta_finish(self@) {
                Ok(v) => r is Ok && r->Ok_0@ == v,
                Err(e) => r == Err::<TrimArea, TaError>(e),
            },
    {
        match self.partition {
            Some(p) => Ok(TrimArea::new(p, self.units)),
            None => Err(TaError::PartitionNotFound),
        }
    }
}

/// The text of every line.
pub open spec fn lines_view(lines: Seq<String>) -> Seq<Seq<char>> {
    lines.map_values(|l: String| l@)
}

/// Reads a whole trim-area text, given as its lines: the trim area, or the
/// error that refuses it; `None` where reading a line would index it out
/// of bounds.
pub fn parse_trim_area(lines: &Vec<String>) -> (r: Option<Result<TrimArea, TaError>>)
    ensures
        match ta_run(ta_initial(), lines_view(lines@)) {
            TaStep::Abort => r is None,
            TaStep::Fail(e) => r == Some(Err::<TrimArea, TaError>(e)),
            TaStep::Next(m) => match ta_finish(m) {
                Ok(v) => r matches Some(Ok(ta)) && ta@ == v,
                Err(e) => r == Some(Err::<TrimArea, TaError>(e)),
            },
        },
{
    let mut parser = TrimAreaParser::new();
    let mut i: usize = 0;
    while i < lines.len()
        invariant
            i <= lines.len(),
            parser.wf(),
            ta_run(ta_initial(), lines_view(lines@.take(i as int))) == TaStep::Next(parser@),
        decreases lines.len() - i,
    {
        let line = lines[i].as_str();
        let ghost prefix = lines_view(lines@.take(i + 1));
        assert(prefix.drop_last() =~= lines_view(lines@.take(i as int)));
        assert(prefix.last() == line@);
        assert(lines_view(lines@).take(i + 1) =~= prefix);
        assert(ta_run(ta_initial(), prefix) == ta_step(parser@, line@));
        if parser.would_abort(line) {
            proof {
                lemma_run_stops(lines_view(lines@), (i + 1) as int);
            }
            return None;
        }
        match parser.feed_line(line) {
            Ok(()) => {},
            Err(e) => {
                proof {
                    lemma_run_stops(lines_view(lines@), (i + 1) as int);
                }
                return Some(Err(e));
            },
        }
        i = i + 1;
    }
    assert(lines@.take(lines.len() as int) =~= lines@);
    Some(parser.finish())
}

/// Once reading stops at a line, reading further lines changes nothing.
proof fn lemma_run_stops(lines: Seq<Seq<char>>, k: int)
    requires
        0 <= k <= lines.len(),
        !(ta_run(ta_initial(), lines.take(k)) is Next),
    ensures
        ta_run(ta_initial(), lines) == ta_run(ta_initial(), lines.take(k)),
    decreases lines.len() - k,
{
    if k < lines.len() {
        assert(lines.take(k + 1).drop_last() =~= lines.take(k));
        assert(ta_run(ta_initial(), lines.take(k + 1)) == ta_run(ta_initial(), lines.take(k)));
        lemma_run_stops(lines, k + 1);
    } else {
        assert(lines.take(k) =~= lines);
    }
}

/// Blank lines and `//` comment lines change nothing, wherever they come.
pub proof fn lemma_blank_and_comment_lines_ignored(m: TaModel, line: Seq<char>)
    requires
        trim_chars(line).len() == 0 || is_comment(trim_chars(line)),
    ensures
        ta_step(m, line) == TaStep::Next(m),
{
}

/// Reading a line never takes back a unit already read; once the
/// partition line is read, the partition never changes and the reader never
/// expects a partition line again.
pub proof fn lemma_step_keeps_units(m: TaModel, line: Seq<char>)
    ensures
        ta_step(m, line) matches TaStep::Next(m2) ==> {
            &&& m.units.len() <= m2.units.len()
            &&& m2.units.take(m.units.len() as int) == m.units
            &&& m.state != TAParseState::Partition ==> m2.partition == m.partition && m2.state
                != TAParseState::Partition
        },
{
    if let TaStep::Next(m2) = ta_step(m, line) {
        assert(m.units.take(m.units.len() as int) =~= m.units);
        if m2.units != m.units {
            let t = trim_chars(line);
            if m.state == TAParseState::UnitData {
                if let UnitLine::Unit(unit, size, data) = unit_line(t, line) {
                    let x = (unit, m.pending + data);
                    assert(m.units.push(x).take(m.units.len() as int) =~= m.units);
                }
                if let UnitLine::Empty(unit) = unit_line(t, line) {
                    let x = (unit, Seq::<u8>::empty());
                    assert(m.units.push(x).take(m.units.len() as int) =~= m.units);
                }
            } else if m.state == TAParseState::ExtraData {
                if let Some(data) = parse_hex_bytes(encode_utf8(t)) {
                    if let Some(u) = m.unit {
                        let x = (u, m.pending + data);
                        assert(m.units.push(x).take(m.units.len() as int) =~= m.units);
                    }
                }
            }
        }
    }
}

/// What reading keeps true: a unit waiting for more lines has a number
/// and a non-zero size.
pub open spec fn ta_reading_inv(m: TaModel) -> bool {
    m.state == TAParseState::ExtraData ==> (m.unit is Some && m.size is Some && m.size->0 > 0)
}

proof fn lemma_step_keeps_inv(m: TaModel, line: Seq<char>)
    requires
        ta_reading_inv(m),
    ensures
        ta_step(m, line) matches TaStep::Next(m2) ==> ta_reading_inv(m2),
{
}

/// Whenever a text leaves the reader waiting for more data lines, the unit
/// waited for has a known number and a non-zero size.
pub proof fn lemma_waiting_unit_known(lines: Seq<Seq<char>>)
    ensures
        ta_run(ta_initial(), lines) matches TaStep::Next(m) ==> ta_reading_inv(m),
    decreases lines.len(),
{
    if lines.len() > 0 {
        lemma_waiting_unit_known(lines.drop_last());
        if let TaStep::Next(m) = ta_run(ta_initial(), lines.drop_last()) {
            lemma_step_keeps_inv(m, lines.last());
        }
    }
}

/// A unit line that declares size zero adds that unit, after the units
/// read before it, with no data, and changes nothing else.
pub proof fn lemma_empty_unit_kept(m: TaModel, line: Seq<char>, unit: usize)
    requires
        m.state == TAParseState::UnitData,
        trim_chars(line).len() > 0,
        !is_comment(trim_chars(line)),
        unit_line(trim_chars(line), line) == UnitLine::Empty(unit),
    ensures
        ta_step(m, line) == TaStep::Next(TaModel { units: m.units.push((unit, Seq::<u8>::empty())), ..m }),
{
}

/// A blacklisted unit whose data runs over several lines is never added:
/// the line that completes it leaves the units as they were.
pub proof fn lemma_blacklisted_unit_dropped(m: TaModel, line: Seq<char>)
    requires
        m.state == TAParseState::ExtraData,
        m.unit matches Some(u) && spec_is_blacklisted(u),
    ensures
        ta_step(m, line) matches TaStep::Next(m2) ==> m2.units == m.units,
{
}

/// `Write-TA:`.
pub open spec fn write_ta_word() -> Seq<u8> {
    seq![87u8, 114u8, 105u8, 116u8, 101u8, 45u8, 84u8, 65u8, 58u8]
}

/// The command that writes a unit that was just downloaded:
/// `Write-TA:`, the partition and the unit in decimal, with a `:` between.
pub fn write_ta_command(partition: u8, unit: usize) -> (r: Vec<u8>)
    ensures
        r@ == write_ta_word() + radix_digits(partition as nat, 10, false) + seq![58u8]
            + radix_digits(unit as nat, 10, false),
{
    let mut v: Vec<u8> = vec![87u8, 114u8, 105u8, 116u8, 101u8, 45u8, 84u8, 65u8, 58u8];
    let p = format_radix(partition as u64, 10, false);
    push_all(&mut v, p.as_slice());
    v.push(58u8);
    let u = format_radix(unit as u64, 10, false);
    push_all(&mut v, u.as_slice());
    v
}

/// The commands that write a trim area, unit by unit: each unit's data is
/// downloaded, then written with its `Write-TA` command.
pub fn trim_area_commands(ta: &TrimArea) -> (r: Vec<Vec<u8>>)
    ensures
        r@.len() == ta.boot_config_units@.len(),
        forall|i: int|
            0 <= i < r@.len() ==> #[trigger] r@[i]@ == write_ta_word() + radix_digits(
                ta.partition as nat,
                10,
                false,
            ) + seq![58u8] + radix_digits(ta.boot_config_units@[i].unit as nat, 10, false),
{
    let mut out: Vec<Vec<u8>> = Vec::new();
    let mut i: usize = 0;
    while i < ta.boot_config_units.len()
        invariant
            i <= ta.boot_config_units@.len(),
            out@.len() == i,
            forall|k: int|
                0 <= k < i ==> #[trigger] out@[k]@ == write_ta_word() + radix_digits(
                    ta.partition as nat,
                    10,
                    false,
                ) + seq![58u8] + radix_digits(ta.boot_config_units@[k].unit as nat, 10, false),
        decreases ta.boot_config_units.len() - i,
    {
        out.push(write_ta_command(ta.partition, ta.boot_config_units[i].unit));
        i = i + 1;
    }
    out
}

/// A byte in two hexadecimal digits, upper- or lower-case.
pub open spec fn hex_pair(b: u8, upper: bool) -> Seq<u8> {
    pad_left(radix_digits(b as nat, 16, upper), 2, 48u8)
}

/// Bytes written as two-digit hexadecimal numbers with a space between
/// each, as unit data is written in a trim-area file.
pub open spec fn hex_line(bytes: Seq<u8>, upper: bool) -> Seq<u8>
    decreases bytes.len(),
{
    if bytes.len() == 0 {
        Seq::empty()
    } else if bytes.len() == 1 {
        hex_pair(bytes[0], upper)
    } else {
        hex_line(bytes.drop_last(), upper) + seq![32u8] + hex_pair(bytes.last(), upper)
    }
}

proof fn lemma_split_spaces_nonempty(s: Seq<u8>)
    ensures
        split_spaces(s).len() >= 1,
    decreases s.len(),
{
    if s.len() > 0 {
        lemma_split_spaces_nonempty(s.drop_last());
    }
}

proof fn lemma_split_no_space(t: Seq<u8>, p: Seq<u8>)
    requires
        forall|i: int| 0 <= i < p.len() ==> p[i] != 32u8,
    ensures
        split_spaces(t + p) == split_spaces(t).update(
            split_spaces(t).len() - 1,
            split_spaces(t).last() + p,
        ),
    decreases p.len(),
{
    lemma_split_spaces_nonempty(t);
    let st = split_spaces(t);
    if p.len() == 0 {
        assert(t + p =~= t);
        assert(st.last() + p =~= st.last());
        assert(st.update(st.len() - 1, st.last()) =~= st);
    } else {
        let q = p.drop_last();
        lemma_split_no_space(t, q);
        assert((t + p).drop_last() =~= t + q);
        assert((t + p).last() == p.last());
        lemma_split_spaces_nonempty(t + q);
        let sq = split_spaces(t + q);
        assert(sq.last() == st.last() + q);
        assert(st.last() + q + seq![p.last()] =~= st.last() + p);
        assert(sq.len() == st.len());
        assert(sq.last().push(p.last()) =~= st.last() + p);
        assert(sq.update(sq.len() - 1, sq.last().push(p.last())) =~= st.update(
            st.len() - 1,
            st.last() + p,
        ));
    }
}

proof fn lemma_hex_pair(b: u8, upper: bool)
    ensures
        hex_pair(b, upper).len() == 2,
        forall|i: int| 0 <= i < 2 ==> #[trigger] hex_pair(b, upper)[i] != 32u8,
        forall|i: int| 0 <= i < 2 ==> is_radix_digit(#[trigger] hex_pair(b, upper)[i], 16),
        hex_byte(hex_pair(b, upper)) == Some(b),
{
    assert(vstd::arithmetic::power::pow(16, 2) == 256) by {
        reveal_with_fuel(vstd::arithmetic::power::pow, 3);
    }
    lemma_radix_digits_len(b as nat, 16, upper, 2);
    lemma_radix_digits_value(b as nat, 16, upper);
    lemma_parse_padded(b as nat, 16, 2, upper);
    let d = radix_digits(b as nat, 16, upper);
    let p = hex_pair(b, upper);
    assert forall|i: int| 0 <= i < 2 implies #[trigger] p[i] != 32u8 by {
        if d.len() == 2 {
            assert(p == d);
            assert(is_radix_digit(d[i], 16));
        } else {
            assert(p == Seq::new(1, |k: int| 48u8) + d);
            if i == 1 {
                assert(p[1] == d[0]);
                assert(is_radix_digit(d[0], 16));
            }
        }
    }
    assert forall|i: int| 0 <= i < 2 implies is_radix_digit(#[trigger] p[i], 16) by {
        if d.len() == 2 {
            assert(p == d);
            assert(is_radix_digit(d[i], 16));
        } else {
            assert(p == Seq::new(1, |k: int| 48u8) + d);
            if i == 1 {
                assert(p[1] == d[0]);
                assert(is_radix_digit(d[0], 16));
            } else {
                assert(p[0] == 48u8);
            }
        }
    }
}

proof fn lemma_split_hex_line(bytes: Seq<u8>, upper: bool)
    requires
        bytes.len() > 0,
    ensures
        split_spaces(hex_line(bytes, upper)) == Seq::new(
            bytes.len(),
            |i: int| hex_pair(bytes[i], upper),
        ),
    decreases bytes.len(),
{
    lemma_hex_pair(bytes.last(), upper);
    let pair = hex_pair(bytes.last(), upper);
    if bytes.len() == 1 {
        lemma_split_no_space(Seq::<u8>::empty(), pair);
        assert(Seq::<u8>::empty() + pair =~= pair);
        assert(Seq::<u8>::empty() + pair =~= pair);
        assert(split_spaces(Seq::<u8>::empty()) == seq![Seq::<u8>::empty()]);
        assert(split_spaces(pair) =~= Seq::new(1, |i: int| hex_pair(bytes[i], upper)));
    } else {
        let front = hex_line(bytes.drop_last(), upper);
        lemma_split_hex_line(bytes.drop_last(), upper);
        let t = front + seq![32u8];
        assert(t.drop_last() =~= front);
        lemma_split_no_space(t, pair);
        assert(split_spaces(t) == split_spaces(front).push(Seq::<u8>::empty()));
        assert(Seq::<u8>::empty() + pair =~= pair);
        assert(split_spaces(t + pair) =~= Seq::new(bytes.len(), |i: int| hex_pair(bytes[i], upper)));
    }
}

proof fn lemma_pairs_value(bytes: Seq<u8>, upper: bool)
    ensures
        hex_pieces_value(Seq::new(bytes.len(), |i: int| hex_pair(bytes[i], upper))) == Some(bytes),
    decreases bytes.len(),
{
    let ps = Seq::new(bytes.len(), |i: int| hex_pair(bytes[i], upper));
    if bytes.len() == 0 {
        assert(bytes =~= Seq::<u8>::empty());
    } else {
        lemma_pairs_value(bytes.drop_last(), upper);
        assert(ps.drop_last() =~= Seq::new(
            bytes.drop_last().len(),
            |i: int| hex_pair(bytes.drop_last()[i], upper),
        ));
        lemma_hex_pair(bytes.last(), upper);
        assert(bytes.drop_last().push(bytes.last()) =~= bytes);
    }
}

/// Bytes written as space-separated two-digit hexadecimal numbers, in
/// either case, read back as the same bytes.
pub proof fn lemma_hex_line_round_trip(bytes: Seq<u8>, upper: bool)
    requires
        bytes.len() > 0,
    ensures
        parse_hex_bytes(hex_line(bytes, upper)) == Some(bytes),
{
    lemma_split_hex_line(bytes, upper);
    lemma_pairs_value(bytes, upper);
}

/// Every byte of a hex line is a hexadecimal digit or a space: the two
/// digits of byte `k` stand at `3k` and `3k + 1`, a space at `3k + 2`
/// between bytes.
proof fn lemma_hex_line_shape(b: Seq<u8>, upper: bool)
    requires
        b.len() > 0,
    ensures
        hex_line(b, upper).len() == 3 * b.len() - 1,
        forall|k: int|
            0 <= k < b.len() ==> #[trigger] hex_pair(b[k], upper)[0] == hex_line(b, upper)[3 * k]
                && hex_pair(b[k], upper)[1] == hex_line(b, upper)[3 * k + 1],
        forall|k: int| 0 <= k < b.len() - 1 ==> #[trigger] hex_line(b, upper)[3 * k + 2] == 32u8,
        forall|i: int|
            0 <= i < hex_line(b, upper).len() ==> #[trigger] hex_line(b, upper)[i] == 32u8
                || is_radix_digit(hex_line(b, upper)[i], 16),
    decreases b.len(),
{
    let line = hex_line(b, upper);
    lemma_hex_pair(b.last(), upper);
    if b.len() == 1 {
        assert forall|k: int| 0 <= k < b.len() implies #[trigger] hex_pair(b[k], upper)[0]
            == line[3 * k] && hex_pair(b[k], upper)[1] == line[3 * k + 1] by {
            assert(k == 0);
        }
    } else {
        let front = b.drop_last();
        let pre = hex_line(front, upper);
        lemma_hex_line_shape(front, upper);
        let pair = hex_pair(b.last(), upper);
        assert(line == pre + seq![32u8] + pair);
        assert forall|k: int| 0 <= k < b.len() implies #[trigger] hex_pair(b[k], upper)[0]
            == line[3 * k] && hex_pair(b[k], upper)[1] == line[3 * k + 1] by {
            if k < b.len() - 1 {
                assert(b[k] == front[k]);
                assert(hex_pair(front[k], upper)[0] == pre[3 * k]);
            }
        }
        assert forall|k: int| 0 <= k < b.len() - 1 implies #[trigger] line[3 * k + 2] == 32u8 by {
            if k < b.len() - 2 {
                assert(line[3 * k + 2] == pre[3 * k + 2]);
            }
        }
        assert forall|i: int| 0 <= i < line.len() implies #[trigger] line[i] == 32u8
            || is_radix_digit(line[i], 16) by {
            if i < pre.len() {
                assert(line[i] == pre[i]);
            } else if i > pre.len() {
                assert(line[i] == pair[i - pre.len() - 1]);
            }
        }
    }
}

/// Bytes as the characters of the same numbers.
pub open spec fn ascii_text(b: Seq<u8>) -> Seq<char> {
    Seq::new(b.len(), |i: int| b[i] as char)
}

proof fn lemma_ascii_text(b: Seq<u8>)
    requires
        forall|i: int| 0 <= i < b.len() ==> #[trigger] b[i] < 128,
    ensures
        encode_utf8(ascii_text(b)) == b,
        forall|k: int| 0 <= k <= b.len() ==> is_char_boundary(b, k),
{
    let t = ascii_text(b);
    assert(vstd::utf8::is_ascii_chars(t)) by {
        assert forall|i: int| 0 <= i < t.len() implies '\0' <= #[trigger] t[i] <= '\u{7f}' by {
            assert(b[i] < 128);
        }
    }
    vstd::utf8::is_ascii_chars_encode_utf8(t);
    assert forall|i: int| 0 <= i < b.len() implies encode_utf8(t)[i] == b[i] by {
        assert(t[i] as u8 == encode_utf8(t)[i]);
    }
    assert(encode_utf8(t) =~= b);
    vstd::utf8::encode_utf8_valid_utf8(t);
    assert forall|k: int| 0 <= k <= b.len() implies is_char_boundary(b, k) by {
        if k == b.len() {
            vstd::utf8::is_char_boundary_start_end_of_seq(b);
        } else {
            vstd::utf8::is_char_boundary_iff_not_is_continuation_byte(b, k);
        }
    }
}

/// A unit line as a trim-area file writes it: the unit number in eight
/// hexadecimal digits, a space, the size in four hexadecimal digits, a
/// space, and the data as a hex line.
pub open spec fn unit_line_text(unit: u32, data: Seq<u8>, upper: bool) -> Seq<u8> {
    pad_left(radix_digits(unit as nat, 16, upper), 8, 48u8) + seq![32u8] + pad_left(
        radix_digits(data.len(), 16, upper),
        4,
        48u8,
    ) + seq![32u8] + hex_line(data, upper)
}

proof fn lemma_padded_digits(n: nat, width: nat, upper: bool)
    requires
        1 <= width,
        n < vstd::arithmetic::power::pow(16, width),
    ensures
        pad_left(radix_digits(n, 16, upper), width, 48u8).len() == width,
        forall|i: int|
            0 <= i < width ==> is_radix_digit(
                #[trigger] pad_left(radix_digits(n, 16, upper), width, 48u8)[i],
                16,
            ),
{
    lemma_radix_digits_len(n, 16, upper, width);
    lemma_radix_digits_value(n, 16, upper);
    let d = radix_digits(n, 16, upper);
    let p = pad_left(d, width, 48u8);
    assert forall|i: int| 0 <= i < width implies is_radix_digit(#[trigger] p[i], 16) by {
        if d.len() < width {
            let z = Seq::new((width - d.len()) as nat, |k: int| 48u8);
            assert(p == z + d);
            if i >= z.len() {
                assert(p[i] == d[i - z.len()]);
                assert(is_radix_digit(d[i - z.len()], 16));
            }
        } else {
            assert(is_radix_digit(d[i], 16));
        }
    }
}

/// A unit line whose size field is the four hexadecimal digits of the
/// number of data bytes that follow it, read where a unit is expected,
/// adds exactly that unit with those bytes: the unit number and the size
/// are read in base 16.
#[verifier::rlimit(60)]
pub proof fn lemma_unit_line_read(m: TaModel, unit: u32, data: Seq<u8>, upper: bool)
    requires
        m.state == TAParseState::UnitData,
        m.pending == Seq::<u8>::empty(),
        1 <= data.len() <= 0xFFFF,
    ensures
        ta_step(m, ascii_text(unit_line_text(unit, data, upper))) == TaStep::Next(
            TaModel {
                units: m.units.push((unit as usize, data)),
                unit: None,
                size: None,
                pending: Seq::empty(),
                ..m
            },
        ),
{
    let text = unit_line_text(unit, data, upper);
    let line = ascii_text(text);
    let n = data.len();
    assert(vstd::arithmetic::power::pow(16, 8) == 0x1_0000_0000) by {
        reveal_with_fuel(vstd::arithmetic::power::pow, 9);
    }
    assert(vstd::arithmetic::power::pow(16, 4) == 0x1_0000) by {
        reveal_with_fuel(vstd::arithmetic::power::pow, 5);
    }
    lemma_padded_digits(unit as nat, 8, upper);
    lemma_padded_digits(n, 4, upper);
    lemma_hex_line_shape(data, upper);
    let p8 = pad_left(radix_digits(unit as nat, 16, upper), 8, 48u8);
    let p4 = pad_left(radix_digits(n, 16, upper), 4, 48u8);
    let hl = hex_line(data, upper);
    assert(text.len() == 14 + hl.len());
    assert forall|i: int| 0 <= i < text.len() implies #[trigger] text[i] < 128 && (text[i]
        == 32u8 || is_radix_digit(text[i], 16)) by {
        if i < 8 {
            assert(text[i] == p8[i]);
        } else if i == 8 || i == 13 {
        } else if i < 13 {
            assert(text[i] == p4[i - 9]);
        } else {
            assert(text[i] == hl[i - 14]);
        }
    }
    lemma_ascii_text(text);
    assert(text[0] == p8[0]);
    assert(is_radix_digit(text[0], 16));
    assert(text[text.len() - 1] == hl[hl.len() - 1]);
    let last: int = n - 1;
    assert(hex_pair(data[last], upper)[0] == hl[3 * last]);
    assert(hl[3 * last + 1] == hex_pair(data[last], upper)[1]);
    assert(hl.len() - 1 == 3 * last + 1);
    lemma_hex_pair(data[n - 1], upper);
    assert(is_radix_digit(text[text.len() - 1], 16));
    // the line needs no trimming and is no comment
    assert(line[0] == text[0] as char);
    assert(line.last() == text[text.len() - 1] as char);
    assert(trim_start_chars(line) == line);
    assert(trim_end_chars(line) == line);
    assert(trim_chars(line) == line);
    assert(!is_comment(line));
    // the fields
    assert(text.take(8) =~= p8);
    assert(text.subrange(9, 13) =~= p4);
    assert(text.skip(14) =~= hl);
    lemma_parse_padded(unit as nat, 16, 8, upper);
    lemma_parse_padded(n, 16, 4, upper);
    assert(n <= usize::MAX);
    if text.len() >= 18 {
        assert(n >= 2);
        assert(line[8] == text[8] as char);
        assert(text[8] == 32u8);
        assert(text[17] == hl[3]);
        assert(hl[3 * 1int] == hex_pair(data[1], upper)[0]);
        lemma_hex_pair(data[1], upper);
        assert(line[17] == text[17] as char);
        assert(line[17] != ' ');
    }
    assert(size_field(line, text) == Some((9int, 13int, 14int)));
    lemma_hex_line_round_trip(data, upper);
    assert(unit_line(line, line) == UnitLine::Unit(unit as usize, n as usize, data));
    assert(Seq::<u8>::empty() + data =~= data);
}

/// The ASCII text of `text` needs no trimming, is no comment, and encodes
/// back to `text`, when `text` begins and ends with hexadecimal digits.
proof fn lemma_plain_line(text: Seq<u8>)
    requires
        text.len() > 0,
        forall|i: int| 0 <= i < text.len() ==> #[trigger] text[i] < 128,
        is_radix_digit(text[0], 16),
        is_radix_digit(text[text.len() - 1], 16),
    ensures
        trim_chars(ascii_text(text)) == ascii_text(text),
        !is_comment(ascii_text(text)),
        encode_utf8(ascii_text(text)) == text,
        forall|k: int| 0 <= k <= text.len() ==> is_char_boundary(text, k),
{
    let line = ascii_text(text);
    lemma_ascii_text(text);
    assert(line[0] == text[0] as char);
    assert(line.last() == text[text.len() - 1] as char);
    assert(trim_start_chars(line) == line);
    assert(trim_end_chars(line) == line);
}

/// A unit line with a 32-bit size field (eight hexadecimal digits between
/// spaces) holding the number of data bytes that follow it adds exactly
/// that unit with those bytes, the size read in base 16.
#[verifier::rlimit(60)]
pub proof fn lemma_wide_unit_line_read(m: TaModel, unit: u32, data: Seq<u8>, upper: bool)
    requires
        m.state == TAParseState::UnitData,
        m.pending == Seq::<u8>::empty(),
        1 <= data.len() <= u32::MAX,
    ensures
        ta_step(
            m,
            ascii_text(
                pad_left(radix_digits(unit as nat, 16, upper), 8, 48u8) + seq![32u8] + pad_left(
                    radix_digits(data.len(), 16, upper),
                    8,
                    48u8,
                ) + seq![32u8] + hex_line(data, upper),
            ),
        ) == TaStep::Next(
            TaModel {
                units: m.units.push((unit as usize, data)),
                unit: None,
                size: None,
                pending: Seq::empty(),
                ..m
            },
        ),
{
    let n = data.len();
    let p8 = pad_left(radix_digits(unit as nat, 16, upper), 8, 48u8);
    let q8 = pad_left(radix_digits(n, 16, upper), 8, 48u8);
    let hl = hex_line(data, upper);
    let text = p8 + seq![32u8] + q8 + seq![32u8] + hl;
    let line = ascii_text(text);
    assert(vstd::arithmetic::power::pow(16, 8) == 0x1_0000_0000) by {
        reveal_with_fuel(vstd::arithmetic::power::pow, 9);
    }
    lemma_padded_digits(unit as nat, 8, upper);
    lemma_padded_digits(n, 8, upper);
    lemma_hex_line_shape(data, upper);
    assert(text.len() == 18 + hl.len());
    assert forall|i: int| 0 <= i < text.len() implies #[trigger] text[i] < 128 && (text[i]
        == 32u8 || is_radix_digit(text[i], 16)) by {
        if i < 8 {
            assert(text[i] == p8[i]);
        } else if i == 8 || i == 17 {
        } else if i < 17 {
            assert(text[i] == q8[i - 9]);
        } else {
            assert(text[i] == hl[i - 18]);
        }
    }
    assert(text[0] == p8[0]);
    let last: int = n - 1;
    assert(hex_pair(data[last], upper)[0] == hl[3 * last]);
    assert(hl[3 * last + 1] == hex_pair(data[last], upper)[1]);
    assert(hl.len() - 1 == 3 * last + 1);
    lemma_hex_pair(data[last], upper);
    assert(text[text.len() - 1] == hl[hl.len() - 1]);
    lemma_plain_line(text);
    assert(text.take(8) =~= p8);
    assert(text.subrange(9, 17) =~= q8);
    assert(text.skip(18) =~= hl);
    lemma_parse_padded(unit as nat, 16, 8, upper);
    lemma_parse_padded(n, 16, 8, upper);
    assert(n <= usize::MAX);
    assert(line[8] == text[8] as char);
    assert(line[17] == text[17] as char);
    assert(size_field(line, text) == Some((9int, 17int, 18int)));
    lemma_hex_line_round_trip(data, upper);
    assert(unit_line(line, line) == UnitLine::Unit(unit as usize, n as usize, data));
    assert(Seq::<u8>::empty() + data =~= data);
}

/// A line of hex data read while a unit waits for data adds its bytes to
/// the unit's data; once the data is as long as the unit's size the unit
/// is complete and added after the units read before, unless it is one of
/// the units kept from being written (0x7D3, 0x7DA, 0x851, 0x8A2, 0x1324,
/// 0x1046B), and a unit line is expected again.
pub proof fn lemma_data_line_read(m: TaModel, data: Seq<u8>, upper: bool)
    requires
        m.state == TAParseState::ExtraData,
        m.unit is Some,
        m.size is Some,
        data.len() >= 1,
    ensures
        ta_step(m, ascii_text(hex_line(data, upper))) == TaStep::Next(
            if m.size->0 == m.pending.len() + data.len() {
                TaModel {
                    partition: m.partition,
                    units: if m.unit->0 == 0x7D3 || m.unit->0 == 0x7DA || m.unit->0 == 0x851
                        || m.unit->0 == 0x8A2 || m.unit->0 == 0x1324 || m.unit->0 == 0x1046B {
                        m.units
                    } else {
                        m.units.push((m.unit->0, m.pending + data))
                    },
                    unit: None,
                    size: None,
                    pending: Seq::empty(),
                    state: TAParseState::UnitData,
                }
            } else {
                TaModel { pending: m.pending + data, ..m }
            },
        ),
{
    let hl = hex_line(data, upper);
    lemma_hex_line_shape(data, upper);
    let last: int = data.len() - 1;
    assert(hex_pair(data[last], upper)[0] == hl[3 * last]);
    assert(hl[3 * last + 1] == hex_pair(data[last], upper)[1]);
    lemma_hex_pair(data[last], upper);
    assert(hex_pair(data[0], upper)[0] == hl[3 * 0int]);
    lemma_hex_pair(data[0], upper);
    assert forall|i: int| 0 <= i < hl.len() implies #[trigger] hl[i] < 128 by {
        assert(hl[i] == 32u8 || is_radix_digit(hl[i], 16));
    }
    lemma_plain_line(hl);
    lemma_hex_line_round_trip(data, upper);
}

/// The partition line is two decimal digits, read as a number in base 10;
/// a unit line is expected after it.
pub proof fn lemma_partition_line_read(m: TaModel, d1: u8, d2: u8)
    requires
        m.state == TAParseState::Partition,
        48 <= d1 <= 57,
        48 <= d2 <= 57,
    ensures
        ta_step(m, ascii_text(seq![d1, d2])) == TaStep::Next(
            TaModel {
                partition: Some(((d1 - 48) * 10 + (d2 - 48)) as u8),
                state: TAParseState::UnitData,
                ..m
            },
        ),
{
    let text = seq![d1, d2];
    assert(is_radix_digit(text[0], 16));
    assert(is_radix_digit(text[1], 16));
    lemma_plain_line(text);
}

} // verus!
