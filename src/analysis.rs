use vstd::prelude::*;

use crate::journal::{lemma_fresh_numbers, Journal};
use crate::numeral::{lemma_decimal_reads_back, parse_decimal, parse_decimal_spec};
use crate::record::{
    fields_of,
    is_valid_record,
    lemma_list_round_trip,
    lemma_record_line_fields,
    line_fields,
    parse_list,
    parse_list_spec,
    record_line,
    texts,
    RecordModel,
};

verus! {

/// One point of the timing series: a record's sequence number and tick cost.
#[derive(Debug, Clone, Copy, PartialEq, Eq, Structural)]
pub struct TimingPoint {
    pub sequence: u64,
    pub tick_cost_us: u128,
}

/// Why a log could not be analysed: a record with four fields whose field could not be
/// read.
#[derive(Debug, Clone, Copy, PartialEq, Eq, Structural)]
pub enum AnalyzeError {
    /// The sequence field is not a decimal `u64`.
    BadSequence,
    /// The tick cost field is not a decimal `u128`.
    BadTickCost,
    /// The positions field is not a bracketed list of value texts.
    BadPositions,
}

/// What an analysis has gathered: the timing series, and the positions of each record
/// that carries two bodies in two dimensions (four values) or in three (six values).
pub struct AnalysisModel {
    pub timing: Seq<TimingPoint>,
    pub planar: Seq<Seq<Seq<char>>>,
    pub spatial: Seq<Seq<Seq<char>>>,
}

/// The row views of a vector of rows of value texts.
pub open spec fn rows_view(v: Seq<Vec<String>>) -> Seq<Seq<Seq<char>>> {
    v.map_values(|r: Vec<String>| texts(r@))
}

/// Whether every planar row holds four values and every spatial row six.
pub open spec fn rows_fit(m: AnalysisModel) -> bool {
    &&& forall|i: int| 0 <= i < m.planar.len() ==> (#[trigger] m.planar[i]).len() == 4
    &&& forall|i: int| 0 <= i < m.spatial.len() ==> (#[trigger] m.spatial[i]).len() == 6
}

/// An analysis that has read nothing.
pub open spec fn empty_model() -> AnalysisModel {
    AnalysisModel { timing: Seq::empty(), planar: Seq::empty(), spatial: Seq::empty() }
}

/// Reads one line into an analysis. A line that, trimmed, does not hold exactly four
/// tab-separated fields is skipped. Otherwise the sequence, the tick cost and the
/// positions must be readable, in that order; the record then joins the timing series,
/// and its positions join the planar rows when they are four, the spatial rows when
/// they are six, and neither otherwise.
pub open spec fn ingest_spec(m: AnalysisModel, line: Seq<char>) -> Result<
    AnalysisModel,
    AnalyzeError,
> {
    let f = line_fields(line);
    if f.len() != 4 {
        Ok(m)
    } else if parse_decimal_spec(f[0], u64::MAX as nat) is None {
        Err(AnalyzeError::BadSequence)
    } else if parse_decimal_spec(f[3], u128::MAX as nat) is None {
        Err(AnalyzeError::BadTickCost)
    } else if parse_list_spec(f[2]) is None {
        Err(AnalyzeError::BadPositions)
    } else {
        let v = parse_list_spec(f[2])->0;
        let p = TimingPoint {
            sequence: parse_decimal_spec(f[0], u64::MAX as nat)->0 as u64,
            tick_cost_us: parse_decimal_spec(f[3], u128::MAX as nat)->0 as u128,
        };
        Ok(
            AnalysisModel {
                timing: m.timing.push(p),
                planar: if v.len() == 4 {
                    m.planar.push(v)
                } else {
                    m.planar
                },
                spatial: if v.len() == 6 {
                    m.spatial.push(v)
                } else {
                    m.spatial
                },
            },
        )
    }
}

/// The analysis of a whole log, line after line; the first unreadable record stops it.
pub open spec fn analysis_of(lines: Seq<Seq<char>>) -> Result<AnalysisModel, AnalyzeError>
    decreases lines.len(),
{
    if lines.len() == 0 {
        Ok(empty_model())
    } else {
        match analysis_of(lines.drop_last()) {
            Ok(m) => ingest_spec(m, lines.last()),
            Err(e) => Err(e),
        }
    }
}

/// The series and rows gathered from a log.
pub struct Analysis {
    timing: Vec<TimingPoint>,
    planar: Vec<Vec<String>>,
    spatial: Vec<Vec<String>>,
}

impl View for Analysis {
    type V = AnalysisModel;

    closed spec fn view(&self) -> AnalysisModel {
        AnalysisModel {
            timing: self.timing@,
            planar: rows_view(self.planar@),
            spatial: rows_view(self.spatial@),
        }
    }
}

/// The points of one body through a log: per record, the body's coordinates as value
/// texts.
pub struct Trajectory {
    pub body: usize,
    pub dims: usize,
    pub points: Vec<Vec<String>>,
}

/// What a trajectory holds, as mathematical values.
pub struct TrajectoryModel {
    pub body: usize,
    pub dims: usize,
    pub points: Seq<Seq<Seq<char>>>,
}

impl View for Trajectory {
    type V = TrajectoryModel;

    open spec fn view(&self) -> TrajectoryModel {
        TrajectoryModel { body: self.body, dims: self.dims, points: rows_view(self.points@) }
    }
}

/// The coordinates of body `body` in each row, where each body has `dims` of them.
pub open spec fn body_points(rows: Seq<Seq<Seq<char>>>, body: int, dims: int) -> Seq<
    Seq<Seq<char>>,
> {
    rows.map_values(|r: Seq<Seq<char>>| r.subrange(body * dims, body * dims + dims))
}

/// The trajectory of body `body` over rows with `dims` coordinates per body.
pub open spec fn trajectory_of(rows: Seq<Seq<Seq<char>>>, body: usize, dims: usize) -> TrajectoryModel {
    TrajectoryModel { body, dims, points: body_points(rows, body as int, dims as int) }
}

/// The trajectories an analysis yields: two in two dimensions when some record carried
/// four values, two in three dimensions when some record carried six, bodies in order.
pub open spec fn trajectories_of(m: AnalysisModel) -> Seq<TrajectoryModel> {
    (if m.planar.len() > 0 {
        seq![trajectory_of(m.planar, 0, 2), trajectory_of(m.planar, 1, 2)]
    } else {
        Seq::empty()
    }) + (if m.spatial.len() > 0 {
        seq![trajectory_of(m.spatial, 0, 3), trajectory_of(m.spatial, 1, 3)]
    } else {
        Seq::empty()
    })
}

/// The coordinates of body `body` in each row, where each body has `dims` of them.
fn body_points_of(rows: &Vec<Vec<String>>, body: usize, dims: usize) -> (r: Vec<Vec<String>>)
    requires
        body <= 1,
        dims <= 3,
        forall|i: int| 0 <= i < rows@.len() ==> (body + 1) * dims <= (#[trigger] rows@[i]).len(),
    ensures
        rows_view(r@) == body_points(rows_view(rows@), body as int, dims as int),
{
    let mut r: Vec<Vec<String>> = Vec::new();
    let start = body * dims;
    for i in 0..rows.len()
        invariant
            start == body * dims,
            body <= 1,
            dims <= 3,
            forall|i: int| 0 <= i < rows@.len() ==> (body + 1) * dims <= (#[trigger] rows@[i]).len(),
            rows_view(r@) == body_points(rows_view(rows@), body as int, dims as int).subrange(0, i as int),
    {
        let row = &rows[i];
        assert((body + 1) * dims <= row.len());
        assert((body + 1) * dims == start + dims) by (nonlinear_arith)
            requires
                start == body * dims,
        ;
        let mut point: Vec<String> = Vec::new();
        for k in 0..dims
            invariant
                start + dims <= row.len(),
                texts(point@) == texts(row@).subrange(start as int, start + k),
        {
            let ghost before = point@;
            point.push(row[start + k].clone());
            assert(texts(point@) =~= texts(before).push(row@[start + k]@));
            assert(texts(row@).subrange(start as int, start + k + 1) =~= texts(row@).subrange(
                start as int,
                start + k,
            ).push(row@[start + k]@));
        }
        let ghost before = r@;
        r.push(point);
        assert(rows_view(r@) =~= rows_view(before).push(texts(point@)));
        assert(body_points(rows_view(rows@), body as int, dims as int).subrange(0, i + 1)
            =~= body_points(rows_view(rows@), body as int, dims as int).subrange(0, i as int).push(
            texts(row@).subrange(start as int, start + dims),
        ));
    }
    assert(body_points(rows_view(rows@), body as int, dims as int).subrange(0, rows.len() as int)
        =~= body_points(rows_view(rows@), body as int, dims as int));
    r
}

impl Analysis {
    /// Every planar row holds four values and every spatial row six.
    pub open spec fn wf(&self) -> bool {
        rows_fit(self@)
    }

    /// The trajectories of the bodies: as `trajectories_of` says, two per
    /// dimensionality that the log shows.
    pub fn trajectories(&self) -> (r: Vec<Trajectory>)
        requires
            self.wf(),
        ensures
            r@.map_values(|t: Trajectory| t@) == trajectories_of(self@),
    {
        assert forall|i: int| 0 <= i < self.planar@.len() implies 4 == (
        #[trigger] self.planar@[i]).len() by {
            assert(self@.planar == rows_view(self.planar@));
            assert(self@.planar[i].len() == 4);
        }
        assert forall|i: int| 0 <= i < self.spatial@.len() implies 6 == (
        #[trigger] self.spatial@[i]).len() by {
            assert(self@.spatial == rows_view(self.spatial@));
            assert(self@.spatial[i].len() == 6);
        }
        let mut r: Vec<Trajectory> = Vec::new();
        if self.planar.len() > 0 {
            r.push(Trajectory { body: 0, dims: 2, points: body_points_of(&self.planar, 0, 2) });
            r.push(Trajectory { body: 1, dims: 2, points: body_points_of(&self.planar, 1, 2) });
        }
        if self.spatial.len() > 0 {
            r.push(Trajectory { body: 0, dims: 3, points: body_points_of(&self.spatial, 0, 3) });
            r.push(Trajectory { body: 1, dims: 3, points: body_points_of(&self.spatial, 1, 3) });
        }
        assert(r@.map_values(|t: Trajectory| t@) =~= trajectories_of(self@));
        r
    }

    /// An analysis that has read nothing.
    pub fn new() -> (r: Analysis)
        ensures
            r.wf(),
            r@ == empty_model(),
    {
        let r = Analysis { timing: Vec::new(), planar: Vec::new(), spatial: Vec::new() };
        assert(r.wf());
        assert(r@.planar =~= Seq::<Seq<Seq<char>>>::empty());
        assert(r@.spatial =~= Seq::<Seq<Seq<char>>>::empty());
        r
    }

    /// Reads one line of a log, as `ingest_spec` says; on an error nothing changes.
    pub fn ingest(&mut self, line: &str) -> (r: Result<(), AnalyzeError>)
        requires
            old(self).wf(),
        ensures
            final(self).wf(),
            match ingest_spec(old(self)@, line@) {
                Ok(m) => r is Ok && final(self)@ == m,
                Err(e) => r == Err::<(), AnalyzeError>(e) && final(self)@ == old(self)@,
            },
    {

        let f = fields_of(line);
        if f.len() != 4 {
            return Ok(());
        }
        proof {
            assert(f[0]@ == line_fields(line@)[0]);
            assert(f[2]@ == line_fields(line@)[2]);
            assert(f[3]@ == line_fields(line@)[3]);
        }
        let sequence = match parse_decimal(f[0].as_slice(), u64::MAX as u128) {
            Some(v) => v as u64,
            None => {
                return Err(AnalyzeError::BadSequence);
            },
        };
        let tick_cost_us = match parse_decimal(f[3].as_slice(), u128::MAX) {
            Some(v) => v,
            None => {
                return Err(AnalyzeError::BadTickCost);
            },
        };
        let values = match parse_list(f[2].as_slice()) {
            Some(v) => v,
            None => {
                return Err(AnalyzeError::BadPositions);
            },
        };
        let ghost v = texts(values@);
        self.timing.push(TimingPoint { sequence, tick_cost_us });
        let n = values.len();
        if n == 4 {
            self.planar.push(values);
            assert(rows_view(self.planar@) =~= old(self)@.planar.push(v));
        } else if n == 6 {
            self.spatial.push(values);
            assert(rows_view(self.spatial@) =~= old(self)@.spatial.push(v));
        }
        Ok(())
    }

    /// Analyses a whole log, given as its lines.
    pub fn from_lines(lines: &Vec<String>) -> (r: Result<Analysis, AnalyzeError>)
        ensures
            match analysis_of(texts(lines@)) {
                Ok(m) => r is Ok && r->Ok_0@ == m && r->Ok_0.wf(),
                Err(e) => r == Err::<Analysis, AnalyzeError>(e),
            },
    {
        let mut a = Analysis::new();
        for k in 0..lines.len()
            invariant
                a.wf(),
                analysis_of(texts(lines@).subrange(0, k as int)) == Ok::<
                    AnalysisModel,
                    AnalyzeError,
                >(a@),
        {
            let ghost before = texts(lines@).subrange(0, k as int);
            let ghost now = texts(lines@).subrange(0, k + 1);
            assert(now.drop_last() =~= before);
            assert(now.last() == lines@[k as int]@);
            match a.ingest(lines[k].as_str()) {
                Ok(()) => {},
                Err(e) => {
                    proof {
                        lemma_error_persists(texts(lines@), k + 1);
                    }
                    return Err(e);
                },
            }
        }
        assert(texts(lines@).subrange(0, lines.len() as int) =~= texts(lines@));
        Ok(a)
    }

    /// The timing series, in the order of the log.
    pub fn timing(&self) -> (r: &Vec<TimingPoint>)
        ensures
            r@ == self@.timing,
    {
        &self.timing
    }
}

/// Once a prefix of a log fails, the whole log fails with the same error.
pub proof fn lemma_error_persists(lines: Seq<Seq<char>>, k: int)
    requires
        0 <= k <= lines.len(),
        analysis_of(lines.subrange(0, k)) is Err,
    ensures
        analysis_of(lines) == analysis_of(lines.subrange(0, k)),
    decreases lines.len() - k,
{
    if k < lines.len() {
        let next = lines.subrange(0, k + 1);
        assert(next.drop_last() =~= lines.subrange(0, k));
        lemma_error_persists(lines, k + 1);
    } else {
        assert(lines.subrange(0, k) =~= lines);
    }
}

/// The axis ranges of the timing chart: sequence numbers across, tick costs up.
#[derive(Debug, Clone, Copy, PartialEq, Eq, Structural)]
pub struct ChartRange {
    pub x_low: u64,
    pub x_high: u64,
    pub y_low: u128,
    pub y_high: u128,
}

/// The range of a chart with nothing to show.
pub open spec fn default_range() -> ChartRange {
    ChartRange { x_low: 0, x_high: 1, y_low: 0, y_high: 1 }
}

/// The least sequence number of a non-empty series.
pub open spec fn min_sequence(t: Seq<TimingPoint>) -> u64
    decreases t.len(),
{
    if t.len() <= 1 {
        t[0].sequence
    } else if t.last().sequence < min_sequence(t.drop_last()) {
        t.last().sequence
    } else {
        min_sequence(t.drop_last())
    }
}

/// The greatest sequence number of a non-empty series.
pub open spec fn max_sequence(t: Seq<TimingPoint>) -> u64
    decreases t.len(),
{
    if t.len() <= 1 {
        t[0].sequence
    } else if t.last().sequence > max_sequence(t.drop_last()) {
        t.last().sequence
    } else {
        max_sequence(t.drop_last())
    }
}

/// The greatest tick cost of a series, 0 for an empty one.
pub open spec fn max_cost(t: Seq<TimingPoint>) -> u128
    decreases t.len(),
{
    if t.len() == 0 {
        0
    } else if t.last().tick_cost_us > max_cost(t.drop_last()) {
        t.last().tick_cost_us
    } else {
        max_cost(t.drop_last())
    }
}

/// The timing chart's range: across, from the least to the greatest sequence number;
/// up, from 0 to the greatest tick cost. A range that would be empty is widened by one
/// at its top (at its bottom where the top is the largest value); an empty series takes
/// the default range.
pub open spec fn timing_range_spec(t: Seq<TimingPoint>) -> ChartRange {
    if t.len() == 0 {
        default_range()
    } else {
        let lo = min_sequence(t);
        let hi = max_sequence(t);
        let c = max_cost(t);
        ChartRange {
            x_low: if lo < hi || hi < u64::MAX {
                lo
            } else {
                (lo - 1) as u64
            },
            x_high: if lo < hi || hi == u64::MAX {
                hi
            } else {
                (hi + 1) as u64
            },
            y_low: 0,
            y_high: if c == 0 {
                1
            } else {
                c
            },
        }
    }
}

impl Analysis {
    /// The range of the timing chart, as `timing_range_spec` says; never empty.
    pub fn timing_range(&self) -> (r: ChartRange)
        ensures
            r == timing_range_spec(self@.timing),
            r.x_low < r.x_high,
            r.y_low < r.y_high,
    {
        let t = &self.timing;
        if t.len() == 0 {
            return ChartRange { x_low: 0, x_high: 1, y_low: 0, y_high: 1 };
        }
        let mut lo = t[0].sequence;
        let mut hi = t[0].sequence;
        let mut c = t[0].tick_cost_us;
        assert(t@.subrange(0, 1).drop_last() =~= Seq::<TimingPoint>::empty());
        assert(max_cost(Seq::<TimingPoint>::empty()) == 0);
        assert(t@.subrange(0, 1).last() == t@[0]);
        for i in 1..t.len()
            invariant
                t@.len() > 0,
                lo <= hi,
                lo == min_sequence(t@.subrange(0, i as int)),
                hi == max_sequence(t@.subrange(0, i as int)),
                c == max_cost(t@.subrange(0, i as int)),
        {
            let p = t[i];
            assert(t@.subrange(0, i + 1).drop_last() =~= t@.subrange(0, i as int));
            if p.sequence < lo {
                lo = p.sequence;
            }
            if p.sequence > hi {
                hi = p.sequence;
            }
            if p.tick_cost_us > c {
                c = p.tick_cost_us;
            }
        }
        assert(t@.subrange(0, t.len() as int) =~= t@);
        assert(self@.timing == t@);
        let x_low = if lo < hi || hi < u64::MAX {
            lo
        } else {
            lo - 1
        };
        let x_high = if lo < hi || hi == u64::MAX {
            hi
        } else {
            hi + 1
        };
        let y_high = if c == 0 {
            1
        } else {
            c
        };
        ChartRange { x_low, x_high, y_low: 0, y_high }
    }
}

/// The lines of a log written from these records, in order.
pub open spec fn log_lines(records: Seq<RecordModel>) -> Seq<Seq<char>> {
    records.map_values(|m: RecordModel| record_line(m))
}

/// The timing point of a record.
pub open spec fn timing_point(m: RecordModel) -> TimingPoint {
    TimingPoint { sequence: m.sequence, tick_cost_us: m.tick_cost_us }
}

/// The positions of the records that carry `width` values, in order.
pub open spec fn rows_of_width(records: Seq<RecordModel>, width: nat) -> Seq<Seq<Seq<char>>>
    decreases records.len(),
{
    if records.len() == 0 {
        Seq::empty()
    } else if records.last().positions.len() == width {
        rows_of_width(records.drop_last(), width).push(records.last().positions)
    } else {
        rows_of_width(records.drop_last(), width)
    }
}

/// The line of a record that may be written adds the record to an analysis.
pub proof fn lemma_ingest_record(a: AnalysisModel, m: RecordModel)
    requires
        is_valid_record(m),
    ensures
        ingest_spec(a, record_line(m)) == Ok::<AnalysisModel, AnalyzeError>(
            AnalysisModel {
                timing: a.timing.push(timing_point(m)),
                planar: if m.positions.len() == 4 {
                    a.planar.push(m.positions)
                } else {
                    a.planar
                },
                spatial: if m.positions.len() == 6 {
                    a.spatial.push(m.positions)
                } else {
                    a.spatial
                },
            },
        ),
{
    lemma_record_line_fields(m);
    lemma_decimal_reads_back(m.sequence as nat);
    lemma_decimal_reads_back(m.tick_cost_us as nat);
    lemma_list_round_trip(m.positions);
}

/// A log written from records that may be written reads back as those records: their
/// timing points in order, and the positions of those with four values and of those
/// with six.
pub proof fn lemma_log_read_back(records: Seq<RecordModel>)
    requires
        forall|i: int| 0 <= i < records.len() ==> is_valid_record(#[trigger] records[i]),
    ensures
        analysis_of(log_lines(records)) == Ok::<AnalysisModel, AnalyzeError>(
            AnalysisModel {
                timing: records.map_values(|m: RecordModel| timing_point(m)),
                planar: rows_of_width(records, 4),
                spatial: rows_of_width(records, 6),
            },
        ),
    decreases records.len(),
{
    if records.len() == 0 {
        assert(records.map_values(|m: RecordModel| timing_point(m)) =~= Seq::<
            TimingPoint,
        >::empty());
    } else {
        let init = records.drop_last();
        assert forall|i: int| 0 <= i < init.len() implies is_valid_record(#[trigger] init[i]) by {
            assert(init[i] == records[i]);
        }
        lemma_log_read_back(init);
        assert(log_lines(records).drop_last() =~= log_lines(init));
        assert(records.last() == records[records.len() - 1]);
        let prev = AnalysisModel {
            timing: init.map_values(|m: RecordModel| timing_point(m)),
            planar: rows_of_width(init, 4),
            spatial: rows_of_width(init, 6),
        };
        lemma_ingest_record(prev, records.last());
        assert(records.map_values(|m: RecordModel| timing_point(m)) =~= prev.timing.push(
            timing_point(records.last()),
        ));
    }
}

/// Records that all carry `width` values give one row each of that width and none of
/// any other.
pub proof fn lemma_rows_of_uniform_width(records: Seq<RecordModel>, width: nat, other: nat)
    requires
        width != other,
        forall|i: int| 0 <= i < records.len() ==> (#[trigger] records[i]).positions.len() == width,
    ensures
        rows_of_width(records, width).len() == records.len(),
        rows_of_width(records, other).len() == 0,
    decreases records.len(),
{
    if records.len() > 0 {
        let init = records.drop_last();
        assert forall|i: int| 0 <= i < init.len() implies (#[trigger] init[i]).positions.len()
            == width by {
            assert(init[i] == records[i]);
        }
        lemma_rows_of_uniform_width(init, width, other);
        assert(records.last() == records[records.len() - 1]);
    }
}

/// A log written from records of four values each yields exactly two trajectories, of
/// the first and the second body, both in two dimensions; one written from records of
/// six values each yields exactly two, both in three dimensions.
pub proof fn lemma_uniform_log_trajectories(records: Seq<RecordModel>, width: nat)
    requires
        records.len() > 0,
        width == 4 || width == 6,
        forall|i: int|
            0 <= i < records.len() ==> is_valid_record(#[trigger] records[i])
                && records[i].positions.len() == width,
    ensures
        analysis_of(log_lines(records)) is Ok,
        ({
            let t = trajectories_of(analysis_of(log_lines(records))->Ok_0);
            &&& t.len() == 2
            &&& t[0].body == 0 && t[1].body == 1
            &&& t[0].dims == width / 2 && t[1].dims == width / 2
        }),
{
    lemma_log_read_back(records);
    assert forall|i: int| 0 <= i < records.len() implies (#[trigger] records[i]).positions.len()
        == width by {}
    lemma_rows_of_uniform_width(records, width, if width == 4 {
        6
    } else {
        4
    });
}

/// A log in which no line holds four fields has no records: it yields no trajectory,
/// and its timing chart takes the default range.
pub proof fn lemma_log_without_records(lines: Seq<Seq<char>>)
    requires
        forall|i: int| 0 <= i < lines.len() ==> (#[trigger] line_fields(lines[i])).len() != 4,
    ensures
        analysis_of(lines) == Ok::<AnalysisModel, AnalyzeError>(empty_model()),
        trajectories_of(empty_model()).len() == 0,
        timing_range_spec(empty_model().timing) == default_range(),
    decreases lines.len(),
{
    if lines.len() > 0 {
        let init = lines.drop_last();
        assert forall|i: int| 0 <= i < init.len() implies (#[trigger] line_fields(init[i])).len()
            != 4 by {
            assert(init[i] == lines[i]);
        }
        lemma_log_without_records(init);
        assert(line_fields(lines[lines.len() - 1]).len() != 4);
    }
    assert(trajectories_of(empty_model()) =~= Seq::<TrajectoryModel>::empty());
}

/// The records a journal opened on a fresh log has numbered read back, from the lines
/// written for them, with sequence numbers 1, 2, 3, ... in the order written.
pub proof fn lemma_fresh_log_timing(j: Journal, records: Seq<RecordModel>)
    requires
        j.wf(),
        j.first() == 0,
        records.len() == j.issued().len(),
        forall|i: int|
            0 <= i < records.len() ==> is_valid_record(#[trigger] records[i])
                && records[i].sequence == j.issued()[i],
    ensures
        analysis_of(log_lines(records)) is Ok,
        analysis_of(log_lines(records))->Ok_0.timing.len() == records.len(),
        forall|i: int|
            0 <= i < records.len() ==> (#[trigger] analysis_of(log_lines(records))->Ok_0.timing[i]).sequence
                == i + 1,
{
    assert forall|i: int| 0 <= i < records.len() implies is_valid_record(#[trigger] records[i]) by {}
    lemma_log_read_back(records);
    lemma_fresh_numbers(j);
    assert forall|i: int| 0 <= i < records.len() implies (
    #[trigger] analysis_of(log_lines(records))->Ok_0.timing[i]).sequence == i + 1 by {
        assert(records[i].sequence == j.issued()[i]);
    }
}

} // verus!
