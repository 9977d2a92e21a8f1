use vstd::prelude::*;
use vstd::slice::slice_subrange;
use vstd::string::StringExecFns;

use crate::numeral::{
    decimal,
    lemma_decimal_digits,
    lemma_decimal_reads_back,
    parse_decimal,
    parse_decimal_spec,
    push_decimal,
};
use crate::text::{
    holds_char,
    join,
    lemma_join_ends,
    lemma_join_lacks,
    lemma_split_join,
    lemma_trim_line,
    lemma_trim_plain,
    pieces,
    push_char,
    split,
    split_chars,
    string_of,
    trim,
    trim_bounds,
};

verus! {

/// Whether `c` may stand in the text of one position value: an ASCII letter or digit,
/// `+`, `-` or `.`.
pub open spec fn is_value_char(c: char) -> bool {
    ||| '0' <= c && c <= '9'
    ||| 'a' <= c && c <= 'z'
    ||| 'A' <= c && c <= 'Z'
    ||| c == '+'
    ||| c == '-'
    ||| c == '.'
}

/// Whether `t` is the text of one position value: non-empty, of value characters
/// alone.
pub open spec fn is_value_text(t: Seq<char>) -> bool {
    t.len() > 0 && forall|i: int| 0 <= i < t.len() ==> is_value_char(#[trigger] t[i])
}

/// The views of a vector of strings.
pub open spec fn texts(v: Seq<String>) -> Seq<Seq<char>> {
    v.map_values(|s: String| s@)
}

/// The positions field: the values between brackets, separated by commas.
pub open spec fn list_text(values: Seq<Seq<char>>) -> Seq<char> {
    seq!['['] + join(values, ',') + seq![']']
}

/// Reads a positions field: after trimming it must be a bracketed list, empty or of
/// comma-separated value texts, each of which may carry white space around it.
pub open spec fn parse_list_spec(f: Seq<char>) -> Option<Seq<Seq<char>>> {
    let t = trim(f);
    if t.len() >= 2 && t[0] == '[' && t.last() == ']' {
        let inner = t.subrange(1, t.len() - 1);
        if trim(inner).len() == 0 {
            Some(Seq::empty())
        } else {
            let items = split(inner, ',').map_values(|p: Seq<char>| trim(p));
            if forall|i: int| 0 <= i < items.len() ==> is_value_text(#[trigger] items[i]) {
                Some(items)
            } else {
                None
            }
        }
    } else {
        None
    }
}

/// Whether every character of `s` is a value character.
fn value_chars(s: &[char]) -> (r: bool)
    ensures
        r == (forall|i: int| 0 <= i < s@.len() ==> is_value_char(#[trigger] s@[i])),
{
    let mut i: usize = 0;
    while i < s.len()
        invariant
            i <= s.len(),
            forall|k: int| 0 <= k < i ==> is_value_char(#[trigger] s@[k]),
        decreases s.len() - i,
    {
        let c = s[i];
        if !(('0' <= c && c <= '9') || ('a' <= c && c <= 'z') || ('A' <= c && c <= 'Z') || c
            == '+' || c == '-' || c == '.') {
            return false;
        }
        i = i + 1;
    }
    true
}

/// Whether `s` is the text of one position value.
pub fn value_text(s: &str) -> (r: bool)
    ensures
        r == is_value_text(s@),
{
    let chars = crate::text::chars_of(s);
    chars.len() > 0 && value_chars(chars.as_slice())
}

/// Reads a positions field into its value texts: `None` exactly when
/// `parse_list_spec` rejects it.
pub fn parse_list(f: &[char]) -> (r: Option<Vec<String>>)
    ensures
        match parse_list_spec(f@) {
            Some(v) => r is Some && texts(r->0@) == v,
            None => r is None,
        },
{
    let (a, b) = trim_bounds(f);
    let t = slice_subrange(f, a, b);
    if t.len() < 2 || t[0] != '[' || t[t.len() - 1] != ']' {
        return None;
    }
    let inner = slice_subrange(t, 1, t.len() - 1);
    let (c, d) = trim_bounds(inner);
    if c == d {
        return Some(Vec::new());
    }
    let parts = split_chars(inner, ',');
    let ghost items = split(inner@, ',').map_values(|p: Seq<char>| trim(p));
    let mut out: Vec<String> = Vec::new();
    assert(t@ == trim(f@));
    assert(inner@ == t@.subrange(1, t@.len() - 1));
    assert(trim(inner@) == inner@.subrange(c as int, d as int));
    let ghost verdict = parse_list_spec(f@);
    assert(verdict == if forall|i: int| 0 <= i < items.len() ==> is_value_text(#[trigger] items[i]) {
        Some(items)
    } else {
        None
    });
    for k in 0..parts.len()
        invariant
            verdict == if forall|i: int| 0 <= i < items.len() ==> is_value_text(
                #[trigger] items[i],
            ) {
                Some(items)
            } else {
                None
            },
            verdict == parse_list_spec(f@),
            items.len() == parts.len(),
            pieces(parts@) == split(inner@, ','),
            items == split(inner@, ',').map_values(|p: Seq<char>| trim(p)),
            texts(out@) == items.subrange(0, k as int),
            forall|i: int| 0 <= i < k ==> is_value_text(#[trigger] items[i]),
    {
        let p = parts[k].as_slice();
        assert(p@ == pieces(parts@)[k as int]);
        let (x, y) = trim_bounds(p);
        let piece = slice_subrange(p, x, y);
        assert(items[k as int] == trim(split(inner@, ',')[k as int]));
        assert(piece@ == items[k as int]);
        if piece.len() == 0 || !value_chars(piece) {
            assert(!is_value_text(items[k as int]));
            return None;
        }
        let sv = string_of(piece);
        let ghost before = out@;
        out.push(sv);
        assert(texts(out@) =~= texts(before).push(items[k as int]));
        assert(items.subrange(0, k + 1) =~= items.subrange(0, k as int).push(items[k as int]));
    }
    assert(items.subrange(0, items.len() as int) =~= items);
    Some(out)
}

/// One line of the log, read or to be written.
pub struct Record {
    pub sequence: u64,
    pub dimension: usize,
    pub positions: Vec<String>,
    pub tick_cost_us: u128,
}

/// What a record holds, as mathematical values.
pub struct RecordModel {
    pub sequence: u64,
    pub dimension: usize,
    pub positions: Seq<Seq<char>>,
    pub tick_cost_us: u128,
}

impl View for Record {
    type V = RecordModel;

    open spec fn view(&self) -> RecordModel {
        RecordModel {
            sequence: self.sequence,
            dimension: self.dimension,
            positions: texts(self.positions@),
            tick_cost_us: self.tick_cost_us,
        }
    }
}

/// Whether a record may be written: its dimension is the number of its positions and
/// each position is a value text.
pub open spec fn is_valid_record(m: RecordModel) -> bool {
    &&& m.dimension == m.positions.len()
    &&& forall|i: int| 0 <= i < m.positions.len() ==> is_value_text(#[trigger] m.positions[i])
}

/// The four fields of a record's line, in order.
pub open spec fn record_fields(m: RecordModel) -> Seq<Seq<char>> {
    seq![
        decimal(m.sequence as nat),
        decimal(m.dimension as nat),
        list_text(m.positions),
        decimal(m.tick_cost_us as nat),
    ]
}

/// The line written for a record: its fields separated by tabs, then a line break.
pub open spec fn record_line(m: RecordModel) -> Seq<char> {
    join(record_fields(m), '\t').push('\n')
}

/// Why a line is not a record.
#[derive(Debug, Clone, Copy, PartialEq, Eq, Structural)]
pub enum RecordError {
    /// The line does not hold exactly four tab-separated fields.
    FieldCount,
    /// The sequence field is not a decimal `u64`.
    BadSequence,
    /// The dimension field is not a decimal `usize`.
    BadDimension,
    /// The positions field is not a bracketed list of value texts.
    BadPositions,
    /// The tick cost field is not a decimal `u128`.
    BadTickCost,
    /// The dimension differs from the number of positions.
    DimensionMismatch,
}

/// The fields of a trimmed line.
pub open spec fn line_fields(line: Seq<char>) -> Seq<Seq<char>> {
    split(trim(line), '\t')
}

/// Reads one line as a record; errors are checked field by field, in order.
pub open spec fn parse_record_spec(line: Seq<char>) -> Result<RecordModel, RecordError> {
    let f = line_fields(line);
    if f.len() != 4 {
        Err(RecordError::FieldCount)
    } else if parse_decimal_spec(f[0], u64::MAX as nat) is None {
        Err(RecordError::BadSequence)
    } else if parse_decimal_spec(f[1], usize::MAX as nat) is None {
        Err(RecordError::BadDimension)
    } else if parse_list_spec(f[2]) is None {
        Err(RecordError::BadPositions)
    } else if parse_decimal_spec(f[3], u128::MAX as nat) is None {
        Err(RecordError::BadTickCost)
    } else if parse_list_spec(f[2])->0.len() != parse_decimal_spec(f[1], usize::MAX as nat)->0 {
        Err(RecordError::DimensionMismatch)
    } else {
        Ok(
            RecordModel {
                sequence: parse_decimal_spec(f[0], u64::MAX as nat)->0 as u64,
                dimension: parse_decimal_spec(f[1], usize::MAX as nat)->0 as usize,
                positions: parse_list_spec(f[2])->0,
                tick_cost_us: parse_decimal_spec(f[3], u128::MAX as nat)->0 as u128,
            },
        )
    }
}

/// The fields of a line, trimmed and split on tabs.
pub fn fields_of(line: &str) -> (r: Vec<Vec<char>>)
    ensures
        pieces(r@) == line_fields(line@),
{
    let chars = crate::text::chars_of(line);
    let (a, b) = trim_bounds(chars.as_slice());
    split_chars(slice_subrange(chars.as_slice(), a, b), '\t')
}

/// Appends the positions field for `values` to `out`.
pub fn push_list(out: &mut String, values: &Vec<String>)
    ensures
        final(out)@ == old(out)@ + list_text(texts(values@)),
{
    push_char(out, '[');
    let ghost start = out@;
    for k in 0..values.len()
        invariant
            out@ == start + join(texts(values@).subrange(0, k as int), ','),
    {
        let ghost sub = texts(values@).subrange(0, k + 1);
        assert(sub.drop_last() =~= texts(values@).subrange(0, k as int));
        if k > 0 {
            push_char(out, ',');
        }
        out.append(values[k].as_str());
        assert(out@ =~= start + join(sub, ','));
    }
    assert(texts(values@).subrange(0, values.len() as int) =~= texts(values@));
    push_char(out, ']');
    assert(final(out)@ =~= old(out)@ + list_text(texts(values@)));
}

/// The line that stores a record with these fields: sequence, dimension, positions
/// and tick cost, separated by tabs, then a line break.
pub fn format_record(sequence: u64, dimension: usize, positions: &Vec<String>, tick_cost_us: u128) -> (r: String)
    ensures
        r@ == record_line(
            RecordModel { sequence, dimension, positions: texts(positions@), tick_cost_us },
        ),
{
    let ghost m = RecordModel { sequence, dimension, positions: texts(positions@), tick_cost_us };
    let mut out = String::new();
    push_decimal(&mut out, sequence as u128);
    push_char(&mut out, '\t');
    push_decimal(&mut out, dimension as u128);
    push_char(&mut out, '\t');
    push_list(&mut out, positions);
    push_char(&mut out, '\t');
    push_decimal(&mut out, tick_cost_us);
    push_char(&mut out, '\n');
    proof {
        let f = record_fields(m);
        let j1 = join(seq![f[0]], '\t');
        assert(j1 == f[0]);
        let j2 = join(seq![f[0], f[1]], '\t');
        assert(seq![f[0], f[1]].drop_last() =~= seq![f[0]]);
        assert(j2 == j1.push('\t') + f[1]);
        let j3 = join(seq![f[0], f[1], f[2]], '\t');
        assert(seq![f[0], f[1], f[2]].drop_last() =~= seq![f[0], f[1]]);
        assert(j3 == j2.push('\t') + f[2]);
        assert(f.drop_last() =~= seq![f[0], f[1], f[2]]);
        assert(join(f, '\t') == j3.push('\t') + f[3]);
    }
    assert(out@ =~= record_line(m));
    out
}

impl Record {
    /// The line that stores this record.
    pub fn to_line(&self) -> (r: String)
        ensures
            r@ == record_line(self@),
    {
        format_record(self.sequence, self.dimension, &self.positions, self.tick_cost_us)
    }

    /// Reads one line as a record, exactly as `parse_record_spec` says.
    pub fn parse(line: &str) -> (r: Result<Record, RecordError>)
        ensures
            match parse_record_spec(line@) {
                Ok(m) => r is Ok && r->Ok_0@ == m,
                Err(e) => r == Err::<Record, RecordError>(e),
            },
    {
        let f = fields_of(line);
        if f.len() != 4 {
            return Err(RecordError::FieldCount);
        }
        proof {
            assert(f[0]@ == line_fields(line@)[0]);
            assert(f[1]@ == line_fields(line@)[1]);
            assert(f[2]@ == line_fields(line@)[2]);
            assert(f[3]@ == line_fields(line@)[3]);
        }
        let sequence = match parse_decimal(f[0].as_slice(), u64::MAX as u128) {
            Some(v) => v as u64,
            None => {
                return Err(RecordError::BadSequence);
            },
        };
        let dimension = match parse_decimal(f[1].as_slice(), usize::MAX as u128) {
            Some(v) => v as usize,
            None => {
                return Err(RecordError::BadDimension);
            },
        };
        let positions = match parse_list(f[2].as_slice()) {
            Some(v) => v,
            None => {
                return Err(RecordError::BadPositions);
            },
        };
        let tick_cost_us = match parse_decimal(f[3].as_slice(), u128::MAX) {
            Some(v) => v,
            None => {
                return Err(RecordError::BadTickCost);
            },
        };
        if positions.len() != dimension {
            return Err(RecordError::DimensionMismatch);
        }
        Ok(Record { sequence, dimension, positions, tick_cost_us })
    }
}

/// A positions field written for value texts reads back as those texts.
pub proof fn lemma_list_round_trip(values: Seq<Seq<char>>)
    requires
        forall|i: int| 0 <= i < values.len() ==> is_value_text(#[trigger] values[i]),
    ensures
        parse_list_spec(list_text(values)) == Some(values),
{
    let l = list_text(values);
    assert(l[0] == '[');
    assert(l.last() == ']');
    lemma_trim_plain(l);
    let inner = l.subrange(1, l.len() - 1);
    assert(inner =~= join(values, ','));
    if values.len() == 0 {
        assert(inner.len() == 0);
        assert(trim(inner) =~= Seq::<char>::empty());
    } else {
        assert(values[0].len() > 0);
        assert(values.last() == values[values.len() - 1]);
        lemma_join_ends(values, ',');
        assert(is_value_char(values[0][0]));
        assert(is_value_char(values.last()[values.last().len() - 1]));
        lemma_trim_plain(inner);
        assert forall|i: int| 0 <= i < values.len() implies !holds_char(
            #[trigger] values[i],
            ',',
        ) by {
            if holds_char(values[i], ',') {
                let j = choose|j: int| 0 <= j < values[i].len() && values[i][j] == ',';
                assert(is_value_char(values[i][j]));
            }
        }
        lemma_split_join(values, ',');
        let items = split(inner, ',').map_values(|p: Seq<char>| trim(p));
        assert forall|i: int| 0 <= i < values.len() implies trim(#[trigger] values[i])
            == values[i] by {
            assert(is_value_char(values[i][0]));
            assert(is_value_char(values[i][values[i].len() - 1]));
            lemma_trim_plain(values[i]);
        }
        assert(items =~= values);
    }
}

/// The line written for a record that may be written splits back into its four fields.
pub proof fn lemma_record_line_fields(m: RecordModel)
    requires
        is_valid_record(m),
    ensures
        line_fields(record_line(m)) == record_fields(m),
{
    let f = record_fields(m);
    assert forall|k: int| 0 <= k < f.len() implies !holds_char(#[trigger] f[k], '\t') by {
        if holds_char(f[k], '\t') {
            let j = choose|j: int| 0 <= j < f[k].len() && f[k][j] == '\t';
            if k == 0 {
                lemma_decimal_digits(m.sequence as nat, j);
            } else if k == 1 {
                lemma_decimal_digits(m.dimension as nat, j);
            } else if k == 3 {
                lemma_decimal_digits(m.tick_cost_us as nat, j);
            } else {
                let vs = m.positions;
                assert forall|i: int| 0 <= i < vs.len() implies !holds_char(
                    #[trigger] vs[i],
                    '\t',
                ) by {
                    if holds_char(vs[i], '\t') {
                        let q = choose|q: int| 0 <= q < vs[i].len() && vs[i][q] == '\t';
                        assert(is_value_char(vs[i][q]));
                    }
                }
                lemma_join_lacks(vs, ',', '\t');
                let jt = join(vs, ',');
                if 0 < j < f[k].len() - 1 {
                    assert(f[k][j] == jt[j - 1]);
                }
            }
        }
    }
    lemma_split_join(f, '\t');
    lemma_decimal_reads_back(m.sequence as nat);
    lemma_decimal_reads_back(m.tick_cost_us as nat);
    assert(f.last() == decimal(m.tick_cost_us as nat));
    lemma_join_ends(f, '\t');
    lemma_decimal_digits(m.sequence as nat, 0);
    lemma_decimal_digits(m.tick_cost_us as nat, decimal(m.tick_cost_us as nat).len() - 1);
    lemma_trim_line(join(f, '\t'));
}

/// A record that may be written reads back, from the line written for it, as itself.
pub proof fn lemma_record_round_trip(m: RecordModel)
    requires
        is_valid_record(m),
    ensures
        parse_record_spec(record_line(m)) == Ok::<RecordModel, RecordError>(m),
{
    lemma_decimal_reads_back(m.sequence as nat);
    lemma_decimal_reads_back(m.dimension as nat);
    lemma_decimal_reads_back(m.tick_cost_us as nat);
    lemma_list_round_trip(m.positions);
    lemma_record_line_fields(m);
}

} // verus!
