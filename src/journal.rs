use vstd::prelude::*;

use crate::record::{format_record, is_value_text, record_line, texts, value_text, RecordModel};

verus! {

/// Hands out sequence numbers and writes the lines of a log, one record per append.
///
/// A journal numbers its records from the number after `first`: 1 on a fresh log.
/// Appends made under one lock, as the log's writer makes them, therefore get
/// consecutive numbers.
pub struct Journal {
    first: u64,
    last: u64,
    issued: Ghost<Seq<u64>>,
}

/// Why a sample was not appended.
#[derive(Debug, Clone, Copy, PartialEq, Eq, Structural)]
pub enum AppendError {
    /// The dimension differs from the number of positions.
    DimensionMismatch,
    /// A position is not the text of one value.
    BadValue,
    /// Every `u64` sequence number has been used.
    SequenceExhausted,
}

/// What an append owes for these inputs, on a journal whose next number is `next`.
pub open spec fn append_outcome(next: int, dimension: usize, positions: Seq<Seq<char>>) -> Result<
    u64,
    AppendError,
> {
    if dimension != positions.len() {
        Err(AppendError::DimensionMismatch)
    } else if exists|i: int| 0 <= i < positions.len() && !is_value_text(#[trigger] positions[i]) {
        Err(AppendError::BadValue)
    } else if next > u64::MAX {
        Err(AppendError::SequenceExhausted)
    } else {
        Ok(next as u64)
    }
}

/// The positions of the bodies after one simulation step, each body's coordinates as
/// value texts in body order, with the wall-clock cost of the step.
pub struct Snapshot {
    pub bodies: Vec<Vec<String>>,
    pub tick_cost_us: u128,
}

/// The coordinates of all bodies in one sequence, body after body.
pub open spec fn flat_positions(bodies: Seq<Vec<String>>) -> Seq<Seq<char>> {
    bodies.map_values(|b: Vec<String>| texts(b@)).flatten()
}

/// The coordinates of all bodies in one vector, body after body.
pub fn flatten_positions(bodies: &Vec<Vec<String>>) -> (r: Vec<String>)
    ensures
        texts(r@) == flat_positions(bodies@),
{
    let ghost per_body = bodies@.map_values(|b: Vec<String>| texts(b@));
    let mut r: Vec<String> = Vec::new();
    for k in 0..bodies.len()
        invariant
            per_body == bodies@.map_values(|b: Vec<String>| texts(b@)),
            texts(r@) == per_body.subrange(0, k as int).flatten(),
    {
        let body = &bodies[k];
        let ghost start = texts(r@);
        for m in 0..body.len()
            invariant
                texts(r@) == start + texts(body@).subrange(0, m as int),
        {
            let ghost before = r@;
            r.push(body[m].clone());
            assert(texts(r@) =~= texts(before).push(body@[m as int]@));
            assert(texts(body@).subrange(0, m + 1) =~= texts(body@).subrange(0, m as int).push(
                body@[m as int]@,
            ));
        }
        proof {
            assert(texts(body@).subrange(0, body.len() as int) =~= texts(body@));
            assert(per_body.subrange(0, k + 1) =~= per_body.subrange(0, k as int).push(
                per_body[k as int],
            ));
            per_body.subrange(0, k as int).lemma_flatten_push(per_body[k as int]);
        }
    }
    assert(per_body.subrange(0, bodies.len() as int) =~= per_body);
    r
}

impl Journal {
    /// The sequence number before the first that this journal hands out.
    pub closed spec fn first(&self) -> u64 {
        self.first
    }

    /// The sequence numbers handed out so far, in order.
    pub closed spec fn issued(&self) -> Seq<u64> {
        self.issued@
    }

    /// The journal's numbers are consecutive from the one after `first`.
    pub closed spec fn wf(&self) -> bool {
        &&& self.last as int == self.first + self.issued@.len()
        &&& forall|i: int| 0 <= i < self.issued@.len() ==> #[trigger] self.issued@[i] == self.first + i + 1
    }

    /// The number the next append will use.
    pub open spec fn next_sequence(&self) -> int {
        self.first() + self.issued().len() + 1
    }

    /// A journal for a fresh log: its first record gets number 1.
    pub fn new() -> (r: Journal)
        ensures
            r.wf(),
            r.first() == 0,
            r.issued() == Seq::<u64>::empty(),
    {
        Journal { first: 0, last: 0, issued: Ghost(Seq::empty()) }
    }

    /// A journal that continues a log whose last record has number `last`.
    pub fn continuing_after(last: u64) -> (r: Journal)
        ensures
            r.wf(),
            r.first() == last,
            r.issued() == Seq::<u64>::empty(),
    {
        Journal { first: last, last, issued: Ghost(Seq::empty()) }
    }

    /// The number of the last record written, or `first` before any.
    pub fn last_sequence(&self) -> (r: u64)
        requires
            self.wf(),
        ensures
            r == self.next_sequence() - 1,
    {
        self.last
    }

    /// Numbers a sample and returns the line that stores it. The journal changes only
    /// when the line is returned; then it has handed out one more number.
    pub fn append(&mut self, dimension: usize, positions: &Vec<String>, tick_cost_us: u128) -> (r:
        Result<String, AppendError>)
        requires
            old(self).wf(),
        ensures
            final(self).wf(),
            final(self).first() == old(self).first(),
            match append_outcome(old(self).next_sequence(), dimension, texts(positions@)) {
                Ok(n) => {
                    &&& r is Ok
                    &&& r->Ok_0@ == record_line(
                        RecordModel {
                            sequence: n,
                            dimension,
                            positions: texts(positions@),
                            tick_cost_us,
                        },
                    )
                    &&& final(self).issued() == old(self).issued().push(n)
                },
                Err(e) => {
                    &&& r == Err::<String, AppendError>(e)
                    &&& final(self).issued() == old(self).issued()
                },
            },
    {
        if dimension != positions.len() {
            return Err(AppendError::DimensionMismatch);
        }
        let mut k: usize = 0;
        while k < positions.len()
            invariant
                k <= positions.len(),
                dimension == positions.len(),
                self.wf(),
                self == old(self),
                forall|i: int| 0 <= i < k ==> is_value_text(#[trigger] texts(positions@)[i]),
            decreases positions.len() - k,
        {
            if !value_text(positions[k].as_str()) {
                assert(!is_value_text(texts(positions@)[k as int]));
                return Err(AppendError::BadValue);
            }
            k = k + 1;
        }
        if self.last == u64::MAX {
            return Err(AppendError::SequenceExhausted);
        }
        let n = self.last + 1;
        let line = format_record(n, dimension, positions, tick_cost_us);
        self.last = n;
        self.issued = Ghost(self.issued@.push(n));
        Ok(line)
    }

    /// Appends one simulation step: its coordinates, body after body, with their count
    /// as the dimension.
    pub fn append_snapshot(&mut self, snapshot: &Snapshot) -> (r: Result<String, AppendError>)
        requires
            old(self).wf(),
        ensures
            final(self).wf(),
            final(self).first() == old(self).first(),
            ({
                let flat = flat_positions(snapshot.bodies@);
                match append_outcome(old(self).next_sequence(), flat.len() as usize, flat) {
                    Ok(n) => {
                        &&& r is Ok
                        &&& r->Ok_0@ == record_line(
                            RecordModel {
                                sequence: n,
                                dimension: flat.len() as usize,
                                positions: flat,
                                tick_cost_us: snapshot.tick_cost_us,
                            },
                        )
                        &&& final(self).issued() == old(self).issued().push(n)
                    },
                    Err(e) => {
                        &&& r == Err::<String, AppendError>(e)
                        &&& final(self).issued() == old(self).issued()
                    },
                }
            }),
    {
        let flat = flatten_positions(&snapshot.bodies);
        self.append(flat.len(), &flat, snapshot.tick_cost_us)
    }
}

/// A journal opened on a fresh log has handed out 1, 2, 3, ... in order: the numbers
/// rise strictly, with no gap and no repeat.
pub proof fn lemma_fresh_numbers(j: Journal)
    requires
        j.wf(),
        j.first() == 0,
    ensures
        forall|i: int| 0 <= i < j.issued().len() ==> #[trigger] j.issued()[i] == i + 1,
        forall|i: int, k: int|
            0 <= i < k < j.issued().len() ==> #[trigger] j.issued()[i] < #[trigger] j.issued()[k],
        forall|i: int|
            0 <= i < j.issued().len() - 1 ==> #[trigger] j.issued()[i + 1] == j.issued()[i] + 1,
{
}

} // verus!
