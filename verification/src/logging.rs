//! Per-sample diagnostic capture.
//!
//! A [`SampleLogger`] collects named series of fixed-point scalars, one value
//! per series per sample, so that a session can later be dumped as a table
//! (one column per name, one row per sample).  It enforces two disciplines:
//! every series must stay within one row of every other (each row is written
//! completely before the next begins), and a session stops with an error once
//! more samples than the configured budget have been seen.  It is a pure side
//! channel: it never touches the audio path.

use vstd::prelude::*;

verus! {

/// Mathematical state of a logger: the series names in insertion order, one
/// column of values per name, and the sample budget.
pub struct LogModel {
    /// Series names, in the order their first value arrived.
    pub keys: Seq<Seq<char>>,
    /// One column of values per name, in the same order.
    pub columns: Seq<Seq<int>>,
    /// How many values have arrived under the name `"sample"`.
    pub samples_seen: int,
    /// Budget: one more `"sample"` value than this is an error.
    pub quit_after_n_samples: int,
}

/// Collects named series of per-sample values until a configured budget of
/// samples is exceeded.
pub struct SampleLogger {
    keys: Vec<String>,
    columns: Vec<Vec<i64>>,
    samples_seen: u64,
    quit_after_n_samples: u64,
}

/// The names a sequence of owned strings spells.
pub open spec fn keys_view(keys: Seq<String>) -> Seq<Seq<char>> {
    keys.map_values(|k: String| k@)
}

/// The mathematical columns a sequence of value vectors holds.
pub open spec fn columns_view(columns: Seq<Vec<i64>>) -> Seq<Seq<int>> {
    columns.map_values(|c: Vec<i64>| c@.map_values(|v: i64| v as int))
}

impl View for SampleLogger {
    type V = LogModel;

    closed spec fn view(&self) -> LogModel {
        LogModel {
            keys: keys_view(self.keys@),
            columns: columns_view(self.columns@),
            samples_seen: self.samples_seen as int,
            quit_after_n_samples: self.quit_after_n_samples as int,
        }
    }
}

/// Index of the first occurrence of `k` among `keys`, or `keys.len()` when it
/// does not occur.
pub open spec fn key_index(keys: Seq<Seq<char>>, k: Seq<char>) -> int
    decreases keys.len(),
{
    if keys.len() == 0 {
        0
    } else if keys.first() == k {
        0
    } else {
        1 + key_index(keys.drop_first(), k)
    }
}

/// A prefix of misses followed by a hit pins `key_index` down.
proof fn lemma_key_index_found(keys: Seq<Seq<char>>, k: Seq<char>, i: int)
    requires
        0 <= i < keys.len(),
        forall|j: int| 0 <= j < i ==> keys[j] != k,
        keys[i] == k,
    ensures
        key_index(keys, k) == i,
    decreases i,
{
    if i == 0 {
    } else {
        assert(keys.first() != k);
        lemma_key_index_found(keys.drop_first(), k, i - 1);
    }
}

/// When no key matches, `key_index` is the length.
proof fn lemma_key_index_missing(keys: Seq<Seq<char>>, k: Seq<char>)
    requires
        forall|j: int| 0 <= j < keys.len() ==> keys[j] != k,
    ensures
        key_index(keys, k) == keys.len(),
    decreases keys.len(),
{
    if keys.len() > 0 {
        lemma_key_index_missing(keys.drop_first(), k);
    }
}

/// The state change of recording one value: append it to the column of its
/// name (creating the series on first use), and count it when the name is
/// `"sample"`.
pub open spec fn write_state(m: LogModel, k: Seq<char>, v: int) -> LogModel {
    let i = key_index(m.keys, k);
    let stored = if i < m.keys.len() {
        LogModel { columns: m.columns.update(i, m.columns[i].push(v)), ..m }
    } else {
        LogModel { keys: m.keys.push(k), columns: m.columns.push(seq![v]), ..m }
    };
    if k == "sample"@ {
        LogModel { samples_seen: stored.samples_seen + 1, ..stored }
    } else {
        stored
    }
}

/// Total number of stored values over all columns.
pub open spec fn sum_lens(columns: Seq<Seq<int>>) -> int
    decreases columns.len(),
{
    if columns.len() == 0 {
        0
    } else {
        sum_lens(columns.drop_last()) + columns.last().len()
    }
}

/// The mean column length, rounded down: the row most columns are at.
pub open spec fn mean_len(m: LogModel) -> int
    recommends
        m.columns.len() > 0,
{
    sum_lens(m.columns) / (m.columns.len() as int)
}

/// Every column holds either `mean` or `mean + 1` values: no series has run
/// ahead of or fallen behind the current row.
pub open spec fn balanced(m: LogModel) -> bool
    recommends
        m.columns.len() > 0,
{
    forall|i: int|
        0 <= i < m.columns.len() ==> ((#[trigger] m.columns[i]).len() == mean_len(m)
            || m.columns[i].len() == mean_len(m) + 1)
}

/// Whether some series is named `"sample"`.
pub open spec fn has_sample_key(m: LogModel) -> bool {
    exists|i: int| 0 <= i < m.keys.len() && m.keys[i] == "sample"@
}

/// The error, if any, that recording a value reports once the state is `m`:
/// the sample budget first, then the row balance, then the demand that rows
/// beyond the first are anchored by a `"sample"` series.
pub open spec fn check_result(m: LogModel) -> Option<Seq<char>>
    recommends
        m.columns.len() > 0,
{
    if m.samples_seen > m.quit_after_n_samples {
        Some("Seen enough samples."@)
    } else if !balanced(m) {
        Some("Element added to list caused imbalance."@)
    } else if mean_len(m) > 1 && !has_sample_key(m) {
        Some("First sample iteration has been added but no key 'sample' is present."@)
    } else {
        None
    }
}

/// Length of the longest column: how many rows a dump of the table needs.
pub open spec fn max_col_len(columns: Seq<Seq<int>>) -> int
    decreases columns.len(),
{
    if columns.len() == 0 {
        0
    } else {
        let rest = max_col_len(columns.drop_last());
        if columns.last().len() > rest {
            columns.last().len() as int
        } else {
            rest
        }
    }
}

impl SampleLogger {
    /// The logger's invariant: one column per name, and no name twice.
    pub open spec fn wf(self) -> bool {
        &&& self@.keys.len() == self@.columns.len()
        &&& forall|i: int, j: int|
            0 <= i < j < self@.keys.len() ==> #[trigger] self@.keys[i] != #[trigger] self@.keys[j]
    }

    /// An empty logger that will report an error after `quit_after_n_samples`
    /// samples have been recorded.
    pub fn new(quit_after_n_samples: u64) -> (l: SampleLogger)
        ensures
            l.wf(),
            l@.keys == Seq::<Seq<char>>::empty(),
            l@.columns == Seq::<Seq<int>>::empty(),
            l@.samples_seen == 0,
            l@.quit_after_n_samples == quit_after_n_samples,
    {
        let l = SampleLogger {
            keys: Vec::new(),
            columns: Vec::new(),
            samples_seen: 0,
            quit_after_n_samples,
        };
        proof {
            assert(l@.keys =~= Seq::<Seq<char>>::empty());
            assert(l@.columns =~= Seq::<Seq<int>>::empty());
        }
        l
    }

    /// Records `value` under the series `key`.  The value is always stored;
    /// the result then reports, in this order, an exhausted sample budget, a
    /// series that has run out of step with the others, or rows beyond the
    /// first without a `"sample"` series to anchor them.
    pub fn write(&mut self, key: &str, value: i64) -> (r: Result<(), &'static str>)
        requires
            old(self).wf(),
            old(self)@.samples_seen < u64::MAX,
        ensures
            final(self).wf(),
            final(self)@ == write_state(old(self)@, key@, value as int),
            match r {
                Ok(_) => check_result(final(self)@) is None,
                Err(e) => check_result(final(self)@) == Some(e@),
            },
    {
        let ghost m0: LogModel = self@;
        let key_string: String = key.to_owned();
        let sample_name: String = "sample".to_owned();
        let is_sample: bool = key_string == sample_name;
        let mut idx: usize = 0;
        while idx < self.keys.len()
            invariant_except_break
                self@ == m0,
                old(self).wf(),
                0 <= idx <= self@.keys.len(),
                forall|j: int| 0 <= j < idx ==> self@.keys[j] != key@,
                key_string@ == key@,
            ensures
                self@ == m0,
                0 <= idx <= self@.keys.len(),
                forall|j: int| 0 <= j < idx ==> self@.keys[j] != key@,
                idx < self@.keys.len() ==> self@.keys[idx as int] == key@,
            decreases self@.keys.len() - idx,
        {
            if self.keys[idx] == key_string {
                break;
            }
            idx += 1;
        }
        proof {
            if idx < self.keys.len() {
                lemma_key_index_found(m0.keys, key@, idx as int);
            } else {
                lemma_key_index_missing(m0.keys, key@);
            }
        }
        if idx < self.keys.len() {
            self.columns[idx].push(value);
            proof {
                assert(self@.columns =~~= m0.columns.update(
                    idx as int,
                    m0.columns[idx as int].push(value as int),
                ));
            }
        } else {
            self.keys.push(key_string);
            let mut column: Vec<i64> = Vec::new();
            column.push(value);
            self.columns.push(column);
            proof {
                assert(self@.keys =~~= m0.keys.push(key@));
                assert(self@.columns =~~= m0.columns.push(seq![value as int]));
            }
        }
        if is_sample {
            self.samples_seen = self.samples_seen + 1;
        }
        proof {
            assert(self@ == write_state(m0, key@, value as int));
        }
        if self.samples_seen > self.quit_after_n_samples {
            return Err("Seen enough samples.");
        }
        self.is_logged_correctly()
    }

    /// Every series must hold as many values as the current row demands
    /// (within one), and rows beyond the first demand a `"sample"` series.
    fn is_logged_correctly(&self) -> (r: Result<(), &'static str>)
        requires
            self.wf(),
            self@.columns.len() > 0,
        ensures
            match r {
                Ok(_) => balanced(self@) && !(mean_len(self@) > 1 && !has_sample_key(self@)),
                Err(e) => (!balanced(self@) && e@ == "Element added to list caused imbalance."@)
                    || (balanced(self@) && mean_len(self@) > 1 && !has_sample_key(self@)
                        && e@ == "First sample iteration has been added but no key 'sample' is present."@),
            },
    {
        let mut total: u128 = 0;
        let mut i: usize = 0;
        while i < self.columns.len()
            invariant
                0 <= i <= self@.columns.len(),
                total == sum_lens(self@.columns.subrange(0, i as int)),
                total <= (i as int) * 0xffff_ffff_ffff_ffff,
            decreases self@.columns.len() - i,
        {
            let ghost before = self@.columns.subrange(0, i as int);
            total = total + (self.columns[i].len() as u128);
            i += 1;
            proof {
                let after = self@.columns.subrange(0, i as int);
                assert(after.drop_last() =~= before);
            }
        }
        proof {
            assert(self@.columns.subrange(0, self@.columns.len() as int) =~= self@.columns);
        }
        let count = self.columns.len();
        let n: u128 = total / (count as u128);
        proof {
            assert(n == mean_len(self@));
            vstd::arithmetic::div_mod::lemma_div_is_ordered_by_denominator(
                total as int,
                1,
                count as int,
            );
            vstd::arithmetic::div_mod::lemma_div_basics(total as int);
            assert(n <= total);
        }
        let mut i: usize = 0;
        while i < self.columns.len()
            invariant
                0 <= i <= self@.columns.len(),
                n == mean_len(self@),
                n < 0xffff_ffff_ffff_ffff_ffff_ffff_ffff_ffff,
                forall|j: int|
                    0 <= j < i ==> ((#[trigger] self@.columns[j]).len() == mean_len(self@)
                        || self@.columns[j].len() == mean_len(self@) + 1),
            decreases self@.columns.len() - i,
        {
            let len_i = self.columns[i].len();
            if !((len_i as u128) == n || (len_i as u128) == n + 1) {
                proof {
                    assert(self@.columns[i as int].len() != mean_len(self@)
                        && self@.columns[i as int].len() != mean_len(self@) + 1);
                    assert(!balanced(self@));
                }
                return Err("Element added to list caused imbalance.");
            }
            i += 1;
        }
        if n > 1 {
            let sample_name: String = "sample".to_owned();
            let mut present = false;
            let mut i: usize = 0;
            while i < self.keys.len()
                invariant
                    0 <= i <= self@.keys.len(),
                    sample_name@ == "sample"@,
                    present ==> has_sample_key(self@),
                    !present ==> forall|j: int| 0 <= j < i ==> self@.keys[j] != "sample"@,
                decreases self@.keys.len() - i,
            {
                if self.keys[i] == sample_name {
                    proof {
                        assert(0 <= i < self@.keys.len() && self@.keys[i as int] == "sample"@);
                    }
                    present = true;
                }
                i += 1;
            }
            if !present {
                return Err("First sample iteration has been added but no key 'sample' is present.");
            }
        }
        Ok(())
    }

    /// The series names in insertion order: the header row of a dump.
    pub fn debug_headers(&self) -> (headers: Vec<String>)
        ensures
            keys_view(headers@) == self@.keys,
    {
        let mut headers: Vec<String> = Vec::new();
        let mut i: usize = 0;
        proof {
            assert(keys_view(headers@) =~= self@.keys.subrange(0, 0));
        }
        while i < self.keys.len()
            invariant
                i <= self@.keys.len(),
                keys_view(headers@) == self@.keys.subrange(0, i as int),
            decreases self@.keys.len() - i,
        {
            let ghost before = headers@;
            let name = self.keys[i].clone();
            headers.push(name);
            i += 1;
            proof {
                before.lemma_push_map_commute(|k: String| k@, name);
                assert(keys_view(headers@) =~= self@.keys.subrange(0, i as int));
            }
        }
        proof {
            assert(self@.keys.subrange(0, self@.keys.len() as int) =~= self@.keys);
        }
        headers
    }

    /// The recorded values as rows: row `r` holds the `r`-th value of every
    /// series in order, and `None` where a series is shorter.
    pub fn debug_rows(&self) -> (rows: Vec<Vec<Option<i64>>>)
        ensures
            rows@.len() == max_col_len(self@.columns),
            forall|r: int|
                0 <= r < rows@.len() ==> (#[trigger] rows@[r])@.len() == self@.columns.len(),
            forall|r: int, c: int|
                0 <= r < rows@.len() && 0 <= c < self@.columns.len() ==> ((#[trigger] rows@[r]@[c])
                    matches Some(v) ==> (r < self@.columns[c].len() && v as int
                    == self@.columns[c][r])),
            forall|r: int, c: int|
                0 <= r < rows@.len() && 0 <= c < self@.columns.len() ==> ((#[trigger] rows@[r]@[c])
                    is None <==> r >= self@.columns[c].len()),
    {
        let mut longest: usize = 0;
        let mut i: usize = 0;
        while i < self.columns.len()
            invariant
                i <= self@.columns.len(),
                longest == max_col_len(self@.columns.subrange(0, i as int)),
            decreases self@.columns.len() - i,
        {
            let ghost before = self@.columns.subrange(0, i as int);
            let len_i = self.columns[i].len();
            if len_i > longest {
                longest = len_i;
            }
            i += 1;
            proof {
                let after = self@.columns.subrange(0, i as int);
                assert(after.drop_last() =~= before);
            }
        }
        proof {
            assert(self@.columns.subrange(0, self@.columns.len() as int) =~= self@.columns);
        }
        let mut rows: Vec<Vec<Option<i64>>> = Vec::new();
        let mut r: usize = 0;
        while r < longest
            invariant
                r <= longest,
                longest == max_col_len(self@.columns),
                rows@.len() == r,
                forall|q: int|
                    0 <= q < r ==> (#[trigger] rows@[q])@.len() == self@.columns.len(),
                forall|q: int, c: int|
                    0 <= q < r && 0 <= c < self@.columns.len() ==> ((#[trigger] rows@[q]@[c])
                        matches Some(v) ==> (q < self@.columns[c].len() && v as int
                        == self@.columns[c][q])),
                forall|q: int, c: int|
                    0 <= q < r && 0 <= c < self@.columns.len() ==> ((#[trigger] rows@[q]@[c])
                        is None <==> q >= self@.columns[c].len()),
            decreases longest - r,
        {
            let mut row: Vec<Option<i64>> = Vec::new();
            let mut c: usize = 0;
            while c < self.columns.len()
                invariant
                    c <= self@.columns.len(),
                    row@.len() == c,
                    forall|d: int|
                        0 <= d < c ==> ((#[trigger] row@[d]) matches Some(v) ==> (r
                            < self@.columns[d].len() && v as int == self@.columns[d][r as int])),
                    forall|d: int|
                        0 <= d < c ==> ((#[trigger] row@[d]) is None <==> r
                            >= self@.columns[d].len()),
                decreases self@.columns.len() - c,
            {
                if r < self.columns[c].len() {
                    row.push(Some(self.columns[c][r]));
                } else {
                    row.push(None);
                }
                c += 1;
            }
            rows.push(row);
            r += 1;
        }
        rows
    }
}

} // verus!
