//! Settings of a run.

use crate::lines::{split_str, split_text, texts};
use crate::text::{parse_unsigned, unsigned_value};
use vstd::prelude::*;

verus! {

/// The settings of a run.
#[derive(Debug)]
pub struct Args {
    /// The configuration file for the network simulator.
    pub net_config: String,
    /// Path to a file to collect an event timeline for visualization.
    pub timeline_file: Option<String>,
    /// The cores that are available for the applications.
    pub available_cores: Option<Vec<usize>>,
    /// Whether calls are timed one by one, and not in runs of calls.
    pub disable_sequence_call: bool,
    /// The directory with the recorded times to replay.
    pub perf_db: Option<String>,
    /// The directory to record times to.
    pub record_perf_db: Option<String>,
}

impl Args {
    /// Whether the settings can be had together: times are not replayed and recorded in
    /// one run.
    pub fn compatible(&self) -> (b: bool)
        ensures
            b == !(self.perf_db is Some && self.record_perf_db is Some),
    {
        !(self.perf_db.is_some() && self.record_perf_db.is_some())
    }

    /// Whether calls are timed one by one: where that is set, and wherever times are
    /// replayed or recorded.
    pub fn single_calls(&self) -> (b: bool)
        ensures
            b == (self.disable_sequence_call || self.perf_db is Some
                || self.record_perf_db is Some),
    {
        self.disable_sequence_call || self.perf_db.is_some() || self.record_perf_db.is_some()
    }
}

/// Why a list of cores cannot be read.
#[derive(Debug)]
pub enum CoresError {
    /// What should be the number of a core is none.
    Number(String),
    /// A range has more than two ends.
    Range(String),
}

/// What a [`CoresError`] stands for.
pub enum CoresErrorView {
    Number(Seq<char>),
    Range(Seq<char>),
}

impl View for CoresError {
    type V = CoresErrorView;

    open spec fn view(&self) -> CoresErrorView {
        match *self {
            CoresError::Number(s) => CoresErrorView::Number(s@),
            CoresError::Range(s) => CoresErrorView::Range(s@),
        }
    }
}

impl CoresError {
    /// What is wrong, and where.
    pub fn message(&self) -> (r: (&'static str, &str))
        ensures
            match self@ {
                CoresErrorView::Number(s) => r.0@ == "Invalid core number"@ && r.1@ == s,
                CoresErrorView::Range(s) => r.0@ == "Invalid core range"@ && r.1@ == s,
            },
    {
        match self {
            CoresError::Number(s) => ("Invalid core number", s.as_str()),
            CoresError::Range(s) => ("Invalid core range", s.as_str()),
        }
    }
}

/// The cores from one to another, both of them included.
pub open spec fn core_range(start: nat, end: nat) -> Seq<usize> {
    Seq::new(
        if start <= end {
            (end - start + 1) as nat
        } else {
            0
        },
        |i: int| (start + i) as usize,
    )
}

/// The number of a core.
pub open spec fn core_number(s: Seq<char>) -> Result<nat, CoresErrorView> {
    match unsigned_value(s, usize::MAX as nat) {
        Some(n) => Ok(n),
        None => Err(CoresErrorView::Number(s)),
    }
}

/// The cores of an interval: one core, or a range of them.
pub open spec fn interval_cores(s: Seq<char>) -> Result<Seq<usize>, CoresErrorView> {
    let ends = split_text(s, '-');
    if ends.len() == 1 {
        match core_number(ends[0]) {
            Ok(n) => Ok(seq![n as usize]),
            Err(e) => Err(e),
        }
    } else if ends.len() == 2 {
        match core_number(ends[0]) {
            Err(e) => Err(e),
            Ok(start) => match core_number(ends[1]) {
                Err(e) => Err(e),
                Ok(end) => Ok(core_range(start, end)),
            },
        }
    } else {
        Err(CoresErrorView::Range(s))
    }
}

/// The cores of the first `n` intervals. The first interval that cannot be read decides.
pub open spec fn cores_of(intervals: Seq<Seq<char>>, n: int) -> Result<Seq<usize>, CoresErrorView>
    decreases n,
{
    if n <= 0 {
        Ok(seq![])
    } else {
        match cores_of(intervals, n - 1) {
            Err(e) => Err(e),
            Ok(before) => match interval_cores(intervals[n - 1]) {
                Err(e) => Err(e),
                Ok(more) => Ok(before + more),
            },
        }
    }
}

/// The cores that a text lists, like "2,4-6,8" for the cores 2, 4, 5, 6 and 8.
pub open spec fn listed_cores(s: Seq<char>) -> Result<Seq<usize>, CoresErrorView> {
    cores_of(split_text(s, ','), split_text(s, ',').len() as int)
}

proof fn lemma_cores_stuck(intervals: Seq<Seq<char>>, n: int, end: int)
    requires
        0 <= n <= end,
        cores_of(intervals, n) is Err,
    ensures
        cores_of(intervals, end) == cores_of(intervals, n),
    decreases end - n,
{
    if n < end {
        assert(cores_of(intervals, n + 1) == cores_of(intervals, n));
        lemma_cores_stuck(intervals, n + 1, end);
    }
}

fn parse_core(s: &String) -> (r: Result<usize, CoresError>)
    ensures
        match r {
            Ok(n) => core_number(s@) == Ok::<nat, CoresErrorView>(n as nat),
            Err(e) => core_number(s@) == Err::<nat, CoresErrorView>(e@),
        },
{
    match parse_unsigned(s.as_str(), usize::MAX as u64) {
        Some(n) => Ok(n as usize),
        None => Err(CoresError::Number(s.clone())),
    }
}

fn parse_interval(s: &String, cores: &mut Vec<usize>) -> (r: Result<(), CoresError>)
    ensures
        match r {
            Ok(()) => interval_cores(s@) is Ok && final(cores)@ == old(cores)@
                + interval_cores(s@)->Ok_0,
            Err(e) => interval_cores(s@) == Err::<Seq<usize>, CoresErrorView>(e@),
        },
{
    let ghost before = cores@;
    let ends = split_str(s.as_str(), '-');
    assert(texts(ends@).len() == ends@.len());
    if ends.len() == 1 {
        assert(texts(ends@)[0] == ends@[0]@);
        match parse_core(&ends[0]) {
            Ok(n) => {
                cores.push(n);
                assert(cores@ =~= before + seq![n]);
                Ok(())
            },
            Err(e) => Err(e),
        }
    } else if ends.len() == 2 {
        assert(texts(ends@)[0] == ends@[0]@);
        assert(texts(ends@)[1] == ends@[1]@);
        let start: usize = match parse_core(&ends[0]) {
            Ok(n) => n,
            Err(e) => {
                return Err(e);
            },
        };
        let end: usize = match parse_core(&ends[1]) {
            Ok(n) => n,
            Err(e) => {
                return Err(e);
            },
        };
        let ghost range = core_range(start as nat, end as nat);
        if start <= end {
            let mut c: usize = start;
            assert(cores@ =~= before + range.take(0));
            while c < end
                invariant
                    start <= c <= end,
                    range == core_range(start as nat, end as nat),
                    cores@ == before + range.take(c - start),
                decreases end - c,
            {
                cores.push(c);
                assert(cores@ =~= before + range.take(c - start + 1));
                c += 1;
            }
            cores.push(end);
            assert(cores@ =~= before + range);
        } else {
            assert(cores@ =~= before + range);
        }
        Ok(())
    } else {
        Err(CoresError::Range(s.clone()))
    }
}

/// Reads a list of cores, like "2,4-6,8" for the cores 2, 4, 5, 6 and 8.
pub fn parse_cores(s: &str) -> (r: Result<Vec<usize>, CoresError>)
    ensures
        match r {
            Ok(cores) => listed_cores(s@) == Ok::<Seq<usize>, CoresErrorView>(cores@),
            Err(e) => listed_cores(s@) == Err::<Seq<usize>, CoresErrorView>(e@),
        },
{
    let intervals = split_str(s, ',');
    let ghost all = split_text(s@, ',');
    let mut cores: Vec<usize> = Vec::new();
    let mut i: usize = 0;
    while i < intervals.len()
        invariant
            i <= intervals@.len(),
            all == split_text(s@, ','),
            texts(intervals@) == all,
            cores_of(all, i as int) == Ok::<Seq<usize>, CoresErrorView>(cores@),
        decreases intervals@.len() - i,
    {
        assert(all[i as int] == intervals@[i as int]@);
        if let Err(e) = parse_interval(&intervals[i], &mut cores) {
            proof {
                lemma_cores_stuck(all, i + 1, all.len() as int);
            }
            return Err(e);
        }
        i += 1;
    }
    Ok(cores)
}

} // verus!
