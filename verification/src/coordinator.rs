//! The coordinator of a search: it hands the lineups out in chunks, takes
//! back what each worker kept, and ranks it all once every worker is done.
//!
//! A search is idle until the chunks are handed out, dispatched until the
//! first worker reports, collecting until the last one does, merged once
//! the ranking is made, and done when the ranking was taken or a worker
//! failed.

use crate::combinatorics::rows;
use crate::error::ConfigError;
use crate::search::{
    chunk_size, is_chunking, is_ranking_of, lemma_best_candidate_first, merge_results, retained,
    retained_of_all, retaining, split_for_workers, Rated,
};
use vstd::prelude::*;

verus! {

/// How far a search has come.
#[derive(Debug, Clone, Copy, PartialEq, Eq, Structural)]
pub enum Phase {
    Idle,
    Dispatched,
    Collecting,
    Merged,
    Done,
}

/// A step that the search cannot take where it stands.
#[derive(Debug, Clone, Copy, PartialEq, Eq, Structural)]
pub enum ProtocolError {
    /// The step does not belong to the phase that the search is in.
    WrongPhase,
    /// No chunk has that number.
    UnknownChunk,
    /// The worker of that chunk has reported before.
    ReportedTwice,
}

/// Why lineups could not be handed out.
#[derive(Debug, Clone, Copy, PartialEq, Eq, Structural)]
pub enum DispatchError {
    /// The search is under way or over.
    Protocol(ProtocolError),
    /// The work cannot be shared out as asked.
    Config(ConfigError),
}

/// The state of a search.
pub struct Coordinator<T: Rated> {
    phase: Phase,
    reports: Vec<Option<Vec<T>>>,
    missing: usize,
    ranking: Vec<T>,
}

/// What a worker has reported, if it has.
pub open spec fn report_view<T>(report: Option<Vec<T>>) -> Option<Seq<T>> {
    match report {
        Some(kept) => Some(kept@),
        None => None,
    }
}

/// What a report holds, and nothing where there is none.
pub open spec fn reported<T>() -> spec_fn(Option<Seq<T>>) -> Seq<T> {
    |report: Option<Seq<T>>|
        match report {
            Some(kept) => kept,
            None => Seq::empty(),
        }
}

/// What the workers have reported, in the order of their chunks.
pub open spec fn gathered<T>(reports: Seq<Option<Seq<T>>>) -> Seq<T> {
    reports.flat_map(reported())
}

/// The number of workers that have not reported.
pub open spec fn count_missing<T>(reports: Seq<Option<Seq<T>>>) -> nat
    decreases reports.len(),
{
    if reports.len() == 0 {
        0
    } else if reports.last() is None {
        count_missing(reports.drop_last()) + 1
    } else {
        count_missing(reports.drop_last())
    }
}

proof fn lemma_none_missing<T>(reports: Seq<Option<Seq<T>>>)
    ensures
        count_missing(reports) <= reports.len(),
        count_missing(reports) == 0 <==> forall|i: int|
            0 <= i < reports.len() ==> (#[trigger] reports[i]) is Some,
        count_missing(reports) == reports.len() <==> forall|i: int|
            0 <= i < reports.len() ==> (#[trigger] reports[i]) is None,
    decreases reports.len(),
{
    if reports.len() > 0 {
        let init = reports.drop_last();
        lemma_none_missing(init);
        assert forall|i: int| 0 <= i < init.len() implies init[i] == reports[i] by {}
        if count_missing(reports) == 0 {
            assert forall|i: int| 0 <= i < reports.len() implies (#[trigger] reports[i]) is Some by {
                if i < init.len() {
                    assert(init[i] == reports[i]);
                }
            }
        }
        if count_missing(reports) == reports.len() {
            assert forall|i: int| 0 <= i < reports.len() implies (#[trigger] reports[i]) is None by {
                if i < init.len() {
                    assert(init[i] == reports[i]);
                }
            }
        }
        if forall|i: int| 0 <= i < reports.len() ==> (#[trigger] reports[i]) is Some {
            assert forall|i: int| 0 <= i < init.len() implies (#[trigger] init[i]) is Some by {
                assert(init[i] == reports[i]);
            }
        }
        if forall|i: int| 0 <= i < reports.len() ==> (#[trigger] reports[i]) is None {
            assert forall|i: int| 0 <= i < init.len() implies (#[trigger] init[i]) is None by {
                assert(init[i] == reports[i]);
            }
        }
    }
}

proof fn lemma_report_fills<T>(reports: Seq<Option<Seq<T>>>, chunk: int, kept: Seq<T>)
    requires
        0 <= chunk < reports.len(),
        reports[chunk] is None,
    ensures
        count_missing(reports.update(chunk, Some(kept))) == count_missing(reports) - 1,
    decreases reports.len(),
{
    let init = reports.drop_last();
    let filled = reports.update(chunk, Some(kept));
    if chunk == reports.len() - 1 {
        assert(filled.drop_last() =~= init);
    } else {
        lemma_report_fills(init, chunk, kept);
        assert(filled.drop_last() =~= init.update(chunk, Some(kept)));
    }
}

impl<T: Rated> Coordinator<T> {
    /// The phase that the search is in.
    pub closed spec fn phase(&self) -> Phase {
        self.phase
    }

    /// What each worker has reported, if it has, by the number of its chunk.
    pub closed spec fn reports(&self) -> Seq<Option<Seq<T>>> {
        Seq::new(self.reports@.len(), |i: int| report_view(self.reports@[i]))
    }

    /// The ranking, once it is made.
    pub closed spec fn ranking(&self) -> Seq<T> {
        self.ranking@
    }

    /// The state is one that a search can be in.
    pub closed spec fn is_sound(&self) -> bool {
        &&& self.missing == count_missing(self.reports())
        &&& self.phase == Phase::Dispatched ==> self.missing == self.reports@.len() > 0
        &&& self.phase == Phase::Collecting ==> 0 < self.missing < self.reports@.len()
        &&& self.phase != Phase::Dispatched && self.phase != Phase::Collecting
            ==> self.reports@.len() == 0
        &&& self.phase != Phase::Merged ==> self.ranking@.len() == 0
    }

    /// A search that has not begun.
    pub fn new() -> (search: Coordinator<T>)
        ensures
            search.is_sound(),
            search.phase() == Phase::Idle,
    {
        let search = Coordinator {
            phase: Phase::Idle,
            reports: Vec::new(),
            missing: 0,
            ranking: Vec::new(),
        };
        proof {
            assert(search.reports() =~= Seq::<Option<Seq<T>>>::empty());
        }
        search
    }

    /// The phase that the search is in.
    pub fn current_phase(&self) -> (phase: Phase)
        ensures
            phase == self.phase(),
    {
        self.phase
    }

    /// Hands the lineups out: the result holds a chunk for each worker to
    /// search, and the search then awaits a report for each chunk. Where
    /// there is no lineup, there is no chunk, and the search is merged at
    /// once, with an empty ranking.
    ///
    /// Fails, and leaves the search as it is, where the search is not idle
    /// or `number_of_workers` is 0.
    pub fn dispatch<L>(&mut self, lineups: Vec<L>, number_of_workers: usize) -> (handed: Result<
        Vec<Vec<L>>,
        DispatchError,
    >)
        requires
            old(self).is_sound(),
        ensures
            final(self).is_sound(),
            match handed {
                Ok(chunks) => {
                    &&& old(self).phase() == Phase::Idle
                    &&& number_of_workers > 0
                    &&& rows(chunks).flatten() == lineups@
                    &&& is_chunking(rows(chunks), chunk_size(lineups@.len(), number_of_workers as nat))
                    &&& final(self).reports().len() == chunks.len()
                    &&& forall|i: int|
                        0 <= i < chunks.len() ==> (#[trigger] final(self).reports()[i]) is None
                    &&& final(self).phase() == if chunks.len() == 0 {
                        Phase::Merged
                    } else {
                        Phase::Dispatched
                    }
                    &&& final(self).ranking().len() == 0
                },
                Err(error) => {
                    &&& *final(self) == *old(self)
                    &&& error == if old(self).phase() != Phase::Idle {
                        DispatchError::Protocol(ProtocolError::WrongPhase)
                    } else {
                        DispatchError::Config(ConfigError::NoWorkers)
                    }
                    &&& old(self).phase() != Phase::Idle || number_of_workers == 0
                },
            },
    {
        if !matches!(self.phase, Phase::Idle) {
            return Err(DispatchError::Protocol(ProtocolError::WrongPhase));
        }
        let chunks = match split_for_workers(lineups, number_of_workers) {
            Ok(chunks) => chunks,
            Err(error) => {
                return Err(DispatchError::Config(error));
            },
        };
        let mut reports: Vec<Option<Vec<T>>> = Vec::new();
        while reports.len() < chunks.len()
            invariant
                reports.len() <= chunks.len(),
                forall|i: int| 0 <= i < reports.len() ==> (#[trigger] reports[i]) is None,
            decreases chunks.len() - reports.len(),
        {
            reports.push(None);
        }
        self.missing = chunks.len();
        self.reports = reports;
        self.phase = if chunks.len() == 0 {
            Phase::Merged
        } else {
            Phase::Dispatched
        };
        proof {
            lemma_none_missing(self.reports());
        }
        Ok(chunks)
    }

    /// Takes the report of the worker that searched the chunk of the given
    /// number. With the last report the ranking is made: what the workers
    /// kept, chunk by chunk, in ascending order of rating.
    ///
    /// Fails, and leaves the search as it is, where no report is awaited,
    /// where no chunk has that number, or where the worker of the chunk has
    /// reported before.
    pub fn collect(&mut self, chunk: usize, kept: Vec<T>) -> (taken: Result<(), ProtocolError>)
        requires
            old(self).is_sound(),
        ensures
            final(self).is_sound(),
            match taken {
                Ok(_) => {
                    &&& old(self).phase() == Phase::Dispatched || old(self).phase()
                        == Phase::Collecting
                    &&& chunk < old(self).reports().len()
                    &&& old(self).reports()[chunk as int] is None
                    &&& if count_missing(old(self).reports()) == 1 {
                        &&& final(self).phase() == Phase::Merged
                        &&& final(self).reports().len() == 0
                        &&& is_ranking_of(
                            final(self).ranking(),
                            gathered(old(self).reports().update(chunk as int, Some(kept@))),
                        )
                    } else {
                        &&& final(self).phase() == Phase::Collecting
                        &&& final(self).reports() == old(self).reports().update(
                            chunk as int,
                            Some(kept@),
                        )
                        &&& final(self).ranking().len() == 0
                    }
                },
                Err(error) => {
                    &&& *final(self) == *old(self)
                    &&& error == if old(self).phase() != Phase::Dispatched && old(self).phase()
                        != Phase::Collecting {
                        ProtocolError::WrongPhase
                    } else if chunk >= old(self).reports().len() {
                        ProtocolError::UnknownChunk
                    } else {
                        ProtocolError::ReportedTwice
                    }
                    &&& (old(self).phase() == Phase::Dispatched || old(self).phase()
                        == Phase::Collecting) && chunk < old(self).reports().len()
                        ==> old(self).reports()[chunk as int] is Some
                },
            },
    {
        if !matches!(self.phase, Phase::Dispatched) && !matches!(self.phase, Phase::Collecting) {
            return Err(ProtocolError::WrongPhase);
        }
        if chunk >= self.reports.len() {
            return Err(ProtocolError::UnknownChunk);
        }
        if self.reports[chunk].is_some() {
            proof {
                assert(self.reports()[chunk as int] == report_view(self.reports@[chunk as int]));
            }
            return Err(ProtocolError::ReportedTwice);
        }
        let ghost before = self.reports();
        let ghost after = before.update(chunk as int, Some(kept@));
        proof {
            assert(before[chunk as int] == report_view(self.reports@[chunk as int]));
            lemma_report_fills(before, chunk as int, kept@);
            lemma_none_missing(before);
            lemma_none_missing(after);
        }
        let mut reports: Vec<Option<Vec<T>>> = Vec::new();
        std::mem::swap(&mut self.reports, &mut reports);
        reports.set(chunk, Some(kept));
        proof {
            assert(Seq::new(reports@.len(), |i: int| report_view(reports@[i])) =~= after);
        }
        if self.missing > 1 {
            self.missing = self.missing - 1;
            self.reports = reports;
            self.phase = Phase::Collecting;
            proof {
                assert(self.reports() =~= after);
            }
            return Ok(());
        }
        let mut batches: Vec<Vec<T>> = Vec::new();
        proof {
            assert(after.take(0).flat_map(reported()) =~= Seq::<T>::empty());
            assert(rows(batches).flatten() =~= Seq::<T>::empty());
        }
        for report in it: reports.into_iter()
            invariant
                it.seq() == reports@,
                after == Seq::new(reports@.len(), |i: int| report_view(reports@[i])),
                forall|i: int| 0 <= i < after.len() ==> (#[trigger] after[i]) is Some,
                rows(batches).flatten() == after.take(it.index() as int).flat_map(reported()),
        {
            let ghost at = it.index() as int;
            let ghost before_rows = rows(batches);
            proof {
                assert(after[at] == report_view(reports@[at]));
                after.lemma_flat_map_take_append(reported(), at);
            }
            match report {
                Some(batch) => {
                    batches.push(batch);
                    proof {
                        assert(rows(batches) =~= before_rows.push(batch@));
                        before_rows.lemma_flatten_push(batch@);
                    }
                },
                None => {},
            }
        }
        proof {
            assert(after.take(after.len() as int) =~= after);
        }
        self.ranking = merge_results(batches);
        self.missing = 0;
        self.phase = Phase::Merged;
        proof {
            assert(self.reports() =~= Seq::<Option<Seq<T>>>::empty());
        }
        Ok(())
    }

    /// Ends the search without a ranking, as when a worker has failed.
    pub fn abort(&mut self)
        requires
            old(self).is_sound(),
        ensures
            final(self).is_sound(),
            final(self).phase() == Phase::Done,
            final(self).reports().len() == 0,
            final(self).ranking().len() == 0,
    {
        self.phase = Phase::Done;
        self.reports = Vec::new();
        self.missing = 0;
        self.ranking = Vec::new();
        proof {
            assert(self.reports() =~= Seq::<Option<Seq<T>>>::empty());
        }
    }

    /// Takes the ranking and ends the search.
    ///
    /// Fails, and leaves the search as it is, where the search is not
    /// merged.
    pub fn take_ranking(&mut self) -> (taken: Result<Vec<T>, ProtocolError>)
        requires
            old(self).is_sound(),
        ensures
            final(self).is_sound(),
            match taken {
                Ok(ranking) => {
                    &&& old(self).phase() == Phase::Merged
                    &&& ranking@ == old(self).ranking()
                    &&& final(self).phase() == Phase::Done
                    &&& final(self).ranking().len() == 0
                },
                Err(error) => {
                    &&& old(self).phase() != Phase::Merged
                    &&& error == ProtocolError::WrongPhase
                    &&& *final(self) == *old(self)
                },
            },
    {
        if !matches!(self.phase, Phase::Merged) {
            return Err(ProtocolError::WrongPhase);
        }
        let mut ranking: Vec<T> = Vec::new();
        std::mem::swap(&mut self.ranking, &mut ranking);
        self.phase = Phase::Done;
        Ok(ranking)
    }
}

/// The report of a worker that keeps of its chunk what is near its best.
pub open spec fn faithful_report<T: Rated>() -> spec_fn(Seq<T>) -> Option<Seq<T>> {
    |candidates: Seq<T>| Some(retained(candidates))
}

/// Where every worker reports what it keeps of its chunk, the coordinator
/// gathers what the workers keep, chunk by chunk.
pub proof fn lemma_gathered_of_retained<T: Rated>(chunks: Seq<Seq<T>>)
    ensures
        gathered(chunks.map_values(faithful_report())) == retained_of_all(chunks),
{
    let reports = chunks.map_values(faithful_report::<T>());
    assert(reports.map_values(reported()) =~= chunks.map_values(retaining()));
}

/// Where no rating is negative, some worker has a candidate, and every
/// worker reports what it keeps of its chunk, the ranking of the coordinator
/// begins with a candidate that no candidate of any worker undercuts.
pub proof fn lemma_coordinator_ranks_best_first<T: Rated>(chunks: Seq<Seq<T>>, ranking: Seq<T>)
    requires
        forall|c: int, i: int|
            0 <= c < chunks.len() && 0 <= i < chunks[c].len() ==> (#[trigger] chunks[c][i]).rating()
                >= 0,
        exists|c: int| 0 <= c < chunks.len() && (#[trigger] chunks[c]).len() > 0,
        is_ranking_of(ranking, gathered(chunks.map_values(faithful_report()))),
    ensures
        ranking.len() > 0,
        forall|c: int, i: int|
            0 <= c < chunks.len() && 0 <= i < chunks[c].len() ==> ranking[0].rating() <= (
            #[trigger] chunks[c][i]).rating(),
        exists|c: int| 0 <= c < chunks.len() && (#[trigger] chunks[c]).contains(ranking[0]),
{
    lemma_gathered_of_retained(chunks);
    lemma_best_candidate_first(chunks, ranking);
}

} // verus!
