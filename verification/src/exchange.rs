//! The exchange engine: an era-keyed store of rounds, application intake,
//! and one-time proportional settlement.

use vstd::prelude::*;

verus! {

use crate::{AccountId, BlockNumber, Era, ExchangeError, TokenAmount};
use crate::points::PointTable;
use crate::proportion::BILLION;
use crate::round::{
    all_open, all_settled, distinct_accounts, distribute, has_account, is_frozen,
    admission_result, is_settlement_of, lemma_admission_from_sort, lemma_open_iff_not_frozen,
    refreshed_entries, sort_entries_desc, sorted_desc, sum_parts, sum_takes, Application,
};

/// Static configuration, supplied at initialization and immutable thereafter.
#[derive(Clone, Copy, Debug, PartialEq, Eq, Structural)]
pub struct ExchangeConfig {
    /// How many blocks one era lasts.
    pub era_length: u64,
    /// The capacity of a round: how many ranked applicants can be rewarded.
    pub max_reward_count: u32,
    /// How many eras a settled round is retained before pruning.
    pub history_depth: u32,
}

impl ExchangeConfig {
    /// Each parameter must be at least one for the engine to be usable.
    pub open spec fn wf(self) -> bool {
        &&& self.era_length >= 1
        &&& self.max_reward_count >= 1
        &&& self.history_depth >= 1
    }
}

/// One era's round: its ranked entries and the block height of the last
/// point refresh, used to make refreshes idempotent within a block.
pub struct EraRound {
    pub era: Era,
    pub last_refresh: Option<BlockNumber>,
    pub entries: Vec<Application>,
}

/// Each era appears at most once in the store.
pub open spec fn distinct_eras(s: Seq<EraRound>) -> bool {
    forall|i: int, j: int| 0 <= i < j < s.len() ==> s[i].era != s[j].era
}

/// The exchange engine. It owns all per-era state: the rounds, their refresh
/// markers, and the settlement cursor. All access goes through its methods.
pub struct PointExchange {
    pub config: ExchangeConfig,
    pub rounds: Vec<EraRound>,
    /// The highest era that has been settled, if any; settlement is strictly
    /// monotonic in the era index.
    pub last_settled_era: Option<Era>,
}

impl PointExchange {
    /// Whether a round exists for `era`.
    pub open spec fn spec_has_round(self, era: Era) -> bool {
        exists|i: int| 0 <= i < self.rounds@.len() && self.rounds@[i].era == era
    }

    /// The index of `era`'s round in the store; meaningful only when
    /// `spec_has_round(era)` holds (eras are distinct, so it is unique).
    pub open spec fn round_ix(self, era: Era) -> int {
        choose|i: int| 0 <= i < self.rounds@.len() && self.rounds@[i].era == era
    }

    /// The entries of `era`'s round; empty if no round exists.
    pub open spec fn spec_round(self, era: Era) -> Seq<Application> {
        if self.spec_has_round(era) {
            self.rounds@[self.round_ix(era)].entries@
        } else {
            Seq::<Application>::empty()
        }
    }

    /// The refresh marker of `era`'s round; `None` if no round exists or the
    /// round was never refreshed.
    pub open spec fn spec_marker(self, era: Era) -> Option<BlockNumber> {
        if self.spec_has_round(era) {
            self.rounds@[self.round_ix(era)].last_refresh
        } else {
            None
        }
    }

    /// The era a block height falls in.
    pub open spec fn spec_current_era(self, now: BlockNumber) -> Era {
        ((now as int) / (self.config.era_length as int)) as Era
    }

    /// Applications to `era` are gated on the previous era having no open
    /// (unsettled) round: at most one round is live at a time.
    pub open spec fn prev_era_unsettled(self, era: Era) -> bool {
        &&& era >= 1
        &&& self.spec_has_round((era - 1) as Era)
        &&& !is_frozen(self.spec_round((era - 1) as Era))
    }

    /// The engine's invariant: a usable configuration; at most one round per
    /// era; and every round non-empty, within capacity, with distinct
    /// accounts, entirely open or entirely settled, and never for era 0.
    pub open spec fn wf(self) -> bool {
        &&& self.config.wf()
        &&& distinct_eras(self.rounds@)
        &&& forall|i: int|
            0 <= i < self.rounds@.len() ==> era_round_wf(#[trigger] self.rounds@[i], self.config)
    }

    /// Creates an engine with no rounds and nothing settled.
    pub fn new(era_length: u64, max_reward_count: u32, history_depth: u32) -> (r: PointExchange)
        requires
            era_length >= 1,
            max_reward_count >= 1,
            history_depth >= 1,
        ensures
            r.wf(),
            r.config == (ExchangeConfig { era_length, max_reward_count, history_depth }),
            r.last_settled_era is None,
            forall|e: Era| !r.spec_has_round(e),
    {
        PointExchange {
            config: ExchangeConfig { era_length, max_reward_count, history_depth },
            rounds: Vec::new(),
            last_settled_era: None,
        }
    }

    /// The era the given block height falls in.
    pub fn get_current_era(&self, now: BlockNumber) -> (era: Era)
        requires
            self.config.wf(),
        ensures
            era == self.spec_current_era(now),
    {
        now / self.config.era_length
    }

    /// The configured round capacity.
    pub fn get_max_reward_count(&self) -> (r: u32)
        ensures
            r == self.config.max_reward_count,
    {
        self.config.max_reward_count
    }

    /// The configured era length in blocks.
    pub fn get_era_length(&self) -> (r: u64)
        ensures
            r == self.config.era_length,
    {
        self.config.era_length
    }

    /// The configured retention depth for settled rounds.
    pub fn get_history_depth(&self) -> (r: u32)
        ensures
            r == self.config.history_depth,
    {
        self.config.history_depth
    }

    /// Refreshes the point snapshots of `era`'s round from `table`, at most
    /// once per block: a frozen (settled) round is never touched and reports
    /// `false`; a round already refreshed at this block height is left as it
    /// is; otherwise every entry's points are re-read, in place and without
    /// re-sorting, and the round's refresh marker is set to `now`.
    pub fn update_apply_list_point(
        &mut self,
        now: BlockNumber,
        era: Era,
        table: &PointTable,
    ) -> (refreshed: bool)
        requires
            old(self).wf(),
        ensures
            final(self).wf(),
            final(self).config == old(self).config,
            final(self).last_settled_era == old(self).last_settled_era,
            final(self).spec_has_round(era) == old(self).spec_has_round(era),
            forall|e: Era|
                e != era ==> final(self).spec_has_round(e) == old(self).spec_has_round(e) && final(self).spec_round(e) == old(self).spec_round(e) && final(self).spec_marker(e) == old(self).spec_marker(e),
            refreshed == !is_frozen(old(self).spec_round(era)),
            !refreshed ==> final(self).spec_round(era) == old(self).spec_round(era) && final(self).spec_marker(era) == old(self).spec_marker(era),
            refreshed && old(self).spec_marker(era) == Some(now) ==> final(self).spec_round(era)
                == old(self).spec_round(era) && final(self).spec_marker(era) == Some(now),
            refreshed && old(self).spec_marker(era) != Some(now) && old(self).spec_has_round(era)
                ==> final(self).spec_round(era) == refreshed_entries(
                old(self).spec_round(era),
                *table,
            ) && final(self).spec_marker(era) == Some(now),
    {
        let idx = match self.find_round(era) {
            None => { return true; },
            Some(i) => i,
        };
        proof {
            lemma_round_ix_is(*self, era, idx as int);
        }
        if contains_settled(&self.rounds[idx].entries) {
            return false;
        }
        if let Some(b) = self.rounds[idx].last_refresh {
            if b == now {
                return true;
            }
        }
        let ghost pre = *self;
        let mut round = self.rounds.remove(idx);
        let ghost pre_entries = round.entries@;
        proof {
            assert(all_open(pre_entries)) by {
                if !all_open(pre_entries) {
                    let j = choose|j: int|
                        0 <= j < pre_entries.len() && !(pre_entries[j].settlement is None);
                    assert(pre_entries[j].settlement is Some);
                    assert(is_frozen(pre_entries));
                }
            }
        }
        let n = round.entries.len();
        let mut k: usize = 0;
        while k < n
            invariant
                k <= n,
                round.era == era,
                n == round.entries@.len(),
                pre_entries.len() == n,
                forall|j: int| k <= j < n ==> round.entries@[j] == pre_entries[j],
                forall|j: int|
                    0 <= j < k ==> round.entries@[j] == refreshed_entries(pre_entries, *table)[j],
            decreases n - k,
        {
            let a = round.entries[k].account;
            let info = round.entries[k].settlement;
            let p = table.get_points(a);
            round.entries[k] = Application { account: a, points: p, settlement: info };
            k = k + 1;
        }
        assert(round.entries@ =~= refreshed_entries(pre_entries, *table));
        round.last_refresh = Some(now);
        let ghost new_round = round;
        self.rounds.insert(idx, round);
        proof {
            assert(self.rounds@ =~= pre.rounds@.update(idx as int, new_round));
            lemma_update_frame(pre, *self, idx as int, era);
            assert forall|a: int, b: int|
                0 <= a < b < new_round.entries@.len() implies new_round.entries@[a].account
                != new_round.entries@[b].account by {
                assert(pre_entries[a].account != pre_entries[b].account);
            }
            assert(era_round_wf(new_round, self.config));
        }
        true
    }

    /// Admits `who` into the current era's round. The application is
    /// rejected in the genesis era, while the previous era's round is still
    /// open, when the applicant has no points, when the current round is
    /// already settled, when the account already applied, or when the
    /// applicant does not strictly outrank the current lowest-ranked entry.
    /// Otherwise the entry is admitted and the round re-ranked; if the round
    /// would exceed its capacity, the lowest-ranked entry is evicted.
    #[verifier::rlimit(60)]
    pub fn apply_exchange(&mut self, now: BlockNumber, who: AccountId, table: &PointTable) -> (r:
        Result<(), ExchangeError>)
        requires
            old(self).wf(),
        ensures
            final(self).wf(),
            final(self).config == old(self).config,
            final(self).last_settled_era == old(self).last_settled_era,
            forall|e: Era|
                e != old(self).spec_current_era(now) ==> final(self).spec_has_round(e) == old(self).spec_has_round(e) && final(self).spec_round(e) == old(self).spec_round(e)
                    && final(self).spec_marker(e) == old(self).spec_marker(e),
            final(self).spec_has_round(old(self).spec_current_era(now)) == (old(self).spec_has_round(old(self).spec_current_era(now)) || r is Ok),
            ({
                let era = old(self).spec_current_era(now);
                let pre_round = old(self).spec_round(era);
                let points = table.spec_points_of(who);
                let prev_open = old(self).prev_era_unsettled(era);
                let gate = era >= 1 && !prev_open && points > 0;
                let s1 = if old(self).spec_marker(era) == Some(now) {
                    pre_round
                } else {
                    refreshed_entries(pre_round, *table)
                };
                let new_entry = Application { account: who, points, settlement: None };
                &&& (era == 0 ==> r == Err::<(), ExchangeError>(ExchangeError::InvalidEra)
                    && final(self).spec_round(era) == pre_round && final(self).spec_marker(era)
                    == old(self).spec_marker(era))
                &&& (era >= 1 && prev_open ==> r == Err::<(), ExchangeError>(
                    ExchangeError::PreviousEraUnsettled,
                ) && final(self).spec_round(era) == pre_round && final(self).spec_marker(era)
                    == old(self).spec_marker(era))
                &&& (era >= 1 && !prev_open && points == 0 ==> r == Err::<(), ExchangeError>(
                    ExchangeError::InsufficientPoints,
                ) && final(self).spec_round(era) == pre_round && final(self).spec_marker(era)
                    == old(self).spec_marker(era))
                &&& (gate && is_frozen(pre_round) ==> r == Err::<(), ExchangeError>(
                    ExchangeError::AlreadySettled,
                ) && final(self).spec_round(era) == pre_round && final(self).spec_marker(era)
                    == old(self).spec_marker(era))
                &&& (gate && !is_frozen(pre_round) && !old(self).spec_has_round(era) ==> r is Ok
                    && final(self).spec_round(era) == seq![new_entry] && final(self).spec_marker(
                    era,
                ) == Some(now))
                &&& (gate && !is_frozen(pre_round) && old(self).spec_has_round(era) ==> {
                    &&& (has_account(s1, who) ==> r == Err::<(), ExchangeError>(
                        ExchangeError::DuplicateApplication,
                    ) && final(self).spec_round(era) == s1 && final(self).spec_marker(era)
                        == Some(now))
                    &&& (!has_account(s1, who) && s1.len()
                        >= old(self).config.max_reward_count as int && points <= s1.last().points
                        ==> r == Err::<(), ExchangeError>(ExchangeError::InsufficientPoints)
                        && final(self).spec_round(era) == s1 && final(self).spec_marker(era)
                        == Some(now))
                    &&& (!has_account(s1, who) && (s1.len()
                        < old(self).config.max_reward_count as int || points > s1.last().points)
                        ==> r is Ok && admission_result(
                        s1,
                        final(self).spec_round(era),
                        who,
                        points,
                        old(self).config.max_reward_count,
                    ) && final(self).spec_marker(era) == Some(now))
                })
            }),
    {
        let era = self.get_current_era(now);
        if era == 0 {
            return Err(ExchangeError::InvalidEra);
        }
        match self.find_round(era - 1) {
            Some(pidx) => {
                proof {
                    lemma_round_ix_is(*self, (era - 1) as Era, pidx as int);
                }
                if !contains_settled(&self.rounds[pidx].entries) {
                    return Err(ExchangeError::PreviousEraUnsettled);
                }
            },
            None => {},
        }
        let apply_point = table.get_points(who);
        if apply_point == 0 {
            return Err(ExchangeError::InsufficientPoints);
        }
        let ghost pre_round = old(self).spec_round(era);
        let ghost s1 = if old(self).spec_marker(era) == Some(now) {
            pre_round
        } else {
            refreshed_entries(pre_round, *table)
        };
        let refreshed = self.update_apply_list_point(now, era, table);
        if !refreshed {
            return Err(ExchangeError::AlreadySettled);
        }
        proof {
            if old(self).spec_has_round(era) {
                assert(self.spec_round(era) == s1 && self.spec_marker(era) == Some(now));
            }
            assert(!is_frozen(s1)) by {
                if is_frozen(s1) {
                    let i = choose|i: int| 0 <= i < s1.len() && s1[i].settlement is Some;
                    assert(pre_round[i].settlement is Some);
                    assert(is_frozen(pre_round));
                }
            }
            lemma_open_iff_not_frozen(s1);
        }
        let ghost mid = *self;
        match self.find_round(era) {
            None => {
                let mut entries: Vec<Application> = Vec::new();
                entries.push(Application { account: who, points: apply_point, settlement: None });
                let new_round = EraRound { era, last_refresh: Some(now), entries };
                let ghost new_round_g = new_round;
                self.rounds.push(new_round);
                proof {
                    lemma_push_frame(mid, *self, era, new_round_g);
                    assert(new_round_g.entries@ =~= seq![
                        Application { account: who, points: apply_point, settlement: None },
                    ]);
                    assert(era_round_wf(new_round_g, self.config));
                    assert(self.wf());
                }
                Ok(())
            },
            Some(idx) => {
                proof {
                    lemma_round_ix_is(*self, era, idx as int);
                    assert(era_round_wf(self.rounds@[idx as int], self.config));
                }
                if contains_account(&self.rounds[idx].entries, who) {
                    return Err(ExchangeError::DuplicateApplication);
                }
                let rlen = self.rounds[idx].entries.len();
                let worst = self.rounds[idx].entries[rlen - 1];
                let max = self.config.max_reward_count;
                let at_capacity = rlen >= max as usize;
                if at_capacity && apply_point <= worst.points {
                    return Err(ExchangeError::InsufficientPoints);
                }
                let ghost new_entry = Application {
                    account: who,
                    points: apply_point,
                    settlement: None,
                };
                let mut round = self.rounds.remove(idx);
                if at_capacity {
                    let _evicted = round.entries.pop();
                }
                round.entries.push(
                    Application { account: who, points: apply_point, settlement: None },
                );
                let ghost pre_sort = round.entries@;
                proof {
                    assert(worst == s1[s1.len() - 1]);
                    if s1.len() < max as int {
                        assert(pre_sort =~= s1.push(new_entry));
                    } else {
                        assert(pre_sort =~= s1.drop_last().push(new_entry));
                    }
                }
                sort_entries_desc(&mut round.entries);
                let ghost post_sort = round.entries@;
                round.last_refresh = Some(now);
                let ghost new_round_g = round;
                self.rounds.insert(idx, round);
                proof {
                    assert(self.rounds@ =~= mid.rounds@.update(idx as int, new_round_g));
                    lemma_update_frame(mid, *self, idx as int, era);
                    lemma_admission_from_sort(s1, pre_sort, post_sort, who, apply_point, max);
                    assert(self.spec_round(era) == post_sort);
                    assert(era_round_wf(new_round_g, self.config));
                    assert(self.wf());
                }
                Ok(())
            },
        }
    }

    /// Settles `era`'s round: takes a final point snapshot, then distributes
    /// `mint_balance` across the ranked entries so that the payouts sum
    /// exactly to `mint_balance` and the proportions to the unit fraction,
    /// records the settlement on every entry, advances the settlement
    /// cursor, and prunes rounds that have fallen out of the retention
    /// window. Any rejection happens before any state is changed.
    pub fn execute_exchange(
        &mut self,
        now: BlockNumber,
        era: Era,
        mint_balance: TokenAmount,
        table: &PointTable,
    ) -> (r: Result<(), ExchangeError>)
        requires
            old(self).wf(),
        ensures
            final(self).wf(),
            final(self).config == old(self).config,
            r is Err ==> final(self).last_settled_era == old(self).last_settled_era && forall|
                e: Era,
            |
                final(self).spec_has_round(e) == old(self).spec_has_round(e) && final(self).spec_round(e) == old(self).spec_round(e) && final(self).spec_marker(e) == old(self).spec_marker(e),
            ({
                let cur = old(self).spec_current_era(now);
                let pre_round = old(self).spec_round(era);
                let s1 = if old(self).spec_marker(era) == Some(now) {
                    pre_round
                } else {
                    refreshed_entries(pre_round, *table)
                };
                let blocked = old(self).last_settled_era matches Some(l) && l >= era;
                &&& (era >= cur ==> r == Err::<(), ExchangeError>(ExchangeError::EraNotEnded))
                &&& (era < cur && !old(self).spec_has_round(era) ==> r == Err::<(), ExchangeError>(
                    ExchangeError::EmptyRound,
                ))
                &&& (era < cur && old(self).spec_has_round(era) && blocked ==> r == Err::<
                    (),
                    ExchangeError,
                >(ExchangeError::AlreadySettled))
                &&& (era < cur && old(self).spec_has_round(era) && !blocked && is_frozen(pre_round)
                    ==> r == Err::<(), ExchangeError>(ExchangeError::AlreadySettled))
                &&& (era < cur && old(self).spec_has_round(era) && !blocked && !is_frozen(
                    pre_round,
                ) ==> {
                    &&& r is Ok
                    &&& is_settlement_of(s1, final(self).spec_round(era), mint_balance)
                    &&& sum_takes(final(self).spec_round(era)) == mint_balance as int
                    &&& sum_parts(final(self).spec_round(era)) == BILLION as int
                    &&& all_settled(final(self).spec_round(era))
                    &&& (sorted_desc(s1) ==> sorted_desc(final(self).spec_round(era)))
                    &&& final(self).last_settled_era == Some(era)
                    &&& final(self).spec_marker(era) == Some(now)
                    &&& (forall|e: Era|
                        e != era && e as int + old(self).config.history_depth as int > era as int
                            ==> final(self).spec_has_round(e) == old(self).spec_has_round(e)
                            && final(self).spec_round(e) == old(self).spec_round(e) && final(self).spec_marker(e) == old(self).spec_marker(e))
                    &&& (forall|e: Era|
                        e as int + old(self).config.history_depth as int <= era as int ==> !final(self).spec_has_round(e))
                })
            }),
    {
        let cur = self.get_current_era(now);
        if era >= cur {
            return Err(ExchangeError::EraNotEnded);
        }
        if let None = self.find_round(era) {
            return Err(ExchangeError::EmptyRound);
        }
        if let Some(l) = self.last_settled_era {
            if l >= era {
                return Err(ExchangeError::AlreadySettled);
            }
        }
        let ghost pre_round = old(self).spec_round(era);
        let ghost s1 = if old(self).spec_marker(era) == Some(now) {
            pre_round
        } else {
            refreshed_entries(pre_round, *table)
        };
        let refreshed = self.update_apply_list_point(now, era, table);
        if !refreshed {
            return Err(ExchangeError::AlreadySettled);
        }
        proof {
            assert(self.spec_round(era) == s1 && self.spec_marker(era) == Some(now));
            assert(!is_frozen(s1)) by {
                if is_frozen(s1) {
                    let i = choose|i: int| 0 <= i < s1.len() && s1[i].settlement is Some;
                    assert(pre_round[i].settlement is Some);
                    assert(is_frozen(pre_round));
                }
            }
            lemma_open_iff_not_frozen(s1);
        }
        let ghost mid = *self;
        let idx = self.find_round(era).unwrap();
        proof {
            lemma_round_ix_is(*self, era, idx as int);
            assert(era_round_wf(self.rounds@[idx as int], self.config));
        }
        let mut round = self.rounds.remove(idx);
        distribute(&mut round.entries, mint_balance);
        let ghost new_round_g = round;
        self.rounds.insert(idx, round);
        self.last_settled_era = Some(era);
        proof {
            assert(self.rounds@ =~= mid.rounds@.update(idx as int, new_round_g));
            lemma_update_frame(mid, *self, idx as int, era);
            assert(distinct_accounts(new_round_g.entries@)) by {
                let t = new_round_g.entries@;
                assert forall|a: int, b: int|
                    0 <= a < b < t.len() implies t[a].account != t[b].account by {
                    assert(t[a].account == s1[a].account);
                    assert(t[b].account == s1[b].account);
                }
            }
            assert(era_round_wf(new_round_g, self.config));
            assert(self.wf());
        }
        let ghost settled_state = *self;
        self.prune_history(era);
        proof {
            assert(era as int + self.config.history_depth as int > era as int);
            assert(self.spec_round(era) == new_round_g.entries@);
            assert(sorted_desc(s1) ==> sorted_desc(new_round_g.entries@)) by {
                if sorted_desc(s1) {
                    let t = new_round_g.entries@;
                    assert forall|i: int, j: int|
                        0 <= i < j < t.len() implies t[i].points >= t[j].points by {
                        assert(t[i].points == s1[i].points);
                        assert(t[j].points == s1[j].points);
                    }
                }
            }
        }
        Ok(())
    }

    /// Removes rounds whose era has fallen out of the retention window after
    /// settling `settled`: a round for era `e` is pruned once
    /// `e + history_depth <= settled`.
    fn prune_history(&mut self, settled: Era)
        requires
            old(self).wf(),
        ensures
            final(self).wf(),
            final(self).config == old(self).config,
            final(self).last_settled_era == old(self).last_settled_era,
            forall|e: Era|
                e as int + old(self).config.history_depth as int > settled as int ==> final(self).spec_has_round(e) == old(self).spec_has_round(e) && final(self).spec_round(e)
                    == old(self).spec_round(e) && final(self).spec_marker(e) == old(self).spec_marker(e),
            forall|e: Era|
                e as int + old(self).config.history_depth as int <= settled as int ==> !final(self).spec_has_round(e),
    {
        let depth: u64 = self.config.history_depth as u64;
        if settled < depth {
            return ;
        }
        let cutoff = settled - depth;
        let ghost pre = *self;
        let mut kept: Vec<EraRound> = Vec::new();
        assert(self.rounds@ =~= pre.rounds@.take(self.rounds@.len() as int));
        while self.rounds.len() > 0
            invariant
                self.config == pre.config,
                self.last_settled_era == pre.last_settled_era,
                pre.wf(),
                cutoff as int == settled as int - pre.config.history_depth as int,
                self.rounds@.len() <= pre.rounds@.len(),
                self.rounds@ == pre.rounds@.take(self.rounds@.len() as int),
                forall|k: int|
                    0 <= k < kept@.len() ==> (#[trigger] kept@[k]).era > cutoff,
                forall|k: int|
                    0 <= k < kept@.len() ==> exists|j: int|
                        self.rounds@.len() <= j < pre.rounds@.len() && #[trigger] kept@[k]
                            == pre.rounds@[j],
                forall|j: int|
                    self.rounds@.len() <= j < pre.rounds@.len() && (#[trigger] pre.rounds@[j]).era
                        > cutoff ==> kept@.contains(pre.rounds@[j]),
                distinct_eras(kept@),
                forall|k: int|
                    0 <= k < kept@.len() ==> era_round_wf(#[trigger] kept@[k], pre.config),
            decreases self.rounds@.len(),
        {
            let ghost m: int = self.rounds@.len() - 1;
            let r = self.rounds.pop().unwrap();
            proof {
                assert(r == pre.rounds@[m]);
                assert(self.rounds@ =~= pre.rounds@.take(self.rounds@.len() as int));
            }
            if r.era > cutoff {
                let ghost r_g = r;
                let ghost kept_before = kept@;
                kept.push(r);
                proof {
                    assert forall|i: int, j: int|
                        0 <= i < j < kept@.len() implies kept@[i].era != kept@[j].era by {
                        if j == kept@.len() - 1 {
                            let ji = choose|ji: int|
                                m + 1 <= ji < pre.rounds@.len() && kept_before[i]
                                    == pre.rounds@[ji];
                            assert(pre.rounds@[m].era != pre.rounds@[ji].era);
                        } else {
                            assert(kept_before[i].era != kept_before[j].era);
                        }
                    }
                    assert forall|k: int|
                        0 <= k < kept@.len() implies exists|j: int|
                            self.rounds@.len() <= j < pre.rounds@.len() && #[trigger] kept@[k]
                                == pre.rounds@[j] by {
                        if k == kept@.len() - 1 {
                            assert(kept@[k] == pre.rounds@[m]);
                        } else {
                            assert(kept@[k] == kept_before[k]);
                        }
                    }
                    assert forall|j: int|
                        self.rounds@.len() <= j < pre.rounds@.len() && (#[trigger] pre.rounds@[j]).era > cutoff
                            implies kept@.contains(pre.rounds@[j]) by {
                        if j == m {
                            assert(kept@[kept@.len() - 1] == pre.rounds@[m]);
                        } else {
                            assert(kept_before.contains(pre.rounds@[j]));
                            let k = choose|k: int|
                                0 <= k < kept_before.len() && kept_before[k] == pre.rounds@[j];
                            assert(kept@[k] == pre.rounds@[j]);
                        }
                    }
                }
            }
        }
        self.rounds = kept;
        proof {
            assert forall|e: Era|
                e as int + pre.config.history_depth as int > settled as int implies self
                .spec_has_round(e) == pre.spec_has_round(e) && self.spec_round(e)
                == pre.spec_round(e) && self.spec_marker(e) == pre.spec_marker(e) by {
                if pre.spec_has_round(e) {
                    let i = pre.round_ix(e);
                    assert(pre.rounds@[i].era == e);
                    lemma_round_ix_is(pre, e, i);
                    assert(kept@.contains(pre.rounds@[i]));
                    let k = choose|k: int|
                        0 <= k < kept@.len() && kept@[k] == pre.rounds@[i];
                    lemma_round_ix_is(*self, e, k);
                } else {
                    if self.spec_has_round(e) {
                        let k = self.round_ix(e);
                        assert(self.rounds@[k].era == e);
                        let j = choose|j: int|
                            0 <= j < pre.rounds@.len() && kept@[k] == pre.rounds@[j];
                        assert(pre.rounds@[j].era == e);
                    }
                }
            }
            assert forall|e: Era|
                e as int + pre.config.history_depth as int <= settled as int implies !self
                .spec_has_round(e) by {
                if self.spec_has_round(e) {
                    let k = self.round_ix(e);
                    assert(self.rounds@[k].era == e);
                    assert(self.rounds@[k].era > cutoff);
                }
            }
            assert(self.wf());
        }
    }

    /// The reward list of `era`: the round's entries in rank order,
    /// truncated to the configured capacity (a round that predates a
    /// capacity change is truncated defensively).
    pub fn get_reward_list(&self, era: Era) -> (r: Vec<Application>)
        requires
            self.wf(),
        ensures
            ({
                let round = self.spec_round(era);
                let cap = self.config.max_reward_count as int;
                r@ == if round.len() <= cap {
                    round
                } else {
                    round.take(cap)
                }
            }),
    {
        let mut out: Vec<Application> = Vec::new();
        match self.find_round(era) {
            None => {
                proof {
                    assert(out@ =~= self.spec_round(era));
                }
                out
            },
            Some(idx) => {
                proof {
                    lemma_round_ix_is(*self, era, idx as int);
                }
                let n = self.rounds[idx].entries.len();
                let cap = self.config.max_reward_count as usize;
                let m = if n <= cap {
                    n
                } else {
                    cap
                };
                let mut i: usize = 0;
                assert(out@ =~= self.rounds@[idx as int].entries@.take(0));
                while i < m
                    invariant
                        i <= m,
                        idx < self.rounds@.len(),
                        m <= self.rounds@[idx as int].entries@.len(),
                        out@ == self.rounds@[idx as int].entries@.take(i as int),
                    decreases m - i,
                {
                    out.push(self.rounds[idx].entries[i]);
                    proof {
                        assert(out@ =~= self.rounds@[idx as int].entries@.take(i + 1));
                    }
                    i = i + 1;
                }
                proof {
                    if n <= cap {
                        let es = self.rounds@[idx as int].entries@;
                        assert(es.take(n as int) =~= es);
                    }
                }
                out
            },
        }
    }

    /// Locates `era`'s round in the store.
    fn find_round(&self, era: Era) -> (r: Option<usize>)
        ensures
            match r {
                Some(i) => self.spec_has_round(era) && i < self.rounds@.len()
                    && self.rounds@[i as int].era == era,
                None => !self.spec_has_round(era),
            },
    {
        let n = self.rounds.len();
        let mut i: usize = 0;
        while i < n
            invariant
                i <= n,
                n == self.rounds@.len(),
                forall|j: int| 0 <= j < i ==> self.rounds@[j].era != era,
            decreases n - i,
        {
            if self.rounds[i].era == era {
                return Some(i);
            }
            i = i + 1;
        }
        None
    }
}

/// Whether any entry of a round already carries a settlement record.
fn contains_settled(entries: &Vec<Application>) -> (r: bool)
    ensures
        r == is_frozen(entries@),
{
    let n = entries.len();
    let mut i: usize = 0;
    while i < n
        invariant
            i <= n,
            n == entries@.len(),
            forall|j: int| 0 <= j < i ==> entries@[j].settlement is None,
        decreases n - i,
    {
        if entries[i].settlement.is_some() {
            return true;
        }
        i = i + 1;
    }
    false
}

/// Whether `who` already has an entry in the round.
fn contains_account(entries: &Vec<Application>, who: AccountId) -> (r: bool)
    ensures
        r == has_account(entries@, who),
{
    let n = entries.len();
    let mut i: usize = 0;
    while i < n
        invariant
            i <= n,
            n == entries@.len(),
            forall|j: int| 0 <= j < i ==> entries@[j].account != who,
        decreases n - i,
    {
        if entries[i].account == who {
            return true;
        }
        i = i + 1;
    }
    false
}

/// The per-round part of the engine invariant.
pub open spec fn era_round_wf(r: EraRound, cfg: ExchangeConfig) -> bool {
    &&& r.era >= 1
    &&& 1 <= r.entries@.len() <= cfg.max_reward_count
    &&& distinct_accounts(r.entries@)
    &&& (all_open(r.entries@) || all_settled(r.entries@))
}

/// The capacity bound: under the engine invariant no round ever holds more
/// than `max_reward_count` entries, whatever sequence of operations
/// produced the state.
pub proof fn lemma_capacity_bound(s: PointExchange, era: Era)
    requires
        s.wf(),
    ensures
        s.spec_round(era).len() <= s.config.max_reward_count,
{
    if s.spec_has_round(era) {
        let i = s.round_ix(era);
        assert(era_round_wf(s.rounds@[i], s.config));
    }
}

/// A round index with the right era is the unique one the spec accessors
/// speak of.
proof fn lemma_round_ix_is(s: PointExchange, era: Era, i: int)
    requires
        distinct_eras(s.rounds@),
        0 <= i < s.rounds@.len(),
        s.rounds@[i].era == era,
    ensures
        s.spec_has_round(era),
        s.round_ix(era) == i,
        s.spec_round(era) == s.rounds@[i].entries@,
        s.spec_marker(era) == s.rounds@[i].last_refresh,
{
    assert(s.spec_has_round(era));
    let j = s.round_ix(era);
    assert(0 <= j < s.rounds@.len() && s.rounds@[j].era == era);
    if i < j {
        assert(s.rounds@[i].era != s.rounds@[j].era);
    } else if j < i {
        assert(s.rounds@[j].era != s.rounds@[i].era);
    }
}

/// Replacing one round with another for the same era leaves every other
/// era's view of the store unchanged.
proof fn lemma_update_frame(pre: PointExchange, post: PointExchange, idx: int, era: Era)
    requires
        distinct_eras(pre.rounds@),
        0 <= idx < pre.rounds@.len(),
        pre.rounds@[idx].era == era,
        post.rounds@.len() == pre.rounds@.len(),
        post.rounds@[idx].era == era,
        forall|i: int| 0 <= i < pre.rounds@.len() && i != idx ==> post.rounds@[i] == pre.rounds@[i],
    ensures
        distinct_eras(post.rounds@),
        pre.spec_has_round(era),
        pre.round_ix(era) == idx,
        pre.spec_round(era) == pre.rounds@[idx].entries@,
        pre.spec_marker(era) == pre.rounds@[idx].last_refresh,
        post.spec_has_round(era),
        post.round_ix(era) == idx,
        post.spec_round(era) == post.rounds@[idx].entries@,
        post.spec_marker(era) == post.rounds@[idx].last_refresh,
        forall|e: Era|
            e != era ==> post.spec_has_round(e) == pre.spec_has_round(e) && post.spec_round(e)
                == pre.spec_round(e) && post.spec_marker(e) == pre.spec_marker(e),
{
    assert forall|i: int, j: int| 0 <= i < j < post.rounds@.len() implies post.rounds@[i].era
        != post.rounds@[j].era by {
        assert(pre.rounds@[i].era != pre.rounds@[j].era);
    }
    lemma_round_ix_is(pre, era, idx);
    lemma_round_ix_is(post, era, idx);
    assert forall|e: Era| e != era implies post.spec_has_round(e) == pre.spec_has_round(e)
        && post.spec_round(e) == pre.spec_round(e) && post.spec_marker(e) == pre.spec_marker(
        e,
    ) by {
        if pre.spec_has_round(e) {
            let i = pre.round_ix(e);
            assert(pre.rounds@[i].era == e);
            assert(i != idx);
            lemma_round_ix_is(pre, e, i);
            lemma_round_ix_is(post, e, i);
        } else if post.spec_has_round(e) {
            let i = post.round_ix(e);
            assert(post.rounds@[i].era == e);
            assert(i != idx);
            assert(pre.rounds@[i].era == e);
        }
    }
}

/// Adding a round for a fresh era leaves every other era's view of the
/// store unchanged.
proof fn lemma_push_frame(pre: PointExchange, post: PointExchange, era: Era, r: EraRound)
    requires
        distinct_eras(pre.rounds@),
        !pre.spec_has_round(era),
        r.era == era,
        post.rounds@ == pre.rounds@.push(r),
    ensures
        distinct_eras(post.rounds@),
        post.spec_has_round(era),
        post.round_ix(era) == pre.rounds@.len(),
        post.spec_round(era) == r.entries@,
        post.spec_marker(era) == r.last_refresh,
        forall|e: Era|
            e != era ==> post.spec_has_round(e) == pre.spec_has_round(e) && post.spec_round(e)
                == pre.spec_round(e) && post.spec_marker(e) == pre.spec_marker(e),
{
    let n = pre.rounds@.len() as int;
    assert forall|i: int, j: int| 0 <= i < j < post.rounds@.len() implies post.rounds@[i].era
        != post.rounds@[j].era by {
        if j < n {
            assert(pre.rounds@[i].era != pre.rounds@[j].era);
        } else {
            assert(post.rounds@[j] == r);
            if pre.rounds@[i].era == era {
                assert(pre.spec_has_round(era));
            }
        }
    }
    assert(post.rounds@[n] == r);
    lemma_round_ix_is(post, era, n);
    assert forall|e: Era| e != era implies post.spec_has_round(e) == pre.spec_has_round(e)
        && post.spec_round(e) == pre.spec_round(e) && post.spec_marker(e) == pre.spec_marker(
        e,
    ) by {
        if pre.spec_has_round(e) {
            let i = pre.round_ix(e);
            assert(pre.rounds@[i].era == e);
            lemma_round_ix_is(pre, e, i);
            assert(post.rounds@[i] == pre.rounds@[i]);
            lemma_round_ix_is(post, e, i);
        } else if post.spec_has_round(e) {
            let i = post.round_ix(e);
            assert(post.rounds@[i].era == e);
            assert(i != n);
            assert(pre.rounds@[i].era == e);
        }
    }
}

} // verus!
