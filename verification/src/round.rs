//! Rounds: the ranked, capacity-bounded application lists, and the
//! proportional settlement computation over one round.

use vstd::prelude::*;

verus! {

use crate::{AccountId, PointAmount, TokenAmount};
use crate::math::{lemma_div_sum_le, lemma_part_scaled_le};
use crate::points::PointTable;
use crate::proportion::{ratio_divisor, ratio_parts, scaled_amount, Proportion, BILLION};
use vstd::arithmetic::mul::{lemma_mul_is_distributive_add_other_way, lemma_mul_nonnegative};

/// The settlement record of one entry: its fraction of the pool, the point
/// snapshot it was paid for, and the exact token payout.
#[derive(Clone, Copy, Debug, PartialEq, Eq)]
pub struct SettlementInfo {
    pub proportion: Proportion,
    pub pay_point: PointAmount,
    pub take_token: TokenAmount,
}

/// One entry of a round: an applicant, its refreshable point snapshot, and —
/// exactly once, at settlement — its settlement record.
#[derive(Clone, Copy, Debug, PartialEq, Eq)]
pub struct Application {
    pub account: AccountId,
    pub points: PointAmount,
    pub settlement: Option<SettlementInfo>,
}

/// Entries are ranked by points, highest first.
pub open spec fn sorted_desc(s: Seq<Application>) -> bool {
    forall|i: int, j: int| 0 <= i < j < s.len() ==> s[i].points >= s[j].points
}

/// An account appears at most once per round.
pub open spec fn distinct_accounts(s: Seq<Application>) -> bool {
    forall|i: int, j: int| 0 <= i < j < s.len() ==> s[i].account != s[j].account
}

/// No entry has been settled yet: the round is still open.
pub open spec fn all_open(s: Seq<Application>) -> bool {
    forall|i: int| 0 <= i < s.len() ==> s[i].settlement is None
}

/// Every entry carries its settlement record: the round is settled.
pub open spec fn all_settled(s: Seq<Application>) -> bool {
    forall|i: int| 0 <= i < s.len() ==> s[i].settlement is Some
}

/// Some entry carries a settlement record, so the round is frozen: its point
/// snapshots are never refreshed again.
pub open spec fn is_frozen(s: Seq<Application>) -> bool {
    exists|i: int| 0 <= i < s.len() && s[i].settlement is Some
}

/// Whether `account` already has an entry in the round.
pub open spec fn has_account(s: Seq<Application>, account: AccountId) -> bool {
    exists|i: int| 0 <= i < s.len() && s[i].account == account
}

/// The round with every point snapshot re-read from `table`; membership,
/// order and settlement records are untouched.
pub open spec fn refreshed_entries(s: Seq<Application>, table: PointTable) -> Seq<Application> {
    Seq::new(
        s.len(),
        |i: int|
            Application {
                account: s[i].account,
                points: table.spec_points_of(s[i].account),
                settlement: s[i].settlement,
            },
    )
}

/// The total of the point snapshots of a round.
pub open spec fn sum_points(s: Seq<Application>) -> int
    decreases s.len(),
{
    if s.len() == 0 {
        0
    } else {
        sum_points(s.drop_last()) + s.last().points
    }
}

/// The parts-per-billion proportion recorded on an entry; zero while open.
pub open spec fn parts_of(a: Application) -> int {
    if a.settlement is Some {
        a.settlement->0.proportion.parts as int
    } else {
        0
    }
}

/// The token payout recorded on an entry; zero while open.
pub open spec fn take_of(a: Application) -> int {
    if a.settlement is Some {
        a.settlement->0.take_token as int
    } else {
        0
    }
}

/// The total of the proportions recorded on a round.
pub open spec fn sum_parts(s: Seq<Application>) -> int
    decreases s.len(),
{
    if s.len() == 0 {
        0
    } else {
        sum_parts(s.drop_last()) + parts_of(s.last())
    }
}

/// The total of the token payouts recorded on a round.
pub open spec fn sum_takes(s: Seq<Application>) -> int
    decreases s.len(),
{
    if s.len() == 0 {
        0
    } else {
        sum_takes(s.drop_last()) + take_of(s.last())
    }
}

/// Extending a prefix by one entry adds that entry's points to its total.
pub proof fn lemma_sum_points_take_succ(s: Seq<Application>, k: int)
    requires
        0 <= k < s.len(),
    ensures
        sum_points(s.take(k + 1)) == sum_points(s.take(k)) + s[k].points,
{
    assert(s.take(k + 1).drop_last() =~= s.take(k));
    assert(s.take(k + 1).last() == s[k]);
}

/// Extending a prefix by one entry adds that entry's proportion to its total.
pub proof fn lemma_sum_parts_take_succ(s: Seq<Application>, k: int)
    requires
        0 <= k < s.len(),
    ensures
        sum_parts(s.take(k + 1)) == sum_parts(s.take(k)) + parts_of(s[k]),
{
    assert(s.take(k + 1).drop_last() =~= s.take(k));
    assert(s.take(k + 1).last() == s[k]);
}

/// Extending a prefix by one entry adds that entry's payout to its total.
pub proof fn lemma_sum_takes_take_succ(s: Seq<Application>, k: int)
    requires
        0 <= k < s.len(),
    ensures
        sum_takes(s.take(k + 1)) == sum_takes(s.take(k)) + take_of(s[k]),
{
    assert(s.take(k + 1).drop_last() =~= s.take(k));
    assert(s.take(k + 1).last() == s[k]);
}

/// Point totals are never negative.
pub proof fn lemma_sum_points_nonneg(s: Seq<Application>)
    ensures
        sum_points(s) >= 0,
    decreases s.len(),
{
    if s.len() > 0 {
        lemma_sum_points_nonneg(s.drop_last());
    }
}

/// A prefix of a round never holds more points than the whole round.
pub proof fn lemma_sum_points_prefix_le(s: Seq<Application>, k: int)
    requires
        0 <= k <= s.len(),
    ensures
        sum_points(s.take(k)) <= sum_points(s),
    decreases s.len() - k,
{
    if k == s.len() {
        assert(s.take(k) =~= s);
    } else {
        lemma_sum_points_prefix_le(s, k + 1);
        lemma_sum_points_take_succ(s, k);
        lemma_sum_points_nonneg(s.take(k));
    }
}

/// How an admission changes an open round `pre` (with point snapshots
/// already refreshed): when the round is below the capacity `max`, the new
/// entry simply joins it; at capacity, the positionally last (lowest-ranked)
/// entry is evicted. Either way the result is re-ranked by points, highest
/// first, stays open, within capacity, and holds each account at most once.
pub open spec fn admission_result(
    pre: Seq<Application>,
    post: Seq<Application>,
    who: AccountId,
    points: PointAmount,
    max: u32,
) -> bool {
    let base = if pre.len() < max as int {
        pre
    } else {
        pre.drop_last()
    };
    let new_entry = Application { account: who, points, settlement: None };
    &&& sorted_desc(post)
    &&& all_open(post)
    &&& distinct_accounts(post)
    &&& post.len() == base.len() + 1
    &&& post.len() <= max
    &&& (forall|x: Application| post.contains(x) <==> (base.contains(x) || x == new_entry))
    &&& (forall|i: int|
        0 <= i < post.len() ==> base.contains(#[trigger] post[i]) || post[i] == new_entry)
    &&& (forall|a: AccountId| has_account(post, a) <==> (has_account(base, a) || a == who))
}

/// Admission, step by step: appending the new entry to the kept entries of
/// an open round and re-ranking the result yields an `admission_result`.
/// `pre_sort` is the round just before re-ranking; `post` is the re-ranked
/// round, described by what sorting guarantees.
pub proof fn lemma_admission_from_sort(
    pre: Seq<Application>,
    pre_sort: Seq<Application>,
    post: Seq<Application>,
    who: AccountId,
    points: PointAmount,
    max: u32,
)
    requires
        pre.len() >= 1,
        pre.len() <= max as int,
        distinct_accounts(pre),
        all_open(pre),
        !has_account(pre, who),
        pre_sort == (if pre.len() < max as int {
            pre
        } else {
            pre.drop_last()
        }).push(Application { account: who, points, settlement: None }),
        post.len() == pre_sort.len(),
        sorted_desc(post),
        forall|x: Application| post.contains(x) <==> pre_sort.contains(x),
        distinct_accounts(pre_sort) ==> distinct_accounts(post),
        all_open(pre_sort) ==> all_open(post),
    ensures
        admission_result(pre, post, who, points, max),
{
    let base = if pre.len() < max as int {
        pre
    } else {
        pre.drop_last()
    };
    let ne = Application { account: who, points, settlement: None };
    let bl = base.len() as int;
    assert(distinct_accounts(pre_sort)) by {
        assert forall|a: int, b: int|
            0 <= a < b < pre_sort.len() implies pre_sort[a].account != pre_sort[b].account by {
            if b < bl {
                assert(pre[a].account != pre[b].account);
            } else {
                assert(pre_sort[b] == ne);
                assert(pre[a].account != who) by {
                    if pre[a].account == who {
                        assert(has_account(pre, who));
                    }
                }
            }
        }
    }
    assert(all_open(pre_sort)) by {
        assert forall|i: int| 0 <= i < pre_sort.len() implies pre_sort[i].settlement is None by {
            if i < bl {
                assert(pre_sort[i] == pre[i]);
            }
        }
    }
    assert forall|x: Application| pre_sort.contains(x) <==> (base.contains(x) || x == ne) by {
        if pre_sort.contains(x) {
            let k = choose|k: int| 0 <= k < pre_sort.len() && pre_sort[k] == x;
            if k < bl {
                assert(base[k] == x);
            }
        }
        if base.contains(x) {
            let k = choose|k: int| 0 <= k < base.len() && base[k] == x;
            assert(pre_sort[k] == x);
        }
        if x == ne {
            assert(pre_sort[bl] == x);
        }
    }
    assert forall|i: int|
        0 <= i < post.len() implies base.contains(#[trigger] post[i]) || post[i] == ne by {
        assert(post.contains(post[i]));
    }
    assert forall|a: AccountId|
        has_account(post, a) <==> (has_account(base, a) || a == who) by {
        if has_account(post, a) {
            let i = choose|i: int| 0 <= i < post.len() && post[i].account == a;
            assert(post.contains(post[i]));
            if base.contains(post[i]) {
                let k = choose|k: int| 0 <= k < base.len() && base[k] == post[i];
                assert(has_account(base, a));
            }
        }
        if has_account(base, a) {
            let i = choose|i: int| 0 <= i < base.len() && base[i].account == a;
            assert(base.contains(base[i]));
            assert(post.contains(base[i]));
            let k = choose|k: int| 0 <= k < post.len() && post[k] == base[i];
            assert(has_account(post, a));
        }
        if a == who {
            assert(pre_sort.contains(ne));
            assert(post.contains(ne));
            let k = choose|k: int| 0 <= k < post.len() && post[k] == ne;
            assert(has_account(post, a));
        }
    }
}

/// The ranking survives a refresh as long as the re-read point values
/// respect the old order: whenever a higher-ranked entry's new points are
/// still at least every lower-ranked entry's, the round stays sorted.
/// (A table that inverts two entries' points leaves the round out of order
/// until the next admission re-sorts it; a refresh deliberately never
/// re-sorts.)
pub proof fn lemma_refresh_preserves_ranking(s: Seq<Application>, table: PointTable)
    requires
        sorted_desc(s),
        forall|i: int, j: int|
            0 <= i < j < s.len() ==> table.spec_points_of(#[trigger] s[i].account)
                >= table.spec_points_of(#[trigger] s[j].account),
    ensures
        sorted_desc(refreshed_entries(s, table)),
{
    let t = refreshed_entries(s, table);
    assert forall|i: int, j: int| 0 <= i < j < t.len() implies t[i].points >= t[j].points by {
        assert(t[i].points == table.spec_points_of(s[i].account));
        assert(t[j].points == table.spec_points_of(s[j].account));
    }
}

/// A round is open exactly when it is not frozen.
pub proof fn lemma_open_iff_not_frozen(s: Seq<Application>)
    ensures
        all_open(s) <==> !is_frozen(s),
{
    if !is_frozen(s) {
        assert forall|i: int| 0 <= i < s.len() implies s[i].settlement is None by {
            if s[i].settlement is Some {
                assert(is_frozen(s));
            }
        }
    }
}

/// Swapping two adjacent entries keeps the round's membership, the
/// uniqueness of its accounts, and its openness.
proof fn lemma_swap_adjacent(s: Seq<Application>, j: int)
    requires
        1 <= j < s.len(),
    ensures
        ({
            let t = s.update(j - 1, s[j]).update(j, s[j - 1]);
            &&& t.len() == s.len()
            &&& forall|x: Application| t.contains(x) <==> s.contains(x)
            &&& (distinct_accounts(s) ==> distinct_accounts(t))
            &&& (all_open(s) ==> all_open(t))
        }),
{
    let t = s.update(j - 1, s[j]).update(j, s[j - 1]);
    assert forall|x: Application| t.contains(x) implies s.contains(x) by {
        let k = choose|k: int| 0 <= k < t.len() && t[k] == x;
        if k == j - 1 {
            assert(s[j] == x);
        } else if k == j {
            assert(s[j - 1] == x);
        } else {
            assert(s[k] == x);
        }
    }
    assert forall|x: Application| s.contains(x) implies t.contains(x) by {
        let k = choose|k: int| 0 <= k < s.len() && s[k] == x;
        if k == j - 1 {
            assert(t[j] == x);
        } else if k == j {
            assert(t[j - 1] == x);
        } else {
            assert(t[k] == x);
        }
    }
    if distinct_accounts(s) {
        assert forall|a: int, b: int| 0 <= a < b < t.len() implies t[a].account != t[b].account by {
            let a0: int = if a == j - 1 {
                j
            } else if a == j {
                j - 1
            } else {
                a
            };
            let b0: int = if b == j - 1 {
                j
            } else if b == j {
                j - 1
            } else {
                b
            };
            assert(t[a] == s[a0]);
            assert(t[b] == s[b0]);
            if a0 < b0 {
                assert(s[a0].account != s[b0].account);
            } else {
                assert(s[b0].account != s[a0].account);
            }
        }
    }
}

/// Sorts a round's entries by points, highest first, by adjacent swaps.
/// Membership, account uniqueness and openness are preserved.
pub fn sort_entries_desc(entries: &mut Vec<Application>)
    ensures
        final(entries)@.len() == old(entries)@.len(),
        sorted_desc(final(entries)@),
        forall|x: Application| final(entries)@.contains(x) <==> old(entries)@.contains(x),
        distinct_accounts(old(entries)@) ==> distinct_accounts(final(entries)@),
        all_open(old(entries)@) ==> all_open(final(entries)@),
{
    let n = entries.len();
    if n == 0 {
        return ;
    }
    let mut i: usize = 1;
    while i < n
        invariant
            1 <= i <= n,
            n == entries@.len(),
            n == old(entries)@.len(),
            sorted_desc(entries@.take(i as int)),
            forall|x: Application| entries@.contains(x) <==> old(entries)@.contains(x),
            distinct_accounts(old(entries)@) ==> distinct_accounts(entries@),
            all_open(old(entries)@) ==> all_open(entries@),
        decreases n - i,
    {
        assert forall|a: int, b: int| 0 <= a < b < i implies entries@[a].points
            >= entries@[b].points by {
            assert(entries@.take(i as int)[a] == entries@[a]);
            assert(entries@.take(i as int)[b] == entries@[b]);
        }
        let mut j: usize = i;
        while j > 0 && entries[j - 1].points < entries[j].points
            invariant
                0 <= j <= i < n,
                n == entries@.len(),
                n == old(entries)@.len(),
                forall|a: int, b: int|
                    0 <= a < b <= i && b != j ==> entries@[a].points >= entries@[b].points,
                forall|x: Application| entries@.contains(x) <==> old(entries)@.contains(x),
                distinct_accounts(old(entries)@) ==> distinct_accounts(entries@),
                all_open(old(entries)@) ==> all_open(entries@),
            decreases j,
        {
            let ghost s = entries@;
            proof {
                lemma_swap_adjacent(s, j as int);
            }
            let high = entries[j];
            let low = entries[j - 1];
            entries[j - 1] = high;
            entries[j] = low;
            assert(entries@ =~= s.update(j - 1, s[j as int]).update(j as int, s[j - 1]));
            j = j - 1;
        }
        assert forall|a: int, b: int| 0 <= a < b <= i implies entries@[a].points
            >= entries@[b].points by {
            if b == j {
                if a < j - 1 {
                    assert(entries@[a].points >= entries@[j - 1].points);
                }
            }
        }
        i = i + 1;
        assert(sorted_desc(entries@.take(i as int)));
    }
    assert(entries@.take(n as int) =~= entries@);
}

/// A non-last entry after settlement: its proportion is its exact share of
/// the point total rounded down to parts per billion, and its payout is that
/// proportion of the mint amount rounded down.
pub open spec fn settled_entry(a: Application, total: int, mint: TokenAmount) -> Application {
    let parts = ratio_parts(a.points as int, total);
    Application {
        account: a.account,
        points: a.points,
        settlement: Some(
            SettlementInfo {
                proportion: Proportion { parts: parts as u32 },
                pay_point: a.points,
                take_token: scaled_amount(parts, mint as int) as u64,
            },
        ),
    }
}

/// How a settled round relates to the open round it came from: membership,
/// order and point snapshots are unchanged; every entry but the last gets
/// its rounded-down share; the last (lowest-ranked) entry absorbs all
/// rounding residue by construction, so the proportions sum exactly to the
/// unit fraction and the payouts sum exactly to the minted amount.
pub open spec fn is_settlement_of(
    pre: Seq<Application>,
    post: Seq<Application>,
    mint: TokenAmount,
) -> bool {
    let total = sum_points(pre);
    let n = pre.len() as int;
    &&& n >= 1
    &&& post.len() == n
    &&& forall|i: int| 0 <= i < n - 1 ==> post[i] == settled_entry(pre[i], total, mint)
    &&& post[n - 1].account == pre[n - 1].account
    &&& post[n - 1].points == pre[n - 1].points
    &&& post[n - 1].settlement is Some
    &&& post[n - 1].settlement->0.pay_point == pre[n - 1].points
    &&& post[n - 1].settlement->0.proportion.parts as int == BILLION - sum_parts(post.take(n - 1))
    &&& post[n - 1].settlement->0.take_token as int == mint - sum_takes(post.take(n - 1))
    &&& sum_parts(post) == BILLION as int
    &&& sum_takes(post) == mint as int
}

/// Distributes `mint` across the entries of an open round, in stored (rank)
/// order: every entry but the last receives its share of the point total
/// rounded down; the last entry receives exactly what is left, so the total
/// payout equals `mint` and the proportions sum to the unit fraction.
pub fn distribute(entries: &mut Vec<Application>, mint: TokenAmount)
    requires
        old(entries)@.len() >= 1,
        all_open(old(entries)@),
    ensures
        is_settlement_of(old(entries)@, final(entries)@, mint),
        all_settled(final(entries)@),
{
    let ghost pre = entries@;
    let n = entries.len();

    let mut total: u128 = 0;
    let mut k: usize = 0;
    assert(pre.take(0) =~= Seq::<Application>::empty());
    while k < n
        invariant
            k <= n,
            n == entries@.len(),
            entries@ == pre,
            total as int == sum_points(pre.take(k as int)),
            total as int <= k as int * (u64::MAX as int),
        decreases n - k,
    {
        proof {
            lemma_sum_points_take_succ(pre, k as int);
        }
        total = total + entries[k].points as u128;
        k = k + 1;
    }
    assert(pre.take(n as int) =~= pre);
    let ghost gtotal = sum_points(pre);
    let ghost divisor = ratio_divisor(gtotal);
    proof {
        lemma_sum_points_nonneg(pre);
    }

    let mut parts_acc: u32 = 0;
    let mut all_pay: u64 = 0;
    let mut i: usize = 0;
    assert(entries@.take(0) =~= Seq::<Application>::empty());
    while i < n - 1
        invariant
            i < n,
            n == entries@.len(),
            n == pre.len(),
            total as int == gtotal,
            gtotal == sum_points(pre),
            gtotal >= 0,
            divisor == ratio_divisor(gtotal),
            all_open(pre),
            forall|k: int| i <= k < n ==> entries@[k] == pre[k],
            forall|k: int| 0 <= k < i ==> entries@[k] == settled_entry(pre[k], gtotal, mint),
            parts_acc as int == sum_parts(entries@.take(i as int)),
            all_pay as int == sum_takes(entries@.take(i as int)),
            parts_acc as int <= (sum_points(pre.take(i as int)) * BILLION) / divisor,
            parts_acc <= BILLION,
            all_pay as int <= scaled_amount(parts_acc as int, mint as int),
            all_pay <= mint,
        decreases n - 1 - i,
    {
        let ghost s_i = sum_points(pre.take(i as int));
        let p = entries[i].points;
        proof {
            lemma_sum_points_take_succ(pre, i as int);
            lemma_sum_points_nonneg(pre.take(i as int));
            lemma_sum_points_prefix_le(pre, i as int + 1);
            assert(p as int <= gtotal);
            if gtotal == 0 {
                assert(p == 0);
            }
        }
        let prop = Proportion::from_rational(p, total);
        let take = prop.mul_floor(mint);
        let ghost before = entries@;
        let account = entries[i].account;
        entries[i] = Application {
            account,
            points: p,
            settlement: Some(
                SettlementInfo { proportion: prop, pay_point: p, take_token: take },
            ),
        };
        proof {
            assert(entries@ == before.update(i as int, entries@[i as int]));
            assert(entries@[i as int] == settled_entry(pre[i as int], gtotal, mint));
            assert(entries@.take(i as int) =~= before.take(i as int));
            lemma_sum_parts_take_succ(entries@, i as int);
            lemma_sum_takes_take_succ(entries@, i as int);

            // The accumulated proportion stays under its prefix's exact share.
            lemma_mul_nonnegative(s_i, BILLION as int);
            lemma_mul_nonnegative(p as int, BILLION as int);
            lemma_div_sum_le(s_i * BILLION, p as int * BILLION, divisor);
            assert((s_i + p) * BILLION == s_i * BILLION + p as int * BILLION);
            assert(parts_acc as int + prop.parts as int <= (sum_points(
                pre.take(i as int + 1),
            ) * BILLION) / divisor);

            // ... and therefore under the unit fraction.
            lemma_sum_points_prefix_le(pre, i as int + 1);
            if gtotal == 0 {
                lemma_sum_points_nonneg(pre.take(i as int + 1));
                assert(sum_points(pre.take(i as int + 1)) == 0);
            }
            lemma_part_scaled_le(sum_points(pre.take(i as int + 1)), divisor, BILLION as int);

            // The accumulated payout stays under its proportion's share of
            // the mint, and therefore under the mint itself.
            lemma_mul_nonnegative(parts_acc as int, mint as int);
            lemma_mul_nonnegative(prop.parts as int, mint as int);
            lemma_div_sum_le(parts_acc as int * mint as int, prop.parts as int * mint as int, BILLION as int);
            lemma_mul_is_distributive_add_other_way(mint as int, parts_acc as int, prop.parts as int);
            lemma_part_scaled_le(parts_acc as int + prop.parts as int, BILLION as int, mint as int);
        }
        parts_acc = parts_acc + prop.parts;
        all_pay = all_pay + take;
        i = i + 1;
    }

    // The last, lowest-ranked entry absorbs the rounding residue.
    let last = n - 1;
    let p_last = entries[last].points;
    let account_last = entries[last].account;
    let ghost before_last = entries@;
    entries[last] = Application {
        account: account_last,
        points: p_last,
        settlement: Some(
            SettlementInfo {
                proportion: Proportion { parts: BILLION - parts_acc },
                pay_point: p_last,
                take_token: mint - all_pay,
            },
        ),
    };
    proof {
        assert(entries@ == before_last.update(last as int, entries@[last as int]));
        assert(entries@.take(last as int) =~= before_last.take(last as int));
        lemma_sum_parts_take_succ(entries@, last as int);
        lemma_sum_takes_take_succ(entries@, last as int);
        assert(entries@.take(n as int) =~= entries@);
    }
}

} // verus!
