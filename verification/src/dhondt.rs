//! The apportionment engine: aggregation of vote records into party totals
//! and the highest-averages (D'Hondt) seat distribution.
//!
//! Seats are awarded one at a time; each one goes to the party whose
//! quotient `total / (seats_won + 1)` (integer division) is currently the
//! largest. Ties are broken deterministically in favour of the party that
//! appeared first in the input.

use vstd::prelude::*;
use crate::table_columns::PartyResults;

verus! {

/// Why an apportionment request was rejected.
#[derive(Debug)]
pub enum DHondtError {
    ZeroSeats,
    NoVotes,
    NoParties,
}

/// The distinct party names occurring in `votes`, in first-seen order.
pub open spec fn parties_of(votes: Seq<PartyResults>) -> Seq<Seq<char>>
    decreases votes.len(),
{
    if votes.len() == 0 {
        Seq::empty()
    } else {
        let prev = parties_of(votes.drop_last());
        let p = votes.last().party@;
        if prev.contains(p) {
            prev
        } else {
            prev.push(p)
        }
    }
}

/// The sum of the vote counts of all records of `party`.
pub open spec fn party_total(votes: Seq<PartyResults>, party: Seq<char>) -> int
    decreases votes.len(),
{
    if votes.len() == 0 {
        0
    } else {
        party_total(votes.drop_last(), party) + if votes.last().party@ == party {
            votes.last().votes as int
        } else {
            0
        }
    }
}

/// The sum of the vote counts of all records.
pub open spec fn grand_total(votes: Seq<PartyResults>) -> int
    decreases votes.len(),
{
    if votes.len() == 0 {
        0
    } else {
        grand_total(votes.drop_last()) + votes.last().votes
    }
}

/// Extending the scanned prefix of `votes` by one record extends the
/// aggregates in the expected way.
pub proof fn lemma_take_step(votes: Seq<PartyResults>, i: int)
    requires
        0 <= i < votes.len(),
    ensures
        parties_of(votes.take(i + 1)) == (if parties_of(votes.take(i)).contains(votes[i].party@) {
            parties_of(votes.take(i))
        } else {
            parties_of(votes.take(i)).push(votes[i].party@)
        }),
        forall|p: Seq<char>|
            party_total(votes.take(i + 1), p) == party_total(votes.take(i), p) + (
            if votes[i].party@ == p {
                votes[i].votes as int
            } else {
                0
            }),
        grand_total(votes.take(i + 1)) == grand_total(votes.take(i)) + votes[i].votes,
{
    assert(votes.take(i + 1).drop_last() =~= votes.take(i));
    assert(votes.take(i + 1).last() == votes[i]);
    assert forall|p: Seq<char>|
        party_total(votes.take(i + 1), p) == party_total(votes.take(i), p) + (
        if votes[i].party@ == p {
            votes[i].votes as int
        } else {
            0
        }) by {
        assert(party_total(votes.take(i + 1), p) == party_total(votes.take(i + 1).drop_last(), p)
            + if votes.take(i + 1).last().party@ == p {
            votes.take(i + 1).last().votes as int
        } else {
            0
        });
    }
}

/// No party name occurs twice in the first-seen party list.
pub proof fn lemma_parties_no_dup(votes: Seq<PartyResults>)
    ensures
        parties_of(votes).no_duplicates(),
    decreases votes.len(),
{
    if votes.len() > 0 {
        lemma_parties_no_dup(votes.drop_last());
    }
}

/// A party's total never exceeds the grand total, and both are sums of
/// non-negative counts.
pub proof fn lemma_party_total_le_grand(votes: Seq<PartyResults>, p: Seq<char>)
    ensures
        0 <= party_total(votes, p),
        party_total(votes, p) <= grand_total(votes),
        0 <= grand_total(votes),
    decreases votes.len(),
{
    if votes.len() > 0 {
        lemma_party_total_le_grand(votes.drop_last(), p);
    }
}

/// The grand total of a prefix never exceeds the grand total of the whole.
pub proof fn lemma_grand_total_take(votes: Seq<PartyResults>, i: int)
    requires
        0 <= i <= votes.len(),
    ensures
        grand_total(votes.take(i)) <= grand_total(votes),
    decreases votes.len() - i,
{
    if i < votes.len() {
        lemma_take_step(votes, i);
        lemma_grand_total_take(votes, i + 1);
    } else {
        assert(votes.take(i) =~= votes);
    }
}

/// A party that never occurs in the records has a zero total.
pub proof fn lemma_absent_party_total_zero(votes: Seq<PartyResults>, p: Seq<char>)
    requires
        !parties_of(votes).contains(p),
    ensures
        party_total(votes, p) == 0,
    decreases votes.len(),
{
    if votes.len() > 0 {
        let prev = parties_of(votes.drop_last());
        assert(parties_of(votes).contains(votes.last().party@)) by {
            if !prev.contains(votes.last().party@) {
                assert(parties_of(votes).last() == votes.last().party@);
            } else {
                let j = choose|j: int|
                    0 <= j < prev.len() && prev[j] == votes.last().party@;
                assert(parties_of(votes)[j] == votes.last().party@);
            }
        }
        assert(!prev.contains(p)) by {
            if prev.contains(p) {
                let j = choose|j: int| 0 <= j < prev.len() && prev[j] == p;
                assert(parties_of(votes)[j] == p);
            }
        }
        lemma_absent_party_total_zero(votes.drop_last(), p);
    }
}

/// The grand total is zero exactly when every single record has zero votes.
pub proof fn lemma_grand_zero(votes: Seq<PartyResults>)
    ensures
        grand_total(votes) == 0 <==> (forall|k: int|
            0 <= k < votes.len() ==> (#[trigger] votes[k]).votes == 0),
    decreases votes.len(),
{
    if votes.len() > 0 {
        lemma_grand_zero(votes.drop_last());
        lemma_party_total_le_grand(votes.drop_last(), Seq::empty());
        assert(forall|k: int|
            0 <= k < votes.len() - 1 ==> votes.drop_last()[k] == (#[trigger] votes[k]));
    }
}

/// A single record's votes never exceed the grand total.
pub proof fn lemma_record_le_grand(votes: Seq<PartyResults>, i: int)
    requires
        0 <= i < votes.len(),
    ensures
        votes[i].votes as int <= grand_total(votes),
    decreases votes.len(),
{
    if i == votes.len() - 1 {
        lemma_party_total_le_grand(votes.drop_last(), Seq::empty());
    } else {
        lemma_record_le_grand(votes.drop_last(), i);
        assert(votes.drop_last()[i] == votes[i]);
    }
}

/// One party's name with its aggregated vote count.
pub struct PartyTally {
    pub party: String,
    pub total: u32,
}

/// The party names of a tally list.
pub open spec fn tally_parties(r: Seq<PartyTally>) -> Seq<Seq<char>> {
    r.map_values(|t: PartyTally| t.party@)
}

/// The totals of a tally list.
pub open spec fn spec_totals(r: Seq<PartyTally>) -> Seq<int> {
    r.map_values(|t: PartyTally| t.total as int)
}

/// Aggregates the vote records into one tally per party, parties in
/// first-seen order, each with the sum of its candidates' votes.
pub fn party_tallies(votes: &Vec<PartyResults>) -> (r: Vec<PartyTally>)
    requires
        grand_total(votes@) <= u32::MAX as int,
    ensures
        tally_parties(r@) == parties_of(votes@),
        forall|k: int|
            0 <= k < r@.len() ==> (#[trigger] r@[k]).total as int == party_total(
                votes@,
                r@[k].party@,
            ),
{
    let mut r: Vec<PartyTally> = Vec::new();
    let n: usize = votes.len();
    let mut i: usize = 0;
    proof {
        assert(votes@.take(0) =~= Seq::<PartyResults>::empty());
        assert(tally_parties(r@) =~= parties_of(votes@.take(0)));
    }
    while i < n
        invariant
            n == votes@.len(),
            i <= n,
            grand_total(votes@) <= u32::MAX as int,
            tally_parties(r@) == parties_of(votes@.take(i as int)),
            forall|k: int|
                0 <= k < r@.len() ==> (#[trigger] r@[k]).total as int == party_total(
                    votes@.take(i as int),
                    r@[k].party@,
                ),
        decreases n - i,
    {
        let ghost pre = votes@.take(i as int);
        let ghost post = votes@.take(i as int + 1);
        let ghost p = votes@[i as int].party@;
        proof {
            lemma_take_step(votes@, i as int);
        }
        let mut j: usize = 0;
        while j < r.len() && !(r[j].party == votes[i].party)
            invariant
                i < n,
                n == votes@.len(),
                j <= r@.len(),
                forall|k: int| 0 <= k < j ==> (#[trigger] r@[k]).party@ != votes@[i as int].party@,
            decreases r@.len() - j,
        {
            j += 1;
        }
        let v = votes[i].votes;
        if j < r.len() {
            proof {
                assert(r@[j as int].party@ == p);
                assert(parties_of(pre).contains(p)) by {
                    assert(tally_parties(r@)[j as int] == p);
                }
                lemma_party_total_le_grand(post, p);
                lemma_grand_total_take(votes@, i as int + 1);
                lemma_parties_no_dup(pre);
            }
            let t = r[j].total;
            r[j].total = t + v;
            proof {
                assert(tally_parties(r@) =~= parties_of(post));
                assert forall|k: int|
                    0 <= k < r@.len() implies (#[trigger] r@[k]).total as int == party_total(
                    post,
                    r@[k].party@,
                ) by {
                    if k != j {
                        assert(tally_parties(r@)[k] == r@[k].party@);
                        assert(tally_parties(r@)[j as int] == p);
                        assert(r@[k].party@ != p);
                    }
                }
            }
        } else {
            proof {
                assert(!parties_of(pre).contains(p)) by {
                    if parties_of(pre).contains(p) {
                        let k = choose|k: int|
                            0 <= k < parties_of(pre).len() && parties_of(pre)[k] == p;
                        assert(tally_parties(r@)[k] == p);
                        assert(r@[k].party@ == p);
                    }
                }
                lemma_absent_party_total_zero(pre, p);
            }
            r.push(PartyTally { party: votes[i].party.clone(), total: v });
            proof {
                assert(tally_parties(r@) =~= parties_of(post));
            }
        }
        i += 1;
    }
    proof {
        assert(votes@.take(n as int) =~= votes@);
    }
    r
}

/// The D'Hondt quotient of a party with `total` votes and `seats` seats won.
pub open spec fn quotient(total: int, seats: int) -> int {
    total / (seats + 1)
}

/// The first index in `[0, n)` whose quotient is maximal.
pub open spec fn best_upto(totals: Seq<int>, seats: Seq<int>, n: int) -> int
    decreases n,
{
    if n <= 1 {
        0
    } else {
        let b = best_upto(totals, seats, n - 1);
        if quotient(totals[n - 1], seats[n - 1]) > quotient(totals[b], seats[b]) {
            n - 1
        } else {
            b
        }
    }
}

/// The party awarded the next seat: the first one with the maximal quotient.
pub open spec fn best_party(totals: Seq<int>, seats: Seq<int>) -> int {
    best_upto(totals, seats, totals.len() as int)
}

/// Per-party seat counts after `k` rounds of awarding one seat each to the
/// party with the currently largest quotient.
pub open spec fn dhondt_seats(totals: Seq<int>, k: nat) -> Seq<int>
    decreases k,
{
    if k == 0 {
        Seq::new(totals.len(), |x: int| 0int)
    } else {
        let prev = dhondt_seats(totals, (k - 1) as nat);
        let b = best_party(totals, prev);
        prev.update(b, prev[b] + 1)
    }
}

/// The sum of a sequence of integers.
pub open spec fn seq_sum(s: Seq<int>) -> int
    decreases s.len(),
{
    if s.len() == 0 {
        0
    } else {
        seq_sum(s.drop_last()) + s.last()
    }
}

/// The chosen index is in range, carries the maximal quotient over the
/// scanned range, and is the first index to do so.
pub proof fn lemma_best_upto(totals: Seq<int>, seats: Seq<int>, n: int)
    requires
        1 <= n <= totals.len(),
    ensures
        0 <= best_upto(totals, seats, n) < n,
        forall|j: int|
            0 <= j < n ==> quotient(#[trigger] totals[j], seats[j]) <= quotient(
                totals[best_upto(totals, seats, n)],
                seats[best_upto(totals, seats, n)],
            ),
        forall|j: int|
            0 <= j < best_upto(totals, seats, n) ==> quotient(#[trigger] totals[j], seats[j])
                < quotient(totals[best_upto(totals, seats, n)], seats[best_upto(totals, seats, n)]),
    decreases n,
{
    if n > 1 {
        lemma_best_upto(totals, seats, n - 1);
    }
}

proof fn lemma_seq_sum_zeros(n: nat)
    ensures
        seq_sum(Seq::new(n, |x: int| 0int)) == 0,
    decreases n,
{
    if n > 0 {
        assert(Seq::new(n, |x: int| 0int).drop_last() =~= Seq::new((n - 1) as nat, |x: int| 0int));
        lemma_seq_sum_zeros((n - 1) as nat);
    }
}

proof fn lemma_seq_sum_update(s: Seq<int>, i: int, v: int)
    requires
        0 <= i < s.len(),
    ensures
        seq_sum(s.update(i, v)) == seq_sum(s) - s[i] + v,
    decreases s.len(),
{
    if i == s.len() - 1 {
        assert(s.update(i, v).drop_last() =~= s.drop_last());
    } else {
        assert(s.update(i, v).drop_last() =~= s.drop_last().update(i, v));
        assert(s.update(i, v).last() == s.last());
        lemma_seq_sum_update(s.drop_last(), i, v);
    }
}

proof fn lemma_seq_sum_nonneg(s: Seq<int>)
    requires
        forall|j: int| 0 <= j < s.len() ==> s[j] >= 0,
    ensures
        seq_sum(s) >= 0,
    decreases s.len(),
{
    if s.len() > 0 {
        lemma_seq_sum_nonneg(s.drop_last());
    }
}

/// Every entry of a non-negative sequence is bounded by the sequence's sum.
pub proof fn lemma_seq_sum_elem(s: Seq<int>, i: int)
    requires
        0 <= i < s.len(),
        forall|j: int| 0 <= j < s.len() ==> s[j] >= 0,
    ensures
        s[i] <= seq_sum(s),
    decreases s.len(),
{
    if i == s.len() - 1 {
        lemma_seq_sum_nonneg(s.drop_last());
    } else {
        lemma_seq_sum_elem(s.drop_last(), i);
    }
}

/// After `k` rounds the seat counts have one entry per party, are
/// non-negative, and sum to exactly `k`.
pub proof fn lemma_dhondt_basic(totals: Seq<int>, k: nat)
    requires
        totals.len() > 0,
    ensures
        dhondt_seats(totals, k).len() == totals.len(),
        forall|i: int| 0 <= i < totals.len() ==> #[trigger] dhondt_seats(totals, k)[i] >= 0,
        seq_sum(dhondt_seats(totals, k)) == k,
    decreases k,
{
    if k == 0 {
        lemma_seq_sum_zeros(totals.len());
    } else {
        let prev = dhondt_seats(totals, (k - 1) as nat);
        lemma_dhondt_basic(totals, (k - 1) as nat);
        lemma_best_upto(totals, prev, totals.len() as int);
        let b = best_party(totals, prev);
        lemma_seq_sum_update(prev, b, prev[b] + 1);
    }
}

/// Law: continuing an allocation by one more round never decreases any
/// party's seat count.
pub proof fn lemma_allocation_monotonic(totals: Seq<int>, k: nat)
    requires
        totals.len() > 0,
    ensures
        forall|i: int|
            0 <= i < totals.len() ==> #[trigger] dhondt_seats(totals, k)[i] <= dhondt_seats(
                totals,
                (k + 1) as nat,
            )[i],
{
    let prev = dhondt_seats(totals, k);
    lemma_dhondt_basic(totals, k);
    lemma_best_upto(totals, prev, totals.len() as int);
}

/// Distributes `seat_count` seats over the tallied parties: each round the
/// first party with the largest quotient `total / (seats + 1)` gains a seat.
pub fn allocate_seats(tallies: &Vec<PartyTally>, seat_count: u32) -> (seats: Vec<u32>)
    requires
        tallies@.len() > 0,
    ensures
        seats@.map_values(|s: u32| s as int) == dhondt_seats(
            spec_totals(tallies@),
            seat_count as nat,
        ),
        seats@.len() == tallies@.len(),
{
    let ghost totals = spec_totals(tallies@);
    let n: usize = tallies.len();
    let mut seats: Vec<u32> = Vec::new();
    let mut z: usize = 0;
    while z < n
        invariant
            z <= n,
            seats@.len() == z,
            forall|t: int| 0 <= t < z ==> seats@[t] == 0u32,
        decreases n - z,
    {
        seats.push(0);
        z += 1;
    }
    proof {
        assert(totals.len() == n) by {
            assert(spec_totals(tallies@).len() == tallies@.len());
        }
        assert(seats@.map_values(|s: u32| s as int) =~= dhondt_seats(totals, 0));
    }
    let mut assigned: u32 = 0;
    while assigned < seat_count
        invariant
            n == tallies@.len(),
            totals == spec_totals(tallies@),
            totals.len() == n,
            n > 0,
            assigned <= seat_count,
            seats@.len() == n,
            seats@.map_values(|s: u32| s as int) == dhondt_seats(totals, assigned as nat),
        decreases seat_count - assigned,
    {
        let ghost cur = dhondt_seats(totals, assigned as nat);
        proof {
            lemma_dhondt_basic(totals, assigned as nat);
            lemma_best_upto(totals, cur, n as int);
        }
        let mut best: usize = 0;
        let mut j: usize = 1;
        while j < n
            invariant
                1 <= j <= n,
                n == tallies@.len(),
                seats@.len() == n,
                totals == spec_totals(tallies@),
                totals.len() == n,
                cur == seats@.map_values(|s: u32| s as int),
                forall|t: int| 0 <= t < n ==> #[trigger] cur[t] >= 0,
                seq_sum(cur) == assigned,
                assigned < seat_count,
                best < j,
                best as int == best_upto(totals, cur, j as int),
            decreases n - j,
        {
            proof {
                lemma_seq_sum_elem(cur, j as int);
                lemma_seq_sum_elem(cur, best as int);
                assert(cur[j as int] == seats@[j as int] as int);
                assert(cur[best as int] == seats@[best as int] as int);
                assert(totals[j as int] == tallies@[j as int].total as int);
                assert(totals[best as int] == tallies@[best as int].total as int);
            }
            let qj = tallies[j].total / (seats[j] + 1);
            let qb = tallies[best].total / (seats[best] + 1);
            if qj > qb {
                best = j;
            }
            j += 1;
        }
        proof {
            lemma_seq_sum_elem(cur, best as int);
            assert(cur[best as int] == seats@[best as int] as int);
        }
        let t = seats[best];
        seats[best] = t + 1;
        assigned += 1;
        proof {
            assert(seats@.map_values(|s: u32| s as int) =~= cur.update(
                best as int,
                cur[best as int] + 1,
            ));
            assert(best as int == best_party(totals, cur));
        }
    }
    seats
}

/// Candidate `i` is ranked strictly ahead of candidate `j`: more votes, or
/// equal votes and an earlier position in the input.
pub open spec fn cand_before(votes: Seq<PartyResults>) -> spec_fn(int, int) -> bool {
    |i: int, j: int|
        votes[i].votes > votes[j].votes || (votes[i].votes == votes[j].votes && i < j)
}

/// The candidate ranking order is a strict total order.
pub proof fn lemma_cand_before_strict(votes: Seq<PartyResults>)
    ensures
        crate::ranking::strict_order(cand_before(votes)),
{
}

/// The positions in `votes` of the records of `party`, in input order.
pub open spec fn member_indices(votes: Seq<PartyResults>, party: Seq<char>) -> Seq<int>
    decreases votes.len(),
{
    if votes.len() == 0 {
        Seq::empty()
    } else {
        let prev = member_indices(votes.drop_last(), party);
        if votes.last().party@ == party {
            prev.push(votes.len() - 1)
        } else {
            prev
        }
    }
}

proof fn lemma_member_take_step(votes: Seq<PartyResults>, party: Seq<char>, i: int)
    requires
        0 <= i < votes.len(),
    ensures
        member_indices(votes.take(i + 1), party) == (if votes[i].party@ == party {
            member_indices(votes.take(i), party).push(i)
        } else {
            member_indices(votes.take(i), party)
        }),
{
    assert(votes.take(i + 1).drop_last() =~= votes.take(i));
    assert(votes.take(i + 1).last() == votes[i]);
}

/// Member positions are in range, point at records of the party, and are
/// strictly increasing (so in particular there are no duplicates).
pub proof fn lemma_member_indices(votes: Seq<PartyResults>, party: Seq<char>)
    ensures
        forall|t: int|
            0 <= t < member_indices(votes, party).len() ==> 0 <= #[trigger] member_indices(
                votes,
                party,
            )[t] < votes.len() && votes[member_indices(votes, party)[t]].party@ == party,
        forall|a: int, b: int|
            0 <= a < b < member_indices(votes, party).len() ==> member_indices(votes, party)[a]
                < member_indices(votes, party)[b],
        member_indices(votes, party).no_duplicates(),
    decreases votes.len(),
{
    if votes.len() > 0 {
        lemma_member_indices(votes.drop_last(), party);
        let prev = member_indices(votes.drop_last(), party);
        assert(forall|t: int|
            0 <= t < prev.len() ==> votes.drop_last()[#[trigger] prev[t]] == votes[prev[t]]);
    }
}

/// The positions of `party`'s records arranged best-first: descending vote
/// count, input order among equal vote counts.
pub open spec fn ranked_indices(votes: Seq<PartyResults>, party: Seq<char>) -> Seq<int> {
    crate::ranking::sel_order(cand_before(votes), member_indices(votes, party))
}

pub open spec fn spec_min(a: int, b: int) -> int {
    if a < b {
        a
    } else {
        b
    }
}

/// The names of the candidates of `party` that win seats: the first
/// `nseats` of the ranking, or all of them if the party has fewer
/// candidates than seats.
pub open spec fn elected_names(votes: Seq<PartyResults>, party: Seq<char>, nseats: int) -> Seq<
    Seq<char>,
> {
    let ranked = ranked_indices(votes, party);
    ranked.take(spec_min(nseats, ranked.len() as int)).map_values(|i: int| votes[i].name@)
}

/// A sequence of `usize` values as mathematical integers.
pub open spec fn to_int_seq(s: Seq<usize>) -> Seq<int> {
    s.map_values(|u: usize| u as int)
}

/// The names of a slate as character sequences.
pub open spec fn view_names(s: Seq<String>) -> Seq<Seq<char>> {
    s.map_values(|x: String| x@)
}

/// Ranks the candidates of one party: best first, by descending vote count,
/// input order among equal vote counts.
pub fn rank_party(votes: &Vec<PartyResults>, party: &String) -> (r: Vec<usize>)
    ensures
        to_int_seq(r@) == ranked_indices(votes@, party@),
        forall|t: int| 0 <= t < r@.len() ==> (#[trigger] r@[t]) < votes@.len(),
{
    let n: usize = votes.len();
    let mut rem: Vec<usize> = Vec::new();
    let mut i: usize = 0;
    proof {
        assert(votes@.take(0) =~= Seq::<PartyResults>::empty());
        assert(to_int_seq(rem@) =~= member_indices(votes@.take(0), party@));
    }
    while i < n
        invariant
            n == votes@.len(),
            i <= n,
            to_int_seq(rem@) == member_indices(votes@.take(i as int), party@),
            forall|t: int| 0 <= t < rem@.len() ==> (#[trigger] rem@[t]) < i,
        decreases n - i,
    {
        proof {
            lemma_member_take_step(votes@, party@, i as int);
        }
        if votes[i].party == *party {
            rem.push(i);
            proof {
                assert(to_int_seq(rem@) =~= member_indices(votes@.take(i as int + 1), party@));
            }
        }
        i += 1;
    }
    proof {
        assert(votes@.take(n as int) =~= votes@);
    }
    let ghost cb = cand_before(votes@);
    let ghost members0 = to_int_seq(rem@);
    proof {
        lemma_cand_before_strict(votes@);
        assert(to_int_seq(Seq::<usize>::empty()) =~= Seq::<int>::empty());
        assert(Seq::<int>::empty() + crate::ranking::sel_order(cb, members0)
            =~= crate::ranking::sel_order(cb, members0));
    }
    let mut out: Vec<usize> = Vec::new();
    while rem.len() > 0
        invariant
            n == votes@.len(),
            cb == cand_before(votes@),
            crate::ranking::strict_order(cb),
            to_int_seq(out@) + crate::ranking::sel_order(cb, to_int_seq(rem@))
                == crate::ranking::sel_order(cb, members0),
            forall|t: int| 0 <= t < rem@.len() ==> (#[trigger] rem@[t]) < n,
            forall|t: int| 0 <= t < out@.len() ==> (#[trigger] out@[t]) < n,
        decreases rem@.len(),
    {
        let ghost rem0 = to_int_seq(rem@);
        let ghost out0 = to_int_seq(out@);
        let mut bp: usize = 0;
        let mut j: usize = 1;
        while j < rem.len()
            invariant
                n == votes@.len(),
                cb == cand_before(votes@),
                rem@.len() > 0,
                rem0 == to_int_seq(rem@),
                1 <= j <= rem@.len(),
                (bp as int) < (j as int),
                bp as int == crate::ranking::pick_pos(cb, rem0, j as int),
                forall|t: int| 0 <= t < rem@.len() ==> (#[trigger] rem@[t]) < n,
            decreases rem@.len() - j,
        {
            let a = rem[j];
            let b = rem[bp];
            proof {
                assert(rem0[j as int] == a as int);
                assert(rem0[bp as int] == b as int);
            }
            let picked = votes[a].votes > votes[b].votes || (votes[a].votes == votes[b].votes
                && a < b);
            proof {
                assert(picked == cb(a as int, b as int));
            }
            if picked {
                bp = j;
            }
            j += 1;
        }
        proof {
            crate::ranking::lemma_pick_pos(cb, rem0, rem0.len() as int);
        }
        let x = rem.remove(bp);
        out.push(x);
        proof {
            assert(to_int_seq(rem@) =~= rem0.remove(bp as int));
            assert(to_int_seq(out@) =~= out0.push(x as int));
            assert(crate::ranking::sel_order(cb, rem0) == seq![rem0[bp as int]]
                + crate::ranking::sel_order(cb, rem0.remove(bp as int)));
            assert(to_int_seq(out@) + crate::ranking::sel_order(cb, to_int_seq(rem@))
                =~= out0 + crate::ranking::sel_order(cb, rem0));
        }
    }
    proof {
        assert(to_int_seq(rem@) =~= Seq::<int>::empty());
        assert(to_int_seq(out@) + crate::ranking::sel_order(cb, to_int_seq(rem@))
            =~= to_int_seq(out@));
    }
    out
}

/// One party's share of a successful apportionment: the allocated seat
/// count and the candidates, best first, who fill those seats.
pub struct ElectedSlate {
    pub party: String,
    pub seats: u32,
    pub elected: Vec<String>,
}

/// The per-party totals in first-seen party order.
pub open spec fn party_totals_spec(votes: Seq<PartyResults>) -> Seq<int> {
    parties_of(votes).map_values(|p: Seq<char>| party_total(votes, p))
}

/// The per-party seat counts awarded for `votes` after `k` rounds.
pub open spec fn seat_counts_spec(votes: Seq<PartyResults>, k: nat) -> Seq<int> {
    dhondt_seats(party_totals_spec(votes), k)
}

/// The seat counts recorded in a slate list.
pub open spec fn slate_seat_counts(s: Seq<ElectedSlate>) -> Seq<int> {
    s.map_values(|e: ElectedSlate| e.seats as int)
}

/// With at least one record there is at least one party.
pub proof fn lemma_parties_nonempty(votes: Seq<PartyResults>)
    requires
        votes.len() > 0,
    ensures
        parties_of(votes).len() > 0,
{
}

/// Law: the ranking of a party's candidates is a permutation of that
/// party's records, strictly ordered: descending vote count, input order
/// among equal counts. The elected list is the allocated seat count long
/// (capped by the party's number of candidates), and every elected
/// candidate has at least as many votes as every candidate of the same
/// party who is left out.
pub proof fn lemma_elected_dominate(votes: Seq<PartyResults>, party: Seq<char>, nseats: int)
    requires
        nseats >= 0,
    ensures
        ranked_indices(votes, party).to_multiset() == member_indices(votes, party).to_multiset(),
        ranked_indices(votes, party).len() == member_indices(votes, party).len(),
        elected_names(votes, party, nseats).len() == spec_min(
            nseats,
            ranked_indices(votes, party).len() as int,
        ),
        forall|a: int, b: int|
            0 <= a < spec_min(nseats, ranked_indices(votes, party).len() as int) <= b
                < ranked_indices(votes, party).len() ==> votes[#[trigger] ranked_indices(
                votes,
                party,
            )[a]].votes >= votes[#[trigger] ranked_indices(votes, party)[b]].votes,
{
    let cb = cand_before(votes);
    let members = member_indices(votes, party);
    let ranked = ranked_indices(votes, party);
    lemma_cand_before_strict(votes);
    lemma_member_indices(votes, party);
    crate::ranking::lemma_sel_order_permutes(cb, members);
    crate::ranking::lemma_sel_order_sorted(cb, members);
    let m = spec_min(nseats, ranked.len() as int);
    assert(elected_names(votes, party, nseats).len() == ranked.take(m).len());
    assert forall|a: int, b: int| 0 <= a < m <= b < ranked.len() implies votes[#[trigger] ranked[a]].votes
        >= votes[#[trigger] ranked[b]].votes by {
        if a < b {
            assert(cb(ranked[a], ranked[b]));
        }
    }
}

/// Law: within a party the ranking is sorted by descending vote count.
pub proof fn lemma_ranked_sorted(votes: Seq<PartyResults>, party: Seq<char>)
    ensures
        forall|a: int, b: int|
            0 <= a < b < ranked_indices(votes, party).len() ==> votes[#[trigger] ranked_indices(
                votes,
                party,
            )[a]].votes >= votes[#[trigger] ranked_indices(votes, party)[b]].votes,
{
    let cb = cand_before(votes);
    let members = member_indices(votes, party);
    lemma_cand_before_strict(votes);
    lemma_member_indices(votes, party);
    crate::ranking::lemma_sel_order_sorted(cb, members);
    assert forall|a: int, b: int|
        0 <= a < b < ranked_indices(votes, party).len() implies votes[#[trigger] ranked_indices(
        votes,
        party,
    )[a]].votes >= votes[#[trigger] ranked_indices(votes, party)[b]].votes by {
        assert(cb(ranked_indices(votes, party)[a], ranked_indices(votes, party)[b]));
    }
}

/// Runs the full apportionment: validates the request, aggregates the vote
/// records into party totals, distributes `seat_count` seats by the
/// highest-averages rule, and selects each party's elected candidates.
///
/// The result lists every party in first-seen input order with its
/// allocated seat count and its elected candidates, best first. The three
/// rejections are checked in a fixed order: a zero seat count, then an
/// empty record list, then records that carry no votes at all.
pub fn calculate(seat_count: u32, votes: &Vec<PartyResults>) -> (r: Result<
    Vec<ElectedSlate>,
    DHondtError,
>)
    requires
        grand_total(votes@) <= u32::MAX as int,
    ensures
        match r {
            Result::Err(e) => {
                &&& (e is ZeroSeats <==> seat_count == 0)
                &&& (e is NoParties <==> (seat_count > 0 && votes@.len() == 0))
                &&& (e is NoVotes <==> (seat_count > 0 && votes@.len() > 0 && grand_total(votes@)
                    == 0))
            },
            Result::Ok(slates) => {
                &&& seat_count > 0
                &&& votes@.len() > 0
                &&& grand_total(votes@) > 0
                &&& slates@.len() == parties_of(votes@).len()
                &&& forall|k: int|
                    0 <= k < slates@.len() ==> (#[trigger] slates@[k]).party@ == parties_of(
                        votes@,
                    )[k]
                &&& forall|k: int|
                    0 <= k < slates@.len() ==> (#[trigger] slates@[k]).seats as int
                        == seat_counts_spec(votes@, seat_count as nat)[k]
                &&& forall|k: int|
                    0 <= k < slates@.len() ==> view_names((#[trigger] slates@[k]).elected@)
                        == elected_names(
                        votes@,
                        parties_of(votes@)[k],
                        seat_counts_spec(votes@, seat_count as nat)[k],
                    )
                &&& seq_sum(slate_seat_counts(slates@)) == seat_count as int
            },
        },
{
    if seat_count == 0 {
        return Result::Err(DHondtError::ZeroSeats);
    }
    if votes.len() == 0 {
        return Result::Err(DHondtError::NoParties);
    }
    let mut any: bool = false;
    let mut z: usize = 0;
    while z < votes.len()
        invariant
            z <= votes@.len(),
            !any ==> (forall|k: int| 0 <= k < z ==> (#[trigger] votes@[k]).votes == 0),
            any ==> grand_total(votes@) > 0,
        decreases votes@.len() - z,
    {
        if votes[z].votes > 0 {
            proof {
                lemma_grand_zero(votes@);
                lemma_party_total_le_grand(votes@, Seq::empty());
            }
            any = true;
        }
        z += 1;
    }
    if !any {
        proof {
            lemma_grand_zero(votes@);
        }
        return Result::Err(DHondtError::NoVotes);
    }
    let tallies = party_tallies(votes);
    proof {
        lemma_parties_nonempty(votes@);
        assert(spec_totals(tallies@) =~= party_totals_spec(votes@)) by {
            assert forall|k: int|
                0 <= k < tallies@.len() implies spec_totals(tallies@)[k] == party_totals_spec(
                votes@,
            )[k] by {
                assert(tally_parties(tallies@)[k] == tallies@[k].party@);
            }
        }
        lemma_dhondt_basic(party_totals_spec(votes@), seat_count as nat);
    }
    let seats = allocate_seats(&tallies, seat_count);
    let ghost counts = seat_counts_spec(votes@, seat_count as nat);
    let mut slates: Vec<ElectedSlate> = Vec::new();
    let n: usize = tallies.len();
    let mut k: usize = 0;
    while k < n
        invariant
            n == tallies@.len(),
            k <= n,
            seats@.len() == n,
            tally_parties(tallies@) == parties_of(votes@),
            counts == seat_counts_spec(votes@, seat_count as nat),
            seats@.map_values(|s: u32| s as int) == counts,
            slates@.len() == k,
            grand_total(votes@) <= u32::MAX as int,
            forall|t: int|
                0 <= t < k ==> (#[trigger] slates@[t]).party@ == parties_of(votes@)[t],
            forall|t: int| 0 <= t < k ==> (#[trigger] slates@[t]).seats as int == counts[t],
            forall|t: int|
                0 <= t < k ==> view_names((#[trigger] slates@[t]).elected@) == elected_names(
                    votes@,
                    parties_of(votes@)[t],
                    counts[t],
                ),
        decreases n - k,
    {
        let ghost party = tallies@[k as int].party@;
        proof {
            assert(tally_parties(tallies@)[k as int] == party);
        }
        let ranked = rank_party(votes, &tallies[k].party);
        let sk = seats[k];
        proof {
            assert(counts[k as int] == sk as int);
            assert(to_int_seq(ranked@).len() == ranked@.len());
        }
        let nelect: usize = if (sk as usize) < ranked.len() {
            sk as usize
        } else {
            ranked.len()
        };
        proof {
            assert(nelect as int == spec_min(sk as int, ranked@.len() as int));
        }
        let ghost rints = to_int_seq(ranked@);
        let mut elected: Vec<String> = Vec::new();
        let mut t: usize = 0;
        proof {
            assert(view_names(elected@) =~= rints.take(0).map_values(|i: int| votes@[i].name@));
        }
        while t < nelect
            invariant
                t <= nelect,
                nelect <= ranked@.len(),
                rints == to_int_seq(ranked@),
                forall|u: int| 0 <= u < ranked@.len() ==> (#[trigger] ranked@[u]) < votes@.len(),
                view_names(elected@) == rints.take(t as int).map_values(
                    |i: int| votes@[i].name@,
                ),
            decreases nelect - t,
        {
            let idx = ranked[t];
            elected.push(votes[idx].name.clone());
            proof {
                assert(rints[t as int] == idx as int);
                assert(rints.take(t as int).map_values(|i: int| votes@[i].name@).len() == t);
                assert(view_names(elected@)[t as int] == votes@[idx as int].name@);
                assert(forall|u: int|
                    0 <= u < t ==> #[trigger] view_names(elected@)[u] == rints.take(t as int)
                        .map_values(|i: int| votes@[i].name@)[u]);
                assert(rints.take(t as int + 1).map_values(|i: int| votes@[i].name@)[t as int]
                    == votes@[idx as int].name@);
                assert(view_names(elected@) =~~= rints.take(t as int + 1).map_values(
                    |i: int| votes@[i].name@,
                ));
            }
            t += 1;
        }
        proof {
            assert(view_names(elected@) == elected_names(votes@, party, counts[k as int])) by {
                assert(rints == ranked_indices(votes@, party));
                assert(nelect as int == spec_min(counts[k as int], rints.len() as int));
            }
        }
        slates.push(ElectedSlate { party: tallies[k].party.clone(), seats: sk, elected });
        k += 1;
    }
    proof {
        assert(slate_seat_counts(slates@) =~= counts);
        lemma_dhondt_basic(party_totals_spec(votes@), seat_count as nat);
    }
    Result::Ok(slates)
}

} // verus!
