//! Rendering of a seat distribution as column-aligned plain text.
//!
//! The report opens with the seat count and the grand total of votes, then
//! lists each party in descending order of total votes (first-seen input
//! order among ties), its candidates best first under it. Every line
//! carries a label, the vote count grouped in thousands, a percentage of
//! the grand total, and either the party's seat count or the candidate's
//! status marker. Columns are padded to the widest entry of the whole
//! report: labels to the left, the other columns to the right, with a
//! four-space gutter.

use vstd::prelude::*;
use vstd::string::StrSliceExecFns;
use vstd::string::StringExecFns;
use crate::table_columns::PartyResults;
use crate::dhondt::ElectedSlate;
use crate::dhondt::PartyTally;
use crate::dhondt::parties_of;
use crate::dhondt::party_total;
use crate::dhondt::grand_total;
use crate::dhondt::party_tallies;
use crate::dhondt::tally_parties;
use crate::dhondt::spec_totals;
use crate::dhondt::party_totals_spec;
use crate::dhondt::rank_party;
use crate::dhondt::ranked_indices;
use crate::dhondt::to_int_seq;
use crate::dhondt::view_names;
use crate::dhondt::lemma_take_step;
use crate::dhondt::lemma_grand_total_take;
use crate::dhondt::lemma_party_total_le_grand;
use crate::dhondt::lemma_record_le_grand;
use crate::dhondt::lemma_ranked_sorted;
use crate::dhondt::seq_sum;
use crate::numeric::format_num_spec;
use crate::numeric::format_num;
use crate::numeric::percent_string_spec;
use crate::numeric::percent_string;
use crate::numeric::pct_hundredths;
use crate::numeric::percentage;
use crate::numeric::dec_digits;
use crate::numeric::dec_string;
use crate::ranking::sel_order;
use crate::ranking::strict_order;
use crate::ranking::lemma_sel_order_permutes;
use crate::ranking::pick_pos;
use crate::ranking::lemma_pick_pos;

verus! {

/// One rendered report row before alignment: label, vote count,
/// percentage, and the seat count or status marker.
pub struct ReportLine {
    pub label: String,
    pub votes: String,
    pub percentage: String,
    pub marker: String,
}

/// The four columns of a report line, as character sequences.
pub open spec fn line_view(l: ReportLine) -> (Seq<char>, Seq<char>, Seq<char>, Seq<char>) {
    (l.label@, l.votes@, l.percentage@, l.marker@)
}

/// The rows of a line list.
pub open spec fn rows_view(s: Seq<ReportLine>) -> Seq<(Seq<char>, Seq<char>, Seq<char>, Seq<char>)> {
    s.map_values(|l: ReportLine| line_view(l))
}

/// Party `i` is displayed ahead of party `j`: a larger total, or an equal
/// total and an earlier first appearance in the input.
pub open spec fn display_before(totals: Seq<int>) -> spec_fn(int, int) -> bool {
    |i: int, j: int| totals[i] > totals[j] || (totals[i] == totals[j] && i < j)
}

/// The integers `0, 1, ..., n - 1`.
pub open spec fn range_seq(n: nat) -> Seq<int> {
    Seq::new(n, |i: int| i)
}

/// The party indices in display order: descending total votes, first-seen
/// input order among equal totals.
pub open spec fn display_order(totals: Seq<int>) -> Seq<int> {
    sel_order(display_before(totals), range_seq(totals.len()))
}

/// The display ranking order is a strict total order.
pub proof fn lemma_display_before_strict(totals: Seq<int>)
    ensures
        strict_order(display_before(totals)),
{
}

/// The elected names recorded for `p`: those of the first slate carrying
/// that party, or none when no slate does.
pub open spec fn slate_names_for(slates: Seq<ElectedSlate>, p: Seq<char>) -> Seq<Seq<char>>
    decreases slates.len(),
{
    if slates.len() == 0 {
        Seq::empty()
    } else if slates[0].party@ == p {
        view_names(slates[0].elected@)
    } else {
        slate_names_for(slates.drop_first(), p)
    }
}

/// The seat count recorded for `p`: that of the first slate carrying the
/// party, or zero when no slate does.
pub open spec fn slate_seats_for(slates: Seq<ElectedSlate>, p: Seq<char>) -> int
    decreases slates.len(),
{
    if slates.len() == 0 {
        0
    } else if slates[0].party@ == p {
        slates[0].seats as int
    } else {
        slate_seats_for(slates.drop_first(), p)
    }
}

proof fn lemma_slate_lookup(slates: Seq<ElectedSlate>, p: Seq<char>, ix: int)
    requires
        0 <= ix < slates.len(),
        slates[ix].party@ == p,
        forall|k: int| 0 <= k < ix ==> (#[trigger] slates[k]).party@ != p,
    ensures
        slate_names_for(slates, p) == view_names(slates[ix].elected@),
        slate_seats_for(slates, p) == slates[ix].seats as int,
    decreases ix,
{
    if ix > 0 {
        assert(forall|k: int|
            0 <= k < slates.len() - 1 ==> slates.drop_first()[k] == #[trigger] slates[k + 1]);
        lemma_slate_lookup(slates.drop_first(), p, ix - 1);
    }
}

proof fn lemma_slate_lookup_none(slates: Seq<ElectedSlate>, p: Seq<char>)
    requires
        forall|k: int| 0 <= k < slates.len() ==> (#[trigger] slates[k]).party@ != p,
    ensures
        slate_names_for(slates, p) == Seq::<Seq<char>>::empty(),
        slate_seats_for(slates, p) == 0,
    decreases slates.len(),
{
    if slates.len() > 0 {
        assert(forall|k: int|
            0 <= k < slates.len() - 1 ==> slates.drop_first()[k] == #[trigger] slates[k + 1]);
        lemma_slate_lookup_none(slates.drop_first(), p);
    }
}

/// The status of the candidate at rank `t`: elected, ambiguous (left out
/// although an earlier equal-vote candidate was elected, so the cutoff
/// inside the tie is arbitrary), or neither.
pub open spec fn marker_of(
    votes: Seq<PartyResults>,
    ranked: Seq<int>,
    enames: Seq<Seq<char>>,
    t: int,
) -> Seq<char> {
    if enames.contains(votes[ranked[t]].name@) {
        "✓"@
    } else if exists|s: int|
        0 <= s < t && votes[#[trigger] ranked[s]].votes == votes[ranked[t]].votes
            && enames.contains(votes[ranked[s]].name@) {
        "?"@
    } else {
        " "@
    }
}

/// The row for the candidate at rank `t` of a party.
pub open spec fn candidate_row(
    votes: Seq<PartyResults>,
    ranked: Seq<int>,
    enames: Seq<Seq<char>>,
    total: int,
    t: int,
) -> (Seq<char>, Seq<char>, Seq<char>, Seq<char>) {
    (
        "  - "@ + votes[ranked[t]].name@,
        format_num_spec(votes[ranked[t]].votes as int),
        percent_string_spec(pct_hundredths(votes[ranked[t]].votes as int, total)),
        marker_of(votes, ranked, enames, t),
    )
}

/// The rows for the first `t` ranked candidates of a party.
pub open spec fn candidate_rows(
    votes: Seq<PartyResults>,
    ranked: Seq<int>,
    enames: Seq<Seq<char>>,
    total: int,
    t: int,
) -> Seq<(Seq<char>, Seq<char>, Seq<char>, Seq<char>)>
    decreases t,
{
    if t <= 0 {
        Seq::empty()
    } else {
        candidate_rows(votes, ranked, enames, total, t - 1).push(
            candidate_row(votes, ranked, enames, total, t - 1),
        )
    }
}

/// An all-empty separator row.
pub open spec fn blank_row() -> (Seq<char>, Seq<char>, Seq<char>, Seq<char>) {
    (Seq::empty(), Seq::empty(), Seq::empty(), Seq::empty())
}

/// The header row of one party: its name, total, percentage and seats.
pub open spec fn party_header_row(
    votes: Seq<PartyResults>,
    slates: Seq<ElectedSlate>,
    total: int,
    p: Seq<char>,
) -> (Seq<char>, Seq<char>, Seq<char>, Seq<char>) {
    (
        p + ":"@,
        format_num_spec(party_total(votes, p)),
        percent_string_spec(pct_hundredths(party_total(votes, p), total)),
        dec_digits(slate_seats_for(slates, p)),
    )
}

/// One party's block of rows: header, candidates best first, separator.
pub open spec fn party_section(
    votes: Seq<PartyResults>,
    slates: Seq<ElectedSlate>,
    total: int,
    p: Seq<char>,
) -> Seq<(Seq<char>, Seq<char>, Seq<char>, Seq<char>)> {
    let ranked = ranked_indices(votes, p);
    let enames = slate_names_for(slates, p);
    seq![party_header_row(votes, slates, total, p)] + candidate_rows(
        votes,
        ranked,
        enames,
        total,
        ranked.len() as int,
    ) + seq![blank_row()]
}

/// The blocks of the first `k` parties in display order.
pub open spec fn sections(
    votes: Seq<PartyResults>,
    slates: Seq<ElectedSlate>,
    total: int,
    order: Seq<int>,
    k: int,
) -> Seq<(Seq<char>, Seq<char>, Seq<char>, Seq<char>)>
    decreases k,
{
    if k <= 0 {
        Seq::empty()
    } else {
        sections(votes, slates, total, order, k - 1) + party_section(
            votes,
            slates,
            total,
            parties_of(votes)[order[k - 1]],
        )
    }
}

/// The grand-total row.
pub open spec fn total_row(votes: Seq<PartyResults>) -> (
    Seq<char>,
    Seq<char>,
    Seq<char>,
    Seq<char>,
) {
    ("Total of votes:"@, format_num_spec(grand_total(votes)), Seq::empty(), Seq::empty())
}

/// All report rows: the grand total, a separator, then every party block
/// in display order.
pub open spec fn report_rows(votes: Seq<PartyResults>, slates: Seq<ElectedSlate>) -> Seq<
    (Seq<char>, Seq<char>, Seq<char>, Seq<char>),
> {
    let total = grand_total(votes);
    let order = display_order(party_totals_spec(votes));
    seq![total_row(votes), blank_row()] + sections(votes, slates, total, order, order.len() as int)
}

pub open spec fn spec_max(a: int, b: int) -> int {
    if a > b {
        a
    } else {
        b
    }
}

/// The widest entry of each column over `rows`.
pub open spec fn widths(rows: Seq<(Seq<char>, Seq<char>, Seq<char>, Seq<char>)>) -> (
    int,
    int,
    int,
    int,
)
    decreases rows.len(),
{
    if rows.len() == 0 {
        (0, 0, 0, 0)
    } else {
        let w = widths(rows.drop_last());
        let r = rows.last();
        (
            spec_max(w.0, r.0.len() as int),
            spec_max(w.1, r.1.len() as int),
            spec_max(w.2, r.2.len() as int),
            spec_max(w.3, r.3.len() as int),
        )
    }
}

/// `n` spaces.
pub open spec fn spaces(n: int) -> Seq<char>
    decreases n,
{
    if n <= 0 {
        Seq::empty()
    } else {
        spaces(n - 1).push(' ')
    }
}

/// `s` padded with spaces on the left up to width `w`.
pub open spec fn pad_left_spec(s: Seq<char>, w: int) -> Seq<char> {
    spaces(w - s.len()) + s
}

/// `s` padded with spaces on the right up to width `w`.
pub open spec fn pad_right_spec(s: Seq<char>, w: int) -> Seq<char> {
    s + spaces(w - s.len())
}

/// One aligned line: label left-aligned, the rest right-aligned, columns
/// separated by a four-space gutter.
pub open spec fn render_row(
    r: (Seq<char>, Seq<char>, Seq<char>, Seq<char>),
    w: (int, int, int, int),
) -> Seq<char> {
    pad_right_spec(r.0, w.0) + "    "@ + pad_left_spec(r.1, w.1) + "    "@ + pad_left_spec(
        r.2,
        w.2,
    ) + "    "@ + pad_left_spec(r.3, w.3) + "\n"@
}

/// All rows rendered in order.
pub open spec fn render_rows(
    rows: Seq<(Seq<char>, Seq<char>, Seq<char>, Seq<char>)>,
    w: (int, int, int, int),
) -> Seq<char>
    decreases rows.len(),
{
    if rows.len() == 0 {
        Seq::empty()
    } else {
        render_rows(rows.drop_last(), w) + render_row(rows.last(), w)
    }
}

/// The whole report: a seat-count headline, a blank line, then every row
/// aligned to the report-wide column widths.
pub open spec fn report_spec(
    seat_count: int,
    votes: Seq<PartyResults>,
    slates: Seq<ElectedSlate>,
) -> Seq<char> {
    let rows = report_rows(votes, slates);
    "Seats to assign: "@ + dec_digits(seat_count) + "\n\n"@ + render_rows(rows, widths(rows))
}

/// A string of `n` spaces.
#[verifier::loop_isolation(false)]
fn spaces_string(n: usize) -> (r: String)
    ensures
        r@ == spaces(n as int),
{
    let mut r = String::new();
    let mut i: usize = 0;
    proof {
        assert(r@ =~= spaces(0));
    }
    while i < n
        invariant
            i <= n,
            r@ == spaces(i as int),
        decreases n - i,
    {
        r.append(" ");
        proof {
            reveal_strlit(" ");
            assert(r@ =~= spaces(i as int + 1));
        }
        i += 1;
    }
    r
}

/// `s` padded with spaces on the left up to width `w`.
fn pad_left_string(s: &String, w: usize) -> (r: String)
    ensures
        r@ == pad_left_spec(s@, w as int),
{
    let len = s.as_str().unicode_len();
    let gap: usize = if w > len {
        w - len
    } else {
        0
    };
    let mut r = spaces_string(gap);
    r.append(s.as_str());
    r
}

/// `s` padded with spaces on the right up to width `w`.
fn pad_right_string(s: &String, w: usize) -> (r: String)
    ensures
        r@ == pad_right_spec(s@, w as int),
{
    let len = s.as_str().unicode_len();
    let gap: usize = if w > len {
        w - len
    } else {
        0
    };
    let mut r = s.clone();
    r.append(spaces_string(gap).as_str());
    r
}

/// The grand total of all vote counts.
#[verifier::loop_isolation(false)]
pub fn total_votes(votes: &Vec<PartyResults>) -> (r: u32)
    requires
        grand_total(votes@) <= u32::MAX as int,
    ensures
        r as int == grand_total(votes@),
{
    let n = votes.len();
    let mut sum: u32 = 0;
    let mut i: usize = 0;
    proof {
        assert(votes@.take(0) =~= Seq::<PartyResults>::empty());
    }
    while i < n
        invariant
            i <= n,
            sum as int == grand_total(votes@.take(i as int)),
        decreases n - i,
    {
        proof {
            lemma_take_step(votes@, i as int);
            lemma_grand_total_take(votes@, i as int + 1);
        }
        sum = sum + votes[i].votes;
        i += 1;
    }
    proof {
        assert(votes@.take(n as int) =~= votes@);
    }
    sum
}

/// Arranges the tallied parties for display: descending total votes,
/// first-seen input order among equal totals.
#[verifier::loop_isolation(false)]
fn order_parties(tallies: &Vec<PartyTally>) -> (r: Vec<usize>)
    ensures
        to_int_seq(r@) == display_order(spec_totals(tallies@)),
        forall|t: int| 0 <= t < r@.len() ==> (#[trigger] r@[t]) < tallies@.len(),
{
    let n = tallies.len();
    let ghost db = display_before(spec_totals(tallies@));
    proof {
        lemma_display_before_strict(spec_totals(tallies@));
    }
    let mut rem: Vec<usize> = Vec::new();
    let mut i: usize = 0;
    proof {
        assert(to_int_seq(rem@) =~= range_seq(0));
    }
    while i < n
        invariant
            i <= n,
            to_int_seq(rem@) == range_seq(i as nat),
            forall|t: int| 0 <= t < rem@.len() ==> (#[trigger] rem@[t]) < n,
        decreases n - i,
    {
        let ghost r0 = to_int_seq(rem@);
        rem.push(i);
        proof {
            assert(to_int_seq(rem@) =~= r0.push(i as int));
            assert(r0.push(i as int) =~= range_seq((i + 1) as nat));
        }
        i += 1;
    }
    let ghost members0 = to_int_seq(rem@);
    let mut out: Vec<usize> = Vec::new();
    proof {
        assert(to_int_seq(out@) =~= Seq::<int>::empty());
        assert(Seq::<int>::empty() + sel_order(db, members0) =~= sel_order(db, members0));
    }
    while rem.len() > 0
        invariant
            to_int_seq(out@) + sel_order(db, to_int_seq(rem@)) == sel_order(db, members0),
            forall|t: int| 0 <= t < rem@.len() ==> (#[trigger] rem@[t]) < n,
            forall|t: int| 0 <= t < out@.len() ==> (#[trigger] out@[t]) < n,
        decreases rem@.len(),
    {
        let ghost rem0 = to_int_seq(rem@);
        let ghost out0 = to_int_seq(out@);
        let mut bp: usize = 0;
        let mut j: usize = 1;
        while j < rem.len()
            invariant
                rem0 == to_int_seq(rem@),
                1 <= j <= rem@.len(),
                (bp as int) < (j as int),
                bp as int == pick_pos(db, rem0, j as int),
            decreases rem@.len() - j,
        {
            let a = rem[j];
            let b = rem[bp];
            proof {
                assert(rem0[j as int] == a as int);
                assert(rem0[bp as int] == b as int);
            }
            let picked = tallies[a].total > tallies[b].total || (tallies[a].total
                == tallies[b].total && a < b);
            proof {
                assert(spec_totals(tallies@)[a as int] == tallies@[a as int].total as int);
                assert(spec_totals(tallies@)[b as int] == tallies@[b as int].total as int);
                assert(picked == db(a as int, b as int));
            }
            if picked {
                bp = j;
            }
            j += 1;
        }
        proof {
            lemma_pick_pos(db, rem0, rem0.len() as int);
        }
        let x = rem.remove(bp);
        out.push(x);
        proof {
            assert(to_int_seq(rem@) =~= rem0.remove(bp as int));
            assert(to_int_seq(out@) =~= out0.push(x as int));
            assert(sel_order(db, rem0) == seq![rem0[bp as int]] + sel_order(
                db,
                rem0.remove(bp as int),
            ));
            assert(to_int_seq(out@) + sel_order(db, to_int_seq(rem@)) =~= out0 + sel_order(
                db,
                rem0,
            ));
        }
    }
    proof {
        assert(to_int_seq(rem@) =~= Seq::<int>::empty());
        assert(to_int_seq(out@) + sel_order(db, to_int_seq(rem@)) =~= to_int_seq(out@));
    }
    out
}

/// The position of the first slate recorded for `party`, if any.
#[verifier::loop_isolation(false)]
fn find_slate(results: &Vec<ElectedSlate>, party: &String) -> (r: Option<usize>)
    ensures
        match r {
            Option::Some(ix) => ix < results@.len() && results@[ix as int].party@ == party@
                && (forall|k: int| 0 <= k < ix ==> (#[trigger] results@[k]).party@ != party@),
            Option::None => forall|k: int|
                0 <= k < results@.len() ==> (#[trigger] results@[k]).party@ != party@,
        },
{
    let n = results.len();
    let mut i: usize = 0;
    while i < n
        invariant
            i <= n,
            forall|k: int| 0 <= k < i ==> (#[trigger] results@[k]).party@ != party@,
        decreases n - i,
    {
        if results[i].party == *party {
            return Option::Some(i);
        }
        i += 1;
    }
    Option::None
}

/// Whether `name` occurs in the list of names.
#[verifier::loop_isolation(false)]
fn contains_name(v: &Vec<String>, name: &String) -> (r: bool)
    ensures
        r == view_names(v@).contains(name@),
{
    let n = v.len();
    let mut i: usize = 0;
    while i < n
        invariant
            i <= n,
            forall|k: int| 0 <= k < i ==> (#[trigger] v@[k])@ != name@,
        decreases n - i,
    {
        if v[i] == *name {
            proof {
                assert(view_names(v@)[i as int] == name@);
            }
            return true;
        }
        i += 1;
    }
    proof {
        if view_names(v@).contains(name@) {
            let k = choose|k: int| 0 <= k < view_names(v@).len() && view_names(v@)[k] == name@;
            assert(v@[k]@ == name@);
        }
    }
    false
}

/// Appends one party's block: its header row, one row per candidate in
/// ranked order, and a separator row.
#[verifier::loop_isolation(false)]
#[verifier::rlimit(100)]
fn push_party_section(
    rows: &mut Vec<ReportLine>,
    votes: &Vec<PartyResults>,
    results: &Vec<ElectedSlate>,
    total: u32,
    party: &String,
    pt: u32,
)
    requires
        0 < grand_total(votes@),
        grand_total(votes@) <= u32::MAX as int,
        total as int == grand_total(votes@),
        pt as int == party_total(votes@, party@),
    ensures
        rows_view(final(rows)@) == rows_view(old(rows)@) + party_section(
            votes@,
            results@,
            grand_total(votes@),
            party@,
        ),
{
    let ghost p = party@;
    let ghost gtotal = grand_total(votes@);
    let ghost basek = rows_view(rows@);
    let six = find_slate(results, party);
    let ghost enames = slate_names_for(results@, p);
    let empty_names: Vec<String> = Vec::new();
    let seats_k: u32;
    let enames_vec: &Vec<String>;
    match six {
        Option::Some(ix) => {
            seats_k = results[ix].seats;
            enames_vec = &results[ix].elected;
            proof {
                lemma_slate_lookup(results@, p, ix as int);
            }
        },
        Option::None => {
            seats_k = 0;
            enames_vec = &empty_names;
            proof {
                lemma_slate_lookup_none(results@, p);
                assert(view_names(empty_names@) =~= Seq::<Seq<char>>::empty());
            }
        },
    }
    proof {
        assert(view_names(enames_vec@) == enames);
        assert(seats_k as int == slate_seats_for(results@, p));
        lemma_party_total_le_grand(votes@, p);
    }
    let mut lbl = party.clone();
    lbl.append(":");
    rows.push(
        ReportLine {
            label: lbl,
            votes: format_num(pt),
            percentage: percent_string(percentage(pt, total)),
            marker: dec_string(seats_k),
        },
    );
    proof {
        assert(rows_view(rows@) =~~= basek + seq![party_header_row(votes@, results@, gtotal, p)]);
    }
    let ghost baseh = basek + seq![party_header_row(votes@, results@, gtotal, p)];
    let rankv = rank_party(votes, party);
    let ghost rk = ranked_indices(votes@, p);
    proof {
        assert(to_int_seq(rankv@) == rk);
        lemma_ranked_sorted(votes@, p);
    }
    let ncand = rankv.len();
    let mut me: Option<u32> = Option::None;
    let mut t: usize = 0;
    proof {
        assert(rows_view(rows@) =~~= baseh + candidate_rows(votes@, rk, enames, gtotal, 0));
    }
    while t < ncand
        invariant
            t <= ncand,
            rows_view(rows@) == baseh + candidate_rows(votes@, rk, enames, gtotal, t as int),
            me is None ==> (forall|s: int|
                0 <= s < t ==> !enames.contains(votes@[#[trigger] rk[s]].name@)),
            me matches Option::Some(m) ==> (exists|s: int|
                0 <= s < t && votes@[#[trigger] rk[s]].votes == m && enames.contains(
                    votes@[rk[s]].name@,
                )),
            me matches Option::Some(m) ==> (forall|s: int|
                0 <= s < t && enames.contains(votes@[#[trigger] rk[s]].name@) ==> votes@[rk[
                    s
                ]].votes >= m),
        decreases ncand - t,
    {
        let idx = rankv[t];
        proof {
            assert(rk[t as int] == idx as int);
            lemma_record_le_grand(votes@, idx as int);
        }
        let v = votes[idx].votes;
        let elected = contains_name(enames_vec, &votes[idx].name);
        let marker: &str = if elected {
            "✓"
        } else {
            let amb = match me {
                Option::Some(m) => m == v,
                Option::None => false,
            };
            if amb {
                "?"
            } else {
                " "
            }
        };
        proof {
            let vt = votes@[rk[t as int]].votes;
            assert(vt == v);
            if !elected {
                if me is Some && me->0 == v {
                    let s0 = choose|s: int|
                        0 <= s < t && votes@[#[trigger] rk[s]].votes == me->0 && enames.contains(
                            votes@[rk[s]].name@,
                        );
                    assert(votes@[rk[s0]].votes == vt);
                    assert(marker@ == marker_of(votes@, rk, enames, t as int));
                } else {
                    assert(!(exists|s: int|
                        0 <= s < t as int && votes@[#[trigger] rk[s]].votes == vt
                            && enames.contains(votes@[rk[s]].name@))) by {
                        if exists|s: int|
                            0 <= s < t as int && votes@[#[trigger] rk[s]].votes == vt
                                && enames.contains(votes@[rk[s]].name@) {
                            let s = choose|s: int|
                                0 <= s < t as int && votes@[#[trigger] rk[s]].votes == vt
                                    && enames.contains(votes@[rk[s]].name@);
                            assert(me is Some);
                            let m = me->0;
                            assert(votes@[rk[s]].votes >= m);
                            let s1 = choose|s1: int|
                                0 <= s1 < t && votes@[#[trigger] rk[s1]].votes == m
                                    && enames.contains(votes@[rk[s1]].name@);
                            assert(votes@[rk[s1]].votes >= vt);
                            assert(m == v);
                        }
                    }
                    assert(marker@ == marker_of(votes@, rk, enames, t as int));
                }
            } else {
                assert(marker@ == marker_of(votes@, rk, enames, t as int));
            }
        }
        let mut clbl = "  - ".to_owned();
        clbl.append(votes[idx].name.as_str());
        let line = ReportLine {
            label: clbl,
            votes: format_num(v),
            percentage: percent_string(percentage(v, total)),
            marker: marker.to_owned(),
        };
        let ghost lv = line_view(line);
        let ghost rv0 = rows_view(rows@);
        proof {
            assert(lv == candidate_row(votes@, rk, enames, gtotal, t as int));
        }
        rows.push(line);
        if elected {
            me = Option::Some(v);
        }
        proof {
            assert(rows_view(rows@) =~= rv0.push(lv));
            assert(rv0.push(lv) =~= baseh + candidate_rows(
                votes@,
                rk,
                enames,
                gtotal,
                t as int + 1,
            ));
        }
        t += 1;
    }
    let ghost rvb = rows_view(rows@);
    rows.push(
        ReportLine {
            label: String::new(),
            votes: String::new(),
            percentage: String::new(),
            marker: String::new(),
        },
    );
    proof {
        assert(rk.len() == ncand as int);
        assert(rows_view(rows@) =~= rvb.push(blank_row()));
        assert(rvb.push(blank_row()) =~= basek + party_section(votes@, results@, gtotal, p));
    }
}

/// Aligns and joins the rows under the seat-count headline.
#[verifier::loop_isolation(false)]
#[verifier::rlimit(100)]
fn render_lines(seat_count: u32, rows: &Vec<ReportLine>) -> (r: String)
    ensures
        r@ == "Seats to assign: "@ + dec_digits(seat_count as int) + "\n\n"@ + render_rows(
            rows_view(rows@),
            widths(rows_view(rows@)),
        ),
{
    let nr = rows.len();
    let mut w0: usize = 0;
    let mut w1: usize = 0;
    let mut w2: usize = 0;
    let mut w3: usize = 0;
    let mut i: usize = 0;
    proof {
        assert(rows_view(rows@).take(0)
            =~= Seq::<(Seq<char>, Seq<char>, Seq<char>, Seq<char>)>::empty());
    }
    while i < nr
        invariant
            i <= nr,
            w0 as int == widths(rows_view(rows@).take(i as int)).0,
            w1 as int == widths(rows_view(rows@).take(i as int)).1,
            w2 as int == widths(rows_view(rows@).take(i as int)).2,
            w3 as int == widths(rows_view(rows@).take(i as int)).3,
        decreases nr - i,
    {
        proof {
            assert(rows_view(rows@).take(i as int + 1).drop_last() =~= rows_view(rows@).take(
                i as int,
            ));
            assert(rows_view(rows@).take(i as int + 1).last() == rows_view(rows@)[i as int]);
        }
        let a0 = rows[i].label.as_str().unicode_len();
        let a1 = rows[i].votes.as_str().unicode_len();
        let a2 = rows[i].percentage.as_str().unicode_len();
        let a3 = rows[i].marker.as_str().unicode_len();
        if a0 > w0 {
            w0 = a0;
        }
        if a1 > w1 {
            w1 = a1;
        }
        if a2 > w2 {
            w2 = a2;
        }
        if a3 > w3 {
            w3 = a3;
        }
        i += 1;
    }
    let ghost w = (w0 as int, w1 as int, w2 as int, w3 as int);
    proof {
        assert(rows_view(rows@).take(nr as int) =~= rows_view(rows@));
        assert(w == widths(rows_view(rows@)));
    }
    let mut out = "Seats to assign: ".to_owned();
    out.append(dec_string(seat_count).as_str());
    out.append("\n\n");
    let ghost header = "Seats to assign: "@ + dec_digits(seat_count as int) + "\n\n"@;
    proof {
        assert(out@ =~= header);
        assert(render_rows(rows_view(rows@).take(0), w) =~= Seq::<char>::empty());
        assert(out@ =~= header + render_rows(rows_view(rows@).take(0), w));
    }
    let mut i2: usize = 0;
    while i2 < nr
        invariant
            i2 <= nr,
            out@ == header + render_rows(rows_view(rows@).take(i2 as int), w),
        decreases nr - i2,
    {
        proof {
            assert(rows_view(rows@).take(i2 as int + 1).drop_last() =~= rows_view(rows@).take(
                i2 as int,
            ));
            assert(rows_view(rows@).take(i2 as int + 1).last() == rows_view(rows@)[i2 as int]);
        }
        out.append(pad_right_string(&rows[i2].label, w0).as_str());
        out.append("    ");
        out.append(pad_left_string(&rows[i2].votes, w1).as_str());
        out.append("    ");
        out.append(pad_left_string(&rows[i2].percentage, w2).as_str());
        out.append("    ");
        out.append(pad_left_string(&rows[i2].marker, w3).as_str());
        out.append("\n");
        proof {
            assert(out@ =~= header + render_rows(rows_view(rows@).take(i2 as int + 1), w));
        }
        i2 += 1;
    }
    proof {
        assert(rows_view(rows@).take(nr as int) =~= rows_view(rows@));
    }
    out
}

/// Renders the full report for a seat distribution: the seat count, the
/// grand total of votes, and every party in display order with its
/// candidates, vote counts, percentages of the grand total, seat counts
/// and status markers, all columns aligned report-wide.
#[verifier::loop_isolation(false)]
#[verifier::rlimit(100)]
pub fn generate_report(
    seat_count: u32,
    votes: &Vec<PartyResults>,
    results: &Vec<ElectedSlate>,
) -> (r: String)
    requires
        0 < grand_total(votes@),
        grand_total(votes@) <= u32::MAX as int,
    ensures
        r@ == report_spec(seat_count as int, votes@, results@),
{
    let total = total_votes(votes);
    let tallies = party_tallies(votes);
    proof {
        assert(spec_totals(tallies@) =~= party_totals_spec(votes@)) by {
            assert forall|k: int|
                0 <= k < tallies@.len() implies spec_totals(tallies@)[k] == party_totals_spec(
                votes@,
            )[k] by {
                assert(tally_parties(tallies@)[k] == tallies@[k].party@);
            }
        }
    }
    let order = order_parties(&tallies);
    let ghost gorder = display_order(party_totals_spec(votes@));
    let ghost gtotal = grand_total(votes@);
    proof {
        lemma_display_before_strict(party_totals_spec(votes@));
        lemma_sel_order_permutes(
            display_before(party_totals_spec(votes@)),
            range_seq(party_totals_spec(votes@).len()),
        );
    }
    let mut rows: Vec<ReportLine> = Vec::new();
    rows.push(
        ReportLine {
            label: "Total of votes:".to_owned(),
            votes: format_num(total),
            percentage: String::new(),
            marker: String::new(),
        },
    );
    rows.push(
        ReportLine {
            label: String::new(),
            votes: String::new(),
            percentage: String::new(),
            marker: String::new(),
        },
    );
    let ghost base0 = seq![total_row(votes@), blank_row()];
    proof {
        assert(rows_view(rows@) =~~= base0 + sections(votes@, results@, gtotal, gorder, 0));
    }
    let nord = order.len();
    let mut k: usize = 0;
    while k < nord
        invariant
            k <= nord,
            rows_view(rows@) == base0 + sections(votes@, results@, gtotal, gorder, k as int),
        decreases nord - k,
    {
        let oi = order[k];
        let ghost p = parties_of(votes@)[oi as int];
        proof {
            assert(gorder[k as int] == oi as int);
            assert(tally_parties(tallies@)[oi as int] == tallies@[oi as int].party@);
            assert(p == tallies@[oi as int].party@);
            assert(tallies@[oi as int].total as int == party_total(votes@, p));
        }
        push_party_section(&mut rows, votes, results, total, &tallies[oi].party, tallies[oi].total);
        proof {
            assert(sections(votes@, results@, gtotal, gorder, k as int + 1) == sections(
                votes@,
                results@,
                gtotal,
                gorder,
                k as int,
            ) + party_section(votes@, results@, gtotal, p));
            assert(rows_view(rows@) =~~= base0 + sections(
                votes@,
                results@,
                gtotal,
                gorder,
                k as int + 1,
            ));
        }
        k += 1;
    }
    proof {
        assert(rows_view(rows@) =~~= report_rows(votes@, results@));
    }
    render_lines(seat_count, &rows)
}

/// The percentages of the given vote counts, each rounded to hundredths
/// of a percent, summed.
pub open spec fn pct_sum(vs: Seq<int>, total: int) -> int
    decreases vs.len(),
{
    if vs.len() == 0 {
        0
    } else {
        pct_sum(vs.drop_last(), total) + pct_hundredths(vs.last(), total)
    }
}

proof fn lemma_pct_sum_bounds(vs: Seq<int>, total: int)
    requires
        total > 0,
        forall|i: int| 0 <= i < vs.len() ==> vs[i] >= 0,
    ensures
        total * pct_sum(vs, total) <= 10000 * seq_sum(vs) + vs.len() * (total / 2),
        total * pct_sum(vs, total) >= 10000 * seq_sum(vs) + vs.len() * ((total / 2) - total + 1),
    decreases vs.len(),
{
    if vs.len() > 0 {
        let prev = vs.drop_last();
        assert(forall|i: int| 0 <= i < prev.len() ==> prev[i] == #[trigger] vs[i]);
        lemma_pct_sum_bounds(prev, total);
        let v = vs.last();
        let h = total / 2;
        let x = v * 10000 + h;
        let q = x / total;
        vstd::arithmetic::div_mod::lemma_fundamental_div_mod(x, total);
        vstd::arithmetic::div_mod::lemma_mod_bound(x, total);
        assert(x - total < total * q <= x);
        let k1 = prev.len() as int;
        assert(total * pct_sum(vs, total) == total * pct_sum(prev, total) + total * q)
            by (nonlinear_arith)
            requires
                pct_sum(vs, total) == pct_sum(prev, total) + q,
        ;
        assert((k1 + 1) * h == k1 * h + h) by (nonlinear_arith);
        assert((k1 + 1) * (h - total + 1) == k1 * (h - total + 1) + (h - total + 1))
            by (nonlinear_arith);
        assert(seq_sum(vs) == seq_sum(prev) + v);
    }
}

/// Law: the rounded candidate percentages of one party add up to the
/// party total's rounded percentage to within `(k + 1) / 2` hundredths of
/// a percent for `k` candidates; for a party of at most two candidates the
/// two agree to within one hundredth of a percent (0.01).
pub proof fn lemma_percentage_sum(vs: Seq<int>, total: int)
    requires
        total > 0,
        forall|i: int| 0 <= i < vs.len() ==> vs[i] >= 0,
    ensures
        2 * (pct_sum(vs, total) - pct_hundredths(seq_sum(vs), total)) <= vs.len() + 1,
        2 * (pct_hundredths(seq_sum(vs), total) - pct_sum(vs, total)) <= vs.len() + 1,
{
    lemma_pct_sum_bounds(vs, total);
    let s = seq_sum(vs);
    let h = total / 2;
    let k = vs.len() as int;
    let y = s * 10000 + h;
    let r = y / total;
    vstd::arithmetic::div_mod::lemma_fundamental_div_mod(y, total);
    vstd::arithmetic::div_mod::lemma_mod_bound(y, total);
    assert(y - total < total * r <= y);
    let p = pct_sum(vs, total);
    assert(2 * h <= total);
    assert(total - 1 <= 2 * h);
    if k == 0 {
        assert(p == 0);
        assert(s == 0);
        assert(0 <= h < total);
        assert(r == 0) by (nonlinear_arith)
            requires
                y == h,
                0 <= h < total,
                y - total < total * r <= y,
                total > 0,
        ;
    } else {
        assert(2 * total * (p - r) <= (k + 1) * total - 2) by (nonlinear_arith)
            requires
                total * p <= 10000 * s + k * h,
                total * r > y - total,
                y == s * 10000 + h,
                2 * h <= total,
                k >= 1,
                total > 0,
        ;
        assert(2 * total * (r - p) <= (k + 1) * total - 1) by (nonlinear_arith)
            requires
                total * p >= 10000 * s + k * (h - total + 1),
                total * r <= y,
                y == s * 10000 + h,
                total - 1 <= 2 * h,
                2 * h <= total,
                k >= 1,
                total > 0,
        ;
        assert(2 * (p - r) <= k + 1) by (nonlinear_arith)
            requires
                2 * total * (p - r) <= (k + 1) * total - 2,
                total > 0,
        ;
        assert(2 * (r - p) <= k + 1) by (nonlinear_arith)
            requires
                2 * total * (r - p) <= (k + 1) * total - 1,
                total > 0,
        ;
    }
}

} // verus!
