//! The whole of the ranking policy: fuzzy match quality combined with how
//! often an entry has been launched from here before.

use crate::apps::{Entry, EntryView, FieldView};
use crate::matcher::{folded, score, score_of, Folded, MAX_NEEDLE};
use crate::order::{is_sorted_from, sorts, take_top, Ordered};
use crate::text::{trim, trimmed};
use crate::weight::{better_score_is_worth_no_less, weigh, weighed};
use vstd::prelude::*;

verus! {

// ---------------------------------------------------------------------------
// What an entry is worth
// ---------------------------------------------------------------------------

/// What a field is worth to a query, if it matches.
pub open spec fn field_worth(needle: Seq<char>, field: FieldView) -> Option<int> {
    match score_of(needle, field.0) {
        Some(score) => Some(weighed(score, field.1)),
        None => None,
    }
}

pub open spec fn better(a: Option<int>, b: Option<int>) -> Option<int> {
    match (a, b) {
        (Some(x), Some(y)) => Some(
            if x >= y {
                x
            } else {
                y
            },
        ),
        (Some(x), None) => Some(x),
        (None, _) => b,
    }
}

/// What the best of the fields is worth, if one matches.
pub open spec fn best_worth(needle: Seq<char>, fields: Seq<FieldView>) -> Option<int>
    decreases fields.len(),
{
    if fields.len() == 0 {
        None
    } else {
        better(best_worth(needle, fields.drop_last()), field_worth(needle, fields.last()))
    }
}

/// What an entry is worth to a query, if it matches: its best field, with the
/// bonus for its launches on top.
pub open spec fn entry_worth(needle: Seq<char>, entry: EntryView, bonus: i32) -> Option<int> {
    match best_worth(needle, entry.fields) {
        Some(best) => Some(best + bonus),
        None => None,
    }
}

/// Everything matches an empty query.
pub open spec fn matches_query(needle: Seq<char>, entry: EntryView, bonus: i32) -> bool {
    needle.len() == 0 || entry_worth(needle, entry, bonus) is Some
}

pub open spec fn name_length(entry: EntryView) -> nat {
    vstd::utf8::encode_utf8(entry.name).len()
}

pub open spec fn views(entries: Seq<Entry>) -> Seq<EntryView> {
    entries.map_values(|entry: Entry| entry@)
}

// ---------------------------------------------------------------------------
// The order
// ---------------------------------------------------------------------------

/// Entry `a` goes before entry `b` without a query: more launches first, then
/// the latest launch, then the place in the list.
pub open spec fn used_first(entries: Seq<EntryView>, a: int, b: int) -> bool {
    let (x, y) = (entries[a], entries[b]);
    x.count > y.count || (x.count == y.count && (x.last_used > y.last_used || (x.last_used
        == y.last_used && a < b)))
}

/// Entry `a` goes before entry `b` for a query that both match: the better
/// match first, then more launches, then the shorter name, then the place in
/// the list.
pub open spec fn matched_first(
    needle: Seq<char>,
    entries: Seq<EntryView>,
    bonuses: Seq<i32>,
    a: int,
    b: int,
) -> bool {
    let (x, y) = (entries[a], entries[b]);
    let (p, q) = (
        entry_worth(needle, x, bonuses[a]).unwrap(),
        entry_worth(needle, y, bonuses[b]).unwrap(),
    );
    p > q || (p == q && (x.count > y.count || (x.count == y.count && (name_length(x) < name_length(y)
        || (name_length(x) == name_length(y) && a < b)))))
}

pub open spec fn goes_first(
    needle: Seq<char>,
    entries: Seq<EntryView>,
    bonuses: Seq<i32>,
    a: int,
    b: int,
) -> bool {
    if needle.len() == 0 {
        used_first(entries, a, b)
    } else {
        matched_first(needle, entries, bonuses, a, b)
    }
}

pub open spec fn is_candidate(
    needle: Seq<char>,
    entries: Seq<EntryView>,
    bonuses: Seq<i32>,
    i: int,
) -> bool {
    0 <= i < entries.len() && matches_query(needle, entries[i], bonuses[i])
}

/// `shown` is the list of the entries that match, best first, cut off after
/// `lines`.
pub open spec fn is_ranking(
    needle: Seq<char>,
    entries: Seq<EntryView>,
    bonuses: Seq<i32>,
    lines: int,
    shown: Seq<usize>,
) -> bool {
    &&& shown.len() <= lines
    &&& forall|k: int|
        0 <= k < shown.len() ==> is_candidate(
            needle,
            entries,
            bonuses,
            #[trigger] shown[k] as int,
        )
    &&& forall|j: int, k: int|
        0 <= j < k < shown.len() ==> goes_first(
            needle,
            entries,
            bonuses,
            #[trigger] shown[j] as int,
            #[trigger] shown[k] as int,
        )
    &&& forall|i: int| #[trigger]
        is_candidate(needle, entries, bonuses, i) ==> is_shown(shown, i) || (shown.len() == lines
            && forall|k: int|
            0 <= k < shown.len() ==> goes_first(
                needle,
                entries,
                bonuses,
                #[trigger] shown[k] as int,
                i,
            ))
}

pub open spec fn is_shown(shown: Seq<usize>, i: int) -> bool {
    exists|k: int| 0 <= k < shown.len() && #[trigger] shown[k] == i
}

// ---------------------------------------------------------------------------
// Laws
// ---------------------------------------------------------------------------

/// The list to show is determined by the query, the entries and the number of
/// lines.
pub proof fn ranking_is_unique(
    needle: Seq<char>,
    entries: Seq<EntryView>,
    bonuses: Seq<i32>,
    lines: int,
    a: Seq<usize>,
    b: Seq<usize>,
)
    requires
        is_ranking(needle, entries, bonuses, lines, a),
        is_ranking(needle, entries, bonuses, lines, b),
    ensures
        a == b,
{
    lemma_ranking_no_longer(needle, entries, bonuses, lines, a, b);
    lemma_ranking_no_longer(needle, entries, bonuses, lines, b, a);
    assert forall|k: int| 0 <= k < a.len() implies a[k] == b[k] by {
        lemma_ranking_same_so_far(needle, entries, bonuses, lines, a, b, k);
    }
    assert(a =~= b);
}

proof fn lemma_ranking_same_so_far(
    needle: Seq<char>,
    entries: Seq<EntryView>,
    bonuses: Seq<i32>,
    lines: int,
    a: Seq<usize>,
    b: Seq<usize>,
    k: int,
)
    requires
        is_ranking(needle, entries, bonuses, lines, a),
        is_ranking(needle, entries, bonuses, lines, b),
        0 <= k < a.len(),
        k < b.len(),
    ensures
        a[k] == b[k],
    decreases k,
{
    if a[k] != b[k] {
        let (x, y) = (a[k] as int, b[k] as int);
        assert(is_candidate(needle, entries, bonuses, x));
        assert(is_candidate(needle, entries, bonuses, y));
        assert(goes_first(needle, entries, bonuses, y, x)) by {
            if is_shown(b, x) {
                let m = choose|m: int| 0 <= m < b.len() && #[trigger] b[m] == x;
                if m < k {
                    lemma_ranking_same_so_far(needle, entries, bonuses, lines, a, b, m);
                    assert(goes_first(needle, entries, bonuses, a[m] as int, a[k] as int));
                }
            }
        }
        assert(goes_first(needle, entries, bonuses, x, y)) by {
            if is_shown(a, y) {
                let m = choose|m: int| 0 <= m < a.len() && #[trigger] a[m] == y;
                if m < k {
                    lemma_ranking_same_so_far(needle, entries, bonuses, lines, a, b, m);
                    assert(goes_first(needle, entries, bonuses, b[m] as int, b[k] as int));
                }
            }
        }
    }
}

proof fn lemma_ranking_no_longer(
    needle: Seq<char>,
    entries: Seq<EntryView>,
    bonuses: Seq<i32>,
    lines: int,
    a: Seq<usize>,
    b: Seq<usize>,
)
    requires
        is_ranking(needle, entries, bonuses, lines, a),
        is_ranking(needle, entries, bonuses, lines, b),
    ensures
        b.len() <= a.len(),
{
    if a.len() < b.len() {
        let next = b[a.len() as int] as int;
        assert(is_candidate(needle, entries, bonuses, next));
        assert(is_shown(a, next));
        let m = choose|m: int| 0 <= m < a.len() && #[trigger] a[m] == next;
        lemma_ranking_same_so_far(needle, entries, bonuses, lines, a, b, m);
        assert(goes_first(needle, entries, bonuses, b[m] as int, next));
    }
}

/// The worth of the best of the fields is that of one of them.
pub proof fn best_is_one_of_the_fields(needle: Seq<char>, fields: Seq<FieldView>)
    ensures
        best_worth(needle, fields) matches Some(best) ==> exists|k: int|
            0 <= k < fields.len() && field_worth(needle, #[trigger] fields[k]) == Some(best),
    decreases fields.len(),
{
    if fields.len() > 0 {
        let front = fields.drop_last();
        best_is_one_of_the_fields(needle, front);
        if let Some(best) = best_worth(needle, fields) {
            if field_worth(needle, fields[fields.len() - 1]) != Some(best) {
                let k = choose|k: int|
                    0 <= k < front.len() && field_worth(needle, #[trigger] front[k]) == Some(best);
                assert(fields[k] == front[k]);
            }
        }
    }
}

/// A field is worth its score, scaled by its weight, and nothing where the
/// query is not in it.
pub proof fn field_is_worth_its_weighed_score(needle: Seq<char>, field: FieldView)
    ensures
        field_worth(needle, field) is Some <==> score_of(needle, field.0) is Some,
        field_worth(needle, field) matches Some(worth) ==> worth == weighed(
            score_of(needle, field.0).unwrap(),
            field.1,
        ),
{
}

/// An entry matches a query if one of its fields does, whichever that is.
pub proof fn any_field_makes_a_match(needle: Seq<char>, entry: EntryView, bonus: i32)
    requires
        needle.len() > 0,
    ensures
        matches_query(needle, entry, bonus) <==> exists|k: int|
            0 <= k < entry.fields.len() && score_of(needle, (#[trigger] entry.fields[k]).0) is Some,
{
    best_is_one_of_the_fields(needle, entry.fields);
    if exists|k: int|
        0 <= k < entry.fields.len() && score_of(needle, (#[trigger] entry.fields[k]).0) is Some {
        let k = choose|k: int|
            0 <= k < entry.fields.len() && score_of(needle, (#[trigger] entry.fields[k]).0) is Some;
        every_field_counts(needle, entry.fields, k);
    }
    if matches_query(needle, entry, bonus) {
        let best = best_worth(needle, entry.fields).unwrap();
        let k = choose|k: int|
            0 <= k < entry.fields.len() && field_worth(needle, #[trigger] entry.fields[k]) == Some(
                best,
            );
        assert(score_of(needle, entry.fields[k].0) is Some);
    }
}

/// Launches count in full: what an entry is worth differs by exactly as much
/// as its bonus does.
pub proof fn bonus_counts_in_full(needle: Seq<char>, entry: EntryView, bonus: i32, other: i32)
    requires
        entry_worth(needle, entry, bonus) is Some,
    ensures
        entry_worth(needle, entry, other) is Some,
        entry_worth(needle, entry, bonus).unwrap() - entry_worth(needle, entry, other).unwrap()
            == bonus - other,
        entry_worth(needle, entry, bonus).unwrap() == best_worth(needle, entry.fields).unwrap()
            + bonus,
{
}

/// For a query, an entry is shown before another whenever its best field and
/// its bonus together come to more; where they come to the same, whenever it
/// was launched more often; then whenever its name is shorter; then whenever it
/// stands earlier in the list.
pub proof fn better_matches_are_shown_first(
    needle: Seq<char>,
    entries: Seq<EntryView>,
    bonuses: Seq<i32>,
    lines: int,
    shown: Seq<usize>,
    a: int,
    k: int,
)
    requires
        needle.len() > 0,
        is_ranking(needle, entries, bonuses, lines, shown),
        0 <= k < shown.len(),
        0 <= a < entries.len(),
        best_worth(needle, entries[a].fields) is Some,
        ({
            let b = shown[k] as int;
            let p = best_worth(needle, entries[a].fields).unwrap() + bonuses[a];
            let q = best_worth(needle, entries[b].fields).unwrap() + bonuses[b];
            let (m, n) = (
                vstd::utf8::encode_utf8(entries[a].name).len(),
                vstd::utf8::encode_utf8(entries[b].name).len(),
            );
            ||| p > q
            ||| p == q && entries[a].count > entries[b].count
            ||| p == q && entries[a].count == entries[b].count && m < n
            ||| p == q && entries[a].count == entries[b].count && m == n && a < b
        }),
    ensures
        exists|j: int| 0 <= j < k && #[trigger] shown[j] == a,
{
    lemma_shown_before(needle, entries, bonuses, lines, shown, a, k);
}

/// Without a query, an entry is shown before another whenever it was launched
/// more often; where that is the same, whenever it was launched later; then
/// whenever it stands earlier in the list.
pub proof fn most_used_are_shown_first(
    entries: Seq<EntryView>,
    bonuses: Seq<i32>,
    lines: int,
    shown: Seq<usize>,
    a: int,
    k: int,
)
    requires
        is_ranking(seq![], entries, bonuses, lines, shown),
        0 <= k < shown.len(),
        0 <= a < entries.len(),
        ({
            let (x, y) = (entries[a], entries[shown[k] as int]);
            ||| x.count > y.count
            ||| x.count == y.count && x.last_used > y.last_used
            ||| x.count == y.count && x.last_used == y.last_used && a < shown[k]
        }),
    ensures
        exists|j: int| 0 <= j < k && #[trigger] shown[j] == a,
{
    lemma_shown_before(seq![], entries, bonuses, lines, shown, a, k);
}

/// As long as there is room, every entry that matches is shown; without a query
/// that is every entry.
pub proof fn every_match_is_shown(
    needle: Seq<char>,
    entries: Seq<EntryView>,
    bonuses: Seq<i32>,
    lines: int,
    shown: Seq<usize>,
    i: int,
)
    requires
        is_ranking(needle, entries, bonuses, lines, shown),
        shown.len() < lines,
        0 <= i < entries.len(),
        needle.len() == 0 || best_worth(needle, entries[i].fields) is Some,
    ensures
        exists|k: int| 0 <= k < shown.len() && #[trigger] shown[k] == i,
{
    assert(is_candidate(needle, entries, bonuses, i));
}

proof fn lemma_shown_before(
    needle: Seq<char>,
    entries: Seq<EntryView>,
    bonuses: Seq<i32>,
    lines: int,
    shown: Seq<usize>,
    a: int,
    k: int,
)
    requires
        is_ranking(needle, entries, bonuses, lines, shown),
        0 <= k < shown.len(),
        is_candidate(needle, entries, bonuses, a),
        goes_first(needle, entries, bonuses, a, shown[k] as int),
    ensures
        exists|j: int| 0 <= j < k && #[trigger] shown[j] == a,
{
    let b = shown[k] as int;
    assert(is_candidate(needle, entries, bonuses, b));
    assert(!goes_first(needle, entries, bonuses, b, a));
    assert(is_shown(shown, a)) by {
        if !is_shown(shown, a) {
            assert(goes_first(needle, entries, bonuses, shown[k] as int, a));
        }
    }
    let j = choose|j: int| 0 <= j < shown.len() && #[trigger] shown[j] == a;
    if j > k {
        assert(goes_first(needle, entries, bonuses, shown[k] as int, shown[j] as int));
    }
}

/// Of two entries that match, exactly one goes first.
pub proof fn one_of_two_goes_first(
    needle: Seq<char>,
    entries: Seq<EntryView>,
    bonuses: Seq<i32>,
    a: int,
    b: int,
)
    requires
        is_candidate(needle, entries, bonuses, a),
        is_candidate(needle, entries, bonuses, b),
        a != b,
    ensures
        goes_first(needle, entries, bonuses, a, b) != goes_first(needle, entries, bonuses, b, a),
{
}

/// An entry that goes before another goes before all that the other does.
pub proof fn going_first_carries_over(
    needle: Seq<char>,
    entries: Seq<EntryView>,
    bonuses: Seq<i32>,
    a: int,
    b: int,
    c: int,
)
    requires
        goes_first(needle, entries, bonuses, a, b),
        goes_first(needle, entries, bonuses, b, c),
    ensures
        goes_first(needle, entries, bonuses, a, c),
{
}

/// The best of the fields is worth at least what each matching field is.
pub proof fn every_field_counts(needle: Seq<char>, fields: Seq<FieldView>, k: int)
    requires
        0 <= k < fields.len(),
        field_worth(needle, fields[k]) is Some,
    ensures
        best_worth(needle, fields) is Some,
        best_worth(needle, fields).unwrap() >= field_worth(needle, fields[k]).unwrap(),
    decreases fields.len(),
{
    if k < fields.len() - 1 {
        assert(fields.drop_last()[k] == fields[k]);
        every_field_counts(needle, fields.drop_last(), k);
    }
}

/// With fewer lines the front of the same list is shown.
pub proof fn fewer_lines_show_the_front(
    needle: Seq<char>,
    entries: Seq<EntryView>,
    bonuses: Seq<i32>,
    lines: int,
    fewer: int,
    shown: Seq<usize>,
)
    requires
        is_ranking(needle, entries, bonuses, lines, shown),
        0 <= fewer <= shown.len(),
    ensures
        is_ranking(needle, entries, bonuses, fewer, shown.take(fewer)),
{
    let front = shown.take(fewer);
    assert forall|i: int| #[trigger]
        is_candidate(needle, entries, bonuses, i) implies is_shown(front, i) || (front.len()
        == fewer && forall|k: int|
        0 <= k < front.len() ==> goes_first(
            needle,
            entries,
            bonuses,
            #[trigger] front[k] as int,
            i,
        )) by {
        if is_shown(shown, i) {
            let m = choose|m: int| 0 <= m < shown.len() && #[trigger] shown[m] == i;
            if m < fewer {
                assert(front[m] == i);
            } else {
                assert forall|k: int| 0 <= k < front.len() implies goes_first(
                    needle,
                    entries,
                    bonuses,
                    #[trigger] front[k] as int,
                    i,
                ) by {
                    assert(front[k] == shown[k]);
                }
            }
        } else {
            assert forall|k: int| 0 <= k < front.len() implies goes_first(
                needle,
                entries,
                bonuses,
                #[trigger] front[k] as int,
                i,
            ) by {
                assert(front[k] == shown[k]);
            }
        }
    }
}

/// `later` are the entries and `later_bonuses` their bonuses after more
/// launches of entry `i`: its count is higher and its bonus no lower, whenever
/// its last launch was, and nothing else is different.
pub open spec fn launched_more(
    entries: Seq<EntryView>,
    bonuses: Seq<i32>,
    later: Seq<EntryView>,
    later_bonuses: Seq<i32>,
    i: int,
) -> bool {
    &&& 0 <= i < entries.len()
    &&& later.len() == entries.len()
    &&& forall|j: int|
        0 <= j < entries.len() && j != i ==> #[trigger] later[j] == entries[j] && later_bonuses[j]
            == bonuses[j]
    &&& later[i].name == entries[i].name
    &&& later[i].fields == entries[i].fields
    &&& later[i].count > entries[i].count
    &&& later_bonuses[i] >= bonuses[i]
}

/// Launching an entry more often never moves it down or off the list: where it
/// stood at `p`, it now stands at `p` or further up.
pub proof fn more_launches_never_move_an_entry_down(
    needle: Seq<char>,
    entries: Seq<EntryView>,
    bonuses: Seq<i32>,
    later: Seq<EntryView>,
    later_bonuses: Seq<i32>,
    lines: int,
    before: Seq<usize>,
    after: Seq<usize>,
    i: int,
    p: int,
)
    requires
        launched_more(entries, bonuses, later, later_bonuses, i),
        is_ranking(needle, entries, bonuses, lines, before),
        is_ranking(needle, later, later_bonuses, lines, after),
        0 <= p < before.len(),
        before[p] == i,
    ensures
        exists|q: int| 0 <= q <= p && q < after.len() && #[trigger] after[q] == i,
{
    assert(is_candidate(needle, entries, bonuses, before[p] as int));
    assert(is_candidate(needle, later, later_bonuses, i));
    if forall|q: int| 0 <= q <= p && q < after.len() ==> #[trigger] after[q] != i {
        // Then more entries than `p` go before it now, and all of them did so
        // before.
        assert(p < after.len() && forall|k: int|
            0 <= k <= p ==> goes_first(
                needle,
                later,
                later_bonuses,
                #[trigger] after[k] as int,
                i,
            )) by {
            if is_shown(after, i) {
                let q = choose|q: int| 0 <= q < after.len() && #[trigger] after[q] == i;
                assert forall|k: int| 0 <= k <= p implies goes_first(
                    needle,
                    later,
                    later_bonuses,
                    #[trigger] after[k] as int,
                    i,
                ) by {
                    assert(after[q] == i);
                }
            }
        }
        lemma_went_before(
            needle,
            entries,
            bonuses,
            later,
            later_bonuses,
            lines,
            before,
            after,
            i,
            p,
            p,
        );
    }
}

/// What goes before the entry after its launches stood before it already, and
/// no further up than it stands now.
proof fn lemma_went_before(
    needle: Seq<char>,
    entries: Seq<EntryView>,
    bonuses: Seq<i32>,
    later: Seq<EntryView>,
    later_bonuses: Seq<i32>,
    lines: int,
    before: Seq<usize>,
    after: Seq<usize>,
    i: int,
    p: int,
    k: int,
)
    requires
        launched_more(entries, bonuses, later, later_bonuses, i),
        is_ranking(needle, entries, bonuses, lines, before),
        is_ranking(needle, later, later_bonuses, lines, after),
        0 <= p < before.len(),
        before[p] == i,
        0 <= k < after.len(),
        forall|j: int|
            0 <= j <= k ==> goes_first(
                needle,
                later,
                later_bonuses,
                #[trigger] after[j] as int,
                i,
            ),
    ensures
        exists|m: int| k <= m < p && #[trigger] before[m] == after[k],
    decreases k,
{
    let x = after[k] as int;
    assert(is_candidate(needle, entries, bonuses, before[p] as int));
    assert(is_candidate(needle, later, later_bonuses, x));
    assert(goes_first(needle, later, later_bonuses, x, i));
    assert(x != i);
    assert(later[x] == entries[x]);
    assert(is_candidate(needle, entries, bonuses, x));
    assert(goes_first(needle, entries, bonuses, x, i));
    assert(is_shown(before, x)) by {
        if !is_shown(before, x) {
            assert(goes_first(needle, entries, bonuses, before[p] as int, x));
        }
    }
    let m = choose|m: int| 0 <= m < before.len() && #[trigger] before[m] == x;
    if m > p {
        assert(goes_first(needle, entries, bonuses, before[p] as int, before[m] as int));
    }
    if k > 0 {
        lemma_went_before(
            needle,
            entries,
            bonuses,
            later,
            later_bonuses,
            lines,
            before,
            after,
            i,
            p,
            k - 1,
        );
        let y = after[k - 1] as int;
        let n = choose|n: int| k - 1 <= n < p && #[trigger] before[n] == after[k - 1];
        assert(goes_first(needle, later, later_bonuses, y, x));
        assert(goes_first(needle, later, later_bonuses, y, i));
        assert(is_candidate(needle, later, later_bonuses, y));
        assert(y != i);
        assert(later[y] == entries[y]);
        assert(goes_first(needle, entries, bonuses, y, x));
        if m < n {
            assert(goes_first(needle, entries, bonuses, before[m] as int, before[n] as int));
        }
    }
    assert(before[m] == after[k]);
}

/// A query that matches nothing shows nothing.
pub proof fn no_match_shows_nothing(
    needle: Seq<char>,
    entries: Seq<EntryView>,
    bonuses: Seq<i32>,
    lines: int,
    shown: Seq<usize>,
)
    requires
        is_ranking(needle, entries, bonuses, lines, shown),
        forall|i: int|
            0 <= i < entries.len() ==> !matches_query(needle, #[trigger] entries[i], bonuses[i]),
    ensures
        shown.len() == 0,
{
    if shown.len() > 0 {
        let i = shown[0] as int;
        assert(!matches_query(needle, entries[i], bonuses[i]));
    }
}

// ---------------------------------------------------------------------------
// Ranking
// ---------------------------------------------------------------------------

/// No query can make a field worth so much that it leaves 32 bits together
/// with the bonus.
pub open spec fn field_fits(field: FieldView, bonus: i32) -> bool {
    &&& field.0.len() <= MAX_NEEDLE
    &&& weighed(60 * field.0.len() as int + 50, field.1) + bonus <= i32::MAX
}

pub open spec fn entry_fits(entry: EntryView, bonus: i32) -> bool {
    &&& bonus >= 0
    &&& forall|k: int| 0 <= k < entry.fields.len() ==> field_fits(#[trigger] entry.fields[k], bonus)
}

/// Whether no query can make an entry worth so much that it leaves 32 bits
/// together with the bonus.
pub fn fits(entry: &Entry, bonus: i32) -> (r: bool)
    requires
        entry.wf(),
    ensures
        r == entry_fits(entry@, bonus),
{
    if bonus < 0 {
        return false;
    }
    let mut k: usize = 0;
    while k < entry.fields.len()
        invariant
            entry.wf(),
            bonus >= 0,
            k <= entry.fields@.len(),
            forall|j: int| 0 <= j < k ==> field_fits(#[trigger] entry@.fields[j], bonus),
        decreases entry.fields@.len() - k,
    {
        let field = &entry.fields[k];
        let length: usize = field.folded.chars.len();
        assert(field.wf());
        assert(entry@.fields[k as int] == field@);
        if length > MAX_NEEDLE || weigh((60 * length + 50) as i32, field.weight) > i32::MAX
            - bonus {
            return false;
        }
        k += 1;
    }
    true
}

/// An entry with what decides its place. `third` is what counts after the
/// launches, the smaller the better.
struct Rated {
    rating: i32,
    count: u32,
    third: u64,
    index: usize,
}

impl Ordered for Rated {
    closed spec fn le(self, other: Self) -> bool {
        self.rating > other.rating || (self.rating == other.rating && (self.count > other.count || (
        self.count == other.count && (self.third < other.third || (self.third == other.third
            && self.index <= other.index)))))
    }

    proof fn le_total(a: Self, b: Self) {
    }

    proof fn le_transitive(a: Self, b: Self, c: Self) {
    }

    fn at_most(&self, other: &Self) -> (r: bool) {
        self.rating > other.rating || (self.rating == other.rating && (self.count > other.count || (
        self.count == other.count && (self.third < other.third || (self.third == other.third
            && self.index <= other.index)))))
    }
}

/// `rated` says of the entry at its index what decides its place.
spec fn rates(
    needle: Seq<char>,
    entries: Seq<EntryView>,
    bonuses: Seq<i32>,
    rated: Rated,
) -> bool {
    let i = rated.index as int;
    &&& is_candidate(needle, entries, bonuses, i)
    &&& rated.count == entries[i].count
    &&& if needle.len() == 0 {
        rated.rating == 0 && rated.third == u64::MAX - entries[i].last_used
    } else {
        rated.rating == entry_worth(needle, entries[i], bonuses[i]).unwrap() && rated.third
            == name_length(entries[i])
    }
}

/// What the entry is worth to the query, if it matches.
fn worth_of(needle: &Folded, entry: &Entry, bonus: i32) -> (r: Option<i32>)
    requires
        needle.wf(),
        entry.wf(),
        entry_fits(entry@, bonus),
    ensures
        match r {
            Some(worth) => entry_worth(needle@, entry@, bonus) == Some(worth as int),
            None => entry_worth(needle@, entry@, bonus) is None,
        },
        r is Some <==> best_worth(needle@, entry@.fields) is Some,
        r matches Some(worth) ==> worth == best_worth(needle@, entry@.fields).unwrap() + bonus,
{
    let mut best: Option<i32> = None;
    let ghost fields = entry@.fields;
    let mut k: usize = 0;
    while k < entry.fields.len()
        invariant
            needle.wf(),
            entry.wf(),
            entry_fits(entry@, bonus),
            k <= entry.fields@.len(),
            fields == entry@.fields,
            match best {
                Some(worth) => best_worth(needle@, fields.take(k as int)) == Some(worth as int)
                    && worth + bonus <= i32::MAX,
                None => best_worth(needle@, fields.take(k as int)) is None,
            },
        decreases entry.fields@.len() - k,
    {
        let field = &entry.fields[k];
        proof {
            assert(field.wf());
            assert(fields[k as int] == field@);
            assert(field_fits(fields[k as int], bonus));
            assert(fields.take(k + 1).drop_last() == fields.take(k as int));
            assert(fields.take(k + 1).last() == field@);
        }
        if let Some(score) = score(needle, &field.folded) {
            let worth: i32 = weigh(score, field.weight);
            proof {
                better_score_is_worth_no_less(
                    score as int,
                    60 * field.folded@.len() as int + 50,
                    field.weight,
                );
            }
            best = match best {
                Some(so_far) => Some(
                    if so_far >= worth {
                        so_far
                    } else {
                        worth
                    },
                ),
                None => Some(worth),
            };
        }
        k += 1;
    }
    assert(fields.take(k as int) == fields);
    match best {
        Some(worth) => Some(worth + bonus),
        None => None,
    }
}

/// What decides the entry's place for the query, if it matches.
fn rated(needle: &Folded, entry: &Entry, bonus: i32, index: usize) -> (r: Option<Rated>)
    requires
        needle.wf(),
        entry.wf(),
        entry_fits(entry@, bonus),
    ensures
        r is Some <==> matches_query(needle@, entry@, bonus),
        r matches Some(rated) ==> {
            &&& rated.index == index
            &&& rated.count == entry.count
            &&& if needle@.len() == 0 {
                rated.rating == 0 && rated.third == u64::MAX - entry.last_used
            } else {
                entry_worth(needle@, entry@, bonus) == Some(rated.rating as int) && rated.third
                    == name_length(entry@)
            }
        },
{
    if needle.is_empty() {
        return Some(
            Rated { rating: 0, count: entry.count, third: u64::MAX - entry.last_used, index },
        );
    }
    match worth_of(needle, entry, bonus) {
        Some(rating) => Some(
            Rated {
                rating,
                count: entry.count,
                third: entry.name.as_str().as_bytes().len() as u64,
                index,
            },
        ),
        None => None,
    }
}

proof fn lemma_top_is_ranking(
    needle: Seq<char>,
    entries: Seq<EntryView>,
    bonuses: Seq<i32>,
    lines: int,
    found: Seq<Rated>,
    sorted: Seq<Rated>,
    from: Seq<int>,
    shown: Seq<usize>,
)
    requires
        forall|k: int|
            0 <= k < found.len() ==> rates(needle, entries, bonuses, #[trigger] found[k]),
        forall|j: int, k: int|
            #![trigger found[j], found[k]]
            0 <= j < k < found.len() ==> found[j].index < found[k].index,
        forall|i: int| #[trigger]
            is_candidate(needle, entries, bonuses, i) ==> exists|k: int|
                0 <= k < found.len() && (#[trigger] found[k]).index == i,
        sorts(found, sorted, from),
        shown.len() == crate::order::least(lines, found.len() as int),
        lines >= 0,
        forall|k: int| 0 <= k < shown.len() ==> #[trigger] shown[k] == sorted[k].index,
    ensures
        is_ranking(needle, entries, bonuses, lines, shown),
{
    assert forall|k: int| 0 <= k < sorted.len() implies rates(
        needle,
        entries,
        bonuses,
        #[trigger] sorted[k],
    ) by {
        assert(sorted[k] == found[from[k]]);
    }
    assert forall|j: int, k: int|
        #![trigger sorted[j], sorted[k]]
        0 <= j < k < sorted.len() implies goes_first(
        needle,
        entries,
        bonuses,
        sorted[j].index as int,
        sorted[k].index as int,
    ) by {
        let (x, y) = (from[j], from[k]);
        assert(x != y);
        assert(sorted[j] == found[x] && sorted[k] == found[y]);
        assert(found[x].index != found[y].index) by {
            if x < y {
                assert(found[x].index < found[y].index);
            } else {
                assert(found[y].index < found[x].index);
            }
        }
        assert(rates(needle, entries, bonuses, sorted[j]));
        assert(rates(needle, entries, bonuses, sorted[k]));
        assert(sorted[j].le(sorted[k]));
    }
    assert forall|i: int| #[trigger] is_candidate(needle, entries, bonuses, i) implies is_shown(
        shown,
        i,
    ) || (shown.len() == lines && forall|k: int|
        0 <= k < shown.len() ==> goes_first(
            needle,
            entries,
            bonuses,
            #[trigger] shown[k] as int,
            i,
        )) by {
        let m = choose|m: int| 0 <= m < found.len() && (#[trigger] found[m]).index == i;
        crate::order::permutation_reaches_all(from, m);
        let q = choose|q: int| 0 <= q < from.len() && #[trigger] from[q] == m;
        assert(sorted[q] == found[from[q]]);
        if q < shown.len() {
            assert(shown[q] == i);
        } else {
            assert forall|k: int| 0 <= k < shown.len() implies goes_first(
                needle,
                entries,
                bonuses,
                #[trigger] shown[k] as int,
                i,
            ) by {
                assert(shown[k] == sorted[k].index);
            }
        }
    }
}

/// Pick the entries to show for `query`, best first, at most `lines` of them.
/// `bonuses[i]` is what the launches of `entries[i]` are worth. `entries` is
/// meant to be in folded-name order, which is how a catalog holds it, so that
/// the place in the list is the alphabetical tie break.
pub fn rank(entries: &[Entry], bonuses: &[i32], query: &str, lines: usize) -> (shown: Vec<usize>)
    requires
        bonuses@.len() == entries@.len(),
        forall|i: int| 0 <= i < entries@.len() ==> (#[trigger] entries@[i]).wf(),
        forall|i: int|
            0 <= i < entries@.len() ==> entry_fits((#[trigger] entries@[i])@, bonuses@[i]),
    ensures
        is_ranking(
            folded(trimmed(query@)),
            views(entries@),
            bonuses@,
            lines as int,
            shown@,
        ),
        shown@.len() <= lines,
        forall|k: int| 0 <= k < shown@.len() ==> #[trigger] shown@[k] < entries@.len(),
        // What is shown for a query matches it, and goes by its best field and
        // its bonus together.
        folded(trimmed(query@)).len() > 0 ==> forall|k: int|
            0 <= k < shown@.len() ==> best_worth(
                folded(trimmed(query@)),
                entries@[#[trigger] shown@[k] as int]@.fields,
            ) is Some,
        folded(trimmed(query@)).len() > 0 ==> forall|j: int, k: int|
            0 <= j < k < shown@.len() ==> {
                let needle = folded(trimmed(query@));
                let (a, b) = (#[trigger] shown@[j] as int, #[trigger] shown@[k] as int);
                best_worth(needle, entries@[a]@.fields).unwrap() + bonuses@[a] >= best_worth(
                    needle,
                    entries@[b]@.fields,
                ).unwrap() + bonuses@[b]
            },
        // Without one the most launched go first.
        folded(trimmed(query@)).len() == 0 ==> forall|j: int, k: int|
            0 <= j < k < shown@.len() ==> entries@[#[trigger] shown@[j] as int].count
                >= entries@[#[trigger] shown@[k] as int].count,
{
    let needle = Folded::new(trim(query).as_str());
    let ghost all = views(entries@);
    let mut found: Vec<Rated> = Vec::new();
    let mut i: usize = 0;
    while i < entries.len()
        invariant
            needle.wf(),
            all == views(entries@),
            bonuses@.len() == entries@.len(),
            forall|i: int| 0 <= i < entries@.len() ==> (#[trigger] entries@[i]).wf(),
            forall|i: int|
                0 <= i < entries@.len() ==> entry_fits((#[trigger] entries@[i])@, bonuses@[i]),
            i <= entries@.len(),
            forall|k: int|
                0 <= k < found@.len() ==> rates(needle@, all, bonuses@, #[trigger] found@[k])
                    && found@[k].index < i,
            forall|j: int, k: int|
                #![trigger found@[j], found@[k]]
                0 <= j < k < found@.len() ==> found@[j].index < found@[k].index,
            forall|c: int|
                c < i && #[trigger] is_candidate(needle@, all, bonuses@, c) ==> exists|k: int|
                    0 <= k < found@.len() && (#[trigger] found@[k]).index == c,
        decreases entries@.len() - i,
    {
        assert(all[i as int] == entries@[i as int]@);
        let ghost before = found@;
        if let Some(rated) = rated(&needle, &entries[i], bonuses[i], i) {
            found.push(rated);
            assert(rates(needle@, all, bonuses@, rated));
            assert(found@[before.len() as int].index == i);
        }
        proof {
            assert forall|c: int|
                c < i + 1 && #[trigger] is_candidate(needle@, all, bonuses@, c) implies exists|
                k: int,
            | 0 <= k < found@.len() && (#[trigger] found@[k]).index == c by {
                if c < i {
                    let k = choose|k: int| 0 <= k < before.len() && (#[trigger] before[k]).index == c;
                    assert(found@[k] == before[k]);
                }
            }
        }
        i += 1;
    }
    let ghost rows = found@;
    let top = take_top(found, lines);
    let mut shown: Vec<usize> = Vec::new();
    let mut k: usize = 0;
    while k < top.len()
        invariant
            k <= top@.len(),
            shown@.len() == k,
            forall|j: int| 0 <= j < k ==> #[trigger] shown@[j] == top@[j].index,
        decreases top@.len() - k,
    {
        shown.push(top[k].index);
        k += 1;
    }
    proof {
        let sorted = choose|sorted: Seq<Rated>|
            #![trigger is_sorted_from(rows, sorted)]
            is_sorted_from(rows, sorted) && top@ == sorted.take(top@.len() as int);
        let from = choose|from: Seq<int>| sorts(rows, sorted, from);
        lemma_top_is_ranking(
            needle@,
            all,
            bonuses@,
            lines as int,
            rows,
            sorted,
            from,
            shown@,
        );
    }
    proof {
        assert forall|k: int| 0 <= k < shown@.len() implies #[trigger] shown@[k] < entries@.len()
            && all[shown@[k] as int] == entries@[shown@[k] as int]@ by {
            assert(is_candidate(needle@, all, bonuses@, shown@[k] as int));
        }
        assert forall|j: int, k: int| 0 <= j < k < shown@.len() implies goes_first(
            needle@,
            all,
            bonuses@,
            #[trigger] shown@[j] as int,
            #[trigger] shown@[k] as int,
        ) by {}
        assert forall|k: int| 0 <= k < shown@.len() implies matches_query(
            needle@,
            entries@[#[trigger] shown@[k] as int]@,
            bonuses@[shown@[k] as int],
        ) by {
            assert(is_candidate(needle@, all, bonuses@, shown@[k] as int));
        }
    }
    shown
}

} // verus!
