//! Launch-count store used to rank the result list by popularity.
//!
//! Kept as tab separated text so it stays trivially inspectable:
//! `count \t last_used_unix \t desktop_id`

use crate::config::{base_dir, base_directory, text_of};
use crate::number::{parse_unsigned, push_decimal};
use crate::order::{take_top, Ordered};
use crate::path::{join, joined};
use crate::text::{chars_of, comes_no_later, string_of};
use vstd::prelude::*;

verus! {

/// How often an entry was launched, and when last.
pub type Launches = (u32, u64);

/// An entry's id with its launches.
pub type Row = (Seq<char>, Launches);

struct Slot {
    id: String,
    count: u32,
    last_used: u64,
}

/// The launches recorded for each id.
pub struct Usage {
    slots: Vec<Slot>,
}

// ---------------------------------------------------------------------------
// What the text holds
// ---------------------------------------------------------------------------

/// How many characters stand before the first `mark`, or all of them.
pub open spec fn before(s: Seq<char>, mark: char) -> int
    decreases s.len(),
{
    if s.len() == 0 || s[0] == mark {
        0
    } else {
        1 + before(s.drop_first(), mark)
    }
}

/// A line without the carriage return of its line ending.
pub open spec fn without_return(line: Seq<char>) -> Seq<char> {
    if line.len() > 0 && line.last() == '\r' {
        line.drop_last()
    } else {
        line
    }
}

/// The lines of a text: each ends at a line feed, or a carriage return and a
/// line feed, and the last may go without.
pub open spec fn lines(text: Seq<char>) -> Seq<Seq<char>>
    decreases text.len(),
    via lines_decreases
{
    let end = before(text, '\n');
    if text.len() == 0 {
        seq![]
    } else if end == text.len() {
        seq![text]
    } else {
        seq![without_return(text.take(end))] + lines(text.skip(end + 1))
    }
}

#[via_fn]
proof fn lines_decreases(text: Seq<char>) {
    lemma_before(text, '\n');
}

/// What one line records: three columns, the first two numbers, the third an
/// id that is not empty. Anything else records nothing.
pub open spec fn row_of(line: Seq<char>) -> Option<Row> {
    let one = before(line, '\t');
    let rest = line.skip(one + 1);
    let two = before(rest, '\t');
    let id = rest.skip(two + 1);
    let count = crate::number::unsigned(line.take(one), u32::MAX as int);
    let last = crate::number::unsigned(rest.take(two), u64::MAX as int);
    if one < line.len() && two < rest.len() && count is Some && last is Some && id.len() > 0 {
        Some((id, (count.unwrap() as u32, last.unwrap() as u64)))
    } else {
        None
    }
}

/// `store` with what the lines record, a later line replacing an earlier.
pub open spec fn stored(store: Map<Seq<char>, Launches>, rows: Seq<Seq<char>>) -> Map<
    Seq<char>,
    Launches,
>
    decreases rows.len(),
{
    if rows.len() == 0 {
        store
    } else {
        stored(
            match row_of(rows[0]) {
                Some(row) => store.insert(row.0, row.1),
                None => store,
            },
            rows.drop_first(),
        )
    }
}

/// The store that a text holds.
pub open spec fn store_of(text: Seq<char>) -> Map<Seq<char>, Launches> {
    stored(Map::empty(), lines(text))
}

/// The line that records a row.
pub open spec fn line_of(row: Row) -> Seq<char> {
    crate::number::decimal(row.1.0 as nat).push('\t') + crate::number::decimal(
        row.1.1 as nat,
    ).push('\t') + row.0
}

/// The text that records the rows, one line each.
pub open spec fn written(rows: Seq<Row>) -> Seq<char>
    decreases rows.len(),
{
    if rows.len() == 0 {
        seq![]
    } else {
        line_of(rows[0]).push('\n') + written(rows.drop_first())
    }
}

/// Most launched first, equally often launched in the order of their ids.
pub open spec fn goes_before(a: Row, b: Row) -> bool {
    a.1.0 > b.1.0 || (a.1.0 == b.1.0 && a.0 != b.0 && crate::text::not_after(a.0, b.0))
}

/// `rows` are the entries of the store, each once and in order.
pub open spec fn lists(store: Map<Seq<char>, Launches>, rows: Seq<Row>) -> bool {
    &&& forall|k: int|
        0 <= k < rows.len() ==> store.contains_key((#[trigger] rows[k]).0) && store[rows[k].0]
            == rows[k].1
    &&& forall|id: Seq<char>| #[trigger]
        store.contains_key(id) ==> exists|k: int| 0 <= k < rows.len() && (#[trigger] rows[k]).0 == id
    &&& forall|j: int, k: int|
        #![trigger rows[j], rows[k]]
        0 <= j < k < rows.len() ==> goes_before(rows[j], rows[k])
}

/// An id that a line can carry: not empty, on one line, and without a carriage
/// return in front of the line ending.
pub open spec fn storable(id: Seq<char>) -> bool {
    &&& id.len() > 0
    &&& forall|i: int| 0 <= i < id.len() ==> #[trigger] id[i] != '\n'
    &&& id.last() != '\r'
}

// ---------------------------------------------------------------------------
// Reading back what was written
// ---------------------------------------------------------------------------

proof fn lemma_before(s: Seq<char>, mark: char)
    ensures
        0 <= before(s, mark) <= s.len(),
        forall|i: int| 0 <= i < before(s, mark) ==> #[trigger] s[i] != mark,
        before(s, mark) < s.len() ==> s[before(s, mark)] == mark,
    decreases s.len(),
{
    if s.len() > 0 && s[0] != mark {
        let rest = s.drop_first();
        lemma_before(rest, mark);
        assert forall|i: int| 0 <= i < before(s, mark) implies #[trigger] s[i] != mark by {
            if i > 0 {
                assert(s[i] == rest[i - 1]);
            }
        }
    }
}

/// The first mark is where it stands, if there is none to the left of it.
proof fn lemma_before_is(s: Seq<char>, mark: char, n: int)
    requires
        0 <= n <= s.len(),
        forall|i: int| 0 <= i < n ==> #[trigger] s[i] != mark,
        n < s.len() ==> s[n] == mark,
    ensures
        before(s, mark) == n,
{
    lemma_before(s, mark);
}

proof fn lemma_decimal_has_no(n: nat, mark: char)
    requires
        mark == '\t' || mark == '\n',
    ensures
        forall|i: int| 0 <= i < crate::number::decimal(n).len() ==> #[trigger] crate::number::decimal(n)[i]
            != mark,
{
    crate::number::decimal_is_digits(n);
    let digits = crate::number::decimal(n);
    assert forall|i: int| 0 <= i < digits.len() implies #[trigger] digits[i] != mark by {
        assert(crate::number::is_digit(digits[i]));
    }
}

/// A written line is read as the row that it was written for.
proof fn lemma_line_reads_back(row: Row)
    requires
        row.0.len() > 0,
    ensures
        row_of(line_of(row)) == Some(row),
{
    let count = crate::number::decimal(row.1.0 as nat);
    let last = crate::number::decimal(row.1.1 as nat);
    let line = line_of(row);
    let one = count.len() as int;
    let two = last.len() as int;
    lemma_decimal_has_no(row.1.0 as nat, '\t');
    lemma_decimal_has_no(row.1.1 as nat, '\t');
    assert forall|i: int| 0 <= i < one implies #[trigger] line[i] != '\t' by {
        assert(line[i] == count[i]);
    }
    assert(line[one] == '\t');
    lemma_before_is(line, '\t', one);
    let rest = line.skip(one + 1);
    assert(rest =~= last.push('\t') + row.0);
    assert forall|i: int| 0 <= i < two implies #[trigger] rest[i] != '\t' by {
        assert(rest[i] == last[i]);
    }
    assert(rest[two] == '\t');
    lemma_before_is(rest, '\t', two);
    assert(line.take(one) =~= count);
    assert(rest.take(two) =~= last);
    assert(rest.skip(two + 1) =~= row.0);
    crate::number::decimal_reads_back(row.1.0 as nat, u32::MAX as int);
    crate::number::decimal_reads_back(row.1.1 as nat, u64::MAX as int);
}

/// The first line of a written text is the line of its first row.
proof fn lemma_written_lines(rows: Seq<Row>)
    requires
        rows.len() > 0,
        storable(rows[0].0),
    ensures
        lines(written(rows)) == seq![line_of(rows[0])] + lines(written(rows.drop_first())),
{
    let line = line_of(rows[0]);
    let text = written(rows);
    let end = line.len() as int;
    let count = crate::number::decimal(rows[0].1.0 as nat);
    let last = crate::number::decimal(rows[0].1.1 as nat);
    lemma_decimal_has_no(rows[0].1.0 as nat, '\n');
    lemma_decimal_has_no(rows[0].1.1 as nat, '\n');
    assert forall|i: int| 0 <= i < end implies #[trigger] text[i] != '\n' by {
        assert(text[i] == line[i]);
        let a = count.len() as int;
        let b = last.len() as int;
        if i < a {
            assert(line[i] == count[i]);
        } else if a < i < a + 1 + b {
            assert(line[i] == last[i - a - 1]);
        } else if i > a + 1 + b {
            assert(line[i] == rows[0].0[i - a - b - 2]);
        }
    }
    assert(text[end] == '\n');
    lemma_before_is(text, '\n', end);
    assert(text.take(end) =~= line);
    assert(line.last() == rows[0].0.last());
    assert(without_return(line) == line);
    assert(text.skip(end + 1) =~= written(rows.drop_first()));
}

/// `store` with each of the rows put into it, in turn.
spec fn inserted(store: Map<Seq<char>, Launches>, rows: Seq<Row>) -> Map<Seq<char>, Launches>
    decreases rows.len(),
{
    if rows.len() == 0 {
        store
    } else {
        inserted(store.insert(rows[0].0, rows[0].1), rows.drop_first())
    }
}

proof fn lemma_stored_is_inserted(store: Map<Seq<char>, Launches>, rows: Seq<Row>)
    requires
        forall|k: int| 0 <= k < rows.len() ==> storable((#[trigger] rows[k]).0),
    ensures
        stored(store, lines(written(rows))) == inserted(store, rows),
    decreases rows.len(),
{
    if rows.len() > 0 {
        let rest = rows.drop_first();
        lemma_written_lines(rows);
        lemma_line_reads_back(rows[0]);
        let all = lines(written(rows));
        assert(all[0] == line_of(rows[0]));
        assert(all.drop_first() =~= lines(written(rest)));
        assert forall|k: int| 0 <= k < rest.len() implies storable((#[trigger] rest[k]).0) by {
            assert(rest[k] == rows[k + 1]);
        }
        lemma_stored_is_inserted(store.insert(rows[0].0, rows[0].1), rest);
    }
}

proof fn lemma_inserted(store: Map<Seq<char>, Launches>, rows: Seq<Row>, id: Seq<char>)
    requires
        forall|j: int, k: int|
            #![trigger rows[j], rows[k]]
            0 <= j < k < rows.len() ==> rows[j].0 != rows[k].0,
    ensures
        (forall|k: int| 0 <= k < rows.len() ==> (#[trigger] rows[k]).0 != id) ==> (inserted(
            store,
            rows,
        ).contains_key(id) <==> store.contains_key(id)) && inserted(store, rows)[id] == store[id],
        forall|k: int|
            0 <= k < rows.len() && (#[trigger] rows[k]).0 == id ==> inserted(store, rows).contains_key(
                id,
            ) && inserted(store, rows)[id] == rows[k].1,
    decreases rows.len(),
{
    if rows.len() > 0 {
        let rest = rows.drop_first();
        let more = store.insert(rows[0].0, rows[0].1);
        assert forall|j: int, k: int|
            #![trigger rest[j], rest[k]]
            0 <= j < k < rest.len() implies rest[j].0 != rest[k].0 by {
            assert(rest[j] == rows[j + 1] && rest[k] == rows[k + 1]);
        }
        lemma_inserted(more, rest, id);
        if rows[0].0 == id {
            assert forall|k: int| 0 <= k < rest.len() implies (#[trigger] rest[k]).0 != id by {
                assert(rest[k] == rows[k + 1]);
            }
        } else if forall|k: int| 0 <= k < rows.len() ==> (#[trigger] rows[k]).0 != id {
            assert forall|k: int| 0 <= k < rest.len() implies (#[trigger] rest[k]).0 != id by {
                assert(rest[k] == rows[k + 1]);
            }
        }
        assert forall|k: int| 0 <= k < rows.len() && (#[trigger] rows[k]).0 == id implies inserted(
            store,
            rows,
        ).contains_key(id) && inserted(store, rows)[id] == rows[k].1 by {
            if k > 0 {
                assert(rest[k - 1] == rows[k]);
            }
        }
    }
}

/// A store is read back from the text that was written for it, as long as
/// every id is one that a line can carry.
pub proof fn written_store_reads_back(store: Map<Seq<char>, Launches>, rows: Seq<Row>)
    requires
        lists(store, rows),
        forall|id: Seq<char>| #[trigger] store.contains_key(id) ==> storable(id),
    ensures
        store_of(written(rows)) == store,
{
    assert forall|k: int| 0 <= k < rows.len() implies storable((#[trigger] rows[k]).0) by {
        assert(store.contains_key(rows[k].0));
    }
    lemma_stored_is_inserted(Map::empty(), rows);
    let read = store_of(written(rows));
    assert forall|j: int, k: int|
        #![trigger rows[j], rows[k]]
        0 <= j < k < rows.len() implies rows[j].0 != rows[k].0 by {
        assert(goes_before(rows[j], rows[k]));
        assert(store[rows[j].0] == rows[j].1 && store[rows[k].0] == rows[k].1);
    }
    assert forall|id: Seq<char>| #[trigger] read.contains_key(id) <==> store.contains_key(id) by {
        lemma_inserted(Map::empty(), rows, id);
        if exists|k: int| 0 <= k < rows.len() && (#[trigger] rows[k]).0 == id {
        }
    }
    assert forall|id: Seq<char>| store.contains_key(id) implies #[trigger] read[id]
        == store[id] by {
        lemma_inserted(Map::empty(), rows, id);
    }
    assert(read =~= store);
}

/// A row is two numbers and an id that is not empty, with a tab behind each
/// number; any other line records nothing.
pub proof fn row_is_two_numbers_and_an_id(count: Seq<char>, last: Seq<char>, id: Seq<char>)
    requires
        forall|i: int| 0 <= i < count.len() ==> #[trigger] count[i] != '\t',
        forall|i: int| 0 <= i < last.len() ==> #[trigger] last[i] != '\t',
    ensures
        row_of(count.push('\t') + last.push('\t') + id) == (match (
            crate::number::unsigned(count, u32::MAX as int),
            crate::number::unsigned(last, u64::MAX as int),
        ) {
            (Some(c), Some(l)) => if id.len() > 0 {
                Some((id, (c as u32, l as u64)))
            } else {
                None
            },
            _ => None,
        }),
        row_of(count) is None,
        row_of(count.push('\t') + last) is None,
{
    let line = count.push('\t') + last.push('\t') + id;
    let rest = last.push('\t') + id;
    lemma_before_is(line, '\t', count.len() as int);
    assert(line.take(count.len() as int) =~= count);
    assert(line.skip(count.len() as int + 1) =~= rest);
    lemma_before_is(rest, '\t', last.len() as int);
    assert(rest.take(last.len() as int) =~= last);
    assert(rest.skip(last.len() as int + 1) =~= id);
    lemma_before(count, '\t');
    let short = count.push('\t') + last;
    lemma_before_is(short, '\t', count.len() as int);
    assert(short.skip(count.len() as int + 1) =~= last);
    lemma_before(last, '\t');
}

/// A line ends at its line feed, and takes a carriage return in front of that
/// along; the last line may go without.
pub proof fn lines_end_at_line_feeds(line: Seq<char>, rest: Seq<char>)
    requires
        forall|i: int| 0 <= i < line.len() ==> #[trigger] line[i] != '\n',
    ensures
        lines(line.push('\n') + rest) == seq![
            if line.len() > 0 && line.last() == '\r' {
                line.drop_last()
            } else {
                line
            },
        ] + lines(rest),
        line.len() > 0 ==> lines(line) == seq![line],
        lines(seq![]) == Seq::<Seq<char>>::empty(),
{
    let text = line.push('\n') + rest;
    lemma_before_is(text, '\n', line.len() as int);
    assert(text.take(line.len() as int) =~= line);
    assert(text.skip(line.len() as int + 1) =~= rest);
    lemma_before(line, '\n');
}

/// Lines are read one after the other: one more line puts its row into the
/// store, in place of what was there for its id, or changes nothing.
pub proof fn later_rows_win(
    store: Map<Seq<char>, Launches>,
    rows: Seq<Seq<char>>,
    line: Seq<char>,
)
    ensures
        stored(store, rows.push(line)) == (match row_of(line) {
            Some(row) => stored(store, rows).insert(row.0, row.1),
            None => stored(store, rows),
        }),
    decreases rows.len(),
{
    let all = rows.push(line);
    if rows.len() == 0 {
        assert(all.drop_first() =~= rows);
        reveal_with_fuel(stored, 2);
    } else {
        let next = match row_of(rows[0]) {
            Some(row) => store.insert(row.0, row.1),
            None => store,
        };
        assert(all[0] == rows[0]);
        assert(all.drop_first() =~= rows.drop_first().push(line));
        later_rows_win(next, rows.drop_first(), line);
    }
}

/// The most launched are written first, and equally often launched ones in the
/// order of their ids.
pub proof fn most_launched_are_listed_first(
    store: Map<Seq<char>, Launches>,
    rows: Seq<Row>,
    j: int,
    k: int,
)
    requires
        lists(store, rows),
        0 <= j < k < rows.len(),
    ensures
        rows[j].1.0 >= rows[k].1.0,
        rows[j].1.0 == rows[k].1.0 ==> rows[j].0 != rows[k].0 && crate::text::not_after(
            rows[j].0,
            rows[k].0,
        ),
{
    assert(goes_before(rows[j], rows[k]));
}

/// There is one way to list a store, so the text that is written for it is
/// determined by what it holds.
pub proof fn listing_is_unique(store: Map<Seq<char>, Launches>, a: Seq<Row>, b: Seq<Row>)
    requires
        lists(store, a),
        lists(store, b),
    ensures
        a == b,
{
    lemma_listing_no_longer(store, a, b);
    lemma_listing_no_longer(store, b, a);
    assert forall|k: int| 0 <= k < a.len() implies a[k] == b[k] by {
        lemma_listing_same_so_far(store, a, b, k);
    }
    assert(a =~= b);
}

proof fn lemma_listed(store: Map<Seq<char>, Launches>, rows: Seq<Row>, row: Row)
    requires
        lists(store, rows),
        store.contains_key(row.0),
        store[row.0] == row.1,
    ensures
        exists|k: int| 0 <= k < rows.len() && #[trigger] rows[k] == row,
{
    let k = choose|k: int| 0 <= k < rows.len() && (#[trigger] rows[k]).0 == row.0;
    assert(rows[k] == row);
}

proof fn lemma_one_goes_before(a: Row, b: Row)
    ensures
        !(goes_before(a, b) && goes_before(b, a)),
{
    if goes_before(a, b) && goes_before(b, a) {
        crate::text::not_after_antisymmetric(a.0, b.0);
    }
}

proof fn lemma_listing_same_so_far(
    store: Map<Seq<char>, Launches>,
    a: Seq<Row>,
    b: Seq<Row>,
    k: int,
)
    requires
        lists(store, a),
        lists(store, b),
        0 <= k < a.len(),
        k < b.len(),
    ensures
        a[k] == b[k],
    decreases k,
{
    if a[k] != b[k] {
        lemma_listed(store, b, a[k]);
        lemma_listed(store, a, b[k]);
        let m = choose|m: int| 0 <= m < b.len() && #[trigger] b[m] == a[k];
        let n = choose|n: int| 0 <= n < a.len() && #[trigger] a[n] == b[k];
        if m < k {
            lemma_listing_same_so_far(store, a, b, m);
            assert(goes_before(a[m], a[k]));
            lemma_one_goes_before(a[m], a[k]);
        }
        if n < k {
            lemma_listing_same_so_far(store, a, b, n);
            assert(goes_before(b[n], b[k]));
            lemma_one_goes_before(b[n], b[k]);
        }
        assert(goes_before(b[k], b[m]));
        assert(goes_before(a[k], a[n]));
        lemma_one_goes_before(a[k], b[k]);
    }
}

proof fn lemma_listing_no_longer(store: Map<Seq<char>, Launches>, a: Seq<Row>, b: Seq<Row>)
    requires
        lists(store, a),
        lists(store, b),
    ensures
        b.len() <= a.len(),
{
    if a.len() < b.len() {
        let next = b[a.len() as int];
        lemma_listed(store, a, next);
        let m = choose|m: int| 0 <= m < a.len() && #[trigger] a[m] == next;
        lemma_listing_same_so_far(store, a, b, m);
        assert(goes_before(b[m], next));
        lemma_one_goes_before(b[m], next);
    }
}

// ---------------------------------------------------------------------------
// The store
// ---------------------------------------------------------------------------

spec fn holds(slots: Seq<Slot>, id: Seq<char>) -> bool {
    exists|i: int| 0 <= i < slots.len() && (#[trigger] slots[i]).id@ == id
}

spec fn slot_of(slots: Seq<Slot>, id: Seq<char>) -> int {
    choose|i: int| 0 <= i < slots.len() && (#[trigger] slots[i]).id@ == id
}

impl View for Usage {
    type V = Map<Seq<char>, Launches>;

    closed spec fn view(&self) -> Map<Seq<char>, Launches> {
        Map::new(
            |id: Seq<char>| holds(self.slots@, id),
            |id: Seq<char>|
                (
                    self.slots@[slot_of(self.slots@, id)].count,
                    self.slots@[slot_of(self.slots@, id)].last_used,
                ),
        )
    }
}

impl Usage {
    /// No id is recorded twice.
    pub closed spec fn wf(self) -> bool {
        forall|i: int, j: int|
            #![trigger self.slots@[i], self.slots@[j]]
            0 <= i < j < self.slots@.len() ==> self.slots@[i].id@ != self.slots@[j].id@
    }

    /// What the slot at `i` says is what the store says.
    proof fn lemma_slot(self, i: int)
        requires
            self.wf(),
            0 <= i < self.slots@.len(),
        ensures
            self@.contains_key(self.slots@[i].id@),
            self@[self.slots@[i].id@] == (self.slots@[i].count, self.slots@[i].last_used),
    {
        let id = self.slots@[i].id@;
        assert(holds(self.slots@, id));
        let k = slot_of(self.slots@, id);
        assert(0 <= k < self.slots@.len() && self.slots@[k].id@ == id);
    }

    /// A store that records nothing.
    pub fn new() -> (r: Self)
        ensures
            r.wf(),
            r@ == Map::<Seq<char>, Launches>::empty(),
    {
        let r = Usage { slots: Vec::new() };
        assert(r@ =~= Map::<Seq<char>, Launches>::empty());
        r
    }

    /// The slot that records `id`.
    fn find(&self, id: &str) -> (r: Option<usize>)
        requires
            self.wf(),
        ensures
            match r {
                Some(i) => i < self.slots@.len() && self.slots@[i as int].id@ == id@
                    && self@.contains_key(id@) && self@[id@] == (
                    self.slots@[i as int].count,
                    self.slots@[i as int].last_used,
                ),
                None => !self@.contains_key(id@) && forall|i: int|
                    0 <= i < self.slots@.len() ==> (#[trigger] self.slots@[i]).id@ != id@,
            },
    {
        let wanted: String = id.to_owned();
        let mut i: usize = 0;
        while i < self.slots.len()
            invariant
                self.wf(),
                wanted@ == id@,
                i <= self.slots@.len(),
                forall|k: int| 0 <= k < i ==> (#[trigger] self.slots@[k]).id@ != id@,
            decreases self.slots@.len() - i,
        {
            if self.slots[i].id == wanted {
                proof {
                    self.lemma_slot(i as int);
                }
                return Some(i);
            }
            i += 1;
        }
        None
    }

    /// How often `id` was launched and when last; zeros for an unknown id.
    pub fn get(&self, id: &str) -> (r: (u32, u64))
        requires
            self.wf(),
        ensures
            r == (if self@.contains_key(id@) {
                self@[id@]
            } else {
                (0, 0)
            }),
    {
        match self.find(id) {
            Some(i) => (self.slots[i].count, self.slots[i].last_used),
            None => (0, 0),
        }
    }

    /// Put `id` into the store, in place of what it held for it.
    fn put(&mut self, id: String, count: u32, last_used: u64)
        requires
            old(self).wf(),
        ensures
            final(self).wf(),
            final(self)@ == old(self)@.insert(id@, (count, last_used)),
    {
        let ghost before = *self;
        let ghost key = id@;
        let fresh = Slot { id, count, last_used };
        let place: usize = match self.find(&fresh.id) {
            Some(i) => {
                self.slots.set(i, fresh);
                i
            },
            None => {
                self.slots.push(fresh);
                self.slots.len() - 1
            },
        };
        proof {
            assert(self.wf());
            self.lemma_slot(place as int);
            assert forall|other: Seq<char>| other != key implies (#[trigger] self@.contains_key(
                other,
            ) <==> before@.contains_key(other)) && (before@.contains_key(other) ==> self@[other]
                == before@[other]) by {
                if before@.contains_key(other) {
                    let i = slot_of(before.slots@, other);
                    assert(before.slots@[i].id@ == other);
                    assert(self.slots@[i] == before.slots@[i]);
                    before.lemma_slot(i);
                    self.lemma_slot(i);
                }
                if self@.contains_key(other) {
                    let i = slot_of(self.slots@, other);
                    assert(self.slots@[i].id@ == other);
                    assert(i != place);
                    assert(self.slots@[i] == before.slots@[i]);
                    before.lemma_slot(i);
                }
            }
            assert(self@ =~= before@.insert(key, (count, last_used)));
        }
    }

    /// Count one launch of `id` at the time `now`, in seconds.
    pub fn record(&mut self, id: &str, now: u64)
        requires
            old(self).wf(),
        ensures
            final(self).wf(),
            final(self)@ == old(self)@.insert(
                id@,
                (
                    if old(self)@.contains_key(id@) {
                        if old(self)@[id@].0 < u32::MAX {
                            (old(self)@[id@].0 + 1) as u32
                        } else {
                            u32::MAX
                        }
                    } else {
                        1
                    },
                    now,
                ),
            ),
    {
        let (count, _) = self.get(id);
        self.put(id.to_owned(), count.saturating_add(1), now);
    }
}

// ---------------------------------------------------------------------------
// The store as text
// ---------------------------------------------------------------------------

/// The position of the first `mark` in `chars[from..to]`, or `to`.
fn seek(chars: &Vec<char>, from: usize, to: usize, mark: char) -> (r: usize)
    requires
        from <= to <= chars@.len(),
    ensures
        from <= r <= to,
        r == from + before(chars@.subrange(from as int, to as int), mark),
        r < to ==> chars@[r as int] == mark,
{
    let ghost part = chars@.subrange(from as int, to as int);
    let mut i: usize = from;
    while i < to && chars[i] != mark
        invariant
            from <= i <= to <= chars@.len(),
            part == chars@.subrange(from as int, to as int),
            forall|k: int| 0 <= k < i - from ==> #[trigger] part[k] != mark,
        decreases to - i,
    {
        assert(part[i - from] == chars@[i as int]);
        i += 1;
    }
    proof {
        if i < to {
            assert(part[i - from] == chars@[i as int]);
        }
        lemma_before_is(part, mark, i - from);
    }
    i
}

/// What the line `chars[from..to]` records.
fn read_row(chars: &Vec<char>, from: usize, to: usize) -> (r: Option<(String, u32, u64)>)
    requires
        from <= to <= chars@.len(),
    ensures
        ({
            let line = chars@.subrange(from as int, to as int);
            match r {
                Some((id, count, last)) => row_of(line) == Some((id@, (count, last))),
                None => row_of(line) is None,
            }
        }),
{
    let ghost line = chars@.subrange(from as int, to as int);
    let one: usize = seek(chars, from, to, '\t');
    if one == to {
        return None;
    }
    let ghost rest = line.skip(one - from + 1);
    assert(rest =~= chars@.subrange(one + 1, to as int));
    let two: usize = seek(chars, one + 1, to, '\t');
    if two == to {
        return None;
    }
    let count_text = string_of(chars, from, one);
    assert(count_text@ =~= line.take(one - from));
    let last_text = string_of(chars, one + 1, two);
    assert(last_text@ =~= rest.take(two - one - 1));
    let id = string_of(chars, two + 1, to);
    assert(id@ =~= rest.skip(two - one));
    match (parse_unsigned(&count_text, u32::MAX as u64), parse_unsigned(&last_text, u64::MAX)) {
        (Some(count), Some(last)) => {
            if two + 1 == to {
                None
            } else {
                Some((id, count as u32, last))
            }
        },
        _ => None,
    }
}

/// A row on its way into the text.
struct Line {
    id: Vec<char>,
    count: u32,
    last_used: u64,
}

impl Line {
    spec fn row(self) -> Row {
        (self.id@, (self.count, self.last_used))
    }
}

impl Ordered for Line {
    closed spec fn le(self, other: Self) -> bool {
        self.count > other.count || (self.count == other.count && crate::text::not_after(
            self.id@,
            other.id@,
        ))
    }

    proof fn le_total(a: Self, b: Self) {
        crate::text::not_after_total(a.id@, b.id@);
    }

    proof fn le_transitive(a: Self, b: Self, c: Self) {
        if a.count == c.count {
            crate::text::not_after_transitive(a.id@, b.id@, c.id@);
        }
    }

    fn at_most(&self, other: &Self) -> (r: bool) {
        self.count > other.count || (self.count == other.count && comes_no_later(
            &self.id,
            &other.id,
        ))
    }
}

impl Usage {
    /// The store that `text` holds. Lines that record nothing are skipped.
    pub fn load(text: &str) -> (r: Self)
        ensures
            r.wf(),
            r@ == store_of(text@),
    {
        let chars = chars_of(text);
        let mut usage = Usage::new();
        let mut from: usize = 0;
        assert(text@.skip(0) == text@);
        while from < chars.len()
            invariant
                chars@ == text@,
                from <= chars@.len(),
                usage.wf(),
                store_of(text@) == stored(usage@, lines(text@.skip(from as int))),
            decreases chars@.len() - from,
        {
            let ghost rest = text@.skip(from as int);
            assert(rest == chars@.subrange(from as int, chars@.len() as int));
            let end: usize = seek(&chars, from, chars.len(), '\n');
            let ghost found = lines(rest);
            // A line feed takes a carriage return in front of it along.
            let to: usize = if end < chars.len() && end > from && chars[end - 1] == '\r' {
                end - 1
            } else {
                end
            };
            let ghost line = chars@.subrange(from as int, to as int);
            proof {
                if end == chars@.len() {
                    assert(rest == line);
                    assert(found == seq![rest]);
                } else {
                    let whole = rest.take(end - from);
                    assert(whole =~= chars@.subrange(from as int, end as int));
                    assert(without_return(whole) =~= line);
                    assert(rest.skip(end - from + 1) =~= text@.skip(end + 1));
                }
                assert(found[0] == line);
            }
            match read_row(&chars, from, to) {
                Some((id, count, last)) => usage.put(id, count, last),
                None => {},
            }
            if end < chars.len() {
                from = end + 1;
            } else {
                from = end;
            }
            proof {
                if end == chars@.len() {
                    assert(text@.skip(from as int) == Seq::<char>::empty());
                    assert(found.drop_first() =~= lines(text@.skip(from as int)));
                } else {
                    assert(found.drop_first() =~= lines(text@.skip(from as int)));
                }
            }
        }
        assert(text@.skip(from as int) == Seq::<char>::empty());
        usage
    }

    /// The store as text, most launched first.
    pub fn render(&self) -> (r: String)
        requires
            self.wf(),
        ensures
            exists|rows: Seq<Row>| #[trigger] lists(self@, rows) && r@ == written(rows),
            (forall|id: Seq<char>| #[trigger] self@.contains_key(id) ==> storable(id)) ==> store_of(
                r@,
            ) == self@,
    {
        let mut unsorted: Vec<Line> = Vec::new();
        let mut i: usize = 0;
        while i < self.slots.len()
            invariant
                i <= self.slots@.len(),
                unsorted@.len() == i,
                forall|k: int|
                    0 <= k < i ==> (#[trigger] unsorted@[k]).row() == (
                        self.slots@[k].id@,
                        (self.slots@[k].count, self.slots@[k].last_used),
                    ),
            decreases self.slots@.len() - i,
        {
            let slot = &self.slots[i];
            unsorted.push(
                Line { id: chars_of(&slot.id), count: slot.count, last_used: slot.last_used },
            );
            i += 1;
        }
        let ghost all = unsorted@;
        let many: usize = unsorted.len();
        let sorted = take_top(unsorted, many);
        let ghost rows = sorted@.map_values(|line: Line| line.row());
        proof {
            let order = choose|order: Seq<Line>|
                #![trigger crate::order::is_sorted_from(all, order)]
                crate::order::is_sorted_from(all, order) && sorted@ == order.take(
                    sorted@.len() as int,
                );
            assert(sorted@ =~= order);
            let path = choose|path: Seq<int>| crate::order::sorts(all, sorted@, path);
            self.lemma_lists(all, sorted@, path, rows);
        }

        let mut out = String::new();
        let mut i: usize = 0;
        assert(rows.skip(0) == rows);
        while i < sorted.len()
            invariant
                i <= sorted@.len(),
                rows == sorted@.map_values(|line: Line| line.row()),
                written(rows) == out@ + written(rows.skip(i as int)),
            decreases sorted@.len() - i,
        {
            let ghost begun = out@;
            let line = &sorted[i];
            push_decimal(&mut out, line.count as u64);
            out.push('\t');
            push_decimal(&mut out, line.last_used);
            out.push('\t');
            let id = string_of(&line.id, 0, line.id.len());
            assert(id@ =~= line.id@);
            out.append(&id);
            out.push('\n');
            proof {
                let rest = rows.skip(i as int);
                assert(rest[0] == line.row());
                assert(rest.drop_first() =~= rows.skip(i + 1));
                assert(out@ =~= begun + line_of(line.row()).push('\n'));
                assert(out@ + written(rows.skip(i + 1)) =~= begun + (line_of(line.row()).push('\n')
                    + written(rows.skip(i + 1))));
            }
            i += 1;
        }
        assert(rows.skip(i as int) =~= Seq::<Row>::empty());
        assert(out@ =~= written(rows));
        proof {
            if forall|id: Seq<char>| #[trigger] self@.contains_key(id) ==> storable(id) {
                written_store_reads_back(self@, rows);
            }
        }
        out
    }

    /// The slots, sorted, list the store.
    proof fn lemma_lists(self, all: Seq<Line>, sorted: Seq<Line>, path: Seq<int>, rows: Seq<Row>)
        requires
            self.wf(),
            all.len() == self.slots@.len(),
            forall|k: int|
                0 <= k < all.len() ==> (#[trigger] all[k]).row() == (
                    self.slots@[k].id@,
                    (self.slots@[k].count, self.slots@[k].last_used),
                ),
            crate::order::sorts(all, sorted, path),
            rows == sorted.map_values(|line: Line| line.row()),
        ensures
            lists(self@, rows),
    {
        assert forall|k: int| 0 <= k < rows.len() implies self@.contains_key((#[trigger] rows[k]).0)
            && self@[rows[k].0] == rows[k].1 by {
            assert(sorted[k] == all[path[k]]);
            self.lemma_slot(path[k]);
        }
        assert forall|id: Seq<char>| #[trigger] self@.contains_key(id) implies exists|k: int|
            0 <= k < rows.len() && (#[trigger] rows[k]).0 == id by {
            let i = slot_of(self.slots@, id);
            assert(self.slots@[i].id@ == id);
            crate::order::permutation_reaches_all(path, i);
            let k = choose|k: int| 0 <= k < path.len() && #[trigger] path[k] == i;
            assert(sorted[k] == all[i]);
            assert(rows[k].0 == id);
        }
        assert forall|j: int, k: int|
            #![trigger rows[j], rows[k]]
            0 <= j < k < rows.len() implies goes_before(rows[j], rows[k]) by {
            assert(sorted[j] == all[path[j]] && sorted[k] == all[path[k]]);
            assert(sorted[j].le(sorted[k]));
            assert(path[j] != path[k]);
            assert(self.slots@[path[j]].id@ != self.slots@[path[k]].id@);
        }
    }
}

// ---------------------------------------------------------------------------
// Where the store is kept
// ---------------------------------------------------------------------------

/// The file of the store.
pub open spec fn store_file(named: Option<Seq<char>>, home: Option<Seq<char>>) -> Option<
    Seq<char>,
> {
    match base_directory(named, home, ".local/share"@) {
        Some(base) => Some(joined(joined(base, "launchr"@), "usage.tsv"@)),
        None => None,
    }
}

/// The file of the store, given `XDG_DATA_HOME` and `HOME`.
pub fn store_path(xdg: &Option<String>, home: &Option<String>) -> (r: Option<String>)
    ensures
        text_of(r) == store_file(text_of(*xdg), text_of(*home)),
        xdg is Some && crate::path::absolute(xdg.unwrap()@) ==> r is Some && r.unwrap()@ == joined(
            joined(xdg.unwrap()@, "launchr"@),
            "usage.tsv"@,
        ),
        !(xdg is Some && crate::path::absolute(xdg.unwrap()@)) ==> (match home {
            Some(home) => r is Some && r.unwrap()@ == joined(
                joined(joined(home@, ".local/share"@), "launchr"@),
                "usage.tsv"@,
            ),
            None => r is None,
        }),
{
    match base_dir(xdg, home, ".local/share") {
        Some(base) => Some(join(join(&base, "launchr").as_str(), "usage.tsv")),
        None => None,
    }
}

} // verus!
