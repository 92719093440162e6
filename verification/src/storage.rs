//! The wallet table: what it holds, how a row is inserted, in which order
//! the rows are listed, and how a failed insertion is told apart.

use crate::text::{contains, str_contains};
use crate::wallet::{records_of, WalletAddress, WalletRecord};
use vstd::prelude::*;

verus! {

/// Why the table did not do what it was asked.
#[derive(Debug, Clone, Copy, PartialEq, Eq)]
pub enum StorageError {
    /// The address is in the table already.
    DuplicateAddress,
    /// Anything else.
    Other,
}

/// What a database said of an insertion that failed.
#[derive(Debug, PartialEq, Eq)]
pub enum InsertFailure {
    /// The database itself turned the row down, with this message.
    Database { message: String },
    /// The failure lies elsewhere: the connection, the driver.
    Other,
}

/// The message of a database tells that a value meant to be unique is there
/// already.
pub open spec fn is_unique_violation(message: Seq<char>) -> bool {
    contains(message, "UNIQUE constraint failed"@)
}

/// The error that a failed insertion amounts to.
pub open spec fn classified(failure: InsertFailure) -> StorageError {
    match failure {
        InsertFailure::Database { message } => if is_unique_violation(message@) {
            StorageError::DuplicateAddress
        } else {
            StorageError::Other
        },
        InsertFailure::Other => StorageError::Other,
    }
}

/// Tells a duplicate address from every other failure, by what the database
/// said and not by looking the address up first.
pub fn classify_failure(failure: &InsertFailure) -> (e: StorageError)
    ensures
        e == classified(*failure),
{
    match failure {
        InsertFailure::Database { message } => {
            if str_contains(message.as_str(), "UNIQUE constraint failed") {
                StorageError::DuplicateAddress
            } else {
                StorageError::Other
            }
        },
        InsertFailure::Other => StorageError::Other,
    }
}

/// `a` comes before `b` in a listing: it was created later, or at the same
/// time and inserted later.
pub open spec fn is_newer(a: WalletRecord, b: WalletRecord) -> bool {
    a.created_at > b.created_at || (a.created_at == b.created_at && a.id > b.id)
}

/// Each record of `rows` is newer than all that follow it.
pub open spec fn newest_first(rows: Seq<WalletRecord>) -> bool {
    forall|i: int, j: int| 0 <= i < j < rows.len() ==> is_newer(rows[i], rows[j])
}

/// `a` and `b` hold the same records, as many of them.
pub open spec fn same_records(a: Seq<WalletRecord>, b: Seq<WalletRecord>) -> bool {
    a.len() == b.len() && forall|r: WalletRecord| a.contains(r) <==> b.contains(r)
}

/// The largest id that the table assigns.
pub const MAX_ID: i64 = 0x7fff_ffff_ffff_ffff;

/// What a `WalletTable` stands for in contracts: its rows in the order in
/// which they were inserted, and the last id it assigned (0 before the
/// first).
pub struct TableView {
    pub rows: Seq<WalletRecord>,
    pub last_id: int,
}

impl TableView {
    /// Ids rise with every insertion and stay within what was assigned, and
    /// no address stands in two rows.
    pub open spec fn wf(self) -> bool {
        &&& 0 <= self.last_id <= MAX_ID
        &&& forall|i: int| 0 <= i < self.rows.len() ==> 1 <= (#[trigger] self.rows[i]).id <= self.last_id
        &&& forall|i: int, j: int|
            0 <= i < j < self.rows.len() ==> (#[trigger] self.rows[i]).id < (#[trigger] self.rows[j]).id
        &&& forall|i: int, j: int|
            0 <= i < j < self.rows.len() ==> (#[trigger] self.rows[i]).address != (#[trigger] self.rows[j]).address
    }

    /// Some row holds `address`.
    pub open spec fn holds(self, address: Seq<char>) -> bool {
        exists|i: int| 0 <= i < self.rows.len() && (#[trigger] self.rows[i]).address == address
    }

    /// How many rows hold `address`.
    pub open spec fn count_of(self, address: Seq<char>) -> nat {
        self.rows.filter(|r: WalletRecord| r.address == address).len()
    }

    /// Every id has been assigned: the table takes no further row.
    pub open spec fn is_full(self) -> bool {
        self.last_id >= MAX_ID
    }

    /// The table after an attempt to insert `address` at the time `now`,
    /// and the row that was inserted or the reason why none was.
    pub open spec fn insert(self, address: Seq<char>, now: int) -> (
        TableView,
        Result<WalletRecord, StorageError>,
    ) {
        if self.holds(address) {
            (self, Err(StorageError::DuplicateAddress))
        } else if self.is_full() {
            (self, Err(StorageError::Other))
        } else {
            let row = WalletRecord { id: self.last_id + 1, address, created_at: now };
            (TableView { rows: self.rows.push(row), last_id: self.last_id + 1 }, Ok(row))
        }
    }

    /// `listing` is the table's rows, newest first.
    pub open spec fn is_listing(self, listing: Seq<WalletRecord>) -> bool {
        newest_first(listing) && same_records(listing, self.rows)
    }
}

/// The wallet table.
#[derive(Debug)]
pub struct WalletTable {
    rows: Vec<WalletAddress>,
    last_id: i64,
}

impl View for WalletTable {
    type V = TableView;

    closed spec fn view(&self) -> TableView {
        TableView { rows: records_of(self.rows@), last_id: self.last_id as int }
    }
}

/// What the outcome of an insertion stands for in contracts.
pub open spec fn outcome_view(outcome: Result<WalletAddress, StorageError>) -> Result<
    WalletRecord,
    StorageError,
> {
    match outcome {
        Ok(row) => Ok(row@),
        Err(e) => Err(e),
    }
}

/// Tells whether `a` comes before `b` in a listing.
fn comes_before(a: &WalletAddress, b: &WalletAddress) -> (r: bool)
    ensures
        r == is_newer(a@, b@),
{
    a.created_at > b.created_at || (a.created_at == b.created_at && a.id > b.id)
}

/// A sequence with one more element holds what it held, and that element.
proof fn lemma_insert_contains(s: Seq<WalletRecord>, at: int, x: WalletRecord, r: WalletRecord)
    requires
        0 <= at <= s.len(),
    ensures
        s.insert(at, x).contains(r) <==> (s.contains(r) || r == x),
{
    let t = s.insert(at, x);
    if t.contains(r) {
        let k = choose|k: int| 0 <= k < t.len() && t[k] == r;
        if k < at {
            assert(s[k] == r);
        } else if k > at {
            assert(s[k - 1] == r);
        }
    }
    if r == x {
        assert(t[at] == r);
    } else if s.contains(r) {
        let k = choose|k: int| 0 <= k < s.len() && s[k] == r;
        if k < at {
            assert(t[k] == r);
        } else {
            assert(t[k + 1] == r);
        }
    }
}

/// The first `n + 1` elements hold what the first `n` hold, and the next.
proof fn lemma_take_contains(s: Seq<WalletRecord>, n: int, r: WalletRecord)
    requires
        0 <= n < s.len(),
    ensures
        s.take(n + 1).contains(r) <==> (s.take(n).contains(r) || r == s[n]),
{
    let a = s.take(n);
    let b = s.take(n + 1);
    if b.contains(r) {
        let k = choose|k: int| 0 <= k < b.len() && b[k] == r;
        if k < n {
            assert(a[k] == r);
        }
    }
    if a.contains(r) {
        let k = choose|k: int| 0 <= k < a.len() && a[k] == r;
        assert(b[k] == r);
    } else if r == s[n] {
        assert(b[n] == r);
    }
}

/// Two listings of the same records, each newest first, are one listing.
pub proof fn lemma_newest_first_is_unique(a: Seq<WalletRecord>, b: Seq<WalletRecord>)
    requires
        newest_first(a),
        newest_first(b),
        same_records(a, b),
    ensures
        a == b,
    decreases a.len(),
{
    if a.len() == 0 {
        assert(a =~= b);
    } else {
        assert(b.contains(a[0]));
        assert(a.contains(b[0]));
        let k = choose|k: int| 0 <= k < b.len() && b[k] == a[0];
        let m = choose|m: int| 0 <= m < a.len() && a[m] == b[0];
        if k > 0 {
            assert(is_newer(b[0], b[k]));
            if m > 0 {
                assert(is_newer(a[0], a[m]));
            }
        }
        assert(a[0] == b[0]);
        let ta = a.drop_first();
        let tb = b.drop_first();
        assert forall|r: WalletRecord| ta.contains(r) <==> tb.contains(r) by {
            if ta.contains(r) {
                let i = choose|i: int| 0 <= i < ta.len() && ta[i] == r;
                assert(a[i + 1] == r);
                assert(is_newer(a[0], a[i + 1]));
                assert(b.contains(r));
                let j = choose|j: int| 0 <= j < b.len() && b[j] == r;
                assert(tb[j - 1] == r);
            }
            if tb.contains(r) {
                let i = choose|i: int| 0 <= i < tb.len() && tb[i] == r;
                assert(b[i + 1] == r);
                assert(is_newer(b[0], b[i + 1]));
                assert(a.contains(r));
                let j = choose|j: int| 0 <= j < a.len() && a[j] == r;
                assert(ta[j - 1] == r);
            }
        }
        assert forall|i: int, j: int| 0 <= i < j < ta.len() implies is_newer(ta[i], ta[j]) by {
            assert(is_newer(a[i + 1], a[j + 1]));
        }
        assert forall|i: int, j: int| 0 <= i < j < tb.len() implies is_newer(tb[i], tb[j]) by {
            assert(is_newer(b[i + 1], b[j + 1]));
        }
        lemma_newest_first_is_unique(ta, tb);
        assert(a =~= seq![a[0]] + ta);
        assert(b =~= seq![b[0]] + tb);
    }
}

/// A table has one listing and no other.
pub proof fn theorem_listing_is_unique(
    table: TableView,
    a: Seq<WalletRecord>,
    b: Seq<WalletRecord>,
)
    requires
        table.is_listing(a),
        table.is_listing(b),
    ensures
        a == b,
{
    lemma_newest_first_is_unique(a, b);
}

/// Where no row was inserted at an earlier time than the row before it,
/// the listing is the rows in the reverse of the order of insertion: after
/// A, B and C it is C, B, A.
pub proof fn theorem_listing_reverses_insertion(table: TableView, listing: Seq<WalletRecord>)
    requires
        table.wf(),
        forall|i: int, j: int|
            0 <= i < j < table.rows.len() ==> table.rows[i].created_at <= table.rows[j].created_at,
        table.is_listing(listing),
    ensures
        listing == table.rows.reverse(),
{
    let rows = table.rows;
    let back = rows.reverse();
    let n = rows.len() as int;
    assert forall|i: int, j: int| 0 <= i < j < back.len() implies is_newer(back[i], back[j]) by {
        assert(rows[n - 1 - j].id < rows[n - 1 - i].id);
        assert(rows[n - 1 - j].created_at <= rows[n - 1 - i].created_at);
    }
    assert forall|r: WalletRecord| back.contains(r) <==> rows.contains(r) by {
        if back.contains(r) {
            let i = choose|i: int| 0 <= i < back.len() && back[i] == r;
            assert(rows[n - 1 - i] == r);
        }
        if rows.contains(r) {
            let i = choose|i: int| 0 <= i < rows.len() && rows[i] == r;
            assert(back[n - 1 - i] == r);
        }
    }
    lemma_newest_first_is_unique(listing, back);
}

/// An insertion leaves the table well formed. Where it takes the row, the
/// row has an id above every id before it; where it does not, nothing
/// changes.
pub proof fn theorem_insert_keeps_table(table: TableView, address: Seq<char>, now: int)
    requires
        table.wf(),
    ensures
        table.insert(address, now).0.wf(),
        table.insert(address, now).0.holds(address) || table.is_full(),
        table.insert(address, now).1 is Err ==> table.insert(address, now).0 == table,
        table.insert(address, now).1 matches Ok(row) ==> row.id > table.last_id
            && table.insert(address, now).0.rows == table.rows.push(row),
{
    let (next, outcome) = table.insert(address, now);
    if outcome is Ok {
        let row = outcome->Ok_0;
        assert(next.rows[table.rows.len() as int].address == address);
        assert forall|i: int, j: int| 0 <= i < j < next.rows.len() implies (
        #[trigger] next.rows[i]).address != (#[trigger] next.rows[j]).address by {
            if j == table.rows.len() {
                assert(table.rows[i].address != address);
            }
        }
    }
}

/// A table counts no row for an address that it does not hold.
pub proof fn lemma_count_of_absent(table: TableView, address: Seq<char>)
    requires
        !table.holds(address),
    ensures
        table.count_of(address) == 0,
    decreases table.rows.len(),
{
    reveal(Seq::filter);
    if table.rows.len() > 0 {
        let rest = TableView { rows: table.rows.drop_last(), last_id: table.last_id };
        assert(table.rows.last().address != address) by {
            assert(table.rows[table.rows.len() - 1].address != address);
        }
        assert forall|i: int| 0 <= i < rest.rows.len() implies (#[trigger] rest.rows[i]).address
            != address by {
            assert(table.rows[i].address != address);
        }
        lemma_count_of_absent(rest, address);
    }
}

/// A well-formed table counts one row for an address that it holds.
pub proof fn theorem_held_address_counts_once(table: TableView, address: Seq<char>)
    requires
        table.wf(),
        table.holds(address),
    ensures
        table.count_of(address) == 1,
    decreases table.rows.len(),
{
    reveal(Seq::filter);
    let n = table.rows.len() as int;
    let at = choose|i: int| 0 <= i < n && (#[trigger] table.rows[i]).address == address;
    let rest = TableView { rows: table.rows.drop_last(), last_id: table.last_id };
    assert forall|i: int| 0 <= i < rest.rows.len() implies rest.rows[i] == table.rows[i] by {}
    if table.rows.last().address == address {
        assert(!rest.holds(address)) by {
            if rest.holds(address) {
                let i = choose|i: int|
                    0 <= i < rest.rows.len() && (#[trigger] rest.rows[i]).address == address;
                assert(table.rows[i].address != table.rows[n - 1].address);
            }
        }
        lemma_count_of_absent(rest, address);
    } else {
        assert(at < n - 1);
        assert(rest.rows[at].address == address);
        assert(rest.wf());
        theorem_held_address_counts_once(rest, address);
    }
}

impl WalletTable {
    /// An empty table that has assigned no id yet.
    pub fn new() -> (table: WalletTable)
        ensures
            table@.wf(),
            table@ == (TableView { rows: Seq::empty(), last_id: 0 }),
    {
        let table = WalletTable { rows: Vec::new(), last_id: 0 };
        assert(table@.rows =~= Seq::empty());
        table
    }

    /// The number of rows.
    pub fn len(&self) -> (n: usize)
        ensures
            n == self@.rows.len(),
    {
        self.rows.len()
    }

    /// Tells whether some row holds `address`.
    pub fn holds(&self, address: &str) -> (b: bool)
        ensures
            b == self@.holds(address@),
    {
        let wanted = address.to_owned();
        let n: usize = self.rows.len();
        let mut i: usize = 0;
        while i < n
            invariant
                i <= n,
                n == self.rows@.len(),
                wanted@ == address@,
                forall|k: int| 0 <= k < i ==> (#[trigger] self@.rows[k]).address != address@,
            decreases n - i,
        {
            if self.rows[i].address == wanted {
                assert(self@.rows[i as int].address == address@);
                return true;
            }
            i += 1;
        }
        false
    }

    /// Inserts `address` with the next id and the time `now`, unless a row
    /// holds it already or every id is used up. A table that turns the
    /// address down is left as it was.
    pub fn insert_address(&mut self, address: &str, now: i64) -> (r: Result<
        WalletAddress,
        StorageError,
    >)
        requires
            old(self)@.wf(),
        ensures
            final(self)@.wf(),
            (final(self)@, outcome_view(r)) == old(self)@.insert(address@, now as int),
    {
        if self.holds(address) {
            return Err(StorageError::DuplicateAddress);
        }
        if self.last_id >= MAX_ID {
            return Err(StorageError::Other);
        }
        let id: i64 = self.last_id + 1;
        let row = WalletAddress { id, address: address.to_owned(), created_at: now };
        let inserted = row.duplicate();
        self.rows.push(row);
        self.last_id = id;
        proof {
            assert(self@.rows =~= old(self)@.rows.push(inserted@));
            assert forall|i: int, j: int| 0 <= i < j < self@.rows.len() implies (
            #[trigger] self@.rows[i]).address != (#[trigger] self@.rows[j]).address by {
                if j == old(self)@.rows.len() {
                    assert(old(self)@.rows[i].address != address@);
                }
            }
        }
        Ok(inserted)
    }

    /// The rows of the table, newest first: by the time of insertion, and
    /// among rows of one time by id, the later the earlier. An empty table
    /// gives an empty list.
    pub fn list_addresses(&self) -> (listing: Vec<WalletAddress>)
        requires
            self@.wf(),
        ensures
            self@.is_listing(records_of(listing@)),
    {
        let mut listing: Vec<WalletAddress> = Vec::new();
        let n: usize = self.rows.len();
        let mut i: usize = 0;
        while i < n
            invariant
                self@.wf(),
                n == self.rows@.len(),
                i <= n,
                listing@.len() == i,
                newest_first(records_of(listing@)),
                forall|r: WalletRecord|
                    records_of(listing@).contains(r) <==> self@.rows.take(i as int).contains(r),
            decreases n - i,
        {
            let row = &self.rows[i];
            let m: usize = listing.len();
            let mut at: usize = 0;
            while at < m && comes_before(&listing[at], row)
                invariant
                    m == listing@.len(),
                    at <= m,
                    forall|k: int| 0 <= k < at ==> is_newer(#[trigger] records_of(listing@)[k], row@),
                decreases m - at,
            {
                at += 1;
            }
            let ghost before = records_of(listing@);
            listing.insert(at, row.duplicate());
            proof {
                let after = records_of(listing@);
                assert(after =~= before.insert(at as int, row@));
                assert(row@ == self@.rows[i as int]);
                assert forall|r: WalletRecord| after.contains(r) <==> self@.rows.take(
                    i + 1,
                ).contains(r) by {
                    lemma_insert_contains(before, at as int, row@, r);
                    lemma_take_contains(self@.rows, i as int, r);
                }
                assert forall|a: int, b: int| 0 <= a < b < after.len() implies is_newer(
                    after[a],
                    after[b],
                ) by {
                    if b == at {
                        assert(after[a] == before[a]);
                    } else if a == at {
                        // what stood at `at` is an earlier row: its id is smaller
                        assert(before.contains(before[at as int]));
                        let older = before[at as int];
                        assert(self@.rows.take(i as int).contains(older));
                        let k = choose|k: int|
                            0 <= k < self@.rows.take(i as int).len() && self@.rows.take(i as int)[k]
                                == older;
                        assert(self@.rows[k].id < self@.rows[i as int].id);
                        assert(is_newer(row@, older));
                        if b > at + 1 {
                            assert(is_newer(before[at as int], before[b - 1]));
                        }
                    } else {
                        let a0 = if a < at { a } else { a - 1 };
                        let b0 = if b < at { b } else { b - 1 };
                        assert(is_newer(before[a0], before[b0]));
                    }
                }
            }
            i += 1;
        }
        assert(self@.rows.take(n as int) =~= self@.rows);
        listing
    }
}

} // verus!
