//! The answers of the wallet and health endpoints, and the two wallet
//! requests carried out against a wallet table.

use crate::response::{error_response, error_view, Body, BodyView, Response, ResponseView};
use crate::response::{BAD_REQUEST, CONFLICT, CREATED, INTERNAL_SERVER_ERROR, OK};
use crate::storage::{theorem_held_address_counts_once, theorem_insert_keeps_table};
use crate::storage::{StorageError, TableView, WalletTable};
use crate::text::{is_whitespace, theorem_trimmed, trimmed};
use crate::wallet::{is_well_formed, records_of, validate_address, validated, ValidationError};
use crate::wallet::{WalletAddress, WalletRecord};
use vstd::prelude::*;

verus! {

/// The answer to an address that was turned down for its shape.
pub open spec fn rejected_view(e: ValidationError) -> ResponseView {
    match e {
        ValidationError::Empty => error_view(
            BAD_REQUEST as int,
            "Wallet address cannot be empty"@,
        ),
        ValidationError::InvalidFormat => error_view(
            BAD_REQUEST as int,
            "Invalid wallet address format"@,
        ),
    }
}

/// The answer to an address that was inserted under `id`.
pub open spec fn added_view(id: int, address: Seq<char>) -> ResponseView {
    ResponseView {
        status: CREATED as int,
        body: BodyView::WalletAdded {
            id,
            address,
            message: "Wallet address added successfully"@,
        },
    }
}

/// The answer to an address that the table did not take.
pub open spec fn not_added_view(e: StorageError) -> ResponseView {
    match e {
        StorageError::DuplicateAddress => error_view(
            CONFLICT as int,
            "Wallet address already exists"@,
        ),
        StorageError::Other => error_view(
            INTERNAL_SERVER_ERROR as int,
            "Failed to add wallet address"@,
        ),
    }
}

/// The answer that lists `wallets`, in their order, and counts them.
pub open spec fn listed_view(wallets: Seq<WalletRecord>) -> ResponseView {
    ResponseView { status: OK as int, body: BodyView::Wallets { wallets, count: wallets.len() } }
}

/// The answer where the table could not be read.
pub open spec fn not_listed_view() -> ResponseView {
    error_view(INTERNAL_SERVER_ERROR as int, "Failed to fetch wallet addresses"@)
}

/// The answer of the health endpoint.
pub open spec fn health_view() -> ResponseView {
    ResponseView {
        status: OK as int,
        body: BodyView::Health {
            status: "ok"@,
            message: "Monad NewJeans File Server is running"@,
        },
    }
}

/// The answer to an attempt to insert `address`, given what the table made
/// of it.
pub open spec fn insertion_view(
    address: Seq<char>,
    outcome: Result<WalletRecord, StorageError>,
) -> ResponseView {
    match outcome {
        Ok(row) => added_view(row.id, address),
        Err(e) => not_added_view(e),
    }
}

/// The table after a request to add `input` at the time `now`, and the
/// answer: an input of the wrong shape leaves the table alone.
pub open spec fn add_wallet(table: TableView, input: Seq<char>, now: int) -> (
    TableView,
    ResponseView,
) {
    match validated(input) {
        Err(e) => (table, rejected_view(e)),
        Ok(address) => {
            let (next, outcome) = table.insert(address, now);
            (next, insertion_view(address, outcome))
        },
    }
}

/// The table and the answers after one request to add `input` for each
/// time of `times`, in their order.
pub open spec fn add_wallet_repeatedly(table: TableView, input: Seq<char>, times: Seq<int>) -> (
    TableView,
    Seq<ResponseView>,
)
    decreases times.len(),
{
    if times.len() == 0 {
        (table, Seq::empty())
    } else {
        let (before, answers) = add_wallet_repeatedly(table, input, times.drop_last());
        let (after, answer) = add_wallet(before, input, times.last());
        (after, answers.push(answer))
    }
}

/// A request leaves the table well formed, whatever it asks.
pub proof fn theorem_add_keeps_table(table: TableView, input: Seq<char>, now: int)
    requires
        table.wf(),
    ensures
        add_wallet(table, input, now).0.wf(),
{
    if validated(input) is Ok {
        theorem_insert_keeps_table(table, validated(input)->Ok_0, now);
    }
}

/// An address of the right shape that the table can take is added once
/// and then turned down as a duplicate: the first request is answered with
/// 201 where the table did not hold the address, and the request that
/// follows it with 409, which changes nothing.
pub proof fn theorem_second_add_conflicts(
    table: TableView,
    input: Seq<char>,
    first: int,
    second: int,
)
    requires
        table.wf(),
        is_well_formed(trimmed(input)),
        !table.is_full(),
    ensures
        ({
            let (once, first_answer) = add_wallet(table, input, first);
            let (twice, second_answer) = add_wallet(once, input, second);
            &&& !table.holds(trimmed(input)) ==> first_answer.status == 201
            &&& first_answer.status == 201 || first_answer.status == 409
            &&& second_answer == not_added_view(StorageError::DuplicateAddress)
            &&& second_answer.status == 409
            &&& twice == once
        }),
{
    theorem_insert_keeps_table(table, trimmed(input), first);
}

/// An input whose trimmed text has not the shape of an address is
/// answered with 400, and the table stays as it was.
pub proof fn theorem_malformed_is_rejected(table: TableView, input: Seq<char>, now: int)
    requires
        !is_well_formed(trimmed(input)),
    ensures
        add_wallet(table, input, now).1.status == 400,
        add_wallet(table, input, now).1.body is Error,
        add_wallet(table, input, now).0 == table,
{
}

/// Only a request that is answered with 201 changes the table, and it adds
/// one row: the trimmed input, with no whitespace at its ends, under the id
/// that the answer names.
pub proof fn theorem_added_address_is_trimmed(table: TableView, input: Seq<char>, now: int)
    requires
        table.wf(),
    ensures
        ({
            let (next, answer) = add_wallet(table, input, now);
            if answer.status == 201 {
                let row = next.rows.last();
                &&& next.rows == table.rows.push(row)
                &&& row.address == trimmed(input)
                &&& row.created_at == now
                &&& is_well_formed(row.address)
                &&& !is_whitespace(row.address.first())
                &&& !is_whitespace(row.address.last())
                &&& answer == added_view(row.id, row.address)
            } else {
                next == table
            }
        }),
{
    theorem_trimmed(input);
    if validated(input) is Ok {
        theorem_insert_keeps_table(table, trimmed(input), now);
    }
}

/// Of any number of requests to add one new address, in whatever order
/// they reach the table, the first is answered with 201 and every other
/// with 409, and the table then holds the address in one row, the row of
/// the first request.
pub proof fn theorem_repeated_add_inserts_once(table: TableView, input: Seq<char>, times: Seq<int>)
    requires
        table.wf(),
        is_well_formed(trimmed(input)),
        !table.holds(trimmed(input)),
        !table.is_full(),
        times.len() >= 1,
    ensures
        ({
            let (after, answers) = add_wallet_repeatedly(table, input, times);
            &&& answers.len() == times.len()
            &&& answers[0].status == 201
            &&& forall|k: int| 1 <= k < answers.len() ==> (#[trigger] answers[k]).status == 409
            &&& after == add_wallet(table, input, times[0]).0
            &&& after.wf()
            &&& after.count_of(trimmed(input)) == 1
        }),
    decreases times.len(),
{
    let address = trimmed(input);
    theorem_insert_keeps_table(table, address, times[0]);
    let once = add_wallet(table, input, times[0]).0;
    if times.len() == 1 {
        assert(times.drop_last().len() == 0);
        assert(times.last() == times[0]);
    } else {
        let earlier = times.drop_last();
        assert(earlier[0] == times[0]);
        theorem_repeated_add_inserts_once(table, input, earlier);
        let (before, answers) = add_wallet_repeatedly(table, input, earlier);
        assert(before == once);
    }
    theorem_held_address_counts_once(once, address);
}

/// Answers an address that was turned down for its shape.
pub fn rejected(e: ValidationError) -> (r: Response)
    ensures
        r@ == rejected_view(e),
{
    match e {
        ValidationError::Empty => error_response(BAD_REQUEST, "Wallet address cannot be empty"),
        ValidationError::InvalidFormat => error_response(
            BAD_REQUEST,
            "Invalid wallet address format",
        ),
    }
}

/// Answers an address that was inserted under `id`.
pub fn added(id: i64, address: &str) -> (r: Response)
    ensures
        r@ == added_view(id as int, address@),
{
    Response {
        status: CREATED,
        body: Body::WalletAdded {
            id,
            address: address.to_owned(),
            message: "Wallet address added successfully".to_owned(),
        },
    }
}

/// Answers an address that the table did not take.
pub fn not_added(e: StorageError) -> (r: Response)
    ensures
        r@ == not_added_view(e),
{
    match e {
        StorageError::DuplicateAddress => error_response(CONFLICT, "Wallet address already exists"),
        StorageError::Other => error_response(
            INTERNAL_SERVER_ERROR,
            "Failed to add wallet address",
        ),
    }
}

/// Answers with `wallets`, in their order, and their number.
pub fn listed(wallets: Vec<WalletAddress>) -> (r: Response)
    ensures
        r@ == listed_view(records_of(wallets@)),
{
    let count: usize = wallets.len();
    Response { status: OK, body: Body::Wallets { wallets, count } }
}

/// Answers where the table could not be read.
pub fn not_listed() -> (r: Response)
    ensures
        r@ == not_listed_view(),
{
    error_response(INTERNAL_SERVER_ERROR, "Failed to fetch wallet addresses")
}

/// Answers the health endpoint. The answer depends on nothing.
pub fn health_check() -> (r: Response)
    ensures
        r@ == health_view(),
        r@.status == 200,
{
    Response {
        status: OK,
        body: Body::Health {
            status: "ok".to_owned(),
            message: "Monad NewJeans File Server is running".to_owned(),
        },
    }
}

/// Carries out a request to add the address `input` at the time `now`:
/// trims it, checks its shape, inserts it, and answers.
pub fn add_wallet_address(table: &mut WalletTable, input: &str, now: i64) -> (r: Response)
    requires
        old(table)@.wf(),
    ensures
        final(table)@.wf(),
        (final(table)@, r@) == add_wallet(old(table)@, input@, now as int),
{
    match validate_address(input) {
        Err(e) => rejected(e),
        Ok(address) => {
            match table.insert_address(address, now) {
                Ok(row) => added(row.id, address),
                Err(e) => not_added(e),
            }
        },
    }
}

/// Carries out a request to list the addresses: all rows, newest first.
pub fn get_all_wallet_addresses(table: &WalletTable) -> (r: Response)
    requires
        table@.wf(),
    ensures
        r@.body matches BodyView::Wallets { wallets, .. } && table@.is_listing(wallets) && r@
            == listed_view(wallets),
{
    listed(table.list_addresses())
}

} // verus!
