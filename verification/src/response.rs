//! What a request is answered with: a status code and one of a few bodies.

use crate::wallet::{records_of, WalletAddress, WalletRecord};
use vstd::prelude::*;

verus! {

/// Status of an answer that carries what was asked for.
pub const OK: u16 = 200;

/// Status of an answer to an insertion that took place.
pub const CREATED: u16 = 201;

/// Status of an answer to a request that is at fault.
pub const BAD_REQUEST: u16 = 400;

/// Status of an answer to an insertion of what is there already.
pub const CONFLICT: u16 = 409;

/// Status of an answer to a request that failed on the service's side.
pub const INTERNAL_SERVER_ERROR: u16 = 500;

/// The body of an answer. Each variant is one JSON object, with the fields
/// under their names.
#[derive(Debug, PartialEq, Eq)]
pub enum Body {
    /// `{ "error": .. }`
    Error { error: String },
    /// `{ "status": .., "message": .. }`
    Health { status: String, message: String },
    /// `{ "url": .. }`
    Url { url: String },
    /// `{ "urls": [..] }`
    Urls { urls: Vec<String> },
    /// `{ "id": .., "address": .., "message": .. }`
    WalletAdded { id: i64, address: String, message: String },
    /// `{ "wallets": [..], "count": .. }`
    Wallets { wallets: Vec<WalletAddress>, count: usize },
}

/// What a `Body` stands for in contracts.
pub enum BodyView {
    Error { error: Seq<char> },
    Health { status: Seq<char>, message: Seq<char> },
    Url { url: Seq<char> },
    Urls { urls: Seq<Seq<char>> },
    WalletAdded { id: int, address: Seq<char>, message: Seq<char> },
    Wallets { wallets: Seq<WalletRecord>, count: nat },
}

impl View for Body {
    type V = BodyView;

    open spec fn view(&self) -> BodyView {
        match *self {
            Body::Error { error } => BodyView::Error { error: error@ },
            Body::Health { status, message } => BodyView::Health {
                status: status@,
                message: message@,
            },
            Body::Url { url } => BodyView::Url { url: url@ },
            Body::Urls { urls } => BodyView::Urls { urls: urls.deep_view() },
            Body::WalletAdded { id, address, message } => BodyView::WalletAdded {
                id: id as int,
                address: address@,
                message: message@,
            },
            Body::Wallets { wallets, count } => BodyView::Wallets {
                wallets: records_of(wallets@),
                count: count as nat,
            },
        }
    }
}

/// An answer to one request.
#[derive(Debug, PartialEq, Eq)]
pub struct Response {
    pub status: u16,
    pub body: Body,
}

/// What a `Response` stands for in contracts.
pub struct ResponseView {
    pub status: int,
    pub body: BodyView,
}

impl View for Response {
    type V = ResponseView;

    open spec fn view(&self) -> ResponseView {
        ResponseView { status: self.status as int, body: self.body@ }
    }
}

/// The answer with status `status` whose body is the one field `error`.
pub open spec fn error_view(status: int, message: Seq<char>) -> ResponseView {
    ResponseView { status, body: BodyView::Error { error: message } }
}

/// An answer that reports `message` as an error, under `status`.
pub fn error_response(status: u16, message: &str) -> (r: Response)
    ensures
        r@ == error_view(status as int, message@),
{
    Response { status, body: Body::Error { error: message.to_owned() } }
}

} // verus!
