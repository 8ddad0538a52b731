//! The published snapshot of the book: how it is written, and how a request for it is answered.
use serde_json::Value;
use vstd::prelude::*;
use vstd::string::*;

verus! {

/// A JSON value, as `serde_json` holds it. It is carried through and never looked into.
#[verifier::external_type_specification]
#[verifier::external_body]
pub struct ExValue(serde_json::Value);

/// Why a text is no JSON, as `serde_json` tells it.
#[verifier::external_type_specification]
#[verifier::external_body]
pub struct ExError(serde_json::Error);

/// The value that `serde_json::from_str` reads from `text`, or `None` if it reads none.
pub uninterp spec fn json_value(text: Seq<char>) -> Option<serde_json::Value>;

/// Calls `serde_json::from_str` for a `serde_json::Value`. Whether it succeeds, and the value
/// that it then returns, depend on the text alone.
#[verifier::external_body]
fn parse_json(text: &str) -> (parsed: Result<serde_json::Value, serde_json::Error>)
    ensures
        match parsed {
            Ok(value) => json_value(text@) == Some(value),
            Err(_) => json_value(text@) is None,
        },
{
    serde_json::from_str(text)
}

/// The text of a snapshot whose bids and asks are written as `bids` and `asks`.
pub open spec fn snapshot_text_of(bids: Seq<char>, asks: Seq<char>) -> Seq<char> {
    "{\"asks\":"@ + asks + ",\"bids\":"@ + bids + "}"@
}

/// A snapshot text holds the text of the asks under `asks` and that of the bids under `bids`,
/// whatever they are, and nothing else.
pub proof fn law_snapshot_text_holds_both_sides(bids: Seq<char>, asks: Seq<char>)
    ensures
        snapshot_text_of(bids, asks).len() == 17int + asks.len() + bids.len(),
        snapshot_text_of(bids, asks).subrange(0, 8) == seq!['{', '"', 'a', 's', 'k', 's', '"', ':'],
        snapshot_text_of(bids, asks).subrange(8, 8int + asks.len()) == asks,
        snapshot_text_of(bids, asks).subrange(8int + asks.len(), 16int + asks.len()) == seq![
            ',', '"', 'b', 'i', 'd', 's', '"', ':',
        ],
        snapshot_text_of(bids, asks).subrange(16int + asks.len(), 16int + asks.len() + bids.len())
            == bids,
        snapshot_text_of(bids, asks)[16int + asks.len() + bids.len()] == '}',
{
    reveal_strlit("{\"asks\":");
    reveal_strlit(",\"bids\":");
    reveal_strlit("}");
    let text = snapshot_text_of(bids, asks);
    assert(text.subrange(8, 8int + asks.len()) =~= asks);
    assert(text.subrange(16int + asks.len(), 16int + asks.len() + bids.len()) =~= bids);
}

/// Writes a snapshot from the text of its bids and of its asks.
pub fn snapshot_text(bids: &str, asks: &str) -> (text: String)
    ensures
        text@ == snapshot_text_of(bids@, asks@),
        text@.len() == 17int + asks@.len() + bids@.len(),
        text@.subrange(0, 8) == seq!['{', '"', 'a', 's', 'k', 's', '"', ':'],
        text@.subrange(8, 8int + asks@.len()) == asks@,
        text@.subrange(8int + asks@.len(), 16int + asks@.len()) == seq![
            ',', '"', 'b', 'i', 'd', 's', '"', ':',
        ],
        text@.subrange(16int + asks@.len(), 16int + asks@.len() + bids@.len()) == bids@,
        text@[16int + asks@.len() + bids@.len()] == '}',
{
    proof {
        law_snapshot_text_holds_both_sides(bids@, asks@);
    }
    let mut text = String::from_str("{\"asks\":");
    text.append(asks);
    text.append(",\"bids\":");
    text.append(bids);
    text.append("}");
    text
}

/// What came of fetching the snapshot.
#[derive(Debug)]
pub enum SnapshotFetch {
    /// The store could not be reached.
    NoConnection,
    /// The store was reached, but did not answer.
    Failed,
    /// No snapshot was published yet.
    Missing,
    /// The text of the snapshot.
    Found(String),
}

/// The answer to a request for the book.
#[derive(Debug)]
pub enum BookReply {
    RedisUnavailable,
    /// The snapshot that was published.
    Published(Value),
    /// A book without orders.
    EmptyBook,
}

/// The answer once the store was reached: the published snapshot if there is one that can be
/// read, and the empty book otherwise.
pub open spec fn reply_of(snapshot: Option<Value>) -> BookReply {
    match snapshot {
        Some(value) => BookReply::Published(value),
        None => BookReply::EmptyBook,
    }
}

/// Once the store was reached, the answer is never an error; it is the empty book exactly if no
/// snapshot was read, and different snapshots are answered differently.
pub proof fn law_reached_store_answers(snapshot: Option<Value>, other: Option<Value>)
    ensures
        !(reply_of(snapshot) is RedisUnavailable),
        reply_of(snapshot) is EmptyBook <==> snapshot is None,
        snapshot matches Some(value) ==> reply_of(snapshot) == BookReply::Published(value),
        snapshot != other ==> reply_of(snapshot) != reply_of(other),
{
}

/// Answers with a snapshot that was read, or with the empty book if none was.
pub fn snapshot_reply(snapshot: Option<Value>) -> (reply: BookReply)
    ensures
        reply == reply_of(snapshot),
        snapshot matches Some(value) ==> reply == BookReply::Published(value),
        snapshot is None ==> reply is EmptyBook,
{
    match snapshot {
        Some(value) => BookReply::Published(value),
        None => BookReply::EmptyBook,
    }
}

/// Decides how a request for the book is answered.
pub fn orderbook_reply(fetch: SnapshotFetch) -> (reply: BookReply)
    ensures
        reply == match fetch {
            SnapshotFetch::NoConnection => BookReply::RedisUnavailable,
            SnapshotFetch::Failed => BookReply::EmptyBook,
            SnapshotFetch::Missing => BookReply::EmptyBook,
            SnapshotFetch::Found(text) => reply_of(json_value(text@)),
        },
        fetch is NoConnection <==> reply is RedisUnavailable,
        fetch is Failed || fetch is Missing ==> reply is EmptyBook,
        fetch matches SnapshotFetch::Found(text) ==> match json_value(text@) {
            Some(value) => reply == BookReply::Published(value),
            None => reply is EmptyBook,
        },
{
    match fetch {
        SnapshotFetch::NoConnection => BookReply::RedisUnavailable,
        SnapshotFetch::Failed | SnapshotFetch::Missing => snapshot_reply(None),
        SnapshotFetch::Found(text) => match parse_json(text.as_str()) {
            Ok(value) => snapshot_reply(Some(value)),
            Err(_) => snapshot_reply(None),
        },
    }
}

impl BookReply {
    /// The HTTP status of the answer.
    pub fn status(&self) -> (status: u16)
        ensures
            status == if *self is RedisUnavailable {
                503u16
            } else {
                200u16
            },
    {
        match self {
            BookReply::RedisUnavailable => 503,
            BookReply::Published(_) | BookReply::EmptyBook => 200,
        }
    }

    /// The name of the error, if the answer is one.
    pub fn error(&self) -> (error: Option<&'static str>)
        ensures
            match *self {
                BookReply::RedisUnavailable => error matches Some(name) && name@ == "redis"@,
                BookReply::Published(_) | BookReply::EmptyBook => error is None,
            },
    {
        match self {
            BookReply::RedisUnavailable => Some("redis"),
            BookReply::Published(_) | BookReply::EmptyBook => None,
        }
    }
}

} // verus!
