//! Order intake: how an order that a client posts is numbered, queued and answered.
use crate::types::{Order, Side};
use vstd::prelude::*;

verus! {

/// What a client asks for.
#[derive(Debug)]
pub struct OrderRequest {
    pub side: Side,
    pub price: u64,
    pub qty: u64,
}

/// The id of the order that instance `instance_id` counts as its `local`-th: the instance in the
/// upper half, the count in the lower.
pub open spec fn id_of(instance_id: u64, local: u64) -> u64 {
    (instance_id << 32u64) | local
}

/// The id of the order that instance `instance_id` counts as its `local`-th.
pub fn order_id(instance_id: u64, local: u64) -> (id: u64)
    ensures
        id == id_of(instance_id, local),
        id == (instance_id << 32u64) | local,
        instance_id < 0x1_0000_0000 && local < 0x1_0000_0000 ==> id == instance_id * 0x1_0000_0000
            + local,
{
    proof {
        if instance_id < 0x1_0000_0000 && local < 0x1_0000_0000 {
            lemma_id_halves(instance_id, local);
        }
    }
    (instance_id << 32u64) | local
}

proof fn lemma_id_halves(instance_id: u64, local: u64)
    requires
        instance_id < 0x1_0000_0000,
        local < 0x1_0000_0000,
    ensures
        id_of(instance_id, local) == instance_id * 0x1_0000_0000 + local,
{
    assert((instance_id << 32u64) | local == instance_id * 0x1_0000_0000 + local) by (bit_vector)
        requires
            instance_id < 0x1_0000_0000,
            local < 0x1_0000_0000,
    ;
}

/// Order ids are unique across instances: two of them agree only if the instance and the count
/// do, as long as neither needs more than its half of the id.
pub proof fn law_order_ids_are_unique(instance_a: u64, local_a: u64, instance_b: u64, local_b: u64)
    requires
        instance_a < 0x1_0000_0000,
        instance_b < 0x1_0000_0000,
        local_a < 0x1_0000_0000,
        local_b < 0x1_0000_0000,
    ensures
        id_of(instance_a, local_a) == id_of(instance_b, local_b) <==> instance_a == instance_b
            && local_a == local_b,
{
    lemma_id_halves(instance_a, local_a);
    lemma_id_halves(instance_b, local_b);
}

/// What an order id holds: the lower half of the count is its lower half, and its upper half is
/// the lower half of the instance, joined with whatever the count has above its own lower half.
pub proof fn law_order_id_halves(instance_id: u64, local: u64)
    ensures
        id_of(instance_id, local) & 0xffff_ffffu64 == local & 0xffff_ffffu64,
        id_of(instance_id, local) >> 32u64 == (instance_id & 0xffff_ffffu64) | (local >> 32u64),
        instance_id < 0x1_0000_0000 && local < 0x1_0000_0000 ==> id_of(instance_id, local)
            == instance_id * 0x1_0000_0000 + local,
{
    assert(((instance_id << 32u64) | local) & 0xffff_ffffu64 == local & 0xffff_ffffu64)
        by (bit_vector);
    assert(((instance_id << 32u64) | local) >> 32u64 == (instance_id & 0xffff_ffffu64) | (local
        >> 32u64)) by (bit_vector);
    if instance_id < 0x1_0000_0000 && local < 0x1_0000_0000 {
        lemma_id_halves(instance_id, local);
    }
}

/// The order that a request becomes. Its sequence number is left to the matcher.
pub fn accept_order(instance_id: u64, local: u64, request: OrderRequest) -> (order: Order)
    ensures
        order == (Order {
            id: id_of(instance_id, local),
            side: request.side,
            price: request.price,
            qty: request.qty,
            seq: 0,
        }),
        order.id == (instance_id << 32u64) | local,
        instance_id < 0x1_0000_0000 && local < 0x1_0000_0000 ==> order.id == instance_id
            * 0x1_0000_0000 + local,
{
    Order {
        id: order_id(instance_id, local),
        side: request.side,
        price: request.price,
        qty: request.qty,
        seq: 0,
    }
}

/// What has to be done, one after the other, to take an order in.
#[derive(Debug, Clone, Copy, PartialEq, Eq, Structural)]
pub enum PostStage {
    /// Turn the order into text.
    Serialize,
    /// Connect to the order stream.
    Connect,
    /// Append the text to the stream.
    Append,
}

/// The answer to a posted order.
#[derive(Debug, Clone, Copy, PartialEq, Eq, Structural)]
pub enum PostReply {
    Created { id: u64 },
    SerializeFailed,
    RedisUnavailable,
    AppendFailed,
}

/// What follows a stage.
#[derive(Debug, Clone, Copy, PartialEq, Eq, Structural)]
pub enum PostStep {
    Perform(PostStage),
    Reply(PostReply),
}

/// The answer if `stage` fails.
pub open spec fn failure_of(stage: PostStage) -> PostReply {
    match stage {
        PostStage::Serialize => PostReply::SerializeFailed,
        PostStage::Connect => PostReply::RedisUnavailable,
        PostStage::Append => PostReply::AppendFailed,
    }
}

/// What follows `stage` of taking in order `id`, if it succeeded.
pub open spec fn success_of(stage: PostStage, id: u64) -> PostStep {
    match stage {
        PostStage::Serialize => PostStep::Perform(PostStage::Connect),
        PostStage::Connect => PostStep::Perform(PostStage::Append),
        PostStage::Append => PostStep::Reply(PostReply::Created { id }),
    }
}

/// What follows `stage` of taking in order `id`: the next stage, or the answer if the stage
/// failed or was the last.
pub open spec fn step_after(stage: PostStage, id: u64, succeeded: bool) -> PostStep {
    if succeeded {
        success_of(stage, id)
    } else {
        PostStep::Reply(failure_of(stage))
    }
}

/// Decides what follows `stage` of taking in order `id`.
pub fn post_step(stage: PostStage, id: u64, succeeded: bool) -> (step: PostStep)
    ensures
        step == step_after(stage, id, succeeded),
        stage is Serialize && succeeded ==> step == PostStep::Perform(PostStage::Connect),
        stage is Connect && succeeded ==> step == PostStep::Perform(PostStage::Append),
        stage is Append && succeeded ==> step == PostStep::Reply(PostReply::Created { id }),
        stage is Serialize && !succeeded ==> step == PostStep::Reply(PostReply::SerializeFailed),
        stage is Connect && !succeeded ==> step == PostStep::Reply(PostReply::RedisUnavailable),
        stage is Append && !succeeded ==> step == PostStep::Reply(PostReply::AppendFailed),
{
    match stage {
        PostStage::Serialize => if succeeded {
            PostStep::Perform(PostStage::Connect)
        } else {
            PostStep::Reply(PostReply::SerializeFailed)
        },
        PostStage::Connect => if succeeded {
            PostStep::Perform(PostStage::Append)
        } else {
            PostStep::Reply(PostReply::RedisUnavailable)
        },
        PostStage::Append => if succeeded {
            PostStep::Reply(PostReply::Created { id })
        } else {
            PostStep::Reply(PostReply::AppendFailed)
        },
    }
}

impl PostReply {
    /// The HTTP status of the answer.
    pub fn status(&self) -> (status: u16)
        ensures
            status == match *self {
                PostReply::Created { .. } => 201u16,
                PostReply::SerializeFailed => 500u16,
                PostReply::RedisUnavailable => 503u16,
                PostReply::AppendFailed => 503u16,
            },
    {
        match self {
            PostReply::Created { .. } => 201,
            PostReply::SerializeFailed => 500,
            PostReply::RedisUnavailable => 503,
            PostReply::AppendFailed => 503,
        }
    }

    /// The name of the error, if the answer is one.
    pub fn error(&self) -> (error: Option<&'static str>)
        ensures
            match *self {
                PostReply::Created { .. } => error is None,
                PostReply::SerializeFailed => error matches Some(name) && name@ == "serialize"@,
                PostReply::RedisUnavailable => error matches Some(name) && name@ == "redis"@,
                PostReply::AppendFailed => error matches Some(name) && name@ == "xadd"@,
            },
    {
        match self {
            PostReply::Created { .. } => None,
            PostReply::SerializeFailed => Some("serialize"),
            PostReply::RedisUnavailable => Some("redis"),
            PostReply::AppendFailed => Some("xadd"),
        }
    }
}

/// The answer from `stage` on, where `succeeds` tells of each stage whether it does.
pub open spec fn reply_from(
    stage: PostStage,
    id: u64,
    succeeds: spec_fn(PostStage) -> bool,
) -> PostReply
    decreases
            match stage {
                PostStage::Serialize => 2int,
                PostStage::Connect => 1int,
                PostStage::Append => 0int,
            },
{
    match step_after(stage, id, succeeds(stage)) {
        PostStep::Perform(next) => reply_from(next, id, succeeds),
        PostStep::Reply(reply) => reply,
    }
}

/// An order is answered as created exactly when it was written, the stream was reached and the
/// append succeeded; every other answer tells of the first stage that failed.
pub proof fn law_created_means_appended(id: u64, succeeds: spec_fn(PostStage) -> bool)
    ensures
        reply_from(PostStage::Serialize, id, succeeds) == (if !succeeds(PostStage::Serialize) {
            PostReply::SerializeFailed
        } else if !succeeds(PostStage::Connect) {
            PostReply::RedisUnavailable
        } else if !succeeds(PostStage::Append) {
            PostReply::AppendFailed
        } else {
            PostReply::Created { id }
        }),
{
    reveal_with_fuel(reply_from, 3);
}

} // verus!
