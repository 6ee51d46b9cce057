//! The sender side of the queue: batching queued outbound items by message,
//! and the confirmation mail the server enqueues for accepted messages.
use vstd::prelude::*;
use crate::address::{MailAddress, flatten_entries, flatten_addr_entries};
use crate::imf::ParsedIMF;
use crate::models::{NewOutboundQueueItem, OutboundQueueItem};
use crate::schema::MailState;

verus! {

/// The caller-facing view of one queue item.
pub open spec fn item_view(it: OutboundQueueItem) -> (u128, u128, Seq<char>, MailState, i64) {
    (it.id, it.message_id, it.forward_path@, it.state, it.state_since)
}

impl OutboundQueueItem {
    /// An exact copy.
    pub fn duplicate(&self) -> (r: OutboundQueueItem)
        ensures
            item_view(r) == item_view(*self),
    {
        OutboundQueueItem {
            id: self.id,
            message_id: self.message_id,
            forward_path: self.forward_path.clone(),
            state: self.state,
            state_since: self.state_since,
        }
    }
}

/// Some batch carries this item's message id.
pub open spec fn message_covered(batches: Seq<(u128, Vec<OutboundQueueItem>)>, id: u128) -> bool {
    exists|g: int| 0 <= g < batches.len() && batches[g].0 == id
}

/// Batches queued items by message id: one batch per distinct id in order
/// of first appearance, each holding exactly the items with that id, in
/// their given order.
pub fn group_outbound(items: Vec<OutboundQueueItem>) -> (r: Vec<(u128, Vec<OutboundQueueItem>)>)
    ensures
        forall|g: int, h: int|
            0 <= g < h < r@.len() ==> (#[trigger] r@[g]).0 != (#[trigger] r@[h]).0,
        forall|g: int|
            0 <= g < r@.len() ==> (#[trigger] r@[g]).1@.map_values(
                |it: OutboundQueueItem| item_view(it),
            ) == items@.filter(|it: OutboundQueueItem| it.message_id == r@[g].0).map_values(
                |it: OutboundQueueItem| item_view(it),
            ),
        forall|p: int|
            0 <= p < items@.len() ==> message_covered(r@, (#[trigger] items@[p]).message_id),
{
    let n = items.len();
    let mut keys: Vec<u128> = Vec::new();
    let mut i: usize = 0;
    while i < n
        invariant
            i <= n == items@.len(),
            forall|g: int, h: int|
                0 <= g < h < keys@.len() ==> #[trigger] keys@[g] != #[trigger] keys@[h],
            forall|p: int|
                0 <= p < i ==> exists|g: int|
                    0 <= g < keys@.len() && keys@[g] == (#[trigger] items@[p]).message_id,
        decreases n - i,
    {
        let id = items[i].message_id;
        let found = find_key(&keys, id);
        if !found {
            let ghost pre = keys@;
            keys.push(id);
            proof {
                assert forall|p: int|
                    0 <= p < i + 1 implies exists|g: int|
                    0 <= g < keys@.len() && keys@[g] == (#[trigger] items@[p]).message_id by {
                    if p == i {
                        assert(keys@[keys@.len() - 1] == items@[p].message_id);
                    } else {
                        let g = choose|g: int|
                            0 <= g < pre.len() && pre[g] == items@[p].message_id;
                        assert(keys@[g] == items@[p].message_id);
                    }
                }
            }
        }
        i = i + 1;
    }
    let ghost keyv = keys@;
    let m = keys.len();
    let mut out: Vec<(u128, Vec<OutboundQueueItem>)> = Vec::new();
    let mut rest = keys;
    let mut g: usize = 0;
    while g < m
        invariant
            g <= m == keyv.len(),
            n == items@.len(),
            rest@.len() == m - g,
            forall|j: int| 0 <= j < rest@.len() ==> rest@[j] == keyv[j + g],
            out@.len() == g,
            forall|h: int| 0 <= h < g ==> (#[trigger] out@[h]).0 == keyv[h],
            forall|h: int|
                0 <= h < g ==> (#[trigger] out@[h]).1@.map_values(
                    |it: OutboundQueueItem| item_view(it),
                ) == items@.filter(|it: OutboundQueueItem| it.message_id == out@[h].0).map_values(
                    |it: OutboundQueueItem| item_view(it),
                ),
        decreases m - g,
    {
        let key = rest.remove(0);
        proof {
            assert(key == keyv[g as int]);
            assert forall|j: int| 0 <= j < rest@.len() implies rest@[j] == keyv[j + g + 1] by {}
        }
        let ghost pred = |it: OutboundQueueItem| it.message_id == key;
        let mut members: Vec<OutboundQueueItem> = Vec::new();
        let mut p: usize = 0;
        proof {
            assert(items@.take(0).filter(pred) =~= Seq::<OutboundQueueItem>::empty());
            assert(members@.map_values(|it: OutboundQueueItem| item_view(it)) =~= items@.take(
                0,
            ).filter(pred).map_values(|it: OutboundQueueItem| item_view(it)));
        }
        while p < n
            invariant
                p <= n == items@.len(),
                pred == (|it: OutboundQueueItem| it.message_id == key),
                members@.map_values(|it: OutboundQueueItem| item_view(it)) == items@.take(
                    p as int,
                ).filter(pred).map_values(|it: OutboundQueueItem| item_view(it)),
            decreases n - p,
        {
            proof {
                reveal_with_fuel(Seq::filter, 2);
                assert(items@.take(p as int + 1).drop_last() =~= items@.take(p as int));
                assert(items@.take(p as int + 1).last() == items@[p as int]);
            }
            let ghost pre_m = members@;
            if items[p].message_id == key {
                members.push(items[p].duplicate());
                proof {
                    assert(item_view(members@.last()) == item_view(items@[p as int]));
                    assert(members@.map_values(|it: OutboundQueueItem| item_view(it))
                        =~= pre_m.map_values(|it: OutboundQueueItem| item_view(it)).push(
                        item_view(items@[p as int]),
                    ));
                    assert(items@.take(p as int + 1).filter(pred).map_values(
                        |it: OutboundQueueItem| item_view(it),
                    ) =~= items@.take(p as int).filter(pred).map_values(
                        |it: OutboundQueueItem| item_view(it),
                    ).push(item_view(items@[p as int])));
                }
            }
            p = p + 1;
        }
        proof {
            assert(items@.take(n as int) =~= items@);
        }
        out.push((key, members));
        g = g + 1;
    }
    proof {
        assert forall|p: int|
            0 <= p < items@.len() implies message_covered(out@, (#[trigger] items@[
            p]).message_id) by {
            let g2 = choose|g2: int|
                0 <= g2 < keyv.len() && keyv[g2] == items@[p].message_id;
            assert(out@[g2].0 == items@[p].message_id);
        }
    }
    out
}

/// Whether `keys` already holds `id`.
fn find_key(keys: &Vec<u128>, id: u128) -> (r: bool)
    ensures
        r == exists|g: int| 0 <= g < keys@.len() && keys@[g] == id,
{
    let n = keys.len();
    let mut i: usize = 0;
    while i < n
        invariant
            i <= n == keys@.len(),
            forall|g: int| 0 <= g < i ==> keys@[g] != id,
        decreases n - i,
    {
        if keys[i] == id {
            return true;
        }
        i = i + 1;
    }
    false
}

/// Who the confirmation mail goes to: the message's Reply-To mailboxes when
/// that header is present, its From mailboxes otherwise.
pub fn confirmation_recipients(imf: &ParsedIMF) -> (r: Vec<MailAddress>)
    ensures
        imf.reply_to is Some ==> {
            &&& r@.len() == flatten_entries(imf.reply_to->Some_0@).len()
            &&& forall|i: int|
                0 <= i < r@.len() ==> r@[i].eq_spec(
                    &flatten_entries(imf.reply_to->Some_0@)[i],
                )
        },
        imf.reply_to is None ==> {
            &&& r@.len() == flatten_entries(imf.from@).len()
            &&& forall|i: int| 0 <= i < r@.len() ==> r@[i].eq_spec(&flatten_entries(imf.from@)[i])
        },
{
    match &imf.reply_to {
        Some(reply_to) => flatten_addr_entries(reply_to),
        None => flatten_addr_entries(&imf.from),
    }
}

/// The confirmation mail's subject line for one recipient.
pub fn confirmation_subject(rcpt_to: &str) -> (r: String)
    ensures
        r@ == "Re: Your email to "@ + rcpt_to@,
{
    let mut out = String::new();
    out.append("Re: Your email to ");
    out.append(rcpt_to);
    proof {
        assert(out@ =~= "Re: Your email to "@ + rcpt_to@);
    }
    out
}

/// The outbound queue rows for one enqueued message: one row per envelope
/// recipient, born Queued at the given instant, under the given fresh ids.
pub fn outbound_queue_rows(
    ids: &Vec<u128>,
    message_id: u128,
    forward_paths: &Vec<String>,
    now: i64,
) -> (r: Vec<NewOutboundQueueItem>)
    requires
        ids@.len() == forward_paths@.len(),
    ensures
        r@.len() == forward_paths@.len(),
        forall|i: int|
            0 <= i < r@.len() ==> {
                &&& (#[trigger] r@[i]).id == ids@[i]
                &&& r@[i].message_id == message_id
                &&& r@[i].forward_path@ == forward_paths@[i]@
                &&& r@[i].state == MailState::Queued
                &&& r@[i].state_since == now
            },
{
    let n = forward_paths.len();
    let mut out: Vec<NewOutboundQueueItem> = Vec::new();
    let mut i: usize = 0;
    while i < n
        invariant
            i <= n == forward_paths@.len(),
            ids@.len() == n,
            out@.len() == i,
            forall|j: int|
                0 <= j < i ==> {
                    &&& (#[trigger] out@[j]).id == ids@[j]
                    &&& out@[j].message_id == message_id
                    &&& out@[j].forward_path@ == forward_paths@[j]@
                    &&& out@[j].state == MailState::Queued
                    &&& out@[j].state_since == now
                },
        decreases n - i,
    {
        out.push(
            NewOutboundQueueItem {
                id: ids[i],
                message_id,
                forward_path: forward_paths[i].clone(),
                state: MailState::Queued,
                state_since: now,
            },
        );
        i = i + 1;
    }
    out
}

} // verus!
