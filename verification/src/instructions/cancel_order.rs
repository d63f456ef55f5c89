use vstd::prelude::*;

use crate::errors::ErrorCode;
use crate::logic::linked_list::unstitch_and_free;
use crate::state::{same_header, OrderStatus, Orderbook, Pubkey, UserAccount, MAX_ORDERS, SENTINEL};

verus! {

/// What cancelling the order in slot `order_idx` credits to the user's
/// collateral balance: its unfilled quantity times its price.
pub open spec fn cancel_refund(ob: Orderbook, order_idx: u32) -> int {
    let n = ob.orders@[order_idx as int];
    (n.quantity.val - n.filled_quantity.val) * n.price.val
}

/// The owner's cancellation of an open order passes the checks.
pub open spec fn cancel_allowed(ob: Orderbook, user: Pubkey, order_idx: u32) -> bool {
    let n = ob.orders@[order_idx as int];
    n.user == user && n.status.is_open()
}

/// A cancellation refunds exactly the part of the order that was not filled,
/// at the order's price, on either side: the refund and the filled part
/// together make up the whole order, so a fill lowers the refund by the
/// filled quantity times the price.
pub proof fn lemma_cancel_refunds_unfilled_part(ob: Orderbook, order_idx: u32)
    requires
        ob.orders@[order_idx as int].filled_quantity.val <= ob.orders@[order_idx as int].quantity.val,
    ensures
        ({
            let n = ob.orders@[order_idx as int];
            &&& 0 <= cancel_refund(ob, order_idx) <= n.quantity.val * n.price.val
            &&& cancel_refund(ob, order_idx) + n.filled_quantity.val * n.price.val == n.quantity.val
                * n.price.val
        }),
{
    let n = ob.orders@[order_idx as int];
    let q = n.quantity.val as int;
    let f = n.filled_quantity.val as int;
    let p = n.price.val as int;
    assert((q - f) * p + f * p == q * p && 0 <= (q - f) * p <= q * p) by (nonlinear_arith)
        requires
            0 <= f <= q,
            0 <= p,
    ;
}

/// Cancels the open order in slot `order_idx` on behalf of its owner
/// `user`: the order leaves the list of the side it rests on, its slot returns
/// to the free list, and the unfilled quantity times the price is credited to
/// the user's collateral balance. The order is unlinked by the side stored in
/// it; `_side`, the side the caller names, is not needed for that.
pub fn handle_cancel_order(
    ob: &mut Orderbook,
    user_account: &mut UserAccount,
    user: &Pubkey,
    order_idx: u32,
    _side: u8,
) -> (r: Result<(), ErrorCode>)
    requires
        old(ob).wf(),
        order_idx < MAX_ORDERS,
        cancel_allowed(*old(ob), *user, order_idx) ==> {
            let n = old(ob).orders@[order_idx as int];
            &&& n.filled_quantity.val <= n.quantity.val
            &&& cancel_refund(*old(ob), order_idx) <= u64::MAX
            &&& old(user_account).collateral_balance + cancel_refund(*old(ob), order_idx)
                <= u64::MAX
        },
    ensures
        old(ob).orders@[order_idx as int].user != *user ==> r == Err::<(), ErrorCode>(
            ErrorCode::Unauthorized,
        ),
        old(ob).orders@[order_idx as int].user == *user
            && !old(ob).orders@[order_idx as int].status.is_open() ==> r == Err::<(), ErrorCode>(
            ErrorCode::OrderNotOpen,
        ),
        cancel_allowed(*old(ob), *user, order_idx) ==> r == Ok::<(), ErrorCode>(()),
        r is Err ==> *final(ob) == *old(ob) && *final(user_account) == *old(user_account),
        r is Ok ==> {
            let bid = old(ob).orders@[order_idx as int].side.is_bid();
            let l = old(ob).side_list(bid);
            &&& final(ob).wf()
            &&& same_header(*final(ob), *old(ob))
            &&& *final(user_account) == (UserAccount {
                collateral_balance: (old(user_account).collateral_balance + cancel_refund(
                    *old(ob),
                    order_idx,
                )) as u64,
                ..*old(user_account)
            })
            &&& l.contains(order_idx)
            &&& final(ob).side_list(bid) == l.remove(l.index_of(order_idx))
            &&& final(ob).side_list(!bid) == old(ob).side_list(!bid)
            &&& final(ob).free@ == seq![order_idx].add(old(ob).free@)
            &&& final(ob).orders@[order_idx as int].status.is_cancelled()
            &&& final(ob).orders@[order_idx as int].prev == SENTINEL
            &&& final(ob).orders@[order_idx as int].same_terms(old(ob).orders@[order_idx as int])
            &&& forall|i: int|
                0 <= i < MAX_ORDERS && i != order_idx
                    ==> (#[trigger] final(ob).orders@[i]).same_order(old(ob).orders@[i])
        },
{
    let node = ob.orders[order_idx as usize];
    if !node.user.equals(user) {
        return Err(ErrorCode::Unauthorized);
    }
    if !(node.status.val == OrderStatus::open().val) {
        return Err(ErrorCode::OrderNotOpen);
    }
    proof {
        let o = ob.orders@;
        assert(ob.bids@.contains(order_idx) || ob.asks@.contains(order_idx) || ob.free@.contains(
            order_idx,
        ));
        if ob.free@.contains(order_idx) {
            let j = choose|j: int| 0 <= j < ob.free@.len() && ob.free@[j] == order_idx;
            assert(o[ob.free@[j] as int].status.is_cancelled());
        }
        if ob.bids@.contains(order_idx) {
            let j = choose|j: int| 0 <= j < ob.bids@.len() && ob.bids@[j] == order_idx;
            assert(o[ob.bids@[j] as int].side.is_bid());
        }
        if ob.asks@.contains(order_idx) {
            let j = choose|j: int| 0 <= j < ob.asks@.len() && ob.asks@[j] == order_idx;
            assert(!o[ob.asks@[j] as int].side.is_bid());
        }
    }
    let remaining_qty = node.quantity.val - node.filled_quantity.val;
    let refund_amount = remaining_qty.checked_mul(node.price.val).unwrap();
    user_account.collateral_balance = user_account.collateral_balance + refund_amount;
    unstitch_and_free(ob, order_idx, node.side);
    Ok(())
}

} // verus!
