use vstd::prelude::*;

use crate::crypto::{pubkey_is_valid, valid_pubkey};
use crate::cache::{index_used, AddressBook};
use crate::chain::Chain;
use crate::index::UnhardenedIndex;
use crate::rpc::{address_at, chosen_index};
use crate::policy::{
    contract_chains, descriptor_text_at, explicit_script_of, is_origin, origin_known, policy_has_witness, script_at,
    Bip32Derivation,
    ContractDescriptor, Policy,
};
use crate::model::{copy_bytes, OutPoint, OutPointModel, TweakedOutput, Utxo};

verus! {

/// `order` lists each position of `coins` once.
pub open spec fn is_permutation(order: Seq<usize>, n: nat) -> bool {
    &&& order.len() == n
    &&& order.no_duplicates()
    &&& forall|j: int| 0 <= j < order.len() ==> order[j] < n
}

/// Along `order` the coin values never grow.
pub open spec fn ordered_by_value_desc(coins: Seq<Utxo>, order: Seq<usize>) -> bool {
    forall|a: int, b: int|
        0 <= a < b < order.len() ==> coins[order[a] as int].value >= coins[order[b] as int].value
}

/// Where a coin of value `v` goes into `order`, searching from `p`: before
/// the first coin that is worth no more than it.
pub open spec fn insert_pos_from(coins: Seq<Utxo>, order: Seq<usize>, v: u64, p: nat) -> nat
    decreases order.len() - p,
{
    if p >= order.len() {
        order.len()
    } else if coins[order[p as int] as int].value > v {
        insert_pos_from(coins, order, v, p + 1)
    } else {
        p
    }
}

/// The first `k` positions of `coins`, from the largest value to the
/// smallest; of two coins with one value the later one comes first.
pub open spec fn value_order_upto(coins: Seq<Utxo>, k: nat) -> Seq<usize>
    decreases k,
{
    if k == 0 {
        Seq::empty()
    } else {
        let o = value_order_upto(coins, (k - 1) as nat);
        o.insert(insert_pos_from(coins, o, coins[k - 1].value, 0) as int, (k - 1) as usize)
    }
}

/// All positions of `coins`, from the largest value to the smallest.
pub open spec fn value_order(coins: Seq<Utxo>) -> Seq<usize> {
    value_order_upto(coins, coins.len())
}

/// The positions of `coins` from the largest value to the smallest. Of two
/// coins with one value the later one comes first.
pub fn order_by_value_desc(coins: &Vec<Utxo>) -> (order: Vec<usize>)
    ensures
        order@ == value_order(coins@),
        is_permutation(order@, coins@.len()),
        ordered_by_value_desc(coins@, order@),
{
    let mut order: Vec<usize> = Vec::new();
    let mut k: usize = 0;
    while k < coins.len()
        invariant
            0 <= k <= coins@.len(),
            is_permutation(order@, k as nat),
            ordered_by_value_desc(coins@, order@),
            order@ == value_order_upto(coins@, k as nat),
        decreases coins@.len() - k,
    {
        let v = coins[k].value;
        let mut p: usize = 0;
        while p < order.len() && coins[order[p]].value > v
            invariant
                0 <= p <= order@.len(),
                is_permutation(order@, k as nat),
                k < coins@.len(),
                v == coins@[k as int].value,
                forall|j: int| 0 <= j < p ==> coins@[order@[j] as int].value > v,
                insert_pos_from(coins@, order@, v, p as nat) == insert_pos_from(coins@, order@, v, 0),
            decreases order@.len() - p,
        {
            p = p + 1;
        }
        let ghost old_order = order@;
        order.insert(p, k);
        proof {
            assert(order@ == old_order.insert(p as int, k));
            assert forall|j: int| 0 <= j < order@.len() implies order@[j] < k + 1 by {
                if j < p {
                    assert(order@[j] == old_order[j]);
                } else if j > p {
                    assert(order@[j] == old_order[j - 1]);
                }
            }
            assert forall|a: int, b: int| 0 <= a < b < order@.len() implies order@[a] != order@[b] by {
                if a != p as int && b != p as int {
                    let oa = if a < p { a } else { a - 1 };
                    let ob = if b < p { b } else { b - 1 };
                    assert(old_order[oa] != old_order[ob]);
                }
            }
            assert forall|a: int, b: int| 0 <= a < b < order@.len() implies coins@[order@[a] as int].value
                >= coins@[order@[b] as int].value by {
                if a == p as int {
                    if p < old_order.len() {
                        assert(old_order[p as int] == order@[p + 1]);
                        assert(coins@[old_order[p as int] as int].value <= v);
                    }
                } else if b == p as int {
                    assert(coins@[order@[a] as int].value > v);
                } else {
                    let oa = if a < p { a } else { a - 1 };
                    let ob = if b < p { b } else { b - 1 };
                    assert(order@[a] == old_order[oa]);
                    assert(order@[b] == old_order[ob]);
                }
            }
        }
        k = k + 1;
    }
    order
}


/// Sum of the values of the coins at the positions `chosen`.
pub open spec fn sum_of(coins: Seq<Utxo>, chosen: Seq<usize>) -> int
    decreases chosen.len(),
{
    if chosen.len() == 0 {
        0
    } else {
        sum_of(coins, chosen.drop_last()) + coins[chosen.last() as int].value
    }
}

/// Where coin selection stands after some of the coins: the positions taken,
/// the first coin left over once the target was met, and the sum taken.
pub struct SelectionModel {
    pub chosen: Seq<usize>,
    pub candidate: Option<OutPointModel>,
    pub sum: int,
}

/// One coin offered to the greedy selection. Once the target is met the
/// first coin left over becomes the change candidate; coins of no value are
/// passed over; any other coin is taken.
pub open spec fn selection_step(s: SelectionModel, coins: Seq<Utxo>, i: usize, target: int) -> SelectionModel {
    if s.sum >= target {
        SelectionModel {
            candidate: if s.candidate.is_some() {
                s.candidate
            } else {
                Some(coins[i as int].outpoint_spec())
            },
            ..s
        }
    } else if coins[i as int].value == 0 {
        s
    } else {
        SelectionModel { chosen: s.chosen.push(i), sum: s.sum + coins[i as int].value, ..s }
    }
}

/// The selection after the first `n` coins along `order`.
pub open spec fn selection_upto(coins: Seq<Utxo>, order: Seq<usize>, n: nat, target: int) -> SelectionModel
    decreases n,
{
    if n == 0 {
        SelectionModel { chosen: Seq::empty(), candidate: None, sum: 0 }
    } else {
        selection_step(selection_upto(coins, order, (n - 1) as nat, target), coins, order[n - 1], target)
    }
}

/// The selection over all coins along `order`.
pub open spec fn selection(coins: Seq<Utxo>, order: Seq<usize>, target: int) -> SelectionModel {
    selection_upto(coins, order, order.len(), target)
}

/// The sum a selection keeps is the sum of the coins it took.
pub proof fn lemma_selection_sum(coins: Seq<Utxo>, order: Seq<usize>, n: nat, target: int)
    ensures
        selection_upto(coins, order, n, target).sum == sum_of(coins, selection_upto(coins, order, n, target).chosen),
    decreases n,
{
    if n > 0 {
        lemma_selection_sum(coins, order, (n - 1) as nat, target);
        let s = selection_upto(coins, order, (n - 1) as nat, target);
        let t = selection_upto(coins, order, n, target);
        if t.chosen.len() > s.chosen.len() {
            assert(t.chosen.drop_last() =~= s.chosen);
        }
    }
}

/// Every position a selection takes comes from `order`.
pub proof fn lemma_chosen_from_order(coins: Seq<Utxo>, order: Seq<usize>, n: nat, target: int)
    requires
        n <= order.len(),
    ensures
        forall|k: int|
            0 <= k < selection_upto(coins, order, n, target).chosen.len() ==> exists|j: int|
                0 <= j < n && order[j] == #[trigger] selection_upto(coins, order, n, target).chosen[k],
    decreases n,
{
    if n > 0 {
        lemma_chosen_from_order(coins, order, (n - 1) as nat, target);
        let s = selection_upto(coins, order, (n - 1) as nat, target);
        let t = selection_upto(coins, order, n, target);
        assert forall|k: int| 0 <= k < t.chosen.len() implies exists|j: int|
            0 <= j < n && order[j] == #[trigger] t.chosen[k] by {
            if k < s.chosen.len() {
                assert(t.chosen[k] == s.chosen[k]);
                let j = choose|j: int| 0 <= j < n - 1 && order[j] == s.chosen[k];
                assert(order[j] == t.chosen[k]);
            } else {
                assert(order[n - 1] == t.chosen[k]);
            }
        }
    }
}

/// The outcome of coin selection.
pub struct CoinSelection {
    /// Positions of the coins taken, in the order they were taken.
    pub chosen: Vec<usize>,
    /// The first coin left over once the target was met.
    pub change_candidate: Option<OutPoint>,
    /// The sum of the values taken.
    pub amount: u128,
}

/// Greedy coin selection along `order`: takes coins of non-zero value until
/// their sum reaches `target`, and notes the first coin left over after that.
pub fn select_coins(coins: &Vec<Utxo>, order: &Vec<usize>, target: u128) -> (r: CoinSelection)
    requires
        forall|j: int| 0 <= j < order@.len() ==> order@[j] < coins@.len(),
        target <= 2 * (u64::MAX as int),
    ensures
        r.chosen@ == selection(coins@, order@, target as int).chosen,
        r.amount == selection(coins@, order@, target as int).sum,
        r.change_candidate.is_some() == selection(coins@, order@, target as int).candidate.is_some(),
        r.change_candidate.is_some() ==> r.change_candidate.unwrap()@ == selection(
            coins@,
            order@,
            target as int,
        ).candidate.unwrap(),
        r.amount == sum_of(coins@, r.chosen@),
        forall|k: int| 0 <= k < r.chosen@.len() ==> r.chosen@[k] < coins@.len(),
{
    let mut chosen: Vec<usize> = Vec::new();
    let mut candidate: Option<OutPoint> = None;
    let mut amount: u128 = 0;
    let mut n: usize = 0;
    while n < order.len()
        invariant
            forall|j: int| 0 <= j < order@.len() ==> order@[j] < coins@.len(),
            target <= 2 * (u64::MAX as int),
            0 <= n <= order@.len(),
            chosen@ == selection_upto(coins@, order@, n as nat, target as int).chosen,
            amount == selection_upto(coins@, order@, n as nat, target as int).sum,
            amount < target + u64::MAX + 1,
            candidate.is_some() == selection_upto(coins@, order@, n as nat, target as int).candidate.is_some(),
            candidate.is_some() ==> candidate.unwrap()@ == selection_upto(
                coins@,
                order@,
                n as nat,
                target as int,
            ).candidate.unwrap(),
        decreases order@.len() - n,
    {
        let i = order[n];
        let coin = &coins[i];
        if amount >= target {
            if candidate.is_none() {
                candidate = Some(coin.outpoint());
            }
        } else if coin.value != 0 {
            chosen.push(i);
            amount = amount + coin.value as u128;
        }
        n = n + 1;
    }
    proof {
        lemma_selection_sum(coins@, order@, order@.len(), target as int);
        lemma_chosen_from_order(coins@, order@, order@.len(), target as int);
        assert forall|k: int| 0 <= k < chosen@.len() implies chosen@[k] < coins@.len() by {
            let j = choose|j: int| 0 <= j < order@.len() && order@[j] == chosen@[k];
        }
    }
    CoinSelection { chosen, change_candidate: candidate, amount }
}


/// Who receives an asset transfer.
#[derive(Clone, Debug)]
pub enum RgbReceiver {
    /// A new output paying `giveaway` satoshis to the receiver's script.
    Descriptor { script: Vec<u8>, giveaway: u64 },
    /// An existing output of the receiver, hidden behind a 32-byte hash.
    BlindUtxo(Vec<u8>),
}

/// What a transfer pays.
#[derive(Clone, Debug)]
pub enum TransferInfo {
    /// Satoshis to the given script.
    BitcoinPayment { script: Vec<u8> },
    /// Units of the asset `contract_id` to `receiver`.
    Rgb { contract_id: Vec<u8>, receiver: RgbReceiver },
}

impl TransferInfo {
    /// Whether the transfer moves an asset.
    pub fn is_rgb(&self) -> (r: bool)
        ensures
            r == self.is_rgb_spec(),
    {
        match self {
            TransferInfo::BitcoinPayment { .. } => false,
            TransferInfo::Rgb { .. } => true,
        }
    }

    /// Whether the transfer moves an asset.
    pub open spec fn is_rgb_spec(&self) -> bool {
        self is Rgb
    }
}

/// Where the transferred asset is assigned.
#[derive(Clone, Debug)]
pub enum SealEndpoint {
    /// An outpoint hidden behind a 32-byte hash.
    TxOutpoint(Vec<u8>),
    /// An output of the transfer's own transaction.
    WitnessVout { vout: u32, blinding: u64 },
}

/// Where the asset change is assigned.
#[derive(Clone, Debug)]
pub enum SealDefinition {
    /// An existing output, with a blinding factor.
    TxOutpoint { txid: Vec<u8>, vout: u32, blinding: u64 },
    /// An output of the transfer's own transaction.
    WitnessVout { vout: u32, blinding: u64 },
}

/// An output of the transaction being composed; the derivation index is
/// set on outputs that pay back to the wallet.
#[derive(Clone, Debug)]
pub struct TxOutputPlan {
    pub value: u64,
    pub script: Vec<u8>,
    pub derivation_index: Option<UnhardenedIndex>,
}

/// Why a transfer cannot be composed.
#[derive(Clone, Copy, Debug, PartialEq, Eq, Structural)]
pub enum TransferError {
    /// The coins do not reach the amount; `bitcoin_only` is set where only
    /// outputs without assets on them were considered.
    InsufficientFunds { bitcoin_only: bool },
    /// Asset change is due but there is no output to assign it to.
    CannotAllocateRgbChange,
    /// Bitcoin change is due but no change address could be derived.
    CannotDeriveAddress,
    /// An amount does not fit in 64 bits.
    ValueOverflow,
}

/// The amount that coin selection must reach: the asset value, plus the fee
/// where bitcoins themselves are paid.
pub open spec fn asset_target(info: TransferInfo, asset_value: u64, bitcoin_fee: u64) -> int {
    asset_value + if info.is_rgb_spec() {
        0int
    } else {
        bitcoin_fee as int
    }
}

/// The satoshis paid to the receiver.
pub open spec fn bitcoin_value_spec(info: TransferInfo, asset_value: u64) -> u64 {
    match info {
        TransferInfo::BitcoinPayment { .. } => asset_value,
        TransferInfo::Rgb { receiver: RgbReceiver::Descriptor { giveaway, .. }, .. } => giveaway,
        TransferInfo::Rgb { receiver: RgbReceiver::BlindUtxo(_), .. } => 0,
    }
}

/// Sum of the values of the first `n` coins.
pub open spec fn total_upto(coins: Seq<Utxo>, n: nat) -> int
    decreases n,
{
    if n == 0 {
        0
    } else {
        total_upto(coins, (n - 1) as nat) + coins[n - 1].value
    }
}

/// Sum of the values of all coins.
pub open spec fn total(coins: Seq<Utxo>) -> int {
    total_upto(coins, coins.len())
}

/// Sum of the values of coins, in 128 bits.
pub fn total_value(coins: &Vec<Utxo>) -> (r: u128)
    ensures
        r == total(coins@),
{
    let mut sum: u128 = 0;
    let mut n: usize = 0;
    while n < coins.len()
        invariant
            0 <= n <= coins@.len(),
            sum == total_upto(coins@, n as nat),
            sum <= n * (u64::MAX as int),
        decreases coins@.len() - n,
    {
        proof {
            assert((n + 1) * (u64::MAX as int) == n * (u64::MAX as int) + u64::MAX) by (nonlinear_arith);
            assert(n < usize::MAX);
            assert((n + 1) * (u64::MAX as int) <= usize::MAX * (u64::MAX as int)) by (nonlinear_arith)
                requires
                    n + 1 <= usize::MAX,
            ;
            assert(usize::MAX * (u64::MAX as int) < u128::MAX) by (nonlinear_arith)
                requires
                    usize::MAX <= u64::MAX,
            ;
        }
        sum = sum + coins[n].value as u128;
        n = n + 1;
    }
    sum
}

/// Whether `op` is the outpoint of one of the coins at positions `chosen`.
pub open spec fn is_chosen(coins: Seq<Utxo>, chosen: Seq<usize>, op: OutPointModel) -> bool {
    exists|j: int| 0 <= j < chosen.len() && coins[chosen[j] as int].outpoint_spec() == op
}

/// Sum of the values of the first `n` bitcoin outputs that are among the
/// chosen coins.
pub open spec fn bitcoin_input_upto(btc: Seq<Utxo>, coins: Seq<Utxo>, chosen: Seq<usize>, n: nat) -> int
    decreases n,
{
    if n == 0 {
        0
    } else {
        bitcoin_input_upto(btc, coins, chosen, (n - 1) as nat) + if is_chosen(
            coins,
            chosen,
            btc[n - 1].outpoint_spec(),
        ) {
            btc[n - 1].value as int
        } else {
            0
        }
    }
}

/// The satoshis that the chosen coins bring in.
pub open spec fn bitcoin_input(btc: Seq<Utxo>, coins: Seq<Utxo>, chosen: Seq<usize>) -> int {
    bitcoin_input_upto(btc, coins, chosen, btc.len())
}

fn outpoint_chosen(coins: &Vec<Utxo>, chosen: &Vec<usize>, op: &OutPoint) -> (r: bool)
    requires
        forall|j: int| 0 <= j < chosen@.len() ==> chosen@[j] < coins@.len(),
    ensures
        r == is_chosen(coins@, chosen@, op@),
{
    let mut j: usize = 0;
    while j < chosen.len()
        invariant
            forall|k: int| 0 <= k < chosen@.len() ==> chosen@[k] < coins@.len(),
            0 <= j <= chosen@.len(),
            forall|k: int| 0 <= k < j ==> coins@[chosen@[k] as int].outpoint_spec() != op@,
        decreases chosen@.len() - j,
    {
        let other = coins[chosen[j]].outpoint();
        if other.same(op) {
            return true;
        }
        j = j + 1;
    }
    false
}

/// The satoshis that the chosen coins bring in, by the bitcoin outputs of
/// the contract.
pub fn bitcoin_input_amount(btc: &Vec<Utxo>, coins: &Vec<Utxo>, chosen: &Vec<usize>) -> (r: u128)
    requires
        forall|j: int| 0 <= j < chosen@.len() ==> chosen@[j] < coins@.len(),
    ensures
        r == bitcoin_input(btc@, coins@, chosen@),
{
    let mut sum: u128 = 0;
    let mut n: usize = 0;
    while n < btc.len()
        invariant
            forall|j: int| 0 <= j < chosen@.len() ==> chosen@[j] < coins@.len(),
            0 <= n <= btc@.len(),
            sum == bitcoin_input_upto(btc@, coins@, chosen@, n as nat),
            sum <= n * (u64::MAX as int),
        decreases btc@.len() - n,
    {
        proof {
            assert((n + 1) * (u64::MAX as int) == n * (u64::MAX as int) + u64::MAX) by (nonlinear_arith);
            assert((n + 1) * (u64::MAX as int) <= usize::MAX * (u64::MAX as int)) by (nonlinear_arith)
                requires
                    n + 1 <= usize::MAX,
            ;
            assert(usize::MAX * (u64::MAX as int) < u128::MAX) by (nonlinear_arith)
                requires
                    usize::MAX <= u64::MAX,
            ;
        }
        let op = btc[n].outpoint();
        if outpoint_chosen(coins, chosen, &op) {
            sum = sum + btc[n].value as u128;
        }
        n = n + 1;
    }
    sum
}


/// Sum of the values of outputs.
pub open spec fn outputs_total(outs: Seq<TxOutputPlan>) -> int
    decreases outs.len(),
{
    if outs.len() == 0 {
        0
    } else {
        outputs_total(outs.drop_last()) + outs.last().value
    }
}

/// The 32 zero bytes that stand for no outpoint.
pub open spec fn zero_hash() -> Seq<u8> {
    Seq::new(32, |i: int| 0u8)
}

/// A transfer being composed, and, once complete, the transaction and the
/// asset assignments it carries.
#[derive(Clone, Debug)]
pub struct TransferPlan {
    /// Whether the transfer moves an asset.
    pub rgb: bool,
    pub asset_value: u64,
    pub bitcoin_fee: u64,
    /// The coins spent, in the order they were selected.
    pub inputs: Vec<Utxo>,
    /// The first coin left over once the amount was reached.
    pub change_candidate: Option<OutPoint>,
    /// Sum of the values of all coins that could be spent.
    pub balance_before: u128,
    /// Sum of the values of the coins spent.
    pub asset_input_amount: u128,
    /// Satoshis the spent coins bring in.
    pub bitcoin_input_amount: u128,
    /// Satoshis paid to the receiver.
    pub bitcoin_value: u64,
    pub giveaway: Option<u64>,
    /// Satoshis paid back to the wallet; zero where there is no change.
    pub bitcoin_change: u64,
    pub outputs: Vec<TxOutputPlan>,
    pub rgb_endpoint: SealEndpoint,
    /// Where asset change goes, and how much of it.
    pub rgb_change: Option<(SealDefinition, u64)>,
    pub change_vout: Option<u32>,
}

/// The bitcoin change that a spend owes, zero where none is.
pub open spec fn change_due(bitcoin_in: int, bitcoin_value: u64, bitcoin_fee: u64) -> int {
    if bitcoin_in > bitcoin_value + bitcoin_fee {
        bitcoin_in - bitcoin_value - bitcoin_fee
    } else {
        0
    }
}

impl TransferPlan {
    /// A plan whose coins are chosen and whose receiver is paid, before change.
    pub open spec fn drafted(&self) -> bool {
        &&& outputs_total(self.outputs@) == self.bitcoin_value
        &&& self.outputs@.len() <= 1
        &&& self.bitcoin_change == change_due(self.bitcoin_input_amount as int, self.bitcoin_value, self.bitcoin_fee)
        &&& self.change_vout.is_none()
        &&& self.rgb_change.is_none()
    }
}

/// Chooses the coins for a transfer and adds the receiver's output.
///
/// `coins` are the outputs that may be spent: those holding the asset for an
/// asset transfer, those holding no asset for a bitcoin payment. `btc` are all
/// bitcoin outputs of the contract. `blinding` is a random value that hides a
/// new asset assignment.
pub fn prepare_transfer(
    coins: &Vec<Utxo>,
    btc: &Vec<Utxo>,
    asset_value: u64,
    bitcoin_fee: u64,
    info: &TransferInfo,
    blinding: u64,
) -> (r: Result<TransferPlan, TransferError>)
    ensures
        ({
            let target = asset_target(*info, asset_value, bitcoin_fee);
            let sel = selection(coins@, value_order(coins@), target);
            let btc_in = bitcoin_input(btc@, coins@, sel.chosen);
            let bv = bitcoin_value_spec(*info, asset_value);
            &&& (r == Err::<TransferPlan, TransferError>(
                TransferError::InsufficientFunds { bitcoin_only: !info.is_rgb_spec() },
            )) <==> sel.sum < target
            &&& (r == Err::<TransferPlan, TransferError>(TransferError::ValueOverflow)) <==> (sel.sum
                >= target && change_due(btc_in, bv, bitcoin_fee) > u64::MAX)
            &&& r is Ok <==> (sel.sum >= target && change_due(btc_in, bv, bitcoin_fee) <= u64::MAX)
            &&& r is Ok ==> {
                let p = r->Ok_0;
                &&& p.drafted()
                &&& p.rgb == info.is_rgb_spec()
                &&& p.bitcoin_value == bv
                &&& p.asset_value == asset_value
                &&& p.bitcoin_fee == bitcoin_fee
                &&& p.inputs@.len() == sel.chosen.len()
                &&& forall|j: int|
                    0 <= j < sel.chosen.len() ==> #[trigger] p.inputs@[j].same_as(&coins@[sel.chosen[j] as int])
                &&& p.change_candidate.is_some() == sel.candidate.is_some()
                &&& p.change_candidate.is_some() ==> p.change_candidate.unwrap()@ == sel.candidate.unwrap()
                &&& p.asset_input_amount == sel.sum
                &&& p.asset_input_amount >= target
                &&& p.asset_input_amount == sum_of(coins@, sel.chosen)
                &&& p.balance_before == total(coins@)
                &&& p.bitcoin_input_amount == btc_in
                &&& match *info {
                    TransferInfo::BitcoinPayment { script } => {
                        &&& p.outputs@.len() == 1
                        &&& p.outputs@[0].value == asset_value
                        &&& p.outputs@[0].script@ == script@
                        &&& p.outputs@[0].derivation_index.is_none()
                        &&& p.rgb_endpoint is TxOutpoint
                        &&& p.rgb_endpoint->TxOutpoint_0@ == zero_hash()
                        &&& p.giveaway.is_none()
                    },
                    TransferInfo::Rgb { receiver: RgbReceiver::Descriptor { script, giveaway }, .. } => {
                        &&& p.outputs@.len() == 1
                        &&& p.outputs@[0].value == giveaway
                        &&& p.outputs@[0].script@ == script@
                        &&& p.outputs@[0].derivation_index.is_none()
                        &&& p.rgb_endpoint == (SealEndpoint::WitnessVout { vout: 0, blinding })
                        &&& p.giveaway == Some(giveaway)
                    },
                    TransferInfo::Rgb { receiver: RgbReceiver::BlindUtxo(hash), .. } => {
                        &&& p.outputs@.len() == 0
                        &&& p.rgb_endpoint is TxOutpoint
                        &&& p.rgb_endpoint->TxOutpoint_0@ == hash@
                        &&& p.giveaway.is_none()
                    },
                }
            }
        }),
{
    let rgb = info.is_rgb();
    let target: u128 = if rgb {
        asset_value as u128
    } else {
        asset_value as u128 + bitcoin_fee as u128
    };
    let order = order_by_value_desc(coins);
    let sel = select_coins(coins, &order, target);
    if sel.amount < target {
        return Err(TransferError::InsufficientFunds { bitcoin_only: !rgb });
    }
    let balance_before = total_value(coins);
    let mut inputs: Vec<Utxo> = Vec::new();
    let mut j: usize = 0;
    while j < sel.chosen.len()
        invariant
            forall|k: int| 0 <= k < sel.chosen@.len() ==> sel.chosen@[k] < coins@.len(),
            0 <= j <= sel.chosen@.len(),
            inputs@.len() == j,
            forall|k: int| 0 <= k < j ==> #[trigger] inputs@[k].same_as(&coins@[sel.chosen@[k] as int]),
        decreases sel.chosen@.len() - j,
    {
        inputs.push(coins[sel.chosen[j]].duplicate());
        j = j + 1;
    }
    let mut outputs: Vec<TxOutputPlan> = Vec::new();
    let bitcoin_value: u64;
    let giveaway: Option<u64>;
    let rgb_endpoint = match info {
        TransferInfo::BitcoinPayment { script } => {
            bitcoin_value = asset_value;
            giveaway = None;
            outputs.push(TxOutputPlan { value: asset_value, script: script.clone(), derivation_index: None });
            SealEndpoint::TxOutpoint(vec![0u8; 32])
        },
        TransferInfo::Rgb { receiver: RgbReceiver::Descriptor { script, giveaway: g }, .. } => {
            bitcoin_value = *g;
            giveaway = Some(*g);
            outputs.push(TxOutputPlan { value: *g, script: script.clone(), derivation_index: None });
            SealEndpoint::WitnessVout { vout: 0, blinding }
        },
        TransferInfo::Rgb { receiver: RgbReceiver::BlindUtxo(hash), .. } => {
            bitcoin_value = 0;
            giveaway = None;
            SealEndpoint::TxOutpoint(hash.clone())
        },
    };
    proof {
        if outputs@.len() == 1 {
            assert(outputs@.drop_last() =~= Seq::<TxOutputPlan>::empty());
            assert(outputs_total(outputs@.drop_last()) == 0);
            assert(outputs_total(outputs@) == outputs@[0].value);
        } else {
            assert(outputs_total(outputs@) == 0);
        }
        if rgb_endpoint is TxOutpoint && info is BitcoinPayment {
            assert(rgb_endpoint->TxOutpoint_0@ =~= zero_hash());
        }
    }
    let bitcoin_in = bitcoin_input_amount(btc, coins, &sel.chosen);
    let spent: u128 = bitcoin_value as u128 + bitcoin_fee as u128;
    let bitcoin_change: u64 = if bitcoin_in > spent {
        let change = bitcoin_in - spent;
        if change > u64::MAX as u128 {
            return Err(TransferError::ValueOverflow);
        }
        change as u64
    } else {
        0
    };
    Ok(TransferPlan {
        rgb,
        asset_value,
        bitcoin_fee,
        inputs,
        change_candidate: sel.change_candidate,
        balance_before,
        asset_input_amount: sel.amount,
        bitcoin_input_amount: bitcoin_in,
        bitcoin_value,
        giveaway,
        bitcoin_change,
        outputs,
        rgb_endpoint,
        rgb_change: None,
        change_vout: None,
    })
}


/// Whether asset change is due on a drafted transfer.
pub open spec fn rgb_change_due(p: TransferPlan) -> bool {
    p.rgb && p.asset_input_amount > p.asset_value
}

/// Adds the bitcoin change output and assigns the asset change.
///
/// `change` is the derivation index and script of a fresh address of the
/// wallet, or `None` where none could be derived; it is used only where
/// bitcoin change is due. Asset change goes to the first coin left over by
/// selection, else to the bitcoin change output. `blinding` is a random
/// value that hides the change assignment.
pub fn finish_transfer(plan: TransferPlan, change: Option<(UnhardenedIndex, Vec<u8>)>, blinding: u64) -> (r:
    Result<TransferPlan, TransferError>)
    requires
        plan.drafted(),
    ensures
        ({
            let derive_fails = plan.bitcoin_change > 0 && change.is_none();
            let diff = plan.asset_input_amount - plan.asset_value;
            let overflow = rgb_change_due(plan) && diff > u64::MAX;
            let nowhere = rgb_change_due(plan) && plan.change_candidate.is_none() && plan.bitcoin_change == 0;
            &&& (r == Err::<TransferPlan, TransferError>(TransferError::CannotDeriveAddress)) <==> derive_fails
            &&& (r == Err::<TransferPlan, TransferError>(TransferError::ValueOverflow)) <==> (!derive_fails
                && overflow)
            &&& (r == Err::<TransferPlan, TransferError>(TransferError::CannotAllocateRgbChange)) <==> (
            !derive_fails && !overflow && nowhere)
            &&& r is Ok <==> (!derive_fails && !overflow && !nowhere)
            &&& r is Ok ==> {
                let q = r->Ok_0;
                &&& q.rgb == plan.rgb
                &&& q.asset_value == plan.asset_value
                &&& q.bitcoin_fee == plan.bitcoin_fee
                &&& q.inputs == plan.inputs
                &&& q.change_candidate == plan.change_candidate
                &&& q.balance_before == plan.balance_before
                &&& q.asset_input_amount == plan.asset_input_amount
                &&& q.bitcoin_input_amount == plan.bitcoin_input_amount
                &&& q.bitcoin_value == plan.bitcoin_value
                &&& q.giveaway == plan.giveaway
                &&& q.bitcoin_change == plan.bitcoin_change
                &&& q.rgb_endpoint == plan.rgb_endpoint
                &&& if plan.bitcoin_change > 0 {
                    &&& q.outputs@.len() == plan.outputs@.len() + 1
                    &&& q.outputs@.drop_last() == plan.outputs@
                    &&& q.outputs@.last().value == plan.bitcoin_change
                    &&& q.outputs@.last().script@ == change.unwrap().1@
                    &&& q.outputs@.last().derivation_index == Some(change.unwrap().0)
                    &&& q.change_vout == Some(plan.outputs@.len() as u32)
                    &&& outputs_total(q.outputs@) + q.bitcoin_fee == q.bitcoin_input_amount
                } else {
                    &&& q.outputs@ == plan.outputs@
                    &&& q.change_vout.is_none()
                }
                &&& if rgb_change_due(plan) {
                    &&& q.rgb_change.is_some()
                    &&& q.rgb_change.unwrap().1 == diff
                    &&& match q.rgb_change.unwrap().0 {
                        SealDefinition::TxOutpoint { txid, vout, blinding: b } => {
                            &&& plan.change_candidate.is_some()
                            &&& txid@ == plan.change_candidate.unwrap().txid@
                            &&& vout == plan.change_candidate.unwrap().vout
                            &&& b == blinding
                        },
                        SealDefinition::WitnessVout { vout, blinding: b } => {
                            &&& plan.change_candidate.is_none()
                            &&& q.change_vout == Some(vout)
                            &&& b == blinding
                        },
                    }
                } else {
                    q.rgb_change.is_none()
                }
            }
        }),
{
    let mut plan = plan;
    let ghost old_outputs = plan.outputs@;
    if plan.bitcoin_change > 0 {
        match change {
            None => {
                return Err(TransferError::CannotDeriveAddress);
            },
            Some((index, script)) => {
                let vout = plan.outputs.len() as u32;
                plan.outputs.push(TxOutputPlan { value: plan.bitcoin_change, script, derivation_index: Some(index) });
                plan.change_vout = Some(vout);
                proof {
                    assert(plan.outputs@.drop_last() =~= old_outputs);
                }
            },
        }
    }
    if plan.rgb && plan.asset_input_amount > plan.asset_value as u128 {
        let diff = plan.asset_input_amount - plan.asset_value as u128;
        if diff > u64::MAX as u128 {
            return Err(TransferError::ValueOverflow);
        }
        let seal = match &plan.change_candidate {
            Some(op) => SealDefinition::TxOutpoint { txid: op.txid.clone(), vout: op.vout, blinding },
            None => match plan.change_vout {
                Some(vout) => SealDefinition::WitnessVout { vout, blinding },
                None => {
                    return Err(TransferError::CannotAllocateRgbChange);
                },
            },
        };
        plan.rgb_change = Some((seal, diff as u64));
    }
    Ok(plan)
}


/// An output of the witness transaction that the asset daemon returned: its
/// script and the values of its pay-to-contract public key and tweak fields,
/// where present.
#[derive(Clone, Debug)]
pub struct WitnessOutput {
    pub script: Vec<u8>,
    pub pubkey: Option<Vec<u8>>,
    pub tweak: Option<Vec<u8>>,
}

/// Whether output `vout` of the witness transaction carries a tweak that the
/// wallet must record: both fields are present and well formed, and the
/// output pays to a derivation index of the wallet.
pub open spec fn is_tweaked_output(witness: Seq<WitnessOutput>, outputs: Seq<TxOutputPlan>, vout: int) -> bool {
    &&& 0 <= vout < witness.len()
    &&& vout < outputs.len()
    &&& outputs[vout].derivation_index.is_some()
    &&& witness[vout].tweak.is_some()
    &&& witness[vout].tweak.unwrap()@.len() == 32
    &&& witness[vout].pubkey.is_some()
    &&& valid_pubkey(witness[vout].pubkey.unwrap()@)
}

/// The outputs among the first `n` that carry a tweak to record, in order.
pub open spec fn tweaked_vouts_upto(witness: Seq<WitnessOutput>, outputs: Seq<TxOutputPlan>, n: nat) -> Seq<int>
    decreases n,
{
    if n == 0 {
        Seq::empty()
    } else {
        let prev = tweaked_vouts_upto(witness, outputs, (n - 1) as nat);
        if is_tweaked_output(witness, outputs, n - 1) {
            prev.push(n - 1)
        } else {
            prev
        }
    }
}

/// The outputs of the witness transaction that carry a tweak to record.
pub open spec fn tweaked_vouts(witness: Seq<WitnessOutput>, outputs: Seq<TxOutputPlan>) -> Seq<int> {
    tweaked_vouts_upto(witness, outputs, witness.len())
}

/// The record of the tweak on output `vout`.
pub open spec fn records_tweak(
    t: TweakedOutput,
    txid: Seq<u8>,
    witness: Seq<WitnessOutput>,
    outputs: Seq<TxOutputPlan>,
    vout: int,
) -> bool {
    &&& t.outpoint.txid@ == txid
    &&& t.outpoint.vout == vout
    &&& t.script@ == witness[vout].script@
    &&& t.tweak@ == witness[vout].tweak.unwrap()@
    &&& t.pubkey@ == witness[vout].pubkey.unwrap()@
    &&& t.derivation_index == outputs[vout].derivation_index.unwrap()
}

/// The tweaks that the witness transaction `txid` carries on outputs of the
/// wallet, one record per such output, in output order.
pub fn extract_tweaks(txid: &Vec<u8>, witness: &Vec<WitnessOutput>, outputs: &Vec<TxOutputPlan>) -> (r: Vec<
    TweakedOutput,
>)
    requires
        witness@.len() <= u32::MAX,
    ensures
        r@.len() == tweaked_vouts(witness@, outputs@).len(),
        forall|k: int|
            0 <= k < r@.len() ==> records_tweak(
                #[trigger] r@[k],
                txid@,
                witness@,
                outputs@,
                tweaked_vouts(witness@, outputs@)[k],
            ),
{
    let mut r: Vec<TweakedOutput> = Vec::new();
    let mut v: usize = 0;
    while v < witness.len()
        invariant
            witness@.len() <= u32::MAX,
            0 <= v <= witness@.len(),
            r@.len() == tweaked_vouts_upto(witness@, outputs@, v as nat).len(),
            forall|k: int|
                0 <= k < r@.len() ==> records_tweak(
                    #[trigger] r@[k],
                    txid@,
                    witness@,
                    outputs@,
                    tweaked_vouts_upto(witness@, outputs@, v as nat)[k],
                ),
        decreases witness@.len() - v,
    {
        let out = &witness[v];
        if v < outputs.len() {
            match (&out.pubkey, &out.tweak, outputs[v].derivation_index) {
                (Some(pubkey), Some(tweak), Some(derivation_index)) => {
                    if tweak.len() == 32 && pubkey_is_valid(pubkey) {
                        r.push(
                            TweakedOutput {
                                outpoint: OutPoint { txid: copy_bytes(txid), vout: v as u32 },
                                script: copy_bytes(&out.script),
                                tweak: copy_bytes(tweak),
                                pubkey: copy_bytes(pubkey),
                                derivation_index,
                            },
                        );
                    }
                },
                _ => {},
            }
        }
        v = v + 1;
    }
    r
}

/// Every output of the witness transaction that carries a tweak on an
/// output of the wallet is among those that `extract_tweaks` records.
pub proof fn lemma_every_tweak_recorded(witness: Seq<WitnessOutput>, outputs: Seq<TxOutputPlan>, vout: int)
    requires
        is_tweaked_output(witness, outputs, vout),
    ensures
        tweaked_vouts(witness, outputs).contains(vout),
{
    lemma_tweaked_upto_contains(witness, outputs, witness.len(), vout);
}

proof fn lemma_tweaked_upto_contains(witness: Seq<WitnessOutput>, outputs: Seq<TxOutputPlan>, n: nat, vout: int)
    requires
        is_tweaked_output(witness, outputs, vout),
        vout < n,
    ensures
        tweaked_vouts_upto(witness, outputs, n).contains(vout),
    decreases n,
{
    let prev = tweaked_vouts_upto(witness, outputs, (n - 1) as nat);
    if vout == n - 1 {
        assert(tweaked_vouts_upto(witness, outputs, n) == prev.push(n - 1));
        assert(prev.push(n - 1)[prev.len() as int] == vout);
    } else {
        lemma_tweaked_upto_contains(witness, outputs, (n - 1) as nat, vout);
        let k = choose|k: int| 0 <= k < prev.len() && prev[k] == vout;
        if is_tweaked_output(witness, outputs, n - 1) {
            assert(prev.push(n - 1)[k] == vout);
        }
    }
}


/// Whether a fresh change address can be had: the smallest index not in use
/// has an address and a script.
pub open spec fn change_address_ok(used: Seq<(String, UnhardenedIndex)>, policy: Policy, chain: Chain) -> bool {
    exists|i: nat|
        #[trigger] chosen_index(None, used, i) && address_at(policy, i, chain, false).is_some() && script_at(
            policy,
            i,
        ).is_some()
}

/// How many outputs pay the receiver: one, except for a blinded outpoint.
pub open spec fn payee_count(info: TransferInfo) -> nat {
    match info {
        TransferInfo::Rgb { receiver: RgbReceiver::BlindUtxo(_), .. } => 0,
        _ => 1,
    }
}

/// The outputs begin with what pays the receiver, and the asset endpoint and
/// giveaway are the receiver's.
pub open spec fn pays_receiver(
    outs: Seq<TxOutputPlan>,
    endpoint: SealEndpoint,
    giveaway: Option<u64>,
    info: TransferInfo,
    asset_value: u64,
    blinding: u64,
) -> bool {
    match info {
        TransferInfo::BitcoinPayment { script } => {
            &&& outs.len() >= 1
            &&& outs[0].value == asset_value
            &&& outs[0].script@ == script@
            &&& outs[0].derivation_index.is_none()
            &&& endpoint is TxOutpoint
            &&& endpoint->TxOutpoint_0@ == zero_hash()
            &&& giveaway.is_none()
        },
        TransferInfo::Rgb { receiver: RgbReceiver::Descriptor { script, giveaway: g }, .. } => {
            &&& outs.len() >= 1
            &&& outs[0].value == g
            &&& outs[0].script@ == script@
            &&& outs[0].derivation_index.is_none()
            &&& endpoint == (SealEndpoint::WitnessVout { vout: 0, blinding })
            &&& giveaway == Some(g)
        },
        TransferInfo::Rgb { receiver: RgbReceiver::BlindUtxo(hash), .. } => {
            &&& endpoint is TxOutpoint
            &&& endpoint->TxOutpoint_0@ == hash@
            &&& giveaway.is_none()
        },
    }
}

/// Where asset change goes: to the coin left over by selection, with the
/// blinding factor, else to output `change_vout`.
pub open spec fn rgb_change_placed(
    change: Option<(SealDefinition, u64)>,
    candidate: Option<OutPointModel>,
    change_vout: Option<u32>,
    amount: int,
    blinding: u64,
) -> bool {
    &&& change.is_some()
    &&& change.unwrap().1 == amount
    &&& match change.unwrap().0 {
        SealDefinition::TxOutpoint { txid, vout, blinding: b } => {
            &&& candidate.is_some()
            &&& txid@ == candidate.unwrap().txid
            &&& vout == candidate.unwrap().vout
            &&& b == blinding
        },
        SealDefinition::WitnessVout { vout, blinding: b } => {
            &&& candidate.is_none()
            &&& change_vout == Some(vout)
            &&& b == blinding
        },
    }
}

/// Composes a transfer paid from a contract: selects its coins, pays the
/// receiver, sends bitcoin change to a fresh address of the contract (the
/// smallest derivation index not in use, which is then marked used in
/// `book`) and assigns asset change. On an error the book is left as it is.
#[verifier::rlimit(40)]
pub fn compose_transfer(
    book: &mut AddressBook,
    policy: &Policy,
    chain: &Chain,
    coins: &Vec<Utxo>,
    btc: &Vec<Utxo>,
    asset_value: u64,
    bitcoin_fee: u64,
    info: &TransferInfo,
    endpoint_blinding: u64,
    change_blinding: u64,
) -> (r: Result<TransferPlan, TransferError>)
    requires
        old(book).wf(),
    ensures
        final(book).wf(),
        r is Err ==> *final(book) == *old(book),
        ({
            let target = asset_target(*info, asset_value, bitcoin_fee);
            let sel = selection(coins@, value_order(coins@), target);
            let btc_in = bitcoin_input(btc@, coins@, sel.chosen);
            let bv = bitcoin_value_spec(*info, asset_value);
            let change = change_due(btc_in, bv, bitcoin_fee);
            let rgb_due = info.is_rgb_spec() && sel.sum > asset_value;
            let diff = sel.sum - asset_value;
            let addr_ok = change_address_ok(old(book).used@, *policy, *chain);
            &&& (r == Err::<TransferPlan, TransferError>(
                TransferError::InsufficientFunds { bitcoin_only: !info.is_rgb_spec() },
            )) <==> sel.sum < target
            &&& (r == Err::<TransferPlan, TransferError>(TransferError::ValueOverflow)) <==> (sel.sum >= target && (
            change > u64::MAX || ((change == 0 || addr_ok) && rgb_due && diff > u64::MAX)))
            &&& (r == Err::<TransferPlan, TransferError>(TransferError::CannotDeriveAddress)) <==> (sel.sum >= target
                && 0 < change <= u64::MAX && !addr_ok)
            &&& (r == Err::<TransferPlan, TransferError>(TransferError::CannotAllocateRgbChange)) <==> (sel.sum
                >= target && change == 0 && rgb_due && diff <= u64::MAX && sel.candidate.is_none())
            &&& r is Ok <==> (sel.sum >= target && change <= u64::MAX && (change > 0 ==> addr_ok) && !(rgb_due && diff
                > u64::MAX) && !(rgb_due && sel.candidate.is_none() && change == 0))
            &&& r is Ok ==> {
                let q = r->Ok_0;
                &&& q.rgb == info.is_rgb_spec()
                &&& q.asset_value == asset_value
                &&& q.bitcoin_fee == bitcoin_fee
                &&& q.asset_input_amount == sel.sum
                &&& q.asset_input_amount >= target
                &&& q.inputs@.len() == sel.chosen.len()
                &&& forall|j: int|
                    0 <= j < sel.chosen.len() ==> #[trigger] q.inputs@[j].same_as(&coins@[sel.chosen[j] as int])
                &&& q.balance_before == total(coins@)
                &&& q.bitcoin_input_amount == btc_in
                &&& q.bitcoin_value == bv
                &&& q.bitcoin_change == change
                &&& pays_receiver(q.outputs@, q.rgb_endpoint, q.giveaway, *info, asset_value, endpoint_blinding)
                &&& q.outputs@.len() == payee_count(*info) + if change > 0 {
                    1nat
                } else {
                    0
                }
                &&& change > 0 ==> {
                    let out = q.outputs@.last();
                    let i = out.derivation_index.unwrap();
                    &&& outputs_total(q.outputs@) + bitcoin_fee == btc_in
                    &&& out.value == change
                    &&& out.derivation_index.is_some()
                    &&& chosen_index(None, old(book).used@, i@)
                    &&& script_at(*policy, i@) == Some(out.script@)
                    &&& q.change_vout == Some(payee_count(*info) as u32)
                    &&& index_used(final(book).used@, i@)
                    &&& final(book).last_used.is_some() && final(book).last_used.unwrap()@ >= i@
                }
                &&& change == 0 ==> q.change_vout.is_none() && *final(book) == *old(book)
                &&& rgb_due ==> rgb_change_placed(q.rgb_change, sel.candidate, q.change_vout, diff, change_blinding)
                &&& !rgb_due ==> q.rgb_change.is_none()
            }
        }),
{
    let draft = prepare_transfer(coins, btc, asset_value, bitcoin_fee, info, endpoint_blinding)?;
    let ghost used = book.used@;
    if draft.bitcoin_change > 0 {
        let i = match book.next_unused_derivation() {
            Some(i) => i,
            None => {
                proof {
                    assert forall|k: nat| #[trigger] chosen_index(None, used, k) implies !(address_at(
                        *policy,
                        k,
                        *chain,
                        false,
                    ).is_some() && script_at(*policy, k).is_some()) by {
                        assert(index_used(used, k));
                    }
                }
                return Err(TransferError::CannotDeriveAddress);
            },
        };
        let ghost iv = i@;
        proof {
            assert(chosen_index(None, used, iv));
        }
        let derived = policy.derive_address(i, chain, false);
        let script = policy.derive_script(i);
        if derived.is_none() || script.is_none() {
            proof {
                assert forall|k: nat| #[trigger] chosen_index(None, used, k) implies !(address_at(
                    *policy,
                    k,
                    *chain,
                    false,
                ).is_some() && script_at(*policy, k).is_some()) by {
                    crate::rpc::lemma_chosen_unique(None, used, iv, k);
                }
            }
            return Err(TransferError::CannotDeriveAddress);
        }
        let a = derived.unwrap();
        let script = script.unwrap();
        proof {
            assert(address_at(*policy, iv, *chain, false).is_some());
        }
        let plan = finish_transfer(draft, Some((i, script)), change_blinding)?;
        book.use_address_derivation(a.address, i);
        proof {
            let k = choose|k: int|
                0 <= k < book.used@.len() && (#[trigger] book.used@[k]).0@ == a.address@ && book.used@[k].1 == i;
            assert(book.used@[k].1@ == i@);
        }
        Ok(plan)
    } else {
        finish_transfer(draft, None, change_blinding)
    }
}

/// What a PSBT input of a transfer carries besides the outpoint: the key
/// origins, the explicit script (as witness script for segwit policies,
/// as redeem script otherwise; none for a plain single signature) and the
/// pay-to-contract tweak of the coin, if any.
#[derive(Clone, Debug)]
pub struct PsbtInputPlan {
    pub outpoint: OutPoint,
    pub bip32_derivation: Vec<Bip32Derivation>,
    pub witness_script: Option<Vec<u8>>,
    pub redeem_script: Option<Vec<u8>>,
    pub p2c_tweak: Option<(Vec<u8>, Vec<u8>)>,
}

/// The explicit script of a policy at an index.
pub open spec fn explicit_script_at(p: Policy, index: nat) -> Option<Seq<u8>> {
    match descriptor_text_at(p, index, false) {
        Some(t) => explicit_script_of(t),
        None => None,
    }
}

/// The PSBT input that spends a coin of the policy; `None` where a key
/// origin cannot be derived.
pub fn psbt_input(policy: &Policy, utxo: &Utxo) -> (r: Option<PsbtInputPlan>)
    ensures
        r.is_some() ==> {
            let q = r.unwrap();
            let i = utxo.derivation_index@;
            let scripted = !(*policy is Current && policy->Current_0 is SingleSig);
            &&& q.outpoint@ == utxo.outpoint_spec()
            &&& policy.is_onchain() ==> q.bip32_derivation@.len() == contract_chains(policy.contract()).len()
            &&& policy.is_onchain() ==> forall|k: int|
                0 <= k < q.bip32_derivation@.len() ==> is_origin(
                    #[trigger] q.bip32_derivation@[k],
                    contract_chains(policy.contract())[k],
                    i,
                )
            &&& q.witness_script.is_some() ==> scripted && q.witness_script.unwrap()@ == explicit_script_at(*policy, i).unwrap()
            &&& q.redeem_script.is_some() ==> scripted && q.redeem_script.unwrap()@ == explicit_script_at(*policy, i).unwrap()
            &&& scripted && explicit_script_at(*policy, i).is_some() ==> q.witness_script.is_some()
                || q.redeem_script.is_some()
            &&& q.witness_script.is_some() ==> q.redeem_script.is_none() && policy_has_witness(*policy)
            &&& q.redeem_script.is_some() ==> !policy_has_witness(*policy)
            &&& scripted && explicit_script_at(*policy, i).is_some() && policy_has_witness(*policy)
                ==> q.witness_script.is_some()
            &&& scripted && explicit_script_at(*policy, i).is_some() && !policy_has_witness(*policy)
                ==> q.redeem_script.is_some()
            &&& q.p2c_tweak.is_some() == utxo.tweak.is_some()
            &&& q.p2c_tweak.is_some() ==> q.p2c_tweak.unwrap().0@ == utxo.tweak.unwrap().0@
                && q.p2c_tweak.unwrap().1@ == utxo.tweak.unwrap().1@
        },
        r.is_none() ==> policy.is_onchain() && exists|k: int|
            0 <= k < contract_chains(policy.contract()).len() && !origin_known(
                #[trigger] contract_chains(policy.contract())[k],
                utxo.derivation_index@,
            ),
{
    let bip32_derivation = match policy.bip32_derivations(utxo.derivation_index) {
        Some(d) => d,
        None => {
            return None;
        },
    };
    let script = match policy.derive_descriptor(utxo.derivation_index, false) {
        Some(d) => d.explicit_script(),
        None => None,
    };
    let (witness_script, redeem_script) = if policy.is_scripted() {
        if policy.has_witness() {
            (script, None)
        } else {
            (None, script)
        }
    } else {
        (None, None)
    };
    let p2c_tweak = match &utxo.tweak {
        Some(t) => Some((copy_bytes(&t.0), copy_bytes(&t.1))),
        None => None,
    };
    Some(PsbtInputPlan { outpoint: utxo.outpoint(), bip32_derivation, witness_script, redeem_script, p2c_tweak })
}

/// The public key that labels an output paying back to the wallet: the
/// first key of the policy at the output's derivation index.
pub fn output_pubkey(policy: &Policy, output: &TxOutputPlan) -> (r: Option<Vec<u8>>)
    ensures
        output.derivation_index.is_none() ==> r.is_none(),
        output.derivation_index.is_some() ==> r.is_some() == (policy.is_onchain() && contract_chains(
            policy.contract(),
        ).len() > 0 && crate::policy::chain_key(
            contract_chains(policy.contract())[0],
            output.derivation_index.unwrap()@,
        ).is_some()),
        r.is_some() ==> policy.is_onchain() && contract_chains(policy.contract()).len() > 0 && crate::policy::chain_key(
            contract_chains(policy.contract())[0],
            output.derivation_index.unwrap()@,
        ) == Some(r.unwrap()@),
{
    match output.derivation_index {
        Some(i) => policy.first_public_key(i),
        None => None,
    }
}

/// The history record of an outgoing transfer, not yet published.
#[derive(Clone, Debug)]
pub struct OutgoingRecord {
    pub published: bool,
    pub asset_change: u64,
    pub bitcoin_change: u64,
    pub change_outputs: Vec<u16>,
    pub giveaway: Option<u64>,
    pub paid_bitcoin_fee: u64,
    pub output_derivation_indexes: Vec<UnhardenedIndex>,
    pub balance_before: u128,
    pub bitcoin_volume: u128,
    pub asset_volume: u128,
    pub bitcoin_value: u64,
    pub asset_value: u64,
    pub tx_fee: u64,
}

/// Some output pays to derivation index `i`.
pub open spec fn pays_to_index(outs: Seq<TxOutputPlan>, i: UnhardenedIndex) -> bool {
    exists|j: int| 0 <= j < outs.len() && (#[trigger] outs[j]).derivation_index == Some(i)
}

/// The history record of a composed transfer. For a bitcoin payment the
/// asset change and volume are the bitcoin ones.
pub fn outgoing_record(plan: &TransferPlan) -> (r: OutgoingRecord)
    requires
        plan.change_vout.is_some() ==> plan.change_vout.unwrap() <= u16::MAX,
    ensures
        !r.published,
        r.asset_change == if plan.rgb {
            if plan.rgb_change.is_some() {
                plan.rgb_change.unwrap().1
            } else {
                0
            }
        } else {
            plan.bitcoin_change
        },
        r.bitcoin_change == plan.bitcoin_change,
        r.change_outputs@.len() == if plan.change_vout.is_some() {
            1int
        } else {
            0
        },
        plan.change_vout.is_some() ==> r.change_outputs@[0] == plan.change_vout.unwrap(),
        r.giveaway == plan.giveaway,
        r.paid_bitcoin_fee == plan.bitcoin_fee,
        r.tx_fee == plan.bitcoin_fee,
        r.balance_before == plan.balance_before,
        r.bitcoin_volume == plan.bitcoin_input_amount,
        r.asset_volume == if plan.rgb {
            plan.asset_input_amount
        } else {
            plan.bitcoin_input_amount
        },
        r.bitcoin_value == plan.bitcoin_value,
        r.asset_value == plan.asset_value,
        forall|k: int|
            0 <= k < r.output_derivation_indexes@.len() ==> pays_to_index(
                plan.outputs@,
                #[trigger] r.output_derivation_indexes@[k],
            ),
        forall|j: int|
            0 <= j < plan.outputs@.len() && (#[trigger] plan.outputs@[j]).derivation_index.is_some()
                ==> r.output_derivation_indexes@.contains(plan.outputs@[j].derivation_index.unwrap()),
{
    let mut change_outputs: Vec<u16> = Vec::new();
    match plan.change_vout {
        Some(v) => change_outputs.push(v as u16),
        None => {},
    }
    let mut output_derivation_indexes: Vec<UnhardenedIndex> = Vec::new();
    let mut k: usize = 0;
    while k < plan.outputs.len()
        invariant
            0 <= k <= plan.outputs@.len(),
            forall|i: int|
                0 <= i < output_derivation_indexes@.len() ==> pays_to_index(
                    plan.outputs@,
                    #[trigger] output_derivation_indexes@[i],
                ),
            forall|j: int|
                0 <= j < k && (#[trigger] plan.outputs@[j]).derivation_index.is_some()
                    ==> output_derivation_indexes@.contains(plan.outputs@[j].derivation_index.unwrap()),
        decreases plan.outputs@.len() - k,
    {
        match plan.outputs[k].derivation_index {
            Some(i) => {
                let ghost before = output_derivation_indexes@;
                output_derivation_indexes.push(i);
                proof {
                    assert(output_derivation_indexes@[before.len() as int] == i);
                    assert forall|j: int|
                        0 <= j < k + 1 && (#[trigger] plan.outputs@[j]).derivation_index.is_some()
                            implies output_derivation_indexes@.contains(plan.outputs@[j].derivation_index.unwrap()) by {
                        if j < k {
                            let m = choose|m: int| 0 <= m < before.len() && before[m] == plan.outputs@[j].derivation_index.unwrap();
                            assert(output_derivation_indexes@[m] == before[m]);
                        }
                    }
                    assert forall|i0: int|
                        0 <= i0 < output_derivation_indexes@.len() implies pays_to_index(
                            plan.outputs@,
                            #[trigger] output_derivation_indexes@[i0],
                        ) by {
                        if i0 < before.len() {
                            assert(output_derivation_indexes@[i0] == before[i0]);
                        } else {
                            assert(plan.outputs@[k as int].derivation_index == Some(output_derivation_indexes@[i0]));
                        }
                    }
                }
            },
            None => {},
        }
        k = k + 1;
    }
    let asset_change = if plan.rgb {
        match &plan.rgb_change {
            Some(c) => c.1,
            None => 0,
        }
    } else {
        plan.bitcoin_change
    };
    OutgoingRecord {
        published: false,
        asset_change,
        bitcoin_change: plan.bitcoin_change,
        change_outputs,
        giveaway: plan.giveaway,
        paid_bitcoin_fee: plan.bitcoin_fee,
        output_derivation_indexes,
        balance_before: plan.balance_before,
        bitcoin_volume: plan.bitcoin_input_amount,
        asset_volume: if plan.rgb {
            plan.asset_input_amount
        } else {
            plan.bitcoin_input_amount
        },
        bitcoin_value: plan.bitcoin_value,
        asset_value: plan.asset_value,
        tx_fee: plan.bitcoin_fee,
    }
}

} // verus!
