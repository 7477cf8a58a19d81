use vstd::prelude::*;

use crate::chain::{address_on_chain, chain_address, Chain};
use crate::index::{UnhardenedIndex, LARGEST_UNHARDENED};
use crate::model::{copy_bytes, OutPoint, OutPointModel, TweakedOutput, Utxo};

verus! {

/// A script to ask the indexer about, with the derivation index it was made
/// at and, for a recorded pay-to-contract output, the tweak and public key.
#[derive(Clone, Debug)]
pub struct ScriptQuery {
    pub derivation_index: UnhardenedIndex,
    pub script: Vec<u8>,
    pub tweak: Option<(Vec<u8>, Vec<u8>)>,
}

/// The first batch of a synchronisation: the scripts of the recorded
/// pay-to-contract outputs, one query each, in the order of the records.
pub fn initial_batch(tweaks: &Vec<TweakedOutput>) -> (r: Vec<ScriptQuery>)
    ensures
        r@.len() == tweaks@.len(),
        forall|k: int|
            0 <= k < r@.len() ==> {
                &&& (#[trigger] r@[k]).derivation_index == tweaks@[k].derivation_index
                &&& r@[k].script@ == tweaks@[k].script@
                &&& r@[k].tweak.is_some()
                &&& r@[k].tweak.unwrap().0@ == tweaks@[k].tweak@
                &&& r@[k].tweak.unwrap().1@ == tweaks@[k].pubkey@
            },
{
    let mut r: Vec<ScriptQuery> = Vec::new();
    let mut k: usize = 0;
    while k < tweaks.len()
        invariant
            0 <= k <= tweaks@.len(),
            r@.len() == k,
            forall|j: int|
                0 <= j < k ==> {
                    &&& (#[trigger] r@[j]).derivation_index == tweaks@[j].derivation_index
                    &&& r@[j].script@ == tweaks@[j].script@
                    &&& r@[j].tweak.is_some()
                    &&& r@[j].tweak.unwrap().0@ == tweaks@[j].tweak@
                    &&& r@[j].tweak.unwrap().1@ == tweaks@[j].pubkey@
                },
        decreases tweaks@.len() - k,
    {
        let t = &tweaks[k];
        r.push(
            ScriptQuery {
                derivation_index: t.derivation_index,
                script: copy_bytes(&t.script),
                tweak: Some((copy_bytes(&t.tweak), copy_bytes(&t.pubkey))),
            },
        );
        k = k + 1;
    }
    r
}

/// Where the walk over derivation indexes stands.
#[derive(Clone, Copy, Debug)]
pub struct SyncCursor {
    /// The first index not yet asked about.
    pub offset: UnhardenedIndex,
    /// The last index the wallet is known to have used.
    pub last_used: UnhardenedIndex,
    /// How many indexes one batch covers; zero counts as one.
    pub lookup_depth: u8,
    /// Where the last window of derived scripts began, once there was one.
    pub window_start: Option<UnhardenedIndex>,
}

/// The number of indexes a window covers: the lookup depth, and at least one.
pub open spec fn window_size(lookup_depth: u8) -> nat {
    if lookup_depth == 0 {
        1
    } else {
        lookup_depth as nat
    }
}

/// Whether the walk stops after a batch that found `count` outputs: nothing
/// was found in a window of derived scripts that began at or past the last
/// used index, or the walk has reached the largest index.
pub open spec fn sync_stops(window_start: Option<nat>, offset: nat, last_used: nat, count: nat) -> bool {
    (count == 0 && window_start.is_some() && window_start.unwrap() >= last_used) || offset == LARGEST_UNHARDENED
}

/// The end of the window that begins at `offset`: one window size further,
/// or the largest index.
pub open spec fn window_end(offset: nat, lookup_depth: u8) -> nat {
    if offset + window_size(lookup_depth) <= LARGEST_UNHARDENED {
        (offset + window_size(lookup_depth)) as nat
    } else {
        LARGEST_UNHARDENED as nat
    }
}

/// Every window that the walk opens moves it forward and stays within the
/// unhardened range, whatever the lookup depth, so the walk reaches the
/// largest index, where it stops, after finitely many windows.
pub proof fn lemma_walk_advances(offset: nat, lookup_depth: u8)
    requires
        offset < LARGEST_UNHARDENED,
    ensures
        offset < window_end(offset, lookup_depth) <= LARGEST_UNHARDENED,
{
}

/// When the walk stops before the largest index, the windows it walked,
/// which begin at zero and follow one another, cover every index below the
/// last used index plus the lookup depth.
pub proof fn lemma_walk_covers_last_used(start: nat, last_used: nat, count: nat, lookup_depth: u8)
    requires
        start <= LARGEST_UNHARDENED,
        sync_stops(Some(start), window_end(start, lookup_depth), last_used, count),
        window_end(start, lookup_depth) < LARGEST_UNHARDENED,
    ensures
        window_end(start, lookup_depth) >= last_used + lookup_depth,
{
}

impl SyncCursor {
    /// The offset is the end of the last window, where there was one.
    pub open spec fn wf(&self) -> bool {
        self.window_start.is_some() ==> self.offset@ == window_end(self.window_start.unwrap()@, self.lookup_depth)
    }

    /// The start of the last window, as a number.
    pub open spec fn start_spec(&self) -> Option<nat> {
        match self.window_start {
            Some(s) => Some(s@),
            None => None,
        }
    }

    /// A walk that starts at index zero.
    pub fn new(last_used: UnhardenedIndex, lookup_depth: u8) -> (r: SyncCursor)
        ensures
            r.wf(),
            r.offset@ == 0,
            r.last_used == last_used,
            r.lookup_depth == lookup_depth,
            r.window_start.is_none(),
    {
        SyncCursor { offset: UnhardenedIndex::zero(), last_used, lookup_depth, window_start: None }
    }

    /// Decides, after a batch that found `count` outputs, whether the walk
    /// goes on, and if so the half-open window of indexes to derive next.
    /// Each window starts where the one before ended and moves the cursor
    /// forward, so the walk ends.
    pub fn next_window(&mut self, count: usize) -> (r: Option<(UnhardenedIndex, UnhardenedIndex)>)
        requires
            old(self).wf(),
        ensures
            final(self).wf(),
            final(self).last_used == old(self).last_used,
            final(self).lookup_depth == old(self).lookup_depth,
            r.is_none() <==> sync_stops(old(self).start_spec(), old(self).offset@, old(self).last_used@, count as nat),
            r.is_none() ==> *final(self) == *old(self),
            r.is_some() ==> {
                &&& r.unwrap().0 == old(self).offset
                &&& r.unwrap().1@ == window_end(old(self).offset@, old(self).lookup_depth)
                &&& final(self).offset == r.unwrap().1
                &&& final(self).window_start == Some(old(self).offset)
            },
            final(self).offset@ <= LARGEST_UNHARDENED,
            r.is_some() ==> final(self).offset@ > old(self).offset@,
    {
        let offset = self.offset.index();
        let last_used = self.last_used.index();
        let past_last_used = match self.window_start {
            Some(s) => s.index() >= last_used,
            None => false,
        };
        if (count == 0 && past_last_used) || offset == LARGEST_UNHARDENED {
            return None;
        }
        let size: u32 = if self.lookup_depth == 0 {
            1
        } else {
            self.lookup_depth as u32
        };
        let from = self.offset;
        let to = from.saturating_add(size);
        self.offset = to;
        self.window_start = Some(from);
        Some((from, to))
    }
}

/// One output that the indexer reported for a script.
#[derive(Clone, Debug)]
pub struct FoundOutput {
    pub height: u32,
    pub txid: Vec<u8>,
    pub vout: u16,
    pub value: u64,
}

/// An output the indexer reported, with the query that found it.
#[derive(Clone, Debug)]
pub struct Discovered {
    pub found: FoundOutput,
    pub derivation_index: UnhardenedIndex,
    pub script: Vec<u8>,
    pub tweak: Option<(Vec<u8>, Vec<u8>)>,
}

/// The outpoint of a reported output.
pub open spec fn found_outpoint(d: Discovered) -> OutPointModel {
    OutPointModel { txid: d.found.txid@, vout: d.found.vout as u32 }
}

/// Where a unspent output of the sync came from.
pub open spec fn utxo_of(u: Utxo, d: Discovered, offset: u16, address: Option<Seq<char>>) -> bool {
    &&& u.value == d.found.value
    &&& u.height == d.found.height
    &&& u.offset == offset
    &&& u.txid@ == d.found.txid@
    &&& u.vout == d.found.vout
    &&& u.derivation_index == d.derivation_index
    &&& u.tweak.is_some() == d.tweak.is_some()
    &&& u.tweak.is_some() ==> (u.tweak.unwrap().0@ == d.tweak.unwrap().0@ && u.tweak.unwrap().1@
        == d.tweak.unwrap().1@)
    &&& u.address.is_some() == address.is_some()
    &&& u.address.is_some() ==> u.address.unwrap()@ == address.unwrap()
}


/// Whether reported output `d` belongs to the transaction `(height, txid)`.
pub open spec fn in_tx(d: Discovered, height: u32, txid: Seq<u8>) -> bool {
    d.found.height == height && d.found.txid@ == txid
}

/// `d` is output `f`, found by query `q`.
pub open spec fn discovered_from(d: Discovered, f: FoundOutput, q: ScriptQuery) -> bool {
    &&& d.found.height == f.height
    &&& d.found.txid@ == f.txid@
    &&& d.found.vout == f.vout
    &&& d.found.value == f.value
    &&& d.derivation_index == q.derivation_index
    &&& d.script@ == q.script@
    &&& d.tweak.is_some() == q.tweak.is_some()
    &&& d.tweak.is_some() ==> (d.tweak.unwrap().0@ == q.tweak.unwrap().0@ && d.tweak.unwrap().1@
        == q.tweak.unwrap().1@)
}

/// Each output in `acc` was reported for one of the queries.
pub open spec fn all_reported(acc: Seq<Discovered>, batch: Seq<ScriptQuery>, found: Seq<Vec<FoundOutput>>) -> bool {
    forall|i: int|
        #![trigger acc[i]]
        0 <= i < acc.len() ==> exists|q: int, j: int|
            0 <= q < batch.len() && q < found.len() && 0 <= j < found[q]@.len() && discovered_from(
                acc[i],
                #[trigger] found[q]@[j],
                batch[q],
            )
}

/// Output `j` of the answer to query `q` is in `acc`.
pub open spec fn reported_in(
    acc: Seq<Discovered>,
    batch: Seq<ScriptQuery>,
    found: Seq<Vec<FoundOutput>>,
    q: int,
    j: int,
) -> bool {
    exists|i: int| 0 <= i < acc.len() && discovered_from(#[trigger] acc[i], found[q]@[j], batch[q])
}

/// The outputs that the indexer reported for a batch, each with the query
/// that found it: for each query in order, its outputs in the order given.
/// `found[k]` is the answer for `batch[k]`.
pub fn discover(batch: &Vec<ScriptQuery>, found: &Vec<Vec<FoundOutput>>) -> (r: Vec<Discovered>)
    ensures
        all_reported(r@, batch@, found@),
        forall|q: int, j: int|
            0 <= q < batch@.len() && q < found@.len() && 0 <= j < found@[q]@.len() ==> #[trigger] reported_in(
                r@,
                batch@,
                found@,
                q,
                j,
            ),
{
    let mut acc: Vec<Discovered> = Vec::new();
    let mut q: usize = 0;
    while q < batch.len() && q < found.len()
        invariant
            0 <= q <= batch@.len(),
            q <= found@.len(),
            all_reported(acc@, batch@, found@),
            forall|q0: int, j: int|
                0 <= q0 < q && 0 <= j < found@[q0]@.len() ==> #[trigger] reported_in(acc@, batch@, found@, q0, j),
        decreases batch@.len() - q,
    {
        let query = &batch[q];
        let outs = &found[q];
        let mut j: usize = 0;
        while j < outs.len()
            invariant
                0 <= q < batch@.len(),
                q < found@.len(),
                query == batch@[q as int],
                outs == found@[q as int],
                0 <= j <= outs@.len(),
                all_reported(acc@, batch@, found@),
                forall|q0: int, j0: int|
                    ((0 <= q0 < q && 0 <= j0 < found@[q0]@.len()) || (q0 == q && 0 <= j0 < j))
                        ==> #[trigger] reported_in(acc@, batch@, found@, q0, j0),
            decreases outs@.len() - j,
        {
            let f = &outs[j];
            let d = Discovered {
                found: FoundOutput { height: f.height, txid: copy_bytes(&f.txid), vout: f.vout, value: f.value },
                derivation_index: query.derivation_index,
                script: copy_bytes(&query.script),
                tweak: match &query.tweak {
                    Some(t) => Some((copy_bytes(&t.0), copy_bytes(&t.1))),
                    None => None,
                },
            };
            let ghost len = acc@.len();
            let ghost prev = acc@;
            acc.push(d);
            proof {
                assert(discovered_from(acc@[len as int], found@[q as int]@[j as int], batch@[q as int]));
                assert forall|i: int| #![trigger acc@[i]] 0 <= i < acc@.len() implies exists|q0: int, j0: int|
                    0 <= q0 < batch@.len() && q0 < found@.len() && 0 <= j0 < found@[q0]@.len()
                        && discovered_from(acc@[i], #[trigger] found@[q0]@[j0], batch@[q0]) by {
                    if i < len {
                        assert(acc@[i] == prev[i]);
                    }
                }
                assert forall|q0: int, j0: int|
                    ((0 <= q0 < q && 0 <= j0 < found@[q0]@.len()) || (q0 == q && 0 <= j0 < j + 1)) implies
                    #[trigger] reported_in(acc@, batch@, found@, q0, j0) by {
                    if !(q0 == q && j0 == j) {
                        assert(reported_in(prev, batch@, found@, q0, j0));
                        let i = choose|i: int|
                            0 <= i < prev.len() && discovered_from(#[trigger] prev[i], found@[q0]@[j0], batch@[q0]);
                        assert(acc@[i] == prev[i]);
                    } else {
                        assert(acc@[len as int] == d);
                    }
                }
            }
            j = j + 1;
        }
        q = q + 1;
    }
    acc
}

/// A transaction of the chain: its block height and id.
#[derive(Clone, Debug)]
pub struct TxRef {
    pub height: u32,
    pub txid: Vec<u8>,
}

/// The transaction of `d` is among `txs`.
pub open spec fn tx_listed(txs: Seq<TxRef>, d: Discovered) -> bool {
    exists|k: int| 0 <= k < txs.len() && in_tx(d, (#[trigger] txs[k]).height, txs[k].txid@)
}

/// Some output of `disc` belongs to transaction `t`.
pub open spec fn tx_reported(disc: Seq<Discovered>, t: TxRef) -> bool {
    exists|i: int| 0 <= i < disc.len() && in_tx(#[trigger] disc[i], t.height, t.txid@)
}

/// The transactions of the reported outputs, each once, in the order they
/// first appear: one position in its block is to be fetched for each.
pub fn pending_txs(disc: &Vec<Discovered>) -> (r: Vec<TxRef>)
    ensures
        forall|i: int| 0 <= i < disc@.len() ==> tx_listed(r@, #[trigger] disc@[i]),
        forall|k: int| 0 <= k < r@.len() ==> tx_reported(disc@, #[trigger] r@[k]),
        forall|a: int, b: int|
            0 <= a < b < r@.len() ==> !(r@[a].height == r@[b].height && (#[trigger] r@[a]).txid@ == (
            #[trigger] r@[b]).txid@),
{
    let mut acc: Vec<TxRef> = Vec::new();
    let mut i: usize = 0;
    while i < disc.len()
        invariant
            0 <= i <= disc@.len(),
            forall|i0: int| 0 <= i0 < i ==> tx_listed(acc@, #[trigger] disc@[i0]),
            forall|k: int| 0 <= k < acc@.len() ==> tx_reported(disc@, #[trigger] acc@[k]),
            forall|a: int, b: int|
                0 <= a < b < acc@.len() ==> !(acc@[a].height == acc@[b].height && (#[trigger] acc@[a]).txid@ == (
                #[trigger] acc@[b]).txid@),
        decreases disc@.len() - i,
    {
        let d = &disc[i];
        let mut k: usize = 0;
        let mut seen = false;
        while k < acc.len()
            invariant
                0 <= k <= acc@.len(),
                i < disc@.len(),
                d == disc@[i as int],
                seen ==> exists|k0: int| 0 <= k0 < acc@.len() && in_tx(*d, acc@[k0].height, acc@[k0].txid@),
                !seen ==> forall|k0: int| 0 <= k0 < k ==> !in_tx(*d, #[trigger] acc@[k0].height, acc@[k0].txid@),
            decreases acc@.len() - k,
        {
            if acc[k].height == d.found.height && crate::model::bytes_eq(&acc[k].txid, &d.found.txid) {
                seen = true;
            }
            k = k + 1;
        }
        if seen {
            proof {
                let k0 = choose|k0: int| 0 <= k0 < acc@.len() && in_tx(*d, acc@[k0].height, acc@[k0].txid@);
                assert(tx_listed(acc@, disc@[i as int]));
            }
        }
        if !seen {
            let ghost prev = acc@;
            acc.push(TxRef { height: d.found.height, txid: copy_bytes(&d.found.txid) });
            proof {
                assert(in_tx(disc@[i as int], acc@[prev.len() as int].height, acc@[prev.len() as int].txid@));
                assert forall|i0: int| 0 <= i0 < i + 1 implies tx_listed(acc@, #[trigger] disc@[i0]) by {
                    if i0 < i {
                        assert(tx_listed(prev, disc@[i0]));
                        let k = choose|k: int| 0 <= k < prev.len() && in_tx(disc@[i0], (#[trigger] prev[k]).height, prev[k].txid@);
                        assert(acc@[k] == prev[k]);
                    } else {
                        assert(in_tx(disc@[i0], acc@[prev.len() as int].height, acc@[prev.len() as int].txid@));
                    }
                }
                assert forall|k0: int| 0 <= k0 < acc@.len() implies tx_reported(disc@, #[trigger] acc@[k0]) by {
                    if k0 < prev.len() {
                        assert(acc@[k0] == prev[k0]);
                        assert(tx_reported(disc@, prev[k0]));
                    } else {
                        assert(in_tx(disc@[i as int], acc@[k0].height, acc@[k0].txid@));
                    }
                }
                assert forall|a: int, b: int| 0 <= a < b < acc@.len() implies !(acc@[a].height == acc@[b].height && (
                #[trigger] acc@[a]).txid@ == (#[trigger] acc@[b]).txid@) by {
                    if b == prev.len() {
                        assert(acc@[a] == prev[a]);
                        assert(!in_tx(*d, prev[a].height, prev[a].txid@));
                    } else {
                        assert(acc@[a] == prev[a]);
                        assert(acc@[b] == prev[b]);
                    }
                }
            }
        }
        i = i + 1;
    }
    acc
}

/// The outputs a synchronisation has admitted so far, and the block
/// positions of their transactions.
#[derive(Clone, Debug)]
pub struct SyncState {
    pub unspent: Vec<Utxo>,
    pub outpoints: Vec<OutPoint>,
    /// Block height, position in the block and id of each transaction.
    pub mine_info: Vec<(u32, u16, Vec<u8>)>,
}

/// Whether outpoint `op` is among those admitted.
pub open spec fn admitted(outpoints: Seq<OutPoint>, op: OutPointModel) -> bool {
    exists|k: int| 0 <= k < outpoints.len() && (#[trigger] outpoints[k])@ == op
}

/// `u` is the unspent output made of one of the outputs in `disc` that
/// belong to `tx`, at block position `pos`.
pub open spec fn utxo_from_tx(u: Utxo, disc: Seq<Discovered>, tx: TxRef, pos: u16, chain: Chain) -> bool {
    exists|i: int|
        0 <= i < disc.len() && in_tx(disc[i], tx.height, tx.txid@) && utxo_of(
            u,
            #[trigger] disc[i],
            pos,
            chain_address(disc[i].script@, chain),
        )
}

impl SyncState {
    /// One unspent output per admitted outpoint, each outpoint once.
    pub open spec fn wf(&self) -> bool {
        &&& self.unspent@.len() == self.outpoints@.len()
        &&& forall|k: int| 0 <= k < self.unspent@.len() ==> (#[trigger] self.unspent@[k]).outpoint_spec() == self.outpoints@[k]@
        &&& forall|a: int, b: int|
            0 <= a < b < self.outpoints@.len() ==> (#[trigger] self.outpoints@[a])@ != (#[trigger] self.outpoints@[b])@
    }

    /// Nothing admitted yet.
    pub fn new() -> (r: SyncState)
        ensures
            r.wf(),
            r.unspent@.len() == 0,
            r.mine_info@.len() == 0,
    {
        SyncState { unspent: Vec::new(), outpoints: Vec::new(), mine_info: Vec::new() }
    }

    /// Whether an outpoint has been admitted.
    pub fn contains(&self, op: &OutPoint) -> (r: bool)
        ensures
            r == admitted(self.outpoints@, op@),
    {
        let mut k: usize = 0;
        while k < self.outpoints.len()
            invariant
                0 <= k <= self.outpoints@.len(),
                forall|j: int| 0 <= j < k ==> (#[trigger] self.outpoints@[j])@ != op@,
            decreases self.outpoints@.len() - k,
        {
            if self.outpoints[k].same(op) {
                return true;
            }
            k = k + 1;
        }
        false
    }

    /// Admits the reported outputs of transaction `tx`, found at position
    /// `pos` in its block, each outpoint once over the whole
    /// synchronisation.
    pub fn admit_tx(&mut self, disc: &Vec<Discovered>, tx: &TxRef, pos: u16, chain: &Chain)
        requires
            old(self).wf(),
        ensures
            final(self).wf(),
            final(self).mine_info@ == old(self).mine_info@.push(final(self).mine_info@.last()),
            final(self).mine_info@.last().0 == tx.height,
            final(self).mine_info@.last().1 == pos,
            final(self).mine_info@.last().2@ == tx.txid@,
            final(self).outpoints@.len() >= old(self).outpoints@.len(),
            forall|k: int|
                0 <= k < old(self).outpoints@.len() ==> (#[trigger] final(self).outpoints@[k])@
                    == old(self).outpoints@[k]@ && final(self).unspent@[k] == old(self).unspent@[k],
            forall|i: int|
                0 <= i < disc@.len() && in_tx(#[trigger] disc@[i], tx.height, tx.txid@) ==> admitted(
                    final(self).outpoints@,
                    found_outpoint(disc@[i]),
                ),
            forall|k: int|
                old(self).unspent@.len() <= k < final(self).unspent@.len() ==> utxo_from_tx(
                    #[trigger] final(self).unspent@[k],
                    disc@,
                    *tx,
                    pos,
                    *chain,
                ),
    {
        self.mine_info.push((tx.height, pos, copy_bytes(&tx.txid)));
        let ghost mine_info = self.mine_info@;
        let ghost old_outpoints = self.outpoints@;
        let ghost old_unspent = self.unspent@;
        let mut i: usize = 0;
        while i < disc.len()
            invariant
                self.wf(),
                0 <= i <= disc@.len(),
                self.outpoints@.len() >= old_outpoints.len(),
                forall|k: int|
                    0 <= k < old_outpoints.len() ==> (#[trigger] self.outpoints@[k])@ == old_outpoints[k]@
                        && self.unspent@[k] == old_unspent[k],
                forall|i0: int|
                    0 <= i0 < i && in_tx(#[trigger] disc@[i0], tx.height, tx.txid@) ==> admitted(
                        self.outpoints@,
                        found_outpoint(disc@[i0]),
                    ),
                forall|k: int|
                    old_unspent.len() <= k < self.unspent@.len() ==> utxo_from_tx(
                        #[trigger] self.unspent@[k],
                        disc@,
                        *tx,
                        pos,
                        *chain,
                    ),
                old_unspent.len() == old_outpoints.len(),
                self.mine_info@ == mine_info,
            decreases disc@.len() - i,
        {
            let d = &disc[i];
            if d.found.height == tx.height && crate::model::bytes_eq(&d.found.txid, &tx.txid) {
                let op = OutPoint { txid: copy_bytes(&d.found.txid), vout: d.found.vout as u32 };
                if !self.contains(&op) {
                    let address = address_on_chain(&d.script, chain);
                    let utxo = Utxo {
                        value: d.found.value,
                        height: d.found.height,
                        offset: pos,
                        txid: copy_bytes(&d.found.txid),
                        vout: d.found.vout,
                        derivation_index: d.derivation_index,
                        tweak: match &d.tweak {
                            Some(t) => Some((copy_bytes(&t.0), copy_bytes(&t.1))),
                            None => None,
                        },
                        address,
                    };
                    let ghost prev_o = self.outpoints@;
                    let ghost prev_u = self.unspent@;
                    self.outpoints.push(op);
                    self.unspent.push(utxo);
                    proof {
                        let n = prev_o.len() as int;
                        assert(self.outpoints@[n]@ == found_outpoint(disc@[i as int]));
                        assert forall|k: int| 0 <= k < self.unspent@.len() implies (
                        #[trigger] self.unspent@[k]).outpoint_spec() == self.outpoints@[k]@ by {
                            if k < n {
                                assert(self.unspent@[k] == prev_u[k]);
                                assert(self.outpoints@[k] == prev_o[k]);
                            }
                        }
                        assert forall|a: int, b: int| 0 <= a < b < self.outpoints@.len() implies (
                        #[trigger] self.outpoints@[a])@ != (#[trigger] self.outpoints@[b])@ by {
                            assert(self.outpoints@[a] == prev_o[a]);
                            if b < n {
                                assert(self.outpoints@[b] == prev_o[b]);
                            } else {
                                assert(!admitted(prev_o, op@));
                            }
                        }
                        assert forall|k: int| 0 <= k < old_outpoints.len() implies (
                        #[trigger] self.outpoints@[k])@ == old_outpoints[k]@ && self.unspent@[k] == old_unspent[k] by {
                            assert(self.outpoints@[k] == prev_o[k]);
                            assert(self.unspent@[k] == prev_u[k]);
                        }
                        assert forall|i0: int|
                            0 <= i0 < i + 1 && in_tx(#[trigger] disc@[i0], tx.height, tx.txid@) implies admitted(
                            self.outpoints@,
                            found_outpoint(disc@[i0]),
                        ) by {
                            if i0 < i {
                                let k = choose|k: int| 0 <= k < prev_o.len() && (#[trigger] prev_o[k])@ == found_outpoint(disc@[i0]);
                                assert(self.outpoints@[k] == prev_o[k]);
                            } else {
                                assert(self.outpoints@[n]@ == found_outpoint(disc@[i0]));
                            }
                        }
                        assert forall|k: int| old_unspent.len() <= k < self.unspent@.len() implies utxo_from_tx(
                            #[trigger] self.unspent@[k],
                            disc@,
                            *tx,
                            pos,
                            *chain,
                        ) by {
                            if k < n {
                                assert(self.unspent@[k] == prev_u[k]);
                            } else {
                                assert(utxo_of(self.unspent@[k], disc@[i as int], pos, chain_address(disc@[i as int].script@, *chain)));
                            }
                        }
                    }
                }
            }
            i = i + 1;
        }
    }
}


/// `u` was made of an output of a transaction of the batch that has a
/// block position.
pub open spec fn from_positioned_tx(
    u: Utxo,
    disc: Seq<Discovered>,
    txs: Seq<TxRef>,
    positions: Seq<Option<u16>>,
    chain: Chain,
) -> bool {
    exists|k: int|
        0 <= k < txs.len() && k < positions.len() && positions[k].is_some() && utxo_from_tx(
            u,
            disc,
            #[trigger] txs[k],
            positions[k].unwrap(),
            chain,
        )
}

/// The block positions recorded for the first `n` transactions of a batch:
/// one entry for each that has one, in order.
pub open spec fn mine_of(txs: Seq<TxRef>, positions: Seq<Option<u16>>, n: nat) -> Seq<(u32, u16, Seq<u8>)>
    decreases n,
{
    if n == 0 {
        Seq::empty()
    } else {
        let prev = mine_of(txs, positions, (n - 1) as nat);
        match positions[n - 1] {
            Some(pos) => prev.push((txs[n - 1].height, pos, txs[n - 1].txid@)),
            None => prev,
        }
    }
}

/// Block positions as values.
pub open spec fn mine_view(m: Seq<(u32, u16, Vec<u8>)>) -> Seq<(u32, u16, Seq<u8>)> {
    m.map_values(|e: (u32, u16, Vec<u8>)| (e.0, e.1, e.2@))
}

impl SyncState {
    /// Admits the outputs of a batch: `positions[k]` is the block position
    /// of `txs[k]`, or `None` where it could not be had, in which case that
    /// transaction's outputs are passed over.
    pub fn admit_batch(&mut self, disc: &Vec<Discovered>, txs: &Vec<TxRef>, positions: &Vec<Option<u16>>, chain: &Chain)
        requires
            old(self).wf(),
        ensures
            final(self).wf(),
            final(self).outpoints@.len() >= old(self).outpoints@.len(),
            forall|k: int|
                0 <= k < old(self).outpoints@.len() ==> (#[trigger] final(self).outpoints@[k])@
                    == old(self).outpoints@[k]@ && final(self).unspent@[k] == old(self).unspent@[k],
            forall|i: int, k: int|
                0 <= i < disc@.len() && 0 <= k < txs@.len() && k < positions@.len() && positions@[k].is_some()
                    && in_tx(#[trigger] disc@[i], (#[trigger] txs@[k]).height, txs@[k].txid@) ==> admitted(
                    final(self).outpoints@,
                    found_outpoint(disc@[i]),
                ),
            forall|m: int|
                old(self).unspent@.len() <= m < final(self).unspent@.len() ==> from_positioned_tx(
                    #[trigger] final(self).unspent@[m],
                    disc@,
                    txs@,
                    positions@,
                    *chain,
                ),
            mine_view(final(self).mine_info@) == mine_view(old(self).mine_info@) + mine_of(
                txs@,
                positions@,
                if txs@.len() < positions@.len() {
                    txs@.len()
                } else {
                    positions@.len()
                },
            ),
    {
        let mut k: usize = 0;
        while k < txs.len() && k < positions.len()
            invariant
                self.wf(),
                0 <= k <= txs@.len(),
                k <= positions@.len(),
                self.outpoints@.len() >= old(self).outpoints@.len(),
                forall|j: int|
                    0 <= j < old(self).outpoints@.len() ==> (#[trigger] self.outpoints@[j])@
                        == old(self).outpoints@[j]@ && self.unspent@[j] == old(self).unspent@[j],
                forall|i: int, k0: int|
                    0 <= i < disc@.len() && 0 <= k0 < k && positions@[k0].is_some() && in_tx(
                        #[trigger] disc@[i],
                        (#[trigger] txs@[k0]).height,
                        txs@[k0].txid@,
                    ) ==> admitted(self.outpoints@, found_outpoint(disc@[i])),
                forall|m: int|
                    old(self).unspent@.len() <= m < self.unspent@.len() ==> from_positioned_tx(
                        #[trigger] self.unspent@[m],
                        disc@,
                        txs@,
                        positions@,
                        *chain,
                    ),
                mine_view(self.mine_info@) == mine_view(old(self).mine_info@) + mine_of(txs@, positions@, k as nat),
            decreases txs@.len() - k,
        {
            let ghost before_m = self.mine_info@;
            match positions[k] {
                Some(pos) => {
                    let ghost before = self.outpoints@;
                    let ghost before_u = self.unspent@;
                    self.admit_tx(disc, &txs[k], pos, chain);
                    proof {
                        assert(mine_view(self.mine_info@) =~= mine_view(before_m).push(
                            (txs@[k as int].height, pos, txs@[k as int].txid@),
                        ));
                        assert(mine_view(self.mine_info@) =~= mine_view(old(self).mine_info@) + mine_of(
                            txs@,
                            positions@,
                            (k + 1) as nat,
                        ));
                        assert forall|m: int|
                            old(self).unspent@.len() <= m < self.unspent@.len() implies from_positioned_tx(
                            #[trigger] self.unspent@[m],
                            disc@,
                            txs@,
                            positions@,
                            *chain,
                        ) by {
                            if m < before_u.len() {
                                assert(self.unspent@[m] == before_u[m]);
                            } else {
                                assert(utxo_from_tx(self.unspent@[m], disc@, txs@[k as int], pos, *chain));
                            }
                        }
                        assert forall|i: int, k0: int|
                            0 <= i < disc@.len() && 0 <= k0 < k + 1 && positions@[k0].is_some() && in_tx(
                                #[trigger] disc@[i],
                                (#[trigger] txs@[k0]).height,
                                txs@[k0].txid@,
                            ) implies admitted(self.outpoints@, found_outpoint(disc@[i])) by {
                            if k0 < k {
                                let j = choose|j: int| 0 <= j < before.len() && (#[trigger] before[j])@ == found_outpoint(disc@[i]);
                                assert(self.outpoints@[j]@ == before[j]@);
                            }
                        }
                        assert forall|j: int| 0 <= j < old(self).outpoints@.len() implies (#[trigger] self.outpoints@[j])@
                            == old(self).outpoints@[j]@ && self.unspent@[j] == old(self).unspent@[j] by {
                            assert(self.outpoints@[j]@ == before[j]@);
                            assert(self.unspent@[j] == before_u[j]);
                        }
                    }
                },
                None => {
                    proof {
                        assert(mine_of(txs@, positions@, (k + 1) as nat) == mine_of(txs@, positions@, k as nat));
                    }
                },
            }
            k = k + 1;
        }
    }
}


/// What the asset daemon reports for one outpoint: an asset and the amounts
/// of it assigned there.
#[derive(Clone, Debug)]
pub struct AssetAmounts {
    pub asset_id: Vec<u8>,
    pub amounts: Vec<u64>,
}

/// The unspent outputs that hold one asset; for bitcoin (the zero id) all of
/// them.
#[derive(Clone, Debug)]
pub struct AssetBucket {
    pub asset_id: Vec<u8>,
    pub utxos: Vec<Utxo>,
}

/// Why the results of a synchronisation cannot be assembled.
#[derive(Clone, Copy, Debug, PartialEq, Eq, Structural)]
pub enum SyncError {
    /// The amounts of an asset on one output do not fit in 64 bits.
    AmountOverflow,
}

/// The sum of amounts.
pub open spec fn amount_sum(a: Seq<u64>) -> int
    decreases a.len(),
{
    if a.len() == 0 {
        0
    } else {
        amount_sum(a.drop_last()) + a.last()
    }
}

/// The 32-byte zero id that stands for bitcoin itself.
pub open spec fn bitcoin_asset_id() -> Seq<u8> {
    Seq::new(32, |i: int| 0u8)
}

/// `u` is `orig` holding `value` units.
pub open spec fn with_value(u: Utxo, orig: Utxo, value: int) -> bool {
    &&& u.value == value
    &&& u.height == orig.height
    &&& u.offset == orig.offset
    &&& u.txid@ == orig.txid@
    &&& u.vout == orig.vout
    &&& u.derivation_index == orig.derivation_index
}

/// Whether output `k` holds a positive amount of the asset in entry `j` of
/// its report.
pub open spec fn holds_asset(answers: Seq<Vec<AssetAmounts>>, k: int, j: int) -> bool {
    amount_sum(answers[k]@[j].amounts@) > 0
}

/// Some bucket of `assets` for `asset_id` holds `orig` with `value` units.
pub open spec fn in_bucket(assets: Seq<AssetBucket>, asset_id: Seq<u8>, orig: Utxo, value: int) -> bool {
    exists|b: int, e: int|
        0 <= b < assets.len() && assets[b].asset_id@ == asset_id && 0 <= e < assets[b].utxos@.len() && with_value(
            #[trigger] assets[b].utxos@[e],
            orig,
            value,
        )
}

/// `u` holds the amount of asset `asset_id` that some report gives to the
/// output it copies.
pub open spec fn entry_sourced(unspent: Seq<Utxo>, answers: Seq<Vec<AssetAmounts>>, asset_id: Seq<u8>, u: Utxo) -> bool {
    exists|k: int, j: int|
        0 <= k < unspent.len() && k < answers.len() && 0 <= j < answers[k]@.len() && (#[trigger] answers[k]@[j]).asset_id@
            == asset_id && holds_asset(answers, k, j) && with_value(u, unspent[k], amount_sum(answers[k]@[j].amounts@))
}

/// `u` copies output `k`, whatever amount it holds.
pub open spec fn copy_of(u: Utxo, unspent: Seq<Utxo>, k: int) -> bool {
    0 <= k < unspent.len() && with_value(u, unspent[k], u.value as int)
}

/// `u1` copies an output that comes no later than the one `u2` copies.
pub open spec fn in_output_order(u1: Utxo, u2: Utxo, unspent: Seq<Utxo>) -> bool {
    exists|k1: int, k2: int| #[trigger] copy_of(u1, unspent, k1) && #[trigger] copy_of(u2, unspent, k2) && k1 <= k2
}

/// `u` copies one of the outputs up to `kk`.
pub open spec fn copied_upto(u: Utxo, unspent: Seq<Utxo>, kk: int) -> bool {
    exists|src: int| src <= kk && #[trigger] copy_of(u, unspent, src)
}

/// Every copy in the asset buckets, and beyond the first `n` entries of the
/// bitcoin bucket, copies one of the outputs up to `kk`.
pub open spec fn copies_upto(assets: Seq<AssetBucket>, n: nat, unspent: Seq<Utxo>, kk: int) -> bool {
    &&& forall|b: int, e: int|
        1 <= b < assets.len() && 0 <= e < assets[b].utxos@.len() ==> copied_upto(
            #[trigger] assets[b].utxos@[e],
            unspent,
            kk,
        )
    &&& forall|e: int|
        n <= e < assets[0].utxos@.len() ==> copied_upto(#[trigger] assets[0].utxos@[e], unspent, kk)
}

/// Within each asset bucket, and beyond the first `n` entries of the
/// bitcoin bucket, the copies follow the order of the outputs.
pub open spec fn buckets_ordered(assets: Seq<AssetBucket>, n: nat, unspent: Seq<Utxo>) -> bool {
    &&& forall|b: int, e1: int, e2: int|
        1 <= b < assets.len() && 0 <= e1 < e2 < assets[b].utxos@.len() ==> in_output_order(
            #[trigger] assets[b].utxos@[e1],
            #[trigger] assets[b].utxos@[e2],
            unspent,
        )
    &&& forall|e1: int, e2: int|
        n <= e1 < e2 < assets[0].utxos@.len() ==> in_output_order(
            #[trigger] assets[0].utxos@[e1],
            #[trigger] assets[0].utxos@[e2],
            unspent,
        )
}

proof fn lemma_copies_mono(assets: Seq<AssetBucket>, n: nat, unspent: Seq<Utxo>, k: int)
    requires
        copies_upto(assets, n, unspent, k),
    ensures
        copies_upto(assets, n, unspent, k + 1),
{
    assert forall|b: int, e: int| 1 <= b < assets.len() && 0 <= e < assets[b].utxos@.len() implies copied_upto(
        #[trigger] assets[b].utxos@[e],
        unspent,
        k + 1,
    ) by {
        assert(copied_upto(assets[b].utxos@[e], unspent, k));
        let src = choose|src: int| src <= k && #[trigger] copy_of(assets[b].utxos@[e], unspent, src);
    }
    assert forall|e: int| n <= e < assets[0].utxos@.len() implies copied_upto(
        #[trigger] assets[0].utxos@[e],
        unspent,
        k + 1,
    ) by {
        assert(copied_upto(assets[0].utxos@[e], unspent, k));
        let src = choose|src: int| src <= k && #[trigger] copy_of(assets[0].utxos@[e], unspent, src);
    }
}

proof fn lemma_order_after_push(
    before: Seq<AssetBucket>,
    after: Seq<AssetBucket>,
    b: int,
    n: nat,
    unspent: Seq<Utxo>,
    k: int,
)
    requires
        before.len() >= 1,
        0 <= b < after.len(),
        b < before.len() ==> after.len() == before.len() && after[b].utxos@.drop_last() == before[b].utxos@
            && after[b].utxos@.len() == before[b].utxos@.len() + 1,
        b >= before.len() ==> b == before.len() && after.len() == before.len() + 1 && after[b].utxos@.len() == 1,
        forall|c: int| 0 <= c < before.len() && c != b ==> after[c] == before[c],
        copy_of(after[b].utxos@.last(), unspent, k),
        copies_upto(before, n, unspent, k),
        buckets_ordered(before, n, unspent),
        before[0].utxos@.len() >= n,
    ensures
        copies_upto(after, n, unspent, k),
        buckets_ordered(after, n, unspent),
{
    let last = after[b].utxos@.len() - 1;
    assert forall|c: int, e: int| 0 <= c < after.len() && 0 <= e < after[c].utxos@.len() && !(c == b && e == last)
        implies c < before.len() && e < before[c].utxos@.len() && #[trigger] after[c].utxos@[e] == before[c].utxos@[e] by {
        if c == b {
            assert(after[b].utxos@.drop_last()[e] == after[b].utxos@[e]);
        } else {
            assert(after[c] == before[c]);
        }
    }
    assert forall|c: int, e: int|
        1 <= c < after.len() && 0 <= e < after[c].utxos@.len() implies copied_upto(
        #[trigger] after[c].utxos@[e],
        unspent,
        k,
    ) by {
        if c == b && e == last {
            assert(copy_of(after[c].utxos@[e], unspent, k));
        } else {
            assert(after[c].utxos@[e] == before[c].utxos@[e]);
        }
    }
    assert forall|e: int| n <= e < after[0].utxos@.len() implies copied_upto(
        #[trigger] after[0].utxos@[e],
        unspent,
        k,
    ) by {
        if b == 0 && e == last {
            assert(copy_of(after[0].utxos@[e], unspent, k));
        } else {
            assert(after[0].utxos@[e] == before[0].utxos@[e]);
        }
    }
    assert forall|c: int, e1: int, e2: int|
        1 <= c < after.len() && 0 <= e1 < e2 < after[c].utxos@.len() implies in_output_order(
        #[trigger] after[c].utxos@[e1],
        #[trigger] after[c].utxos@[e2],
        unspent,
    ) by {
        assert(after[c].utxos@[e1] == before[c].utxos@[e1]);
        if c == b && e2 == last {
            assert(copied_upto(before[c].utxos@[e1], unspent, k));
            let k1 = choose|k1: int| k1 <= k && #[trigger] copy_of(before[c].utxos@[e1], unspent, k1);
            assert(copy_of(after[c].utxos@[e2], unspent, k));
        } else {
            assert(after[c].utxos@[e2] == before[c].utxos@[e2]);
        }
    }
    assert forall|e1: int, e2: int| n <= e1 < e2 < after[0].utxos@.len() implies in_output_order(
        #[trigger] after[0].utxos@[e1],
        #[trigger] after[0].utxos@[e2],
        unspent,
    ) by {
        assert(after[0].utxos@[e1] == before[0].utxos@[e1]);
        if b == 0 && e2 == last {
            assert(copied_upto(before[0].utxos@[e1], unspent, k));
            let k1 = choose|k1: int| k1 <= k && #[trigger] copy_of(before[0].utxos@[e1], unspent, k1);
            assert(copy_of(after[0].utxos@[e2], unspent, k));
        } else {
            assert(after[0].utxos@[e2] == before[0].utxos@[e2]);
        }
    }
}

/// Every entry of the buckets, beyond the copies of all outputs in the
/// bitcoin bucket, comes from a report.
pub open spec fn all_sourced(assets: Seq<AssetBucket>, unspent: Seq<Utxo>, answers: Seq<Vec<AssetAmounts>>) -> bool {
    &&& forall|b: int, e: int|
        1 <= b < assets.len() && 0 <= e < assets[b].utxos@.len() ==> entry_sourced(
            unspent,
            answers,
            assets[b].asset_id@,
            #[trigger] assets[b].utxos@[e],
        )
    &&& forall|e: int|
        unspent.len() <= e < assets[0].utxos@.len() ==> entry_sourced(
            unspent,
            answers,
            assets[0].asset_id@,
            #[trigger] assets[0].utxos@[e],
        )
}

/// The asset buckets have one id each.
pub open spec fn ids_distinct(assets: Seq<AssetBucket>) -> bool {
    forall|a: int, b: int| 0 <= a < b < assets.len() ==> (#[trigger] assets[a]).asset_id@ != (#[trigger] assets[b]).asset_id@
}

fn sum_amounts(a: &Vec<u64>) -> (r: Option<u64>)
    ensures
        r.is_some() <==> amount_sum(a@) <= u64::MAX,
        r.is_some() ==> r.unwrap() == amount_sum(a@),
{
    let mut sum: u64 = 0;
    let mut i: usize = 0;
    while i < a.len()
        invariant
            0 <= i <= a@.len(),
            sum == amount_sum(a@.subrange(0, i as int)),
        decreases a@.len() - i,
    {
        proof {
            assert(a@.subrange(0, i + 1).drop_last() =~= a@.subrange(0, i as int));
        }
        if a[i] > u64::MAX - sum {
            proof {
                lemma_amount_sum_prefix(a@, i + 1);
            }
            return None;
        }
        sum = sum + a[i];
        i = i + 1;
    }
    proof {
        assert(a@.subrange(0, i as int) =~= a@);
    }
    Some(sum)
}

/// The sum over a prefix never exceeds the sum over the whole.
proof fn lemma_amount_sum_prefix(a: Seq<u64>, n: int)
    requires
        0 <= n <= a.len(),
    ensures
        amount_sum(a.subrange(0, n)) <= amount_sum(a),
    decreases a.len() - n,
{
    if n < a.len() {
        lemma_amount_sum_prefix(a, n + 1);
        assert(a.subrange(0, n + 1).drop_last() =~= a.subrange(0, n));
    } else {
        assert(a.subrange(0, n) =~= a);
    }
}

fn find_bucket(assets: &Vec<AssetBucket>, asset_id: &Vec<u8>) -> (r: Option<usize>)
    ensures
        r.is_some() ==> r.unwrap() < assets@.len() && assets@[r.unwrap() as int].asset_id@ == asset_id@,
        r.is_none() ==> forall|b: int| 0 <= b < assets@.len() ==> (#[trigger] assets@[b]).asset_id@ != asset_id@,
{
    let mut b: usize = 0;
    while b < assets.len()
        invariant
            0 <= b <= assets@.len(),
            forall|b0: int| 0 <= b0 < b ==> (#[trigger] assets@[b0]).asset_id@ != asset_id@,
        decreases assets@.len() - b,
    {
        if crate::model::bytes_eq(&assets[b].asset_id, asset_id) {
            return Some(b);
        }
        b = b + 1;
    }
    None
}

/// Adding an output to one bucket keeps every id and every output already
/// held.
proof fn lemma_buckets_after_push(before: Seq<AssetBucket>, after: Seq<AssetBucket>, b: int)
    requires
        0 <= b < before.len(),
        after.len() == before.len(),
        after[b].asset_id == before[b].asset_id,
        after[b].utxos@.drop_last() == before[b].utxos@,
        after[b].utxos@.len() == before[b].utxos@.len() + 1,
        forall|i: int| 0 <= i < before.len() && i != b ==> after[i] == before[i],
    ensures
        forall|i: int| 0 <= i < before.len() ==> (#[trigger] after[i]).asset_id@ == before[i].asset_id@,
        forall|i: int, e: int|
            0 <= i < before.len() && 0 <= e < before[i].utxos@.len() ==> (#[trigger] after[i].utxos@[e])
                == before[i].utxos@[e],
        forall|id: Seq<u8>, orig: Utxo, v: int| in_bucket(before, id, orig, v) ==> #[trigger] in_bucket(after, id, orig, v),
{
    assert forall|i: int, e: int|
        0 <= i < before.len() && 0 <= e < before[i].utxos@.len() implies (#[trigger] after[i].utxos@[e])
            == before[i].utxos@[e] by {
        if i == b {
            assert(after[b].utxos@.drop_last()[e] == after[b].utxos@[e]);
        }
    }
    assert forall|id: Seq<u8>, orig: Utxo, v: int| in_bucket(before, id, orig, v) implies #[trigger] in_bucket(
        after,
        id,
        orig,
        v,
    ) by {
        let (b0, e0) = choose|b0: int, e0: int|
            0 <= b0 < before.len() && before[b0].asset_id@ == id && 0 <= e0 < before[b0].utxos@.len() && with_value(
                #[trigger] before[b0].utxos@[e0],
                orig,
                v,
            );
        assert(after[b0].utxos@[e0] == before[b0].utxos@[e0]);
    }
}

/// Adding a sourced entry to one bucket keeps every entry sourced.
proof fn lemma_sourced_after_push(
    before: Seq<AssetBucket>,
    after: Seq<AssetBucket>,
    b: int,
    unspent: Seq<Utxo>,
    answers: Seq<Vec<AssetAmounts>>,
)
    requires
        0 <= b < before.len(),
        after.len() == before.len(),
        after[b].asset_id == before[b].asset_id,
        after[b].utxos@.drop_last() == before[b].utxos@,
        after[b].utxos@.len() == before[b].utxos@.len() + 1,
        forall|i: int| 0 <= i < before.len() && i != b ==> after[i] == before[i],
        all_sourced(before, unspent, answers),
        entry_sourced(unspent, answers, after[b].asset_id@, after[b].utxos@.last()),
        before[0].utxos@.len() >= unspent.len(),
    ensures
        all_sourced(after, unspent, answers),
{
    assert forall|i: int, e: int|
        1 <= i < after.len() && 0 <= e < after[i].utxos@.len() implies entry_sourced(
            unspent,
            answers,
            after[i].asset_id@,
            #[trigger] after[i].utxos@[e],
        ) by {
        if i == b && e < before[b].utxos@.len() {
            assert(after[b].utxos@.drop_last()[e] == after[b].utxos@[e]);
        } else if i != b {
            assert(after[i] == before[i]);
        }
    }
    assert forall|e: int|
        unspent.len() <= e < after[0].utxos@.len() implies entry_sourced(
            unspent,
            answers,
            after[0].asset_id@,
            #[trigger] after[0].utxos@[e],
        ) by {
        if b == 0 && e < before[0].utxos@.len() {
            assert(after[0].utxos@.drop_last()[e] == after[0].utxos@[e]);
        } else if b != 0 {
            assert(after[0] == before[0]);
        }
    }
}

/// How many of the first `j` entries of a report give a positive amount of
/// asset `id`.
pub open spec fn report_count(report: Seq<AssetAmounts>, id: Seq<u8>, j: nat) -> nat
    decreases j,
{
    if j == 0 {
        0
    } else {
        report_count(report, id, (j - 1) as nat) + if report[j - 1].asset_id@ == id && amount_sum(
            report[j - 1].amounts@,
        ) > 0 {
            1nat
        } else {
            0
        }
    }
}

/// How many entries of the first `k` reports, and of the first `j` entries
/// of report `k`, give a positive amount of asset `id`.
pub open spec fn count_at(answers: Seq<Vec<AssetAmounts>>, id: Seq<u8>, k: nat, j: nat) -> nat
    decreases k,
{
    if k == 0 {
        report_count(answers[0]@, id, j)
    } else {
        count_at(answers, id, (k - 1) as nat, answers[k - 1]@.len()) + report_count(answers[k as int]@, id, j)
    }
}

/// Each asset bucket holds one copy per positive report of its asset and
/// at least one, the bitcoin bucket also one copy of every output, and
/// every asset with a positive report has a bucket.
pub open spec fn sizes_at(assets: Seq<AssetBucket>, n: nat, answers: Seq<Vec<AssetAmounts>>, k: nat, j: nat) -> bool {
    &&& forall|b: int|
        1 <= b < assets.len() ==> (#[trigger] assets[b]).utxos@.len() == count_at(answers, assets[b].asset_id@, k, j)
            && assets[b].utxos@.len() >= 1
    &&& assets[0].utxos@.len() == n + count_at(answers, assets[0].asset_id@, k, j)
    &&& forall|id: Seq<u8>|
        #[trigger] count_at(answers, id, k, j) > 0 ==> exists|b: int| 0 <= b < assets.len() && assets[b].asset_id@ == id
}

/// The bucket sizes once every report of an admitted output is read.
pub open spec fn bucket_sizes(assets: Seq<AssetBucket>, unspent: Seq<Utxo>, answers: Seq<Vec<AssetAmounts>>) -> bool {
    let n = if unspent.len() < answers.len() {
        unspent.len()
    } else {
        answers.len()
    };
    if n == 0 {
        sizes_at(assets, unspent.len(), answers, 0, 0)
    } else {
        sizes_at(assets, unspent.len(), answers, (n - 1) as nat, answers[n - 1]@.len())
    }
}

proof fn lemma_count_step(answers: Seq<Vec<AssetAmounts>>, id: Seq<u8>, k: nat, j: nat)
    ensures
        count_at(answers, id, k, (j + 1) as nat) == count_at(answers, id, k, j) + if answers[k as int]@[j as int].asset_id@
            == id && amount_sum(answers[k as int]@[j as int].amounts@) > 0 {
            1nat
        } else {
            0
        },
{
    assert(report_count(answers[k as int]@, id, (j + 1) as nat) == report_count(answers[k as int]@, id, j) + if answers[k as int]@[j as int].asset_id@
        == id && amount_sum(answers[k as int]@[j as int].amounts@) > 0 {
        1nat
    } else {
        0
    });
}

proof fn lemma_sizes_skip(assets: Seq<AssetBucket>, n: nat, answers: Seq<Vec<AssetAmounts>>, k: nat, j: nat)
    requires
        sizes_at(assets, n, answers, k, j),
        amount_sum(answers[k as int]@[j as int].amounts@) == 0,
    ensures
        sizes_at(assets, n, answers, k, (j + 1) as nat),
{
    assert forall|id: Seq<u8>| #[trigger] count_at(answers, id, k, (j + 1) as nat) == count_at(answers, id, k, j) by {
        lemma_count_step(answers, id, k, j);
    }
}

proof fn lemma_sizes_grow(
    before: Seq<AssetBucket>,
    after: Seq<AssetBucket>,
    n: nat,
    answers: Seq<Vec<AssetAmounts>>,
    k: nat,
    j: nat,
    b: int,
)
    requires
        sizes_at(before, n, answers, k, j),
        amount_sum(answers[k as int]@[j as int].amounts@) > 0,
        ids_distinct(before),
        0 <= b < after.len(),
        after[b].asset_id@ == answers[k as int]@[j as int].asset_id@,
        after[b].utxos@.len() == if b < before.len() {
            before[b].utxos@.len() + 1
        } else {
            1
        },
        b < before.len() ==> after.len() == before.len() && before[b].asset_id@ == after[b].asset_id@,
        b >= before.len() ==> after.len() == before.len() + 1 && b == before.len() && forall|c: int|
            0 <= c < before.len() ==> before[c].asset_id@ != after[b].asset_id@,
        forall|c: int| 0 <= c < before.len() && c != b ==> after[c] == before[c],
        before.len() >= 1,
    ensures
        sizes_at(after, n, answers, k, (j + 1) as nat),
{
    let id0 = answers[k as int]@[j as int].asset_id@;
    assert forall|id: Seq<u8>| #[trigger] count_at(answers, id, k, (j + 1) as nat) == count_at(answers, id, k, j) + if id == id0 {
        1nat
    } else {
        0
    } by {
        lemma_count_step(answers, id, k, j);
    }
    if b >= before.len() {
        assert(count_at(answers, id0, k, j) == 0) by {
            if count_at(answers, id0, k, j) > 0 {
                let c = choose|c: int| 0 <= c < before.len() && before[c].asset_id@ == id0;
            }
        }
    }
    assert forall|c: int| 1 <= c < after.len() implies (#[trigger] after[c]).utxos@.len() == count_at(
        answers,
        after[c].asset_id@,
        k,
        (j + 1) as nat,
    ) && after[c].utxos@.len() >= 1 by {
        assert(count_at(answers, after[c].asset_id@, k, (j + 1) as nat) == count_at(answers, after[c].asset_id@, k, j) + if after[c].asset_id@ == id0 {
            1nat
        } else {
            0
        });
        if c == b && b < before.len() {
            assert(before[b].utxos@.len() == count_at(answers, before[b].asset_id@, k, j));
        }
        if c != b {
            assert(after[c] == before[c]);
            if before[c].asset_id@ == id0 {
                assert(b < before.len());
                if c < b {
                    assert(before[c].asset_id@ != before[b].asset_id@);
                } else {
                    assert(before[b].asset_id@ != before[c].asset_id@);
                }
            }
        }
    }
    if b != 0 {
        assert(after[0] == before[0]);
        if before[0].asset_id@ == id0 {
            if b < before.len() {
                assert(before[0].asset_id@ != before[b].asset_id@);
            }
        }
    }
    assert forall|id: Seq<u8>| #[trigger] count_at(answers, id, k, (j + 1) as nat) > 0 implies exists|c: int|
        0 <= c < after.len() && after[c].asset_id@ == id by {
        if id == id0 {
            assert(after[b].asset_id@ == id);
        } else {
            assert(count_at(answers, id, k, j) > 0);
            let c = choose|c: int| 0 <= c < before.len() && before[c].asset_id@ == id;
            if c == b {
                assert(after[b].asset_id@ == id0);
            } else {
                assert(after[c] == before[c]);
            }
        }
    }
}

proof fn lemma_sizes_next_report(assets: Seq<AssetBucket>, n: nat, answers: Seq<Vec<AssetAmounts>>, k: nat)
    requires
        sizes_at(assets, n, answers, k, answers[k as int]@.len()),
    ensures
        sizes_at(assets, n, answers, k + 1, 0),
{
    assert forall|id: Seq<u8>| #[trigger] count_at(answers, id, k + 1, 0) == count_at(
        answers,
        id,
        k,
        answers[k as int]@.len(),
    ) by {}
}

/// Sorts the admitted outputs by asset. The first bucket is bitcoin, with
/// every output. `answers[k]` is the daemon's report for `unspent[k]`; each
/// asset that it gives a positive amount adds a copy of the output, holding
/// that amount, to the asset's bucket.
pub fn partition_assets(unspent: &Vec<Utxo>, answers: &Vec<Vec<AssetAmounts>>) -> (r: Result<
    Vec<AssetBucket>,
    SyncError,
>)
    ensures
        r is Err <==> exists|k: int, j: int|
            0 <= k < unspent@.len() && k < answers@.len() && 0 <= j < answers@[k]@.len() && amount_sum(
                (#[trigger] answers@[k]@[j]).amounts@,
            ) > u64::MAX,
        r is Ok ==> {
            let assets = r->Ok_0;
            &&& assets@.len() >= 1
            &&& assets@[0].asset_id@ == bitcoin_asset_id()
            &&& assets@[0].utxos@.len() >= unspent@.len()
            &&& forall|k: int| 0 <= k < unspent@.len() ==> (#[trigger] assets@[0].utxos@[k]).same_as(&unspent@[k])
            &&& ids_distinct(assets@)
            &&& all_sourced(assets@, unspent@, answers@)
            &&& bucket_sizes(assets@, unspent@, answers@)
            &&& buckets_ordered(assets@, unspent@.len(), unspent@)
            &&& forall|k: int, j: int|
                0 <= k < unspent@.len() && k < answers@.len() && 0 <= j < answers@[k]@.len() && holds_asset(
                    answers@,
                    k,
                    j,
                ) ==> in_bucket(
                    assets@,
                    (#[trigger] answers@[k]@[j]).asset_id@,
                    unspent@[k],
                    amount_sum(answers@[k]@[j].amounts@),
                )
        },
{
    let mut bitcoin: Vec<Utxo> = Vec::new();
    let mut k: usize = 0;
    while k < unspent.len()
        invariant
            0 <= k <= unspent@.len(),
            bitcoin@.len() == k,
            forall|j: int| 0 <= j < k ==> (#[trigger] bitcoin@[j]).same_as(&unspent@[j]),
        decreases unspent@.len() - k,
    {
        bitcoin.push(unspent[k].duplicate());
        k = k + 1;
    }
    let mut assets: Vec<AssetBucket> = Vec::new();
    assets.push(AssetBucket { asset_id: vec![0u8; 32], utxos: bitcoin });
    proof {
        assert(assets@[0].asset_id@ =~= bitcoin_asset_id());
    }
    let mut k: usize = 0;
    while k < unspent.len() && k < answers.len()
        invariant
            0 <= k <= unspent@.len(),
            k <= answers@.len(),
            assets@.len() >= 1,
            assets@[0].asset_id@ == bitcoin_asset_id(),
            assets@[0].utxos@.len() >= unspent@.len(),
            forall|i: int| 0 <= i < unspent@.len() ==> (#[trigger] assets@[0].utxos@[i]).same_as(&unspent@[i]),
            ids_distinct(assets@),
            all_sourced(assets@, unspent@, answers@),
            copies_upto(assets@, unspent@.len(), unspent@, k as int),
            buckets_ordered(assets@, unspent@.len(), unspent@),
            k == 0 ==> sizes_at(assets@, unspent@.len(), answers@, 0, 0),
            k > 0 ==> sizes_at(assets@, unspent@.len(), answers@, (k - 1) as nat, answers@[k - 1]@.len()),
            forall|k0: int, j: int|
                0 <= k0 < k && 0 <= j < answers@[k0]@.len() ==> amount_sum((#[trigger] answers@[k0]@[j]).amounts@)
                    <= u64::MAX,
            forall|k0: int, j: int|
                0 <= k0 < k && 0 <= j < answers@[k0]@.len() && holds_asset(answers@, k0, j) ==> in_bucket(
                    assets@,
                    (#[trigger] answers@[k0]@[j]).asset_id@,
                    unspent@[k0],
                    amount_sum(answers@[k0]@[j].amounts@),
                ),
        decreases unspent@.len() - k,
    {
        let report = &answers[k];
        proof {
            if k > 0 {
                lemma_sizes_next_report(assets@, unspent@.len(), answers@, (k - 1) as nat);
                assert(count_at(answers@, bitcoin_asset_id(), k as nat, 0) == count_at(answers@, bitcoin_asset_id(), (k - 1) as nat, answers@[k - 1]@.len()));
            }
        }
        let mut j: usize = 0;
        while j < report.len()
            invariant
                0 <= k < unspent@.len(),
                k < answers@.len(),
                report == answers@[k as int],
                0 <= j <= report@.len(),
                assets@.len() >= 1,
                assets@[0].asset_id@ == bitcoin_asset_id(),
                assets@[0].utxos@.len() >= unspent@.len(),
                forall|i: int| 0 <= i < unspent@.len() ==> (#[trigger] assets@[0].utxos@[i]).same_as(&unspent@[i]),
                ids_distinct(assets@),
                all_sourced(assets@, unspent@, answers@),
                copies_upto(assets@, unspent@.len(), unspent@, k as int),
                buckets_ordered(assets@, unspent@.len(), unspent@),
                sizes_at(assets@, unspent@.len(), answers@, k as nat, j as nat),
                forall|k0: int, j0: int|
                    ((0 <= k0 < k && 0 <= j0 < answers@[k0]@.len()) || (k0 == k && 0 <= j0 < j)) ==> amount_sum(
                        (#[trigger] answers@[k0]@[j0]).amounts@,
                    ) <= u64::MAX,
                forall|k0: int, j0: int|
                    ((0 <= k0 < k && 0 <= j0 < answers@[k0]@.len()) || (k0 == k && 0 <= j0 < j)) && holds_asset(
                        answers@,
                        k0,
                        j0,
                    ) ==> in_bucket(
                        assets@,
                        (#[trigger] answers@[k0]@[j0]).asset_id@,
                        unspent@[k0],
                        amount_sum(answers@[k0]@[j0].amounts@),
                    ),
            decreases report@.len() - j,
        {
            let entry = &report[j];
            let sum = match sum_amounts(&entry.amounts) {
                Some(sum) => sum,
                None => {
                    return Err(SyncError::AmountOverflow);
                },
            };
            if sum == 0 {
                proof {
                    lemma_sizes_skip(assets@, unspent@.len(), answers@, k as nat, j as nat);
                }
            }
            if sum > 0 {
                let mut u = unspent[k].duplicate();
                u.value = sum;
                let ghost before = assets@;
                let ghost nk = amount_sum(entry.amounts@);
                proof {
                    assert(with_value(u, unspent@[k as int], nk));
                }
                match find_bucket(&assets, &entry.asset_id) {
                    Some(b) => {
                        assets[b].utxos.push(u);
                        proof {
                            assert(assets@ == before.update(b as int, assets@[b as int]));
                            assert(assets@[b as int].utxos@.drop_last() =~= before[b as int].utxos@);
                            lemma_buckets_after_push(before, assets@, b as int);
                            assert(entry_sourced(unspent@, answers@, entry.asset_id@, assets@[b as int].utxos@.last()));
                            lemma_sourced_after_push(before, assets@, b as int, unspent@, answers@);
                            lemma_sizes_grow(before, assets@, unspent@.len(), answers@, k as nat, j as nat, b as int);
                            assert(copy_of(assets@[b as int].utxos@.last(), unspent@, k as int));
                            lemma_order_after_push(before, assets@, b as int, unspent@.len(), unspent@, k as int);
                            assert(with_value(assets@[b as int].utxos@.last(), unspent@[k as int], nk));
                            assert(in_bucket(
                                assets@,
                                entry.asset_id@,
                                unspent@[k as int],
                                nk,
                            ));
                        }
                    },
                    None => {
                        let mut utxos: Vec<Utxo> = Vec::new();
                        utxos.push(u);
                        assets.push(AssetBucket { asset_id: copy_bytes(&entry.asset_id), utxos });
                        proof {
                            let n = before.len() as int;
                            assert(assets@.drop_last() == before);
                            assert forall|a: int, b: int| 0 <= a < b < assets@.len() implies (
                            #[trigger] assets@[a]).asset_id@ != (#[trigger] assets@[b]).asset_id@ by {
                                assert(assets@[a] == before[a]);
                                if b < n {
                                    assert(assets@[b] == before[b]);
                                }
                            }
                            assert(with_value(assets@[n].utxos@[0], unspent@[k as int], nk));
                            assert(entry_sourced(unspent@, answers@, entry.asset_id@, assets@[n].utxos@[0]));
                            assert forall|b0: int, e: int|
                                1 <= b0 < assets@.len() && 0 <= e < assets@[b0].utxos@.len() implies entry_sourced(
                                    unspent@,
                                    answers@,
                                    assets@[b0].asset_id@,
                                    #[trigger] assets@[b0].utxos@[e],
                                ) by {
                                if b0 < n {
                                    assert(assets@[b0] == before[b0]);
                                }
                            }
                            assert(assets@[0] == before[0]);
                            assert forall|k0: int, j0: int|
                                ((0 <= k0 < k && 0 <= j0 < answers@[k0]@.len()) || (k0 == k && 0 <= j0 < j)) && holds_asset(
                                    answers@,
                                    k0,
                                    j0,
                                ) implies in_bucket(
                                    assets@,
                                    (#[trigger] answers@[k0]@[j0]).asset_id@,
                                    unspent@[k0],
                                    amount_sum(answers@[k0]@[j0].amounts@),
                                ) by {
                                let (b0, e0) = choose|b0: int, e0: int|
                                    0 <= b0 < before.len() && before[b0].asset_id@ == answers@[k0]@[j0].asset_id@ && 0 <= e0
                                        < before[b0].utxos@.len() && with_value(
                                        #[trigger] before[b0].utxos@[e0],
                                        unspent@[k0],
                                        amount_sum(answers@[k0]@[j0].amounts@),
                                    );
                                assert(assets@[b0] == before[b0]);
                            }
                            assert(in_bucket(assets@, entry.asset_id@, unspent@[k as int], nk));
                            lemma_sizes_grow(before, assets@, unspent@.len(), answers@, k as nat, j as nat, n);
                            assert(assets@[n].utxos@.last() == assets@[n].utxos@[0]);
                            assert(copy_of(assets@[n].utxos@.last(), unspent@, k as int));
                            lemma_order_after_push(before, assets@, n, unspent@.len(), unspent@, k as int);
                        }
                    },
                }
            }
            j = j + 1;
        }
        proof {
            lemma_copies_mono(assets@, unspent@.len(), unspent@, k as int);
        }
        k = k + 1;
    }
    Ok(assets)
}


/// Whether some asset bucket holds outpoint `op`.
pub open spec fn holds_any_asset(assets: Seq<AssetBucket>, op: OutPointModel) -> bool {
    exists|b: int, e: int|
        1 <= b < assets.len() && 0 <= e < assets[b].utxos@.len() && (#[trigger] assets[b].utxos@[e]).outpoint_spec()
            == op
}

/// `u` copies an output of the bitcoin bucket that holds no asset.
pub open spec fn bitcoin_only_entry(assets: Seq<AssetBucket>, u: Utxo) -> bool {
    exists|e: int|
        0 <= e < assets[0].utxos@.len() && u.same_as(&#[trigger] assets[0].utxos@[e]) && !holds_any_asset(
            assets,
            assets[0].utxos@[e].outpoint_spec(),
        )
}

fn held_by_asset(assets: &Vec<AssetBucket>, u: &Utxo) -> (r: bool)
    ensures
        r == holds_any_asset(assets@, u.outpoint_spec()),
{
    let op = u.outpoint();
    let mut b: usize = 1;
    while b < assets.len()
        invariant
            1 <= b,
            b <= assets@.len() || assets@.len() == 0,
            op@ == u.outpoint_spec(),
            forall|b0: int, e: int|
                1 <= b0 < b && b0 < assets@.len() && 0 <= e < assets@[b0].utxos@.len() ==> (#[trigger] assets@[b0].utxos@[e]).outpoint_spec()
                    != op@,
        decreases assets@.len() - b,
    {
        let bucket = &assets[b];
        let mut e: usize = 0;
        while e < bucket.utxos.len()
            invariant
                1 <= b < assets@.len(),
                bucket == assets@[b as int],
                0 <= e <= bucket.utxos@.len(),
                op@ == u.outpoint_spec(),
                forall|b0: int, e0: int|
                    ((1 <= b0 < b && 0 <= e0 < assets@[b0].utxos@.len()) || (b0 == b && 0 <= e0 < e)) ==> (
                    #[trigger] assets@[b0].utxos@[e0]).outpoint_spec() != op@,
            decreases bucket.utxos@.len() - e,
        {
            let other = bucket.utxos[e].outpoint();
            if other.same(&op) {
                return true;
            }
            e = e + 1;
        }
        b = b + 1;
    }
    false
}

/// The outputs that hold no asset: those of the bitcoin bucket that no
/// asset bucket holds, in order. A bitcoin payment spends only these.
pub fn bitcoin_only(assets: &Vec<AssetBucket>) -> (r: Vec<Utxo>)
    requires
        assets@.len() >= 1,
    ensures
        forall|i: int| 0 <= i < r@.len() ==> bitcoin_only_entry(assets@, #[trigger] r@[i]),
        forall|e: int|
            0 <= e < assets@[0].utxos@.len() && !holds_any_asset(
                assets@,
                (#[trigger] assets@[0].utxos@[e]).outpoint_spec(),
            ) ==> exists|i: int| 0 <= i < r@.len() && r@[i].same_as(&assets@[0].utxos@[e]),
{
    let bucket = &assets[0];
    let mut r: Vec<Utxo> = Vec::new();
    let mut e: usize = 0;
    while e < bucket.utxos.len()
        invariant
            assets@.len() >= 1,
            bucket == assets@[0],
            0 <= e <= bucket.utxos@.len(),
            forall|i: int| 0 <= i < r@.len() ==> bitcoin_only_entry(assets@, #[trigger] r@[i]),
            forall|e0: int|
                0 <= e0 < e && !holds_any_asset(assets@, (#[trigger] assets@[0].utxos@[e0]).outpoint_spec())
                    ==> exists|i: int| 0 <= i < r@.len() && r@[i].same_as(&assets@[0].utxos@[e0]),
        decreases bucket.utxos@.len() - e,
    {
        if !held_by_asset(assets, &bucket.utxos[e]) {
            let ghost prev = r@;
            let u = bucket.utxos[e].duplicate();
            r.push(u);
            proof {
                assert(r@[prev.len() as int].same_as(&assets@[0].utxos@[e as int]));
                assert(bitcoin_only_entry(assets@, r@[prev.len() as int]));
                assert forall|i: int| 0 <= i < r@.len() implies bitcoin_only_entry(assets@, #[trigger] r@[i]) by {
                    if i < prev.len() {
                        assert(r@[i] == prev[i]);
                    }
                }
                assert forall|e0: int|
                    0 <= e0 < e + 1 && !holds_any_asset(assets@, (#[trigger] assets@[0].utxos@[e0]).outpoint_spec())
                        implies exists|i: int| 0 <= i < r@.len() && r@[i].same_as(&assets@[0].utxos@[e0]) by {
                    if e0 < e {
                        let i = choose|i: int| 0 <= i < prev.len() && prev[i].same_as(&assets@[0].utxos@[e0]);
                        assert(r@[i] == prev[i]);
                    } else {
                        assert(r@[prev.len() as int].same_as(&assets@[0].utxos@[e0]));
                    }
                }
            }
        }
        e = e + 1;
    }
    r
}

} // verus!
