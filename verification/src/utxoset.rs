//! The UTXO set: the derived index of unspent outputs, rebuildable by a
//! full chain scan and kept current by incremental updates per block.

use vstd::prelude::*;

use crate::block::{Block, BlockV};
use crate::blockchain::Blockchain;
use crate::codec::{
    enc_i32, enc_list, enc_list_items, le64, lemma_concat_assoc, lemma_enc_list_items_push,
    lemma_parse_enc_i32, lemma_parse_enc_list, lemma_skip_of_concat, parse_i32, parse_list,
    parse_list_items, read_i32, read_u64, str_eq, write_i32, write_u64,
};
use crate::address::addr_decode;
use crate::errors::ChainError;
use crate::transaction::TXInput;
use crate::store::Store;
use crate::codec::clone_bytes;
use crate::transaction::{
    enc_txout, encode_txout, is_coinbase_v, lemma_parse_enc_txout, parse_txout, read_txout,
    wf_txout, TXOutput, TXOutputs, Transaction, TxOutV, TxV, SUBSIDY,
};

verus! {

/// The mathematical UTXO index: transaction id to the indexed outputs of
/// that transaction still unspent.
pub type UtxoMapV = Map<Seq<char>, Seq<(i32, TxOutV)>>;

/// Which output indices of each transaction have been seen spent.
pub type SpentV = Map<Seq<char>, Seq<i32>>;

// ---------------------------------------------------------------------------
// Entry encoding: a count-prefixed list of (index, output) pairs
// ---------------------------------------------------------------------------

pub open spec fn enc_utxo_pair(p: (i32, TxOutV)) -> Seq<u8> {
    enc_i32(p.0) + enc_txout(p.1)
}

pub open spec fn utxo_pair_encoder() -> spec_fn((i32, TxOutV)) -> Seq<u8> {
    |p: (i32, TxOutV)| enc_utxo_pair(p)
}

#[verifier::opaque]
pub open spec fn parse_utxo_pair(data: Seq<u8>) -> Option<((i32, TxOutV), int)> {
    match parse_i32(data) {
        Some((idx, u1)) => match parse_txout(data.skip(u1)) {
            Some((o, u2)) => Some(((idx, o), u1 + u2)),
            None => None,
        },
        None => None,
    }
}

pub open spec fn utxo_pair_parser() -> spec_fn(Seq<u8>) -> Option<((i32, TxOutV), int)> {
    |d: Seq<u8>| parse_utxo_pair(d)
}

/// The stored form of one UTXO entry.
pub open spec fn enc_utxo_entry(l: Seq<(i32, TxOutV)>) -> Seq<u8> {
    enc_list(l, utxo_pair_encoder())
}

pub open spec fn wf_utxo_entry(l: Seq<(i32, TxOutV)>) -> bool {
    &&& l.len() < 0x1_0000_0000_0000_0000
    &&& forall|i: int| 0 <= i < l.len() ==> wf_txout((#[trigger] l[i]).1)
}

pub proof fn lemma_parse_enc_utxo_pair(p: (i32, TxOutV), rest: Seq<u8>)
    requires
        wf_txout(p.1),
    ensures
        parse_utxo_pair(enc_utxo_pair(p) + rest) == Some((p, enc_utxo_pair(p).len() as int)),
{
    reveal(parse_utxo_pair);
    let e1 = enc_i32(p.0);
    let e2 = enc_txout(p.1);
    let data = enc_utxo_pair(p) + rest;
    lemma_concat_assoc(e1, e2, rest);
    assert(data == e1 + (e2 + rest));
    lemma_parse_enc_i32(p.0, e2 + rest);
    lemma_skip_of_concat(e1, e2 + rest);
    lemma_parse_enc_txout(p.1, rest);
    assert(((p.0, p.1), enc_utxo_pair(p).len() as int) == (p, enc_utxo_pair(p).len() as int));
}

pub proof fn lemma_parse_enc_utxo_entry(l: Seq<(i32, TxOutV)>, rest: Seq<u8>)
    requires
        wf_utxo_entry(l),
    ensures
        parse_list(enc_utxo_entry(l) + rest, utxo_pair_parser()) == Some(
            (l, enc_utxo_entry(l).len() as int),
        ),
{
    assert forall|i: int, r: Seq<u8>| 0 <= i < l.len() implies #[trigger] utxo_pair_parser()(
        utxo_pair_encoder()(l[i]) + r,
    ) == Some((l[i], utxo_pair_encoder()(l[i]).len() as int)) by {
        lemma_parse_enc_utxo_pair(l[i], r);
    }
    lemma_parse_enc_list(l, rest, utxo_pair_encoder(), utxo_pair_parser());
}

impl TXOutputs {
    /// The stored encoding of this entry.
    pub fn entry_encoding(&self) -> (r: Vec<u8>)
        ensures
            r@ == enc_utxo_entry(self@),
            wf_utxo_entry(self@),
    {
        let ghost lv = self@;
        let mut out: Vec<u8> = Vec::new();
        write_u64(&mut out, self.outputs.len() as u64);
        let mut i: usize = 0;
        while i < self.outputs.len()
            invariant
                i <= lv.len(),
                lv == self@,
                lv.len() == self.outputs@.len(),
                out@ == le64(lv.len() as u64) + enc_list_items(
                    lv.take(i as int),
                    utxo_pair_encoder(),
                ),
                forall|j: int| 0 <= j < i ==> wf_txout((#[trigger] lv[j]).1),
            decreases self.outputs@.len() - i,
        {
            write_i32(&mut out, self.outputs[i].0);
            encode_txout(&mut out, &self.outputs[i].1);
            proof {
                assert(lv[i as int] == (self.outputs@[i as int].0, self.outputs@[i as int].1@));
                lemma_enc_list_items_push(lv.take(i as int), lv[i as int], utxo_pair_encoder());
                assert(lv.take(i + 1) =~= lv.take(i as int).push(lv[i as int]));
                assert(out@ =~= le64(lv.len() as u64) + enc_list_items(
                    lv.take(i + 1),
                    utxo_pair_encoder(),
                ));
            }
            i = i + 1;
        }
        proof {
            assert(lv.take(lv.len() as int) =~= lv);
            assert(out@ =~= enc_utxo_entry(lv));
        }
        out
    }

    /// Decode a stored entry; trailing bytes are refused.
    pub fn entry_decoding(data: &Vec<u8>) -> (r: Option<TXOutputs>)
        ensures
            match parse_list(data@, utxo_pair_parser()) {
                Some(vp) => if vp.1 == data@.len() {
                    r matches Some(x) && x@ == vp.0
                } else {
                    r is None
                },
                None => r is None,
            },
    {
        proof {
            reveal(crate::codec::parse_list);
            reveal(crate::codec::parse_u64);
            assert(data@.skip(0) =~= data@);
        }
        let (n, p0) = match read_u64(data, 0) {
            Some(x) => x,
            None => {
                return None;
            },
        };
        let (items, end) = match read_utxo_pairs(data, p0, n) {
            Some(x) => x,
            None => {
                return None;
            },
        };
        if end == data.len() {
            Some(TXOutputs { outputs: items })
        } else {
            None
        }
    }
}

fn read_utxo_pairs(data: &Vec<u8>, pos: usize, n: u64) -> (r: Option<(Vec<(i32, TXOutput)>, usize)>)
    requires
        pos <= data@.len(),
    ensures
        match parse_list_items(data@.skip(pos as int), n as nat, utxo_pair_parser()) {
            Some(vp) => r matches Some(x) && x.0.deep_view() == vp.0 && x.1 as int == pos + vp.1
                && pos <= x.1 && x.1 <= data@.len(),
            None => r is None,
        },
    decreases n,
{
    proof {
        reveal_with_fuel(crate::codec::parse_list_items, 2);
        reveal(parse_utxo_pair);
    }
    if n == 0 {
        let empty: Vec<(i32, TXOutput)> = Vec::new();
        assert(empty.deep_view() =~= Seq::<(i32, TxOutV)>::empty());
        Some((empty, pos))
    } else {
        let ghost tail = data@.skip(pos as int);
        let (idx, p1) = match read_i32(data, pos) {
            Some(x) => x,
            None => {
                return None;
            },
        };
        assert(data@.skip(p1 as int) =~= tail.skip(p1 - pos));
        let (o, p2) = match read_txout(data, p1) {
            Some(x) => x,
            None => {
                return None;
            },
        };
        assert(data@.skip(p2 as int) =~= tail.skip(p2 - pos));
        let (mut l, p3) = match read_utxo_pairs(data, p2, n - 1) {
            Some(x) => x,
            None => {
                return None;
            },
        };
        let ghost lv = l.deep_view();
        l.insert(0, (idx, o));
        assert(l.deep_view() =~= seq![(idx, o@)] + lv);
        Some((l, p3))
    }
}

// ---------------------------------------------------------------------------
// The in-memory index and the full-chain scan
// ---------------------------------------------------------------------------

impl DeepView for TXOutputs {
    type V = Seq<(i32, TxOutV)>;

    open spec fn deep_view(&self) -> Seq<(i32, TxOutV)> {
        self.view()
    }
}

/// One UTXO entry: a transaction id and its unspent indexed outputs.
pub type UtxoEntryV = (Seq<char>, Seq<(i32, TxOutV)>);

/// One spent record: a transaction id and the output indices seen spent.
pub type SpentEntryV = (Seq<char>, Seq<i32>);

/// The UTXO index as an association list keyed by transaction id, in the
/// order the scan creates entries.
pub struct TxoIndex {
    pub entries: Vec<(String, TXOutputs)>,
}

impl View for TxoIndex {
    type V = Seq<UtxoEntryV>;

    open spec fn view(&self) -> Seq<UtxoEntryV> {
        self.entries.deep_view()
    }
}

/// The position of the first entry with the given key.
pub open spec fn assoc_pos_utxo(l: Seq<UtxoEntryV>, k: Seq<char>) -> Option<int>
    decreases l.len(),
{
    if l.len() == 0 {
        None
    } else if l[0].0 == k {
        Some(0)
    } else {
        match assoc_pos_utxo(l.skip(1), k) {
            Some(p) => Some(p + 1),
            None => None,
        }
    }
}

pub open spec fn assoc_pos_spent(l: Seq<SpentEntryV>, k: Seq<char>) -> Option<int>
    decreases l.len(),
{
    if l.len() == 0 {
        None
    } else if l[0].0 == k {
        Some(0)
    } else {
        match assoc_pos_spent(l.skip(1), k) {
            Some(p) => Some(p + 1),
            None => None,
        }
    }
}

/// Whether output `j` of transaction `id` has been seen spent.
pub open spec fn spent_has(s: Seq<SpentEntryV>, id: Seq<char>, j: i32) -> bool {
    match assoc_pos_spent(s, id) {
        Some(p) => s[p].1.contains(j),
        None => false,
    }
}

/// The indexed outputs of `t` among its first `j` that are not in the spent
/// record.
pub open spec fn tx_unspent_upto(t: TxV, s: Seq<SpentEntryV>, j: int) -> Seq<(i32, TxOutV)>
    decreases j,
{
    if j <= 0 {
        Seq::<(i32, TxOutV)>::empty()
    } else {
        let prior = tx_unspent_upto(t, s, j - 1);
        if !spent_has(s, t.id, (j - 1) as i32) {
            prior.push(((j - 1) as i32, t.vout[j - 1]))
        } else {
            prior
        }
    }
}

/// Add `t`'s unspent outputs under its id, appending to an existing entry.
pub open spec fn utxo_add(u: Seq<UtxoEntryV>, id: Seq<char>, ent: Seq<(i32, TxOutV)>) -> Seq<
    UtxoEntryV,
> {
    if ent.len() == 0 {
        u
    } else {
        match assoc_pos_utxo(u, id) {
            Some(p) => u.update(p, (id, u[p].1 + ent)),
            None => u.push((id, ent)),
        }
    }
}

/// Record the outputs `t` spends, input by input.
pub open spec fn spent_record_upto(s: Seq<SpentEntryV>, t: TxV, i: int) -> Seq<SpentEntryV>
    decreases i,
{
    if i <= 0 {
        s
    } else {
        let prior = spent_record_upto(s, t, i - 1);
        let vin = t.vin[i - 1];
        match assoc_pos_spent(prior, vin.txid) {
            Some(p) => prior.update(p, (vin.txid, prior[p].1.push(vin.vout))),
            None => prior.push((vin.txid, seq![vin.vout])),
        }
    }
}

/// The scan state after visiting one transaction: outputs not yet seen
/// spent are recorded as unspent, then the transaction's own inputs are
/// recorded as spending.
#[verifier::opaque]
pub open spec fn scan_tx(u: Seq<UtxoEntryV>, s: Seq<SpentEntryV>, t: TxV) -> (
    Seq<UtxoEntryV>,
    Seq<SpentEntryV>,
) {
    let u2 = utxo_add(u, t.id, tx_unspent_upto(t, s, t.vout.len() as int));
    let s2 = if is_coinbase_v(t) {
        s
    } else {
        spent_record_upto(s, t, t.vin.len() as int)
    };
    (u2, s2)
}

#[verifier::opaque]
pub open spec fn scan_txs_from(u: Seq<UtxoEntryV>, s: Seq<SpentEntryV>, txs: Seq<TxV>, i: int) -> (
    Seq<UtxoEntryV>,
    Seq<SpentEntryV>,
)
    decreases txs.len() - i,
{
    if i < 0 || i >= txs.len() {
        (u, s)
    } else {
        let us = scan_tx(u, s, txs[i]);
        scan_txs_from(us.0, us.1, txs, i + 1)
    }
}

/// The scan state after visiting the blocks from position `k - 1` down to
/// genesis, tip first.
#[verifier::opaque]
pub open spec fn scan_chain_from(
    u: Seq<UtxoEntryV>,
    s: Seq<SpentEntryV>,
    chain: Seq<BlockV>,
    k: int,
) -> (Seq<UtxoEntryV>, Seq<SpentEntryV>)
    decreases k,
{
    if k <= 0 {
        (u, s)
    } else {
        let us = scan_txs_from(u, s, chain[k - 1].transactions, 0);
        scan_chain_from(us.0, us.1, chain, k - 1)
    }
}

/// The full UTXO index of a chain, computed by the tip-to-genesis scan.
pub open spec fn utxo_scan(chain: Seq<BlockV>) -> Seq<UtxoEntryV> {
    scan_chain_from(Seq::<UtxoEntryV>::empty(), Seq::<SpentEntryV>::empty(), chain, chain.len() as int).0
}

// ---------------------------------------------------------------------------
// Executable scan
// ---------------------------------------------------------------------------

fn spent_pos_exec(s: &Vec<(String, Vec<i32>)>, id: &String) -> (r: Option<usize>)
    ensures
        match assoc_pos_spent(s.deep_view(), id@) {
            Some(p) => r matches Some(x) && x as int == p && x < s@.len(),
            None => r is None,
        },
{
    let ghost sv = s.deep_view();
    let mut i: usize = 0;
    while i < s.len()
        invariant
            i <= sv.len(),
            sv == s.deep_view(),
            sv.len() == s@.len(),
            forall|j: int| 0 <= j < i ==> (#[trigger] sv[j]).0 != id@,
        decreases sv.len() - i,
    {
        if str_eq(s[i].0.as_str(), id.as_str()) {
            proof {
                lemma_assoc_pos_spent_found(sv, id@, i as int);
            }
            return Some(i);
        }
        i = i + 1;
    }
    proof {
        if assoc_pos_spent(sv, id@) matches Some(p) {
            lemma_assoc_pos_spent_key(sv, id@);
            assert(false);
        }
    }
    None
}

/// The entry an existing position names carries the searched key.
proof fn lemma_assoc_pos_spent_key(l: Seq<SpentEntryV>, k: Seq<char>)
    ensures
        assoc_pos_spent(l, k) matches Some(p) ==> 0 <= p < l.len() && l[p].0 == k,
    decreases l.len(),
{
    if l.len() > 0 && l[0].0 != k {
        lemma_assoc_pos_spent_key(l.skip(1), k);
        assert forall|p: int| assoc_pos_spent(l.skip(1), k) == Some(p) implies l.skip(1)[p]
            == l[p + 1] by {}
    }
}

proof fn lemma_assoc_pos_spent_found(l: Seq<SpentEntryV>, k: Seq<char>, i: int)
    requires
        0 <= i < l.len(),
        forall|j: int| 0 <= j < i ==> (#[trigger] l[j]).0 != k,
        l[i].0 == k,
    ensures
        assoc_pos_spent(l, k) == Some(i),
    decreases i,
{
    if i > 0 {
        assert(l[0].0 != k);
        assert forall|j: int| 0 <= j < i - 1 implies (#[trigger] l.skip(1)[j]).0 != k by {
            assert(l.skip(1)[j] == l[j + 1]);
        }
        assert(l.skip(1)[i - 1] == l[i]);
        lemma_assoc_pos_spent_found(l.skip(1), k, i - 1);
    }
}

proof fn lemma_assoc_pos_utxo_key(l: Seq<UtxoEntryV>, k: Seq<char>)
    ensures
        assoc_pos_utxo(l, k) matches Some(p) ==> 0 <= p < l.len() && l[p].0 == k,
    decreases l.len(),
{
    if l.len() > 0 && l[0].0 != k {
        lemma_assoc_pos_utxo_key(l.skip(1), k);
        assert forall|p: int| assoc_pos_utxo(l.skip(1), k) == Some(p) implies l.skip(1)[p]
            == l[p + 1] by {}
    }
}

proof fn lemma_assoc_pos_utxo_found(l: Seq<UtxoEntryV>, k: Seq<char>, i: int)
    requires
        0 <= i < l.len(),
        forall|j: int| 0 <= j < i ==> (#[trigger] l[j]).0 != k,
        l[i].0 == k,
    ensures
        assoc_pos_utxo(l, k) == Some(i),
    decreases i,
{
    if i > 0 {
        assert(l[0].0 != k);
        assert forall|j: int| 0 <= j < i - 1 implies (#[trigger] l.skip(1)[j]).0 != k by {
            assert(l.skip(1)[j] == l[j + 1]);
        }
        assert(l.skip(1)[i - 1] == l[i]);
        lemma_assoc_pos_utxo_found(l.skip(1), k, i - 1);
    }
}

fn utxo_pos_exec(u: &Vec<(String, TXOutputs)>, id: &String) -> (r: Option<usize>)
    ensures
        match assoc_pos_utxo(u.deep_view(), id@) {
            Some(p) => r matches Some(x) && x as int == p && x < u@.len(),
            None => r is None,
        },
{
    let ghost uv = u.deep_view();
    let mut i: usize = 0;
    while i < u.len()
        invariant
            i <= uv.len(),
            uv == u.deep_view(),
            uv.len() == u@.len(),
            forall|j: int| 0 <= j < i ==> (#[trigger] uv[j]).0 != id@,
        decreases uv.len() - i,
    {
        if str_eq(u[i].0.as_str(), id.as_str()) {
            proof {
                lemma_assoc_pos_utxo_found(uv, id@, i as int);
            }
            return Some(i);
        }
        i = i + 1;
    }
    proof {
        if assoc_pos_utxo(uv, id@) matches Some(p) {
            lemma_assoc_pos_utxo_key(uv, id@);
            assert(false);
        }
    }
    None
}

fn spent_has_exec(s: &Vec<(String, Vec<i32>)>, id: &String, j: i32) -> (r: bool)
    ensures
        r == spent_has(s.deep_view(), id@, j),
{
    match spent_pos_exec(s, id) {
        Some(p) => {
            let ghost sv = s.deep_view();
            let lst = &s[p].1;
            let mut i: usize = 0;
            while i < lst.len()
                invariant
                    p < s@.len(),
                    sv == s.deep_view(),
                    assoc_pos_spent(sv, id@) == Some(p as int),
                    lst@ == sv[p as int].1,
                    i <= lst@.len(),
                    forall|q: int| 0 <= q < i ==> lst@[q] != j,
                decreases lst@.len() - i,
            {
                if lst[i] == j {
                    proof {
                        assert(sv[p as int].1[i as int] == j);
                        assert(sv[p as int].1.contains(j));
                    }
                    return true;
                }
                i = i + 1;
            }
            proof {
                assert(forall|q: int| 0 <= q < sv[p as int].1.len() ==> sv[p as int].1[q] != j);
                assert(!sv[p as int].1.contains(j));
            }
            false
        },
        None => false,
    }
}

/// Visit one transaction: collect its not-yet-spent outputs into the index,
/// then record what it spends.
#[verifier::rlimit(100)]
#[verifier::loop_isolation(false)]
fn process_tx_exec(u: &mut TxoIndex, s: &mut Vec<(String, Vec<i32>)>, t: &Transaction)
    ensures
        final(u)@ == scan_tx(old(u)@, old(s).deep_view(), t@).0,
        final(s).deep_view() == scan_tx(old(u)@, old(s).deep_view(), t@).1,
{
    proof {
        reveal(scan_tx);
    }
    let ghost u0 = u@;
    let ghost s0 = s.deep_view();
    let mut ent: Vec<(i32, TXOutput)> = Vec::new();
    let mut j: usize = 0;
    while j < t.vout.len()
        invariant
            j <= t@.vout.len(),
            ent.deep_view() == tx_unspent_upto(t@, s0, j as int),
        decreases t@.vout.len() - j,
    {
        let idx: i32 = #[verifier::truncate] (j as i32);
        let ghost before = ent.deep_view();
        if !spent_has_exec(s, &t.id, idx) {
            ent.push(
                (idx, TXOutput { value: t.vout[j].value, pub_key_hash: clone_bytes(&t.vout[j].pub_key_hash) }),
            );
            proof {
                assert(t@.vout[j as int] == t.vout@[j as int]@);
                assert(ent.deep_view() =~= before.push((idx, t@.vout[j as int])));
            }
        }
        proof {
            assert(tx_unspent_upto(t@, s0, j + 1) == if !spent_has(s0, t@.id, j as i32) {
                tx_unspent_upto(t@, s0, j as int).push((j as i32, t@.vout[j as int]))
            } else {
                tx_unspent_upto(t@, s0, j as int)
            });
        }
        j = j + 1;
    }
    proof {
        assert(ent.deep_view() == tx_unspent_upto(t@, s0, t@.vout.len() as int));
    }
    if ent.len() > 0 {
        match utxo_pos_exec(&u.entries, &t.id) {
            Some(p) => {
                proof {
                    lemma_assoc_pos_utxo_key(u0, t@.id);
                }
                let ghost entv = ent.deep_view();
                let mut e = u.entries.remove(p);
                proof {
                    assert(e@ == u0[p as int]);
                }
                let mut q: usize = 0;
                while q < ent.len()
                    invariant
                        q <= ent@.len(),
                        entv == ent.deep_view(),
                        e.0@ == u0[p as int].0,
                        e.1@ == u0[p as int].1 + entv.take(q as int),
                    decreases ent@.len() - q,
                {
                    let ghost before = e.1@;
                    e.1.outputs.push(
                        (
                            ent[q].0,
                            TXOutput {
                                value: ent[q].1.value,
                                pub_key_hash: clone_bytes(&ent[q].1.pub_key_hash),
                            },
                        ),
                    );
                    proof {
                        assert(entv[q as int] == (ent@[q as int].0, ent@[q as int].1@));
                        assert(e.1@ =~= before.push(entv[q as int]));
                        assert(e.1@ =~= u0[p as int].1 + entv.take(q + 1));
                    }
                    q = q + 1;
                }
                proof {
                    assert(entv.take(entv.len() as int) =~= entv);
                }
                u.entries.insert(p, e);
                proof {
                    assert(u@ =~= u0.update(p as int, (t@.id, u0[p as int].1 + entv)));
                    assert(u@ =~= utxo_add(u0, t@.id, entv));
                }
            },
            None => {
                u.entries.push((t.id.clone(), TXOutputs { outputs: ent }));
                proof {
                    assert(u@ =~= utxo_add(u0, t@.id, ent.deep_view()));
                }
            },
        }
    }
    if !t.is_coinbase() {
        let mut i: usize = 0;
        while i < t.vin.len()
            invariant
                i <= t@.vin.len(),
                s.deep_view() == spent_record_upto(s0, t@, i as int),
            decreases t@.vin.len() - i,
        {
            let ghost sv = s.deep_view();
            proof {
                assert(t@.vin[i as int] == t.vin@[i as int]@);
            }
            match spent_pos_exec(s, &t.vin[i].txid) {
                Some(p) => {
                    let ghost olds = s@;
                    proof {
                        lemma_assoc_pos_spent_key(sv, t@.vin[i as int].txid);
                        assert(sv[p as int] == (olds[p as int].0@, olds[p as int].1@));
                    }
                    let mut e = s.remove(p);
                    proof {
                        assert(e.0@ == sv[p as int].0 && e.1@ == sv[p as int].1);
                    }
                    e.1.push(t.vin[i].vout);
                    let ghost ev = (e.0@, e.1@);
                    proof {
                        assert(ev.1 =~= sv[p as int].1.push(t@.vin[i as int].vout));
                    }
                    s.insert(p, e);
                    proof {
                        assert forall|w: int| 0 <= w < s.deep_view().len() implies s.deep_view()[w]
                            == sv.update(
                            p as int,
                            (t@.vin[i as int].txid, sv[p as int].1.push(t@.vin[i as int].vout)),
                        )[w] by {
                            assert(s.deep_view()[w] == (s@[w].0@, s@[w].1@));
                            if w != p {
                                assert(s@[w] == olds[w]);
                                assert(sv[w] == (olds[w].0@, olds[w].1@));
                            }
                        }
                        assert(s.deep_view() =~= sv.update(
                            p as int,
                            (t@.vin[i as int].txid, sv[p as int].1.push(t@.vin[i as int].vout)),
                        ));
                    }
                },
                None => {
                    let ghost olds = s@;
                    let mut fresh: Vec<i32> = Vec::new();
                    fresh.push(t.vin[i].vout);
                    proof {
                        assert(fresh@ =~= seq![t@.vin[i as int].vout]);
                    }
                    s.push((t.vin[i].txid.clone(), fresh));
                    proof {
                        let target = sv.push((t@.vin[i as int].txid, seq![t@.vin[i as int].vout]));
                        assert forall|w: int| 0 <= w < s.deep_view().len() implies s.deep_view()[w]
                            == target[w] by {
                            assert(s.deep_view()[w] == (s@[w].0@, s@[w].1@));
                            if w < olds.len() {
                                assert(s@[w] == olds[w]);
                                assert(sv[w] == (olds[w].0@, olds[w].1@));
                            }
                        }
                        assert(s.deep_view() =~= target);
                    }
                },
            }
            i = i + 1;
        }
        proof {
            assert(s.deep_view() == spent_record_upto(s0, t@, t@.vin.len() as int));
        }
    }
}

/// Visit every transaction of one block, in order.
#[verifier::rlimit(100)]
#[verifier::loop_isolation(false)]
fn process_block_exec(u: &mut TxoIndex, s: &mut Vec<(String, Vec<i32>)>, txs: &Vec<Transaction>)
    ensures
        (final(u)@, final(s).deep_view()) == scan_txs_from(
            old(u)@,
            old(s).deep_view(),
            txs.deep_view(),
            0,
        ),
{
    let ghost txsv = txs.deep_view();
    let ghost ustart = u@;
    let ghost sstart = s.deep_view();
    let mut ti: usize = 0;
    while ti < txs.len()
        invariant
            ti <= txsv.len(),
            scan_txs_from(u@, s.deep_view(), txsv, ti as int) == scan_txs_from(
                ustart,
                sstart,
                txsv,
                0,
            ),
        decreases txsv.len() - ti,
    {
        let ghost ubefore = u@;
        let ghost sbefore = s.deep_view();
        process_tx_exec(u, s, &txs[ti]);
        proof {
            assert(txsv[ti as int] == txs@[ti as int]@);
            assert((u@, s.deep_view()) == scan_tx(ubefore, sbefore, txsv[ti as int]));
            assert(scan_txs_from(ubefore, sbefore, txsv, ti as int) == scan_txs_from(
                u@,
                s.deep_view(),
                txsv,
                ti + 1,
            )) by {
                reveal_with_fuel(scan_txs_from, 2);
            }
        }
        ti = ti + 1;
    }
    proof {
        assert(scan_txs_from(u@, s.deep_view(), txsv, txsv.len() as int) == (
        u@,
        s.deep_view(),
        )) by {
            reveal_with_fuel(scan_txs_from, 1);
        }
    }
}

impl Blockchain {
    /// The full-chain scan: every transaction's outputs not consumed by any
    /// later input, walking blocks tip to genesis.
    #[allow(non_snake_case)]
    #[verifier::rlimit(100)]
    pub fn find_UTXO(&self) -> (r: Result<TxoIndex, ChainError>)
        requires
            self.wf(),
        ensures
            r matches Ok(u) ==> u@ == utxo_scan(self.chain()),
            r is Err ==> r == Err::<TxoIndex, ChainError>(ChainError::StoreFailure),
    {
        let ghost ch = self.chain();
        let ghost goal = scan_chain_from(
            Seq::<UtxoEntryV>::empty(),
            Seq::<SpentEntryV>::empty(),
            ch,
            ch.len() as int,
        );
        let mut u = TxoIndex { entries: Vec::new() };
        let mut s: Vec<(String, Vec<i32>)> = Vec::new();
        let mut it = self.iter();
        let total = self.get_height();
        proof {
            crate::blockchain::lemma_chain_laws(self);
            assert(u@ =~= Seq::<UtxoEntryV>::empty());
            assert(s.deep_view() =~= Seq::<SpentEntryV>::empty());
        }
        let mut count: i64 = 0;
        loop
            invariant
                ch == self.chain(),
                it.iter_wf(),
                it.chain() == ch,
                ch.len() == total + 1,
                goal == scan_chain_from(
                    Seq::<UtxoEntryV>::empty(),
                    Seq::<SpentEntryV>::empty(),
                    ch,
                    ch.len() as int,
                ),
                0 <= it.remaining_spec() <= ch.len(),
                count == ch.len() - it.remaining_spec(),
                scan_chain_from(u@, s.deep_view(), ch, it.remaining_spec()) == goal,
            decreases it.remaining_spec(),
        {
            let ghost rem = it.remaining_spec();
            match it.next_block() {
                Some(block) => {
                    let ghost bv = ch[rem - 1];
                    let ghost ustart = u@;
                    let ghost sstart = s.deep_view();
                    let txs = block.get_transaction();
                    proof {
                        assert(block@ == bv);
                        assert(txs.deep_view() == bv.transactions);
                    }
                    process_block_exec(&mut u, &mut s, txs);
                    proof {
                        assert((u@, s.deep_view()) == scan_txs_from(
                            ustart,
                            sstart,
                            ch[rem - 1].transactions,
                            0,
                        ));
                        assert(scan_chain_from(ustart, sstart, ch, rem) == goal);
                        assert(scan_chain_from(u@, s.deep_view(), ch, rem - 1) == goal) by {
                            reveal_with_fuel(scan_chain_from, 2);
                        }
                    }
                    count = count + 1;
                },
                None => {
                    if count == total as i64 + 1 {
                        proof {
                            assert(rem == 0);
                            assert(scan_chain_from(u@, s.deep_view(), ch, rem) == goal);
                            assert(scan_chain_from(u@, s.deep_view(), ch, 0) == (
                            u@,
                            s.deep_view(),
                            )) by {
                                reveal_with_fuel(scan_chain_from, 1);
                            }
                            assert(u@ == goal.0);
                            assert(utxo_scan(ch) == goal.0);
                        }
                        return Ok(u);
                    }
                    return Err(ChainError::StoreFailure);
                },
            }
        }
    }
}

// ---------------------------------------------------------------------------
// The persistent UTXO set
// ---------------------------------------------------------------------------

/// The pairs of one entry locked with the given key hash, first `j` pairs.
pub open spec fn entry_locked_upto(ent: Seq<(i32, TxOutV)>, pkh: Seq<u8>, j: int) -> Seq<
    (i32, TxOutV),
>
    decreases j,
{
    if j <= 0 {
        Seq::<(i32, TxOutV)>::empty()
    } else {
        let prior = entry_locked_upto(ent, pkh, j - 1);
        if ent[j - 1].1.pub_key_hash == pkh {
            prior.push(ent[j - 1])
        } else {
            prior
        }
    }
}

/// Every indexed output locked with the key hash, over the first `i`
/// entries of the index, in index order.
pub open spec fn locked_upto(cache: Seq<UtxoEntryV>, pkh: Seq<u8>, i: int) -> Seq<(i32, TxOutV)>
    decreases i,
{
    if i <= 0 {
        Seq::<(i32, TxOutV)>::empty()
    } else {
        locked_upto(cache, pkh, i - 1) + entry_locked_upto(
            cache[i - 1].1,
            pkh,
            cache[i - 1].1.len() as int,
        )
    }
}

/// The sum of the values of a list of indexed outputs.
pub open spec fn sum_vals(l: Seq<(i32, TxOutV)>) -> int
    decreases l.len(),
{
    if l.len() == 0 {
        0
    } else {
        sum_vals(l.drop_last()) + l.last().1.value
    }
}

/// Whether an integer fits a signed 64-bit accumulator.
pub open spec fn i64_ok(x: int) -> bool {
    i64::MIN <= x <= i64::MAX
}

/// Every prefix sum of the list fits the accumulator.
pub open spec fn sums_fit(l: Seq<(i32, TxOutV)>) -> bool {
    forall|i: int| 0 <= i <= l.len() ==> i64_ok(sum_vals(#[trigger] l.take(i)))
}

/// Every intermediate value of the greedy selection inside one entry fits.
pub open spec fn sel_entry_fits(
    ent: Seq<(i32, TxOutV)>,
    pkh: Seq<u8>,
    amount: int,
    acc0: int,
    j: int,
) -> bool
    decreases j,
{
    if j <= 0 {
        i64_ok(acc0)
    } else {
        sel_entry_fits(ent, pkh, amount, acc0, j - 1) && i64_ok(
            sel_entry_upto(ent, pkh, amount, acc0, j).0,
        )
    }
}

/// Every intermediate value of the greedy selection fits the accumulator.
pub open spec fn sel_fits(cache: Seq<UtxoEntryV>, pkh: Seq<u8>, amount: int, i: int) -> bool
    decreases i,
{
    if i <= 0 {
        true
    } else {
        sel_fits(cache, pkh, amount, i - 1) && sel_entry_fits(
            cache[i - 1].1,
            pkh,
            amount,
            sel_upto(cache, pkh, amount, i - 1).0,
            cache[i - 1].1.len() as int,
        )
    }
}

proof fn lemma_sel_entry_fits_mono(
    ent: Seq<(i32, TxOutV)>,
    pkh: Seq<u8>,
    amount: int,
    acc0: int,
    j1: int,
    j2: int,
)
    requires
        0 <= j1 <= j2,
        sel_entry_fits(ent, pkh, amount, acc0, j2),
    ensures
        sel_entry_fits(ent, pkh, amount, acc0, j1),
    decreases j2,
{
    if j1 < j2 {
        lemma_sel_entry_fits_mono(ent, pkh, amount, acc0, j1, j2 - 1);
    }
}

proof fn lemma_sel_fits_mono(cache: Seq<UtxoEntryV>, pkh: Seq<u8>, amount: int, i1: int, i2: int)
    requires
        0 <= i1 <= i2,
        sel_fits(cache, pkh, amount, i2),
    ensures
        sel_fits(cache, pkh, amount, i1),
    decreases i2,
{
    if i1 < i2 {
        lemma_sel_fits_mono(cache, pkh, amount, i1, i2 - 1);
    }
}

proof fn lemma_sel_entry_fits_mono_neg(
    ent: Seq<(i32, TxOutV)>,
    pkh: Seq<u8>,
    amount: int,
    acc0: int,
    j1: int,
    j2: int,
)
    requires
        0 <= j1 <= j2,
        !sel_entry_fits(ent, pkh, amount, acc0, j1),
    ensures
        !sel_entry_fits(ent, pkh, amount, acc0, j2),
{
    if sel_entry_fits(ent, pkh, amount, acc0, j2) {
        lemma_sel_entry_fits_mono(ent, pkh, amount, acc0, j1, j2);
    }
}

proof fn lemma_sel_fits_mono_neg(cache: Seq<UtxoEntryV>, pkh: Seq<u8>, amount: int, i1: int, i2: int)
    requires
        0 <= i1 <= i2,
        !sel_fits(cache, pkh, amount, i1),
    ensures
        !sel_fits(cache, pkh, amount, i2),
{
    if sel_fits(cache, pkh, amount, i2) {
        lemma_sel_fits_mono(cache, pkh, amount, i1, i2);
    }
}

/// The greedy selection inside one entry: take outputs locked with the key
/// while the accumulated value is still below the target.
pub open spec fn sel_entry_upto(
    ent: Seq<(i32, TxOutV)>,
    pkh: Seq<u8>,
    amount: int,
    acc0: int,
    j: int,
) -> (int, Seq<i32>)
    decreases j,
{
    if j <= 0 {
        (acc0, Seq::<i32>::empty())
    } else {
        let prior = sel_entry_upto(ent, pkh, amount, acc0, j - 1);
        if ent[j - 1].1.pub_key_hash == pkh && prior.0 < amount {
            (prior.0 + ent[j - 1].1.value, prior.1.push(ent[j - 1].0))
        } else {
            prior
        }
    }
}

/// The greedy selection over the first `i` entries of the index.
pub open spec fn sel_upto(cache: Seq<UtxoEntryV>, pkh: Seq<u8>, amount: int, i: int) -> (
    int,
    Seq<(Seq<char>, Seq<i32>)>,
)
    decreases i,
{
    if i <= 0 {
        (0, Seq::<(Seq<char>, Seq<i32>)>::empty())
    } else {
        let prior = sel_upto(cache, pkh, amount, i - 1);
        let here = sel_entry_upto(
            cache[i - 1].1,
            pkh,
            amount,
            prior.0,
            cache[i - 1].1.len() as int,
        );
        if here.1.len() > 0 {
            (here.0, prior.1.push((cache[i - 1].0, here.1)))
        } else {
            (here.0, prior.1)
        }
    }
}

/// The persistent index of unspent outputs over a chain; queries read the
/// in-memory copy, mutations write the backing store through.
pub struct UTXOSet {
    pub blockchain: Blockchain,
    pub store: Store,
    pub cache: TxoIndex,
}

impl UTXOSet {
    /// The index contents, keyed by transaction id, in entry order.
    pub open spec fn index(&self) -> Seq<UtxoEntryV> {
        self.cache@
    }

    /// The underlying chain is well formed.
    pub open spec fn wf(&self) -> bool {
        self.blockchain.wf()
    }

    /// A set over a chain and a (fresh or previously written) store; the
    /// in-memory index holds exactly the store's decoded entries.
    #[verifier::rlimit(100)]
    #[verifier::loop_isolation(false)]
    pub fn new(blockchain: Blockchain, store: Store) -> (r: Result<UTXOSet, ChainError>)
        requires
            blockchain.wf(),
        ensures
            r matches Ok(u) ==> {
                &&& u.wf()
                &&& u.blockchain == blockchain
                &&& forall|j: int|
                    0 <= j < u.index().len() ==> store.map().contains_key(
                        (#[trigger] u.index()[j]).0,
                    ) && parse_list(store.map()[u.index()[j].0], utxo_pair_parser()) == Some(
                        (u.index()[j].1, store.map()[u.index()[j].0].len() as int),
                    )
                &&& forall|k: Seq<char>|
                    store.map().contains_key(k) ==> exists|j: int|
                        0 <= j < u.index().len() && (#[trigger] u.index()[j]).0 == k
            },
            r matches Err(e) ==> e is StoreFailure || e is SerializationError,
    {
        let entries_raw = match store.scan() {
            Ok(e) => e,
            Err(_) => {
                return Err(ChainError::StoreFailure);
            },
        };
        let mut entries: Vec<(String, TXOutputs)> = Vec::new();
        let mut i: usize = 0;
        while i < entries_raw.len()
            invariant
                i <= entries_raw@.len(),
                entries.deep_view().len() == i,
                forall|j: int|
                    0 <= j < i ==> (#[trigger] entries.deep_view()[j]).0 == entries_raw@[j].0@,
                forall|j: int|
                    0 <= j < i ==> parse_list(
                        store.map()[(#[trigger] entries.deep_view()[j]).0],
                        utxo_pair_parser(),
                    ) == Some(
                        (
                            entries.deep_view()[j].1,
                            store.map()[entries.deep_view()[j].0].len() as int,
                        ),
                    ),
            decreases entries_raw@.len() - i,
        {
            let outs = match TXOutputs::entry_decoding(&entries_raw[i].1) {
                Some(o) => o,
                None => {
                    return Err(ChainError::SerializationError);
                },
            };
            let ghost before = entries.deep_view();
            entries.push((entries_raw[i].0.clone(), outs));
            proof {
                assert(entries.deep_view() =~= before.push(
                    (entries_raw@[i as int].0@, entries@.last().1@),
                ));
            }
            i = i + 1;
        }
        let ghost entsv = entries.deep_view();
        let u = UTXOSet { blockchain, store, cache: TxoIndex { entries } };
        proof {
            assert forall|k: Seq<char>| store.map().contains_key(k) implies exists|j: int|
                0 <= j < u.index().len() && (#[trigger] u.index()[j]).0 == k by {
                let j0 = choose|j0: int|
                    0 <= j0 < entries_raw@.len() && (#[trigger] entries_raw@[j0].0)@ == k;
                assert(u.index() == entsv);
                assert(u.index()[j0].0 == k);
            }
        }
        Ok(u)
    }

    /// How many transactions still have unspent outputs.
    pub fn count_transactions(&self) -> (r: usize)
        ensures
            r == self.index().len(),
    {
        self.cache.entries.len()
    }

    /// Every output locked with the given key hash.
    #[allow(non_snake_case)]
    #[verifier::loop_isolation(false)]
    pub fn find_UTXO(&self, pub_key_hash: &[u8]) -> (r: TXOutputs)
        ensures
            r@ == locked_upto(self.index(), pub_key_hash@, self.index().len() as int),
    {
        let ghost cv = self.index();
        let mut out: Vec<(i32, TXOutput)> = Vec::new();
        let mut i: usize = 0;
        while i < self.cache.entries.len()
            invariant
                i <= cv.len(),
                out.deep_view() == locked_upto(cv, pub_key_hash@, i as int),
            decreases cv.len() - i,
        {
            let ent = &self.cache.entries[i].1;
            let ghost entv = cv[i as int].1;
            proof {
                assert(cv[i as int] == (self.cache.entries@[i as int].0@, ent@));
            }
            let mut j: usize = 0;
            while j < ent.outputs.len()
                invariant
                    i < cv.len(),
                    entv == cv[i as int].1,
                    ent@ == entv,
                    j <= entv.len(),
                    out.deep_view() == locked_upto(cv, pub_key_hash@, i as int)
                        + entry_locked_upto(entv, pub_key_hash@, j as int),
                decreases entv.len() - j,
            {
                let ghost before = out.deep_view();
                proof {
                    assert(entv[j as int] == (ent.outputs@[j as int].0, ent.outputs@[j as int].1@));
                }
                if ent.outputs[j].1.is_locked_with_key(pub_key_hash) {
                    out.push(
                        (
                            ent.outputs[j].0,
                            TXOutput {
                                value: ent.outputs[j].1.value,
                                pub_key_hash: clone_bytes(&ent.outputs[j].1.pub_key_hash),
                            },
                        ),
                    );
                    proof {
                        assert(out.deep_view() =~= before.push(entv[j as int]));
                    }
                }
                j = j + 1;
            }
            proof {
                assert(out.deep_view() == locked_upto(cv, pub_key_hash@, i + 1));
            }
            i = i + 1;
        }
        proof {
            assert(out.deep_view() =~= locked_upto(cv, pub_key_hash@, cv.len() as int));
        }
        TXOutputs { outputs: out }
    }

    /// The total value locked with the given key hash; fails only when a
    /// prefix sum leaves the 64-bit accumulator, which real index sizes
    /// cannot cause.
    pub fn get_balance(&self, pub_key_hash: &[u8]) -> (r: Result<i64, ChainError>)
        ensures
            r is Ok <==> sums_fit(
                locked_upto(self.index(), pub_key_hash@, self.index().len() as int),
            ),
            r matches Ok(b) ==> b == sum_vals(
                locked_upto(self.index(), pub_key_hash@, self.index().len() as int),
            ),
            r is Err ==> r == Err::<i64, ChainError>(ChainError::CryptoError),
    {
        let outs = self.find_UTXO(pub_key_hash);
        let ghost l = outs@;
        let mut total: i64 = 0;
        let mut i: usize = 0;
        proof {
            assert(l.take(0) =~= Seq::<(i32, TxOutV)>::empty());
        }
        while i < outs.outputs.len()
            invariant
                i <= l.len(),
                l == outs@,
                l == locked_upto(self.index(), pub_key_hash@, self.index().len() as int),
                total == sum_vals(l.take(i as int)),
                forall|q: int| 0 <= q <= i ==> i64_ok(sum_vals(#[trigger] l.take(q))),
            decreases l.len() - i,
        {
            let v: i64 = outs.outputs[i].1.value as i64;
            proof {
                assert(l.take(i + 1).drop_last() =~= l.take(i as int));
                assert(l.take(i + 1).last() == l[i as int]);
                assert(l[i as int] == (outs.outputs@[i as int].0, outs.outputs@[i as int].1@));
            }
            let next = match total.checked_add(v) {
                Some(t) => t,
                None => {
                    proof {
                        assert(!i64_ok(sum_vals(l.take(i + 1))));
                        assert(!sums_fit(l));
                    }
                    return Err(ChainError::CryptoError);
                },
            };
            total = next;
            i = i + 1;
        }
        proof {
            assert(l.take(l.len() as int) =~= l);
            assert(sums_fit(l));
        }
        Ok(total)
    }

    /// Greedily pick outputs locked with the key until the target amount is
    /// reached; returns the accumulated value and, per transaction, the
    /// chosen output indices.
    #[verifier::rlimit(100)]
    #[verifier::loop_isolation(false)]
    pub fn find_spendable_outputs(&self, pub_key_hash: &[u8], amount: i32) -> (r: Result<
        (i64, Vec<(String, Vec<i32>)>),
        ChainError,
    >)
        ensures
            r is Ok <==> sel_fits(
                self.index(),
                pub_key_hash@,
                amount as int,
                self.index().len() as int,
            ),
            r matches Ok(p) ==> {
                let sel = sel_upto(self.index(), pub_key_hash@, amount as int, self.index().len() as int);
                p.0 as int == sel.0 && p.1.deep_view() == sel.1
            },
            r is Err ==> r == Err::<(i64, Vec<(String, Vec<i32>)>), ChainError>(
                ChainError::CryptoError,
            ),
    {
        let ghost cv = self.index();
        let ghost pk = pub_key_hash@;
        let mut acc: i64 = 0;
        let mut sel: Vec<(String, Vec<i32>)> = Vec::new();
        let mut i: usize = 0;
        while i < self.cache.entries.len()
            invariant
                i <= cv.len(),
                acc as int == sel_upto(cv, pk, amount as int, i as int).0,
                sel.deep_view() == sel_upto(cv, pk, amount as int, i as int).1,
                sel_fits(cv, pk, amount as int, i as int),
            decreases cv.len() - i,
        {
            let ent = &self.cache.entries[i].1;
            let ghost entv = cv[i as int].1;
            proof {
                assert(cv[i as int] == (self.cache.entries@[i as int].0@, ent@));
            }
            let ghost acc0 = acc as int;
            let mut ixs: Vec<i32> = Vec::new();
            let mut j: usize = 0;
            while j < ent.outputs.len()
                invariant
                    i < cv.len(),
                    entv == cv[i as int].1,
                    ent@ == entv,
                    j <= entv.len(),
                    acc0 == sel_upto(cv, pk, amount as int, i as int).0,
                    sel_fits(cv, pk, amount as int, i as int),
                    acc as int == sel_entry_upto(entv, pk, amount as int, acc0, j as int).0,
                    ixs@ == sel_entry_upto(entv, pk, amount as int, acc0, j as int).1,
                    sel_entry_fits(entv, pk, amount as int, acc0, j as int),
                decreases entv.len() - j,
            {
                proof {
                    assert(entv[j as int] == (ent.outputs@[j as int].0, ent.outputs@[j as int].1@));
                }
                if ent.outputs[j].1.is_locked_with_key(pub_key_hash) && acc < amount as i64 {
                    let v: i64 = ent.outputs[j].1.value as i64;
                    let next = match acc.checked_add(v) {
                        Some(t) => t,
                        None => {
                            proof {
                                assert(sel_entry_upto(entv, pk, amount as int, acc0, j + 1).0
                                    == acc + v);
                                assert(!sel_entry_fits(entv, pk, amount as int, acc0, j + 1));
                                lemma_sel_entry_fits_mono_neg(
                                    entv,
                                    pk,
                                    amount as int,
                                    acc0,
                                    j + 1,
                                    entv.len() as int,
                                );
                                assert(!sel_fits(cv, pk, amount as int, i + 1));
                                lemma_sel_fits_mono_neg(
                                    cv,
                                    pk,
                                    amount as int,
                                    i + 1,
                                    cv.len() as int,
                                );
                            }
                            return Err(ChainError::CryptoError);
                        },
                    };
                    acc = next;
                    ixs.push(ent.outputs[j].0);
                }
                j = j + 1;
            }
            if ixs.len() > 0 {
                let ghost selv = sel.deep_view();
                let ghost olds = sel@;
                let ghost ixsv = ixs@;
                sel.push((self.cache.entries[i].0.clone(), ixs));
                proof {
                    let target = selv.push(
                        (
                            cv[i as int].0,
                            sel_entry_upto(entv, pk, amount as int, acc0, entv.len() as int).1,
                        ),
                    );
                    assert forall|w: int| 0 <= w < sel.deep_view().len() implies sel.deep_view()[w]
                        == target[w] by {
                        assert(sel.deep_view()[w] == (sel@[w].0@, sel@[w].1@));
                        if w < olds.len() {
                            assert(sel@[w] == olds[w]);
                            assert(selv[w] == (olds[w].0@, olds[w].1@));
                        } else {
                            assert(sel@[w].1@ == ixsv);
                        }
                    }
                    assert(sel.deep_view() =~= target);
                }
            }
            i = i + 1;
        }
        Ok((acc, sel))
    }
}

// ---------------------------------------------------------------------------
// Reindex and incremental update
// ---------------------------------------------------------------------------

/// The first `j` pairs of an entry, without those at the spent index.
pub open spec fn without_upto(ent: Seq<(i32, TxOutV)>, idx: i32, j: int) -> Seq<(i32, TxOutV)>
    decreases j,
{
    if j <= 0 {
        Seq::<(i32, TxOutV)>::empty()
    } else {
        let prior = without_upto(ent, idx, j - 1);
        if ent[j - 1].0 == idx {
            prior
        } else {
            prior.push(ent[j - 1])
        }
    }
}

/// Consume one spent output: drop it from its transaction's entry, and drop
/// the entry when nothing is left.
pub open spec fn upd_spend(u: Seq<UtxoEntryV>, txid: Seq<char>, idx: i32) -> Seq<UtxoEntryV> {
    match assoc_pos_utxo(u, txid) {
        Some(p) => {
            let ent2 = without_upto(u[p].1, idx, u[p].1.len() as int);
            if ent2.len() == 0 {
                u.remove(p)
            } else {
                u.update(p, (txid, ent2))
            }
        },
        None => u,
    }
}

pub open spec fn upd_spends_upto(u: Seq<UtxoEntryV>, t: TxV, i: int) -> Seq<UtxoEntryV>
    decreases i,
{
    if i <= 0 {
        u
    } else {
        let prior = upd_spends_upto(u, t, i - 1);
        upd_spend(prior, t.vin[i - 1].txid, t.vin[i - 1].vout)
    }
}

/// All outputs of a transaction, paired with their indices.
pub open spec fn indexed_upto(t: TxV, j: int) -> Seq<(i32, TxOutV)>
    decreases j,
{
    if j <= 0 {
        Seq::<(i32, TxOutV)>::empty()
    } else {
        indexed_upto(t, j - 1).push(((j - 1) as i32, t.vout[j - 1]))
    }
}

/// Set the entry under a key, replacing an existing one.
pub open spec fn utxo_set(u: Seq<UtxoEntryV>, id: Seq<char>, ent: Seq<(i32, TxOutV)>) -> Seq<
    UtxoEntryV,
> {
    match assoc_pos_utxo(u, id) {
        Some(p) => u.update(p, (id, ent)),
        None => u.push((id, ent)),
    }
}

/// Apply one transaction to the index: spend its inputs, then record its
/// outputs as a fresh entry.
#[verifier::opaque]
pub open spec fn upd_tx(u: Seq<UtxoEntryV>, t: TxV) -> Seq<UtxoEntryV> {
    let u1 = if is_coinbase_v(t) {
        u
    } else {
        upd_spends_upto(u, t, t.vin.len() as int)
    };
    if t.vout.len() > 0 {
        utxo_set(u1, t.id, indexed_upto(t, t.vout.len() as int))
    } else {
        u1
    }
}

#[verifier::opaque]
pub open spec fn upd_txs_upto(u: Seq<UtxoEntryV>, txs: Seq<TxV>, i: int) -> Seq<UtxoEntryV>
    decreases i,
{
    if i <= 0 {
        u
    } else {
        upd_tx(upd_txs_upto(u, txs, i - 1), txs[i - 1])
    }
}

/// The incremental update a new block applies to the index.
pub open spec fn upd_block(u: Seq<UtxoEntryV>, b: BlockV) -> Seq<UtxoEntryV> {
    upd_txs_upto(u, b.transactions, b.transactions.len() as int)
}

impl UTXOSet {
    /// Write the in-memory index out to the store, replacing what was
    /// there.
    fn persist(&mut self) -> (r: Result<(), ChainError>)
        ensures
            *final(self) == (UTXOSet {
                store: final(self).store,
                blockchain: old(self).blockchain,
                cache: old(self).cache,
            }),
            r is Err ==> r == Err::<(), ChainError>(ChainError::StoreFailure),
    {
        match self.store.clear() {
            Ok(()) => {},
            Err(_) => {
                return Err(ChainError::StoreFailure);
            },
        }
        let mut i: usize = 0;
        while i < self.cache.entries.len()
            invariant
                self.blockchain == old(self).blockchain,
                self.cache == old(self).cache,
            decreases self.cache.entries@.len() - i,
        {
            let enc = self.cache.entries[i].1.entry_encoding();
            let key = self.cache.entries[i].0.clone();
            match self.store.put(key.as_str(), &enc) {
                Ok(()) => {},
                Err(_) => {
                    return Err(ChainError::StoreFailure);
                },
            }
            i = i + 1;
        }
        match self.store.flush() {
            Ok(()) => {},
            Err(_) => {
                return Err(ChainError::StoreFailure);
            },
        }
        Ok(())
    }

    /// Drop the index and rebuild it by the full chain scan.
    pub fn reindex(&mut self) -> (r: Result<(), ChainError>)
        requires
            old(self).wf(),
        ensures
            final(self).blockchain == old(self).blockchain,
            final(self).wf(),
            r is Ok ==> final(self).index() == utxo_scan(final(self).blockchain.chain()),
            r matches Err(e) ==> e is StoreFailure,
    {
        let fresh = match self.blockchain.find_UTXO() {
            Ok(u) => u,
            Err(e) => {
                return Err(e);
            },
        };
        self.cache = fresh;
        self.persist()
    }

    /// Apply one freshly mined block to the index: remove what its inputs
    /// spend, then record its outputs.
    #[verifier::rlimit(100)]
    #[verifier::loop_isolation(false)]
    pub fn update(&mut self, block: &Block) -> (r: Result<(), ChainError>)
        requires
            old(self).wf(),
        ensures
            final(self).blockchain == old(self).blockchain,
            final(self).wf(),
            final(self).index() == upd_block(old(self).index(), block@),
            r is Err ==> r == Err::<(), ChainError>(ChainError::StoreFailure),
    {
        let ghost u0 = self.index();
        let ghost bv = block@;
        let txs = block.get_transaction();
        let ghost txsv = bv.transactions;
        let mut ti: usize = 0;
        proof {
            assert(upd_txs_upto(u0, txsv, 0) == u0) by {
                reveal_with_fuel(upd_txs_upto, 1);
            }
        }
        while ti < txs.len()
            invariant
                ti <= txsv.len(),
                self.blockchain == old(self).blockchain,
                self.store == old(self).store,
                self.index() == upd_txs_upto(u0, txsv, ti as int),
            decreases txsv.len() - ti,
        {
            let ghost ubefore = self.index();
            self.update_one_tx(&txs[ti]);
            proof {
                assert(txsv[ti as int] == txs@[ti as int]@);
                assert(upd_txs_upto(u0, txsv, ti + 1) == upd_tx(ubefore, txsv[ti as int])) by {
                    reveal_with_fuel(upd_txs_upto, 2);
                }
            }
            ti = ti + 1;
        }
        self.persist()
    }

    /// Apply one transaction's surgery to the in-memory index.
    #[verifier::rlimit(100)]
    #[verifier::loop_isolation(false)]
    fn update_one_tx(&mut self, t: &Transaction)
        ensures
            final(self).blockchain == old(self).blockchain,
            final(self).store == old(self).store,
            final(self).index() == upd_tx(old(self).index(), t@),
    {
        proof {
            reveal(upd_tx);
        }
        let ghost u0 = self.index();
        if !t.is_coinbase() {
            let mut i: usize = 0;
            while i < t.vin.len()
                invariant
                    i <= t@.vin.len(),
                    self.blockchain == old(self).blockchain,
                    self.store == old(self).store,
                    self.index() == upd_spends_upto(u0, t@, i as int),
                decreases t@.vin.len() - i,
            {
                let ghost ubefore = self.index();
                proof {
                    assert(t@.vin[i as int] == t.vin@[i as int]@);
                }
                match utxo_pos_exec(&self.cache.entries, &t.vin[i].txid) {
                    Some(p) => {
                        proof {
                            lemma_assoc_pos_utxo_key(ubefore, t@.vin[i as int].txid);
                        }
                        let ghost olde = self.cache.entries@;
                        let e = self.cache.entries.remove(p);
                        let ghost entv = ubefore[p as int].1;
                        proof {
                            assert(ubefore[p as int] == (olde[p as int].0@, olde[p as int].1@));
                        }
                        let mut kept: Vec<(i32, TXOutput)> = Vec::new();
                        let mut j: usize = 0;
                        while j < e.1.outputs.len()
                            invariant
                                j <= entv.len(),
                                e.1@ == entv,
                                kept.deep_view() == without_upto(
                                    entv,
                                    t@.vin[i as int].vout,
                                    j as int,
                                ),
                            decreases entv.len() - j,
                        {
                            let ghost before = kept.deep_view();
                            proof {
                                assert(entv[j as int] == (e.1.outputs@[j as int].0, e.1.outputs@[j as int].1@));
                            }
                            if e.1.outputs[j].0 != t.vin[i].vout {
                                kept.push(
                                    (
                                        e.1.outputs[j].0,
                                        TXOutput {
                                            value: e.1.outputs[j].1.value,
                                            pub_key_hash: clone_bytes(&e.1.outputs[j].1.pub_key_hash),
                                        },
                                    ),
                                );
                                proof {
                                    assert(kept.deep_view() =~= before.push(entv[j as int]));
                                }
                            }
                            j = j + 1;
                        }
                        if kept.len() > 0 {
                            let ghost keptv = kept.deep_view();
                            self.cache.entries.insert(p, (e.0, TXOutputs { outputs: kept }));
                            proof {
                                let target = ubefore.update(
                                    p as int,
                                    (
                                        t@.vin[i as int].txid,
                                        without_upto(entv, t@.vin[i as int].vout, entv.len() as int),
                                    ),
                                );
                                assert forall|w: int|
                                    0 <= w < self.index().len() implies self.index()[w]
                                    == target[w] by {
                                    assert(self.index()[w] == (self.cache.entries@[w].0@, self.cache.entries@[w].1@));
                                    if w != p {
                                        assert(self.cache.entries@[w] == olde[w]);
                                        assert(ubefore[w] == (olde[w].0@, olde[w].1@));
                                    } else {
                                        assert(self.cache.entries@[w].1@ == keptv);
                                    }
                                }
                                assert(self.index() =~= target);
                            }
                        } else {
                            proof {
                                assert forall|w: int|
                                    0 <= w < self.index().len() implies self.index()[w]
                                    == ubefore.remove(p as int)[w] by {
                                    assert(self.index()[w] == (self.cache.entries@[w].0@, self.cache.entries@[w].1@));
                                    if w < p {
                                        assert(self.cache.entries@[w] == olde[w]);
                                        assert(ubefore[w] == (olde[w].0@, olde[w].1@));
                                    } else {
                                        assert(self.cache.entries@[w] == olde[w + 1]);
                                        assert(ubefore[w + 1] == (olde[w + 1].0@, olde[w + 1].1@));
                                    }
                                }
                                assert(self.index() =~= ubefore.remove(p as int));
                            }
                        }
                    },
                    None => {},
                }
                i = i + 1;
            }
        }
        if t.vout.len() > 0 {
            let ghost u1 = self.index();
            let mut fresh: Vec<(i32, TXOutput)> = Vec::new();
            let mut j: usize = 0;
            while j < t.vout.len()
                invariant
                    j <= t@.vout.len(),
                    fresh.deep_view() == indexed_upto(t@, j as int),
                decreases t@.vout.len() - j,
            {
                let ghost before = fresh.deep_view();
                let idx: i32 = #[verifier::truncate] (j as i32);
                fresh.push(
                    (
                        idx,
                        TXOutput {
                            value: t.vout[j].value,
                            pub_key_hash: clone_bytes(&t.vout[j].pub_key_hash),
                        },
                    ),
                );
                proof {
                    assert(t@.vout[j as int] == t.vout@[j as int]@);
                    assert(fresh.deep_view() =~= before.push((idx, t@.vout[j as int])));
                }
                j = j + 1;
            }
            let ghost freshv = fresh.deep_view();
            match utxo_pos_exec(&self.cache.entries, &t.id) {
                Some(p) => {
                    proof {
                        lemma_assoc_pos_utxo_key(u1, t@.id);
                    }
                    let ghost olde = self.cache.entries@;
                    let e = self.cache.entries.remove(p);
                    self.cache.entries.insert(p, (e.0, TXOutputs { outputs: fresh }));
                    proof {
                        let target = u1.update(p as int, (t@.id, freshv));
                        assert forall|w: int| 0 <= w < self.index().len() implies self.index()[w]
                            == target[w] by {
                            assert(self.index()[w] == (self.cache.entries@[w].0@, self.cache.entries@[w].1@));
                            if w != p {
                                assert(self.cache.entries@[w] == olde[w]);
                                assert(u1[w] == (olde[w].0@, olde[w].1@));
                            } else {
                                assert(self.cache.entries@[w].0@ == olde[p as int].0@);
                                assert(u1[p as int] == (olde[p as int].0@, olde[p as int].1@));
                            }
                        }
                        assert(self.index() =~= target);
                    }
                },
                None => {
                    let ghost olde = self.cache.entries@;
                    self.cache.entries.push((t.id.clone(), TXOutputs { outputs: fresh }));
                    proof {
                        let target = u1.push((t@.id, freshv));
                        assert forall|w: int| 0 <= w < self.index().len() implies self.index()[w]
                            == target[w] by {
                            assert(self.index()[w] == (self.cache.entries@[w].0@, self.cache.entries@[w].1@));
                            if w < olde.len() {
                                assert(self.cache.entries@[w] == olde[w]);
                                assert(u1[w] == (olde[w].0@, olde[w].1@));
                            }
                        }
                        assert(self.index() =~= target);
                    }
                },
            }
        }
    }
}

// ---------------------------------------------------------------------------
// Building a transfer
// ---------------------------------------------------------------------------

/// The greedy selection only grows past the target by at most one output's
/// value.
pub proof fn lemma_sel_entry_bound(
    ent: Seq<(i32, TxOutV)>,
    pkh: Seq<u8>,
    amount: int,
    acc0: int,
    j: int,
)
    requires
        0 <= amount,
        acc0 < amount + 0x8000_0000,
    ensures
        sel_entry_upto(ent, pkh, amount, acc0, j).0 < amount + 0x8000_0000,
    decreases j,
{
    if j > 0 {
        lemma_sel_entry_bound(ent, pkh, amount, acc0, j - 1);
    }
}

pub proof fn lemma_sel_bound(cache: Seq<UtxoEntryV>, pkh: Seq<u8>, amount: int, i: int)
    requires
        0 <= amount < 0x8000_0000,
    ensures
        sel_upto(cache, pkh, amount, i).0 < amount + 0x8000_0000,
    decreases i,
{
    if i > 0 {
        lemma_sel_bound(cache, pkh, amount, i - 1);
        lemma_sel_entry_bound(
            cache[i - 1].1,
            pkh,
            amount,
            sel_upto(cache, pkh, amount, i - 1).0,
            cache[i - 1].1.len() as int,
        );
    }
}

/// One selected transaction's inputs-to-be: its id paired with each chosen
/// output index.
pub open spec fn flat_entry(id: Seq<char>, ixs: Seq<i32>) -> Seq<(Seq<char>, i32)> {
    Seq::new(ixs.len(), |k: int| (id, ixs[k]))
}

/// The selection flattened into input order: entry by entry, index by index.
pub open spec fn flat_sel_upto(sel: Seq<(Seq<char>, Seq<i32>)>, i: int) -> Seq<(Seq<char>, i32)>
    decreases i,
{
    if i <= 0 {
        Seq::<(Seq<char>, i32)>::empty()
    } else {
        flat_sel_upto(sel, i - 1) + flat_entry(sel[i - 1].0, sel[i - 1].1)
    }
}

pub open spec fn flat_sel(sel: Seq<(Seq<char>, Seq<i32>)>) -> Seq<(Seq<char>, i32)> {
    flat_sel_upto(sel, sel.len() as int)
}

/// The greedy selection a transfer from this wallet's address sees.
pub open spec fn sel_for(
    index: Seq<UtxoEntryV>,
    wallets: Seq<(Seq<char>, crate::wallets::WalletV)>,
    from: Seq<char>,
    amount: int,
) -> (int, Seq<(Seq<char>, Seq<i32>)>) {
    sel_upto(
        index,
        crate::wallets::pub_key_hash_of(tx_of_wallet(wallets, from).public_key),
        amount,
        index.len() as int,
    )
}

/// Whether that selection's accumulator stays within 64 bits throughout.
pub open spec fn sel_fits_for(
    index: Seq<UtxoEntryV>,
    wallets: Seq<(Seq<char>, crate::wallets::WalletV)>,
    from: Seq<char>,
    amount: int,
) -> bool {
    sel_fits(
        index,
        crate::wallets::pub_key_hash_of(tx_of_wallet(wallets, from).public_key),
        amount,
        index.len() as int,
    )
}

impl Transaction {
    /// Build and sign a transfer of `amount` from one address to another,
    /// spending outputs the UTXO set selects.
    #[allow(non_snake_case)]
    #[verifier::rlimit(100)]
    #[verifier::loop_isolation(false)]
    pub fn new_UTXO(
        from: &str,
        to: &str,
        amount: i32,
        utxo: &UTXOSet,
        wallets: &crate::wallets::Wallets,
    ) -> (r: Result<Transaction, ChainError>)
        requires
            utxo.wf(),
            wallets.wf(),
        ensures
            r matches Ok(t) ==> {
                let sel = sel_for(utxo.index(), wallets@, from@, amount as int);
                &&& crate::wallets::find_wallet(wallets@, from@) is Some
                &&& addr_decode(to@) is Some
                &&& amount > 0
                &&& sel.0 >= amount
                &&& t@.vout[0].value == amount
                &&& (addr_decode(to@) matches Some(b) ==> t@.vout[0].pub_key_hash == b)
                &&& (sel.0 > amount ==> t@.vout.len() == 2 && (addr_decode(from@) matches Some(fb)
                    && t@.vout[1].value == sel.0 - amount && t@.vout[1].pub_key_hash == fb))
                &&& (sel.0 == amount ==> t@.vout.len() == 1)
                &&& crate::blockchain::mine_tx_ok(utxo.blockchain.chain(), t@)
                &&& t@.id == crate::transaction::tx_hash_of(crate::transaction::unsigned_of(t@))
                &&& t@.vin.len() == flat_sel(sel.1).len()
                &&& forall|i: int|
                    0 <= i < t@.vin.len() ==> (#[trigger] t@.vin[i]).txid == flat_sel(sel.1)[i].0
                        && t@.vin[i].vout == flat_sel(sel.1)[i].1 && t@.vin[i].pub_key
                        == tx_of_wallet(wallets@, from@).public_key
            },
            amount <= 0 ==> r == Err::<Transaction, ChainError>(ChainError::InvalidTransaction),
            (amount > 0 && crate::wallets::find_wallet(wallets@, from@) is None) ==> (r matches Err(
                e,
            ) && e matches ChainError::WalletMissing { address } && address@ == from@),
            (amount > 0 && crate::wallets::find_wallet(wallets@, from@) is Some && sel_fits_for(
                utxo.index(),
                wallets@,
                from@,
                amount as int,
            ) && sel_for(utxo.index(), wallets@, from@, amount as int).0 < amount) <==> (r
                matches Err(e) && e is InsufficientFunds),
            r matches Err(e) ==> (e matches ChainError::InsufficientFunds {
                accumulated,
                requested,
            } ==> {
                let got = sel_for(utxo.index(), wallets@, from@, amount as int).0;
                &&& requested == amount
                &&& accumulated < amount
                &&& accumulated == if got < i32::MIN { i32::MIN as int } else {
                    got
                }
            }),
    {
        if amount <= 0 {
            return Err(ChainError::InvalidTransaction);
        }
        let wallet = match wallets.get_wallet(from) {
            Some(w) => w,
            None => {
                return Err(ChainError::WalletMissing { address: String::from_str(from) });
            },
        };
        proof {
            assert(wallet@ == tx_of_wallet(wallets@, from@));
            crate::wallets::lemma_find_wallet_wf(wallets@, from@);
        }
        if wallet.secret_key.len() != 32 {
            proof {
                assert(false);
            }
            return Err(ChainError::CryptoError);
        }
        let pub_key_hash = crate::wallets::hash_pub_key(&wallet.public_key);
        let (acc, selected) = match utxo.find_spendable_outputs(pub_key_hash.as_slice(), amount) {
            Ok(p) => p,
            Err(e) => {
                return Err(e);
            },
        };
        proof {
            lemma_sel_bound(utxo.index(), pub_key_hash@, amount as int, utxo.index().len() as int);
        }
        if acc < amount as i64 {
            let acc32: i32 = if acc < i32::MIN as i64 {
                i32::MIN
            } else {
                #[verifier::truncate] (acc as i32)
            };
            return Err(ChainError::InsufficientFunds { accumulated: acc32, requested: amount });
        }
        let ghost selv = selected.deep_view();
        let mut vin: Vec<TXInput> = Vec::new();
        let mut si: usize = 0;
        while si < selected.len()
            invariant
                selv == selected.deep_view(),
                si <= selv.len(),
                vin.deep_view().len() == flat_sel_upto(selv, si as int).len(),
                forall|i: int|
                    0 <= i < vin.deep_view().len() ==> (#[trigger] vin.deep_view()[i]).txid
                        == flat_sel_upto(selv, si as int)[i].0 && vin.deep_view()[i].vout
                        == flat_sel_upto(selv, si as int)[i].1 && vin.deep_view()[i].pub_key
                        == wallet@.public_key && vin.deep_view()[i].signature == Seq::<u8>::empty(),
            decreases selected@.len() - si,
        {
            let ghost fs0 = flat_sel_upto(selv, si as int);
            let ghost entid = selv[si as int].0;
            let ghost entixs = selv[si as int].1;
            proof {
                assert(selv[si as int] == (selected@[si as int].0@, selected@[si as int].1@));
            }
            let mut oi: usize = 0;
            while oi < selected[si].1.len()
                invariant
                    si < selv.len(),
                    selv == selected.deep_view(),
                    fs0 == flat_sel_upto(selv, si as int),
                    entid == selv[si as int].0,
                    entixs == selv[si as int].1,
                    entixs == selected@[si as int].1@,
                    entid == selected@[si as int].0@,
                    oi <= entixs.len(),
                    vin.deep_view().len() == fs0.len() + oi,
                    forall|i: int|
                        0 <= i < vin.deep_view().len() ==> {
                            let fs = fs0 + flat_entry(entid, entixs.take(oi as int));
                            (#[trigger] vin.deep_view()[i]).txid == fs[i].0
                                && vin.deep_view()[i].vout == fs[i].1
                                && vin.deep_view()[i].pub_key == wallet@.public_key
                                && vin.deep_view()[i].signature == Seq::<u8>::empty()
                        },
                decreases selected@[si as int].1@.len() - oi,
            {
                let ghost before = vin.deep_view();
                vin.push(
                    TXInput {
                        txid: selected[si].0.clone(),
                        vout: selected[si].1[oi],
                        signature: Vec::new(),
                        pub_key: clone_bytes(&wallet.public_key),
                    },
                );
                proof {
                    assert(vin.deep_view() =~= before.push(vin@.last()@));
                    assert(fs0 + flat_entry(entid, entixs.take(oi + 1)) =~= (fs0 + flat_entry(
                        entid,
                        entixs.take(oi as int),
                    )).push((entid, entixs[oi as int])));
                }
                oi = oi + 1;
            }
            proof {
                assert(entixs.take(entixs.len() as int) =~= entixs);
                assert(flat_sel_upto(selv, si + 1) == fs0 + flat_entry(entid, entixs));
            }
            si = si + 1;
        }
        let mut vout: Vec<TXOutput> = Vec::new();
        let first_out = match TXOutput::new(amount, String::from_str(to)) {
            Ok(o) => o,
            Err(e) => {
                return Err(e);
            },
        };
        vout.push(first_out);
        if acc > amount as i64 {
            let change: i32 = (acc - amount as i64) as i32;
            let change_out = match TXOutput::new(change, String::from_str(from)) {
                Ok(o) => o,
                Err(e) => {
                    return Err(e);
                },
            };
            vout.push(change_out);
        }
        let mut tx = Transaction { id: String::new(), vin, vout };
        tx.set_id();
        let ghost body = tx@;
        match utxo.blockchain.sign_transaction(&mut tx, &wallet.secret_key) {
            Ok(()) => {},
            Err(e) => {
                return Err(e);
            },
        }
        proof {
            let wv = tx_of_wallet(wallets@, from@);
            assert(wallet@ == wv);
            let chain = utxo.blockchain.chain();
            let sk = wallet@.secret_key;
            assert(body.id == crate::transaction::tx_hash_of(body));
            if !crate::transaction::is_coinbase_v(body) {
                let prevs = crate::blockchain::chain_prevs(chain, body);
                assert(tx@ == crate::transaction::signed_v(body, prevs, sk));
                assert(crate::transaction::unsigned_of(tx@) =~= body) by {
                    assert forall|i: int|
                        0 <= i < tx@.vin.len() implies crate::transaction::unsigned_of(
                        tx@,
                    ).vin[i] == body.vin[i] by {
                        assert(tx@.vin[i] == crate::transaction::signed_in(body, prevs, sk, i));
                        assert(body.vin[i].signature == Seq::<u8>::empty());
                    }
                    assert(crate::transaction::unsigned_of(tx@).vin =~= body.vin);
                }
                assert(crate::transaction::tx_hash_of(crate::transaction::unsigned_of(tx@))
                    == crate::transaction::tx_hash_of(body));
                crate::transaction::lemma_signed_preserves_msgs(body, prevs, sk);
                assert forall|i: int| 0 <= i < tx@.vin.len() implies (#[trigger] tx@.vin[i]).pub_key
                    == wv.public_key by {
                    assert(tx@.vin[i] == crate::transaction::signed_in(body, prevs, sk, i));
                }
                assert forall|i: int| 0 <= i < body.vin.len() implies (#[trigger] body.vin[i]).pub_key
                    == crate::crypto::ed25519_pk_of(sk) by {
                    assert(body.vin[i].pub_key == wv.public_key);
                }
                assert forall|i: int|
                    0 <= i < body.vin.len() implies ((#[trigger] crate::crypto::ed25519_sig_of(
                    sk,
                    crate::transaction::sign_msg(
                        body,
                        i,
                        crate::transaction::prev_pkh_at(body, prevs, i),
                    ),
                )).len() == 64 && crate::crypto::ed25519_sig_ok(
                    crate::crypto::ed25519_pk_of(sk),
                    crate::transaction::sign_msg(
                        body,
                        i,
                        crate::transaction::prev_pkh_at(body, prevs, i),
                    ),
                    crate::crypto::ed25519_sig_of(
                        sk,
                        crate::transaction::sign_msg(
                            body,
                            i,
                            crate::transaction::prev_pkh_at(body, prevs, i),
                        ),
                    ),
                )) by {
                    assert(crate::transaction::signed_input_checks(body, prevs, sk, i));
                }
                crate::transaction::lemma_sign_then_verify(body, prevs, sk);
                assert(crate::transaction::verify_scan(tx@, prevs, 0) == Some(true));
                assert(crate::blockchain::chain_prevs(chain, tx@) =~= prevs) by {
                    assert forall|i: int| 0 <= i < tx@.vin.len() implies (#[trigger] tx@.vin[i]).txid
                        == body.vin[i].txid by {
                        assert(tx@.vin[i] == crate::transaction::signed_in(body, prevs, sk, i));
                    }
                }
                assert forall|i: int|
                    0 <= i < tx@.vin.len() implies (#[trigger] crate::blockchain::chain_find_tx(
                    chain,
                    tx@.vin[i].txid,
                )) is Some by {
                    assert(tx@.vin[i] == crate::transaction::signed_in(body, prevs, sk, i));
                    assert(crate::blockchain::chain_find_tx(chain, body.vin[i].txid) is Some);
                }
                assert(crate::transaction::prevs_ok(tx@, prevs) == crate::transaction::prevs_ok(
                    body,
                    prevs,
                ));
                assert(crate::blockchain::mine_tx_ok(chain, tx@));
            } else {
                assert(tx@ == body);
                assert(crate::transaction::unsigned_of(tx@) =~= body) by {
                    assert forall|i: int|
                        0 <= i < tx@.vin.len() implies crate::transaction::unsigned_of(
                        tx@,
                    ).vin[i] == body.vin[i] by {
                        assert(body.vin[i].signature == Seq::<u8>::empty());
                    }
                    assert(crate::transaction::unsigned_of(tx@).vin =~= body.vin);
                }
                assert(crate::blockchain::mine_tx_ok(chain, tx@));
            }
        }
        Ok(tx)
    }
}

/// The wallet under the given address, or an empty one.
pub open spec fn tx_of_wallet(
    l: Seq<(Seq<char>, crate::wallets::WalletV)>,
    addr: Seq<char>,
) -> crate::wallets::WalletV {
    match crate::wallets::find_wallet(l, addr) {
        Some(w) => w,
        None => crate::wallets::WalletV {
            secret_key: Seq::<u8>::empty(),
            public_key: Seq::<u8>::empty(),
        },
    }
}

// ---------------------------------------------------------------------------
// Value accounting
// ---------------------------------------------------------------------------

/// The total value of one entry's outputs.
pub open spec fn sum_entry(ent: Seq<(i32, TxOutV)>) -> int
    decreases ent.len(),
{
    if ent.len() == 0 {
        0
    } else {
        sum_entry(ent.drop_last()) + ent.last().1.value
    }
}

/// The total value the index holds.
pub open spec fn sum_index(u: Seq<UtxoEntryV>) -> int
    decreases u.len(),
{
    if u.len() == 0 {
        0
    } else {
        sum_index(u.drop_last()) + sum_entry(u.last().1)
    }
}

/// A key that no entry carries is not found.
proof fn lemma_assoc_pos_utxo_none(l: Seq<UtxoEntryV>, k: Seq<char>)
    requires
        forall|j: int| 0 <= j < l.len() ==> (#[trigger] l[j]).0 != k,
    ensures
        assoc_pos_utxo(l, k) is None,
    decreases l.len(),
{
    if l.len() > 0 {
        assert(l[0].0 != k);
        assert forall|j: int| 0 <= j < l.skip(1).len() implies (#[trigger] l.skip(1)[j]).0
            != k by {
            assert(l.skip(1)[j] == l[j + 1]);
        }
        lemma_assoc_pos_utxo_none(l.skip(1), k);
    }
}

/// Law: recording a coinbase that pays the subsidy under a fresh
/// transaction id raises the total value the index holds by exactly the
/// subsidy.
pub proof fn lemma_coinbase_adds_subsidy(u: Seq<UtxoEntryV>, t: TxV)
    requires
        is_coinbase_v(t),
        t.vout.len() == 1,
        t.vout[0].value == SUBSIDY,
        forall|j: int| 0 <= j < u.len() ==> (#[trigger] u[j]).0 != t.id,
    ensures
        sum_index(upd_tx(u, t)) == sum_index(u) + SUBSIDY,
{
    reveal(upd_tx);
    lemma_assoc_pos_utxo_none(u, t.id);
    let ent = indexed_upto(t, 1);
    assert(indexed_upto(t, 0) =~= Seq::<(i32, TxOutV)>::empty());
    assert(ent =~= seq![(0i32, t.vout[0])]);
    assert(upd_tx(u, t) == u.push((t.id, ent)));
    assert(upd_tx(u, t).drop_last() =~= u);
    assert(upd_tx(u, t).last() == (t.id, ent));
    assert(sum_entry(ent) == SUBSIDY) by {
        assert(ent.len() == 1);
        assert(ent.last() == (0i32, t.vout[0]));
        assert(ent.drop_last() =~= Seq::<(i32, TxOutV)>::empty());
        assert(sum_entry(Seq::<(i32, TxOutV)>::empty()) == 0);
    }
}

} // verus!
