//! The chain store: an append-only, hash-linked sequence of blocks over the
//! key-value store, with a `LAST` pointer to the tip.

use vstd::prelude::*;
use vstd::utf8::encode_utf8;

use crate::block::{
    block_pow_hash, block_wf, enc_block, lemma_parse_enc_block, meets_difficulty, parse_block,
    Block, BlockV,
};
use crate::address::addr_decode;
use crate::codec::utf8_to_string;
use crate::crypto::sha256_hex;
use crate::errors::ChainError;
use crate::store::Store;
use crate::transaction::{
    coinbase_v, find_prev, is_coinbase_v, prevs_ok, signed_input_checks, signed_v, verify_scan,
    PrevTxs, Transaction, TxInV, TxOutV, TxV,
};

verus! {

/// Entry `i` of a well-formed chain: stored under its hash, decodable back
/// to itself, mined, numbered `i`, and linked to its parent.
pub open spec fn chain_entry_ok(chain: Seq<BlockV>, m: Map<Seq<char>, Seq<u8>>, i: int) -> bool {
    let b = chain[i];
    &&& m.contains_key(b.hash)
    &&& parse_block(m[b.hash]) == Some((b, m[b.hash].len() as int))
    &&& block_wf(b)
    &&& b.height == i
    &&& if i == 0 {
        b.prev_block_hash.len() == 0
    } else {
        b.prev_block_hash == chain[i - 1].hash
    }
}

/// A well-formed chain store: at least the genesis, the `LAST` key naming
/// the tip, no entry under the empty key, and every block in place.
pub open spec fn chain_wf(chain: Seq<BlockV>, m: Map<Seq<char>, Seq<u8>>, tip: Seq<char>) -> bool {
    &&& chain.len() >= 1
    &&& tip == chain.last().hash
    &&& m.contains_key("LAST"@)
    &&& m["LAST"@] == encode_utf8(tip)
    &&& !m.contains_key(Seq::<char>::empty())
    &&& forall|i: int| 0 <= i < chain.len() ==> #[trigger] chain_entry_ok(chain, m, i)
}

/// A store that holds some well-formed chain under some tip.
pub open spec fn store_has_chain(m: Map<Seq<char>, Seq<u8>>) -> bool {
    exists|chain: Seq<BlockV>, tip: Seq<char>| chain_wf(chain, m, tip)
}

/// The persistent chain: the tip hash, its height, the store, and the ghost
/// list of blocks from genesis to tip.
pub struct Blockchain {
    tip: String,
    height: i32,
    store: Store,
    chain: Ghost<Seq<BlockV>>,
}

impl Blockchain {
    /// The blocks from genesis to tip.
    pub closed spec fn chain(&self) -> Seq<BlockV> {
        self.chain@
    }

    /// What the backing store holds.
    pub closed spec fn map(&self) -> Map<Seq<char>, Seq<u8>> {
        self.store.map()
    }

    /// The tip's hash.
    pub closed spec fn tip_spec(&self) -> Seq<char> {
        self.tip@
    }

    /// The chain is well formed and the cached tip height agrees with it.
    pub open spec fn wf(&self) -> bool {
        &&& chain_wf(self.chain(), self.map(), self.tip_spec())
        &&& self.height_spec() == self.chain().last().height
    }

    /// The tip's height.
    pub closed spec fn height_spec(&self) -> i32 {
        self.height
    }

    /// The tip's height, executable.
    pub fn get_height(&self) -> (r: i32)
        ensures
            r == self.height_spec(),
    {
        self.height
    }

    /// The tip's hash, executable.
    pub fn get_tip_hash(&self) -> (r: String)
        ensures
            r@ == self.tip_spec(),
    {
        self.tip.clone()
    }

    /// Hand the backing store back, consuming the chain handle.
    pub fn into_store(self) -> (r: Store)
        ensures
            crate::store::store_map(r.db) == self.map(),
    {
        self.store
    }
}

/// The block at position `idx` of a tip-to-genesis walk is stored, decodes
/// back to itself, is mined, sits at the expected height, and extends the
/// block walked just before it.
pub open spec fn walk_ok_at(bs: Seq<BlockV>, m: Map<Seq<char>, Seq<u8>>, h0: int, idx: int) -> bool {
    let b = bs[idx];
    &&& m.contains_key(b.hash)
    &&& parse_block(m[b.hash]) == Some((b, m[b.hash].len() as int))
    &&& block_wf(b)
    &&& b.height == h0 - idx
    &&& (idx >= 1 ==> bs[idx - 1].prev_block_hash == b.hash)
}

/// A completed tip-to-genesis walk, reversed, is a well-formed chain.
#[verifier::rlimit(100)]
proof fn lemma_walk_to_chain(bs: Seq<BlockV>, m: Map<Seq<char>, Seq<u8>>, tip: Seq<char>, h0: int)
    requires
        h0 >= 0,
        bs.len() == h0 + 1,
        bs[0].hash == tip,
        forall|idx: int| 0 <= idx < bs.len() ==> #[trigger] walk_ok_at(bs, m, h0, idx),
        bs.last().prev_block_hash.len() == 0,
        m.contains_key("LAST"@),
        m["LAST"@] == encode_utf8(tip),
        !m.contains_key(Seq::<char>::empty()),
    ensures
        chain_wf(bs.reverse(), m, tip),
        bs.reverse().last().height == h0,
{
    let chain = bs.reverse();
    assert(chain.len() == h0 + 1);
    assert forall|i: int| 0 <= i < chain.len() implies #[trigger] chain_entry_ok(chain, m, i) by {
        assert(chain[i] == bs[h0 - i]);
        assert(walk_ok_at(bs, m, h0, h0 - i));
        if i > 0 {
            assert(chain[i - 1] == bs[h0 - i + 1]);
            assert(walk_ok_at(bs, m, h0, h0 - i + 1));
        }
        if i == 0 {
            assert(bs.last() == bs[h0 - 0]);
        }
    }
    assert(chain.last() == bs[0]);
    assert(walk_ok_at(bs, m, h0, 0));
    assert(bs[0].height == h0);
}

/// Whether a key is a well-placed block of some chain in the store: the
/// checks of [`load_block`] cannot fail on such a key, short of the store
/// itself failing.
pub open spec fn key_backs_entry(m: Map<Seq<char>, Seq<u8>>, key: Seq<char>) -> bool {
    exists|chain: Seq<BlockV>, i: int|
        0 <= i < chain.len() && #[trigger] chain_entry_ok(chain, m, i) && chain[i].hash == key
}

/// Read the block stored under `key` and check it: it must decode, carry
/// `key` as its own hash, and satisfy the proof-of-work predicate.
#[verifier::rlimit(100)]
fn load_block(store: &Store, key: &String) -> (r: Result<Block, ChainError>)
    ensures
        r matches Ok(b) ==> store.map().contains_key(key@) && parse_block(store.map()[key@])
            == Some((b@, store.map()[key@].len() as int)) && b@.hash == key@ && block_wf(b@),
        r matches Err(e) ==> e is SerializationError || e is StoreFailure,
        key_backs_entry(store.map(), key@) ==> (r is Ok || (r matches Err(e) && e
            is StoreFailure)),
{
    let ghost m = store.map();
    let ghost backed = key_backs_entry(m, key@);
    let ghost (gch, gi): (Seq<BlockV>, int) = if backed {
        choose|chain: Seq<BlockV>, i: int|
            0 <= i < chain.len() && #[trigger] chain_entry_ok(chain, m, i) && chain[i].hash == key@
    } else {
        (arbitrary(), arbitrary())
    };
    let got = match store.get(key.as_str()) {
        Ok(g) => g,
        Err(_) => {
            return Err(ChainError::StoreFailure);
        },
    };
    let bytes = match got {
        Some(b) => b,
        None => {
            proof {
                if backed {
                    assert(m.contains_key(gch[gi].hash));
                    assert(false);
                }
            }
            return Err(ChainError::SerializationError);
        },
    };
    let block = match Block::block_decoding(&bytes) {
        Some(b) => b,
        None => {
            proof {
                if backed {
                    assert(parse_block(bytes@) == Some((gch[gi], bytes@.len() as int)));
                    assert(false);
                }
            }
            return Err(ChainError::SerializationError);
        },
    };
    proof {
        if backed {
            assert(parse_block(bytes@) == Some((gch[gi], bytes@.len() as int)));
            assert(block@ == gch[gi]);
        }
    }
    let h = block.get_hash();
    if !(h == *key) {
        proof {
            if backed {
                assert(block@.hash == key@);
                assert(false);
            }
        }
        return Err(ChainError::SerializationError);
    }
    let data = block.prepare_hash_data();
    let digest = sha256_hex(&data);
    if !(digest == h) {
        proof {
            if backed {
                assert(block_wf(block@));
                assert(false);
            }
        }
        return Err(ChainError::SerializationError);
    }
    if !block.validate() {
        proof {
            if backed {
                assert(block_wf(block@));
                assert(meets_difficulty(block_pow_hash(block@)));
                assert(false);
            }
        }
        return Err(ChainError::SerializationError);
    }
    Ok(block)
}

impl Blockchain {
    /// Open an existing chain: follow `LAST` and walk every block down to
    /// genesis, checking hashes, heights, links and proof of work.
    #[verifier::rlimit(100)]
    pub fn new(store: Store) -> (r: Result<Blockchain, ChainError>)
        ensures
            r matches Ok(bc) ==> bc.wf() && bc.map() == store.map(),
            !store.map().contains_key("LAST"@) ==> r == Err::<Blockchain, ChainError>(
                ChainError::StoreMissing,
            ) || r == Err::<Blockchain, ChainError>(ChainError::StoreFailure),
            r == Err::<Blockchain, ChainError>(ChainError::StoreMissing)
                ==> !store.map().contains_key("LAST"@),
            store_has_chain(store.map()) ==> (r is Ok || (r matches Err(e) && e
                is StoreFailure)),
    {
        proof {
            reveal_strlit("LAST");
            reveal_strlit("");
        }
        let ghost m = store.map();
        let ghost hyp = store_has_chain(m);
        let ghost (gch, gtip): (Seq<BlockV>, Seq<char>) = if hyp {
            choose|chain: Seq<BlockV>, tip: Seq<char>| chain_wf(chain, m, tip)
        } else {
            (arbitrary(), arbitrary())
        };
        let last = match store.get("LAST") {
            Ok(l) => l,
            Err(_) => {
                return Err(ChainError::StoreFailure);
            },
        };
        let last_bytes = match last {
            Some(b) => b,
            None => {
                proof {
                    if hyp {
                        assert(false);
                    }
                }
                return Err(ChainError::StoreMissing);
            },
        };
        let tip = match utf8_to_string(last_bytes) {
            Some(s) => s,
            None => {
                proof {
                    if hyp {
                        vstd::utf8::encode_utf8_valid_utf8(gtip);
                        assert(false);
                    }
                }
                return Err(ChainError::SerializationError);
            },
        };
        proof {
            if hyp {
                vstd::utf8::encode_utf8_decode_utf8(gtip);
                vstd::utf8::encode_utf8_decode_utf8(tip@);
                assert(tip@ == gtip);
            }
        }
        match store.get("") {
            Ok(None) => {},
            Ok(Some(_)) => {
                proof {
                    if hyp {
                        assert(""@ =~= Seq::<char>::empty());
                        assert(false);
                    }
                }
                return Err(ChainError::SerializationError);
            },
            Err(_) => {
                return Err(ChainError::StoreFailure);
            },
        }
        proof {
            assert(""@ =~= Seq::<char>::empty());
            if hyp {
                assert(chain_entry_ok(gch, m, gch.len() - 1));
                assert(gch[gch.len() - 1].hash == tip@);
                assert(key_backs_entry(m, tip@));
            }
        }
        let first = match load_block(&store, &tip) {
            Ok(b) => b,
            Err(e) => {
                return Err(e);
            },
        };
        proof {
            if hyp {
                assert(parse_block(m[tip@]) == Some((gch[gch.len() - 1], m[tip@].len() as int)));
                assert(first@ == gch[gch.len() - 1]);
            }
        }
        let h0 = first.get_height();
        if h0 < 0 {
            proof {
                if hyp {
                    assert(false);
                }
            }
            return Err(ChainError::SerializationError);
        }
        let mut next_key = first.get_prev_hash();
        let mut cur_height = h0;
        let mut blocks_rev: Vec<Block> = Vec::new();
        blocks_rev.push(first);
        proof {
            assert(walk_ok_at(blocks_rev.deep_view(), store.map(), h0 as int, 0));
        }
        while cur_height > 0
            invariant
                store.map().contains_key("LAST"@),
                m == store.map(),
                hyp == store_has_chain(m),
                hyp ==> chain_wf(gch, m, gtip),
                hyp ==> gch.len() == h0 + 1,
                hyp ==> blocks_rev.deep_view().last() == gch[cur_height as int],
                0 <= cur_height <= h0,
                blocks_rev.deep_view().len() == h0 - cur_height + 1,
                blocks_rev.deep_view()[0].hash == tip@,
                cur_height == blocks_rev.deep_view().last().height,
                next_key@ == blocks_rev.deep_view().last().prev_block_hash,
                forall|idx: int|
                    0 <= idx < blocks_rev.deep_view().len() ==> #[trigger] walk_ok_at(
                        blocks_rev.deep_view(),
                        store.map(),
                        h0 as int,
                        idx,
                    ),
            decreases cur_height,
        {
            proof {
                if hyp {
                    assert(chain_entry_ok(gch, m, cur_height as int));
                    assert(next_key@ == gch[cur_height - 1].hash);
                    assert(chain_entry_ok(gch, m, cur_height - 1));
                    assert(key_backs_entry(m, next_key@));
                }
            }
            let b = match load_block(&store, &next_key) {
                Ok(b) => b,
                Err(e) => {
                    return Err(e);
                },
            };
            proof {
                if hyp {
                    assert(parse_block(m[next_key@]) == Some(
                        (gch[cur_height - 1], m[next_key@].len() as int),
                    ));
                    assert(b@ == gch[cur_height - 1]);
                }
            }
            if b.get_height() != cur_height - 1 {
                proof {
                    if hyp {
                        assert(false);
                    }
                }
                return Err(ChainError::SerializationError);
            }
            next_key = b.get_prev_hash();
            cur_height = cur_height - 1;
            let ghost before = blocks_rev.deep_view();
            blocks_rev.push(b);
            proof {
                let bs = blocks_rev.deep_view();
                assert(bs =~= before.push(b@));
                assert forall|idx: int| 0 <= idx < bs.len() implies #[trigger] walk_ok_at(
                    bs,
                    store.map(),
                    h0 as int,
                    idx,
                ) by {
                    if idx < bs.len() - 1 {
                        assert(walk_ok_at(before, store.map(), h0 as int, idx));
                    }
                }
            }
        }
        if !next_key.as_str().is_empty() {
            proof {
                if hyp {
                    assert(chain_entry_ok(gch, m, 0));
                    assert(blocks_rev.deep_view().last() == gch[0]);
                    assert(next_key@ == gch[0].prev_block_hash);
                    assert(false);
                }
            }
            return Err(ChainError::SerializationError);
        }
        let ghost bs = blocks_rev.deep_view();
        let ghost chainv = bs.reverse();
        let bc = Blockchain { tip, height: h0, store, chain: Ghost(chainv) };
        proof {
            lemma_walk_to_chain(bs, bc.map(), bc.tip_spec(), h0 as int);
        }
        Ok(bc)
    }

    /// Initialize a fresh chain: mine the genesis block paying `address` and
    /// set `LAST`. Refuses a store that already holds a chain.
    pub fn create_blockchain(store: Store, address: String) -> (r: Result<
        Blockchain,
        (Store, ChainError),
    >)
        ensures
            r matches Ok(bc) ==> {
                &&& !store.map().contains_key("LAST"@)
                &&& addr_decode(address@) is Some
                &&& bc.wf()
                &&& bc.map() == store.map().insert(
                    bc.chain()[0].hash,
                    enc_block(bc.chain()[0]),
                ).insert("LAST"@, encode_utf8(bc.chain()[0].hash))
                &&& bc.chain().len() == 1
                &&& bc.chain()[0].height == 0
                &&& bc.chain()[0].transactions.len() == 1
                &&& (addr_decode(address@) matches Some(pkh) && bc.chain()[0].transactions[0]
                    == coinbase_v(
                    address@,
                    "The Times 03/Jan/2009 Chancellor on brink of second bailout for banks"@,
                    pkh,
                ))
            },
            r matches Err(p) ==> {
                &&& (p.1 is AlreadyInitialized || p.1 is StoreFailure || p.1 is CryptoError)
                &&& ((p.1 is AlreadyInitialized || p.1 is CryptoError) ==> p.0.map()
                    == store.map())
                &&& (p.1 is AlreadyInitialized ==> store.map().contains_key("LAST"@)
                    || store.map().contains_key(Seq::<char>::empty()))
            },
            (store.map().contains_key("LAST"@) || store.map().contains_key(
                Seq::<char>::empty(),
            )) ==> (r matches Err(p) && (p.1 is AlreadyInitialized || p.1 is StoreFailure)),
            (!store.map().contains_key("LAST"@) && !store.map().contains_key(
                Seq::<char>::empty(),
            ) && addr_decode(address@) is Some) ==> (r is Ok || (r matches Err(p) && (p.1
                is StoreFailure || p.1 is CryptoError))),
    {
        proof {
            reveal_strlit("LAST");
            reveal_strlit("");
        }
        let mut store = store;
        match store.get("LAST") {
            Ok(None) => {},
            Ok(Some(_)) => {
                return Err((store, ChainError::AlreadyInitialized));
            },
            Err(_) => {
                return Err((store, ChainError::StoreFailure));
            },
        }
        proof {
            assert(""@ =~= Seq::<char>::empty());
        }
        match store.get("") {
            Ok(None) => {},
            Ok(Some(_)) => {
                return Err((store, ChainError::AlreadyInitialized));
            },
            Err(_) => {
                return Err((store, ChainError::StoreFailure));
            },
        }
        let cbtx = match Transaction::new_coinbase(
            address,
            String::from_str(
                "The Times 03/Jan/2009 Chancellor on brink of second bailout for banks",
            ),
        ) {
            Ok(t) => t,
            Err(e) => {
                return Err((store, e));
            },
        };
        let genesis = match Block::new_genesis_block(cbtx) {
            Ok(b) => b,
            Err(e) => {
                return Err((store, e));
            },
        };
        let hash_str = genesis.get_hash();
        let enc = genesis.block_encoding();
        match store.put(hash_str.as_str(), &enc) {
            Ok(()) => {},
            Err(_) => {
                return Err((store, ChainError::StoreFailure));
            },
        }
        let tip_bytes = hash_str.as_str().as_bytes_vec();
        match store.put("LAST", &tip_bytes) {
            Ok(()) => {},
            Err(_) => {
                return Err((store, ChainError::StoreFailure));
            },
        }
        match store.flush() {
            Ok(()) => {},
            Err(_) => {
                return Err((store, ChainError::StoreFailure));
            },
        }
        let ghost gv = genesis@;
        let ghost chain0: Seq<BlockV> = seq![gv];
        let bc = Blockchain {
            tip: hash_str,
            height: 0,
            store,
            chain: Ghost(chain0),
        };
        proof {
            lemma_parse_enc_block(gv, Seq::<u8>::empty());
            assert(enc_block(gv) + Seq::<u8>::empty() =~= enc_block(gv));
            assert(chain_entry_ok(chain0, bc.map(), 0));
            assert(chain_wf(bc.chain(), bc.map(), bc.tip_spec()));
        }
        Ok(bc)
    }
}

// ---------------------------------------------------------------------------
// Transaction lookup
// ---------------------------------------------------------------------------

/// The first transaction with the given id in a list.
pub open spec fn find_tx_in_txs(txs: Seq<TxV>, id: Seq<char>) -> Option<TxV>
    decreases txs.len(),
{
    if txs.len() == 0 {
        None
    } else if txs[0].id == id {
        Some(txs[0])
    } else {
        find_tx_in_txs(txs.skip(1), id)
    }
}

/// The first transaction with the given id, scanning blocks tip to genesis.
pub open spec fn chain_find_tx(chain: Seq<BlockV>, id: Seq<char>) -> Option<TxV>
    decreases chain.len(),
{
    if chain.len() == 0 {
        None
    } else {
        match find_tx_in_txs(chain.last().transactions, id) {
            Some(t) => Some(t),
            None => chain_find_tx(chain.drop_last(), id),
        }
    }
}

/// A found transaction carries the id it was found under.
pub proof fn lemma_find_tx_in_txs_id(txs: Seq<TxV>, id: Seq<char>)
    ensures
        find_tx_in_txs(txs, id) matches Some(t) ==> t.id == id,
    decreases txs.len(),
{
    if txs.len() > 0 && txs[0].id != id {
        lemma_find_tx_in_txs_id(txs.skip(1), id);
    }
}

pub proof fn lemma_chain_find_tx_id(chain: Seq<BlockV>, id: Seq<char>)
    ensures
        chain_find_tx(chain, id) matches Some(t) ==> t.id == id,
    decreases chain.len(),
{
    if chain.len() > 0 {
        lemma_find_tx_in_txs_id(chain.last().transactions, id);
        lemma_chain_find_tx_id(chain.drop_last(), id);
    }
}

impl Blockchain {
    /// Linear scan from the tip for the transaction with the given id.
    #[verifier::rlimit(100)]
    #[verifier::loop_isolation(false)]
    pub fn find_transaction(&self, id: &str) -> (r: Result<Transaction, ChainError>)
        requires
            self.wf(),
        ensures
            match chain_find_tx(self.chain(), id@) {
                Some(t) => (r matches Ok(x) && x@ == t) || r == Err::<Transaction, ChainError>(
                    ChainError::StoreFailure,
                ),
                None => (r matches Err(e) && e matches ChainError::NotFound { txid } && txid@
                    == id@) || r == Err::<Transaction, ChainError>(ChainError::StoreFailure),
            },
            r matches Ok(x) ==> chain_find_tx(self.chain(), id@) == Some(x@),
    {
        let ghost ch = self.chain();
        let ghost m = self.map();
        let mut current = self.tip.clone();
        let ghost mut k: int = ch.len() as int;
        proof {
            assert(ch.take(k) =~= ch);
        }
        while !current.as_str().is_empty()
            invariant
                self.wf(),
                ch == self.chain(),
                m == self.map(),
                0 <= k <= ch.len(),
                k > 0 ==> current@ == ch[k - 1].hash,
                k == 0 ==> current@.len() == 0,
                chain_find_tx(ch, id@) == chain_find_tx(ch.take(k), id@),
            decreases k,
        {
            proof {
                if k == 0 {
                    assert(false);
                }
                assert(chain_entry_ok(ch, m, k - 1));
            }
            let bytes = match self.store.get(current.as_str()) {
                Ok(Some(b)) => b,
                Ok(None) => {
                    proof {
                        assert(false);
                    }
                    return Err(ChainError::StoreFailure);
                },
                Err(_) => {
                    return Err(ChainError::StoreFailure);
                },
            };
            let block = match Block::block_decoding(&bytes) {
                Some(b) => b,
                None => {
                    proof {
                        assert(false);
                    }
                    return Err(ChainError::StoreFailure);
                },
            };
            let ghost bv = ch[k - 1];
            proof {
                assert(block@ == bv);
            }
            let txs = block.get_transaction();
            let ghost ts = bv.transactions;
            let mut i: usize = 0;
            proof {
                assert(ts.skip(0) =~= ts);
            }
            while i < txs.len()
                invariant
                    i <= ts.len(),
                    ts == txs.deep_view(),
                    find_tx_in_txs(ts, id@) == find_tx_in_txs(ts.skip(i as int), id@),
                decreases ts.len() - i,
            {
                let ghost pre = ts.skip(i as int);
                proof {
                    assert(pre[0] == ts[i as int]);
                    assert(pre.skip(1) =~= ts.skip(i + 1));
                }
                if crate::codec::str_eq(txs[i].id.as_str(), id) {
                    let found = crate::transaction::clone_tx(&txs[i]);
                    proof {
                        assert(ts[i as int] == txs@[i as int]@);
                        assert(find_tx_in_txs(ts, id@) == Some(ts[i as int]));
                        assert(ch.take(k).len() == k);
                        assert(ch.take(k).last() == ch.take(k)[k - 1]);
                        assert(ch.take(k)[k - 1] == ch[k - 1]);
                        assert(ch.take(k).last() == bv);
                        assert(chain_find_tx(ch.take(k), id@) == Some(ts[i as int]));
                    }
                    return Ok(found);
                }
                i = i + 1;
            }
            proof {
                assert(ts.skip(ts.len() as int) =~= Seq::<TxV>::empty());
                assert(find_tx_in_txs(ts, id@) is None);
                assert(ch.take(k).len() == k);
                assert(ch.take(k).last() == ch.take(k)[k - 1]);
                assert(ch.take(k)[k - 1] == ch[k - 1]);
                assert(ch.take(k).last() == bv);
                assert(ch.take(k).drop_last() =~= ch.take(k - 1));
            }
            current = block.get_prev_hash();
            proof {
                if k - 1 > 0 {
                    assert(chain_entry_ok(ch, m, k - 1));
                    assert(bv.prev_block_hash == ch[k - 2].hash);
                } else {
                    assert(chain_entry_ok(ch, m, 0));
                }
                k = k - 1;
            }
        }
        proof {
            if k > 0 {
                assert(chain_entry_ok(ch, m, k - 1));
                assert(ch[k - 1].hash.len() == 64);
                assert(false);
            }
            assert(ch.take(0) =~= Seq::<BlockV>::empty());
        }
        Err(ChainError::NotFound { txid: String::from_str(id) })
    }
}

// ---------------------------------------------------------------------------
// Previous-transaction resolution, signing and verification
// ---------------------------------------------------------------------------

/// The placeholder for a lookup that found nothing.
pub open spec fn dummy_tx() -> TxV {
    TxV { id: Seq::<char>::empty(), vin: Seq::<TxInV>::empty(), vout: Seq::<TxOutV>::empty() }
}

pub open spec fn tx_of(o: Option<TxV>) -> TxV {
    match o {
        Some(t) => t,
        None => dummy_tx(),
    }
}

/// The previous transactions of `t`'s inputs, resolved against the chain.
pub open spec fn chain_prevs(chain: Seq<BlockV>, t: TxV) -> Seq<TxV> {
    Seq::new(t.vin.len(), |i: int| tx_of(chain_find_tx(chain, t.vin[i].txid)))
}

/// Every input's referenced transaction exists somewhere in the chain.
pub open spec fn all_prevs_found(chain: Seq<BlockV>, t: TxV) -> bool {
    forall|i: int|
        0 <= i < t.vin.len() ==> (#[trigger] chain_find_tx(chain, t.vin[i].txid)) is Some
}

/// If every element of `l` with id `id` equals `t` and one such element
/// exists, the scan finds `t`.
pub proof fn lemma_find_prev_uniform(l: Seq<TxV>, id: Seq<char>, t: TxV)
    requires
        exists|j: int| 0 <= j < l.len() && (#[trigger] l[j]).id == id,
        forall|j: int| 0 <= j < l.len() && (#[trigger] l[j]).id == id ==> l[j] == t,
    ensures
        find_prev(l, id) == Some(t),
    decreases l.len(),
{
    let j0 = choose|j: int| 0 <= j < l.len() && (#[trigger] l[j]).id == id;
    if l[0].id == id {
    } else {
        assert(l.skip(1)[j0 - 1] == l[j0]);
        assert forall|j: int|
            0 <= j < l.skip(1).len() && (#[trigger] l.skip(1)[j]).id == id implies l.skip(1)[j]
            == t by {
            assert(l.skip(1)[j] == l[j + 1]);
        }
        lemma_find_prev_uniform(l.skip(1), id, t);
    }
}

/// Looking an input's id up in the resolved previous list gives the same
/// transaction the chain lookup gives.
pub proof fn lemma_chain_prevs_find(chain: Seq<BlockV>, t: TxV)
    requires
        all_prevs_found(chain, t),
    ensures
        forall|i: int|
            0 <= i < t.vin.len() ==> find_prev(chain_prevs(chain, t), (#[trigger] t.vin[i]).txid)
                == chain_find_tx(chain, t.vin[i].txid),
{
    let p = chain_prevs(chain, t);
    assert forall|i: int| 0 <= i < t.vin.len() implies find_prev(
        p,
        (#[trigger] t.vin[i]).txid,
    ) == chain_find_tx(chain, t.vin[i].txid) by {
        let id = t.vin[i].txid;
        lemma_chain_find_tx_id(chain, id);
        assert(p[i].id == id);
        assert forall|j: int| 0 <= j < p.len() && (#[trigger] p[j]).id == id implies p[j] == tx_of(
            chain_find_tx(chain, id),
        ) by {
            lemma_chain_find_tx_id(chain, t.vin[j].txid);
            assert(p[j] == tx_of(chain_find_tx(chain, t.vin[j].txid)));
            assert(p[j].id == t.vin[j].txid);
        }
        lemma_find_prev_uniform(p, id, tx_of(chain_find_tx(chain, id)));
    }
}

impl Blockchain {
    /// Resolve every input's previous transaction, in input order.
    fn get_prev_TXs(&self, tx: &Transaction) -> (r: Result<PrevTxs, ChainError>)
        requires
            self.wf(),
        ensures
            r matches Ok(p) ==> all_prevs_found(self.chain(), tx@) && p@ == chain_prevs(
                self.chain(),
                tx@,
            ),
            r matches Err(e) ==> (e matches ChainError::NotFound { .. } && !all_prevs_found(
                self.chain(),
                tx@,
            )) || e is StoreFailure,
    {
        let mut txs: Vec<Transaction> = Vec::new();
        let mut i: usize = 0;
        while i < tx.vin.len()
            invariant
                self.wf(),
                i <= tx@.vin.len(),
                txs.deep_view().len() == i,
                forall|j: int|
                    0 <= j < i ==> chain_find_tx(self.chain(), tx@.vin[j].txid) == Some(
                        #[trigger] txs.deep_view()[j],
                    ),
            decreases tx@.vin.len() - i,
        {
            proof {
                assert(tx@.vin[i as int] == tx.vin@[i as int]@);
            }
            let p = match self.find_transaction(tx.vin[i].txid.as_str()) {
                Ok(p) => p,
                Err(e) => {
                    proof {
                        assert(tx@.vin[i as int] == tx.vin@[i as int]@);
                        if chain_find_tx(self.chain(), tx@.vin[i as int].txid) is None {
                            assert(!all_prevs_found(self.chain(), tx@));
                        }
                    }
                    return Err(e);
                },
            };
            let ghost before = txs.deep_view();
            txs.push(p);
            proof {
                assert(txs.deep_view() =~= before.push(p@));
            }
            i = i + 1;
        }
        proof {
            assert forall|j: int| 0 <= j < tx@.vin.len() implies (#[trigger] chain_find_tx(
                self.chain(),
                tx@.vin[j].txid,
            )) is Some by {
                assert(chain_find_tx(self.chain(), tx@.vin[j].txid) == Some(txs.deep_view()[j]));
            }
        }
        let r = PrevTxs { txs };
        proof {
            assert(r@ =~= chain_prevs(self.chain(), tx@));
        }
        Ok(r)
    }

    /// Check a transaction's signatures against the chain; a coinbase
    /// passes trivially.
    pub fn verify_transaction(&self, tx: &Transaction) -> (r: Result<bool, ChainError>)
        requires
            self.wf(),
        ensures
            is_coinbase_v(tx@) ==> r == Ok::<bool, ChainError>(true),
            !is_coinbase_v(tx@) ==> match r {
                Ok(b) => all_prevs_found(self.chain(), tx@) && prevs_ok(
                    tx@,
                    chain_prevs(self.chain(), tx@),
                ) && verify_scan(tx@, chain_prevs(self.chain(), tx@), 0) == Some(b),
                Err(e) => (e is NotFound && !all_prevs_found(self.chain(), tx@)) || (e
                    is InvalidTransaction && !prevs_ok(tx@, chain_prevs(self.chain(), tx@))) || (e
                    is CryptoError && verify_scan(tx@, chain_prevs(self.chain(), tx@), 0) is None)
                    || e is StoreFailure,
            },
    {
        if tx.is_coinbase() {
            return Ok(true);
        }
        let prevs = match self.get_prev_TXs(tx) {
            Ok(p) => p,
            Err(e) => {
                return Err(e);
            },
        };
        tx.verify(&prevs)
    }

    /// Sign every input of `tx` against the chain with the given secret key.
    pub fn sign_transaction(&self, tx: &mut Transaction, private_key: &Vec<u8>) -> (r: Result<
        (),
        ChainError,
    >)
        requires
            self.wf(),
            private_key@.len() == 32,
        ensures
            r is Ok ==> (is_coinbase_v(old(tx)@) && *final(tx) == *old(tx)) || (!is_coinbase_v(
                old(tx)@,
            ) && all_prevs_found(self.chain(), old(tx)@) && prevs_ok(
                old(tx)@,
                chain_prevs(self.chain(), old(tx)@),
            ) && final(tx)@ == signed_v(
                old(tx)@,
                chain_prevs(self.chain(), old(tx)@),
                private_key@,
            ) && (forall|i: int|
                0 <= i < old(tx)@.vin.len() ==> #[trigger] signed_input_checks(
                    old(tx)@,
                    chain_prevs(self.chain(), old(tx)@),
                    private_key@,
                    i,
                ))),
            r is Err ==> *final(tx) == *old(tx),
            r matches Err(e) ==> e is NotFound || e is InvalidTransaction || e is StoreFailure,
            r matches Err(e) ==> (e is NotFound ==> !all_prevs_found(self.chain(), old(tx)@)) && (
            e is InvalidTransaction ==> !prevs_ok(
                old(tx)@,
                chain_prevs(self.chain(), old(tx)@),
            )),
    {
        let prevs = match self.get_prev_TXs(tx) {
            Ok(p) => p,
            Err(e) => {
                return Err(e);
            },
        };
        tx.sign(private_key, &prevs)
    }
}

// ---------------------------------------------------------------------------
// Mining
// ---------------------------------------------------------------------------

/// A transaction a block may carry: a coinbase, or one whose inputs all
/// resolve and whose signatures all check against the chain.
pub open spec fn mine_tx_ok(chain: Seq<BlockV>, t: TxV) -> bool {
    is_coinbase_v(t) || (all_prevs_found(chain, t) && prevs_ok(t, chain_prevs(chain, t))
        && verify_scan(t, chain_prevs(chain, t), 0) == Some(true))
}

impl Blockchain {
    /// Verify the given transactions, mine a block over them at the next
    /// height, append it and advance `LAST`.
    #[verifier::rlimit(100)]
    #[verifier::loop_isolation(false)]
    pub fn mine_block(&mut self, transactions: Vec<Transaction>) -> (r: Result<Block, ChainError>)
        requires
            old(self).wf(),
        ensures
            r matches Ok(b) ==> {
                &&& final(self).wf()
                &&& final(self).chain() == old(self).chain().push(b@)
                &&& final(self).map() == old(self).map().insert(b@.hash, enc_block(b@)).insert(
                    "LAST"@,
                    encode_utf8(b@.hash),
                )
                &&& b@.transactions == transactions.deep_view()
                &&& b@.height == old(self).chain().len()
                &&& block_wf(b@)
                &&& forall|i: int|
                    0 <= i < transactions.deep_view().len() ==> mine_tx_ok(
                        old(self).chain(),
                        #[trigger] transactions.deep_view()[i],
                    )
            },
            r is Err ==> final(self).chain() == old(self).chain() && final(self).tip_spec() == old(
                self,
            ).tip_spec() && final(self).height_spec() == old(self).height_spec(),
            r == Err::<Block, ChainError>(ChainError::InvalidTransaction) ==> exists|i: int|
                0 <= i < transactions.deep_view().len() && !mine_tx_ok(
                    old(self).chain(),
                    #[trigger] transactions.deep_view()[i],
                ),
            (forall|i: int|
                0 <= i < transactions.deep_view().len() ==> mine_tx_ok(
                    old(self).chain(),
                    #[trigger] transactions.deep_view()[i],
                )) ==> (r is Ok || r == Err::<Block, ChainError>(ChainError::StoreFailure) || r
                == Err::<Block, ChainError>(ChainError::CryptoError)),
    {
        proof {
            reveal_strlit("LAST");
        }
        let mut i: usize = 0;
        while i < transactions.len()
            invariant
                i <= transactions@.len(),
                forall|j: int|
                    0 <= j < i ==> mine_tx_ok(
                        self.chain(),
                        #[trigger] transactions.deep_view()[j],
                    ),
            decreases transactions@.len() - i,
        {
            proof {
                assert(transactions.deep_view()[i as int] == transactions@[i as int]@);
            }
            let ok = match self.verify_transaction(&transactions[i]) {
                Ok(b) => b,
                Err(e) => {
                    proof {
                        if e is InvalidTransaction {
                            assert(!mine_tx_ok(
                                self.chain(),
                                transactions.deep_view()[i as int],
                            ));
                        }
                        if e is NotFound || e is CryptoError {
                            assert(!mine_tx_ok(
                                self.chain(),
                                transactions.deep_view()[i as int],
                            ));
                        }
                    }
                    return Err(e);
                },
            };
            if !ok {
                proof {
                    assert(!mine_tx_ok(self.chain(), transactions.deep_view()[i as int]));
                }
                return Err(ChainError::InvalidTransaction);
            }
            i = i + 1;
        }
        if self.height == i32::MAX {
            return Err(ChainError::CryptoError);
        }
        proof {
            assert(chain_entry_ok(self.chain(), self.map(), self.chain().len() - 1));
        }
        let new_height = self.height + 1;
        let ghost txsv = transactions.deep_view();
        let block = match Block::new_block(transactions, self.tip.clone(), new_height) {
            Ok(b) => b,
            Err(e) => {
                return Err(e);
            },
        };
        let hash_str = block.get_hash();
        match self.store.get(hash_str.as_str()) {
            Ok(None) => {},
            Ok(Some(_)) => {
                return Err(ChainError::CryptoError);
            },
            Err(_) => {
                return Err(ChainError::StoreFailure);
            },
        }
        let enc = block.block_encoding();
        match self.store.put(hash_str.as_str(), &enc) {
            Ok(()) => {},
            Err(_) => {
                return Err(ChainError::StoreFailure);
            },
        }
        let tip_bytes = hash_str.as_str().as_bytes_vec();
        match self.store.put("LAST", &tip_bytes) {
            Ok(()) => {},
            Err(_) => {
                return Err(ChainError::StoreFailure);
            },
        }
        match self.store.flush() {
            Ok(()) => {},
            Err(_) => {
                return Err(ChainError::StoreFailure);
            },
        }
        let ghost oldchain = self.chain@;
        let ghost bv = block@;
        let ghost newchain = oldchain.push(bv);
        self.tip = hash_str;
        self.height = new_height;
        self.chain = Ghost(newchain);
        proof {
            lemma_parse_enc_block(bv, Seq::<u8>::empty());
            assert(enc_block(bv) + Seq::<u8>::empty() =~= enc_block(bv));
            let m2 = self.map();
            assert forall|j: int| 0 <= j < newchain.len() implies #[trigger] chain_entry_ok(
                newchain,
                m2,
                j,
            ) by {
                if j < oldchain.len() {
                    assert(chain_entry_ok(oldchain, old(self).map(), j));
                    assert(newchain[j] == oldchain[j]);
                    if j > 0 {
                        assert(newchain[j - 1] == oldchain[j - 1]);
                    }
                    assert(oldchain[j].hash.len() == 64) by {
                        assert(block_wf(oldchain[j]));
                    }
                } else {
                    assert(newchain[j] == bv);
                    assert(newchain[j - 1] == oldchain[j - 1]);
                    assert(chain_entry_ok(oldchain, old(self).map(), j - 1));
                }
            }
            assert(chain_wf(self.chain(), self.map(), self.tip_spec()));
        }
        Ok(block)
    }
}

// ---------------------------------------------------------------------------
// Iteration from tip to genesis
// ---------------------------------------------------------------------------

/// A cursor over the chain, from the tip backwards along `prev_block_hash`.
pub struct BlockchainIterator<'a> {
    current_hash: String,
    bc: &'a Blockchain,
    remaining: Ghost<int>,
}

impl<'a> BlockchainIterator<'a> {
    /// The chain being walked.
    pub closed spec fn chain(&self) -> Seq<BlockV> {
        self.bc.chain()
    }

    /// How many blocks are still to be yielded.
    pub closed spec fn remaining_spec(&self) -> int {
        self.remaining@
    }

    /// The cursor points at the block `remaining - 1`, or nowhere once the
    /// genesis has been yielded.
    pub closed spec fn iter_wf(&self) -> bool {
        &&& self.bc.wf()
        &&& 0 <= self.remaining@ <= self.bc.chain().len()
        &&& (self.remaining@ > 0 ==> self.current_hash@ == self.bc.chain()[self.remaining@
            - 1].hash)
        &&& (self.remaining@ == 0 ==> self.current_hash@.len() == 0)
    }

    /// Yield the next block, walking towards genesis; `None` after the
    /// genesis block, or if the store fails.
    pub fn next_block(&mut self) -> (r: Option<Block>)
        requires
            old(self).iter_wf(),
        ensures
            final(self).iter_wf(),
            final(self).chain() == old(self).chain(),
            old(self).remaining_spec() == 0 ==> r is None,
            old(self).remaining_spec() > 0 ==> match r {
                Some(b) => b@ == old(self).chain()[old(self).remaining_spec() - 1]
                    && final(self).remaining_spec() == old(self).remaining_spec() - 1,
                None => final(self).remaining_spec() == 0,
            },
    {
        let ghost ch = self.bc.chain();
        let ghost m = self.bc.map();
        let ghost rem = self.remaining@;
        if self.current_hash.as_str().is_empty() {
            proof {
                if rem > 0 {
                    assert(chain_entry_ok(ch, m, rem - 1));
                    assert(block_wf(ch[rem - 1]));
                    assert(false);
                }
            }
            return None;
        }
        proof {
            if rem == 0 {
                assert(false);
            }
            assert(chain_entry_ok(ch, m, rem - 1));
        }
        let bytes = match self.bc.store.get(self.current_hash.as_str()) {
            Ok(Some(b)) => b,
            Ok(None) => {
                proof {
                    assert(false);
                }
                return None;
            },
            Err(_) => {
                self.current_hash = String::new();
                proof {
                    self.remaining@ = 0;
                }
                return None;
            },
        };
        let block = match Block::block_decoding(&bytes) {
            Some(b) => b,
            None => {
                proof {
                    assert(false);
                }
                return None;
            },
        };
        self.current_hash = block.get_prev_hash();
        proof {
            self.remaining@ = rem - 1;
            if rem - 1 > 0 {
                assert(chain_entry_ok(ch, m, rem - 1));
            }
        }
        Some(block)
    }
}

impl Blockchain {
    /// A cursor starting at the tip.
    pub fn iter(&self) -> (r: BlockchainIterator)
        requires
            self.wf(),
        ensures
            r.iter_wf(),
            r.chain() == self.chain(),
            r.remaining_spec() == self.chain().len(),
    {
        let ghost n = self.chain().len() as int;
        BlockchainIterator { current_hash: self.tip.clone(), bc: self, remaining: Ghost(n) }
    }
}

/// Laws of a well-formed chain: heights count up from zero, so the walk
/// from the tip yields exactly `tip.height + 1` blocks and ends at a block
/// with an empty previous hash; every non-genesis block's `prev_block_hash`
/// is the hash of the block one height below; and every block's stored hash
/// is its proof-of-work digest and meets the difficulty.
pub proof fn lemma_chain_laws(bc: &Blockchain)
    requires
        bc.wf(),
    ensures
        bc.chain().len() == bc.chain().last().height + 1,
        forall|i: int| 0 <= i < bc.chain().len() ==> (#[trigger] bc.chain()[i]).height == i,
        forall|i: int|
            1 <= i < bc.chain().len() ==> (#[trigger] bc.chain()[i]).prev_block_hash
                == bc.chain()[i - 1].hash,
        bc.chain()[0].prev_block_hash.len() == 0,
        forall|i: int| 0 <= i < bc.chain().len() ==> block_wf(#[trigger] bc.chain()[i]),
{
    assert forall|i: int| 0 <= i < bc.chain().len() implies (#[trigger] bc.chain()[i]).height == i
        && block_wf(bc.chain()[i]) by {
        assert(chain_entry_ok(bc.chain(), bc.map(), i));
    }
    assert forall|i: int| 1 <= i < bc.chain().len() implies (#[trigger] bc.chain()[i]).prev_block_hash
        == bc.chain()[i - 1].hash by {
        assert(chain_entry_ok(bc.chain(), bc.map(), i));
    }
    assert(chain_entry_ok(bc.chain(), bc.map(), 0));
    assert(chain_entry_ok(bc.chain(), bc.map(), bc.chain().len() - 1));
}

} // verus!
