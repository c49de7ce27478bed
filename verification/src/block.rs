//! Blocks: the hash-linked record, its canonical encoding, the difficulty
//! predicate and the mining loop.

use vstd::prelude::*;
use vstd::utf8::encode_utf8;

use crate::codec::{
    enc_i32, enc_list, enc_list_items, enc_str, le128, le64, lemma_concat_assoc,
    lemma_enc_list_items_push, lemma_parse_enc_i32, lemma_parse_enc_list, lemma_parse_enc_str,
    lemma_parse_le128, lemma_skip_of_concat, parse_i32, parse_list, parse_list_items, parse_str,
    parse_u128, read_i32, read_str, read_u128, read_u64, write_i32, write_raw, write_str,
    write_u128, write_u64,
};
use crate::crypto::{sha256_hex, sha256_hex_of, current_millis};
use crate::errors::ChainError;
use crate::transaction::{
    enc_tx, fits_len, lemma_parse_enc_tx, parse_tx, read_tx, tx_encoding, Transaction, TxV, wf_txv,
};

verus! {

/// The number of leading hex zeros a valid block hash must carry.
pub const TARGET_HEXS: usize = 4;

/// A timestamped, hash-linked record carrying transactions and a
/// proof-of-work nonce.
#[derive(Debug, Clone)]
pub struct Block {
    timestamp: u128,
    transactions: Vec<Transaction>,
    prev_block_hash: String,
    hash: String,
    nonce: i32,
    height: i32,
}

#[verifier::ext_equal]
pub ghost struct BlockV {
    pub timestamp: u128,
    pub transactions: Seq<TxV>,
    pub prev_block_hash: Seq<char>,
    pub hash: Seq<char>,
    pub nonce: i32,
    pub height: i32,
}

impl View for Block {
    type V = BlockV;

    closed spec fn view(&self) -> BlockV {
        BlockV {
            timestamp: self.timestamp,
            transactions: self.transactions.deep_view(),
            prev_block_hash: self.prev_block_hash@,
            hash: self.hash@,
            nonce: self.nonce,
            height: self.height,
        }
    }
}

impl DeepView for Block {
    type V = BlockV;

    open spec fn deep_view(&self) -> BlockV {
        self.view()
    }
}

// ---------------------------------------------------------------------------
// Encoding
// ---------------------------------------------------------------------------

pub open spec fn tx_encoder() -> spec_fn(TxV) -> Seq<u8> {
    |t: TxV| enc_tx(t)
}

pub open spec fn tx_parser() -> spec_fn(Seq<u8>) -> Option<(TxV, int)> {
    |d: Seq<u8>| parse_tx(d)
}

/// The pre-image of the proof-of-work digest: previous hash, transactions,
/// timestamp, difficulty and nonce, canonically encoded.
pub open spec fn enc_block_content(
    prev: Seq<char>,
    txs: Seq<TxV>,
    timestamp: u128,
    difficulty: u64,
    nonce: i32,
) -> Seq<u8> {
    enc_str(prev) + enc_list(txs, tx_encoder()) + le128(timestamp) + le64(difficulty) + enc_i32(
        nonce,
    )
}

/// The digest the mining loop sees for block `b` at nonce `n`.
pub open spec fn pow_candidate(b: BlockV, n: i32) -> Seq<char> {
    sha256_hex_of(
        enc_block_content(b.prev_block_hash, b.transactions, b.timestamp, TARGET_HEXS as u64, n),
    )
}

/// The digest the mining loop searches over, at the block's own nonce.
pub open spec fn block_pow_hash(b: BlockV) -> Seq<char> {
    pow_candidate(b, b.nonce)
}

/// The difficulty predicate: 64 hex characters, the first `TARGET_HEXS` of
/// them `'0'`.
pub open spec fn meets_difficulty(h: Seq<char>) -> bool {
    h.len() == 64 && forall|i: int| 0 <= i < TARGET_HEXS ==> h[i] == '0'
}

/// A mined block: its stored hash is the proof-of-work digest and meets the
/// difficulty.
pub open spec fn block_wf(b: BlockV) -> bool {
    b.hash == block_pow_hash(b) && meets_difficulty(b.hash)
}

/// The canonical encoding of a whole block, field by field in declaration
/// order.
pub open spec fn enc_block(b: BlockV) -> Seq<u8> {
    le128(b.timestamp) + enc_list(b.transactions, tx_encoder()) + enc_str(b.prev_block_hash)
        + enc_str(b.hash) + enc_i32(b.nonce) + enc_i32(b.height)
}

/// Every length inside the block fits its 64-bit prefix.
pub open spec fn wf_block_v(b: BlockV) -> bool {
    &&& fits_len(b.transactions.len())
    &&& forall|i: int| 0 <= i < b.transactions.len() ==> wf_txv(#[trigger] b.transactions[i])
    &&& fits_len(encode_utf8(b.prev_block_hash).len())
    &&& fits_len(encode_utf8(b.hash).len())
}

#[verifier::opaque]
pub open spec fn parse_block(data: Seq<u8>) -> Option<(BlockV, int)> {
    match parse_u128(data) {
        Some((timestamp, u1)) => match parse_list(data.skip(u1), tx_parser()) {
            Some((txs, u2)) => match parse_str(data.skip(u1 + u2)) {
                Some((prev, u3)) => match parse_str(data.skip(u1 + u2 + u3)) {
                    Some((hash, u4)) => match parse_i32(data.skip(u1 + u2 + u3 + u4)) {
                        Some((nonce, u5)) => match parse_i32(
                            data.skip(u1 + u2 + u3 + u4 + u5),
                        ) {
                            Some((height, u6)) => Some(
                                (
                                    BlockV {
                                        timestamp,
                                        transactions: txs,
                                        prev_block_hash: prev,
                                        hash,
                                        nonce,
                                        height,
                                    },
                                    u1 + u2 + u3 + u4 + u5 + u6,
                                ),
                            ),
                            None => None,
                        },
                        None => None,
                    },
                    None => None,
                },
                None => None,
            },
            None => None,
        },
        None => None,
    }
}

pub proof fn lemma_parse_enc_block(b: BlockV, rest: Seq<u8>)
    requires
        wf_block_v(b),
    ensures
        parse_block(enc_block(b) + rest) == Some((b, enc_block(b).len() as int)),
{
    reveal(parse_block);
    let e1 = le128(b.timestamp);
    let e2 = enc_list(b.transactions, tx_encoder());
    let e3 = enc_str(b.prev_block_hash);
    let e4 = enc_str(b.hash);
    let e5 = enc_i32(b.nonce);
    let e6 = enc_i32(b.height);
    let data = enc_block(b) + rest;
    lemma_concat_assoc(e1 + e2 + e3 + e4 + e5, e6, rest);
    lemma_concat_assoc(e1 + e2 + e3 + e4, e5, e6 + rest);
    lemma_concat_assoc(e1 + e2 + e3, e4, e5 + (e6 + rest));
    lemma_concat_assoc(e1 + e2, e3, e4 + (e5 + (e6 + rest)));
    lemma_concat_assoc(e1, e2, e3 + (e4 + (e5 + (e6 + rest))));
    assert(data == e1 + (e2 + (e3 + (e4 + (e5 + (e6 + rest))))));
    lemma_parse_le128(b.timestamp, e2 + (e3 + (e4 + (e5 + (e6 + rest)))));
    lemma_skip_of_concat(e1, e2 + (e3 + (e4 + (e5 + (e6 + rest)))));
    assert(data.skip(16) == e2 + (e3 + (e4 + (e5 + (e6 + rest)))));
    assert forall|i: int, r: Seq<u8>| 0 <= i < b.transactions.len() implies #[trigger] tx_parser()(
        tx_encoder()(b.transactions[i]) + r,
    ) == Some((b.transactions[i], tx_encoder()(b.transactions[i]).len() as int)) by {
        lemma_parse_enc_tx(b.transactions[i], r);
    }
    lemma_parse_enc_list(
        b.transactions,
        e3 + (e4 + (e5 + (e6 + rest))),
        tx_encoder(),
        tx_parser(),
    );
    assert(data.skip(16 + e2.len() as int) == e3 + (e4 + (e5 + (e6 + rest)))) by {
        lemma_skip_of_concat(e2, e3 + (e4 + (e5 + (e6 + rest))));
        vstd::seq_lib::lemma_seq_skip_of_skip(data, 16, e2.len() as int);
    }
    lemma_parse_enc_str(b.prev_block_hash, e4 + (e5 + (e6 + rest)));
    assert(data.skip(16 + e2.len() as int + e3.len() as int) == e4 + (e5 + (e6 + rest))) by {
        lemma_skip_of_concat(e3, e4 + (e5 + (e6 + rest)));
        vstd::seq_lib::lemma_seq_skip_of_skip(data, 16 + e2.len() as int, e3.len() as int);
    }
    lemma_parse_enc_str(b.hash, e5 + (e6 + rest));
    assert(data.skip(16 + e2.len() as int + e3.len() as int + e4.len() as int) == e5 + (e6
        + rest)) by {
        lemma_skip_of_concat(e4, e5 + (e6 + rest));
        vstd::seq_lib::lemma_seq_skip_of_skip(
            data,
            16 + e2.len() as int + e3.len() as int,
            e4.len() as int,
        );
    }
    lemma_parse_enc_i32(b.nonce, e6 + rest);
    assert(data.skip(16 + e2.len() as int + e3.len() as int + e4.len() as int + 4) == e6
        + rest) by {
        lemma_skip_of_concat(e5, e6 + rest);
        vstd::seq_lib::lemma_seq_skip_of_skip(
            data,
            16 + e2.len() as int + e3.len() as int + e4.len() as int,
            4,
        );
    }
    lemma_parse_enc_i32(b.height, rest);
    assert(BlockV {
        timestamp: b.timestamp,
        transactions: b.transactions,
        prev_block_hash: b.prev_block_hash,
        hash: b.hash,
        nonce: b.nonce,
        height: b.height,
    } =~= b);
}

/// Append the count-prefixed encoding of a transaction list.
pub fn encode_txs(out: &mut Vec<u8>, l: &Vec<Transaction>)
    ensures
        final(out)@ == old(out)@ + enc_list(l.deep_view(), tx_encoder()),
        fits_len(l.deep_view().len()),
        forall|i: int| 0 <= i < l.deep_view().len() ==> wf_txv(#[trigger] l.deep_view()[i]),
{
    let ghost lv = l.deep_view();
    write_u64(out, l.len() as u64);
    let mut i: usize = 0;
    while i < l.len()
        invariant
            i <= lv.len(),
            lv == l.deep_view(),
            lv.len() == l@.len(),
            out@ == old(out)@ + le64(lv.len() as u64) + enc_list_items(
                lv.take(i as int),
                tx_encoder(),
            ),
            forall|j: int| 0 <= j < i ==> wf_txv(#[trigger] lv[j]),
        decreases l@.len() - i,
    {
        let e = tx_encoding(&l[i]);
        write_raw(out, &e);
        proof {
            assert(lv[i as int] == l@[i as int]@);
            lemma_enc_list_items_push(lv.take(i as int), lv[i as int], tx_encoder());
            assert(lv.take(i + 1) =~= lv.take(i as int).push(lv[i as int]));
            assert(out@ =~= old(out)@ + le64(lv.len() as u64) + enc_list_items(
                lv.take(i + 1),
                tx_encoder(),
            ));
        }
        i = i + 1;
    }
    proof {
        assert(lv.take(lv.len() as int) =~= lv);
        assert(out@ =~= old(out)@ + enc_list(lv, tx_encoder()));
    }
}

fn read_tx_items(data: &Vec<u8>, pos: usize, n: u64) -> (r: Option<(Vec<Transaction>, usize)>)
    requires
        pos <= data@.len(),
    ensures
        match parse_list_items(data@.skip(pos as int), n as nat, tx_parser()) {
            Some(vp) => r matches Some(x) && x.0.deep_view() == vp.0 && x.1 as int == pos + vp.1
                && pos <= x.1 && x.1 <= data@.len(),
            None => r is None,
        },
    decreases n,
{
    proof {
        reveal_with_fuel(crate::codec::parse_list_items, 2);
    }
    if n == 0 {
        let empty: Vec<Transaction> = Vec::new();
        assert(empty.deep_view() =~= Seq::<TxV>::empty());
        Some((empty, pos))
    } else {
        let ghost tail = data@.skip(pos as int);
        let (v, p1) = match read_tx(data, pos) {
            Some(x) => x,
            None => {
                return None;
            },
        };
        assert(data@.skip(p1 as int) =~= tail.skip(p1 - pos));
        let (mut l, p2) = match read_tx_items(data, p1, n - 1) {
            Some(x) => x,
            None => {
                return None;
            },
        };
        let ghost lv = l.deep_view();
        l.insert(0, v);
        assert(l.deep_view() =~= seq![v@] + lv);
        Some((l, p2))
    }
}

/// Read a whole block record at `pos`; mirrors [`parse_block`].
pub fn read_block(data: &Vec<u8>, pos: usize) -> (r: Option<(Block, usize)>)
    requires
        pos <= data@.len(),
    ensures
        match parse_block(data@.skip(pos as int)) {
            Some(vp) => r matches Some(x) && x.0@ == vp.0 && x.1 as int == pos + vp.1
                && pos <= x.1 && x.1 <= data@.len(),
            None => r is None,
        },
{
    proof {
        reveal(parse_block);
        reveal(crate::codec::parse_list);
        reveal(crate::codec::parse_u64);
    }
    let ghost tail = data@.skip(pos as int);
    let (timestamp, p1) = match read_u128(data, pos) {
        Some(x) => x,
        None => {
            return None;
        },
    };
    assert(data@.skip(p1 as int) =~= tail.skip(p1 - pos));
    let (n_txs, q1) = match read_u64(data, p1) {
        Some(x) => x,
        None => {
            return None;
        },
    };
    assert(data@.skip(q1 as int) =~= tail.skip(p1 - pos).skip(8));
    let (transactions, p2) = match read_tx_items(data, q1, n_txs) {
        Some(x) => x,
        None => {
            return None;
        },
    };
    assert(data@.skip(p2 as int) =~= tail.skip(p2 - pos));
    let (prev_block_hash, p3) = match read_str(data, p2) {
        Some(x) => x,
        None => {
            return None;
        },
    };
    assert(data@.skip(p3 as int) =~= tail.skip(p3 - pos));
    let (hash, p4) = match read_str(data, p3) {
        Some(x) => x,
        None => {
            return None;
        },
    };
    assert(data@.skip(p4 as int) =~= tail.skip(p4 - pos));
    let (nonce, p5) = match read_i32(data, p4) {
        Some(x) => x,
        None => {
            return None;
        },
    };
    assert(data@.skip(p5 as int) =~= tail.skip(p5 - pos));
    let (height, p6) = match read_i32(data, p5) {
        Some(x) => x,
        None => {
            return None;
        },
    };
    Some((Block { timestamp, transactions, prev_block_hash, hash, nonce, height }, p6))
}

impl Block {
    /// The canonical encoding of this block.
    pub fn block_encoding(&self) -> (r: Vec<u8>)
        ensures
            r@ == enc_block(self@),
            wf_block_v(self@),
    {
        let mut out: Vec<u8> = Vec::new();
        write_u128(&mut out, self.timestamp);
        encode_txs(&mut out, &self.transactions);
        write_str(&mut out, &self.prev_block_hash);
        write_str(&mut out, &self.hash);
        write_i32(&mut out, self.nonce);
        write_i32(&mut out, self.height);
        assert(out@ =~= enc_block(self@));
        out
    }

    /// Decode a full block record; trailing bytes are refused.
    pub fn block_decoding(data: &Vec<u8>) -> (r: Option<Block>)
        ensures
            match parse_block(data@) {
                Some(vp) => if vp.1 == data@.len() {
                    r matches Some(b) && b@ == vp.0
                } else {
                    r is None
                },
                None => r is None,
            },
    {
        assert(data@.skip(0) =~= data@);
        match read_block(data, 0) {
            Some((b, end)) => {
                if end == data.len() {
                    Some(b)
                } else {
                    None
                }
            },
            None => None,
        }
    }

    /// The proof-of-work pre-image at the block's current nonce.
    pub fn prepare_hash_data(&self) -> (r: Vec<u8>)
        ensures
            r@ == enc_block_content(
                self@.prev_block_hash,
                self@.transactions,
                self@.timestamp,
                TARGET_HEXS as u64,
                self@.nonce,
            ),
    {
        let mut out: Vec<u8> = Vec::new();
        write_str(&mut out, &self.prev_block_hash);
        encode_txs(&mut out, &self.transactions);
        write_u128(&mut out, self.timestamp);
        write_u64(&mut out, TARGET_HEXS as u64);
        write_i32(&mut out, self.nonce);
        assert(out@ =~= enc_block_content(
            self@.prev_block_hash,
            self@.transactions,
            self@.timestamp,
            TARGET_HEXS as u64,
            self@.nonce,
        ));
        out
    }

    /// Whether the digest at the current nonce meets the difficulty.
    pub fn validate(&self) -> (r: bool)
        ensures
            r == meets_difficulty(block_pow_hash(self@)),
    {
        let data = self.prepare_hash_data();
        let digest = sha256_hex(&data);
        let mut i: usize = 0;
        while i < TARGET_HEXS
            invariant
                i <= TARGET_HEXS,
                digest@ == block_pow_hash(self@),
                digest@.len() == 64,
                forall|j: int| 0 <= j < i ==> digest@[j] == '0',
            decreases TARGET_HEXS - i,
        {
            if digest.as_str().get_char(i) != '0' {
                return false;
            }
            i = i + 1;
        }
        true
    }

    /// Search nonces upward until the digest meets the difficulty, then
    /// store that digest as the block's hash. Fails only when every nonce
    /// from the starting one up is exhausted without a hit.
    pub fn proof_of_work(&mut self) -> (r: Result<(), ChainError>)
        ensures
            final(self)@.timestamp == old(self)@.timestamp,
            final(self)@.transactions == old(self)@.transactions,
            final(self)@.prev_block_hash == old(self)@.prev_block_hash,
            final(self)@.height == old(self)@.height,
            r is Ok ==> block_wf(final(self)@) && final(self)@.nonce >= old(self)@.nonce && (
            forall|n: i32|
                old(self)@.nonce <= n < final(self)@.nonce ==> !meets_difficulty(
                    #[trigger] pow_candidate(old(self)@, n),
                )),
            r is Err ==> r == Err::<(), ChainError>(ChainError::CryptoError) && (forall|n: i32|
                old(self)@.nonce <= n <= i32::MAX ==> !meets_difficulty(
                    #[trigger] pow_candidate(old(self)@, n),
                )),
    {
        loop
            invariant
                self@.timestamp == old(self)@.timestamp,
                self@.transactions == old(self)@.transactions,
                self@.prev_block_hash == old(self)@.prev_block_hash,
                self@.height == old(self)@.height,
                self@.nonce >= old(self)@.nonce,
                forall|n: i32|
                    old(self)@.nonce <= n < self@.nonce ==> !meets_difficulty(
                        #[trigger] pow_candidate(old(self)@, n),
                    ),
            decreases i32::MAX - self@.nonce,
        {
            let hit = self.validate();
            proof {
                assert(pow_candidate(old(self)@, self@.nonce) == block_pow_hash(self@));
            }
            if hit {
                let data = self.prepare_hash_data();
                let digest = sha256_hex(&data);
                self.hash = digest;
                return Ok(());
            }
            if self.nonce == i32::MAX {
                return Err(ChainError::CryptoError);
            }
            self.nonce = self.nonce + 1;
        }
    }

    /// A mined block over the given transactions, timestamped now.
    pub fn new_block(transactions: Vec<Transaction>, prev_block_hash: String, height: i32) -> (r:
        Result<Block, ChainError>)
        ensures
            r matches Ok(b) ==> block_wf(b@) && b@.transactions == transactions.deep_view()
                && b@.prev_block_hash == prev_block_hash@ && b@.height == height,
            r is Err ==> r == Err::<Block, ChainError>(ChainError::CryptoError),
    {
        let timestamp = current_millis();
        let mut block = Block {
            timestamp,
            transactions,
            prev_block_hash,
            hash: String::new(),
            nonce: 0,
            height,
        };
        match block.proof_of_work() {
            Ok(()) => Ok(block),
            Err(e) => Err(e),
        }
    }

    /// The genesis block: height zero, empty previous hash, one coinbase.
    pub fn new_genesis_block(coinbase: Transaction) -> (r: Result<Block, ChainError>)
        ensures
            r matches Ok(b) ==> block_wf(b@) && b@.transactions == seq![coinbase@]
                && b@.prev_block_hash.len() == 0 && b@.height == 0,
            r is Err ==> r == Err::<Block, ChainError>(ChainError::CryptoError),
    {
        let ghost cv = coinbase@;
        let mut txs: Vec<Transaction> = Vec::new();
        txs.push(coinbase);
        proof {
            assert(txs.deep_view() =~= seq![cv]);
        }
        Block::new_block(txs, String::new(), 0)
    }

    /// The block's own hash, hex.
    pub fn get_hash(&self) -> (r: String)
        ensures
            r@ == self@.hash,
    {
        self.hash.clone()
    }

    /// The previous block's hash, hex; empty for genesis.
    pub fn get_prev_hash(&self) -> (r: String)
        ensures
            r@ == self@.prev_block_hash,
    {
        self.prev_block_hash.clone()
    }

    /// The block's transactions.
    pub fn get_transaction(&self) -> (r: &Vec<Transaction>)
        ensures
            r.deep_view() == self@.transactions,
    {
        &self.transactions
    }

    /// The block's height; zero for genesis.
    pub fn get_height(&self) -> (r: i32)
        ensures
            r == self@.height,
    {
        self.height
    }
}

} // verus!
