//! Transactions: input and output records, the canonical transaction
//! encoding, coinbase construction, and the trimmed-copy signing protocol.

use vstd::prelude::*;
use vstd::utf8::encode_utf8;

use crate::address::{addr_decode, decode_address};
use crate::crypto::{
    ed25519_key_ok, ed25519_pk_of, ed25519_sig_of, ed25519_sig_ok, ed25519_sign, sha256_hex,
    sha256_hex_of,
};
use crate::errors::ChainError;
use crate::wallets::{hash_pub_key, pub_key_hash_of};
use crate::codec::{
    clone_bytes, enc_bytes, enc_i32, enc_list, enc_list_items, enc_str, le64, lemma_concat_assoc,
    lemma_enc_list_items_push, lemma_skip_of_concat, slices_eq,
    lemma_parse_enc_bytes, lemma_parse_enc_i32, lemma_parse_enc_list, lemma_parse_enc_str,
    parse_bytes, parse_i32, parse_list, parse_list_items, parse_str, read_bytes, read_i32,
    read_str, read_u64, write_bytes, write_i32, write_str, write_u64,
};

verus! {

/// A reference to a previous transaction's output, with the witness that may
/// spend it.
#[derive(Debug, Clone)]
pub struct TXInput {
    pub txid: String,
    pub vout: i32,
    pub signature: Vec<u8>,
    pub pub_key: Vec<u8>,
}

/// An amount locked under a public-key hash.
#[derive(Debug, Clone)]
pub struct TXOutput {
    pub value: i32,
    pub pub_key_hash: Vec<u8>,
}

/// The outputs of one transaction that are still unspent, each paired with
/// its output index inside that transaction.
#[derive(Debug, Clone)]
pub struct TXOutputs {
    pub outputs: Vec<(i32, TXOutput)>,
}

/// A transfer: an id over the canonical encoding, inputs and outputs.
#[derive(Debug, Clone)]
pub struct Transaction {
    pub id: String,
    pub vin: Vec<TXInput>,
    pub vout: Vec<TXOutput>,
}

// ---------------------------------------------------------------------------
// Mathematical views
// ---------------------------------------------------------------------------

#[verifier::ext_equal]
pub ghost struct TxInV {
    pub txid: Seq<char>,
    pub vout: i32,
    pub signature: Seq<u8>,
    pub pub_key: Seq<u8>,
}

#[verifier::ext_equal]
pub ghost struct TxOutV {
    pub value: i32,
    pub pub_key_hash: Seq<u8>,
}

#[verifier::ext_equal]
pub ghost struct TxV {
    pub id: Seq<char>,
    pub vin: Seq<TxInV>,
    pub vout: Seq<TxOutV>,
}

impl View for TXInput {
    type V = TxInV;

    open spec fn view(&self) -> TxInV {
        TxInV {
            txid: self.txid@,
            vout: self.vout,
            signature: self.signature@,
            pub_key: self.pub_key@,
        }
    }
}

impl DeepView for TXInput {
    type V = TxInV;

    open spec fn deep_view(&self) -> TxInV {
        self.view()
    }
}

impl View for TXOutput {
    type V = TxOutV;

    open spec fn view(&self) -> TxOutV {
        TxOutV { value: self.value, pub_key_hash: self.pub_key_hash@ }
    }
}

impl DeepView for TXOutput {
    type V = TxOutV;

    open spec fn deep_view(&self) -> TxOutV {
        self.view()
    }
}

impl View for Transaction {
    type V = TxV;

    open spec fn view(&self) -> TxV {
        TxV { id: self.id@, vin: self.vin.deep_view(), vout: self.vout.deep_view() }
    }
}

impl DeepView for Transaction {
    type V = TxV;

    open spec fn deep_view(&self) -> TxV {
        self.view()
    }
}

impl View for TXOutputs {
    type V = Seq<(i32, TxOutV)>;

    open spec fn view(&self) -> Seq<(i32, TxOutV)> {
        self.outputs.deep_view()
    }
}

// ---------------------------------------------------------------------------
// Canonical encoding
// ---------------------------------------------------------------------------

/// Whether a length fits the 64-bit prefix of the encoding.
pub open spec fn fits_len(n: nat) -> bool {
    n < 0x1_0000_0000_0000_0000
}

pub open spec fn enc_txin(v: TxInV) -> Seq<u8> {
    enc_str(v.txid) + enc_i32(v.vout) + enc_bytes(v.signature) + enc_bytes(v.pub_key)
}

pub open spec fn enc_txout(v: TxOutV) -> Seq<u8> {
    enc_i32(v.value) + enc_bytes(v.pub_key_hash)
}

pub open spec fn txin_encoder() -> spec_fn(TxInV) -> Seq<u8> {
    |v: TxInV| enc_txin(v)
}

pub open spec fn txout_encoder() -> spec_fn(TxOutV) -> Seq<u8> {
    |v: TxOutV| enc_txout(v)
}

/// The canonical byte encoding of a whole transaction.
pub open spec fn enc_tx(t: TxV) -> Seq<u8> {
    enc_str(t.id) + enc_list(t.vin, txin_encoder()) + enc_list(t.vout, txout_encoder())
}

pub open spec fn wf_txin(v: TxInV) -> bool {
    &&& fits_len(encode_utf8(v.txid).len())
    &&& fits_len(v.signature.len())
    &&& fits_len(v.pub_key.len())
}

pub open spec fn wf_txout(v: TxOutV) -> bool {
    fits_len(v.pub_key_hash.len())
}

/// Every length inside the transaction fits its 64-bit prefix; holds of the
/// view of every in-memory transaction.
pub open spec fn wf_txv(t: TxV) -> bool {
    &&& fits_len(encode_utf8(t.id).len())
    &&& fits_len(t.vin.len())
    &&& fits_len(t.vout.len())
    &&& forall|i: int| 0 <= i < t.vin.len() ==> wf_txin(#[trigger] t.vin[i])
    &&& forall|i: int| 0 <= i < t.vout.len() ==> wf_txout(#[trigger] t.vout[i])
}

// ---------------------------------------------------------------------------
// Parsing
// ---------------------------------------------------------------------------

#[verifier::opaque]
pub open spec fn parse_txin(data: Seq<u8>) -> Option<(TxInV, int)> {
    match parse_str(data) {
        Some((txid, u1)) => match parse_i32(data.skip(u1)) {
            Some((vout, u2)) => match parse_bytes(data.skip(u1 + u2)) {
                Some((sig, u3)) => match parse_bytes(data.skip(u1 + u2 + u3)) {
                    Some((pk, u4)) => Some(
                        (
                            TxInV { txid, vout, signature: sig, pub_key: pk },
                            u1 + u2 + u3 + u4,
                        ),
                    ),
                    None => None,
                },
                None => None,
            },
            None => None,
        },
        None => None,
    }
}

#[verifier::opaque]
pub open spec fn parse_txout(data: Seq<u8>) -> Option<(TxOutV, int)> {
    match parse_i32(data) {
        Some((value, u1)) => match parse_bytes(data.skip(u1)) {
            Some((pkh, u2)) => Some((TxOutV { value, pub_key_hash: pkh }, u1 + u2)),
            None => None,
        },
        None => None,
    }
}

pub open spec fn txin_parser() -> spec_fn(Seq<u8>) -> Option<(TxInV, int)> {
    |d: Seq<u8>| parse_txin(d)
}

pub open spec fn txout_parser() -> spec_fn(Seq<u8>) -> Option<(TxOutV, int)> {
    |d: Seq<u8>| parse_txout(d)
}

#[verifier::opaque]
pub open spec fn parse_tx(data: Seq<u8>) -> Option<(TxV, int)> {
    match parse_str(data) {
        Some((id, u1)) => match parse_list(data.skip(u1), txin_parser()) {
            Some((vin, u2)) => match parse_list(data.skip(u1 + u2), txout_parser()) {
                Some((vout, u3)) => Some((TxV { id, vin, vout }, u1 + u2 + u3)),
                None => None,
            },
            None => None,
        },
        None => None,
    }
}

#[verifier::rlimit(100)]
pub proof fn lemma_parse_enc_txin(v: TxInV, rest: Seq<u8>)
    requires
        wf_txin(v),
    ensures
        parse_txin(enc_txin(v) + rest) == Some((v, enc_txin(v).len() as int)),
{
    reveal(parse_txin);
    let e1 = enc_str(v.txid);
    let e2 = enc_i32(v.vout);
    let e3 = enc_bytes(v.signature);
    let e4 = enc_bytes(v.pub_key);
    let data = enc_txin(v) + rest;
    lemma_concat_assoc(e1 + e2 + e3, e4, rest);
    lemma_concat_assoc(e1 + e2, e3, e4 + rest);
    lemma_concat_assoc(e1, e2, e3 + (e4 + rest));
    assert(data == e1 + (e2 + (e3 + (e4 + rest))));
    lemma_parse_enc_str(v.txid, e2 + (e3 + (e4 + rest)));
    lemma_skip_of_concat(e1, e2 + (e3 + (e4 + rest)));
    assert(data.skip(e1.len() as int) == e2 + (e3 + (e4 + rest)));
    lemma_parse_enc_i32(v.vout, e3 + (e4 + rest));
    assert(data.skip(e1.len() as int + 4) == e3 + (e4 + rest)) by {
        lemma_skip_of_concat(e2, e3 + (e4 + rest));
        vstd::seq_lib::lemma_seq_skip_of_skip(data, e1.len() as int, 4);
    }
    lemma_parse_enc_bytes(v.signature, e4 + rest);
    assert(data.skip(e1.len() as int + 4 + e3.len() as int) == e4 + rest) by {
        lemma_skip_of_concat(e3, e4 + rest);
        vstd::seq_lib::lemma_seq_skip_of_skip(data, e1.len() as int + 4, e3.len() as int);
    }
    lemma_parse_enc_bytes(v.pub_key, rest);
    assert(TxInV { txid: v.txid, vout: v.vout, signature: v.signature, pub_key: v.pub_key } =~= v);
}

#[verifier::rlimit(100)]
pub proof fn lemma_parse_enc_txout(v: TxOutV, rest: Seq<u8>)
    requires
        wf_txout(v),
    ensures
        parse_txout(enc_txout(v) + rest) == Some((v, enc_txout(v).len() as int)),
{
    reveal(parse_txout);
    let e1 = enc_i32(v.value);
    let e2 = enc_bytes(v.pub_key_hash);
    let data = enc_txout(v) + rest;
    lemma_concat_assoc(e1, e2, rest);
    assert(data == e1 + (e2 + rest));
    lemma_parse_enc_i32(v.value, e2 + rest);
    lemma_skip_of_concat(e1, e2 + rest);
    lemma_parse_enc_bytes(v.pub_key_hash, rest);
}

#[verifier::rlimit(100)]
pub proof fn lemma_parse_enc_tx(t: TxV, rest: Seq<u8>)
    requires
        wf_txv(t),
    ensures
        parse_tx(enc_tx(t) + rest) == Some((t, enc_tx(t).len() as int)),
{
    reveal(parse_tx);
    let e1 = enc_str(t.id);
    let e2 = enc_list(t.vin, txin_encoder());
    let e3 = enc_list(t.vout, txout_encoder());
    let data = enc_tx(t) + rest;
    lemma_concat_assoc(e1 + e2, e3, rest);
    lemma_concat_assoc(e1, e2, e3 + rest);
    assert(data == e1 + (e2 + (e3 + rest)));
    lemma_parse_enc_str(t.id, e2 + (e3 + rest));
    lemma_skip_of_concat(e1, e2 + (e3 + rest));
    assert(data.skip(e1.len() as int) == e2 + (e3 + rest));
    assert forall|i: int, r: Seq<u8>| 0 <= i < t.vin.len() implies #[trigger] txin_parser()(
        txin_encoder()(t.vin[i]) + r,
    ) == Some((t.vin[i], txin_encoder()(t.vin[i]).len() as int)) by {
        lemma_parse_enc_txin(t.vin[i], r);
    }
    lemma_parse_enc_list(t.vin, e3 + rest, txin_encoder(), txin_parser());
    assert(data.skip(e1.len() as int + e2.len() as int) == e3 + rest) by {
        lemma_skip_of_concat(e2, e3 + rest);
        vstd::seq_lib::lemma_seq_skip_of_skip(data, e1.len() as int, e2.len() as int);
    }
    assert forall|i: int, r: Seq<u8>| 0 <= i < t.vout.len() implies #[trigger] txout_parser()(
        txout_encoder()(t.vout[i]) + r,
    ) == Some((t.vout[i], txout_encoder()(t.vout[i]).len() as int)) by {
        lemma_parse_enc_txout(t.vout[i], r);
    }
    lemma_parse_enc_list(t.vout, rest, txout_encoder(), txout_parser());
    assert(TxV { id: t.id, vin: t.vin, vout: t.vout } =~= t);
}

/// Law: a transaction, its id included, is recovered exactly from its
/// canonical encoding; in particular the id is stable under a
/// serialize/deserialize round trip.
pub proof fn lemma_tx_round_trip(t: TxV)
    requires
        wf_txv(t),
    ensures
        parse_tx(enc_tx(t)) == Some((t, enc_tx(t).len() as int)),
{
    lemma_parse_enc_tx(t, Seq::<u8>::empty());
    assert(enc_tx(t) + Seq::<u8>::empty() =~= enc_tx(t));
}

/// Two transactions with the same canonical encoding are the same.
pub proof fn lemma_enc_tx_injective(a: TxV, b: TxV)
    requires
        wf_txv(a),
        wf_txv(b),
        enc_tx(a) == enc_tx(b),
    ensures
        a == b,
{
    lemma_parse_enc_tx(a, Seq::<u8>::empty());
    lemma_parse_enc_tx(b, Seq::<u8>::empty());
    assert(enc_tx(a) + Seq::<u8>::empty() =~= enc_tx(b) + Seq::<u8>::empty());
}

// ---------------------------------------------------------------------------
// Executable encoder
// ---------------------------------------------------------------------------

pub fn encode_txin(out: &mut Vec<u8>, t: &TXInput)
    ensures
        final(out)@ == old(out)@ + enc_txin(t@),
        wf_txin(t@),
{
    write_str(out, &t.txid);
    write_i32(out, t.vout);
    write_bytes(out, &t.signature);
    write_bytes(out, &t.pub_key);
    proof {
        vstd::std_specs::vec::axiom_spec_len(&t.signature);
        vstd::std_specs::vec::axiom_spec_len(&t.pub_key);
    }
    assert(out@ =~= old(out)@ + enc_txin(t@));
}

pub fn encode_txout(out: &mut Vec<u8>, t: &TXOutput)
    ensures
        final(out)@ == old(out)@ + enc_txout(t@),
        wf_txout(t@),
{
    write_i32(out, t.value);
    write_bytes(out, &t.pub_key_hash);
    proof {
        vstd::std_specs::vec::axiom_spec_len(&t.pub_key_hash);
    }
    assert(out@ =~= old(out)@ + enc_txout(t@));
}

pub fn encode_txins(out: &mut Vec<u8>, l: &Vec<TXInput>)
    ensures
        final(out)@ == old(out)@ + enc_list(l.deep_view(), txin_encoder()),
        fits_len(l.deep_view().len()),
        forall|i: int| 0 <= i < l.deep_view().len() ==> wf_txin(#[trigger] l.deep_view()[i]),
{
    let ghost lv = l.deep_view();
    write_u64(out, l.len() as u64);
    let mut i: usize = 0;
    while i < l.len()
        invariant
            i <= lv.len(),
            lv == l.deep_view(),
            lv.len() == l@.len(),
            out@ == old(out)@ + le64(lv.len() as u64) + enc_list_items(
                lv.take(i as int),
                txin_encoder(),
            ),
            forall|j: int| 0 <= j < i ==> wf_txin(#[trigger] lv[j]),
        decreases l@.len() - i,
    {
        encode_txin(out, &l[i]);
        proof {
            assert(lv[i as int] == l@[i as int]@);
            lemma_enc_list_items_push(lv.take(i as int), lv[i as int], txin_encoder());
            assert(lv.take(i + 1) =~= lv.take(i as int).push(lv[i as int]));
            assert(out@ =~= old(out)@ + le64(lv.len() as u64) + enc_list_items(
                lv.take(i + 1),
                txin_encoder(),
            ));
        }
        i = i + 1;
    }
    proof {
        assert(lv.take(lv.len() as int) =~= lv);
        assert(out@ =~= old(out)@ + enc_list(lv, txin_encoder()));
    }
}

pub fn encode_txouts(out: &mut Vec<u8>, l: &Vec<TXOutput>)
    ensures
        final(out)@ == old(out)@ + enc_list(l.deep_view(), txout_encoder()),
        fits_len(l.deep_view().len()),
        forall|i: int| 0 <= i < l.deep_view().len() ==> wf_txout(#[trigger] l.deep_view()[i]),
{
    let ghost lv = l.deep_view();
    write_u64(out, l.len() as u64);
    let mut i: usize = 0;
    while i < l.len()
        invariant
            i <= lv.len(),
            lv == l.deep_view(),
            lv.len() == l@.len(),
            out@ == old(out)@ + le64(lv.len() as u64) + enc_list_items(
                lv.take(i as int),
                txout_encoder(),
            ),
            forall|j: int| 0 <= j < i ==> wf_txout(#[trigger] lv[j]),
        decreases l@.len() - i,
    {
        encode_txout(out, &l[i]);
        proof {
            assert(lv[i as int] == l@[i as int]@);
            lemma_enc_list_items_push(lv.take(i as int), lv[i as int], txout_encoder());
            assert(lv.take(i + 1) =~= lv.take(i as int).push(lv[i as int]));
            assert(out@ =~= old(out)@ + le64(lv.len() as u64) + enc_list_items(
                lv.take(i + 1),
                txout_encoder(),
            ));
        }
        i = i + 1;
    }
    proof {
        assert(lv.take(lv.len() as int) =~= lv);
        assert(out@ =~= old(out)@ + enc_list(lv, txout_encoder()));
    }
}

/// The canonical encoding of `t`, as bytes.
pub fn tx_encoding(t: &Transaction) -> (r: Vec<u8>)
    ensures
        r@ == enc_tx(t@),
        wf_txv(t@),
{
    let mut out: Vec<u8> = Vec::new();
    write_str(&mut out, &t.id);
    encode_txins(&mut out, &t.vin);
    encode_txouts(&mut out, &t.vout);
    assert(out@ =~= enc_tx(t@));
    out
}

// ---------------------------------------------------------------------------
// Executable decoder
// ---------------------------------------------------------------------------

pub fn read_txin(data: &Vec<u8>, pos: usize) -> (r: Option<(TXInput, usize)>)
    requires
        pos <= data@.len(),
    ensures
        match parse_txin(data@.skip(pos as int)) {
            Some(vp) => r matches Some(x) && x.0@ == vp.0 && x.1 as int == pos + vp.1 && pos <= x.1
                && x.1 <= data@.len(),
            None => r is None,
        },
{
    proof {
        reveal(parse_txin);
    }
    let ghost tail = data@.skip(pos as int);
    let (txid, p1) = match read_str(data, pos) {
        Some(x) => x,
        None => {
            return None;
        },
    };
    assert(data@.skip(p1 as int) =~= tail.skip(p1 - pos));
    let (vout, p2) = match read_i32(data, p1) {
        Some(x) => x,
        None => {
            return None;
        },
    };
    assert(data@.skip(p2 as int) =~= tail.skip(p2 - pos));
    let (signature, p3) = match read_bytes(data, p2) {
        Some(x) => x,
        None => {
            return None;
        },
    };
    assert(data@.skip(p3 as int) =~= tail.skip(p3 - pos));
    let (pub_key, p4) = match read_bytes(data, p3) {
        Some(x) => x,
        None => {
            return None;
        },
    };
    Some((TXInput { txid, vout, signature, pub_key }, p4))
}

pub fn read_txout(data: &Vec<u8>, pos: usize) -> (r: Option<(TXOutput, usize)>)
    requires
        pos <= data@.len(),
    ensures
        match parse_txout(data@.skip(pos as int)) {
            Some(vp) => r matches Some(x) && x.0@ == vp.0 && x.1 as int == pos + vp.1 && pos <= x.1
                && x.1 <= data@.len(),
            None => r is None,
        },
{
    proof {
        reveal(parse_txout);
    }
    let ghost tail = data@.skip(pos as int);
    let (value, p1) = match read_i32(data, pos) {
        Some(x) => x,
        None => {
            return None;
        },
    };
    assert(data@.skip(p1 as int) =~= tail.skip(p1 - pos));
    let (pub_key_hash, p2) = match read_bytes(data, p1) {
        Some(x) => x,
        None => {
            return None;
        },
    };
    Some((TXOutput { value, pub_key_hash }, p2))
}

fn read_txin_items(data: &Vec<u8>, pos: usize, n: u64) -> (r: Option<(Vec<TXInput>, usize)>)
    requires
        pos <= data@.len(),
    ensures
        match parse_list_items(data@.skip(pos as int), n as nat, txin_parser()) {
            Some(vp) => r matches Some(x) && x.0.deep_view() == vp.0 && x.1 as int == pos + vp.1
                && pos <= x.1 && x.1 <= data@.len(),
            None => r is None,
        },
    decreases n,
{
    proof {
        reveal_with_fuel(crate::codec::parse_list_items, 2);
    }
    if n == 0 {
        let empty: Vec<TXInput> = Vec::new();
        assert(empty.deep_view() =~= Seq::<TxInV>::empty());
        Some((empty, pos))
    } else {
        let ghost tail = data@.skip(pos as int);
        let (v, p1) = match read_txin(data, pos) {
            Some(x) => x,
            None => {
                return None;
            },
        };
        assert(data@.skip(p1 as int) =~= tail.skip(p1 - pos));
        let (mut l, p2) = match read_txin_items(data, p1, n - 1) {
            Some(x) => x,
            None => {
                return None;
            },
        };
        let ghost lv = l.deep_view();
        l.insert(0, v);
        assert(l.deep_view() =~= seq![v@] + lv);
        Some((l, p2))
    }
}

fn read_txout_items(data: &Vec<u8>, pos: usize, n: u64) -> (r: Option<(Vec<TXOutput>, usize)>)
    requires
        pos <= data@.len(),
    ensures
        match parse_list_items(data@.skip(pos as int), n as nat, txout_parser()) {
            Some(vp) => r matches Some(x) && x.0.deep_view() == vp.0 && x.1 as int == pos + vp.1
                && pos <= x.1 && x.1 <= data@.len(),
            None => r is None,
        },
    decreases n,
{
    proof {
        reveal_with_fuel(crate::codec::parse_list_items, 2);
    }
    if n == 0 {
        let empty: Vec<TXOutput> = Vec::new();
        assert(empty.deep_view() =~= Seq::<TxOutV>::empty());
        Some((empty, pos))
    } else {
        let ghost tail = data@.skip(pos as int);
        let (v, p1) = match read_txout(data, pos) {
            Some(x) => x,
            None => {
                return None;
            },
        };
        assert(data@.skip(p1 as int) =~= tail.skip(p1 - pos));
        let (mut l, p2) = match read_txout_items(data, p1, n - 1) {
            Some(x) => x,
            None => {
                return None;
            },
        };
        let ghost lv = l.deep_view();
        l.insert(0, v);
        assert(l.deep_view() =~= seq![v@] + lv);
        Some((l, p2))
    }
}

#[verifier::rlimit(50)]
pub fn read_tx(data: &Vec<u8>, pos: usize) -> (r: Option<(Transaction, usize)>)
    requires
        pos <= data@.len(),
    ensures
        match parse_tx(data@.skip(pos as int)) {
            Some(vp) => r matches Some(x) && x.0@ == vp.0 && x.1 as int == pos + vp.1 && pos <= x.1
                && x.1 <= data@.len(),
            None => r is None,
        },
{
    proof {
        reveal(parse_tx);
        reveal(crate::codec::parse_list);
        reveal(crate::codec::parse_u64);
    }
    let ghost tail = data@.skip(pos as int);
    let (id, p1) = match read_str(data, pos) {
        Some(x) => x,
        None => {
            return None;
        },
    };
    assert(data@.skip(p1 as int) =~= tail.skip(p1 - pos));
    let (n_in, q1) = match read_u64(data, p1) {
        Some(x) => x,
        None => {
            return None;
        },
    };
    assert(data@.skip(q1 as int) =~= tail.skip(p1 - pos).skip(8));
    let (vin, p2) = match read_txin_items(data, q1, n_in) {
        Some(x) => x,
        None => {
            return None;
        },
    };
    assert(data@.skip(p2 as int) =~= tail.skip(p2 - pos));
    let (n_out, q2) = match read_u64(data, p2) {
        Some(x) => x,
        None => {
            return None;
        },
    };
    assert(data@.skip(q2 as int) =~= tail.skip(p2 - pos).skip(8));
    let (vout, p3) = match read_txout_items(data, q2, n_out) {
        Some(x) => x,
        None => {
            return None;
        },
    };
    Some((Transaction { id, vin, vout }, p3))
}

/// Decode a full transaction record; trailing bytes are refused.
pub fn tx_decoding(data: &Vec<u8>) -> (r: Option<Transaction>)
    ensures
        match parse_tx(data@) {
            Some(vp) => if vp.1 == data@.len() {
                r matches Some(t) && t@ == vp.0
            } else {
                r is None
            },
            None => r is None,
        },
{
    assert(data@.skip(0) =~= data@);
    match read_tx(data, 0) {
        Some((t, end)) => {
            if end == data.len() {
                Some(t)
            } else {
                None
            }
        },
        None => None,
    }
}



// ---------------------------------------------------------------------------
// Transaction shape and hashing
// ---------------------------------------------------------------------------

/// The fixed coinbase reward.
pub const SUBSIDY: i32 = 10;

/// A coinbase is a single input with an empty previous id and index -1.
pub open spec fn is_coinbase_v(t: TxV) -> bool {
    t.vin.len() == 1 && t.vin[0].txid.len() == 0 && t.vin[0].vout == -1
}

/// The hex SHA-256 digest of the transaction's canonical encoding with the
/// id cleared: the transaction's id.
pub open spec fn tx_hash_of(t: TxV) -> Seq<char> {
    sha256_hex_of(enc_tx(TxV { id: Seq::<char>::empty(), vin: t.vin, vout: t.vout }))
}

/// The id field carries the transaction's own digest.
pub open spec fn tx_id_ok(t: TxV) -> bool {
    t.id == tx_hash_of(t)
}

pub open spec fn trimmed_in(v: TxInV) -> TxInV {
    TxInV { txid: v.txid, vout: v.vout, signature: Seq::<u8>::empty(), pub_key: Seq::<u8>::empty() }
}

/// A shallow copy with every input's signature and public key cleared: the
/// deterministic shape that signatures bind to.
pub open spec fn trimmed_v(t: TxV) -> TxV {
    TxV { id: t.id, vin: t.vin.map_values(|v: TxInV| trimmed_in(v)), vout: t.vout }
}

/// The trimmed transaction with input `i`'s public key replaced by the
/// referenced output's key hash and the id cleared: the signing pre-image.
pub open spec fn with_pk_v(t: TxV, i: int, pkh: Seq<u8>) -> TxV {
    let tr = trimmed_v(t);
    TxV {
        id: Seq::<char>::empty(),
        vin: tr.vin.update(
            i,
            TxInV {
                txid: t.vin[i].txid,
                vout: t.vin[i].vout,
                signature: Seq::<u8>::empty(),
                pub_key: pkh,
            },
        ),
        vout: tr.vout,
    }
}

/// The bytes signed for input `i`: the UTF-8 of the hex digest of the
/// signing pre-image.
pub open spec fn sign_msg(t: TxV, i: int, pkh: Seq<u8>) -> Seq<u8> {
    encode_utf8(sha256_hex_of(enc_tx(with_pk_v(t, i, pkh))))
}

impl Transaction {
    /// Whether this transaction mints the block reward.
    pub fn is_coinbase(&self) -> (r: bool)
        ensures
            r == is_coinbase_v(self@),
    {
        self.vin.len() == 1 && self.vin[0].txid.as_str().is_empty() && self.vin[0].vout == -1
    }

    /// The canonical encoding with the id cleared.
    fn tx_encoding_cleared(&self) -> (r: Vec<u8>)
        ensures
            r@ == enc_tx(TxV { id: Seq::<char>::empty(), vin: self@.vin, vout: self@.vout }),
    {
        let mut out: Vec<u8> = Vec::new();
        let empty_id = String::new();
        write_str(&mut out, &empty_id);
        encode_txins(&mut out, &self.vin);
        encode_txouts(&mut out, &self.vout);
        assert(out@ =~= enc_tx(TxV { id: Seq::<char>::empty(), vin: self@.vin, vout: self@.vout }));
        out
    }

    /// The hex digest of the canonical encoding with the id cleared.
    pub fn hash(&self) -> (r: String)
        ensures
            r@ == tx_hash_of(self@),
    {
        let data = self.tx_encoding_cleared();
        sha256_hex(&data)
    }

    /// Set the id to the transaction's own digest.
    pub fn set_id(&mut self)
        ensures
            final(self)@ == (TxV {
                id: tx_hash_of(old(self)@),
                vin: old(self)@.vin,
                vout: old(self)@.vout,
            }),
            tx_id_ok(final(self)@),
    {
        let h = self.hash();
        self.id = h;
        proof {
            assert(TxV { id: Seq::<char>::empty(), vin: self@.vin, vout: self@.vout } =~= TxV {
                id: Seq::<char>::empty(),
                vin: old(self)@.vin,
                vout: old(self)@.vout,
            });
        }
    }

    /// A copy of the transaction with every input's signature and public key
    /// cleared.
    pub fn trimmed_copy(&self) -> (r: Transaction)
        ensures
            r@ == trimmed_v(self@),
    {
        let mut vin: Vec<TXInput> = Vec::new();
        let mut i: usize = 0;
        while i < self.vin.len()
            invariant
                i <= self@.vin.len(),
                vin.deep_view().len() == i,
                forall|j: int| 0 <= j < i ==> vin.deep_view()[j] == trimmed_in(#[trigger] self@.vin[j]),
            decreases self@.vin.len() - i,
        {
            vin.push(
                TXInput {
                    txid: self.vin[i].txid.clone(),
                    vout: self.vin[i].vout,
                    signature: Vec::new(),
                    pub_key: Vec::new(),
                },
            );
            i = i + 1;
        }
        let vout = clone_outputs(&self.vout);
        let r = Transaction { id: self.id.clone(), vin, vout };
        proof {
            assert(r@.vin =~= trimmed_v(self@).vin);
            assert(r@ =~= trimmed_v(self@));
        }
        r
    }

    /// The trimmed copy with input `idx`'s public key set to `pkh`, id
    /// cleared: the value whose digest input `idx` signs.
    fn trimmed_with_pk(&self, idx: usize, pkh: &Vec<u8>) -> (r: Transaction)
        requires
            idx < self@.vin.len(),
        ensures
            r@ == with_pk_v(self@, idx as int, pkh@),
    {
        let mut vin: Vec<TXInput> = Vec::new();
        let mut i: usize = 0;
        while i < self.vin.len()
            invariant
                idx < self@.vin.len(),
                i <= self@.vin.len(),
                vin.deep_view().len() == i,
                forall|j: int|
                    0 <= j < i && j != idx ==> vin.deep_view()[j] == trimmed_in(
                        #[trigger] self@.vin[j],
                    ),
                i > idx ==> vin.deep_view()[idx as int] == (TxInV {
                    txid: self@.vin[idx as int].txid,
                    vout: self@.vin[idx as int].vout,
                    signature: Seq::<u8>::empty(),
                    pub_key: pkh@,
                }),
            decreases self@.vin.len() - i,
        {
            let pk: Vec<u8> = if i == idx {
                clone_bytes(pkh)
            } else {
                Vec::new()
            };
            vin.push(
                TXInput {
                    txid: self.vin[i].txid.clone(),
                    vout: self.vin[i].vout,
                    signature: Vec::new(),
                    pub_key: pk,
                },
            );
            i = i + 1;
        }
        let vout = clone_outputs(&self.vout);
        let r = Transaction { id: String::new(), vin, vout };
        proof {
            assert(r@.vin =~= with_pk_v(self@, idx as int, pkh@).vin);
            assert(r@ =~= with_pk_v(self@, idx as int, pkh@));
        }
        r
    }
}

/// A fresh copy of an output list.
pub fn clone_outputs(l: &Vec<TXOutput>) -> (r: Vec<TXOutput>)
    ensures
        r.deep_view() == l.deep_view(),
{
    let mut out: Vec<TXOutput> = Vec::new();
    let mut i: usize = 0;
    while i < l.len()
        invariant
            i <= l@.len(),
            out.deep_view().len() == i,
            forall|j: int| 0 <= j < i ==> out.deep_view()[j] == #[trigger] l.deep_view()[j],
        decreases l@.len() - i,
    {
        out.push(TXOutput { value: l[i].value, pub_key_hash: clone_bytes(&l[i].pub_key_hash) });
        i = i + 1;
    }
    proof {
        assert(out.deep_view() =~= l.deep_view());
    }
    out
}

// ---------------------------------------------------------------------------
// Locking
// ---------------------------------------------------------------------------

impl TXInput {
    /// Whether this input's public key hashes to the given key hash.
    pub fn use_key(&self, check_pub_key_hash: &[u8]) -> (r: bool)
        ensures
            r == (pub_key_hash_of(self@.pub_key) == check_pub_key_hash@),
    {
        let h = hash_pub_key(&self.pub_key);
        slices_eq(h.as_slice(), check_pub_key_hash)
    }
}

impl TXOutput {
    /// Whether this output is locked with the given key hash.
    pub fn is_locked_with_key(&self, pub_key_hash: &[u8]) -> (r: bool)
        ensures
            r == (self@.pub_key_hash == pub_key_hash@),
    {
        slices_eq(self.pub_key_hash.as_slice(), pub_key_hash)
    }

    /// Lock this output under the key hash the address decodes to.
    pub fn lock(&mut self, address: &str) -> (r: Result<(), ChainError>)
        ensures
            r is Ok <==> addr_decode(address@) is Some,
            r matches Ok(()) ==> addr_decode(address@) matches Some(b) && final(self)@ == (TxOutV {
                value: old(self)@.value,
                pub_key_hash: b,
            }),
            r is Err ==> *final(self) == *old(self) && r == Err::<(), ChainError>(
                ChainError::CryptoError,
            ),
    {
        match decode_address(address) {
            Some(b) => {
                self.pub_key_hash = b;
                Ok(())
            },
            None => Err(ChainError::CryptoError),
        }
    }

    /// An output paying `value` to the given address.
    pub fn new(value: i32, address: String) -> (r: Result<TXOutput, ChainError>)
        ensures
            r is Ok <==> addr_decode(address@) is Some,
            r matches Ok(o) ==> addr_decode(address@) matches Some(b) && o@ == (TxOutV {
                value: value,
                pub_key_hash: b,
            }),
            r is Err ==> r == Err::<TXOutput, ChainError>(ChainError::CryptoError),
    {
        let mut tx_output = TXOutput { value, pub_key_hash: Vec::new() };
        match tx_output.lock(address.as_str()) {
            Ok(()) => Ok(tx_output),
            Err(e) => Err(e),
        }
    }
}

// ---------------------------------------------------------------------------
// Coinbase
// ---------------------------------------------------------------------------

/// The coinbase payload: the given data, or a default note naming the payee.
pub open spec fn coinbase_data_v(to: Seq<char>, data: Seq<char>) -> Seq<char> {
    if data.len() == 0 {
        "Reward to "@ + to
    } else {
        data
    }
}

/// The coinbase transaction paying the subsidy to `to`, as a value.
pub open spec fn coinbase_v(to: Seq<char>, data: Seq<char>, pkh: Seq<u8>) -> TxV {
    let body = TxV {
        id: Seq::<char>::empty(),
        vin: seq![
            TxInV {
                txid: Seq::<char>::empty(),
                vout: -1i32,
                signature: Seq::<u8>::empty(),
                pub_key: encode_utf8(coinbase_data_v(to, data)),
            },
        ],
        vout: seq![TxOutV { value: SUBSIDY, pub_key_hash: pkh }],
    };
    TxV { id: tx_hash_of(body), vin: body.vin, vout: body.vout }
}

impl Transaction {
    /// The block-reward transaction: one input carrying the payload, one
    /// output paying the subsidy to `to`; fails only if the address does not
    /// decode.
    pub fn new_coinbase(to: String, data: String) -> (r: Result<Transaction, ChainError>)
        ensures
            r is Ok <==> addr_decode(to@) is Some,
            r matches Ok(t) ==> addr_decode(to@) matches Some(b) && t@ == coinbase_v(
                to@,
                data@,
                b,
            ) && is_coinbase_v(t@) && tx_id_ok(t@),
            r is Err ==> r == Err::<Transaction, ChainError>(ChainError::CryptoError),
    {
        let ghost data0 = data@;
        let mut d = data;
        if d.as_str().is_empty() {
            let mut base = String::from_str("Reward to ");
            base.append(to.as_str());
            d = base;
        }
        assert(d@ == coinbase_data_v(to@, data0));
        let pub_key = d.as_str().as_bytes_vec();
        let out = match TXOutput::new(SUBSIDY, to) {
            Ok(o) => o,
            Err(e) => {
                return Err(e);
            },
        };
        let mut vin: Vec<TXInput> = Vec::new();
        vin.push(TXInput { txid: String::new(), vout: -1, signature: Vec::new(), pub_key });
        let mut vout: Vec<TXOutput> = Vec::new();
        vout.push(out);
        let mut tx = Transaction { id: String::new(), vin, vout };
        proof {
            let ghost b = tx@;
            assert(b.vin =~= coinbase_v(to@, data0, b.vout[0].pub_key_hash).vin);
            assert(b.vout =~= coinbase_v(to@, data0, b.vout[0].pub_key_hash).vout);
        }
        tx.set_id();
        proof {
            assert(tx@ =~= coinbase_v(to@, data0, tx@.vout[0].pub_key_hash));
        }
        Ok(tx)
    }
}

// ---------------------------------------------------------------------------
// Signing and verification
// ---------------------------------------------------------------------------

/// The previous transactions an input set refers to.
pub struct PrevTxs {
    pub txs: Vec<Transaction>,
}

impl View for PrevTxs {
    type V = Seq<TxV>;

    open spec fn view(&self) -> Seq<TxV> {
        self.txs.deep_view()
    }
}

/// The first transaction in `l` whose id is `id`.
pub open spec fn find_prev(l: Seq<TxV>, id: Seq<char>) -> Option<TxV>
    decreases l.len(),
{
    if l.len() == 0 {
        None
    } else if l[0].id == id {
        Some(l[0])
    } else {
        find_prev(l.skip(1), id)
    }
}

impl PrevTxs {
    /// Look a previous transaction up by id.
    pub fn get(&self, id: &String) -> (r: Option<&Transaction>)
        ensures
            match find_prev(self@, id@) {
                Some(p) => r matches Some(t) && t@ == p,
                None => r is None,
            },
    {
        proof {
            assert(self@.skip(0) =~= self@);
        }
        let mut i: usize = 0;
        while i < self.txs.len()
            invariant
                i <= self@.len(),
                find_prev(self@, id@) == find_prev(self@.skip(i as int), id@),
            decreases self@.len() - i,
        {
            let ghost pre = self@.skip(i as int);
            if self.txs[i].id == *id {
                assert(pre[0] == self@[i as int]);
                return Some(&self.txs[i]);
            }
            proof {
                assert(pre[0] == self@[i as int]);
                assert(pre.skip(1) =~= self@.skip(i + 1));
            }
            i = i + 1;
        }
        proof {
            assert(self@.skip(i as int) =~= Seq::<TxV>::empty());
        }
        None
    }
}

/// Input `i` refers to a known previous transaction with a non-empty id and
/// an existing output index.
pub open spec fn prev_in_ok(t: TxV, prevs: Seq<TxV>, i: int) -> bool {
    match find_prev(prevs, t.vin[i].txid) {
        Some(p) => p.id.len() > 0 && 0 <= t.vin[i].vout < p.vout.len(),
        None => false,
    }
}

/// Every input's referenced previous transaction is present and usable.
pub open spec fn prevs_ok(t: TxV, prevs: Seq<TxV>) -> bool {
    forall|i: int| 0 <= i < t.vin.len() ==> #[trigger] prev_in_ok(t, prevs, i)
}

/// The key hash of the output that input `i` spends.
pub open spec fn prev_pkh_at(t: TxV, prevs: Seq<TxV>, i: int) -> Seq<u8> {
    match find_prev(prevs, t.vin[i].txid) {
        Some(p) => p.vout[t.vin[i].vout as int].pub_key_hash,
        None => Seq::<u8>::empty(),
    }
}

/// Input `i` after signing with `sk`.
pub open spec fn signed_in(t: TxV, prevs: Seq<TxV>, sk: Seq<u8>, i: int) -> TxInV {
    TxInV {
        txid: t.vin[i].txid,
        vout: t.vin[i].vout,
        signature: ed25519_sig_of(sk, sign_msg(t, i, prev_pkh_at(t, prevs, i))),
        pub_key: t.vin[i].pub_key,
    }
}

/// The transaction with every input's signature filled in.
pub open spec fn signed_v(t: TxV, prevs: Seq<TxV>, sk: Seq<u8>) -> TxV {
    TxV {
        id: t.id,
        vin: Seq::new(t.vin.len(), |i: int| signed_in(t, prevs, sk, i)),
        vout: t.vout,
    }
}

/// The transaction with every input's signature cleared: the shape whose
/// digest the id was computed over, before signing filled the witnesses in.
pub open spec fn unsigned_of(t: TxV) -> TxV {
    TxV {
        id: t.id,
        vin: t.vin.map_values(
            |v: TxInV| TxInV {
                txid: v.txid,
                vout: v.vout,
                signature: Seq::<u8>::empty(),
                pub_key: v.pub_key,
            },
        ),
        vout: t.vout,
    }
}

/// What the signing wrapper establishes of input `i`'s fresh signature: it
/// is 64 bytes and verifies under the key derived from the secret.
pub open spec fn signed_input_checks(t: TxV, prevs: Seq<TxV>, sk: Seq<u8>, i: int) -> bool {
    let msg = sign_msg(t, i, prev_pkh_at(t, prevs, i));
    &&& ed25519_sig_of(sk, msg).len() == 64
    &&& ed25519_sig_ok(ed25519_pk_of(sk), msg, ed25519_sig_of(sk, msg))
}

/// The verification walk from input `i` on: `None` is a malformed key or
/// signature, `Some(false)` a failed signature, `Some(true)` acceptance.
pub open spec fn verify_scan(t: TxV, prevs: Seq<TxV>, i: int) -> Option<bool>
    decreases t.vin.len() - i,
{
    if i < 0 || i >= t.vin.len() {
        Some(true)
    } else {
        let vin = t.vin[i];
        if vin.pub_key.len() != 32 || vin.signature.len() != 64 {
            None
        } else if !ed25519_key_ok(vin.pub_key) {
            None
        } else if !ed25519_sig_ok(
            vin.pub_key,
            sign_msg(t, i, prev_pkh_at(t, prevs, i)),
            vin.signature,
        ) {
            Some(false)
        } else {
            verify_scan(t, prevs, i + 1)
        }
    }
}

impl Transaction {
    /// Validate that every input's previous transaction is present with a
    /// non-empty id and a real output index.
    fn check_prevs(&self, prev_txs: &PrevTxs) -> (r: bool)
        ensures
            r == prevs_ok(self@, prev_txs@),
    {
        let mut i: usize = 0;
        while i < self.vin.len()
            invariant
                i <= self@.vin.len(),
                forall|j: int| 0 <= j < i ==> #[trigger] prev_in_ok(self@, prev_txs@, j),
            decreases self@.vin.len() - i,
        {
            match prev_txs.get(&self.vin[i].txid) {
                Some(p) => {
                    let vo = self.vin[i].vout;
                    if p.id.as_str().is_empty() || vo < 0 || vo as usize >= p.vout.len() {
                        assert(!prev_in_ok(self@, prev_txs@, i as int));
                        return false;
                    }
                    assert(prev_in_ok(self@, prev_txs@, i as int));
                },
                None => {
                    assert(!prev_in_ok(self@, prev_txs@, i as int));
                    return false;
                },
            }
            i = i + 1;
        }
        true
    }

    /// Sign every input against its referenced previous output; the inputs
    /// must all resolve, or the transaction is left unchanged.
    pub fn sign(&mut self, private_key: &Vec<u8>, prev_txs: &PrevTxs) -> (r: Result<
        (),
        ChainError,
    >)
        requires
            private_key@.len() == 32,
        ensures
            is_coinbase_v(old(self)@) ==> r is Ok && *final(self) == *old(self),
            (!is_coinbase_v(old(self)@) && prevs_ok(old(self)@, prev_txs@)) ==> r is Ok
                && final(self)@ == signed_v(old(self)@, prev_txs@, private_key@) && (forall|i: int|
                0 <= i < old(self)@.vin.len() ==> signed_input_checks(
                    old(self)@,
                    prev_txs@,
                    private_key@,
                    i,
                )),
            (!is_coinbase_v(old(self)@) && !prevs_ok(old(self)@, prev_txs@)) ==> r == Err::<
                (),
                ChainError,
            >(ChainError::InvalidTransaction) && *final(self) == *old(self),
    {
        if self.is_coinbase() {
            return Ok(());
        }
        if !self.check_prevs(prev_txs) {
            return Err(ChainError::InvalidTransaction);
        }
        let mut sigs: Vec<Vec<u8>> = Vec::new();
        let mut i: usize = 0;
        while i < self.vin.len()
            invariant
                private_key@.len() == 32,
                prevs_ok(self@, prev_txs@),
                i <= self@.vin.len(),
                sigs.deep_view().len() == i,
                forall|j: int|
                    0 <= j < i ==> sigs.deep_view()[j] == ed25519_sig_of(
                        private_key@,
                        #[trigger] sign_msg(self@, j, prev_pkh_at(self@, prev_txs@, j)),
                    ),
                forall|j: int|
                    0 <= j < i ==> #[trigger] signed_input_checks(self@, prev_txs@, private_key@, j),
            decreases self@.vin.len() - i,
        {
            assert(prev_in_ok(self@, prev_txs@, i as int));
            let p = match prev_txs.get(&self.vin[i].txid) {
                Some(p) => p,
                None => {
                    proof {
                        assert(false);
                    }
                    return Err(ChainError::InvalidTransaction);
                },
            };
            let vo = self.vin[i].vout as usize;
            let pkh = clone_bytes(&p.vout[vo].pub_key_hash);
            let tc = self.trimmed_with_pk(i, &pkh);
            let m = tc.hash();
            proof {
                assert(TxV { id: Seq::<char>::empty(), vin: tc@.vin, vout: tc@.vout } =~= tc@);
            }
            let mb = m.as_str().as_bytes_vec();
            let sig = ed25519_sign(private_key, &mb);
            sigs.push(sig);
            i = i + 1;
        }
        let mut new_vin: Vec<TXInput> = Vec::new();
        let mut i: usize = 0;
        while i < self.vin.len()
            invariant
                private_key@.len() == 32,
                prevs_ok(self@, prev_txs@),
                i <= self@.vin.len(),
                sigs.deep_view().len() == self@.vin.len(),
                forall|j: int|
                    0 <= j < self@.vin.len() ==> sigs.deep_view()[j] == ed25519_sig_of(
                        private_key@,
                        #[trigger] sign_msg(self@, j, prev_pkh_at(self@, prev_txs@, j)),
                    ),
                forall|j: int|
                    0 <= j < self@.vin.len() ==> #[trigger] signed_input_checks(
                        self@,
                        prev_txs@,
                        private_key@,
                        j,
                    ),
                new_vin.deep_view().len() == i,
                forall|j: int|
                    0 <= j < i ==> new_vin.deep_view()[j] == #[trigger] signed_in(
                        self@,
                        prev_txs@,
                        private_key@,
                        j,
                    ),
            decreases self@.vin.len() - i,
        {
            new_vin.push(
                TXInput {
                    txid: self.vin[i].txid.clone(),
                    vout: self.vin[i].vout,
                    signature: clone_bytes(&sigs[i]),
                    pub_key: clone_bytes(&self.vin[i].pub_key),
                },
            );
            i = i + 1;
        }
        let ghost before = self@;
        self.vin = new_vin;
        proof {
            assert(self@.vin =~= signed_v(before, prev_txs@, private_key@).vin);
            assert(self@ =~= signed_v(before, prev_txs@, private_key@));
        }
        Ok(())
    }

    /// Check every input's signature against the trimmed transaction shape;
    /// a coinbase passes trivially.
    pub fn verify(&self, prev_txs: &PrevTxs) -> (r: Result<bool, ChainError>)
        ensures
            is_coinbase_v(self@) ==> r == Ok::<bool, ChainError>(true),
            (!is_coinbase_v(self@) && !prevs_ok(self@, prev_txs@)) ==> r == Err::<
                bool,
                ChainError,
            >(ChainError::InvalidTransaction),
            (!is_coinbase_v(self@) && prevs_ok(self@, prev_txs@)) ==> (match verify_scan(
                self@,
                prev_txs@,
                0,
            ) {
                Some(b) => r == Ok::<bool, ChainError>(b),
                None => r == Err::<bool, ChainError>(ChainError::CryptoError),
            }),
    {
        if self.is_coinbase() {
            return Ok(true);
        }
        if !self.check_prevs(prev_txs) {
            return Err(ChainError::InvalidTransaction);
        }
        let mut i: usize = 0;
        while i < self.vin.len()
            invariant
                prevs_ok(self@, prev_txs@),
                i <= self@.vin.len(),
                verify_scan(self@, prev_txs@, 0) == verify_scan(self@, prev_txs@, i as int),
            decreases self@.vin.len() - i,
        {
            assert(prev_in_ok(self@, prev_txs@, i as int));
            if self.vin[i].pub_key.len() != 32 || self.vin[i].signature.len() != 64 {
                return Err(ChainError::CryptoError);
            }
            let p = match prev_txs.get(&self.vin[i].txid) {
                Some(p) => p,
                None => {
                    proof {
                        assert(false);
                    }
                    return Err(ChainError::InvalidTransaction);
                },
            };
            let vo = self.vin[i].vout as usize;
            let pkh = clone_bytes(&p.vout[vo].pub_key_hash);
            let tc = self.trimmed_with_pk(i, &pkh);
            let m = tc.hash();
            proof {
                assert(TxV { id: Seq::<char>::empty(), vin: tc@.vin, vout: tc@.vout } =~= tc@);
            }
            let mb = m.as_str().as_bytes_vec();
            match crate::crypto::ed25519_verify(&self.vin[i].pub_key, &mb, &self.vin[i].signature) {
                None => {
                    return Err(ChainError::CryptoError);
                },
                Some(false) => {
                    return Ok(false);
                },
                Some(true) => {},
            }
            i = i + 1;
        }
        Ok(true)
    }
}

// ---------------------------------------------------------------------------
// Signing round trip
// ---------------------------------------------------------------------------

/// Signing leaves the trimmed shape alone: the pre-image of each input is
/// the same before and after the signatures are filled in.
pub proof fn lemma_signed_preserves_msgs(t: TxV, prevs: Seq<TxV>, sk: Seq<u8>)
    ensures
        signed_v(t, prevs, sk).vin.len() == t.vin.len(),
        forall|i: int, pkh: Seq<u8>|
            0 <= i < t.vin.len() ==> #[trigger] with_pk_v(signed_v(t, prevs, sk), i, pkh)
                == with_pk_v(t, i, pkh),
        forall|i: int|
            0 <= i < t.vin.len() ==> #[trigger] prev_pkh_at(signed_v(t, prevs, sk), prevs, i)
                == prev_pkh_at(t, prevs, i),
        prevs_ok(signed_v(t, prevs, sk), prevs) == prevs_ok(t, prevs),
{
    let s = signed_v(t, prevs, sk);
    assert forall|i: int, pkh: Seq<u8>| 0 <= i < t.vin.len() implies #[trigger] with_pk_v(
        s,
        i,
        pkh,
    ) == with_pk_v(t, i, pkh) by {
        assert(s.vin.map_values(|v: TxInV| trimmed_in(v)) =~= t.vin.map_values(
            |v: TxInV| trimmed_in(v),
        ));
        assert(with_pk_v(s, i, pkh) =~= with_pk_v(t, i, pkh));
    }
    assert forall|i: int| 0 <= i < t.vin.len() implies #[trigger] prev_pkh_at(s, prevs, i)
        == prev_pkh_at(t, prevs, i) by {
        assert(s.vin[i].txid == t.vin[i].txid);
    }
    assert forall|i: int| 0 <= i < s.vin.len() implies prev_in_ok(s, prevs, i) == prev_in_ok(
        t,
        prevs,
        i,
    ) by {
        assert(s.vin[i].txid == t.vin[i].txid && s.vin[i].vout == t.vin[i].vout);
    }
    if prevs_ok(t, prevs) {
        assert forall|i: int| 0 <= i < s.vin.len() implies #[trigger] prev_in_ok(s, prevs, i) by {
            assert(prev_in_ok(t, prevs, i));
        }
    }
    if prevs_ok(s, prevs) {
        assert forall|i: int| 0 <= i < t.vin.len() implies #[trigger] prev_in_ok(t, prevs, i) by {
            assert(prev_in_ok(s, prevs, i));
        }
    }
}

/// The verification walk accepts a transaction whose every input carries a
/// well-formed key and a signature that checks against its pre-image.
pub proof fn lemma_verify_accepts(t: TxV, prevs: Seq<TxV>, i: int)
    requires
        0 <= i <= t.vin.len(),
        forall|j: int|
            i <= j < t.vin.len() ==> (#[trigger] t.vin[j].pub_key).len() == 32
                && t.vin[j].signature.len() == 64 && ed25519_key_ok(t.vin[j].pub_key)
                && ed25519_sig_ok(
                t.vin[j].pub_key,
                sign_msg(t, j, prev_pkh_at(t, prevs, j)),
                t.vin[j].signature,
            ),
    ensures
        verify_scan(t, prevs, i) == Some(true),
    decreases t.vin.len() - i,
{
    if i < t.vin.len() {
        lemma_verify_accepts(t, prevs, i + 1);
    }
}

/// Law: a transaction signed with a secret key verifies under the matching
/// public key. If every input's `pub_key` is the verifying key derived from
/// `sk`, the previous transactions resolve, and the named signature facts
/// that the signing wrapper establishes hold, then the verification walk
/// over the signed transaction accepts.
pub proof fn lemma_sign_then_verify(t: TxV, prevs: Seq<TxV>, sk: Seq<u8>)
    requires
        prevs_ok(t, prevs),
        forall|i: int| 0 <= i < t.vin.len() ==> (#[trigger] t.vin[i].pub_key) == ed25519_pk_of(sk),
        ed25519_pk_of(sk).len() == 32,
        ed25519_key_ok(ed25519_pk_of(sk)),
        forall|i: int|
            0 <= i < t.vin.len() ==> (#[trigger] ed25519_sig_of(
                sk,
                sign_msg(t, i, prev_pkh_at(t, prevs, i)),
            )).len() == 64 && ed25519_sig_ok(
                ed25519_pk_of(sk),
                sign_msg(t, i, prev_pkh_at(t, prevs, i)),
                ed25519_sig_of(sk, sign_msg(t, i, prev_pkh_at(t, prevs, i))),
            ),
    ensures
        verify_scan(signed_v(t, prevs, sk), prevs, 0) == Some(true),
{
    let s = signed_v(t, prevs, sk);
    lemma_signed_preserves_msgs(t, prevs, sk);
    assert forall|j: int| 0 <= j < s.vin.len() implies (#[trigger] s.vin[j].pub_key).len() == 32
        && s.vin[j].signature.len() == 64 && ed25519_key_ok(s.vin[j].pub_key) && ed25519_sig_ok(
        s.vin[j].pub_key,
        sign_msg(s, j, prev_pkh_at(s, prevs, j)),
        s.vin[j].signature,
    ) by {
        assert(s.vin[j] == signed_in(t, prevs, sk, j));
        assert(prev_pkh_at(s, prevs, j) == prev_pkh_at(t, prevs, j));
        assert(with_pk_v(s, j, prev_pkh_at(t, prevs, j)) == with_pk_v(
            t,
            j,
            prev_pkh_at(t, prevs, j),
        ));
        assert(sign_msg(s, j, prev_pkh_at(s, prevs, j)) == sign_msg(t, j, prev_pkh_at(t, prevs, j)));
    }
    lemma_verify_accepts(s, prevs, 0);
}

/// A fresh copy of an input list.
pub fn clone_inputs(l: &Vec<TXInput>) -> (r: Vec<TXInput>)
    ensures
        r.deep_view() == l.deep_view(),
{
    let mut out: Vec<TXInput> = Vec::new();
    let mut i: usize = 0;
    while i < l.len()
        invariant
            i <= l@.len(),
            out.deep_view().len() == i,
            forall|j: int| 0 <= j < i ==> out.deep_view()[j] == #[trigger] l.deep_view()[j],
        decreases l@.len() - i,
    {
        out.push(
            TXInput {
                txid: l[i].txid.clone(),
                vout: l[i].vout,
                signature: clone_bytes(&l[i].signature),
                pub_key: clone_bytes(&l[i].pub_key),
            },
        );
        i = i + 1;
    }
    proof {
        assert(out.deep_view() =~= l.deep_view());
    }
    out
}

/// A fresh copy of a whole transaction.
pub fn clone_tx(t: &Transaction) -> (r: Transaction)
    ensures
        r@ == t@,
{
    let r = Transaction { id: t.id.clone(), vin: clone_inputs(&t.vin), vout: clone_outputs(&t.vout) };
    proof {
        assert(r@ =~= t@);
    }
    r
}

} // verus!
