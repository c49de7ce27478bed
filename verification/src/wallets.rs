//! Wallets: Ed25519 keypairs, public-key hashing, and the persistent wallet
//! store keyed by address.

use vstd::prelude::*;

use crate::address::{addr_decode, addr_encode, encode_address};
use crate::codec::{
    enc_bytes, lemma_concat_assoc, lemma_parse_enc_bytes, lemma_skip_of_concat, parse_bytes,
    read_bytes, slices_eq, str_eq, write_bytes,
};
use crate::crypto::{
    ed25519_key_ok, ed25519_pk_of, ed25519_public_key, hex_bytes_of, hex_decode, random_seed,
    ripemd160_bytes, ripemd160_of, sha256_hex, sha256_hex_of,
};
use crate::errors::ChainError;
use crate::store::Store;

verus! {

/// An Ed25519 keypair; the public key is derived from the secret.
#[derive(Debug, Clone)]
pub struct Wallet {
    pub secret_key: Vec<u8>,
    pub public_key: Vec<u8>,
}

#[verifier::ext_equal]
pub ghost struct WalletV {
    pub secret_key: Seq<u8>,
    pub public_key: Seq<u8>,
}

impl View for Wallet {
    type V = WalletV;

    open spec fn view(&self) -> WalletV {
        WalletV { secret_key: self.secret_key@, public_key: self.public_key@ }
    }
}

/// A wallet is well formed when its public key is the one derived from its
/// 32-byte secret.
pub open spec fn wf_wallet(w: WalletV) -> bool {
    &&& w.secret_key.len() == 32
    &&& w.public_key.len() == 32
    &&& w.public_key == ed25519_pk_of(w.secret_key)
    &&& ed25519_key_ok(w.public_key)
}

/// The canonical form of an address body: RIPEMD-160 of the 32-byte
/// SHA-256 digest of the public key.
pub open spec fn pub_key_hash_of(pk: Seq<u8>) -> Seq<u8> {
    ripemd160_of(hex_bytes_of(sha256_hex_of(pk)))
}

/// RIPEMD-160 of the SHA-256 digest of a public key.
pub fn hash_pub_key(pub_key: &Vec<u8>) -> (r: Vec<u8>)
    ensures
        r@ == pub_key_hash_of(pub_key@),
        r@.len() == 20,
{
    let hex = sha256_hex(pub_key);
    let raw = hex_decode(hex.as_str());
    ripemd160_bytes(&raw)
}

impl Wallet {
    /// Draw a fresh keypair from the system's randomness.
    pub fn new() -> (r: Wallet)
        ensures
            wf_wallet(r@),
    {
        let secret_key = random_seed();
        let public_key = ed25519_public_key(&secret_key);
        Wallet { secret_key, public_key }
    }

    /// The Base58 script address of this wallet's public-key hash.
    pub fn get_address(&self) -> (r: String)
        ensures
            r@ == addr_encode(pub_key_hash_of(self@.public_key)),
            addr_decode(r@) == Some(pub_key_hash_of(self@.public_key)),
    {
        let pkh = hash_pub_key(&self.public_key);
        encode_address(&pkh)
    }
}

impl DeepView for Wallet {
    type V = WalletV;

    open spec fn deep_view(&self) -> WalletV {
        self.view()
    }
}

// ---------------------------------------------------------------------------
// The wallet store
// ---------------------------------------------------------------------------

/// The stored form of a wallet: secret key then public key.
pub open spec fn enc_wallet(w: WalletV) -> Seq<u8> {
    enc_bytes(w.secret_key) + enc_bytes(w.public_key)
}

#[verifier::opaque]
pub open spec fn parse_wallet(data: Seq<u8>) -> Option<(WalletV, int)> {
    match parse_bytes(data) {
        Some((sk, u1)) => match parse_bytes(data.skip(u1)) {
            Some((pk, u2)) => Some((WalletV { secret_key: sk, public_key: pk }, u1 + u2)),
            None => None,
        },
        None => None,
    }
}

pub proof fn lemma_parse_enc_wallet(w: WalletV, rest: Seq<u8>)
    requires
        w.secret_key.len() < 0x1_0000_0000_0000_0000,
        w.public_key.len() < 0x1_0000_0000_0000_0000,
    ensures
        parse_wallet(enc_wallet(w) + rest) == Some((w, enc_wallet(w).len() as int)),
{
    reveal(parse_wallet);
    let e1 = enc_bytes(w.secret_key);
    let e2 = enc_bytes(w.public_key);
    let data = enc_wallet(w) + rest;
    lemma_concat_assoc(e1, e2, rest);
    assert(data == e1 + (e2 + rest));
    lemma_parse_enc_bytes(w.secret_key, e2 + rest);
    lemma_skip_of_concat(e1, e2 + rest);
    lemma_parse_enc_bytes(w.public_key, rest);
    assert(WalletV { secret_key: w.secret_key, public_key: w.public_key } =~= w);
}

impl Wallet {
    /// The stored encoding of this wallet.
    pub fn wallet_encoding(&self) -> (r: Vec<u8>)
        ensures
            r@ == enc_wallet(self@),
    {
        let mut out: Vec<u8> = Vec::new();
        write_bytes(&mut out, &self.secret_key);
        write_bytes(&mut out, &self.public_key);
        assert(out@ =~= enc_wallet(self@));
        out
    }

    /// Decode a stored wallet; trailing bytes are refused.
    pub fn wallet_decoding(data: &Vec<u8>) -> (r: Option<Wallet>)
        ensures
            match parse_wallet(data@) {
                Some(vp) => if vp.1 == data@.len() {
                    r matches Some(w) && w@ == vp.0
                } else {
                    r is None
                },
                None => r is None,
            },
    {
        proof {
            reveal(parse_wallet);
            assert(data@.skip(0) =~= data@);
        }
        let ghost d = data@;
        let (secret_key, p1) = match read_bytes(data, 0) {
            Some(x) => x,
            None => {
                return None;
            },
        };
        assert(data@.skip(p1 as int) =~= d.skip(p1 as int));
        let (public_key, p2) = match read_bytes(data, p1) {
            Some(x) => x,
            None => {
                return None;
            },
        };
        if p2 == data.len() {
            Some(Wallet { secret_key, public_key })
        } else {
            None
        }
    }
}

/// The wallet keyed by the given address, if any.
pub open spec fn find_wallet(l: Seq<(Seq<char>, WalletV)>, addr: Seq<char>) -> Option<WalletV>
    decreases l.len(),
{
    if l.len() == 0 {
        None
    } else if l[0].0 == addr {
        Some(l[0].1)
    } else {
        find_wallet(l.skip(1), addr)
    }
}

/// The position of the first entry keyed by the given address.
pub open spec fn wallet_pos(l: Seq<(Seq<char>, WalletV)>, addr: Seq<char>) -> Option<int>
    decreases l.len(),
{
    if l.len() == 0 {
        None
    } else if l[0].0 == addr {
        Some(0)
    } else {
        match wallet_pos(l.skip(1), addr) {
            Some(p) => Some(p + 1),
            None => None,
        }
    }
}

proof fn lemma_wallet_pos_found(l: Seq<(Seq<char>, WalletV)>, addr: Seq<char>, i: int)
    requires
        0 <= i < l.len(),
        forall|j: int| 0 <= j < i ==> (#[trigger] l[j]).0 != addr,
        l[i].0 == addr,
    ensures
        wallet_pos(l, addr) == Some(i),
    decreases i,
{
    if i > 0 {
        assert(l[0].0 != addr);
        assert forall|j: int| 0 <= j < i - 1 implies (#[trigger] l.skip(1)[j]).0 != addr by {
            assert(l.skip(1)[j] == l[j + 1]);
        }
        assert(l.skip(1)[i - 1] == l[i]);
        lemma_wallet_pos_found(l.skip(1), addr, i - 1);
    }
}

proof fn lemma_wallet_pos_none(l: Seq<(Seq<char>, WalletV)>, addr: Seq<char>)
    requires
        forall|j: int| 0 <= j < l.len() ==> (#[trigger] l[j]).0 != addr,
    ensures
        wallet_pos(l, addr) is None,
    decreases l.len(),
{
    if l.len() > 0 {
        assert(l[0].0 != addr);
        assert forall|j: int| 0 <= j < l.skip(1).len() implies (#[trigger] l.skip(1)[j]).0
            != addr by {
            assert(l.skip(1)[j] == l[j + 1]);
        }
        lemma_wallet_pos_none(l.skip(1), addr);
    }
}

/// The wallet map after writing the first `i` wallets out.
pub open spec fn saved_map(
    m: Map<Seq<char>, Seq<u8>>,
    l: Seq<(Seq<char>, WalletV)>,
    i: int,
) -> Map<Seq<char>, Seq<u8>>
    decreases i,
{
    if i <= 0 {
        m
    } else {
        saved_map(m, l, i - 1).insert(l[i - 1].0, enc_wallet(l[i - 1].1))
    }
}

/// A wallet found in a well-formed store is itself well formed.
pub proof fn lemma_find_wallet_wf(l: Seq<(Seq<char>, WalletV)>, addr: Seq<char>)
    requires
        forall|i: int| 0 <= i < l.len() ==> wf_wallet((#[trigger] l[i]).1),
    ensures
        find_wallet(l, addr) matches Some(w) ==> wf_wallet(w),
    decreases l.len(),
{
    if l.len() > 0 && l[0].0 != addr {
        assert forall|i: int| 0 <= i < l.skip(1).len() implies wf_wallet(
            (#[trigger] l.skip(1)[i]).1,
        ) by {
            assert(l.skip(1)[i] == l[i + 1]);
        }
        lemma_find_wallet_wf(l.skip(1), addr);
    }
}

/// The wallet store: keypairs keyed by their address.
pub struct Wallets {
    pub wallets: Vec<(String, Wallet)>,
}

impl View for Wallets {
    type V = Seq<(Seq<char>, WalletV)>;

    open spec fn view(&self) -> Seq<(Seq<char>, WalletV)> {
        self.wallets.deep_view()
    }
}

impl Wallets {
    /// Every stored wallet is well formed, keyed by its own address, and
    /// no address appears twice.
    pub open spec fn wf(&self) -> bool {
        &&& forall|i: int|
            0 <= i < self@.len() ==> wf_wallet((#[trigger] self@[i]).1) && self@[i].0
                == addr_encode(pub_key_hash_of(self@[i].1.public_key))
        &&& forall|i: int, j: int| 0 <= i < j < self@.len() ==> self@[i].0 != self@[j].0
    }

    /// Load every wallet from the store, checking each record: the keys must
    /// decode, the public key must derive from the secret, and the address
    /// key must be the wallet's own.
    #[verifier::rlimit(100)]
    #[verifier::loop_isolation(false)]
    pub fn new(store: &Store) -> (r: Result<Wallets, ChainError>)
        ensures
            r matches Ok(ws) ==> {
                &&& ws.wf()
                &&& forall|j: int|
                    0 <= j < ws@.len() ==> store.map().contains_key((#[trigger] ws@[j]).0)
                        && parse_wallet(store.map()[ws@[j].0]) == Some(
                        (ws@[j].1, store.map()[ws@[j].0].len() as int),
                    )
                &&& forall|k: Seq<char>|
                    store.map().contains_key(k) ==> exists|j: int|
                        0 <= j < ws@.len() && (#[trigger] ws@[j]).0 == k
            },
            r matches Err(e) ==> e is StoreFailure || e is SerializationError,
    {
        let entries = match store.scan() {
            Ok(e) => e,
            Err(_) => {
                return Err(ChainError::StoreFailure);
            },
        };
        let mut wallets: Vec<(String, Wallet)> = Vec::new();
        let mut i: usize = 0;
        while i < entries.len()
            invariant
                i <= entries@.len(),
                wallets.deep_view().len() == i,
                forall|j: int|
                    0 <= j < i ==> (#[trigger] wallets.deep_view()[j]).0 == entries@[j].0@,
                forall|j: int|
                    0 <= j < i ==> parse_wallet(
                        store.map()[(#[trigger] wallets.deep_view()[j]).0],
                    ) == Some(
                        (
                            wallets.deep_view()[j].1,
                            store.map()[wallets.deep_view()[j].0].len() as int,
                        ),
                    ),
                forall|j: int|
                    0 <= j < wallets.deep_view().len() ==> wf_wallet(
                        (#[trigger] wallets.deep_view()[j]).1,
                    ) && wallets.deep_view()[j].0 == addr_encode(
                        pub_key_hash_of(wallets.deep_view()[j].1.public_key),
                    ),
            decreases entries@.len() - i,
        {
            let w = match Wallet::wallet_decoding(&entries[i].1) {
                Some(w) => w,
                None => {
                    return Err(ChainError::SerializationError);
                },
            };
            if w.secret_key.len() != 32 {
                return Err(ChainError::SerializationError);
            }
            let derived = ed25519_public_key(&w.secret_key);
            if !slices_eq(derived.as_slice(), w.public_key.as_slice()) {
                return Err(ChainError::SerializationError);
            }
            let addr = w.get_address();
            if !str_eq(addr.as_str(), entries[i].0.as_str()) {
                return Err(ChainError::SerializationError);
            }
            let ghost before = wallets.deep_view();
            wallets.push((addr, w));
            proof {
                assert(wallets.deep_view() =~= before.push(
                    (
                        addr_encode(pub_key_hash_of(wallets@.last().1@.public_key)),
                        wallets@.last().1@,
                    ),
                ));
                assert(wallets.deep_view()[i as int].0 == entries@[i as int].0@);
            }
            i = i + 1;
        }
        let ws = Wallets { wallets };
        proof {
            assert forall|a: int, b: int| 0 <= a < b < ws@.len() implies ws@[a].0 != ws@[b].0 by {
                assert(ws@[a].0 == entries@[a].0@ && ws@[b].0 == entries@[b].0@);
            }
            assert forall|k: Seq<char>| store.map().contains_key(k) implies exists|j: int|
                0 <= j < ws@.len() && (#[trigger] ws@[j]).0 == k by {
                let j0 = choose|j0: int| 0 <= j0 < entries@.len() && entries@[j0].0@ == k;
                assert(ws@[j0].0 == k);
            }
        }
        Ok(ws)
    }

    /// Draw a new keypair, record it under its address, and hand the
    /// address back.
    #[verifier::rlimit(100)]
    #[verifier::loop_isolation(false)]
    pub fn create_wallet(&mut self) -> (r: String)
        requires
            old(self).wf(),
        ensures
            final(self).wf(),
            final(self)@.last().0 == r@,
            wf_wallet(final(self)@.last().1),
            r@ == addr_encode(pub_key_hash_of(final(self)@.last().1.public_key)),
            match wallet_pos(old(self)@, r@) {
                Some(p) => final(self)@ == old(self)@.remove(p).push(
                    (r@, final(self)@.last().1),
                ),
                None => final(self)@ == old(self)@.push((r@, final(self)@.last().1)),
            },
    {
        let wallet = Wallet::new();
        let address = wallet.get_address();
        let ghost before = self@;
        let mut i: usize = 0;
        let mut found: Option<usize> = None;
        while i < self.wallets.len()
            invariant
                self == old(self),
                i <= before.len(),
                match found {
                    Some(p) => p < before.len() && before[p as int].0 == address@ && (forall|
                        j: int,
                    |
                        0 <= j < p ==> (#[trigger] before[j]).0 != address@),
                    None => forall|j: int| 0 <= j < i ==> (#[trigger] before[j]).0 != address@,
                },
            decreases before.len() - i,
        {
            if crate::codec::str_eq(self.wallets[i].0.as_str(), address.as_str()) {
                proof {
                    assert(before[i as int].0 == address@);
                }
                found = Some(i);
                break;
            }
            i = i + 1;
        }
        match found {
            Some(p) => {
                proof {
                    lemma_wallet_pos_found(before, address@, p as int);
                }
                let _ = self.wallets.remove(p);
                self.wallets.push((address.clone(), wallet));
                proof {
                    assert(self@ =~= before.remove(p as int).push(
                        (address@, self.wallets@.last().1@),
                    ));
                    assert forall|a: int, b: int| 0 <= a < b < self@.len() implies self@[a].0
                        != self@[b].0 by {
                        if b < self@.len() - 1 {
                            assert(self@[a] == before.remove(p as int)[a]);
                            assert(self@[b] == before.remove(p as int)[b]);
                        } else {
                            assert(self@[a] == before.remove(p as int)[a]);
                            if a < p {
                                assert(before[a].0 != before[p as int].0);
                            } else {
                                assert(before[a + 1].0 != before[p as int].0);
                            }
                        }
                    }
                }
            },
            None => {
                proof {
                    lemma_wallet_pos_none(before, address@);
                }
                self.wallets.push((address.clone(), wallet));
                proof {
                    assert(self@ =~= before.push((address@, self.wallets@.last().1@)));
                }
            },
        }
        address
    }

    /// Every stored address, in insertion order.
    pub fn get_all_addresses(&self) -> (r: Vec<String>)
        ensures
            r@.len() == self@.len(),
            forall|i: int| 0 <= i < r@.len() ==> (#[trigger] r@[i])@ == self@[i].0,
    {
        let mut addresses: Vec<String> = Vec::new();
        let mut i: usize = 0;
        while i < self.wallets.len()
            invariant
                i <= self@.len(),
                addresses@.len() == i,
                forall|j: int| 0 <= j < i ==> (#[trigger] addresses@[j])@ == self@[j].0,
            decreases self@.len() - i,
        {
            addresses.push(self.wallets[i].0.clone());
            i = i + 1;
        }
        addresses
    }

    /// The wallet stored under the given address.
    pub fn get_wallet(&self, address: &str) -> (r: Option<&Wallet>)
        ensures
            match find_wallet(self@, address@) {
                Some(w) => r matches Some(x) && x@ == w,
                None => r is None,
            },
    {
        proof {
            assert(self@.skip(0) =~= self@);
        }
        let mut i: usize = 0;
        while i < self.wallets.len()
            invariant
                i <= self@.len(),
                find_wallet(self@, address@) == find_wallet(self@.skip(i as int), address@),
            decreases self@.len() - i,
        {
            let ghost pre = self@.skip(i as int);
            proof {
                assert(pre[0] == self@[i as int]);
                assert(pre.skip(1) =~= self@.skip(i + 1));
            }
            if str_eq(self.wallets[i].0.as_str(), address) {
                return Some(&self.wallets[i].1);
            }
            i = i + 1;
        }
        None
    }

    /// Write every wallet out to the store.
    #[verifier::loop_isolation(false)]
    pub fn save_all(&self, store: &mut Store) -> (r: Result<(), ChainError>)
        ensures
            r is Ok ==> final(store).map() == saved_map(
                old(store).map(),
                self@,
                self@.len() as int,
            ),
            r is Err ==> r == Err::<(), ChainError>(ChainError::StoreFailure),
    {
        let mut i: usize = 0;
        while i < self.wallets.len()
            invariant
                i <= self@.len(),
                store.map() == saved_map(old(store).map(), self@, i as int),
            decreases self.wallets@.len() - i,
        {
            let data = self.wallets[i].1.wallet_encoding();
            let key = self.wallets[i].0.clone();
            proof {
                assert(self@[i as int] == (self.wallets@[i as int].0@, self.wallets@[i as int].1@));
            }
            match store.put(key.as_str(), &data) {
                Ok(()) => {},
                Err(_) => {
                    return Err(ChainError::StoreFailure);
                },
            }
            i = i + 1;
        }
        match store.flush() {
            Ok(()) => {},
            Err(_) => {
                return Err(ChainError::StoreFailure);
            },
        }
        Ok(())
    }
}

} // verus!
