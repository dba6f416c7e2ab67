//! Deterministic, seed-keyed selection of one item per day from a fixed list.
//!
//! A balanced Feistel network gives a keyed bijection over a power-of-two
//! domain; cycle-walking adapts it to the item count, and per-window key
//! derivation from a master seed re-keys the permutation every epoch.  The
//! same seed always reproduces the same sequence, and within one window of
//! length equal to the item count every item appears exactly once.

use vstd::prelude::*;

use sha2::Digest;

pub mod feistel;
pub mod walk;

use crate::feistel::domain_size;
use crate::feistel::min_even_width;
use crate::feistel::lemma_min_even_width;
use crate::feistel::valid_bit_len;
use crate::feistel::FeistelNetwork;
use crate::walk::is_first_hit;
use crate::walk::iterate;
use crate::walk::lemma_walk_hits;
use crate::walk::lemma_walk_result;
use crate::walk::lemma_walk_bijective;
use crate::walk::walk_hits;
use crate::walk::walk_reaches;
use crate::walk::walk_result;

verus! {

/// Errors reported when a generator or permutation engine is configured
/// with an unusable domain, item list, or window length.
#[derive(Clone, Copy, Debug, PartialEq, Eq, Structural)]
pub enum WordleError {
    /// The requested bit width is zero, odd, or wider than 64 bits,
    /// or the requested domain is empty.
    InvalidDomain,
    /// No items were supplied.
    EmptyItemList,
    /// A window length of zero would leave every day without a window.
    ZeroWindowLength,
}

/// The master secret from which every window's round keys are derived.
pub type Seed = [u8; 32];

/// The eight 64-bit round keys that SHA-512 yields for a seed and a window
/// number; a pure function of the seed bytes and the window.
pub uninterp spec fn window_keys(seed: Seq<u8>, window: u64) -> Seq<u64>;

/// Relies on `sha2::Sha512` (`update`, `finalize`): the digest of the 32
/// seed bytes followed by the window's 8 little-endian bytes depends on
/// those bytes alone, and its 64 bytes fill exactly eight 64-bit keys.
#[verifier::external_body]
fn derive_window_keys(seed: &[u8; 32], window: u64) -> (r: Vec<u64>)
    ensures
        r@ == window_keys(seed@, window),
        r@.len() == 8,
{
    let mut hasher = sha2::Sha512::new();
    hasher.update(seed);
    hasher.update(&window.to_le_bytes());
    let digest = hasher.finalize();
    digest.chunks(8).map(|c| u64::from_le_bytes(c.try_into().unwrap())).collect()
}

/// Relies on `rand::random`: a fresh 32-byte seed from the thread-local
/// generator.  Nothing is assumed of its value.
#[verifier::external_body]
fn random_seed() -> (r: Seed) {
    rand::random()
}

/// A deterministic, seed-keyed generator handing out one item per day.
pub struct Wordle {
    words: Vec<String>,
    window_len: u64,
    seed: Seed,
    network: FeistelNetwork,
}

impl Wordle {
    /// The item list, one character sequence per item.
    pub closed spec fn spec_items(&self) -> Seq<Seq<char>> {
        self.words.deep_view()
    }

    /// The number of days sharing one derived key set.
    pub closed spec fn spec_window_len(&self) -> u64 {
        self.window_len
    }

    /// The master seed's bytes.
    pub closed spec fn spec_seed(&self) -> Seq<u8> {
        self.seed@
    }

    /// The engine's bit width.
    pub closed spec fn spec_bit_len(&self) -> u64 {
        self.network.spec_bit_len()
    }

    /// A usable generator: at least one item, a positive window length, and
    /// an engine sized to the smallest even bit width covering the items.
    pub closed spec fn wf(&self) -> bool {
        &&& 1 <= self.spec_items().len()
        &&& self.spec_items().len() <= u64::MAX
        &&& 1 <= self.window_len
        &&& self.network.wf()
        &&& valid_bit_len(self.network.spec_bit_len())
        &&& self.network.spec_bit_len() == min_even_width(self.spec_items().len() as u64)
        &&& self.spec_items().len() <= domain_size(self.network.spec_bit_len())
    }

    /// The index chosen inside window `window` for the window-relative day
    /// `local`: the cycle walk from `local` under that window's keys.
    pub open spec fn spec_local_index(&self, window: u64, local: u64) -> u64 {
        walk_result(
            window_keys(self.spec_seed(), window),
            self.spec_bit_len(),
            self.spec_items().len() as u64,
            local,
        )
    }

    /// The index chosen for `day`.
    pub open spec fn spec_index(&self, day: u64) -> u64 {
        self.spec_local_index(day / self.spec_window_len(), day % self.spec_window_len())
    }

    /// The item chosen for `day`.
    pub open spec fn spec_word(&self, day: u64) -> Seq<char> {
        self.spec_items()[self.spec_index(day) as int]
    }

    /// Creates a generator over `words` with the given window length, under
    /// a seed drawn from the system's random source.
    ///
    /// Rejects an empty item list and a zero window length.
    pub fn new(words: Vec<String>, window_len: u64) -> (r: Result<Wordle, WordleError>)
        ensures
            r is Ok <==> (words.deep_view().len() >= 1 && window_len >= 1),
            words.deep_view().len() == 0 ==> r == Result::<Wordle, WordleError>::Err(
                WordleError::EmptyItemList,
            ),
            words.deep_view().len() >= 1 && window_len == 0 ==> r
                == Result::<Wordle, WordleError>::Err(WordleError::ZeroWindowLength),
            r is Ok ==> {
                &&& r.unwrap().wf()
                &&& r.unwrap().spec_items() == words.deep_view()
                &&& r.unwrap().spec_window_len() == window_len
            },
    {
        let seed = random_seed();
        Self::from_seed(words, window_len, seed)
    }

    /// Creates a generator over `words` with the given window length and
    /// seed; the same arguments always build a generator with the same
    /// observable behaviour.
    ///
    /// Rejects an empty item list and a zero window length.
    pub fn from_seed(words: Vec<String>, window_len: u64, seed: Seed) -> (r: Result<
        Wordle,
        WordleError,
    >)
        ensures
            r is Ok <==> (words.deep_view().len() >= 1 && window_len >= 1),
            words.deep_view().len() == 0 ==> r == Result::<Wordle, WordleError>::Err(
                WordleError::EmptyItemList,
            ),
            words.deep_view().len() >= 1 && window_len == 0 ==> r
                == Result::<Wordle, WordleError>::Err(WordleError::ZeroWindowLength),
            r is Ok ==> {
                &&& r.unwrap().wf()
                &&& r.unwrap().spec_items() == words.deep_view()
                &&& r.unwrap().spec_window_len() == window_len
                &&& r.unwrap().spec_seed() == seed@
            },
    {
        if words.len() == 0 {
            return Err(WordleError::EmptyItemList);
        }
        if window_len == 0 {
            return Err(WordleError::ZeroWindowLength);
        }
        let network = match FeistelNetwork::for_domain(words.len()) {
            Ok(network) => network,
            Err(e) => {
                return Err(e);
            },
        };
        proof {
            lemma_min_even_width(words@.len() as u64);
        }
        Ok(Wordle { words, window_len, seed, network })
    }

    /// Returns the word for the given day.
    ///
    /// The result depends only on the item list, the window length, the
    /// seed, and `day`; querying in any order or repeatedly changes
    /// nothing observable.  The caller keeps each day's window-relative
    /// offset inside the item count (always true when the window length is
    /// at most the item count); past it, the cycle walk's defensive bound
    /// could trip, which the design treats as an internal fault.
    pub fn get(&mut self, day: u64) -> (r: String)
        requires
            old(self).wf(),
            day % old(self).spec_window_len() < old(self).spec_items().len(),
        ensures
            final(self).wf(),
            final(self).spec_items() == old(self).spec_items(),
            final(self).spec_window_len() == old(self).spec_window_len(),
            final(self).spec_seed() == old(self).spec_seed(),
            final(self).spec_bit_len() == old(self).spec_bit_len(),
            walk_hits(
                window_keys(old(self).spec_seed(), day / old(self).spec_window_len()),
                old(self).spec_bit_len(),
                old(self).spec_items().len() as u64,
                day % old(self).spec_window_len(),
            ),
            r@ == old(self).spec_word(day),
    {
        let window = day / self.window_len;
        let keys = derive_window_keys(&self.seed, window);
        self.network.rekey(keys);
        let local = day % self.window_len;
        let n = self.words.len() as u64;
        let ghost gkeys = self.network.spec_keys();
        let ghost b = self.network.spec_bit_len();
        proof {
            lemma_walk_hits(gkeys, b, n, local);
        }
        let ghost k0 = choose|k: nat| is_first_hit(gkeys, b, n, local, k);
        let mut idx = self.network.permute(local);
        proof {
            assert(iterate(gkeys, b, 0nat, local) == local);
            assert(iterate(gkeys, b, 1nat, local) == crate::feistel::spec_permute(
                gkeys,
                b,
                local,
            ));
        }
        let ghost mut steps: nat = 1;
        while idx >= n
            invariant
                self.network.wf(),
                self.network.spec_keys() == gkeys,
                self.network.spec_bit_len() == b,
                is_first_hit(gkeys, b, n, local, k0),
                1 <= steps <= k0,
                idx == iterate(gkeys, b, steps, local),
                forall|j: nat| 1 <= j < steps ==> #[trigger] iterate(gkeys, b, j, local) >= n,
            decreases k0 - steps,
        {
            idx = self.network.permute(idx);
            proof {
                steps = steps + 1;
            }
        }
        proof {
            assert(is_first_hit(gkeys, b, n, local, steps));
            lemma_walk_result(gkeys, b, n, local, steps);
            assert(self.words.deep_view()[idx as int] == self.words@[idx as int]@);
        }
        self.words[idx as usize].clone()
    }
}

/// Two generators built over the same items, window length, and seed choose
/// the same index and the same item for every day; in particular, repeated
/// queries of one generator for one day always agree.
pub proof fn lemma_reproducible(w1: &Wordle, w2: &Wordle, day: u64)
    requires
        w1.wf(),
        w2.wf(),
        w1.spec_items() == w2.spec_items(),
        w1.spec_window_len() == w2.spec_window_len(),
        w1.spec_seed() == w2.spec_seed(),
    ensures
        w1.spec_index(day) == w2.spec_index(day),
        w1.spec_word(day) == w2.spec_word(day),
{
}

/// When the window length equals the item count, one window's map from
/// window-relative days to indices is a bijection onto the item indices:
/// injective, in range, and reaching every item.  Over one window every
/// item is therefore chosen exactly once.
pub proof fn lemma_window_exhaustive(w: &Wordle, window: u64)
    requires
        w.wf(),
        w.spec_window_len() as int == w.spec_items().len(),
    ensures
        forall|l1: u64, l2: u64|
            l1 < w.spec_window_len() && l2 < w.spec_window_len()
                && #[trigger] w.spec_local_index(window, l1) == #[trigger] w.spec_local_index(
                window,
                l2,
            ) ==> l1 == l2,
        forall|l: u64|
            l < w.spec_window_len() ==> (#[trigger] w.spec_local_index(window, l) as int)
                < w.spec_items().len(),
        forall|v: u64|
            (v as int) < w.spec_items().len() ==> #[trigger] walk_reaches(
                window_keys(w.spec_seed(), window),
                w.spec_bit_len(),
                w.spec_items().len() as u64,
                v,
            ),
{
    assert(w.spec_items().len() as u64 == w.spec_window_len());
    lemma_walk_bijective(
        window_keys(w.spec_seed(), window),
        w.spec_bit_len(),
        w.spec_items().len() as u64,
    );
}

/// Every chosen index addresses an item: for each day whose
/// window-relative offset `get` admits, the index lies inside the list.
pub proof fn lemma_index_in_range(w: &Wordle, day: u64)
    requires
        w.wf(),
        day % w.spec_window_len() < w.spec_items().len(),
    ensures
        (w.spec_index(day) as int) < w.spec_items().len(),
{
    let keys = window_keys(w.spec_seed(), day / w.spec_window_len());
    let n = w.spec_items().len() as u64;
    let local = day % w.spec_window_len();
    lemma_walk_hits(keys, w.spec_bit_len(), n, local);
    let k = choose|k: nat| is_first_hit(keys, w.spec_bit_len(), n, local, k);
    lemma_walk_result(keys, w.spec_bit_len(), n, local, k);
}

/// A single-item generator always chooses that item, for every day whose
/// window-relative offset `get` admits.
pub proof fn lemma_single_item(w: &Wordle, day: u64)
    requires
        w.wf(),
        w.spec_items().len() == 1,
        day % w.spec_window_len() < w.spec_items().len(),
    ensures
        w.spec_index(day) == 0,
        w.spec_word(day) == w.spec_items()[0],
{
    let keys = window_keys(w.spec_seed(), day / w.spec_window_len());
    let local = day % w.spec_window_len();
    lemma_walk_hits(keys, w.spec_bit_len(), 1, local);
    let k = choose|k: nat| is_first_hit(keys, w.spec_bit_len(), 1, local, k);
    lemma_walk_result(keys, w.spec_bit_len(), 1, local, k);
}

} // verus!
