//! The search itself: the validated target, the per-worker loop that
//! generates candidates and races to claim the found flag, and the
//! search-size and thread-count calculations around it.

use crate::encoding::charset_index;
use crate::encoding::encode_address;
use crate::encoding::spec_charset_rev;
use crate::encoding::spec_encode_address;
use crate::encoding::valid_hrp;
use crate::encoding::SEPARATOR;
use crate::keys::derive_pkh;
use crate::keys::encode_extended_key;
use crate::keys::generate_keypair_bytes;
use crate::keys::hex_encode;
use crate::keys::spec_extended_record;
use crate::keys::spec_hex;
use crate::keys::spec_pkh;
use crate::keys::spec_xprv_hrp;
use crate::state::SharedSearchState;
use vstd::prelude::*;

verus! {

/// How many loop iterations a worker runs between checks of the shared found
/// flag, and the batch it adds to the shared attempt counter.
pub const COORDINATION_INTERVAL: u64 = 500;

/// Whether every byte of a vanity string is a symbol of the encoding
/// alphabet.
pub open spec fn valid_vanity(v: Seq<u8>) -> bool {
    forall|i: int| 0 <= i < v.len() ==> #[trigger] spec_charset_rev(v[i]) is Some
}

/// Why a search target was rejected.
#[derive(Clone, Copy, Debug, PartialEq, Eq, Structural)]
pub enum ValidationError {
    /// The human-readable prefix is empty, longer than the format allows, or
    /// holds a byte outside printable ASCII.
    InvalidHrp,
    /// The vanity string holds this byte, which is not a symbol of the
    /// encoding alphabet.
    InvalidVanityByte(u8),
}

/// What a found address must begin with: the prefix, the separator, and the
/// vanity string.
pub open spec fn spec_full_prefix(hrp: Seq<u8>, vanity: Seq<u8>) -> Seq<u8> {
    hrp + seq![SEPARATOR] + vanity
}

/// Whether one byte sequence starts with another.
pub open spec fn starts_with(s: Seq<u8>, prefix: Seq<u8>) -> bool {
    s.len() >= prefix.len() && s.take(prefix.len() as int) == prefix
}

/// The target of a search: the human-readable prefix and the vanity string
/// an address must show right after the separator. Immutable for a whole
/// run and shared read-only by all workers.
pub struct SearchTarget {
    pub hrp: Vec<u8>,
    pub vanity: Vec<u8>,
}

impl SearchTarget {
    /// A well-formed target: a valid prefix and a vanity string written in
    /// the encoding alphabet.
    pub open spec fn wf(&self) -> bool {
        valid_hrp(self.hrp@) && valid_vanity(self.vanity@)
    }

    /// What a found address must begin with.
    pub open spec fn spec_prefix(&self) -> Seq<u8> {
        spec_full_prefix(self.hrp@, self.vanity@)
    }

    /// Validates a prefix and a vanity string into a target. Rejects an
    /// invalid prefix, and a vanity string whose first offending byte falls
    /// outside the alphabet; accepts exactly the well-formed targets.
    pub fn new(hrp: Vec<u8>, vanity: Vec<u8>) -> (r: Result<SearchTarget, ValidationError>)
        ensures
            match r {
                Ok(t) => t.wf() && t.hrp@ == hrp@ && t.vanity@ == vanity@,
                Err(ValidationError::InvalidHrp) => !valid_hrp(hrp@),
                Err(ValidationError::InvalidVanityByte(c)) => valid_hrp(hrp@) && exists|i: int|
                    0 <= i < vanity@.len() && vanity@[i] == c && #[trigger] spec_charset_rev(
                        vanity@[i],
                    ) is None,
            },
    {
        let hn = hrp.len();
        if hn < 1 || hn > 83 {
            return Err(ValidationError::InvalidHrp);
        }
        let mut i: usize = 0;
        while i < hn
            invariant
                hn == hrp@.len(),
                i <= hn,
                forall|t: int| 0 <= t < i as int ==> 33 <= #[trigger] hrp@[t] <= 126,
            decreases hn - i,
        {
            let b = hrp[i];
            if b < 33 || b > 126 {
                return Err(ValidationError::InvalidHrp);
            }
            i = i + 1;
        }
        let vn = vanity.len();
        let mut k: usize = 0;
        while k < vn
            invariant
                vn == vanity@.len(),
                k <= vn,
                valid_hrp(hrp@),
                forall|t: int| 0 <= t < k as int ==> #[trigger] spec_charset_rev(vanity@[t])
                    is Some,
            decreases vn - k,
        {
            let c = vanity[k];
            if charset_index(c).is_none() {
                proof {
                    assert(spec_charset_rev(vanity@[k as int]) is None);
                }
                return Err(ValidationError::InvalidVanityByte(c));
            }
            k = k + 1;
        }
        Ok(SearchTarget { hrp, vanity })
    }

    /// The full byte prefix a found address must begin with.
    pub fn full_prefix(&self) -> (r: Vec<u8>)
        ensures
            r@ == self.spec_prefix(),
    {
        let mut r: Vec<u8> = Vec::new();
        let mut i: usize = 0;
        while i < self.hrp.len()
            invariant
                i <= self.hrp@.len(),
                r@ == self.hrp@.take(i as int),
            decreases self.hrp@.len() - i,
        {
            r.push(self.hrp[i]);
            proof {
                assert(self.hrp@.take(i as int + 1) =~= self.hrp@.take(i as int).push(
                    self.hrp@[i as int],
                ));
            }
            i = i + 1;
        }
        proof {
            assert(self.hrp@.take(self.hrp@.len() as int) =~= self.hrp@);
        }
        r.push(SEPARATOR);
        let mut k: usize = 0;
        while k < self.vanity.len()
            invariant
                k <= self.vanity@.len(),
                r@ == self.hrp@ + seq![SEPARATOR] + self.vanity@.take(k as int),
            decreases self.vanity@.len() - k,
        {
            r.push(self.vanity[k]);
            proof {
                assert(self.hrp@ + seq![SEPARATOR] + self.vanity@.take(k as int + 1) =~= (self.hrp@
                    + seq![SEPARATOR] + self.vanity@.take(k as int)).push(self.vanity@[k as int]));
            }
            k = k + 1;
        }
        proof {
            assert(self.vanity@.take(self.vanity@.len() as int) =~= self.vanity@);
            assert(r@ =~= self.spec_prefix());
        }
        r
    }
}

/// Whether a byte sequence starts with a prefix, decided byte by byte.
pub fn bytes_start_with(s: &Vec<u8>, prefix: &Vec<u8>) -> (r: bool)
    ensures
        r == starts_with(s@, prefix@),
{
    let pn = prefix.len();
    if s.len() < pn {
        return false;
    }
    let mut i: usize = 0;
    while i < pn
        invariant
            pn == prefix@.len(),
            pn <= s@.len(),
            i <= pn,
            forall|t: int| 0 <= t < i as int ==> s@[t] == prefix@[t],
        decreases pn - i,
    {
        if s[i] != prefix[i] {
            proof {
                assert(s@.take(pn as int)[i as int] != prefix@[i as int]);
            }
            return false;
        }
        i = i + 1;
    }
    proof {
        assert(s@.take(pn as int) =~= prefix@);
    }
    true
}

/// One found key pair, ready to print: the scalar in hexadecimal, the
/// encoded extended private key, and the matched address.
pub struct FoundResult {
    pub secret_key: Vec<u8>,
    pub public_key: Vec<u8>,
    pub chain_code: Vec<u8>,
    pub secret_key_hex: Vec<u8>,
    pub extended_key: Vec<u8>,
    pub address: Vec<u8>,
}

/// What a reported result guarantees: the address is the encoding of the
/// public key's identifier under the target prefix and begins with the
/// target's full prefix; the extended key encodes the 66-byte record of the
/// chain code and scalar; the hexadecimal form writes the scalar.
pub open spec fn found_result_wf(f: FoundResult, hrp: Seq<u8>, vanity: Seq<u8>) -> bool {
    &&& f.secret_key@.len() == 32
    &&& f.public_key@.len() == 33
    &&& f.chain_code@.len() == 32
    &&& f.address@ == spec_encode_address(hrp, spec_pkh(f.public_key@))
    &&& starts_with(f.address@, spec_full_prefix(hrp, vanity))
    &&& f.extended_key@ == spec_encode_address(
        spec_xprv_hrp(),
        spec_extended_record(f.chain_code@, f.secret_key@),
    )
    &&& f.secret_key_hex@ == spec_hex(f.secret_key@)
}

/// The per-worker search loop. Each iteration draws a fresh key pair,
/// derives and encodes its address, and tests it against the target prefix.
/// On a match the worker races to claim the shared found flag: the winner
/// assembles and returns the result, a loser discards its match silently.
/// Every coordination interval the worker also polls the flag — returning
/// `None` once another worker has won — and adds its batch to the shared
/// attempt counter. Whether and when a match occurs depends on the random
/// draws; the loop carries a sixty-four bit iteration budget, which at any
/// realistic rate outlives the hardware, and a worker that exhausts it
/// reports nothing. Whatever is returned is promised to be well formed for
/// the target.
pub fn run_worker(target: &SearchTarget, shared: &SharedSearchState) -> (r: Option<FoundResult>)
    requires
        target.wf(),
    ensures
        match r {
            Some(f) => found_result_wf(f, target.hrp@, target.vanity@),
            None => true,
        },
{
    let full_prefix = target.full_prefix();
    let mut since_update: u64 = 0;
    let mut budget: u64 = u64::MAX;
    while budget > 0
        invariant
            target.wf(),
            full_prefix@ == target.spec_prefix(),
            since_update < COORDINATION_INTERVAL,
        decreases budget,
    {
        budget = budget - 1;
        let (secret_key, public_key) = generate_keypair_bytes();
        let pkh = derive_pkh(&public_key);
        let address = encode_address(&target.hrp, &pkh);
        if bytes_start_with(&address, &full_prefix) {
            // Count the attempts of the unfinished batch before reporting.
            shared.add_attempts(since_update);
            if shared.is_found() {
                return None;
            }
            if shared.try_claim_found() {
                let (chain_code, extended_key) = encode_extended_key(&secret_key);
                let secret_key_hex = hex_encode(&secret_key);
                return Some(
                    FoundResult {
                        secret_key,
                        public_key,
                        chain_code,
                        secret_key_hex,
                        extended_key,
                        address,
                    },
                );
            } else {
                return None;
            }
        }
        since_update = since_update + 1;
        if since_update == COORDINATION_INTERVAL {
            if shared.is_found() {
                return None;
            }
            shared.add_attempts(COORDINATION_INTERVAL);
            since_update = 0;
        }
    }
    None
}

/// With an empty vanity string every candidate matches: any encoded address
/// under the target prefix begins with the prefix and the separator, which
/// is the whole of what an empty vanity string asks for.
pub proof fn lemma_empty_vanity_always_matches(hrp: Seq<u8>, vanity: Seq<u8>, data: Seq<u8>)
    requires
        vanity.len() == 0,
    ensures
        starts_with(spec_encode_address(hrp, data), spec_full_prefix(hrp, vanity)),
{
    let addr = spec_encode_address(hrp, data);
    let prefix = spec_full_prefix(hrp, vanity);
    assert(prefix =~= hrp + seq![SEPARATOR]);
    assert(addr.take(prefix.len() as int) =~= prefix);
}

/// The expected number of attempts until a match: thirty-two to the power of
/// the vanity string's length.
pub open spec fn pow32(n: nat) -> nat
    decreases n,
{
    if n == 0 {
        1
    } else {
        32 * pow32((n - 1) as nat)
    }
}

proof fn lemma_pow32_monotone(a: nat, b: nat)
    requires
        a <= b,
    ensures
        pow32(a) <= pow32(b),
    decreases b,
{
    if a < b {
        lemma_pow32_monotone(a, (b - 1) as nat);
        assert(pow32(b) == 32 * pow32((b - 1) as nat));
    }
}

/// The estimated size of the search: thirty-two to the power of the vanity
/// string's length. Twelve characters is the longest vanity string whose
/// estimate fits a sixty-four bit counter.
pub fn estimated_attempts(vanity_len: usize) -> (r: u64)
    requires
        vanity_len <= 12,
    ensures
        r == pow32(vanity_len as nat),
{
    let mut acc: u64 = 1;
    let mut i: usize = 0;
    while i < vanity_len
        invariant
            vanity_len <= 12,
            i <= vanity_len,
            acc == pow32(i as nat),
        decreases vanity_len - i,
    {
        proof {
            lemma_pow32_monotone(i as nat + 1, 12);
            reveal_with_fuel(pow32, 13);
            assert(pow32(12) == 0x1000000000000000);
        }
        acc = acc * 32;
        i = i + 1;
    }
    acc
}

/// Relies on num_cpus::get, which reports at least one available hardware
/// thread.
#[verifier::external_body]
fn available_cpus() -> (r: usize)
    ensures
        r >= 1,
{
    num_cpus::get()
}

/// The worker count a request resolves to: the requested count clamped to
/// the available hardware parallelism, or all of it when nothing was
/// requested.
pub fn clamp_thread_count(requested: Option<usize>, available: usize) -> (r: usize)
    requires
        available >= 1,
    ensures
        r == match requested {
            Option::None => available as int,
            Option::Some(n) => if n < available {
                n as int
            } else {
                available as int
            },
        },
{
    match requested {
        None => available,
        Some(n) => if n < available {
            n
        } else {
            available
        },
    }
}

/// Resolves a requested worker count against the machine: whatever the
/// hardware offers, the result never exceeds a requested count and is
/// positive whenever the request is positive or absent.
pub fn choose_thread_count(requested: Option<usize>) -> (r: usize)
    ensures
        match requested {
            Option::None => r >= 1,
            Option::Some(n) => r <= n && (n >= 1 ==> r >= 1),
        },
{
    let available = available_cpus();
    clamp_thread_count(requested, available)
}

} // verus!
