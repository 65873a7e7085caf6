//! Random numbers that replay identically: each call is seeded by an
//! FNV-1a hash of who calls what, in which order and with which
//! arguments, and numbers are drawn from the seed with SplitMix64.
use vstd::prelude::*;
use vstd::wrapping::u64_specs;
use vstd::string::StringSliceAdditionalSpecFns;
use crate::node::NodeId;
use crate::runtime::reducer::CallFrameKind;

verus! {

pub const FNV_OFFSET: u64 = 0xcbf29ce484222325;

pub const FNV_PRIME: u64 = 0x100000001b3;

/// FNV-1a over `bytes`, starting from `hash`.
pub open spec fn fnv1a_spec(hash: u64, bytes: Seq<u8>) -> u64
    decreases bytes.len(),
{
    if bytes.len() == 0 {
        hash
    } else {
        u64_specs::wrapping_mul(fnv1a_spec(hash, bytes.drop_last()) ^ (bytes.last() as u64), FNV_PRIME)
    }
}

/// Hash `bytes` into `hash` with FNV-1a.
pub fn fnv1a(hash: u64, bytes: &[u8]) -> (r: u64)
    ensures
        r == fnv1a_spec(hash, bytes@),
{
    let mut h = hash;
    let mut i: usize = 0;
    while i < bytes.len()
        invariant
            i <= bytes@.len(),
            h == fnv1a_spec(hash, bytes@.take(i as int)),
        decreases bytes.len() - i,
    {
        proof {
            assert(bytes@.take(i + 1).drop_last() =~= bytes@.take(i as int));
        }
        h = (h ^ bytes[i] as u64).wrapping_mul(FNV_PRIME);
        i = i + 1;
    }
    proof {
        assert(bytes@.take(i as int) =~= bytes@);
    }
    h
}

/// The sixteen bytes of a node id, most significant first.
pub open spec fn node_id_bytes(id: NodeId) -> Seq<u8> {
    Seq::new(16, |i: int| ((id as int / vstd::arithmetic::power::pow(256, (15 - i) as nat)) % 256) as u8)
}

/// The bytes of `uuid::Uuid::from_u128(id)` as `Uuid::as_bytes` gives
/// them: `from_u128` stores the big-endian bytes of `id`.
#[verifier::external_body]
fn node_bytes(id: NodeId) -> (r: Vec<u8>)
    ensures
        r@ == node_id_bytes(id),
{
    uuid::Uuid::from_u128(id).as_bytes().to_vec()
}

/// The eight bytes of `v`, least significant first.
pub open spec fn le_bytes(v: u64) -> Seq<u8> {
    Seq::new(8, |i: int| ((v as int / vstd::arithmetic::power::pow(256, i as nat)) % 256) as u8)
}

/// Calls `u64::to_le_bytes`, which gives the bytes of `v` least
/// significant first.
#[verifier::external_body]
fn little_endian_bytes(v: u64) -> (r: Vec<u8>)
    ensures
        r@ == le_bytes(v),
{
    v.to_le_bytes().to_vec()
}

/// The byte that stands for a call kind in a seed.
pub open spec fn kind_byte(kind: CallFrameKind) -> u8 {
    match kind {
        CallFrameKind::Reducer => 1,
        CallFrameKind::Query => 2,
    }
}

/// The seed of a call: FNV-1a over the caller's node id, the module name,
/// the entry name, the call kind, the call's sequence number and the
/// encoded arguments; a zero hash is replaced by the FNV offset.
pub open spec fn call_seed(
    caller: NodeId,
    module: Seq<u8>,
    entry: Seq<u8>,
    kind: CallFrameKind,
    call_sequence: u64,
    args: Seq<u8>,
) -> u64 {
    let h = fnv1a_spec(FNV_OFFSET, node_id_bytes(caller));
    let h = fnv1a_spec(h, module);
    let h = fnv1a_spec(h, entry);
    let h = fnv1a_spec(h, seq![kind_byte(kind)]);
    let h = fnv1a_spec(h, le_bytes(call_sequence));
    let h = fnv1a_spec(h, args);
    if h == 0 {
        FNV_OFFSET
    } else {
        h
    }
}

/// The seed for a call, given its encoded arguments `args_bytes`.
pub fn seed_from_call(
    caller_node_id: &NodeId,
    module_name: &str,
    entry_name: &str,
    kind: CallFrameKind,
    call_sequence: u64,
    args_bytes: &[u8],
) -> (r: u64)
    ensures
        r == call_seed(
            *caller_node_id,
            module_name.spec_bytes(),
            entry_name.spec_bytes(),
            kind,
            call_sequence,
            args_bytes@,
        ),
        r != 0,
{
    let mut hash = FNV_OFFSET;
    let node = node_bytes(*caller_node_id);
    hash = fnv1a(hash, node.as_slice());
    hash = fnv1a(hash, module_name.as_bytes());
    hash = fnv1a(hash, entry_name.as_bytes());
    let k: u8 = match kind {
        CallFrameKind::Reducer => 1,
        CallFrameKind::Query => 2,
    };
    let kind_bytes = [k];
    proof {
        assert(kind_bytes@ =~= seq![kind_byte(kind)]);
    }
    hash = fnv1a(hash, &kind_bytes);
    let seq_bytes = little_endian_bytes(call_sequence);
    hash = fnv1a(hash, seq_bytes.as_slice());
    hash = fnv1a(hash, args_bytes);
    if hash == 0 {
        hash = FNV_OFFSET;
    }
    hash
}

pub const SPLITMIX_GAMMA: u64 = 0x9E3779B97F4A7C15;

/// The state after one SplitMix64 step.
pub open spec fn splitmix_state(state: u64) -> u64 {
    u64_specs::wrapping_add(state, SPLITMIX_GAMMA)
}

/// The number one SplitMix64 step gives from the advanced state `z`.
pub open spec fn splitmix_output(z: u64) -> u64 {
    let z1 = u64_specs::wrapping_mul(z ^ (z >> 30u64), 0xBF58476D1CE4E5B9);
    let z2 = u64_specs::wrapping_mul(z1 ^ (z1 >> 27u64), 0x94D049BB133111EB);
    z2 ^ (z2 >> 31u64)
}

/// Advance `state` by one SplitMix64 step and return the number drawn.
pub fn next_u64(state: &mut u64) -> (r: u64)
    ensures
        *final(state) == splitmix_state(*old(state)),
        r == splitmix_output(*final(state)),
{
    *state = state.wrapping_add(SPLITMIX_GAMMA);
    let mut z = *state;
    z = (z ^ (z >> 30)).wrapping_mul(0xBF58476D1CE4E5B9);
    z = (z ^ (z >> 27)).wrapping_mul(0x94D049BB133111EB);
    z ^ (z >> 31)
}

} // verus!
