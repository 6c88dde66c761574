use vstd::prelude::*;
use rand::RngCore;

verus! {

use crate::IdError;
use crate::base62::b62_encoding;
use crate::base62::base62_encode;
use crate::base62::be_val;
use crate::base62::is_base62_char;

/// The big-endian bytes of a 32-bit timestamp.
pub open spec fn u32_be_bytes(t: u32) -> Seq<u8> {
    seq![
        (t / 0x100_0000) as u8,
        ((t / 0x1_0000) % 0x100) as u8,
        ((t / 0x100) % 0x100) as u8,
        (t % 0x100) as u8,
    ]
}

/// Relies on rand::thread_rng and RngCore::fill_bytes: the buffer is filled
/// completely from the thread-local generator. Nothing can be promised of
/// the byte values themselves.
#[verifier::external_body]
fn generate_random_bytes(length: usize) -> (r: Vec<u8>)
    ensures
        r@.len() == length,
{
    let mut random_bytes = vec![0u8; length];
    rand::thread_rng().fill_bytes(&mut random_bytes);
    random_bytes
}

/// Relies on std::time::SystemTime::now and its duration_since(UNIX_EPOCH):
/// the wall clock as whole seconds since the Unix epoch, truncated to the
/// 32 bits a KSUID timestamp holds; `None` when the clock reads earlier
/// than the epoch.
#[verifier::external_body]
fn current_unix_secs() -> (r: Option<u32>) {
    match std::time::SystemTime::now().duration_since(std::time::UNIX_EPOCH) {
        Ok(d) => Some(d.as_secs() as u32),
        Err(_) => None,
    }
}

/// Build the KSUID string for timestamp `secs` and a 16-byte random payload:
/// the base62 rendering of the 20-byte payload of `secs` followed by
/// `random`, exactly 27 characters of the alphabet.
pub fn ksuid_from_parts(secs: u32, random: &Vec<u8>) -> (r: String)
    requires
        random@.len() == 16,
    ensures
        r@ == b62_encoding(be_val(u32_be_bytes(secs) + random@)),
        r@.len() == 27,
        forall|i: int| 0 <= i < r@.len() ==> is_base62_char(#[trigger] r@[i]),
{
    let mut payload: Vec<u8> = Vec::new();
    payload.push((secs / 0x100_0000) as u8);
    payload.push(((secs / 0x1_0000) % 0x100) as u8);
    payload.push(((secs / 0x100) % 0x100) as u8);
    payload.push((secs % 0x100) as u8);
    proof {
        assert(payload@ =~= u32_be_bytes(secs));
    }
    let mut k: usize = 0;
    while k < 16
        invariant
            k <= 16,
            random@.len() == 16,
            payload@ =~= u32_be_bytes(secs) + random@.take(k as int),
        decreases 16 - k,
    {
        payload.push(random[k]);
        proof {
            assert(payload@ =~= u32_be_bytes(secs) + random@.take(k + 1));
        }
        k = k + 1;
    }
    proof {
        assert(u32_be_bytes(secs) + random@.take(16) =~= u32_be_bytes(secs) + random@);
    }
    base62_encode(payload.as_slice())
}

/// Generate one KSUID: 4 bytes of Unix-seconds timestamp followed by 16
/// random bytes, rendered as 27 base62 characters. Fails only when the wall
/// clock cannot be read.
pub fn generate_ksuid() -> (r: Result<String, IdError>)
    ensures
        r matches Ok(s) ==> s@.len() == 27 && (forall|i: int|
            0 <= i < s@.len() ==> is_base62_char(#[trigger] s@[i])),
{
    let secs = match current_unix_secs() {
        Some(t) => t,
        None => { return Err(IdError::SystemClockUnavailable) },
    };
    let random_bytes = generate_random_bytes(16);
    Ok(ksuid_from_parts(secs, &random_bytes))
}

} // verus!
