use vstd::prelude::*;

use vstd::math::min;
use vstd::utf8::{decode_utf8, valid_utf8};

use crate::error::NetError;

verus! {

/// What one read operation asks of a stream.
#[derive(Clone, Copy, Debug, PartialEq, Eq, Structural)]
pub enum ReadPlan {
    /// Read until the peer closes its write side.
    ToEnd,
    /// One read call into a buffer of exactly this many bytes.
    Once(usize),
}

/// The sizing policy of a bounded read. `system_max == 0` means no ceiling,
/// `requested_len == 0` means no explicit limit. A negative request sets no
/// limit of its own beyond the ceiling.
pub open spec fn plan_for(system_max: usize, requested_len: i64) -> ReadPlan {
    if system_max == 0 && requested_len == 0 {
        ReadPlan::ToEnd
    } else if system_max == 0 && requested_len > 0 {
        ReadPlan::Once(requested_len as usize)
    } else if system_max > 0 && requested_len == 0 {
        ReadPlan::Once(system_max)
    } else if system_max > 0 && requested_len > 0 {
        ReadPlan::Once(min(system_max as int, requested_len as int) as usize)
    } else {
        ReadPlan::Once(system_max)
    }
}

/// The four regimes of a bounded read: with neither a ceiling nor a limit the
/// read goes to the end of the stream; otherwise it is one read into a buffer
/// of the requested length, of the ceiling, or of the smaller of the two.
pub proof fn lemma_read_regimes(system_max: usize, requested_len: i64)
    requires
        requested_len >= 0,
    ensures
        system_max == 0 && requested_len == 0 ==> plan_for(system_max, requested_len)
            == ReadPlan::ToEnd,
        system_max == 0 && requested_len > 0 ==> plan_for(system_max, requested_len)
            == ReadPlan::Once(requested_len as usize),
        system_max > 0 && requested_len == 0 ==> plan_for(system_max, requested_len)
            == ReadPlan::Once(system_max),
        system_max > 0 && requested_len > 0 ==> (plan_for(system_max, requested_len) matches ReadPlan::Once(n)
            && n as int == min(system_max as int, requested_len as int)),
{
}

/// Chooses how many bytes one read asks for, from the caller's requested
/// length and the system-wide ceiling.
pub fn read_plan(system_max: usize, requested_len: i64) -> (r: ReadPlan)
    ensures
        r == plan_for(system_max, requested_len),
{
    if system_max == 0 && requested_len == 0 {
        ReadPlan::ToEnd
    } else if system_max == 0 && requested_len > 0 {
        ReadPlan::Once(requested_len as usize)
    } else if requested_len > 0 && (requested_len as u64) < (system_max as u64) {
        ReadPlan::Once(requested_len as usize)
    } else {
        ReadPlan::Once(system_max)
    }
}

/// The buffer that a plan hands to the stream: empty for a read to the end
/// (which appends), else zeroed and of the planned size.
pub fn read_buffer(plan: ReadPlan) -> (r: Vec<u8>)
    ensures
        match plan {
            ReadPlan::ToEnd => r@.len() == 0,
            ReadPlan::Once(n) => r@ == Seq::new(n as nat, |i: int| 0u8),
        },
{
    match plan {
        ReadPlan::ToEnd => Vec::new(),
        ReadPlan::Once(n) => {
            let mut buf: Vec<u8> = Vec::with_capacity(n);
            let mut i: usize = 0;
            while i < n
                invariant
                    i <= n,
                    buf@ == Seq::new(i as nat, |k: int| 0u8),
                decreases n - i,
            {
                buf.push(0u8);
                i = i + 1;
                assert(buf@ =~= Seq::new(i as nat, |k: int| 0u8));
            }
            buf
        },
    }
}

/// Keeps the bytes that a read reported, and drops the rest of the buffer.
pub fn finish_blob_read(buf: Vec<u8>, read_len: usize) -> (r: Vec<u8>)
    requires
        read_len <= buf@.len(),
    ensures
        r@ == buf@.subrange(0, read_len as int),
{
    let mut buf = buf;
    buf.truncate(read_len);
    buf
}

/// Relies on String::from_utf8: it accepts exactly the well-formed UTF-8
/// byte sequences, and the text then holds the characters they encode.
#[verifier::external_body]
fn decode_text(bytes: Vec<u8>) -> (r: Option<String>)
    ensures
        match r {
            Some(s) => valid_utf8(bytes@) && s@ == decode_utf8(bytes@),
            None => !valid_utf8(bytes@),
        },
{
    String::from_utf8(bytes).ok()
}

/// Keeps the bytes that a read reported and reads them as UTF-8 text.
pub fn finish_text_read(buf: Vec<u8>, read_len: usize) -> (r: Result<String, NetError>)
    requires
        read_len <= buf@.len(),
    ensures
        valid_utf8(buf@.subrange(0, read_len as int)) ==> (r matches Ok(s) && s@ == decode_utf8(
            buf@.subrange(0, read_len as int),
        )),
        !valid_utf8(buf@.subrange(0, read_len as int)) ==> r == Err::<String, NetError>(
            NetError::Text,
        ),
{
    let bytes = finish_blob_read(buf, read_len);
    match decode_text(bytes) {
        Some(s) => Ok(s),
        None => Err(NetError::Text),
    }
}

/// rhai's script engine, carried through without looking inside.
#[verifier::external_type_specification]
#[verifier::external_body]
pub struct ExEngine(rhai::Engine);

/// The maximum string size that an engine is configured with.
pub uninterp spec fn string_limit_of(engine: rhai::Engine) -> usize;

/// The maximum array size that an engine is configured with.
pub uninterp spec fn array_limit_of(engine: rhai::Engine) -> usize;

/// Relies on rhai's Engine::max_string_size: the engine's configured ceiling
/// on the length of a string, 0 when there is none.
pub assume_specification[ rhai::Engine::max_string_size ](engine: &rhai::Engine) -> (r: usize)
    ensures
        r == string_limit_of(*engine),
;

/// Relies on rhai's Engine::max_array_size: the engine's configured ceiling
/// on the length of an array, 0 when there is none.
pub assume_specification[ rhai::Engine::max_array_size ](engine: &rhai::Engine) -> (r: usize)
    ensures
        r == array_limit_of(*engine),
;

/// The plan of a text read: the ceiling is the engine's maximum string size.
pub fn text_read_plan(engine: &rhai::Engine, requested_len: i64) -> (r: ReadPlan)
    ensures
        r == plan_for(string_limit_of(*engine), requested_len),
{
    let m = engine.max_string_size();
    read_plan(m, requested_len)
}

/// The plan of a byte read: the ceiling is the engine's maximum array size.
pub fn blob_read_plan(engine: &rhai::Engine, requested_len: i64) -> (r: ReadPlan)
    ensures
        r == plan_for(array_limit_of(*engine), requested_len),
{
    let m = engine.max_array_size();
    read_plan(m, requested_len)
}

/// Converts a count to the script engine's integer type.
pub fn convert_to_int(val: usize) -> (r: Result<i64, NetError>)
    ensures
        val <= i64::MAX ==> r == Ok::<i64, NetError>(val as i64),
        val > i64::MAX ==> r == Err::<i64, NetError>(NetError::Range),
{
    if (val as u64) <= (i64::MAX as u64) {
        Ok(val as i64)
    } else {
        Err(NetError::Range)
    }
}

} // verus!
