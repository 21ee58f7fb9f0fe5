//! What the program's commands come to.
use vstd::prelude::*;

use crate::commands::{
    bench_order, nth_state, resized, scattered, scattered_offset, BenchStep,
};
use crate::config::ConfigView;
use crate::digest::hex_text;
use crate::telegram::upload_caption;
use crate::text::decimal;
use crate::text_laws::hex_value;

verus! {

/// Formatting takes the sizes that are given, an object size by its lower 32 bits, and every other
/// setting as it is.
pub proof fn law_format_takes_the_sizes_given(
    config: ConfigView,
    size: Option<u64>,
    object_size: Option<u64>,
)
    ensures
        ({
            let settings = resized(config, size, object_size);
            &&& settings.device_size == if size is Some {
                size->0
            } else {
                config.device_size
            }
            &&& settings.object_size == if object_size is Some {
                object_size->0 as int % 0x1_0000_0000
            } else {
                config.object_size as int
            }
            &&& settings.logical_sector_size == config.logical_sector_size
            &&& settings.cache_dir == config.cache_dir
            &&& settings.sqlite_path == config.sqlite_path
            &&& settings.telegram_api_id == config.telegram_api_id
            &&& settings.telegram_api_hash == config.telegram_api_hash
            &&& settings.telegram_session_path == config.telegram_session_path
            &&& settings.telegram_channel_id == config.telegram_channel_id
            &&& settings.telegram_channel_access_hash == config.telegram_channel_access_hash
            &&& settings.telegram_channel_title == config.telegram_channel_title
            &&& settings.read_only == config.read_only
        }),
{
    if object_size is Some {
        let n = object_size->0;
        assert(n as u32 == n % 0x1_0000_0000) by (bit_vector);
    }
}

/// A benchmark writes every extent, flushes, reads every extent, reads and then writes the sectors
/// at random, and flushes again, each once and in the order given.
pub proof fn law_bench_does_everything_once(
    extents: Seq<(u64, usize)>,
    reads: Seq<u64>,
    writes: Seq<u64>,
    i: int,
)
    ensures
        ({
            let steps = bench_order(extents, reads, writes);
            let (e, r, w) = (extents.len() as int, reads.len() as int, writes.len() as int);
            &&& steps.len() == e + 1 + e + r + w + 1
            &&& 0 <= i < e ==> steps[i] == (BenchStep::WriteExtent {
                offset: extents[i].0,
                len: extents[i].1,
            })
            &&& steps[e] == BenchStep::FirstFlush
            &&& 0 <= i < e ==> steps[e + 1 + i] == (BenchStep::ReadExtent {
                offset: extents[i].0,
                len: extents[i].1,
            })
            &&& 0 <= i < r ==> steps[e + 1 + e + i] == (BenchStep::ReadSector { offset: reads[i] })
            &&& 0 <= i < w ==> steps[e + 1 + e + r + i] == (BenchStep::WriteSector {
                offset: writes[i],
            })
            &&& steps.last() == BenchStep::FinalFlush
        }),
{
}

/// The bytes that a benchmark writes depend on the seed alone, each on the state before it: the
/// state is shifted and mixed three times. Its scattered offsets are sectors of the device, told
/// by their index.
pub proof fn law_bench_data_is_told_by_the_seed(
    seed: u64,
    count: nat,
    index: u64,
    modulus: u64,
    device_size: u64,
    sector_size: u32,
)
    requires
        0 < modulus,
        0 < sector_size <= device_size,
    ensures
        nth_state(seed, 0) == seed,
        nth_state(seed, count + 1) == {
            let state = nth_state(seed, count);
            let once = state ^ (state << 13);
            let twice = once ^ (once >> 7);
            twice ^ (twice << 17)
        },
        scattered(index, modulus) == ((index * 6_364_136_223_846_793_005 + 1)
            % 0x1_0000_0000_0000_0000) % (modulus as int),
        scattered(index, 0) == 0,
        scattered_offset(device_size, sector_size, index) as int % sector_size as int == 0,
{
    let sectors = device_size / sector_size as u64;
    let (d, s) = (device_size as int, sector_size as int);
    let n = scattered(index, sectors) as int;
    vstd::arithmetic::div_mod::lemma_fundamental_div_mod(d, s);
    assert(0 <= n * s <= d) by (nonlinear_arith)
        requires
            d == s * (d / s) + d % s,
            d % s >= 0,
            0 <= n <= d / s,
            s > 0,
    ;
    vstd::arithmetic::div_mod::lemma_mod_multiples_basic(n, s);
}

/// A digest is written as two hexadecimal digits for each of its bytes, in order.
pub proof fn law_digest_is_spelled_byte_by_byte(bytes: Seq<u8>, i: int)
    requires
        0 <= i < bytes.len(),
    ensures
        hex_text(bytes).len() == 2 * bytes.len(),
        hex_value(hex_text(bytes)[2 * i]) * 16 + hex_value(hex_text(bytes)[2 * i + 1]) == bytes[i],
{
}

/// The caption of an upload gives its number and its generation in decimal, and its digest.
pub proof fn law_caption_tells_what_was_uploaded(
    object_id: u64,
    generation: u64,
    sha256: Seq<char>,
)
    ensures
        upload_caption(object_id, generation, sha256) == "TGDRIVE object="@ + decimal(
            object_id as nat,
        ) + " generation="@ + decimal(generation as nat) + " sha256="@ + sha256,
{
}

} // verus!
