//! What the program's commands decide and compute.
use vstd::prelude::*;

use crate::block::parts_of;
use crate::clock::{is_random_uuid, random_uuid};
use crate::config::{config_problem, ConfigError, ConfigView, TgDriveConfig};
use crate::digest::sha256_text;
use crate::manifest::{empty_manifest, Manifest};
use crate::nbd::NbdServerOptions;
use crate::text::{parse_u64, strip_suffix, trim, trimmed, unsigned_value};

verus! {

/// A text that does not spell a size.
#[derive(Debug, Clone, Copy, PartialEq, Eq, Structural)]
pub struct NotASize;

/// The unit at the end of a size: its name and how many bytes it has. The first one that
/// the text ends with counts.
pub open spec fn size_unit(text: Seq<char>) -> (Seq<char>, nat) {
    if "MiB"@.is_suffix_of(text) {
        ("MiB"@, 1_048_576)
    } else if "GiB"@.is_suffix_of(text) {
        ("GiB"@, 1_073_741_824)
    } else if "KiB"@.is_suffix_of(text) {
        ("KiB"@, 1024)
    } else if "M"@.is_suffix_of(text) {
        ("M"@, 1_000_000)
    } else if "G"@.is_suffix_of(text) {
        ("G"@, 1_000_000_000)
    } else if "K"@.is_suffix_of(text) {
        ("K"@, 1000)
    } else {
        (Seq::empty(), 1)
    }
}

/// The number in front of the unit, if there is one that fits 64 bits.
pub open spec fn size_number(text: Seq<char>) -> Option<nat> {
    let body = trimmed(text);
    let (unit, _) = size_unit(body);
    match unsigned_value(trimmed(body.take(body.len() - unit.len()))) {
        Some(n) => if n <= u64::MAX {
            Some(n)
        } else {
            None
        },
        None => None,
    }
}

/// The size that a text spells, in bytes.
pub open spec fn size_value(text: Seq<char>) -> Option<nat> {
    match size_number(text) {
        Some(n) => Some(n * size_unit(trimmed(text)).1),
        None => None,
    }
}

/// Splits a size, without spaces around it, into the text before its unit and the bytes
/// of the unit.
fn split_size(text: &str) -> (split: (String, u64))
    ensures
        split.0@ == text@.take(text@.len() - size_unit(text@).0.len()),
        split.1 == size_unit(text@).1,
        size_unit(text@).0.len() <= text@.len(),
{
    if let Some(number) = strip_suffix(text, "MiB") {
        assert(number@ =~= text@.take(text@.len() - "MiB"@.len()));
        assert(text@.skip(text@.len() - "MiB"@.len()) =~= "MiB"@);
        (number, 1_048_576)
    } else if let Some(number) = strip_suffix(text, "GiB") {
        assert(number@ =~= text@.take(text@.len() - "GiB"@.len()));
        assert(text@.skip(text@.len() - "GiB"@.len()) =~= "GiB"@);
        (number, 1_073_741_824)
    } else if let Some(number) = strip_suffix(text, "KiB") {
        assert(number@ =~= text@.take(text@.len() - "KiB"@.len()));
        assert(text@.skip(text@.len() - "KiB"@.len()) =~= "KiB"@);
        (number, 1024)
    } else if let Some(number) = strip_suffix(text, "M") {
        assert(number@ =~= text@.take(text@.len() - "M"@.len()));
        assert(text@.skip(text@.len() - "M"@.len()) =~= "M"@);
        (number, 1_000_000)
    } else if let Some(number) = strip_suffix(text, "G") {
        assert(number@ =~= text@.take(text@.len() - "G"@.len()));
        assert(text@.skip(text@.len() - "G"@.len()) =~= "G"@);
        (number, 1_000_000_000)
    } else if let Some(number) = strip_suffix(text, "K") {
        assert(number@ =~= text@.take(text@.len() - "K"@.len()));
        assert(text@.skip(text@.len() - "K"@.len()) =~= "K"@);
        (number, 1000)
    } else {
        assert(text@ =~= text@.take(text@.len() as int));
        (text.to_owned(), 1)
    }
}

/// The number and the bytes of the unit of a size.
fn size_factors(input: &str) -> (factors: Option<(u64, u64)>)
    ensures
        match factors {
            Some((number, unit)) => size_number(input@) == Some(number as nat) && unit == size_unit(
                trimmed(input@),
            ).1,
            None => size_number(input@) is None,
        },
{
    let body = trim(input);
    let (number, unit) = split_size(body.as_str());
    let spelled = trim(number.as_str());
    match parse_u64(spelled.as_str()) {
        Some(n) => Some((n, unit)),
        None => None,
    }
}

/// Tells whether the size that a text spells, if it spells one, fits 64 bits.
pub fn size_fits(input: &str) -> (fits: bool)
    ensures
        fits == (size_value(input@) matches Some(n) ==> n <= u64::MAX),
{
    match size_factors(input) {
        Some((number, unit)) => number.checked_mul(unit).is_some(),
        None => true,
    }
}

/// The size that a text spells, in bytes.
pub fn parse_size(input: &str) -> (result: Result<u64, NotASize>)
    requires
        size_value(input@) matches Some(n) ==> n <= u64::MAX,
    ensures
        match result {
            Ok(size) => size_value(input@) == Some(size as nat),
            Err(_) => size_value(input@) is None,
        },
{
    match size_factors(input) {
        Some((number, unit)) => Ok(number * unit),
        None => Err(NotASize),
    }
}

/// What the server listens on and exports, under the given settings.
pub fn nbd_options(bind: String, export_name: String, config: &TgDriveConfig) -> (options:
    NbdServerOptions)
    ensures
        options.bind == bind,
        options.export_name == export_name,
        options.device_size == config.device_size,
        options.logical_block_size == config.logical_sector_size,
        options.max_inflight == 64,
{
    NbdServerOptions {
        bind,
        export_name,
        device_size: config.device_size,
        logical_block_size: config.logical_sector_size,
        max_inflight: 64,
    }
}

/// Settings with the sizes that a new device gets; an object size keeps its lower 32
/// bits.
pub open spec fn resized(config: ConfigView, size: Option<u64>, object_size: Option<u64>) -> ConfigView {
    ConfigView {
        device_size: match size {
            Some(n) => n,
            None => config.device_size,
        },
        object_size: match object_size {
            Some(n) => n as u32,
            None => config.object_size,
        },
        ..config
    }
}

/// The settings under which a device is formatted.
pub fn format_settings(
    config: &TgDriveConfig,
    size: Option<u64>,
    object_size: Option<u64>,
) -> (result: Result<TgDriveConfig, ConfigError>)
    ensures
        match result {
            Ok(settings) => settings@ == resized(config@, size, object_size) && config_problem(
                settings@,
            ) is None,
            Err(error) => config_problem(resized(config@, size, object_size)) == Some(error),
        },
{
    let mut settings = config.clone();
    if let Some(n) = size {
        settings.device_size = n;
    }
    if let Some(n) = object_size {
        settings.object_size = #[verifier::truncate]
        (n as u32);
    }
    assert(settings@ =~= resized(config@, size, object_size));
    match settings.validate() {
        Ok(()) => Ok(settings),
        Err(error) => Err(error),
    }
}

/// Tells whether local metadata may be replaced: none exists, or it is forced.
pub fn may_replace(exists_already: bool, force: bool) -> (allowed: bool)
    ensures
        allowed == (!exists_already || force),
{
    !exists_already || force
}

/// The manifest of a new device, which gets a random identity.
pub fn new_manifest(object_size: u32, object_count: u64) -> (manifest: Manifest)
    ensures
        is_random_uuid(manifest.device_uuid),
        manifest@ == empty_manifest(manifest.device_uuid, object_size, object_count),
{
    Manifest::empty(random_uuid(), object_size, object_count)
}

/// The local manifest does not have as many objects as the settings ask for.
#[derive(Debug, Clone, Copy, PartialEq, Eq, Structural)]
pub struct ObjectCountMismatch;

/// Checks a local manifest, given with its encoded form, against the settings, and hands
/// back its digest.
pub fn check_manifest(config: &TgDriveConfig, manifest: &Manifest, encoded: &[u8]) -> (result:
    Result<String, ObjectCountMismatch>)
    requires
        config.object_size > 0,
    ensures
        match result {
            Ok(hash) => hash@ == sha256_text(encoded@) && manifest.object_count == parts_of(
                config.device_size as int,
                config.object_size as int,
            ),
            Err(_) => manifest.object_count != parts_of(
                config.device_size as int,
                config.object_size as int,
            ),
        },
{
    let hash = Manifest::hash_hex(encoded);
    if manifest.object_count != config.object_count() {
        return Err(ObjectCountMismatch);
    }
    Ok(hash)
}

/// The next state of the byte generator.
pub open spec fn next_state(state: u64) -> u64 {
    let a = state ^ (state << 13);
    let b = a ^ (a >> 7);
    b ^ (b << 17)
}

/// The state of the byte generator after `count` bytes.
pub open spec fn nth_state(seed: u64, count: nat) -> u64
    decreases count,
{
    if count == 0 {
        seed
    } else {
        next_state(nth_state(seed, (count - 1) as nat))
    }
}

/// Bytes that depend on the seed alone: each is the low byte of the next state.
pub fn deterministic_bytes(len: usize, seed: u64) -> (bytes: Vec<u8>)
    ensures
        bytes@ == Seq::new(len as nat, |i: int| nth_state(seed, (i + 1) as nat) as u8),
{
    let mut state: u64 = seed;
    let mut bytes: Vec<u8> = Vec::new();
    let mut i: usize = 0;
    while i < len
        invariant
            i <= len,
            state == nth_state(seed, i as nat),
            bytes@ == Seq::new(i as nat, |k: int| nth_state(seed, (k + 1) as nat) as u8),
        decreases len - i,
    {
        state = state ^ (state << 13);
        state = state ^ (state >> 7);
        state = state ^ (state << 17);
        bytes.push(#[verifier::truncate] (state as u8));
        i += 1;
        assert(bytes@ =~= Seq::new(i as nat, |k: int| nth_state(seed, (k + 1) as nat) as u8));
    }
    bytes
}

/// A scattered index below the modulus; zero where the modulus is zero.
pub open spec fn scattered(index: u64, modulus: u64) -> u64 {
    if modulus == 0 {
        0
    } else {
        let mixed = (index * 6_364_136_223_846_793_005 + 1) % 0x1_0000_0000_0000_0000;
        (mixed % (modulus as int)) as u64
    }
}

/// A scattered index below the modulus.
pub fn pseudo_random_index(index: u64, modulus: u64) -> (value: u64)
    ensures
        value == scattered(index, modulus),
        modulus > 0 ==> value < modulus,
{
    if modulus == 0 {
        return 0;
    }
    let product = index.wrapping_mul(6_364_136_223_846_793_005);
    let mixed = product.wrapping_add(1);
    proof {
        let p = index * 6_364_136_223_846_793_005;
        let range = 0x1_0000_0000_0000_0000int;
        assert(product == p % range);
        assert(mixed == (p % range + 1) % range);
        vstd::arithmetic::div_mod::lemma_add_mod_noop(p, 1, range);
        assert((p % range + 1int % range) % range == (p + 1) % range);
    }
    mixed % modulus
}

/// The seed of the bytes for whole objects.
pub const OBJECT_SEED: u64 = 0x54_4744_5249_5645;

/// The seed of the bytes for single sectors.
pub const SECTOR_SEED: u64 = 0x5241_4e44_4f4d;

/// How far the indices of random writes are from those of random reads.
pub const WRITE_INDEX_SHIFT: u64 = 0x1000;

/// What a benchmark does: offsets and lengths to write and then to read in order,
/// offsets to read at random, offsets to write at random, and the bytes to write.
#[derive(Debug, PartialEq, Eq)]
pub struct BenchPlan {
    pub extents: Vec<(u64, usize)>,
    pub random_reads: Vec<u64>,
    pub random_writes: Vec<u64>,
    pub object: Vec<u8>,
    pub sector: Vec<u8>,
}

/// The `i`-th extent of a device that is gone through object by object.
pub open spec fn nth_extent(device_size: u64, object_size: u32, i: int) -> (u64, usize) {
    let offset = i * object_size;
    let rest = device_size - offset;
    (
        offset as u64,
        if rest < object_size {
            rest as usize
        } else {
            object_size as usize
        },
    )
}

/// The offset of a scattered sector.
pub open spec fn scattered_offset(device_size: u64, sector_size: u32, index: u64) -> u64 {
    (scattered(index, device_size / sector_size as u64) * sector_size) as u64
}

/// Offsets and lengths that go through a device object by object.
fn extents_of(device_size: u64, object_size: u32) -> (extents: Vec<(u64, usize)>)
    requires
        object_size > 0,
    ensures
        extents@ == Seq::new(
            parts_of(device_size as int, object_size as int) as nat,
            |i: int| nth_extent(device_size, object_size, i),
        ),
{
    let mut extents: Vec<(u64, usize)> = Vec::new();
    let mut offset: u64 = 0;
    let ghost size = object_size as int;
    assert(0 * size == 0) by (nonlinear_arith);
    while offset < device_size
        invariant
            size == object_size,
            size > 0,
            offset <= device_size,
            offset < device_size ==> offset == extents@.len() * size,
            offset == device_size ==> extents@.len() * size >= device_size,
            extents@.len() > 0 ==> (extents@.len() - 1) * size < device_size,
            extents@ == Seq::new(
                extents@.len(),
                |i: int| nth_extent(device_size, object_size, i),
            ),
        decreases device_size - offset,
    {
        let rest: u64 = device_size - offset;
        let take: usize = if rest < object_size as u64 {
            rest as usize
        } else {
            object_size as usize
        };
        let ghost n = extents@.len();
        assert((n + 1) * size == n * size + size) by (nonlinear_arith);
        assert(n + 1 - 1 == n);
        extents.push((offset, take));
        assert(extents@ =~= Seq::new(
            extents@.len(),
            |i: int| nth_extent(device_size, object_size, i),
        ));
        offset = offset + take as u64;
    }
    proof {
        let n = extents@.len() as int;
        let whole = device_size as int;
        let r = whole + size - 1 - n * size;
        if n > 0 {
            assert((n - 1) * size == n * size - size) by (nonlinear_arith);
        } else {
            assert(n * size == 0) by (nonlinear_arith)
                requires
                    n == 0,
            ;
        }
        vstd::arithmetic::div_mod::lemma_fundamental_div_mod_converse(whole + size - 1, size, n, r);
    }
    extents
}

/// Offsets of scattered sectors, for the indices from `first` on.
fn offsets_of(device_size: u64, sector_size: u32, first: u64, count: usize) -> (offsets: Vec<u64>)
    requires
        sector_size > 0,
        first + count <= u64::MAX,
    ensures
        offsets@ == Seq::new(
            count as nat,
            |i: int| scattered_offset(device_size, sector_size, (first + i) as u64),
        ),
{
    let sectors: u64 = device_size / sector_size as u64;
    let mut offsets: Vec<u64> = Vec::new();
    let mut i: usize = 0;
    while i < count
        invariant
            i <= count,
            sector_size > 0,
            sectors == device_size / sector_size as u64,
            first + count <= u64::MAX,
            offsets@ == Seq::new(
                i as nat,
                |k: int| scattered_offset(device_size, sector_size, (first + k) as u64),
            ),
        decreases count - i,
    {
        let sector = pseudo_random_index(first + i as u64, sectors);
        proof {
            let d = device_size as int;
            let s = sector_size as int;
            vstd::arithmetic::div_mod::lemma_fundamental_div_mod(d, s);
            assert(sector * s <= d) by (nonlinear_arith)
                requires
                    d == s * sectors + d % s,
                    d % s >= 0,
                    0 <= sector <= sectors,
                    s > 0,
            ;
        }
        offsets.push(sector * sector_size as u64);
        i += 1;
        assert(offsets@ =~= Seq::new(
            i as nat,
            |k: int| scattered_offset(device_size, sector_size, (first + k) as u64),
        ));
    }
    offsets
}

/// What a benchmark does on a device of the given sizes, with `ops` random reads and as
/// many random writes.
pub fn bench_plan(device_size: u64, object_size: u32, sector_size: u32, ops: usize) -> (plan:
    BenchPlan)
    requires
        object_size > 0,
        sector_size > 0,
        ops + WRITE_INDEX_SHIFT <= u64::MAX,
    ensures
        plan.extents@ == Seq::new(
            parts_of(device_size as int, object_size as int) as nat,
            |i: int| nth_extent(device_size, object_size, i),
        ),
        plan.random_reads@ == Seq::new(
            ops as nat,
            |i: int| scattered_offset(device_size, sector_size, i as u64),
        ),
        plan.random_writes@ == Seq::new(
            ops as nat,
            |i: int| scattered_offset(device_size, sector_size, (WRITE_INDEX_SHIFT + i) as u64),
        ),
        plan.object@ == Seq::new(
            object_size as nat,
            |i: int| nth_state(OBJECT_SEED, (i + 1) as nat) as u8,
        ),
        plan.sector@ == Seq::new(
            sector_size as nat,
            |i: int| nth_state(SECTOR_SEED, (i + 1) as nat) as u8,
        ),
{
    let random_reads = offsets_of(device_size, sector_size, 0, ops);
    assert(random_reads@ =~= Seq::new(
        ops as nat,
        |i: int| scattered_offset(device_size, sector_size, i as u64),
    ));
    BenchPlan {
        extents: extents_of(device_size, object_size),
        random_reads,
        random_writes: offsets_of(device_size, sector_size, WRITE_INDEX_SHIFT, ops),
        object: deterministic_bytes(object_size as usize, OBJECT_SEED),
        sector: deterministic_bytes(sector_size as usize, SECTOR_SEED),
    }
}

/// One thing that a benchmark does: an extent is written with the start of the object bytes
/// or read, a sector is read or is written with the sector bytes, or the device is flushed.
#[derive(Debug, Clone, Copy, PartialEq, Eq, Structural)]
pub enum BenchStep {
    WriteExtent { offset: u64, len: usize },
    FirstFlush,
    ReadExtent { offset: u64, len: usize },
    ReadSector { offset: u64 },
    WriteSector { offset: u64 },
    FinalFlush,
}

/// All that a benchmark does, in order: the extents are written, the device is flushed, the
/// extents are read, sectors are read at random, sectors are written at random, and the
/// device is flushed again.
pub open spec fn bench_order(
    extents: Seq<(u64, usize)>,
    random_reads: Seq<u64>,
    random_writes: Seq<u64>,
) -> Seq<BenchStep> {
    extents.map_values(
        |extent: (u64, usize)| BenchStep::WriteExtent { offset: extent.0, len: extent.1 },
    ) + seq![BenchStep::FirstFlush] + extents.map_values(
        |extent: (u64, usize)| BenchStep::ReadExtent { offset: extent.0, len: extent.1 },
    ) + random_reads.map_values(|offset: u64| BenchStep::ReadSector { offset })
        + random_writes.map_values(|offset: u64| BenchStep::WriteSector { offset })
        + seq![BenchStep::FinalFlush]
}

/// The steps of a benchmark.
pub fn bench_steps(plan: &BenchPlan) -> (steps: Vec<BenchStep>)
    ensures
        steps@ == bench_order(plan.extents@, plan.random_reads@, plan.random_writes@),
{
    let mut steps: Vec<BenchStep> = Vec::new();
    let ghost writes = plan.extents@.map_values(
        |extent: (u64, usize)| BenchStep::WriteExtent { offset: extent.0, len: extent.1 },
    );
    let mut i: usize = 0;
    while i < plan.extents.len()
        invariant
            i <= plan.extents.len(),
            writes == plan.extents@.map_values(
                |extent: (u64, usize)| BenchStep::WriteExtent { offset: extent.0, len: extent.1 },
            ),
            steps@ == writes.take(i as int),
        decreases plan.extents.len() - i,
    {
        let (offset, len) = plan.extents[i];
        steps.push(BenchStep::WriteExtent { offset, len });
        i += 1;
        assert(steps@ =~= writes.take(i as int));
    }
    steps.push(BenchStep::FirstFlush);
    let ghost before = writes + seq![BenchStep::FirstFlush];
    assert(steps@ =~= before);
    let ghost reads = plan.extents@.map_values(
        |extent: (u64, usize)| BenchStep::ReadExtent { offset: extent.0, len: extent.1 },
    );
    let mut i: usize = 0;
    while i < plan.extents.len()
        invariant
            i <= plan.extents.len(),
            reads == plan.extents@.map_values(
                |extent: (u64, usize)| BenchStep::ReadExtent { offset: extent.0, len: extent.1 },
            ),
            steps@ == before + reads.take(i as int),
        decreases plan.extents.len() - i,
    {
        let (offset, len) = plan.extents[i];
        steps.push(BenchStep::ReadExtent { offset, len });
        i += 1;
        assert(steps@ =~= before + reads.take(i as int));
    }
    assert(reads.take(i as int) =~= reads);
    let ghost before = before + reads;
    let ghost reads = plan.random_reads@.map_values(
        |offset: u64| BenchStep::ReadSector { offset },
    );
    let mut i: usize = 0;
    while i < plan.random_reads.len()
        invariant
            i <= plan.random_reads.len(),
            reads == plan.random_reads@.map_values(|offset: u64| BenchStep::ReadSector { offset }),
            steps@ == before + reads.take(i as int),
        decreases plan.random_reads.len() - i,
    {
        steps.push(BenchStep::ReadSector { offset: plan.random_reads[i] });
        i += 1;
        assert(steps@ =~= before + reads.take(i as int));
    }
    assert(reads.take(i as int) =~= reads);
    let ghost before = before + reads;
    let ghost writes = plan.random_writes@.map_values(
        |offset: u64| BenchStep::WriteSector { offset },
    );
    let mut i: usize = 0;
    while i < plan.random_writes.len()
        invariant
            i <= plan.random_writes.len(),
            writes == plan.random_writes@.map_values(
                |offset: u64| BenchStep::WriteSector { offset },
            ),
            steps@ == before + writes.take(i as int),
        decreases plan.random_writes.len() - i,
    {
        steps.push(BenchStep::WriteSector { offset: plan.random_writes[i] });
        i += 1;
        assert(steps@ =~= before + writes.take(i as int));
    }
    assert(writes.take(i as int) =~= writes);
    steps.push(BenchStep::FinalFlush);
    assert(steps@ =~= before + writes + seq![BenchStep::FinalFlush]);
    steps
}

/// A benchmark stays on the device: the extents lie on it one behind the other and end
/// where it ends, and every random sector lies on it, where it holds one at all.
pub proof fn law_bench_stays_on_the_device(
    device_size: u64,
    object_size: u32,
    sector_size: u32,
    i: int,
    index: u64,
)
    requires
        object_size > 0,
        sector_size > 0,
        0 <= i < parts_of(device_size as int, object_size as int),
    ensures
        ({
            let (offset, len) = nth_extent(device_size, object_size, i);
            let end = (i + 1) * object_size;
            &&& offset == i * object_size
            &&& 0 < len <= object_size
            &&& offset + len == if end < device_size {
                end
            } else {
                device_size as int
            }
        }),
        sector_size <= device_size ==> scattered_offset(device_size, sector_size, index)
            + sector_size <= device_size,
{
    let size = object_size as int;
    let device = device_size as int;
    let n = parts_of(device, size);
    vstd::arithmetic::div_mod::lemma_fundamental_div_mod(device + size - 1, size);
    assert(size * n == n * size) by (nonlinear_arith);
    assert((i + 1) * size <= n * size) by (nonlinear_arith)
        requires
            i + 1 <= n,
            size > 0,
    ;
    assert((i + 1) * size == i * size + size) by (nonlinear_arith);
    assert(i * size >= 0) by (nonlinear_arith)
        requires
            i >= 0,
            size > 0,
    ;
    let sector = sector_size as int;
    let sectors = device / sector;
    vstd::arithmetic::div_mod::lemma_fundamental_div_mod(device, sector);
    let s = scattered(index, device_size / sector_size as u64) as int;
    if sector_size <= device_size {
        assert(sectors > 0) by (nonlinear_arith)
            requires
                device == sector * sectors + device % sector,
                device % sector < sector,
                device >= sector,
                sector > 0,
        ;
        assert(0 <= s < sectors);
        assert(s * sector + sector <= device) by (nonlinear_arith)
            requires
                device == sector * sectors + device % sector,
                device % sector >= 0,
                0 <= s,
                s + 1 <= sectors,
                sector > 0,
        ;
        assert(s * sector >= 0) by (nonlinear_arith)
            requires
                s >= 0,
                sector > 0,
        ;
    }
}

} // verus!
