//! The frame around every stored object: a checked header, then the payload.
use vstd::prelude::*;
use vstd::slice::slice_subrange;
use vstd::slice::slice_to_vec;

use crate::digest::{sha256, sha256_bytes, sha256_hex, sha256_text};
use crate::wire::{
    be_bytes, be_value, bytes_equal, lemma_be_bytes_len, lemma_be_bytes_of_value,
    lemma_be_value_of_bytes, lemma_byte_capacity_values, push_bytes, push_u16, push_u32, push_u64,
    read_u16, read_u32, read_u64,
};

verus! {

/// The bytes that every object starts with.
pub const TGDRIVE_MAGIC: [u8; 8] = [84, 71, 68, 82, 86, 48, 48, 49];

/// The length of the header in front of the payload.
pub const OBJECT_HEADER_LEN: usize = 76;

/// Why a byte string is not the object that was asked for.
#[derive(Debug, Clone, Copy, PartialEq, Eq, Structural)]
pub enum FormatError {
    InvalidMagic,
    UnsupportedVersion(u16),
    Truncated,
    ObjectIdMismatch { expected: u64, actual: u64 },
    GenerationMismatch { expected: u64, actual: u64 },
    ChecksumMismatch,
    PayloadLengthMismatch,
}

/// One stored object.
#[derive(Debug, PartialEq, Eq)]
pub struct ObjectEnvelope {
    pub object_id: u64,
    pub generation: u64,
    pub object_size: u32,
    pub flags: u32,
    pub payload: Vec<u8>,
}

/// The value of an [`ObjectEnvelope`].
#[verifier::ext_equal]
pub struct EnvelopeView {
    pub object_id: u64,
    pub generation: u64,
    pub object_size: u32,
    pub flags: u32,
    pub payload: Seq<u8>,
}

impl View for ObjectEnvelope {
    type V = EnvelopeView;

    open spec fn view(&self) -> EnvelopeView {
        EnvelopeView {
            object_id: self.object_id,
            generation: self.generation,
            object_size: self.object_size,
            flags: self.flags,
            payload: self.payload@,
        }
    }
}

/// The stored form: magic, version, two reserved zero bytes, object number,
/// generation, payload length, object size, payload digest, flags, payload. All
/// integers are big-endian.
pub open spec fn envelope_bytes(envelope: EnvelopeView) -> Seq<u8> {
    TGDRIVE_MAGIC@ + be_bytes(ObjectEnvelope::VERSION as nat, 2) + be_bytes(0, 2) + be_bytes(
        envelope.object_id as nat,
        8,
    ) + be_bytes(envelope.generation as nat, 8) + be_bytes(envelope.payload.len(), 8) + be_bytes(
        envelope.object_size as nat,
        4,
    ) + sha256(envelope.payload)@ + be_bytes(envelope.flags as nat, 4) + envelope.payload
}

/// What a byte string holds, taken as the stored form of generation `generation` of
/// object `object_id`. The first check that fails decides the error.
pub open spec fn open_envelope(bytes: Seq<u8>, object_id: u64, generation: u64) -> Result<
    EnvelopeView,
    FormatError,
> {
    let payload = bytes.skip(OBJECT_HEADER_LEN as int);
    let version = be_value(bytes.subrange(8, 10));
    let actual_id = be_value(bytes.subrange(12, 20));
    let actual_generation = be_value(bytes.subrange(20, 28));
    if bytes.len() < OBJECT_HEADER_LEN {
        Err(FormatError::Truncated)
    } else if bytes.take(8) != TGDRIVE_MAGIC@ {
        Err(FormatError::InvalidMagic)
    } else if version != ObjectEnvelope::VERSION {
        Err(FormatError::UnsupportedVersion(version as u16))
    } else if actual_id != object_id {
        Err(FormatError::ObjectIdMismatch { expected: object_id, actual: actual_id as u64 })
    } else if actual_generation != generation {
        Err(
            FormatError::GenerationMismatch {
                expected: generation,
                actual: actual_generation as u64,
            },
        )
    } else if payload.len() != be_value(bytes.subrange(28, 36)) {
        Err(FormatError::PayloadLengthMismatch)
    } else if sha256(payload)@ != bytes.subrange(40, 72) {
        Err(FormatError::ChecksumMismatch)
    } else {
        Ok(
            EnvelopeView {
                object_id,
                generation,
                object_size: be_value(bytes.subrange(36, 40)) as u32,
                flags: be_value(bytes.subrange(72, 76)) as u32,
                payload,
            },
        )
    }
}

impl ObjectEnvelope {
    /// The one version of the stored form.
    pub const VERSION: u16 = 1;

    /// The stored form.
    pub fn encode(&self) -> (bytes: Vec<u8>)
        ensures
            bytes@ == envelope_bytes(self@),
    {
        let mut out: Vec<u8> = Vec::new();
        let magic = TGDRIVE_MAGIC;
        push_bytes(&mut out, magic.as_slice());
        push_u16(&mut out, Self::VERSION);
        push_u16(&mut out, 0);
        push_u64(&mut out, self.object_id);
        push_u64(&mut out, self.generation);
        push_u64(&mut out, self.payload.len() as u64);
        push_u32(&mut out, self.object_size);
        let digest = sha256_bytes(self.payload.as_slice());
        push_bytes(&mut out, digest.as_slice());
        push_u32(&mut out, self.flags);
        push_bytes(&mut out, self.payload.as_slice());
        assert(out@ =~= envelope_bytes(self@));
        out
    }

    /// Reads a stored form and checks that it is the expected generation of the
    /// expected object, undamaged.
    pub fn decode(bytes: &[u8], expected_object_id: u64, expected_generation: u64) -> (result:
        Result<Self, FormatError>)
        ensures
            match result {
                Ok(envelope) => open_envelope(bytes@, expected_object_id, expected_generation)
                    == Ok::<EnvelopeView, FormatError>(envelope@),
                Err(error) => open_envelope(bytes@, expected_object_id, expected_generation)
                    == Err::<EnvelopeView, FormatError>(error),
            },
    {
        if bytes.len() < OBJECT_HEADER_LEN {
            return Err(FormatError::Truncated);
        }
        let magic = TGDRIVE_MAGIC;
        if !bytes_equal(slice_subrange(bytes, 0, 8), magic.as_slice()) {
            return Err(FormatError::InvalidMagic);
        }
        let version = read_u16(bytes, 8);
        if version != Self::VERSION {
            return Err(FormatError::UnsupportedVersion(version));
        }
        let object_id = read_u64(bytes, 12);
        if object_id != expected_object_id {
            return Err(
                FormatError::ObjectIdMismatch { expected: expected_object_id, actual: object_id },
            );
        }
        let generation = read_u64(bytes, 20);
        if generation != expected_generation {
            return Err(
                FormatError::GenerationMismatch {
                    expected: expected_generation,
                    actual: generation,
                },
            );
        }
        let payload_len = read_u64(bytes, 28);
        let object_size = read_u32(bytes, 36);
        let flags = read_u32(bytes, 72);
        if (bytes.len() - OBJECT_HEADER_LEN) as u64 != payload_len {
            return Err(FormatError::PayloadLengthMismatch);
        }
        let payload = slice_to_vec(slice_subrange(bytes, OBJECT_HEADER_LEN, bytes.len()));
        assert(payload@ =~= bytes@.skip(OBJECT_HEADER_LEN as int));
        let digest = sha256_bytes(payload.as_slice());
        if !bytes_equal(digest.as_slice(), slice_subrange(bytes, 40, 72)) {
            return Err(FormatError::ChecksumMismatch);
        }
        Ok(ObjectEnvelope { object_id, generation, object_size, flags, payload })
    }

    /// The digest of the stored form, in lower-case hexadecimal.
    pub fn sha256_hex(&self) -> (text: String)
        ensures
            text@ == sha256_text(envelope_bytes(self@)),
    {
        sha256_hex(self.encode().as_slice())
    }
}

/// Where each field of the stored form lies.
proof fn lemma_envelope_layout(envelope: EnvelopeView)
    ensures
        ({
            let bytes = envelope_bytes(envelope);
            &&& bytes.len() == OBJECT_HEADER_LEN + envelope.payload.len()
            &&& bytes.take(8) == TGDRIVE_MAGIC@
            &&& bytes.subrange(8, 10) == be_bytes(ObjectEnvelope::VERSION as nat, 2)
            &&& bytes.subrange(10, 12) == be_bytes(0, 2)
            &&& bytes.subrange(12, 20) == be_bytes(envelope.object_id as nat, 8)
            &&& bytes.subrange(20, 28) == be_bytes(envelope.generation as nat, 8)
            &&& bytes.subrange(28, 36) == be_bytes(envelope.payload.len(), 8)
            &&& bytes.subrange(36, 40) == be_bytes(envelope.object_size as nat, 4)
            &&& bytes.subrange(40, 72) == sha256(envelope.payload)@
            &&& bytes.subrange(72, 76) == be_bytes(envelope.flags as nat, 4)
            &&& bytes.skip(76) == envelope.payload
        }),
{
    lemma_be_bytes_len(ObjectEnvelope::VERSION as nat, 2);
    lemma_be_bytes_len(0, 2);
    lemma_be_bytes_len(envelope.object_id as nat, 8);
    lemma_be_bytes_len(envelope.generation as nat, 8);
    lemma_be_bytes_len(envelope.payload.len(), 8);
    lemma_be_bytes_len(envelope.object_size as nat, 4);
    lemma_be_bytes_len(envelope.flags as nat, 4);
    let bytes = envelope_bytes(envelope);
    assert(bytes.take(8) =~= TGDRIVE_MAGIC@);
    assert(bytes.subrange(8, 10) =~= be_bytes(ObjectEnvelope::VERSION as nat, 2));
    assert(bytes.subrange(10, 12) =~= be_bytes(0, 2));
    assert(bytes.subrange(12, 20) =~= be_bytes(envelope.object_id as nat, 8));
    assert(bytes.subrange(20, 28) =~= be_bytes(envelope.generation as nat, 8));
    assert(bytes.subrange(28, 36) =~= be_bytes(envelope.payload.len(), 8));
    assert(bytes.subrange(36, 40) =~= be_bytes(envelope.object_size as nat, 4));
    assert(bytes.subrange(40, 72) =~= sha256(envelope.payload)@);
    assert(bytes.subrange(72, 76) =~= be_bytes(envelope.flags as nat, 4));
    assert(bytes.skip(76) =~= envelope.payload);
}

/// What is stored is what is read back: opening the stored form of an object under
/// its own number and generation gives the object.
pub proof fn law_envelope_round_trip(envelope: EnvelopeView)
    requires
        envelope.payload.len() <= u64::MAX,
    ensures
        open_envelope(envelope_bytes(envelope), envelope.object_id, envelope.generation)
            == Ok::<EnvelopeView, FormatError>(envelope),
{
    lemma_envelope_layout(envelope);
    lemma_byte_capacity_values();
    lemma_be_value_of_bytes(ObjectEnvelope::VERSION as nat, 2);
    lemma_be_value_of_bytes(envelope.object_id as nat, 8);
    lemma_be_value_of_bytes(envelope.generation as nat, 8);
    lemma_be_value_of_bytes(envelope.payload.len(), 8);
    lemma_be_value_of_bytes(envelope.object_size as nat, 4);
    lemma_be_value_of_bytes(envelope.flags as nat, 4);
}

/// A stored object is refused under any other number, and under its own number in
/// any other generation, with the expected and the actual value.
pub proof fn law_envelope_is_bound_to_its_identity(
    envelope: EnvelopeView,
    object_id: u64,
    generation: u64,
)
    requires
        object_id != envelope.object_id || generation != envelope.generation,
    ensures
        open_envelope(envelope_bytes(envelope), object_id, generation) == if object_id
            != envelope.object_id {
            Err::<EnvelopeView, FormatError>(
                FormatError::ObjectIdMismatch {
                    expected: object_id,
                    actual: envelope.object_id,
                },
            )
        } else {
            Err(
                FormatError::GenerationMismatch {
                    expected: generation,
                    actual: envelope.generation,
                },
            )
        },
{
    lemma_envelope_layout(envelope);
    lemma_byte_capacity_values();
    lemma_be_value_of_bytes(ObjectEnvelope::VERSION as nat, 2);
    lemma_be_value_of_bytes(envelope.object_id as nat, 8);
    lemma_be_value_of_bytes(envelope.generation as nat, 8);
}

/// Nothing but the two reserved bytes is ignored: storing what was read gives the
/// bytes that were read, up to the reserved bytes, which are stored as zero.
pub proof fn law_envelope_reading_is_strict(bytes: Seq<u8>, object_id: u64, generation: u64)
    requires
        open_envelope(bytes, object_id, generation) is Ok,
    ensures
        envelope_bytes(open_envelope(bytes, object_id, generation)->Ok_0) == bytes.take(10)
            + be_bytes(0, 2) + bytes.skip(12),
{
    let envelope = open_envelope(bytes, object_id, generation)->Ok_0;
    let again = envelope_bytes(envelope);
    lemma_envelope_layout(envelope);
    lemma_byte_capacity_values();
    lemma_be_bytes_len(0, 2);
    crate::wire::lemma_be_value_bound(bytes.subrange(36, 40));
    crate::wire::lemma_be_value_bound(bytes.subrange(72, 76));
    lemma_be_bytes_of_value(bytes.subrange(8, 10));
    lemma_be_bytes_of_value(bytes.subrange(12, 20));
    lemma_be_bytes_of_value(bytes.subrange(20, 28));
    lemma_be_bytes_of_value(bytes.subrange(28, 36));
    lemma_be_bytes_of_value(bytes.subrange(36, 40));
    lemma_be_bytes_of_value(bytes.subrange(72, 76));
    assert(again.subrange(8, 10) == bytes.subrange(8, 10));
    assert(again.subrange(12, 20) == bytes.subrange(12, 20));
    assert(again.subrange(20, 28) == bytes.subrange(20, 28));
    assert(again.subrange(28, 36) == bytes.subrange(28, 36));
    assert(again.subrange(36, 40) == bytes.subrange(36, 40));
    assert(again.subrange(72, 76) == bytes.subrange(72, 76));
    let parts = |b: Seq<u8>, reserved: Seq<u8>|
        b.take(8) + b.subrange(8, 10) + reserved + b.subrange(12, 20) + b.subrange(20, 28)
            + b.subrange(28, 36) + b.subrange(36, 40) + b.subrange(40, 72) + b.subrange(72, 76)
            + b.skip(76);
    assert(again =~= parts(again, again.subrange(10, 12)));
    assert(bytes.take(10) + be_bytes(0, 2) + bytes.skip(12) =~= parts(bytes, be_bytes(0, 2)));
}

/// The fields of a stored form that are right, from the front: 0 where it is too short for a
/// header, 1 where it does not start with the eight letters `TGDRV001`, then one for each of
/// version, number, generation, length and digest, and 7 where all are right. The two bytes
/// behind the version, the object size and the flags may be anything.
pub open spec fn right_fields(bytes: Seq<u8>, object_id: u64, generation: u64) -> nat {
    if bytes.len() < 76 {
        0
    } else if bytes.take(8) != seq![84u8, 71, 68, 82, 86, 48, 48, 49] {
        1
    } else if bytes.subrange(8, 10) != be_bytes(1, 2) {
        2
    } else if bytes.subrange(12, 20) != be_bytes(object_id as nat, 8) {
        3
    } else if bytes.subrange(20, 28) != be_bytes(generation as nat, 8) {
        4
    } else if bytes.subrange(28, 36) != be_bytes((bytes.len() - 76) as nat, 8) {
        5
    } else if bytes.subrange(40, 72) != sha256(bytes.skip(76))@ {
        6
    } else {
        7
    }
}

/// Which byte strings are accepted as an object, and why each of the others is not: the first
/// field that is wrong decides. An accepted one gives everything behind the header as it is.
pub proof fn law_first_wrong_field_decides(bytes: Seq<u8>, object_id: u64, generation: u64)
    requires
        bytes.len() <= u64::MAX,
    ensures
        ({
            let right = right_fields(bytes, object_id, generation);
            match open_envelope(bytes, object_id, generation) {
                Ok(envelope) => {
                    &&& right == 7
                    &&& envelope.object_id == object_id
                    &&& envelope.generation == generation
                    &&& be_bytes(envelope.object_size as nat, 4) == bytes.subrange(36, 40)
                    &&& be_bytes(envelope.flags as nat, 4) == bytes.subrange(72, 76)
                    &&& envelope.payload == bytes.skip(76)
                },
                Err(FormatError::Truncated) => right == 0,
                Err(FormatError::InvalidMagic) => right == 1,
                Err(FormatError::UnsupportedVersion(version)) => {
                    right == 2 && bytes.subrange(8, 10) == be_bytes(version as nat, 2)
                },
                Err(FormatError::ObjectIdMismatch { expected, actual }) => {
                    right == 3 && expected == object_id && bytes.subrange(12, 20) == be_bytes(
                        actual as nat,
                        8,
                    )
                },
                Err(FormatError::GenerationMismatch { expected, actual }) => {
                    right == 4 && expected == generation && bytes.subrange(20, 28) == be_bytes(
                        actual as nat,
                        8,
                    )
                },
                Err(FormatError::PayloadLengthMismatch) => right == 5,
                Err(FormatError::ChecksumMismatch) => right == 6,
            }
        }),
{
    assert(TGDRIVE_MAGIC@ =~= seq![84u8, 71, 68, 82, 86, 48, 48, 49]);
    if bytes.len() >= 76 {
        lemma_byte_capacity_values();
        lemma_be_value_of_bytes(1, 2);
        lemma_be_value_of_bytes(object_id as nat, 8);
        lemma_be_value_of_bytes(generation as nat, 8);
        lemma_be_value_of_bytes((bytes.len() - 76) as nat, 8);
        lemma_be_bytes_of_value(bytes.subrange(8, 10));
        lemma_be_bytes_of_value(bytes.subrange(12, 20));
        lemma_be_bytes_of_value(bytes.subrange(20, 28));
        lemma_be_bytes_of_value(bytes.subrange(28, 36));
        lemma_be_bytes_of_value(bytes.subrange(36, 40));
        lemma_be_bytes_of_value(bytes.subrange(72, 76));
        crate::wire::lemma_be_value_bound(bytes.subrange(8, 10));
        crate::wire::lemma_be_value_bound(bytes.subrange(12, 20));
        crate::wire::lemma_be_value_bound(bytes.subrange(20, 28));
        crate::wire::lemma_be_value_bound(bytes.subrange(36, 40));
        crate::wire::lemma_be_value_bound(bytes.subrange(72, 76));
    }
}

} // verus!
