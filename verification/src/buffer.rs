//! Instance data as the render buffers take it: six 32-bit words for each
//! face, laid out as bytes.
use crate::mesh::{FaceInstance, TypedInstances};
use vstd::prelude::*;

verus! {

/// Number of 32-bit words that stand for one face instance.
pub const WORDS_PER_INSTANCE: usize = 6;

/// Number of bytes that stand for one face instance.
pub const BYTES_PER_INSTANCE: usize = 24;

impl FaceInstance {
    /// Whether the position of the block can be written in 32-bit words.
    pub open spec fn fits_words(self) -> bool {
        &&& 0 <= self.position.x <= u32::MAX
        &&& 0 <= self.position.y <= u32::MAX
        &&& 0 <= self.position.z <= u32::MAX
    }

    /// The words of one instance: the position of the block, the number of
    /// the face, and column and row of the tile in the atlas.
    pub open spec fn spec_words(self) -> Seq<u32> {
        seq![
            self.position.x as u32,
            self.position.y as u32,
            self.position.z as u32,
            self.face.spec_ordinal() as u32,
            self.atlas_u as u32,
            self.atlas_v as u32,
        ]
    }
}

/// The words of a list of instances, one instance after the other.
pub open spec fn instance_words(instances: Seq<FaceInstance>) -> Seq<u32> {
    Seq::new(
        (WORDS_PER_INSTANCE * instances.len()) as nat,
        |i: int| instances[i / 6].spec_words()[i % 6],
    )
}

/// The bytes of a list of words with the low byte of each word first.
pub open spec fn little_endian_bytes(words: Seq<u32>) -> Seq<u8> {
    Seq::new((4 * words.len()) as nat, |i: int| (words[i / 4] >> ((8 * (i % 4)) as u32)) as u8)
}

/// The bytes of a list of words with the high byte of each word first.
pub open spec fn big_endian_bytes(words: Seq<u32>) -> Seq<u8> {
    Seq::new(
        (4 * words.len()) as nat,
        |i: int| (words[i / 4] >> ((8 * (3 - i % 4)) as u32)) as u8,
    )
}

/// Whether `bytes` is what the machine holds in memory for `words`: the
/// bytes of each word in turn, in the one byte order that the machine uses.
pub open spec fn is_memory_of(bytes: Seq<u8>, words: Seq<u32>) -> bool {
    bytes == little_endian_bytes(words) || bytes == big_endian_bytes(words)
}

/// The bytes that `words` occupies in memory, by `bytemuck::cast_slice`
/// from `u32` to `u8`. The cast reads the memory of the slice as it stands,
/// four bytes for each word, so the bytes of a word come in the byte order
/// of the machine. A slice of `u32` is always aligned and sized for a slice
/// of `u8`, so the cast cannot fail.
#[verifier::external_body]
fn words_as_bytes(words: &Vec<u32>) -> (bytes: Vec<u8>)
    ensures
        is_memory_of(bytes@, words@),
{
    bytemuck::cast_slice::<u32, u8>(words.as_slice()).to_vec()
}

impl TypedInstances {
    /// The instance data as 32-bit words, six for each face.
    pub fn instance_words(&self) -> (words: Vec<u32>)
        requires
            forall|k: int|
                0 <= k < self.instance_data@.len() ==> (#[trigger] self.instance_data@[k]).fits_words(),
            self.instance_data@.len() * WORDS_PER_INSTANCE <= usize::MAX,
        ensures
            words@ == instance_words(self.instance_data@),
    {
        let mut words: Vec<u32> = Vec::new();
        let mut k: usize = 0;
        while k < self.instance_data.len()
            invariant
                k <= self.instance_data@.len(),
                forall|j: int|
                    0 <= j < self.instance_data@.len() ==> (
                    #[trigger] self.instance_data@[j]).fits_words(),
                words@ == instance_words(self.instance_data@.take(k as int)),
            decreases self.instance_data.len() - k,
        {
            let instance = self.instance_data[k];
            let ghost before = words@;
            assert(instance.fits_words());
            words.push(instance.position.x as u32);
            words.push(instance.position.y as u32);
            words.push(instance.position.z as u32);
            words.push(instance.face.ordinal() as u32);
            words.push(instance.atlas_u as u32);
            words.push(instance.atlas_v as u32);
            proof {
                let next = instance_words(self.instance_data@.take(k + 1));
                assert(words@.len() == next.len());
                assert forall|i: int| 0 <= i < next.len() implies words@[i] == next[i] by {
                    if i < before.len() {
                        assert(words@[i] == before[i]);
                        assert(self.instance_data@.take(k + 1)[i / 6] == self.instance_data@.take(
                            k as int,
                        )[i / 6]);
                    } else {
                        assert(i / 6 == k);
                        assert(self.instance_data@.take(k + 1)[i / 6] == instance);
                    }
                }
                assert(words@ =~= next);
            }
            k += 1;
        }
        proof {
            assert(self.instance_data@.take(self.instance_data.len() as int)
                =~= self.instance_data@);
        }
        words
    }

    /// The instance data as bytes, ready to be copied into a render buffer:
    /// the words of the instances as the machine holds them in memory.
    pub fn instance_bytes(&self) -> (bytes: Vec<u8>)
        requires
            forall|k: int|
                0 <= k < self.instance_data@.len() ==> (#[trigger] self.instance_data@[k]).fits_words(),
            self.instance_data@.len() * WORDS_PER_INSTANCE <= usize::MAX,
        ensures
            is_memory_of(bytes@, instance_words(self.instance_data@)),
            bytes@.len() == BYTES_PER_INSTANCE * self.instance_data@.len(),
    {
        let words = self.instance_words();
        words_as_bytes(&words)
    }
}

} // verus!
