//! The uniforms of the shaders, laid out in memory.

use crate::float32::Float32;
use crate::pigment::BrushUniforms;
use vstd::prelude::*;

verus! {

/// The four bytes of a word, the lowest first.
pub open spec fn lowest_first(word: u32) -> Seq<u8> {
    seq![
        (word % 0x100) as u8,
        (word / 0x100 % 0x100) as u8,
        (word / 0x1_0000 % 0x100) as u8,
        (word / 0x100_0000) as u8,
    ]
}

/// The bytes of the words one after the other, each word in the byte order of the machine:
/// highest byte first where `big` is set.
pub open spec fn encodes(bytes: Seq<u8>, words: Seq<u32>, big: bool) -> bool {
    &&& bytes.len() == 4 * words.len()
    &&& forall|i: int|
        0 <= i < words.len() ==> bytes.subrange(4 * i, 4 * i + 4) == (if big {
            lowest_first(#[trigger] words[i]).reverse()
        } else {
            lowest_first(words[i])
        })
}

/// `bytemuck::cast_slice` reads a slice of words as the bytes that they are in memory: four
/// for each word, in one byte order for all of them, which is that of the machine. Words have
/// no stricter size or alignment than bytes need, so it does not panic. Which of the two byte
/// orders it is, is left unsaid.
#[verifier::external_body]
fn bytes_of_words(words: &[u32]) -> (res: Vec<u8>)
    ensures
        encodes(res@, words@, false) || encodes(res@, words@, true),
{
    bytemuck::cast_slice::<u32, u8>(words).to_vec()
}

impl BrushUniforms {
    /// The layout that the brush shaders read: three groups of four numbers, the alpha, and
    /// three words of padding.
    pub open spec fn layout(self) -> Seq<u32> {
        seq![
            self.brush_lin[0].0,
            self.brush_lin[1].0,
            self.brush_lin[2].0,
            self.brush_lin[3].0,
            self.brush_lo[0].0,
            self.brush_lo[1].0,
            self.brush_lo[2].0,
            self.brush_lo[3].0,
            self.brush_hi[0].0,
            self.brush_hi[1].0,
            self.brush_hi[2].0,
            self.brush_hi[3].0,
            self.brush_alpha.0,
            0,
            0,
            0,
        ]
    }

    /// The uniforms as the brush shaders read them.
    pub fn bytes(&self) -> (res: Vec<u8>)
        ensures
            encodes(res@, self.layout(), false) || encodes(res@, self.layout(), true),
    {
        let words: [u32; 16] = [
            self.brush_lin[0].0,
            self.brush_lin[1].0,
            self.brush_lin[2].0,
            self.brush_lin[3].0,
            self.brush_lo[0].0,
            self.brush_lo[1].0,
            self.brush_lo[2].0,
            self.brush_lo[3].0,
            self.brush_hi[0].0,
            self.brush_hi[1].0,
            self.brush_hi[2].0,
            self.brush_hi[3].0,
            self.brush_alpha.0,
            0,
            0,
            0,
        ];
        assert(words@ =~= self.layout());
        bytes_of_words(&words)
    }
}

/// The uniforms of a blend as its shader reads them: the opacity and three words of padding.
pub fn blend_uniform_bytes(opacity: Float32) -> (res: Vec<u8>)
    ensures
        encodes(res@, seq![opacity.0, 0, 0, 0], false) || encodes(
            res@,
            seq![opacity.0, 0, 0, 0],
            true,
        ),
{
    let words: [u32; 4] = [opacity.0, 0, 0, 0];
    assert(words@ =~= seq![opacity.0, 0, 0, 0]);
    bytes_of_words(&words)
}

} // verus!
