use vstd::prelude::*;

verus! {

/// The RGBA palette used to annotate detections, one colour per class modulo its length.
pub const COLORS: [[u8; 4]; 10] = [
    [255, 153, 255, 255],
    [255, 153, 170, 255],
    [255, 204, 153, 255],
    [255, 255, 153, 255],
    [153, 255, 178, 255],
    [153, 204, 255, 255],
    [204, 153, 255, 255],
    [255, 153, 204, 255],
    [204, 255, 153, 255],
    [153, 255, 255, 255],
];

/// Palette slot of a class: the class index reinterpreted as an unsigned machine word,
/// modulo the palette length.
pub open spec fn color_slot(class_idx: i32) -> int {
    ((class_idx as usize) as int) % 10
}

/// The annotation colour of a class.
pub fn class_color(class_idx: i32) -> (color: [u8; 4])
    ensures
        color@ == COLORS@[color_slot(class_idx)]@,
{
    let slot: usize = (class_idx as usize) % 10;
    COLORS[slot]
}

/// Law: the first ten classes get the ten palette colours in order, and from there the
/// palette repeats every ten classes.
pub proof fn lemma_palette_cycles(c: i32)
    requires
        c >= 0,
    ensures
        c < 10 ==> color_slot(c) == c,
        c <= i32::MAX - 10 ==> color_slot((c + 10) as i32) == color_slot(c),
{
}

} // verus!
