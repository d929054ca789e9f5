//! The piano keyboard: 88 keys from A0 to C8.

use vstd::prelude::*;
use crate::lists;

verus! {

/// Lowest key, A0.
pub const LO_PITCH: i32 = 21;

/// Highest key, C8.
pub const HI_PITCH: i32 = 108;

/// White keys on the keyboard.
pub const N_WHITE: i32 = 52;

/// Black keys: C#, D#, F#, G#, A# of every octave.
pub open spec fn black(pitch: int) -> bool {
    let pc = pitch % 12;
    pc == 1 || pc == 3 || pc == 6 || pc == 8 || pc == 10
}

/// White keys from A0 up to but without `pitch`.
pub open spec fn whites_below(pitch: int) -> int
    decreases pitch - LO_PITCH,
{
    if pitch <= LO_PITCH {
        0
    } else {
        whites_below(pitch - 1) + (if black(pitch - 1) { 0int } else { 1int })
    }
}

/// The pitch class: semitones above the C at or below.
pub fn pitch_class(pitch: i32) -> (pc: i32)
    ensures
        pc == pitch as int % 12,
        0 <= pc < 12,
{
    match pitch.checked_rem_euclid(12) {
        Some(pc) => pc,
        None => 0,
    }
}

/// Whether a key is black.
pub fn is_black(pitch: i32) -> (yes: bool)
    ensures
        yes == black(pitch as int),
{
    let pc: i32 = pitch_class(pitch);
    pc == 1 || pc == 3 || pc == 6 || pc == 8 || pc == 10
}

/// Number of white keys strictly below `pitch`, counting from A0.
pub fn white_index(pitch: i32) -> (n: i32)
    ensures
        n == whites_below(pitch as int),
{
    let mut n: i32 = 0;
    let mut p: i32 = LO_PITCH;
    while p < pitch
        invariant
            LO_PITCH <= p,
            p <= pitch || p == LO_PITCH,
            n == whites_below(p as int),
            0 <= n <= p - LO_PITCH,
        decreases pitch - p,
    {
        if !is_black(p) {
            n += 1;
        }
        p += 1;
    }
    n
}

/// Where a key stands along the keyboard, in widths of a white key.
#[derive(Clone, Copy, PartialEq, Eq, Structural)]
pub struct KeySlot {
    /// A white key starts after this many white keys; a black key is centred near the border
    /// after this many.
    pub index: i32,
    pub black: bool,
    /// How far a black key's centre is off the border, in hundredths of a white key.
    pub shift: i32,
}

/// How far a black key is off its border: C# and F# a little down, D# and A# a little up.
pub open spec fn black_shift(pitch: int) -> int {
    let pc = pitch % 12;
    if pc == 1 {
        -10
    } else if pc == 3 {
        10
    } else if pc == 6 {
        -12
    } else if pc == 10 {
        12
    } else {
        0
    }
}

/// Where a key stands.
pub fn key_slot(pitch: i32) -> (slot: KeySlot)
    ensures
        slot.black == black(pitch as int),
        slot.index == whites_below(pitch as int),
        slot.shift == (if black(pitch as int) { black_shift(pitch as int) } else { 0 }),
        slot == slot_of(pitch as int),
{
    if !is_black(pitch) {
        KeySlot { index: white_index(pitch), black: false, shift: 0 }
    } else {
        let shift: i32 = match pitch_class(pitch) {
            1 => -10,
            3 => 10,
            6 => -12,
            10 => 12,
            _ => 0,
        };
        // The highest pitch there is, is a white key's.
        assert(pitch < i32::MAX);
        KeySlot { index: white_index(pitch + 1), black: true, shift }
    }
}

/// The width of a black key, in hundredths of a white one.
pub const BLACK_WIDTH: i32 = 58;

impl KeySlot {
    /// Where the key begins along the keyboard, in two-hundredths of a white key.
    pub open spec fn start(self) -> int {
        if self.black {
            200 * self.index + 2 * self.shift - BLACK_WIDTH
        } else {
            200 * self.index
        }
    }

    /// Where it ends.
    pub open spec fn end(self) -> int {
        if self.black {
            self.start() + 2 * BLACK_WIDTH
        } else {
            self.start() + 200
        }
    }
}

/// The slot of a key.
pub open spec fn slot_of(pitch: int) -> KeySlot {
    KeySlot {
        index: whites_below(pitch) as i32,
        black: black(pitch),
        shift: (if black(pitch) { black_shift(pitch) } else { 0 }) as i32,
    }
}

/// All keys, ascending.
pub open spec fn all_keys() -> Seq<i32> {
    Seq::new(88, |i: int| (LO_PITCH + i) as i32)
}

/// The keys of a colour.
pub open spec fn of_color(want_black: bool) -> spec_fn(i32) -> bool {
    |p: i32| black(p as int) == want_black
}

/// The lowest key of an octave, C.
pub open spec fn at_octave() -> spec_fn(i32) -> bool {
    |p: i32| p as int % 12 == 0
}

/// The black keys, or the white ones, ascending.
pub fn keys_of_color(want_black: bool) -> (keys: Vec<i32>)
    ensures
        keys@ == all_keys().filter(of_color(want_black)),
{
    let mut keys: Vec<i32> = Vec::new();
    let mut p: i32 = LO_PITCH;
    proof {
        reveal(Seq::filter);
        assert(all_keys().take(0) =~= Seq::<i32>::empty());
    }
    while p <= HI_PITCH
        invariant
            LO_PITCH <= p <= HI_PITCH + 1,
            keys@ == all_keys().take(p - LO_PITCH).filter(of_color(want_black)),
        decreases HI_PITCH + 1 - p,
    {
        proof {
            lists::lemma_filter_step(all_keys(), of_color(want_black), p - LO_PITCH);
        }
        if is_black(p) == want_black {
            keys.push(p);
        }
        p += 1;
    }
    assert(all_keys().take(p - LO_PITCH) =~= all_keys());
    keys
}

/// The keys in the order in which they are drawn: white keys, then the black keys on top.
pub fn drawing_order() -> (keys: Vec<i32>)
    ensures
        keys@ == all_keys().filter(of_color(false)) + all_keys().filter(of_color(true)),
{
    let mut keys: Vec<i32> = keys_of_color(false);
    let mut blacks: Vec<i32> = keys_of_color(true);
    keys.append(&mut blacks);
    keys
}

/// The keys at which an octave line is drawn.
pub fn octave_lines() -> (keys: Vec<i32>)
    ensures
        keys@ == all_keys().filter(at_octave()),
{
    let mut keys: Vec<i32> = Vec::new();
    let mut p: i32 = LO_PITCH;
    proof {
        reveal(Seq::filter);
        assert(all_keys().take(0) =~= Seq::<i32>::empty());
    }
    while p <= HI_PITCH
        invariant
            LO_PITCH <= p <= HI_PITCH + 1,
            keys@ == all_keys().take(p - LO_PITCH).filter(at_octave()),
        decreases HI_PITCH + 1 - p,
    {
        proof {
            lists::lemma_filter_step(all_keys(), at_octave(), p - LO_PITCH);
        }
        if pitch_class(p) == 0 {
            keys.push(p);
        }
        p += 1;
    }
    assert(all_keys().take(p - LO_PITCH) =~= all_keys());
    keys
}

/// Every octave has seven white keys.
pub proof fn law_octave_has_seven_white_keys(pitch: int)
    requires
        pitch >= LO_PITCH,
    ensures
        whites_below(pitch + 12) == whites_below(pitch) + 7,
    decreases pitch - LO_PITCH,
{
    if pitch == LO_PITCH {
        lemma_lowest_octave();
    } else {
        // A key leaves the octave at the bottom, and one of its colour comes in at the top.
        law_octave_has_seven_white_keys(pitch - 1);
        assert(black(pitch + 11) == black(pitch - 1));
        assert(whites_below(pitch + 12) == whites_below(pitch + 11) + (if black(pitch + 11) {
            0int
        } else {
            1int
        }));
        assert(pitch - 1 + 12 == pitch + 11);
    }
}

proof fn lemma_lowest_octave()
    ensures
        whites_below(LO_PITCH as int) == 0,
        whites_below(LO_PITCH + 12) == 7,
{
    assert(whites_below(21) == 0);
    assert(whites_below(22) == 1);
    assert(whites_below(23) == 1);
    assert(whites_below(24) == 2);
    assert(whites_below(25) == 3);
    assert(whites_below(26) == 3);
    assert(whites_below(27) == 4);
    assert(whites_below(28) == 4);
    assert(whites_below(29) == 5);
    assert(whites_below(30) == 6);
    assert(whites_below(31) == 6);
    assert(whites_below(32) == 7);
    assert(whites_below(33) == 7);
}

/// A higher key stands no further down; a white key takes a place of its own, right after the
/// white key before it, and a black key sits on the border between two.
pub proof fn law_white_keys_stand_in_a_row(pitch: int)
    requires
        pitch >= LO_PITCH,
    ensures
        !black(pitch) ==> whites_below(pitch + 1) == whites_below(pitch) + 1,
        black(pitch) ==> whites_below(pitch + 1) == whites_below(pitch),
{
}

/// The keyboard has 52 white keys, so the keys fill it exactly.
pub proof fn law_white_keys_fill_the_keyboard()
    ensures
        whites_below(HI_PITCH + 1) == N_WHITE,
{
    reveal_with_fuel(whites_below, 5);
    law_octave_has_seven_white_keys(25);
    law_octave_has_seven_white_keys(37);
    law_octave_has_seven_white_keys(49);
    law_octave_has_seven_white_keys(61);
    law_octave_has_seven_white_keys(73);
    law_octave_has_seven_white_keys(85);
    law_octave_has_seven_white_keys(97);
}

proof fn lemma_whites_ascend(a: int, b: int)
    requires
        a <= b,
    ensures
        0 <= whites_below(a) <= whites_below(b),
    decreases b - a, b - LO_PITCH,
{
    if a < b {
        lemma_whites_ascend(a, b - 1);
    } else if b > LO_PITCH {
        lemma_whites_ascend(b - 1, b - 1);
    }
}

/// The white keys tile the keyboard: the lowest begins at its start, each begins where the white
/// key before it ends, and the highest ends at its end.
pub proof fn law_white_keys_tile_the_keyboard(pitch: int)
    requires
        LO_PITCH <= pitch < HI_PITCH,
        !black(pitch),
    ensures
        slot_of(LO_PITCH as int).start() == 0,
        slot_of(HI_PITCH as int).end() == 200 * N_WHITE,
        !black(pitch + 1) ==> slot_of(pitch + 1).start() == slot_of(pitch).end(),
        black(pitch + 1) ==> !black(pitch + 2) && slot_of(pitch + 2).start() == slot_of(
            pitch,
        ).end(),
{
    law_white_keys_fill_the_keyboard();
    lemma_whites_ascend(pitch, HI_PITCH + 1);
    lemma_whites_ascend(pitch + 1, HI_PITCH + 1);
    lemma_whites_ascend(pitch + 2, HI_PITCH + 1);
    lemma_whites_ascend(HI_PITCH as int, HI_PITCH + 1);
    law_white_keys_stand_in_a_row(pitch);
    law_white_keys_stand_in_a_row(pitch + 1);
    law_white_keys_stand_in_a_row(HI_PITCH as int);
    if black(pitch + 1) {
        assert((pitch + 2) % 12 == (if (pitch + 1) % 12 == 11 { 0 } else { (pitch + 1) % 12 + 1 }));
    }
}

/// A black key of the keyboard lies on top of both its white neighbours, within them.
pub proof fn law_black_keys_overlap_their_neighbours(pitch: int)
    requires
        LO_PITCH <= pitch <= HI_PITCH,
        black(pitch),
    ensures
        !black(pitch - 1) && !black(pitch + 1),
        LO_PITCH <= pitch - 1 && pitch + 1 <= HI_PITCH,
        slot_of(pitch - 1).start() < slot_of(pitch).start() < slot_of(pitch - 1).end(),
        slot_of(pitch + 1).start() < slot_of(pitch).end() < slot_of(pitch + 1).end(),
{
    law_white_keys_fill_the_keyboard();
    lemma_whites_ascend(pitch - 1, HI_PITCH + 1);
    lemma_whites_ascend(pitch, HI_PITCH + 1);
    lemma_whites_ascend(pitch + 1, HI_PITCH + 1);
    assert((pitch - 1) % 12 == pitch % 12 - 1);
    assert((pitch + 1) % 12 == pitch % 12 + 1);
    law_white_keys_stand_in_a_row(pitch - 1);
    law_white_keys_stand_in_a_row(pitch);
}

/// Each key of the keyboard is drawn: it is among the keys of its colour and not among the
/// others.
pub proof fn law_each_key_is_drawn(pitch: i32)
    requires
        LO_PITCH <= pitch <= HI_PITCH,
    ensures
        all_keys().filter(of_color(black(pitch as int))).contains(pitch),
        !all_keys().filter(of_color(!black(pitch as int))).contains(pitch),
{
    assert(all_keys()[pitch - LO_PITCH] == pitch);
    lists::lemma_filter_elements(all_keys(), of_color(black(pitch as int)), pitch);
    lists::lemma_filter_elements(all_keys(), of_color(!black(pitch as int)), pitch);
}

/// The white keys are C, D, E, F, G, A and B of every octave; all others are black.
pub proof fn law_white_keys_are_the_natural_ones(pitch: int)
    ensures
        !black(pitch) <==> pitch % 12 == 0 || pitch % 12 == 2 || pitch % 12 == 4 || pitch % 12 == 5
            || pitch % 12 == 7 || pitch % 12 == 9 || pitch % 12 == 11,
        black(pitch) == black(pitch + 12),
{
}

/// In a group of two or three black keys, the lowest stands a little lower and the highest a
/// little higher than the border below it; the one in the middle of three stands on it.
pub proof fn law_black_keys_spread_in_their_group(pitch: int)
    requires
        black(pitch),
    ensures
        !black(pitch - 2) ==> black_shift(pitch) < 0,
        !black(pitch + 2) ==> black_shift(pitch) > 0,
        black(pitch - 2) && black(pitch + 2) ==> black_shift(pitch) == 0,
        pitch % 12 < 5 ==> -10 <= black_shift(pitch) <= 10 && black_shift(pitch) != 0,
        pitch % 12 == 6 ==> black_shift(pitch) == -12,
        pitch % 12 == 10 ==> black_shift(pitch) == 12,
        pitch % 12 == 1 ==> black_shift(pitch) == -10,
        pitch % 12 == 3 ==> black_shift(pitch) == 10,
{
    assert((pitch - 2) % 12 == (if pitch % 12 >= 2 { pitch % 12 - 2 } else { pitch % 12 + 10 }));
    assert((pitch + 2) % 12 == (if pitch % 12 < 10 { pitch % 12 + 2 } else { pitch % 12 - 10 }));
}

/// The keys are those from A0 to C8, ascending; each is listed with those of its colour, and an
/// octave line is drawn at every C among them.
pub proof fn law_keys_run_from_a0_to_c8(p: i32, want_black: bool)
    ensures
        all_keys().len() == 88,
        forall|i: int| 0 <= i < 88 ==> #[trigger] all_keys()[i] == 21 + i,
        all_keys().filter(of_color(want_black)).contains(p) <==> 21 <= p <= 108 && black(p as int)
            == want_black,
        all_keys().filter(at_octave()).contains(p) <==> 21 <= p <= 108 && p as int % 12 == 0,
{
    if 21 <= p <= 108 {
        assert(all_keys()[p - 21] == p);
    }
    lists::lemma_filter_elements(all_keys(), of_color(want_black), p);
    lists::lemma_filter_elements(all_keys(), at_octave(), p);
}

/// A key's slot tells its colour, how many white keys stand below it, and, for a black key only,
/// how far it is off the border.
pub proof fn law_slots_tell_the_key(pitch: int)
    requires
        LO_PITCH <= pitch <= HI_PITCH,
    ensures
        slot_of(pitch).black == black(pitch),
        slot_of(pitch).index == whites_below(pitch),
        !black(pitch) ==> slot_of(pitch).shift == 0,
        black(pitch) ==> slot_of(pitch).shift == black_shift(pitch),
        whites_below(LO_PITCH as int) == 0,
{
    law_white_keys_fill_the_keyboard();
    lemma_whites_ascend(pitch, HI_PITCH + 1);
}

} // verus!
