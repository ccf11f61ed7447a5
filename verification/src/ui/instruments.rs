//! Names of the instrument a track plays.
use vstd::prelude::*;

verus! {

broadcast use vstd::string::group_string_axioms;

/// The General MIDI channel of percussion (channel 10, index 9).
pub const PERCUSSION_CHANNEL: u8 = 9;

/// Index of the first drum kit numbered `program` (the number of kits when none is).
pub open spec fn first_kit(kits: Seq<(u8, &str)>, program: u8) -> int
    decreases kits.len(),
{
    if kits.len() == 0 || kits[0].0 == program {
        0
    } else {
        1 + first_kit(kits.drop_first(), program)
    }
}

/// The name shown for a track's instrument: on the percussion channel the drum kit of
/// its program ("Standard Kit" when the program names no kit); elsewhere the
/// instrument of its program ("Unknown" beyond the instrument list).
pub open spec fn spec_current_instrument_name(
    channel: u8,
    program: u8,
    drum_kits: Seq<(u8, &str)>,
    instruments: Seq<&str>,
) -> Seq<char> {
    if channel == PERCUSSION_CHANNEL {
        let i = first_kit(drum_kits, program);
        if i < drum_kits.len() {
            drum_kits[i].1@
        } else {
            "Standard Kit"@
        }
    } else if program < instruments.len() {
        instruments[program as int]@
    } else {
        "Unknown"@
    }
}

/// The name of the instrument a track on `channel` with `program` plays, looked up in
/// the drum kits (numbered by program) or the instrument names (indexed by program).
pub fn current_instrument_name(
    channel: u8,
    program: u8,
    drum_kits: &[(u8, &str)],
    instruments: &[&str],
) -> (name: String)
    ensures
        name@ == spec_current_instrument_name(channel, program, drum_kits@, instruments@),
{
    if channel == PERCUSSION_CHANNEL {
        let n = drum_kits.len();
        let mut i: usize = 0;
        proof {
            assert(drum_kits@.skip(0) == drum_kits@);
        }
        while i < n && drum_kits[i].0 != program
            invariant
                n == drum_kits@.len(),
                i <= n,
                first_kit(drum_kits@, program) == i + first_kit(drum_kits@.skip(i as int), program),
            decreases n - i,
        {
            proof {
                assert(drum_kits@.skip(i as int).drop_first() == drum_kits@.skip(i + 1));
            }
            i = i + 1;
        }
        proof {
            if i < n {
                assert(drum_kits@.skip(i as int)[0] == drum_kits@[i as int]);
            }
        }
        if i < n {
            drum_kits[i].1.to_string()
        } else {
            "Standard Kit".to_string()
        }
    } else if (program as usize) < instruments.len() {
        instruments[program as usize].to_string()
    } else {
        "Unknown".to_string()
    }
}

proof fn lemma_first_kit_is(kits: Seq<(u8, &str)>, program: u8, i: int)
    requires
        0 <= i <= kits.len(),
        forall|j: int| 0 <= j < i ==> #[trigger] kits[j].0 != program,
        i < kits.len() ==> kits[i].0 == program,
    ensures
        first_kit(kits, program) == i,
    decreases i,
{
    if i > 0 {
        let rest = kits.drop_first();
        assert forall|j: int| 0 <= j < i - 1 implies #[trigger] rest[j].0 != program by {
            assert(rest[j] == kits[j + 1]);
        }
        if i < kits.len() {
            assert(rest[i - 1] == kits[i]);
        }
        lemma_first_kit_is(rest, program, i - 1);
    }
}

/// Law: drum kits are looked up on the percussion channel only. On channel 9 a track is
/// named after the first kit with its program number ("Standard Kit" when none has
/// it); on every other channel after the instrument its program indexes ("Unknown"
/// past the end of the table).
pub proof fn lemma_instrument_name_by_channel(
    channel: u8,
    program: u8,
    drum_kits: Seq<(u8, &str)>,
    instruments: Seq<&str>,
)
    ensures
        channel != 9 ==> spec_current_instrument_name(channel, program, drum_kits, instruments)
            == if (program as int) < instruments.len() {
            instruments[program as int]@
        } else {
            "Unknown"@
        },
        channel == 9 ==> forall|i: int|
            0 <= i < drum_kits.len() && #[trigger] drum_kits[i].0 == program && (forall|j: int|
                0 <= j < i ==> drum_kits[j].0 != program) ==> spec_current_instrument_name(
                channel,
                program,
                drum_kits,
                instruments,
            ) == drum_kits[i].1@,
        channel == 9 && (forall|i: int| 0 <= i < drum_kits.len() ==> #[trigger] drum_kits[i].0
            != program) ==> spec_current_instrument_name(channel, program, drum_kits, instruments)
            == "Standard Kit"@,
{
    if channel == 9 {
        assert forall|i: int|
            0 <= i < drum_kits.len() && #[trigger] drum_kits[i].0 == program && (forall|j: int|
                0 <= j < i ==> drum_kits[j].0 != program) implies spec_current_instrument_name(
            channel,
            program,
            drum_kits,
            instruments,
        ) == drum_kits[i].1@ by {
            lemma_first_kit_is(drum_kits, program, i);
        }
        if forall|i: int| 0 <= i < drum_kits.len() ==> #[trigger] drum_kits[i].0 != program {
            lemma_first_kit_is(drum_kits, program, drum_kits.len() as int);
        }
    }
}

} // verus!
