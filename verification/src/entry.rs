//! Formatting of entry lines: one deterministic template per entry kind,
//! with numbers rendered in decimal and the down-set total computed as a
//! triangular number.

use vstd::prelude::*;
use vstd::string::*;

verus! {

/// The decimal digit character for a value below ten.
pub open spec fn spec_digit(n: int) -> char {
    if n == 0 { '0' }
    else if n == 1 { '1' }
    else if n == 2 { '2' }
    else if n == 3 { '3' }
    else if n == 4 { '4' }
    else if n == 5 { '5' }
    else if n == 6 { '6' }
    else if n == 7 { '7' }
    else if n == 8 { '8' }
    else { '9' }
}

/// The decimal rendering of a non-negative number, most significant
/// digit first, with no leading zero.
pub open spec fn spec_dec(n: int) -> Seq<char>
    decreases n,
{
    if n < 10 {
        seq![spec_digit(n)]
    } else {
        spec_dec(n / 10).push(spec_digit(n % 10))
    }
}

fn digit_str(n: u32) -> (r: &'static str)
    requires
        n < 10,
    ensures
        r@ == seq![spec_digit(n as int)],
{
    if n == 0 {
        proof { reveal_strlit("0"); }
        "0"
    } else if n == 1 {
        proof { reveal_strlit("1"); }
        "1"
    } else if n == 2 {
        proof { reveal_strlit("2"); }
        "2"
    } else if n == 3 {
        proof { reveal_strlit("3"); }
        "3"
    } else if n == 4 {
        proof { reveal_strlit("4"); }
        "4"
    } else if n == 5 {
        proof { reveal_strlit("5"); }
        "5"
    } else if n == 6 {
        proof { reveal_strlit("6"); }
        "6"
    } else if n == 7 {
        proof { reveal_strlit("7"); }
        "7"
    } else if n == 8 {
        proof { reveal_strlit("8"); }
        "8"
    } else {
        proof { reveal_strlit("9"); }
        "9"
    }
}

pub fn dec_string(n: u32) -> (r: String)
    ensures
        r@ == spec_dec(n as int),
    decreases n,
{
    if n < 10 {
        String::from_str(digit_str(n))
    } else {
        let mut s = dec_string(n / 10);
        s.append(digit_str(n % 10));
        proof {
            assert(spec_dec(n as int / 10) + seq![spec_digit(n as int % 10)] =~= spec_dec(
                n as int,
            ));
        }
        s
    }
}

/// The total of a descending rep ladder from `n` down to one.
pub fn triangular(n: u16) -> (r: u32)
    ensures
        r == n * (n + 1) / 2,
{
    let w = n as u32;
    proof {
        assert(w * (w + 1) <= 65535 * 65536) by (nonlinear_arith)
            requires
                w <= 65535,
        ;
    }
    w * (w + 1) / 2
}

pub open spec fn spec_set_line(ex: Seq<char>, sets: int, reps: int, weight: int, rir: int)
    -> Seq<char> {
    "    #set "@ + ex + ": "@ + spec_dec(sets) + "x"@ + spec_dec(reps) + " ["@ + spec_dec(weight)
        + "lbs] ("@ + spec_dec(rir) + " RIR)"@
}

pub open spec fn spec_max_line(ex: Seq<char>, weight: int) -> Seq<char> {
    "    #max "@ + ex + ": ["@ + spec_dec(weight) + "lbs]"@
}

pub open spec fn spec_myo_line(ex: Seq<char>, sets: int, reps: int, weight: int, rests: int)
    -> Seq<char> {
    "    #myo "@ + ex + ": "@ + spec_dec(sets) + "x"@ + spec_dec(reps) + " ["@ + spec_dec(weight)
        + "lbs] ("@ + spec_dec(rests) + " rests)"@
}

pub open spec fn spec_down_line(ex: Seq<char>, starting_reps: int, weight: int) -> Seq<char> {
    "    #down "@ + ex + ": "@ + spec_dec(starting_reps * (starting_reps + 1) / 2) + " => "@
        + spec_dec(starting_reps) + " ["@ + spec_dec(weight) + "lbs]"@
}

/// `    #set {exercise}: {sets}x{reps} [{weight}lbs] ({rir} RIR)`
pub fn format_set(exercise: &str, sets: u8, reps: u8, weight: u8, rir: u8) -> (r: String)
    ensures
        r@ == spec_set_line(exercise@, sets as int, reps as int, weight as int, rir as int),
{
    let mut s = String::from_str("    #set ");
    s.append(exercise);
    s.append(": ");
    let d = dec_string(sets as u32);
    s.append(d.as_str());
    s.append("x");
    let d = dec_string(reps as u32);
    s.append(d.as_str());
    s.append(" [");
    let d = dec_string(weight as u32);
    s.append(d.as_str());
    s.append("lbs] (");
    let d = dec_string(rir as u32);
    s.append(d.as_str());
    s.append(" RIR)");
    proof {
        assert(s@ =~= spec_set_line(
            exercise@,
            sets as int,
            reps as int,
            weight as int,
            rir as int,
        ));
    }
    s
}

/// `    #max {exercise}: [{weight}lbs]`
pub fn format_max(exercise: &str, weight: u8) -> (r: String)
    ensures
        r@ == spec_max_line(exercise@, weight as int),
{
    let mut s = String::from_str("    #max ");
    s.append(exercise);
    s.append(": [");
    let d = dec_string(weight as u32);
    s.append(d.as_str());
    s.append("lbs]");
    proof {
        assert(s@ =~= spec_max_line(exercise@, weight as int));
    }
    s
}

/// `    #myo {exercise}: {sets}x{reps} [{weight}lbs] ({rests} rests)`
pub fn format_myo(exercise: &str, sets: u8, reps: u8, rests: u8, weight: u8) -> (r: String)
    ensures
        r@ == spec_myo_line(exercise@, sets as int, reps as int, weight as int, rests as int),
{
    let mut s = String::from_str("    #myo ");
    s.append(exercise);
    s.append(": ");
    let d = dec_string(sets as u32);
    s.append(d.as_str());
    s.append("x");
    let d = dec_string(reps as u32);
    s.append(d.as_str());
    s.append(" [");
    let d = dec_string(weight as u32);
    s.append(d.as_str());
    s.append("lbs] (");
    let d = dec_string(rests as u32);
    s.append(d.as_str());
    s.append(" rests)");
    proof {
        assert(s@ =~= spec_myo_line(
            exercise@,
            sets as int,
            reps as int,
            weight as int,
            rests as int,
        ));
    }
    s
}

/// `    #down {exercise}: {total} => {starting_reps} [{weight}lbs]`,
/// where the total is the triangular number of `starting_reps`.
pub fn format_down(exercise: &str, starting_reps: u16, weight: u8) -> (r: String)
    ensures
        r@ == spec_down_line(exercise@, starting_reps as int, weight as int),
{
    let mut s = String::from_str("    #down ");
    s.append(exercise);
    s.append(": ");
    let t = triangular(starting_reps);
    let d = dec_string(t);
    s.append(d.as_str());
    s.append(" => ");
    let d = dec_string(starting_reps as u32);
    s.append(d.as_str());
    s.append(" [");
    let d = dec_string(weight as u32);
    s.append(d.as_str());
    s.append("lbs]");
    proof {
        assert(s@ =~= spec_down_line(exercise@, starting_reps as int, weight as int));
    }
    s
}

} // verus!
