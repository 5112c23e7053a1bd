//! Text for a register.
//!
//! One line stands for one basis state: its ket, a bar that shows the size of its
//! probability, and the real and imaginary part of its amplitude with three
//! decimals, as in ` |0010>  *******  0.500 + -0.500i`.

use vstd::prelude::*;
use vstd::arithmetic::power2::{
    lemma2_to64, lemma2_to64_rest, lemma_pow2_adds, lemma_pow2_pos, lemma_pow2_strictly_increases,
    lemma_pow2_unfold, pow2,
};
use crate::codec::{label_of, to_state_repr_binary};
use crate::fixed::{Amplitude, PROBABILITY_ONE};
use crate::register::{Entangble, QuantumState};
use crate::sampler::RandomSource;

verus! {

/// The width of the bar in a line.
pub const BAR_WIDTH: u8 = 8;

/// The bar for a magnitude between zero and one: position `j` is filled if the
/// magnitude exceeds `2^-(j+1)`.
pub open spec fn bar_of(magnitude: int, steps: nat) -> Seq<char> {
    Seq::new(
        steps,
        |j: int|
            if magnitude * pow2((j + 1) as nat) > PROBABILITY_ONE {
                '*'
            } else {
                ' '
            },
    )
}

/// The text that shows a magnitude: its bar, or a word where the magnitude is
/// negative or exceeds one.
pub open spec fn magnitude_text(magnitude: int, steps: nat) -> Seq<char> {
    if magnitude < 0 {
        "NEGATIVE"@
    } else if magnitude > PROBABILITY_ONE {
        "TOO BIG "@
    } else {
        bar_of(magnitude, steps)
    }
}

/// The character that stands for a decimal digit.
pub open spec fn digit_char(digit: int) -> char {
    ('0' as int + digit) as char
}

/// The size of a component in thousandths, rounded to the nearest, a half to the
/// even neighbour.
pub open spec fn thousandths_of(component: i64) -> int {
    let size = if component >= 0 {
        component as int
    } else {
        -component
    };
    let whole = (size * 1000) / 0x4000_0000_0000_0000;
    let rest = (size * 1000) % 0x4000_0000_0000_0000;
    if rest > 0x2000_0000_0000_0000 || (rest == 0x2000_0000_0000_0000 && whole % 2 == 1) {
        whole + 1
    } else {
        whole
    }
}

/// A component with three decimals, such as `0.707` or `-1.000`. A negative
/// component keeps its sign where it rounds to zero.
pub open spec fn decimal_of(component: i64) -> Seq<char> {
    let size = thousandths_of(component);
    let digits = seq![
        digit_char(size / 1000),
        '.',
        digit_char(size / 100 % 10),
        digit_char(size / 10 % 10),
        digit_char(size % 10),
    ];
    if component < 0 {
        seq!['-'] + digits
    } else {
        digits
    }
}

/// The line for the basis state `index` of a register of `qubits` qubits.
pub open spec fn line_of(index: nat, qubits: nat, amplitude: Amplitude) -> Seq<char> {
    " |"@ + label_of(index, qubits) + "> "@ + magnitude_text(
        amplitude.squared_norm() as int,
        BAR_WIDTH as nat,
    ) + "  "@ + decimal_of(amplitude.re) + " + "@ + decimal_of(amplitude.im) + "i"@
}

/// The lines for the first `count` basis states, each closed by a line feed.
pub open spec fn lines_of(amplitudes: Seq<Amplitude>, qubits: nat, count: int) -> Seq<char>
    decreases count,
{
    if count <= 0 {
        Seq::empty()
    } else {
        lines_of(amplitudes, qubits, count - 1) + line_of(
            (count - 1) as nat,
            qubits,
            amplitudes[count - 1],
        ) + seq!['\n']
    }
}

/// The probability one is `2^124`.
proof fn lemma_probability_one()
    ensures
        pow2(124) == PROBABILITY_ONE,
{
    lemma2_to64_rest();
    lemma_pow2_adds(62, 62);
    assert(0x4000_0000_0000_0000 * 0x4000_0000_0000_0000 == PROBABILITY_ONE) by (nonlinear_arith);
}

/// Comparing a magnitude with `2^(124-step)` is comparing `magnitude * 2^step`
/// with one.
proof fn lemma_threshold(magnitude: int, step: nat)
    requires
        0 <= magnitude,
        step <= 124,
    ensures
        magnitude > pow2((124 - step) as nat) <==> magnitude * pow2(step) > PROBABILITY_ONE,
{
    lemma_probability_one();
    lemma_pow2_adds((124 - step) as nat, step);
    lemma_pow2_pos(step);
    let threshold = pow2((124 - step) as nat) as int;
    let scale = pow2(step) as int;
    assert(magnitude > threshold <==> magnitude * scale > threshold * scale) by (nonlinear_arith)
        requires
            scale > 0,
    ;
}

/// Beyond step 124 every positive magnitude exceeds the threshold.
proof fn lemma_threshold_vanishes(magnitude: int, step: nat)
    requires
        0 <= magnitude,
        step > 124,
    ensures
        magnitude > 0 <==> magnitude * pow2(step) > PROBABILITY_ONE,
{
    lemma_probability_one();
    lemma_pow2_strictly_increases(124, step);
    let scale = pow2(step) as int;
    assert(magnitude > 0 ==> magnitude * scale >= scale) by (nonlinear_arith)
        requires
            scale > 0,
    ;
    assert(magnitude == 0 ==> magnitude * scale == 0) by (nonlinear_arith);
}

/// Shows a magnitude between zero and one as a bar of `steps` characters, of which
/// position `j` is `*` if the magnitude exceeds `2^-(j+1)`. A negative magnitude
/// is shown as `NEGATIVE` and one above one as `TOO BIG `.
pub fn norm_ascii_log_magnitude(magnitude: i128, steps: u8) -> (text: String)
    ensures
        text@ == magnitude_text(magnitude as int, steps as nat),
{
    if magnitude < 0 {
        return "NEGATIVE".to_owned();
    }
    if magnitude as u128 > PROBABILITY_ONE {
        return "TOO BIG ".to_owned();
    }
    let size: u128 = magnitude as u128;
    let mut text = String::new();
    let mut threshold: u128 = PROBABILITY_ONE;
    let mut step: u8 = 0;
    proof {
        lemma_probability_one();
    }
    while step < steps
        invariant
            step <= steps,
            size == magnitude,
            0 <= magnitude <= PROBABILITY_ONE,
            step <= 124 ==> threshold == pow2((124 - step) as nat),
            step > 124 ==> threshold == 0,
            text@.len() == step,
            forall|j: int|
                0 <= j < step ==> text@[j] == bar_of(magnitude as int, steps as nat)[j],
        decreases steps - step,
    {
        proof {
            if step < 124 {
                lemma_pow2_unfold((124 - step) as nat);
                lemma_threshold(magnitude as int, (step + 1) as nat);
            } else {
                if step == 124 {
                    lemma2_to64();
                }
                lemma_threshold_vanishes(magnitude as int, (step + 1) as nat);
            }
            reveal_strlit("*");
            reveal_strlit(" ");
        }
        threshold = threshold / 2;
        if size > threshold {
            text.append("*");
        } else {
            text.append(" ");
        }
        step = step + 1;
    }
    assert(text@ =~= bar_of(magnitude as int, steps as nat));
    text
}

/// The text of one decimal digit.
fn digit_text(digit: u128) -> (text: &'static str)
    requires
        digit < 10,
    ensures
        text@ == seq![digit_char(digit as int)],
{
    proof {
        reveal_strlit("0");
        reveal_strlit("1");
        reveal_strlit("2");
        reveal_strlit("3");
        reveal_strlit("4");
        reveal_strlit("5");
        reveal_strlit("6");
        reveal_strlit("7");
        reveal_strlit("8");
        reveal_strlit("9");
    }
    let text = if digit == 0 {
        "0"
    } else if digit == 1 {
        "1"
    } else if digit == 2 {
        "2"
    } else if digit == 3 {
        "3"
    } else if digit == 4 {
        "4"
    } else if digit == 5 {
        "5"
    } else if digit == 6 {
        "6"
    } else if digit == 7 {
        "7"
    } else if digit == 8 {
        "8"
    } else {
        "9"
    };
    assert(text@ =~= seq![digit_char(digit as int)]);
    text
}

/// A component with three decimals, such as `0.707` or `-1.000`: the nearest
/// thousandth, and of two that are equally near the even one. A negative component
/// keeps its sign where it rounds to zero.
pub fn format_component(component: i64) -> (text: String)
    ensures
        text@ == decimal_of(component),
{
    let size: u128 = if component >= 0 {
        component as u128
    } else {
        (-(component as i128)) as u128
    };
    let whole: u128 = (size * 1000) / 0x4000_0000_0000_0000;
    let rest: u128 = (size * 1000) % 0x4000_0000_0000_0000;
    let above: bool = rest > 0x2000_0000_0000_0000;
    let halfway: bool = rest == 0x2000_0000_0000_0000;
    let rounded: u128 = if above || (halfway && whole % 2 == 1) {
        whole + 1
    } else {
        whole
    };
    let mut text = String::new();
    proof {
        reveal_strlit("-");
        reveal_strlit(".");
    }
    if component < 0 {
        text.append("-");
    }
    text.append(digit_text(rounded / 1000));
    text.append(".");
    text.append(digit_text(rounded / 100 % 10));
    text.append(digit_text(rounded / 10 % 10));
    text.append(digit_text(rounded % 10));
    assert(text@ =~= decimal_of(component));
    text
}

/// The line for the basis state `index` of a register of `qubits` qubits: its ket,
/// the bar of its probability, and its amplitude.
pub fn render_state(index: usize, qubits: usize, amplitude: Amplitude) -> (text: String)
    ensures
        text@ == line_of(index as nat, qubits as nat, amplitude),
{
    let norm = amplitude.norm_sqr();
    let bar = if norm > PROBABILITY_ONE {
        norm_ascii_log_magnitude(i128::MAX, BAR_WIDTH)
    } else {
        norm_ascii_log_magnitude(norm as i128, BAR_WIDTH)
    };
    let label = to_state_repr_binary(index, qubits);
    let re = format_component(amplitude.re);
    let im = format_component(amplitude.im);
    let mut text = String::new();
    text.append(" |");
    text.append(label.as_str());
    text.append("> ");
    text.append(bar.as_str());
    text.append("  ");
    text.append(re.as_str());
    text.append(" + ");
    text.append(im.as_str());
    text.append("i");
    assert(text@ =~= line_of(index as nat, qubits as nat, amplitude));
    text
}

/// The text of a register: one line for each basis state, by ascending index, each
/// closed by a line feed.
pub fn render<R: RandomSource>(register: &Entangble<R>) -> (text: String)
    ensures
        text@ == lines_of(register@, register.qubit_count(), register@.len() as int),
{
    let qubits = register.qubits();
    let amplitudes = register.amplitudes();
    let mut text = String::new();
    let mut done: usize = 0;
    while done < amplitudes.len()
        invariant
            done <= amplitudes.len(),
            amplitudes@ == register@,
            qubits == register.qubit_count(),
            text@ == lines_of(register@, register.qubit_count(), done as int),
        decreases amplitudes.len() - done,
    {
        let line = render_state(done, qubits, amplitudes[done]);
        proof {
            reveal_strlit("\n");
        }
        text.append(line.as_str());
        text.append("\n");
        done = done + 1;
        assert(text@ =~= lines_of(register@, register.qubit_count(), done as int));
    }
    text
}

} // verus!
