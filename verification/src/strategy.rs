//! Strategy labels: a shading strength, and after an underscore a style.

use crate::agent::Agent;
use crate::fixed::UNIT;
use crate::style::Style;
use vstd::prelude::*;
use vstd::string::*;

verus! {

/// Why a strategy label was refused.
#[derive(Clone, Copy, Debug, PartialEq, Eq, Structural)]
pub enum LabelError {
    /// The text before the underscore is not a decimal in the unit interval.
    Strength,
    /// The text after the underscore names no style.
    Style,
}

/// The place of the first `mark` at or after `from`, or the length of the
/// text where there is none.
pub open spec fn first_of(text: Seq<char>, mark: char, from: int) -> int
    decreases text.len() - from,
{
    if from < 0 || from >= text.len() {
        text.len() as int
    } else if text[from] == mark {
        from
    } else {
        first_of(text, mark, from + 1)
    }
}

/// The character is one of the ten digits.
pub open spec fn is_digit(c: char) -> bool {
    '0' <= c <= '9'
}

/// The number that a digit stands for.
pub open spec fn digit(c: char) -> int {
    c as int - '0' as int
}

/// Every character of the text is a digit.
pub open spec fn all_digits(text: Seq<char>) -> bool {
    forall|i: int| 0 <= i < text.len() ==> is_digit(#[trigger] text[i])
}

/// The number that a text of digits writes.
pub open spec fn number(digits: Seq<char>) -> int
    decreases digits.len(),
{
    if digits.len() == 0 {
        0
    } else {
        number(digits.drop_last()) * 10 + digit(digits.last())
    }
}

/// The first `count` digits after a decimal point, read as one number; a
/// place that the text does not reach counts as zero.
pub open spec fn fraction(digits: Seq<char>, count: nat) -> int
    decreases count,
{
    if count == 0 {
        0
    } else {
        fraction(digits, (count - 1) as nat) * 10 + if count - 1 < digits.len() {
            digit(digits[count - 1])
        } else {
            0
        }
    }
}

/// The fixed-point number that a decimal writes: digits, and optionally a
/// point and more digits, with a digit on at least one side. The fraction is
/// read to nine places; what follows them is dropped. None where the text is
/// no decimal.
pub open spec fn decimal(text: Seq<char>) -> Option<int> {
    let dot = first_of(text, '.', 0);
    let whole = text.subrange(0, dot);
    let rest = if dot < text.len() {
        text.subrange(dot + 1, text.len() as int)
    } else {
        Seq::empty()
    };
    if all_digits(whole) && all_digits(rest) && whole.len() + rest.len() > 0 {
        Some(number(whole) * UNIT + fraction(rest, 9))
    } else {
        None
    }
}

/// The shading strength that a text writes: a decimal in the unit interval.
pub open spec fn spec_strength(text: Seq<char>) -> Option<int> {
    match decimal(text) {
        Some(strength) => if strength <= UNIT {
            Some(strength)
        } else {
            None
        },
        None => None,
    }
}

/// What a strategy label says: the strength before the first underscore and
/// the style after it, or the default style where there is no underscore. A
/// bad strength is reported before a bad style.
pub open spec fn spec_strategy(label: Seq<char>, default_style: Style) -> Result<
    (int, Style),
    LabelError,
> {
    let cut = first_of(label, '_', 0);
    match spec_strength(label.subrange(0, cut)) {
        Some(strength) => if cut == label.len() {
            Ok((strength, default_style))
        } else {
            match Style::spec_parse(label.subrange(cut + 1, label.len() as int)) {
                Some(style) => Ok((strength, style)),
                None => Err(LabelError::Style),
            }
        },
        None => Err(LabelError::Strength),
    }
}

/// Finds the first `mark` at or after `from`.
fn find(text: &str, len: usize, mark: char, from: usize) -> (at: usize)
    requires
        len == text@.len(),
        from <= len,
    ensures
        at == first_of(text@, mark, from as int),
        from <= at <= len,
        forall|i: int| from <= i < at ==> text@[i] != mark,
        at < len ==> text@[at as int] == mark,
{
    let mut at: usize = from;
    while at < len
        invariant
            len == text@.len(),
            from <= at <= len,
            first_of(text@, mark, from as int) == first_of(text@, mark, at as int),
            forall|i: int| from <= i < at ==> text@[i] != mark,
        decreases len - at,
    {
        if text.get_char(at) == mark {
            return at;
        }
        at += 1;
    }
    at
}

/// The number of a text of digits grows with every digit written after it.
proof fn lemma_number_grows(digits: Seq<char>, upto: int)
    requires
        all_digits(digits),
        0 <= upto <= digits.len(),
    ensures
        0 <= number(digits.subrange(0, upto)) <= number(digits),
    decreases digits.len() - upto,
{
    lemma_number_sign(digits.subrange(0, upto));
    if upto < digits.len() {
        let longer = digits.subrange(0, upto + 1);
        assert(longer.drop_last() =~= digits.subrange(0, upto));
        assert(is_digit(digits[upto]));
        assert(longer.last() == digits[upto]);
        lemma_number_grows(digits, upto + 1);
    } else {
        assert(digits.subrange(0, upto) =~= digits);
    }
}

/// A text of digits writes no negative number.
proof fn lemma_number_sign(digits: Seq<char>)
    requires
        all_digits(digits),
    ensures
        0 <= number(digits),
    decreases digits.len(),
{
    if digits.len() > 0 {
        assert(is_digit(digits.last()));
        assert forall|i: int| 0 <= i < digits.len() - 1 implies is_digit(
            #[trigger] digits.drop_last()[i],
        ) by {
            assert(digits.drop_last()[i] == digits[i]);
        }
        lemma_number_sign(digits.drop_last());
    }
}

/// Ten to the power of `places`, for up to nine places.
spec fn ten_to(places: int) -> int {
    if places <= 0 {
        1
    } else if places == 1 {
        10
    } else if places == 2 {
        100
    } else if places == 3 {
        1_000
    } else if places == 4 {
        10_000
    } else if places == 5 {
        100_000
    } else if places == 6 {
        1_000_000
    } else if places == 7 {
        10_000_000
    } else if places == 8 {
        100_000_000
    } else {
        1_000_000_000
    }
}

/// A fraction read to some places fills no more than those places.
proof fn lemma_fraction_range(digits: Seq<char>, count: nat)
    requires
        all_digits(digits),
        count <= 9,
    ensures
        0 <= fraction(digits, count) < ten_to(count as int),
    decreases count,
{
    if count > 0 {
        lemma_fraction_range(digits, (count - 1) as nat);
        if count - 1 < digits.len() {
            assert(is_digit(digits[count - 1]));
        }
    }
}

/// Reads a shading strength: a decimal in the unit interval.
pub fn parse_strength(text: &str) -> (strength: Option<i64>)
    ensures
        match spec_strength(text@) {
            Some(value) => strength == Some(value as i64) && 0 <= value <= UNIT,
            None => strength.is_none(),
        },
{
    let len: usize = text.unicode_len();
    let dot: usize = find(text, len, '.', 0);
    let ghost whole = text@.subrange(0, dot as int);
    let ghost rest = if dot < len {
        text@.subrange(dot + 1, len as int)
    } else {
        Seq::empty()
    };
    assert(decimal(text@) == if all_digits(whole) && all_digits(rest) && whole.len() + rest.len()
        > 0 {
        Some(number(whole) * UNIT + fraction(rest, 9))
    } else {
        None
    });
    let mut units: i64 = 0;
    let mut i: usize = 0;
    while i < dot
        invariant
            len == text@.len(),
            dot <= len,
            i <= dot,
            decimal(text@) == if all_digits(whole) && all_digits(rest) && whole.len() + rest.len()
                > 0 {
                Some(number(whole) * UNIT + fraction(rest, 9))
            } else {
                None
            },
            whole == text@.subrange(0, dot as int),
            all_digits(whole.subrange(0, i as int)),
            units == number(whole.subrange(0, i as int)),
            0 <= units <= 1,
        decreases dot - i,
    {
        let c: char = text.get_char(i);
        if !(c >= '0' && c <= '9') {
            proof {
                assert(whole[i as int] == c);
                assert(!is_digit(whole[i as int]));
                assert(!all_digits(whole));
            }
            return None;
        }
        let d: i64 = (c as i64) - ('0' as i64);
        proof {
            let shorter = whole.subrange(0, i as int);
            let longer = whole.subrange(0, i + 1);
            assert(longer.drop_last() =~= shorter);
            assert(longer.last() == c);
            assert forall|j: int| 0 <= j < longer.len() implies is_digit(#[trigger] longer[j]) by {
                if j < i {
                    assert(shorter[j] == longer[j]);
                }
            }
        }
        units = units * 10 + d;
        if units > 1 {
            proof {
                if all_digits(whole) && all_digits(rest) {
                    lemma_number_grows(whole, i + 1);
                    lemma_fraction_range(rest, 9);
                    assert(number(whole) * UNIT >= 2 * UNIT) by (nonlinear_arith)
                        requires
                            number(whole) >= 2,
                    ;
                }
            }
            return None;
        }
        i += 1;
    }
    assert(whole.subrange(0, dot as int) =~= whole);
    let mut parts: i64 = 0;
    let mut read: usize = 0;
    let start: usize = if dot < len {
        dot + 1
    } else {
        len
    };
    i = start;
    while i < len
        invariant
            len == text@.len(),
            dot <= len,
            start == if dot < len {
                dot + 1
            } else {
                len as int
            },
            start <= i <= len,
            decimal(text@) == if all_digits(whole) && all_digits(rest) && whole.len() + rest.len()
                > 0 {
                Some(number(whole) * UNIT + fraction(rest, 9))
            } else {
                None
            },
            rest.len() == len - start,
            forall|j: int| 0 <= j < rest.len() ==> rest[j] == text@[start + j],
            all_digits(rest.subrange(0, i - start)),
            read == if i - start < 9 {
                i - start
            } else {
                9
            },
            parts == fraction(rest, read as nat),
            0 <= parts < ten_to(read as int),
        decreases len - i,
    {
        let c: char = text.get_char(i);
        if !(c >= '0' && c <= '9') {
            proof {
                assert(rest[i - start] == c);
                assert(!is_digit(rest[i - start]));
                assert(!all_digits(rest));
            }
            return None;
        }
        let d: i64 = (c as i64) - ('0' as i64);
        proof {
            let shorter = rest.subrange(0, i - start);
            let longer = rest.subrange(0, i - start + 1);
            assert(longer[i - start] == c);
            assert forall|j: int| 0 <= j < longer.len() implies is_digit(#[trigger] longer[j]) by {
                if j < i - start {
                    assert(shorter[j] == longer[j]);
                }
            }
        }
        if read < 9 {
            parts = parts * 10 + d;
            read += 1;
        }
        i += 1;
    }
    assert(rest.subrange(0, len - start) =~= rest);
    if dot + (len - start) == 0 {
        return None;
    }
    while read < 9
        invariant
            read <= 9,
            rest.len() <= read || read == 9,
            parts == fraction(rest, read as nat),
            0 <= parts < ten_to(read as int),
        decreases 9 - read,
    {
        parts = parts * 10;
        read += 1;
    }
    proof {
        assert(decimal(text@) == Some(units * UNIT + parts));
    }
    if units == 1 && parts > 0 {
        return None;
    }
    Some(units * UNIT + parts)
}

/// Reads a strategy label: the strength before the first underscore and the
/// style after it, or `default_style` where the label has no underscore.
pub fn parse_strategy(label: &str, default_style: Style) -> (parsed: Result<
    (i64, Style),
    LabelError,
>)
    ensures
        match spec_strategy(label@, default_style) {
            Ok((strength, style)) => parsed == Ok::<(i64, Style), LabelError>(
                (strength as i64, style),
            ) && 0 <= strength <= UNIT,
            Err(error) => parsed == Err::<(i64, Style), LabelError>(error),
        },
{
    let len: usize = label.unicode_len();
    let cut: usize = find(label, len, '_', 0);
    let strength: i64 = match parse_strength(label.substring_char(0, cut)) {
        Some(strength) => strength,
        None => {
            return Err(LabelError::Strength);
        },
    };
    if cut == len {
        return Ok((strength, default_style));
    }
    match Style::parse(label.substring_char(cut + 1, len)) {
        Ok(style) => Ok((strength, style)),
        Err(_) => Err(LabelError::Style),
    }
}

/// Adds to a population `count` agents of one role that play the strategy
/// that `label` writes. Nothing is added where the label is refused.
pub fn enlist<'a>(
    agents: &mut Vec<Agent<'a>>,
    buyer: bool,
    label: &'a str,
    count: u64,
    default_style: Style,
) -> (done: Result<(), LabelError>)
    ensures
        match spec_strategy(label@, default_style) {
            Ok((strength, style)) => done.is_ok() && final(agents)@ == old(agents)@ + Seq::new(
                count as nat,
                |i: int| new_agent(buyer, label, style, strength),
            ),
            Err(error) => done == Err::<(), LabelError>(error) && final(agents)@ == old(agents)@,
        },
{
    let (strength, style) = match parse_strategy(label, default_style) {
        Ok(strategy) => strategy,
        Err(error) => {
            return Err(error);
        },
    };
    let ghost recruits = Seq::new(
        count as nat,
        |i: int| new_agent(buyer, label, style, strength as int),
    );
    let mut i: u64 = 0;
    while i < count
        invariant
            i <= count,
            0 <= strength <= UNIT,
            recruits == Seq::new(
                count as nat,
                |i: int| new_agent(buyer, label, style, strength as int),
            ),
            agents@ == old(agents)@ + recruits.take(i as int),
        decreases count - i,
    {
        agents.push(Agent::new(buyer, label, style, strength));
        proof {
            assert(recruits.take(i + 1) =~= recruits.take(i as int).push(recruits[i as int]));
            assert(agents@ =~= old(agents)@ + recruits.take(i + 1));
        }
        i += 1;
    }
    assert(recruits.take(count as int) =~= recruits);
    Ok(())
}

/// The agent that [`Agent::new`] makes.
pub open spec fn new_agent<'a>(buyer: bool, strat: &'a str, style: Style, shading: int) -> Agent<
    'a,
> {
    Agent {
        buyer,
        strat,
        style,
        shading: shading as i64,
        value: 0,
        bid: 0,
        utility: 0,
        traded: false,
        ce_traded: false,
    }
}

} // verus!
