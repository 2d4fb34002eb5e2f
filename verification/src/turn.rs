//! Turn ids: `T001` names the first turn of a conversation.

use vstd::prelude::*;
use vstd::string::*;

verus! {

/// The decimal digit `d`.
pub open spec fn digit_char(d: int) -> char
    recommends
        0 <= d < 10,
{
    (d + '0' as int) as char
}

/// The value of a decimal digit.
pub open spec fn digit_value(c: char) -> Option<int> {
    if '0' <= c <= '9' {
        Some(c as int - '0' as int)
    } else {
        None
    }
}

/// `number` in decimal, without leading zeros.
pub open spec fn decimal(number: nat) -> Seq<char>
    decreases number,
{
    if number < 10 {
        seq![digit_char(number as int)]
    } else {
        decimal(number / 10).push(digit_char((number % 10) as int))
    }
}

/// `digits` with zeros in front where it is shorter than `width`.
pub open spec fn zero_padded(digits: Seq<char>, width: nat) -> Seq<char> {
    if digits.len() >= width {
        digits
    } else {
        Seq::new((width - digits.len()) as nat, |i: int| '0') + digits
    }
}

/// The id of turn `number`: `T` and the number, with three digits at least.
pub open spec fn turn_id_text(number: nat) -> Seq<char> {
    seq!['T'] + zero_padded(decimal(number), 3)
}

/// The single digit that stands for `d`.
fn digit(d: usize) -> (c: char)
    requires
        d < 10,
    ensures
        c == digit_char(d as int),
{
    match d {
        0 => '0',
        1 => '1',
        2 => '2',
        3 => '3',
        4 => '4',
        5 => '5',
        6 => '6',
        7 => '7',
        8 => '8',
        _ => '9',
    }
}

/// Appends `number` in decimal to `text`.
pub fn push_decimal(text: &mut String, number: usize)
    ensures
        final(text)@ == old(text)@ + decimal(number as nat),
    decreases number,
{
    let ghost before = text@;
    if number >= 10 {
        push_decimal(text, number / 10);
    }
    text.push(digit(number % 10));
    assert(text@ =~= before + decimal(number as nat));
}

/// The id under which turn `number` is listed and read.
pub fn turn_id(number: usize) -> (id: String)
    ensures
        id@ == turn_id_text(number as nat),
{
    let mut id = String::new();
    id.push('T');
    if number < 10 {
        id.append("00");
        proof {
            reveal_strlit("00");
        }
    } else if number < 100 {
        id.append("0");
        proof {
            reveal_strlit("0");
        }
    }
    push_decimal(&mut id, number);
    proof {
        lemma_decimal_len(number as nat);
        assert(id@ =~= turn_id_text(number as nat));
    }
    id
}

proof fn lemma_decimal_len(number: nat)
    ensures
        number < 10 ==> decimal(number).len() == 1,
        10 <= number < 100 ==> decimal(number).len() == 2,
        100 <= number ==> decimal(number).len() >= 3,
    decreases number,
{
    if number >= 10 {
        lemma_decimal_len(number / 10);
    }
}

/// Why a text is not an unsigned decimal number.
#[derive(Clone, Copy, Debug, PartialEq, Eq, Structural)]
pub enum NumberError {
    /// There is nothing to read.
    Empty,
    /// A character is not a decimal digit.
    InvalidDigit,
    /// The number does not fit.
    TooLarge,
}

/// Why a text is not a turn id.
#[derive(Clone, Copy, Debug, PartialEq, Eq, Structural)]
pub enum TurnIdError {
    /// The text does not start with `T`.
    MissingPrefix,
    /// What follows the `T` is not a number.
    Number(NumberError),
    /// The number is zero.
    NotPositive,
}

impl TurnIdError {
    /// The message for the user.
    pub open spec fn text(self) -> Seq<char> {
        match self {
            TurnIdError::MissingPrefix => "Turn IDs must look like T001"@,
            TurnIdError::Number(NumberError::Empty) => "cannot parse integer from empty string"@,
            TurnIdError::Number(NumberError::InvalidDigit) => "invalid digit found in string"@,
            TurnIdError::Number(NumberError::TooLarge) => "number too large to fit in target type"@,
            TurnIdError::NotPositive => "Turn IDs must be positive"@,
        }
    }

    /// The message for the user.
    pub fn message(&self) -> (message: String)
        ensures
            message@ == self.text(),
    {
        let text = match self {
            TurnIdError::MissingPrefix => "Turn IDs must look like T001",
            TurnIdError::Number(NumberError::Empty) => "cannot parse integer from empty string",
            TurnIdError::Number(NumberError::InvalidDigit) => "invalid digit found in string",
            TurnIdError::Number(NumberError::TooLarge) => "number too large to fit in target type",
            TurnIdError::NotPositive => "Turn IDs must be positive",
        };
        text.to_owned()
    }
}

/// Reads digits from left to right onto `value`. The first character that is no
/// digit, or that carries the value beyond `usize`, ends the reading.
pub open spec fn read_digits(text: Seq<char>, value: int) -> Result<usize, NumberError>
    decreases text.len(),
{
    if text.len() == 0 {
        Ok(value as usize)
    } else {
        match digit_value(text[0]) {
            None => Err(NumberError::InvalidDigit),
            Some(d) => if value * 10 + d > usize::MAX {
                Err(NumberError::TooLarge)
            } else {
                read_digits(text.drop_first(), value * 10 + d)
            },
        }
    }
}

/// The unsigned number that `text` writes in decimal. One `+` may stand in front.
pub open spec fn read_number(text: Seq<char>) -> Result<usize, NumberError> {
    if text.len() == 0 {
        Err(NumberError::Empty)
    } else if text[0] != '+' {
        read_digits(text, 0)
    } else if text.len() == 1 {
        Err(NumberError::InvalidDigit)
    } else {
        read_digits(text.drop_first(), 0)
    }
}

/// The turn that an id names.
pub open spec fn read_turn_id(text: Seq<char>) -> Result<usize, TurnIdError> {
    if text.len() == 0 || text[0] != 'T' {
        Err(TurnIdError::MissingPrefix)
    } else {
        match read_number(text.drop_first()) {
            Err(error) => Err(TurnIdError::Number(error)),
            Ok(number) => if number == 0 {
                Err(TurnIdError::NotPositive)
            } else {
                Ok(number)
            },
        }
    }
}

/// Reads the unsigned decimal number in `chars[from..]`.
fn parse_number(chars: &Vec<char>, from: usize) -> (number: Result<usize, NumberError>)
    requires
        from <= chars@.len(),
    ensures
        number == read_number(chars@.skip(from as int)),
{
    let ghost text = chars@.skip(from as int);
    if from == chars.len() {
        return Err(NumberError::Empty);
    }
    let mut i: usize = from;
    if chars[from] == '+' {
        if chars.len() - from == 1 {
            return Err(NumberError::InvalidDigit);
        }
        i = from + 1;
        assert(chars@.skip(i as int) =~= text.drop_first());
    }
    let mut value: usize = 0;
    while i < chars.len()
        invariant
            from <= i <= chars@.len(),
            text == chars@.skip(from as int),
            read_number(text) == read_digits(chars@.skip(i as int), value as int),
        decreases chars@.len() - i,
    {
        let c = chars[i];
        let ghost rest = chars@.skip(i as int);
        if c < '0' || '9' < c {
            return Err(NumberError::InvalidDigit);
        }
        let d: usize = c as usize - '0' as usize;
        if value > usize::MAX / 10 || d > usize::MAX - value * 10 {
            return Err(NumberError::TooLarge);
        }
        value = value * 10 + d;
        i = i + 1;
        assert(chars@.skip(i as int) =~= rest.drop_first());
    }
    Ok(value)
}

/// Reads a turn id back into the number of its turn.
pub fn parse_turn_id(value: &str) -> (number: Result<usize, TurnIdError>)
    ensures
        number == read_turn_id(value@),
{
    let chars = crate::strings::chars_of(value);
    if chars.len() == 0 || chars[0] != 'T' {
        return Err(TurnIdError::MissingPrefix);
    }
    assert(chars@.skip(1) =~= value@.drop_first());
    match parse_number(&chars, 1) {
        Err(error) => Err(TurnIdError::Number(error)),
        Ok(number) => if number == 0 {
            Err(TurnIdError::NotPositive)
        } else {
            Ok(number)
        },
    }
}

proof fn lemma_read_push(text: Seq<char>, c: char, value: int)
    requires
        read_digits(text, value) is Ok,
        0 <= value <= usize::MAX,
    ensures
        read_digits(text.push(c), value) == read_digits(
            seq![c],
            read_digits(text, value)->Ok_0 as int,
        ),
    decreases text.len(),
{
    if text.len() == 0 {
        assert(text.push(c) =~= seq![c]);
    } else {
        let d = digit_value(text[0])->Some_0;
        assert(text.push(c).drop_first() =~= text.drop_first().push(c));
        lemma_read_push(text.drop_first(), c, value * 10 + d);
    }
}

proof fn lemma_read_decimal(number: nat)
    requires
        number <= usize::MAX,
    ensures
        read_digits(decimal(number), 0) == Ok::<usize, NumberError>(number as usize),
        decimal(number).len() > 0,
        forall|i: int| 0 <= i < decimal(number).len() ==> '0' <= #[trigger] decimal(number)[i] <= '9',
    decreases number,
{
    let last = digit_char((number % 10) as int);
    assert(digit_value(last) == Some((number % 10) as int));
    reveal_with_fuel(read_digits, 2);
    if number < 10 {
        assert(decimal(number).drop_first() =~= Seq::<char>::empty());
    } else {
        lemma_read_decimal(number / 10);
        lemma_read_push(decimal(number / 10), last, 0);
        assert(seq![last].drop_first() =~= Seq::<char>::empty());
    }
}

proof fn lemma_read_zeros(digits: Seq<char>, zeros: nat)
    ensures
        read_digits(Seq::new(zeros, |i: int| '0') + digits, 0) == read_digits(digits, 0),
    decreases zeros,
{
    let padded = Seq::new(zeros, |i: int| '0') + digits;
    if zeros == 0 {
        assert(padded =~= digits);
    } else {
        let fewer = (zeros - 1) as nat;
        assert(padded.drop_first() =~= Seq::new(fewer, |i: int| '0') + digits);
        lemma_read_zeros(digits, fewer);
    }
}

/// Reading the id of a turn gives back the number of the turn.
pub proof fn turn_id_round_trip(number: usize)
    requires
        number > 0,
    ensures
        read_turn_id(turn_id_text(number as nat)) == Ok::<usize, TurnIdError>(number),
{
    let digits = decimal(number as nat);
    let id = turn_id_text(number as nat);
    lemma_read_decimal(number as nat);
    assert(id.drop_first() =~= zero_padded(digits, 3));
    if digits.len() < 3 {
        lemma_read_zeros(digits, (3 - digits.len()) as nat);
    }
}

/// Different turns have different ids.
pub proof fn turn_ids_are_distinct(a: usize, b: usize)
    requires
        turn_id_text(a as nat) == turn_id_text(b as nat),
    ensures
        a == b,
{
    lemma_id_zero();
    if a > 0 {
        turn_id_round_trip(a);
    }
    if b > 0 {
        turn_id_round_trip(b);
    }
}

proof fn lemma_id_zero()
    ensures
        read_turn_id(turn_id_text(0)) == Err::<usize, TurnIdError>(TurnIdError::NotPositive),
{
    let digits = decimal(0);
    lemma_read_decimal(0);
    lemma_read_zeros(digits, 2);
    assert(turn_id_text(0).drop_first() =~= zero_padded(digits, 3));
}

/// Whatever is accepted as a turn id names a positive turn, and the id of that
/// turn is accepted with the same meaning.
pub proof fn accepted_ids_are_canonical(text: Seq<char>)
    requires
        read_turn_id(text) is Ok,
    ensures
        read_turn_id(text)->Ok_0 > 0,
        read_turn_id(turn_id_text(read_turn_id(text)->Ok_0 as nat)) == read_turn_id(text),
{
    turn_id_round_trip(read_turn_id(text)->Ok_0);
}

/// Ten to the power of `exponent`.
spec fn power_of_ten(exponent: nat) -> nat
    decreases exponent,
{
    if exponent == 0 {
        1
    } else {
        10 * power_of_ten((exponent - 1) as nat)
    }
}

proof fn lemma_decimal_len_below(number: nat, digits: nat)
    requires
        number < power_of_ten(digits),
        digits > 0,
    ensures
        decimal(number).len() <= digits,
    decreases digits,
{
    if number >= 10 {
        if digits == 1 {
            reveal_with_fuel(power_of_ten, 2);
        } else {
            lemma_decimal_len_below(number / 10, (digits - 1) as nat);
        }
    }
}

/// A number of the machine takes at most twenty digits, all of them ASCII.
pub proof fn decimals_are_short(number: usize)
    ensures
        1 <= decimal(number as nat).len() <= 20,
        forall|i: int|
            0 <= i < decimal(number as nat).len() ==> '0' <= #[trigger] decimal(number as nat)[i]
                <= '9',
{
    lemma_read_decimal(number as nat);
    assert(power_of_ten(20) == 100_000_000_000_000_000_000) by {
        reveal_with_fuel(power_of_ten, 21);
    }
    lemma_decimal_len_below(number as nat, 20);
}

/// The id of a turn has a `T` and then three to twenty digits.
pub proof fn turn_ids_are_short(number: usize)
    ensures
        4 <= turn_id_text(number as nat).len() <= 21,
        turn_id_text(number as nat)[0] == 'T',
        forall|i: int|
            1 <= i < turn_id_text(number as nat).len() ==> '0' <= #[trigger] turn_id_text(
                number as nat,
            )[i] <= '9',
{
    decimals_are_short(number);
    let digits = decimal(number as nat);
    assert(turn_id_text(number as nat) == seq!['T'] + zero_padded(digits, 3));
}

/// The digits of a number have its value, and none of them is a zero in front.
pub proof fn decimals_have_their_value(number: nat)
    ensures
        decimal(number).len() > 0,
        forall|i: int| 0 <= i < decimal(number).len() ==> '0' <= #[trigger] decimal(number)[i] <= '9',
        decimal(number).fold_left(0, |value: int, c: char| value * 10 + (c as int - '0' as int))
            == number,
        number > 0 ==> decimal(number)[0] != '0',
        number == 0 ==> decimal(number).len() == 1,
    decreases number,
{
    let step = |value: int, c: char| value * 10 + (c as int - '0' as int);
    if number < 10 {
        assert(decimal(number).drop_last() =~= Seq::<char>::empty());
        reveal_with_fuel(Seq::fold_left, 2);
    } else {
        decimals_have_their_value(number / 10);
        let init = decimal(number / 10);
        assert(decimal(number).drop_last() =~= init);
        assert(decimal(number)[0] == init[0]);
        assert forall|i: int| 0 <= i < decimal(number).len() implies '0' <= #[trigger] decimal(
            number,
        )[i] <= '9' by {
            if i < init.len() {
                assert(decimal(number)[i] == init[i]);
            }
        }
    }
}

proof fn lemma_zeros_have_no_value(digits: Seq<char>, zeros: nat)
    ensures
        (Seq::new(zeros, |i: int| '0') + digits).fold_left(
            0,
            |value: int, c: char| value * 10 + (c as int - '0' as int),
        ) == digits.fold_left(0, |value: int, c: char| value * 10 + (c as int - '0' as int)),
    decreases digits.len() + zeros,
{
    let padded = Seq::new(zeros, |i: int| '0') + digits;
    if digits.len() > 0 {
        assert(padded.drop_last() =~= Seq::new(zeros, |i: int| '0') + digits.drop_last());
        lemma_zeros_have_no_value(digits.drop_last(), zeros);
    } else if zeros > 0 {
        let fewer = (zeros - 1) as nat;
        assert(padded.drop_last() =~= Seq::new(fewer, |i: int| '0') + digits);
        lemma_zeros_have_no_value(digits, fewer);
    } else {
        assert(padded =~= digits);
    }
}

/// The id of a turn is a `T` and the digits of its number: three digits, with zeros in
/// front where there are fewer, and more without such zeros.
pub proof fn turn_ids_show_the_number(number: nat)
    ensures
        turn_id_text(number).len() >= 4,
        turn_id_text(number)[0] == 'T',
        forall|i: int|
            1 <= i < turn_id_text(number).len() ==> '0' <= #[trigger] turn_id_text(number)[i] <= '9',
        turn_id_text(number).skip(1).fold_left(
            0,
            |value: int, c: char| value * 10 + (c as int - '0' as int),
        ) == number,
        turn_id_text(number).len() > 4 ==> turn_id_text(number)[1] != '0',
{
    let digits = decimal(number);
    decimals_have_their_value(number);
    assert(turn_id_text(number).skip(1) =~= zero_padded(digits, 3));
    if digits.len() < 3 {
        lemma_zeros_have_no_value(digits, (3 - digits.len()) as nat);
    } else {
        assert(turn_id_text(number)[1] == digits[0]);
    }
}

/// Whether the first `len` characters of `text` are digits.
spec fn digits_to(text: Seq<char>, len: int) -> bool {
    forall|i: int| 0 <= i < len ==> '0' <= #[trigger] text[i] <= '9'
}

/// The value to which the first `len` characters of `text` carry `value`.
spec fn value_to(text: Seq<char>, value: int, len: int) -> int {
    text.take(len).fold_left_alt(value, |v: int, c: char| v * 10 + (c as int - '0' as int))
}

proof fn lemma_value_step(text: Seq<char>, value: int, len: int)
    requires
        0 < len <= text.len(),
    ensures
        value_to(text, value, len) == value_to(
            text.drop_first(),
            value * 10 + (text[0] as int - '0' as int),
            len - 1,
        ),
{
    assert(text.take(len).subrange(1, len) =~= text.drop_first().take(len - 1));
}

proof fn lemma_read_digits(text: Seq<char>, value: int)
    requires
        0 <= value <= usize::MAX,
    ensures
        match read_digits(text, value) {
            Ok(number) => digits_to(text, text.len() as int) && value_to(
                text,
                value,
                text.len() as int,
            ) == number,
            Err(NumberError::InvalidDigit) => exists|k: int|
                0 <= k < text.len() && !('0' <= text[k] <= '9') && digits_to(text, k)
                    && #[trigger] value_to(text, value, k) <= usize::MAX,
            Err(NumberError::TooLarge) => exists|k: int|
                0 < k <= text.len() && digits_to(text, k) && #[trigger] value_to(text, value, k)
                    > usize::MAX,
            Err(NumberError::Empty) => false,
        },
    decreases text.len(),
{
    assert(value_to(text, value, 0) == value);
    if text.len() == 0 {
        assert(text.take(0) =~= text);
    } else if let Some(d) = digit_value(text[0]) {
        let rest = text.drop_first();
        let next = value * 10 + d;
        if next > usize::MAX {
            lemma_value_step(text, value, 1);
            assert(value_to(rest, next, 0) == next);
            assert(value_to(text, value, 1) > usize::MAX);
        } else {
            lemma_read_digits(rest, next);
            assert forall|k: int| 0 <= k <= rest.len() && #[trigger] digits_to(rest, k) implies digits_to(
                text,
                k + 1,
            ) by {
                assert forall|i: int| 0 <= i < k + 1 implies '0' <= #[trigger] text[i] <= '9' by {
                    if i > 0 {
                        assert('0' <= rest[i - 1] <= '9');
                    }
                }
            }
            match read_digits(rest, next) {
                Ok(_) => {
                    lemma_value_step(text, value, text.len() as int);
                },
                Err(NumberError::InvalidDigit) => {
                    let k = choose|k: int|
                        0 <= k < rest.len() && !('0' <= rest[k] <= '9') && digits_to(rest, k)
                            && #[trigger] value_to(rest, next, k) <= usize::MAX;
                    lemma_value_step(text, value, k + 1);
                    assert(text[k + 1] == rest[k]);
                    assert(value_to(text, value, k + 1) <= usize::MAX);
                },
                Err(_) => {
                    let k = choose|k: int|
                        0 < k <= rest.len() && digits_to(rest, k) && #[trigger] value_to(
                            rest,
                            next,
                            k,
                        ) > usize::MAX;
                    lemma_value_step(text, value, k + 1);
                    assert(value_to(text, value, k + 1) > usize::MAX);
                },
            }
        }
    }
}

proof fn lemma_read_behind(text: Seq<char>, from: int)
    requires
        0 <= from < text.len(),
    ensures
        match read_digits(text.skip(from), 0) {
            Ok(number) => {
                &&& forall|i: int| from <= i < text.len() ==> '0' <= #[trigger] text[i] <= '9'
                &&& text.skip(from).fold_left(
                    0,
                    |value: int, c: char| value * 10 + (c as int - '0' as int),
                ) == number
            },
            Err(NumberError::Empty) => false,
            Err(NumberError::InvalidDigit) => exists|k: int|
                from <= k < text.len() && !('0' <= #[trigger] text[k] <= '9') && (forall|i: int|
                    from <= i < k ==> '0' <= #[trigger] text[i] <= '9')
                    && text.subrange(from, k).fold_left(
                    0,
                    |value: int, c: char| value * 10 + (c as int - '0' as int),
                ) <= usize::MAX,
            Err(NumberError::TooLarge) => exists|k: int|
                from < k <= text.len() && (forall|i: int|
                    from <= i < k ==> '0' <= #[trigger] text[i] <= '9')
                    && (#[trigger] text.subrange(from, k)).fold_left(
                    0,
                    |value: int, c: char| value * 10 + (c as int - '0' as int),
                ) > usize::MAX,
        },
{
    let step = |value: int, c: char| value * 10 + (c as int - '0' as int);
    let digits = text.skip(from);
    lemma_read_digits(digits, 0);
    match read_digits(digits, 0) {
        Ok(_) => {
            assert(digits.take(digits.len() as int) =~= digits);
            digits.lemma_fold_left_alt(0, step);
            lemma_digits_behind(text, from, digits.len() as int);
        },
        Err(NumberError::InvalidDigit) => {
            let k = choose|k: int|
                0 <= k < digits.len() && !('0' <= digits[k] <= '9') && digits_to(digits, k)
                    && #[trigger] value_to(digits, 0, k) <= usize::MAX;
            assert(text.subrange(from, from + k) =~= digits.take(k));
            digits.take(k).lemma_fold_left_alt(0, step);
            lemma_digits_behind(text, from, k);
            assert(!('0' <= text[from + k] <= '9'));
        },
        Err(_) => {
            let k = choose|k: int|
                0 < k <= digits.len() && digits_to(digits, k) && #[trigger] value_to(digits, 0, k)
                    > usize::MAX;
            assert(text.subrange(from, from + k) =~= digits.take(k));
            digits.take(k).lemma_fold_left_alt(0, step);
            lemma_digits_behind(text, from, k);
        },
    }
}

proof fn lemma_digits_behind(text: Seq<char>, from: int, len: int)
    requires
        0 <= from,
        0 <= len,
        from + len <= text.len(),
        digits_to(text.skip(from), len),
    ensures
        forall|i: int| from <= i < from + len ==> '0' <= #[trigger] text[i] <= '9',
{
    assert forall|i: int| from <= i < from + len implies '0' <= #[trigger] text[i] <= '9' by {
        assert('0' <= text.skip(from)[i - from] <= '9');
    }
}

/// An id is accepted if and only if it is a `T`, a `+` that may be missing, and digits
/// whose value is positive and a number of the machine. It names the turn of that
/// value. Otherwise the first thing that is wrong from the left is reported.
pub proof fn ids_are_read_by_their_digits(text: Seq<char>, from: int)
    requires
        from == if text.len() > 1 && text[1] == '+' {
            2int
        } else {
            1
        },
    ensures
        match read_turn_id(text) {
            Ok(number) => {
                &&& text.len() > from
                &&& text[0] == 'T'
                &&& forall|i: int| from <= i < text.len() ==> '0' <= #[trigger] text[i] <= '9'
                &&& text.skip(from).fold_left(
                    0,
                    |value: int, c: char| value * 10 + (c as int - '0' as int),
                ) == number
                &&& number > 0
            },
            Err(TurnIdError::MissingPrefix) => text.len() == 0 || text[0] != 'T',
            Err(TurnIdError::NotPositive) => {
                &&& text.len() > from
                &&& text[0] == 'T'
                &&& forall|i: int| from <= i < text.len() ==> #[trigger] text[i] == '0'
            },
            Err(TurnIdError::Number(NumberError::Empty)) => text == seq!['T'],
            Err(TurnIdError::Number(NumberError::InvalidDigit)) => {
                &&& text[0] == 'T'
                &&& text == seq!['T', '+'] || exists|k: int|
                    from <= k < text.len() && !('0' <= #[trigger] text[k] <= '9') && (forall|i: int|
                        from <= i < k ==> '0' <= #[trigger] text[i] <= '9')
                        && text.subrange(from, k).fold_left(
                        0,
                        |value: int, c: char| value * 10 + (c as int - '0' as int),
                    ) <= usize::MAX
            },
            Err(TurnIdError::Number(NumberError::TooLarge)) => {
                &&& text[0] == 'T'
                &&& exists|k: int|
                    from < k <= text.len() && (forall|i: int|
                        from <= i < k ==> '0' <= #[trigger] text[i] <= '9')
                        && (#[trigger] text.subrange(from, k)).fold_left(
                        0,
                        |value: int, c: char| value * 10 + (c as int - '0' as int),
                    ) > usize::MAX
            },
        },
{
    if text.len() == 1 && text[0] == 'T' {
        assert(text =~= seq!['T']);
    } else if text.len() == 2 && text[0] == 'T' && text[1] == '+' {
        assert(text =~= seq!['T', '+']);
        assert(text.drop_first()[0] == '+');
    } else if text.len() > 1 && text[0] == 'T' {
        let body = text.drop_first();
        assert(body[0] == text[1]);
        if text[1] == '+' {
            assert(body.drop_first() =~= text.skip(2));
        } else {
            assert(body =~= text.skip(1));
        }
        assert(read_number(body) == read_digits(text.skip(from), 0));
        lemma_read_behind(text, from);
        if read_turn_id(text) == Err::<usize, TurnIdError>(TurnIdError::NotPositive) {
            lemma_no_value_is_zeros(text.skip(from));
            assert forall|i: int| from <= i < text.len() implies #[trigger] text[i] == '0' by {
                assert(text.skip(from)[i - from] == '0');
            }
        }
    }
}

proof fn lemma_no_value_is_zeros(digits: Seq<char>)
    requires
        forall|i: int| 0 <= i < digits.len() ==> '0' <= #[trigger] digits[i] <= '9',
        digits.fold_left(0, |value: int, c: char| value * 10 + (c as int - '0' as int)) <= 0,
    ensures
        forall|i: int| 0 <= i < digits.len() ==> #[trigger] digits[i] == '0',
        digits.fold_left(0, |value: int, c: char| value * 10 + (c as int - '0' as int)) == 0,
    decreases digits.len(),
{
    if digits.len() > 0 {
        let init = digits.drop_last();
        let step = |value: int, c: char| value * 10 + (c as int - '0' as int);
        lemma_value_is_natural(init);
        assert('0' <= digits[digits.len() - 1] <= '9');
        lemma_no_value_is_zeros(init);
        assert forall|i: int| 0 <= i < digits.len() implies #[trigger] digits[i] == '0' by {
            if i < init.len() {
                assert(init[i] == '0');
            }
        }
    }
}

proof fn lemma_value_is_natural(digits: Seq<char>)
    requires
        forall|i: int| 0 <= i < digits.len() ==> '0' <= #[trigger] digits[i] <= '9',
    ensures
        digits.fold_left(0, |value: int, c: char| value * 10 + (c as int - '0' as int)) >= 0,
    decreases digits.len(),
{
    if digits.len() > 0 {
        lemma_value_is_natural(digits.drop_last());
        assert('0' <= digits[digits.len() - 1] <= '9');
    }
}

} // verus!
