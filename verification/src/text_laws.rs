//! What texts spell: numbers, sizes, and names made of them.
use vstd::prelude::*;

use crate::cache::object_file_name;
use crate::commands::{size_unit, size_value};
use crate::digest::hex_digit;
use crate::telegram::upload_name;
use crate::text::{
    all_digits, decimal, digits_value, fixed_hex, has_part, is_digit, is_space,
    lemma_fixed_hex_len, signed_value, trimmed, trimmed_end, trimmed_start, unsigned_value,
};

verus! {

/// The value of a decimal digit.
pub open spec fn digit_of(c: char) -> int {
    c as int - 48
}

/// A character that is one of the ten digits, which have the codes 48 to 57.
pub open spec fn is_number_char(c: char) -> bool {
    48 <= c as int <= 57
}

/// The text is a run of at least one digit.
pub open spec fn is_number(text: Seq<char>) -> bool {
    text.len() > 0 && forall|i: int| 0 <= i < text.len() ==> is_number_char(#[trigger] text[i])
}

/// A run of digits spells a number place by place: one more digit behind it makes ten times the
/// number and the digit. A sign in front changes the sign alone; and no other text spells a
/// number.
pub proof fn law_numbers_are_read_by_place(text: Seq<char>, c: char)
    ensures
        is_number_char(c) ==> unsigned_value(seq![c]) == Some(digit_of(c) as nat),
        is_number(text) && is_number_char(c) ==> unsigned_value(text) is Some && unsigned_value(
            text.push(c),
        ) == Some((unsigned_value(text)->0 * 10 + digit_of(c)) as nat),
        is_number(text) ==> {
            let n = unsigned_value(text)->0;
            &&& unsigned_value(seq!['+'] + text) == Some(n)
            &&& signed_value(text) == Some(n as int)
            &&& signed_value(seq!['+'] + text) == Some(n as int)
            &&& signed_value(seq!['-'] + text) == Some(-(n as int))
            &&& unsigned_value(seq!['-'] + text) is None
        },
        unsigned_value(text) is Some ==> is_number(text) || (text[0] == '+' && is_number(
            text.skip(1),
        )),
        signed_value(text) is Some ==> is_number(text) || ((text[0] == '+' || text[0] == '-')
            && is_number(text.skip(1))),
{
    let plus = seq!['+'] + text;
    let minus = seq!['-'] + text;
    assert(plus.skip(1) =~= text);
    assert(minus.skip(1) =~= text);
    assert(text.push(c).drop_last() =~= text);
    assert(seq![c].drop_last() =~= Seq::<char>::empty());
    assert(seq![c].last() == c);
    assert(digits_value(Seq::<char>::empty()) == 0);
    if is_number(text) {
        assert(is_number_char(text[0]));
        assert(all_digits(text));
        if is_number_char(c) {
            let longer = text.push(c);
            assert(longer[0] == text[0]);
            assert forall|i: int| 0 <= i < longer.len() implies is_digit(#[trigger] longer[i]) by {
                if i < text.len() {
                    assert(is_number_char(text[i]));
                }
            }
        }
        assert(minus[0] == '-');
        assert(!is_digit(minus[0]));
    }
    if unsigned_value(text) is Some {
        let body = if text[0] == '+' {
            text.skip(1)
        } else {
            text
        };
        assert forall|i: int| 0 <= i < body.len() implies is_number_char(#[trigger] body[i]) by {
            assert(is_digit(body[i]));
        }
    }
    if text.len() > 0 && text[0] == '-' && signed_value(text) is Some {
        let body = text.skip(1);
        assert forall|i: int| 0 <= i < body.len() implies is_number_char(#[trigger] body[i]) by {
            assert(is_digit(body[i]));
        }
    }
}

/// What is written as a decimal number is read back as that number, and is written without
/// leading zeros.
pub proof fn law_decimal_is_read_back(value: nat)
    ensures
        is_number(decimal(value)),
        unsigned_value(decimal(value)) == Some(value),
        value > 0 ==> decimal(value)[0] != '0',
    decreases value,
{
    if value < 10 {
        let c = hex_digit(value as int);
        law_numbers_are_read_by_place(decimal(value), c);
        assert(is_number_char(c) && digit_of(c) == value);
        assert(decimal(value) =~= seq![c]);
    } else {
        let head = decimal(value / 10);
        let c = hex_digit((value % 10) as int);
        law_decimal_is_read_back(value / 10);
        law_numbers_are_read_by_place(head, c);
        assert(is_number_char(c) && digit_of(c) == value % 10);
        let text = decimal(value);
        assert(text[0] == head[0]);
        assert forall|i: int| 0 <= i < text.len() implies is_number_char(#[trigger] text[i]) by {
            if i < head.len() {
                assert(text[i] == head[i]);
            }
        }
    }
}

/// The value of a hexadecimal digit in lower case.
pub open spec fn hex_value(c: char) -> int {
    if 48 <= c as int <= 57 {
        c as int - 48
    } else if 97 <= c as int <= 102 {
        c as int - 87
    } else {
        -1
    }
}

/// Powers of sixteen.
pub open spec fn sixteen_to(power: nat) -> nat
    decreases power,
{
    if power == 0 {
        1
    } else {
        16 * sixteen_to((power - 1) as nat)
    }
}

/// The digits of a number in fixed-width hexadecimal: counted from the end, the one at `place`
/// is the digit of that power of sixteen, in lower case.
pub proof fn law_hex_digits_stand_by_place(value: nat, width: nat, place: nat)
    requires
        place < width,
    ensures
        fixed_hex(value, width).len() == width,
        hex_value(fixed_hex(value, width)[width - 1 - place]) == (value / sixteen_to(place)) % 16,
    decreases width,
{
    lemma_fixed_hex_len(value, width);
    let head = fixed_hex(value / 16, (width - 1) as nat);
    lemma_fixed_hex_len(value / 16, (width - 1) as nat);
    if place > 0 {
        let rest = (place - 1) as nat;
        law_hex_digits_stand_by_place(value / 16, (width - 1) as nat, rest);
        lemma_sixteen_positive(rest);
        assert(value / sixteen_to(place) == (value / 16) / sixteen_to(rest)) by {
            vstd::arithmetic::div_mod::lemma_div_denominator(
                value as int,
                16,
                sixteen_to(rest) as int,
            );
        }
        assert(fixed_hex(value, width)[width - 1 - place] == head[width - 1 - place]);
    } else {
        assert(sixteen_to(0) == 1);
        assert(value / sixteen_to(0) == value) by {
            vstd::arithmetic::div_mod::lemma_div_basics(value as int);
        }
    }
}

proof fn lemma_sixteen_positive(power: nat)
    ensures
        sixteen_to(power) > 0,
    decreases power,
{
    if power > 0 {
        lemma_sixteen_positive((power - 1) as nat);
    }
}

/// An object's file is named by its number and its generation, sixteen hexadecimal digits each,
/// and an upload by the same behind a mark.
pub proof fn law_names_spell_number_and_generation(object_id: u64, generation: u64, place: nat)
    requires
        place < 16,
    ensures
        ({
            let name = object_file_name(object_id, generation);
            &&& name.len() == 37
            &&& hex_value(name[15 - place]) == (object_id as nat / sixteen_to(place)) % 16
            &&& name[16] == '-'
            &&& hex_value(name[32 - place]) == (generation as nat / sixteen_to(place)) % 16
            &&& name.skip(33) == ".bin"@
            &&& upload_name(object_id, generation) == "tgdrive-"@ + name
        }),
{
    reveal_strlit("-");
    reveal_strlit(".bin");
    law_hex_digits_stand_by_place(object_id as nat, 16, place);
    law_hex_digits_stand_by_place(generation as nat, 16, place);
    let name = object_file_name(object_id, generation);
    let (a, b) = (fixed_hex(object_id as nat, 16), fixed_hex(generation as nat, 16));
    assert(name[15 - place] == a[15 - place]);
    assert(name[32 - place] == b[15 - place]);
    assert(name.skip(33) =~= ".bin"@);
}

/// Every character is white space.
pub open spec fn is_blank(text: Seq<char>) -> bool {
    forall|i: int| 0 <= i < text.len() ==> is_space(#[trigger] text[i])
}

/// A text that neither begins nor ends with white space.
pub open spec fn is_bare(text: Seq<char>) -> bool {
    text.len() > 0 ==> !is_space(text[0]) && !is_space(text.last())
}

/// White space around a text does not count, and nothing else is left out: a blank text, one
/// that has no white space at its ends, and a blank text are trimmed to the one in the middle.
/// White space is what Unicode says it is.
pub proof fn law_white_space_around_is_left_out(
    before: Seq<char>,
    text: Seq<char>,
    after: Seq<char>,
    c: char,
)
    requires
        is_blank(before),
        is_blank(after),
        is_bare(text),
    ensures
        trimmed(before + text + after) == text,
        is_space(c) <==> (c as int == 32 || 9 <= c as int <= 13 || c as int == 133 || c as int
            == 160 || c as int == 5760 || 8192 <= c as int <= 8202 || 8232 <= c as int <= 8233
            || c as int == 8239 || c as int == 8287 || c as int == 12288),
{
    lemma_trimmed_start(before, text + after);
    assert(before + text + after =~= before + (text + after));
    if text.len() > 0 {
        assert((text + after)[0] == text[0]);
        lemma_trimmed_end(text, after);
    } else {
        assert(text + after =~= after);
        lemma_blank(after);
        assert(text =~= Seq::<char>::empty());
    }
}

proof fn lemma_blank(text: Seq<char>)
    requires
        is_blank(text),
    ensures
        trimmed_start(text) == Seq::<char>::empty(),
    decreases text.len(),
{
    if text.len() > 0 {
        assert(is_space(text[0]));
        assert forall|i: int| 0 <= i < text.skip(1).len() implies is_space(
            #[trigger] text.skip(1)[i],
        ) by {
            assert(is_space(text[i + 1]));
        }
        lemma_blank(text.skip(1));
    } else {
        assert(text =~= Seq::<char>::empty());
    }
}

proof fn lemma_trimmed_start(before: Seq<char>, text: Seq<char>)
    requires
        is_blank(before),
    ensures
        trimmed_start(before + text) == trimmed_start(text),
    decreases before.len(),
{
    if before.len() > 0 {
        assert(is_space(before[0]));
        assert((before + text).skip(1) =~= before.skip(1) + text);
        assert forall|i: int| 0 <= i < before.skip(1).len() implies is_space(
            #[trigger] before.skip(1)[i],
        ) by {
            assert(is_space(before[i + 1]));
        }
        lemma_trimmed_start(before.skip(1), text);
    } else {
        assert(before + text =~= text);
    }
}

proof fn lemma_trimmed_end(text: Seq<char>, after: Seq<char>)
    requires
        is_blank(after),
        text.len() > 0,
        !is_space(text.last()),
    ensures
        trimmed_end(text + after) == text,
    decreases after.len(),
{
    if after.len() > 0 {
        let n = after.len() - 1;
        assert(is_space(after[n]));
        assert((text + after).last() == after[n]);
        assert((text + after).drop_last() =~= text + after.drop_last());
        assert forall|i: int| 0 <= i < after.drop_last().len() implies is_space(
            #[trigger] after.drop_last()[i],
        ) by {
            assert(is_space(after[i]));
        }
        lemma_trimmed_end(text, after.drop_last());
    } else {
        assert(text + after =~= text);
    }
}

/// How many bytes a unit of sizes has.
pub open spec fn unit_bytes(unit: Seq<char>) -> Option<nat> {
    if unit.len() == 0 {
        Some(1)
    } else if unit == seq!['K'] {
        Some(1000)
    } else if unit == seq!['M'] {
        Some(1_000_000)
    } else if unit == seq!['G'] {
        Some(1_000_000_000)
    } else if unit == seq!['K', 'i', 'B'] {
        Some(1024)
    } else if unit == seq!['M', 'i', 'B'] {
        Some(1024 * 1024)
    } else if unit == seq!['G', 'i', 'B'] {
        Some(1024 * 1024 * 1024)
    } else {
        None
    }
}

/// A number and a unit spell the size of so many units, with white space between and around
/// them or without; a number alone spells bytes.
pub proof fn law_size_is_a_number_of_units(
    before: Seq<char>,
    digits: Seq<char>,
    between: Seq<char>,
    unit: Seq<char>,
    after: Seq<char>,
)
    requires
        is_blank(before),
        is_blank(between),
        is_blank(after),
        is_number(digits),
        unit_bytes(unit) is Some,
        unit.len() == 0 ==> between.len() == 0,
        unsigned_value(digits)->0 <= u64::MAX,
    ensures
        size_value(before + (digits + between + unit) + after) == Some(
            unsigned_value(digits)->0 * unit_bytes(unit)->0,
        ),
{
    reveal_strlit("MiB");
    reveal_strlit("GiB");
    reveal_strlit("KiB");
    reveal_strlit("M");
    reveal_strlit("G");
    reveal_strlit("K");
    let body = digits + between + unit;
    law_numbers_are_read_by_place(digits, '0');
    assert(is_number_char(digits[0]));
    assert(is_number_char(digits[digits.len() - 1]));
    assert(body[0] == digits[0]);
    if unit.len() == 0 {
        assert(body =~= digits);
    } else {
        assert(body.last() == unit.last());
    }
    law_white_space_around_is_left_out(before, body, after, '0');
    assert(trimmed(before + body + after) == body);
    let none = Seq::<char>::empty();
    assert(digits + between =~= none + digits + between);
    assert(is_blank(none));
    law_white_space_around_is_left_out(none, digits, between, '0');
    assert("MiB"@ =~= seq!['M', 'i', 'B']);
    assert("GiB"@ =~= seq!['G', 'i', 'B']);
    assert("KiB"@ =~= seq!['K', 'i', 'B']);
    assert("M"@ =~= seq!['M']);
    assert("G"@ =~= seq!['G']);
    assert("K"@ =~= seq!['K']);
    assert forall|part: Seq<char>| part.len() > 0 && #[trigger] part.is_suffix_of(body) implies part.last()
        == body.last() by {
        assert(part.last() == body.skip(body.len() - part.len()).last());
    }
    assert forall|part: Seq<char>|
        part.len() == 3 && unit.len() == 3 && #[trigger] part.is_suffix_of(body) implies part
        == unit by {
        assert(body.skip(body.len() - 3) =~= unit);
        assert(part =~= unit);
    }
    if unit.len() > 0 {
        assert(body.skip(body.len() - unit.len()) =~= unit);
        assert(unit.is_suffix_of(body));
    }
    assert(size_unit(body).0 == unit);
    assert(body.take(body.len() - unit.len()) =~= digits + between);
}

/// A text holds every part of it, wherever it stands.
pub proof fn law_part_is_found_anywhere(before: Seq<char>, part: Seq<char>, after: Seq<char>)
    ensures
        has_part(before + part + after, part),
{
    let text = before + part + after;
    let at = before.len() as int;
    assert(text.subrange(at, at + part.len()) =~= part);
}

} // verus!
