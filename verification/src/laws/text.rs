//! What holds of the text functions, told by positions and characters.
use crate::text::{
    all_digits, ascii_lower, begins_with, digits_end, digits_value, fields, is_digit,
    is_white_space, position, same_ignoring_case, trim_end, trim_start, trimmed,
};
use vstd::prelude::*;

verus! {

/// Text of nothing but white space.
pub open spec fn is_blank(s: Seq<char>) -> bool {
    forall|i: int| 0 <= i < s.len() ==> is_white_space(#[trigger] s[i])
}

/// The fields of two texts with a separator between them are those of the first
/// and then those of the second.
pub proof fn law_fields_join(a: Seq<char>, b: Seq<char>, separator: char)
    ensures
        fields(a + seq![separator] + b, separator) == fields(a, separator) + fields(b, separator),
    decreases b.len(),
{
    let whole = a + seq![separator] + b;
    lemma_some_field(a, separator);
    if b.len() == 0 {
        assert(whole.drop_last() =~= a);
        assert(fields(whole, separator) =~= fields(a, separator) + fields(b, separator));
    } else {
        assert(whole.drop_last() =~= a + seq![separator] + b.drop_last());
        law_fields_join(a, b.drop_last(), separator);
        lemma_some_field(b.drop_last(), separator);
        assert(fields(whole, separator) =~= fields(a, separator) + fields(b, separator));
    }
}

proof fn lemma_some_field(s: Seq<char>, separator: char)
    ensures
        fields(s, separator).len() > 0,
    decreases s.len(),
{
    if s.len() > 0 {
        lemma_some_field(s.drop_last(), separator);
    }
}

/// Text without the separator is its own only field.
pub proof fn law_one_field(s: Seq<char>, separator: char)
    requires
        !s.contains(separator),
    ensures
        fields(s, separator) == seq![s],
    decreases s.len(),
{
    if s.len() == 0 {
        assert(s =~= Seq::empty());
    } else {
        let shorter = s.drop_last();
        assert forall|i: int| 0 <= i < shorter.len() implies shorter[i] != separator by {
            assert(shorter[i] == s[i]);
        }
        law_one_field(shorter, separator);
        assert(s[s.len() - 1] == s.last());
        assert(shorter.push(s.last()) =~= s);
        assert(fields(s, separator) =~= seq![s]);
    }
}

pub(crate) proof fn lemma_absent(s: Seq<char>, c: char, from: int)
    requires
        0 <= from <= s.len(),
        !s.contains(c),
    ensures
        position(s, c, from) == s.len(),
    decreases s.len() - from,
{
    if from < s.len() {
        assert(s.contains(s[from]));
        lemma_absent(s, c, from + 1);
    }
}

pub(crate) proof fn lemma_blank_start(blank: Seq<char>, s: Seq<char>)
    requires
        is_blank(blank),
    ensures
        trim_start(blank + s) == trim_start(s),
    decreases blank.len(),
{
    if blank.len() == 0 {
        assert(blank + s =~= s);
    } else {
        let rest = blank.skip(1);
        assert forall|i: int| 0 <= i < rest.len() implies is_white_space(#[trigger] rest[i]) by {
            assert(rest[i] == blank[i + 1]);
        }
        assert((blank + s)[0] == blank[0]);
        assert((blank + s).skip(1) =~= rest + s);
        lemma_blank_start(rest, s);
    }
}

pub(crate) proof fn lemma_blank_end(s: Seq<char>, blank: Seq<char>)
    requires
        is_blank(blank),
    ensures
        trim_end(s + blank) == trim_end(s),
    decreases blank.len(),
{
    if blank.len() == 0 {
        assert(s + blank =~= s);
    } else {
        let rest = blank.drop_last();
        assert forall|i: int| 0 <= i < rest.len() implies is_white_space(#[trigger] rest[i]) by {
            assert(rest[i] == blank[i]);
        }
        assert((s + blank).last() == blank[blank.len() - 1]);
        assert((s + blank).drop_last() =~= s + rest);
        lemma_blank_end(s, rest);
    }
}

pub(crate) proof fn lemma_start_before_blank(s: Seq<char>, blank: Seq<char>)
    requires
        is_blank(blank),
    ensures
        trim_start(s + blank) == trim_start(s) + blank || (trim_start(s).len() == 0 && trim_start(
            s + blank,
        ).len() == 0),
    decreases s.len(),
{
    if s.len() == 0 {
        assert(s + blank =~= blank + s);
        lemma_blank_start(blank, s);
    } else if is_white_space(s[0]) {
        assert((s + blank).skip(1) =~= s.skip(1) + blank);
        lemma_start_before_blank(s.skip(1), blank);
    }
}

/// Trimming takes away nothing but white space at the ends, and leaves none
/// there.
pub proof fn law_trimming(s: Seq<char>) -> (ends: (int, int))
    ensures
        0 <= ends.0 <= ends.1 <= s.len(),
        trimmed(s) == s.subrange(ends.0, ends.1),
        is_blank(s.take(ends.0)),
        is_blank(s.skip(ends.1)),
        trimmed(s).len() > 0 ==> !is_white_space(trimmed(s)[0]) && !is_white_space(
            trimmed(s).last(),
        ),
{
    let start = lemma_trim_start(s);
    let front = trim_start(s);
    let length = lemma_trim_end(front);
    let end = start + length;
    assert(front.take(length) =~= s.subrange(start, end));
    assert forall|i: int| 0 <= i < s.skip(end).len() implies is_white_space(
        #[trigger] s.skip(end)[i],
    ) by {
        assert(s.skip(end)[i] == front.skip(length)[i]);
    }
    if trimmed(s).len() > 0 {
        assert(trimmed(s)[0] == front[0]);
    }
    (start, end)
}

proof fn lemma_trim_start(s: Seq<char>) -> (start: int)
    ensures
        0 <= start <= s.len(),
        trim_start(s) == s.skip(start),
        is_blank(s.take(start)),
        trim_start(s).len() > 0 ==> !is_white_space(trim_start(s)[0]),
    decreases s.len(),
{
    if s.len() > 0 && is_white_space(s[0]) {
        let start = lemma_trim_start(s.skip(1));
        assert(s.skip(1).skip(start) =~= s.skip(start + 1));
        assert forall|i: int| 0 <= i < s.take(start + 1).len() implies is_white_space(
            #[trigger] s.take(start + 1)[i],
        ) by {
            if i > 0 {
                assert(s.take(start + 1)[i] == s.skip(1).take(start)[i - 1]);
            }
        }
        start + 1
    } else {
        assert(s.skip(0) =~= s);
        0
    }
}

proof fn lemma_trim_end(s: Seq<char>) -> (end: int)
    ensures
        0 <= end <= s.len(),
        trim_end(s) == s.take(end),
        is_blank(s.skip(end)),
        trim_end(s).len() > 0 ==> !is_white_space(trim_end(s).last()),
    decreases s.len(),
{
    if s.len() > 0 && is_white_space(s.last()) {
        let end = lemma_trim_end(s.drop_last());
        assert(s.drop_last().take(end) =~= s.take(end));
        assert forall|i: int| 0 <= i < s.skip(end).len() implies is_white_space(
            #[trigger] s.skip(end)[i],
        ) by {
            if i < s.len() - end - 1 {
                assert(s.skip(end)[i] == s.drop_last().skip(end)[i]);
            } else {
                assert(s.skip(end)[i] == s.last());
            }
        }
        end
    } else {
        assert(s.take(s.len() as int) =~= s);
        s.len() as int
    }
}

/// Text between two stretches of white space is what trimming leaves, where it
/// neither begins nor ends with white space.
pub proof fn law_trimming_finds(before: Seq<char>, core: Seq<char>, behind: Seq<char>)
    requires
        is_blank(before),
        is_blank(behind),
        core.len() > 0 ==> !is_white_space(core[0]) && !is_white_space(core.last()),
    ensures
        trimmed(before + core + behind) == core,
{
    assert(before + core + behind =~= before + (core + behind));
    lemma_blank_start(before, core + behind);
    lemma_start_before_blank(core, behind);
    assert(trim_start(core) == core);
    lemma_blank_end(core, behind);
    assert(trim_end(core) == core);
}

/// The text from `a` to `b` stands between two separators, or between one and
/// an end of the text, and holds none.
pub open spec fn is_entry(s: Seq<char>, separator: char, a: int, b: int) -> bool {
    &&& 0 <= a <= b <= s.len()
    &&& a == 0 || s[a - 1] == separator
    &&& b == s.len() || s[b] == separator
    &&& forall|i: int| a <= i < b ==> #[trigger] s[i] != separator
}

/// Every field is an entry.
pub proof fn law_fields_are_entries(s: Seq<char>, separator: char, k: int) -> (ends: (int, int))
    requires
        0 <= k < fields(s, separator).len(),
    ensures
        is_entry(s, separator, ends.0, ends.1),
        fields(s, separator)[k] == s.subrange(ends.0, ends.1),
    decreases s.len(),
{
    if s.contains(separator) {
        let p = lemma_last(s, separator);
        let left = s.take(p);
        let right = s.skip(p + 1);
        assert(left + seq![separator] + right =~= s);
        law_fields_join(left, right, separator);
        assert(!right.contains(separator)) by {
            assert forall|i: int| 0 <= i < right.len() implies right[i] != separator by {
                assert(right[i] == s[p + 1 + i]);
            }
        }
        law_one_field(right, separator);
        if k < fields(left, separator).len() {
            let ends = law_fields_are_entries(left, separator, k);
            assert(left.subrange(ends.0, ends.1) =~= s.subrange(ends.0, ends.1));
            assert forall|i: int| ends.0 <= i < ends.1 implies #[trigger] s[i] != separator by {
                assert(left[i] == s[i]);
            }
            ends
        } else {
            assert(s.subrange(p + 1, s.len() as int) =~= right);
            (p + 1, s.len() as int)
        }
    } else {
        law_one_field(s, separator);
        assert(s.subrange(0, s.len() as int) =~= s);
        assert forall|i: int| 0 <= i < s.len() implies #[trigger] s[i] != separator by {
            assert(s.contains(s[i]));
        }
        (0, s.len() as int)
    }
}

proof fn lemma_last(s: Seq<char>, c: char) -> (p: int)
    requires
        s.contains(c),
    ensures
        0 <= p < s.len(),
        s[p] == c,
        forall|i: int| p < i < s.len() ==> #[trigger] s[i] != c,
    decreases s.len(),
{
    if s.last() == c {
        s.len() - 1
    } else {
        let shorter = s.drop_last();
        let i = choose|i: int| 0 <= i < s.len() && s[i] == c;
        assert(shorter[i] == c);
        let p = lemma_last(shorter, c);
        assert forall|i: int| p < i < s.len() implies #[trigger] s[i] != c by {
            if i < shorter.len() {
                assert(shorter[i] == s[i]);
            }
        }
        p
    }
}

/// Every entry is a field.
pub proof fn law_entries_are_fields(s: Seq<char>, separator: char, a: int, b: int) -> (k: int)
    requires
        is_entry(s, separator, a, b),
    ensures
        0 <= k < fields(s, separator).len(),
        fields(s, separator)[k] == s.subrange(a, b),
{
    let entry = s.subrange(a, b);
    assert(!entry.contains(separator)) by {
        assert forall|i: int| 0 <= i < entry.len() implies entry[i] != separator by {
            assert(entry[i] == s[a + i]);
        }
    }
    law_one_field(entry, separator);
    let front = s.take(b);
    let k = if a == 0 {
        assert(front =~= entry);
        0
    } else {
        let left = s.take(a - 1);
        assert(left + seq![separator] + entry =~= front);
        law_fields_join(left, entry, separator);
        fields(left, separator).len() as int
    };
    assert(k < fields(front, separator).len() && fields(front, separator)[k] == entry);
    if b == s.len() {
        assert(front =~= s);
    } else {
        let right = s.skip(b + 1);
        assert(front + seq![separator] + right =~= s);
        law_fields_join(front, right, separator);
    }
    k
}

/// The position found is that of the first occurrence.
pub proof fn law_first_position(s: Seq<char>, c: char, from: int)
    requires
        0 <= from <= s.len(),
    ensures
        from <= position(s, c, from) <= s.len(),
        position(s, c, from) < s.len() ==> s[position(s, c, from)] == c,
        forall|i: int| from <= i < position(s, c, from) ==> #[trigger] s[i] != c,
    decreases s.len() - from,
{
    if from < s.len() && s[from] != c {
        law_first_position(s, c, from + 1);
    }
}

/// The digits write down the number in decimal, with or without zeros in
/// front.
pub open spec fn writes(digits: Seq<char>, number: nat) -> bool
    decreases digits.len(),
{
    &&& digits.len() > 0
    &&& digits.last() as u32 == '0' as u32 + number % 10
    &&& if digits.len() == 1 {
        number < 10
    } else {
        writes(digits.drop_last(), number / 10)
    }
}

proof fn lemma_digit(c: char)
    ensures
        is_digit(c) <==> '0' as u32 <= c as u32 <= '9' as u32,
{
}

/// The value of digits is the number that they write down.
pub proof fn law_decimal_digits(digits: Seq<char>, number: nat)
    ensures
        writes(digits, number) <==> digits.len() > 0 && all_digits(digits) && digits_value(digits)
            == number,
    decreases digits.len(),
{
    if digits.len() > 0 {
        let shorter = digits.drop_last();
        let last = digits.last();
        assert(digits[digits.len() - 1] == last);
        law_decimal_digits(shorter, number / 10);
        assert(all_digits(digits) <==> all_digits(shorter) && is_digit(last)) by {
            if all_digits(digits) {
                assert forall|i: int| 0 <= i < shorter.len() implies is_digit(
                    #[trigger] shorter[i],
                ) by {
                    assert(shorter[i] == digits[i]);
                }
            }
            if all_digits(shorter) && is_digit(last) {
                assert forall|i: int| 0 <= i < digits.len() implies is_digit(
                    #[trigger] digits[i],
                ) by {
                    if i < shorter.len() {
                        assert(shorter[i] == digits[i]);
                    }
                }
            }
        }
        let value = digits_value(shorter);
        let unit = last as u32 - '0' as u32;
        if digits.len() == 1 {
            assert(value == 0);
            assert(all_digits(shorter));
        }
        lemma_digit(last);
        if is_digit(last) {
            assert(digits_value(digits) == 10 * value + unit);
            assert((10 * value + unit) / 10 == value && (10 * value + unit) % 10 == unit);
        }
    }
}

/// Text begins with a prefix exactly if the prefix stands at its front.
pub proof fn law_prefix(text: Seq<char>, prefix: Seq<char>)
    ensures
        begins_with(text, prefix) <==> prefix.is_prefix_of(text),
{
    if prefix.len() <= text.len() {
        assert(text.take(prefix.len() as int) =~= text.subrange(0, prefix.len() as int));
    }
}

/// The text is the word, in capital or small letters.
pub open spec fn is_spelled(text: Seq<char>, word: Seq<char>) -> bool {
    &&& text.len() == word.len()
    &&& forall|i: int|
        0 <= i < word.len() ==> #[trigger] text[i] == word[i] || ('a' <= word[i] && word[i] <= 'z'
            && text[i] as u32 + 32 == word[i] as u32)
}

/// Only the capital letters of ASCII have another small letter, 32 places behind.
pub proof fn law_small_letters(c: char)
    ensures
        ascii_lower(c) as u32 == if 'A' as u32 <= c as u32 <= 'Z' as u32 {
            (c as u32 + 32) as u32
        } else {
            c as u32
        },
{
}

pub(crate) proof fn lemma_lower(c: char, w: char)
    requires
        !('A' <= w && w <= 'Z'),
    ensures
        ascii_lower(c) == ascii_lower(w) <==> c == w || ('a' <= w && w <= 'z' && c as u32 + 32
            == w as u32),
{
}

/// No letter of the word is a capital one.
pub open spec fn is_small(word: Seq<char>) -> bool {
    forall|i: int| 0 <= i < word.len() ==> !('A' <= #[trigger] word[i] && word[i] <= 'Z')
}

/// Text agrees with a word of small letters, up to case, exactly if each of its
/// characters is that of the word or its capital letter.
pub proof fn law_spelling(text: Seq<char>, word: Seq<char>)
    requires
        is_small(word),
    ensures
        is_spelled(text, word) <==> same_ignoring_case(text, word),
{
    if text.len() == word.len() {
        assert forall|i: int| 0 <= i < word.len() implies (ascii_lower(#[trigger] text[i])
            == ascii_lower(word[i]) <==> text[i] == word[i] || ('a' <= word[i] && word[i] <= 'z'
            && text[i] as u32 + 32 == word[i] as u32)) by {
            assert(!('A' <= word[i] && word[i] <= 'Z'));
            lemma_lower(text[i], word[i]);
        }
        if is_spelled(text, word) {
            assert(same_ignoring_case(text, word));
        }
        if same_ignoring_case(text, word) {
            assert(is_spelled(text, word));
        }
    }
}

/// Two characters are the same, or a capital letter of ASCII and its small one.
pub open spec fn is_same_letter(a: char, b: char) -> bool {
    ||| a == b
    ||| 'A' as u32 <= a as u32 <= 'Z' as u32 && b as u32 == a as u32 + 32
    ||| 'A' as u32 <= b as u32 <= 'Z' as u32 && a as u32 == b as u32 + 32
}

proof fn lemma_same_letter(a: char, b: char)
    ensures
        ascii_lower(a) == ascii_lower(b) <==> is_same_letter(a, b),
{
}

/// Two texts agree up to case exactly if they are of one length and their
/// characters are the same or differ only as a capital and a small letter.
pub proof fn law_ignoring_case(a: Seq<char>, b: Seq<char>)
    ensures
        same_ignoring_case(a, b) <==> a.len() == b.len() && forall|i: int|
            0 <= i < a.len() ==> is_same_letter(#[trigger] a[i], b[i]),
{
    assert forall|i: int| 0 <= i < a.len() implies (ascii_lower(#[trigger] a[i]) == ascii_lower(
        b[i],
    ) <==> is_same_letter(a[i], b[i])) by {
        lemma_same_letter(a[i], b[i]);
    }
    if same_ignoring_case(a, b) {
        assert forall|i: int| 0 <= i < a.len() implies is_same_letter(#[trigger] a[i], b[i]) by {
            assert(ascii_lower(a[i]) == ascii_lower(b[i]));
        }
    }
}

/// Digits end at the first position that holds none.
pub proof fn law_digits_end(s: Seq<char>, from: int)
    requires
        0 <= from <= s.len(),
    ensures
        from <= digits_end(s, from) <= s.len(),
        forall|i: int|
            from <= i < digits_end(s, from) ==> '0' <= (#[trigger] s[i]) && s[i] <= '9',
        digits_end(s, from) < s.len() ==> s[digits_end(s, from)] < '0' || s[digits_end(s, from)]
            > '9',
    decreases s.len() - from,
{
    if from < s.len() && is_digit(s[from]) {
        law_digits_end(s, from + 1);
    }
}

} // verus!
