//! Text: letter case, surrounding space, numbers written out.
use vstd::prelude::*;
use vstd::string::{StrSliceExecFns, StringExecFns};

verus! {

/// A letter from A to Z as its small counterpart; any other character as it is.
pub open spec fn ascii_small(c: char) -> char {
    if 'A' <= c <= 'Z' {
        (c as u32 + 32) as char
    } else {
        c
    }
}

/// Text with each letter from A to Z made small.
pub open spec fn ascii_lowercase(text: Seq<char>) -> Seq<char> {
    text.map_values(|c: char| ascii_small(c))
}

/// `str::to_ascii_lowercase` makes the letters from A to Z small and changes
/// nothing else.
pub assume_specification[ str::to_ascii_lowercase ](text: &str) -> (small: String)
    ensures
        small@ == ascii_lowercase(text@),
;

/// `str::eq_ignore_ascii_case` compares two texts as `to_ascii_lowercase` writes them.
pub assume_specification[ str::eq_ignore_ascii_case ](a: &str, b: &str) -> (same: bool)
    ensures
        same == (ascii_lowercase(a@) == ascii_lowercase(b@)),
;

/// The character is ASCII.
pub open spec fn is_ascii(c: char) -> bool {
    (c as u32) < 128
}

/// Each character of the text is ASCII.
pub open spec fn all_ascii(text: Seq<char>) -> bool {
    forall|i: int| 0 <= i < text.len() ==> is_ascii(#[trigger] text[i])
}

/// The character is white space: it has the Unicode property White_Space.
pub open spec fn white_space(c: char) -> bool {
    let code: u32 = c as u32;
    ||| 0x9 <= code <= 0xD
    ||| code == 0x20
    ||| code == 0x85
    ||| code == 0xA0
    ||| code == 0x1680
    ||| 0x2000 <= code <= 0x200A
    ||| code == 0x2028
    ||| code == 0x2029
    ||| code == 0x202F
    ||| code == 0x205F
    ||| code == 0x3000
}

/// `char::is_whitespace` tells the characters with the Unicode property
/// White_Space.
pub assume_specification[ char::is_whitespace ](c: char) -> (white: bool)
    ensures
        white == white_space(c),
;

/// What `str::to_lowercase` makes of a text that is not all ASCII, given with
/// its letters from A to Z made small.
pub uninterp spec fn wide_lowercase(text: Seq<char>) -> Seq<char>;

/// The Unicode lowercase equivalent of a text.
pub open spec fn lowercase(text: Seq<char>) -> Seq<char> {
    if all_ascii(text) {
        ascii_lowercase(text)
    } else {
        wide_lowercase(ascii_lowercase(text))
    }
}

/// `str::to_lowercase` makes the letters from A to Z small, as
/// `to_ascii_lowercase` does, and letters beyond ASCII besides, as the Unicode
/// database maps them. Of a text that is all ASCII nothing else changes. What
/// becomes of any other text is left to a name, and depends on the text alone,
/// and not on the letter case of the letters from A to Z in it. Of the database
/// two facts are used: what a letter is mapped to is mapped to itself, so that a
/// lowercase text stays as it is; and no character but white space is mapped to
/// nothing or to white space, so that none comes to stand at an end where none
/// stood.
pub assume_specification[ str::to_lowercase ](text: &str) -> (small: String)
    ensures
        small@ == (if all_ascii(text@) {
            ascii_lowercase(text@)
        } else {
            wide_lowercase(ascii_lowercase(text@))
        }),
        lowercase(small@) == small@,
        text@.len() > 0 && !white_space(text@.first()) ==> small@.len() > 0 && !white_space(small@.first()),
        text@.len() > 0 && !white_space(text@.last()) ==> small@.len() > 0 && !white_space(small@.last()),
;

/// Text without the white space at its start and at its end.
pub open spec fn trimmed(text: Seq<char>) -> Seq<char>
    decreases text.len(),
{
    if text.len() > 0 && white_space(text.first()) {
        trimmed(text.drop_first())
    } else if text.len() > 0 && white_space(text.last()) {
        trimmed(text.drop_last())
    } else {
        text
    }
}

/// The form in which artist names are matched.
pub open spec fn normalized(name: Seq<char>) -> Seq<char> {
    lowercase(trimmed(name))
}

/// The text without the white space around it.
pub fn trim(text: &str) -> (inner: &str)
    ensures
        inner@ == trimmed(text@),
{
    let mut start: usize = 0;
    let mut end: usize = text.unicode_len();
    assert(text@.subrange(0, end as int) =~= text@);
    while start < end && text.get_char(start).is_whitespace()
        invariant
            start <= end == text@.len(),
            trimmed(text@) == trimmed(text@.subrange(start as int, end as int)),
        decreases end - start,
    {
        assert(text@.subrange(start as int, end as int).drop_first() =~= text@.subrange(start + 1, end as int));
        start = start + 1;
    }
    while start < end && text.get_char(end - 1).is_whitespace()
        invariant
            start <= end <= text@.len(),
            start < end ==> !white_space(text@[start as int]),
            trimmed(text@) == trimmed(text@.subrange(start as int, end as int)),
        decreases end - start,
    {
        assert(text@.subrange(start as int, end as int).drop_last() =~= text@.subrange(start as int, end - 1));
        end = end - 1;
    }
    text.substring_char(start, end)
}

/// The form in which artist names are matched. It is its own form, and neither
/// starts nor ends with white space.
pub fn normalize_artist_name(name: &str) -> (form: String)
    ensures
        form@ == normalized(name@),
        normalized(form@) == form@,
        form@.len() > 0 ==> !white_space(form@.first()) && !white_space(form@.last()),
{
    let inner: &str = trim(name);
    let form: String = inner.to_lowercase();
    proof {
        law_trimmed_ends(name@);
        if inner@.len() == 0 {
            assert(form@ =~= inner@);
        }
    }
    form
}

/// What is left of a text neither starts nor ends with white space.
pub proof fn law_trimmed_ends(text: Seq<char>)
    ensures
        trimmed(text).len() > 0 ==> !white_space(trimmed(text).first()) && !white_space(trimmed(text).last()),
    decreases text.len(),
{
    if text.len() > 0 && white_space(text.first()) {
        law_trimmed_ends(text.drop_first());
    } else if text.len() > 0 && white_space(text.last()) {
        law_trimmed_ends(text.drop_last());
    }
}

/// Every character of the text is white space.
pub open spec fn blank(text: Seq<char>) -> bool {
    forall|i: int| 0 <= i < text.len() ==> white_space(#[trigger] text[i])
}

/// A character that is not white space is not taken off.
proof fn lemma_trimmed_keeps(text: Seq<char>, i: int)
    requires
        0 <= i < text.len(),
        !white_space(text[i]),
    ensures
        trimmed(text).len() > 0,
    decreases text.len(),
{
    if white_space(text.first()) {
        lemma_trimmed_keeps(text.drop_first(), i - 1);
    } else if white_space(text.last()) {
        lemma_trimmed_keeps(text.drop_last(), i);
    }
}

/// Nothing is left of a text exactly where it is nothing but white space.
pub proof fn law_nothing_left_of_blank(text: Seq<char>)
    ensures
        trimmed(text).len() == 0 <==> blank(text),
    decreases text.len(),
{
    if text.len() > 0 && white_space(text.first()) {
        let rest: Seq<char> = text.drop_first();
        law_nothing_left_of_blank(rest);
        if blank(rest) {
            assert forall|i: int| 0 <= i < text.len() implies white_space(#[trigger] text[i]) by {
                if i > 0 {
                    assert(rest[i - 1] == text[i]);
                }
            }
        }
        if blank(text) {
            assert forall|i: int| 0 <= i < rest.len() implies white_space(#[trigger] rest[i]) by {
                assert(rest[i] == text[i + 1]);
            }
        }
    } else if text.len() > 0 {
        assert(!white_space(text[0]));
        lemma_trimmed_keeps(text, 0);
    }
}

/// White space before a text does not change what is left of it.
proof fn lemma_trimmed_before(before: Seq<char>, text: Seq<char>)
    requires
        blank(before),
    ensures
        trimmed(before + text) == trimmed(text),
    decreases before.len(),
{
    if before.len() > 0 {
        let rest: Seq<char> = before.drop_first();
        assert(blank(rest)) by {
            assert forall|i: int| 0 <= i < rest.len() implies white_space(#[trigger] rest[i]) by {
                assert(rest[i] == before[i + 1]);
            }
        }
        assert(white_space(before[0]));
        assert((before + text).drop_first() =~= rest + text);
        lemma_trimmed_before(rest, text);
    } else {
        assert(before + text =~= text);
    }
}

/// White space behind a text does not change what is left of it.
proof fn lemma_trimmed_after(text: Seq<char>, after: Seq<char>)
    requires
        blank(after),
    ensures
        trimmed(text + after) == trimmed(text),
    decreases text.len() + after.len(),
{
    if after.len() == 0 {
        assert(text + after =~= text);
    } else if text.len() == 0 {
        assert(text + after =~= after + text);
        lemma_trimmed_before(after, text);
    } else if white_space(text.first()) {
        assert((text + after).drop_first() =~= text.drop_first() + after);
        lemma_trimmed_after(text.drop_first(), after);
    } else {
        let rest: Seq<char> = after.drop_last();
        assert(white_space(after[after.len() - 1]));
        assert((text + after).drop_last() =~= text + rest);
        assert(forall|i: int| 0 <= i < rest.len() ==> rest[i] == after[i]);
        lemma_trimmed_after(text, rest);
    }
}

/// What is left of a text is a part of it, with nothing but white space before and
/// behind.
pub proof fn law_trimmed_is_inner(text: Seq<char>) -> (cut: (Seq<char>, Seq<char>))
    ensures
        text == cut.0 + trimmed(text) + cut.1,
        blank(cut.0),
        blank(cut.1),
    decreases text.len(),
{
    if text.len() > 0 && white_space(text.first()) {
        let (before, after): (Seq<char>, Seq<char>) = law_trimmed_is_inner(text.drop_first());
        let more: Seq<char> = seq![text.first()] + before;
        let rest: Seq<char> = before + trimmed(text) + after;
        assert(text.drop_first() == rest);
        assert(text =~= seq![text.first()] + rest);
        assert(text =~= more + trimmed(text) + after);
        assert forall|i: int| 0 <= i < more.len() implies white_space(#[trigger] more[i]) by {
            if i > 0 {
                assert(more[i] == before[i - 1]);
            }
        }
        (more, after)
    } else if text.len() > 0 && white_space(text.last()) {
        let (before, after): (Seq<char>, Seq<char>) = law_trimmed_is_inner(text.drop_last());
        let more: Seq<char> = after.push(text.last());
        let rest: Seq<char> = before + trimmed(text) + after;
        assert(text.drop_last() == rest);
        assert(text =~= rest.push(text.last()));
        assert(text =~= before + trimmed(text) + more);
        (before, more)
    } else {
        assert(text =~= Seq::<char>::empty() + trimmed(text) + Seq::<char>::empty());
        (Seq::<char>::empty(), Seq::<char>::empty())
    }
}

/// White space added at either end of a text does not change what is left of it.
pub proof fn law_trimmed_ignores_space(before: Seq<char>, text: Seq<char>, after: Seq<char>)
    requires
        blank(before),
        blank(after),
    ensures
        trimmed(before + text + after) == trimmed(text),
{
    lemma_trimmed_after(before + text, after);
    lemma_trimmed_before(before, text);
}

/// Characters that differ in the letter case of A to Z only are alike in whether
/// they are white space, and in whether they are ASCII.
proof fn lemma_ascii_small(a: char, b: char)
    requires
        ascii_small(a) == ascii_small(b),
    ensures
        white_space(a) == white_space(b),
        is_ascii(a) == is_ascii(b),
{
}

/// Of texts that differ in the letter case of A to Z only, the same is taken off.
proof fn lemma_trimmed_alike(a: Seq<char>, b: Seq<char>)
    requires
        ascii_lowercase(a) == ascii_lowercase(b),
    ensures
        ascii_lowercase(trimmed(a)) == ascii_lowercase(trimmed(b)),
    decreases a.len(),
{
    assert(a.len() == ascii_lowercase(a).len() == ascii_lowercase(b).len() == b.len());
    if a.len() > 0 {
        let last: int = a.len() - 1;
        assert(ascii_lowercase(a)[0] == ascii_small(a[0]));
        assert(ascii_lowercase(b)[0] == ascii_small(b[0]));
        assert(ascii_lowercase(a)[last] == ascii_small(a[last]));
        assert(ascii_lowercase(b)[last] == ascii_small(b[last]));
        lemma_ascii_small(a[0], b[0]);
        lemma_ascii_small(a[last], b[last]);
        if white_space(a.first()) {
            assert(ascii_lowercase(a.drop_first()) =~= ascii_lowercase(a).drop_first());
            assert(ascii_lowercase(b.drop_first()) =~= ascii_lowercase(b).drop_first());
            lemma_trimmed_alike(a.drop_first(), b.drop_first());
        } else if white_space(a.last()) {
            assert(ascii_lowercase(a.drop_last()) =~= ascii_lowercase(a).drop_last());
            assert(ascii_lowercase(b.drop_last()) =~= ascii_lowercase(b).drop_last());
            lemma_trimmed_alike(a.drop_last(), b.drop_last());
        }
    }
}

/// Texts that differ in the letter case of A to Z only have one lowercase
/// equivalent.
proof fn lemma_lowercase_alike(a: Seq<char>, b: Seq<char>)
    requires
        ascii_lowercase(a) == ascii_lowercase(b),
    ensures
        lowercase(a) == lowercase(b),
{
    assert(a.len() == ascii_lowercase(a).len() == ascii_lowercase(b).len() == b.len());
    assert forall|i: int| 0 <= i < a.len() implies is_ascii(#[trigger] a[i]) == is_ascii(b[i]) by {
        assert(ascii_lowercase(a)[i] == ascii_small(a[i]));
        assert(ascii_lowercase(b)[i] == ascii_small(b[i]));
        lemma_ascii_small(a[i], b[i]);
    }
    if all_ascii(a) {
        assert forall|i: int| 0 <= i < b.len() implies is_ascii(#[trigger] b[i]) by {
            assert(is_ascii(a[i]));
        }
    }
    if all_ascii(b) {
        assert forall|i: int| 0 <= i < a.len() implies is_ascii(#[trigger] a[i]) by {
            assert(is_ascii(b[i]));
        }
    }
}

/// Artist names that differ only in the white space around them and in the
/// letter case of A to Z match.
pub proof fn law_names_match(
    before: Seq<char>,
    name: Seq<char>,
    after: Seq<char>,
    other_before: Seq<char>,
    other_name: Seq<char>,
    other_after: Seq<char>,
)
    requires
        blank(before),
        blank(after),
        blank(other_before),
        blank(other_after),
        ascii_lowercase(name) == ascii_lowercase(other_name),
    ensures
        normalized(before + name + after) == normalized(other_before + other_name + other_after),
{
    law_trimmed_ignores_space(before, name, after);
    law_trimmed_ignores_space(other_before, other_name, other_after);
    lemma_trimmed_alike(name, other_name);
    lemma_lowercase_alike(trimmed(name), trimmed(other_name));
}

/// The form in which a name is matched neither starts nor ends with white space,
/// where what is left of the name is ASCII.
pub proof fn law_ascii_form_ends(name: Seq<char>)
    requires
        all_ascii(trimmed(name)),
    ensures
        normalized(name).len() > 0 ==> !white_space(normalized(name).first()) && !white_space(normalized(name).last()),
{
    law_trimmed_ends(name);
    let inner: Seq<char> = trimmed(name);
    if inner.len() > 0 {
        lemma_ascii_small(inner.first(), ascii_small(inner.first()));
        lemma_ascii_small(inner.last(), ascii_small(inner.last()));
    }
}

/// The form in which a name is matched is its own form, where what is left of
/// the name is ASCII.
pub proof fn law_normal_form_is_fixed(name: Seq<char>)
    requires
        all_ascii(trimmed(name)),
    ensures
        normalized(normalized(name)) == normalized(name),
{
    law_ascii_form_ends(name);
    let inner: Seq<char> = trimmed(name);
    let form: Seq<char> = normalized(name);
    assert(trimmed(form) == form);
    assert forall|i: int| 0 <= i < form.len() implies is_ascii(#[trigger] form[i]) && ascii_small(form[i]) == form[i] by {
        assert(is_ascii(inner[i]));
    }
    assert(ascii_lowercase(form) =~= form);
}

/// The letters that differ only in letter case, from A to Z.
pub open spec fn other_case(large: char, small: char) -> bool {
    0x41 <= large as u32 <= 0x5A && small as u32 == large as u32 + 0x20
}

/// Texts that are the same but for the letter case of A to Z.
pub open spec fn alike(a: Seq<char>, b: Seq<char>) -> bool {
    &&& a.len() == b.len()
    &&& forall|i: int|
        0 <= i < a.len() ==> #[trigger] a[i] == b[i] || other_case(a[i], b[i]) || other_case(b[i], a[i])
}

/// Making the letters from A to Z small brings together the texts that differ in
/// the letter case of these letters, and no others.
pub proof fn law_small_letters_join(a: Seq<char>, b: Seq<char>)
    ensures
        ascii_lowercase(a) == ascii_lowercase(b) <==> alike(a, b),
{
    let x: Seq<char> = ascii_lowercase(a);
    let y: Seq<char> = ascii_lowercase(b);
    if x == y {
        assert(a.len() == x.len() == y.len() == b.len());
        assert forall|i: int| 0 <= i < a.len() implies #[trigger] a[i] == b[i] || other_case(a[i], b[i]) || other_case(
            b[i],
            a[i],
        ) by {
            assert(x[i] == ascii_small(a[i]));
            assert(y[i] == ascii_small(b[i]));
        }
    }
    if alike(a, b) {
        assert forall|i: int| 0 <= i < x.len() implies #[trigger] x[i] == y[i] by {
            assert(a[i] == b[i] || other_case(a[i], b[i]) || other_case(b[i], a[i]));
        }
        assert(x =~= y);
    }
}

/// Names have one form exactly where what is left of them, of however many words,
/// has one Unicode lowercase equivalent.
pub proof fn law_form_is_the_lowercase_equivalent(a: Seq<char>, b: Seq<char>)
    ensures
        normalized(a) == normalized(b) <==> lowercase(trimmed(a)) == lowercase(trimmed(b)),
        normalized(a).len() == lowercase(trimmed(a)).len(),
        forall|i: int| 0 <= i < normalized(a).len() ==> #[trigger] normalized(a)[i] == lowercase(trimmed(a))[i],
{
}

/// The decimal digit of a number below ten.
pub open spec fn digit(d: nat) -> char {
    (48 + d) as char
}

/// A number in decimal.
pub open spec fn decimal(n: nat) -> Seq<char>
    decreases n,
{
    if n < 10 {
        seq![digit(n)]
    } else {
        decimal(n / 10).push(digit(n % 10))
    }
}

/// The number that decimal digits write.
pub open spec fn number_of(digits: Seq<char>) -> nat
    decreases digits.len(),
{
    if digits.len() == 0 {
        0
    } else {
        (10 * number_of(digits.drop_last()) + (digits.last() as int - 0x30)) as nat
    }
}

/// A number is written with the digits from 0 to 9, without a leading zero, and
/// can be read back.
pub proof fn law_decimal_is_read_back(n: nat)
    ensures
        number_of(decimal(n)) == n,
        decimal(n).len() > 0,
        forall|i: int| 0 <= i < decimal(n).len() ==> 0x30 <= (#[trigger] decimal(n)[i]) as u32 <= 0x39,
        decimal(n).len() > 1 ==> decimal(n)[0] as u32 != 0x30,
    decreases n,
{
    let text: Seq<char> = decimal(n);
    if n < 10 {
        assert(text.drop_last() =~= Seq::<char>::empty());
        assert(number_of(text.drop_last()) == 0);
    } else {
        let rest: Seq<char> = decimal(n / 10);
        law_decimal_is_read_back(n / 10);
        assert(text.drop_last() =~= rest);
        assert(rest.len() == 1 ==> rest.drop_last() =~= Seq::<char>::empty());
        assert(rest.len() == 1 ==> number_of(rest.drop_last()) == 0);
    }
}

fn digit_text(d: u64) -> (text: &'static str)
    requires
        d < 10,
    ensures
        text@ == seq![digit(d as nat)],
{
    proof {
        reveal_strlit("0");
        reveal_strlit("1");
        reveal_strlit("2");
        reveal_strlit("3");
        reveal_strlit("4");
        reveal_strlit("5");
        reveal_strlit("6");
        reveal_strlit("7");
        reveal_strlit("8");
        reveal_strlit("9");
    }
    match d {
        0 => "0",
        1 => "1",
        2 => "2",
        3 => "3",
        4 => "4",
        5 => "5",
        6 => "6",
        7 => "7",
        8 => "8",
        _ => "9",
    }
}

/// Writes a number in decimal.
pub fn decimal_text(n: u64) -> (text: String)
    ensures
        text@ == decimal(n as nat),
    decreases n,
{
    if n < 10 {
        digit_text(n).to_owned()
    } else {
        let mut text: String = decimal_text(n / 10);
        text.append(digit_text(n % 10));
        assert(text@ =~= decimal(n as nat));
        text
    }
}

/// The hexadecimal digit of a number below sixteen.
pub open spec fn hex_digit(d: nat) -> char {
    if d < 10 {
        digit(d)
    } else {
        (87 + d) as char
    }
}

/// Bytes in hexadecimal, two small digits for each.
pub open spec fn hex(bytes: Seq<u8>) -> Seq<char>
    decreases bytes.len(),
{
    if bytes.len() == 0 {
        seq![]
    } else {
        hex(bytes.drop_last()) + seq![
            hex_digit((bytes.last() / 16) as nat),
            hex_digit((bytes.last() % 16) as nat),
        ]
    }
}

/// Each byte takes two digits.
pub proof fn lemma_hex_len(bytes: Seq<u8>)
    ensures
        hex(bytes).len() == 2 * bytes.len(),
    decreases bytes.len(),
{
    if bytes.len() > 0 {
        lemma_hex_len(bytes.drop_last());
    }
}

/// The value of a small hexadecimal digit.
pub open spec fn hex_value(c: char) -> int {
    if 0x30 <= c as u32 <= 0x39 {
        c as int - 0x30
    } else if 0x61 <= c as u32 <= 0x66 {
        c as int - 0x57
    } else {
        -1
    }
}

/// Each byte can be read back from its two digits, the higher one first.
pub proof fn law_hex_is_read_back(bytes: Seq<u8>, i: int)
    requires
        0 <= i < bytes.len(),
    ensures
        hex(bytes).len() == 2 * bytes.len(),
        0 <= hex_value(hex(bytes)[2 * i]) < 16,
        0 <= hex_value(hex(bytes)[2 * i + 1]) < 16,
        bytes[i] == 16 * hex_value(hex(bytes)[2 * i]) + hex_value(hex(bytes)[2 * i + 1]),
    decreases bytes.len(),
{
    let rest: Seq<u8> = bytes.drop_last();
    lemma_hex_len(bytes);
    lemma_hex_len(rest);
    if i < rest.len() {
        assert(rest[i] == bytes[i]);
        law_hex_is_read_back(rest, i);
    }
}

fn hex_digit_text(d: u8) -> (text: &'static str)
    requires
        d < 16,
    ensures
        text@ == seq![hex_digit(d as nat)],
{
    proof {
        reveal_strlit("a");
        reveal_strlit("b");
        reveal_strlit("c");
        reveal_strlit("d");
        reveal_strlit("e");
        reveal_strlit("f");
    }
    match d {
        10 => "a",
        11 => "b",
        12 => "c",
        13 => "d",
        14 => "e",
        15 => "f",
        _ => digit_text(d as u64),
    }
}

/// Writes bytes in hexadecimal.
pub fn hex_text(bytes: &[u8]) -> (text: String)
    ensures
        text@ == hex(bytes@),
{
    let mut text: String = String::new();
    let mut i: usize = 0;
    while i < bytes.len()
        invariant
            i <= bytes@.len(),
            text@ == hex(bytes@.take(i as int)),
        decreases bytes@.len() - i,
    {
        text.append(hex_digit_text(bytes[i] / 16));
        text.append(hex_digit_text(bytes[i] % 16));
        assert(bytes@.take(i + 1).drop_last() =~= bytes@.take(i as int));
        assert(text@ =~= hex(bytes@.take(i + 1)));
        i = i + 1;
    }
    assert(bytes@.take(i as int) =~= bytes@);
    text
}

} // verus!
