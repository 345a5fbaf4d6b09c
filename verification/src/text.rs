//! Strings: decoding, decimal numbers and trimming.

use vstd::prelude::*;

verus! {

/// `String::push` puts one character at the end of the string and leaves the
/// characters before it as they were.
pub assume_specification[ std::string::String::push ](s: &mut String, c: char)
    ensures
        final(s)@ == old(s)@.push(c),
;

/// The length of the longest beginning of `bytes` that is valid UTF-8, among those of at
/// most `n` bytes.
pub open spec fn valid_prefix(bytes: Seq<u8>, n: nat) -> nat
    decreases n,
{
    if n == 0 || vstd::utf8::valid_utf8(bytes.take(n as int)) {
        n
    } else {
        valid_prefix(bytes, (n - 1) as nat)
    }
}

/// The longest valid beginning is valid, and no longer one is.
pub proof fn law_valid_prefix_is_longest(bytes: Seq<u8>, n: nat)
    ensures
        valid_prefix(bytes, n) <= n,
        vstd::utf8::valid_utf8(bytes.take(valid_prefix(bytes, n) as int)),
        forall|m: int|
            valid_prefix(bytes, n) < m <= n ==> !vstd::utf8::valid_utf8(#[trigger] bytes.take(m)),
    decreases n,
{
    if n == 0 {
        assert(bytes.take(0) =~= Seq::<u8>::empty());
    } else if !vstd::utf8::valid_utf8(bytes.take(n as int)) {
        law_valid_prefix_is_longest(bytes, (n - 1) as nat);
    }
}

/// Whether `bytes` can be continued to valid UTF-8.
pub open spec fn continuable(bytes: Seq<u8>) -> bool {
    exists|more: Seq<u8>| vstd::utf8::valid_utf8(#[trigger] (bytes + more))
}

/// The length of the invalid sequence at which decoding `bytes` fails, as
/// `Utf8Error::error_len` gives it.
pub uninterp spec fn utf8_error_len(bytes: Seq<u8>) -> usize;

/// Calls `String::from_utf8`. The claim is that it accepts exactly the valid UTF-8
/// sequences, and that the string it makes of one holds the characters which the bytes
/// encode. Of the error it hands on `valid_up_to`, the length of the longest valid
/// beginning, and `error_len`, which there is unless the end of the bytes was reached
/// unexpectedly, and which depends on the bytes alone.
#[verifier::external_body]
pub(crate) fn string_from_utf8(bytes: Vec<u8>) -> (text: Result<String, (usize, Option<usize>)>)
    ensures
        match text {
            Ok(s) => {
                &&& vstd::utf8::valid_utf8(bytes@)
                &&& s@ == vstd::utf8::decode_utf8(bytes@)
            },
            Err((valid_up_to, error_len)) => {
                &&& !vstd::utf8::valid_utf8(bytes@)
                &&& valid_up_to == valid_prefix(bytes@, bytes@.len())
                &&& error_len == (if continuable(bytes@) {
                    None
                } else {
                    Some(utf8_error_len(bytes@))
                })
            },
        },
{
    match String::from_utf8(bytes) {
        Ok(s) => Ok(s),
        Err(e) => Err((e.utf8_error().valid_up_to(), e.utf8_error().error_len())),
    }
}

/// The character of a decimal digit.
pub open spec fn digit(d: nat) -> char {
    ((48 + d) as u8) as char
}

/// The decimal notation of `n`, without leading zeros.
pub open spec fn decimal(n: nat) -> Seq<char>
    decreases n,
{
    if n < 10 {
        seq![digit(n)]
    } else {
        decimal(n / 10).push(digit(n % 10))
    }
}

/// The number that decimal digits stand for.
pub open spec fn decimal_value(digits: Seq<char>) -> nat
    decreases digits.len(),
{
    if digits.len() == 0 {
        0
    } else {
        (10 * decimal_value(digits.drop_last()) + (digits.last() as nat - '0' as nat)) as nat
    }
}

/// Decimal notation reads back as the number. It holds digits alone, and does not begin
/// with a zero unless it is one.
pub proof fn law_decimal_reads_back(n: nat)
    ensures
        decimal_value(decimal(n)) == n,
        decimal(n).len() > 0,
        forall|i: int| 0 <= i < decimal(n).len() ==> '0' <= #[trigger] decimal(n)[i] <= '9',
        decimal(n)[0] == '0' <==> n == 0,
    decreases n,
{
    if n < 10 {
        assert(decimal(n).drop_last() =~= Seq::<char>::empty());
        assert(decimal_value(decimal(n).drop_last()) == 0);
    } else {
        law_decimal_reads_back(n / 10);
        assert(decimal(n).drop_last() =~= decimal(n / 10));
        assert(n == 10 * (n / 10) + n % 10);
    }
}

/// What stands before, between and after the characters `sep` of `text`.
pub open spec fn fields(text: Seq<char>, sep: char) -> Seq<Seq<char>>
    decreases text.len(),
{
    if text.len() == 0 {
        seq![text]
    } else {
        let before = fields(text.drop_last(), sep);
        if text.last() == sep {
            before.push(Seq::empty())
        } else {
            before.drop_last().push(before.last().push(text.last()))
        }
    }
}

/// A text is made of its fields: one that is put together of a text, the separator, and a
/// field without it, has the fields of the first and the other as its last.
pub proof fn law_fields_take_text_apart(text: Seq<char>, sep: char, field: Seq<char>)
    requires
        !field.contains(sep),
    ensures
        fields(text + seq![sep] + field, sep) == fields(text, sep).push(field),
        fields(field, sep) == seq![field],
    decreases field.len(),
{
    let whole = text + seq![sep] + field;
    if field.len() == 0 {
        assert(whole.drop_last() =~= text);
        assert(field =~= Seq::<char>::empty());
        assert(fields(field, sep) =~= seq![field]);
    } else {
        let shorter = field.drop_last();
        assert(field.contains(field.last()));
        assert forall|i: int| 0 <= i < shorter.len() implies shorter[i] != sep by {
            assert(field.contains(field[i]));
        }
        assert(!shorter.contains(sep));
        law_fields_take_text_apart(text, sep, shorter);
        assert(whole.drop_last() =~= text + seq![sep] + shorter);
        assert(shorter.push(field.last()) =~= field);
        let before = fields(text, sep);
        assert(before.push(shorter).drop_last() =~= before);
        assert(seq![shorter].drop_last().push(field) =~= seq![field]);
    }
}

/// Appends the decimal notation of `n` to `text`.
pub fn push_decimal(text: &mut String, n: u64)
    ensures
        final(text)@ == old(text)@ + decimal(n as nat),
    decreases n,
{
    if n < 10 {
        text.push((48u8 + n as u8) as char);
    } else {
        push_decimal(text, n / 10);
        text.push((48u8 + (n % 10) as u8) as char);
    }
    assert(text@ =~= old(text)@ + decimal(n as nat));
}

/// The characters with the Unicode property `White_Space`.
pub open spec fn whitespace(c: char) -> bool {
    ||| '\u{9}' <= c <= '\u{d}'
    ||| c == ' '
    ||| c == '\u{85}'
    ||| c == '\u{a0}'
    ||| c == '\u{1680}'
    ||| '\u{2000}' <= c <= '\u{200a}'
    ||| c == '\u{2028}'
    ||| c == '\u{2029}'
    ||| c == '\u{202f}'
    ||| c == '\u{205f}'
    ||| c == '\u{3000}'
}

/// `text` without the whitespace at its start.
pub open spec fn trimmed_start(text: Seq<char>) -> Seq<char>
    decreases text.len(),
{
    if text.len() > 0 && whitespace(text[0]) {
        trimmed_start(text.skip(1))
    } else {
        text
    }
}

/// `text` without the whitespace at its end.
pub open spec fn trimmed_end(text: Seq<char>) -> Seq<char>
    decreases text.len(),
{
    if text.len() > 0 && whitespace(text.last()) {
        trimmed_end(text.drop_last())
    } else {
        text
    }
}

/// `text` without the whitespace around it.
pub open spec fn trimmed(text: Seq<char>) -> Seq<char> {
    trimmed_end(trimmed_start(text))
}

/// Trimming takes whitespace alone away, and all of it at both ends.
pub proof fn law_trimming_takes_whitespace(text: Seq<char>)
    ensures
        exists|from: int, to: int|
            #![trigger text.subrange(from, to)]
            {
                &&& 0 <= from <= to <= text.len()
                &&& trimmed(text) == text.subrange(from, to)
                &&& forall|i: int|
                    0 <= i < from || to <= i < text.len() ==> whitespace(#[trigger] text[i])
            },
        trimmed(text).len() > 0 ==> !whitespace(trimmed(text)[0]) && !whitespace(
            trimmed(text).last(),
        ),
{
    lemma_trimmed_start(text);
    let from = choose|from: int|
        #![trigger text.skip(from)]
        {
            &&& 0 <= from <= text.len()
            &&& trimmed_start(text) == text.skip(from)
            &&& forall|i: int| 0 <= i < from ==> whitespace(#[trigger] text[i])
        };
    let start = text.skip(from);
    lemma_trimmed_end(start);
    let len = choose|to: int|
        #![trigger start.take(to)]
        {
            &&& 0 <= to <= start.len()
            &&& trimmed_end(start) == start.take(to)
            &&& forall|i: int| to <= i < start.len() ==> whitespace(#[trigger] start[i])
        };
    let to = from + len;
    assert(start.take(len) =~= text.subrange(from, to));
    assert forall|i: int| 0 <= i < from || to <= i < text.len() implies whitespace(
        #[trigger] text[i],
    ) by {
        if i >= from {
            assert(start[i - from] == text[i]);
        }
    }
}

proof fn lemma_trimmed_start(text: Seq<char>)
    ensures
        exists|from: int|
            #![trigger text.skip(from)]
            {
                &&& 0 <= from <= text.len()
                &&& trimmed_start(text) == text.skip(from)
                &&& forall|i: int| 0 <= i < from ==> whitespace(#[trigger] text[i])
            },
        trimmed_start(text).len() > 0 ==> !whitespace(trimmed_start(text)[0]),
    decreases text.len(),
{
    if text.len() > 0 && whitespace(text[0]) {
        let rest = text.skip(1);
        lemma_trimmed_start(rest);
        let n = choose|from: int|
            #![trigger rest.skip(from)]
            {
                &&& 0 <= from <= rest.len()
                &&& trimmed_start(rest) == rest.skip(from)
                &&& forall|i: int| 0 <= i < from ==> whitespace(#[trigger] rest[i])
            };
        assert(rest.skip(n) =~= text.skip(n + 1));
        assert forall|i: int| 0 <= i < n + 1 implies whitespace(#[trigger] text[i]) by {
            if i > 0 {
                assert(rest[i - 1] == text[i]);
            }
        }
    } else {
        assert(text.skip(0) =~= text);
    }
}

proof fn lemma_trimmed_end(text: Seq<char>)
    ensures
        exists|to: int|
            #![trigger text.take(to)]
            {
                &&& 0 <= to <= text.len()
                &&& trimmed_end(text) == text.take(to)
                &&& forall|i: int| to <= i < text.len() ==> whitespace(#[trigger] text[i])
            },
        trimmed_end(text).len() > 0 ==> !whitespace(trimmed_end(text).last()),
    decreases text.len(),
{
    if text.len() > 0 && whitespace(text.last()) {
        let rest = text.drop_last();
        lemma_trimmed_end(rest);
        let n = choose|to: int|
            #![trigger rest.take(to)]
            {
                &&& 0 <= to <= rest.len()
                &&& trimmed_end(rest) == rest.take(to)
                &&& forall|i: int| to <= i < rest.len() ==> whitespace(#[trigger] rest[i])
            };
        assert(rest.take(n) =~= text.take(n));
        assert forall|i: int| n <= i < text.len() implies whitespace(#[trigger] text[i]) by {
            if i < rest.len() {
                assert(rest[i] == text[i]);
            }
        }
    } else {
        assert(text.take(text.len() as int) =~= text);
    }
}

/// Whether `c` has the Unicode property `White_Space`.
pub fn is_whitespace(c: char) -> (r: bool)
    ensures
        r == whitespace(c),
{
    ('\u{9}' <= c && c <= '\u{d}') || c == ' ' || c == '\u{85}' || c == '\u{a0}' || c == '\u{1680}'
        || ('\u{2000}' <= c && c <= '\u{200a}') || c == '\u{2028}' || c == '\u{2029}' || c
        == '\u{202f}' || c == '\u{205f}' || c == '\u{3000}'
}

/// Removes the whitespace around `text`.
pub fn trim(text: &str) -> (r: String)
    ensures
        r@ == trimmed(text@),
{
    let len: usize = text.unicode_len();
    let mut from: usize = 0;
    assert(text@.skip(0) =~= text@);
    while from < len && is_whitespace(text.get_char(from))
        invariant
            from <= len,
            len == text@.len(),
            trimmed_start(text@.skip(from as int)) == trimmed_start(text@),
        decreases len - from,
    {
        assert(text@.skip(from as int).skip(1) =~= text@.skip(from + 1));
        from += 1;
    }
    let ghost start = text@.skip(from as int);
    assert(trimmed_start(text@) == start);
    let mut to: usize = len;
    assert(text@.subrange(from as int, len as int) =~= start);
    while to > from && is_whitespace(text.get_char(to - 1))
        invariant
            from <= to <= len,
            len == text@.len(),
            trimmed_end(text@.subrange(from as int, to as int)) == trimmed_end(start),
        decreases to,
    {
        assert(text@.subrange(from as int, to as int).drop_last() =~= text@.subrange(
            from as int,
            to - 1,
        ));
        to -= 1;
    }
    text.substring_char(from, to).to_owned()
}

} // verus!
