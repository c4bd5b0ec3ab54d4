//! Numbers as text, blanks around text, and text without colons.

use vstd::prelude::*;

verus! {

/// The character for a decimal digit.
pub open spec fn digit_char(digit: nat) -> char {
    (('0' as u32) + digit) as char
}

/// A number in decimal digits, without leading zeros.
pub open spec fn decimal_chars(n: nat) -> Seq<char>
    decreases n,
{
    if n < 10 {
        seq![digit_char(n)]
    } else {
        decimal_chars(n / 10).push(digit_char(n % 10))
    }
}

/// A decimal digit as text.
fn digit(n: u64) -> (res: &'static str)
    requires
        n < 10,
    ensures
        res@ == seq![digit_char(n as nat)],
{
    proof {
        reveal_strlit("0");
        reveal_strlit("1");
        reveal_strlit("2");
        reveal_strlit("3");
        reveal_strlit("4");
        reveal_strlit("5");
        reveal_strlit("6");
        reveal_strlit("7");
        reveal_strlit("8");
        reveal_strlit("9");
    }
    let res = match n {
        0 => "0",
        1 => "1",
        2 => "2",
        3 => "3",
        4 => "4",
        5 => "5",
        6 => "6",
        7 => "7",
        8 => "8",
        _ => "9",
    };
    assert(res@ =~= seq![digit_char(n as nat)]);
    res
}

/// A number in decimal digits, without leading zeros.
pub fn decimal(n: u64) -> (res: String)
    ensures
        res@ == decimal_chars(n as nat),
    decreases n,
{
    if n < 10 {
        digit(n).to_string()
    } else {
        let res = decimal(n / 10).concat(digit(n % 10));
        assert(res@ =~= decimal_chars((n / 10) as nat).push(digit_char((n % 10) as nat)));
        res
    }
}

/// A character that Unicode counts as white space.
pub open spec fn blank(c: char) -> bool {
    let code = c as u32;
    ||| 0x9 <= code <= 0xd
    ||| code == 0x20
    ||| code == 0x85
    ||| code == 0xa0
    ||| code == 0x1680
    ||| 0x2000 <= code <= 0x200a
    ||| code == 0x2028
    ||| code == 0x2029
    ||| code == 0x202f
    ||| code == 0x205f
    ||| code == 0x3000
}

/// Whether Unicode counts a character as white space.
fn is_blank(c: char) -> (res: bool)
    ensures
        res == blank(c),
{
    let code = c as u32;
    (0x9 <= code && code <= 0xd) || code == 0x20 || code == 0x85 || code == 0xa0 || code == 0x1680
        || (0x2000 <= code && code <= 0x200a) || code == 0x2028 || code == 0x2029 || code == 0x202f
        || code == 0x205f || code == 0x3000
}

/// `part` is `whole` without the white space at its two ends.
pub open spec fn is_trimmed(part: Seq<char>, whole: Seq<char>) -> bool {
    exists|from: int, to: int|
        {
            &&& 0 <= from <= to <= whole.len()
            &&& part == #[trigger] whole.subrange(from, to)
            &&& forall|i: int| 0 <= i < from ==> blank(#[trigger] whole[i])
            &&& forall|i: int| to <= i < whole.len() ==> blank(#[trigger] whole[i])
            &&& from < to ==> !blank(whole[from]) && !blank(whole[to - 1])
            &&& from == to ==> forall|i: int| 0 <= i < whole.len() ==> blank(#[trigger] whole[i])
        }
}

/// The text without the white space at its two ends.
pub fn trimmed(text: &str) -> (res: &str)
    ensures
        is_trimmed(res@, text@),
{
    let len = text.unicode_len();
    let mut from: usize = 0;
    while from < len && is_blank(text.get_char(from))
        invariant
            len == text@.len(),
            from <= len,
            forall|i: int| 0 <= i < from ==> blank(#[trigger] text@[i]),
        decreases len - from,
    {
        from = from + 1;
    }
    let mut to: usize = len;
    while from < to && is_blank(text.get_char(to - 1))
        invariant
            len == text@.len(),
            from <= to <= len,
            forall|i: int| to <= i < len ==> blank(#[trigger] text@[i]),
        decreases to,
    {
        to = to - 1;
    }
    let res = text.substring_char(from, to);
    assert(res@ == text@.subrange(from as int, to as int));
    res
}

/// `part` is what stands before the first comma of `whole`, or all of it.
pub open spec fn is_first_item(part: Seq<char>, whole: Seq<char>) -> bool {
    &&& part.len() <= whole.len()
    &&& part == whole.take(part.len() as int)
    &&& !part.contains(',')
    &&& part.len() < whole.len() ==> whole[part.len() as int] == ','
}

/// What stands before the first comma, or all of the text.
pub fn first_item(text: &str) -> (res: &str)
    ensures
        is_first_item(res@, text@),
{
    let len = text.unicode_len();
    let mut at: usize = 0;
    while at < len && text.get_char(at) != ','
        invariant
            len == text@.len(),
            at <= len,
            forall|i: int| 0 <= i < at ==> #[trigger] text@[i] != ',',
        decreases len - at,
    {
        at = at + 1;
    }
    let res = text.substring_char(0, at);
    assert(res@ =~= text@.take(at as int));
    res
}

/// Whether the text holds a colon.
pub fn has_colon(text: &str) -> (res: bool)
    ensures
        res == text@.contains(':'),
{
    let len = text.unicode_len();
    let mut at: usize = 0;
    while at < len
        invariant
            len == text@.len(),
            at <= len,
            forall|i: int| 0 <= i < at ==> #[trigger] text@[i] != ':',
        decreases len - at,
    {
        if text.get_char(at) == ':' {
            assert(text@[at as int] == ':');
            return true;
        }
        at = at + 1;
    }
    false
}

/// How a character stands in a masked text: a colon as `\.`, a backslash as `\\`, any other as it
/// is.
pub open spec fn masked_char(c: char) -> Seq<char> {
    if c == ':' {
        seq!['\\', '.']
    } else if c == '\\' {
        seq!['\\', '\\']
    } else {
        seq![c]
    }
}

/// A text with its colons and backslashes masked: it holds no colon, and no `\/`.
pub open spec fn masked_chars(text: Seq<char>) -> Seq<char>
    decreases text.len(),
{
    if text.len() == 0 {
        Seq::empty()
    } else {
        masked_char(text[0]) + masked_chars(text.drop_first())
    }
}

/// The text with its colons and backslashes masked.
pub fn masked(text: &str) -> (res: String)
    ensures
        res@ == masked_chars(text@),
{
    proof {
        reveal_strlit("\\.");
        reveal_strlit("\\\\");
    }
    let len = text.unicode_len();
    let mut res = String::new();
    let mut at: usize = 0;
    assert("\\."@ =~= seq!['\\', '.']);
    assert("\\\\"@ =~= seq!['\\', '\\']);
    assert(text@.skip(0) =~= text@);
    assert(res@ + masked_chars(text@) =~= masked_chars(text@));
    while at < len
        invariant
            len == text@.len(),
            at <= len,
            res@ + masked_chars(text@.skip(at as int)) == masked_chars(text@),
            "\\."@ == seq!['\\', '.'],
            "\\\\"@ == seq!['\\', '\\'],
        decreases len - at,
    {
        let ghost rest = text@.skip(at as int);
        let ghost done = res@;
        assert(rest[0] == text@[at as int]);
        assert(rest.drop_first() =~= text@.skip(at + 1));
        let c = text.get_char(at);
        assert(text@.subrange(at as int, at + 1) =~= seq![c]);
        if c == ':' {
            res.append("\\.");
        } else if c == '\\' {
            res.append("\\\\");
        } else {
            res.append(text.substring_char(at, at + 1));
        }
        assert(res@ =~= done + masked_char(c));
        assert(res@ + masked_chars(rest.drop_first()) =~= done + masked_chars(rest));
        at = at + 1;
    }
    assert(text@.skip(at as int) =~= Seq::empty());
    assert(res@ + Seq::<char>::empty() =~= res@);
    res
}

/// A masked text holds no colon.
pub proof fn law_masked_text_has_no_colon(text: Seq<char>)
    ensures
        !masked_chars(text).contains(':'),
    decreases text.len(),
{
    if text.len() > 0 {
        let start = masked_char(text[0]);
        let rest = masked_chars(text.drop_first());
        law_masked_text_has_no_colon(text.drop_first());
        assert forall|i: int| 0 <= i < masked_chars(text).len() implies #[trigger] masked_chars(
            text,
        )[i] != ':' by {
            if i >= start.len() {
                assert(masked_chars(text)[i] == rest[i - start.len()]);
                assert(rest.contains(rest[i - start.len()]));
            }
        }
    }
}

/// The mark between two masked texts, which occurs in neither.
pub open spec fn mask_end() -> Seq<char> {
    seq!['\\', '/']
}

/// How a masked text with something behind it begins.
proof fn lemma_masked_start(text: Seq<char>, behind: Seq<char>)
    ensures
        ({
            let whole = masked_chars(text) + mask_end() + behind;
            if text.len() == 0 {
                &&& whole.len() >= 2
                &&& whole[0] == '\\'
                &&& whole[1] == '/'
                &&& behind == whole.skip(2)
            } else {
                let start = masked_char(text[0]);
                &&& whole.len() >= start.len()
                &&& whole[0] == start[0]
                &&& start.len() == 2 ==> whole[1] == start[1]
                &&& whole.skip(start.len() as int) == masked_chars(text.drop_first())
                    + mask_end() + behind
            }
        }),
{
    let whole = masked_chars(text) + mask_end() + behind;
    if text.len() == 0 {
        assert(behind =~= whole.skip(2));
    } else {
        let start = masked_char(text[0]);
        assert(whole =~= start + (masked_chars(text.drop_first()) + mask_end() + behind));
        assert(whole.skip(start.len() as int) =~= masked_chars(text.drop_first()) + mask_end()
            + behind);
    }
}

/// A masked text ends at the first `\/`: it can be told, and so can what follows.
pub proof fn law_masked_text_is_told(a: Seq<char>, x: Seq<char>, b: Seq<char>, y: Seq<char>)
    requires
        masked_chars(a) + mask_end() + x == masked_chars(b) + mask_end() + y,
    ensures
        a == b,
        x == y,
    decreases a.len(),
{
    lemma_masked_start(a, x);
    lemma_masked_start(b, y);
    if a.len() == 0 || b.len() == 0 {
        assert(a =~= b);
    } else {
        assert(masked_char(a[0])[0] == masked_char(b[0])[0]);
        assert(a[0] == b[0]);
        law_masked_text_is_told(a.drop_first(), x, b.drop_first(), y);
        assert(a =~= seq![a[0]] + a.drop_first());
        assert(b =~= seq![b[0]] + b.drop_first());
    }
}

/// Two masked texts behind each other tell both texts.
pub proof fn law_masked_pair_is_told(a: Seq<char>, x: Seq<char>, b: Seq<char>, y: Seq<char>)
    requires
        masked_chars(a) + mask_end() + masked_chars(x) == masked_chars(b) + mask_end()
            + masked_chars(y),
    ensures
        a == b,
        x == y,
{
    law_masked_text_is_told(a, masked_chars(x), b, masked_chars(y));
    law_masked_text_is_told(x, Seq::empty(), y, Seq::empty());
}

/// A text without colons in front of a colon can be told, and so can what follows.
pub proof fn law_text_before_colon_is_told(a: Seq<char>, x: Seq<char>, b: Seq<char>, y: Seq<char>)
    requires
        !a.contains(':'),
        !b.contains(':'),
        a + seq![':'] + x == b + seq![':'] + y,
    ensures
        a == b,
        x == y,
{
    let l = a + seq![':'] + x;
    let r = b + seq![':'] + y;
    assert(l[a.len() as int] == ':' && r[b.len() as int] == ':');
    if a.len() < b.len() {
        assert(r[a.len() as int] == b[a.len() as int]);
        assert(b.contains(b[a.len() as int]));
    }
    if b.len() < a.len() {
        assert(l[b.len() as int] == a[b.len() as int]);
        assert(a.contains(a[b.len() as int]));
    }
    assert(a =~= l.take(a.len() as int));
    assert(b =~= r.take(b.len() as int));
    assert(x =~= l.skip((a.len() + 1) as int));
    assert(y =~= r.skip((b.len() + 1) as int));
}

/// A number in decimal digits consists of digits only, does not begin with a zero unless it is one,
/// and reads back as the number.
pub proof fn law_decimal_reads_back(n: nat)
    ensures
        ({
            let chars = decimal_chars(n);
            &&& chars.len() > 0
            &&& forall|i: int| 0 <= i < chars.len() ==> '0' <= #[trigger] chars[i] <= '9'
            &&& chars[0] == '0' ==> n == 0 && chars.len() == 1
            &&& chars.fold_left(0int, |v: int, c: char| 10 * v + (c as u32 - '0' as u32)) == n
        }),
    decreases n,
{
    let read = |v: int, c: char| 10 * v + (c as u32 - '0' as u32);
    let chars = decimal_chars(n);
    if n < 10 {
        assert(chars.drop_last() =~= Seq::empty());
        assert(chars.drop_last().fold_left(0int, read) == 0);
        assert(chars.fold_left(0int, read) == read(0, chars.last()));
    } else {
        law_decimal_reads_back(n / 10);
        assert(chars.drop_last() =~= decimal_chars(n / 10));
        assert(chars[0] == decimal_chars(n / 10)[0]);
        assert forall|i: int| 0 <= i < chars.len() implies '0' <= #[trigger] chars[i] <= '9' by {
            if i < chars.len() - 1 {
                assert(chars[i] == decimal_chars(n / 10)[i]);
            }
        }
        assert(chars.fold_left(0int, read) == read(
            chars.drop_last().fold_left(0int, read),
            chars.last(),
        ));
    }
}

/// Two numbers have the same digits only if they are the same.
pub proof fn law_decimal_tells_the_number(a: nat, b: nat)
    requires
        decimal_chars(a) == decimal_chars(b),
    ensures
        a == b,
{
    law_decimal_reads_back(a);
    law_decimal_reads_back(b);
}

/// Of the ASCII characters white space are the space and those from tab to carriage return; letters,
/// digits and punctuation never are. Beyond ASCII it is the next-line and the no-break space, and a
/// few of the wider spaces and separators.
pub proof fn law_blanks_are_few(c: char)
    ensures
        (c as u32) < 0x80 ==> (blank(c) <==> c == ' ' || '\t' <= c <= '\r'),
        0x80 <= (c as u32) < 0x100 ==> (blank(c) <==> c == '\u{85}' || c == '\u{a0}'),
        (c as u32) >= 0x100 ==> (blank(c) <==> c == '\u{1680}' || '\u{2000}' <= c <= '\u{200a}' || c
            == '\u{2028}' || c == '\u{2029}' || c == '\u{202f}' || c == '\u{205f}' || c
            == '\u{3000}'),
{
}

/// Trimming takes white space off the two ends, and nothing else: what is left does not begin or
/// end with white space, and all around it is white space.
pub proof fn law_trimming_takes_off_blanks(part: Seq<char>, whole: Seq<char>)
    requires
        is_trimmed(part, whole),
    ensures
        part.len() > 0 ==> !blank(part[0]) && !blank(part[part.len() - 1]),
        exists|before: Seq<char>, after: Seq<char>|
            {
                &&& whole == #[trigger] (before + part + after)
                &&& forall|i: int| 0 <= i < before.len() ==> blank(#[trigger] before[i])
                &&& forall|i: int| 0 <= i < after.len() ==> blank(#[trigger] after[i])
            },
        part.len() == 0 <==> (forall|i: int| 0 <= i < whole.len() ==> blank(#[trigger] whole[i])),
{
    let (from, to) = choose|from: int, to: int|
        {
            &&& 0 <= from <= to <= whole.len()
            &&& part == #[trigger] whole.subrange(from, to)
            &&& forall|i: int| 0 <= i < from ==> blank(#[trigger] whole[i])
            &&& forall|i: int| to <= i < whole.len() ==> blank(#[trigger] whole[i])
            &&& from < to ==> !blank(whole[from]) && !blank(whole[to - 1])
            &&& from == to ==> forall|i: int| 0 <= i < whole.len() ==> blank(#[trigger] whole[i])
        };
    let before = whole.take(from);
    let after = whole.skip(to);
    assert(whole =~= before + part + after);
    assert forall|i: int| 0 <= i < after.len() implies blank(#[trigger] after[i]) by {
        assert(after[i] == whole[to + i]);
    }
    if part.len() > 0 {
        assert(part[0] == whole[from]);
        assert(part[part.len() - 1] == whole[to - 1]);
    }
}

/// A text that begins and ends with other characters than white space, or is empty, is what is left
/// of it when white space is put around it and taken off again.
pub proof fn law_trimming_undoes_padding(before: Seq<char>, part: Seq<char>, after: Seq<char>)
    requires
        forall|i: int| 0 <= i < before.len() ==> blank(#[trigger] before[i]),
        forall|i: int| 0 <= i < after.len() ==> blank(#[trigger] after[i]),
        part.len() > 0 ==> !blank(part[0]) && !blank(part[part.len() - 1]),
    ensures
        is_trimmed(part, before + part + after),
        forall|other: Seq<char>| #[trigger]
            is_trimmed(other, before + part + after) ==> other == part,
{
    let whole = before + part + after;
    let start = before.len() as int;
    let end = start + part.len();
    assert(part =~= whole.subrange(start, end));
    assert forall|i: int| 0 <= i < whole.len() && !(start <= i < end) implies blank(
        #[trigger] whole[i],
    ) by {
        if i < start {
            assert(whole[i] == before[i]);
        } else {
            assert(whole[i] == after[i - end]);
        }
    }
    if start < end {
        assert(whole[start] == part[0] && whole[end - 1] == part[part.len() - 1]);
    }
    assert forall|other: Seq<char>| #[trigger] is_trimmed(other, whole) implies other == part by {
        let (from, to) = choose|from: int, to: int|
            {
                &&& 0 <= from <= to <= whole.len()
                &&& other == #[trigger] whole.subrange(from, to)
                &&& forall|i: int| 0 <= i < from ==> blank(#[trigger] whole[i])
                &&& forall|i: int| to <= i < whole.len() ==> blank(#[trigger] whole[i])
                &&& from < to ==> !blank(whole[from]) && !blank(whole[to - 1])
                &&& from == to ==> forall|i: int|
                    0 <= i < whole.len() ==> blank(#[trigger] whole[i])
            };
        if start < end {
            assert(!blank(whole[start]) && !blank(whole[end - 1]));
            assert(from == start && to == end);
        } else {
            assert(from == to);
            assert(other =~= part);
        }
    }
}

/// The first item of a text is what stands before its first comma, and all of it if it holds none.
pub proof fn law_first_item_ends_at_comma(part: Seq<char>, rest: Seq<char>)
    requires
        !part.contains(','),
    ensures
        is_first_item(part, part),
        is_first_item(part, part + seq![','] + rest),
        forall|other: Seq<char>| #[trigger]
            is_first_item(other, part + seq![','] + rest) ==> other == part,
        forall|other: Seq<char>| #[trigger] is_first_item(other, part) ==> other == part,
{
    let whole = part + seq![','] + rest;
    assert(part =~= part.take(part.len() as int));
    assert(part =~= whole.take(part.len() as int));
    assert(whole[part.len() as int] == ',');
    assert forall|other: Seq<char>| #[trigger] is_first_item(other, whole) implies other == part by {
        if other.len() < part.len() {
            assert(whole[other.len() as int] == part[other.len() as int]);
            assert(part.contains(part[other.len() as int]));
        }
        if other.len() > part.len() {
            assert(other[part.len() as int] == whole[part.len() as int]);
            assert(other.contains(other[part.len() as int]));
        }
    }
    assert forall|other: Seq<char>| #[trigger] is_first_item(other, part) implies other == part by {
        if other.len() < part.len() {
            assert(part.contains(part[other.len() as int]));
        }
    }
}

/// A text without colons and backslashes stands as it is.
pub proof fn law_plain_text_is_not_masked(text: Seq<char>)
    requires
        !text.contains(':'),
        !text.contains('\\'),
    ensures
        masked_chars(text) == text,
    decreases text.len(),
{
    if text.len() > 0 {
        let rest = text.drop_first();
        assert(text.contains(text[0]));
        assert forall|i: int| 0 <= i < rest.len() implies #[trigger] rest[i] != ':' && rest[i]
            != '\\' by {
            assert(rest[i] == text[i + 1]);
            assert(text.contains(text[i + 1]));
        }
        law_plain_text_is_not_masked(rest);
        assert(seq![text[0]] + rest =~= text);
    }
}

} // verus!
