//! The names of table files: the level, the time and a sequence number.
use vstd::prelude::*;
use vstd::string::{StrSliceExecFns, StringExecFns};

verus! {

/// The decimal digit of a number below ten.
pub open spec fn digit(d: nat) -> char {
    (48 + d) as char
}

/// A number in decimal digits.
pub open spec fn decimal(n: nat) -> Seq<char>
    decreases n,
{
    if n < 10 {
        seq![digit(n)]
    } else {
        decimal(n / 10).push(digit(n % 10))
    }
}

/// A number in decimal digits, with zeros before them up to a width.
pub open spec fn padded(n: nat, width: nat) -> Seq<char> {
    let digits = decimal(n);
    Seq::new(
        if digits.len() < width {
            (width - digits.len()) as nat
        } else {
            0
        },
        |i: int| '0',
    ) + digits
}

/// What follows the level in the name of a table file.
pub open spec fn name_tail(seconds: nat, sequence: nat) -> Seq<char> {
    seq!['_'] + padded(seconds, 10) + seq!['_'] + decimal(sequence) + seq!['.', 's', 's', 't']
}

/// The name of a table file.
pub open spec fn table_name(level: nat, seconds: nat, sequence: nat) -> Seq<char> {
    seq!['L'] + decimal(level) + name_tail(seconds, sequence)
}

/// Whether a character is a decimal digit.
pub open spec fn is_digit(c: char) -> bool {
    '0' <= c && c <= '9'
}

/// The number that decimal digits stand for.
pub open spec fn digits_value(s: Seq<char>) -> nat
    decreases s.len(),
{
    if s.len() == 0 {
        0
    } else {
        (digits_value(s.drop_last()) * 10 + (s.last() as int - 48)) as nat
    }
}

/// Whether all characters are decimal digits.
pub open spec fn all_digits(s: Seq<char>) -> bool {
    forall|i: int| 0 <= i < s.len() ==> is_digit(#[trigger] s[i])
}

/// The number that digits stand for, if they are digits and their number fits.
pub open spec fn digits_number(s: Seq<char>) -> Option<nat> {
    if s.len() > 0 && all_digits(s) && digits_value(s) <= usize::MAX {
        Some(digits_value(s))
    } else {
        None
    }
}

/// The number that a text stands for, with a plus sign before it or none, if there is such a
/// number and it fits.
pub open spec fn parsed_number(s: Seq<char>) -> Option<nat> {
    if s.len() > 0 && s[0] == '+' {
        digits_number(s.drop_first())
    } else {
        digits_number(s)
    }
}

/// How many characters stand before the first underscore, or at all.
pub open spec fn before_underscore(s: Seq<char>) -> nat
    decreases s.len(),
{
    if s.len() == 0 || s[0] == '_' {
        0
    } else {
        1 + before_underscore(s.drop_first())
    }
}

/// The level in a file name: the number between the letter at its front and the first underscore.
pub open spec fn level_of_name(name: Seq<char>) -> Option<nat> {
    let end = before_underscore(name);
    if name.len() > 0 && name[0] == 'L' && end < name.len() {
        parsed_number(name.subrange(1, end as int))
    } else {
        None
    }
}

/// Whether a file name ends in the extension of table files.
pub open spec fn is_table_name(name: Seq<char>) -> bool {
    name.len() > 4 && name.skip(name.len() - 4) == seq!['.', 's', 's', 't']
}

/// The decimal digit of a number below ten.
fn digit_text(d: u64) -> (r: &'static str)
    requires
        d < 10,
    ensures
        r@ == seq![digit(d as nat)],
{
    proof {
        reveal_strlit("0");
        reveal_strlit("1");
        reveal_strlit("2");
        reveal_strlit("3");
        reveal_strlit("4");
        reveal_strlit("5");
        reveal_strlit("6");
        reveal_strlit("7");
        reveal_strlit("8");
        reveal_strlit("9");
    }
    let r = if d == 0 {
        "0"
    } else if d == 1 {
        "1"
    } else if d == 2 {
        "2"
    } else if d == 3 {
        "3"
    } else if d == 4 {
        "4"
    } else if d == 5 {
        "5"
    } else if d == 6 {
        "6"
    } else if d == 7 {
        "7"
    } else if d == 8 {
        "8"
    } else {
        "9"
    };
    assert(r@ =~= seq![digit(d as nat)]);
    r
}

/// Writes a number in decimal digits.
pub fn push_decimal(out: &mut String, n: u64)
    ensures
        final(out)@ == old(out)@ + decimal(n as nat),
    decreases n,
{
    if n >= 10 {
        push_decimal(out, n / 10);
    }
    let ghost before = out@;
    out.append(digit_text(n % 10));
    assert(out@ =~= old(out)@ + decimal(n as nat));
}

/// Writes a number in decimal digits, with zeros before them up to a width.
pub fn push_padded(out: &mut String, n: u64, width: usize)
    ensures
        final(out)@ == old(out)@ + padded(n as nat, width as nat),
{
    let mut digits = String::new();
    push_decimal(&mut digits, n);
    assert(digits@ =~= decimal(n as nat));
    let len: usize = digits.as_str().unicode_len();
    let mut i: usize = len;
    proof {
        reveal_strlit("0");
    }
    while i < width
        invariant
            "0"@ == seq!['0'],
            len <= i,
            i <= width || i == len,
            out@ == old(out)@ + Seq::new((i - len) as nat, |k: int| '0'),
        decreases width - i,
    {
        let ghost before = out@;
        out.append("0");
        assert(out@ =~= old(out)@ + Seq::new((i + 1 - len) as nat, |k: int| '0'));
        i = i + 1;
    }
    out.append(digits.as_str());
    assert(out@ =~= old(out)@ + padded(n as nat, width as nat));
}

/// The name of a table file.
pub fn table_file_name(level: usize, seconds: u64, sequence: u64) -> (r: String)
    ensures
        r@ == table_name(level as nat, seconds as nat, sequence as nat),
{
    proof {
        reveal_strlit("L");
        reveal_strlit("_");
        reveal_strlit(".sst");
    }
    let mut name = String::new();
    name.append("L");
    push_decimal(&mut name, level as u64);
    name.append("_");
    push_padded(&mut name, seconds, 10);
    name.append("_");
    push_decimal(&mut name, sequence);
    name.append(".sst");
    assert("L"@ =~= seq!['L']);
    assert("_"@ =~= seq!['_']);
    assert(".sst"@ =~= seq!['.', 's', 's', 't']);
    assert(name@ =~= table_name(level as nat, seconds as nat, sequence as nat));
    name
}

proof fn lemma_before_underscore(s: Seq<char>, n: nat)
    requires
        n <= s.len(),
        forall|i: int| 0 <= i < n ==> #[trigger] s[i] != '_',
    ensures
        before_underscore(s) == n + before_underscore(s.skip(n as int)),
        before_underscore(s) <= s.len(),
    decreases s.len(),
{
    if n > 0 {
        let t = s.drop_first();
        assert forall|i: int| 0 <= i < n - 1 implies #[trigger] t[i] != '_' by {
            assert(t[i] == s[i + 1]);
        }
        lemma_before_underscore(t, (n - 1) as nat);
        assert(t.skip(n - 1) =~= s.skip(n as int));
        assert(s[0] != '_');
    } else {
        assert(s.skip(0) =~= s);
        if s.len() > 0 && s[0] != '_' {
            lemma_before_underscore(s.drop_first(), 0);
        }
    }
}

/// A prefix of digits stands for no larger number.
proof fn lemma_digits_prefix(s: Seq<char>, n: int)
    requires
        0 <= n <= s.len(),
        all_digits(s),
    ensures
        digits_value(s.take(n)) <= digits_value(s),
    decreases s.len(),
{
    if n < s.len() {
        let t = s.drop_last();
        assert(all_digits(t)) by {
            assert forall|i: int| 0 <= i < t.len() implies is_digit(#[trigger] t[i]) by {
                assert(is_digit(s[i]));
            }
        }
        lemma_digits_prefix(t, n);
        assert(t.take(n) =~= s.take(n));
        assert(is_digit(s[s.len() - 1]));
    } else {
        assert(s.take(n) =~= s);
    }
}

/// The level in a file name.
pub fn parse_level_from_filename(filename: &str) -> (r: Option<usize>)
    ensures
        match r {
            Some(level) => level_of_name(filename@) == Some(level as nat),
            None => level_of_name(filename@) is None,
        },
{
    let len: usize = filename.unicode_len();
    if len == 0 || filename.get_char(0) != 'L' {
        return None;
    }
    let mut end: usize = 0;
    while end < len && filename.get_char(end) != '_'
        invariant
            len == filename@.len(),
            end <= len,
            forall|i: int| 0 <= i < end ==> #[trigger] filename@[i] != '_',
        decreases len - end,
    {
        end = end + 1;
    }
    proof {
        lemma_before_underscore(filename@, end as nat);
        assert(before_underscore(filename@) == end);
    }
    if end >= len {
        return None;
    }
    assert(end >= 1) by {
        if end == 0 {
            assert(filename@[0] == '_');
        }
    }
    let ghost text = filename@.subrange(1, end as int);
    if 1 < end && filename.get_char(1) == '+' {
        assert(text[0] == filename@[1]);
        assert(text.drop_first() =~= filename@.subrange(2, end as int));
        parse_digits(filename, 2, end)
    } else {
        if 1 < end {
            assert(text[0] == filename@[1]);
        }
        parse_digits(filename, 1, end)
    }
}

/// The number that the digits between two indices stand for.
fn parse_digits(text: &str, begin: usize, end: usize) -> (r: Option<usize>)
    requires
        begin <= end <= text@.len(),
    ensures
        match r {
            Some(n) => digits_number(text@.subrange(begin as int, end as int)) == Some(n as nat),
            None => digits_number(text@.subrange(begin as int, end as int)) is None,
        },
{
    let ghost digits = text@.subrange(begin as int, end as int);
    if begin == end {
        return None;
    }
    let mut value: usize = 0;
    let mut i: usize = begin;
    assert(digits.take(0) =~= Seq::empty());
    while i < end
        invariant
            begin <= i <= end <= text@.len(),
            begin < end,
            digits == text@.subrange(begin as int, end as int),
            forall|k: int| 0 <= k < i - begin ==> is_digit(#[trigger] digits[k]),
            value == digits_value(digits.take(i - begin)),
        decreases end - i,
    {
        let c: char = text.get_char(i);
        assert(c == digits[i - begin]);
        if c < '0' || '9' < c {
            assert(!is_digit(digits[i - begin]));
            return None;
        }
        let d: usize = (c as u32 - 48) as usize;
        proof {
            let p = digits.take(i - begin + 1);
            assert(p.drop_last() =~= digits.take(i - begin));
            assert(p.last() == c);
            if all_digits(digits) {
                lemma_digits_prefix(digits, i - begin + 1);
            }
        }
        if value > usize::MAX / 10 {
            return None;
        }
        if value * 10 > usize::MAX - d {
            return None;
        }
        value = value * 10 + d;
        i = i + 1;
    }
    assert(digits.take(end - begin) =~= digits);
    Some(value)
}

/// Whether a file name ends in the extension of table files.
pub fn has_table_extension(name: &str) -> (r: bool)
    ensures
        r == is_table_name(name@),
{
    let len: usize = name.unicode_len();
    if len <= 4 {
        return false;
    }
    let ghost end = name@.skip(len - 4);
    let r: bool = name.get_char(len - 4) == '.' && name.get_char(len - 3) == 's' && name.get_char(
        len - 2,
    ) == 's' && name.get_char(len - 1) == 't';
    proof {
        let want = seq!['.', 's', 's', 't'];
        assert(end[0] == name@[len - 4] && end[1] == name@[len - 3] && end[2] == name@[len - 2]
            && end[3] == name@[len - 1]);
        if r {
            assert(end =~= want);
        } else if end == want {
            assert(want[0] == '.' && want[1] == 's' && want[2] == 's' && want[3] == 't');
        }
    }
    r
}

proof fn lemma_decimal(n: nat)
    ensures
        decimal(n).len() > 0,
        all_digits(decimal(n)),
        digits_value(decimal(n)) == n,
    decreases n,
{
    let s = decimal(n);
    if n < 10 {
        assert(s.drop_last() =~= Seq::empty());
        assert(digits_value(s.drop_last()) == 0);
        assert(s.last() as int == 48 + n);
    } else {
        lemma_decimal(n / 10);
        assert(s.drop_last() =~= decimal(n / 10));
        assert(s.last() as int == 48 + n % 10);
    }
}

/// Law: the name of a table file has the extension of table files, and its level is read back from
/// it.
pub proof fn law_level_is_read_back(level: usize, seconds: u64, sequence: u64)
    ensures
        ({
            let name = table_name(level as nat, seconds as nat, sequence as nat);
            &&& level_of_name(name) == Some(level as nat)
            &&& is_table_name(name)
        }),
{
    let name = table_name(level as nat, seconds as nat, sequence as nat);
    let digits = decimal(level as nat);
    let tail = name_tail(seconds as nat, sequence as nat);
    lemma_decimal(level as nat);
    let n = (1 + digits.len()) as nat;
    assert forall|i: int| 0 <= i < n implies #[trigger] name[i] != '_' by {
        if i > 0 {
            assert(name[i] == digits[i - 1]);
            assert(is_digit(digits[i - 1]));
        }
    }
    assert(tail[0] == '_');
    assert(name[n as int] == '_');
    lemma_before_underscore(name, n);
    assert(name.skip(n as int)[0] == '_');
    assert(name.subrange(1, n as int) =~= digits);
    assert(is_digit(digits[0]));
    assert(name.skip(name.len() - 4) =~= seq!['.', 's', 's', 't']);
}

/// Law: the digits of a number are those of its tens, and the one of its ones behind them.
pub proof fn law_digits_are_those_of_the_tens(n: nat, ones: nat)
    requires
        ones < 10,
    ensures
        decimal(ones) == seq![(48 + ones) as char],
        n > 0 ==> decimal(10 * n + ones) == decimal(n).push((48 + ones) as char),
{
    assert((10 * n + ones) / 10 == n && (10 * n + ones) % 10 == ones);
}

/// Law: zeros fill a number up to its width, and no more.
pub proof fn law_zeros_fill_up(n: nat, width: nat)
    ensures
        ({
            let s = padded(n, width);
            let zeros = s.len() - decimal(n).len();
            &&& s.len() >= width
            &&& 0 <= zeros
            &&& zeros == 0 || s.len() == width
            &&& s.skip(zeros) == decimal(n)
            &&& forall|i: int| 0 <= i < zeros ==> #[trigger] s[i] == '0'
        }),
{
    let s = padded(n, width);
    assert(s.skip(s.len() - decimal(n).len()) =~= decimal(n));
}

/// Law: a name is that of a table file exactly where something stands before the extension.
pub proof fn law_extension_makes_a_table_file(stem: Seq<char>, name: Seq<char>)
    ensures
        is_table_name(stem + ".sst"@) <==> stem.len() > 0,
        is_table_name(name) ==> name == name.take(name.len() - 4) + ".sst"@,
{
    reveal_strlit(".sst");
    assert(".sst"@ =~= seq!['.', 's', 's', 't']);
    let whole = stem + ".sst"@;
    assert(whole.skip(whole.len() - 4) =~= seq!['.', 's', 's', 't']);
    if is_table_name(name) {
        assert(name =~= name.take(name.len() - 4) + name.skip(name.len() - 4));
    }
}

/// Law: the level of a file is the number that the digits between its first letter and the first
/// underscore make, whatever follows: one digit makes its own number, and one more digit makes ten
/// times the number and the digit.
pub proof fn law_level_is_read_digit_by_digit(
    digits: Seq<char>,
    more: char,
    rest: Seq<char>,
    level: nat,
)
    requires
        forall|i: int| 0 <= i < digits.len() ==> '0' <= #[trigger] digits[i] <= '9',
        '0' <= more <= '9',
    ensures
        level_of_name("L"@ + seq![more] + "_"@ + rest) == Some((more as int - 48) as nat),
        level_of_name("L"@ + digits + "_"@ + rest) == Some(level) && level * 10 + (more as int
            - 48) <= usize::MAX ==> level_of_name("L"@ + digits.push(more) + "_"@ + rest) == Some(
            (level * 10 + (more as int - 48)) as nat,
        ),
{
    reveal_strlit("L");
    reveal_strlit("_");
    lemma_name_of_digits(seq![more], rest);
    lemma_name_of_digits(digits, rest);
    assert forall|i: int| 0 <= i < digits.push(more).len() implies is_digit(
        #[trigger] digits.push(more)[i],
    ) by {
        if i < digits.len() {
            assert('0' <= digits[i] <= '9');
        }
    }
    lemma_name_of_digits(digits.push(more), rest);
    assert(digits.push(more).drop_last() =~= digits);
    assert(seq![more].drop_last() =~= Seq::empty());
    reveal_with_fuel(digits_value, 2);
    assert(digits_value(seq![more]) == (more as int - 48) as nat);
}

/// The level of a file whose name has digits before the first underscore.
proof fn lemma_name_of_digits(digits: Seq<char>, rest: Seq<char>)
    requires
        forall|i: int| 0 <= i < digits.len() ==> is_digit(#[trigger] digits[i]),
    ensures
        level_of_name("L"@ + digits + "_"@ + rest) == digits_number(digits),
{
    reveal_strlit("L");
    reveal_strlit("_");
    let name = "L"@ + digits + "_"@ + rest;
    let n = (1 + digits.len()) as nat;
    assert forall|i: int| 0 <= i < n implies #[trigger] name[i] != '_' by {
        if i > 0 {
            assert(name[i] == digits[i - 1]);
            assert(is_digit(digits[i - 1]));
        }
    }
    assert(name[n as int] == '_');
    lemma_before_underscore(name, n);
    assert(name.skip(n as int)[0] == '_');
    assert(name.subrange(1, n as int) =~= digits);
    assert(name[0] == 'L');
    if digits.len() > 0 {
        assert(is_digit(digits[0]));
    }
}

/// Law: a file has no level where its name does not begin with the letter, or has no underscore.
pub proof fn law_other_names_have_no_level(name: Seq<char>)
    ensures
        name.len() == 0 || name[0] != 'L' ==> level_of_name(name) is None,
        (forall|i: int| 0 <= i < name.len() ==> #[trigger] name[i] != '_') ==> level_of_name(name)
            is None,
{
    if forall|i: int| 0 <= i < name.len() ==> #[trigger] name[i] != '_' {
        lemma_before_underscore(name, name.len());
        assert(name.skip(name.len() as int) =~= Seq::empty());
    }
}

/// Law: no two tables have one name: the level, the time and the number are all in it.
pub proof fn law_names_differ(
    level: usize,
    seconds: u64,
    sequence: u64,
    other_level: usize,
    other_seconds: u64,
    other_sequence: u64,
)
    requires
        table_name(level as nat, seconds as nat, sequence as nat) == table_name(
            other_level as nat,
            other_seconds as nat,
            other_sequence as nat,
        ),
    ensures
        level == other_level,
        seconds == other_seconds,
        sequence == other_sequence,
{
    law_level_is_read_back(level, seconds, sequence);
    law_level_is_read_back(other_level, other_seconds, other_sequence);
    let head = seq!['L'] + decimal(level as nat);
    let a = name_tail(seconds as nat, sequence as nat);
    let b = name_tail(other_seconds as nat, other_sequence as nat);
    assert((head + a).skip(head.len() as int) =~= a);
    assert((head + b).skip(head.len() as int) =~= b);
    let x = a.drop_first();
    let y = b.drop_first();
    let p = padded(seconds as nat, 10);
    let q = padded(other_seconds as nat, 10);
    lemma_padded(seconds as nat, 10);
    lemma_padded(other_seconds as nat, 10);
    lemma_decimal(sequence as nat);
    lemma_decimal(other_sequence as nat);
    assert forall|i: int| 0 <= i < p.len() implies #[trigger] x[i] != '_' by {
        assert(x[i] == p[i]);
        assert(is_digit(p[i]));
    }
    assert forall|i: int| 0 <= i < q.len() implies #[trigger] y[i] != '_' by {
        assert(y[i] == q[i]);
        assert(is_digit(q[i]));
    }
    lemma_before_underscore(x, p.len());
    lemma_before_underscore(y, q.len());
    assert(x.skip(p.len() as int)[0] == x[p.len() as int]);
    assert(y.skip(q.len() as int)[0] == y[q.len() as int]);
    assert(x[p.len() as int] == '_' && y[q.len() as int] == '_');
    assert(p.len() == q.len());
    assert(x.take(p.len() as int) =~= p);
    assert(y.take(q.len() as int) =~= q);
    let d = decimal(sequence as nat);
    let e = decimal(other_sequence as nat);
    let from = p.len() as int + 1;
    assert(x.len() == p.len() + 1 + d.len() + 4);
    assert(y.len() == q.len() + 1 + e.len() + 4);
    assert(x.subrange(from, x.len() - 4) =~= d);
    assert(y.subrange(from, y.len() - 4) =~= e);
}

proof fn lemma_padded(n: nat, width: nat)
    ensures
        all_digits(padded(n, width)),
        digits_value(padded(n, width)) == n,
{
    lemma_decimal(n);
    let digits = decimal(n);
    let s = padded(n, width);
    let zeros = s.len() - digits.len();
    assert forall|i: int| 0 <= i < s.len() implies is_digit(#[trigger] s[i]) by {
        if i >= zeros {
            assert(s[i] == digits[i - zeros]);
        }
    }
    lemma_leading_zeros(zeros as nat, digits);
    assert(s =~= Seq::new(zeros as nat, |i: int| '0') + digits);
}

proof fn lemma_leading_zeros(zeros: nat, digits: Seq<char>)
    ensures
        digits_value(Seq::new(zeros, |i: int| '0') + digits) == digits_value(digits),
    decreases zeros + digits.len(),
{
    let z = Seq::new(zeros, |i: int| '0');
    if digits.len() > 0 {
        lemma_leading_zeros(zeros, digits.drop_last());
        assert((z + digits).drop_last() =~= z + digits.drop_last());
    } else if zeros > 0 {
        lemma_leading_zeros((zeros - 1) as nat, digits);
        assert((z + digits).drop_last() =~= Seq::new((zeros - 1) as nat, |i: int| '0') + digits);
        assert((z + digits).last() == '0');
    } else {
        assert(z + digits =~= digits);
    }
}

/// Law: the name of a table file is a letter, its level, its time in ten digits at least and its
/// number, with underscores between them, and the extension.
pub proof fn law_name_has_its_parts(level: nat, seconds: nat, sequence: nat)
    ensures
        table_name(level, seconds, sequence) == "L"@ + decimal(level) + "_"@ + padded(seconds, 10)
            + "_"@ + decimal(sequence) + ".sst"@,
{
    reveal_strlit("L");
    reveal_strlit("_");
    reveal_strlit(".sst");
    assert("L"@ =~= seq!['L']);
    assert("_"@ =~= seq!['_']);
    assert(".sst"@ =~= seq!['.', 's', 's', 't']);
    assert(table_name(level, seconds, sequence) =~= "L"@ + decimal(level) + "_"@ + padded(
        seconds,
        10,
    ) + "_"@ + decimal(sequence) + ".sst"@);
}

/// Law: a plus sign before the digits changes nothing; what has no digits, or anything else among
/// them, is no level.
pub proof fn law_only_digits_make_a_level(digits: Seq<char>, rest: Seq<char>, i: int)
    requires
        forall|j: int| 0 <= j < digits.len() ==> #[trigger] digits[j] != '_',
    ensures
        digits.len() == 0 ==> level_of_name("L"@ + digits + "_"@ + rest) is None,
        0 < i < digits.len() && !('0' <= digits[i] <= '9') ==> level_of_name(
            "L"@ + digits + "_"@ + rest,
        ) is None,
        digits.len() > 0 && !('0' <= digits[0] <= '9') && digits[0] != '+' ==> level_of_name(
            "L"@ + digits + "_"@ + rest,
        ) is None,
        (forall|j: int| 0 <= j < digits.len() ==> '0' <= #[trigger] digits[j] <= '9')
            ==> level_of_name("L"@ + (seq!['+'] + digits) + "_"@ + rest) == level_of_name(
            "L"@ + digits + "_"@ + rest,
        ),
{
    lemma_name_of_text(digits, rest);
    let signed = seq!['+'] + digits;
    assert forall|j: int| 0 <= j < signed.len() implies #[trigger] signed[j] != '_' by {
        if j > 0 {
            assert(signed[j] == digits[j - 1]);
        }
    }
    lemma_name_of_text(signed, rest);
    assert(signed.drop_first() =~= digits);
    if 0 < i < digits.len() && !('0' <= digits[i] <= '9') {
        assert(!is_digit(digits[i]));
        assert(digits.drop_first()[i - 1] == digits[i]);
        assert(!all_digits(digits.drop_first()));
        assert(!all_digits(digits));
    }
    if digits.len() > 0 && !('0' <= digits[0] <= '9') {
        assert(!is_digit(digits[0]));
        assert(!all_digits(digits));
    }
}

proof fn lemma_name_of_text(text: Seq<char>, rest: Seq<char>)
    requires
        forall|i: int| 0 <= i < text.len() ==> #[trigger] text[i] != '_',
    ensures
        level_of_name("L"@ + text + "_"@ + rest) == parsed_number(text),
{
    reveal_strlit("L");
    reveal_strlit("_");
    let name = "L"@ + text + "_"@ + rest;
    let n = (1 + text.len()) as nat;
    assert forall|i: int| 0 <= i < n implies #[trigger] name[i] != '_' by {
        if i > 0 {
            assert(name[i] == text[i - 1]);
        }
    }
    assert(name[n as int] == '_');
    lemma_before_underscore(name, n);
    assert(name.skip(n as int)[0] == '_');
    assert(name.subrange(1, n as int) =~= text);
    assert(name[0] == 'L');
}

} // verus!
