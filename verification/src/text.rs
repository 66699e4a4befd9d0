//! Text handling shared by the other modules: decimal figures, trimming,
//! splitting, joining and comparing.
use vstd::prelude::*;
use vstd::string::*;

verus! {

/// `String::push` appends the given character to the end of the string.
pub assume_specification[ String::push ](s: &mut String, c: char)
    ensures
        final(s)@ == old(s)@.push(c),
;

/// The views of a list of strings.
pub open spec fn texts(v: Seq<String>) -> Seq<Seq<char>> {
    Seq::new(v.len(), |i: int| v[i]@)
}

/// A text that may be missing.
pub open spec fn known_text(x: Option<String>) -> Option<Seq<char>> {
    match x {
        Some(s) => Some(s@),
        None => None,
    }
}

/// A copy of a text that may be missing.
pub fn copy_text(x: &Option<String>) -> (r: Option<String>)
    ensures
        known_text(r) == known_text(*x),
{
    match x {
        Some(s) => Some(s.clone()),
        None => None,
    }
}

/// Whether two texts that may be missing are the same.
pub fn same_known(a: &Option<String>, b: &Option<String>) -> (r: bool)
    ensures
        r == (known_text(*a) == known_text(*b)),
{
    match (a, b) {
        (Some(x), Some(y)) => same_text(x.as_str(), y.as_str()),
        (None, None) => true,
        _ => false,
    }
}

/// The decimal digit of value `d`.
pub open spec fn digit_char(d: int) -> char {
    (48 + d) as char
}

/// The decimal digits of `n`, without leading zeros.
pub open spec fn decimal(n: nat) -> Seq<char>
    decreases n,
{
    if n < 10 {
        seq![digit_char(n as int)]
    } else {
        decimal(n / 10).push(digit_char((n % 10) as int))
    }
}

/// The decimal form of a signed number: a minus sign before negative ones.
pub open spec fn signed_decimal(n: int) -> Seq<char> {
    if n < 0 {
        seq!['-'] + decimal((-n) as nat)
    } else {
        decimal(n as nat)
    }
}

/// The last `width` decimal digits of `n`, leading zeros kept.
pub open spec fn zero_padded(n: nat, width: nat) -> Seq<char>
    decreases width,
{
    if width == 0 {
        Seq::empty()
    } else {
        zero_padded(n / 10, (width - 1) as nat).push(digit_char((n % 10) as int))
    }
}

/// The two-digit form of a number, wider when the number is.
pub open spec fn at_least_two_digits(n: nat) -> Seq<char> {
    if n < 10 {
        seq!['0', digit_char(n as int)]
    } else {
        decimal(n)
    }
}

fn digit(d: u64) -> (c: char)
    requires
        d < 10,
    ensures
        c == digit_char(d as int),
{
    match d {
        0 => '0',
        1 => '1',
        2 => '2',
        3 => '3',
        4 => '4',
        5 => '5',
        6 => '6',
        7 => '7',
        8 => '8',
        _ => '9',
    }
}

/// The decimal form of `n`.
pub fn decimal_text(n: u64) -> (r: String)
    ensures
        r@ == decimal(n as nat),
    decreases n,
{
    let mut s: String = if n < 10 {
        String::new()
    } else {
        decimal_text(n / 10)
    };
    s.push(digit(n % 10));
    s
}

/// The decimal form of `n`, with a minus sign where it is negative.
pub fn signed_decimal_text(n: i64) -> (r: String)
    ensures
        r@ == signed_decimal(n as int),
{
    if n == i64::MIN {
        let mut s: String = String::new();
        s.push('-');
        let digits = decimal_text(0x8000_0000_0000_0000);
        s.append(digits.as_str());
        s
    } else if n < 0 {
        let mut s: String = String::new();
        s.push('-');
        let digits = decimal_text((0 - n) as u64);
        s.append(digits.as_str());
        s
    } else {
        decimal_text(n as u64)
    }
}

/// The decimal form of `n`, a leading zero added to a single digit.
pub fn at_least_two_digits_text(n: u64) -> (r: String)
    ensures
        r@ == at_least_two_digits(n as nat),
{
    if n < 10 {
        let mut s: String = String::new();
        s.push('0');
        s.push(digit(n));
        s
    } else {
        decimal_text(n)
    }
}

/// Whether two texts hold the same characters.
pub fn same_text(a: &str, b: &str) -> (r: bool)
    ensures
        r == (a@ == b@),
{
    a.to_owned() == b.to_owned()
}

/// Whether a list of texts holds `x`.
pub fn holds_text(list: &Vec<String>, x: &str) -> (r: bool)
    ensures
        r == texts(list@).contains(x@),
{
    let mut i: usize = 0;
    while i < list.len()
        invariant
            i <= list@.len(),
            forall|k: int| 0 <= k < i ==> #[trigger] list@[k]@ != x@,
        decreases list@.len() - i,
    {
        if same_text(list[i].as_str(), x) {
            proof {
                assert(texts(list@)[i as int] == x@);
            }
            return true;
        }
        i += 1;
    }
    proof {
        assert forall|k: int| 0 <= k < texts(list@).len() implies texts(list@)[k] != x@ by {
            assert(list@[k]@ != x@);
        }
    }
    false
}

/// The characters of a text.
pub fn chars_of(s: &str) -> (r: Vec<char>)
    ensures
        r@ == s@,
{
    let mut out: Vec<char> = Vec::new();
    for x in it: s.chars()
        invariant
            it.seq() == s@,
            out@ == s@.take(it.index() as int),
    {
        proof {
            let k = it.index() as int;
            assert(s@.take(k + 1) =~= s@.take(k).push(x));
        }
        out.push(x);
    }
    proof {
        assert(s@.take(s@.len() as int) =~= s@);
    }
    out
}

/// The text made of the characters from `from` up to `to`.
fn text_of(chars: &Vec<char>, from: usize, to: usize) -> (r: String)
    requires
        from <= to <= chars@.len(),
    ensures
        r@ == chars@.subrange(from as int, to as int),
{
    let mut out = String::new();
    let mut i: usize = from;
    while i < to
        invariant
            from <= i <= to <= chars@.len(),
            out@ == chars@.subrange(from as int, i as int),
        decreases to - i,
    {
        out.push(chars[i]);
        proof {
            assert(chars@.subrange(from as int, i + 1) =~= chars@.subrange(
                from as int,
                i as int,
            ).push(chars@[i as int]));
        }
        i += 1;
    }
    out
}

/// Whether `s` begins with `prefix`.
pub fn begins_with(s: &str, prefix: &str) -> (r: bool)
    ensures
        r == prefix@.is_prefix_of(s@),
{
    let a = chars_of(s);
    let b = chars_of(prefix);
    if b.len() > a.len() {
        return false;
    }
    let mut i: usize = 0;
    while i < b.len()
        invariant
            a@ == s@,
            b@ == prefix@,
            i <= b@.len() <= a@.len(),
            forall|k: int| 0 <= k < i ==> a@[k] == b@[k],
        decreases b@.len() - i,
    {
        if a[i] != b[i] {
            proof {
                assert(prefix@[i as int] != s@.subrange(0, prefix@.len() as int)[i as int]);
            }
            return false;
        }
        i += 1;
    }
    proof {
        assert(prefix@ =~= s@.subrange(0, prefix@.len() as int));
    }
    true
}

/// `s` without its leading characters `c`.
pub open spec fn trim_front(s: Seq<char>, c: char) -> Seq<char>
    decreases s.len(),
{
    if s.len() > 0 && s[0] == c {
        trim_front(s.subrange(1, s.len() as int), c)
    } else {
        s
    }
}

/// `s` without its trailing characters `c`.
pub open spec fn trim_back(s: Seq<char>, c: char) -> Seq<char>
    decreases s.len(),
{
    if s.len() > 0 && s.last() == c {
        trim_back(s.drop_last(), c)
    } else {
        s
    }
}

/// `s` without the characters `c` at its two ends.
pub open spec fn trimmed(s: Seq<char>, c: char) -> Seq<char> {
    trim_back(trim_front(s, c), c)
}

/// The text without the double quotes at its two ends.
pub fn unquote(s: &str) -> (r: String)
    ensures
        r@ == trimmed(s@, '"'),
{
    let chars = chars_of(s);
    let n: usize = chars.len();
    let mut from: usize = 0;
    proof {
        assert(s@.subrange(0, n as int) =~= s@);
    }
    while from < n && chars[from] == '"'
        invariant
            chars@ == s@,
            n == s@.len(),
            from <= n,
            trim_front(s@.subrange(from as int, n as int), '"') == trim_front(s@, '"'),
        decreases n - from,
    {
        proof {
            let t = s@.subrange(from as int, n as int);
            assert(t.subrange(1, t.len() as int) =~= s@.subrange(from + 1, n as int));
        }
        from += 1;
    }
    let ghost front = s@.subrange(from as int, n as int);
    proof {
        assert(trim_front(front, '"') == front);
    }
    let mut to: usize = n;
    while to > from && chars[to - 1] == '"'
        invariant
            chars@ == s@,
            n == s@.len(),
            from <= to <= n,
            front == s@.subrange(from as int, n as int),
            trim_back(s@.subrange(from as int, to as int), '"') == trim_back(front, '"'),
        decreases to,
    {
        proof {
            let t = s@.subrange(from as int, to as int);
            assert(t.drop_last() =~= s@.subrange(from as int, to - 1));
        }
        to -= 1;
    }
    text_of(&chars, from, to)
}

/// `s` with every `c` taken out.
pub open spec fn without(s: Seq<char>, c: char) -> Seq<char>
    decreases s.len(),
{
    if s.len() == 0 {
        s
    } else if s.last() == c {
        without(s.drop_last(), c)
    } else {
        without(s.drop_last(), c).push(s.last())
    }
}

/// The text with every `c` taken out.
pub fn remove_char(s: &str, c: char) -> (r: String)
    ensures
        r@ == without(s@, c),
{
    let mut out = String::new();
    for x in it: s.chars()
        invariant
            it.seq() == s@,
            out@ == without(s@.take(it.index() as int), c),
    {
        proof {
            let k = it.index() as int;
            assert(s@.take(k + 1).drop_last() =~= s@.take(k));
        }
        if x != c {
            out.push(x);
        }
    }
    proof {
        assert(s@.take(s@.len() as int) =~= s@);
    }
    out
}

/// `s` with every `c` written twice.
pub open spec fn doubled(s: Seq<char>, c: char) -> Seq<char>
    decreases s.len(),
{
    if s.len() == 0 {
        s
    } else if s.last() == c {
        doubled(s.drop_last(), c).push(c).push(c)
    } else {
        doubled(s.drop_last(), c).push(s.last())
    }
}

/// The text with every single quote written twice.
pub fn escape_quotes(s: &str) -> (r: String)
    ensures
        r@ == doubled(s@, '\''),
{
    let mut out = String::new();
    for x in it: s.chars()
        invariant
            it.seq() == s@,
            out@ == doubled(s@.take(it.index() as int), '\''),
    {
        proof {
            let k = it.index() as int;
            assert(s@.take(k + 1).drop_last() =~= s@.take(k));
        }
        out.push(x);
        if x == '\'' {
            out.push('\'');
        }
    }
    proof {
        assert(s@.take(s@.len() as int) =~= s@);
    }
    out
}

/// The parts of `s` between the characters `c`; one part more than `s` holds
/// such characters.
pub open spec fn split(s: Seq<char>, c: char) -> Seq<Seq<char>>
    decreases s.len(),
{
    if s.len() == 0 {
        seq![Seq::empty()]
    } else {
        let before = split(s.drop_last(), c);
        if s.last() == c {
            before.push(Seq::empty())
        } else {
            before.drop_last().push(before.last().push(s.last()))
        }
    }
}

/// The parts of the text between the characters `c`.
pub fn split_text(s: &str, c: char) -> (r: Vec<String>)
    ensures
        texts(r@) == split(s@, c),
{
    let mut done: Vec<String> = Vec::new();
    let mut part = String::new();
    proof {
        assert(texts(done@).push(part@) =~= split(s@.take(0), c));
    }
    for x in it: s.chars()
        invariant
            it.seq() == s@,
            texts(done@).push(part@) == split(s@.take(it.index() as int), c),
    {
        let ghost before = texts(done@).push(part@);
        proof {
            let k = it.index() as int;
            assert(s@.take(k + 1).drop_last() =~= s@.take(k));
            assert(before.drop_last() =~= texts(done@));
        }
        if x == c {
            done.push(part);
            part = String::new();
            proof {
                assert(texts(done@) =~= before);
            }
        } else {
            part.push(x);
        }
    }
    let ghost all = texts(done@).push(part@);
    done.push(part);
    proof {
        assert(s@.take(s@.len() as int) =~= s@);
        assert(texts(done@) =~= all);
    }
    done
}

/// The parts one after the other, `sep` between each two.
pub open spec fn joined(parts: Seq<Seq<char>>, sep: Seq<char>) -> Seq<char>
    decreases parts.len(),
{
    if parts.len() == 0 {
        Seq::empty()
    } else if parts.len() == 1 {
        parts[0]
    } else {
        joined(parts.drop_last(), sep) + sep + parts.last()
    }
}

/// The texts one after the other, `sep` between each two.
pub fn join(parts: &Vec<String>, sep: &str) -> (r: String)
    ensures
        r@ == joined(texts(parts@), sep@),
{
    let mut out = String::new();
    let mut i: usize = 0;
    while i < parts.len()
        invariant
            i <= parts@.len(),
            out@ == joined(texts(parts@).take(i as int), sep@),
        decreases parts@.len() - i,
    {
        let ghost before = out@;
        if i > 0 {
            out.append(sep);
        }
        out.append(parts[i].as_str());
        proof {
            let t = texts(parts@).take(i + 1);
            assert(t.drop_last() =~= texts(parts@).take(i as int));
            assert(t.last() == parts@[i as int]@);
            if i == 0 {
                assert(before =~= Seq::empty());
                assert(out@ =~= t[0]);
            }
        }
        i += 1;
    }
    proof {
        assert(texts(parts@).take(parts@.len() as int) =~= texts(parts@));
    }
    out
}

/// The order of texts by their first differing character.
pub open spec fn text_before(a: Seq<char>, b: Seq<char>) -> bool
    decreases b.len(),
{
    if b.len() == 0 {
        false
    } else if a.len() == 0 {
        true
    } else {
        a[0] < b[0] || (a[0] == b[0] && text_before(
            a.subrange(1, a.len() as int),
            b.subrange(1, b.len() as int),
        ))
    }
}

/// Whether `a` comes before `b` in the order of their first differing
/// character.
pub fn comes_before(a: &str, b: &str) -> (r: bool)
    ensures
        r == text_before(a@, b@),
{
    let x = chars_of(a);
    let y = chars_of(b);
    let mut i: usize = 0;
    proof {
        assert(a@.subrange(0, a@.len() as int) =~= a@);
        assert(b@.subrange(0, b@.len() as int) =~= b@);
    }
    while i < x.len() && i < y.len()
        invariant
            x@ == a@,
            y@ == b@,
            i <= x@.len(),
            i <= y@.len(),
            text_before(a@, b@) == text_before(
                a@.subrange(i as int, a@.len() as int),
                b@.subrange(i as int, b@.len() as int),
            ),
        decreases x@.len() - i,
    {
        let ghost s = a@.subrange(i as int, a@.len() as int);
        let ghost t = b@.subrange(i as int, b@.len() as int);
        proof {
            assert(s.subrange(1, s.len() as int) =~= a@.subrange(i + 1, a@.len() as int));
            assert(t.subrange(1, t.len() as int) =~= b@.subrange(i + 1, b@.len() as int));
        }
        if x[i] < y[i] {
            return true;
        }
        if x[i] > y[i] {
            return false;
        }
        i += 1;
    }
    i < y.len()
}

/// The order of texts is total: no text comes before itself, of two that differ
/// one comes before the other, and the order is transitive.
pub proof fn law_text_order(a: Seq<char>, b: Seq<char>, c: Seq<char>)
    ensures
        !text_before(a, a),
        text_before(a, b) || text_before(b, a) || a == b,
        !(text_before(a, b) && text_before(b, a)),
        text_before(a, b) && text_before(b, c) ==> text_before(a, c),
    decreases a.len(),
{
    if a.len() > 0 {
        let x = a.subrange(1, a.len() as int);
        law_text_order(x, x, x);
    }
    if a.len() > 0 && b.len() > 0 {
        let x = a.subrange(1, a.len() as int);
        let y = b.subrange(1, b.len() as int);
        law_text_order(x, y, y);
        if a[0] == b[0] && x == y {
            assert(a =~= seq![a[0]] + x);
            assert(b =~= seq![b[0]] + y);
        }
        if c.len() > 0 {
            law_text_order(x, y, c.subrange(1, c.len() as int));
        }
    }
    if a.len() == 0 && b.len() == 0 {
        assert(a =~= b);
    }
}

/// The number that decimal digits stand for.
pub open spec fn value_of(digits: Seq<char>) -> int
    decreases digits.len(),
{
    if digits.len() == 0 {
        0
    } else {
        10 * value_of(digits.drop_last()) + (digits.last() as int - '0' as int)
    }
}

/// The decimal form of a number reads back as the number, holds digits only,
/// and does not begin with a zero unless it is that of zero.
pub proof fn law_decimal_reads_back(n: nat)
    ensures
        value_of(decimal(n)) == n,
        decimal(n).len() > 0,
        forall|i: int| 0 <= i < decimal(n).len() ==> '0' <= #[trigger] decimal(n)[i] <= '9',
        n > 0 ==> decimal(n)[0] != '0',
        n == 0 ==> decimal(n) == seq!['0'],
    decreases n,
{
    if n < 10 {
        reveal_with_fuel(value_of, 2);
        assert(decimal(n).drop_last() =~= Seq::empty());
    } else {
        law_decimal_reads_back(n / 10);
        assert(decimal(n).drop_last() =~= decimal(n / 10));
        assert(decimal(n)[0] == decimal(n / 10)[0]);
    }
}

/// A sign stands before a number exactly where it is below zero, and what
/// follows it reads back as its absolute value.
pub proof fn law_signed_decimal_reads_back(n: int)
    ensures
        n >= 0 ==> value_of(signed_decimal(n)) == n && signed_decimal(n)[0] != '-',
        n < 0 ==> signed_decimal(n)[0] == '-' && value_of(
            signed_decimal(n).subrange(1, signed_decimal(n).len() as int),
        ) == -n,
{
    if n >= 0 {
        law_decimal_reads_back(n as nat);
    } else {
        law_decimal_reads_back((-n) as nat);
        assert(signed_decimal(n).subrange(1, signed_decimal(n).len() as int) =~= decimal(
            (-n) as nat,
        ));
    }
}

/// A padded number of at most as many digits as its width reads back as the
/// number, in exactly that many digits.
pub proof fn law_padded_reads_back(n: nat, width: nat)
    ensures
        zero_padded(n, width).len() == width,
        n < vstd::arithmetic::power::pow(10, width) ==> value_of(zero_padded(n, width)) == n,
    decreases width,
{
    vstd::arithmetic::power::lemma_pow0(10);
    if width > 0 {
        law_padded_reads_back(n / 10, (width - 1) as nat);
        assert(zero_padded(n, width).drop_last() =~= zero_padded(n / 10, (width - 1) as nat));
        reveal(vstd::arithmetic::power::pow);
        assert(vstd::arithmetic::power::pow(10, width) == 10 * vstd::arithmetic::power::pow(
            10,
            (width - 1) as nat,
        ));
    }
}

/// Hundredths are written in two digits, and read back.
pub proof fn law_two_digits_read_back(n: nat)
    ensures
        value_of(at_least_two_digits(n)) == n,
        n < 100 ==> at_least_two_digits(n).len() == 2,
{
    law_decimal_reads_back(n);
    let s = at_least_two_digits(n);
    if n < 10 {
        reveal_with_fuel(value_of, 3);
        assert(s.drop_last() =~= seq!['0']);
        assert(seq!['0'].drop_last() =~= Seq::<char>::empty());
    } else if n < 100 {
        reveal_with_fuel(decimal, 2);
    }
}

proof fn lemma_trim_front(s: Seq<char>, c: char) -> (a: int)
    ensures
        0 <= a <= s.len(),
        trim_front(s, c) == s.subrange(a, s.len() as int),
        forall|i: int| 0 <= i < a ==> #[trigger] s[i] == c,
        a < s.len() ==> s[a] != c,
    decreases s.len(),
{
    if s.len() > 0 && s[0] == c {
        let rest = s.subrange(1, s.len() as int);
        let a = lemma_trim_front(rest, c);
        assert(rest.subrange(a, rest.len() as int) =~= s.subrange(a + 1, s.len() as int));
        assert forall|i: int| 0 <= i < a + 1 implies #[trigger] s[i] == c by {
            if i > 0 {
                assert(rest[i - 1] == s[i]);
            }
        }
        a + 1
    } else {
        assert(s.subrange(0, s.len() as int) =~= s);
        0
    }
}

proof fn lemma_trim_back(s: Seq<char>, c: char) -> (b: int)
    ensures
        0 <= b <= s.len(),
        trim_back(s, c) == s.subrange(0, b),
        forall|i: int| b <= i < s.len() ==> #[trigger] s[i] == c,
        b > 0 ==> s[b - 1] != c,
    decreases s.len(),
{
    if s.len() > 0 && s.last() == c {
        let rest = s.drop_last();
        let b = lemma_trim_back(rest, c);
        assert(rest.subrange(0, b) =~= s.subrange(0, b));
        assert forall|i: int| b <= i < s.len() implies #[trigger] s[i] == c by {
            if i < rest.len() {
                assert(rest[i] == s[i]);
            }
        }
        b
    } else {
        assert(s.subrange(0, s.len() as int) =~= s);
        s.len() as int
    }
}

/// Trimming takes off the characters at the two ends and nothing else: what is
/// left is a part of the text that neither begins nor ends with the character,
/// and all that was taken off is that character. A text that neither begins nor
/// ends with it stays as it is.
pub proof fn law_trimmed_at_both_ends(s: Seq<char>, c: char)
    ensures
        exists|a: int, b: int|
            0 <= a <= b <= s.len() && trimmed(s, c) == #[trigger] s.subrange(a, b) && (forall|i: int|
                0 <= i < a || b <= i < s.len() ==> #[trigger] s[i] == c),
        trimmed(s, c).len() > 0 ==> trimmed(s, c)[0] != c && trimmed(s, c).last() != c,
        s.len() > 0 && s[0] != c && s.last() != c ==> trimmed(s, c) == s,
{
    let a = lemma_trim_front(s, c);
    let front = s.subrange(a, s.len() as int);
    let b = lemma_trim_back(front, c);
    assert(front.subrange(0, b) =~= s.subrange(a, a + b));
    assert forall|i: int| 0 <= i < a || a + b <= i < s.len() implies #[trigger] s[i] == c by {
        if i >= a + b {
            assert(front[i - a] == s[i]);
        }
    }
    assert(trimmed(s, c) == s.subrange(a, a + b));
    if s.len() > 0 && s[0] != c && s.last() != c {
        assert(front =~= s);
        assert(trimmed(s, c) =~= s);
    }
}

/// Taking a character out keeps all the others, in their order.
pub proof fn law_without_keeps_the_others(s: Seq<char>, c: char)
    ensures
        without(s, c) == s.filter(|x: char| x != c),
    decreases s.len(),
{
    reveal(Seq::filter);
    if s.len() > 0 {
        law_without_keeps_the_others(s.drop_last(), c);
    } else {
        assert(without(s, c) =~= s.filter(|x: char| x != c));
    }
}

/// Splitting a text and joining its parts by the character gives the text
/// again, and no part holds the character.
pub proof fn law_split_reads_back(s: Seq<char>, c: char)
    ensures
        split(s, c).len() > 0,
        joined(split(s, c), seq![c]) == s,
        forall|i: int| 0 <= i < split(s, c).len() ==> !(#[trigger] split(s, c)[i]).contains(c),
    decreases s.len(),
{
    let parts = split(s, c);
    if s.len() == 0 {
        assert(joined(parts, seq![c]) =~= s);
    } else {
        let rest = s.drop_last();
        let before = split(rest, c);
        law_split_reads_back(rest, c);
        if s.last() == c {
            assert(parts.drop_last() =~= before);
            assert(joined(parts, seq![c]) =~= rest + seq![c] + Seq::empty());
            assert(s =~= rest + seq![c] + Seq::empty());
        } else {
            assert(parts.drop_last() =~= before.drop_last());
            assert(s =~= rest.push(s.last()));
            if before.len() > 1 {
                assert(joined(parts, seq![c]) =~= (joined(before.drop_last(), seq![c]) + seq![c]
                    + before.last()).push(s.last()));
            } else {
                assert(joined(parts, seq![c]) =~= before[0].push(s.last()));
            }
            assert forall|i: int| 0 <= i < parts.len() implies !(#[trigger] parts[i]).contains(
                c,
            ) by {
                if i < before.len() - 1 {
                    assert(parts[i] == before[i]);
                } else {
                    let x = before[before.len() - 1];
                    assert(!x.contains(c));
                    let y = x.push(s.last());
                    if y.contains(c) {
                        let k = choose|k: int| 0 <= k < y.len() && y[k] == c;
                        assert(x[k] == c);
                    }
                }
            }
        }
    }
}

/// A text comes before another exactly where it is a shorter beginning of it,
/// or has the lower character at the first place where they differ.
pub proof fn law_first_difference_decides(a: Seq<char>, b: Seq<char>)
    ensures
        text_before(a, b) <==> exists|i: int|
            0 <= i <= a.len() && i < b.len() && #[trigger] a.take(i) == b.take(i) && (i == a.len()
                || a[i] < b[i]),
    decreases b.len(),
{
    if b.len() > 0 && a.len() > 0 {
        let x = a.subrange(1, a.len() as int);
        let y = b.subrange(1, b.len() as int);
        law_first_difference_decides(x, y);
        if text_before(a, b) {
            if a[0] < b[0] {
                assert(a.take(0) =~= b.take(0));
            } else {
                let i = choose|i: int|
                    0 <= i <= x.len() && i < y.len() && #[trigger] x.take(i) == y.take(i) && (i
                        == x.len() || x[i] < y[i]);
                assert(a.take(i + 1) =~= seq![a[0]] + x.take(i));
                assert(b.take(i + 1) =~= seq![b[0]] + y.take(i));
                assert(a.take(i + 1) == b.take(i + 1));
            }
        }
        if exists|i: int|
            0 <= i <= a.len() && i < b.len() && #[trigger] a.take(i) == b.take(i) && (i == a.len()
                || a[i] < b[i]) {
            let i = choose|i: int|
                0 <= i <= a.len() && i < b.len() && #[trigger] a.take(i) == b.take(i) && (i
                    == a.len() || a[i] < b[i]);
            if i > 0 {
                assert(a.take(i)[0] == b.take(i)[0]);
                assert(x.take(i - 1) =~= a.take(i).subrange(1, i));
                assert(y.take(i - 1) =~= b.take(i).subrange(1, i));
                assert(x.take(i - 1) == y.take(i - 1));
            }
        }
    } else if b.len() > 0 {
        assert(a.take(0) =~= b.take(0));
    }
}

/// Joined texts hold each part, with the separator between each two: one part
/// more adds the separator and the part.
pub proof fn law_joined_adds_a_part(parts: Seq<Seq<char>>, sep: Seq<char>, x: Seq<char>)
    ensures
        joined(Seq::empty(), sep) == Seq::<char>::empty(),
        joined(seq![x], sep) == x,
        parts.len() > 0 ==> joined(parts.push(x), sep) == joined(parts, sep) + sep + x,
{
    assert(parts.push(x).drop_last() =~= parts);
}

} // verus!
