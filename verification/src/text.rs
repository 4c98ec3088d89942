use vstd::prelude::*;

verus! {

broadcast use vstd::string::group_string_axioms;

/// The characters of `s`, in order.
pub fn chars_vec(s: &str) -> (v: Vec<char>)
    ensures
        v@ == s@,
{
    let mut v: Vec<char> = Vec::new();
    for c in it: s.chars()
        invariant
            it.seq() == s@,
            v@ == it.seq().take(it.index() as int),
    {
        v.push(c);
    }
    v
}

/// The characters that Rust's `char::is_whitespace` accepts: those with the
/// Unicode `White_Space` property.
pub open spec fn is_ws(c: char) -> bool {
    let u = c as u32;
    ||| 0x9 <= u <= 0xD
    ||| u == 0x20
    ||| u == 0x85
    ||| u == 0xA0
    ||| u == 0x1680
    ||| 0x2000 <= u <= 0x200A
    ||| u == 0x2028
    ||| u == 0x2029
    ||| u == 0x202F
    ||| u == 0x205F
    ||| u == 0x3000
}

/// `char::is_whitespace`.
pub fn is_whitespace(c: char) -> (r: bool)
    ensures
        r == is_ws(c),
{
    let u = c as u32;
    (0x9 <= u && u <= 0xD) || u == 0x20 || u == 0x85 || u == 0xA0 || u == 0x1680 || (0x2000 <= u
        && u <= 0x200A) || u == 0x2028 || u == 0x2029 || u == 0x202F || u == 0x205F || u == 0x3000
}

/// An ASCII decimal digit.
pub open spec fn is_digit(c: char) -> bool {
    48 <= (c as u32) <= 57
}

/// The value of a decimal digit character.
pub open spec fn digit_value(c: char) -> nat {
    ((c as u32) - 48) as nat
}

/// Every character is a decimal digit.
pub open spec fn all_digits(s: Seq<char>) -> bool {
    forall|i: int| 0 <= i < s.len() ==> #[trigger] is_digit(s[i])
}

/// The number that a string of decimal digits writes, most significant first.
pub open spec fn digits_value(s: Seq<char>) -> nat
    decreases s.len(),
{
    if s.len() == 0 {
        0
    } else {
        digits_value(s.drop_last()) * 10 + digit_value(s.last())
    }
}

/// The character of the decimal digit `d` (0 to 9).
pub open spec fn digit_char(d: nat) -> char {
    ((48 + d) as u32) as char
}

/// The decimal digits of `n`, most significant first, with no leading zero.
pub open spec fn nat_digits(n: nat) -> Seq<char>
    decreases n,
{
    if n < 10 {
        seq![digit_char(n)]
    } else {
        nat_digits(n / 10).push(digit_char(n % 10))
    }
}

/// How Rust's `Display` writes the integer `v`: a minus sign for a negative
/// number, then its decimal digits.
pub open spec fn decimal(v: int) -> Seq<char> {
    if v < 0 {
        seq!['-'] + nat_digits((-v) as nat)
    } else {
        nat_digits(v as nat)
    }
}

/// What Rust's `FromStr` for an integer type with the range `lo..=hi` gives
/// for `s`: an optional `+` (or `-` where the type is signed), then at least
/// one ASCII digit and nothing else, of a value within the range.
pub open spec fn parse_integer(s: Seq<char>, signed: bool, lo: int, hi: int) -> Option<int> {
    if s.len() == 0 {
        None
    } else if (s[0] == '+' || s[0] == '-') && s.len() == 1 {
        None
    } else {
        let neg = s[0] == '-' && signed;
        let ds = if s[0] == '+' || neg {
            s.drop_first()
        } else {
            s
        };
        let v = if neg {
            -(digits_value(ds) as int)
        } else {
            digits_value(ds) as int
        };
        if all_digits(ds) && lo <= v <= hi {
            Some(v)
        } else {
            None
        }
    }
}

/// `str::parse::<i32>`.
pub open spec fn parse_i32(s: Seq<char>) -> Option<int> {
    parse_integer(s, true, i32::MIN as int, i32::MAX as int)
}

/// `str::parse::<u32>`.
pub open spec fn parse_u32(s: Seq<char>) -> Option<int> {
    parse_integer(s, false, 0, u32::MAX as int)
}

proof fn lemma_digits_value_prefix(s: Seq<char>, i: int)
    requires
        0 <= i <= s.len(),
        all_digits(s),
    ensures
        digits_value(s.take(i)) <= digits_value(s),
    decreases s.len(),
{
    if i < s.len() {
        assert(s.drop_last().take(i) =~= s.take(i));
        assert(all_digits(s.drop_last()));
        lemma_digits_value_prefix(s.drop_last(), i);
    } else {
        assert(s.take(i) =~= s);
    }
}

/// Parses `v[start..end]` as `FromStr` for an integer type with the range
/// `lo..=hi` does.
fn parse_integer_in(v: &Vec<char>, start: usize, end: usize, signed: bool, lo: i64, hi: i64) -> (r:
    Option<i64>)
    requires
        start <= end <= v.len(),
        -4294967296 <= lo <= 0 <= hi <= 4294967296,
    ensures
        r matches Some(x) ==> parse_integer(v@.subrange(start as int, end as int), signed, lo as int, hi as int) == Some(x as int),
        r is None ==> parse_integer(v@.subrange(start as int, end as int), signed, lo as int, hi as int) is None,
{
    let ghost s = v@.subrange(start as int, end as int);
    if start == end {
        return None;
    }
    let first = v[start];
    assert(s[0] == first);
    if (first == '+' || first == '-') && end - start == 1 {
        return None;
    }
    let neg = first == '-' && signed;
    let mut i = if first == '+' || neg {
        start + 1
    } else {
        start
    };
    let ghost ds = if s[0] == '+' || neg {
        s.drop_first()
    } else {
        s
    };
    let ds_start = i;
    assert(ds =~= v@.subrange(ds_start as int, end as int));
    let limit: i64 = if neg {
        -lo
    } else {
        hi
    };
    let mut acc: i64 = 0;
    while i < end
        invariant
            start <= i <= end <= v.len(),
            start <= ds_start <= i,
            s == v@.subrange(start as int, end as int),
            s.len() >= 1,
            s[0] == first,
            !((s[0] == '+' || s[0] == '-') && s.len() == 1),
            neg == (s[0] == '-' && signed),
            ds == (if s[0] == '+' || neg { s.drop_first() } else { s }),
            limit == (if neg { -lo } else { hi as int }),
            ds =~= v@.subrange(ds_start as int, end as int),
            0 <= limit <= 4294967296,
            0 <= acc <= limit,
            all_digits(ds.take(i - ds_start)),
            acc == digits_value(ds.take(i - ds_start)),
        decreases end - i,
    {
        let ghost k = i - ds_start;
        let c = v[i];
        if !((c as u32) >= 48 && (c as u32) <= 57) {
            assert(ds[k] == v@[i as int]);
            assert(!is_digit(ds[k]));
            return None;
        }
        let d = (c as u32 - 48) as i64;
        assert(ds.take(k + 1).drop_last() =~= ds.take(k));
        acc = acc * 10 + d;
        if acc > limit {
            proof {
                if all_digits(ds) {
                    lemma_digits_value_prefix(ds, k + 1);
                }
            }
            return None;
        }
        i = i + 1;
    }
    assert(ds.take(ds.len() as int) =~= ds);
    if neg {
        Some(-acc)
    } else {
        Some(acc)
    }
}

/// `str::parse::<i32>` of `v[start..end]`.
pub fn parse_i32_in(v: &Vec<char>, start: usize, end: usize) -> (r: Option<i32>)
    requires
        start <= end <= v.len(),
    ensures
        r matches Some(x) ==> parse_i32(v@.subrange(start as int, end as int)) == Some(x as int),
        r is None ==> parse_i32(v@.subrange(start as int, end as int)) is None,
{
    match parse_integer_in(v, start, end, true, i32::MIN as i64, i32::MAX as i64) {
        Some(x) => Some(x as i32),
        None => None,
    }
}

/// `str::parse::<u32>` of `v[start..end]`.
pub fn parse_u32_in(v: &Vec<char>, start: usize, end: usize) -> (r: Option<u32>)
    requires
        start <= end <= v.len(),
    ensures
        r matches Some(x) ==> parse_u32(v@.subrange(start as int, end as int)) == Some(x as int),
        r is None ==> parse_u32(v@.subrange(start as int, end as int)) is None,
{
    match parse_integer_in(v, start, end, false, 0, u32::MAX as i64) {
        Some(x) => Some(x as u32),
        None => None,
    }
}

fn push_digit(out: &mut Vec<char>, d: u64)
    requires
        d < 10,
    ensures
        final(out)@ == old(out)@.push(digit_char(d as nat)),
{
    let c = ((48 + d) as u8) as char;
    out.push(c);
}

fn push_nat_digits(out: &mut Vec<char>, n: u64)
    ensures
        final(out)@ == old(out)@ + nat_digits(n as nat),
    decreases n,
{
    if n < 10 {
        push_digit(out, n);
    } else {
        push_nat_digits(out, n / 10);
        push_digit(out, n % 10);
    }
}

/// Appends the decimal writing of `v` to `out`.
pub fn push_decimal(out: &mut Vec<char>, v: i64)
    requires
        v > i64::MIN,
    ensures
        final(out)@ == old(out)@ + decimal(v as int),
{
    if v < 0 {
        out.push('-');
        push_nat_digits(out, (-v) as u64);
        assert(old(out)@.push('-') + nat_digits((-v) as nat) =~= old(out)@ + (seq!['-'] + nat_digits((-v) as nat)));
    } else {
        push_nat_digits(out, v as u64);
    }
}

/// std's `String::from_iter` over the characters of `chars`.
///
/// Trusted: it claims that the string holds exactly these characters, in
/// this order.
#[verifier::external_body]
pub(crate) fn string_from_chars(chars: &Vec<char>) -> (s: String)
    ensures
        s@ == chars@,
{
    String::from_iter(chars.iter())
}

/// `s` without its leading whitespace.
pub open spec fn skip_ws(s: Seq<char>) -> Seq<char>
    decreases s.len(),
{
    if s.len() > 0 && is_ws(s[0]) {
        skip_ws(s.drop_first())
    } else {
        s
    }
}

/// The longest prefix of `s` that holds no whitespace.
pub open spec fn word(s: Seq<char>) -> Seq<char>
    decreases s.len(),
{
    if s.len() > 0 && !is_ws(s[0]) {
        seq![s[0]] + word(s.drop_first())
    } else {
        seq![]
    }
}

/// The first two whitespace-separated words of `line`, as the first two
/// items of `str::split_whitespace` give them, if it has two.
pub open spec fn first_two_words(line: Seq<char>) -> Option<(Seq<char>, Seq<char>)> {
    let a = skip_ws(line);
    if a.len() == 0 {
        None
    } else {
        let w1 = word(a);
        let b = skip_ws(a.skip(w1.len() as int));
        if b.len() == 0 {
            None
        } else {
            Some((w1, word(b)))
        }
    }
}

/// The first index from `i` on in `v[..end]` that is not whitespace, or `end`.
pub fn skip_whitespace(v: &Vec<char>, i: usize, end: usize) -> (j: usize)
    requires
        i <= end <= v.len(),
    ensures
        i <= j <= end,
        skip_ws(v@.subrange(i as int, end as int)) == v@.subrange(j as int, end as int),
{
    let mut j = i;
    while j < end && is_whitespace(v[j])
        invariant
            i <= j <= end <= v.len(),
            skip_ws(v@.subrange(i as int, end as int)) == skip_ws(v@.subrange(j as int, end as int)),
        decreases end - j,
    {
        assert(v@.subrange(j as int, end as int).drop_first() =~= v@.subrange(j + 1, end as int));
        j = j + 1;
    }
    assert(v@.subrange(j as int, end as int).len() == 0 || !is_ws(v@.subrange(j as int, end as int)[0]));
    j
}

/// The index in `v[..end]` where the word that starts at `i` ends.
pub fn word_end(v: &Vec<char>, i: usize, end: usize) -> (j: usize)
    requires
        i <= end <= v.len(),
    ensures
        i <= j <= end,
        word(v@.subrange(i as int, end as int)) == v@.subrange(i as int, j as int),
{
    let mut j = i;
    while j < end && !is_whitespace(v[j])
        invariant
            i <= j <= end <= v.len(),
            word(v@.subrange(i as int, end as int)) == v@.subrange(i as int, j as int) + word(
                v@.subrange(j as int, end as int),
            ),
        decreases end - j,
    {
        assert(v@.subrange(j as int, end as int).drop_first() =~= v@.subrange(j + 1, end as int));
        assert(v@.subrange(i as int, j as int) + seq![v@[j as int]] =~= v@.subrange(i as int, j + 1));
        assert(v@.subrange(i as int, j as int) + (seq![v@[j as int]] + word(v@.subrange(j + 1, end as int)))
            =~= v@.subrange(i as int, j + 1) + word(v@.subrange(j + 1, end as int)));
        j = j + 1;
    }
    assert(word(v@.subrange(j as int, end as int)) =~= Seq::<char>::empty());
    assert(v@.subrange(i as int, j as int) + Seq::<char>::empty() =~= v@.subrange(i as int, j as int));
    j
}

/// The characters `v[start..end]` as a string.
pub fn string_of_range(v: &Vec<char>, start: usize, end: usize) -> (s: String)
    requires
        start <= end <= v.len(),
    ensures
        s@ == v@.subrange(start as int, end as int),
{
    let mut part: Vec<char> = Vec::new();
    let mut k = start;
    while k < end
        invariant
            start <= k <= end <= v.len(),
            part@ == v@.subrange(start as int, k as int),
        decreases end - k,
    {
        part.push(v[k]);
        assert(part@ =~= v@.subrange(start as int, k + 1));
        k = k + 1;
    }
    string_from_chars(&part)
}

proof fn lemma_digit_char(d: nat)
    requires
        d < 10,
    ensures
        is_digit(digit_char(d)),
        digit_value(digit_char(d)) == d,
        !is_ws(digit_char(d)),
        digit_char(d) != '+',
        digit_char(d) != '-',
{
    assert(((48 + d) as u32) as char as u32 == (48 + d) as u32);
}

/// The decimal digits of `n` are digits, at least one, and read back as `n`.
pub proof fn lemma_nat_digits(n: nat)
    ensures
        nat_digits(n).len() >= 1,
        all_digits(nat_digits(n)),
        digits_value(nat_digits(n)) == n,
        forall|i: int| 0 <= i < nat_digits(n).len() ==> !is_ws(#[trigger] nat_digits(n)[i]),
        nat_digits(n)[0] != '+' && nat_digits(n)[0] != '-',
    decreases n,
{
    if n < 10 {
        lemma_digit_char(n);
        assert(nat_digits(n).drop_last() =~= Seq::<char>::empty());
        assert(digits_value(Seq::<char>::empty()) == 0);
        assert(digits_value(nat_digits(n)) == n);
    } else {
        lemma_nat_digits(n / 10);
        lemma_digit_char(n % 10);
        let s = nat_digits(n);
        assert(s.drop_last() =~= nat_digits(n / 10));
        assert(s.last() == digit_char(n % 10));
        assert((n / 10) * 10 + n % 10 == n) by (nonlinear_arith);
        assert(digits_value(s) == digits_value(s.drop_last()) * 10 + digit_value(s.last()));
        assert(digits_value(s) == n);
        assert forall|i: int| 0 <= i < s.len() implies #[trigger] is_digit(s[i]) && !is_ws(s[i]) by {
            if i < s.len() - 1 {
                assert(s[i] == nat_digits(n / 10)[i]);
            }
        }
    }
}

/// The writing of an `i32` is not empty, holds no whitespace, and reads
/// back (`str::parse::<i32>`) as the same number.
pub proof fn lemma_decimal_i32(v: int)
    requires
        i32::MIN <= v <= i32::MAX,
    ensures
        decimal(v).len() >= 1,
        forall|i: int| 0 <= i < decimal(v).len() ==> !is_ws(#[trigger] decimal(v)[i]),
        parse_i32(decimal(v)) == Some(v),
{
    let s = decimal(v);
    if v < 0 {
        let m = (-v) as nat;
        lemma_nat_digits(m);
        assert(s.drop_first() =~= nat_digits(m));
        assert forall|i: int| 0 <= i < s.len() implies !is_ws(#[trigger] s[i]) by {
            if i > 0 {
                assert(s[i] == nat_digits(m)[i - 1]);
            }
        }
    } else {
        lemma_nat_digits(v as nat);
    }
}

/// Skipping whitespace at the start of a text that starts with none
/// changes nothing.
pub proof fn lemma_skip_ws_none(s: Seq<char>)
    requires
        s.len() == 0 || !is_ws(s[0]),
    ensures
        skip_ws(s) == s,
{
}

/// The first word of a text that starts with a run of non-whitespace and
/// then whitespace (or its end) is that run.
pub proof fn lemma_word_of(a: Seq<char>, b: Seq<char>)
    requires
        forall|i: int| 0 <= i < a.len() ==> !is_ws(#[trigger] a[i]),
        b.len() == 0 || is_ws(b[0]),
    ensures
        word(a + b) == a,
    decreases a.len(),
{
    if a.len() == 0 {
        assert(a + b =~= b);
    } else {
        let t = a.drop_first();
        assert forall|i: int| 0 <= i < t.len() implies !is_ws(#[trigger] t[i]) by {
            assert(t[i] == a[i + 1]);
        }
        lemma_word_of(t, b);
        assert((a + b).drop_first() =~= t + b);
        assert(seq![a[0]] + t =~= a);
    }
}

/// `s` without its trailing whitespace.
pub open spec fn trim_end_ws(s: Seq<char>) -> Seq<char>
    decreases s.len(),
{
    if s.len() > 0 && is_ws(s.last()) {
        trim_end_ws(s.drop_last())
    } else {
        s
    }
}

/// `str::trim`: `s` without its leading and trailing whitespace.
pub open spec fn trim(s: Seq<char>) -> Seq<char> {
    trim_end_ws(skip_ws(s))
}

/// `str::parse::<i8>`.
pub open spec fn parse_i8(s: Seq<char>) -> Option<int> {
    parse_integer(s, true, -128, 127)
}

/// `line.trim().parse::<i8>()`: the number typed on a line, if the line
/// holds one that fits an `i8`, with whitespace around it allowed.
pub fn parse_trimmed_i8(line: &str) -> (r: Option<i8>)
    ensures
        r matches Some(x) ==> parse_i8(trim(line@)) == Some(x as int),
        r is None ==> parse_i8(trim(line@)) is None,
{
    let v = chars_vec(line);
    let a = skip_whitespace(&v, 0, v.len());
    assert(v@.subrange(0, v.len() as int) =~= line@);
    let mut b = v.len();
    while b > a && is_whitespace(v[b - 1])
        invariant
            a <= b <= v.len(),
            trim_end_ws(v@.subrange(a as int, v.len() as int)) == trim_end_ws(
                v@.subrange(a as int, b as int),
            ),
        decreases b,
    {
        assert(v@.subrange(a as int, b as int).drop_last() =~= v@.subrange(a as int, b - 1));
        b = b - 1;
    }
    assert(trim_end_ws(v@.subrange(a as int, b as int)) == v@.subrange(a as int, b as int));
    match parse_integer_in(&v, a, b, true, -128, 127) {
        Some(x) => Some(x as i8),
        None => None,
    }
}

/// The number of `'\n'` in `s`.
pub open spec fn count_newlines(s: Seq<char>) -> nat
    decreases s.len(),
{
    if s.len() == 0 {
        0
    } else {
        count_newlines(s.drop_last()) + if s.last() == '\n' {
            1nat
        } else {
            0nat
        }
    }
}

/// How many lines `str::lines` gives: one per `'\n'`, and one more for
/// text after the last `'\n'`.
pub open spec fn lines_count(s: Seq<char>) -> nat {
    if s.len() == 0 || s.last() == '\n' {
        count_newlines(s)
    } else {
        count_newlines(s) + 1
    }
}

/// `text.lines().count()`.
pub fn count_lines(text: &str) -> (n: usize)
    ensures
        n == lines_count(text@),
{
    let v = chars_vec(text);
    let mut newlines: usize = 0;
    let mut i: usize = 0;
    while i < v.len()
        invariant
            0 <= i <= v.len(),
            v@ == text@,
            newlines == count_newlines(v@.take(i as int)),
            newlines <= i,
        decreases v.len() - i,
    {
        assert(v@.take(i + 1).drop_last() =~= v@.take(i as int));
        if v[i] == '\n' {
            newlines = newlines + 1;
        }
        i = i + 1;
    }
    assert(v@.take(v.len() as int) =~= v@);
    if v.len() == 0 || v[v.len() - 1] == '\n' {
        newlines
    } else {
        assert(newlines < v.len()) by {
            lemma_count_newlines_bound(v@);
        }
        newlines + 1
    }
}

proof fn lemma_count_newlines_bound(s: Seq<char>)
    requires
        s.len() > 0,
        s.last() != '\n',
    ensures
        count_newlines(s) < s.len(),
{
    lemma_count_newlines_le(s.drop_last());
}

proof fn lemma_count_newlines_le(s: Seq<char>)
    ensures
        count_newlines(s) <= s.len(),
    decreases s.len(),
{
    if s.len() > 0 {
        lemma_count_newlines_le(s.drop_last());
    }
}

} // verus!
