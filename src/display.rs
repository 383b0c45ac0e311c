//! Text shown to a player: numbers with thousands separators, the list of a
//! team's guesses, and reading the player's answer.
use vstd::prelude::*;
use vstd::string::*;

verus! {

/// The decimal digit `d` as a character.
pub open spec fn digit_char(d: int) -> char {
    seq!['0', '1', '2', '3', '4', '5', '6', '7', '8', '9'][d]
}

/// `n` in decimal.
pub open spec fn decimal(n: nat) -> Seq<char>
    decreases n,
{
    if n < 10 {
        seq![digit_char(n as int)]
    } else {
        decimal(n / 10).push(digit_char((n % 10) as int))
    }
}

/// The three digits of `r < 1000`, with leading zeros.
pub open spec fn three_digits(r: nat) -> Seq<char> {
    seq![digit_char((r / 100) as int), digit_char((r / 10 % 10) as int), digit_char((r % 10) as int)]
}

/// `n` in decimal with a comma between groups of three digits.
pub open spec fn with_thousands(n: nat) -> Seq<char>
    decreases n,
{
    if n < 1000 {
        decimal(n)
    } else {
        with_thousands(n / 1000) + seq![','] + three_digits(n % 1000)
    }
}

/// The character of a digit below ten.
fn digit_str(d: u64) -> (r: &'static str)
    requires
        d < 10,
    ensures
        r@ == seq![digit_char(d as int)],
{
    proof {
        reveal_strlit("0");
        reveal_strlit("1");
        reveal_strlit("2");
        reveal_strlit("3");
        reveal_strlit("4");
        reveal_strlit("5");
        reveal_strlit("6");
        reveal_strlit("7");
        reveal_strlit("8");
        reveal_strlit("9");
    }
    if d == 0 {
        "0"
    } else if d == 1 {
        "1"
    } else if d == 2 {
        "2"
    } else if d == 3 {
        "3"
    } else if d == 4 {
        "4"
    } else if d == 5 {
        "5"
    } else if d == 6 {
        "6"
    } else if d == 7 {
        "7"
    } else if d == 8 {
        "8"
    } else {
        "9"
    }
}

/// Appends `n` in decimal.
fn push_decimal(out: &mut String, n: u64)
    ensures
        final(out)@ == old(out)@ + decimal(n as nat),
    decreases n,
{
    if n >= 10 {
        push_decimal(out, n / 10);
    }
    out.append(digit_str(n % 10));
    proof {
        if n < 10 {
            assert(old(out)@ + decimal(n as nat) =~= old(out)@ + seq![digit_char(n as int)]);
        }
    }
}

/// Appends `n` with thousands separators.
fn push_with_thousands(out: &mut String, n: u64)
    ensures
        final(out)@ == old(out)@ + with_thousands(n as nat),
    decreases n,
{
    if n < 1000 {
        push_decimal(out, n);
        return;
    }
    push_with_thousands(out, n / 1000);
    out.append(",");
    let r = n % 1000;
    out.append(digit_str(r / 100));
    out.append(digit_str(r / 10 % 10));
    out.append(digit_str(r % 10));
    proof {
        reveal_strlit(",");
        assert(final(out)@ =~= old(out)@ + with_thousands(n as nat));
    }
}

/// `n` with a comma between groups of three digits.
pub fn format_number(n: u64) -> (r: String)
    ensures
        r@ == with_thousands(n as nat),
{
    let mut out = String::new();
    push_with_thousands(&mut out, n);
    proof {
        assert(out@ =~= with_thousands(n as nat));
    }
    out
}

/// The lines of the guess list from position `i` on, numbered from one.
pub open spec fn guess_lines(guesses: Seq<u64>, i: int) -> Seq<char>
    decreases guesses.len() - i,
{
    if i < 0 || i >= guesses.len() {
        Seq::empty()
    } else {
        "  "@ + decimal((i + 1) as nat) + ". "@ + with_thousands(guesses[i] as nat) + "\n"@
            + guess_lines(guesses, i + 1)
    }
}

/// The problem as shown to the player: a header, then each guess on a
/// numbered line.
pub open spec fn problem_display(guesses: Seq<u64>) -> Seq<char> {
    "Here are the team's guesses:\n"@ + guess_lines(guesses, 0)
}

/// The team's guesses, one numbered line each, under a header.
pub fn format_problem_display(guesses: &[u64]) -> (r: String)
    ensures
        r@ == problem_display(guesses@),
{
    let mut out = String::new();
    out.append("Here are the team's guesses:\n");
    let mut i: usize = 0;
    while i < guesses.len()
        invariant
            0 <= i <= guesses@.len(),
            out@ + guess_lines(guesses@, i as int) == problem_display(guesses@),
        decreases guesses@.len() - i,
    {
        let ghost before = out@;
        out.append("  ");
        push_decimal(&mut out, i as u64 + 1);
        out.append(". ");
        push_with_thousands(&mut out, guesses[i]);
        out.append("\n");
        proof {
            assert(out@ =~= before + ("  "@ + decimal((i + 1) as nat) + ". "@ + with_thousands(
                guesses@[i as int] as nat,
            ) + "\n"@));
            assert(before + guess_lines(guesses@, i as int) =~= out@ + guess_lines(
                guesses@,
                i + 1,
            ));
        }
        i = i + 1;
    }
    proof {
        assert(guess_lines(guesses@, i as int) =~= Seq::<char>::empty());
        assert(out@ =~= problem_display(guesses@));
    }
    out
}

/// A character of the Unicode White_Space property.
pub open spec fn is_white_space(c: char) -> bool {
    let u = c as u32;
    ||| 0x9 <= u <= 0xd
    ||| u == 0x20
    ||| u == 0x85
    ||| u == 0xa0
    ||| u == 0x1680
    ||| 0x2000 <= u <= 0x200a
    ||| u == 0x2028
    ||| u == 0x2029
    ||| u == 0x202f
    ||| u == 0x205f
    ||| u == 0x3000
}

/// `s` without its leading white space.
pub open spec fn trim_start(s: Seq<char>) -> Seq<char>
    decreases s.len(),
{
    if s.len() > 0 && is_white_space(s[0]) {
        trim_start(s.drop_first())
    } else {
        s
    }
}

/// `s` without its trailing white space.
pub open spec fn trim_end(s: Seq<char>) -> Seq<char>
    decreases s.len(),
{
    if s.len() > 0 && is_white_space(s.last()) {
        trim_end(s.drop_last())
    } else {
        s
    }
}

/// `s` without its leading and trailing white space.
pub open spec fn trimmed(s: Seq<char>) -> Seq<char> {
    trim_end(trim_start(s))
}

/// Relies on str::trim: `s` without the leading and trailing characters
/// that have the Unicode White_Space property.
#[verifier::external_body]
fn trim<'a>(s: &'a str) -> (r: &'a str)
    ensures
        r@ == trimmed(s@),
{
    s.trim()
}

/// `s` without its commas.
pub open spec fn remove_commas(s: Seq<char>) -> Seq<char>
    decreases s.len(),
{
    if s.len() == 0 {
        s
    } else if s.last() == ',' {
        remove_commas(s.drop_last())
    } else {
        remove_commas(s.drop_last()).push(s.last())
    }
}

pub open spec fn is_digit(c: char) -> bool {
    48 <= c as u32 <= 57
}

/// The number written by the decimal digits `s`.
pub open spec fn digits_value(s: Seq<char>) -> int
    decreases s.len(),
{
    if s.len() == 0 {
        0
    } else {
        digits_value(s.drop_last()) * 10 + (s.last() as u32 - 48)
    }
}

/// `s` without one leading plus sign.
pub open spec fn unsigned_digits(s: Seq<char>) -> Seq<char> {
    if s.len() > 0 && s[0] == '+' {
        s.drop_first()
    } else {
        s
    }
}

/// Every character of `s` is a decimal digit.
pub open spec fn all_digits(s: Seq<char>) -> bool {
    forall|i: int| 0 <= i < s.len() ==> #[trigger] is_digit(s[i])
}

/// An unsigned 64-bit number in decimal: an optional plus sign, then at
/// least one digit, and nothing else.
pub open spec fn parse_u64(s: Seq<char>) -> Option<u64> {
    let b = unsigned_digits(s);
    if b.len() > 0 && all_digits(b) && digits_value(b) <= u64::MAX {
        Some(digits_value(b) as u64)
    } else {
        None
    }
}

/// The player's answer in `input`, or what to tell them: the text is
/// trimmed and its commas are dropped; it must then be a positive whole
/// number.
pub open spec fn read_answer(input: Seq<char>) -> Result<u64, Seq<char>> {
    let t = trimmed(input);
    if t.len() == 0 {
        Err("Please enter a number"@)
    } else {
        let c = remove_commas(t);
        match parse_u64(c) {
            Some(v) => if v == 0 {
                Err("Please enter a positive number"@)
            } else {
                Ok(v)
            },
            None => if c.contains('.') {
                Err("Please enter a whole number (no decimals)"@)
            } else if c.len() > 0 && c[0] == '-' {
                Err("Please enter a positive number"@)
            } else {
                Err("Please enter a valid number"@)
            },
        }
    }
}

proof fn lemma_digits_value_prefix(s: Seq<char>, j: int)
    requires
        0 <= j <= s.len(),
        forall|i: int| 0 <= i < s.len() ==> #[trigger] is_digit(s[i]),
    ensures
        0 <= digits_value(s.take(j)) <= digits_value(s),
    decreases s.len() - j,
{
    if j < s.len() {
        lemma_digits_value_prefix(s, j + 1);
        let t = s.take(j + 1);
        assert(t.drop_last() =~= s.take(j));
        assert(is_digit(t.last()));
    } else {
        assert(s.take(j) =~= s);
    }
    lemma_digits_value_nonneg(s.take(j), s);
}

proof fn lemma_digits_value_nonneg(t: Seq<char>, s: Seq<char>)
    requires
        forall|i: int| 0 <= i < t.len() ==> #[trigger] is_digit(t[i]),
    ensures
        digits_value(t) >= 0,
    decreases t.len(),
{
    if t.len() > 0 {
        let p = t.drop_last();
        assert forall|i: int| 0 <= i < p.len() implies #[trigger] is_digit(p[i]) by {
            assert(p[i] == t[i]);
        }
        lemma_digits_value_nonneg(p, s);
        assert(is_digit(t[t.len() - 1]));
    }
}

/// `parse_u64` on a sequence of characters.
fn parse_digits(c: &Vec<char>) -> (r: Option<u64>)
    ensures
        r == parse_u64(c@),
{
    let n = c.len();
    let start: usize = if n > 0 && c[0] == '+' {
        1
    } else {
        0
    };
    let ghost b = unsigned_digits(c@);
    proof {
        assert(b =~= c@.subrange(start as int, n as int));
    }
    if start == n {
        return None;
    }
    let mut value: u64 = 0;
    let mut i: usize = start;
    while i < n
        invariant
            start <= i <= n == c@.len(),
            b == unsigned_digits(c@),
            b =~= c@.subrange(start as int, n as int),
            forall|j: int| 0 <= j < i - start ==> #[trigger] is_digit(b[j]),
            value == digits_value(b.take(i - start)),
        decreases n - i,
    {
        let ch = c[i];
        let code = ch as u32;
        if code < 48 || code > 57 {
            proof {
                assert(b[i - start] == c@[i as int]);
                assert(!is_digit(b[i - start]));
                assert(!all_digits(b));
            }
            return None;
        }
        let next: u128 = value as u128 * 10 + (code - 48) as u128;
        proof {
            let t = b.take(i - start + 1);
            assert(t.drop_last() =~= b.take(i - start));
            assert(b[i - start] == c@[i as int]);
            assert(t.last() == ch);
            assert(next == digits_value(t));
        }
        if next > u64::MAX as u128 {
            proof {
                if all_digits(b) {
                    lemma_digits_value_prefix(b, i - start + 1);
                }
            }
            return None;
        }
        value = next as u64;
        i = i + 1;
    }
    proof {
        assert(b.take(n - start) =~= b);
    }
    Some(value)
}

/// Reads the player's answer: a positive whole number, possibly with
/// thousands separators and surrounding spaces; otherwise a message saying
/// what to enter.
pub fn parse_user_input(input: &str) -> (r: Result<u64, String>)
    ensures
        match r {
            Ok(v) => read_answer(input@) == Ok::<u64, Seq<char>>(v),
            Err(m) => read_answer(input@) == Err::<u64, Seq<char>>(m@),
        },
{
    let t = trim(input);
    let len = t.unicode_len();
    if len == 0 {
        return Err(String::from_str("Please enter a number"));
    }
    let mut cleaned: Vec<char> = Vec::new();
    let mut has_point = false;
    let mut i: usize = 0;
    while i < len
        invariant
            0 <= i <= len == t@.len(),
            cleaned@ == remove_commas(t@.take(i as int)),
            has_point == remove_commas(t@.take(i as int)).contains('.'),
        decreases len - i,
    {
        let ch = t.get_char(i);
        proof {
            let p = t@.take(i + 1);
            assert(p.drop_last() =~= t@.take(i as int));
            assert(p.last() == ch);
        }
        if ch != ',' {
            cleaned.push(ch);
            if ch == '.' {
                has_point = true;
            }
            proof {
                let before = remove_commas(t@.take(i as int));
                let after = before.push(ch);
                if before.contains('.') {
                    let k = choose|k: int| 0 <= k < before.len() && before[k] == '.';
                    assert(after[k] == '.');
                }
                if after.contains('.') && ch != '.' {
                    let k = choose|k: int| 0 <= k < after.len() && after[k] == '.';
                    assert(before[k] == '.');
                }
                if ch == '.' {
                    assert(after[after.len() - 1] == '.');
                }
            }
        }
        i = i + 1;
    }
    proof {
        assert(t@.take(len as int) =~= t@);
    }
    match parse_digits(&cleaned) {
        Some(v) => {
            if v == 0 {
                Err(String::from_str("Please enter a positive number"))
            } else {
                Ok(v)
            }
        },
        None => {
            if has_point {
                Err(String::from_str("Please enter a whole number (no decimals)"))
            } else if cleaned.len() > 0 && cleaned[0] == '-' {
                Err(String::from_str("Please enter a positive number"))
            } else {
                Err(String::from_str("Please enter a valid number"))
            }
        },
    }
}

proof fn lemma_digit_char(d: int)
    requires
        0 <= d < 10,
    ensures
        digit_char(d) as u32 == 48 + d,
        is_digit(digit_char(d)),
        !is_white_space(digit_char(d)),
        digit_char(d) != ',',
        digit_char(d) != '+',
{
    let digits = seq!['0', '1', '2', '3', '4', '5', '6', '7', '8', '9'];
    assert(digit_char(d) == digits[d]);
    if d == 0 {
    } else if d == 1 {
    } else if d == 2 {
    } else if d == 3 {
    } else if d == 4 {
    } else if d == 5 {
    } else if d == 6 {
    } else if d == 7 {
    } else if d == 8 {
    } else {
    }
}

proof fn lemma_decimal(n: nat)
    ensures
        decimal(n).len() >= 1,
        all_digits(decimal(n)),
        digits_value(decimal(n)) == n,
        !is_white_space(decimal(n)[0]),
        decimal(n)[0] != '+',
        !is_white_space(decimal(n).last()),
    decreases n,
{
    if n < 10 {
        lemma_digit_char(n as int);
        let s = decimal(n);
        assert(s.drop_last() =~= Seq::<char>::empty());
        assert(s.last() == digit_char(n as int));
        assert(digits_value(s.drop_last()) == 0);
    } else {
        lemma_decimal(n / 10);
        lemma_digit_char((n % 10) as int);
        let s = decimal(n);
        assert(s.drop_last() =~= decimal(n / 10));
        assert(s.last() == digit_char((n % 10) as int));
        assert(digits_value(s) == n / 10 * 10 + n % 10);
        assert forall|i: int| 0 <= i < s.len() implies #[trigger] is_digit(s[i]) by {
            if i < s.len() - 1 {
                assert(s[i] == decimal(n / 10)[i]);
            }
        }
        assert(s[0] == decimal(n / 10)[0]);
    }
}

proof fn lemma_decimal_split(n: nat)
    requires
        n >= 1000,
    ensures
        decimal(n) == decimal(n / 1000) + three_digits(n % 1000),
{
    assert(n / 10 / 10 == n / 100);
    assert(n / 100 / 10 == n / 1000);
    assert((n % 1000) / 100 == (n / 100) % 10);
    assert((n % 1000) / 10 % 10 == (n / 10) % 10);
    assert((n % 1000) % 10 == n % 10);
    assert(decimal(n) == decimal(n / 10).push(digit_char((n % 10) as int)));
    assert(decimal(n / 10) == decimal(n / 100).push(digit_char(((n / 10) % 10) as int)));
    assert(decimal(n / 100) == decimal(n / 1000).push(digit_char(((n / 100) % 10) as int)));
    assert(decimal(n) =~= decimal(n / 1000) + three_digits(n % 1000));
}

proof fn lemma_remove_commas_concat(a: Seq<char>, b: Seq<char>)
    ensures
        remove_commas(a + b) == remove_commas(a) + remove_commas(b),
    decreases b.len(),
{
    if b.len() == 0 {
        assert(a + b =~= a);
        assert(remove_commas(a) + remove_commas(b) =~= remove_commas(a));
    } else {
        lemma_remove_commas_concat(a, b.drop_last());
        assert((a + b).drop_last() =~= a + b.drop_last());
        assert((a + b).last() == b.last());
        if b.last() == ',' {
        } else {
            assert(remove_commas(a) + remove_commas(b.drop_last()).push(b.last()) =~= (
            remove_commas(a) + remove_commas(b.drop_last())).push(b.last()));
        }
    }
}

proof fn lemma_remove_commas_of_digits(s: Seq<char>)
    requires
        all_digits(s),
    ensures
        remove_commas(s) == s,
    decreases s.len(),
{
    if s.len() > 0 {
        let p = s.drop_last();
        assert forall|i: int| 0 <= i < p.len() implies #[trigger] is_digit(p[i]) by {
            assert(p[i] == s[i]);
        }
        lemma_remove_commas_of_digits(p);
        assert(is_digit(s[s.len() - 1]));
        assert(p.push(s.last()) =~= s);
    }
}

proof fn lemma_with_thousands(n: nat)
    ensures
        remove_commas(with_thousands(n)) == decimal(n),
        with_thousands(n).len() >= 1,
        !is_white_space(with_thousands(n)[0]),
        !is_white_space(with_thousands(n).last()),
    decreases n,
{
    lemma_decimal(n);
    if n < 1000 {
        lemma_remove_commas_of_digits(decimal(n));
    } else {
        lemma_with_thousands(n / 1000);
        let r = n % 1000;
        let three = three_digits(r);
        lemma_digit_char((r / 100) as int);
        lemma_digit_char((r / 10 % 10) as int);
        lemma_digit_char((r % 10) as int);
        assert(all_digits(three));
        lemma_remove_commas_of_digits(three);
        let head = with_thousands(n / 1000);
        lemma_remove_commas_concat(head + seq![','], three);
        lemma_remove_commas_concat(head, seq![',']);
        assert(seq![','].drop_last() =~= Seq::<char>::empty());
        assert(seq![','].last() == ',');
        assert(remove_commas(Seq::<char>::empty()) =~= Seq::<char>::empty());
        assert(remove_commas(seq![',']) =~= Seq::<char>::empty());
        lemma_decimal_split(n);
        assert(remove_commas(with_thousands(n)) =~= decimal(n));
        assert(with_thousands(n)[0] == head[0]);
        assert(with_thousands(n).last() == three.last());
    }
}

/// A number text without surrounding white space is its own trim.
proof fn lemma_trimmed_unchanged(s: Seq<char>)
    requires
        s.len() >= 1,
        !is_white_space(s[0]),
        !is_white_space(s.last()),
    ensures
        trimmed(s) == s,
{
}

/// Every positive number, written with thousands separators, reads back as
/// itself.
pub proof fn lemma_formatted_number_reads_back(n: u64)
    requires
        n > 0,
    ensures
        read_answer(with_thousands(n as nat)) == Ok::<u64, Seq<char>>(n),
{
    let text = with_thousands(n as nat);
    lemma_with_thousands(n as nat);
    lemma_trimmed_unchanged(text);
    lemma_decimal(n as nat);
    let c = decimal(n as nat);
    assert(unsigned_digits(c) == c);
    assert(parse_u64(c) == Some(n));
}

} // verus!
