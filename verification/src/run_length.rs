use vstd::prelude::*;
use crate::text::{chars_of, string_of};

verus! {

/// Whether `c` is a decimal digit, as `char::is_digit(10)` decides.
pub open spec fn is_digit(c: char) -> bool {
    48 <= (c as u32) <= 57
}

/// The value of a decimal digit.
pub open spec fn digit_value(c: char) -> nat {
    ((c as u32) - 48) as nat
}

/// The value of a string of decimal digits.
pub open spec fn digits_value(ds: Seq<char>) -> nat
    decreases ds.len(),
{
    if ds.len() == 0 {
        0
    } else {
        digits_value(ds.drop_last()) * 10 + digit_value(ds.last())
    }
}

/// How many times a token is repeated after the digits `ds`: their value, or one
/// where there are none or where the value does not fit in a `usize`.
pub open spec fn repeat_count(ds: Seq<char>) -> nat {
    if ds.len() == 0 || digits_value(ds) > usize::MAX {
        1
    } else {
        digits_value(ds)
    }
}

/// `t` repeated `n` times.
pub open spec fn repeat(t: Seq<char>, n: nat) -> Seq<char>
    decreases n,
{
    if n == 0 {
        seq![]
    } else {
        repeat(t, (n - 1) as nat) + t
    }
}

/// The body of a parenthesised group that starts right after its `(`, and how
/// many characters the group takes, its closing `)` included.
pub open spec fn group(rest: Seq<char>, level: nat) -> (Seq<char>, nat)
    decreases rest.len(),
{
    if rest.len() == 0 {
        (seq![], 0)
    } else {
        let c = rest[0];
        if c == ')' && level == 0 {
            (seq![], 1)
        } else {
            let nl: nat = if c == '(' {
                level + 1
            } else if c == ')' {
                (level - 1) as nat
            } else {
                level
            };
            let (t, n) = group(rest.drop_first(), nl);
            (seq![c] + t, n + 1)
        }
    }
}

/// A group never takes more characters than are left.
pub proof fn lemma_group_len(rest: Seq<char>, level: nat)
    ensures
        group(rest, level).1 <= rest.len(),
    decreases rest.len(),
{
    if rest.len() > 0 {
        let c = rest[0];
        if !(c == ')' && level == 0) {
            let nl: nat = if c == '(' {
                level + 1
            } else if c == ')' {
                (level - 1) as nat
            } else {
                level
            };
            lemma_group_len(rest.drop_first(), nl);
        }
    }
}

/// One decoding pass over `rest`, with the digits `ds` read just before it.
pub open spec fn pass_rec(rest: Seq<char>, ds: Seq<char>) -> Seq<char>
    decreases rest.len(),
{
    if rest.len() == 0 {
        seq![]
    } else if is_digit(rest[0]) {
        pass_rec(rest.drop_first(), ds.push(rest[0]))
    } else if rest[0] == '(' {
        let (t, n) = group(rest.drop_first(), 0);
        proof {
            lemma_group_len(rest.drop_first(), 0);
        }
        repeat(t, repeat_count(ds)) + pass_rec(rest.skip((1 + n) as int), seq![])
    } else {
        repeat(seq![rest[0]], repeat_count(ds)) + pass_rec(rest.drop_first(), seq![])
    }
}

/// One decoding pass: each token, a character or a parenthesised group, repeated
/// as many times as the digits before it say.
pub open spec fn decode_pass(s: Seq<char>) -> Seq<char> {
    pass_rec(s, seq![])
}

/// Decoding with at most `fuel` passes: a pass is repeated while its output
/// still holds a `(`.
pub open spec fn decode_with_fuel(s: Seq<char>, fuel: nat) -> Option<Seq<char>>
    decreases fuel,
{
    if fuel == 0 {
        None
    } else {
        let r = decode_pass(s);
        if !r.contains('(') {
            Some(r)
        } else {
            decode_with_fuel(r, (fuel - 1) as nat)
        }
    }
}

/// Whether decoding `s` ends after finitely many passes.
pub open spec fn rle_decode_terminates(s: Seq<char>) -> bool {
    exists|n: nat| (#[trigger] decode_with_fuel(s, n)) is Some
}

/// The run-length decoding of `s`.
pub open spec fn rle_decode_spec(s: Seq<char>) -> Seq<char> {
    decode_with_fuel(s, choose|n: nat| (#[trigger] decode_with_fuel(s, n)) is Some).unwrap()
}

/// More fuel than enough gives the same result.
pub proof fn lemma_fuel_mono(s: Seq<char>, n: nat, m: nat)
    requires
        decode_with_fuel(s, n) is Some,
        n <= m,
    ensures
        decode_with_fuel(s, m) == decode_with_fuel(s, n),
    decreases n,
{
    let r = decode_pass(s);
    if r.contains('(') {
        lemma_fuel_mono(r, (n - 1) as nat, (m - 1) as nat);
    }
}

/// Any sufficient fuel gives the decoding.
pub proof fn lemma_fuel_unique(s: Seq<char>, n: nat)
    requires
        decode_with_fuel(s, n) is Some,
    ensures
        rle_decode_terminates(s),
        rle_decode_spec(s) == decode_with_fuel(s, n).unwrap(),
{
    let m = choose|m: nat| (#[trigger] decode_with_fuel(s, m)) is Some;
    if m <= n {
        lemma_fuel_mono(s, m, n);
    } else {
        lemma_fuel_mono(s, n, m);
    }
}

/// Appending a digit never lowers the value.
proof fn lemma_digits_value_grows(ds: Seq<char>, c: char)
    ensures
        digits_value(ds.push(c)) == digits_value(ds) * 10 + digit_value(c),
        digits_value(ds.push(c)) >= digits_value(ds),
{
    assert(ds.push(c).drop_last() == ds);
}

/// Pushes `t` onto `out` `n` times.
fn push_repeated(out: &mut Vec<char>, t: &Vec<char>, n: usize)
    ensures
        final(out)@ == old(out)@ + repeat(t@, n as nat),
{
    let mut k: usize = 0;
    while k < n
        invariant
            k <= n,
            out@ == old(out)@ + repeat(t@, k as nat),
        decreases n - k,
    {
        let mut j: usize = 0;
        let ghost before = out@;
        while j < t.len()
            invariant
                j <= t@.len(),
                out@ == before + t@.take(j as int),
            decreases t@.len() - j,
        {
            out.push(t[j]);
            proof {
                assert(t@.take(j + 1) == t@.take(j as int).push(t@[j as int]));
            }
            j = j + 1;
        }
        proof {
            assert(t@.take(t@.len() as int) == t@);
            assert(repeat(t@, (k + 1) as nat) == repeat(t@, k as nat) + t@);
        }
        k = k + 1;
    }
}

/// One decoding pass over the characters of `data`.
fn decode_pass_exec(data: &Vec<char>) -> (r: Vec<char>)
    ensures
        r@ == decode_pass(data@),
{
    let n = data.len();
    let mut result: Vec<char> = Vec::new();
    let mut value: usize = 0;
    let mut overflow = false;
    let mut has_digits = false;
    let ghost mut ds: Seq<char> = seq![];
    let mut i: usize = 0;
    assert(data@.skip(0) == data@);
    while i < n
        invariant
            n == data@.len(),
            i <= n,
            pass_rec(data@, seq![]) == result@ + pass_rec(data@.skip(i as int), ds),
            has_digits == (ds.len() > 0),
            overflow == (digits_value(ds) > usize::MAX),
            !overflow ==> value == digits_value(ds),
        decreases n - i,
    {
        let c = data[i];
        let ghost rest = data@.skip(i as int);
        proof {
            assert(rest[0] == c);
            assert(rest.drop_first() == data@.skip(i + 1));
        }
        let code = c as u32;
        if 48 <= code && code <= 57 {
            let d = (code - 48) as usize;
            proof {
                lemma_digits_value_grows(ds, c);
                assert(is_digit(rest[0]));
                assert(pass_rec(rest, ds) == pass_rec(data@.skip(i + 1), ds.push(c)));
            }
            if !overflow {
                if value <= (usize::MAX - d) / 10 {
                    assert(value * 10 + d <= usize::MAX) by (nonlinear_arith)
                        requires
                            value <= (usize::MAX - d) / 10,
                            d <= 9,
                    ;
                    value = value * 10 + d;
                } else {
                    assert(value * 10 + d > usize::MAX) by (nonlinear_arith)
                        requires
                            value > (usize::MAX - d) / 10,
                            d <= 9,
                    ;
                    overflow = true;
                }
            }
            has_digits = true;
            proof {
                ds = ds.push(c);
            }
            i = i + 1;
        } else {
            let count: usize = if !has_digits || overflow {
                1
            } else {
                value
            };
            assert(count == repeat_count(ds));
            if c == '(' {
                let mut token: Vec<char> = Vec::new();
                let mut level: usize = 0;
                let mut j: usize = i + 1;
                let mut closed = false;
                proof {
                    assert(rest.drop_first() == data@.skip(i + 1));
                    assert(data@.skip(i + 1).skip(0) == data@.skip(i + 1));
                }
                while j < n && !closed
                    invariant
                        n == data@.len(),
                        i < j <= n,
                        !closed ==> group(data@.skip(i + 1), 0) == (
                            token@ + group(data@.skip(j as int), level as nat).0,
                            ((j - (i + 1)) + group(data@.skip(j as int), level as nat).1) as nat,
                        ),
                        closed ==> group(data@.skip(i + 1), 0) == (token@, (j - (i + 1)) as nat),
                        level <= j - (i + 1),
                    decreases n - j,
                {
                    let ch = data[j];
                    let ghost g = data@.skip(j as int);
                    proof {
                        assert(g[0] == ch);
                        assert(g.drop_first() == data@.skip(j + 1));
                    }
                    if ch == ')' && level == 0 {
                        closed = true;
                    } else {
                        if ch == '(' {
                            level = level + 1;
                        } else if ch == ')' {
                            level = level - 1;
                        }
                        token.push(ch);
                    }
                    j = j + 1;
                }
                proof {
                    if !closed {
                        assert(data@.skip(j as int).len() == 0);
                    }
                    assert(rest.skip((1 + group(rest.drop_first(), 0).1) as int) == data@.skip(j as int));
                }
                proof {
                    assert(!is_digit(rest[0]));
                    assert(pass_rec(rest, ds) == repeat(token@, count as nat) + pass_rec(data@.skip(j as int), seq![]));
                }
                push_repeated(&mut result, &token, count);
                i = j;
            } else {
                let single = vec![c];
                proof {
                    assert(single@ == seq![c]);
                }
                proof {
                    assert(!is_digit(rest[0]));
                    assert(pass_rec(rest, ds) == repeat(single@, count as nat) + pass_rec(data@.skip(i + 1), seq![]));
                }
                push_repeated(&mut result, &single, count);
                i = i + 1;
            }
            value = 0;
            overflow = false;
            has_digits = false;
            proof {
                ds = seq![];
            }
        }
    }
    proof {
        assert(data@.skip(n as int).len() == 0);
        assert(data@.skip(0) == data@);
    }
    result
}

/// Whether `v` holds a `(`.
fn contains_open_paren(v: &Vec<char>) -> (r: bool)
    ensures
        r == v@.contains('('),
{
    let mut i: usize = 0;
    while i < v.len()
        invariant
            i <= v@.len(),
            forall|k: int| 0 <= k < i ==> v@[k] != '(',
        decreases v@.len() - i,
    {
        if v[i] == '(' {
            assert(v@[i as int] == '(');
            return true;
        }
        i = i + 1;
    }
    false
}

/// Decoding passes until no `(` is left.
fn decode_rec(data: &Vec<char>, Ghost(fuel): Ghost<nat>) -> (r: Vec<char>)
    requires
        decode_with_fuel(data@, fuel) is Some,
    ensures
        r@ == decode_with_fuel(data@, fuel).unwrap(),
    decreases fuel,
{
    let result = decode_pass_exec(data);
    if contains_open_paren(&result) {
        decode_rec(&result, Ghost((fuel - 1) as nat))
    } else {
        result
    }
}

/// Run-length decoding: `3-##3(.$2(+*))-#` gives `---##.$+*+*.$+*+*.$+*+*-#`.
pub fn rle_decode(data: &str) -> (r: String)
    requires
        rle_decode_terminates(data@),
    ensures
        r@ == rle_decode_spec(data@),
{
    let v = chars_of(data);
    let ghost fuel = choose|n: nat| (#[trigger] decode_with_fuel(data@, n)) is Some;
    proof {
        lemma_fuel_unique(data@, fuel);
    }
    let r = decode_rec(&v, Ghost(fuel));
    string_of(&r)
}

/// Run-length decoding with at most `passes` passes: the decoding where that
/// many passes end it, none where they do not.
pub fn rle_decode_within(data: &str, passes: usize) -> (r: Option<String>)
    ensures
        r is Some <==> decode_with_fuel(data@, passes as nat) is Some,
        r matches Some(x) ==> rle_decode_terminates(data@) && x@ == rle_decode_spec(data@),
{
    let mut v = chars_of(data);
    let mut left: usize = passes;
    while left > 0
        invariant
            left <= passes,
            decode_with_fuel(v@, left as nat) == decode_with_fuel(data@, passes as nat),
        decreases left,
    {
        let result = decode_pass_exec(&v);
        if !contains_open_paren(&result) {
            proof {
                lemma_fuel_unique(data@, passes as nat);
            }
            return Some(string_of(&result));
        }
        v = result;
        left = left - 1;
    }
    None
}

/// The number of characters equal to `c` at the start of `s`.
pub open spec fn run_len(s: Seq<char>, c: char) -> nat
    decreases s.len(),
{
    if s.len() > 0 && s[0] == c {
        1 + run_len(s.drop_first(), c)
    } else {
        0
    }
}

/// A run never extends past the end of the string.
pub proof fn lemma_run_len_bound(s: Seq<char>, c: char)
    ensures
        run_len(s, c) <= s.len(),
        s.len() > 0 && s[0] == c ==> run_len(s, c) >= 1,
    decreases s.len(),
{
    if s.len() > 0 && s[0] == c {
        lemma_run_len_bound(s.drop_first(), c);
    }
}

/// The decimal digit character of `d < 10`.
pub open spec fn digit_char(d: nat) -> char {
    if d == 0 {
        '0'
    } else if d == 1 {
        '1'
    } else if d == 2 {
        '2'
    } else if d == 3 {
        '3'
    } else if d == 4 {
        '4'
    } else if d == 5 {
        '5'
    } else if d == 6 {
        '6'
    } else if d == 7 {
        '7'
    } else if d == 8 {
        '8'
    } else {
        '9'
    }
}

/// The decimal notation of `n`, without leading zeros.
pub open spec fn decimal(n: nat) -> Seq<char>
    decreases n,
{
    if n < 10 {
        seq![digit_char(n)]
    } else {
        decimal(n / 10).push(digit_char(n % 10))
    }
}

/// The run-length encoding of `s`: each run of two or more equal characters is
/// written as its length followed by the character.
pub open spec fn rle_encode_spec(s: Seq<char>) -> Seq<char>
    decreases s.len(),
{
    if s.len() == 0 {
        seq![]
    } else {
        let n = run_len(s, s[0]);
        proof {
            lemma_run_len_bound(s, s[0]);
        }
        (if n > 1 {
            decimal(n)
        } else {
            seq![]
        }) + seq![s[0]] + rle_encode_spec(s.skip(n as int))
    }
}

/// The digit character of `d < 10`.
fn digit_char_exec(d: usize) -> (r: char)
    requires
        d < 10,
    ensures
        r == digit_char(d as nat),
{
    if d == 0 {
        '0'
    } else if d == 1 {
        '1'
    } else if d == 2 {
        '2'
    } else if d == 3 {
        '3'
    } else if d == 4 {
        '4'
    } else if d == 5 {
        '5'
    } else if d == 6 {
        '6'
    } else if d == 7 {
        '7'
    } else if d == 8 {
        '8'
    } else {
        '9'
    }
}

/// Appends the decimal notation of `n`.
fn push_decimal(out: &mut Vec<char>, n: usize)
    ensures
        final(out)@ == old(out)@ + decimal(n as nat),
    decreases n,
{
    if n < 10 {
        out.push(digit_char_exec(n));
    } else {
        push_decimal(out, n / 10);
        out.push(digit_char_exec(n % 10));
    }
}

/// Run-length encoding: `aaabbbcdd` gives `3a3bc2d`.
pub fn rle_encode(data: &str) -> (r: String)
    ensures
        r@ == rle_encode_spec(data@),
{
    let v = chars_of(data);
    let n = v.len();
    let mut result: Vec<char> = Vec::new();
    let mut i: usize = 0;
    assert(v@.skip(0) == v@);
    while i < n
        invariant
            n == v@.len(),
            i <= n,
            rle_encode_spec(v@) == result@ + rle_encode_spec(v@.skip(i as int)),
        decreases n - i,
    {
        let c = v[i];
        let mut j: usize = i + 1;
        proof {
            assert(v@.skip(i as int).drop_first() == v@.skip(i + 1));
        }
        while j < n && v[j] == c
            invariant
                n == v@.len(),
                i < j <= n,
                v@[i as int] == c,
                run_len(v@.skip(i as int), c) == (j - i) + run_len(v@.skip(j as int), c),
            decreases n - j,
        {
            proof {
                assert(v@.skip(j as int).drop_first() == v@.skip(j + 1));
            }
            j = j + 1;
        }
        let count = j - i;
        proof {
            if j < n {
                assert(v@.skip(j as int)[0] != c);
            }
            assert(run_len(v@.skip(j as int), c) == 0);
            assert(v@.skip(i as int).skip(count as int) == v@.skip(j as int));
        }
        if count > 1 {
            push_decimal(&mut result, count);
        }
        result.push(c);
        proof {
            let s = v@.skip(i as int);
            assert(s[0] == c);
            assert(rle_encode_spec(s) == (if count > 1 {
                decimal(count as nat)
            } else {
                seq![]
            }) + seq![c] + rle_encode_spec(v@.skip(j as int)));
        }
        i = j;
    }
    proof {
        assert(v@.skip(n as int).len() == 0);
    }
    string_of(&result)
}

/// Whether `s` holds neither a decimal digit nor an opening parenthesis.
pub open spec fn plain_text(s: Seq<char>) -> bool {
    forall|i: int| 0 <= i < s.len() ==> !is_digit(#[trigger] s[i]) && s[i] != '('
}

/// The digit character of a digit is a digit of that value.
proof fn lemma_digit_char(d: nat)
    requires
        d < 10,
    ensures
        is_digit(digit_char(d)),
        digit_value(digit_char(d)) == d,
{
    assert('0' as u32 == 48);
    assert('1' as u32 == 49);
    assert('2' as u32 == 50);
    assert('3' as u32 == 51);
    assert('4' as u32 == 52);
    assert('5' as u32 == 53);
    assert('6' as u32 == 54);
    assert('7' as u32 == 55);
    assert('8' as u32 == 56);
    assert('9' as u32 == 57);
}

/// The decimal notation of a number is made of digits and reads back as it.
proof fn lemma_decimal_digits(n: nat)
    ensures
        decimal(n).len() >= 1,
        forall|i: int| 0 <= i < decimal(n).len() ==> is_digit(#[trigger] decimal(n)[i]),
        digits_value(decimal(n)) == n,
    decreases n,
{
    if n >= 10 {
        lemma_decimal_digits(n / 10);
        let d = decimal(n / 10);
        vstd::arithmetic::div_mod::lemma_fundamental_div_mod(n as int, 10);
        lemma_digit_char(n % 10);
        assert(decimal(n).drop_last() == d);
        assert(decimal(n).last() == digit_char(n % 10));
        assert(digits_value(decimal(n)) == digits_value(d) * 10 + digit_value(digit_char(n % 10)));
        assert((n / 10) * 10 == 10 * (n / 10)) by (nonlinear_arith);
        assert(digits_value(d) == n / 10);
        assert(digits_value(decimal(n)) == n);
        assert forall|i: int| 0 <= i < decimal(n).len() implies is_digit(#[trigger] decimal(n)[i]) by {
            if i < d.len() {
                assert(decimal(n)[i] == d[i]);
            }
        }
    } else {
        lemma_digit_char(n);
        let one = seq![digit_char(n)];
        assert(decimal(n) == one);
        assert(one.drop_last() =~= Seq::<char>::empty());
        assert(one.last() == digit_char(n));
        assert(digits_value(Seq::<char>::empty()) == 0);
        assert(digits_value(one) == digits_value(one.drop_last()) * 10 + digit_value(one.last()));
        assert(digits_value(one) == n);
    }
}

/// A decoding pass reads digits into the pending count.
proof fn lemma_pass_digits(d: Seq<char>, x: Seq<char>, ds: Seq<char>)
    requires
        forall|i: int| 0 <= i < d.len() ==> is_digit(#[trigger] d[i]),
    ensures
        pass_rec(d + x, ds) == pass_rec(x, ds + d),
    decreases d.len(),
{
    if d.len() == 0 {
        assert(d + x == x);
        assert(ds + d == ds);
    } else {
        assert((d + x)[0] == d[0]);
        assert((d + x).drop_first() == d.drop_first() + x);
        assert(forall|i: int| 0 <= i < d.drop_first().len() ==> #[trigger] d.drop_first()[i] == d[i + 1]);
        lemma_pass_digits(d.drop_first(), x, ds.push(d[0]));
        assert(ds.push(d[0]) + d.drop_first() == ds + d);
    }
}

/// The first characters of a run are the run's character.
proof fn lemma_run_chars(s: Seq<char>, c: char)
    ensures
        forall|i: int| 0 <= i < run_len(s, c) ==> #[trigger] s[i] == c,
    decreases s.len(),
{
    lemma_run_len_bound(s, c);
    if s.len() > 0 && s[0] == c {
        lemma_run_chars(s.drop_first(), c);
        assert forall|i: int| 0 <= i < run_len(s, c) implies #[trigger] s[i] == c by {
            if i > 0 {
                assert(s[i] == s.drop_first()[i - 1]);
            }
        }
    }
}

/// A run of `n` equal characters is that character repeated `n` times.
proof fn lemma_repeat_run(s: Seq<char>, c: char, n: nat)
    requires
        n <= s.len(),
        forall|i: int| 0 <= i < n ==> #[trigger] s[i] == c,
    ensures
        s.take(n as int) == repeat(seq![c], n),
    decreases n,
{
    if n > 0 {
        lemma_repeat_run(s, c, (n - 1) as nat);
        assert(s.take(n as int) == s.take(n - 1) + seq![c]);
    }
}

/// A decoding pass over the encoding of a plain text, followed by more text,
/// gives the text back, then the pass over what follows.
proof fn lemma_pass_encode(s: Seq<char>, x: Seq<char>)
    requires
        plain_text(s),
        s.len() <= usize::MAX,
    ensures
        pass_rec(rle_encode_spec(s) + x, seq![]) == s + pass_rec(x, seq![]),
    decreases s.len(),
{
    if s.len() == 0 {
        assert(rle_encode_spec(s) + x == x);
        assert(s + pass_rec(x, seq![]) == pass_rec(x, seq![]));
    } else {
        let c = s[0];
        let n = run_len(s, c);
        lemma_run_len_bound(s, c);
        lemma_run_chars(s, c);
        let pre: Seq<char> = if n > 1 {
            decimal(n)
        } else {
            seq![]
        };
        lemma_decimal_digits(n);
        let tail = s.skip(n as int);
        assert(plain_text(tail)) by {
            assert forall|i: int| 0 <= i < tail.len() implies !is_digit(#[trigger] tail[i]) && tail[i] != '(' by {
                assert(tail[i] == s[i + n]);
            }
        }
        let rest = rle_encode_spec(tail) + x;
        assert(rle_encode_spec(s) + x == pre + (seq![c] + rest));
        lemma_pass_digits(pre, seq![c] + rest, seq![]);
        assert(seq![] + pre == pre);
        assert((seq![c] + rest)[0] == c);
        assert((seq![c] + rest).drop_first() == rest);
        assert(!is_digit(c) && c != '(');
        assert(repeat_count(pre) == n);
        lemma_repeat_run(s, c, n);
        lemma_pass_encode(tail, x);
        assert(s == s.take(n as int) + tail);
        assert(pass_rec(seq![c] + rest, pre) == repeat(seq![c], n) + pass_rec(rest, seq![]));
    }
}

/// Decoding undoes encoding: the run-length decoding of the encoding of a
/// text without digits and without `(` is that text.
pub proof fn law_rle_decode_undoes_encode(s: Seq<char>)
    requires
        plain_text(s),
        s.len() <= usize::MAX,
    ensures
        rle_decode_terminates(rle_encode_spec(s)),
        rle_decode_spec(rle_encode_spec(s)) == s,
{
    let e = rle_encode_spec(s);
    lemma_pass_encode(s, seq![]);
    assert(e + seq![] == e);
    assert(pass_rec(seq![], seq![]) == Seq::<char>::empty());
    assert(decode_pass(e) == s);
    assert(!s.contains('(')) by {
        if s.contains('(') {
            let i = choose|i: int| 0 <= i < s.len() && s[i] == '(';
            assert(s[i] != '(');
        }
    }
    assert(decode_with_fuel(e, 1) == Some(s));
    lemma_fuel_unique(e, 1);
}

} // verus!
