//! Names of the log files: generation `g` lives in `<g>.log`.
use vstd::prelude::*;

verus! {

/// `c` is a decimal digit.
pub open spec fn is_digit(c: char) -> bool {
    '0' <= c && c <= '9'
}

/// The value of the digit `c`.
pub open spec fn digit_value(c: char) -> nat {
    ((c as u32) - ('0' as u32)) as nat
}

/// The value of the decimal numeral `s`.
pub open spec fn digits_value(s: Seq<char>) -> nat
    decreases s.len(),
{
    if s.len() == 0 {
        0
    } else {
        digits_value(s.drop_last()) * 10 + digit_value(s.last())
    }
}

/// The digit of `d`, for `d < 10`.
pub open spec fn digit_char(d: nat) -> char {
    ((48 + d) as u8) as char
}

/// The decimal numeral of `n`, without leading zeros.
pub open spec fn decimal(n: nat) -> Seq<char>
    decreases n,
{
    if n < 10 {
        seq![digit_char(n)]
    } else {
        decimal(n / 10).push(digit_char(n % 10))
    }
}

/// The extension of a log file name.
pub open spec fn log_suffix() -> Seq<char> {
    seq!['.', 'l', 'o', 'g']
}

/// The file name of generation `gen`.
pub open spec fn log_name(gen: u64) -> Seq<char> {
    decimal(gen as nat) + log_suffix()
}

/// The generation that the file name `s` names: `s` is a decimal numeral
/// without leading zeros, whose value fits in a `u64`, followed by `.log`.
pub open spec fn gen_of_name(s: Seq<char>) -> Option<u64> {
    let stem = s.subrange(0, s.len() - 4);
    if s.len() > 4 && s.subrange(s.len() - 4, s.len() as int) == log_suffix() && (forall|i: int|
        0 <= i < stem.len() ==> is_digit(#[trigger] stem[i])) && (stem[0] != '0' || stem.len()
        == 1) && digits_value(stem) <= u64::MAX {
        Some(digits_value(stem) as u64)
    } else {
        None
    }
}

/// The generations are strictly ascending.
pub open spec fn strictly_ascending(v: Seq<u64>) -> bool {
    forall|i: int, j: int| 0 <= i < j < v.len() ==> v[i] < v[j]
}

proof fn lemma_digits_value_prefix(s: Seq<char>, i: int)
    requires
        0 <= i <= s.len(),
    ensures
        digits_value(s.subrange(0, i)) <= digits_value(s),
    decreases s.len(),
{
    if i < s.len() {
        lemma_digits_value_prefix(s.drop_last(), i);
        assert(s.drop_last().subrange(0, i) =~= s.subrange(0, i));
    } else {
        assert(s.subrange(0, i) =~= s);
    }
}

/// Relies on `String::push`: it appends one character.
#[verifier::external_body]
fn push_char(s: &mut String, c: char)
    ensures
        final(s)@ == old(s)@.push(c),
{
    s.push(c);
}

fn push_decimal(s: &mut String, n: u64)
    ensures
        final(s)@ == old(s)@ + decimal(n as nat),
    decreases n,
{
    let ghost s0 = s@;
    if n >= 10 {
        push_decimal(s, n / 10);
    }
    let d = (n % 10) as u8;
    push_char(s, (48u8 + d) as char);
    if n >= 10 {
        assert(s@ =~= s0 + decimal(n as nat));
    } else {
        assert(s@ =~= s0 + decimal(n as nat));
    }
}

/// The path of the log file of `gen` in the directory `dir`.
pub fn log_path(dir: &str, gen: u64) -> (r: String)
    ensures
        r@ == dir@ + seq!['/'] + log_name(gen),
{
    let mut s = dir.to_owned();
    push_char(&mut s, '/');
    push_decimal(&mut s, gen);
    push_char(&mut s, '.');
    push_char(&mut s, 'l');
    push_char(&mut s, 'o');
    push_char(&mut s, 'g');
    assert(s@ =~= dir@ + seq!['/'] + log_name(gen));
    s
}

/// The generation that a file name names, if it is the name of a log file.
pub fn parse_gen(name: &str) -> (r: Option<u64>)
    ensures
        r == gen_of_name(name@),
{
    let n = name.unicode_len();
    if n <= 4 {
        return None;
    }
    let ghost s = name@;
    let m = n - 4;
    let ghost stem = s.subrange(0, m as int);
    if !(name.get_char(m) == '.' && name.get_char(m + 1) == 'l' && name.get_char(m + 2) == 'o'
        && name.get_char(m + 3) == 'g') {
        assert(s.subrange(m as int, n as int) != log_suffix()) by {
            if s.subrange(m as int, n as int) == log_suffix() {
                assert(s.subrange(m as int, n as int)[0] == s[m as int]);
                assert(s.subrange(m as int, n as int)[1] == s[m + 1]);
                assert(s.subrange(m as int, n as int)[2] == s[m + 2]);
                assert(s.subrange(m as int, n as int)[3] == s[m + 3]);
            }
        }
        return None;
    }
    assert(s.subrange(m as int, n as int) =~= log_suffix());
    if name.get_char(0) == '0' && m != 1 {
        assert(stem[0] == '0');
        return None;
    }
    let mut v: u64 = 0;
    let mut i: usize = 0;
    while i < m
        invariant
            m + 4 == n,
            n == s.len(),
            s == name@,
            stem == s.subrange(0, m as int),
            0 <= i <= m,
            forall|t: int| 0 <= t < i ==> is_digit(#[trigger] stem[t]),
            v as nat == digits_value(stem.subrange(0, i as int)),
        decreases m - i,
    {
        let c = name.get_char(i);
        assert(c == stem[i as int]);
        if !('0' <= c && c <= '9') {
            assert(!is_digit(stem[i as int]));
            assert(s.subrange(0, s.len() - 4) == stem);
            return None;
        }
        let d = ((c as u32) - ('0' as u32)) as u64;
        assert(stem.subrange(0, i + 1).drop_last() =~= stem.subrange(0, i as int));
        assert(digits_value(stem.subrange(0, i + 1)) == v * 10 + d);
        if v > (u64::MAX - d) / 10 {
            assert(v * 10 + d > u64::MAX) by (nonlinear_arith)
                requires
                    v > (u64::MAX - d) / 10,
                    d <= 9,
            ;
            proof {
                lemma_digits_value_prefix(stem, i + 1);
                assert(s.subrange(0, s.len() - 4) == stem);
                assert(digits_value(stem) > u64::MAX);
            }
            return None;
        }
        assert(v * 10 + d <= u64::MAX) by (nonlinear_arith)
            requires
                v <= (u64::MAX - d) / 10,
                d <= 9,
        ;
        v = v * 10 + d;
        i = i + 1;
    }
    assert(stem.subrange(0, m as int) =~= stem);
    Some(v)
}

/// Inserts `g` into the strictly ascending `v`, unless it is there.
fn insert_sorted(v: &mut Vec<u64>, g: u64)
    requires
        strictly_ascending(old(v)@),
    ensures
        strictly_ascending(final(v)@),
        forall|x: u64| final(v)@.contains(x) <==> (old(v)@.contains(x) || x == g),
{
    let mut p: usize = 0;
    while p < v.len() && v[p] < g
        invariant
            0 <= p <= v@.len(),
            forall|t: int| 0 <= t < p ==> v@[t] < g,
        decreases v@.len() - p,
    {
        p = p + 1;
    }
    if p < v.len() && v[p] == g {
        return;
    }
    let ghost v0 = v@;
    v.insert(p, g);
    proof {
        let v1 = v@;
        assert forall|i: int, j: int| 0 <= i < j < v1.len() implies v1[i] < v1[j] by {
            if j < p {
            } else if j == p {
            } else if i < p {
                assert(v1[j] == v0[j - 1]);
                if p < v0.len() {
                    assert(v0[p as int] > g);
                    assert(v0[p as int] <= v0[j - 1]);
                }
            } else if i == p {
                assert(v0[p as int] > g);
                assert(v0[p as int] <= v0[j - 1]);
            } else {
                assert(v1[i] == v0[i - 1] && v1[j] == v0[j - 1]);
            }
        }
        assert forall|x: u64| v1.contains(x) <==> (v0.contains(x) || x == g) by {
            if v0.contains(x) {
                let t = choose|t: int| 0 <= t < v0.len() && v0[t] == x;
                if t < p {
                    assert(v1[t] == x);
                } else {
                    assert(v1[t + 1] == x);
                }
            }
            if x == g {
                assert(v1[p as int] == g);
            }
            if v1.contains(x) {
                let t = choose|t: int| 0 <= t < v1.len() && v1[t] == x;
                if t < p {
                    assert(v0[t] == x);
                } else if t > p {
                    assert(v0[t - 1] == x);
                }
            }
        }
    }
}

/// The generations that `names` hold log files of, ascending and each once.
pub fn sort_gen_list(names: &Vec<String>) -> (r: Vec<u64>)
    ensures
        strictly_ascending(r@),
        forall|g: u64|
            r@.contains(g) <==> exists|j: int|
                0 <= j < names@.len() && #[trigger] gen_of_name(names@[j]@) == Some(g),
{
    let mut r: Vec<u64> = Vec::new();
    let mut j: usize = 0;
    while j < names.len()
        invariant
            0 <= j <= names@.len(),
            strictly_ascending(r@),
            forall|g: u64|
                r@.contains(g) <==> exists|t: int|
                    0 <= t < j && #[trigger] gen_of_name(names@[t]@) == Some(g),
        decreases names@.len() - j,
    {
        let ghost r0 = r@;
        match parse_gen(names[j].as_str()) {
            Some(g) => {
                insert_sorted(&mut r, g);
            },
            None => {},
        }
        proof {
            assert forall|g: u64| r@.contains(g) <==> exists|t: int|
                0 <= t < j + 1 && #[trigger] gen_of_name(names@[t]@) == Some(g) by {
                if exists|t: int| 0 <= t < j + 1 && #[trigger] gen_of_name(names@[t]@) == Some(g) {
                    let t = choose|t: int| 0 <= t < j + 1 && #[trigger] gen_of_name(names@[t]@) == Some(g);
                    if t < j {
                        assert(r0.contains(g));
                    }
                }
                if r0.contains(g) {
                    let t = choose|t: int| 0 <= t < j && #[trigger] gen_of_name(names@[t]@) == Some(g);
                    assert(0 <= t < j + 1);
                }
            }
        }
        j = j + 1;
    }
    r
}

} // verus!
