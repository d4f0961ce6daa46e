//! Text helpers: decimal numerals, parsing a port number, and replacing a
//! pattern throughout a string.
use vstd::prelude::*;

verus! {

/// The character of decimal digit `d`.
pub open spec fn digit_char(d: nat) -> char {
    (48 + d) as char
}

/// Whether `c` is an ASCII decimal digit.
pub open spec fn is_digit(c: char) -> bool {
    '0' <= c <= '9'
}

/// The value of ASCII digit `c`.
pub open spec fn digit_value(c: char) -> nat {
    (c as int - 48) as nat
}

/// The decimal numeral of `n`, without sign or leading zeros.
pub open spec fn decimal(n: nat) -> Seq<char>
    decreases n,
{
    if n < 10 {
        seq![digit_char(n)]
    } else {
        decimal(n / 10) + seq![digit_char(n % 10)]
    }
}

/// The number that a string of decimal digits denotes.
pub open spec fn digits_value(s: Seq<char>) -> nat
    decreases s.len(),
{
    if s.len() == 0 {
        0
    } else {
        digits_value(s.drop_last()) * 10 + digit_value(s.last())
    }
}

/// Whether every character of `s` is a decimal digit.
pub open spec fn all_digits(s: Seq<char>) -> bool {
    forall|i: int| 0 <= i < s.len() ==> is_digit(#[trigger] s[i])
}

/// The digits of a numeral: what follows one optional leading `+`.
pub open spec fn unsigned_digits(s: Seq<char>) -> Seq<char> {
    if s.len() > 0 && s[0] == '+' {
        s.skip(1)
    } else {
        s
    }
}

/// What parsing `s` as a 16-bit unsigned integer gives: an optional `+`,
/// then one or more decimal digits whose value fits in 16 bits.
pub open spec fn parsed_u16(s: Seq<char>) -> Option<u16> {
    let d = unsigned_digits(s);
    if d.len() > 0 && all_digits(d) && digits_value(d) <= u16::MAX {
        Some(digits_value(d) as u16)
    } else {
        None
    }
}

/// `s` with every occurrence of `pat`, found from left to right without
/// overlap, replaced by `rep`. An empty pattern occurs before every character
/// and at the end.
pub open spec fn replaced(s: Seq<char>, pat: Seq<char>, rep: Seq<char>) -> Seq<char>
    decreases s.len(),
{
    if pat.len() == 0 {
        if s.len() == 0 {
            rep
        } else {
            rep + seq![s[0]] + replaced(s.skip(1), pat, rep)
        }
    } else if s.len() == 0 {
        s
    } else if pat.len() <= s.len() && s.take(pat.len() as int) == pat {
        rep + replaced(s.skip(pat.len() as int), pat, rep)
    } else {
        seq![s[0]] + replaced(s.skip(1), pat, rep)
    }
}

/// The one-character string of decimal digit `d`.
fn digit_str(d: u64) -> (s: &'static str)
    requires
        d < 10,
    ensures
        s@ == seq![digit_char(d as nat)],
{
    proof {
        reveal_strlit("0");
        reveal_strlit("1");
        reveal_strlit("2");
        reveal_strlit("3");
        reveal_strlit("4");
        reveal_strlit("5");
        reveal_strlit("6");
        reveal_strlit("7");
        reveal_strlit("8");
        reveal_strlit("9");
    }
    let s = if d == 0 {
        "0"
    } else if d == 1 {
        "1"
    } else if d == 2 {
        "2"
    } else if d == 3 {
        "3"
    } else if d == 4 {
        "4"
    } else if d == 5 {
        "5"
    } else if d == 6 {
        "6"
    } else if d == 7 {
        "7"
    } else if d == 8 {
        "8"
    } else {
        "9"
    };
    assert(s@ =~= seq![digit_char(d as nat)]);
    s
}

/// The decimal numeral of `n`.
pub fn decimal_string(n: u64) -> (s: String)
    ensures
        s@ == decimal(n as nat),
    decreases n,
{
    if n < 10 {
        String::from_str(digit_str(n))
    } else {
        let mut s = decimal_string(n / 10);
        s.append(digit_str(n % 10));
        s
    }
}

/// The characters of `s`, one by one.
pub fn chars_of(s: &str) -> (r: Vec<char>)
    ensures
        r@ == s@,
{
    let n = s.unicode_len();
    let mut r: Vec<char> = Vec::new();
    let mut i: usize = 0;
    while i < n
        invariant
            n == s@.len(),
            i <= n,
            r@ == s@.take(i as int),
        decreases n - i,
    {
        r.push(s.get_char(i));
        proof { assert(s@.take(i + 1) =~= s@.take(i as int).push(s@[i as int])); }
        i = i + 1;
    }
    assert(s@.take(n as int) =~= s@);
    r
}

/// Lemma: a prefix of a string of digits denotes no more than the whole.
pub proof fn lemma_digits_value_prefix(s: Seq<char>, i: int)
    requires
        0 <= i <= s.len(),
    ensures
        digits_value(s.take(i)) <= digits_value(s),
    decreases s.len() - i,
{
    if i < s.len() {
        lemma_digits_value_prefix(s, i + 1);
        let t = s.take(i + 1);
        assert(t.drop_last() =~= s.take(i));
    } else {
        assert(s.take(i) =~= s);
    }
}

/// Parses a TCP port number as `str::parse::<u16>` does: an optional `+`,
/// then one or more decimal digits whose value fits in 16 bits.
pub fn parse_port(s: &str) -> (r: Option<u16>)
    ensures
        r == parsed_u16(s@),
{
    let cs = chars_of(s);
    let start: usize = if cs.len() > 0 && cs[0] == '+' { 1 } else { 0 };
    let ghost d = unsigned_digits(s@);
    assert(d =~= cs@.skip(start as int));
    if start >= cs.len() {
        return None;
    }
    let mut acc: u64 = 0;
    let mut i: usize = start;
    while i < cs.len()
        invariant
            cs@ == s@,
            d == unsigned_digits(s@),
            d == cs@.skip(start as int),
            start <= i <= cs@.len(),
            acc == digits_value(d.take(i - start)),
            acc <= u16::MAX,
            all_digits(d.take(i - start)),
        decreases cs@.len() - i,
    {
        let c = cs[i];
        let ghost k = i - start;
        proof { assert(d.take(k + 1).drop_last() =~= d.take(k)); }
        if !('0' <= c && c <= '9') {
            proof {
                assert(d[k] == c);
                assert(!all_digits(d));
            }
            return None;
        }
        let v = acc * 10 + (c as u64 - 48);
        if v > 65535 {
            proof {
                assert(d.take(k + 1).last() == c);
                assert(all_digits(d.take(k + 1)));
                lemma_digits_value_prefix(d, k + 1);
            }
            return None;
        }
        acc = v;
        proof {
            assert(d.take(k + 1).last() == c);
            assert forall|j: int| 0 <= j < k + 1 implies is_digit(#[trigger] d.take(k + 1)[j]) by {
                if j < k {
                    assert(d.take(k + 1)[j] == d.take(k)[j]);
                }
            }
        }
        i = i + 1;
    }
    assert(d.take(cs@.len() - start) =~= d);
    Some(acc as u16)
}

/// Whether `pat` occurs in `cs` at position `i`.
fn occurs_at(cs: &Vec<char>, i: usize, pat: &Vec<char>) -> (r: bool)
    requires
        i <= cs@.len(),
    ensures
        r == (i + pat@.len() <= cs@.len() && cs@.subrange(i as int, i + pat@.len()) == pat@),
{
    if pat.len() > cs.len() - i {
        return false;
    }
    let mut j: usize = 0;
    while j < pat.len()
        invariant
            i + pat.len() <= cs.len(),
            j <= pat@.len(),
            forall|m: int| 0 <= m < j ==> cs@[i + m] == #[trigger] pat@[m],
        decreases pat@.len() - j,
    {
        if cs[i + j] != pat[j] {
            assert(cs@.subrange(i as int, i + pat@.len())[j as int] != pat@[j as int]);
            return false;
        }
        j = j + 1;
    }
    assert(cs@.subrange(i as int, i + pat@.len()) =~= pat@);
    true
}

/// `s` with `rep` before every character and at the end.
fn interleave(s: &str, rep: &str) -> (r: String)
    ensures
        r@ == replaced(s@, Seq::<char>::empty(), rep@),
{
    let n = s.unicode_len();
    let mut out = String::new();
    let mut i: usize = 0;
    let ghost e = Seq::<char>::empty();
    assert(s@.skip(0) =~= s@);
    while i < n
        invariant
            n == s@.len(),
            i <= n,
            e == Seq::<char>::empty(),
            out@ + replaced(s@.skip(i as int), e, rep@) == replaced(s@, e, rep@),
        decreases n - i,
    {
        let ghost t = s@.skip(i as int);
        let one = s.substring_char(i, i + 1);
        proof {
            assert(t.skip(1) =~= s@.skip(i + 1));
            assert(one@ =~= seq![t[0]]);
            assert(out@ + rep@ + one@ + replaced(t.skip(1), e, rep@) =~= out@ + (rep@ + seq![t[0]] + replaced(t.skip(1), e, rep@)));
        }
        out.append(rep);
        out.append(one);
        i = i + 1;
    }
    proof {
        assert(s@.skip(n as int) =~= Seq::<char>::empty());
    }
    out.append(rep);
    out
}

/// `s` with every occurrence of `pat` replaced by `rep`, as `str::replace`
/// does.
pub fn replace_all(s: &str, pat: &str, rep: &str) -> (r: String)
    ensures
        r@ == replaced(s@, pat@, rep@),
{
    if pat.unicode_len() == 0 {
        proof { assert(pat@ =~= Seq::<char>::empty()); }
        return interleave(s, rep);
    }
    let cs = chars_of(s);
    let ps = chars_of(pat);
    let n = cs.len();
    let k = ps.len();
    let mut out = String::new();
    let mut i: usize = 0;
    assert(s@.skip(0) =~= s@);
    while i < n
        invariant
            cs@ == s@,
            ps@ == pat@,
            n == s@.len(),
            k == pat@.len(),
            k > 0,
            i <= n,
            out@ + replaced(s@.skip(i as int), pat@, rep@) == replaced(s@, pat@, rep@),
        decreases n - i,
    {
        let ghost t = s@.skip(i as int);
        if occurs_at(&cs, i, &ps) {
            proof {
                assert(t.take(k as int) =~= s@.subrange(i as int, i + k));
                assert(t.skip(k as int) =~= s@.skip(i + k));
                assert(out@ + rep@ + replaced(t.skip(k as int), pat@, rep@) =~= out@ + (rep@ + replaced(t.skip(k as int), pat@, rep@)));
            }
            out.append(rep);
            i = i + k;
        } else {
            proof {
                if k <= t.len() {
                    assert(t.take(k as int) =~= s@.subrange(i as int, i + k));
                }
                assert(t.skip(1) =~= s@.skip(i + 1));
            }
            let one = s.substring_char(i, i + 1);
            proof {
                assert(one@ =~= seq![t[0]]);
                assert(out@ + one@ + replaced(t.skip(1), pat@, rep@) =~= out@ + (seq![t[0]] + replaced(t.skip(1), pat@, rep@)));
            }
            out.append(one);
            i = i + 1;
        }
    }
    proof {
        assert(s@.skip(n as int) =~= Seq::<char>::empty());
        assert(out@ + Seq::<char>::empty() =~= out@);
    }
    out
}

} // verus!
