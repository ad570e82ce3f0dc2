//! The pinned wire form of a match id — `{"s":1,"r":2,"m":3}` — with
//! its decoder, the display code `S1R2M3`, and the plain
//! signed-integer rendering of seeds.

use vstd::prelude::*;

use crate::game::{MatchId, Seed};
use vstd::string::StringExecFns;

verus! {

/// The character for decimal digit `d` (meaningful for `0 <= d < 10`).
pub open spec fn digit_char(d: int) -> char {
    if d == 0 {
        '0'
    } else if d == 1 {
        '1'
    } else if d == 2 {
        '2'
    } else if d == 3 {
        '3'
    } else if d == 4 {
        '4'
    } else if d == 5 {
        '5'
    } else if d == 6 {
        '6'
    } else if d == 7 {
        '7'
    } else if d == 8 {
        '8'
    } else {
        '9'
    }
}

/// Whether `c` is a decimal digit.
pub open spec fn is_digit(c: char) -> bool {
    ||| c == '0'
    ||| c == '1'
    ||| c == '2'
    ||| c == '3'
    ||| c == '4'
    ||| c == '5'
    ||| c == '6'
    ||| c == '7'
    ||| c == '8'
    ||| c == '9'
}

/// The value of a digit character (meaningful for digits).
pub open spec fn digit_val(c: char) -> int {
    if c == '1' {
        1
    } else if c == '2' {
        2
    } else if c == '3' {
        3
    } else if c == '4' {
        4
    } else if c == '5' {
        5
    } else if c == '6' {
        6
    } else if c == '7' {
        7
    } else if c == '8' {
        8
    } else if c == '9' {
        9
    } else {
        0
    }
}

/// Decimal digits of `n`, most significant first; empty for zero.
pub open spec fn spec_digits(n: nat) -> Seq<char>
    decreases n,
{
    if n == 0 {
        Seq::empty()
    } else {
        spec_digits(n / 10) + seq![digit_char((n % 10) as int)]
    }
}

/// The canonical decimal rendering of an unsigned number.
pub open spec fn spec_u32_str(n: nat) -> Seq<char> {
    if n == 0 {
        seq!['0']
    } else {
        spec_digits(n)
    }
}

/// The canonical decimal rendering of a signed number: the seed wire
/// form (`-1` invalid, `0` placeholder, `n > 0` a player).
pub open spec fn spec_i32_str(v: int) -> Seq<char> {
    if v < 0 {
        seq!['-'] + spec_u32_str((-v) as nat)
    } else {
        spec_u32_str(v as nat)
    }
}

/// The one-character string for a decimal digit.
fn digit_str(d: u32) -> (s: &'static str)
    requires
        d < 10,
    ensures
        s@ == seq![digit_char(d as int)],
{
    let s: &'static str = if d == 0 {
        "0"
    } else if d == 1 {
        "1"
    } else if d == 2 {
        "2"
    } else if d == 3 {
        "3"
    } else if d == 4 {
        "4"
    } else if d == 5 {
        "5"
    } else if d == 6 {
        "6"
    } else if d == 7 {
        "7"
    } else if d == 8 {
        "8"
    } else {
        "9"
    };
    proof {
        reveal_strlit("0");
        reveal_strlit("1");
        reveal_strlit("2");
        reveal_strlit("3");
        reveal_strlit("4");
        reveal_strlit("5");
        reveal_strlit("6");
        reveal_strlit("7");
        reveal_strlit("8");
        reveal_strlit("9");
        assert(s@ =~= seq![digit_char(d as int)]);
    }
    s
}

/// Append the digits of `n` (none for zero) to `out`.
fn push_digits(n: u32, out: &mut String)
    ensures
        final(out)@ == old(out)@ + spec_digits(n as nat),
    decreases n,
{
    if n == 0 {
        proof {
            assert(out@ =~= out@ + spec_digits(0));
        }
    } else {
        push_digits(n / 10, out);
        let ds = digit_str(n % 10);
        out.append(ds);
        proof {
            assert(out@ =~= old(out)@ + spec_digits(n as nat));
        }
    }
}

/// The canonical decimal text of an unsigned number.
pub fn u32_to_string(n: u32) -> (s: String)
    ensures
        s@ == spec_u32_str(n as nat),
{
    if n == 0 {
        let s = String::from_str("0");
        proof {
            reveal_strlit("0");
            assert(s@ =~= spec_u32_str(0));
        }
        s
    } else {
        let mut s = String::new();
        push_digits(n, &mut s);
        proof {
            assert(s@ =~= spec_digits(n as nat));
        }
        s
    }
}

/// The canonical decimal text of a seed, sign included.
pub fn seed_to_string(s: Seed) -> (r: String)
    ensures
        r@ == spec_i32_str(s as int),
{
    if s < 0 {
        let mut out = String::from_str("-");
        proof {
            reveal_strlit("-");
        }
        let mag: u32 = (-(s as i64)) as u32;
        let num = u32_to_string(mag);
        out.append(num.as_str());
        proof {
            assert(out@ =~= spec_i32_str(s as int));
        }
        out
    } else {
        u32_to_string(s as u32)
    }
}

/// The canonical wire text of an id: `{"s":1,"r":2,"m":3}`.
pub open spec fn spec_encode(id: MatchId) -> Seq<char> {
    seq!['{', '"', 's', '"', ':'] + spec_u32_str(id.section as nat) + seq![',', '"', 'r', '"', ':']
        + spec_u32_str(id.round as nat) + seq![',', '"', 'm', '"', ':'] + spec_u32_str(
        id.game as nat,
    ) + seq!['}']
}

/// The display code of an id: `S1R2M3`.
pub open spec fn spec_code(id: MatchId) -> Seq<char> {
    seq!['S'] + spec_u32_str(id.section as nat) + seq!['R'] + spec_u32_str(id.round as nat)
        + seq!['M'] + spec_u32_str(id.game as nat)
}

impl MatchId {
    /// Serialize this id in the compact wire form with the three
    /// short keys `s`, `r` and `m`.
    pub fn encode(&self) -> (r: String)
        ensures
            r@ == spec_encode(*self),
    {
        let mut out = String::from_str("{\"s\":");
        let n1 = u32_to_string(self.section);
        out.append(n1.as_str());
        out.append(",\"r\":");
        let n2 = u32_to_string(self.round);
        out.append(n2.as_str());
        out.append(",\"m\":");
        let n3 = u32_to_string(self.game);
        out.append(n3.as_str());
        out.append("}");
        proof {
            reveal_strlit("{\"s\":");
            reveal_strlit(",\"r\":");
            reveal_strlit(",\"m\":");
            reveal_strlit("}");
            assert(out@ =~= spec_encode(*self));
        }
        out
    }

    /// The short human-readable code of this id.
    pub fn code(&self) -> (r: String)
        ensures
            r@ == spec_code(*self),
    {
        let mut out = String::from_str("S");
        let n1 = u32_to_string(self.section);
        out.append(n1.as_str());
        out.append("R");
        let n2 = u32_to_string(self.round);
        out.append(n2.as_str());
        out.append("M");
        let n3 = u32_to_string(self.game);
        out.append(n3.as_str());
        proof {
            reveal_strlit("S");
            reveal_strlit("R");
            reveal_strlit("M");
            assert(out@ =~= spec_code(*self));
        }
        out
    }
}

/// The end of the run of digit characters starting at `i`.
pub open spec fn digit_run_end(s: Seq<char>, i: int) -> int
    decreases s.len() - i,
{
    if i < s.len() && is_digit(s[i]) {
        digit_run_end(s, i + 1)
    } else {
        i
    }
}

/// The run from `i` to `digit_run_end` is all digits and is maximal.
pub proof fn lemma_digit_run_end(s: Seq<char>, i: int)
    requires
        0 <= i <= s.len(),
    ensures
        i <= digit_run_end(s, i) <= s.len(),
        forall|k: int| i <= k < digit_run_end(s, i) ==> is_digit(s[k]),
        digit_run_end(s, i) == s.len() || !is_digit(s[digit_run_end(s, i)]),
    decreases s.len() - i,
{
    if i < s.len() && is_digit(s[i]) {
        lemma_digit_run_end(s, i + 1);
    }
}

/// Any maximal all-digit run starting at `i` ends at `digit_run_end`.
pub proof fn lemma_digit_run_end_unique(s: Seq<char>, i: int, j: int)
    requires
        0 <= i <= j <= s.len(),
        forall|k: int| i <= k < j ==> is_digit(s[k]),
        j == s.len() || !is_digit(s[j]),
    ensures
        digit_run_end(s, i) == j,
{
    lemma_digit_run_end(s, i);
    let e = digit_run_end(s, i);
    if e < j {
        assert(is_digit(s[e]));
    }
    if j < e {
        assert(is_digit(s[j]));
    }
}

/// The number a digit sequence denotes, most significant digit first.
pub open spec fn digits_val(d: Seq<char>) -> int
    decreases d.len(),
{
    if d.len() == 0 {
        0
    } else {
        digits_val(d.drop_last()) * 10 + digit_val(d.last())
    }
}

/// A digit sequence denotes a non-negative number.
pub proof fn lemma_digits_val_nonneg(d: Seq<char>)
    ensures
        digits_val(d) >= 0,
    decreases d.len(),
{
    if d.len() > 0 {
        lemma_digits_val_nonneg(d.drop_last());
    }
}

/// Dropping trailing digits can only shrink the denoted number.
pub proof fn lemma_digits_val_prefix(d: Seq<char>, k: int)
    requires
        0 <= k <= d.len(),
    ensures
        digits_val(d.subrange(0, k)) <= digits_val(d),
    decreases d.len() - k,
{
    if k == d.len() {
        assert(d.subrange(0, k) =~= d);
    } else {
        let shorter = d.drop_last();
        assert(d.subrange(0, k) =~= shorter.subrange(0, k));
        lemma_digits_val_prefix(shorter, k);
        lemma_digits_val_nonneg(shorter);
    }
}

/// A canonical number: a nonempty digit run without a superfluous
/// leading zero, denoting a value a `u32` can hold.
pub open spec fn valid_num(d: Seq<char>) -> bool {
    &&& d.len() > 0
    &&& forall|i: int| 0 <= i < d.len() ==> is_digit(d[i])
    &&& d.len() > 1 ==> d[0] != '0'
    &&& digits_val(d) <= u32::MAX
}

/// What decoding owes for any input: `Some` exactly for the canonical
/// wire texts, the id read back off the three numbers.
pub open spec fn spec_decode(s: Seq<char>) -> Option<MatchId> {
    let e1 = digit_run_end(s, 5);
    let e2 = digit_run_end(s, e1 + 5);
    let e3 = digit_run_end(s, e2 + 5);
    if s.len() < 5 || s.subrange(0, 5) != seq!['{', '"', 's', '"', ':'] {
        None
    } else if !valid_num(s.subrange(5, e1)) {
        None
    } else if e1 + 5 > s.len() || s.subrange(e1, e1 + 5) != seq![',', '"', 'r', '"', ':'] {
        None
    } else if !valid_num(s.subrange(e1 + 5, e2)) {
        None
    } else if e2 + 5 > s.len() || s.subrange(e2, e2 + 5) != seq![',', '"', 'm', '"', ':'] {
        None
    } else if !valid_num(s.subrange(e2 + 5, e3)) {
        None
    } else if e3 + 1 != s.len() || s[e3] != '}' {
        None
    } else {
        Some(
            MatchId {
                section: digits_val(s.subrange(5, e1)) as u32,
                round: digits_val(s.subrange(e1 + 5, e2)) as u32,
                game: digits_val(s.subrange(e2 + 5, e3)) as u32,
            },
        )
    }
}

/// The digit string of a positive number is a nonempty digit run with
/// no leading zero, and it denotes the number itself.
pub proof fn lemma_digits_props(n: nat)
    ensures
        forall|k: int| 0 <= k < spec_digits(n).len() ==> is_digit(spec_digits(n)[k]),
        n > 0 ==> spec_digits(n).len() > 0,
        n > 0 ==> spec_digits(n)[0] != '0',
        digits_val(spec_digits(n)) == n,
    decreases n,
{
    if n > 0 {
        lemma_digits_props(n / 10);
        let d = spec_digits(n);
        let pre = spec_digits(n / 10);
        let c = digit_char((n % 10) as int);
        assert(d.drop_last() =~= pre);
        assert(d.last() == c);
        assert(digit_val(c) == n % 10);
        assert(digits_val(d) == (n / 10) * 10 + n % 10);
        if n / 10 == 0 {
            assert(d =~= seq![c]);
            assert(n % 10 == n);
        } else {
            assert(d[0] == pre[0]);
        }
    }
}

/// The canonical rendering of any `u32` value is a canonical number
/// denoting that value.
pub proof fn lemma_u32_str_props(n: nat)
    requires
        n <= u32::MAX,
    ensures
        valid_num(spec_u32_str(n)),
        digits_val(spec_u32_str(n)) == n,
        spec_u32_str(n).len() > 0,
        forall|k: int| 0 <= k < spec_u32_str(n).len() ==> is_digit(spec_u32_str(n)[k]),
{
    lemma_digits_props(n);
    if n == 0 {
        let d = spec_u32_str(0);
        assert(d.drop_last() =~= Seq::<char>::empty());
        assert(digits_val(d) == 0);
    }
}

/// Wire round trip: decoding the canonical text of any id yields that
/// id back, exactly.
pub proof fn lemma_round_trip(id: MatchId)
    ensures
        spec_decode(spec_encode(id)) == Some(id),
{
    let s = spec_encode(id);
    let lit1 = seq!['{', '"', 's', '"', ':'];
    let lit2 = seq![',', '"', 'r', '"', ':'];
    let lit3 = seq![',', '"', 'm', '"', ':'];
    let num1 = spec_u32_str(id.section as nat);
    let num2 = spec_u32_str(id.round as nat);
    let num3 = spec_u32_str(id.game as nat);
    lemma_u32_str_props(id.section as nat);
    lemma_u32_str_props(id.round as nat);
    lemma_u32_str_props(id.game as nat);
    let e1 = 5 + num1.len() as int;
    let e2 = e1 + 5 + num2.len() as int;
    let e3 = e2 + 5 + num3.len() as int;
    assert(s.len() == e3 + 1);
    assert(s.subrange(0, 5) =~= lit1);
    assert(s.subrange(5, e1) =~= num1);
    assert(s.subrange(e1, e1 + 5) =~= lit2);
    assert(s.subrange(e1 + 5, e2) =~= num2);
    assert(s.subrange(e2, e2 + 5) =~= lit3);
    assert(s.subrange(e2 + 5, e3) =~= num3);
    assert(s[e3] == '}');
    assert forall|k: int| 5 <= k < e1 implies is_digit(s[k]) by {
        assert(s[k] == s.subrange(5, e1)[k - 5]);
    }
    assert(!is_digit(s[e1]));
    lemma_digit_run_end_unique(s, 5, e1);
    assert forall|k: int| e1 + 5 <= k < e2 implies is_digit(s[k]) by {
        assert(s[k] == s.subrange(e1 + 5, e2)[k - (e1 + 5)]);
    }
    assert(!is_digit(s[e2]));
    lemma_digit_run_end_unique(s, e1 + 5, e2);
    assert forall|k: int| e2 + 5 <= k < e3 implies is_digit(s[k]) by {
        assert(s[k] == s.subrange(e2 + 5, e3)[k - (e2 + 5)]);
    }
    assert(!is_digit(s[e3]));
    lemma_digit_run_end_unique(s, e2 + 5, e3);
    assert(spec_decode(s) == Some(id));
}

/// Whether `c` is a decimal digit.
fn is_digit_char(c: char) -> (r: bool)
    ensures
        r == is_digit(c),
{
    c == '0' || c == '1' || c == '2' || c == '3' || c == '4' || c == '5' || c == '6' || c == '7'
        || c == '8' || c == '9'
}

/// The value of a digit character.
fn digit_value(c: char) -> (r: u32)
    ensures
        r == digit_val(c),
{
    if c == '1' {
        1
    } else if c == '2' {
        2
    } else if c == '3' {
        3
    } else if c == '4' {
        4
    } else if c == '5' {
        5
    } else if c == '6' {
        6
    } else if c == '7' {
        7
    } else if c == '8' {
        8
    } else if c == '9' {
        9
    } else {
        0
    }
}

/// Whether the five characters of `s` at `i` are exactly the given ones.
fn expect5(s: &str, i: usize, c0: char, c1: char, c2: char, c3: char, c4: char) -> (r: bool)
    requires
        i + 5 <= s@.len(),
        s@.len() <= usize::MAX,
    ensures
        r == (s@.subrange(i as int, i as int + 5) == seq![c0, c1, c2, c3, c4]),
{
    let ghost sub = s@.subrange(i as int, i as int + 5);
    proof {
        assert(sub[0] == s@[i as int]);
        assert(sub[1] == s@[i as int + 1]);
        assert(sub[2] == s@[i as int + 2]);
        assert(sub[3] == s@[i as int + 3]);
        assert(sub[4] == s@[i as int + 4]);
    }
    let r = s.get_char(i) == c0 && s.get_char(i + 1) == c1 && s.get_char(i + 2) == c2 && s.get_char(
        i + 3,
    ) == c3 && s.get_char(i + 4) == c4;
    proof {
        if r {
            assert(sub =~= seq![c0, c1, c2, c3, c4]);
        }
    }
    r
}

/// Read the canonical number starting at `i`: its value and the index
/// just past it, or nothing where the digit run there is no canonical
/// number.
fn parse_num(s: &str, i: usize) -> (r: Option<(u32, usize)>)
    requires
        i <= s@.len(),
    ensures
        ({
            let e = digit_run_end(s@, i as int);
            match r {
                Some((v, j)) => {
                    &&& j == e
                    &&& valid_num(s@.subrange(i as int, e))
                    &&& v == digits_val(s@.subrange(i as int, e))
                },
                None => !valid_num(s@.subrange(i as int, e)),
            }
        }),
{
    proof {
        lemma_digit_run_end(s@, i as int);
    }
    let ghost e = digit_run_end(s@, i as int);
    let n = s.unicode_len();
    let mut j = i;
    let mut v: u64 = 0;
    while j < n && is_digit_char(s.get_char(j))
        invariant
            i <= j <= n,
            n == s@.len(),
            e == digit_run_end(s@, i as int),
            i as int <= e <= n,
            forall|k: int| i <= k < j ==> is_digit(s@[k]),
            j <= e,
            v == digits_val(s@.subrange(i as int, j as int)),
            v <= u32::MAX,
            forall|k: int| i <= k < e ==> is_digit(s@[k]),
            e == s@.len() || !is_digit(s@[e as int]),
        decreases n - j,
    {
        let c = s.get_char(j);
        let d = digit_value(c);
        proof {
            assert(d <= 9) by {
                assert(is_digit(c));
            }
            assert(s@.subrange(i as int, j as int + 1).drop_last() =~= s@.subrange(
                i as int,
                j as int,
            ));
            assert(s@.subrange(i as int, j as int + 1).last() == s@[j as int]);
        }
        v = v * 10 + d as u64;
        if v > 0xFFFF_FFFFu64 {
            proof {
                assert(j as int + 1 <= e);
                let run = s@.subrange(i as int, e);
                assert(s@.subrange(i as int, j as int + 1) =~= run.subrange(
                    0,
                    j as int + 1 - i,
                ));
                assert(v == digits_val(s@.subrange(i as int, j as int + 1)));
                lemma_digits_val_prefix(run, j as int + 1 - i);
                assert(digits_val(run) > u32::MAX);
                assert(!valid_num(run));
            }
            return None;
        }
        j += 1;
    }
    proof {
        lemma_digit_run_end_unique(s@, i as int, j as int);
        assert(j == e);
    }
    if j == i {
        proof {
            assert(!valid_num(s@.subrange(i as int, e)));
        }
        return None;
    }
    if j - i > 1 && s.get_char(i) == '0' {
        proof {
            assert(s@.subrange(i as int, e)[0] == s@[i as int]);
            assert(!valid_num(s@.subrange(i as int, e)));
        }
        return None;
    }
    proof {
        assert(valid_num(s@.subrange(i as int, e)));
    }
    Some((v as u32, j))
}

impl MatchId {
    /// Decode the compact wire form; `None` for any text that is not
    /// the canonical encoding of some id.
    pub fn decode(s: &str) -> (r: Option<MatchId>)
        ensures
            r == spec_decode(s@),
    {
        let n = s.unicode_len();
        if n < 5 || !expect5(s, 0, '{', '"', 's', '"', ':') {
            return None;
        }
        let (section, e1) = match parse_num(s, 5) {
            None => {
                return None;
            },
            Some(p) => p,
        };
        proof {
            lemma_digit_run_end(s@, 5);
        }
        if e1 > n - 5 || !expect5(s, e1, ',', '"', 'r', '"', ':') {
            return None;
        }
        let (round, e2) = match parse_num(s, e1 + 5) {
            None => {
                return None;
            },
            Some(p) => p,
        };
        proof {
            lemma_digit_run_end(s@, e1 as int + 5);
        }
        if e2 > n - 5 || !expect5(s, e2, ',', '"', 'm', '"', ':') {
            return None;
        }
        let (game, e3) = match parse_num(s, e2 + 5) {
            None => {
                return None;
            },
            Some(p) => p,
        };
        proof {
            lemma_digit_run_end(s@, e2 as int + 5);
        }
        if e3 != n - 1 || s.get_char(e3) != '}' {
            return None;
        }
        Some(MatchId { section, round, game })
    }
}

} // verus!
