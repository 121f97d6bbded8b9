use vstd::prelude::*;
use vstd::arithmetic::div_mod::lemma_fundamental_div_mod;

verus! {

/// Width, in characters, of an encoded number: every length and count is
/// written as exactly this many decimal digits, zero padded.
pub const NUM_WIDTH: usize = 20;

/// Powers of ten.
pub open spec fn pow10(w: nat) -> nat
    decreases w,
{
    if w == 0 {
        1
    } else {
        10 * pow10((w - 1) as nat)
    }
}

/// Every unsigned 64-bit value fits in `NUM_WIDTH` decimal digits.
pub proof fn lemma_pow10_num_width()
    ensures
        pow10(NUM_WIDTH as nat) == 100_000_000_000_000_000_000,
{
    reveal_with_fuel(pow10, 21);
}

/// The decimal digit character for a value below ten.
pub open spec fn spec_digit(d: nat) -> char
    recommends
        d < 10,
{
    if d == 0 { '0' } else if d == 1 { '1' } else if d == 2 { '2' } else if d == 3 { '3' }
    else if d == 4 { '4' } else if d == 5 { '5' } else if d == 6 { '6' } else if d == 7 { '7' }
    else if d == 8 { '8' } else { '9' }
}

/// Whether `c` is a decimal digit character.
pub open spec fn is_digit(c: char) -> bool {
    c == '0' || c == '1' || c == '2' || c == '3' || c == '4' || c == '5' || c == '6' || c == '7'
        || c == '8' || c == '9'
}

/// The numeric value of a single decimal digit character.
pub open spec fn digit_val(c: char) -> int {
    if c == '0' { 0 } else if c == '1' { 1 } else if c == '2' { 2 } else if c == '3' { 3 }
    else if c == '4' { 4 } else if c == '5' { 5 } else if c == '6' { 6 } else if c == '7' { 7 }
    else if c == '8' { 8 } else { 9 }
}

/// The numeric value of a sequence of decimal digit characters, read most
/// significant first.
pub open spec fn digits_val(s: Seq<char>) -> int
    decreases s.len(),
{
    if s.len() == 0 {
        0
    } else {
        digits_val(s.drop_last()) * 10 + digit_val(s.last())
    }
}

/// `n` written as exactly `w` decimal digits, zero padded, most significant
/// first.
pub open spec fn enc_num_rec(n: nat, w: nat) -> Seq<char>
    decreases w,
{
    if w == 0 {
        Seq::empty()
    } else {
        enc_num_rec(n / 10, (w - 1) as nat).push(spec_digit(n % 10))
    }
}

/// A length or count in its canonical fixed-width form.
pub open spec fn enc_len(n: nat) -> Seq<char> {
    enc_num_rec(n, NUM_WIDTH as nat)
}

/// A string in its canonical form: its character count, then its characters
/// as they stand.
pub open spec fn enc_str(t: Seq<char>) -> Seq<char> {
    enc_len(t.len()) + t
}

/// A flag in its canonical form: one character.
pub open spec fn enc_bool(b: bool) -> Seq<char> {
    if b {
        seq!['1']
    } else {
        seq!['0']
    }
}

/// The fixed-width encoding of `n < pow10(w)` is `w` digit characters whose
/// value reads back as `n`.
pub proof fn lemma_enc_num_rec(n: nat, w: nat)
    requires
        n < pow10(w),
    ensures
        enc_num_rec(n, w).len() == w,
        forall|i: int| 0 <= i < w ==> is_digit(#[trigger] enc_num_rec(n, w)[i]),
        digits_val(enc_num_rec(n, w)) == n,
    decreases w,
{
    if w > 0 {
        lemma_fundamental_div_mod(n as int, 10);
        assert(n / 10 < pow10((w - 1) as nat));
        lemma_enc_num_rec(n / 10, (w - 1) as nat);
        let e = enc_num_rec(n, w);
        assert(e.drop_last() == enc_num_rec(n / 10, (w - 1) as nat));
        assert(e.last() == spec_digit(n % 10));
        assert(is_digit(spec_digit(n % 10)));
        assert(digit_val(spec_digit(n % 10)) == n % 10);
        assert(forall|i: int|
            0 <= i < w - 1 ==> e[i] == #[trigger] enc_num_rec(n / 10, (w - 1) as nat)[i]);
    }
}

/// A fixed-width encoding always has its stated width.
pub proof fn lemma_enc_num_len(n: nat, w: nat)
    ensures
        enc_num_rec(n, w).len() == w,
    decreases w,
{
    if w > 0 {
        lemma_enc_num_len(n / 10, (w - 1) as nat);
    }
}

/// An encoded string is its length prefix plus its characters.
pub proof fn lemma_enc_str_len(t: Seq<char>)
    ensures
        enc_str(t).len() == NUM_WIDTH + t.len(),
{
    lemma_enc_num_len(t.len(), NUM_WIDTH as nat);
}

/// The parse of a fixed-width number at position `i`: the value and the
/// position after it, if the next `NUM_WIDTH` characters are digits and the
/// value fits an unsigned 64-bit integer.
pub open spec fn p_num(s: Seq<char>, i: int) -> Option<(u64, int)> {
    if i < 0 || i + NUM_WIDTH > s.len() {
        None
    } else {
        let c = s.subrange(i, i + NUM_WIDTH);
        if (forall|j: int| 0 <= j < NUM_WIDTH ==> is_digit(#[trigger] c[j])) && digits_val(c)
            <= u64::MAX {
            Some((digits_val(c) as u64, i + NUM_WIDTH))
        } else {
            None
        }
    }
}

/// The parse of a length-prefixed string at position `i`.
pub open spec fn p_str(s: Seq<char>, i: int) -> Option<(Seq<char>, int)> {
    match p_num(s, i) {
        None => None,
        Some((n, j)) => if j + n <= s.len() {
            Some((s.subrange(j, j + n), j + n))
        } else {
            None
        },
    }
}

/// The parse of a one-character flag at position `i`.
pub open spec fn p_bool(s: Seq<char>, i: int) -> Option<(bool, int)> {
    if 0 <= i < s.len() {
        if s[i] == '1' {
            Some((true, i + 1))
        } else if s[i] == '0' {
            Some((false, i + 1))
        } else {
            None
        }
    } else {
        None
    }
}

/// A window of `s` that reads as a concatenation splits into windows that
/// read as the parts.
pub proof fn lemma_subrange_split(s: Seq<char>, i: int, a: Seq<char>, b: Seq<char>)
    requires
        0 <= i,
        i + a.len() + b.len() <= s.len(),
        s.subrange(i, i + a.len() + b.len()) == a + b,
    ensures
        s.subrange(i, i + a.len()) == a,
        s.subrange(i + a.len(), i + a.len() + b.len()) == b,
{
    let ab = s.subrange(i, i + a.len() + b.len());
    assert forall|j: int| 0 <= j < a.len() implies s.subrange(i, i + a.len())[j] == a[j] by {
        assert(ab[j] == s[i + j]);
        assert((a + b)[j] == a[j]);
    }
    assert(s.subrange(i, i + a.len()) =~= a);
    assert forall|j: int|
        0 <= j < b.len() implies s.subrange(i + a.len(), i + a.len() + b.len())[j] == b[j] by {
        assert(ab[a.len() + j] == s[i + a.len() + j]);
        assert((a + b)[a.len() + j] == b[j]);
    }
    assert(s.subrange(i + a.len(), i + a.len() + b.len()) =~= b);
}

/// Parsing inverts the fixed-width number encoding, wherever it is embedded.
pub proof fn lemma_p_num_enc(s: Seq<char>, i: int, n: u64)
    requires
        0 <= i,
        i + NUM_WIDTH <= s.len(),
        s.subrange(i, i + NUM_WIDTH) == enc_len(n as nat),
    ensures
        p_num(s, i) == Some((n, i + NUM_WIDTH)),
{
    lemma_pow10_num_width();
    lemma_enc_num_rec(n as nat, NUM_WIDTH as nat);
}

/// Parsing inverts the string encoding, wherever it is embedded.
pub proof fn lemma_p_str_enc(s: Seq<char>, i: int, t: Seq<char>)
    requires
        0 <= i,
        t.len() <= u64::MAX,
        i + NUM_WIDTH + t.len() <= s.len(),
        s.subrange(i, i + NUM_WIDTH + t.len()) == enc_str(t),
    ensures
        p_str(s, i) == Some((t, i + NUM_WIDTH + t.len())),
{
    lemma_pow10_num_width();
    lemma_enc_num_rec(t.len(), NUM_WIDTH as nat);
    let whole = s.subrange(i, i + NUM_WIDTH + t.len());
    assert(s.subrange(i, i + NUM_WIDTH) =~= whole.subrange(0, NUM_WIDTH as int));
    assert(whole.subrange(0, NUM_WIDTH as int) =~= enc_len(t.len()));
    lemma_p_num_enc(s, i, t.len() as u64);
    assert(s.subrange(i + NUM_WIDTH, i + NUM_WIDTH + t.len()) =~= whole.subrange(
        NUM_WIDTH as int,
        NUM_WIDTH + t.len(),
    ));
    assert(whole.subrange(NUM_WIDTH as int, NUM_WIDTH + t.len()) =~= t);
}

/// Parsing inverts the flag encoding, wherever it is embedded.
pub proof fn lemma_p_bool_enc(s: Seq<char>, i: int, b: bool)
    requires
        0 <= i,
        i + 1 <= s.len(),
        s.subrange(i, i + 1) == enc_bool(b),
    ensures
        p_bool(s, i) == Some((b, i + 1)),
{
    assert(s[i] == s.subrange(i, i + 1)[0]);
}

/// Relies on std's String::from_utf8: decodes exactly the byte sequences
/// that are valid UTF-8, to the characters they encode.
#[verifier::external_body]
pub fn bytes_to_string(v: Vec<u8>) -> (r: Option<String>)
    ensures
        r matches Some(s) ==> vstd::utf8::valid_utf8(v@) && s@ == vstd::utf8::decode_utf8(v@),
        r is None ==> !vstd::utf8::valid_utf8(v@),
{
    String::from_utf8(v).ok()
}

/// Relies on std's FromIterator for String: collects the characters as they
/// stand.
#[verifier::external_body]
pub fn chars_to_string(v: &Vec<char>) -> (r: String)
    ensures
        r@ == v@,
{
    v.iter().collect()
}

/// Relies on std's str::chars: yields the characters as they stand.
#[verifier::external_body]
pub fn string_chars(s: &str) -> (r: Vec<char>)
    ensures
        r@ == s@,
{
    s.chars().collect()
}

/// The digit character for a value below ten.
fn digit_char(d: u8) -> (r: char)
    requires
        d < 10,
    ensures
        r == spec_digit(d as nat),
{
    match d {
        0 => '0',
        1 => '1',
        2 => '2',
        3 => '3',
        4 => '4',
        5 => '5',
        6 => '6',
        7 => '7',
        8 => '8',
        _ => '9',
    }
}

/// The value of a digit character, if it is one.
fn digit_of(c: char) -> (r: Option<u8>)
    ensures
        r matches Some(d) ==> is_digit(c) && d == digit_val(c) && d < 10,
        r is None ==> !is_digit(c),
{
    match c {
        '0' => Some(0),
        '1' => Some(1),
        '2' => Some(2),
        '3' => Some(3),
        '4' => Some(4),
        '5' => Some(5),
        '6' => Some(6),
        '7' => Some(7),
        '8' => Some(8),
        '9' => Some(9),
        _ => None,
    }
}

/// Appends the fixed-width encoding of `n`, digit by digit.
fn push_num_rec(out: &mut Vec<char>, n: u64, w: usize)
    ensures
        final(out)@ == old(out)@ + enc_num_rec(n as nat, w as nat),
    decreases w,
{
    if w == 0 {
        proof {
            assert(old(out)@ + enc_num_rec(n as nat, 0) =~= old(out)@);
        }
    } else {
        push_num_rec(out, n / 10, w - 1);
        let c = digit_char((n % 10) as u8);
        out.push(c);
        proof {
            assert(old(out)@ + enc_num_rec(n as nat, w as nat) =~= (old(out)@ + enc_num_rec(
                (n / 10) as nat,
                (w - 1) as nat,
            )).push(spec_digit((n % 10) as nat)));
        }
    }
}

/// Appends the canonical form of a length or count.
pub fn push_num(out: &mut Vec<char>, n: u64)
    ensures
        final(out)@ == old(out)@ + enc_len(n as nat),
{
    push_num_rec(out, n, NUM_WIDTH);
}

/// Appends the canonical form of a string.
pub fn push_str(out: &mut Vec<char>, s: &String)
    ensures
        final(out)@ == old(out)@ + enc_str(s@),
        s@.len() <= u64::MAX,
{
    let cs = string_chars(s.as_str());
    proof {
        assert(cs@.len() == cs.len() as u64);
    }
    push_num(out, cs.len() as u64);
    let ghost mid = out@;
    let mut i: usize = 0;
    while i < cs.len()
        invariant
            i <= cs@.len(),
            out@ == mid + cs@.subrange(0, i as int),
        decreases cs@.len() - i,
    {
        out.push(cs[i]);
        proof {
            assert(mid + cs@.subrange(0, i + 1) =~= (mid + cs@.subrange(0, i as int)).push(
                cs@[i as int],
            ));
        }
        i += 1;
    }
    proof {
        assert(cs@.subrange(0, cs@.len() as int) =~= cs@);
        assert(mid + cs@ =~= old(out)@ + enc_str(s@));
    }
}

/// Appends the canonical form of a flag.
pub fn push_bool(out: &mut Vec<char>, b: bool)
    ensures
        final(out)@ == old(out)@ + enc_bool(b),
{
    if b {
        out.push('1');
        proof {
            assert(old(out)@ + enc_bool(b) =~= old(out)@.push('1'));
        }
    } else {
        out.push('0');
        proof {
            assert(old(out)@ + enc_bool(b) =~= old(out)@.push('0'));
        }
    }
}

/// Reads a fixed-width number, exactly as [`p_num`] states.
pub fn parse_num(v: &Vec<char>, pos: usize) -> (r: Option<(u64, usize)>)
    ensures
        r matches Some((n, p)) ==> p_num(v@, pos as int) == Some((n, p as int)),
        r is None ==> p_num(v@, pos as int) is None,
{
    let vlen = v.len();
    if pos > vlen || vlen - pos < NUM_WIDTH {
        return None;
    }
    let ghost chunk = v@.subrange(pos as int, pos as int + NUM_WIDTH);
    let mut acc: u128 = 0;
    let mut j: usize = 0;
    while j < NUM_WIDTH
        invariant
            pos + NUM_WIDTH <= vlen == v@.len(),
            j <= NUM_WIDTH,
            chunk == v@.subrange(pos as int, pos as int + NUM_WIDTH),
            forall|k: int| 0 <= k < j ==> is_digit(#[trigger] chunk[k]),
            acc == digits_val(chunk.subrange(0, j as int)),
            acc < pow10(j as nat),
        decreases NUM_WIDTH - j,
    {
        let c = v[pos + j];
        proof {
            assert(chunk[j as int] == v@[pos + j as int]);
        }
        let d = match digit_of(c) {
            Some(d) => d,
            None => {
                proof {
                    assert(!is_digit(chunk[j as int]));
                }
                return None;
            },
        };
        proof {
            assert(chunk.subrange(0, j + 1).drop_last() =~= chunk.subrange(0, j as int));
            assert(chunk.subrange(0, j + 1).last() == chunk[j as int]);
            lemma_pow10_num_width();
            lemma_pow10_monotone(j as nat, NUM_WIDTH as nat);
            assert(acc < 100_000_000_000_000_000_000);
        }
        acc = acc * 10 + (d as u128);
        proof {
            assert(digits_val(chunk.subrange(0, j + 1)) == digits_val(
                chunk.subrange(0, j as int),
            ) * 10 + digit_val(c));
            assert(pow10((j + 1) as nat) == 10 * pow10(j as nat));
        }
        j += 1;
    }
    proof {
        assert(chunk.subrange(0, NUM_WIDTH as int) =~= chunk);
    }
    if acc > u64::MAX as u128 {
        return None;
    }
    Some((acc as u64, pos + NUM_WIDTH))
}

/// Powers of ten grow with the exponent.
proof fn lemma_pow10_monotone(a: nat, b: nat)
    requires
        a <= b,
    ensures
        pow10(a) <= pow10(b),
    decreases b,
{
    if a < b {
        lemma_pow10_monotone(a, (b - 1) as nat);
        assert(pow10(b) == 10 * pow10((b - 1) as nat));
    }
}

/// Reads a length-prefixed string, exactly as [`p_str`] states.
pub fn parse_str(v: &Vec<char>, pos: usize) -> (r: Option<(String, usize)>)
    ensures
        r matches Some((t, p)) ==> p_str(v@, pos as int) == Some((t@, p as int)),
        r is None ==> p_str(v@, pos as int) is None,
{
    let (n, j) = match parse_num(v, pos) {
        Some(x) => x,
        None => {
            return None;
        },
    };
    let vlen = v.len();
    if n > (vlen - j) as u64 {
        return None;
    }
    let len = n as usize;
    let mut out: Vec<char> = Vec::new();
    let mut i: usize = 0;
    while i < len
        invariant
            j + len <= vlen == v@.len(),
            i <= len,
            out@ == v@.subrange(j as int, j as int + i),
        decreases len - i,
    {
        out.push(v[j + i]);
        proof {
            assert(v@.subrange(j as int, j as int + i + 1) =~= v@.subrange(
                j as int,
                j as int + i,
            ).push(v@[j + i]));
        }
        i += 1;
    }
    Some((chars_to_string(&out), j + len))
}

/// Reads a one-character flag, exactly as [`p_bool`] states.
pub fn parse_bool(v: &Vec<char>, pos: usize) -> (r: Option<(bool, usize)>)
    ensures
        r matches Some((b, p)) ==> p_bool(v@, pos as int) == Some((b, p as int)),
        r is None ==> p_bool(v@, pos as int) is None,
{
    if pos >= v.len() {
        return None;
    }
    let c = v[pos];
    if c == '1' {
        Some((true, pos + 1))
    } else if c == '0' {
        Some((false, pos + 1))
    } else {
        None
    }
}

} // verus!
