//! The wire codec: requests and responses as compact field-name/value text.
//!
//! The encoding is canonical — one byte sequence per message, absent optional
//! fields omitted — and the decoder accepts exactly the canonical encodings:
//! decoding succeeds precisely on the output of encoding, and yields the
//! message that produced it. A malformed or truncated payload decodes to
//! nothing rather than crashing the caller.
use vstd::prelude::*;
use crate::protocol::{ReqModel, ReqTask, Request, RespModel, RespStatus, RespTask, Response};

verus! {

/// The bytes of the decimal digits.
pub open spec fn is_digit(b: u8) -> bool {
    48 <= b <= 57
}

/// The byte of one decimal digit value.
pub open spec fn digit_byte(d: int) -> u8 {
    (48 + d) as u8
}

/// The canonical decimal digits of a non-negative number: no sign, no
/// leading zero.
pub open spec fn spec_digits(n: int) -> Seq<u8>
    decreases n,
{
    if n < 10 {
        seq![digit_byte(n)]
    } else {
        spec_digits(n / 10).push(digit_byte(n % 10))
    }
}

/// The number a digit string denotes.
pub open spec fn digits_val(s: Seq<u8>) -> int
    decreases s.len(),
{
    if s.len() == 0 {
        0
    } else {
        digits_val(s.drop_last()) * 10 + (s.last() - 48)
    }
}

/// A one-digit string denotes its digit.
proof fn lemma_digits_val_singleton(s: Seq<u8>)
    requires
        s.len() == 1,
    ensures
        digits_val(s) == s[0] - 48,
{
    assert(s.drop_last() =~= Seq::<u8>::empty());
    assert(digits_val(Seq::<u8>::empty()) == 0);
    assert(s.last() == s[0]);
}

/// Canonical digit strings are digits throughout, never empty, and start
/// with zero only as the one-digit string of zero itself.
proof fn lemma_digits_shape(n: int)
    requires
        0 <= n,
    ensures
        spec_digits(n).len() >= 1,
        forall|i: int| 0 <= i < spec_digits(n).len() ==> is_digit(#[trigger] spec_digits(n)[i]),
        n >= 1 ==> spec_digits(n)[0] != 48,
        n < 10 ==> spec_digits(n) =~= seq![digit_byte(n)],
        n >= 10 ==> spec_digits(n).len() >= 2,
    decreases n,
{
    if n >= 10 {
        lemma_digits_shape(n / 10);
        assert(spec_digits(n) == spec_digits(n / 10).push(digit_byte(n % 10)));
        assert(spec_digits(n)[0] == spec_digits(n / 10)[0]);
    }
}

/// A canonical digit string denotes the number it was made from.
proof fn lemma_digits_val(n: int)
    requires
        0 <= n,
    ensures
        digits_val(spec_digits(n)) == n,
    decreases n,
{
    if n < 10 {
        let s = spec_digits(n);
        lemma_digits_val_singleton(s);
        assert(s[0] == digit_byte(n));
    } else {
        lemma_digits_val(n / 10);
        let s = spec_digits(n);
        assert(s.drop_last() =~= spec_digits(n / 10));
        assert(s.last() == digit_byte(n % 10));
        assert(digits_val(s) == (n / 10) * 10 + (n % 10));
        assert((n / 10) * 10 + (n % 10) == n) by {
            vstd::arithmetic::div_mod::lemma_fundamental_div_mod(n, 10);
        }
    }
}

/// A digit string without a leading zero denotes a positive number.
proof fn lemma_digits_val_pos(s: Seq<u8>)
    requires
        s.len() >= 1,
        forall|i: int| 0 <= i < s.len() ==> is_digit(#[trigger] s[i]),
        s[0] != 48,
    ensures
        digits_val(s) >= 1,
    decreases s.len(),
{
    if s.len() == 1 {
        assert(digits_val(s.drop_last()) == 0);
    } else {
        let s2 = s.drop_last();
        assert(s2[0] == s[0]);
        lemma_digits_val_pos(s2);
    }
}

/// Every digit string denotes a non-negative number.
proof fn lemma_digits_val_nonneg(s: Seq<u8>)
    requires
        forall|i: int| 0 <= i < s.len() ==> is_digit(#[trigger] s[i]),
    ensures
        digits_val(s) >= 0,
    decreases s.len(),
{
    if s.len() > 0 {
        lemma_digits_val_nonneg(s.drop_last());
    }
}

/// There is only one canonical digit string for each number: a digit string
/// without a leading zero is the canonical string of its own value.
proof fn lemma_digits_canonical(s: Seq<u8>)
    requires
        s.len() >= 1,
        forall|i: int| 0 <= i < s.len() ==> is_digit(#[trigger] s[i]),
        s.len() > 1 ==> s[0] != 48,
    ensures
        s =~= spec_digits(digits_val(s)),
    decreases s.len(),
{
    if s.len() == 1 {
        lemma_digits_val_singleton(s);
        let v = digits_val(s);
        assert(v == s[0] - 48);
        assert(spec_digits(v) =~= seq![digit_byte(v)]);
        assert(digit_byte(v) == s[0]);
    } else {
        let s2 = s.drop_last();
        let d = s.last() - 48;
        assert(s2[0] == s[0]);
        lemma_digits_canonical(s2);
        lemma_digits_val_pos(s2);
        let v2 = digits_val(s2);
        let v = digits_val(s);
        assert(v == v2 * 10 + d);
        assert(v >= 10 && v / 10 == v2 && v % 10 == d) by {
            vstd::arithmetic::div_mod::lemma_fundamental_div_mod_converse(v, 10, v2, d);
        }
        assert(spec_digits(v) == spec_digits(v2).push(digit_byte(d)));
        assert(s =~= s2.push(s.last()));
    }
}

/// Extending a digit string with more digits never shrinks its value.
proof fn lemma_digits_val_extend(s: Seq<u8>, k: int)
    requires
        forall|i: int| 0 <= i < s.len() ==> is_digit(#[trigger] s[i]),
        0 <= k <= s.len(),
    ensures
        digits_val(s.subrange(0, k)) <= digits_val(s),
    decreases s.len() - k,
{
    if k == s.len() {
        assert(s.subrange(0, k) =~= s);
    } else {
        lemma_digits_val_extend(s, k + 1);
        let a = s.subrange(0, k);
        let b = s.subrange(0, k + 1);
        assert(b.drop_last() =~= a);
        assert(forall|i: int| 0 <= i < b.len() ==> is_digit(#[trigger] b[i]));
        lemma_digits_val_nonneg(a);
        assert(digits_val(b) == digits_val(a) * 10 + (b.last() - 48));
        assert(digits_val(a) <= digits_val(a) * 10 + (b.last() - 48)) by (nonlinear_arith)
            requires
                digits_val(a) >= 0,
                48 <= b.last() <= 57,
        ;
    }
}

/// Appends the canonical decimal digits of `n`.
pub fn write_num(out: &mut Vec<u8>, n: u32)
    ensures
        final(out)@ == old(out)@ + spec_digits(n as int),
    decreases n,
{
    if n >= 10 {
        write_num(out, n / 10);
        out.push(48 + (n % 10) as u8);
        proof {
            assert(final(out)@ =~= old(out)@ + spec_digits(n as int));
        }
    } else {
        out.push(48 + n as u8);
        proof {
            assert(final(out)@ =~= old(out)@ + spec_digits(n as int));
        }
    }
}

/// Reads a canonical decimal number starting at `i`: the parse succeeds
/// exactly where a canonical digit string that fits `u32` sits at `i` and
/// runs up to a non-digit or the end, and it yields that string's value and
/// its end. (No other parse is possible: digit strings are read greedily and
/// a leading zero is accepted only as the single digit zero.)
pub fn parse_num(s: &[u8], i: usize) -> (r: Option<(u32, usize)>)
    requires
        i <= s@.len(),
    ensures
        match r {
            Some(vj) => {
                &&& i < vj.1 <= s@.len()
                &&& s@.subrange(i as int, vj.1 as int) == spec_digits(vj.0 as int)
                &&& (vj.1 == s@.len() || !is_digit(s@[vj.1 as int]))
            },
            None => true,
        },
        forall|v: u32, j: int|
            i <= j <= s@.len() && s@.subrange(i as int, j) == spec_digits(v as int) && (j
                == s@.len() || !is_digit(s@[j])) ==> r == Some((v, j as usize)),
{
    proof {
        lemma_digits_shape(0);
    }
    if i >= s.len() || s[i] < 48 || s[i] > 57 {
        proof {
            assert forall|v: u32, j: int|
                i <= j <= s@.len() && s@.subrange(i as int, j) == spec_digits(v as int) && (j
                    == s@.len() || !is_digit(s@[j])) implies false by {
                lemma_digits_shape(v as int);
                assert(s@.subrange(i as int, j)[0] == s@[i as int]);
            }
        }
        return None;
    }
    if s[i] == 48 {
        if i + 1 < s.len() && s[i + 1] >= 48 && s[i + 1] <= 57 {
            proof {
                assert forall|v: u32, j: int|
                    i <= j <= s@.len() && s@.subrange(i as int, j) == spec_digits(v as int) && (j
                        == s@.len() || !is_digit(s@[j])) implies false by {
                    lemma_digits_shape(v as int);
                    assert(s@.subrange(i as int, j)[0] == s@[i as int]);
                    if v >= 1 {
                        assert(spec_digits(v as int)[0] != 48);
                    } else {
                        assert(spec_digits(0)[0] == 48 && spec_digits(0).len() == 1);
                        assert(j == i + 1);
                        assert(is_digit(s@[j]));
                    }
                }
            }
            return None;
        }
        proof {
            assert(s@.subrange(i as int, i + 1) =~= spec_digits(0));
            assert forall|v: u32, j: int|
                i <= j <= s@.len() && s@.subrange(i as int, j) == spec_digits(v as int) && (j
                    == s@.len() || !is_digit(s@[j])) implies (v, j) == (0u32, i + 1) by {
                lemma_digits_shape(v as int);
                assert(s@.subrange(i as int, j)[0] == s@[i as int]);
                if v >= 1 {
                    assert(spec_digits(v as int)[0] != 48);
                }
                assert(j == i + 1);
            }
        }
        return Some((0, i + 1));
    }
    let mut val: u32 = (s[i] - 48) as u32;
    let mut j: usize = i + 1;
    proof {
        lemma_digits_val_singleton(s@.subrange(i as int, i + 1));
        assert(s@.subrange(i as int, i + 1)[0] == s@[i as int]);
    }
    while j < s.len() && s[j] >= 48 && s[j] <= 57
        invariant
            i < j <= s@.len(),
            forall|k: int| i <= k < j ==> is_digit(#[trigger] s@[k]),
            s@[i as int] != 48,
            is_digit(s@[i as int]),
            val == digits_val(s@.subrange(i as int, j as int)),
        decreases s@.len() - j,
    {
        let d: u32 = (s[j] - 48) as u32;
        let wide: u64 = val as u64 * 10 + d as u64;
        if wide > u32::MAX as u64 {
            // the run of digits denotes more than fits; no canonical number
            // can end exactly at the run's boundary
            proof {
                lemma_overflow_impossible(s@, i as int, j as int, val as int, d as int);
            }
            return None;
        }
        let newval = wide as u32;
        proof {
            let a = s@.subrange(i as int, j as int);
            let b = s@.subrange(i as int, j + 1);
            assert(b.drop_last() =~= a);
            assert(b.last() == s@[j as int]);
        }
        val = newval;
        j = j + 1;
    }
    proof {
        let run = s@.subrange(i as int, j as int);
        lemma_digits_canonical(run);
        assert(run == spec_digits(val as int));
        assert forall|v: u32, jj: int|
            i <= jj <= s@.len() && s@.subrange(i as int, jj) == spec_digits(v as int) && (jj
                == s@.len() || !is_digit(s@[jj])) implies (v, jj) == (val, j as int) by {
            lemma_run_unique(s@, i as int, j as int, jj, v);
        }
    }
    Some((val, j))
}

/// A digit run that overflows `u32` cannot be the canonical string of any
/// `u32`: whatever canonical string starts at `i` would have to cover the
/// whole run, and its value would then exceed the bound.
proof fn lemma_overflow_impossible(s: Seq<u8>, i: int, j: int, val: int, d: int)
    requires
        0 <= i < j < s.len(),
        forall|k: int| i <= k < j ==> is_digit(#[trigger] s[k]),
        is_digit(s[j]),
        s[i] != 48,
        val == digits_val(s.subrange(i, j)),
        val * 10 + d > u32::MAX,
        d == s[j] - 48,
    ensures
        forall|v: u32, jj: int|
            !(i <= jj <= s.len() && s.subrange(i, jj) == spec_digits(v as int) && (jj == s.len()
                || !is_digit(s[jj]))),
{
    assert forall|v: u32, jj: int|
        !(i <= jj <= s.len() && s.subrange(i, jj) == spec_digits(v as int) && (jj == s.len()
            || !is_digit(s[jj]))) by {
        if i <= jj <= s.len() && s.subrange(i, jj) == spec_digits(v as int) && (jj == s.len()
            || !is_digit(s[jj])) {
            lemma_digits_shape(v as int);
            // the canonical string runs to a non-digit, so it covers the
            // whole digit run and one more digit at least
            assert(jj > j) by {
                if jj <= j {
                    assert(is_digit(s[jj]));
                    assert(spec_digits(v as int).len() == jj - i);
                    if jj == i {
                        assert(false);
                    }
                }
            }
            let cover = s.subrange(i, jj);
            assert(forall|k: int| 0 <= k < cover.len() ==> is_digit(#[trigger] cover[k]));
            lemma_digits_val(v as int);
            assert(digits_val(cover) == v as int);
            lemma_digits_val_extend(cover, j + 1 - i);
            assert(cover.subrange(0, j + 1 - i) =~= s.subrange(i, j + 1));
            assert(s.subrange(i, j + 1).drop_last() =~= s.subrange(i, j));
            assert(digits_val(s.subrange(i, j + 1)) == val * 10 + d);
            assert(val * 10 + d <= v as int);
        }
    }
}

/// A digit run bounded by non-digits on both sides pins every canonical
/// parse: it must cover exactly the run and denote the run's value.
proof fn lemma_run_unique(s: Seq<u8>, i: int, j: int, jj: int, v: u32)
    requires
        0 <= i < j <= s.len(),
        forall|k: int| i <= k < j ==> is_digit(#[trigger] s[k]),
        j == s.len() || !is_digit(s[j]),
        s[i] != 48,
        i <= jj <= s.len(),
        s.subrange(i, jj) == spec_digits(v as int),
        jj == s.len() || !is_digit(s[jj]),
    ensures
        jj == j,
        v as int == digits_val(s.subrange(i, j)),
{
    lemma_digits_shape(v as int);
    assert(spec_digits(v as int).len() == jj - i);
    assert(jj > i);
    // the canonical string is all digits, so it cannot reach past the run's
    // closing non-digit; and it ends at a non-digit, so it cannot stop short
    assert(jj <= j) by {
        if jj > j {
            assert(s.subrange(i, jj)[j - i] == s[j]);
            assert(is_digit(s[j]));
        }
    }
    assert(jj >= j) by {
        if jj < j {
            assert(is_digit(s[jj]));
        }
    }
    lemma_digits_val(v as int);
    assert(s.subrange(i, jj) =~= s.subrange(i, j));
}

/// The opening of every message, up to the first task-name byte.
pub open spec fn lit_obj_task() -> Seq<u8> {
    seq![
        '{' as u8, '"' as u8, 't' as u8, 'a' as u8, 's' as u8, 'k' as u8, '"' as u8, ':' as u8,
        '"' as u8,
    ]
}

/// The status key of a response, comma through opening quote.
pub open spec fn lit_key_status() -> Seq<u8> {
    seq![
        ',' as u8, '"' as u8, 's' as u8, 't' as u8, 'a' as u8, 't' as u8, 'u' as u8, 's' as u8,
        '"' as u8, ':' as u8, '"' as u8,
    ]
}

/// The start key of a response, comma through colon.
pub open spec fn lit_key_start() -> Seq<u8> {
    seq![
        ',' as u8, '"' as u8, 's' as u8, 't' as u8, 'a' as u8, 'r' as u8, 't' as u8, '"' as u8,
        ':' as u8,
    ]
}

/// The end key, comma through colon.
pub open spec fn lit_key_end() -> Seq<u8> {
    seq![',' as u8, '"' as u8, 'e' as u8, 'n' as u8, 'd' as u8, '"' as u8, ':' as u8]
}

/// The primes key, comma through colon.
pub open spec fn lit_key_primes() -> Seq<u8> {
    seq![
        ',' as u8, '"' as u8, 'p' as u8, 'r' as u8, 'i' as u8, 'm' as u8, 'e' as u8, 's' as u8,
        '"' as u8, ':' as u8,
    ]
}

/// The wire bytes of a request task name.
pub open spec fn req_task_bytes(t: ReqTask) -> Seq<u8> {
    match t {
        ReqTask::Start => seq!['s' as u8, 't' as u8, 'a' as u8, 'r' as u8, 't' as u8],
        ReqTask::Save => seq!['s' as u8, 'a' as u8, 'v' as u8, 'e' as u8],
        ReqTask::Continue => seq![
            'c' as u8, 'o' as u8, 'n' as u8, 't' as u8, 'i' as u8, 'n' as u8, 'u' as u8, 'e' as u8,
        ],
        ReqTask::Close => seq!['c' as u8, 'l' as u8, 'o' as u8, 's' as u8, 'e' as u8],
    }
}

/// The wire bytes of a response task name.
pub open spec fn resp_task_bytes(t: RespTask) -> Seq<u8> {
    match t {
        RespTask::Range => seq!['r' as u8, 'a' as u8, 'n' as u8, 'g' as u8, 'e' as u8],
        RespTask::Continue => seq![
            'c' as u8, 'o' as u8, 'n' as u8, 't' as u8, 'i' as u8, 'n' as u8, 'u' as u8, 'e' as u8,
        ],
        RespTask::Done => seq!['d' as u8, 'o' as u8, 'n' as u8, 'e' as u8],
        RespTask::Error => seq!['e' as u8, 'r' as u8, 'r' as u8, 'o' as u8, 'r' as u8],
    }
}

/// The wire bytes of a response status name.
pub open spec fn resp_status_bytes(t: RespStatus) -> Seq<u8> {
    match t {
        RespStatus::Processing => seq![
            'p' as u8, 'r' as u8, 'o' as u8, 'c' as u8, 'e' as u8, 's' as u8, 's' as u8, 'i' as u8,
            'n' as u8, 'g' as u8,
        ],
        RespStatus::Completed => seq![
            'c' as u8, 'o' as u8, 'm' as u8, 'p' as u8, 'l' as u8, 'e' as u8, 't' as u8, 'e' as u8,
            'd' as u8,
        ],
        RespStatus::Invalid => seq![
            'i' as u8, 'n' as u8, 'v' as u8, 'a' as u8, 'l' as u8, 'i' as u8, 'd' as u8,
        ],
    }
}

fn vec_obj_task() -> (v: Vec<u8>)
    ensures
        v@ == lit_obj_task(),
{
    let mut v: Vec<u8> = Vec::new();
    v.push('{' as u8);
    v.push('"' as u8);
    v.push('t' as u8);
    v.push('a' as u8);
    v.push('s' as u8);
    v.push('k' as u8);
    v.push('"' as u8);
    v.push(':' as u8);
    v.push('"' as u8);
    proof {
        assert(v@ =~= lit_obj_task());
    }
    v
}

fn vec_key_status() -> (v: Vec<u8>)
    ensures
        v@ == lit_key_status(),
{
    let mut v: Vec<u8> = Vec::new();
    v.push(',' as u8);
    v.push('"' as u8);
    v.push('s' as u8);
    v.push('t' as u8);
    v.push('a' as u8);
    v.push('t' as u8);
    v.push('u' as u8);
    v.push('s' as u8);
    v.push('"' as u8);
    v.push(':' as u8);
    v.push('"' as u8);
    proof {
        assert(v@ =~= lit_key_status());
    }
    v
}

fn vec_key_start() -> (v: Vec<u8>)
    ensures
        v@ == lit_key_start(),
{
    let mut v: Vec<u8> = Vec::new();
    v.push(',' as u8);
    v.push('"' as u8);
    v.push('s' as u8);
    v.push('t' as u8);
    v.push('a' as u8);
    v.push('r' as u8);
    v.push('t' as u8);
    v.push('"' as u8);
    v.push(':' as u8);
    proof {
        assert(v@ =~= lit_key_start());
    }
    v
}

fn vec_key_end() -> (v: Vec<u8>)
    ensures
        v@ == lit_key_end(),
{
    let mut v: Vec<u8> = Vec::new();
    v.push(',' as u8);
    v.push('"' as u8);
    v.push('e' as u8);
    v.push('n' as u8);
    v.push('d' as u8);
    v.push('"' as u8);
    v.push(':' as u8);
    proof {
        assert(v@ =~= lit_key_end());
    }
    v
}

fn vec_key_primes() -> (v: Vec<u8>)
    ensures
        v@ == lit_key_primes(),
{
    let mut v: Vec<u8> = Vec::new();
    v.push(',' as u8);
    v.push('"' as u8);
    v.push('p' as u8);
    v.push('r' as u8);
    v.push('i' as u8);
    v.push('m' as u8);
    v.push('e' as u8);
    v.push('s' as u8);
    v.push('"' as u8);
    v.push(':' as u8);
    proof {
        assert(v@ =~= lit_key_primes());
    }
    v
}

fn vec_req_task(t: ReqTask) -> (v: Vec<u8>)
    ensures
        v@ == req_task_bytes(t),
{
    let mut v: Vec<u8> = Vec::new();
    match t {
        ReqTask::Start => {
            v.push('s' as u8);
            v.push('t' as u8);
            v.push('a' as u8);
            v.push('r' as u8);
            v.push('t' as u8);
        },
        ReqTask::Save => {
            v.push('s' as u8);
            v.push('a' as u8);
            v.push('v' as u8);
            v.push('e' as u8);
        },
        ReqTask::Continue => {
            v.push('c' as u8);
            v.push('o' as u8);
            v.push('n' as u8);
            v.push('t' as u8);
            v.push('i' as u8);
            v.push('n' as u8);
            v.push('u' as u8);
            v.push('e' as u8);
        },
        ReqTask::Close => {
            v.push('c' as u8);
            v.push('l' as u8);
            v.push('o' as u8);
            v.push('s' as u8);
            v.push('e' as u8);
        },
    }
    proof {
        assert(v@ =~= req_task_bytes(t));
    }
    v
}

fn vec_resp_task(t: RespTask) -> (v: Vec<u8>)
    ensures
        v@ == resp_task_bytes(t),
{
    let mut v: Vec<u8> = Vec::new();
    match t {
        RespTask::Range => {
            v.push('r' as u8);
            v.push('a' as u8);
            v.push('n' as u8);
            v.push('g' as u8);
            v.push('e' as u8);
        },
        RespTask::Continue => {
            v.push('c' as u8);
            v.push('o' as u8);
            v.push('n' as u8);
            v.push('t' as u8);
            v.push('i' as u8);
            v.push('n' as u8);
            v.push('u' as u8);
            v.push('e' as u8);
        },
        RespTask::Done => {
            v.push('d' as u8);
            v.push('o' as u8);
            v.push('n' as u8);
            v.push('e' as u8);
        },
        RespTask::Error => {
            v.push('e' as u8);
            v.push('r' as u8);
            v.push('r' as u8);
            v.push('o' as u8);
            v.push('r' as u8);
        },
    }
    proof {
        assert(v@ =~= resp_task_bytes(t));
    }
    v
}

fn vec_resp_status(t: RespStatus) -> (v: Vec<u8>)
    ensures
        v@ == resp_status_bytes(t),
{
    let mut v: Vec<u8> = Vec::new();
    match t {
        RespStatus::Processing => {
            v.push('p' as u8);
            v.push('r' as u8);
            v.push('o' as u8);
            v.push('c' as u8);
            v.push('e' as u8);
            v.push('s' as u8);
            v.push('s' as u8);
            v.push('i' as u8);
            v.push('n' as u8);
            v.push('g' as u8);
        },
        RespStatus::Completed => {
            v.push('c' as u8);
            v.push('o' as u8);
            v.push('m' as u8);
            v.push('p' as u8);
            v.push('l' as u8);
            v.push('e' as u8);
            v.push('t' as u8);
            v.push('e' as u8);
            v.push('d' as u8);
        },
        RespStatus::Invalid => {
            v.push('i' as u8);
            v.push('n' as u8);
            v.push('v' as u8);
            v.push('a' as u8);
            v.push('l' as u8);
            v.push('i' as u8);
            v.push('d' as u8);
        },
    }
    proof {
        assert(v@ =~= resp_status_bytes(t));
    }
    v
}

/// Whether the bytes of `pat` sit at position `i` of `s`, exactly.
fn match_bytes(s: &[u8], i: usize, pat: &Vec<u8>) -> (r: bool)
    requires
        i <= s@.len(),
    ensures
        r == (i + pat@.len() <= s@.len() && s@.subrange(i as int, i + pat@.len()) == pat@),
{
    if pat.len() > s.len() - i {
        return false;
    }
    let mut k: usize = 0;
    while k < pat.len()
        invariant
            k <= pat@.len(),
            i + pat@.len() <= s@.len(),
            s@.len() <= usize::MAX,
            forall|t: int| 0 <= t < k ==> s@[i + t] == pat@[t],
        decreases pat@.len() - k,
    {
        if s[i + k] != pat[k] {
            proof {
                assert(s@.subrange(i as int, i + pat@.len())[k as int] == s@[i + k]);
            }
            return false;
        }
        k = k + 1;
    }
    proof {
        assert(s@.subrange(i as int, i + pat@.len()) =~= pat@);
    }
    true
}

/// Splitting a known concatenation: where a stretch of `s` is `a + b`, the
/// two halves sit at their own offsets.
proof fn lemma_split_at(s: Seq<u8>, i: int, j: int, a: Seq<u8>, b: Seq<u8>)
    requires
        0 <= i <= j <= s.len(),
        s.subrange(i, j) == a + b,
    ensures
        j - i == a.len() + b.len(),
        s.subrange(i, i + a.len()) =~= a,
        s.subrange(i + a.len(), j) =~= b,
{
    assert(s.subrange(i, j).len() == j - i);
    assert((a + b).len() == a.len() + b.len());
    assert forall|k: int| 0 <= k < a.len() implies s.subrange(i, i + a.len())[k] == a[k] by {
        assert(s.subrange(i, j)[k] == (a + b)[k]);
    }
    assert forall|k: int| 0 <= k < b.len() implies s.subrange(i + a.len(), j)[k] == b[k] by {
        assert(s.subrange(i, j)[a.len() + k] == (a + b)[a.len() + k]);
        assert((a + b)[a.len() + k] == b[k]);
        assert(s.subrange(i, j)[a.len() + k] == s[i + a.len() + k]);
        assert(s.subrange(i + a.len(), j)[k] == s[i + a.len() + k]);
    }
}

/// The bytes of a non-empty list's items, from the first number to the
/// closing bracket: each number canonical, commas between.
pub open spec fn spec_items_close(vs: Seq<u32>) -> Seq<u8>
    decreases vs.len(),
{
    if vs.len() <= 1 {
        spec_digits(vs[0] as int) + seq![']' as u8]
    } else {
        spec_digits(vs[0] as int) + seq![',' as u8] + spec_items_close(vs.skip(1))
    }
}

/// The bytes of a whole list, brackets included.
pub open spec fn spec_list(vs: Seq<u32>) -> Seq<u8> {
    if vs.len() == 0 {
        seq!['[' as u8, ']' as u8]
    } else {
        seq!['[' as u8] + spec_items_close(vs)
    }
}

/// Appends the items of `vs` from `from` on, with the closing bracket.
fn write_items(out: &mut Vec<u8>, vs: &Vec<u32>, from: usize)
    requires
        from < vs@.len(),
    ensures
        final(out)@ == old(out)@ + spec_items_close(vs@.skip(from as int)),
    decreases vs@.len() - from,
{
    write_num(out, vs[from]);
    proof {
        assert(vs@.skip(from as int)[0] == vs@[from as int]);
    }
    if from < vs.len() - 1 {
        out.push(',' as u8);
        write_items(out, vs, from + 1);
        proof {
            assert(vs@.skip(from as int).skip(1) =~= vs@.skip(from + 1));
            assert(final(out)@ =~= old(out)@ + spec_items_close(vs@.skip(from as int)));
        }
    } else {
        out.push(']' as u8);
        proof {
            assert(final(out)@ =~= old(out)@ + spec_items_close(vs@.skip(from as int)));
        }
    }
}

/// Appends a whole list.
fn write_list(out: &mut Vec<u8>, vs: &Vec<u32>)
    ensures
        final(out)@ == old(out)@ + spec_list(vs@),
{
    out.push('[' as u8);
    if vs.len() == 0 {
        out.push(']' as u8);
        proof {
            assert(final(out)@ =~= old(out)@ + spec_list(vs@));
        }
    } else {
        write_items(out, vs, 0);
        proof {
            assert(vs@.skip(0) =~= vs@);
            assert(final(out)@ =~= old(out)@ + spec_list(vs@));
        }
    }
}

/// Reads the items of a non-empty list, first number through closing
/// bracket, appending them to `out`: the parse succeeds exactly where such
/// an item stretch sits at `i`, and consumes exactly it.
fn parse_items(s: &[u8], i: usize, out: &mut Vec<u32>) -> (r: Option<usize>)
    requires
        i <= s@.len(),
    ensures
        match r {
            Some(j) => {
                &&& i < j <= s@.len()
                &&& final(out)@.len() > old(out)@.len()
                &&& final(out)@.subrange(0, old(out)@.len() as int) == old(out)@
                &&& s@.subrange(i as int, j as int) == spec_items_close(
                    final(out)@.skip(old(out)@.len() as int),
                )
            },
            None => true,
        },
        forall|vs: Seq<u32>, j: int|
            vs.len() >= 1 && i <= j <= s@.len() && s@.subrange(i as int, j) == spec_items_close(vs)
                ==> r == Some(j as usize) && final(out)@ == old(out)@ + vs,
    decreases s@.len() - i,
{
    let ghost orig = out@;
    let ghost olen = out@.len() as int;
    let num = parse_num(s, i);
    proof {
        assert forall|vs: Seq<u32>, j: int|
            vs.len() >= 1 && i <= j <= s@.len() && s@.subrange(i as int, j) == spec_items_close(vs)
                implies num == Some((vs[0], (i + spec_digits(vs[0] as int).len()) as usize)) by {
            lemma_items_head(s@, i as int, j, vs);
        }
    }
    match num {
        None => {
            return None;
        },
        Some((v, jn)) => {
            if jn >= s.len() {
                proof {
                    assert forall|vs: Seq<u32>, j: int|
                        !(vs.len() >= 1 && i <= j <= s@.len() && s@.subrange(i as int, j)
                            == spec_items_close(vs)) by {
                        if vs.len() >= 1 && i <= j <= s@.len() && s@.subrange(i as int, j)
                            == spec_items_close(vs) {
                            lemma_items_head(s@, i as int, j, vs);
                        }
                    }
                }
                return None;
            }
            let c = s[jn];
            if c == ',' as u8 {
                out.push(v);
                let ghost mid = out@;
                let rec = parse_items(s, jn + 1, out);
                proof {
                    assert forall|vs: Seq<u32>, j: int|
                        vs.len() >= 1 && i <= j <= s@.len() && s@.subrange(i as int, j)
                            == spec_items_close(vs) implies rec == Some(j as usize) && out@ == orig
                        + vs by {
                        lemma_items_head(s@, i as int, j, vs);
                        assert(vs[0] == v);
                        assert(vs.len() >= 2);
                        lemma_items_split(s@, i as int, j, vs);
                        assert(s@.subrange(jn + 1, j) == spec_items_close(vs.skip(1)));
                        assert(out@ == mid + vs.skip(1));
                        assert(mid + vs.skip(1) =~= orig + vs);
                    }
                }
                match rec {
                    None => {
                        return None;
                    },
                    Some(j2) => {
                        proof {
                            assert(out@.subrange(0, mid.len() as int) == mid);
                            assert(out@[olen] == v);
                            assert(s@.subrange(jn + 1, j2 as int) == spec_items_close(
                                out@.skip(olen + 1),
                            ));
                            lemma_items_join(s@, i as int, jn as int, j2 as int, out@, olen);
                            assert(out@.subrange(0, olen) =~= orig);
                        }
                        return Some(j2);
                    },
                }
            } else if c == ']' as u8 {
                out.push(v);
                proof {
                    assert(s@.subrange(i as int, jn + 1) =~= s@.subrange(i as int, jn as int)
                        + seq![s@[jn as int]]);
                    assert(out@.skip(olen) =~= seq![v]);
                    assert(spec_items_close(seq![v]) == spec_digits(v as int) + seq![']' as u8]);
                    assert(s@.subrange(i as int, jn + 1) == spec_items_close(seq![v]));
                    assert(out@.subrange(0, olen) =~= orig);
                    assert forall|vs: Seq<u32>, j: int|
                        vs.len() >= 1 && i <= j <= s@.len() && s@.subrange(i as int, j)
                            == spec_items_close(vs) implies j == jn + 1 && out@ == orig + vs by {
                        lemma_items_head(s@, i as int, j, vs);
                        assert(vs[0] == v);
                        lemma_items_split(s@, i as int, j, vs);
                        if vs.len() >= 2 {
                            assert(s@[jn as int] == ',' as u8);
                        } else {
                            assert(vs =~= seq![v]);
                            assert(orig + vs =~= out@);
                        }
                    }
                }
                return Some(jn + 1);
            } else {
                proof {
                    assert forall|vs: Seq<u32>, j: int|
                        !(vs.len() >= 1 && i <= j <= s@.len() && s@.subrange(i as int, j)
                            == spec_items_close(vs)) by {
                        if vs.len() >= 1 && i <= j <= s@.len() && s@.subrange(i as int, j)
                            == spec_items_close(vs) {
                            lemma_items_head(s@, i as int, j, vs);
                        }
                    }
                }
                return None;
            }
        },
    }
}

/// The first number of an item stretch sits at its front, canonical, and is
/// followed by a comma or the closing bracket.
proof fn lemma_items_head(s: Seq<u8>, i: int, j: int, vs: Seq<u32>)
    requires
        vs.len() >= 1,
        0 <= i <= j <= s.len(),
        s.subrange(i, j) == spec_items_close(vs),
    ensures
        i + spec_digits(vs[0] as int).len() < j,
        s.subrange(i, i + spec_digits(vs[0] as int).len()) == spec_digits(vs[0] as int),
        !is_digit(s[i + spec_digits(vs[0] as int).len()]),
        vs.len() >= 2 ==> s[i + spec_digits(vs[0] as int).len()] == ',' as u8,
        vs.len() == 1 ==> s[i + spec_digits(vs[0] as int).len()] == ']' as u8,
{
    let d = spec_digits(vs[0] as int);
    lemma_digits_shape(vs[0] as int);
    if vs.len() == 1 {
        lemma_split_at(s, i, j, d, seq![']' as u8]);
        assert(s[i + d.len()] == s.subrange(i + d.len(), j)[0]);
    } else {
        assert(spec_items_close(vs) == d + seq![',' as u8] + spec_items_close(vs.skip(1)));
        assert(d + seq![',' as u8] + spec_items_close(vs.skip(1)) =~= d + (seq![',' as u8]
            + spec_items_close(vs.skip(1))));
        lemma_split_at(s, i, j, d, seq![',' as u8] + spec_items_close(vs.skip(1)));
        assert(s[i + d.len()] == s.subrange(i + d.len(), j)[0]);
        assert(s.subrange(i + d.len(), j)[0] == (seq![',' as u8] + spec_items_close(vs.skip(1)))[0]);
    }
}

/// Past its first number and the comma, an item stretch of two or more
/// numbers continues as the stretch of the rest.
proof fn lemma_items_split(s: Seq<u8>, i: int, j: int, vs: Seq<u32>)
    requires
        vs.len() >= 1,
        0 <= i <= j <= s.len(),
        s.subrange(i, j) == spec_items_close(vs),
    ensures
        vs.len() >= 2 ==> s.subrange(
            i + spec_digits(vs[0] as int).len() + 1,
            j,
        ) == spec_items_close(vs.skip(1)),
        vs.len() == 1 ==> j == i + spec_digits(vs[0] as int).len() + 1,
{
    let d = spec_digits(vs[0] as int);
    lemma_digits_shape(vs[0] as int);
    if vs.len() == 1 {
        lemma_split_at(s, i, j, d, seq![']' as u8]);
    } else {
        assert(spec_items_close(vs) == d + seq![',' as u8] + spec_items_close(vs.skip(1)));
        assert(d + seq![',' as u8] + spec_items_close(vs.skip(1)) =~= (d + seq![',' as u8])
            + spec_items_close(vs.skip(1)));
        lemma_split_at(s, i, j, d + seq![',' as u8], spec_items_close(vs.skip(1)));
        assert((d + seq![',' as u8]).len() == d.len() + 1);
    }
}

/// Reads a whole list, brackets included: the parse succeeds exactly where a
/// canonical list sits at `i`, and consumes exactly it.
fn parse_list(s: &[u8], i: usize) -> (r: Option<(Vec<u32>, usize)>)
    requires
        i <= s@.len(),
    ensures
        match r {
            Some(vj) => {
                &&& i < vj.1 <= s@.len()
                &&& s@.subrange(i as int, vj.1 as int) == spec_list(vj.0@)
            },
            None => true,
        },
        forall|vs: Seq<u32>, j: int|
            i <= j <= s@.len() && s@.subrange(i as int, j) == spec_list(vs) ==> (r is Some
                && r->Some_0.0@ == vs && r->Some_0.1 == j),
{
    if i >= s.len() || s[i] != '[' as u8 {
        proof {
            assert forall|vs: Seq<u32>, j: int|
                !(i <= j <= s@.len() && s@.subrange(i as int, j) == spec_list(vs)) by {
                if i <= j <= s@.len() && s@.subrange(i as int, j) == spec_list(vs) {
                    assert(spec_list(vs).len() >= 1);
                    assert(s@.subrange(i as int, j).len() == j - i);
                    assert(i < j);
                    assert(s@.subrange(i as int, j)[0] == s@[i as int]);
                    assert(spec_list(vs)[0] == '[' as u8);
                }
            }
        }
        return None;
    }
    if i + 1 < s.len() && s[i + 1] == ']' as u8 {
        let empty: Vec<u32> = Vec::new();
        proof {
            assert(s@.subrange(i as int, i + 2) =~= spec_list(Seq::<u32>::empty()));
            assert forall|vs: Seq<u32>, j: int|
                i <= j <= s@.len() && s@.subrange(i as int, j) == spec_list(vs) implies vs
                == Seq::<u32>::empty() && j == i + 2 by {
                if vs.len() > 0 {
                    lemma_digits_shape(vs[0] as int);
                    assert(spec_items_close(vs).len() >= 2) by {
                        if vs.len() > 1 {
                            assert(spec_items_close(vs) == spec_digits(vs[0] as int) + seq![
                                ',' as u8,
                            ] + spec_items_close(vs.skip(1)));
                        }
                    }
                    assert(s@.subrange(i as int, j).len() == j - i);
                    assert(j >= i + 2);
                    assert(spec_list(vs)[1] == spec_items_close(vs)[0]);
                    assert(spec_items_close(vs)[0] == spec_digits(vs[0] as int)[0]);
                    assert(is_digit(spec_digits(vs[0] as int)[0]));
                    assert(s@.subrange(i as int, j)[1] == s@[i + 1]);
                } else {
                    assert(vs =~= Seq::<u32>::empty());
                }
            }
        }
        return Some((empty, i + 2));
    }
    let mut items: Vec<u32> = Vec::new();
    let rec = parse_items(s, i + 1, &mut items);
    proof {
        assert forall|vs: Seq<u32>, j: int|
            i <= j <= s@.len() && s@.subrange(i as int, j) == spec_list(vs) implies rec == Some(
            j as usize) && items@ == vs by {
            if vs.len() == 0 {
                assert(spec_list(vs) == seq!['[' as u8, ']' as u8]);
                assert(s@.subrange(i as int, j).len() == j - i);
                assert(j == i + 2);
                assert(s@.subrange(i as int, j)[1] == s@[i + 1]);
                assert(s@[i + 1] == ']' as u8);
                assert(i + 1 < s@.len());
            } else {
                assert(spec_list(vs) == seq!['[' as u8] + spec_items_close(vs));
                lemma_split_at(s@, i as int, j, seq!['[' as u8], spec_items_close(vs));
                assert(s@.subrange(i + 1, j) == spec_items_close(vs));
                assert(items@ == Seq::<u32>::empty() + vs);
                assert(Seq::<u32>::empty() + vs =~= vs);
            }
        }
    }
    match rec {
        None => None,
        Some(j) => {
            proof {
                assert(items@.skip(0) =~= items@);
                assert(s@.subrange(i + 1, j as int) == spec_items_close(items@));
                assert(items@.len() > 0);
                assert(s@.subrange(i as int, j as int) =~= seq!['[' as u8] + s@.subrange(
                    i + 1,
                    j as int,
                ));
                assert(s@.subrange(i as int, j as int) == spec_list(items@));
            }
            Some((items, j))
        },
    }
}

/// The bytes of an optional numeric field: its key and canonical digits, or
/// nothing at all when absent.
pub open spec fn opt_num_bytes(key: Seq<u8>, e: Option<u32>) -> Seq<u8> {
    match e {
        Some(v) => key + spec_digits(v as int),
        None => Seq::<u8>::empty(),
    }
}

/// The bytes of the optional primes field: its key and the list, or nothing.
pub open spec fn opt_primes_bytes(p: Option<Seq<u32>>) -> Seq<u8> {
    match p {
        Some(vs) => lit_key_primes() + spec_list(vs),
        None => Seq::<u8>::empty(),
    }
}

/// The canonical wire bytes of a request.
pub open spec fn spec_enc_req(m: ReqModel) -> Seq<u8> {
    lit_obj_task() + req_task_bytes(m.task) + seq!['"' as u8] + opt_num_bytes(
        lit_key_end(),
        m.end,
    ) + opt_primes_bytes(m.primes) + seq!['}' as u8]
}

/// Position just past the task name of an encoded request.
pub open spec fn req_p1(m: ReqModel) -> int {
    9 + req_task_bytes(m.task).len() as int
}

/// Position just past the optional end field of an encoded request.
pub open spec fn req_p3(m: ReqModel) -> int {
    req_p1(m) + 1 + opt_num_bytes(lit_key_end(), m.end).len() as int
}

/// Position of the closing brace of an encoded request.
pub open spec fn req_p4(m: ReqModel) -> int {
    req_p3(m) + opt_primes_bytes(m.primes).len() as int
}

/// Where each piece of an encoded request sits.
#[verifier::rlimit(100)]
proof fn lemma_req_enc_shape(s: Seq<u8>, m: ReqModel)
    requires
        s == spec_enc_req(m),
    ensures
        s.len() == req_p4(m) + 1,
        s.subrange(0, 9) == lit_obj_task(),
        s.subrange(9, req_p1(m)) == req_task_bytes(m.task),
        s[req_p1(m)] == '"' as u8,
        m.end is Some ==> s.subrange(req_p1(m) + 1, req_p1(m) + 8) == lit_key_end(),
        m.end is Some ==> s.subrange(req_p1(m) + 8, req_p3(m)) == spec_digits(
            m.end->Some_0 as int,
        ),
        m.primes is Some ==> s.subrange(req_p3(m), req_p3(m) + 10) == lit_key_primes(),
        m.primes is Some ==> s.subrange(req_p3(m) + 10, req_p4(m)) == spec_list(m.primes->Some_0),
        s[req_p4(m)] == '}' as u8,
        !is_digit(s[req_p3(m)]),
{
    let a = lit_obj_task();
    let b = req_task_bytes(m.task);
    let c = seq!['"' as u8];
    let d = opt_num_bytes(lit_key_end(), m.end);
    let e = opt_primes_bytes(m.primes);
    let f = seq!['}' as u8];
    assert(s.subrange(0, s.len() as int) =~= s);
    lemma_split_at(s, 0, s.len() as int, a + b + c + d + e, f);
    lemma_split_at(s, 0, (a + b + c + d + e).len() as int, a + b + c + d, e);
    lemma_split_at(s, 0, (a + b + c + d).len() as int, a + b + c, d);
    lemma_split_at(s, 0, (a + b + c).len() as int, a + b, c);
    lemma_split_at(s, 0, (a + b).len() as int, a, b);
    assert(s[req_p1(m)] == c[0]);
    assert(s[req_p4(m)] == f[0]);
    if m.end is Some {
        assert(d == lit_key_end() + spec_digits(m.end->Some_0 as int));
        lemma_split_at(
            s,
            req_p1(m) + 1,
            req_p3(m),
            lit_key_end(),
            spec_digits(m.end->Some_0 as int),
        );
    }
    if m.primes is Some {
        assert(e == lit_key_primes() + spec_list(m.primes->Some_0));
        lemma_split_at(s, req_p3(m), req_p4(m), lit_key_primes(), spec_list(m.primes->Some_0));
    }
    assert(!is_digit(s[req_p3(m)])) by {
        if m.primes is Some {
            assert(s[req_p3(m)] == lit_key_primes()[0]);
        } else {
            assert(req_p3(m) == req_p4(m));
        }
    }
}

/// Where the head pieces of an encoded request sit: the opening and the task
/// name with its closing quote.
proof fn lemma_req_head_shape(s: Seq<u8>, m: ReqModel)
    requires
        s == spec_enc_req(m),
    ensures
        req_p1(m) + 1 <= s.len(),
        s.subrange(0, 9) == lit_obj_task(),
        s.subrange(9, req_p1(m)) == req_task_bytes(m.task),
        s[req_p1(m)] == '"' as u8,
{
    lemma_req_enc_shape(s, m);
}

/// The pieces of an encoded request, sitting each at its place, assemble to
/// the whole encoding.
proof fn lemma_req_assemble(s: Seq<u8>, m: ReqModel)
    requires
        s.len() == req_p4(m) + 1,
        s.subrange(0, 9) == lit_obj_task(),
        s.subrange(9, req_p1(m)) == req_task_bytes(m.task),
        s[req_p1(m)] == '"' as u8,
        s.subrange(req_p1(m) + 1, req_p3(m)) == opt_num_bytes(lit_key_end(), m.end),
        s.subrange(req_p3(m), req_p4(m)) == opt_primes_bytes(m.primes),
        s[req_p4(m)] == '}' as u8,
    ensures
        s == spec_enc_req(m),
{
    assert(s =~= spec_enc_req(m));
}

/// Two task names with closing quotes cannot sit at the same spot unless
/// they are the same task: no name is a prefix of another name plus quote.
proof fn lemma_req_label_unique(s: Seq<u8>, i: int, t1: ReqTask, t2: ReqTask)
    requires
        0 <= i,
        i + req_task_bytes(t1).len() < s.len(),
        s.subrange(i, i + req_task_bytes(t1).len()) == req_task_bytes(t1),
        s[i + req_task_bytes(t1).len()] == '"' as u8,
        i + req_task_bytes(t2).len() < s.len(),
        s.subrange(i, i + req_task_bytes(t2).len()) == req_task_bytes(t2),
        s[i + req_task_bytes(t2).len()] == '"' as u8,
    ensures
        t1 == t2,
{
    let b1 = req_task_bytes(t1);
    let b2 = req_task_bytes(t2);
    if b1.len() == b2.len() {
        assert(b1[0] == s[i] && b2[0] == s[i]) by {
            assert(s.subrange(i, i + b1.len())[0] == s[i]);
            assert(s.subrange(i, i + b2.len())[0] == s[i]);
        }
        assert(b1[1] == s[i + 1] && b2[1] == s[i + 1]) by {
            assert(s.subrange(i, i + b1.len())[1] == s[i + 1]);
            assert(s.subrange(i, i + b2.len())[1] == s[i + 1]);
        }
    } else if b1.len() < b2.len() {
        assert(b2[b1.len() as int] == s[i + b1.len()]) by {
            assert(s.subrange(i, i + b2.len())[b1.len() as int] == s[i + b1.len()]);
        }
    } else {
        assert(b1[b2.len() as int] == s[i + b2.len()]) by {
            assert(s.subrange(i, i + b1.len())[b2.len() as int] == s[i + b2.len()]);
        }
    }
}

impl Request {
    /// The canonical wire bytes of this request.
    #[verifier::rlimit(100)]
    pub fn to_json(&self) -> (out: Vec<u8>)
        ensures
            out@ == spec_enc_req(self@),
    {
        let mut out: Vec<u8> = vec_obj_task();
        let mut t = vec_req_task(self.task);
        out.append(&mut t);
        out.push('"' as u8);
        match &self.end {
            Some(e) => {
                let mut k = vec_key_end();
                out.append(&mut k);
                write_num(&mut out, *e);
            },
            None => {},
        }
        match &self.primes {
            Some(ps) => {
                let mut k = vec_key_primes();
                out.append(&mut k);
                write_list(&mut out, ps);
            },
            None => {},
        }
        out.push('}' as u8);
        proof {
            assert(out@ =~= spec_enc_req(self@));
        }
        out
    }

    /// Reads the fixed head of an encoded request: the opening, the task
    /// name and its closing quote.
    #[verifier::rlimit(100)]
    fn parse_head(s: &[u8]) -> (r: Option<(ReqTask, usize)>)
        ensures
            match r {
                Some(ti) => {
                    &&& 10 <= ti.1 <= s@.len()
                    &&& s@.subrange(0, 9) == lit_obj_task()
                    &&& s@.subrange(9, ti.1 - 1) == req_task_bytes(ti.0)
                    &&& s@[ti.1 - 1] == '"' as u8
                },
                None => true,
            },
            forall|m: ReqModel|
                s@ == spec_enc_req(m) ==> r == Some((m.task, (req_p1(m) + 1) as usize)),
    {
        let obj = vec_obj_task();
        if !match_bytes(s, 0, &obj) {
            proof {
                assert forall|m: ReqModel| s@ != spec_enc_req(m) by {
                    if s@ == spec_enc_req(m) {
                        lemma_req_head_shape(s@, m);
                    }
                }
            }
            return None;
        }
        let i0: usize = 9;
        let v_start = vec_req_task(ReqTask::Start);
        let v_save = vec_req_task(ReqTask::Save);
        let v_continue = vec_req_task(ReqTask::Continue);
        let v_close = vec_req_task(ReqTask::Close);
        let matched: Option<(ReqTask, usize)> = if match_bytes(s, i0, &v_start) {
            Some((ReqTask::Start, i0 + 5))
        } else if match_bytes(s, i0, &v_save) {
            Some((ReqTask::Save, i0 + 4))
        } else if match_bytes(s, i0, &v_continue) {
            Some((ReqTask::Continue, i0 + 8))
        } else if match_bytes(s, i0, &v_close) {
            Some((ReqTask::Close, i0 + 5))
        } else {
            None
        };
        let (task, i1) = match matched {
            Some(ti) => ti,
            None => {
                proof {
                    assert forall|m: ReqModel| s@ != spec_enc_req(m) by {
                        if s@ == spec_enc_req(m) {
                            lemma_req_head_shape(s@, m);
                        }
                    }
                }
                return None;
            },
        };
        if i1 >= s.len() || s[i1] != '"' as u8 {
            proof {
                assert forall|m: ReqModel| s@ != spec_enc_req(m) by {
                    if s@ == spec_enc_req(m) {
                        lemma_req_head_shape(s@, m);
                        lemma_req_label_unique(s@, 9, task, m.task);
                    }
                }
            }
            return None;
        }
        proof {
            assert forall|m: ReqModel|
                s@ == spec_enc_req(m) implies task == m.task && i1 == req_p1(m) by {
                lemma_req_head_shape(s@, m);
                lemma_req_label_unique(s@, 9, task, m.task);
            }
        }
        Some((task, i1 + 1))
    }

    /// Reads the optional end field of an encoded request, starting just
    /// past the task name's closing quote.
    #[verifier::rlimit(100)]
    fn parse_end_field(s: &[u8], i2: usize) -> (r: Option<(Option<u32>, usize)>)
        requires
            i2 <= s@.len(),
        ensures
            match r {
                Some(oj) => {
                    &&& i2 <= oj.1 <= s@.len()
                    &&& s@.subrange(i2 as int, oj.1 as int) == opt_num_bytes(lit_key_end(), oj.0)
                },
                None => true,
            },
            forall|m: ReqModel|
                s@ == spec_enc_req(m) && i2 == req_p1(m) + 1 ==> r == Some(
                    (m.end, req_p3(m) as usize),
                ),
    {
        let slen = s.len();
        proof {
            assert(s@.len() == slen);
        }
        let key_e = vec_key_end();
        let has_end = match_bytes(s, i2, &key_e);
        proof {
            assert forall|m: ReqModel|
                s@ == spec_enc_req(m) && i2 == req_p1(m) + 1 implies has_end == (
            m.end is Some) by {
                lemma_req_enc_shape(s@, m);
                if m.end is Some {
                    assert(has_end) by {
                        assert(s@.subrange(i2 as int, i2 + 7) == lit_key_end());
                    }
                } else {
                    if has_end {
                        // the key that actually follows starts differently
                        if m.primes is Some {
                            assert(s@.subrange(i2 as int, i2 + 7)[2] == s@[i2 + 2]);
                            assert(s@.subrange(req_p3(m), req_p3(m) + 10)[2] == s@[i2 + 2]);
                        } else {
                            assert(s@.subrange(i2 as int, i2 + 7)[0] == s@[i2 as int]);
                        }
                    }
                }
            }
        }
        if !has_end {
            proof {
                assert(s@.subrange(i2 as int, i2 as int) =~= opt_num_bytes(
                    lit_key_end(),
                    None::<u32>,
                ));
            }
            return Some((None, i2));
        }
        match parse_num(s, i2 + 7) {
            Some((v, j)) => {
                proof {
                    assert(s@.subrange(i2 as int, j as int) =~= s@.subrange(i2 as int, i2 + 7)
                        + s@.subrange(i2 + 7, j as int));
                    assert forall|m: ReqModel|
                        s@ == spec_enc_req(m) && i2 == req_p1(m) + 1 implies m.end == Some(v) && j
                        == req_p3(m) by {
                        lemma_req_enc_shape(s@, m);
                        assert(!is_digit(s@[req_p3(m)]) && req_p3(m) <= s@.len());
                    }
                }
                Some((Some(v), j))
            },
            None => {
                proof {
                    assert forall|m: ReqModel|
                        !(s@ == spec_enc_req(m) && i2 == req_p1(m) + 1) by {
                        if s@ == spec_enc_req(m) && i2 == req_p1(m) + 1 {
                            lemma_req_enc_shape(s@, m);
                            assert(!is_digit(s@[req_p3(m)]) && req_p3(m) <= s@.len());
                        }
                    }
                }
                None
            },
        }
    }

    /// Reads the optional primes field of an encoded request, starting just
    /// past the end field.
    #[verifier::rlimit(100)]
    fn parse_primes_field(s: &[u8], i3: usize) -> (r: Option<(Option<Vec<u32>>, usize)>)
        requires
            i3 <= s@.len(),
        ensures
            match r {
                Some(oj) => {
                    &&& i3 <= oj.1 <= s@.len()
                    &&& s@.subrange(i3 as int, oj.1 as int) == opt_primes_bytes(
                        match oj.0 {
                            Some(v) => Some(v@),
                            None => None,
                        },
                    )
                },
                None => true,
            },
            forall|m: ReqModel|
                s@ == spec_enc_req(m) && i3 == req_p3(m) ==> (r is Some && r->Some_0.1 == req_p4(
                    m,
                ) && (match (r->Some_0.0, m.primes) {
                    (Some(v), Some(ps)) => v@ == ps,
                    (None, None) => true,
                    _ => false,
                })),
    {
        let slen = s.len();
        proof {
            assert(s@.len() == slen);
        }
        let key_p = vec_key_primes();
        let has_primes = match_bytes(s, i3, &key_p);
        proof {
            assert forall|m: ReqModel|
                s@ == spec_enc_req(m) && i3 == req_p3(m) implies has_primes == (
            m.primes is Some) by {
                lemma_req_enc_shape(s@, m);
                if m.primes is Some {
                    assert(has_primes) by {
                        assert(s@.subrange(i3 as int, i3 + 10) == lit_key_primes());
                    }
                } else {
                    if has_primes {
                        assert(s@.subrange(i3 as int, i3 + 10)[0] == s@[i3 as int]);
                    }
                }
            }
        }
        if !has_primes {
            proof {
                assert(s@.subrange(i3 as int, i3 as int) =~= opt_primes_bytes(None::<Seq<u32>>));
            }
            return Some((None, i3));
        }
        match parse_list(s, i3 + 10) {
            Some((vec, j)) => {
                proof {
                    assert(s@.subrange(i3 as int, j as int) =~= s@.subrange(i3 as int, i3 + 10)
                        + s@.subrange(i3 + 10, j as int));
                    assert forall|m: ReqModel|
                        s@ == spec_enc_req(m) && i3 == req_p3(m) implies (match m.primes {
                        Some(ps) => vec@ == ps,
                        None => false,
                    }) && j == req_p4(m) by {
                        lemma_req_enc_shape(s@, m);
                    }
                }
                Some((Some(vec), j))
            },
            None => {
                proof {
                    assert forall|m: ReqModel|
                        !(s@ == spec_enc_req(m) && i3 == req_p3(m)) by {
                        if s@ == spec_enc_req(m) && i3 == req_p3(m) {
                            lemma_req_enc_shape(s@, m);
                        }
                    }
                }
                None
            },
        }
    }

    /// Reads a request back from wire bytes. Exactly the canonical
    /// encodings decode, each to the request that produced it; anything
    /// else — truncated, malformed, or non-canonical — yields nothing.
    #[verifier::rlimit(100)]
    pub fn from_json(s: &[u8]) -> (r: Option<Request>)
        ensures
            r is Some ==> s@ == spec_enc_req(r->Some_0@),
            forall|m: ReqModel| s@ == spec_enc_req(m) ==> (r is Some && r->Some_0@ == m),
    {
        let head = Self::parse_head(s);
        let (task, i2) = match head {
            Some(ti) => ti,
            None => {
                return None;
            },
        };
        let (end_f, i3) = match Self::parse_end_field(s, i2) {
            Some(oj) => oj,
            None => {
                return None;
            },
        };
        let (primes_f, i4) = match Self::parse_primes_field(s, i3) {
            Some(oj) => oj,
            None => {
                return None;
            },
        };
        if i4 >= s.len() || s[i4] != '}' as u8 || i4 + 1 != s.len() {
            proof {
                assert forall|m: ReqModel| s@ != spec_enc_req(m) by {
                    if s@ == spec_enc_req(m) {
                        lemma_req_enc_shape(s@, m);
                    }
                }
            }
            return None;
        }
        let req = Request { task, end: end_f, primes: primes_f };
        proof {
            // every matched piece sits at its place, so the whole input is
            // the canonical encoding of what was read
            lemma_req_assemble(s@, req@);
        }
        Some(req)
    }
}

/// The canonical wire bytes of a response.
pub open spec fn spec_enc_resp(m: RespModel) -> Seq<u8> {
    lit_obj_task() + resp_task_bytes(m.task) + seq!['"' as u8] + lit_key_status()
        + resp_status_bytes(m.status) + seq!['"' as u8] + opt_num_bytes(lit_key_start(), m.start)
        + opt_num_bytes(lit_key_end(), m.end) + opt_primes_bytes(m.primes) + seq!['}' as u8]
}

/// Position just past the task name of an encoded response.
pub open spec fn resp_p1(m: RespModel) -> int {
    9 + resp_task_bytes(m.task).len() as int
}

/// Position just past the status name of an encoded response.
pub open spec fn resp_p3(m: RespModel) -> int {
    resp_p1(m) + 12 + resp_status_bytes(m.status).len() as int
}

/// Position just past the optional start field of an encoded response.
pub open spec fn resp_p4(m: RespModel) -> int {
    resp_p3(m) + 1 + opt_num_bytes(lit_key_start(), m.start).len() as int
}

/// Position just past the optional end field of an encoded response.
pub open spec fn resp_p5(m: RespModel) -> int {
    resp_p4(m) + opt_num_bytes(lit_key_end(), m.end).len() as int
}

/// Position of the closing brace of an encoded response.
pub open spec fn resp_p6(m: RespModel) -> int {
    resp_p5(m) + opt_primes_bytes(m.primes).len() as int
}

/// Where each piece of an encoded response sits.
#[verifier::rlimit(100)]
proof fn lemma_resp_enc_shape(s: Seq<u8>, m: RespModel)
    requires
        s == spec_enc_resp(m),
    ensures
        s.len() == resp_p6(m) + 1,
        s.subrange(0, 9) == lit_obj_task(),
        s.subrange(9, resp_p1(m)) == resp_task_bytes(m.task),
        s[resp_p1(m)] == '"' as u8,
        s.subrange(resp_p1(m) + 1, resp_p1(m) + 12) == lit_key_status(),
        s.subrange(resp_p1(m) + 12, resp_p3(m)) == resp_status_bytes(m.status),
        s[resp_p3(m)] == '"' as u8,
        m.start is Some ==> s.subrange(resp_p3(m) + 1, resp_p3(m) + 10) == lit_key_start(),
        m.start is Some ==> s.subrange(resp_p3(m) + 10, resp_p4(m)) == spec_digits(
            m.start->Some_0 as int,
        ),
        m.end is Some ==> s.subrange(resp_p4(m), resp_p4(m) + 7) == lit_key_end(),
        m.end is Some ==> s.subrange(resp_p4(m) + 7, resp_p5(m)) == spec_digits(
            m.end->Some_0 as int,
        ),
        m.primes is Some ==> s.subrange(resp_p5(m), resp_p5(m) + 10) == lit_key_primes(),
        m.primes is Some ==> s.subrange(resp_p5(m) + 10, resp_p6(m)) == spec_list(
            m.primes->Some_0,
        ),
        s[resp_p6(m)] == '}' as u8,
        !is_digit(s[resp_p4(m)]),
        !is_digit(s[resp_p5(m)]),
{
    let a = lit_obj_task();
    let b = resp_task_bytes(m.task);
    let c = seq!['"' as u8];
    let d = lit_key_status();
    let e = resp_status_bytes(m.status);
    let f = seq!['"' as u8];
    let g = opt_num_bytes(lit_key_start(), m.start);
    let h = opt_num_bytes(lit_key_end(), m.end);
    let p = opt_primes_bytes(m.primes);
    let q = seq!['}' as u8];
    assert(s.subrange(0, s.len() as int) =~= s);
    lemma_split_at(s, 0, s.len() as int, a + b + c + d + e + f + g + h + p, q);
    lemma_split_at(s, 0, (a + b + c + d + e + f + g + h + p).len() as int, a + b + c + d + e + f
        + g + h, p);
    lemma_split_at(s, 0, (a + b + c + d + e + f + g + h).len() as int, a + b + c + d + e + f + g,
        h);
    lemma_split_at(s, 0, (a + b + c + d + e + f + g).len() as int, a + b + c + d + e + f, g);
    lemma_split_at(s, 0, (a + b + c + d + e + f).len() as int, a + b + c + d + e, f);
    lemma_split_at(s, 0, (a + b + c + d + e).len() as int, a + b + c + d, e);
    lemma_split_at(s, 0, (a + b + c + d).len() as int, a + b + c, d);
    lemma_split_at(s, 0, (a + b + c).len() as int, a + b, c);
    lemma_split_at(s, 0, (a + b).len() as int, a, b);
    assert(s[resp_p1(m)] == c[0]);
    assert(s[resp_p3(m)] == f[0]);
    assert(s[resp_p6(m)] == q[0]);
    if m.start is Some {
        assert(g == lit_key_start() + spec_digits(m.start->Some_0 as int));
        lemma_split_at(
            s,
            resp_p3(m) + 1,
            resp_p4(m),
            lit_key_start(),
            spec_digits(m.start->Some_0 as int),
        );
    }
    if m.end is Some {
        assert(h == lit_key_end() + spec_digits(m.end->Some_0 as int));
        lemma_split_at(
            s,
            resp_p4(m),
            resp_p5(m),
            lit_key_end(),
            spec_digits(m.end->Some_0 as int),
        );
    }
    if m.primes is Some {
        assert(p == lit_key_primes() + spec_list(m.primes->Some_0));
        lemma_split_at(s, resp_p5(m), resp_p6(m), lit_key_primes(), spec_list(m.primes->Some_0));
    }
    assert(!is_digit(s[resp_p4(m)])) by {
        if m.end is Some {
            assert(s[resp_p4(m)] == lit_key_end()[0]);
        } else if m.primes is Some {
            assert(resp_p4(m) == resp_p5(m));
            assert(s[resp_p5(m)] == lit_key_primes()[0]);
        } else {
            assert(resp_p4(m) == resp_p6(m));
        }
    }
    assert(!is_digit(s[resp_p5(m)])) by {
        if m.primes is Some {
            assert(s[resp_p5(m)] == lit_key_primes()[0]);
        } else {
            assert(resp_p5(m) == resp_p6(m));
        }
    }
}

/// Where the head pieces of an encoded response sit: the opening, the task
/// name, the status key and the status name.
proof fn lemma_resp_head_shape(s: Seq<u8>, m: RespModel)
    requires
        s == spec_enc_resp(m),
    ensures
        resp_p3(m) + 1 < s.len(),
        s.subrange(0, 9) == lit_obj_task(),
        s.subrange(9, resp_p1(m)) == resp_task_bytes(m.task),
        s[resp_p1(m)] == '"' as u8,
        s.subrange(resp_p1(m) + 1, resp_p1(m) + 12) == lit_key_status(),
        s.subrange(resp_p1(m) + 12, resp_p3(m)) == resp_status_bytes(m.status),
        s[resp_p3(m)] == '"' as u8,
{
    lemma_resp_enc_shape(s, m);
}

/// Two response task names with closing quotes cannot sit at the same spot
/// unless they are the same task.
proof fn lemma_resp_label_unique(s: Seq<u8>, i: int, t1: RespTask, t2: RespTask)
    requires
        0 <= i,
        i + resp_task_bytes(t1).len() < s.len(),
        s.subrange(i, i + resp_task_bytes(t1).len()) == resp_task_bytes(t1),
        s[i + resp_task_bytes(t1).len()] == '"' as u8,
        i + resp_task_bytes(t2).len() < s.len(),
        s.subrange(i, i + resp_task_bytes(t2).len()) == resp_task_bytes(t2),
        s[i + resp_task_bytes(t2).len()] == '"' as u8,
    ensures
        t1 == t2,
{
    let b1 = resp_task_bytes(t1);
    let b2 = resp_task_bytes(t2);
    if b1.len() == b2.len() {
        assert(b1[0] == s[i] && b2[0] == s[i]) by {
            assert(s.subrange(i, i + b1.len())[0] == s[i]);
            assert(s.subrange(i, i + b2.len())[0] == s[i]);
        }
    } else if b1.len() < b2.len() {
        assert(b2[b1.len() as int] == s[i + b1.len()]) by {
            assert(s.subrange(i, i + b2.len())[b1.len() as int] == s[i + b1.len()]);
        }
    } else {
        assert(b1[b2.len() as int] == s[i + b2.len()]) by {
            assert(s.subrange(i, i + b1.len())[b2.len() as int] == s[i + b2.len()]);
        }
    }
}

/// Two status names with closing quotes cannot sit at the same spot unless
/// they are the same status.
proof fn lemma_resp_status_unique(s: Seq<u8>, i: int, t1: RespStatus, t2: RespStatus)
    requires
        0 <= i,
        i + resp_status_bytes(t1).len() < s.len(),
        s.subrange(i, i + resp_status_bytes(t1).len()) == resp_status_bytes(t1),
        s[i + resp_status_bytes(t1).len()] == '"' as u8,
        i + resp_status_bytes(t2).len() < s.len(),
        s.subrange(i, i + resp_status_bytes(t2).len()) == resp_status_bytes(t2),
        s[i + resp_status_bytes(t2).len()] == '"' as u8,
    ensures
        t1 == t2,
{
    let b1 = resp_status_bytes(t1);
    let b2 = resp_status_bytes(t2);
    if b1.len() == b2.len() {
        assert(b1[0] == s[i] && b2[0] == s[i]) by {
            assert(s.subrange(i, i + b1.len())[0] == s[i]);
            assert(s.subrange(i, i + b2.len())[0] == s[i]);
        }
    } else if b1.len() < b2.len() {
        assert(b2[b1.len() as int] == s[i + b1.len()]) by {
            assert(s.subrange(i, i + b2.len())[b1.len() as int] == s[i + b1.len()]);
        }
    } else {
        assert(b1[b2.len() as int] == s[i + b2.len()]) by {
            assert(s.subrange(i, i + b1.len())[b2.len() as int] == s[i + b2.len()]);
        }
    }
}

/// The pieces of an encoded response, sitting each at its place, assemble to
/// the whole encoding.
proof fn lemma_resp_assemble(s: Seq<u8>, m: RespModel)
    requires
        s.len() == resp_p6(m) + 1,
        s.subrange(0, 9) == lit_obj_task(),
        s.subrange(9, resp_p1(m)) == resp_task_bytes(m.task),
        s[resp_p1(m)] == '"' as u8,
        s.subrange(resp_p1(m) + 1, resp_p1(m) + 12) == lit_key_status(),
        s.subrange(resp_p1(m) + 12, resp_p3(m)) == resp_status_bytes(m.status),
        s[resp_p3(m)] == '"' as u8,
        s.subrange(resp_p3(m) + 1, resp_p4(m)) == opt_num_bytes(lit_key_start(), m.start),
        s.subrange(resp_p4(m), resp_p5(m)) == opt_num_bytes(lit_key_end(), m.end),
        s.subrange(resp_p5(m), resp_p6(m)) == opt_primes_bytes(m.primes),
        s[resp_p6(m)] == '}' as u8,
    ensures
        s == spec_enc_resp(m),
{
    assert(s =~= spec_enc_resp(m));
}

impl Response {
    /// The canonical wire bytes of this response.
    #[verifier::rlimit(100)]
    pub fn to_json(&self) -> (out: Vec<u8>)
        ensures
            out@ == spec_enc_resp(self@),
    {
        let mut out: Vec<u8> = vec_obj_task();
        let mut t = vec_resp_task(self.task);
        out.append(&mut t);
        out.push('"' as u8);
        let mut ks = vec_key_status();
        out.append(&mut ks);
        let mut st = vec_resp_status(self.status);
        out.append(&mut st);
        out.push('"' as u8);
        match &self.start {
            Some(v) => {
                let mut k = vec_key_start();
                out.append(&mut k);
                write_num(&mut out, *v);
            },
            None => {},
        }
        match &self.end {
            Some(v) => {
                let mut k = vec_key_end();
                out.append(&mut k);
                write_num(&mut out, *v);
            },
            None => {},
        }
        match &self.primes {
            Some(ps) => {
                let mut k = vec_key_primes();
                out.append(&mut k);
                write_list(&mut out, ps);
            },
            None => {},
        }
        out.push('}' as u8);
        proof {
            assert(out@ =~= spec_enc_resp(self@));
        }
        out
    }

    /// Reads the opening and the task name of an encoded response, up to and
    /// including the name's closing quote.
    #[verifier::rlimit(100)]
    fn parse_task_part(s: &[u8]) -> (r: Option<(RespTask, usize)>)
        ensures
            match r {
                Some(ti) => {
                    &&& 13 <= ti.1 < s@.len()
                    &&& s@.subrange(0, 9) == lit_obj_task()
                    &&& 9 + resp_task_bytes(ti.0).len() == ti.1
                    &&& s@.subrange(9, ti.1 as int) == resp_task_bytes(ti.0)
                    &&& s@[ti.1 as int] == '"' as u8
                },
                None => true,
            },
            forall|m: RespModel|
                s@ == spec_enc_resp(m) ==> r == Some((m.task, resp_p1(m) as usize)),
    {
        let obj = vec_obj_task();
        if !match_bytes(s, 0, &obj) {
            proof {
                assert forall|m: RespModel| s@ != spec_enc_resp(m) by {
                    if s@ == spec_enc_resp(m) {
                        lemma_resp_head_shape(s@, m);
                    }
                }
            }
            return None;
        }
        let i0: usize = 9;
        let v_range = vec_resp_task(RespTask::Range);
        let v_continue = vec_resp_task(RespTask::Continue);
        let v_done = vec_resp_task(RespTask::Done);
        let v_error = vec_resp_task(RespTask::Error);
        let matched: Option<(RespTask, usize)> = if match_bytes(s, i0, &v_range) {
            Some((RespTask::Range, i0 + 5))
        } else if match_bytes(s, i0, &v_continue) {
            Some((RespTask::Continue, i0 + 8))
        } else if match_bytes(s, i0, &v_done) {
            Some((RespTask::Done, i0 + 4))
        } else if match_bytes(s, i0, &v_error) {
            Some((RespTask::Error, i0 + 5))
        } else {
            None
        };
        let (task, i1) = match matched {
            Some(ti) => ti,
            None => {
                proof {
                    assert forall|m: RespModel| s@ != spec_enc_resp(m) by {
                        if s@ == spec_enc_resp(m) {
                            lemma_resp_head_shape(s@, m);
                        }
                    }
                }
                return None;
            },
        };
        if i1 >= s.len() || s[i1] != '"' as u8 {
            proof {
                assert forall|m: RespModel| s@ != spec_enc_resp(m) by {
                    if s@ == spec_enc_resp(m) {
                        lemma_resp_head_shape(s@, m);
                        lemma_resp_label_unique(s@, 9, task, m.task);
                    }
                }
            }
            return None;
        }
        proof {
            assert forall|m: RespModel|
                s@ == spec_enc_resp(m) implies task == m.task && i1 == resp_p1(m) by {
                lemma_resp_head_shape(s@, m);
                lemma_resp_label_unique(s@, 9, task, m.task);
            }
        }
        Some((task, i1))
    }

    /// Reads the status key and status name of an encoded response, starting
    /// just past the task name's closing quote.
    #[verifier::rlimit(100)]
    fn parse_status_part(s: &[u8], iq: usize) -> (r: Option<(RespStatus, usize)>)
        requires
            iq <= s@.len(),
        ensures
            match r {
                Some(ti) => {
                    &&& iq + 11 + resp_status_bytes(ti.0).len() == ti.1
                    &&& ti.1 < s@.len()
                    &&& s@.subrange(iq as int, iq + 11) == lit_key_status()
                    &&& s@.subrange(iq + 11, ti.1 as int) == resp_status_bytes(ti.0)
                    &&& s@[ti.1 as int] == '"' as u8
                },
                None => true,
            },
            forall|m: RespModel|
                s@ == spec_enc_resp(m) && iq == resp_p1(m) + 1 ==> r == Some(
                    (m.status, resp_p3(m) as usize),
                ),
    {
        let slen = s.len();
        proof {
            assert(s@.len() == slen);
        }
        let ks = vec_key_status();
        if !match_bytes(s, iq, &ks) {
            proof {
                assert forall|m: RespModel|
                    !(s@ == spec_enc_resp(m) && iq == resp_p1(m) + 1) by {
                    if s@ == spec_enc_resp(m) && iq == resp_p1(m) + 1 {
                        lemma_resp_head_shape(s@, m);
                    }
                }
            }
            return None;
        }
        let i2 = iq + 11;
        let v_processing = vec_resp_status(RespStatus::Processing);
        let v_completed = vec_resp_status(RespStatus::Completed);
        let v_invalid = vec_resp_status(RespStatus::Invalid);
        let smatched: Option<(RespStatus, usize)> = if match_bytes(s, i2, &v_processing) {
            Some((RespStatus::Processing, i2 + 10))
        } else if match_bytes(s, i2, &v_completed) {
            Some((RespStatus::Completed, i2 + 9))
        } else if match_bytes(s, i2, &v_invalid) {
            Some((RespStatus::Invalid, i2 + 7))
        } else {
            None
        };
        let (status, i3) = match smatched {
            Some(ti) => ti,
            None => {
                proof {
                    assert forall|m: RespModel|
                        !(s@ == spec_enc_resp(m) && iq == resp_p1(m) + 1) by {
                        if s@ == spec_enc_resp(m) && iq == resp_p1(m) + 1 {
                            lemma_resp_head_shape(s@, m);
                        }
                    }
                }
                return None;
            },
        };
        if i3 >= s.len() || s[i3] != '"' as u8 {
            proof {
                assert forall|m: RespModel|
                    !(s@ == spec_enc_resp(m) && iq == resp_p1(m) + 1) by {
                    if s@ == spec_enc_resp(m) && iq == resp_p1(m) + 1 {
                        lemma_resp_head_shape(s@, m);
                        lemma_resp_status_unique(s@, i2 as int, status, m.status);
                    }
                }
            }
            return None;
        }
        proof {
            assert forall|m: RespModel|
                s@ == spec_enc_resp(m) && iq == resp_p1(m) + 1 implies status == m.status && i3
                == resp_p3(m) by {
                lemma_resp_head_shape(s@, m);
                lemma_resp_status_unique(s@, i2 as int, status, m.status);
            }
        }
        Some((status, i3))
    }

    /// Reads the fixed head of an encoded response: the opening, the task
    /// name, the status key and the status name.
    fn parse_head(s: &[u8]) -> (r: Option<(RespTask, RespStatus, usize)>)
        ensures
            match r {
                Some(ti) => {
                    &&& 23 <= ti.2 <= s@.len()
                    &&& s@.subrange(0, 9) == lit_obj_task()
                    &&& 9 + resp_task_bytes(ti.0).len() + 12 + resp_status_bytes(ti.1).len() + 1
                        == ti.2
                    &&& s@.subrange(9, 9 + resp_task_bytes(ti.0).len() as int) == resp_task_bytes(
                        ti.0,
                    )
                    &&& s@[9 + resp_task_bytes(ti.0).len() as int] == '"' as u8
                    &&& s@.subrange(
                        9 + resp_task_bytes(ti.0).len() as int + 1,
                        9 + resp_task_bytes(ti.0).len() as int + 12,
                    ) == lit_key_status()
                    &&& s@.subrange(
                        9 + resp_task_bytes(ti.0).len() as int + 12,
                        ti.2 - 1,
                    ) == resp_status_bytes(ti.1)
                    &&& s@[ti.2 - 1] == '"' as u8
                },
                None => true,
            },
            forall|m: RespModel|
                s@ == spec_enc_resp(m) ==> r == Some(
                    (m.task, m.status, (resp_p3(m) + 1) as usize),
                ),
    {
        let (task, i1) = match Self::parse_task_part(s) {
            Some(ti) => ti,
            None => {
                return None;
            },
        };
        let (status, i3) = match Self::parse_status_part(s, i1 + 1) {
            Some(ti) => ti,
            None => {
                return None;
            },
        };
        Some((task, status, i3 + 1))
    }

    /// Reads the optional start field of an encoded response, starting just
    /// past the status name's closing quote.
    #[verifier::rlimit(100)]
    fn parse_start_field(s: &[u8], i4: usize) -> (r: Option<(Option<u32>, usize)>)
        requires
            i4 <= s@.len(),
        ensures
            match r {
                Some(oj) => {
                    &&& i4 <= oj.1 <= s@.len()
                    &&& s@.subrange(i4 as int, oj.1 as int) == opt_num_bytes(lit_key_start(), oj.0)
                },
                None => true,
            },
            forall|m: RespModel|
                s@ == spec_enc_resp(m) && i4 == resp_p3(m) + 1 ==> r == Some(
                    (m.start, resp_p4(m) as usize),
                ),
    {
        let slen = s.len();
        proof {
            assert(s@.len() == slen);
        }
        let key_s = vec_key_start();
        let has_start = match_bytes(s, i4, &key_s);
        proof {
            assert forall|m: RespModel|
                s@ == spec_enc_resp(m) && i4 == resp_p3(m) + 1 implies has_start == (
            m.start is Some) by {
                lemma_resp_enc_shape(s@, m);
                if m.start is Some {
                    assert(has_start) by {
                        assert(s@.subrange(i4 as int, i4 + 9) == lit_key_start());
                    }
                } else {
                    if has_start {
                        // the key that actually follows starts differently
                        if m.end is Some {
                            assert(s@.subrange(i4 as int, i4 + 9)[2] == s@[i4 + 2]);
                            assert(s@.subrange(resp_p4(m), resp_p4(m) + 7)[2] == s@[i4 + 2]);
                        } else if m.primes is Some {
                            assert(s@.subrange(i4 as int, i4 + 9)[2] == s@[i4 + 2]);
                            assert(s@.subrange(resp_p5(m), resp_p5(m) + 10)[2] == s@[i4 + 2]);
                        } else {
                            assert(s@.subrange(i4 as int, i4 + 9)[0] == s@[i4 as int]);
                        }
                    }
                }
            }
        }
        if !has_start {
            proof {
                assert(s@.subrange(i4 as int, i4 as int) =~= opt_num_bytes(
                    lit_key_start(),
                    None::<u32>,
                ));
            }
            return Some((None, i4));
        }
        match parse_num(s, i4 + 9) {
            Some((v, j)) => {
                proof {
                    assert(s@.subrange(i4 as int, j as int) =~= s@.subrange(i4 as int, i4 + 9)
                        + s@.subrange(i4 + 9, j as int));
                    assert forall|m: RespModel|
                        s@ == spec_enc_resp(m) && i4 == resp_p3(m) + 1 implies m.start == Some(v)
                        && j == resp_p4(m) by {
                        lemma_resp_enc_shape(s@, m);
                        assert(!is_digit(s@[resp_p4(m)]) && resp_p4(m) <= s@.len());
                    }
                }
                Some((Some(v), j))
            },
            None => {
                proof {
                    assert forall|m: RespModel|
                        !(s@ == spec_enc_resp(m) && i4 == resp_p3(m) + 1) by {
                        if s@ == spec_enc_resp(m) && i4 == resp_p3(m) + 1 {
                            lemma_resp_enc_shape(s@, m);
                            assert(!is_digit(s@[resp_p4(m)]) && resp_p4(m) <= s@.len());
                        }
                    }
                }
                None
            },
        }
    }

    /// Reads the optional end field of an encoded response, starting just
    /// past the start field.
    #[verifier::rlimit(100)]
    fn parse_end_field(s: &[u8], i5: usize) -> (r: Option<(Option<u32>, usize)>)
        requires
            i5 <= s@.len(),
        ensures
            match r {
                Some(oj) => {
                    &&& i5 <= oj.1 <= s@.len()
                    &&& s@.subrange(i5 as int, oj.1 as int) == opt_num_bytes(lit_key_end(), oj.0)
                },
                None => true,
            },
            forall|m: RespModel|
                s@ == spec_enc_resp(m) && i5 == resp_p4(m) ==> r == Some(
                    (m.end, resp_p5(m) as usize),
                ),
    {
        let slen = s.len();
        proof {
            assert(s@.len() == slen);
        }
        let key_e = vec_key_end();
        let has_end = match_bytes(s, i5, &key_e);
        proof {
            assert forall|m: RespModel|
                s@ == spec_enc_resp(m) && i5 == resp_p4(m) implies has_end == (
            m.end is Some) by {
                lemma_resp_enc_shape(s@, m);
                if m.end is Some {
                    assert(has_end) by {
                        assert(s@.subrange(i5 as int, i5 + 7) == lit_key_end());
                    }
                } else {
                    if has_end {
                        if m.primes is Some {
                            assert(s@.subrange(i5 as int, i5 + 7)[2] == s@[i5 + 2]);
                            assert(s@.subrange(resp_p5(m), resp_p5(m) + 10)[2] == s@[i5 + 2]);
                        } else {
                            assert(s@.subrange(i5 as int, i5 + 7)[0] == s@[i5 as int]);
                        }
                    }
                }
            }
        }
        if !has_end {
            proof {
                assert(s@.subrange(i5 as int, i5 as int) =~= opt_num_bytes(
                    lit_key_end(),
                    None::<u32>,
                ));
            }
            return Some((None, i5));
        }
        match parse_num(s, i5 + 7) {
            Some((v, j)) => {
                proof {
                    assert(s@.subrange(i5 as int, j as int) =~= s@.subrange(i5 as int, i5 + 7)
                        + s@.subrange(i5 + 7, j as int));
                    assert forall|m: RespModel|
                        s@ == spec_enc_resp(m) && i5 == resp_p4(m) implies m.end == Some(v) && j
                        == resp_p5(m) by {
                        lemma_resp_enc_shape(s@, m);
                        assert(!is_digit(s@[resp_p5(m)]) && resp_p5(m) <= s@.len());
                    }
                }
                Some((Some(v), j))
            },
            None => {
                proof {
                    assert forall|m: RespModel|
                        !(s@ == spec_enc_resp(m) && i5 == resp_p4(m)) by {
                        if s@ == spec_enc_resp(m) && i5 == resp_p4(m) {
                            lemma_resp_enc_shape(s@, m);
                            assert(!is_digit(s@[resp_p5(m)]) && resp_p5(m) <= s@.len());
                        }
                    }
                }
                None
            },
        }
    }

    /// Reads the optional primes field of an encoded response, starting just
    /// past the end field.
    #[verifier::rlimit(100)]
    fn parse_primes_field(s: &[u8], i6: usize) -> (r: Option<(Option<Vec<u32>>, usize)>)
        requires
            i6 <= s@.len(),
        ensures
            match r {
                Some(oj) => {
                    &&& i6 <= oj.1 <= s@.len()
                    &&& s@.subrange(i6 as int, oj.1 as int) == opt_primes_bytes(
                        match oj.0 {
                            Some(v) => Some(v@),
                            None => None,
                        },
                    )
                },
                None => true,
            },
            forall|m: RespModel|
                s@ == spec_enc_resp(m) && i6 == resp_p5(m) ==> (r is Some && r->Some_0.1
                    == resp_p6(m) && (match (r->Some_0.0, m.primes) {
                    (Some(v), Some(ps)) => v@ == ps,
                    (None, None) => true,
                    _ => false,
                })),
    {
        let slen = s.len();
        proof {
            assert(s@.len() == slen);
        }
        let key_p = vec_key_primes();
        let has_primes = match_bytes(s, i6, &key_p);
        proof {
            assert forall|m: RespModel|
                s@ == spec_enc_resp(m) && i6 == resp_p5(m) implies has_primes == (
            m.primes is Some) by {
                lemma_resp_enc_shape(s@, m);
                if m.primes is Some {
                    assert(has_primes) by {
                        assert(s@.subrange(i6 as int, i6 + 10) == lit_key_primes());
                    }
                } else {
                    if has_primes {
                        assert(s@.subrange(i6 as int, i6 + 10)[0] == s@[i6 as int]);
                    }
                }
            }
        }
        if !has_primes {
            proof {
                assert(s@.subrange(i6 as int, i6 as int) =~= opt_primes_bytes(None::<Seq<u32>>));
            }
            return Some((None, i6));
        }
        match parse_list(s, i6 + 10) {
            Some((vec, j)) => {
                proof {
                    assert(s@.subrange(i6 as int, j as int) =~= s@.subrange(i6 as int, i6 + 10)
                        + s@.subrange(i6 + 10, j as int));
                    assert forall|m: RespModel|
                        s@ == spec_enc_resp(m) && i6 == resp_p5(m) implies (match m.primes {
                        Some(ps) => vec@ == ps,
                        None => false,
                    }) && j == resp_p6(m) by {
                        lemma_resp_enc_shape(s@, m);
                    }
                }
                Some((Some(vec), j))
            },
            None => {
                proof {
                    assert forall|m: RespModel|
                        !(s@ == spec_enc_resp(m) && i6 == resp_p5(m)) by {
                        if s@ == spec_enc_resp(m) && i6 == resp_p5(m) {
                            lemma_resp_enc_shape(s@, m);
                        }
                    }
                }
                None
            },
        }
    }

    /// Reads a response back from wire bytes. Exactly the canonical
    /// encodings decode, each to the response that produced it; anything
    /// else — truncated, malformed, or non-canonical — yields nothing.
    #[verifier::rlimit(100)]
    pub fn from_json(s: &[u8]) -> (r: Option<Response>)
        ensures
            r is Some ==> s@ == spec_enc_resp(r->Some_0@),
            forall|m: RespModel| s@ == spec_enc_resp(m) ==> (r is Some && r->Some_0@ == m),
    {
        let head = Self::parse_head(s);
        let (task, status, i4) = match head {
            Some(ti) => ti,
            None => {
                return None;
            },
        };
        let (start_f, i5) = match Self::parse_start_field(s, i4) {
            Some(oj) => oj,
            None => {
                return None;
            },
        };
        let (end_f, i6) = match Self::parse_end_field(s, i5) {
            Some(oj) => oj,
            None => {
                return None;
            },
        };
        let (primes_f, i7) = match Self::parse_primes_field(s, i6) {
            Some(oj) => oj,
            None => {
                return None;
            },
        };
        if i7 >= s.len() || s[i7] != '}' as u8 || i7 + 1 != s.len() {
            proof {
                assert forall|m: RespModel| s@ != spec_enc_resp(m) by {
                    if s@ == spec_enc_resp(m) {
                        lemma_resp_enc_shape(s@, m);
                    }
                }
            }
            return None;
        }
        let resp = Response { task, status, start: start_f, end: end_f, primes: primes_f };
        proof {
            // every matched piece sits at its place, so the whole input is
            // the canonical encoding of what was read
            lemma_resp_assemble(s@, resp@);
        }
        Some(resp)
    }
}

/// A first number, a comma and a further stretch join into one stretch.
proof fn lemma_items_join(s: Seq<u8>, i: int, jn: int, j2: int, outv: Seq<u32>, olen: int)
    requires
        0 <= i <= jn < j2 <= s.len(),
        0 <= olen,
        olen + 1 < outv.len(),
        s.subrange(i, jn) == spec_digits(outv[olen] as int),
        s[jn] == ',' as u8,
        s.subrange(jn + 1, j2) == spec_items_close(outv.skip(olen + 1)),
    ensures
        s.subrange(i, j2) == spec_items_close(outv.skip(olen)),
{
    let d = spec_digits(outv[olen] as int);
    let rest = outv.skip(olen + 1);
    assert(outv.skip(olen)[0] == outv[olen]);
    assert(outv.skip(olen).len() == outv.len() - olen >= 2);
    assert(outv.skip(olen).skip(1) =~= rest);
    assert(spec_items_close(outv.skip(olen)) == d + seq![',' as u8] + spec_items_close(rest));
    assert(s.subrange(i, j2) =~= s.subrange(i, jn) + seq![s[jn]] + s.subrange(jn + 1, j2));
    assert(s.subrange(i, j2) =~= d + seq![',' as u8] + spec_items_close(rest));
}

} // verus!

