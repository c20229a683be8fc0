//! Snapshot serialization: a canonical JSON text per collection.
//!
//! The on-disk document is a single object whose keys are decimal-string
//! identifiers, ascending, each mapping to the record's JSON representation;
//! the writer emits exactly one canonical text per collection content, and
//! the reader accepts exactly the canonical texts, so that reading back what
//! was written restores the identifiers and field values precisely. Anything
//! else is a hard parse failure, never partially recovered.

use vstd::prelude::*;
use vstd::string::{StrSliceExecFns, StringExecFns};

use crate::cash::{Cash, CashView, Installment, InstallmentStatus, PaymentFrequency};
use crate::ids::{all_digits, dec_enc, dec_val, is_digit, digit_val, append_decimal};
use crate::store::HasUid;
use crate::student::{Class, Student, StudentView, Subject};
use crate::text::push_char;

verus! {

// ---------------------------------------------------------------------------
// Text access
// ---------------------------------------------------------------------------

/// The characters of a text, as a vector indexable in constant time.
fn str_to_chars(s: &str) -> (r: Vec<char>)
    ensures
        r@ == s@,
{
    broadcast use vstd::string::group_string_axioms;

    let mut it = s.chars();
    let mut out: Vec<char> = Vec::new();
    loop
        invariant_except_break
            out@ + vstd::std_specs::iter::IteratorSpec::remaining(&it) == s@,
            vstd::std_specs::iter::IteratorSpec::decrease(&it) is Some,
        ensures
            out@ == s@,
        decreases vstd::std_specs::iter::IteratorSpec::decrease(&it)->0,
    {
        let ghost pre = vstd::std_specs::iter::IteratorSpec::remaining(&it);
        match it.next() {
            Some(c) => {
                out.push(c);
                proof {
                    assert(out@ + vstd::std_specs::iter::IteratorSpec::remaining(&it) =~= s@);
                }
            },
            None => {
                proof {
                    assert(out@ =~= s@);
                }
                break;
            },
        }
    }
    out
}

// ---------------------------------------------------------------------------
// Literals
// ---------------------------------------------------------------------------

/// Consume the exact character sequence `lit` at position `i`.
pub open spec fn parse_lit(t: Seq<char>, i: int, lit: Seq<char>) -> Option<int> {
    if 0 <= i && i + lit.len() <= t.len() && t.subrange(i, i + lit.len()) == lit {
        Some(i + lit.len())
    } else {
        None
    }
}

/// Match a literal at position `i`, character by character.
fn scan_lit(s: &[char], len: usize, i: usize, lit: &str) -> (r: Option<usize>)
    requires
        len == s@.len(),
        i <= len,
    ensures
        match r {
            Some(j) => parse_lit(s@, i as int, lit@) == Some(j as int) && i <= j <= len,
            None => parse_lit(s@, i as int, lit@) is None,
        },
{
    let litlen = lit.unicode_len();
    if litlen > len - i {
        return None;
    }
    let mut k: usize = 0;
    while k < litlen
        invariant
            0 <= k <= litlen,
            len == s@.len(),
            litlen == lit@.len(),
            i + litlen <= len,
            forall|m: int| 0 <= m < k ==> s@[i + m] == lit@[m],
        decreases litlen - k,
    {
        if s[i + k] != lit.get_char(k) {
            proof {
                if parse_lit(s@, i as int, lit@) is Some {
                    assert(s@.subrange(i as int, i + litlen) == lit@);
                    assert(s@.subrange(i as int, i + litlen)[k as int] == s@[i + k]);
                }
            }
            return None;
        }
        k = k + 1;
    }
    proof {
        assert(s@.subrange(i as int, i + litlen) =~= lit@);
    }
    Some(i + litlen)
}

// ---------------------------------------------------------------------------
// Numbers
// ---------------------------------------------------------------------------

/// End of the run of digits starting at `i`.
pub open spec fn digit_run_end(t: Seq<char>, i: int) -> int
    decreases t.len() - i,
{
    if i < 0 || i >= t.len() || !is_digit(t[i]) {
        i
    } else {
        digit_run_end(t, i + 1)
    }
}

proof fn lemma_digit_run_end_bounds(t: Seq<char>, i: int)
    requires
        0 <= i <= t.len(),
    ensures
        i <= digit_run_end(t, i) <= t.len(),
        forall|m: int| i <= m < digit_run_end(t, i) ==> is_digit(#[trigger] t[m]),
        digit_run_end(t, i) < t.len() ==> !is_digit(t[digit_run_end(t, i)]),
    decreases t.len() - i,
{
    if i < t.len() && is_digit(t[i]) {
        lemma_digit_run_end_bounds(t, i + 1);
    }
}

/// The digit run ends exactly at the first non-digit (or the end).
proof fn lemma_digit_run_end_at(t: Seq<char>, i: int, j: int)
    requires
        0 <= i <= j <= t.len(),
        forall|m: int| i <= m < j ==> is_digit(#[trigger] t[m]),
        j == t.len() || !is_digit(t[j]),
    ensures
        digit_run_end(t, i) == j,
    decreases j - i,
{
    if i < j {
        lemma_digit_run_end_at(t, i + 1, j);
    }
}

/// Value of any all-digit prefix is no more than the whole string's value.
proof fn lemma_dec_val_subprefix_le(u: Seq<char>, k: int)
    requires
        all_digits(u),
        0 <= k <= u.len(),
    ensures
        0 <= dec_val(u.subrange(0, k)) <= dec_val(u),
    decreases u.len() - k,
{
    crate::ids::lemma_dec_val_nonneg(u.subrange(0, k));
    if k < u.len() {
        let p = u.subrange(0, k);
        let q = u.subrange(0, k + 1);
        assert(q.drop_last() =~= p);
        assert(is_digit(u[k]));
        assert(dec_val(q) == dec_val(p) * 10 + digit_val(u[k]));
        crate::ids::lemma_dec_val_nonneg(p);
        assert(dec_val(p) * 10 >= dec_val(p)) by (nonlinear_arith)
            requires dec_val(p) >= 0;
        lemma_dec_val_subprefix_le(u, k + 1);
    } else {
        assert(u.subrange(0, k) =~= u);
    }
}

/// Is the character at `j` a decimal digit?
fn digit_at(s: &[char], j: usize) -> (r: bool)
    requires
        j < s@.len(),
    ensures
        r == is_digit(s@[j as int]),
{
    let c: char = s[j];
    '0' <= c && c <= '9'
}

/// Consume an unsigned decimal number at position `i`: the maximal digit
/// run, rejected when empty or when its value overflows 64 bits.
pub open spec fn spec_parse_u64(t: Seq<char>, i: int) -> Option<(u64, int)> {
    if !(0 <= i <= t.len()) {
        None
    } else {
        let j = digit_run_end(t, i);
        if j == i {
            None
        } else {
            let v = dec_val(t.subrange(i, j));
            if v > u64::MAX {
                None
            } else {
                Some((v as u64, j))
            }
        }
    }
}

/// Scan an unsigned decimal number at position `i`.
fn scan_u64(s: &[char], len: usize, i: usize) -> (r: Option<(u64, usize)>)
    requires
        len == s@.len(),
        i <= len,
    ensures
        match r {
            Some((v, j)) => spec_parse_u64(s@, i as int) == Some((v, j as int)) && i < j <= len,
            None => spec_parse_u64(s@, i as int) is None,
        },
{
    let ghost t = s@;
    if i >= len {
        proof {
            lemma_digit_run_end_at(t, i as int, i as int);
        }
        return None;
    }
    if !digit_at(s, i) {
        proof {
            lemma_digit_run_end_at(t, i as int, i as int);
        }
        return None;
    }
    let ghost run = digit_run_end(t, i as int);
    proof {
        lemma_digit_run_end_bounds(t, i as int);
    }
    let mut acc: u64 = 0;
    let mut j: usize = i;
    while j < len && digit_at(s, j)
        invariant
            i <= j <= len,
            len == t.len(),
            t == s@,
            run == digit_run_end(t, i as int),
            i <= run <= len,
            forall|m: int| i <= m < run ==> is_digit(#[trigger] t[m]),
            run < len ==> !is_digit(t[run as int]),
            forall|m: int| i <= m < j ==> is_digit(#[trigger] t[m]),
            j <= run,
            acc == dec_val(t.subrange(i as int, j as int)),
        decreases len - j,
    {
        let c = s[j];
        let v = c as u32;
        let ghost u = t.subrange(i as int, run);
        let ghost pre = t.subrange(i as int, j as int);
        let ghost nxt = t.subrange(i as int, j + 1);
        proof {
            assert(is_digit(t[j as int]));
            assert(j < run) by {
                if j >= run {
                    assert(run < len);
                    assert(j == run);
                }
            }
            assert(nxt.drop_last() =~= pre);
            assert(nxt.last() == t[j as int]);
            assert(dec_val(nxt) == dec_val(pre) * 10 + digit_val(t[j as int]));
        }
        let d: u64 = (v - 48) as u64;
        let shifted = match acc.checked_mul(10) {
            Some(x) => x,
            None => {
                proof {
                    crate::ids::lemma_dec_val_nonneg(pre);
                    assert(dec_val(nxt) > u64::MAX);
                    assert(all_digits(u));
                    assert(nxt =~= u.subrange(0, j + 1 - i));
                    lemma_dec_val_subprefix_le(u, j + 1 - i);
                    assert(dec_val(u) > u64::MAX);
                }
                return None;
            },
        };
        let total = match shifted.checked_add(d) {
            Some(x) => x,
            None => {
                proof {
                    assert(dec_val(nxt) > u64::MAX);
                    assert(all_digits(u));
                    assert(nxt =~= u.subrange(0, j + 1 - i));
                    lemma_dec_val_subprefix_le(u, j + 1 - i);
                    assert(dec_val(u) > u64::MAX);
                }
                return None;
            },
        };
        acc = total;
        j = j + 1;
    }
    proof {
        lemma_digit_run_end_at(t, i as int, j as int);
        assert(j == run);
        assert(run > i) by {
            assert(is_digit(t[i as int]));
            if run == i {
                assert(!is_digit(t[i as int]));
            }
        }
    }
    Some((acc, j))
}

/// Consume a signed decimal number at position `i`, within 64 bits.
pub open spec fn spec_parse_i64(t: Seq<char>, i: int) -> Option<(i64, int)> {
    if parse_lit(t, i, seq!['-']) is Some {
        match spec_parse_u64(t, i + 1) {
            Some((v, j)) => if v <= 9223372036854775808u64 {
                Some(((-(v as int)) as i64, j))
            } else {
                None
            },
            None => None,
        }
    } else {
        match spec_parse_u64(t, i) {
            Some((v, j)) => if v <= i64::MAX as u64 {
                Some((v as i64, j))
            } else {
                None
            },
            None => None,
        }
    }
}

/// Scan a signed decimal number at position `i`.
fn scan_i64(s: &[char], len: usize, i: usize) -> (r: Option<(i64, usize)>)
    requires
        len == s@.len(),
        i <= len,
    ensures
        match r {
            Some((v, j)) => spec_parse_i64(s@, i as int) == Some((v, j as int)) && i < j <= len,
            None => spec_parse_i64(s@, i as int) is None,
        },
{
    let neg = if i < len {
        s[i] == '-'
    } else {
        false
    };
    if neg {
        proof {
            assert(s@.subrange(i as int, i + 1) =~= seq!['-']);
            assert(parse_lit(s@, i as int, seq!['-']) is Some);
        }
        match scan_u64(s, len, i + 1) {
            Some((v, j)) => {
                if v <= 9223372036854775807u64 {
                    Some((-(v as i64), j))
                } else if v == 9223372036854775808u64 {
                    Some((i64::MIN, j))
                } else {
                    None
                }
            },
            None => None,
        }
    } else {
        proof {
            if parse_lit(s@, i as int, seq!['-']) is Some {
                assert(s@.subrange(i as int, i + 1) == seq!['-']);
                assert(s@.subrange(i as int, i + 1)[0] == s@[i as int]);
            }
        }
        match scan_u64(s, len, i) {
            Some((v, j)) => {
                if v <= 9223372036854775807u64 {
                    Some((v as i64, j))
                } else {
                    None
                }
            },
            None => None,
        }
    }
}

/// The canonical text of an unsigned number.
pub open spec fn enc_u64(n: u64) -> Seq<char> {
    dec_enc(n as nat)
}

/// The canonical text of a signed number.
pub open spec fn enc_i64(x: i64) -> Seq<char> {
    if x >= 0 {
        dec_enc(x as nat)
    } else {
        seq!['-'] + dec_enc((-(x as int)) as nat)
    }
}

/// Append the canonical text of a signed number.
fn emit_i64(x: i64, out: &mut String)
    ensures
        final(out)@ == old(out)@ + enc_i64(x),
{
    if x >= 0 {
        append_decimal(x as u64, out);
    } else {
        push_char(out, '-');
        let abs: u64 = if x == i64::MIN {
            9223372036854775808u64
        } else {
            (-x) as u64
        };
        append_decimal(abs, out);
        proof {
            assert(abs as nat == (-(x as int)) as nat);
            assert(final(out)@ =~= old(out)@ + enc_i64(x));
        }
    }
}

/// Reading back the canonical text of an unsigned number, with no digit
/// following, yields the number.
proof fn lemma_parse_enc_u64(t: Seq<char>, i: int, n: u64)
    requires
        0 <= i,
        i + enc_u64(n).len() <= t.len(),
        t.subrange(i, i + enc_u64(n).len()) == enc_u64(n),
        i + enc_u64(n).len() == t.len() || !is_digit(t[i + enc_u64(n).len()]),
    ensures
        spec_parse_u64(t, i) == Some((n, i + enc_u64(n).len())),
{
    let e = enc_u64(n);
    crate::ids::lemma_dec_enc_digits(n as nat);
    crate::ids::lemma_dec_enc_val(n as nat);
    assert forall|m: int| i <= m < i + e.len() implies is_digit(#[trigger] t[m]) by {
        assert(t.subrange(i, i + e.len())[m - i] == t[m]);
        assert(is_digit(e[m - i]));
    }
    lemma_digit_run_end_at(t, i, i + e.len());
    assert(dec_val(t.subrange(i, i + e.len())) == n);
}

/// Reading back the canonical text of a signed number, with no digit
/// following, yields the number.
proof fn lemma_parse_enc_i64(t: Seq<char>, i: int, x: i64)
    requires
        0 <= i,
        i + enc_i64(x).len() <= t.len(),
        t.subrange(i, i + enc_i64(x).len()) == enc_i64(x),
        i + enc_i64(x).len() == t.len() || !is_digit(t[i + enc_i64(x).len()]),
    ensures
        spec_parse_i64(t, i) == Some((x, i + enc_i64(x).len())),
{
    let e = enc_i64(x);
    if x >= 0 {
        lemma_parse_enc_u64(t, i, x as u64);
        assert(parse_lit(t, i, seq!['-']) is None) by {
            crate::ids::lemma_dec_enc_digits(x as nat);
            assert(t.subrange(i, i + e.len())[0] == t[i]);
            assert(is_digit(t[i]));
            if parse_lit(t, i, seq!['-']) is Some {
                assert(t.subrange(i, i + 1) == seq!['-']);
                assert(t.subrange(i, i + 1)[0] == t[i]);
                assert(t[i] == '-');
                assert(!is_digit('-'));
            }
        }
        assert(x as u64 <= i64::MAX as u64);
    } else {
        let n = (-(x as int)) as nat;
        let d = dec_enc(n);
        assert(e == seq!['-'] + d);
        assert(t[i] == '-') by {
            assert(t.subrange(i, i + e.len())[0] == t[i]);
            assert(e[0] == '-');
        }
        assert(parse_lit(t, i, seq!['-']) is Some) by {
            assert(t.subrange(i, i + 1) =~= seq!['-']);
        }
        assert(t.subrange(i + 1, i + 1 + d.len()) =~= d) by {
            assert forall|m: int| 0 <= m < d.len() implies t.subrange(i + 1, i + 1 + d.len())[m]
                == d[m] by {
                assert(t.subrange(i, i + e.len())[m + 1] == t[i + 1 + m]);
                assert(e[m + 1] == d[m]);
            }
        }
        assert(n <= 9223372036854775808nat);
        lemma_parse_enc_u64(t, i + 1, n as u64);
        assert((-(n as u64 as int)) as i64 == x);
    }
}

// ---------------------------------------------------------------------------
// Strings
// ---------------------------------------------------------------------------

/// The escape of one character: quote and backslash are escaped with a
/// backslash, everything else stands for itself.
pub open spec fn esc_char(c: char) -> Seq<char> {
    if c == '"' {
        seq!['\\', '"']
    } else if c == '\\' {
        seq!['\\', '\\']
    } else {
        seq![c]
    }
}

/// The escaped body of a string, character by character.
pub open spec fn enc_str_body(s: Seq<char>) -> Seq<char>
    decreases s.len(),
{
    if s.len() == 0 {
        Seq::empty()
    } else {
        esc_char(s[0]) + enc_str_body(s.drop_first())
    }
}

/// The canonical text of a string: quoted, escaped body.
pub open spec fn enc_string(s: Seq<char>) -> Seq<char> {
    seq!['"'] + enc_str_body(s) + seq!['"']
}

/// Appending one character to a string appends its escape to the body.
proof fn lemma_enc_str_body_snoc(s: Seq<char>, c: char)
    ensures
        enc_str_body(s.push(c)) == enc_str_body(s) + esc_char(c),
    decreases s.len(),
{
    if s.len() == 0 {
        assert(s.push(c)[0] == c);
        assert(s.push(c).drop_first() =~= Seq::<char>::empty());
        assert(enc_str_body(Seq::<char>::empty()) =~= Seq::<char>::empty());
        assert(enc_str_body(s.push(c)) == esc_char(c) + enc_str_body(s.push(c).drop_first()));
        assert(enc_str_body(s.push(c)) =~= esc_char(c));
        assert(enc_str_body(s) + esc_char(c) =~= esc_char(c));
    } else {
        assert(s.push(c)[0] == s[0]);
        assert(s.push(c).drop_first() =~= s.drop_first().push(c));
        lemma_enc_str_body_snoc(s.drop_first(), c);
        assert(enc_str_body(s.push(c)) == esc_char(s[0]) + (enc_str_body(s.drop_first())
            + esc_char(c)));
        assert(esc_char(s[0]) + (enc_str_body(s.drop_first()) + esc_char(c)) =~= (esc_char(s[0])
            + enc_str_body(s.drop_first())) + esc_char(c));
    }
}

/// Consume a string body up to and including the closing quote, undoing
/// the escapes.
pub open spec fn spec_parse_str_body(t: Seq<char>, i: int) -> Option<(Seq<char>, int)>
    decreases t.len() - i,
{
    if i < 0 || i >= t.len() {
        None
    } else if t[i] == '"' {
        Some((Seq::empty(), i + 1))
    } else if t[i] == '\\' {
        if i + 1 < t.len() && (t[i + 1] == '"' || t[i + 1] == '\\') {
            match spec_parse_str_body(t, i + 2) {
                Some((s, j)) => Some((seq![t[i + 1]] + s, j)),
                None => None,
            }
        } else {
            None
        }
    } else {
        match spec_parse_str_body(t, i + 1) {
            Some((s, j)) => Some((seq![t[i]] + s, j)),
            None => None,
        }
    }
}

/// Consume a whole quoted string at position `i`.
pub open spec fn spec_parse_string(t: Seq<char>, i: int) -> Option<(Seq<char>, int)> {
    if 0 <= i < t.len() && t[i] == '"' {
        spec_parse_str_body(t, i + 1)
    } else {
        None
    }
}

/// Scan a string body up to and including the closing quote.
fn scan_str_body(s: &[char], len: usize, i: usize, out: &mut String) -> (r: Option<usize>)
    requires
        len == s@.len(),
        i <= len,
    ensures
        match r {
            Some(j) => {
                &&& i < j <= len
                &&& ({
                    let sp = spec_parse_str_body(s@, i as int);
                    sp matches Some((body, sj)) && final(out)@ == old(out)@ + body && sj
                        == j as int
                })
            },
            None => spec_parse_str_body(s@, i as int) is None,
        },
    decreases len - i,
{
    if i >= len {
        return None;
    }
    let c = s[i];
    if c == '"' {
        proof {
            assert(final(out)@ =~= old(out)@ + Seq::<char>::empty());
        }
        return Some(i + 1);
    }
    if c == '\\' {
        if i + 1 < len {
            let c2 = s[i + 1];
            if c2 == '"' || c2 == '\\' {
                push_char(out, c2);
                let ghost mid = out@;
                let r = scan_str_body(s, len, i + 2, out);
                match r {
                    Some(j) => {
                        proof {
                            let (body, _) = spec_parse_str_body(s@, i + 2).unwrap();
                            assert(final(out)@ == old(out)@.push(c2) + body);
                            assert(old(out)@.push(c2) + body =~= old(out)@ + (seq![c2] + body));
                        }
                        return Some(j);
                    },
                    None => {
                        return None;
                    },
                }
            } else {
                return None;
            }
        } else {
            return None;
        }
    }
    push_char(out, c);
    let r = scan_str_body(s, len, i + 1, out);
    match r {
        Some(j) => {
            proof {
                let (body, _) = spec_parse_str_body(s@, i + 1).unwrap();
                assert(final(out)@ == old(out)@.push(c) + body);
                assert(old(out)@.push(c) + body =~= old(out)@ + (seq![c] + body));
            }
            Some(j)
        },
        None => None,
    }
}

/// Scan a whole quoted string at position `i`, yielding the body.
fn scan_string_owned(s: &[char], len: usize, i: usize) -> (r: Option<(String, usize)>)
    requires
        len == s@.len(),
        i <= len,
    ensures
        match r {
            Some((x, j)) => {
                &&& i < j <= len
                &&& spec_parse_string(s@, i as int) == Some((x@, j as int))
            },
            None => spec_parse_string(s@, i as int) is None,
        },
{
    let mut out = String::new();
    match scan_string(s, len, i, &mut out) {
        Some(j) => {
            proof {
                let pair = spec_parse_string(s@, i as int)->0;
                assert(out@ == Seq::<char>::empty() + pair.0);
                assert(Seq::<char>::empty() + pair.0 =~= pair.0);
            }
            Some((out, j))
        },
        None => None,
    }
}

/// Scan a whole quoted string at position `i`; the body is appended to
/// `out`.
fn scan_string(s: &[char], len: usize, i: usize, out: &mut String) -> (r: Option<usize>)
    requires
        len == s@.len(),
        i <= len,
    ensures
        match r {
            Some(j) => {
                &&& i < j <= len
                &&& ({
                    let sp = spec_parse_string(s@, i as int);
                    sp matches Some((body, sj)) && final(out)@ == old(out)@ + body && sj
                        == j as int
                })
            },
            None => spec_parse_string(s@, i as int) is None,
        },
{
    if i < len && s[i] == '"' {
        scan_str_body(s, len, i + 1, out)
    } else {
        None
    }
}

/// Append the canonical text of a string, quotes and escapes included.
fn emit_string(s: &str, out: &mut String)
    ensures
        final(out)@ == old(out)@ + enc_string(s@),
{
    let len = s.unicode_len();
    push_char(out, '"');
    let mut i: usize = 0;
    while i < len
        invariant
            0 <= i <= len,
            len == s@.len(),
            out@ == old(out)@.push('"') + enc_str_body(s@.subrange(0, i as int)),
        decreases len - i,
    {
        let c = s.get_char(i);
        proof {
            assert(s@.subrange(0, i + 1) =~= s@.subrange(0, i as int).push(s@[i as int]));
            lemma_enc_str_body_snoc(s@.subrange(0, i as int), s@[i as int]);
        }
        if c == '"' {
            push_char(out, '\\');
            push_char(out, '"');
            proof {
                assert(out@ =~= old(out)@.push('"') + enc_str_body(s@.subrange(0, i + 1)));
            }
        } else if c == '\\' {
            push_char(out, '\\');
            push_char(out, '\\');
            proof {
                assert(out@ =~= old(out)@.push('"') + enc_str_body(s@.subrange(0, i + 1)));
            }
        } else {
            push_char(out, c);
            proof {
                assert(out@ =~= old(out)@.push('"') + enc_str_body(s@.subrange(0, i + 1)));
            }
        }
        i = i + 1;
    }
    push_char(out, '"');
    proof {
        assert(s@.subrange(0, len as int) =~= s@);
        assert(final(out)@ =~= old(out)@ + enc_string(s@));
    }
}

/// Reading back the canonical text of a string yields the string.
proof fn lemma_parse_enc_str_body(t: Seq<char>, i: int, s: Seq<char>)
    requires
        0 <= i,
        i + enc_str_body(s).len() + 1 <= t.len(),
        t.subrange(i, i + enc_str_body(s).len()) == enc_str_body(s),
        t[i + enc_str_body(s).len()] == '"',
    ensures
        spec_parse_str_body(t, i) == Some((s, i + enc_str_body(s).len() + 1)),
    decreases s.len(),
{
    let b = enc_str_body(s);
    if s.len() == 0 {
        assert(b.len() == 0);
        assert(t[i] == '"');
    } else {
        let c = s[0];
        let e = esc_char(c);
        let rest = enc_str_body(s.drop_first());
        assert(b == e + rest);
        assert forall|m: int| 0 <= m < e.len() implies t[i + m] == e[m] by {
            assert(t.subrange(i, i + b.len())[m] == t[i + m]);
            assert(b[m] == e[m]);
        }
        let i2 = i + e.len();
        assert(t.subrange(i2, i2 + rest.len()) =~= rest) by {
            assert forall|m: int| 0 <= m < rest.len() implies t.subrange(i2, i2 + rest.len())[m]
                == rest[m] by {
                assert(t.subrange(i, i + b.len())[e.len() + m] == t[i2 + m]);
                assert(b[e.len() + m] == rest[m]);
            }
        }
        assert(t[i2 + rest.len()] == '"');
        lemma_parse_enc_str_body(t, i2, s.drop_first());
        if c == '"' {
            assert(t[i + 0] == e[0]);
            assert(t[i + 1] == e[1]);
            assert(t[i] == '\\');
            assert(seq![t[i + 1]] + s.drop_first() =~= s);
        } else if c == '\\' {
            assert(t[i + 0] == e[0]);
            assert(t[i + 1] == e[1]);
            assert(t[i] == '\\');
            assert(seq![t[i + 1]] + s.drop_first() =~= s);
        } else {
            assert(t[i + 0] == e[0]);
            assert(t[i] == c);
            assert(t[i] != '"' && t[i] != '\\');
            assert(seq![t[i]] + s.drop_first() =~= s);
        }
    }
}

/// Splitting an exact match of a concatenation into its two parts.
proof fn lemma_subrange_cat(t: Seq<char>, i: int, a: Seq<char>, b: Seq<char>)
    requires
        0 <= i,
        i + a.len() + b.len() <= t.len(),
        t.subrange(i, i + a.len() + b.len()) == a + b,
    ensures
        t.subrange(i, i + a.len()) == a,
        t.subrange(i + a.len(), i + a.len() + b.len()) == b,
{
    assert(t.subrange(i, i + a.len()) =~= a) by {
        assert forall|m: int| 0 <= m < a.len() implies t.subrange(i, i + a.len())[m] == a[m] by {
            assert(t.subrange(i, i + a.len() + b.len())[m] == t[i + m]);
            assert((a + b)[m] == a[m]);
        }
    }
    assert(t.subrange(i + a.len(), i + a.len() + b.len()) =~= b) by {
        assert forall|m: int|
            0 <= m < b.len() implies t.subrange(i + a.len(), i + a.len() + b.len())[m] == b[m] by {
            assert(t.subrange(i, i + a.len() + b.len())[a.len() + m] == t[i + a.len() + m]);
            assert((a + b)[a.len() + m] == b[m]);
        }
    }
}

/// Reading back the canonical quoted text of a string yields the string.
proof fn lemma_parse_enc_string(t: Seq<char>, i: int, s: Seq<char>)
    requires
        0 <= i,
        i + enc_string(s).len() <= t.len(),
        t.subrange(i, i + enc_string(s).len()) == enc_string(s),
    ensures
        spec_parse_string(t, i) == Some((s, i + enc_string(s).len())),
{
    let e = enc_string(s);
    let b = enc_str_body(s);
    assert(e.len() == b.len() + 2);
    assert(t[i] == '"') by {
        assert(t.subrange(i, i + e.len())[0] == t[i]);
        assert(e[0] == '"');
    }
    assert(t.subrange(i + 1, i + 1 + b.len()) =~= b) by {
        assert forall|m: int| 0 <= m < b.len() implies t.subrange(i + 1, i + 1 + b.len())[m]
            == b[m] by {
            assert(t.subrange(i, i + e.len())[m + 1] == t[i + 1 + m]);
            assert(e[m + 1] == b[m]);
        }
    }
    assert(t[i + 1 + b.len()] == '"') by {
        assert(t.subrange(i, i + e.len())[b.len() as int + 1] == t[i + 1 + b.len()]);
        assert(e[b.len() as int + 1] == '"');
    }
    lemma_parse_enc_str_body(t, i + 1, s);
}

// ---------------------------------------------------------------------------
// Bounded numbers and options
// ---------------------------------------------------------------------------

/// Consume an unsigned number that must fit 32 bits.
pub open spec fn spec_parse_u32(t: Seq<char>, i: int) -> Option<(u32, int)> {
    match spec_parse_u64(t, i) {
        Some((v, j)) => if v <= u32::MAX as u64 {
            Some((v as u32, j))
        } else {
            None
        },
        None => None,
    }
}

/// Consume an unsigned number that must fit 8 bits.
pub open spec fn spec_parse_u8(t: Seq<char>, i: int) -> Option<(u8, int)> {
    match spec_parse_u64(t, i) {
        Some((v, j)) => if v <= u8::MAX as u64 {
            Some((v as u8, j))
        } else {
            None
        },
        None => None,
    }
}

fn scan_u32(s: &[char], len: usize, i: usize) -> (r: Option<(u32, usize)>)
    requires
        len == s@.len(),
        i <= len,
    ensures
        match r {
            Some((v, j)) => spec_parse_u32(s@, i as int) == Some((v, j as int)) && i < j <= len,
            None => spec_parse_u32(s@, i as int) is None,
        },
{
    match scan_u64(s, len, i) {
        Some((v, j)) => if v <= u32::MAX as u64 {
            Some((v as u32, j))
        } else {
            None
        },
        None => None,
    }
}

fn scan_u8(s: &[char], len: usize, i: usize) -> (r: Option<(u8, usize)>)
    requires
        len == s@.len(),
        i <= len,
    ensures
        match r {
            Some((v, j)) => spec_parse_u8(s@, i as int) == Some((v, j as int)) && i < j <= len,
            None => spec_parse_u8(s@, i as int) is None,
        },
{
    match scan_u64(s, len, i) {
        Some((v, j)) => if v <= u8::MAX as u64 {
            Some((v as u8, j))
        } else {
            None
        },
        None => None,
    }
}

/// An optional value: the text "null", or the value's own text.
pub open spec fn spec_parse_opt_u64(t: Seq<char>, i: int) -> Option<(Option<u64>, int)> {
    match parse_lit(t, i, "null"@) {
        Some(j) => Some((None, j)),
        None => match spec_parse_u64(t, i) {
            Some((v, j)) => Some((Some(v), j)),
            None => None,
        },
    }
}

pub open spec fn spec_parse_opt_u32(t: Seq<char>, i: int) -> Option<(Option<u32>, int)> {
    match parse_lit(t, i, "null"@) {
        Some(j) => Some((None, j)),
        None => match spec_parse_u32(t, i) {
            Some((v, j)) => Some((Some(v), j)),
            None => None,
        },
    }
}

pub open spec fn spec_parse_opt_u8(t: Seq<char>, i: int) -> Option<(Option<u8>, int)> {
    match parse_lit(t, i, "null"@) {
        Some(j) => Some((None, j)),
        None => match spec_parse_u8(t, i) {
            Some((v, j)) => Some((Some(v), j)),
            None => None,
        },
    }
}

pub open spec fn spec_parse_opt_i64(t: Seq<char>, i: int) -> Option<(Option<i64>, int)> {
    match parse_lit(t, i, "null"@) {
        Some(j) => Some((None, j)),
        None => match spec_parse_i64(t, i) {
            Some((v, j)) => Some((Some(v), j)),
            None => None,
        },
    }
}

pub open spec fn spec_parse_opt_string(t: Seq<char>, i: int) -> Option<(Option<Seq<char>>, int)> {
    match parse_lit(t, i, "null"@) {
        Some(j) => Some((None, j)),
        None => match spec_parse_string(t, i) {
            Some((v, j)) => Some((Some(v), j)),
            None => None,
        },
    }
}

fn scan_opt_u64(s: &[char], len: usize, i: usize) -> (r: Option<(Option<u64>, usize)>)
    requires
        len == s@.len(),
        i <= len,
    ensures
        match r {
            Some((v, j)) => spec_parse_opt_u64(s@, i as int) == Some((v, j as int)) && i <= j <= len,
            None => spec_parse_opt_u64(s@, i as int) is None,
        },
{
    match scan_lit(s, len, i, "null") {
        Some(j) => Some((None, j)),
        None => match scan_u64(s, len, i) {
            Some((v, j)) => Some((Some(v), j)),
            None => None,
        },
    }
}

fn scan_opt_u32(s: &[char], len: usize, i: usize) -> (r: Option<(Option<u32>, usize)>)
    requires
        len == s@.len(),
        i <= len,
    ensures
        match r {
            Some((v, j)) => spec_parse_opt_u32(s@, i as int) == Some((v, j as int)) && i <= j <= len,
            None => spec_parse_opt_u32(s@, i as int) is None,
        },
{
    match scan_lit(s, len, i, "null") {
        Some(j) => Some((None, j)),
        None => match scan_u32(s, len, i) {
            Some((v, j)) => Some((Some(v), j)),
            None => None,
        },
    }
}

fn scan_opt_u8(s: &[char], len: usize, i: usize) -> (r: Option<(Option<u8>, usize)>)
    requires
        len == s@.len(),
        i <= len,
    ensures
        match r {
            Some((v, j)) => spec_parse_opt_u8(s@, i as int) == Some((v, j as int)) && i <= j <= len,
            None => spec_parse_opt_u8(s@, i as int) is None,
        },
{
    match scan_lit(s, len, i, "null") {
        Some(j) => Some((None, j)),
        None => match scan_u8(s, len, i) {
            Some((v, j)) => Some((Some(v), j)),
            None => None,
        },
    }
}

fn scan_opt_i64(s: &[char], len: usize, i: usize) -> (r: Option<(Option<i64>, usize)>)
    requires
        len == s@.len(),
        i <= len,
    ensures
        match r {
            Some((v, j)) => spec_parse_opt_i64(s@, i as int) == Some((v, j as int)) && i <= j <= len,
            None => spec_parse_opt_i64(s@, i as int) is None,
        },
{
    match scan_lit(s, len, i, "null") {
        Some(j) => Some((None, j)),
        None => match scan_i64(s, len, i) {
            Some((v, j)) => Some((Some(v), j)),
            None => None,
        },
    }
}

fn scan_opt_string(s: &[char], len: usize, i: usize) -> (r: Option<(Option<String>, usize)>)
    requires
        len == s@.len(),
        i <= len,
    ensures
        match r {
            Some((v, j)) => {
                &&& i <= j <= len
                &&& ({
                    let vv = match v {
                        Some(x) => Some(x@),
                        None => None,
                    };
                    spec_parse_opt_string(s@, i as int) == Some((vv, j as int))
                })
            },
            None => spec_parse_opt_string(s@, i as int) is None,
        },
{
    match scan_lit(s, len, i, "null") {
        Some(j) => Some((None, j)),
        None => match scan_string_owned(s, len, i) {
            Some((body, j)) => Some((Some(body), j)),
            None => None,
        },
    }
}

/// The canonical text of an optional unsigned number.
pub open spec fn enc_opt_u64(o: Option<u64>) -> Seq<char> {
    match o {
        None => "null"@,
        Some(n) => enc_u64(n),
    }
}

pub open spec fn enc_opt_u32(o: Option<u32>) -> Seq<char> {
    match o {
        None => "null"@,
        Some(n) => enc_u64(n as u64),
    }
}

pub open spec fn enc_opt_u8(o: Option<u8>) -> Seq<char> {
    match o {
        None => "null"@,
        Some(n) => enc_u64(n as u64),
    }
}

pub open spec fn enc_opt_i64(o: Option<i64>) -> Seq<char> {
    match o {
        None => "null"@,
        Some(n) => enc_i64(n),
    }
}

pub open spec fn enc_opt_string(o: Option<Seq<char>>) -> Seq<char> {
    match o {
        None => "null"@,
        Some(s) => enc_string(s),
    }
}

// ---------------------------------------------------------------------------
// Enumerations
// ---------------------------------------------------------------------------

/// The canonical text of a payment frequency.
pub open spec fn enc_freq(f: PaymentFrequency) -> Seq<char> {
    match f {
        PaymentFrequency::Weekly => "\"Weekly\""@,
        PaymentFrequency::Monthly => "\"Monthly\""@,
        PaymentFrequency::Quarterly => "\"Quarterly\""@,
        PaymentFrequency::Custom(n) => "{\"Custom\":"@ + (enc_u64(n as u64) + "}"@),
    }
}

/// Consume a payment frequency.
pub open spec fn spec_parse_freq(t: Seq<char>, i: int) -> Option<(PaymentFrequency, int)> {
    match parse_lit(t, i, "\"Weekly\""@) {
        Some(j) => Some((PaymentFrequency::Weekly, j)),
        None => match parse_lit(t, i, "\"Monthly\""@) {
            Some(j) => Some((PaymentFrequency::Monthly, j)),
            None => match parse_lit(t, i, "\"Quarterly\""@) {
                Some(j) => Some((PaymentFrequency::Quarterly, j)),
                None => match parse_lit(t, i, "{\"Custom\":"@) {
                    Some(j) => match spec_parse_u32(t, j) {
                        Some((n, j2)) => match parse_lit(t, j2, "}"@) {
                            Some(j3) => Some((PaymentFrequency::Custom(n), j3)),
                            None => None,
                        },
                        None => None,
                    },
                    None => None,
                },
            },
        },
    }
}

fn scan_freq(s: &[char], len: usize, i: usize) -> (r: Option<(PaymentFrequency, usize)>)
    requires
        len == s@.len(),
        i <= len,
    ensures
        match r {
            Some((v, j)) => spec_parse_freq(s@, i as int) == Some((v, j as int)) && i <= j <= len,
            None => spec_parse_freq(s@, i as int) is None,
        },
{
    match scan_lit(s, len, i, "\"Weekly\"") {
        Some(j) => Some((PaymentFrequency::Weekly, j)),
        None => match scan_lit(s, len, i, "\"Monthly\"") {
            Some(j) => Some((PaymentFrequency::Monthly, j)),
            None => match scan_lit(s, len, i, "\"Quarterly\"") {
                Some(j) => Some((PaymentFrequency::Quarterly, j)),
                None => match scan_lit(s, len, i, "{\"Custom\":") {
                    Some(j) => match scan_u32(s, len, j) {
                        Some((n, j2)) => match scan_lit(s, len, j2, "}") {
                            Some(j3) => Some((PaymentFrequency::Custom(n), j3)),
                            None => None,
                        },
                        None => None,
                    },
                    None => None,
                },
            },
        },
    }
}

/// The canonical text of an installment status.
pub open spec fn enc_status(st: InstallmentStatus) -> Seq<char> {
    match st {
        InstallmentStatus::Pending => "\"Pending\""@,
        InstallmentStatus::Paid => "\"Paid\""@,
        InstallmentStatus::Overdue => "\"Overdue\""@,
        InstallmentStatus::Cancelled => "\"Cancelled\""@,
    }
}

/// Consume an installment status.
pub open spec fn spec_parse_status(t: Seq<char>, i: int) -> Option<(InstallmentStatus, int)> {
    match parse_lit(t, i, "\"Pending\""@) {
        Some(j) => Some((InstallmentStatus::Pending, j)),
        None => match parse_lit(t, i, "\"Paid\""@) {
            Some(j) => Some((InstallmentStatus::Paid, j)),
            None => match parse_lit(t, i, "\"Overdue\""@) {
                Some(j) => Some((InstallmentStatus::Overdue, j)),
                None => match parse_lit(t, i, "\"Cancelled\""@) {
                    Some(j) => Some((InstallmentStatus::Cancelled, j)),
                    None => None,
                },
            },
        },
    }
}

fn scan_status(s: &[char], len: usize, i: usize) -> (r: Option<(InstallmentStatus, usize)>)
    requires
        len == s@.len(),
        i <= len,
    ensures
        match r {
            Some((v, j)) => spec_parse_status(s@, i as int) == Some((v, j as int)) && i <= j <= len,
            None => spec_parse_status(s@, i as int) is None,
        },
{
    match scan_lit(s, len, i, "\"Pending\"") {
        Some(j) => Some((InstallmentStatus::Pending, j)),
        None => match scan_lit(s, len, i, "\"Paid\"") {
            Some(j) => Some((InstallmentStatus::Paid, j)),
            None => match scan_lit(s, len, i, "\"Overdue\"") {
                Some(j) => Some((InstallmentStatus::Overdue, j)),
                None => match scan_lit(s, len, i, "\"Cancelled\"") {
                    Some(j) => Some((InstallmentStatus::Cancelled, j)),
                    None => None,
                },
            },
        },
    }
}

// ---------------------------------------------------------------------------
// Installment periods and transaction records
// ---------------------------------------------------------------------------

/// The canonical text of an installment period.
pub open spec fn enc_inst(v: Installment) -> Seq<char> {
    "{\"plan_id\":"@ + (enc_u64(v.plan_id) + (",\"total_amount\":"@ + (enc_i64(v.total_amount) + (
    ",\"total_installments\":"@ + (enc_u64(v.total_installments as u64) + (
    ",\"current_installment\":"@ + (enc_u64(v.current_installment as u64) + (",\"frequency\":"@ + (
    enc_freq(v.frequency) + (",\"due_date\":"@ + (enc_i64(v.due_date) + (",\"status\":"@ + (
    enc_status(v.status) + "}"@)))))))))))))
}

/// Consume an installment period.
pub open spec fn spec_parse_inst(t: Seq<char>, i: int) -> Option<(Installment, int)> {
    match parse_lit(t, i, "{\"plan_id\":"@) {
        None => None,
        Some(i1) => match spec_parse_u64(t, i1) {
            None => None,
            Some((plan_id, i2)) => match parse_lit(t, i2, ",\"total_amount\":"@) {
                None => None,
                Some(i3) => match spec_parse_i64(t, i3) {
                    None => None,
                    Some((total_amount, i4)) => match parse_lit(t, i4, ",\"total_installments\":"@) {
                        None => None,
                        Some(i5) => match spec_parse_u32(t, i5) {
                            None => None,
                            Some((total_installments, i6)) => match parse_lit(
                                t,
                                i6,
                                ",\"current_installment\":"@,
                            ) {
                                None => None,
                                Some(i7) => match spec_parse_u32(t, i7) {
                                    None => None,
                                    Some((current_installment, i8)) => match parse_lit(
                                        t,
                                        i8,
                                        ",\"frequency\":"@,
                                    ) {
                                        None => None,
                                        Some(i9) => match spec_parse_freq(t, i9) {
                                            None => None,
                                            Some((frequency, i10)) => match parse_lit(
                                                t,
                                                i10,
                                                ",\"due_date\":"@,
                                            ) {
                                                None => None,
                                                Some(i11) => match spec_parse_i64(t, i11) {
                                                    None => None,
                                                    Some((due_date, i12)) => match parse_lit(
                                                        t,
                                                        i12,
                                                        ",\"status\":"@,
                                                    ) {
                                                        None => None,
                                                        Some(i13) => match spec_parse_status(
                                                            t,
                                                            i13,
                                                        ) {
                                                            None => None,
                                                            Some((status, i14)) => match parse_lit(
                                                                t,
                                                                i14,
                                                                "}"@,
                                                            ) {
                                                                None => None,
                                                                Some(i15) => Some(
                                                                    (
                                                                        Installment {
                                                                            plan_id,
                                                                            total_amount,
                                                                            total_installments,
                                                                            current_installment,
                                                                            frequency,
                                                                            due_date,
                                                                            status,
                                                                        },
                                                                        i15,
                                                                    ),
                                                                ),
                                                            },
                                                        },
                                                    },
                                                },
                                            },
                                        },
                                    },
                                },
                            },
                        },
                    },
                },
            },
        },
    }
}

fn scan_inst(s: &[char], len: usize, i: usize) -> (r: Option<(Installment, usize)>)
    requires
        len == s@.len(),
        i <= len,
    ensures
        match r {
            Some((v, j)) => spec_parse_inst(s@, i as int) == Some((v, j as int)) && i < j <= len,
            None => spec_parse_inst(s@, i as int) is None,
        },
{
    let i1 = match scan_lit(s, len, i, "{\"plan_id\":") {
        Some(j) => j,
        None => {
            return None;
        },
    };
    let (plan_id, i2) = match scan_u64(s, len, i1) {
        Some(x) => x,
        None => {
            return None;
        },
    };
    let i3 = match scan_lit(s, len, i2, ",\"total_amount\":") {
        Some(j) => j,
        None => {
            return None;
        },
    };
    let (total_amount, i4) = match scan_i64(s, len, i3) {
        Some(x) => x,
        None => {
            return None;
        },
    };
    let i5 = match scan_lit(s, len, i4, ",\"total_installments\":") {
        Some(j) => j,
        None => {
            return None;
        },
    };
    let (total_installments, i6) = match scan_u32(s, len, i5) {
        Some(x) => x,
        None => {
            return None;
        },
    };
    let i7 = match scan_lit(s, len, i6, ",\"current_installment\":") {
        Some(j) => j,
        None => {
            return None;
        },
    };
    let (current_installment, i8) = match scan_u32(s, len, i7) {
        Some(x) => x,
        None => {
            return None;
        },
    };
    let i9 = match scan_lit(s, len, i8, ",\"frequency\":") {
        Some(j) => j,
        None => {
            return None;
        },
    };
    let (frequency, i10) = match scan_freq(s, len, i9) {
        Some(x) => x,
        None => {
            return None;
        },
    };
    let i11 = match scan_lit(s, len, i10, ",\"due_date\":") {
        Some(j) => j,
        None => {
            return None;
        },
    };
    let (due_date, i12) = match scan_i64(s, len, i11) {
        Some(x) => x,
        None => {
            return None;
        },
    };
    let i13 = match scan_lit(s, len, i12, ",\"status\":") {
        Some(j) => j,
        None => {
            return None;
        },
    };
    let (status, i14) = match scan_status(s, len, i13) {
        Some(x) => x,
        None => {
            return None;
        },
    };
    let i15 = match scan_lit(s, len, i14, "}") {
        Some(j) => j,
        None => {
            return None;
        },
    };
    Some(
        (
            Installment {
                plan_id,
                total_amount,
                total_installments,
                current_installment,
                frequency,
                due_date,
                status,
            },
            i15,
        ),
    )
}

/// The canonical text of an optional installment period.
pub open spec fn enc_opt_inst(o: Option<Installment>) -> Seq<char> {
    match o {
        None => "null"@,
        Some(v) => enc_inst(v),
    }
}

/// Consume an optional installment period.
pub open spec fn spec_parse_opt_inst(t: Seq<char>, i: int) -> Option<(Option<Installment>, int)> {
    match parse_lit(t, i, "null"@) {
        Some(j) => Some((None, j)),
        None => match spec_parse_inst(t, i) {
            Some((v, j)) => Some((Some(v), j)),
            None => None,
        },
    }
}

fn scan_opt_inst(s: &[char], len: usize, i: usize) -> (r: Option<(Option<Installment>, usize)>)
    requires
        len == s@.len(),
        i <= len,
    ensures
        match r {
            Some((v, j)) => spec_parse_opt_inst(s@, i as int) == Some((v, j as int)) && i <= j
                <= len,
            None => spec_parse_opt_inst(s@, i as int) is None,
        },
{
    match scan_lit(s, len, i, "null") {
        Some(j) => Some((None, j)),
        None => match scan_inst(s, len, i) {
            Some((v, j)) => Some((Some(v), j)),
            None => None,
        },
    }
}

/// The canonical text of a transaction record.
pub open spec fn enc_cash_rec(v: CashView) -> Seq<char> {
    "{\"uid\":"@ + (enc_u64(v.uid) + (",\"student_id\":"@ + (enc_opt_u64(v.student_id) + (
    ",\"cash\":"@ + (enc_i64(v.cash) + (",\"note\":"@ + (enc_opt_string(v.note) + (
    ",\"installment\":"@ + (enc_opt_inst(v.installment) + (",\"created_at\":"@ + (enc_i64(
        v.created_at,
    ) + "}"@)))))))))))
}

/// Consume a transaction record.
pub open spec fn spec_parse_cash_rec(t: Seq<char>, i: int) -> Option<(CashView, int)> {
    match parse_lit(t, i, "{\"uid\":"@) {
        None => None,
        Some(i1) => match spec_parse_u64(t, i1) {
            None => None,
            Some((uid, i2)) => match parse_lit(t, i2, ",\"student_id\":"@) {
                None => None,
                Some(i3) => match spec_parse_opt_u64(t, i3) {
                    None => None,
                    Some((student_id, i4)) => match parse_lit(t, i4, ",\"cash\":"@) {
                        None => None,
                        Some(i5) => match spec_parse_i64(t, i5) {
                            None => None,
                            Some((cash, i6)) => match parse_lit(t, i6, ",\"note\":"@) {
                                None => None,
                                Some(i7) => match spec_parse_opt_string(t, i7) {
                                    None => None,
                                    Some((note, i8)) => match parse_lit(
                                        t,
                                        i8,
                                        ",\"installment\":"@,
                                    ) {
                                        None => None,
                                        Some(i9) => match spec_parse_opt_inst(t, i9) {
                                            None => None,
                                            Some((installment, i10)) => match parse_lit(
                                                t,
                                                i10,
                                                ",\"created_at\":"@,
                                            ) {
                                                None => None,
                                                Some(i11) => match spec_parse_i64(t, i11) {
                                                    None => None,
                                                    Some((created_at, i12)) => match parse_lit(
                                                        t,
                                                        i12,
                                                        "}"@,
                                                    ) {
                                                        None => None,
                                                        Some(i13) => Some(
                                                            (
                                                                CashView {
                                                                    uid,
                                                                    student_id,
                                                                    cash,
                                                                    note,
                                                                    installment,
                                                                    created_at,
                                                                },
                                                                i13,
                                                            ),
                                                        ),
                                                    },
                                                },
                                            },
                                        },
                                    },
                                },
                            },
                        },
                    },
                },
            },
        },
    }
}

fn scan_cash_rec(s: &[char], len: usize, i: usize) -> (r: Option<(Cash, usize)>)
    requires
        len == s@.len(),
        i <= len,
    ensures
        match r {
            Some((c, j)) => spec_parse_cash_rec(s@, i as int) == Some((c@, j as int)) && i < j
                <= len,
            None => spec_parse_cash_rec(s@, i as int) is None,
        },
{
    let i1 = match scan_lit(s, len, i, "{\"uid\":") {
        Some(j) => j,
        None => {
            return None;
        },
    };
    let (uid, i2) = match scan_u64(s, len, i1) {
        Some(x) => x,
        None => {
            return None;
        },
    };
    let i3 = match scan_lit(s, len, i2, ",\"student_id\":") {
        Some(j) => j,
        None => {
            return None;
        },
    };
    let (student_id, i4) = match scan_opt_u64(s, len, i3) {
        Some(x) => x,
        None => {
            return None;
        },
    };
    let i5 = match scan_lit(s, len, i4, ",\"cash\":") {
        Some(j) => j,
        None => {
            return None;
        },
    };
    let (cash, i6) = match scan_i64(s, len, i5) {
        Some(x) => x,
        None => {
            return None;
        },
    };
    let i7 = match scan_lit(s, len, i6, ",\"note\":") {
        Some(j) => j,
        None => {
            return None;
        },
    };
    let (note, i8) = match scan_opt_string(s, len, i7) {
        Some(x) => x,
        None => {
            return None;
        },
    };
    let i9 = match scan_lit(s, len, i8, ",\"installment\":") {
        Some(j) => j,
        None => {
            return None;
        },
    };
    let (installment, i10) = match scan_opt_inst(s, len, i9) {
        Some(x) => x,
        None => {
            return None;
        },
    };
    let i11 = match scan_lit(s, len, i10, ",\"created_at\":") {
        Some(j) => j,
        None => {
            return None;
        },
    };
    let (created_at, i12) = match scan_i64(s, len, i11) {
        Some(x) => x,
        None => {
            return None;
        },
    };
    let i13 = match scan_lit(s, len, i12, "}") {
        Some(j) => j,
        None => {
            return None;
        },
    };
    Some((Cash { uid, student_id, cash, note, installment, created_at }, i13))
}

/// Append one labelled piece: the step lemma for the emitters' running
/// equality `target == out + suffix`.
proof fn lemma_emit_step(target: Seq<char>, before: Seq<char>, piece: Seq<char>, rest: Seq<char>)
    requires
        target == before + (piece + rest),
    ensures
        target == (before + piece) + rest,
{
    assert(before + (piece + rest) =~= (before + piece) + rest);
}

/// Append the canonical text of a payment frequency.
fn emit_freq(f: &PaymentFrequency, out: &mut String)
    ensures
        final(out)@ == old(out)@ + enc_freq(*f),
{
    match *f {
        PaymentFrequency::Weekly => out.append("\"Weekly\""),
        PaymentFrequency::Monthly => out.append("\"Monthly\""),
        PaymentFrequency::Quarterly => out.append("\"Quarterly\""),
        PaymentFrequency::Custom(n) => {
            let ghost base = out@;
            out.append("{\"Custom\":");
            append_decimal(n as u64, out);
            out.append("}");
            proof {
                assert(out@ == ((base + "{\"Custom\":"@) + enc_u64(n as u64)) + "}"@);
                assert(((base + "{\"Custom\":"@) + enc_u64(n as u64)) + "}"@ =~= base + ("{\"Custom\":"@
                    + (enc_u64(n as u64) + "}"@)));
            }
        },
    }
}

/// Append the canonical text of an installment status.
fn emit_status(st: &InstallmentStatus, out: &mut String)
    ensures
        final(out)@ == old(out)@ + enc_status(*st),
{
    match *st {
        InstallmentStatus::Pending => out.append("\"Pending\""),
        InstallmentStatus::Paid => out.append("\"Paid\""),
        InstallmentStatus::Overdue => out.append("\"Overdue\""),
        InstallmentStatus::Cancelled => out.append("\"Cancelled\""),
    }
}

/// Append the canonical text of an installment period.
fn emit_inst(v: &Installment, out: &mut String)
    ensures
        final(out)@ == old(out)@ + enc_inst(*v),
{
    let ghost base = out@;
    let ghost target = base + enc_inst(*v);
    let ghost e1 = enc_u64(v.plan_id);
    let ghost e2 = enc_i64(v.total_amount);
    let ghost e3 = enc_u64(v.total_installments as u64);
    let ghost e4 = enc_u64(v.current_installment as u64);
    let ghost e5 = enc_freq(v.frequency);
    let ghost e6 = enc_i64(v.due_date);
    let ghost e7 = enc_status(v.status);
    let ghost r14 = "}"@;
    let ghost r13 = e7 + r14;
    let ghost r12 = ",\"status\":"@ + r13;
    let ghost r11 = e6 + r12;
    let ghost r10 = ",\"due_date\":"@ + r11;
    let ghost r9 = e5 + r10;
    let ghost r8 = ",\"frequency\":"@ + r9;
    let ghost r7 = e4 + r8;
    let ghost r6 = ",\"current_installment\":"@ + r7;
    let ghost r5 = e3 + r6;
    let ghost r4 = ",\"total_installments\":"@ + r5;
    let ghost r3 = e2 + r4;
    let ghost r2 = ",\"total_amount\":"@ + r3;
    let ghost r1 = e1 + r2;
    proof {
        assert(target == base + ("{\"plan_id\":"@ + r1));
        lemma_emit_step(target, base, "{\"plan_id\":"@, r1);
    }
    out.append("{\"plan_id\":");
    proof {
        lemma_emit_step(target, out@, e1, r2);
    }
    append_decimal(v.plan_id, out);
    proof {
        lemma_emit_step(target, out@, ",\"total_amount\":"@, r3);
    }
    out.append(",\"total_amount\":");
    proof {
        lemma_emit_step(target, out@, e2, r4);
    }
    emit_i64(v.total_amount, out);
    proof {
        lemma_emit_step(target, out@, ",\"total_installments\":"@, r5);
    }
    out.append(",\"total_installments\":");
    proof {
        lemma_emit_step(target, out@, e3, r6);
    }
    append_decimal(v.total_installments as u64, out);
    proof {
        lemma_emit_step(target, out@, ",\"current_installment\":"@, r7);
    }
    out.append(",\"current_installment\":");
    proof {
        lemma_emit_step(target, out@, e4, r8);
    }
    append_decimal(v.current_installment as u64, out);
    proof {
        lemma_emit_step(target, out@, ",\"frequency\":"@, r9);
    }
    out.append(",\"frequency\":");
    proof {
        lemma_emit_step(target, out@, e5, r10);
    }
    emit_freq(&v.frequency, out);
    proof {
        lemma_emit_step(target, out@, ",\"due_date\":"@, r11);
    }
    out.append(",\"due_date\":");
    proof {
        lemma_emit_step(target, out@, e6, r12);
    }
    emit_i64(v.due_date, out);
    proof {
        lemma_emit_step(target, out@, ",\"status\":"@, r13);
    }
    out.append(",\"status\":");
    proof {
        lemma_emit_step(target, out@, e7, r14);
    }
    emit_status(&v.status, out);
    proof {
        lemma_emit_step(target, out@, "}"@, Seq::empty());
    }
    out.append("}");
    proof {
        assert(target == out@ + Seq::<char>::empty());
        assert(out@ + Seq::<char>::empty() =~= out@);
    }
}

/// Append the canonical text of an optional installment period.
fn emit_opt_inst(o: &Option<Installment>, out: &mut String)
    ensures
        final(out)@ == old(out)@ + enc_opt_inst(*o),
{
    match o {
        Some(v) => emit_inst(v, out),
        None => out.append("null"),
    }
}

/// Append the canonical text of a transaction record.
fn emit_cash_rec(c: &Cash, out: &mut String)
    ensures
        final(out)@ == old(out)@ + enc_cash_rec(c@),
{
    let ghost base = out@;
    let ghost target = base + enc_cash_rec(c@);
    let ghost e1 = enc_u64(c.uid);
    let ghost e2 = enc_opt_u64(c.student_id);
    let ghost e3 = enc_i64(c.cash);
    let ghost e4 = enc_opt_string(c@.note);
    let ghost e5 = enc_opt_inst(c.installment);
    let ghost e6 = enc_i64(c.created_at);
    let ghost r12 = "}"@;
    let ghost r11 = e6 + r12;
    let ghost r10 = ",\"created_at\":"@ + r11;
    let ghost r9 = e5 + r10;
    let ghost r8 = ",\"installment\":"@ + r9;
    let ghost r7 = e4 + r8;
    let ghost r6 = ",\"note\":"@ + r7;
    let ghost r5 = e3 + r6;
    let ghost r4 = ",\"cash\":"@ + r5;
    let ghost r3 = e2 + r4;
    let ghost r2 = ",\"student_id\":"@ + r3;
    let ghost r1 = e1 + r2;
    proof {
        assert(target == base + ("{\"uid\":"@ + r1));
        lemma_emit_step(target, base, "{\"uid\":"@, r1);
    }
    out.append("{\"uid\":");
    proof {
        lemma_emit_step(target, out@, e1, r2);
    }
    append_decimal(c.uid, out);
    proof {
        lemma_emit_step(target, out@, ",\"student_id\":"@, r3);
    }
    out.append(",\"student_id\":");
    proof {
        lemma_emit_step(target, out@, e2, r4);
    }
    match c.student_id {
        Some(n) => append_decimal(n, out),
        None => out.append("null"),
    }
    proof {
        lemma_emit_step(target, out@, ",\"cash\":"@, r5);
    }
    out.append(",\"cash\":");
    proof {
        lemma_emit_step(target, out@, e3, r6);
    }
    emit_i64(c.cash, out);
    proof {
        lemma_emit_step(target, out@, ",\"note\":"@, r7);
    }
    out.append(",\"note\":");
    proof {
        lemma_emit_step(target, out@, e4, r8);
    }
    match &c.note {
        Some(n) => emit_string(n.as_str(), out),
        None => out.append("null"),
    }
    proof {
        lemma_emit_step(target, out@, ",\"installment\":"@, r9);
    }
    out.append(",\"installment\":");
    proof {
        lemma_emit_step(target, out@, e5, r10);
    }
    emit_opt_inst(&c.installment, out);
    proof {
        lemma_emit_step(target, out@, ",\"created_at\":"@, r11);
    }
    out.append(",\"created_at\":");
    proof {
        lemma_emit_step(target, out@, e6, r12);
    }
    emit_i64(c.created_at, out);
    proof {
        lemma_emit_step(target, out@, "}"@, Seq::empty());
    }
    out.append("}");
    proof {
        assert(target == out@ + Seq::<char>::empty());
        assert(out@ + Seq::<char>::empty() =~= out@);
    }
}

// ---------------------------------------------------------------------------
// Round trip: reading the canonical text back
// ---------------------------------------------------------------------------

/// A matched region's first character is the region's first character.
proof fn lemma_first_char(t: Seq<char>, p: int, rest: Seq<char>)
    requires
        0 <= p,
        p + rest.len() <= t.len(),
        t.subrange(p, p + rest.len()) == rest,
        rest.len() > 0,
    ensures
        t[p] == rest[0],
{
    assert(t.subrange(p, p + rest.len())[0] == t[p]);
}

/// Text not starting with an 'n' is no "null".
proof fn lemma_not_null(t: Seq<char>, i: int)
    requires
        0 <= i < t.len(),
        t[i] != 'n',
    ensures
        parse_lit(t, i, "null"@) is None,
{
    reveal_strlit("null");
    if parse_lit(t, i, "null"@) is Some {
        assert(t.subrange(i, i + "null"@.len())[0] == t[i]);
    }
}

/// Two literals that differ at some index never match at the same spot.
proof fn lemma_lit_mismatch(t: Seq<char>, i: int, a: Seq<char>, b: Seq<char>, k: int)
    requires
        0 <= k < a.len(),
        k < b.len(),
        a[k] != b[k],
        parse_lit(t, i, a) is Some,
    ensures
        parse_lit(t, i, b) is None,
{
    assert(t.subrange(i, i + a.len())[k] == t[i + k]);
    if parse_lit(t, i, b) is Some {
        assert(t.subrange(i, i + b.len())[k] == t[i + k]);
    }
}

/// Reading back the canonical text of a payment frequency yields it.
proof fn lemma_parse_enc_freq(t: Seq<char>, i: int, f: PaymentFrequency)
    requires
        0 <= i,
        i + enc_freq(f).len() <= t.len(),
        t.subrange(i, i + enc_freq(f).len()) == enc_freq(f),
    ensures
        spec_parse_freq(t, i) == Some((f, i + enc_freq(f).len())),
{
    reveal_strlit("\"Weekly\"");
    reveal_strlit("\"Monthly\"");
    reveal_strlit("\"Quarterly\"");
    reveal_strlit("{\"Custom\":");
    reveal_strlit("}");
    let e = enc_freq(f);
    match f {
        PaymentFrequency::Weekly => {
            assert(parse_lit(t, i, "\"Weekly\""@) is Some);
        },
        PaymentFrequency::Monthly => {
            assert(parse_lit(t, i, "\"Monthly\""@) is Some);
            lemma_lit_mismatch(t, i, "\"Monthly\""@, "\"Weekly\""@, 1);
        },
        PaymentFrequency::Quarterly => {
            assert(parse_lit(t, i, "\"Quarterly\""@) is Some);
            lemma_lit_mismatch(t, i, "\"Quarterly\""@, "\"Weekly\""@, 1);
            lemma_lit_mismatch(t, i, "\"Quarterly\""@, "\"Monthly\""@, 1);
        },
        PaymentFrequency::Custom(n) => {
            let l1 = "{\"Custom\":"@;
            let d = enc_u64(n as u64);
            let l2 = "}"@;
            assert(e == l1 + (d + l2));
            lemma_subrange_cat(t, i, l1, d + l2);
            assert(parse_lit(t, i, l1) is Some);
            lemma_lit_mismatch(t, i, l1, "\"Weekly\""@, 0);
            lemma_lit_mismatch(t, i, l1, "\"Monthly\""@, 0);
            lemma_lit_mismatch(t, i, l1, "\"Quarterly\""@, 0);
            let p = i + l1.len();
            lemma_subrange_cat(t, p, d, l2);
            lemma_first_char(t, p + d.len(), l2);
            assert(t[p + d.len()] == '}');
            assert(!is_digit('}'));
            lemma_parse_enc_u64(t, p, n as u64);
            assert(t.subrange(p + d.len(), p + d.len() + 1) =~= l2);
            assert(parse_lit(t, p + d.len(), l2) is Some);
        },
    }
}

/// Reading back the canonical text of an installment status yields it.
proof fn lemma_parse_enc_status(t: Seq<char>, i: int, st: InstallmentStatus)
    requires
        0 <= i,
        i + enc_status(st).len() <= t.len(),
        t.subrange(i, i + enc_status(st).len()) == enc_status(st),
    ensures
        spec_parse_status(t, i) == Some((st, i + enc_status(st).len())),
{
    reveal_strlit("\"Pending\"");
    reveal_strlit("\"Paid\"");
    reveal_strlit("\"Overdue\"");
    reveal_strlit("\"Cancelled\"");
    match st {
        InstallmentStatus::Pending => {
            assert(parse_lit(t, i, "\"Pending\""@) is Some);
        },
        InstallmentStatus::Paid => {
            assert(parse_lit(t, i, "\"Paid\""@) is Some);
            lemma_lit_mismatch(t, i, "\"Paid\""@, "\"Pending\""@, 3);
        },
        InstallmentStatus::Overdue => {
            assert(parse_lit(t, i, "\"Overdue\""@) is Some);
            lemma_lit_mismatch(t, i, "\"Overdue\""@, "\"Pending\""@, 1);
            lemma_lit_mismatch(t, i, "\"Overdue\""@, "\"Paid\""@, 1);
        },
        InstallmentStatus::Cancelled => {
            assert(parse_lit(t, i, "\"Cancelled\""@) is Some);
            lemma_lit_mismatch(t, i, "\"Cancelled\""@, "\"Pending\""@, 1);
            lemma_lit_mismatch(t, i, "\"Cancelled\""@, "\"Paid\""@, 1);
            lemma_lit_mismatch(t, i, "\"Cancelled\""@, "\"Overdue\""@, 1);
        },
    }
}

/// Reading back the canonical text of an optional unsigned number, not
/// followed by a digit, yields it.
proof fn lemma_parse_enc_opt_u64(t: Seq<char>, i: int, o: Option<u64>)
    requires
        0 <= i,
        i + enc_opt_u64(o).len() < t.len(),
        t.subrange(i, i + enc_opt_u64(o).len()) == enc_opt_u64(o),
        !is_digit(t[i + enc_opt_u64(o).len()]),
    ensures
        spec_parse_opt_u64(t, i) == Some((o, i + enc_opt_u64(o).len())),
{
    match o {
        None => {
            assert(parse_lit(t, i, "null"@) is Some);
        },
        Some(n) => {
            crate::ids::lemma_dec_enc_digits(n as nat);
            lemma_first_char(t, i, enc_u64(n));
            assert(is_digit(t[i]));
            assert(t[i] != 'n');
            lemma_not_null(t, i);
            lemma_parse_enc_u64(t, i, n);
        },
    }
}

proof fn lemma_parse_enc_opt_u32(t: Seq<char>, i: int, o: Option<u32>)
    requires
        0 <= i,
        i + enc_opt_u32(o).len() < t.len(),
        t.subrange(i, i + enc_opt_u32(o).len()) == enc_opt_u32(o),
        !is_digit(t[i + enc_opt_u32(o).len()]),
    ensures
        spec_parse_opt_u32(t, i) == Some((o, i + enc_opt_u32(o).len())),
{
    match o {
        None => {
            assert(parse_lit(t, i, "null"@) is Some);
        },
        Some(n) => {
            lemma_parse_enc_opt_u64(t, i, Some(n as u64));
        },
    }
}

proof fn lemma_parse_enc_opt_u8(t: Seq<char>, i: int, o: Option<u8>)
    requires
        0 <= i,
        i + enc_opt_u8(o).len() < t.len(),
        t.subrange(i, i + enc_opt_u8(o).len()) == enc_opt_u8(o),
        !is_digit(t[i + enc_opt_u8(o).len()]),
    ensures
        spec_parse_opt_u8(t, i) == Some((o, i + enc_opt_u8(o).len())),
{
    match o {
        None => {
            assert(parse_lit(t, i, "null"@) is Some);
        },
        Some(n) => {
            lemma_parse_enc_opt_u64(t, i, Some(n as u64));
        },
    }
}

proof fn lemma_parse_enc_opt_i64(t: Seq<char>, i: int, o: Option<i64>)
    requires
        0 <= i,
        i + enc_opt_i64(o).len() < t.len(),
        t.subrange(i, i + enc_opt_i64(o).len()) == enc_opt_i64(o),
        !is_digit(t[i + enc_opt_i64(o).len()]),
    ensures
        spec_parse_opt_i64(t, i) == Some((o, i + enc_opt_i64(o).len())),
{
    match o {
        None => {
            assert(parse_lit(t, i, "null"@) is Some);
        },
        Some(x) => {
            lemma_first_char(t, i, enc_i64(x));
            if x >= 0 {
                crate::ids::lemma_dec_enc_digits(x as nat);
                assert(is_digit(t[i]));
            } else {
                assert(enc_i64(x)[0] == '-');
                assert(t[i] == '-');
            }
            assert(t[i] != 'n');
            lemma_not_null(t, i);
            lemma_parse_enc_i64(t, i, x);
        },
    }
}

proof fn lemma_parse_enc_opt_string(t: Seq<char>, i: int, o: Option<Seq<char>>)
    requires
        0 <= i,
        i + enc_opt_string(o).len() <= t.len(),
        t.subrange(i, i + enc_opt_string(o).len()) == enc_opt_string(o),
    ensures
        spec_parse_opt_string(t, i) == Some((o, i + enc_opt_string(o).len())),
{
    match o {
        None => {
            assert(parse_lit(t, i, "null"@) is Some);
        },
        Some(s) => {
            lemma_first_char(t, i, enc_string(s));
            assert(enc_string(s)[0] == '"');
            assert(t[i] != 'n');
            lemma_not_null(t, i);
            lemma_parse_enc_string(t, i, s);
        },
    }
}

/// Reading back the canonical text of an installment period yields it.
#[verifier::rlimit(100)]
proof fn lemma_parse_enc_inst(t: Seq<char>, i: int, v: Installment)
    requires
        0 <= i,
        i + enc_inst(v).len() <= t.len(),
        t.subrange(i, i + enc_inst(v).len()) == enc_inst(v),
    ensures
        spec_parse_inst(t, i) == Some((v, i + enc_inst(v).len())),
{
    reveal_strlit("{\"plan_id\":");
    reveal_strlit(",\"total_amount\":");
    reveal_strlit(",\"total_installments\":");
    reveal_strlit(",\"current_installment\":");
    reveal_strlit(",\"frequency\":");
    reveal_strlit(",\"due_date\":");
    reveal_strlit(",\"status\":");
    reveal_strlit("}");
    let l1 = "{\"plan_id\":"@;
    let e1 = enc_u64(v.plan_id);
    let l2 = ",\"total_amount\":"@;
    let e2 = enc_i64(v.total_amount);
    let l3 = ",\"total_installments\":"@;
    let e3 = enc_u64(v.total_installments as u64);
    let l4 = ",\"current_installment\":"@;
    let e4 = enc_u64(v.current_installment as u64);
    let l5 = ",\"frequency\":"@;
    let e5 = enc_freq(v.frequency);
    let l6 = ",\"due_date\":"@;
    let e6 = enc_i64(v.due_date);
    let l7 = ",\"status\":"@;
    let e7 = enc_status(v.status);
    let l8 = "}"@;
    let r13 = e7 + l8;
    let r12 = l7 + r13;
    let r11 = e6 + r12;
    let r10 = l6 + r11;
    let r9 = e5 + r10;
    let r8 = l5 + r9;
    let r7 = e4 + r8;
    let r6 = l4 + r7;
    let r5 = e3 + r6;
    let r4 = l3 + r5;
    let r3 = e2 + r4;
    let r2 = l2 + r3;
    let r1 = e1 + r2;
    assert(enc_inst(v) == l1 + r1);
    let p0 = i;
    lemma_subrange_cat(t, p0, l1, r1);
    let p1 = p0 + l1.len();
    lemma_subrange_cat(t, p1, e1, r2);
    let p2 = p1 + e1.len();
    lemma_first_char(t, p2, r2);
    assert(r2[0] == ',');
    lemma_parse_enc_u64(t, p1, v.plan_id);
    lemma_subrange_cat(t, p2, l2, r3);
    let p3 = p2 + l2.len();
    lemma_subrange_cat(t, p3, e2, r4);
    let p4 = p3 + e2.len();
    lemma_first_char(t, p4, r4);
    assert(r4[0] == ',');
    lemma_parse_enc_i64(t, p3, v.total_amount);
    lemma_subrange_cat(t, p4, l3, r5);
    let p5 = p4 + l3.len();
    lemma_subrange_cat(t, p5, e3, r6);
    let p6 = p5 + e3.len();
    lemma_first_char(t, p6, r6);
    assert(r6[0] == ',');
    lemma_parse_enc_u64(t, p5, v.total_installments as u64);
    lemma_subrange_cat(t, p6, l4, r7);
    let p7 = p6 + l4.len();
    lemma_subrange_cat(t, p7, e4, r8);
    let p8 = p7 + e4.len();
    lemma_first_char(t, p8, r8);
    assert(r8[0] == ',');
    lemma_parse_enc_u64(t, p7, v.current_installment as u64);
    lemma_subrange_cat(t, p8, l5, r9);
    let p9 = p8 + l5.len();
    lemma_subrange_cat(t, p9, e5, r10);
    let p10 = p9 + e5.len();
    lemma_parse_enc_freq(t, p9, v.frequency);
    lemma_subrange_cat(t, p10, l6, r11);
    let p11 = p10 + l6.len();
    lemma_subrange_cat(t, p11, e6, r12);
    let p12 = p11 + e6.len();
    lemma_first_char(t, p12, r12);
    assert(r12[0] == ',');
    lemma_parse_enc_i64(t, p11, v.due_date);
    lemma_subrange_cat(t, p12, l7, r13);
    let p13 = p12 + l7.len();
    lemma_subrange_cat(t, p13, e7, l8);
    let p14 = p13 + e7.len();
    lemma_parse_enc_status(t, p13, v.status);
    assert(parse_lit(t, p14, l8) is Some);
    assert(spec_parse_inst(t, i) == Some((v, p14 + l8.len())));
}

proof fn lemma_parse_enc_opt_inst(t: Seq<char>, i: int, o: Option<Installment>)
    requires
        0 <= i,
        i + enc_opt_inst(o).len() <= t.len(),
        t.subrange(i, i + enc_opt_inst(o).len()) == enc_opt_inst(o),
    ensures
        spec_parse_opt_inst(t, i) == Some((o, i + enc_opt_inst(o).len())),
{
    match o {
        None => {
            assert(parse_lit(t, i, "null"@) is Some);
        },
        Some(v) => {
            reveal_strlit("{\"plan_id\":");
            lemma_first_char(t, i, enc_inst(v));
            assert(enc_inst(v)[0] == '{');
            assert(t[i] != 'n');
            lemma_not_null(t, i);
            lemma_parse_enc_inst(t, i, v);
        },
    }
}

/// Reading back the canonical text of a transaction record yields it.
#[verifier::rlimit(100)]
proof fn lemma_parse_enc_cash_rec(t: Seq<char>, i: int, v: CashView)
    requires
        0 <= i,
        i + enc_cash_rec(v).len() <= t.len(),
        t.subrange(i, i + enc_cash_rec(v).len()) == enc_cash_rec(v),
    ensures
        spec_parse_cash_rec(t, i) == Some((v, i + enc_cash_rec(v).len())),
{
    reveal_strlit("{\"uid\":");
    reveal_strlit(",\"student_id\":");
    reveal_strlit(",\"cash\":");
    reveal_strlit(",\"note\":");
    reveal_strlit(",\"installment\":");
    reveal_strlit(",\"created_at\":");
    reveal_strlit("}");
    let l1 = "{\"uid\":"@;
    let e1 = enc_u64(v.uid);
    let l2 = ",\"student_id\":"@;
    let e2 = enc_opt_u64(v.student_id);
    let l3 = ",\"cash\":"@;
    let e3 = enc_i64(v.cash);
    let l4 = ",\"note\":"@;
    let e4 = enc_opt_string(v.note);
    let l5 = ",\"installment\":"@;
    let e5 = enc_opt_inst(v.installment);
    let l6 = ",\"created_at\":"@;
    let e6 = enc_i64(v.created_at);
    let l7 = "}"@;
    let r11 = e6 + l7;
    let r10 = l6 + r11;
    let r9 = e5 + r10;
    let r8 = l5 + r9;
    let r7 = e4 + r8;
    let r6 = l4 + r7;
    let r5 = e3 + r6;
    let r4 = l3 + r5;
    let r3 = e2 + r4;
    let r2 = l2 + r3;
    let r1 = e1 + r2;
    assert(enc_cash_rec(v) == l1 + r1);
    let p0 = i;
    lemma_subrange_cat(t, p0, l1, r1);
    let p1 = p0 + l1.len();
    lemma_subrange_cat(t, p1, e1, r2);
    let p2 = p1 + e1.len();
    lemma_first_char(t, p2, r2);
    assert(r2[0] == ',');
    lemma_parse_enc_u64(t, p1, v.uid);
    lemma_subrange_cat(t, p2, l2, r3);
    let p3 = p2 + l2.len();
    lemma_subrange_cat(t, p3, e2, r4);
    let p4 = p3 + e2.len();
    lemma_first_char(t, p4, r4);
    assert(r4[0] == ',');
    lemma_parse_enc_opt_u64(t, p3, v.student_id);
    lemma_subrange_cat(t, p4, l3, r5);
    let p5 = p4 + l3.len();
    lemma_subrange_cat(t, p5, e3, r6);
    let p6 = p5 + e3.len();
    lemma_first_char(t, p6, r6);
    assert(r6[0] == ',');
    lemma_parse_enc_i64(t, p5, v.cash);
    lemma_subrange_cat(t, p6, l4, r7);
    let p7 = p6 + l4.len();
    lemma_subrange_cat(t, p7, e4, r8);
    let p8 = p7 + e4.len();
    lemma_parse_enc_opt_string(t, p7, v.note);
    lemma_subrange_cat(t, p8, l5, r9);
    let p9 = p8 + l5.len();
    lemma_subrange_cat(t, p9, e5, r10);
    let p10 = p9 + e5.len();
    lemma_parse_enc_opt_inst(t, p9, v.installment);
    lemma_subrange_cat(t, p10, l6, r11);
    let p11 = p10 + l6.len();
    lemma_subrange_cat(t, p11, e6, l7);
    let p12 = p11 + e6.len();
    lemma_first_char(t, p12, l7);
    assert(t[p12] == '}');
    assert(!is_digit('}'));
    lemma_parse_enc_i64(t, p11, v.created_at);
    assert(parse_lit(t, p12, l7) is Some);
    assert(spec_parse_cash_rec(t, i) == Some((v, p12 + l7.len())));
}

// ---------------------------------------------------------------------------
// Whole collections of transaction records
// ---------------------------------------------------------------------------

/// The canonical text of one entry: the decimal-string key mapping to the
/// record.
pub open spec fn enc_cash_entry(k: u64, v: CashView) -> Seq<char> {
    "\""@ + (enc_u64(k) + ("\":"@ + enc_cash_rec(v)))
}

/// The canonical text of the remaining entries, each preceded by a comma,
/// closed by a brace.
pub open spec fn enc_cash_db_rest(es: Seq<(u64, CashView)>) -> Seq<char>
    decreases es.len(),
{
    if es.len() == 0 {
        "}"@
    } else {
        ","@ + (enc_cash_entry(es[0].0, es[0].1) + enc_cash_db_rest(es.drop_first()))
    }
}

/// The canonical snapshot text of a transaction collection.
pub open spec fn enc_cash_db(es: Seq<(u64, CashView)>) -> Seq<char> {
    if es.len() == 0 {
        "{"@ + "}"@
    } else {
        "{"@ + (enc_cash_entry(es[0].0, es[0].1) + enc_cash_db_rest(es.drop_first()))
    }
}

/// Consume one keyed entry; the record must carry its key as identifier.
pub open spec fn spec_parse_cash_entry(t: Seq<char>, i: int) -> Option<((u64, CashView), int)> {
    match parse_lit(t, i, "\""@) {
        None => None,
        Some(i1) => match spec_parse_u64(t, i1) {
            None => None,
            Some((k, i2)) => match parse_lit(t, i2, "\":"@) {
                None => None,
                Some(i3) => match spec_parse_cash_rec(t, i3) {
                    None => None,
                    Some((v, i4)) => if v.uid == k {
                        Some(((k, v), i4))
                    } else {
                        None
                    },
                },
            },
        },
    }
}

/// Consume the remaining entries after the first; keys must be strictly
/// ascending.
pub open spec fn spec_parse_cash_db_rest(t: Seq<char>, i: int, last: u64) -> Option<
    (Seq<(u64, CashView)>, int),
>
    decreases t.len() - i,
{
    if i < 0 || i > t.len() {
        None
    } else {
        match parse_lit(t, i, "}"@) {
            Some(j) => Some((Seq::empty(), j)),
            None => match parse_lit(t, i, ","@) {
                None => None,
                Some(i1) => match spec_parse_cash_entry(t, i1) {
                    None => None,
                    Some(((k, v), i2)) => if k > last && i2 > i && i2 <= t.len() {
                        match spec_parse_cash_db_rest(t, i2, k) {
                            None => None,
                            Some((es, i3)) => Some((seq![(k, v)] + es, i3)),
                        }
                    } else {
                        None
                    },
                },
            },
        }
    }
}

/// Consume a whole snapshot document.
pub open spec fn spec_parse_cash_db(t: Seq<char>, i: int) -> Option<(Seq<(u64, CashView)>, int)> {
    match parse_lit(t, i, "{"@) {
        None => None,
        Some(i1) => match parse_lit(t, i1, "}"@) {
            Some(j) => Some((Seq::empty(), j)),
            None => match spec_parse_cash_entry(t, i1) {
                None => None,
                Some(((k, v), i2)) => if i2 > i1 && i2 <= t.len() {
                    match spec_parse_cash_db_rest(t, i2, k) {
                        None => None,
                        Some((es, i3)) => Some((seq![(k, v)] + es, i3)),
                    }
                } else {
                    None
                },
            },
        },
    }
}

/// The abstract entries of a concrete entry sequence.
pub open spec fn cash_entry_views(es: Seq<(u64, Cash)>) -> Seq<(u64, CashView)> {
    es.map_values(|e: (u64, Cash)| (e.0, e.1@))
}

fn scan_cash_entry(s: &[char], len: usize, i: usize) -> (r: Option<((u64, Cash), usize)>)
    requires
        len == s@.len(),
        i <= len,
    ensures
        match r {
            Some(((k, c), j)) => spec_parse_cash_entry(s@, i as int) == Some(((k, c@), j as int))
                && i < j <= len,
            None => spec_parse_cash_entry(s@, i as int) is None,
        },
{
    let i1 = match scan_lit(s, len, i, "\"") {
        Some(j) => j,
        None => {
            return None;
        },
    };
    let (k, i2) = match scan_u64(s, len, i1) {
        Some(x) => x,
        None => {
            return None;
        },
    };
    let i3 = match scan_lit(s, len, i2, "\":") {
        Some(j) => j,
        None => {
            return None;
        },
    };
    let (c, i4) = match scan_cash_rec(s, len, i3) {
        Some(x) => x,
        None => {
            return None;
        },
    };
    if c.uid == k {
        Some(((k, c), i4))
    } else {
        None
    }
}

fn scan_cash_db_rest(s: &[char], len: usize, i: usize, last: u64) -> (r: Option<
    (Vec<(u64, Cash)>, usize),
>)
    requires
        len == s@.len(),
        i <= len,
    ensures
        match r {
            Some((vec, j)) => spec_parse_cash_db_rest(s@, i as int, last) == Some(
                (cash_entry_views(vec@), j as int),
            ) && j <= len,
            None => spec_parse_cash_db_rest(s@, i as int, last) is None,
        },
    decreases len - i,
{
    match scan_lit(s, len, i, "}") {
        Some(j) => {
            proof {
                assert(cash_entry_views(Seq::<(u64, Cash)>::empty()) =~= Seq::<
                    (u64, CashView),
                >::empty());
            }
            Some((Vec::new(), j))
        },
        None => {
            let i1 = match scan_lit(s, len, i, ",") {
                Some(j) => j,
                None => {
                    return None;
                },
            };
            let ((k, c), i2) = match scan_cash_entry(s, len, i1) {
                Some(x) => x,
                None => {
                    return None;
                },
            };
            if !(k > last) {
                return None;
            }
            match scan_cash_db_rest(s, len, i2, k) {
                Some((mut vec, j)) => {
                    let ghost tailviews = cash_entry_views(vec@);
                    vec.insert(0, (k, c));
                    proof {
                        assert(cash_entry_views(vec@) =~= seq![(k, c@)] + tailviews);
                    }
                    Some((vec, j))
                },
                None => None,
            }
        },
    }
}

/// Every parse of remaining entries yields keys strictly above `last`,
/// strictly ascending, each record carrying its key.
proof fn lemma_parse_cash_db_rest_keys(t: Seq<char>, i: int, last: u64)
    ensures
        match spec_parse_cash_db_rest(t, i, last) {
            Some((es, _)) => {
                &&& forall|m: int| 0 <= m < es.len() ==> (#[trigger] es[m]).0 > last
                &&& forall|m: int| 0 <= m < es.len() ==> (#[trigger] es[m]).1.uid == es[m].0
                &&& forall|m1: int, m2: int|
                    0 <= m1 < m2 < es.len() ==> (#[trigger] es[m1]).0 < (#[trigger] es[m2]).0
            },
            None => true,
        },
    decreases t.len() - i,
{
    if 0 <= i <= t.len() && parse_lit(t, i, "}"@) is None {
        match parse_lit(t, i, ","@) {
            None => {},
            Some(i1) => {
                match spec_parse_cash_entry(t, i1) {
                    None => {},
                    Some(((k, v), i2)) => {
                        if k > last && i2 > i && i2 <= t.len() {
                            lemma_parse_cash_db_rest_keys(t, i2, k);
                            match spec_parse_cash_db_rest(t, i2, k) {
                                None => {},
                                Some((tail, _)) => {
                                    let es = seq![(k, v)] + tail;
                                    assert forall|m: int| 0 <= m < es.len() implies (
                                    #[trigger] es[m]).0 > last by {
                                        if m > 0 {
                                            assert(es[m] == tail[m - 1]);
                                        }
                                    }
                                    assert forall|m: int| 0 <= m < es.len() implies (
                                    #[trigger] es[m]).1.uid == es[m].0 by {
                                        if m > 0 {
                                            assert(es[m] == tail[m - 1]);
                                        }
                                    }
                                    assert forall|m1: int, m2: int|
                                        0 <= m1 < m2 < es.len() implies (#[trigger] es[m1]).0 < (
                                    #[trigger] es[m2]).0 by {
                                        if m1 > 0 {
                                            assert(es[m1] == tail[m1 - 1]);
                                        }
                                        assert(es[m2] == tail[m2 - 1]);
                                    }
                                },
                            }
                        }
                    },
                }
            },
        }
    }
}

/// The keys and identifiers of a whole parsed snapshot are well-formed.
proof fn lemma_parse_cash_db_keys(t: Seq<char>, i: int)
    ensures
        match spec_parse_cash_db(t, i) {
            Some((es, _)) => {
                &&& forall|m: int| 0 <= m < es.len() ==> (#[trigger] es[m]).1.uid == es[m].0
                &&& forall|m1: int, m2: int|
                    0 <= m1 < m2 < es.len() ==> (#[trigger] es[m1]).0 < (#[trigger] es[m2]).0
            },
            None => true,
        },
{
    match parse_lit(t, i, "{"@) {
        None => {},
        Some(i1) => {
            if parse_lit(t, i1, "}"@) is None {
                match spec_parse_cash_entry(t, i1) {
                    None => {},
                    Some(((k, v), i2)) => {
                        if i2 > i1 && i2 <= t.len() {
                            lemma_parse_cash_db_rest_keys(t, i2, k);
                            match spec_parse_cash_db_rest(t, i2, k) {
                                None => {},
                                Some((tail, _)) => {
                                    let es = seq![(k, v)] + tail;
                                    assert forall|m: int| 0 <= m < es.len() implies (
                                    #[trigger] es[m]).1.uid == es[m].0 by {
                                        if m > 0 {
                                            assert(es[m] == tail[m - 1]);
                                        }
                                    }
                                    assert forall|m1: int, m2: int|
                                        0 <= m1 < m2 < es.len() implies (#[trigger] es[m1]).0 < (
                                    #[trigger] es[m2]).0 by {
                                        if m1 > 0 {
                                            assert(es[m1] == tail[m1 - 1]);
                                        }
                                        assert(es[m2] == tail[m2 - 1]);
                                    }
                                },
                            }
                        }
                    },
                }
            }
        },
    }
}

/// Append the canonical text of one keyed entry.
fn emit_cash_entry(k: u64, c: &Cash, out: &mut String)
    ensures
        final(out)@ == old(out)@ + enc_cash_entry(k, c@),
{
    let ghost base = out@;
    let ghost target = base + enc_cash_entry(k, c@);
    let ghost e1 = enc_u64(k);
    let ghost r2 = "\":"@ + enc_cash_rec(c@);
    let ghost r1 = e1 + r2;
    proof {
        lemma_emit_step(target, base, "\""@, r1);
    }
    out.append("\"");
    proof {
        lemma_emit_step(target, out@, e1, r2);
    }
    append_decimal(k, out);
    proof {
        lemma_emit_step(target, out@, "\":"@, enc_cash_rec(c@));
    }
    out.append("\":");
    emit_cash_rec(c, out);
}

/// Reading back the canonical text of one keyed entry yields it.
#[verifier::rlimit(100)]
#[verifier::spinoff_prover]
proof fn lemma_parse_enc_cash_entry(t: Seq<char>, i: int, k: u64, v: CashView)
    requires
        0 <= i,
        v.uid == k,
        i + enc_cash_entry(k, v).len() <= t.len(),
        t.subrange(i, i + enc_cash_entry(k, v).len()) == enc_cash_entry(k, v),
    ensures
        spec_parse_cash_entry(t, i) == Some(((k, v), i + enc_cash_entry(k, v).len())),
{
    reveal_strlit("\"");
    reveal_strlit("\":");
    let l1 = "\""@;
    let e1 = enc_u64(k);
    let l2 = "\":"@;
    let e2 = enc_cash_rec(v);
    let r2 = l2 + e2;
    let r1 = e1 + r2;
    assert(enc_cash_entry(k, v) == l1 + r1);
    lemma_subrange_cat(t, i, l1, r1);
    let p1 = i + l1.len();
    lemma_subrange_cat(t, p1, e1, r2);
    let p2 = p1 + e1.len();
    lemma_first_char(t, p2, r2);
    assert(r2[0] == '"');
    assert(!is_digit('"'));
    lemma_parse_enc_u64(t, p1, k);
    lemma_subrange_cat(t, p2, l2, e2);
    let p3 = p2 + l2.len();
    lemma_parse_enc_cash_rec(t, p3, v);
}

/// Reading back the canonical text of the remaining entries yields them.
#[verifier::rlimit(100)]
#[verifier::spinoff_prover]
proof fn lemma_parse_enc_cash_db_rest(t: Seq<char>, i: int, es: Seq<(u64, CashView)>, last: u64)
    requires
        0 <= i,
        i + enc_cash_db_rest(es).len() <= t.len(),
        t.subrange(i, i + enc_cash_db_rest(es).len()) == enc_cash_db_rest(es),
        forall|m: int| 0 <= m < es.len() ==> (#[trigger] es[m]).0 > last,
        forall|m: int| 0 <= m < es.len() ==> (#[trigger] es[m]).1.uid == es[m].0,
        forall|m1: int, m2: int|
            0 <= m1 < m2 < es.len() ==> (#[trigger] es[m1]).0 < (#[trigger] es[m2]).0,
    ensures
        spec_parse_cash_db_rest(t, i, last) == Some((es, i + enc_cash_db_rest(es).len())),
    decreases es.len(),
{
    reveal_strlit("}");
    reveal_strlit(",");
    reveal_strlit("\"");
    if es.len() == 0 {
        assert(parse_lit(t, i, "}"@) is Some);
    } else {
        let l1 = ","@;
        let e1 = enc_cash_entry(es[0].0, es[0].1);
        let r1 = e1 + enc_cash_db_rest(es.drop_first());
        assert(enc_cash_db_rest(es) == l1 + r1);
        lemma_subrange_cat(t, i, l1, r1);
        lemma_first_char(t, i, enc_cash_db_rest(es));
        assert(t[i] == ',');
        assert(parse_lit(t, i, "}"@) is None) by {
            if parse_lit(t, i, "}"@) is Some {
                assert(t.subrange(i, i + 1)[0] == t[i]);
            }
        }
        assert(parse_lit(t, i, ","@) is Some);
        let p1 = i + l1.len();
        lemma_subrange_cat(t, p1, e1, enc_cash_db_rest(es.drop_first()));
        let p2 = p1 + e1.len();
        lemma_parse_enc_cash_entry(t, p1, es[0].0, es[0].1);
        assert(es[0].0 > last);
        assert forall|m: int| 0 <= m < es.drop_first().len() implies (
        #[trigger] es.drop_first()[m]).0 > es[0].0 by {
            assert(es.drop_first()[m] == es[m + 1]);
        }
        assert forall|m: int| 0 <= m < es.drop_first().len() implies (
        #[trigger] es.drop_first()[m]).1.uid == es.drop_first()[m].0 by {
            assert(es.drop_first()[m] == es[m + 1]);
        }
        assert forall|m1: int, m2: int|
            0 <= m1 < m2 < es.drop_first().len() implies (#[trigger] es.drop_first()[m1]).0 < (
        #[trigger] es.drop_first()[m2]).0 by {
            assert(es.drop_first()[m1] == es[m1 + 1]);
            assert(es.drop_first()[m2] == es[m2 + 1]);
        }
        lemma_parse_enc_cash_db_rest(t, p2, es.drop_first(), es[0].0);
        assert(seq![(es[0].0, es[0].1)] + es.drop_first() =~= es);
        assert(enc_cash_entry(es[0].0, es[0].1).len() > 0) by {
            assert(enc_cash_entry(es[0].0, es[0].1) == "\""@ + (enc_u64(es[0].0) + ("\":"@
                + enc_cash_rec(es[0].1))));
        }
    }
}

/// Reading back a canonical snapshot embedded at position `i` yields the
/// entries.
#[verifier::rlimit(100)]
#[verifier::spinoff_prover]
proof fn lemma_parse_enc_cash_db_at(t: Seq<char>, i: int, es: Seq<(u64, CashView)>)
    requires
        0 <= i,
        i + enc_cash_db(es).len() <= t.len(),
        t.subrange(i, i + enc_cash_db(es).len()) == enc_cash_db(es),
        forall|m: int| 0 <= m < es.len() ==> (#[trigger] es[m]).1.uid == es[m].0,
        forall|m1: int, m2: int|
            0 <= m1 < m2 < es.len() ==> (#[trigger] es[m1]).0 < (#[trigger] es[m2]).0,
    ensures
        spec_parse_cash_db(t, i) == Some((es, i + enc_cash_db(es).len())),
{
    reveal_strlit("{");
    reveal_strlit("}");
    reveal_strlit("\"");
    if es.len() == 0 {
        assert(enc_cash_db(es) == "{"@ + "}"@);
        lemma_subrange_cat(t, i, "{"@, "}"@);
        assert(parse_lit(t, i, "{"@) is Some);
        assert(parse_lit(t, i + "{"@.len(), "}"@) is Some);
    } else {
        let e1 = enc_cash_entry(es[0].0, es[0].1);
        let r1 = e1 + enc_cash_db_rest(es.drop_first());
        assert(enc_cash_db(es) == "{"@ + r1);
        lemma_subrange_cat(t, i, "{"@, r1);
        let p1 = i + "{"@.len();
        assert(parse_lit(t, i, "{"@) is Some);
        lemma_subrange_cat(t, p1, e1, enc_cash_db_rest(es.drop_first()));
        lemma_first_char(t, p1, r1);
        assert(e1 == "\""@ + (enc_u64(es[0].0) + ("\":"@ + enc_cash_rec(es[0].1))));
        assert(r1[0] == '"');
        assert(t[p1] == '"');
        assert(parse_lit(t, p1, "}"@) is None) by {
            if parse_lit(t, p1, "}"@) is Some {
                assert(t.subrange(p1, p1 + 1)[0] == t[p1]);
            }
        }
        lemma_parse_enc_cash_entry(t, p1, es[0].0, es[0].1);
        let p2 = p1 + e1.len();
        assert forall|m: int| 0 <= m < es.drop_first().len() implies (
        #[trigger] es.drop_first()[m]).0 > es[0].0 by {
            assert(es.drop_first()[m] == es[m + 1]);
        }
        assert forall|m: int| 0 <= m < es.drop_first().len() implies (
        #[trigger] es.drop_first()[m]).1.uid == es.drop_first()[m].0 by {
            assert(es.drop_first()[m] == es[m + 1]);
        }
        assert forall|m1: int, m2: int|
            0 <= m1 < m2 < es.drop_first().len() implies (#[trigger] es.drop_first()[m1]).0 < (
        #[trigger] es.drop_first()[m2]).0 by {
            assert(es.drop_first()[m1] == es[m1 + 1]);
            assert(es.drop_first()[m2] == es[m2 + 1]);
        }
        lemma_parse_enc_cash_db_rest(t, p2, es.drop_first(), es[0].0);
        assert(seq![(es[0].0, es[0].1)] + es.drop_first() =~= es);
    }
}

/// Snapshot round trip for the transaction collection: parsing the
/// serialized snapshot of any well-formed entry sequence yields exactly
/// those identifiers and field values, consuming the whole text.
pub proof fn lemma_cash_snapshot_round_trip(es: Seq<(u64, CashView)>)
    requires
        forall|m: int| 0 <= m < es.len() ==> (#[trigger] es[m]).1.uid == es[m].0,
        forall|m1: int, m2: int|
            0 <= m1 < m2 < es.len() ==> (#[trigger] es[m1]).0 < (#[trigger] es[m2]).0,
    ensures
        spec_parse_cash_db(enc_cash_db(es), 0) == Some((es, enc_cash_db(es).len() as int)),
{
    let t = enc_cash_db(es);
    assert(t.subrange(0, t.len() as int) =~= t);
    lemma_parse_enc_cash_db_at(t, 0, es);
}

impl crate::store::RecordStore<Cash> {
    /// Serialize the full snapshot: one JSON object whose decimal-string
    /// keys ascend, each mapping to its record's representation.
    #[verifier::rlimit(100)]
    #[verifier::spinoff_prover]
    pub fn json(&self) -> (r: String)
        requires
            self.wf(),
        ensures
            r@ == enc_cash_db(cash_entry_views(self.entries_seq())),
    {
        let ghost es = cash_entry_views(self.entries_seq());
        let mut out = String::new();
        let n = self.entries.len();
        if n == 0 {
            out.append("{");
            out.append("}");
            proof {
                assert(out@ =~= Seq::<char>::empty() + ("{"@ + "}"@));
                assert(Seq::<char>::empty() + ("{"@ + "}"@) =~= "{"@ + "}"@);
            }
            return out;
        }
        let ghost target = enc_cash_db(es);
        proof {
            assert(es.len() == n);
            assert(es[0] == (self.entries@[0].0, self.entries@[0].1@));
            assert(target == "{"@ + (enc_cash_entry(es[0].0, es[0].1) + enc_cash_db_rest(
                es.drop_first(),
            )));
            assert(target == Seq::<char>::empty() + target);
            lemma_emit_step(
                target,
                Seq::<char>::empty(),
                "{"@,
                enc_cash_entry(es[0].0, es[0].1) + enc_cash_db_rest(es.drop_first()),
            );
        }
        out.append("{");
        proof {
            lemma_emit_step(
                target,
                out@,
                enc_cash_entry(es[0].0, es[0].1),
                enc_cash_db_rest(es.drop_first()),
            );
            assert(es.drop_first() =~= es.skip(1));
        }
        emit_cash_entry(self.entries[0].0, &self.entries[0].1, &mut out);
        let mut i: usize = 1;
        while i < n
            invariant
                1 <= i <= n,
                n == self.entries@.len(),
                es == cash_entry_views(self.entries_seq()),
                es.len() == n,
                target == enc_cash_db(es),
                target == out@ + enc_cash_db_rest(es.skip(i as int)),
            decreases n - i,
        {
            let ghost rest = enc_cash_db_rest(es.skip(i as int));
            proof {
                assert(es.skip(i as int).len() == n - i);
                assert(es.skip(i as int)[0] == es[i as int]);
                assert(es.skip(i as int).drop_first() =~= es.skip(i + 1));
                assert(rest == ","@ + (enc_cash_entry(es[i as int].0, es[i as int].1)
                    + enc_cash_db_rest(es.skip(i + 1))));
                lemma_emit_step(
                    target,
                    out@,
                    ","@,
                    enc_cash_entry(es[i as int].0, es[i as int].1) + enc_cash_db_rest(
                        es.skip(i + 1),
                    ),
                );
            }
            out.append(",");
            proof {
                lemma_emit_step(
                    target,
                    out@,
                    enc_cash_entry(es[i as int].0, es[i as int].1),
                    enc_cash_db_rest(es.skip(i + 1)),
                );
                assert(es[i as int] == (self.entries@[i as int].0, self.entries@[i as int].1@));
            }
            emit_cash_entry(self.entries[i].0, &self.entries[i].1, &mut out);
            i = i + 1;
        }
        proof {
            assert(es.skip(n as int) =~= Seq::<(u64, CashView)>::empty());
            assert(target == out@ + "}"@);
        }
        out.append("}");
        proof {
            assert(out@ =~= target);
        }
        out
    }

    /// Parse a snapshot text. Exactly the canonical texts are accepted,
    /// wholly consumed; anything else is a parse failure. The entries read
    /// back carry the identifiers and field values the text encodes.
    pub fn from_json(text: &str) -> (r: Result<Self, crate::error::Error>)
        ensures
            match r {
                Ok(db) => {
                    &&& db.wf()
                    &&& ({
                        let sp = spec_parse_cash_db(text@, 0);
                        sp matches Some((es, j)) && j == text@.len() && cash_entry_views(
                            db.entries_seq(),
                        ) == es
                    })
                },
                Err(e) => {
                    &&& e is Parse
                    &&& (spec_parse_cash_db(text@, 0) matches Some((es, j)) ==> j != text@.len())
                },
            },
    {
        let chars = str_to_chars(text);
        let s = chars.as_slice();
        let len = s.len();
        let i1 = match scan_lit(s, len, 0, "{") {
            Some(j) => j,
            None => {
                return Err(crate::error::Error::Parse(crate::text::msg("malformed snapshot")));
            },
        };
        match scan_lit(s, len, i1, "}") {
            Some(j) => {
                if j == len {
                    let db = crate::store::RecordStore { entries: Vec::new() };
                    proof {
                        assert(db.wf());
                        assert(cash_entry_views(db.entries_seq()) =~= Seq::<
                            (u64, CashView),
                        >::empty());
                    }
                    return Ok(db);
                } else {
                    return Err(
                        crate::error::Error::Parse(crate::text::msg("trailing text after snapshot")),
                    );
                }
            },
            None => {},
        }
        let ((k, c), i2) = match scan_cash_entry(s, len, i1) {
            Some(x) => x,
            None => {
                return Err(crate::error::Error::Parse(crate::text::msg("malformed snapshot")));
            },
        };
        let (mut vec, j) = match scan_cash_db_rest(s, len, i2, k) {
            Some(x) => x,
            None => {
                return Err(crate::error::Error::Parse(crate::text::msg("malformed snapshot")));
            },
        };
        if j != len {
            return Err(crate::error::Error::Parse(crate::text::msg("trailing text after snapshot")));
        }
        let ghost tailviews = cash_entry_views(vec@);
        vec.insert(0, (k, c));
        let db = crate::store::RecordStore { entries: vec };
        proof {
            assert(cash_entry_views(db.entries@) =~= seq![(k, c@)] + tailviews);
            lemma_parse_cash_db_keys(s@, 0);
            let es = cash_entry_views(db.entries@);
            assert(spec_parse_cash_db(s@, 0) == Some((es, j as int)));
            assert forall|m1: int, m2: int|
                0 <= m1 < m2 < db.entries@.len() implies (#[trigger] db.entries@[m1]).0 < (
            #[trigger] db.entries@[m2]).0 by {
                assert(es[m1] == (db.entries@[m1].0, db.entries@[m1].1@));
                assert(es[m2] == (db.entries@[m2].0, db.entries@[m2].1@));
            }
            assert forall|m: int|
                0 <= m < db.entries@.len() implies (#[trigger] db.entries@[m]).1.uid_spec()
                == db.entries@[m].0 by {
                assert(es[m] == (db.entries@[m].0, db.entries@[m].1@));
                assert(es[m].1.uid == es[m].0);
            }
            assert(db.wf());
        }
        Ok(db)
    }
}

// ---------------------------------------------------------------------------
// Person records
// ---------------------------------------------------------------------------

/// The canonical text of a class category.
pub open spec fn enc_class(c: Class) -> Seq<char> {
    match c {
        Class::TenTry => "\"TenTry\""@,
        Class::Month => "\"Month\""@,
        Class::Year => "\"Year\""@,
        Class::Others => "\"Others\""@,
    }
}

/// Consume a class category.
pub open spec fn spec_parse_class(t: Seq<char>, i: int) -> Option<(Class, int)> {
    match parse_lit(t, i, "\"TenTry\""@) {
        Some(j) => Some((Class::TenTry, j)),
        None => match parse_lit(t, i, "\"Month\""@) {
            Some(j) => Some((Class::Month, j)),
            None => match parse_lit(t, i, "\"Year\""@) {
                Some(j) => Some((Class::Year, j)),
                None => match parse_lit(t, i, "\"Others\""@) {
                    Some(j) => Some((Class::Others, j)),
                    None => None,
                },
            },
        },
    }
}

fn scan_class(s: &[char], len: usize, i: usize) -> (r: Option<(Class, usize)>)
    requires
        len == s@.len(),
        i <= len,
    ensures
        match r {
            Some((v, j)) => spec_parse_class(s@, i as int) == Some((v, j as int)) && i <= j <= len,
            None => spec_parse_class(s@, i as int) is None,
        },
{
    match scan_lit(s, len, i, "\"TenTry\"") {
        Some(j) => Some((Class::TenTry, j)),
        None => match scan_lit(s, len, i, "\"Month\"") {
            Some(j) => Some((Class::Month, j)),
            None => match scan_lit(s, len, i, "\"Year\"") {
                Some(j) => Some((Class::Year, j)),
                None => match scan_lit(s, len, i, "\"Others\"") {
                    Some(j) => Some((Class::Others, j)),
                    None => None,
                },
            },
        },
    }
}

fn emit_class(c: &Class, out: &mut String)
    ensures
        final(out)@ == old(out)@ + enc_class(*c),
{
    match *c {
        Class::TenTry => out.append("\"TenTry\""),
        Class::Month => out.append("\"Month\""),
        Class::Year => out.append("\"Year\""),
        Class::Others => out.append("\"Others\""),
    }
}

proof fn lemma_parse_enc_class(t: Seq<char>, i: int, c: Class)
    requires
        0 <= i,
        i + enc_class(c).len() <= t.len(),
        t.subrange(i, i + enc_class(c).len()) == enc_class(c),
    ensures
        spec_parse_class(t, i) == Some((c, i + enc_class(c).len())),
{
    reveal_strlit("\"TenTry\"");
    reveal_strlit("\"Month\"");
    reveal_strlit("\"Year\"");
    reveal_strlit("\"Others\"");
    match c {
        Class::TenTry => {
            assert(parse_lit(t, i, "\"TenTry\""@) is Some);
        },
        Class::Month => {
            assert(parse_lit(t, i, "\"Month\""@) is Some);
            lemma_lit_mismatch(t, i, "\"Month\""@, "\"TenTry\""@, 1);
        },
        Class::Year => {
            assert(parse_lit(t, i, "\"Year\""@) is Some);
            lemma_lit_mismatch(t, i, "\"Year\""@, "\"TenTry\""@, 1);
            lemma_lit_mismatch(t, i, "\"Year\""@, "\"Month\""@, 1);
        },
        Class::Others => {
            assert(parse_lit(t, i, "\"Others\""@) is Some);
            lemma_lit_mismatch(t, i, "\"Others\""@, "\"TenTry\""@, 1);
            lemma_lit_mismatch(t, i, "\"Others\""@, "\"Month\""@, 1);
            lemma_lit_mismatch(t, i, "\"Others\""@, "\"Year\""@, 1);
        },
    }
}

/// The canonical text of a subject category.
pub open spec fn enc_subject(c: Subject) -> Seq<char> {
    match c {
        Subject::Shooting => "\"Shooting\""@,
        Subject::Archery => "\"Archery\""@,
        Subject::Others => "\"Others\""@,
    }
}

/// Consume a subject category.
pub open spec fn spec_parse_subject(t: Seq<char>, i: int) -> Option<(Subject, int)> {
    match parse_lit(t, i, "\"Shooting\""@) {
        Some(j) => Some((Subject::Shooting, j)),
        None => match parse_lit(t, i, "\"Archery\""@) {
            Some(j) => Some((Subject::Archery, j)),
            None => match parse_lit(t, i, "\"Others\""@) {
                Some(j) => Some((Subject::Others, j)),
                None => None,
            },
        },
    }
}

fn scan_subject(s: &[char], len: usize, i: usize) -> (r: Option<(Subject, usize)>)
    requires
        len == s@.len(),
        i <= len,
    ensures
        match r {
            Some((v, j)) => spec_parse_subject(s@, i as int) == Some((v, j as int)) && i <= j
                <= len,
            None => spec_parse_subject(s@, i as int) is None,
        },
{
    match scan_lit(s, len, i, "\"Shooting\"") {
        Some(j) => Some((Subject::Shooting, j)),
        None => match scan_lit(s, len, i, "\"Archery\"") {
            Some(j) => Some((Subject::Archery, j)),
            None => match scan_lit(s, len, i, "\"Others\"") {
                Some(j) => Some((Subject::Others, j)),
                None => None,
            },
        },
    }
}

fn emit_subject(c: &Subject, out: &mut String)
    ensures
        final(out)@ == old(out)@ + enc_subject(*c),
{
    match *c {
        Subject::Shooting => out.append("\"Shooting\""),
        Subject::Archery => out.append("\"Archery\""),
        Subject::Others => out.append("\"Others\""),
    }
}

proof fn lemma_parse_enc_subject(t: Seq<char>, i: int, c: Subject)
    requires
        0 <= i,
        i + enc_subject(c).len() <= t.len(),
        t.subrange(i, i + enc_subject(c).len()) == enc_subject(c),
    ensures
        spec_parse_subject(t, i) == Some((c, i + enc_subject(c).len())),
{
    reveal_strlit("\"Shooting\"");
    reveal_strlit("\"Archery\"");
    reveal_strlit("\"Others\"");
    match c {
        Subject::Shooting => {
            assert(parse_lit(t, i, "\"Shooting\""@) is Some);
        },
        Subject::Archery => {
            assert(parse_lit(t, i, "\"Archery\""@) is Some);
            lemma_lit_mismatch(t, i, "\"Archery\""@, "\"Shooting\""@, 1);
        },
        Subject::Others => {
            assert(parse_lit(t, i, "\"Others\""@) is Some);
            lemma_lit_mismatch(t, i, "\"Others\""@, "\"Shooting\""@, 1);
            lemma_lit_mismatch(t, i, "\"Others\""@, "\"Archery\""@, 1);
        },
    }
}

// ---------------------------------------------------------------------------
// Score arrays
// ---------------------------------------------------------------------------

/// The canonical text of the scores after the first, closed by a bracket.
pub open spec fn enc_rings_rest(rs: Seq<u64>) -> Seq<char>
    decreases rs.len(),
{
    if rs.len() == 0 {
        "]"@
    } else {
        ","@ + (enc_u64(rs[0]) + enc_rings_rest(rs.drop_first()))
    }
}

/// The canonical text of a score array.
pub open spec fn enc_rings(rs: Seq<u64>) -> Seq<char> {
    if rs.len() == 0 {
        "["@ + "]"@
    } else {
        "["@ + (enc_u64(rs[0]) + enc_rings_rest(rs.drop_first()))
    }
}

/// Consume the scores after the first.
pub open spec fn spec_parse_rings_rest(t: Seq<char>, i: int) -> Option<(Seq<u64>, int)>
    decreases t.len() - i,
{
    if i < 0 || i > t.len() {
        None
    } else {
        match parse_lit(t, i, "]"@) {
            Some(j) => Some((Seq::empty(), j)),
            None => match parse_lit(t, i, ","@) {
                None => None,
                Some(i1) => match spec_parse_u64(t, i1) {
                    None => None,
                    Some((v, i2)) => if i2 > i && i2 <= t.len() {
                        match spec_parse_rings_rest(t, i2) {
                            None => None,
                            Some((rs, i3)) => Some((seq![v] + rs, i3)),
                        }
                    } else {
                        None
                    },
                },
            },
        }
    }
}

/// Consume a score array.
pub open spec fn spec_parse_rings(t: Seq<char>, i: int) -> Option<(Seq<u64>, int)> {
    match parse_lit(t, i, "["@) {
        None => None,
        Some(i1) => match parse_lit(t, i1, "]"@) {
            Some(j) => Some((Seq::empty(), j)),
            None => match spec_parse_u64(t, i1) {
                None => None,
                Some((v, i2)) => if i2 > i && i2 <= t.len() {
                    match spec_parse_rings_rest(t, i2) {
                        None => None,
                        Some((rs, i3)) => Some((seq![v] + rs, i3)),
                    }
                } else {
                    None
                },
            },
        },
    }
}

fn scan_rings_rest(s: &[char], len: usize, i: usize) -> (r: Option<(Vec<u64>, usize)>)
    requires
        len == s@.len(),
        i <= len,
    ensures
        match r {
            Some((vec, j)) => spec_parse_rings_rest(s@, i as int) == Some((vec@, j as int)) && i
                <= j <= len,
            None => spec_parse_rings_rest(s@, i as int) is None,
        },
    decreases len - i,
{
    match scan_lit(s, len, i, "]") {
        Some(j) => Some((Vec::new(), j)),
        None => {
            let i1 = match scan_lit(s, len, i, ",") {
                Some(j) => j,
                None => {
                    return None;
                },
            };
            let (v, i2) = match scan_u64(s, len, i1) {
                Some(x) => x,
                None => {
                    return None;
                },
            };
            match scan_rings_rest(s, len, i2) {
                Some((mut vec, j)) => {
                    let ghost tail = vec@;
                    vec.insert(0, v);
                    proof {
                        assert(vec@ =~= seq![v] + tail);
                    }
                    Some((vec, j))
                },
                None => None,
            }
        },
    }
}

fn scan_rings(s: &[char], len: usize, i: usize) -> (r: Option<(Vec<u64>, usize)>)
    requires
        len == s@.len(),
        i <= len,
    ensures
        match r {
            Some((vec, j)) => spec_parse_rings(s@, i as int) == Some((vec@, j as int)) && i <= j
                <= len,
            None => spec_parse_rings(s@, i as int) is None,
        },
{
    let i1 = match scan_lit(s, len, i, "[") {
        Some(j) => j,
        None => {
            return None;
        },
    };
    match scan_lit(s, len, i1, "]") {
        Some(j) => Some((Vec::new(), j)),
        None => {
            let (v, i2) = match scan_u64(s, len, i1) {
                Some(x) => x,
                None => {
                    return None;
                },
            };
            match scan_rings_rest(s, len, i2) {
                Some((mut vec, j)) => {
                    let ghost tail = vec@;
                    vec.insert(0, v);
                    proof {
                        assert(vec@ =~= seq![v] + tail);
                    }
                    Some((vec, j))
                },
                None => None,
            }
        },
    }
}

/// Append the canonical text of a score array.
fn emit_rings(rs: &Vec<u64>, out: &mut String)
    ensures
        final(out)@ == old(out)@ + enc_rings(rs@),
{
    let ghost base = out@;
    let ghost target = base + enc_rings(rs@);
    let n = rs.len();
    if n == 0 {
        out.append("[");
        out.append("]");
        proof {
            assert((base + "["@) + "]"@ =~= base + ("["@ + "]"@));
        }
        return ;
    }
    proof {
        assert(target == base + ("["@ + (enc_u64(rs@[0]) + enc_rings_rest(rs@.drop_first()))));
        lemma_emit_step(target, base, "["@, enc_u64(rs@[0]) + enc_rings_rest(rs@.drop_first()));
    }
    out.append("[");
    proof {
        lemma_emit_step(target, out@, enc_u64(rs@[0]), enc_rings_rest(rs@.drop_first()));
        assert(rs@.drop_first() =~= rs@.skip(1));
    }
    append_decimal(rs[0], out);
    let mut i: usize = 1;
    while i < n
        invariant
            1 <= i <= n,
            n == rs@.len(),
            target == base + enc_rings(rs@),
            target == out@ + enc_rings_rest(rs@.skip(i as int)),
        decreases n - i,
    {
        proof {
            assert(rs@.skip(i as int).len() == n - i);
            assert(rs@.skip(i as int)[0] == rs@[i as int]);
            assert(rs@.skip(i as int).drop_first() =~= rs@.skip(i + 1));
            assert(enc_rings_rest(rs@.skip(i as int)) == ","@ + (enc_u64(rs@[i as int])
                + enc_rings_rest(rs@.skip(i + 1))));
            lemma_emit_step(target, out@, ","@, enc_u64(rs@[i as int]) + enc_rings_rest(rs@.skip(i + 1)));
        }
        out.append(",");
        proof {
            lemma_emit_step(target, out@, enc_u64(rs@[i as int]), enc_rings_rest(rs@.skip(i + 1)));
        }
        append_decimal(rs[i], out);
        i = i + 1;
    }
    proof {
        assert(rs@.skip(n as int) =~= Seq::<u64>::empty());
        assert(target == out@ + "]"@);
    }
    out.append("]");
}

/// Reading back the canonical text of the scores after the first yields
/// them.
proof fn lemma_parse_enc_rings_rest(t: Seq<char>, i: int, rs: Seq<u64>)
    requires
        0 <= i,
        i + enc_rings_rest(rs).len() <= t.len(),
        t.subrange(i, i + enc_rings_rest(rs).len()) == enc_rings_rest(rs),
    ensures
        spec_parse_rings_rest(t, i) == Some((rs, i + enc_rings_rest(rs).len())),
    decreases rs.len(),
{
    reveal_strlit("]");
    reveal_strlit(",");
    if rs.len() == 0 {
        assert(parse_lit(t, i, "]"@) is Some);
    } else {
        let l1 = ","@;
        let e1 = enc_u64(rs[0]);
        let r1 = e1 + enc_rings_rest(rs.drop_first());
        assert(enc_rings_rest(rs) == l1 + r1);
        lemma_subrange_cat(t, i, l1, r1);
        lemma_first_char(t, i, enc_rings_rest(rs));
        assert(t[i] == ',');
        assert(parse_lit(t, i, "]"@) is None) by {
            if parse_lit(t, i, "]"@) is Some {
                assert(t.subrange(i, i + 1)[0] == t[i]);
            }
        }
        assert(parse_lit(t, i, ","@) is Some);
        let p1 = i + l1.len();
        lemma_subrange_cat(t, p1, e1, enc_rings_rest(rs.drop_first()));
        let p2 = p1 + e1.len();
        lemma_first_char(t, p2, enc_rings_rest(rs.drop_first()));
        assert(enc_rings_rest(rs.drop_first())[0] == ',' || enc_rings_rest(rs.drop_first())[0]
            == ']') by {
            if rs.drop_first().len() == 0 {
            } else {
                assert(enc_rings_rest(rs.drop_first()) == ","@ + (enc_u64(rs.drop_first()[0])
                    + enc_rings_rest(rs.drop_first().drop_first())));
            }
        }
        assert(!is_digit(t[p2]));
        lemma_parse_enc_u64(t, p1, rs[0]);
        lemma_parse_enc_rings_rest(t, p2, rs.drop_first());
        assert(seq![rs[0]] + rs.drop_first() =~= rs);
    }
}

/// Reading back the canonical text of a score array yields it.
proof fn lemma_parse_enc_rings(t: Seq<char>, i: int, rs: Seq<u64>)
    requires
        0 <= i,
        i + enc_rings(rs).len() <= t.len(),
        t.subrange(i, i + enc_rings(rs).len()) == enc_rings(rs),
    ensures
        spec_parse_rings(t, i) == Some((rs, i + enc_rings(rs).len())),
{
    reveal_strlit("[");
    reveal_strlit("]");
    reveal_strlit(",");
    if rs.len() == 0 {
        assert(enc_rings(rs) == "["@ + "]"@);
        lemma_subrange_cat(t, i, "["@, "]"@);
        assert(parse_lit(t, i, "["@) is Some);
        assert(parse_lit(t, i + 1, "]"@) is Some);
    } else {
        let e1 = enc_u64(rs[0]);
        let r1 = e1 + enc_rings_rest(rs.drop_first());
        assert(enc_rings(rs) == "["@ + r1);
        lemma_subrange_cat(t, i, "["@, r1);
        let p1 = i + 1;
        assert(parse_lit(t, i, "["@) is Some);
        lemma_subrange_cat(t, p1, e1, enc_rings_rest(rs.drop_first()));
        lemma_first_char(t, p1, r1);
        crate::ids::lemma_dec_enc_digits(rs[0] as nat);
        assert(is_digit(r1[0])) by {
            assert(r1[0] == e1[0]);
        }
        assert(parse_lit(t, p1, "]"@) is None) by {
            if parse_lit(t, p1, "]"@) is Some {
                assert(t.subrange(p1, p1 + 1)[0] == t[p1]);
                assert(t[p1] == ']');
                assert(!is_digit(']'));
            }
        }
        let p2 = p1 + e1.len();
        lemma_first_char(t, p2, enc_rings_rest(rs.drop_first()));
        assert(enc_rings_rest(rs.drop_first())[0] == ',' || enc_rings_rest(rs.drop_first())[0]
            == ']') by {
            if rs.drop_first().len() == 0 {
            } else {
                assert(enc_rings_rest(rs.drop_first()) == ","@ + (enc_u64(rs.drop_first()[0])
                    + enc_rings_rest(rs.drop_first().drop_first())));
            }
        }
        assert(!is_digit(t[p2]));
        lemma_parse_enc_u64(t, p1, rs[0]);
        lemma_parse_enc_rings_rest(t, p2, rs.drop_first());
        assert(seq![rs[0]] + rs.drop_first() =~= rs);
    }
}

/// The canonical text of a person record.
pub open spec fn enc_student_rec(v: StudentView) -> Seq<char> {
    "{\"uid\":"@ + (enc_u64(v.uid) + (",\"age\":"@ + (enc_opt_u8(v.age) + (",\"name\":"@ + (
    enc_string(v.name) + (",\"phone\":"@ + (enc_string(v.phone) + (",\"lesson_left\":"@ + (
    enc_opt_u32(v.lesson_left) + (",\"class\":"@ + (enc_class(v.class) + (",\"subject\":"@ + (
    enc_subject(v.subject) + (",\"rings\":"@ + (enc_rings(v.rings) + (",\"note\":"@ + (enc_string(
        v.note,
    ) + (",\"membership_start_date\":"@ + (enc_opt_i64(v.membership_start_date) + (
    ",\"membership_end_date\":"@ + (enc_opt_i64(v.membership_end_date) + "}"@)))))))))))))))))))))
}

/// Consume a person record.
pub open spec fn spec_parse_student_rec(t: Seq<char>, i: int) -> Option<(StudentView, int)> {
    match parse_lit(t, i, "{\"uid\":"@) {
        None => None,
        Some(i1) => match spec_parse_u64(t, i1) {
            None => None,
            Some((uid, i2)) => match parse_lit(t, i2, ",\"age\":"@) {
                None => None,
                Some(i3) => match spec_parse_opt_u8(t, i3) {
                    None => None,
                    Some((age, i4)) => match parse_lit(t, i4, ",\"name\":"@) {
                        None => None,
                        Some(i5) => match spec_parse_string(t, i5) {
                            None => None,
                            Some((name, i6)) => match parse_lit(t, i6, ",\"phone\":"@) {
                                None => None,
                                Some(i7) => match spec_parse_string(t, i7) {
                                    None => None,
                                    Some((phone, i8)) => match parse_lit(
                                        t,
                                        i8,
                                        ",\"lesson_left\":"@,
                                    ) {
                                        None => None,
                                        Some(i9) => match spec_parse_opt_u32(t, i9) {
                                            None => None,
                                            Some((lesson_left, i10)) => match parse_lit(
                                                t,
                                                i10,
                                                ",\"class\":"@,
                                            ) {
                                                None => None,
                                                Some(i11) => match spec_parse_class(t, i11) {
                                                    None => None,
                                                    Some((class, i12)) => match parse_lit(
                                                        t,
                                                        i12,
                                                        ",\"subject\":"@,
                                                    ) {
                                                        None => None,
                                                        Some(i13) => match spec_parse_subject(
                                                            t,
                                                            i13,
                                                        ) {
                                                            None => None,
                                                            Some((subject, i14)) => match parse_lit(
                                                                t,
                                                                i14,
                                                                ",\"rings\":"@,
                                                            ) {
                                                                None => None,
                                                                Some(i15) => match spec_parse_rings(
                                                                    t,
                                                                    i15,
                                                                ) {
                                                                    None => None,
                                                                    Some((rings, i16)) => match parse_lit(
                                                                        t,
                                                                        i16,
                                                                        ",\"note\":"@,
                                                                    ) {
                                                                        None => None,
                                                                        Some(i17) => match spec_parse_string(
                                                                            t,
                                                                            i17,
                                                                        ) {
                                                                            None => None,
                                                                            Some((note, i18)) => match parse_lit(
                                                                                t,
                                                                                i18,
                                                                                ",\"membership_start_date\":"@,
                                                                            ) {
                                                                                None => None,
                                                                                Some(i19) => match spec_parse_opt_i64(
                                                                                    t,
                                                                                    i19,
                                                                                ) {
                                                                                    None => None,
                                                                                    Some(
                                                                                        (msd, i20),
                                                                                    ) => match parse_lit(
                                                                                        t,
                                                                                        i20,
                                                                                        ",\"membership_end_date\":"@,
                                                                                    ) {
                                                                                        None
                                                                                            => None,
                                                                                        Some(i21)
                                                                                            => match spec_parse_opt_i64(
                                                                                            t,
                                                                                            i21,
                                                                                        ) {
                                                                                            None
                                                                                                => None,
                                                                                            Some(
                                                                                                (
                                                                                                    med,
                                                                                                    i22,
                                                                                                ),
                                                                                            ) => match parse_lit(
                                                                                                t,
                                                                                                i22,
                                                                                                "}"@,
                                                                                            ) {
                                                                                                None
                                                                                                    => None,
                                                                                                Some(
                                                                                                    i23,
                                                                                                ) => Some(
                                                                                                    (
                                                                                                        StudentView {
                                                                                                            uid,
                                                                                                            age,
                                                                                                            name,
                                                                                                            phone,
                                                                                                            lesson_left,
                                                                                                            class,
                                                                                                            subject,
                                                                                                            rings,
                                                                                                            note,
                                                                                                            membership_start_date: msd,
                                                                                                            membership_end_date: med,
                                                                                                        },
                                                                                                        i23,
                                                                                                    ),
                                                                                                ),
                                                                                            },
                                                                                        },
                                                                                    },
                                                                                },
                                                                            },
                                                                        },
                                                                    },
                                                                },
                                                            },
                                                        },
                                                    },
                                                },
                                            },
                                        },
                                    },
                                },
                            },
                        },
                    },
                },
            },
        },
    }
}

#[verifier::rlimit(100)]
#[verifier::spinoff_prover]
fn scan_student_rec(s: &[char], len: usize, i: usize) -> (r: Option<(Student, usize)>)
    requires
        len == s@.len(),
        i <= len,
    ensures
        match r {
            Some((c, j)) => spec_parse_student_rec(s@, i as int) == Some((c@, j as int)) && i < j
                <= len,
            None => spec_parse_student_rec(s@, i as int) is None,
        },
{
    let i1 = match scan_lit(s, len, i, "{\"uid\":") {
        Some(j) => j,
        None => {
            return None;
        },
    };
    let (uid, i2) = match scan_u64(s, len, i1) {
        Some(x) => x,
        None => {
            return None;
        },
    };
    let i3 = match scan_lit(s, len, i2, ",\"age\":") {
        Some(j) => j,
        None => {
            return None;
        },
    };
    let (age, i4) = match scan_opt_u8(s, len, i3) {
        Some(x) => x,
        None => {
            return None;
        },
    };
    let i5 = match scan_lit(s, len, i4, ",\"name\":") {
        Some(j) => j,
        None => {
            return None;
        },
    };
    let (name, i6) = match scan_string_owned(s, len, i5) {
        Some(x) => x,
        None => {
            return None;
        },
    };
    let i7 = match scan_lit(s, len, i6, ",\"phone\":") {
        Some(j) => j,
        None => {
            return None;
        },
    };
    let (phone, i8) = match scan_string_owned(s, len, i7) {
        Some(x) => x,
        None => {
            return None;
        },
    };
    let i9 = match scan_lit(s, len, i8, ",\"lesson_left\":") {
        Some(j) => j,
        None => {
            return None;
        },
    };
    let (lesson_left, i10) = match scan_opt_u32(s, len, i9) {
        Some(x) => x,
        None => {
            return None;
        },
    };
    let i11 = match scan_lit(s, len, i10, ",\"class\":") {
        Some(j) => j,
        None => {
            return None;
        },
    };
    let (class, i12) = match scan_class(s, len, i11) {
        Some(x) => x,
        None => {
            return None;
        },
    };
    let i13 = match scan_lit(s, len, i12, ",\"subject\":") {
        Some(j) => j,
        None => {
            return None;
        },
    };
    let (subject, i14) = match scan_subject(s, len, i13) {
        Some(x) => x,
        None => {
            return None;
        },
    };
    let i15 = match scan_lit(s, len, i14, ",\"rings\":") {
        Some(j) => j,
        None => {
            return None;
        },
    };
    let (rings, i16) = match scan_rings(s, len, i15) {
        Some(x) => x,
        None => {
            return None;
        },
    };
    let i17 = match scan_lit(s, len, i16, ",\"note\":") {
        Some(j) => j,
        None => {
            return None;
        },
    };
    let (note, i18) = match scan_string_owned(s, len, i17) {
        Some(x) => x,
        None => {
            return None;
        },
    };
    let i19 = match scan_lit(s, len, i18, ",\"membership_start_date\":") {
        Some(j) => j,
        None => {
            return None;
        },
    };
    let (msd, i20) = match scan_opt_i64(s, len, i19) {
        Some(x) => x,
        None => {
            return None;
        },
    };
    let i21 = match scan_lit(s, len, i20, ",\"membership_end_date\":") {
        Some(j) => j,
        None => {
            return None;
        },
    };
    let (med, i22) = match scan_opt_i64(s, len, i21) {
        Some(x) => x,
        None => {
            return None;
        },
    };
    let i23 = match scan_lit(s, len, i22, "}") {
        Some(j) => j,
        None => {
            return None;
        },
    };
    Some(
        (
            Student {
                uid,
                age,
                name,
                phone,
                lesson_left,
                class,
                subject,
                rings,
                note,
                membership_start_date: msd,
                membership_end_date: med,
            },
            i23,
        ),
    )
}

/// Append the canonical text of a person record.
fn emit_student_rec(c: &Student, out: &mut String)
    ensures
        final(out)@ == old(out)@ + enc_student_rec(c@),
{
    let ghost base = out@;
    let ghost target = base + enc_student_rec(c@);
    let ghost e1 = enc_u64(c.uid);
    let ghost e2 = enc_opt_u8(c.age);
    let ghost e3 = enc_string(c.name@);
    let ghost e4 = enc_string(c.phone@);
    let ghost e5 = enc_opt_u32(c.lesson_left);
    let ghost e6 = enc_class(c.class);
    let ghost e7 = enc_subject(c.subject);
    let ghost e8 = enc_rings(c.rings@);
    let ghost e9 = enc_string(c.note@);
    let ghost e10 = enc_opt_i64(c.membership_start_date);
    let ghost e11 = enc_opt_i64(c.membership_end_date);
    let ghost r22 = "}"@;
    let ghost r21 = e11 + r22;
    let ghost r20 = ",\"membership_end_date\":"@ + r21;
    let ghost r19 = e10 + r20;
    let ghost r18 = ",\"membership_start_date\":"@ + r19;
    let ghost r17 = e9 + r18;
    let ghost r16 = ",\"note\":"@ + r17;
    let ghost r15 = e8 + r16;
    let ghost r14 = ",\"rings\":"@ + r15;
    let ghost r13 = e7 + r14;
    let ghost r12 = ",\"subject\":"@ + r13;
    let ghost r11 = e6 + r12;
    let ghost r10 = ",\"class\":"@ + r11;
    let ghost r9 = e5 + r10;
    let ghost r8 = ",\"lesson_left\":"@ + r9;
    let ghost r7 = e4 + r8;
    let ghost r6 = ",\"phone\":"@ + r7;
    let ghost r5 = e3 + r6;
    let ghost r4 = ",\"name\":"@ + r5;
    let ghost r3 = e2 + r4;
    let ghost r2 = ",\"age\":"@ + r3;
    let ghost r1 = e1 + r2;
    proof {
        assert(target == base + ("{\"uid\":"@ + r1));
        lemma_emit_step(target, base, "{\"uid\":"@, r1);
    }
    out.append("{\"uid\":");
    proof {
        lemma_emit_step(target, out@, e1, r2);
    }
    append_decimal(c.uid, out);
    proof {
        lemma_emit_step(target, out@, ",\"age\":"@, r3);
    }
    out.append(",\"age\":");
    proof {
        lemma_emit_step(target, out@, e2, r4);
    }
    match c.age {
        Some(n) => append_decimal(n as u64, out),
        None => out.append("null"),
    }
    proof {
        lemma_emit_step(target, out@, ",\"name\":"@, r5);
    }
    out.append(",\"name\":");
    proof {
        lemma_emit_step(target, out@, e3, r6);
    }
    emit_string(c.name.as_str(), out);
    proof {
        lemma_emit_step(target, out@, ",\"phone\":"@, r7);
    }
    out.append(",\"phone\":");
    proof {
        lemma_emit_step(target, out@, e4, r8);
    }
    emit_string(c.phone.as_str(), out);
    proof {
        lemma_emit_step(target, out@, ",\"lesson_left\":"@, r9);
    }
    out.append(",\"lesson_left\":");
    proof {
        lemma_emit_step(target, out@, e5, r10);
    }
    match c.lesson_left {
        Some(n) => append_decimal(n as u64, out),
        None => out.append("null"),
    }
    proof {
        lemma_emit_step(target, out@, ",\"class\":"@, r11);
    }
    out.append(",\"class\":");
    proof {
        lemma_emit_step(target, out@, e6, r12);
    }
    emit_class(&c.class, out);
    proof {
        lemma_emit_step(target, out@, ",\"subject\":"@, r13);
    }
    out.append(",\"subject\":");
    proof {
        lemma_emit_step(target, out@, e7, r14);
    }
    emit_subject(&c.subject, out);
    proof {
        lemma_emit_step(target, out@, ",\"rings\":"@, r15);
    }
    out.append(",\"rings\":");
    proof {
        lemma_emit_step(target, out@, e8, r16);
    }
    emit_rings(&c.rings, out);
    proof {
        lemma_emit_step(target, out@, ",\"note\":"@, r17);
    }
    out.append(",\"note\":");
    proof {
        lemma_emit_step(target, out@, e9, r18);
    }
    emit_string(c.note.as_str(), out);
    proof {
        lemma_emit_step(target, out@, ",\"membership_start_date\":"@, r19);
    }
    out.append(",\"membership_start_date\":");
    proof {
        lemma_emit_step(target, out@, e10, r20);
    }
    match c.membership_start_date {
        Some(x) => emit_i64(x, out),
        None => out.append("null"),
    }
    proof {
        lemma_emit_step(target, out@, ",\"membership_end_date\":"@, r21);
    }
    out.append(",\"membership_end_date\":");
    proof {
        lemma_emit_step(target, out@, e11, r22);
    }
    match c.membership_end_date {
        Some(x) => emit_i64(x, out),
        None => out.append("null"),
    }
    proof {
        lemma_emit_step(target, out@, "}"@, Seq::empty());
    }
    out.append("}");
    proof {
        assert(target == out@ + Seq::<char>::empty());
        assert(out@ + Seq::<char>::empty() =~= out@);
    }
}

/// Reading back the canonical text of a person record yields it.
#[verifier::rlimit(100)]
#[verifier::spinoff_prover]
proof fn lemma_parse_enc_student_rec(t: Seq<char>, i: int, v: StudentView)
    requires
        0 <= i,
        i + enc_student_rec(v).len() <= t.len(),
        t.subrange(i, i + enc_student_rec(v).len()) == enc_student_rec(v),
    ensures
        spec_parse_student_rec(t, i) == Some((v, i + enc_student_rec(v).len())),
{
    reveal_strlit("{\"uid\":");
    reveal_strlit(",\"age\":");
    reveal_strlit(",\"name\":");
    reveal_strlit(",\"phone\":");
    reveal_strlit(",\"lesson_left\":");
    reveal_strlit(",\"class\":");
    reveal_strlit(",\"subject\":");
    reveal_strlit(",\"rings\":");
    reveal_strlit(",\"note\":");
    reveal_strlit(",\"membership_start_date\":");
    reveal_strlit(",\"membership_end_date\":");
    reveal_strlit("}");
    let l1 = "{\"uid\":"@;
    let e1 = enc_u64(v.uid);
    let l2 = ",\"age\":"@;
    let e2 = enc_opt_u8(v.age);
    let l3 = ",\"name\":"@;
    let e3 = enc_string(v.name);
    let l4 = ",\"phone\":"@;
    let e4 = enc_string(v.phone);
    let l5 = ",\"lesson_left\":"@;
    let e5 = enc_opt_u32(v.lesson_left);
    let l6 = ",\"class\":"@;
    let e6 = enc_class(v.class);
    let l7 = ",\"subject\":"@;
    let e7 = enc_subject(v.subject);
    let l8 = ",\"rings\":"@;
    let e8 = enc_rings(v.rings);
    let l9 = ",\"note\":"@;
    let e9 = enc_string(v.note);
    let l10 = ",\"membership_start_date\":"@;
    let e10 = enc_opt_i64(v.membership_start_date);
    let l11 = ",\"membership_end_date\":"@;
    let e11 = enc_opt_i64(v.membership_end_date);
    let l12 = "}"@;
    let r21 = e11 + l12;
    let r20 = l11 + r21;
    let r19 = e10 + r20;
    let r18 = l10 + r19;
    let r17 = e9 + r18;
    let r16 = l9 + r17;
    let r15 = e8 + r16;
    let r14 = l8 + r15;
    let r13 = e7 + r14;
    let r12 = l7 + r13;
    let r11 = e6 + r12;
    let r10 = l6 + r11;
    let r9 = e5 + r10;
    let r8 = l5 + r9;
    let r7 = e4 + r8;
    let r6 = l4 + r7;
    let r5 = e3 + r6;
    let r4 = l3 + r5;
    let r3 = e2 + r4;
    let r2 = l2 + r3;
    let r1 = e1 + r2;
    assert(enc_student_rec(v) == l1 + r1);
    let p0 = i;
    lemma_subrange_cat(t, p0, l1, r1);
    let p1 = p0 + l1.len();
    lemma_subrange_cat(t, p1, e1, r2);
    let p2 = p1 + e1.len();
    lemma_first_char(t, p2, r2);
    assert(r2[0] == ',');
    lemma_parse_enc_u64(t, p1, v.uid);
    lemma_subrange_cat(t, p2, l2, r3);
    let p3 = p2 + l2.len();
    lemma_subrange_cat(t, p3, e2, r4);
    let p4 = p3 + e2.len();
    lemma_first_char(t, p4, r4);
    assert(r4[0] == ',');
    lemma_parse_enc_opt_u8(t, p3, v.age);
    lemma_subrange_cat(t, p4, l3, r5);
    let p5 = p4 + l3.len();
    lemma_subrange_cat(t, p5, e3, r6);
    let p6 = p5 + e3.len();
    lemma_parse_enc_string(t, p5, v.name);
    lemma_subrange_cat(t, p6, l4, r7);
    let p7 = p6 + l4.len();
    lemma_subrange_cat(t, p7, e4, r8);
    let p8 = p7 + e4.len();
    lemma_parse_enc_string(t, p7, v.phone);
    lemma_subrange_cat(t, p8, l5, r9);
    let p9 = p8 + l5.len();
    lemma_subrange_cat(t, p9, e5, r10);
    let p10 = p9 + e5.len();
    lemma_first_char(t, p10, r10);
    assert(r10[0] == ',');
    lemma_parse_enc_opt_u32(t, p9, v.lesson_left);
    lemma_subrange_cat(t, p10, l6, r11);
    let p11 = p10 + l6.len();
    lemma_subrange_cat(t, p11, e6, r12);
    let p12 = p11 + e6.len();
    lemma_parse_enc_class(t, p11, v.class);
    lemma_subrange_cat(t, p12, l7, r13);
    let p13 = p12 + l7.len();
    lemma_subrange_cat(t, p13, e7, r14);
    let p14 = p13 + e7.len();
    lemma_parse_enc_subject(t, p13, v.subject);
    lemma_subrange_cat(t, p14, l8, r15);
    let p15 = p14 + l8.len();
    lemma_subrange_cat(t, p15, e8, r16);
    let p16 = p15 + e8.len();
    lemma_parse_enc_rings(t, p15, v.rings);
    lemma_subrange_cat(t, p16, l9, r17);
    let p17 = p16 + l9.len();
    lemma_subrange_cat(t, p17, e9, r18);
    let p18 = p17 + e9.len();
    lemma_parse_enc_string(t, p17, v.note);
    lemma_subrange_cat(t, p18, l10, r19);
    let p19 = p18 + l10.len();
    lemma_subrange_cat(t, p19, e10, r20);
    let p20 = p19 + e10.len();
    lemma_first_char(t, p20, r20);
    assert(r20[0] == ',');
    lemma_parse_enc_opt_i64(t, p19, v.membership_start_date);
    lemma_subrange_cat(t, p20, l11, r21);
    let p21 = p20 + l11.len();
    lemma_subrange_cat(t, p21, e11, l12);
    let p22 = p21 + e11.len();
    lemma_first_char(t, p22, l12);
    assert(t[p22] == '}');
    assert(!is_digit('}'));
    lemma_parse_enc_opt_i64(t, p21, v.membership_end_date);
    assert(parse_lit(t, p22, l12) is Some);
    assert(spec_parse_student_rec(t, i) == Some((v, p22 + l12.len())));
}

// ---------------------------------------------------------------------------
// Whole collections of person records
// ---------------------------------------------------------------------------

/// The canonical text of one keyed person entry.
pub open spec fn enc_student_entry(k: u64, v: StudentView) -> Seq<char> {
    "\""@ + (enc_u64(k) + ("\":"@ + enc_student_rec(v)))
}

/// The canonical text of the remaining person entries.
pub open spec fn enc_student_db_rest(es: Seq<(u64, StudentView)>) -> Seq<char>
    decreases es.len(),
{
    if es.len() == 0 {
        "}"@
    } else {
        ","@ + (enc_student_entry(es[0].0, es[0].1) + enc_student_db_rest(es.drop_first()))
    }
}

/// The canonical snapshot text of a person collection.
pub open spec fn enc_student_db(es: Seq<(u64, StudentView)>) -> Seq<char> {
    if es.len() == 0 {
        "{"@ + "}"@
    } else {
        "{"@ + (enc_student_entry(es[0].0, es[0].1) + enc_student_db_rest(es.drop_first()))
    }
}

/// Consume one keyed person entry.
pub open spec fn spec_parse_student_entry(t: Seq<char>, i: int) -> Option<
    ((u64, StudentView), int),
> {
    match parse_lit(t, i, "\""@) {
        None => None,
        Some(i1) => match spec_parse_u64(t, i1) {
            None => None,
            Some((k, i2)) => match parse_lit(t, i2, "\":"@) {
                None => None,
                Some(i3) => match spec_parse_student_rec(t, i3) {
                    None => None,
                    Some((v, i4)) => if v.uid == k {
                        Some(((k, v), i4))
                    } else {
                        None
                    },
                },
            },
        },
    }
}

/// Consume the remaining person entries, keys strictly ascending.
pub open spec fn spec_parse_student_db_rest(t: Seq<char>, i: int, last: u64) -> Option<
    (Seq<(u64, StudentView)>, int),
>
    decreases t.len() - i,
{
    if i < 0 || i > t.len() {
        None
    } else {
        match parse_lit(t, i, "}"@) {
            Some(j) => Some((Seq::empty(), j)),
            None => match parse_lit(t, i, ","@) {
                None => None,
                Some(i1) => match spec_parse_student_entry(t, i1) {
                    None => None,
                    Some(((k, v), i2)) => if k > last && i2 > i && i2 <= t.len() {
                        match spec_parse_student_db_rest(t, i2, k) {
                            None => None,
                            Some((es, i3)) => Some((seq![(k, v)] + es, i3)),
                        }
                    } else {
                        None
                    },
                },
            },
        }
    }
}

/// Consume a whole person snapshot document.
pub open spec fn spec_parse_student_db(t: Seq<char>, i: int) -> Option<
    (Seq<(u64, StudentView)>, int),
> {
    match parse_lit(t, i, "{"@) {
        None => None,
        Some(i1) => match parse_lit(t, i1, "}"@) {
            Some(j) => Some((Seq::empty(), j)),
            None => match spec_parse_student_entry(t, i1) {
                None => None,
                Some(((k, v), i2)) => if i2 > i1 && i2 <= t.len() {
                    match spec_parse_student_db_rest(t, i2, k) {
                        None => None,
                        Some((es, i3)) => Some((seq![(k, v)] + es, i3)),
                    }
                } else {
                    None
                },
            },
        },
    }
}

/// The abstract entries of a concrete person entry sequence.
pub open spec fn student_entry_views(es: Seq<(u64, Student)>) -> Seq<(u64, StudentView)> {
    es.map_values(|e: (u64, Student)| (e.0, e.1@))
}

fn scan_student_entry(s: &[char], len: usize, i: usize) -> (r: Option<((u64, Student), usize)>)
    requires
        len == s@.len(),
        i <= len,
    ensures
        match r {
            Some(((k, c), j)) => spec_parse_student_entry(s@, i as int) == Some(
                ((k, c@), j as int),
            ) && i < j <= len,
            None => spec_parse_student_entry(s@, i as int) is None,
        },
{
    let i1 = match scan_lit(s, len, i, "\"") {
        Some(j) => j,
        None => {
            return None;
        },
    };
    let (k, i2) = match scan_u64(s, len, i1) {
        Some(x) => x,
        None => {
            return None;
        },
    };
    let i3 = match scan_lit(s, len, i2, "\":") {
        Some(j) => j,
        None => {
            return None;
        },
    };
    let (c, i4) = match scan_student_rec(s, len, i3) {
        Some(x) => x,
        None => {
            return None;
        },
    };
    if c.uid == k {
        Some(((k, c), i4))
    } else {
        None
    }
}

fn scan_student_db_rest(s: &[char], len: usize, i: usize, last: u64) -> (r: Option<
    (Vec<(u64, Student)>, usize),
>)
    requires
        len == s@.len(),
        i <= len,
    ensures
        match r {
            Some((vec, j)) => spec_parse_student_db_rest(s@, i as int, last) == Some(
                (student_entry_views(vec@), j as int),
            ) && j <= len,
            None => spec_parse_student_db_rest(s@, i as int, last) is None,
        },
    decreases len - i,
{
    match scan_lit(s, len, i, "}") {
        Some(j) => {
            proof {
                assert(student_entry_views(Seq::<(u64, Student)>::empty()) =~= Seq::<
                    (u64, StudentView),
                >::empty());
            }
            Some((Vec::new(), j))
        },
        None => {
            let i1 = match scan_lit(s, len, i, ",") {
                Some(j) => j,
                None => {
                    return None;
                },
            };
            let ((k, c), i2) = match scan_student_entry(s, len, i1) {
                Some(x) => x,
                None => {
                    return None;
                },
            };
            if !(k > last) {
                return None;
            }
            match scan_student_db_rest(s, len, i2, k) {
                Some((mut vec, j)) => {
                    let ghost tailviews = student_entry_views(vec@);
                    vec.insert(0, (k, c));
                    proof {
                        assert(student_entry_views(vec@) =~= seq![(k, c@)] + tailviews);
                    }
                    Some((vec, j))
                },
                None => None,
            }
        },
    }
}

/// Keys of parsed person entries are ascending and carried by each record.
proof fn lemma_parse_student_db_rest_keys(t: Seq<char>, i: int, last: u64)
    ensures
        match spec_parse_student_db_rest(t, i, last) {
            Some((es, _)) => {
                &&& forall|m: int| 0 <= m < es.len() ==> (#[trigger] es[m]).0 > last
                &&& forall|m: int| 0 <= m < es.len() ==> (#[trigger] es[m]).1.uid == es[m].0
                &&& forall|m1: int, m2: int|
                    0 <= m1 < m2 < es.len() ==> (#[trigger] es[m1]).0 < (#[trigger] es[m2]).0
            },
            None => true,
        },
    decreases t.len() - i,
{
    if 0 <= i <= t.len() && parse_lit(t, i, "}"@) is None {
        match parse_lit(t, i, ","@) {
            None => {},
            Some(i1) => {
                match spec_parse_student_entry(t, i1) {
                    None => {},
                    Some(((k, v), i2)) => {
                        if k > last && i2 > i && i2 <= t.len() {
                            lemma_parse_student_db_rest_keys(t, i2, k);
                            match spec_parse_student_db_rest(t, i2, k) {
                                None => {},
                                Some((tail, _)) => {
                                    let es = seq![(k, v)] + tail;
                                    assert forall|m: int| 0 <= m < es.len() implies (
                                    #[trigger] es[m]).0 > last by {
                                        if m > 0 {
                                            assert(es[m] == tail[m - 1]);
                                        }
                                    }
                                    assert forall|m: int| 0 <= m < es.len() implies (
                                    #[trigger] es[m]).1.uid == es[m].0 by {
                                        if m > 0 {
                                            assert(es[m] == tail[m - 1]);
                                        }
                                    }
                                    assert forall|m1: int, m2: int|
                                        0 <= m1 < m2 < es.len() implies (#[trigger] es[m1]).0 < (
                                    #[trigger] es[m2]).0 by {
                                        if m1 > 0 {
                                            assert(es[m1] == tail[m1 - 1]);
                                        }
                                        assert(es[m2] == tail[m2 - 1]);
                                    }
                                },
                            }
                        }
                    },
                }
            },
        }
    }
}

/// Keys of a whole parsed person snapshot are well-formed.
proof fn lemma_parse_student_db_keys(t: Seq<char>, i: int)
    ensures
        match spec_parse_student_db(t, i) {
            Some((es, _)) => {
                &&& forall|m: int| 0 <= m < es.len() ==> (#[trigger] es[m]).1.uid == es[m].0
                &&& forall|m1: int, m2: int|
                    0 <= m1 < m2 < es.len() ==> (#[trigger] es[m1]).0 < (#[trigger] es[m2]).0
            },
            None => true,
        },
{
    match parse_lit(t, i, "{"@) {
        None => {},
        Some(i1) => {
            if parse_lit(t, i1, "}"@) is None {
                match spec_parse_student_entry(t, i1) {
                    None => {},
                    Some(((k, v), i2)) => {
                        if i2 > i1 && i2 <= t.len() {
                            lemma_parse_student_db_rest_keys(t, i2, k);
                            match spec_parse_student_db_rest(t, i2, k) {
                                None => {},
                                Some((tail, _)) => {
                                    let es = seq![(k, v)] + tail;
                                    assert forall|m: int| 0 <= m < es.len() implies (
                                    #[trigger] es[m]).1.uid == es[m].0 by {
                                        if m > 0 {
                                            assert(es[m] == tail[m - 1]);
                                        }
                                    }
                                    assert forall|m1: int, m2: int|
                                        0 <= m1 < m2 < es.len() implies (#[trigger] es[m1]).0 < (
                                    #[trigger] es[m2]).0 by {
                                        if m1 > 0 {
                                            assert(es[m1] == tail[m1 - 1]);
                                        }
                                        assert(es[m2] == tail[m2 - 1]);
                                    }
                                },
                            }
                        }
                    },
                }
            }
        },
    }
}

/// Append the canonical text of one keyed person entry.
fn emit_student_entry(k: u64, c: &Student, out: &mut String)
    ensures
        final(out)@ == old(out)@ + enc_student_entry(k, c@),
{
    let ghost base = out@;
    let ghost target = base + enc_student_entry(k, c@);
    let ghost e1 = enc_u64(k);
    let ghost r2 = "\":"@ + enc_student_rec(c@);
    let ghost r1 = e1 + r2;
    proof {
        lemma_emit_step(target, base, "\""@, r1);
    }
    out.append("\"");
    proof {
        lemma_emit_step(target, out@, e1, r2);
    }
    append_decimal(k, out);
    proof {
        lemma_emit_step(target, out@, "\":"@, enc_student_rec(c@));
    }
    out.append("\":");
    emit_student_rec(c, out);
}

/// Reading back the canonical text of one keyed person entry yields it.
#[verifier::rlimit(100)]
#[verifier::spinoff_prover]
proof fn lemma_parse_enc_student_entry(t: Seq<char>, i: int, k: u64, v: StudentView)
    requires
        0 <= i,
        v.uid == k,
        i + enc_student_entry(k, v).len() <= t.len(),
        t.subrange(i, i + enc_student_entry(k, v).len()) == enc_student_entry(k, v),
    ensures
        spec_parse_student_entry(t, i) == Some(((k, v), i + enc_student_entry(k, v).len())),
{
    reveal_strlit("\"");
    reveal_strlit("\":");
    let l1 = "\""@;
    let e1 = enc_u64(k);
    let l2 = "\":"@;
    let e2 = enc_student_rec(v);
    let r2 = l2 + e2;
    let r1 = e1 + r2;
    assert(enc_student_entry(k, v) == l1 + r1);
    lemma_subrange_cat(t, i, l1, r1);
    let p1 = i + l1.len();
    lemma_subrange_cat(t, p1, e1, r2);
    let p2 = p1 + e1.len();
    lemma_first_char(t, p2, r2);
    assert(r2[0] == '"');
    assert(!is_digit('"'));
    lemma_parse_enc_u64(t, p1, k);
    lemma_subrange_cat(t, p2, l2, e2);
    let p3 = p2 + l2.len();
    lemma_parse_enc_student_rec(t, p3, v);
}

/// Reading back the canonical text of the remaining person entries yields
/// them.
#[verifier::rlimit(100)]
#[verifier::spinoff_prover]
proof fn lemma_parse_enc_student_db_rest(t: Seq<char>, i: int, es: Seq<(u64, StudentView)>, last: u64)
    requires
        0 <= i,
        i + enc_student_db_rest(es).len() <= t.len(),
        t.subrange(i, i + enc_student_db_rest(es).len()) == enc_student_db_rest(es),
        forall|m: int| 0 <= m < es.len() ==> (#[trigger] es[m]).0 > last,
        forall|m: int| 0 <= m < es.len() ==> (#[trigger] es[m]).1.uid == es[m].0,
        forall|m1: int, m2: int|
            0 <= m1 < m2 < es.len() ==> (#[trigger] es[m1]).0 < (#[trigger] es[m2]).0,
    ensures
        spec_parse_student_db_rest(t, i, last) == Some((es, i + enc_student_db_rest(es).len())),
    decreases es.len(),
{
    reveal_strlit("}");
    reveal_strlit(",");
    reveal_strlit("\"");
    if es.len() == 0 {
        assert(parse_lit(t, i, "}"@) is Some);
    } else {
        let l1 = ","@;
        let e1 = enc_student_entry(es[0].0, es[0].1);
        let r1 = e1 + enc_student_db_rest(es.drop_first());
        assert(enc_student_db_rest(es) == l1 + r1);
        lemma_subrange_cat(t, i, l1, r1);
        lemma_first_char(t, i, enc_student_db_rest(es));
        assert(t[i] == ',');
        assert(parse_lit(t, i, "}"@) is None) by {
            if parse_lit(t, i, "}"@) is Some {
                assert(t.subrange(i, i + 1)[0] == t[i]);
            }
        }
        assert(parse_lit(t, i, ","@) is Some);
        let p1 = i + l1.len();
        lemma_subrange_cat(t, p1, e1, enc_student_db_rest(es.drop_first()));
        let p2 = p1 + e1.len();
        lemma_parse_enc_student_entry(t, p1, es[0].0, es[0].1);
        assert(es[0].0 > last);
        assert forall|m: int| 0 <= m < es.drop_first().len() implies (
        #[trigger] es.drop_first()[m]).0 > es[0].0 by {
            assert(es.drop_first()[m] == es[m + 1]);
        }
        assert forall|m: int| 0 <= m < es.drop_first().len() implies (
        #[trigger] es.drop_first()[m]).1.uid == es.drop_first()[m].0 by {
            assert(es.drop_first()[m] == es[m + 1]);
        }
        assert forall|m1: int, m2: int|
            0 <= m1 < m2 < es.drop_first().len() implies (#[trigger] es.drop_first()[m1]).0 < (
        #[trigger] es.drop_first()[m2]).0 by {
            assert(es.drop_first()[m1] == es[m1 + 1]);
            assert(es.drop_first()[m2] == es[m2 + 1]);
        }
        lemma_parse_enc_student_db_rest(t, p2, es.drop_first(), es[0].0);
        assert(seq![(es[0].0, es[0].1)] + es.drop_first() =~= es);
        assert(enc_student_entry(es[0].0, es[0].1).len() > 0) by {
            assert(enc_student_entry(es[0].0, es[0].1) == "\""@ + (enc_u64(es[0].0) + ("\":"@
                + enc_student_rec(es[0].1))));
        }
    }
}

/// Reading back a canonical person snapshot embedded at position `i`
/// yields the entries.
#[verifier::rlimit(100)]
#[verifier::spinoff_prover]
proof fn lemma_parse_enc_student_db_at(t: Seq<char>, i: int, es: Seq<(u64, StudentView)>)
    requires
        0 <= i,
        i + enc_student_db(es).len() <= t.len(),
        t.subrange(i, i + enc_student_db(es).len()) == enc_student_db(es),
        forall|m: int| 0 <= m < es.len() ==> (#[trigger] es[m]).1.uid == es[m].0,
        forall|m1: int, m2: int|
            0 <= m1 < m2 < es.len() ==> (#[trigger] es[m1]).0 < (#[trigger] es[m2]).0,
    ensures
        spec_parse_student_db(t, i) == Some((es, i + enc_student_db(es).len())),
{
    reveal_strlit("{");
    reveal_strlit("}");
    reveal_strlit("\"");
    if es.len() == 0 {
        assert(enc_student_db(es) == "{"@ + "}"@);
        lemma_subrange_cat(t, i, "{"@, "}"@);
        assert(parse_lit(t, i, "{"@) is Some);
        assert(parse_lit(t, i + "{"@.len(), "}"@) is Some);
    } else {
        let e1 = enc_student_entry(es[0].0, es[0].1);
        let r1 = e1 + enc_student_db_rest(es.drop_first());
        assert(enc_student_db(es) == "{"@ + r1);
        lemma_subrange_cat(t, i, "{"@, r1);
        let p1 = i + "{"@.len();
        assert(parse_lit(t, i, "{"@) is Some);
        lemma_subrange_cat(t, p1, e1, enc_student_db_rest(es.drop_first()));
        lemma_first_char(t, p1, r1);
        assert(e1 == "\""@ + (enc_u64(es[0].0) + ("\":"@ + enc_student_rec(es[0].1))));
        assert(r1[0] == '"');
        assert(t[p1] == '"');
        assert(parse_lit(t, p1, "}"@) is None) by {
            if parse_lit(t, p1, "}"@) is Some {
                assert(t.subrange(p1, p1 + 1)[0] == t[p1]);
            }
        }
        lemma_parse_enc_student_entry(t, p1, es[0].0, es[0].1);
        let p2 = p1 + e1.len();
        assert forall|m: int| 0 <= m < es.drop_first().len() implies (
        #[trigger] es.drop_first()[m]).0 > es[0].0 by {
            assert(es.drop_first()[m] == es[m + 1]);
        }
        assert forall|m: int| 0 <= m < es.drop_first().len() implies (
        #[trigger] es.drop_first()[m]).1.uid == es.drop_first()[m].0 by {
            assert(es.drop_first()[m] == es[m + 1]);
        }
        assert forall|m1: int, m2: int|
            0 <= m1 < m2 < es.drop_first().len() implies (#[trigger] es.drop_first()[m1]).0 < (
        #[trigger] es.drop_first()[m2]).0 by {
            assert(es.drop_first()[m1] == es[m1 + 1]);
            assert(es.drop_first()[m2] == es[m2 + 1]);
        }
        lemma_parse_enc_student_db_rest(t, p2, es.drop_first(), es[0].0);
        assert(seq![(es[0].0, es[0].1)] + es.drop_first() =~= es);
    }
}

/// Snapshot round trip for the person collection: parsing the serialized
/// snapshot of any well-formed entry sequence yields exactly those
/// identifiers and field values, consuming the whole text.
pub proof fn lemma_student_snapshot_round_trip(es: Seq<(u64, StudentView)>)
    requires
        forall|m: int| 0 <= m < es.len() ==> (#[trigger] es[m]).1.uid == es[m].0,
        forall|m1: int, m2: int|
            0 <= m1 < m2 < es.len() ==> (#[trigger] es[m1]).0 < (#[trigger] es[m2]).0,
    ensures
        spec_parse_student_db(enc_student_db(es), 0) == Some(
            (es, enc_student_db(es).len() as int),
        ),
{
    let t = enc_student_db(es);
    assert(t.subrange(0, t.len() as int) =~= t);
    lemma_parse_enc_student_db_at(t, 0, es);
}

impl crate::store::RecordStore<Student> {
    /// Serialize the full snapshot: one JSON object whose decimal-string
    /// keys ascend, each mapping to its record's representation.
    #[verifier::rlimit(100)]
    #[verifier::spinoff_prover]
    pub fn json(&self) -> (r: String)
        requires
            self.wf(),
        ensures
            r@ == enc_student_db(student_entry_views(self.entries_seq())),
    {
        let ghost es = student_entry_views(self.entries_seq());
        let mut out = String::new();
        let n = self.entries.len();
        if n == 0 {
            out.append("{");
            out.append("}");
            proof {
                assert(out@ =~= Seq::<char>::empty() + ("{"@ + "}"@));
                assert(Seq::<char>::empty() + ("{"@ + "}"@) =~= "{"@ + "}"@);
            }
            return out;
        }
        let ghost target = enc_student_db(es);
        proof {
            assert(es.len() == n);
            assert(es[0] == (self.entries@[0].0, self.entries@[0].1@));
            assert(target == "{"@ + (enc_student_entry(es[0].0, es[0].1) + enc_student_db_rest(
                es.drop_first(),
            )));
            assert(target == Seq::<char>::empty() + target);
            lemma_emit_step(
                target,
                Seq::<char>::empty(),
                "{"@,
                enc_student_entry(es[0].0, es[0].1) + enc_student_db_rest(es.drop_first()),
            );
        }
        out.append("{");
        proof {
            lemma_emit_step(
                target,
                out@,
                enc_student_entry(es[0].0, es[0].1),
                enc_student_db_rest(es.drop_first()),
            );
            assert(es.drop_first() =~= es.skip(1));
        }
        emit_student_entry(self.entries[0].0, &self.entries[0].1, &mut out);
        let mut i: usize = 1;
        while i < n
            invariant
                1 <= i <= n,
                n == self.entries@.len(),
                es == student_entry_views(self.entries_seq()),
                es.len() == n,
                target == enc_student_db(es),
                target == out@ + enc_student_db_rest(es.skip(i as int)),
            decreases n - i,
        {
            proof {
                assert(es.skip(i as int).len() == n - i);
                assert(es.skip(i as int)[0] == es[i as int]);
                assert(es.skip(i as int).drop_first() =~= es.skip(i + 1));
                assert(enc_student_db_rest(es.skip(i as int)) == ","@ + (enc_student_entry(
                    es[i as int].0,
                    es[i as int].1,
                ) + enc_student_db_rest(es.skip(i + 1))));
                lemma_emit_step(
                    target,
                    out@,
                    ","@,
                    enc_student_entry(es[i as int].0, es[i as int].1) + enc_student_db_rest(
                        es.skip(i + 1),
                    ),
                );
            }
            out.append(",");
            proof {
                lemma_emit_step(
                    target,
                    out@,
                    enc_student_entry(es[i as int].0, es[i as int].1),
                    enc_student_db_rest(es.skip(i + 1)),
                );
                assert(es[i as int] == (self.entries@[i as int].0, self.entries@[i as int].1@));
            }
            emit_student_entry(self.entries[i].0, &self.entries[i].1, &mut out);
            i = i + 1;
        }
        proof {
            assert(es.skip(n as int) =~= Seq::<(u64, StudentView)>::empty());
            assert(target == out@ + "}"@);
        }
        out.append("}");
        proof {
            assert(out@ =~= target);
        }
        out
    }

    /// Parse a snapshot text. Exactly the canonical texts are accepted,
    /// wholly consumed; anything else is a parse failure.
    pub fn from_json(text: &str) -> (r: Result<Self, crate::error::Error>)
        ensures
            match r {
                Ok(db) => {
                    &&& db.wf()
                    &&& ({
                        let sp = spec_parse_student_db(text@, 0);
                        sp matches Some((es, j)) && j == text@.len() && student_entry_views(
                            db.entries_seq(),
                        ) == es
                    })
                },
                Err(e) => {
                    &&& e is Parse
                    &&& (spec_parse_student_db(text@, 0) matches Some((es, j)) ==> j != text@.len())
                },
            },
    {
        let chars = str_to_chars(text);
        let s = chars.as_slice();
        let len = s.len();
        let i1 = match scan_lit(s, len, 0, "{") {
            Some(j) => j,
            None => {
                return Err(crate::error::Error::Parse(crate::text::msg("malformed snapshot")));
            },
        };
        match scan_lit(s, len, i1, "}") {
            Some(j) => {
                if j == len {
                    let db = crate::store::RecordStore { entries: Vec::new() };
                    proof {
                        assert(db.wf());
                        assert(student_entry_views(db.entries_seq()) =~= Seq::<
                            (u64, StudentView),
                        >::empty());
                    }
                    return Ok(db);
                } else {
                    return Err(
                        crate::error::Error::Parse(crate::text::msg("trailing text after snapshot")),
                    );
                }
            },
            None => {},
        }
        let ((k, c), i2) = match scan_student_entry(s, len, i1) {
            Some(x) => x,
            None => {
                return Err(crate::error::Error::Parse(crate::text::msg("malformed snapshot")));
            },
        };
        let (mut vec, j) = match scan_student_db_rest(s, len, i2, k) {
            Some(x) => x,
            None => {
                return Err(crate::error::Error::Parse(crate::text::msg("malformed snapshot")));
            },
        };
        if j != len {
            return Err(crate::error::Error::Parse(crate::text::msg("trailing text after snapshot")));
        }
        let ghost tailviews = student_entry_views(vec@);
        vec.insert(0, (k, c));
        let db = crate::store::RecordStore { entries: vec };
        proof {
            assert(student_entry_views(db.entries@) =~= seq![(k, c@)] + tailviews);
            lemma_parse_student_db_keys(s@, 0);
            let es = student_entry_views(db.entries@);
            assert(spec_parse_student_db(s@, 0) == Some((es, j as int)));
            assert forall|m1: int, m2: int|
                0 <= m1 < m2 < db.entries@.len() implies (#[trigger] db.entries@[m1]).0 < (
            #[trigger] db.entries@[m2]).0 by {
                assert(es[m1] == (db.entries@[m1].0, db.entries@[m1].1@));
                assert(es[m2] == (db.entries@[m2].0, db.entries@[m2].1@));
            }
            assert forall|m: int|
                0 <= m < db.entries@.len() implies (#[trigger] db.entries@[m]).1.uid_spec()
                == db.entries@[m].0 by {
                assert(es[m] == (db.entries@[m].0, db.entries@[m].1@));
                assert(es[m].1.uid == es[m].0);
            }
            assert(db.wf());
        }
        Ok(db)
    }
}

} // verus!
