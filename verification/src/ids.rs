//! Identifier generation and the decimal counter text that persists it.
//!
//! Identifiers are unsigned 64-bit integers, unique within one generator's
//! lifetime and monotonically increasing. A generator is an explicit value
//! owned by its caller (no process-wide state), constructed from a persisted
//! seed and optionally reconciled against the highest identifier already
//! present in a loaded store, which closes the gap where a crash between
//! minting and counter persistence could otherwise reissue an identifier.

use vstd::prelude::*;
use vstd::string::StrSliceExecFns;

use crate::text::push_char;

verus! {

/// Is `c` a decimal digit?
pub open spec fn is_digit(c: char) -> bool {
    48 <= c as int && c as int <= 57
}

/// Numeric value of a digit character.
pub open spec fn digit_val(c: char) -> int {
    c as int - 48
}

/// The digit character for a value in 0..10.
pub open spec fn digit_char(d: int) -> char {
    ((48 + d) as u8) as char
}

/// Every character of `s` is a decimal digit.
pub open spec fn all_digits(s: Seq<char>) -> bool {
    forall|i: int| 0 <= i < s.len() ==> is_digit(#[trigger] s[i])
}

/// Value of a digit string, most significant digit first.
pub open spec fn dec_val(s: Seq<char>) -> int
    decreases s.len(),
{
    if s.len() == 0 {
        0
    } else {
        dec_val(s.drop_last()) * 10 + digit_val(s.last())
    }
}

/// Canonical decimal encoding of a natural number (no leading zeros,
/// except that zero itself is "0").
pub open spec fn dec_enc(n: nat) -> Seq<char>
    decreases n,
{
    if n < 10 {
        seq![digit_char(n as int)]
    } else {
        dec_enc(n / 10).push(digit_char((n % 10) as int))
    }
}

pub proof fn lemma_dec_val_nonneg(s: Seq<char>)
    requires
        all_digits(s),
    ensures
        dec_val(s) >= 0,
    decreases s.len(),
{
    if s.len() > 0 {
        assert(all_digits(s.drop_last()));
        lemma_dec_val_nonneg(s.drop_last());
    }
}

/// The canonical encoding consists of digits and is never empty.
pub proof fn lemma_dec_enc_digits(n: nat)
    ensures
        dec_enc(n).len() >= 1,
        all_digits(dec_enc(n)),
    decreases n,
{
    if n < 10 {
        assert(is_digit(digit_char(n as int)));
    } else {
        lemma_dec_enc_digits(n / 10);
        assert(is_digit(digit_char((n % 10) as int)));
    }
}

/// Decimal round trip: reading the canonical encoding back gives the number.
pub proof fn lemma_dec_enc_val(n: nat)
    ensures
        dec_val(dec_enc(n)) == n,
    decreases n,
{
    if n < 10 {
        let e = dec_enc(n);
        assert(e =~= seq![digit_char(n as int)]);
        assert(e.drop_last() =~= Seq::<char>::empty());
        assert(dec_val(e) == dec_val(e.drop_last()) * 10 + digit_val(e.last()));
        assert(digit_val(digit_char(n as int)) == n);
    } else {
        lemma_dec_enc_val(n / 10);
        let e = dec_enc(n);
        assert(e.drop_last() =~= dec_enc(n / 10));
        assert(e.last() == digit_char((n % 10) as int));
        assert(digit_val(digit_char((n % 10) as int)) == n % 10);
        assert(dec_val(e) == (n / 10) * 10 + n % 10);
        assert((n / 10) * 10 + n % 10 == n) by (nonlinear_arith);
    }
}

/// Extending a digit string to the right never decreases its value.
proof fn lemma_dec_val_prefix_le(s: Seq<char>, i: int)
    requires
        all_digits(s),
        0 <= i <= s.len(),
    ensures
        dec_val(s.subrange(0, i)) <= dec_val(s),
    decreases s.len() - i,
{
    if i < s.len() {
        let t = s.subrange(0, i + 1);
        let p = s.subrange(0, i);
        assert(t.drop_last() =~= p);
        assert(all_digits(p));
        lemma_dec_val_nonneg(p);
        assert(is_digit(s[i]));
        assert(dec_val(t) == dec_val(p) * 10 + digit_val(s[i]));
        assert(dec_val(p) * 10 >= dec_val(p)) by (nonlinear_arith)
            requires dec_val(p) >= 0;
        lemma_dec_val_prefix_le(s, i + 1);
    } else {
        assert(s.subrange(0, i) =~= s);
    }
}

/// Append the canonical decimal digits of `n` to `out`.
pub(crate) fn append_decimal(n: u64, out: &mut String)
    ensures
        final(out)@ == old(out)@ + dec_enc(n as nat),
    decreases n,
{
    if n < 10 {
        let b: u8 = 48 + (n as u8);
        push_char(out, b as char);
        assert(final(out)@ =~= old(out)@ + dec_enc(n as nat));
    } else {
        append_decimal(n / 10, out);
        let d: u64 = n % 10;
        let b: u8 = 48 + (d as u8);
        push_char(out, b as char);
        assert(final(out)@ =~= old(out)@ + dec_enc(n as nat));
    }
}

/// Render a number as its canonical decimal text.
pub fn u64_to_decimal(n: u64) -> (r: String)
    ensures
        r@ == dec_enc(n as nat),
{
    let mut out = String::new();
    append_decimal(n, &mut out);
    assert(out@ =~= dec_enc(n as nat));
    out
}

/// Parse a bare decimal token. Returns the value exactly when the text is
/// nonempty, all digits, and the value fits in 64 bits; anything else is
/// rejected.
pub fn parse_u64_decimal(s: &str) -> (r: Option<u64>)
    ensures
        match r {
            Some(n) => s@.len() > 0 && all_digits(s@) && dec_val(s@) == n,
            None => s@.len() == 0 || !all_digits(s@) || dec_val(s@) > u64::MAX,
        },
{
    let len = s.unicode_len();
    if len == 0 {
        return None;
    }
    let mut acc: u64 = 0;
    let mut i: usize = 0;
    while i < len
        invariant
            0 <= i <= len,
            len == s@.len(),
            all_digits(s@.subrange(0, i as int)),
            acc == dec_val(s@.subrange(0, i as int)),
        decreases len - i,
    {
        let c = s.get_char(i);
        let v = c as u32;
        if v < 48 || v > 57 {
            assert(!is_digit(s@[i as int]));
            return None;
        }
        let d: u64 = (v - 48) as u64;
        let ghost prefix = s@.subrange(0, i as int);
        let ghost next = s@.subrange(0, i + 1);
        assert(next.drop_last() =~= prefix);
        assert(all_digits(next));
        let shifted = match acc.checked_mul(10) {
            Some(x) => x,
            None => {
                proof {
                    lemma_dec_val_nonneg(prefix);
                    assert(dec_val(next) == dec_val(prefix) * 10 + digit_val(s@[i as int]));
                    assert(dec_val(next) > u64::MAX);
                    if all_digits(s@) {
                        lemma_dec_val_prefix_le(s@, i + 1);
                    }
                }
                return None;
            },
        };
        let total = match shifted.checked_add(d) {
            Some(x) => x,
            None => {
                proof {
                    assert(dec_val(next) == dec_val(prefix) * 10 + digit_val(s@[i as int]));
                    assert(dec_val(next) > u64::MAX);
                    if all_digits(s@) {
                        lemma_dec_val_prefix_le(s@, i + 1);
                    }
                }
                return None;
            },
        };
        proof {
            assert(dec_val(next) == dec_val(prefix) * 10 + digit_val(s@[i as int]));
        }
        acc = total;
        i = i + 1;
    }
    proof {
        assert(s@.subrange(0, len as int) =~= s@);
    }
    Some(acc)
}

/// Monotonically increasing identifier source, owned by its caller.
pub struct IdGen {
    next_value: u64,
}

impl IdGen {
    /// The identifier the next call to `next` will return.
    pub closed spec fn spec_next(&self) -> u64 {
        self.next_value
    }

    /// Start from a persisted seed; a seed of zero falls back to the
    /// initial counter value 1, so identifier 0 is never issued.
    pub fn new(seed: u64) -> (r: Self)
        ensures
            r.spec_next() == if seed == 0 { 1u64 } else { seed },
    {
        IdGen { next_value: if seed == 0 { 1 } else { seed } }
    }

    /// Start from a persisted seed reconciled against the highest
    /// identifier already present in a loaded store: the next identifier
    /// is strictly above both.
    pub fn reconciled(seed: u64, max_used: u64) -> (r: Self)
        requires
            max_used < u64::MAX,
        ensures
            r.spec_next() >= 1,
            r.spec_next() >= seed,
            r.spec_next() > max_used,
    {
        let floor: u64 = if seed == 0 { 1 } else { seed };
        IdGen { next_value: if floor > max_used { floor } else { max_used + 1 } }
    }

    /// Mint the next identifier: returns the current counter and advances it.
    pub fn next(&mut self) -> (r: u64)
        requires
            old(self).spec_next() < u64::MAX,
        ensures
            r == old(self).spec_next(),
            final(self).spec_next() == old(self).spec_next() + 1,
    {
        let r = self.next_value;
        self.next_value = self.next_value + 1;
        r
    }

    /// Current counter value, for persisting.
    pub fn peek(&self) -> (r: u64)
        ensures
            r == self.spec_next(),
    {
        self.next_value
    }

    /// The decimal text that persists this generator's state.
    pub fn counter_text(&self) -> (r: String)
        ensures
            r@ == dec_enc(self.spec_next() as nat),
    {
        u64_to_decimal(self.next_value)
    }

    /// Rebuild a generator from persisted counter text. Malformed text is
    /// rejected, never silently reset.
    pub fn from_counter_text(s: &str) -> (r: Option<IdGen>)
        ensures
            match r {
                Some(g) => {
                    &&& s@.len() > 0
                    &&& all_digits(s@)
                    &&& dec_val(s@) <= u64::MAX
                    &&& g.spec_next() == if dec_val(s@) == 0 { 1int } else { dec_val(s@) }
                },
                None => s@.len() == 0 || !all_digits(s@) || dec_val(s@) > u64::MAX,
            },
    {
        match parse_u64_decimal(s) {
            Some(n) => Some(IdGen::new(n)),
            None => None,
        }
    }
}

/// Uniqueness of generated identifiers: along any run of the generator —
/// `counters[i]` being the counter before the i-th call to `next`, each call
/// returning its counter and advancing it by one — the identifiers handed
/// out are pairwise distinct.
pub proof fn lemma_identifiers_unique(counters: Seq<u64>)
    requires
        forall|i: int| 0 <= i < counters.len() - 1 ==> #[trigger] counters[i + 1] == counters[i] + 1,
    ensures
        forall|i: int, j: int| 0 <= i < j < counters.len() ==> counters[i] != counters[j],
{
    assert forall|i: int, j: int| 0 <= i <= j < counters.len() implies counters[j] == counters[i] + (j - i) by {
        lemma_counter_advances(counters, i, j);
    }
}

proof fn lemma_counter_advances(counters: Seq<u64>, i: int, j: int)
    requires
        forall|i: int| 0 <= i < counters.len() - 1 ==> #[trigger] counters[i + 1] == counters[i] + 1,
        0 <= i <= j < counters.len(),
    ensures
        counters[j] == counters[i] + (j - i),
    decreases j - i,
{
    if i < j {
        lemma_counter_advances(counters, i, j - 1);
        assert(counters[(j - 1) + 1] == counters[j - 1] + 1);
    }
}

} // verus!
