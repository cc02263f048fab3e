use vstd::prelude::*;

verus! {

/// The decimal digit for `d < 10`.
pub open spec fn digit_char(d: nat) -> char {
    if d == 0 { '0' } else if d == 1 { '1' } else if d == 2 { '2' } else if d == 3 { '3' }
    else if d == 4 { '4' } else if d == 5 { '5' } else if d == 6 { '6' } else if d == 7 { '7' }
    else if d == 8 { '8' } else { '9' }
}

/// The decimal digits of `n`, most significant first, without leading zeros.
pub open spec fn decimal_digits(n: nat) -> Seq<char>
    decreases n,
{
    if n < 10 {
        seq![digit_char(n)]
    } else {
        decimal_digits(n / 10).push(digit_char(n % 10))
    }
}

/// Relies on `format!` with `{}{}`: the prefix followed by the decimal
/// digits of `n`.
#[verifier::external_body]
fn prefixed_decimal(prefix: &str, n: u64) -> (r: String)
    ensures
        r@ == prefix@ + decimal_digits(n as nat),
{
    format!("{}{}", prefix, n)
}

/// The id text of the bucket minted with number `n`.
pub open spec fn bucket_id_text(n: u64) -> Seq<char> {
    "rqh_"@ + decimal_digits(n as nat)
}

/// The id text of the evidence record minted with number `n`.
pub open spec fn evidence_id_text(n: u64) -> Seq<char> {
    "evidence_"@ + decimal_digits(n as nat)
}

/// The id text of the bucket minted with number `n`.
pub fn bucket_id(n: u64) -> (r: String)
    ensures
        r@ == bucket_id_text(n),
{
    prefixed_decimal("rqh_", n)
}

/// The id text of the evidence record minted with number `n`.
pub fn evidence_id(n: u64) -> (r: String)
    ensures
        r@ == evidence_id_text(n),
{
    prefixed_decimal("evidence_", n)
}

/// The number issued after `last`.
pub open spec fn issued_after(last: u64) -> int {
    last + 1
}

/// A monotonic counter shared by both record kinds. Its state is the last
/// number issued; resuming from that number never issues it again.
pub struct IdGenerator {
    last: u64,
}

impl View for IdGenerator {
    type V = u64;

    closed spec fn view(&self) -> u64 {
        self.last
    }
}

impl IdGenerator {
    /// A counter that has issued nothing yet.
    pub fn new() -> (r: Self)
        ensures
            r@ == 0,
    {
        IdGenerator { last: 0 }
    }

    /// A counter reloaded from its persisted state, the last number issued.
    pub fn resume(last: u64) -> (r: Self)
        ensures
            r@ == last,
    {
        IdGenerator { last }
    }

    /// The last number issued, which is what is persisted.
    pub fn last_issued(&self) -> (r: u64)
        ensures
            r == self@,
    {
        self.last
    }

    /// Issues the next number.
    pub fn next_id(&mut self) -> (r: u64)
        requires
            old(self)@ < u64::MAX,
        ensures
            r == issued_after(old(self)@),
            final(self)@ == r,
    {
        self.last = self.last + 1;
        self.last
    }
}

/// Numbers come out strictly increasing: the second of two consecutive
/// issues is above the first, also when the counter in between was reloaded
/// from its persisted state.
pub proof fn lemma_ids_strictly_increase(start: u64, first: u64, second: u64)
    requires
        first == issued_after(start),
        second == issued_after(first),
    ensures
        start < first < second,
{
}

} // verus!
