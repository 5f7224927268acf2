//! Bet-size configuration and the per-decision-point action menu: parsing of
//! comma-separated size tokens (percent of pot, fixed chips, all-in), and the
//! deterministic construction of the ordered legal action list under the
//! add-all-in, force-all-in and merging policy thresholds.
use vstd::prelude::*;

verus! {

use vstd::string::{StringExecFns, StrSliceExecFns};
use crate::SolverError;
use crate::range::{spec_tok_end, lemma_tok_end, spec_digit_val, digit_val};

/// Upper bound on chip amounts the library accepts: its declared resource
/// bound. Tree depth (and so tree size) grows with the number of raises a
/// stack allows, and every fixed-point product in the query layer is sized
/// against this constant; a million chips is three orders of magnitude
/// beyond a deep tournament stack in big blinds. A pot or stack above it is
/// rejected as a configuration error at construction, never clamped.
pub const MAX_CHIPS: u64 = 1000000;

/// An all-in is added beside configured sizes only when it exceeds 3/2 of the
/// largest regular size.
pub const ADD_ALLIN_NUM: u64 = 3;

pub const ADD_ALLIN_DEN: u64 = 2;

/// A size exceeding 3/20 of the remaining stack is replaced by all-in.
pub const FORCE_ALLIN_NUM: u64 = 3;

pub const FORCE_ALLIN_DEN: u64 = 20;

/// Two sizes within 1/10 of one another are merged into one.
pub const MERGE_NUM: u64 = 1;

pub const MERGE_DEN: u64 = 10;

/// One configured bet or raise sizing.
#[derive(Clone, Copy, Debug, PartialEq, Eq, Structural)]
pub enum BetSize {
    /// Percentage of the pot, 1..=10000.
    PctPot(u32),
    /// Fixed chip amount, 1..=MAX_CHIPS.
    Chips(u32),
    /// The whole remaining stack.
    AllIn,
}

pub open spec fn size_wf(s: BetSize) -> bool {
    match s {
        BetSize::PctPot(p) => 1 <= p <= 10000,
        BetSize::Chips(n) => 1 <= n <= MAX_CHIPS,
        BetSize::AllIn => true,
    }
}

/// Numeric value of a digit string (most significant first).
pub open spec fn spec_digits_val(d: Seq<char>) -> Option<nat>
    decreases d.len(),
{
    if d.len() == 0 {
        None
    } else if d.len() == 1 {
        match spec_digit_val(d[0]) {
            Some(x) => Some(x as nat),
            None => None,
        }
    } else {
        match (spec_digits_val(d.drop_last()), spec_digit_val(d.last())) {
            (Some(v), Some(x)) => Some((v * 10 + x) as nat),
            _ => None,
        }
    }
}

/// Compute the value of a digit string of at most 7 digits.
fn digits_val_of(v: &Vec<char>, i: usize, j: usize) -> (r: Option<u64>)
    requires
        i <= j <= v@.len(),
        j - i <= 7,
    ensures
        match r {
            Some(x) => Some(x as nat) == spec_digits_val(v@.subrange(i as int, j as int)) && x
                < 10000000,
            None => spec_digits_val(v@.subrange(i as int, j as int)) is None,
        },
{
    if i == j {
        return None;
    }
    let mut acc: u64 = 0;
    let mut k: usize = i;
    loop
        invariant
            i <= k <= j <= v@.len(),
            i < j,
            j - i <= 7,
            k > i ==> Some(acc as nat) == spec_digits_val(v@.subrange(i as int, k as int)),
            k == i ==> acc == 0,
            acc < 10000000,
            acc < if k > i { pow10((k - i) as nat) } else { 1 },
        decreases j - k,
    {
        if k == j {
            return Some(acc);
        }
        match digit_val(v[k]) {
            None => {
                proof {
                    lemma_digits_prefix_none(v@.subrange(i as int, j as int), k - i);
                }
                return None;
            },
            Some(x) => {
                proof {
                    let pre = v@.subrange(i as int, k as int + 1);
                    assert(pre.drop_last() =~= v@.subrange(i as int, k as int));
                    assert(pre.last() == v@[k as int]);
                    lemma_pow10_mono((k - i) as nat, (k + 1 - i) as nat);
                }
                acc = acc * 10 + (x as u64);
                k = k + 1;
            },
        }
    }
}

/// Ten to the power `n`.
pub open spec fn pow10(n: nat) -> nat
    decreases n,
{
    if n == 0 {
        1
    } else {
        10 * pow10((n - 1) as nat)
    }
}

proof fn lemma_pow10_mono(a: nat, b: nat)
    requires
        a <= b <= 7,
    ensures
        pow10(a) <= pow10(b) <= 10000000,
    decreases b,
{
    assert(pow10(0) == 1);
    assert(pow10(1) == 10);
    assert(pow10(2) == 100);
    assert(pow10(3) == 1000);
    assert(pow10(4) == 10000);
    assert(pow10(5) == 100000);
    assert(pow10(6) == 1000000);
    assert(pow10(7) == 10000000);
    if a < b {
        lemma_pow10_mono(a, (b - 1) as nat);
    }
}

/// If some digit in a string is malformed, the whole string has no value.
proof fn lemma_digits_prefix_none(d: Seq<char>, k: int)
    requires
        0 <= k < d.len(),
        spec_digit_val(d[k]) is None,
    ensures
        spec_digits_val(d) is None,
    decreases d.len(),
{
    if d.len() > 1 && k < d.len() - 1 {
        lemma_digits_prefix_none(d.drop_last(), k);
    }
}

/// The size denoted by one comma-free token: "a"/"allin", "NN%" or "NN".
pub open spec fn spec_size_token(t: Seq<char>) -> Option<BetSize> {
    if t.len() == 1 && t[0] == 'a' {
        Some(BetSize::AllIn)
    } else if t.len() == 5 && t[0] == 'a' && t[1] == 'l' && t[2] == 'l' && t[3] == 'i' && t[4]
        == 'n' {
        Some(BetSize::AllIn)
    } else if t.len() >= 2 && t.last() == '%' && t.len() <= 6 {
        match spec_digits_val(t.subrange(0, t.len() - 1)) {
            Some(v) => if 1 <= v <= 10000 {
                Some(BetSize::PctPot(v as u32))
            } else {
                None
            },
            None => None,
        }
    } else if 1 <= t.len() <= 7 {
        match spec_digits_val(t) {
            Some(v) => if 1 <= v <= MAX_CHIPS {
                Some(BetSize::Chips(v as u32))
            } else {
                None
            },
            None => None,
        }
    } else {
        None
    }
}

fn size_token_of(v: &Vec<char>, i: usize, j: usize) -> (r: Option<BetSize>)
    requires
        i <= j <= v@.len(),
    ensures
        r == spec_size_token(v@.subrange(i as int, j as int)),
{
    proof {
        let t = v@.subrange(i as int, j as int);
        assert forall|k: int| 0 <= k < t.len() implies t[k] == v@[i + k] by {}
    }
    let len = j - i;
    if len == 1 && v[i] == 'a' {
        Some(BetSize::AllIn)
    } else if len == 5 && v[i] == 'a' && v[i + 1] == 'l' && v[i + 2] == 'l' && v[i + 3] == 'i' && v[i
        + 4] == 'n' {
        Some(BetSize::AllIn)
    } else if len >= 2 && v[j - 1] == '%' && len <= 6 {
        proof {
            let t = v@.subrange(i as int, j as int);
            assert(t.last() == v@[j - 1]);
            assert(t.subrange(0, t.len() - 1) =~= v@.subrange(i as int, j - 1));
        }
        match digits_val_of(v, i, j - 1) {
            Some(x) => if 1 <= x && x <= 10000 {
                Some(BetSize::PctPot(x as u32))
            } else {
                None
            },
            None => None,
        }
    } else if 1 <= len && len <= 7 {
        proof {
            let t = v@.subrange(i as int, j as int);
            if t.len() >= 2 && t.last() == '%' {
                assert(v@[j - 1] == '%');
            }
        }
        match digits_val_of(v, i, j) {
            Some(x) => if 1 <= x && x <= MAX_CHIPS {
                Some(BetSize::Chips(x as u32))
            } else {
                None
            },
            None => None,
        }
    } else {
        None
    }
}

/// The size list denoted by size text from position `i` on.
pub open spec fn spec_sizes_from(s: Seq<char>, i: int) -> Option<Seq<BetSize>>
    decreases s.len() - i,
    when 0 <= i <= s.len()
{
    if i == s.len() {
        Some(Seq::empty())
    } else {
        let j0 = spec_tok_end(s, i);
        let j = if i <= j0 <= s.len() {
            j0
        } else {
            i
        };
        match spec_size_token(s.subrange(i, j)) {
            None => None,
            Some(t) => {
                let nxt = if j < s.len() {
                    j + 1
                } else {
                    j
                };
                if nxt > i {
                    match spec_sizes_from(s, nxt) {
                        Some(rest) => Some(seq![t] + rest),
                        None => None,
                    }
                } else {
                    None
                }
            },
        }
    }
}

/// Parse a comma-separated bet-size list such as "50%,125%,allin".
pub fn parse_sizes(s: &str) -> (r: Result<Vec<BetSize>, SolverError>)
    ensures
        r is Ok <==> spec_sizes_from(s@, 0) is Some,
        r matches Ok(sz) ==> Some(sz@) == spec_sizes_from(s@, 0) && (forall|k: int|
            0 <= k < sz@.len() ==> size_wf(#[trigger] sz@[k])),
        r matches Err(e) ==> e matches SolverError::Parse { .. },
{
    let v = crate::card::chars_of(s);
    let n = v.len();
    let mut acc: Vec<BetSize> = Vec::new();
    let mut i: usize = 0;
    loop
        invariant
            i <= n,
            n == s@.len(),
            v@ == s@,
            forall|k: int| 0 <= k < acc@.len() ==> size_wf(#[trigger] acc@[k]),
            match spec_sizes_from(s@, i as int) {
                Some(rest) => spec_sizes_from(s@, 0) == Some(acc@ + rest),
                None => spec_sizes_from(s@, 0) is None,
            },
        decreases n - i,
    {
        if i == n {
            proof {
                assert(spec_sizes_from(s@, i as int) == Some(Seq::<BetSize>::empty()));
                assert(acc@ + Seq::<BetSize>::empty() =~= acc@);
            }
            return Ok(acc);
        }
        let mut j: usize = i;
        while j < n && v[j] != ','
            invariant
                i <= j <= n,
                n == v@.len(),
                forall|k: int| i <= k < j ==> v@[k] != ',',
            decreases n - j,
        {
            j = j + 1;
        }
        proof {
            lemma_tok_end(s@, i as int);
            let je = spec_tok_end(s@, i as int);
            if j < je {
                assert(s@[j as int] == ',');
                assert(false);
            }
            if je < j {
                assert(s@[je] == ',');
                assert(v@[je] != ',');
                assert(false);
            }
            assert(j == je);
        }
        let t = size_token_of(&v, i, j);
        match t {
            None => {
                let tok_text = s.substring_char(i, j);
                return Err(
                    SolverError::Parse {
                        argument: String::from_str("sizes"),
                        token: String::from_str(tok_text),
                    },
                );
            },
            Some(tk) => {
                let ghost old_acc = acc@;
                acc.push(tk);
                let nxt: usize = if j < n {
                    j + 1
                } else {
                    j
                };
                proof {
                    let rest_opt = spec_sizes_from(s@, nxt as int);
                    if rest_opt is Some {
                        assert(old_acc + (seq![tk] + rest_opt->Some_0) =~= acc@
                            + rest_opt->Some_0);
                    }
                }
                i = nxt;
            },
        }
    }
}

/// Bet sizes for an opening bet and for raises, shared by all streets.
pub struct BetSizeOptions {
    pub bet: Vec<BetSize>,
    pub raise: Vec<BetSize>,
}

/// Most sizes a configuration may declare per list.
pub const MAX_SIZES: usize = 30;

impl BetSizeOptions {
    pub open spec fn wf(&self) -> bool {
        &&& forall|k: int| 0 <= k < self.bet@.len() ==> size_wf(#[trigger] self.bet@[k])
        &&& forall|k: int| 0 <= k < self.raise@.len() ==> size_wf(#[trigger] self.raise@[k])
        &&& self.bet@.len() <= MAX_SIZES
        &&& self.raise@.len() <= MAX_SIZES
    }

    /// Parse bet and raise size lists; each may declare at most `MAX_SIZES`
    /// sizes.
    pub fn parse(bet: &str, raise: &str) -> (r: Result<BetSizeOptions, SolverError>)
        ensures
            r is Ok <==> (spec_sizes_from(bet@, 0) is Some && spec_sizes_from(raise@, 0) is Some
                && spec_sizes_from(bet@, 0)->Some_0.len() <= MAX_SIZES && spec_sizes_from(
                raise@,
                0,
            )->Some_0.len() <= MAX_SIZES),
            r matches Ok(o) ==> Some(o.bet@) == spec_sizes_from(bet@, 0) && Some(o.raise@)
                == spec_sizes_from(raise@, 0) && o.wf(),
            r matches Err(e) ==> e matches SolverError::Parse { .. },
    {
        let b = parse_sizes(bet)?;
        let rz = parse_sizes(raise)?;
        if b.len() > MAX_SIZES {
            return Err(
                SolverError::Parse {
                    argument: String::from_str("bet sizes"),
                    token: String::from_str(bet),
                },
            );
        }
        if rz.len() > MAX_SIZES {
            return Err(
                SolverError::Parse {
                    argument: String::from_str("raise sizes"),
                    token: String::from_str(raise),
                },
            );
        }
        Ok(BetSizeOptions { bet: b, raise: rz })
    }
}

/// One legal action at a decision point. Chip amounts on `Bet` and `Raise`
/// are the chips added beyond calling; `AllIn` carries the whole remaining
/// amount.
#[derive(Clone, Copy, Debug, PartialEq, Eq, Structural)]
pub enum Action {
    Fold,
    Check,
    Call,
    Bet(u64),
    Raise(u64),
    AllIn(u64),
}

/// Whether two candidate amounts fall within the merging threshold of one
/// another (the larger at most 1 + 1/10 times the smaller).
pub open spec fn spec_close(x: u64, y: u64) -> bool {
    let lo = if x <= y {
        x
    } else {
        y
    };
    let hi = if x <= y {
        y
    } else {
        x
    };
    hi * MERGE_DEN <= lo * (MERGE_DEN + MERGE_NUM)
}

fn exec_close(x: u64, y: u64) -> (r: bool)
    requires
        x <= MAX_CHIPS,
        y <= MAX_CHIPS,
    ensures
        r == spec_close(x, y),
{
    let lo = if x <= y {
        x
    } else {
        y
    };
    let hi = if x <= y {
        y
    } else {
        x
    };
    proof {
        assert(lo <= 1000000);
        assert(hi <= 1000000);
    }
    hi * MERGE_DEN <= lo * (MERGE_DEN + MERGE_NUM)
}

/// Chip amount of one configured size: percent of pot or fixed chips, raised
/// to the minimum, clamped to the remaining stack, and replaced by all-in
/// when it exceeds the force-all-in fraction of the remaining stack.
pub open spec fn spec_size_amount(sz: BetSize, pot: u64, cap: u64, minimum: u64) -> u64 {
    let base: int = match sz {
        BetSize::PctPot(p) => (pot * p) as int / 100,
        BetSize::Chips(n) => n as int,
        BetSize::AllIn => cap as int,
    };
    let m: int = if base < minimum {
        minimum as int
    } else {
        base
    };
    let c: int = if m > cap {
        cap as int
    } else {
        m
    };
    if c * FORCE_ALLIN_DEN > cap * FORCE_ALLIN_NUM {
        cap
    } else {
        c as u64
    }
}

fn exec_size_amount(sz: BetSize, pot: u64, cap: u64, minimum: u64) -> (r: u64)
    requires
        size_wf(sz),
        pot <= 3 * MAX_CHIPS,
        cap <= MAX_CHIPS,
        minimum <= cap,
    ensures
        r == spec_size_amount(sz, pot, cap, minimum),
        r <= cap,
{
    proof {
        assert(pot <= 3000000);
    }
    let base: u64 = match sz {
        BetSize::PctPot(p) => {
            proof {
                assert((pot as int) * (p as int) <= 30000000000int) by (nonlinear_arith)
                    requires
                        pot <= 3000000,
                        p <= 10000,
                ;
            }
            pot * (p as u64) / 100
        },
        BetSize::Chips(n) => n as u64,
        BetSize::AllIn => cap,
    };
    let m: u64 = if base < minimum {
        minimum
    } else {
        base
    };
    let c: u64 = if m > cap {
        cap
    } else {
        m
    };
    if c * FORCE_ALLIN_DEN > cap * FORCE_ALLIN_NUM {
        cap
    } else {
        c
    }
}

/// Insert amount `x` into the ascending candidate list `s` from position `i`
/// on, dropping exact duplicates: the candidate set is independent of the
/// order the sizes were declared in.
pub open spec fn spec_insert_from(s: Seq<u64>, i: int, x: u64) -> Seq<u64>
    decreases s.len() - i,
    when 0 <= i <= s.len()
{
    if i >= s.len() {
        seq![x]
    } else if x == s[i] {
        s.subrange(i, s.len() as int)
    } else if x < s[i] {
        seq![x] + s.subrange(i, s.len() as int)
    } else {
        seq![s[i]] + spec_insert_from(s, i + 1, x)
    }
}

proof fn lemma_insert_bounds(s: Seq<u64>, i: int, x: u64, m: u64)
    requires
        0 <= i <= s.len(),
        x <= m,
        forall|k: int| i <= k < s.len() ==> s[k] <= m,
    ensures
        forall|k: int| 0 <= k < spec_insert_from(s, i, x).len() ==> spec_insert_from(s, i, x)[k]
            <= m,
    decreases s.len() - i,
{
    if i >= s.len() {
    } else if x == s[i] {
        assert forall|k: int|
            0 <= k < spec_insert_from(s, i, x).len() implies spec_insert_from(s, i, x)[k]
            <= m by {
            assert(spec_insert_from(s, i, x)[k] == s[i + k]);
        }
    } else if x < s[i] {
        assert forall|k: int|
            0 <= k < spec_insert_from(s, i, x).len() implies spec_insert_from(s, i, x)[k]
            <= m by {
            if k > 0 {
                assert(spec_insert_from(s, i, x)[k] == s[i + k - 1]);
            }
        }
    } else {
        lemma_insert_bounds(s, i + 1, x, m);
        assert forall|k: int|
            0 <= k < spec_insert_from(s, i, x).len() implies spec_insert_from(s, i, x)[k]
            <= m by {
            if k > 0 {
                assert(spec_insert_from(s, i, x)[k] == spec_insert_from(s, i + 1, x)[k - 1]);
            }
        }
    }
}

fn copy_suffix(s: &Vec<u64>, i: usize, out: &mut Vec<u64>)
    requires
        i <= s@.len(),
    ensures
        final(out)@ == old(out)@ + s@.subrange(i as int, s@.len() as int),
{
    let mut k: usize = i;
    let n = s.len();
    proof {
        assert(out@ =~= out@ + s@.subrange(i as int, i as int));
    }
    while k < n
        invariant
            i <= k <= n,
            n == s@.len(),
            out@ == old(out)@ + s@.subrange(i as int, k as int),
        decreases n - k,
    {
        out.push(s[k]);
        k = k + 1;
        proof {
            assert(out@ =~= old(out)@ + s@.subrange(i as int, k as int));
        }
    }
}

fn insert_amt(s: &Vec<u64>, x: u64) -> (r: Vec<u64>)
    requires
        x <= MAX_CHIPS,
        forall|k: int| 0 <= k < s@.len() ==> s@[k] <= MAX_CHIPS,
    ensures
        r@ == spec_insert_from(s@, 0, x),
    decreases s@.len(),
{
    let n = s.len();
    let mut k: usize = 0;
    while k < n && s[k] < x
        invariant
            0 <= k <= n,
            n == s@.len(),
            x <= MAX_CHIPS,
            forall|j: int| 0 <= j < s@.len() ==> s@[j] <= MAX_CHIPS,
            forall|j: int| 0 <= j < k ==> s@[j] < x,
            spec_insert_from(s@, 0, x) == s@.subrange(0, k as int) + spec_insert_from(
                s@,
                k as int,
                x,
            ),
        decreases n - k,
    {
        proof {
            let pre = s@.subrange(0, k as int);
            let post = s@.subrange(0, k as int + 1);
            assert(spec_insert_from(s@, k as int, x) == seq![s@[k as int]] + spec_insert_from(
                s@,
                k as int + 1,
                x,
            ));
            assert(pre + (seq![s@[k as int]] + spec_insert_from(s@, k as int + 1, x)) =~= post
                + spec_insert_from(s@, k as int + 1, x));
        }
        k = k + 1;
    }
    let mut out: Vec<u64> = Vec::new();
    copy_suffix(s, 0, &mut out);
    proof {
        assert(out@ =~= s@);
    }
    if k == n {
        out.push(x);
        proof {
            assert(spec_insert_from(s@, k as int, x) == seq![x]);
            assert(s@.subrange(0, k as int) =~= s@);
            assert(out@ =~= s@.subrange(0, k as int) + seq![x]);
        }
        out
    } else if s[k] == x {
        proof {
            assert(spec_insert_from(s@, k as int, x) == s@.subrange(k as int, s@.len() as int));
            assert(out@ =~= s@.subrange(0, k as int) + s@.subrange(k as int, s@.len() as int));
        }
        out
    } else {
        let mut out2: Vec<u64> = Vec::new();
        copy_suffix(s, 0, &mut out2);
        out2.truncate(k);
        proof {
            assert(out2@ =~= s@.subrange(0, k as int));
        }
        out2.push(x);
        copy_suffix(s, k, &mut out2);
        proof {
            assert(x < s@[k as int]);
            assert(spec_insert_from(s@, k as int, x) == seq![x] + s@.subrange(
                k as int,
                s@.len() as int,
            ));
            assert(out2@ =~= s@.subrange(0, k as int) + (seq![x] + s@.subrange(
                k as int,
                s@.len() as int,
            )));
        }
        out2
    }
}

/// Candidate amounts of the first `k` configured sizes, in ascending order\n/// without duplicates.
pub open spec fn spec_cands(
    sizes: Seq<BetSize>,
    k: int,
    pot: u64,
    cap: u64,
    minimum: u64,
) -> Seq<u64>
    decreases k,
    when 0 <= k <= sizes.len()
{
    if k == 0 {
        Seq::empty()
    } else {
        spec_insert_from(
            spec_cands(sizes, k - 1, pot, cap, minimum),
            0,
            spec_size_amount(sizes[k - 1], pot, cap, minimum),
        )
    }
}

proof fn lemma_cands_bounds(sizes: Seq<BetSize>, k: int, pot: u64, cap: u64, minimum: u64)
    requires
        0 <= k <= sizes.len(),
        cap <= MAX_CHIPS,
        minimum <= cap,
        forall|j: int| 0 <= j < sizes.len() ==> size_wf(#[trigger] sizes[j]),
    ensures
        forall|j: int|
            0 <= j < spec_cands(sizes, k, pot, cap, minimum).len() ==> spec_cands(
                sizes,
                k,
                pot,
                cap,
                minimum,
            )[j] <= MAX_CHIPS,
    decreases k,
{
    if k > 0 {
        lemma_cands_bounds(sizes, k - 1, pot, cap, minimum);
        let amt = spec_size_amount(sizes[k - 1], pot, cap, minimum);
        assert(amt <= cap);
        lemma_insert_bounds(spec_cands(sizes, k - 1, pot, cap, minimum), 0, amt, MAX_CHIPS);
    }
}

/// First position at or after `j` whose candidate is not within the
/// merging threshold of candidate `i`.
pub open spec fn spec_skip_close(s: Seq<u64>, i: int, j: int) -> int
    decreases s.len() - j,
    when 0 <= j <= s.len()
{
    if j >= s.len() || !spec_close(s[i], s[j]) {
        j
    } else {
        let j2 = spec_skip_close(s, i, j + 1);
        if j + 1 <= j2 <= s.len() {
            j2
        } else {
            j + 1
        }
    }
}

pub proof fn lemma_skip_close(s: Seq<u64>, i: int, j: int)
    requires
        0 <= j <= s.len(),
    ensures
        j <= spec_skip_close(s, i, j) <= s.len(),
        spec_skip_close(s, i, j) == s.len() || !spec_close(s[i], s[spec_skip_close(s, i, j)]),
        forall|k: int| j <= k < spec_skip_close(s, i, j) ==> spec_close(s[i], #[trigger] s[k]),
    decreases s.len() - j,
{
    if j >= s.len() || !spec_close(s[i], s[j]) {
    } else {
        lemma_skip_close(s, i, j + 1);
    }
}

/// Merge the ascending candidate list from position `i` on: keep a
/// candidate, drop every following candidate within the merging threshold
/// of it, and continue from the first that is not. Keeping the smaller of
/// two close sizes makes the menu independent of declaration order.
pub open spec fn spec_merge_from(s: Seq<u64>, i: int) -> Seq<u64>
    decreases s.len() - i,
    when 0 <= i <= s.len()
{
    if i >= s.len() {
        Seq::empty()
    } else {
        let j0 = spec_skip_close(s, i, i + 1);
        let j = if i + 1 <= j0 <= s.len() {
            j0
        } else {
            i + 1
        };
        seq![s[i]] + spec_merge_from(s, j)
    }
}

proof fn lemma_merge_bounds(s: Seq<u64>, i: int, m: u64)
    requires
        0 <= i <= s.len(),
        forall|k: int| 0 <= k < s.len() ==> s[k] <= m,
    ensures
        forall|k: int|
            0 <= k < spec_merge_from(s, i).len() ==> #[trigger] spec_merge_from(s, i)[k] <= m,
    decreases s.len() - i,
{
    if i < s.len() {
        lemma_skip_close(s, i, i + 1);
        let j = spec_skip_close(s, i, i + 1);
        lemma_merge_bounds(s, j, m);
        assert forall|k: int|
            0 <= k < spec_merge_from(s, i).len() implies #[trigger] spec_merge_from(s, i)[k]
            <= m by {
            if k > 0 {
                assert(spec_merge_from(s, i)[k] == spec_merge_from(s, j)[k - 1]);
            }
        }
    }
}

proof fn lemma_merge_len(s: Seq<u64>, i: int)
    requires
        0 <= i <= s.len(),
    ensures
        spec_merge_from(s, i).len() <= s.len() - i,
    decreases s.len() - i,
{
    if i < s.len() {
        lemma_skip_close(s, i, i + 1);
        lemma_merge_len(s, spec_skip_close(s, i, i + 1));
    }
}

/// The regular (below all-in) candidates, in order.
pub open spec fn spec_regs(c: Seq<u64>, i: int, cap: u64) -> Seq<u64>
    decreases c.len() - i,
    when 0 <= i <= c.len()
{
    if i >= c.len() {
        Seq::empty()
    } else if 0 < c[i] < cap {
        seq![c[i]] + spec_regs(c, i + 1, cap)
    } else {
        spec_regs(c, i + 1, cap)
    }
}

/// Largest regular candidate.
pub open spec fn spec_max_amt(c: Seq<u64>) -> u64
    decreases c.len(),
{
    if c.len() == 0 {
        0
    } else if c.first() > spec_max_amt(c.drop_first()) {
        c.first()
    } else {
        spec_max_amt(c.drop_first())
    }
}

/// The ordered action menu at a decision point: Fold and Call when facing a
/// bet, otherwise Check; then the regular bet or raise amounts, ascending,
/// merged so that of two sizes within the merging threshold only the
/// smaller stays (a canonical choice, independent of declaration order);
/// then all-in when a configured candidate reached the stack, no regular
/// size exists, or the stack exceeds the add-all-in multiple of the largest
/// regular size.
pub open spec fn spec_action_menu(
    sizes: Seq<BetSize>,
    to_call: u64,
    pot: u64,
    cap: u64,
) -> Seq<Action> {
    let base: Seq<Action> = if to_call > 0 {
        seq![Action::Fold, Action::Call]
    } else {
        seq![Action::Check]
    };
    if cap == 0 {
        base
    } else {
        let minimum = spec_menu_minimum(to_call, cap);
        let cands = spec_cands(sizes, sizes.len() as int, pot, cap, minimum);
        let merged = spec_merge_from(cands, 0);
        let regs = spec_regs(merged, 0, cap);
        let wrapped = Seq::new(
            regs.len(),
            |i: int|
                if to_call > 0 {
                    Action::Raise(regs[i])
                } else {
                    Action::Bet(regs[i])
                },
        );
        let maxr = spec_max_amt(regs);
        let add = cands.contains(cap) || regs.len() == 0 || cap * ADD_ALLIN_DEN > maxr
            * ADD_ALLIN_NUM;
        if add {
            base + wrapped + seq![Action::AllIn(cap)]
        } else {
            base + wrapped
        }
    }
}

/// Minimum additional amount of a bet or raise: the amount faced, at least
/// one chip, clamped to the remaining stack.
pub open spec fn spec_menu_minimum(to_call: u64, cap: u64) -> u64 {
    let m = if to_call > 0 {
        to_call
    } else {
        1
    };
    if m > cap {
        cap
    } else {
        m
    }
}

proof fn lemma_insert_len(s: Seq<u64>, i: int, x: u64)
    requires
        0 <= i <= s.len(),
    ensures
        spec_insert_from(s, i, x).len() <= s.len() - i + 1,
    decreases s.len() - i,
{
    if i >= s.len() {
    } else if x == s[i] {
    } else if x < s[i] {
    } else {
        lemma_insert_len(s, i + 1, x);
    }
}

proof fn lemma_cands_len(sizes: Seq<BetSize>, k: int, pot: u64, cap: u64, minimum: u64)
    requires
        0 <= k <= sizes.len(),
    ensures
        spec_cands(sizes, k, pot, cap, minimum).len() <= k,
    decreases k,
{
    if k > 0 {
        lemma_cands_len(sizes, k - 1, pot, cap, minimum);
        lemma_insert_len(
            spec_cands(sizes, k - 1, pot, cap, minimum),
            0,
            spec_size_amount(sizes[k - 1], pot, cap, minimum),
        );
    }
}

proof fn lemma_regs_len(c: Seq<u64>, i: int, cap: u64)
    requires
        0 <= i <= c.len(),
    ensures
        spec_regs(c, i, cap).len() <= c.len() - i,
    decreases c.len() - i,
{
    if i < c.len() {
        lemma_regs_len(c, i + 1, cap);
    }
}

/// The menu never holds more than the declared sizes plus fold, call (or
/// check) and all-in.
pub proof fn lemma_menu_len(sizes: Seq<BetSize>, to_call: u64, pot: u64, cap: u64)
    ensures
        spec_action_menu(sizes, to_call, pot, cap).len() <= sizes.len() + 3,
{
    if cap != 0 {
        let minimum = spec_menu_minimum(to_call, cap);
        let cands = spec_cands(sizes, sizes.len() as int, pot, cap, minimum);
        let merged = spec_merge_from(cands, 0);
        lemma_cands_len(sizes, sizes.len() as int, pot, cap, minimum);
        lemma_merge_len(cands, 0);
        lemma_regs_len(merged, 0, cap);
    }
}

proof fn lemma_regs_elems(c: Seq<u64>, i: int, cap: u64)
    requires
        0 <= i <= c.len(),
    ensures
        forall|k: int|
            0 <= k < spec_regs(c, i, cap).len() ==> 0 < #[trigger] spec_regs(c, i, cap)[k] < cap,
    decreases c.len() - i,
{
    if i >= c.len() {
    } else {
        lemma_regs_elems(c, i + 1, cap);
        if 0 < c[i] < cap {
            assert forall|k: int|
                0 <= k < spec_regs(c, i, cap).len() implies 0 < #[trigger] spec_regs(
                c,
                i,
                cap,
            )[k] < cap by {
                if k > 0 {
                    assert(spec_regs(c, i, cap)[k] == spec_regs(c, i + 1, cap)[k - 1]);
                }
            }
        }
    }
}

/// Every action in a menu is consistent with the state it was built for:
/// Fold and Call appear exactly when facing a bet, Check when not; bet and
/// raise amounts are positive and below the stack; all-in carries the stack.
pub proof fn lemma_menu_shape(sizes: Seq<BetSize>, to_call: u64, pot: u64, cap: u64)
    ensures
        forall|k: int|
            0 <= k < spec_action_menu(sizes, to_call, pot, cap).len() ==> {
                let a = #[trigger] spec_action_menu(sizes, to_call, pot, cap)[k];
                &&& (a matches Action::Bet(x) ==> to_call == 0 && 1 <= x < cap)
                &&& (a matches Action::Raise(x) ==> to_call > 0 && 1 <= x < cap)
                &&& (a matches Action::AllIn(x) ==> x == cap && cap >= 1)
                &&& (a == Action::Check ==> to_call == 0)
                &&& (a == Action::Call ==> to_call > 0)
                &&& (a == Action::Fold ==> to_call > 0)
            },
{
    let m = spec_action_menu(sizes, to_call, pot, cap);
    let base: Seq<Action> = if to_call > 0 {
        seq![Action::Fold, Action::Call]
    } else {
        seq![Action::Check]
    };
    if cap == 0 {
        assert(m == base);
    } else {
        let minimum = spec_menu_minimum(to_call, cap);
        let cands = spec_cands(sizes, sizes.len() as int, pot, cap, minimum);
        let merged = spec_merge_from(cands, 0);
        let regs = spec_regs(merged, 0, cap);
        lemma_regs_elems(merged, 0, cap);
        let wrapped = Seq::new(
            regs.len(),
            |i: int|
                if to_call > 0 {
                    Action::Raise(regs[i])
                } else {
                    Action::Bet(regs[i])
                },
        );
        assert forall|k: int| 0 <= k < m.len() implies {
            let a = #[trigger] m[k];
            &&& (a matches Action::Bet(x) ==> to_call == 0 && 1 <= x < cap)
            &&& (a matches Action::Raise(x) ==> to_call > 0 && 1 <= x < cap)
            &&& (a matches Action::AllIn(x) ==> x == cap && cap >= 1)
            &&& (a == Action::Check ==> to_call == 0)
            &&& (a == Action::Call ==> to_call > 0)
            &&& (a == Action::Fold ==> to_call > 0)
        } by {
            if k < base.len() {
                assert(m[k] == base[k]);
            } else if k < base.len() + wrapped.len() {
                assert(m[k] == wrapped[k - base.len()]);
                assert(0 < regs[k - base.len()] < cap);
            } else {
                assert(m[k] == Action::AllIn(cap));
            }
        }
    }
}

/// Build the ordered action menu for one decision point. `to_call` is the
/// amount needed to call (zero when not facing a bet), `pot` the pot after a
/// call, `cap` the chips left behind after calling.
pub fn action_menu(sizes: &Vec<BetSize>, to_call: u64, pot: u64, cap: u64) -> (r: Vec<Action>)
    requires
        forall|j: int| 0 <= j < sizes@.len() ==> size_wf(#[trigger] sizes@[j]),
        pot <= 3 * MAX_CHIPS,
        cap <= MAX_CHIPS,
        to_call <= MAX_CHIPS,
    ensures
        r@ == spec_action_menu(sizes@, to_call, pot, cap),
        r@.len() >= 1,
{
    let mut base: Vec<Action> = Vec::new();
    if to_call > 0 {
        base.push(Action::Fold);
        base.push(Action::Call);
    } else {
        base.push(Action::Check);
    }
    proof {
        if to_call > 0 {
            assert(base@ =~= seq![Action::Fold, Action::Call]);
        } else {
            assert(base@ =~= seq![Action::Check]);
        }
    }
    if cap == 0 {
        return base;
    }
    let m0: u64 = if to_call > 0 {
        to_call
    } else {
        1
    };
    let minimum: u64 = if m0 > cap {
        cap
    } else {
        m0
    };
    proof {
        assert(minimum == spec_menu_minimum(to_call, cap));
    }
    let nsz = sizes.len();
    let mut cands: Vec<u64> = Vec::new();
    let mut k: usize = 0;
    proof {
        assert(cands@ =~= spec_cands(sizes@, 0, pot, cap, minimum));
    }
    while k < nsz
        invariant
            0 <= k <= nsz,
            nsz == sizes@.len(),
            forall|j: int| 0 <= j < sizes@.len() ==> size_wf(#[trigger] sizes@[j]),
            pot <= 3 * MAX_CHIPS,
            cap <= MAX_CHIPS,
            minimum <= cap,
            cands@ == spec_cands(sizes@, k as int, pot, cap, minimum),
            forall|j: int| 0 <= j < cands@.len() ==> cands@[j] <= MAX_CHIPS,
        decreases nsz - k,
    {
        let amt = exec_size_amount(sizes[k], pot, cap, minimum);
        cands = insert_amt(&cands, amt);
        proof {
            lemma_insert_bounds(
                spec_cands(sizes@, k as int, pot, cap, minimum),
                0,
                amt,
                MAX_CHIPS,
            );
        }
        k = k + 1;
    }
    // whether any configured candidate reached the stack, checked before
    // merging so that an explicit all-in is never merged away
    let nc0 = cands.len();
    let mut has_cap = false;
    let mut p: usize = 0;
    while p < nc0
        invariant
            0 <= p <= nc0,
            nc0 == cands@.len(),
            has_cap == (exists|j: int| 0 <= j < p && cands@[j] == cap),
        decreases nc0 - p,
    {
        if cands[p] == cap {
            has_cap = true;
        }
        p = p + 1;
    }
    proof {
        if has_cap {
            let j = choose|j: int| 0 <= j < p && cands@[j] == cap;
            assert(cands@[j] == cap);
            assert(cands@.contains(cap));
        }
        if cands@.contains(cap) {
            let j = choose|j: int| 0 <= j < cands@.len() && cands@[j] == cap;
            assert(0 <= j < p);
        }
        assert(has_cap == cands@.contains(cap));
    }
    // merge close sizes, keeping the smaller of each close run
    let mut merged: Vec<u64> = Vec::new();
    let mut i: usize = 0;
    proof {
        assert(merged@ + spec_merge_from(cands@, 0) =~= spec_merge_from(cands@, 0));
    }
    while i < nc0
        invariant
            0 <= i <= nc0,
            nc0 == cands@.len(),
            forall|j: int| 0 <= j < cands@.len() ==> cands@[j] <= MAX_CHIPS,
            forall|j: int| 0 <= j < merged@.len() ==> merged@[j] <= MAX_CHIPS,
            spec_merge_from(cands@, 0) == merged@ + spec_merge_from(cands@, i as int),
        decreases nc0 - i,
    {
        let x = cands[i];
        let ghost old_merged = merged@;
        merged.push(x);
        let mut j: usize = i + 1;
        while j < nc0 && exec_close(x, cands[j])
            invariant
                i + 1 <= j <= nc0,
                i < nc0,
                nc0 == cands@.len(),
                x == cands@[i as int],
                x <= MAX_CHIPS,
                forall|q: int| 0 <= q < cands@.len() ==> cands@[q] <= MAX_CHIPS,
                forall|q: int|
                    i + 1 <= q < j ==> spec_close(cands@[i as int], #[trigger] cands@[q]),
            decreases nc0 - j,
        {
            j = j + 1;
        }
        proof {
            lemma_skip_close(cands@, i as int, i as int + 1);
            let je = spec_skip_close(cands@, i as int, i as int + 1);
            if j < je {
                assert(spec_close(cands@[i as int], cands@[j as int]));
                assert(false);
            }
            if je < j {
                assert(spec_close(cands@[i as int], cands@[je]));
                assert(false);
            }
            assert(j == je);
            let rest = spec_merge_from(cands@, j as int);
            assert(spec_merge_from(cands@, i as int) == seq![cands@[i as int]] + rest);
            assert(old_merged + (seq![x] + rest) =~= merged@ + rest);
        }
        i = j;
    }
    proof {
        assert(spec_merge_from(cands@, nc0 as int) =~= Seq::<u64>::empty());
        assert(merged@ + Seq::<u64>::empty() =~= merged@);
    }
    // regular sizes below all-in, ascending
    let nm = merged.len();
    let mut regs: Vec<u64> = Vec::new();
    let mut q2: usize = 0;
    while q2 < nm
        invariant
            0 <= q2 <= nm,
            nm == merged@.len(),
            cap > 0,
            spec_regs(merged@, 0, cap) == regs@ + spec_regs(merged@, q2 as int, cap),
            forall|j: int| 0 <= j < merged@.len() ==> merged@[j] <= MAX_CHIPS,
            forall|j: int| 0 <= j < regs@.len() ==> regs@[j] <= MAX_CHIPS,
        decreases nm - q2,
    {
        let c = merged[q2];
        if 0 < c && c < cap {
            let ghost old_regs = regs@;
            regs.push(c);
            proof {
                let rest = spec_regs(merged@, q2 as int + 1, cap);
                assert(old_regs + (seq![c] + rest) =~= regs@ + rest);
            }
        }
        q2 = q2 + 1;
    }
    proof {
        assert(spec_regs(merged@, q2 as int, cap) =~= Seq::<u64>::empty());
        assert(regs@ + Seq::<u64>::empty() =~= regs@);
    }
    // the largest regular size
    let nr = regs.len();
    let mut maxr: u64 = 0;
    let mut t: usize = nr;
    proof {
        assert(regs@.subrange(nr as int, nr as int) =~= Seq::<u64>::empty());
    }
    while t > 0
        invariant
            0 <= t <= nr,
            nr == regs@.len(),
            maxr == spec_max_amt(regs@.subrange(t as int, nr as int)),
            maxr <= MAX_CHIPS,
            forall|j: int| 0 <= j < regs@.len() ==> regs@[j] <= MAX_CHIPS,
        decreases t,
    {
        proof {
            let suf = regs@.subrange(t as int - 1, nr as int);
            assert(suf.first() == regs@[t - 1]);
            assert(suf.drop_first() =~= regs@.subrange(t as int, nr as int));
        }
        if regs[t - 1] > maxr {
            maxr = regs[t - 1];
        }
        t = t - 1;
    }
    proof {
        assert(regs@.subrange(0, nr as int) =~= regs@);
    }
    let add = has_cap || nr == 0 || cap * ADD_ALLIN_DEN > maxr * ADD_ALLIN_NUM;
    let mut out = base;
    let mut q: usize = 0;
    let ghost base_seq = out@;
    let ghost wrapped = Seq::new(
        regs@.len(),
        |ii: int|
            if to_call > 0 {
                Action::Raise(regs@[ii])
            } else {
                Action::Bet(regs@[ii])
            },
    );
    while q < nr
        invariant
            0 <= q <= nr,
            nr == regs@.len(),
            out@ == base_seq + wrapped.subrange(0, q as int),
            wrapped == Seq::new(
                regs@.len(),
                |ii: int|
                    if to_call > 0 {
                        Action::Raise(regs@[ii])
                    } else {
                        Action::Bet(regs@[ii])
                    },
            ),
        decreases nr - q,
    {
        if to_call > 0 {
            out.push(Action::Raise(regs[q]));
        } else {
            out.push(Action::Bet(regs[q]));
        }
        q = q + 1;
        proof {
            assert(out@ =~= base_seq + wrapped.subrange(0, q as int));
        }
    }
    proof {
        assert(wrapped.subrange(0, nr as int) =~= wrapped);
    }
    if add {
        out.push(Action::AllIn(cap));
        proof {
            assert(out@ =~= base_seq + wrapped + seq![Action::AllIn(cap)]);
        }
    }
    proof {
        assert(maxr == spec_max_amt(spec_regs(
            spec_merge_from(spec_cands(sizes@, sizes@.len() as int, pot, cap, minimum), 0),
            0,
            cap,
        )));
    }
    out
}

} // verus!
