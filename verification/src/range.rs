//! Weighted hand ranges: parsing of comma-separated tokens such as
//! "AA", "KQs", "T9o" or "KQs:0.5" into a token list, the per-mille weight a
//! token list assigns to each two-card combination, and the ordered
//! enumeration of the combinations that survive a given board.
use vstd::prelude::*;

verus! {

use vstd::string::StringExecFns;
use crate::SolverError;
use crate::card::{spec_rank_of_char, rank_of_char};

/// Probabilities and weights are fixed-point with this denominator.
pub const WEIGHT_SCALE: u32 = 1000;

/// Which suit combinations a range token covers.
#[derive(Clone, Copy, Debug, PartialEq, Eq, Structural)]
pub enum TokKind {
    Pair,
    Suited,
    Offsuit,
    Any,
}

/// One parsed range token: two ranks, a suit class and a per-mille weight.
#[derive(Clone, Copy, Debug, PartialEq, Eq, Structural)]
pub struct RangeTok {
    pub hi: u8,
    pub lo: u8,
    pub kind: TokKind,
    pub weight: u32,
}

/// Well-formed token: ranks below 13, a pair exactly when the ranks agree,
/// and a weight within the scale.
pub open spec fn tok_wf(t: RangeTok) -> bool {
    &&& t.hi < 13
    &&& t.lo < 13
    &&& (t.kind is Pair <==> t.hi == t.lo)
    &&& t.weight <= WEIGHT_SCALE
}

/// Whether token `t` covers the combination of cards `a < b`.
pub open spec fn tok_matches(t: RangeTok, a: u8, b: u8) -> bool {
    let ra = a / 4;
    let rb = b / 4;
    let ranks_match = (ra == t.hi && rb == t.lo) || (ra == t.lo && rb == t.hi);
    match t.kind {
        TokKind::Pair => ra == t.hi && rb == t.hi,
        TokKind::Suited => ranks_match && a % 4 == b % 4,
        TokKind::Offsuit => ranks_match && a % 4 != b % 4,
        TokKind::Any => ranks_match,
    }
}

/// Weight a token list assigns to the combination `a < b`: the last matching
/// token wins; zero when none matches.
pub open spec fn spec_weight_of(toks: Seq<RangeTok>, a: u8, b: u8) -> u32
    decreases toks.len(),
{
    if toks.len() == 0 {
        0
    } else if tok_matches(toks.last(), a, b) {
        toks.last().weight
    } else {
        spec_weight_of(toks.drop_last(), a, b)
    }
}

pub fn exec_tok_matches(t: &RangeTok, a: u8, b: u8) -> (r: bool)
    ensures
        r == tok_matches(*t, a, b),
{
    let ra = a / 4;
    let rb = b / 4;
    let ranks_match = (ra == t.hi && rb == t.lo) || (ra == t.lo && rb == t.hi);
    match t.kind {
        TokKind::Pair => ra == t.hi && rb == t.hi,
        TokKind::Suited => ranks_match && a % 4 == b % 4,
        TokKind::Offsuit => ranks_match && a % 4 != b % 4,
        TokKind::Any => ranks_match,
    }
}

/// A player's range: the parsed token list.
pub struct PlayerRange {
    pub toks: Vec<RangeTok>,
}

impl PlayerRange {
    pub open spec fn wf(&self) -> bool {
        forall|k: int| 0 <= k < self.toks@.len() ==> tok_wf(#[trigger] self.toks@[k])
    }

    /// The per-mille weight of the combination `a < b` under this range.
    pub open spec fn weight(&self, a: u8, b: u8) -> u32 {
        spec_weight_of(self.toks@, a, b)
    }

    /// Compute the weight of a combination.
    pub fn weight_of(&self, a: u8, b: u8) -> (w: u32)
        ensures
            w == self.weight(a, b),
    {
        let n = self.toks.len();
        proof {
            assert(self.toks@.subrange(0, n as int) =~= self.toks@);
        }
        let mut k: usize = n;
        loop
            invariant
                k <= n,
                n == self.toks@.len(),
                spec_weight_of(self.toks@, a, b) == spec_weight_of(
                    self.toks@.subrange(0, k as int),
                    a,
                    b,
                ),
            decreases k,
        {
            if k == 0 {
                return 0;
            }
            let t = self.toks[k - 1];
            proof {
                let pre = self.toks@.subrange(0, k as int);
                assert(pre.last() == self.toks@[k - 1]);
                assert(pre.drop_last() =~= self.toks@.subrange(0, k - 1));
            }
            if exec_tok_matches(&t, a, b) {
                return t.weight;
            }
            k = k - 1;
        }
    }
}

/// A surviving combination: two distinct cards off the board that carry a
/// positive range weight.
pub open spec fn combo_alive(toks: Seq<RangeTok>, board: Seq<u8>, a: u8, b: u8) -> bool {
    &&& a < b < 52
    &&& !board.contains(a)
    &&& !board.contains(b)
    &&& spec_weight_of(toks, a, b) > 0
}

/// Surviving combinations from enumeration position (a, b) on, in ascending
/// lexicographic card order, each with its weight.
pub open spec fn spec_survivors_from(toks: Seq<RangeTok>, board: Seq<u8>, a: int, b: int) -> Seq<
    (u8, u8, u32),
>
    decreases 52 - a, 52 - b,
    when 0 <= a && a < b
{
    if a >= 52 {
        Seq::empty()
    } else if b >= 52 {
        spec_survivors_from(toks, board, a + 1, a + 2)
    } else {
        let rest = spec_survivors_from(toks, board, a, b + 1);
        if combo_alive(toks, board, a as u8, b as u8) {
            seq![(a as u8, b as u8, spec_weight_of(toks, a as u8, b as u8))] + rest
        } else {
            rest
        }
    }
}

/// All surviving combinations of a range on a board, in ascending order.
pub open spec fn spec_survivors(toks: Seq<RangeTok>, board: Seq<u8>) -> Seq<(u8, u8, u32)> {
    spec_survivors_from(toks, board, 0, 1)
}

proof fn lemma_survivors_from_characterize(
    toks: Seq<RangeTok>,
    board: Seq<u8>,
    a: int,
    b: int,
)
    requires
        0 <= a,
        a < b,
    ensures
        forall|x: u8, y: u8, w: u32|
            #[trigger] spec_survivors_from(toks, board, a, b).contains((x, y, w)) <==> (
            combo_alive(toks, board, x, y) && w == spec_weight_of(toks, x, y) && (x > a || (x == a
                && y >= b))),
    decreases 52 - a, 52 - b,
{
    if a >= 52 {
        assert forall|x: u8, y: u8, w: u32|
            #[trigger] spec_survivors_from(toks, board, a, b).contains((x, y, w)) <==> (
            combo_alive(toks, board, x, y) && w == spec_weight_of(toks, x, y) && (x > a || (x == a
                && y >= b))) by {
            assert(spec_survivors_from(toks, board, a, b) =~= Seq::<(u8, u8, u32)>::empty());
            assert(!spec_survivors_from(toks, board, a, b).contains((x, y, w)));
            if combo_alive(toks, board, x, y) {
                assert(x < 52);
                assert(!(x > a || (x == a && y >= b)));
            }
        }
    } else if b >= 52 {
        lemma_survivors_from_characterize(toks, board, a + 1, a + 2);
        assert forall|x: u8, y: u8, w: u32|
            #[trigger] spec_survivors_from(toks, board, a, b).contains((x, y, w)) <==> (
            combo_alive(toks, board, x, y) && w == spec_weight_of(toks, x, y) && (x > a || (x == a
                && y >= b))) by {
            assert(spec_survivors_from(toks, board, a, b) == spec_survivors_from(
                toks,
                board,
                a + 1,
                a + 2,
            ));
            if combo_alive(toks, board, x, y) && w == spec_weight_of(toks, x, y) {
                assert(y < 52);
                assert((x > a || (x == a && y >= b)) <==> (x > a + 1 || (x == a + 1 && y >= a
                    + 2)));
            }
        }
    } else {
        lemma_survivors_from_characterize(toks, board, a, b + 1);
        let rest = spec_survivors_from(toks, board, a, b + 1);
        let cur = spec_survivors_from(toks, board, a, b);
        assert forall|x: u8, y: u8, w: u32| #[trigger] cur.contains((x, y, w)) <==> (combo_alive(
            toks,
            board,
            x,
            y,
        ) && w == spec_weight_of(toks, x, y) && (x > a || (x == a && y >= b))) by {
            if combo_alive(toks, board, a as u8, b as u8) {
                let head = (a as u8, b as u8, spec_weight_of(toks, a as u8, b as u8));
                assert(cur == seq![head] + rest);
                if cur.contains((x, y, w)) {
                    let k = choose|k: int| 0 <= k < cur.len() && cur[k] == (x, y, w);
                    if k == 0 {
                        assert((x, y, w) == head);
                    } else {
                        assert(rest[k - 1] == (x, y, w));
                        assert(rest.contains((x, y, w)));
                    }
                }
                if combo_alive(toks, board, x, y) && w == spec_weight_of(toks, x, y) && (x > a || (
                x == a && y >= b)) {
                    if (x, y, w) == head {
                        assert(cur[0] == (x, y, w));
                    } else {
                        assert(x > a || (x == a && y >= b + 1));
                        assert(rest.contains((x, y, w)));
                        let k = choose|k: int| 0 <= k < rest.len() && rest[k] == (x, y, w);
                        assert(cur[k + 1] == (x, y, w));
                    }
                }
            } else {
                assert(cur == rest);
                if combo_alive(toks, board, x, y) && w == spec_weight_of(toks, x, y) && (x > a || (
                x == a && y >= b)) {
                    assert(!(x == a && y == b && w == spec_weight_of(toks, x, y)));
                    assert(x > a || (x == a && y >= b + 1));
                }
            }
        }
    }
}

/// A combination stands in the surviving enumeration exactly when it carries
/// positive weight and shares no card with the board: the board removes
/// exactly the colliding combinations, nothing else.
pub proof fn lemma_survivors_characterize(toks: Seq<RangeTok>, board: Seq<u8>)
    ensures
        forall|x: u8, y: u8, w: u32|
            #[trigger] spec_survivors(toks, board).contains((x, y, w)) <==> (combo_alive(
                toks,
                board,
                x,
                y,
            ) && w == spec_weight_of(toks, x, y)),
{
    lemma_survivors_from_characterize(toks, board, 0, 1);
    assert forall|x: u8, y: u8, w: u32|
        #[trigger] spec_survivors(toks, board).contains((x, y, w)) <==> (combo_alive(
            toks,
            board,
            x,
            y,
        ) && w == spec_weight_of(toks, x, y)) by {
        if combo_alive(toks, board, x, y) {
            assert(x > 0 || (x == 0 && y >= 1));
        }
    }
}

/// A well-formed token list never assigns more than the whole scale.
pub proof fn lemma_weight_le(toks: Seq<RangeTok>, a: u8, b: u8)
    requires
        forall|k: int| 0 <= k < toks.len() ==> tok_wf(#[trigger] toks[k]),
    ensures
        spec_weight_of(toks, a, b) <= WEIGHT_SCALE,
    decreases toks.len(),
{
    if toks.len() > 0 {
        if tok_matches(toks.last(), a, b) {
            assert(toks[toks.len() - 1] == toks.last());
        } else {
            lemma_weight_le(toks.drop_last(), a, b);
        }
    }
}

proof fn lemma_survivors_len_from(toks: Seq<RangeTok>, board: Seq<u8>, a: int, b: int)
    requires
        0 <= a,
        a < b <= 53,
    ensures
        spec_survivors_from(toks, board, a, b).len() <= (if a >= 52 {
            0int
        } else {
            (52 - a) * 53 - b
        }),
    decreases 52 - a, 52 - b,
{
    if a >= 52 {
    } else if b >= 52 {
        lemma_survivors_len_from(toks, board, a + 1, a + 2);
    } else {
        lemma_survivors_len_from(toks, board, a, b + 1);
    }
}

/// At most 2755 combinations survive (in fact at most 1326).
pub proof fn lemma_survivors_count(toks: Seq<RangeTok>, board: Seq<u8>)
    ensures
        spec_survivors(toks, board).len() <= 2755,
{
    lemma_survivors_len_from(toks, board, 0, 1);
}

/// Every enumerated combination is two ordered cards off the board with a
/// positive weight within the scale.
pub proof fn lemma_survivors_elems(toks: Seq<RangeTok>, board: Seq<u8>)
    requires
        forall|k: int| 0 <= k < toks.len() ==> tok_wf(#[trigger] toks[k]),
    ensures
        forall|k: int|
            0 <= k < spec_survivors(toks, board).len() ==> {
                let e = #[trigger] spec_survivors(toks, board)[k];
                e.0 < e.1 < 52 && 0 < e.2 <= WEIGHT_SCALE && !board.contains(e.0)
                    && !board.contains(e.1)
            },
{
    lemma_survivors_characterize(toks, board);
    assert forall|k: int| 0 <= k < spec_survivors(toks, board).len() implies {
        let e = #[trigger] spec_survivors(toks, board)[k];
        e.0 < e.1 < 52 && 0 < e.2 <= WEIGHT_SCALE && !board.contains(e.0) && !board.contains(e.1)
    } by {
        let e = spec_survivors(toks, board)[k];
        assert(e == (e.0, e.1, e.2));
        assert(spec_survivors(toks, board).contains((e.0, e.1, e.2)));
        lemma_weight_le(toks, e.0, e.1);
    }
}

/// Enumerate the surviving combinations of a range on a board.
pub fn survivors(range: &PlayerRange, board: &Vec<u8>) -> (r: Vec<(u8, u8, u32)>)
    ensures
        r@ == spec_survivors(range.toks@, board@),
{
    let mut acc: Vec<(u8, u8, u32)> = Vec::new();
    let mut a: usize = 0;
    let mut b: usize = 1;
    loop
        invariant
            0 <= a < b,
            b <= 53,
            a <= 52,
            spec_survivors(range.toks@, board@) == acc@ + spec_survivors_from(
                range.toks@,
                board@,
                a as int,
                b as int,
            ),
        decreases 52 - a, 52 - b + 52,
    {
        if a >= 52 {
            proof {
                assert(spec_survivors_from(range.toks@, board@, a as int, b as int)
                    =~= Seq::<(u8, u8, u32)>::empty());
                assert(acc@ + Seq::<(u8, u8, u32)>::empty() =~= acc@);
            }
            return acc;
        }
        if b >= 52 {
            b = a + 2;
            a = a + 1;
        } else {
            let aa = a as u8;
            let bb = b as u8;
            let mut on_board = false;
            let mut k: usize = 0;
            let n = board.len();
            while k < n
                invariant
                    k <= n,
                    n == board@.len(),
                    on_board == (exists|j: int| 0 <= j < k && (board@[j] == aa || board@[j] == bb)),
                decreases n - k,
            {
                if board[k] == aa || board[k] == bb {
                    on_board = true;
                }
                k = k + 1;
            }
            proof {
                assert(on_board == (board@.contains(aa) || board@.contains(bb)));
            }
            if !on_board {
                let w = range.weight_of(aa, bb);
                if w > 0 {
                    let ghost old_acc = acc@;
                    acc.push((aa, bb, w));
                    proof {
                        let rest = spec_survivors_from(range.toks@, board@, a as int, b as int + 1);
                        assert(combo_alive(range.toks@, board@, aa, bb));
                        assert(old_acc + (seq![(aa, bb, w)] + rest) =~= acc@ + rest);
                    }
                }
            }
            b = b + 1;
        }
    }
}

/// First position at or after `i` holding a comma, or the end of the text.
pub open spec fn spec_tok_end(s: Seq<char>, i: int) -> int
    decreases s.len() - i,
    when 0 <= i <= s.len()
{
    if i >= s.len() || s[i] == ',' {
        i
    } else {
        let j = spec_tok_end(s, i + 1);
        if i + 1 <= j <= s.len() {
            j
        } else {
            i + 1
        }
    }
}

pub proof fn lemma_tok_end(s: Seq<char>, i: int)
    requires
        0 <= i <= s.len(),
    ensures
        i <= spec_tok_end(s, i) <= s.len(),
        spec_tok_end(s, i) == s.len() || s[spec_tok_end(s, i)] == ',',
        forall|k: int| i <= k < spec_tok_end(s, i) ==> s[k] != ',',
    decreases s.len() - i,
{
    if i >= s.len() || s[i] == ',' {
    } else {
        lemma_tok_end(s, i + 1);
    }
}

/// Per-mille value of a fractional digit string of one to three digits.
pub open spec fn spec_frac_val(d: Seq<char>) -> Option<u32> {
    if d.len() == 1 {
        match spec_digit_val(d[0]) {
            Some(x) => Some((x * 100) as u32),
            None => None,
        }
    } else if d.len() == 2 {
        match (spec_digit_val(d[0]), spec_digit_val(d[1])) {
            (Some(x), Some(y)) => Some((x * 100 + y * 10) as u32),
            _ => None,
        }
    } else if d.len() == 3 {
        match (spec_digit_val(d[0]), spec_digit_val(d[1]), spec_digit_val(d[2])) {
            (Some(x), Some(y), Some(z)) => Some((x * 100 + y * 10 + z) as u32),
            _ => None,
        }
    } else {
        None
    }
}

/// Value of a decimal digit character.
pub open spec fn spec_digit_val(c: char) -> Option<u32> {
    match c {
        '0' => Some(0u32),
        '1' => Some(1u32),
        '2' => Some(2u32),
        '3' => Some(3u32),
        '4' => Some(4u32),
        '5' => Some(5u32),
        '6' => Some(6u32),
        '7' => Some(7u32),
        '8' => Some(8u32),
        '9' => Some(9u32),
        _ => None,
    }
}

pub fn digit_val(c: char) -> (r: Option<u32>)
    ensures
        r == spec_digit_val(c),
{
    match c {
        '0' => Some(0u32),
        '1' => Some(1u32),
        '2' => Some(2u32),
        '3' => Some(3u32),
        '4' => Some(4u32),
        '5' => Some(5u32),
        '6' => Some(6u32),
        '7' => Some(7u32),
        '8' => Some(8u32),
        '9' => Some(9u32),
        _ => None,
    }
}

/// Per-mille value of a weight string: "1", "0", "1.0…", "0.d…" or ".d…",
/// with one to three fractional digits; at most 1.0.
pub open spec fn spec_weight_val(w: Seq<char>) -> Option<u32> {
    if w.len() == 1 && w[0] == '1' {
        Some(1000u32)
    } else if w.len() == 1 && w[0] == '0' {
        Some(0u32)
    } else if w.len() >= 2 && w[0] == '.' {
        spec_frac_val(w.subrange(1, w.len() as int))
    } else if w.len() >= 3 && w[0] == '0' && w[1] == '.' {
        spec_frac_val(w.subrange(2, w.len() as int))
    } else if w.len() >= 3 && w[0] == '1' && w[1] == '.' {
        match spec_frac_val(w.subrange(2, w.len() as int)) {
            Some(0u32) => Some(1000u32),
            _ => None,
        }
    } else {
        None
    }
}

/// The token denoted by a comma-free piece of range text.
pub open spec fn spec_token(t: Seq<char>) -> Option<RangeTok> {
    if t.len() == 2 {
        spec_hand_tok(t, 1000)
    } else if t.len() == 3 && t[2] != ':' {
        spec_hand_tok(t, 1000)
    } else if t.len() >= 4 && t[2] == ':' {
        match spec_weight_val(t.subrange(3, t.len() as int)) {
            Some(w) => spec_hand_tok(t.subrange(0, 2), w),
            None => None,
        }
    } else if t.len() >= 5 && t[3] == ':' {
        match spec_weight_val(t.subrange(4, t.len() as int)) {
            Some(w) => spec_hand_tok(t.subrange(0, 3), w),
            None => None,
        }
    } else {
        None
    }
}

/// The token of a bare hand text of two rank characters, optionally followed
/// by 's' or 'o', given a weight.
pub open spec fn spec_hand_tok(h: Seq<char>, w: u32) -> Option<RangeTok> {
    if 2 <= h.len() <= 3 {
        match (spec_rank_of_char(h[0]), spec_rank_of_char(h[1])) {
            (Some(r0), Some(r1)) => {
                let hi = if r0 >= r1 { r0 } else { r1 };
                let lo = if r0 >= r1 { r1 } else { r0 };
                if h.len() == 2 {
                    if r0 == r1 {
                        Some(RangeTok { hi, lo, kind: TokKind::Pair, weight: w })
                    } else {
                        Some(RangeTok { hi, lo, kind: TokKind::Any, weight: w })
                    }
                } else if r0 != r1 && h[2] == 's' {
                    Some(RangeTok { hi, lo, kind: TokKind::Suited, weight: w })
                } else if r0 != r1 && h[2] == 'o' {
                    Some(RangeTok { hi, lo, kind: TokKind::Offsuit, weight: w })
                } else {
                    None
                }
            },
            _ => None,
        }
    } else {
        None
    }
}

pub proof fn lemma_spec_token_wf(t: Seq<char>)
    ensures
        spec_token(t) matches Some(tk) ==> tok_wf(tk) && spec_token(t)->Some_0.weight <= 1000,
{
}

fn frac_val_of(v: &Vec<char>, i: usize, j: usize) -> (r: Option<u32>)
    requires
        i <= j <= v@.len(),
    ensures
        r == spec_frac_val(v@.subrange(i as int, j as int)),
{
    proof {
        let t = v@.subrange(i as int, j as int);
        assert forall|k: int| 0 <= k < t.len() implies t[k] == v@[i + k] by {}
    }
    let len = j - i;
    if len == 1 {
        match digit_val(v[i]) {
            Some(x) => Some(x * 100),
            None => None,
        }
    } else if len == 2 {
        match (digit_val(v[i]), digit_val(v[i + 1])) {
            (Some(x), Some(y)) => Some(x * 100 + y * 10),
            _ => None,
        }
    } else if len == 3 {
        match (digit_val(v[i]), digit_val(v[i + 1]), digit_val(v[i + 2])) {
            (Some(x), Some(y), Some(z)) => Some(x * 100 + y * 10 + z),
            _ => None,
        }
    } else {
        None
    }
}

fn weight_val_of(v: &Vec<char>, i: usize, j: usize) -> (r: Option<u32>)
    requires
        i <= j <= v@.len(),
    ensures
        r == spec_weight_val(v@.subrange(i as int, j as int)),
{
    proof {
        let t = v@.subrange(i as int, j as int);
        assert forall|k: int| 0 <= k < t.len() implies t[k] == v@[i + k] by {}
    }
    let len = j - i;
    if len == 1 && v[i] == '1' {
        Some(1000)
    } else if len == 1 && v[i] == '0' {
        Some(0)
    } else if len >= 2 && v[i] == '.' {
        proof {
            let t = v@.subrange(i as int, j as int);
            assert(t.subrange(1, t.len() as int) =~= v@.subrange(i + 1, j as int));
        }
        frac_val_of(v, i + 1, j)
    } else if len >= 3 && v[i] == '0' && v[i + 1] == '.' {
        proof {
            let t = v@.subrange(i as int, j as int);
            assert(t.subrange(2, t.len() as int) =~= v@.subrange(i + 2, j as int));
        }
        frac_val_of(v, i + 2, j)
    } else if len >= 3 && v[i] == '1' && v[i + 1] == '.' {
        proof {
            let t = v@.subrange(i as int, j as int);
            assert(t.subrange(2, t.len() as int) =~= v@.subrange(i + 2, j as int));
        }
        match frac_val_of(v, i + 2, j) {
            Some(0u32) => Some(1000),
            _ => None,
        }
    } else {
        None
    }
}

fn hand_tok_of(v: &Vec<char>, i: usize, j: usize, w: u32) -> (r: Option<RangeTok>)
    requires
        i <= j <= v@.len(),
    ensures
        r == spec_hand_tok(v@.subrange(i as int, j as int), w),
{
    proof {
        let t = v@.subrange(i as int, j as int);
        assert forall|k: int| 0 <= k < t.len() implies t[k] == v@[i + k] by {}
    }
    let len = j - i;
    if len < 2 || len > 3 {
        return None;
    }
    let r0o = rank_of_char(v[i]);
    let r1o = rank_of_char(v[i + 1]);
    match (r0o, r1o) {
        (Some(r0), Some(r1)) => {
            let hi = if r0 >= r1 { r0 } else { r1 };
            let lo = if r0 >= r1 { r1 } else { r0 };
            if len == 2 {
                if r0 == r1 {
                    Some(RangeTok { hi, lo, kind: TokKind::Pair, weight: w })
                } else {
                    Some(RangeTok { hi, lo, kind: TokKind::Any, weight: w })
                }
            } else if r0 != r1 && v[i + 2] == 's' {
                Some(RangeTok { hi, lo, kind: TokKind::Suited, weight: w })
            } else if r0 != r1 && v[i + 2] == 'o' {
                Some(RangeTok { hi, lo, kind: TokKind::Offsuit, weight: w })
            } else {
                None
            }
        },
        _ => None,
    }
}

fn token_of(v: &Vec<char>, i: usize, j: usize) -> (r: Option<RangeTok>)
    requires
        i <= j <= v@.len(),
    ensures
        r == spec_token(v@.subrange(i as int, j as int)),
{
    proof {
        let t = v@.subrange(i as int, j as int);
        assert forall|k: int| 0 <= k < t.len() implies t[k] == v@[i + k] by {}
    }
    let len = j - i;
    if len == 2 {
        hand_tok_of(v, i, j, 1000)
    } else if len == 3 && v[i + 2] != ':' {
        hand_tok_of(v, i, j, 1000)
    } else if len >= 4 && v[i + 2] == ':' {
        proof {
            let t = v@.subrange(i as int, j as int);
            assert(t.subrange(3, t.len() as int) =~= v@.subrange(i + 3, j as int));
            assert(t.subrange(0, 2) =~= v@.subrange(i as int, i + 2));
        }
        match weight_val_of(v, i + 3, j) {
            Some(w) => hand_tok_of(v, i, i + 2, w),
            None => None,
        }
    } else if len >= 5 && v[i + 3] == ':' {
        proof {
            let t = v@.subrange(i as int, j as int);
            assert(t.subrange(4, t.len() as int) =~= v@.subrange(i + 4, j as int));
            assert(t.subrange(0, 3) =~= v@.subrange(i as int, i + 3));
        }
        match weight_val_of(v, i + 4, j) {
            Some(w) => hand_tok_of(v, i, i + 3, w),
            None => None,
        }
    } else {
        None
    }
}

/// The token list denoted by range text from position `i` on: comma-separated
/// tokens; `None` on any malformed token.
pub open spec fn spec_range_from(s: Seq<char>, i: int) -> Option<Seq<RangeTok>>
    decreases s.len() - i,
    when 0 <= i <= s.len()
{
    if i == s.len() {
        Some(Seq::empty())
    } else {
        let j0 = spec_tok_end(s, i);
        let j = if i <= j0 <= s.len() {
            j0
        } else {
            i
        };
        match spec_token(s.subrange(i, j)) {
            None => None,
            Some(t) => {
                let nxt = if j < s.len() {
                    j + 1
                } else {
                    j
                };
                match spec_range_from(s, nxt) {
                    Some(rest) => Some(seq![t] + rest),
                    None => None,
                }
            },
        }
    }
}

/// Parse a range expression: comma-separated hand tokens with optional
/// per-mille weights, e.g. "AA,KQs:0.5".
pub fn parse_range(s: &str) -> (r: Result<PlayerRange, SolverError>)
    ensures
        r is Ok <==> spec_range_from(s@, 0) is Some,
        r matches Ok(pr) ==> Some(pr.toks@) == spec_range_from(s@, 0) && pr.wf(),
        r matches Err(e) ==> e matches SolverError::Parse { .. },
{
    let v = crate::card::chars_of(s);
    let n = v.len();
    let mut acc: Vec<RangeTok> = Vec::new();
    let mut i: usize = 0;
    loop
        invariant
            i <= n,
            n == s@.len(),
            v@ == s@,
            forall|k: int| 0 <= k < acc@.len() ==> tok_wf(#[trigger] acc@[k]),
            match spec_range_from(s@, i as int) {
                Some(rest) => spec_range_from(s@, 0) == Some(acc@ + rest),
                None => spec_range_from(s@, 0) is None,
            },
        decreases n - i,
    {
        if i == n {
            proof {
                assert(spec_range_from(s@, i as int) == Some(Seq::<RangeTok>::empty()));
                assert(acc@ + Seq::<RangeTok>::empty() =~= acc@);
            }
            return Ok(PlayerRange { toks: acc });
        }
        let mut j: usize = i;
        while j < n && v[j] != ','
            invariant
                i <= j <= n,
                n == v@.len(),
                forall|k: int| i <= k < j ==> v@[k] != ',',
            decreases n - j,
        {
            j = j + 1;
        }
        proof {
            lemma_tok_end(s@, i as int);
            let je = spec_tok_end(s@, i as int);
            if j < je {
                assert(s@[j as int] == ',');
                assert(false);
            }
            if je < j {
                assert(s@[je] == ',');
                assert(v@[je] != ',');
                assert(false);
            }
            assert(j == je);
        }
        let t = token_of(&v, i, j);
        match t {
            None => {
                let tok_text = s.substring_char(i, j);
                return Err(
                    SolverError::Parse {
                        argument: String::from_str("range"),
                        token: String::from_str(tok_text),
                    },
                );
            },
            Some(tk) => {
                proof {
                    lemma_spec_token_wf(s@.subrange(i as int, j as int));
                }
                let ghost old_acc = acc@;
                acc.push(tk);
                let nxt: usize = if j < n {
                    j + 1
                } else {
                    j
                };
                proof {
                    let rest_opt = spec_range_from(s@, nxt as int);
                    if rest_opt is Some {
                        assert(old_acc + (seq![tk] + rest_opt->Some_0) =~= acc@
                            + rest_opt->Some_0);
                    }
                }
                i = nxt;
            },
        }
    }
}

} // verus!
