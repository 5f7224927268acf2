//! Card model: a card is an integer 0..52 encoding rank * 4 + suit, with a
//! sentinel for a board card that has not been dealt yet. Parsing and
//! formatting of cards and space-separated card lists.
use vstd::prelude::*;

verus! {

use vstd::string::{StringExecFns, StrSliceExecFns};
use crate::SolverError;

/// Sentinel card value for a street that has not been dealt.
pub const NOT_DEALT: u8 = 52;

/// Rank of a rank character: '2'..'9','T','J','Q','K','A' map to 0..12.
pub open spec fn spec_rank_of_char(c: char) -> Option<u8> {
    match c {
        '2' => Some(0u8),
        '3' => Some(1u8),
        '4' => Some(2u8),
        '5' => Some(3u8),
        '6' => Some(4u8),
        '7' => Some(5u8),
        '8' => Some(6u8),
        '9' => Some(7u8),
        'T' => Some(8u8),
        'J' => Some(9u8),
        'Q' => Some(10u8),
        'K' => Some(11u8),
        'A' => Some(12u8),
        _ => None,
    }
}

/// Suit of a suit character: 'c','d','h','s' map to 0..3.
pub open spec fn spec_suit_of_char(c: char) -> Option<u8> {
    match c {
        'c' => Some(0u8),
        'd' => Some(1u8),
        'h' => Some(2u8),
        's' => Some(3u8),
        _ => None,
    }
}

pub fn rank_of_char(c: char) -> (r: Option<u8>)
    ensures
        r == spec_rank_of_char(c),
{
    match c {
        '2' => Some(0u8),
        '3' => Some(1u8),
        '4' => Some(2u8),
        '5' => Some(3u8),
        '6' => Some(4u8),
        '7' => Some(5u8),
        '8' => Some(6u8),
        '9' => Some(7u8),
        'T' => Some(8u8),
        'J' => Some(9u8),
        'Q' => Some(10u8),
        'K' => Some(11u8),
        'A' => Some(12u8),
        _ => None,
    }
}

pub fn suit_of_char(c: char) -> (r: Option<u8>)
    ensures
        r == spec_suit_of_char(c),
{
    match c {
        'c' => Some(0u8),
        'd' => Some(1u8),
        'h' => Some(2u8),
        's' => Some(3u8),
        _ => None,
    }
}

/// The card denoted by a two-character string such as "Ah", if well-formed.
pub open spec fn spec_card_of(s: Seq<char>) -> Option<u8> {
    if s.len() != 2 {
        None
    } else {
        match (spec_rank_of_char(s[0]), spec_suit_of_char(s[1])) {
            (Some(r), Some(u)) => Some((r * 4 + u) as u8),
            _ => None,
        }
    }
}

/// Collect the characters of a string slice into a vector.
pub fn chars_of(s: &str) -> (v: Vec<char>)
    ensures
        v@ == s@,
{
    let n: usize = s.unicode_len();
    let mut v: Vec<char> = Vec::new();
    let mut i: usize = 0;
    while i < n
        invariant
            i <= n,
            n == s@.len(),
            v@ == s@.subrange(0, i as int),
        decreases n - i,
    {
        let c = s.get_char(i);
        v.push(c);
        i = i + 1;
        proof {
            assert(v@ =~= s@.subrange(0, i as int));
        }
    }
    proof {
        assert(v@ =~= s@);
    }
    v
}

/// Parse a single card such as "Ah".
pub fn card_from_str(s: &str) -> (r: Result<u8, SolverError>)
    ensures
        r is Ok <==> spec_card_of(s@) is Some,
        r matches Ok(c) ==> spec_card_of(s@) == Some(c) && c < 52,
        r matches Err(e) ==> (e matches SolverError::Parse { token, .. } && token@ == s@),
{
    let v = chars_of(s);
    if v.len() == 2 {
        if let Some(rk) = rank_of_char(v[0]) {
            if let Some(su) = suit_of_char(v[1]) {
                return Ok(rk * 4 + su);
            }
        }
    }
    Err(SolverError::Parse { argument: String::from_str("card"), token: String::from_str(s) })
}

/// The list of cards written in a string as two-character cards separated by
/// (any number of) spaces, scanning from position `i`; `None` on any
/// malformed or trailing text.
pub open spec fn spec_cards_from(s: Seq<char>, i: int) -> Option<Seq<u8>>
    decreases s.len() - i,
    when 0 <= i <= s.len()
{
    if i == s.len() {
        Some(Seq::empty())
    } else if s[i] == ' ' {
        spec_cards_from(s, i + 1)
    } else if i + 2 <= s.len() && spec_card_of(s.subrange(i, i + 2)) is Some {
        match spec_cards_from(s, i + 2) {
            Some(rest) => Some(seq![spec_card_of(s.subrange(i, i + 2))->Some_0] + rest),
            None => None,
        }
    } else {
        None
    }
}

/// Every card produced by `spec_cards_from` is below 52.
pub proof fn lemma_cards_from_bound(s: Seq<char>, i: int)
    requires
        0 <= i <= s.len(),
    ensures
        spec_cards_from(s, i) matches Some(cs) ==> forall|k: int|
            0 <= k < cs.len() ==> cs[k] < 52,
    decreases s.len() - i,
{
    if i == s.len() {
    } else if s[i] == ' ' {
        lemma_cards_from_bound(s, i + 1);
    } else if i + 2 <= s.len() && spec_card_of(s.subrange(i, i + 2)) is Some {
        lemma_cards_from_bound(s, i + 2);
    }
}

/// Parse a space-separated list of cards.
pub fn cards_from_str(s: &str) -> (r: Result<Vec<u8>, SolverError>)
    ensures
        r is Ok <==> spec_cards_from(s@, 0) is Some,
        r matches Ok(cs) ==> spec_cards_from(s@, 0) == Some(cs@),
        r matches Err(e) ==> (e matches SolverError::Parse { token, .. } && token@ == s@),
{
    let v = chars_of(s);
    let n = v.len();
    let mut acc: Vec<u8> = Vec::new();
    let mut i: usize = 0;
    loop
        invariant
            i <= n,
            n == s@.len(),
            v@ == s@,
            match spec_cards_from(s@, i as int) {
                Some(rest) => spec_cards_from(s@, 0) == Some(acc@ + rest),
                None => spec_cards_from(s@, 0) is None,
            },
        decreases n - i,
    {
        if i == n {
            proof {
                assert(spec_cards_from(s@, i as int) == Some(Seq::<u8>::empty()));
                assert(acc@ + Seq::<u8>::empty() =~= acc@);
            }
            return Ok(acc);
        }
        if v[i] == ' ' {
            i = i + 1;
        } else if n - i >= 2 {
            proof {
                let sub = s@.subrange(i as int, i as int + 2);
                assert(sub[0] == s@[i as int]);
                assert(sub[1] == s@[i as int + 1]);
            }
            let r0 = rank_of_char(v[i]);
            let s0 = suit_of_char(v[i + 1]);
            if let (Some(rk), Some(su)) = (r0, s0) {
                let c = rk * 4 + su;
                proof {
                    assert(spec_card_of(s@.subrange(i as int, i as int + 2)) == Some(c));
                }
                let ghost old_acc = acc@;
                acc.push(c);
                proof {
                    let rest_opt = spec_cards_from(s@, i as int + 2);
                    if rest_opt is Some {
                        assert(old_acc + (seq![c] + rest_opt->Some_0) =~= acc@
                            + rest_opt->Some_0);
                    }
                }
                i = i + 2;
            } else {
                proof {
                    assert(spec_card_of(s@.subrange(i as int, i as int + 2)) is None);
                }
                return Err(
                    SolverError::Parse {
                        argument: String::from_str("cards"),
                        token: String::from_str(s),
                    },
                );
            }
        } else {
            proof {
                if i + 2 <= s@.len() {
                    assert(false);
                }
            }
            return Err(
                    SolverError::Parse {
                        argument: String::from_str("cards"),
                        token: String::from_str(s),
                    },
                );
        }
    }
}

/// Whether a card sequence has pairwise distinct entries.
pub open spec fn spec_all_distinct(cs: Seq<u8>) -> bool {
    forall|p: int, q: int| 0 <= p < q < cs.len() ==> cs[p] != cs[q]
}

/// Check that a card vector has pairwise distinct entries.
pub fn all_distinct(cs: &Vec<u8>) -> (r: bool)
    ensures
        r == spec_all_distinct(cs@),
{
    let n = cs.len();
    let mut p: usize = 0;
    while p < n
        invariant
            p <= n,
            n == cs@.len(),
            forall|a: int, b: int| 0 <= a < b < cs@.len() && a < p ==> cs@[a] != cs@[b],
        decreases n - p,
    {
        let mut q: usize = p + 1;
        while q < n
            invariant
                p < q <= n || (p + 1 == q && q > n),
                p < n,
                n == cs@.len(),
                forall|a: int, b: int| 0 <= a < b < cs@.len() && a < p ==> cs@[a] != cs@[b],
                forall|b: int| (p as int) < b < q ==> cs@[p as int] != cs@[b],
            decreases n - q,
        {
            if cs[p] == cs[q] {
                return false;
            }
            q = q + 1;
        }
        p = p + 1;
    }
    true
}

/// Parse flop text: exactly three pairwise distinct cards.
pub fn flop_from_str(s: &str) -> (r: Result<Vec<u8>, SolverError>)
    ensures
        r is Ok <==> (spec_cards_from(s@, 0) matches Some(cs) && cs.len() == 3
            && spec_all_distinct(cs)),
        r matches Ok(f) ==> spec_cards_from(s@, 0) == Some(f@) && f@.len() == 3
            && spec_all_distinct(f@) && (forall|k: int| 0 <= k < 3 ==> f@[k] < 52),
        r matches Err(e) ==> (e matches SolverError::Parse { token, .. } && token@ == s@),
{
    let cs = cards_from_str(s)?;
    if cs.len() != 3 {
        return Err(
            SolverError::Parse {
                argument: String::from_str("flop"),
                token: String::from_str(s),
            },
        );
    }
    if !all_distinct(&cs) {
        return Err(
            SolverError::Parse {
                argument: String::from_str("flop"),
                token: String::from_str(s),
            },
        );
    }
    proof {
        lemma_cards_from_bound(s@, 0);
    }
    Ok(cs)
}

/// Rank character of rank `r` (0..12); '?' outside that range.
pub open spec fn spec_rank_char(r: u8) -> char {
    if r == 0 {
        '2'
    } else if r == 1 {
        '3'
    } else if r == 2 {
        '4'
    } else if r == 3 {
        '5'
    } else if r == 4 {
        '6'
    } else if r == 5 {
        '7'
    } else if r == 6 {
        '8'
    } else if r == 7 {
        '9'
    } else if r == 8 {
        'T'
    } else if r == 9 {
        'J'
    } else if r == 10 {
        'Q'
    } else if r == 11 {
        'K'
    } else if r == 12 {
        'A'
    } else {
        '?'
    }
}

/// Suit character of suit `u` (0..3); '?' outside that range.
pub open spec fn spec_suit_char(u: u8) -> char {
    if u == 0 {
        'c'
    } else if u == 1 {
        'd'
    } else if u == 2 {
        'h'
    } else if u == 3 {
        's'
    } else {
        '?'
    }
}

/// Two-character text of a card: rank character then suit character.
pub open spec fn spec_card_str(c: u8) -> Seq<char> {
    seq![spec_rank_char((c / 4) as u8), spec_suit_char((c % 4) as u8)]
}

fn rank_str(r: u8) -> (s: &'static str)
    requires
        r < 13,
    ensures
        s@ == seq![spec_rank_char(r)],
{
    proof {
        reveal_strlit("2");
        reveal_strlit("3");
        reveal_strlit("4");
        reveal_strlit("5");
        reveal_strlit("6");
        reveal_strlit("7");
        reveal_strlit("8");
        reveal_strlit("9");
        reveal_strlit("T");
        reveal_strlit("J");
        reveal_strlit("Q");
        reveal_strlit("K");
        reveal_strlit("A");
    }
    let s = match r {
        0u8 => "2",
        1u8 => "3",
        2u8 => "4",
        3u8 => "5",
        4u8 => "6",
        5u8 => "7",
        6u8 => "8",
        7u8 => "9",
        8u8 => "T",
        9u8 => "J",
        10u8 => "Q",
        11u8 => "K",
        _ => "A",
    };
    proof {
        assert(s@ =~= seq![spec_rank_char(r)]);
    }
    s
}

fn suit_str(u: u8) -> (s: &'static str)
    requires
        u < 4,
    ensures
        s@ == seq![spec_suit_char(u)],
{
    proof {
        reveal_strlit("c");
        reveal_strlit("d");
        reveal_strlit("h");
        reveal_strlit("s");
    }
    let s = match u {
        0u8 => "c",
        1u8 => "d",
        2u8 => "h",
        _ => "s",
    };
    proof {
        assert(s@ =~= seq![spec_suit_char(u)]);
    }
    s
}

/// Format a card as its two-character text.
pub fn card_to_string(c: u8) -> (s: String)
    requires
        c < 52,
    ensures
        s@ == spec_card_str(c),
{
    let r = String::from_str(rank_str(c / 4)).concat(suit_str(c % 4));
    proof {
        assert(r@ =~= spec_card_str(c));
    }
    r
}

/// Text of a hole-card pair: the higher card first.
pub open spec fn spec_hole_str(a: u8, b: u8) -> Seq<char> {
    spec_card_str(b) + spec_card_str(a)
}

/// Format a hole-card pair (a < b) as four characters, higher card first.
pub fn hole_to_string(a: u8, b: u8) -> (s: String)
    requires
        a < b < 52,
    ensures
        s@ == spec_hole_str(a, b),
{
    let hi = card_to_string(b);
    let lo = card_to_string(a);
    let r = hi.concat(lo.as_str());
    proof {
        assert(r@ =~= spec_hole_str(a, b));
    }
    r
}

/// Decimal digit character of `d` (0..9); '?' outside that range.
pub open spec fn spec_digit_char(d: u8) -> char {
    if d == 0 {
        '0'
    } else if d == 1 {
        '1'
    } else if d == 2 {
        '2'
    } else if d == 3 {
        '3'
    } else if d == 4 {
        '4'
    } else if d == 5 {
        '5'
    } else if d == 6 {
        '6'
    } else if d == 7 {
        '7'
    } else if d == 8 {
        '8'
    } else if d == 9 {
        '9'
    } else {
        '?'
    }
}

fn digit_str(d: u8) -> (s: &'static str)
    requires
        d < 10,
    ensures
        s@ == seq![spec_digit_char(d)],
{
    proof {
        reveal_strlit("0");
        reveal_strlit("1");
        reveal_strlit("2");
        reveal_strlit("3");
        reveal_strlit("4");
        reveal_strlit("5");
        reveal_strlit("6");
        reveal_strlit("7");
        reveal_strlit("8");
        reveal_strlit("9");
    }
    let s = match d {
        0u8 => "0",
        1u8 => "1",
        2u8 => "2",
        3u8 => "3",
        4u8 => "4",
        5u8 => "5",
        6u8 => "6",
        7u8 => "7",
        8u8 => "8",
        _ => "9",
    };
    proof {
        assert(s@ =~= seq![spec_digit_char(d)]);
    }
    s
}

/// Decimal text of a non-negative integer, most significant digit first.
pub open spec fn spec_decimal_str(n: nat) -> Seq<char>
    decreases n,
{
    if n < 10 {
        seq![spec_digit_char(n as u8)]
    } else {
        spec_decimal_str(n / 10).push(spec_digit_char((n % 10) as u8))
    }
}

/// Format an integer in decimal.
pub fn u64_to_string(n: u64) -> (s: String)
    ensures
        s@ == spec_decimal_str(n as nat),
    decreases n,
{
    if n < 10 {
        String::from_str(digit_str(n as u8))
    } else {
        let mut s = u64_to_string(n / 10);
        s.append(digit_str((n % 10) as u8));
        proof {
            assert(s@ =~= spec_decimal_str(n as nat));
        }
        s
    }
}

} // verus!
