//! The game tree: decision nodes with per-hand strategy arrays, chance nodes
//! enumerating the remaining deck cards of an undealt street, and terminal
//! nodes for folds and showdowns. The builder enumerates the full tree for a
//! configuration; every decision node carries a uniform starting strategy in
//! which each surviving hand's action probabilities sum to the whole scale.
use vstd::prelude::*;

verus! {

use vstd::arithmetic::div_mod::{lemma_fundamental_div_mod, lemma_fundamental_div_mod_converse};
use crate::bet::{
    Action,
    BetSizeOptions,
    MAX_CHIPS,
    spec_action_menu,
    action_menu,
    lemma_menu_shape,
};
use crate::range::{PlayerRange, RangeTok, spec_survivors, survivors, WEIGHT_SCALE};

/// One node of the game tree.
pub enum Node {
    /// A decision point: acting player, ordered action menu, one child per
    /// action, and the flattened strategy array indexed by
    /// action * hand_count + hand, in per-mille.
    Decision { player: u8, actions: Vec<Action>, children: Vec<Node>, strat: Vec<u32> },
    /// An undealt street: one child per remaining deck card.
    Chance { cards: Vec<u8>, children: Vec<Node> },
    /// Hand over: `folder` is the folding player, or 2 for a showdown;
    /// `pot` the chips contested at that point.
    Terminal { folder: u8, pot: u64 },
}

/// Tree-construction configuration: pot and stack at the root and the
/// configured bet and raise sizes (shared by all streets).
pub struct BuildCfg {
    pub starting_pot: u64,
    pub stack: u64,
    pub sizes: BetSizeOptions,
}

impl BuildCfg {
    pub open spec fn wf(&self) -> bool {
        &&& 1 <= self.starting_pot <= MAX_CHIPS
        &&& 1 <= self.stack <= MAX_CHIPS
        &&& self.sizes.wf()
    }
}

/// A board holds at most five cards, each below 52.
pub open spec fn board_ok(board: Seq<u8>) -> bool {
    &&& board.len() <= 5
    &&& forall|k: int| 0 <= k < board.len() ==> board[k] < 52
}

/// Number of surviving hand combinations of `player` on `board`.
pub open spec fn spec_hands(r0: Seq<RangeTok>, r1: Seq<RangeTok>, player: u8, board: Seq<u8>) -> int {
    if player == 0 {
        spec_survivors(r0, board).len() as int
    } else {
        spec_survivors(r1, board).len() as int
    }
}

/// Sum of the strategy entries of hand `h` over the first `a` actions.
pub open spec fn row_sum(s: Seq<u32>, nh: int, h: int, a: int) -> int
    decreases a,
{
    if a <= 0 {
        0
    } else {
        row_sum(s, nh, h, a - 1) + s[(a - 1) * nh + h]
    }
}

/// Well-formed node on `board`: decision nodes have one child per action and
/// a strategy array sized for the acting player's surviving hands in which
/// every hand's probabilities sum to the whole scale; chance nodes have one
/// child per card, each well-formed on the extended board.
pub open spec fn node_wf(n: Node, r0: Seq<RangeTok>, r1: Seq<RangeTok>, board: Seq<u8>) -> bool
    decreases n,
{
    match n {
        Node::Decision { player, actions, children, strat } => {
            &&& player < 2
            &&& 1 <= actions@.len() <= 33
            &&& children@.len() == actions@.len()
            &&& strat@.len() == actions@.len() * spec_hands(r0, r1, player, board)
            &&& (forall|h: int|
                0 <= h < spec_hands(r0, r1, player, board) ==> row_sum(
                    strat@,
                    spec_hands(r0, r1, player, board),
                    h,
                    actions@.len() as int,
                ) == WEIGHT_SCALE)
            &&& (forall|i: int|
                0 <= i < children@.len() ==> node_wf(#[trigger] children@[i], r0, r1, board))
        },
        Node::Chance { cards, children } => {
            &&& children@.len() == cards@.len()
            &&& (forall|i: int|
                0 <= i < cards@.len() ==> #[trigger] cards@[i] < 52 && !board.contains(cards@[i]))
            &&& (forall|i: int|
                0 <= i < children@.len() ==> node_wf(
                    #[trigger] children@[i],
                    r0,
                    r1,
                    board.push(cards@[i]),
                ))
        },
        Node::Terminal { folder, pot } => folder <= 2,
    }
}

/// The remaining deck cards at or above `d` that are not on the board, in
/// ascending order.
pub open spec fn spec_remaining_from(board: Seq<u8>, d: int) -> Seq<u8>
    decreases 52 - d,
    when 0 <= d <= 52
{
    if d >= 52 {
        Seq::empty()
    } else if board.contains(d as u8) {
        spec_remaining_from(board, d + 1)
    } else {
        seq![d as u8] + spec_remaining_from(board, d + 1)
    }
}

/// All remaining deck cards off the board, ascending.
pub open spec fn spec_remaining(board: Seq<u8>) -> Seq<u8> {
    spec_remaining_from(board, 0)
}

/// What the child reached by one action must be, given the decision state
/// it was built from.
pub open spec fn child_conforms(
    child: Node,
    act: Action,
    cfg: BuildCfg,
    board: Seq<u8>,
    cm: u64,
    co: u64,
    checked: bool,
    player: u8,
) -> bool
    decreases child, 1int,
{
    match act {
        Action::Fold => child == (Node::Terminal {
            folder: player,
            pot: (cfg.starting_pot + cm + co) as u64,
        }),
        Action::Check => if checked {
            street_conforms(child, cfg, board, cm)
        } else {
            node_conforms(child, cfg, board, co, co, true, (1 - player) as u8)
        },
        Action::Call => street_conforms(child, cfg, board, co),
        Action::Bet(x) => node_conforms(child, cfg, board, co, (co + x) as u64, false, (1
            - player) as u8),
        Action::Raise(x) => node_conforms(child, cfg, board, co, (co + x) as u64, false, (1
            - player) as u8),
        Action::AllIn(x) => node_conforms(child, cfg, board, co, (co + x) as u64, false, (1
            - player) as u8),
    }
}

/// The tree below a decision state is exactly what the configuration
/// prescribes: the stated player acts, the action list is the spec menu of
/// the node's pot and stack state, and each child continues per its action.
pub open spec fn node_conforms(
    n: Node,
    cfg: BuildCfg,
    board: Seq<u8>,
    cm: u64,
    co: u64,
    checked: bool,
    player: u8,
) -> bool
    decreases n, 0int,
{
    match n {
        Node::Decision { player: p, actions, children, strat } => {
            let to_call = (co - cm) as u64;
            let pot_after = (cfg.starting_pot + 2 * co) as u64;
            let cap = (cfg.stack - co) as u64;
            let sizes = if to_call > 0 {
                cfg.sizes.raise@
            } else {
                cfg.sizes.bet@
            };
            &&& p == player
            &&& actions@ == spec_action_menu(sizes, to_call, pot_after, cap)
            &&& children@.len() == actions@.len()
            &&& (forall|i: int|
                0 <= i < children@.len() ==> child_conforms(
                    #[trigger] children@[i],
                    actions@[i],
                    cfg,
                    board,
                    cm,
                    co,
                    checked,
                    player,
                ))
        },
        _ => false,
    }
}

/// The tree after a street ends with both players at `c` is exactly what
/// the configuration prescribes: a showdown on a full board, else a chance
/// node whose cards are exactly the remaining deck in ascending order, each
/// child the runout continuation or the next street's first decision.
pub open spec fn street_conforms(n: Node, cfg: BuildCfg, board: Seq<u8>, c: u64) -> bool
    decreases n, 0int,
{
    if board.len() >= 5 {
        n == (Node::Terminal { folder: 2u8, pot: (cfg.starting_pot + 2 * c) as u64 })
    } else {
        match n {
            Node::Chance { cards, children } => {
                &&& cards@ == spec_remaining(board)
                &&& children@.len() == cards@.len()
                &&& (forall|i: int|
                    0 <= i < children@.len() ==> (if c == cfg.stack {
                        street_conforms(#[trigger] children@[i], cfg, board.push(cards@[i]), c)
                    } else {
                        node_conforms(
                            #[trigger] children@[i],
                            cfg,
                            board.push(cards@[i]),
                            c,
                            c,
                            false,
                            0u8,
                        )
                    }))
            },
            _ => false,
        }
    }
}

/// A row sum of unsigned entries is non-negative.
pub proof fn lemma_row_sum_nonneg(s: Seq<u32>, nh: int, h: int, a: int)
    ensures
        row_sum(s, nh, h, a) >= 0,
    decreases a,
{
    if a > 0 {
        lemma_row_sum_nonneg(s, nh, h, a - 1);
    }
}

/// No single strategy entry exceeds its hand's row sum.
pub proof fn lemma_row_entry_bound(s: Seq<u32>, nh: int, h: int, j: int, a: int)
    requires
        0 <= j < a,
        0 <= h,
    ensures
        row_sum(s, nh, h, a) >= s[j * nh + h],
    decreases a,
{
    if j == a - 1 {
        lemma_row_sum_nonneg(s, nh, h, a - 1);
    } else {
        lemma_row_entry_bound(s, nh, h, j, a - 1);
    }
}

/// The uniform strategy array over `n_act` actions and `nh` hands: each
/// hand's row is as even as integer per-mille values allow and sums to the
/// whole scale.
pub open spec fn spec_uniform(n_act: int, nh: int) -> Seq<u32> {
    Seq::new(
        (n_act * nh) as nat,
        |x: int|
            ((1000int / n_act) + if x / nh < 1000int % n_act {
                1int
            } else {
                0int
            }) as u32,
    )
}

proof fn lemma_uniform_partial_sum(n_act: int, nh: int, h: int, a: int)
    requires
        1 <= n_act,
        0 <= h < nh,
        0 <= a <= n_act,
    ensures
        row_sum(spec_uniform(n_act, nh), nh, h, a) == a * (1000int / n_act) + (if a <= 1000int
            % n_act {
            a
        } else {
            1000int % n_act
        }),
    decreases a,
{
    if a > 0 {
        lemma_uniform_partial_sum(n_act, nh, h, a - 1);
        let x = (a - 1) * nh + h;
        assert(0 <= (a - 1) * nh + h && (a - 1) * nh + h < n_act * nh) by (nonlinear_arith)
            requires
                1 <= a <= n_act,
                0 <= h < nh,
        ;
        lemma_fundamental_div_mod_converse(x, nh, a - 1, h);
        assert(0 <= 1000int / n_act <= 1000 && 0 <= 1000int % n_act < n_act) by (nonlinear_arith)
            requires
                n_act >= 1,
        ;
        assert(spec_uniform(n_act, nh)[x] == ((1000int / n_act) + if a - 1 < 1000int % n_act {
            1int
        } else {
            0int
        }) as u32);
        assert(spec_uniform(n_act, nh)[x] as int == (1000int / n_act) + if a - 1 < 1000int
            % n_act {
            1int
        } else {
            0int
        });
        assert((a - 1) * (1000int / n_act) + (1000int / n_act) == a * (1000int / n_act))
            by (nonlinear_arith);
        assert(row_sum(spec_uniform(n_act, nh), nh, h, a) == row_sum(
            spec_uniform(n_act, nh),
            nh,
            h,
            a - 1,
        ) + spec_uniform(n_act, nh)[x]);
        let q = 1000int / n_act;
        let r = 1000int % n_act;
        assert(row_sum(spec_uniform(n_act, nh), nh, h, a - 1) == (a - 1) * q + (if a - 1 <= r {
            a - 1
        } else {
            r
        }));
        if a - 1 < r {
            assert(spec_uniform(n_act, nh)[x] as int == q + 1);
            assert(row_sum(spec_uniform(n_act, nh), nh, h, a) == a * q + a);
            assert(a <= r);
        } else {
            assert(spec_uniform(n_act, nh)[x] as int == q);
            assert(row_sum(spec_uniform(n_act, nh), nh, h, a) == a * q + r);
            assert(!(a <= r));
        }
    } else {
        assert(0 <= 1000int % n_act < n_act) by (nonlinear_arith)
            requires
                n_act >= 1,
        ;
        assert(a == 0);
        assert(row_sum(spec_uniform(n_act, nh), nh, h, 0) == 0);
        assert(0 * (1000int / n_act) == 0) by (nonlinear_arith);
    }
    assert(row_sum(spec_uniform(n_act, nh), nh, h, a) == a * (1000int / n_act) + (if a <= 1000int
        % n_act {
        a
    } else {
        1000int % n_act
    }));
}

/// Every hand's row of the uniform strategy sums to the whole scale.
pub proof fn lemma_uniform_row_sum(n_act: int, nh: int, h: int)
    requires
        1 <= n_act,
        0 <= h < nh,
    ensures
        row_sum(spec_uniform(n_act, nh), nh, h, n_act) == WEIGHT_SCALE,
{
    lemma_uniform_partial_sum(n_act, nh, h, n_act);
    lemma_fundamental_div_mod(1000, n_act);
    assert(n_act * (1000int / n_act) == 1000 - 1000int % n_act);
}

/// Build the uniform strategy array for `n_act` actions and `nh` hands.
pub fn uniform_strat(n_act: usize, nh: usize) -> (v: Vec<u32>)
    requires
        n_act >= 1,
    ensures
        v@ == spec_uniform(n_act as int, nh as int),
{
    let q: u32 = (1000u64 / (n_act as u64)) as u32;
    let rem: u64 = 1000u64 % (n_act as u64);
    let mut v: Vec<u32> = Vec::new();
    let mut a: usize = 0;
    while a < n_act
        invariant
            0 <= a <= n_act,
            v@.len() == a * (nh as int),
            q == 1000int / (n_act as int),
            rem == 1000int % (n_act as int),
            n_act >= 1,
            forall|x: int| 0 <= x < v@.len() ==> v@[x] == spec_uniform(n_act as int, nh as int)[x],
        decreases n_act - a,
    {
        let mut h: usize = 0;
        let val: u32 = if (a as u64) < rem {
            q + 1
        } else {
            q
        };
        while h < nh
            invariant
                0 <= h <= nh,
                0 <= a < n_act,
                v@.len() == a * (nh as int) + h,
                q == 1000int / (n_act as int),
                rem == 1000int % (n_act as int),
                n_act >= 1,
                val == ((1000int / (n_act as int)) + if a < 1000int % (n_act as int) {
                    1int
                } else {
                    0int
                }) as u32,
                forall|x: int|
                    0 <= x < v@.len() ==> v@[x] == spec_uniform(n_act as int, nh as int)[x],
            decreases nh - h,
        {
            proof {
                let x = a * (nh as int) + h;
                assert(x < (n_act as int) * (nh as int)) by (nonlinear_arith)
                    requires
                        x == a * (nh as int) + h,
                        a < n_act,
                        0 <= h < nh,
                ;
                lemma_fundamental_div_mod_converse(x, nh as int, a as int, h as int);
            }
            v.push(val);
            h = h + 1;
        }
        proof {
            assert(a * (nh as int) + nh == (a + 1) * (nh as int)) by (nonlinear_arith);
        }
        a = a + 1;
    }
    proof {
        assert((n_act as int) * (nh as int) >= 0) by (nonlinear_arith)
            requires
                n_act >= 1,
                nh >= 0,
        ;
        assert(v@ =~= spec_uniform(n_act as int, nh as int));
    }
    v
}

pub fn board_has(board: &Vec<u8>, d: u8) -> (r: bool)
    ensures
        r == board@.contains(d),
{
    let n = board.len();
    let mut k: usize = 0;
    let mut found = false;
    while k < n
        invariant
            k <= n,
            n == board@.len(),
            found == (exists|j: int| 0 <= j < k && board@[j] == d),
        decreases n - k,
    {
        if board[k] == d {
            found = true;
        }
        k = k + 1;
    }
    proof {
        if found {
            let j = choose|j: int| 0 <= j < k && board@[j] == d;
            assert(board@[j] == d);
        }
    }
    found
}

/// Build the decision node where the player to act has committed `cm`, the
/// opponent `co`, on the given board; `checked` says whether the opponent
/// already checked this street.
pub fn build_decision(
    cfg: &BuildCfg,
    r0: &PlayerRange,
    r1: &PlayerRange,
    board: &Vec<u8>,
    cm: u64,
    co: u64,
    checked: bool,
    player: u8,
) -> (n: Node)
    requires
        cfg.wf(),
        cm <= co <= cfg.stack,
        player < 2,
        board_ok(board@),
        3 <= board@.len() <= 5,
    ensures
        node_wf(n, r0.toks@, r1.toks@, board@),
        node_conforms(n, *cfg, board@, cm, co, checked, player),
        n is Decision,
    decreases 5 - board@.len(), 2 * cfg.stack - (cm + co), (if checked {
        1int
    } else {
        2int
    }),
{
    let to_call = co - cm;
    let pot_after = cfg.starting_pot + 2 * co;
    let cap = cfg.stack - co;
    let sizes = if to_call > 0 {
        &cfg.sizes.raise
    } else {
        &cfg.sizes.bet
    };
    let menu = action_menu(sizes, to_call, pot_after, cap);
    proof {
        lemma_menu_shape(sizes@, to_call, pot_after, cap);
        crate::bet::lemma_menu_len(sizes@, to_call, pot_after, cap);
    }
    let n_act = menu.len();
    let mut children: Vec<Node> = Vec::new();
    let mut k: usize = 0;
    while k < n_act
        invariant
            0 <= k <= n_act,
            n_act == menu@.len(),
            n_act >= 1,
            children@.len() == k,
            cfg.wf(),
            cm <= co <= cfg.stack,
            player < 2,
            board_ok(board@),
            3 <= board@.len() <= 5,
            to_call == co - cm,
            cap == cfg.stack - co,
            forall|i: int|
                0 <= i < children@.len() ==> node_wf(#[trigger] children@[i], r0.toks@, r1.toks@, board@),
            forall|i: int|
                0 <= i < children@.len() ==> child_conforms(
                    #[trigger] children@[i],
                    menu@[i],
                    *cfg,
                    board@,
                    cm,
                    co,
                    checked,
                    player,
                ),
            forall|j: int|
                0 <= j < menu@.len() ==> {
                    let a = #[trigger] menu@[j];
                    &&& (a matches Action::Bet(x) ==> to_call == 0 && 1 <= x < cap)
                    &&& (a matches Action::Raise(x) ==> to_call > 0 && 1 <= x < cap)
                    &&& (a matches Action::AllIn(x) ==> x == cap && cap >= 1)
                    &&& (a == Action::Check ==> to_call == 0)
                    &&& (a == Action::Call ==> to_call > 0)
                    &&& (a == Action::Fold ==> to_call > 0)
                },
        decreases n_act - k,
    {
        let act = menu[k];
        let child: Node = match act {
            Action::Fold => Node::Terminal { folder: player, pot: cfg.starting_pot + cm + co },
            Action::Check => {
                if checked {
                    street_end(cfg, r0, r1, board, cm)
                } else {
                    build_decision(cfg, r0, r1, board, co, co, true, 1 - player)
                }
            },
            Action::Call => street_end(cfg, r0, r1, board, co),
            Action::Bet(x) => build_decision(cfg, r0, r1, board, co, co + x, false, 1 - player),
            Action::Raise(x) => build_decision(cfg, r0, r1, board, co, co + x, false, 1 - player),
            Action::AllIn(x) => build_decision(cfg, r0, r1, board, co, co + x, false, 1 - player),
        };
        children.push(child);
        k = k + 1;
    }
    let hvec = if player == 0 {
        survivors(r0, board)
    } else {
        survivors(r1, board)
    };
    let nh = hvec.len();
    let strat = uniform_strat(n_act, nh);
    proof {
        assert forall|h: int|
            0 <= h < spec_hands(r0.toks@, r1.toks@, player, board@) implies row_sum(
            spec_uniform(n_act as int, nh as int),
            spec_hands(r0.toks@, r1.toks@, player, board@),
            h,
            n_act as int,
        ) == WEIGHT_SCALE by {
            lemma_uniform_row_sum(n_act as int, nh as int, h);
        }
    }
    Node::Decision { player, actions: menu, children, strat }
}

/// Build the node that follows the end of a street where each player has
/// committed `c` in total: a showdown on a full board, the all-in runout
/// when the stacks are exhausted, else the next street's first decision,
/// behind a chance node enumerating each remaining card.
pub fn street_end(cfg: &BuildCfg, r0: &PlayerRange, r1: &PlayerRange, board: &Vec<u8>, c: u64) -> (n:
    Node)
    requires
        cfg.wf(),
        c <= cfg.stack,
        board_ok(board@),
        3 <= board@.len() <= 5,
    ensures
        node_wf(n, r0.toks@, r1.toks@, board@),
        street_conforms(n, *cfg, board@, c),
    decreases 5 - board@.len(), 2 * cfg.stack - 2 * c, 0int,
{
    if board.len() == 5 {
        return Node::Terminal { folder: 2, pot: cfg.starting_pot + 2 * c };
    }
    let mut cards: Vec<u8> = Vec::new();
    let mut children: Vec<Node> = Vec::new();
    let mut d: u8 = 0;
    while d < 52
        invariant
            0 <= d <= 52,
            cfg.wf(),
            c <= cfg.stack,
            board_ok(board@),
            3 <= board@.len() < 5,
            children@.len() == cards@.len(),
            forall|i: int|
                0 <= i < cards@.len() ==> #[trigger] cards@[i] < 52 && !board@.contains(cards@[i]),
            forall|i: int|
                0 <= i < children@.len() ==> node_wf(
                    #[trigger] children@[i],
                    r0.toks@,
                    r1.toks@,
                    board@.push(cards@[i]),
                ),
            spec_remaining(board@) == cards@ + spec_remaining_from(board@, d as int),
            forall|i: int|
                0 <= i < children@.len() ==> (if c == cfg.stack {
                    street_conforms(#[trigger] children@[i], *cfg, board@.push(cards@[i]), c)
                } else {
                    node_conforms(
                        #[trigger] children@[i],
                        *cfg,
                        board@.push(cards@[i]),
                        c,
                        c,
                        false,
                        0u8,
                    )
                }),
        decreases 52 - d,
    {
        if !board_has(board, d) {
            let mut b2 = board.clone();
            proof {
                assert(b2@ =~= board@);
            }
            b2.push(d);
            let child: Node = if c == cfg.stack {
                street_end(cfg, r0, r1, &b2, c)
            } else {
                build_decision(cfg, r0, r1, &b2, c, c, false, 0)
            };
            let ghost old_cards = cards@;
            cards.push(d);
            children.push(child);
            proof {
                assert(spec_remaining_from(board@, d as int) == seq![d]
                    + spec_remaining_from(board@, d as int + 1));
                assert(old_cards + (seq![d] + spec_remaining_from(board@, d as int + 1))
                    =~= cards@ + spec_remaining_from(board@, d as int + 1));
            }
        }
        d = d + 1;
    }
    proof {
        assert(spec_remaining_from(board@, 52) =~= Seq::<u8>::empty());
        assert(cards@ + Seq::<u8>::empty() =~= cards@);
    }
    Node::Chance { cards, children }
}

} // verus!
