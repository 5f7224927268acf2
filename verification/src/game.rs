//! The solver session: it owns the parsed configuration, both ranges, the
//! board, the built game tree and a navigation cursor, and answers the
//! strategy and weight queries at the cursor position.
use vstd::prelude::*;

verus! {

use vstd::string::{StringExecFns, StrSliceExecFns};
use crate::SolverError;
use crate::card::{
    flop_from_str,
    card_from_str,
    hole_to_string,
    spec_hole_str,
    spec_card_of,
    spec_cards_from,
    spec_all_distinct,
    u64_to_string,
    spec_decimal_str,
};
use crate::range::{
    PlayerRange,
    parse_range,
    spec_range_from,
    spec_survivors,
    survivors,
    WEIGHT_SCALE,
};
use crate::bet::{Action, BetSizeOptions, MAX_CHIPS, spec_sizes_from};
use crate::tree::{
    Node,
    BuildCfg,
    board_ok,
    node_wf,
    node_conforms,
    spec_hands,
    row_sum,
    build_decision,
    board_has,
};

/// How much of the board is fixed at construction time.
#[derive(Clone, Copy, Debug, PartialEq, Eq, Structural)]
pub enum BoardState {
    Flop,
    Turn,
    River,
}

/// Number of children of a node (0 at a terminal).
pub open spec fn spec_num_children(n: Node) -> int {
    match n {
        Node::Decision { children, .. } => children@.len() as int,
        Node::Chance { children, .. } => children@.len() as int,
        Node::Terminal { .. } => 0,
    }
}

/// Child `i` of a node.
pub open spec fn spec_child(n: Node, i: int) -> Node {
    match n {
        Node::Decision { children, .. } => children@[i],
        Node::Chance { children, .. } => children@[i],
        Node::Terminal { .. } => n,
    }
}

/// Whether `path` denotes a node of the tree rooted at `n`.
pub open spec fn path_ok(n: Node, path: Seq<usize>) -> bool
    decreases path.len(),
{
    path.len() == 0 || (0 <= path[0] < spec_num_children(n) && path_ok(
        spec_child(n, path[0] as int),
        path.drop_first(),
    ))
}

/// The node reached from `n` along `path`.
pub open spec fn spec_node_at(n: Node, path: Seq<usize>) -> Node
    decreases path.len(),
{
    if path.len() == 0 {
        n
    } else {
        spec_node_at(spec_child(n, path[0] as int), path.drop_first())
    }
}

/// The board at the node reached along `path`: chance steps add their card.
pub open spec fn spec_board_at(n: Node, board: Seq<u8>, path: Seq<usize>) -> Seq<u8>
    decreases path.len(),
{
    if path.len() == 0 {
        board
    } else {
        let b2 = match n {
            Node::Chance { cards, .. } => board.push(cards@[path[0] as int]),
            _ => board,
        };
        spec_board_at(spec_child(n, path[0] as int), b2, path.drop_first())
    }
}

/// Extending a valid path by a valid child index keeps it valid and reaches
/// that child.
pub proof fn lemma_path_push(n: Node, path: Seq<usize>, i: usize)
    requires
        path_ok(n, path),
        0 <= i < spec_num_children(spec_node_at(n, path)),
    ensures
        path_ok(n, path.push(i)),
        spec_node_at(n, path.push(i)) == spec_child(spec_node_at(n, path), i as int),
    decreases path.len(),
{
    if path.len() == 0 {
        assert(path.push(i).drop_first() =~= Seq::<usize>::empty());
        assert(path.push(i)[0] == i);
        assert(spec_node_at(n, path) == n);
        assert(path_ok(spec_child(n, i as int), path.push(i).drop_first()));
        assert(spec_node_at(n, path.push(i)) == spec_node_at(
            spec_child(n, i as int),
            path.push(i).drop_first(),
        ));
    } else {
        assert(path_ok(spec_child(n, path[0] as int), path.drop_first()));
        assert(spec_node_at(n, path) == spec_node_at(
            spec_child(n, path[0] as int),
            path.drop_first(),
        ));
        lemma_path_push(spec_child(n, path[0] as int), path.drop_first(), i);
        assert(path.push(i).drop_first() =~= path.drop_first().push(i));
        assert(path.push(i)[0] == path[0]);
        assert(path.push(i).len() > 0);
        assert(path_ok(spec_child(n, path[0] as int), path.push(i).drop_first()));
        assert(spec_node_at(n, path.push(i)) == spec_node_at(
            spec_child(n, path[0] as int),
            path.drop_first().push(i),
        ));
    }
}

/// The flattened strategy stored at the node on `path` (empty off decision
/// nodes). A query's result is a function of the tree and the path alone.
pub open spec fn spec_strategy_at(n: Node, path: Seq<usize>) -> Seq<u32> {
    match spec_node_at(n, path) {
        Node::Decision { strat, .. } => strat@,
        _ => Seq::empty(),
    }
}

/// The cards a chance node on `path` can deal (empty off chance nodes).
pub open spec fn spec_chance_cards(n: Node, path: Seq<usize>) -> Seq<u8> {
    match spec_node_at(n, path) {
        Node::Chance { cards, .. } => cards@,
        _ => Seq::empty(),
    }
}

/// Text of one action.
pub open spec fn spec_action_label(a: Action) -> Seq<char> {
    match a {
        Action::Fold => seq!['F', 'o', 'l', 'd'],
        Action::Check => seq!['C', 'h', 'e', 'c', 'k'],
        Action::Call => seq!['C', 'a', 'l', 'l'],
        Action::Bet(x) => seq!['B', 'e', 't', '('] + spec_decimal_str(x as nat) + seq![')'],
        Action::Raise(x) => seq!['R', 'a', 'i', 's', 'e', '('] + spec_decimal_str(x as nat)
            + seq![')'],
        Action::AllIn(x) => seq!['A', 'l', 'l', 'I', 'n', '('] + spec_decimal_str(x as nat)
            + seq![')'],
    }
}

/// Format one action as text such as "Check" or "Bet(5)".
pub fn action_label(a: &Action) -> (s: String)
    ensures
        s@ == spec_action_label(*a),
{
    proof {
        reveal_strlit("Fold");
        reveal_strlit("Check");
        reveal_strlit("Call");
        reveal_strlit("Bet(");
        reveal_strlit("Raise(");
        reveal_strlit("AllIn(");
        reveal_strlit(")");
    }
    match a {
        Action::Fold => {
            let s = String::from_str("Fold");
            proof {
                assert(s@ =~= spec_action_label(*a));
            }
            s
        },
        Action::Check => {
            let s = String::from_str("Check");
            proof {
                assert(s@ =~= spec_action_label(*a));
            }
            s
        },
        Action::Call => {
            let s = String::from_str("Call");
            proof {
                assert(s@ =~= spec_action_label(*a));
            }
            s
        },
        Action::Bet(x) => {
            let mut s = String::from_str("Bet(");
            let d = u64_to_string(*x);
            s.append(d.as_str());
            s.append(")");
            proof {
                assert(s@ =~= spec_action_label(*a));
            }
            s
        },
        Action::Raise(x) => {
            let mut s = String::from_str("Raise(");
            let d = u64_to_string(*x);
            s.append(d.as_str());
            s.append(")");
            proof {
                assert(s@ =~= spec_action_label(*a));
            }
            s
        },
        Action::AllIn(x) => {
            let mut s = String::from_str("AllIn(");
            let d = u64_to_string(*x);
            s.append(d.as_str());
            s.append(")");
            proof {
                assert(s@ =~= spec_action_label(*a));
            }
            s
        },
    }
}

/// View of an optional string argument.
pub open spec fn spec_opt_view(o: Option<&str>) -> Option<Seq<char>> {
    match o {
        Option::Some(s) => Some(s@),
        Option::None => None,
    }
}

/// The full board denoted by flop text plus optional turn and river texts:
/// three distinct flop cards, each later street a fresh card, and a river
/// only on top of a turn.
pub open spec fn spec_board_of(
    flop: Seq<char>,
    turn: Option<Seq<char>>,
    river: Option<Seq<char>>,
) -> Option<Seq<u8>> {
    let f = spec_cards_from(flop, 0);
    if !(f is Some && f->Some_0.len() == 3 && spec_all_distinct(f->Some_0)) {
        None
    } else {
        let b3 = f->Some_0;
        match (turn, river) {
            (Option::None, Option::None) => Some(b3),
            (Option::None, Option::Some(_)) => None,
            (Option::Some(t), Option::None) => match spec_card_of(t) {
                Some(c) => if !b3.contains(c) {
                    Some(b3.push(c))
                } else {
                    None
                },
                None => None,
            },
            (Option::Some(t), Option::Some(rv)) => match (spec_card_of(t), spec_card_of(rv)) {
                (Some(c), Some(d)) => if !b3.contains(c) && !b3.push(c).contains(d) {
                    Some(b3.push(c).push(d))
                } else {
                    None
                },
                _ => None,
            },
        }
    }
}

/// Whether all textual inputs of a construction parse.
pub open spec fn spec_inputs_parse(
    oop: Seq<char>,
    ip: Seq<char>,
    flop: Seq<char>,
    bets: Seq<char>,
    raises: Seq<char>,
    turn: Option<Seq<char>>,
    river: Option<Seq<char>>,
) -> bool {
    &&& spec_range_from(oop, 0) is Some
    &&& spec_range_from(ip, 0) is Some
    &&& spec_board_of(flop, turn, river) is Some
    &&& spec_sizes_from(bets, 0) is Some
    &&& spec_sizes_from(raises, 0) is Some
    &&& spec_sizes_from(bets, 0)->Some_0.len() <= crate::bet::MAX_SIZES
    &&& spec_sizes_from(raises, 0)->Some_0.len() <= crate::bet::MAX_SIZES
}

/// Whether a construction succeeds: everything parses, pot and stack lie in
/// bounds, and both ranges keep at least one combination on the board.
pub open spec fn spec_construct_ok(
    oop: Seq<char>,
    ip: Seq<char>,
    flop: Seq<char>,
    pot: u64,
    stack: u64,
    bets: Seq<char>,
    raises: Seq<char>,
    turn: Option<Seq<char>>,
    river: Option<Seq<char>>,
) -> bool {
    &&& spec_inputs_parse(oop, ip, flop, bets, raises, turn, river)
    &&& 1 <= pot <= MAX_CHIPS
    &&& 1 <= stack <= MAX_CHIPS
    &&& spec_survivors(
        spec_range_from(oop, 0)->Some_0,
        spec_board_of(flop, turn, river)->Some_0,
    ).len() > 0
    &&& spec_survivors(
        spec_range_from(ip, 0)->Some_0,
        spec_board_of(flop, turn, river)->Some_0,
    ).len() > 0
}

/// The weight of each surviving combination, as fixed-point masses.
pub open spec fn spec_weight_vals(toks: Seq<crate::range::RangeTok>, board: Seq<u8>) -> Seq<u64> {
    Seq::new(spec_survivors(toks, board).len(), |k: int| spec_survivors(toks, board)[k].2 as u64)
}

/// Weighted mass of action `a` over the first `h` hands: strategy times
/// normalized weight, summed.
pub open spec fn spec_dot(s: Seq<u32>, w: Seq<u32>, nh: int, a: int, h: int) -> int
    decreases h,
{
    if h <= 0 {
        0
    } else {
        spec_dot(s, w, nh, a, h - 1) + s[a * nh + (h - 1)] * w[h - 1]
    }
}

/// The raw (unnormalized) per-action masses of a strategy under weights.
pub open spec fn spec_freq_vals(s: Seq<u32>, w: Seq<u32>, nh: int, n_act: int) -> Seq<u64> {
    Seq::new(n_act as nat, |a: int| spec_dot(s, w, nh, a, nh) as u64)
}

/// Sum of the numeric halves of labelled pairs.
pub open spec fn spec_pair_sum(s: Seq<(String, u32)>, k: int) -> int
    decreases k,
{
    if k <= 0 {
        0
    } else {
        spec_pair_sum(s, k - 1) + s[k - 1].1
    }
}

proof fn lemma_pair_sum_prefix_eq(s1: Seq<(String, u32)>, s2: Seq<(String, u32)>, k: int)
    requires
        0 <= k <= s1.len(),
        k <= s2.len(),
        forall|j: int| 0 <= j < k ==> s1[j] == s2[j],
    ensures
        spec_pair_sum(s1, k) == spec_pair_sum(s2, k),
    decreases k,
{
    if k > 0 {
        lemma_pair_sum_prefix_eq(s1, s2, k - 1);
    }
}

/// Normalized per-mille weights of a range's surviving combinations on a
/// board: each combination's share of the total surviving weight, summing
/// to the whole scale whenever any combination survives.
fn norm_weights(range: &PlayerRange, board: &Vec<u8>) -> (r: Vec<u32>)
    requires
        range.wf(),
    ensures
        r@.len() == spec_survivors(range.toks@, board@).len(),
        spec_survivors(range.toks@, board@).len() > 0 ==> (forall|k: int|
            0 <= k < r@.len() ==> r@[k] == crate::solve::spec_norm_at(
                spec_weight_vals(range.toks@, board@),
                k,
            )),
        spec_survivors(range.toks@, board@).len() > 0 ==> crate::solve::spec_sum32(
            r@,
            r@.len() as int,
        ) == WEIGHT_SCALE,
        forall|k: int| 0 <= k < r@.len() ==> r@[k] <= 1000,
{
    let sv = survivors(range, board);
    proof {
        crate::range::lemma_survivors_elems(range.toks@, board@);
        crate::range::lemma_survivors_count(range.toks@, board@);
    }
    let n = sv.len();
    let mut vals: Vec<u64> = Vec::new();
    let mut k: usize = 0;
    while k < n
        invariant
            0 <= k <= n,
            n == sv@.len(),
            sv@ == spec_survivors(range.toks@, board@),
            vals@.len() == k,
            forall|j: int| 0 <= j < sv@.len() ==> 1 <= (#[trigger] sv@[j]).2 <= 1000,
            forall|j: int| 0 <= j < k ==> vals@[j] == sv@[j].2 as u64,
        decreases n - k,
    {
        let (_a, _b, w) = sv[k];
        vals.push(w as u64);
        k = k + 1;
    }
    proof {
        assert(vals@ =~= spec_weight_vals(range.toks@, board@));
        if n > 0 {
            crate::solve::lemma_sum64_lower(vals@, n as int);
        }
    }
    crate::solve::normalize_permille(&vals, 1000)
}

/// Which constructor argument a failed construction blames, in the order
/// the inputs are checked.
pub open spec fn spec_failed_argument(
    oop: Seq<char>,
    ip: Seq<char>,
    flop: Seq<char>,
    bets: Seq<char>,
    raises: Seq<char>,
    turn: Option<Seq<char>>,
    river: Option<Seq<char>>,
) -> Seq<char> {
    if spec_range_from(oop, 0) is None {
        "oop_range"@
    } else if spec_range_from(ip, 0) is None {
        "ip_range"@
    } else if !(spec_cards_from(flop, 0) matches Some(cs) && cs.len() == 3 && spec_all_distinct(
        cs,
    )) {
        "flop"@
    } else if turn is None && river is Some {
        "river"@
    } else if turn matches Some(t) && !(spec_card_of(t) matches Some(c) && !spec_cards_from(
        flop,
        0,
    )->Some_0.contains(c)) {
        "turn"@
    } else if river matches Some(rv) && !(spec_card_of(rv) matches Some(d) && !spec_cards_from(
        flop,
        0,
    )->Some_0.push(spec_card_of(turn->Some_0)->Some_0).contains(d)) {
        "river"@
    } else if !(spec_sizes_from(bets, 0) matches Some(v) && v.len() <= crate::bet::MAX_SIZES) {
        "bet_sizes"@
    } else {
        "raise_sizes"@
    }
}

/// Attach the name of the constructor argument a parse error came from.
fn with_argument(e: SolverError, name: &str) -> (r: SolverError)
    ensures
        r is Parse <==> e is Parse,
        r is Config <==> e is Config,
        r is Index <==> e is Index,
        e matches SolverError::Parse { token, .. } ==> (r matches SolverError::Parse {
            argument,
            token: t2,
        } && argument@ == name@ && t2@ == token@),
        !(e is Parse) ==> r == e,
{
    match e {
        SolverError::Parse { token, .. } => SolverError::Parse {
            argument: String::from_str(name),
            token,
        },
        other => other,
    }
}

/// A solving session: configuration, ranges, board, tree and cursor.
pub struct Session {
    pub cfg: BuildCfg,
    pub oop: PlayerRange,
    pub ip: PlayerRange,
    pub board: Vec<u8>,
    pub root: Node,
    pub cursor: Vec<usize>,
    pub w0: Vec<u32>,
    pub w1: Vec<u32>,
}

impl Session {
    /// Session invariant: parsed parts well-formed, the tree well-formed on
    /// the construction board and exactly the tree the configuration
    /// prescribes (player 0 opens, every menu is the spec menu of its
    /// node's pot and stack state, chance nodes deal every remaining card
    /// in ascending order), and the cursor a valid path.
    pub open spec fn wf(&self) -> bool {
        &&& self.cfg.wf()
        &&& self.oop.wf()
        &&& self.ip.wf()
        &&& board_ok(self.board@)
        &&& 3 <= self.board@.len() <= 5
        &&& node_wf(self.root, self.oop.toks@, self.ip.toks@, self.board@)
        &&& node_conforms(self.root, self.cfg, self.board@, 0, 0, false, 0)
        &&& path_ok(self.root, self.cursor@)
    }

    /// Construct a session: parse both ranges, the board and the bet sizes,
    /// validate pot and stack, require each range to keep a combination on
    /// the board, and build the full game tree with its uniform starting
    /// strategies. Succeeds exactly on the inputs `spec_construct_ok`
    /// admits; a failed textual input is a parse error, a degenerate
    /// numeric or range input a configuration error.
    pub fn new(
        oop_range: &str,
        ip_range: &str,
        flop: &str,
        starting_pot: u64,
        effective_stack: u64,
        bet_sizes: &str,
        raise_sizes: &str,
        turn: Option<&str>,
        river: Option<&str>,
    ) -> (r: Result<Session, SolverError>)
        ensures
            r is Ok <==> spec_construct_ok(
                oop_range@,
                ip_range@,
                flop@,
                starting_pot,
                effective_stack,
                bet_sizes@,
                raise_sizes@,
                spec_opt_view(turn),
                spec_opt_view(river),
            ),
            r matches Ok(s) ==> s.wf() && s.cursor@ == Seq::<usize>::empty() && Some(s.board@)
                == spec_board_of(flop@, spec_opt_view(turn), spec_opt_view(river)) && Some(
                s.oop.toks@,
            ) == spec_range_from(oop_range@, 0) && Some(s.ip.toks@) == spec_range_from(
                ip_range@,
                0,
            ) && s.cfg.starting_pot == starting_pot && s.cfg.stack == effective_stack && Some(
                s.cfg.sizes.bet@,
            ) == spec_sizes_from(bet_sizes@, 0) && Some(s.cfg.sizes.raise@) == spec_sizes_from(
                raise_sizes@,
                0,
            ),
            r matches Err(e) ==> ((e matches SolverError::Parse { .. }) <==> !spec_inputs_parse(
                oop_range@,
                ip_range@,
                flop@,
                bet_sizes@,
                raise_sizes@,
                spec_opt_view(turn),
                spec_opt_view(river),
            )),
            r matches Err(e) ==> ((e matches SolverError::Config { .. }) <==> spec_inputs_parse(
                oop_range@,
                ip_range@,
                flop@,
                bet_sizes@,
                raise_sizes@,
                spec_opt_view(turn),
                spec_opt_view(river),
            )),
            r matches Err(e) ==> (e matches SolverError::Parse { argument, .. }
                ==> argument@ == spec_failed_argument(
                oop_range@,
                ip_range@,
                flop@,
                bet_sizes@,
                raise_sizes@,
                spec_opt_view(turn),
                spec_opt_view(river),
            )),
    {
        let oop_r = match parse_range(oop_range) {
            Ok(v) => v,
            Err(e) => {
                return Err(with_argument(e, "oop_range"));
            },
        };
        let ip_r = match parse_range(ip_range) {
            Ok(v) => v,
            Err(e) => {
                return Err(with_argument(e, "ip_range"));
            },
        };
        let mut board = match flop_from_str(flop) {
            Ok(v) => v,
            Err(e) => {
                return Err(with_argument(e, "flop"));
            },
        };
        if let (Option::None, Option::Some(rv)) = (turn, river) {
            return Err(
                SolverError::Parse {
                    argument: String::from_str("river"),
                    token: String::from_str(rv),
                },
            );
        }
        match turn {
            Some(t) => {
                let c = match card_from_str(t) {
                    Ok(v) => v,
                    Err(e) => {
                        return Err(with_argument(e, "turn"));
                    },
                };
                if board_has(&board, c) {
                    return Err(
                        SolverError::Parse {
                            argument: String::from_str("turn"),
                            token: String::from_str(t),
                        },
                    );
                }
                board.push(c);
            },
            None => {},
        }
        match river {
            Some(rv) => {
                let d = match card_from_str(rv) {
                    Ok(v) => v,
                    Err(e) => {
                        return Err(with_argument(e, "river"));
                    },
                };
                if board_has(&board, d) {
                    return Err(
                        SolverError::Parse {
                            argument: String::from_str("river"),
                            token: String::from_str(rv),
                        },
                    );
                }
                board.push(d);
            },
            None => {},
        }
        let bets_v = match crate::bet::parse_sizes(bet_sizes) {
            Ok(v) => v,
            Err(e) => {
                return Err(with_argument(e, "bet_sizes"));
            },
        };
        if bets_v.len() > crate::bet::MAX_SIZES {
            return Err(
                SolverError::Parse {
                    argument: String::from_str("bet_sizes"),
                    token: String::from_str(bet_sizes),
                },
            );
        }
        let raises_v = match crate::bet::parse_sizes(raise_sizes) {
            Ok(v) => v,
            Err(e) => {
                return Err(with_argument(e, "raise_sizes"));
            },
        };
        if raises_v.len() > crate::bet::MAX_SIZES {
            return Err(
                SolverError::Parse {
                    argument: String::from_str("raise_sizes"),
                    token: String::from_str(raise_sizes),
                },
            );
        }
        let sizes = BetSizeOptions { bet: bets_v, raise: raises_v };
        if starting_pot < 1 || starting_pot > MAX_CHIPS {
            return Err(
                SolverError::Config { reason: String::from_str("starting pot out of range") },
            );
        }
        if effective_stack < 1 || effective_stack > MAX_CHIPS {
            return Err(
                SolverError::Config { reason: String::from_str("effective stack out of range") },
            );
        }
        let s0 = survivors(&oop_r, &board);
        if s0.len() == 0 {
            return Err(
                SolverError::Config { reason: String::from_str("empty range on this board") },
            );
        }
        let s1 = survivors(&ip_r, &board);
        if s1.len() == 0 {
            return Err(
                SolverError::Config { reason: String::from_str("empty range on this board") },
            );
        }
        let cfg = BuildCfg { starting_pot, stack: effective_stack, sizes };
        let root = build_decision(&cfg, &oop_r, &ip_r, &board, 0, 0, false, 0);
        Ok(
            Session {
                cfg,
                oop: oop_r,
                ip: ip_r,
                board,
                root,
                cursor: Vec::new(),
                w0: Vec::new(),
                w1: Vec::new(),
            },
        )
    }

    /// The board state inferred at construction from which streets were
    /// given.
    pub fn board_state(&self) -> (r: BoardState)
        requires
            self.wf(),
        ensures
            r == BoardState::Flop <==> self.board@.len() == 3,
            r == BoardState::Turn <==> self.board@.len() == 4,
            r == BoardState::River <==> self.board@.len() == 5,
    {
        if self.board.len() == 3 {
            BoardState::Flop
        } else if self.board.len() == 4 {
            BoardState::Turn
        } else {
            BoardState::River
        }
    }

    /// Walk the cursor path: the current node, the board there, and its
    /// well-formedness.
    fn locate(&self) -> (r: (&Node, Vec<u8>))
        requires
            self.wf(),
        ensures
            *r.0 == spec_node_at(self.root, self.cursor@),
            r.1@ == spec_board_at(self.root, self.board@, self.cursor@),
            node_wf(*r.0, self.oop.toks@, self.ip.toks@, r.1@),
    {
        let mut node: &Node = &self.root;
        let mut bd: Vec<u8> = self.board.clone();
        proof {
            assert(bd@ =~= self.board@);
            assert(self.cursor@.skip(0) =~= self.cursor@);
        }
        let n = self.cursor.len();
        let mut i: usize = 0;
        while i < n
            invariant
                0 <= i <= n,
                n == self.cursor@.len(),
                self.wf(),
                path_ok(*node, self.cursor@.skip(i as int)),
                spec_node_at(self.root, self.cursor@) == spec_node_at(
                    *node,
                    self.cursor@.skip(i as int),
                ),
                spec_board_at(self.root, self.board@, self.cursor@) == spec_board_at(
                    *node,
                    bd@,
                    self.cursor@.skip(i as int),
                ),
                node_wf(*node, self.oop.toks@, self.ip.toks@, bd@),
            decreases n - i,
        {
            let idx = self.cursor[i];
            proof {
                let suffix = self.cursor@.skip(i as int);
                assert(suffix.len() > 0);
                assert(suffix[0] == self.cursor@[i as int]);
                assert(suffix.drop_first() =~= self.cursor@.skip(i as int + 1));
            }
            match node {
                Node::Decision { children, .. } => {
                    node = &children[idx];
                },
                Node::Chance { cards, children } => {
                    bd.push(cards[idx]);
                    node = &children[idx];
                },
                Node::Terminal { .. } => {
                    proof {
                        assert(false);
                    }
                },
            }
            i = i + 1;
        }
        proof {
            assert(self.cursor@.skip(n as int) =~= Seq::<usize>::empty());
        }
        (node, bd)
    }

    /// Step the cursor to the child picked by `action_index` in the
    /// advertised action list: play succeeds exactly on the indices of
    /// `get_available_actions`. Any other index — beyond the list, or any
    /// index at a chance or terminal node, whose list is empty — is
    /// reported as an index error naming the list's length, and changes
    /// nothing; chance nodes are advanced with `deal` instead.
    pub fn play(&mut self, action_index: usize) -> (r: Result<(), SolverError>)
        requires
            old(self).wf(),
        ensures
            final(self).wf(),
            final(self).root == old(self).root,
            final(self).board == old(self).board,
            final(self).oop == old(self).oop,
            final(self).ip == old(self).ip,
            final(self).cfg == old(self).cfg,
            final(self).w0 == old(self).w0,
            final(self).w1 == old(self).w1,
            r is Ok <==> action_index < spec_actions_at(old(self).root, old(self).cursor@).len(),
            r is Ok ==> final(self).cursor@ == old(self).cursor@.push(action_index),
            r matches Err(e) ==> final(self).cursor == old(self).cursor && (
            e matches SolverError::Index { index, limit } && index == action_index && limit
                == spec_actions_at(old(self).root, old(self).cursor@).len()),
    {
        let nch: usize;
        {
            let (nd, _bd) = self.locate();
            nch = match nd {
                Node::Decision { actions, .. } => actions.len(),
                _ => 0,
            };
        }
        if action_index < nch {
            proof {
                lemma_path_push(self.root, self.cursor@, action_index);
            }
            self.cursor.push(action_index);
            Ok(())
        } else {
            Err(SolverError::Index { index: action_index, limit: nch })
        }
    }

    /// Step the cursor through a chance node by dealing the card at
    /// `card_index` in its remaining-deck list: deal succeeds exactly on
    /// the indices of `get_chance_cards`. Any other index — beyond the
    /// list, or any index at a decision or terminal node, whose card list
    /// is empty — is reported as an index error naming the list's length,
    /// and changes nothing.
    pub fn deal(&mut self, card_index: usize) -> (r: Result<(), SolverError>)
        requires
            old(self).wf(),
        ensures
            final(self).wf(),
            final(self).root == old(self).root,
            final(self).board == old(self).board,
            final(self).oop == old(self).oop,
            final(self).ip == old(self).ip,
            final(self).cfg == old(self).cfg,
            final(self).w0 == old(self).w0,
            final(self).w1 == old(self).w1,
            r is Ok <==> card_index < spec_chance_cards(old(self).root, old(self).cursor@).len(),
            r is Ok ==> final(self).cursor@ == old(self).cursor@.push(card_index),
            r matches Err(e) ==> final(self).cursor == old(self).cursor && (
            e matches SolverError::Index { index, limit } && index == card_index && limit
                == spec_chance_cards(old(self).root, old(self).cursor@).len()),
    {
        let nch: usize;
        {
            let (nd, _bd) = self.locate();
            nch = match nd {
                Node::Chance { cards, .. } => cards.len(),
                _ => 0,
            };
        }
        if card_index < nch {
            proof {
                lemma_path_push(self.root, self.cursor@, card_index);
            }
            self.cursor.push(card_index);
            Ok(())
        } else {
            Err(SolverError::Index { index: card_index, limit: nch })
        }
    }

    /// The texts of the cards the chance node at the cursor can deal, in
    /// ascending card order; empty off chance nodes.
    pub fn get_chance_cards(&self) -> (r: Vec<String>)
        requires
            self.wf(),
        ensures
            (match spec_node_at(self.root, self.cursor@) {
                Node::Chance { cards, .. } => r@.len() == cards@.len() && (forall|k: int|
                    0 <= k < r@.len() ==> #[trigger] r@[k]@ == crate::card::spec_card_str(
                        cards@[k],
                    )),
                _ => r@.len() == 0,
            }),
    {
        let (nd, _bd) = self.locate();
        match nd {
            Node::Chance { cards, .. } => {
                let n = cards.len();
                let mut out: Vec<String> = Vec::new();
                let mut k: usize = 0;
                while k < n
                    invariant
                        0 <= k <= n,
                        n == cards@.len(),
                        forall|j: int| 0 <= j < cards@.len() ==> #[trigger] cards@[j] < 52,
                        out@.len() == k,
                        forall|j: int|
                            0 <= j < k ==> #[trigger] out@[j]@ == crate::card::spec_card_str(
                                cards@[j],
                            ),
                    decreases n - k,
                {
                    out.push(crate::card::card_to_string(cards[k]));
                    k = k + 1;
                }
                out
            },
            _ => Vec::new(),
        }
    }

    /// The flattened strategy array at the cursor (empty off decision
    /// nodes). Every surviving hand's action probabilities sum to the whole
    /// per-mille scale.
    pub fn get_strategy(&self) -> (r: Vec<u32>)
        requires
            self.wf(),
        ensures
            r@ == spec_strategy_at(self.root, self.cursor@),
            (match spec_node_at(self.root, self.cursor@) {
                Node::Decision { player, actions, .. } => {
                    let h = spec_hands(
                        self.oop.toks@,
                        self.ip.toks@,
                        player,
                        spec_board_at(self.root, self.board@, self.cursor@),
                    );
                    forall|hh: int|
                        0 <= hh < h ==> row_sum(r@, h, hh, actions@.len() as int) == WEIGHT_SCALE
                },
                _ => r@.len() == 0,
            }),
    {
        let (nd, _bd) = self.locate();
        match nd {
            Node::Decision { strat, .. } => {
                let out = strat.clone();
                proof {
                    assert(out@ =~= strat@);
                }
                out
            },
            _ => Vec::new(),
        }
    }

    /// Labels of the actions available at the cursor, in menu order; empty
    /// at chance and terminal nodes.
    pub fn get_available_actions(&self) -> (r: Vec<String>)
        requires
            self.wf(),
        ensures
            (match spec_node_at(self.root, self.cursor@) {
                Node::Decision { actions, .. } => r@.len() == actions@.len() && (forall|k: int|
                    0 <= k < r@.len() ==> #[trigger] r@[k]@ == spec_action_label(actions@[k])),
                _ => r@.len() == 0,
            }),
    {
        let (nd, _bd) = self.locate();
        match nd {
            Node::Decision { actions, .. } => {
                let n = actions.len();
                let mut out: Vec<String> = Vec::new();
                let mut k: usize = 0;
                while k < n
                    invariant
                        0 <= k <= n,
                        n == actions@.len(),
                        out@.len() == k,
                        forall|j: int|
                            0 <= j < k ==> #[trigger] out@[j]@ == spec_action_label(actions@[j]),
                    decreases n - k,
                {
                    out.push(action_label(&actions[k]));
                    k = k + 1;
                }
                out
            },
            _ => Vec::new(),
        }
    }

    /// The surviving hand combinations of one player at the cursor's board,
    /// as text, in enumeration order: index i here names the hand at index
    /// i of the strategy and frequency queries at the same cursor. The
    /// index error names the player limit.
    pub fn get_private_cards(&self, player: usize) -> (r: Result<Vec<String>, SolverError>)
        requires
            self.wf(),
        ensures
            r is Ok <==> player < 2,
            r matches Ok(v) ==> {
                let sv = spec_survivors(
                    if player == 0 {
                        self.oop.toks@
                    } else {
                        self.ip.toks@
                    },
                    spec_board_at(self.root, self.board@, self.cursor@),
                );
                v@.len() == sv.len() && (forall|k: int|
                    0 <= k < v@.len() ==> #[trigger] v@[k]@ == spec_hole_str(sv[k].0, sv[k].1))
            },
            r matches Err(e) ==> (e matches SolverError::Index { index, limit } && index == player
                && limit == 2),
    {
        if player >= 2 {
            return Err(SolverError::Index { index: player, limit: 2 });
        }
        let (_nd, bd) = self.locate();
        let sv = if player == 0 {
            survivors(&self.oop, &bd)
        } else {
            survivors(&self.ip, &bd)
        };
        proof {
            crate::range::lemma_survivors_characterize(
                if player == 0 {
                    self.oop.toks@
                } else {
                    self.ip.toks@
                },
                bd@,
            );
            assert forall|q: int| 0 <= q < sv@.len() implies (#[trigger] sv@[q]).0 < sv@[q].1
                < 52 by {
                let e = sv@[q];
                assert(e == (e.0, e.1, e.2));
                assert(sv@.contains((e.0, e.1, e.2)));
            }
        }
        let n = sv.len();
        let mut out: Vec<String> = Vec::new();
        let mut k: usize = 0;
        while k < n
            invariant
                0 <= k <= n,
                n == sv@.len(),
                sv@ == spec_survivors(
                    if player == 0 {
                        self.oop.toks@
                    } else {
                        self.ip.toks@
                    },
                    spec_board_at(self.root, self.board@, self.cursor@),
                ),
                out@.len() == k,
                forall|q: int| 0 <= q < sv@.len() ==> (#[trigger] sv@[q]).0 < sv@[q].1 < 52,
                forall|j: int|
                    0 <= j < k ==> #[trigger] out@[j]@ == spec_hole_str(sv@[j].0, sv@[j].1),
            decreases n - k,
        {
            let (a, b, _w) = sv[k];
            out.push(hole_to_string(a, b));
            k = k + 1;
        }
        Ok(out)
    }

    /// Reset the cursor to the root. Never fails; nothing else changes.
    pub fn back_to_root(&mut self)
        requires
            old(self).wf(),
        ensures
            final(self).wf(),
            final(self).cursor@ == Seq::<usize>::empty(),
            final(self).root == old(self).root,
            final(self).board == old(self).board,
            final(self).oop == old(self).oop,
            final(self).ip == old(self).ip,
            final(self).cfg == old(self).cfg,
            final(self).w0 == old(self).w0,
            final(self).w1 == old(self).w1,
    {
        self.cursor.clear();
        proof {
            assert(final(self).cursor@ =~= Seq::<usize>::empty());
        }
    }

    /// Strategy and regret storage is allocated when the tree is built, so
    /// a later call has nothing to do; reinvoking it is the idempotent
    /// no-op the construction contract allows, and solving may rely on the
    /// arrays being in place.
    pub fn allocate_memory(&mut self)
        requires
            old(self).wf(),
        ensures
            *final(self) == *old(self),
            final(self).wf(),
    {
    }

    /// Recompute both players' normalized weights at the cursor and cache
    /// them. Caches are never invalidated by navigation: callers re-cache
    /// after moving the cursor. With the uniform strategies the tree holds,
    /// each hand's reach is proportional to its range weight, so the cached
    /// value is the normalized surviving range weight.
    pub fn cache_normalized_weights(&mut self)
        requires
            old(self).wf(),
        ensures
            final(self).wf(),
            final(self).root == old(self).root,
            final(self).board == old(self).board,
            final(self).oop == old(self).oop,
            final(self).ip == old(self).ip,
            final(self).cfg == old(self).cfg,
            final(self).cursor == old(self).cursor,
            ({
                let bd = spec_board_at(old(self).root, old(self).board@, old(self).cursor@);
                &&& final(self).w0@.len() == spec_survivors(old(self).oop.toks@, bd).len()
                &&& final(self).w1@.len() == spec_survivors(old(self).ip.toks@, bd).len()
                &&& (spec_survivors(old(self).oop.toks@, bd).len() > 0
                    ==> crate::solve::spec_sum32(
                    final(self).w0@,
                    final(self).w0@.len() as int,
                ) == WEIGHT_SCALE && (forall|k: int|
                    0 <= k < final(self).w0@.len() ==> final(self).w0@[k]
                        == crate::solve::spec_norm_at(
                        spec_weight_vals(old(self).oop.toks@, bd),
                        k,
                    )))
                &&& (spec_survivors(old(self).ip.toks@, bd).len() > 0 ==> crate::solve::spec_sum32(
                    final(self).w1@,
                    final(self).w1@.len() as int,
                ) == WEIGHT_SCALE && (forall|k: int|
                    0 <= k < final(self).w1@.len() ==> final(self).w1@[k]
                        == crate::solve::spec_norm_at(
                        spec_weight_vals(old(self).ip.toks@, bd),
                        k,
                    )))
                &&& (forall|k: int| 0 <= k < final(self).w0@.len() ==> final(self).w0@[k] <= 1000)
                &&& (forall|k: int| 0 <= k < final(self).w1@.len() ==> final(self).w1@[k] <= 1000)
            }),
    {
        let bd = {
            let (_nd, b) = self.locate();
            b
        };
        let new0 = norm_weights(&self.oop, &bd);
        let new1 = norm_weights(&self.ip, &bd);
        self.w0 = new0;
        self.w1 = new1;
    }

    /// The cached normalized weights of one player, as last computed by
    /// `cache_normalized_weights` (stale after navigation until re-cached).
    pub fn get_normalized_weights(&self, player: usize) -> (r: Result<Vec<u32>, SolverError>)
        requires
            self.wf(),
        ensures
            r is Ok <==> player < 2,
            r matches Ok(v) ==> v@ == (if player == 0 {
                self.w0@
            } else {
                self.w1@
            }),
            r matches Err(e) ==> (e matches SolverError::Index { index, limit } && index == player
                && limit == 2),
    {
        if player >= 2 {
            return Err(SolverError::Index { index: player, limit: 2 });
        }
        let v = if player == 0 {
            self.w0.clone()
        } else {
            self.w1.clone()
        };
        proof {
            if player == 0 {
                assert(v@ =~= self.w0@);
            } else {
                assert(v@ =~= self.w1@);
            }
        }
        Ok(v)
    }

    /// Aggregate the strategy at the cursor across hands, weighting each
    /// hand by its normalized reach weight (re-cached here, exactly as
    /// `cache_normalized_weights` leaves it), and normalize to one
    /// per-mille probability per available action. Empty off decision
    /// nodes; at a decision node the probabilities always sum to exactly
    /// the whole scale: when every hand's reach weight is zero the
    /// distribution is uniform over the actions.
    pub fn get_action_frequencies(&mut self) -> (r: Vec<(String, u32)>)
        requires
            old(self).wf(),
        ensures
            final(self).wf(),
            final(self).root == old(self).root,
            final(self).board == old(self).board,
            final(self).oop == old(self).oop,
            final(self).ip == old(self).ip,
            final(self).cfg == old(self).cfg,
            final(self).cursor == old(self).cursor,
            (match spec_node_at(old(self).root, old(self).cursor@) {
                Node::Decision { player, actions, strat, .. } => {
                    let bd = spec_board_at(old(self).root, old(self).board@, old(self).cursor@);
                    let h = spec_hands(old(self).oop.toks@, old(self).ip.toks@, player, bd);
                    let w = if player == 0 {
                        final(self).w0@
                    } else {
                        final(self).w1@
                    };
                    let raw = spec_freq_vals(strat@, w, h, actions@.len() as int);
                    &&& r@.len() == actions@.len()
                    &&& (forall|k: int|
                        0 <= k < r@.len() ==> (#[trigger] r@[k]).0@ == spec_action_label(
                            actions@[k],
                        ))
                    &&& spec_pair_sum(r@, r@.len() as int) == WEIGHT_SCALE
                    &&& (crate::solve::spec_sum64(raw, raw.len() as int) > 0 ==> (forall|k: int|
                        0 <= k < r@.len() ==> (#[trigger] r@[k]).1 == crate::solve::spec_norm_at(
                            raw,
                            k,
                        )))
                    &&& (crate::solve::spec_sum64(raw, raw.len() as int) == 0 ==> (forall|k: int|
                        0 <= k < r@.len() ==> (#[trigger] r@[k]).1 == crate::tree::spec_uniform(
                            actions@.len() as int,
                            1,
                        )[k]))
                    &&& (forall|k: int| 0 <= k < r@.len() ==> (#[trigger] r@[k]).1 <= 1000)
                },
                _ => r@.len() == 0,
            }),
            ({
                let bd = spec_board_at(old(self).root, old(self).board@, old(self).cursor@);
                &&& final(self).w0@.len() == spec_survivors(old(self).oop.toks@, bd).len()
                &&& final(self).w1@.len() == spec_survivors(old(self).ip.toks@, bd).len()
                &&& (spec_survivors(old(self).oop.toks@, bd).len() > 0
                    ==> crate::solve::spec_sum32(
                    final(self).w0@,
                    final(self).w0@.len() as int,
                ) == WEIGHT_SCALE && (forall|k: int|
                    0 <= k < final(self).w0@.len() ==> final(self).w0@[k]
                        == crate::solve::spec_norm_at(
                        spec_weight_vals(old(self).oop.toks@, bd),
                        k,
                    )))
                &&& (spec_survivors(old(self).ip.toks@, bd).len() > 0 ==> crate::solve::spec_sum32(
                    final(self).w1@,
                    final(self).w1@.len() as int,
                ) == WEIGHT_SCALE && (forall|k: int|
                    0 <= k < final(self).w1@.len() ==> final(self).w1@[k]
                        == crate::solve::spec_norm_at(
                        spec_weight_vals(old(self).ip.toks@, bd),
                        k,
                    )))
                &&& (forall|k: int| 0 <= k < final(self).w0@.len() ==> final(self).w0@[k] <= 1000)
                &&& (forall|k: int| 0 <= k < final(self).w1@.len() ==> final(self).w1@[k] <= 1000)
            }),
    {
        self.cache_normalized_weights();
        let (nd, _bd) = self.locate();
        match nd {
            Node::Decision { player, actions, strat, .. } => {
                let w: &Vec<u32> = if *player == 0 {
                    &self.w0
                } else {
                    &self.w1
                };
                let nh = w.len();
                let n_act = actions.len();
                let sl = strat.len();
                proof {
                    crate::range::lemma_survivors_count(
                        if *player == 0 {
                            self.oop.toks@
                        } else {
                            self.ip.toks@
                        },
                        _bd@,
                    );
                }
                let mut raw: Vec<u64> = Vec::new();
                let mut a: usize = 0;
                while a < n_act
                    invariant
                        0 <= a <= n_act,
                        n_act == actions@.len(),
                        n_act <= 33,
                        nh == w@.len(),
                        nh <= 2755,
                        sl == strat@.len(),
                        strat@.len() == (n_act as int) * (nh as int),
                        forall|hh: int|
                            0 <= hh < nh ==> row_sum(strat@, nh as int, hh, n_act as int)
                                == WEIGHT_SCALE,
                        forall|j: int| 0 <= j < w@.len() ==> w@[j] <= 1000,
                        raw@.len() == a,
                        forall|j: int|
                            0 <= j < a ==> raw@[j] == spec_freq_vals(
                                strat@,
                                w@,
                                nh as int,
                                n_act as int,
                            )[j],
                        forall|j: int| 0 <= j < a ==> raw@[j] <= 2755000000u64,
                    decreases n_act - a,
                {
                    let mut acc: u64 = 0;
                    let mut h: usize = 0;
                    while h < nh
                        invariant
                            0 <= h <= nh,
                            0 <= a < n_act,
                            n_act == actions@.len(),
                            nh == w@.len(),
                            nh <= 2755,
                            sl == strat@.len(),
                            strat@.len() == (n_act as int) * (nh as int),
                            forall|hh: int|
                                0 <= hh < nh ==> row_sum(strat@, nh as int, hh, n_act as int)
                                    == WEIGHT_SCALE,
                            forall|j: int| 0 <= j < w@.len() ==> w@[j] <= 1000,
                            acc == spec_dot(strat@, w@, nh as int, a as int, h as int),
                            acc <= (h as int) * 1000000,
                        decreases nh - h,
                    {
                        proof {
                            assert((a as int) * (nh as int) + (h as int) < (n_act as int) * (
                            nh as int)) by (nonlinear_arith)
                                requires
                                    0 <= a < n_act,
                                    0 <= h < nh,
                            ;
                            assert(0 <= (a as int) * (nh as int)) by (nonlinear_arith)
                                requires
                                    0 <= a,
                                    0 <= nh,
                            ;
                            crate::tree::lemma_row_entry_bound(
                                strat@,
                                nh as int,
                                h as int,
                                a as int,
                                n_act as int,
                            );
                            crate::tree::lemma_row_sum_nonneg(strat@, nh as int, h as int, a as int);
                        }
                        let idx = a * nh + h;
                        proof {
                            assert((strat@[(a as int) * (nh as int) + (h as int)] as int) * (
                            w@[h as int] as int) <= 1000000) by (nonlinear_arith)
                                requires
                                    0 <= strat@[(a as int) * (nh as int) + (h as int)] <= 1000,
                                    0 <= w@[h as int] <= 1000,
                            ;
                            assert((h as int) * 1000000 + 1000000 == (h + 1) * 1000000)
                                by (nonlinear_arith);
                            assert((h as int) * 1000000 <= 2755 * 1000000) by (nonlinear_arith)
                                requires
                                    0 <= h <= 2755,
                            ;
                        }
                        let term = (strat[idx] as u64) * (w[h] as u64);
                        acc = acc + term;
                        h = h + 1;
                    }
                    raw.push(acc);
                    proof {
                        assert((nh as int) * 1000000 <= 2755000000) by (nonlinear_arith)
                            requires
                                0 <= nh <= 2755,
                        ;
                    }
                    a = a + 1;
                }
                proof {
                    assert(raw@ =~= spec_freq_vals(strat@, w@, nh as int, n_act as int));
                }
                let mut total: u64 = 0;
                let mut t: usize = 0;
                while t < n_act
                    invariant
                        0 <= t <= n_act,
                        n_act == raw@.len(),
                        n_act <= 33,
                        forall|j: int| 0 <= j < raw@.len() ==> raw@[j] <= 2755000000u64,
                        total == crate::solve::spec_sum64(raw@, t as int),
                        total <= (t as int) * 2755000000,
                    decreases n_act - t,
                {
                    proof {
                        assert((t as int) * 2755000000 + 2755000000 == (t + 1) * 2755000000)
                            by (nonlinear_arith);
                        assert((t as int) * 2755000000 <= 33 * 2755000000int) by (nonlinear_arith)
                            requires
                                0 <= t <= 33,
                        ;
                    }
                    total = total + raw[t];
                    t = t + 1;
                }
                let freqs = if total > 0 {
                    crate::solve::normalize_permille(&raw, 3000000000u64)
                } else {
                    crate::tree::uniform_strat(n_act, 1)
                };
                proof {
                    if total == 0 {
                        crate::tree::lemma_uniform_row_sum(n_act as int, 1, 0);
                        crate::solve::lemma_sum32_eq_row(freqs@, freqs@.len() as int);
                        assert((n_act as int) * 1 == n_act as int) by (nonlinear_arith);
                        assert forall|q: int| 0 <= q < freqs@.len() implies freqs@[q] <= 1000 by {
                            crate::tree::lemma_row_entry_bound(freqs@, 1, 0, q, n_act as int);
                            assert(freqs@[q * 1 + 0] == freqs@[q]);
                        }
                    }
                }
                let mut out: Vec<(String, u32)> = Vec::new();
                let mut k: usize = 0;
                while k < n_act
                    invariant
                        0 <= k <= n_act,
                        n_act == actions@.len(),
                        freqs@.len() == n_act,
                        out@.len() == k,
                        forall|j: int|
                            0 <= j < k ==> (#[trigger] out@[j]).0@ == spec_action_label(
                                actions@[j],
                            ),
                        forall|j: int| 0 <= j < k ==> (#[trigger] out@[j]).1 == freqs@[j],
                        spec_pair_sum(out@, k as int) == crate::solve::spec_sum32(
                            freqs@,
                            k as int,
                        ),
                    decreases n_act - k,
                {
                    let lbl = action_label(&actions[k]);
                    let fv = freqs[k];
                    let ghost old_out = out@;
                    out.push((lbl, fv));
                    proof {
                        lemma_pair_sum_prefix_eq(old_out, out@, k as int);
                    }
                    k = k + 1;
                }
                out
            },
            _ => Vec::new(),
        }
    }

    /// The raw per-action strategy of one hand at the cursor, unweighted,
    /// as (label, per-mille) pairs. The hand index must lie below the
    /// node's surviving-hand count (the acting player's at a decision
    /// node, the first player's elsewhere): an out-of-range index is an
    /// index error naming that limit, never a clamped value.
    pub fn get_hand_frequencies(&self, hand_index: usize) -> (r: Result<
        Vec<(String, u32)>,
        SolverError,
    >)
        requires
            self.wf(),
        ensures
            (match spec_node_at(self.root, self.cursor@) {
                Node::Decision { player, actions, strat, .. } => {
                    let bd = spec_board_at(self.root, self.board@, self.cursor@);
                    let h = spec_hands(self.oop.toks@, self.ip.toks@, player, bd);
                    &&& (r is Ok <==> hand_index < h)
                    &&& (r matches Ok(v) ==> v@.len() == actions@.len() && (forall|a: int|
                        0 <= a < v@.len() ==> (#[trigger] v@[a]).0@ == spec_action_label(
                            actions@[a],
                        ) && v@[a].1 == strat@[a * h + hand_index]))
                    &&& (r matches Err(e) ==> (e matches SolverError::Index { index, limit }
                        && index == hand_index && limit == h))
                },
                _ => {
                    let bd = spec_board_at(self.root, self.board@, self.cursor@);
                    let h = spec_hands(self.oop.toks@, self.ip.toks@, 0, bd);
                    &&& (r is Ok <==> hand_index < h)
                    &&& (r matches Ok(v) ==> v@.len() == 0)
                    &&& (r matches Err(e) ==> (e matches SolverError::Index { index, limit }
                        && index == hand_index && limit == h))
                },
            }),
    {
        let (nd, bd) = self.locate();
        match nd {
            Node::Decision { player, actions, strat, .. } => {
                let sv = if *player == 0 {
                    survivors(&self.oop, &bd)
                } else {
                    survivors(&self.ip, &bd)
                };
                let nh = sv.len();
                if hand_index >= nh {
                    return Err(SolverError::Index { index: hand_index, limit: nh });
                }
                let n_act = actions.len();
                let sl = strat.len();
                let mut out: Vec<(String, u32)> = Vec::new();
                let mut a: usize = 0;
                while a < n_act
                    invariant
                        0 <= a <= n_act,
                        n_act == actions@.len(),
                        hand_index < nh,
                        sl == strat@.len(),
                        strat@.len() == (n_act as int) * (nh as int),
                        out@.len() == a,
                        forall|j: int|
                            0 <= j < a ==> (#[trigger] out@[j]).0@ == spec_action_label(
                                actions@[j],
                            ) && out@[j].1 == strat@[j * (nh as int) + hand_index],
                    decreases n_act - a,
                {
                    proof {
                        assert((a as int) * (nh as int) + (hand_index as int) < (n_act as int) * (
                        nh as int)) by (nonlinear_arith)
                            requires
                                0 <= a < n_act,
                                0 <= hand_index < nh,
                        ;
                        assert(0 <= (a as int) * (nh as int)) by (nonlinear_arith)
                            requires
                                0 <= a,
                                0 <= nh,
                        ;
                    }
                    let idx = a * nh + hand_index;
                    out.push((action_label(&actions[a]), strat[idx]));
                    a = a + 1;
                }
                Ok(out)
            },
            _ => {
                let sv = survivors(&self.oop, &bd);
                let nh = sv.len();
                if hand_index >= nh {
                    return Err(SolverError::Index { index: hand_index, limit: nh });
                }
                Ok(Vec::new())
            },
        }
    }

    /// Every hand's raw per-action strategy at the cursor, each hand
    /// labelled with its hole cards, in enumeration order; empty off
    /// decision nodes.
    pub fn get_all_hand_frequencies(&self) -> (r: Vec<(String, Vec<(String, u32)>)>)
        requires
            self.wf(),
        ensures
            (match spec_node_at(self.root, self.cursor@) {
                Node::Decision { player, actions, strat, .. } => {
                    let bd = spec_board_at(self.root, self.board@, self.cursor@);
                    let toks = if player == 0 {
                        self.oop.toks@
                    } else {
                        self.ip.toks@
                    };
                    let sv = spec_survivors(toks, bd);
                    &&& r@.len() == sv.len()
                    &&& (forall|h: int|
                        0 <= h < r@.len() ==> (#[trigger] r@[h]).0@ == spec_hole_str(
                            sv[h].0,
                            sv[h].1,
                        ) && r@[h].1@.len() == actions@.len() && (forall|a: int|
                            0 <= a < actions@.len() ==> (#[trigger] r@[h].1@[a]).1 == strat@[a
                                * sv.len() + h] && r@[h].1@[a].0@ == spec_action_label(
                                actions@[a],
                            )))
                },
                _ => r@.len() == 0,
            }),
    {
        let (nd, bd) = self.locate();
        match nd {
            Node::Decision { player, actions, strat, .. } => {
                let sv = if *player == 0 {
                    survivors(&self.oop, &bd)
                } else {
                    survivors(&self.ip, &bd)
                };
                proof {
                    crate::range::lemma_survivors_elems(
                        if *player == 0 {
                            self.oop.toks@
                        } else {
                            self.ip.toks@
                        },
                        bd@,
                    );
                }
                let nh = sv.len();
                let n_act = actions.len();
                let sl = strat.len();
                let mut out: Vec<(String, Vec<(String, u32)>)> = Vec::new();
                let mut h: usize = 0;
                while h < nh
                    invariant
                        0 <= h <= nh,
                        nh == sv@.len(),
                        n_act == actions@.len(),
                        sl == strat@.len(),
                        strat@.len() == (n_act as int) * (nh as int),
                        forall|q: int|
                            0 <= q < sv@.len() ==> (#[trigger] sv@[q]).0 < sv@[q].1 < 52,
                        out@.len() == h,
                        forall|j: int|
                            0 <= j < h ==> (#[trigger] out@[j]).0@ == spec_hole_str(
                                sv@[j].0,
                                sv@[j].1,
                            ) && out@[j].1@.len() == n_act && (forall|a: int|
                                0 <= a < n_act ==> (#[trigger] out@[j].1@[a]).1 == strat@[a * (
                                nh as int) + j] && out@[j].1@[a].0@ == spec_action_label(
                                    actions@[a],
                                )),
                    decreases nh - h,
                {
                    let (ca, cb, _w) = sv[h];
                    let hole = hole_to_string(ca, cb);
                    let mut row: Vec<(String, u32)> = Vec::new();
                    let mut a: usize = 0;
                    while a < n_act
                        invariant
                            0 <= a <= n_act,
                            0 <= h < nh,
                            n_act == actions@.len(),
                            nh == sv@.len(),
                            sl == strat@.len(),
                            strat@.len() == (n_act as int) * (nh as int),
                            row@.len() == a,
                            forall|j: int|
                                0 <= j < a ==> (#[trigger] row@[j]).1 == strat@[j * (nh as int)
                                    + h] && row@[j].0@ == spec_action_label(actions@[j]),
                        decreases n_act - a,
                    {
                        proof {
                            assert((a as int) * (nh as int) + (h as int) < (n_act as int) * (
                            nh as int)) by (nonlinear_arith)
                                requires
                                    0 <= a < n_act,
                                    0 <= h < nh,
                            ;
                            assert(0 <= (a as int) * (nh as int)) by (nonlinear_arith)
                                requires
                                    0 <= a,
                                    0 <= nh,
                            ;
                        }
                        let idx = a * nh + h;
                        row.push((action_label(&actions[a]), strat[idx]));
                        a = a + 1;
                    }
                    out.push((hole, row));
                    h = h + 1;
                }
                out
            },
            _ => Vec::new(),
        }
    }
}

/// The action menu stored at the node on `path` (empty off decision nodes).
pub open spec fn spec_actions_at(n: Node, path: Seq<usize>) -> Seq<Action> {
    match spec_node_at(n, path) {
        Node::Decision { actions, .. } => actions@,
        _ => Seq::empty(),
    }
}

/// Whether two configurations prescribe the same trees: equal pot, stack
/// and size lists.
pub open spec fn cfg_equiv(c1: BuildCfg, c2: BuildCfg) -> bool {
    &&& c1.starting_pot == c2.starting_pot
    &&& c1.stack == c2.stack
    &&& c1.sizes.bet@ == c2.sizes.bet@
    &&& c1.sizes.raise@ == c2.sizes.raise@
}

proof fn lemma_conforming_menus_agree(
    n1: Node,
    n2: Node,
    c1: BuildCfg,
    c2: BuildCfg,
    board: Seq<u8>,
    cm: u64,
    co: u64,
    checked: bool,
    player: u8,
    path: Seq<usize>,
)
    requires
        cfg_equiv(c1, c2),
        crate::tree::node_conforms(n1, c1, board, cm, co, checked, player),
        crate::tree::node_conforms(n2, c2, board, cm, co, checked, player),
        path_ok(n1, path),
    ensures
        path_ok(n2, path),
        spec_actions_at(n1, path) == spec_actions_at(n2, path),
    decreases path.len(),
{
    if path.len() == 0 {
    } else {
        let i = path[0] as int;
        match (n1, n2) {
            (
                Node::Decision { actions: a1, children: ch1, .. },
                Node::Decision { actions: a2, children: ch2, .. },
            ) => {
                assert(a1@ == a2@);
                let act = a1@[i];
                let rest = path.drop_first();
                assert(crate::tree::child_conforms(
                    ch1@[i],
                    act,
                    c1,
                    board,
                    cm,
                    co,
                    checked,
                    player,
                ));
                assert(crate::tree::child_conforms(
                    ch2@[i],
                    act,
                    c2,
                    board,
                    cm,
                    co,
                    checked,
                    player,
                ));
                match act {
                    Action::Fold => {
                        assert(ch1@[i] == ch2@[i]);
                        assert(path_ok(ch1@[i], rest));
                        if rest.len() > 0 {
                            assert(spec_num_children(ch1@[i]) == 0);
                            assert(false);
                        }
                        assert(rest.len() == 0);
                    },
                    Action::Check => {
                        if checked {
                            lemma_conforming_streets_agree(
                                ch1@[i],
                                ch2@[i],
                                c1,
                                c2,
                                board,
                                cm,
                                rest,
                            );
                        } else {
                            lemma_conforming_menus_agree(
                                ch1@[i],
                                ch2@[i],
                                c1,
                                c2,
                                board,
                                co,
                                co,
                                true,
                                (1 - player) as u8,
                                rest,
                            );
                        }
                    },
                    Action::Call => {
                        lemma_conforming_streets_agree(ch1@[i], ch2@[i], c1, c2, board, co, rest);
                    },
                    Action::Bet(x) => {
                        lemma_conforming_menus_agree(
                            ch1@[i],
                            ch2@[i],
                            c1,
                            c2,
                            board,
                            co,
                            (co + x) as u64,
                            false,
                            (1 - player) as u8,
                            rest,
                        );
                    },
                    Action::Raise(x) => {
                        lemma_conforming_menus_agree(
                            ch1@[i],
                            ch2@[i],
                            c1,
                            c2,
                            board,
                            co,
                            (co + x) as u64,
                            false,
                            (1 - player) as u8,
                            rest,
                        );
                    },
                    Action::AllIn(x) => {
                        lemma_conforming_menus_agree(
                            ch1@[i],
                            ch2@[i],
                            c1,
                            c2,
                            board,
                            co,
                            (co + x) as u64,
                            false,
                            (1 - player) as u8,
                            rest,
                        );
                    },
                }
            },
            _ => {
                assert(false);
            },
        }
    }
}

proof fn lemma_conforming_streets_agree(
    n1: Node,
    n2: Node,
    c1: BuildCfg,
    c2: BuildCfg,
    board: Seq<u8>,
    c: u64,
    path: Seq<usize>,
)
    requires
        cfg_equiv(c1, c2),
        crate::tree::street_conforms(n1, c1, board, c),
        crate::tree::street_conforms(n2, c2, board, c),
        path_ok(n1, path),
    ensures
        path_ok(n2, path),
        spec_actions_at(n1, path) == spec_actions_at(n2, path),
    decreases path.len(),
{
    if board.len() >= 5 {
        assert(n1 == n2);
    } else if path.len() == 0 {
    } else {
        let i = path[0] as int;
        match (n1, n2) {
            (
                Node::Chance { cards: k1, children: ch1 },
                Node::Chance { cards: k2, children: ch2 },
            ) => {
                assert(k1@ == k2@);
                let rest = path.drop_first();
                if c == c1.stack {
                    lemma_conforming_streets_agree(
                        ch1@[i],
                        ch2@[i],
                        c1,
                        c2,
                        board.push(k1@[i]),
                        c,
                        rest,
                    );
                } else {
                    lemma_conforming_menus_agree(
                        ch1@[i],
                        ch2@[i],
                        c1,
                        c2,
                        board.push(k1@[i]),
                        c,
                        c,
                        false,
                        0u8,
                        rest,
                    );
                }
            },
            _ => {
                assert(false);
            },
        }
    }
}

/// The action tree is deterministic in the configuration alone: two
/// sessions built with the same pot, stack and size lists over the same
/// board answer the same action menu at every shared cursor, however each
/// session's ranges were declared and however the cursor was reached.
pub proof fn lemma_sessions_same_menus(a: &Session, b: &Session)
    requires
        a.wf(),
        b.wf(),
        cfg_equiv(a.cfg, b.cfg),
        a.board@ == b.board@,
        a.cursor@ == b.cursor@,
    ensures
        spec_actions_at(a.root, a.cursor@) == spec_actions_at(b.root, b.cursor@),
{
    lemma_conforming_menus_agree(
        a.root,
        b.root,
        a.cfg,
        b.cfg,
        a.board@,
        0,
        0,
        false,
        0,
        a.cursor@,
    );
}

/// Navigation is a pure, replayable cursor: two sessions over the same tree
/// whose cursors hold the same step sequence answer the strategy query
/// identically. Since `play`, `deal` and `back_to_root` never change the
/// tree, the board or the ranges, replaying a sequence after
/// `back_to_root` reproduces the original answers.
pub proof fn lemma_replay_reproduces(a: &Session, b: &Session)
    requires
        a.root == b.root,
        a.cursor@ == b.cursor@,
    ensures
        spec_strategy_at(a.root, a.cursor@) == spec_strategy_at(b.root, b.cursor@),
{
}

} // verus!
