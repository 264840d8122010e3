//! The search tree: an arena of statistics nodes addressed by stable
//! indices, with lazy expansion, leaf-to-root backpropagation, root rebasing
//! as real moves are committed, and upper-confidence move selection.
use vstd::prelude::*;

verus! {

broadcast use vstd::array::group_array_axioms;

use crate::board::Board;
use crate::board::Player;
use crate::board::PlayerMove;
use crate::board::Winner;
use crate::board::BOARD_HEIGHT;
use crate::board::BOARD_WIDTH;
use crate::board::height_of;
use crate::board::move_ok;
use crate::board::sum_heights;
use crate::montecarlo::random_playout;
use crate::montecarlo::lemma_open_board_has_room;
use crate::montecarlo::lemma_sum_heights_after_move;
use crate::score::get_score;
use crate::score::COUNT_LIMIT;
use crate::score::EXPLORE_LIMIT;

/// The default exploration constant of the selection score.
pub const DEFAULT_EXPLORE: u64 = 2;

/// Cumulative statistics of one node: whose turn it is at the node's
/// position, how many playouts passed through it, and how many of them were
/// credited as wins.
#[derive(Debug, Clone, Copy)]
pub struct GameState {
    pub turn: Player,
    pub playouts: u64,
    pub wins: u64,
}

/// A fresh statistics record for a position where the given player moves.
pub fn default_game_state() -> (g: GameState)
    ensures
        g == (GameState { turn: Player::Player1, playouts: 0, wins: 0 }),
{
    GameState { turn: Player::Player1, playouts: 0, wins: 0 }
}

/// One search-tree node: its parent's index, one optional child index per
/// column, and its statistics.
#[derive(Debug, Clone, Copy)]
pub struct Node {
    pub parent: Option<usize>,
    pub children: [Option<usize>; BOARD_WIDTH],
    pub data: GameState,
}

#[verifier::external_type_specification]
#[verifier::external_body]
#[verifier::reject_recursive_types(T)]
pub struct ExSlab<T>(slab::Slab<T>);

/// The arena type that stores the tree's nodes.
pub type NodeArena = slab::Slab<Node>;

/// What the node arena holds: a map from each occupied key to its node.
pub uninterp spec fn slab_map(s: slab::Slab<Node>) -> Map<int, Node>;

/// The contents of an arena that holds nothing.
pub open spec fn empty_nodes() -> Map<int, Node> {
    Map::empty()
}

/// Relies on slab::Slab::new: a fresh slab holds nothing.
#[verifier::external_body]
fn slab_new() -> (fresh: NodeArena)
    ensures
        slab_map(fresh) == empty_nodes(),
{
    slab::Slab::new()
}

/// Relies on slab::Slab::insert: the value is stored under a key that was
/// vacant, and nothing else moves.
#[verifier::external_body]
fn slab_insert(s: &mut slab::Slab<Node>, val: Node) -> (key: usize)
    ensures
        !slab_map(*old(s)).dom().contains(key as int),
        slab_map(*final(s)) == slab_map(*old(s)).insert(key as int, val),
{
    s.insert(val)
}

/// Relies on slab's Index impl: a key that holds a value yields that value.
#[verifier::external_body]
fn slab_read(s: &slab::Slab<Node>, key: usize) -> (n: Node)
    requires
        slab_map(*s).dom().contains(key as int),
    ensures
        n == slab_map(*s)[key as int],
{
    s[key]
}

/// Relies on slab's IndexMut impl: writing to a key that holds a value
/// replaces that value and nothing else.
#[verifier::external_body]
fn slab_write(s: &mut slab::Slab<Node>, key: usize, n: Node)
    requires
        slab_map(*old(s)).dom().contains(key as int),
    ensures
        slab_map(*final(s)) == slab_map(*old(s)).insert(key as int, n),
{
    s[key] = n;
}

/// The persistent search tree: the node arena, the index of the current
/// root, the exploration constant, and a bound that every node's counters
/// stay under so that all score arithmetic is exact. The ghost ranks orient
/// every parent edge towards older nodes, which makes backpropagation
/// terminate.
pub struct MoveTree {
    nodes: slab::Slab<Node>,
    root: usize,
    explore: u64,
    count_bound: u64,
    rank: Ghost<Map<int, nat>>,
}

/// A node reached from ix by following parent links ends at the root.
spec fn chain_to_root(m: Map<int, Node>, rank: Map<int, nat>, root: int, ix: int) -> bool
    decreases rank[ix],
{
    ||| ix == root
    ||| {
        &&& m.dom().contains(ix)
        &&& rank.dom().contains(ix)
        &&& match m[ix].parent {
            Option::Some(p) => {
                &&& rank.dom().contains(p as int)
                &&& rank[p as int] < rank[ix]
                &&& chain_to_root(m, rank, root, p as int)
            },
            Option::None => false,
        }
    }
}

/// The per-node invariant: counters in range, parent and child edges inside
/// the arena, parent edges strictly decreasing in rank, child edges strictly
/// increasing, and every child edge matched by the child's parent link,
/// unless the child was rebased into the root, or the edge's source is
/// itself a detached former root.
spec fn node_ok(m: Map<int, Node>, rank: Map<int, nat>, bound: u64, root: int, i: int) -> bool {
    let n = m[i];
    &&& n.data.wins <= n.data.playouts
    &&& n.data.playouts <= bound
    &&& rank.dom().contains(i)
    &&& match n.parent {
        Option::Some(p) => {
            &&& m.dom().contains(p as int)
            &&& rank.dom().contains(p as int)
            &&& rank[p as int] < rank[i]
        },
        Option::None => true,
    }
    &&& forall|c: int|
        0 <= c < 7 ==> match #[trigger] n.children@[c] {
            Option::Some(ch) => {
                &&& m.dom().contains(ch as int)
                &&& rank.dom().contains(ch as int)
                &&& rank[i] < rank[ch as int]
                &&& (m[ch as int].parent == Option::Some(i as usize) || (n.parent is None && (
                ch as int == root || i != root)))
            },
            Option::None => true,
        }
}

impl MoveTree {
    /// The arena contents, as a map from node index to node.
    pub closed spec fn nodes_map(self) -> Map<int, Node> {
        slab_map(self.nodes)
    }

    /// The index of the current root.
    pub closed spec fn root_ix(self) -> int {
        self.root as int
    }

    /// The exploration constant used by the selection score.
    pub closed spec fn explore_of(self) -> u64 {
        self.explore
    }

    /// The bound that every node's counters stay under.
    pub closed spec fn bound_of(self) -> u64 {
        self.count_bound
    }

    /// The ghost ranks that orient the tree's edges.
    pub closed spec fn rank_of(self) -> Map<int, nat> {
        self.rank@
    }

    /// Whether the node at ix is attached to the root by parent links.
    pub closed spec fn attached(self, ix: int) -> bool {
        chain_to_root(self.nodes_map(), self.rank@, self.root as int, ix)
    }

    /// The tree invariant.
    pub closed spec fn wf(self) -> bool {
        let m = slab_map(self.nodes);
        &&& m.dom().contains(self.root as int)
        &&& m[self.root as int].parent is None
        &&& self.count_bound <= COUNT_LIMIT
        &&& self.explore <= EXPLORE_LIMIT
        &&& self.rank@.dom() == m.dom()
        &&& forall|i: int| m.dom().contains(i) ==> 0 <= i <= usize::MAX
        &&& forall|i: int|
            m.dom().contains(i) ==> node_ok(m, self.rank@, self.count_bound, self.root as int, i)
    }
}

/// An empty children array.
pub open spec fn no_children() -> [Option<usize>; BOARD_WIDTH] {
    vstd::array::spec_array_fill_for_copy_type::<Option<usize>, BOARD_WIDTH>(Option::None)
}

/// The node n with its child edge for the given column pointed at ix.
pub open spec fn child_set(n: Node, column: int, ix: usize) -> Node {
    Node { children: vstd::array::spec_array_update(n.children, column, Option::Some(ix)), ..n }
}

/// A brand-new node hanging under the given parent, where the opponent of
/// the parent's player moves, with zero statistics.
pub open spec fn fresh_node(parent_ix: usize, parent_turn: Player) -> Node {
    Node {
        parent: Option::Some(parent_ix),
        children: no_children(),
        data: GameState { turn: parent_turn.spec_other(), playouts: 0, wins: 0 },
    }
}

/// A search tree with a single root with zero statistics, Player1 to move,
/// and the given exploration constant.
pub fn move_tree_with_explore(explore: u64) -> (t: MoveTree)
    requires
        explore <= EXPLORE_LIMIT,
    ensures
        t.wf(),
        t.nodes_map().dom() =~= set![t.root_ix()],
        t.nodes_map()[t.root_ix()] == (Node {
            parent: Option::None,
            children: no_children(),
            data: GameState { turn: Player::Player1, playouts: 0, wins: 0 },
        }),
        t.explore_of() == explore,
        t.bound_of() == 0,
{
    let mut nodes = slab_new();
    let root_node = Node {
        parent: None,
        children: [None; BOARD_WIDTH],
        data: default_game_state(),
    };
    let root_ix = slab_insert(&mut nodes, root_node);
    let t = MoveTree {
        nodes,
        root: root_ix,
        explore,
        count_bound: 0,
        rank: Ghost(Map::<int, nat>::empty().insert(root_ix as int, 0)),
    };
    proof {
        assert(t.rank@.dom() =~= slab_map(t.nodes).dom());
        assert(t.nodes_map().dom() =~= set![t.root_ix()]);
    }
    t
}

/// A search tree with a single fresh root and the default exploration
/// constant.
pub fn default_move_tree() -> (t: MoveTree)
    ensures
        t.wf(),
        t.nodes_map().dom() =~= set![t.root_ix()],
        t.nodes_map()[t.root_ix()] == (Node {
            parent: Option::None,
            children: no_children(),
            data: GameState { turn: Player::Player1, playouts: 0, wins: 0 },
        }),
        t.explore_of() == DEFAULT_EXPLORE,
        t.bound_of() == 0,
{
    move_tree_with_explore(DEFAULT_EXPLORE)
}

impl MoveTree {
    /// Create a node for the given column under the given node, with zero
    /// statistics and the opposite player to move, and hang it on that
    /// column's child edge.
    pub fn add_node(&mut self, node_index: usize, column: usize) -> (ix: usize)
        requires
            old(self).wf(),
            old(self).nodes_map().dom().contains(node_index as int),
            column < 7,
        ensures
            final(self).wf(),
            final(self).root_ix() == old(self).root_ix(),
            final(self).explore_of() == old(self).explore_of(),
            final(self).bound_of() == old(self).bound_of(),
            !old(self).nodes_map().dom().contains(ix as int),
            ix as int != old(self).root_ix(),
            final(self).nodes_map() == old(self).nodes_map().insert(
                ix as int,
                fresh_node(node_index, old(self).nodes_map()[node_index as int].data.turn),
            ).insert(
                node_index as int,
                child_set(old(self).nodes_map()[node_index as int], column as int, ix),
            ),
            forall|i: int|
                old(self).nodes_map().dom().contains(i) ==> (final(self).attached(i) == old(
                    self,
                ).attached(i)),
            old(self).attached(node_index as int) ==> final(self).attached(ix as int),
    {
        let parent_node = slab_read(&self.nodes, node_index);
        let new_node = Node {
            parent: Some(node_index),
            children: [None; BOARD_WIDTH],
            data: GameState { turn: parent_node.data.turn.other(), playouts: 0, wins: 0 },
        };
        let ghost m0 = slab_map(self.nodes);
        let ghost rank0 = self.rank@;
        let ix = slab_insert(&mut self.nodes, new_node);
        proof {
            self.rank@ = rank0.insert(ix as int, (rank0[node_index as int] + 1) as nat);
        }
        let mut parent_mut = parent_node;
        parent_mut.children[column] = Some(ix);
        slab_write(&mut self.nodes, node_index, parent_mut);
        proof {
            let m2 = slab_map(self.nodes);
            let rank2 = self.rank@;
            let root = self.root as int;
            let bound = self.count_bound;
            assert(parent_mut == child_set(m0[node_index as int], column as int, ix));
            assert(new_node == fresh_node(node_index, m0[node_index as int].data.turn));
            assert(m2 == m0.insert(ix as int, new_node).insert(node_index as int, parent_mut));
            assert(rank2.dom() =~= m2.dom());

            // every node still satisfies its local invariant
            assert forall|i: int| m2.dom().contains(i) implies node_ok(m2, rank2, bound, root, i) by {
                if i == ix as int {
                    assert(rank2[node_index as int] < rank2[ix as int]);
                    assert(forall|c: int| 0 <= c < 7 ==> #[trigger] new_node.children@[c] is None);
                } else {
                    assert(node_ok(m0, rank0, bound, root, i));
                    let n0 = m0[i];
                    let n2 = m2[i];
                    assert(n2.parent == n0.parent);
                    assert forall|c: int| 0 <= c < 7 implies match #[trigger] n2.children@[c] {
                        Option::Some(ch) => {
                            &&& m2.dom().contains(ch as int)
                            &&& rank2.dom().contains(ch as int)
                            &&& rank2[i] < rank2[ch as int]
                            &&& (m2[ch as int].parent == Option::Some(i as usize) || (
                            n2.parent is None && (ch as int == root || i != root)))
                        },
                        Option::None => true,
                    } by {
                        if i == node_index as int && c == column as int {
                            assert(n2.children@[c] == Option::Some(ix));
                        } else {
                            assert(n2.children@[c] == n0.children@[c]);
                            match n0.children@[c] {
                                Option::Some(ch) => {
                                    assert(rank0[i] < rank0[ch as int]);
                                    assert(ch as int != ix as int);
                                    assert(m2[ch as int].parent == m0[ch as int].parent);
                                },
                                Option::None => {},
                            }
                        }
                    }
                }
            }

            // attachment of existing nodes does not change
            assert forall|i: int| m0.dom().contains(i) implies (chain_to_root(m2, rank2, root, i)
                == chain_to_root(m0, rank0, root, i)) by {
                lemma_chain_same(m0, m2, rank0, rank2, root, i);
            }
            if chain_to_root(m0, rank0, root, node_index as int) {
                assert(chain_to_root(m2, rank2, root, node_index as int));
                assert(chain_to_root(m2, rank2, root, ix as int));
            }
        }
        ix
    }
}

/// Whether a second arena and rank map keep every old node's parent link
/// and rank.
spec fn parents_agree(
    m0: Map<int, Node>,
    m2: Map<int, Node>,
    rank0: Map<int, nat>,
    rank2: Map<int, nat>,
) -> bool {
    &&& rank0.dom() == m0.dom()
    &&& forall|i: int|
        #![trigger m0.dom().contains(i)]
        m0.dom().contains(i) ==> m2.dom().contains(i) && m2[i].parent == m0[i].parent
    &&& forall|i: int|
        #![trigger rank2[i]]
        m0.dom().contains(i) ==> rank2.dom().contains(i) && rank2[i] == rank0[i]
    &&& forall|i: int|
        #![trigger rank0[i]]
        m0.dom().contains(i) ==> (match m0[i].parent {
            Option::Some(p) => m0.dom().contains(p as int) && rank0.dom().contains(p as int)
                && rank0[p as int] < rank0[i],
            Option::None => true,
        })
}

/// Attachment is decided by the parent links and ranks alone: a map that
/// keeps every old node's parent link, and a rank map that keeps every old
/// rank, keep every old node's chain to the root.
proof fn lemma_chain_same(
    m0: Map<int, Node>,
    m2: Map<int, Node>,
    rank0: Map<int, nat>,
    rank2: Map<int, nat>,
    root: int,
    ix: int,
)
    requires
        parents_agree(m0, m2, rank0, rank2),
        m0.dom().contains(ix) || ix == root,
    ensures
        chain_to_root(m2, rank2, root, ix) == chain_to_root(m0, rank0, root, ix),
    decreases (if rank0.dom().contains(ix) {
        rank0[ix]
    } else {
        0
    }),
{
    if ix == root {
    } else {
        assert(m0.dom().contains(ix));
        assert(m2[ix].parent == m0[ix].parent);
        assert(rank2[ix] == rank0[ix]);
        assert(rank0.dom().contains(ix));
        match m0[ix].parent {
            Option::Some(p) => {
                assert(m0.dom().contains(p as int) && rank0.dom().contains(p as int));
                assert(rank0[p as int] < rank0[ix]);
                assert(rank2[p as int] == rank0[p as int]);
                lemma_chain_same(m0, m2, rank0, rank2, root, p as int);
            },
            Option::None => {},
        }
    }
}

/// The share of a backpropagated result that a node's win counter takes:
/// wins are credited only at nodes where the winning player made the
/// entering move.
pub open spec fn credited(n: Node, wins: u64, winning_player: Player) -> u64 {
    if n.data.turn.spec_other() == winning_player {
        wins
    } else {
        0
    }
}

/// A node after receiving a backpropagated result: playouts grow by the
/// whole delta, wins by the credited share, and nothing else moves.
pub open spec fn node_applied(n0: Node, wins: u64, playouts: u64, winning_player: Player) -> Node {
    Node {
        data: GameState {
            turn: n0.data.turn,
            playouts: (n0.data.playouts + playouts) as u64,
            wins: (n0.data.wins + credited(n0, wins, winning_player)) as u64,
        },
        ..n0
    }
}

impl MoveTree {
    /// One node's statistics with a backpropagated result added in.
    fn update_node(&mut self, node: Node, wins: u64, playouts: u64, winning_player: Player) -> (r:
        Node)
        requires
            node.data.playouts + playouts <= COUNT_LIMIT,
            node.data.wins <= node.data.playouts,
            wins <= playouts,
        ensures
            *final(self) == *old(self),
            r == node_applied(node, wins, playouts, winning_player),
    {
        let mut node = node;
        node.data.playouts += playouts;
        node.data.wins += if node.data.turn.other() == winning_player {
            wins
        } else {
            0
        };
        node
    }

    /// Backpropagate one result from the given node along parent links: every
    /// node on the way up receives the delta exactly once, everything else is
    /// untouched, and if the starting node is attached the delta reaches the
    /// root.
    #[verifier::rlimit(100)]
    fn update_playout(&mut self, node_index: usize, wins: u64, playouts: u64, winning_player: Player)
        requires
            old(self).wf(),
            old(self).nodes_map().dom().contains(node_index as int),
            wins <= playouts,
            1 <= playouts,
            old(self).bound_of() + playouts <= COUNT_LIMIT,
        ensures
            final(self).wf(),
            final(self).root_ix() == old(self).root_ix(),
            final(self).explore_of() == old(self).explore_of(),
            final(self).bound_of() == old(self).bound_of() + playouts,
            final(self).nodes_map().dom() == old(self).nodes_map().dom(),
            forall|i: int|
                #![trigger final(self).nodes_map()[i]]
                old(self).nodes_map().dom().contains(i) ==> (final(self).nodes_map()[i] == old(
                    self,
                ).nodes_map()[i] || final(self).nodes_map()[i] == node_applied(
                    old(self).nodes_map()[i],
                    wins,
                    playouts,
                    winning_player,
                )),
            final(self).nodes_map()[node_index as int] == node_applied(
                old(self).nodes_map()[node_index as int],
                wins,
                playouts,
                winning_player,
            ),
            match old(self).nodes_map()[node_index as int].parent {
                Option::Some(p) => final(self).nodes_map()[p as int] == node_applied(
                    old(self).nodes_map()[p as int],
                    wins,
                    playouts,
                    winning_player,
                ),
                Option::None => true,
            },
            old(self).attached(node_index as int) ==> final(self).nodes_map()[old(
                self,
            ).root_ix()] == node_applied(
                old(self).nodes_map()[old(self).root_ix()],
                wins,
                playouts,
                winning_player,
            ),
            forall|i: int|
                old(self).nodes_map().dom().contains(i) ==> (final(self).attached(i) == old(
                    self,
                ).attached(i)),
    {
        self.count_bound = self.count_bound + playouts;
        let ghost m_old = slab_map(self.nodes);
        let ghost rank = self.rank@;
        let ghost root = self.root as int;
        let ghost start = node_index as int;

        proof {
            assert forall|i: int| m_old.dom().contains(i) implies node_ok(
                slab_map(self.nodes),
                rank,
                self.count_bound,
                root,
                i,
            ) by {
                assert(node_ok(m_old, rank, old(self).count_bound, root, i));
            }
        }

        let mut current_index = node_index;
        loop
            invariant_except_break
                old(self).wf(),
                self.wf(),
                self.root == old(self).root,
                self.explore == old(self).explore,
                self.count_bound == old(self).count_bound + playouts,
                self.rank@ == rank,
                root == self.root as int,
                start == node_index as int,
                m_old == slab_map(old(self).nodes),
                wins <= playouts,
                1 <= playouts,
                old(self).bound_of() + playouts <= COUNT_LIMIT,
                slab_map(self.nodes).dom() == m_old.dom(),
                m_old.dom().contains(current_index as int),
                m_old.dom().contains(start),
                forall|i: int|
                    #![trigger rank[i]]
                    m_old.dom().contains(i) && rank[i] <= rank[current_index as int] ==> slab_map(
                        self.nodes,
                    )[i] == m_old[i],
                forall|i: int|
                    #![trigger slab_map(self.nodes)[i]]
                    m_old.dom().contains(i) ==> (slab_map(self.nodes)[i] == m_old[i] || slab_map(
                        self.nodes,
                    )[i] == node_applied(m_old[i], wins, playouts, winning_player)),
                chain_to_root(slab_map(self.nodes), rank, root, current_index as int)
                    == chain_to_root(m_old, rank, root, start),
                current_index as int == start || slab_map(self.nodes)[start] == node_applied(
                    m_old[start],
                    wins,
                    playouts,
                    winning_player,
                ),
                current_index as int == start || (match m_old[start].parent {
                    Option::Some(p) => current_index as int == p as int || slab_map(
                        self.nodes,
                    )[p as int] == node_applied(m_old[p as int], wins, playouts, winning_player),
                    Option::None => true,
                }),
            ensures
                self.wf(),
                self.root == old(self).root,
                self.explore == old(self).explore,
                self.count_bound == old(self).count_bound + playouts,
                self.rank@ == rank,
                slab_map(self.nodes).dom() == m_old.dom(),
                forall|i: int|
                    #![trigger slab_map(self.nodes)[i]]
                    m_old.dom().contains(i) ==> (slab_map(self.nodes)[i] == m_old[i] || slab_map(
                        self.nodes,
                    )[i] == node_applied(m_old[i], wins, playouts, winning_player)),
                slab_map(self.nodes)[start] == node_applied(
                    m_old[start],
                    wins,
                    playouts,
                    winning_player,
                ),
                match m_old[start].parent {
                    Option::Some(p) => slab_map(self.nodes)[p as int] == node_applied(
                        m_old[p as int],
                        wins,
                        playouts,
                        winning_player,
                    ),
                    Option::None => true,
                },
                chain_to_root(m_old, rank, root, start) ==> slab_map(self.nodes)[root]
                    == node_applied(m_old[root], wins, playouts, winning_player),
            decreases rank[current_index as int],
        {
            let node = slab_read(&self.nodes, current_index);
            let ghost m_before = slab_map(self.nodes);
            proof {
                assert(node == m_old[current_index as int]);
                assert(node_ok(m_old, rank, old(self).count_bound, root, current_index as int));
                assert(node.data.playouts <= old(self).count_bound);
            }
            let updated = self.update_node(node, wins, playouts, winning_player);
            slab_write(&mut self.nodes, current_index, updated);
            proof {
                let m_now = slab_map(self.nodes);
                assert(m_now == m_before.insert(current_index as int, updated));
                assert(updated.data.wins <= updated.data.playouts && updated.data.playouts
                    <= self.count_bound);
                lemma_data_write(
                    m_before,
                    m_now,
                    rank,
                    self.count_bound,
                    root,
                    current_index as int,
                    updated,
                );
                assert(m_now[root].parent == m_before[root].parent);
                assert(self.wf());
            }
            match node.parent {
                Some(p) => {
                    proof {
                        lemma_chain_same_values(
                            m_before,
                            slab_map(self.nodes),
                            rank,
                            root,
                            p as int,
                        );
                        assert(rank[p as int] < rank[current_index as int]);
                    }
                    current_index = p;
                },
                None => {
                    proof {
                        let m_now = slab_map(self.nodes);
                        assert(m_now[current_index as int] == node_applied(
                            m_old[current_index as int],
                            wins,
                            playouts,
                            winning_player,
                        ));
                        if current_index as int != start {
                            match m_old[start].parent {
                                Option::Some(p) => {
                                    if current_index as int == p as int {
                                    } else {
                                        assert(m_now[p as int] == m_before[p as int]);
                                    }
                                },
                                Option::None => {},
                            }
                            assert(m_now[start] == m_before[start]);
                        }
                        if chain_to_root(m_old, rank, root, start) {
                            assert(chain_to_root(m_now, rank, root, current_index as int));
                            assert(current_index as int == root);
                        }
                    }
                    break;
                },
            }
        }
        proof {
            let m_fin = slab_map(self.nodes);
            assert forall|j: int|
                #![trigger m_fin[j]]
                m_old.dom().contains(j) implies m_fin[j].parent == m_old[j].parent by {}
            assert forall|j: int|
                #![trigger rank[j]]
                m_old.dom().contains(j) implies (match m_old[j].parent {
                    Option::Some(p) => m_old.dom().contains(p as int) && rank.dom().contains(
                        p as int,
                    ) && rank[p as int] < rank[j],
                    Option::None => true,
                }) by {
                assert(node_ok(m_old, rank, old(self).count_bound, root, j));
            }
            assert(parents_same(m_old, m_fin, rank));
            assert forall|i: int| m_old.dom().contains(i) implies (chain_to_root(
                m_fin,
                rank,
                root,
                i,
            ) == chain_to_root(m_old, rank, root, i)) by {
                lemma_chain_same_values(m_old, m_fin, rank, root, i);
            }
        }
    }
}

/// A node with its parent link cleared, as a rebased root keeps its
/// statistics but no longer hangs under anything.
pub open spec fn detached(n: Node) -> Node {
    Node { parent: Option::None, ..n }
}

impl MoveTree {
    /// Expand a column under a node with a fresh child and backpropagate one
    /// result from it: the new child starts from the result itself, and every
    /// ancestor up to the root receives the same delta.
    pub fn add_playout(
        &mut self,
        node_index: usize,
        column: usize,
        wins: u64,
        playouts: u64,
        winning_player: Player,
    )
        requires
            old(self).wf(),
            old(self).nodes_map().dom().contains(node_index as int),
            column < 7,
            wins <= playouts,
            1 <= playouts,
            old(self).bound_of() + playouts <= COUNT_LIMIT,
        ensures
            final(self).wf(),
            final(self).root_ix() == old(self).root_ix(),
            final(self).explore_of() == old(self).explore_of(),
            final(self).bound_of() == old(self).bound_of() + playouts,
            exists|ix: int|
                #![auto]
                !old(self).nodes_map().dom().contains(ix) && final(self).nodes_map().dom() =~= old(
                    self,
                ).nodes_map().dom().insert(ix),
            exists|ix: usize|
                #![auto]
                {
                    &&& !old(self).nodes_map().dom().contains(ix as int)
                    &&& final(self).nodes_map().dom() =~= old(self).nodes_map().dom().insert(
                        ix as int,
                    )
                    &&& final(self).nodes_map()[node_index as int].children@[column as int]
                        == Option::Some(ix)
                    &&& final(self).nodes_map()[ix as int].parent == Option::Some(node_index)
                    &&& final(self).nodes_map()[ix as int].data == (GameState {
                        turn: old(self).nodes_map()[node_index as int].data.turn.spec_other(),
                        playouts: playouts,
                        wins: if old(self).nodes_map()[node_index as int].data.turn
                            == winning_player {
                            wins
                        } else {
                            0
                        },
                    })
                },
            old(self).attached(node_index as int) ==> final(self).nodes_map()[old(
                self,
            ).root_ix()].data.playouts == old(self).nodes_map()[old(
                self,
            ).root_ix()].data.playouts + playouts,
    {
        let ghost m0 = self.nodes_map();
        // add the node
        let new_ix = self.add_node(node_index, column);
        let ghost m1 = self.nodes_map();
        let ghost mid = *self;
        // update the tree
        self.update_playout(new_ix, wins, playouts, winning_player);
        proof {
            let m2 = self.nodes_map();
            let pturn = m0[node_index as int].data.turn;
            assert(m1[new_ix as int] == fresh_node(node_index, pturn));
            assert(m2[new_ix as int] == node_applied(
                m1[new_ix as int],
                wins,
                playouts,
                winning_player,
            ));
            assert(pturn.spec_other().spec_other() == pturn);
            assert(m2[node_index as int] == node_applied(
                m1[node_index as int],
                wins,
                playouts,
                winning_player,
            ));
            assert(m1[node_index as int] == child_set(m0[node_index as int], column as int, new_ix));
            assert(m2[node_index as int].children@[column as int] == Option::Some(new_ix));
            assert(m2.dom() =~= m0.dom().insert(new_ix as int));
            assert(!m0.dom().contains(new_ix as int) && m2.dom() =~= m0.dom().insert(
                new_ix as int,
            ));
            if old(self).attached(node_index as int) {
                assert(mid.attached(new_ix as int));
                assert(m2[mid.root_ix()] == node_applied(
                    m1[mid.root_ix()],
                    wins,
                    playouts,
                    winning_player,
                ));
                assert(m1[mid.root_ix()].data.playouts == m0[mid.root_ix()].data.playouts);
            }
        }
    }
}

impl MoveTree {
    /// Commit a real move: move the root to that column's child, creating a
    /// fresh zero-statistics child if the column was never searched, and cut
    /// the new root loose from its parent. Everything outside the new root's
    /// subtree stays in the arena but becomes unreachable.
    pub fn traverse_root(&mut self, move_index: usize)
        requires
            old(self).wf(),
            move_index < 7,
        ensures
            final(self).wf(),
            final(self).explore_of() == old(self).explore_of(),
            final(self).bound_of() == old(self).bound_of(),
            match old(self).nodes_map()[old(self).root_ix()].children@[move_index as int] {
                Option::Some(ch) => {
                    &&& final(self).root_ix() == ch as int
                    &&& final(self).nodes_map() == old(self).nodes_map().insert(
                        ch as int,
                        detached(old(self).nodes_map()[ch as int]),
                    )
                },
                Option::None => {
                    &&& !old(self).nodes_map().dom().contains(final(self).root_ix())
                    &&& final(self).nodes_map().dom() =~= old(self).nodes_map().dom().insert(
                        final(self).root_ix(),
                    )
                    &&& final(self).nodes_map()[final(self).root_ix()] == (Node {
                        parent: Option::None,
                        children: no_children(),
                        data: GameState {
                            turn: old(self).nodes_map()[old(
                                self,
                            ).root_ix()].data.turn.spec_other(),
                            playouts: 0,
                            wins: 0,
                        },
                    })
                    &&& (match final(self).nodes_map()[old(self).root_ix()].children@[
                        move_index as int
                    ] {
                        Option::Some(r) => r as int == final(self).root_ix(),
                        Option::None => false,
                    })
                    &&& forall|i: int|
                        old(self).nodes_map().dom().contains(i) && i != old(self).root_ix()
                            ==> final(self).nodes_map()[i] == old(self).nodes_map()[i]
                },
            },
    {
        let ghost m0 = self.nodes_map();
        let ghost old_root = self.root as int;
        let ghost old_root_u = self.root;
        let root_node = slab_read(&self.nodes, self.root);
        proof {
            assert(node_ok(m0, self.rank@, self.count_bound, old_root, old_root));
        }
        let next: usize = match root_node.children[move_index] {
            Some(ix) => ix,
            None => self.add_node(self.root, move_index),
        };
        let ghost m1 = self.nodes_map();
        let ghost rank1 = self.rank@;
        self.root = next;
        let mut new_root_node = slab_read(&self.nodes, next);
        new_root_node.parent = None;
        slab_write(&mut self.nodes, next, new_root_node);
        proof {
            let m2 = self.nodes_map();
            let root2 = next as int;
            let bound = self.count_bound;
            assert(m2 == m1.insert(root2, detached(m1[root2])));
            assert(m2.dom() =~= m1.dom());

            // the old root keeps no parent, and the new root's old parent is
            // the old root
            assert(node_ok(m1, rank1, bound, old_root, old_root));
            assert(m1[old_root].parent is None);
            match m0[old_root].children@[move_index as int] {
                Option::Some(ch) => {
                    assert(m1 == m0 && root2 == ch as int);
                    assert(rank1[old_root] < rank1[root2]);
                    assert(m1[root2].parent == Option::Some(old_root_u));
                },
                Option::None => {
                    assert(m1[root2].parent == Option::Some(old_root_u));
                },
            }

            assert forall|i: int| m2.dom().contains(i) implies node_ok(
                m2,
                rank1,
                bound,
                root2,
                i,
            ) by {
                assert(node_ok(m1, rank1, bound, old_root, i));
                let n1 = m1[i];
                let n2 = m2[i];
                assert(n2.children == n1.children);
                assert forall|c: int| 0 <= c < 7 implies match #[trigger] n2.children@[c] {
                    Option::Some(tgt) => {
                        &&& m2.dom().contains(tgt as int)
                        &&& rank1.dom().contains(tgt as int)
                        &&& rank1[i] < rank1[tgt as int]
                        &&& (m2[tgt as int].parent == Option::Some(i as usize) || (
                        n2.parent is None && (tgt as int == root2 || i != root2)))
                    },
                    Option::None => true,
                } by {
                    match n1.children@[c] {
                        Option::Some(tgt) => {
                            if tgt as int == root2 {
                                // every edge into the new root starts at a
                                // parentless node: its one true parent is the
                                // old root, which is parentless
                                assert(rank1[i] < rank1[tgt as int]);
                                if m1[root2].parent == Option::Some(i as usize) {
                                    assert(i == old_root);
                                    assert(n2.parent is None);
                                } else {
                                    assert(n1.parent is None);
                                    assert(n2.parent == n1.parent);
                                }
                            } else {
                                assert(m2[tgt as int].parent == m1[tgt as int].parent);
                                if m1[tgt as int].parent == Option::Some(i as usize) {
                                } else {
                                    assert(n1.parent is None);
                                    assert(i != old_root ==> n2.parent is None && i != root2);
                                    if i == old_root {
                                        assert(n2.parent is None);
                                        assert(i != root2);
                                    }
                                }
                            }
                        },
                        Option::None => {},
                    }
                }
            }
        }
    }
}

/// Replacing one node's statistics, with its parent and child edges and the
/// counter bounds kept, preserves every node's local invariant, every parent
/// link, and every chain to the root.
proof fn lemma_data_write(
    m0: Map<int, Node>,
    m1: Map<int, Node>,
    rank: Map<int, nat>,
    bound: u64,
    root: int,
    cur: int,
    n1: Node,
)
    requires
        rank.dom() == m0.dom(),
        m0.dom().contains(cur),
        m1 == m0.insert(cur, n1),
        n1.parent == m0[cur].parent,
        n1.children == m0[cur].children,
        n1.data.wins <= n1.data.playouts,
        n1.data.playouts <= bound,
        forall|i: int| m0.dom().contains(i) ==> #[trigger] node_ok(m0, rank, bound, root, i),
    ensures
        m1.dom() == m0.dom(),
        forall|i: int| m1.dom().contains(i) ==> #[trigger] node_ok(m1, rank, bound, root, i),
        parents_same(m0, m1, rank),
        forall|i: int|
            m0.dom().contains(i) || i == root ==> (#[trigger] chain_to_root(m1, rank, root, i)
                == chain_to_root(m0, rank, root, i)),
{
    assert(m1.dom() =~= m0.dom());
    assert forall|i: int| m1.dom().contains(i) implies #[trigger] node_ok(
        m1,
        rank,
        bound,
        root,
        i,
    ) by {
        assert(node_ok(m0, rank, bound, root, i));
        assert(m1[i].parent == m0[i].parent);
        assert(m1[i].children == m0[i].children);
        assert(m1[i].data.wins <= m1[i].data.playouts && m1[i].data.playouts <= bound);
        assert forall|c: int| 0 <= c < 7 implies match #[trigger] m1[i].children@[c] {
            Option::Some(ch) => {
                &&& m1.dom().contains(ch as int)
                &&& rank.dom().contains(ch as int)
                &&& rank[i] < rank[ch as int]
                &&& (m1[ch as int].parent == Option::Some(i as usize) || (m1[i].parent is None
                    && (ch as int == root || i != root)))
            },
            Option::None => true,
        } by {
            match m0[i].children@[c] {
                Option::Some(ch) => {
                    assert(m1[ch as int].parent == m0[ch as int].parent);
                },
                Option::None => {},
            }
        }
    }
    assert forall|i: int|
        #![trigger m0.dom().contains(i)]
        m0.dom().contains(i) implies (match m0[i].parent {
            Option::Some(p) => m0.dom().contains(p as int) && rank.dom().contains(p as int)
                && rank[p as int] < rank[i],
            Option::None => true,
        }) by {
        assert(node_ok(m0, rank, bound, root, i));
    }
    assert forall|i: int| #![trigger m1[i]] m0.dom().contains(i) implies m1[i].parent
        == m0[i].parent by {}
    assert(parents_kept(m0, m1));
    assert(parents_ranked(m0, rank));
    assert(parents_same(m0, m1, rank));
    assert forall|i: int| m0.dom().contains(i) || i == root implies (#[trigger] chain_to_root(
        m1,
        rank,
        root,
        i,
    ) == chain_to_root(m0, rank, root, i)) by {
        lemma_chain_same_values(m0, m1, rank, root, i);
    }
}

/// Whether a second arena keeps every node's parent link.
spec fn parents_kept(m0: Map<int, Node>, m2: Map<int, Node>) -> bool {
    forall|i: int| #![trigger m2[i]] m0.dom().contains(i) ==> m2[i].parent == m0[i].parent
}

/// Whether every parent link steps down in rank.
spec fn parents_ranked(m0: Map<int, Node>, rank: Map<int, nat>) -> bool {
    forall|i: int|
        #![trigger m0.dom().contains(i)]
        m0.dom().contains(i) ==> (match m0[i].parent {
            Option::Some(p) => m0.dom().contains(p as int) && rank.dom().contains(p as int)
                && rank[p as int] < rank[i],
            Option::None => true,
        })
}

/// Whether a second arena keeps every node's parent link, under one rank map.
spec fn parents_same(m0: Map<int, Node>, m2: Map<int, Node>, rank: Map<int, nat>) -> bool {
    &&& rank.dom() == m0.dom()
    &&& m2.dom() == m0.dom()
    &&& parents_kept(m0, m2)
    &&& parents_ranked(m0, rank)
}

/// Rewriting node statistics moves no parent link, so every chain to the
/// root is kept.
proof fn lemma_chain_same_values(
    m0: Map<int, Node>,
    m2: Map<int, Node>,
    rank: Map<int, nat>,
    root: int,
    ix: int,
)
    requires
        parents_same(m0, m2, rank),
        m0.dom().contains(ix) || ix == root,
    ensures
        chain_to_root(m2, rank, root, ix) == chain_to_root(m0, rank, root, ix),
    decreases (if rank.dom().contains(ix) {
        rank[ix]
    } else {
        0
    }),
{
    if ix == root {
    } else {
        assert(m0.dom().contains(ix));
        assert(m2[ix].parent == m0[ix].parent);
        assert(rank.dom().contains(ix));
        match m0[ix].parent {
            Option::Some(p) => {
                assert(rank[p as int] < rank[ix]);
                lemma_chain_same_values(m0, m2, rank, root, p as int);
            },
            Option::None => {},
        }
    }
}

/// The index of the first maximum in a non-empty list of scores: later
/// entries replace the champion only when strictly greater.
pub fn choose_max_index(vec: &Vec<u64>) -> (ix: usize)
    requires
        vec@.len() >= 1,
    ensures
        ix < vec@.len(),
        forall|j: int| 0 <= j < vec@.len() ==> vec@[j] <= vec@[ix as int],
        forall|j: int| 0 <= j < ix ==> vec@[j] < vec@[ix as int],
{
    let mut best: usize = 0;
    let mut k: usize = 1;
    while k < vec.len()
        invariant
            1 <= k <= vec@.len(),
            best < k,
            forall|j: int| 0 <= j < k ==> vec@[j] <= vec@[best as int],
            forall|j: int| 0 <= j < best ==> vec@[j] < vec@[best as int],
        decreases vec@.len() - k,
    {
        if vec[k] > vec[best] {
            best = k;
        }
        k += 1;
    }
    best
}

/// Whether one raw win rate beats another: w1 / (p1 + 1/10000) is greater
/// than w2 / (p2 + 1/10000), stated by cross-multiplication so that it is
/// exact over the integers.
pub open spec fn rate_gt(w1: int, p1: int, w2: int, p2: int) -> bool {
    w1 * (10000 * p2 + 1) > w2 * (10000 * p1 + 1)
}

/// The cross-multiplied rate comparison, computed exactly in 128 bits.
fn rate_gt_exec(w1: u64, p1: u64, w2: u64, p2: u64) -> (r: bool)
    requires
        w1 <= COUNT_LIMIT,
        p1 <= COUNT_LIMIT,
        w2 <= COUNT_LIMIT,
        p2 <= COUNT_LIMIT,
    ensures
        r == rate_gt(w1 as int, p1 as int, w2 as int, p2 as int),
{
    proof {
        assert((w1 as int) * (10000 * (p2 as int) + 1) < 0x1_0000_0000_0000_0000_0000_0000)
            by (nonlinear_arith)
            requires
                w1 <= 0x100_0000_0000u64,
                p2 <= 0x100_0000_0000u64;
        assert((w2 as int) * (10000 * (p1 as int) + 1) < 0x1_0000_0000_0000_0000_0000_0000)
            by (nonlinear_arith)
            requires
                w2 <= 0x100_0000_0000u64,
                p1 <= 0x100_0000_0000u64;
    }
    (w1 as u128) * (10000 * (p2 as u128) + 1) > (w2 as u128) * (10000 * (p1 as u128) + 1)
}

/// The rate order is transitive across a middle rate: what does not beat b
/// is beaten by anything that beats b.
proof fn lemma_rate_gt_trans(aw: int, ap: int, bw: int, bp: int, cw: int, cp: int)
    requires
        aw >= 0,
        ap >= 0,
        bw >= 0,
        bp >= 0,
        cw >= 0,
        cp >= 0,
        !rate_gt(aw, ap, bw, bp),
        rate_gt(cw, cp, bw, bp),
    ensures
        rate_gt(cw, cp, aw, ap),
{
    assert(cw * (10000 * ap + 1) > aw * (10000 * cp + 1)) by (nonlinear_arith)
        requires
            aw >= 0,
            ap >= 0,
            bw >= 0,
            bp >= 0,
            cw >= 0,
            cp >= 0,
            aw * (10000 * bp + 1) <= bw * (10000 * ap + 1),
            cw * (10000 * bp + 1) > bw * (10000 * cp + 1);
}

/// The wins of the root's child for a column, or zero where the column has
/// not been expanded.
pub open spec fn column_wins(t: MoveTree, c: int) -> u64 {
    match t.nodes_map()[t.root_ix()].children@[c] {
        Option::Some(ch) => t.nodes_map()[ch as int].data.wins,
        Option::None => 0,
    }
}

/// The playouts of the root's child for a column, or zero where the column
/// has not been expanded.
pub open spec fn column_playouts(t: MoveTree, c: int) -> u64 {
    match t.nodes_map()[t.root_ix()].children@[c] {
        Option::Some(ch) => t.nodes_map()[ch as int].data.playouts,
        Option::None => 0,
    }
}

/// A node's child edge steps down to a node that is itself attached.
proof fn lemma_step_down(t: MoveTree, cur: int, c: int)
    requires
        t.wf(),
        t.nodes_map().dom().contains(cur),
        t.attached(cur),
        0 <= c < 7,
        t.nodes_map()[cur].children@[c] is Some,
    ensures
        ({
            let ch = t.nodes_map()[cur].children@[c]->Some_0;
            t.nodes_map().dom().contains(ch as int) && t.attached(ch as int)
        }),
{
    let m = t.nodes_map();
    let rank = t.rank_of();
    let root = t.root_ix();
    let ch = m[cur].children@[c]->Some_0;
    assert(node_ok(m, rank, t.bound_of(), root, cur));
    assert(m.dom().contains(ch as int));
    if ch as int == root {
    } else if m[ch as int].parent == Option::Some(cur as usize) {
        assert(node_ok(m, rank, t.bound_of(), root, ch as int));
        assert(chain_to_root(m, rank, root, ch as int));
    } else {
        assert(m[cur].parent is None);
        assert(cur == root);
        assert(ch as int == root);
    }
}

impl MoveTree {
    /// The arena index of the current root.
    pub fn root_index(&self) -> (r: usize)
        ensures
            r as int == self.root_ix(),
    {
        self.root
    }

    /// The statistics of the current root.
    pub fn root_state(&self) -> (g: GameState)
        requires
            self.wf(),
        ensures
            g == self.nodes_map()[self.root_ix()].data,
    {
        slab_read(&self.nodes, self.root).data
    }

    /// The statistics of the root's child for a column, where that column has
    /// been expanded.
    pub fn child_state(&self, column: usize) -> (g: Option<GameState>)
        requires
            self.wf(),
            column < 7,
        ensures
            g == (match self.nodes_map()[self.root_ix()].children@[column as int] {
                Option::Some(ch) => Option::Some(self.nodes_map()[ch as int].data),
                Option::None => Option::None::<GameState>,
            }),
    {
        let root_node = slab_read(&self.nodes, self.root);
        proof {
            assert(node_ok(
                self.nodes_map(),
                self.rank@,
                self.count_bound,
                self.root as int,
                self.root as int,
            ));
        }
        match root_node.children[column] {
            Some(ix) => Some(slab_read(&self.nodes, ix).data),
            None => None,
        }
    }

    /// Whether statistics worth the given playouts still fit under the
    /// tree's counter bound.
    pub fn can_record(&self, playouts: u64) -> (ok: bool)
        requires
            self.wf(),
        ensures
            ok == (self.bound_of() + playouts <= COUNT_LIMIT),
    {
        playouts <= COUNT_LIMIT - self.count_bound
    }

    /// The column an engine should play now: among the columns with room,
    /// the one whose root child has the best raw win rate, taking the first
    /// on ties; unexpanded columns rate as zero.
    pub fn best_move(&self, current_board: &Board) -> (col: usize)
        requires
            self.wf(),
            current_board.wf(),
            current_board.winner == Winner::NoWinner,
        ensures
            col < 7,
            height_of(*current_board, col as int) < 6,
            forall|c: int|
                0 <= c < 7 && height_of(*current_board, c) < 6 ==> !rate_gt(
                    column_wins(*self, c) as int,
                    column_playouts(*self, c) as int,
                    column_wins(*self, col as int) as int,
                    column_playouts(*self, col as int) as int,
                ),
            forall|c: int|
                0 <= c < col && height_of(*current_board, c) < 6 ==> rate_gt(
                    column_wins(*self, col as int) as int,
                    column_playouts(*self, col as int) as int,
                    column_wins(*self, c) as int,
                    column_playouts(*self, c) as int,
                ),
    {
        let root_node = slab_read(&self.nodes, self.root);
        proof {
            assert(node_ok(
                self.nodes_map(),
                self.rank@,
                self.count_bound,
                self.root as int,
                self.root as int,
            ));
        }
        let mut col: usize = 0;
        let mut found = false;
        let mut best: usize = 0;
        let mut best_w: u64 = 0;
        let mut best_p: u64 = 0;
        while col < BOARD_WIDTH
            invariant
                self.wf(),
                current_board.wf(),
                root_node == self.nodes_map()[self.root_ix()],
                col <= 7,
                !found ==> forall|c: int| 0 <= c < col ==> height_of(*current_board, c) >= 6,
                found ==> {
                    &&& best < col
                    &&& height_of(*current_board, best as int) < 6
                    &&& best_w == column_wins(*self, best as int)
                    &&& best_p == column_playouts(*self, best as int)
                    &&& best_w <= COUNT_LIMIT && best_p <= COUNT_LIMIT
                    &&& forall|c: int|
                        0 <= c < col && height_of(*current_board, c) < 6 ==> !rate_gt(
                            column_wins(*self, c) as int,
                            column_playouts(*self, c) as int,
                            best_w as int,
                            best_p as int,
                        )
                    &&& forall|c: int|
                        0 <= c < best && height_of(*current_board, c) < 6 ==> rate_gt(
                            best_w as int,
                            best_p as int,
                            column_wins(*self, c) as int,
                            column_playouts(*self, c) as int,
                        )
                },
            decreases 7 - col,
        {
            if current_board.top_spot[col] < BOARD_HEIGHT {
                let mut w: u64 = 0;
                let mut p: u64 = 0;
                match root_node.children[col] {
                    Some(ix) => {
                        proof {
                            assert(node_ok(
                                self.nodes_map(),
                                self.rank@,
                                self.count_bound,
                                self.root as int,
                                self.root as int,
                            ));
                            assert(self.nodes_map()[self.root_ix()].children@[col as int]
                                == Option::Some(ix));
                            assert(self.nodes_map().dom().contains(ix as int));
                            assert(node_ok(
                                self.nodes_map(),
                                self.rank@,
                                self.count_bound,
                                self.root as int,
                                ix as int,
                            ));
                        }
                        let child = slab_read(&self.nodes, ix);
                        w = child.data.wins;
                        p = child.data.playouts;
                    },
                    None => {
                        proof {
                            assert(self.nodes_map()[self.root_ix()].children@[col as int]
                                is None);
                        }
                    },
                }
                proof {
                    assert(w == column_wins(*self, col as int));
                    assert(p == column_playouts(*self, col as int));
                    assert(height_of(*current_board, col as int) < 6);
                }
                if !found {
                    found = true;
                    best = col;
                    best_w = w;
                    best_p = p;
                } else if rate_gt_exec(w, p, best_w, best_p) {
                    proof {
                        let ghost ow = best_w as int;
                        let ghost op = best_p as int;
                        assert forall|c: int|
                            0 <= c < col && height_of(*current_board, c) < 6 implies rate_gt(
                            w as int,
                            p as int,
                            column_wins(*self, c) as int,
                            column_playouts(*self, c) as int,
                        ) by {
                            lemma_rate_gt_trans(
                                column_wins(*self, c) as int,
                                column_playouts(*self, c) as int,
                                ow,
                                op,
                                w as int,
                                p as int,
                            );
                        }
                    }
                    best = col;
                    best_w = w;
                    best_p = p;
                }
            } else {
                proof {
                    assert(height_of(*current_board, col as int) >= 6);
                }
            }
            col += 1;
        }
        proof {
            if !found {
                lemma_open_board_has_room(*current_board);
                assert(false);
            }
        }
        best
    }
}

impl MoveTree {
    /// Run one simulation from the given position: descend from the root by
    /// the selection score, and when the cloned game ends or an unexpanded
    /// column is chosen, backpropagate one result. A decided clone
    /// backpropagates the outcome itself (a draw counts as a loss for both
    /// sides); an unexpanded column gets a fresh node whose value is a
    /// rollout batch of one hundred random games, binarized to a win when the
    /// batch wins more than half. Exactly one playout lands on the root.
    pub fn think(&mut self, current_board: &Board, rng: &mut rand::rngs::StdRng)
        requires
            old(self).wf(),
            current_board.wf(),
            current_board.winner == Winner::NoWinner,
            old(self).bound_of() + 1 <= COUNT_LIMIT,
        ensures
            final(self).wf(),
            final(self).root_ix() == old(self).root_ix(),
            final(self).explore_of() == old(self).explore_of(),
            final(self).bound_of() == old(self).bound_of() + 1,
            final(self).nodes_map()[final(self).root_ix()].data.playouts == old(
                self,
            ).nodes_map()[old(self).root_ix()].data.playouts + 1,
            exists|ix: int|
                #![auto]
                !old(self).nodes_map().dom().contains(ix) && final(self).nodes_map().dom() =~= old(
                    self,
                ).nodes_map().dom().insert(ix),
    {
        let mut board = current_board.clone();
        let mut current_ix = self.root;
        let mut next_move: usize = 0;

        loop
            invariant_except_break
                *self == *old(self),
                self.wf(),
                self.nodes_map().dom().contains(current_ix as int),
                self.attached(current_ix as int),
                old(self).bound_of() + 1 <= COUNT_LIMIT,
                board.wf(),
                board.winner == Winner::NoWinner,
            ensures
                *self == *old(self),
                self.nodes_map().dom().contains(current_ix as int),
                self.attached(current_ix as int),
                next_move < 7,
                board.wf(),
            decreases 42 - sum_heights(board.top_spot@, 7),
        {
            // score every column that still has room
            let mut available: Vec<usize> = Vec::new();
            let mut scores: Vec<u64> = Vec::new();
            let current_node = slab_read(&self.nodes, current_ix);
            proof {
                assert(node_ok(
                    self.nodes_map(),
                    self.rank@,
                    self.count_bound,
                    self.root as int,
                    current_ix as int,
                ));
            }
            let mut c: usize = 0;
            while c < BOARD_WIDTH
                invariant
                    self.wf(),
                    board.wf(),
                    board.winner == Winner::NoWinner,
                    self.nodes_map().dom().contains(current_ix as int),
                    current_node == self.nodes_map()[current_ix as int],
                    c <= 7,
                    available@.len() == scores@.len(),
                    forall|i: int|
                        0 <= i < available@.len() ==> (#[trigger] available@[i] < 7 && height_of(
                            board,
                            available@[i] as int,
                        ) < 6),
                    forall|k: int|
                        0 <= k < c && #[trigger] height_of(board, k) < 6 ==> available@.contains(
                            k as usize,
                        ),
                decreases 7 - c,
            {
                if board.top_spot[c] < BOARD_HEIGHT {
                    let ghost old_available = available@;
                    let score: u64;
                    proof {
                        assert(node_ok(
                            self.nodes_map(),
                            self.rank@,
                            self.count_bound,
                            self.root as int,
                            current_ix as int,
                        ));
                    }
                    match current_node.children[c] {
                        Some(ix) => {
                            proof {
                                assert(self.nodes_map()[current_ix as int].children@[c as int]
                                    == Option::Some(ix));
                                assert(node_ok(
                                    self.nodes_map(),
                                    self.rank@,
                                    self.count_bound,
                                    self.root as int,
                                    ix as int,
                                ));
                            }
                            let child = slab_read(&self.nodes, ix);
                            score = get_score(
                                child.data.wins,
                                child.data.playouts,
                                current_node.data.playouts,
                                self.explore,
                            );
                        },
                        None => {
                            score = get_score(0, 0, current_node.data.playouts, self.explore);
                        },
                    }
                    available.push(c);
                    scores.push(score);
                    proof {
                        assert(available@[available@.len() - 1] == c);
                        assert forall|k: int|
                            0 <= k < c + 1 && #[trigger] height_of(board, k)
                                < 6 implies available@.contains(k as usize) by {
                            if k < c {
                                let i = choose|i: int|
                                    0 <= i < old_available.len() && old_available[i] == k as usize;
                                assert(available@[i] == k as usize);
                            } else {
                                assert(available@[available@.len() - 1] == k as usize);
                            }
                        }
                    }
                }
                c += 1;
            }
            proof {
                lemma_open_board_has_room(board);
                let k = choose|k: int| 0 <= k < 7 && #[trigger] height_of(board, k) < 6;
                assert(available@.contains(k as usize));
                assert(available@.len() >= 1);
            }

            // make the selected move on the clone
            let sel = choose_max_index(&scores);
            next_move = available[sel];
            let turn = board.turn;
            let ghost board_before = board;
            let move_outcome = board.make_move(PlayerMove { player: turn, column: next_move });
            proof {
                assert(move_ok(board_before, turn, next_move as int));
            }
            move_outcome.unwrap();
            proof {
                lemma_sum_heights_after_move(board_before, board, next_move as int, 7);
            }

            match board.winner {
                Winner::WinningPlayer(player) => {
                    self.add_playout(current_ix, next_move, 1, 1, player);
                    return ;
                },
                Winner::Draw => {
                    self.add_playout(current_ix, next_move, 0, 1, turn);
                    return ;
                },
                Winner::NoWinner => {},
            }

            let node = slab_read(&self.nodes, current_ix);
            match node.children[next_move] {
                Some(ix) => {
                    proof {
                        assert(self.nodes_map()[current_ix as int].children@[next_move as int]
                            == Option::Some(ix));
                        lemma_step_down(*self, current_ix as int, next_move as int);
                    }
                    current_ix = ix;
                },
                None => {
                    break ;
                },
            }
        }

        // add a new random playout
        let playouts: usize = 100;
        let playout_wins = random_playout(&board, playouts, board.turn.other(), rng);
        let wins: u64 = if 2 * playout_wins > playouts {
            1
        } else {
            0
        };
        self.add_playout(current_ix, next_move, wins, 1, board.turn.other());
    }
}

/// The root is always attached to itself: backpropagation from a node added
/// under the root reaches the root.
pub proof fn lemma_root_attached(t: MoveTree)
    ensures
        t.attached(t.root_ix()),
{
}

/// In a well-formed tree no node's win count ever exceeds its playout
/// count: every credited win came with a playout through the same node.
pub proof fn lemma_wins_within_playouts(t: MoveTree, i: int)
    requires
        t.wf(),
        t.nodes_map().dom().contains(i),
    ensures
        t.nodes_map()[i].data.wins <= t.nodes_map()[i].data.playouts,
{
    assert(node_ok(t.nodes_map(), t.rank_of(), t.bound_of(), t.root_ix(), i));
}

} // verus!
