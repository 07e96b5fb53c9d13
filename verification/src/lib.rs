//! A staged state-space compiler for small n-in-a-row board games.
//!
//! Board states are packed into base-3 integers.  The [`Compiler`] discovers
//! every reachable state breadth-first through a pluggable [`Compilation`]
//! store, detects terminal (won) states, and back-propagates minimax scores
//! so that every state's game-theoretic value is known.  [`AI`] performs
//! greedy best-move lookup over a finished graph.

use vstd::prelude::*;
use std::collections::HashMap;
use std::collections::VecDeque;
use vstd::string::StringExecFns;

pub mod ttt;

verus! {

broadcast use vstd::std_specs::hash::group_hash_axioms, vstd::std_specs::vecdeque::group_vec_dequeue_axioms, vstd::set::group_set_axioms, vstd::seq_lib::group_seq_properties;

/// Identifier of a board state: the board packed as a base-3 number.
pub type NodeIndex = u128;

/// The node map handed around at the export boundary.
pub type NodeMap = HashMap<NodeIndex, Node>;

/// Result type of the compilation operations.
pub type CompilationResult<T> = Result<T, CompilationError>;

#[derive(Debug, Clone, Copy, PartialEq, Eq, Structural)]
pub enum CompilationError {
    /// An operation that needs a bound store was invoked before one was set.
    NoCompilation,
    /// A stage step was invoked with nothing left in its queue or stack.
    QueueEmpty,
    /// A lookup by identifier found no node: either caller misuse or a
    /// corrupted graph.
    NodeNotFound,
}

/// One board state in the discovered graph.
#[derive(Debug, Clone)]
pub struct Node {
    pub id: NodeIndex,
    /// Number of moves made to reach this state (BFS depth).
    pub level: usize,
    pub parents: Vec<NodeIndex>,
    pub children: Vec<NodeIndex>,
    /// Minimax value: -100, 0 or 100.
    pub score: i8,
}

impl Node {
    fn new() -> (n: Node)
        ensures
            n.id == 0,
            n.level == 0,
            n.parents@ == Seq::<NodeIndex>::empty(),
            n.children@ == Seq::<NodeIndex>::empty(),
            n.score == 0,
    {
        Node { id: 0, level: 0, parents: Vec::new(), children: Vec::new(), score: 0 }
    }
}

/// Everything but the `parents` collection agrees between the two nodes.
pub open spec fn node_same_but_parents(a: Node, b: Node) -> bool {
    a.id == b.id && a.level == b.level && a.score == b.score && a.children@ == b.children@
}

/// Everything but the `children` collection agrees between the two nodes.
pub open spec fn node_same_but_children(a: Node, b: Node) -> bool {
    a.id == b.id && a.level == b.level && a.score == b.score && a.parents@ == b.parents@
}

/// Everything but the `score` agrees between the two nodes.
pub open spec fn node_same_but_score(a: Node, b: Node) -> bool {
    a.id == b.id && a.level == b.level && a.parents@ == b.parents@ && a.children@ == b.children@
}

/// The three stage counters agree between the two stores.
pub open spec fn counters_same<C: Compilation>(a: C, b: C) -> bool {
    &&& a.processed_count() == b.processed_count()
    &&& a.winners_count() == b.winners_count()
    &&& a.scored_count() == b.scored_count()
}

/// A pluggable graph store: a map of nodes keyed by state identifier,
/// stage counters, and the game-specific child generator and win check.
///
/// The game itself enters only through the abstract functions over the
/// store's configuration `cfg`: `winner_of`, `child_states_of`, `valid_id`
/// and `id_level`, about which every implementation must prove the laws
/// `lemma_root` and `lemma_child_states`.
pub trait Compilation: Sized {
    /// The stored nodes, keyed by identifier.
    spec fn node_map(&self) -> Map<NodeIndex, Node>;

    /// The game configuration (for a board game, its size).
    spec fn cfg(&self) -> int;

    /// Internal well-formedness of the store.
    spec fn inv(&self) -> bool;

    /// Identifiers of the stored nodes, in insertion order.
    spec fn id_list(&self) -> Seq<NodeIndex>;

    spec fn processed_count(&self) -> usize;

    spec fn winners_count(&self) -> usize;

    spec fn scored_count(&self) -> usize;

    /// Winner verdict of a state: 0 none, 1 team A, 2 team B.
    spec fn winner_of(cfg: int, id: NodeIndex) -> u8;

    /// Ordered candidate child states of `id` when `team` moves.
    spec fn child_states_of(cfg: int, id: NodeIndex, team: u8) -> Seq<NodeIndex>;

    /// Whether `id` encodes a board of the configured game.
    spec fn valid_id(cfg: int, id: NodeIndex) -> bool;

    /// The ply count of a state: the number of moves made to reach it.
    spec fn id_level(cfg: int, id: NodeIndex) -> nat;

    /// The configuration a reset store returns to (the default board).
    spec fn default_cfg() -> int;

    /// The empty board is a valid state at ply 0.
    proof fn lemma_root(&self)
        requires
            self.inv(),
        ensures
            Self::valid_id(self.cfg(), 0),
            Self::id_level(self.cfg(), 0) == 0,
    ;

    /// Candidate children of a valid state are valid, one ply deeper,
    /// pairwise distinct and distinct from their parent; ply counts stay
    /// far below `usize::MAX`.
    proof fn lemma_child_states(cfg: int, id: NodeIndex, team: u8)
        requires
            Self::valid_id(cfg, id),
            1 <= team <= 2,
        ensures
            Self::id_level(cfg, id) < usize::MAX,
            forall|j: int|
                0 <= j < Self::child_states_of(cfg, id, team).len() ==> {
                    let c = #[trigger] Self::child_states_of(cfg, id, team)[j];
                    &&& Self::valid_id(cfg, c)
                    &&& Self::id_level(cfg, c) == Self::id_level(cfg, id) + 1
                    &&& c != id
                },
            forall|j1: int, j2: int|
                #![trigger Self::child_states_of(cfg, id, team)[j1], Self::child_states_of(cfg, id, team)[j2]]
                0 <= j1 < j2 < Self::child_states_of(cfg, id, team).len()
                    ==> Self::child_states_of(cfg, id, team)[j1] != Self::child_states_of(
                    cfg,
                    id,
                    team,
                )[j2],
    ;

    fn inc_nodes_processed(&mut self)
        requires
            old(self).inv(),
            old(self).processed_count() < usize::MAX,
        ensures
            final(self).inv(),
            final(self).processed_count() == old(self).processed_count() + 1,
            final(self).winners_count() == old(self).winners_count(),
            final(self).scored_count() == old(self).scored_count(),
            final(self).node_map() == old(self).node_map(),
            final(self).id_list() == old(self).id_list(),
            final(self).cfg() == old(self).cfg(),
    ;

    fn get_nodes_processed(&self) -> (r: usize)
        ensures
            r == self.processed_count(),
    ;

    fn inc_winners_processed(&mut self)
        requires
            old(self).inv(),
            old(self).winners_count() < usize::MAX,
        ensures
            final(self).inv(),
            final(self).winners_count() == old(self).winners_count() + 1,
            final(self).processed_count() == old(self).processed_count(),
            final(self).scored_count() == old(self).scored_count(),
            final(self).node_map() == old(self).node_map(),
            final(self).id_list() == old(self).id_list(),
            final(self).cfg() == old(self).cfg(),
    ;

    fn get_winners_processed(&self) -> (r: usize)
        ensures
            r == self.winners_count(),
    ;

    fn inc_nodes_scored(&mut self)
        requires
            old(self).inv(),
            old(self).scored_count() < usize::MAX,
        ensures
            final(self).inv(),
            final(self).scored_count() == old(self).scored_count() + 1,
            final(self).processed_count() == old(self).processed_count(),
            final(self).winners_count() == old(self).winners_count(),
            final(self).node_map() == old(self).node_map(),
            final(self).id_list() == old(self).id_list(),
            final(self).cfg() == old(self).cfg(),
    ;

    fn get_nodes_scored(&self) -> (r: usize)
        ensures
            r == self.scored_count(),
    ;

    /// Reads the stored node with identifier `id`, `None` if absent.
    fn get_node<'a>(&'a self, id: NodeIndex) -> (n: Option<&'a Node>)
        requires
            self.inv(),
        ensures
            match n {
                Some(node) => self.node_map().dom().contains(id) && *node == self.node_map()[id],
                None => !self.node_map().dom().contains(id),
            },
    ;

    /// Stores `n` under `id`; a no-op if a node with that identifier is
    /// already present (never overwrites accumulated edges).
    fn insert_node(&mut self, id: NodeIndex, n: Node)
        requires
            old(self).inv(),
        ensures
            final(self).inv(),
            final(self).processed_count() == old(self).processed_count(),
            final(self).winners_count() == old(self).winners_count(),
            final(self).scored_count() == old(self).scored_count(),
            final(self).cfg() == old(self).cfg(),
            old(self).node_map().dom().contains(id) ==> {
                &&& final(self).node_map() == old(self).node_map()
                &&& final(self).id_list() == old(self).id_list()
            },
            !old(self).node_map().dom().contains(id) ==> {
                &&& final(self).node_map() == old(self).node_map().insert(id, n)
                &&& final(self).id_list() == old(self).id_list().push(id)
            },
    ;

    fn contains_node(&self, id: &NodeIndex) -> (r: bool)
        requires
            self.inv(),
        ensures
            r == self.node_map().dom().contains(*id),
    ;

    /// A full independent copy of the node map.
    fn get_cloned_map(&self) -> (m: NodeMap)
        requires
            self.inv(),
        ensures
            m@ == self.node_map(),
    ;

    /// The stored identifiers, in insertion order; each refers to a stored
    /// node.
    fn get_node_ids(&self) -> (v: Vec<NodeIndex>)
        requires
            self.inv(),
        ensures
            v@ == self.id_list(),
            forall|j: int| 0 <= j < v@.len() ==> self.node_map().dom().contains(#[trigger] v@[j]),
    ;

    /// Winner verdict for `id` under the store's configuration.
    fn get_winner(&self, id: &NodeIndex) -> (w: u8)
        requires
            self.inv(),
        ensures
            w == Self::winner_of(self.cfg(), *id),
    ;

    /// Ordered candidate child states of `id` when `team` moves.
    fn get_child_states(&self, id: NodeIndex, team: u8) -> (v: Vec<NodeIndex>)
        requires
            self.inv(),
            Self::valid_id(self.cfg(), id),
            1 <= team <= 2,
        ensures
            v@ == Self::child_states_of(self.cfg(), id, team),
    ;

    /// Appends `parent` to the `parents` of the node stored under `id`.
    fn append_parent(&mut self, id: NodeIndex, parent: NodeIndex)
        requires
            old(self).inv(),
            old(self).node_map().dom().contains(id),
        ensures
            final(self).inv(),
            final(self).processed_count() == old(self).processed_count(),
            final(self).winners_count() == old(self).winners_count(),
            final(self).scored_count() == old(self).scored_count(),
            final(self).cfg() == old(self).cfg(),
            final(self).id_list() == old(self).id_list(),
            final(self).node_map().dom() == old(self).node_map().dom(),
            forall|k: NodeIndex|
                k != id && old(self).node_map().dom().contains(k) ==> final(self).node_map()[k]
                    == old(self).node_map()[k],
            node_same_but_parents(final(self).node_map()[id], old(self).node_map()[id]),
            final(self).node_map()[id].parents@ == old(self).node_map()[id].parents@.push(parent),
    ;

    /// Appends `child` to the `children` of the node stored under `id`.
    fn append_child(&mut self, id: NodeIndex, child: NodeIndex)
        requires
            old(self).inv(),
            old(self).node_map().dom().contains(id),
        ensures
            final(self).inv(),
            final(self).processed_count() == old(self).processed_count(),
            final(self).winners_count() == old(self).winners_count(),
            final(self).scored_count() == old(self).scored_count(),
            final(self).cfg() == old(self).cfg(),
            final(self).id_list() == old(self).id_list(),
            final(self).node_map().dom() == old(self).node_map().dom(),
            forall|k: NodeIndex|
                k != id && old(self).node_map().dom().contains(k) ==> final(self).node_map()[k]
                    == old(self).node_map()[k],
            node_same_but_children(final(self).node_map()[id], old(self).node_map()[id]),
            final(self).node_map()[id].children@ == old(self).node_map()[id].children@.push(child),
    ;

    /// Overwrites the score of the node stored under `id`.
    fn set_score(&mut self, id: NodeIndex, score: i8)
        requires
            old(self).inv(),
            old(self).node_map().dom().contains(id),
        ensures
            final(self).inv(),
            final(self).processed_count() == old(self).processed_count(),
            final(self).winners_count() == old(self).winners_count(),
            final(self).scored_count() == old(self).scored_count(),
            final(self).cfg() == old(self).cfg(),
            final(self).id_list() == old(self).id_list(),
            final(self).node_map().dom() == old(self).node_map().dom(),
            forall|k: NodeIndex|
                k != id && old(self).node_map().dom().contains(k) ==> final(self).node_map()[k]
                    == old(self).node_map()[k],
            node_same_but_score(final(self).node_map()[id], old(self).node_map()[id]),
            final(self).node_map()[id].score == score,
    ;

    /// Clears all nodes and counters and returns to the default
    /// configuration.
    fn reset(&mut self)
        requires
            old(self).inv(),
        ensures
            final(self).inv(),
            final(self).node_map() == Map::<NodeIndex, Node>::empty(),
            final(self).id_list() == Seq::<NodeIndex>::empty(),
            final(self).processed_count() == 0,
            final(self).winners_count() == 0,
            final(self).scored_count() == 0,
            final(self).cfg() == Self::default_cfg(),
    ;
}

/// Drives the three compilation stages over a bound [`Compilation`] store:
/// breadth-first expansion, terminal scoring, and LIFO back-propagation.
pub struct Compiler<C: Compilation> {
    /// FIFO frontier of discovered, not yet expanded identifiers.
    pub queue: VecDeque<NodeIndex>,
    /// FIFO queue of discovered winner identifiers awaiting their score.
    pub winners: VecDeque<NodeIndex>,
    /// LIFO stack of identifiers awaiting back-propagation.
    pub unscored_nodes: Vec<NodeIndex>,
    /// The bound store, if any.
    pub compilation: Option<C>,
}

impl<C: Compilation> Compiler<C> {
    /// Whether a store is bound.
    pub open spec fn bound(&self) -> bool {
        self.compilation is Some
    }

    /// The bound store.
    pub open spec fn store(&self) -> C
        recommends
            self.bound(),
    {
        self.compilation->Some_0
    }

    /// The nodes of the bound store.
    pub open spec fn nodes(&self) -> Map<NodeIndex, Node>
        recommends
            self.bound(),
    {
        self.store().node_map()
    }

    /// The configuration of the bound store.
    pub open spec fn cfg(&self) -> int
        recommends
            self.bound(),
    {
        self.store().cfg()
    }

    /// The stored node under `k` is internally consistent: it knows its own
    /// identifier, its level is the ply count of its state, its score is a
    /// minimax value, and its edges point at stored nodes.
    pub open spec fn node_ok(&self, k: NodeIndex) -> bool {
        let m = self.nodes();
        &&& m[k].id == k
        &&& C::valid_id(self.cfg(), k)
        &&& m[k].level == C::id_level(self.cfg(), k)
        &&& (m[k].score == -100 || m[k].score == 0 || m[k].score == 100)
        &&& forall|i: int|
            0 <= i < m[k].children@.len() ==> m.dom().contains(#[trigger] m[k].children@[i])
        &&& forall|i: int|
            0 <= i < m[k].parents@.len() ==> m.dom().contains(#[trigger] m[k].parents@[i])
    }

    /// Well-formedness: when a store is bound, every stored node is
    /// consistent and every queued identifier refers to a stored node.
    pub open spec fn wf(&self) -> bool {
        self.bound() ==> {
            &&& self.store().inv()
            &&& forall|k: NodeIndex|
                #[trigger] self.nodes().dom().contains(k) ==> self.node_ok(k)
            &&& forall|i: int|
                0 <= i < self.queue@.len() ==> self.nodes().dom().contains(#[trigger] self.queue@[i])
            &&& forall|i: int|
                0 <= i < self.winners@.len() ==> self.nodes().dom().contains(
                    #[trigger] self.winners@[i],
                )
            &&& forall|i: int|
                0 <= i < self.unscored_nodes@.len() ==> self.nodes().dom().contains(
                    #[trigger] self.unscored_nodes@[i],
                )
        }
    }

    /// A fresh compiler: empty queues, no store bound.
    pub fn new() -> (c: Compiler<C>)
        ensures
            c.queue@ == Seq::<NodeIndex>::empty(),
            c.winners@ == Seq::<NodeIndex>::empty(),
            c.unscored_nodes@ == Seq::<NodeIndex>::empty(),
            !c.bound(),
            c.wf(),
    {
        Compiler {
            queue: VecDeque::new(),
            winners: VecDeque::new(),
            unscored_nodes: Vec::new(),
            compilation: None,
        }
    }

    /// Creates the root node (empty board, level 0) and enqueues it on the
    /// frontier.
    pub fn init_compilation(&mut self) -> (r: CompilationResult<()>)
        requires
            old(self).wf(),
        ensures
            final(self).wf(),
            !old(self).bound() ==> {
                &&& r == Err::<(), CompilationError>(CompilationError::NoCompilation)
                &&& !final(self).bound()
                &&& final(self).queue@ == old(self).queue@
                &&& final(self).winners@ == old(self).winners@
                &&& final(self).unscored_nodes@ == old(self).unscored_nodes@
            },
            old(self).bound() ==> {
                &&& r == Ok::<(), CompilationError>(())
                &&& final(self).bound()
                &&& final(self).cfg() == old(self).cfg()
                &&& counters_same(old(self).store(), final(self).store())
                &&& final(self).queue@ == old(self).queue@.push(0)
                &&& final(self).winners@ == old(self).winners@
                &&& final(self).unscored_nodes@ == old(self).unscored_nodes@
                &&& (old(self).nodes().dom().contains(0) ==> final(self).nodes() == old(
                    self,
                ).nodes())
                &&& (!old(self).nodes().dom().contains(0) ==> {
                    &&& final(self).nodes().dom() == old(self).nodes().dom().insert(0)
                    &&& final(self).nodes()[0].id == 0
                    &&& final(self).nodes()[0].level == 0
                    &&& final(self).nodes()[0].parents@ == Seq::<NodeIndex>::empty()
                    &&& final(self).nodes()[0].children@ == Seq::<NodeIndex>::empty()
                    &&& final(self).nodes()[0].score == 0
                    &&& forall|k: NodeIndex|
                        k != 0 && old(self).nodes().dom().contains(k) ==> final(self).nodes()[k]
                            == old(self).nodes()[k]
                })
            },
    {
        proof {
            if self.compilation is Some {
                self.compilation->Some_0.lemma_root();
            }
        }
        self.create_node(0, 0)?;
        self.queue.push_back(0);
        Ok(())
    }

    /// Creates a node for state `id` at ply `level` in the store; a no-op if
    /// the state was already discovered.
    pub fn create_node(&mut self, id: NodeIndex, level: usize) -> (r: CompilationResult<()>)
        requires
            old(self).wf(),
            old(self).bound() ==> C::valid_id(old(self).cfg(), id) && level == C::id_level(
                old(self).cfg(),
                id,
            ),
        ensures
            final(self).wf(),
            !old(self).bound() ==> {
                &&& r == Err::<(), CompilationError>(CompilationError::NoCompilation)
                &&& !final(self).bound()
                &&& final(self).queue@ == old(self).queue@
                &&& final(self).winners@ == old(self).winners@
                &&& final(self).unscored_nodes@ == old(self).unscored_nodes@
            },
            old(self).bound() ==> {
                &&& r == Ok::<(), CompilationError>(())
                &&& final(self).bound()
                &&& final(self).cfg() == old(self).cfg()
                &&& counters_same(old(self).store(), final(self).store())
                &&& final(self).queue@ == old(self).queue@
                &&& final(self).winners@ == old(self).winners@
                &&& final(self).unscored_nodes@ == old(self).unscored_nodes@
                &&& (old(self).nodes().dom().contains(id) ==> final(self).nodes() == old(
                    self,
                ).nodes())
                &&& (!old(self).nodes().dom().contains(id) ==> {
                    &&& final(self).nodes().dom() == old(self).nodes().dom().insert(id)
                    &&& final(self).nodes()[id].id == id
                    &&& final(self).nodes()[id].level == level
                    &&& final(self).nodes()[id].parents@ == Seq::<NodeIndex>::empty()
                    &&& final(self).nodes()[id].children@ == Seq::<NodeIndex>::empty()
                    &&& final(self).nodes()[id].score == 0
                    &&& forall|k: NodeIndex|
                        k != id && old(self).nodes().dom().contains(k) ==> final(self).nodes()[k]
                            == old(self).nodes()[k]
                })
            },
    {
        let mut c = match self.compilation.take() {
            None => {
                return Err(CompilationError::NoCompilation);
            },
            Some(c) => c,
        };
        let mut n = Node::new();
        n.id = id;
        n.level = level;
        c.insert_node(id, n);
        self.compilation = Some(c);
        proof {
            if !old(self).nodes().dom().contains(id) {
                assert(final(self).nodes().dom() =~= old(self).nodes().dom().insert(id));
            }
        }
        Ok(())
    }

    /// Whether a node for state `id` has been created.
    pub fn is_node(&self, id: &NodeIndex) -> (r: CompilationResult<bool>)
        requires
            self.wf(),
        ensures
            match r {
                Ok(b) => self.bound() && b == self.nodes().dom().contains(*id),
                Err(e) => !self.bound() && e == CompilationError::NoCompilation,
            },
    {
        match &self.compilation {
            None => Err(CompilationError::NoCompilation),
            Some(c) => Ok(c.contains_node(id)),
        }
    }

    /// Reads the node for state `index`.
    pub fn get_node(&self, index: NodeIndex) -> (r: CompilationResult<&Node>)
        requires
            self.wf(),
        ensures
            match r {
                Ok(n) => self.bound() && self.nodes().dom().contains(index) && *n
                    == self.nodes()[index],
                Err(e) => if self.bound() {
                    e == CompilationError::NodeNotFound && !self.nodes().dom().contains(index)
                } else {
                    e == CompilationError::NoCompilation
                },
            },
    {
        match &self.compilation {
            None => Err(CompilationError::NoCompilation),
            Some(c) => match c.get_node(index) {
                None => Err(CompilationError::NodeNotFound),
                Some(n) => Ok(n),
            },
        }
    }

    /// Ordered candidate child states of `id` when `team` moves.
    pub fn get_child_states(&self, id: NodeIndex, team: u8) -> (r: CompilationResult<
        Vec<NodeIndex>,
    >)
        requires
            self.wf(),
            self.bound() ==> C::valid_id(self.cfg(), id) && 1 <= team <= 2,
        ensures
            match r {
                Ok(v) => self.bound() && v@ == C::child_states_of(self.cfg(), id, team),
                Err(e) => !self.bound() && e == CompilationError::NoCompilation,
            },
    {
        match &self.compilation {
            None => Err(CompilationError::NoCompilation),
            Some(c) => Ok(c.get_child_states(id, team)),
        }
    }

    /// Winner verdict for state `index`.
    pub fn get_winner(&self, index: &NodeIndex) -> (r: CompilationResult<u8>)
        requires
            self.wf(),
        ensures
            match r {
                Ok(w) => self.bound() && w == C::winner_of(self.cfg(), *index),
                Err(e) => !self.bound() && e == CompilationError::NoCompilation,
            },
    {
        match &self.compilation {
            None => Err(CompilationError::NoCompilation),
            Some(c) => Ok(c.get_winner(index)),
        }
    }

    /// Number of frontier entries expanded so far.
    pub fn get_nodes_processed(&self) -> (r: CompilationResult<usize>)
        requires
            self.wf(),
        ensures
            match r {
                Ok(n) => self.bound() && n == self.store().processed_count(),
                Err(e) => !self.bound() && e == CompilationError::NoCompilation,
            },
    {
        match &self.compilation {
            None => Err(CompilationError::NoCompilation),
            Some(c) => Ok(c.get_nodes_processed()),
        }
    }

    /// Number of terminal scores assigned so far.
    pub fn get_winners_processed(&self) -> (r: CompilationResult<usize>)
        requires
            self.wf(),
        ensures
            match r {
                Ok(n) => self.bound() && n == self.store().winners_count(),
                Err(e) => !self.bound() && e == CompilationError::NoCompilation,
            },
    {
        match &self.compilation {
            None => Err(CompilationError::NoCompilation),
            Some(c) => Ok(c.get_winners_processed()),
        }
    }

    /// Number of back-propagated scores assigned so far.
    pub fn get_nodes_scored(&self) -> (r: CompilationResult<usize>)
        requires
            self.wf(),
        ensures
            match r {
                Ok(n) => self.bound() && n == self.store().scored_count(),
                Err(e) => !self.bound() && e == CompilationError::NoCompilation,
            },
    {
        match &self.compilation {
            None => Err(CompilationError::NoCompilation),
            Some(c) => Ok(c.get_nodes_scored()),
        }
    }

    /// The bound store.
    pub fn get_compilation(&self) -> (r: CompilationResult<&C>)
        ensures
            match r {
                Ok(c) => self.bound() && *c == self.store(),
                Err(e) => !self.bound() && e == CompilationError::NoCompilation,
            },
    {
        match &self.compilation {
            None => Err(CompilationError::NoCompilation),
            Some(c) => Ok(c),
        }
    }
}

/// The candidates among `cs` that are not stored in `m`, in candidate order:
/// the states a processing step discovers for the first time.
pub open spec fn fresh_children(m: Map<NodeIndex, Node>, cs: Seq<NodeIndex>) -> Seq<NodeIndex>
    decreases cs.len(),
{
    if cs.len() == 0 {
        Seq::empty()
    } else {
        fresh_children(m, cs.drop_last()) + if m.dom().contains(cs.last()) {
            Seq::empty()
        } else {
            seq![cs.last()]
        }
    }
}

/// The newly discovered candidates among `cs` that are winner states, in
/// candidate order.
pub open spec fn fresh_winner_children<C: Compilation>(
    cfg: int,
    m: Map<NodeIndex, Node>,
    cs: Seq<NodeIndex>,
) -> Seq<NodeIndex>
    decreases cs.len(),
{
    if cs.len() == 0 {
        Seq::empty()
    } else {
        fresh_winner_children::<C>(cfg, m, cs.drop_last()) + if !m.dom().contains(cs.last())
            && C::winner_of(cfg, cs.last()) != 0 {
            seq![cs.last()]
        } else {
            Seq::empty()
        }
    }
}

proof fn lemma_take_push<T>(s: Seq<T>, i: int)
    requires
        0 <= i < s.len(),
    ensures
        s.take(i + 1) == s.take(i).push(s[i]),
        s.take(i + 1).drop_last() == s.take(i),
        s.take(i + 1).last() == s[i],
{
    assert(s.take(i + 1) =~= s.take(i).push(s[i]));
    assert(s.take(i + 1).drop_last() =~= s.take(i));
}

/// What one expansion step (stage 1) of a non-winner frontier entry does:
/// the popped state gains all its candidate children, every candidate gains
/// the popped state as a parent, the candidates not seen before are created
/// one level deeper and enqueued (the winners among them also on the winners
/// queue), the popped state is pushed for back-propagation, and everything
/// else is untouched.
pub open spec fn expansion_post<C: Compilation>(pre: Compiler<C>, post: Compiler<C>) -> bool {
    let id = pre.queue@[0];
    let m1 = pre.nodes();
    let m2 = post.nodes();
    let team = (m1[id].level % 2 + 1) as u8;
    let cs = C::child_states_of(pre.cfg(), id, team);
    &&& post.bound()
    &&& post.cfg() == pre.cfg()
    &&& m2.dom() == m1.dom().union(cs.to_set())
    &&& node_same_but_children(m2[id], m1[id])
    &&& m2[id].children@ == m1[id].children@ + cs
    &&& forall|j: int|
        0 <= j < cs.len() && m1.dom().contains(#[trigger] cs[j]) ==> {
            &&& node_same_but_parents(m2[cs[j]], m1[cs[j]])
            &&& m2[cs[j]].parents@ == m1[cs[j]].parents@.push(id)
        }
    &&& forall|j: int|
        0 <= j < cs.len() && !m1.dom().contains(#[trigger] cs[j]) ==> {
            &&& m2[cs[j]].id == cs[j]
            &&& m2[cs[j]].level == m1[id].level + 1
            &&& m2[cs[j]].parents@ == seq![id]
            &&& m2[cs[j]].children@ == Seq::<NodeIndex>::empty()
            &&& m2[cs[j]].score == 0
        }
    &&& forall|k: NodeIndex|
        m1.dom().contains(k) && k != id && !cs.contains(k) ==> #[trigger] m2[k] == m1[k]
    &&& post.queue@ == pre.queue@.subrange(1, pre.queue@.len() as int) + fresh_children(m1, cs)
    &&& post.winners@ == pre.winners@ + fresh_winner_children::<C>(pre.cfg(), m1, cs)
    &&& post.unscored_nodes@ == pre.unscored_nodes@.push(id)
    &&& post.store().processed_count() == pre.store().processed_count() + 1
    &&& post.store().winners_count() == pre.store().winners_count()
    &&& post.store().scored_count() == pre.store().scored_count()
}

impl<C: Compilation> Compiler<C> {
    /// Stage 1: pops one frontier entry and expands it.  A winner state is
    /// not expanded (its score comes from stage 2); any other state has its
    /// candidate children generated and wired up, and is pushed onto the
    /// back-propagation stack.
    pub fn process(&mut self) -> (r: CompilationResult<()>)
        requires
            old(self).wf(),
            old(self).bound() ==> old(self).store().processed_count() < usize::MAX,
        ensures
            final(self).wf(),
            old(self).queue@.len() == 0 ==> {
                &&& r == Err::<(), CompilationError>(CompilationError::QueueEmpty)
                &&& final(self).queue@ == old(self).queue@
                &&& final(self).winners@ == old(self).winners@
                &&& final(self).unscored_nodes@ == old(self).unscored_nodes@
                &&& final(self).compilation == old(self).compilation
            },
            old(self).queue@.len() > 0 && !old(self).bound() ==> {
                &&& r == Err::<(), CompilationError>(CompilationError::NoCompilation)
                &&& final(self).queue@ == old(self).queue@.subrange(
                    1,
                    old(self).queue@.len() as int,
                )
                &&& final(self).winners@ == old(self).winners@
                &&& final(self).unscored_nodes@ == old(self).unscored_nodes@
                &&& !final(self).bound()
            },
            old(self).queue@.len() > 0 && old(self).bound() ==> {
                &&& r == Ok::<(), CompilationError>(())
                &&& (C::winner_of(old(self).cfg(), old(self).queue@[0]) != 0 ==> {
                    &&& final(self).bound()
                    &&& final(self).cfg() == old(self).cfg()
                    &&& final(self).nodes() == old(self).nodes()
                    &&& final(self).queue@ == old(self).queue@.subrange(
                        1,
                        old(self).queue@.len() as int,
                    )
                    &&& final(self).winners@ == old(self).winners@
                    &&& final(self).unscored_nodes@ == old(self).unscored_nodes@
                    &&& final(self).store().processed_count() == old(
                        self,
                    ).store().processed_count() + 1
                    &&& final(self).store().winners_count() == old(self).store().winners_count()
                    &&& final(self).store().scored_count() == old(self).store().scored_count()
                })
                &&& (C::winner_of(old(self).cfg(), old(self).queue@[0]) == 0 ==> expansion_post(
                    *old(self),
                    *final(self),
                ))
            },
    {
        if self.queue.len() == 0 {
            return Err(CompilationError::QueueEmpty);
        }
        let node_id = match self.queue.pop_front() {
            None => {
                return Err(CompilationError::QueueEmpty);
            },
            Some(x) => x,
        };
        let mut c = match self.compilation.take() {
            None => {
                return Err(CompilationError::NoCompilation);
            },
            Some(c) => c,
        };
        let ghost cfg = c.cfg();
        let ghost m1 = c.node_map();
        let node_level = c.get_node(node_id).unwrap().level;
        let team: u8 = (node_level % 2) as u8 + 1;
        c.inc_nodes_processed();
        if c.get_winner(&node_id) != 0 {
            self.compilation = Some(c);
            return Ok(());
        }
        self.unscored_nodes.push(node_id);
        proof {
            C::lemma_child_states(cfg, node_id, team);
        }
        let states = c.get_child_states(node_id, team);
        let ghost cs = states@;
        let ghost q1 = self.queue@;
        let ghost w1 = self.winners@;
        let ghost u1 = self.unscored_nodes@;
        let mut i: usize = 0;
        while i < states.len()
            invariant
                0 <= i <= cs.len(),
                states@ == cs,
                old(self).wf(),
                old(self).bound(),
                old(self).queue@.len() > 0,
                node_id == old(self).queue@[0],
                cfg == old(self).cfg(),
                m1 == old(self).nodes(),
                m1.dom().contains(node_id),
                node_level == m1[node_id].level,
                team == (m1[node_id].level % 2 + 1) as u8,
                C::valid_id(cfg, node_id),
                C::winner_of(cfg, node_id) == 0,
                cs == C::child_states_of(cfg, node_id, team),
                c.inv(),
                c.cfg() == cfg,
                c.processed_count() == old(self).store().processed_count() + 1,
                c.winners_count() == old(self).store().winners_count(),
                c.scored_count() == old(self).store().scored_count(),
                c.node_map().dom() == m1.dom().union(cs.take(i as int).to_set()),
                node_same_but_children(c.node_map()[node_id], m1[node_id]),
                c.node_map()[node_id].children@ == m1[node_id].children@ + cs.take(i as int),
                forall|j: int|
                    0 <= j < i && m1.dom().contains(#[trigger] cs[j]) ==> {
                        &&& node_same_but_parents(c.node_map()[cs[j]], m1[cs[j]])
                        &&& c.node_map()[cs[j]].parents@ == m1[cs[j]].parents@.push(node_id)
                    },
                forall|j: int|
                    0 <= j < i && !m1.dom().contains(#[trigger] cs[j]) ==> {
                        &&& c.node_map()[cs[j]].id == cs[j]
                        &&& c.node_map()[cs[j]].level == m1[node_id].level + 1
                        &&& c.node_map()[cs[j]].parents@ == seq![node_id]
                        &&& c.node_map()[cs[j]].children@ == Seq::<NodeIndex>::empty()
                        &&& c.node_map()[cs[j]].score == 0
                    },
                forall|k: NodeIndex|
                    m1.dom().contains(k) && k != node_id && !cs.take(i as int).contains(k)
                        ==> #[trigger] c.node_map()[k] == m1[k],
                self.queue@ == q1 + fresh_children(m1, cs.take(i as int)),
                self.winners@ == w1 + fresh_winner_children::<C>(cfg, m1, cs.take(i as int)),
                self.unscored_nodes@ == u1,
                q1 == old(self).queue@.subrange(1, old(self).queue@.len() as int),
                w1 == old(self).winners@,
                u1 == old(self).unscored_nodes@.push(node_id),
                forall|j: int|
                    0 <= j < self.queue@.len() ==> c.node_map().dom().contains(
                        #[trigger] self.queue@[j],
                    ),
                forall|j: int|
                    0 <= j < self.winners@.len() ==> c.node_map().dom().contains(
                        #[trigger] self.winners@[j],
                    ),
                forall|j: int|
                    0 <= j < self.unscored_nodes@.len() ==> c.node_map().dom().contains(
                        #[trigger] self.unscored_nodes@[j],
                    ),
            decreases cs.len() - i,
        {
            proof {
                C::lemma_child_states(cfg, node_id, team);
                lemma_take_push(cs, i as int);
                if cs.take(i as int).contains(cs[i as int]) {
                    let j = choose|j: int|
                        0 <= j < i && cs.take(i as int)[j] == cs[i as int];
                    assert(cs[j] == cs[i as int]);
                }
                assert(!cs.take(i as int).contains(cs[i as int]));
            }
            let s = states[i];
            let is_new = !c.contains_node(&s);
            if is_new {
                let mut n = Node::new();
                n.id = s;
                n.level = node_level + 1;
                c.insert_node(s, n);
                self.queue.push_back(s);
                if c.get_winner(&s) != 0 {
                    self.winners.push_back(s);
                }
            }
            c.append_parent(s, node_id);
            c.append_child(node_id, s);
            proof {
                let i1 = i as int + 1;
                assert(c.node_map().dom() =~= m1.dom().union(cs.take(i1).to_set()));
                assert forall|j: int|
                    0 <= j < i1 && !m1.dom().contains(#[trigger] cs[j]) implies {
                    &&& c.node_map()[cs[j]].id == cs[j]
                    &&& c.node_map()[cs[j]].level == m1[node_id].level + 1
                    &&& c.node_map()[cs[j]].parents@ == seq![node_id]
                    &&& c.node_map()[cs[j]].children@ == Seq::<NodeIndex>::empty()
                    &&& c.node_map()[cs[j]].score == 0
                } by {
                    assert(cs[j] != node_id);
                    if j < i as int {
                        assert(cs[j] != cs[i as int]);
                    } else {
                        assert(Seq::<NodeIndex>::empty().push(node_id) =~= seq![node_id]);
                    }
                }
                assert forall|j: int|
                    0 <= j < i1 && m1.dom().contains(#[trigger] cs[j]) implies {
                    &&& node_same_but_parents(c.node_map()[cs[j]], m1[cs[j]])
                    &&& c.node_map()[cs[j]].parents@ == m1[cs[j]].parents@.push(node_id)
                } by {
                    assert(cs[j] != node_id);
                    if j < i as int {
                        assert(cs[j] != cs[i as int]);
                    }
                }
                assert forall|k: NodeIndex|
                    m1.dom().contains(k) && k != node_id && !cs.take(i1).contains(k)
                        implies #[trigger] c.node_map()[k] == m1[k] by {
                    assert(!cs.take(i as int).contains(k));
                    assert(cs.take(i1)[i as int] == cs[i as int]);
                    assert(k != cs[i as int]);
                }
                assert(c.node_map()[node_id].children@ == m1[node_id].children@ + cs.take(i1)) by {
                    assert((m1[node_id].children@ + cs.take(i as int)).push(cs[i as int])
                        =~= m1[node_id].children@ + cs.take(i1));
                }
                if is_new {
                    assert(self.queue@ == q1 + fresh_children(m1, cs.take(i1))) by {
                        assert((q1 + fresh_children(m1, cs.take(i as int))).push(cs[i as int])
                            =~= q1 + fresh_children(m1, cs.take(i1)));
                    }
                    if C::winner_of(cfg, cs[i as int]) != 0 {
                        assert((w1 + fresh_winner_children::<C>(cfg, m1, cs.take(i as int))).push(
                            cs[i as int],
                        ) =~= w1 + fresh_winner_children::<C>(cfg, m1, cs.take(i1)));
                    } else {
                        assert(fresh_winner_children::<C>(cfg, m1, cs.take(i1))
                            =~= fresh_winner_children::<C>(cfg, m1, cs.take(i as int)));
                        assert(self.winners@ == w1 + fresh_winner_children::<C>(
                            cfg,
                            m1,
                            cs.take(i1),
                        ));
                    }
                } else {
                    assert(fresh_children(m1, cs.take(i1)) =~= fresh_children(
                        m1,
                        cs.take(i as int),
                    ));
                    assert(fresh_winner_children::<C>(cfg, m1, cs.take(i1))
                        =~= fresh_winner_children::<C>(cfg, m1, cs.take(i as int)));
                }
            }
            i = i + 1;
        }
        self.compilation = Some(c);
        proof {
            C::lemma_child_states(cfg, node_id, team);
            assert(cs.take(cs.len() as int) =~= cs);
            let m2 = final(self).nodes();
            assert forall|k: NodeIndex| #[trigger]
                m2.dom().contains(k) implies final(self).node_ok(k) by {
                if k == node_id {
                    assert(old(self).node_ok(k));
                    assert forall|j: int|
                        0 <= j < m2[k].children@.len() implies m2.dom().contains(
                        #[trigger] m2[k].children@[j],
                    ) by {
                        if j < m1[node_id].children@.len() {
                            assert(m1.dom().contains(m1[node_id].children@[j]));
                        } else {
                            assert(m2[k].children@[j] == cs[j - m1[node_id].children@.len()]);
                            assert(cs.to_set().contains(cs[j - m1[node_id].children@.len()]));
                        }
                    }
                } else if cs.contains(k) {
                    let j = choose|j: int| 0 <= j < cs.len() && cs[j] == k;
                    assert(cs.to_set().contains(cs[j]));
                    if m1.dom().contains(k) {
                        assert(old(self).node_ok(k));
                    } else {
                        assert(C::valid_id(cfg, k) && C::id_level(cfg, k) == C::id_level(
                            cfg,
                            node_id,
                        ) + 1);
                    }
                } else {
                    assert(m1.dom().contains(k));
                    assert(old(self).node_ok(k));
                    assert(m2[k] == m1[k]);
                }
            }
        }
        Ok(())
    }
}

/// Maximum of a sequence of scores (0 for the empty sequence).
pub open spec fn seq_max(s: Seq<i8>) -> i8
    decreases s.len(),
{
    if s.len() == 0 {
        0
    } else if s.len() == 1 {
        s[0]
    } else {
        let m = seq_max(s.drop_last());
        if s.last() > m {
            s.last()
        } else {
            m
        }
    }
}

/// Minimum of a sequence of scores (0 for the empty sequence).
pub open spec fn seq_min(s: Seq<i8>) -> i8
    decreases s.len(),
{
    if s.len() == 0 {
        0
    } else if s.len() == 1 {
        s[0]
    } else {
        let m = seq_min(s.drop_last());
        if s.last() < m {
            s.last()
        } else {
            m
        }
    }
}

/// The maximum of a non-empty sequence is one of its entries and bounds
/// them all.
pub proof fn lemma_seq_max_properties(s: Seq<i8>)
    requires
        s.len() > 0,
    ensures
        s.contains(seq_max(s)),
        forall|j: int| 0 <= j < s.len() ==> s[j] <= seq_max(s),
    decreases s.len(),
{
    if s.len() > 1 {
        lemma_seq_max_properties(s.drop_last());
        assert forall|j: int| 0 <= j < s.len() implies s[j] <= seq_max(s) by {
            if j < s.len() - 1 {
                assert(s.drop_last()[j] == s[j]);
            }
        }
        if seq_max(s) != s.last() {
            let j = choose|j: int|
                0 <= j < s.drop_last().len() && s.drop_last()[j] == seq_max(s.drop_last());
            assert(s[j] == seq_max(s));
        }
    } else {
        assert(s[0] == seq_max(s));
    }
}

/// The minimum of a non-empty sequence is one of its entries and bounds
/// them all.
pub proof fn lemma_seq_min_properties(s: Seq<i8>)
    requires
        s.len() > 0,
    ensures
        s.contains(seq_min(s)),
        forall|j: int| 0 <= j < s.len() ==> s[j] >= seq_min(s),
    decreases s.len(),
{
    if s.len() > 1 {
        lemma_seq_min_properties(s.drop_last());
        assert forall|j: int| 0 <= j < s.len() implies s[j] >= seq_min(s) by {
            if j < s.len() - 1 {
                assert(s.drop_last()[j] == s[j]);
            }
        }
        if seq_min(s) != s.last() {
            let j = choose|j: int|
                0 <= j < s.drop_last().len() && s.drop_last()[j] == seq_min(s.drop_last());
            assert(s[j] == seq_min(s));
        }
    } else {
        assert(s[0] == seq_min(s));
    }
}

/// The scores of the children of the node stored under `id`, in child order.
pub open spec fn child_scores(m: Map<NodeIndex, Node>, id: NodeIndex) -> Seq<i8> {
    m[id].children@.map_values(|c: NodeIndex| m[c].score)
}

/// The back-propagated score of the node stored under `id`: the maximum of
/// its children's scores when team A moved into them (even level), the
/// minimum when team B did (odd level), and 0 for a node with no children
/// (a drawn, full board).
pub open spec fn backprop_score(m: Map<NodeIndex, Node>, id: NodeIndex) -> i8 {
    let s = child_scores(m, id);
    if s.len() == 0 {
        0
    } else if m[id].level % 2 == 0 {
        seq_max(s)
    } else {
        seq_min(s)
    }
}

impl<C: Compilation> Compiler<C> {
    /// Stage 2: pops one winners-queue entry, re-derives its winner and
    /// assigns the terminal score: +100 for team A, -100 otherwise.
    pub fn post_process(&mut self) -> (r: CompilationResult<()>)
        requires
            old(self).wf(),
            old(self).bound() ==> old(self).store().winners_count() < usize::MAX,
        ensures
            final(self).wf(),
            old(self).winners@.len() == 0 ==> {
                &&& r == Err::<(), CompilationError>(CompilationError::QueueEmpty)
                &&& final(self).queue@ == old(self).queue@
                &&& final(self).winners@ == old(self).winners@
                &&& final(self).unscored_nodes@ == old(self).unscored_nodes@
                &&& final(self).compilation == old(self).compilation
            },
            old(self).winners@.len() > 0 && !old(self).bound() ==> {
                &&& r == Err::<(), CompilationError>(CompilationError::NoCompilation)
                &&& final(self).winners@ == old(self).winners@.subrange(
                    1,
                    old(self).winners@.len() as int,
                )
                &&& final(self).queue@ == old(self).queue@
                &&& final(self).unscored_nodes@ == old(self).unscored_nodes@
                &&& !final(self).bound()
            },
            old(self).winners@.len() > 0 && old(self).bound() ==> {
                let id = old(self).winners@[0];
                let sc: i8 = if C::winner_of(old(self).cfg(), id) == 1 {
                    100i8
                } else {
                    -100i8
                };
                &&& r == Ok::<(), CompilationError>(())
                &&& final(self).bound()
                &&& final(self).cfg() == old(self).cfg()
                &&& final(self).winners@ == old(self).winners@.subrange(
                    1,
                    old(self).winners@.len() as int,
                )
                &&& final(self).queue@ == old(self).queue@
                &&& final(self).unscored_nodes@ == old(self).unscored_nodes@
                &&& final(self).nodes().dom() == old(self).nodes().dom()
                &&& forall|k: NodeIndex|
                    k != id && old(self).nodes().dom().contains(k) ==> final(self).nodes()[k]
                        == old(self).nodes()[k]
                &&& node_same_but_score(final(self).nodes()[id], old(self).nodes()[id])
                &&& final(self).nodes()[id].score == sc
                &&& final(self).store().winners_count() == old(self).store().winners_count() + 1
                &&& final(self).store().processed_count() == old(self).store().processed_count()
                &&& final(self).store().scored_count() == old(self).store().scored_count()
            },
    {
        if self.winners.len() == 0 {
            return Err(CompilationError::QueueEmpty);
        }
        let node_id = match self.winners.pop_front() {
            None => {
                return Err(CompilationError::QueueEmpty);
            },
            Some(x) => x,
        };
        let mut c = match self.compilation.take() {
            None => {
                return Err(CompilationError::NoCompilation);
            },
            Some(c) => c,
        };
        let w = c.get_winner(&node_id);
        let score: i8 = if w == 1 {
            100
        } else {
            -100
        };
        c.set_score(node_id, score);
        c.inc_winners_processed();
        self.compilation = Some(c);
        Ok(())
    }

    /// Stage 3: pops one back-propagation stack entry and scores it from its
    /// children: maximum of their scores at even level, minimum at odd
    /// level, 0 when there are no children.  Correct only once every child
    /// already carries its final score; the staged driving order (stage 1 to
    /// exhaustion, then stage 2, then stage 3) guarantees that.
    #[verifier::rlimit(30)]
    pub fn score_nodes(&mut self) -> (r: CompilationResult<()>)
        requires
            old(self).wf(),
            old(self).bound() ==> old(self).store().scored_count() < usize::MAX,
        ensures
            final(self).wf(),
            old(self).unscored_nodes@.len() == 0 ==> {
                &&& r == Err::<(), CompilationError>(CompilationError::QueueEmpty)
                &&& final(self).queue@ == old(self).queue@
                &&& final(self).winners@ == old(self).winners@
                &&& final(self).unscored_nodes@ == old(self).unscored_nodes@
                &&& final(self).compilation == old(self).compilation
            },
            old(self).unscored_nodes@.len() > 0 && !old(self).bound() ==> {
                &&& r == Err::<(), CompilationError>(CompilationError::NoCompilation)
                &&& final(self).unscored_nodes@ == old(self).unscored_nodes@.drop_last()
                &&& final(self).queue@ == old(self).queue@
                &&& final(self).winners@ == old(self).winners@
                &&& !final(self).bound()
            },
            old(self).unscored_nodes@.len() > 0 && old(self).bound() ==> {
                let id = old(self).unscored_nodes@.last();
                &&& r == Ok::<(), CompilationError>(())
                &&& final(self).bound()
                &&& final(self).cfg() == old(self).cfg()
                &&& final(self).unscored_nodes@ == old(self).unscored_nodes@.drop_last()
                &&& final(self).queue@ == old(self).queue@
                &&& final(self).winners@ == old(self).winners@
                &&& final(self).nodes().dom() == old(self).nodes().dom()
                &&& forall|k: NodeIndex|
                    k != id && old(self).nodes().dom().contains(k) ==> final(self).nodes()[k]
                        == old(self).nodes()[k]
                &&& node_same_but_score(final(self).nodes()[id], old(self).nodes()[id])
                &&& final(self).nodes()[id].score == backprop_score(old(self).nodes(), id)
                &&& final(self).store().scored_count() == old(self).store().scored_count() + 1
                &&& final(self).store().processed_count() == old(self).store().processed_count()
                &&& final(self).store().winners_count() == old(self).store().winners_count()
            },
    {
        if self.unscored_nodes.len() == 0 {
            return Err(CompilationError::QueueEmpty);
        }
        let node_id = match self.unscored_nodes.pop() {
            None => {
                return Err(CompilationError::QueueEmpty);
            },
            Some(x) => x,
        };
        let mut c = match self.compilation.take() {
            None => {
                return Err(CompilationError::NoCompilation);
            },
            Some(c) => c,
        };
        let ghost m1 = c.node_map();
        let n = c.get_node(node_id).unwrap();
        let level = n.level;
        let mut children: Vec<NodeIndex> = Vec::new();
        let mut i: usize = 0;
        while i < n.children.len()
            invariant
                0 <= i <= n.children@.len(),
                children@ == n.children@.take(i as int),
            decreases n.children@.len() - i,
        {
            children.push(n.children[i]);
            proof {
                lemma_take_push(n.children@, i as int);
            }
            i = i + 1;
        }
        proof {
            assert(children@ =~= m1[node_id].children@);
        }
        let mut scores: Vec<i8> = Vec::new();
        let mut i: usize = 0;
        while i < children.len()
            invariant
                0 <= i <= children@.len(),
                children@ == m1[node_id].children@,
                m1 == c.node_map(),
                c.inv(),
                m1.dom().contains(node_id),
                forall|j: int|
                    0 <= j < m1[node_id].children@.len() ==> m1.dom().contains(
                        #[trigger] m1[node_id].children@[j],
                    ),
                scores@.len() == i,
                forall|j: int| 0 <= j < i ==> scores@[j] == m1[#[trigger] children@[j]].score,
            decreases children@.len() - i,
        {
            let ch = children[i];
            let sc = c.get_node(ch).unwrap().score;
            scores.push(sc);
            i = i + 1;
        }
        proof {
            assert(scores@ =~= child_scores(m1, node_id));
        }
        let score: i8;
        if scores.len() == 0 {
            score = 0;
        } else {
            let mut best = scores[0];
            let mut k: usize = 1;
            if level % 2 == 0 {
                while k < scores.len()
                    invariant
                        1 <= k <= scores@.len(),
                        best == seq_max(scores@.take(k as int)),
                    decreases scores@.len() - k,
                {
                    proof {
                        lemma_take_push(scores@, k as int);
                    }
                    if scores[k] > best {
                        best = scores[k];
                    }
                    k = k + 1;
                }
            } else {
                while k < scores.len()
                    invariant
                        1 <= k <= scores@.len(),
                        best == seq_min(scores@.take(k as int)),
                    decreases scores@.len() - k,
                {
                    proof {
                        lemma_take_push(scores@, k as int);
                    }
                    if scores[k] < best {
                        best = scores[k];
                    }
                    k = k + 1;
                }
            }
            proof {
                assert(scores@.take(scores@.len() as int) =~= scores@);
            }
            score = best;
        }
        proof {
            if child_scores(m1, node_id).len() > 0 {
                lemma_seq_max_properties(child_scores(m1, node_id));
                lemma_seq_min_properties(child_scores(m1, node_id));
                if score == seq_max(child_scores(m1, node_id)) || score == seq_min(
                    child_scores(m1, node_id),
                ) {
                    let j = choose|j: int|
                        0 <= j < child_scores(m1, node_id).len() && child_scores(m1, node_id)[j]
                            == score;
                    assert(m1.dom().contains(m1[node_id].children@[j]));
                }
            }
        }
        c.set_score(node_id, score);
        c.inc_nodes_scored();
        self.compilation = Some(c);
        Ok(())
    }
}

/// The decimal digit characters of `n`, most significant first.
pub open spec fn dec_digit_char(d: int) -> char {
    if d == 0 {
        '0'
    } else if d == 1 {
        '1'
    } else if d == 2 {
        '2'
    } else if d == 3 {
        '3'
    } else if d == 4 {
        '4'
    } else if d == 5 {
        '5'
    } else if d == 6 {
        '6'
    } else if d == 7 {
        '7'
    } else if d == 8 {
        '8'
    } else {
        '9'
    }
}

/// The decimal representation of `n`, without leading zeros (a single `'0'`
/// for 0).
pub open spec fn dec_str(n: int) -> Seq<char>
    decreases n,
{
    if n < 10 {
        seq![dec_digit_char(n)]
    } else {
        dec_str(n / 10).push(dec_digit_char(n % 10))
    }
}

fn digit_str(d: u128) -> (s: &'static str)
    requires
        d < 10,
    ensures
        s@ == seq![dec_digit_char(d as int)],
{
    proof {
        reveal_strlit("0");
        reveal_strlit("1");
        reveal_strlit("2");
        reveal_strlit("3");
        reveal_strlit("4");
        reveal_strlit("5");
        reveal_strlit("6");
        reveal_strlit("7");
        reveal_strlit("8");
        reveal_strlit("9");
    }
    let s = match d {
        0 => "0",
        1 => "1",
        2 => "2",
        3 => "3",
        4 => "4",
        5 => "5",
        6 => "6",
        7 => "7",
        8 => "8",
        _ => "9",
    };
    proof {
        assert(s@ =~= seq![dec_digit_char(d as int)]);
    }
    s
}

/// Renders a state identifier as its decimal string, for the export
/// boundary (consumers that cannot hold very wide integers losslessly).
pub fn u128_to_string(n: u128) -> (s: String)
    ensures
        s@ == dec_str(n as int),
    decreases n,
{
    if n < 10 {
        let s = digit_str(n).to_owned();
        s
    } else {
        let mut s = u128_to_string(n / 10);
        s.append(digit_str(n % 10));
        proof {
            assert(s@ =~= dec_str(n as int));
        }
        s
    }
}

/// Whether the loaded graph can answer a move request for `id`: the node is
/// present, it has at least one child, and every child is present.
pub open spec fn move_available(m: Map<NodeIndex, Node>, id: NodeIndex) -> bool {
    &&& m.dom().contains(id)
    &&& m[id].children@.len() > 0
    &&& forall|j: int|
        0 <= j < m[id].children@.len() ==> m.dom().contains(#[trigger] m[id].children@[j])
}

/// The stable greedy scan of `ch` from position `i` with current best
/// `cur`: team A (1) replaces the best on a strictly greater score, team B
/// (2) on a strictly smaller one, so ties keep the first candidate seen.
pub open spec fn best_child_from(
    m: Map<NodeIndex, Node>,
    ch: Seq<NodeIndex>,
    team: u8,
    i: int,
    cur: NodeIndex,
) -> NodeIndex
    decreases ch.len() - i,
{
    if i < 0 || i >= ch.len() {
        cur
    } else {
        let cand = ch[i];
        let better = if team == 1 {
            m[cur].score < m[cand].score
        } else if team == 2 {
            m[cur].score > m[cand].score
        } else {
            false
        };
        best_child_from(m, ch, team, i + 1, if better {
            cand
        } else {
            cur
        })
    }
}

/// Plays from a completed, exported graph by greedy lookup of the best
/// child by score.
pub struct AI {
    nodes: NodeMap,
}

impl AI {
    /// The loaded node map.
    pub closed spec fn node_map(&self) -> Map<NodeIndex, Node> {
        self.nodes@
    }

    /// An empty consumer; load a graph before asking for moves.
    pub fn new() -> (a: AI)
        ensures
            a.node_map() == Map::<NodeIndex, Node>::empty(),
    {
        AI { nodes: HashMap::new() }
    }

    /// Replaces the loaded graph.
    pub fn load(&mut self, n: NodeMap)
        ensures
            final(self).node_map() == n@,
    {
        self.nodes = n;
    }

    /// Reads the loaded node for state `id`.
    pub fn get_node(&self, id: &NodeIndex) -> (r: Option<&Node>)
        ensures
            match r {
                Some(n) => self.node_map().dom().contains(*id) && *n == self.node_map()[*id],
                None => !self.node_map().dom().contains(*id),
            },
    {
        self.nodes.get(id)
    }

    /// The best move for `team` from state `id`: the child with the maximal
    /// score for team A (1), the minimal for team B (2), ties broken by the
    /// first candidate encountered.  `None` when the node or any of its
    /// children is missing from the loaded graph, or when the node has no
    /// children (a terminal state).
    pub fn get_move(&self, id: NodeIndex, team: u8) -> (r: Option<NodeIndex>)
        ensures
            match r {
                Some(b) => {
                    let m = self.node_map();
                    let ch = m[id].children@;
                    &&& move_available(m, id)
                    &&& b == best_child_from(m, ch, team, 0, ch[0])
                    &&& ch.contains(b)
                    &&& (team == 1 ==> forall|j: int|
                        0 <= j < ch.len() ==> m[#[trigger] ch[j]].score <= m[b].score)
                    &&& (team == 2 ==> forall|j: int|
                        0 <= j < ch.len() ==> m[#[trigger] ch[j]].score >= m[b].score)
                },
                None => !move_available(self.node_map(), id),
            },
    {
        let ghost m = self.node_map();
        let node = match self.nodes.get(&id) {
            None => {
                return None;
            },
            Some(n) => n,
        };
        if node.children.len() == 0 {
            return None;
        }
        let ghost ch = node.children@;
        let mut best = node.children[0];
        let mut i: usize = 0;
        while i < node.children.len()
            invariant
                0 <= i <= ch.len(),
                ch.len() > 0,
                ch == node.children@,
                node == m[id],
                m == self.node_map(),
                m.dom().contains(id),
                ch.contains(best),
                best_child_from(m, ch, team, 0, ch[0]) == best_child_from(
                    m,
                    ch,
                    team,
                    i as int,
                    best,
                ),
                forall|j: int| 0 <= j < i ==> m.dom().contains(#[trigger] ch[j]),
                team == 1 ==> forall|j: int|
                    0 <= j < i ==> m[#[trigger] ch[j]].score <= m[best].score,
                team == 2 ==> forall|j: int|
                    0 <= j < i ==> m[#[trigger] ch[j]].score >= m[best].score,
            decreases ch.len() - i,
        {
            let cand = node.children[i];
            let cand_score = match self.nodes.get(&cand) {
                None => {
                    return None;
                },
                Some(n) => n.score,
            };
            let best_score = match self.nodes.get(&best) {
                None => {
                    return None;
                },
                Some(n) => n.score,
            };
            if team == 1 && best_score < cand_score {
                best = cand;
            } else if team == 2 && best_score > cand_score {
                best = cand;
            }
            i = i + 1;
        }
        Some(best)
    }

    /// The score of state `id` in the loaded graph.
    pub fn get_score(&self, id: &NodeIndex) -> (r: Option<i8>)
        ensures
            match r {
                Some(sc) => self.node_map().dom().contains(*id) && sc == self.node_map()[*id].score,
                None => !self.node_map().dom().contains(*id),
            },
    {
        match self.nodes.get(id) {
            None => None,
            Some(n) => Some(n.score),
        }
    }
}


/// The exported map `m` carries exactly the nodes stored under `ids`: every
/// identifier appears under its decimal string, mapped to its node's
/// content, and nothing else appears.
pub open spec fn export_content(
    ids: Seq<NodeIndex>,
    nodes: Map<NodeIndex, Node>,
    m: Map<String, Node>,
) -> bool {
    &&& forall|j: int|
        0 <= j < ids.len() ==> exists|k: String|
            {
                &&& k@ == dec_str((#[trigger] ids[j]) as int)
                &&& #[trigger] m.dom().contains(k)
                &&& node_matches(m[k], nodes[ids[j]])
            }
    &&& forall|k: String|
        #[trigger] m.dom().contains(k) ==> exists|j: int|
            0 <= j < ids.len() && k@ == dec_str((#[trigger] ids[j]) as int)
}

/// The map built from the entries `ents[n..]`, inserted from the last entry
/// down to entry `n`.
pub open spec fn map_of_suffix(ents: Seq<(String, Node)>, n: int) -> Map<String, Node>
    decreases ents.len() - n,
{
    if !(0 <= n < ents.len()) {
        Map::empty()
    } else {
        map_of_suffix(ents, n + 1).insert(ents[n].0, ents[n].1)
    }
}

/// The map built from entries whose keys render the identifiers `ids[n..]`
/// and whose nodes match the stored ones carries exactly those nodes.
proof fn lemma_map_of_suffix_content(
    ents: Seq<(String, Node)>,
    ids: Seq<NodeIndex>,
    nodes: Map<NodeIndex, Node>,
    n: int,
)
    requires
        0 <= n <= ents.len(),
        ents.len() == ids.len(),
        forall|j: int|
            0 <= j < ents.len() ==> (#[trigger] ents[j]).0@ == dec_str(ids[j] as int)
                && node_matches(ents[j].1, nodes[ids[j]]),
    ensures
        forall|j: int|
            n <= j < ids.len() ==> exists|k: String|
                {
                    &&& k@ == dec_str((#[trigger] ids[j]) as int)
                    &&& #[trigger] map_of_suffix(ents, n).dom().contains(k)
                    &&& node_matches(map_of_suffix(ents, n)[k], nodes[ids[j]])
                },
        forall|k: String|
            #[trigger] map_of_suffix(ents, n).dom().contains(k) ==> exists|j: int|
                n <= j < ids.len() && k@ == dec_str((#[trigger] ids[j]) as int),
    decreases ents.len() - n,
{
    if n < ents.len() {
        lemma_map_of_suffix_content(ents, ids, nodes, n + 1);
        let m1 = map_of_suffix(ents, n + 1);
        let m2 = map_of_suffix(ents, n);
        let key = ents[n].0;
        let node = ents[n].1;
        assert(m2 == m1.insert(key, node));
        assert forall|j: int| n <= j < ids.len() implies exists|k: String|
            {
                &&& k@ == dec_str((#[trigger] ids[j]) as int)
                &&& #[trigger] m2.dom().contains(k)
                &&& node_matches(m2[k], nodes[ids[j]])
            } by {
            if j == n {
                assert(key@ == dec_str(ids[j] as int) && m2.dom().contains(key) && node_matches(
                    m2[key],
                    nodes[ids[j]],
                ));
            } else {
                let k0 = choose|k0: String|
                    {
                        &&& k0@ == dec_str((#[trigger] ids[j]) as int)
                        &&& #[trigger] m1.dom().contains(k0)
                        &&& node_matches(m1[k0], nodes[ids[j]])
                    };
                if k0 == key {
                    lemma_dec_str_injective(ids[j] as int, ids[n] as int);
                    assert(key@ == dec_str(ids[j] as int) && m2.dom().contains(key)
                        && node_matches(m2[key], nodes[ids[j]]));
                } else {
                    assert(k0@ == dec_str(ids[j] as int) && m2.dom().contains(k0)
                        && node_matches(m2[k0], nodes[ids[j]]));
                }
            }
        }
        assert forall|k: String| #[trigger] m2.dom().contains(k) implies exists|j: int|
            n <= j < ids.len() && k@ == dec_str((#[trigger] ids[j]) as int) by {
            if k == key {
                assert(n <= n < ids.len() && k@ == dec_str((ids[n]) as int));
            } else {
                assert(m1.dom().contains(k));
                let j0 = choose|j0: int|
                    n + 1 <= j0 < ids.len() && k@ == dec_str((#[trigger] ids[j0]) as int);
                assert(n <= j0 < ids.len() && k@ == dec_str((ids[j0]) as int));
            }
        }
    }
}

impl<C: Compilation> Compiler<C> {
    /// The exported content as ordered pairs: for each stored node, in
    /// insertion order, the decimal string of its identifier and a copy of
    /// the node's content.
    pub fn export_entries(&self) -> (r: CompilationResult<Vec<(String, Node)>>)
        requires
            self.wf(),
        ensures
            match r {
                Ok(v) => {
                    &&& self.bound()
                    &&& v@.len() == self.store().id_list().len()
                    &&& forall|j: int|
                        0 <= j < v@.len() ==> {
                            &&& (#[trigger] v@[j]).0@ == dec_str(
                                self.store().id_list()[j] as int,
                            )
                            &&& self.nodes().dom().contains(self.store().id_list()[j])
                            &&& node_matches(v@[j].1, self.nodes()[self.store().id_list()[j]])
                        }
                },
                Err(e) => !self.bound() && e == CompilationError::NoCompilation,
            },
    {
        let c = match &self.compilation {
            None => {
                return Err(CompilationError::NoCompilation);
            },
            Some(c) => c,
        };
        let ids = c.get_node_ids();
        let mut v: Vec<(String, Node)> = Vec::new();
        let mut i: usize = 0;
        while i < ids.len()
            invariant
                0 <= i <= ids@.len(),
                self.wf(),
                self.bound(),
                *c == self.store(),
                ids@ == self.store().id_list(),
                forall|j: int|
                    0 <= j < ids@.len() ==> self.nodes().dom().contains(#[trigger] ids@[j]),
                v@.len() == i,
                forall|j: int|
                    0 <= j < i ==> {
                        &&& (#[trigger] v@[j]).0@ == dec_str(ids@[j] as int)
                        &&& node_matches(v@[j].1, self.nodes()[ids@[j]])
                    },
            decreases ids@.len() - i,
        {
            let key = u128_to_string(ids[i]);
            let n = c.get_node(ids[i]).unwrap();
            let copy = Node {
                id: n.id,
                level: n.level,
                parents: copy_indices(&n.parents),
                children: copy_indices(&n.children),
                score: n.score,
            };
            v.push((key, copy));
            i = i + 1;
        }
        Ok(v)
    }

    /// A snapshot of the compiled graph keyed by the decimal string of each
    /// state identifier, so that consumers that cannot represent very wide
    /// integers can still address every node; each node record also carries
    /// its numeric identifier.
    ///
    /// The content clauses are stated under vstd's `obeys_key_model` for
    /// `String`, the hypothesis under which vstd specifies string-keyed hash
    /// maps at all; [`Compiler::export_entries`] states the same content
    /// unconditionally.
    pub fn export(&self) -> (r: CompilationResult<HashMap<String, Node>>)
        requires
            self.wf(),
        ensures
            r is Ok <==> self.bound(),
            r is Err ==> r == Err::<HashMap<String, Node>, CompilationError>(
                CompilationError::NoCompilation,
            ),
            match r {
                Ok(m) => vstd::std_specs::hash::obeys_key_model::<String>() ==> export_content(
                    self.store().id_list(),
                    self.nodes(),
                    m@,
                ),
                Err(_) => true,
            },
    {
        let mut entries = match self.export_entries() {
            Err(e) => {
                return Err(e);
            },
            Ok(v) => v,
        };
        let ghost ents = entries@;
        let ghost ids = self.store().id_list();
        let mut export_map: HashMap<String, Node> = HashMap::new();
        while entries.len() > 0
            invariant
                ents.len() == ids.len(),
                entries@.len() <= ents.len(),
                entries@ == ents.take(entries@.len() as int),
                vstd::std_specs::hash::obeys_key_model::<String>() ==> export_map@
                    == map_of_suffix(ents, entries@.len() as int),
            decreases entries@.len(),
        {
            let ghost n1 = entries@.len() as int;
            let p = entries.pop().unwrap();
            proof {
                assert(ents.take(n1)[n1 - 1] == ents[n1 - 1]);
                assert(ents.take(n1).subrange(0, n1 - 1) =~= ents.take(n1 - 1));
            }
            let key = p.0;
            let node = p.1;
            export_map.insert(key, node);
        }
        proof {
            if vstd::std_specs::hash::obeys_key_model::<String>() {
                assert(export_map@ == map_of_suffix(ents, 0));
                lemma_map_of_suffix_content(ents, ids, self.nodes(), 0);
                assert(export_content(ids, self.nodes(), map_of_suffix(ents, 0)));
            }
        }
        Ok(export_map)
    }
}

/// Every stored node of a well-formed compiler carries a minimax score:
/// -100, 0 or +100.
pub proof fn lemma_scores_are_minimax<C: Compilation>(c: Compiler<C>, k: NodeIndex)
    requires
        c.wf(),
        c.bound(),
        c.nodes().dom().contains(k),
    ensures
        c.nodes()[k].score == -100 || c.nodes()[k].score == 0 || c.nodes()[k].score == 100,
{
}

/// Every child wired in by one expansion step lies exactly one level deeper
/// than the expanded node, so under the staged driving order children are
/// always pushed onto the back-propagation stack after (and popped before)
/// their parents.
pub proof fn lemma_expansion_deepens<C: Compilation>(pre: Compiler<C>, post: Compiler<C>)
    requires
        pre.wf(),
        post.wf(),
        pre.bound(),
        pre.queue@.len() > 0,
        pre.nodes().dom().contains(pre.queue@[0]),
        C::winner_of(pre.cfg(), pre.queue@[0]) == 0,
        expansion_post(pre, post),
    ensures
        ({
            let id = pre.queue@[0];
            let cs = C::child_states_of(
                pre.cfg(),
                id,
                (pre.nodes()[id].level % 2 + 1) as u8,
            );
            forall|j: int|
                0 <= j < cs.len() ==> post.nodes()[#[trigger] cs[j]].level == pre.nodes()[id].level
                    + 1
        }),
{
    let id = pre.queue@[0];
    let team = (pre.nodes()[id].level % 2 + 1) as u8;
    let cs = C::child_states_of(pre.cfg(), id, team);
    C::lemma_child_states(pre.cfg(), id, team);
    assert forall|j: int|
        0 <= j < cs.len() implies post.nodes()[#[trigger] cs[j]].level == pre.nodes()[id].level
        + 1 by {
        assert(cs.to_set().contains(cs[j]));
        assert(post.nodes().dom().contains(cs[j]));
        assert(post.node_ok(cs[j]));
        assert(post.nodes()[cs[j]].level == C::id_level(pre.cfg(), cs[j]));
    }
}

impl<C: Compilation> Compiler<C> {
    /// The back-propagation stack holds levels in nondecreasing order from
    /// bottom to top.
    pub open spec fn stack_levels_sorted(&self) -> bool {
        forall|i: int, j: int|
            0 <= i <= j < self.unscored_nodes@.len() ==> self.nodes()[#[trigger] self.unscored_nodes@[i]].level
                <= self.nodes()[#[trigger] self.unscored_nodes@[j]].level
    }

    /// Every recorded child sits exactly one level deeper than its parent.
    pub open spec fn children_one_deeper(&self) -> bool {
        forall|k: NodeIndex, j: int|
            #![trigger self.nodes()[k].children@[j]]
            self.nodes().dom().contains(k) && 0 <= j < self.nodes()[k].children@.len()
                ==> self.nodes()[self.nodes()[k].children@[j]].level == self.nodes()[k].level + 1
    }

    /// The frontier holds levels in nondecreasing order and spans at most
    /// two consecutive levels: the breadth-first discipline.
    pub open spec fn queue_levels_bfs(&self) -> bool {
        &&& forall|i: int, j: int|
            0 <= i <= j < self.queue@.len() ==> self.nodes()[#[trigger] self.queue@[i]].level
                <= self.nodes()[#[trigger] self.queue@[j]].level
        &&& forall|i: int, j: int|
            0 <= i < self.queue@.len() && 0 <= j < self.queue@.len() ==> self.nodes()[
                #[trigger] self.queue@[j]
            ].level <= self.nodes()[#[trigger] self.queue@[i]].level + 1
    }

    /// The stack never runs ahead of the frontier: the top of the stack is
    /// at most as deep as the next state to expand.
    pub open spec fn stack_below_queue(&self) -> bool {
        self.unscored_nodes@.len() > 0 && self.queue@.len() > 0
            ==> self.nodes()[self.unscored_nodes@.last()].level
                <= self.nodes()[self.queue@[0]].level
    }

    /// The four ordering facts together.
    pub open spec fn staged_order(&self) -> bool {
        &&& self.stack_levels_sorted()
        &&& self.children_one_deeper()
        &&& self.queue_levels_bfs()
        &&& self.stack_below_queue()
    }
}

proof fn lemma_fresh_children_are_new(m: Map<NodeIndex, Node>, cs: Seq<NodeIndex>)
    ensures
        forall|i: int|
            0 <= i < fresh_children(m, cs).len() ==> exists|j: int|
                0 <= j < cs.len() && cs[j] == #[trigger] fresh_children(m, cs)[i]
                    && !m.dom().contains(cs[j]),
    decreases cs.len(),
{
    if cs.len() > 0 {
        lemma_fresh_children_are_new(m, cs.drop_last());
        assert forall|i: int|
            0 <= i < fresh_children(m, cs).len() implies exists|j: int|
            0 <= j < cs.len() && cs[j] == #[trigger] fresh_children(m, cs)[i] && !m.dom().contains(
            cs[j],
        ) by {
            let f0 = fresh_children(m, cs.drop_last());
            if i < f0.len() {
                let j = choose|j: int|
                    0 <= j < cs.drop_last().len() && cs.drop_last()[j] == f0[i]
                        && !m.dom().contains(cs.drop_last()[j]);
                assert(cs[j] == fresh_children(m, cs)[i] && !m.dom().contains(cs[j]));
            } else {
                assert(cs[cs.len() - 1] == fresh_children(m, cs)[i]);
            }
        }
    }
}

/// One expansion step of a non-winner state keeps the staged ordering: the
/// expanded state lands on top of the stack no shallower than what is below
/// it, and its children join the frontier one level deeper.
pub proof fn lemma_process_keeps_order<C: Compilation>(pre: Compiler<C>, post: Compiler<C>)
    requires
        pre.wf(),
        post.wf(),
        pre.bound(),
        pre.queue@.len() > 0,
        pre.staged_order(),
        C::winner_of(pre.cfg(), pre.queue@[0]) == 0,
        expansion_post(pre, post),
    ensures
        post.staged_order(),
{
    let id = pre.queue@[0];
    let m1 = pre.nodes();
    let m2 = post.nodes();
    let lvl = m1[id].level as int;
    let team = (m1[id].level % 2 + 1) as u8;
    let cs = C::child_states_of(pre.cfg(), id, team);
    let fresh = fresh_children(m1, cs);
    C::lemma_child_states(pre.cfg(), id, team);
    lemma_fresh_children_are_new(m1, cs);
    assert(pre.node_ok(id));
    // Levels survive the step: every state already stored keeps its level,
    // and the new ones sit at lvl + 1.
    assert forall|k: NodeIndex| m1.dom().contains(k) implies #[trigger] m2[k].level
        == m1[k].level by {
        if k == id {
        } else if cs.contains(k) {
            let j = choose|j: int| 0 <= j < cs.len() && cs[j] == k;
        } else {
        }
    }
    assert forall|i: int| 0 <= i < fresh.len() implies #[trigger] m2[fresh[i]].level == lvl
        + 1 by {
        let j = choose|j: int| 0 <= j < cs.len() && cs[j] == fresh[i] && !m1.dom().contains(cs[j]);
    }
    // The frontier stays breadth-first ordered.
    let q2 = post.queue@;
    let q1 = pre.queue@;
    assert forall|i: int| 0 <= i < q2.len() implies lvl <= #[trigger] m2[q2[i]].level <= lvl
        + 1 by {
        if i < q1.len() - 1 {
            assert(q2[i] == q1[i + 1]);
            assert(m1[q1[i + 1]].level <= m1[q1[0]].level + 1);
            assert(m1[q1[0]].level <= m1[q1[i + 1]].level);
        } else {
            assert(q2[i] == fresh[i - (q1.len() - 1)]);
        }
    }
    assert forall|i: int, j: int| 0 <= i <= j < q2.len() implies m2[#[trigger] q2[i]].level
        <= m2[#[trigger] q2[j]].level by {
        if j < q1.len() - 1 {
            assert(q2[i] == q1[i + 1] && q2[j] == q1[j + 1]);
        } else if i < q1.len() - 1 {
            assert(q2[i] == q1[i + 1]);
            assert(m2[q2[j]].level == lvl + 1);
            assert(m1[q1[i + 1]].level <= m1[q1[0]].level + 1);
        }
    }
    // The stack gains the expanded state on top, no shallower than the rest.
    let u2 = post.unscored_nodes@;
    let u1 = pre.unscored_nodes@;
    assert forall|i: int, j: int| 0 <= i <= j < u2.len() implies m2[#[trigger] u2[i]].level
        <= m2[#[trigger] u2[j]].level by {
        if j < u1.len() {
            assert(u2[i] == u1[i] && u2[j] == u1[j]);
        } else {
            assert(u2[j] == id);
            if i < u1.len() {
                assert(u2[i] == u1[i]);
                assert(m1[u1[i]].level <= m1[u1.last()].level);
                assert(m1[u1.last()].level <= m1[q1[0]].level);
            }
        }
    }
    // Children recorded anywhere still sit one level deeper.
    assert forall|k: NodeIndex, j: int|
        #![trigger m2[k].children@[j]]
        m2.dom().contains(k) && 0 <= j < m2[k].children@.len() implies m2[m2[k].children@[j]].level
        == m2[k].level + 1 by {
        assert(cs.to_set().contains(cs[0]) || true);
        if k == id {
            if j < m1[id].children@.len() {
                assert(m1[m1[id].children@[j]].level == m1[id].level + 1);
                assert(m1.dom().contains(m1[id].children@[j]));
            } else {
                let c = cs[j - m1[id].children@.len()];
                assert(C::id_level(pre.cfg(), c) == C::id_level(pre.cfg(), id) + 1);
                assert(cs.to_set().contains(c));
                assert(m2.dom().contains(c));
                assert(post.node_ok(c));
                assert(post.node_ok(id));
            }
        } else if m1.dom().contains(k) {
            assert(m1[k].children@ == m2[k].children@) by {
                if cs.contains(k) {
                    let j0 = choose|j0: int| 0 <= j0 < cs.len() && cs[j0] == k;
                } else {
                }
            }
            assert(m1[m1[k].children@[j]].level == m1[k].level + 1);
            assert(m1.dom().contains(m1[k].children@[j]));
        } else {
            let j0 = choose|j0: int| 0 <= j0 < cs.len() && cs[j0] == k;
            assert(m2[k].children@.len() == 0);
        }
    }
    // And the new top stays at or below the next state to expand.
    if q2.len() > 0 {
        assert(m2[u2.last()].level == lvl);
    }
}

/// The winner case of an expansion step (state popped, nothing else moved)
/// keeps the staged ordering.
pub proof fn lemma_process_winner_keeps_order<C: Compilation>(pre: Compiler<C>, post: Compiler<C>)
    requires
        pre.wf(),
        post.wf(),
        pre.bound(),
        pre.queue@.len() > 0,
        pre.staged_order(),
        post.bound(),
        post.nodes() == pre.nodes(),
        post.queue@ == pre.queue@.subrange(1, pre.queue@.len() as int),
        post.winners@ == pre.winners@,
        post.unscored_nodes@ == pre.unscored_nodes@,
    ensures
        post.staged_order(),
{
    let q1 = pre.queue@;
    let q2 = post.queue@;
    assert(forall|i: int| 0 <= i < q2.len() ==> #[trigger] q2[i] == q1[i + 1]);
    if q2.len() > 0 && post.unscored_nodes@.len() > 0 {
        assert(pre.nodes()[pre.unscored_nodes@.last()].level <= pre.nodes()[q1[0]].level);
        assert(pre.nodes()[q1[0]].level <= pre.nodes()[q1[1]].level);
    }
}

/// Back-propagation order: when the staged ordering holds, no child of the
/// state on top of the back-propagation stack is anywhere on the stack, so
/// under the LIFO discipline every child was popped (and scored) before its
/// parent comes up.
pub proof fn lemma_children_popped_first<C: Compilation>(c: Compiler<C>)
    requires
        c.wf(),
        c.bound(),
        c.unscored_nodes@.len() > 0,
        c.stack_levels_sorted(),
        c.children_one_deeper(),
        c.nodes().dom().contains(c.unscored_nodes@.last()),
    ensures
        forall|j: int|
            0 <= j < c.nodes()[c.unscored_nodes@.last()].children@.len() ==> !c.unscored_nodes@.contains(
                #[trigger] c.nodes()[c.unscored_nodes@.last()].children@[j],
            ),
{
    let top = c.unscored_nodes@.last();
    let m = c.nodes();
    assert forall|j: int|
        0 <= j < m[top].children@.len() implies !c.unscored_nodes@.contains(
        #[trigger] m[top].children@[j],
    ) by {
        let ch = m[top].children@[j];
        assert(m[ch].level == m[top].level + 1);
        if c.unscored_nodes@.contains(ch) {
            let p = choose|p: int|
                0 <= p < c.unscored_nodes@.len() && c.unscored_nodes@[p] == ch;
            assert(m[c.unscored_nodes@[p]].level <= m[c.unscored_nodes@.last()].level);
        }
    }
}

/// A freshly initialized compilation (root alone in the store and on the
/// frontier, empty stack) satisfies the staged ordering.
pub proof fn lemma_init_establishes_order<C: Compilation>(c: Compiler<C>)
    requires
        c.bound(),
        c.queue@ == Seq::<NodeIndex>::empty().push(0),
        c.unscored_nodes@.len() == 0,
        c.nodes().dom() == Set::<NodeIndex>::empty().insert(0),
        c.nodes()[0].children@.len() == 0,
    ensures
        c.staged_order(),
{
    assert forall|k: NodeIndex, j: int|
        #![trigger c.nodes()[k].children@[j]]
        c.nodes().dom().contains(k) && 0 <= j < c.nodes()[k].children@.len()
            implies c.nodes()[c.nodes()[k].children@[j]].level == c.nodes()[k].level + 1 by {
        assert(k == 0);
    }
}

/// A terminal-scoring step (stage 2) keeps the staged ordering: it only
/// rewrites one node's score and pops the winners queue.
pub proof fn lemma_post_process_keeps_order<C: Compilation>(
    pre: Compiler<C>,
    post: Compiler<C>,
    id: NodeIndex,
)
    requires
        pre.wf(),
        pre.bound(),
        post.bound(),
        pre.staged_order(),
        pre.nodes().dom().contains(id),
        post.queue@ == pre.queue@,
        post.unscored_nodes@ == pre.unscored_nodes@,
        post.nodes().dom() == pre.nodes().dom(),
        forall|k: NodeIndex|
            k != id && pre.nodes().dom().contains(k) ==> post.nodes()[k] == pre.nodes()[k],
        node_same_but_score(post.nodes()[id], pre.nodes()[id]),
    ensures
        post.staged_order(),
{
    assert forall|k: NodeIndex|
        pre.nodes().dom().contains(k) implies #[trigger] post.nodes()[k].level
        == pre.nodes()[k].level && post.nodes()[k].children@ == pre.nodes()[k].children@ by {
        if k != id {
            assert(post.nodes()[k] == pre.nodes()[k]);
        }
    }
    assert forall|k: NodeIndex, j: int|
        #![trigger post.nodes()[k].children@[j]]
        post.nodes().dom().contains(k) && 0 <= j < post.nodes()[k].children@.len()
            implies post.nodes()[post.nodes()[k].children@[j]].level == post.nodes()[k].level
        + 1 by {
        let ch = pre.nodes()[k].children@[j];
        assert(pre.node_ok(k));
        assert(pre.nodes().dom().contains(ch));
        assert(pre.nodes()[ch].level == pre.nodes()[k].level + 1);
    }
    assert forall|i: int, j: int|
        0 <= i <= j < post.unscored_nodes@.len() implies post.nodes()[
        #[trigger] post.unscored_nodes@[i]
    ].level <= post.nodes()[#[trigger] post.unscored_nodes@[j]].level by {
        assert(pre.nodes()[pre.unscored_nodes@[i]].level
            <= pre.nodes()[pre.unscored_nodes@[j]].level);
    }
    assert forall|i: int, j: int|
        0 <= i <= j < post.queue@.len() implies post.nodes()[#[trigger] post.queue@[i]].level
        <= post.nodes()[#[trigger] post.queue@[j]].level by {
        assert(pre.nodes()[pre.queue@[i]].level <= pre.nodes()[pre.queue@[j]].level);
    }
    assert forall|i: int, j: int|
        0 <= i < post.queue@.len() && 0 <= j < post.queue@.len() implies post.nodes()[
        #[trigger] post.queue@[j]
    ].level <= post.nodes()[#[trigger] post.queue@[i]].level + 1 by {
        assert(pre.nodes()[pre.queue@[j]].level <= pre.nodes()[pre.queue@[i]].level + 1);
    }
    if post.unscored_nodes@.len() > 0 && post.queue@.len() > 0 {
        assert(pre.nodes()[pre.unscored_nodes@.last()].level <= pre.nodes()[pre.queue@[0]].level);
    }
}

/// A back-propagation step (stage 3) keeps the staged ordering: it pops the
/// top of the stack and rewrites that node's score.
pub proof fn lemma_score_nodes_keeps_order<C: Compilation>(pre: Compiler<C>, post: Compiler<C>)
    requires
        pre.wf(),
        pre.bound(),
        post.bound(),
        pre.staged_order(),
        pre.unscored_nodes@.len() > 0,
        pre.nodes().dom().contains(pre.unscored_nodes@.last()),
        post.queue@ == pre.queue@,
        post.unscored_nodes@ == pre.unscored_nodes@.drop_last(),
        post.nodes().dom() == pre.nodes().dom(),
        forall|k: NodeIndex|
            k != pre.unscored_nodes@.last() && pre.nodes().dom().contains(k) ==> post.nodes()[k]
                == pre.nodes()[k],
        node_same_but_score(
            post.nodes()[pre.unscored_nodes@.last()],
            pre.nodes()[pre.unscored_nodes@.last()],
        ),
    ensures
        post.staged_order(),
{
    let id = pre.unscored_nodes@.last();
    assert forall|k: NodeIndex|
        pre.nodes().dom().contains(k) implies #[trigger] post.nodes()[k].level
        == pre.nodes()[k].level && post.nodes()[k].children@ == pre.nodes()[k].children@ by {
        if k != id {
            assert(post.nodes()[k] == pre.nodes()[k]);
        }
    }
    assert forall|k: NodeIndex, j: int|
        #![trigger post.nodes()[k].children@[j]]
        post.nodes().dom().contains(k) && 0 <= j < post.nodes()[k].children@.len()
            implies post.nodes()[post.nodes()[k].children@[j]].level == post.nodes()[k].level
        + 1 by {
        let ch = pre.nodes()[k].children@[j];
        assert(pre.node_ok(k));
        assert(pre.nodes().dom().contains(ch));
        assert(pre.nodes()[ch].level == pre.nodes()[k].level + 1);
    }
    assert forall|i: int, j: int|
        0 <= i <= j < post.unscored_nodes@.len() implies post.nodes()[
        #[trigger] post.unscored_nodes@[i]
    ].level <= post.nodes()[#[trigger] post.unscored_nodes@[j]].level by {
        assert(post.unscored_nodes@[i] == pre.unscored_nodes@[i]);
        assert(post.unscored_nodes@[j] == pre.unscored_nodes@[j]);
        assert(pre.nodes()[pre.unscored_nodes@[i]].level
            <= pre.nodes()[pre.unscored_nodes@[j]].level);
    }
    assert forall|i: int, j: int|
        0 <= i <= j < post.queue@.len() implies post.nodes()[#[trigger] post.queue@[i]].level
        <= post.nodes()[#[trigger] post.queue@[j]].level by {
        assert(pre.nodes()[pre.queue@[i]].level <= pre.nodes()[pre.queue@[j]].level);
    }
    assert forall|i: int, j: int|
        0 <= i < post.queue@.len() && 0 <= j < post.queue@.len() implies post.nodes()[
        #[trigger] post.queue@[j]
    ].level <= post.nodes()[#[trigger] post.queue@[i]].level + 1 by {
        assert(pre.nodes()[pre.queue@[j]].level <= pre.nodes()[pre.queue@[i]].level + 1);
    }
    if post.unscored_nodes@.len() > 0 && post.queue@.len() > 0 {
        assert(post.unscored_nodes@.last() == pre.unscored_nodes@[pre.unscored_nodes@.len() - 2]);
        assert(pre.nodes()[pre.unscored_nodes@[pre.unscored_nodes@.len() - 2]].level
            <= pre.nodes()[pre.unscored_nodes@.last()].level);
        assert(pre.nodes()[pre.unscored_nodes@.last()].level <= pre.nodes()[pre.queue@[0]].level);
    }
}

/// The decimal rendering is never empty.
proof fn lemma_dec_str_len(n: int)
    ensures
        dec_str(n).len() >= 1,
    decreases n,
{
    if n >= 10 {
        lemma_dec_str_len(n / 10);
    }
}

/// The ten decimal digit characters are pairwise distinct.
proof fn lemma_dec_digit_char_injective(d1: int, d2: int)
    requires
        0 <= d1 < 10,
        0 <= d2 < 10,
        dec_digit_char(d1) == dec_digit_char(d2),
    ensures
        d1 == d2,
{
}

/// Distinct numbers have distinct decimal renderings.
pub proof fn lemma_dec_str_injective(a: int, b: int)
    requires
        0 <= a,
        0 <= b,
        dec_str(a) == dec_str(b),
    ensures
        a == b,
    decreases a,
{
    lemma_dec_str_len(a);
    lemma_dec_str_len(b);
    if a < 10 && b < 10 {
        assert(dec_str(a)[0] == dec_digit_char(a));
        assert(dec_str(b)[0] == dec_digit_char(b));
        lemma_dec_digit_char_injective(a, b);
    } else if a < 10 {
        lemma_dec_str_len(b / 10);
        assert(dec_str(b).len() >= 2);
        assert(dec_str(a).len() == 1);
    } else if b < 10 {
        lemma_dec_str_len(a / 10);
        assert(dec_str(a).len() >= 2);
        assert(dec_str(b).len() == 1);
    } else {
        vstd::arithmetic::div_mod::lemma_fundamental_div_mod(a, 10);
        vstd::arithmetic::div_mod::lemma_fundamental_div_mod(b, 10);
        vstd::arithmetic::div_mod::lemma_mod_division_less_than_divisor(a, 10);
        vstd::arithmetic::div_mod::lemma_mod_division_less_than_divisor(b, 10);
        assert(dec_str(a).last() == dec_digit_char(a % 10));
        assert(dec_str(b).last() == dec_digit_char(b % 10));
        lemma_dec_digit_char_injective(a % 10, b % 10);
        assert(dec_str(a).drop_last() =~= dec_str(a / 10));
        assert(dec_str(b).drop_last() =~= dec_str(b / 10));
        lemma_dec_str_injective(a / 10, b / 10);
    }
}

/// The two nodes carry the same content, field by field.
pub open spec fn node_matches(a: Node, b: Node) -> bool {
    &&& a.id == b.id
    &&& a.level == b.level
    &&& a.score == b.score
    &&& a.parents@ == b.parents@
    &&& a.children@ == b.children@
}

fn copy_indices(v: &Vec<NodeIndex>) -> (r: Vec<NodeIndex>)
    ensures
        r@ == v@,
{
    let mut r: Vec<NodeIndex> = Vec::new();
    let mut i: usize = 0;
    while i < v.len()
        invariant
            0 <= i <= v@.len(),
            r@ == v@.take(i as int),
        decreases v@.len() - i,
    {
        r.push(v[i]);
        proof {
            assert(r@ =~= v@.take(i + 1));
        }
        i = i + 1;
    }
    proof {
        assert(r@ =~= v@);
    }
    r
}

} // verus!
