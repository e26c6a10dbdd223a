//! Quorum-based consistency.
//!
//! A configuration of `n` replicas with read quorum `r` and write quorum `w`
//! is strongly consistent when `r + w > n`: every read quorum then shares at
//! least one replica with every write quorum.

use vstd::prelude::*;

verus! {

/// Replica identifier used by the quorum layer.
pub type NodeId = String;

/// The views of a sequence of node identifiers.
pub open spec fn id_views(s: Seq<NodeId>) -> Seq<Seq<char>> {
    s.map_values(|x: NodeId| x@)
}

/// Why a quorum configuration was refused.
#[derive(Debug, Clone, Copy, PartialEq, Eq, Structural)]
pub enum QuorumError {
    /// `r + w <= n`: reads may miss the latest write.
    NotStronglyConsistent,
    /// `r == 0` or `w == 0`.
    ZeroQuorum,
    /// `r > n` or `w > n`.
    QuorumExceedsReplicas,
    /// The node list handed to a manager does not have `n` entries.
    NodeCountMismatch,
}

/// Quorum configuration.
#[derive(Debug, Clone, Copy, PartialEq, Eq, Structural)]
pub struct QuorumConfig {
    /// Total number of replicas.
    pub n: usize,
    /// Read quorum size.
    pub r: usize,
    /// Write quorum size.
    pub w: usize,
}

/// The first check that `(n, r, w)` fails, in the order in which they are made.
pub open spec fn quorum_error(n: int, r: int, w: int) -> Option<QuorumError> {
    if r + w <= n {
        Some(QuorumError::NotStronglyConsistent)
    } else if r == 0 || w == 0 {
        Some(QuorumError::ZeroQuorum)
    } else if r > n || w > n {
        Some(QuorumError::QuorumExceedsReplicas)
    } else {
        None
    }
}

/// What `QuorumConfig::new(n, r, w)` returns.
pub open spec fn new_config_result(n: usize, r: usize, w: usize) -> Result<QuorumConfig, QuorumError> {
    match quorum_error(n as int, r as int, w as int) {
        Some(e) => Err(e),
        None => Ok(QuorumConfig { n, r, w }),
    }
}

impl QuorumConfig {
    /// Create a new quorum configuration.
    pub fn new(n: usize, r: usize, w: usize) -> (res: Result<QuorumConfig, QuorumError>)
        ensures
            res == new_config_result(n, r, w),
    {
        if r as u128 + w as u128 <= n as u128 {
            return Err(QuorumError::NotStronglyConsistent);
        }
        if r == 0 || w == 0 {
            return Err(QuorumError::ZeroQuorum);
        }
        if r > n || w > n {
            return Err(QuorumError::QuorumExceedsReplicas);
        }
        Ok(QuorumConfig { n, r, w })
    }

    /// Create a strict majority quorum (`n / 2 + 1` for reads and writes).
    pub fn majority(n: usize) -> (res: Result<QuorumConfig, QuorumError>)
        requires
            n < usize::MAX,
        ensures
            res == new_config_result(n, (n / 2 + 1) as usize, (n / 2 + 1) as usize),
            res is Ok <==> n > 0,
    {
        let quorum_size = n / 2 + 1;
        Self::new(n, quorum_size, quorum_size)
    }

    /// Create a quorum optimised for reads (small `r`, large `w`).
    pub fn read_heavy(n: usize) -> (res: Result<QuorumConfig, QuorumError>)
        requires
            n > 0,
        ensures
            res == new_config_result(n, (n / 3 + 1) as usize, (n - (n / 3 + 1) + 1) as usize),
            res is Ok,
    {
        let r = n / 3 + 1;
        let w = n - r + 1;
        Self::new(n, r, w)
    }

    /// Create a quorum optimised for writes (large `r`, small `w`).
    pub fn write_heavy(n: usize) -> (res: Result<QuorumConfig, QuorumError>)
        requires
            n > 0,
        ensures
            res == new_config_result(n, (n - (n / 3 + 1) + 1) as usize, (n / 3 + 1) as usize),
            res is Ok,
    {
        let w = n / 3 + 1;
        let r = n - w + 1;
        Self::new(n, r, w)
    }

    /// Whether the configuration provides strong consistency (`r + w > n`).
    pub fn is_strongly_consistent(&self) -> (b: bool)
        ensures
            b == (self.r + self.w > self.n),
    {
        if self.w > self.n {
            true
        } else {
            self.r > self.n - self.w
        }
    }
}


/// Quorum check result.
#[derive(Debug, Clone, Copy, PartialEq, Eq, Structural)]
pub enum QuorumResult {
    /// Quorum met.
    Met { required: usize, actual: usize },
    /// Quorum not met.
    NotMet { required: usize, actual: usize },
}

/// The result of checking `actual` valid responses against a quorum of `required`.
pub open spec fn quorum_outcome(required: usize, actual: usize) -> QuorumResult {
    if actual >= required {
        QuorumResult::Met { required, actual }
    } else {
        QuorumResult::NotMet { required, actual }
    }
}

impl QuorumResult {
    /// The required quorum size recorded in the result.
    pub open spec fn spec_required(self) -> usize {
        match self {
            QuorumResult::Met { required, .. } => required,
            QuorumResult::NotMet { required, .. } => required,
        }
    }

    /// The number of valid responses recorded in the result.
    pub open spec fn spec_actual(self) -> usize {
        match self {
            QuorumResult::Met { actual, .. } => actual,
            QuorumResult::NotMet { actual, .. } => actual,
        }
    }

    /// Whether the quorum was met.
    pub fn is_met(&self) -> (b: bool)
        ensures
            b == (*self is Met),
    {
        match self {
            QuorumResult::Met { .. } => true,
            QuorumResult::NotMet { .. } => false,
        }
    }

    /// The required quorum size.
    pub fn required(&self) -> (r: usize)
        ensures
            r == self.spec_required(),
    {
        match self {
            QuorumResult::Met { required, .. } => *required,
            QuorumResult::NotMet { required, .. } => *required,
        }
    }

    /// The actual number of valid responses.
    pub fn actual(&self) -> (a: usize)
        ensures
            a == self.spec_actual(),
    {
        match self {
            QuorumResult::Met { actual, .. } => *actual,
            QuorumResult::NotMet { actual, .. } => *actual,
        }
    }
}

/// Whether `v` holds an identifier equal to `id`.
fn contains_id(v: &Vec<NodeId>, id: &NodeId) -> (b: bool)
    ensures
        b == id_views(v@).contains(id@),
{
    let mut i: usize = 0;
    while i < v.len()
        invariant
            i <= v.len(),
            forall|j: int| 0 <= j < i ==> v@[j]@ != id@,
        decreases v.len() - i,
    {
        if v[i] == *id {
            assert(id_views(v@)[i as int] == id@);
            return true;
        }
        i += 1;
    }
    proof {
        if id_views(v@).contains(id@) {
            let j = choose|j: int| 0 <= j < id_views(v@).len() && id_views(v@)[j] == id@;
            assert(v@[j]@ == id@);
        }
    }
    false
}

/// Growing a prefix by one element adds that element to its set.
proof fn lemma_take_succ_to_set<A>(s: Seq<A>, i: int)
    requires
        0 <= i < s.len(),
    ensures
        s.take(i + 1).to_set() == s.take(i).to_set().insert(s[i]),
{
    let a = s.take(i + 1);
    let b = s.take(i);
    assert(a == b.push(s[i]));
    assert forall|x: A| a.to_set().contains(x) <==> b.to_set().insert(s[i]).contains(x) by {
        if a.contains(x) {
            let j = choose|j: int| 0 <= j < a.len() && a[j] == x;
            if j < i {
                assert(b[j] == x);
            }
        }
        if b.contains(x) {
            let j = choose|j: int| 0 <= j < b.len() && b[j] == x;
            assert(a[j] == x);
        }
        if x == s[i] {
            assert(a[i] == x);
        }
    }
    assert(a.to_set() =~= b.to_set().insert(s[i]));
}

/// Quorum manager: a configuration and the set of replicas it governs.
pub struct QuorumManager {
    config: QuorumConfig,
    nodes: Vec<NodeId>,
}

impl View for QuorumManager {
    type V = Set<Seq<char>>;

    /// The set of replicas.
    closed spec fn view(&self) -> Set<Seq<char>> {
        id_views(self.nodes@).to_set()
    }
}

impl QuorumManager {
    #[verifier::type_invariant]
    closed spec fn wf(self) -> bool {
        id_views(self.nodes@).no_duplicates()
    }

    /// The configuration the manager was created with.
    pub closed spec fn spec_config(&self) -> QuorumConfig {
        self.config
    }

    /// The replicas among `responding` that belong to the quorum.
    pub open spec fn valid_responses(&self, responding: Seq<NodeId>) -> Set<Seq<char>> {
        id_views(responding).to_set().intersect(self@)
    }

    /// Create a new quorum manager over `nodes`, which must count `config.n` entries.
    pub fn new(config: QuorumConfig, nodes: Vec<NodeId>) -> (res: Result<QuorumManager, QuorumError>)
        ensures
            nodes.len() != config.n ==> res == Err::<QuorumManager, QuorumError>(QuorumError::NodeCountMismatch),
            nodes.len() == config.n ==> (res matches Ok(m) && m.spec_config() == config
                && m@ == id_views(nodes@).to_set() && m@.len() <= config.n),
    {
        if nodes.len() != config.n {
            return Err(QuorumError::NodeCountMismatch);
        }
        let mut set: Vec<NodeId> = Vec::new();
        let ghost src = id_views(nodes@);
        for i in 0..nodes.len()
            invariant
                src == id_views(nodes@),
                id_views(set@).no_duplicates(),
                id_views(set@).to_set() == src.take(i as int).to_set(),
        {
            proof { lemma_take_succ_to_set(src, i as int); }
            if !contains_id(&set, &nodes[i]) {
                let ghost before = set@;
                set.push(nodes[i].clone());
                proof {
                    assert(id_views(set@) == id_views(before).push(nodes@[i as int]@));
                    lemma_push_to_set(id_views(before), nodes@[i as int]@);
                }
            }
        }
        assert(src.take(nodes.len() as int) == src);
        proof { src.lemma_cardinality_of_set(); }
        Ok(QuorumManager { config, nodes: set })
    }

    /// Count the distinct members of the quorum among `responding` and
    /// compare with `required`.
    fn check_quorum(&self, responding: &[NodeId], required: usize) -> (res: QuorumResult)
        ensures
            res == quorum_outcome(required, self.valid_responses(responding@).len() as usize),
            self.valid_responses(responding@).len() <= responding@.len(),
    {
        proof { use_type_invariant(self); }
        let mut seen: Vec<NodeId> = Vec::new();
        let ghost rs = id_views(responding@);
        for i in 0..responding.len()
            invariant
                rs == id_views(responding@),
                id_views(seen@).no_duplicates(),
                id_views(seen@).to_set() == rs.take(i as int).to_set().intersect(self@),
                seen.len() <= i,
        {
            proof { lemma_take_succ_to_set(rs, i as int); }
            let id = &responding[i];
            if contains_id(&self.nodes, id) && !contains_id(&seen, id) {
                let ghost before = seen@;
                seen.push(id.clone());
                proof {
                    assert(id_views(seen@) == id_views(before).push(id@));
                    lemma_push_to_set(id_views(before), id@);
                    assert(id_views(seen@).to_set() =~= rs.take(i + 1).to_set().intersect(self@));
                }
            } else {
                assert(id_views(seen@).to_set() =~= rs.take(i + 1).to_set().intersect(self@));
            }
        }
        proof {
            assert(rs.take(responding.len() as int) == rs);
            id_views(seen@).unique_seq_to_set();
        }
        let actual = seen.len();
        if actual >= required {
            QuorumResult::Met { required, actual }
        } else {
            QuorumResult::NotMet { required, actual }
        }
    }

    /// Check whether the read quorum is met by `responding_nodes`.
    pub fn check_read_quorum(&self, responding_nodes: &[NodeId]) -> (res: QuorumResult)
        ensures
            res == quorum_outcome(
                self.spec_config().r,
                self.valid_responses(responding_nodes@).len() as usize,
            ),
    {
        self.check_quorum(responding_nodes, self.config.r)
    }

    /// Check whether the write quorum is met by `responding_nodes`.
    pub fn check_write_quorum(&self, responding_nodes: &[NodeId]) -> (res: QuorumResult)
        ensures
            res == quorum_outcome(
                self.spec_config().w,
                self.valid_responses(responding_nodes@).len() as usize,
            ),
    {
        self.check_quorum(responding_nodes, self.config.w)
    }

    /// The quorum configuration.
    pub fn config(&self) -> (c: &QuorumConfig)
        ensures
            *c == self.spec_config(),
    {
        &self.config
    }

    /// All replicas, each once.
    pub fn nodes(&self) -> (v: Vec<NodeId>)
        ensures
            id_views(v@).to_set() == self@,
            id_views(v@).no_duplicates(),
    {
        proof { use_type_invariant(self); }
        self.nodes.clone()
    }

    /// Add a replica to the quorum.
    pub fn add_node(&mut self, node_id: NodeId)
        ensures
            final(self)@ == old(self)@.insert(node_id@),
            final(self)@.finite(),
            final(self)@.len() == old(self)@.len() + (if old(self)@.contains(node_id@) { 0int } else { 1int }),
            final(self).spec_config() == old(self).spec_config(),
    {
        proof {
            use_type_invariant(&*self);
            vstd::seq_lib::seq_to_set_is_finite(id_views(self.nodes@));
        }
        if !contains_id(&self.nodes, &node_id) {
            let ghost before = self.nodes@;
            let mut nodes: Vec<NodeId> = Vec::new();
            std::mem::swap(&mut nodes, &mut self.nodes);
            nodes.push(node_id);
            proof {
                assert(id_views(nodes@) == id_views(before).push(node_id@));
                lemma_push_to_set(id_views(before), node_id@);
            }
            self.nodes = nodes;
        } else {
            assert(self@.insert(node_id@) =~= self@);
        }
    }

    /// Remove a replica from the quorum; `true` when it was a member.
    pub fn remove_node(&mut self, node_id: &NodeId) -> (removed: bool)
        ensures
            removed == old(self)@.contains(node_id@),
            final(self)@ == old(self)@.remove(node_id@),
            final(self)@.finite(),
            final(self)@.len() == old(self)@.len() - (if removed { 1int } else { 0int }),
            final(self).spec_config() == old(self).spec_config(),
    {
        proof {
            use_type_invariant(&*self);
            vstd::seq_lib::seq_to_set_is_finite(id_views(self.nodes@));
        }
        let mut kept: Vec<NodeId> = Vec::new();
        let mut removed = false;
        let ghost src = id_views(self.nodes@);
        for i in 0..self.nodes.len()
            invariant
                src == id_views(self.nodes@),
                src.no_duplicates(),
                id_views(kept@).no_duplicates(),
                id_views(kept@).to_set() == src.take(i as int).to_set().remove(node_id@),
                removed == src.take(i as int).contains(node_id@),
        {
            proof { lemma_take_succ_to_set(src, i as int); }
            let ghost before = kept@;
            if self.nodes[i] == *node_id {
                removed = true;
                assert(src.take(i + 1)[i as int] == node_id@);
                assert(id_views(kept@).to_set() =~= src.take(i + 1).to_set().remove(node_id@));
            } else {
                kept.push(self.nodes[i].clone());
                proof {
                    assert(id_views(kept@) == id_views(before).push(src[i as int]));
                    assert(!id_views(before).contains(src[i as int])) by {
                        if id_views(before).contains(src[i as int]) {
                            assert(id_views(before).to_set().contains(src[i as int]));
                            let pre = src.take(i as int);
                            assert(pre.contains(src[i as int]));
                            let j = choose|j: int| 0 <= j < pre.len() && pre[j] == src[i as int];
                            assert(src[j] == src[i as int]);
                        }
                    };
                    lemma_push_to_set(id_views(before), src[i as int]);
                    assert(id_views(kept@).to_set() =~= src.take(i + 1).to_set().remove(node_id@));
                }
            }
            assert(src.take(i + 1).contains(node_id@) == (src.take(i as int).contains(node_id@) || src[i as int] == node_id@)) by {
                assert(src.take(i + 1).to_set().contains(node_id@) == src.take(i + 1).contains(node_id@));
                assert(src.take(i as int).to_set().contains(node_id@) == src.take(i as int).contains(node_id@));
            };
        }
        proof {
            assert(src.take(self.nodes.len() as int) == src);
        }
        self.nodes = kept;
        proof { vstd::seq_lib::seq_to_set_is_finite(id_views(self.nodes@)); }
        removed
    }

    /// Whether `node_id` is a replica of the quorum.
    pub fn contains_node(&self, node_id: &NodeId) -> (b: bool)
        ensures
            b == self@.contains(node_id@),
    {
        contains_id(&self.nodes, node_id)
    }

    /// The set of replicas is finite.
    pub proof fn lemma_view_finite(m: &QuorumManager)
        ensures
            m@.finite(),
    {
        vstd::seq_lib::seq_to_set_is_finite(id_views(m.nodes@));
    }

    /// Number of replicas.
    pub fn node_count(&self) -> (c: usize)
        ensures
            c == self@.len(),
            self@.finite(),
    {
        proof {
            use_type_invariant(self);
            id_views(self.nodes@).unique_seq_to_set();
            vstd::seq_lib::seq_to_set_is_finite(id_views(self.nodes@));
        }
        self.nodes.len()
    }
}

/// Adding a replica that was absent and then removing it gives back the
/// replicas as they were.
pub proof fn lemma_add_remove_round_trip(s: Set<Seq<char>>, x: Seq<char>)
    requires
        !s.contains(x),
    ensures
        s.insert(x).remove(x) == s,
{
    assert(s.insert(x).remove(x) =~= s);
}

/// Quorum intersection: when `r + w > n` and the manager holds at most `n`
/// replicas, every set of responses that meets the read quorum shares a
/// replica with every set of responses that meets the write quorum.
pub proof fn lemma_read_write_quorums_intersect(
    m: QuorumManager,
    reads: Seq<NodeId>,
    writes: Seq<NodeId>,
)
    requires
        m.spec_config().r + m.spec_config().w > m.spec_config().n,
        m@.len() <= m.spec_config().n,
        m.valid_responses(reads).len() >= m.spec_config().r,
        m.valid_responses(writes).len() >= m.spec_config().w,
    ensures
        exists|x: Seq<char>| m.valid_responses(reads).contains(x) && m.valid_responses(writes).contains(x),
{
    let a = m.valid_responses(reads);
    let b = m.valid_responses(writes);
    assert(m@.finite());
    assert(a.finite()) by { vstd::set_lib::lemma_len_subset(a, m@); }
    assert(b.finite()) by { vstd::set_lib::lemma_len_subset(b, m@); }
    assert((a + b).subset_of(m@));
    vstd::set_lib::lemma_len_subset(a + b, m@);
    vstd::set_lib::lemma_set_intersect_union_lens(a, b);
    assert(a.intersect(b).len() > 0);
    let x = a.intersect(b).choose();
    vstd::set_lib::lemma_set_empty_equivalency_len(a.intersect(b));
    assert(a.intersect(b).contains(x));
}

/// Pushing a fresh element onto a duplicate-free sequence keeps it
/// duplicate-free and adds the element to its set.
proof fn lemma_push_to_set<A>(s: Seq<A>, x: A)
    requires
        s.no_duplicates(),
        !s.contains(x),
    ensures
        s.push(x).no_duplicates(),
        s.push(x).to_set() == s.to_set().insert(x),
{
    let t = s.push(x);
    assert(t.take(s.len() as int) == s);
    lemma_take_succ_to_set(t, s.len() as int);
    assert(t.take(s.len() as int + 1) == t);
    assert forall|i: int, j: int| 0 <= i < t.len() && 0 <= j < t.len() && i != j implies t[i] != t[j] by {
        if i < s.len() && j < s.len() {
        } else if i == s.len() {
            assert(s[j] == t[j]);
        } else {
            assert(s[i] == t[i]);
        }
    }
}

} // verus!
