//! Tree-structured session history and the records that persist it.

use crate::cbor::CborValue;
use vstd::prelude::*;

verus! {

/// One chat or tool activity entry belonging to a session.
#[derive(Debug)]
pub enum SessionEntry {
    UserMessage { text: String },
    AgentMessage {
        text: String,
        /// Reasoning summary captured during the turn, if any.
        thinking: Option<String>,
    },
    ToolActivity(ToolActivityRecord),
}

/// One tool activity record associated with a session.
#[derive(Debug)]
pub struct ToolActivityRecord {
    pub call_id: String,
    pub tool_name: String,
    pub outcome: ToolActivityOutcome,
}

/// The outcome of one tool activity.
#[derive(Debug)]
pub enum ToolActivityOutcome {
    Requested { arguments: CborValue },
    Result { result: CborValue },
    Error { message: String, details: Option<CborValue> },
}

/// Unique identifier of a node in the session tree.
#[derive(Clone, Copy, PartialEq, Eq, Structural, Hash, Debug)]
pub struct NodeId(pub u64);

/// One node in the session tree.
#[derive(Debug)]
pub struct SessionNode {
    pub id: NodeId,
    pub parent_id: Option<NodeId>,
    pub entry: SessionEntry,
}

/// One record of the session log.
#[derive(Debug)]
pub enum PersistedSessionRecord {
    Node { id: NodeId, parent_id: Option<NodeId>, entry: SessionEntry },
    SetHead { node_id: NodeId },
}

/// What a [`SessionTree`] holds.
#[verifier::ext_equal]
pub struct TreeModel {
    pub session_id: Seq<char>,
    pub nodes: Seq<SessionNode>,
    pub head: Option<NodeId>,
}

/// Tree-structured session history with branching.
///
/// Each entry is a node with a unique id and a parent. The head is the current
/// position. Moving the head to an earlier node and appending there starts a
/// new branch.
#[derive(Debug)]
pub struct SessionTree {
    session_id: String,
    nodes: Vec<SessionNode>,
    head: Option<NodeId>,
}

impl View for SessionTree {
    type V = TreeModel;

    closed spec fn view(&self) -> TreeModel {
        TreeModel { session_id: self.session_id@, nodes: self.nodes@, head: self.head }
    }
}

/// Whether an optional node id is that of one of the first `n` nodes.
pub open spec fn known(id: Option<NodeId>, n: int) -> bool {
    id matches Some(id) ==> id.0 < n
}

/// The entries from the root down to a node.
pub open spec fn branch(nodes: Seq<SessionNode>, head: Option<NodeId>) -> Seq<SessionEntry>
    decreases
            match head {
                Some(id) => id.0 + 1,
                None => 0,
            },
{
    match head {
        Some(id) => if id.0 < nodes.len() {
            let node = nodes[id.0 as int];
            if known(node.parent_id, id.0 as int) {
                branch(nodes, node.parent_id).push(node.entry)
            } else {
                seq![node.entry]
            }
        } else {
            Seq::empty()
        },
        None => Seq::empty(),
    }
}

/// The ids of the nodes whose parent is `id`, in their order.
pub open spec fn children_of(nodes: Seq<SessionNode>, id: NodeId) -> Seq<NodeId>
    decreases nodes.len(),
{
    if nodes.len() == 0 {
        Seq::empty()
    } else {
        let before = children_of(nodes.drop_last(), id);
        if nodes.last().parent_id == Some(id) {
            before.push(nodes.last().id)
        } else {
            before
        }
    }
}

impl TreeModel {
    /// The tree of a new session.
    pub open spec fn fresh(session_id: Seq<char>) -> TreeModel {
        TreeModel { session_id, nodes: Seq::empty(), head: None }
    }

    /// A node's id is its position, its parent comes before it, and the head is
    /// one of the nodes.
    pub open spec fn wf(self) -> bool {
        &&& known(self.head, self.nodes.len() as int)
        &&& self.acyclic()
        &&& forall|i: int| 0 <= i < self.nodes.len() ==> (#[trigger] self.nodes[i]).id.0 == i
    }

    /// Parents come before their children.
    pub open spec fn acyclic(self) -> bool {
        forall|i: int|
            0 <= i < self.nodes.len() ==> known((#[trigger] self.nodes[i]).parent_id, i)
    }

    /// With an entry appended at the head.
    pub open spec fn appended(self, entry: SessionEntry) -> TreeModel {
        let id = NodeId(self.nodes.len() as u64);
        TreeModel {
            nodes: self.nodes.push(SessionNode { id, parent_id: self.head, entry }),
            head: Some(id),
            ..self
        }
    }

    /// With the head moved.
    pub open spec fn with_head(self, id: NodeId) -> TreeModel {
        TreeModel { head: Some(id), ..self }
    }

    /// With a record of the log applied.
    pub open spec fn applied(self, record: PersistedSessionRecord) -> TreeModel {
        match record {
            PersistedSessionRecord::Node { id, parent_id, entry } => TreeModel {
                nodes: self.nodes.push(SessionNode { id, parent_id, entry }),
                head: Some(id),
                ..self
            },
            PersistedSessionRecord::SetHead { node_id } => self.with_head(node_id),
        }
    }

    /// The record that an append writes to the log.
    pub open spec fn append_record(self, entry: SessionEntry) -> PersistedSessionRecord {
        PersistedSessionRecord::Node {
            id: NodeId(self.nodes.len() as u64),
            parent_id: self.head,
            entry,
        }
    }

    /// With the records of a log applied in order.
    pub open spec fn replayed(self, records: Seq<PersistedSessionRecord>) -> TreeModel
        decreases records.len(),
    {
        if records.len() == 0 {
            self
        } else {
            self.replayed(records.drop_last()).applied(records.last())
        }
    }
}

impl SessionTree {
    /// The tree of a new session.
    pub fn new(session_id: String) -> (t: Self)
        ensures
            t@ == TreeModel::fresh(session_id@),
    {
        SessionTree { session_id, nodes: Vec::new(), head: None }
    }

    /// The session identifier.
    pub fn session_id(&self) -> (s: &str)
        ensures
            s@ == self@.session_id,
    {
        self.session_id.as_str()
    }

    /// The current head node id, if any.
    pub fn head(&self) -> (h: Option<NodeId>)
        ensures
            h == self@.head,
    {
        self.head
    }

    /// The node with the given id.
    pub fn node(&self, id: NodeId) -> (n: Option<&SessionNode>)
        ensures
            match n {
                Some(n) => id.0 < self@.nodes.len() && *n == self@.nodes[id.0 as int],
                None => id.0 >= self@.nodes.len(),
            },
    {
        if id.0 < self.nodes.len() as u64 {
            Some(&self.nodes[id.0 as usize])
        } else {
            None
        }
    }

    /// All nodes.
    pub fn nodes(&self) -> (n: &[SessionNode])
        ensures
            n@ == self@.nodes,
    {
        self.nodes.as_slice()
    }

    /// The entries along the current branch, from the root to the head.
    pub fn current_branch(&self) -> (path: Vec<&SessionEntry>)
        requires
            self@.acyclic(),
        ensures
            path@.len() == branch(self@.nodes, self@.head).len(),
            forall|i: int|
                0 <= i < path@.len() ==> *#[trigger] path@[i] == branch(
                    self@.nodes,
                    self@.head,
                )[i],
    {
        let mut back: Vec<&SessionEntry> = Vec::new();
        let mut current = self.head;
        let ghost all = branch(self@.nodes, self@.head);
        loop
            invariant
                self@.acyclic(),
                all == branch(self@.nodes, self@.head),
                branch(self@.nodes, current).len() + back@.len() == all.len(),
                branch(self@.nodes, current) == all.take(all.len() - back@.len()),
                forall|j: int|
                    0 <= j < back@.len() ==> *#[trigger] back@[j] == all[all.len() - 1 - j],
            ensures
                back@.len() == all.len(),
            decreases
                    match current {
                        Some(id) => id.0 + 1,
                        None => 0,
                    },
        {
            let id = match current {
                Some(id) => id,
                None => {
                    break;
                },
            };
            if id.0 >= self.nodes.len() as u64 {
                break;
            }
            let node = &self.nodes[id.0 as usize];
            proof {
                assert(self@.nodes[id.0 as int] == *node);
                assert(known(node.parent_id, id.0 as int));
                let here = branch(self@.nodes, current);
                let rest = branch(self@.nodes, node.parent_id);
                assert(here == rest.push(node.entry));
                assert(here.last() == node.entry);
                assert(all[all.len() - 1 - back@.len()] == here.last());
                assert(rest =~= all.take(all.len() - back@.len() - 1)) by {
                    assert(rest =~= here.take(here.len() - 1));
                }
            }
            back.push(&node.entry);
            current = node.parent_id;
        }
        let mut path: Vec<&SessionEntry> = Vec::new();
        let mut k: usize = back.len();
        while k > 0
            invariant
                k <= back@.len(),
                back@.len() == all.len(),
                path@.len() == back@.len() - k,
                forall|j: int|
                    0 <= j < back@.len() ==> *#[trigger] back@[j] == all[all.len() - 1 - j],
                forall|j: int| 0 <= j < path@.len() ==> *#[trigger] path@[j] == all[j],
            decreases k,
        {
            k = k - 1;
            path.push(back[k]);
        }
        path
    }

    /// The direct children of a node.
    pub fn children(&self, id: NodeId) -> (out: Vec<NodeId>)
        ensures
            out@ == children_of(self@.nodes, id),
    {
        let mut out: Vec<NodeId> = Vec::new();
        let mut i: usize = 0;
        while i < self.nodes.len()
            invariant
                i <= self.nodes@.len(),
                out@ == children_of(self.nodes@.take(i as int), id),
            decreases self.nodes@.len() - i,
        {
            proof {
                assert(self.nodes@.take(i + 1).drop_last() =~= self.nodes@.take(i as int));
            }
            if self.nodes[i].parent_id == Some(id) {
                out.push(self.nodes[i].id);
            }
            i = i + 1;
        }
        proof {
            assert(self.nodes@.take(i as int) =~= self.nodes@);
        }
        out
    }

    /// The record of an append at the head, before it is made.
    pub fn append_record(&self, entry: SessionEntry) -> (r: PersistedSessionRecord)
        ensures
            r == self@.append_record(entry),
    {
        PersistedSessionRecord::Node {
            id: NodeId(self.nodes.len() as u64),
            parent_id: self.head,
            entry,
        }
    }

    /// Appends an entry at the head and returns the id of its node.
    pub fn append_node(&mut self, entry: SessionEntry) -> (id: NodeId)
        ensures
            final(self)@ == old(self)@.appended(entry),
            id == NodeId(old(self)@.nodes.len() as u64),
    {
        let id = NodeId(self.nodes.len() as u64);
        self.nodes.push(SessionNode { id, parent_id: self.head, entry });
        self.head = Some(id);
        id
    }

    /// Moves the head.
    pub fn set_head(&mut self, node_id: NodeId)
        ensures
            final(self)@ == old(self)@.with_head(node_id),
    {
        self.head = Some(node_id);
    }

    /// Applies a record of the log; returns the new head.
    pub fn apply(&mut self, record: PersistedSessionRecord) -> (head: NodeId)
        ensures
            final(self)@ == old(self)@.applied(record),
            final(self)@.head == Some(head),
    {
        match record {
            PersistedSessionRecord::Node { id, parent_id, entry } => {
                self.nodes.push(SessionNode { id, parent_id, entry });
                self.head = Some(id);
                id
            },
            PersistedSessionRecord::SetHead { node_id } => {
                self.head = Some(node_id);
                node_id
            },
        }
    }
}

// ---------------------------------------------------------------------------
// Laws
// ---------------------------------------------------------------------------

/// A change to a session.
pub enum SessionChange {
    Append(SessionEntry),
    SetHead(NodeId),
}

impl TreeModel {
    /// With a change made.
    pub open spec fn changed(self, change: SessionChange) -> TreeModel {
        match change {
            SessionChange::Append(entry) => self.appended(entry),
            SessionChange::SetHead(id) => self.with_head(id),
        }
    }

    /// The record that a change writes to the log.
    pub open spec fn change_record(self, change: SessionChange) -> PersistedSessionRecord {
        match change {
            SessionChange::Append(entry) => self.append_record(entry),
            SessionChange::SetHead(node_id) => PersistedSessionRecord::SetHead { node_id },
        }
    }

    /// With changes made in order.
    pub open spec fn changed_all(self, changes: Seq<SessionChange>) -> TreeModel
        decreases changes.len(),
    {
        if changes.len() == 0 {
            self
        } else {
            self.changed_all(changes.drop_last()).changed(changes.last())
        }
    }

    /// The log that changes write.
    pub open spec fn log_of(self, changes: Seq<SessionChange>) -> Seq<PersistedSessionRecord>
        decreases changes.len(),
    {
        if changes.len() == 0 {
            Seq::empty()
        } else {
            self.log_of(changes.drop_last()).push(
                self.changed_all(changes.drop_last()).change_record(changes.last()),
            )
        }
    }
}

/// Reading the log of a session back gives the session: replaying the records
/// that any changes wrote leads to the tree that the changes led to.
pub proof fn law_replay_restores_session(start: TreeModel, changes: Seq<SessionChange>)
    ensures
        start.replayed(start.log_of(changes)) == start.changed_all(changes),
    decreases changes.len(),
{
    if changes.len() > 0 {
        law_replay_restores_session(start, changes.drop_last());
        let before = start.log_of(changes.drop_last());
        let record = start.changed_all(changes.drop_last()).change_record(changes.last());
        assert(before.push(record).drop_last() =~= before);
    }
}

/// The records of a log do not change the name of the session.
pub proof fn lemma_replay_keeps_name(start: TreeModel, records: Seq<PersistedSessionRecord>)
    ensures
        start.replayed(records).session_id == start.session_id,
    decreases records.len(),
{
    if records.len() > 0 {
        lemma_replay_keeps_name(start, records.drop_last());
    }
}

/// Appending keeps the tree well formed and makes the new entry the end of the
/// current branch; moving the head to an existing node keeps it well formed,
/// too.
pub proof fn law_changes_keep_tree(tree: TreeModel, entry: SessionEntry, id: NodeId)
    requires
        tree.wf(),
        tree.nodes.len() < u64::MAX,
    ensures
        tree.appended(entry).wf(),
        branch(tree.appended(entry).nodes, tree.appended(entry).head) == branch(
            tree.nodes,
            tree.head,
        ).push(entry),
        id.0 < tree.nodes.len() ==> tree.with_head(id).wf(),
{
    let after = tree.appended(entry);
    assert forall|i: int| 0 <= i < after.nodes.len() implies known(
        (#[trigger] after.nodes[i]).parent_id,
        i,
    ) && after.nodes[i].id.0 == i by {
        if i < tree.nodes.len() {
            assert(after.nodes[i] == tree.nodes[i]);
        }
    }
    lemma_branch_prefix(tree.nodes, after.nodes, tree.head);
    if id.0 < tree.nodes.len() {
        let moved = tree.with_head(id);
        assert forall|i: int| 0 <= i < moved.nodes.len() implies known(
            (#[trigger] moved.nodes[i]).parent_id,
            i,
        ) && moved.nodes[i].id.0 == i by {
            assert(moved.nodes[i] == tree.nodes[i]);
        }
    }
}

proof fn lemma_branch_prefix(
    nodes: Seq<SessionNode>,
    more: Seq<SessionNode>,
    head: Option<NodeId>,
)
    requires
        nodes.len() <= more.len(),
        forall|i: int| 0 <= i < nodes.len() ==> #[trigger] nodes[i] == more[i],
        known(head, nodes.len() as int),
    ensures
        branch(nodes, head) == branch(more, head),
    decreases
            match head {
                Some(id) => id.0 + 1,
                None => 0,
            },
{
    if let Some(id) = head {
        let node = nodes[id.0 as int];
        assert(node == more[id.0 as int]);
        if known(node.parent_id, id.0 as int) {
            lemma_branch_prefix(nodes, more, node.parent_id);
        }
    }
}

/// Appending leaves every other branch as it was.
pub proof fn law_append_keeps_branches(
    tree: TreeModel,
    entry: SessionEntry,
    head: Option<NodeId>,
)
    requires
        tree.wf(),
        known(head, tree.nodes.len() as int),
    ensures
        branch(tree.appended(entry).nodes, head) == branch(tree.nodes, head),
{
    lemma_branch_prefix(tree.nodes, tree.appended(entry).nodes, head);
}

/// The children of a node are all nodes that were appended to it, in the order
/// in which they were.
pub proof fn law_children_are_what_was_appended(tree: TreeModel, id: NodeId)
    requires
        tree.wf(),
    ensures
        ({
            let children = children_of(tree.nodes, id);
            &&& forall|c: NodeId| #[trigger]
                children.contains(c) <==> c.0 < tree.nodes.len() && tree.nodes[c.0 as int].parent_id
                    == Some(id)
            &&& forall|i: int, j: int|
                0 <= i < j < children.len() ==> (#[trigger] children[i]).0 < (
                #[trigger] children[j]).0
        }),
    decreases tree.nodes.len(),
{
    let nodes = tree.nodes;
    let children = children_of(nodes, id);
    if nodes.len() > 0 {
        let n = nodes.len() - 1;
        let front = nodes.drop_last();
        let before = children_of(front, id);
        let smaller = TreeModel { nodes: front, head: None, ..tree };
        assert forall|i: int| 0 <= i < front.len() implies known(
            (#[trigger] front[i]).parent_id,
            i,
        ) && front[i].id.0 == i by {
            assert(front[i] == nodes[i]);
        }
        law_children_are_what_was_appended(smaller, id);
        assert(nodes.last() == nodes[n]);
        let last = nodes[n].id;
        assert(last.0 == n);
        assert forall|c: NodeId| #[trigger] children.contains(c) <==> c.0 < nodes.len()
            && nodes[c.0 as int].parent_id == Some(id) by {
            assert(before.contains(c) <==> c.0 < front.len() && front[c.0 as int].parent_id
                == Some(id));
            if children.contains(c) {
                let k = choose|k: int| 0 <= k < children.len() && children[k] == c;
                if k < before.len() {
                    assert(before[k] == c);
                    assert(before.contains(c));
                }
            }
            if c.0 < nodes.len() && nodes[c.0 as int].parent_id == Some(id) {
                if c.0 < n {
                    let k = choose|k: int| 0 <= k < before.len() && before[k] == c;
                    assert(children[k] == c);
                } else {
                    assert(c == last);
                    assert(children.last() == c);
                }
            }
        }
        assert forall|i: int, j: int| 0 <= i < j < children.len() implies (
        #[trigger] children[i]).0 < (#[trigger] children[j]).0 by {
            assert(children[i] == before[i]);
            if j < before.len() {
                assert(children[j] == before[j]);
            } else {
                assert(before.contains(before[i]));
            }
        }
    }
}

/// With the head at a node, the branch ends with that node, and before it comes
/// the branch of its parent; without a head it is empty.
pub proof fn law_branch_ends_at_the_head(tree: TreeModel, id: NodeId)
    requires
        tree.wf(),
        id.0 < tree.nodes.len(),
    ensures
        ({
            let moved = tree.with_head(id);
            let node = tree.nodes[id.0 as int];
            &&& branch(moved.nodes, moved.head) == branch(tree.nodes, node.parent_id).push(
                node.entry,
            )
            &&& moved.nodes == tree.nodes
        }),
        branch(tree.nodes, None).len() == 0,
{
    assert(known(tree.nodes[id.0 as int].parent_id, id.0 as int));
}

} // verus!
