//! The decisions of a replica: how it answers client requests, what it does
//! when more of the log is decided, how it applies decided entries, and when
//! it joins a new cluster configuration. The consensus instance, the network
//! and the clock stay with the caller, which performs what these functions
//! decide and reports back what happened.
use vstd::prelude::*;
use crate::decimal_text::{bounded_text_value, parse_u64};
use crate::kv::{apply_command, apply_commands, lookup, opt_text, CommandView, Database, KVCommand, StoreMap};
use crate::snapshot::{command_views, writes_of};
use crate::liveness::{Liveness, LivenessView, TickOutcome};

verus! {

/// A message from a replica to the client.
#[derive(Debug)]
pub enum APIResponse {
    /// The log is decided up to this index.
    Decided(u64),
    /// The value stored under a key, if any.
    Get(String, Option<String>),
}

/// The configuration that a reconfiguration request proposes.
#[derive(Debug)]
pub struct ReconfigurationPlan {
    pub configuration_id: u32,
    pub nodes: Vec<u64>,
}

/// What a replica does with a client request.
#[derive(Debug)]
pub enum RequestOutcome {
    /// Send this answer to the client at once (reads are served locally).
    Reply(APIResponse),
    /// Propose moving the cluster to this configuration.
    Reconfigure(ReconfigurationPlan),
    /// Refuse the request.
    Rejected(RequestError),
    /// Append this command to the replicated log.
    Propose(KVCommand),
}

/// An entry of the decided suffix of the log, as far as the replica reads it.
#[derive(Debug)]
pub enum DecidedEntry {
    /// A command.
    Command(KVCommand),
    /// The log of this configuration has been stopped; `decided` tells
    /// whether the stop is decided, and the next configuration is given.
    StopSign { next_config_id: u32, next_nodes: Vec<u64>, decided: bool },
    /// Anything else (an undecided command, a trimmed or snapshotted
    /// entry); the replica leaves the store as it is for these.
    Other,
}

/// A decided entry with its contents taken as plain values.
pub enum EntryView {
    Command(CommandView),
    StopSign(u32, Seq<u64>, bool),
    Other,
}

impl View for DecidedEntry {
    type V = EntryView;

    open spec fn view(&self) -> EntryView {
        match self {
            DecidedEntry::Command(c) => EntryView::Command(c@),
            DecidedEntry::StopSign { next_config_id, next_nodes, decided } => EntryView::StopSign(
                *next_config_id,
                next_nodes@,
                *decided,
            ),
            DecidedEntry::Other => EntryView::Other,
        }
    }
}

/// The views of the entries of `entries`.
pub open spec fn entry_views(entries: Seq<DecidedEntry>) -> Seq<EntryView> {
    entries.map_values(|e: DecidedEntry| e@)
}

/// The commands among `entries`, in log order.
pub open spec fn entry_commands(entries: Seq<EntryView>) -> Seq<CommandView>
    decreases entries.len(),
{
    if entries.len() == 0 {
        Seq::empty()
    } else {
        let front = entry_commands(entries.drop_last());
        match entries.last() {
            EntryView::Command(c) => front.push(c),
            _ => front,
        }
    }
}

/// Whether `entry` makes node `my_pid`, now in configuration `my_config_id`,
/// start an instance for the next configuration: the stop is decided, the
/// node is a member of the next configuration, and that configuration is newer.
pub open spec fn joins_next_config(entry: EntryView, my_pid: u64, my_config_id: u32) -> bool {
    match entry {
        EntryView::StopSign(id, nodes, decided) => decided && nodes.contains(my_pid) && id > my_config_id,
        _ => false,
    }
}

/// The positions in `entries` of the entries that make the node join a new
/// configuration, in log order.
pub open spec fn join_positions(entries: Seq<EntryView>, my_pid: u64, my_config_id: u32) -> Seq<usize>
    decreases entries.len(),
{
    if entries.len() == 0 {
        Seq::empty()
    } else {
        let front = join_positions(entries.drop_last(), my_pid, my_config_id);
        if joins_next_config(entries.last(), my_pid, my_config_id) {
            front.push((entries.len() - 1) as usize)
        } else {
            front
        }
    }
}

/// Every how many decided entries the replica compacts its log into a snapshot.
pub const SNAPSHOT_INTERVAL: u64 = 5;

/// Whether `q` is a multiple of the snapshot interval.
pub open spec fn on_interval(q: u64) -> bool {
    q % SNAPSHOT_INTERVAL == 0
}

/// The index up to which the replica compacts its log when the decided index
/// moves from `last` to `idx`: the last multiple of the snapshot interval
/// that the move passes, if it passes one.
pub open spec fn snapshot_point(last: u64, idx: u64) -> Option<u64> {
    if last / SNAPSHOT_INTERVAL < idx / SNAPSHOT_INTERVAL {
        Some(((idx / SNAPSHOT_INTERVAL) * SNAPSHOT_INTERVAL) as u64)
    } else {
        None
    }
}

/// Why a client request is refused.
#[derive(Clone, Copy, Debug, PartialEq, Eq, Structural)]
pub enum RequestError {
    /// A reconfiguration request must name a node id: a non-zero `u64`.
    NotANodeId,
    /// The current configuration id is `u32::MAX`, so no newer one exists.
    NoNewerConfigId,
}

/// The configuration that a request to add the node named by `request`
/// proposes, from the current configuration `config_id` with `nodes`: the
/// next configuration id, with the current nodes and the new one.
pub open spec fn reconfiguration_of(nodes: Seq<u64>, config_id: u32, request: Seq<char>) -> Result<(u32, Seq<u64>), RequestError> {
    match bounded_text_value(request, u64::MAX as nat) {
        None => Err(RequestError::NotANodeId),
        Some(p) => if p == 0 {
            Err(RequestError::NotANodeId)
        } else if config_id == u32::MAX {
            Err(RequestError::NoNewerConfigId)
        } else {
            Ok((
                (config_id + 1) as u32,
                if nodes.contains(p as u64) { nodes } else { nodes.push(p as u64) },
            ))
        },
    }
}

/// What the replica does when the log is decided further than it has read.
#[derive(Debug)]
pub struct DecidedStep {
    /// Read the decided suffix from this index (and apply it).
    pub read_from: u64,
    /// Tell the client how far the log is decided.
    pub reply: APIResponse,
    /// Compact the log up to this index into a snapshot, if set.
    pub snapshot: Option<u64>,
}

/// What applying a decided suffix asks of the caller.
#[derive(Debug)]
pub struct AppliedEntries {
    /// The writes to make to the store on disk, in log order.
    pub writes: Vec<KVCommand>,
    /// The positions of the stop signs that make this node start an instance
    /// for a new configuration, in log order.
    pub joins: Vec<usize>,
}

/// The state of a replica as plain values.
#[verifier::ext_equal]
pub struct ServerView {
    /// What the store holds.
    pub store: StoreMap,
    /// Where the store is kept on disk.
    pub db_path: Seq<char>,
    /// This node's id.
    pub my_pid: u64,
    /// The configuration this node started in.
    pub config_id: u32,
    /// The nodes of that configuration.
    pub nodes: Seq<u64>,
    /// How far the decided log has been read.
    pub last_decided_idx: u64,
    /// What the node knows of its peers' liveness.
    pub liveness: LivenessView,
}

/// The state that a replica keeps besides its consensus instance and its network.
pub struct Server {
    database: Database,
    my_pid: u64,
    config_id: u32,
    nodes: Vec<u64>,
    last_decided_idx: u64,
    liveness: Liveness,
}

impl View for Server {
    type V = ServerView;

    closed spec fn view(&self) -> ServerView {
        ServerView {
            store: self.database@,
            db_path: self.database.path_text(),
            my_pid: self.my_pid,
            config_id: self.config_id,
            nodes: self.nodes@,
            last_decided_idx: self.last_decided_idx,
            liveness: self.liveness@,
        }
    }
}

impl Server {
    /// Replica `my_pid` of configuration `config_id` with `nodes`, over the
    /// store `database` opened at its path: it has read nothing of the log
    /// and heard from no peer.
    pub fn new(database: Database, my_pid: u64, config_id: u32, nodes: Vec<u64>) -> (s: Server)
        ensures
            s@.store == database@,
            s@.db_path == database.path_text(),
            s@.my_pid == my_pid,
            s@.config_id == config_id,
            s@.nodes == nodes@,
            s@.last_decided_idx == 0,
            s@.liveness.last_seen == Map::<u64, u64>::empty(),
            s@.liveness.expired == Set::<u64>::empty(),
    {
        Server { database, my_pid, config_id, nodes, last_decided_idx: 0, liveness: Liveness::new() }
    }

    /// How far this replica has read the decided log.
    pub fn last_decided_idx(&self) -> (idx: u64)
        ensures
            idx == self@.last_decided_idx,
    {
        self.last_decided_idx
    }

    /// This node's id.
    pub fn my_pid(&self) -> (pid: u64)
        ensures
            pid == self@.my_pid,
    {
        self.my_pid
    }

    /// Where this replica's store is kept on disk.
    pub fn db_path(&self) -> (p: &String)
        ensures
            p@ == self@.db_path,
    {
        self.database.path()
    }

    /// A client request: a read is answered from the local store with its
    /// key and value; a write is proposed to the log; a request
    /// `reconfigure <PID>` proposes the next configuration id with node PID
    /// added to the current nodes. Nothing changes here.
    ///
    /// Unlike a fixed proposal of configuration 2 with nodes 1 to 4, which
    /// would be made whatever the request says, a request whose text is not a
    /// non-zero `u64` is refused (`NotANodeId`), since it names no node to
    /// add, and so is any request when the configuration id is already
    /// `u32::MAX` (`NoNewerConfigId`), since no newer id exists.
    pub fn handle_api_request(&mut self, cmd: KVCommand) -> (out: RequestOutcome)
        ensures
            final(self)@ == old(self)@,
            match cmd@ {
                CommandView::Get(k) => out matches RequestOutcome::Reply(APIResponse::Get(key, value))
                    && key@ == k && opt_text(value) == lookup(old(self)@.store, k),
                CommandView::Reconfigure(r) => match reconfiguration_of(old(self)@.nodes, old(self)@.config_id, r) {
                    Ok((id, nodes)) => out matches RequestOutcome::Reconfigure(plan)
                        && plan.configuration_id == id && plan.nodes@ == nodes,
                    Err(e) => out == RequestOutcome::Rejected(e),
                },
                _ => out matches RequestOutcome::Propose(c) && c@ == cmd@,
            },
    {
        match cmd {
            KVCommand::Get(key) => {
                let value = self.database.handle_command(KVCommand::Get(key.clone()));
                assert(self@ =~= old(self)@);
                RequestOutcome::Reply(APIResponse::Get(key, value))
            },
            KVCommand::Reconfigure(request) => {
                let pid = match parse_u64(request.as_str()) {
                    None => return RequestOutcome::Rejected(RequestError::NotANodeId),
                    Some(p) => p,
                };
                if pid == 0 {
                    return RequestOutcome::Rejected(RequestError::NotANodeId);
                }
                if self.config_id == u32::MAX {
                    return RequestOutcome::Rejected(RequestError::NoNewerConfigId);
                }
                let mut nodes = copy_ids(&self.nodes);
                if !contains_id(&self.nodes, pid) {
                    nodes.push(pid);
                }
                RequestOutcome::Reconfigure(ReconfigurationPlan { configuration_id: self.config_id + 1, nodes })
            },
            other => RequestOutcome::Propose(other),
        }
    }

    /// A consensus message from peer `sender` arrived at `now`.
    pub fn record_heartbeat(&mut self, sender: u64, now: u64)
        ensures
            final(self)@ == (ServerView { liveness: old(self)@.liveness.heard(sender, now), ..old(self)@ }),
    {
        self.liveness.record_heartbeat(sender, now);
        assert(self@ =~= (ServerView { liveness: old(self)@.liveness.heard(sender, now), ..old(self)@ }));
    }

    /// A tick at `now`; `leader_known` tells whether the consensus instance
    /// knows of a leader.
    pub fn on_tick(&mut self, now: u64, leader_known: bool) -> (out: TickOutcome)
        ensures
            final(self)@ == (ServerView { liveness: old(self)@.liveness.ticked(now), ..old(self)@ }),
            out.reconnect@.to_set() == final(self)@.liveness.expired,
            out.reconnect@.no_duplicates(),
            out.reconnect_self == !leader_known,
    {
        let out = self.liveness.on_tick(now, leader_known);
        assert(self@ =~= (ServerView { liveness: old(self)@.liveness.ticked(now), ..old(self)@ }));
        out
    }

    /// The consensus instance reports the log decided up to `decided_idx`.
    /// When that is beyond what this replica has read, it reads on from where
    /// it stopped, tells the client the new index, compacts the log up to the
    /// last multiple of the snapshot interval that it passed (if any), and
    /// remembers the index; otherwise nothing happens.
    pub fn on_decided_index(&mut self, decided_idx: u64) -> (step: Option<DecidedStep>)
        ensures
            old(self)@.last_decided_idx < decided_idx ==> {
                &&& step matches Some(s)
                &&& s.read_from == old(self)@.last_decided_idx
                &&& s.reply matches APIResponse::Decided(i) && i == decided_idx
                &&& s.snapshot == snapshot_point(old(self)@.last_decided_idx, decided_idx)
                &&& final(self)@ == (ServerView { last_decided_idx: decided_idx, ..old(self)@ })
            },
            old(self)@.last_decided_idx >= decided_idx ==> step is None && final(self)@ == old(self)@,
            final(self)@.last_decided_idx == decided_after(old(self)@.last_decided_idx, decided_idx),
    {
        if self.last_decided_idx < decided_idx {
            let read_from: u64 = self.last_decided_idx;
            self.last_decided_idx = decided_idx;
            let snapshot: Option<u64> = if read_from / SNAPSHOT_INTERVAL < decided_idx / SNAPSHOT_INTERVAL {
                Some((decided_idx / SNAPSHOT_INTERVAL) * SNAPSHOT_INTERVAL)
            } else {
                None
            };
            assert(self@ =~= (ServerView { last_decided_idx: decided_idx, ..old(self)@ }));
            Some(DecidedStep { read_from, reply: APIResponse::Decided(decided_idx), snapshot })
        } else {
            None
        }
    }

    /// Applies the decided entries `entries` in order: each command goes to
    /// the store and each write among them is handed back for the store on
    /// disk; every other entry, snapshotted ones included, leaves the store
    /// as it is; each decided stop sign of a newer configuration that has this
    /// node as a member is reported by its position, for the caller to start
    /// the new configuration's instance.
    pub fn update_database(&mut self, entries: &Vec<DecidedEntry>) -> (applied: AppliedEntries)
        ensures
            final(self)@ == (ServerView {
                store: apply_commands(old(self)@.store, entry_commands(entry_views(entries@))),
                ..old(self)@
            }),
            command_views(applied.writes@) == writes_of(entry_commands(entry_views(entries@))),
            applied.joins@ == join_positions(entry_views(entries@), old(self)@.my_pid, old(self)@.config_id),
    {
        let ghost views = entry_views(entries@);
        let mut joins: Vec<usize> = Vec::new();
        let mut writes: Vec<KVCommand> = Vec::new();
        let my_pid = self.my_pid;
        let my_config_id = self.config_id;
        let mut i: usize = 0;
        proof {
            assert(views.take(0) =~= Seq::<EntryView>::empty());
            assert(apply_commands(old(self)@.store, Seq::<CommandView>::empty()) == old(self)@.store);
            assert(command_views(writes@) =~= writes_of(entry_commands(views.take(0))));
        }
        while i < entries.len()
            invariant
                i <= entries.len(),
                views == entry_views(entries@),
                my_pid == old(self)@.my_pid,
                my_config_id == old(self)@.config_id,
                self@ == (ServerView {
                    store: apply_commands(old(self)@.store, entry_commands(views.take(i as int))),
                    ..old(self)@
                }),
                command_views(writes@) == writes_of(entry_commands(views.take(i as int))),
                joins@ == join_positions(views.take(i as int), my_pid, my_config_id),
            decreases entries.len() - i,
        {
            let ghost before = views.take(i as int);
            let ghost after = views.take(i + 1);
            proof {
                assert(after.drop_last() =~= before);
                assert(after.last() == entries@[i as int]@);
            }
            match &entries[i] {
                DecidedEntry::Command(cmd) => {
                    let c = cmd.clone_command();
                    let ghost old_store = self@.store;
                    let _ = self.database.handle_command(c);
                    match cmd {
                        KVCommand::Put(_) | KVCommand::Delete(_) => {
                            let w = cmd.clone_command();
                            writes.push(w);
                        },
                        _ => {},
                    }
                    proof {
                        crate::kv::lemma_apply_in_batches(old(self)@.store, entry_commands(before), seq![cmd@]);
                        assert(entry_commands(after) =~= entry_commands(before).push(cmd@));
                        assert(entry_commands(before).push(cmd@) =~= entry_commands(before) + seq![cmd@]);
                        assert(apply_commands(old_store, seq![cmd@]) == apply_command(old_store, cmd@).0) by {
                            assert(seq![cmd@].drop_first() =~= Seq::<CommandView>::empty());
                            assert(apply_commands(apply_command(old_store, cmd@).0, Seq::<CommandView>::empty())
                                == apply_command(old_store, cmd@).0);
                        }
                        let ec = entry_commands(after);
                        assert(ec.drop_last() =~= entry_commands(before));
                        assert(ec.last() == cmd@);
                        assert(command_views(writes@) =~= writes_of(ec));
                    }
                },
                DecidedEntry::StopSign { next_config_id, next_nodes, decided } => {
                    if *decided && *next_config_id > my_config_id && contains_id(next_nodes, my_pid) {
                        joins.push(i);
                    }
                },
                DecidedEntry::Other => {},
            }
            assert(self@ =~= (ServerView {
                store: apply_commands(old(self)@.store, entry_commands(after)),
                ..old(self)@
            }));
            i = i + 1;
        }
        assert(views.take(entries.len() as int) =~= views);
        AppliedEntries { writes, joins }
    }
}

/// A request to add a node proposes a newer configuration that has the
/// requested node and every current node as members.
pub proof fn lemma_reconfiguration_adds_node(nodes: Seq<u64>, config_id: u32, request: Seq<char>)
    ensures
        reconfiguration_of(nodes, config_id, request) matches Ok((id, next)) ==> {
            &&& id > config_id
            &&& bounded_text_value(request, u64::MAX as nat) matches Some(p) && next.contains(p as u64)
            &&& forall|n: u64| nodes.contains(n) ==> next.contains(n)
        },
{
    if let Ok((id, next)) = reconfiguration_of(nodes, config_id, request) {
        let p = bounded_text_value(request, u64::MAX as nat)->0;
        if !nodes.contains(p as u64) {
            assert(next[nodes.len() as int] == p as u64);
            assert forall|n: u64| nodes.contains(n) implies next.contains(n) by {
                let w = choose|w: int| 0 <= w < nodes.len() && nodes[w] == n;
                assert(next[w] == n);
            }
        }
    }
}

/// A request naming node `p` (non-zero) from configuration `config_id` with
/// `nodes` proposes exactly the next configuration id, whose members are the
/// current nodes and `p` and no others, each listed once if they were.
pub proof fn lemma_reconfiguration_exact(nodes: Seq<u64>, config_id: u32, request: Seq<char>, p: nat)
    requires
        bounded_text_value(request, u64::MAX as nat) == Some(p),
        p != 0,
        config_id < u32::MAX,
    ensures
        reconfiguration_of(nodes, config_id, request) matches Ok((id, next)) && id == config_id + 1
            && (forall|n: u64| next.contains(n) <==> (nodes.contains(n) || n == p))
            && (nodes.no_duplicates() ==> next.no_duplicates()),
{
    let next = if nodes.contains(p as u64) { nodes } else { nodes.push(p as u64) };
    assert forall|n: u64| next.contains(n) <==> (nodes.contains(n) || n == p) by {
        if !nodes.contains(p as u64) {
            if next.contains(n) {
                let w = choose|w: int| 0 <= w < next.len() && next[w] == n;
                if w < nodes.len() {
                    assert(nodes[w] == n);
                }
            }
            if nodes.contains(n) {
                let w = choose|w: int| 0 <= w < nodes.len() && nodes[w] == n;
                assert(next[w] == n);
            }
            if n == p {
                assert(next[nodes.len() as int] == n);
            }
        } else {
            if n == p {
                assert(nodes.contains(n));
            }
        }
    }
    if nodes.no_duplicates() && !nodes.contains(p as u64) {
        assert forall|a: int, b: int| 0 <= a < next.len() && 0 <= b < next.len() && a != b implies next[a] != next[b] by {
            if a < nodes.len() && b < nodes.len() {
            } else if a < nodes.len() {
                assert(nodes[a] == next[a]);
            } else {
                assert(nodes[b] == next[b]);
            }
        }
    }
}

/// A snapshot is taken exactly when the decided index passes a multiple of
/// the snapshot interval, and then at the last such multiple passed.
pub proof fn lemma_snapshot_point(last: u64, idx: u64)
    requires
        last < idx,
    ensures
        snapshot_point(last, idx) matches Some(p) ==> last < p <= idx && on_interval(p)
            && idx - p < SNAPSHOT_INTERVAL,
        snapshot_point(last, idx) is None ==> forall|q: u64| last < q <= idx ==> !#[trigger] on_interval(q),
{
    if last / SNAPSHOT_INTERVAL >= idx / SNAPSHOT_INTERVAL {
        assert forall|q: u64| last < q <= idx implies !#[trigger] on_interval(q) by {
            assert(last / 5 <= q / 5 <= idx / 5);
        }
    }
}

/// How far a replica has read after the log is reported decided up to `idx`
/// when it had read up to `last`.
pub open spec fn decided_after(last: u64, idx: u64) -> u64 {
    if last < idx {
        idx
    } else {
        last
    }
}

/// The read position never moves back, and a report of an index that was
/// already read changes nothing.
pub proof fn lemma_decided_index_monotone(last: u64, idx: u64)
    ensures
        decided_after(last, idx) >= last,
        decided_after(last, idx) >= idx,
        decided_after(decided_after(last, idx), idx) == decided_after(last, idx),
{
}

/// The read position after a report is the larger of the old position and
/// the reported index.
pub proof fn lemma_decided_after_is_larger(last: u64, idx: u64)
    ensures
        decided_after(last, idx) == last || decided_after(last, idx) == idx,
        decided_after(last, idx) >= last && decided_after(last, idx) >= idx,
{
}

/// The commands of two stretches of the log, one after the other, are the
/// commands of each stretch in turn.
pub proof fn lemma_entry_commands_concat(a: Seq<EntryView>, b: Seq<EntryView>)
    ensures
        entry_commands(a + b) == entry_commands(a) + entry_commands(b),
    decreases b.len(),
{
    if b.len() == 0 {
        assert(a + b =~= a);
        assert(entry_commands(a) + entry_commands(b) =~= entry_commands(a));
    } else {
        lemma_entry_commands_concat(a, b.drop_last());
        assert((a + b).drop_last() =~= a + b.drop_last());
        assert((a + b).last() == b.last());
        match b.last() {
            EntryView::Command(c) => {
                assert(entry_commands(a) + entry_commands(b.drop_last()).push(c)
                    =~= (entry_commands(a) + entry_commands(b.drop_last())).push(c));
            },
            _ => {},
        }
    }
}

/// Reading the decided log in two batches leaves the same store as reading
/// both at once: replicas that read the same log reach the same data however
/// their reads are cut.
pub proof fn lemma_update_in_batches(m: StoreMap, first: Seq<EntryView>, second: Seq<EntryView>)
    ensures
        apply_commands(m, entry_commands(first + second))
            == apply_commands(apply_commands(m, entry_commands(first)), entry_commands(second)),
{
    lemma_entry_commands_concat(first, second);
    crate::kv::lemma_apply_in_batches(m, entry_commands(first), entry_commands(second));
}

/// A copy of `ids`.
fn copy_ids(ids: &Vec<u64>) -> (copy: Vec<u64>)
    ensures
        copy@ == ids@,
{
    let mut copy: Vec<u64> = Vec::new();
    let mut i: usize = 0;
    while i < ids.len()
        invariant
            i <= ids.len(),
            copy@ == ids@.take(i as int),
        decreases ids.len() - i,
    {
        copy.push(ids[i]);
        i = i + 1;
        assert(copy@ =~= ids@.take(i as int));
    }
    assert(ids@.take(ids.len() as int) =~= ids@);
    copy
}

/// The store after a replica that has read the decided `log` up to `last`
/// is told, in turn, that the log is decided up to each index of `reports`,
/// reading and applying each newly decided stretch once.
pub open spec fn replay_reports(m: StoreMap, log: Seq<EntryView>, last: u64, reports: Seq<u64>) -> StoreMap
    decreases reports.len(),
{
    if reports.len() == 0 {
        m
    } else {
        let idx = reports[0];
        let m1 = if last < idx {
            apply_commands(m, entry_commands(log.subrange(last as int, idx as int)))
        } else {
            m
        };
        replay_reports(m1, log, decided_after(last, idx), reports.drop_first())
    }
}

/// Where the read position ends after the reports `reports`, starting at `last`.
pub open spec fn final_index(last: u64, reports: Seq<u64>) -> u64
    decreases reports.len(),
{
    if reports.len() == 0 {
        last
    } else {
        final_index(decided_after(last, reports[0]), reports.drop_first())
    }
}

/// However the decided log is reported in stretches, the store ends as
/// applying every decided command up to the last reported index, each once
/// and in log order.
pub proof fn lemma_replay_applies_log_once(m: StoreMap, log: Seq<EntryView>, last: u64, reports: Seq<u64>)
    requires
        last <= log.len(),
        forall|j: int| 0 <= j < reports.len() ==> #[trigger] reports[j] <= log.len(),
    ensures
        replay_reports(apply_commands(m, entry_commands(log.take(last as int))), log, last, reports)
            == apply_commands(m, entry_commands(log.take(final_index(last, reports) as int))),
    decreases reports.len(),
{
    if reports.len() > 0 {
        let idx = reports[0];
        let rest = reports.drop_first();
        assert forall|j: int| 0 <= j < rest.len() implies #[trigger] rest[j] <= log.len() by {
            assert(rest[j] == reports[j + 1]);
        }
        let next = decided_after(last, idx);
        if last < idx {
            assert(log.take(idx as int) =~= log.take(last as int) + log.subrange(last as int, idx as int));
            lemma_update_in_batches(m, log.take(last as int), log.subrange(last as int, idx as int));
        }
        lemma_replay_applies_log_once(m, log, next, rest);
    }
}

/// Entries that hold no command leave the store as it is, whatever they
/// are (stop signs, snapshotted or trimmed entries).
pub proof fn lemma_entries_without_commands_change_nothing(m: StoreMap, entries: Seq<EntryView>)
    requires
        forall|i: int| 0 <= i < entries.len() ==> !(#[trigger] entries[i] is Command),
    ensures
        apply_commands(m, entry_commands(entries)) == m,
    decreases entries.len(),
{
    if entries.len() > 0 {
        let init = entries.drop_last();
        assert forall|i: int| 0 <= i < init.len() implies !(#[trigger] init[i] is Command) by {
            assert(init[i] == entries[i]);
        }
        lemma_entries_without_commands_change_nothing(m, init);
        assert(!(entries[entries.len() - 1] is Command));
    } else {
        assert(entry_commands(entries) =~= Seq::<CommandView>::empty());
    }
}

/// One round of catching up keeps the store equal to the decided log applied
/// up to the read position: if the store holds the log applied up to
/// `before.last_decided_idx`, and the replica is told the log is decided up
/// to `idx` (as `on_decided_index` moves `before` to `reported`) and then
/// applies the stretch it reads from there (as `update_database` moves
/// `reported` to `after`), the store holds the log applied up to `idx`.
pub proof fn lemma_catch_up_step(
    m: StoreMap,
    log: Seq<EntryView>,
    before: ServerView,
    reported: ServerView,
    after: ServerView,
    idx: u64,
)
    requires
        before.store == apply_commands(m, entry_commands(log.take(before.last_decided_idx as int))),
        before.last_decided_idx < idx <= log.len(),
        reported == (ServerView { last_decided_idx: idx, ..before }),
        after == (ServerView {
            store: apply_commands(
                reported.store,
                entry_commands(log.subrange(before.last_decided_idx as int, idx as int)),
            ),
            ..reported
        }),
    ensures
        after.store == apply_commands(m, entry_commands(log.take(after.last_decided_idx as int))),
{
    let last = before.last_decided_idx as int;
    assert(log.take(idx as int) =~= log.take(last) + log.subrange(last, idx as int));
    lemma_update_in_batches(m, log.take(last), log.subrange(last, idx as int));
}

/// A stretch made only of decided commands hands every one of them, in
/// order, to the store: no command is dropped, added or moved.
pub proof fn lemma_entry_commands_of_commands(cmds: Seq<CommandView>)
    ensures
        entry_commands(cmds.map_values(|c: CommandView| EntryView::Command(c))) == cmds,
    decreases cmds.len(),
{
    let es = cmds.map_values(|c: CommandView| EntryView::Command(c));
    if cmds.len() == 0 {
        assert(es.len() == 0);
        assert(entry_commands(es) =~= cmds);
    } else {
        let init = cmds.drop_last();
        assert(es.drop_last() =~= init.map_values(|c: CommandView| EntryView::Command(c)));
        assert(es.last() == EntryView::Command(cmds.last()));
        lemma_entry_commands_of_commands(init);
        assert(init.push(cmds.last()) =~= cmds);
    }
}

/// The commands of any stretch are exactly those of its command entries, in
/// log order: every command entry contributes its command, once.
pub proof fn lemma_entry_commands_members(entries: Seq<EntryView>, c: CommandView)
    ensures
        entry_commands(entries).contains(c) <==> entries.contains(EntryView::Command(c)),
    decreases entries.len(),
{
    if entries.len() > 0 {
        let init = entries.drop_last();
        lemma_entry_commands_members(init, c);
        assert(entries =~= init.push(entries.last()));
        assert(entries.contains(EntryView::Command(c)) <==> (init.contains(EntryView::Command(c))
            || entries.last() == EntryView::Command(c))) by {
            if entries.contains(EntryView::Command(c)) {
                let w = choose|w: int| 0 <= w < entries.len() && entries[w] == EntryView::Command(c);
                if w < init.len() {
                    assert(init[w] == entries[w]);
                }
            }
            if init.contains(EntryView::Command(c)) {
                let w = choose|w: int| 0 <= w < init.len() && init[w] == EntryView::Command(c);
                assert(entries[w] == init[w]);
            }
        }
        let front = entry_commands(init);
        match entries.last() {
            EntryView::Command(d) => {
                assert(entry_commands(entries) == front.push(d));
                assert(front.push(d).contains(c) <==> (front.contains(c) || d == c)) by {
                    if front.push(d).contains(c) {
                        let w = choose|w: int| 0 <= w < front.push(d).len() && front.push(d)[w] == c;
                        if w < front.len() {
                            assert(front[w] == c);
                        }
                    }
                    if front.contains(c) {
                        let w = choose|w: int| 0 <= w < front.len() && front[w] == c;
                        assert(front.push(d)[w] == c);
                    }
                    if d == c {
                        assert(front.push(d)[front.len() as int] == c);
                    }
                }
            },
            _ => {},
        }
    }
}

/// After a stretch whose last entry is a decided delete of `key`, the store
/// holds nothing under `key`; after one whose last entry is a decided put of
/// `key`, it holds the put's value.
pub proof fn lemma_last_decided_write_wins(m: StoreMap, entries: Seq<EntryView>, key: Seq<char>, value: Seq<char>)
    requires
        entries.len() > 0,
    ensures
        entries.last() == EntryView::Command(CommandView::Delete(key))
            ==> !apply_commands(m, entry_commands(entries)).contains_key(key),
        entries.last() == EntryView::Command(CommandView::Put(key, value))
            ==> lookup(apply_commands(m, entry_commands(entries)), key) == Some(value),
{
    match entries.last() {
        EntryView::Command(c) => {
            let cs = entry_commands(entries);
            assert(cs == entry_commands(entries.drop_last()).push(c));
            assert(cs.drop_last() =~= entry_commands(entries.drop_last()));
            crate::snapshot::lemma_apply_last(m, cs);
        },
        _ => {},
    }
}

/// A decided stop sign makes this node join exactly when it is decided, the
/// node is a member of the next configuration (wherever it is listed), and
/// that configuration is newer; no other entry does.
pub proof fn lemma_join_rule(entry: EntryView, my_pid: u64, my_config_id: u32)
    ensures
        joins_next_config(entry, my_pid, my_config_id) <==> (match entry {
            EntryView::StopSign(id, nodes, decided) => decided && (exists|i: int|
                0 <= i < nodes.len() && nodes[i] == my_pid) && id > my_config_id,
            _ => false,
        }),
{
}

/// The join positions of a stretch are exactly the positions of its decided
/// stop signs of a newer configuration that list this node, in increasing order.
pub proof fn lemma_join_positions_exact(entries: Seq<EntryView>, my_pid: u64, my_config_id: u32, j: usize)
    requires
        entries.len() <= usize::MAX,
    ensures
        join_positions(entries, my_pid, my_config_id).contains(j) <==> (j < entries.len() && match entries[j as int] {
            EntryView::StopSign(id, nodes, decided) => decided && id > my_config_id && nodes.contains(my_pid),
            _ => false,
        }),
        forall|a: int, b: int| 0 <= a < b < join_positions(entries, my_pid, my_config_id).len()
            ==> join_positions(entries, my_pid, my_config_id)[a] < join_positions(entries, my_pid, my_config_id)[b],
        forall|a: int| 0 <= a < join_positions(entries, my_pid, my_config_id).len()
            ==> join_positions(entries, my_pid, my_config_id)[a] < entries.len(),
    decreases entries.len(),
{
    let jp = join_positions(entries, my_pid, my_config_id);
    if entries.len() > 0 {
        let init = entries.drop_last();
        lemma_join_positions_exact(init, my_pid, my_config_id, j);
        let front = join_positions(init, my_pid, my_config_id);
        let last = (entries.len() - 1) as usize;
        if (j as int) < init.len() {
            assert(init[j as int] == entries[j as int]);
        }
        if joins_next_config(entries.last(), my_pid, my_config_id) {
            assert(jp == front.push(last));
            if jp.contains(j) {
                let w = choose|w: int| 0 <= w < jp.len() && jp[w] == j;
                if w < front.len() {
                    assert(front[w] == jp[w]);
                    assert(front.contains(j));
                }
            }
            if front.contains(j) {
                let w = choose|w: int| 0 <= w < front.len() && front[w] == j;
                assert(jp[w] == j);
            }
            if j == last {
                assert(jp[front.len() as int] == j);
            }
            assert forall|a: int, b: int| 0 <= a < b < jp.len() implies jp[a] < jp[b] by {
                if b < front.len() {
                    assert(jp[a] == front[a] && jp[b] == front[b]);
                } else {
                    assert(jp[a] == front[a]);
                }
            }
            assert forall|a: int| 0 <= a < jp.len() implies jp[a] < entries.len() by {
                if a < front.len() {
                    assert(jp[a] == front[a]);
                }
            }
        } else {
            assert(jp == front);
            if j == last {
                if front.contains(j) {
                    let w = choose|w: int| 0 <= w < front.len() && front[w] == j;
                }
            }
        }
    } else {
        if jp.contains(j) {
            let w = choose|w: int| 0 <= w < jp.len() && jp[w] == j;
        }
    }
}

/// Whether `ids` holds `id`.
fn contains_id(ids: &Vec<u64>, id: u64) -> (found: bool)
    ensures
        found == ids@.contains(id),
{
    let mut i: usize = 0;
    while i < ids.len()
        invariant
            i <= ids.len(),
            forall|j: int| 0 <= j < i ==> ids@[j] != id,
        decreases ids.len() - i,
    {
        if ids[i] == id {
            assert(ids@[i as int] == id);
            return true;
        }
        i = i + 1;
    }
    false
}

} // verus!
