//! The key-value commands that clients send and the replicated log orders,
//! and the store that each replica applies decided commands to.
use vstd::prelude::*;
use vstd::hash_map::StringHashMap;

verus! {

/// A key and the value to store under it.
#[derive(Debug)]
pub struct KeyValue {
    pub key: String,
    pub value: String,
}

/// A client command.
#[derive(Debug)]
pub enum KVCommand {
    /// Store the value under the key.
    Put(KeyValue),
    /// Remove the key.
    Delete(String),
    /// Read the value stored under the key.
    Get(String),
    /// Ask the cluster to move to its next configuration.
    Reconfigure(String),
}

impl KVCommand {
    /// A copy of this command.
    pub fn clone_command(&self) -> (c: KVCommand)
        ensures
            c@ == self@,
    {
        match self {
            KVCommand::Put(kv) => KVCommand::Put(KeyValue { key: kv.key.clone(), value: kv.value.clone() }),
            KVCommand::Delete(k) => KVCommand::Delete(k.clone()),
            KVCommand::Get(k) => KVCommand::Get(k.clone()),
            KVCommand::Reconfigure(k) => KVCommand::Reconfigure(k.clone()),
        }
    }
}

/// A command with its strings taken as character sequences.
pub enum CommandView {
    Put(Seq<char>, Seq<char>),
    Delete(Seq<char>),
    Get(Seq<char>),
    Reconfigure(Seq<char>),
}

impl View for KVCommand {
    type V = CommandView;

    open spec fn view(&self) -> CommandView {
        match self {
            KVCommand::Put(kv) => CommandView::Put(kv.key@, kv.value@),
            KVCommand::Delete(k) => CommandView::Delete(k@),
            KVCommand::Get(k) => CommandView::Get(k@),
            KVCommand::Reconfigure(k) => CommandView::Reconfigure(k@),
        }
    }
}

/// The contents of a store: each key with its value.
pub type StoreMap = Map<Seq<char>, Seq<char>>;

/// The value under `key` in `m`, if any.
pub open spec fn lookup(m: StoreMap, key: Seq<char>) -> Option<Seq<char>> {
    if m.contains_key(key) {
        Some(m[key])
    } else {
        None
    }
}

/// The store after applying `cmd` to `m`, and what the command answers:
/// a `Get` answers the value under its key, every other command answers nothing.
pub open spec fn apply_command(m: StoreMap, cmd: CommandView) -> (StoreMap, Option<Seq<char>>) {
    match cmd {
        CommandView::Put(k, v) => (m.insert(k, v), None),
        CommandView::Delete(k) => (m.remove(k), None),
        CommandView::Get(k) => (m, lookup(m, k)),
        CommandView::Reconfigure(_) => (m, None),
    }
}

/// The store after applying `cmds` to `m` in order.
pub open spec fn apply_commands(m: StoreMap, cmds: Seq<CommandView>) -> StoreMap
    decreases cmds.len(),
{
    if cmds.len() == 0 {
        m
    } else {
        apply_commands(apply_command(m, cmds[0]).0, cmds.drop_first())
    }
}

/// An optional string taken as an optional character sequence.
pub open spec fn opt_text(s: Option<String>) -> Option<Seq<char>> {
    match s {
        Some(x) => Some(x@),
        None => None,
    }
}

/// The store that `pairs` fill, in order (a later pair for a key wins).
pub open spec fn stored_map(pairs: Seq<(Seq<char>, Seq<char>)>) -> StoreMap
    decreases pairs.len(),
{
    if pairs.len() == 0 {
        StoreMap::empty()
    } else {
        stored_map(pairs.drop_last()).insert(pairs.last().0, pairs.last().1)
    }
}

/// A store filled from `pairs` holds exactly the keys of the pairs, each with
/// the value of the last pair that has that key.
pub proof fn lemma_stored_map_holds_every_pair(pairs: Seq<(Seq<char>, Seq<char>)>, key: Seq<char>)
    ensures
        stored_map(pairs).contains_key(key) <==> exists|i: int| 0 <= i < pairs.len() && (#[trigger] pairs[i]).0 == key,
        forall|i: int| 0 <= i < pairs.len() && (#[trigger] pairs[i]).0 == key
            && (forall|j: int| i < j < pairs.len() ==> pairs[j].0 != key)
            ==> stored_map(pairs).contains_key(key) && stored_map(pairs)[key] == pairs[i].1,
    decreases pairs.len(),
{
    if pairs.len() > 0 {
        let init = pairs.drop_last();
        let n = pairs.len() - 1;
        lemma_stored_map_holds_every_pair(init, key);
        if pairs[n].0 != key {
            if exists|i: int| 0 <= i < pairs.len() && (#[trigger] pairs[i]).0 == key {
                let w = choose|i: int| 0 <= i < pairs.len() && (#[trigger] pairs[i]).0 == key;
                assert(init[w] == pairs[w]);
            }
            if exists|i: int| 0 <= i < init.len() && (#[trigger] init[i]).0 == key {
                let w = choose|i: int| 0 <= i < init.len() && (#[trigger] init[i]).0 == key;
                assert(pairs[w] == init[w]);
            }
            assert forall|i: int| 0 <= i < pairs.len() && (#[trigger] pairs[i]).0 == key
                && (forall|j: int| i < j < pairs.len() ==> pairs[j].0 != key)
                implies stored_map(pairs).contains_key(key) && stored_map(pairs)[key] == pairs[i].1 by {
                assert(init[i] == pairs[i]);
                assert forall|j: int| i < j < init.len() implies init[j].0 != key by {
                    assert(init[j] == pairs[j]);
                }
            }
        } else {
            assert(pairs[n].0 == key);
        }
    }
}

/// The keys and values of `pairs` as character sequences.
pub open spec fn pair_views(pairs: Seq<KeyValue>) -> Seq<(Seq<char>, Seq<char>)> {
    pairs.map_values(|kv: KeyValue| (kv.key@, kv.value@))
}

/// The key-value data of a replica, and the directory that holds it on disk.
pub struct Database {
    path: String,
    entries: StringHashMap<String>,
}

impl View for Database {
    type V = StoreMap;

    closed spec fn view(&self) -> StoreMap {
        self.entries@.map_values(|v: String| v@)
    }
}

impl Database {
    /// The directory that holds this store on disk.
    pub closed spec fn path_text(&self) -> Seq<char> {
        self.path@
    }

    /// The store kept at `path`, holding the pairs `stored` that were read
    /// back from there.
    pub fn open(path: String, stored: Vec<KeyValue>) -> (db: Database)
        ensures
            db.path_text() == path@,
            db@ == stored_map(pair_views(stored@)),
    {
        let mut entries: StringHashMap<String> = StringHashMap::new();
        let ghost pairs = pair_views(stored@);
        proof {
            assert(entries@.map_values(|v: String| v@) =~= stored_map(pairs.take(0)));
        }
        let n: usize = stored.len();
        let mut i: usize = 0;
        while i < n
            invariant
                n == stored@.len(),
                i <= n,
                pairs == pair_views(stored@),
                entries@.map_values(|v: String| v@) == stored_map(pairs.take(i as int)),
            decreases n - i,
        {
            let ghost before = entries@;
            let key = stored[i].key.clone();
            let value = stored[i].value.clone();
            entries.insert(key, value);
            proof {
                assert(pairs.take(i + 1).drop_last() =~= pairs.take(i as int));
                assert(pairs.take(i + 1).last() == (stored@[i as int].key@, stored@[i as int].value@));
                assert(entries@.map_values(|v: String| v@) =~= before.map_values(|v: String| v@).insert(
                    stored@[i as int].key@,
                    stored@[i as int].value@,
                ));
            }
            i = i + 1;
        }
        let db = Database { path, entries };
        assert(pairs.take(n as int) =~= pairs);
        db
    }

    /// The directory that holds this store on disk.
    pub fn path(&self) -> (p: &String)
        ensures
            p@ == self.path_text(),
    {
        &self.path
    }

    /// Applies `cmd` and answers it: `Put` stores, `Delete` removes, `Get`
    /// answers the value under its key, `Reconfigure` leaves the data as it is.
    pub fn handle_command(&mut self, cmd: KVCommand) -> (answer: Option<String>)
        ensures
            (final(self)@, opt_text(answer)) == apply_command(old(self)@, cmd@),
            final(self).path_text() == old(self).path_text(),
    {
        match cmd {
            KVCommand::Put(kv) => {
                let ghost k = kv.key@;
                let ghost v = kv.value@;
                self.entries.insert(kv.key, kv.value);
                assert(self@ =~= old(self)@.insert(k, v));
                None
            },
            KVCommand::Delete(key) => {
                self.entries.remove(key.as_str());
                assert(self@ =~= old(self)@.remove(key@));
                None
            },
            KVCommand::Get(key) => {
                match self.entries.get(key.as_str()) {
                    Some(v) => Some(v.clone()),
                    None => None,
                }
            },
            KVCommand::Reconfigure(_) => None,
        }
    }
}

/// A read of a key gives back the value last written to it.
pub proof fn lemma_get_after_put(m: StoreMap, key: Seq<char>, value: Seq<char>)
    ensures
        apply_command(apply_command(m, CommandView::Put(key, value)).0, CommandView::Get(key)).1
            == Some(value),
{
}

/// A read of a key that was just deleted gives nothing.
pub proof fn lemma_get_after_delete(m: StoreMap, key: Seq<char>)
    ensures
        apply_command(apply_command(m, CommandView::Delete(key)).0, CommandView::Get(key)).1
            is None,
{
}

/// A read changes nothing, and neither does a reconfiguration request.
pub proof fn lemma_reads_do_not_write(m: StoreMap, key: Seq<char>, request: Seq<char>)
    ensures
        apply_command(m, CommandView::Get(key)).0 == m,
        apply_command(m, CommandView::Reconfigure(request)).0 == m,
{
}

/// A write to one key does not change what a read of another key gives.
pub proof fn lemma_writes_are_per_key(m: StoreMap, cmd: CommandView, other: Seq<char>)
    requires
        cmd matches CommandView::Put(k, _) ==> k != other,
        cmd matches CommandView::Delete(k) ==> k != other,
    ensures
        apply_command(apply_command(m, cmd).0, CommandView::Get(other)).1
            == apply_command(m, CommandView::Get(other)).1,
{
}

/// Applying a log in two batches gives the same store as applying it at once.
pub proof fn lemma_apply_in_batches(m: StoreMap, first: Seq<CommandView>, second: Seq<CommandView>)
    ensures
        apply_commands(m, first + second) == apply_commands(apply_commands(m, first), second),
    decreases first.len(),
{
    if first.len() == 0 {
        assert(first + second =~= second);
    } else {
        assert((first + second).drop_first() =~= first.drop_first() + second);
        lemma_apply_in_batches(apply_command(m, first[0]).0, first.drop_first(), second);
    }
}

} // verus!
