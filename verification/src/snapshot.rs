//! Log compaction for the key-value commands: a snapshot of a run of
//! commands keeps, for each key, only the last write to it, in log order.
//! Applying the snapshot leaves a store as applying the whole run does.
use vstd::prelude::*;
use crate::kv::{apply_command, apply_commands, lookup, CommandView, KVCommand, StoreMap};

verus! {

/// The key that `c` writes, if it is a write.
pub open spec fn write_key(c: CommandView) -> Option<Seq<char>> {
    match c {
        CommandView::Put(k, _) => Some(k),
        CommandView::Delete(k) => Some(k),
        _ => None,
    }
}

/// The last write to `key` in `cmds`, if any.
pub open spec fn last_write(cmds: Seq<CommandView>, key: Seq<char>) -> Option<CommandView>
    decreases cmds.len(),
{
    if cmds.len() == 0 {
        None
    } else if write_key(cmds.last()) == Some(key) {
        Some(cmds.last())
    } else {
        last_write(cmds.drop_last(), key)
    }
}

/// What a read of `key` gives after applying `cmds` to `m`: the value of the
/// last write to it if that write is a put, nothing if it is a delete, and
/// what `m` holds if `cmds` never writes `key`.
pub open spec fn read_after(m: StoreMap, cmds: Seq<CommandView>, key: Seq<char>) -> Option<Seq<char>> {
    match last_write(cmds, key) {
        Some(CommandView::Put(_, v)) => Some(v),
        Some(_) => None,
        None => lookup(m, key),
    }
}

/// Whether `cmds` holds only writes, at most one per key.
pub open spec fn is_compact(cmds: Seq<CommandView>) -> bool {
    &&& forall|i: int| 0 <= i < cmds.len() ==> (#[trigger] write_key(cmds[i])) is Some
    &&& forall|i: int, j: int| 0 <= i < j < cmds.len() ==> #[trigger] write_key(cmds[i]) != #[trigger] write_key(cmds[j])
}

/// Applying a run is applying all but its last command, then the last one.
pub proof fn lemma_apply_last(m: StoreMap, cmds: Seq<CommandView>)
    requires
        cmds.len() > 0,
    ensures
        apply_commands(m, cmds) == apply_command(apply_commands(m, cmds.drop_last()), cmds.last()).0,
{
    crate::kv::lemma_apply_in_batches(m, cmds.drop_last(), seq![cmds.last()]);
    assert(cmds.drop_last() + seq![cmds.last()] =~= cmds);
    let mid = apply_commands(m, cmds.drop_last());
    assert(seq![cmds.last()].drop_first() =~= Seq::<CommandView>::empty());
    assert(apply_commands(apply_command(mid, cmds.last()).0, Seq::<CommandView>::empty())
        == apply_command(mid, cmds.last()).0);
}

/// A read after a run of commands gives what the last write to its key left.
pub proof fn lemma_read_after_commands(m: StoreMap, cmds: Seq<CommandView>, key: Seq<char>)
    ensures
        lookup(apply_commands(m, cmds), key) == read_after(m, cmds, key),
    decreases cmds.len(),
{
    if cmds.len() > 0 {
        lemma_read_after_commands(m, cmds.drop_last(), key);
        lemma_apply_last(m, cmds);
    }
}

/// Two runs with the same last write to every key leave any store the same.
pub proof fn lemma_same_last_writes(m: StoreMap, a: Seq<CommandView>, b: Seq<CommandView>)
    requires
        forall|k: Seq<char>| #[trigger] last_write(a, k) == #[trigger] last_write(b, k),
    ensures
        apply_commands(m, a) == apply_commands(m, b),
{
    let ma = apply_commands(m, a);
    let mb = apply_commands(m, b);
    assert forall|k: Seq<char>| lookup(ma, k) == lookup(mb, k) by {
        lemma_read_after_commands(m, a, k);
        lemma_read_after_commands(m, b, k);
        assert(last_write(a, k) == last_write(b, k));
    }
    assert forall|k: Seq<char>| #[trigger] ma.contains_key(k) == mb.contains_key(k) by {
        assert(lookup(ma, k) == lookup(mb, k));
    }
    assert forall|k: Seq<char>| ma.contains_key(k) implies #[trigger] ma[k] == mb[k] by {
        assert(lookup(ma, k) == lookup(mb, k));
    }
    assert(ma =~= mb);
}

proof fn lemma_last_write_remove(s: Seq<CommandView>, j: int, key: Seq<char>)
    requires
        0 <= j < s.len(),
        write_key(s[j]) != Some(key),
    ensures
        last_write(s.remove(j), key) == last_write(s, key),
    decreases s.len(),
{
    if j == s.len() - 1 {
        assert(s.remove(j) =~= s.drop_last());
    } else {
        assert(s.remove(j).drop_last() =~= s.drop_last().remove(j));
        assert(s.remove(j).last() == s.last());
        lemma_last_write_remove(s.drop_last(), j, key);
    }
}

proof fn lemma_last_write_none(s: Seq<CommandView>, key: Seq<char>)
    requires
        forall|i: int| 0 <= i < s.len() ==> #[trigger] write_key(s[i]) != Some(key),
    ensures
        last_write(s, key) is None,
    decreases s.len(),
{
    if s.len() > 0 {
        assert(write_key(s[s.len() - 1]) != Some(key));
        lemma_last_write_none(s.drop_last(), key);
    }
}

/// The writes of `cmds` that no later command of `cmds` overwrites or
/// deletes, in log order.
pub open spec fn squashed(cmds: Seq<CommandView>) -> Seq<CommandView>
    decreases cmds.len(),
{
    if cmds.len() == 0 {
        Seq::empty()
    } else {
        let rest = squashed(cmds.drop_first());
        match write_key(cmds[0]) {
            Some(k) => if last_write(cmds.drop_first(), k) is None {
                seq![cmds[0]] + rest
            } else {
                rest
            },
            None => rest,
        }
    }
}

/// `cmds` without the writes to `key`.
pub open spec fn without_key(cmds: Seq<CommandView>, key: Seq<char>) -> Seq<CommandView>
    decreases cmds.len(),
{
    if cmds.len() == 0 {
        Seq::empty()
    } else if write_key(cmds[0]) == Some(key) {
        without_key(cmds.drop_first(), key)
    } else {
        seq![cmds[0]] + without_key(cmds.drop_first(), key)
    }
}

proof fn lemma_last_write_push(s: Seq<CommandView>, c: CommandView, key: Seq<char>)
    ensures
        last_write(s.push(c), key) == if write_key(c) == Some(key) { Some(c) } else { last_write(s, key) },
{
    assert(s.push(c).drop_last() =~= s);
}

proof fn lemma_squashed_push(p: Seq<CommandView>, c: CommandView)
    ensures
        squashed(p.push(c)) == match write_key(c) {
            Some(k) => without_key(squashed(p), k).push(c),
            None => squashed(p),
        },
    decreases p.len(),
{
    let q = p.push(c);
    if p.len() == 0 {
        assert(q.drop_first() =~= Seq::<CommandView>::empty());
        assert(q[0] == c);
        assert(squashed(p) =~= Seq::<CommandView>::empty());
        assert(squashed(Seq::<CommandView>::empty()) =~= Seq::<CommandView>::empty());
        match write_key(c) {
            Some(k) => {
                assert(last_write(Seq::<CommandView>::empty(), k) is None);
                assert(without_key(Seq::<CommandView>::empty(), k) =~= Seq::<CommandView>::empty());
                assert(seq![c] + Seq::<CommandView>::empty() =~= Seq::<CommandView>::empty().push(c));
            },
            None => {},
        }
    } else {
        let p1 = p.drop_first();
        let p0 = p[0];
        assert(q.drop_first() =~= p1.push(c));
        assert(q[0] == p0);
        lemma_squashed_push(p1, c);
        let r = squashed(p1);
        let r2 = squashed(p1.push(c));
        match write_key(p0) {
            Some(kx) => {
                lemma_last_write_push(p1, c, kx);
                let kept_in_p = last_write(p1, kx) is None;
                let kept_in_q = last_write(p1.push(c), kx) is None;
                assert(squashed(q) == if kept_in_q { seq![p0] + r2 } else { r2 });
                assert(squashed(p) == if kept_in_p { seq![p0] + r } else { r });
                match write_key(c) {
                    Some(k) => {
                        let w = without_key(r, k);
                        assert(r2 == w.push(c));
                        if kept_in_p {
                            let pr = seq![p0] + r;
                            assert(pr[0] == p0);
                            assert(pr.drop_first() =~= r);
                            if kx == k {
                                assert(!kept_in_q);
                                assert(without_key(pr, k) == w);
                            } else {
                                assert(kept_in_q);
                                assert(without_key(pr, k) == seq![p0] + w);
                                assert(seq![p0] + w.push(c) =~= (seq![p0] + w).push(c));
                            }
                        } else {
                            assert(!kept_in_q);
                        }
                    },
                    None => {
                        assert(kept_in_p == kept_in_q);
                    },
                }
            },
            None => {
                assert(squashed(q) == r2);
                assert(squashed(p) == r);
            },
        }
    }
}

proof fn lemma_without_absent_key(s: Seq<CommandView>, key: Seq<char>)
    requires
        forall|i: int| 0 <= i < s.len() ==> #[trigger] write_key(s[i]) != Some(key),
    ensures
        without_key(s, key) == s,
    decreases s.len(),
{
    if s.len() > 0 {
        assert(write_key(s[0]) != Some(key));
        let s1 = s.drop_first();
        assert forall|i: int| 0 <= i < s1.len() implies #[trigger] write_key(s1[i]) != Some(key) by {
            assert(s1[i] == s[i + 1]);
        }
        lemma_without_absent_key(s1, key);
        assert(seq![s[0]] + s1 =~= s);
    }
}

proof fn lemma_without_single_key(s: Seq<CommandView>, j: int, key: Seq<char>)
    requires
        0 <= j < s.len(),
        write_key(s[j]) == Some(key),
        forall|i: int| 0 <= i < s.len() && i != j ==> #[trigger] write_key(s[i]) != Some(key),
    ensures
        without_key(s, key) == s.remove(j),
    decreases s.len(),
{
    let s1 = s.drop_first();
    if j == 0 {
        assert forall|i: int| 0 <= i < s1.len() implies #[trigger] write_key(s1[i]) != Some(key) by {
            assert(s1[i] == s[i + 1]);
        }
        lemma_without_absent_key(s1, key);
        assert(s.remove(0) =~= s1);
    } else {
        assert(write_key(s[0]) != Some(key));
        assert forall|i: int| 0 <= i < s1.len() && i != j - 1 implies #[trigger] write_key(s1[i]) != Some(key) by {
            assert(s1[i] == s[i + 1]);
        }
        assert(s1[j - 1] == s[j]);
        lemma_without_single_key(s1, j - 1, key);
        assert(seq![s[0]] + s1.remove(j - 1) =~= s.remove(j));
    }
}

/// The writes among `cmds`, in log order.
pub open spec fn writes_of(cmds: Seq<CommandView>) -> Seq<CommandView>
    decreases cmds.len(),
{
    if cmds.len() == 0 {
        Seq::empty()
    } else if write_key(cmds.last()) is Some {
        writes_of(cmds.drop_last()).push(cmds.last())
    } else {
        writes_of(cmds.drop_last())
    }
}

proof fn lemma_writes_of_last_write(cmds: Seq<CommandView>, key: Seq<char>)
    ensures
        last_write(writes_of(cmds), key) == last_write(cmds, key),
    decreases cmds.len(),
{
    if cmds.len() > 0 {
        lemma_writes_of_last_write(cmds.drop_last(), key);
        if write_key(cmds.last()) is Some {
            lemma_last_write_push(writes_of(cmds.drop_last()), cmds.last(), key);
        }
    }
}

/// Replaying only the writes of a run of commands leaves a store as the
/// whole run does: a store kept on disk by its writes holds what the
/// replica holds.
pub proof fn lemma_writes_reproduce_store(m: StoreMap, cmds: Seq<CommandView>)
    ensures
        apply_commands(m, writes_of(cmds)) == apply_commands(m, cmds),
{
    assert forall|k: Seq<char>| #[trigger] last_write(writes_of(cmds), k) == #[trigger] last_write(cmds, k) by {
        lemma_writes_of_last_write(cmds, k);
    }
    lemma_same_last_writes(m, writes_of(cmds), cmds);
}

proof fn lemma_last_write_prepend(a: CommandView, y: Seq<CommandView>, key: Seq<char>)
    ensures
        last_write(seq![a] + y, key) == if last_write(y, key) is Some {
            last_write(y, key)
        } else if write_key(a) == Some(key) {
            Some(a)
        } else {
            None
        },
    decreases y.len(),
{
    let z = seq![a] + y;
    if y.len() == 0 {
        assert(z.last() == a);
        assert(z.drop_last() =~= Seq::<CommandView>::empty());
    } else {
        assert(z.last() == y.last());
        assert(z.drop_last() =~= seq![a] + y.drop_last());
        lemma_last_write_prepend(a, y.drop_last(), key);
    }
}

proof fn lemma_without_key_last_write(x: Seq<CommandView>, dropped: Seq<char>, key: Seq<char>)
    requires
        dropped != key,
    ensures
        last_write(without_key(x, dropped), key) == last_write(x, key),
    decreases x.len(),
{
    if x.len() > 0 {
        let x1 = x.drop_first();
        assert(x =~= seq![x[0]] + x1);
        lemma_without_key_last_write(x1, dropped, key);
        lemma_last_write_prepend(x[0], x1, key);
        if write_key(x[0]) != Some(dropped) {
            lemma_last_write_prepend(x[0], without_key(x1, dropped), key);
        }
    }
}

/// Squashing keeps the last write to every key.
pub proof fn lemma_squashed_last_write(s: Seq<CommandView>, key: Seq<char>)
    ensures
        last_write(squashed(s), key) == last_write(s, key),
    decreases s.len(),
{
    if s.len() > 0 {
        let p = s.drop_last();
        let c = s.last();
        assert(p.push(c) =~= s);
        lemma_squashed_last_write(p, key);
        lemma_squashed_push(p, c);
        lemma_last_write_push(p, c, key);
        match write_key(c) {
            Some(kc) => {
                lemma_last_write_push(without_key(squashed(p), kc), c, key);
                if kc != key {
                    lemma_without_key_last_write(squashed(p), kc, key);
                }
            },
            None => {},
        }
    }
}

proof fn lemma_no_write_in_prefix(s: Seq<CommandView>, i: int, key: Seq<char>)
    requires
        0 <= i <= s.len(),
        last_write(s, key) is None,
    ensures
        last_write(s.take(i), key) is None,
    decreases s.len(),
{
    if i < s.len() {
        assert(s.drop_last().take(i) =~= s.take(i));
        lemma_no_write_in_prefix(s.drop_last(), i, key);
    } else {
        assert(s.take(i) =~= s);
    }
}

/// Applying the snapshot of a run to a store that has already applied any
/// prefix of that run leaves it as applying the whole run would.
pub proof fn lemma_snapshot_after_prefix(m: StoreMap, s: Seq<CommandView>, i: int)
    requires
        0 <= i <= s.len(),
    ensures
        apply_commands(apply_commands(m, s.take(i)), squashed(s)) == apply_commands(m, s),
{
    let mi = apply_commands(m, s.take(i));
    let ma = apply_commands(mi, squashed(s));
    let mb = apply_commands(m, s);
    assert forall|k: Seq<char>| lookup(ma, k) == lookup(mb, k) by {
        lemma_read_after_commands(mi, squashed(s), k);
        lemma_read_after_commands(m, s, k);
        lemma_squashed_last_write(s, k);
        if last_write(s, k) is None {
            lemma_no_write_in_prefix(s, i, k);
            lemma_read_after_commands(m, s.take(i), k);
        }
    }
    assert forall|k: Seq<char>| #[trigger] ma.contains_key(k) == mb.contains_key(k) by {
        assert(lookup(ma, k) == lookup(mb, k));
    }
    assert forall|k: Seq<char>| ma.contains_key(k) implies #[trigger] ma[k] == mb[k] by {
        assert(lookup(ma, k) == lookup(mb, k));
    }
    assert(ma =~= mb);
}

/// The key that `cmd` writes, if it is a write.
fn written_key(cmd: &KVCommand) -> (key: Option<&String>)
    ensures
        match key {
            Some(k) => write_key(cmd@) == Some(k@),
            None => write_key(cmd@) is None,
        },
{
    match cmd {
        KVCommand::Put(kv) => Some(&kv.key),
        KVCommand::Delete(k) => Some(k),
        _ => None,
    }
}

/// The views of the commands of `cmds`.
pub open spec fn command_views(cmds: Seq<KVCommand>) -> Seq<CommandView> {
    cmds.map_values(|c: KVCommand| c@)
}

/// The last write to each key of `cmds`, in log order; reads and
/// reconfiguration requests are dropped.
pub fn squash(cmds: &Vec<KVCommand>) -> (out: Vec<KVCommand>)
    ensures
        command_views(out@) == squashed(command_views(cmds@)),
        is_compact(command_views(out@)),
        forall|k: Seq<char>| #[trigger] last_write(command_views(out@), k) == last_write(command_views(cmds@), k),
{
    let mut out: Vec<KVCommand> = Vec::new();
    let mut i: usize = 0;
    let ghost src = command_views(cmds@);
    while i < cmds.len()
        invariant
            i <= cmds.len(),
            src == command_views(cmds@),
            is_compact(command_views(out@)),
            command_views(out@) == squashed(src.take(i as int)),
            forall|k: Seq<char>| #[trigger] last_write(command_views(out@), k) == last_write(src.take(i as int), k),
        decreases cmds.len() - i,
    {
        let ghost before = command_views(out@);
        proof {
            assert(src.take(i + 1).drop_last() =~= src.take(i as int));
            assert(src.take(i + 1).last() == cmds@[i as int]@);
            assert(src.take(i + 1) =~= src.take(i as int).push(cmds@[i as int]@));
            lemma_squashed_push(src.take(i as int), cmds@[i as int]@);
        }
        match written_key(&cmds[i]) {
            None => {
                assert forall|k: Seq<char>| #[trigger] last_write(command_views(out@), k) == last_write(src.take(i + 1), k) by {
                    assert(last_write(src.take(i + 1), k) == last_write(src.take(i as int), k));
                }
            },
            Some(key) => {
                let ghost kv = key@;
                let mut j: usize = 0;
                let mut found = false;
                while j < out.len()
                    invariant_except_break
                        !found,
                    invariant
                        j <= out.len(),
                        kv == key@,
                        before == command_views(out@),
                        forall|x: int| 0 <= x < j ==> write_key(#[trigger] before[x]) != Some(kv),
                    ensures
                        j <= out.len(),
                        before == command_views(out@),
                        found ==> j < out.len() && write_key(before[j as int]) == Some(kv),
                        !found ==> forall|x: int| 0 <= x < out.len() ==> write_key(#[trigger] before[x]) != Some(kv),
                    decreases out.len() - j,
                {
                    assert(before[j as int] == out@[j as int]@);
                    match written_key(&out[j]) {
                        Some(k2) => {
                            if <String as PartialEq>::eq(k2, key) {
                                found = true;
                                break;
                            }
                        },
                        None => {},
                    }
                    j = j + 1;
                }
                let c = cmds[i].clone_command();
                if found {
                    out.remove(j);
                    proof {
                        assert(command_views(out@) =~= before.remove(j as int));
                        assert forall|x: int| 0 <= x < before.len() && x != j implies #[trigger] write_key(before[x]) != Some(kv) by {
                            if x < j {
                                assert(write_key(before[x]) != write_key(before[j as int]));
                            } else {
                                assert(write_key(before[j as int]) != write_key(before[x]));
                            }
                        }
                        lemma_without_single_key(before, j as int, kv);
                        assert forall|k: Seq<char>| k != kv implies #[trigger] last_write(command_views(out@), k) == last_write(before, k) by {
                            lemma_last_write_remove(before, j as int, k);
                        }
                        assert forall|x: int| 0 <= x < out@.len() implies write_key(#[trigger] command_views(out@)[x]) != Some(kv) by {
                            if x < j {
                                assert(command_views(out@)[x] == before[x]);
                                assert(write_key(before[x]) != write_key(before[j as int]));
                            } else {
                                assert(command_views(out@)[x] == before[x + 1]);
                                assert(write_key(before[j as int]) != write_key(before[x + 1]));
                            }
                        }
                    }
                }
                let ghost mid = command_views(out@);
                proof {
                    if !found {
                        lemma_without_absent_key(before, kv);
                    }
                    assert(mid == without_key(before, kv));
                    assert forall|k: Seq<char>| k != kv implies #[trigger] last_write(mid, k) == last_write(src.take(i as int), k) by {
                        if !found {
                            assert(mid == before);
                        }
                    }
                    assert forall|x: int| 0 <= x < mid.len() implies write_key(#[trigger] mid[x]) != Some(kv) by {
                        if !found {
                            assert(mid == before);
                        }
                    }
                    assert forall|x: int, y: int| 0 <= x < y < mid.len() implies #[trigger] write_key(mid[x]) != #[trigger] write_key(mid[y]) by {
                        if found {
                            let bx = if x < j { x } else { x + 1 };
                            let by_ = if y < j { y } else { y + 1 };
                            assert(mid[x] == before[bx]);
                            assert(mid[y] == before[by_]);
                        }
                    }
                    assert forall|x: int| 0 <= x < mid.len() implies (#[trigger] write_key(mid[x])) is Some by {
                        if found {
                            if x < j {
                                assert(mid[x] == before[x]);
                            } else {
                                assert(mid[x] == before[x + 1]);
                            }
                        }
                    }
                }
                out.push(c);
                proof {
                    let now = command_views(out@);
                    assert(now =~= mid.push(c@));
                    assert(now.drop_last() =~= mid);
                    assert(write_key(c@) == Some(kv));
                    assert(now == without_key(before, kv).push(c@));
                    assert(now.last() == c@);
                    assert(src.take(i + 1).last() == c@);
                    assert forall|k: Seq<char>| #[trigger] last_write(now, k) == last_write(src.take(i + 1), k) by {
                        if k != kv {
                            assert(last_write(src.take(i + 1), k) == last_write(src.take(i as int), k));
                            assert(last_write(now, k) == last_write(mid, k));
                            assert(last_write(mid, k) == last_write(src.take(i as int), k));
                        } else {
                            assert(last_write(now, k) == Some(c@));
                            assert(write_key(src.take(i + 1).last()) == Some(kv));
                        }
                    }
                    assert forall|x: int, y: int| 0 <= x < y < now.len() implies #[trigger] write_key(now[x]) != #[trigger] write_key(now[y]) by {
                        if y == now.len() - 1 {
                            assert(now[x] == mid[x]);
                        } else {
                            assert(now[x] == mid[x]);
                            assert(now[y] == mid[y]);
                        }
                    }
                    assert forall|x: int| 0 <= x < now.len() implies (#[trigger] write_key(now[x])) is Some by {
                        if x < mid.len() {
                            assert(now[x] == mid[x]);
                        }
                    }
                }
            },
        }
        i = i + 1;
    }
    assert(src.take(cmds.len() as int) =~= src);
    out
}

/// A compacted run of commands: the last write to each key, in log order.
#[derive(Debug)]
pub struct KvSnapshot {
    writes: Vec<KVCommand>,
}

impl View for KvSnapshot {
    type V = Seq<CommandView>;

    closed spec fn view(&self) -> Seq<CommandView> {
        command_views(self.writes@)
    }
}

impl KvSnapshot {
    /// The snapshot of the commands `entries`: it holds at most one write per
    /// key and leaves every store as applying `entries` would.
    pub fn create(entries: &Vec<KVCommand>) -> (snap: KvSnapshot)
        ensures
            snap@ == squashed(command_views(entries@)),
            is_compact(snap@),
            forall|k: Seq<char>| #[trigger] last_write(snap@, k) == last_write(command_views(entries@), k),
            forall|m: StoreMap| #[trigger] apply_commands(m, snap@) == apply_commands(m, command_views(entries@)),
    {
        let snap = KvSnapshot { writes: squash(entries) };
        assert forall|m: StoreMap| #[trigger] apply_commands(m, snap@) == apply_commands(m, command_views(entries@)) by {
            lemma_same_last_writes(m, snap@, command_views(entries@));
        }
        snap
    }

    /// Folds the later snapshot `delta` into this one: the result leaves
    /// every store as applying this snapshot and then `delta` would.
    pub fn merge(&mut self, delta: KvSnapshot)
        ensures
            final(self)@ == squashed(old(self)@ + delta@),
            is_compact(final(self)@),
            forall|k: Seq<char>| #[trigger] last_write(final(self)@, k) == last_write(old(self)@ + delta@, k),
            forall|m: StoreMap| #[trigger] apply_commands(m, final(self)@)
                == apply_commands(apply_commands(m, old(self)@), delta@),
    {
        let mut all = Vec::new();
        all.append(&mut self.writes);
        let mut rest = delta.writes;
        all.append(&mut rest);
        let ghost joined = old(self)@ + delta@;
        assert(command_views(all@) =~= joined);
        self.writes = squash(&all);
        assert forall|m: StoreMap| #[trigger] apply_commands(m, self@)
            == apply_commands(apply_commands(m, old(self)@), delta@) by {
            lemma_same_last_writes(m, self@, joined);
            crate::kv::lemma_apply_in_batches(m, old(self)@, delta@);
        }
    }

    /// A snapshot made of the writes `writes` (as received from a peer),
    /// compacted.
    pub fn from_writes(writes: Vec<KVCommand>) -> (snap: KvSnapshot)
        ensures
            snap@ == squashed(command_views(writes@)),
            is_compact(snap@),
            forall|m: StoreMap| #[trigger] apply_commands(m, snap@) == apply_commands(m, command_views(writes@)),
    {
        KvSnapshot::create(&writes)
    }

    /// The writes that this snapshot holds, in log order.
    pub fn writes(&self) -> (w: &Vec<KVCommand>)
        ensures
            command_views(w@) == self@,
    {
        &self.writes
    }
}

} // verus!
