use vstd::prelude::*;
use crate::domain::{Content, DTWrapper, epoch_millis_of};

verus! {

/// The kind of lifecycle event a log entry records.
#[derive(Clone, Copy, Debug, PartialEq, Eq, Structural)]
pub enum EntryType {
    Create,
    Update,
    Delete,
}

/// A single entry in the change log: when it was recorded, what kind of
/// event it is, which object it is about, and a snapshot of that object's
/// marshalled content (empty for a deletion).
#[derive(Clone, Debug)]
pub struct LogEntry {
    pub time: String,
    pub entry_type: EntryType,
    pub obj_id: String,
    pub data: String,
}

impl LogEntry {
    /// Stamps a fresh entry with the current time, an RFC 3339 string.
    pub fn new(entry_type: EntryType, obj_id: String, data: String) -> (r: LogEntry)
        ensures
            r.entry_type == entry_type,
            r.obj_id == obj_id,
            r.data == data,
            epoch_millis_of(r.time@) is Some,
    {
        LogEntry { time: DTWrapper::now_rfc3339(), entry_type, obj_id, data }
    }
}

/// Failure of recording an entry.
#[derive(Clone, Copy, Debug, PartialEq, Eq, Structural)]
pub enum LogError {
    /// The object's own marshalling failed; nothing was recorded.
    MarshalFailed,
}

/// How many entries of `s` have kind `t`.
pub open spec fn count_type(s: Seq<LogEntry>, t: EntryType) -> nat
    decreases s.len(),
{
    if s.len() == 0 {
        0
    } else {
        count_type(s.drop_last(), t) + (if s.last().entry_type == t {
            1nat
        } else {
            0nat
        })
    }
}

/// How many entries of `s` are about the object `id`.
pub open spec fn count_for_id(s: Seq<LogEntry>, id: Seq<char>) -> nat
    decreases s.len(),
{
    if s.len() == 0 {
        0
    } else {
        count_for_id(s.drop_last(), id) + (if s.last().obj_id@ == id {
            1nat
        } else {
            0nat
        })
    }
}

/// Whether `s` holds any entry about the object `id`.
pub open spec fn has_entry_for(s: Seq<LogEntry>, id: Seq<char>) -> bool {
    exists|i: int| 0 <= i < s.len() && s[i].obj_id@ == id
}

/// Whether `s` holds a still-unflushed creation of the object `id`.
pub open spec fn has_create_for(s: Seq<LogEntry>, id: Seq<char>) -> bool {
    exists|i: int|
        0 <= i < s.len() && s[i].obj_id@ == id && s[i].entry_type == EntryType::Create
}

/// `s` with every entry about the object `id` removed, order kept.
pub open spec fn without_id(s: Seq<LogEntry>, id: Seq<char>) -> Seq<LogEntry>
    decreases s.len(),
{
    if s.len() == 0 {
        Seq::empty()
    } else if s.last().obj_id@ == id {
        without_id(s.drop_last(), id)
    } else {
        without_id(s.drop_last(), id).push(s.last())
    }
}

/// The kind of entry that recording an object with identifier `id` and
/// synchronization flag `sync` gets, given the log contents `s`: a first
/// record of an unsynchronised object announces a creation; a first record
/// of an already synchronised object must not re-announce it; later records
/// stay creations for as long as an unflushed creation is in the log.
pub open spec fn classify(s: Seq<LogEntry>, id: Seq<char>, sync: bool) -> EntryType {
    if !has_entry_for(s, id) {
        if sync {
            EntryType::Update
        } else {
            EntryType::Create
        }
    } else if has_create_for(s, id) {
        EntryType::Create
    } else {
        EntryType::Update
    }
}

/// The relation between the log contents before and after one successful
/// `add_entry` for an object with identifier `id`, synchronization flag
/// `sync` and marshalled content `data`: the new entry is classified by
/// `classify`; a creation first sweeps out every older entry for the same
/// object; the entry's timestamp is whatever the clock gave.
pub open spec fn log_step(
    pre: Seq<LogEntry>,
    post: Seq<LogEntry>,
    id: Seq<char>,
    sync: bool,
    data: Seq<char>,
) -> bool {
    let t = classify(pre, id, sync);
    let base = if t == EntryType::Create {
        without_id(pre, id)
    } else {
        pre
    };
    &&& post.len() == base.len() + 1
    &&& post.drop_last() == base
    &&& post.last().entry_type == t
    &&& post.last().obj_id@ == id
    &&& post.last().data@ == data
}

/// A device's replayable record of per-object lifecycle events. It owns its
/// entries exclusively; recording a creation coalesces away every older
/// entry for the same object.
#[derive(Debug)]
pub struct Log {
    pub data: Vec<LogEntry>,
}

impl Log {
    /// An empty log.
    pub fn new() -> (r: Log)
        ensures
            r.data@ == Seq::<LogEntry>::empty(),
    {
        Log { data: Vec::new() }
    }

    /// How many entries the log holds.
    pub fn len(&self) -> (r: usize)
        ensures
            r == self.data@.len(),
    {
        self.data.len()
    }

    /// How many entries of the given kind the log holds.
    fn count_entry_type(&self, t: EntryType) -> (r: usize)
        ensures
            r == count_type(self.data@, t),
    {
        let mut n: usize = 0;
        let mut i: usize = 0;
        while i < self.data.len()
            invariant
                i <= self.data@.len(),
                n == count_type(self.data@.take(i as int), t),
                n <= i,
            decreases self.data@.len() - i,
        {
            proof {
                assert(self.data@.take(i as int + 1).drop_last() =~= self.data@.take(i as int));
                assert(self.data@.take(i as int + 1).last() == self.data@[i as int]);
            }
            if self.data[i].entry_type == t {
                n += 1;
            }
            i += 1;
        }
        proof {
            assert(self.data@.take(self.data@.len() as int) =~= self.data@);
        }
        n
    }

    /// How many creations the log holds.
    pub fn count_creates(&self) -> (r: usize)
        ensures
            r == count_type(self.data@, EntryType::Create),
    {
        self.count_entry_type(EntryType::Create)
    }

    /// How many updates the log holds.
    pub fn count_updates(&self) -> (r: usize)
        ensures
            r == count_type(self.data@, EntryType::Update),
    {
        self.count_entry_type(EntryType::Update)
    }

    /// How many deletions the log holds.
    pub fn count_removes(&self) -> (r: usize)
        ensures
            r == count_type(self.data@, EntryType::Delete),
    {
        self.count_entry_type(EntryType::Delete)
    }

    /// Records one lifecycle event for `content`, classifying it and
    /// coalescing the log as [`log_step`] states. A marshalling failure is
    /// reported and leaves the log untouched.
    pub fn add_entry<C: Content>(&mut self, content: C) -> (r: Result<(), LogError>)
        ensures
            !C::marshal_ok(content@) ==> r == Result::<(), LogError>::Err(LogError::MarshalFailed)
                && final(self).data@ == old(self).data@,
            C::marshal_ok(content@) ==> r is Ok && log_step(
                old(self).data@,
                final(self).data@,
                content.id_spec(),
                content.sync_spec(),
                C::marshal_spec(content@),
            ),
    {
        let id = content.get_id();
        let payload = match content.marshal() {
            Ok(s) => s,
            Err(_) => {
                return Err(LogError::MarshalFailed);
            },
        };
        let ghost pre = self.data@;

        let mut seen: bool = false;
        let mut seen_create: bool = false;
        let mut i: usize = 0;
        while i < self.data.len()
            invariant
                i <= self.data@.len(),
                id@ == content.id_spec(),
                seen == exists|k: int| 0 <= k < i && self.data@[k].obj_id@ == id@,
                seen_create == exists|k: int|
                    0 <= k < i && self.data@[k].obj_id@ == id@ && self.data@[k].entry_type
                        == EntryType::Create,
            decreases self.data@.len() - i,
        {
            if self.data[i].obj_id == id {
                seen = true;
                if self.data[i].entry_type == EntryType::Create {
                    seen_create = true;
                }
            }
            i += 1;
        }
        proof {
            assert(seen == has_entry_for(pre, id@));
            assert(seen_create == has_create_for(pre, id@));
        }

        let t = if !seen {
            if content.is_synchronised() {
                EntryType::Update
            } else {
                EntryType::Create
            }
        } else if seen_create {
            EntryType::Create
        } else {
            EntryType::Update
        };
        proof {
            assert(t == classify(pre, id@, content.sync_spec()));
        }

        if t == EntryType::Create {
            let ghost mut j: int = 0;
            let mut pos: usize = 0;
            while pos < self.data.len()
                invariant
                    0 <= j <= pre.len(),
                    pos == without_id(pre.take(j), id@).len(),
                    self.data@ =~= without_id(pre.take(j), id@) + pre.skip(j),
                    id@ == content.id_spec(),
                decreases pre.len() - j,
            {
                proof {
                    assert(self.data@[pos as int] == pre[j]);
                    assert(pre.take(j + 1).drop_last() =~= pre.take(j));
                    assert(pre.take(j + 1).last() == pre[j]);
                }
                if self.data[pos].obj_id == id {
                    let _ = self.data.remove(pos);
                    proof {
                        assert(self.data@ =~= without_id(pre.take(j + 1), id@) + pre.skip(j + 1));
                    }
                } else {
                    pos += 1;
                    proof {
                        assert(self.data@ =~= without_id(pre.take(j + 1), id@) + pre.skip(j + 1));
                    }
                }
                proof {
                    j = j + 1;
                }
            }
            proof {
                assert(pre.take(pre.len() as int) =~= pre);
                assert(self.data@ =~= without_id(pre, id@));
            }
        }

        let entry = LogEntry::new(t, id, payload);
        self.data.push(entry);
        proof {
            assert(self.data@.drop_last() =~= if t == EntryType::Create {
                without_id(pre, id@)
            } else {
                pre
            });
        }
        Ok(())
    }
}


/// A log without entries for `id` is untouched by sweeping `id` out.
proof fn lemma_without_id_no_entry(s: Seq<LogEntry>, id: Seq<char>)
    requires
        !has_entry_for(s, id),
    ensures
        without_id(s, id) == s,
    decreases s.len(),
{
    if s.len() > 0 {
        assert(forall|i: int| 0 <= i < s.len() - 1 ==> s.drop_last()[i] == s[i]);
        lemma_without_id_no_entry(s.drop_last(), id);
        assert(without_id(s, id) == s.drop_last().push(s.last()));
        assert(s.drop_last().push(s.last()) =~= s);
    }
}

/// A log without entries for `id` counts none for it.
proof fn lemma_count_for_id_no_entry(s: Seq<LogEntry>, id: Seq<char>)
    requires
        !has_entry_for(s, id),
    ensures
        count_for_id(s, id) == 0,
    decreases s.len(),
{
    if s.len() > 0 {
        assert(forall|i: int| 0 <= i < s.len() - 1 ==> s.drop_last()[i] == s[i]);
        lemma_count_for_id_no_entry(s.drop_last(), id);
    }
}


/// How many entries of `s` are about the object `id` and have kind `t`.
pub open spec fn count_for_id_type(s: Seq<LogEntry>, id: Seq<char>, t: EntryType) -> nat
    decreases s.len(),
{
    if s.len() == 0 {
        0
    } else {
        count_for_id_type(s.drop_last(), id, t) + (if s.last().obj_id@ == id
            && s.last().entry_type == t {
            1nat
        } else {
            0nat
        })
    }
}

/// Sweeping out an object's entries shortens the log by exactly their
/// number.
proof fn lemma_without_id_len(s: Seq<LogEntry>, id: Seq<char>)
    ensures
        without_id(s, id).len() + count_for_id(s, id) == s.len(),
    decreases s.len(),
{
    if s.len() > 0 {
        lemma_without_id_len(s.drop_last(), id);
    }
}

/// After sweeping an object out, the log counts nothing for it.
proof fn lemma_without_id_clean(s: Seq<LogEntry>, id: Seq<char>)
    ensures
        count_for_id(without_id(s, id), id) == 0,
    decreases s.len(),
{
    if s.len() > 0 {
        lemma_without_id_clean(s.drop_last(), id);
        if s.last().obj_id@ != id {
            let w = without_id(s.drop_last(), id);
            assert(w.push(s.last()).drop_last() =~= w);
        }
    }
}

/// Sweeping an object out removes exactly its entries of each kind.
proof fn lemma_count_type_without_id(s: Seq<LogEntry>, id: Seq<char>, t: EntryType)
    ensures
        count_type(without_id(s, id), t) + count_for_id_type(s, id, t) == count_type(s, t),
    decreases s.len(),
{
    if s.len() > 0 {
        lemma_count_type_without_id(s.drop_last(), id, t);
        if s.last().obj_id@ != id {
            let w = without_id(s.drop_last(), id);
            assert(w.push(s.last()).drop_last() =~= w);
        }
    }
}

/// Every entry about an object has exactly one of the three kinds.
proof fn lemma_count_for_id_type_total(s: Seq<LogEntry>, id: Seq<char>)
    ensures
        count_for_id_type(s, id, EntryType::Create) + count_for_id_type(s, id, EntryType::Update)
            + count_for_id_type(s, id, EntryType::Delete) == count_for_id(s, id),
    decreases s.len(),
{
    if s.len() > 0 {
        lemma_count_for_id_type_total(s.drop_last(), id);
    }
}

/// An unflushed creation shows up in the creation count.
proof fn lemma_has_create_count(s: Seq<LogEntry>, id: Seq<char>)
    requires
        has_create_for(s, id),
    ensures
        count_for_id_type(s, id, EntryType::Create) >= 1,
    decreases s.len(),
{
    let i = choose|i: int|
        0 <= i < s.len() && s[i].obj_id@ == id && s[i].entry_type == EntryType::Create;
    if i < s.len() - 1 {
        assert(s.drop_last()[i] == s[i]);
        lemma_has_create_count(s.drop_last(), id);
    }
}

/// Law — creation announcements are idempotent. While an object's one and
/// only entry is an unflushed creation (as any number of prior records of
/// the still-unsynchronised object leave it), recording the object again,
/// in whatever mutated state, replaces that entry by a single creation
/// holding the latest content: the log's length and all per-kind counts
/// are unchanged.
pub proof fn lemma_create_reannouncement(
    s: Seq<LogEntry>,
    s1: Seq<LogEntry>,
    id: Seq<char>,
    d: Seq<char>,
)
    requires
        count_for_id(s, id) == 1,
        has_create_for(s, id),
        log_step(s, s1, id, false, d),
    ensures
        s1.len() == s.len(),
        count_for_id(s1, id) == 1,
        has_create_for(s1, id),
        s1.last().entry_type == EntryType::Create,
        s1.last().data@ == d,
        count_type(s1, EntryType::Create) == count_type(s, EntryType::Create),
        count_type(s1, EntryType::Update) == count_type(s, EntryType::Update),
        count_type(s1, EntryType::Delete) == count_type(s, EntryType::Delete),
{
    let w = choose|i: int|
        0 <= i < s.len() && s[i].obj_id@ == id && s[i].entry_type == EntryType::Create;
    assert(has_entry_for(s, id));
    assert(classify(s, id, false) == EntryType::Create);
    lemma_has_create_count(s, id);
    lemma_count_for_id_type_total(s, id);
    assert(count_for_id_type(s, id, EntryType::Create) == 1);
    assert(count_for_id_type(s, id, EntryType::Update) == 0);
    assert(count_for_id_type(s, id, EntryType::Delete) == 0);
    let base = without_id(s, id);
    lemma_without_id_len(s, id);
    lemma_without_id_clean(s, id);
    lemma_count_type_without_id(s, id, EntryType::Create);
    lemma_count_type_without_id(s, id, EntryType::Update);
    lemma_count_type_without_id(s, id, EntryType::Delete);
    assert(s1.drop_last() == base);
    assert(s1.last() == s1[s1.len() - 1]);
    assert(has_create_for(s1, id));
}

/// Law — create collapse. Recording an object that the log does not yet
/// know and that is not synchronised announces a creation; recording it
/// again, in whatever mutated state but still unsynchronised, collapses to
/// a single creation entry that holds the latest content: the log's length
/// does not grow the second time, and exactly one entry for the object
/// remains.
pub proof fn lemma_create_collapse(
    s0: Seq<LogEntry>,
    s1: Seq<LogEntry>,
    s2: Seq<LogEntry>,
    id: Seq<char>,
    d1: Seq<char>,
    d2: Seq<char>,
)
    requires
        !has_entry_for(s0, id),
        log_step(s0, s1, id, false, d1),
        log_step(s1, s2, id, false, d2),
    ensures
        s1.len() == s0.len() + 1,
        s2.len() == s0.len() + 1,
        count_for_id(s2, id) == 1,
        s2.last().entry_type == EntryType::Create,
        s2.last().data@ == d2,
        count_type(s2, EntryType::Create) == count_type(s0, EntryType::Create) + 1,
        count_type(s2, EntryType::Update) == count_type(s0, EntryType::Update),
        count_type(s2, EntryType::Delete) == count_type(s0, EntryType::Delete),
{
    lemma_without_id_no_entry(s0, id);
    assert(classify(s0, id, false) == EntryType::Create);
    assert(s1.drop_last() == s0);
    assert(s1.last() == s1[s1.len() - 1]);
    assert(has_entry_for(s1, id));
    assert(has_create_for(s1, id));
    assert(classify(s1, id, false) == EntryType::Create);
    assert(without_id(s1, id) == without_id(s0, id));
    assert(s2.drop_last() == s0);
    lemma_count_for_id_no_entry(s0, id);
}

/// Law — update accumulation. While the log holds no unflushed creation for
/// an object, recording the object as synchronised appends an update and
/// removes nothing; doing so twice in a row grows the log by exactly two
/// update entries, whether or not the content changed in between.
pub proof fn lemma_update_accumulation(
    s0: Seq<LogEntry>,
    s1: Seq<LogEntry>,
    s2: Seq<LogEntry>,
    id: Seq<char>,
    d1: Seq<char>,
    d2: Seq<char>,
)
    requires
        !has_create_for(s0, id),
        log_step(s0, s1, id, true, d1),
        log_step(s1, s2, id, true, d2),
    ensures
        s1.len() == s0.len() + 1,
        s2.len() == s0.len() + 2,
        count_for_id(s2, id) == count_for_id(s0, id) + 2,
        count_type(s2, EntryType::Update) == count_type(s0, EntryType::Update) + 2,
        count_type(s2, EntryType::Create) == count_type(s0, EntryType::Create),
        count_type(s2, EntryType::Delete) == count_type(s0, EntryType::Delete),
{
    assert(classify(s0, id, true) == EntryType::Update);
    assert(s1.drop_last() == s0);
    assert(s1.last() == s1[s1.len() - 1]);
    assert(has_entry_for(s1, id));
    assert forall|i: int|
        0 <= i < s1.len() && s1[i].obj_id@ == id implies s1[i].entry_type
        != EntryType::Create by {
        if i < s0.len() {
            assert(s1[i] == s1.drop_last()[i]);
        }
    }
    assert(!has_create_for(s1, id));
    assert(classify(s1, id, true) == EntryType::Update);
    assert(s2.drop_last() == s1);
    assert(count_for_id(s1, id) == count_for_id(s0, id) + 1);
    assert(count_for_id(s2, id) == count_for_id(s1, id) + 1);
    assert(count_type(s1, EntryType::Update) == count_type(s0, EntryType::Update) + 1);
    assert(count_type(s2, EntryType::Update) == count_type(s1, EntryType::Update) + 1);
    assert(count_type(s1, EntryType::Create) == count_type(s0, EntryType::Create));
    assert(count_type(s2, EntryType::Create) == count_type(s1, EntryType::Create));
    assert(count_type(s1, EntryType::Delete) == count_type(s0, EntryType::Delete));
    assert(count_type(s2, EntryType::Delete) == count_type(s1, EntryType::Delete));
}

} // verus!
